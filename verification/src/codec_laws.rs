//! The laws of the bencode codec: decoding inverts canonical encoding, and
//! the encoding of a dictionary does not depend on the order its entries
//! were inserted in.

use crate::bencode::{
    concat_payloads, dec_dict_entries, dec_int, dec_list_items, dec_str, enc_bytes, encode_entries,
    encode_list, insert_pair, int_repr, sort_pairs, spec_decode, spec_encode, BValue, BencodeError,
};
use crate::byteseq::{key_le, key_lt, lemma_key_le_antisym, lemma_key_le_total, lemma_key_le_trans};
use crate::digits::{
    dec_digits, digits_len, is_digit, lemma_dec_digits_are_digits, lemma_dec_digits_no_leading_zero,
    lemma_digits_len_concat, lemma_nat_of_dec_digits, nat_of,
};
use vstd::prelude::*;

verus! {

/// A value every part of which the encoder can reproduce exactly: integers
/// fit in 64 bits (they always do at run time), and every dictionary holds
/// its entries in strictly ascending raw-byte key order, so that re-encoding
/// emits them where the decoder found them.
pub open spec fn canonical(v: BValue) -> bool
    decreases v,
{
    match v {
        BValue::Int(i) => i64::MIN <= i <= i64::MAX,
        BValue::Bytes(_) => true,
        BValue::List(items) => canonical_list(items),
        BValue::Dict(es) => canonical_entries(es) && sorted_entry_keys(es),
    }
}

pub open spec fn canonical_list(items: Seq<BValue>) -> bool
    decreases items,
{
    if items.len() == 0 {
        true
    } else {
        canonical(items[0]) && canonical_list(items.skip(1))
    }
}

pub open spec fn canonical_entries(es: Seq<(Seq<u8>, BValue)>) -> bool
    decreases es,
{
    if es.len() == 0 {
        true
    } else {
        canonical(es[0].1) && canonical_entries(es.skip(1))
    }
}

/// Dictionary keys in strictly ascending raw-byte order.
pub open spec fn sorted_entry_keys(es: Seq<(Seq<u8>, BValue)>) -> bool {
    forall|i: int, j: int| 0 <= i < j < es.len() ==> key_lt(#[trigger] es[i].0, #[trigger] es[j].0)
}

proof fn lemma_encode_entries_index(es: Seq<(Seq<u8>, BValue)>)
    ensures
        encode_entries(es).len() == es.len(),
        forall|i: int|
            0 <= i < es.len() ==> #[trigger] encode_entries(es)[i] == (
                es[i].0,
                enc_bytes(es[i].0) + spec_encode(es[i].1),
            ),
    decreases es,
{
    if es.len() > 0 {
        lemma_encode_entries_index(es.skip(1));
        assert(forall|i: int| 0 <= i < es.len() - 1 ==> #[trigger] es.skip(1)[i] == es[i + 1]);
    }
}

/// An encoding is never empty, and its first byte is never the terminator.
proof fn lemma_encode_first(v: BValue)
    ensures
        spec_encode(v).len() >= 1,
        spec_encode(v)[0] != 101,
        spec_encode(v)[0] != 58,
{
    match v {
        BValue::Int(i) => {
            assert(spec_encode(v)[0] == 105);
        },
        BValue::Bytes(s) => {
            lemma_dec_digits_are_digits(s.len());
            assert(spec_encode(v)[0] == dec_digits(s.len())[0]);
            assert(is_digit(dec_digits(s.len())[0]));
        },
        BValue::List(items) => {
            assert(spec_encode(v)[0] == 108);
        },
        BValue::Dict(es) => {
            assert(spec_encode(v)[0] == 100);
        },
    }
}

/// Decoding an encoded integer consumes exactly the encoding.
proof fn lemma_dec_int_round(i: int, rest: Seq<u8>)
    requires
        i64::MIN <= i <= i64::MAX,
    ensures
        dec_int(int_repr(i) + seq![101u8] + rest) == Ok::<(BValue, Seq<u8>), BencodeError>(
            (BValue::Int(i), rest),
        ),
{
    let m = if i < 0 {
        (-i) as nat
    } else {
        i as nat
    };
    let dd = dec_digits(m);
    lemma_dec_digits_are_digits(m);
    lemma_nat_of_dec_digits(m);
    let t = int_repr(i) + seq![101u8] + rest;
    let tail = seq![101u8] + rest;
    if i < 0 {
        assert(t[0] == 45);
        let ds = t.skip(1);
        assert(ds =~= dd + tail);
        lemma_digits_len_concat(dd, tail);
        assert(digits_len(ds) == dd.len());
        let n = dd.len() as int;
        assert(ds.len() == n + 1 + rest.len());
        assert(ds[n] == 101);
        lemma_dec_digits_no_leading_zero(m);
        assert(ds[0] == dd[0]);
        assert(ds.take(n) =~= dd);
        assert(nat_of(dd) == m);
        assert(ds.skip(n + 1) =~= rest);
    } else {
        assert(t =~= dd + tail);
        assert(t[0] == dd[0]);
        assert(is_digit(dd[0]));
        assert(t[0] != 45);
        lemma_digits_len_concat(dd, tail);
        assert(digits_len(t) == dd.len());
        let n = dd.len() as int;
        assert(t[n] == 101);
        if m >= 1 {
            lemma_dec_digits_no_leading_zero(m);
        }
        assert(t.take(n) =~= dd);
        assert(t.skip(n + 1) =~= rest);
    }
}

/// Decoding an encoded byte string consumes exactly the encoding.
proof fn lemma_dec_str_round(s: Seq<u8>, rest: Seq<u8>)
    ensures
        dec_str(enc_bytes(s) + rest) == Ok::<(BValue, Seq<u8>), BencodeError>(
            (BValue::Bytes(s), rest),
        ),
{
    let dd = dec_digits(s.len());
    lemma_dec_digits_are_digits(s.len());
    lemma_nat_of_dec_digits(s.len());
    let t = enc_bytes(s) + rest;
    let tail = seq![58u8] + s + rest;
    assert(t =~= dd + tail);
    lemma_digits_len_concat(dd, tail);
    assert(digits_len(t) == dd.len());
    let n = dd.len() as int;
    assert(t.len() == n + 1 + s.len() + rest.len());
    assert(t[n] == 58);
    if s.len() >= 1 {
        lemma_dec_digits_no_leading_zero(s.len());
        assert(t[0] == dd[0]);
    }
    assert(t.take(n) =~= dd);
    assert(nat_of(dd) == s.len());
    assert(t.subrange(n + 1, n + 1 + s.len() as int) =~= s);
    assert(t.skip(n + 1 + s.len() as int) =~= rest);
}

/// A strictly sorted run of pairs is already in sort order.
proof fn lemma_sort_sorted_id(s: Seq<(Seq<u8>, Seq<u8>)>)
    requires
        forall|i: int, j: int|
            0 <= i < j < s.len() ==> key_lt(#[trigger] s[i].0, #[trigger] s[j].0),
    ensures
        sort_pairs(s) == s,
    decreases s.len(),
{
    if s.len() > 0 {
        let init = s.drop_last();
        let last = s.last();
        assert(forall|i: int| 0 <= i < init.len() ==> #[trigger] init[i] == s[i]);
        lemma_sort_sorted_id(init);
        assert forall|q: int| 0 <= q < init.len() implies !key_le(last.0, #[trigger] init[q].0) by {
            assert(key_lt(init[q].0, last.0));
            if key_le(last.0, init[q].0) {
                lemma_key_le_antisym(init[q].0, last.0);
            }
        }
        crate::bencode::lemma_insert_pair_splice(last, init, init.len() as int);
        assert(init.take(init.len() as int) =~= init);
        assert(init.skip(init.len() as int) =~= Seq::<(Seq<u8>, Seq<u8>)>::empty());
        assert(init + seq![last] + Seq::<(Seq<u8>, Seq<u8>)>::empty() =~= s);
    }
}

proof fn lemma_round_trip_items(items: Seq<BValue>, rest: Seq<u8>)
    requires
        canonical_list(items),
    ensures
        dec_list_items(encode_list(items) + seq![101u8] + rest) == Ok::<
            (Seq<BValue>, Seq<u8>),
            BencodeError,
        >((items, rest)),
    decreases items,
{
    let t = encode_list(items) + seq![101u8] + rest;
    if items.len() == 0 {
        assert(t =~= seq![101u8] + rest);
        assert(t[0] == 101);
        assert(t.skip(1) =~= rest);
        assert(items =~= Seq::<BValue>::empty());
    } else {
        let h = items[0];
        let tl = items.skip(1);
        let inner = encode_list(tl) + seq![101u8] + rest;
        assert(t =~= spec_encode(h) + inner);
        lemma_encode_first(h);
        assert(t[0] == spec_encode(h)[0]);
        assert(t[0] != 101);
        lemma_round_trip(h, inner);
        assert(spec_decode(t) == Ok::<(BValue, Seq<u8>), BencodeError>((h, inner)));
        assert(inner.len() < t.len());
        lemma_round_trip_items(tl, rest);
        assert(seq![h] + tl =~= items);
    }
}

proof fn lemma_round_trip_entries(es: Seq<(Seq<u8>, BValue)>, rest: Seq<u8>)
    requires
        canonical_entries(es),
    ensures
        dec_dict_entries(concat_payloads(encode_entries(es)) + seq![101u8] + rest) == Ok::<
            (Seq<(Seq<u8>, BValue)>, Seq<u8>),
            BencodeError,
        >((es, rest)),
    decreases es,
{
    let t = concat_payloads(encode_entries(es)) + seq![101u8] + rest;
    if es.len() == 0 {
        assert(concat_payloads(encode_entries(es)) =~= Seq::<u8>::empty());
        assert(t =~= seq![101u8] + rest);
        assert(t[0] == 101);
        assert(t.skip(1) =~= rest);
        assert(es =~= Seq::<(Seq<u8>, BValue)>::empty());
    } else {
        let k = es[0].0;
        let v = es[0].1;
        let tl = es.skip(1);
        let pairs = encode_entries(es);
        assert(pairs[0] == (k, enc_bytes(k) + spec_encode(v)));
        assert(pairs.skip(1) =~= encode_entries(tl));
        assert(concat_payloads(pairs) == (enc_bytes(k) + spec_encode(v)) + concat_payloads(
            encode_entries(tl),
        ));
        let after_key = spec_encode(v) + (concat_payloads(encode_entries(tl)) + seq![101u8] + rest);
        let after_val = concat_payloads(encode_entries(tl)) + seq![101u8] + rest;
        assert(t =~= enc_bytes(k) + after_key);
        lemma_dec_str_round(k, after_key);
        lemma_dec_digits_are_digits(k.len());
        assert(t[0] == dec_digits(k.len())[0]);
        assert(is_digit(t[0]));
        assert(t[0] != 105 && t[0] != 101);
        assert(spec_decode(t) == dec_str(t));
        assert(spec_decode(t) == Ok::<(BValue, Seq<u8>), BencodeError>(
            (BValue::Bytes(k), after_key),
        ));
        assert(enc_bytes(k).len() >= 2);
        assert(after_key.len() < t.len());
        lemma_round_trip(v, after_val);
        lemma_encode_first(v);
        assert(after_val.len() < after_key.len());
        lemma_round_trip_entries(tl, rest);
        assert(seq![(k, v)] + tl =~= es);
    }
}

/// Round trip: decoding a canonical encoding yields the encoded value and
/// leaves exactly the trailing input unconsumed.
pub proof fn lemma_round_trip(v: BValue, rest: Seq<u8>)
    requires
        canonical(v),
    ensures
        spec_decode(spec_encode(v) + rest) == Ok::<(BValue, Seq<u8>), BencodeError>((v, rest)),
    decreases v,
{
    let t = spec_encode(v) + rest;
    match v {
        BValue::Int(i) => {
            assert(t =~= seq![105u8] + (int_repr(i) + seq![101u8] + rest));
            assert(t[0] == 105);
            assert(t.skip(1) =~= int_repr(i) + seq![101u8] + rest);
            lemma_dec_int_round(i, rest);
        },
        BValue::Bytes(s) => {
            assert(t =~= enc_bytes(s) + rest);
            lemma_dec_str_round(s, rest);
            lemma_dec_digits_are_digits(s.len());
            assert(t[0] == dec_digits(s.len())[0]);
            assert(is_digit(t[0]));
            assert(t[0] != 105);
            assert(spec_decode(t) == dec_str(t));
        },
        BValue::List(items) => {
            assert(t =~= seq![108u8] + (encode_list(items) + seq![101u8] + rest));
            assert(t[0] == 108);
            assert(!is_digit(108u8));
            assert(t.skip(1) =~= encode_list(items) + seq![101u8] + rest);
            lemma_round_trip_items(items, rest);
        },
        BValue::Dict(es) => {
            lemma_encode_entries_index(es);
            assert forall|i: int, j: int|
                0 <= i < j < encode_entries(es).len() implies key_lt(
                #[trigger] encode_entries(es)[i].0,
                #[trigger] encode_entries(es)[j].0,
            ) by {
                assert(encode_entries(es)[i].0 == es[i].0);
                assert(encode_entries(es)[j].0 == es[j].0);
            }
            lemma_sort_sorted_id(encode_entries(es));
            assert(t =~= seq![100u8] + (concat_payloads(encode_entries(es)) + seq![101u8] + rest));
            assert(t[0] == 100);
            assert(!is_digit(100u8));
            assert(t.skip(1) =~= concat_payloads(encode_entries(es)) + seq![101u8] + rest);
            lemma_round_trip_entries(es, rest);
        },
    }
}

/// Keys pairwise distinct among dictionary entries.
pub open spec fn distinct_entry_keys(es: Seq<(Seq<u8>, BValue)>) -> bool {
    forall|i: int, j: int| 0 <= i < j < es.len() ==> (#[trigger] es[i]).0 != (#[trigger] es[j]).0
}

/// Keys pairwise distinct among encoded pairs.
pub open spec fn distinct_pair_keys(s: Seq<(Seq<u8>, Seq<u8>)>) -> bool {
    forall|i: int, j: int| 0 <= i < j < s.len() ==> (#[trigger] s[i]).0 != (#[trigger] s[j]).0
}

/// Pairs in ascending raw-byte key order.
pub open spec fn sorted_pair_keys(s: Seq<(Seq<u8>, Seq<u8>)>) -> bool {
    forall|i: int, j: int|
        0 <= i < j < s.len() ==> key_le((#[trigger] s[i]).0, (#[trigger] s[j]).0)
}

proof fn lemma_insert_pair_multiset(p: (Seq<u8>, Seq<u8>), s: Seq<(Seq<u8>, Seq<u8>)>)
    ensures
        insert_pair(p, s).to_multiset() == s.to_multiset().insert(p),
    decreases s.len(),
{
    broadcast use vstd::seq_lib::group_to_multiset_ensures;
    broadcast use vstd::multiset::group_multiset_axioms;

    if s.len() == 0 {
        assert(seq![p] =~= Seq::<(Seq<u8>, Seq<u8>)>::empty().push(p));
        assert(s =~= Seq::<(Seq<u8>, Seq<u8>)>::empty());
    } else if key_le(p.0, s[0].0) {
        assert(seq![p] + s =~= s.insert(0, p));
        vstd::seq_lib::to_multiset_insert(s, 0, p);
    } else {
        let r = insert_pair(p, s.skip(1));
        lemma_insert_pair_multiset(p, s.skip(1));
        assert(seq![s[0]] + r =~= r.insert(0, s[0]));
        vstd::seq_lib::to_multiset_insert(r, 0, s[0]);
        assert(s =~= s.skip(1).insert(0, s[0]));
        vstd::seq_lib::to_multiset_insert(s.skip(1), 0, s[0]);
        assert(s.skip(1).to_multiset().insert(p).insert(s[0]) =~= s.skip(
            1,
        ).to_multiset().insert(s[0]).insert(p));
    }
}

proof fn lemma_sort_pairs_multiset(s: Seq<(Seq<u8>, Seq<u8>)>)
    ensures
        sort_pairs(s).to_multiset() == s.to_multiset(),
    decreases s.len(),
{
    broadcast use vstd::seq_lib::group_to_multiset_ensures;

    if s.len() > 0 {
        lemma_sort_pairs_multiset(s.drop_last());
        lemma_insert_pair_multiset(s.last(), sort_pairs(s.drop_last()));
        assert(s =~= s.drop_last().push(s.last()));
        assert(s.drop_last().push(s.last()).to_multiset() =~= s.drop_last().to_multiset().insert(
            s.last(),
        ));
    }
}

proof fn lemma_insert_pair_elements(p: (Seq<u8>, Seq<u8>), s: Seq<(Seq<u8>, Seq<u8>)>)
    ensures
        insert_pair(p, s).len() == s.len() + 1,
        forall|k: int|
            0 <= k < insert_pair(p, s).len() ==> #[trigger] insert_pair(p, s)[k] == p
                || s.contains(insert_pair(p, s)[k]),
    decreases s.len(),
{
    let r = insert_pair(p, s);
    if s.len() == 0 {
    } else if key_le(p.0, s[0].0) {
        assert forall|k: int| 0 <= k < r.len() implies #[trigger] r[k] == p || s.contains(r[k]) by {
            if k > 0 {
                assert(r[k] == s[k - 1]);
            }
        }
    } else {
        let r0 = insert_pair(p, s.skip(1));
        lemma_insert_pair_elements(p, s.skip(1));
        assert forall|k: int| 0 <= k < r.len() implies #[trigger] r[k] == p || s.contains(r[k]) by {
            if k == 0 {
                assert(r[0] == s[0]);
                assert(s.contains(s[0]));
            } else {
                assert(r[k] == r0[k - 1]);
                if r0[k - 1] != p {
                    assert(s.skip(1).contains(r0[k - 1]));
                    let idx = choose|idx: int|
                        0 <= idx < s.skip(1).len() && s.skip(1)[idx] == r0[k - 1];
                    assert(s[idx + 1] == r0[k - 1]);
                }
            }
        }
    }
}

proof fn lemma_insert_pair_sorted(p: (Seq<u8>, Seq<u8>), s: Seq<(Seq<u8>, Seq<u8>)>)
    requires
        sorted_pair_keys(s),
    ensures
        sorted_pair_keys(insert_pair(p, s)),
    decreases s.len(),
{
    let r = insert_pair(p, s);
    if s.len() == 0 {
        assert forall|i: int, j: int|
            0 <= i < j < r.len() implies key_le((#[trigger] r[i]).0, (#[trigger] r[j]).0) by {}
    } else if key_le(p.0, s[0].0) {
        assert forall|i: int, j: int|
            0 <= i < j < r.len() implies key_le((#[trigger] r[i]).0, (#[trigger] r[j]).0) by {
            if i == 0 {
                assert(r[j] == s[j - 1]);
                if j - 1 > 0 {
                    assert(key_le(s[0].0, s[j - 1].0));
                    lemma_key_le_trans(p.0, s[0].0, s[j - 1].0);
                }
            } else {
                assert(r[i] == s[i - 1]);
                assert(r[j] == s[j - 1]);
            }
        }
    } else {
        lemma_key_le_total(p.0, s[0].0);
        assert(key_le(s[0].0, p.0));
        let t = s.skip(1);
        assert(forall|q: int| 0 <= q < t.len() ==> #[trigger] t[q] == s[q + 1]);
        lemma_insert_pair_sorted(p, t);
        lemma_insert_pair_elements(p, t);
        let r0 = insert_pair(p, t);
        assert forall|i: int, j: int|
            0 <= i < j < r.len() implies key_le((#[trigger] r[i]).0, (#[trigger] r[j]).0) by {
            if i == 0 {
                assert(r[0] == s[0]);
                assert(r[j] == r0[j - 1]);
                if r0[j - 1] == p {
                } else {
                    assert(t.contains(r0[j - 1]));
                    let idx = choose|idx: int| 0 <= idx < t.len() && t[idx] == r0[j - 1];
                    assert(key_le(s[0].0, s[idx + 1].0));
                }
            } else {
                assert(r[i] == r0[i - 1]);
                assert(r[j] == r0[j - 1]);
            }
        }
    }
}

proof fn lemma_sort_pairs_sorted(s: Seq<(Seq<u8>, Seq<u8>)>)
    ensures
        sorted_pair_keys(sort_pairs(s)),
    decreases s.len(),
{
    if s.len() > 0 {
        lemma_sort_pairs_sorted(s.drop_last());
        lemma_insert_pair_sorted(s.last(), sort_pairs(s.drop_last()));
    }
}

proof fn lemma_dup_count(s: Seq<(Seq<u8>, Seq<u8>)>, i: int, j: int)
    requires
        0 <= i < j < s.len(),
        s[i] == s[j],
    ensures
        s.to_multiset().count(s[i]) >= 2,
{
    broadcast use vstd::seq_lib::group_to_multiset_ensures;
    broadcast use vstd::multiset::group_multiset_axioms;

    let r = s.remove(i);
    s.remove_ensures(i);
    vstd::seq_lib::to_multiset_remove(s, i);
    assert(r[j - 1] == s[j]);
    assert(r.contains(s[i]));
    assert(r.to_multiset().count(s[i]) > 0);
}

proof fn lemma_count2_dup(s: Seq<(Seq<u8>, Seq<u8>)>, x: (Seq<u8>, Seq<u8>))
    requires
        s.to_multiset().count(x) >= 2,
    ensures
        exists|a: int, b: int| 0 <= a < b < s.len() && #[trigger] s[a] == x && #[trigger] s[b] == x,
{
    broadcast use vstd::seq_lib::group_to_multiset_ensures;
    broadcast use vstd::multiset::group_multiset_axioms;

    assert(s.to_multiset().count(x) > 0);
    assert(s.contains(x));
    let a0 = choose|a: int| 0 <= a < s.len() && s[a] == x;
    let r = s.remove(a0);
    s.remove_ensures(a0);
    vstd::seq_lib::to_multiset_remove(s, a0);
    assert(r.to_multiset().count(x) > 0);
    assert(r.contains(x));
    let k = choose|k: int| 0 <= k < r.len() && r[k] == x;
    if k < a0 {
        assert(s[k] == x && s[a0] == x);
    } else {
        assert(s[k + 1] == x && s[a0] == x);
    }
}

proof fn lemma_distinct_transfer(s1: Seq<(Seq<u8>, Seq<u8>)>, s2: Seq<(Seq<u8>, Seq<u8>)>)
    requires
        s1.to_multiset() == s2.to_multiset(),
        distinct_pair_keys(s1),
    ensures
        distinct_pair_keys(s2),
{
    broadcast use vstd::seq_lib::group_to_multiset_ensures;
    broadcast use vstd::multiset::group_multiset_axioms;

    assert forall|i: int, j: int|
        0 <= i < j < s2.len() implies (#[trigger] s2[i]).0 != (#[trigger] s2[j]).0 by {
        if s2[i].0 == s2[j].0 {
            if s2[i] == s2[j] {
                lemma_dup_count(s2, i, j);
                lemma_count2_dup(s1, s2[i]);
                let (a, b) = choose|a: int, b: int|
                    0 <= a < b < s1.len() && #[trigger] s1[a] == s2[i] && #[trigger] s1[b] == s2[i];
                assert(s1[a].0 == s1[b].0);
                assert(false);
            } else {
                assert(s2.contains(s2[i]));
                assert(s2.contains(s2[j]));
                assert(s1.to_multiset().count(s2[i]) > 0);
                assert(s1.to_multiset().count(s2[j]) > 0);
                assert(s1.contains(s2[i]));
                assert(s1.contains(s2[j]));
                let a = choose|a: int| 0 <= a < s1.len() && s1[a] == s2[i];
                let b = choose|b: int| 0 <= b < s1.len() && s1[b] == s2[j];
                assert(a != b);
                if a < b {
                    assert(s1[a].0 != s1[b].0);
                } else {
                    assert(s1[b].0 != s1[a].0);
                }
                assert(false);
            }
        }
    }
}

proof fn lemma_sorted_multiset_unique(s1: Seq<(Seq<u8>, Seq<u8>)>, s2: Seq<(Seq<u8>, Seq<u8>)>)
    requires
        sorted_pair_keys(s1),
        sorted_pair_keys(s2),
        distinct_pair_keys(s1),
        s1.to_multiset() == s2.to_multiset(),
    ensures
        s1 == s2,
    decreases s1.len(),
{
    broadcast use vstd::seq_lib::group_to_multiset_ensures;
    broadcast use vstd::multiset::group_multiset_axioms;

    if s1.len() == 0 {
        assert(s1.to_multiset().len() == 0);
        assert(s2.len() == 0);
        assert(s1 =~= s2);
    } else {
        let h1 = s1[0];
        let h2 = s2[0];
        assert(s1.contains(h1));
        assert(s2.to_multiset().count(h1) > 0);
        assert(s2.contains(h1));
        let j = choose|j: int| 0 <= j < s2.len() && s2[j] == h1;
        assert(s2.contains(h2));
        assert(s1.to_multiset().count(h2) > 0);
        assert(s1.contains(h2));
        let m = choose|m: int| 0 <= m < s1.len() && s1[m] == h2;
        if m != 0 && j != 0 {
            assert(key_le(s1[0].0, s1[m].0));
            assert(key_le(s2[0].0, s2[j].0));
            lemma_key_le_antisym(h1.0, h2.0);
            assert(s1[0].0 != s1[m].0);
            assert(false);
        }
        assert(h1 == h2);
        let t1 = s1.drop_first();
        let t2 = s2.drop_first();
        assert(t1 =~= s1.remove(0));
        assert(t2 =~= s2.remove(0));
        vstd::seq_lib::to_multiset_remove(s1, 0);
        vstd::seq_lib::to_multiset_remove(s2, 0);
        assert(t1.to_multiset() == t2.to_multiset());
        assert(forall|q: int| 0 <= q < t1.len() ==> #[trigger] t1[q] == s1[q + 1]);
        assert(forall|q: int| 0 <= q < t2.len() ==> #[trigger] t2[q] == s2[q + 1]);
        lemma_sorted_multiset_unique(t1, t2);
        assert(s1.to_multiset().len() == s2.to_multiset().len());
        assert(s1.len() == s2.len());
        assert forall|q: int| 0 <= q < s1.len() implies s1[q] == s2[q] by {
            if q > 0 {
                assert(t1[q - 1] == s1[q]);
                assert(t2[q - 1] == s2[q]);
            }
        }
        assert(s1 =~= s2);
    }
}

proof fn lemma_encode_entries_multiset(es1: Seq<(Seq<u8>, BValue)>, es2: Seq<(Seq<u8>, BValue)>)
    requires
        es1.to_multiset() == es2.to_multiset(),
    ensures
        encode_entries(es1).to_multiset() == encode_entries(es2).to_multiset(),
    decreases es1.len(),
{
    broadcast use vstd::seq_lib::group_to_multiset_ensures;
    broadcast use vstd::multiset::group_multiset_axioms;

    lemma_encode_entries_index(es1);
    lemma_encode_entries_index(es2);
    if es1.len() == 0 {
        assert(es1.to_multiset().len() == 0);
        assert(es2.len() == 0);
        assert(encode_entries(es1) =~= encode_entries(es2));
    } else {
        let h = es1[0];
        assert(es1.contains(h));
        assert(es2.to_multiset().count(h) > 0);
        assert(es2.contains(h));
        let j = choose|j: int| 0 <= j < es2.len() && es2[j] == h;
        let t1 = es1.drop_first();
        let r2 = es2.remove(j);
        es2.remove_ensures(j);
        assert(t1 =~= es1.remove(0));
        vstd::seq_lib::to_multiset_remove(es1, 0);
        vstd::seq_lib::to_multiset_remove(es2, j);
        assert(t1.to_multiset() == r2.to_multiset());
        lemma_encode_entries_multiset(t1, r2);
        lemma_encode_entries_index(t1);
        lemma_encode_entries_index(r2);
        let p1 = encode_entries(es1);
        let p2 = encode_entries(es2);
        let ph = (h.0, enc_bytes(h.0) + spec_encode(h.1));
        assert(p1[0] == ph);
        assert(p2[j] == ph);
        assert(forall|q: int| 0 <= q < t1.len() ==> #[trigger] t1[q] == es1[q + 1]);
        assert(p1.remove(0) =~= encode_entries(t1)) by {
            p1.remove_ensures(0);
        }
        assert(p2.remove(j) =~= encode_entries(r2)) by {
            p2.remove_ensures(j);
        }
        vstd::seq_lib::to_multiset_remove(p1, 0);
        vstd::seq_lib::to_multiset_remove(p2, j);
        assert(p1.to_multiset().remove(ph) == p2.to_multiset().remove(ph));
        assert(p1.contains(ph));
        assert(p2.contains(ph));
        assert(p1.to_multiset().count(ph) > 0);
        assert(p2.to_multiset().count(ph) > 0);
        assert forall|x: (Seq<u8>, Seq<u8>)|
            p1.to_multiset().count(x) == #[trigger] p2.to_multiset().count(x) by {
            assert(p1.to_multiset().remove(ph).count(x) == p2.to_multiset().remove(ph).count(x));
        }
        assert(p1.to_multiset() =~= p2.to_multiset());
    }
}

/// Canonical dictionary ordering: two dictionaries holding the same entries,
/// inserted in any orders, have byte-identical canonical encodings.
pub proof fn lemma_dict_encoding_order_independent(
    es1: Seq<(Seq<u8>, BValue)>,
    es2: Seq<(Seq<u8>, BValue)>,
)
    requires
        es1.to_multiset() == es2.to_multiset(),
        distinct_entry_keys(es1),
        distinct_entry_keys(es2),
    ensures
        spec_encode(BValue::Dict(es1)) == spec_encode(BValue::Dict(es2)),
{
    lemma_encode_entries_multiset(es1, es2);
    let p1 = encode_entries(es1);
    let p2 = encode_entries(es2);
    lemma_sort_pairs_multiset(p1);
    lemma_sort_pairs_multiset(p2);
    lemma_sort_pairs_sorted(p1);
    lemma_sort_pairs_sorted(p2);
    lemma_encode_entries_index(es1);
    assert(distinct_pair_keys(p1)) by {
        assert forall|i: int, j: int|
            0 <= i < j < p1.len() implies (#[trigger] p1[i]).0 != (#[trigger] p1[j]).0 by {
            assert(p1[i].0 == es1[i].0);
            assert(p1[j].0 == es1[j].0);
        }
    }
    lemma_distinct_transfer(p1, sort_pairs(p1));
    lemma_sorted_multiset_unique(sort_pairs(p1), sort_pairs(p2));
}

/// The canonical encoder emits dictionary entries in ascending raw-byte key
/// order, whatever order they are held in.
pub proof fn lemma_dict_encoding_sorted(es: Seq<(Seq<u8>, BValue)>)
    ensures
        sorted_pair_keys(sort_pairs(encode_entries(es))),
{
    lemma_sort_pairs_sorted(encode_entries(es));
}

} // verus!
