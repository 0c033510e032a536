//! The bencode value codec: integers, byte strings, lists and dictionaries,
//! with a canonical encoder (dictionary keys emitted in ascending raw-byte
//! order, minimal integer and length encodings) and a strict decoder that
//! returns the parsed value together with the unconsumed remainder.

use crate::byteseq::key_le;
use crate::digits::{dec_digits, digits_len, is_digit, nat_of};
use vstd::prelude::*;

verus! {

/// A bencode value at the specification level: integers are unbounded here,
/// byte strings and aggregates are mathematical sequences.
pub enum BValue {
    Int(int),
    Bytes(Seq<u8>),
    List(Seq<BValue>),
    Dict(Seq<(Seq<u8>, BValue)>),
}

/// A bencode value as held at run time. Dictionaries keep their entries in
/// insertion order; the encoder sorts, as the canonical form requires.
#[derive(Debug)]
pub enum BencodeValue {
    Integer(i64),
    ByteString(Vec<u8>),
    List(Vec<BencodeValue>),
    Dictionary(Vec<(Vec<u8>, BencodeValue)>),
}

/// The distinct ways an input can fail to parse as bencode.
#[derive(Clone, Copy, Debug, PartialEq, Eq, Structural)]
pub enum BencodeError {
    /// Integer or length literal breaks the grammar: empty digit span,
    /// a leading zero, a stray byte inside the literal, or a value outside
    /// the signed 64-bit range.
    MalformedInteger,
    /// The input ends before the announced content does.
    TruncatedInput,
    /// A list is never closed by `e`.
    UnterminatedList,
    /// A dictionary is never closed by `e`.
    UnterminatedDict,
    /// A dictionary key is not a byte string.
    InvalidDictKey,
    /// A byte that no grammar rule allows at this position.
    UnexpectedByte,
}

pub open spec fn view_list(s: Seq<BencodeValue>) -> Seq<BValue>
    decreases s,
{
    if s.len() == 0 {
        Seq::empty()
    } else {
        seq![bval_view(s[0])] + view_list(s.skip(1))
    }
}

pub open spec fn view_entries(s: Seq<(Vec<u8>, BencodeValue)>) -> Seq<(Seq<u8>, BValue)>
    decreases s,
{
    if s.len() == 0 {
        Seq::empty()
    } else {
        seq![(s[0].0@, bval_view(s[0].1))] + view_entries(s.skip(1))
    }
}

/// The mathematical value a run-time value stands for.
pub open spec fn bval_view(v: BencodeValue) -> BValue
    decreases v,
{
    match v {
        BencodeValue::Integer(i) => BValue::Int(i as int),
        BencodeValue::ByteString(s) => BValue::Bytes(s@),
        BencodeValue::List(items) => BValue::List(view_list(items@)),
        BencodeValue::Dictionary(entries) => BValue::Dict(view_entries(entries@)),
    }
}

impl View for BencodeValue {
    type V = BValue;

    open spec fn view(&self) -> BValue {
        bval_view(*self)
    }
}

pub proof fn lemma_view_list_index(s: Seq<BencodeValue>)
    ensures
        view_list(s).len() == s.len(),
        forall|i: int| 0 <= i < s.len() ==> #[trigger] view_list(s)[i] == bval_view(s[i]),
    decreases s,
{
    if s.len() > 0 {
        lemma_view_list_index(s.skip(1));
        assert(forall|i: int| 0 <= i < s.len() - 1 ==> #[trigger] s.skip(1)[i] == s[i + 1]);
    }
}

pub proof fn lemma_view_entries_index(s: Seq<(Vec<u8>, BencodeValue)>)
    ensures
        view_entries(s).len() == s.len(),
        forall|i: int|
            0 <= i < s.len() ==> #[trigger] view_entries(s)[i] == (s[i].0@, bval_view(s[i].1)),
    decreases s,
{
    if s.len() > 0 {
        lemma_view_entries_index(s.skip(1));
        assert(forall|i: int| 0 <= i < s.len() - 1 ==> #[trigger] s.skip(1)[i] == s[i + 1]);
    }
}

/// The bencode encoding of a byte string: decimal length, `:`, the bytes.
pub open spec fn enc_bytes(s: Seq<u8>) -> Seq<u8> {
    dec_digits(s.len()) + seq![58u8] + s
}

/// The decimal representation of a signed integer, minus sign included.
pub open spec fn int_repr(i: int) -> Seq<u8> {
    if i < 0 {
        seq![45u8] + dec_digits((-i) as nat)
    } else {
        dec_digits(i as nat)
    }
}

/// Insert a (key, encoded entry) pair into a run already sorted by key.
pub open spec fn insert_pair(p: (Seq<u8>, Seq<u8>), s: Seq<(Seq<u8>, Seq<u8>)>) -> Seq<
    (Seq<u8>, Seq<u8>),
>
    decreases s.len(),
{
    if s.len() == 0 {
        seq![p]
    } else if key_le(p.0, s[0].0) {
        seq![p] + s
    } else {
        seq![s[0]] + insert_pair(p, s.skip(1))
    }
}

/// Insertion sort of (key, encoded entry) pairs by raw-byte key order.
pub open spec fn sort_pairs(s: Seq<(Seq<u8>, Seq<u8>)>) -> Seq<(Seq<u8>, Seq<u8>)>
    decreases s.len(),
{
    if s.len() == 0 {
        s
    } else {
        insert_pair(s.last(), sort_pairs(s.drop_last()))
    }
}

/// Concatenation of the encoded-entry components of a pair run.
pub open spec fn concat_payloads(s: Seq<(Seq<u8>, Seq<u8>)>) -> Seq<u8>
    decreases s.len(),
{
    if s.len() == 0 {
        Seq::empty()
    } else {
        s[0].1 + concat_payloads(s.skip(1))
    }
}

pub open spec fn encode_list(items: Seq<BValue>) -> Seq<u8>
    decreases items,
{
    if items.len() == 0 {
        Seq::empty()
    } else {
        spec_encode(items[0]) + encode_list(items.skip(1))
    }
}

/// Each dictionary entry keyed by its raw key bytes, paired with its
/// encoding (encoded key followed by encoded value).
pub open spec fn encode_entries(es: Seq<(Seq<u8>, BValue)>) -> Seq<(Seq<u8>, Seq<u8>)>
    decreases es,
{
    if es.len() == 0 {
        Seq::empty()
    } else {
        seq![(es[0].0, enc_bytes(es[0].0) + spec_encode(es[0].1))] + encode_entries(es.skip(1))
    }
}

/// The canonical bencode encoding: dictionary entries are emitted in
/// ascending raw-byte key order whatever order they are held in, so every
/// value has exactly one encoding.
pub open spec fn spec_encode(v: BValue) -> Seq<u8>
    decreases v,
{
    match v {
        BValue::Int(i) => seq![105u8] + int_repr(i) + seq![101u8],
        BValue::Bytes(s) => enc_bytes(s),
        BValue::List(items) => seq![108u8] + encode_list(items) + seq![101u8],
        BValue::Dict(es) => seq![100u8] + concat_payloads(sort_pairs(encode_entries(es)))
            + seq![101u8],
    }
}

/// Decode an integer body (everything after the leading `i`).
pub open spec fn dec_int(t: Seq<u8>) -> Result<(BValue, Seq<u8>), BencodeError> {
    let neg = t.len() > 0 && t[0] == 45;
    let ds = if neg {
        t.skip(1)
    } else {
        t
    };
    let n = digits_len(ds);
    if n == 0 {
        Err(BencodeError::MalformedInteger)
    } else if n >= ds.len() {
        Err(BencodeError::TruncatedInput)
    } else if ds[n as int] != 101 {
        Err(BencodeError::MalformedInteger)
    } else if ds[0] == 48 && (n > 1 || neg) {
        Err(BencodeError::MalformedInteger)
    } else {
        let m = nat_of(ds.take(n as int));
        let val = if neg {
            -(m as int)
        } else {
            m as int
        };
        if val < i64::MIN || val > i64::MAX {
            Err(BencodeError::MalformedInteger)
        } else {
            Ok((BValue::Int(val), ds.skip(n as int + 1)))
        }
    }
}

/// Decode a byte string (a digit is already known to lead `s`).
pub open spec fn dec_str(s: Seq<u8>) -> Result<(BValue, Seq<u8>), BencodeError> {
    let n = digits_len(s);
    if n >= s.len() {
        Err(BencodeError::TruncatedInput)
    } else if s[n as int] != 58 {
        Err(BencodeError::UnexpectedByte)
    } else if s[0] == 48 && n > 1 {
        Err(BencodeError::MalformedInteger)
    } else {
        let len = nat_of(s.take(n as int)) as int;
        let start = n + 1;
        if len > s.len() - start {
            Err(BencodeError::TruncatedInput)
        } else {
            Ok((BValue::Bytes(s.subrange(start as int, start + len)), s.skip(start + len)))
        }
    }
}

/// The bencode grammar, as a function from input to parsed value and
/// unconsumed remainder, or to the distinct error the grammar assigns.
pub open spec fn spec_decode(s: Seq<u8>) -> Result<(BValue, Seq<u8>), BencodeError>
    decreases s.len(), 0int,
{
    if s.len() == 0 {
        Err(BencodeError::TruncatedInput)
    } else if s[0] == 105 {
        dec_int(s.skip(1))
    } else if is_digit(s[0]) {
        dec_str(s)
    } else if s[0] == 108 {
        match dec_list_items(s.skip(1)) {
            Ok((items, rest)) => Ok((BValue::List(items), rest)),
            Err(e) => Err(e),
        }
    } else if s[0] == 100 {
        match dec_dict_entries(s.skip(1)) {
            Ok((es, rest)) => Ok((BValue::Dict(es), rest)),
            Err(e) => Err(e),
        }
    } else {
        Err(BencodeError::UnexpectedByte)
    }
}

/// Decode list items up to and including the closing `e`.
pub open spec fn dec_list_items(t: Seq<u8>) -> Result<(Seq<BValue>, Seq<u8>), BencodeError>
    decreases t.len(), 1int,
{
    if t.len() == 0 {
        Err(BencodeError::UnterminatedList)
    } else if t[0] == 101 {
        Ok((Seq::empty(), t.skip(1)))
    } else {
        match spec_decode(t) {
            Err(e) => Err(e),
            Ok((v, r)) => if r.len() < t.len() {
                match dec_list_items(r) {
                    Err(e) => Err(e),
                    Ok((vs, rest)) => Ok((seq![v] + vs, rest)),
                }
            } else {
                Err(BencodeError::UnterminatedList)
            },
        }
    }
}

/// Decode dictionary entries up to and including the closing `e`. Keys must
/// be byte strings; their order is not validated here.
pub open spec fn dec_dict_entries(t: Seq<u8>) -> Result<
    (Seq<(Seq<u8>, BValue)>, Seq<u8>),
    BencodeError,
>
    decreases t.len(), 1int,
{
    if t.len() == 0 {
        Err(BencodeError::UnterminatedDict)
    } else if t[0] == 101 {
        Ok((Seq::empty(), t.skip(1)))
    } else {
        match spec_decode(t) {
            Err(e) => Err(e),
            Ok((k, r)) => match k {
                BValue::Bytes(key) => if r.len() < t.len() {
                    match spec_decode(r) {
                        Err(e) => Err(e),
                        Ok((v, r2)) => if r2.len() < r.len() {
                            match dec_dict_entries(r2) {
                                Err(e) => Err(e),
                                Ok((es, rest)) => Ok((seq![(key, v)] + es, rest)),
                            }
                        } else {
                            Err(BencodeError::UnterminatedDict)
                        },
                    }
                } else {
                    Err(BencodeError::UnterminatedDict)
                },
                _ => Err(BencodeError::InvalidDictKey),
            },
        }
    }
}

/// The value under the first occurrence of a key, in entry order.
pub open spec fn dict_lookup(es: Seq<(Seq<u8>, BValue)>, k: Seq<u8>) -> Option<BValue>
    decreases es.len(),
{
    if es.len() == 0 {
        None
    } else if es[0].0 == k {
        Some(es[0].1)
    } else {
        dict_lookup(es.skip(1), k)
    }
}

fn dict_get_from<'a>(
    entries: &'a Vec<(Vec<u8>, BencodeValue)>,
    key: &Vec<u8>,
    i: usize,
) -> (r: Option<&'a BencodeValue>)
    requires
        i <= entries.len(),
    ensures
        match r {
            Some(v) => dict_lookup(view_entries(entries@).skip(i as int), key@) == Some(v@),
            None => dict_lookup(view_entries(entries@).skip(i as int), key@) == None::<BValue>,
        },
    decreases entries.len() - i,
{
    proof {
        lemma_view_entries_index(entries@);
    }
    let ghost tail = view_entries(entries@).skip(i as int);
    if i == entries.len() {
        proof {
            assert(tail =~= Seq::<(Seq<u8>, BValue)>::empty());
        }
        None
    } else {
        proof {
            assert(tail[0] == view_entries(entries@)[i as int]);
            assert(tail.skip(1) =~= view_entries(entries@).skip(i as int + 1));
        }
        if crate::byteseq::bytes_eq(&entries[i].0, key) {
            Some(&entries[i].1)
        } else {
            dict_get_from(entries, key, i + 1)
        }
    }
}

/// Looks a key up among dictionary entries, first occurrence in entry order.
pub fn dict_get<'a>(entries: &'a Vec<(Vec<u8>, BencodeValue)>, key: &Vec<u8>) -> (r: Option<
    &'a BencodeValue,
>)
    ensures
        match r {
            Some(v) => dict_lookup(view_entries(entries@), key@) == Some(v@),
            None => dict_lookup(view_entries(entries@), key@) == None::<BValue>,
        },
{
    proof {
        assert(view_entries(entries@).skip(0) =~= view_entries(entries@));
    }
    dict_get_from(entries, key, 0)
}

/// The (key, encoding) views of a run of encoded dictionary entries.
pub open spec fn pair_views(s: Seq<(Vec<u8>, Vec<u8>)>) -> Seq<(Seq<u8>, Seq<u8>)> {
    Seq::new(s.len(), |i: int| (s[i].0@, s[i].1@))
}

fn append_bytes(out: &mut Vec<u8>, s: &Vec<u8>)
    ensures
        final(out)@ == old(out)@ + s@,
{
    proof {
        assert(out@ + s@.take(0) =~= out@);
    }
    let mut k: usize = 0;
    while k < s.len()
        invariant
            k <= s.len(),
            out@ == old(out)@ + s@.take(k as int),
        decreases s.len() - k,
    {
        out.push(s[k]);
        proof {
            assert((old(out)@ + s@.take(k as int)).push(s@[k as int]) =~= old(out)@ + s@.take(
                k as int + 1,
            ));
        }
        k = k + 1;
    }
    proof {
        assert(s@.take(s@.len() as int) =~= s@);
    }
}

pub(crate) fn clone_bytes(s: &Vec<u8>) -> (r: Vec<u8>)
    ensures
        r@ == s@,
{
    let mut r: Vec<u8> = Vec::new();
    append_bytes(&mut r, s);
    proof {
        assert(Seq::<u8>::empty() + s@ =~= s@);
    }
    r
}

fn push_digits(n: u64, out: &mut Vec<u8>)
    ensures
        final(out)@ == old(out)@ + dec_digits(n as nat),
    decreases n,
{
    if n < 10 {
        out.push(48 + n as u8);
        proof {
            assert(old(out)@.push((48 + n) as u8) =~= old(out)@ + seq![(48 + n as nat) as u8]);
        }
    } else {
        push_digits(n / 10, out);
        out.push(48 + (n % 10) as u8);
        proof {
            assert((n / 10) as nat == (n as nat) / 10);
            assert((n % 10) as nat == (n as nat) % 10);
            assert((old(out)@ + dec_digits((n / 10) as nat)).push((48 + (n as nat) % 10) as u8)
                =~= old(out)@ + dec_digits((n / 10) as nat).push((48 + (n as nat) % 10) as u8));
        }
    }
}

fn encode_bytes_into(s: &Vec<u8>, out: &mut Vec<u8>)
    ensures
        final(out)@ == old(out)@ + enc_bytes(s@),
{
    push_digits(s.len() as u64, out);
    out.push(58);
    append_bytes(out, s);
    proof {
        assert(old(out)@ + dec_digits(s@.len()) + seq![58u8] + s@ =~= old(out)@ + (dec_digits(
            s@.len(),
        ) + seq![58u8] + s@));
    }
}

fn push_int(i: i64, out: &mut Vec<u8>)
    ensures
        final(out)@ == old(out)@ + int_repr(i as int),
{
    if i < 0 {
        out.push(45);
        let m: u64 = (-(i as i128)) as u64;
        proof {
            assert(m as nat == (-(i as int)) as nat);
        }
        push_digits(m, out);
        proof {
            assert(old(out)@.push(45u8) + dec_digits(m as nat) =~= old(out)@ + (seq![45u8]
                + dec_digits((-(i as int)) as nat)));
        }
    } else {
        push_digits(i as u64, out);
    }
}

/// Inserting into a sorted run splices at the first position whose key is
/// not below the inserted key.
pub proof fn lemma_insert_pair_splice(p: (Seq<u8>, Seq<u8>), s: Seq<(Seq<u8>, Seq<u8>)>, pi: int)
    requires
        0 <= pi <= s.len(),
        forall|q: int| 0 <= q < pi ==> !key_le(p.0, #[trigger] s[q].0),
        pi == s.len() || key_le(p.0, s[pi].0),
    ensures
        insert_pair(p, s) == s.take(pi) + seq![p] + s.skip(pi),
    decreases s.len(),
{
    if pi == 0 {
        if s.len() == 0 {
            assert(insert_pair(p, s) =~= s.take(0) + seq![p] + s.skip(0));
        } else {
            assert(key_le(p.0, s[0].0));
            assert(seq![p] + s =~= s.take(0) + seq![p] + s.skip(0));
        }
    } else {
        assert(!key_le(p.0, s[0].0));
        let t = s.skip(1);
        assert(forall|q: int| 0 <= q < t.len() ==> #[trigger] t[q] == s[q + 1]);
        lemma_insert_pair_splice(p, t, pi - 1);
        assert(seq![s[0]] + (t.take(pi - 1) + seq![p] + t.skip(pi - 1)) =~= s.take(pi) + seq![p]
            + s.skip(pi));
    }
}

fn find_pos(key: &Vec<u8>, s: &Vec<(Vec<u8>, Vec<u8>)>, k: usize) -> (r: usize)
    requires
        k <= s.len(),
        forall|q: int| 0 <= q < k ==> !key_le(key@, #[trigger] s@[q].0@),
    ensures
        k <= r <= s.len(),
        forall|q: int| 0 <= q < r ==> !key_le(key@, #[trigger] s@[q].0@),
        r == s.len() || key_le(key@, s@[r as int].0@),
    decreases s.len() - k,
{
    if k == s.len() {
        k
    } else if crate::byteseq::bytes_le(key, &s[k].0) {
        k
    } else {
        find_pos(key, s, k + 1)
    }
}

fn insert_pair_exec(p: (Vec<u8>, Vec<u8>), s: &mut Vec<(Vec<u8>, Vec<u8>)>)
    ensures
        pair_views(final(s)@) == insert_pair((p.0@, p.1@), pair_views(old(s)@)),
{
    let ghost pv = pair_views(old(s)@);
    let pos = find_pos(&p.0, s, 0);
    let ghost pi = pos as int;
    s.insert(pos, p);
    proof {
        assert(forall|q: int| 0 <= q < pv.len() ==> #[trigger] pv[q] == (old(s)@[q].0@, old(
            s,
        )@[q].1@));
        lemma_insert_pair_splice((p.0@, p.1@), pv, pi);
        assert(pair_views(s@) =~= pv.take(pi) + seq![(p.0@, p.1@)] + pv.skip(pi));
    }
}

fn sort_pairs_exec(ps: Vec<(Vec<u8>, Vec<u8>)>) -> (r: Vec<(Vec<u8>, Vec<u8>)>)
    ensures
        pair_views(r@) == sort_pairs(pair_views(ps@)),
    decreases ps.len(),
{
    let mut ps = ps;
    let ghost orig = pair_views(ps@);
    match ps.pop() {
        None => {
            proof {
                assert(pair_views(ps@) =~= sort_pairs(pair_views(ps@)));
            }
            ps
        },
        Some(p) => {
            proof {
                assert(pair_views(ps@) =~= orig.drop_last());
                assert(orig.last() == (p.0@, p.1@));
            }
            let mut sorted = sort_pairs_exec(ps);
            insert_pair_exec(p, &mut sorted);
            sorted
        },
    }
}

/// Appending one pair appends its encoding to the payload concatenation.
pub proof fn lemma_concat_payloads_push(t: Seq<(Seq<u8>, Seq<u8>)>, x: (Seq<u8>, Seq<u8>))
    ensures
        concat_payloads(t.push(x)) == concat_payloads(t) + x.1,
    decreases t.len(),
{
    if t.len() == 0 {
        assert(t.push(x)[0] == x);
        assert(t.push(x).skip(1) =~= Seq::<(Seq<u8>, Seq<u8>)>::empty());
        assert(concat_payloads(Seq::<(Seq<u8>, Seq<u8>)>::empty()) == Seq::<u8>::empty());
        assert(concat_payloads(t.push(x)) == x.1 + Seq::<u8>::empty());
        assert(x.1 + Seq::<u8>::empty() =~= x.1);
        assert(concat_payloads(t) + x.1 =~= x.1);
    } else {
        assert(t.push(x)[0] == t[0]);
        assert(t.push(x).skip(1) =~= t.skip(1).push(x));
        lemma_concat_payloads_push(t.skip(1), x);
        assert(t[0].1 + (concat_payloads(t.skip(1)) + x.1) =~= (t[0].1 + concat_payloads(
            t.skip(1),
        )) + x.1);
    }
}

fn encode_entry_pairs(entries: &Vec<(Vec<u8>, BencodeValue)>, i: usize) -> (r: Vec<
    (Vec<u8>, Vec<u8>),
>)
    requires
        i <= entries.len(),
    ensures
        pair_views(r@) == encode_entries(view_entries(entries@.skip(i as int))),
    decreases entries@.skip(i as int),
{
    if i == entries.len() {
        let r: Vec<(Vec<u8>, Vec<u8>)> = Vec::new();
        proof {
            assert(entries@.skip(i as int) =~= Seq::<(Vec<u8>, BencodeValue)>::empty());
            assert(pair_views(r@) =~= encode_entries(view_entries(entries@.skip(i as int))));
        }
        r
    } else {
        let ghost tail = entries@.skip(i as int);
        proof {
            assert(tail[0] == entries@[i as int]);
            assert(tail.skip(1) =~= entries@.skip(i as int + 1));
            assert(decreases_to!(tail => entries@[i as int].1));
        }
        let key_copy = clone_bytes(&entries[i].0);
        let mut payload: Vec<u8> = Vec::new();
        encode_bytes_into(&entries[i].0, &mut payload);
        encode_into(&entries[i].1, &mut payload);
        proof {
            assert(payload@ =~= enc_bytes(entries@[i as int].0@) + spec_encode(
                bval_view(entries@[i as int].1),
            ));
        }
        let mut rest = encode_entry_pairs(entries, i + 1);
        rest.insert(0, (key_copy, payload));
        proof {
            let ves = view_entries(tail);
            assert(ves == seq![(tail[0].0@, bval_view(tail[0].1))] + view_entries(tail.skip(1)));
            assert(ves[0] == (tail[0].0@, bval_view(tail[0].1)));
            assert(ves.skip(1) =~= view_entries(tail.skip(1)));
            assert(pair_views(rest@) =~= encode_entries(ves));
        }
        rest
    }
}

fn encode_list_into(items: &Vec<BencodeValue>, i: usize, out: &mut Vec<u8>)
    requires
        i <= items.len(),
    ensures
        final(out)@ == old(out)@ + encode_list(view_list(items@.skip(i as int))),
    decreases items@.skip(i as int),
{
    if i == items.len() {
        proof {
            assert(items@.skip(i as int) =~= Seq::<BencodeValue>::empty());
            assert(out@ =~= out@ + encode_list(view_list(items@.skip(i as int))));
        }
    } else {
        let ghost tail = items@.skip(i as int);
        proof {
            assert(tail[0] == items@[i as int]);
            assert(tail.skip(1) =~= items@.skip(i as int + 1));
            assert(decreases_to!(tail => items@[i as int]));
        }
        encode_into(&items[i], out);
        encode_list_into(items, i + 1, out);
        proof {
            let vl = view_list(tail);
            assert(vl[0] == bval_view(tail[0]));
            assert(vl.skip(1) =~= view_list(tail.skip(1)));
            assert(encode_list(vl) == spec_encode(vl[0]) + encode_list(vl.skip(1)));
            assert((old(out)@ + spec_encode(bval_view(items@[i as int]))) + encode_list(
                view_list(items@.skip(i as int + 1)),
            ) =~= old(out)@ + encode_list(vl));
        }
    }
}

fn encode_into(v: &BencodeValue, out: &mut Vec<u8>)
    ensures
        final(out)@ == old(out)@ + spec_encode(v@),
    decreases *v,
{
    match v {
        BencodeValue::Integer(i) => {
            out.push(105);
            push_int(*i, out);
            out.push(101);
            proof {
                assert((old(out)@.push(105u8) + int_repr(*i as int)).push(101u8) =~= old(out)@ + (
                seq![105u8] + int_repr(*i as int) + seq![101u8]));
            }
        },
        BencodeValue::ByteString(s) => {
            encode_bytes_into(s, out);
        },
        BencodeValue::List(items) => {
            out.push(108);
            proof {
                assert(items@.skip(0) =~= items@);
            }
            encode_list_into(items, 0, out);
            out.push(101);
            proof {
                assert((old(out)@.push(108u8) + encode_list(view_list(items@))).push(101u8)
                    =~= old(out)@ + (seq![108u8] + encode_list(view_list(items@)) + seq![101u8]));
            }
        },
        BencodeValue::Dictionary(entries) => {
            out.push(100);
            proof {
                assert(entries@.skip(0) =~= entries@);
            }
            let pairs = encode_entry_pairs(entries, 0);
            let sorted = sort_pairs_exec(pairs);
            let ghost sv = pair_views(sorted@);
            let ghost mid = old(out)@.push(100u8);
            let mut k: usize = 0;
            proof {
                assert(out@ =~= mid + concat_payloads(sv.take(0)));
            }
            while k < sorted.len()
                invariant
                    k <= sorted.len(),
                    sv == pair_views(sorted@),
                    out@ == mid + concat_payloads(sv.take(k as int)),
                decreases sorted.len() - k,
            {
                append_bytes(out, &sorted[k].1);
                proof {
                    assert(sv.take(k as int).push(sv[k as int]) =~= sv.take(k as int + 1));
                    lemma_concat_payloads_push(sv.take(k as int), sv[k as int]);
                    assert(sv[k as int].1 == sorted@[k as int].1@);
                    assert((mid + concat_payloads(sv.take(k as int))) + sorted@[k as int].1@
                        =~= mid + concat_payloads(sv.take(k as int + 1)));
                }
                k = k + 1;
            }
            out.push(101);
            proof {
                assert(sv.take(sv.len() as int) =~= sv);
                assert((mid + concat_payloads(sv)).push(101u8) =~= old(out)@ + (seq![100u8]
                    + concat_payloads(sort_pairs(encode_entries(view_entries(entries@))))
                    + seq![101u8]));
            }
        },
    }
}

fn scan_digits(input: &Vec<u8>, from: usize) -> (j: usize)
    requires
        from <= input.len(),
    ensures
        from <= j <= input.len(),
        forall|q: int| from <= q < j ==> is_digit(#[trigger] input@[q]),
        j == input.len() || !is_digit(input@[j as int]),
    decreases input.len() - from,
{
    if from == input.len() {
        from
    } else {
        let b = input[from];
        if 48 <= b && b <= 57 {
            scan_digits(input, from + 1)
        } else {
            from
        }
    }
}

fn decode_int_at(input: &Vec<u8>, pos: usize) -> (r: Result<(i64, usize), BencodeError>)
    requires
        pos <= input.len(),
    ensures
        match r {
            Ok(p) => pos <= p.1 <= input.len() && dec_int(input@.skip(pos as int)) == Ok::<
                (BValue, Seq<u8>),
                BencodeError,
            >((BValue::Int(p.0 as int), input@.skip(p.1 as int))),
            Err(e) => dec_int(input@.skip(pos as int)) == Err::<
                (BValue, Seq<u8>),
                BencodeError,
            >(e),
        },
{
    let ghost t = input@.skip(pos as int);
    let neg = pos < input.len() && input[pos] == 45;
    let dstart = if neg {
        pos + 1
    } else {
        pos
    };
    let ghost ds = input@.skip(dstart as int);
    proof {
        if neg {
            assert(t[0] == input@[pos as int]);
            assert(t.skip(1) =~= ds);
        } else {
            assert(ds =~= t);
        }
    }
    let j = scan_digits(input, dstart);
    let n = j - dstart;
    proof {
        assert forall|i: int| 0 <= i < n implies is_digit(ds[i]) by {
            assert(ds[i] == input@[dstart + i]);
        }
        if j < input.len() {
            assert(ds[n as int] == input@[j as int]);
        }
        crate::digits::lemma_digits_len_char(ds, n as nat);
    }
    if n == 0 {
        return Err(BencodeError::MalformedInteger);
    }
    if j == input.len() {
        return Err(BencodeError::TruncatedInput);
    }
    if input[j] != 101 {
        proof {
            assert(ds[n as int] == input@[j as int]);
        }
        return Err(BencodeError::MalformedInteger);
    }
    let d0 = input[dstart];
    proof {
        assert(ds[0] == input@[dstart as int]);
    }
    if d0 == 48 && (n > 1 || neg) {
        return Err(BencodeError::MalformedInteger);
    }
    let ghost prefix = ds.take(n as int);
    proof {
        assert(forall|i: int| 0 <= i < n ==> #[trigger] prefix[i] == ds[i]);
    }
    if n > 19 {
        proof {
            crate::digits::lemma_nat_of_lower(prefix);
            crate::digits::lemma_pow10_mono(19, (n - 1) as nat);
            crate::digits::lemma_pow10_values();
        }
        return Err(BencodeError::MalformedInteger);
    }
    let mut acc: u64 = 0;
    let mut k = dstart;
    proof {
        assert(ds.take(0) =~= Seq::<u8>::empty());
        assert(nat_of(Seq::<u8>::empty()) == 0);
        crate::digits::lemma_pow10_pos(0);
    }
    while k < j
        invariant
            dstart <= k <= j <= input.len(),
            n == j - dstart,
            n <= 19,
            ds == input@.skip(dstart as int),
            forall|q: int| dstart <= q < j ==> is_digit(#[trigger] input@[q]),
            acc == nat_of(ds.take((k - dstart) as int)),
            acc < crate::digits::pow10((k - dstart) as nat),
        decreases j - k,
    {
        let d = input[k];
        proof {
            assert(is_digit(input@[k as int]));
            assert(ds[(k - dstart) as int] == input@[k as int]);
            crate::digits::lemma_pow10_mono(((k - dstart) + 1) as nat, 19);
            crate::digits::lemma_pow10_values();
            assert(crate::digits::pow10(((k - dstart) + 1) as nat) == 10 * crate::digits::pow10(
                (k - dstart) as nat,
            ));
            crate::digits::lemma_nat_of_take_step(ds, (k - dstart) as int);
        }
        acc = acc * 10 + ((d - 48) as u64);
        k = k + 1;
    }
    proof {
        assert(prefix =~= ds.take((j - dstart) as int));
        crate::digits::lemma_pow10_mono(n as nat, 19);
        crate::digits::lemma_pow10_values();
        assert(input@.skip((j + 1) as int) =~= ds.skip(n as int + 1));
    }
    if neg {
        if acc > 9223372036854775808u64 {
            return Err(BencodeError::MalformedInteger);
        }
        let val: i64 = if acc == 9223372036854775808u64 {
            i64::MIN
        } else {
            -(acc as i64)
        };
        Ok((val, j + 1))
    } else {
        if acc > 9223372036854775807u64 {
            return Err(BencodeError::MalformedInteger);
        }
        let val: i64 = acc as i64;
        Ok((val, j + 1))
    }
}

fn decode_str_at(input: &Vec<u8>, pos: usize) -> (r: Result<(Vec<u8>, usize), BencodeError>)
    requires
        pos < input.len(),
        is_digit(input@[pos as int]),
    ensures
        match r {
            Ok(p) => pos < p.1 <= input.len() && dec_str(input@.skip(pos as int)) == Ok::<
                (BValue, Seq<u8>),
                BencodeError,
            >((BValue::Bytes(p.0@), input@.skip(p.1 as int))),
            Err(e) => dec_str(input@.skip(pos as int)) == Err::<
                (BValue, Seq<u8>),
                BencodeError,
            >(e),
        },
{
    let ghost s = input@.skip(pos as int);
    let j = scan_digits(input, pos);
    let n = j - pos;
    proof {
        assert forall|i: int| 0 <= i < n implies is_digit(s[i]) by {
            assert(s[i] == input@[pos + i]);
        }
        if j < input.len() {
            assert(s[n as int] == input@[j as int]);
        }
        crate::digits::lemma_digits_len_char(s, n as nat);
        assert(s[0] == input@[pos as int]);
        assert(n >= 1);
    }
    if j == input.len() {
        return Err(BencodeError::TruncatedInput);
    }
    if input[j] != 58 {
        proof {
            assert(s[n as int] == input@[j as int]);
        }
        return Err(BencodeError::UnexpectedByte);
    }
    let d0 = input[pos];
    if d0 == 48 && n > 1 {
        return Err(BencodeError::MalformedInteger);
    }
    let ghost prefix = s.take(n as int);
    proof {
        assert(forall|i: int| 0 <= i < n ==> #[trigger] prefix[i] == s[i]);
    }
    if n > 20 {
        proof {
            crate::digits::lemma_nat_of_lower(prefix);
            crate::digits::lemma_pow10_mono(20, (n - 1) as nat);
            crate::digits::lemma_pow10_values();
            assert(usize::MAX <= 0xffffffffffffffffu64);
        }
        return Err(BencodeError::TruncatedInput);
    }
    let mut acc: u128 = 0;
    let mut k = pos;
    proof {
        assert(s.take(0) =~= Seq::<u8>::empty());
        assert(nat_of(Seq::<u8>::empty()) == 0);
        crate::digits::lemma_pow10_pos(0);
    }
    while k < j
        invariant
            pos <= k <= j <= input.len(),
            n == j - pos,
            n <= 20,
            s == input@.skip(pos as int),
            forall|q: int| pos <= q < j ==> is_digit(#[trigger] input@[q]),
            acc == nat_of(s.take((k - pos) as int)),
            acc < crate::digits::pow10((k - pos) as nat),
        decreases j - k,
    {
        let d = input[k];
        proof {
            assert(is_digit(input@[k as int]));
            assert(s[(k - pos) as int] == input@[k as int]);
            crate::digits::lemma_pow10_mono(((k - pos) + 1) as nat, 20);
            crate::digits::lemma_pow10_values();
            assert(crate::digits::pow10(((k - pos) + 1) as nat) == 10 * crate::digits::pow10(
                (k - pos) as nat,
            ));
            crate::digits::lemma_nat_of_take_step(s, (k - pos) as int);
        }
        acc = acc * 10 + ((d - 48) as u128);
        k = k + 1;
    }
    proof {
        assert(prefix =~= s.take((j - pos) as int));
    }
    let rem = input.len() - (j + 1);
    if acc > rem as u128 {
        return Err(BencodeError::TruncatedInput);
    }
    let llen = acc as usize;
    let mut content: Vec<u8> = Vec::new();
    let mut kk: usize = 0;
    proof {
        assert(input@.subrange((j + 1) as int, (j + 1) as int) =~= Seq::<u8>::empty());
    }
    while kk < llen
        invariant
            kk <= llen,
            j + 1 + llen <= input.len(),
            content@ == input@.subrange((j + 1) as int, (j + 1 + kk) as int),
        decreases llen - kk,
    {
        content.push(input[j + 1 + kk]);
        proof {
            assert(input@.subrange((j + 1) as int, (j + 1 + kk) as int).push(
                input@[(j + 1 + kk) as int],
            ) =~= input@.subrange((j + 1) as int, (j + 1 + kk + 1) as int));
        }
        kk = kk + 1;
    }
    proof {
        assert(content@ =~= s.subrange(n as int + 1, n as int + 1 + llen as int));
        assert(input@.skip((j + 1 + llen) as int) =~= s.skip(n as int + 1 + llen as int));
    }
    Ok((content, j + 1 + llen))
}

fn decode_value(input: &Vec<u8>, pos: usize) -> (r: Result<(BencodeValue, usize), BencodeError>)
    requires
        pos <= input.len(),
    ensures
        match r {
            Ok(p) => pos < p.1 <= input.len() && spec_decode(input@.skip(pos as int)) == Ok::<
                (BValue, Seq<u8>),
                BencodeError,
            >((p.0@, input@.skip(p.1 as int))),
            Err(e) => spec_decode(input@.skip(pos as int)) == Err::<
                (BValue, Seq<u8>),
                BencodeError,
            >(e),
        },
    decreases input.len() - pos, 0int,
{
    let ghost s = input@.skip(pos as int);
    if pos == input.len() {
        return Err(BencodeError::TruncatedInput);
    }
    let b = input[pos];
    proof {
        assert(s[0] == input@[pos as int]);
        assert(s.skip(1) =~= input@.skip(pos as int + 1));
    }
    if b == 105 {
        match decode_int_at(input, pos + 1) {
            Ok((val, p2)) => Ok((BencodeValue::Integer(val), p2)),
            Err(e) => Err(e),
        }
    } else if 48 <= b && b <= 57 {
        match decode_str_at(input, pos) {
            Ok((content, p2)) => Ok((BencodeValue::ByteString(content), p2)),
            Err(e) => Err(e),
        }
    } else if b == 108 {
        match decode_items(input, pos + 1) {
            Ok((items, p2)) => Ok((BencodeValue::List(items), p2)),
            Err(e) => Err(e),
        }
    } else if b == 100 {
        match decode_entries(input, pos + 1) {
            Ok((entries, p2)) => Ok((BencodeValue::Dictionary(entries), p2)),
            Err(e) => Err(e),
        }
    } else {
        Err(BencodeError::UnexpectedByte)
    }
}

fn decode_items(input: &Vec<u8>, pos: usize) -> (r: Result<
    (Vec<BencodeValue>, usize),
    BencodeError,
>)
    requires
        pos <= input.len(),
    ensures
        match r {
            Ok(p) => pos < p.1 <= input.len() && dec_list_items(input@.skip(pos as int)) == Ok::<
                (Seq<BValue>, Seq<u8>),
                BencodeError,
            >((view_list(p.0@), input@.skip(p.1 as int))),
            Err(e) => dec_list_items(input@.skip(pos as int)) == Err::<
                (Seq<BValue>, Seq<u8>),
                BencodeError,
            >(e),
        },
    decreases input.len() - pos, 1int,
{
    let ghost t = input@.skip(pos as int);
    if pos == input.len() {
        return Err(BencodeError::UnterminatedList);
    }
    proof {
        assert(t[0] == input@[pos as int]);
    }
    if input[pos] == 101 {
        let r: Vec<BencodeValue> = Vec::new();
        proof {
            assert(view_list(r@) =~= Seq::<BValue>::empty());
            assert(t.skip(1) =~= input@.skip(pos as int + 1));
        }
        return Ok((r, pos + 1));
    }
    match decode_value(input, pos) {
        Err(e) => Err(e),
        Ok((v, p2)) => {
            proof {
                assert(input@.skip(p2 as int).len() < t.len());
            }
            match decode_items(input, p2) {
                Err(e) => Err(e),
                Ok((vs, p3)) => {
                    let ghost old_vs = vs@;
                    let mut vs = vs;
                    vs.insert(0, v);
                    proof {
                        assert(vs@[0] == v);
                        assert(vs@.skip(1) =~= old_vs);
                        assert(view_list(vs@) == seq![bval_view(v)] + view_list(old_vs));
                        assert(seq![bval_view(v)] + view_list(old_vs) =~= seq![v@] + view_list(
                            old_vs,
                        ));
                    }
                    Ok((vs, p3))
                },
            }
        },
    }
}

fn decode_entries(input: &Vec<u8>, pos: usize) -> (r: Result<
    (Vec<(Vec<u8>, BencodeValue)>, usize),
    BencodeError,
>)
    requires
        pos <= input.len(),
    ensures
        match r {
            Ok(p) => pos < p.1 <= input.len() && dec_dict_entries(input@.skip(pos as int)) == Ok::<
                (Seq<(Seq<u8>, BValue)>, Seq<u8>),
                BencodeError,
            >((view_entries(p.0@), input@.skip(p.1 as int))),
            Err(e) => dec_dict_entries(input@.skip(pos as int)) == Err::<
                (Seq<(Seq<u8>, BValue)>, Seq<u8>),
                BencodeError,
            >(e),
        },
    decreases input.len() - pos, 1int,
{
    let ghost t = input@.skip(pos as int);
    if pos == input.len() {
        return Err(BencodeError::UnterminatedDict);
    }
    proof {
        assert(t[0] == input@[pos as int]);
    }
    if input[pos] == 101 {
        let r: Vec<(Vec<u8>, BencodeValue)> = Vec::new();
        proof {
            assert(view_entries(r@) =~= Seq::<(Seq<u8>, BValue)>::empty());
            assert(t.skip(1) =~= input@.skip(pos as int + 1));
        }
        return Ok((r, pos + 1));
    }
    match decode_value(input, pos) {
        Err(e) => Err(e),
        Ok((kv, p2)) => {
            proof {
                assert(input@.skip(p2 as int).len() < t.len());
            }
            match kv {
                BencodeValue::ByteString(key) => {
                    match decode_value(input, p2) {
                        Err(e) => Err(e),
                        Ok((v, p3)) => {
                            proof {
                                assert(input@.skip(p3 as int).len() < input@.skip(p2 as int).len());
                            }
                            match decode_entries(input, p3) {
                                Err(e) => Err(e),
                                Ok((es, p4)) => {
                                    let ghost old_es = es@;
                                    let mut es = es;
                                    es.insert(0, (key, v));
                                    proof {
                                        assert(es@[0].0@ == es@[0].0@);
                                        assert(es@.skip(1) =~= old_es);
                                        assert(view_entries(es@) == seq![
                                            (es@[0].0@, bval_view(es@[0].1)),
                                        ] + view_entries(old_es));
                                    }
                                    Ok((es, p4))
                                },
                            }
                        },
                    }
                },
                _ => Err(BencodeError::InvalidDictKey),
            }
        },
    }
}

impl BencodeValue {
    /// Decodes one bencode value from the front of `input`, returning the
    /// value and the index where the unconsumed remainder begins.
    pub fn decode(input: &Vec<u8>) -> (r: Result<(BencodeValue, usize), BencodeError>)
        ensures
            match r {
                Ok(p) => 0 < p.1 <= input.len() && spec_decode(input@) == Ok::<
                    (BValue, Seq<u8>),
                    BencodeError,
                >((p.0@, input@.skip(p.1 as int))),
                Err(e) => spec_decode(input@) == Err::<(BValue, Seq<u8>), BencodeError>(e),
            },
    {
        proof {
            assert(input@.skip(0) =~= input@);
        }
        decode_value(input, 0)
    }

    /// Serializes this value in canonical bencode form.
    pub fn encode(&self) -> (r: Vec<u8>)
        ensures
            r@ == spec_encode(self@),
    {
        let mut out: Vec<u8> = Vec::new();
        encode_into(self, &mut out);
        proof {
            assert(Seq::<u8>::empty() + spec_encode(bval_view(*self)) =~= spec_encode(
                bval_view(*self),
            ));
        }
        out
    }
}

} // verus!
