//! Fixed-stride binary record arrays: a byte string that is really a tightly
//! packed sequence of fixed-size records, as the `pieces` hash list (20-byte
//! records) and the compact peer list (6-byte records) both are.

use vstd::prelude::*;

verus! {

/// The one way a packed record buffer can be malformed.
#[derive(Clone, Copy, Debug, PartialEq, Eq, Structural)]
pub enum FixedRecordError {
    /// The buffer length is not an exact multiple of the record size.
    InvalidLength,
}

/// The byte sequences of a run of fixed-size records.
pub open spec fn records_view<const N: usize>(rs: Seq<[u8; N]>) -> Seq<Seq<u8>> {
    Seq::new(rs.len(), |i: int| rs[i]@)
}

/// Concatenation of records in sequence order.
pub open spec fn concat_records(rs: Seq<Seq<u8>>) -> Seq<u8>
    decreases rs.len(),
{
    if rs.len() == 0 {
        Seq::empty()
    } else {
        rs[0] + concat_records(rs.skip(1))
    }
}

proof fn lemma_concat_records_push(t: Seq<Seq<u8>>, x: Seq<u8>)
    ensures
        concat_records(t.push(x)) == concat_records(t) + x,
    decreases t.len(),
{
    if t.len() == 0 {
        assert(t.push(x)[0] == x);
        assert(t.push(x).skip(1) =~= Seq::<Seq<u8>>::empty());
        assert(concat_records(Seq::<Seq<u8>>::empty()) == Seq::<u8>::empty());
        assert(concat_records(t.push(x)) == x + Seq::<u8>::empty());
        assert(x + Seq::<u8>::empty() =~= x);
        assert(concat_records(t) + x =~= x);
    } else {
        assert(t.push(x)[0] == t[0]);
        assert(t.push(x).skip(1) =~= t.skip(1).push(x));
        lemma_concat_records_push(t.skip(1), x);
        assert(t[0] + (concat_records(t.skip(1)) + x) =~= (t[0] + concat_records(t.skip(1))) + x);
    }
}

/// Records read off as adjacent chunks of a buffer concatenate back to it.
proof fn lemma_concat_of_chunks(rsv: Seq<Seq<u8>>, b: Seq<u8>, n: int)
    requires
        n >= 1,
        rsv.len() * n == b.len(),
        forall|i: int| 0 <= i < rsv.len() ==> #[trigger] rsv[i] == b.subrange(i * n, (i + 1) * n),
    ensures
        concat_records(rsv) == b,
    decreases rsv.len(),
{
    if rsv.len() == 0 {
        assert(rsv.len() * n == 0) by (nonlinear_arith)
            requires
                rsv.len() == 0,
        ;
        assert(b =~= Seq::<u8>::empty());
    } else {
        assert(n <= b.len() && b.len() <= rsv.len() * n) by (nonlinear_arith)
            requires
                rsv.len() * n == b.len(),
                rsv.len() >= 1,
                n >= 1,
        ;
        let tail = rsv.skip(1);
        let b2 = b.skip(n);
        assert(rsv[0] == b.subrange(0, n));
        assert(tail.len() * n == b2.len()) by (nonlinear_arith)
            requires
                rsv.len() * n == b.len(),
                tail.len() == rsv.len() - 1,
                b2.len() == b.len() - n,
                rsv.len() >= 1,
                n >= 1,
        ;
        assert forall|i: int| 0 <= i < tail.len() implies #[trigger] tail[i] == b2.subrange(
            i * n,
            (i + 1) * n,
        ) by {
            assert(tail[i] == rsv[i + 1]);
            assert(rsv[i + 1] == b.subrange((i + 1) * n, (i + 2) * n));
            assert((i + 1) * n == i * n + n && (i + 2) * n == (i + 1) * n + n && 0 <= i * n && (i
                + 2) * n <= rsv.len() * n) by (nonlinear_arith)
                requires
                    0 <= i,
                    i + 2 <= rsv.len(),
                    n >= 1,
            ;
            assert(b2.subrange(i * n, (i + 1) * n) =~= b.subrange((i + 1) * n, (i + 2) * n));
        }
        lemma_concat_of_chunks(tail, b2, n);
        assert(rsv[0] + b2 =~= b);
    }
}

/// Splits a buffer into records of `N` bytes each. Fails, and only fails,
/// when the buffer length is not an exact multiple of `N`; an empty buffer
/// yields an empty run of records.
pub fn split_records<const N: usize>(bytes: &Vec<u8>) -> (r: Result<Vec<[u8; N]>, FixedRecordError>)
    requires
        N >= 1,
    ensures
        match r {
            Ok(rs) => bytes@.len() as int % (N as int) == 0 && rs@.len() * (N as int) == bytes@.len()
                && (forall|i: int|
                0 <= i < rs@.len() ==> #[trigger] rs@[i]@ == bytes@.subrange(
                    i * (N as int),
                    (i + 1) * (N as int),
                )) && concat_records(records_view(rs@)) == bytes@,
            Err(e) => e == FixedRecordError::InvalidLength && bytes@.len() as int % (N as int) != 0,
        },
{
    if bytes.len() % N != 0 {
        return Err(FixedRecordError::InvalidLength);
    }
    let mut rs: Vec<[u8; N]> = Vec::new();
    let mut off: usize = 0;
    proof {
        assert(rs@.len() * (N as int) == 0) by (nonlinear_arith)
            requires
                rs@.len() == 0,
        ;
    }
    while off < bytes.len()
        invariant
            N >= 1,
            off <= bytes.len(),
            bytes@.len() as int % (N as int) == 0,
            off as int % (N as int) == 0,
            rs@.len() * (N as int) == off as int,
            forall|i: int|
                0 <= i < rs@.len() ==> #[trigger] rs@[i]@ == bytes@.subrange(
                    i * (N as int),
                    (i + 1) * (N as int),
                ),
        decreases bytes.len() - off,
    {
        proof {
            assert(off as int + N as int <= bytes@.len()) by (nonlinear_arith)
                requires
                    off as int % (N as int) == 0,
                    bytes@.len() as int % (N as int) == 0,
                    (off as int) < bytes@.len(),
                    N as int >= 1,
            ;
        }
        let mut rec = [0u8; N];
        let mut j: usize = 0;
        while j < N
            invariant
                j <= N,
                off + N <= bytes.len(),
                rec@.len() == N,
                forall|q: int| 0 <= q < j ==> #[trigger] rec@[q] == bytes@[off + q],
            decreases N - j,
        {
            rec[j] = bytes[off + j];
            j = j + 1;
        }
        let ghost old_count = rs@.len();
        rs.push(rec);
        off = off + N;
        proof {
            assert(rec@ =~= bytes@.subrange(
                old_count * (N as int),
                (old_count + 1) * (N as int),
            )) by {
                assert(old_count * (N as int) == off as int - N as int) by (nonlinear_arith)
                    requires
                        old_count * (N as int) == off as int - N as int,
                ;
                assert forall|q: int|
                    0 <= q < N as int implies rec@[q] == bytes@[(off as int - N as int)
                    + q] by {}
                assert((old_count + 1) * (N as int) == old_count * (N as int) + N as int)
                    by (nonlinear_arith);
            }
            assert((rs@.len()) * (N as int) == off as int) by (nonlinear_arith)
                requires
                    rs@.len() == old_count + 1,
                    old_count * (N as int) == off as int - N as int,
            ;
            assert(off as int % (N as int) == 0) by (nonlinear_arith)
                requires
                    (off as int - N as int) % (N as int) == 0,
                    N as int >= 1,
            ;
            assert(forall|i: int|
                0 <= i < old_count ==> #[trigger] rs@[i]@ == bytes@.subrange(
                    i * (N as int),
                    (i + 1) * (N as int),
                ));
        }
    }
    proof {
        let rv = records_view(rs@);
        assert(rv.len() == rs@.len());
        assert(forall|i: int| 0 <= i < rv.len() ==> #[trigger] rv[i] == rs@[i]@);
        lemma_concat_of_chunks(rv, bytes@, N as int);
    }
    Ok(rs)
}

/// The `pieces` value of a torrent: one 20-byte SHA-1 digest per piece,
/// index-aligned with the file content, packed into one byte string.
#[derive(Debug, Clone)]
pub struct Hashes(pub Vec<[u8; 20]>);

impl View for Hashes {
    type V = Seq<Seq<u8>>;

    open spec fn view(&self) -> Seq<Seq<u8>> {
        records_view(self.0@)
    }
}

impl Hashes {
    /// Splits a `pieces` byte string into its 20-byte records. Fails, and
    /// only fails, when the length is not a multiple of 20; an empty string
    /// yields an empty run.
    pub fn from_bytes(bytes: &Vec<u8>) -> (r: Result<Hashes, FixedRecordError>)
        ensures
            match r {
                Ok(h) => bytes@.len() % 20 == 0 && h@.len() * 20 == bytes@.len()
                    && concat_records(h@) == bytes@ && (forall|i: int|
                    0 <= i < h@.len() ==> (#[trigger] h@[i]).len() == 20),
            Err(e) => e == FixedRecordError::InvalidLength && bytes@.len() % 20 != 0,
            },
    {
        match split_records::<20>(bytes) {
            Ok(rs) => Ok(Hashes(rs)),
            Err(e) => Err(e),
        }
    }

    /// Concatenates the records back into one byte string, in order.
    pub fn to_bytes(&self) -> (r: Vec<u8>)
        ensures
            r@ == concat_records(self@),
    {
        let mut out: Vec<u8> = Vec::new();
        let mut k: usize = 0;
        proof {
            assert(self@.take(0) =~= Seq::<Seq<u8>>::empty());
        }
        while k < self.0.len()
            invariant
                k <= self.0.len(),
                out@ == concat_records(self@.take(k as int)),
            decreases self.0.len() - k,
        {
            let ghost prev = out@;
            let rec = &self.0[k];
            let mut j: usize = 0;
            while j < 20
                invariant
                    j <= 20,
                    k < self.0.len(),
                    rec == &self.0@[k as int],
                    out@ == prev + rec@.take(j as int),
                decreases 20 - j,
            {
                out.push(rec[j]);
                proof {
                    assert(rec@.take(j as int).push(rec@[j as int]) =~= rec@.take(j as int + 1));
                    assert((prev + rec@.take(j as int)).push(rec@[j as int]) =~= prev + rec@.take(
                        j as int + 1,
                    ));
                }
                j = j + 1;
            }
            proof {
                assert(rec@.take(20) =~= rec@);
                assert(self@[k as int] == rec@);
                assert(self@.take(k as int).push(self@[k as int]) =~= self@.take(k as int + 1));
                lemma_concat_records_push(self@.take(k as int), self@[k as int]);
            }
            k = k + 1;
        }
        proof {
            assert(self@.take(self@.len() as int) =~= self@);
        }
        out
    }
}

} // verus!
