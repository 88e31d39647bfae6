//! Bounded accumulation of a chunked byte stream.
//!
//! The accumulator appends arriving chunks to one contiguous buffer and
//! refuses, before appending, any chunk that would push the total past the
//! configured ceiling. Rejection therefore happens mid-stream, the moment
//! the ceiling would be crossed, and peak memory stays bounded.

use vstd::prelude::*;

verus! {

use crate::ErrorKind;

/// What accumulating a whole sequence of chunks yields: the concatenation
/// of all chunks if every prefix stays within `max`, and nothing otherwise.
pub open spec fn spec_accumulate(chunks: Seq<Seq<u8>>, acc: Seq<u8>, max: nat) -> Option<Seq<u8>>
    decreases chunks.len(),
{
    if chunks.len() == 0 {
        Some(acc)
    } else if acc.len() + chunks[0].len() > max {
        None
    } else {
        spec_accumulate(chunks.drop_first(), acc + chunks[0], max)
    }
}

/// The concatenation of a sequence of chunks, in arrival order.
pub open spec fn concat_all(chunks: Seq<Seq<u8>>) -> Seq<u8>
    decreases chunks.len(),
{
    if chunks.len() == 0 {
        Seq::empty()
    } else {
        chunks[0] + concat_all(chunks.drop_first())
    }
}

/// Accumulation succeeds exactly when the concatenated length fits the
/// ceiling, and then yields the concatenation: chunk boundaries never
/// matter to the outcome.
pub proof fn lemma_accumulate_is_concat(chunks: Seq<Seq<u8>>, acc: Seq<u8>, max: nat)
    requires
        acc.len() <= max,
    ensures
        spec_accumulate(chunks, acc, max) == if acc.len() + concat_all(chunks).len() <= max {
            Some(acc + concat_all(chunks))
        } else {
            None::<Seq<u8>>
        },
    decreases chunks.len(),
{
    if chunks.len() == 0 {
        assert(acc + concat_all(chunks) =~= acc);
    } else if acc.len() + chunks[0].len() <= max {
        lemma_accumulate_is_concat(chunks.drop_first(), acc + chunks[0], max);
        assert((acc + chunks[0]) + concat_all(chunks.drop_first()) =~= acc + concat_all(chunks));
    }
}

/// Delivering the same bytes under any two chunkings gives the same
/// outcome, success or failure alike.
pub proof fn lemma_chunking_irrelevant(a: Seq<Seq<u8>>, b: Seq<Seq<u8>>, max: nat)
    requires
        concat_all(a) == concat_all(b),
    ensures
        spec_accumulate(a, Seq::empty(), max) == spec_accumulate(b, Seq::empty(), max),
{
    lemma_accumulate_is_concat(a, Seq::empty(), max);
    lemma_accumulate_is_concat(b, Seq::empty(), max);
}

pub proof fn lemma_concat_all_app(a: Seq<Seq<u8>>, b: Seq<Seq<u8>>)
    ensures
        concat_all(a + b) == concat_all(a) + concat_all(b),
    decreases a.len(),
{
    if a.len() == 0 {
        assert(a + b =~= b);
        assert(concat_all(a) + concat_all(b) =~= concat_all(b));
    } else {
        assert((a + b).drop_first() =~= a.drop_first() + b);
        lemma_concat_all_app(a.drop_first(), b);
        assert((a + b)[0] == a[0]);
        assert(a[0] + (concat_all(a.drop_first()) + concat_all(b)) =~= (a[0] + concat_all(
            a.drop_first(),
        )) + concat_all(b));
    }
}

/// A stream that reaches exactly the ceiling is accepted; one byte more is
/// refused — and refusal is already settled by the offending prefix: no
/// later chunk can undo it.
pub proof fn lemma_overflow_boundary(chunks: Seq<Seq<u8>>, more: Seq<Seq<u8>>, max: nat)
    ensures
        concat_all(chunks).len() == max ==> spec_accumulate(chunks, Seq::empty(), max) == Some(
            concat_all(chunks),
        ),
        concat_all(chunks).len() == max + 1 ==> spec_accumulate(chunks, Seq::empty(), max)
            is None,
        spec_accumulate(chunks, Seq::empty(), max) is None ==> spec_accumulate(
            chunks + more,
            Seq::empty(),
            max,
        ) is None,
{
    lemma_accumulate_is_concat(chunks, Seq::empty(), max);
    lemma_accumulate_is_concat(chunks + more, Seq::empty(), max);
    lemma_concat_all_app(chunks, more);
    assert(Seq::<u8>::empty() + concat_all(chunks) =~= concat_all(chunks));
}

/// Accumulates body chunks, refusing growth past a fixed ceiling.
pub struct BoundedAccumulator {
    buf: Vec<u8>,
    max: usize,
}

impl BoundedAccumulator {
    /// The bytes gathered so far.
    pub closed spec fn bytes(&self) -> Seq<u8> {
        self.buf@
    }

    /// The configured ceiling.
    pub closed spec fn bound(&self) -> nat {
        self.max as nat
    }

    pub closed spec fn wf(&self) -> bool {
        self.buf@.len() <= self.max
    }

    pub fn new(max: usize) -> (a: Self)
        ensures
            a.bytes() == Seq::<u8>::empty(),
            a.bound() == max as nat,
            a.wf(),
    {
        let a = BoundedAccumulator { buf: Vec::new(), max };
        proof {
            assert(a.bytes() =~= Seq::<u8>::empty());
        }
        a
    }

    /// Appends one arriving chunk, unless the total would cross the
    /// ceiling; then the chunk is not appended and the stream is refused.
    pub fn push_chunk(&mut self, chunk: &Vec<u8>) -> (r: Result<(), ErrorKind>)
        requires
            old(self).wf(),
        ensures
            final(self).wf(),
            final(self).bound() == old(self).bound(),
            r is Ok <==> old(self).bytes().len() + chunk@.len() <= old(self).bound(),
            r is Ok ==> final(self).bytes() == old(self).bytes() + chunk@,
            r is Err ==> final(self).bytes() == old(self).bytes() && r == Err::<(), ErrorKind>(
                ErrorKind::PayloadTooLarge,
            ),
    {
        if chunk.len() > self.max - self.buf.len() {
            return Err(ErrorKind::PayloadTooLarge);
        }
        let ghost prefix = self.buf@;
        let mut k: usize = 0;
        while k < chunk.len()
            invariant
                k <= chunk@.len(),
                self.buf@ == prefix + chunk@.take(k as int),
                self.buf@.len() == prefix.len() + k,
                prefix.len() + chunk@.len() <= self.max,
                self.max == old(self).max,
            decreases chunk@.len() - k,
        {
            self.buf.push(chunk[k]);
            proof {
                assert(prefix + chunk@.take(k as int) + seq![chunk@[k as int]] =~= prefix
                    + chunk@.take(k as int + 1));
            }
            k = k + 1;
        }
        proof {
            assert(chunk@.take(chunk@.len() as int) =~= chunk@);
        }
        Ok(())
    }

    /// Hands out the completed body.
    pub fn into_bytes(self) -> (b: Vec<u8>)
        ensures
            b@ == self.bytes(),
    {
        self.buf
    }
}

/// Runs a whole sequence of chunks through a fresh accumulator; the
/// outcome is exactly `spec_accumulate` on the chunk views.
pub fn accumulate_all(chunks: &Vec<Vec<u8>>, max: usize) -> (r: Result<Vec<u8>, ErrorKind>)
    ensures
        ({
            let cs = chunks@.map_values(|c: Vec<u8>| c@);
            match r {
                Ok(b) => spec_accumulate(cs, Seq::empty(), max as nat) == Some(b@),
                Err(e) => spec_accumulate(cs, Seq::empty(), max as nat) is None && e
                    == ErrorKind::PayloadTooLarge,
            }
        }),
{
    let ghost cs = chunks@.map_values(|c: Vec<u8>| c@);
    let mut acc = BoundedAccumulator::new(max);
    proof {
        assert(cs.skip(0) =~= cs);
    }
    let mut k: usize = 0;
    while k < chunks.len()
        invariant
            k <= chunks@.len(),
            acc.wf(),
            acc.bound() == max as nat,
            cs == chunks@.map_values(|c: Vec<u8>| c@),
            spec_accumulate(cs, Seq::empty(), max as nat) == spec_accumulate(
                cs.skip(k as int),
                acc.bytes(),
                max as nat,
            ),
        decreases chunks@.len() - k,
    {
        let res = acc.push_chunk(&chunks[k]);
        proof {
            assert(cs.skip(k as int)[0] == cs[k as int]);
            assert(cs.skip(k as int).drop_first() =~= cs.skip(k as int + 1));
        }
        match res {
            Ok(()) => (),
            Err(e) => {
                return Err(e);
            },
        }
        k = k + 1;
    }
    proof {
        assert(cs.skip(chunks@.len() as int) =~= Seq::<Seq<u8>>::empty());
    }
    Ok(acc.into_bytes())
}

} // verus!
