//! Collecting the body of a fetched page from the chunks of its response.

use vstd::prelude::*;

verus! {

/// Once the collected body holds this many bytes, further chunks are dropped.
pub const BODY_LIMIT: usize = 1048576;

/// The body of a page as it is collected, chunk by chunk.
pub struct PageBody {
    bytes: Vec<u8>,
}

impl View for PageBody {
    type V = Seq<u8>;

    closed spec fn view(&self) -> Seq<u8> {
        self.bytes@
    }
}

/// The concatenation of a sequence of chunks.
pub open spec fn concat(chunks: Seq<Seq<u8>>) -> Seq<u8>
    decreases chunks.len(),
{
    if chunks.len() == 0 {
        Seq::empty()
    } else {
        concat(chunks.drop_last()) + chunks.last()
    }
}

/// The body that a sequence of chunks leaves: each chunk is appended while
/// the body so far is shorter than [`BODY_LIMIT`], and dropped otherwise.
pub open spec fn collected(chunks: Seq<Seq<u8>>) -> Seq<u8>
    decreases chunks.len(),
{
    if chunks.len() == 0 {
        Seq::empty()
    } else {
        let before = collected(chunks.drop_last());
        if before.len() < BODY_LIMIT {
            before + chunks.last()
        } else {
            before
        }
    }
}

/// The collected body is the concatenation of a prefix of the chunks: each
/// chunk before the one that brings the body to [`BODY_LIMIT`] bytes or more
/// is kept, that chunk too, and none after it.
pub proof fn lemma_collected_is_prefix(chunks: Seq<Seq<u8>>)
    ensures
        exists|k: int|
            0 <= k <= chunks.len() && collected(chunks) == concat(chunks.take(k)) && (forall|j: int|
                0 <= j < k ==> (#[trigger] concat(chunks.take(j))).len() < BODY_LIMIT) && (k
                < chunks.len() ==> concat(chunks.take(k)).len() >= BODY_LIMIT),
    decreases chunks.len(),
{
    if chunks.len() == 0 {
        assert(chunks.take(0) =~= chunks);
    } else {
        let init = chunks.drop_last();
        lemma_collected_is_prefix(init);
        let k = choose|k: int|
            0 <= k <= init.len() && collected(init) == concat(init.take(k)) && (forall|j: int|
                0 <= j < k ==> (#[trigger] concat(init.take(j))).len() < BODY_LIMIT) && (k
                < init.len() ==> concat(init.take(k)).len() >= BODY_LIMIT);
        assert forall|j: int| 0 <= j <= k implies #[trigger] chunks.take(j) == init.take(j) by {
            assert(chunks.take(j) =~= init.take(j));
        }
        if collected(init).len() < BODY_LIMIT {
            assert(k == init.len());
            assert(chunks.take(k + 1).drop_last() =~= init.take(k));
            assert(chunks.take(k + 1).last() == chunks.last());
            assert(collected(chunks) == concat(chunks.take(k + 1)));
            assert forall|j: int| 0 <= j < k + 1 implies (#[trigger] concat(chunks.take(j))).len()
                < BODY_LIMIT by {
                if j < k {
                    assert(concat(init.take(j)).len() < BODY_LIMIT);
                }
            }
        } else {
            assert(collected(chunks) == concat(chunks.take(k)));
            assert(concat(chunks.take(k)).len() >= BODY_LIMIT);
        }
    }
}

/// When no chunk is longer than `max_chunk` bytes, the collected body is
/// shorter than [`BODY_LIMIT`] plus `max_chunk` bytes.
pub proof fn lemma_collected_bounded(chunks: Seq<Seq<u8>>, max_chunk: nat)
    requires
        forall|i: int| 0 <= i < chunks.len() ==> (#[trigger] chunks[i]).len() <= max_chunk,
    ensures
        collected(chunks).len() < BODY_LIMIT + max_chunk,
    decreases chunks.len(),
{
    if chunks.len() > 0 {
        let init = chunks.drop_last();
        assert forall|i: int| 0 <= i < init.len() implies (#[trigger] init[i]).len() <= max_chunk by {
            assert(init[i] == chunks[i]);
        }
        lemma_collected_bounded(init, max_chunk);
        assert(chunks.last() == chunks[chunks.len() - 1]);
    }
}

impl PageBody {
    /// An empty body.
    pub fn new() -> (b: PageBody)
        ensures
            b@ == Seq::<u8>::empty(),
    {
        PageBody { bytes: Vec::new() }
    }

    /// Takes the next chunk of the response: it is appended if the body holds
    /// fewer than [`BODY_LIMIT`] bytes, and dropped otherwise.
    pub fn accept_chunk(&mut self, chunk: &[u8])
        ensures
            old(self)@.len() < BODY_LIMIT ==> final(self)@ == old(self)@ + chunk@,
            old(self)@.len() >= BODY_LIMIT ==> final(self)@ == old(self)@,
    {
        if self.bytes.len() < BODY_LIMIT {
            let ghost start = self.bytes@;
            let n = chunk.len();
            for i in 0..n
                invariant
                    n == chunk@.len(),
                    self.bytes@ == start + chunk@.take(i as int),
            {
                self.bytes.push(chunk[i]);
                assert(chunk@.take(i + 1) =~= chunk@.take(i as int).push(chunk@[i as int]));
            }
            assert(chunk@.take(n as int) =~= chunk@);
        }
    }

    /// The number of bytes collected so far.
    pub fn len(&self) -> (n: usize)
        ensures
            n == self@.len(),
    {
        self.bytes.len()
    }

    /// The bytes collected so far.
    pub fn as_bytes(&self) -> (b: &[u8])
        ensures
            b@ == self@,
    {
        self.bytes.as_slice()
    }
}

} // verus!
