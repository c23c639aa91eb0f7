use std::collections::hash_map::DefaultHasher;
use std::hash::Hasher;
use vstd::prelude::*;
use vstd::std_specs::hash::DefaultHasherAdditionalSpecFns;

use crate::aggregate::{aggregate, lemma_same_fingerprint_same_group, OutcomeView};

verus! {

/// The block size in which content is fed to the hasher, whatever sizes the
/// reads came in.
pub const HASH_BLOCK: usize = 8192;

/// Content cut into blocks of `HASH_BLOCK` bytes, the last one possibly shorter
/// and never empty.
pub open spec fn blocks_of(c: Seq<u8>) -> Seq<Seq<u8>>
    decreases c.len(),
{
    if c.len() == 0 {
        Seq::empty()
    } else if c.len() <= HASH_BLOCK {
        seq![c]
    } else {
        seq![c.take(HASH_BLOCK as int)] + blocks_of(c.skip(HASH_BLOCK as int))
    }
}

/// The fingerprint of a file's full content: its blocks fed, in order, to a
/// fresh `DefaultHasher`.
pub open spec fn content_fingerprint(c: Seq<u8>) -> u64 {
    DefaultHasher::spec_finish(blocks_of(c))
}

/// Cutting whole blocks followed by a short tail gives the blocks of the whole
/// followed by the tail.
proof fn lemma_blocks_of_append(full: Seq<u8>, tail: Seq<u8>)
    requires
        full.len() % (HASH_BLOCK as nat) == 0,
        0 < tail.len() <= HASH_BLOCK,
    ensures
        blocks_of(full + tail) == blocks_of(full).push(tail),
    decreases full.len(),
{
    let b = HASH_BLOCK as int;
    let c = full + tail;
    if full.len() == 0 {
        assert(c =~= tail);
        assert(blocks_of(full).push(tail) =~= seq![tail]);
    } else {
        assert(full.len() >= b);
        assert(c.take(b) =~= full.take(b));
        assert(c.skip(b) =~= full.skip(b) + tail);
        lemma_blocks_of_append(full.skip(b), tail);
        if full.len() == b {
            assert(full.skip(b) =~= Seq::<u8>::empty());
            assert(full.take(b) =~= full);
            assert(blocks_of(c) =~= blocks_of(full).push(tail));
        } else {
            assert(blocks_of(c) =~= blocks_of(full).push(tail));
        }
    }
}

/// A streaming fingerprint accumulator: takes content in reads of any size and
/// feeds the hasher in fixed blocks, so the result depends on the content alone.
pub struct Fingerprinter {
    hasher: DefaultHasher,
    pending: Vec<u8>,
    seen: Ghost<Seq<u8>>,
}

impl Fingerprinter {
    /// The content taken so far.
    pub closed spec fn absorbed(&self) -> Seq<u8> {
        self.seen@
    }

    pub closed spec fn wf(&self) -> bool {
        let full = self.seen@.take(self.seen@.len() - self.pending@.len());
        &&& self.pending@.len() < HASH_BLOCK
        &&& self.pending@.len() <= self.seen@.len()
        &&& full.len() % (HASH_BLOCK as nat) == 0
        &&& self.seen@ == full + self.pending@
        &&& self.hasher@ == blocks_of(full)
    }

    /// An accumulator that has taken nothing.
    pub fn new() -> (f: Fingerprinter)
        ensures
            f.wf(),
            f.absorbed() == Seq::<u8>::empty(),
    {
        let f = Fingerprinter { hasher: DefaultHasher::new(), pending: Vec::new(), seen: Ghost(Seq::empty()) };
        assert(f.seen@.take(0) =~= Seq::<u8>::empty());
        assert(f.seen@ =~= Seq::<u8>::empty() + f.pending@);
        f
    }

    /// Takes the next read of the content.
    pub fn absorb(&mut self, data: &[u8])
        requires
            old(self).wf(),
        ensures
            final(self).wf(),
            final(self).absorbed() == old(self).absorbed() + data@,
    {
        let ghost start = self.seen@;
        let mut i: usize = 0;
        while i < data.len()
            invariant
                self.wf(),
                i <= data.len(),
                self.seen@ == start + data@.take(i as int),
            decreases data.len() - i,
        {
            let ghost full = self.seen@.take(self.seen@.len() - self.pending@.len());
            self.pending.push(data[i]);
            self.seen = Ghost(self.seen@.push(data[i as int]));
            assert(data@.take(i + 1) =~= data@.take(i as int).push(data[i as int]));
            if self.pending.len() == HASH_BLOCK {
                proof {
                    lemma_blocks_of_append(full, self.pending@);
                    assert(self.seen@ =~= full + self.pending@);
                }
                self.hasher.write(self.pending.as_slice());
                self.pending.clear();
                proof {
                    assert(self.seen@.take(self.seen@.len() as int) =~= self.seen@);
                    assert(self.seen@ =~= self.seen@ + self.pending@);
                }
            } else {
                proof {
                    assert(self.seen@.take(self.seen@.len() - self.pending@.len()) =~= full);
                    assert(self.seen@ =~= full + self.pending@);
                }
            }
            i = i + 1;
        }
        assert(data@.take(data.len() as int) =~= data@);
    }

    /// Feeds what is left and returns the fingerprint of all content taken.
    pub fn finish(self) -> (r: u64)
        requires
            self.wf(),
        ensures
            r == content_fingerprint(self.absorbed()),
    {
        let mut hasher = self.hasher;
        let ghost full = self.seen@.take(self.seen@.len() - self.pending@.len());
        if self.pending.len() > 0 {
            proof {
                lemma_blocks_of_append(full, self.pending@);
            }
            hasher.write(self.pending.as_slice());
        } else {
            assert(self.seen@ =~= full);
        }
        hasher.finish()
    }
}

/// The fingerprint of one whole content.
pub fn fingerprint(content: &[u8]) -> (r: u64)
    ensures
        r == content_fingerprint(content@),
{
    let mut f = Fingerprinter::new();
    f.absorb(content);
    assert(Seq::<u8>::empty() + content@ =~= content@);
    f.finish()
}

/// Two files with identical content end up in the same group.
pub proof fn lemma_same_content_same_group(
    s: Seq<OutcomeView>,
    ca: Seq<u8>,
    cb: Seq<u8>,
    a: Seq<char>,
    b: Seq<char>,
)
    requires
        s.contains((content_fingerprint(ca), a)),
        s.contains((content_fingerprint(cb), b)),
        ca == cb,
    ensures
        exists|i: int|
            0 <= i < aggregate(s).len() && aggregate(s)[i].1.contains(a)
                && #[trigger] aggregate(s)[i].1.contains(b),
{
    lemma_same_fingerprint_same_group(s, content_fingerprint(ca), a, b);
}

} // verus!
