//! A minimal height-to-block-hash store, the collaborator the index uses to
//! resolve heights when scanning ranges of blocks.

use vstd::prelude::*;

verus! {

/// The hash bound to `height` in `s`, scanning from the front.
pub open spec fn spec_find_height(s: Seq<(u64, [u8; 32])>, height: u64) -> Option<Seq<u8>>
    decreases s.len(),
{
    if s.len() == 0 {
        None
    } else if s.first().0 == height {
        Some(s.first().1@)
    } else {
        spec_find_height(s.drop_first(), height)
    }
}

/// Height-to-hash bindings, earliest binding first.
pub struct BlockStore {
    entries: Vec<(u64, [u8; 32])>,
}

impl BlockStore {
    /// The stored bindings, in insertion order; the first binding for a
    /// height wins.
    pub closed spec fn spec_entries(&self) -> Seq<(u64, [u8; 32])> {
        self.entries@
    }

    /// An empty store.
    pub fn new() -> (r: BlockStore)
        ensures
            r.spec_entries() == Seq::<(u64, [u8; 32])>::empty(),
    {
        BlockStore { entries: Vec::new() }
    }

    /// Record that the block at `height` has `hash`.
    pub fn insert_block(&mut self, height: u64, hash: [u8; 32])
        ensures
            final(self).spec_entries() == old(self).spec_entries().push((height, hash)),
    {
        self.entries.push((height, hash));
    }

    /// The hash bound to `height`, if one was recorded.
    pub fn get_hash_by_height(&self, height: u64) -> (r: Option<[u8; 32]>)
        ensures
            match r {
                Some(h) => spec_find_height(self.spec_entries(), height) == Some(h@),
                None => spec_find_height(self.spec_entries(), height) is None,
            },
    {
        let ghost s = self.spec_entries();
        let n = self.entries.len();
        let mut i: usize = 0;
        proof {
            assert(s.skip(0) =~= s);
        }
        while i < n
            invariant
                n == self.entries@.len(),
                s == self.spec_entries(),
                i <= n,
                spec_find_height(s, height) == spec_find_height(s.skip(i as int), height),
            decreases n - i,
        {
            proof {
                assert(s.skip(i as int).first() == s[i as int]);
                assert(s.skip(i as int).drop_first() =~= s.skip(i + 1));
            }
            if self.entries[i].0 == height {
                return Some(self.entries[i].1);
            }
            i += 1;
        }
        proof {
            assert(s.skip(n as int) =~= Seq::<(u64, [u8; 32])>::empty());
        }
        None
    }
}

} // verus!
