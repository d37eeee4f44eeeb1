use vstd::prelude::*;

verus! {

/// One slot of the table. A negative depth marks a slot that was never written.
#[derive(Clone, Copy, PartialEq, Eq, Structural)]
pub struct Entry {
    pub key: u64,
    pub count: u32,
    pub depth: i16,
}

/// The slot written by construction.
pub open spec fn unused_entry() -> Entry {
    Entry { key: 0, count: 0, depth: -1i16 }
}

pub open spec fn is_pow2(n: u64) -> bool {
    exists|k: u64| k < 64 && n == (1u64 << k)
}

/// What a cache holds: its slots and the mask that picks a slot for a key.
pub struct CacheView {
    pub slots: Seq<Entry>,
    pub mask: usize,
}

impl CacheView {
    pub open spec fn index(self, key: u64) -> int {
        ((key as usize) & self.mask) as int
    }

    pub open spec fn wf(self) -> bool {
        &&& self.slots.len() == self.mask + 1
        &&& self.slots.len() >= 64
        &&& is_pow2(self.slots.len() as u64)
    }

    /// The count stored for `key` at exactly `depth`, if the slot of `key` holds both.
    /// An unused slot, with its negative depth, never matches.
    pub open spec fn probe(self, key: u64, depth: usize) -> Option<usize> {
        let e = self.slots[self.index(key)];
        if e.key == key && e.depth >= 0 && e.depth as int == depth as int {
            Some(e.count as usize)
        } else {
            None
        }
    }

    /// The cache after `key` was saved with `count` at `depth`.
    pub open spec fn save(self, key: u64, count: usize, depth: i16) -> CacheView {
        CacheView {
            slots: self.slots.update(
                self.index(key),
                Entry { key, count: count as u32, depth },
            ),
            mask: self.mask,
        }
    }
}

/// A direct-mapped table from a position key and a depth to a move count.
pub struct Cache {
    entries: Vec<Entry>,
    mask: usize,
}

proof fn lemma_masked_index(x: usize, m: usize)
    by (bit_vector)
    ensures
        x & m <= m,
{
}

impl View for Cache {
    type V = CacheView;

    closed spec fn view(&self) -> CacheView {
        CacheView { slots: self.entries@, mask: self.mask }
    }
}

impl Cache {
    /// Builds a cache of `size_bytes` bytes, 16 per slot, every slot unused.
    /// The size must be a power of two and at least 1024.
    pub fn new(size_bytes: usize) -> (r: Result<Cache, String>)
        ensures
            r.is_ok() <==> is_pow2(size_bytes as u64) && size_bytes >= 1024,
            !is_pow2(size_bytes as u64) ==> (r matches Err(e) && e@ == "Cache size must be 2^N"@),
            is_pow2(size_bytes as u64) && size_bytes < 1024 ==> (r matches Err(e) && e@
                == "Cache size must be at least 1024 bytes"@),
            r.is_ok() ==> {
                let c = r.unwrap()@;
                &&& c.wf()
                &&& c.mask == size_bytes / 16 - 1
                &&& forall|i: int| 0 <= i < c.slots.len() ==> c.slots[i] == unused_entry()
            },
    {
        let mut k: u64 = 0;
        let mut pow2 = false;
        while k < 64
            invariant
                k <= 64,
                pow2 ==> is_pow2(size_bytes as u64),
                !pow2 ==> forall|j: u64| j < k ==> size_bytes as u64 != (1u64 << j),
            decreases 64 - k,
        {
            if size_bytes as u64 == (1u64 << k) {
                pow2 = true;
            }
            k = k + 1;
        }
        if !pow2 {
            let e = "Cache size must be 2^N".to_string();
            proof {
                reveal_strlit("Cache size must be 2^N");
            }
            return Err(e);
        }
        if size_bytes < 1024 {
            let e = "Cache size must be at least 1024 bytes".to_string();
            proof {
                reveal_strlit("Cache size must be at least 1024 bytes");
            }
            return Err(e);
        }
        let size = size_bytes / 16;
        proof {
            let j = choose|j: u64| j < 64 && size_bytes as u64 == (1u64 << j);
            assert(j >= 10 && (1u64 << j) / 16 == (1u64 << (j - 4) as u64)) by (bit_vector)
                requires
                    j < 64,
                    (1u64 << j) >= 1024,
            ;
            assert(is_pow2(size as u64));
        }
        let mut entries: Vec<Entry> = Vec::new();
        while entries.len() < size
            invariant
                entries.len() <= size,
                forall|i: int| 0 <= i < entries@.len() ==> entries@[i] == unused_entry(),
            decreases size - entries.len(),
        {
            entries.push(Entry { key: 0, count: 0, depth: -1i16 });
        }
        Ok(Cache { entries, mask: size - 1 })
    }

    /// The count saved for `key` at exactly `depth`, if the slot of `key` still holds it.
    pub fn probe(&self, key: u64, depth: usize) -> (r: Option<usize>)
        requires
            self@.wf(),
        ensures
            r == self@.probe(key, depth),
    {
        let idx = (key as usize) & self.mask;
        proof {
            lemma_masked_index(key as usize, self.mask);
        }
        let entry = self.entries[idx];
        if entry.key == key && entry.depth >= 0 && entry.depth as usize == depth {
            Some(entry.count as usize)
        } else {
            None
        }
    }

    /// Overwrites the slot of `key` with `key`, `count` and `depth`.
    pub fn save(&mut self, key: u64, count: usize, depth: i16)
        requires
            old(self)@.wf(),
        ensures
            final(self)@ == old(self)@.save(key, count, depth),
            final(self)@.wf(),
    {
        let idx = (key as usize) & self.mask;
        proof {
            lemma_masked_index(key as usize, self.mask);
        }
        self.entries.set(idx, Entry { key, count: count as u32, depth });
    }

    /// The mask that picks the slot of a key.
    pub fn mask(&self) -> (r: usize)
        ensures
            r == self@.mask,
    {
        self.mask
    }
}

/// Saving a key leaves the value of a key with another slot probeable.
pub proof fn lemma_other_slot_kept(
    c: CacheView,
    k1: u64,
    c1: usize,
    d1: i16,
    k2: u64,
    c2: usize,
    d2: i16,
    pd: usize,
)
    requires
        c.wf(),
        c.index(k1) != c.index(k2),
        pd as int == d1 as int,
    ensures
        c.save(k1, c1, d1).save(k2, c2, d2).probe(k1, pd) == Some((c1 as u32) as usize),
{
    lemma_masked_index(k1 as usize, c.mask);
    lemma_masked_index(k2 as usize, c.mask);
}

/// A probe at another depth than the one saved misses, though the key matches.
pub proof fn lemma_depth_mismatch_misses(c: CacheView, k: u64, n: usize, d: i16, pd: usize)
    requires
        c.wf(),
        pd as int != d as int,
    ensures
        c.save(k, n, d).probe(k, pd) == None::<usize>,
{
    lemma_masked_index(k as usize, c.mask);
}

/// Of two keys with one slot, the second save evicts the first: a probe of the first
/// misses, or gives the second count where both key and depth coincide.
pub proof fn lemma_collision_evicts(
    c: CacheView,
    k1: u64,
    c1: usize,
    d1: i16,
    k2: u64,
    c2: usize,
    d2: i16,
    pd: usize,
)
    requires
        c.wf(),
        c.index(k1) == c.index(k2),
    ensures
        ({
            let r = c.save(k1, c1, d1).save(k2, c2, d2).probe(k1, pd);
            r == None::<usize> || (k1 == k2 && pd as int == d2 as int && r == Some((c2 as u32) as usize))
        }),
{
    lemma_masked_index(k1 as usize, c.mask);
    lemma_masked_index(k2 as usize, c.mask);
}

/// A slot still unused answers no probe, at any depth.
pub proof fn lemma_unused_never_matches(c: CacheView, k: u64, d: usize)
    requires
        c.wf(),
        c.slots[c.index(k)] == unused_entry(),
    ensures
        c.probe(k, d) == None::<usize>,
{
    lemma_masked_index(k as usize, c.mask);
}

} // verus!
