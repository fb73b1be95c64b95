use vstd::prelude::*;

verus! {

/// One entry of the cache: the hash it was stored under and the value.
#[derive(Clone, Copy)]
pub struct HashEntry {
    pub key: u64,
    pub value: u32,
}

/// A cache from position hashes to 32-bit values, of a fixed size that is a
/// power of two. A hash has one slot, given by its low bits; storing
/// overwrites whatever the slot held.
pub struct HashTable {
    entries: Vec<Option<HashEntry>>,
}

/// 2 to the power `bits`.
pub open spec fn pow2(bits: nat) -> nat
    decreases bits,
{
    if bits == 0 {
        1
    } else {
        2 * pow2((bits - 1) as nat)
    }
}

impl HashTable {
    /// What each slot holds.
    pub closed spec fn slots(&self) -> Seq<Option<HashEntry>> {
        self.entries@
    }

    /// The slot of a hash: its low bits.
    pub open spec fn slot_of(&self, hash: u64) -> int {
        hash as int % self.slots().len() as int
    }

    /// What a probe finds: the value in the slot of the hash, if it was stored
    /// under this very hash.
    pub open spec fn lookup(&self, hash: u64) -> Option<u32> {
        match self.slots()[self.slot_of(hash)] {
            Some(entry) => if entry.key == hash {
                Some(entry.value)
            } else {
                None
            },
            None => None,
        }
    }

    #[verifier::type_invariant]
    closed spec fn inv(&self) -> bool {
        self.entries@.len() > 0
    }

    /// An empty cache of 2^`bits` slots.
    pub fn new(bits: u8) -> (t: HashTable)
        requires
            bits < 32,
        ensures
            t.slots().len() == pow2(bits as nat),
            forall|i: int| 0 <= i < t.slots().len() ==> #[trigger] t.slots()[i] is None,
    {
        let mut size: usize = 1;
        let mut b: u8 = 0;
        while b < bits
            invariant
                b <= bits < 32,
                size == pow2(b as nat),
                1 <= size <= 0x8000_0000,
                b < 31 ==> size <= 0x4000_0000,
            decreases bits - b,
        {
            proof {
                lemma_pow2_bound(b as nat);
                lemma_pow2_bound((b + 1) as nat);
            }
            size = size * 2;
            b = b + 1;
        }
        let mut entries: Vec<Option<HashEntry>> = Vec::new();
        let mut i: usize = 0;
        while i < size
            invariant
                i <= size,
                size >= 1,
                entries@.len() == i,
                forall|j: int| 0 <= j < i ==> #[trigger] entries@[j] is None,
            decreases size - i,
        {
            entries.push(None);
            i = i + 1;
        }
        HashTable { entries }
    }

    /// The number of slots.
    pub fn len(&self) -> (n: usize)
        ensures
            n == self.slots().len(),
            n > 0,
    {
        proof {
            use_type_invariant(self);
        }
        self.entries.len()
    }

    /// Forgets every entry.
    pub fn clear(&mut self)
        ensures
            final(self).slots().len() == old(self).slots().len(),
            forall|i: int| 0 <= i < final(self).slots().len() ==> #[trigger] final(self).slots()[i]
                is None,
    {
        proof {
            use_type_invariant(&*self);
        }
        let n = self.entries.len();
        let mut i: usize = 0;
        while i < n
            invariant
                i <= n,
                n > 0,
                self.entries@.len() == n,
                forall|j: int| 0 <= j < i ==> #[trigger] self.entries@[j] is None,
            decreases n - i,
        {
            self.entries[i] = None;
            i = i + 1;
        }
    }

    /// The value stored under a hash, unless its slot holds something else.
    pub fn probe(&self, hash: u64) -> (r: Option<u32>)
        ensures
            r == self.lookup(hash),
    {
        proof {
            use_type_invariant(self);
        }
        let idx = (hash % (self.entries.len() as u64)) as usize;
        match self.entries[idx] {
            Some(entry) => if entry.key == hash {
                Some(entry.value)
            } else {
                None
            },
            None => None,
        }
    }

    /// Stores a value under a hash, in place of what its slot held.
    pub fn store(&mut self, hash: u64, value: u32)
        ensures
            final(self).slots() == old(self).slots().update(
                old(self).slot_of(hash),
                Some(HashEntry { key: hash, value }),
            ),
            final(self).lookup(hash) == Some(value),
    {
        proof {
            use_type_invariant(&*self);
        }
        let idx = (hash % (self.entries.len() as u64)) as usize;
        self.entries[idx] = Some(HashEntry { key: hash, value });
    }

    /// A store under one hash leaves what is found under a hash of another
    /// slot as it was.
    pub proof fn lemma_store_other(before: HashTable, after: HashTable, hash: u64, value: u32, other: u64)
        requires
            before.slots().len() > 0,
            after.slots() == before.slots().update(
                before.slot_of(hash),
                Some(HashEntry { key: hash, value }),
            ),
            before.slot_of(other) != before.slot_of(hash),
        ensures
            after.lookup(other) == before.lookup(other),
    {
    }
}

proof fn lemma_pow2_bound(b: nat)
    requires
        b <= 31,
    ensures
        pow2(b) <= 0x8000_0000,
        b <= 30 ==> pow2(b) <= 0x4000_0000,
    decreases b,
{
    if b > 0 {
        lemma_pow2_bound((b - 1) as nat);
        if b <= 30 {
            lemma_pow2_step((b - 1) as nat, 29);
        } else {
            lemma_pow2_step((b - 1) as nat, 30);
        }
    }
    assert(pow2(30) == 0x4000_0000) by {
        lemma_pow2_30();
    }
}

proof fn lemma_pow2_30()
    ensures
        pow2(30) == 0x4000_0000,
        pow2(31) == 0x8000_0000,
{
    reveal_with_fuel(pow2, 32);
}

proof fn lemma_pow2_step(a: nat, b: nat)
    requires
        a <= b,
    ensures
        pow2(a) <= pow2(b),
    decreases b - a,
{
    if a < b {
        lemma_pow2_step(a, (b - 1) as nat);
    }
}

} // verus!
