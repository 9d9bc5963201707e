//! Content-addressed interning of immutable byte values into 32-bit handles.
use vstd::prelude::*;
use crate::bytes::{bytes_copy, bytes_eq, xxh3_64, xxh3_64_of};
use crate::memory::NULL_ADDR;

verus! {

/// Handle of the first interned value; below it lie 0 and the null handle.
pub const FIRST_HANDLE: u32 = 2;

/// Most values one interner holds, so that every handle fits in 32 bits.
pub const MAX_INTERNED: usize = 0xffff_fff0;

/// The handle of the value at `index` of the table.
pub open spec fn handle_at(index: int) -> u32 {
    (index + FIRST_HANDLE) as u32
}

/// Position of `v` in a table without duplicates that holds it.
pub open spec fn position_of(values: Seq<Seq<u8>>, v: Seq<u8>) -> int {
    choose|i: int| 0 <= i < values.len() && values[i] == v
}

/// The table after interning `v`: unchanged if it holds `v`, else `v` appended.
pub open spec fn interned_values(values: Seq<Seq<u8>>, v: Seq<u8>) -> Seq<Seq<u8>> {
    if values.contains(v) {
        values
    } else {
        values.push(v)
    }
}

/// The handle that interning `v` returns.
pub open spec fn interned_handle(values: Seq<Seq<u8>>, v: Seq<u8>) -> u32 {
    if values.contains(v) {
        handle_at(position_of(values, v))
    } else {
        handle_at(values.len() as int)
    }
}

struct Entry {
    hash: u64,
    value: Vec<u8>,
}

/// Table from the hash of a value's bytes to its handle. Equal values share a
/// handle; a hash collision is settled by comparing the bytes.
pub struct Interner {
    entries: Vec<Entry>,
}

impl View for Interner {
    type V = Seq<Seq<u8>>;

    /// The interned values in the order they were first interned.
    closed spec fn view(&self) -> Seq<Seq<u8>> {
        Seq::new(self.entries@.len(), |i: int| self.entries@[i].value@)
    }
}

impl Interner {
    pub closed spec fn wf(&self) -> bool {
        &&& self@.no_duplicates()
        &&& self@.len() <= MAX_INTERNED
        &&& forall|i: int|
            0 <= i < self.entries@.len() ==> #[trigger] self.entries@[i].hash == xxh3_64_of(
                self.entries@[i].value@,
            )
    }

    pub fn new() -> (r: Self)
        ensures
            r.wf(),
            r@.no_duplicates(),
            r@ == Seq::<Seq<u8>>::empty(),
    {
        let r = Interner { entries: Vec::new() };
        assert(r@ =~= Seq::<Seq<u8>>::empty());
        r
    }

    /// Empties the table.
    pub fn reset(&mut self)
        ensures
            final(self).wf(),
            final(self)@ == Seq::<Seq<u8>>::empty(),
    {
        self.entries = Vec::new();
        assert(self@ =~= Seq::<Seq<u8>>::empty());
    }

    /// Number of interned values.
    pub fn len(&self) -> (r: usize)
        ensures
            r == self@.len(),
    {
        self.entries.len()
    }

    /// The handle of `value`, interning it first if the table lacks it.
    pub fn intern(&mut self, value: &[u8]) -> (r: u32)
        requires
            old(self).wf(),
            old(self)@.len() < MAX_INTERNED,
        ensures
            final(self).wf(),
            final(self)@.no_duplicates(),
            final(self)@ == interned_values(old(self)@, value@),
            r == interned_handle(old(self)@, value@),
            r != NULL_ADDR,
            FIRST_HANDLE <= r < FIRST_HANDLE + final(self)@.len(),
            final(self)@[r - FIRST_HANDLE] == value@,
    {
        let hash = xxh3_64(value);
        let mut i: usize = 0;
        while i < self.entries.len()
            invariant
                self.wf(),
                *self == *old(self),
                hash == xxh3_64_of(value@),
                0 <= i <= self@.len(),
                forall|j: int| 0 <= j < i ==> self@[j] != value@,
            decreases self@.len() - i,
        {
            if self.entries[i].hash == hash && bytes_eq(self.entries[i].value.as_slice(), value) {
                proof {
                    assert(self@[i as int] == value@);
                    assert(self@.contains(value@));
                    let p = position_of(self@, value@);
                    assert(self@[p] == value@);
                    assert(p == i) by {
                        if p != i {
                            assert(self@[p] == self@[i as int]);
                        }
                    }
                }
                return (i + 2) as u32;
            }
            proof {
                if self@[i as int] == value@ {
                    assert(self.entries@[i as int].hash == xxh3_64_of(value@));
                }
            }
            i += 1;
        }
        assert(!self@.contains(value@));
        let ghost before = self@;
        let handle = (self.entries.len() + 2) as u32;
        self.entries.push(Entry { hash, value: bytes_copy(value) });
        assert(self@ =~= before.push(value@));
        assert(self@.no_duplicates()) by {
            assert forall|a: int, b: int|
                0 <= a < self@.len() && 0 <= b < self@.len() && a != b implies self@[a]
                != self@[b] by {
                if a < before.len() && b < before.len() {
                    assert(self@[a] == before[a] && self@[b] == before[b]);
                } else if a < before.len() {
                    assert(self@[a] == before[a]);
                } else if b < before.len() {
                    assert(self@[b] == before[b]);
                }
            }
        }
        handle
    }

    /// The bytes behind `handle`, or `None` when no value has that handle.
    pub fn get(&self, handle: u32) -> (r: Option<&[u8]>)
        ensures
            match r {
                Some(v) => FIRST_HANDLE <= handle && handle - FIRST_HANDLE < self@.len() && v@
                    == self@[handle - FIRST_HANDLE],
                None => handle < FIRST_HANDLE || handle - FIRST_HANDLE >= self@.len(),
            },
    {
        if handle < FIRST_HANDLE {
            return None;
        }
        let i = (handle - FIRST_HANDLE) as usize;
        if i >= self.entries.len() {
            return None;
        }
        Some(self.entries[i].value.as_slice())
    }
}

/// Interning is injective: after interning `a` and then `b`, the two handles
/// are equal exactly when the two values are equal.
pub proof fn lemma_intern_handles(values: Seq<Seq<u8>>, a: Seq<u8>, b: Seq<u8>)
    requires
        values.no_duplicates(),
        values.len() + 1 < MAX_INTERNED,
    ensures
        (interned_handle(values, a) == interned_handle(interned_values(values, a), b)) == (a
            == b),
{
    let after = interned_values(values, a);
    assert(after.no_duplicates()) by {
        if !values.contains(a) {
            assert forall|i: int, j: int|
                0 <= i < after.len() && 0 <= j < after.len() && i != j implies after[i]
                != after[j] by {
                if i < values.len() && j < values.len() {
                } else if i < values.len() {
                    assert(after[i] == values[i]);
                } else if j < values.len() {
                    assert(after[j] == values[j]);
                }
            }
        }
    }
    if values.contains(a) {
        let pa = position_of(values, a);
        assert(values[pa] == a);
        if after.contains(b) {
            let pb = position_of(after, b);
            assert(after[pb] == b);
        }
    } else {
        assert(after[values.len() as int] == a);
        assert(after.contains(a));
        if after.contains(b) {
            let pb = position_of(after, b);
            assert(after[pb] == b);
            if a == b {
                assert(pb == values.len());
            } else {
                assert(pb < values.len());
            }
        }
    }
}

} // verus!
