//! The mathematical model of the arena: its bytes and the record of what
//! was inserted, with the laws that hold of them.

use crate::layout::{aligned_up, lemma_padding_is_least, padding_for};
use vstd::prelude::*;

verus! {

/// What the arena remembers of one insertion.
pub struct Entry<D> {
    /// Where the value starts.
    pub offset: nat,
    /// How many bytes it occupies.
    pub size: nat,
    /// The alignment it was inserted with.
    pub align: nat,
    /// The cleanup it is owed at teardown, if any.
    pub dtor: Option<D>,
}

impl<D> Entry<D> {
    /// The offset just past the value.
    pub open spec fn end(self) -> nat {
        self.offset + self.size
    }
}

/// The arena as a value: every byte written so far, and one entry per
/// insertion, oldest first.
pub struct Arena<D> {
    pub bytes: Seq<u8>,
    pub entries: Seq<Entry<D>>,
}

/// The cleanups that `entries` are owed, each with the offset of its value,
/// latest insertion first.
pub open spec fn owed_by<D>(entries: Seq<Entry<D>>) -> Seq<(nat, D)>
    decreases entries.len(),
{
    if entries.len() == 0 {
        Seq::empty()
    } else {
        let last = entries.last();
        let earlier = owed_by(entries.drop_last());
        match last.dtor {
            Some(dtor) => seq![(last.offset, dtor)] + earlier,
            None => earlier,
        }
    }
}

impl<D> Arena<D> {
    /// The arena before any insertion.
    pub open spec fn empty() -> Self {
        Arena { bytes: Seq::empty(), entries: Seq::empty() }
    }

    /// The logical length: the offset at which the next padding starts.
    pub open spec fn end(self) -> nat {
        self.bytes.len()
    }

    /// Well-formedness:
    /// - every entry starts at a multiple of its alignment;
    /// - each entry ends at or before the start of the one after it;
    /// - the arena ends where its last entry ends.
    pub open spec fn wf(self) -> bool {
        &&& forall|i: int|
            0 <= i < self.entries.len() ==> {
                &&& (#[trigger] self.entries[i]).align > 0
                &&& self.entries[i].offset % self.entries[i].align == 0
            }
        &&& forall|i: int|
            0 <= i < self.entries.len() - 1 ==> (#[trigger] self.entries[i]).end()
                <= self.entries[i + 1].offset
        &&& self.end() == if self.entries.len() == 0 {
            0
        } else {
            self.entries.last().end()
        }
    }

    /// Where a value of alignment `align` would be placed next.
    pub open spec fn next_offset(self, align: nat) -> nat
        recommends
            align > 0,
    {
        aligned_up(self.end(), align)
    }

    /// The arena after inserting a value whose byte image is `payload`:
    /// zero bytes up to the next multiple of `align`, then the payload, and a
    /// new entry for it.
    pub open spec fn insert(self, payload: Seq<u8>, align: nat, dtor: Option<D>) -> Self
        recommends
            align > 0,
    {
        Arena {
            bytes: self.bytes + Seq::new(padding_for(self.end(), align), |i: int| 0u8) + payload,
            entries: self.entries.push(
                Entry { offset: self.next_offset(align), size: payload.len(), align, dtor },
            ),
        }
    }

    /// The `size` bytes that start at `offset`.
    pub open spec fn read(self, offset: nat, size: nat) -> Seq<u8>
        recommends
            offset + size <= self.end(),
    {
        self.bytes.subrange(offset as int, (offset + size) as int)
    }

    /// The cleanups owed at teardown, latest insertion first.
    pub open spec fn owed(self) -> Seq<(nat, D)> {
        owed_by(self.entries)
    }
}

/// An empty arena is well-formed and owes nothing.
pub proof fn lemma_empty<D>()
    ensures
        Arena::<D>::empty().wf(),
        Arena::<D>::empty().end() == 0,
        Arena::<D>::empty().owed() == Seq::<(nat, D)>::empty(),
{
}

/// Insertion keeps an arena well-formed.
pub proof fn lemma_insert_wf<D>(arena: Arena<D>, payload: Seq<u8>, align: nat, dtor: Option<D>)
    requires
        arena.wf(),
        align > 0,
    ensures
        arena.insert(payload, align, dtor).wf(),
        arena.insert(payload, align, dtor).end() == arena.next_offset(align) + payload.len(),
{
    lemma_padding_is_least(arena.end(), align);
    let after = arena.insert(payload, align, dtor);
    assert forall|i: int| 0 <= i < after.entries.len() - 1 implies (#[trigger] after.entries[i]).end()
        <= after.entries[i + 1].offset by {
        if i + 1 < arena.entries.len() {
            assert(after.entries[i] == arena.entries[i]);
            assert(after.entries[i + 1] == arena.entries[i + 1]);
        } else {
            assert(after.entries[i] == arena.entries.last());
        }
    }
}

/// A value is placed at a multiple of its alignment, past everything that
/// was in the arena before, and less than `align` bytes are skipped for it.
pub proof fn lemma_placement<D>(arena: Arena<D>, align: nat)
    requires
        align > 0,
    ensures
        arena.next_offset(align) % align == 0,
        arena.end() <= arena.next_offset(align) < arena.end() + align,
{
    lemma_padding_is_least(arena.end(), align);
}

/// Reading at the offset that an insertion chose gives back the bytes that
/// were inserted.
pub proof fn lemma_read_back<D>(arena: Arena<D>, payload: Seq<u8>, align: nat, dtor: Option<D>)
    ensures
        arena.insert(payload, align, dtor).read(arena.next_offset(align), payload.len())
            == payload,
{
    let after = arena.insert(payload, align, dtor);
    assert(after.read(arena.next_offset(align), payload.len()) =~= payload);
}

/// An insertion changes no byte that was in the arena before it: whatever
/// could be read then reads the same afterwards.
pub proof fn lemma_insert_keeps_earlier<D>(
    arena: Arena<D>,
    payload: Seq<u8>,
    align: nat,
    dtor: Option<D>,
    offset: nat,
    size: nat,
)
    requires
        offset + size <= arena.end(),
    ensures
        arena.insert(payload, align, dtor).read(offset, size) == arena.read(offset, size),
{
    let after = arena.insert(payload, align, dtor);
    assert(after.read(offset, size) =~= arena.read(offset, size));
}

/// No two entries overlap: an entry ends at or before the start of every
/// entry inserted after it.
pub proof fn lemma_no_overlap<D>(arena: Arena<D>, i: int, j: int)
    requires
        arena.wf(),
        0 <= i < j < arena.entries.len(),
    ensures
        arena.entries[i].end() <= arena.entries[j].offset,
    decreases j - i,
{
    if i + 1 < j {
        lemma_no_overlap(arena, i, j - 1);
        assert(arena.entries[j - 1].end() <= arena.entries[j - 1 + 1].offset);
    }
}

/// Every entry lies within the arena.
pub proof fn lemma_entry_in_bounds<D>(arena: Arena<D>, i: int)
    requires
        arena.wf(),
        0 <= i < arena.entries.len(),
    ensures
        arena.entries[i].end() <= arena.end(),
{
    let last = arena.entries.len() - 1;
    if i < last {
        lemma_no_overlap(arena, i, last);
    }
}

/// An insertion adds its cleanup to what is owed exactly when it brings one,
/// and touches nothing that was owed before.
pub proof fn lemma_owed_after_insert<D>(
    arena: Arena<D>,
    payload: Seq<u8>,
    align: nat,
    dtor: Option<D>,
)
    ensures
        arena.insert(payload, align, dtor).owed() == match dtor {
            Some(d) => seq![(arena.next_offset(align), d)] + arena.owed(),
            None => arena.owed(),
        },
{
    let after = arena.insert(payload, align, dtor);
    assert(after.entries.drop_last() =~= arena.entries);
}

/// What is owed is exactly the entries that record a cleanup, one element
/// for each of them and none for the others, in reverse order of insertion.
pub proof fn lemma_owed_once<D>(entries: Seq<Entry<D>>)
    ensures
        owed_by(entries) == entries.filter(|e: Entry<D>| e.dtor is Some).map_values(
            |e: Entry<D>| (e.offset, e.dtor->Some_0),
        ).reverse(),
    decreases entries.len(),
{
    reveal(Seq::filter);
    let owing = |e: Entry<D>| e.dtor is Some;
    let pair = |e: Entry<D>| (e.offset, e.dtor->Some_0);
    if entries.len() == 0 {
        assert(owed_by(entries) =~= entries.filter(owing).map_values(pair).reverse());
    } else {
        let earlier = entries.drop_last();
        lemma_owed_once(earlier);
        assert(owed_by(entries) =~= entries.filter(owing).map_values(pair).reverse());
    }
}

} // verus!
