//! The arena itself: the byte buffer, the registry of what was inserted,
//! and the operations on them.

use crate::key::{Key, KeyIndex};
use crate::layout::{alignment_padding, lemma_padding_is_least};
use crate::model::{
    lemma_insert_keeps_earlier, lemma_insert_wf, lemma_read_back, owed_by, Arena, Entry,
};
use vstd::layout::{align_nonzero, align_of, size_of};
use vstd::prelude::*;
use vstd::slice::slice_subrange;

verus! {

/// One line of the registry: where a value starts and what cleanup it is
/// owed. Size and alignment are kept for the proofs only.
struct InternalKey<D> {
    dtor: Option<D>,
    offset: KeyIndex,
    size: Ghost<nat>,
    align: Ghost<nat>,
}

impl<D> InternalKey<D> {
    spec fn entry(self) -> Entry<D> {
        Entry { offset: self.offset as nat, size: self.size@, align: self.align@, dtor: self.dtor }
    }
}

/// A growable arena that stores the byte images of values of any types back
/// to back, each at a multiple of its alignment.
///
/// `D` is the cleanup that a value may be owed when the arena is torn down.
/// The arena stores a cleanup with the value's offset and hands it out again,
/// once, from [`HVec::teardown`]; it never runs one itself.
///
/// A value without size occupies no byte: its key holds the offset at which
/// the next value of its alignment would start, and it is registered like
/// any other value.
pub struct HVec<D> {
    raw: Vec<u8>,
    keys_given_out: Vec<InternalKey<D>>,
}

impl<D> View for HVec<D> {
    type V = Arena<D>;

    closed spec fn view(&self) -> Arena<D> {
        Arena {
            bytes: self.raw@,
            entries: self.keys_given_out@.map_values(|k: InternalKey<D>| k.entry()),
        }
    }
}

/// Whether dropping a value of type `V` may do anything: the answer of
/// `core::mem::needs_drop`. Nothing is claimed of it; the standard library
/// calls it a hint, which may say yes for a type that needs no cleanup.
#[verifier::external_body]
fn needs_cleanup<V>() -> (needed: bool) {
    core::mem::needs_drop::<V>()
}

/// The cleanups in `owed` with their offsets as mathematical integers.
pub open spec fn owed_view<D>(owed: Seq<(KeyIndex, D)>) -> Seq<(nat, D)> {
    owed.map_values(|pair: (KeyIndex, D)| (pair.0 as nat, pair.1))
}

impl<D> HVec<D> {
    /// Well-formedness of the arena (see [`Arena::wf`]).
    pub open spec fn wf(&self) -> bool {
        self@.wf()
    }

    /// Whether a value of type `V` can still be inserted: placed at the
    /// next multiple of its alignment, it must end within the range of a
    /// key.
    pub open spec fn has_room_for<V>(&self) -> bool {
        self@.next_offset(align_of::<V>()) + size_of::<V>() <= KeyIndex::MAX
    }

    /// An empty arena.
    pub fn new() -> (arena: Self)
        ensures
            arena.wf(),
            arena@ == Arena::<D>::empty(),
    {
        let arena = HVec { raw: Vec::new(), keys_given_out: Vec::new() };
        assert(arena@.entries =~= Seq::empty());
        arena
    }

    /// The number of bytes in the arena, padding included.
    pub fn len(&self) -> (len: usize)
        ensures
            len == self@.end(),
    {
        self.raw.len()
    }

    /// Tests whether a value of type `V` can still be inserted.
    pub fn has_room<V>(&self) -> (room: bool)
        ensures
            room == self.has_room_for::<V>(),
    {
        let limit: usize = KeyIndex::MAX as usize;
        let len: usize = self.raw.len();
        let size: usize = core::mem::size_of::<V>();
        let align: usize = core::mem::align_of::<V>();
        proof {
            broadcast use align_nonzero;

            assert(align_of::<V>() > 0);
        }
        let padding: usize = alignment_padding(len, align);
        len <= limit && padding <= limit - len && size <= limit - len - padding
    }

    /// Inserts a value of type `V`, given as its byte image, and returns its
    /// key. The cleanup `dtor` is registered for it if dropping a `V` may do
    /// anything, and discarded if not.
    ///
    /// Where the value is placed and what the arena holds afterwards is that
    /// of [`HVec::push_with`].
    pub fn push<V>(&mut self, bytes: &[u8], dtor: D) -> (key: Key<V>)
        requires
            old(self).wf(),
            bytes@.len() == size_of::<V>(),
            old(self).has_room_for::<V>(),
        ensures
            final(self).wf(),
            final(self)@ == old(self)@.insert(bytes@, align_of::<V>(), Some(dtor)) || final(self)@
                == old(self)@.insert(bytes@, align_of::<V>(), None),
            key@ == old(self)@.next_offset(align_of::<V>()),
            key@ % align_of::<V>() == 0,
            key@ + size_of::<V>() == final(self)@.end(),
            final(self)@.read(key@, size_of::<V>()) == bytes@,
            forall|offset: nat, size: nat|
                offset + size <= old(self)@.end() ==> #[trigger] final(self)@.read(offset, size)
                    == old(self)@.read(offset, size),
    {
        let owed = if needs_cleanup::<V>() {
            Some(dtor)
        } else {
            None
        };
        self.push_with(bytes, owed)
    }

    /// Inserts a value of type `V`, given as its byte image, with the
    /// cleanup it is owed, if any, and returns its key.
    ///
    /// The arena is padded with zero bytes up to the next multiple of `V`'s
    /// alignment; the image follows, and the registry gets one more entry.
    /// Nothing that was in the arena before is changed.
    pub fn push_with<V>(&mut self, bytes: &[u8], dtor: Option<D>) -> (key: Key<V>)
        requires
            old(self).wf(),
            bytes@.len() == size_of::<V>(),
            old(self).has_room_for::<V>(),
        ensures
            final(self).wf(),
            final(self)@ == old(self)@.insert(bytes@, align_of::<V>(), dtor),
            key@ == old(self)@.next_offset(align_of::<V>()),
            key@ % align_of::<V>() == 0,
            key@ + size_of::<V>() == final(self)@.end(),
            final(self)@.read(key@, size_of::<V>()) == bytes@,
            forall|offset: nat, size: nat|
                offset + size <= old(self)@.end() ==> #[trigger] final(self)@.read(offset, size)
                    == old(self)@.read(offset, size),
    {
        let size: usize = core::mem::size_of::<V>();
        let align: usize = core::mem::align_of::<V>();
        proof {
            broadcast use align_nonzero;

            assert(align_of::<V>() > 0);
        }
        self.raw.reserve(size.saturating_add(align));
        let old_len: usize = self.raw.len();
        let padding: usize = alignment_padding(old_len, align);
        proof {
            lemma_padding_is_least(old_len as nat, align as nat);
        }
        let ghost before = self.raw@;
        let ghost zeros = Seq::new(padding as nat, |i: int| 0u8);
        let mut skipped: usize = 0;
        while skipped < padding
            invariant
                skipped <= padding,
                zeros == Seq::new(padding as nat, |i: int| 0u8),
                self.raw@ == before + zeros.take(skipped as int),
                self.keys_given_out == old(self).keys_given_out,
            decreases padding - skipped,
        {
            self.raw.push(0u8);
            skipped += 1;
            assert(self.raw@ =~= before + zeros.take(skipped as int));
        }
        assert(zeros.take(padding as int) =~= zeros);
        let mut copied: usize = 0;
        while copied < size
            invariant
                copied <= size,
                size == bytes@.len(),
                self.raw@ == before + zeros + bytes@.take(copied as int),
                self.keys_given_out == old(self).keys_given_out,
            decreases size - copied,
        {
            self.raw.push(bytes[copied]);
            copied += 1;
            assert(self.raw@ =~= before + zeros + bytes@.take(copied as int));
        }
        assert(bytes@.take(size as int) =~= bytes@);
        let offset: KeyIndex = (old_len + padding) as KeyIndex;
        self.keys_given_out.push(
            InternalKey { dtor, offset, size: Ghost(size as nat), align: Ghost(align as nat) },
        );
        proof {
            let start = old(self)@;
            let after = start.insert(bytes@, align as nat, dtor);
            assert(self@.entries =~= after.entries);
            assert(self@ == after);
            lemma_insert_wf(start, bytes@, align as nat, dtor);
            lemma_read_back(start, bytes@, align as nat, dtor);
            assert forall|offset: nat, size: nat| offset + size <= start.end() implies #[trigger] after.read(
                offset,
                size,
            ) == start.read(offset, size) by {
                lemma_insert_keeps_earlier(start, bytes@, align as nat, dtor, offset, size);
            }
        }
        Key::at(offset)
    }

    /// The bytes of the value that `key` stands for.
    ///
    /// The key must lie within the arena, as every key that this arena gave
    /// out for `V` does.
    pub fn get<V>(&self, key: Key<V>) -> (bytes: &[u8])
        requires
            key@ + size_of::<V>() <= self@.end(),
        ensures
            bytes@ == self@.read(key@, size_of::<V>()),
    {
        let start: usize = key.offset() as usize;
        let size: usize = core::mem::size_of::<V>();
        assert(self.raw.len() == self.raw@.len());
        slice_subrange(self.raw.as_slice(), start, start + size)
    }

    /// Takes the arena apart: its bytes, and the cleanups that its values
    /// are owed, each with the offset of its value, latest insertion first.
    ///
    /// Every cleanup that was inserted comes out once, and the arena is
    /// gone afterwards.
    pub fn teardown(self) -> (parts: (Vec<u8>, Vec<(KeyIndex, D)>))
        ensures
            parts.0@ == self@.bytes,
            owed_view(parts.1@) == self@.owed(),
    {
        let raw = self.raw;
        let mut keys = self.keys_given_out;
        let mut owed: Vec<(KeyIndex, D)> = Vec::new();
        let ghost entries = self@.entries;
        assert(owed_view(owed@) =~= Seq::empty());
        while keys.len() > 0
            invariant
                owed_view(owed@) + owed_by(keys@.map_values(|k: InternalKey<D>| k.entry()))
                    == owed_by(entries),
            decreases keys.len(),
        {
            let ghost rest = keys@.map_values(|k: InternalKey<D>| k.entry());
            let ghost done = owed_view(owed@);
            let key = keys.pop().unwrap();
            assert(keys@.map_values(|k: InternalKey<D>| k.entry()) =~= rest.drop_last());
            assert(rest.last() == key.entry());
            match key.dtor {
                Some(dtor) => {
                    owed.push((key.offset, dtor));
                    assert(owed_view(owed@) =~= done + seq![(key.offset as nat, dtor)]);
                    assert(done + (seq![(key.offset as nat, dtor)] + owed_by(rest.drop_last()))
                        =~= (done + seq![(key.offset as nat, dtor)]) + owed_by(rest.drop_last()));
                },
                None => {},
            }
        }
        assert(owed_view(owed@) + Seq::<(nat, D)>::empty() =~= owed_view(owed@));
        (raw, owed)
    }
}

} // verus!
