//! A row store that keeps its columns in a hash map, for component numbers
//! of any size.

use crate::component::{Component, ComponentId, Metadata};
use crate::table::{pop_first, Column};
use crate::view::ColumnView;
use std::collections::hash_map::Entry;
use std::collections::{BTreeSet, HashMap};
use vstd::prelude::*;

verus! {

/// The values of one component type in a store: a column, under the name
/// that stores have for it.
pub struct ComponentList {
    column: Column,
}

impl View for ComponentList {
    type V = ColumnView;

    closed spec fn view(&self) -> ColumnView {
        self.column@
    }
}

impl ComponentList {
    pub closed spec fn wf(&self) -> bool {
        self.column.wf()
    }

    pub proof fn lemma_view_wf(&self)
        requires
            self.wf(),
        ensures
            self@.wf(),
            self@.stride <= usize::MAX,
    {
        self.column.lemma_view_wf();
    }

    pub fn new(item_size: usize) -> (list: Self)
        ensures
            list.wf(),
            list@ == ColumnView::empty(item_size as nat),
    {
        ComponentList { column: Column::new(item_size) }
    }

    /// The bytes of slot `idx`.
    #[inline(always)]
    pub fn read_bytes(&self, idx: usize) -> (bytes: &[u8])
        requires
            self.wf(),
            idx < self@.capacity(),
        ensures
            bytes@ == self@.cells[idx as int],
    {
        self.column.read_bytes(idx)
    }

    /// The value of type `T` in slot `idx`.
    #[inline(always)]
    pub fn read<T: Component>(&self, idx: usize) -> (val: T)
        requires
            self.wf(),
            idx < self@.capacity(),
            self@.stride == T::spec_metadata().size(),
        ensures
            (exists|w: T| w.bytes() == self@.cells[idx as int]) ==> val.bytes()
                == self@.cells[idx as int],
    {
        self.column.read::<T>(idx)
    }

    /// The bytes of slot `idx`, for the caller to change in place.
    #[inline(always)]
    pub fn read_mut(&mut self, idx: usize) -> (bytes: &mut [u8])
        requires
            old(self).wf(),
            idx < old(self)@.capacity(),
        ensures
            bytes@ == old(self)@.cells[idx as int],
            final(bytes)@.len() == bytes@.len() ==> final(self).wf(),
            final(bytes)@.len() == bytes@.len() ==> final(self)@ == old(self)@.write(
                idx as nat,
                final(bytes)@,
            ),
    {
        self.column.read_mut(idx)
    }

    /// Writes `val` into slot `idx`, growing the buffer first if the slot lies beyond it.
    #[inline(always)]
    pub fn write<T: Component>(&mut self, idx: usize, val: T)
        requires
            old(self).wf(),
            old(self)@.stride == T::spec_metadata().size(),
            old(self)@.fits(idx as nat),
        ensures
            final(self).wf(),
            final(self)@ == old(self)@.write(idx as nat, val.bytes()),
    {
        self.column.write(idx, val);
    }

    /// Writes `val` into slot `idx`, growing the buffer first if the slot lies beyond it.
    #[inline(always)]
    pub fn write_any(&mut self, idx: usize, val: &[u8])
        requires
            old(self).wf(),
            val@.len() == old(self)@.stride,
            old(self)@.fits(idx as nat),
        ensures
            final(self).wf(),
            final(self)@ == old(self)@.write(idx as nat, val@),
    {
        self.column.write_any(idx, val);
    }

    /// Copies slot `src_idx` of `src` into slot `dst_idx` of `dst`, byte for byte.
    #[inline(always)]
    pub fn copy_item_from_list(
        src: &ComponentList,
        dst: &mut ComponentList,
        src_idx: usize,
        dst_idx: usize,
    )
        requires
            src.wf(),
            old(dst).wf(),
            src@.stride == old(dst)@.stride,
            src_idx < src@.capacity(),
            old(dst)@.fits(dst_idx as nat),
        ensures
            final(dst).wf(),
            final(dst)@ == old(dst)@.write(dst_idx as nat, src@.cells[src_idx as int]),
    {
        Column::copy_item_from_column(&src.column, &mut dst.column, src_idx, dst_idx);
    }

    #[inline(always)]
    pub fn get_component_size(&self) -> (r: usize)
        ensures
            r == self@.stride,
    {
        self.column.get_component_size()
    }

    /// Whether a write to slot `idx` can be addressed.
    pub fn can_hold(&self, idx: usize) -> (r: bool)
        requires
            self.wf(),
        ensures
            r == self@.fits(idx as nat),
    {
        self.column.can_hold(idx)
    }
}

/// A store as mathematics: the list of each component number that has one,
/// the row counter, and the rows below it that are free for reuse.
pub struct StoreView {
    pub lists: Map<nat, ColumnView>,
    pub end: nat,
    pub free: Set<nat>,
}

impl StoreView {
    pub open spec fn wf(self) -> bool {
        &&& forall|id: nat| #[trigger] self.lists.contains_key(id) ==> self.lists[id].wf()
        &&& forall|row: nat| self.free.contains(row) ==> row < self.end
    }

    /// The store without lists and rows.
    pub open spec fn empty() -> StoreView {
        StoreView { lists: Map::empty(), end: 0, free: Set::empty() }
    }

    /// Whether the store has a list for component number `id`.
    pub open spec fn has(self, id: nat) -> bool {
        self.lists.contains_key(id)
    }

    /// The row that the next reservation hands out: the least free row, or the
    /// row counter when no row is free.
    pub open spec fn next_row(self) -> nat {
        if self.free.is_empty() {
            self.end
        } else {
            crate::view::least(self.free)
        }
    }

    /// Whether a reservation can be counted.
    pub open spec fn can_reserve(self) -> bool {
        !self.free.is_empty() || self.end < usize::MAX
    }

    /// The store after a reservation of `self.next_row()`.
    pub open spec fn reserve(self) -> StoreView {
        if self.free.is_empty() {
            StoreView { end: self.end + 1, ..self }
        } else {
            StoreView { free: self.free.remove(crate::view::least(self.free)), ..self }
        }
    }

    /// The store after `row` was handed back.
    pub open spec fn release(self, row: nat) -> StoreView {
        StoreView { free: self.free.insert(row), ..self }
    }

    /// The store with a fresh, empty list of stride `size` for component number `id`.
    pub open spec fn add_list(self, id: nat, size: nat) -> StoreView {
        StoreView { lists: self.lists.insert(id, ColumnView::empty(size)), ..self }
    }

    /// The list that a write of a value of `size` bytes for component number `id` goes to.
    pub open spec fn list_or_new(self, id: nat, size: nat) -> ColumnView {
        if self.has(id) {
            self.lists[id]
        } else {
            ColumnView::empty(size)
        }
    }

    /// Whether a value of `size` bytes can be written to `row` of component number `id`:
    /// the stride agrees and the buffer can be addressed.
    pub open spec fn accepts(self, id: nat, size: nat, row: nat) -> bool {
        &&& self.list_or_new(id, size).stride == size
        &&& self.list_or_new(id, size).fits(row)
    }

    /// The store after `bytes` was written to `row` of component number `id`.
    pub open spec fn write(self, id: nat, row: nat, bytes: Seq<u8>) -> StoreView {
        StoreView {
            lists: self.lists.insert(id, self.list_or_new(id, bytes.len()).write(row, bytes)),
            ..self
        }
    }

    /// The bytes at `row` of component number `id`.
    pub open spec fn value(self, id: nat, row: nat) -> Seq<u8> {
        self.lists[id].cells[row as int]
    }

    /// Whether `row` of component number `id` can be read.
    pub open spec fn readable(self, id: nat, row: nat) -> bool {
        self.has(id) && row < self.lists[id].capacity()
    }

    /// A write keeps the store well formed, puts the value in place, and
    /// leaves every other list and every other row as it was.
    pub proof fn lemma_write(self, id: nat, row: nat, bytes: Seq<u8>)
        requires
            self.wf(),
            self.accepts(id, bytes.len(), row),
        ensures
            self.write(id, row, bytes).wf(),
            self.write(id, row, bytes).readable(id, row),
            self.write(id, row, bytes).value(id, row) == bytes,
            forall|j: nat, r: nat|
                self.readable(j, r) ==> #[trigger] self.write(id, row, bytes).readable(j, r),
            forall|j: nat, r: nat|
                self.readable(j, r) && !(j == id && r == row) ==> #[trigger] self.write(
                    id,
                    row,
                    bytes,
                ).value(j, r) == self.value(j, r),
    {
        self.list_or_new(id, bytes.len()).lemma_write_wf(row, bytes);
    }
}

/// A row store for component numbers of any size: one list per component type
/// in a hash map, a row counter that only grows, and the set of rows free for
/// reuse.
pub struct Store {
    data: HashMap<u32, ComponentList>,
    end_index: usize,
    free_indices: BTreeSet<usize>,
}

impl View for Store {
    type V = StoreView;

    closed spec fn view(&self) -> StoreView {
        StoreView {
            lists: Map::new(
                |id: nat| id <= u32::MAX && self.data@.contains_key(id as u32),
                |id: nat| self.data@[id as u32]@,
            ),
            end: self.end_index as nat,
            free: Set::new(
                |row: nat| row <= usize::MAX && self.free_indices@.contains(row as usize),
            ),
        }
    }
}

impl Store {
    pub closed spec fn wf(&self) -> bool {
        &&& forall|id: u32| #[trigger] self.data@.contains_key(id) ==> self.data@[id].wf()
        &&& forall|row: usize| self.free_indices@.contains(row) ==> row < self.end_index
    }

    pub proof fn lemma_view_wf(&self)
        requires
            self.wf(),
        ensures
            self@.wf(),
            self@.end <= usize::MAX,
    {
        assert forall|id: nat|
            #[trigger] self@.lists.contains_key(id) implies self@.lists[id].wf() by {
            assert(self.data@.contains_key(id as u32));
            self.data@[id as u32].lemma_view_wf();
        }
    }

    pub fn new() -> (s: Self)
        ensures
            s.wf(),
            s@ == StoreView::empty(),
    {
        let s = Store { data: HashMap::new(), end_index: 0, free_indices: BTreeSet::new() };
        proof {
            assert(s@.lists =~= StoreView::empty().lists);
            assert(s@.free =~= StoreView::empty().free);
        }
        s
    }

    /// The row counter: an upper bound on the rows in use. Rows below it may be free.
    pub fn len(&self) -> (r: usize)
        ensures
            r == self@.end,
    {
        self.end_index
    }

    /// Hands out a row: the least free row, or else the row counter, which then advances.
    pub fn reserve_index(&mut self) -> (row: usize)
        requires
            old(self).wf(),
            old(self)@.can_reserve(),
        ensures
            final(self).wf(),
            row == old(self)@.next_row(),
            final(self)@ == old(self)@.reserve(),
    {
        let ghost before = *self;
        if let Some(index) = pop_first(&mut self.free_indices) {
            proof {
                assert(before@.free.contains(index as nat));
                assert(crate::view::is_least(before@.free, index as nat)) by {
                    assert forall|x: nat| before@.free.contains(x) implies index <= x by {
                        assert(before.free_indices@.contains(x as usize));
                    }
                }
                crate::view::lemma_least_unique(before@.free, index as nat);
                assert(self@.free =~= before@.free.remove(index as nat));
                assert(self@.lists =~= before@.lists);
            }
            index
        } else {
            proof {
                assert(before@.free =~= Set::<nat>::empty());
                assert(self@.free =~= before@.free);
                assert(self@.lists =~= before@.lists);
            }
            let index = self.end_index;
            self.end_index += 1;
            index
        }
    }

    /// Hands `index` back for reuse.
    pub fn free_index(&mut self, index: usize)
        requires
            old(self).wf(),
            index < old(self)@.end,
        ensures
            final(self).wf(),
            final(self)@ == old(self)@.release(index as nat),
    {
        let ghost before = *self;
        self.free_indices.insert(index);
        proof {
            assert(self@.free =~= before@.free.insert(index as nat));
            assert(self@.lists =~= before@.lists);
        }
    }

    /// Whether the store has a list for the components of type `T`.
    pub fn has_component<T: Component>(&self) -> (r: bool)
        requires
            self.wf(),
        ensures
            r == self@.has(T::spec_metadata().index()),
    {
        let id = T::metadata_static().id().0;
        self.data.contains_key(&id)
    }

    /// Gives the store a fresh, empty list for component number `id`, in place
    /// of the one it may have had.
    pub fn add_component_list_by_id(&mut self, id: ComponentId, size: usize)
        requires
            old(self).wf(),
        ensures
            final(self).wf(),
            final(self)@ == old(self)@.add_list(id.0 as nat, size as nat),
    {
        let ghost before = *self;
        self.data.insert(id.0, ComponentList::new(size));
        proof {
            assert(self@.lists =~= before@.add_list(id.0 as nat, size as nat).lists);
            assert(self@.free =~= before@.free);
        }
    }

    /// The list of component number `id`, if the store has one.
    pub fn get_component_list_by_id(&self, id: ComponentId) -> (r: Option<&ComponentList>)
        requires
            self.wf(),
        ensures
            r is Some == self@.has(id.0 as nat),
            r matches Some(list) ==> list.wf() && list@ == self@.lists[id.0 as nat],
    {
        self.data.get(&id.0)
    }

    /// The list of the components of type `T`, if the store has one.
    pub fn get_component_list<T: Component>(&self) -> (r: Option<&ComponentList>)
        requires
            self.wf(),
        ensures
            r is Some == self@.has(T::spec_metadata().index()),
            r matches Some(list) ==> list.wf() && list@ == self@.lists[T::spec_metadata().index()],
    {
        self.get_component_list_by_id(T::metadata_static().id())
    }

    /// The list of component number `id`, for the caller to change, if the
    /// store has one.
    pub fn get_component_list_by_id_mut(&mut self, id: ComponentId) -> (r: Option<
        &mut ComponentList,
    >)
        requires
            old(self).wf(),
        ensures
            r is Some == old(self)@.has(id.0 as nat),
            r is None ==> final(self).wf() && final(self)@ == old(self)@,
            r matches Some(list) ==> list.wf() && list@ == old(self)@.lists[id.0 as nat],
            r matches Some(list) ==> (final(list).wf() ==> final(self).wf()),
            r matches Some(list) ==> (final(list).wf() ==> final(self)@ == (StoreView {
                lists: old(self)@.lists.insert(id.0 as nat, final(list)@),
                ..old(self)@
            })),
    {
        let ghost before = *self;
        if !self.data.contains_key(&id.0) {
            return None;
        }
        match self.data.entry(id.0) {
            Entry::Occupied(o) => {
                let list = o.into_mut();
                proof {
                    assert forall|after: Store|
                        #![trigger after.wf()]
                        #![trigger after@]
                        after.end_index == before.end_index && after.free_indices
                            == before.free_indices && after.data@.contains_key(id.0)
                            && after.data@ == before.data@.insert(id.0, after.data@[id.0])
                            && after.data@[id.0].wf() implies after.wf() && after@ == (StoreView {
                        lists: before@.lists.insert(id.0 as nat, after.data@[id.0]@),
                        ..before@
                    }) by {
                        assert(after@.lists =~= before@.lists.insert(
                            id.0 as nat,
                            after.data@[id.0]@,
                        ));
                        assert(after@.free =~= before@.free);
                    }
                }
                Some(list)
            },
            Entry::Vacant(_) => None,
        }
    }

    /// Writes `val`, a value of the component type that `metadata` describes, to `row`.
    /// The list is made first if the store has none for that type.
    pub fn write_any(&mut self, metadata: Metadata, row: usize, val: &[u8])
        requires
            old(self).wf(),
            val@.len() == metadata.size(),
            old(self)@.accepts(metadata.index(), metadata.size() as nat, row as nat),
        ensures
            final(self).wf(),
            final(self)@ == old(self)@.write(metadata.index(), row as nat, val@),
    {
        let ghost before = *self;
        let id = metadata.id().0;
        let mut list = match self.data.remove(&id) {
            Some(list) => list,
            None => ComponentList::new(metadata.size()),
        };
        list.write_any(row, val);
        self.data.insert(id, list);
        proof {
            assert(self@.lists =~= before@.write(metadata.index(), row as nat, val@).lists);
            assert(self@.free =~= before@.free);
        }
    }

    /// Writes `val` to `row`. The list is made first if the store has none for
    /// the components of type `T`.
    pub fn write<T: Component>(&mut self, row: usize, val: T)
        requires
            old(self).wf(),
            old(self)@.accepts(
                T::spec_metadata().index(),
                T::spec_metadata().size() as nat,
                row as nat,
            ),
        ensures
            final(self).wf(),
            final(self)@ == old(self)@.write(T::spec_metadata().index(), row as nat, val.bytes()),
    {
        let bytes = val.to_bytes();
        self.write_any(T::metadata_static(), row, bytes.as_slice());
    }

    /// The value of type `T` at `row`.
    pub fn read<T: Component>(&self, row: usize) -> (val: T)
        requires
            self.wf(),
            self@.readable(T::spec_metadata().index(), row as nat),
            self@.lists[T::spec_metadata().index()].stride == T::spec_metadata().size(),
        ensures
            (exists|w: T| w.bytes() == self@.value(T::spec_metadata().index(), row as nat))
                ==> val.bytes() == self@.value(T::spec_metadata().index(), row as nat),
    {
        let id = T::metadata_static().id().0;
        self.data.get(&id).unwrap().read::<T>(row)
    }

    /// The value of type `T` at `row`, if the store has a list of that type's
    /// size for it.
    pub fn try_read<T: Component>(&self, row: usize) -> (r: Option<T>)
        requires
            self.wf(),
            self@.has(T::spec_metadata().index())
                ==> row < self@.lists[T::spec_metadata().index()].capacity(),
        ensures
            r is Some == (self@.has(T::spec_metadata().index())
                && self@.lists[T::spec_metadata().index()].stride == T::spec_metadata().size()),
            r matches Some(val) ==> ((exists|w: T|
                w.bytes() == self@.value(T::spec_metadata().index(), row as nat)) ==> val.bytes()
                == self@.value(T::spec_metadata().index(), row as nat)),
    {
        let metadata = T::metadata_static();
        match self.data.get(&metadata.id().0) {
            Some(list) => {
                if list.get_component_size() == metadata.size() {
                    Some(list.read::<T>(row))
                } else {
                    None
                }
            },
            None => None,
        }
    }

    /// The bytes at `row` of the component of type `T`, for the caller to
    /// change in place, if the store has that list.
    pub fn try_read_mut<T: Component>(&mut self, row: usize) -> (r: Option<&mut [u8]>)
        requires
            old(self).wf(),
            old(self)@.has(T::spec_metadata().index())
                ==> row < old(self)@.lists[T::spec_metadata().index()].capacity(),
        ensures
            r is Some == old(self)@.has(T::spec_metadata().index()),
            r is None ==> final(self).wf() && final(self)@ == old(self)@,
            r matches Some(bytes) ==> bytes@ == old(self)@.value(
                T::spec_metadata().index(),
                row as nat,
            ),
            r matches Some(bytes) ==> (final(bytes)@.len() == bytes@.len() ==> final(self).wf()),
            r matches Some(bytes) ==> (final(bytes)@.len() == bytes@.len() ==> final(self)@
                == old(self)@.write(T::spec_metadata().index(), row as nat, final(bytes)@)),
    {
        let ghost before = *self;
        let id = T::metadata_static().id();
        match self.get_component_list_by_id_mut(id) {
            Some(list) => {
                proof {
                    before.lemma_view_wf();
                    before@.lists[id.0 as nat].lemma_fits_inside(row as nat);
                }
                Some(list.read_mut(row))
            },
            None => None,
        }
    }

    /// The bytes at `row` of the component of type `T`, for the caller to
    /// change in place.
    pub fn read_mut<T: Component>(&mut self, row: usize) -> (bytes: &mut [u8])
        requires
            old(self).wf(),
            old(self)@.readable(T::spec_metadata().index(), row as nat),
        ensures
            bytes@ == old(self)@.value(T::spec_metadata().index(), row as nat),
            final(bytes)@.len() == bytes@.len() ==> final(self).wf(),
            final(bytes)@.len() == bytes@.len() ==> final(self)@ == old(self)@.write(
                T::spec_metadata().index(),
                row as nat,
                final(bytes)@,
            ),
    {
        self.try_read_mut::<T>(row).unwrap()
    }
}

} // verus!
