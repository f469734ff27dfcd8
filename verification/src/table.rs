//! Columns of bytes and the tables made of them.

use crate::archetype::Archetype;
use crate::component::{Component, ComponentId, Metadata, MAX_COMPONENTS};
use crate::view::{ColumnView, TableView};
use std::collections::BTreeSet;
use vstd::prelude::*;

verus! {

proof fn lemma_slot_bounds(stride: nat, i: nat, cap: nat)
    by (nonlinear_arith)
    requires
        i < cap,
    ensures
        i * stride + stride <= cap * stride,
        (i + 1) * stride == i * stride + stride,
{
}

proof fn lemma_slots_apart(stride: nat, i: nat, j: nat)
    by (nonlinear_arith)
    requires
        i < j,
    ensures
        i * stride + stride <= j * stride,
{
}

proof fn lemma_capacity_product(stride: nat, a: nat, b: nat)
    by (nonlinear_arith)
    requires
        a <= b,
    ensures
        a * stride <= b * stride,
{
}

/// The slots of a buffer of `cap` slots of `stride` bytes.
spec fn cells_of(data: Seq<u8>, stride: nat, cap: nat) -> Seq<Seq<u8>> {
    Seq::new(cap, |i: int| data.subrange(i * stride, i * stride + stride))
}

proof fn lemma_store_in_place(
    data: Seq<u8>,
    after: Seq<u8>,
    cell: Seq<u8>,
    stride: nat,
    cap: nat,
    idx: nat,
)
    requires
        data.len() == cap * stride,
        idx < cap,
        cell.len() == stride ==> after == data.subrange(0, (idx * stride) as int) + cell
            + data.subrange((idx * stride + stride) as int, data.len() as int),
    ensures
        cell.len() == stride ==> after.len() == data.len() && cells_of(after, stride, cap)
            == cells_of(data, stride, cap).update(idx as int, cell),
{
    if cell.len() == stride {
        lemma_slot_bounds(stride, idx, cap);
        let target = cells_of(data, stride, cap).update(idx as int, cell);
        assert forall|i: int| 0 <= i < cap implies cells_of(after, stride, cap)[i] == target[i] by {
            lemma_slot_bounds(stride, i as nat, cap);
            if i == idx {
                assert(cells_of(after, stride, cap)[i] =~= cell);
            } else {
                if i < idx {
                    lemma_slots_apart(stride, i as nat, idx);
                } else {
                    lemma_slots_apart(stride, idx, i as nat);
                }
                assert(cells_of(after, stride, cap)[i] =~= cells_of(data, stride, cap)[i]);
            }
        }
        assert(cells_of(after, stride, cap) =~= target);
    }
}

/// One component type's values, densely packed in a byte buffer at a fixed stride.
///
/// The buffer grows geometrically when a write targets a slot at or beyond the
/// capacity, and never shrinks. New slots hold zeros until they are written.
pub struct Column {
    data: Vec<u8>,
    stride: usize,
    cap: usize,
}

impl View for Column {
    type V = ColumnView;

    closed spec fn view(&self) -> ColumnView {
        ColumnView {
            stride: self.stride as nat,
            cells: cells_of(self.data@, self.stride as nat, self.cap as nat),
        }
    }
}

impl Column {
    pub closed spec fn wf(&self) -> bool {
        self.data.len() == self.cap * self.stride
    }

    pub proof fn lemma_view_wf(&self)
        requires
            self.wf(),
        ensures
            self@.wf(),
            self@.stride <= usize::MAX,
    {
        assert forall|i: int| 0 <= i < self@.cells.len() implies #[trigger] self@.cells[i].len()
            == self@.stride by {
            lemma_slot_bounds(self.stride as nat, i as nat, self.cap as nat);
        }
    }

    pub fn new(item_size: usize) -> (c: Self)
        ensures
            c.wf(),
            c@ == ColumnView::empty(item_size as nat),
    {
        let c = Column { data: Vec::new(), stride: item_size, cap: 0 };
        proof {
            assert(c.cap * c.stride == 0) by (nonlinear_arith)
                requires
                    c.cap == 0,
            ;
            assert(c@.cells =~= Seq::<Seq<u8>>::empty());
        }
        c
    }

    /// Whether a write to slot `idx` can be addressed (see [`ColumnView::fits`]).
    pub fn can_hold(&self, idx: usize) -> (r: bool)
        requires
            self.wf(),
        ensures
            r == self@.fits(idx as nat),
    {
        if idx < self.cap {
            true
        } else {
            let new_cap = if idx == 0 {
                Some(1usize)
            } else {
                idx.checked_mul(2)
            };
            match new_cap {
                Some(n) => n.checked_mul(self.stride).is_some(),
                None => false,
            }
        }
    }

    fn grow(&mut self, idx: usize)
        requires
            old(self).wf(),
            old(self)@.fits(idx as nat),
        ensures
            final(self).wf(),
            final(self)@ == old(self)@.grow(idx as nat),
    {
        if idx >= self.cap {
            let new_cap = if idx == 0 {
                1
            } else {
                idx * 2
            };
            let ghost before = *self;
            proof {
                lemma_capacity_product(self.stride as nat, self.cap as nat, new_cap as nat);
            }
            self.data.resize(new_cap * self.stride, 0u8);
            self.cap = new_cap;
            proof {
                assert(self@.cells.len() == before@.grow(idx as nat).cells.len());
                assert forall|p: int| 0 <= p < before.data@.len() implies #[trigger] self.data@[p]
                    == before.data@[p] by {
                    assert(self.data@.subrange(0, before.data@.len() as int)[p] == before.data@[p]);
                }
                assert forall|i: int| 0 <= i < self@.cells.len() implies self@.cells[i]
                    == before@.grow(idx as nat).cells[i] by {
                    lemma_slot_bounds(self.stride as nat, i as nat, self.cap as nat);
                    if i < before.cap {
                        lemma_slot_bounds(self.stride as nat, i as nat, before.cap as nat);
                        assert(self@.cells[i] =~= before@.cells[i]);
                    } else {
                        lemma_capacity_product(self.stride as nat, before.cap as nat, i as nat);
                        assert(self@.cells[i] =~= crate::view::zeros(self.stride as nat));
                    }
                }
                assert(self@.cells =~= before@.grow(idx as nat).cells);
            }
        } else {
            proof {
                assert(self@.cells =~= self@.grow(idx as nat).cells);
            }
        }
    }

    /// The bytes of slot `idx`.
    #[inline(always)]
    pub fn read_bytes(&self, idx: usize) -> (bytes: &[u8])
        requires
            self.wf(),
            idx < self@.capacity(),
        ensures
            bytes@ == self@.cells[idx as int],
    {
        proof {
            lemma_slot_bounds(self.stride as nat, idx as nat, self.cap as nat);
        }
        let start = idx * self.stride;
        vstd::slice::slice_subrange(self.data.as_slice(), start, start + self.stride)
    }

    /// The bytes of slot `idx`, for the caller to change in place.
    #[inline(always)]
    pub fn read_mut(&mut self, idx: usize) -> (bytes: &mut [u8])
        requires
            old(self).wf(),
            idx < old(self)@.capacity(),
        ensures
            bytes@ == old(self)@.cells[idx as int],
            final(bytes)@.len() == bytes@.len() ==> final(self).wf(),
            final(bytes)@.len() == bytes@.len() ==> final(self)@ == old(self)@.write(
                idx as nat,
                final(bytes)@,
            ),
    {
        proof {
            lemma_slot_bounds(self.stride as nat, idx as nat, self.cap as nat);
        }
        let start = idx * self.stride;
        let stride = self.stride;
        let ghost before = *self;
        let (head, tail) = self.data.as_mut_slice().split_at_mut(start);
        let (cell, rest) = tail.split_at_mut(stride);
        proof {
            before.lemma_view_wf();
            before@.lemma_fits_inside(idx as nat);
            assert(head@ + (final(cell)@ + rest@) =~= (head@ + final(cell)@) + rest@);
            assert(head@ =~= before.data@.subrange(0, start as int));
            assert(rest@ =~= before.data@.subrange(start + stride, before.data@.len() as int));
            lemma_store_in_place(
                before.data@,
                head@ + final(cell)@ + rest@,
                final(cell)@,
                stride as nat,
                before.cap as nat,
                idx as nat,
            );
        }
        cell
    }

    /// Writes `val` into slot `idx`, growing the buffer first if the slot lies beyond it.
    /// The bytes that were in the slot are overwritten as they are.
    #[inline(always)]
    pub fn write_any(&mut self, idx: usize, val: &[u8])
        requires
            old(self).wf(),
            val@.len() == old(self)@.stride,
            old(self)@.fits(idx as nat),
        ensures
            final(self).wf(),
            final(self)@ == old(self)@.write(idx as nat, val@),
    {
        let ghost before = *self;
        self.grow(idx);
        let ghost grown = *self;
        proof {
            before.lemma_view_wf();
            before@.lemma_grow_wf(idx as nat);
            lemma_slot_bounds(self.stride as nat, idx as nat, self.cap as nat);
        }
        let start = idx * self.stride;
        let mut k: usize = 0;
        while k < self.stride
            invariant
                k <= self.stride,
                self.stride == grown.stride,
                self.cap == grown.cap,
                val@.len() == self.stride,
                start == idx * self.stride,
                start + self.stride <= self.data.len(),
                self.data@.len() == grown.data@.len(),
                forall|p: int|
                    0 <= p < self.data@.len() ==> #[trigger] self.data@[p] == if start <= p < start
                        + k {
                        val@[p - start]
                    } else {
                        grown.data@[p]
                    },
            decreases self.stride - k,
        {
            self.data.set(start + k, val[k]);
            k += 1;
        }
        proof {
            let target = before@.write(idx as nat, val@);
            assert(self@.cells.len() == target.cells.len());
            assert forall|i: int| 0 <= i < self@.cells.len() implies self@.cells[i]
                == target.cells[i] by {
                lemma_slot_bounds(self.stride as nat, i as nat, self.cap as nat);
                if i == idx {
                    assert(self@.cells[i] =~= val@);
                } else {
                    if i < idx {
                        lemma_slots_apart(self.stride as nat, i as nat, idx as nat);
                    } else {
                        lemma_slots_apart(self.stride as nat, idx as nat, i as nat);
                    }
                    assert(self@.cells[i] =~= grown@.cells[i]);
                }
            }
            assert(self@.cells =~= target.cells);
        }
    }

    /// The value of type `T` in slot `idx`.
    #[inline(always)]
    pub fn read<T: Component>(&self, idx: usize) -> (val: T)
        requires
            self.wf(),
            idx < self@.capacity(),
            self@.stride == T::spec_metadata().size(),
        ensures
            (exists|w: T| w.bytes() == self@.cells[idx as int]) ==> val.bytes()
                == self@.cells[idx as int],
    {
        proof {
            self.lemma_view_wf();
        }
        T::from_bytes(self.read_bytes(idx))
    }

    /// Writes `val` into slot `idx`, growing the buffer first if the slot lies beyond it.
    #[inline(always)]
    pub fn write<T: Component>(&mut self, idx: usize, val: T)
        requires
            old(self).wf(),
            old(self)@.stride == T::spec_metadata().size(),
            old(self)@.fits(idx as nat),
        ensures
            final(self).wf(),
            final(self)@ == old(self)@.write(idx as nat, val.bytes()),
    {
        let bytes = val.to_bytes();
        self.write_any(idx, bytes.as_slice());
    }

    /// Tears down the value of type `T` in slot `idx`: it is read and let go.
    /// The bytes stay in the slot.
    #[inline(always)]
    pub fn destroy<T: Component>(&self, idx: usize)
        requires
            self.wf(),
            idx < self@.capacity(),
            self@.stride == T::spec_metadata().size(),
    {
        let _ = self.read::<T>(idx);
    }

    /// Copies slot `src_idx` of `src` into slot `dst_idx` of `dst`, byte for byte.
    #[inline(always)]
    pub fn copy_item_from_column(src: &Column, dst: &mut Column, src_idx: usize, dst_idx: usize)
        requires
            src.wf(),
            old(dst).wf(),
            src@.stride == old(dst)@.stride,
            src_idx < src@.capacity(),
            old(dst)@.fits(dst_idx as nat),
        ensures
            final(dst).wf(),
            final(dst)@ == old(dst)@.write(dst_idx as nat, src@.cells[src_idx as int]),
    {
        proof {
            src.lemma_view_wf();
        }
        let bytes = src.read_bytes(src_idx);
        dst.write_any(dst_idx, bytes);
    }

    #[inline(always)]
    pub fn get_component_size(&self) -> (r: usize)
        ensures
            r == self@.stride,
    {
        self.stride
    }

    /// Number of slots the buffer holds.
    #[inline(always)]
    pub fn capacity(&self) -> (r: usize)
        ensures
            r == self@.capacity(),
    {
        self.cap
    }
}

/// `BTreeSet::pop_first`: takes the least element out of the set and returns
/// it; on an empty set nothing changes and `None` comes back.
#[verifier::external_body]
pub(crate) fn pop_first(set: &mut BTreeSet<usize>) -> (r: Option<usize>)
    ensures
        match r {
            Some(m) => {
                &&& old(set)@.contains(m)
                &&& forall|x: usize| old(set)@.contains(x) ==> m <= x
                &&& final(set)@ == old(set)@.remove(m)
            },
            None => old(set)@ == Set::<usize>::empty() && final(set)@ == old(set)@,
        },
{
    set.pop_first()
}

/// The storage of all entities that share one archetype: one column per component
/// type, a row counter that only grows, and the set of rows free for reuse.
pub struct Table {
    cols: Vec<Option<Column>>,
    end_index: usize,
    free_indices: BTreeSet<usize>,
}

impl View for Table {
    type V = TableView;

    closed spec fn view(&self) -> TableView {
        TableView {
            cols: Seq::new(
                MAX_COMPONENTS as nat,
                |id: int|
                    match self.cols@[id] {
                        Some(c) => Some(c@),
                        None => None,
                    },
            ),
            end: self.end_index as nat,
            free: Set::new(
                |row: nat| row <= usize::MAX && self.free_indices@.contains(row as usize),
            ),
        }
    }
}

impl Table {
    pub closed spec fn wf(&self) -> bool {
        &&& self.cols@.len() == MAX_COMPONENTS
        &&& forall|id: int|
            0 <= id < MAX_COMPONENTS && (#[trigger] self.cols@[id]) is Some
                ==> self.cols@[id].unwrap().wf()
        &&& forall|row: usize| self.free_indices@.contains(row) ==> row < self.end_index
    }

    pub proof fn lemma_view_wf(&self)
        requires
            self.wf(),
        ensures
            self@.wf(),
            self@.end <= usize::MAX,
    {
        assert forall|id: int|
            0 <= id < MAX_COMPONENTS && (#[trigger] self@.cols[id]) is Some
                implies self@.cols[id].unwrap().wf() by {
            self.cols@[id].unwrap().lemma_view_wf();
        }
    }

    pub fn new() -> (t: Self)
        ensures
            t.wf(),
            t@ == TableView::empty(),
    {
        let mut cols: Vec<Option<Column>> = Vec::new();
        let mut id: usize = 0;
        while id < MAX_COMPONENTS
            invariant
                id <= MAX_COMPONENTS,
                cols@.len() == id,
                forall|j: int| 0 <= j < id ==> (#[trigger] cols@[j]) is None,
            decreases MAX_COMPONENTS - id,
        {
            cols.push(None);
            id += 1;
        }
        let t = Table { cols, end_index: 0, free_indices: BTreeSet::new() };
        proof {
            assert(t@.cols =~= TableView::empty().cols);
            assert(t@.free =~= TableView::empty().free);
        }
        t
    }

    /// The row counter: an upper bound on the rows in use. Rows below it may be free.
    pub fn len(&self) -> (r: usize)
        ensures
            r == self@.end,
    {
        self.end_index
    }

    /// Whether the next reservation has a free row to reuse.
    pub fn has_free_row(&self) -> (r: bool)
        ensures
            r == !self@.free.is_empty(),
    {
        let r = !self.free_indices.is_empty();
        proof {
            if !self.free_indices@.is_empty() {
                let x = choose|x: usize| self.free_indices@.contains(x);
                assert(self@.free.contains(x as nat));
            }
            if !self@.free.is_empty() {
                let x = choose|x: nat| self@.free.contains(x);
                assert(self.free_indices@.contains(x as usize));
            }
        }
        r
    }

    /// Hands out a row: the least free row, or else the row counter, which then advances.
    pub fn reserve_index(&mut self) -> (row: usize)
        requires
            old(self).wf(),
            old(self)@.can_reserve(),
        ensures
            final(self).wf(),
            row == old(self)@.next_row(),
            final(self)@ == old(self)@.reserve(),
    {
        let ghost before = *self;
        if let Some(index) = pop_first(&mut self.free_indices) {
            proof {
                assert(before@.free.contains(index as nat));
                assert(crate::view::is_least(before@.free, index as nat)) by {
                    assert forall|x: nat| before@.free.contains(x) implies index <= x by {
                        assert(before.free_indices@.contains(x as usize));
                    }
                }
                crate::view::lemma_least_unique(before@.free, index as nat);
                assert(self@.free =~= before@.free.remove(index as nat));
                assert(self@.cols =~= before@.cols);
            }
            index
        } else {
            proof {
                assert(before@.free =~= Set::<nat>::empty());
                assert(self@.free =~= before@.free);
                assert(self@.cols =~= before@.cols);
            }
            let index = self.end_index;
            self.end_index += 1;
            index
        }
    }

    /// Hands `index` back for reuse. The caller has marked the row dead before.
    pub fn free_index(&mut self, index: usize)
        requires
            old(self).wf(),
            index < old(self)@.end,
        ensures
            final(self).wf(),
            final(self)@ == old(self)@.release(index as nat),
    {
        let ghost before = *self;
        self.free_indices.insert(index);
        proof {
            assert(self@.free =~= before@.free.insert(index as nat));
            assert(self@.cols =~= before@.cols);
        }
    }

    /// Whether the table has a column for component number `id`.
    pub fn has_component_by_id(&self, id: ComponentId) -> (r: bool)
        requires
            self.wf(),
        ensures
            r == self@.has(id.0 as nat),
    {
        (id.0 as usize) < MAX_COMPONENTS && self.cols[id.0 as usize].is_some()
    }

    /// Gives the table a fresh, empty column of stride `size` for component
    /// number `id`, in place of the one it may have had. A byte buffer has no
    /// use for the alignment.
    pub fn add_column_by_id(&mut self, id: ComponentId, size: usize, align: usize)
        requires
            old(self).wf(),
            id.0 < MAX_COMPONENTS,
        ensures
            final(self).wf(),
            final(self)@ == old(self)@.add_column(id.0 as nat, size as nat),
    {
        let ghost before = *self;
        self.cols.set(id.0 as usize, Some(Column::new(size)));
        proof {
            assert(self@.cols =~= before@.add_column(id.0 as nat, size as nat).cols);
            assert(self@.free =~= before@.free);
        }
    }

    pub fn get_column_by_id(&self, id: ComponentId) -> (r: Option<&Column>)
        requires
            self.wf(),
            id.0 < MAX_COMPONENTS,
        ensures
            r is Some == self@.has(id.0 as nat),
            r matches Some(c) ==> c.wf() && c@ == self@.col(id.0 as nat),
    {
        self.cols[id.0 as usize].as_ref()
    }

    /// The column of component number `id`, for the caller to change, if the
    /// table has one.
    pub fn get_column_by_id_mut(&mut self, id: ComponentId) -> (r: Option<&mut Column>)
        requires
            old(self).wf(),
            id.0 < MAX_COMPONENTS,
        ensures
            r is Some == old(self)@.has(id.0 as nat),
            r is None ==> final(self).wf() && final(self)@ == old(self)@,
            r matches Some(c) ==> c.wf() && c@ == old(self)@.col(id.0 as nat),
            r matches Some(c) ==> (final(c).wf() ==> final(self).wf()),
            r matches Some(c) ==> (final(c).wf() ==> final(self)@ == (TableView {
                cols: old(self)@.cols.update(id.0 as int, Some(final(c)@)),
                ..old(self)@
            })),
    {
        let ghost before = *self;
        let i = id.0 as usize;
        if self.cols[i].is_none() {
            return None;
        }
        let col = self.cols[i].as_mut().unwrap();
        proof {
            assert forall|after: Table|
                #![trigger after.wf()]
                #![trigger after@]
                after.cols@.len() == MAX_COMPONENTS && after.cols@ == before.cols@.update(
                    i as int,
                    after.cols@[i as int],
                ) && after.end_index == before.end_index && after.free_indices
                    == before.free_indices && after.cols@[i as int] is Some
                    && after.cols@[i as int].unwrap().wf() implies after.wf() && after@
                == (TableView {
                cols: before@.cols.update(id.0 as int, Some(after.cols@[i as int].unwrap()@)),
                ..before@
            }) by {
                assert(after@.cols =~= before@.cols.update(
                    id.0 as int,
                    Some(after.cols@[i as int].unwrap()@),
                ));
                assert(after@.free =~= before@.free);
            }
        }
        Some(col)
    }

    /// Writes `val`, a value of the component type that `metadata` describes, to `row`.
    /// The column is made first if the table has none for that type.
    pub fn write_any(&mut self, metadata: Metadata, row: usize, val: &[u8])
        requires
            old(self).wf(),
            val@.len() == metadata.size(),
            old(self)@.accepts(metadata.index(), metadata.size() as nat, row as nat),
        ensures
            final(self).wf(),
            final(self)@ == old(self)@.write(metadata.index(), row as nat, val@),
    {
        let ghost before = *self;
        let i = metadata.id().0 as usize;
        let slot = self.cols[i].take();
        let mut col = match slot {
            Some(c) => c,
            None => Column::new(metadata.size()),
        };
        col.write_any(row, val);
        self.cols.set(i, Some(col));
        proof {
            assert(self@.cols =~= before@.write(metadata.index(), row as nat, val@).cols);
            assert(self@.free =~= before@.free);
        }
    }

    /// The bytes at `row` of component number `id`, if the table has that column.
    pub fn try_read_by_id(&self, id: ComponentId, row: usize) -> (r: Option<&[u8]>)
        requires
            self.wf(),
            id.0 < MAX_COMPONENTS,
            self@.has(id.0 as nat) ==> row < self@.col(id.0 as nat).capacity(),
        ensures
            r is Some == self@.has(id.0 as nat),
            r matches Some(bytes) ==> bytes@ == self@.value(id.0 as nat, row as nat),
    {
        match self.cols[id.0 as usize].as_ref() {
            Some(col) => Some(col.read_bytes(row)),
            None => None,
        }
    }

    /// The bytes at `row` of component number `id`, for the caller to change in
    /// place, if the table has that column.
    pub fn try_read_mut_by_id(&mut self, id: ComponentId, row: usize) -> (r: Option<&mut [u8]>)
        requires
            old(self).wf(),
            id.0 < MAX_COMPONENTS,
            old(self)@.has(id.0 as nat) ==> row < old(self)@.col(id.0 as nat).capacity(),
        ensures
            r is Some == old(self)@.has(id.0 as nat),
            r is None ==> final(self).wf() && final(self)@ == old(self)@,
            r matches Some(bytes) ==> bytes@ == old(self)@.value(id.0 as nat, row as nat),
            r matches Some(bytes) ==> (final(bytes)@.len() == bytes@.len() ==> final(self).wf()),
            r matches Some(bytes) ==> (final(bytes)@.len() == bytes@.len() ==> final(self)@
                == old(self)@.write(id.0 as nat, row as nat, final(bytes)@)),
    {
        let ghost before = *self;
        let i = id.0 as usize;
        if self.cols[i].is_none() {
            return None;
        }
        let col = self.cols[i].as_mut().unwrap();
        let bytes = col.read_mut(row);
        proof {
            before.lemma_view_wf();
            before@.col(i as nat).lemma_fits_inside(row as nat);
            assert forall|after: Table, cell: Seq<u8>|
                #![trigger after.wf(), cell.len()]
                #![trigger after@, before@.write(id.0 as nat, row as nat, cell)]
                after.cols@.len() == MAX_COMPONENTS && after.cols@ == before.cols@.update(
                    i as int,
                    after.cols@[i as int],
                )
                    && after.end_index == before.end_index && after.free_indices
                    == before.free_indices && after.cols@[i as int] is Some
                    && after.cols@[i as int].unwrap().wf() && after.cols@[i as int].unwrap()@
                    == before@.col(i as nat).write(row as nat, cell) implies after.wf() && after@
                == before@.write(id.0 as nat, row as nat, cell) by {
                assert(after@.cols =~= before@.write(i as nat, row as nat, cell).cols);
                assert(after@.free =~= before@.free);
            }
        }
        Some(bytes)
    }

    /// The row that the next reservation hands out. The table is as before.
    pub fn next_index(&mut self) -> (row: usize)
        requires
            old(self).wf(),
        ensures
            final(self).wf(),
            final(self)@ == old(self)@,
            row == old(self)@.next_row(),
    {
        let ghost before = *self;
        match pop_first(&mut self.free_indices) {
            Some(index) => {
                self.free_indices.insert(index);
                proof {
                    assert(before@.free.contains(index as nat));
                    assert(crate::view::is_least(before@.free, index as nat)) by {
                        assert forall|x: nat| before@.free.contains(x) implies index <= x by {
                            assert(before.free_indices@.contains(x as usize));
                        }
                    }
                    crate::view::lemma_least_unique(before@.free, index as nat);
                    assert(self.free_indices@ =~= before.free_indices@);
                    assert(self@.free =~= before@.free);
                    assert(self@.cols =~= before@.cols);
                }
                index
            },
            None => {
                proof {
                    assert(before@.free =~= Set::<nat>::empty());
                    assert(self@.free =~= before@.free);
                    assert(self@.cols =~= before@.cols);
                }
                self.end_index
            },
        }
    }

    /// Whether a reservation can be counted.
    pub fn can_reserve(&self) -> (r: bool)
        requires
            self.wf(),
        ensures
            r == self@.can_reserve(),
    {
        self.has_free_row() || self.end_index < usize::MAX
    }

    /// Whether a value of the component type that `metadata` describes can be
    /// written to `row`.
    pub fn can_accept(&self, metadata: Metadata, row: usize) -> (r: bool)
        requires
            self.wf(),
        ensures
            r == self@.accepts(metadata.index(), metadata.size() as nat, row as nat),
    {
        let i = metadata.id().0 as usize;
        if i >= MAX_COMPONENTS {
            return false;
        }
        match self.cols[i].as_ref() {
            Some(col) => col.get_component_size() == metadata.size() && col.can_hold(row),
            None => {
                let col = Column::new(metadata.size());
                col.can_hold(row)
            },
        }
    }

    /// A table without rows that has, for each member of `archetype` that `src`
    /// has a column for, an empty column of the same stride.
    pub fn with_columns_like(src: &Table, archetype: Archetype) -> (t: Table)
        requires
            src.wf(),
        ensures
            t.wf(),
            t@ == TableView::like(src@, archetype),
    {
        let mut t = Table::new();
        let mut id: usize = 0;
        while id < MAX_COMPONENTS
            invariant
                id <= MAX_COMPONENTS,
                src.wf(),
                t.wf(),
                t@.end == 0,
                t@.free == Set::<nat>::empty(),
                t@.cols.len() == MAX_COMPONENTS,
                forall|j: int|
                    0 <= j < MAX_COMPONENTS
                        ==> #[trigger] t@.cols[j] == if j < id && src@.has(j as nat)
                        && archetype.has(j as nat) {
                        Some(ColumnView::empty(src@.col(j as nat).stride))
                    } else {
                        None
                    },
            decreases MAX_COMPONENTS - id,
        {
            if let Some(col) = src.get_column_by_id(ComponentId(id as u32)) {
                if archetype.contains_id(id) {
                    t.add_column_by_id(ComponentId(id as u32), col.get_component_size(), 1);
                }
            }
            id += 1;
        }
        proof {
            assert(t@.cols =~= TableView::like(src@, archetype).cols);
        }
        t
    }

    /// Whether `row` can take, for each member of `ids`, a value out of the column
    /// that `src` has for it.
    pub fn can_receive(&self, src: &Table, ids: Archetype, row: usize) -> (r: bool)
        requires
            self.wf(),
            src.wf(),
            forall|id: nat| ids.has(id) ==> #[trigger] src@.has(id),
        ensures
            r == self@.can_receive(src@, ids, row as nat),
    {
        let mut id: usize = 0;
        while id < MAX_COMPONENTS
            invariant
                id <= MAX_COMPONENTS,
                self.wf(),
                src.wf(),
                forall|j: nat| ids.has(j) ==> #[trigger] src@.has(j),
                forall|j: nat|
                    #![trigger ids.has(j)]
                    j < id && ids.has(j) ==> {
                        &&& self@.has(j)
                        &&& self@.col(j).stride == src@.col(j).stride
                        &&& self@.col(j).fits(row as nat)
                    },
            decreases MAX_COMPONENTS - id,
        {
            if ids.contains_id(id) {
                assert(src@.has(id as nat));
                let from = src.get_column_by_id(ComponentId(id as u32)).unwrap();
                let ok = match self.get_column_by_id(ComponentId(id as u32)) {
                    Some(to) => to.get_component_size() == from.get_component_size() && to.can_hold(
                        row,
                    ),
                    None => false,
                };
                if !ok {
                    assert(ids.has(id as nat));
                    return false;
                }
            }
            id += 1;
        }
        true
    }

    /// Takes into `row`, for each member of `ids`, the value at `src_row` of the
    /// column that `src` has for it, byte for byte.
    pub fn receive(&mut self, src: &Table, ids: Archetype, src_row: usize, row: usize)
        requires
            old(self).wf(),
            src.wf(),
            old(self)@.can_receive(src@, ids, row as nat),
            forall|id: nat| ids.has(id) ==> #[trigger] src@.readable(id, src_row as nat),
        ensures
            final(self).wf(),
            final(self)@ == old(self)@.receive(src@, ids, src_row as nat, row as nat),
    {
        let ghost before = *self;
        let mut id: usize = 0;
        while id < MAX_COMPONENTS
            invariant
                id <= MAX_COMPONENTS,
                self.wf(),
                src.wf(),
                before.wf(),
                before@.can_receive(src@, ids, row as nat),
                forall|j: nat| ids.has(j) ==> #[trigger] src@.readable(j, src_row as nat),
                self@.end == before@.end,
                self@.free == before@.free,
                self@.cols.len() == MAX_COMPONENTS,
                forall|j: int|
                    0 <= j < MAX_COMPONENTS
                        ==> #[trigger] self@.cols[j] == if j < id && ids.has(j as nat) {
                        Some(
                            before@.col(j as nat).write(
                                row as nat,
                                src@.value(j as nat, src_row as nat),
                            ),
                        )
                    } else {
                        before@.cols[j]
                    },
            decreases MAX_COMPONENTS - id,
        {
            if ids.contains_id(id) {
                proof {
                    assert(ids.has(id as nat));
                    assert(src@.readable(id as nat, src_row as nat));
                    assert(self@.cols[id as int] == before@.cols[id as int]);
                }
                let ghost mid = *self;
                let from = src.get_column_by_id(ComponentId(id as u32)).unwrap();
                let mut to = self.cols[id].take().unwrap();
                Column::copy_item_from_column(from, &mut to, src_row, row);
                self.cols.set(id, Some(to));
                proof {
                    assert(self@.free =~= mid@.free);
                    assert forall|j: int|
                        0 <= j < MAX_COMPONENTS implies #[trigger] self@.cols[j] == if j < id
                        + 1 && ids.has(j as nat) {
                        Some(
                            before@.col(j as nat).write(
                                row as nat,
                                src@.value(j as nat, src_row as nat),
                            ),
                        )
                    } else {
                        before@.cols[j]
                    } by {
                        if j != id {
                            assert(self@.cols[j] == mid@.cols[j]);
                        }
                    }
                }
            }
            id += 1;
        }
        proof {
            assert(self@.cols =~= before@.receive(
                src@,
                ids,
                src_row as nat,
                row as nat,
            ).cols);
        }
    }

    /// Whether the table has a column for the components of type `T`.
    pub fn has_component<T: Component>(&self) -> (r: bool)
        requires
            self.wf(),
        ensures
            r == self@.has(T::spec_metadata().index()),
    {
        self.has_component_by_id(T::metadata_static().id())
    }

    /// The column of the components of type `T`, if the table has one.
    pub fn get_column<T: Component>(&self) -> (r: Option<&Column>)
        requires
            self.wf(),
            T::spec_metadata().index() < MAX_COMPONENTS,
        ensures
            r is Some == self@.has(T::spec_metadata().index()),
            r matches Some(c) ==> c.wf() && c@ == self@.col(T::spec_metadata().index()),
    {
        self.get_column_by_id(T::metadata_static().id())
    }

    /// Writes `val` to `row`. The column is made first if the table has none
    /// for the components of type `T`.
    pub fn write<T: Component>(&mut self, row: usize, val: T)
        requires
            old(self).wf(),
            old(self)@.accepts(
                T::spec_metadata().index(),
                T::spec_metadata().size() as nat,
                row as nat,
            ),
        ensures
            final(self).wf(),
            final(self)@ == old(self)@.write(T::spec_metadata().index(), row as nat, val.bytes()),
    {
        let bytes = val.to_bytes();
        self.write_any(T::metadata_static(), row, bytes.as_slice());
    }

    /// The value of type `T` at `row`, if the table has a column of that
    /// type's size for it.
    pub fn try_read<T: Component>(&self, row: usize) -> (r: Option<T>)
        requires
            self.wf(),
            T::spec_metadata().index() < MAX_COMPONENTS,
            self@.has(T::spec_metadata().index()) ==> row < self@.col(
                T::spec_metadata().index(),
            ).capacity(),
        ensures
            r is Some == (self@.has(T::spec_metadata().index()) && self@.col(
                T::spec_metadata().index(),
            ).stride == T::spec_metadata().size()),
            r matches Some(val) ==> ((exists|w: T|
                w.bytes() == self@.value(T::spec_metadata().index(), row as nat)) ==> val.bytes()
                == self@.value(T::spec_metadata().index(), row as nat)),
    {
        let metadata = T::metadata_static();
        match self.get_column_by_id(metadata.id()) {
            Some(col) => {
                if col.get_component_size() == metadata.size() {
                    Some(col.read::<T>(row))
                } else {
                    None
                }
            },
            None => None,
        }
    }

    /// The bytes at `row` of the component of type `T`, for the caller to
    /// change in place, if the table has that column.
    pub fn try_read_mut<T: Component>(&mut self, row: usize) -> (r: Option<&mut [u8]>)
        requires
            old(self).wf(),
            T::spec_metadata().index() < MAX_COMPONENTS,
            old(self)@.has(T::spec_metadata().index()) ==> row < old(self)@.col(
                T::spec_metadata().index(),
            ).capacity(),
        ensures
            r is Some == old(self)@.has(T::spec_metadata().index()),
            r is None ==> final(self).wf() && final(self)@ == old(self)@,
            r matches Some(bytes) ==> bytes@ == old(self)@.value(
                T::spec_metadata().index(),
                row as nat,
            ),
            r matches Some(bytes) ==> (final(bytes)@.len() == bytes@.len() ==> final(self).wf()),
            r matches Some(bytes) ==> (final(bytes)@.len() == bytes@.len() ==> final(self)@
                == old(self)@.write(T::spec_metadata().index(), row as nat, final(bytes)@)),
    {
        self.try_read_mut_by_id(T::metadata_static().id(), row)
    }

    /// The bytes at `row` of the component of type `T`, for the caller to
    /// change in place.
    pub fn read_mut<T: Component>(&mut self, row: usize) -> (bytes: &mut [u8])
        requires
            old(self).wf(),
            old(self)@.readable(T::spec_metadata().index(), row as nat),
        ensures
            bytes@ == old(self)@.value(T::spec_metadata().index(), row as nat),
            final(bytes)@.len() == bytes@.len() ==> final(self).wf(),
            final(bytes)@.len() == bytes@.len() ==> final(self)@ == old(self)@.write(
                T::spec_metadata().index(),
                row as nat,
                final(bytes)@,
            ),
    {
        self.try_read_mut_by_id(T::metadata_static().id(), row).unwrap()
    }

    /// Tears down the value of type `T` at `row`, if the table has a column of
    /// that type's size for it: the value is read and let go. The bytes stay
    /// in the row.
    pub fn destroy<T: Component>(&self, row: usize)
        requires
            self.wf(),
            T::spec_metadata().index() < MAX_COMPONENTS,
            self@.has(T::spec_metadata().index()) ==> row < self@.col(
                T::spec_metadata().index(),
            ).capacity(),
    {
        let _ = self.try_read::<T>(row);
    }
}

} // verus!
