//! Columns, tables and component values as mathematics.

use crate::archetype::Archetype;
use crate::component::MAX_COMPONENTS;
use crate::entity::Entity;
use vstd::prelude::*;

verus! {

/// A component value as mathematics: its component number and its bytes.
pub struct ValueView {
    pub id: nat,
    pub bytes: Seq<u8>,
}

impl ValueView {
    /// Whether the value can be attached to an entity: its number is one of a
    /// component type other than `Entity`.
    pub open spec fn valid(self) -> bool {
        0 < self.id < MAX_COMPONENTS
    }
}

/// Whether every value of the bundle can be attached to an entity.
pub open spec fn all_valid(values: Seq<ValueView>) -> bool {
    forall|i: int| 0 <= i < values.len() ==> (#[trigger] values[i]).valid()
}

/// Whether some value of the bundle has component number `id`.
pub open spec fn mentions(values: Seq<ValueView>, id: nat) -> bool {
    exists|i: int| 0 <= i < values.len() && (#[trigger] values[i]).id == id
}

/// The archetype `a` and the component numbers of a bundle.
pub open spec fn with_ids(a: Archetype, values: Seq<ValueView>) -> Archetype
    decreases values.len(),
{
    if values.len() == 0 {
        a
    } else {
        with_ids(a, values.drop_last()).with(values.last().id)
    }
}

/// The component numbers of a bundle.
pub open spec fn ids_of(values: Seq<ValueView>) -> Archetype {
    with_ids(Archetype::empty(), values)
}

/// The archetype of an entity spawned with a bundle: the bundle's components and `Entity`.
pub open spec fn bundle_archetype(values: Seq<ValueView>) -> Archetype {
    ids_of(values).with(0)
}

/// The component numbers of a bundle, one value more at a time.
pub proof fn lemma_with_ids_prefix(a: Archetype, values: Seq<ValueView>, k: int)
    requires
        0 <= k <= values.len(),
    ensures
        k < values.len() ==> with_ids(a, values.take(k + 1)) == with_ids(a, values.take(k)).with(
            values[k].id,
        ),
        with_ids(a, values.take(0)) == a,
        with_ids(a, values.take(values.len() as int)) == with_ids(a, values),
{
    if k < values.len() {
        assert(values.take(k + 1).drop_last() =~= values.take(k));
        assert(values.take(k + 1).last() == values[k]);
    }
    assert(values.take(values.len() as int) =~= values);
}

/// The component numbers of two bundles, one after the other.
pub proof fn lemma_with_ids_concat(a: Archetype, x: Seq<ValueView>, y: Seq<ValueView>)
    ensures
        with_ids(a, x + y) == with_ids(with_ids(a, x), y),
        all_valid(x + y) <==> (all_valid(x) && all_valid(y)),
    decreases y.len(),
{
    if y.len() == 0 {
        assert(x + y =~= x);
    } else {
        lemma_with_ids_concat(a, x, y.drop_last());
        assert((x + y).drop_last() =~= x + y.drop_last());
        assert((x + y).last() == y.last());
    }
    if all_valid(x + y) {
        assert forall|i: int| 0 <= i < x.len() implies (#[trigger] x[i]).valid() by {
            assert((x + y)[i].valid());
        }
        assert forall|i: int| 0 <= i < y.len() implies (#[trigger] y[i]).valid() by {
            assert((x + y)[x.len() + i].valid());
        }
    }
}

/// The members of the archetype with the component numbers of a bundle.
pub proof fn lemma_with_ids_members(a: Archetype, values: Seq<ValueView>)
    requires
        all_valid(values),
    ensures
        forall|id: nat|
            #[trigger] with_ids(a, values).has(id) <==> (a.has(id) || mentions(values, id)),
    decreases values.len(),
{
    if values.len() > 0 {
        let front = values.drop_last();
        lemma_with_ids_members(a, front);
        assert(values[values.len() - 1].valid());
        with_ids(a, front).lemma_members(values.last().id);
        assert forall|id: nat| #[trigger] with_ids(a, values).has(id) <==> (a.has(id) || mentions(
            values,
            id,
        )) by {
            if mentions(values, id) {
                let i = choose|i: int| 0 <= i < values.len() && (#[trigger] values[i]).id == id;
                if i < values.len() - 1 {
                    assert(front[i].id == id);
                }
            }
            if mentions(front, id) {
                let i = choose|i: int| 0 <= i < front.len() && (#[trigger] front[i]).id == id;
                assert(values[i].id == id);
            }
            if id == values.last().id {
                assert(values[values.len() - 1].id == id);
            }
        }
    }
}

/// The members of a bundle's archetype are `Entity` and the components it mentions.
pub proof fn lemma_bundle_archetype(values: Seq<ValueView>)
    requires
        all_valid(values),
    ensures
        forall|id: nat| #[trigger] ids_of(values).has(id) <==> mentions(values, id),
        forall|id: nat| #[trigger]
            bundle_archetype(values).has(id) <==> (id == 0 || mentions(values, id)),
{
    lemma_with_ids_members(Archetype::empty(), values);
    Archetype::empty().lemma_members(0);
    ids_of(values).lemma_members(0);
}

/// A column as mathematics: a stride and one byte string of that length per slot.
pub struct ColumnView {
    pub stride: nat,
    pub cells: Seq<Seq<u8>>,
}

/// A byte string of `n` zeros, the content of a slot that was never written.
pub open spec fn zeros(n: nat) -> Seq<u8> {
    Seq::new(n, |i: int| 0u8)
}

impl ColumnView {
    /// Every slot has the stride's length, and the buffer can be addressed.
    pub open spec fn wf(self) -> bool {
        &&& forall|i: int|
            0 <= i < self.cells.len() ==> #[trigger] self.cells[i].len() == self.stride
        &&& self.cells.len() <= usize::MAX
        &&& self.cells.len() * self.stride <= usize::MAX
    }

    /// Number of slots the column holds.
    pub open spec fn capacity(self) -> nat {
        self.cells.len()
    }

    pub open spec fn empty(stride: nat) -> ColumnView {
        ColumnView { stride, cells: Seq::empty() }
    }

    /// Capacity after a write to slot `idx`: unchanged while `idx` is inside it,
    /// else twice `idx`, and 1 for `idx == 0`.
    pub open spec fn grown_capacity(self, idx: nat) -> nat {
        if idx < self.capacity() {
            self.capacity()
        } else if idx == 0 {
            1
        } else {
            2 * idx
        }
    }

    /// Whether the buffer needed for a write to slot `idx` can be addressed.
    pub open spec fn fits(self, idx: nat) -> bool {
        &&& self.grown_capacity(idx) <= usize::MAX
        &&& self.grown_capacity(idx) * self.stride <= usize::MAX
    }

    /// The column grown to hold slot `idx`; new slots hold zeros.
    pub open spec fn grow(self, idx: nat) -> ColumnView {
        ColumnView {
            stride: self.stride,
            cells: Seq::new(
                self.grown_capacity(idx),
                |i: int|
                    if i < self.cells.len() {
                        self.cells[i]
                    } else {
                        zeros(self.stride)
                    },
            ),
        }
    }

    /// The column after `bytes` was written to slot `idx`.
    pub open spec fn write(self, idx: nat, bytes: Seq<u8>) -> ColumnView {
        ColumnView { stride: self.stride, cells: self.grow(idx).cells.update(idx as int, bytes) }
    }

    pub proof fn lemma_grow_wf(self, idx: nat)
        requires
            self.wf(),
            self.fits(idx),
        ensures
            self.grow(idx).wf(),
            self.grow(idx).capacity() > idx,
            self.grow(idx).capacity() >= self.capacity(),
    {
    }

    pub proof fn lemma_write_wf(self, idx: nat, bytes: Seq<u8>)
        requires
            self.wf(),
            self.fits(idx),
            bytes.len() == self.stride,
        ensures
            self.write(idx, bytes).wf(),
            self.write(idx, bytes).capacity() > idx,
            self.write(idx, bytes).capacity() >= self.capacity(),
            self.write(idx, bytes).cells[idx as int] == bytes,
            forall|i: int|
                0 <= i < self.capacity() && i != idx ==> #[trigger] self.write(idx, bytes).cells[i]
                    == self.cells[i],
    {
    }

    /// A slot inside the capacity can be written without growing.
    pub proof fn lemma_fits_inside(self, idx: nat)
        requires
            self.wf(),
            idx < self.capacity(),
        ensures
            self.fits(idx),
            self.grow(idx) == self,
    {
        assert(self.grow(idx).cells =~= self.cells);
    }
}

/// Whether `m` is a member of `s` that no other member is below.
pub open spec fn is_least(s: Set<nat>, m: nat) -> bool {
    s.contains(m) && forall|x: nat| s.contains(x) ==> m <= x
}

/// The least member of a set of naturals that has one.
pub open spec fn least(s: Set<nat>) -> nat {
    choose|m: nat| is_least(s, m)
}

/// Any set with a member has a least member, and `least` names it.
pub proof fn lemma_least(s: Set<nat>, x: nat)
    requires
        s.contains(x),
    ensures
        is_least(s, least(s)),
        least(s) <= x,
    decreases x,
{
    if forall|y: nat| s.contains(y) ==> x <= y {
        assert(is_least(s, x));
    } else {
        let y = choose|y: nat| s.contains(y) && !(x <= y);
        lemma_least(s, y);
    }
}

/// A least member is the least member.
pub proof fn lemma_least_unique(s: Set<nat>, m: nat)
    requires
        is_least(s, m),
    ensures
        least(s) == m,
{
    lemma_least(s, m);
}

/// A table as mathematics: one optional column per component number, the row
/// counter, and the rows below it that are free for reuse.
pub struct TableView {
    pub cols: Seq<Option<ColumnView>>,
    pub end: nat,
    pub free: Set<nat>,
}

impl TableView {
    pub open spec fn wf(self) -> bool {
        &&& self.cols.len() == MAX_COMPONENTS
        &&& forall|id: int|
            0 <= id < MAX_COMPONENTS && (#[trigger] self.cols[id]) is Some
                ==> self.cols[id].unwrap().wf()
        &&& forall|row: nat| self.free.contains(row) ==> row < self.end
    }

    /// The table without columns and rows.
    pub open spec fn empty() -> TableView {
        TableView {
            cols: Seq::new(MAX_COMPONENTS as nat, |id: int| None),
            end: 0,
            free: Set::empty(),
        }
    }

    /// Whether the table has a column for component number `id`.
    pub open spec fn has(self, id: nat) -> bool {
        id < MAX_COMPONENTS && self.cols[id as int] is Some
    }

    /// The column of component number `id`.
    pub open spec fn col(self, id: nat) -> ColumnView {
        self.cols[id as int].unwrap()
    }

    /// The row that the next reservation hands out: the least free row, or the
    /// row counter when no row is free.
    pub open spec fn next_row(self) -> nat {
        if self.free.is_empty() {
            self.end
        } else {
            least(self.free)
        }
    }

    /// Whether a reservation can be counted.
    pub open spec fn can_reserve(self) -> bool {
        !self.free.is_empty() || self.end < usize::MAX
    }

    /// The table after a reservation of `self.next_row()`.
    pub open spec fn reserve(self) -> TableView {
        if self.free.is_empty() {
            TableView { end: self.end + 1, ..self }
        } else {
            TableView { free: self.free.remove(least(self.free)), ..self }
        }
    }

    /// The table after `row` was handed back.
    pub open spec fn release(self, row: nat) -> TableView {
        TableView { free: self.free.insert(row), ..self }
    }

    /// The table with a fresh, empty column of stride `size` for component number `id`.
    pub open spec fn add_column(self, id: nat, size: nat) -> TableView {
        TableView { cols: self.cols.update(id as int, Some(ColumnView::empty(size))), ..self }
    }

    /// The column that a write of a value of `size` bytes for component number `id` goes to.
    pub open spec fn col_or_new(self, id: nat, size: nat) -> ColumnView {
        if self.has(id) {
            self.col(id)
        } else {
            ColumnView::empty(size)
        }
    }

    /// Whether a value of `size` bytes can be written to `row` of component number `id`:
    /// the stride agrees and the buffer can be addressed.
    pub open spec fn accepts(self, id: nat, size: nat, row: nat) -> bool {
        &&& id < MAX_COMPONENTS
        &&& self.col_or_new(id, size).stride == size
        &&& self.col_or_new(id, size).fits(row)
    }

    /// The table after `bytes` was written to `row` of component number `id`.
    pub open spec fn write(self, id: nat, row: nat, bytes: Seq<u8>) -> TableView {
        TableView {
            cols: self.cols.update(
                id as int,
                Some(self.col_or_new(id, bytes.len()).write(row, bytes)),
            ),
            ..self
        }
    }

    /// The bytes at `row` of component number `id`.
    pub open spec fn value(self, id: nat, row: nat) -> Seq<u8> {
        self.col(id).cells[row as int]
    }

    /// Whether `row` of component number `id` can be read.
    pub open spec fn readable(self, id: nat, row: nat) -> bool {
        self.has(id) && row < self.col(id).capacity()
    }

    /// The entity number held in the `Entity` column at `row`; 0 marks a dead row.
    pub open spec fn entity_at(self, row: nat) -> nat {
        vstd::bytes::spec_u32_from_le_bytes(self.value(0, row)) as nat
    }

    /// The entity numbers in the rows below `n`, in the order of the rows. A
    /// dead row gives 0, or gives nothing where only live rows are asked for.
    pub open spec fn rows_below(self, n: nat, live_only: bool) -> Seq<nat>
        decreases n,
    {
        if n == 0 {
            Seq::empty()
        } else {
            let front = self.rows_below((n - 1) as nat, live_only);
            let e = self.entity_at((n - 1) as nat);
            if live_only && e == 0 {
                front
            } else {
                front.push(e)
            }
        }
    }

    /// The entity numbers in the rows of the table, in the order of the rows.
    pub open spec fn rows(self, live_only: bool) -> Seq<nat> {
        self.rows_below(self.end, live_only)
    }

    /// The table after `row` was marked dead and handed back.
    pub open spec fn kill(self, row: nat) -> TableView {
        self.write(0, row, Entity::tombstone()).release(row)
    }

    /// The table after the values of a bundle were written to `row`, one after the other.
    pub open spec fn write_all(self, row: nat, values: Seq<ValueView>) -> TableView
        decreases values.len(),
    {
        if values.len() == 0 {
            self
        } else {
            self.write_all(row, values.drop_last()).write(
                values.last().id,
                row,
                values.last().bytes,
            )
        }
    }

    /// Whether each value of a bundle can be written to `row` in its turn.
    pub open spec fn accepts_all(self, row: nat, values: Seq<ValueView>) -> bool
        decreases values.len(),
    {
        if values.len() == 0 {
            true
        } else {
            &&& self.accepts_all(row, values.drop_last())
            &&& self.write_all(row, values.drop_last()).accepts(
                values.last().id,
                values.last().bytes.len(),
                row,
            )
        }
    }

    /// A table without rows that has, for each member of `ids` that `src` has a
    /// column for, an empty column of the same stride.
    pub open spec fn like(src: TableView, ids: Archetype) -> TableView {
        TableView {
            cols: Seq::new(
                MAX_COMPONENTS as nat,
                |id: int|
                    if src.has(id as nat) && ids.has(id as nat) {
                        Some(ColumnView::empty(src.col(id as nat).stride))
                    } else {
                        None
                    },
            ),
            end: 0,
            free: Set::empty(),
        }
    }

    /// Whether `row` can take, for each member of `ids`, a value out of the column
    /// that `src` has for it: this table has the column, of the same stride, and
    /// its buffer can be addressed.
    pub open spec fn can_receive(self, src: TableView, ids: Archetype, row: nat) -> bool {
        forall|id: nat|
            #![trigger ids.has(id)]
            ids.has(id) ==> {
                &&& self.has(id)
                &&& self.col(id).stride == src.col(id).stride
                &&& self.col(id).fits(row)
            }
    }

    /// The table after `row` took, for each member of `ids`, the value at
    /// `src_row` of the column that `src` has for it.
    pub open spec fn receive(self, src: TableView, ids: Archetype, src_row: nat, row: nat)
        -> TableView {
        TableView {
            cols: Seq::new(
                MAX_COMPONENTS as nat,
                |id: int|
                    if ids.has(id as nat) {
                        Some(self.col(id as nat).write(row, src.value(id as nat, src_row)))
                    } else {
                        self.cols[id]
                    },
            ),
            ..self
        }
    }

    pub proof fn lemma_reserve(self)
        requires
            self.wf(),
        ensures
            self.reserve().wf(),
            self.next_row() < self.reserve().end,
            !self.reserve().free.contains(self.next_row()),
            self.next_row() >= self.end || self.free.contains(self.next_row()),
    {
        if !self.free.is_empty() {
            let x = choose|x: nat| self.free.contains(x);
            lemma_least(self.free, x);
        }
    }

    pub proof fn lemma_write(self, id: nat, row: nat, bytes: Seq<u8>)
        requires
            self.wf(),
            self.accepts(id, bytes.len(), row),
        ensures
            self.write(id, row, bytes).wf(),
            self.write(id, row, bytes).readable(id, row),
            self.write(id, row, bytes).value(id, row) == bytes,
    {
        self.col_or_new(id, bytes.len()).lemma_write_wf(row, bytes);
    }

    /// What a write leaves as it was: the rows, the other columns, and the other
    /// rows of the column it goes to.
    pub proof fn lemma_write_frame(self, id: nat, row: nat, bytes: Seq<u8>)
        requires
            self.wf(),
            self.accepts(id, bytes.len(), row),
        ensures
            self.write(id, row, bytes).wf(),
            self.write(id, row, bytes).end == self.end,
            self.write(id, row, bytes).free == self.free,
            self.write(id, row, bytes).readable(id, row),
            self.write(id, row, bytes).value(id, row) == bytes,
            self.write(id, row, bytes).col(id).stride == bytes.len(),
            forall|j: nat|
                j < MAX_COMPONENTS && j != id
                    ==> #[trigger] self.write(id, row, bytes).cols[j as int]
                    == self.cols[j as int],
            forall|j: nat|
                #[trigger] self.write(id, row, bytes).has(j) <==> (j == id || self.has(j)),
            forall|j: nat, r: nat|
                self.readable(j, r) ==> #[trigger] self.write(id, row, bytes).readable(j, r),
            forall|j: nat, r: nat|
                self.readable(j, r) && !(j == id && r == row) ==> #[trigger] self.write(
                    id,
                    row,
                    bytes,
                ).value(j, r) == self.value(j, r),
    {
        self.lemma_write(id, row, bytes);
    }

    /// What the writes of a bundle leave as it was, and what they put in place.
    pub proof fn lemma_write_all(self, row: nat, values: Seq<ValueView>)
        requires
            self.wf(),
            self.accepts_all(row, values),
        ensures
            self.write_all(row, values).wf(),
            self.write_all(row, values).end == self.end,
            self.write_all(row, values).free == self.free,
            forall|j: nat|
                j < MAX_COMPONENTS && !mentions(values, j)
                    ==> #[trigger] self.write_all(row, values).cols[j as int]
                    == self.cols[j as int],
            forall|j: nat| #[trigger]
                self.write_all(row, values).has(j) <==> (self.has(j) || mentions(values, j)),
            forall|j: nat|
                self.has(j) ==> #[trigger] self.write_all(row, values).col(j).stride == self.col(
                    j,
                ).stride,
            forall|j: nat|
                mentions(values, j) ==> #[trigger] self.write_all(row, values).readable(j, row),
            forall|j: nat, r: nat|
                self.readable(j, r) ==> #[trigger] self.write_all(row, values).readable(j, r),
            forall|j: nat, r: nat|
                self.readable(j, r) && r != row ==> #[trigger] self.write_all(row, values).value(
                    j,
                    r,
                ) == self.value(j, r),
        decreases values.len(),
    {
        if values.len() > 0 {
            let front = values.drop_last();
            let last = values.last();
            let mid = self.write_all(row, front);
            let out = self.write_all(row, values);
            self.lemma_write_all(row, front);
            mid.lemma_write_frame(last.id, row, last.bytes);
            assert(values[values.len() - 1] == last);
            assert forall|j: nat| mentions(values, j) <==> (j == last.id || mentions(front, j)) by {
                if mentions(values, j) {
                    let i = choose|i: int| 0 <= i < values.len() && (#[trigger] values[i]).id == j;
                    if i < values.len() - 1 {
                        assert(front[i].id == j);
                    }
                }
                if mentions(front, j) {
                    let i = choose|i: int| 0 <= i < front.len() && (#[trigger] front[i]).id == j;
                    assert(values[i].id == j);
                }
            }
            assert forall|j: nat|
                #[trigger] out.has(j) <==> (self.has(j) || mentions(values, j)) by {
                assert(out.has(j) <==> (j == last.id || mid.has(j)));
                assert(mid.has(j) <==> (self.has(j) || mentions(front, j)));
            }
            assert forall|j: nat| self.has(j) implies #[trigger] out.col(j).stride == self.col(
                j,
            ).stride by {
                assert(mid.has(j));
                assert(mid.col(j).stride == self.col(j).stride);
                if j != last.id {
                    assert(out.cols[j as int] == mid.cols[j as int]);
                }
            }
            assert forall|j: nat| mentions(values, j) implies #[trigger] out.readable(j, row) by {
                if j != last.id {
                    assert(mid.readable(j, row));
                }
            }
            assert forall|j: nat, r: nat| self.readable(j, r) implies #[trigger] out.readable(
                j,
                r,
            ) by {
                assert(mid.readable(j, r));
            }
            assert forall|j: nat, r: nat|
                self.readable(j, r) && r != row implies #[trigger] out.value(
                j,
                r,
            ) == self.value(j, r) by {
                assert(mid.readable(j, r));
                assert(mid.value(j, r) == self.value(j, r));
            }
            assert forall|j: nat|
                j < MAX_COMPONENTS && !mentions(values, j) implies #[trigger] out.cols[j as int]
                == self.cols[j as int] by {
                assert(mid.cols[j as int] == self.cols[j as int]);
            }
        }
    }

    /// Where a bundle is accepted, so is each of its values in its turn.
    pub proof fn lemma_accepts_prefix(self, row: nat, values: Seq<ValueView>, k: int)
        requires
            self.accepts_all(row, values),
            0 <= k <= values.len(),
        ensures
            self.accepts_all(row, values.take(k)),
            k < values.len() ==> self.write_all(row, values.take(k)).accepts(
                values[k].id,
                values[k].bytes.len(),
                row,
            ),
            k < values.len() ==> self.write_all(row, values.take(k + 1)) == self.write_all(
                row,
                values.take(k),
            ).write(values[k].id, row, values[k].bytes),
        decreases values.len() - k,
    {
        if k == values.len() {
            assert(values.take(k) =~= values);
        } else {
            self.lemma_accepts_prefix(row, values, k + 1);
            assert(values.take(k + 1).drop_last() =~= values.take(k));
            assert(values.take(k + 1).last() == values[k]);
        }
    }

    /// The writes of two bundles, one after the other.
    pub proof fn lemma_write_all_concat(self, row: nat, x: Seq<ValueView>, y: Seq<ValueView>)
        ensures
            self.write_all(row, x + y) == self.write_all(row, x).write_all(row, y),
            self.accepts_all(row, x + y) <==> (self.accepts_all(row, x) && self.write_all(
                row,
                x,
            ).accepts_all(row, y)),
        decreases y.len(),
    {
        if y.len() == 0 {
            assert(x + y =~= x);
        } else {
            self.lemma_write_all_concat(row, x, y.drop_last());
            assert((x + y).drop_last() =~= x + y.drop_last());
            assert((x + y).last() == y.last());
        }
    }

    /// The value that a bundle leaves at `row` for a component it mentions only once.
    pub proof fn lemma_write_all_value(self, row: nat, values: Seq<ValueView>, i: int)
        requires
            self.wf(),
            self.accepts_all(row, values),
            0 <= i < values.len(),
            forall|k: int| i < k < values.len() ==> (#[trigger] values[k]).id != values[i].id,
        ensures
            self.write_all(row, values).readable(values[i].id, row),
            self.write_all(row, values).value(values[i].id, row) == values[i].bytes,
        decreases values.len(),
    {
        let front = values.drop_last();
        let last = values.last();
        let mid = self.write_all(row, front);
        self.lemma_write_all(row, front);
        mid.lemma_write_frame(last.id, row, last.bytes);
        if i < values.len() - 1 {
            assert(front[i] == values[i]);
            assert forall|k: int| i < k < front.len() implies (#[trigger] front[k]).id
                != front[i].id by {
                assert(values[k].id != values[i].id);
            }
            self.lemma_write_all_value(row, front, i);
            assert(values[values.len() - 1].id != values[i].id);
        }
    }

    /// The table made by `like` is well formed and has just the columns it was made for.
    pub proof fn lemma_like(src: TableView, ids: Archetype)
        requires
            src.wf(),
        ensures
            Self::like(src, ids).wf(),
            forall|id: nat| #[trigger]
                Self::like(src, ids).has(id) <==> (src.has(id) && ids.has(id)),
            forall|id: nat|
                src.has(id) && ids.has(id) ==> #[trigger] Self::like(src, ids).col(id)
                    == ColumnView::empty(src.col(id).stride),
            Self::like(src, ids).can_reserve(),
            Self::like(src, ids).next_row() == 0,
    {
        let t = Self::like(src, ids);
        assert(t.free.is_empty());
    }

    /// What receiving a row leaves as it was, and what it puts in place.
    pub proof fn lemma_receive(self, src: TableView, ids: Archetype, src_row: nat, row: nat)
        requires
            self.wf(),
            src.wf(),
            self.can_receive(src, ids, row),
            forall|id: nat| ids.has(id) ==> #[trigger] src.readable(id, src_row),
        ensures
            self.receive(src, ids, src_row, row).wf(),
            self.receive(src, ids, src_row, row).end == self.end,
            self.receive(src, ids, src_row, row).free == self.free,
            forall|j: nat| #[trigger] self.receive(src, ids, src_row, row).has(j) <==> self.has(j),
            forall|j: nat|
                self.has(j) ==> #[trigger] self.receive(src, ids, src_row, row).col(j).stride
                    == self.col(j).stride,
            forall|j: nat|
                ids.has(j) ==> #[trigger] self.receive(src, ids, src_row, row).readable(j, row)
                    && self.receive(src, ids, src_row, row).value(j, row) == src.value(j, src_row),
            forall|j: nat, r: nat|
                self.readable(j, r) ==> #[trigger] self.receive(src, ids, src_row, row).readable(
                    j,
                    r,
                ),
            forall|j: nat, r: nat|
                self.readable(j, r) && r != row ==> #[trigger] self.receive(
                    src,
                    ids,
                    src_row,
                    row,
                ).value(j, r) == self.value(j, r),
            forall|j: nat|
                j < MAX_COMPONENTS && !ids.has(j)
                    ==> #[trigger] self.receive(src, ids, src_row, row).cols[j as int]
                    == self.cols[j as int],
    {
        let out = self.receive(src, ids, src_row, row);
        assert forall|id: int|
            0 <= id < MAX_COMPONENTS && (#[trigger] out.cols[id]) is Some
                implies out.cols[id].unwrap().wf() by {
            if ids.has(id as nat) {
                assert(src.readable(id as nat, src_row));
                assert(src.cols[id].unwrap().wf());
                assert(self.cols[id].unwrap().wf());
                self.col(id as nat).lemma_write_wf(row, src.value(id as nat, src_row));
            }
        }
        assert forall|j: nat|
            ids.has(j) implies #[trigger] out.readable(j, row) && out.value(j, row)
            == src.value(j, src_row) by {
            assert(src.readable(j, src_row));
            assert(src.cols[j as int].unwrap().wf());
            assert(self.cols[j as int].unwrap().wf());
            self.col(j).lemma_write_wf(row, src.value(j, src_row));
        }
    }
}

} // verus!
