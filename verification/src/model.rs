//! The world as mathematics: its state, what each change makes of it, and the
//! invariant that every change keeps.

use crate::archetype::Archetype;
use crate::component::MAX_COMPONENTS;
use crate::entity::Entity;
use crate::view::{TableView, ValueView};
use vstd::prelude::*;

verus! {

/// A structural change that waits for the running systems to finish.
pub enum CommandView {
    Add { entity: nat, value: ValueView },
    Remove { entity: nat, id: nat },
}

impl CommandView {
    /// Whether the component that the command names can be attached to an entity.
    pub open spec fn valid(self) -> bool {
        match self {
            CommandView::Add { entity, value } => value.valid(),
            CommandView::Remove { entity, id } => 0 < id < MAX_COMPONENTS,
        }
    }
}

/// The world as mathematics: where each entity lives, the table of each
/// archetype, the entity numbers free for reuse, the structural changes that
/// wait, and the number of systems that run.
pub struct WorldView {
    pub entities: Seq<Option<(Archetype, nat)>>,
    pub tables: Map<Archetype, TableView>,
    pub free_entities: Set<nat>,
    pub commands: Seq<CommandView>,
    pub running: nat,
}

impl WorldView {
    /// The world without entities. Slot 0 belongs to the mark of dead rows.
    pub open spec fn empty() -> WorldView {
        WorldView {
            entities: seq![None],
            tables: Map::empty(),
            free_entities: Set::empty(),
            commands: Seq::empty(),
            running: 0,
        }
    }

    /// Whether entity number `e` is alive.
    pub open spec fn is_live(self, e: nat) -> bool {
        e < self.entities.len() && self.entities[e as int] is Some
    }

    /// The archetype of a live entity.
    pub open spec fn archetype_of(self, e: nat) -> Archetype {
        self.entities[e as int].unwrap().0
    }

    /// The row of a live entity in the table of its archetype.
    pub open spec fn row_of(self, e: nat) -> nat {
        self.entities[e as int].unwrap().1
    }

    /// The table of archetype `a`; the empty table stands for one not made yet.
    pub open spec fn table(self, a: Archetype) -> TableView {
        if self.tables.contains_key(a) {
            self.tables[a]
        } else {
            TableView::empty()
        }
    }

    /// Whether entity `e` is alive and has component number `id`.
    pub open spec fn has_component(self, e: nat, id: nat) -> bool {
        self.is_live(e) && self.archetype_of(e).has(id)
    }

    /// The bytes of component number `id` of entity `e`, if it has that component.
    pub open spec fn value(self, e: nat, id: nat) -> Option<Seq<u8>> {
        if self.has_component(e, id) {
            Some(self.table(self.archetype_of(e)).value(id, self.row_of(e)))
        } else {
            None
        }
    }

    /// What holds of the table of archetype `a` at `row`: a free row is marked
    /// dead, and any other row holds the number of the live entity that lives there.
    pub open spec fn row_ok(self, a: Archetype, row: nat) -> bool {
        let t = self.tables[a];
        let e = t.entity_at(row);
        if t.free.contains(row) {
            e == 0
        } else {
            e != 0 && self.is_live(e) && self.entities[e as int] == Some((a, row))
        }
    }

    /// What holds of the table of archetype `a`.
    pub open spec fn table_ok(self, a: Archetype) -> bool {
        let t = self.tables[a];
        &&& t.wf()
        &&& a.has(0)
        &&& forall|id: nat| #![trigger a.has(id)] id < MAX_COMPONENTS ==> (t.has(id) <==> a.has(id))
        &&& t.col(0).stride == 4
        &&& forall|id: nat, row: nat|
            a.has(id) && row < t.end ==> #[trigger] t.readable(id, row)
        &&& forall|row: nat| row < t.end ==> #[trigger] self.row_ok(a, row)
    }

    /// What holds of a live entity: its row exists, is in use and holds its number.
    pub open spec fn slot_ok(self, e: nat) -> bool {
        let a = self.archetype_of(e);
        let row = self.row_of(e);
        &&& self.tables.contains_key(a)
        &&& row < self.tables[a].end
        &&& !self.tables[a].free.contains(row)
        &&& self.tables[a].entity_at(row) == e
    }

    /// The invariant of the world.
    pub open spec fn wf(self) -> bool {
        &&& 1 <= self.entities.len() <= u32::MAX
        &&& self.entities[0] is None
        &&& forall|a: Archetype| #[trigger] self.tables.contains_key(a) ==> self.table_ok(a)
        &&& forall|e: nat| #[trigger] self.is_live(e) ==> self.slot_ok(e)
        &&& forall|e: nat| #[trigger]
            self.free_entities.contains(e) ==> 0 < e < self.entities.len() && !self.is_live(e)
        &&& forall|i: int| 0 <= i < self.commands.len() ==> (#[trigger] self.commands[i]).valid()
    }

    /// The number that the next spawned entity gets: the least free number, or
    /// the first one never handed out.
    pub open spec fn next_entity(self) -> nat {
        if self.free_entities.is_empty() {
            self.entities.len()
        } else {
            crate::view::least(self.free_entities)
        }
    }

    /// The index with slot `e` set, grown with empty slots as far as needed.
    pub open spec fn set_slot(self, e: nat, slot: Option<(Archetype, nat)>) -> Seq<
        Option<(Archetype, nat)>,
    > {
        if e < self.entities.len() {
            self.entities.update(e as int, slot)
        } else {
            (self.entities + Seq::new((e - self.entities.len()) as nat, |i: int| None)).push(slot)
        }
    }

    /// Whether the table of the bundle's archetype can take entity `e` with its bundle.
    pub open spec fn can_place(self, e: nat, values: Seq<ValueView>) -> bool {
        let t = self.table(crate::view::bundle_archetype(values));
        let row = t.next_row();
        &&& t.can_reserve()
        &&& t.reserve().accepts(0, 4, row)
        &&& t.reserve().write(0, row, Entity::image(e)).accepts_all(row, values)
    }

    /// The world after entity `e` was given a row in the table of the bundle's
    /// archetype and the bundle was written there.
    pub open spec fn place(self, e: nat, values: Seq<ValueView>) -> WorldView {
        let a = crate::view::bundle_archetype(values);
        let t = self.table(a);
        let row = t.next_row();
        WorldView {
            entities: self.set_slot(e, Some((a, row))),
            tables: self.tables.insert(
                a,
                t.reserve().write(0, row, Entity::image(e)).write_all(row, values),
            ),
            free_entities: self.free_entities.remove(e),
            ..self
        }
    }

    /// Whether a bundle can be spawned.
    pub open spec fn can_spawn(self, values: Seq<ValueView>) -> bool {
        &&& crate::view::all_valid(values)
        &&& self.next_entity() < u32::MAX
        &&& self.can_place(self.next_entity(), values)
    }

    /// The world after a bundle was spawned as entity `self.next_entity()`.
    pub open spec fn spawn(self, values: Seq<ValueView>) -> WorldView {
        self.place(self.next_entity(), values)
    }

    /// Whether a bundle can be inserted as entity `e`.
    pub open spec fn can_insert(self, e: nat, values: Seq<ValueView>) -> bool {
        &&& crate::view::all_valid(values)
        &&& 0 < e < u32::MAX
        &&& !self.is_live(e)
        &&& self.can_place(e, values)
    }

    /// The world after a bundle was inserted as entity `e`.
    pub open spec fn insert(self, e: nat, values: Seq<ValueView>) -> WorldView {
        self.place(e, values)
    }

    /// The world after entity `e` was despawned. Nothing happens for the mark
    /// of dead rows and for an entity that is not alive.
    pub open spec fn despawn(self, e: nat) -> WorldView {
        if e != 0 && self.is_live(e) {
            let a = self.archetype_of(e);
            WorldView {
                entities: self.entities.update(e as int, None),
                tables: self.tables.insert(a, self.tables[a].kill(self.row_of(e))),
                free_entities: self.free_entities.insert(e),
                ..self
            }
        } else {
            self
        }
    }

    /// The world after `bytes` was stored in place as component number `id` of
    /// the live entity `e`.
    pub open spec fn stored(self, e: nat, id: nat, bytes: Seq<u8>) -> WorldView {
        let a = self.archetype_of(e);
        WorldView {
            tables: self.tables.insert(a, self.tables[a].write(id, self.row_of(e), bytes)),
            ..self
        }
    }

    /// The table that a live entity `e` moves to when its archetype becomes `to`:
    /// the one the world has, or else a new one with the columns that `to`
    /// shares with the entity's table.
    pub open spec fn target(self, e: nat, to: Archetype) -> TableView {
        if self.tables.contains_key(to) {
            self.tables[to]
        } else {
            TableView::like(self.tables[self.archetype_of(e)], to)
        }
    }

    /// Whether the target table can take the row of entity `e`: the components
    /// `kept`, and `extra` if there is one.
    pub open spec fn can_migrate(
        self,
        e: nat,
        to: Archetype,
        kept: Archetype,
        extra: Option<ValueView>,
    ) -> bool {
        let src = self.tables[self.archetype_of(e)];
        let dst = self.target(e, to);
        let row = dst.next_row();
        &&& dst.can_reserve()
        &&& dst.can_receive(src, kept, row)
        &&& extra matches Some(v) ==> dst.accepts(v.id, v.bytes.len(), row)
    }

    /// The world after entity `e` moved to the table of archetype `to` with the
    /// components `kept`, and `extra` if there is one. Its old row is marked dead
    /// and handed back.
    pub open spec fn migrate(
        self,
        e: nat,
        to: Archetype,
        kept: Archetype,
        extra: Option<ValueView>,
    ) -> WorldView {
        let from = self.archetype_of(e);
        let src = self.tables[from];
        let dst = self.target(e, to);
        let row = dst.next_row();
        let moved = dst.reserve().receive(src, kept, self.row_of(e), row);
        let done = match extra {
            Some(v) => moved.write(v.id, row, v.bytes),
            None => moved,
        };
        WorldView {
            entities: self.entities.update(e as int, Some((to, row))),
            tables: self.tables.insert(from, src.kill(self.row_of(e))).insert(to, done),
            ..self
        }
    }

    /// The world after a component was added to entity `e`, or `None` where
    /// nothing is done: the entity is not alive, it has a component of that
    /// number, or the target table cannot take its row.
    pub open spec fn add(self, e: nat, v: ValueView) -> Option<WorldView> {
        if !self.is_live(e) {
            None
        } else {
            let from = self.archetype_of(e);
            let to = from.with(v.id);
            if from == to || !self.can_migrate(e, to, from, Some(v)) {
                None
            } else {
                Some(self.migrate(e, to, from, Some(v)))
            }
        }
    }

    /// The world after component number `id` was removed from entity `e`, or
    /// `None` where nothing is done: the entity is not alive, it has no such
    /// component, or the target table cannot take its row.
    pub open spec fn remove(self, e: nat, id: nat) -> Option<WorldView> {
        if !self.is_live(e) {
            None
        } else {
            let from = self.archetype_of(e);
            let to = from.without(id);
            if from == to || !self.can_migrate(e, to, to, None) {
                None
            } else {
                Some(self.migrate(e, to, to, None))
            }
        }
    }

    /// The entity numbers in the rows of the tables of the archetypes `keys`,
    /// table after table.
    pub open spec fn rows(self, keys: Seq<Archetype>, live_only: bool) -> Seq<nat>
        decreases keys.len(),
    {
        if keys.len() == 0 {
            Seq::empty()
        } else {
            self.rows(keys.drop_last(), live_only) + self.tables[keys.last()].rows(live_only)
        }
    }

    /// Whether `out` holds the entity numbers in the rows of the tables whose
    /// archetype is chosen: each such table once, in some order of the tables,
    /// and the rows of a table in their order.
    pub open spec fn visits(
        self,
        chosen: spec_fn(Archetype) -> bool,
        live_only: bool,
        out: Seq<nat>,
    ) -> bool {
        exists|keys: Seq<Archetype>|
            {
                &&& keys.no_duplicates()
                &&& forall|a: Archetype|
                    keys.contains(a) <==> (self.tables.contains_key(a) && chosen(a))
                &&& out == #[trigger] self.rows(keys, live_only)
            }
    }

    /// The world after a structural change was carried out; a change that
    /// cannot be carried out leaves the world as it is.
    pub open spec fn apply(self, c: CommandView) -> WorldView {
        let r = match c {
            CommandView::Add { entity, value } => self.add(entity, value),
            CommandView::Remove { entity, id } => self.remove(entity, id),
        };
        match r {
            Some(w) => w,
            None => self,
        }
    }

    /// The world after the structural changes `cs` were carried out, first to last.
    pub open spec fn apply_all(self, cs: Seq<CommandView>) -> WorldView
        decreases cs.len(),
    {
        if cs.len() == 0 {
            self
        } else {
            self.apply_all(cs.drop_last()).apply(cs.last())
        }
    }

    /// The world after the waiting changes were carried out in the order they
    /// were issued.
    pub open spec fn flush(self) -> WorldView {
        (WorldView { commands: Seq::empty(), ..self }).apply_all(self.commands)
    }

    /// The world after a structural change was issued: carried out at once
    /// while no system runs, else put at the end of the queue.
    pub open spec fn issue(self, c: CommandView) -> WorldView {
        if self.running == 0 {
            self.apply(c)
        } else {
            WorldView { commands: self.commands.push(c), ..self }
        }
    }

    /// The world when one more system runs.
    pub open spec fn begin_run(self) -> WorldView {
        WorldView { running: self.running + 1, ..self }
    }

    /// The world when one system less runs; when the last one has finished,
    /// the waiting changes are carried out.
    pub open spec fn end_run(self) -> WorldView {
        let w = WorldView { running: (self.running - 1) as nat, ..self };
        if w.running == 0 {
            w.flush()
        } else {
            w
        }
    }

    /// The slots of the index after `set_slot`: slot `e` is set, the others are
    /// as they were, and those that were added are empty.
    pub proof fn lemma_set_slot(self, e: nat, slot: Option<(Archetype, nat)>)
        ensures
            self.set_slot(e, slot).len() == if e < self.entities.len() {
                self.entities.len()
            } else {
                e + 1
            },
            self.set_slot(e, slot)[e as int] == slot,
            forall|x: int|
                0 <= x < self.entities.len() && x != e ==> #[trigger] self.set_slot(e, slot)[x]
                    == self.entities[x],
            forall|x: int|
                self.entities.len() <= x < e ==> (#[trigger] self.set_slot(e, slot)[x]) is None,
    {
    }

    /// Placing an entity keeps the invariant, makes the entity alive in the row
    /// that its table hands out next, and leaves every other entity as it was.
    pub proof fn lemma_place(self, e: nat, values: Seq<ValueView>)
        requires
            self.wf(),
            crate::view::all_valid(values),
            0 < e < u32::MAX,
            !self.is_live(e),
            self.can_place(e, values),
        ensures
            self.place(e, values).wf(),
            self.place(e, values).is_live(e),
            self.place(e, values).archetype_of(e) == crate::view::bundle_archetype(values),
            self.place(e, values).row_of(e) == self.table(
                crate::view::bundle_archetype(values),
            ).next_row(),
            forall|x: nat|
                x != e ==> #[trigger] self.place(e, values).is_live(x) == self.is_live(x),
            forall|x: nat|
                x != e && self.is_live(x) ==> #[trigger] self.place(e, values).entities[x as int]
                    == self.entities[x as int],
            forall|x: nat, id: nat|
                x != e ==> #[trigger] self.place(e, values).value(x, id) == self.value(x, id),
    {
        let a = crate::view::bundle_archetype(values);
        let t0 = self.table(a);
        let row = t0.next_row();
        let t1 = t0.reserve();
        let t2 = t1.write(0, row, Entity::image(e));
        let t3 = t2.write_all(row, values);
        let w = self.place(e, values);
        self.lemma_set_slot(e, Some((a, row)));
        crate::view::lemma_bundle_archetype(values);
        Entity::lemma_image(e, 0);
        assert(t0.wf());
        t0.lemma_reserve();
        t1.lemma_write_frame(0, row, Entity::image(e));
        t2.lemma_write_all(row, values);
        assert(!crate::view::mentions(values, 0));
        assert(t3.cols[0] == t2.cols[0]);
        assert(t3.value(0, row) == Entity::image(e));
        assert(t3.entity_at(row) == e);
        assert(w.tables[a] == t3);
        assert(w.entities[e as int] == Some((a, row)));

        // rows of the table other than the new one are as they were
        assert forall|r: nat| r < t3.end && r != row implies r < t0.end && self.tables.contains_key(
            a,
        ) && t3.value(0, r) == t0.value(0, r) && t3.free.contains(r) == t0.free.contains(r) by {
            assert(t0.end > 0);
            assert(self.tables.contains_key(a));
            assert(self.table_ok(a));
            assert(a.has(0));
            assert(t0.readable(0, r));
            assert(t1.readable(0, r));
            assert(t2.value(0, r) == t1.value(0, r));
        }

        assert forall|x: nat| x != e implies #[trigger] w.is_live(x) == self.is_live(x) by {}
        assert forall|x: nat| x != e && self.is_live(x) implies #[trigger] w.entities[x as int]
            == self.entities[x as int] by {}

        assert forall|b: Archetype| #[trigger] w.tables.contains_key(b) implies w.table_ok(b) by {
            let t = w.tables[b];
            if b == a {
                assert forall|id: nat|
                    #![trigger a.has(id)] id < MAX_COMPONENTS implies (t3.has(id) <==> a.has(
                    id,
                )) by {
                    assert(t3.has(id) <==> (t2.has(id) || crate::view::mentions(values, id)));
                    assert(t2.has(id) <==> (id == 0 || t1.has(id)));
                    if self.tables.contains_key(a) {
                        assert(self.table_ok(a));
                        assert(t0.has(id) <==> a.has(id));
                    }
                }
                assert(t2.col(0).stride == 4);
                assert(t3.col(0).stride == 4);
                assert forall|id: nat, r: nat|
                    a.has(id) && r < t3.end implies #[trigger] t3.readable(
                    id,
                    r,
                ) by {
                    if r == row {
                        if id == 0 {
                            assert(t2.readable(0, row));
                        }
                    } else {
                        assert(self.table_ok(a));
                        assert(t0.readable(id, r));
                        assert(t1.readable(id, r));
                        assert(t2.readable(id, r));
                    }
                }
                assert forall|r: nat| r < t3.end implies #[trigger] w.row_ok(a, r) by {
                    if r != row {
                        assert(self.table_ok(a));
                        assert(self.row_ok(a, r));
                        let x = t0.entity_at(r);
                        if !t0.free.contains(r) {
                            assert(self.is_live(x));
                            assert(x != e);
                        }
                    }
                }
            } else {
                assert(self.tables.contains_key(b));
                assert(self.table_ok(b));
                assert(t == self.tables[b]);
                assert forall|r: nat| r < t.end implies #[trigger] w.row_ok(b, r) by {
                    assert(self.row_ok(b, r));
                    let x = t.entity_at(r);
                    if !t.free.contains(r) {
                        assert(self.is_live(x));
                        assert(x != e);
                    }
                }
            }
        }
        assert forall|x: nat| #[trigger] w.is_live(x) implies w.slot_ok(x) by {
            if x != e {
                assert(self.is_live(x));
                assert(self.slot_ok(x));
                let b = self.archetype_of(x);
                let r = self.row_of(x);
                if b == a {
                    assert(r < t0.end);
                    assert(r != row);
                }
            }
        }
        assert forall|x: nat| #[trigger] w.free_entities.contains(x) implies 0 < x
            < w.entities.len() && !w.is_live(x) by {
            assert(self.free_entities.contains(x));
        }
        assert forall|x: nat, id: nat| x != e implies #[trigger] w.value(x, id) == self.value(
            x,
            id,
        ) by {
            if self.has_component(x, id) {
                assert(self.is_live(x));
                assert(self.slot_ok(x));
                let b = self.archetype_of(x);
                let r = self.row_of(x);
                assert(self.table_ok(b));
                if b == a {
                    assert(r < t0.end);
                    assert(r != row);
                    assert(t0.readable(id, r));
                    assert(t1.readable(id, r));
                    assert(t2.value(id, r) == t1.value(id, r));
                    assert(t2.readable(id, r));
                    assert(t3.value(id, r) == t2.value(id, r));
                }
            }
        }
    }

    /// Marking the row of a live entity dead can be done, and leaves the other
    /// rows of its table as they were.
    pub proof fn lemma_kill(self, e: nat)
        requires
            self.wf(),
            self.is_live(e),
        ensures
            ({
                let t = self.tables[self.archetype_of(e)];
                let row = self.row_of(e);
                let k = t.kill(row);
                &&& t.accepts(0, 4, row)
                &&& k.wf()
                &&& k.entity_at(row) == 0
                &&& k.end == t.end
                &&& k.free == t.free.insert(row)
                &&& k.col(0).stride == 4
                &&& forall|j: nat| #[trigger] k.has(j) <==> t.has(j)
                &&& forall|j: nat, r: nat| t.readable(j, r) ==> #[trigger] k.readable(j, r)
                &&& forall|j: nat, r: nat|
                    t.readable(j, r) && !(j == 0 && r == row) ==> #[trigger] k.value(j, r)
                        == t.value(j, r)
            }),
    {
        let a = self.archetype_of(e);
        let row = self.row_of(e);
        let t = self.tables[a];
        assert(self.slot_ok(e));
        assert(self.table_ok(a));
        assert(t.readable(0, row));
        Entity::lemma_image(0, 0);
        t.col(0).lemma_fits_inside(row);
        t.lemma_write_frame(0, row, Entity::tombstone());
    }

    /// Despawning keeps the invariant, frees the entity's number, and leaves
    /// every other entity as it was.
    pub proof fn lemma_despawn(self, e: nat)
        requires
            self.wf(),
        ensures
            self.despawn(e).wf(),
            !self.despawn(e).is_live(e),
            e != 0 && self.is_live(e) ==> self.despawn(e).free_entities.contains(e),
            forall|x: nat| x != e ==> #[trigger] self.despawn(e).is_live(x) == self.is_live(x),
            forall|x: nat, id: nat|
                x != e ==> #[trigger] self.despawn(e).value(x, id) == self.value(x, id),
    {
        if e != 0 && self.is_live(e) {
            let a = self.archetype_of(e);
            let row = self.row_of(e);
            let t = self.tables[a];
            let k = t.kill(row);
            let w = self.despawn(e);
            self.lemma_kill(e);
            assert(self.slot_ok(e));
            assert(self.table_ok(a));
            assert(w.tables[a] == k);
            assert forall|b: Archetype|
                #[trigger] w.tables.contains_key(b) implies w.table_ok(b) by {
                assert(self.tables.contains_key(b));
                assert(self.table_ok(b));
                let tb = self.tables[b];
                if b == a {
                    assert forall|id: nat|
                        #![trigger a.has(id)] id < MAX_COMPONENTS implies (k.has(id) <==> a.has(
                        id,
                    )) by {
                        assert(t.has(id) <==> a.has(id));
                    }
                    assert forall|id: nat, r: nat|
                        a.has(id) && r < k.end implies #[trigger] k.readable(
                        id,
                        r,
                    ) by {
                        assert(t.readable(id, r));
                    }
                    assert forall|r: nat| r < k.end implies #[trigger] w.row_ok(a, r) by {
                        assert(self.row_ok(a, r));
                        assert(t.readable(0, r));
                        if r != row {
                            let x = t.entity_at(r);
                            assert(k.value(0, r) == t.value(0, r));
                            if !t.free.contains(r) {
                                assert(x != e);
                            }
                        }
                    }
                } else {
                    assert(w.tables[b] == tb);
                    assert forall|r: nat| r < tb.end implies #[trigger] w.row_ok(b, r) by {
                        assert(self.row_ok(b, r));
                    }
                }
            }
            assert forall|x: nat| #[trigger] w.is_live(x) implies w.slot_ok(x) by {
                assert(self.is_live(x));
                assert(self.slot_ok(x));
                let b = self.archetype_of(x);
                let r = self.row_of(x);
                assert(self.table_ok(b));
                if b == a {
                    assert(r != row);
                    assert(t.readable(0, r));
                    assert(k.value(0, r) == t.value(0, r));
                }
            }
            assert forall|x: nat, id: nat| x != e implies #[trigger] w.value(x, id) == self.value(
                x,
                id,
            ) by {
                if self.has_component(x, id) {
                    assert(self.slot_ok(x));
                    let b = self.archetype_of(x);
                    let r = self.row_of(x);
                    assert(self.table_ok(b));
                    if b == a {
                        assert(r != row);
                        assert(t.readable(id, r));
                    }
                }
            }
        }
    }

    /// What relates the archetype an entity leaves, the one it moves to, the
    /// components it keeps and the one it gains.
    pub open spec fn migration_ok(
        self,
        e: nat,
        to: Archetype,
        kept: Archetype,
        extra: Option<ValueView>,
    ) -> bool {
        let from = self.archetype_of(e);
        &&& self.is_live(e)
        &&& from != to
        &&& kept.has(0)
        &&& forall|id: nat| #[trigger] kept.has(id) <==> (from.has(id) && to.has(id))
        &&& forall|id: nat| #[trigger]
            to.has(id) <==> (kept.has(id) || (extra matches Some(v) && v.id == id))
        &&& extra matches Some(v) ==> v.valid() && !kept.has(v.id)
        &&& self.can_migrate(e, to, kept, extra)
    }

    /// Moving an entity to another table keeps the invariant and the components
    /// it keeps, gives it the component it gains, and leaves every other entity
    /// as it was.
    pub proof fn lemma_migrate(
        self,
        e: nat,
        to: Archetype,
        kept: Archetype,
        extra: Option<ValueView>,
    )
        requires
            self.wf(),
            self.migration_ok(e, to, kept, extra),
        ensures
            self.migrate(e, to, kept, extra).wf(),
            self.migrate(e, to, kept, extra).is_live(e),
            self.migrate(e, to, kept, extra).archetype_of(e) == to,
            self.migrate(e, to, kept, extra).row_of(e) == self.target(e, to).next_row(),
            forall|id: nat|
                kept.has(id) ==> #[trigger] self.migrate(e, to, kept, extra).value(e, id)
                    == self.value(e, id),
            extra matches Some(v) ==> self.migrate(e, to, kept, extra).value(e, v.id) == Some(
                v.bytes,
            ),
            forall|x: nat| #[trigger]
                self.migrate(e, to, kept, extra).is_live(x) == self.is_live(x),
            self.migrate(e, to, kept, extra).entities == self.entities.update(
                e as int,
                Some((to, self.target(e, to).next_row())),
            ),
            self.migrate(e, to, kept, extra).free_entities == self.free_entities,
            forall|x: nat, id: nat|
                x != e ==> #[trigger] self.migrate(e, to, kept, extra).value(x, id) == self.value(
                    x,
                    id,
                ),
    {
        let from = self.archetype_of(e);
        let row_e = self.row_of(e);
        let src = self.tables[from];
        let dst0 = self.target(e, to);
        let row = dst0.next_row();
        let dst1 = dst0.reserve();
        let dst2 = dst1.receive(src, kept, row_e, row);
        let dst3 = match extra {
            Some(v) => dst2.write(v.id, row, v.bytes),
            None => dst2,
        };
        let k = src.kill(row_e);
        let w = self.migrate(e, to, kept, extra);
        Entity::lemma_image(e, 0);
        assert(self.slot_ok(e));
        assert(self.table_ok(from));
        self.lemma_kill(e);
        if self.tables.contains_key(to) {
            assert(self.table_ok(to));
        } else {
            TableView::lemma_like(src, to);
        }
        assert(dst0.wf());
        dst0.lemma_reserve();
        assert(dst1.cols == dst0.cols);
        assert(dst1.can_receive(src, kept, row));
        assert forall|id: nat| kept.has(id) implies #[trigger] src.readable(id, row_e) by {
            assert(from.has(id));
        }
        dst1.lemma_receive(src, kept, row_e, row);
        if let Some(v) = extra {
            assert(dst2.cols[v.id as int] == dst1.cols[v.id as int]);
            assert(dst2.accepts(v.id, v.bytes.len(), row));
            dst2.lemma_write_frame(v.id, row, v.bytes);
        }
        assert(dst3.wf());
        assert(dst3.end == dst1.end);
        assert(dst3.free == dst1.free);
        assert(w.tables[to] == dst3);
        assert(w.tables[from] == k);
        assert(dst2.readable(0, row) && dst2.value(0, row) == src.value(0, row_e));
        assert(dst3.value(0, row) == src.value(0, row_e));
        assert(dst3.entity_at(row) == e);

        // what the target table has in its columns
        assert forall|id: nat|
            #![trigger to.has(id)] id < MAX_COMPONENTS implies (dst3.has(id) <==> to.has(
            id,
        )) by {
            assert(dst2.has(id) <==> dst1.has(id));
            assert(kept.has(id) <==> (from.has(id) && to.has(id)));
            assert(src.has(id) <==> from.has(id));
            if self.tables.contains_key(to) {
                assert(dst0.has(id) <==> to.has(id));
            }
        }
        assert(dst0.has(0) && dst0.col(0).stride == 4) by {
            assert(kept.has(0));
            assert(from.has(0) && to.has(0));
            assert(src.has(0));
        }
        assert(dst3.col(0).stride == 4);
        // rows of the target table other than the new one are as they were
        assert forall|id: nat, r: nat| r < dst3.end && r != row && to.has(id) implies r < dst0.end
            && self.tables.contains_key(to) && dst0.readable(id, r) && dst3.readable(id, r)
            && dst3.value(id, r) == dst0.value(id, r) by {
            assert(dst0.end > 0);
            assert(self.table_ok(to));
            assert(dst0.readable(id, r));
            assert(dst1.readable(id, r));
            assert(dst2.readable(id, r));
            assert(dst2.value(id, r) == dst1.value(id, r));
        }
        assert forall|r: nat| r < dst3.end && r != row implies dst3.free.contains(r)
            == dst0.free.contains(r) && dst3.entity_at(r) == dst0.entity_at(r) by {
            assert(to.has(0));
        }

        assert forall|b: Archetype| #[trigger] w.tables.contains_key(b) implies w.table_ok(b) by {
            if b == to {
                assert forall|id: nat, r: nat|
                    to.has(id) && r < dst3.end implies #[trigger] dst3.readable(
                    id,
                    r,
                ) by {
                    if r == row {
                        if kept.has(id) {
                            assert(dst2.readable(id, row));
                        }
                    }
                }
                assert forall|r: nat| r < dst3.end implies #[trigger] w.row_ok(to, r) by {
                    if r != row {
                        assert(self.table_ok(to));
                        assert(self.row_ok(to, r));
                    }
                }
            } else if b == from {
                assert forall|id: nat|
                    #![trigger from.has(id)] id < MAX_COMPONENTS implies (k.has(id)
                    <==> from.has(id)) by {
                    assert(src.has(id) <==> from.has(id));
                }
                assert forall|id: nat, r: nat|
                    from.has(id) && r < k.end implies #[trigger] k.readable(
                    id,
                    r,
                ) by {
                    assert(src.readable(id, r));
                }
                assert forall|r: nat| r < k.end implies #[trigger] w.row_ok(from, r) by {
                    assert(self.row_ok(from, r));
                    assert(src.readable(0, r));
                    if r != row_e {
                        assert(k.value(0, r) == src.value(0, r));
                    }
                }
            } else {
                assert(self.tables.contains_key(b));
                assert(self.table_ok(b));
                let tb = self.tables[b];
                assert(w.tables[b] == tb);
                assert forall|r: nat| r < tb.end implies #[trigger] w.row_ok(b, r) by {
                    assert(self.row_ok(b, r));
                }
            }
        }
        assert forall|x: nat| #[trigger] w.is_live(x) implies w.slot_ok(x) by {
            if x != e {
                assert(self.is_live(x));
                assert(self.slot_ok(x));
                let b = self.archetype_of(x);
                let r = self.row_of(x);
                assert(self.table_ok(b));
                if b == to {
                    assert(r != row);
                    assert(to.has(0));
                } else if b == from {
                    assert(r != row_e);
                    assert(src.readable(0, r));
                    assert(k.value(0, r) == src.value(0, r));
                }
            }
        }
        assert forall|id: nat| kept.has(id) implies #[trigger] w.value(e, id) == self.value(
            e,
            id,
        ) by {
            assert(from.has(id) && to.has(id));
            assert(dst2.readable(id, row) && dst2.value(id, row) == src.value(id, row_e));
        }
        assert forall|x: nat, id: nat| x != e implies #[trigger] w.value(x, id) == self.value(
            x,
            id,
        ) by {
            if self.has_component(x, id) {
                assert(self.slot_ok(x));
                let b = self.archetype_of(x);
                let r = self.row_of(x);
                assert(self.table_ok(b));
                if b == to {
                    assert(r != row);
                } else if b == from {
                    assert(r != row_e);
                    assert(src.readable(id, r));
                }
            }
        }
    }

    /// Where a component can be added, the move that adds it is in order.
    pub proof fn lemma_add(self, e: nat, v: ValueView)
        requires
            self.wf(),
            v.valid(),
            self.add(e, v) is Some,
        ensures
            !self.archetype_of(e).has(v.id),
            self.migration_ok(e, self.archetype_of(e).with(v.id), self.archetype_of(e), Some(v)),
            self.add(e, v).unwrap().wf(),
    {
        let from = self.archetype_of(e);
        let to = from.with(v.id);
        from.lemma_members(v.id);
        assert(self.slot_ok(e));
        assert(self.table_ok(from));
        if from.has(v.id) {
            assert(to@ =~= from@);
            Archetype::lemma_equal_iff_same_members(from, to);
        }
        self.lemma_migrate(e, to, from, Some(v));
    }

    /// Where a component can be removed, the move that removes it is in order.
    pub proof fn lemma_remove(self, e: nat, id: nat)
        requires
            self.wf(),
            0 < id < MAX_COMPONENTS,
            self.remove(e, id) is Some,
        ensures
            self.archetype_of(e).has(id),
            self.migration_ok(
                e,
                self.archetype_of(e).without(id),
                self.archetype_of(e).without(id),
                None,
            ),
            self.remove(e, id).unwrap().wf(),
    {
        let from = self.archetype_of(e);
        let to = from.without(id);
        from.lemma_members(id);
        assert(self.slot_ok(e));
        assert(self.table_ok(from));
        if !from.has(id) {
            assert(to@ =~= from@);
            Archetype::lemma_equal_iff_same_members(from, to);
        }
        self.lemma_migrate(e, to, to, None);
    }

    /// Carrying out a structural change keeps the invariant, the queue and the
    /// number of running systems.
    pub proof fn lemma_apply(self, c: CommandView)
        requires
            self.wf(),
            c.valid(),
        ensures
            self.apply(c).wf(),
            self.apply(c).commands == self.commands,
            self.apply(c).running == self.running,
    {
        match c {
            CommandView::Add { entity, value } => {
                if self.add(entity, value) is Some {
                    self.lemma_add(entity, value);
                }
            },
            CommandView::Remove { entity, id } => {
                if self.remove(entity, id) is Some {
                    self.lemma_remove(entity, id);
                }
            },
        }
    }

    /// Carrying out structural changes one after the other keeps the invariant,
    /// the queue and the number of running systems.
    pub proof fn lemma_apply_all(self, cs: Seq<CommandView>)
        requires
            self.wf(),
            forall|i: int| 0 <= i < cs.len() ==> (#[trigger] cs[i]).valid(),
        ensures
            self.apply_all(cs).wf(),
            self.apply_all(cs).commands == self.commands,
            self.apply_all(cs).running == self.running,
        decreases cs.len(),
    {
        if cs.len() > 0 {
            let front = cs.drop_last();
            assert forall|i: int| 0 <= i < front.len() implies (#[trigger] front[i]).valid() by {
                assert(cs[i].valid());
            }
            self.lemma_apply_all(front);
            assert(cs[cs.len() - 1].valid());
            self.apply_all(front).lemma_apply(cs.last());
        }
    }

    /// Carrying out the waiting changes keeps the invariant and empties the queue.
    pub proof fn lemma_flush(self)
        requires
            self.wf(),
        ensures
            self.flush().wf(),
            self.flush().commands.len() == 0,
            self.flush().running == self.running,
    {
        let cleared = WorldView { commands: Seq::empty(), ..self };
        self.lemma_same_entities(cleared);
        cleared.lemma_apply_all(self.commands);
    }

    /// Issuing a structural change keeps the invariant.
    pub proof fn lemma_issue(self, c: CommandView)
        requires
            self.wf(),
            c.valid(),
        ensures
            self.issue(c).wf(),
            self.issue(c).running == self.running,
    {
        if self.running == 0 {
            self.lemma_apply(c);
        } else {
            let w = self.issue(c);
            assert forall|i: int|
                0 <= i < w.commands.len() implies (#[trigger] w.commands[i]).valid() by {
                if i < self.commands.len() {
                    assert(self.commands[i].valid());
                }
            }
            self.lemma_same_entities(w);
        }
    }

    /// A world that differs only in its queue and its number of running
    /// systems keeps the invariant, as far as it is about entities and tables.
    pub proof fn lemma_same_entities(self, w: WorldView)
        requires
            self.wf(),
            w.entities == self.entities,
            w.tables == self.tables,
            w.free_entities == self.free_entities,
            forall|i: int| 0 <= i < w.commands.len() ==> (#[trigger] w.commands[i]).valid(),
        ensures
            w.wf(),
    {
        assert forall|a: Archetype| #[trigger] w.tables.contains_key(a) implies w.table_ok(a) by {
            assert(self.table_ok(a));
            let t = self.tables[a];
            assert forall|r: nat| r < t.end implies #[trigger] w.row_ok(a, r) by {
                assert(self.row_ok(a, r));
            }
        }
        assert forall|e: nat| #[trigger] w.is_live(e) implies w.slot_ok(e) by {
            assert(self.is_live(e));
            assert(self.slot_ok(e));
        }
        assert forall|e: nat| #[trigger] w.free_entities.contains(e) implies 0 < e
            < w.entities.len() && !w.is_live(e) by {
            assert(self.free_entities.contains(e));
        }
    }

    /// Storing a value in place keeps the invariant, changes that component of
    /// that entity, and nothing else.
    pub proof fn lemma_stored(self, e: nat, id: nat, bytes: Seq<u8>)
        requires
            self.wf(),
            self.has_component(e, id),
            id != 0,
            bytes.len() == self.value(e, id).unwrap().len(),
        ensures
            self.tables[self.archetype_of(e)].accepts(id, bytes.len(), self.row_of(e)),
            self.stored(e, id, bytes).wf(),
            self.stored(e, id, bytes).entities == self.entities,
            self.stored(e, id, bytes).value(e, id) == Some(bytes),
            forall|x: nat, j: nat|
                !(x == e && j == id) ==> #[trigger] self.stored(e, id, bytes).value(x, j)
                    == self.value(x, j),
    {
        let a = self.archetype_of(e);
        let row = self.row_of(e);
        let t = self.tables[a];
        let t2 = t.write(id, row, bytes);
        let w = self.stored(e, id, bytes);
        assert(self.slot_ok(e));
        assert(self.table_ok(a));
        assert(t.readable(id, row));
        assert(t.cols[id as int].unwrap().wf());
        t.col(id).lemma_fits_inside(row);
        t.lemma_write_frame(id, row, bytes);
        assert(w.tables[a] == t2);
        assert(t2.cols[0] == t.cols[0]);
        assert forall|b: Archetype| #[trigger] w.tables.contains_key(b) implies w.table_ok(b) by {
            assert(self.tables.contains_key(b));
            assert(self.table_ok(b));
            if b == a {
                assert forall|j: nat|
                    #![trigger a.has(j)] j < MAX_COMPONENTS implies (t2.has(j) <==> a.has(
                    j,
                )) by {
                    assert(t.has(j) <==> a.has(j));
                }
                assert forall|j: nat, r: nat| a.has(j) && r < t2.end implies #[trigger] t2.readable(
                    j,
                    r,
                ) by {
                    assert(t.readable(j, r));
                }
                assert forall|r: nat| r < t2.end implies #[trigger] w.row_ok(a, r) by {
                    assert(self.row_ok(a, r));
                }
            } else {
                let tb = self.tables[b];
                assert(w.tables[b] == tb);
                assert forall|r: nat| r < tb.end implies #[trigger] w.row_ok(b, r) by {
                    assert(self.row_ok(b, r));
                }
            }
        }
        assert forall|x: nat| #[trigger] w.is_live(x) implies w.slot_ok(x) by {
            assert(self.is_live(x));
            assert(self.slot_ok(x));
        }
        assert forall|x: nat| #[trigger] w.free_entities.contains(x) implies 0 < x
            < w.entities.len() && !w.is_live(x) by {
            assert(self.free_entities.contains(x));
        }
        assert forall|x: nat, j: nat| !(x == e && j == id) implies #[trigger] w.value(x, j)
            == self.value(x, j) by {
            if self.has_component(x, j) {
                assert(self.slot_ok(x));
                let b = self.archetype_of(x);
                let r = self.row_of(x);
                assert(self.table_ok(b));
                if b == a {
                    assert(t.readable(j, r));
                    if r == row {
                        assert(t.entity_at(r) == x);
                    }
                }
            }
        }
    }

    /// Forgetting that a number is free keeps the invariant.
    pub proof fn lemma_forget_free(self, e: nat)
        requires
            self.wf(),
        ensures
            (WorldView { free_entities: self.free_entities.remove(e), ..self }).wf(),
    {
        let w = WorldView { free_entities: self.free_entities.remove(e), ..self };
        assert forall|a: Archetype| #[trigger] w.tables.contains_key(a) implies w.table_ok(a) by {
            assert(self.table_ok(a));
            let t = self.tables[a];
            assert forall|r: nat| r < t.end implies #[trigger] w.row_ok(a, r) by {
                assert(self.row_ok(a, r));
            }
        }
        assert forall|x: nat| #[trigger] w.is_live(x) implies w.slot_ok(x) by {
            assert(self.is_live(x));
            assert(self.slot_ok(x));
        }
        assert forall|x: nat| #[trigger] w.free_entities.contains(x) implies 0 < x
            < w.entities.len() && !w.is_live(x) by {
            assert(self.free_entities.contains(x));
        }
    }

    /// The number of the next spawned entity is not that of a live entity, nor 0.
    pub proof fn lemma_next_entity(self)
        requires
            self.wf(),
        ensures
            self.next_entity() > 0,
            !self.is_live(self.next_entity()),
            self.free_entities.is_empty() || self.free_entities.contains(self.next_entity()),
            !self.free_entities.is_empty() ==> crate::view::is_least(
                self.free_entities,
                self.next_entity(),
            ),
    {
        if !self.free_entities.is_empty() {
            let x = choose|x: nat| self.free_entities.contains(x);
            crate::view::lemma_least(self.free_entities, x);
        }
    }

    /// Counting a system in or out keeps the invariant.
    pub proof fn lemma_run(self)
        requires
            self.wf(),
        ensures
            self.begin_run().wf(),
            self.running > 0 ==> self.end_run().wf(),
            self.running > 0 ==> self.end_run().running == self.running - 1,
            self.running == 1 ==> self.end_run().commands.len() == 0,
    {
        self.lemma_same_entities(self.begin_run());
        if self.running > 0 {
            let w = WorldView { running: (self.running - 1) as nat, ..self };
            self.lemma_same_entities(w);
            w.lemma_flush();
        }
    }
}

} // verus!
