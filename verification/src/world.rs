//! The world: entities, their tables, and the queue of structural changes.

use crate::archetype::Archetype;
use crate::bundle::Bundle;
use crate::component::{Component, ComponentId, ComponentValue, Metadata, MAX_COMPONENTS};
use crate::entity::Entity;
use crate::model::{CommandView, WorldView};
use crate::query::Query;
use crate::table::{pop_first, Table};
use crate::view::ValueView;
use std::collections::hash_map::Entry;
use std::collections::{BTreeSet, HashMap};
use vstd::prelude::*;

verus! {

/// A structural change that waits in the queue.
enum Cmd {
    AddComponent((Entity, Metadata, Vec<u8>)),
    RemoveComponent((Entity, Metadata)),
}

impl View for Cmd {
    type V = CommandView;

    closed spec fn view(&self) -> CommandView {
        match self {
            Cmd::AddComponent((entity, metadata, bytes)) => CommandView::Add {
                entity: entity.0 as nat,
                value: ValueView { id: metadata.index(), bytes: bytes@ },
            },
            Cmd::RemoveComponent((entity, metadata)) => CommandView::Remove {
                entity: entity.0 as nat,
                id: metadata.index(),
            },
        }
    }
}

impl Cmd {
    /// Whether the bytes of a component to add are as many as its metadata says.
    spec fn sized(&self) -> bool {
        match self {
            Cmd::AddComponent((_, metadata, bytes)) => bytes@.len() == metadata.size(),
            Cmd::RemoveComponent(_) => true,
        }
    }
}

/// The choice of tables of a walk over the world.
enum Pick<'a> {
    /// The tables whose archetype has every member of this one.
    Superset(Archetype),
    /// The tables whose archetype meets the query.
    Matching(&'a Query),
}

impl<'a> Pick<'a> {
    /// Whether the table of archetype `a` is chosen.
    spec fn chosen(&self, a: Archetype) -> bool {
        match self {
            Pick::Superset(archetype) => archetype@.subset_of(a@),
            Pick::Matching(query) => query.matches(a),
        }
    }

    fn picks(&self, a: &Archetype) -> (r: bool)
        ensures
            r == self.chosen(*a),
    {
        match self {
            Pick::Superset(archetype) => archetype.subset_of(*a),
            Pick::Matching(query) => query.match_archetype(a),
        }
    }
}

/// The numbers of a sequence of entities.
pub open spec fn numbers(entities: Seq<Entity>) -> Seq<nat> {
    Seq::new(entities.len(), |i: int| entities[i].0 as nat)
}

/// The world: the index from entity numbers to rows, one table per archetype,
/// the entity numbers free for reuse, and the queue of structural changes that
/// wait while systems run.
pub struct World {
    entities: Vec<Option<(Archetype, usize)>>,
    tables: HashMap<u128, Table>,
    free_entities: BTreeSet<usize>,
    cmd_queue: Vec<Cmd>,
    num_systems_running: usize,
}

impl View for World {
    type V = WorldView;

    closed spec fn view(&self) -> WorldView {
        WorldView {
            entities: Seq::new(
                self.entities@.len(),
                |i: int|
                    match self.entities@[i] {
                        Some((a, row)) => Some((a, row as nat)),
                        None => None,
                    },
            ),
            tables: Map::new(
                |a: Archetype| self.tables@.contains_key(a.bits()),
                |a: Archetype| self.tables@[a.bits()]@,
            ),
            free_entities: Set::new(
                |e: nat| e <= usize::MAX && self.free_entities@.contains(e as usize),
            ),
            commands: Seq::new(self.cmd_queue@.len(), |i: int| self.cmd_queue@[i]@),
            running: self.num_systems_running as nat,
        }
    }
}

impl World {
    /// The invariant of the world: that of its view, and that of each table.
    pub closed spec fn wf(&self) -> bool {
        &&& self@.wf()
        &&& forall|k: u128| #[trigger] self.tables@.contains_key(k) ==> self.tables@[k].wf()
        &&& forall|i: int| 0 <= i < self.cmd_queue@.len()
            ==> (#[trigger] self.cmd_queue@[i]).sized()
    }

    /// A well-formed world has a well-formed view.
    pub proof fn lemma_view_wf(&self)
        requires
            self.wf(),
        ensures
            self@.wf(),
    {
    }

    pub fn new() -> (w: Self)
        ensures
            w.wf(),
            w@ == WorldView::empty(),
    {
        let mut entities: Vec<Option<(Archetype, usize)>> = Vec::new();
        // entity 0 marks dead rows
        entities.push(None);
        let w = World {
            entities,
            tables: HashMap::new(),
            free_entities: BTreeSet::new(),
            cmd_queue: Vec::new(),
            num_systems_running: 0,
        };
        proof {
            assert(w@.entities =~= WorldView::empty().entities);
            assert(w@.tables =~= WorldView::empty().tables);
            assert(w@.free_entities =~= WorldView::empty().free_entities);
            assert(w@.commands =~= WorldView::empty().commands);
        }
        w
    }

    /// The length of the entity index: one more than the greatest entity number
    /// ever alive, whether it is alive now or not.
    pub fn num_entities_max(&self) -> (n: u32)
        requires
            self.wf(),
        ensures
            n == self@.entities.len(),
    {
        self.entities.len() as u32
    }

    /// Where entity `entity` lives, if it is alive.
    pub fn location(&self, entity: Entity) -> (r: Option<(Archetype, usize)>)
        requires
            self.wf(),
        ensures
            r is Some == self@.is_live(entity.0 as nat),
            r matches Some((a, row)) ==> a == self@.archetype_of(entity.0 as nat) && row
                == self@.row_of(entity.0 as nat),
    {
        let i = entity.0 as usize;
        if i < self.entities.len() {
            self.entities[i]
        } else {
            None
        }
    }

    /// Whether entity `entity` is alive and has component number `id`.
    pub fn has_component_by_id(&self, entity: Entity, id: ComponentId) -> (r: bool)
        requires
            self.wf(),
        ensures
            r == self@.has_component(entity.0 as nat, id.0 as nat),
    {
        match self.location(entity) {
            Some((archetype, _)) => {
                proof {
                    let e = entity.0 as nat;
                    assert(self@.slot_ok(e));
                    assert(self@.tables.contains_key(archetype));
                    assert(self@.table_ok(archetype));
                }
                let table = self.tables.get(&archetype.bits()).unwrap();
                table.has_component_by_id(id)
            },
            None => false,
        }
    }

    /// The bytes of component number `id` of entity `entity`, if it is alive and
    /// has that component.
    pub fn component_by_id(&self, entity: Entity, id: ComponentId) -> (r: Option<&[u8]>)
        requires
            self.wf(),
        ensures
            r is Some == self@.has_component(entity.0 as nat, id.0 as nat),
            r matches Some(bytes) ==> Some(bytes@) == self@.value(entity.0 as nat, id.0 as nat),
    {
        if id.0 as usize >= MAX_COMPONENTS {
            return None;
        }
        match self.location(entity) {
            Some((archetype, index)) => {
                proof {
                    let e = entity.0 as nat;
                    assert(self@.slot_ok(e));
                    assert(self@.tables.contains_key(archetype));
                    assert(self@.table_ok(archetype));
                    if self@.tables[archetype].has(id.0 as nat) {
                        assert(archetype.has(id.0 as nat));
                        assert(self@.tables[archetype].readable(id.0 as nat, index as nat));
                    }
                }
                let table = self.tables.get(&archetype.bits()).unwrap();
                table.try_read_by_id(id, index)
            },
            None => None,
        }
    }

    /// Whether `entity` is alive and has a component of type `T`.
    pub fn has_component<T: Component>(&self, entity: Entity) -> (r: bool)
        requires
            self.wf(),
        ensures
            r == self@.has_component(entity.0 as nat, T::spec_metadata().index()),
    {
        self.has_component_by_id(entity, T::metadata_static().id())
    }

    /// The component of type `T` of `entity`, if the entity is alive and has
    /// one of that type's size.
    pub fn component<T: Component>(&self, entity: Entity) -> (r: Option<T>)
        requires
            self.wf(),
        ensures
            r is Some == (self@.value(entity.0 as nat, T::spec_metadata().index()) matches Some(
                bytes,
            ) && bytes.len() == T::spec_metadata().size()),
            r matches Some(val) ==> ((exists|w: T|
                Some(w.bytes()) == self@.value(entity.0 as nat, T::spec_metadata().index()))
                ==> Some(val.bytes()) == self@.value(entity.0 as nat, T::spec_metadata().index())),
    {
        let metadata = T::metadata_static();
        match self.component_by_id(entity, metadata.id()) {
            Some(bytes) => {
                if bytes.len() == metadata.size() {
                    Some(T::from_bytes(bytes))
                } else {
                    None
                }
            },
            None => None,
        }
    }

    /// The bytes of the component of type `T` of `entity`, for the caller to
    /// change in place, if the entity is alive and has that component. The
    /// `Entity` component cannot be changed.
    pub fn component_mut<T: Component>(&mut self, entity: Entity) -> (r: Option<&mut [u8]>)
        requires
            old(self).wf(),
        ensures
            r is Some == (T::spec_metadata().index() != 0 && old(self)@.has_component(
                entity.0 as nat,
                T::spec_metadata().index(),
            )),
            r is None ==> final(self).wf() && final(self)@ == old(self)@,
            r matches Some(bytes) ==> Some(bytes@) == old(self)@.value(
                entity.0 as nat,
                T::spec_metadata().index(),
            ),
            r matches Some(bytes) ==> (final(bytes)@.len() == bytes@.len() ==> final(self).wf()),
            r matches Some(bytes) ==> (final(bytes)@.len() == bytes@.len() ==> final(self)@
                == old(self)@.stored(entity.0 as nat, T::spec_metadata().index(), final(bytes)@)),
    {
        self.component_mut_by_id(entity, T::metadata_static().id())
    }

    /// Tears down the component of type `T` of `entity`, if it has one: the
    /// value is read and let go. The bytes stay in the world.
    pub fn destroy_component<T: Component>(&self, entity: Entity)
        requires
            self.wf(),
    {
        let _ = self.component::<T>(entity);
    }

    /// The bytes of component number `id` of entity `entity`, for the caller to
    /// change in place, if the entity is alive and has that component. The
    /// `Entity` component cannot be changed.
    pub fn component_mut_by_id(&mut self, entity: Entity, id: ComponentId) -> (r: Option<&mut [u8]>)
        requires
            old(self).wf(),
        ensures
            r is Some == (id.0 != 0 && old(self)@.has_component(entity.0 as nat, id.0 as nat)),
            r is None ==> final(self).wf() && final(self)@ == old(self)@,
            r matches Some(bytes) ==> Some(bytes@) == old(self)@.value(
                entity.0 as nat,
                id.0 as nat,
            ),
            r matches Some(bytes) ==> (final(bytes)@.len() == bytes@.len() ==> final(self).wf()),
            r matches Some(bytes) ==> (final(bytes)@.len() == bytes@.len() ==> final(self)@
                == old(self)@.stored(entity.0 as nat, id.0 as nat, final(bytes)@)),
    {
        let ghost before = *self;
        let ghost w0 = self@;
        let ghost e = entity.0 as nat;
        if id.0 == 0 || id.0 as usize >= MAX_COMPONENTS {
            return None;
        }
        let (archetype, index) = match self.location(entity) {
            Some(x) => x,
            None => {
                return None;
            },
        };
        if !archetype.contains_id(id.0 as usize) {
            return None;
        }
        proof {
            assert(w0.slot_ok(e));
            assert(w0.table_ok(archetype));
            assert(w0.tables[archetype].has(id.0 as nat));
            assert(w0.tables[archetype].readable(id.0 as nat, index as nat));
        }
        let key = archetype.bits();
        match self.tables.entry(key) {
            Entry::Occupied(o) => {
                let table = o.into_mut();
                let r = table.try_read_mut_by_id(id, index);
                proof {
                    assert forall|after: World, cell: Seq<u8>|
                        #![trigger after.wf(), cell.len()]
                        #![trigger after@, w0.stored(e, id.0 as nat, cell)]
                        after.entities == before.entities && after.free_entities
                            == before.free_entities && after.cmd_queue == before.cmd_queue
                            && after.num_systems_running == before.num_systems_running
                            && after.tables@.contains_key(key) && after.tables@
                            == before.tables@.insert(key, after.tables@[key])
                            && after.tables@[key].wf() && after.tables@[key]@
                            == before.tables@[key]@.write(id.0 as nat, index as nat, cell)
                            && cell.len() == w0.value(e, id.0 as nat).unwrap().len()
                            implies after.wf() && after@ == w0.stored(e, id.0 as nat, cell) by {
                        let w1 = w0.stored(e, id.0 as nat, cell);
                        assert(after@.entities =~= w1.entities);
                        assert(after@.tables =~= w1.tables) by {
                            assert forall|a: Archetype| after@.tables.contains_key(a)
                                == w1.tables.contains_key(a) by {
                                Archetype::lemma_equal_iff_same_members(a, archetype);
                            }
                            assert forall|a: Archetype| after@.tables.contains_key(
                                a,
                            ) implies after@.tables[a] == w1.tables[a] by {
                                Archetype::lemma_equal_iff_same_members(a, archetype);
                            }
                        }
                        assert(after@.free_entities =~= w1.free_entities);
                        assert(after@.commands =~= w1.commands);
                        assert(after@ == w1);
                        w0.lemma_stored(e, id.0 as nat, cell);
                    }
                }
                r
            },
            Entry::Vacant(_) => None,
        }
    }

    /// Gives entity number `id` a row in the table of the bundle's archetype,
    /// and writes its number and the bundle there.
    fn place<B: Bundle>(&mut self, id: usize, bundle: B)
        requires
            old(self).wf(),
            crate::view::all_valid(bundle.values()),
            0 < id < u32::MAX,
            !old(self)@.is_live(id as nat),
            !old(self)@.free_entities.contains(id as nat),
            old(self)@.can_place(id as nat, bundle.values()),
        ensures
            final(self).wf(),
            final(self)@ == old(self)@.place(id as nat, bundle.values()),
    {
        let ghost w0 = self@;
        let ghost values = bundle.values();
        let mut archetype = Archetype::new();
        bundle.set_archetype(&mut archetype);
        proof {
            Metadata::lemma_parts(ComponentId(0), 4, 4, "Entity");
            Entity::lemma_image(id as nat, 0);
        }
        archetype.set(Entity::metadata_static());
        let key = archetype.bits();
        let ghost t0 = w0.table(archetype);
        proof {
            if w0.tables.contains_key(archetype) {
                assert(w0.table_ok(archetype));
            }
        }
        let ghost map0 = self.tables@;
        let mut table = match self.tables.remove(&key) {
            Some(t) => t,
            None => Table::new(),
        };
        assert(table@ == t0);
        let ghost row = t0.next_row();
        let index = table.reserve_index();
        let entity = Entity(id as u32);
        let image = entity.to_bytes();
        table.write_any(Entity::metadata_static(), index, image.as_slice());
        bundle.write_self_to_table(index, &mut table);
        self.tables.insert(key, table);
        if id < self.entities.len() {
            self.entities.set(id, Some((archetype, index)));
        } else {
            while self.entities.len() < id
                invariant
                    old(self).entities@.len() <= self.entities@.len() <= id,
                    forall|j: int|
                        0 <= j < old(self).entities@.len() ==> self.entities@[j]
                            == old(self).entities@[j],
                    forall|j: int|
                        old(self).entities@.len() <= j < self.entities@.len() ==> self.entities@[j]
                            is None,
                    self.tables@ == map0.insert(key, table),
                    self.free_entities == old(self).free_entities,
                    self.cmd_queue == old(self).cmd_queue,
                    self.num_systems_running == old(self).num_systems_running,
                decreases id - self.entities.len(),
            {
                self.entities.push(None);
            }
            self.entities.push(Some((archetype, index)));
        }
        proof {
            let w1 = w0.place(id as nat, values);
            w0.lemma_set_slot(id as nat, Some((archetype, row)));
            assert(self@.entities =~= w1.entities);
            assert(self@.tables =~= w1.tables) by {
                assert forall|a: Archetype| self@.tables.contains_key(a) == w1.tables.contains_key(
                    a,
                ) by {
                    Archetype::lemma_equal_iff_same_members(a, archetype);
                }
                assert forall|a: Archetype| self@.tables.contains_key(a) implies self@.tables[a]
                    == w1.tables[a] by {
                    Archetype::lemma_equal_iff_same_members(a, archetype);
                }
            }
            assert(self@.free_entities =~= w1.free_entities);
            assert(self@.commands =~= w1.commands);
            assert(self@ == w1);
            w0.lemma_place(id as nat, values);
        }
    }

    /// Spawns an entity with the components of `bundle`: it gets the least
    /// number that is free for reuse, or else the first one never handed out,
    /// and a row in the table of the bundle's archetype.
    pub fn spawn<B: Bundle>(&mut self, bundle: B) -> (entity: Entity)
        requires
            old(self).wf(),
            old(self)@.can_spawn(bundle.values()),
        ensures
            final(self).wf(),
            entity.0 == old(self)@.next_entity(),
            final(self)@ == old(self)@.spawn(bundle.values()),
    {
        let ghost w0 = self@;
        proof {
            w0.lemma_next_entity();
        }
        let id = match pop_first(&mut self.free_entities) {
            Some(id) => {
                proof {
                    assert(w0.free_entities.contains(id as nat));
                    assert(crate::view::is_least(w0.free_entities, id as nat)) by {
                        assert forall|x: nat| w0.free_entities.contains(x) implies id <= x by {
                            assert(old(self).free_entities@.contains(x as usize));
                        }
                    }
                    crate::view::lemma_least_unique(w0.free_entities, id as nat);
                }
                id
            },
            None => {
                proof {
                    assert(w0.free_entities =~= Set::<nat>::empty());
                }
                self.entities.len()
            },
        };
        proof {
            let w1 = WorldView { free_entities: w0.free_entities.remove(id as nat), ..w0 };
            assert(self@.free_entities =~= w1.free_entities);
            assert(self@ == w1);
            w0.lemma_forget_free(id as nat);
            assert(w1.place(id as nat, bundle.values()).free_entities =~= w0.place(
                id as nat,
                bundle.values(),
            ).free_entities);
        }
        self.place(id, bundle);
        Entity(id as u32)
    }

    /// Spawns an entity with the components of `bundle`, a slice of values
    /// whose types are known only by their metadata.
    pub fn spawn_from_slice_of_boxes(&mut self, bundle: &[ComponentValue]) -> (entity: Entity)
        requires
            old(self).wf(),
            old(self)@.can_spawn(crate::bundle::values_of(bundle@)),
        ensures
            final(self).wf(),
            entity.0 == old(self)@.next_entity(),
            final(self)@ == old(self)@.spawn(crate::bundle::values_of(bundle@)),
    {
        self.spawn(bundle)
    }

    /// Spawns an entity with the components of `bundle` under the number that
    /// the caller chose, which is not that of a live entity.
    pub fn insert<B: Bundle>(&mut self, entity: Entity, bundle: B) -> (r: Entity)
        requires
            old(self).wf(),
            old(self)@.can_insert(entity.0 as nat, bundle.values()),
        ensures
            final(self).wf(),
            r == entity,
            final(self)@ == old(self)@.insert(entity.0 as nat, bundle.values()),
    {
        let ghost w0 = self@;
        let id = entity.0 as usize;
        self.free_entities.remove(&id);
        proof {
            let w1 = WorldView { free_entities: w0.free_entities.remove(id as nat), ..w0 };
            assert(self@.free_entities =~= w1.free_entities);
            assert(self@ == w1);
            w0.lemma_forget_free(id as nat);
            assert(w1.place(id as nat, bundle.values()).free_entities =~= w0.place(
                id as nat,
                bundle.values(),
            ).free_entities);
        }
        self.place(id, bundle);
        entity
    }

    /// Spawns an entity with the components of `bundle`, a slice of values
    /// whose types are known only by their metadata, under the number that the
    /// caller chose.
    pub fn insert_from_slice_of_boxes(&mut self, entity: Entity, bundle: &[ComponentValue]) -> (r:
        Entity)
        requires
            old(self).wf(),
            old(self)@.can_insert(entity.0 as nat, crate::bundle::values_of(bundle@)),
        ensures
            final(self).wf(),
            r == entity,
            final(self)@ == old(self)@.insert(entity.0 as nat, crate::bundle::values_of(bundle@)),
    {
        self.insert(entity, bundle)
    }

    /// Marks `row` dead and hands it back to the table.
    fn retire(table: &mut Table, row: usize)
        requires
            old(table).wf(),
            row < old(table)@.end,
            old(table)@.accepts(0, 4, row as nat),
        ensures
            final(table).wf(),
            final(table)@ == old(table)@.kill(row as nat),
    {
        proof {
            Metadata::lemma_parts(ComponentId(0), 4, 4, "Entity");
            Entity::lemma_image(0, 0);
        }
        let tombstone = Entity(0).to_bytes();
        table.write_any(Entity::metadata_static(), row, tombstone.as_slice());
        table.free_index(row);
    }

    /// Despawns `entity`: its row is marked dead and handed back, and its
    /// number becomes free for reuse. Nothing happens for `Entity(0)` and for an
    /// entity that is not alive.
    pub fn despawn(&mut self, entity: Entity)
        requires
            old(self).wf(),
        ensures
            final(self).wf(),
            final(self)@ == old(self)@.despawn(entity.0 as nat),
    {
        let ghost w0 = self@;
        if entity.0 == 0 {
            return ;
        }
        if let Some((archetype, index)) = self.location(entity) {
            let id = entity.0 as usize;
            let key = archetype.bits();
            proof {
                assert(w0.slot_ok(id as nat));
                assert(w0.table_ok(archetype));
                w0.lemma_kill(id as nat);
            }
            let mut table = self.tables.remove(&key).unwrap();
            Self::retire(&mut table, index);
            self.tables.insert(key, table);
            self.entities.set(id, None);
            self.free_entities.insert(id);
            proof {
                let w1 = w0.despawn(id as nat);
                assert(self@.entities =~= w1.entities);
                assert(self@.tables =~= w1.tables) by {
                    assert forall|a: Archetype| self@.tables.contains_key(a)
                        == w1.tables.contains_key(a) by {
                        Archetype::lemma_equal_iff_same_members(a, archetype);
                    }
                    assert forall|a: Archetype| self@.tables.contains_key(a) implies self@.tables[a]
                        == w1.tables[a] by {
                        Archetype::lemma_equal_iff_same_members(a, archetype);
                    }
                }
                assert(self@.free_entities =~= w1.free_entities);
                assert(self@.commands =~= w1.commands);
                assert(self@ == w1);
                w0.lemma_despawn(id as nat);
            }
        }
    }

    /// Moves the live entity number `id` from the table of `from` to that of
    /// `to`, with the components `kept` and with `extra` if there is one, where
    /// the target table can take the row. Else nothing changes.
    fn migrate(
        &mut self,
        id: usize,
        from: Archetype,
        index: usize,
        to: Archetype,
        kept: Archetype,
        extra: Option<(Metadata, &[u8])>,
    ) -> (r: Result<(), ()>)
        requires
            old(self).wf(),
            old(self)@.is_live(id as nat),
            from == old(self)@.archetype_of(id as nat),
            index == old(self)@.row_of(id as nat),
            from != to,
            kept.has(0),
            forall|j: nat| #[trigger] kept.has(j) <==> (from.has(j) && to.has(j)),
            extra matches Some((m, bytes))
                ==> 0 < m.index() < MAX_COMPONENTS && bytes@.len() == m.size()
                && !kept.has(m.index()),
            forall|j: nat| #[trigger]
                to.has(j) <==> (kept.has(j) || (extra matches Some((m, bytes)) && m.index() == j)),
        ensures
            final(self).wf(),
            r is Ok <==> old(self)@.can_migrate(id as nat, to, kept, Self::extra_view(extra)),
            r is Ok ==> final(self)@ == old(self)@.migrate(
                id as nat,
                to,
                kept,
                Self::extra_view(extra),
            ),
            r is Err ==> final(self)@ == old(self)@,
    {
        let ghost w0 = self@;
        let ghost e = id as nat;
        let ghost x = Self::extra_view(extra);
        let ghost map0 = self.tables@;
        let from_key = from.bits();
        let to_key = to.bits();
        proof {
            assert(w0.slot_ok(e));
            assert(w0.table_ok(from));
            Archetype::lemma_equal_iff_same_members(from, to);
            if w0.tables.contains_key(to) {
                assert(w0.table_ok(to));
            }
            w0.lemma_kill(e);
        }
        let mut src = self.tables.remove(&from_key).unwrap();
        let ghost src0 = src@;
        let found = self.tables.remove(&to_key);
        let existed = found.is_some();
        let mut dst = match found {
            Some(t) => t,
            None => Table::with_columns_like(&src, to),
        };
        let ghost dst0 = w0.target(e, to);
        assert(dst@ == dst0);
        let row = dst.next_index();
        proof {
            assert forall|j: nat| kept.has(j) implies #[trigger] src@.has(j) by {
                assert(from.has(j));
            }
        }
        let ok = dst.can_reserve() && dst.can_receive(&src, kept, row) && match extra {
            Some((m, _)) => dst.can_accept(m, row),
            None => true,
        };
        assert(ok == w0.can_migrate(e, to, kept, x));
        if !ok {
            self.tables.insert(from_key, src);
            if existed {
                self.tables.insert(to_key, dst);
            }
            proof {
                assert(self@.tables =~= w0.tables) by {
                    assert forall|a: Archetype| self@.tables.contains_key(a)
                        == w0.tables.contains_key(a) by {
                        Archetype::lemma_equal_iff_same_members(a, from);
                        Archetype::lemma_equal_iff_same_members(a, to);
                    }
                    assert forall|a: Archetype| self@.tables.contains_key(a) implies self@.tables[a]
                        == w0.tables[a] by {
                        Archetype::lemma_equal_iff_same_members(a, from);
                        Archetype::lemma_equal_iff_same_members(a, to);
                    }
                }
                assert(self@.entities =~= w0.entities);
                assert(self@.free_entities =~= w0.free_entities);
                assert(self@.commands =~= w0.commands);
                assert(self@ == w0);
            }
            return Err(());
        }
        proof {
            assert(w0.migration_ok(e, to, kept, x));
            dst0.lemma_reserve();
            assert(dst0.reserve().cols == dst0.cols);
            assert(dst0.reserve().can_receive(src0, kept, row as nat));
            assert forall|j: nat| kept.has(j) implies #[trigger] src0.readable(j, index as nat) by {
                assert(from.has(j));
            }
            dst0.reserve().lemma_receive(src0, kept, index as nat, row as nat);
        }
        let new_index = dst.reserve_index();
        dst.receive(&src, kept, index, new_index);
        Self::retire(&mut src, index);
        if let Some((m, bytes)) = extra {
            proof {
                let moved = dst0.reserve().receive(src0, kept, index as nat, row as nat);
                assert(moved.cols[m.index() as int] == dst0.cols[m.index() as int]);
                assert(moved.accepts(m.index(), m.size() as nat, row as nat));
            }
            dst.write_any(m, new_index, bytes);
        }
        self.tables.insert(from_key, src);
        self.tables.insert(to_key, dst);
        self.entities.set(id, Some((to, new_index)));
        proof {
            let w1 = w0.migrate(e, to, kept, x);
            assert(self@.entities =~= w1.entities);
            assert(self@.tables =~= w1.tables) by {
                assert forall|a: Archetype| self@.tables.contains_key(a) == w1.tables.contains_key(
                    a,
                ) by {
                    Archetype::lemma_equal_iff_same_members(a, from);
                    Archetype::lemma_equal_iff_same_members(a, to);
                }
                assert forall|a: Archetype| self@.tables.contains_key(a) implies self@.tables[a]
                    == w1.tables[a] by {
                    Archetype::lemma_equal_iff_same_members(a, from);
                    Archetype::lemma_equal_iff_same_members(a, to);
                }
            }
            assert(self@.free_entities =~= w1.free_entities);
            assert(self@.commands =~= w1.commands);
            assert(self@ == w1);
            w0.lemma_migrate(e, to, kept, x);
        }
        Ok(())
    }

    /// The component that a move adds, as mathematics.
    spec fn extra_view(extra: Option<(Metadata, &[u8])>) -> Option<ValueView> {
        match extra {
            Some((m, bytes)) => Some(ValueView { id: m.index(), bytes: bytes@ }),
            None => None,
        }
    }

    /// Adds to `entity` the component `component`, a value of the type that
    /// `metadata` describes: the entity moves to the table of its archetype
    /// with that component. Fails, and changes nothing, where the entity is not
    /// alive, where it has a component of that type, and where the target
    /// table cannot take its row.
    pub fn _add_component(&mut self, entity: Entity, metadata: Metadata, component: &[u8]) -> (r:
        Result<(), ()>)
        requires
            old(self).wf(),
            0 < metadata.index() < MAX_COMPONENTS,
            component@.len() == metadata.size(),
        ensures
            final(self).wf(),
            match old(self)@.add(
                entity.0 as nat,
                (ValueView { id: metadata.index(), bytes: component@ }),
            ) {
                Some(w) => r is Ok && final(self)@ == w,
                None => r is Err && final(self)@ == old(self)@,
            },
    {
        if let Some((archetype, index)) = self.location(entity) {
            let mut new_archetype = archetype;
            new_archetype.set(metadata);
            if archetype == new_archetype {
                return Err(());
            }
            proof {
                let e = entity.0 as nat;
                archetype.lemma_members(metadata.index());
                assert(self@.slot_ok(e));
                assert(self@.table_ok(archetype));
                if archetype.has(metadata.index()) {
                    assert(new_archetype@ =~= archetype@);
                    Archetype::lemma_equal_iff_same_members(archetype, new_archetype);
                }
            }
            return self.migrate(
                entity.0 as usize,
                archetype,
                index,
                new_archetype,
                archetype,
                Some((metadata, component)),
            );
        }
        Err(())
    }

    /// Removes from `entity` the component of the type that `metadata`
    /// describes: the entity moves to the table of its archetype without that
    /// component. Fails, and changes nothing, where the entity is not alive,
    /// where it has no component of that type, and where the target table
    /// cannot take its row.
    pub fn _remove_component(&mut self, entity: Entity, metadata: Metadata) -> (r: Result<(), ()>)
        requires
            old(self).wf(),
            0 < metadata.index() < MAX_COMPONENTS,
        ensures
            final(self).wf(),
            match old(self)@.remove(entity.0 as nat, metadata.index()) {
                Some(w) => r is Ok && final(self)@ == w,
                None => r is Err && final(self)@ == old(self)@,
            },
    {
        if let Some((archetype, index)) = self.location(entity) {
            let mut new_archetype = archetype;
            new_archetype.unset(metadata);
            if archetype == new_archetype {
                return Err(());
            }
            proof {
                let e = entity.0 as nat;
                archetype.lemma_members(metadata.index());
                assert(self@.slot_ok(e));
                assert(self@.table_ok(archetype));
            }
            return self.migrate(
                entity.0 as usize,
                archetype,
                index,
                new_archetype,
                new_archetype,
                None,
            );
        }
        Err(())
    }

    /// Appends to `out` the entities in the rows of `table`, in the order of the
    /// rows; a dead row gives `Entity(0)`, or nothing where only live rows are
    /// asked for.
    fn push_rows(table: &Table, live_only: bool, out: &mut Vec<Entity>)
        requires
            table.wf(),
            table@.has(0),
            table@.col(0).stride == 4,
            forall|row: nat| row < table@.end ==> #[trigger] table@.readable(0, row),
        ensures
            numbers(final(out)@) == numbers(old(out)@) + table@.rows(live_only),
    {
        let ghost before = numbers(out@);
        let column = table.get_column_by_id(ComponentId(0)).unwrap();
        let len = table.len();
        let mut row: usize = 0;
        proof {
            assert(numbers(out@) =~= before + table@.rows_below(0, live_only));
        }
        while row < len
            invariant
                row <= len,
                len == table@.end,
                column.wf(),
                column@ == table@.col(0),
                column@.stride == 4,
                forall|r: nat| r < table@.end ==> #[trigger] table@.readable(0, r),
                numbers(out@) == before + table@.rows_below(row as nat, live_only),
            decreases len - row,
        {
            proof {
                assert(table@.readable(0, row as nat));
                column.lemma_view_wf();
                Metadata::lemma_parts(ComponentId(0), 4, 4, "Entity");
            }
            let ghost so_far = numbers(out@);
            let entity = Entity::from_bytes(column.read_bytes(row));
            assert(entity.0 == table@.entity_at(row as nat));
            if !live_only || entity.0 != 0 {
                out.push(entity);
                proof {
                    assert(numbers(out@) =~= so_far.push(entity.0 as nat));
                    assert(before + table@.rows_below(row as nat, live_only).push(entity.0 as nat)
                        =~= (before + table@.rows_below(row as nat, live_only)).push(
                        entity.0 as nat,
                    ));
                }
            }
            row += 1;
        }
    }

    /// The entities in the rows of the chosen tables: each such table once, in
    /// some order of the tables, and the rows of a table in their order.
    fn collect(&self, pick: &Pick, live_only: bool) -> (out: Vec<Entity>)
        requires
            self.wf(),
        ensures
            self@.visits(|a: Archetype| pick.chosen(a), live_only, numbers(out@)),
    {
        let ghost w = self@;
        let ghost chosen = |a: Archetype| pick.chosen(a);
        let mut out: Vec<Entity> = Vec::new();
        let ghost mut keys: Seq<Archetype> = Seq::empty();
        let ghost mut seen: Seq<u128> = Seq::empty();
        proof {
            assert(numbers(out@) =~= w.rows(keys, live_only));
            assert forall|a: Archetype| w.tables.contains_key(a) == self.tables@.dom().contains(
                a.bits(),
            ) by {}
            assert(Seq::<u128>::empty().to_set() =~= Set::<u128>::empty());
            Self::lemma_walk_done(
                w,
                self.tables@.dom(),
                Seq::empty(),
                self.tables@.dom() == Set::<u128>::empty(),
                Seq::empty(),
                Seq::empty(),
                chosen,
                live_only,
                Seq::empty(),
            );
        }
        for k in it: self.tables.keys()
            invariant
                self.wf(),
                w == self@,
                chosen == (|a: Archetype| pick.chosen(a)),
                it.seq().no_duplicates(),
                it.seq().unref().to_set() == self.tables@.dom(),
                seen == it.seq().take(it.index()).unref(),
                keys.no_duplicates(),
                forall|a: Archetype| keys.contains(a) <==> (seen.contains(a.bits()) && chosen(a)),
                numbers(out@) == w.rows(keys, live_only),
                it.index() == it.seq().len() ==> w.visits(chosen, live_only, numbers(out@)),
        {
            let archetype = Archetype::from_bits(*k);
            let ghost old_seen = seen;
            let ghost old_keys = keys;
            proof {
                archetype.lemma_bits();
                seen = seen.push(*k);
                assert(it.seq().take(it.index() + 1).unref() =~= seen);
                assert(self.tables@.dom().contains(*k)) by {
                    assert(it.seq().unref()[it.index()] == *k);
                    assert(it.seq().unref().to_set().contains(*k));
                }
                assert(!old_seen.contains(*k)) by {
                    if old_seen.contains(*k) {
                        let j = choose|j: int| 0 <= j < old_seen.len() && old_seen[j] == *k;
                        assert(it.seq()[j] == it.seq()[it.index()]);
                    }
                }
            }
            if pick.picks(&archetype) {
                let table = self.tables.get(k).unwrap();
                proof {
                    assert(w.tables.contains_key(archetype));
                    assert(w.table_ok(archetype));
                    assert(archetype.has(0));
                    assert(w.tables[archetype] == table@);
                    assert forall|row: nat| row < table@.end implies #[trigger] table@.readable(
                        0,
                        row,
                    ) by {}
                }
                Self::push_rows(table, live_only, &mut out);
                proof {
                    keys = keys.push(archetype);
                    assert(keys.drop_last() =~= old_keys);
                    assert(keys.last() == archetype);
                }
            }
            proof {
                Self::lemma_walk_step(
                    old_seen,
                    old_keys,
                    *k,
                    archetype,
                    chosen,
                    seen,
                    keys,
                );
                assert(it.index() + 1 == it.seq().len() ==> seen =~= it.seq().unref());
                Self::lemma_walk_done(
                    w,
                    self.tables@.dom(),
                    it.seq().unref(),
                    it.index() + 1 == it.seq().len(),
                    seen,
                    keys,
                    chosen,
                    live_only,
                    numbers(out@),
                );
            }
        }
        out
    }

    /// The archetypes picked up to one more table of a walk.
    proof fn lemma_walk_step(
        old_seen: Seq<u128>,
        old_keys: Seq<Archetype>,
        k: u128,
        archetype: Archetype,
        chosen: spec_fn(Archetype) -> bool,
        seen: Seq<u128>,
        keys: Seq<Archetype>,
    )
        requires
            archetype == Archetype::spec_from_bits(k),
            old_keys.no_duplicates(),
            forall|a: Archetype|
                old_keys.contains(a) <==> (old_seen.contains(a.bits()) && chosen(a)),
            !old_seen.contains(k),
            seen == old_seen.push(k),
            keys == if chosen(archetype) {
                old_keys.push(archetype)
            } else {
                old_keys
            },
        ensures
            keys.no_duplicates(),
            forall|a: Archetype| keys.contains(a) <==> (seen.contains(a.bits()) && chosen(a)),
    {
        archetype.lemma_bits();
        assert(!old_keys.contains(archetype));
        assert forall|a: Archetype| keys.contains(a) <==> (seen.contains(a.bits()) && chosen(
            a,
        )) by {
            a.lemma_bits();
            if keys.contains(a) {
                let j = choose|j: int| 0 <= j < keys.len() && keys[j] == a;
                if j < old_keys.len() {
                    assert(old_keys[j] == a);
                    assert(old_keys.contains(a));
                    let i = choose|i: int| 0 <= i < old_seen.len() && old_seen[i] == a.bits();
                    assert(seen[i] == a.bits());
                } else {
                    assert(seen[old_seen.len() as int] == k);
                }
            }
            if seen.contains(a.bits()) && chosen(a) {
                let i = choose|i: int| 0 <= i < seen.len() && seen[i] == a.bits();
                if i < old_seen.len() {
                    assert(old_seen[i] == a.bits());
                    assert(old_seen.contains(a.bits()));
                    assert(old_keys.contains(a));
                    let j = choose|j: int| 0 <= j < old_keys.len() && old_keys[j] == a;
                    assert(keys[j] == a);
                } else {
                    assert(a == archetype);
                    assert(keys[old_keys.len() as int] == a);
                }
            }
        }
    }

    /// When every table has been seen, the walk has visited the chosen ones.
    proof fn lemma_walk_done(
        w: WorldView,
        dom: Set<u128>,
        all: Seq<u128>,
        done: bool,
        seen: Seq<u128>,
        keys: Seq<Archetype>,
        chosen: spec_fn(Archetype) -> bool,
        live_only: bool,
        out: Seq<nat>,
    )
        requires
            forall|a: Archetype| w.tables.contains_key(a) == dom.contains(a.bits()),
            done ==> seen.to_set() == dom,
            keys.no_duplicates(),
            forall|a: Archetype| keys.contains(a) <==> (seen.contains(a.bits()) && chosen(a)),
            out == w.rows(keys, live_only),
        ensures
            done ==> w.visits(chosen, live_only, out),
    {
        if done {
            assert forall|a: Archetype|
                keys.contains(a) <==> (w.tables.contains_key(a) && chosen(a)) by {
                if seen.contains(a.bits()) {
                    assert(seen.to_set().contains(a.bits()));
                }
                if w.tables.contains_key(a) {
                    assert(seen.to_set().contains(a.bits()));
                }
            }
        }
    }

    /// The live entities whose archetype meets `query`: table after table in
    /// some order of the tables, and the entities of a table in the order of
    /// their rows.
    pub fn query(&self, query: &Query) -> (out: Vec<Entity>)
        requires
            self.wf(),
        ensures
            self@.visits(|a: Archetype| query.matches(a), true, numbers(out@)),
    {
        let pick = Pick::Matching(query);
        let out = self.collect(&pick, true);
        proof {
            let f = |a: Archetype| pick.chosen(a);
            let g = |a: Archetype| query.matches(a);
            assert(f =~= g);
        }
        out
    }

    /// The entities in the rows of the table of `archetype`, in the order of
    /// the rows. A dead row gives `Entity(0)`.
    pub fn for_each_with_archetype(&self, archetype: Archetype) -> (out: Vec<Entity>)
        requires
            self.wf(),
        ensures
            numbers(out@) == if self@.tables.contains_key(archetype) {
                self@.tables[archetype].rows(false)
            } else {
                Seq::empty()
            },
    {
        let mut out: Vec<Entity> = Vec::new();
        proof {
            assert(numbers(out@) =~= Seq::<nat>::empty());
        }
        match self.tables.get(&archetype.bits()) {
            Some(table) => {
                proof {
                    assert(self@.tables.contains_key(archetype));
                    assert(self@.table_ok(archetype));
                    assert(archetype.has(0));
                    assert forall|row: nat| row < table@.end implies #[trigger] table@.readable(
                        0,
                        row,
                    ) by {}
                    assert(Seq::<nat>::empty() + table@.rows(false) =~= table@.rows(false));
                }
                Self::push_rows(table, false, &mut out);
            },
            None => {},
        }
        out
    }

    /// The entities in the rows of the tables whose archetype has every member
    /// of `archetype`: table after table in some order of the tables, and the
    /// rows of a table in their order. A dead row gives `Entity(0)`.
    pub fn for_each_with_archetype_subset(&self, archetype: Archetype) -> (out: Vec<Entity>)
        requires
            self.wf(),
        ensures
            self@.visits(|a: Archetype| archetype@.subset_of(a@), false, numbers(out@)),
    {
        let pick = Pick::Superset(archetype);
        let out = self.collect(&pick, false);
        proof {
            let f = |a: Archetype| pick.chosen(a);
            let g = |a: Archetype| archetype@.subset_of(a@);
            assert(f =~= g);
        }
        out
    }

    /// Adds `component` to `entity`: at once while no system runs, else when
    /// the last running system has finished.
    pub fn add_component<T: Component>(&mut self, entity: Entity, component: T)
        requires
            old(self).wf(),
            0 < T::spec_metadata().index() < MAX_COMPONENTS,
        ensures
            final(self).wf(),
            final(self)@ == old(self)@.issue(
                CommandView::Add {
                    entity: entity.0 as nat,
                    value: ValueView { id: T::spec_metadata().index(), bytes: component.bytes() },
                },
            ),
    {
        let ghost c = CommandView::Add {
            entity: entity.0 as nat,
            value: ValueView { id: T::spec_metadata().index(), bytes: component.bytes() },
        };
        let bytes = component.to_bytes();
        if self.num_systems_running == 0 {
            let _ = self._add_component(entity, T::metadata_static(), bytes.as_slice());
        } else {
            let ghost w0 = self@;
            self.cmd_queue.push(Cmd::AddComponent((entity, T::metadata_static(), bytes)));
            proof {
                assert(self@.commands =~= w0.commands.push(c));
                assert(self@ == w0.issue(c));
                w0.lemma_issue(c);
            }
        }
    }

    /// Removes the component of type `T` from `entity`: at once while no system
    /// runs, else when the last running system has finished.
    pub fn remove_component<T: Component>(&mut self, entity: Entity)
        requires
            old(self).wf(),
            0 < T::spec_metadata().index() < MAX_COMPONENTS,
        ensures
            final(self).wf(),
            final(self)@ == old(self)@.issue(
                CommandView::Remove { entity: entity.0 as nat, id: T::spec_metadata().index() },
            ),
    {
        let ghost c = CommandView::Remove {
            entity: entity.0 as nat,
            id: T::spec_metadata().index(),
        };
        if self.num_systems_running == 0 {
            let _ = self._remove_component(entity, T::metadata_static());
        } else {
            let ghost w0 = self@;
            self.cmd_queue.push(Cmd::RemoveComponent((entity, T::metadata_static())));
            proof {
                assert(self@.commands =~= w0.commands.push(c));
                assert(self@ == w0.issue(c));
                w0.lemma_issue(c);
            }
        }
    }

    /// Counts one more running system.
    fn increment_num_running_systems(&mut self) -> (n: usize)
        requires
            old(self).wf(),
            old(self)@.running < usize::MAX,
        ensures
            final(self).wf(),
            final(self)@ == old(self)@.begin_run(),
            n == final(self)@.running,
    {
        let ghost w0 = self@;
        self.num_systems_running = self.num_systems_running + 1;
        proof {
            assert(self@.commands =~= w0.commands);
            assert(self@ == w0.begin_run());
            w0.lemma_run();
        }
        self.num_systems_running
    }

    /// Counts one running system less.
    fn decrement_num_running_systems(&mut self) -> (n: usize)
        requires
            old(self).wf(),
            old(self)@.running > 0,
        ensures
            final(self).wf(),
            final(self)@ == (WorldView { running: (old(self)@.running - 1) as nat, ..old(self)@ }),
            n == final(self)@.running,
    {
        let ghost w0 = self@;
        self.num_systems_running = self.num_systems_running - 1;
        proof {
            let w1 = WorldView { running: (w0.running - 1) as nat, ..w0 };
            assert(self@.commands =~= w0.commands);
            assert(self@ == w1);
            w0.lemma_same_entities(w1);
        }
        self.num_systems_running
    }

    /// Carries out the structural changes that wait, in the order they were
    /// issued, and empties the queue.
    fn flush(&mut self)
        requires
            old(self).wf(),
        ensures
            final(self).wf(),
            final(self)@ == old(self)@.flush(),
    {
        let ghost w0 = self@;
        let ghost cs = w0.commands;
        let ghost cleared = WorldView { commands: Seq::empty(), ..w0 };
        let mut queue: Vec<Cmd> = Vec::new();
        std::mem::swap(&mut queue, &mut self.cmd_queue);
        proof {
            assert(self@.commands =~= cleared.commands);
            assert(self@ == cleared);
            w0.lemma_same_entities(cleared);
            assert(cs.take(0) =~= Seq::<CommandView>::empty());
        }
        let mut i: usize = 0;
        while i < queue.len()
            invariant
                i <= queue.len(),
                self.wf(),
                cs.len() == queue@.len(),
                forall|j: int| 0 <= j < queue@.len() ==> (#[trigger] queue@[j])@ == cs[j],
                forall|j: int| 0 <= j < queue@.len() ==> (#[trigger] queue@[j]).sized(),
                forall|j: int| 0 <= j < cs.len() ==> (#[trigger] cs[j]).valid(),
                self@ == cleared.apply_all(cs.take(i as int)),
            decreases queue.len() - i,
        {
            proof {
                assert(cs.take(i + 1).drop_last() =~= cs.take(i as int));
                assert(cs.take(i + 1).last() == cs[i as int]);
                assert(queue@[i as int]@ == cs[i as int]);
                assert(queue@[i as int].sized());
                assert(cs[i as int].valid());
            }
            match &queue[i] {
                Cmd::AddComponent((entity, metadata, bytes)) => {
                    let _ = self._add_component(*entity, *metadata, bytes.as_slice());
                },
                Cmd::RemoveComponent((entity, metadata)) => {
                    let _ = self._remove_component(*entity, *metadata);
                },
            }
            i += 1;
        }
        proof {
            assert(cs.take(queue.len() as int) =~= cs);
        }
    }

    /// Runs `system` on the world. Structural changes that the system issues
    /// wait until it has finished, and until every system that was running
    /// when it started has finished too; then they are carried out in the
    /// order they were issued.
    pub fn run<S: System>(&mut self, system: &mut S)
        requires
            old(self).wf(),
            old(self)@.running < usize::MAX,
        ensures
            final(self).wf(),
            final(self)@.running == old(self)@.running,
            old(self)@.running == 0 ==> final(self)@.commands.len() == 0,
            exists|left: WorldView|
                left.wf() && left.running == old(self)@.running + 1 && final(self)@
                    == #[trigger] left.end_run(),
    {
        self.increment_num_running_systems();
        system.run(self);
        let ghost left = self@;
        let num_running_systems = self.decrement_num_running_systems();
        if num_running_systems == 0 {
            self.flush();
        }
        proof {
            left.lemma_run();
            assert(self@ == left.end_run());
        }
    }
}

impl Default for World {
    fn default() -> (w: Self)
        ensures
            w.wf(),
            w@ == WorldView::empty(),
    {
        Self::new()
    }
}

/// A piece of logic that works on the world while the world counts it as running.
pub trait System {
    /// Works on the world. Whatever it does through the world's functions
    /// keeps the world well formed; it leaves the count of running systems as
    /// it found it.
    fn run(&mut self, world: &mut World)
        requires
            old(world).wf(),
            old(world)@.running > 0,
        ensures
            final(world).wf(),
            final(world)@.running == old(world)@.running,
    ;
}

} // verus!
