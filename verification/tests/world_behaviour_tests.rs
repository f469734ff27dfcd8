use ecs::archetype::Archetype;
use ecs::component::{Component, ComponentId, ComponentValue, Metadata};
use ecs::{ArchetypeBuilder, Entity, Query, QueryParam, System, With, Without, World};

struct A(u32);

struct B(bool);

struct C(u64);

impl Component for A {
    fn metadata(&self) -> Metadata {
        Self::metadata_static()
    }

    fn metadata_static() -> Metadata {
        Metadata::new(ComponentId(1), 4, 4, "A")
    }

    fn to_bytes(&self) -> Vec<u8> {
        self.0.to_le_bytes().to_vec()
    }

    fn from_bytes(bytes: &[u8]) -> Self {
        A(u32::from_le_bytes([bytes[0], bytes[1], bytes[2], bytes[3]]))
    }
}

impl Component for B {
    fn metadata(&self) -> Metadata {
        Self::metadata_static()
    }

    fn metadata_static() -> Metadata {
        Metadata::new(ComponentId(2), 1, 1, "B")
    }

    fn to_bytes(&self) -> Vec<u8> {
        vec![self.0 as u8]
    }

    fn from_bytes(bytes: &[u8]) -> Self {
        B(bytes[0] != 0)
    }
}

impl Component for C {
    fn metadata(&self) -> Metadata {
        Self::metadata_static()
    }

    fn metadata_static() -> Metadata {
        Metadata::new(ComponentId(3), 8, 8, "C")
    }

    fn to_bytes(&self) -> Vec<u8> {
        self.0.to_le_bytes().to_vec()
    }

    fn from_bytes(bytes: &[u8]) -> Self {
        let mut word = [0u8; 8];
        word.copy_from_slice(bytes);
        C(u64::from_le_bytes(word))
    }
}

fn numbers(entities: &[Entity]) -> Vec<u32> {
    let mut out: Vec<u32> = entities.iter().map(|e| e.0).collect();
    out.sort();
    out
}

#[test]
fn spawned_bundle_is_what_lookups_return() {
    let mut world = World::new();
    let e = world.spawn((A(7), C(0x0102_0304_0506_0708)));
    assert_eq!(e, Entity(1));
    assert_eq!(world.component::<A>(e).unwrap().0, 7);
    assert_eq!(world.component::<C>(e).unwrap().0, 0x0102_0304_0506_0708);
    assert!(world.component::<B>(e).is_none());
    assert!(!world.has_component::<B>(e));
    assert_eq!(
        world.component_by_id(e, ComponentId(3)).unwrap(),
        &[8u8, 7, 6, 5, 4, 3, 2, 1][..]
    );
    assert_eq!(world.component_by_id(e, ComponentId(0)).unwrap(), &[1u8, 0, 0, 0][..]);
    assert!(world.component_by_id(e, ComponentId(2)).is_none());
    assert!(world.component_by_id(e, ComponentId(200)).is_none());
    assert_eq!(world.component::<Entity>(e).unwrap(), e);
}

#[test]
fn later_value_of_one_type_wins_in_a_bundle() {
    let mut world = World::new();
    let e = world.spawn((A(1), A(2)));
    assert_eq!(world.component::<A>(e).unwrap().0, 2);
}

#[test]
fn spawn_leaves_other_entities_alone() {
    let mut world = World::new();
    let e1 = world.spawn((A(1), B(true)));
    let e2 = world.spawn((A(2), B(false)));
    let e3 = world.spawn(A(3));
    assert_eq!(world.component::<A>(e1).unwrap().0, 1);
    assert!(world.component::<B>(e1).unwrap().0);
    assert_eq!(world.component::<A>(e2).unwrap().0, 2);
    assert!(!world.component::<B>(e2).unwrap().0);
    assert_eq!(world.component::<A>(e3).unwrap().0, 3);
    assert_eq!(world.location(e1).unwrap().1, 0);
    assert_eq!(world.location(e2).unwrap().1, 1);
    assert_eq!(world.location(e3).unwrap().1, 0);
    assert_eq!(world.num_entities_max(), 4);
}

#[test]
fn add_then_remove_keeps_the_other_components() {
    let mut world = World::new();
    let e = world.spawn((A(11), B(true)));
    let before = world.location(e).unwrap().0;

    assert!(world
        ._add_component(e, C::metadata_static(), &C(99).to_bytes())
        .is_ok());
    assert_eq!(world.component::<A>(e).unwrap().0, 11);
    assert!(world.component::<B>(e).unwrap().0);
    assert_eq!(world.component::<C>(e).unwrap().0, 99);
    assert!(world.location(e).unwrap().0 != before);

    assert!(world._remove_component(e, C::metadata_static()).is_ok());
    assert_eq!(world.component::<A>(e).unwrap().0, 11);
    assert!(world.component::<B>(e).unwrap().0);
    assert!(world.component::<C>(e).is_none());
    assert!(world.location(e).unwrap().0 == before);
    assert_eq!(world.location(e).unwrap().1, 0);
}

#[test]
fn removing_twice_fails_the_second_time() {
    let mut world = World::new();
    let e = world.spawn((A(1), B(true)));
    assert!(world._remove_component(e, B::metadata_static()).is_ok());
    let place = world.location(e).unwrap();
    assert!(world._remove_component(e, B::metadata_static()).is_err());
    assert!(world.location(e).unwrap() == place);
    assert_eq!(world.component::<A>(e).unwrap().0, 1);
    assert!(!world.has_component::<B>(e));
}

#[test]
fn adding_what_is_there_fails() {
    let mut world = World::new();
    let e = world.spawn(A(1));
    assert!(world
        ._add_component(e, A::metadata_static(), &A(5).to_bytes())
        .is_err());
    assert_eq!(world.component::<A>(e).unwrap().0, 1);
}

#[test]
fn structural_changes_fail_for_entities_that_are_not_alive() {
    let mut world = World::new();
    let e = world.spawn(A(1));
    world.despawn(e);
    assert!(world
        ._add_component(e, B::metadata_static(), &B(true).to_bytes())
        .is_err());
    assert!(world._remove_component(e, A::metadata_static()).is_err());
    assert!(world
        ._add_component(Entity(77), B::metadata_static(), &B(true).to_bytes())
        .is_err());
    assert!(world
        ._add_component(Entity(0), B::metadata_static(), &B(true).to_bytes())
        .is_err());
}

#[test]
fn adding_fails_where_the_column_has_another_stride() {
    let mut world = World::new();
    world.spawn((A(1), B(true)));
    let e = world.spawn(A(2));
    // a value of two bytes for the component type whose column holds one byte
    let wide = Metadata::new(ComponentId(2), 2, 1, "B");
    assert!(world._add_component(e, wide, &[1, 2]).is_err());
    assert_eq!(world.component::<A>(e).unwrap().0, 2);
    assert!(!world.has_component::<B>(e));
}

#[test]
fn despawned_number_is_reused_least_first() {
    let mut world = World::new();
    let e1 = world.spawn(A(1));
    let e2 = world.spawn(A(2));
    let e3 = world.spawn(A(3));
    world.despawn(e3);
    world.despawn(e1);
    assert!(world.component::<A>(e1).is_none());
    assert!(world.component::<A>(e3).is_none());
    assert!(world.location(e1).is_none());
    assert_eq!(world.spawn(B(true)), e1);
    assert_eq!(world.spawn(B(true)), e3);
    assert_eq!(world.spawn(B(true)), Entity(4));
    assert_eq!(world.component::<A>(e2).unwrap().0, 2);
    assert!(world.component::<A>(e1).is_none());
}

#[test]
fn despawn_frees_the_row_for_the_next_entity_of_the_table() {
    let mut world = World::new();
    let e1 = world.spawn(A(1));
    let e2 = world.spawn(A(2));
    let e3 = world.spawn(A(3));
    world.despawn(e2);
    world.despawn(e1);
    let e = world.spawn(A(4));
    assert_eq!(e, e1);
    assert_eq!(world.location(e).unwrap().1, 0);
    let f = world.spawn(A(5));
    assert_eq!(f, e2);
    assert_eq!(world.location(f).unwrap().1, 1);
    assert_eq!(world.location(e3).unwrap().1, 2);
}

#[test]
fn despawn_does_nothing_for_the_mark_and_for_the_dead() {
    let mut world = World::new();
    let e = world.spawn(A(1));
    world.despawn(Entity(0));
    world.despawn(Entity(9));
    assert_eq!(world.component::<A>(e).unwrap().0, 1);
    world.despawn(e);
    world.despawn(e);
    assert_eq!(world.spawn(A(2)), e);
    assert_eq!(world.spawn(A(3)), Entity(2));
}

#[test]
fn insert_takes_the_number_it_is_given() {
    let mut world = World::new();
    let e = world.insert(Entity(5), (A(50), B(true)));
    assert_eq!(e, Entity(5));
    assert_eq!(world.num_entities_max(), 6);
    assert_eq!(world.component::<A>(e).unwrap().0, 50);
    for gap in 1..5 {
        assert!(world.location(Entity(gap)).is_none());
    }
    // the numbers in the gap were never handed out and are not free for reuse
    assert_eq!(world.spawn(A(1)), Entity(6));

    world.despawn(Entity(5));
    assert_eq!(world.insert(Entity(5), A(51)), Entity(5));
    assert_eq!(world.component::<A>(Entity(5)).unwrap().0, 51);
    // number 5 is no longer free
    assert_eq!(world.spawn(A(2)), Entity(7));
}

#[test]
fn slices_of_values_spawn_and_insert() {
    let mut world = World::new();
    let bundle = vec![
        ComponentValue::of(&A(3)),
        ComponentValue::new(B::metadata_static(), vec![1]).unwrap(),
    ];
    let e = world.spawn_from_slice_of_boxes(&bundle);
    assert_eq!(e, Entity(1));
    assert_eq!(world.component::<A>(e).unwrap().0, 3);
    assert!(world.component::<B>(e).unwrap().0);

    let f = world.insert_from_slice_of_boxes(Entity(4), &bundle);
    assert_eq!(f, Entity(4));
    assert_eq!(world.num_entities_max(), 5);
    assert_eq!(world.component::<A>(f).unwrap().0, 3);
    assert!(world.location(e).unwrap().0 == world.location(f).unwrap().0);
    assert_eq!(world.location(f).unwrap().1, 1);
}

#[test]
fn value_needs_as_many_bytes_as_its_metadata_says() {
    assert!(ComponentValue::new(A::metadata_static(), vec![1, 2, 3]).is_none());
    assert!(ComponentValue::new(A::metadata_static(), vec![1, 2, 3, 4, 5]).is_none());
    let value = ComponentValue::new(A::metadata_static(), vec![1, 2, 3, 4]).unwrap();
    assert_eq!(value.bytes(), &[1u8, 2, 3, 4][..]);
    assert_eq!(value.metadata().id(), ComponentId(1));
    assert_eq!(ComponentValue::of(&A(0x0403_0201)).bytes(), &[1u8, 2, 3, 4][..]);
}

#[test]
fn component_mut_refuses_the_entity_column() {
    let mut world = World::new();
    let e = world.spawn(A(1));
    assert!(world.component_mut::<Entity>(e).is_none());
    assert!(world.component_mut_by_id(e, ComponentId(0)).is_none());
    assert!(world.component_mut_by_id(e, ComponentId(128)).is_none());
    world.component_mut_by_id(e, ComponentId(1)).unwrap()[0] = 9;
    assert_eq!(world.component::<A>(e).unwrap().0, 9);
    world.destroy_component::<A>(e);
    assert_eq!(world.component::<A>(e).unwrap().0, 9);
}

struct AddCWhileRunning {
    target: Entity,
    visited: Vec<u32>,
    seen_c_inside: bool,
}

impl System for AddCWhileRunning {
    fn run(&mut self, world: &mut World) {
        let query = Query::new().read::<A>();
        for entity in world.query(&query) {
            world.add_component(self.target, C(5));
            world.remove_component::<B>(self.target);
            if world.has_component::<C>(self.target) || !world.has_component::<B>(self.target) {
                self.seen_c_inside = true;
            }
            self.visited.push(entity.0);
        }
        let with_c = Query::new().read::<A>().with::<C>();
        if !world.query(&with_c).is_empty() {
            self.seen_c_inside = true;
        }
    }
}

#[test]
fn changes_issued_by_a_system_wait_until_it_has_finished() {
    let mut world = World::new();
    let e1 = world.spawn((A(1), B(true)));
    let e2 = world.spawn((A(2), B(true)));
    let mut system = AddCWhileRunning { target: e1, visited: Vec::new(), seen_c_inside: false };
    world.run(&mut system);
    assert!(!system.seen_c_inside);
    system.visited.sort();
    assert_eq!(system.visited, vec![1, 2]);

    assert_eq!(world.component::<C>(e1).unwrap().0, 5);
    assert!(!world.has_component::<B>(e1));
    assert_eq!(world.component::<A>(e1).unwrap().0, 1);
    assert!(world.has_component::<B>(e2));
    let with_c = Query::new().read::<A>().with::<C>();
    assert_eq!(world.query(&with_c), vec![e1]);
}

struct Outer {
    target: Entity,
    seen_inside_inner: bool,
    seen_after_inner: bool,
}

struct Inner {
    target: Entity,
}

impl System for Inner {
    fn run(&mut self, world: &mut World) {
        world.add_component(self.target, B(true));
    }
}

impl System for Outer {
    fn run(&mut self, world: &mut World) {
        let mut inner = Inner { target: self.target };
        world.run(&mut inner);
        self.seen_inside_inner = world.has_component::<B>(self.target);
        world.remove_component::<A>(self.target);
        self.seen_after_inner = !world.has_component::<A>(self.target);
    }
}

#[test]
fn changes_of_a_nested_system_wait_for_the_outermost() {
    let mut world = World::new();
    let e = world.spawn(A(1));
    let mut outer = Outer { target: e, seen_inside_inner: false, seen_after_inner: false };
    world.run(&mut outer);
    assert!(!outer.seen_inside_inner);
    assert!(!outer.seen_after_inner);
    assert!(world.has_component::<B>(e));
    assert!(!world.has_component::<A>(e));
}

#[test]
fn changes_apply_at_once_while_no_system_runs() {
    let mut world = World::new();
    let e = world.spawn(A(1));
    world.add_component(e, B(true));
    assert!(world.component::<B>(e).unwrap().0);
    world.remove_component::<A>(e);
    assert!(!world.has_component::<A>(e));
}

#[test]
fn query_visits_what_matches_and_nothing_else() {
    let mut world = World::new();
    let only_a = world.spawn(A(1));
    let a_b = world.spawn((A(2), B(true)));
    let a_c = world.spawn((A(3), C(1)));
    let only_b = world.spawn(B(false));

    let query = Query::new().read::<A>().without::<B>();
    assert_eq!(numbers(&world.query(&query)), vec![only_a.0, a_c.0]);

    let all_a = Query::new().write::<A>();
    assert_eq!(numbers(&world.query(&all_a)), vec![only_a.0, a_b.0, a_c.0]);

    let everything = Query::new();
    assert_eq!(numbers(&world.query(&everything)), vec![1, 2, 3, 4]);

    let optional = Query::new().optional_read::<C>().with::<B>();
    assert_eq!(numbers(&world.query(&optional)), vec![a_b.0, only_b.0]);

    let nothing = Query::new().with::<B>().without::<B>();
    assert!(world.query(&nothing).is_empty());
}

#[test]
fn query_follows_the_rows_of_a_table_and_skips_dead_rows() {
    let mut world = World::new();
    let e1 = world.spawn(A(1));
    let e2 = world.spawn(A(2));
    let e3 = world.spawn(A(3));
    let e4 = world.spawn(A(4));
    world.despawn(e2);
    let query = Query::new().read::<A>();
    assert_eq!(world.query(&query), vec![e1, e3, e4]);
    let e5 = world.spawn(A(5));
    assert_eq!(e5, e2);
    assert_eq!(world.query(&query), vec![e1, e5, e3, e4]);
}

#[test]
fn walks_over_tables_show_dead_rows_as_the_mark() {
    let mut world = World::new();
    let e1 = world.spawn(A(1));
    let e2 = world.spawn(A(2));
    let e3 = world.spawn((A(3), B(true)));
    world.despawn(e1);

    let just_a = ArchetypeBuilder::new().set::<A>().build();
    assert_eq!(world.for_each_with_archetype(just_a), vec![Entity(0), e2]);

    let unknown = ArchetypeBuilder::new().set::<C>().build();
    assert!(world.for_each_with_archetype(unknown).is_empty());

    assert_eq!(
        numbers(&world.for_each_with_archetype_subset(just_a)),
        vec![0, e2.0, e3.0]
    );
    let a_b = ArchetypeBuilder::new().set::<A>().set::<B>().build();
    assert_eq!(world.for_each_with_archetype_subset(a_b), vec![e3]);
    assert!(world.for_each_with_archetype_subset(unknown).is_empty());
}

#[test]
fn query_parameters_match_as_their_kind_says() {
    let a = ArchetypeBuilder::new().set::<A>().build();
    let id_a = ComponentId(1);
    let id_b = ComponentId(2);
    assert!(QueryParam::Read(id_a).match_archetype(&a));
    assert!(QueryParam::Write(id_a).match_archetype(&a));
    assert!(QueryParam::With(id_a).match_archetype(&a));
    assert!(!QueryParam::Without(id_a).match_archetype(&a));
    assert!(!QueryParam::Read(id_b).match_archetype(&a));
    assert!(!QueryParam::Write(id_b).match_archetype(&a));
    assert!(!QueryParam::With(id_b).match_archetype(&a));
    assert!(QueryParam::Without(id_b).match_archetype(&a));
    assert!(QueryParam::OptionalRead(id_b).match_archetype(&a));
    assert!(QueryParam::OptionalWrite(id_b).match_archetype(&a));
    assert!(QueryParam::Read(ComponentId(0)).match_archetype(&a));
    assert!(!QueryParam::Read(ComponentId(500)).match_archetype(&a));
    assert_eq!(With::<A>::param(), QueryParam::With(id_a));
    assert_eq!(Without::<B>::param(), QueryParam::Without(id_b));
    assert!(Query::new().read::<A>().match_archetype(&a));
    assert!(!Query::new().read::<A>().read::<B>().match_archetype(&a));
}

#[test]
fn archetypes_are_sets_of_component_numbers() {
    let empty = ArchetypeBuilder::new().build();
    assert!(empty.contains(Entity::metadata_static()));
    assert!(!empty.contains(A::metadata_static()));
    assert_eq!(empty.bits(), 1);

    let mut builder = ArchetypeBuilder::new();
    builder.set_from_metadata(A::metadata_static()).set_from_metadata(C::metadata_static());
    let a_c = builder.build();
    assert_eq!(a_c.bits(), 0b1011);
    assert!(a_c == ArchetypeBuilder::new().set::<C>().set::<A>().build());
    assert!(a_c != empty);
    assert!(empty.subset_of(a_c));
    assert!(!a_c.subset_of(empty));
    assert!(a_c.subset_of(a_c));
    assert!(Archetype::from_bits(0).subset_of(empty));
    assert!(a_c.contains_id(3));
    assert!(!a_c.contains_id(2));
    assert!(!a_c.contains_id(128));
    assert!(!a_c.contains_id(usize::MAX));

    let mut other = Archetype::new();
    assert_eq!(other.bits(), 0);
    other.set_id(127);
    assert_eq!(other.bits(), 1u128 << 127);
    assert!(other.contains_id(127));
    other.set(B::metadata_static());
    other.unset_id(127);
    assert_eq!(other.bits(), 0b100);
    other.unset(B::metadata_static());
    other.unset(B::metadata_static());
    assert_eq!(other.bits(), 0);
}

#[test]
fn metadata_hands_back_its_parts() {
    let m = Metadata::new(ComponentId(9), 24, 8, "Nine");
    assert_eq!(m.id(), ComponentId(9));
    assert_eq!(*m.id(), 9);
    assert_eq!(m.size(), 24);
    assert_eq!(m.align(), 8);
    assert_eq!(m.name(), "Nine");
    let e = Entity::metadata_static();
    assert_eq!(e.id(), ComponentId(0));
    assert_eq!(e.size(), 4);
    assert_eq!(e.align(), 4);
    assert_eq!(e.name(), "Entity");
    assert!(Entity(3).metadata() == e);
    assert_eq!(Entity(0x0102_0304).to_bytes(), vec![4, 3, 2, 1]);
    assert_eq!(Entity::from_bytes(&[4, 3, 2, 1]), Entity(0x0102_0304));
    assert_eq!(*Entity(12), 12);
}

#[test]
fn a_new_store_is_empty() {
    let world = World::new();
    assert_eq!(world.num_entities_max(), 1);
    assert!(world.location(Entity(0)).is_none());
    assert!(world.location(Entity(1)).is_none());
    assert!(world.query(&Query::new()).is_empty());
    let other = World::default();
    assert_eq!(other.num_entities_max(), 1);
}

struct DoubleA {
    visited: Vec<Entity>,
}

impl System for DoubleA {
    fn run(&mut self, world: &mut World) {
        let query = Query::new().write::<A>();
        for entity in world.query(&query) {
            let a = world.component::<A>(entity).unwrap();
            world
                .component_mut::<A>(entity)
                .unwrap()
                .copy_from_slice(&A(a.0 * 2).to_bytes());
            self.visited.push(entity);
        }
    }
}

#[test]
fn query_reaches_every_a_once_and_lets_it_change() {
    let mut world = World::new();
    let e1 = world.spawn(A(1));
    let e2 = world.spawn((A(2), B(true)));
    let e3 = world.spawn(A(10));

    let mut system = DoubleA { visited: Vec::new() };
    world.run(&mut system);

    assert_eq!(numbers(&system.visited), vec![1, 2, 3]);
    // entities of one table come in the order of their rows
    let first = system.visited.iter().position(|e| *e == e1).unwrap();
    let third = system.visited.iter().position(|e| *e == e3).unwrap();
    assert!(first < third);
    assert_eq!(world.component::<A>(e1).unwrap().0, 2);
    assert_eq!(world.component::<A>(e2).unwrap().0, 4);
    assert_eq!(world.component::<A>(e3).unwrap().0, 20);
    assert!(world.component::<B>(e2).unwrap().0);
}

#[test]
fn freed_number_is_reused_and_lookups_are_absent_until_then() {
    let mut world = World::new();
    let old = world.spawn(A(1));
    world.despawn(old);
    assert!(world.component::<A>(old).is_none());
    assert!(world.component_mut::<A>(old).is_none());
    assert!(!world.has_component::<A>(old));
    assert!(!world.has_component::<Entity>(old));
    assert!(world.location(old).is_none());

    let new = world.spawn(B(true));
    assert_eq!(new, old);
    assert_eq!(world.num_entities_max(), 2);
    assert!(world.component::<B>(new).unwrap().0);
    assert!(world.component::<A>(new).is_none());
}

#[test]
fn bundles_tell_whether_they_can_be_spawned() {
    use_bundle_checks();
}

struct Far;

impl Component for Far {
    fn metadata(&self) -> Metadata {
        Self::metadata_static()
    }

    fn metadata_static() -> Metadata {
        Metadata::new(ComponentId(128), 0, 1, "Far")
    }

    fn to_bytes(&self) -> Vec<u8> {
        Vec::new()
    }

    fn from_bytes(_: &[u8]) -> Self {
        Far
    }
}

fn use_bundle_checks() {
    use_checks_on(A(1), true);
    use_checks_on((A(1), B(true)), true);
    use_checks_on((A(1), B(true), C(3)), true);
    use_checks_on(Entity(3), false);
    use_checks_on(Far, false);
    use_checks_on((A(1), Far), false);
    use_checks_on((Entity(1), A(1), B(true)), false);
    let values = vec![ComponentValue::of(&A(1)), ComponentValue::of(&B(true))];
    use_checks_on(&values[..], true);
    let values = vec![ComponentValue::of(&A(1)), ComponentValue::of(&Entity(2))];
    use_checks_on(&values[..], false);
    let values: Vec<ComponentValue> = Vec::new();
    use_checks_on(&values[..], true);
}

fn use_checks_on<T: ecs::Bundle>(bundle: T, expected: bool) {
    assert_eq!(bundle.is_valid(), expected);
}

#[test]
fn bundle_sets_its_archetype_and_writes_its_row() {
    let bundle = (A(5), C(6));
    let mut archetype = Archetype::new();
    ecs::Bundle::set_archetype(&bundle, &mut archetype);
    assert_eq!(archetype.bits(), 0b1010);
    let mut table = ecs::table::Table::new();
    ecs::Bundle::write_self_to_table(bundle, 2, &mut table);
    assert_eq!(table.try_read::<A>(2).unwrap().0, 5);
    assert_eq!(table.try_read::<C>(2).unwrap().0, 6);
    assert!(!table.has_component::<B>());
}

#[test]
fn bundle_of_twelve_components_spawns() {
    let mut world = World::new();
    let e = world.spawn((
        A(1),
        B(true),
        C(3),
        A(4),
        B(false),
        C(6),
        A(7),
        B(true),
        C(9),
        A(10),
        B(false),
        C(12),
    ));
    assert_eq!(world.component::<A>(e).unwrap().0, 10);
    assert!(!world.component::<B>(e).unwrap().0);
    assert_eq!(world.component::<C>(e).unwrap().0, 12);
}
