use ecs::component::{Component, ComponentId, Metadata};
use ecs::{ArchetypeBuilder, Entity, Query, System, World};

struct A(u32);

struct B(bool);

struct C(Option<&'static str>);

struct Z {}

impl Component for A {
    fn metadata(&self) -> Metadata {
        Self::metadata_static()
    }

    fn metadata_static() -> Metadata {
        Metadata::new(ComponentId(1), 4, 4, "A")
    }

    fn to_bytes(&self) -> Vec<u8> {
        self.0.to_le_bytes().to_vec()
    }

    fn from_bytes(bytes: &[u8]) -> Self {
        A(u32::from_le_bytes([bytes[0], bytes[1], bytes[2], bytes[3]]))
    }
}

impl Component for B {
    fn metadata(&self) -> Metadata {
        Self::metadata_static()
    }

    fn metadata_static() -> Metadata {
        Metadata::new(ComponentId(2), 1, 1, "B")
    }

    fn to_bytes(&self) -> Vec<u8> {
        vec![self.0 as u8]
    }

    fn from_bytes(bytes: &[u8]) -> Self {
        B(bytes[0] != 0)
    }
}

// The image of a `C` is one byte that holds 0 for `None` and else the length
// of the text plus one, and the text in the fifteen bytes behind it.
impl Component for C {
    fn metadata(&self) -> Metadata {
        Self::metadata_static()
    }

    fn metadata_static() -> Metadata {
        Metadata::new(ComponentId(3), 16, 8, "C")
    }

    fn to_bytes(&self) -> Vec<u8> {
        let mut bytes = vec![0u8; 16];
        if let Some(text) = self.0 {
            assert!(text.len() < 16);
            bytes[0] = text.len() as u8 + 1;
            bytes[1..1 + text.len()].copy_from_slice(text.as_bytes());
        }
        bytes
    }

    fn from_bytes(bytes: &[u8]) -> Self {
        if bytes[0] == 0 {
            C(None)
        } else {
            let len = bytes[0] as usize - 1;
            let text = String::from_utf8(bytes[1..1 + len].to_vec()).unwrap();
            C(Some(Box::leak(text.into_boxed_str())))
        }
    }
}

impl Component for Z {
    fn metadata(&self) -> Metadata {
        Self::metadata_static()
    }

    fn metadata_static() -> Metadata {
        Metadata::new(ComponentId(4), 0, 1, "Z")
    }

    fn to_bytes(&self) -> Vec<u8> {
        Vec::new()
    }

    fn from_bytes(_: &[u8]) -> Self {
        Z {}
    }
}

fn set_a(world: &mut World, entity: Entity, value: u32) {
    world
        .component_mut::<A>(entity)
        .unwrap()
        .copy_from_slice(&A(value).to_bytes());
}

#[test]
fn get_component() {
    let mut world = World::new();

    let entity_ref = world.spawn((A(42u32), B(false), C(Some("a"))));
    assert_eq!(entity_ref.0, 1);

    let (_, index) = world.location(Entity(1)).unwrap();
    assert_eq!(index, 0);

    assert_eq!(world.component::<A>(Entity(1)).unwrap().0, 42);
    assert!(!world.component::<B>(Entity(1)).unwrap().0);
    assert_eq!(world.component::<C>(Entity(1)).unwrap().0, Some("a"));

    // repeat in different order
    assert_eq!(world.component::<C>(Entity(1)).unwrap().0, Some("a"));
    assert!(!world.component::<B>(Entity(1)).unwrap().0,);
    assert_eq!(world.component::<A>(Entity(1)).unwrap().0, 42);

    set_a(&mut world, Entity(1), 123u32);
    world
        .component_mut::<B>(Entity(1))
        .unwrap()
        .copy_from_slice(&B(true).to_bytes());

    assert_eq!(world.component::<A>(Entity(1)).unwrap().0, 123u32);
    assert!(world.component::<B>(Entity(1)).unwrap().0);

    assert!(world.has_component::<A>(Entity(1)));
    assert!(!world.has_component::<Z>(Entity(1)));
}

#[test]
fn get_nonexisting_component() {
    let mut world = World::new();

    let e = world.spawn(A(42u32));
    assert!(world.component::<B>(e).is_none());
    assert!(world.component_mut::<B>(e).is_none());
}

struct CheckAndSet<'a> {
    count: &'a mut u32,
}

impl<'a> System for CheckAndSet<'a> {
    fn run(&mut self, world: &mut World) {
        let query = Query::new().write::<A>().read::<C>();
        for entity in world.query(&query) {
            let a = world.component::<A>(entity).unwrap();
            let c = world.component::<C>(entity).unwrap();
            assert_eq!(Some(a.0.to_string().as_str()), c.0);
            set_a(world, entity, 123);
            *self.count += 1;
        }
    }
}

struct ExpectA {
    expected: u32,
    seen: u32,
}

impl System for ExpectA {
    fn run(&mut self, world: &mut World) {
        let query = Query::new().write::<A>();
        for entity in world.query(&query) {
            assert_eq!(world.component::<A>(entity).unwrap().0, self.expected);
            self.seen += 1;
        }
    }
}

#[test]
fn query() {
    let mut world = World::new();

    world.spawn((A(1u32), C(Some("1"))));
    world.spawn((A(2u32), C(Some("2")), B(true)));
    world.spawn((A(10u32), C(Some("10"))));

    let mut count = 0;
    world.run(&mut CheckAndSet { count: &mut count });
    assert_eq!(count, 3);

    let mut check = ExpectA { expected: 123, seen: 0 };
    world.run(&mut check);
    assert_eq!(check.seen, 3);
}

struct SetOptionalA;

impl System for SetOptionalA {
    fn run(&mut self, world: &mut World) {
        let query = Query::new().read::<B>().optional_write::<A>();
        for entity in world.query(&query) {
            if world.has_component::<A>(entity) {
                set_a(world, entity, 4);
            }
        }
    }
}

struct SumOptionalA {
    sum: u32,
}

impl System for SumOptionalA {
    fn run(&mut self, world: &mut World) {
        let query = Query::new().read::<B>().optional_read::<A>();
        for entity in world.query(&query) {
            if let Some(a) = world.component::<A>(entity) {
                self.sum += a.0;
            }
        }
    }
}

#[test]
fn query_with_optional() {
    let mut world = World::new();

    world.spawn((B(true), A(1)));
    world.spawn(B(true));
    world.spawn((B(true), A(5)));
    world.spawn(B(true));

    world.run(&mut SetOptionalA);

    let mut sum = SumOptionalA { sum: 0 };
    world.run(&mut sum);
    assert_eq!(sum.sum, 8);
}

struct SumEntities {
    sum: u32,
}

impl System for SumEntities {
    fn run(&mut self, world: &mut World) {
        let query = Query::new().read::<Entity>().read::<B>();
        for found in world.query(&query) {
            let entity = world.component::<Entity>(found).unwrap();
            assert_eq!(entity, found);
            self.sum += *entity - 1;
        }
    }
}

#[test]
fn query_with_entity() {
    let mut world = World::new();

    world.spawn((B(true), A(1)));
    world.spawn(B(true));
    world.spawn((B(true), A(5)));
    world.spawn(B(true));

    let mut sum = SumEntities { sum: 0 };
    world.run(&mut sum);

    assert_eq!(sum.sum, 6);
}

struct SumA {
    query: Query,
    sum: u32,
}

impl System for SumA {
    fn run(&mut self, world: &mut World) {
        for entity in world.query(&self.query) {
            self.sum += world.component::<A>(entity).unwrap().0;
        }
    }
}

#[test]
fn despawn() {
    let mut world = World::new();

    world.spawn(A(1));
    world.spawn(A(2));
    let e = world.spawn(A(3));
    world.spawn(A(4));

    world.despawn(e);

    let mut sum = SumA { query: Query::new().read::<A>(), sum: 0 };
    world.run(&mut sum);

    assert_eq!(sum.sum, 7);
}

#[test]
fn reuse_entity() {
    let mut world = World::new();

    world.spawn(A(1));
    world.spawn(A(2));
    world.spawn(A(3));
    world.spawn(A(4));
    world.spawn(A(5));

    world.despawn(Entity(3));
    assert_eq!(world.spawn(A(3)), Entity(3));
    assert_eq!(world.spawn(A(6)), Entity(6));
}

#[test]
fn with_without() {
    let mut world = World::new();

    world.spawn((A(1), B(false)));
    world.spawn(A(2));
    world.spawn((A(3), B(false)));
    world.spawn(A(4));

    let mut sum = SumA { query: Query::new().read::<A>().without::<B>(), sum: 0 };
    world.run(&mut sum);
    assert_eq!(sum.sum, 6);

    let mut sum = SumA { query: Query::new().read::<A>().with::<B>(), sum: 0 };
    world.run(&mut sum);
    assert_eq!(sum.sum, 4);
}

#[test]
fn add_remove_component() {
    let mut world = World::new();

    let e1 = world.spawn(A(1));
    let e2 = world.spawn(A(2));
    let e3 = world.spawn(A(3));
    let e4 = world.spawn((A(4), C(Some("bar"))));

    world.add_component(e2, C(Some("foo")));
    world.add_component(e2, C(Some("foo")));
    assert!(world.has_component::<A>(e2));
    assert!(world.has_component::<C>(e2));
    assert_eq!(world.component::<A>(e2).unwrap().0, 2);
    assert!(world.has_component::<Entity>(e1));
    assert!(world.has_component::<Entity>(e2));
    assert!(world.has_component::<Entity>(e3));
    assert!(world.has_component::<A>(e1));
    assert!(world.has_component::<A>(e2));

    world.remove_component::<A>(e2);
    world.remove_component::<A>(e2);
    assert!(!world.has_component::<A>(e2));
    assert!(world.has_component::<C>(e2));
    assert!(world.has_component::<Entity>(e2));
    assert!(world.has_component::<Entity>(e4));
    assert!(world.has_component::<A>(e4));
    assert!(world.has_component::<C>(e4));

    world.remove_component::<C>(e2);
}

#[test]
fn for_each_with_archetype() {
    let mut world = World::new();

    world.spawn(A(1));
    world.spawn(A(2));
    let ent = world.spawn((A(1), B(false)));
    world.spawn((A(1), B(false)));
    world.spawn(A(3));
    world.spawn(A(4));

    world.despawn(ent);

    let archetype = ArchetypeBuilder::new().set::<A>().build();
    let mut acc = 0;
    for ent in world.for_each_with_archetype(archetype) {
        acc += world.component::<A>(ent).unwrap().0;
    }
    assert_eq!(10, acc);
}
