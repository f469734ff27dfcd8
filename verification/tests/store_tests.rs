use ecs::component::{Component, ComponentId, Metadata};
use ecs::store::{ComponentList, Store};

struct A(u32);

// A text of at most fifteen bytes; the image holds the length and the text.
struct B(&'static str);

impl Component for A {
    fn metadata(&self) -> Metadata {
        Self::metadata_static()
    }

    fn metadata_static() -> Metadata {
        Metadata::new(ComponentId(1), 4, 4, "A")
    }

    fn to_bytes(&self) -> Vec<u8> {
        self.0.to_le_bytes().to_vec()
    }

    fn from_bytes(bytes: &[u8]) -> Self {
        A(u32::from_le_bytes([bytes[0], bytes[1], bytes[2], bytes[3]]))
    }
}

impl Component for B {
    fn metadata(&self) -> Metadata {
        Self::metadata_static()
    }

    fn metadata_static() -> Metadata {
        Metadata::new(ComponentId(70_000), 16, 8, "B")
    }

    fn to_bytes(&self) -> Vec<u8> {
        assert!(self.0.len() < 16);
        let mut bytes = vec![0u8; 16];
        bytes[0] = self.0.len() as u8;
        bytes[1..1 + self.0.len()].copy_from_slice(self.0.as_bytes());
        bytes
    }

    fn from_bytes(bytes: &[u8]) -> Self {
        let len = bytes[0] as usize;
        let text = String::from_utf8(bytes[1..1 + len].to_vec()).unwrap();
        B(Box::leak(text.into_boxed_str()))
    }
}

#[test]
fn list_write_read() {
    let mut list = ComponentList::new(A::metadata_static().size());
    list.write(0, A(0));
    list.write(1, A(1));
    list.write(100000, A(2));

    assert_eq!(list.read::<A>(0).0, 0);
    assert_eq!(list.read::<A>(1).0, 1);
    assert_eq!(list.read::<A>(100000).0, 2);
}

#[test]
fn store_write_read() {
    let mut store = Store::new();
    store.write(0, A(100u32));
    store.write(0, B("100"));
    store.write(1, A(101u32));
    store.write(1, B("101"));
    store.write(100000, A(102u32));
    store.write(100000, B("102"));

    assert_eq!(store.read::<A>(0).0, 100u32);
    assert_eq!(store.read::<B>(0).0, "100");
    assert_eq!(store.read::<A>(1).0, 101u32);
    assert_eq!(store.read::<B>(1).0, "101");
    assert_eq!(store.read::<A>(100000).0, 102u32);
    assert_eq!(store.read::<B>(100000).0, "102");
}

#[test]
fn list_grows_changes_in_place_and_copies() {
    let mut list = ComponentList::new(2);
    assert_eq!(list.get_component_size(), 2);
    assert!(list.can_hold(3));
    assert!(!list.can_hold(usize::MAX));
    list.write_any(3, &[1, 2]);
    assert_eq!(list.read_bytes(3), &[1u8, 2][..]);
    assert_eq!(list.read_bytes(5), &[0u8, 0][..]);
    list.read_mut(3)[0] = 7;
    assert_eq!(list.read_bytes(3), &[7u8, 2][..]);

    let mut other = ComponentList::new(2);
    ComponentList::copy_item_from_list(&list, &mut other, 3, 0);
    assert_eq!(other.read_bytes(0), &[7u8, 2][..]);
    assert_eq!(list.read_bytes(3), &[7u8, 2][..]);
}

#[test]
fn store_hands_out_the_least_free_row_first() {
    let mut store = Store::new();
    assert_eq!(store.len(), 0);
    assert_eq!(store.reserve_index(), 0);
    assert_eq!(store.reserve_index(), 1);
    assert_eq!(store.reserve_index(), 2);
    store.free_index(1);
    store.free_index(0);
    assert_eq!(store.len(), 3);
    assert_eq!(store.reserve_index(), 0);
    assert_eq!(store.reserve_index(), 1);
    assert_eq!(store.reserve_index(), 3);
    assert_eq!(store.len(), 4);
}

#[test]
fn store_makes_lists_when_they_are_written_or_asked_for() {
    let mut store = Store::new();
    assert!(!store.has_component::<A>());
    assert!(store.get_component_list::<A>().is_none());
    assert!(store.try_read::<A>(0).is_none());
    assert!(store.try_read_mut::<A>(0).is_none());
    assert!(store.get_component_list_by_id_mut(ComponentId(1)).is_none());

    store.write(2, A(5));
    assert!(store.has_component::<A>());
    assert!(!store.has_component::<B>());
    assert_eq!(store.try_read::<A>(2).unwrap().0, 5);
    assert_eq!(store.get_component_list::<A>().unwrap().get_component_size(), 4);
    store.try_read_mut::<A>(2).unwrap()[0] = 6;
    assert_eq!(store.read::<A>(2).0, 6);
    store.read_mut::<A>(2).copy_from_slice(&A(9).to_bytes());
    assert_eq!(store.read::<A>(2).0, 9);

    store.write_any(Metadata::new(ComponentId(4_000_000_000), 1, 1, "far"), 0, &[3]);
    let far = store.get_component_list_by_id(ComponentId(4_000_000_000)).unwrap();
    assert_eq!(far.read_bytes(0), &[3u8][..]);
    store
        .get_component_list_by_id_mut(ComponentId(4_000_000_000))
        .unwrap()
        .write_any(1, &[4]);
    let far = store.get_component_list_by_id(ComponentId(4_000_000_000)).unwrap();
    assert_eq!(far.read_bytes(1), &[4u8][..]);

    store.add_component_list_by_id(ComponentId(1), 4);
    assert!(store.has_component::<A>());
    assert!(store.get_component_list::<A>().unwrap().can_hold(0));
    assert_eq!(store.len(), 0);
}
