use ecs::archetype::Archetype;
use ecs::component::{Component, ComponentId, Metadata};
use ecs::table::{Column, Table};
use ecs::ArchetypeBuilder;

struct A(u32);

// A text of at most fifteen bytes; the image holds the length and the text.
struct B(&'static str);

impl Component for A {
    fn metadata(&self) -> Metadata {
        Self::metadata_static()
    }

    fn metadata_static() -> Metadata {
        Metadata::new(ComponentId(1), 4, 4, "A")
    }

    fn to_bytes(&self) -> Vec<u8> {
        self.0.to_le_bytes().to_vec()
    }

    fn from_bytes(bytes: &[u8]) -> Self {
        A(u32::from_le_bytes([bytes[0], bytes[1], bytes[2], bytes[3]]))
    }
}

impl Component for B {
    fn metadata(&self) -> Metadata {
        Self::metadata_static()
    }

    fn metadata_static() -> Metadata {
        Metadata::new(ComponentId(2), 16, 8, "B")
    }

    fn to_bytes(&self) -> Vec<u8> {
        assert!(self.0.len() < 16);
        let mut bytes = vec![0u8; 16];
        bytes[0] = self.0.len() as u8;
        bytes[1..1 + self.0.len()].copy_from_slice(self.0.as_bytes());
        bytes
    }

    fn from_bytes(bytes: &[u8]) -> Self {
        let len = bytes[0] as usize;
        let text = String::from_utf8(bytes[1..1 + len].to_vec()).unwrap();
        B(Box::leak(text.into_boxed_str()))
    }
}

#[test]
fn column_write_read() {
    let mut col = Column::new(A::metadata_static().size());
    col.write(0, A(0));
    col.write(1, A(1));
    col.write(100000, A(2));

    assert_eq!(col.read::<A>(0).0, 0);
    assert_eq!(col.read::<A>(1).0, 1);
    assert_eq!(col.read::<A>(100000).0, 2);
}

#[test]
fn table_write_read() {
    let mut table = Table::new();
    table.write(0, A(100u32));
    table.write(0, B("100"));
    table.write(1, A(101u32));
    table.write(1, B("101"));
    table.write(100000, A(102u32));
    table.write(100000, B("102"));

    assert_eq!(A::from_bytes(table.read_mut::<A>(0)).0, 100u32);
    assert_eq!(B::from_bytes(table.read_mut::<B>(0)).0, "100");
    assert_eq!(A::from_bytes(table.read_mut::<A>(1)).0, 101u32);
    assert_eq!(B::from_bytes(table.read_mut::<B>(1)).0, "101");
    assert_eq!(A::from_bytes(table.read_mut::<A>(100000)).0, 102u32);
    assert_eq!(B::from_bytes(table.read_mut::<B>(100000)).0, "102");
}

#[test]
fn column_grows_to_twice_the_slot_and_at_least_one() {
    let mut col = Column::new(4);
    assert_eq!(col.capacity(), 0);
    assert_eq!(col.get_component_size(), 4);
    col.write_any(0, &[1, 2, 3, 4]);
    assert_eq!(col.capacity(), 1);
    col.write_any(0, &[5, 6, 7, 8]);
    assert_eq!(col.capacity(), 1);
    col.write_any(1, &[9, 9, 9, 9]);
    assert_eq!(col.capacity(), 2);
    col.write_any(5, &[1, 1, 1, 1]);
    assert_eq!(col.capacity(), 10);
    col.write_any(9, &[2, 2, 2, 2]);
    assert_eq!(col.capacity(), 10);
    assert_eq!(col.read_bytes(0), &[5u8, 6, 7, 8][..]);
    assert_eq!(col.read_bytes(1), &[9u8, 9, 9, 9][..]);
    // slots that were never written hold zeros
    assert_eq!(col.read_bytes(2), &[0u8, 0, 0, 0][..]);
    assert_eq!(col.read_bytes(5), &[1u8, 1, 1, 1][..]);
    assert_eq!(col.read_bytes(9), &[2u8, 2, 2, 2][..]);
}

#[test]
fn column_tells_what_it_can_hold() {
    let col = Column::new(8);
    assert!(col.can_hold(0));
    assert!(col.can_hold(1000));
    assert!(!col.can_hold(usize::MAX));
    assert!(!col.can_hold(usize::MAX / 2));
    assert!(!col.can_hold(usize::MAX / 16 + 1));
    assert!(col.can_hold(usize::MAX / 16));
    let empty = Column::new(0);
    assert!(empty.can_hold(usize::MAX / 2));
    assert!(!empty.can_hold(usize::MAX / 2 + 1));
}

#[test]
fn column_slots_change_in_place() {
    let mut col = Column::new(2);
    col.write_any(3, &[7, 8]);
    col.read_mut(3)[1] = 9;
    col.read_mut(0).copy_from_slice(&[1, 2]);
    assert_eq!(col.read_bytes(3), &[7u8, 9][..]);
    assert_eq!(col.read_bytes(0), &[1u8, 2][..]);
    assert_eq!(col.read_bytes(1), &[0u8, 0][..]);
    col.destroy::<A2>(3);
    assert_eq!(col.read_bytes(3), &[7u8, 9][..]);
}

struct A2(u16);

impl Component for A2 {
    fn metadata(&self) -> Metadata {
        Self::metadata_static()
    }

    fn metadata_static() -> Metadata {
        Metadata::new(ComponentId(5), 2, 2, "A2")
    }

    fn to_bytes(&self) -> Vec<u8> {
        self.0.to_le_bytes().to_vec()
    }

    fn from_bytes(bytes: &[u8]) -> Self {
        A2(u16::from_le_bytes([bytes[0], bytes[1]]))
    }
}

#[test]
fn column_copies_a_slot_byte_for_byte() {
    let mut src = Column::new(3);
    src.write_any(2, &[1, 2, 3]);
    let mut dst = Column::new(3);
    dst.write_any(0, &[9, 9, 9]);
    Column::copy_item_from_column(&src, &mut dst, 2, 4);
    assert_eq!(dst.capacity(), 8);
    assert_eq!(dst.read_bytes(4), &[1u8, 2, 3][..]);
    assert_eq!(dst.read_bytes(0), &[9u8, 9, 9][..]);
    assert_eq!(src.read_bytes(2), &[1u8, 2, 3][..]);
}

#[test]
fn column_of_stride_zero_holds_empty_values() {
    let mut col = Column::new(0);
    col.write_any(4, &[]);
    assert_eq!(col.capacity(), 8);
    assert!(col.read_bytes(4).is_empty());
    assert!(col.read_bytes(7).is_empty());
}

#[test]
fn table_hands_out_the_least_free_row_first() {
    let mut table = Table::new();
    assert_eq!(table.len(), 0);
    assert!(!table.has_free_row());
    assert_eq!(table.next_index(), 0);
    assert_eq!(table.reserve_index(), 0);
    assert_eq!(table.reserve_index(), 1);
    assert_eq!(table.reserve_index(), 2);
    assert_eq!(table.reserve_index(), 3);
    assert_eq!(table.len(), 4);
    table.free_index(2);
    table.free_index(0);
    table.free_index(3);
    table.free_index(0);
    assert!(table.has_free_row());
    assert_eq!(table.len(), 4);
    assert_eq!(table.next_index(), 0);
    assert_eq!(table.next_index(), 0);
    assert_eq!(table.reserve_index(), 0);
    assert_eq!(table.reserve_index(), 2);
    assert_eq!(table.next_index(), 3);
    assert_eq!(table.reserve_index(), 3);
    assert!(!table.has_free_row());
    assert!(table.can_reserve());
    assert_eq!(table.reserve_index(), 4);
    assert_eq!(table.len(), 5);
}

#[test]
fn table_makes_columns_when_they_are_written_or_asked_for() {
    let mut table = Table::new();
    assert!(!table.has_component::<A>());
    assert!(table.get_column::<A>().is_none());
    assert!(table.try_read::<A>(0).is_none());
    assert!(table.try_read_mut::<A>(0).is_none());
    assert!(table.get_column_by_id_mut(ComponentId(1)).is_none());
    assert!(table.can_accept(A::metadata_static(), 3));

    table.write(3, A(33));
    assert!(table.has_component::<A>());
    assert!(table.has_component_by_id(ComponentId(1)));
    assert!(!table.has_component_by_id(ComponentId(2)));
    assert!(!table.has_component_by_id(ComponentId(128)));
    assert_eq!(table.get_column::<A>().unwrap().capacity(), 6);
    assert_eq!(table.try_read::<A>(3).unwrap().0, 33);
    assert_eq!(table.try_read_by_id(ComponentId(1), 3).unwrap(), &[33u8, 0, 0, 0][..]);
    table.try_read_mut::<A>(3).unwrap()[1] = 1;
    assert_eq!(table.try_read::<A>(3).unwrap().0, 33 + 256);
    table.destroy::<A>(3);
    assert_eq!(table.try_read::<A>(3).unwrap().0, 33 + 256);
    // a value of another size does not fit the column
    assert!(!table.can_accept(Metadata::new(ComponentId(1), 8, 8, "wide"), 0));
    assert!(!table.can_accept(Metadata::new(ComponentId(128), 4, 4, "far"), 0));

    table.add_column_by_id(ComponentId(7), 2, 2);
    assert!(table.has_component_by_id(ComponentId(7)));
    assert_eq!(table.get_column_by_id(ComponentId(7)).unwrap().capacity(), 0);
    assert_eq!(table.get_column_by_id(ComponentId(7)).unwrap().get_component_size(), 2);
    table.get_column_by_id_mut(ComponentId(7)).unwrap().write_any(1, &[4, 5]);
    assert_eq!(table.try_read_by_id(ComponentId(7), 1).unwrap(), &[4u8, 5][..]);
    // the column is made anew
    table.add_column_by_id(ComponentId(7), 2, 2);
    assert_eq!(table.get_column_by_id(ComponentId(7)).unwrap().capacity(), 0);
    assert_eq!(table.len(), 0);
}

#[test]
fn table_takes_rows_from_another_table() {
    let mut src = Table::new();
    src.write(0, A(10));
    src.write(0, B("x"));
    src.write(1, A(11));
    src.write(1, B("y"));
    let only_a = ArchetypeBuilder::new().set::<A>().build();
    let both = ArchetypeBuilder::new().set::<A>().set::<B>().build();

    let mut dst = Table::with_columns_like(&src, only_a);
    assert!(dst.has_component::<A>());
    assert!(!dst.has_component::<B>());
    assert_eq!(dst.len(), 0);

    let mut ids = Archetype::new();
    ids.set(A::metadata_static());
    assert!(dst.can_receive(&src, ids, 2));
    dst.receive(&src, ids, 1, 2);
    assert_eq!(dst.try_read::<A>(2).unwrap().0, 11);
    assert_eq!(dst.get_column::<A>().unwrap().capacity(), 4);
    assert_eq!(src.try_read::<A>(1).unwrap().0, 11);

    ids.set(B::metadata_static());
    assert!(!dst.can_receive(&src, ids, 0));
    let mut wide = Table::with_columns_like(&src, both);
    assert!(wide.can_receive(&src, ids, 0));
    wide.receive(&src, ids, 0, 0);
    assert_eq!(wide.try_read::<A>(0).unwrap().0, 10);
    assert_eq!(wide.try_read::<B>(0).unwrap().0, "x");
}
