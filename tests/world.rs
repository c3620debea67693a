use ecs::{
    canonical, insert_sorted, remove_sorted, same_signature, Archetype, ArchetypeEdge, EcsError, ECS,
};

const POSITION: u64 = 1;
const VELOCITY: u64 = 2;
const HEALTH: u64 = 3;

fn pair_bytes(x: f32, y: f32) -> Vec<u8> {
    let mut b = Vec::new();
    b.extend_from_slice(&x.to_le_bytes());
    b.extend_from_slice(&y.to_le_bytes());
    b
}

fn pair_of(b: &[u8]) -> (f32, f32) {
    assert_eq!(b.len(), 8);
    let x = f32::from_le_bytes([b[0], b[1], b[2], b[3]]);
    let y = f32::from_le_bytes([b[4], b[5], b[6], b[7]]);
    (x, y)
}

#[test]
fn lib_test_entity_creation() {
    let mut ecs = ECS::new();
    let entity1 = ecs.create_entity();
    let entity2 = ecs.create_entity();
    assert_ne!(entity1, entity2);
}

#[test]
fn test_component_creation() {
    let mut ecs = ECS::new();
    let entity = ecs.create_entity();
    ecs.add_component(entity, POSITION, &pair_bytes(10f32, 15f32)).unwrap();
    let mut other = Vec::new();
    other.extend_from_slice(&11u64.to_le_bytes());
    other.extend_from_slice(String::from("hello there").as_bytes());
    ecs.add_component(entity, HEALTH, &other).unwrap();
    assert_eq!(pair_of(&ecs.get_component(entity, POSITION).unwrap()), (10f32, 15f32));
    assert_eq!(ecs.get_component(entity, HEALTH), Some(other));
}

#[test]
fn position_then_velocity_scenario() {
    let mut ecs = ECS::new();
    let e1 = ecs.create_entity();
    ecs.add_component(e1, POSITION, &pair_bytes(1.0, 2.0)).unwrap();
    let a = ecs.entity_archetype(e1).unwrap();
    assert_eq!(ecs.archetype_signature(a), Some(vec![POSITION]));
    assert_eq!(ecs.location_of(e1).unwrap().row, 0);
    let arch = ecs.archetype_ref(a).unwrap();
    assert_eq!(arch.len(), 1);
    assert_eq!(pair_of(&arch.component(0, 0).unwrap()), (1.0, 2.0));

    ecs.add_component(e1, VELOCITY, &pair_bytes(0.5, -0.5)).unwrap();
    let b = ecs.entity_archetype(e1).unwrap();
    assert_ne!(a, b);
    assert_eq!(ecs.archetype_signature(b), Some(vec![POSITION, VELOCITY]));
    assert_eq!(pair_of(&ecs.get_component(e1, POSITION).unwrap()), (1.0, 2.0));
    assert_eq!(pair_of(&ecs.get_component(e1, VELOCITY).unwrap()), (0.5, -0.5));
    assert_eq!(ecs.archetype_ref(a).unwrap().len(), 0);
}

#[test]
fn two_entities_gaining_one_kind_share_one_new_archetype() {
    for first_then_second in [true, false] {
        let mut ecs = ECS::new();
        let e1 = ecs.create_entity();
        let e2 = ecs.create_entity();
        let before = ecs.archetypes_len();
        let (x, y) = if first_then_second { (e1, e2) } else { (e2, e1) };
        ecs.add_component(x, HEALTH, &[7, 0, 0, 0]).unwrap();
        ecs.add_component(y, HEALTH, &[9, 0, 0, 0]).unwrap();
        assert_eq!(ecs.archetypes_len(), before + 1);
        assert_eq!(ecs.entity_archetype(e1), ecs.entity_archetype(e2));
        assert_eq!(ecs.location_of(x).unwrap().row, 0);
        assert_eq!(ecs.location_of(y).unwrap().row, 1);
        let a = ecs.entity_archetype(e1).unwrap();
        assert_eq!(ecs.archetype_ref(a).unwrap().len(), 2);
        assert_eq!(ecs.get_component(x, HEALTH), Some(vec![7, 0, 0, 0]));
        assert_eq!(ecs.get_component(y, HEALTH), Some(vec![9, 0, 0, 0]));
    }
}

#[test]
fn attachment_order_does_not_change_the_archetype() {
    let mut ecs = ECS::new();
    let e1 = ecs.create_entity();
    let e2 = ecs.create_entity();
    ecs.add_component(e1, HEALTH, &[1]).unwrap();
    ecs.add_component(e1, POSITION, &[2]).unwrap();
    ecs.add_component(e1, VELOCITY, &[3]).unwrap();
    ecs.add_component(e2, VELOCITY, &[4]).unwrap();
    ecs.add_component(e2, HEALTH, &[5]).unwrap();
    ecs.add_component(e2, POSITION, &[6]).unwrap();
    let a = ecs.entity_archetype(e1).unwrap();
    assert_eq!(ecs.entity_archetype(e2), Some(a));
    assert_eq!(ecs.archetype_signature(a), Some(vec![POSITION, VELOCITY, HEALTH]));
    assert_eq!(ecs.get_component(e1, POSITION), Some(vec![2]));
    assert_eq!(ecs.get_component(e2, POSITION), Some(vec![6]));
    assert_eq!(ecs.get_component(e2, HEALTH), Some(vec![5]));
}

#[test]
fn component_survives_migration_byte_for_byte() {
    let mut ecs = ECS::new();
    let e = ecs.create_entity();
    let v: Vec<u8> = (0..16).collect();
    ecs.add_component(e, POSITION, &v).unwrap();
    ecs.add_component(e, VELOCITY, &[1, 2, 3]).unwrap();
    assert_eq!(ecs.get_component(e, POSITION), Some(v));
}

#[test]
fn get_or_create_archetype_is_idempotent_in_any_order() {
    let mut ecs = ECS::new();
    ecs.register_component(POSITION, 8).unwrap();
    ecs.register_component(VELOCITY, 8).unwrap();
    let a = ecs.get_or_create_archetype(&[VELOCITY, POSITION]);
    let count = ecs.archetypes_len();
    let b = ecs.get_or_create_archetype(&[POSITION, VELOCITY, POSITION]);
    assert_eq!(a, b);
    assert_eq!(ecs.archetypes_len(), count);
    assert_eq!(ecs.archetype_signature(a), Some(vec![POSITION, VELOCITY]));
    let arch = ecs.archetype_ref(a).unwrap();
    assert_eq!(arch.len(), 0);
    assert_eq!(arch.column(0).unwrap().element_size(), 8);
    assert_eq!(arch.edge(POSITION), None);
}

#[test]
fn edge_cache_is_filled_in_both_directions() {
    let mut ecs = ECS::new();
    let e = ecs.create_entity();
    let empty = ecs.entity_archetype(e).unwrap();
    ecs.add_component(e, POSITION, &[1]).unwrap();
    let with_position = ecs.entity_archetype(e).unwrap();
    assert_eq!(
        ecs.archetype_ref(empty).unwrap().edge(POSITION),
        Some(ArchetypeEdge { add: Some(with_position), remove: None })
    );
    assert_eq!(
        ecs.archetype_ref(with_position).unwrap().edge(POSITION),
        Some(ArchetypeEdge { add: None, remove: Some(empty) })
    );
    assert_eq!(ecs.archetype_ref(empty).unwrap().edge(VELOCITY), None);
}

#[test]
fn size_conflict_and_unknown_entity_are_reported() {
    let mut ecs = ECS::new();
    let e = ecs.create_entity();
    ecs.add_component(e, POSITION, &[1, 2]).unwrap();
    assert_eq!(ecs.register_component(POSITION, 5), Err(EcsError::SizeMismatch));
    assert_eq!(ecs.register_component(POSITION, 2), Ok(()));
    assert_eq!(ecs.add_component(e + 1, VELOCITY, &[1]), Err(EcsError::UnknownEntity));
    assert_eq!(ecs.component_size(VELOCITY), None);
    assert_eq!(ecs.component_size(POSITION), Some(2));
    assert_eq!(ecs.get_component(e, POSITION), Some(vec![1, 2]));
    assert_eq!(ecs.get_component(e + 1, POSITION), None);
    assert_eq!(ecs.get_component(e, VELOCITY), None);
}

#[test]
fn adding_a_held_kind_replaces_its_bytes_in_place() {
    let mut ecs = ECS::new();
    let e = ecs.create_entity();
    ecs.add_component(e, POSITION, &[1, 1]).unwrap();
    let a = ecs.entity_archetype(e);
    let count = ecs.archetypes_len();
    ecs.add_component(e, POSITION, &[2, 2]).unwrap();
    assert_eq!(ecs.entity_archetype(e), a);
    assert_eq!(ecs.archetypes_len(), count);
    assert_eq!(ecs.get_component(e, POSITION), Some(vec![2, 2]));
}

#[test]
fn moving_an_entity_out_keeps_the_other_rows_right() {
    let mut ecs = ECS::new();
    let e1 = ecs.create_entity();
    let e2 = ecs.create_entity();
    let e3 = ecs.create_entity();
    for (e, v) in [(e1, 1u8), (e2, 2), (e3, 3)] {
        ecs.add_component(e, POSITION, &[v]).unwrap();
    }
    ecs.add_component(e1, VELOCITY, &[10]).unwrap();
    assert_eq!(ecs.get_component(e2, POSITION), Some(vec![2]));
    assert_eq!(ecs.get_component(e3, POSITION), Some(vec![3]));
    assert_eq!(ecs.location_of(e3).unwrap().row, 0);
    assert_eq!(ecs.location_of(e2).unwrap().row, 1);
    assert_eq!(ecs.get_component(e1, POSITION), Some(vec![1]));
    assert_eq!(ecs.get_component(e1, VELOCITY), Some(vec![10]));
    assert_eq!(ecs.entity_count(), 3);
}

#[test]
fn archetype_rows_and_errors() {
    let mut a = Archetype::new(4, vec![POSITION, VELOCITY], &[2, 1]);
    assert_eq!(a.id(), 4);
    assert_eq!(a.types(), &[POSITION, VELOCITY][..]);
    assert_eq!(a.add_entity(7, &[&[1u8, 2][..]]), Err(EcsError::SizeMismatch));
    assert_eq!(a.add_entity(7, &[&[1u8, 2][..], &[3u8, 4][..]]), Err(EcsError::SizeMismatch));
    assert_eq!(a.len(), 0);
    a.add_entity(7, &[&[1u8, 2][..], &[3u8][..]]).unwrap();
    a.add_entity(8, &[&[5u8, 6][..], &[7u8][..]]).unwrap();
    a.add_entity(9, &[&[9u8, 9][..], &[9u8][..]]).unwrap();
    assert_eq!(a.row_of(8), Some(1));
    assert_eq!(a.column_index(VELOCITY), Some(1));
    assert_eq!(a.column_index(HEALTH), None);
    let removed = a.remove_entity(7);
    assert_eq!(removed, vec![(POSITION, vec![1, 2]), (VELOCITY, vec![3])]);
    assert_eq!(a.entity_at(0), Some(9));
    assert_eq!(a.entity_at(1), Some(8));
    assert_eq!(a.entity_at(2), None);
    assert_eq!(a.component(0, 0), Some(vec![9, 9]));
    assert_eq!(a.remove_row(2), Err(EcsError::IndexOutOfRange));
    assert_eq!(a.set_component(0, 1, &[4]), Ok(()));
    assert_eq!(a.component(0, 1), Some(vec![4]));
    assert_eq!(a.set_component(0, 2, &[4]), Err(EcsError::IndexOutOfRange));
    assert_eq!(a.set_component(0, 1, &[4, 4]), Err(EcsError::SizeMismatch));
    a.add_edge_to_new(HEALTH, 5);
    assert_eq!(a.edge(HEALTH), Some(ArchetypeEdge::old_to_new(5)));
    a.add_edge_to_old(HEALTH, 3);
    assert_eq!(a.edge(HEALTH), Some(ArchetypeEdge { add: Some(5), remove: Some(3) }));
    a.add_edge_to_new(HEALTH, 6);
    assert_eq!(a.edge(HEALTH), Some(ArchetypeEdge { add: Some(6), remove: Some(3) }));
    a.add_edge_to_old(VELOCITY, 2);
    assert_eq!(a.edge(VELOCITY), Some(ArchetypeEdge::new_to_old(2)));
    assert!(a.can_accept_row());
}

#[test]
fn signatures_are_kept_sorted() {
    assert_eq!(insert_sorted(&[1, 4, 9], 5), vec![1, 4, 5, 9]);
    assert_eq!(insert_sorted(&[1, 4, 9], 4), vec![1, 4, 9]);
    assert_eq!(insert_sorted(&[], 3), vec![3]);
    assert_eq!(insert_sorted(&[2], 10), vec![2, 10]);
    assert_eq!(canonical(&[9, 1, 4, 1, 9]), vec![1, 4, 9]);
    assert_eq!(canonical(&[]), Vec::<u64>::new());
    assert!(same_signature(&[1, 2], &[1, 2]));
    assert!(!same_signature(&[1, 2], &[2, 1]));
    assert!(!same_signature(&[1], &[1, 2]));
}

#[test]
fn removing_a_component_moves_back_along_the_edge() {
    let mut ecs = ECS::new();
    let e = ecs.create_entity();
    ecs.add_component(e, POSITION, &pair_bytes(1.0, 2.0)).unwrap();
    let with_position = ecs.entity_archetype(e).unwrap();
    ecs.add_component(e, VELOCITY, &pair_bytes(3.0, 4.0)).unwrap();
    let with_both = ecs.entity_archetype(e).unwrap();
    let count = ecs.archetypes_len();
    assert_eq!(ecs.remove_component(e, VELOCITY), Ok(()));
    assert_eq!(ecs.entity_archetype(e), Some(with_position));
    assert_eq!(ecs.archetypes_len(), count);
    assert_eq!(ecs.get_component(e, VELOCITY), None);
    assert_eq!(pair_of(&ecs.get_component(e, POSITION).unwrap()), (1.0, 2.0));
    assert_eq!(ecs.archetype_ref(with_both).unwrap().len(), 0);
}

#[test]
fn removing_a_component_creates_the_smaller_archetype_when_needed() {
    let mut ecs = ECS::new();
    let e = ecs.create_entity();
    ecs.register_component(POSITION, 1).unwrap();
    ecs.register_component(VELOCITY, 1).unwrap();
    let both = ecs.get_or_create_archetype(&[POSITION, VELOCITY]);
    ecs.add_component(e, VELOCITY, &[5]).unwrap();
    ecs.add_component(e, POSITION, &[6]).unwrap();
    assert_eq!(ecs.entity_archetype(e), Some(both));
    let count = ecs.archetypes_len();
    ecs.remove_component(e, VELOCITY).unwrap();
    assert_eq!(ecs.archetypes_len(), count + 1);
    let a = ecs.entity_archetype(e).unwrap();
    assert_eq!(ecs.archetype_signature(a), Some(vec![POSITION]));
    assert_eq!(ecs.get_component(e, POSITION), Some(vec![6]));
    assert_eq!(
        ecs.archetype_ref(both).unwrap().edge(VELOCITY),
        Some(ArchetypeEdge { add: None, remove: Some(a) })
    );
    assert_eq!(
        ecs.archetype_ref(a).unwrap().edge(VELOCITY),
        Some(ArchetypeEdge { add: Some(both), remove: None })
    );
}

#[test]
fn removing_an_absent_component_or_from_an_unknown_entity() {
    let mut ecs = ECS::new();
    let e = ecs.create_entity();
    ecs.add_component(e, POSITION, &[1]).unwrap();
    let a = ecs.entity_archetype(e);
    let count = ecs.archetypes_len();
    assert_eq!(ecs.remove_component(e, HEALTH), Ok(()));
    assert_eq!(ecs.entity_archetype(e), a);
    assert_eq!(ecs.archetypes_len(), count);
    assert_eq!(ecs.remove_component(e + 5, POSITION), Err(EcsError::UnknownEntity));
}

#[test]
fn detaching_what_was_attached_restores_the_entity() {
    let mut ecs = ECS::new();
    let e = ecs.create_entity();
    let other = ecs.create_entity();
    ecs.add_component(e, POSITION, &[1, 2]).unwrap();
    ecs.add_component(other, POSITION, &[3, 4]).unwrap();
    let a = ecs.entity_archetype(e);
    ecs.add_component(e, HEALTH, &[9]).unwrap();
    ecs.remove_component(e, HEALTH).unwrap();
    assert_eq!(ecs.entity_archetype(e), a);
    assert_eq!(ecs.get_component(e, POSITION), Some(vec![1, 2]));
    assert_eq!(ecs.get_component(e, HEALTH), None);
    assert_eq!(ecs.get_component(other, POSITION), Some(vec![3, 4]));
}

#[test]
fn columns_can_be_read_whole() {
    let mut ecs = ECS::new();
    let e1 = ecs.create_entity();
    let e2 = ecs.create_entity();
    ecs.add_component(e1, POSITION, &[1, 1]).unwrap();
    ecs.add_component(e2, POSITION, &[2, 2]).unwrap();
    let a = ecs.entity_archetype(e1).unwrap();
    let arch = ecs.archetype_ref(a).unwrap();
    let column = arch.column(0).unwrap();
    assert_eq!(column.len(), 2);
    assert_eq!(column.element_size(), 2);
    assert_eq!(column.get_bytes(0), Some(vec![1, 1]));
    assert_eq!(column.get_bytes(1), Some(vec![2, 2]));
    assert!(arch.column(1).is_none());
    assert_eq!(remove_sorted(&[1, 4, 9], 4), vec![1, 9]);
    assert_eq!(remove_sorted(&[1, 4, 9], 5), vec![1, 4, 9]);
}
