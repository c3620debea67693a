use ecs::{ComponentArray, EcsError};

fn pair_bytes(x: f32, y: f32) -> Vec<u8> {
    let mut b = Vec::new();
    b.extend_from_slice(&x.to_le_bytes());
    b.extend_from_slice(&y.to_le_bytes());
    b
}

fn pair_of(b: &[u8]) -> (f32, f32) {
    assert_eq!(b.len(), 8);
    let x = f32::from_le_bytes([b[0], b[1], b[2], b[3]]);
    let y = f32::from_le_bytes([b[4], b[5], b[6], b[7]]);
    (x, y)
}

#[test]
fn lib_test_component_array() {
    let mut components: Vec<(f32, f32)> = Vec::new();
    for i in 0..10 {
        components.push((i as f32, i as f32));
    }
    let mut component_array = ComponentArray::new(8);
    for c in components.iter() {
        component_array.push_bytes(&pair_bytes(c.0, c.1)).unwrap();
    }
    components.reverse();
    for c in components.iter() {
        assert_eq!(*c, pair_of(&component_array.pop_bytes().unwrap()));
    }
}

#[test]
fn test_component_array_remove() {
    let mut component_array = ComponentArray::new(8);
    component_array.push_bytes(&pair_bytes(52f32, 39f32)).unwrap();
    component_array.push_bytes(&pair_bytes(29f32, 19f32)).unwrap();
    component_array.push_bytes(&pair_bytes(82f32, 100f32)).unwrap();

    let second_component = pair_of(&component_array.remove_bytes(0).unwrap());
    assert_eq!((52f32, 39f32), second_component);
}

#[test]
fn remove_bytes_shifts_later_elements_down() {
    let mut a = ComponentArray::new(2);
    for i in 0..4u8 {
        a.push_bytes(&[i, i + 10]).unwrap();
    }
    assert_eq!(a.remove_bytes(1), Some(vec![1, 11]));
    assert_eq!(a.len(), 3);
    assert_eq!(a.get_bytes(0), Some(vec![0, 10]));
    assert_eq!(a.get_bytes(1), Some(vec![2, 12]));
    assert_eq!(a.get_bytes(2), Some(vec![3, 13]));
    assert_eq!(a.get_bytes(3), None);
    assert_eq!(a.remove_bytes(3), None);
}

#[test]
fn swap_remove_bytes_moves_last_element() {
    let mut a = ComponentArray::new(1);
    for i in 0..4u8 {
        a.push_bytes(&[i]).unwrap();
    }
    assert_eq!(a.swap_remove_bytes(0), Some(vec![0]));
    assert_eq!(a.get_bytes(0), Some(vec![3]));
    assert_eq!(a.get_bytes(1), Some(vec![1]));
    assert_eq!(a.get_bytes(2), Some(vec![2]));
    assert_eq!(a.len(), 3);
    assert_eq!(a.swap_remove_bytes(2), Some(vec![2]));
    assert_eq!(a.len(), 2);
    assert_eq!(a.swap_remove_bytes(5), None);
}

#[test]
fn thousand_pushes_pop_in_reverse_with_doubling_capacity() {
    let mut a = ComponentArray::new(8);
    assert_eq!(a.capacity(), 0);
    let mut capacities = Vec::new();
    for i in 0..1000u64 {
        a.push_bytes(&(i * 7919 + 3).to_le_bytes()).unwrap();
        if capacities.last() != Some(&a.capacity()) {
            capacities.push(a.capacity());
        }
    }
    assert_eq!(capacities, vec![1, 2, 4, 8, 16, 32, 64, 128, 256, 512, 1024]);
    assert_eq!(a.len(), 1000);
    for i in (0..1000u64).rev() {
        let b = a.pop_bytes().unwrap();
        assert_eq!(b, (i * 7919 + 3).to_le_bytes().to_vec());
    }
    assert!(a.is_empty());
    assert_eq!(a.pop_bytes(), None);
    assert_eq!(a.capacity(), 1024);
}

#[test]
fn push_of_wrong_size_is_refused() {
    let mut a = ComponentArray::new(4);
    assert_eq!(a.push_bytes(&[1, 2, 3]), Err(EcsError::SizeMismatch));
    assert_eq!(a.len(), 0);
    assert_eq!(a.capacity(), 0);
}

#[test]
fn growth_beyond_isize_fails_with_allocation_failure() {
    let mut a = ComponentArray::new(usize::MAX);
    assert_eq!(a.grow(), Err(EcsError::AllocationFailure));
    assert_eq!(a.capacity(), 0);
    assert!(!a.accepts_one());
    let mut b = ComponentArray::new(3);
    assert!(b.accepts_one());
    assert_eq!(b.grow(), Ok(()));
    assert_eq!(b.capacity(), 1);
    assert_eq!(b.grow(), Ok(()));
    assert_eq!(b.capacity(), 2);
}

#[test]
fn zero_sized_elements_are_counted() {
    let mut a = ComponentArray::new(0);
    for _ in 0..5 {
        a.push_bytes(&[]).unwrap();
    }
    assert_eq!(a.len(), 5);
    assert_eq!(a.pop_bytes(), Some(vec![]));
    assert_eq!(a.len(), 4);
}

#[test]
fn set_bytes_replaces_one_element() {
    let mut a = ComponentArray::new(2);
    a.push_bytes(&[1, 2]).unwrap();
    a.push_bytes(&[3, 4]).unwrap();
    assert_eq!(a.set_bytes(1, &[9, 9]), Ok(()));
    assert_eq!(a.get_bytes(0), Some(vec![1, 2]));
    assert_eq!(a.get_bytes(1), Some(vec![9, 9]));
    assert_eq!(a.set_bytes(2, &[0, 0]), Err(EcsError::IndexOutOfRange));
    assert_eq!(a.set_bytes(0, &[0]), Err(EcsError::SizeMismatch));
    assert_eq!(a.element_size(), 2);
}
