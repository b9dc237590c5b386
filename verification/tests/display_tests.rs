use std::collections::HashMap;
use wfc::display::{palette_slots, PALETTE_SIZE};

#[test]
fn test_palette_slots_in_turn() {
    assert_eq!(PALETTE_SIZE, 12);
    let slots = palette_slots(&vec![5, -3, 9]);
    assert_eq!(slots, HashMap::from([(5, 0), (-3, 1), (9, 2)]));
    assert_eq!(palette_slots(&Vec::new()), HashMap::new());
}

#[test]
fn test_palette_slots_start_over() {
    let fields: Vec<i8> = (0..30).collect();
    let slots = palette_slots(&fields);
    assert_eq!(slots.len(), 30);
    for field in 0..30i8 {
        assert_eq!(slots[&field], field as usize % 12);
    }
    assert_eq!(slots[&11], 11);
    assert_eq!(slots[&12], 0);
}

#[test]
fn test_palette_slots_repeated_field_keeps_last() {
    let slots = palette_slots(&vec![1, 2, 1]);
    assert_eq!(slots, HashMap::from([(1, 2), (2, 1)]));
}
