use wfc::vec2i::{down, left, right, up, Vec2i};

#[test]
fn test_add() {
    let vec1 = Vec2i { x: 1, y: 2 };
    let vec2 = Vec2i { x: 3, y: 4 };
    let result = vec1 + vec2;
    assert_eq!(result.x, 4);
    assert_eq!(result.y, 6);
}

#[test]
fn test_sub() {
    let vec1 = Vec2i { x: 5, y: 7 };
    let vec2 = Vec2i { x: 2, y: 3 };
    let result = vec1 - vec2;
    assert_eq!(result.x, 3);
    assert_eq!(result.y, 4);
}

#[test]
fn test_vec2i_equality() {
    let vec1 = Vec2i { x: 1, y: 2 };
    let vec2 = Vec2i { x: 1, y: 2 };
    let vec3 = vec1 + up();
    assert_eq!(vec1, vec2);
    assert_ne!(vec1, vec3);
}

#[test]
fn test_vec2i_inv() {
    assert_eq!(up().inv(), down());
    assert_eq!(down().inv(), up());
    assert_eq!(left().inv(), right());
    assert_eq!(right().inv(), left());
}

#[test]
fn test_vec2i_new() {
    let v = Vec2i::new(-3, 9);
    assert_eq!(v.x, -3);
    assert_eq!(v.y, 9);
    assert_eq!(v, Vec2i { x: -3, y: 9 });
}

#[test]
fn test_unit_directions() {
    assert_eq!(up(), Vec2i { x: 0, y: -1 });
    assert_eq!(right(), Vec2i { x: 1, y: 0 });
    assert_eq!(down(), Vec2i { x: 0, y: 1 });
    assert_eq!(left(), Vec2i { x: -1, y: 0 });
}

#[test]
fn test_inv_twice_is_identity() {
    let v = Vec2i::new(4, -7);
    assert_eq!(v.inv(), Vec2i::new(-4, 7));
    assert_eq!(v.inv().inv(), v);
}

#[test]
fn test_add_then_sub_round_trip() {
    let p = Vec2i::new(10, 20);
    for d in [up(), right(), down(), left()] {
        assert_eq!((p + d) - d, p);
        assert_eq!(p + d + d.inv(), p);
    }
}
