use pic_killer::exif::{compose_orientation, orient_matrix, orientation_desc, RotateOp};

#[test]
fn rotate_cw_from_normal() {
    assert_eq!(compose_orientation(1, RotateOp::Cw), 6);
    assert_eq!(compose_orientation(1, RotateOp::Ccw), 8);
    assert_eq!(compose_orientation(1, RotateOp::Rot180), 3);
    assert_eq!(compose_orientation(1, RotateOp::FlipH), 2);
    assert_eq!(compose_orientation(1, RotateOp::FlipV), 4);
}

#[test]
fn rotate_cw_full_circle() {
    let mut o = 1u16;
    for expected in [6, 3, 8, 1] {
        o = compose_orientation(o, RotateOp::Cw);
        assert_eq!(o, expected);
    }
}

#[test]
fn rotate_cw_then_ccw_is_identity() {
    for start in 1..=8u16 {
        let there = compose_orientation(start, RotateOp::Cw);
        let back = compose_orientation(there, RotateOp::Ccw);
        assert_eq!(back, start, "起点 {start} 往返未复原");
    }
}

#[test]
fn rotate_compose_with_existing() {
    assert_eq!(compose_orientation(2, RotateOp::Cw), 7);
    assert_eq!(compose_orientation(6, RotateOp::Cw), 3);
}

#[test]
fn rotate_180_twice_is_identity() {
    for start in 1..=8u16 {
        let twice = compose_orientation(
            compose_orientation(start, RotateOp::Rot180),
            RotateOp::Rot180,
        );
        assert_eq!(twice, start);
    }
}

#[test]
fn flip_twice_is_identity() {
    for start in 1..=8u16 {
        let h = compose_orientation(compose_orientation(start, RotateOp::FlipH), RotateOp::FlipH);
        assert_eq!(h, start);
        let v = compose_orientation(compose_orientation(start, RotateOp::FlipV), RotateOp::FlipV);
        assert_eq!(v, start);
    }
}

#[test]
fn reset_always_normal() {
    for start in 1..=8u16 {
        assert_eq!(compose_orientation(start, RotateOp::Reset), 1);
    }
}

#[test]
fn every_orientation_matrix_is_unique() {
    for a in 1..=8u16 {
        for b in 1..=8u16 {
            if a != b {
                assert_ne!(orient_matrix(a), orient_matrix(b));
            }
        }
    }
}

#[test]
fn unknown_code_turns_like_normal() {
    assert_eq!(compose_orientation(0, RotateOp::Cw), 6);
    assert_eq!(compose_orientation(99, RotateOp::FlipV), 4);
}

#[test]
fn quarter_turns_add_up() {
    for start in 1..=8u16 {
        let twice = compose_orientation(compose_orientation(start, RotateOp::Cw), RotateOp::Cw);
        assert_eq!(twice, compose_orientation(start, RotateOp::Rot180));
    }
}

#[test]
fn orientations_have_words() {
    assert!(orientation_desc(1) != orientation_desc(6));
}
