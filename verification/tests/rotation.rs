use launchy::canvas::layout::{
    checked_to_global, checked_to_local, to_global, to_local, MessageRouter, Rotation,
};
use launchy::CanvasMessage;

const ALL: [Rotation; 4] =
    [Rotation::Identity, Rotation::Left90, Rotation::Right90, Rotation::Rotate180];

#[test]
fn translate_follows_the_four_rules() {
    assert_eq!(Rotation::Identity.translate(3, -5), (3, -5));
    assert_eq!(Rotation::Rotate180.translate(3, -5), (-3, 5));
    assert_eq!(Rotation::Left90.translate(3, -5), (5, 3));
    assert_eq!(Rotation::Right90.translate(3, -5), (-5, -3));
}

#[test]
fn default_rotation_is_identity() {
    assert_eq!(Rotation::default(), Rotation::Identity);
}

#[test]
fn inverse_swaps_the_quarter_turns() {
    assert_eq!(-Rotation::Identity, Rotation::Identity);
    assert_eq!(-Rotation::Rotate180, Rotation::Rotate180);
    assert_eq!(-Rotation::Left90, Rotation::Right90);
    assert_eq!(-Rotation::Right90, Rotation::Left90);
}

#[test]
fn translate_then_inverse_gives_the_point_back() {
    for r in ALL {
        for x in -4..=4 {
            for y in -4..=4 {
                let (tx, ty) = r.translate(x, y);
                assert_eq!((-r).translate(tx, ty), (x, y));
            }
        }
    }
    let (tx, ty) = Rotation::Left90.translate(i32::MAX, -i32::MAX);
    assert_eq!(Rotation::Right90.translate(tx, ty), (i32::MAX, -i32::MAX));
}

#[test]
fn left_turned_device_at_the_origin() {
    assert_eq!(Rotation::Left90.translate(1, 0), (0, 1));
    assert_eq!(to_global(1, 0, Rotation::Left90, 0, 0), (0, 1));
    assert_eq!(to_local(0, 1, Rotation::Left90, 0, 0), (1, 0));
}

#[test]
fn global_then_local_round_trip() {
    for r in ALL {
        for (ox, oy) in [(20u32, 20u32), (7, 31), (1000, 8)] {
            for x in 0..8u32 {
                for y in 0..8u32 {
                    let (gx, gy) = to_global(x, y, r, ox, oy);
                    assert_eq!(to_local(gx, gy, r, ox, oy), (x, y));
                }
            }
        }
    }
}

#[test]
fn to_global_adds_the_offset_after_turning() {
    assert_eq!(to_global(2, 3, Rotation::Identity, 9, 0), (11, 3));
    assert_eq!(to_global(2, 3, Rotation::Rotate180, 7, 7), (5, 4));
    assert_eq!(to_global(2, 3, Rotation::Left90, 7, 0), (4, 2));
    assert_eq!(to_global(2, 3, Rotation::Right90, 0, 7), (3, 5));
}

#[test]
fn to_local_takes_the_offset_off_before_turning_back() {
    assert_eq!(to_local(11, 3, Rotation::Identity, 9, 0), (2, 3));
    assert_eq!(to_local(5, 4, Rotation::Rotate180, 7, 7), (2, 3));
    assert_eq!(to_local(4, 2, Rotation::Left90, 7, 0), (2, 3));
    assert_eq!(to_local(3, 5, Rotation::Right90, 0, 7), (2, 3));
}

#[test]
fn checked_transforms_refuse_what_u32_cannot_hold() {
    assert_eq!(checked_to_global(0, 1, Rotation::Left90, 0, 0), None);
    assert_eq!(checked_to_global(1, 0, Rotation::Left90, 0, 0), Some((0, 1)));
    assert_eq!(checked_to_global(u32::MAX, 0, Rotation::Identity, 1, 0), None);
    assert_eq!(
        checked_to_global(u32::MAX, u32::MAX, Rotation::Identity, 0, 0),
        Some((u32::MAX, u32::MAX))
    );
    assert_eq!(checked_to_global(u32::MAX, 0, Rotation::Rotate180, u32::MAX, 0), Some((0, 0)));
    assert_eq!(checked_to_local(0, 0, Rotation::Identity, 1, 0), None);
    assert_eq!(checked_to_local(9, 0, Rotation::Identity, 9, 0), Some((0, 0)));
    assert_eq!(checked_to_local(0, 1, Rotation::Left90, 0, 0), Some((1, 0)));
    assert_eq!(checked_to_local(1, 0, Rotation::Left90, 0, 0), None);
}

#[test]
fn router_keeps_the_kind_and_moves_the_coordinates() {
    let router = MessageRouter { rotation: Rotation::Identity, x_offset: 9, y_offset: 0 };
    assert_eq!(
        router.route(CanvasMessage::Press { x: 0, y: 0 }),
        Some(CanvasMessage::Press { x: 9, y: 0 })
    );
    assert_eq!(
        router.route(CanvasMessage::Release { x: 3, y: 4 }),
        Some(CanvasMessage::Release { x: 12, y: 4 })
    );
    let turned = MessageRouter { rotation: Rotation::Left90, x_offset: 7, y_offset: 0 };
    assert_eq!(
        turned.route(CanvasMessage::Press { x: 1, y: 2 }),
        Some(CanvasMessage::Press { x: 5, y: 1 })
    );
    let at_origin = MessageRouter { rotation: Rotation::Rotate180, x_offset: 0, y_offset: 0 };
    assert_eq!(at_origin.route(CanvasMessage::Press { x: 1, y: 0 }), None);
}

#[test]
fn message_coordinates() {
    assert_eq!(CanvasMessage::Press { x: 4, y: 6 }.x(), 4);
    assert_eq!(CanvasMessage::Press { x: 4, y: 6 }.y(), 6);
    assert_eq!(CanvasMessage::Release { x: 5, y: 7 }.x(), 5);
    assert_eq!(CanvasMessage::Release { x: 5, y: 7 }.y(), 7);
}
