use hierarchy_layout::share::cut_at;
use hierarchy_layout::tiling::Rect;
use hierarchy_layout::{FULL_TURN, RESOLUTION};

#[test]
fn boundaries_are_proportional_and_rounded_down() {
    assert_eq!(cut_at(0, 3, 10), 0);
    assert_eq!(cut_at(1, 3, 10), 3);
    assert_eq!(cut_at(2, 3, 10), 6);
    assert_eq!(cut_at(3, 3, 10), 10);
    assert_eq!(cut_at(20, 30, 6_283_185), 4_188_790);
    assert_eq!(cut_at(7, 12, 400), 233);
}

#[test]
fn boundaries_collapse_where_there_is_no_weight() {
    assert_eq!(cut_at(0, 0, 10), 0);
    assert_eq!(cut_at(0, 0, u64::MAX), 0);
    assert_eq!(cut_at(0, 5, 0), 0);
    assert_eq!(cut_at(5, 5, 0), 0);
}

#[test]
fn boundaries_do_not_overflow() {
    assert_eq!(cut_at(u64::MAX, u64::MAX, u64::MAX), u64::MAX);
    assert_eq!(cut_at(u64::MAX - 1, u64::MAX, u64::MAX), u64::MAX - 1);
    assert_eq!(cut_at(1, u64::MAX, u64::MAX), 1);
    assert_eq!(cut_at(u64::MAX / 2, u64::MAX, 2), 0);
}

#[test]
fn resolution_and_full_turn() {
    assert_eq!(RESOLUTION, 1_000_000);
    assert_eq!(FULL_TURN, 6_283_185);
    let turn = 2.0 * std::f64::consts::PI * RESOLUTION as f64;
    assert_eq!(FULL_TURN, turn.floor() as u64);
}

fn edges(r: Rect) -> (u64, u64, u64, u64) {
    (r.x0, r.y0, r.x1, r.y1)
}

#[test]
fn inset_sets_the_padding_aside() {
    let outer = Rect { x0: 10, y0: 20, x1: 110, y1: 100 };
    assert_eq!(edges(outer.inset(0, 0)), (10, 20, 110, 100));
    assert_eq!(edges(outer.inset(5, 0)), (15, 25, 105, 95));
    assert_eq!(edges(outer.inset(5, 10)), (15, 35, 105, 95));
    assert_eq!(edges(outer.inset(0, 10)), (10, 30, 110, 100));
}

#[test]
fn inset_leaves_nothing_where_the_padding_does_not_fit() {
    let outer = Rect { x0: 10, y0: 20, x1: 30, y1: 50 };
    // 20 wide: a padding of 12 fits on the left and leaves 8 for the right
    assert_eq!(edges(outer.inset(12, 0)), (22, 32, 22, 38));
    // a padding larger than the width leaves the right edge
    assert_eq!(edges(outer.inset(25, 0)), (30, 45, 30, 45));
    assert_eq!(edges(outer.inset(100, 0)), (30, 50, 30, 50));
    // a header larger than the height leaves the bottom edge
    assert_eq!(edges(outer.inset(1, 100)), (11, 50, 29, 50));
    assert_eq!(edges(outer.inset(u64::MAX, u64::MAX)), (30, 50, 30, 50));
    let empty = Rect { x0: 7, y0: 7, x1: 7, y1: 7 };
    assert_eq!(edges(empty.inset(3, 3)), (7, 7, 7, 7));
}
