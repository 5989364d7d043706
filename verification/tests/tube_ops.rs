use color_sort::tube::{ColorTube, ColorTubeContent};

const RED: u32 = 0;
const BLUE: u32 = 1;
const GREEN: u32 = 2;

fn seg(color: u32, amount: u32) -> ColorTubeContent {
    ColorTubeContent::new(color, amount)
}

fn segs_of(t: &ColorTube) -> Vec<(u32, u32)> {
    t.segments().iter().map(|c| (c.color, c.amount)).collect()
}

fn check_invariants(t: &ColorTube) {
    let segs = segs_of(t);
    let total: u64 = segs.iter().map(|&(_, a)| a as u64).sum();
    assert!(total <= t.capacity as u64);
    for &(_, a) in &segs {
        assert!(a > 0);
    }
    for w in segs.windows(2) {
        assert_ne!(w[0].0, w[1].0);
    }
}

#[test]
fn fill_unchecked_merges_matching_top() {
    let mut t = ColorTube::new(4, vec![seg(RED, 1)]);
    let rejected = t.fill_unchecked(seg(RED, 2));
    assert!(rejected.is_none());
    assert_eq!(segs_of(&t), vec![(RED, 3)]);
    check_invariants(&t);
}

#[test]
fn fill_unchecked_stacks_new_color() {
    let mut t = ColorTube::new(4, vec![seg(RED, 1)]);
    let rejected = t.fill_unchecked(seg(BLUE, 1));
    assert!(rejected.is_none());
    assert_eq!(segs_of(&t), vec![(RED, 1), (BLUE, 1)]);
    check_invariants(&t);
}

#[test]
fn fill_unchecked_rejects_overflow() {
    let mut t = ColorTube::new(4, vec![seg(RED, 3)]);
    let rejected = t.fill_unchecked(seg(BLUE, 2));
    assert_eq!(rejected, Some(seg(BLUE, 2)));
    assert_eq!(segs_of(&t), vec![(RED, 3)]);
    check_invariants(&t);
}

#[test]
fn fill_unchecked_ignores_color_rule() {
    let mut t = ColorTube::new(4, vec![seg(RED, 2)]);
    let rejected = t.fill_unchecked(seg(BLUE, 2));
    assert!(rejected.is_none());
    assert_eq!(segs_of(&t), vec![(RED, 2), (BLUE, 2)]);
}

#[test]
fn fill_strict_rejects_color_mismatch() {
    let mut t = ColorTube::new(4, vec![seg(RED, 2)]);
    let rejected = t.fill(seg(BLUE, 1));
    assert_eq!(rejected, Some(seg(BLUE, 1)));
    assert_eq!(segs_of(&t), vec![(RED, 2)]);
}

#[test]
fn fill_strict_accepts_empty_tube() {
    let mut t = ColorTube::new(4, Vec::new());
    let rejected = t.fill(seg(BLUE, 2));
    assert!(rejected.is_none());
    assert_eq!(segs_of(&t), vec![(BLUE, 2)]);
}

#[test]
fn fill_strict_merges_matching_top() {
    let mut t = ColorTube::new(4, vec![seg(RED, 1), seg(BLUE, 1)]);
    let rejected = t.fill(seg(BLUE, 2));
    assert!(rejected.is_none());
    assert_eq!(segs_of(&t), vec![(RED, 1), (BLUE, 3)]);
    check_invariants(&t);
}

#[test]
fn fill_strict_rejects_overflow() {
    let mut t = ColorTube::new(4, vec![seg(RED, 3)]);
    let rejected = t.fill(seg(RED, 2));
    assert_eq!(rejected, Some(seg(RED, 2)));
    assert_eq!(segs_of(&t), vec![(RED, 3)]);
}

#[test]
fn drain_never_crosses_color_boundary() {
    // A request of 4 is clamped to the total (3), but only the contiguous
    // top run (one unit of blue) comes out.
    let mut t = ColorTube::new(4, vec![seg(RED, 2), seg(BLUE, 1)]);
    let drained = t.drain(4);
    assert_eq!(drained, Some(seg(BLUE, 1)));
    assert_eq!(segs_of(&t), vec![(RED, 2)]);
    check_invariants(&t);
}

#[test]
fn drain_splits_top_run() {
    let mut t = ColorTube::new(4, vec![seg(RED, 3)]);
    let drained = t.drain(2);
    assert_eq!(drained, Some(seg(RED, 2)));
    assert_eq!(segs_of(&t), vec![(RED, 1)]);
    check_invariants(&t);
}

#[test]
fn drain_whole_top_run_exactly() {
    let mut t = ColorTube::new(4, vec![seg(RED, 2), seg(BLUE, 2)]);
    let drained = t.drain(2);
    assert_eq!(drained, Some(seg(BLUE, 2)));
    assert_eq!(segs_of(&t), vec![(RED, 2)]);
}

#[test]
fn drain_empty_tube_returns_none() {
    let mut t = ColorTube::new(4, Vec::new());
    assert_eq!(t.drain(2), None);
    assert!(segs_of(&t).is_empty());
}

#[test]
fn drain_zero_returns_none() {
    let mut t = ColorTube::new(4, vec![seg(RED, 2)]);
    assert_eq!(t.drain(0), None);
    assert_eq!(segs_of(&t), vec![(RED, 2)]);
}

#[test]
fn drain_then_fill_restores_split_run() {
    let mut t = ColorTube::new(4, vec![seg(RED, 3)]);
    let drained = t.drain(2).unwrap();
    let rejected = t.fill_unchecked(drained);
    assert!(rejected.is_none());
    assert_eq!(segs_of(&t), vec![(RED, 3)]);
}

#[test]
fn drain_then_fill_restores_whole_run() {
    let mut t = ColorTube::new(4, vec![seg(RED, 2), seg(BLUE, 1)]);
    let drained = t.drain(1).unwrap();
    let rejected = t.fill_unchecked(drained);
    assert!(rejected.is_none());
    assert_eq!(segs_of(&t), vec![(RED, 2), (BLUE, 1)]);
}

#[test]
fn invariants_hold_after_mixed_operations() {
    let mut t = ColorTube::new(6, Vec::new());
    assert!(t.fill_unchecked(seg(RED, 2)).is_none());
    assert!(t.fill_unchecked(seg(BLUE, 1)).is_none());
    assert!(t.fill_unchecked(seg(BLUE, 1)).is_none());
    check_invariants(&t);
    assert_eq!(segs_of(&t), vec![(RED, 2), (BLUE, 2)]);
    let _ = t.drain(1);
    check_invariants(&t);
    assert!(t.fill_unchecked(seg(GREEN, 3)).is_none());
    check_invariants(&t);
    assert_eq!(t.fill_unchecked(seg(RED, 1)), Some(seg(RED, 1)));
    check_invariants(&t);
    assert_eq!(segs_of(&t), vec![(RED, 2), (BLUE, 1), (GREEN, 3)]);
    assert_eq!(t.amount(), 6);
    assert_eq!(t.remaining_capacity(), 0);
}

#[test]
fn operations_preserve_capacity_flags_and_shortcut() {
    let mut t = ColorTube::new(4, vec![seg(RED, 2)]);
    assert_eq!(t.keycode, None);
    t.keycode = Some('q');
    t.hovered = true;
    let _ = t.drain(1);
    let _ = t.fill_unchecked(seg(RED, 1));
    let _ = t.fill(seg(BLUE, 1));
    assert_eq!(t.keycode, Some('q'));
    assert!(t.hovered);
    assert_eq!(t.capacity, 4);
}

#[test]
fn amount_and_remaining_capacity() {
    let t = ColorTube::new(5, vec![seg(RED, 2), seg(BLUE, 1)]);
    assert_eq!(t.amount(), 3);
    assert_eq!(t.remaining_capacity(), 2);
}

#[test]
fn main_color_is_largest_total() {
    let t = ColorTube::new(8, vec![seg(RED, 2), seg(BLUE, 1), seg(RED, 1)]);
    assert_eq!(t.main_color(), Some(RED));
}

#[test]
fn main_color_tie_goes_to_smallest_id() {
    let t = ColorTube::new(4, vec![seg(GREEN, 1), seg(BLUE, 1)]);
    assert_eq!(t.main_color(), Some(BLUE));
}

#[test]
fn main_color_empty_is_none() {
    let t = ColorTube::new(4, Vec::new());
    assert_eq!(t.main_color(), None);
}

#[test]
fn color_pct_is_exact_fraction_of_capacity() {
    let t = ColorTube::new(4, vec![seg(RED, 2), seg(BLUE, 1)]);
    let f = t.color_pct(RED);
    assert_eq!((f.num, f.den), (2, 4));
    let f = t.color_pct(BLUE);
    assert_eq!((f.num, f.den), (1, 4));
    let f = t.color_pct(GREEN);
    assert_eq!((f.num, f.den), (0, 4));
}

#[test]
fn color_pct_stays_in_unit_interval() {
    let t = ColorTube::new(4, vec![seg(RED, 4)]);
    let f = t.color_pct(RED);
    assert!(f.num <= f.den && f.den > 0);
    assert!(f.is_one());
}

#[test]
fn complete_pct_uses_main_color() {
    let t = ColorTube::new(4, vec![seg(RED, 2), seg(BLUE, 1)]);
    let f = t.complete_pct();
    assert_eq!((f.num, f.den), (2, 4));
    assert!(f.num <= f.den && f.den > 0);
}

#[test]
fn complete_pct_empty_tube_is_one() {
    let t = ColorTube::new(4, Vec::new());
    let f = t.complete_pct();
    assert!(f.is_one());
}

#[test]
fn complete_pct_uniform_full_tube_is_one() {
    let t = ColorTube::new(4, vec![seg(BLUE, 4)]);
    assert!(t.complete_pct().is_one());
}
