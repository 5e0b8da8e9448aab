use masonry_core::box_constraints::BoxConstraints;
use masonry_core::size::{Frac, Size};

fn bc(min_width: u64, min_height: u64, max_width: u64, max_height: u64) -> BoxConstraints {
    BoxConstraints::new(Size::new(min_width, min_height), Size::new(max_width, max_height))
}

fn whole(n: u64) -> Frac {
    Frac::whole(n)
}

fn frac(num: u64, den: u64) -> Frac {
    Frac::new(num, den)
}

#[test]
fn constrain_aspect_ratio() {
    let unbounded_height = BoxConstraints::new(
        Size::new(50, 0),
        Size::from_fracs(whole(50), Frac::unbounded()),
    );
    for (bc, aspect_ratio, width, output) in [
        // The ideal size lies within the constraints
        (bc(0, 0, 100, 100), whole(1), whole(50), Size::new(50, 50)),
        (bc(0, 10, 90, 100), whole(1), whole(50), Size::new(50, 50)),
        // The correct aspect ratio is available (but not width)
        // min height
        (bc(10, 10, 100, 100), whole(1), whole(5), Size::new(10, 10)),
        (bc(40, 90, 60, 100), whole(2), whole(30), Size::new(45, 90)),
        (bc(10, 10, 100, 100), frac(1, 2), whole(5), Size::new(20, 10)),
        // min width
        (bc(10, 10, 100, 100), whole(2), whole(5), Size::new(10, 20)),
        (bc(90, 40, 100, 60), frac(1, 2), whole(60), Size::new(90, 45)),
        (bc(50, 0, 50, 100), whole(1), whole(100), Size::new(50, 50)),
        // max height
        (bc(10, 10, 100, 100), whole(2), whole(105), Size::new(50, 100)),
        (bc(10, 10, 100, 100), frac(1, 2), whole(105), Size::new(100, 50)),
        // The correct aspect ratio is not available
        (bc(20, 20, 40, 40), whole(10), whole(30), Size::new(20, 40)),
        (bc(20, 20, 40, 40), frac(1, 10), whole(30), Size::new(40, 20)),
        // non-finite
        (unbounded_height, whole(1), whole(100), Size::new(50, 50)),
    ]
    .iter()
    {
        assert_eq!(
            bc.constrain_aspect_ratio(*aspect_ratio, *width),
            *output,
            "bc:{bc:?}, aspect_ratio:{aspect_ratio:?}, width:{width:?}",
        );
    }
}

#[test]
fn unbounded() {
    assert!(!BoxConstraints::unbounded().is_width_bounded());
    assert!(!BoxConstraints::unbounded().is_height_bounded());

    assert_eq!(BoxConstraints::unbounded().min(), Size::zero());
}

#[test]
fn new_rounds_away_from_zero() {
    let c = BoxConstraints::new(
        Size::from_fracs(frac(21, 2), frac(3, 1)),
        Size::from_fracs(frac(201, 2), frac(199, 2)),
    );
    assert_eq!(c.min(), Size::new(11, 3));
    assert_eq!(c.max(), Size::new(101, 100));
    assert_eq!(c.min().width.den, 1);
    assert_eq!(c.min().width.num, 11);
}

#[test]
fn tight_is_satisfied_by_one_size() {
    let c = BoxConstraints::tight(Size::from_fracs(frac(5, 2), whole(7)));
    assert_eq!(c.min(), Size::new(3, 7));
    assert_eq!(c.max(), Size::new(3, 7));
    assert_eq!(c.constrain(Size::new(100, 0)), Size::new(3, 7));
}

#[test]
fn constrain_clamps_into_the_box() {
    let c = bc(10, 20, 100, 200);
    assert_eq!(c.constrain(Size::new(5, 500)), Size::new(10, 200));
    assert_eq!(c.constrain(Size::new(50, 60)), Size::new(50, 60));
    assert_eq!(c.constrain(Size::from_fracs(frac(101, 2), frac(1, 3))), Size::new(51, 20));
    let u = BoxConstraints::unbounded();
    assert_eq!(u.constrain(Size::new(12345, 6789)), Size::new(12345, 6789));
}

#[test]
fn loosen_keeps_the_maximum() {
    let c = bc(10, 20, 100, 200).loosen();
    assert_eq!(c.min(), Size::zero());
    assert_eq!(c.max(), Size::new(100, 200));
    assert_eq!(BoxConstraints::unbounded().loosen(), BoxConstraints::unbounded());
}

#[test]
fn shrink_subtracts_floored_at_zero() {
    let c = bc(10, 20, 100, 200).shrink(Size::new(15, 5));
    assert_eq!(c.min(), Size::new(0, 15));
    assert_eq!(c.max(), Size::new(85, 195));
    let u = BoxConstraints::unbounded().shrink(Size::new(15, 5));
    assert!(!u.is_width_bounded());
    assert_eq!(u.min(), Size::zero());
    let fractional = bc(10, 10, 10, 10).shrink(Size::from_fracs(frac(3, 2), frac(1, 2)));
    assert_eq!(fractional.max(), Size::new(8, 9));
}

#[test]
fn bounded_or_uses_the_fallback_on_unbounded_axes() {
    let c = BoxConstraints::new(Size::zero(), Size::from_fracs(whole(30), Frac::unbounded()));
    assert!(c.is_width_bounded());
    assert!(!c.is_height_bounded());
    assert_eq!(c.bounded_or(Size::new(7, 8)), Size::new(30, 8));
    assert_eq!(bc(0, 0, 1, 2).bounded_or(Size::new(7, 8)), Size::new(1, 2));
}

#[test]
fn contains_by_value() {
    let c = bc(10, 10, 20, 20);
    assert!(c.contains(Size::new(10, 20)));
    assert!(c.contains(Size::from_fracs(frac(25, 2), frac(40, 2))));
    assert!(!c.contains(Size::from_fracs(frac(41, 2), whole(15))));
    assert!(!c.contains(Size::new(9, 15)));
}

#[test]
fn debug_check_reports_unsound_constraints() {
    assert!(bc(10, 10, 20, 20).debug_check());
    assert!(BoxConstraints::unbounded().debug_check());
    assert!(!bc(30, 10, 20, 20).debug_check());
    assert!(!bc(10, 30, 20, 20).debug_check());
    let infinite_min = BoxConstraints::new(
        Size::from_fracs(Frac::unbounded(), whole(0)),
        Size::from_fracs(Frac::unbounded(), Frac::unbounded()),
    );
    assert!(!infinite_min.debug_check());
}

#[test]
fn aspect_ratio_ideal_size_is_returned_unchanged() {
    let c = bc(0, 0, 100, 100);
    let r = c.constrain_aspect_ratio(frac(1, 3), whole(10));
    assert_eq!(r, Size::from_fracs(whole(10), frac(10, 3)));
    assert_eq!(r.height.num, 10);
    assert_eq!(r.height.den, 3);
    assert_eq!(c.constrain_aspect_ratio(whole(1), whole(50)), Size::new(50, 50));
}

#[test]
fn aspect_ratio_hits_the_min_width_edge() {
    let c = bc(10, 10, 100, 100);
    assert_eq!(c.constrain_aspect_ratio(whole(2), frac(5, 1)), Size::new(10, 20));
}

#[test]
fn aspect_ratio_is_idempotent_in_box() {
    for (c, ratio, width) in [
        (bc(40, 90, 60, 100), whole(2), whole(30)),
        (bc(10, 10, 100, 100), frac(1, 2), whole(5)),
        (bc(10, 10, 100, 100), whole(2), whole(105)),
        (bc(0, 0, 100, 100), frac(2, 3), whole(7)),
        (bc(20, 20, 40, 40), frac(3, 2), whole(90)),
    ] {
        let first = c.constrain_aspect_ratio(ratio, width);
        assert!(c.contains(first));
        let second = c.constrain_aspect_ratio(ratio, first.width);
        assert_eq!(first, second);
    }
}

#[test]
fn aspect_ratio_zero_area_box() {
    let c = bc(0, 0, 0, 0);
    assert_eq!(c.constrain_aspect_ratio(whole(1), whole(10)), Size::zero());
}

#[test]
fn frac_operations() {
    assert_eq!(frac(1, 2).mul(&whole(4)), whole(2));
    assert_eq!(whole(0).mul(&Frac::unbounded()), whole(0));
    assert_eq!(frac(2, 3).recip(), frac(3, 2));
    assert_eq!(frac(7, 2).expand(), whole(4));
    assert_eq!(frac(8, 2).expand(), whole(4));
    assert!(frac(1, 3).lt_exec(&frac(1, 2)));
    assert!(whole(5).le_exec(&Frac::unbounded()));
    assert!(!Frac::unbounded().le_exec(&whole(5)));
    assert_eq!(frac(2, 4), frac(1, 2));
    assert_ne!(frac(2, 4), frac(1, 3));
}

#[test]
fn aspect_ratio_takes_the_entry_point_on_the_min_height_edge() {
    // Ratio 1/2 is reached for widths 20 to 100; 20 is nearest to 15.
    let c = bc(10, 10, 100, 100);
    assert_eq!(c.constrain_aspect_ratio(frac(1, 2), whole(15)), Size::new(20, 10));
    assert_eq!(c.constrain_aspect_ratio(frac(1, 2), whole(5)), Size::new(20, 10));
    assert_eq!(c.constrain_aspect_ratio(frac(1, 2), whole(150)), Size::new(100, 50));
}

#[test]
fn aspect_ratio_zero_keeps_the_nearest_width() {
    let c = bc(10, 0, 100, 100);
    assert_eq!(c.constrain_aspect_ratio(whole(0), whole(5)), Size::new(10, 0));
    assert_eq!(c.constrain_aspect_ratio(whole(0), whole(500)), Size::new(100, 0));
    assert_eq!(c.constrain_aspect_ratio(whole(0), whole(50)), Size::new(50, 0));
    // No size of ratio zero: the one of least ratio.
    assert_eq!(bc(10, 20, 100, 100).constrain_aspect_ratio(whole(0), whole(50)), Size::new(100, 20));
}

#[test]
fn aspect_ratio_result_lies_in_the_box() {
    let boxes = [bc(0, 0, 100, 100), bc(10, 10, 100, 100), bc(40, 90, 60, 100), bc(20, 20, 40, 40), bc(0, 0, 0, 0), bc(10, 0, 10, 0)];
    let ratios = [whole(0), frac(1, 10), frac(1, 2), whole(1), frac(3, 2), whole(10)];
    let widths = [whole(0), whole(5), whole(15), frac(61, 2), whole(105)];
    for c in boxes {
        for r in ratios {
            for w in widths {
                let size = c.constrain_aspect_ratio(r, w);
                assert!(c.contains(size), "{c:?} {r:?} {w:?} -> {size:?}");
            }
        }
    }
}
