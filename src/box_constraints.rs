//! Box constraints: the minimum and maximum size that a parent hands to a
//! child during layout.
use vstd::prelude::*;

use crate::size::{lemma_u64_mul_fits, Frac, Size};

verus! {

/// `r > a / b`, where a quotient `0 / 0` (or `unbounded / unbounded`)
/// compares false both ways.
pub open spec fn gt_quot(r: Frac, a: Frac, b: Frac) -> bool {
    r.num * (a.den * b.num) > (a.num * b.den) * r.den
}

/// `r < a / b`, under the same rules as [`gt_quot`].
pub open spec fn lt_quot(r: Frac, a: Frac, b: Frac) -> bool {
    r.num * (a.den * b.num) < (a.num * b.den) * r.den
}

/// `a - d`, floored at zero, for whole values: an unbounded `d` leaves zero,
/// an unbounded `a` stays unbounded.
pub open spec fn sub_floor_spec(a: Frac, d: Frac) -> Frac {
    if d.den == 0 {
        Frac::whole_spec(0)
    } else if a.den == 0 {
        a
    } else if a.num >= d.num {
        Frac::whole_spec((a.num - d.num) as u64)
    } else {
        Frac::whole_spec(0)
    }
}

/// The smaller of two values; the first on a tie.
pub open spec fn min_frac(a: Frac, b: Frac) -> Frac {
    if b.lt(a) { b } else { a }
}

/// The larger of two values; the first on a tie.
pub open spec fn max_frac(a: Frac, b: Frac) -> Frac {
    if a.lt(b) { b } else { a }
}

/// Constraints for layout: a minimum and a maximum size.
///
/// Every component is whole (an integer, or unbounded), so that layout is
/// aligned to pixels. The maximum may be unbounded on either axis.
#[derive(Clone, Copy, Debug, PartialEq)]
pub struct BoxConstraints {
    min: Size,
    max: Size,
}

impl BoxConstraints {
    #[verifier::type_invariant]
    pub closed spec fn wf(self) -> bool {
        &&& self.min.width.is_whole()
        &&& self.min.height.is_whole()
        &&& self.max.width.is_whole()
        &&& self.max.height.is_whole()
    }

    /// The minimum size.
    pub closed spec fn min_spec(self) -> Size {
        self.min
    }

    /// The maximum size.
    pub closed spec fn max_spec(self) -> Size {
        self.max
    }

    /// Whether `size` lies within the constraints, by value.
    pub open spec fn contains_spec(self, size: Size) -> bool {
        &&& self.min_spec().width.le(size.width)
        &&& size.width.le(self.max_spec().width)
        &&& self.min_spec().height.le(size.height)
        &&& size.height.le(self.max_spec().height)
    }

    /// The minimum is at most the maximum on both axes.
    pub open spec fn is_ordered(self) -> bool {
        self.min_spec().width.le(self.max_spec().width) && self.min_spec().height.le(
            self.max_spec().height,
        )
    }

    /// Sound constraints: a finite minimum, at most the maximum on both axes.
    pub open spec fn is_sound(self) -> bool {
        &&& self.min_spec().width.is_finite()
        &&& self.min_spec().height.is_finite()
        &&& self.is_ordered()
    }

    /// `size` rounded away from zero, then clamped into `[min, max]` on each axis.
    pub open spec fn constrain_spec(self, size: Size) -> Size {
        let e = size.expand_spec();
        Size {
            width: min_frac(max_frac(e.width, self.min_spec().width), self.max_spec().width),
            height: min_frac(max_frac(e.height, self.min_spec().height), self.max_spec().height),
        }
    }

    /// The products that [`BoxConstraints::constrain_aspect_ratio`] may form fit in a `u64`.
    pub open spec fn aspect_fits(self, aspect_ratio: Frac, width: Frac) -> bool {
        &&& width.mul_fits(aspect_ratio)
        &&& self.min_spec().width.mul_fits(aspect_ratio)
        &&& self.max_spec().width.mul_fits(aspect_ratio)
        &&& self.min_spec().height.mul_fits(aspect_ratio.recip_spec())
        &&& self.max_spec().height.mul_fits(aspect_ratio.recip_spec())
    }

    /// The size within the constraints whose aspect ratio (`height / width`)
    /// is nearest to `aspect_ratio`, preferring the width nearest `width`.
    pub open spec fn constrain_aspect_ratio_spec(self, aspect_ratio: Frac, width: Frac) -> Size {
        let min = self.min_spec();
        let max = self.max_spec();
        let ideal = Size { width, height: width.mul_spec(aspect_ratio) };
        if self.contains_spec(ideal) {
            ideal
        } else if gt_quot(aspect_ratio, max.height, min.width) {
            Size { width: min.width, height: max.height }
        } else if lt_quot(aspect_ratio, min.height, max.width) {
            Size { width: max.width, height: min.height }
        } else if gt_quot(aspect_ratio, min.height, min.width) {
            if width.lt(min.width) {
                Size { width: min.width, height: min.width.mul_spec(aspect_ratio) }
            } else if lt_quot(aspect_ratio, max.height, max.width) {
                Size { width: max.width, height: max.width.mul_spec(aspect_ratio) }
            } else {
                Size { width: max.height.mul_spec(aspect_ratio.recip_spec()), height: max.height }
            }
        } else {
            // The line enters the box through the minimum height, at this width.
            let entry = min.height.mul_spec(aspect_ratio.recip_spec());
            if aspect_ratio.num == 0 {
                if min.height.num == 0 {
                    Size { width: min_frac(max_frac(width, min.width), max.width), height: min.height }
                } else {
                    Size { width: max.width, height: min.height }
                }
            } else if width.lt(entry) {
                Size { width: entry, height: min.height }
            } else if gt_quot(aspect_ratio, max.height, max.width) {
                Size { width: max.height.mul_spec(aspect_ratio.recip_spec()), height: max.height }
            } else {
                Size { width: max.width, height: max.width.mul_spec(aspect_ratio) }
            }
        }
    }

    /// The minimum lies within ordered constraints.
    pub proof fn lemma_min_in_box(self)
        requires
            self.wf(),
        ensures
            self.is_ordered() ==> self.contains_spec(self.min_spec()),
    {
        lemma_whole_total(self.min.width, self.min.width);
        lemma_whole_total(self.min.height, self.min.height);
    }

    /// Constraints that any size satisfies: zero minimum, unbounded maximum.
    pub fn unbounded() -> (r: BoxConstraints)
        ensures
            r.min_spec() == Size::zero_spec(),
            r.max_spec() == (Size { width: Frac::unbounded_spec(), height: Frac::unbounded_spec() }),
    {
        BoxConstraints {
            min: Size::zero(),
            max: Size::from_fracs(Frac::unbounded(), Frac::unbounded()),
        }
    }

    /// Creates constraints from a minimum and a maximum size, each rounded
    /// away from zero.
    pub fn new(min: Size, max: Size) -> (r: BoxConstraints)
        ensures
            r.min_spec() == min.expand_spec(),
            r.max_spec() == max.expand_spec(),
    {
        BoxConstraints { min: min.expand(), max: max.expand() }
    }

    /// Creates constraints that only `size`, rounded away from zero, satisfies.
    pub fn tight(size: Size) -> (r: BoxConstraints)
        ensures
            r.min_spec() == size.expand_spec(),
            r.max_spec() == size.expand_spec(),
    {
        let size = size.expand();
        BoxConstraints { min: size, max: size }
    }

    /// The same maximum with a zero minimum.
    pub fn loosen(&self) -> (r: BoxConstraints)
        ensures
            r.min_spec() == Size::zero_spec(),
            r.max_spec() == self.max_spec(),
    {
        proof {
            use_type_invariant(self);
        }
        BoxConstraints { min: Size::zero(), max: self.max }
    }

    /// Clamps `size`, rounded away from zero, into the constraints.
    pub fn constrain(&self, size: Size) -> (r: Size)
        ensures
            r == self.constrain_spec(size),
            self.is_ordered() ==> self.contains_spec(r),
    {
        proof {
            use_type_invariant(self);
        }
        let e = size.expand();
        let w = if e.width.lt_exec(&self.min.width) { self.min.width } else { e.width };
        let w = if self.max.width.lt_exec(&w) { self.max.width } else { w };
        let h = if e.height.lt_exec(&self.min.height) { self.min.height } else { e.height };
        let h = if self.max.height.lt_exec(&h) { self.max.height } else { h };
        proof {
            lemma_whole_total(e.width, self.min.width);
            lemma_whole_total(self.max.width, w);
            lemma_whole_total(e.height, self.min.height);
            lemma_whole_total(self.max.height, h);
            lemma_whole_le_trans(self.min.width, e.width, w);
            lemma_whole_le_trans(self.min.height, e.height, h);
            lemma_whole_le_trans(self.min.width, self.max.width, w);
            lemma_whole_le_trans(self.min.height, self.max.height, h);
        }
        Size { width: w, height: h }
    }

    /// The maximum size.
    pub fn max(&self) -> (r: Size)
        ensures
            r == self.max_spec(),
    {
        self.max
    }

    /// The minimum size.
    pub fn min(&self) -> (r: Size)
        ensures
            r == self.min_spec(),
    {
        self.min
    }

    /// Whether the maximum width is finite.
    pub fn is_width_bounded(&self) -> (r: bool)
        ensures
            r == self.max_spec().width.is_finite(),
    {
        self.max.width.finite()
    }

    /// Whether the maximum height is finite.
    pub fn is_height_bounded(&self) -> (r: bool)
        ensures
            r == self.max_spec().height.is_finite(),
    {
        self.max.height.finite()
    }

    /// The maximum on each axis where it is bounded, else the component of `size`.
    pub fn bounded_or(&self, size: Size) -> (r: Size)
        ensures
            r.width == (if self.max_spec().width.is_finite() {
                self.max_spec().width
            } else {
                size.width
            }),
            r.height == (if self.max_spec().height.is_finite() {
                self.max_spec().height
            } else {
                size.height
            }),
    {
        Size {
            width: if self.is_width_bounded() {
                self.max.width
            } else {
                size.width
            },
            height: if self.is_height_bounded() {
                self.max.height
            } else {
                size.height
            },
        }
    }

    /// Whether the constraints are sound: a finite minimum that is at most
    /// the maximum on both axes. (Every component is whole by construction.)
    pub fn debug_check(&self) -> (r: bool)
        ensures
            r == self.is_sound(),
    {
        self.min.width.finite() && self.min.height.finite() && self.min.width.le_exec(
            &self.max.width,
        ) && self.min.height.le_exec(&self.max.height)
    }

    /// Shrinks the minimum and the maximum by `diff`, rounded away from zero,
    /// floored at zero.
    pub fn shrink(&self, diff: Size) -> (r: BoxConstraints)
        ensures
            r.min_spec() == (Size {
                width: sub_floor_spec(self.min_spec().width, diff.expand_spec().width),
                height: sub_floor_spec(self.min_spec().height, diff.expand_spec().height),
            }),
            r.max_spec() == (Size {
                width: sub_floor_spec(self.max_spec().width, diff.expand_spec().width),
                height: sub_floor_spec(self.max_spec().height, diff.expand_spec().height),
            }),
    {
        proof {
            use_type_invariant(self);
        }
        let d = diff.expand();
        let min = Size {
            width: sub_floor(self.min.width, d.width),
            height: sub_floor(self.min.height, d.height),
        };
        let max = Size {
            width: sub_floor(self.max.width, d.width),
            height: sub_floor(self.max.height, d.height),
        };
        BoxConstraints::new(min, max)
    }

    /// Finds the size within the constraints whose aspect ratio
    /// (`height / width`) is nearest to `aspect_ratio`; among those, the one
    /// whose width is nearest to `width`.
    ///
    /// When the ideal size `(width, width * aspect_ratio)` already lies within
    /// the constraints it is returned unchanged. Otherwise the aspect-ratio
    /// line is compared with the ratios of the box's corners: a line that
    /// misses the box gives the nearest corner, and a line that crosses it
    /// gives the point where it enters or leaves the box.
    pub fn constrain_aspect_ratio(&self, aspect_ratio: Frac, width: Frac) -> (r: Size)
        requires
            aspect_ratio.is_finite(),
            width.is_finite(),
            self.aspect_fits(aspect_ratio, width),
        ensures
            r == self.constrain_aspect_ratio_spec(aspect_ratio, width),
            self.is_sound() ==> self.contains_spec(r),
            self.contains_spec(Size { width, height: width.mul_spec(aspect_ratio) }) ==> r == (Size {
                width,
                height: width.mul_spec(aspect_ratio),
            }),
    {
        proof {
            use_type_invariant(self);
            if self.is_sound() {
                lemma_constrain_aspect_ratio_in_box(*self, aspect_ratio, width);
            }
        }
        let ideal = Size { width, height: width.mul(&aspect_ratio) };
        if self.contains(ideal) {
            return ideal;
        }
        let (_, ratio_above_min_w_max_h) = cmp_quot(&aspect_ratio, &self.max.height, &self.min.width);
        let (ratio_below_max_w_min_h, _) = cmp_quot(&aspect_ratio, &self.min.height, &self.max.width);
        let (_, ratio_above_min_w_min_h) = cmp_quot(&aspect_ratio, &self.min.height, &self.min.width);
        let (ratio_below_max_w_max_h, ratio_above_max_w_max_h) = cmp_quot(
            &aspect_ratio,
            &self.max.height,
            &self.max.width,
        );
        if ratio_above_min_w_max_h {
            // The line passes above the box: the corner of least width and most height.
            Size { width: self.min.width, height: self.max.height }
        } else if ratio_below_max_w_min_h {
            // The line passes below the box: the corner of most width and least height.
            Size { width: self.max.width, height: self.min.height }
        } else if ratio_above_min_w_min_h {
            // The line enters the box through the minimum width.
            if width.lt_exec(&self.min.width) {
                Size { width: self.min.width, height: self.min.width.mul(&aspect_ratio) }
            } else if ratio_below_max_w_max_h {
                // It leaves through the maximum width.
                Size { width: self.max.width, height: self.max.width.mul(&aspect_ratio) }
            } else {
                // It leaves through the maximum height.
                Size { width: self.max.height.mul(&aspect_ratio.recip()), height: self.max.height }
            }
        } else {
            // The line enters the box through the minimum height.
            let entry = self.min.height.mul(&aspect_ratio.recip());
            if aspect_ratio.num == 0 {
                // Every size of least height has the least ratio: keep the
                // width nearest `width`.
                if self.min.height.num == 0 {
                    let w = if width.lt_exec(&self.min.width) { self.min.width } else { width };
                    let w = if self.max.width.lt_exec(&w) { self.max.width } else { w };
                    Size { width: w, height: self.min.height }
                } else {
                    Size { width: self.max.width, height: self.min.height }
                }
            } else if width.lt_exec(&entry) {
                Size { width: entry, height: self.min.height }
            } else if ratio_above_max_w_max_h {
                // It leaves through the maximum height.
                Size { width: self.max.height.mul(&aspect_ratio.recip()), height: self.max.height }
            } else {
                // It leaves through the maximum width.
                Size { width: self.max.width, height: self.max.width.mul(&aspect_ratio) }
            }
        }
    }

    /// Whether `size` lies within the constraints.
    pub fn contains(&self, size: Size) -> (r: bool)
        ensures
            r == self.contains_spec(size),
    {
        self.min.width.le_exec(&size.width) && size.width.le_exec(&self.max.width)
            && self.min.height.le_exec(&size.height) && size.height.le_exec(&self.max.height)
    }
}

/// `a - d` floored at zero, for whole values.
fn sub_floor(a: Frac, d: Frac) -> (r: Frac)
    requires
        a.is_whole(),
        d.is_whole(),
    ensures
        r == sub_floor_spec(a, d),
        r.is_whole(),
{
    if d.den == 0 {
        Frac::whole(0)
    } else if a.den == 0 {
        a
    } else if a.num >= d.num {
        Frac::whole(a.num - d.num)
    } else {
        Frac::whole(0)
    }
}

/// When some size within sound constraints has exactly the ratio
/// `aspect_ratio`, [`BoxConstraints::constrain_aspect_ratio`] gives a size
/// of exactly that ratio: `height == width * aspect_ratio`, by value.
pub proof fn lemma_constrain_aspect_ratio_attains_ratio(
    bc: BoxConstraints,
    aspect_ratio: Frac,
    width: Frac,
    witness: Size,
)
    requires
        bc.wf(),
        bc.is_sound(),
        aspect_ratio.is_finite(),
        aspect_ratio.num > 0,
        width.is_finite(),
        bc.aspect_fits(aspect_ratio, width),
        bc.contains_spec(witness),
        witness.width.is_finite(),
        witness.width.num > 0,
        witness.width.mul_fits(aspect_ratio),
        witness.height.wf(),
        witness.height.same(witness.width.mul_spec(aspect_ratio)),
    ensures
        ({
            let r = bc.constrain_aspect_ratio_spec(aspect_ratio, width);
            r.width.is_finite() && r.width.mul_fits(aspect_ratio) ==> r.height.same(
                r.width.mul_spec(aspect_ratio),
            )
        }),
{
    let min = bc.min_spec();
    let max = bc.max_spec();
    let ar = aspect_ratio;
    let r = bc.constrain_aspect_ratio_spec(ar, width);
    let ideal = Size { width, height: width.mul_spec(ar) };
    let a = witness.width.num;
    let b = witness.width.den;
    let hn = witness.height.num;
    let hd = witness.height.den;
    assert(min.width.den == 1 && min.height.den == 1);
    lemma_whole_cases(max.width);
    lemma_whole_cases(max.height);
    assert(witness.width.mul_spec(ar).num == a * ar.num && witness.width.mul_spec(ar).den == b
        * ar.den);
    // The witness's height, times `b * ar.den`, is `a * ar.num` times its
    // denominator.
    assert(hn * (b * ar.den) == (a * ar.num) * hd);
    assert(min.width.num * b <= a) by (nonlinear_arith)
        requires
            min.width.num * b <= a * min.width.den,
            min.width.den == 1,
    ;
    assert(hd > 0) by {
        if hd == 0 {
            assert(hn * (b * ar.den) == 0) by (nonlinear_arith)
                requires
                    hn * (b * ar.den) == (a * ar.num) * hd,
                    hd == 0,
            ;
            assert(a * ar.num > 0) by (nonlinear_arith)
                requires
                    a > 0,
                    ar.num > 0,
            ;
            assert(b * ar.den > 0) by (nonlinear_arith)
                requires
                    b > 0,
                    ar.den > 0,
            ;
            assert(hn > 0);
            assert(hn * (b * ar.den) > 0) by (nonlinear_arith)
                requires
                    hn > 0,
                    b * ar.den > 0,
            ;
        }
    }
    if bc.contains_spec(ideal) {
        lemma_same_refl(ideal.height);
    } else if gt_quot(ar, max.height, min.width) {
        // No size in the box reaches this ratio: a contradiction.
        if max.height.den == 0 {
            assert(ar.num * (max.height.den * min.width.num) == 0) by (nonlinear_arith)
                requires
                    max.height.den == 0,
            ;
        }
        assert(max.height.den == 1);
        assert(ar.num * min.width.num > max.height.num * ar.den) by (nonlinear_arith)
            requires
                gt_quot(ar, max.height, min.width),
                min.width.den == 1,
                max.height.den == 1,
        ;
        assert(hn <= max.height.num * hd) by (nonlinear_arith)
            requires
                hn * max.height.den <= max.height.num * hd,
                max.height.den == 1,
        ;
        assert(false) by (nonlinear_arith)
            requires
                hn * (b * ar.den) == (a * ar.num) * hd,
                min.width.num * b <= a,
                ar.num * min.width.num > max.height.num * ar.den,
                hn <= max.height.num * hd,
                hd > 0,
                b > 0,
                ar.den > 0,
                ar.num > 0,
        ;
    } else if lt_quot(ar, min.height, max.width) {
        if max.width.den == 0 {
            assert((min.height.num * max.width.den) * ar.den == 0) by (nonlinear_arith)
                requires
                    max.width.den == 0,
            ;
            assert(ar.num * (min.height.den * max.width.num) >= 0) by (nonlinear_arith);
        }
        assert(max.width.den == 1);
        assert(ar.num * max.width.num < min.height.num * ar.den) by (nonlinear_arith)
            requires
                lt_quot(ar, min.height, max.width),
                min.height.den == 1,
                max.width.den == 1,
        ;
        assert(a <= max.width.num * b) by (nonlinear_arith)
            requires
                a * max.width.den <= max.width.num * b,
                max.width.den == 1,
        ;
        assert(min.height.num * hd <= hn) by (nonlinear_arith)
            requires
                min.height.num * hd <= hn * min.height.den,
                min.height.den == 1,
        ;
        assert(false) by (nonlinear_arith)
            requires
                hn * (b * ar.den) == (a * ar.num) * hd,
                a <= max.width.num * b,
                ar.num * max.width.num < min.height.num * ar.den,
                min.height.num * hd <= hn,
                hd > 0,
                b > 0,
                ar.den > 0,
                ar.num > 0,
        ;
    } else if gt_quot(ar, min.height, min.width) {
        if width.lt(min.width) {
            lemma_same_refl(r.height);
        } else if lt_quot(ar, max.height, max.width) {
            lemma_same_refl(r.height);
        } else {
            lemma_ratio_of_quotient(max.height, ar, r.width);
        }
    } else {
        let entry = min.height.mul_spec(ar.recip_spec());
        if width.lt(entry) {
            lemma_ratio_of_quotient(min.height, ar, r.width);
        } else if gt_quot(ar, max.height, max.width) {
            lemma_ratio_of_quotient(max.height, ar, r.width);
        } else {
            lemma_same_refl(r.height);
        }
    }
}

/// The size `(h / ar, h)` has the ratio `ar`, by value, when its width is
/// finite.
proof fn lemma_ratio_of_quotient(h: Frac, ar: Frac, w: Frac)
    requires
        h.is_whole(),
        ar.is_finite(),
        ar.num > 0,
        h.mul_fits(ar.recip_spec()),
        w == h.mul_spec(ar.recip_spec()),
    ensures
        w.is_finite() && w.mul_fits(ar) ==> h.same(w.mul_spec(ar)),
{
    if w.is_finite() && w.mul_fits(ar) {
        lemma_recip_round_trip(h, ar);
        let back = w.mul_spec(ar);
        assert(back.same(h));
        assert(h.same(back)) by (nonlinear_arith)
            requires
                back.num * h.den == h.num * back.den,
        ;
    }
}

/// With sound constraints, [`BoxConstraints::constrain_aspect_ratio`] gives
/// a size within them.
pub proof fn lemma_constrain_aspect_ratio_in_box(bc: BoxConstraints, aspect_ratio: Frac, width: Frac)
    requires
        bc.wf(),
        bc.is_sound(),
        aspect_ratio.is_finite(),
        width.is_finite(),
        bc.aspect_fits(aspect_ratio, width),
    ensures
        bc.contains_spec(bc.constrain_aspect_ratio_spec(aspect_ratio, width)),
{
    let min = bc.min_spec();
    let max = bc.max_spec();
    let ar = aspect_ratio;
    let r = bc.constrain_aspect_ratio_spec(ar, width);
    let ideal = Size { width, height: width.mul_spec(ar) };
    assert(min.width.den == 1 && min.height.den == 1);
    lemma_whole_cases(max.width);
    lemma_whole_cases(max.height);
    if bc.contains_spec(ideal) {
    } else if gt_quot(ar, max.height, min.width) {
    } else if lt_quot(ar, min.height, max.width) {
    } else if gt_quot(ar, min.height, min.width) {
        assert(ar.num * min.width.num > min.height.num * ar.den) by (nonlinear_arith)
            requires
                gt_quot(ar, min.height, min.width),
                min.width.den == 1,
                min.height.den == 1,
        ;
        assert(ar.num > 0 && min.width.num > 0) by (nonlinear_arith)
            requires
                ar.num * min.width.num > min.height.num * ar.den,
                min.height.num * ar.den >= 0,
        ;
        if max.height.den == 1 {
            assert(ar.num * min.width.num <= max.height.num * ar.den) by (nonlinear_arith)
                requires
                    !gt_quot(ar, max.height, min.width),
                    min.width.den == 1,
                    max.height.den == 1,
            ;
        }
        if width.lt(min.width) {
            let h = min.width.mul_spec(ar);
            lemma_whole_mul(min.width, ar);
            assert(min.height.le(h)) by (nonlinear_arith)
                requires
                    h.num == min.width.num * ar.num,
                    h.den == ar.den,
                    ar.num * min.width.num > min.height.num * ar.den,
                    min.height.den == 1,
            ;
            if max.height.den == 1 {
                assert(h.le(max.height)) by (nonlinear_arith)
                    requires
                        h.num == min.width.num * ar.num,
                        h.den == ar.den,
                        ar.num * min.width.num <= max.height.num * ar.den,
                        max.height.den == 1,
                ;
            }
        } else if lt_quot(ar, max.height, max.width) {
            if max.width.den == 0 {
                assert(ar.num * (max.height.den * max.width.num) >= 0) by (nonlinear_arith);
                assert((max.height.num * max.width.den) * ar.den == 0) by (nonlinear_arith)
                    requires
                        max.width.den == 0,
                ;
            }
            assert(max.width.den == 1);
            lemma_whole_le(min.width, max.width);
            assert(min.width.num <= max.width.num);
            let h = max.width.mul_spec(ar);
            lemma_whole_mul(max.width, ar);
            assert(min.height.le(h)) by (nonlinear_arith)
                requires
                    h.num == max.width.num * ar.num,
                    h.den == ar.den,
                    ar.num * min.width.num > min.height.num * ar.den,
                    max.width.num >= min.width.num,
                    ar.num > 0,
                    min.height.den == 1,
            ;
            if max.height.den == 1 {
                assert(h.le(max.height)) by (nonlinear_arith)
                    requires
                        h.num == max.width.num * ar.num,
                        h.den == ar.den,
                        lt_quot(ar, max.height, max.width),
                        max.width.den == 1,
                        max.height.den == 1,
                ;
            }
        } else {
            lemma_exit_through_max_height(bc, ar);
        }
    } else {
        assert(ar.num * min.width.num <= min.height.num * ar.den) by (nonlinear_arith)
            requires
                !gt_quot(ar, min.height, min.width),
                min.width.den == 1,
                min.height.den == 1,
        ;
        let entry = min.height.mul_spec(ar.recip_spec());
        if ar.num == 0 {
            if min.height.num == 0 {
                let w0 = max_frac(width, min.width);
                let w = min_frac(w0, max.width);
                assert(min.width.le(w0)) by (nonlinear_arith)
                    requires
                        w0 == (if width.num * min.width.den < min.width.num * width.den {
                            min.width
                        } else {
                            width
                        }),
                        min.width.den == 1,
                ;
                assert(min.width.le(w) && w.le(max.width)) by (nonlinear_arith)
                    requires
                        w == (if max.width.num * w0.den < w0.num * max.width.den {
                            max.width
                        } else {
                            w0
                        }),
                        min.width.num * w0.den <= w0.num * min.width.den,
                        min.width.num * max.width.den <= max.width.num * min.width.den,
                        min.width.den == 1,
                        max.width.den == 0 || max.width.den == 1,
                        w0.den > 0,
                ;
            } else {
                assert(ar.num * (min.height.den * max.width.num) == 0);
                if max.width.den == 1 {
                    assert((min.height.num * max.width.den) * ar.den > 0) by (nonlinear_arith)
                        requires
                            min.height.num > 0,
                            max.width.den == 1,
                            ar.den > 0,
                    ;
                }
                assert(max.width.den == 0);
            }
        } else if width.lt(entry) {
            if min.height.num == 0 {
                assert(ar.num * min.width.num == 0) by (nonlinear_arith)
                    requires
                        ar.num * min.width.num <= min.height.num * ar.den,
                        min.height.num == 0,
                        ar.num >= 0,
                        min.width.num >= 0,
                ;
                assert(min.width.num == 0) by (nonlinear_arith)
                    requires
                        ar.num * min.width.num == 0,
                        ar.num > 0,
                ;
            } else {
                lemma_whole_div(min.height, ar);
                assert(min.width.le(entry)) by (nonlinear_arith)
                    requires
                        entry.num == min.height.num * ar.den,
                        entry.den == ar.num,
                        ar.num * min.width.num <= min.height.num * ar.den,
                        min.width.den == 1,
                ;
                if max.width.den == 1 {
                    assert(entry.le(max.width)) by (nonlinear_arith)
                        requires
                            entry.num == min.height.num * ar.den,
                            entry.den == ar.num,
                            !lt_quot(ar, min.height, max.width),
                            min.height.den == 1,
                            max.width.den == 1,
                    ;
                }
            }
        } else if gt_quot(ar, max.height, max.width) {
            if max.height.den == 0 {
                assert(ar.num * (max.height.den * max.width.num) == 0) by (nonlinear_arith)
                    requires
                        max.height.den == 0,
                ;
            }
            assert(max.height.den == 1);
            assert(ar.num * min.width.num <= max.height.num * ar.den) by (nonlinear_arith)
                requires
                    !gt_quot(ar, max.height, min.width),
                    min.width.den == 1,
                    max.height.den == 1,
            ;
            let w = max.height.mul_spec(ar.recip_spec());
            if max.height.num == 0 {
                assert(min.width.num == 0) by (nonlinear_arith)
                    requires
                        ar.num * min.width.num <= max.height.num * ar.den,
                        max.height.num == 0,
                        ar.num > 0,
                ;
            } else {
                lemma_whole_div(max.height, ar);
                assert(min.width.le(w)) by (nonlinear_arith)
                    requires
                        w.num == max.height.num * ar.den,
                        w.den == ar.num,
                        ar.num * min.width.num <= max.height.num * ar.den,
                        min.width.den == 1,
                ;
                if max.width.den == 1 {
                    assert(w.le(max.width)) by (nonlinear_arith)
                        requires
                            w.num == max.height.num * ar.den,
                            w.den == ar.num,
                            gt_quot(ar, max.height, max.width),
                            max.height.den == 1,
                            max.width.den == 1,
                    ;
                }
            }
        } else {
            let h = max.width.mul_spec(ar);
            if max.width.den == 0 {
                assert(h.den == 0);
                assert(ar.num * (max.height.den * max.width.num) == ar.num * max.height.den);
                if max.height.den == 1 {
                    assert(ar.num * max.height.den > 0) by (nonlinear_arith)
                        requires
                            ar.num > 0,
                            max.height.den == 1,
                    ;
                }
                assert(max.height.den == 0);
            } else if max.width.num == 0 {
                lemma_whole_le(min.width, max.width);
                assert(min.width.num == 0);
                if min.height.num > 0 {
                    assert((min.height.num * max.width.den) * ar.den > 0) by (nonlinear_arith)
                        requires
                            min.height.num > 0,
                            max.width.den == 1,
                            ar.den > 0,
                    ;
                    assert(ar.num * (min.height.den * max.width.num) == 0) by (nonlinear_arith)
                        requires
                            max.width.num == 0,
                    ;
                }
            } else {
                lemma_whole_mul(max.width, ar);
                assert(min.height.le(h)) by (nonlinear_arith)
                    requires
                        h.num == max.width.num * ar.num,
                        h.den == ar.den,
                        !lt_quot(ar, min.height, max.width),
                        min.height.den == 1,
                        max.width.den == 1,
                ;
                if max.height.den == 1 {
                    assert(h.le(max.height)) by (nonlinear_arith)
                        requires
                            h.num == max.width.num * ar.num,
                            h.den == ar.den,
                            !gt_quot(ar, max.height, max.width),
                            max.height.den == 1,
                            max.width.den == 1,
                    ;
                }
            }
        }
    }
}

/// The exit through the maximum height, on the branch where the line enters
/// through the minimum width, lies within the constraints.
proof fn lemma_exit_through_max_height(bc: BoxConstraints, ar: Frac)
    requires
        bc.wf(),
        bc.is_sound(),
        ar.is_finite(),
        ar.num > 0,
        bc.max_spec().height.mul_fits(ar.recip_spec()),
        !gt_quot(ar, bc.max_spec().height, bc.min_spec().width),
        !lt_quot(ar, bc.max_spec().height, bc.max_spec().width),
    ensures
        bc.contains_spec(
            Size {
                width: bc.max_spec().height.mul_spec(ar.recip_spec()),
                height: bc.max_spec().height,
            },
        ),
{
    let min = bc.min_spec();
    let max = bc.max_spec();
    let w = max.height.mul_spec(ar.recip_spec());
    assert(min.width.den == 1 && min.height.den == 1);
    lemma_whole_cases(max.width);
    lemma_whole_cases(max.height);
    if max.height.den == 0 {
        assert(w.num == ar.den && w.den == 0) by (nonlinear_arith)
            requires
                w == max.height.mul_spec(ar.recip_spec()),
                max.height.den == 0,
                max.height.num == 1,
                max.height.mul_fits(ar.recip_spec()),
                ar.den > 0,
        ;
        if max.width.den == 1 {
            assert((max.height.num * max.width.den) * ar.den > 0) by (nonlinear_arith)
                requires
                    max.height.num == 1,
                    max.width.den == 1,
                    ar.den > 0,
            ;
            assert(ar.num * (max.height.den * max.width.num) == 0) by (nonlinear_arith)
                requires
                    max.height.den == 0,
            ;
        }
        assert(max.width.den == 0);
        assert(min.width.le(w)) by (nonlinear_arith)
            requires
                w.den == 0,
                min.width.den == 1,
                w.num >= 0,
        ;
        assert(w.le(max.width)) by (nonlinear_arith)
            requires
                w.den == 0,
                max.width.den == 0,
        ;
        assert(max.height.le(max.height));
        assert(min.width.le(w) && w.le(max.width));
    } else if max.height.num == 0 {
        assert(ar.num * min.width.num == 0) by (nonlinear_arith)
            requires
                !gt_quot(ar, max.height, min.width),
                max.height.num == 0,
                max.height.den == 1,
                min.width.den == 1,
                ar.num * min.width.num >= 0,
        ;
        assert(min.width.num == 0) by (nonlinear_arith)
            requires
                ar.num * min.width.num == 0,
                ar.num > 0,
        ;
        assert(w == Frac::whole_spec(0));
        assert(max.height.le(max.height));
        assert(min.width.le(w));
        assert(w.le(max.width));
    } else {
        lemma_whole_div(max.height, ar);
        assert(max.height.le(max.height));
        assert(min.width.le(w)) by (nonlinear_arith)
            requires
                w.num == max.height.num * ar.den,
                w.den == ar.num,
                !gt_quot(ar, max.height, min.width),
                min.width.den == 1,
                max.height.den == 1,
        ;
        if max.width.den == 1 {
            assert(w.le(max.width)) by (nonlinear_arith)
                requires
                    w.num == max.height.num * ar.den,
                    w.den == ar.num,
                    !lt_quot(ar, max.height, max.width),
                    max.height.den == 1,
                    max.width.den == 1,
            ;
        }
    }
    if max.width.den == 0 {
        assert(w.le(max.width)) by (nonlinear_arith)
            requires
                max.width.den == 0,
                max.width.num == 1,
                w.den >= 0,
        ;
    }
    assert(min.height.le(max.height));
}

/// The product of a positive whole number and a positive fraction.
proof fn lemma_whole_mul(a: Frac, b: Frac)
    requires
        a.den == 1,
        a.num > 0,
        b.num > 0,
        a.mul_fits(b),
    ensures
        a.mul_spec(b).num == a.num * b.num,
        a.mul_spec(b).den == b.den,
{
    assert(a.den * b.den == b.den) by (nonlinear_arith)
        requires
            a.den == 1,
    ;
}

/// A positive whole number divided by a positive fraction.
proof fn lemma_whole_div(a: Frac, r: Frac)
    requires
        a.den == 1,
        a.num > 0,
        r.num > 0,
        r.den > 0,
        a.mul_fits(r.recip_spec()),
    ensures
        a.mul_spec(r.recip_spec()).num == a.num * r.den,
        a.mul_spec(r.recip_spec()).den == r.num,
{
    assert(a.den * r.num == r.num) by (nonlinear_arith)
        requires
            a.den == 1,
    ;
}

/// Whole finite bounds compare by their numerators.
proof fn lemma_whole_le(a: Frac, b: Frac)
    requires
        a.den == 1,
        b.den == 1,
    ensures
        a.le(b) == (a.num <= b.num),
{
    assert(a.num * b.den == a.num && b.num * a.den == b.num) by (nonlinear_arith)
        requires
            a.den == 1,
            b.den == 1,
    ;
}

/// A whole value is an integer or the canonical unbounded value.
proof fn lemma_whole_cases(a: Frac)
    requires
        a.is_whole(),
    ensures
        (a.den == 1) || (a.den == 0 && a.num == 1),
{
}

/// Applying [`BoxConstraints::constrain_aspect_ratio`] again, with its own
/// result's width and the same aspect ratio, gives the same size (by value)
/// whenever that result lies within the constraints.
pub proof fn lemma_constrain_aspect_ratio_idempotent(
    bc: BoxConstraints,
    aspect_ratio: Frac,
    width: Frac,
)
    requires
        bc.wf(),
        aspect_ratio.is_finite(),
        width.is_finite(),
        bc.aspect_fits(aspect_ratio, width),
        bc.constrain_aspect_ratio_spec(aspect_ratio, width).width.is_finite(),
        bc.contains_spec(bc.constrain_aspect_ratio_spec(aspect_ratio, width)),
        bc.aspect_fits(aspect_ratio, bc.constrain_aspect_ratio_spec(aspect_ratio, width).width),
    ensures
        bc.constrain_aspect_ratio_spec(
            aspect_ratio,
            bc.constrain_aspect_ratio_spec(aspect_ratio, width).width,
        ).same(bc.constrain_aspect_ratio_spec(aspect_ratio, width)),
{
    let r = bc.constrain_aspect_ratio_spec(aspect_ratio, width);
    let again = bc.constrain_aspect_ratio_spec(aspect_ratio, r.width);
    let min = bc.min_spec();
    let max = bc.max_spec();
    let ideal = Size { width, height: width.mul_spec(aspect_ratio) };
    let ideal_again = Size { width: r.width, height: r.width.mul_spec(aspect_ratio) };
    lemma_same_refl(r.width);
    lemma_same_refl(r.height);
    if bc.contains_spec(ideal) {
    } else if gt_quot(aspect_ratio, max.height, min.width) {
        // The line passes above the box, also at the corner's width.
        assert(r.width == min.width);
        assert(min.width.den == 1);
        if max.height.den == 0 {
            assert(aspect_ratio.num * (max.height.den * min.width.num) == 0) by (nonlinear_arith)
                requires
                    max.height.den == 0,
            ;
        }
        assert(max.height.den == 1);
        assert(aspect_ratio.num * min.width.num > max.height.num * aspect_ratio.den) by (nonlinear_arith)
            requires
                gt_quot(aspect_ratio, max.height, min.width),
                min.width.den == 1,
                max.height.den == 1,
        ;
        let h = ideal_again.height;
        if min.width.num == 0 || aspect_ratio.num == 0 {
            assert(aspect_ratio.num * min.width.num == 0) by (nonlinear_arith)
                requires
                    min.width.num == 0 || aspect_ratio.num == 0,
            ;
        } else {
            assert(h.num == min.width.num * aspect_ratio.num);
            assert(h.den == min.width.den * aspect_ratio.den);
            assert(!h.le(max.height)) by (nonlinear_arith)
                requires
                    h.num == min.width.num * aspect_ratio.num,
                    h.den == min.width.den * aspect_ratio.den,
                    aspect_ratio.num * min.width.num > max.height.num * aspect_ratio.den,
                    min.width.den == 1,
                    max.height.den == 1,
            ;
        }
        assert(!bc.contains_spec(ideal_again));
    } else if lt_quot(aspect_ratio, min.height, max.width) {
        // The line passes below the box, also at the corner's width.
        assert(r.width == max.width);
        assert(max.width.den == 1);
        let h = ideal_again.height;
        if min.height.den == 0 {
            // An unbounded minimum height lies above every finite height.
            assert(h.den > 0) by (nonlinear_arith)
                requires
                    h == max.width.mul_spec(aspect_ratio),
                    max.width.den == 1,
                    aspect_ratio.den > 0,
            ;
            assert(!min.height.le(h));
        } else {
            assert(min.height.den == 1);
            assert(aspect_ratio.num * max.width.num < min.height.num * aspect_ratio.den) by (nonlinear_arith)
                requires
                    lt_quot(aspect_ratio, min.height, max.width),
                    max.width.den == 1,
                    min.height.den == 1,
            ;
            if max.width.num == 0 || aspect_ratio.num == 0 {
                assert(min.height.num > 0) by (nonlinear_arith)
                    requires
                        aspect_ratio.num * max.width.num < min.height.num * aspect_ratio.den,
                        min.height.num >= 0,
                ;
            } else {
                assert(h.num == max.width.num * aspect_ratio.num);
                assert(h.den == max.width.den * aspect_ratio.den);
                assert(!min.height.le(h)) by (nonlinear_arith)
                    requires
                        h.num == max.width.num * aspect_ratio.num,
                        h.den == max.width.den * aspect_ratio.den,
                        aspect_ratio.num * max.width.num < min.height.num * aspect_ratio.den,
                        max.width.den == 1,
                        min.height.den == 1,
                ;
            }
        }
        assert(!bc.contains_spec(ideal_again));
    } else if gt_quot(aspect_ratio, min.height, min.width) {
        if width.lt(min.width) {
        } else if lt_quot(aspect_ratio, max.height, max.width) {
        } else {
            lemma_recip_round_trip(max.height, aspect_ratio);
            lemma_contains_same_height(bc, r, ideal_again);
        }
    } else {
        let entry = min.height.mul_spec(aspect_ratio.recip_spec());
        if aspect_ratio.num == 0 {
            if min.height.num == 0 {
                assert(min.height.den == 1);
                assert(ideal_again == r);
            } else {
                assert(!min.height.le(ideal_again.height));
                assert(!bc.contains_spec(ideal_again));
            }
        } else if width.lt(entry) {
            lemma_recip_round_trip(min.height, aspect_ratio);
            lemma_contains_same_height(bc, r, ideal_again);
        } else if gt_quot(aspect_ratio, max.height, max.width) {
            lemma_recip_round_trip(max.height, aspect_ratio);
            lemma_contains_same_height(bc, r, ideal_again);
        } else {
        }
    }
}

/// Dividing a whole value by a ratio and multiplying back gives the value.
proof fn lemma_recip_round_trip(h: Frac, aspect_ratio: Frac)
    requires
        h.is_whole(),
        aspect_ratio.is_finite(),
        h.mul_fits(aspect_ratio.recip_spec()),
        h.mul_spec(aspect_ratio.recip_spec()).is_finite(),
        h.mul_spec(aspect_ratio.recip_spec()).mul_fits(aspect_ratio),
    ensures
        h.mul_spec(aspect_ratio.recip_spec()).mul_spec(aspect_ratio).same(h),
        h.is_finite(),
        h.mul_spec(aspect_ratio.recip_spec()).mul_spec(aspect_ratio).is_finite(),
{
    let w = h.mul_spec(aspect_ratio.recip_spec());
    if h.num == 0 {
        assert(h.den == 1);
    } else {
        assert(h.den == 1 && aspect_ratio.num > 0);
        assert(w.num == h.num * aspect_ratio.den);
        assert(w.den == aspect_ratio.num);
        let back = w.mul_spec(aspect_ratio);
        assert(w.num > 0) by (nonlinear_arith)
            requires
                w.num == h.num * aspect_ratio.den,
                h.num > 0,
                aspect_ratio.den > 0,
        ;
        assert(back.num == w.num * aspect_ratio.num);
        assert(back.den == w.den * aspect_ratio.den);
        assert(back.den > 0) by (nonlinear_arith)
            requires
                back.den == w.den * aspect_ratio.den,
                w.den == aspect_ratio.num,
                aspect_ratio.num > 0,
                aspect_ratio.den > 0,
        ;
        assert(back.num * h.den == h.num * back.den) by (nonlinear_arith)
            requires
                back.num == w.num * aspect_ratio.num,
                back.den == w.den * aspect_ratio.den,
                w.num == h.num * aspect_ratio.den,
                w.den == aspect_ratio.num,
                h.den == 1,
        ;
    }
}

/// A size whose height equals, by value, that of a contained size with the
/// same width is contained too.
proof fn lemma_contains_same_height(bc: BoxConstraints, a: Size, b: Size)
    requires
        bc.wf(),
        bc.contains_spec(a),
        a.width == b.width,
        b.height.same(a.height),
        a.height.is_finite(),
        b.height.is_finite(),
    ensures
        bc.contains_spec(b),
{
    lemma_le_same(bc.min_spec().height, a.height, b.height);
    lemma_le_same_above(a.height, b.height, bc.max_spec().height);
}

/// `c <= a` carries over to any `b` equal to `a` by value.
proof fn lemma_le_same(c: Frac, a: Frac, b: Frac)
    requires
        c.le(a),
        b.same(a),
        a.is_finite(),
        b.is_finite(),
    ensures
        c.le(b),
{
    assert(c.num * b.den <= b.num * c.den) by (nonlinear_arith)
        requires
            c.num * a.den <= a.num * c.den,
            b.num * a.den == a.num * b.den,
            a.den > 0,
            b.den > 0,
    ;
}

/// `a <= c` carries over to any `b` equal to `a` by value.
proof fn lemma_le_same_above(a: Frac, b: Frac, c: Frac)
    requires
        a.le(c),
        b.same(a),
        a.is_finite(),
        b.is_finite(),
    ensures
        b.le(c),
{
    assert(b.num * c.den <= c.num * b.den) by (nonlinear_arith)
        requires
            a.num * c.den <= c.num * a.den,
            b.num * a.den == a.num * b.den,
            a.den > 0,
            b.den > 0,
    ;
}

/// Every value equals itself.
proof fn lemma_same_refl(a: Frac)
    ensures
        a.same(a),
{
    assert(a.num * a.den == a.num * a.den);
}

/// Compares `r` with the quotient `a / b` of two whole values, returning
/// whether it is below and whether it is above.
fn cmp_quot(r: &Frac, a: &Frac, b: &Frac) -> (res: (bool, bool))
    requires
        a.is_whole(),
        b.is_whole(),
    ensures
        res.0 == lt_quot(*r, *a, *b),
        res.1 == gt_quot(*r, *a, *b),
{
    let quot_num: u64 = if b.den == 0 {
        0
    } else {
        a.num
    };
    let quot_den: u64 = if a.den == 0 {
        0
    } else {
        b.num
    };
    assert(quot_num == a.num * b.den);
    assert(quot_den == a.den * b.num);
    proof {
        lemma_u64_mul_fits(r.num, quot_den);
        lemma_u64_mul_fits(quot_num, r.den);
    }
    let lhs = (r.num as u128) * (quot_den as u128);
    let rhs = (quot_num as u128) * (r.den as u128);
    (lhs < rhs, lhs > rhs)
}

/// Whole values are totally ordered.
proof fn lemma_whole_total(a: Frac, b: Frac)
    requires
        a.is_whole(),
        b.is_whole(),
    ensures
        !a.lt(b) ==> b.le(a),
        a.lt(b) ==> a.le(b),
        a.le(b) && b.le(a) ==> a == b,
{
}

/// `<=` is transitive on whole values.
proof fn lemma_whole_le_trans(a: Frac, b: Frac, c: Frac)
    requires
        a.is_whole(),
        b.is_whole(),
        c.is_whole(),
    ensures
        a.le(b) && b.le(c) ==> a.le(c),
{
}

} // verus!
