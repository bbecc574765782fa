//! Row-major planes of samples: where a pixel lies, and the small operations
//! on whole planes that the stages share.

use crate::arith::{Arithmetic, Binary, Formula, Sample, Traced, evals, whole};
use crate::autocrop::CropBounds;
use crate::frame::views;
use crate::parallel::par_map;
use vstd::arithmetic::div_mod::{
    lemma_fundamental_div_mod, lemma_fundamental_div_mod_converse, lemma_mod_bound,
};
use vstd::arithmetic::mul::{lemma_mul_inequality, lemma_mul_is_commutative};
use vstd::prelude::*;

verus! {

/// A place in a plane has a column and a row, and they give the place back.
pub proof fn lemma_place(i: int, w: int, h: int)
    requires
        0 <= i < w * h,
        0 <= w,
        0 <= h,
    ensures
        0 < w,
        0 < h,
        0 <= i % w < w,
        0 <= i / w < h,
        (i / w) * w + i % w == i,
{
    if w == 0 {
        assert(w * h == 0) by (nonlinear_arith)
            requires
                w == 0,
        ;
    }
    if h == 0 {
        assert(w * h == 0) by (nonlinear_arith)
            requires
                h == 0,
        ;
    }
    lemma_fundamental_div_mod(i, w);
    lemma_mod_bound(i, w);
    lemma_mul_is_commutative(w, i / w);
    if i / w >= h {
        lemma_mul_inequality(h, i / w, w);
        lemma_mul_is_commutative(w, h);
    }
    if i / w < 0 {
        assert((i / w) * w <= -w) by (nonlinear_arith)
            requires
                i / w <= -1,
                w > 0,
        ;
    }
}

/// The pixel in column `x` of row `y` has a place in the plane.
pub proof fn lemma_pixel(x: int, y: int, w: int, h: int)
    requires
        0 <= x < w,
        0 <= y < h,
    ensures
        0 <= y * w,
        0 <= y * w + x < w * h,
        y * w + w <= w * h,
        (y * w + x) % w == x,
        (y * w + x) / w == y,
{
    assert(y * w + w <= w * h) by (nonlinear_arith)
        requires
            0 <= y < h,
            0 < w,
    ;
    assert(0 <= y * w) by (nonlinear_arith)
        requires
            0 <= y,
            0 < w,
    ;
    lemma_mul_is_commutative(y, w);
    lemma_fundamental_div_mod_converse(y * w + x, w, y, x);
}

/// A copy of a plane.
pub fn copied<T: Copy>(data: &[T]) -> (out: Vec<T>)
    ensures
        out@ == data@,
{
    let mut out: Vec<T> = Vec::with_capacity(data.len());
    let mut i: usize = 0;
    while i < data.len()
        invariant
            i <= data@.len(),
            out@ == data@.take(i as int),
        decreases data@.len() - i,
    {
        out.push(data[i]);
        i += 1;
    }
    assert(data@.take(data@.len() as int) == data@);
    out
}

/// A plane of `n` equal samples.
pub fn filled<T: Copy>(n: usize, value: T) -> (out: Vec<T>)
    ensures
        out@ == Seq::new(n as nat, |i: int| value),
{
    let mut out: Vec<T> = Vec::with_capacity(n);
    let mut i: usize = 0;
    while i < n
        invariant
            i <= n,
            out@ =~= Seq::new(i as nat, |k: int| value),
        decreases n - i,
    {
        out.push(value);
        i += 1;
    }
    out
}

/// The part of a plane inside the bounds, row-major.
pub open spec fn crop_plane<T>(plane: Seq<T>, w: int, h: int, bounds: CropBounds) -> Seq<T> {
    let cols = w - bounds.2 - bounds.3;
    let rows = h - bounds.0 - bounds.1;
    Seq::new(
        (cols * rows) as nat,
        |i: int| plane[(bounds.0 + i / cols) * w + bounds.2 + i % cols],
    )
}

/// The bounds leave an interior of a frame of `w` by `h` pixels.
pub open spec fn bounds_fit(w: int, h: int, bounds: CropBounds) -> bool {
    bounds.0 + bounds.1 <= h && bounds.2 + bounds.3 <= w
}

/// The interior is no larger than the frame.
pub proof fn lemma_crop_size(w: int, h: int, bounds: CropBounds)
    requires
        bounds_fit(w, h, bounds),
    ensures
        0 <= (w - bounds.2 - bounds.3) * (h - bounds.0 - bounds.1) <= w * h,
{
    assert(0 <= (w - bounds.2 - bounds.3) * (h - bounds.0 - bounds.1) <= w * h)
        by (nonlinear_arith)
        requires
            0 <= w - bounds.2 - bounds.3 <= w,
            0 <= h - bounds.0 - bounds.1 <= h,
    ;
}

/// Copies the part of a plane inside the bounds.
pub fn crop_samples<T: Copy>(plane: &[T], w: usize, h: usize, bounds: CropBounds) -> (out: Vec<T>)
    requires
        plane@.len() == w * h,
        bounds_fit(w as int, h as int, bounds),
    ensures
        out@ == crop_plane(plane@, w as int, h as int, bounds),
{
    let (top, bottom, left, right) = bounds;
    let cols: usize = w - left - right;
    let rows: usize = h - top - bottom;
    proof {
        lemma_crop_size(w as int, h as int, bounds);
        assert(plane.len() == w * h);
    }
    let n: usize = cols * rows;
    let mut out: Vec<T> = Vec::with_capacity(n);
    let mut i: usize = 0;
    while i < n
        invariant
            plane@.len() == w * h,
            plane.len() == w * h,
            bounds_fit(w as int, h as int, bounds),
            bounds == (top, bottom, left, right),
            cols == w - left - right,
            rows == h - top - bottom,
            n == cols * rows,
            i <= n,
            out@ =~= crop_plane(plane@, w as int, h as int, bounds).take(i as int),
        decreases n - i,
    {
        proof {
            lemma_place(i as int, cols as int, rows as int);
            lemma_pixel(left + i % cols, top + i / cols, w as int, h as int);
        }
        out.push(plane[(top + i / cols) * w + left + i % cols]);
        i += 1;
    }
    assert(out@ =~= crop_plane(plane@, w as int, h as int, bounds));
    out
}

/// The items of `s` whose flag is set, in order.
pub open spec fn picked<X>(s: Seq<X>, flags: Seq<bool>) -> Seq<X>
    decreases s.len(),
{
    if s.len() == 0 {
        Seq::empty()
    } else if flags[s.len() - 1] {
        picked(s.drop_last(), flags).push(s.last())
    } else {
        picked(s.drop_last(), flags)
    }
}

/// Keeps the items whose flag is set.
pub fn pick<X: Copy>(data: &[X], flags: &[bool]) -> (out: Vec<X>)
    requires
        flags@.len() == data@.len(),
    ensures
        out@ == picked(data@, flags@),
        out@.len() <= data@.len(),
{
    let mut out: Vec<X> = Vec::new();
    let mut i: usize = 0;
    while i < data.len()
        invariant
            i <= data@.len(),
            flags@.len() == data@.len(),
            out@ == picked(data@.take(i as int), flags@),
            out@.len() <= i,
        decreases data@.len() - i,
    {
        assert(data@.take(i + 1).drop_last() == data@.take(i as int));
        if flags[i] {
            out.push(data[i]);
        }
        i += 1;
    }
    assert(data@.take(data@.len() as int) == data@);
    out
}

/// Every sample of `out` is a value of the formula `f` for the sample at its
/// place in `data`.
pub open spec fn maps<T, A: Arithmetic<T>>(
    ops: &A,
    f: spec_fn(T) -> Formula<T>,
    data: Seq<T>,
    out: Seq<T>,
) -> bool {
    &&& out.len() == data.len()
    &&& forall|i: int| 0 <= i < data.len() ==> evals(ops, f(data[i]), #[trigger] out[i])
}

/// Applies `f` to every sample.
pub(crate) fn map_plane<T: Sample, F: Fn(T) -> T + Sync + Send>(data: &[T], f: &F) -> (out: Vec<T>)
    requires
        forall|v: T| call_requires(*f, (v,)),
    ensures
        out@.len() == data@.len(),
        forall|i: int|
            0 <= i < data@.len() ==> call_ensures(*f, (data@[i],), #[trigger] out@[i]),
{
    let at = |i: usize| -> (r: T)
        requires
            i < data@.len(),
            forall|v: T| call_requires(*f, (v,)),
        ensures
            call_ensures(*f, (data@[i as int],), r),
    {
        f(data[i])
    };
    par_map(data.len(), at)
}

/// The first `n` planes, one after the other.
pub open spec fn joined<T>(planes: Seq<Seq<T>>, n: int) -> Seq<T>
    decreases n,
{
    if n <= 0 {
        Seq::empty()
    } else {
        joined(planes, n - 1) + planes[n - 1]
    }
}

/// All samples of the planes in one buffer, plane after plane.
pub fn join<T: Copy>(planes: &[Vec<T>]) -> (out: Vec<T>)
    ensures
        out@ == joined(views(planes@), planes@.len() as int),
{
    let ghost all = views(planes@);
    let mut out: Vec<T> = Vec::new();
    let mut c: usize = 0;
    while c < planes.len()
        invariant
            all == views(planes@),
            c <= planes@.len(),
            out@ == joined(all, c as int),
        decreases planes@.len() - c,
    {
        let plane = planes[c].as_slice();
        let ghost before = out@;
        let mut i: usize = 0;
        while i < plane.len()
            invariant
                i <= plane@.len(),
                out@ =~= before + plane@.take(i as int),
            decreases plane@.len() - i,
        {
            out.push(plane[i]);
            i += 1;
        }
        assert(plane@.take(plane@.len() as int) =~= plane@);
        assert(plane@ == all[c as int]);
        c += 1;
    }
    out
}

/// The left-to-right sum of the first `n` samples, starting from zero.
pub open spec fn sum_of<T>(s: Seq<T>, n: int) -> Formula<T>
    decreases n,
{
    if n <= 0 {
        Formula::Ratio(0, 1)
    } else {
        sum_of(s, n - 1).plus(Formula::Given(s[n - 1]))
    }
}

/// Sums the samples from left to right.
pub fn sum<T: Sample, A: Arithmetic<T>>(ops: &A, data: &[T]) -> (r: T)
    ensures
        evals(ops, sum_of(data@, data@.len() as int), r),
{
    let mut acc = Traced::whole(ops, 0);
    let mut i: usize = 0;
    while i < data.len()
        invariant
            i <= data@.len(),
            acc.holds(ops),
            acc.formula@ == sum_of(data@, i as int),
        decreases data@.len() - i,
    {
        acc = acc.plus(ops, Traced::given(ops, data[i]));
        i += 1;
    }
    acc.value
}

/// The largest of the first `n` samples, zero for none.
pub open spec fn largest_of<T>(s: Seq<T>, n: int) -> Formula<T>
    decreases n,
{
    if n <= 0 {
        whole(0)
    } else {
        largest_of(s, n - 1).most(Formula::Given(s[n - 1]))
    }
}

/// The largest of the samples, zero for none.
pub fn largest<T: Sample, A: Arithmetic<T>>(ops: &A, data: &[T]) -> (r: Traced<T>)
    ensures
        r.holds(ops),
        r.formula@ == largest_of(data@, data@.len() as int),
{
    let mut acc = Traced::whole(ops, 0);
    let mut c: usize = 0;
    while c < data.len()
        invariant
            c <= data@.len(),
            acc.holds(ops),
            acc.formula@ == largest_of(data@, c as int),
        decreases data@.len() - c,
    {
        acc = acc.with(ops, Binary::Most, Traced::given(ops, data[c]));
        c += 1;
    }
    acc
}

} // verus!
