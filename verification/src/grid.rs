//! Row-major grids: how a pixel position and a place in a buffer name each other.

use vstd::prelude::*;
use vstd::arithmetic::div_mod::{lemma_fundamental_div_mod, lemma_fundamental_div_mod_converse};

verus! {

/// The element of a row-major buffer of width `w` at column `x` of row `y`.
pub open spec fn at<T>(s: Seq<T>, w: int, x: int, y: int) -> T {
    s[y * w + x]
}

/// A position inside a `w` by `h` grid has its place inside the buffer.
pub proof fn lemma_place(w: int, h: int, x: int, y: int)
    requires
        0 <= x < w,
        0 <= y < h,
    ensures
        0 <= y * w <= y * w + x < w * h,
        y * w + w <= w * h,
{
    assert(y * w + w <= w * h) by (nonlinear_arith)
        requires
            0 <= y < h,
            0 <= w,
    ;
    assert(0 <= y * w) by (nonlinear_arith)
        requires
            0 <= y,
            0 <= w,
    ;
}

/// Division by the width recovers the position from its place.
pub proof fn lemma_position(w: int, x: int, y: int)
    requires
        0 <= x < w,
    ensures
        (y * w + x) % w == x,
        (y * w + x) / w == y,
{
    lemma_fundamental_div_mod_converse(y * w + x, w, y, x);
}

/// A place inside the buffer of a `w` by `h` grid is that of a position in it.
pub proof fn lemma_place_of(w: int, h: int, k: int)
    requires
        0 < w,
        0 <= k < w * h,
    ensures
        0 <= k % w < w,
        0 <= k / w < h,
        (k / w) * w + k % w == k,
{
    lemma_fundamental_div_mod(k, w);
    let y = k / w;
    assert((k / w) * w == w * (k / w)) by (nonlinear_arith);
    assert(y < h) by (nonlinear_arith)
        requires
            y * w <= k,
            k < w * h,
            0 < w,
    ;
    assert(0 <= y) by (nonlinear_arith)
        requires
            y * w + w > k,
            0 <= k,
            0 < w,
    ;
}

/// Growing a grid's sides does not shrink its area.
pub proof fn lemma_area_le(w0: int, h0: int, w1: int, h1: int)
    requires
        0 <= w0 <= w1,
        0 <= h0 <= h1,
    ensures
        0 <= w0 * h0 <= w1 * h1,
{
    assert(0 <= w0 * h0 <= w1 * h1) by (nonlinear_arith)
        requires
            0 <= w0 <= w1,
            0 <= h0 <= h1,
    ;
}

/// A buffer filled place by place holds the same values position by position.
pub proof fn lemma_filled<T>(s: Seq<T>, w: int, h: int, f: spec_fn(int, int) -> T)
    requires
        forall|k: int| 0 <= k < w * h ==> #[trigger] s[k] == f(k % w, k / w),
    ensures
        forall|x: int, y: int|
            0 <= x < w && 0 <= y < h ==> #[trigger] at(s, w, x, y) == f(x, y),
{
    assert forall|x: int, y: int| 0 <= x < w && 0 <= y < h implies #[trigger] at(s, w, x, y) == f(
        x,
        y,
    ) by {
        lemma_place(w, h, x, y);
        lemma_position(w, x, y);
        assert(s[y * w + x] == f((y * w + x) % w, (y * w + x) / w));
    }
}

/// The element of a stack of row-major planes of `h` rows and `w` columns.
pub open spec fn at3<T>(s: Seq<T>, h: int, w: int, c: int, y: int, x: int) -> T {
    s[(c * h + y) * w + x]
}

/// A position inside a stack of `n` planes has its place inside the buffer, and division
/// recovers it.
pub proof fn lemma_place3(n: int, h: int, w: int, c: int, y: int, x: int)
    requires
        0 <= c < n,
        0 <= y < h,
        0 <= x < w,
    ensures
        0 <= (c * h + y) * w + x < n * h * w,
        0 <= c * h + y < n * h,
        (c * h + y) * w + x == c * (h * w) + (y * w + x),
        0 <= y * w + x < h * w,
        c * (h * w) + h * w <= n * h * w,
        ((c * h + y) * w + x) % w == x,
        ((c * h + y) * w + x) / w % h == y,
        ((c * h + y) * w + x) / w / h == c,
{
    lemma_place(h, n, y, c);
    assert(n * h == h * n) by (nonlinear_arith);
    lemma_place(w, n * h, x, c * h + y);
    assert((n * h) * w == w * (n * h)) by (nonlinear_arith);
    lemma_place(w, h, x, y);
    assert(h * w == w * h) by (nonlinear_arith);
    assert((c * h + y) * w + x == c * (h * w) + (y * w + x)) by (nonlinear_arith);
    lemma_place(h * w, n, 0, c);
    assert((h * w) * n == n * h * w) by (nonlinear_arith);
    lemma_position(w, x, c * h + y);
    lemma_position(h, y, c);
}

/// A place inside the buffer of a stack of `n` planes is that of a position in it.
pub proof fn lemma_place3_of(n: int, h: int, w: int, k: int)
    requires
        0 <= n,
        0 < h,
        0 < w,
        0 <= k < n * h * w,
    ensures
        0 <= k % w < w,
        0 <= k / w % h < h,
        0 <= k / w / h < n,
        ((k / w / h) * h + k / w % h) * w + k % w == k,
{
    assert(n * h * w == w * (n * h)) by (nonlinear_arith);
    lemma_place_of(w, n * h, k);
    assert(n * h == h * n) by (nonlinear_arith);
    lemma_place_of(h, n, k / w);
}

/// A buffer filled place by place holds the same values position by position.
pub proof fn lemma_filled3<T>(s: Seq<T>, n: int, h: int, w: int, f: spec_fn(int, int, int) -> T)
    requires
        forall|k: int| 0 <= k < n * h * w ==> #[trigger] s[k] == f(k / w / h, k / w % h, k % w),
    ensures
        forall|c: int, y: int, x: int|
            0 <= c < n && 0 <= y < h && 0 <= x < w ==> #[trigger] at3(s, h, w, c, y, x) == f(c, y, x),
{
    assert forall|c: int, y: int, x: int|
        0 <= c < n && 0 <= y < h && 0 <= x < w implies #[trigger] at3(s, h, w, c, y, x) == f(
        c,
        y,
        x,
    ) by {
        lemma_place3(n, h, w, c, y, x);
        let k = (c * h + y) * w + x;
        assert(s[k] == f(k / w / h, k / w % h, k % w));
    }
}

/// Copy elements to the beginning of a buffer.
pub(crate) fn fill<T: Copy>(dst: &mut [T], from: &Vec<T>)
    requires
        from@.len() <= old(dst)@.len(),
    ensures
        final(dst)@ == from@ + old(dst)@.skip(from@.len() as int),
{
    let ghost start = dst@;
    let n: usize = from.len();
    let mut i: usize = 0;
    while i < n
        invariant
            i <= n,
            n == from@.len(),
            n <= dst@.len(),
            dst@.len() == start.len(),
            forall|j: int| 0 <= j < i ==> #[trigger] dst@[j] == from@[j],
            forall|j: int| i <= j < start.len() ==> #[trigger] dst@[j] == start[j],
        decreases n - i,
    {
        dst[i] = from[i];
        i += 1;
    }
    assert(dst@ =~= from@ + start.skip(n as int));
}

} // verus!
