//! The scan phase: a read-only pass over the buffer that proposes changes,
//! quadrant partitioning, and the laws that relate the two.

use vstd::prelude::*;
use vstd::seq_lib::lemma_multiset_commutative;
use crate::fill::{decide_fill, spec_decide};
use crate::image::{Change, Image, Pixel};

verus! {

/// The change that one scan of `img` proposes for the pixel at `(x, y)`:
/// absent when the pixel is already opaque or when the fill rule declines,
/// else the averaged color at that coordinate.
#[verifier::opaque]
pub open spec fn change_at(img: Image, x: int, y: int) -> Option<Change> {
    if img.opaque_at(x, y) {
        None
    } else {
        match spec_decide(img.kernel_at(x, y)) {
            Some(c) => Some(Change { loc: Pixel(x as i64, y as i64), col: c }),
            None => None,
        }
    }
}

/// A proposed change as a sequence of zero or one elements.
pub open spec fn opt_seq(c: Option<Change>) -> Seq<Change> {
    match c {
        Some(ch) => seq![ch],
        None => Seq::empty(),
    }
}

/// The changes proposed for row `y`, columns `[x0, x1)`, left to right.
pub open spec fn changes_row(img: Image, y: int, x0: int, x1: int) -> Seq<Change>
    decreases x1 - x0,
{
    if x1 <= x0 {
        Seq::empty()
    } else {
        opt_seq(change_at(img, x0, y)) + changes_row(img, y, x0 + 1, x1)
    }
}

/// The changes proposed for the rectangle `[x0, x1) x [y0, y1)` in
/// row-major order.
pub open spec fn changes_rect(img: Image, x0: int, x1: int, y0: int, y1: int) -> Seq<Change>
    decreases y1 - y0,
{
    if y1 <= y0 {
        Seq::empty()
    } else {
        changes_row(img, y0, x0, x1) + changes_rect(img, x0, x1, y0 + 1, y1)
    }
}

/// The four quadrants split the frame at half-width and half-height and
/// tile it exactly: `(x0, x1, y0, y1)` of quadrant `q`, in the fixed order
/// top-left, top-right, bottom-left, bottom-right.
pub open spec fn quadrant_of(w: int, h: int, q: int) -> (int, int, int, int) {
    let hw = w / 2;
    let hh = h / 2;
    if q == 0 {
        (0, hw, 0, hh)
    } else if q == 1 {
        (hw, w, 0, hh)
    } else if q == 2 {
        (0, hw, hh, h)
    } else {
        (hw, w, hh, h)
    }
}

/// The changes one scan proposes inside quadrant `q`.
pub open spec fn quadrant_changes(img: Image, q: int) -> Seq<Change> {
    let (x0, x1, y0, y1) = quadrant_of(img.width as int, img.height as int, q);
    changes_rect(img, x0, x1, y0, y1)
}

/// The changes a single full-frame scan proposes, in row-major order.
pub open spec fn image_changes(img: Image) -> Seq<Change> {
    changes_rect(img, 0, img.width as int, 0, img.height as int)
}

/// No transparent pixel has enough opaque neighbors left to fill: a scan of
/// `img` proposes nothing.
pub open spec fn converged(img: Image) -> bool {
    forall|x: int, y: int| img.in_bounds(x, y) ==> change_at(img, x, y) is None
}

/// Every pixel of the frame is opaque.
pub open spec fn saturated(img: Image) -> bool {
    forall|x: int, y: int| img.in_bounds(x, y) ==> img.opaque_at(x, y)
}

/// What holds of every change a scan proposes: it addresses an in-frame
/// pixel that was transparent in the scanned buffer, and writes a fully
/// opaque color.
pub open spec fn scan_change_ok(img: Image, c: Change) -> bool {
    &&& img.in_bounds(c.loc.0 as int, c.loc.1 as int)
    &&& !img.opaque_at(c.loc.0 as int, c.loc.1 as int)
    &&& c.col.a == 255
}

pub open spec fn all_changes_ok(img: Image, cs: Seq<Change>) -> bool {
    forall|i: int| 0 <= i < cs.len() ==> scan_change_ok(img, #[trigger] cs[i])
}

pub proof fn lemma_ok_concat(img: Image, a: Seq<Change>, b: Seq<Change>)
    requires
        all_changes_ok(img, a),
        all_changes_ok(img, b),
    ensures
        all_changes_ok(img, a + b),
{
    assert forall|i: int| 0 <= i < (a + b).len() implies scan_change_ok(img, (a + b)[i]) by {
        if i < a.len() {
            assert((a + b)[i] == a[i]);
        } else {
            assert((a + b)[i] == b[i - a.len()]);
        }
    }
}

/// Every change proposed for a row inside the frame is `scan_change_ok`.
pub proof fn lemma_row_changes_ok(img: Image, y: int, x0: int, x1: int)
    requires
        0 <= x0,
        x1 <= img.width as int,
        0 <= y < img.height as int,
    ensures
        all_changes_ok(img, changes_row(img, y, x0, x1)),
    decreases x1 - x0,
{
    if x0 < x1 {
        lemma_row_changes_ok(img, y, x0 + 1, x1);
        assert(all_changes_ok(img, opt_seq(change_at(img, x0, y)))) by {
            reveal(change_at);
        }
        lemma_ok_concat(img, opt_seq(change_at(img, x0, y)), changes_row(img, y, x0 + 1, x1));
    } else {
        assert(all_changes_ok(img, changes_row(img, y, x0, x1)));
    }
}

/// Every change proposed for a rectangle inside the frame is
/// `scan_change_ok`: it targets a transparent in-frame pixel and carries a
/// fully opaque color.
pub proof fn lemma_scan_changes_ok(img: Image, x0: int, x1: int, y0: int, y1: int)
    requires
        0 <= x0,
        x1 <= img.width as int,
        0 <= y0,
        y1 <= img.height as int,
    ensures
        all_changes_ok(img, changes_rect(img, x0, x1, y0, y1)),
    decreases y1 - y0,
{
    if y0 < y1 {
        lemma_row_changes_ok(img, y0, x0, x1);
        lemma_scan_changes_ok(img, x0, x1, y0 + 1, y1);
        lemma_ok_concat(img, changes_row(img, y0, x0, x1), changes_rect(img, x0, x1, y0 + 1, y1));
    } else {
        assert(all_changes_ok(img, changes_rect(img, x0, x1, y0, y1)));
    }
}

/// A row whose scan proposed nothing has no fillable pixel.
pub proof fn lemma_row_empty_pointwise(img: Image, y: int, x0: int, x1: int)
    requires
        changes_row(img, y, x0, x1).len() == 0,
    ensures
        forall|x: int| x0 <= x < x1 ==> change_at(img, x, y) is None,
    decreases x1 - x0,
{
    if x0 < x1 {
        assert(changes_row(img, y, x0 + 1, x1).len() == 0);
        lemma_row_empty_pointwise(img, y, x0 + 1, x1);
    }
}

/// A rectangle whose scan proposed nothing has no fillable pixel.
pub proof fn lemma_rect_empty_pointwise(img: Image, x0: int, x1: int, y0: int, y1: int)
    requires
        changes_rect(img, x0, x1, y0, y1).len() == 0,
    ensures
        forall|x: int, y: int| x0 <= x < x1 && y0 <= y < y1 ==> change_at(img, x, y) is None,
    decreases y1 - y0,
{
    if y0 < y1 {
        assert(changes_row(img, y0, x0, x1).len() == 0);
        lemma_row_empty_pointwise(img, y0, x0, x1);
        lemma_rect_empty_pointwise(img, x0, x1, y0 + 1, y1);
    }
}

/// A row with no fillable pixel yields an empty scan.
pub proof fn lemma_none_row_empty(img: Image, y: int, x0: int, x1: int)
    requires
        forall|x: int| x0 <= x < x1 ==> change_at(img, x, y) is None,
    ensures
        changes_row(img, y, x0, x1).len() == 0,
    decreases x1 - x0,
{
    if x0 < x1 {
        lemma_none_row_empty(img, y, x0 + 1, x1);
    }
}

/// A rectangle with no fillable pixel yields an empty scan.
pub proof fn lemma_none_rect_empty(img: Image, x0: int, x1: int, y0: int, y1: int)
    requires
        forall|x: int, y: int| x0 <= x < x1 && y0 <= y < y1 ==> change_at(img, x, y) is None,
    ensures
        changes_rect(img, x0, x1, y0, y1).len() == 0,
    decreases y1 - y0,
{
    if y0 < y1 {
        lemma_none_row_empty(img, y0, x0, x1);
        lemma_none_rect_empty(img, x0, x1, y0 + 1, y1);
    }
}

/// The four quadrants cover the frame: a scan that proposes nothing in any
/// quadrant has no fillable pixel at all.
#[verifier::rlimit(50)]
pub proof fn lemma_quadrants_empty_converged(img: Image)
    requires
        forall|q: int| 0 <= q < 4 ==> (#[trigger] quadrant_changes(img, q)).len() == 0,
    ensures
        converged(img),
{
    let w = img.width as int;
    let h = img.height as int;
    let hw = w / 2;
    let hh = h / 2;
    assert(0 <= hw <= w && 0 <= hh <= h) by (nonlinear_arith)
        requires
            w >= 0,
            h >= 0,
            hw == w / 2,
            hh == h / 2,
    {}
    assert(quadrant_changes(img, 0).len() == 0);
    assert(quadrant_changes(img, 1).len() == 0);
    assert(quadrant_changes(img, 2).len() == 0);
    assert(quadrant_changes(img, 3).len() == 0);
    lemma_rect_empty_pointwise(img, 0, hw, 0, hh);
    lemma_rect_empty_pointwise(img, hw, w, 0, hh);
    lemma_rect_empty_pointwise(img, 0, hw, hh, h);
    lemma_rect_empty_pointwise(img, hw, w, hh, h);
    assert forall|x: int, y: int| img.in_bounds(x, y) implies change_at(img, x, y) is None by {
        if x < hw {
            if y < hh {
                assert(change_at(img, x, y) is None);
            } else {
                assert(change_at(img, x, y) is None);
            }
        } else {
            if y < hh {
                assert(change_at(img, x, y) is None);
            } else {
                assert(change_at(img, x, y) is None);
            }
        }
    }
}

/// A converged frame proposes nothing in any quadrant.
#[verifier::rlimit(50)]
pub proof fn lemma_converged_quadrants_empty(img: Image)
    requires
        converged(img),
    ensures
        forall|q: int| 0 <= q < 4 ==> (#[trigger] quadrant_changes(img, q)).len() == 0,
{
    let w = img.width as int;
    let h = img.height as int;
    let hw = w / 2;
    let hh = h / 2;
    assert(0 <= hw <= w && 0 <= hh <= h) by (nonlinear_arith)
        requires
            w >= 0,
            h >= 0,
            hw == w / 2,
            hh == h / 2,
    {}
    assert forall|x: int, y: int| 0 <= x < w && 0 <= y < h implies change_at(img, x, y) is None by {
        assert(img.in_bounds(x, y));
    }
    lemma_none_rect_empty(img, 0, hw, 0, hh);
    lemma_none_rect_empty(img, hw, w, 0, hh);
    lemma_none_rect_empty(img, 0, hw, hh, h);
    lemma_none_rect_empty(img, hw, w, hh, h);
    assert forall|q: int| 0 <= q < 4 implies (#[trigger] quadrant_changes(img, q)).len() == 0 by {
        if q == 0 {
            assert(quadrant_changes(img, q) == changes_rect(img, 0, hw, 0, hh));
        } else if q == 1 {
            assert(quadrant_changes(img, q) == changes_rect(img, hw, w, 0, hh));
        } else if q == 2 {
            assert(quadrant_changes(img, q) == changes_rect(img, 0, hw, hh, h));
        } else {
            assert(quadrant_changes(img, q) == changes_rect(img, hw, w, hh, h));
        }
    }
}

/// A buffer with no transparent pixel proposes no change anywhere: a scan
/// of a saturated frame is empty after exactly one pass.
pub proof fn lemma_saturated_converged(img: Image)
    requires
        saturated(img),
    ensures
        converged(img),
        forall|q: int| 0 <= q < 4 ==> (#[trigger] quadrant_changes(img, q)).len() == 0,
        image_changes(img).len() == 0,
{
    assert forall|x: int, y: int| img.in_bounds(x, y) implies change_at(img, x, y) is None by {
        reveal(change_at);
    }
    lemma_converged_quadrants_empty(img);
    assert forall|x: int, y: int|
        0 <= x < img.width as int && 0 <= y < img.height as int implies change_at(
        img,
        x,
        y,
    ) is None by {
        assert(img.in_bounds(x, y));
    }
    lemma_none_rect_empty(img, 0, img.width as int, 0, img.height as int);
}

/// An axis-aligned rectangle of frame coordinates: columns `[x0, x1)`,
/// rows `[y0, y1)`.
#[derive(Debug, Clone, Copy, PartialEq, Eq, Structural)]
pub struct Rect {
    pub x0: u32,
    pub x1: u32,
    pub y0: u32,
    pub y1: u32,
}

/// The rectangle of quadrant `q` for a `width x height` frame.
pub fn quadrant_rect(width: u32, height: u32, q: usize) -> (r: Rect)
    requires
        q < 4,
    ensures
        (r.x0 as int, r.x1 as int, r.y0 as int, r.y1 as int) == quadrant_of(
            width as int,
            height as int,
            q as int,
        ),
        r.x0 <= r.x1 <= width,
        r.y0 <= r.y1 <= height,
{
    let hw = width / 2;
    let hh = height / 2;
    if q == 0 {
        Rect { x0: 0, x1: hw, y0: 0, y1: hh }
    } else if q == 1 {
        Rect { x0: hw, x1: width, y0: 0, y1: hh }
    } else if q == 2 {
        Rect { x0: 0, x1: hw, y0: hh, y1: height }
    } else {
        Rect { x0: hw, x1: width, y0: hh, y1: height }
    }
}

/// Splitting a row's scan at any column `m` splits its changes.
pub proof fn lemma_row_split(img: Image, y: int, x0: int, m: int, x1: int)
    requires
        x0 <= m <= x1,
    ensures
        changes_row(img, y, x0, x1) == changes_row(img, y, x0, m) + changes_row(img, y, m, x1),
    decreases m - x0,
{
    if x0 < m {
        lemma_row_split(img, y, x0 + 1, m, x1);
        assert(changes_row(img, y, x0, x1) =~= changes_row(img, y, x0, m) + changes_row(
            img,
            y,
            m,
            x1,
        ));
    } else {
        assert(changes_row(img, y, x0, x1) =~= changes_row(img, y, x0, m) + changes_row(
            img,
            y,
            m,
            x1,
        ));
    }
}

/// Splitting a rectangle's scan at any row `m` splits its changes.
pub proof fn lemma_rect_vsplit(img: Image, x0: int, x1: int, y0: int, m: int, y1: int)
    requires
        y0 <= m <= y1,
    ensures
        changes_rect(img, x0, x1, y0, y1) == changes_rect(img, x0, x1, y0, m) + changes_rect(
            img,
            x0,
            x1,
            m,
            y1,
        ),
    decreases m - y0,
{
    if y0 < m {
        lemma_rect_vsplit(img, x0, x1, y0 + 1, m, y1);
        assert(changes_rect(img, x0, x1, y0, y1) =~= changes_rect(img, x0, x1, y0, m)
            + changes_rect(img, x0, x1, m, y1));
    } else {
        assert(changes_rect(img, x0, x1, y0, y1) =~= changes_rect(img, x0, x1, y0, m)
            + changes_rect(img, x0, x1, m, y1));
    }
}

/// Splitting a rectangle's scan at any column `m` splits its changes as an
/// unordered collection: the two halves interleave row by row, so only the
/// multiset is preserved, not the order.
pub proof fn lemma_rect_hsplit_multiset(img: Image, x0: int, m: int, x1: int, y0: int, y1: int)
    requires
        x0 <= m <= x1,
    ensures
        changes_rect(img, x0, x1, y0, y1).to_multiset() == changes_rect(
            img,
            x0,
            m,
            y0,
            y1,
        ).to_multiset().add(changes_rect(img, m, x1, y0, y1).to_multiset()),
    decreases y1 - y0,
{
    broadcast use vstd::seq_lib::group_to_multiset_ensures;
    broadcast use vstd::multiset::group_multiset_axioms;

    if y1 <= y0 {
        let e = Seq::<Change>::empty();
        assert(changes_rect(img, x0, x1, y0, y1) == e);
        assert(changes_rect(img, x0, m, y0, y1) == e);
        assert(changes_rect(img, m, x1, y0, y1) == e);
        assert(e.to_multiset() =~= e.to_multiset().add(e.to_multiset()));
    } else {
        lemma_row_split(img, y0, x0, m, x1);
        lemma_rect_hsplit_multiset(img, x0, m, x1, y0 + 1, y1);
        lemma_multiset_commutative(
            changes_row(img, y0, x0, x1),
            changes_rect(img, x0, x1, y0 + 1, y1),
        );
        lemma_multiset_commutative(changes_row(img, y0, x0, m), changes_row(img, y0, m, x1));
        lemma_multiset_commutative(
            changes_row(img, y0, x0, m),
            changes_rect(img, x0, m, y0 + 1, y1),
        );
        lemma_multiset_commutative(
            changes_row(img, y0, m, x1),
            changes_rect(img, m, x1, y0 + 1, y1),
        );
        assert(changes_rect(img, x0, x1, y0, y1).to_multiset() =~= changes_rect(
            img,
            x0,
            m,
            y0,
            y1,
        ).to_multiset().add(changes_rect(img, m, x1, y0, y1).to_multiset()));
    }
}

/// Partition equivalence: scanning the four quadrants separately proposes
/// exactly the changes of a single full-frame scan of the same buffer, as
/// an unordered collection of coordinates and colors. Quadrant boundaries
/// do not alter the result.
pub proof fn lemma_partition_equivalence(img: Image)
    ensures
        (quadrant_changes(img, 0) + quadrant_changes(img, 1) + quadrant_changes(img, 2)
            + quadrant_changes(img, 3)).to_multiset() == image_changes(img).to_multiset(),
{
    broadcast use vstd::multiset::group_multiset_axioms;

    let w = img.width as int;
    let h = img.height as int;
    let hw = w / 2;
    let hh = h / 2;
    assert(0 <= hw <= w && 0 <= hh <= h) by (nonlinear_arith)
        requires
            w >= 0,
            h >= 0,
            hw == w / 2,
            hh == h / 2,
    {}
    lemma_rect_vsplit(img, 0, w, 0, hh, h);
    lemma_multiset_commutative(changes_rect(img, 0, w, 0, hh), changes_rect(img, 0, w, hh, h));
    lemma_rect_hsplit_multiset(img, 0, hw, w, 0, hh);
    lemma_rect_hsplit_multiset(img, 0, hw, w, hh, h);
    let q0 = quadrant_changes(img, 0);
    let q1 = quadrant_changes(img, 1);
    let q2 = quadrant_changes(img, 2);
    let q3 = quadrant_changes(img, 3);
    lemma_multiset_commutative(q0, q1);
    lemma_multiset_commutative(q0 + q1, q2);
    lemma_multiset_commutative((q0 + q1) + q2, q3);
    assert(((q0 + q1) + q2 + q3).to_multiset() =~= image_changes(img).to_multiset());
}


/// Every change of the list addresses a pixel of the given rectangle.
pub open spec fn located_in(cs: Seq<Change>, x0: int, x1: int, y0: int, y1: int) -> bool {
    forall|i: int| 0 <= i < cs.len() ==> x0 <= ((#[trigger] cs[i]).loc.0 as int) && (cs[i].loc.0
        as int) < x1 && y0 <= (cs[i].loc.1 as int) && (cs[i].loc.1 as int) < y1
}

/// No two changes of the list address the same pixel.
pub open spec fn distinct_locs(cs: Seq<Change>) -> bool {
    forall|i: int, j: int| 0 <= i < j < cs.len() ==> (#[trigger] cs[i]).loc != (#[trigger] cs[j]).loc
}

/// Pooling two location-distinct lists whose locations never coincide
/// stays location-distinct.
pub proof fn lemma_distinct_concat(a: Seq<Change>, b: Seq<Change>)
    requires
        distinct_locs(a),
        distinct_locs(b),
        forall|i: int, j: int| 0 <= i < a.len() && 0 <= j < b.len() ==> (#[trigger] a[i]).loc != (
        #[trigger] b[j]).loc,
    ensures
        distinct_locs(a + b),
{
    assert forall|i: int, j: int| 0 <= i < j < (a + b).len() implies (#[trigger] (a + b)[i]).loc
        != (#[trigger] (a + b)[j]).loc by {
        if j < a.len() {
            assert((a + b)[i] == a[i] && (a + b)[j] == a[j]);
        } else if i < a.len() {
            assert((a + b)[i] == a[i] && (a + b)[j] == b[j - a.len()]);
        } else {
            assert((a + b)[i] == b[i - a.len()] && (a + b)[j] == b[j - a.len()]);
        }
    }
}

/// A row's scan visits each column once, left to right: its changes lie in
/// the row and no two address the same pixel.
pub proof fn lemma_row_changes_located(img: Image, y: int, x0: int, x1: int)
    requires
        0 <= x0,
        x1 <= img.width as int,
        0 <= y < img.height as int,
    ensures
        located_in(changes_row(img, y, x0, x1), x0, x1, y, y + 1),
        distinct_locs(changes_row(img, y, x0, x1)),
    decreases x1 - x0,
{
    if x0 < x1 {
        lemma_row_changes_located(img, y, x0 + 1, x1);
        let head = opt_seq(change_at(img, x0, y));
        let rest = changes_row(img, y, x0 + 1, x1);
        assert(located_in(head, x0, x0 + 1, y, y + 1)) by {
            reveal(change_at);
        }
        assert(distinct_locs(head));
        lemma_distinct_concat(head, rest);
        assert forall|i: int| 0 <= i < (head + rest).len() implies x0 <= ((#[trigger] (head
            + rest)[i]).loc.0 as int) && ((head + rest)[i].loc.0 as int) < x1 && y <= ((head
            + rest)[i].loc.1 as int) && ((head + rest)[i].loc.1 as int) < y + 1 by {
            if i < head.len() {
                assert((head + rest)[i] == head[i]);
            } else {
                assert((head + rest)[i] == rest[i - head.len()]);
            }
        }
    } else {
        assert(located_in(changes_row(img, y, x0, x1), x0, x1, y, y + 1));
        assert(distinct_locs(changes_row(img, y, x0, x1)));
    }
}

/// A rectangle's scan visits each coordinate exactly once: its changes lie
/// in the rectangle and no two address the same pixel.
pub proof fn lemma_rect_changes_located(img: Image, x0: int, x1: int, y0: int, y1: int)
    requires
        0 <= x0,
        x1 <= img.width as int,
        0 <= y0,
        y1 <= img.height as int,
    ensures
        located_in(changes_rect(img, x0, x1, y0, y1), x0, x1, y0, y1),
        distinct_locs(changes_rect(img, x0, x1, y0, y1)),
    decreases y1 - y0,
{
    if y0 < y1 {
        lemma_row_changes_located(img, y0, x0, x1);
        lemma_rect_changes_located(img, x0, x1, y0 + 1, y1);
        let row = changes_row(img, y0, x0, x1);
        let rest = changes_rect(img, x0, x1, y0 + 1, y1);
        lemma_distinct_concat(row, rest);
        assert forall|i: int| 0 <= i < (row + rest).len() implies x0 <= ((#[trigger] (row
            + rest)[i]).loc.0 as int) && ((row + rest)[i].loc.0 as int) < x1 && y0 <= ((row
            + rest)[i].loc.1 as int) && ((row + rest)[i].loc.1 as int) < y1 by {
            if i < row.len() {
                assert((row + rest)[i] == row[i]);
            } else {
                assert((row + rest)[i] == rest[i - row.len()]);
            }
        }
    } else {
        assert(located_in(changes_rect(img, x0, x1, y0, y1), x0, x1, y0, y1));
        assert(distinct_locs(changes_rect(img, x0, x1, y0, y1)));
    }
}

/// Everything one full scan proposes, pooled over the four quadrants in
/// their fixed order.
pub open spec fn step_changes(img: Image) -> Seq<Change> {
    ((quadrant_changes(img, 0) + quadrant_changes(img, 1)) + quadrant_changes(img, 2))
        + quadrant_changes(img, 3)
}

/// The quadrants are disjoint, so the pooled scan of one iteration
/// addresses each pixel at most once.
pub proof fn lemma_step_changes_distinct(img: Image)
    ensures
        distinct_locs(step_changes(img)),
        located_in(step_changes(img), 0, img.width as int, 0, img.height as int),
{
    let w = img.width as int;
    let h = img.height as int;
    let hw = w / 2;
    let hh = h / 2;
    assert(0 <= hw <= w && 0 <= hh <= h) by (nonlinear_arith)
        requires
            w >= 0,
            h >= 0,
            hw == w / 2,
            hh == h / 2,
    {}
    lemma_rect_changes_located(img, 0, hw, 0, hh);
    lemma_rect_changes_located(img, hw, w, 0, hh);
    lemma_rect_changes_located(img, 0, hw, hh, h);
    lemma_rect_changes_located(img, hw, w, hh, h);
    let q0 = quadrant_changes(img, 0);
    let q1 = quadrant_changes(img, 1);
    let q2 = quadrant_changes(img, 2);
    let q3 = quadrant_changes(img, 3);
    assert forall|i: int, j: int| 0 <= i < q0.len() && 0 <= j < q1.len() implies (
    #[trigger] q0[i]).loc != (#[trigger] q1[j]).loc by {
        assert((q0[i].loc.0 as int) < hw && hw <= (q1[j].loc.0 as int));
    }
    lemma_distinct_concat(q0, q1);
    assert forall|i: int, j: int| 0 <= i < (q0 + q1).len() && 0 <= j < q2.len() implies (
    #[trigger] (q0 + q1)[i]).loc != (#[trigger] q2[j]).loc by {
        if i < q0.len() {
            assert((q0 + q1)[i] == q0[i]);
            assert((q0[i].loc.1 as int) < hh && hh <= (q2[j].loc.1 as int));
        } else {
            assert((q0 + q1)[i] == q1[i - q0.len()]);
            assert((q2[j].loc.0 as int) < hw && hw <= (q1[i - q0.len()].loc.0 as int));
        }
    }
    lemma_distinct_concat(q0 + q1, q2);
    assert forall|i: int, j: int| 0 <= i < ((q0 + q1) + q2).len() && 0 <= j < q3.len() implies (
    #[trigger] ((q0 + q1) + q2)[i]).loc != (#[trigger] q3[j]).loc by {
        if i < (q0 + q1).len() {
            if i < q0.len() {
                assert(((q0 + q1) + q2)[i] == q0[i]);
                assert((q0[i].loc.0 as int) < hw && hw <= (q3[j].loc.0 as int));
            } else {
                assert(((q0 + q1) + q2)[i] == q1[i - q0.len()]);
                assert((q1[i - q0.len()].loc.1 as int) < hh && hh <= (q3[j].loc.1 as int));
            }
        } else {
            assert(((q0 + q1) + q2)[i] == q2[i - (q0 + q1).len()]);
            assert((q2[i - (q0 + q1).len()].loc.0 as int) < hw && hw <= (q3[j].loc.0 as int));
        }
    }
    lemma_distinct_concat((q0 + q1) + q2, q3);
    assert forall|i: int| 0 <= i < step_changes(img).len() implies 0 <= ((
    #[trigger] step_changes(img)[i]).loc.0 as int) && (step_changes(img)[i].loc.0 as int) < w && 0
        <= (step_changes(img)[i].loc.1 as int) && (step_changes(img)[i].loc.1 as int) < h by {
        let s = step_changes(img);
        if i < ((q0 + q1) + q2).len() {
            if i < (q0 + q1).len() {
                if i < q0.len() {
                    assert(s[i] == q0[i]);
                } else {
                    assert(s[i] == q1[i - q0.len()]);
                }
            } else {
                assert(s[i] == q2[i - (q0 + q1).len()]);
            }
        } else {
            assert(s[i] == q3[i - ((q0 + q1) + q2).len()]);
        }
    }
}

/// Scans one rectangle of the frame in row-major order: skips opaque
/// pixels, samples the neighborhood of each transparent one, applies the
/// fill rule, and collects the proposed changes.
pub fn scan_quadrant(img: &Image, x0: u32, x1: u32, y0: u32, y1: u32) -> (v: Vec<Change>)
    requires
        img.wf(),
        x0 <= x1 <= img.width,
        y0 <= y1 <= img.height,
    ensures
        v@ == changes_rect(*img, x0 as int, x1 as int, y0 as int, y1 as int),
{
    let mut v: Vec<Change> = Vec::new();
    let mut y = y0;
    while y < y1
        invariant
            img.wf(),
            x0 <= x1 <= img.width,
            y0 <= y1 <= img.height,
            y0 <= y <= y1,
            v@ == changes_rect(*img, x0 as int, x1 as int, y0 as int, y as int),
        decreases y1 - y,
    {
        proof {
            assert(changes_row(*img, y as int, x0 as int, x0 as int) =~= Seq::<Change>::empty());
            assert(v@ =~= changes_rect(*img, x0 as int, x1 as int, y0 as int, y as int)
                + changes_row(*img, y as int, x0 as int, x0 as int));
        }
        let mut x = x0;
        while x < x1
            invariant
                img.wf(),
                x0 <= x1 <= img.width,
                y1 <= img.height,
                y0 <= y < y1,
                x0 <= x <= x1,
                v@ == changes_rect(*img, x0 as int, x1 as int, y0 as int, y as int)
                    + changes_row(*img, y as int, x0 as int, x as int),
            decreases x1 - x,
        {
            let p = Pixel(x as i64, y as i64);
            if !img.test_pixel(&p) {
                let kern = img.get_kernel(&p);
                match decide_fill(&kern) {
                    Some(c) => {
                        v.push(Change { loc: p, col: c });
                    },
                    None => {},
                }
            }
            proof {
                reveal(change_at);
                lemma_row_split(*img, y as int, x0 as int, x as int, x as int + 1);
                assert(changes_row(*img, y as int, x as int + 1, x as int + 1)
                    =~= Seq::<Change>::empty());
                assert(changes_row(*img, y as int, x as int, x as int + 1) =~= opt_seq(
                    change_at(*img, x as int, y as int),
                ));
                assert(v@ =~= changes_rect(*img, x0 as int, x1 as int, y0 as int, y as int)
                    + changes_row(*img, y as int, x0 as int, x as int + 1));
            }
            x = x + 1;
        }
        proof {
            lemma_rect_vsplit(*img, x0 as int, x1 as int, y0 as int, y as int, y as int + 1);
            assert(changes_rect(*img, x0 as int, x1 as int, y as int + 1, y as int + 1)
                =~= Seq::<Change>::empty());
            assert(changes_rect(*img, x0 as int, x1 as int, y as int, y as int + 1) =~=
                changes_row(*img, y as int, x0 as int, x1 as int));
            assert(v@ =~= changes_rect(*img, x0 as int, x1 as int, y0 as int, y as int + 1));
        }
        y = y + 1;
    }
    v
}

/// One full scan iteration: scans the four quadrants in their fixed order
/// and returns the four proposed change lists, one per quadrant.
pub fn scan_step(img: &Image) -> (vs: Vec<Vec<Change>>)
    requires
        img.wf(),
    ensures
        vs@.len() == 4,
        forall|q: int|
            0 <= q < 4 ==> (#[trigger] vs@[q])@ == quadrant_changes(*img, q),
{
    let mut vs: Vec<Vec<Change>> = Vec::new();
    let mut q: usize = 0;
    while q < 4
        invariant
            img.wf(),
            0 <= q <= 4,
            vs@.len() == q,
            forall|i: int|
                0 <= i < q ==> (#[trigger] vs@[i])@ == quadrant_changes(*img, i),
        decreases 4 - q,
    {
        let r = quadrant_rect(img.width, img.height, q);
        let v = scan_quadrant(img, r.x0, r.x1, r.y0, r.y1);
        vs.push(v);
        q = q + 1;
    }
    vs
}

} // verus!
