//! The commit phase: applying one iteration's proposed changes under
//! exclusive access, and the convergence loop that alternates scan and
//! commit until a scan proposes nothing.

use vstd::prelude::*;
use crate::image::{lemma_offset_bound, written, Change, Image};
use crate::scan::{
    all_changes_ok, converged, distinct_locs, lemma_converged_quadrants_empty, lemma_ok_concat,
    lemma_quadrants_empty_converged, lemma_scan_changes_ok, lemma_step_changes_distinct,
    quadrant_changes, scan_change_ok, scan_step, step_changes,
};

verus! {

/// `data` after writing change `c` into a buffer of row length `w` pixels.
pub open spec fn apply_one(data: Seq<u8>, w: int, c: Change) -> Seq<u8> {
    written(data, (c.loc.1 as int * w + c.loc.0 as int) * 4, c.col)
}

/// `data` after writing every change of `cs`, in order.
pub open spec fn apply_all(data: Seq<u8>, w: int, cs: Seq<Change>) -> Seq<u8>
    decreases cs.len(),
{
    if cs.len() == 0 {
        data
    } else {
        apply_one(apply_all(data, w, cs.drop_last()), w, cs.last())
    }
}

/// The change lists of all quadrants as one sequence, in quadrant order.
pub open spec fn flatten_lists(vs: Seq<Seq<Change>>) -> Seq<Change>
    decreases vs.len(),
{
    if vs.len() == 0 {
        Seq::empty()
    } else {
        flatten_lists(vs.drop_last()) + vs.last()
    }
}

/// The views of a vector of change lists.
pub open spec fn lists_of(vecs: Seq<Vec<Change>>) -> Seq<Seq<Change>> {
    Seq::new(vecs.len(), |i: int| vecs[i]@)
}

/// Flattening exactly four lists concatenates them in order.
pub proof fn lemma_flatten_four(vs: Seq<Seq<Change>>)
    requires
        vs.len() == 4,
    ensures
        flatten_lists(vs) == ((vs[0] + vs[1]) + vs[2]) + vs[3],
{
    let v3 = vs.drop_last();
    let v2 = v3.drop_last();
    let v1 = v2.drop_last();
    let e = Seq::<Seq<Change>>::empty();
    assert(v1.drop_last() =~= e);
    assert(flatten_lists(e) == Seq::<Change>::empty());
    assert(flatten_lists(v1) =~= vs[0]);
    assert(flatten_lists(v2) =~= vs[0] + vs[1]);
    assert(flatten_lists(v3) =~= (vs[0] + vs[1]) + vs[2]);
    assert(flatten_lists(vs) =~= ((vs[0] + vs[1]) + vs[2]) + vs[3]);
}

/// The change addresses a pixel of a `w x h` frame.
pub open spec fn change_in_frame(c: Change, w: int, h: int) -> bool {
    0 <= c.loc.0 < w && 0 <= c.loc.1 < h
}

/// Every change addresses a pixel of the frame and writes a fully opaque
/// color.
pub open spec fn changes_writable(cs: Seq<Change>, w: int, h: int) -> bool {
    forall|i: int| 0 <= i < cs.len() ==> change_in_frame(#[trigger] cs[i], w, h)
        && cs[i].col.a == 255
}

/// The alpha byte of the pixel with linear index `j`.
pub open spec fn alpha_of(data: Seq<u8>, j: int) -> u8 {
    data[4 * j + 3]
}

/// Count of opaque pixels among the first `n` pixels of the buffer.
pub open spec fn count_opaque_upto(data: Seq<u8>, n: int) -> int
    decreases n,
{
    if n <= 0 {
        0
    } else {
        count_opaque_upto(data, n - 1) + if alpha_of(data, n - 1) == 255 {
            1int
        } else {
            0int
        }
    }
}

/// Count of opaque pixels of the whole frame.
pub open spec fn count_opaque(img: Image) -> int {
    count_opaque_upto(img.data@, img.width as int * img.height as int)
}

pub proof fn lemma_count_bounds(data: Seq<u8>, n: int)
    ensures
        0 <= count_opaque_upto(data, n),
        n >= 0 ==> count_opaque_upto(data, n) <= n,
    decreases n,
{
    if n > 0 {
        lemma_count_bounds(data, n - 1);
    }
}

/// If two buffers agree on the alpha byte of every pixel but `k`, where the
/// second is opaque, the counts differ exactly by whether pixel `k` of the
/// first was transparent.
proof fn lemma_count_update(d1: Seq<u8>, d2: Seq<u8>, k: int, n: int)
    requires
        0 <= k,
        forall|j: int| 0 <= j < n && j != k ==> alpha_of(d1, j) == #[trigger] alpha_of(d2, j),
        alpha_of(d2, k) == 255,
    ensures
        count_opaque_upto(d2, n) == count_opaque_upto(d1, n) + if k < n && alpha_of(d1, k) != 255 {
            1int
        } else {
            0int
        },
    decreases n,
{
    if n > 0 {
        lemma_count_update(d1, d2, k, n - 1);
    }
}

/// Writing one fully opaque change preserves the buffer's length, and
/// raises the opaque count exactly when the addressed pixel was
/// transparent.
pub proof fn lemma_apply_one_count(data: Seq<u8>, w: int, h: int, c: Change)
    requires
        data.len() == w * h * 4,
        change_in_frame(c, w, h),
        c.col.a == 255,
    ensures
        apply_one(data, w, c).len() == data.len(),
        count_opaque_upto(apply_one(data, w, c), w * h) == count_opaque_upto(data, w * h)
            + if alpha_of(data, c.loc.1 as int * w + c.loc.0 as int) != 255 {
                1int
            } else {
                0int
            },
{
    let x = c.loc.0 as int;
    let y = c.loc.1 as int;
    let k = y * w + x;
    lemma_offset_bound(x, y, w, h);
    let d2 = apply_one(data, w, c);
    assert forall|j: int| 0 <= j < w * h && j != k implies alpha_of(data, j) == #[trigger] alpha_of(
        d2,
        j,
    ) by {
        assert(4 * j + 3 < data.len());
        assert(d2[4 * j + 3] == data[4 * j + 3]);
    }
    assert(alpha_of(d2, k) == 255);
    lemma_count_update(data, d2, k, w * h);
}

/// Applying any sequence of fully opaque in-frame changes never lowers the
/// opaque count, and raises it when the sequence is non-empty and every
/// change addresses a pixel that is transparent in the starting buffer.
pub proof fn lemma_apply_all_count(data: Seq<u8>, w: int, h: int, cs: Seq<Change>)
    requires
        data.len() == w * h * 4,
        changes_writable(cs, w, h),
    ensures
        apply_all(data, w, cs).len() == data.len(),
        count_opaque_upto(apply_all(data, w, cs), w * h) >= count_opaque_upto(data, w * h),
        cs.len() > 0 && (forall|i: int| 0 <= i < cs.len() ==> alpha_of(data, (#[trigger] cs[i]).loc.1
            as int * w + cs[i].loc.0 as int) != 255)
            ==> count_opaque_upto(apply_all(data, w, cs), w * h) >= count_opaque_upto(data, w * h)
            + 1,
    decreases cs.len(),
{
    if cs.len() > 0 {
        lemma_apply_all_count(data, w, h, cs.drop_last());
        let mid = apply_all(data, w, cs.drop_last());
        lemma_apply_one_count(mid, w, h, cs.last());
    }
}

/// Applying changes that all address transparent pixels leaves every byte
/// of every opaque pixel untouched: an opaque pixel is never overwritten.
pub proof fn lemma_apply_all_preserves_opaque(
    data: Seq<u8>,
    w: int,
    h: int,
    cs: Seq<Change>,
    k: int,
)
    requires
        data.len() == w * h * 4,
        changes_writable(cs, w, h),
        forall|i: int| 0 <= i < cs.len() ==> alpha_of(data, (#[trigger] cs[i]).loc.1 as int * w
            + cs[i].loc.0 as int) != 255,
        0 <= k < w * h,
        alpha_of(data, k) == 255,
    ensures
        forall|b: int| 4 * k <= b < 4 * k + 4 ==> apply_all(data, w, cs)[b] == data[b],
{
    assert forall|i: int| 0 <= i < cs.len() implies (#[trigger] cs[i]).loc.1 as int * w
        + cs[i].loc.0 as int != k by {
        assert(alpha_of(data, cs[i].loc.1 as int * w + cs[i].loc.0 as int) != 255);
    }
    lemma_apply_all_preserves_untargeted(data, w, h, cs, k);
}


/// Two distinct in-frame coordinates have distinct linear pixel indices.
pub proof fn lemma_pixel_index_injective(x1: int, y1: int, x2: int, y2: int, w: int)
    requires
        0 <= x1 < w,
        0 <= x2 < w,
        0 <= y1,
        0 <= y2,
        !(x1 == x2 && y1 == y2),
    ensures
        y1 * w + x1 != y2 * w + x2,
{
    assert(y1 * w + x1 != y2 * w + x2) by (nonlinear_arith)
        requires
            0 <= x1 < w,
            0 <= x2 < w,
            0 <= y1,
            0 <= y2,
            !(x1 == x2 && y1 == y2),
    {}
}

/// Applying changes leaves every byte of a pixel that no change addresses
/// untouched.
pub proof fn lemma_apply_all_preserves_untargeted(
    data: Seq<u8>,
    w: int,
    h: int,
    cs: Seq<Change>,
    k: int,
)
    requires
        data.len() == w * h * 4,
        changes_writable(cs, w, h),
        forall|i: int| 0 <= i < cs.len() ==> (#[trigger] cs[i]).loc.1 as int * w + cs[i].loc.0
            as int != k,
        0 <= k < w * h,
    ensures
        forall|b: int| 4 * k <= b < 4 * k + 4 ==> apply_all(data, w, cs)[b] == data[b],
    decreases cs.len(),
{
    if cs.len() > 0 {
        lemma_apply_all_preserves_untargeted(data, w, h, cs.drop_last(), k);
        lemma_apply_all_count(data, w, h, cs.drop_last());
        let mid = apply_all(data, w, cs.drop_last());
        let c = cs.last();
        let kc = c.loc.1 as int * w + c.loc.0 as int;
        assert(kc != k);
        lemma_offset_bound(c.loc.0 as int, c.loc.1 as int, w, h);
        assert forall|b: int| 4 * k <= b < 4 * k + 4 implies apply_all(data, w, cs)[b]
            == data[b] by {
            assert(apply_all(data, w, cs) == apply_one(mid, w, c));
            assert(b < data.len());
            assert(apply_one(mid, w, c)[b] == mid[b]);
        }
    }
}

/// Exact counting: applying changes that address pairwise distinct pixels,
/// each transparent in the starting buffer, raises the opaque count by
/// exactly the number of changes.
pub proof fn lemma_apply_all_count_exact(data: Seq<u8>, w: int, h: int, cs: Seq<Change>)
    requires
        data.len() == w * h * 4,
        changes_writable(cs, w, h),
        forall|i: int| 0 <= i < cs.len() ==> alpha_of(data, (#[trigger] cs[i]).loc.1 as int * w
            + cs[i].loc.0 as int) != 255,
        distinct_locs(cs),
    ensures
        count_opaque_upto(apply_all(data, w, cs), w * h) == count_opaque_upto(data, w * h)
            + cs.len(),
    decreases cs.len(),
{
    if cs.len() > 0 {
        let rest = cs.drop_last();
        lemma_apply_all_count_exact(data, w, h, rest);
        lemma_apply_all_count(data, w, h, rest);
        let mid = apply_all(data, w, rest);
        let c = cs.last();
        let kc = c.loc.1 as int * w + c.loc.0 as int;
        lemma_offset_bound(c.loc.0 as int, c.loc.1 as int, w, h);
        assert forall|i: int| 0 <= i < rest.len() implies (#[trigger] rest[i]).loc.1 as int * w
            + rest[i].loc.0 as int != kc by {
            assert(rest[i] == cs[i]);
            assert(cs[i].loc != c.loc);
            lemma_pixel_index_injective(
                cs[i].loc.0 as int,
                cs[i].loc.1 as int,
                c.loc.0 as int,
                c.loc.1 as int,
                w,
            );
        }
        lemma_apply_all_preserves_untargeted(data, w, h, rest, kc);
        assert(alpha_of(mid, kc) == alpha_of(data, kc));
        lemma_apply_one_count(mid, w, h, c);
    }
}


/// One scan-and-commit round: the scan of `pre` proposed at least one
/// change, and `post` is `pre` with everything it proposed applied.
pub open spec fn commit_round(pre: Image, post: Image) -> bool {
    &&& step_changes(pre).len() > 0
    &&& post.width == pre.width
    &&& post.height == pre.height
    &&& post.data@ == apply_all(pre.data@, pre.width as int, step_changes(pre))
}

/// `b` is reached from `a` by exactly `n` scan-and-commit rounds.
pub open spec fn reaches(a: Image, b: Image, n: int) -> bool
    decreases n,
{
    if n <= 0 {
        a == b
    } else {
        exists|mid: Image| commit_round(a, mid) && reaches(mid, b, n - 1)
    }
}

/// One more committed round extends a reachability chain by one.
pub proof fn lemma_reaches_extend(a: Image, m: Image, b: Image, n: int)
    requires
        n >= 0,
        reaches(a, m, n),
        commit_round(m, b),
    ensures
        reaches(a, b, n + 1),
    decreases n,
{
    if n <= 0 {
        assert(commit_round(a, b) && reaches(b, b, 0));
        assert(reaches(a, b, 1));
    } else {
        let mid = choose|mid: Image| commit_round(a, mid) && reaches(mid, m, n - 1);
        lemma_reaches_extend(mid, m, b, n - 1);
        assert(reaches(a, b, n + 1));
    }
}

/// One commit of everything one scan proposes raises the opaque count by
/// exactly the number of proposed changes, and so lowers the transparent
/// count by the same: the scan visits each pixel once, proposes only for
/// distinct transparent pixels, and every proposed color is fully opaque.
pub proof fn lemma_commit_raises_count_exactly(img: Image)
    requires
        img.wf(),
    ensures
        count_opaque_upto(
            apply_all(img.data@, img.width as int, step_changes(img)),
            img.width as int * img.height as int,
        ) == count_opaque(img) + step_changes(img).len(),
{
    let w = img.width as int;
    let h = img.height as int;
    let hw = w / 2;
    let hh = h / 2;
    assert(0 <= hw <= w && 0 <= hh <= h) by (nonlinear_arith)
        requires
            w >= 0,
            h >= 0,
            hw == w / 2,
            hh == h / 2,
    {}
    lemma_scan_changes_ok(img, 0, hw, 0, hh);
    lemma_scan_changes_ok(img, hw, w, 0, hh);
    lemma_scan_changes_ok(img, 0, hw, hh, h);
    lemma_scan_changes_ok(img, hw, w, hh, h);
    let q0 = quadrant_changes(img, 0);
    let q1 = quadrant_changes(img, 1);
    let q2 = quadrant_changes(img, 2);
    let q3 = quadrant_changes(img, 3);
    lemma_ok_concat(img, q0, q1);
    lemma_ok_concat(img, q0 + q1, q2);
    lemma_ok_concat(img, (q0 + q1) + q2, q3);
    let flat = step_changes(img);
    assert(all_changes_ok(img, flat));
    lemma_step_changes_distinct(img);
    assert(changes_writable(flat, w, h)) by {
        assert forall|i: int| 0 <= i < flat.len() implies change_in_frame(#[trigger] flat[i], w, h)
            && flat[i].col.a == 255 by {
            assert(scan_change_ok(img, flat[i]));
        }
    }
    assert forall|i: int| 0 <= i < flat.len() implies alpha_of(img.data@, (
    #[trigger] flat[i]).loc.1 as int * w + flat[i].loc.0 as int) != 255 by {
        assert(scan_change_ok(img, flat[i]));
    }
    lemma_apply_all_count_exact(img.data@, w, h, flat);
}

/// Applies every proposed change from every quadrant's list to the buffer,
/// in list order.
pub fn apply_changes(img: &mut Image, vecs: &Vec<Vec<Change>>)
    requires
        old(img).wf(),
        forall|i: int, j: int| 0 <= i < vecs@.len() && 0 <= j < vecs@[i]@.len()
            ==> change_in_frame(
                #[trigger] vecs@[i]@[j],
                old(img).width as int,
                old(img).height as int,
            ),
    ensures
        final(img).wf(),
        final(img).width == old(img).width,
        final(img).height == old(img).height,
        final(img).data@ == apply_all(
            old(img).data@,
            old(img).width as int,
            flatten_lists(lists_of(vecs@)),
        ),
{
    let ghost d0 = img.data@;
    let ghost w = img.width as int;
    let ghost h = img.height as int;
    let ghost lists = lists_of(vecs@);
    proof {
        assert(lists.take(0) =~= Seq::<Seq<Change>>::empty());
    }
    let mut i: usize = 0;
    while i < vecs.len()
        invariant
            img.wf(),
            img.width as int == w,
            img.height as int == h,
            lists == lists_of(vecs@),
            forall|a: int, b: int| 0 <= a < vecs@.len() && 0 <= b < vecs@[a]@.len()
                ==> change_in_frame(#[trigger] vecs@[a]@[b], w, h),
            0 <= i <= vecs@.len(),
            img.data@ == apply_all(d0, w, flatten_lists(lists.take(i as int))),
        decreases vecs@.len() - i,
    {
        proof {
            assert(lists[i as int].take(0) =~= Seq::<Change>::empty());
            assert(flatten_lists(lists.take(i as int)) + lists[i as int].take(0)
                =~= flatten_lists(lists.take(i as int)));
        }
        let mut j: usize = 0;
        while j < vecs[i].len()
            invariant
                img.wf(),
                img.width as int == w,
                img.height as int == h,
                lists == lists_of(vecs@),
                forall|a: int, b: int| 0 <= a < vecs@.len() && 0 <= b < vecs@[a]@.len()
                    ==> change_in_frame(#[trigger] vecs@[a]@[b], w, h),
                0 <= i < vecs@.len(),
                0 <= j <= vecs@[i as int]@.len(),
                img.data@ == apply_all(
                    d0,
                    w,
                    flatten_lists(lists.take(i as int)) + lists[i as int].take(j as int),
                ),
            decreases vecs@[i as int]@.len() - j,
        {
            let ghost prefix = flatten_lists(lists.take(i as int)) + lists[i as int].take(
                j as int,
            );
            let c = vecs[i][j];
            img.set_pixel(&c.loc, &c.col);
            proof {
                assert(prefix.push(c).drop_last() =~= prefix);
                assert(apply_all(d0, w, prefix.push(c)) == apply_one(apply_all(d0, w, prefix), w, c));
                assert(flatten_lists(lists.take(i as int)) + lists[i as int].take(j as int + 1)
                    =~= prefix.push(c));
            }
            j = j + 1;
        }
        proof {
            assert(lists.take(i as int + 1).drop_last() =~= lists.take(i as int));
            assert(lists.take(i as int + 1).last() == lists[i as int]);
            assert(lists[i as int].take(vecs@[i as int]@.len() as int) =~= lists[i as int]);
            assert(flatten_lists(lists.take(i as int)) + lists[i as int] =~= flatten_lists(
                lists.take(i as int + 1),
            ));
        }
        i = i + 1;
    }
    proof {
        assert(lists.take(vecs@.len() as int) =~= lists);
    }
}

/// Repeats scan and commit until an iteration proposes zero changes, and
/// returns the number of commit rounds. On return no transparent pixel has
/// enough opaque neighbors left to fill; the opaque count never decreased;
/// each non-final round turned at least one transparent pixel opaque, so
/// the rounds are bounded by the pixel count; and a frame that was already
/// converged is returned byte-for-byte unchanged after a single scan.
#[verifier::rlimit(50)]
pub fn converge(img: &mut Image) -> (rounds: usize)
    requires
        old(img).wf(),
    ensures
        final(img).wf(),
        final(img).width == old(img).width,
        final(img).height == old(img).height,
        converged(*final(img)),
        count_opaque(*final(img)) >= count_opaque(*old(img)),
        rounds as int <= old(img).width as int * old(img).height as int,
        forall|x: int, y: int| old(img).in_bounds(x, y) && #[trigger] old(img).opaque_at(x, y)
            ==> final(img).color_at(x, y) == old(img).color_at(x, y),
        reaches(*old(img), *final(img), rounds as int),
        converged(*old(img)) ==> rounds == 0 && final(img).data@ == old(img).data@,
{
    let ghost orig = *img;
    let ghost w = img.width as int;
    let ghost h = img.height as int;
    proof {
        lemma_count_bounds(orig.data@, w * h);
    }
    let mut rounds: usize = 0;
    loop
        invariant
            img.wf(),
            img.width == orig.width,
            img.height == orig.height,
            orig.wf(),
            w == orig.width as int,
            h == orig.height as int,
            count_opaque(*img) >= count_opaque(orig) + rounds,
            forall|x: int, y: int| orig.in_bounds(x, y) && #[trigger] orig.opaque_at(x, y)
                ==> img.color_at(x, y) == orig.color_at(x, y),
            reaches(orig, *img, rounds as int),
            converged(orig) ==> rounds == 0 && *img == orig,
        ensures
            img.wf(),
            img.width == orig.width,
            img.height == orig.height,
            converged(*img),
            count_opaque(*img) >= count_opaque(orig) + rounds,
            rounds as int <= w * h,
            forall|x: int, y: int| orig.in_bounds(x, y) && #[trigger] orig.opaque_at(x, y)
                ==> img.color_at(x, y) == orig.color_at(x, y),
            reaches(orig, *img, rounds as int),
            converged(orig) ==> rounds == 0 && *img == orig,
        decreases w * h - count_opaque(*img),
    {
        let ghost pre = *img;
        let ghost hw = w / 2;
        let ghost hh = h / 2;
        let vs = scan_step(img);
        proof {
            lemma_count_bounds(pre.data@, w * h);
        }
        if vs[0].len() == 0 && vs[1].len() == 0 && vs[2].len() == 0 && vs[3].len() == 0 {
            proof {
                lemma_quadrants_empty_converged(pre);
                lemma_count_bounds(orig.data@, w * h);
            }
            break;
        }
        proof {
            lemma_scan_changes_ok(pre, 0, hw, 0, hh);
            lemma_scan_changes_ok(pre, hw, w, 0, hh);
            lemma_scan_changes_ok(pre, 0, hw, hh, h);
            lemma_scan_changes_ok(pre, hw, w, hh, h);
            assert forall|a: int, b: int| 0 <= a < vs@.len() && 0 <= b < vs@[a]@.len()
                implies change_in_frame(#[trigger] vs@[a]@[b], w, h) by {
                assert(scan_change_ok(pre, vs@[a]@[b]));
            }
            // if the starting frame was converged, this branch is unreachable
            if converged(orig) {
                assert(pre == orig);
                lemma_converged_quadrants_empty(orig);
                assert(false);
            }
        }
        apply_changes(img, &vs);
        let n = img.data.len();
        proof {
            assert(w * h >= 0);
            assert(w * h <= n as int);
            let lists = lists_of(vs@);
            lemma_flatten_four(lists);
            let flat = flatten_lists(lists);
            assert(flat == ((vs@[0]@ + vs@[1]@) + vs@[2]@) + vs@[3]@);
            lemma_ok_concat(pre, vs@[0]@, vs@[1]@);
            lemma_ok_concat(pre, vs@[0]@ + vs@[1]@, vs@[2]@);
            lemma_ok_concat(pre, (vs@[0]@ + vs@[1]@) + vs@[2]@, vs@[3]@);
            assert(all_changes_ok(pre, flat));
            assert(changes_writable(flat, w, h)) by {
                assert forall|i: int| 0 <= i < flat.len() implies change_in_frame(
                    #[trigger] flat[i],
                    w,
                    h,
                ) && flat[i].col.a == 255 by {
                    assert(scan_change_ok(pre, flat[i]));
                }
            }
            assert forall|i: int| 0 <= i < flat.len() implies alpha_of(
                pre.data@,
                (#[trigger] flat[i]).loc.1 as int * w + flat[i].loc.0 as int,
            ) != 255 by {
                assert(scan_change_ok(pre, flat[i]));
            }
            assert(flat.len() > 0);
            assert(flat == step_changes(pre));
            assert(commit_round(pre, *img));
            lemma_reaches_extend(orig, pre, *img, rounds as int);
            lemma_apply_all_count(pre.data@, w, h, flat);
            lemma_count_bounds(img.data@, w * h);
            lemma_count_bounds(orig.data@, w * h);
            assert(w * h >= 0);
            assert forall|x: int, y: int| orig.in_bounds(x, y) && #[trigger] orig.opaque_at(x, y)
                implies img.color_at(x, y) == orig.color_at(x, y) by {
                lemma_offset_bound(x, y, w, h);
                let k = y * w + x;
                assert(pre.color_at(x, y) == orig.color_at(x, y));
                assert(alpha_of(pre.data@, k) == 255);
                lemma_apply_all_preserves_opaque(pre.data@, w, h, flat, k);
                assert(img.data@[4 * k] == pre.data@[4 * k]);
                assert(img.data@[4 * k + 1] == pre.data@[4 * k + 1]);
                assert(img.data@[4 * k + 2] == pre.data@[4 * k + 2]);
                assert(img.data@[4 * k + 3] == pre.data@[4 * k + 3]);
            }
        }
        rounds = rounds + 1;
    }
    rounds
}

} // verus!
