//! Image transforms used around face detection.

use vstd::prelude::*;
use vstd::arithmetic::div_mod::{lemma_fundamental_div_mod, lemma_fundamental_div_mod_converse_div, lemma_fundamental_div_mod_converse_mod};
use crate::image::{Image, flat, lemma_flat_bound, lemma_flat_outside};
use crate::ppm::{lemma_index_in_grid, lemma_grid_distinct};

verus! {

/// `out` is `img` mirrored left to right: pixel `(x, y)` of `out` is pixel
/// `(w - 1 - x, y)` of `img`, channel by channel.
pub open spec fn is_mirror(out: Seq<u8>, img: Image) -> bool {
    &&& out.len() == img.data@.len()
    &&& forall|x: int, y: int, c: int|
        0 <= x < img.width && 0 <= y < img.height && 0 <= c < img.channels ==> #[trigger] out[flat(
            x,
            y,
            c,
            img.width as int,
            img.channels as int,
        )] == img.data@[flat(img.width - 1 - x, y, c, img.width as int, img.channels as int)]
}

/// Swaps the `n`-byte blocks at `a` and `b`, which do not overlap.
fn swap_blocks(data: &mut Vec<u8>, a: usize, b: usize, n: usize)
    requires
        a + n <= b,
        b + n <= old(data)@.len(),
    ensures
        final(data)@.len() == old(data)@.len(),
        forall|k: int| 0 <= k < n ==> #[trigger] final(data)@[a + k] == old(data)@[b + k],
        forall|k: int| 0 <= k < n ==> #[trigger] final(data)@[b + k] == old(data)@[a + k],
        forall|k: int|
            0 <= k < old(data)@.len() && !(a <= k < a + n) && !(b <= k < b + n)
                ==> #[trigger] final(data)@[k] == old(data)@[k],
{
    let dl = data.len();
    let mut k: usize = 0;
    while k < n
        invariant
            dl == old(data)@.len(),
            a + n <= b,
            b + n <= dl,
            k <= n,
            data@.len() == dl,
            forall|kk: int| 0 <= kk < k ==> #[trigger] data@[a + kk] == old(data)@[b + kk],
            forall|kk: int| 0 <= kk < k ==> #[trigger] data@[b + kk] == old(data)@[a + kk],
            forall|kk: int|
                0 <= kk < dl && !(a <= kk < a + k) && !(b <= kk < b + k) ==> #[trigger] data@[kk]
                    == old(data)@[kk],
        decreases n - k,
    {
        let va = data[a + k];
        let vb = data[b + k];
        data.set(a + k, vb);
        data.set(b + k, va);
        k = k + 1;
    }
}

/// Which pixels have been swapped after columns `< x` of rows `<= y` (row `y`
/// only up to `x`).
spec fn flipped_yet(xx: int, yy: int, w: int, y: int, x: int) -> bool {
    yy < y || (yy == y && (xx < x || w - 1 - xx < x))
}

/// Mirrors the image left to right.
pub fn flip_horizontal(img: &Image) -> (out: Image)
    requires
        img.wf(),
        img.width * img.height <= usize::MAX,
    ensures
        out.wf(),
        out.width == img.width,
        out.height == img.height,
        out.channels == img.channels,
        is_mirror(out.data@, *img),
{
    let w = img.width;
    let h = img.height;
    let ch = img.channels;
    let mut data = img.data.clone();
    let dl = data.len();
    let mut y: usize = 0;
    while y < h
        invariant
            img.wf(),
            w == img.width,
            h == img.height,
            ch == img.channels,
            w * h <= usize::MAX,
            dl == data@.len(),
            data@.len() == img.data@.len(),
            y <= h,
            forall|xx: int, yy: int, c: int|
                0 <= xx < w && 0 <= yy < h && 0 <= c < ch ==> #[trigger] data@[flat(xx, yy, c, w as int, ch as int)]
                    == img.data@[flat(
                    if flipped_yet(xx, yy, w as int, y as int, 0) { w - 1 - xx } else { xx },
                    yy,
                    c,
                    w as int,
                    ch as int,
                )],
        decreases h - y,
    {
        let mut x: usize = 0;
        while x < w / 2
            invariant
                img.wf(),
                w == img.width,
                h == img.height,
                ch == img.channels,
                w * h <= usize::MAX,
                dl == data@.len(),
                data@.len() == img.data@.len(),
                y < h,
                x <= w / 2,
                forall|xx: int, yy: int, c: int|
                    0 <= xx < w && 0 <= yy < h && 0 <= c < ch ==> #[trigger] data@[flat(xx, yy, c, w as int, ch as int)]
                        == img.data@[flat(
                        if flipped_yet(xx, yy, w as int, y as int, x as int) { w - 1 - xx } else { xx },
                        yy,
                        c,
                        w as int,
                        ch as int,
                    )],
            decreases w / 2 - x,
        {
            let mx = w - 1 - x;
            let ghost p = y * w + x;
            let ghost q = y * w + mx;
            proof {
                lemma_index_in_grid(x as int, y as int, w as int, h as int);
                lemma_index_in_grid(mx as int, y as int, w as int, h as int);
                assert(0 <= y * w) by (nonlinear_arith);
                if ch > 0 {
                    lemma_flat_bound(q, ch - 1, (w * h) as int, ch as int);
                    lemma_flat_bound(p, ch - 1, (w * h) as int, ch as int);
                    lemma_flat_outside(p, ch - 1, q, ch as int);
                    assert(p * ch + ch <= q * ch) by (nonlinear_arith)
                        requires
                            p + 1 <= q,
                            0 <= ch,
                    ;
                } else {
                    assert(p * ch == 0) by (nonlinear_arith) requires ch == 0;
                    assert(q * ch == 0) by (nonlinear_arith) requires ch == 0;
                }
                assert(0 <= p * ch) by (nonlinear_arith) requires 0 <= p;
            }
            let a = (y * w + x) * ch;
            let b = (y * w + mx) * ch;
            let ghost before = data@;
            swap_blocks(&mut data, a, b, ch);
            proof {
                assert forall|xx: int, yy: int, c: int|
                    0 <= xx < w && 0 <= yy < h && 0 <= c < ch implies #[trigger] data@[flat(xx, yy, c, w as int, ch as int)]
                        == img.data@[flat(
                        if flipped_yet(xx, yy, w as int, y as int, x + 1) { w - 1 - xx } else { xx },
                        yy,
                        c,
                        w as int,
                        ch as int,
                    )] by {
                    let pp = yy * w + xx;
                    lemma_index_in_grid(xx, yy, w as int, h as int);
                    if xx == x && yy == y {
                        assert(data@[a + c] == before[b + c]);
                    } else if xx == mx && yy == y {
                        assert(data@[b + c] == before[a + c]);
                    } else {
                        lemma_grid_distinct(xx, yy, x as int, y as int, w as int);
                        lemma_grid_distinct(xx, yy, mx as int, y as int, w as int);
                        lemma_flat_outside(pp, c, p, ch as int);
                        lemma_flat_outside(pp, c, q, ch as int);
                        lemma_flat_bound(pp, c, (w * h) as int, ch as int);
                        assert(data@[pp * ch + c] == before[pp * ch + c]);
                    }
                }
            }
            x = x + 1;
        }
        proof {
            assert forall|xx: int, yy: int, c: int|
                0 <= xx < w && 0 <= yy < h && 0 <= c < ch implies #[trigger] data@[flat(xx, yy, c, w as int, ch as int)]
                    == img.data@[flat(
                    if flipped_yet(xx, yy, w as int, y + 1, 0) { w - 1 - xx } else { xx },
                    yy,
                    c,
                    w as int,
                    ch as int,
                )] by {
                if yy == y && !flipped_yet(xx, yy, w as int, y as int, x as int) {
                    assert(xx == w - 1 - xx);
                }
            }
        }
        y = y + 1;
    }
    let out = Image { width: w, height: h, channels: ch, data };
    proof {
        assert forall|x: int, y: int, c: int|
            0 <= x < img.width && 0 <= y < img.height && 0 <= c < img.channels implies #[trigger] out.data@[flat(
                x,
                y,
                c,
                img.width as int,
                img.channels as int,
            )] == img.data@[flat(img.width - 1 - x, y, c, img.width as int, img.channels as int)] by {
            assert(flipped_yet(x, y, w as int, h as int, 0));
        }
    }
    out
}

/// `(i, j)` names face `j` of frame `i`.
pub open spec fn valid_pos(ids: Seq<Vec<u32>>, i: int, j: int) -> bool {
    0 <= i < ids.len() && 0 <= j < ids[i]@.len()
}

/// Frame-major order of positions: `(i1, j1)` comes before `(i2, j2)`.
pub open spec fn pos_before(i1: int, j1: int, i2: int, j2: int) -> bool {
    i1 < i2 || (i1 == i2 && j1 < j2)
}

/// `(i, j)` is a face of track `id` that is at least as large as every face
/// of `id` among the positions before `(ei, ej)`, and strictly larger than
/// those of them that come before it: the first of the largest.
pub open spec fn is_pick_before(
    ids: Seq<Vec<u32>>,
    areas: Seq<Vec<u32>>,
    id: u32,
    i: int,
    j: int,
    ei: int,
    ej: int,
) -> bool {
    &&& valid_pos(ids, i, j)
    &&& pos_before(i, j, ei, ej)
    &&& ids[i]@[j] == id
    &&& forall|i2: int, j2: int|
        #![trigger ids[i2]@[j2], areas[i2]@[j2]]
        valid_pos(ids, i2, j2) && pos_before(i2, j2, ei, ej) && ids[i2]@[j2] == id ==> {
            &&& areas[i2]@[j2] <= areas[i]@[j]
            &&& (pos_before(i2, j2, i, j) ==> areas[i2]@[j2] < areas[i]@[j])
        }
}

/// The key face of track `id`: the first of its largest faces overall.
pub open spec fn is_pick(ids: Seq<Vec<u32>>, areas: Seq<Vec<u32>>, id: u32, i: int, j: int) -> bool {
    is_pick_before(ids, areas, id, i, j, ids.len() as int, 0)
}

/// `ids` and `areas` have the same shape.
pub open spec fn same_shape(ids: Seq<Vec<u32>>, areas: Seq<Vec<u32>>) -> bool {
    &&& ids.len() == areas.len()
    &&& forall|i: int| 0 <= i < ids.len() ==> #[trigger] ids[i]@.len() == areas[i]@.len()
}

/// The table of picks for the positions before `(ei, ej)`: one entry per
/// track seen there, each its key face so far.
pub open spec fn picks_before(
    picks: Seq<(u32, usize, usize)>,
    ids: Seq<Vec<u32>>,
    areas: Seq<Vec<u32>>,
    ei: int,
    ej: int,
) -> bool {
    &&& forall|e1: int, e2: int|
        0 <= e1 < e2 < picks.len() ==> #[trigger] picks[e1].0 != #[trigger] picks[e2].0
    &&& forall|e: int|
        0 <= e < picks.len() ==> is_pick_before(
            ids,
            areas,
            #[trigger] picks[e].0,
            picks[e].1 as int,
            picks[e].2 as int,
            ei,
            ej,
        )
    &&& forall|i: int, j: int|
        #![trigger valid_pos(ids, i, j)]
        valid_pos(ids, i, j) && pos_before(i, j, ei, ej) ==> exists|e: int|
            0 <= e < picks.len() && #[trigger] picks[e].0 == ids[i]@[j]
}

/// Index of the entry of `id` in the table, if any.
fn find_pick(picks: &Vec<(u32, usize, usize)>, id: u32) -> (r: Option<usize>)
    ensures
        match r {
            Some(e) => e < picks@.len() && picks@[e as int].0 == id && forall|k: int|
                0 <= k < e ==> #[trigger] picks@[k].0 != id,
            None => forall|e: int| 0 <= e < picks@.len() ==> #[trigger] picks@[e].0 != id,
        },
{
    let mut e: usize = 0;
    while e < picks.len()
        invariant
            e <= picks@.len(),
            forall|k: int| 0 <= k < e ==> #[trigger] picks@[k].0 != id,
        decreases picks@.len() - e,
    {
        if picks[e].0 == id {
            return Some(e);
        }
        e = e + 1;
    }
    None
}

#[verifier::spinoff_prover]
proof fn lemma_pick_new(
    picks: Seq<(u32, usize, usize)>,
    ids: Seq<Vec<u32>>,
    areas: Seq<Vec<u32>>,
    i: usize,
    j: usize,
)
    requires
        picks_before(picks, ids, areas, i as int, j as int),
        valid_pos(ids, i as int, j as int),
        forall|e: int| 0 <= e < picks.len() ==> #[trigger] picks[e].0 != ids[i as int]@[j as int],
    ensures
        picks_before(picks.push((ids[i as int]@[j as int], i, j)), ids, areas, i as int, j + 1),
{
    let id = ids[i as int]@[j as int];
    let np = picks.push((id, i, j));
    assert forall|e: int| 0 <= e < np.len() implies is_pick_before(
        ids,
        areas,
        #[trigger] np[e].0,
        np[e].1 as int,
        np[e].2 as int,
        i as int,
        j + 1,
    ) by {
        if e < picks.len() {
            assert(np[e] == picks[e]);
            assert(is_pick_before(ids, areas, picks[e].0, picks[e].1 as int, picks[e].2 as int, i as int, j as int));
        } else {
            assert forall|i2: int, j2: int|
                #![trigger ids[i2]@[j2], areas[i2]@[j2]]
                valid_pos(ids, i2, j2) && pos_before(i2, j2, i as int, j + 1) && ids[i2]@[j2] == id implies {
                    &&& areas[i2]@[j2] <= areas[i as int]@[j as int]
                    &&& (pos_before(i2, j2, i as int, j as int) ==> areas[i2]@[j2] < areas[i as int]@[j as int])
                } by {
                if pos_before(i2, j2, i as int, j as int) {
                    let e2 = choose|e2: int| 0 <= e2 < picks.len() && #[trigger] picks[e2].0 == ids[i2]@[j2];
                    assert(picks[e2].0 != id);
                }
            }
        }
    }
    assert forall|i2: int, j2: int|
        #![trigger valid_pos(ids, i2, j2)]
        valid_pos(ids, i2, j2) && pos_before(i2, j2, i as int, j + 1) implies exists|e: int|
            0 <= e < np.len() && #[trigger] np[e].0 == ids[i2]@[j2] by {
        if i2 == i && j2 == j {
            assert(np[picks.len() as int].0 == ids[i2]@[j2]);
        } else {
            let e2 = choose|e2: int| 0 <= e2 < picks.len() && #[trigger] picks[e2].0 == ids[i2]@[j2];
            assert(np[e2] == picks[e2]);
        }
    }
    assert forall|e1: int, e2: int| 0 <= e1 < e2 < np.len() implies #[trigger] np[e1].0 != #[trigger] np[e2].0 by {
        if e2 == picks.len() {
            assert(np[e1] == picks[e1]);
        } else {
            assert(np[e1] == picks[e1] && np[e2] == picks[e2]);
        }
    }
}

/// The table after meeting face `(i, j)` of a track already in it at entry
/// `e`: the entry moves to `(i, j)` when that face is larger.
pub open spec fn pick_step(
    picks: Seq<(u32, usize, usize)>,
    ids: Seq<Vec<u32>>,
    areas: Seq<Vec<u32>>,
    i: usize,
    j: usize,
    e: int,
) -> Seq<(u32, usize, usize)> {
    if areas[i as int]@[j as int] > areas[picks[e].1 as int]@[picks[e].2 as int] {
        picks.update(e, (ids[i as int]@[j as int], i, j))
    } else {
        picks
    }
}

#[verifier::spinoff_prover]
proof fn lemma_pick_seen_entry(
    picks: Seq<(u32, usize, usize)>,
    ids: Seq<Vec<u32>>,
    areas: Seq<Vec<u32>>,
    i: usize,
    j: usize,
    e: int,
)
    requires
        picks_before(picks, ids, areas, i as int, j as int),
        valid_pos(ids, i as int, j as int),
        0 <= e < picks.len(),
        picks[e].0 == ids[i as int]@[j as int],
    ensures
        ({
            let np = pick_step(picks, ids, areas, i, j, e);
            is_pick_before(ids, areas, np[e].0, np[e].1 as int, np[e].2 as int, i as int, j + 1)
        }),
{
    let id = ids[i as int]@[j as int];
    let pi = picks[e].1 as int;
    let pj = picks[e].2 as int;
    let np = pick_step(picks, ids, areas, i, j, e);
    assert(is_pick_before(ids, areas, id, pi, pj, i as int, j as int));
    if areas[i as int]@[j as int] > areas[pi]@[pj] {
        assert(np[e] == (id, i, j));
        assert forall|i2: int, j2: int|
            #![trigger ids[i2]@[j2], areas[i2]@[j2]]
            valid_pos(ids, i2, j2) && pos_before(i2, j2, i as int, j + 1) && ids[i2]@[j2] == id implies {
                &&& areas[i2]@[j2] <= areas[i as int]@[j as int]
                &&& (pos_before(i2, j2, i as int, j as int) ==> areas[i2]@[j2] < areas[i as int]@[j as int])
            } by {
            if pos_before(i2, j2, i as int, j as int) {
                assert(areas[i2]@[j2] <= areas[pi]@[pj]);
            }
        }
    } else {
        assert(np == picks);
        assert forall|i2: int, j2: int|
            #![trigger ids[i2]@[j2], areas[i2]@[j2]]
            valid_pos(ids, i2, j2) && pos_before(i2, j2, i as int, j + 1) && ids[i2]@[j2] == id implies {
                &&& areas[i2]@[j2] <= areas[pi]@[pj]
                &&& (pos_before(i2, j2, pi, pj) ==> areas[i2]@[j2] < areas[pi]@[pj])
            } by {
            if i2 == i && j2 == j {
                assert(!pos_before(i2, j2, pi, pj));
            }
        }
    }
}

#[verifier::spinoff_prover]
proof fn lemma_pick_seen_others(
    picks: Seq<(u32, usize, usize)>,
    ids: Seq<Vec<u32>>,
    areas: Seq<Vec<u32>>,
    i: usize,
    j: usize,
    e: int,
    e1: int,
)
    requires
        picks_before(picks, ids, areas, i as int, j as int),
        valid_pos(ids, i as int, j as int),
        0 <= e < picks.len(),
        0 <= e1 < picks.len(),
        e1 != e,
        picks[e].0 == ids[i as int]@[j as int],
    ensures
        ({
            let np = pick_step(picks, ids, areas, i, j, e);
            is_pick_before(ids, areas, np[e1].0, np[e1].1 as int, np[e1].2 as int, i as int, j + 1)
        }),
{
    let np = pick_step(picks, ids, areas, i, j, e);
    assert(np[e1] == picks[e1]);
    assert(picks[e1].0 != picks[e].0);
    assert(is_pick_before(ids, areas, picks[e1].0, picks[e1].1 as int, picks[e1].2 as int, i as int, j as int));
}

#[verifier::spinoff_prover]
proof fn lemma_pick_seen(
    picks: Seq<(u32, usize, usize)>,
    ids: Seq<Vec<u32>>,
    areas: Seq<Vec<u32>>,
    i: usize,
    j: usize,
    e: int,
)
    requires
        picks_before(picks, ids, areas, i as int, j as int),
        valid_pos(ids, i as int, j as int),
        0 <= e < picks.len(),
        picks[e].0 == ids[i as int]@[j as int],
    ensures
        picks_before(pick_step(picks, ids, areas, i, j, e), ids, areas, i as int, j + 1),
{
    let np = pick_step(picks, ids, areas, i, j, e);
    assert(np.len() == picks.len());
    assert forall|e1: int| 0 <= e1 < np.len() implies is_pick_before(
        ids,
        areas,
        #[trigger] np[e1].0,
        np[e1].1 as int,
        np[e1].2 as int,
        i as int,
        j + 1,
    ) by {
        if e1 == e {
            lemma_pick_seen_entry(picks, ids, areas, i, j, e);
        } else {
            lemma_pick_seen_others(picks, ids, areas, i, j, e, e1);
        }
    }
    assert forall|i2: int, j2: int|
        #![trigger valid_pos(ids, i2, j2)]
        valid_pos(ids, i2, j2) && pos_before(i2, j2, i as int, j + 1) implies exists|e1: int|
            0 <= e1 < np.len() && #[trigger] np[e1].0 == ids[i2]@[j2] by {
        if i2 == i && j2 == j {
            assert(np[e].0 == ids[i2]@[j2]);
        } else {
            let e2 = choose|e2: int| 0 <= e2 < picks.len() && #[trigger] picks[e2].0 == ids[i2]@[j2];
            assert(np[e2].0 == picks[e2].0);
        }
    }
    assert forall|e1: int, e2: int| 0 <= e1 < e2 < np.len() implies #[trigger] np[e1].0 != #[trigger] np[e2].0 by {
        assert(np[e1].0 == picks[e1].0 && np[e2].0 == picks[e2].0);
    }
}

proof fn lemma_picks_row_end(picks: Seq<(u32, usize, usize)>, ids: Seq<Vec<u32>>, areas: Seq<Vec<u32>>, i: int)
    requires
        0 <= i < ids.len(),
        picks_before(picks, ids, areas, i, ids[i]@.len() as int),
    ensures
        picks_before(picks, ids, areas, i + 1, 0),
{
    assert forall|e: int| 0 <= e < picks.len() implies is_pick_before(
        ids,
        areas,
        #[trigger] picks[e].0,
        picks[e].1 as int,
        picks[e].2 as int,
        i + 1,
        0,
    ) by {
        assert(is_pick_before(ids, areas, picks[e].0, picks[e].1 as int, picks[e].2 as int, i, ids[i]@.len() as int));
    }
    assert forall|i2: int, j2: int|
        #![trigger valid_pos(ids, i2, j2)]
        valid_pos(ids, i2, j2) && pos_before(i2, j2, i + 1, 0) implies exists|e: int|
            0 <= e < picks.len() && #[trigger] picks[e].0 == ids[i2]@[j2] by {
        assert(pos_before(i2, j2, i, ids[i]@.len() as int));
    }
}

proof fn lemma_picks_done(picks: Seq<(u32, usize, usize)>, ids: Seq<Vec<u32>>, areas: Seq<Vec<u32>>)
    requires
        picks_before(picks, ids, areas, ids.len() as int, 0),
    ensures
        forall|i: int, j: int|
            #![trigger valid_pos(ids, i, j)]
            valid_pos(ids, i, j) ==> exists|e: int| 0 <= e < picks.len() && #[trigger] picks[e].0 == ids[i]@[j],
{
    assert forall|i2: int, j2: int|
        #![trigger valid_pos(ids, i2, j2)]
        valid_pos(ids, i2, j2) implies exists|e: int| 0 <= e < picks.len() && #[trigger] picks[e].0 == ids[i2]@[j2] by {
        assert(pos_before(i2, j2, ids.len() as int, 0));
    }
}

/// For every track, the position `(frame, face)` of its key face: the first
/// of its largest faces, frames taken in order. `ids[i][j]` is the track of
/// face `j` of frame `i` and `areas[i][j]` its area. One entry per track.
pub fn key_frame_picks(ids: &[Vec<u32>], areas: &[Vec<u32>]) -> (picks: Vec<(u32, usize, usize)>)
    requires
        same_shape(ids@, areas@),
    ensures
        forall|e1: int, e2: int|
            0 <= e1 < e2 < picks@.len() ==> #[trigger] picks@[e1].0 != #[trigger] picks@[e2].0,
        forall|e: int|
            0 <= e < picks@.len() ==> is_pick(
                ids@,
                areas@,
                #[trigger] picks@[e].0,
                picks@[e].1 as int,
                picks@[e].2 as int,
            ),
        forall|i: int, j: int|
            #![trigger valid_pos(ids@, i, j)]
            valid_pos(ids@, i, j) ==> exists|e: int|
                0 <= e < picks@.len() && #[trigger] picks@[e].0 == ids@[i]@[j],
{
    let mut picks: Vec<(u32, usize, usize)> = Vec::new();
    let mut i: usize = 0;
    while i < ids.len()
        invariant
            same_shape(ids@, areas@),
            i <= ids@.len(),
            picks_before(picks@, ids@, areas@, i as int, 0),
        decreases ids@.len() - i,
    {
        let row = &ids[i];
        let arow = &areas[i];
        let mut j: usize = 0;
        while j < row.len()
            invariant
                same_shape(ids@, areas@),
                i < ids@.len(),
                row@ == ids@[i as int]@,
                arow@ == areas@[i as int]@,
                j <= row@.len(),
                picks_before(picks@, ids@, areas@, i as int, j as int),
            decreases row@.len() - j,
        {
            let id = row[j];
            let a = arow[j];
            match find_pick(&picks, id) {
                None => {
                    proof {
                        lemma_pick_new(picks@, ids@, areas@, i, j);
                    }
                    picks.push((id, i, j));
                },
                Some(e) => {
                    proof {
                        lemma_pick_seen(picks@, ids@, areas@, i, j, e as int);
                        assert(is_pick_before(ids@, areas@, id, picks@[e as int].1 as int, picks@[e as int].2 as int, i as int, j as int));
                    }
                    let ghost before = picks@;
                    let pi = picks[e].1;
                    let pj = picks[e].2;
                    let pa = areas[pi][pj];
                    if a > pa {
                        picks.set(e, (id, i, j));
                    }
                    assert(picks@ == pick_step(before, ids@, areas@, i, j, e as int));
                },
            }
            j = j + 1;
        }
        proof {
            lemma_picks_row_end(picks@, ids@, areas@, i as int);
        }
        i = i + 1;
    }
    proof {
        lemma_picks_done(picks@, ids@, areas@);
    }
    picks
}

/// The entry of `id` in a table of picks: the first one, if any.
pub open spec fn pick_of(picks: Seq<(u32, usize, usize)>, id: u32) -> Option<(usize, usize)>
    decreases picks.len(),
{
    if picks.len() == 0 {
        None
    } else if picks[0].0 == id {
        Some((picks[0].1, picks[0].2))
    } else {
        pick_of(picks.drop_first(), id)
    }
}

proof fn lemma_pick_of_first(picks: Seq<(u32, usize, usize)>, id: u32, e: int)
    requires
        0 <= e < picks.len(),
        picks[e].0 == id,
        forall|k: int| 0 <= k < e ==> #[trigger] picks[k].0 != id,
    ensures
        pick_of(picks, id) == Some((picks[e].1, picks[e].2)),
    decreases e,
{
    if e > 0 {
        assert forall|k: int| 0 <= k < e - 1 implies #[trigger] picks.drop_first()[k].0 != id by {
            assert(picks.drop_first()[k] == picks[k + 1]);
        }
        lemma_pick_of_first(picks.drop_first(), id, e - 1);
    }
}

proof fn lemma_pick_of_none(picks: Seq<(u32, usize, usize)>, id: u32)
    requires
        forall|k: int| 0 <= k < picks.len() ==> #[trigger] picks[k].0 != id,
    ensures
        pick_of(picks, id) is None,
    decreases picks.len(),
{
    if picks.len() > 0 {
        assert forall|k: int| 0 <= k < picks.len() - 1 implies #[trigger] picks.drop_first()[k].0 != id by {
            assert(picks.drop_first()[k] == picks[k + 1]);
        }
        lemma_pick_of_none(picks.drop_first(), id);
    }
}

/// `p` is the first face of the frame that belongs to its track.
pub open spec fn first_of_track(face_ids: Seq<u32>, p: int) -> bool {
    &&& 0 <= p < face_ids.len()
    &&& forall|q: int| 0 <= q < p ==> #[trigger] face_ids[q] != face_ids[p]
}

/// Whether frame `det_idx`, whose faces belong to tracks `face_ids`, holds
/// the key face of one of them: some track's entry names this frame and the
/// first face of the frame in that track.
pub fn is_key_frame(picks: &Vec<(u32, usize, usize)>, det_idx: usize, face_ids: &Vec<u32>) -> (r: bool)
    ensures
        r == exists|p: int|
            first_of_track(face_ids@, p) && #[trigger] pick_of(picks@, face_ids@[p]) == Some(
                (det_idx, p as usize),
            ),
{
    let mut p: usize = 0;
    while p < face_ids.len()
        invariant
            p <= face_ids@.len(),
            forall|q: int|
                0 <= q < p ==> !(first_of_track(face_ids@, q) && #[trigger] pick_of(picks@, face_ids@[q])
                    == Some((det_idx, q as usize))),
        decreases face_ids@.len() - p,
    {
        let id = face_ids[p];
        let mut q: usize = 0;
        while q < p && face_ids[q] != id
            invariant
                q <= p < face_ids@.len(),
                id == face_ids@[p as int],
                forall|k: int| 0 <= k < q ==> #[trigger] face_ids@[k] != id,
            decreases p - q,
        {
            q = q + 1;
        }
        if q == p {
            let hit = match find_pick(picks, id) {
                Some(e) => {
                    proof {
                        lemma_pick_of_first(picks@, id, e as int);
                    }
                    picks[e].1 == det_idx && picks[e].2 == p
                },
                None => {
                    proof {
                        lemma_pick_of_none(picks@, id);
                    }
                    false
                },
            };
            if hit {
                return true;
            }
        }
        p = p + 1;
    }
    false
}

/// Every byte index of a `w x h` image with `ch` channels is the flat index
/// of one pixel channel.
proof fn lemma_flat_decompose(k: int, w: int, h: int, ch: int) -> (r: (int, int, int))
    requires
        0 <= k < w * h * ch,
        w > 0,
        ch > 0,
    ensures
        0 <= r.0 < w,
        0 <= r.1 < h,
        0 <= r.2 < ch,
        k == flat(r.0, r.1, r.2, w, ch),
{
    let p = k / ch;
    let c = k % ch;
    lemma_fundamental_div_mod(k, ch);
    let x = p % w;
    let y = p / w;
    lemma_fundamental_div_mod(p, w);
    assert(0 <= c < ch);
    assert(0 <= x < w);
    assert(0 <= p) by (nonlinear_arith)
        requires
            k == ch * p + c,
            0 <= k,
            0 <= c < ch,
    ;
    assert(p < w * h) by (nonlinear_arith)
        requires
            k == ch * p + c,
            k < w * h * ch,
            0 <= c,
            ch > 0,
    ;
    assert(0 <= y < h) by (nonlinear_arith)
        requires
            p == w * y + x,
            0 <= p < w * h,
            0 <= x < w,
    ;
    assert(k == (y * w + x) * ch + c) by (nonlinear_arith)
        requires
            k == ch * p + c,
            p == w * y + x,
    ;
    (x, y, c)
}

/// Mirroring twice gives the image back.
pub proof fn lemma_flip_involution(img: Image, once: Image, twice: Image)
    requires
        img.wf(),
        once.width == img.width,
        once.height == img.height,
        once.channels == img.channels,
        is_mirror(once.data@, img),
        is_mirror(twice.data@, once),
    ensures
        twice.data@ == img.data@,
{
    let w = img.width as int;
    let h = img.height as int;
    let ch = img.channels as int;
    assert forall|k: int| 0 <= k < img.data@.len() implies twice.data@[k] == img.data@[k] by {
        assert(w > 0 && ch > 0) by (nonlinear_arith)
            requires
                0 <= k < w * h * ch,
                0 <= w,
                0 <= h,
                0 <= ch,
        ;
        let (x, y, c) = lemma_flat_decompose(k, w, h, ch);
        assert(twice.data@[flat(x, y, c, w, ch)] == once.data@[flat(w - 1 - x, y, c, w, ch)]);
        assert(once.data@[flat(w - 1 - x, y, c, w, ch)] == img.data@[flat(w - 1 - (w - 1 - x), y, c, w, ch)]);
    }
    assert(twice.data@ =~= img.data@);
}

/// `picks` is what `key_frame_picks` gives for `ids` and `areas`.
pub open spec fn key_picks_of(ids: Seq<Vec<u32>>, areas: Seq<Vec<u32>>, picks: Seq<(u32, usize, usize)>) -> bool {
    &&& forall|e1: int, e2: int| 0 <= e1 < e2 < picks.len() ==> #[trigger] picks[e1].0 != #[trigger] picks[e2].0
    &&& forall|e: int|
        0 <= e < picks.len() ==> is_pick(ids, areas, #[trigger] picks[e].0, picks[e].1 as int, picks[e].2 as int)
}

/// Key frames cover the tracks: the frame holding a track's key face is a
/// key frame whenever that face is the track's first face in the frame.
pub proof fn lemma_key_frame_of_track(
    ids: Seq<Vec<u32>>,
    areas: Seq<Vec<u32>>,
    picks: Seq<(u32, usize, usize)>,
    e: int,
)
    requires
        key_picks_of(ids, areas, picks),
        0 <= e < picks.len(),
        first_of_track(ids[picks[e].1 as int]@, picks[e].2 as int),
    ensures
        exists|p: int|
            first_of_track(ids[picks[e].1 as int]@, p) && #[trigger] pick_of(picks, ids[picks[e].1 as int]@[p])
                == Some((picks[e].1, p as usize)),
{
    let i = picks[e].1 as int;
    let j = picks[e].2 as int;
    assert(is_pick(ids, areas, picks[e].0, i, j));
    assert(ids[i]@[j] == picks[e].0);
    assert forall|k: int| 0 <= k < e implies #[trigger] picks[k].0 != picks[e].0 by {}
    lemma_pick_of_first(picks, picks[e].0, e);
    assert(pick_of(picks, ids[i]@[j]) == Some((picks[e].1, j as usize)));
}

} // verus!
