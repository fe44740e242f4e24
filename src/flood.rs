//! Four-connected flood fill with a fill colour and a boundary colour,
//! driven by an explicit stack and a visited bitmap so that each pixel is
//! processed at most once.
use vstd::prelude::*;
use vstd::set_lib::{lemma_int_range, lemma_len_subset, set_int_range};

use crate::canvas::{
    RGBABufferBase,
    in_bounds,
    lemma_grid_size,
    lemma_pixel_index,
    lemma_put_pixel,
    pixel_at,
    plot,
    put_pixel,
};
use crate::color::{Rgba, blend, same_color};

verus! {

/// Whether `p` lies on the grid and its colour in `s` is neither the fill
/// nor the boundary colour, both of which stop a fill.
pub open spec fn is_open(
    s: Seq<u8>,
    w: int,
    h: int,
    p: (int, int),
    fill: Rgba,
    boundary: Rgba,
) -> bool {
    &&& in_bounds(w, h, p.0, p.1)
    &&& pixel_at(s, p.1 * w + p.0) != fill
    &&& pixel_at(s, p.1 * w + p.0) != boundary
}

/// Whether `p` and `q` are horizontal or vertical neighbours.
pub open spec fn adjacent(p: (int, int), q: (int, int)) -> bool {
    ||| p.0 == q.0 && (p.1 - q.1 == 1 || q.1 - p.1 == 1)
    ||| p.1 == q.1 && (p.0 - q.0 == 1 || q.0 - p.0 == 1)
}

/// A non-empty walk through open pixels from neighbour to neighbour.
pub open spec fn is_open_path(
    s: Seq<u8>,
    w: int,
    h: int,
    path: Seq<(int, int)>,
    fill: Rgba,
    boundary: Rgba,
) -> bool {
    &&& path.len() > 0
    &&& forall|k: int| 0 <= k < path.len() ==> is_open(s, w, h, #[trigger] path[k], fill, boundary)
    &&& forall|k: int| 0 <= k < path.len() - 1 ==> #[trigger] adjacent(path[k], path[k + 1])
}

/// The pixels a fill from `seed` reaches: those joined to the seed by a walk
/// through open pixels. Empty when the seed itself is not open.
pub open spec fn fill_region(
    s: Seq<u8>,
    w: int,
    h: int,
    seed: (int, int),
    fill: Rgba,
    boundary: Rgba,
) -> Set<(int, int)> {
    Set::new(
        |p: (int, int)|
            exists|path: Seq<(int, int)>|
                #[trigger] is_open_path(s, w, h, path, fill, boundary) && path[0] == seed
                    && path.last() == p,
    )
}

/// Whether `q` is an entry of the work stack.
pub open spec fn on_stack(st: Seq<(i32, i32)>, q: (int, int)) -> bool {
    exists|i: int| 0 <= i < st.len() && (#[trigger] st[i]).0 as int == q.0 && st[i].1 as int == q.1
}

/// A set that holds the start of an open walk and is closed under stepping
/// to open neighbours holds the walk's end.
proof fn lemma_closed_set_holds_path(
    s: Seq<u8>,
    w: int,
    h: int,
    path: Seq<(int, int)>,
    fill: Rgba,
    boundary: Rgba,
    v: Set<(int, int)>,
)
    requires
        is_open_path(s, w, h, path, fill, boundary),
        v.contains(path[0]),
        forall|p: (int, int), q: (int, int)|
            #![trigger v.contains(p), adjacent(p, q)]
            v.contains(p) && adjacent(p, q) && is_open(s, w, h, q, fill, boundary) ==> v.contains(q),
    ensures
        v.contains(path.last()),
    decreases path.len(),
{
    if path.len() > 1 {
        let prefix = path.drop_last();
        assert forall|k: int| 0 <= k < prefix.len() - 1 implies #[trigger] adjacent(
            prefix[k],
            prefix[k + 1],
        ) by {
            assert(adjacent(path[k], path[k + 1]));
        }
        assert forall|k: int| 0 <= k < prefix.len() implies is_open(
            s,
            w,
            h,
            #[trigger] prefix[k],
            fill,
            boundary,
        ) by {
            assert(is_open(s, w, h, path[k], fill, boundary));
        }
        lemma_closed_set_holds_path(s, w, h, prefix, fill, boundary, v);
        let k = path.len() - 2;
        assert(adjacent(path[k], path[k + 1]));
        assert(is_open(s, w, h, path[k + 1], fill, boundary));
    }
}

/// The state of a fill in progress: `v` (as points) and `vi` (as linear
/// indices) are the pixels processed so far, which `visited` marks; each was
/// open in `orig` and is joined to the seed by the walk in `paths`; the
/// current bytes `cur` hold `fill` composited onto exactly those pixels; an
/// open neighbour of a processed pixel is processed or waits on the stack
/// `st`; each stack entry is the seed or a neighbour of a processed pixel;
/// and an open seed is processed or waits on the stack.
#[verifier::opaque]
spec fn fill_inv(
    orig: Seq<u8>,
    w: int,
    h: int,
    seed: (int, int),
    fill: Rgba,
    boundary: Rgba,
    st: Seq<(i32, i32)>,
    v: Set<(int, int)>,
    vi: Set<int>,
    paths: Map<(int, int), Seq<(int, int)>>,
    cur: Seq<u8>,
    visited: Seq<bool>,
    count: int,
) -> bool {
    &&& w > 0
    &&& h > 0
    &&& in_bounds(w, h, seed.0, seed.1)
    &&& visited.len() == w * h
    &&& vi.finite()
    &&& v.finite()
    &&& vi.len() == count
    &&& v.len() == count
    &&& vi.subset_of(set_int_range(0, w * h))
    &&& forall|j: int| 0 <= j < w * h ==> (visited[j] <==> #[trigger] vi.contains(j))
    &&& forall|p: (int, int)| #[trigger]
        v.contains(p) ==> in_bounds(w, h, p.0, p.1) && vi.contains(p.1 * w + p.0)
    &&& forall|j: int| #[trigger] vi.contains(j) ==> v.contains((j % w, j / w))
    &&& forall|p: (int, int)| #[trigger]
        v.contains(p) ==> paths.contains_key(p) && is_open_path(orig, w, h, paths[p], fill, boundary)
            && paths[p][0] == seed && paths[p].last() == p
    &&& forall|j: int|
        0 <= j < w * h ==> #[trigger] pixel_at(cur, j) == (if vi.contains(j) {
            blend(fill, pixel_at(orig, j))
        } else {
            pixel_at(orig, j)
        })
    &&& forall|p: (int, int), q: (int, int)|
        #![trigger v.contains(p), adjacent(p, q)]
        v.contains(p) && adjacent(p, q) && is_open(orig, w, h, q, fill, boundary) ==> v.contains(q)
            || on_stack(st, q)
    &&& forall|i: int|
        0 <= i < st.len() ==> ((#[trigger] st[i]).0 as int, st[i].1 as int) == seed || exists|
            q: (int, int),
        | v.contains(q) && #[trigger] adjacent(q, (st[i].0 as int, st[i].1 as int))
    &&& is_open(orig, w, h, seed, fill, boundary) ==> v.contains(seed) || on_stack(st, seed)
}

/// Removing the top of the stack keeps every other entry on it.
proof fn lemma_pop_keeps(st0: Seq<(i32, i32)>, q: (int, int))
    requires
        st0.len() > 0,
        on_stack(st0, q),
        (st0.last().0 as int, st0.last().1 as int) != q,
    ensures
        on_stack(st0.drop_last(), q),
{
    let i = choose|i: int|
        0 <= i < st0.len() && (#[trigger] st0[i]).0 as int == q.0 && st0[i].1 as int == q.1;
    assert(i < st0.len() - 1);
    assert(st0.drop_last()[i] == st0[i]);
}

/// The state before the first pop: nothing processed, the seed on the stack.
proof fn lemma_start(
    orig: Seq<u8>,
    w: int,
    h: int,
    seed: (int, int),
    fill: Rgba,
    boundary: Rgba,
    st: Seq<(i32, i32)>,
    visited: Seq<bool>,
)
    requires
        w > 0,
        h > 0,
        in_bounds(w, h, seed.0, seed.1),
        visited.len() == w * h,
        forall|j: int| 0 <= j < w * h ==> !(#[trigger] visited[j]),
        st.len() == 1,
        (st[0].0 as int, st[0].1 as int) == seed,
    ensures
        fill_inv(
            orig,
            w,
            h,
            seed,
            fill,
            boundary,
            st,
            Set::empty(),
            Set::empty(),
            Map::empty(),
            orig,
            visited,
            0,
        ),
{
    reveal(fill_inv);
    assert(on_stack(st, seed)) by {
        assert(st[0].0 as int == seed.0 && st[0].1 as int == seed.1);
    }
    assert(Set::<int>::empty().subset_of(set_int_range(0, w * h)));
}

/// No more pixels are processed than the grid holds.
proof fn lemma_count_bound(
    orig: Seq<u8>,
    w: int,
    h: int,
    seed: (int, int),
    fill: Rgba,
    boundary: Rgba,
    st: Seq<(i32, i32)>,
    v: Set<(int, int)>,
    vi: Set<int>,
    paths: Map<(int, int), Seq<(int, int)>>,
    cur: Seq<u8>,
    visited: Seq<bool>,
    count: int,
)
    requires
        fill_inv(orig, w, h, seed, fill, boundary, st, v, vi, paths, cur, visited, count),
    ensures
        0 <= count <= w * h,
{
    reveal(fill_inv);
    lemma_grid_size(w, h);
    lemma_int_range(0, w * h);
    lemma_len_subset(vi, set_int_range(0, w * h));
}

/// What the stored state says of an unprocessed pixel `p`, or a processed one.
proof fn lemma_lookup(
    orig: Seq<u8>,
    w: int,
    h: int,
    seed: (int, int),
    fill: Rgba,
    boundary: Rgba,
    st: Seq<(i32, i32)>,
    v: Set<(int, int)>,
    vi: Set<int>,
    paths: Map<(int, int), Seq<(int, int)>>,
    cur: Seq<u8>,
    visited: Seq<bool>,
    count: int,
    p: (int, int),
)
    requires
        fill_inv(orig, w, h, seed, fill, boundary, st, v, vi, paths, cur, visited, count),
        in_bounds(w, h, p.0, p.1),
    ensures
        0 <= p.1 * w + p.0 < w * h,
        visited[p.1 * w + p.0] <==> v.contains(p),
        !v.contains(p) ==> pixel_at(cur, p.1 * w + p.0) == pixel_at(orig, p.1 * w + p.0),
{
    reveal(fill_inv);
    lemma_pixel_index(w, h, p.0, p.1);
    let j = p.1 * w + p.0;
    if vi.contains(j) {
        assert(v.contains((j % w, j / w)));
    }
    if v.contains(p) {
        assert(vi.contains(j));
    }
}

/// Dropping a popped entry that needs no work keeps the state sound.
proof fn lemma_skip(
    orig: Seq<u8>,
    w: int,
    h: int,
    seed: (int, int),
    fill: Rgba,
    boundary: Rgba,
    st0: Seq<(i32, i32)>,
    v: Set<(int, int)>,
    vi: Set<int>,
    paths: Map<(int, int), Seq<(int, int)>>,
    cur: Seq<u8>,
    visited: Seq<bool>,
    count: int,
)
    requires
        fill_inv(orig, w, h, seed, fill, boundary, st0, v, vi, paths, cur, visited, count),
        st0.len() > 0,
        v.contains((st0.last().0 as int, st0.last().1 as int)) || !is_open(
            orig,
            w,
            h,
            (st0.last().0 as int, st0.last().1 as int),
            fill,
            boundary,
        ),
    ensures
        fill_inv(
            orig,
            w,
            h,
            seed,
            fill,
            boundary,
            st0.drop_last(),
            v,
            vi,
            paths,
            cur,
            visited,
            count,
        ),
{
    reveal(fill_inv);
    let st = st0.drop_last();
    let top = (st0.last().0 as int, st0.last().1 as int);
    assert forall|p: (int, int), q: (int, int)|
        #![trigger v.contains(p), adjacent(p, q)]
        v.contains(p) && adjacent(p, q) && is_open(orig, w, h, q, fill, boundary) implies v.contains(q)
            || on_stack(st, q) by {
        if !v.contains(q) {
            assert(on_stack(st0, q));
            lemma_pop_keeps(st0, q);
        }
    }
    assert forall|i: int| 0 <= i < st.len() implies ((#[trigger] st[i]).0 as int, st[i].1 as int)
        == seed || exists|q: (int, int)|
        v.contains(q) && #[trigger] adjacent(q, (st[i].0 as int, st[i].1 as int)) by {
        assert(st[i] == st0[i]);
    }
    if is_open(orig, w, h, seed, fill, boundary) && !v.contains(seed) {
        lemma_pop_keeps(st0, seed);
    }
}

/// Processing the popped, open, unprocessed pixel `p` and pushing its four
/// neighbours keeps the state sound; the walk to `p` is recorded.
#[verifier::rlimit(100)]
proof fn lemma_visit(
    orig: Seq<u8>,
    w: int,
    h: int,
    seed: (int, int),
    fill: Rgba,
    boundary: Rgba,
    st0: Seq<(i32, i32)>,
    st1: Seq<(i32, i32)>,
    v: Set<(int, int)>,
    vi: Set<int>,
    paths: Map<(int, int), Seq<(int, int)>>,
    cur: Seq<u8>,
    cur1: Seq<u8>,
    visited: Seq<bool>,
    count: int,
) -> (paths1: Map<(int, int), Seq<(int, int)>>)
    requires
        fill_inv(orig, w, h, seed, fill, boundary, st0, v, vi, paths, cur, visited, count),
        st0.len() > 0,
        is_open(orig, w, h, (st0.last().0 as int, st0.last().1 as int), fill, boundary),
        !v.contains((st0.last().0 as int, st0.last().1 as int)),
        cur.len() == w * h * 4,
        cur1 == plot(cur, w, h, st0.last().0 as int, st0.last().1 as int, fill),
        st1.len() == st0.len() + 3,
        forall|i: int| 0 <= i < st0.len() - 1 ==> #[trigger] st1[i] == st0[i],
        (st1[st0.len() - 1].0 as int, st1[st0.len() - 1].1 as int) == (
            st0.last().0 as int + 1,
            st0.last().1 as int,
        ),
        (st1[st0.len() as int].0 as int, st1[st0.len() as int].1 as int) == (
            st0.last().0 as int - 1,
            st0.last().1 as int,
        ),
        (st1[st0.len() as int + 1].0 as int, st1[st0.len() as int + 1].1 as int) == (
            st0.last().0 as int,
            st0.last().1 as int + 1,
        ),
        (st1[st0.len() as int + 2].0 as int, st1[st0.len() as int + 2].1 as int) == (
            st0.last().0 as int,
            st0.last().1 as int - 1,
        ),
    ensures
        fill_inv(
            orig,
            w,
            h,
            seed,
            fill,
            boundary,
            st1,
            v.insert((st0.last().0 as int, st0.last().1 as int)),
            vi.insert(st0.last().1 as int * w + st0.last().0 as int),
            paths1,
            cur1,
            visited.update(st0.last().1 as int * w + st0.last().0 as int, true),
            count + 1,
        ),
{
    reveal(fill_inv);
    let p = (st0.last().0 as int, st0.last().1 as int);
    let j = p.1 * w + p.0;
    lemma_pixel_index(w, h, p.0, p.1);
    assert(!vi.contains(j)) by {
        if vi.contains(j) {
            assert(v.contains((j % w, j / w)));
        }
    }
    let path = if p == seed {
        seq![seed]
    } else {
        let i = st0.len() - 1;
        assert(((st0[i]).0 as int, st0[i].1 as int) == p);
        let q = choose|q: (int, int)| v.contains(q) && #[trigger] adjacent(q, p);
        paths[q].push(p)
    };
    assert(is_open_path(orig, w, h, path, fill, boundary)) by {
        if p != seed {
            let i = st0.len() - 1;
            assert(((st0[i]).0 as int, st0[i].1 as int) == p);
            let q = choose|q: (int, int)| v.contains(q) && #[trigger] adjacent(q, p);
            let prev = paths[q];
            assert forall|k: int| 0 <= k < path.len() implies is_open(
                orig,
                w,
                h,
                #[trigger] path[k],
                fill,
                boundary,
            ) by {
                if k < prev.len() {
                    assert(is_open(orig, w, h, prev[k], fill, boundary));
                }
            }
            assert forall|k: int| 0 <= k < path.len() - 1 implies #[trigger] adjacent(
                path[k],
                path[k + 1],
            ) by {
                if k < prev.len() - 1 {
                    assert(adjacent(prev[k], prev[k + 1]));
                }
            }
        }
    }
    let paths1 = paths.insert(p, path);
    let v1 = v.insert(p);
    let vi1 = vi.insert(j);
    let visited1 = visited.update(j, true);
    assert(cur1 == put_pixel(cur, j, blend(fill, pixel_at(cur, j))));
    assert(pixel_at(cur, j) == pixel_at(orig, j));
    lemma_put_pixel(cur, j, blend(fill, pixel_at(cur, j)));
    assert forall|jj: int| 0 <= jj < w * h implies #[trigger] pixel_at(cur1, jj) == (if vi1.contains(
        jj,
    ) {
        blend(fill, pixel_at(orig, jj))
    } else {
        pixel_at(orig, jj)
    }) by {
        if jj != j {
            assert(pixel_at(cur1, jj) == pixel_at(cur, jj));
            assert(vi1.contains(jj) == vi.contains(jj));
        }
    }
    assert forall|jj: int| #[trigger] vi1.contains(jj) implies v1.contains((jj % w, jj / w)) by {
        if jj == j {
            assert((j % w, j / w) == p);
        }
    }
    assert forall|jj: int| 0 <= jj < w * h implies (visited1[jj] <==> #[trigger] vi1.contains(jj)) by {}
    assert(vi1.subset_of(set_int_range(0, w * h)));
    let b = st0.len() - 1;
    assert forall|q: (int, int)| adjacent(p, q) implies on_stack(st1, q) by {
        if q == (p.0 + 1, p.1) {
            assert(st1[b].0 as int == q.0 && st1[b].1 as int == q.1);
        } else if q == (p.0 - 1, p.1) {
            assert(st1[b + 1].0 as int == q.0 && st1[b + 1].1 as int == q.1);
        } else if q == (p.0, p.1 + 1) {
            assert(st1[b + 2].0 as int == q.0 && st1[b + 2].1 as int == q.1);
        } else {
            assert(st1[b + 3].0 as int == q.0 && st1[b + 3].1 as int == q.1);
        }
    }
    assert forall|q: (int, int)| on_stack(st0, q) && q != p implies on_stack(st1, q) by {
        lemma_pop_keeps(st0, q);
        let i = choose|i: int|
            0 <= i < st0.len() - 1 && (#[trigger] st0.drop_last()[i]).0 as int == q.0
                && st0.drop_last()[i].1 as int == q.1;
        assert(st1[i] == st0[i]);
    }
    assert forall|pp: (int, int), q: (int, int)|
        #![trigger v1.contains(pp), adjacent(pp, q)]
        v1.contains(pp) && adjacent(pp, q) && is_open(orig, w, h, q, fill, boundary) implies v1.contains(
        q,
    ) || on_stack(st1, q) by {
        if pp != p && !v1.contains(q) {
            assert(v.contains(pp) && adjacent(pp, q));
            assert(on_stack(st0, q));
        }
    }
    assert forall|i: int| 0 <= i < st1.len() implies ((#[trigger] st1[i]).0 as int, st1[i].1 as int)
        == seed || exists|q: (int, int)|
        v1.contains(q) && #[trigger] adjacent(q, (st1[i].0 as int, st1[i].1 as int)) by {
        if i >= b {
            assert(adjacent(p, (st1[i].0 as int, st1[i].1 as int)));
            assert(v1.contains(p));
        } else {
            assert(st1[i] == st0[i]);
            if ((st1[i]).0 as int, st1[i].1 as int) != seed {
                let q = choose|q: (int, int)|
                    v.contains(q) && #[trigger] adjacent(q, (st0[i].0 as int, st0[i].1 as int));
                assert(v1.contains(q));
            }
        }
    }
    if is_open(orig, w, h, seed, fill, boundary) && !v1.contains(seed) {
        assert(on_stack(st0, seed));
    }
    paths1
}

/// With the stack empty, the processed pixels are exactly the fill region.
proof fn lemma_finish(
    orig: Seq<u8>,
    w: int,
    h: int,
    seed: (int, int),
    fill: Rgba,
    boundary: Rgba,
    st: Seq<(i32, i32)>,
    v: Set<(int, int)>,
    vi: Set<int>,
    paths: Map<(int, int), Seq<(int, int)>>,
    cur: Seq<u8>,
    visited: Seq<bool>,
    count: int,
)
    requires
        fill_inv(orig, w, h, seed, fill, boundary, st, v, vi, paths, cur, visited, count),
        st.len() == 0,
    ensures
        fill_region(orig, w, h, seed, fill, boundary) == v,
        v.finite(),
        v.len() == count,
        forall|px: int, py: int|
            in_bounds(w, h, px, py) ==> #[trigger] pixel_at(cur, py * w + px) == (if v.contains(
                (px, py),
            ) {
                blend(fill, pixel_at(orig, py * w + px))
            } else {
                pixel_at(orig, py * w + px)
            }),
{
    reveal(fill_inv);
    let region = fill_region(orig, w, h, seed, fill, boundary);
    assert forall|p: (int, int), q: (int, int)|
        #![trigger v.contains(p), adjacent(p, q)]
        v.contains(p) && adjacent(p, q) && is_open(orig, w, h, q, fill, boundary) implies v.contains(
        q,
    ) by {
        assert(!on_stack(st, q));
    }
    assert forall|p: (int, int)| region.contains(p) implies v.contains(p) by {
        let path = choose|path: Seq<(int, int)>|
            #[trigger] is_open_path(orig, w, h, path, fill, boundary) && path[0] == seed
                && path.last() == p;
        assert(is_open(orig, w, h, path[0], fill, boundary));
        assert(!on_stack(st, seed));
        lemma_closed_set_holds_path(orig, w, h, path, fill, boundary, v);
    }
    assert forall|p: (int, int)| v.contains(p) implies region.contains(p) by {
        assert(is_open_path(orig, w, h, paths[p], fill, boundary));
    }
    assert(region =~= v);
    assert forall|px: int, py: int| in_bounds(w, h, px, py) implies #[trigger] pixel_at(
        cur,
        py * w + px,
    ) == (if v.contains((px, py)) {
        blend(fill, pixel_at(orig, py * w + px))
    } else {
        pixel_at(orig, py * w + px)
    }) by {
        lemma_pixel_index(w, h, px, py);
        let j = py * w + px;
        if vi.contains(j) {
            assert(v.contains((j % w, j / w)));
        }
        if v.contains((px, py)) {
            assert(vi.contains(j));
        }
    }
}

/// Flood-fills `buf` from `(x, y)`: every pixel of the region the seed
/// reaches through pixels that are neither `fill` nor `boundary` is
/// composited with `fill` once, and the number of such pixels is returned.
/// A seed that already has the boundary colour, or lies off the grid, changes
/// nothing. `stack` and `visited` are scratch storage, cleared on entry.
pub fn flood_fill(
    buf: &mut RGBABufferBase,
    stack: &mut Vec<(i32, i32)>,
    visited: &mut Vec<bool>,
    x: i32,
    y: i32,
    fill: Rgba,
    boundary: Rgba,
) -> (count: usize)
    requires
        old(buf).wf(),
    ensures
        final(buf).wf(),
        final(buf).same_settings(old(buf)),
        fill_region(
            old(buf).bytes(),
            old(buf).width as int,
            old(buf).height as int,
            (x as int, y as int),
            fill,
            boundary,
        ).finite(),
        count == fill_region(
            old(buf).bytes(),
            old(buf).width as int,
            old(buf).height as int,
            (x as int, y as int),
            fill,
            boundary,
        ).len(),
        forall|px: int, py: int|
            in_bounds(old(buf).width as int, old(buf).height as int, px, py)
                ==> #[trigger] final(buf).pixel(px, py) == (if fill_region(
                old(buf).bytes(),
                old(buf).width as int,
                old(buf).height as int,
                (x as int, y as int),
                fill,
                boundary,
            ).contains((px, py)) {
                blend(fill, old(buf).pixel(px, py))
            } else {
                old(buf).pixel(px, py)
            }),
{
    let ghost orig = buf.bytes();
    let ghost gw = buf.width as int;
    let ghost gh = buf.height as int;
    let ghost seed = (x as int, y as int);
    let ghost region = fill_region(orig, gw, gh, seed, fill, boundary);
    let w = buf.width;
    let h = buf.height;
    if x < 0 || y < 0 || x >= w as i32 || y >= h as i32 || same_color(buf.get_point(x, y), boundary) {
        proof {
            assert(region =~= Set::<(int, int)>::empty()) by {
                assert forall|p: (int, int)| !region.contains(p) by {
                    if region.contains(p) {
                        let path = choose|path: Seq<(int, int)>|
                            #[trigger] is_open_path(orig, gw, gh, path, fill, boundary)
                                && path[0] == seed && path.last() == p;
                        assert(is_open(orig, gw, gh, path[0], fill, boundary));
                    }
                }
            }
        }
        return 0;
    }
    proof {
        lemma_grid_size(gw, gh);
        lemma_pixel_index(gw, gh, seed.0, seed.1);
    }
    let n = w * h;
    stack.clear();
    visited.clear();
    let mut k: usize = 0;
    while k < n
        invariant
            visited@.len() == k,
            k <= n,
            forall|j: int| 0 <= j < k ==> !(#[trigger] visited@[j]),
        decreases n - k,
    {
        visited.push(false);
        k = k + 1;
    }
    stack.push((x, y));
    let mut count: usize = 0;
    let ghost mut v: Set<(int, int)> = Set::empty();
    let ghost mut vi: Set<int> = Set::empty();
    let ghost mut paths: Map<(int, int), Seq<(int, int)>> = Map::empty();
    proof {
        lemma_start(orig, gw, gh, seed, fill, boundary, stack@, visited@);
    }
    while stack.len() > 0
        invariant
            buf.wf(),
            buf.same_settings(old(buf)),
            orig == old(buf).bytes(),
            w == buf.width,
            h == buf.height,
            gw == w,
            gh == h,
            n == w * h,
            seed == (x as int, y as int),
            visited@.len() == n,
            fill_inv(orig, gw, gh, seed, fill, boundary, stack@, v, vi, paths, buf.bytes(), visited@, count as int),
        decreases (n - count) * 5 + stack.len(),
    {
        proof {
            lemma_count_bound(orig, gw, gh, seed, fill, boundary, stack@, v, vi, paths, buf.bytes(), visited@, count as int);
        }
        let ghost st0 = stack@;
        let (cx, cy) = match stack.pop() {
            Some(top) => top,
            None => (x, y),
        };
        let ghost p: (int, int) = (cx as int, cy as int);
        if cx < 0 || cy < 0 || cx >= w as i32 || cy >= h as i32 {
            proof {
                lemma_skip(orig, gw, gh, seed, fill, boundary, st0, v, vi, paths, buf.bytes(), visited@, count as int);
            }
            continue;
        }
        proof {
            lemma_lookup(orig, gw, gh, seed, fill, boundary, st0, v, vi, paths, buf.bytes(), visited@, count as int, p);
        }
        let idx = cy as usize * w + cx as usize;
        if visited[idx] {
            proof {
                lemma_skip(orig, gw, gh, seed, fill, boundary, st0, v, vi, paths, buf.bytes(), visited@, count as int);
            }
            continue;
        }
        let cur = buf.get_point(cx, cy);
        if same_color(cur, boundary) || same_color(cur, fill) {
            proof {
                lemma_skip(orig, gw, gh, seed, fill, boundary, st0, v, vi, paths, buf.bytes(), visited@, count as int);
            }
            continue;
        }
        let ghost cur0 = buf.bytes();
        let ghost visited0 = visited@;
        buf.unsafe_point(cx, cy, fill.0, fill.1, fill.2, fill.3);
        visited.set(idx, true);
        count = count + 1;
        stack.push((cx + 1, cy));
        stack.push((cx - 1, cy));
        stack.push((cx, cy + 1));
        stack.push((cx, cy - 1));
        proof {
            paths = lemma_visit(orig, gw, gh, seed, fill, boundary, st0, stack@, v, vi, paths, cur0, buf.bytes(), visited0, count - 1);
            v = v.insert(p);
            vi = vi.insert(idx as int);
            lemma_count_bound(orig, gw, gh, seed, fill, boundary, stack@, v, vi, paths, buf.bytes(), visited@, count as int);
        }
    }
    proof {
        lemma_finish(orig, gw, gh, seed, fill, boundary, stack@, v, vi, paths, buf.bytes(), visited@, count as int);
    }
    count
}

/// Filling again from the same seed with the same opaque fill colour
/// changes nothing: every pixel the first fill reached now has the fill
/// colour, so the seed is no longer open and the second region is empty.
pub proof fn lemma_refill_reaches_nothing(
    before: RGBABufferBase,
    after: RGBABufferBase,
    x: int,
    y: int,
    fill: Rgba,
    boundary: Rgba,
)
    requires
        before.wf(),
        after.wf(),
        after.same_settings(&before),
        fill.3 == 255,
        forall|px: int, py: int|
            in_bounds(before.width as int, before.height as int, px, py)
                ==> #[trigger] after.pixel(px, py) == (if fill_region(
                before.bytes(),
                before.width as int,
                before.height as int,
                (x, y),
                fill,
                boundary,
            ).contains((px, py)) {
                blend(fill, before.pixel(px, py))
            } else {
                before.pixel(px, py)
            }),
    ensures
        fill_region(
            after.bytes(),
            after.width as int,
            after.height as int,
            (x, y),
            fill,
            boundary,
        ) == Set::<(int, int)>::empty(),
{
    let w = before.width as int;
    let h = before.height as int;
    let first = fill_region(before.bytes(), w, h, (x, y), fill, boundary);
    let second = fill_region(after.bytes(), w, h, (x, y), fill, boundary);
    assert forall|p: (int, int)| !second.contains(p) by {
        if second.contains(p) {
            let path = choose|path: Seq<(int, int)>|
                #[trigger] is_open_path(after.bytes(), w, h, path, fill, boundary) && path[0] == (
                x,
                y,
            ) && path.last() == p;
            assert(is_open(after.bytes(), w, h, path[0], fill, boundary));
            assert(after.pixel(x, y) == pixel_at(after.bytes(), y * w + x));
            if first.contains((x, y)) {
                crate::color::lemma_opaque_over(fill, before.pixel(x, y));
            } else {
                assert(before.pixel(x, y) == pixel_at(before.bytes(), y * w + x));
                let one = seq![(x, y)];
                assert(!is_open_path(before.bytes(), w, h, one, fill, boundary));
                assert(forall|k: int| 0 <= k < one.len() ==> #[trigger] one[k] == (x, y));
            }
        }
    }
    assert(second =~= Set::<(int, int)>::empty());
}

impl RGBABufferBase {
    /// Flood-fills from `(x, y)` with `(r, g, b, a)`, stopping at pixels of
    /// the boundary colour `(sr, sg, sb, sa)` or of the fill colour itself,
    /// and returns the number of pixels filled. See `flood_fill`.
    pub fn paint(
        &mut self,
        x: i32,
        y: i32,
        r: u8,
        g: u8,
        b: u8,
        a: u8,
        sr: u8,
        sg: u8,
        sb: u8,
        sa: u8,
    ) -> (count: usize)
        requires
            old(self).wf(),
        ensures
            final(self).wf(),
            final(self).same_settings(old(self)),
            fill_region(
                old(self).bytes(),
                old(self).width as int,
                old(self).height as int,
                (x as int, y as int),
                (r, g, b, a),
                (sr, sg, sb, sa),
            ).finite(),
            count == fill_region(
                old(self).bytes(),
                old(self).width as int,
                old(self).height as int,
                (x as int, y as int),
                (r, g, b, a),
                (sr, sg, sb, sa),
            ).len(),
            forall|px: int, py: int|
                in_bounds(old(self).width as int, old(self).height as int, px, py)
                    ==> #[trigger] final(self).pixel(px, py) == (if fill_region(
                    old(self).bytes(),
                    old(self).width as int,
                    old(self).height as int,
                    (x as int, y as int),
                    (r, g, b, a),
                    (sr, sg, sb, sa),
                ).contains((px, py)) {
                    blend((r, g, b, a), old(self).pixel(px, py))
                } else {
                    old(self).pixel(px, py)
                }),
    {
        let mut stack: Vec<(i32, i32)> = Vec::new();
        let mut visited: Vec<bool> = Vec::new();
        flood_fill(self, &mut stack, &mut visited, x, y, (r, g, b, a), (sr, sg, sb, sa))
    }
}

} // verus!
