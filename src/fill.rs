use vstd::prelude::*;
use crate::grid::lemma_cell_of_index;
use crate::rgba::Rgba;

verus! {

/// Cells `i` and `j` of a `w` x `h` grid share an edge: they are next to
/// each other in one row, or in one column. Rows do not wrap.
pub open spec fn adjacent(w: int, h: int, i: int, j: int) -> bool {
    &&& 0 <= i < w * h
    &&& 0 <= j < w * h
    &&& {
        ||| j == i + 1 && i % w + 1 < w
        ||| i == j + 1 && j % w + 1 < w
        ||| j == i + w
        ||| i == j + w
    }
}

/// `path` starts at `seed`, steps between adjacent cells, and stays on
/// cells of the seed's color.
pub open spec fn is_path(pixels: Seq<Rgba>, w: int, h: int, seed: int, path: Seq<int>) -> bool {
    &&& path.len() > 0
    &&& path[0] == seed
    &&& forall|k: int| 0 <= k < path.len() ==> 0 <= #[trigger] path[k] < w * h && pixels[path[k]] == pixels[seed]
    &&& forall|k: int| 0 <= k < path.len() - 1 ==> #[trigger] adjacent(w, h, path[k], path[k + 1])
}

/// Cell `i` is joined to `seed` by a path of adjacent cells of the seed's
/// color.
pub open spec fn connected(pixels: Seq<Rgba>, w: int, h: int, seed: int, i: int) -> bool {
    exists|path: Seq<int>| is_path(pixels, w, h, seed, path) && path.last() == i
}

/// A path goes on to an adjacent cell of the seed's color.
proof fn lemma_path_extend(pixels: Seq<Rgba>, w: int, h: int, seed: int, path: Seq<int>, j: int)
    requires
        is_path(pixels, w, h, seed, path),
        adjacent(w, h, path.last(), j),
        pixels[j] == pixels[seed],
    ensures
        is_path(pixels, w, h, seed, path.push(j)),
        path.push(j).last() == j,
{
    let p = path.push(j);
    assert forall|k: int| 0 <= k < p.len() - 1 implies #[trigger] adjacent(w, h, p[k], p[k + 1]) by {
        if k < path.len() - 1 {
            assert(adjacent(w, h, path[k], path[k + 1]));
        }
    }
    assert forall|k: int| 0 <= k < p.len() implies 0 <= #[trigger] p[k] < w * h && pixels[p[k]] == pixels[seed] by {
        if k < path.len() {
            assert(path[k] == p[k]);
        }
    }
}

/// Every cell of a path is marked, once the marked cells hold the seed and
/// are closed under steps to adjacent cells of the seed's color.
proof fn lemma_path_marked(
    pixels: Seq<Rgba>,
    w: int,
    h: int,
    seed: int,
    old_color: Rgba,
    marked: Seq<bool>,
    path: Seq<int>,
    k: int,
)
    requires
        marked.len() == w * h,
        marked[seed],
        old_color == pixels[seed],
        forall|x: int, b: int|
            0 <= x < w * h && marked[x] && #[trigger] adjacent(w, h, x, b) && pixels[b] == old_color
                ==> marked[b],
        is_path(pixels, w, h, seed, path),
        0 <= k < path.len(),
    ensures
        marked[path[k]],
    decreases k,
{
    if k > 0 {
        lemma_path_marked(pixels, w, h, seed, old_color, marked, path, k - 1);
        assert(adjacent(w, h, path[k - 1], path[k - 1 + 1]));
        assert(0 <= path[k] < w * h && pixels[path[k]] == pixels[seed]);
    }
}

/// The grid after a flood fill from `seed`: every cell connected to it
/// takes `color`, the others keep theirs.
pub open spec fn fill_grid(pixels: Seq<Rgba>, w: int, h: int, seed: int, color: Rgba) -> Seq<Rgba> {
    Seq::new(
        pixels.len(),
        |i: int|
            if connected(pixels, w, h, seed, i) {
                color
            } else {
                pixels[i]
            },
    )
}

/// Whether `a` waits on the stack.
pub open spec fn on_stack(stack: Seq<usize>, a: int) -> bool {
    exists|t: int| 0 <= t < stack.len() && stack[t] as int == a
}

/// Stepping back one cell along a row of a grid `w` cells wide.
proof fn lemma_prev_cell(i: int, w: int)
    requires
        w > 0,
        i >= 1,
    ensures
        i % w > 0 ==> (i - 1) % w == i % w - 1,
        i % w == 0 ==> (i - 1) % w == w - 1,
{
    vstd::arithmetic::div_mod::lemma_fundamental_div_mod(i, w);
    vstd::arithmetic::div_mod::lemma_mod_pos_bound(i, w);
    let q = i / w;
    if i % w > 0 {
        assert(i - 1 == q * w + (i % w - 1)) by (nonlinear_arith)
            requires
                i == w * q + i % w,
        ;
        vstd::arithmetic::div_mod::lemma_fundamental_div_mod_converse(i - 1, w, q, i % w - 1);
    } else {
        assert(q >= 1) by (nonlinear_arith)
            requires
                i == w * q,
                i >= 1,
                w > 0,
        ;
        assert(i - 1 == (q - 1) * w + (w - 1)) by (nonlinear_arith)
            requires
                i == w * q + 0,
        ;
        vstd::arithmetic::div_mod::lemma_fundamental_div_mod_converse(i - 1, w, q - 1, w - 1);
    }
}

/// The cells next to `i`.
fn neighbors(i: usize, w: usize, h: usize) -> (r: Vec<usize>)
    requires
        i < w * h,
        w * h <= u32::MAX,
    ensures
        forall|t: int| 0 <= t < r@.len() ==> adjacent(w as int, h as int, i as int, #[trigger] r@[t] as int),
        forall|j: int| #[trigger] adjacent(w as int, h as int, i as int, j) ==> on_stack(r@, j),
{
    proof {
        lemma_cell_of_index(i as int, w as int, h as int);
    }
    let total = w * h;
    let col = i % w;
    let ghost wi = w as int;
    let ghost hi = h as int;
    let ghost ii = i as int;
    proof {
        if i >= 1 {
            lemma_prev_cell(ii, wi);
        }
        crate::grid::lemma_cell_in_grid(ii / wi, wi - 1, wi, hi);
    }
    let mut r: Vec<usize> = Vec::new();
    let ghost mut left: int = -1;
    let ghost mut right: int = -1;
    let ghost mut down: int = -1;
    let ghost mut up: int = -1;
    if col > 0 {
        r.push(i - 1);
        proof {
            left = r@.len() - 1;
        }
    }
    if col + 1 < w {
        r.push(i + 1);
        proof {
            right = r@.len() - 1;
        }
    }
    if i >= w {
        r.push(i - w);
        proof {
            down = r@.len() - 1;
        }
    }
    if w < total - i {
        r.push(i + w);
        proof {
            up = r@.len() - 1;
        }
    }
    proof {
        assert(col > 0 ==> 0 <= left < r@.len() && r@[left] == i - 1);
        assert(col + 1 < w ==> 0 <= right < r@.len() && r@[right] == i + 1);
        assert(i >= w ==> 0 <= down < r@.len() && r@[down] == i - w);
        assert(w < total - i ==> 0 <= up < r@.len() && r@[up] == i + w);
        assert forall|j: int| #[trigger] adjacent(wi, hi, ii, j) implies on_stack(r@, j) by {
            if j == ii + 1 && ii % wi + 1 < wi {
                assert(r@[right] as int == j);
            } else if ii == j + 1 && j % wi + 1 < wi {
                assert(r@[left] as int == j);
            } else if j == ii + wi {
                assert(r@[up] as int == j);
            } else {
                assert(r@[down] as int == j);
            }
        }
    }
    r
}

/// Flood fill a grid from `seed`: every cell connected to it by adjacent
/// cells of its color takes `color`.
pub fn fill(pixels: &Vec<Rgba>, w: u32, h: u32, seed: usize, color: Rgba) -> (r: Vec<Rgba>)
    requires
        pixels@.len() == w * h,
        w * h <= u32::MAX,
        seed < w * h,
    ensures
        r@ == fill_grid(pixels@, w as int, h as int, seed as int, color),
{
    let wu = w as usize;
    let hu = h as usize;
    let total = wu * hu;
    let ghost pix = pixels@;
    let ghost wi = w as int;
    let ghost hi = h as int;
    let old_color = pixels[seed];
    let mut marked: Vec<bool> = Vec::new();
    let mut i: usize = 0;
    while i < total
        invariant
            i <= total,
            total == w * h,
            marked@.len() == i,
            forall|a: int| 0 <= a < i ==> !marked@[a],
        decreases total - i,
    {
        marked.push(false);
        i = i + 1;
    }
    proof {
        lemma_count_none(marked@);
        lemma_count_set(marked@, seed as int);
    }
    marked.set(seed, true);
    let ghost mut paths: Seq<Seq<int>> = Seq::new(total as nat, |a: int| seq![seed as int]);
    let ghost mut count: nat = 1;
    proof {
        lemma_count_bound(marked@);
    }
    let mut stack: Vec<usize> = Vec::new();
    stack.push(seed);
    proof {
        assert(is_path(pix, wi, hi, seed as int, seq![seed as int]));
        assert(stack@[0] == seed);
        assert(on_stack(stack@, seed as int));
    }
    while stack.len() > 0
        invariant
            total == w * h,
            wi == w as int,
            hi == h as int,
            wu == w,
            hu == h,
            total == wu * hu,
            total <= u32::MAX,
            pix == pixels@,
            pix.len() == total,
            seed < total,
            old_color == pix[seed as int],
            marked@.len() == total,
            paths.len() == total,
            marked@[seed as int],
            count <= total,
            forall|a: int|
                0 <= a < total && #[trigger] marked@[a] ==> is_path(pix, wi, hi, seed as int, paths[a])
                    && paths[a].last() == a && pix[a] == old_color,
            forall|t: int| 0 <= t < stack@.len() ==> #[trigger] stack@[t] < total && marked@[stack@[t] as int],
            stack@.no_duplicates(),
            count == count_marked(marked@),
            forall|a: int, b: int|
                0 <= a < total && marked@[a] && !on_stack(stack@, a) && #[trigger] adjacent(wi, hi, a, b)
                    && pix[b] == old_color ==> marked@[b],
        decreases 2 * (total - count) + stack@.len(),
    {
        let ghost measure = 2 * (total - count) + stack@.len();
        let ghost before = stack@;
        proof {
            assert(before[before.len() - 1] < total);
        }
        let idx = stack.pop().unwrap();
        proof {
            assert(stack@ =~= before.drop_last());
            assert forall|t: int| 0 <= t < stack@.len() implies #[trigger] stack@[t] < total && marked@[stack@[t] as int] by {
                assert(stack@[t] == before[t]);
            }
            if on_stack(stack@, idx as int) {
                let t = choose|t: int| 0 <= t < stack@.len() && stack@[t] as int == idx;
                assert(before[t] == before[before.len() - 1]);
            }
            assert forall|a: int| on_stack(before, a) && a != idx implies on_stack(stack@, a) by {
                let t = choose|t: int| 0 <= t < before.len() && before[t] as int == a;
                assert(stack@[t] == before[t]);
            }
            assert(idx < total);
            assert(wu as int == wi && hu as int == hi);
        }
        let nbrs = neighbors(idx, wu, hu);
        let mut q: usize = 0;
        while q < nbrs.len()
            invariant
                total == w * h,
                wi == w as int,
                hi == h as int,
                total <= u32::MAX,
                pix == pixels@,
                pix.len() == total,
                seed < total,
                idx < total,
                old_color == pix[seed as int],
                marked@.len() == total,
                paths.len() == total,
                marked@[seed as int],
                marked@[idx as int],
                count <= total,
                q <= nbrs@.len(),
                forall|t: int| 0 <= t < nbrs@.len() ==> adjacent(wi, hi, idx as int, #[trigger] nbrs@[t] as int),
                forall|j: int| #[trigger] adjacent(wi, hi, idx as int, j) ==> on_stack(nbrs@, j),
                forall|a: int|
                    0 <= a < total && #[trigger] marked@[a] ==> is_path(pix, wi, hi, seed as int, paths[a])
                        && paths[a].last() == a && pix[a] == old_color,
                forall|t: int| 0 <= t < stack@.len() ==> #[trigger] stack@[t] < total && marked@[stack@[t] as int],
                stack@.no_duplicates(),
                !on_stack(stack@, idx as int),
                count == count_marked(marked@),
                2 * (total - count) + stack@.len() < measure,
                forall|t: int| 0 <= t < q ==> pix[nbrs@[t] as int] == old_color ==> marked@[#[trigger] nbrs@[t] as int],
                forall|a: int, b: int|
                    0 <= a < total && a != idx && marked@[a] && !on_stack(stack@, a) && #[trigger] adjacent(wi, hi, a, b)
                        && pix[b] == old_color ==> marked@[b],
            decreases nbrs@.len() - q,
        {
            let j = nbrs[q];
            proof {
                assert(adjacent(wi, hi, idx as int, nbrs@[q as int] as int));
            }
            if !marked[j] && pixels[j] == old_color {
                proof {
                    assert(adjacent(wi, hi, idx as int, j as int));
                    let p = paths[idx as int];
                    lemma_path_extend(pix, wi, hi, seed as int, p, j as int);
                    paths = paths.update(j as int, p.push(j as int));
                    lemma_count_set(marked@, j as int);
                    lemma_count_bound(marked@.update(j as int, true));
                    count = count + 1;
                }
                let ghost old_marked = marked@;
                let ghost old_stack = stack@;
                marked.set(j, true);
                stack.push(j);
                proof {
                    assert(stack@.drop_last() =~= old_stack);
                    assert(stack@[stack@.len() - 1] == j);
                    assert(on_stack(stack@, j as int));
                    assert forall|a: int| on_stack(old_stack, a) implies on_stack(stack@, a) by {
                        let t = choose|t: int| 0 <= t < old_stack.len() && old_stack[t] as int == a;
                        assert(stack@[t] == old_stack[t]);
                    }
                    assert forall|a: int| a != j && on_stack(stack@, a) implies on_stack(old_stack, a) by {
                        let t = choose|t: int| 0 <= t < stack@.len() && stack@[t] as int == a;
                        assert(old_stack[t] == stack@[t]);
                    }
                    assert forall|t: int| 0 <= t < old_stack.len() implies old_stack[t] != j by {
                        assert(old_marked[old_stack[t] as int]);
                    }
                    assert forall|a: int, b: int|
                        0 <= a < total && a != idx && marked@[a] && !on_stack(stack@, a) && #[trigger] adjacent(
                            wi,
                            hi,
                            a,
                            b,
                        ) && pix[b] == old_color implies marked@[b] by {
                        assert(a != j);
                        assert(old_marked[a]);
                        assert(!on_stack(old_stack, a));
                    }
                    assert forall|t: int| 0 <= t < q + 1 && pix[nbrs@[t] as int] == old_color implies marked@[#[trigger] nbrs@[t] as int] by {
                        if t < q {
                            assert(old_marked[nbrs@[t] as int] ==> marked@[nbrs@[t] as int]);
                        }
                    }
                }
            }
            q = q + 1;
        }
        proof {
            assert forall|a: int, b: int|
                0 <= a < total && marked@[a] && !on_stack(stack@, a) && #[trigger] adjacent(wi, hi, a, b)
                    && pix[b] == old_color implies marked@[b] by {
                if a == idx {
                    assert(on_stack(nbrs@, b));
                    let t = choose|t: int| 0 <= t < nbrs@.len() && nbrs@[t] as int == b;
                }
            }
        }
    }
    proof {
        assert forall|a: int| 0 <= a < total implies marked@[a] == connected(pix, wi, hi, seed as int, a) by {
            if marked@[a] {
                assert(is_path(pix, wi, hi, seed as int, paths[a]) && paths[a].last() == a);
            }
            if connected(pix, wi, hi, seed as int, a) {
                let path = choose|path: Seq<int>| is_path(pix, wi, hi, seed as int, path) && path.last() == a;
                lemma_path_marked(pix, wi, hi, seed as int, old_color, marked@, path, path.len() - 1);
            }
        }
    }
    let mut out: Vec<Rgba> = Vec::new();
    let mut k: usize = 0;
    while k < total
        invariant
            total == w * h,
            wi == w as int,
            hi == h as int,
            pix == pixels@,
            pix.len() == total,
            marked@.len() == total,
            forall|a: int| 0 <= a < total ==> marked@[a] == connected(pix, wi, hi, seed as int, a),
            k <= total,
            out@ =~= fill_grid(pix, wi, hi, seed as int, color).take(k as int),
        decreases total - k,
    {
        if marked[k] {
            out.push(color);
        } else {
            out.push(pixels[k]);
        }
        k = k + 1;
    }
    proof {
        assert(fill_grid(pix, wi, hi, seed as int, color).take(total as int) =~= fill_grid(pix, wi, hi, seed as int, color));
    }
    out
}

/// The number of marked entries.
pub open spec fn count_marked(s: Seq<bool>) -> nat
    decreases s.len(),
{
    if s.len() == 0 {
        0
    } else {
        count_marked(s.drop_last()) + if s.last() {
            1nat
        } else {
            0nat
        }
    }
}

/// At most every entry is marked.
proof fn lemma_count_bound(s: Seq<bool>)
    ensures
        count_marked(s) <= s.len(),
    decreases s.len(),
{
    if s.len() > 0 {
        lemma_count_bound(s.drop_last());
    }
}

/// Marking an unmarked entry adds one to the count.
proof fn lemma_count_set(s: Seq<bool>, j: int)
    requires
        0 <= j < s.len(),
        !s[j],
    ensures
        count_marked(s.update(j, true)) == count_marked(s) + 1,
    decreases s.len(),
{
    let u = s.update(j, true);
    if j == s.len() - 1 {
        assert(u.drop_last() =~= s.drop_last());
    } else {
        assert(u.drop_last() =~= s.drop_last().update(j, true));
        lemma_count_set(s.drop_last(), j);
    }
}

/// No entry is marked in an all-false sequence.
proof fn lemma_count_none(s: Seq<bool>)
    requires
        forall|a: int| 0 <= a < s.len() ==> !s[a],
    ensures
        count_marked(s) == 0,
    decreases s.len(),
{
    if s.len() > 0 {
        lemma_count_none(s.drop_last());
    }
}

} // verus!
