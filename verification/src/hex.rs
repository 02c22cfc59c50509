//! The geometry of Hex, as mathematics.
//!
//! A cell is a pair `(row, column)`. Its neighbours lie east, south-east,
//! south-west, west, north-west and north-east of it. Black owns the left and
//! right edges of the board, white the top and bottom ones.
//!
//! The module proves that on a board where every cell holds a stone exactly one
//! of the two players has connected their edges ([`exactly_one_connects`]).
//! The proof embeds the rhombus in a triangular board, where a player wins by
//! touching all three sides, and shrinks that triangle one size at a time: a
//! cell of the smaller triangle takes the colour that the majority of three
//! mutually adjacent cells of the larger one have. Shrinking keeps the winner,
//! and a triangle of one cell has exactly one.

use vstd::prelude::*;

verus! {

/// Rows, and columns, of the board.
pub const SIDE: usize = 11;

/// Whether the cell lies on the board.
pub open spec fn inside(p: (int, int)) -> bool {
    0 <= p.0 < 11 && 0 <= p.1 < 11
}

/// Whether two cells share an edge.
pub open spec fn adjacent(p: (int, int), q: (int, int)) -> bool {
    ||| q.0 == p.0 && q.1 == p.1 + 1
    ||| q.0 == p.0 + 1 && q.1 == p.1
    ||| q.0 == p.0 + 1 && q.1 == p.1 - 1
    ||| q.0 == p.0 && q.1 == p.1 - 1
    ||| q.0 == p.0 - 1 && q.1 == p.1
    ||| q.0 == p.0 - 1 && q.1 == p.1 + 1
}

/// Whether the cells are all in `on` and each is adjacent to the next.
pub open spec fn is_path(on: spec_fn((int, int)) -> bool, path: Seq<(int, int)>) -> bool {
    &&& path.len() > 0
    &&& forall|i: int| 0 <= i < path.len() ==> on(#[trigger] path[i])
    &&& forall|i: int, j: int|
        0 <= i && j == i + 1 && j < path.len() ==> adjacent(#[trigger] path[i], #[trigger] path[j])
}

/// Whether a path inside `on` leads from `p` to `q`.
pub open spec fn linked(on: spec_fn((int, int)) -> bool, p: (int, int), q: (int, int)) -> bool {
    exists|path: Seq<(int, int)>| #[trigger] is_path(on, path) && path[0] == p && path.last() == q
}

/// Whether `on` links the left edge of the board to the right edge.
pub open spec fn left_right(on: spec_fn((int, int)) -> bool) -> bool {
    exists|a: int, b: int|
        0 <= a < 11 && 0 <= b < 11 && #[trigger] linked(on, (a, 0int), (b, 10int))
}

/// Whether `on` links the top edge of the board to the bottom edge.
pub open spec fn top_bottom(on: spec_fn((int, int)) -> bool) -> bool {
    exists|a: int, b: int|
        0 <= a < 11 && 0 <= b < 11 && #[trigger] linked(on, (0int, a), (10int, b))
}

/// The mirror image of a set of cells, rows and columns exchanged.
pub open spec fn mirror(on: spec_fn((int, int)) -> bool) -> spec_fn((int, int)) -> bool {
    |p: (int, int)| on((p.1, p.0))
}

// ---------------------------------------------------------------------------
// Paths
// ---------------------------------------------------------------------------

/// A cell of `on` is linked to itself.
pub proof fn lemma_linked_refl(on: spec_fn((int, int)) -> bool, p: (int, int))
    requires
        on(p),
    ensures
        linked(on, p, p),
{
    let path = seq![p];
    assert(is_path(on, path));
    assert(path[0] == p && path.last() == p);
}

/// The ends of a link lie in `on`.
pub proof fn lemma_linked_ends(on: spec_fn((int, int)) -> bool, p: (int, int), q: (int, int))
    requires
        linked(on, p, q),
    ensures
        on(p),
        on(q),
{
    let path = choose|path: Seq<(int, int)>| #[trigger]
        is_path(on, path) && path[0] == p && path.last() == q;
    assert(on(path[0]) && on(path[path.len() - 1]));
}

/// Adjacent cells of `on` are linked.
pub proof fn lemma_linked_step(
    on: spec_fn((int, int)) -> bool,
    p: (int, int),
    q: (int, int),
)
    requires
        on(p),
        on(q),
        adjacent(p, q),
    ensures
        linked(on, p, q),
{
    let path = seq![p, q];
    assert(is_path(on, path));
    assert(path[0] == p && path.last() == q);
}

/// Links compose.
pub proof fn lemma_linked_trans(
    on: spec_fn((int, int)) -> bool,
    p: (int, int),
    q: (int, int),
    r: (int, int),
)
    requires
        linked(on, p, q),
        linked(on, q, r),
    ensures
        linked(on, p, r),
{
    let a = choose|path: Seq<(int, int)>| #[trigger]
        is_path(on, path) && path[0] == p && path.last() == q;
    let b = choose|path: Seq<(int, int)>| #[trigger]
        is_path(on, path) && path[0] == q && path.last() == r;
    lemma_join(on, a, b);
}

/// Two paths that meet end to start, joined into one; the meeting cell stays at
/// the last index of the first.
proof fn lemma_join(
    on: spec_fn((int, int)) -> bool,
    a: Seq<(int, int)>,
    b: Seq<(int, int)>,
) -> (c: Seq<(int, int)>)
    requires
        is_path(on, a),
        is_path(on, b),
        a.last() == b[0],
    ensures
        is_path(on, c),
        c[0] == a[0],
        c.last() == b.last(),
        c.len() == a.len() + b.len() - 1,
        c[a.len() - 1] == a.last(),
{
    let c = a + b.drop_first();
    assert forall|i: int| 0 <= i < c.len() implies on(#[trigger] c[i]) by {
        if i < a.len() {
            assert(c[i] == a[i]);
        } else {
            assert(c[i] == b[i - a.len() + 1]);
        }
    }
    assert forall|i: int, j: int| 0 <= i && j == i + 1 && j < c.len() implies adjacent(
        #[trigger] c[i],
        #[trigger] c[j],
    ) by {
        if j < a.len() {
            assert(c[i] == a[i] && c[j] == a[j]);
        } else {
            assert(c[j] == b[j - a.len() + 1]);
            if i < a.len() {
                assert(c[i] == b[0]);
            } else {
                assert(c[i] == b[i - a.len() + 1]);
            }
        }
    }
    if b.len() == 1 {
        assert(c.last() == a.last());
    } else {
        assert(c.last() == b.last());
    }
    c
}

/// A path walked backwards.
proof fn lemma_path_reversed(
    on: spec_fn((int, int)) -> bool,
    a: Seq<(int, int)>,
) -> (b: Seq<(int, int)>)
    requires
        is_path(on, a),
    ensures
        is_path(on, b),
        b.len() == a.len(),
        b[0] == a.last(),
        b.last() == a[0],
{
    let b = Seq::new(a.len(), |i: int| a[a.len() - 1 - i]);
    assert forall|i: int, j: int| 0 <= i && j == i + 1 && j < b.len() implies adjacent(
        #[trigger] b[i],
        #[trigger] b[j],
    ) by {
        let x = a[a.len() - 1 - j];
        let y = a[a.len() - 1 - i];
        assert(adjacent(x, y));
    }
    b
}

/// Links go both ways.
pub proof fn lemma_linked_sym(on: spec_fn((int, int)) -> bool, p: (int, int), q: (int, int))
    requires
        linked(on, p, q),
    ensures
        linked(on, q, p),
{
    let a = choose|path: Seq<(int, int)>| #[trigger]
        is_path(on, path) && path[0] == p && path.last() == q;
    let b = lemma_path_reversed(on, a);
}

/// A link inside `on` is one inside every larger set.
pub proof fn lemma_linked_mono(
    on: spec_fn((int, int)) -> bool,
    wider: spec_fn((int, int)) -> bool,
    p: (int, int),
    q: (int, int),
)
    requires
        linked(on, p, q),
        forall|x: (int, int)| on(x) ==> #[trigger] wider(x),
    ensures
        linked(wider, p, q),
{
    let a = choose|path: Seq<(int, int)>| #[trigger]
        is_path(on, path) && path[0] == p && path.last() == q;
    assert(is_path(wider, a));
}

/// A set that holds `p` and is closed under adjacency within `on` holds
/// everything that `on` links to `p`.
pub proof fn lemma_linked_closed(
    on: spec_fn((int, int)) -> bool,
    closed: spec_fn((int, int)) -> bool,
    p: (int, int),
    q: (int, int),
)
    requires
        linked(on, p, q),
        closed(p),
        forall|x: (int, int), y: (int, int)|
            closed(x) && on(y) && #[trigger] adjacent(x, y) ==> closed(y),
    ensures
        closed(q),
{
    let a = choose|path: Seq<(int, int)>| #[trigger]
        is_path(on, path) && path[0] == p && path.last() == q;
    lemma_path_closed(on, closed, a, a.len() - 1);
}

proof fn lemma_path_closed(
    on: spec_fn((int, int)) -> bool,
    closed: spec_fn((int, int)) -> bool,
    path: Seq<(int, int)>,
    i: int,
)
    requires
        is_path(on, path),
        0 <= i < path.len(),
        closed(path[0]),
        forall|x: (int, int), y: (int, int)|
            closed(x) && on(y) && #[trigger] adjacent(x, y) ==> closed(y),
    ensures
        closed(path[i]),
    decreases i,
{
    if i > 0 {
        lemma_path_closed(on, closed, path, i - 1);
        assert(adjacent(path[i - 1], path[i]));
    }
}

/// Mirroring keeps links.
pub proof fn lemma_linked_mirror(
    on: spec_fn((int, int)) -> bool,
    p: (int, int),
    q: (int, int),
)
    requires
        linked(on, p, q),
    ensures
        linked(mirror(on), (p.1, p.0), (q.1, q.0)),
{
    let a = choose|path: Seq<(int, int)>| #[trigger]
        is_path(on, path) && path[0] == p && path.last() == q;
    let b = Seq::new(a.len(), |i: int| (a[i].1, a[i].0));
    assert(is_path(mirror(on), b)) by {
        assert forall|i: int, j: int| 0 <= i && j == i + 1 && j < b.len() implies adjacent(
            #[trigger] b[i],
            #[trigger] b[j],
        ) by {
            assert(adjacent(a[i], a[j]));
        }
    }
    assert(b[0] == (p.1, p.0) && b.last() == (q.1, q.0));
}

// ---------------------------------------------------------------------------
// The triangle
// ---------------------------------------------------------------------------

/// The cells of the triangle of size `n` that have colour `x`.
spec fn tri(c: spec_fn((int, int)) -> bool, n: int, x: bool) -> spec_fn((int, int)) -> bool {
    |p: (int, int)| 0 <= p.0 && 0 <= p.1 && p.0 + p.1 < n && c(p) == x
}

/// Whether colour `x` links the three sides of the triangle of size `n`.
spec fn tri_win(c: spec_fn((int, int)) -> bool, n: int, x: bool) -> bool {
    exists|a: (int, int), b: (int, int), d: (int, int)| #[trigger]
        tri_touch(n, a, b, d) && linked(tri(c, n, x), a, b) && linked(tri(c, n, x), a, d)
}

/// One cell on each of the three sides.
spec fn tri_touch(n: int, a: (int, int), b: (int, int), d: (int, int)) -> bool {
    a.0 == 0 && b.1 == 0 && d.0 + d.1 == n - 1
}

spec fn majority(a: bool, b: bool, c: bool) -> bool {
    (a && b) || (a && c) || (b && c)
}

/// The colouring of the triangle one size smaller.
spec fn reduced(c: spec_fn((int, int)) -> bool) -> spec_fn((int, int)) -> bool {
    |p: (int, int)| majority(c(p), c((p.0 + 1, p.1)), c((p.0, p.1 + 1)))
}

/// Whether `u` is one of the three cells that decide the colour of `p`.
spec fn decides(u: (int, int), p: (int, int)) -> bool {
    u == p || u == (p.0 + 1, p.1) || u == (p.0, p.1 + 1)
}

/// A path of the smaller triangle is followed by the cells that decide it.
proof fn lemma_lift(
    c: spec_fn((int, int)) -> bool,
    n: int,
    x: bool,
    path: Seq<(int, int)>,
    u: (int, int),
    v: (int, int),
)
    requires
        is_path(tri(reduced(c), n - 1, x), path),
        decides(u, path[0]),
        decides(v, path.last()),
        c(u) == x,
        c(v) == x,
    ensures
        linked(tri(c, n, x), u, v),
    decreases path.len(),
{
    let on = tri(c, n, x);
    let small = tri(reduced(c), n - 1, x);
    assert(small(path[0]));
    assert(on(u));
    if path.len() == 1 {
        if u == v {
            lemma_linked_refl(on, u);
        } else {
            assert(on(v));
            lemma_linked_step(on, u, v);
        }
    } else {
        let p = path[0];
        let q = path[1];
        assert(adjacent(p, q));
        assert(small(q));
        // one cell that decides both, or two adjacent ones that decide one each
        let (y, z) = choose|y: (int, int), z: (int, int)|
            #![trigger decides(y, p), decides(z, q)]
            decides(y, p) && decides(z, q) && c(y) == x && c(z) == x && (y == z || adjacent(y, z));
        assert(exists|y: (int, int), z: (int, int)|
            #![trigger decides(y, p), decides(z, q)]
            decides(y, p) && decides(z, q) && c(y) == x && c(z) == x && (y == z || adjacent(
                y,
                z,
            ))) by {
            lemma_shared(c, n, x, p, q);
        }
        assert(on(y) && on(z));
        if u != y {
            lemma_linked_step(on, u, y);
        } else {
            lemma_linked_refl(on, u);
        }
        if y != z {
            lemma_linked_step(on, y, z);
        } else {
            lemma_linked_refl(on, y);
        }
        let rest = path.drop_first();
        assert(is_path(small, rest)) by {
            assert forall|i: int| 0 <= i < rest.len() implies small(#[trigger] rest[i]) by {
                assert(rest[i] == path[i + 1]);
            }
            assert forall|i: int, j: int| 0 <= i && j == i + 1 && j < rest.len() implies adjacent(
                #[trigger] rest[i],
                #[trigger] rest[j],
            ) by {
                assert(rest[i] == path[i + 1] && rest[j] == path[j + 1]);
            }
        }
        assert(rest[0] == q && rest.last() == path.last());
        lemma_lift(c, n, x, rest, z, v);
        lemma_linked_trans(on, u, y, z);
        lemma_linked_trans(on, u, z, v);
    }
}

/// The cells that decide two adjacent cells of the smaller triangle meet.
proof fn lemma_shared(
    c: spec_fn((int, int)) -> bool,
    n: int,
    x: bool,
    p: (int, int),
    q: (int, int),
)
    requires
        tri(reduced(c), n - 1, x)(p),
        tri(reduced(c), n - 1, x)(q),
        adjacent(p, q),
    ensures
        exists|y: (int, int), z: (int, int)|
            #![trigger decides(y, p), decides(z, q)]
            decides(y, p) && decides(z, q) && c(y) == x && c(z) == x && (y == z || adjacent(y, z)),
{
    let p0 = p;
    let p1 = (p.0 + 1, p.1);
    let p2 = (p.0, p.1 + 1);
    let q0 = q;
    let q1 = (q.0 + 1, q.1);
    let q2 = (q.0, q.1 + 1);
    assert(decides(p0, p) && decides(p1, p) && decides(p2, p));
    assert(decides(q0, q) && decides(q1, q) && decides(q2, q));
}

/// Winning the smaller triangle wins the larger one.
proof fn lemma_win_up(c: spec_fn((int, int)) -> bool, n: int, x: bool)
    requires
        n >= 2,
        tri_win(reduced(c), n - 1, x),
    ensures
        tri_win(c, n, x),
{
    let small = tri(reduced(c), n - 1, x);
    let (a, b, d) = choose|a: (int, int), b: (int, int), d: (int, int)| #[trigger]
        tri_touch(n - 1, a, b, d) && linked(small, a, b) && linked(small, a, d);
    let pb = choose|path: Seq<(int, int)>| #[trigger]
        is_path(small, path) && path[0] == a && path.last() == b;
    let pd = choose|path: Seq<(int, int)>| #[trigger]
        is_path(small, path) && path[0] == a && path.last() == d;
    assert(small(pb[0]) && small(pb[pb.len() - 1]) && small(pd[pd.len() - 1]));
    let a2 = if c(a) == x { a } else { (a.0, a.1 + 1) };
    let b2 = if c(b) == x { b } else { (b.0 + 1, b.1) };
    let d2 = if c((d.0 + 1, d.1)) == x { (d.0 + 1, d.1) } else { (d.0, d.1 + 1) };
    lemma_lift(c, n, x, pb, a2, b2);
    lemma_lift(c, n, x, pd, a2, d2);
    assert(tri_touch(n, a2, b2, d2));
}

/// The cell of the smaller triangle that both ends of an edge help decide.
spec fn corner(u: (int, int), v: (int, int)) -> (int, int) {
    (if u.0 <= v.0 { u.0 } else { v.0 }, if u.1 <= v.1 { u.1 } else { v.1 })
}

/// The edges of a path lead through linked cells of the smaller triangle.
proof fn lemma_edges_linked(
    c: spec_fn((int, int)) -> bool,
    n: int,
    x: bool,
    path: Seq<(int, int)>,
    i: int,
    j: int,
)
    requires
        is_path(tri(c, n, x), path),
        0 <= i <= j < path.len() - 1,
    ensures
        linked(
            tri(reduced(c), n - 1, x),
            corner(path[i], path[i + 1]),
            corner(path[j], path[j + 1]),
        ),
    decreases j - i,
{
    let on = tri(c, n, x);
    let small = tri(reduced(c), n - 1, x);
    assert(on(path[j]) && on(path[j + 1]) && adjacent(path[j], path[j + 1]));
    let e = corner(path[j], path[j + 1]);
    assert(small(e));
    if i == j {
        lemma_linked_refl(small, e);
    } else {
        lemma_edges_linked(c, n, x, path, i, j - 1);
        assert(on(path[j - 1]) && adjacent(path[j - 1], path[j]));
        let f = corner(path[j - 1], path[j]);
        assert(small(f));
        if e == f {
            lemma_linked_refl(small, e);
        } else {
            assert(adjacent(f, e));
            lemma_linked_step(small, f, e);
        }
        lemma_linked_trans(small, corner(path[i], path[i + 1]), f, e);
    }
}

/// Winning the larger triangle wins the smaller one.
proof fn lemma_win_down(c: spec_fn((int, int)) -> bool, n: int, x: bool)
    requires
        n >= 2,
        tri_win(c, n, x),
    ensures
        tri_win(reduced(c), n - 1, x),
{
    let on = tri(c, n, x);
    let small = tri(reduced(c), n - 1, x);
    let (a, b, d) = choose|a: (int, int), b: (int, int), d: (int, int)| #[trigger]
        tri_touch(n, a, b, d) && linked(on, a, b) && linked(on, a, d);
    let pb = choose|path: Seq<(int, int)>| #[trigger]
        is_path(on, path) && path[0] == a && path.last() == b;
    let pd = choose|path: Seq<(int, int)>| #[trigger]
        is_path(on, path) && path[0] == a && path.last() == d;
    let back = lemma_path_reversed(on, pb);
    let path = lemma_join(on, back, pd);
    let m = back.len() - 1;
    let last = path.len() - 1;
    assert(path[0] == b && path[m] == a && path[last] == d);
    assert(on(path[0]) && on(path[m]) && on(path[last]));
    assert(last > 0) by {
        if last == 0 {
            assert(a == b && a == d);
        }
    }
    let k: int = if m < last { m } else { m - 1 };
    let ea = corner(path[k], path[k + 1]);
    let eb = corner(path[0], path[1]);
    let ed = corner(path[last - 1], path[last]);
    lemma_edges_linked(c, n, x, path, 0, k);
    lemma_edges_linked(c, n, x, path, k, last - 1);
    lemma_linked_sym(small, eb, ea);
    assert(tri_touch(n - 1, ea, eb, ed)) by {
        assert(on(path[k]) && on(path[k + 1]) && adjacent(path[k], path[k + 1]));
        assert(on(path[0]) && on(path[1]) && adjacent(path[0], path[1]));
        assert(on(path[last - 1]) && adjacent(path[last - 1], path[last]));
    }
}

/// Exactly one colour wins a triangle.
proof fn lemma_tri_one(c: spec_fn((int, int)) -> bool, n: int)
    requires
        n >= 1,
    ensures
        tri_win(c, n, true) != tri_win(c, n, false),
    decreases n,
{
    if n == 1 {
        let o = (0int, 0int);
        let x = c(o);
        assert(tri(c, n, x)(o));
        lemma_linked_refl(tri(c, n, x), o);
        assert(tri_touch(n, o, o, o));
        if tri_win(c, n, !x) {
            let on = tri(c, n, !x);
            let (a, b, d) = choose|a: (int, int), b: (int, int), d: (int, int)| #[trigger]
                tri_touch(n, a, b, d) && linked(on, a, b) && linked(on, a, d);
            let pb = choose|path: Seq<(int, int)>| #[trigger]
                is_path(on, path) && path[0] == a && path.last() == b;
            assert(on(pb[0]));
        }
    } else {
        lemma_tri_one(reduced(c), n - 1);
        if tri_win(c, n, true) {
            lemma_win_down(c, n, true);
        } else if tri_win(reduced(c), n - 1, true) {
            lemma_win_up(c, n, true);
        }
        if tri_win(c, n, false) {
            lemma_win_down(c, n, false);
        } else if tri_win(reduced(c), n - 1, false) {
            lemma_win_up(c, n, false);
        }
    }
}

// ---------------------------------------------------------------------------
// The rhombus inside the triangle
// ---------------------------------------------------------------------------

/// The board in the corner of a triangle of size 21: black beyond its right
/// edge, white beyond its bottom edge.
spec fn embed(black: spec_fn((int, int)) -> bool) -> spec_fn((int, int)) -> bool {
    |p: (int, int)|
        if p.1 >= 11 {
            true
        } else if p.0 >= 11 {
            false
        } else {
            black(p)
        }
}

/// The first cell in column 10 of a path that gets there.
proof fn lemma_first_crossing(
    black: spec_fn((int, int)) -> bool,
    path: Seq<(int, int)>,
    k: int,
)
    requires
        is_path(tri(embed(black), 21, true), path),
        path[0].1 == 0,
        0 <= k < path.len(),
        path[k].1 >= 10,
        forall|p: (int, int)| #[trigger] black(p) ==> inside(p),
    ensures
        left_right(black),
    decreases k,
{
    let on = tri(embed(black), 21, true);
    assert(on(path[0]));
    if exists|j: int| 0 <= j < k && (#[trigger] path[j]).1 >= 10 {
        let j = choose|j: int| 0 <= j < k && (#[trigger] path[j]).1 >= 10;
        lemma_first_crossing(black, path, j);
    } else {
        assert(k > 0);
        assert(adjacent(path[k - 1], path[k]));
        assert(on(path[k]));
        let front = path.take(k + 1);
        assert(is_path(black, front)) by {
            assert forall|i: int| 0 <= i < front.len() implies black(#[trigger] front[i]) by {
                assert(front[i] == path[i]);
                assert(on(path[i]));
            }
            assert forall|i: int, j: int|
                0 <= i && j == i + 1 && j < front.len() implies adjacent(
                #[trigger] front[i],
                #[trigger] front[j],
            ) by {
                assert(front[i] == path[i] && front[j] == path[j]);
            }
        }
        assert(front[0] == path[0] && front.last() == path[k]);
        let (a, b) = (path[0].0, path[k].0);
        assert(front[0] == (a, 0int) && front.last() == (b, 10int));
        assert(linked(black, (a, 0int), (b, 10int)));
    }
}

/// Black wins the triangle only by linking the left and right edges.
proof fn lemma_embed_down(black: spec_fn((int, int)) -> bool)
    requires
        tri_win(embed(black), 21, true),
        forall|p: (int, int)| #[trigger] black(p) ==> inside(p),
    ensures
        left_right(black),
{
    let on = tri(embed(black), 21, true);
    let (a, b, d) = choose|a: (int, int), b: (int, int), d: (int, int)| #[trigger]
        tri_touch(21, a, b, d) && linked(on, a, b) && linked(on, a, d);
    lemma_linked_sym(on, a, b);
    lemma_linked_trans(on, b, a, d);
    let path = choose|path: Seq<(int, int)>| #[trigger]
        is_path(on, path) && path[0] == b && path.last() == d;
    assert(on(path[path.len() - 1]));
    lemma_first_crossing(black, path, path.len() - 1);
}

/// The cells just beyond the right edge are linked to each other.
proof fn lemma_beyond(black: spec_fn((int, int)) -> bool, i: int, j: int)
    requires
        0 <= i <= j <= 9,
    ensures
        linked(tri(embed(black), 21, true), (i, 11int), (j, 11int)),
    decreases j - i,
{
    let on = tri(embed(black), 21, true);
    assert(on((j, 11int)));
    if i == j {
        lemma_linked_refl(on, (j, 11int));
    } else {
        lemma_beyond(black, i, j - 1);
        assert(on((j - 1, 11int)));
        lemma_linked_step(on, (j - 1, 11int), (j, 11int));
        lemma_linked_trans(on, (i, 11int), (j - 1, 11int), (j, 11int));
    }
}

/// Linking the left and right edges wins the triangle for black.
proof fn lemma_embed_up(black: spec_fn((int, int)) -> bool)
    requires
        left_right(black),
        forall|p: (int, int)| #[trigger] black(p) ==> inside(p),
    ensures
        tri_win(embed(black), 21, true),
{
    let on = tri(embed(black), 21, true);
    let (a, b) = choose|a: int, b: int|
        0 <= a < 11 && 0 <= b < 11 && #[trigger] linked(black, (a, 0int), (b, 10int));
    let l = (a, 0int);
    let r = (b, 10int);
    assert forall|x: (int, int)| black(x) implies #[trigger] on(x) by {
        assert(inside(x));
    }
    lemma_linked_mono(black, on, l, r);
    let path = choose|path: Seq<(int, int)>| #[trigger]
        is_path(on, path) && path[0] == l && path.last() == r;
    assert(on(path[path.len() - 1]));
    let e: int = if b <= 9 { b } else { 9 };
    let x = (e, 11int);
    assert(on(x));
    lemma_linked_step(on, r, x);
    lemma_linked_trans(on, l, r, x);
    lemma_beyond(black, 0, e);
    lemma_beyond(black, e, 9);
    let top = (0int, 11int);
    let low = (9int, 11int);
    lemma_linked_trans(on, top, x, low);
    lemma_linked_sym(on, l, x);
    lemma_linked_trans(on, top, x, l);
    assert(tri_touch(21, top, l, low));
}

/// Mirroring a triangle exchanges the roles of the colours.
proof fn lemma_tri_mirror(
    c: spec_fn((int, int)) -> bool,
    d: spec_fn((int, int)) -> bool,
    n: int,
    x: bool,
)
    requires
        tri_win(c, n, x),
        forall|p: (int, int)|
            0 <= p.0 && 0 <= p.1 && p.0 + p.1 < n ==> #[trigger] d(p) == !c((p.1, p.0)),
    ensures
        tri_win(d, n, !x),
{
    let on = tri(c, n, x);
    let to = tri(d, n, !x);
    let (a, b, e) = choose|a: (int, int), b: (int, int), e: (int, int)| #[trigger]
        tri_touch(n, a, b, e) && linked(on, a, b) && linked(on, a, e);
    lemma_linked_mirror(on, a, b);
    lemma_linked_mirror(on, a, e);
    let (a2, b2, e2) = ((a.1, a.0), (b.1, b.0), (e.1, e.0));
    assert forall|p: (int, int)| mirror(on)(p) implies #[trigger] to(p) by {
        assert(d(p) == !c((p.1, p.0)));
    }
    lemma_linked_mono(mirror(on), to, a2, b2);
    lemma_linked_mono(mirror(on), to, a2, e2);
    lemma_linked_sym(to, a2, b2);
    lemma_linked_trans(to, b2, a2, e2);
    assert(tri_touch(n, b2, a2, e2));
}

/// Linking left to right is linking top to bottom in the mirror.
pub proof fn left_right_mirror(on: spec_fn((int, int)) -> bool)
    ensures
        left_right(on) == top_bottom(mirror(on)),
        top_bottom(on) == left_right(mirror(on)),
{
    let m = mirror(on);
    let mm = mirror(m);
    assert forall|x: (int, int)| mm(x) implies #[trigger] on(x) by {}
    if left_right(on) {
        let (a, b) = choose|a: int, b: int|
            0 <= a < 11 && 0 <= b < 11 && #[trigger] linked(on, (a, 0int), (b, 10int));
        lemma_linked_mirror(on, (a, 0int), (b, 10int));
    }
    if top_bottom(on) {
        let (a, b) = choose|a: int, b: int|
            0 <= a < 11 && 0 <= b < 11 && #[trigger] linked(on, (0int, a), (10int, b));
        lemma_linked_mirror(on, (0int, a), (10int, b));
    }
    if top_bottom(m) {
        let (a, b) = choose|a: int, b: int|
            0 <= a < 11 && 0 <= b < 11 && #[trigger] linked(m, (0int, a), (10int, b));
        lemma_linked_mirror(m, (0int, a), (10int, b));
        lemma_linked_mono(mm, on, (a, 0int), (b, 10int));
    }
    if left_right(m) {
        let (a, b) = choose|a: int, b: int|
            0 <= a < 11 && 0 <= b < 11 && #[trigger] linked(m, (a, 0int), (b, 10int));
        lemma_linked_mirror(m, (a, 0int), (b, 10int));
        lemma_linked_mono(mm, on, (0int, a), (10int, b));
    }
}

/// A larger set of cells links at least the edges that a smaller one links.
pub proof fn edges_mono(on: spec_fn((int, int)) -> bool, wider: spec_fn((int, int)) -> bool)
    requires
        forall|x: (int, int)| on(x) ==> #[trigger] wider(x),
    ensures
        left_right(on) ==> left_right(wider),
        top_bottom(on) ==> top_bottom(wider),
{
    if left_right(on) {
        let (a, b) = choose|a: int, b: int|
            0 <= a < 11 && 0 <= b < 11 && #[trigger] linked(on, (a, 0int), (b, 10int));
        lemma_linked_mono(on, wider, (a, 0int), (b, 10int));
    }
    if top_bottom(on) {
        let (a, b) = choose|a: int, b: int|
            0 <= a < 11 && 0 <= b < 11 && #[trigger] linked(on, (0int, a), (10int, b));
        lemma_linked_mono(on, wider, (0int, a), (10int, b));
    }
}

/// A full board has exactly one winner: where every cell of the board is
/// either black or white, black links left to right exactly when white does not
/// link top to bottom.
pub proof fn exactly_one_connects(
    black: spec_fn((int, int)) -> bool,
    white: spec_fn((int, int)) -> bool,
)
    requires
        forall|p: (int, int)| #[trigger] black(p) ==> inside(p),
        forall|p: (int, int)| #[trigger] white(p) <==> inside(p) && !black(p),
    ensures
        left_right(black) != top_bottom(white),
{
    let c = embed(black);
    let flip = mirror(white);
    let d = embed(flip);
    assert forall|p: (int, int)|
        0 <= p.0 && 0 <= p.1 && p.0 + p.1 < 21 implies #[trigger] d(p) == !c((p.1, p.0)) by {
        if p.0 < 11 && p.1 < 11 {
            assert(flip(p) == white((p.1, p.0)));
        }
    }
    assert forall|p: (int, int)|
        0 <= p.0 && 0 <= p.1 && p.0 + p.1 < 21 implies #[trigger] c(p) == !d((p.1, p.0)) by {
        assert(d((p.1, p.0)) == !c((p.0, p.1)));
    }
    assert forall|p: (int, int)| #[trigger] flip(p) implies inside(p) by {
        assert(white((p.1, p.0)));
    }
    lemma_tri_one(c, 21);
    left_right_mirror(white);
    if left_right(black) {
        lemma_embed_up(black);
        if left_right(flip) {
            lemma_embed_up(flip);
            lemma_tri_mirror(d, c, 21, true);
        }
    } else {
        if tri_win(c, 21, true) {
            lemma_embed_down(black);
        }
        lemma_tri_mirror(c, d, 21, false);
        lemma_embed_down(flip);
    }
}

/// Disjoint sets of cells cannot both link their edges.
pub proof fn never_both_connect(
    black: spec_fn((int, int)) -> bool,
    white: spec_fn((int, int)) -> bool,
)
    requires
        forall|p: (int, int)| #[trigger] black(p) ==> inside(p),
        forall|p: (int, int)| #[trigger] white(p) ==> inside(p) && !black(p),
    ensures
        !(left_right(black) && top_bottom(white)),
{
    let rest = |p: (int, int)| inside(p) && !black(p);
    exactly_one_connects(black, rest);
    edges_mono(white, rest);
}

} // verus!
