//! Greedy Myers over token texts: the longest common subsequence of two lists
//! of tokens, as the index pairs it matches.

use vstd::prelude::*;

verus! {

/// The texts of a list of string slices.
pub open spec fn views(xs: Seq<&str>) -> Seq<Seq<char>> {
    xs.map_values(|s: &str| s@)
}

/// Index pairs that match equal items of `a` and `b`, rising in both.
pub open spec fn matching(p: Seq<(usize, usize)>, a: Seq<Seq<char>>, b: Seq<Seq<char>>) -> bool {
    &&& forall|i: int|
        0 <= i < p.len() ==> (#[trigger] p[i]).0 < a.len() && p[i].1 < b.len() && a[p[i].0 as int]
            == b[p[i].1 as int]
    &&& forall|i: int, j: int|
        0 <= i < j < p.len() ==> (#[trigger] p[i]).0 < (#[trigger] p[j]).0 && p[i].1 < p[j].1
}

/// A matching that uses only the first `x` items of `a` and the first `y`
/// of `b`.
pub open spec fn matching_within(p: Seq<(usize, usize)>, a: Seq<Seq<char>>, b: Seq<Seq<char>>, x: int, y: int) -> bool {
    &&& matching(p, a, b)
    &&& forall|i: int| 0 <= i < p.len() ==> (#[trigger] p[i]).0 < x && p[i].1 < y
}

/// Some matching of the first `x` items of `a` with the first `y` of `b`
/// leaves at most `d` of them unmatched.
pub open spec fn reach(a: Seq<Seq<char>>, b: Seq<Seq<char>>, x: int, y: int, d: int) -> bool {
    exists|p: Seq<(usize, usize)>| #[trigger] matching_within(p, a, b, x, y) && x + y - 2 * p.len() <= d
}

/// After round `r`, the frontier holds on each diagonal a point at least as
/// far along as any point of it, inside the grid, that a matching leaving at
/// most `r` items unmatched reaches.
pub open spec fn furthest(v: Seq<isize>, off: int, r: int, a: Seq<Seq<char>>, b: Seq<Seq<char>>) -> bool {
    forall|x: int, y: int|
        0 <= x <= a.len() && 0 <= y <= b.len() && on_round(x - y, r) && #[trigger] reach(a, b, x, y, r)
            ==> v[off + x - y] >= x
}

/// A slide along diagonal `k` that stopped at `x` stopped for a reason: the
/// end of `a` or `b`, or two items that differ.
pub open spec fn stops(a: Seq<Seq<char>>, b: Seq<Seq<char>>, k: int, x: int) -> bool {
    x >= a.len() || x - k >= b.len() || x < 0 || x - k < 0 || a[x] != b[x - k]
}

/// `str`'s `==`: whether two texts are the same characters.
#[verifier::external_body]
pub(crate) fn str_eq(x: &str, y: &str) -> (r: bool)
    ensures
        r == (x@ == y@),
{
    x == y
}

/// Whether diagonal `k` is one that round `r` reaches.
pub open spec fn on_round(k: int, r: int) -> bool {
    -r <= k <= r && (k + r) % 2 == 0
}

/// Where round `r` starts on diagonal `k`, given the frontier `pv` it starts
/// from: one step down from diagonal `k + 1`, or one step right from `k - 1`,
/// whichever reaches further.
pub open spec fn start_x(pv: Seq<isize>, off: int, r: int, k: int) -> int {
    if k == -r || (k != r && pv[off + k - 1] < pv[off + k + 1]) {
        pv[off + k + 1] as int
    } else {
        pv[off + k - 1] + 1
    }
}

/// The diagonal `k` from `x0` to `x1` runs over matching items only.
pub open spec fn snake(a: Seq<Seq<char>>, b: Seq<Seq<char>>, k: int, x0: int, x1: int) -> bool {
    &&& x0 <= x1
    &&& forall|x: int|
        x0 <= x < x1 ==> 0 <= x < a.len() && 0 <= x - k < b.len() && #[trigger] a[x] == b[x - k]
}

/// A point of the frontier after round `r`, on diagonal `j`: in range, not at
/// the corner `(n, m)`, and, when it has gone past the corner's row or
/// column, with a neighbour further along towards it.
pub open spec fn point_ok(v: Seq<isize>, off: int, r: int, n: int, m: int, j: int) -> bool {
    let x = v[off + j] as int;
    let y = x - j;
    &&& 0 <= x <= n + r
    &&& 0 <= y <= m + r
    &&& !(x >= n && y >= m)
    &&& (y > m ==> j + 2 <= r && v[off + j + 2] >= x + 1)
    &&& (x > n ==> j - 2 >= -r && v[off + j - 2] >= n && v[off + j - 2] - (j - 2) >= y + 1)
}

/// The frontier after round `r`.
#[verifier::opaque]
pub open spec fn frontier_ok(v: Seq<isize>, off: int, r: int, n: int, m: int) -> bool {
    forall|j: int| #[trigger] on_round(j, r) ==> point_ok(v, off, r, n, m, j)
}


/// Round `d` has gone over the diagonals below `k`: they hold where the round
/// got to, each along a snake from where it started, none at the corner yet,
/// and with the neighbour facts of `point_ok` as far as the round has gone;
/// every other entry still holds the frontier the round started from.
#[verifier::opaque]
pub open spec fn round_progress(
    v: Seq<isize>,
    pv: Seq<isize>,
    off: int,
    d: int,
    k: int,
    n: int,
    m: int,
    a: Seq<Seq<char>>,
    b: Seq<Seq<char>>,
) -> bool {
    &&& v.len() == pv.len()
    &&& forall|idx: int|
        0 <= idx < v.len() && !(on_round(idx - off, d) && idx - off < k) ==> #[trigger] v[idx]
            == pv[idx]
    &&& forall|j: int| #[trigger] on_round(j, d) && j < k ==> progress_ok(v, pv, off, d, k, n, m, a, b, j)
}

/// One diagonal `j` that round `d` has been over, when it has got to `k`.
pub open spec fn progress_ok(
    v: Seq<isize>,
    pv: Seq<isize>,
    off: int,
    d: int,
    k: int,
    n: int,
    m: int,
    a: Seq<Seq<char>>,
    b: Seq<Seq<char>>,
    j: int,
) -> bool {
    let x = v[off + j] as int;
    let y = x - j;
    &&& snake(a, b, j, start_x(pv, off, d, j), x)
    &&& stops(a, b, j, x)
    &&& 0 <= x <= n + d
    &&& 0 <= y <= m + d
    &&& !(x >= n && y >= m)
    &&& (y > m ==> j + 2 <= d && (j + 2 < k ==> v[off + j + 2] >= x + 1) && (j + 2 == k ==> x
        <= pv[off + j + 1]))
    &&& (x > n ==> j - 2 >= -d && v[off + j - 2] >= n && v[off + j - 2] - (j - 2) >= y + 1)
}

/// One diagonal of a round: unless the point it reaches is the corner, the
/// round's progress moves on past it.
pub proof fn lemma_step(
    a: Seq<Seq<char>>,
    b: Seq<Seq<char>>,
    v: Seq<isize>,
    pv: Seq<isize>,
    off: int,
    d: int,
    k: int,
    n: int,
    m: int,
    x: isize,
)
    requires
        a.len() == n,
        b.len() == m,
        d >= 0,
        off >= d + 3,
        off + d + 3 <= pv.len(),
        on_round(k, d),
        round_progress(v, pv, off, d, k, n, m, a, b),
        snake(a, b, k, start_x(pv, off, d, k), x as int),
        stops(a, b, k, x as int),
        0 <= x <= n + d,
        0 <= x - k <= m + d,
        !(x >= n && x - k >= m),
        x - k > m ==> k + 2 <= d && x <= pv[off + k + 1],
        x > n ==> k - 2 >= -d && v[off + k - 2] >= n && v[off + k - 2] - (k - 2) >= x - k + 1,
        k - 2 >= -d ==> x >= pv[off + k - 1] + 1,
    ensures
        round_progress(v.update(off + k, x), pv, off, d, k + 2, n, m, a, b),
{
    reveal(round_progress);
    let v2 = v.update(off + k, x);
    assert forall|idx: int|
        0 <= idx < v2.len() && !(on_round(idx - off, d) && idx - off < k + 2) implies #[trigger] v2[idx]
        == pv[idx] by {
        assert(idx != off + k);
    }
    assert forall|j: int| #[trigger] on_round(j, d) && j < k + 2 implies progress_ok(
        v2,
        pv,
        off,
        d,
        k + 2,
        n,
        m,
        a,
        b,
        j,
    ) by {
        if j < k {
            assert(progress_ok(v, pv, off, d, k, n, m, a, b, j));
            assert(v2[off + j] == v[off + j]);
            if j - 2 >= -d {
                assert(v2[off + j - 2] == v[off + j - 2]);
            }
            if j + 2 < k {
                assert(v2[off + j + 2] == v[off + j + 2]);
            }
        } else {
            assert(j == k);
            if k - 2 >= -d {
                assert(v2[off + k - 2] == v[off + k - 2]);
            }
        }
    }
}

/// What round `d` knows of diagonal `k` when it gets to it, and what it
/// concludes of the point it reaches there.
pub proof fn lemma_point(
    v: Seq<isize>,
    pv: Seq<isize>,
    off: int,
    d: int,
    k: int,
    n: int,
    m: int,
    x: int,
)
    requires
        0 <= n,
        0 <= m,
        d >= 0,
        off >= d + 3,
        off + d + 3 <= pv.len(),
        pv.len() == v.len(),
        on_round(k, d),
        d == 0 ==> pv[off + 1] == 0,
        d > 0 && k > -d ==> point_ok(pv, off, d - 1, n, m, k - 1),
        d > 0 && k < d ==> point_ok(pv, off, d - 1, n, m, k + 1),
        d > 0 && k - 3 >= -(d - 1) ==> point_ok(pv, off, d - 1, n, m, k - 3),
        v[off + k - 1] == pv[off + k - 1],
        v[off + k + 1] == pv[off + k + 1],
        k - 2 >= -d ==> v[off + k - 2] >= start_x(pv, off, d, k - 2),
        start_x(pv, off, d, k) <= x,
        x > start_x(pv, off, d, k) ==> x <= n && x - k <= m,
    ensures
        0 <= x <= n + d,
        0 <= x - k <= m + d,
        x >= n && x - k >= m ==> x == n && x - k == m,
        x - k > m ==> k + 2 <= d && x <= pv[off + k + 1],
        x > n ==> k - 2 >= -d && v[off + k - 2] >= n && v[off + k - 2] - (k - 2) >= x - k + 1,
        k - 2 >= -d ==> x >= pv[off + k - 1] + 1,
{
}


/// Round `d` has been over every diagonal it reaches: the frontier it leaves.
pub proof fn lemma_round_done(
    v: Seq<isize>,
    pv: Seq<isize>,
    off: int,
    d: int,
    n: int,
    m: int,
    a: Seq<Seq<char>>,
    b: Seq<Seq<char>>,
)
    requires
        round_progress(v, pv, off, d, d + 2, n, m, a, b),
    ensures
        frontier_ok(v, off, d, n, m),
        forall|j: int| #[trigger] on_round(j, d) ==> snake(a, b, j, start_x(pv, off, d, j), v[off + j] as int),
        forall|j: int| #[trigger] on_round(j, d) ==> stops(a, b, j, v[off + j] as int),
{
    reveal(round_progress);
    reveal(frontier_ok);
    assert forall|j: int| #[trigger] on_round(j, d) implies stops(a, b, j, v[off + j] as int) by {
        assert(progress_ok(v, pv, off, d, d + 2, n, m, a, b, j));
    }
    assert forall|j: int| #[trigger] on_round(j, d) implies point_ok(v, off, d, n, m, j) by {
        assert(progress_ok(v, pv, off, d, d + 2, n, m, a, b, j));
    }
    assert forall|j: int| #[trigger] on_round(j, d) implies snake(
        a,
        b,
        j,
        start_x(pv, off, d, j),
        v[off + j] as int,
    ) by {
        assert(progress_ok(v, pv, off, d, d + 2, n, m, a, b, j));
    }
}

/// The frontier a round starts from: nothing before the first round, and
/// what the round before it left afterwards.
pub open spec fn before(v0: Seq<isize>, vs: Seq<Seq<isize>>, r: int) -> Seq<isize> {
    if r == 0 {
        v0
    } else {
        vs[r - 1]
    }
}

/// Round `r` went along diagonal `k` over matching items only.
pub open spec fn round_snake(
    a: Seq<Seq<char>>,
    b: Seq<Seq<char>>,
    v0: Seq<isize>,
    vs: Seq<Seq<isize>>,
    off: int,
    r: int,
    k: int,
) -> bool {
    snake(a, b, k, start_x(before(v0, vs, r), off, r, k), vs[r][off + k] as int)
}

/// What the rounds before `d` left behind: the frontier each started from,
/// over the diagonals it could reach, and a snake on each diagonal it reached.
#[verifier::opaque]
pub open spec fn history_ok(
    a: Seq<Seq<char>>,
    b: Seq<Seq<char>>,
    v0: Seq<isize>,
    vs: Seq<Seq<isize>>,
    trace: Seq<Vec<isize>>,
    off: int,
    d: int,
) -> bool {
    &&& vs.len() == d
    &&& trace.len() == d
    &&& forall|r: int|
        0 <= r < d ==> (#[trigger] trace[r])@ == before(v0, vs, r).subrange(
            off - r - 1,
            off + r + 2,
        )
    &&& forall|r: int, k: int|
        0 <= r < d && on_round(k, r) ==> #[trigger] round_snake(a, b, v0, vs, off, r, k)
    &&& forall|r: int| 0 <= r < d ==> (#[trigger] vs[r]).len() == v0.len()
    &&& forall|r: int| 0 <= r < d ==> frontier_ok(#[trigger] vs[r], off, r, a.len() as int, b.len() as int)
}


/// A point of a frontier.
pub proof fn lemma_frontier_point(v: Seq<isize>, off: int, r: int, n: int, m: int, j: int)
    requires
        frontier_ok(v, off, r, n, m),
        on_round(j, r),
    ensures
        point_ok(v, off, r, n, m, j),
{
    reveal(frontier_ok);
}

/// What the start of a round is: no progress yet.
pub proof fn lemma_round_start(
    v: Seq<isize>,
    off: int,
    d: int,
    n: int,
    m: int,
    a: Seq<Seq<char>>,
    b: Seq<Seq<char>>,
)
    ensures
        round_progress(v, v, off, d, -d, n, m, a, b),
{
    reveal(round_progress);
}

/// Round `d` at diagonal `k`, having slid from its start to `x`: either that is
/// the corner, or the round moves on.
pub proof fn lemma_advance(
    a: Seq<Seq<char>>,
    b: Seq<Seq<char>>,
    v: Seq<isize>,
    pv: Seq<isize>,
    off: int,
    d: int,
    k: int,
    n: int,
    m: int,
    x: isize,
)
    requires
        a.len() == n,
        b.len() == m,
        d >= 0,
        off >= d + 3,
        off + d + 3 <= pv.len(),
        on_round(k, d),
        round_progress(v, pv, off, d, k, n, m, a, b),
        d == 0 ==> pv[off + 1] == 0,
        d > 0 ==> frontier_ok(pv, off, d - 1, n, m),
        snake(a, b, k, start_x(pv, off, d, k), x as int),
        stops(a, b, k, x as int),
        x > start_x(pv, off, d, k) ==> x <= n && x - k <= m,
    ensures
        0 <= x <= n + d,
        0 <= x - k <= m + d,
        x >= n && x - k >= m ==> x == n && x - k == m,
        !(x >= n && x - k >= m) ==> round_progress(
            v.update(off + k, x),
            pv,
            off,
            d,
            k + 2,
            n,
            m,
            a,
            b,
        ),
{
    if d > 0 {
        if k > -d {
            lemma_frontier_point(pv, off, d - 1, n, m, k - 1);
        }
        if k < d {
            lemma_frontier_point(pv, off, d - 1, n, m, k + 1);
        }
        if k - 3 >= -(d - 1) {
            lemma_frontier_point(pv, off, d - 1, n, m, k - 3);
        }
    }
    reveal(round_progress);
    assert(v[off + k - 1] == pv[off + k - 1]);
    assert(v[off + k + 1] == pv[off + k + 1]);
    if k - 2 >= -d {
        assert(on_round(k - 2, d));
        assert(progress_ok(v, pv, off, d, k, n, m, a, b, k - 2));
    }
    lemma_point(v, pv, off, d, k, n, m, x as int);
    if !(x >= n && x - k >= m) {
        lemma_step(a, b, v, pv, off, d, k, n, m, x);
    }
}

/// A finished round joins the history.
pub proof fn lemma_history_push(
    a: Seq<Seq<char>>,
    b: Seq<Seq<char>>,
    v0: Seq<isize>,
    vs: Seq<Seq<isize>>,
    trace: Seq<Vec<isize>>,
    v: Seq<isize>,
    off: int,
    d: int,
)
    requires
        d >= 0,
        history_ok(a, b, v0, vs, trace.drop_last(), off, d),
        trace.len() == d + 1,
        trace[d]@ == before(v0, vs, d).subrange(off - d - 1, off + d + 2),
        round_progress(v, before(v0, vs, d), off, d, d + 2, a.len() as int, b.len() as int, a, b),
        v.len() == v0.len(),
    ensures
        history_ok(a, b, v0, vs.push(v), trace, off, d + 1),
        frontier_ok(v, off, d, a.len() as int, b.len() as int),
{
    reveal(history_ok);
    let pv = before(v0, vs, d);
    lemma_round_done(v, pv, off, d, a.len() as int, b.len() as int, a, b);
    let vs2 = vs.push(v);
    assert forall|r: int, kk: int| 0 <= r < d + 1 && on_round(kk, r) implies #[trigger] round_snake(
        a,
        b,
        v0,
        vs2,
        off,
        r,
        kk,
    ) by {
        if r < d {
            assert(round_snake(a, b, v0, vs, off, r, kk));
            assert(before(v0, vs2, r) == before(v0, vs, r));
        } else {
            assert(before(v0, vs2, r) == pv);
        }
    }
    assert forall|r: int| 0 <= r < d + 1 implies (#[trigger] trace[r])@ == before(
        v0,
        vs2,
        r,
    ).subrange(off - r - 1, off + r + 2) by {
        if r < d {
            assert(trace.drop_last()[r] == trace[r]);
            assert(before(v0, vs2, r) == before(v0, vs, r));
        } else {
            assert(before(v0, vs2, r) == pv);
        }
    }
    assert forall|r: int| 0 <= r < d + 1 implies (#[trigger] vs2[r]).len() == v0.len() by {
        if r < d {
            assert(vs2[r] == vs[r]);
        }
    }
    assert forall|r: int| 0 <= r < d + 1 implies frontier_ok(
        #[trigger] vs2[r],
        off,
        r,
        a.len() as int,
        b.len() as int,
    ) by {
        if r < d {
            assert(vs2[r] == vs[r]);
        }
    }
}

/// What the history says of one round.
pub proof fn lemma_history_round(
    a: Seq<Seq<char>>,
    b: Seq<Seq<char>>,
    v0: Seq<isize>,
    vs: Seq<Seq<isize>>,
    trace: Seq<Vec<isize>>,
    off: int,
    d: int,
    r: int,
    k: int,
)
    requires
        history_ok(a, b, v0, vs, trace, off, d),
        0 <= r < d,
        on_round(k, r),
    ensures
        round_snake(a, b, v0, vs, off, r, k),
        trace[r]@ == before(v0, vs, r).subrange(off - r - 1, off + r + 2),
        vs[r].len() == v0.len(),
        frontier_ok(vs[r], off, r, a.len() as int, b.len() as int),
{
    reveal(history_ok);
}

/// The history of no rounds.
pub proof fn lemma_history_empty(
    a: Seq<Seq<char>>,
    b: Seq<Seq<char>>,
    v0: Seq<isize>,
    trace: Seq<Vec<isize>>,
    off: int,
)
    requires
        trace.len() == 0,
    ensures
        history_ok(a, b, v0, seq![], trace, off, 0),
{
    reveal(history_ok);
}

/// Slides down diagonal `k` from `x0` for as long as the items match.
fn slide(a: &[&str], b: &[&str], x0: isize, k: isize) -> (x: isize)
    requires
        a@.len() + b@.len() <= isize::MAX / 16,
        0 <= x0 <= 2 * (a@.len() + b@.len()) + 3,
        0 <= x0 - k <= 2 * (a@.len() + b@.len()) + 3,
    ensures
        x0 <= x,
        x > x0 ==> x <= a@.len() && x - k <= b@.len(),
        snake(views(a@), views(b@), k as int, x0 as int, x as int),
        stops(views(a@), views(b@), k as int, x as int),
{
    let n = a.len() as isize;
    let m = b.len() as isize;
    let mut x = x0;
    let mut y = x0 - k;
    while x < n && y < m && str_eq(a[x as usize], b[y as usize])
        invariant
            x0 <= x,
            y == x - k,
            x > x0 ==> x <= n && y <= m,
            x <= x0 || x <= n,
            0 <= x0,
            0 <= x0 - k,
            n == a@.len(),
            m == b@.len(),
            n + m <= isize::MAX / 16,
            x0 <= 2 * (n + m) + 3,
            snake(views(a@), views(b@), k as int, x0 as int, x as int),
        decreases n - x,
    {
        assert(views(a@)[x as int] == a@[x as int]@);
        assert(views(b@)[y as int] == b@[y as int]@);
        x = x + 1;
        y = y + 1;
    }
    proof {
        if x < n && y < m {
            assert(views(a@)[x as int] == a@[x as int]@);
            assert(views(b@)[y as int] == b@[y as int]@);
        }
    }
    x
}


/// An entry a round has not been over yet is still the frontier it started
/// from.
pub proof fn lemma_untouched(
    v: Seq<isize>,
    pv: Seq<isize>,
    off: int,
    d: int,
    k: int,
    n: int,
    m: int,
    a: Seq<Seq<char>>,
    b: Seq<Seq<char>>,
    j: int,
)
    requires
        round_progress(v, pv, off, d, k, n, m, a, b),
        !(on_round(j, d) && j < k),
        0 <= off + j < v.len(),
    ensures
        v[off + j] == pv[off + j],
{
    reveal(round_progress);
    assert(v[off + j] == pv[off + j]);
}

/// Where a round starts on a diagonal lies in range.
pub proof fn lemma_start_bounds(pv: Seq<isize>, off: int, d: int, k: int, n: int, m: int)
    requires
        0 <= n,
        0 <= m,
        d >= 0,
        off >= d + 3,
        off + d + 3 <= pv.len(),
        on_round(k, d),
        d == 0 ==> pv[off + 1] == 0,
        d > 0 ==> frontier_ok(pv, off, d - 1, n, m),
    ensures
        0 <= start_x(pv, off, d, k) <= n + d,
        0 <= start_x(pv, off, d, k) - k <= m + d,
{
    if d > 0 {
        if k > -d {
            lemma_frontier_point(pv, off, d - 1, n, m, k - 1);
        }
        if k < d {
            lemma_frontier_point(pv, off, d - 1, n, m, k + 1);
        }
    }
}

/// A matching within the first `x` and `y` items pairs at most that many.
pub proof fn lemma_matching_size(p: Seq<(usize, usize)>, a: Seq<Seq<char>>, b: Seq<Seq<char>>, x: int, y: int)
    requires
        matching_within(p, a, b, x, y),
        0 <= x,
        0 <= y,
    ensures
        p.len() <= x,
        p.len() <= y,
{
    if p.len() > 0 {
        let l = p.len() - 1;
        assert forall|i: int| 0 <= i < p.len() implies (#[trigger] p[i]).0 >= i && p[i].1 >= i by {
            lemma_matching_floor(p, a, b, i);
        }
        assert(p[l].0 >= l && p[l].0 < x);
        assert(p[l].1 >= l && p[l].1 < y);
    }
}

proof fn lemma_matching_floor(p: Seq<(usize, usize)>, a: Seq<Seq<char>>, b: Seq<Seq<char>>, i: int)
    requires
        matching(p, a, b),
        0 <= i < p.len(),
    ensures
        p[i].0 >= i,
        p[i].1 >= i,
    decreases i,
{
    if i > 0 {
        lemma_matching_floor(p, a, b, i - 1);
        assert(p[i - 1].0 < p[i].0 && p[i - 1].1 < p[i].1);
    }
}

/// The pairs after the `i`-th leave room for themselves at the end of `a`
/// and of `b`.
proof fn lemma_matching_ceiling(p: Seq<(usize, usize)>, a: Seq<Seq<char>>, b: Seq<Seq<char>>, i: int)
    requires
        matching(p, a, b),
        0 <= i < p.len(),
    ensures
        p[i].0 + (p.len() - i) <= a.len(),
        p[i].1 + (p.len() - i) <= b.len(),
    decreases p.len() - i,
{
    if i < p.len() - 1 {
        lemma_matching_ceiling(p, a, b, i + 1);
        assert(p[i].0 < p[i + 1].0 && p[i].1 < p[i + 1].1);
    }
}

/// The pairs of a matching that touch the first `h` items of `a` or of `b`
/// come first, and there are at most `h` of them.
proof fn lemma_front(p: Seq<(usize, usize)>, a: Seq<Seq<char>>, b: Seq<Seq<char>>, h: int) -> (l: int)
    requires
        matching(p, a, b),
        h >= 0,
    ensures
        0 <= l <= h,
        l <= p.len(),
        forall|i: int| l <= i < p.len() ==> (#[trigger] p[i]).0 >= h && p[i].1 >= h,
    decreases p.len(),
{
    if p.len() == 0 {
        0
    } else {
        let last = p.len() - 1;
        if p[last].0 < h || p[last].1 < h {
            lemma_matching_floor(p, a, b, last);
            p.len() as int
        } else {
            let q = p.drop_last();
            assert(matching(q, a, b)) by {
                assert forall|i: int, j: int| 0 <= i < j < q.len() implies (#[trigger] q[i]).0 < (
                #[trigger] q[j]).0 && q[i].1 < q[j].1 by {
                    assert(q[i] == p[i] && q[j] == p[j]);
                }
                assert forall|i: int| 0 <= i < q.len() implies (#[trigger] q[i]).0 < a.len() && q[i].1
                    < b.len() && a[q[i].0 as int] == b[q[i].1 as int] by {
                    assert(q[i] == p[i]);
                }
            }
            let l = lemma_front(q, a, b, h);
            assert forall|i: int| l <= i < p.len() implies (#[trigger] p[i]).0 >= h && p[i].1 >= h by {
                if i < last {
                    assert(q[i] == p[i]);
                }
            }
            l
        }
    }
}

/// The pairs of a matching that touch the last `t` items of `a` or of `b`
/// come last, and there are at most `t` of them.
proof fn lemma_back_pairs(p: Seq<(usize, usize)>, a: Seq<Seq<char>>, b: Seq<Seq<char>>, t: int) -> (s: int)
    requires
        matching(p, a, b),
        t >= 0,
    ensures
        0 <= s <= t,
        s <= p.len(),
        forall|i: int| 0 <= i < p.len() - s ==> (#[trigger] p[i]).0 < a.len() - t && p[i].1 < b.len() - t,
    decreases p.len(),
{
    if p.len() == 0 {
        0
    } else {
        if p[0].0 >= a.len() - t || p[0].1 >= b.len() - t {
            lemma_matching_ceiling(p, a, b, 0);
            p.len() as int
        } else {
            let q = p.drop_first();
            assert(matching(q, a, b)) by {
                assert forall|i: int, j: int| 0 <= i < j < q.len() implies (#[trigger] q[i]).0 < (
                #[trigger] q[j]).0 && q[i].1 < q[j].1 by {
                    assert(q[i] == p[i + 1] && q[j] == p[j + 1]);
                }
                assert forall|i: int| 0 <= i < q.len() implies (#[trigger] q[i]).0 < a.len() && q[i].1
                    < b.len() && a[q[i].0 as int] == b[q[i].1 as int] by {
                    assert(q[i] == p[i + 1]);
                }
            }
            let s = lemma_back_pairs(q, a, b, t);
            assert forall|i: int| 0 <= i < p.len() - s implies (#[trigger] p[i]).0 < a.len() - t && p[i].1
                < b.len() - t by {
                if i > 0 {
                    assert(q[i - 1] == p[i]);
                    assert(p[0].0 < p[i].0);
                }
            }
            s
        }
    }
}

/// Any matching of `a` and `b`, less its pairs that touch the first `h` or
/// the last `t` items of either side, is a matching of what lies between,
/// and costs no more.
pub proof fn lemma_trim(p: Seq<(usize, usize)>, a: Seq<Seq<char>>, b: Seq<Seq<char>>, h: int, t: int) -> (q: Seq<(usize, usize)>)
    requires
        matching(p, a, b),
        0 <= h,
        0 <= t,
        h + t <= a.len(),
        h + t <= b.len(),
    ensures
        matching(q, a.subrange(h, a.len() - t), b.subrange(h, b.len() - t)),
        q.len() + h + t >= p.len(),
{
    let l = lemma_front(p, a, b, h);
    let s = lemma_back_pairs(p, a, b, t);
    let am = a.subrange(h, a.len() - t);
    let bm = b.subrange(h, b.len() - t);
    let n = if l <= p.len() - s { p.len() - s - l } else { 0 };
    let q = Seq::new(n as nat, |i: int| ((p[l + i].0 - h) as usize, (p[l + i].1 - h) as usize));
    assert forall|i: int| 0 <= i < q.len() implies (#[trigger] q[i]).0 < am.len() && q[i].1 < bm.len()
        && am[q[i].0 as int] == bm[q[i].1 as int] by {
        assert(p[l + i].0 >= h && p[l + i].1 >= h);
        assert(p[l + i].0 < a.len() - t && p[l + i].1 < b.len() - t);
        assert(a[p[l + i].0 as int] == b[p[l + i].1 as int]);
    }
    assert forall|i: int, j: int| 0 <= i < j < q.len() implies (#[trigger] q[i]).0 < (#[trigger] q[j]).0
        && q[i].1 < q[j].1 by {
        assert(p[l + i].0 < p[l + j].0 && p[l + i].1 < p[l + j].1);
        assert(p[l + i].0 >= h && p[l + i].1 >= h);
    }
    q
}

/// What a reachable point costs is at least how far its diagonal is from
/// the middle.
pub proof fn lemma_reach_cost(a: Seq<Seq<char>>, b: Seq<Seq<char>>, x: int, y: int, d: int)
    requires
        reach(a, b, x, y, d),
        0 <= x,
        0 <= y,
    ensures
        d >= x - y,
        d >= y - x,
{
    let p = choose|p: Seq<(usize, usize)>| #[trigger] matching_within(p, a, b, x, y) && x + y - 2 * p.len() <= d;
    lemma_matching_size(p, a, b, x, y);
}

/// A point reached by a matching: follow its matches back along the
/// diagonal to `xs`; from there it is the origin, or one step away from a
/// point on a neighbouring diagonal reached with one unmatched item fewer.
proof fn lemma_back(a: Seq<Seq<char>>, b: Seq<Seq<char>>, x: int, y: int, c: int, p: Seq<(usize, usize)>) -> (xs: int)
    requires
        matching_within(p, a, b, x, y),
        x + y - 2 * p.len() <= c,
        0 <= x <= a.len(),
        0 <= y <= b.len(),
    ensures
        0 <= xs <= x,
        0 <= xs - (x - y) <= y,
        forall|i: int| xs <= i < x ==> #[trigger] a[i] == b[i - (x - y)],
        (xs == 0 && xs - (x - y) == 0) || (xs >= 1 && reach(a, b, xs - 1, xs - (x - y), c - 1)) || (xs
            - (x - y) >= 1 && reach(a, b, xs, xs - (x - y) - 1, c - 1)),
    decreases p.len(),
{
    if p.len() > 0 && p.last().0 == x - 1 && p.last().1 == y - 1 {
        let q = p.drop_last();
        assert(matching_within(q, a, b, x - 1, y - 1)) by {
            assert forall|i: int| 0 <= i < q.len() implies (#[trigger] q[i]).0 < x - 1 && q[i].1 < y - 1 by {
                assert(p[i].0 < p[p.len() - 1].0);
                assert(p[i].1 < p[p.len() - 1].1);
            }
        }
        assert(a[x - 1] == b[y - 1]) by {
            assert(a[p[p.len() - 1].0 as int] == b[p[p.len() - 1].1 as int]);
        }
        let xs = lemma_back(a, b, x - 1, y - 1, c, q);
        xs
    } else if x == 0 && y == 0 {
        0
    } else if x >= 1 && (p.len() == 0 || p.last().0 < x - 1) {
        assert(matching_within(p, a, b, x - 1, y)) by {
            assert forall|i: int| 0 <= i < p.len() implies (#[trigger] p[i]).0 < x - 1 && p[i].1 < y by {
                if i < p.len() - 1 {
                    assert(p[i].0 < p[p.len() - 1].0);
                }
            }
        }
        x
    } else {
        if x == 0 {
            assert(p.len() == 0) by {
                if p.len() > 0 {
                    assert(p[0].0 < x);
                }
            }
        }
        assert(y >= 1);
        assert(matching_within(p, a, b, x, y - 1)) by {
            assert forall|i: int| 0 <= i < p.len() implies (#[trigger] p[i]).0 < x && p[i].1 < y - 1 by {
                assert(p.last().0 == x - 1);
                assert(p.last().1 < y - 1);
                if i < p.len() - 1 {
                    assert(p[i].1 < p[p.len() - 1].1);
                }
            }
        }
        x
    }
}

/// A round whose every diagonal slid from where it started as far as the
/// items match reaches, on each diagonal, at least as far as any point a
/// matching leaving at most that many items unmatched reaches.
pub proof fn lemma_round_furthest(
    a: Seq<Seq<char>>,
    b: Seq<Seq<char>>,
    v: Seq<isize>,
    pv: Seq<isize>,
    off: int,
    d: int,
)
    requires
        d >= 0,
        off >= d + 3,
        off + d + 3 <= pv.len(),
        pv.len() == v.len(),
        d == 0 ==> pv[off + 1] == 0,
        d > 0 ==> furthest(pv, off, d - 1, a, b),
        forall|j: int| #[trigger] on_round(j, d) ==> start_x(pv, off, d, j) >= 0,
        forall|j: int|
            #[trigger] on_round(j, d) ==> snake(a, b, j, start_x(pv, off, d, j), v[off + j] as int) && stops(
                a,
                b,
                j,
                v[off + j] as int,
            ),
    ensures
        furthest(v, off, d, a, b),
{
    assert forall|x: int, y: int|
        0 <= x <= a.len() && 0 <= y <= b.len() && on_round(x - y, d) && #[trigger] reach(a, b, x, y, d)
            implies v[off + x - y] >= x by {
        let k = x - y;
        let p = choose|p: Seq<(usize, usize)>| #[trigger] matching_within(p, a, b, x, y) && x + y - 2 * p.len() <= d;
        let xs = lemma_back(a, b, x, y, d, p);
        let ys = xs - k;
        let s = start_x(pv, off, d, k);
        // Where the round starts on this diagonal is no earlier than `xs`.
        if xs == 0 && ys == 0 {
            assert(s >= 0);
        } else if xs >= 1 && reach(a, b, xs - 1, ys, d - 1) {
            lemma_reach_cost(a, b, xs - 1, ys, d - 1);
            assert(d > 0);
            assert(on_round(xs - 1 - ys, d - 1));
            assert(pv[off + (xs - 1) - ys] >= xs - 1);
            assert(k != -d);
            if k == d || !(pv[off + k - 1] < pv[off + k + 1]) {
                assert(s == pv[off + k - 1] + 1);
            } else {
                assert(s == pv[off + k + 1]);
            }
        } else {
            assert(ys >= 1 && reach(a, b, xs, ys - 1, d - 1));
            lemma_reach_cost(a, b, xs, ys - 1, d - 1);
            assert(d > 0);
            assert(on_round(xs - (ys - 1), d - 1));
            assert(pv[off + xs - (ys - 1)] >= xs);
            assert(k != d);
            if k == -d || pv[off + k - 1] < pv[off + k + 1] {
                assert(s == pv[off + k + 1]);
            } else {
                assert(s == pv[off + k - 1] + 1);
            }
        }
        assert(s >= xs);
        assert(snake(a, b, k, s, v[off + k] as int) && stops(a, b, k, v[off + k] as int));
        if s < x && v[off + k] < x {
            let e = v[off + k] as int;
            assert(a[e] == b[e - k]);
        }
    }
}

/// When no round before `d` reached the corner, every matching leaves at
/// least `d` items unmatched.
pub proof fn lemma_no_earlier(a: Seq<Seq<char>>, b: Seq<Seq<char>>, vs: Seq<Seq<isize>>, off: int, d: int, q: Seq<(usize, usize)>)
    requires
        0 <= d <= vs.len(),
        forall|r: int| 0 <= r < d ==> #[trigger] furthest(vs[r], off, r, a, b),
        forall|r: int| 0 <= r < d ==> frontier_ok(#[trigger] vs[r], off, r, a.len() as int, b.len() as int),
        matching(q, a, b),
    ensures
        a.len() + b.len() - 2 * q.len() >= d,
{
    let n = a.len() as int;
    let m = b.len() as int;
    let c = n + m - 2 * q.len();
    if c < d {
        assert(matching_within(q, a, b, n, m));
        assert(reach(a, b, n, m, c));
        lemma_reach_cost(a, b, n, m, c);
        assert((n - m + c) % 2 == 0) by {
            assert(n - m + c == 2 * (n - q.len()));
        }
        assert(on_round(n - m, c));
        assert(furthest(vs[c], off, c, a, b));
        assert(vs[c][off + n - m] >= n);
        lemma_frontier_point(vs[c], off, c, n, m, n - m);
    }
}

/// Myers is bounded by the size of the difference rather than the size of the
/// text: two long drafts a few words apart cost a few words of work once the
/// shared head and tail are off.
pub const TRACE_CEILING: usize = 2000;

/// Where a slide along diagonal `k` from `x` stops: at the first pair of
/// items that differ, or at the end of `a` or `b`.
pub open spec fn slide_to(a: Seq<Seq<char>>, b: Seq<Seq<char>>, x: int, k: int) -> int
    decreases a.len() - x,
{
    if 0 <= x < a.len() && 0 <= x - k < b.len() && a[x] == b[x - k] {
        slide_to(a, b, x + 1, k)
    } else {
        x
    }
}

/// The frontier after round `d`, from the frontier `pv` it started from:
/// each diagonal the round reaches slid as far as it goes from where the
/// round starts on it, every other entry as it was.
pub open spec fn next_frontier(a: Seq<Seq<char>>, b: Seq<Seq<char>>, pv: Seq<isize>, off: int, d: int) -> Seq<isize> {
    Seq::new(
        pv.len(),
        |i: int|
            if on_round(i - off, d) {
                slide_to(a, b, start_x(pv, off, d, i - off), i - off) as isize
            } else {
                pv[i]
            },
    )
}

/// The frontier round `d` starts from: all zeros before the first round,
/// each later one what the round before it left.
pub open spec fn frontier_at(a: Seq<Seq<char>>, b: Seq<Seq<char>>, len: nat, off: int, d: int) -> Seq<isize>
    decreases d,
{
    if d <= 0 {
        Seq::new(len, |i: int| 0isize)
    } else {
        next_frontier(a, b, frontier_at(a, b, len, off, d - 1), off, d - 1)
    }
}

/// Round `d`, starting from `pv`, slides along the corner's diagonal to the
/// corner.
pub open spec fn reaches_from(a: Seq<Seq<char>>, b: Seq<Seq<char>>, pv: Seq<isize>, off: int, d: int) -> bool {
    let k = a.len() - b.len();
    let x = slide_to(a, b, start_x(pv, off, d, k), k);
    on_round(k, d) && x >= a.len() && x - k >= b.len()
}

/// The first round from `d` to `limit` that reaches the corner, or -1.
pub open spec fn first_reach(a: Seq<Seq<char>>, b: Seq<Seq<char>>, len: nat, off: int, d: int, limit: int) -> int
    decreases limit + 1 - d,
{
    if d > limit {
        -1
    } else if reaches_from(a, b, frontier_at(a, b, len, off, d), off, d) {
        d
    } else {
        first_reach(a, b, len, off, d + 1, limit)
    }
}

/// Round `d`'s diagonal through `(x, y)` followed back from there: the
/// neighbouring diagonal the round came from, and how far along it.
pub open spec fn came_from(pv: Seq<isize>, off: int, d: int, x: int, y: int) -> (int, int) {
    let k = x - y;
    let prev_k = if k == -d || (k != d && pv[off + k - 1] < pv[off + k + 1]) {
        k + 1
    } else {
        k - 1
    };
    let prev_x = pv[off + prev_k] as int;
    (prev_x, prev_x - prev_k)
}

/// The matches along a diagonal from `(x, y)` back towards `(px, py)`, the
/// nearest first.
pub open spec fn run_back(x: int, y: int, px: int, py: int) -> Seq<(usize, usize)> {
    let s = if x - px < y - py { x - px } else { y - py };
    Seq::new(if s > 0 { s as nat } else { 0 }, |i: int| ((x - 1 - i) as usize, (y - 1 - i) as usize))
}

/// The matches greedy Myers finds following the rounds back from round `d`
/// at `(x, y)`, the last first.
pub open spec fn trail(a: Seq<Seq<char>>, b: Seq<Seq<char>>, len: nat, off: int, d: int, x: int, y: int) -> Seq<(usize, usize)>
    decreases d,
{
    let p = came_from(frontier_at(a, b, len, off, d), off, d, x, y);
    if d <= 0 {
        run_back(x, y, p.0, p.1)
    } else {
        run_back(x, y, p.0, p.1) + trail(a, b, len, off, d - 1, p.0, p.1)
    }
}

/// The pairs greedy Myers returns for `a` and `b`: the first round that
/// reaches the corner, within `TRACE_CEILING` rounds, followed back to the
/// origin; `None` when no round does.
pub open spec fn greedy(a: Seq<Seq<char>>, b: Seq<Seq<char>>) -> Option<Seq<(usize, usize)>> {
    let n = a.len() as int;
    let m = b.len() as int;
    let off = n + m + 3;
    let len = (2 * off + 1) as nat;
    let ceiling = if n + m < TRACE_CEILING { n + m } else { TRACE_CEILING as int };
    let de = first_reach(a, b, len, off, 0, ceiling);
    if de < 0 {
        None
    } else {
        Some(trail(a, b, len, off, de, n, m).reverse())
    }
}

/// Items `x` of `a` and `x - k` of `b` exist and are the same.
pub open spec fn matches_at(a: Seq<Seq<char>>, b: Seq<Seq<char>>, x: int, k: int) -> bool {
    0 <= x < a.len() && 0 <= x - k < b.len() && a[x] == b[x - k]
}

/// A slide that ran over matching items and stopped for a reason stopped
/// where `slide_to` does.
proof fn lemma_slide_to(a: Seq<Seq<char>>, b: Seq<Seq<char>>, k: int, x0: int, x1: int)
    requires
        snake(a, b, k, x0, x1),
        stops(a, b, k, x1),
    ensures
        x1 == slide_to(a, b, x0, k),
{
    assert forall|x: int| x0 <= x < x1 implies #[trigger] matches_at(a, b, x, k) by {
        let _t = a[x];
    }
    lemma_slide_matches(a, b, k, x0, x1);
}

proof fn lemma_slide_matches(a: Seq<Seq<char>>, b: Seq<Seq<char>>, k: int, x0: int, x1: int)
    requires
        x0 <= x1,
        forall|x: int| x0 <= x < x1 ==> #[trigger] matches_at(a, b, x, k),
        stops(a, b, k, x1),
    ensures
        x1 == slide_to(a, b, x0, k),
    decreases x1 - x0,
{
    if x0 < x1 {
        assert(matches_at(a, b, x0, k));
        lemma_slide_matches(a, b, k, x0 + 1, x1);
    }
}

/// A finished round leaves exactly the next frontier, and did not reach the
/// corner.
proof fn lemma_round_exact(
    v: Seq<isize>,
    pv: Seq<isize>,
    off: int,
    d: int,
    n: int,
    m: int,
    a: Seq<Seq<char>>,
    b: Seq<Seq<char>>,
)
    requires
        round_progress(v, pv, off, d, d + 2, n, m, a, b),
        n == a.len(),
        m == b.len(),
    ensures
        v == next_frontier(a, b, pv, off, d),
        !reaches_from(a, b, pv, off, d),
{
    lemma_round_done(v, pv, off, d, n, m, a, b);
    reveal(round_progress);
    reveal(frontier_ok);
    let nf = next_frontier(a, b, pv, off, d);
    assert forall|i: int| 0 <= i < v.len() implies v[i] == nf[i] by {
        let j = i - off;
        if on_round(j, d) {
            assert(off + j == i);
            lemma_slide_to(a, b, j, start_x(pv, off, d, j), v[i] as int);
        }
    }
    assert(v =~= nf);
    let k = n - m;
    if on_round(k, d) {
        lemma_slide_to(a, b, k, start_x(pv, off, d, k), v[off + k] as int);
        assert(point_ok(v, off, d, n, m, k));
    }
}

/// Each round so far left the next frontier of the one it started from,
/// and none reached the corner.
#[verifier::opaque]
pub open spec fn rounds_exact(a: Seq<Seq<char>>, b: Seq<Seq<char>>, v0: Seq<isize>, vs: Seq<Seq<isize>>, off: int) -> bool {
    forall|r: int|
        0 <= r < vs.len() ==> #[trigger] vs[r] == next_frontier(a, b, before(v0, vs, r), off, r)
            && !reaches_from(a, b, before(v0, vs, r), off, r)
}

proof fn lemma_rounds_push(
    a: Seq<Seq<char>>,
    b: Seq<Seq<char>>,
    v0: Seq<isize>,
    vs: Seq<Seq<isize>>,
    v: Seq<isize>,
    pv: Seq<isize>,
    off: int,
    d: int,
)
    requires
        rounds_exact(a, b, v0, vs, off),
        vs.len() == d,
        pv == before(v0, vs, d),
        v == next_frontier(a, b, pv, off, d),
        !reaches_from(a, b, pv, off, d),
    ensures
        rounds_exact(a, b, v0, vs.push(v), off),
{
    reveal(rounds_exact);
    let ws = vs.push(v);
    assert forall|r: int| 0 <= r < ws.len() implies #[trigger] ws[r] == next_frontier(a, b, before(v0, ws, r), off, r)
        && !reaches_from(a, b, before(v0, ws, r), off, r) by {
        if r < vs.len() {
            assert(ws[r] == vs[r]);
            assert(before(v0, ws, r) == before(v0, vs, r));
        } else {
            assert(before(v0, ws, r) == pv);
        }
    }
}

/// Rounds that each left the next frontier of the one they started from,
/// from all zeros, started from the frontiers `frontier_at` names.
proof fn lemma_frontier_history(
    a: Seq<Seq<char>>,
    b: Seq<Seq<char>>,
    v0: Seq<isize>,
    vs: Seq<Seq<isize>>,
    off: int,
    r: int,
)
    requires
        0 <= r <= vs.len(),
        forall|i: int| 0 <= i < v0.len() ==> v0[i] == 0,
        rounds_exact(a, b, v0, vs, off),
    ensures
        frontier_at(a, b, v0.len(), off, r) == before(v0, vs, r),
    decreases r,
{
    reveal(rounds_exact);
    if r == 0 {
        assert(frontier_at(a, b, v0.len(), off, 0) =~= v0);
    } else {
        lemma_frontier_history(a, b, v0, vs, off, r - 1);
        assert(vs[r - 1] == next_frontier(a, b, before(v0, vs, r - 1), off, r - 1));
    }
}

/// The first round from `d` on that reaches the corner is `de`, when none
/// before it does and it does.
proof fn lemma_first_reach(a: Seq<Seq<char>>, b: Seq<Seq<char>>, len: nat, off: int, d: int, de: int, limit: int)
    requires
        0 <= d <= de <= limit,
        forall|r: int| d <= r < de ==> !#[trigger] reaches_from(a, b, frontier_at(a, b, len, off, r), off, r),
        reaches_from(a, b, frontier_at(a, b, len, off, de), off, de),
    ensures
        first_reach(a, b, len, off, d, limit) == de,
    decreases de - d,
{
    if d < de {
        assert(!reaches_from(a, b, frontier_at(a, b, len, off, d), off, d));
        lemma_first_reach(a, b, len, off, d + 1, de, limit);
    }
}

/// No round from `d` to `limit` reaches the corner.
proof fn lemma_no_reach(a: Seq<Seq<char>>, b: Seq<Seq<char>>, len: nat, off: int, d: int, limit: int)
    requires
        0 <= d,
        forall|r: int| d <= r <= limit ==> !#[trigger] reaches_from(a, b, frontier_at(a, b, len, off, r), off, r),
    ensures
        first_reach(a, b, len, off, d, limit) == -1,
    decreases limit + 1 - d,
{
    if d <= limit {
        assert(!reaches_from(a, b, frontier_at(a, b, len, off, d), off, d));
        lemma_no_reach(a, b, len, off, d + 1, limit);
    }
}

/// Greedy Myers, returning the matched index pairs -- a longest common
/// subsequence of tokens. `None` when the two are further apart than
/// `TRACE_CEILING` edits, where the trace would cost more memory than the
/// answer is worth.
#[verifier::spinoff_prover]
#[verifier::rlimit(100)]
pub fn myers(a: &[&str], b: &[&str]) -> (r: Option<Vec<(usize, usize)>>)
    requires
        a@.len() + b@.len() <= isize::MAX / 16,
    ensures
        r matches Some(p) ==> matching(p@, views(a@), views(b@)),
        r matches Some(p) ==> forall|q: Seq<(usize, usize)>|
            #[trigger] matching(q, views(a@), views(b@)) ==> q.len() <= p@.len(),
        r matches Some(p) ==> a@.len() + b@.len() - 2 * p@.len() <= TRACE_CEILING,
        r matches Some(p) ==> greedy(views(a@), views(b@)) == Some(p@),
        r is None ==> greedy(views(a@), views(b@)) is None,
        r is None ==> forall|q: Seq<(usize, usize)>|
            #[trigger] matching(q, views(a@), views(b@)) ==> a@.len() + b@.len() - 2 * q.len() > TRACE_CEILING,
{
    let ghost va = views(a@);
    let ghost vb = views(b@);
    let n: isize = a.len() as isize;
    let m: isize = b.len() as isize;
    let ceiling: isize = if ((n + m) as usize) < TRACE_CEILING {
        n + m
    } else {
        TRACE_CEILING as isize
    };
    // Furthest-reaching x on each diagonal k, indexed k + offset.
    let offset: usize = (n + m) as usize + 3;
    let mut v: Vec<isize> = Vec::new();
    let mut fill: usize = 0;
    while fill < 2 * offset + 1
        invariant
            offset == n + m + 3,
            n + m <= isize::MAX / 16,
            fill <= 2 * offset + 1,
            v@.len() == fill,
            forall|i: int| 0 <= i < fill ==> v@[i] == 0,
        decreases 2 * offset + 1 - fill,
    {
        v.push(0);
        fill = fill + 1;
    }
    let ghost v0 = v@;
    let ghost off = offset as int;
    // One snapshot per round, kept only over the diagonals that round can
    // reach, so the trace costs O(d^2) and not O(d * (n + m)).
    let mut trace: Vec<Vec<isize>> = Vec::new();
    let ghost mut vs: Seq<Seq<isize>> = seq![];
    let ghost mut kf: int = 0;
    proof {
        lemma_history_empty(va, vb, v0, trace@, off);
        assert(rounds_exact(va, vb, v0, vs, off)) by {
            reveal(rounds_exact);
        }
    }
    let mut found: Option<isize> = None;
    let mut d: isize = 0;
    while d <= ceiling
        invariant_except_break
            found is None,
            d == 0 ==> v@ == v0,
            d > 0 ==> v@ == vs[d - 1] && frontier_ok(v@, off, d - 1, n as int, m as int),
            history_ok(va, vb, v0, vs, trace@, off, d as int),
            vs.len() == d,
            trace@.len() == d,
        invariant
            0 <= d <= ceiling + 1,
            ceiling <= n + m,
            n == va.len(),
            m == vb.len(),
            va == views(a@),
            vb == views(b@),
            n + m <= isize::MAX / 16,
            off == offset,
            offset == n + m + 3,
            v0.len() == 2 * offset + 1,
            forall|i: int| 0 <= i < v0.len() ==> v0[i] == 0,
            v@.len() == 2 * offset + 1,
            forall|r: int| 0 <= r < vs.len() ==> #[trigger] furthest(vs[r], off, r, va, vb),
            rounds_exact(va, vb, v0, vs, off),
            found matches Some(fd) ==> {
                &&& fd == d
                &&& d <= ceiling
                &&& vs.len() == d
                &&& trace@.len() == d + 1
                &&& history_ok(va, vb, v0, vs, trace@.drop_last(), off, d as int)
                &&& trace@[d as int]@ == before(v0, vs, d as int).subrange(
                    off - d - 1,
                    off + d + 2,
                )
                &&& (d > 0 ==> frontier_ok(vs[d - 1], off, d - 1, n as int, m as int))
                &&& on_round(kf, d as int)
                &&& kf == n - m
                &&& snake(va, vb, kf, start_x(before(v0, vs, d as int), off, d as int, kf), n as int)
            },
        ensures
            found is None ==> history_ok(va, vb, v0, vs, trace@, off, d as int) && vs.len() == d && d
                == ceiling + 1,
        decreases ceiling + 1 - d,
    {
        let lo = offset - (d as usize) - 1;
        let hi = offset + (d as usize) + 1;
        let ghost pv = v@;
        assert(pv == before(v0, vs, d as int));
        let mut snap: Vec<isize> = Vec::new();
        let mut j = lo;
        while j <= hi
            invariant
                lo <= j <= hi + 1,
                hi < v@.len(),
                v@.len() == 2 * offset + 1,
                offset == n + m + 3,
                n + m <= isize::MAX / 16,
                snap@ == v@.subrange(lo as int, j as int),
            decreases hi + 1 - j,
        {
            snap.push(v[j]);
            j = j + 1;
        }
        let ghost trace_before = trace@;
        trace.push(snap);
        assert(trace@.drop_last() =~= trace_before);
        proof {
            lemma_round_start(v@, off, d as int, n as int, m as int, va, vb);
        }
        let mut k: isize = -d;
        while k <= d
            invariant_except_break
                found is None,
                round_progress(v@, pv, off, d as int, k as int, n as int, m as int, va, vb),
            invariant
                -d <= k <= d + 2,
                (k + d) % 2 == 0,
                0 <= d <= ceiling,
                ceiling <= n + m,
                n == va.len(),
                m == vb.len(),
                va == views(a@),
                vb == views(b@),
                n + m <= isize::MAX / 16,
                off == offset,
                offset == n + m + 3,
                v@.len() == 2 * offset + 1,
                pv.len() == 2 * offset + 1,
                d == 0 ==> pv[off + 1] == 0,
                d > 0 ==> frontier_ok(pv, off, d - 1, n as int, m as int),
                pv == before(v0, vs, d as int),
                vs.len() == d,
                trace@.len() == d + 1,
                history_ok(va, vb, v0, vs, trace@.drop_last(), off, d as int),
                trace@[d as int]@ == before(v0, vs, d as int).subrange(off - d - 1, off + d + 2),
                d > 0 ==> frontier_ok(vs[d - 1], off, d - 1, n as int, m as int),
                forall|r: int| 0 <= r < vs.len() ==> #[trigger] furthest(vs[r], off, r, va, vb),
                found matches Some(fd) ==> {
                    &&& fd == d
                    &&& on_round(kf, d as int)
                    &&& kf == n - m
                    &&& snake(va, vb, kf, start_x(pv, off, d as int, kf), n as int)
                },
            ensures
                found is None ==> round_progress(
                    v@,
                    pv,
                    off,
                    d as int,
                    d + 2,
                    n as int,
                    m as int,
                    va,
                    vb,
                ),
            decreases d + 2 - k,
        {
            let idx = (k + offset as isize) as usize;
            proof {
                lemma_untouched(v@, pv, off, d as int, k as int, n as int, m as int, va, vb, k - 1);
                lemma_untouched(v@, pv, off, d as int, k as int, n as int, m as int, va, vb, k + 1);
                lemma_start_bounds(pv, off, d as int, k as int, n as int, m as int);
            }
            let x0 = if k == -d || (k != d && v[idx - 1] < v[idx + 1]) {
                v[idx + 1]
            } else {
                v[idx - 1] + 1
            };
            assert(x0 == start_x(pv, off, d as int, k as int));
            let x = slide(a, b, x0, k);
            proof {
                lemma_advance(va, vb, v@, pv, off, d as int, k as int, n as int, m as int, x);
            }
            v.set(idx, x);
            if x >= n && x - k >= m {
                proof {
                    kf = k as int;
                }
                found = Some(d);
                break;
            }
            k = k + 2;
        }
        if found.is_some() {
            break;
        }
        proof {
            lemma_round_exact(v@, pv, off, d as int, n as int, m as int, va, vb);
            assert(pv == before(v0, vs, d as int));
            lemma_round_done(v@, pv, off, d as int, n as int, m as int, va, vb);
            assert forall|j: int| #[trigger] on_round(j, d as int) implies start_x(pv, off, d as int, j) >= 0 by {
                lemma_start_bounds(pv, off, d as int, j, n as int, m as int);
            }
            if d > 0 {
                assert(furthest(vs[d - 1], off, d - 1, va, vb));
            }
            lemma_round_furthest(va, vb, v@, pv, off, d as int);
            lemma_history_push(va, vb, v0, vs, trace@, v@, off, d as int);
            let old_vs = vs;
            vs = vs.push(v@);
            assert forall|r: int| 0 <= r < vs.len() implies #[trigger] furthest(vs[r], off, r, va, vb) by {
                if r < old_vs.len() {
                    assert(vs[r] == old_vs[r]);
                }
            }
            lemma_rounds_push(va, vb, v0, old_vs, v@, pv, off, d as int);
        }
        d = d + 1;
    }
    let d_end = match found {
        Some(fd) => fd,
        None => {
            proof {
                assert forall|r: int| 0 <= r < d implies frontier_ok(#[trigger] vs[r], off, r, n as int, m as int) by {
                    lemma_history_round(va, vb, v0, vs, trace@, off, d as int, r, r);
                }
                assert forall|q: Seq<(usize, usize)>| #[trigger] matching(q, views(a@), views(b@)) implies a@.len()
                    + b@.len() - 2 * q.len() > TRACE_CEILING by {
                    lemma_no_earlier(va, vb, vs, off, d as int, q);
                    let e: Seq<(usize, usize)> = seq![];
                    assert(matching(e, va, vb));
                    lemma_no_earlier(va, vb, vs, off, d as int, e);
                }
                assert forall|r: int| 0 <= r <= ceiling implies !#[trigger] reaches_from(
                    va,
                    vb,
                    frontier_at(va, vb, v0.len(), off, r),
                    off,
                    r,
                ) by {
                    lemma_frontier_history(va, vb, v0, vs, off, r);
                    reveal(rounds_exact);
                    assert(vs[r] == next_frontier(va, vb, before(v0, vs, r), off, r));
                }
                lemma_no_reach(va, vb, v0.len(), off, 0, ceiling as int);
                assert(greedy(va, vb) is None);
            }
            return None;
        },
    };
    let ghost len = v0.len();
    proof {
        assert forall|r: int| 0 <= r <= d_end implies #[trigger] frontier_at(va, vb, len, off, r) == before(
            v0,
            vs,
            r,
        ) by {
            lemma_frontier_history(va, vb, v0, vs, off, r);
        }
        let pe = before(v0, vs, d_end as int);
        lemma_slide_to(va, vb, kf, start_x(pe, off, d_end as int, kf), n as int);
        assert(reaches_from(va, vb, frontier_at(va, vb, len, off, d_end as int), off, d_end as int));
        assert forall|r: int| 0 <= r < d_end implies !#[trigger] reaches_from(
            va,
            vb,
            frontier_at(va, vb, len, off, r),
            off,
            r,
        ) by {
            reveal(rounds_exact);
            assert(vs[r] == next_frontier(va, vb, before(v0, vs, r), off, r));
            assert(frontier_at(va, vb, len, off, r) == before(v0, vs, r));
        }
        lemma_first_reach(va, vb, len, off, 0, d_end as int, ceiling as int);
    }
    let ghost whole = trail(va, vb, len, off, d_end as int, n as int, m as int);
    let mut pairs: Vec<(usize, usize)> = Vec::new();
    let mut x: isize = n;
    let mut y: isize = m;
    let mut d: isize = d_end;
    loop
        invariant_except_break
            0 <= d <= d_end,
            on_round(x - y, d as int),
            d == d_end ==> x == n && y == m,
            d < d_end ==> x == vs[d as int][off + x - y],
            start_x(before(v0, vs, d as int), off, d as int, x - y) <= x,
            2 * pairs@.len() + x + y == n + m - (d_end - d),
            pairs@ + trail(va, vb, len, off, d as int, x as int, y as int) == whole,
        invariant
            len == v0.len(),
            whole == trail(va, vb, len, off, d_end as int, n as int, m as int),
            forall|r: int| 0 <= r <= d_end ==> #[trigger] frontier_at(va, vb, len, off, r) == before(v0, vs, r),
            forall|r: int| 0 <= r < d_end ==> #[trigger] furthest(vs[r], off, r, va, vb),
            d_end <= ceiling,
            ceiling <= n + m,
            n == va.len(),
            m == vb.len(),
            n + m <= isize::MAX / 16,
            off == offset,
            offset == n + m + 3,
            v0.len() == 2 * offset + 1,
            forall|i: int| 0 <= i < v0.len() ==> v0[i] == 0,
            vs.len() == d_end,
            trace@.len() == d_end + 1,
            history_ok(va, vb, v0, vs, trace@.drop_last(), off, d_end as int),
            trace@[d_end as int]@ == before(v0, vs, d_end as int).subrange(
                off - d_end - 1,
                off + d_end + 2,
            ),
            d_end > 0 ==> frontier_ok(vs[d_end - 1], off, d_end - 1, n as int, m as int),
            on_round(kf, d_end as int),
            kf == n - m,
            snake(va, vb, kf, start_x(before(v0, vs, d_end as int), off, d_end as int, kf), n as int),
            forall|i: int|
                0 <= i < pairs@.len() ==> (#[trigger] pairs@[i]).0 < va.len() && pairs@[i].1
                    < vb.len() && va[pairs@[i].0 as int] == vb[pairs@[i].1 as int] && pairs@[i].0
                    >= x && pairs@[i].1 >= y,
            forall|i: int, j: int|
                0 <= i < j < pairs@.len() ==> (#[trigger] pairs@[i]).0 > (#[trigger] pairs@[j]).0
                    && pairs@[i].1 > pairs@[j].1,
        ensures
            2 * pairs@.len() == n + m - d_end,
            pairs@ == whole,
        decreases d,
    {
        let ghost k0 = x - y;
        let ghost pvd = before(v0, vs, d as int);
        let ghost endx: int = if d == d_end {
            n as int
        } else {
            vs[d as int][off + k0] as int
        };
        proof {
            if d > 0 {
                lemma_history_round(va, vb, v0, vs, trace@.drop_last(), off, d_end as int, d - 1, d - 1);
                assert(frontier_ok(pvd, off, d - 1, n as int, m as int));
            }
            if d < d_end {
                lemma_history_round(va, vb, v0, vs, trace@.drop_last(), off, d_end as int, d as int, k0);
                assert(trace@.drop_last()[d as int] == trace@[d as int]);
            }
            assert(pvd.len() == v0.len());
            assert(snake(va, vb, k0, start_x(pvd, off, d as int, k0), endx));
            assert(trace@[d as int]@ == pvd.subrange(off - d - 1, off + d + 2));
        }
        let snapshot = &trace[d as usize];
        // The snapshot spans k in -(d+1)..=(d+1); centre it the same way.
        let centre = d + 1;
        let k = x - y;
        proof {
            assert(snapshot@[k - 1 + centre] == pvd[off + k - 1]);
            assert(snapshot@[k + 1 + centre] == pvd[off + k + 1]);
        }
        let prev_k = if k == -d || (k != d && snapshot[(k - 1 + centre) as usize] < snapshot[(k
            + 1 + centre) as usize]) {
            k + 1
        } else {
            k - 1
        };
        proof {
            assert(snapshot@[prev_k + centre] == pvd[off + prev_k]);
            if d > 0 {
                assert(on_round(prev_k as int, d - 1));
                lemma_frontier_point(pvd, off, d - 1, n as int, m as int, prev_k as int);
            }
        }
        let prev_x = snapshot[(prev_k + centre) as usize];
        let prev_y = prev_x - prev_k;
        let ghost count = n + m - (d_end - d);
        let ghost p0 = pairs@;
        let ghost x0i = x as int;
        let ghost y0i = y as int;
        let ghost run = run_back(x0i, y0i, prev_x as int, prev_y as int);
        proof {
            assert(frontier_at(va, vb, len, off, d as int) == pvd);
            assert(came_from(pvd, off, d as int, x0i, y0i) == (prev_x as int, prev_y as int));
        }
        while x > prev_x && y > prev_y
            invariant
                2 * pairs@.len() + x + y == count,
                start_x(pvd, off, d as int, k0) <= x <= endx,
                y == x - k0,
                snake(va, vb, k0, start_x(pvd, off, d as int, k0), endx),
                prev_k == k0 + 1 ==> start_x(pvd, off, d as int, k0) == prev_x,
                prev_k == k0 - 1 ==> start_x(pvd, off, d as int, k0) == prev_x + 1,
                prev_k == k0 + 1 || prev_k == k0 - 1,
                prev_y == prev_x - prev_k,
                x <= x0i,
                y0i - y == x0i - x,
                x0i - x <= run.len(),
                run == run_back(x0i, y0i, prev_x as int, prev_y as int),
                pairs@ == p0 + run.take(x0i - x),
                forall|i: int|
                    0 <= i < pairs@.len() ==> (#[trigger] pairs@[i]).0 < va.len() && pairs@[i].1
                        < vb.len() && va[pairs@[i].0 as int] == vb[pairs@[i].1 as int]
                        && pairs@[i].0 >= x && pairs@[i].1 >= y,
                forall|i: int, j: int|
                    0 <= i < j < pairs@.len() ==> (#[trigger] pairs@[i]).0 > (#[trigger] pairs@[
                        j]).0 && pairs@[i].1 > pairs@[j].1,
            decreases x,
        {
            x = x - 1;
            y = y - 1;
            assert(va[x as int] == vb[x - k0]);
            let ghost before_push = pairs@;
            pairs.push((x as usize, y as usize));
            proof {
                assert(run[x0i - x - 1] == (x as usize, y as usize));
                assert(run.take(x0i - x) =~= run.take(x0i - x - 1).push(run[x0i - x - 1]));
                assert(pairs@ =~= p0 + run.take(x0i - x));
            }
        }
        proof {
            assert(x0i - x == run.len());
            assert(run.take(x0i - x) =~= run);
        }
        assert(x == start_x(pvd, off, d as int, k0));
        assert(x + y == prev_x + prev_y + 1);
        x = prev_x;
        y = prev_y;
        if d == 0 {
            proof {
                assert(pvd == v0);
                assert(k0 == 0);
                assert(prev_k == 1);
                assert(prev_x == 0);
            }
            break;
        }
        proof {
            lemma_history_round(va, vb, v0, vs, trace@.drop_last(), off, d_end as int, d - 1, prev_k as int);
            assert(before(v0, vs, d as int) == vs[d - 1]);
        }
        d = d - 1;
    }
    let mut out: Vec<(usize, usize)> = Vec::new();
    let mut i: usize = 0;
    while i < pairs.len()
        invariant
            i <= pairs@.len(),
            out@.len() == i,
            forall|j: int| 0 <= j < i ==> out@[j] == pairs@[pairs@.len() - 1 - j],
        decreases pairs@.len() - i,
    {
        out.push(pairs[pairs.len() - 1 - i]);
        i = i + 1;
    }
    proof {
        assert forall|q: Seq<(usize, usize)>| #[trigger] matching(q, views(a@), views(b@)) implies q.len()
            <= out@.len() by {
            assert forall|r: int| 0 <= r < d_end implies frontier_ok(#[trigger] vs[r], off, r, n as int, m as int) by {
                lemma_history_round(va, vb, v0, vs, trace@.drop_last(), off, d_end as int, r, r);
            }
            lemma_no_earlier(va, vb, vs, off, d_end as int, q);
        }
        assert forall|i: int, j: int| 0 <= i < j < out@.len() implies (#[trigger] out@[i]).0 < (
        #[trigger] out@[j]).0 && out@[i].1 < out@[j].1 by {
            let pi = pairs@.len() - 1 - i;
            let pj = pairs@.len() - 1 - j;
            assert(pairs@[pj].0 > pairs@[pi].0);
        }
        assert(ceiling <= TRACE_CEILING);
        assert(2 * out@.len() == n + m - d_end);
        assert forall|i: int| 0 <= i < out@.len() implies (#[trigger] out@[i]).0 < va.len()
            && out@[i].1 < vb.len() && va[out@[i].0 as int] == vb[out@[i].1 as int] by {
            let pi = pairs@.len() - 1 - i;
            assert(out@[i] == pairs@[pi]);
        }
    }
    Some(out)
}

} // verus!
