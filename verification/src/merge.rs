//! The three-way merge: `diff3` in miniature, over the word tokens of the
//! diff. Each side's edits are found against the base; edits to disjoint
//! token ranges all go through, and where both sides moved the same tokens
//! the session's version wins and the region is reported.

use vstd::prelude::*;

use crate::chars::{lemma_utf16_concat, utf16_count, utf16_fits, utf16_len};
use crate::myers::{matching, str_eq, TRACE_CEILING};
use crate::order::{before, key_lt, lemma_order_distinct, sort_order, sorted_order};
use crate::text::{
    concat, gap_hi_a, gap_hi_b, gap_lo_a, gap_lo_b, gap_ok, hunk_ok, hunks, hunks_spaced,
    hunks_of, hunks_trimmed, hunks_valid, join, lemma_concat_add, lemma_tokens_partition, removed, token_texts, tokenize,
    tokens_of, Hunk, Token,
};

verus! {

/// One side's edits, as replacements of base token ranges: tokens
/// `start..end` became `text`. `start == end` is an insertion at a seam.
#[derive(Debug)]
struct SideHunk {
    start: usize,
    end: usize,
    text: String,
}

impl View for SideHunk {
    type V = (int, int, Seq<char>);

    closed spec fn view(&self) -> (int, int, Seq<char>) {
        (self.start as int, self.end as int, self.text@)
    }
}

/// The views of a list of side hunks.
spec fn views(hs: Seq<SideHunk>) -> Seq<(int, int, Seq<char>)> {
    hs.map_values(|h: SideHunk| h@)
}

/// Base tokens `lo..hi` with the edits `hs` made in them: what lies before
/// the first edit, its text, and the rest patched from where it ends.
pub open spec fn patch(
    base: Seq<Seq<char>>,
    lo: int,
    hi: int,
    hs: Seq<(int, int, Seq<char>)>,
) -> Seq<char>
    decreases hs.len(),
{
    if hs.len() == 0 {
        concat(base.subrange(lo, hi))
    } else {
        concat(base.subrange(lo, hs[0].0)) + hs[0].2 + patch(base, hs[0].1, hi, hs.drop_first())
    }
}

/// Edits in the order of the base, each inside `lo..hi`, with at least one
/// untouched token between any two.
pub open spec fn spaced(lo: int, hi: int, hs: Seq<(int, int, Seq<char>)>) -> bool {
    &&& forall|i: int| 0 <= i < hs.len() ==> lo <= (#[trigger] hs[i]).0 <= hs[i].1 <= hi
    &&& forall|i: int, j: int| 0 <= i < j < hs.len() ==> (#[trigger] hs[i]).1 < (#[trigger] hs[j]).0
}

/// `hs` are edits of the base tokens that turn it into the text `s`.
pub open spec fn edits_of(base: Seq<Seq<char>>, hs: Seq<(int, int, Seq<char>)>, s: Seq<char>) -> bool {
    spaced(0, base.len() as int, hs) && patch(base, 0, base.len() as int, hs) == s
}

/// A diff hunk as a side hunk: base tokens `a0..a1` became the other's
/// tokens `b0..b1`.
pub open spec fn side_view(other: Seq<Seq<char>>, h: Hunk) -> (int, int, Seq<char>) {
    (h.a0 as int, h.a1 as int, concat(other.subrange(h.b0 as int, h.b1 as int)))
}

/// Diff hunks as side hunks.
pub open spec fn side_views(other: Seq<Seq<char>>, hs: Seq<Hunk>) -> Seq<(int, int, Seq<char>)> {
    hs.map_values(|h: Hunk| side_view(other, h))
}

/// `hs` are the word diff from the base tokens to the text `s`, as side
/// hunks: the hunks `hunks_of` gives, which turn the base tokens into the
/// tokens of `s`, with a shared token between any two, none cutting into the
/// tokens the two share at their ends, keeping as many base tokens as any
/// matching of the two does whenever that matching is within
/// `TRACE_CEILING` edits.
pub open spec fn word_edits(base: Seq<Seq<char>>, hs: Seq<(int, int, Seq<char>)>, s: Seq<char>) -> bool {
    exists|hh: Seq<Hunk>|
        {
            &&& #[trigger] hunks_valid(base, tokens_of(s), hh)
            &&& hh == hunks_of(base, tokens_of(s))
            &&& hunks_spaced(hh)
            &&& hunks_trimmed(base, tokens_of(s), hh)
            &&& hs == side_views(tokens_of(s), hh)
            &&& forall|q: Seq<(usize, usize)>|
                #[trigger] matching(q, base, tokens_of(s)) && base.len() + tokens_of(s).len() - 2 * q.len()
                    <= TRACE_CEILING ==> q.len() + removed(hh) <= base.len()
        }
}

/// Patching the base with the hunks from hunk `k` on, from where the shared
/// stretch before hunk `k` starts, gives the other side from there.
proof fn lemma_patch_hunks(a: Seq<Seq<char>>, b: Seq<Seq<char>>, hs: Seq<Hunk>, k: int)
    requires
        hunks_valid(a, b, hs),
        0 <= k <= hs.len(),
    ensures
        patch(a, gap_lo_a(hs, k), a.len() as int, side_views(b, hs).skip(k)) == concat(
            b.skip(gap_lo_b(hs, k)),
        ),
    decreases hs.len() - k,
{
    let vs = side_views(b, hs).skip(k);
    assert(gap_ok(a, b, hs, k));
    let la = gap_lo_a(hs, k);
    let lb = gap_lo_b(hs, k);
    if k == hs.len() {
        assert(vs.len() == 0);
        assert(a.subrange(la, a.len() as int) =~= b.skip(lb));
    } else {
        let h = hs[k];
        assert(hunk_ok(h));
        assert(gap_ok(a, b, hs, k + 1));
        assert(vs[0] == side_view(b, h));
        assert(vs.drop_first() =~= side_views(b, hs).skip(k + 1));
        lemma_patch_hunks(a, b, hs, k + 1);
        assert(gap_lo_a(hs, k + 1) == h.a1);
        assert(gap_lo_b(hs, k + 1) == h.b1);
        assert(a.subrange(la, h.a0 as int) == b.subrange(lb, h.b0 as int));
        assert(b.skip(lb) =~= b.subrange(lb, h.b0 as int) + b.subrange(h.b0 as int, h.b1 as int)
            + b.skip(h.b1 as int));
        lemma_concat_add(
            b.subrange(lb, h.b0 as int) + b.subrange(h.b0 as int, h.b1 as int),
            b.skip(h.b1 as int),
        );
        lemma_concat_add(b.subrange(lb, h.b0 as int), b.subrange(h.b0 as int, h.b1 as int));
    }
}

/// Hunks that turn `a` into `b`, as side hunks, are edits of `a` that give
/// the text of `b`.
proof fn lemma_side_views(a: Seq<Seq<char>>, b: Seq<Seq<char>>, hs: Seq<Hunk>)
    requires
        hunks_valid(a, b, hs),
        hunks_spaced(hs),
    ensures
        edits_of(a, side_views(b, hs), concat(b)),
{
    let vs = side_views(b, hs);
    assert forall|i: int| 0 <= i < vs.len() implies 0 <= (#[trigger] vs[i]).0 <= vs[i].1 <= a.len() by {
        assert(hunk_ok(hs[i]));
        assert(gap_ok(a, b, hs, i));
        assert(gap_ok(a, b, hs, i + 1));
    }
    assert forall|i: int, j: int| 0 <= i < j < vs.len() implies (#[trigger] vs[i]).1 < (
    #[trigger] vs[j]).0 by {
        assert(hs[i].a1 < hs[j].a0);
    }
    lemma_patch_hunks(a, b, hs, 0);
    assert(vs.skip(0) =~= vs);
    assert(b.skip(0) =~= b);
}

/// One side's edits to the base tokens: the diff from the base to `other`,
/// as replacements of base token ranges.
#[verifier::spinoff_prover]
#[verifier::rlimit(40)]
fn side(base: &[Token<'_>], other: &str) -> (r: Vec<SideHunk>)
    requires
        base@.len() + tokens_of(other@).len() <= isize::MAX / 16,
    ensures
        edits_of(token_texts(base@), views(r@), other@),
        word_edits(token_texts(base@), views(r@), other@),
        token_texts(base@) == tokens_of(other@) ==> r@.len() == 0,
{
    let tokens = tokenize(other);
    proof {
        lemma_tokens_partition(other@);
    }
    let hs = hunks(base, tokens.as_slice());
    let ghost ta = token_texts(base@);
    let ghost tb = token_texts(tokens@);
    let mut out: Vec<SideHunk> = Vec::new();
    let mut k: usize = 0;
    while k < hs.len()
        invariant
            k <= hs@.len(),
            ta == token_texts(base@),
            tb == token_texts(tokens@),
            hunks_valid(ta, tb, hs@),
            views(out@) == side_views(tb, hs@).take(k as int),
        decreases hs@.len() - k,
    {
        let h = hs[k];
        proof {
            assert(hunk_ok(hs@[k as int]));
            assert(gap_ok(ta, tb, hs@, k as int + 1));
        }
        let text = join(tokens.as_slice(), h.b0, h.b1);
        let ghost before = out@;
        out.push(SideHunk { start: h.a0, end: h.a1, text });
        proof {
            assert(views(out@) =~= views(before).push(side_view(tb, h)));
            assert(side_views(tb, hs@).take(k + 1) =~= side_views(tb, hs@).take(k as int).push(
                side_view(tb, h),
            ));
        }
        k = k + 1;
    }
    proof {
        assert(side_views(tb, hs@).take(hs@.len() as int) =~= side_views(tb, hs@));
        lemma_side_views(ta, tb, hs@);
        assert(base.len() == ta.len() && tokens@.len() == tb.len());
        assert(hunks_valid(ta, tokens_of(other@), hs@));
    }
    out
}

/// Two edits collide when they move overlapping base tokens, or when both
/// are insertions at the same seam. Touching without sharing a token -- an
/// insertion at the seam of the other side's deletion -- is not a collision.
pub open spec fn collide(x: (int, int, Seq<char>), y: (int, int, Seq<char>)) -> bool {
    if x.0 == x.1 && y.0 == y.1 {
        x.0 == y.0
    } else {
        x.0 < y.1 && y.0 < x.1
    }
}

/// Edit `e` moves base token `t`.
pub open spec fn moves_token(e: (int, int, Seq<char>), t: int) -> bool {
    e.0 <= t < e.1
}

/// What colliding means, edit by edit: it is symmetric; two insertions
/// collide exactly when they are at the same seam, whatever they insert;
/// an insertion collides with an edit that moves tokens exactly when it
/// falls strictly inside it; and two edits that move tokens collide exactly
/// when some base token is moved by both.
pub proof fn lemma_collide_laws(x: (int, int, Seq<char>), y: (int, int, Seq<char>))
    requires
        x.0 <= x.1,
        y.0 <= y.1,
    ensures
        collide(x, y) == collide(y, x),
        x.0 == x.1 && y.0 == y.1 ==> (collide(x, y) <==> x.0 == y.0),
        x.0 == x.1 && y.0 < y.1 ==> (collide(x, y) <==> y.0 < x.0 < y.1),
        x.0 < x.1 && y.0 < y.1 ==> (collide(x, y) <==> exists|t: int| #[trigger] moves_token(x, t) && moves_token(y, t)),
{
    if x.0 < x.1 && y.0 < y.1 && collide(x, y) {
        let t = if x.0 < y.0 { y.0 } else { x.0 };
        assert(moves_token(x, t) && moves_token(y, t));
    }
}

/// The file and the session inserting at the same seam is a collision,
/// whatever each inserts.
pub proof fn lemma_same_seam_insertions_collide(seam: int, mine: Seq<char>, theirs: Seq<char>)
    ensures
        collide((seam, seam, mine), (seam, seam, theirs)),
{
    lemma_collide_laws((seam, seam, mine), (seam, seam, theirs));
}

fn collides(a: &SideHunk, b: &SideHunk) -> (r: bool)
    ensures
        r == collide(a@, b@),
{
    if a.start == a.end && b.start == b.end {
        return a.start == b.start;
    }
    a.start < b.end && b.start < a.end
}

/// `p` takes some but not all of `c`.
pub open spec fn splits(c: Set<int>, p: Set<int>) -> bool {
    &&& p.subset_of(c)
    &&& exists|i: int| p.contains(i)
    &&& exists|j: int| c.contains(j) && !p.contains(j)
}

/// An edit in `p` collides with an edit of `c` outside `p`.
pub open spec fn bridged(hs: Seq<(int, int, Seq<char>)>, c: Set<int>, p: Set<int>) -> bool {
    exists|i: int, j: int| p.contains(i) && c.contains(j) && !p.contains(j) && collide(hs[i], hs[j])
}

/// The edits at the indices `c` hang together: however they are split in
/// two, an edit on one side collides with one on the other.
pub open spec fn connected(hs: Seq<(int, int, Seq<char>)>, c: Set<int>) -> bool {
    forall|p: Set<int>| #[trigger] splits(c, p) ==> bridged(hs, c, p)
}

/// The indices labelled `g`.
spec fn class(group: Seq<usize>, g: int) -> Set<int> {
    Set::new(|i: int| 0 <= i < group.len() && group[i] == g)
}

/// Every label `drop` turned into `keep`.
spec fn relabel(group: Seq<usize>, drop: usize, keep: usize) -> Seq<usize> {
    group.map_values(|x: usize| if x == drop { keep } else { x })
}

/// Two sets that hang together, joined by a collision between them, hang
/// together.
proof fn lemma_join_connected(hs: Seq<(int, int, Seq<char>)>, a: Set<int>, b: Set<int>, i: int, j: int)
    requires
        connected(hs, a),
        connected(hs, b),
        a.contains(i),
        b.contains(j),
        collide(hs[i], hs[j]),
    ensures
        connected(hs, a.union(b)),
{
    let c = a.union(b);
    assert forall|p: Set<int>| #[trigger] splits(c, p) implies bridged(hs, c, p) by {
        let pa = p.intersect(a);
        let pb = p.intersect(b);
        if (exists|x: int| pa.contains(x)) && (exists|y: int| a.contains(y) && !pa.contains(y)) {
            assert(splits(a, pa));
            let (x, y) = choose|x: int, y: int|
                pa.contains(x) && a.contains(y) && !pa.contains(y) && collide(hs[x], hs[y]);
            assert(p.contains(x) && c.contains(y) && !p.contains(y) && collide(hs[x], hs[y]));
        } else if (exists|x: int| pb.contains(x)) && (exists|y: int| b.contains(y) && !pb.contains(y)) {
            assert(splits(b, pb));
            let (x, y) = choose|x: int, y: int|
                pb.contains(x) && b.contains(y) && !pb.contains(y) && collide(hs[x], hs[y]);
            assert(p.contains(x) && c.contains(y) && !p.contains(y) && collide(hs[x], hs[y]));
        } else {
            let x = choose|x: int| p.contains(x);
            let y = choose|y: int| c.contains(y) && !p.contains(y);
            if p.contains(i) {
                if p.contains(j) {
                    // Both whole parts lie in `p`, and nothing is left outside it.
                    if a.contains(y) {
                        assert(pa.contains(i));
                        assert(a.contains(y) && !pa.contains(y));
                    } else {
                        assert(pb.contains(j));
                        assert(b.contains(y) && !pb.contains(y));
                    }
                } else {
                    assert(p.contains(i) && c.contains(j) && !p.contains(j) && collide(hs[i], hs[j]));
                }
            } else {
                if p.contains(j) {
                    assert(collide(hs[j], hs[i]));
                    assert(p.contains(j) && c.contains(i) && !p.contains(i) && collide(hs[j], hs[i]));
                } else {
                    // Neither part reaches `p`, yet `p` holds something of them.
                    if a.contains(x) {
                        assert(pa.contains(x));
                        assert(a.contains(i) && !pa.contains(i));
                    } else {
                        assert(pb.contains(x));
                        assert(b.contains(j) && !pb.contains(j));
                    }
                }
            }
        }
    }
}

/// Relabelling `drop` as `keep` joins their classes and leaves the rest.
proof fn lemma_relabel_classes(group: Seq<usize>, drop: usize, keep: usize, g: int)
    ensures
        class(relabel(group, drop, keep), g) == (if g == keep {
            class(group, keep as int).union(class(group, drop as int))
        } else if g == drop {
            Set::<int>::empty()
        } else {
            class(group, g)
        }),
{
    let ng = relabel(group, drop, keep);
    if g == keep {
        assert(class(ng, g) =~= class(group, keep as int).union(class(group, drop as int)));
    } else if g == drop {
        assert(class(ng, g) =~= Set::<int>::empty());
    } else {
        assert(class(ng, g) =~= class(group, g));
    }
}

/// The empty set hangs together.
proof fn lemma_empty_connected(hs: Seq<(int, int, Seq<char>)>)
    ensures
        connected(hs, Set::<int>::empty()),
{
    assert forall|p: Set<int>| #[trigger] splits(Set::<int>::empty(), p) implies bridged(
        hs,
        Set::<int>::empty(),
        p,
    ) by {
        let x = choose|x: int| p.contains(x);
        assert(Set::<int>::empty().contains(x));
    }
}

/// A single index hangs together.
proof fn lemma_single_connected(hs: Seq<(int, int, Seq<char>)>, c: Set<int>, i: int)
    requires
        c == Set::<int>::empty().insert(i),
    ensures
        connected(hs, c),
{
    assert forall|p: Set<int>| #[trigger] splits(c, p) implies bridged(hs, c, p) by {
        let x = choose|x: int| p.contains(x);
        let y = choose|y: int| c.contains(y) && !p.contains(y);
        assert(x == i && y == i);
    }
}

/// Labels the edits so that colliding ones share a label and each label's
/// edits hang together.
#[verifier::spinoff_prover]
fn group_edits(all: &Vec<(bool, &SideHunk)>, Ghost(hs): Ghost<Seq<(int, int, Seq<char>)>>) -> (group: Vec<usize>)
    requires
        hs.len() == all@.len(),
        forall|k: int| 0 <= k < hs.len() ==> hs[k] == (#[trigger] all@[k]).1@,
    ensures
        group@.len() == hs.len(),
        forall|k: int| 0 <= k < hs.len() ==> (#[trigger] group@[k]) < hs.len(),
        forall|g: int| connected(hs, #[trigger] class(group@, g)),
        forall|a: int, b: int|
            0 <= a < hs.len() && 0 <= b < hs.len() && collide(hs[a], hs[b]) ==> #[trigger] group@[a]
                == #[trigger] group@[b],
{
    let n = all.len();
    let mut group: Vec<usize> = Vec::new();
    let mut k: usize = 0;
    while k < n
        invariant
            k <= n == hs.len(),
            group@.len() == k,
            forall|x: int| 0 <= x < k ==> group@[x] == x,
        decreases n - k,
    {
        group.push(k);
        k = k + 1;
    }
    proof {
        assert forall|g: int| connected(hs, #[trigger] class(group@, g)) by {
            if 0 <= g < n {
                assert(class(group@, g) =~= Set::<int>::empty().insert(g));
                lemma_single_connected(hs, class(group@, g), g);
            } else {
                assert(class(group@, g) =~= Set::<int>::empty());
                lemma_empty_connected(hs);
            }
        }
    }
    let mut i: usize = 0;
    while i < n
        invariant
            i <= n == hs.len() == all@.len(),
            group@.len() == n,
            forall|k: int| 0 <= k < hs.len() ==> hs[k] == (#[trigger] all@[k]).1@,
            forall|x: int| 0 <= x < n ==> (#[trigger] group@[x]) < n,
            forall|g: int| connected(hs, #[trigger] class(group@, g)),
            forall|a: int, b: int|
                0 <= b < a < i && collide(hs[a], hs[b]) ==> #[trigger] group@[a] == #[trigger] group@[b],
        decreases n - i,
    {
        let mut j: usize = 0;
        while j < i
            invariant
                j <= i < n == hs.len() == all@.len(),
                group@.len() == n,
                forall|k: int| 0 <= k < hs.len() ==> hs[k] == (#[trigger] all@[k]).1@,
                forall|x: int| 0 <= x < n ==> (#[trigger] group@[x]) < n,
                forall|g: int| connected(hs, #[trigger] class(group@, g)),
                forall|a: int, b: int|
                    0 <= b < a < n && (a < i || (a == i && b < j)) && collide(hs[a], hs[b])
                        ==> #[trigger] group@[a] == #[trigger] group@[b],
            decreases i - j,
        {
            if collides(all[i].1, all[j].1) {
                let gi = group[i];
                let gj = group[j];
                let keep = if gi < gj { gi } else { gj };
                let drop = if gi < gj { gj } else { gi };
                let ghost old = group@;
                let mut k: usize = 0;
                while k < n
                    invariant
                        k <= n == old.len(),
                        group@.len() == n,
                        forall|x: int| 0 <= x < k ==> group@[x] == relabel(old, drop, keep)[x],
                        forall|x: int| k <= x < n ==> group@[x] == old[x],
                    decreases n - k,
                {
                    if group[k] == drop {
                        group[k] = keep;
                    }
                    k = k + 1;
                }
                proof {
                    assert(group@ =~= relabel(old, drop, keep));
                    assert forall|g: int| connected(hs, #[trigger] class(group@, g)) by {
                        lemma_relabel_classes(old, drop, keep, g);
                        if g == keep {
                            assert(class(old, gi as int).contains(i as int));
                            assert(class(old, gj as int).contains(j as int));
                            if gi == gj {
                                assert(class(old, keep as int).union(class(old, drop as int))
                                    =~= class(old, keep as int));
                            } else if gi < gj {
                                lemma_join_connected(hs, class(old, gi as int), class(old, gj as int), i as int, j as int);
                            } else {
                                assert(collide(hs[j as int], hs[i as int]));
                                lemma_join_connected(hs, class(old, gj as int), class(old, gi as int), j as int, i as int);
                            }
                        } else if g == drop {
                            lemma_empty_connected(hs);
                        } else {
                            assert(connected(hs, class(old, g)));
                        }
                    }
                    assert forall|a: int, b: int|
                        0 <= b < a < n && (a < i || (a == i && b < j + 1)) && collide(hs[a], hs[b])
                            implies #[trigger] group@[a] == #[trigger] group@[b] by {
                        if a == i && b == j {
                        } else {
                            assert(old[a] == old[b]);
                        }
                    }
                }
            }
            j = j + 1;
        }
        i = i + 1;
    }
    proof {
        assert forall|a: int, b: int|
            0 <= a < hs.len() && 0 <= b < hs.len() && collide(hs[a], hs[b]) implies #[trigger] group@[a]
                == #[trigger] group@[b] by {
            if b < a {
            } else if a < b {
                assert(collide(hs[b], hs[a]));
            }
        }
    }
    group
}

/// One edit ends before the other begins, with a token between.
pub open spec fn apart(x: (int, int, Seq<char>), y: (int, int, Seq<char>)) -> bool {
    x.1 < y.0 || y.1 < x.0
}

/// `s..e` is the span of the edits at `c`: each lies in it, one starts where
/// it starts and one ends where it ends.
pub open spec fn span_of(hs: Seq<(int, int, Seq<char>)>, c: Set<int>, s: int, e: int) -> bool {
    &&& forall|x: int| c.contains(x) ==> s <= (#[trigger] hs[x]).0 && hs[x].1 <= e
    &&& exists|x: int| c.contains(x) && (#[trigger] hs[x]).0 == s
    &&& exists|x: int| c.contains(x) && (#[trigger] hs[x]).1 == e
}

/// Edits are well formed: each ends no earlier than it starts.
pub open spec fn forward(hs: Seq<(int, int, Seq<char>)>) -> bool {
    forall|x: int| 0 <= x < hs.len() ==> (#[trigger] hs[x]).0 <= hs[x].1
}

/// Edits that hang together cover every token of their span.
proof fn lemma_covered(hs: Seq<(int, int, Seq<char>)>, c: Set<int>, s: int, e: int, q: int)
    requires
        connected(hs, c),
        span_of(hs, c, s, e),
        forward(hs),
        forall|x: int| c.contains(x) ==> 0 <= x < hs.len(),
        s <= q < e,
    ensures
        exists|x: int| c.contains(x) && (#[trigger] hs[x]).0 <= q < hs[x].1,
{
    if !(exists|x: int| c.contains(x) && (#[trigger] hs[x]).0 <= q < hs[x].1) {
        let p = c.filter(|x: int| hs[x].1 <= q);
        let x0 = choose|x: int| c.contains(x) && (#[trigger] hs[x]).0 == s;
        let x1 = choose|x: int| c.contains(x) && (#[trigger] hs[x]).1 == e;
        assert(p.contains(x0));
        assert(c.contains(x1) && !p.contains(x1));
        assert(splits(c, p));
        let (x, y) = choose|x: int, y: int|
            p.contains(x) && c.contains(y) && !p.contains(y) && collide(hs[x], hs[y]);
        assert(hs[y].0 > q);
    }
}

/// Two classes, each hanging together, with no collision between them and no
/// two edits of one side sharing a token, have spans that do not overlap.
proof fn lemma_classes_apart(
    hs: Seq<(int, int, Seq<char>)>,
    tags: Seq<bool>,
    c: Set<int>,
    d: Set<int>,
    sc: int,
    ec: int,
    sd: int,
    ed: int,
)
    requires
        tags.len() == hs.len(),
        forward(hs),
        forall|x: int, y: int|
            0 <= x < hs.len() && 0 <= y < hs.len() && x != y && tags[x] == tags[y] ==> apart(
                #[trigger] hs[x],
                #[trigger] hs[y],
            ),
        forall|x: int| c.contains(x) ==> 0 <= x < hs.len(),
        forall|x: int| d.contains(x) ==> 0 <= x < hs.len(),
        connected(hs, c),
        connected(hs, d),
        span_of(hs, c, sc, ec),
        span_of(hs, d, sd, ed),
        forall|x: int, y: int| c.contains(x) && d.contains(y) ==> !collide(hs[x], hs[y]),
    ensures
        ec <= sd || ed <= sc,
{
    if !(ec <= sd || ed <= sc) {
        let xc = choose|x: int| c.contains(x) && (#[trigger] hs[x]).0 == sc;
        let xd = choose|x: int| d.contains(x) && (#[trigger] hs[x]).0 == sd;
        if sc < ec && sd < ed {
            let q = if sc < sd { sd } else { sc };
            lemma_covered(hs, c, sc, ec, q);
            lemma_covered(hs, d, sd, ed, q);
            let x = choose|x: int| c.contains(x) && (#[trigger] hs[x]).0 <= q < hs[x].1;
            let y = choose|y: int| d.contains(y) && (#[trigger] hs[y]).0 <= q < hs[y].1;
            assert(collide(hs[x], hs[y]));
        } else if sc == ec {
            lemma_points_apart(hs, tags, c, d, sc, sd, ed);
        } else {
            assert forall|x: int, y: int| d.contains(x) && c.contains(y) implies !collide(hs[x], hs[y]) by {
                assert(!collide(hs[y], hs[x]));
            }
            lemma_points_apart(hs, tags, d, c, sd, sc, ec);
        }
    }
}

/// A class all at one seam `p` does not lie strictly inside the span of
/// another class: it would collide with it or break the spacing of a side.
proof fn lemma_points_apart(
    hs: Seq<(int, int, Seq<char>)>,
    tags: Seq<bool>,
    c: Set<int>,
    d: Set<int>,
    p: int,
    sd: int,
    ed: int,
)
    requires
        tags.len() == hs.len(),
        forward(hs),
        forall|x: int, y: int|
            0 <= x < hs.len() && 0 <= y < hs.len() && x != y && tags[x] == tags[y] ==> apart(
                #[trigger] hs[x],
                #[trigger] hs[y],
            ),
        forall|x: int| c.contains(x) ==> 0 <= x < hs.len(),
        forall|x: int| d.contains(x) ==> 0 <= x < hs.len(),
        connected(hs, d),
        span_of(hs, c, p, p),
        span_of(hs, d, sd, ed),
        forall|x: int, y: int| c.contains(x) && d.contains(y) ==> !collide(hs[x], hs[y]),
    ensures
        !(sd < p < ed),
{
    if sd < p < ed {
        let x = choose|x: int| c.contains(x) && (#[trigger] hs[x]).0 == p;
        assert(hs[x].1 == p);
        lemma_covered(hs, d, sd, ed, p - 1);
        lemma_covered(hs, d, sd, ed, p);
        let y1 = choose|y: int| d.contains(y) && (#[trigger] hs[y]).0 <= p - 1 < hs[y].1;
        let y2 = choose|y: int| d.contains(y) && (#[trigger] hs[y]).0 <= p < hs[y].1;
        assert(!collide(hs[x], hs[y1]));
        assert(!collide(hs[x], hs[y2]));
        assert(hs[y1].1 == p);
        assert(hs[y2].0 == p);
        assert(y1 != y2);
        assert(x != y1 && x != y2);
        if tags[x] == tags[y1] {
            assert(apart(hs[x], hs[y1]));
        } else if tags[x] == tags[y2] {
            assert(apart(hs[x], hs[y2]));
        } else {
            assert(apart(hs[y1], hs[y2]));
        }
    }
}

/// An edit apart from every edit of a class that hangs together lies wholly
/// before or after the class's span.
proof fn lemma_apart_from_class(
    hs: Seq<(int, int, Seq<char>)>,
    c: Set<int>,
    s: int,
    e: int,
    a: (int, int, Seq<char>),
)
    requires
        forward(hs),
        a.0 <= a.1,
        forall|x: int| c.contains(x) ==> 0 <= x < hs.len(),
        connected(hs, c),
        span_of(hs, c, s, e),
        forall|x: int| c.contains(x) ==> apart(#[trigger] hs[x], a),
    ensures
        a.1 <= s || e <= a.0,
{
    if !(a.1 <= s || e <= a.0) {
        let p = c.filter(|x: int| hs[x].1 < a.0);
        let x0 = choose|x: int| c.contains(x) && (#[trigger] hs[x]).0 == s;
        let x1 = choose|x: int| c.contains(x) && (#[trigger] hs[x]).1 == e;
        assert(apart(hs[x0], a));
        assert(apart(hs[x1], a));
        assert(p.contains(x0));
        assert(c.contains(x1) && !p.contains(x1));
        assert(splits(c, p));
        let (x, y) = choose|x: int, y: int|
            p.contains(x) && c.contains(y) && !p.contains(y) && collide(hs[x], hs[y]);
        assert(apart(hs[y], a));
    }
}

/// The edits of side `want` among the indices `members`.
pub open spec fn side_members(
    hs: Seq<(int, int, Seq<char>)>,
    tags: Seq<bool>,
    members: Seq<usize>,
    want: bool,
) -> Set<(int, int, Seq<char>)> {
    Set::new(
        |v: (int, int, Seq<char>)|
            exists|t: int|
                0 <= t < members.len() && tags[members[t] as int] == want && #[trigger] hs[members[t] as int]
                    == v,
    )
}

/// `text` is base tokens `lo..hi` with the edits `es` made in them, taken in
/// the order of the base.
pub open spec fn reads(
    base: Seq<Seq<char>>,
    lo: int,
    hi: int,
    es: Set<(int, int, Seq<char>)>,
    text: Seq<char>,
) -> bool {
    exists|q: Seq<(int, int, Seq<char>)>|
        spaced(lo, hi, q) && q.to_set() == es && #[trigger] patch(base, lo, hi, q) == text
}

/// Edits of one list: where each sits, which side it is from, and that two
/// of one side never share a token.
spec fn listed(all: Seq<(bool, &SideHunk)>, hs: Seq<(int, int, Seq<char>)>, tags: Seq<bool>) -> bool {
    &&& hs.len() == all.len() == tags.len()
    &&& forall|k: int| 0 <= k < all.len() ==> hs[k] == (#[trigger] all[k]).1@ && tags[k] == all[k].0
    &&& forall|x: int| 0 <= x < hs.len() ==> (#[trigger] hs[x]).0 <= hs[x].1
    &&& forall|x: int, y: int|
        0 <= x < hs.len() && 0 <= y < hs.len() && x != y && tags[x] == tags[y] ==> apart(
            #[trigger] hs[x],
            #[trigger] hs[y],
        )
}

/// Sorted and pairwise apart, edits follow one another with a token between.
proof fn lemma_sorted_apart(keys: Seq<(usize, usize)>, order: Seq<usize>, pv: Seq<(int, int, Seq<char>)>, i: int, j: int)
    requires
        sorted_order(keys, order),
        keys.len() == pv.len(),
        forall|p: int| 0 <= p < pv.len() ==> (#[trigger] keys[p]).0 == pv[p].0 && keys[p].1 == pv[p].1,
        forall|p: int| 0 <= p < pv.len() ==> (#[trigger] pv[p]).0 <= pv[p].1,
        forall|x: int, y: int| 0 <= x < pv.len() && 0 <= y < pv.len() && x != y ==> apart(#[trigger] pv[x], #[trigger] pv[y]),
        0 <= i < j < order.len(),
    ensures
        pv[order[i] as int].1 < pv[order[j] as int].0,
{
    let x = order[i] as int;
    let y = order[j] as int;
    assert(before(keys, x, y));
    lemma_order_distinct(keys, order, i, j);
    assert(apart(pv[x], pv[y]));
}

/// One side's reading of base tokens `start..end`: the base with that
/// side's edits among `members` made in it.
#[verifier::spinoff_prover]
fn rewrite(
    base: &[Token<'_>],
    start: usize,
    end: usize,
    members: &[usize],
    all: &[(bool, &SideHunk)],
    want_local: bool,
    Ghost(hs): Ghost<Seq<(int, int, Seq<char>)>>,
    Ghost(tags): Ghost<Seq<bool>>,
) -> (out: String)
    requires
        listed(all@, hs, tags),
        start <= end <= base@.len(),
        forall|t: int, u: int| 0 <= t < u < members@.len() ==> members@[t] != members@[u],
        forall|t: int| 0 <= t < members@.len() ==> (#[trigger] members@[t]) < all@.len(),
        forall|t: int|
            0 <= t < members@.len() ==> start <= (#[trigger] hs[members@[t] as int]).0 && hs[members@[t] as int].1
                <= end,
    ensures
        reads(token_texts(base@), start as int, end as int, side_members(hs, tags, members@, want_local), out@),
{
    let ghost bt = token_texts(base@);
    let mut picked: Vec<&SideHunk> = Vec::new();
    let ghost mut src: Seq<int> = seq![];
    let mut t: usize = 0;
    while t < members.len()
        invariant
            t <= members@.len(),
            listed(all@, hs, tags),
            forall|a: int, b: int| 0 <= a < b < members@.len() ==> members@[a] != members@[b],
            forall|a: int| 0 <= a < members@.len() ==> (#[trigger] members@[a]) < all@.len(),
            src.len() == picked@.len(),
            forall|p: int| 0 <= p < src.len() ==> 0 <= #[trigger] src[p] < t,
            forall|p: int, r: int| 0 <= p < r < src.len() ==> src[p] < src[r],
            forall|p: int|
                0 <= p < src.len() ==> tags[members@[src[p]] as int] == want_local && (#[trigger] picked@[p])@
                    == hs[members@[src[p]] as int],
            forall|a: int|
                0 <= a < t && tags[members@[a] as int] == want_local ==> exists|p: int|
                    0 <= p < src.len() && #[trigger] src[p] == a,
        decreases members@.len() - t,
    {
        let m = members[t];
        let ghost old_src = src;
        let ghost old_picked = picked@;
        if all[m].0 == want_local {
            picked.push(all[m].1);
            proof {
                src = src.push(t as int);
                assert(src[src.len() - 1] == t);
                assert(all@[m as int].1@ == hs[m as int]);
                assert(tags[m as int] == all@[m as int].0);
                assert(picked@[picked@.len() - 1] == all@[m as int].1);
                assert(members@[src[src.len() - 1]] == m);
                assert forall|x: int| 0 <= x < old_src.len() implies src[x] == old_src[x]
                    && picked@[x] == old_picked[x] by {}
            }
        }
        proof {
            assert forall|x: int| 0 <= x < src.len() implies tags[members@[src[x]] as int] == want_local
                && (#[trigger] picked@[x])@ == hs[members@[src[x]] as int] by {
                if x < old_src.len() {
                    assert(src[x] == old_src[x] && picked@[x] == old_picked[x]);
                    assert(tags[members@[old_src[x]] as int] == want_local && (old_picked[x])@
                        == hs[members@[old_src[x]] as int]);
                }
            }
            assert forall|a: int|
                0 <= a < t + 1 && tags[members@[a] as int] == want_local implies exists|x: int|
                    0 <= x < src.len() && #[trigger] src[x] == a by {
                if a < t {
                    let x = choose|x: int| 0 <= x < old_src.len() && #[trigger] old_src[x] == a;
                    assert(src[x] == a);
                } else {
                    assert(tags[m as int] == all@[m as int].0);
                    assert(src[src.len() - 1] == a);
                }
            }
            assert(forall|p: int|
                0 <= p < src.len() ==> tags[members@[src[p]] as int] == want_local && (#[trigger] picked@[p])@
                    == hs[members@[src[p]] as int]);
        }
        t = t + 1;
    }
    let ghost pv: Seq<(int, int, Seq<char>)> = picked@.map_values(|h: &SideHunk| h@);
    let mut keys: Vec<(usize, usize)> = Vec::new();
    let mut p: usize = 0;
    while p < picked.len()
        invariant
            p <= picked@.len(),
            pv == picked@.map_values(|h: &SideHunk| h@),
            keys@.len() == p,
            forall|x: int| 0 <= x < p ==> (#[trigger] keys@[x]).0 == pv[x].0 && keys@[x].1 == pv[x].1,
        decreases picked@.len() - p,
    {
        keys.push((picked[p].start, picked[p].end));
        p = p + 1;
    }
    let order = sort_order(&keys);
    let ghost q: Seq<(int, int, Seq<char>)> = Seq::new(order@.len(), |k: int| pv[order@[k] as int]);
    proof {
        assert forall|x: int, y: int| 0 <= x < pv.len() && 0 <= y < pv.len() && x != y implies apart(
            #[trigger] pv[x],
            #[trigger] pv[y],
        ) by {
            if src[x] < src[y] {
            } else {
                assert(src[y] < src[x]);
            }
            assert(members@[src[x]] != members@[src[y]]);
        }
        assert forall|x: int| 0 <= x < pv.len() implies (#[trigger] pv[x]).0 <= pv[x].1 by {
            assert(pv[x] == hs[members@[src[x]] as int]);
        }
        assert forall|i: int, j: int| 0 <= i < j < q.len() implies (#[trigger] q[i]).1 < (#[trigger] q[j]).0 by {
            lemma_sorted_apart(keys@, order@, pv, i, j);
        }
        assert forall|i: int| 0 <= i < q.len() implies start <= (#[trigger] q[i]).0 <= q[i].1 <= end by {
            let x = order@[i] as int;
            assert(pv[x] == hs[members@[src[x]] as int]);
        }
        assert(spaced(start as int, end as int, q));
        let es = side_members(hs, tags, members@, want_local);
        assert forall|v: (int, int, Seq<char>)| q.to_set().contains(v) == es.contains(v) by {
            if q.to_set().contains(v) {
                let i = choose|i: int| 0 <= i < q.len() && q[i] == v;
                let x = order@[i] as int;
                assert(hs[members@[src[x]] as int] == v);
            }
            if es.contains(v) {
                let a = choose|a: int|
                    0 <= a < members@.len() && tags[members@[a] as int] == want_local && #[trigger] hs[members@[a] as int]
                        == v;
                let x = choose|x: int| 0 <= x < src.len() && #[trigger] src[x] == a;
                assert(crate::order::visits(order@, x));
                let i = choose|i: int| 0 <= i < order@.len() && order@[i] == x;
                assert(q[i] == v);
            }
        }
        assert(q.to_set() =~= es);
    }
    let mut out = String::new();
    let mut pos: usize = start;
    let mut k: usize = 0;
    proof {
        assert(q.skip(0) =~= q);
        assert(out@ + patch(bt, pos as int, end as int, q.skip(0)) =~= patch(bt, start as int, end as int, q));
    }
    while k < order.len()
        invariant
            k <= order@.len() == q.len() == picked@.len(),
            bt == token_texts(base@),
            start <= pos <= end <= base@.len(),
            spaced(start as int, end as int, q),
            forall|i: int| 0 <= i < q.len() ==> q[i] == pv[order@[i] as int],
            forall|i: int| 0 <= i < order@.len() ==> (#[trigger] order@[i]) < picked@.len(),
            pv == picked@.map_values(|h: &SideHunk| h@),
            k > 0 ==> pos == q[k - 1].1,
            k == 0 ==> pos == start,
            patch(bt, start as int, end as int, q) == out@ + patch(bt, pos as int, end as int, q.skip(k as int)),
        decreases order@.len() - k,
    {
        let h = picked[order[k]];
        proof {
            assert(h@ == q[k as int]);
            if k > 0 {
                assert(q[k - 1].1 < q[k as int].0);
            }
            assert(q.skip(k as int)[0] == q[k as int]);
            assert(q.skip(k as int).drop_first() =~= q.skip(k + 1));
        }
        let gap = join(base, pos, h.start);
        crate::strings::push_str(&mut out, gap.as_str());
        crate::strings::push_str(&mut out, h.text.as_str());
        pos = h.end;
        k = k + 1;
    }
    proof {
        assert(q.skip(k as int).len() == 0);
    }
    let tail = join(base, pos, end);
    crate::strings::push_str(&mut out, tail.as_str());
    proof {
        assert(q.skip(0) =~= q);
        assert(spaced(start as int, end as int, q) && q.to_set() == side_members(hs, tags, members@, want_local)
            && patch(bt, start as int, end as int, q) == out@);
    }
    out
}

/// The indices a list holds.
pub open spec fn seq_set(ms: Seq<usize>) -> Set<int> {
    Set::new(|x: int| exists|t: int| 0 <= t < ms.len() && ms[t] == x)
}

/// `ms` lists, in increasing order, the indices labelled `g`.
spec fn members_list(group: Seq<usize>, g: int, ms: Seq<usize>) -> bool {
    &&& forall|t: int| 0 <= t < ms.len() ==> (#[trigger] ms[t]) < group.len() && group[ms[t] as int] == g
    &&& forall|t: int, u: int| 0 <= t < u < ms.len() ==> (#[trigger] ms[t]) < (#[trigger] ms[u])
    &&& forall|x: int| 0 <= x < group.len() && group[x] == g ==> exists|t: int| 0 <= t < ms.len() && #[trigger] ms[t] == x
}

proof fn lemma_members_class(group: Seq<usize>, g: int, ms: Seq<usize>)
    requires
        members_list(group, g, ms),
    ensures
        seq_set(ms) == class(group, g),
{
    assert forall|x: int| seq_set(ms).contains(x) == class(group, g).contains(x) by {
        if seq_set(ms).contains(x) {
            let t = choose|t: int| 0 <= t < ms.len() && ms[t] == x;
            assert(ms[t] < group.len());
        }
        if class(group, g).contains(x) {
            let t = choose|t: int| 0 <= t < ms.len() && #[trigger] ms[t] == x;
        }
    }
    assert(seq_set(ms) =~= class(group, g));
}

/// The indices labelled `g`, in increasing order.
fn class_members(group: &Vec<usize>, g: usize) -> (ms: Vec<usize>)
    ensures
        members_list(group@, g as int, ms@),
{
    let mut ms: Vec<usize> = Vec::new();
    let mut i: usize = 0;
    while i < group.len()
        invariant
            i <= group@.len(),
            forall|t: int| 0 <= t < ms@.len() ==> (#[trigger] ms@[t]) < i && group@[ms@[t] as int] == g,
            forall|t: int, u: int| 0 <= t < u < ms@.len() ==> (#[trigger] ms@[t]) < (#[trigger] ms@[u]),
            forall|x: int|
                0 <= x < i && group@[x] == g ==> exists|t: int| 0 <= t < ms@.len() && #[trigger] ms@[t] == x,
        decreases group@.len() - i,
    {
        let ghost old = ms@;
        if group[i] == g {
            ms.push(i);
        }
        proof {
            assert forall|x: int|
                0 <= x < i + 1 && group@[x] == g implies exists|t: int| 0 <= t < ms@.len() && #[trigger] ms@[t]
                    == x by {
                if x < i {
                    let t = choose|t: int| 0 <= t < old.len() && #[trigger] old[t] == x;
                    assert(ms@[t] == x);
                } else {
                    assert(ms@[ms@.len() - 1] == x);
                }
            }
        }
        i = i + 1;
    }
    ms
}

/// Where the edits at `ms` start and end, together.
fn span_bounds(all: &Vec<(bool, &SideHunk)>, ms: &Vec<usize>, Ghost(hs): Ghost<Seq<(int, int, Seq<char>)>>) -> (r: (usize, usize))
    requires
        ms@.len() > 0,
        hs.len() == all@.len(),
        forall|k: int| 0 <= k < all@.len() ==> hs[k] == (#[trigger] all@[k]).1@,
        forall|t: int| 0 <= t < ms@.len() ==> (#[trigger] ms@[t]) < all@.len(),
    ensures
        span_of(hs, seq_set(ms@), r.0 as int, r.1 as int),
{
    let first = all[ms[0]].1;
    let mut start = first.start;
    let mut end = first.end;
    proof {
        assert(hs[ms@[0] as int] == all@[ms@[0] as int].1@);
    }
    let mut t: usize = 1;
    while t < ms.len()
        invariant
            1 <= t <= ms@.len(),
            hs.len() == all@.len(),
            forall|k: int| 0 <= k < all@.len() ==> hs[k] == (#[trigger] all@[k]).1@,
            forall|u: int| 0 <= u < ms@.len() ==> (#[trigger] ms@[u]) < all@.len(),
            forall|u: int| 0 <= u < t ==> start <= (#[trigger] hs[ms@[u] as int]).0 && hs[ms@[u] as int].1 <= end,
            exists|u: int| 0 <= u < t && (#[trigger] hs[ms@[u] as int]).0 == start,
            exists|u: int| 0 <= u < t && (#[trigger] hs[ms@[u] as int]).1 == end,
        decreases ms@.len() - t,
    {
        let h = all[ms[t]].1;
        proof {
            assert(hs[ms@[t as int] as int] == all@[ms@[t as int] as int].1@);
        }
        if h.start < start {
            start = h.start;
        }
        if h.end > end {
            end = h.end;
        }
        t = t + 1;
    }
    proof {
        let c = seq_set(ms@);
        assert forall|x: int| c.contains(x) implies start <= (#[trigger] hs[x]).0 && hs[x].1 <= end by {
            let u = choose|u: int| 0 <= u < ms@.len() && ms@[u] == x;
            assert(start <= hs[ms@[u] as int].0);
        }
        let u0 = choose|u: int| 0 <= u < t && (#[trigger] hs[ms@[u] as int]).0 == start;
        let u1 = choose|u: int| 0 <= u < t && (#[trigger] hs[ms@[u] as int]).1 == end;
        assert(c.contains(ms@[u0] as int));
        assert(c.contains(ms@[u1] as int));
    }
    (start, end)
}

/// A stretch of base tokens the merged text replaces. `clash` holds the
/// file's version when both sides changed it, in which case `text` is the
/// session's.
#[derive(Debug)]
struct Region {
    start: usize,
    end: usize,
    text: String,
    clash: Option<String>,
}

impl View for Region {
    type V = (int, int, Seq<char>, Option<Seq<char>>);

    closed spec fn view(&self) -> (int, int, Seq<char>, Option<Seq<char>>) {
        (
            self.start as int,
            self.end as int,
            self.text@,
            match self.clash {
                Some(c) => Some(c@),
                None => None,
            },
        )
    }
}

spec fn region_views(rs: Seq<Region>) -> Seq<(int, int, Seq<char>, Option<Seq<char>>)> {
    rs.map_values(|r: Region| r@)
}

/// The edits of both sides in one list: the file's first, then the session's.
spec fn combined(mine: Seq<SideHunk>, theirs: Seq<SideHunk>) -> Seq<(int, int, Seq<char>)> {
    views(mine) + views(theirs)
}

/// Which side each edit of `combined` is from: `true` for the file's.
pub open spec fn sides(nm: nat, nt: nat) -> Seq<bool> {
    Seq::new(nm, |i: int| true) + Seq::new(nt, |i: int| false)
}

/// The region `v` over the edits at `ms` reads as the session's version when
/// the session touched it and the file's otherwise, and reports the file's
/// version when both did.
pub open spec fn region_text(
    base: Seq<Seq<char>>,
    hs: Seq<(int, int, Seq<char>)>,
    tags: Seq<bool>,
    ms: Seq<usize>,
    v: (int, int, Seq<char>, Option<Seq<char>>),
) -> bool {
    let any_local = exists|t: int| 0 <= t < ms.len() && tags[#[trigger] ms[t] as int];
    let any_remote = exists|t: int| 0 <= t < ms.len() && !tags[#[trigger] ms[t] as int];
    let local = side_members(hs, tags, ms, true);
    let remote = side_members(hs, tags, ms, false);
    &&& if any_remote {
        reads(base, v.0, v.1, remote, v.2)
    } else {
        reads(base, v.0, v.1, local, v.2)
    }
    &&& if any_local && any_remote {
        v.3 is Some && reads(base, v.0, v.1, local, v.3->0)
    } else {
        v.3 is None
    }
}

/// The spans `sp`, with member lists `mems` over the edits `hs`, are the
/// groups of edits that collide with one another: every edit in exactly
/// one, no collision between two, each hanging together, spanning its
/// edits, in the order of the base without overlapping.
pub open spec fn grouped(hs: Seq<(int, int, Seq<char>)>, sp: Seq<(int, int)>, mems: Seq<Seq<usize>>) -> bool {
    &&& sp.len() == mems.len()
    &&& forall|r: int| 0 <= r < mems.len() ==> (#[trigger] mems[r]).len() > 0
    &&& forall|r: int, t: int| 0 <= r < mems.len() && 0 <= t < mems[r].len() ==> (#[trigger] mems[r][t]) < hs.len()
    &&& forall|r: int, t: int, u: int|
        0 <= r < mems.len() && 0 <= t < u < mems[r].len() ==> (#[trigger] mems[r][t]) < (#[trigger] mems[r][u])
    &&& forall|x: int| 0 <= x < hs.len() ==> #[trigger] held(mems, x)
    &&& forall|r1: int, r2: int, t1: int, t2: int|
        0 <= r1 < mems.len() && 0 <= r2 < mems.len() && r1 != r2 && 0 <= t1 < mems[r1].len() && 0 <= t2 < mems[r2].len()
            ==> #[trigger] mems[r1][t1] != #[trigger] mems[r2][t2] && !collide(hs[mems[r1][t1] as int], hs[mems[r2][t2] as int])
    &&& forall|r: int| 0 <= r < mems.len() ==> connected(hs, #[trigger] seq_set(mems[r]))
    &&& forall|r: int| 0 <= r < mems.len() ==> span_of(hs, seq_set(mems[r]), (#[trigger] sp[r]).0, sp[r].1)
    &&& forall|i: int, j: int| 0 <= i < j < sp.len() ==> (#[trigger] sp[i]).1 <= (#[trigger] sp[j]).0
}

/// Where each region starts and ends.
pub open spec fn spans_of(rv: Seq<(int, int, Seq<char>, Option<Seq<char>>)>) -> Seq<(int, int)> {
    rv.map_values(|v: (int, int, Seq<char>, Option<Seq<char>>)| (v.0, v.1))
}

/// The regions `rv`, with member lists `mems`, are the groups of colliding
/// edits, each reading as `region_text` says.
pub open spec fn settled(
    base: Seq<Seq<char>>,
    hs: Seq<(int, int, Seq<char>)>,
    tags: Seq<bool>,
    rv: Seq<(int, int, Seq<char>, Option<Seq<char>>)>,
    mems: Seq<Seq<usize>>,
) -> bool {
    &&& grouped(hs, spans_of(rv), mems)
    &&& forall|r: int| 0 <= r < mems.len() ==> region_text(base, hs, tags, mems[r], #[trigger] rv[r])
}

/// Some region's members hold the index `x`.
pub open spec fn held(mems: Seq<Seq<usize>>, x: int) -> bool {
    exists|r: int, t: int| 0 <= r < mems.len() && 0 <= t < mems[r].len() && #[trigger] mems[r][t] == x
}

/// Some entry has the label `g`.
spec fn labelled(labels: Seq<int>, g: int) -> bool {
    exists|e: int| 0 <= e < labels.len() && #[trigger] labels[e] == g
}

/// One span of the clustering: the edits labelled `label`, and where they
/// start and end together.
spec fn entry_ok(hs: Seq<(int, int, Seq<char>)>, group: Seq<usize>, label: int, e: (usize, usize, Vec<usize>)) -> bool {
    &&& e.2@.len() > 0
    &&& members_list(group, label, e.2@)
    &&& span_of(hs, seq_set(e.2@), e.0 as int, e.1 as int)
}

/// Two distinct classes, in stable order by span, do not overlap: the first
/// ends where or before the second starts.
proof fn lemma_entries_ordered(
    hs: Seq<(int, int, Seq<char>)>,
    tags: Seq<bool>,
    group: Seq<usize>,
    keys: Seq<(usize, usize)>,
    la: int,
    lb: int,
    ea: (usize, usize, Vec<usize>),
    eb: (usize, usize, Vec<usize>),
    a: int,
    b: int,
)
    requires
        group.len() == hs.len(),
        tags.len() == hs.len(),
        forward(hs),
        forall|x: int, y: int|
            0 <= x < hs.len() && 0 <= y < hs.len() && x != y && tags[x] == tags[y] ==> apart(
                #[trigger] hs[x],
                #[trigger] hs[y],
            ),
        forall|g: int| connected(hs, #[trigger] class(group, g)),
        forall|x: int, y: int|
            0 <= x < hs.len() && 0 <= y < hs.len() && collide(hs[x], hs[y]) ==> #[trigger] group[x]
                == #[trigger] group[y],
        entry_ok(hs, group, la, ea),
        entry_ok(hs, group, lb, eb),
        la != lb,
        0 <= a < keys.len(),
        0 <= b < keys.len(),
        keys[a] == (ea.0, ea.1),
        keys[b] == (eb.0, eb.1),
        before(keys, a, b),
    ensures
        ea.1 <= eb.0,
{
    lemma_members_class(group, la, ea.2@);
    lemma_members_class(group, lb, eb.2@);
    let c = class(group, la);
    let d = class(group, lb);
    assert forall|x: int, y: int| c.contains(x) && d.contains(y) implies !collide(hs[x], hs[y]) by {
        if collide(hs[x], hs[y]) {
            assert(group[x] == group[y]);
        }
    }
    let xa = choose|x: int| c.contains(x) && (#[trigger] hs[x]).0 == ea.0;
    let xb = choose|x: int| d.contains(x) && (#[trigger] hs[x]).0 == eb.0;
    assert(ea.0 <= hs[xa].1 <= ea.1);
    assert(eb.0 <= hs[xb].1 <= eb.1);
    lemma_classes_apart(hs, tags, c, d, ea.0 as int, ea.1 as int, eb.0 as int, eb.1 as int);
}

/// Groups colliding edits into regions, resolving each mixed group to the
/// session's text and reporting it.
#[verifier::spinoff_prover]
fn cluster(base: &[Token<'_>], mine: &[SideHunk], theirs: &[SideHunk]) -> (r: (Vec<Region>, Ghost<Seq<Seq<usize>>>))
    requires
        spaced(0, base@.len() as int, views(mine@)),
        spaced(0, base@.len() as int, views(theirs@)),
        mine@.len() + theirs@.len() <= usize::MAX,
    ensures
        settled(
            token_texts(base@),
            combined(mine@, theirs@),
            sides(mine@.len(), theirs@.len()),
            region_views(r.0@),
            r.1@,
        ),
{
    let ghost hs = combined(mine@, theirs@);
    let ghost tags = sides(mine@.len(), theirs@.len());
    let ghost nb = base@.len() as int;
    // (is_local, hunk), grouped by the collision relation and then by plain
    // interval overlap, so a region can never contain a stray edit that was
    // only nested inside it.
    let mut all: Vec<(bool, &SideHunk)> = Vec::new();
    let mut i: usize = 0;
    while i < mine.len()
        invariant
            i <= mine@.len(),
            all@.len() == i,
            forall|k: int| 0 <= k < i ==> (#[trigger] all@[k]).0 && all@[k].1 == mine@[k],
        decreases mine@.len() - i,
    {
        all.push((true, &mine[i]));
        i = i + 1;
    }
    let mut j: usize = 0;
    while j < theirs.len()
        invariant
            j <= theirs@.len(),
            mine@.len() + theirs@.len() <= usize::MAX,
            all@.len() == mine@.len() + j,
            forall|k: int| 0 <= k < mine@.len() ==> (#[trigger] all@[k]).0 && all@[k].1 == mine@[k],
            forall|k: int| 0 <= k < j ==> !(#[trigger] all@[mine@.len() + k]).0 && all@[mine@.len() + k].1 == theirs@[k],
        decreases theirs@.len() - j,
    {
        all.push((false, &theirs[j]));
        j = j + 1;
    }
    let n = all.len();
    proof {
        let nm = mine@.len() as int;
        assert forall|k: int| 0 <= k < all@.len() implies hs[k] == (#[trigger] all@[k]).1@ && tags[k] == all@[k].0 by {
            if k < nm {
                assert(hs[k] == views(mine@)[k]);
            } else {
                assert(all@[nm + (k - nm)] == all@[k]);
                assert(hs[k] == views(theirs@)[k - nm]);
            }
        }
        assert forall|x: int| 0 <= x < hs.len() implies (#[trigger] hs[x]).0 <= hs[x].1 && 0 <= hs[x].0 && hs[x].1 <= nb by {
            if x < nm {
                assert(hs[x] == views(mine@)[x]);
            } else {
                assert(hs[x] == views(theirs@)[x - nm]);
            }
        }
        assert forall|x: int, y: int|
            0 <= x < hs.len() && 0 <= y < hs.len() && x != y && tags[x] == tags[y] implies apart(
                #[trigger] hs[x],
                #[trigger] hs[y],
            ) by {
            if x < nm {
                assert(y < nm);
                assert(hs[x] == views(mine@)[x] && hs[y] == views(mine@)[y]);
                if x < y {
                    assert(views(mine@)[x].1 < views(mine@)[y].0);
                } else {
                    assert(views(mine@)[y].1 < views(mine@)[x].0);
                }
            } else {
                assert(y >= nm);
                assert(hs[x] == views(theirs@)[x - nm] && hs[y] == views(theirs@)[y - nm]);
                if x < y {
                    assert(views(theirs@)[x - nm].1 < views(theirs@)[y - nm].0);
                } else {
                    assert(views(theirs@)[y - nm].1 < views(theirs@)[x - nm].0);
                }
            }
        }
        assert(listed(all@, hs, tags));
    }
    let group = group_edits(&all, Ghost(hs));
    cluster_spans(base, &all, &group, Ghost(hs), Ghost(tags))
}

/// Whether any of the edits at `ms` is from side `want`.
fn any_side(all: &Vec<(bool, &SideHunk)>, ms: &Vec<usize>, want: bool, Ghost(tags): Ghost<Seq<bool>>) -> (r: bool)
    requires
        tags.len() == all@.len(),
        forall|k: int| 0 <= k < all@.len() ==> tags[k] == (#[trigger] all@[k]).0,
        forall|t: int| 0 <= t < ms@.len() ==> (#[trigger] ms@[t]) < all@.len(),
    ensures
        r == exists|t: int| 0 <= t < ms@.len() && tags[#[trigger] ms@[t] as int] == want,
{
    let mut t: usize = 0;
    while t < ms.len()
        invariant
            t <= ms@.len(),
            tags.len() == all@.len(),
            forall|k: int| 0 <= k < all@.len() ==> tags[k] == (#[trigger] all@[k]).0,
            forall|u: int| 0 <= u < ms@.len() ==> (#[trigger] ms@[u]) < all@.len(),
            forall|u: int| 0 <= u < t ==> tags[#[trigger] ms@[u] as int] != want,
        decreases ms@.len() - t,
    {
        if all[ms[t]].0 == want {
            proof {
                assert(tags[ms@[t as int] as int] == all@[ms@[t as int] as int].0);
            }
            return true;
        }
        proof {
            assert(tags[ms@[t as int] as int] == all@[ms@[t as int] as int].0);
        }
        t = t + 1;
    }
    false
}

/// The regions of labelled edits: each label's span, in stable order by
/// span, folded where spans overlap, and read on each side.
#[verifier::spinoff_prover]
fn cluster_spans(
    base: &[Token<'_>],
    all: &Vec<(bool, &SideHunk)>,
    group: &Vec<usize>,
    Ghost(hs): Ghost<Seq<(int, int, Seq<char>)>>,
    Ghost(tags): Ghost<Seq<bool>>,
) -> (r: (Vec<Region>, Ghost<Seq<Seq<usize>>>))
    requires
        listed(all@, hs, tags),
        forall|x: int| 0 <= x < hs.len() ==> 0 <= (#[trigger] hs[x]).0 && hs[x].1 <= base@.len(),
        group@.len() == hs.len(),
        forall|k: int| 0 <= k < hs.len() ==> (#[trigger] group@[k]) < hs.len(),
        forall|g: int| connected(hs, #[trigger] class(group@, g)),
        forall|a: int, b: int|
            0 <= a < hs.len() && 0 <= b < hs.len() && collide(hs[a], hs[b]) ==> #[trigger] group@[a]
                == #[trigger] group@[b],
    ensures
        settled(token_texts(base@), hs, tags, region_views(r.0@), r.1@),
{
    let n = all.len();
    let mut spans: Vec<(usize, usize, Vec<usize>)> = Vec::new();
    let ghost mut labels: Seq<int> = seq![];
    let mut g: usize = 0;
    while g < n
        invariant
            g <= n == hs.len() == all@.len() == group@.len(),
            listed(all@, hs, tags),
            spans@.len() == labels.len(),
            forall|e: int| 0 <= e < labels.len() ==> 0 <= #[trigger] labels[e] < g,
            forall|e: int, f: int| 0 <= e < f < labels.len() ==> #[trigger] labels[e] < #[trigger] labels[f],
            forall|e: int| 0 <= e < labels.len() ==> entry_ok(hs, group@, labels[e], #[trigger] spans@[e]),
            forall|x: int|
                0 <= x < n && group@[x] < g ==> exists|e: int| 0 <= e < labels.len() && #[trigger] labels[e] == group@[x],
        decreases n - g,
    {
        let members = class_members(group, g);
        if members.len() > 0 {
            let (start, end) = span_bounds(all, &members, Ghost(hs));
            let ghost old_labels = labels;
            spans.push((start, end, members));
            proof {
                labels = labels.push(g as int);
                assert forall|x: int|
                    0 <= x < n && group@[x] < g + 1 implies exists|e: int| 0 <= e < labels.len() && #[trigger] labels[e]
                        == group@[x] by {
                    if group@[x] < g {
                        let e = choose|e: int| 0 <= e < old_labels.len() && #[trigger] old_labels[e] == group@[x];
                        assert(labels[e] == group@[x]);
                    } else {
                        assert(labels[labels.len() - 1] == group@[x]);
                    }
                }
            }
        } else {
            proof {
                assert forall|x: int|
                    0 <= x < n && group@[x] < g + 1 implies exists|e: int| 0 <= e < labels.len() && #[trigger] labels[e]
                        == group@[x] by {
                    if group@[x] == g {
                        let t = choose|t: int| 0 <= t < members@.len() && #[trigger] members@[t] == x;
                    }
                }
            }
        }
        g = g + 1;
    }
    let ns = spans.len();
    proof {
        assert forall|x: int| 0 <= x < n implies #[trigger] labelled(labels, group@[x] as int) by {
            let e = choose|e: int| 0 <= e < labels.len() && #[trigger] labels[e] == group@[x];
        }
    }
    let mut keys: Vec<(usize, usize)> = Vec::new();
    let mut e: usize = 0;
    while e < ns
        invariant
            e <= ns == spans@.len(),
            keys@.len() == e,
            forall|f: int| 0 <= f < e ==> #[trigger] keys@[f] == (spans@[f].0, spans@[f].1),
        decreases ns - e,
    {
        keys.push((spans[e].0, spans[e].1));
        e = e + 1;
    }
    let order = sort_order(&keys);
    let mut merged: Vec<(usize, usize, Vec<usize>)> = Vec::new();
    let mut k: usize = 0;
    while k < ns
        invariant
            k <= ns == spans@.len() == keys@.len() == labels.len(),
            n == hs.len() == all@.len() == group@.len(),
            listed(all@, hs, tags),
            forall|x: int| 0 <= x < hs.len() ==> (#[trigger] group@[x]) < hs.len(),
            forall|g: int| connected(hs, #[trigger] class(group@, g)),
            forall|a: int, b: int|
                0 <= a < hs.len() && 0 <= b < hs.len() && collide(hs[a], hs[b]) ==> #[trigger] group@[a]
                    == #[trigger] group@[b],
            sorted_order(keys@, order@),
            forall|f: int| 0 <= f < ns ==> #[trigger] keys@[f] == (spans@[f].0, spans@[f].1),
            forall|e: int, f: int| 0 <= e < f < labels.len() ==> #[trigger] labels[e] < #[trigger] labels[f],
            forall|e: int| 0 <= e < labels.len() ==> entry_ok(hs, group@, labels[e], #[trigger] spans@[e]),
            merged@.len() == k,
            forall|j: int|
                0 <= j < k ==> (#[trigger] merged@[j]).0 == spans@[order@[j] as int].0 && merged@[j].1
                    == spans@[order@[j] as int].1 && merged@[j].2@ == spans@[order@[j] as int].2@,
            forall|x: int| 0 <= x < n ==> #[trigger] labelled(labels, group@[x] as int),
        decreases ns - k,
    {
        let idx = order[k];
        let start = spans[idx].0;
        let end = spans[idx].1;
        let count = merged.len();
        proof {
            if k > 0 {
                let prev = order@[k - 1] as int;
                lemma_order_distinct(keys@, order@, k - 1, k as int);
                assert(before(keys@, prev, idx as int));
                if labels[prev] == labels[idx as int] {
                    if prev < idx {
                        assert(labels[prev] < labels[idx as int]);
                    } else {
                        assert(labels[idx as int] < labels[prev]);
                    }
                }
                lemma_entries_ordered(hs, tags, group@, keys@, labels[prev], labels[idx as int], spans@[prev], spans@[idx as int], prev, idx as int);
            }
        }
        let source: &Vec<usize> = &spans[idx].2;
        if count > 0 && start < merged[count - 1].1 && merged[count - 1].0 < end {
            let mut last = merged.pop().unwrap();
            if end > last.1 {
                last.1 = end;
            }
            let mut t: usize = 0;
            while t < source.len()
                decreases source@.len() - t,
            {
                last.2.push(source[t]);
                t = t + 1;
            }
            merged.push(last);
        } else {
            let mut members: Vec<usize> = Vec::new();
            let mut t: usize = 0;
            while t < source.len()
                invariant
                    t <= source@.len(),
                    members@ == source@.take(t as int),
                decreases source@.len() - t,
            {
                members.push(source[t]);
                proof {
                    assert(source@.take(t + 1) =~= source@.take(t as int).push(source@[t as int]));
                }
                t = t + 1;
            }
            proof {
                assert(source@.take(source@.len() as int) =~= source@);
            }
            merged.push((start, end, members));
        }
        k = k + 1;
    }
    let ghost mm: Seq<Seq<usize>> = Seq::new(ns as nat, |j: int| merged@[j].2@);
    let ghost sp: Seq<(int, int)> = Seq::new(ns as nat, |j: int| (merged@[j].0 as int, merged@[j].1 as int));
    proof {
        assert forall|r: int| 0 <= r < mm.len() implies (#[trigger] mm[r]).len() > 0 && members_list(
            group@,
            labels[order@[r] as int],
            mm[r],
        ) && span_of(hs, seq_set(mm[r]), sp[r].0, sp[r].1) && seq_set(mm[r]) == class(
            group@,
            labels[order@[r] as int],
        ) by {
            let e = order@[r] as int;
            assert(entry_ok(hs, group@, labels[e], spans@[e]));
            lemma_members_class(group@, labels[e], mm[r]);
        }
        assert forall|x: int| 0 <= x < hs.len() implies #[trigger] held(mm, x) by {
            assert(labelled(labels, group@[x] as int));
            let e = choose|e: int| 0 <= e < labels.len() && #[trigger] labels[e] == group@[x];
            assert(entry_ok(hs, group@, labels[e], spans@[e]));
            let t = choose|t: int| 0 <= t < spans@[e].2@.len() && #[trigger] spans@[e].2@[t] == x;
            assert(crate::order::visits(order@, e));
            let r = choose|r: int| 0 <= r < order@.len() && order@[r] == e;
            assert(mm[r][t] == x);
        }
        assert forall|r1: int, r2: int, t1: int, t2: int|
            0 <= r1 < mm.len() && 0 <= r2 < mm.len() && r1 != r2 && 0 <= t1 < mm[r1].len() && 0 <= t2 < mm[r2].len()
                implies #[trigger] mm[r1][t1] != #[trigger] mm[r2][t2] && !collide(hs[mm[r1][t1] as int], hs[mm[r2][t2] as int]) by {
            let e1 = order@[r1] as int;
            let e2 = order@[r2] as int;
            lemma_order_distinct(keys@, order@, r1, r2);
            assert(members_list(group@, labels[e1], mm[r1]));
            assert(members_list(group@, labels[e2], mm[r2]));
            if e1 < e2 {
                assert(labels[e1] < labels[e2]);
            } else {
                assert(labels[e2] < labels[e1]);
            }
            assert(group@[mm[r1][t1] as int] != group@[mm[r2][t2] as int]);
        }
        assert forall|i: int, j: int| 0 <= i < j < sp.len() implies (#[trigger] sp[i]).1 <= (#[trigger] sp[j]).0 by {
            let e1 = order@[i] as int;
            let e2 = order@[j] as int;
            lemma_order_distinct(keys@, order@, i, j);
            if labels[e1] == labels[e2] {
                if e1 < e2 {
                    assert(labels[e1] < labels[e2]);
                } else {
                    assert(labels[e2] < labels[e1]);
                }
            }
            lemma_entries_ordered(hs, tags, group@, keys@, labels[e1], labels[e2], spans@[e1], spans@[e2], e1, e2);
        }
        assert(grouped(hs, sp, mm));
    }
    let mut regions: Vec<Region> = Vec::new();
    let mut k: usize = 0;
    while k < merged.len()
        invariant
            k <= merged@.len() == ns == mm.len() == sp.len(),
            listed(all@, hs, tags),
            forall|x: int| 0 <= x < hs.len() ==> 0 <= (#[trigger] hs[x]).0 && hs[x].1 <= base@.len(),
            grouped(hs, sp, mm),
            forall|j: int| 0 <= j < ns ==> #[trigger] mm[j] == merged@[j].2@,
            forall|j: int| 0 <= j < ns ==> #[trigger] sp[j] == (merged@[j].0 as int, merged@[j].1 as int),
            regions@.len() == k,
            forall|j: int| 0 <= j < k ==> (#[trigger] region_views(regions@)[j]).0 == sp[j].0
                && region_views(regions@)[j].1 == sp[j].1,
            forall|j: int| 0 <= j < k ==> region_text(token_texts(base@), hs, tags, mm[j], #[trigger] region_views(regions@)[j]),
        decreases ns - k,
    {
        let entry = &merged[k];
        let ghost ms = entry.2@;
        proof {
            assert(mm[k as int] == ms);
            assert(span_of(hs, seq_set(mm[k as int]), sp[k as int].0, sp[k as int].1));
            assert forall|t: int| 0 <= t < ms.len() implies entry.0 <= (#[trigger] hs[ms[t] as int]).0
                && hs[ms[t] as int].1 <= entry.1 by {
                assert(seq_set(ms).contains(ms[t] as int));
            }
            assert forall|t: int, u: int| 0 <= t < u < ms.len() implies ms[t] != ms[u] by {
                assert(mm[k as int][t] < mm[k as int][u]);
            }
            assert forall|t: int| 0 <= t < ms.len() implies (#[trigger] ms[t]) < all@.len() by {
                assert(mm[k as int][t] < hs.len());
            }
            let x = choose|x: int| seq_set(ms).contains(x) && (#[trigger] hs[x]).1 == entry.1;
            let w = choose|t: int| 0 <= t < ms.len() && ms[t] == x;
            assert(hs[x].1 <= base@.len());
            let y = choose|x: int| seq_set(ms).contains(x) && (#[trigger] hs[x]).0 == entry.0;
            assert(hs[y].0 <= hs[y].1);
        }
        let local = rewrite(base, entry.0, entry.1, entry.2.as_slice(), all.as_slice(), true, Ghost(hs), Ghost(tags));
        let remote = rewrite(base, entry.0, entry.1, entry.2.as_slice(), all.as_slice(), false, Ghost(hs), Ghost(tags));
        let any_local = any_side(all, &entry.2, true, Ghost(tags));
        let any_remote = any_side(all, &entry.2, false, Ghost(tags));
        let both = any_local && any_remote;
        let clash = if both {
            Some(local.clone())
        } else {
            None
        };
        let text = if both || !any_local {
            remote
        } else {
            local
        };
        let region = Region { start: entry.0, end: entry.1, text, clash };
        let ghost prev = regions@;
        regions.push(region);
        proof {
            assert(region_views(regions@) =~= region_views(prev).push(region@));
            assert(region_text(token_texts(base@), hs, tags, ms, region@));
        }
        k = k + 1;
    }
    proof {
        assert(spans_of(region_views(regions@)) =~= sp);
    }
    (regions, Ghost(mm))
}

/// The edits of `m` that `t` makes too (`both`), or that it does not, in
/// the order of `m`.
pub open spec fn shared(
    m: Seq<(int, int, Seq<char>)>,
    t: Seq<(int, int, Seq<char>)>,
    both: bool,
) -> Seq<(int, int, Seq<char>)>
    decreases m.len(),
{
    if m.len() == 0 {
        m
    } else {
        let rest = shared(m.drop_last(), t, both);
        if t.contains(m.last()) == both {
            rest.push(m.last())
        } else {
            rest
        }
    }
}

/// What `shared` keeps of `m`: exactly its edits that `t` makes, or does
/// not make, as asked.
proof fn lemma_shared_contains(m: Seq<(int, int, Seq<char>)>, t: Seq<(int, int, Seq<char>)>, both: bool, y: (int, int, Seq<char>))
    ensures
        shared(m, t, both).contains(y) == (m.contains(y) && t.contains(y) == both),
    decreases m.len(),
{
    if m.len() > 0 {
        lemma_shared_contains(m.drop_last(), t, both, y);
        let rest = shared(m.drop_last(), t, both);
        if m.contains(y) {
            let i = choose|i: int| 0 <= i < m.len() && m[i] == y;
            if i < m.len() - 1 {
                assert(m.drop_last()[i] == y);
            }
        }
        if m.drop_last().contains(y) {
            let i = choose|i: int| 0 <= i < m.len() - 1 && m.drop_last()[i] == y;
            assert(m[i] == y);
        }
        if t.contains(m.last()) == both {
            let f = rest.push(m.last());
            if f.contains(y) {
                let i = choose|i: int| 0 <= i < f.len() && f[i] == y;
                if i < rest.len() {
                    assert(rest[i] == y);
                }
            }
            if rest.contains(y) {
                let i = choose|i: int| 0 <= i < rest.len() && rest[i] == y;
                assert(f[i] == y);
            }
            assert(f[rest.len() as int] == m.last());
            assert(f.contains(y) == (rest.contains(y) || y == m.last()));
        }
    }
}

/// `f` takes the edits of `m` at the rising indices `ix`.
spec fn picks(m: Seq<(int, int, Seq<char>)>, f: Seq<(int, int, Seq<char>)>, ix: Seq<int>) -> bool {
    &&& ix.len() == f.len()
    &&& forall|i: int| 0 <= i < ix.len() ==> 0 <= #[trigger] ix[i] < m.len() && m[ix[i]] == f[i]
    &&& forall|i: int, j: int| 0 <= i < j < ix.len() ==> #[trigger] ix[i] < #[trigger] ix[j]
}

/// `shared` keeps a subsequence: each kept edit sits at an index of `m`,
/// and the indices rise.
proof fn lemma_shared_indices(m: Seq<(int, int, Seq<char>)>, t: Seq<(int, int, Seq<char>)>, both: bool)
    ensures
        exists|ix: Seq<int>| #[trigger] picks(m, shared(m, t, both), ix),
    decreases m.len(),
{
    if m.len() == 0 {
        let ix: Seq<int> = seq![];
        assert(picks(m, shared(m, t, both), ix));
    } else {
        lemma_shared_indices(m.drop_last(), t, both);
        let rest = shared(m.drop_last(), t, both);
        let ix0 = choose|ix: Seq<int>| #[trigger] picks(m.drop_last(), rest, ix);
        if t.contains(m.last()) == both {
            let ix = ix0.push(m.len() - 1);
            assert forall|i: int| 0 <= i < ix.len() implies 0 <= #[trigger] ix[i] < m.len() && m[ix[i]] == shared(m, t, both)[i] by {
                if i < ix0.len() {
                    assert(m.drop_last()[ix0[i]] == m[ix0[i]]);
                }
            }
            assert(picks(m, shared(m, t, both), ix));
        } else {
            assert forall|i: int| 0 <= i < ix0.len() implies 0 <= #[trigger] ix0[i] < m.len() && m[ix0[i]] == shared(m, t, both)[i] by {
                assert(m.drop_last()[ix0[i]] == m[ix0[i]]);
            }
            assert(picks(m, shared(m, t, both), ix0));
        }
    }
}

/// What `shared` keeps of spaced edits is spaced.
proof fn lemma_shared_spaced(m: Seq<(int, int, Seq<char>)>, t: Seq<(int, int, Seq<char>)>, both: bool, lo: int, hi: int)
    requires
        spaced(lo, hi, m),
    ensures
        spaced(lo, hi, shared(m, t, both)),
{
    lemma_shared_indices(m, t, both);
    let f = shared(m, t, both);
    let ix = choose|ix: Seq<int>| #[trigger] picks(m, f, ix);
    assert forall|i: int| 0 <= i < f.len() implies lo <= (#[trigger] f[i]).0 <= f[i].1 <= hi by {
        assert(m[ix[i]] == f[i]);
    }
    assert forall|i: int, j: int| 0 <= i < j < f.len() implies (#[trigger] f[i]).1 < (#[trigger] f[j]).0 by {
        assert(ix[i] < ix[j]);
        assert(m[ix[i]].1 < m[ix[j]].0);
    }
}

/// Excluding an edit that `t` does not make changes nothing.
proof fn lemma_shared_absent(t: Seq<(int, int, Seq<char>)>, x: Seq<(int, int, Seq<char>)>, h: (int, int, Seq<char>))
    requires
        !t.contains(h),
    ensures
        shared(t, x.push(h), false) == shared(t, x, false),
    decreases t.len(),
{
    if t.len() > 0 {
        assert(!t.drop_last().contains(h)) by {
            if t.drop_last().contains(h) {
                let i = choose|i: int| 0 <= i < t.len() - 1 && t.drop_last()[i] == h;
                assert(t[i] == h);
            }
        }
        lemma_shared_absent(t.drop_last(), x, h);
        assert(t.last() != h) by {
            assert(t[t.len() - 1] == t.last());
        }
        assert(x.push(h).contains(t.last()) == x.contains(t.last())) by {
            if x.push(h).contains(t.last()) {
                let i = choose|i: int| 0 <= i < x.len() + 1 && x.push(h)[i] == t.last();
                assert(i < x.len());
                assert(x[i] == t.last());
            }
            if x.contains(t.last()) {
                let i = choose|i: int| 0 <= i < x.len() && x[i] == t.last();
                assert(x.push(h)[i] == t.last());
            }
        }
    }
}

/// Excluding nothing keeps everything.
proof fn lemma_shared_none(t: Seq<(int, int, Seq<char>)>)
    ensures
        shared(t, Seq::<(int, int, Seq<char>)>::empty(), false) == t,
    decreases t.len(),
{
    if t.len() > 0 {
        lemma_shared_none(t.drop_last());
        assert(t.drop_last().push(t.last()) =~= t);
    }
}

/// Edits of one list never repeat.
pub open spec fn distinct(t: Seq<(int, int, Seq<char>)>) -> bool {
    forall|i: int, j: int| 0 <= i < j < t.len() ==> t[i] != t[j]
}

/// Excluding an edit that `t` makes once removes it from what is kept.
proof fn lemma_shared_drop(t: Seq<(int, int, Seq<char>)>, x: Seq<(int, int, Seq<char>)>, h: (int, int, Seq<char>), p: int)
    requires
        distinct(t),
        !x.contains(h),
        0 <= p < shared(t, x, false).len(),
        shared(t, x, false)[p] == h,
    ensures
        shared(t, x.push(h), false) == shared(t, x, false).remove(p),
    decreases t.len(),
{
    let f = shared(t, x, false);
    let rest = shared(t.drop_last(), x, false);
    let z = t.last();
    assert(t.len() > 0);
    assert(distinct(t.drop_last()));
    assert(x.push(h).contains(z) == (x.contains(z) || z == h)) by {
        if x.push(h).contains(z) {
            let i = choose|i: int| 0 <= i < x.len() + 1 && x.push(h)[i] == z;
            if i < x.len() {
                assert(x[i] == z);
            }
        }
        if x.contains(z) {
            let i = choose|i: int| 0 <= i < x.len() && x[i] == z;
            assert(x.push(h)[i] == z);
        }
        if z == h {
            assert(x.push(h)[x.len() as int] == z);
        }
    }
    if z == h {
        assert(!x.contains(z));
        assert(f == rest.push(z));
        assert(!t.drop_last().contains(h)) by {
            if t.drop_last().contains(h) {
                let i = choose|i: int| 0 <= i < t.len() - 1 && t.drop_last()[i] == h;
                assert(t[i] == t[t.len() - 1]);
            }
        }
        lemma_shared_absent(t.drop_last(), x, h);
        lemma_shared_contains(t.drop_last(), x, false, h);
        if p < rest.len() {
            assert(rest.contains(h)) by {
                assert(rest[p] == h);
            }
        }
        assert(p == rest.len());
        assert(f.remove(p) =~= rest);
    } else if !x.contains(z) {
        assert(f == rest.push(z));
        assert(p < rest.len()) by {
            if p == rest.len() {
                assert(f[p] == z);
            }
        }
        assert(rest[p] == h);
        lemma_shared_drop(t.drop_last(), x, h, p);
        assert(f.remove(p) =~= rest.remove(p).push(z));
    } else {
        assert(f == rest);
        lemma_shared_drop(t.drop_last(), x, h, p);
    }
}

/// Spaced edits number at most one more than the tokens they lie in.
proof fn lemma_spaced_len(lo: int, hi: int, hs: Seq<(int, int, Seq<char>)>)
    requires
        spaced(lo, hi, hs),
        lo <= hi,
    ensures
        hs.len() <= hi - lo + 1,
{
    assert forall|i: int| 0 <= i < hs.len() implies (#[trigger] hs[i]).0 >= lo + i by {
        lemma_spaced_start(lo, hi, hs, i);
    }
    if hs.len() > 0 {
        assert(hs[hs.len() - 1].0 >= lo + hs.len() - 1);
    }
}

proof fn lemma_spaced_start(lo: int, hi: int, hs: Seq<(int, int, Seq<char>)>, i: int)
    requires
        spaced(lo, hi, hs),
        0 <= i < hs.len(),
    ensures
        hs[i].0 >= lo + i,
    decreases i,
{
    if i > 0 {
        lemma_spaced_start(lo, hi, hs, i - 1);
        assert(hs[i - 1].1 < hs[i].0);
    }
}

/// Two different edits of one spaced list do not share a token.
proof fn lemma_spaced_apart(lo: int, hi: int, hs: Seq<(int, int, Seq<char>)>, u: (int, int, Seq<char>), v: (int, int, Seq<char>))
    requires
        spaced(lo, hi, hs),
        hs.contains(u),
        hs.contains(v),
        u != v,
    ensures
        apart(u, v),
{
    let i = choose|i: int| 0 <= i < hs.len() && hs[i] == u;
    let j = choose|j: int| 0 <= j < hs.len() && hs[j] == v;
    if i < j {
        assert(hs[i].1 < hs[j].0);
    } else {
        assert(hs[j].1 < hs[i].0);
    }
}

/// Spaced edits never repeat.
proof fn lemma_spaced_distinct(lo: int, hi: int, hs: Seq<(int, int, Seq<char>)>)
    requires
        spaced(lo, hi, hs),
    ensures
        distinct(hs),
{
    assert forall|i: int, j: int| 0 <= i < j < hs.len() implies hs[i] != hs[j] by {
        assert(hs[i].1 < hs[j].0);
    }
}

/// A region both sides changed. `at` and `len` locate it in the merged text,
/// which carries `remote`'s version there because the session is what every
/// other peer and every reader is looking at. `local` is what the file said,
/// kept so the caller can print the line that names what it gave up.
#[derive(Debug, Clone, PartialEq, Eq)]
pub struct Conflict {
    pub at: usize,
    pub len: usize,
    pub local: String,
    pub remote: String,
}

/// The merged text, and the regions in it where both sides moved the same
/// tokens.
#[derive(Debug, Clone, PartialEq, Eq)]
pub struct Merged {
    pub text: String,
    pub conflicts: Vec<Conflict>,
}

/// A conflict as values: where, how long, the file's version, the session's.
pub open spec fn conflict_views(cs: Seq<Conflict>) -> Seq<(int, int, Seq<char>, Seq<char>)> {
    cs.map_values(|c: Conflict| (c.at as int, c.len as int, c.local@, c.remote@))
}

/// Where the base resumes after the first `k` regions.
pub open spec fn resume(rv: Seq<(int, int, Seq<char>, Option<Seq<char>>)>, k: int) -> int {
    if k <= 0 {
        0
    } else {
        rv[k - 1].1
    }
}

/// The base before region `k`, from where the regions before it end.
pub open spec fn gap(base: Seq<Seq<char>>, rv: Seq<(int, int, Seq<char>, Option<Seq<char>>)>, k: int) -> Seq<char> {
    concat(base.subrange(resume(rv, k), rv[k].0))
}

/// The merged text through the first `k` regions: the base between them and
/// each region's text.
pub open spec fn rendered(base: Seq<Seq<char>>, rv: Seq<(int, int, Seq<char>, Option<Seq<char>>)>, k: int) -> Seq<char>
    decreases k,
{
    if k <= 0 {
        seq![]
    } else {
        rendered(base, rv, k - 1) + gap(base, rv, k - 1) + rv[k - 1].2
    }
}

/// The merged text: the regions in the base, and the base after the last.
pub open spec fn render(base: Seq<Seq<char>>, rv: Seq<(int, int, Seq<char>, Option<Seq<char>>)>) -> Seq<char> {
    rendered(base, rv, rv.len() as int) + concat(base.subrange(resume(rv, rv.len() as int), base.len() as int))
}

/// The conflicts among the first `k` regions: for each clashing region,
/// where its text starts in the merged text in UTF-16 units, its length,
/// the file's version and the session's.
pub open spec fn clashes(base: Seq<Seq<char>>, rv: Seq<(int, int, Seq<char>, Option<Seq<char>>)>, k: int) -> Seq<(int, int, Seq<char>, Seq<char>)>
    decreases k,
{
    if k <= 0 {
        seq![]
    } else {
        let before = clashes(base, rv, k - 1);
        match rv[k - 1].3 {
            Some(l) => before.push(
                (
                    utf16_len(rendered(base, rv, k - 1) + gap(base, rv, k - 1)) as int,
                    utf16_len(rv[k - 1].2) as int,
                    l,
                    rv[k - 1].2,
                ),
            ),
            None => before,
        }
    }
}

/// The sort keys of regions: where each starts and ends.
pub open spec fn keys_of(all: Seq<(int, int, Seq<char>, Option<Seq<char>>)>) -> Seq<(usize, usize)> {
    all.map_values(|v: (int, int, Seq<char>, Option<Seq<char>>)| (v.0 as usize, v.1 as usize))
}

/// `rv` is `all` in stable order by where each region starts and ends.
pub open spec fn arranged(all: Seq<(int, int, Seq<char>, Option<Seq<char>>)>, rv: Seq<(int, int, Seq<char>, Option<Seq<char>>)>) -> bool {
    exists|order: Seq<usize>|
        #[trigger] sorted_order(keys_of(all), order) && rv == Seq::new(all.len(), |k: int| all[order[k] as int])
}

/// An edit both sides made identically, as a region of its own.
pub open spec fn agreement(a: (int, int, Seq<char>)) -> (int, int, Seq<char>, Option<Seq<char>>) {
    (a.0, a.1, a.2, None)
}

/// The regions `rv` merge the file's edits `m` with the session's `t`
/// over the base: edits both made identically are taken once each; the
/// rest group into the regions of colliding edits that `settled` describes;
/// and all of them come in stable order by where they start and end.
pub open spec fn merge_of(
    base: Seq<Seq<char>>,
    m: Seq<(int, int, Seq<char>)>,
    t: Seq<(int, int, Seq<char>)>,
    rv: Seq<(int, int, Seq<char>, Option<Seq<char>>)>,
) -> bool {
    let kept = shared(m, t, false);
    let theirs = shared(t, m, false);
    let agreed = shared(m, t, true);
    exists|crv: Seq<(int, int, Seq<char>, Option<Seq<char>>)>, mems: Seq<Seq<usize>>|
        #[trigger] settled(base, kept + theirs, sides(kept.len(), theirs.len()), crv, mems)
            && arranged(crv + agreed.map_values(|a: (int, int, Seq<char>)| agreement(a)), rv)
}

/// The merged text through fewer regions is a prefix of it through more.
proof fn lemma_rendered_prefix(base: Seq<Seq<char>>, rv: Seq<(int, int, Seq<char>, Option<Seq<char>>)>, q: int, k: int)
    requires
        0 <= q <= k,
    ensures
        rendered(base, rv, k).take(rendered(base, rv, q).len() as int) == rendered(base, rv, q),
        rendered(base, rv, q).len() <= rendered(base, rv, k).len(),
    decreases k - q,
{
    if q < k {
        lemma_rendered_prefix(base, rv, q, k - 1);
        let a = rendered(base, rv, k - 1);
        let b = rendered(base, rv, k);
        assert(b == a + gap(base, rv, k - 1) + rv[k - 1].2);
        assert(b.take(a.len() as int) =~= a);
        assert(b.take(rendered(base, rv, q).len() as int) =~= a.take(rendered(base, rv, q).len() as int));
    }
}

/// Where a conflict says it is, the session's text is: the merged text
/// holds it starting that many UTF-16 units in, and it is as long as the
/// conflict says.
pub proof fn lemma_conflict_located(
    base: Seq<Seq<char>>,
    rv: Seq<(int, int, Seq<char>, Option<Seq<char>>)>,
    k: int,
    j: int,
)
    requires
        0 <= k <= rv.len(),
        0 <= j < clashes(base, rv, k).len(),
    ensures
        located(render(base, rv), clashes(base, rv, k)[j]),
    decreases k,
{
    let before = clashes(base, rv, k - 1);
    if j < before.len() {
        assert(clashes(base, rv, k)[j] == before[j]) by {
            match rv[k - 1].3 {
                Some(l) => {},
                None => {},
            }
        }
        lemma_conflict_located(base, rv, k - 1, j);
    } else {
        let pre = rendered(base, rv, k - 1) + gap(base, rv, k - 1);
        let c = clashes(base, rv, k)[j];
        assert(rv[k - 1].3 is Some);
        assert(c.0 == utf16_len(pre) && c.1 == utf16_len(rv[k - 1].2) && c.3 == rv[k - 1].2);
        lemma_rendered_prefix(base, rv, k, rv.len() as int);
        let whole = render(base, rv);
        let through = rendered(base, rv, k);
        assert(through == pre + c.3);
        assert(whole.take(through.len() as int) =~= through) by {
            assert(whole == rendered(base, rv, rv.len() as int) + concat(base.subrange(resume(rv, rv.len() as int), base.len() as int)));
            assert(rendered(base, rv, rv.len() as int).take(through.len() as int) == through);
        }
        let post = whole.skip(through.len() as int);
        assert(whole =~= pre + c.3 + post);
    }
}

/// The text `t` holds the conflict `c`'s session text `c.3`, `c.0` UTF-16
/// units in, and `c.1` is that text's length in UTF-16 units.
pub open spec fn located(t: Seq<char>, c: (int, int, Seq<char>, Seq<char>)) -> bool {
    exists|pre: Seq<char>, post: Seq<char>|
        #[trigger] (pre + c.3 + post) == t && utf16_len(pre) == c.0 && c.1 == utf16_len(c.3)
}

/// Some position of `f` holds `v`.
spec fn hits(f: Seq<int>, v: int) -> bool {
    exists|i: int| 0 <= i < f.len() && #[trigger] f[i] == v
}

/// A rising list of indices below `n` that holds every one of them is
/// `0, 1, ..., n - 1`.
proof fn lemma_rising_cover(f: Seq<int>, n: int)
    requires
        n >= 0,
        forall|i: int, j: int| 0 <= i < j < f.len() ==> #[trigger] f[i] < #[trigger] f[j],
        forall|i: int| 0 <= i < f.len() ==> 0 <= #[trigger] f[i] < n,
        forall|v: int| 0 <= v < n ==> #[trigger] hits(f, v),
    ensures
        f.len() == n,
        forall|i: int| 0 <= i < f.len() ==> #[trigger] f[i] == i,
{
    assert forall|i: int| 0 <= i < f.len() implies #[trigger] f[i] >= i by {
        lemma_rising_floor(f, i);
    }
    assert forall|i: int| 0 <= i < f.len() implies #[trigger] f[i] == i by {
        lemma_rising_exact(f, n, i);
    }
    if f.len() < n {
        assert(hits(f, n - 1));
        let i = choose|i: int| 0 <= i < f.len() && #[trigger] f[i] == n - 1;
        assert(f[i] == i);
    }
    if f.len() > n {
        assert(f[n] == n);
        assert(f[n] < n);
    }
}

proof fn lemma_rising_floor(f: Seq<int>, i: int)
    requires
        forall|a: int, b: int| 0 <= a < b < f.len() ==> #[trigger] f[a] < #[trigger] f[b],
        forall|a: int| 0 <= a < f.len() ==> 0 <= #[trigger] f[a],
        0 <= i < f.len(),
    ensures
        f[i] >= i,
    decreases i,
{
    if i > 0 {
        lemma_rising_floor(f, i - 1);
        assert(f[i - 1] < f[i]);
    }
}

proof fn lemma_rising_exact(f: Seq<int>, n: int, i: int)
    requires
        forall|a: int, b: int| 0 <= a < b < f.len() ==> #[trigger] f[a] < #[trigger] f[b],
        forall|a: int| 0 <= a < f.len() ==> 0 <= #[trigger] f[a] < n,
        forall|v: int| 0 <= v < n ==> #[trigger] hits(f, v),
        forall|a: int| 0 <= a < f.len() ==> #[trigger] f[a] >= a,
        0 <= i < f.len(),
    ensures
        f[i] == i,
    decreases i,
{
    if i > 0 {
        lemma_rising_exact(f, n, i - 1);
    }
    if f[i] > i {
        assert(hits(f, i));
        let a = choose|a: int| 0 <= a < f.len() && #[trigger] f[a] == i;
        if a < i {
            lemma_rising_exact(f, n, a);
        } else if a > i {
            assert(f[i] < f[a]);
        }
    }
}

/// Regions that are the session's hunks, each on its own and none clashing,
/// render to the session's text.
proof fn lemma_render_hunks(base: Seq<Seq<char>>, t: Seq<(int, int, Seq<char>)>, rv: Seq<(int, int, Seq<char>, Option<Seq<char>>)>, k: int)
    requires
        rv.len() == t.len(),
        forall|i: int| 0 <= i < t.len() ==> #[trigger] rv[i] == agreement(t[i]),
        0 <= k <= t.len(),
    ensures
        rendered(base, rv, k) + patch(base, resume(rv, k), base.len() as int, t.skip(k)) == patch(base, 0, base.len() as int, t),
        clashes(base, rv, k).len() == 0,
    decreases k,
{
    if k == 0 {
        assert(t.skip(0) =~= t);
        assert(rendered(base, rv, 0) + patch(base, 0, base.len() as int, t) =~= patch(base, 0, base.len() as int, t));
    } else {
        lemma_render_hunks(base, t, rv, k - 1);
        assert(t.skip(k - 1)[0] == t[k - 1]);
        assert(t.skip(k - 1).drop_first() =~= t.skip(k));
        assert(rv[k - 1] == agreement(t[k - 1]));
        assert(resume(rv, k) == t[k - 1].1);
        assert(rendered(base, rv, k) == rendered(base, rv, k - 1) + gap(base, rv, k - 1) + rv[k - 1].2);
        assert(rendered(base, rv, k) + patch(base, resume(rv, k), base.len() as int, t.skip(k))
            =~= rendered(base, rv, k - 1) + patch(base, resume(rv, k - 1), base.len() as int, t.skip(k - 1)));
    }
}

/// A spaced list whose edits are all one edit is that edit alone.
proof fn lemma_single_reading(base: Seq<Seq<char>>, x: (int, int, Seq<char>), text: Seq<char>)
    requires
        0 <= x.0 <= x.1 <= base.len(),
        reads(base, x.0, x.1, Set::<(int, int, Seq<char>)>::empty().insert(x), text),
    ensures
        text == x.2,
{
    let q = choose|q: Seq<(int, int, Seq<char>)>|
        spaced(x.0, x.1, q) && q.to_set() == Set::<(int, int, Seq<char>)>::empty().insert(x) && #[trigger] patch(base, x.0, x.1, q) == text;
    assert(q.to_set().contains(x));
    let i = choose|i: int| 0 <= i < q.len() && q[i] == x;
    assert forall|j: int| 0 <= j < q.len() implies q[j] == x by {
        assert(q.to_set().contains(q[j]));
    }
    if q.len() > 1 {
        assert(q[0].1 < q[1].0);
    }
    assert(q.len() == 1);
    assert(q[0] == x);
    assert(q.drop_first().len() == 0);
    assert(base.subrange(x.0, x.0) =~= Seq::<Seq<char>>::empty());
    assert(base.subrange(x.1, x.1) =~= Seq::<Seq<char>>::empty());
    assert(concat(Seq::<Seq<char>>::empty()) =~= Seq::<char>::empty());
    assert(patch(base, x.1, x.1, q.drop_first()) == concat(base.subrange(x.1, x.1)));
    assert(patch(base, x.0, x.1, q) == concat(base.subrange(x.0, x.0)) + x.2 + patch(base, x.1, x.1, q.drop_first()));
    assert(patch(base, x.0, x.1, q) =~= x.2);
}

/// When the file made no edit, the regions are the session's edits, one
/// each, in order, and none of them clashes.
proof fn lemma_only_remote(
    base: Seq<Seq<char>>,
    t: Seq<(int, int, Seq<char>)>,
    crv: Seq<(int, int, Seq<char>, Option<Seq<char>>)>,
    mems: Seq<Seq<usize>>,
)
    requires
        spaced(0, base.len() as int, t),
        settled(base, t, sides(0, t.len()), crv, mems),
    ensures
        crv.len() == t.len(),
        forall|i: int| 0 <= i < t.len() ==> #[trigger] crv[i] == agreement(t[i]),
{
    let tags = sides(0, t.len());
    let sp = spans_of(crv);
    assert forall|r: int| 0 <= r < mems.len() implies (#[trigger] mems[r]).len() == 1 by {
        assert(mems[r].len() > 0);
        if mems[r].len() > 1 {
            let x = mems[r][0] as int;
            let c = seq_set(mems[r]);
            let p = Set::<int>::empty().insert(x);
            assert(c.contains(x));
            assert(c.contains(mems[r][1] as int) && !p.contains(mems[r][1] as int)) by {
                assert(mems[r][0] < mems[r][1]);
            }
            assert(p.contains(x));
            assert(p.subset_of(c));
            assert(splits(c, p));
            assert(connected(t, c));
            let (i, j) = choose|i: int, j: int| p.contains(i) && c.contains(j) && !p.contains(j) && collide(t[i], t[j]);
            let u = choose|u: int| 0 <= u < mems[r].len() && mems[r][u] == j;
            assert(mems[r][u] < t.len());
            assert(x < t.len());
            if x < j {
                assert(t[x].1 < t[j].0);
            } else {
                assert(t[j].1 < t[x].0);
            }
        }
    }
    let f = Seq::new(mems.len(), |r: int| mems[r][0] as int);
    assert forall|i: int| 0 <= i < f.len() implies 0 <= #[trigger] f[i] < t.len() by {
        assert(mems[i][0] < t.len());
    }
    assert forall|v: int| 0 <= v < t.len() implies #[trigger] hits(f, v) by {
        assert(held(mems, v));
        let (r, u) = choose|r: int, u: int| 0 <= r < mems.len() && 0 <= u < mems[r].len() && #[trigger] mems[r][u] == v;
        assert(u == 0);
        assert(f[r] == v);
    }
    assert forall|r: int| 0 <= r < mems.len() implies sp[r].0 == t[f[r]].0 && sp[r].1 == t[f[r]].1 by {
        let c = seq_set(mems[r]);
        assert(span_of(t, c, sp[r].0, sp[r].1));
        let x = choose|x: int| c.contains(x) && (#[trigger] t[x]).0 == sp[r].0;
        let y = choose|x: int| c.contains(x) && (#[trigger] t[x]).1 == sp[r].1;
        let ux = choose|u: int| 0 <= u < mems[r].len() && mems[r][u] == x;
        let uy = choose|u: int| 0 <= u < mems[r].len() && mems[r][u] == y;
    }
    assert forall|i: int, j: int| 0 <= i < j < f.len() implies #[trigger] f[i] < #[trigger] f[j] by {
        assert(sp[i].1 <= sp[j].0);
        assert(f[i] != f[j]) by {
            assert(mems[i][0] != mems[j][0]);
        }
        if f[j] < f[i] {
            assert(t[f[j]].1 < t[f[i]].0);
            assert(t[f[i]].0 <= t[f[i]].1);
            assert(t[f[j]].0 <= t[f[j]].1);
        }
    }
    lemma_rising_cover(f, t.len() as int);
    assert forall|i: int| 0 <= i < t.len() implies #[trigger] crv[i] == agreement(t[i]) by {
        let ms = mems[i];
        assert(ms.len() == 1);
        assert(f[i] == i);
        assert(f[i] == mems[i][0] as int);
        assert(ms[0] == i);
        assert(region_text(base, t, tags, ms, crv[i]));
        assert(tags[i] == false);
        assert(exists|u: int| 0 <= u < ms.len() && !tags[#[trigger] ms[u] as int]) by {
            assert(!tags[ms[0] as int]);
        }
        assert(!(exists|u: int| 0 <= u < ms.len() && tags[#[trigger] ms[u] as int]));
        assert(side_members(t, tags, ms, false) =~= Set::<(int, int, Seq<char>)>::empty().insert(t[i])) by {
            assert(t[ms[0] as int] == t[i]);
        }
        assert(sp[i].0 == t[i].0 && sp[i].1 == t[i].1);
        lemma_single_reading(base, t[i], crv[i].2);
    }
}

/// A stable order over keys that already rise strictly leaves everything
/// where it is.
proof fn lemma_order_identity(keys: Seq<(usize, usize)>, order: Seq<usize>)
    requires
        sorted_order(keys, order),
        forall|i: int, j: int| 0 <= i < j < keys.len() ==> key_lt(#[trigger] keys[i], #[trigger] keys[j]),
    ensures
        forall|i: int| 0 <= i < order.len() ==> #[trigger] order[i] == i,
{
    let f = Seq::new(order.len(), |i: int| order[i] as int);
    assert forall|i: int, j: int| 0 <= i < j < f.len() implies #[trigger] f[i] < #[trigger] f[j] by {
        assert(before(keys, order[i] as int, order[j] as int));
        crate::order::lemma_order_distinct(keys, order, i, j);
        if order[j] < order[i] {
            assert(key_lt(keys[order[j] as int], keys[order[i] as int]));
        }
    }
    assert forall|i: int| 0 <= i < f.len() implies 0 <= #[trigger] f[i] < keys.len() by {}
    assert forall|v: int| 0 <= v < keys.len() implies #[trigger] hits(f, v) by {
        assert(crate::order::visits(order, v));
        let p = choose|p: int| 0 <= p < order.len() && order[p] == v;
        assert(f[p] == v);
    }
    lemma_rising_cover(f, keys.len() as int);
    assert forall|i: int| 0 <= i < order.len() implies #[trigger] order[i] == i by {
        assert(f[i] == i);
    }
}

/// When the file made no edit, the merge is the session's text, with no
/// conflict.
proof fn lemma_merge_remote(
    base: Seq<Seq<char>>,
    t: Seq<(int, int, Seq<char>)>,
    remote: Seq<char>,
    rv: Seq<(int, int, Seq<char>, Option<Seq<char>>)>,
)
    requires
        base.len() <= usize::MAX,
        edits_of(base, t, remote),
        merge_of(base, Seq::<(int, int, Seq<char>)>::empty(), t, rv),
    ensures
        render(base, rv) == remote,
        clashes(base, rv, rv.len() as int).len() == 0,
{
    let m = Seq::<(int, int, Seq<char>)>::empty();
    assert(shared(m, t, false) == m);
    assert(shared(m, t, true) == m);
    lemma_shared_none(t);
    let (crv, mems) = choose|crv: Seq<(int, int, Seq<char>, Option<Seq<char>>)>, mems: Seq<Seq<usize>>|
        #[trigger] settled(base, shared(m, t, false) + shared(t, m, false), sides(shared(m, t, false).len(), shared(t, m, false).len()), crv, mems)
            && arranged(crv + shared(m, t, true).map_values(|a: (int, int, Seq<char>)| agreement(a)), rv);
    assert(shared(m, t, false) + shared(t, m, false) =~= t);
    lemma_only_remote(base, t, crv, mems);
    let all = crv + shared(m, t, true).map_values(|a: (int, int, Seq<char>)| agreement(a));
    assert(all =~= crv);
    let order = choose|order: Seq<usize>|
        #[trigger] sorted_order(keys_of(all), order) && rv == Seq::new(all.len(), |k: int| all[order[k] as int]);
    assert forall|i: int, j: int| 0 <= i < j < keys_of(all).len() implies key_lt(#[trigger] keys_of(all)[i], #[trigger] keys_of(all)[j]) by {
        assert(t[i].1 < t[j].0);
        assert(0 <= t[i].0 <= t[i].1);
        assert(t[j].0 <= base.len());
    }
    lemma_order_identity(keys_of(all), order);
    assert(rv =~= crv);
    lemma_render_hunks(base, t, rv, t.len() as int);
    assert(t.skip(t.len() as int).len() == 0);
}

fn same_hunk(x: &SideHunk, y: &SideHunk) -> (r: bool)
    ensures
        r == (x@ == y@),
{
    x.start == y.start && x.end == y.end && str_eq(x.text.as_str(), y.text.as_str())
}

/// Where the first edit of `hs` identical to `h` sits, if any does.
fn position(hs: &Vec<SideHunk>, h: &SideHunk) -> (r: Option<usize>)
    ensures
        match r {
            Some(p) => p < hs@.len() && hs@[p as int]@ == h@,
            None => forall|j: int| 0 <= j < hs@.len() ==> (#[trigger] hs@[j])@ != h@,
        },
{
    let mut p: usize = 0;
    while p < hs.len()
        invariant
            p <= hs@.len(),
            forall|j: int| 0 <= j < p ==> (#[trigger] hs@[j])@ != h@,
        decreases hs@.len() - p,
    {
        if same_hunk(&hs[p], h) {
            return Some(p);
        }
        p = p + 1;
    }
    None
}

/// An edit both sides made identically is agreement, not a conflict: it is
/// taken once, and kept out of the clustering. Returns the file's remaining
/// edits, the session's remaining edits, and the agreed ones.
#[verifier::spinoff_prover]
#[verifier::rlimit(40)]
fn agree(mine: Vec<SideHunk>, theirs: Vec<SideHunk>, Ghost(lo): Ghost<int>, Ghost(hi): Ghost<int>) -> (r: (Vec<SideHunk>, Vec<SideHunk>, Vec<SideHunk>))
    requires
        spaced(lo, hi, views(mine@)),
        spaced(lo, hi, views(theirs@)),
    ensures
        views(r.0@) == shared(views(mine@), views(theirs@), false),
        views(r.1@) == shared(views(theirs@), views(mine@), false),
        views(r.2@) == shared(views(mine@), views(theirs@), true),
{
    let ghost m = views(mine@);
    let ghost t = views(theirs@);
    proof {
        lemma_spaced_distinct(lo, hi, m);
        lemma_spaced_distinct(lo, hi, t);
        assert(m.take(0) =~= Seq::<(int, int, Seq<char>)>::empty());
        assert(m.skip(0) =~= m);
        lemma_shared_none(t);
    }
    let mut rest = mine;
    let mut theirs = theirs;
    let mut kept: Vec<SideHunk> = Vec::new();
    let mut agreed: Vec<SideHunk> = Vec::new();
    let ghost mut c: int = 0;
    while rest.len() > 0
        invariant
            0 <= c <= m.len(),
            distinct(m),
            distinct(t),
            views(rest@) == m.skip(c),
            views(kept@) == shared(m.take(c), t, false),
            views(agreed@) == shared(m.take(c), t, true),
            views(theirs@) == shared(t, m.take(c), false),
        decreases rest@.len(),
    {
        let ghost old_rest = rest@;
        proof {
            assert(views(old_rest).len() == old_rest.len());
            assert(c < m.len());
        }
        let h = rest.remove(0);
        let ghost x = m.take(c);
        proof {
            assert(h == old_rest[0]);
            assert(views(old_rest)[0] == h@);
            assert(h@ == m[c]);
            assert(rest@ =~= old_rest.remove(0));
            assert forall|i: int| 0 <= i < rest@.len() implies views(rest@)[i] == views(old_rest)[i + 1] by {
                assert(rest@[i] == old_rest[i + 1]);
            }
            assert(views(rest@) =~= views(old_rest).skip(1));
            assert(m.skip(c).skip(1) =~= m.skip(c + 1));
            assert(m.take(c + 1).drop_last() =~= x);
            assert(m.take(c + 1).last() == m[c]);
            assert(m.take(c + 1) =~= x.push(m[c]));
            assert(!x.contains(m[c])) by {
                if x.contains(m[c]) {
                    let i = choose|i: int| 0 <= i < x.len() && x[i] == m[c];
                    assert(m[i] == m[c]);
                }
            }
        }
        match position(&theirs, &h) {
            Some(p) => {
                let ghost old_theirs = views(theirs@);
                theirs.remove(p);
                proof {
                    assert(old_theirs[p as int] == h@);
                    lemma_shared_contains(t, x, false, h@);
                    assert(old_theirs.contains(h@));
                    assert(t.contains(m[c]));
                    assert(views(theirs@) =~= old_theirs.remove(p as int));
                    lemma_shared_drop(t, x, h@, p as int);
                }
                let ghost old_agreed = views(agreed@);
                agreed.push(h);
                proof {
                    assert(views(agreed@) =~= old_agreed.push(m[c]));
                }
            },
            None => {
                proof {
                    lemma_shared_contains(t, x, false, h@);
                    if views(theirs@).contains(h@) {
                        let j = choose|j: int| 0 <= j < views(theirs@).len() && views(theirs@)[j] == h@;
                        assert(theirs@[j]@ == h@);
                    }
                    assert(!t.contains(m[c]));
                    lemma_shared_absent(t, x, h@);
                }
                let ghost old_kept = views(kept@);
                kept.push(h);
                proof {
                    assert(views(kept@) =~= old_kept.push(m[c]));
                }
            },
        }
        proof {
            c = c + 1;
        }
    }
    proof {
        assert(m.skip(c).len() == 0);
        assert(m.take(c) =~= m);
    }
    (kept, theirs, agreed)
}

/// Regions within `n` base tokens, none overlapping another.
pub open spec fn laid_out(n: int, all: Seq<(int, int, Seq<char>, Option<Seq<char>>)>) -> bool {
    &&& forall|i: int| 0 <= i < all.len() ==> 0 <= (#[trigger] all[i]).0 <= all[i].1 <= n
    &&& forall|i: int, j: int|
        0 <= i < all.len() && 0 <= j < all.len() && i != j ==> (#[trigger] all[i]).1 <= (#[trigger] all[j]).0
            || all[j].1 <= all[i].0
}

/// The regions of colliding edits and the agreed edits lie apart.
proof fn lemma_laid_out(
    base: Seq<Seq<char>>,
    m: Seq<(int, int, Seq<char>)>,
    t: Seq<(int, int, Seq<char>)>,
    crv: Seq<(int, int, Seq<char>, Option<Seq<char>>)>,
    mems: Seq<Seq<usize>>,
)
    requires
        spaced(0, base.len() as int, m),
        spaced(0, base.len() as int, t),
        settled(
            base,
            shared(m, t, false) + shared(t, m, false),
            sides(shared(m, t, false).len(), shared(t, m, false).len()),
            crv,
            mems,
        ),
    ensures
        laid_out(base.len() as int, crv + shared(m, t, true).map_values(|a: (int, int, Seq<char>)| agreement(a))),
{
    let n = base.len() as int;
    let kept = shared(m, t, false);
    let theirs = shared(t, m, false);
    let agreed = shared(m, t, true);
    let hs = kept + theirs;
    let ag = agreed.map_values(|a: (int, int, Seq<char>)| agreement(a));
    let all = crv + ag;
    let nc = crv.len() as int;
    lemma_shared_spaced(m, t, false, 0, n);
    lemma_shared_spaced(t, m, false, 0, n);
    lemma_shared_spaced(m, t, true, 0, n);
    assert forall|x: int| 0 <= x < hs.len() implies 0 <= (#[trigger] hs[x]).0 <= hs[x].1 <= n by {
        if x < kept.len() {
            assert(hs[x] == kept[x]);
        } else {
            assert(hs[x] == theirs[x - kept.len()]);
        }
    }
    assert(forward(hs));
    let sp = spans_of(crv);
    assert forall|i: int| 0 <= i < all.len() implies 0 <= (#[trigger] all[i]).0 <= all[i].1 <= n by {
        if i < nc {
            assert(span_of(hs, seq_set(mems[i]), sp[i].0, sp[i].1));
            let x = choose|x: int| seq_set(mems[i]).contains(x) && (#[trigger] hs[x]).0 == sp[i].0;
            let y = choose|x: int| seq_set(mems[i]).contains(x) && (#[trigger] hs[x]).1 == sp[i].1;
            let tx = choose|u: int| 0 <= u < mems[i].len() && mems[i][u] == x;
            let ty = choose|u: int| 0 <= u < mems[i].len() && mems[i][u] == y;
            assert(mems[i][tx] < hs.len());
            assert(mems[i][ty] < hs.len());
            assert(hs[x].1 <= sp[i].1);
        } else {
            assert(all[i] == agreement(agreed[i - nc]));
        }
    }
    assert forall|i: int, j: int|
        0 <= i < all.len() && 0 <= j < all.len() && i != j implies (#[trigger] all[i]).1 <= (#[trigger] all[j]).0
            || all[j].1 <= all[i].0 by {
        if i < nc && j < nc {
            if i < j {
                assert(sp[i].1 <= sp[j].0);
            } else {
                assert(sp[j].1 <= sp[i].0);
            }
        } else if i >= nc && j >= nc {
            assert(agreed[i - nc].1 < agreed[j - nc].0 || agreed[j - nc].1 < agreed[i - nc].0) by {
                if i < j {
                    assert(agreed[i - nc].1 < agreed[j - nc].0);
                } else {
                    assert(agreed[j - nc].1 < agreed[i - nc].0);
                }
            }
        } else {
            let r = if i < nc { i } else { j };
            let q = if i < nc { j } else { i };
            let a = agreed[q - nc];
            assert(all[q] == agreement(a));
            assert(agreed.contains(a));
            lemma_shared_contains(m, t, true, a);
            let c = seq_set(mems[r]);
            assert forall|x: int| c.contains(x) implies 0 <= x < hs.len() by {
                let u = choose|u: int| 0 <= u < mems[r].len() && mems[r][u] == x;
                assert(mems[r][u] < hs.len());
            }
            assert forall|x: int| c.contains(x) implies apart(#[trigger] hs[x], a) by {
                if x < kept.len() {
                    assert(hs[x] == kept[x]);
                    assert(kept.contains(kept[x]));
                    lemma_shared_contains(m, t, false, kept[x]);
                    lemma_spaced_apart(0, n, m, kept[x], a);
                } else {
                    let y = x - kept.len();
                    assert(hs[x] == theirs[y]);
                    assert(theirs.contains(theirs[y]));
                    lemma_shared_contains(t, m, false, theirs[y]);
                    lemma_spaced_apart(0, n, t, theirs[y], a);
                }
            }
            assert(span_of(hs, c, sp[r].0, sp[r].1));
            assert(a.0 <= a.1) by {
                let k = choose|k: int| 0 <= k < agreed.len() && agreed[k] == a;
            }
            lemma_apart_from_class(hs, c, sp[r].0, sp[r].1, a);
        }
    }
}

/// The merged text of laid-out regions, and its conflicts: the base between
/// regions, each region's text in stable order by span, and for each region
/// with a clash, where its text sits.
#[verifier::spinoff_prover]
#[verifier::rlimit(40)]
fn render_regions(base: &[Token<'_>], regions: &Vec<Region>) -> (r: Merged)
    requires
        laid_out(base@.len() as int, region_views(regions@)),
    ensures
        exists|rv: Seq<(int, int, Seq<char>, Option<Seq<char>>)>|
            #[trigger] arranged(region_views(regions@), rv) && r.text@ == render(token_texts(base@), rv)
                && conflict_views(r.conflicts@) == clashes(token_texts(base@), rv, rv.len() as int),
{
    let ghost bt = token_texts(base@);
    let ghost all = region_views(regions@);
    let nr = regions.len();
    let mut keys: Vec<(usize, usize)> = Vec::new();
    let mut e: usize = 0;
    while e < nr
        invariant
            e <= nr == regions@.len() == all.len(),
            all == region_views(regions@),
            keys@ == keys_of(all).take(e as int),
        decreases nr - e,
    {
        keys.push((regions[e].start, regions[e].end));
        proof {
            assert(keys_of(all).take(e + 1) =~= keys_of(all).take(e as int).push(keys_of(all)[e as int]));
        }
        e = e + 1;
    }
    proof {
        assert(keys_of(all).take(nr as int) =~= keys_of(all));
    }
    let order = sort_order(&keys);
    let ghost rv = Seq::new(all.len(), |k: int| all[order@[k] as int]);
    let mut text = String::new();
    let mut width: usize = 0;
    let mut conflicts: Vec<Conflict> = Vec::new();
    let mut pos: usize = 0;
    let mut k: usize = 0;
    proof {
        assert(text@ =~= rendered(bt, rv, 0));
        assert(conflict_views(conflicts@) =~= clashes(bt, rv, 0));
    }
    while k < nr
        invariant
            k <= nr == regions@.len() == all.len() == rv.len(),
            all == region_views(regions@),
            bt == token_texts(base@),
            laid_out(base@.len() as int, all),
            sorted_order(keys_of(all), order@),
            rv == Seq::new(all.len(), |k: int| all[order@[k] as int]),
            pos == resume(rv, k as int),
            text@ == rendered(bt, rv, k as int),
            width == utf16_len(text@),
            conflict_views(conflicts@) == clashes(bt, rv, k as int),
        decreases nr - k,
    {
        let idx = order[k];
        let region = &regions[idx];
        proof {
            assert(region@ == all[idx as int]);
            assert(rv[k as int] == all[idx as int]);
            if k > 0 {
                let prev = order@[k - 1] as int;
                crate::order::lemma_order_distinct(keys_of(all), order@, k - 1, k as int);
                assert(before(keys_of(all), prev, idx as int));
                assert(all[prev].1 <= all[idx as int].0 || all[idx as int].1 <= all[prev].0);
                assert(keys_of(all)[prev] == (all[prev].0 as usize, all[prev].1 as usize));
                assert(keys_of(all)[idx as int] == (all[idx as int].0 as usize, all[idx as int].1 as usize));
                assert(rv[k - 1] == all[prev]);
            }
        }
        let kept = join(base, pos, region.start);
        crate::strings::push_str(&mut text, kept.as_str());
        utf16_fits(text.as_str());
        let kept_width = utf16_count(kept.as_str());
        proof {
            lemma_utf16_concat(rendered(bt, rv, k as int), kept@);
        }
        width = width + kept_width;
        let len = utf16_count(region.text.as_str());
        let ghost before_conflicts = conflicts@;
        match &region.clash {
            Some(local_side) => {
                conflicts.push(Conflict { at: width, len, local: local_side.clone(), remote: region.text.clone() });
                proof {
                    assert(conflict_views(conflicts@) =~= conflict_views(before_conflicts).push(
                        (width as int, len as int, local_side@, region.text@),
                    ));
                }
            },
            None => {},
        }
        crate::strings::push_str(&mut text, region.text.as_str());
        utf16_fits(text.as_str());
        proof {
            lemma_utf16_concat(rendered(bt, rv, k as int) + kept@, region.text@);
        }
        width = width + len;
        pos = region.end;
        proof {
            assert(rendered(bt, rv, k + 1) == rendered(bt, rv, k as int) + gap(bt, rv, k as int) + rv[k as int].2);
        }
        k = k + 1;
    }
    let tail = join(base, pos, base.len());
    crate::strings::push_str(&mut text, tail.as_str());
    proof {
        let keys_all = keys_of(all);
        assert(sorted_order(keys_all, order@));
        assert(arranged(all, rv));
    }
    Merged { text, conflicts }
}

/// Three-way merge, `diff3` in miniature. Each side's edits are its word
/// diff from the base. Edits to disjoint token ranges all go through; where
/// both sides moved the same tokens the session wins and the region is
/// reported. When the session did not move, the file is simply right; when
/// both sides made the same text, every edit is one they agree on.
#[verifier::spinoff_prover]
#[verifier::rlimit(40)]
pub fn merge(base: &str, local: &str, remote: &str) -> (r: Merged)
    requires
        tokens_of(base@).len() + tokens_of(local@).len() <= isize::MAX / 16,
        tokens_of(base@).len() + tokens_of(remote@).len() <= isize::MAX / 16,
    ensures
        remote@ == base@ ==> r.text@ == local@ && r.conflicts@.len() == 0,
        local@ == base@ ==> r.text@ == remote@ && r.conflicts@.len() == 0,
        local@ == remote@ ==> r.text@ == local@ && r.conflicts@.len() == 0,
        remote@ != base@ && local@ != remote@ ==> exists|
            m: Seq<(int, int, Seq<char>)>,
            t: Seq<(int, int, Seq<char>)>,
            rv: Seq<(int, int, Seq<char>, Option<Seq<char>>)>,
        |
            edits_of(tokens_of(base@), m, local@) && edits_of(tokens_of(base@), t, remote@)
                && word_edits(tokens_of(base@), m, local@) && word_edits(tokens_of(base@), t, remote@)
                && #[trigger] merge_of(tokens_of(base@), m, t, rv) && r.text@ == render(tokens_of(base@), rv)
                && conflict_views(r.conflicts@) == clashes(tokens_of(base@), rv, rv.len() as int),
        forall|j: int| 0 <= j < r.conflicts@.len() ==> located(r.text@, #[trigger] conflict_views(r.conflicts@)[j]),
{
    // The common case, and it is exact: the session did not move, so the
    // file is simply right.
    if str_eq(remote, base) {
        return Merged { text: local.to_owned(), conflicts: Vec::new() };
    }
    // Both sides made the same text: both word diffs are the same hunks, so
    // each edit is one both made, taken once, and nothing is left to clash.
    if str_eq(local, remote) {
        return Merged { text: local.to_owned(), conflicts: Vec::new() };
    }
    let b = tokenize(base);
    let ghost bt = token_texts(b@);
    proof {
        lemma_tokens_partition(base@);
        assert(bt.len() == b@.len());
    }
    let mine = side(b.as_slice(), local);
    let theirs = side(b.as_slice(), remote);
    let ghost m = views(mine@);
    let ghost t = views(theirs@);
    let (mine, theirs, agreed) = agree(mine, theirs, Ghost(0), Ghost(b@.len() as int));
    proof {
        lemma_shared_spaced(m, t, false, 0, b@.len() as int);
        lemma_shared_spaced(t, m, false, 0, b@.len() as int);
        lemma_shared_spaced(m, t, true, 0, b@.len() as int);
        lemma_spaced_len(0, b@.len() as int, views(mine@));
        lemma_spaced_len(0, b@.len() as int, views(theirs@));
    }
    let (mut regions, Ghost(mems)) = cluster(b.as_slice(), mine.as_slice(), theirs.as_slice());
    let ghost crv = region_views(regions@);
    let ghost ag = views(agreed@).map_values(|a: (int, int, Seq<char>)| agreement(a));
    let mut rest = agreed;
    let ghost mut c: int = 0;
    proof {
        assert(views(rest@) =~= views(agreed@).skip(0));
        assert(region_views(regions@) =~= crv + ag.take(0));
    }
    while rest.len() > 0
        invariant
            0 <= c <= ag.len(),
            ag.len() == views(agreed@).len(),
            ag == views(agreed@).map_values(|a: (int, int, Seq<char>)| agreement(a)),
            views(rest@) == views(agreed@).skip(c),
            region_views(regions@) == crv + ag.take(c),
        decreases rest@.len(),
    {
        let ghost old_rest = rest@;
        proof {
            assert(views(old_rest).len() == old_rest.len());
            assert(c < ag.len());
        }
        let h = rest.remove(0);
        let ghost before = region_views(regions@);
        proof {
            assert(h == old_rest[0]);
            assert(views(old_rest)[0] == h@);
            assert(h@ == views(agreed@)[c]);
            assert(rest@ =~= old_rest.remove(0));
            assert forall|i: int| 0 <= i < rest@.len() implies views(rest@)[i] == views(old_rest)[i + 1] by {
                assert(rest@[i] == old_rest[i + 1]);
            }
            assert(views(rest@) =~= views(old_rest).skip(1));
            assert(views(agreed@).skip(c).skip(1) =~= views(agreed@).skip(c + 1));
        }
        regions.push(Region { start: h.start, end: h.end, text: h.text, clash: None });
        proof {
            assert(region_views(regions@) =~= before.push(agreement(h@)));
            assert(ag[c] == agreement(h@));
            assert(ag.take(c + 1) =~= ag.take(c).push(ag[c]));
            c = c + 1;
        }
    }
    proof {
        assert(ag.take(c) =~= ag);
        assert(bt == tokens_of(base@));
        assert(combined(mine@, theirs@) == shared(m, t, false) + shared(t, m, false));
        lemma_laid_out(bt, m, t, crv, mems);
    }
    let merged = render_regions(b.as_slice(), &regions);
    proof {
        let rv = choose|rv: Seq<(int, int, Seq<char>, Option<Seq<char>>)>|
            #[trigger] arranged(region_views(regions@), rv) && merged.text@ == render(bt, rv)
                && conflict_views(merged.conflicts@) == clashes(bt, rv, rv.len() as int);
        assert(settled(bt, shared(m, t, false) + shared(t, m, false), sides(shared(m, t, false).len(), shared(t, m, false).len()), crv, mems));
        assert(merge_of(bt, m, t, rv));
        assert forall|j: int| 0 <= j < merged.conflicts@.len() implies located(merged.text@, #[trigger] conflict_views(merged.conflicts@)[j]) by {
            lemma_conflict_located(bt, rv, rv.len() as int, j);
        }
        if local@ == base@ {
            assert(m =~= Seq::<(int, int, Seq<char>)>::empty());
            lemma_merge_remote(bt, t, remote@, rv);
            assert(conflict_views(merged.conflicts@).len() == merged.conflicts@.len());
        }
    }
    merged
}

} // verus!
