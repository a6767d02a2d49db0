//! The word diff, and the three-way merge a text editor's save needs when it
//! was read before the session moved on.
//!
//! A token here is either a maximal run of whitespace or a maximal run of
//! non-whitespace, and the two alternate. A whitespace run is a token of its
//! own so that a doubled space or an added trailing newline is one small edit
//! rather than a rewrite of the words either side of it; punctuation carries
//! along with the word it is attached to, because an author who changes
//! `interval.` to `interval,` changed one thing. The unit is the word and
//! never the line.
//!
//! Every position out of this module -- in `Edit` and in `Conflict` alike --
//! is a UTF-16 code unit offset, because that is what the document counts in
//! and what a JavaScript string counts in.

use vstd::prelude::*;
use vstd::utf8::*;

use crate::myers::{
    greedy, lemma_matching_size, lemma_trim, matching, matching_within, myers, str_eq, views, TRACE_CEILING,
};

pub use crate::merge::{merge, Conflict, Merged};
use crate::chars::{
    byte_offset, char_len_utf16, char_len_utf8, char_slice, chars_of, is_whitespace,
    lemma_byte_offset_step, lemma_utf16_concat, lemma_white_space_is_unicode, unicode_white_space,
    utf16_len, utf16_width, white_space,
};

verus! {

/// One token of the text, with where it sits in UTF-16 units.
#[derive(Debug, Clone, Copy, PartialEq, Eq)]
pub struct Token<'a> {
    pub text: &'a str,
    pub at: usize,
    pub len: usize,
}

/// The tokens of a text: maximal runs of white space and of everything else,
/// in order. Each character either extends the run before it, when it is of
/// the same kind, or starts a run of its own.
pub open spec fn tokens_of(s: Seq<char>) -> Seq<Seq<char>>
    decreases s.len(),
{
    if s.len() == 0 {
        seq![]
    } else {
        let prev = tokens_of(s.drop_last());
        let c = s.last();
        if prev.len() > 0 && white_space(prev.last().last()) == white_space(c) {
            prev.update(prev.len() - 1, prev.last().push(c))
        } else {
            prev.push(seq![c])
        }
    }
}

/// Texts laid end to end.
pub open spec fn concat(ts: Seq<Seq<char>>) -> Seq<char>
    decreases ts.len(),
{
    if ts.len() == 0 {
        seq![]
    } else {
        concat(ts.drop_last()) + ts.last()
    }
}

/// The texts of a list of tokens.
pub open spec fn token_texts(ts: Seq<Token>) -> Seq<Seq<char>> {
    ts.map_values(|t: Token| t.text@)
}

/// Tokens that say where they are: each starts where the ones before it end,
/// in UTF-16 units, and is as long as its text.
pub open spec fn placed(ts: Seq<Token>) -> bool {
    forall|k: int|
        0 <= k < ts.len() ==> (#[trigger] ts[k]).at == utf16_len(concat(token_texts(ts).take(k)))
            && ts[k].len == utf16_len(ts[k].text@)
}

/// Splits into alternating runs of whitespace and non-whitespace. The tokens
/// partition the string: concatenating them gives it back, and their `at`
/// offsets run consecutively, which is what lets an edit over a token range be
/// stated as one contiguous delete.
#[verifier::spinoff_prover]
#[verifier::rlimit(40)]
pub fn tokenize(text: &str) -> (r: Vec<Token<'_>>)
    ensures
        token_texts(r@) == tokens_of(text@),
        placed(r@),
        utf16_len(text@) <= usize::MAX,
{
    let cs = chars_of(text);
    let nbytes = text.as_bytes().len();
    let ghost s = text@;
    let mut out: Vec<Token> = Vec::new();
    let mut at: usize = 0;
    let mut start: usize = 0;
    let ghost mut cstart: int = 0;
    let mut len: usize = 0;
    let mut space: Option<bool> = None;
    let mut byte: usize = 0;
    let mut i: usize = 0;
    while i < cs.len()
        invariant
            cs@ == s,
            s == text@,
            nbytes == encode_utf8(s).len(),
            0 <= cstart <= i <= cs.len(),
            byte == byte_offset(s, i as int),
            start == byte_offset(s, cstart),
            utf16_len(s.take(i as int)) <= byte,
            space is None <==> i == 0,
            i == 0 ==> out@.len() == 0,
            i > 0 ==> cstart < i && space == Some(white_space(s[i - 1])) && tokens_of(
                s.take(i as int),
            ) == token_texts(out@).push(s.subrange(cstart, i as int)),
            concat(token_texts(out@)) == s.take(cstart),
            placed(out@),
            at == utf16_len(s.take(cstart)),
            len == utf16_len(s.subrange(cstart, i as int)),
        decreases cs.len() - i,
    {
        let ch = cs[i];
        let ws = is_whitespace(ch);
        proof {
            lemma_byte_offset_step(s, i as int);
            assert(s.take(i as int) =~= s.take(cstart) + s.subrange(cstart, i as int));
            lemma_utf16_concat(s.take(cstart), s.subrange(cstart, i as int));
            assert(s.take(i + 1).drop_last() =~= s.take(i as int));
            assert(s.take(i + 1).last() == ch);
        }
        let boundary = match space {
            Some(was) => was != ws,
            None => false,
        };
        let ghost c0 = cstart;
        let ghost out0 = token_texts(out@);
        proof {
            assert(s.subrange(c0, i + 1).drop_last() =~= s.subrange(c0, i as int));
            if i > 0 {
                let tprev = tokens_of(s.take(i as int));
                assert(tprev.last() == s.subrange(c0, i as int));
                assert(tprev.last().last() == s[i - 1]);
                assert(tprev.drop_last() =~= out0);
                if !boundary {
                    assert(s.subrange(c0, i + 1) =~= s.subrange(c0, i as int).push(ch));
                    assert(tokens_of(s.take(i + 1)) =~= out0.push(s.subrange(c0, i + 1)));
                } else {
                    assert(tokens_of(s.take(i + 1)) =~= out0.push(s.subrange(c0, i as int)).push(
                        seq![ch],
                    ));
                }
            } else {
                assert(out0 =~= Seq::<Seq<char>>::empty());
                assert(s.take(i + 1).drop_last() =~= Seq::<char>::empty());
                assert(tokens_of(Seq::<char>::empty()) =~= Seq::<Seq<char>>::empty());
                assert(tokens_of(s.take(i + 1)) =~= out0.push(seq![ch]));
                assert(s.subrange(c0, i + 1) =~= seq![ch]);
            }
        }
        if boundary {
            let piece = char_slice(text, start, byte, Ghost(cstart), Ghost(i as int));
            let ghost prev = out@;
            out.push(Token { text: piece, at, len });
            proof {
                assert(token_texts(out@) =~= token_texts(prev).push(s.subrange(cstart, i as int)));
                assert(token_texts(out@).take(prev.len() as int) =~= token_texts(prev));
                assert(token_texts(out@).drop_last() =~= token_texts(prev));
                assert forall|k: int| 0 <= k < out@.len() implies (#[trigger] out@[k]).at
                    == utf16_len(concat(token_texts(out@).take(k))) && out@[k].len == utf16_len(
                    out@[k].text@,
                ) by {
                    if k < prev.len() {
                        assert(token_texts(out@).take(k) =~= token_texts(prev).take(k));
                    }
                }
            }
            at = at + len;
            start = byte;
            proof {
                cstart = i as int;
            }
            len = 0;
        }
        proof {
            assert(s.subrange(cstart, i + 1).drop_last() =~= s.subrange(cstart, i as int));
            if boundary {
                assert(s.subrange(cstart, i + 1) =~= seq![ch]);
                assert(s.take(cstart) =~= s.take(c0) + s.subrange(c0, i as int));
                lemma_utf16_concat(s.take(c0), s.subrange(c0, i as int));
            }
            assert(s.take(i + 1) =~= s.take(cstart) + s.subrange(cstart, i + 1));
            lemma_utf16_concat(s.take(cstart), s.subrange(cstart, i + 1));
        }
        space = Some(ws);
        len = len + char_len_utf16(ch);
        byte = byte + char_len_utf8(ch);
        i = i + 1;
    }
    proof {
        assert(s.take(i as int) =~= s);
    }
    if space.is_some() {
        let piece = char_slice(text, start, byte, Ghost(cstart), Ghost(i as int));
        let ghost prev = out@;
        out.push(Token { text: piece, at, len });
        proof {
            assert(token_texts(out@) =~= token_texts(prev).push(s.subrange(cstart, i as int)));
            assert forall|k: int| 0 <= k < out@.len() implies (#[trigger] out@[k]).at == utf16_len(
                concat(token_texts(out@).take(k)),
            ) && out@[k].len == utf16_len(out@[k].text@) by {
                if k < prev.len() {
                    assert(token_texts(out@).take(k) =~= token_texts(prev).take(k));
                } else {
                    assert(token_texts(out@).take(k) =~= token_texts(prev));
                }
            }
        }
    } else {
        assert(s.len() == 0);
        assert(token_texts(out@) =~= Seq::<Seq<char>>::empty());
    }
    out
}


/// A differing stretch: base tokens `a0..a1` became new tokens `b0..b1`.
#[derive(Debug, Clone, Copy, PartialEq, Eq)]
pub struct Hunk {
    pub a0: usize,
    pub a1: usize,
    pub b0: usize,
    pub b1: usize,
}

/// Where the stretch both sides share before hunk `i` starts in `a`.
pub open spec fn gap_lo_a(hs: Seq<Hunk>, i: int) -> int {
    if i == 0 {
        0
    } else {
        hs[i - 1].a1 as int
    }
}

/// Where the stretch both sides share before hunk `i` starts in `b`.
pub open spec fn gap_lo_b(hs: Seq<Hunk>, i: int) -> int {
    if i == 0 {
        0
    } else {
        hs[i - 1].b1 as int
    }
}

/// Where the stretch both sides share before hunk `i` ends in `a`.
pub open spec fn gap_hi_a(hs: Seq<Hunk>, i: int, na: int) -> int {
    if i == hs.len() {
        na
    } else {
        hs[i].a0 as int
    }
}

/// Where the stretch both sides share before hunk `i` ends in `b`.
pub open spec fn gap_hi_b(hs: Seq<Hunk>, i: int, nb: int) -> int {
    if i == hs.len() {
        nb
    } else {
        hs[i].b0 as int
    }
}

/// The stretch before hunk `i` (or after the last) is the same in `a` and `b`.
pub open spec fn gap_ok(a: Seq<Seq<char>>, b: Seq<Seq<char>>, hs: Seq<Hunk>, i: int) -> bool {
    let la = gap_lo_a(hs, i);
    let lb = gap_lo_b(hs, i);
    let ha = gap_hi_a(hs, i, a.len() as int);
    let hb = gap_hi_b(hs, i, b.len() as int);
    &&& 0 <= la <= ha <= a.len()
    &&& 0 <= lb <= hb <= b.len()
    &&& ha - la == hb - lb
    &&& a.subrange(la, ha) == b.subrange(lb, hb)
}

/// A hunk replaces something with something else.
pub open spec fn hunk_ok(h: Hunk) -> bool {
    h.a0 <= h.a1 && h.b0 <= h.b1 && (h.a0 < h.a1 || h.b0 < h.b1)
}

/// Hunks that turn `a` into `b`: in order, each a real change, and with what
/// lies between them the same on both sides.
pub open spec fn hunks_valid(a: Seq<Seq<char>>, b: Seq<Seq<char>>, hs: Seq<Hunk>) -> bool {
    &&& forall|i: int| 0 <= i < hs.len() ==> hunk_ok(#[trigger] hs[i])
    &&& forall|i: int| 0 <= i <= hs.len() ==> #[trigger] gap_ok(a, b, hs, i)
}

/// Between any two hunks lies at least one token both sides share.
pub open spec fn hunks_spaced(hs: Seq<Hunk>) -> bool {
    forall|i: int, j: int| 0 <= i < j < hs.len() ==> (#[trigger] hs[i]).a1 < (#[trigger] hs[j]).a0
}

/// Hunks found so far, with the stretch after the last of them up to
/// `(ai, bi)` the same on both sides.
spec fn hunks_so_far(a: Seq<Seq<char>>, b: Seq<Seq<char>>, hs: Seq<Hunk>, ai: int, bi: int) -> bool {
    let la = gap_lo_a(hs, hs.len() as int);
    let lb = gap_lo_b(hs, hs.len() as int);
    &&& forall|i: int| 0 <= i < hs.len() ==> hunk_ok(#[trigger] hs[i])
    &&& forall|i: int| 0 <= i < hs.len() ==> #[trigger] gap_ok(a, b, hs, i)
    &&& 0 <= la <= ai <= a.len()
    &&& 0 <= lb <= bi <= b.len()
    &&& ai - la == bi - lb
    &&& a.subrange(la, ai) == b.subrange(lb, bi)
}

/// Pushing a hunk that starts where the shared stretch ends.
proof fn lemma_hunks_push(
    a: Seq<Seq<char>>,
    b: Seq<Seq<char>>,
    hs: Seq<Hunk>,
    h: Hunk,
)
    requires
        hunks_so_far(a, b, hs, h.a0 as int, h.b0 as int),
        hunk_ok(h),
        h.a1 <= a.len(),
        h.b1 <= b.len(),
    ensures
        hunks_so_far(a, b, hs.push(h), h.a1 as int, h.b1 as int),
{
    let hs2 = hs.push(h);
    assert forall|i: int| 0 <= i < hs2.len() implies hunk_ok(#[trigger] hs2[i]) by {
        if i < hs.len() {
            assert(hs2[i] == hs[i]);
        }
    }
    assert forall|i: int| 0 <= i < hs2.len() implies #[trigger] gap_ok(a, b, hs2, i) by {
        if i < hs.len() {
            assert(gap_ok(a, b, hs, i));
            assert(hs2[i] == hs[i]);
            if i > 0 {
                assert(hs2[i - 1] == hs[i - 1]);
            }
        } else {
            if i > 0 {
                assert(hs2[i - 1] == hs[i - 1]);
            }
        }
    }
    assert(a.subrange(h.a1 as int, h.a1 as int) =~= b.subrange(h.b1 as int, h.b1 as int));
}

/// The shared stretch grows by one matching token.
proof fn lemma_hunks_match(
    a: Seq<Seq<char>>,
    b: Seq<Seq<char>>,
    hs: Seq<Hunk>,
    ai: int,
    bi: int,
)
    requires
        hunks_so_far(a, b, hs, ai, bi),
        ai < a.len(),
        bi < b.len(),
        a[ai] == b[bi],
    ensures
        hunks_so_far(a, b, hs, ai + 1, bi + 1),
{
    let la = gap_lo_a(hs, hs.len() as int);
    let lb = gap_lo_b(hs, hs.len() as int);
    assert(a.subrange(la, ai + 1) =~= a.subrange(la, ai).push(a[ai]));
    assert(b.subrange(lb, bi + 1) =~= b.subrange(lb, bi).push(b[bi]));
}

/// The shared stretch reaches the end on both sides: the hunks are done.
proof fn lemma_hunks_done(a: Seq<Seq<char>>, b: Seq<Seq<char>>, hs: Seq<Hunk>, ai: int, bi: int)
    requires
        hunks_so_far(a, b, hs, ai, bi),
        a.len() - ai == b.len() - bi,
        a.subrange(ai, a.len() as int) == b.subrange(bi, b.len() as int),
    ensures
        hunks_valid(a, b, hs),
{
    let la = gap_lo_a(hs, hs.len() as int);
    let lb = gap_lo_b(hs, hs.len() as int);
    assert(a.subrange(la, a.len() as int) =~= a.subrange(la, ai) + a.subrange(ai, a.len() as int));
    assert(b.subrange(lb, b.len() as int) =~= b.subrange(lb, bi) + b.subrange(bi, b.len() as int));
    assert(gap_ok(a, b, hs, hs.len() as int));
}

/// How many tokens of the base the hunks take out.
pub open spec fn removed(hs: Seq<Hunk>) -> int
    decreases hs.len(),
{
    if hs.len() == 0 {
        0
    } else {
        removed(hs.drop_last()) + hs.last().a1 - hs.last().a0
    }
}

proof fn lemma_removed_push(hs: Seq<Hunk>, h: Hunk)
    ensures
        removed(hs.push(h)) == removed(hs) + h.a1 - h.a0,
{
    assert(hs.push(h).drop_last() =~= hs);
}

/// How far from `i` on `a` and `b` agree token for token: the end of their
/// longest common prefix, once the first `i` tokens agree.
pub open spec fn shared_head(a: Seq<Seq<char>>, b: Seq<Seq<char>>, i: int) -> int
    decreases a.len() - i,
{
    if 0 <= i < a.len() && i < b.len() && a[i] == b[i] {
        shared_head(a, b, i + 1)
    } else {
        i
    }
}

/// How many tokens `a` and `b` share at their ends, not reaching back into
/// their first `h`, once the last `t` agree.
pub open spec fn shared_tail(a: Seq<Seq<char>>, b: Seq<Seq<char>>, h: int, t: int) -> int
    decreases a.len() - h - t,
{
    if 0 <= t < a.len() - h && t < b.len() - h && a[a.len() - 1 - t] == b[b.len() - 1 - t] {
        shared_tail(a, b, h, t + 1)
    } else {
        t
    }
}

/// Every hunk lies between the longest common head of `a` and `b` and the
/// longest common tail of what follows it: the diff never cuts into what
/// the two texts share at their ends.
pub open spec fn hunks_trimmed(a: Seq<Seq<char>>, b: Seq<Seq<char>>, hs: Seq<Hunk>) -> bool {
    let h = shared_head(a, b, 0);
    let t = shared_tail(a, b, h, 0);
    forall|i: int|
        0 <= i < hs.len() ==> h <= (#[trigger] hs[i]).a0 && h <= hs[i].b0 && hs[i].a1 <= a.len() - t
            && hs[i].b1 <= b.len() - t
}

/// The hunks between the matches `pairs` of the middle that starts at `h`,
/// over the first `p` of them, with where the last match left both sides.
pub open spec fn walk(pairs: Seq<(usize, usize)>, h: int, p: int) -> (Seq<Hunk>, int, int)
    decreases p,
{
    if p <= 0 {
        (seq![], h, h)
    } else {
        let w = walk(pairs, h, p - 1);
        let i = pairs[p - 1].0 + h;
        let j = pairs[p - 1].1 + h;
        let out = if i > w.1 || j > w.2 {
            w.0.push(Hunk { a0: w.1 as usize, a1: i as usize, b0: w.2 as usize, b1: j as usize })
        } else {
            w.0
        };
        (out, i + 1, j + 1)
    }
}

/// The hunks of the word diff: the longest common head and, of what
/// follows it, the longest common tail taken off; what remains matched by
/// greedy Myers, each stretch between matches a hunk, or one replacement of
/// the whole of it when Myers gives up.
pub open spec fn hunks_of(a: Seq<Seq<char>>, b: Seq<Seq<char>>) -> Seq<Hunk> {
    let h = shared_head(a, b, 0);
    let t = shared_tail(a, b, h, 0);
    let an = a.len() - t;
    let bn = b.len() - t;
    if h == an && h == bn {
        seq![]
    } else {
        match greedy(a.subrange(h, an), b.subrange(h, bn)) {
            None => seq![Hunk { a0: h as usize, a1: an as usize, b0: h as usize, b1: bn as usize }],
            Some(pairs) => {
                let w = walk(pairs, h, pairs.len() as int);
                if w.1 < an || w.2 < bn {
                    w.0.push(Hunk { a0: w.1 as usize, a1: an as usize, b0: w.2 as usize, b1: bn as usize })
                } else {
                    w.0
                }
            },
        }
    }
}

/// The differing stretches between two token lists: a common head and tail
/// are taken off, and Myers matches what is left.
#[verifier::spinoff_prover]
#[verifier::rlimit(40)]
pub(crate) fn hunks(a: &[Token<'_>], b: &[Token<'_>]) -> (r: Vec<Hunk>)
    requires
        a@.len() + b@.len() <= isize::MAX / 16,
    ensures
        hunks_valid(token_texts(a@), token_texts(b@), r@),
        hunks_spaced(r@),
        hunks_trimmed(token_texts(a@), token_texts(b@), r@),
        r@ == hunks_of(token_texts(a@), token_texts(b@)),
        token_texts(a@) == token_texts(b@) ==> r@.len() == 0,
        forall|q: Seq<(usize, usize)>|
            #[trigger] matching(q, token_texts(a@), token_texts(b@)) && a@.len() + b@.len() - 2 * q.len()
                <= TRACE_CEILING ==> q.len() + removed(r@) <= a@.len(),
{
    let ghost ta = token_texts(a@);
    let ghost tb = token_texts(b@);
    let mut head: usize = 0;
    while head < a.len() && head < b.len() && str_eq(a[head].text, b[head].text)
        invariant
            head <= a@.len(),
            head <= b@.len(),
            ta == token_texts(a@),
            tb == token_texts(b@),
            ta.subrange(0, head as int) == tb.subrange(0, head as int),
            shared_head(ta, tb, head as int) == shared_head(ta, tb, 0),
        decreases a@.len() - head,
    {
        assert(ta.subrange(0, head + 1) =~= ta.subrange(0, head as int).push(ta[head as int]));
        assert(tb.subrange(0, head + 1) =~= tb.subrange(0, head as int).push(tb[head as int]));
        head = head + 1;
    }
    let mut tail: usize = 0;
    while tail < a.len() - head && tail < b.len() - head && str_eq(
        a[a.len() - 1 - tail].text,
        b[b.len() - 1 - tail].text,
    )
        invariant
            head <= a@.len(),
            head <= b@.len(),
            tail <= a@.len() - head,
            tail <= b@.len() - head,
            ta == token_texts(a@),
            tb == token_texts(b@),
            ta.subrange(a@.len() - tail, a@.len() as int) == tb.subrange(
                b@.len() - tail,
                b@.len() as int,
            ),
            shared_head(ta, tb, 0) == head,
            shared_tail(ta, tb, head as int, tail as int) == shared_tail(ta, tb, head as int, 0),
        decreases a@.len() - head - tail,
    {
        let ghost ia = a@.len() - 1 - tail;
        let ghost ib = b@.len() - 1 - tail;
        assert(ta.subrange(ia, a@.len() as int) =~= seq![ta[ia]] + ta.subrange(
            ia + 1,
            a@.len() as int,
        ));
        assert(tb.subrange(ib, b@.len() as int) =~= seq![tb[ib]] + tb.subrange(
            ib + 1,
            b@.len() as int,
        ));
        tail = tail + 1;
    }
    let an = a.len() - tail;
    let bn = b.len() - tail;
    proof {
        assert(shared_tail(ta, tb, head as int, 0) == tail);
    }
    let ghost empty: Seq<Hunk> = seq![];
    proof {
        if ta == tb && head < a@.len() {
            assert(ta[head as int] == tb[head as int]);
        }
    }
    proof {
        assert(hunks_so_far(ta, tb, empty, head as int, head as int));
    }
    if head == an && head == bn {
        proof {
            lemma_hunks_done(ta, tb, empty, head as int, head as int);
            assert forall|q: Seq<(usize, usize)>| #[trigger] matching(q, ta, tb) implies q.len()
                + removed(empty) <= a@.len() by {
                assert(matching_within(q, ta, tb, ta.len() as int, tb.len() as int));
                lemma_matching_size(q, ta, tb, ta.len() as int, tb.len() as int);
            }
        }
        return Vec::new();
    }
    let mut left: Vec<&str> = Vec::new();
    let mut i = head;
    while i < an
        invariant
            head <= i <= an <= a@.len(),
            ta == token_texts(a@),
            views(left@) == ta.subrange(head as int, i as int),
        decreases an - i,
    {
        assert(a@[i as int].text@ == ta[i as int]);
        let ghost before = left@;
        left.push(a[i].text);
        assert(left@ == before.push(a@[i as int].text));
        assert(views(left@) =~= views(before).push(ta[i as int]));
        assert(ta.subrange(head as int, i + 1) =~= ta.subrange(head as int, i as int).push(ta[i as int]));
        i = i + 1;
    }
    let mut right: Vec<&str> = Vec::new();
    let mut j = head;
    while j < bn
        invariant
            head <= j <= bn <= b@.len(),
            tb == token_texts(b@),
            views(right@) == tb.subrange(head as int, j as int),
        decreases bn - j,
    {
        assert(b@[j as int].text@ == tb[j as int]);
        let ghost before = right@;
        right.push(b[j].text);
        assert(right@ == before.push(b@[j as int].text));
        assert(views(right@) =~= views(before).push(tb[j as int]));
        assert(tb.subrange(head as int, j + 1) =~= tb.subrange(head as int, j as int).push(tb[j as int]));
        j = j + 1;
    }
    let found = myers(left.as_slice(), right.as_slice());
    let pairs = match found {
        Some(pairs) => pairs,
        None => {
            // Two texts with nothing in common past the ends. One replacement
            // is both correct and, at that distance, the honest description.
            let mut out = Vec::new();
            let h = Hunk { a0: head, a1: an, b0: head, b1: bn };
            proof {
                lemma_hunks_push(ta, tb, empty, h);
            }
            out.push(h);
            proof {
                assert(out@ == empty.push(h));
                lemma_hunks_done(ta, tb, out@, an as int, bn as int);
                assert forall|q: Seq<(usize, usize)>| #[trigger] matching(q, ta, tb) && a@.len() + b@.len()
                    - 2 * q.len() <= TRACE_CEILING implies q.len() + removed(out@) <= a@.len() by {
                    let qm = lemma_trim(q, ta, tb, head as int, tail as int);
                    assert(matching(qm, views(left@), views(right@)));
                }
            }
            return out;
        },
    };
    let mut out: Vec<Hunk> = Vec::new();
    let mut ai = head;
    let mut bi = head;
    let mut p: usize = 0;
    while p < pairs.len()
        invariant
            p <= pairs@.len(),
            ta == token_texts(a@),
            tb == token_texts(b@),
            matching(pairs@, views(left@), views(right@)),
            views(left@) == ta.subrange(head as int, an as int),
            views(right@) == tb.subrange(head as int, bn as int),
            head <= ai <= an <= a@.len(),
            head <= bi <= bn <= b@.len(),
            p == 0 ==> ai == head && bi == head,
            p > 0 ==> ai == pairs@[p - 1].0 + head + 1 && bi == pairs@[p - 1].1 + head + 1,
            hunks_so_far(ta, tb, out@, ai as int, bi as int),
            hunks_spaced(out@),
            out@.len() > 0 ==> out@.last().a1 < ai,
            removed(out@) == ai - head - p,
            walk(pairs@, head as int, p as int) == (out@, ai as int, bi as int),
            greedy(ta.subrange(head as int, an as int), tb.subrange(head as int, bn as int)) == Some(pairs@),
            shared_head(ta, tb, 0) == head,
            shared_tail(ta, tb, head as int, 0) == tail,
            an == a@.len() - tail,
            bn == b@.len() - tail,
            forall|x: int|
                0 <= x < out@.len() ==> head <= (#[trigger] out@[x]).a0 && head <= out@[x].b0
                    && out@[x].a1 <= an && out@[x].b1 <= bn,
        decreases pairs@.len() - p,
    {
        let (li, lj) = pairs[p];
        proof {
            assert(li == pairs@[p as int].0 && lj == pairs@[p as int].1);
            assert(views(left@).len() == an - head);
            assert(views(right@).len() == bn - head);
            if p > 0 {
                assert(pairs@[p - 1].0 < pairs@[p as int].0);
                assert(pairs@[p - 1].1 < pairs@[p as int].1);
            }
            assert(pairs@[p as int].0 < views(left@).len());
            assert(views(left@)[li as int] == views(right@)[lj as int]);
            assert(views(left@)[li as int] == ta[head + li]);
            assert(views(right@)[lj as int] == tb[head + lj]);
        }
        let i = li + head;
        let j = lj + head;
        if i > ai || j > bi {
            let h = Hunk { a0: ai, a1: i, b0: bi, b1: j };
            proof {
                lemma_hunks_push(ta, tb, out@, h);
                lemma_removed_push(out@, h);
            }
            let ghost before = out@;
            out.push(h);
            proof {
                assert forall|x: int, y: int| 0 <= x < y < out@.len() implies (#[trigger] out@[x]).a1
                    < (#[trigger] out@[y]).a0 by {
                    if y == out@.len() - 1 && x < y {
                        assert(before[x].a1 <= before.last().a1) by {
                            if x < before.len() - 1 {
                                assert(before[x].a1 < before[before.len() - 1].a0);
                            }
                        }
                    } else {
                        assert(out@[x] == before[x] && out@[y] == before[y]);
                    }
                }
            }
        }
        proof {
            assert(ta[i as int] == tb[j as int]);
            lemma_hunks_match(ta, tb, out@, i as int, j as int);
        }
        ai = i + 1;
        bi = j + 1;
        p = p + 1;
    }
    if ai < an || bi < bn {
        let h = Hunk { a0: ai, a1: an, b0: bi, b1: bn };
        proof {
            lemma_hunks_push(ta, tb, out@, h);
            lemma_removed_push(out@, h);
        }
        let ghost before = out@;
        out.push(h);
        proof {
            lemma_hunks_done(ta, tb, out@, an as int, bn as int);
            assert forall|x: int, y: int| 0 <= x < y < out@.len() implies (#[trigger] out@[x]).a1
                < (#[trigger] out@[y]).a0 by {
                if y == out@.len() - 1 && x < y {
                    assert(before[x].a1 <= before.last().a1) by {
                        if x < before.len() - 1 {
                            assert(before[x].a1 < before[before.len() - 1].a0);
                        }
                    }
                } else {
                    assert(out@[x] == before[x] && out@[y] == before[y]);
                }
            }
        }
    } else {
        proof {
            lemma_hunks_done(ta, tb, out@, ai as int, bi as int);
        }
    }
    proof {
        assert(removed(out@) == an - head - pairs@.len());
        assert forall|q: Seq<(usize, usize)>| #[trigger] matching(q, ta, tb) implies q.len() + removed(out@)
            <= a@.len() by {
            let qm = lemma_trim(q, ta, tb, head as int, tail as int);
            assert(matching(qm, views(left@), views(right@)));
        }
    }
    out
}


/// Laying out two lists of texts one after the other lays out their texts.
pub proof fn lemma_concat_add(x: Seq<Seq<char>>, y: Seq<Seq<char>>)
    ensures
        concat(x + y) == concat(x) + concat(y),
    decreases y.len(),
{
    if y.len() == 0 {
        assert(x + y =~= x);
        assert(concat(x) + concat(y) =~= concat(x));
    } else {
        assert((x + y).drop_last() =~= x + y.drop_last());
        lemma_concat_add(x, y.drop_last());
        assert(concat(x + y) =~= concat(x) + concat(y));
    }
}

/// A text has no more tokens than characters, so a bound on the length of
/// texts bounds their tokens.
pub proof fn lemma_tokens_fewer(s: Seq<char>)
    ensures
        tokens_of(s).len() <= s.len(),
    decreases s.len(),
{
    if s.len() > 0 {
        lemma_tokens_fewer(s.drop_last());
    }
}

/// The tokens of a text lay out to the text again.
pub proof fn lemma_tokens_partition(s: Seq<char>)
    ensures
        concat(tokens_of(s)) == s,
        tokens_of(s).len() <= s.len(),
    decreases s.len(),
{
    if s.len() > 0 {
        let prev = tokens_of(s.drop_last());
        lemma_tokens_partition(s.drop_last());
        let c = s.last();
        if prev.len() > 0 && white_space(prev.last().last()) == white_space(c) {
            let t = prev.update(prev.len() - 1, prev.last().push(c));
            assert(t.drop_last() =~= prev.drop_last());
            assert(concat(prev) == concat(prev.drop_last()) + prev.last());
            assert(concat(t) =~= concat(prev) + seq![c]);
        } else {
            assert(prev.push(seq![c]).drop_last() =~= prev);
        }
        assert(s =~= s.drop_last() + seq![c]);
    }
}

/// The tokens of a text are maximal runs: none is empty, each is all white
/// space or all not, and each is of the other kind from the one before it.
pub proof fn lemma_tokens_alternate(s: Seq<char>)
    ensures
        forall|i: int| 0 <= i < tokens_of(s).len() ==> (#[trigger] tokens_of(s)[i]).len() > 0,
        forall|i: int, k: int|
            0 <= i < tokens_of(s).len() && 0 <= k < tokens_of(s)[i].len() ==> white_space(
                #[trigger] tokens_of(s)[i][k],
            ) == white_space(tokens_of(s)[i][0]),
        forall|i: int|
            0 < i < tokens_of(s).len() ==> white_space(#[trigger] tokens_of(s)[i][0]) != white_space(
                tokens_of(s)[i - 1][0],
            ),
    decreases s.len(),
{
    if s.len() > 0 {
        lemma_tokens_alternate(s.drop_last());
        let prev = tokens_of(s.drop_last());
        let c = s.last();
        let t = tokens_of(s);
        if prev.len() > 0 && white_space(prev.last().last()) == white_space(c) {
            let l = prev.len() - 1;
            assert(t == prev.update(l, prev.last().push(c)));
            assert(white_space(prev[l][prev[l].len() - 1]) == white_space(prev[l][0]));
            assert forall|i: int, k: int|
                0 <= i < t.len() && 0 <= k < t[i].len() implies white_space(#[trigger] t[i][k])
                    == white_space(t[i][0]) by {
                if i == l {
                    if k < prev[l].len() {
                        assert(t[i][k] == prev[l][k]);
                    }
                    assert(t[i][0] == prev[l][0]);
                } else {
                    assert(t[i] == prev[i]);
                }
            }
            assert forall|i: int| 0 < i < t.len() implies white_space(#[trigger] t[i][0]) != white_space(
                t[i - 1][0],
            ) by {
                assert(t[i][0] == prev[i][0]);
                assert(t[i - 1][0] == prev[i - 1][0]);
            }
        } else {
            assert(t == prev.push(seq![c]));
            assert forall|i: int| 0 < i < t.len() implies white_space(#[trigger] t[i][0]) != white_space(
                t[i - 1][0],
            ) by {
                if i == t.len() - 1 {
                    let l = prev.len() - 1;
                    assert(white_space(prev[l][prev[l].len() - 1]) == white_space(prev[l][0]));
                    assert(t[i - 1] == prev[l]);
                } else {
                    assert(t[i] == prev[i]);
                }
            }
            assert forall|i: int, k: int|
                0 <= i < t.len() && 0 <= k < t[i].len() implies white_space(#[trigger] t[i][k])
                    == white_space(t[i][0]) by {
                if i < prev.len() {
                    assert(t[i] == prev[i]);
                }
            }
        }
    }
}

/// The tokens are split by Unicode's `White_Space`: no token mixes a white
/// space character (a tab, a line break, a space of any width) with one
/// that is not, and neighbouring tokens are one of each.
pub proof fn lemma_tokens_split_by_unicode(s: Seq<char>)
    ensures
        forall|i: int, k: int|
            0 <= i < tokens_of(s).len() && 0 <= k < tokens_of(s)[i].len() ==> unicode_white_space(
                #[trigger] tokens_of(s)[i][k],
            ) == unicode_white_space(tokens_of(s)[i][0]),
        forall|i: int|
            0 < i < tokens_of(s).len() ==> unicode_white_space(#[trigger] tokens_of(s)[i][0])
                != unicode_white_space(tokens_of(s)[i - 1][0]),
{
    lemma_tokens_alternate(s);
    let t = tokens_of(s);
    assert forall|i: int, k: int| 0 <= i < t.len() && 0 <= k < t[i].len() implies unicode_white_space(
        #[trigger] t[i][k],
    ) == unicode_white_space(t[i][0]) by {
        lemma_white_space_is_unicode(t[i][k]);
        lemma_white_space_is_unicode(t[i][0]);
    }
    assert forall|i: int| 0 < i < t.len() implies unicode_white_space(#[trigger] t[i][0])
        != unicode_white_space(t[i - 1][0]) by {
        lemma_white_space_is_unicode(t[i][0]);
        lemma_white_space_is_unicode(t[i - 1][0]);
    }
}

/// The character index at which the first `u` UTF-16 units of `s` end: the
/// longest prefix no longer than `u` units.
pub open spec fn utf16_index(s: Seq<char>, u: int) -> int
    decreases s.len(),
{
    if s.len() == 0 || utf16_len(s) <= u {
        s.len() as int
    } else {
        utf16_index(s.drop_last(), u)
    }
}

/// A text with the UTF-16 units `e.at .. e.at + e.delete` replaced by
/// `e.insert`.
pub open spec fn splice(s: Seq<char>, e: Edit) -> Seq<char> {
    s.take(utf16_index(s, e.at as int)) + e.insert@ + s.skip(utf16_index(s, e.at + e.delete))
}

/// Edits applied to a text back to front, each to the text the ones after it
/// left.
pub open spec fn apply_edits(s: Seq<char>, es: Seq<Edit>) -> Seq<char>
    decreases es.len(),
{
    if es.len() == 0 {
        s
    } else {
        apply_edits(splice(s, es.last()), es.drop_last())
    }
}

/// Edits applied front to back, each at its position moved on by what the
/// ones before it inserted and deleted, in UTF-16 units.
pub open spec fn apply_forward(s: Seq<char>, es: Seq<Edit>, shift: int) -> Seq<char>
    decreases es.len(),
{
    if es.len() == 0 {
        s
    } else {
        let e = es[0];
        let at = e.at + shift;
        apply_forward(
            s.take(utf16_index(s, at)) + e.insert@ + s.skip(utf16_index(s, at + e.delete)),
            es.drop_first(),
            shift + utf16_len(e.insert@) - e.delete,
        )
    }
}

/// Edits in the order of the text, with some unchanged text between each
/// and the next.
pub open spec fn edits_ordered(es: Seq<Edit>) -> bool {
    forall|i: int, j: int|
        0 <= i < j < es.len() ==> (#[trigger] es[i]).at + es[i].delete < (#[trigger] es[j]).at
}

/// The first `utf16_len(x)` units of `x + y` end where `x` does.
pub proof fn lemma_utf16_index(x: Seq<char>, y: Seq<char>)
    ensures
        utf16_index(x + y, utf16_len(x) as int) == x.len(),
    decreases y.len(),
{
    if y.len() == 0 {
        assert(x + y =~= x);
    } else {
        lemma_utf16_concat(x, y);
        assert(utf16_len(y) == utf16_len(y.drop_last()) + utf16_width(y.last()));
        assert((x + y).drop_last() =~= x + y.drop_last());
        lemma_utf16_index(x, y.drop_last());
    }
}

/// One replacement in the old text: delete `delete` UTF-16 units at `at`, then
/// insert `insert`. Edits from `diff` are sorted by `at` and never overlap, so
/// a caller applies them back to front, or front to back with a running
/// offset, and lands exactly on the new text.
#[derive(Debug, Clone, PartialEq, Eq)]
pub struct Edit {
    pub at: usize,
    pub delete: usize,
    pub insert: String,
}

/// The edit a hunk is, over the old tokens `a` and the new tokens `b`.
pub open spec fn edit_of(a: Seq<Seq<char>>, b: Seq<Seq<char>>, h: Hunk, e: Edit) -> bool {
    &&& e.at == utf16_len(concat(a.take(h.a0 as int)))
    &&& e.delete == utf16_len(concat(a.subrange(h.a0 as int, h.a1 as int)))
    &&& e.insert@ == concat(b.subrange(h.b0 as int, h.b1 as int))
}

/// The text halfway through applying the edits back to front, once the ones
/// from hunk `k` on are in: the old tokens before hunk `k`, then the new
/// tokens from there.
spec fn halfway(a: Seq<Seq<char>>, b: Seq<Seq<char>>, hs: Seq<Hunk>, k: int) -> Seq<char> {
    concat(a.take(gap_hi_a(hs, k, a.len() as int))) + concat(
        b.skip(gap_hi_b(hs, k, b.len() as int)),
    )
}

/// Applying one more edit, back to front, moves the halfway text back by one
/// hunk.
#[verifier::spinoff_prover]
#[verifier::rlimit(40)]
proof fn lemma_halfway_step(
    a: Seq<Seq<char>>,
    b: Seq<Seq<char>>,
    hs: Seq<Hunk>,
    es: Seq<Edit>,
    k: int,
)
    requires
        hunks_valid(a, b, hs),
        es.len() == hs.len(),
        0 <= k < hs.len(),
        edit_of(a, b, hs[k], es[k]),
    ensures
        splice(halfway(a, b, hs, k + 1), es[k]) == halfway(a, b, hs, k),
{
    let h = hs[k];
    assert(hunk_ok(h));
    assert(gap_ok(a, b, hs, k));
    assert(gap_ok(a, b, hs, k + 1));
    let pa = gap_hi_a(hs, k + 1, a.len() as int);
    let pb = gap_hi_b(hs, k + 1, b.len() as int);
    let x = concat(a.take(h.a0 as int));
    let dl = concat(a.subrange(h.a0 as int, h.a1 as int));
    let g = concat(a.subrange(h.a1 as int, pa));
    let rest = concat(b.skip(pb));
    assert(a.take(pa) =~= a.take(h.a0 as int) + a.subrange(h.a0 as int, h.a1 as int) + a.subrange(h.a1 as int, pa));
    lemma_concat_add(a.take(h.a0 as int) + a.subrange(h.a0 as int, h.a1 as int), a.subrange(h.a1 as int, pa));
    lemma_concat_add(a.take(h.a0 as int), a.subrange(h.a0 as int, h.a1 as int));
    let t = halfway(a, b, hs, k + 1);
    assert(t =~= x + (dl + (g + rest)));
    lemma_utf16_index(x, dl + (g + rest));
    assert(t =~= (x + dl) + (g + rest));
    lemma_utf16_index(x + dl, g + rest);
    lemma_utf16_concat(x, dl);
    assert(t.take(x.len() as int) =~= x);
    assert(t.skip((x + dl).len() as int) =~= g + rest);
    assert(a.subrange(h.a1 as int, pa) == b.subrange(h.b1 as int, pb));
    assert(b.skip(h.b0 as int) =~= b.subrange(h.b0 as int, h.b1 as int) + b.subrange(h.b1 as int, pb) + b.skip(pb));
    lemma_concat_add(b.subrange(h.b0 as int, h.b1 as int) + b.subrange(h.b1 as int, pb), b.skip(pb));
    lemma_concat_add(b.subrange(h.b0 as int, h.b1 as int), b.subrange(h.b1 as int, pb));
    assert(gap_hi_a(hs, k, a.len() as int) == h.a0);
    assert(gap_hi_b(hs, k, b.len() as int) == h.b0);
    assert(splice(t, es[k]) =~= halfway(a, b, hs, k));
}

/// Applying the edits of the first `k` hunks, back to front, to the halfway
/// text gives the new text.
proof fn lemma_apply_from(a: Seq<Seq<char>>, b: Seq<Seq<char>>, hs: Seq<Hunk>, es: Seq<Edit>, k: int)
    requires
        hunks_valid(a, b, hs),
        es.len() == hs.len(),
        0 <= k <= hs.len(),
        forall|i: int| 0 <= i < hs.len() ==> edit_of(a, b, #[trigger] hs[i], es[i]),
    ensures
        apply_edits(halfway(a, b, hs, k), es.take(k)) == concat(b),
    decreases k,
{
    if k == 0 {
        assert(es.take(0) =~= Seq::<Edit>::empty());
        assert(gap_ok(a, b, hs, 0));
        let p = gap_hi_b(hs, 0, b.len() as int);
        assert(a.take(gap_hi_a(hs, 0, a.len() as int)) =~= b.take(p));
        assert(b =~= b.take(p) + b.skip(p));
        lemma_concat_add(b.take(p), b.skip(p));
    } else {
        assert(edit_of(a, b, hs[k - 1], es[k - 1]));
        lemma_halfway_step(a, b, hs, es, k - 1);
        assert(es.take(k).drop_last() =~= es.take(k - 1));
        assert(es.take(k).last() == es[k - 1]);
        lemma_apply_from(a, b, hs, es, k - 1);
    }
}

/// Applying the edits of hunks that turn `a` into `b`, back to front, to the
/// old text gives the new text.
proof fn lemma_apply_hunks(a: Seq<Seq<char>>, b: Seq<Seq<char>>, hs: Seq<Hunk>, es: Seq<Edit>)
    requires
        hunks_valid(a, b, hs),
        es.len() == hs.len(),
        forall|k: int| 0 <= k < hs.len() ==> edit_of(a, b, #[trigger] hs[k], es[k]),
    ensures
        apply_edits(concat(a), es) == concat(b),
{
    let r = hs.len() as int;
    assert(a.take(a.len() as int) =~= a);
    assert(b.skip(b.len() as int) =~= Seq::<Seq<char>>::empty());
    assert(halfway(a, b, hs, r) =~= concat(a));
    assert(es.take(r) =~= es);
    lemma_apply_from(a, b, hs, es, r);
}


/// The text halfway through applying the edits front to back, once those of
/// the hunks before `k` are in: the new tokens up to where the shared stretch
/// before hunk `k` starts, then the old tokens from there.
spec fn forward_halfway(a: Seq<Seq<char>>, b: Seq<Seq<char>>, hs: Seq<Hunk>, k: int) -> Seq<char> {
    concat(b.take(gap_lo_b(hs, k))) + concat(a.skip(gap_lo_a(hs, k)))
}

/// How far the edits before hunk `k` have moved the text on.
spec fn forward_shift(a: Seq<Seq<char>>, b: Seq<Seq<char>>, hs: Seq<Hunk>, k: int) -> int {
    utf16_len(concat(b.take(gap_lo_b(hs, k)))) - utf16_len(concat(a.take(gap_lo_a(hs, k))))
}

/// Applying the edits of the hunks from `k` on, front to back, to the text
/// halfway there gives the new text.
#[verifier::spinoff_prover]
#[verifier::rlimit(60)]
proof fn lemma_forward_from(a: Seq<Seq<char>>, b: Seq<Seq<char>>, hs: Seq<Hunk>, es: Seq<Edit>, k: int)
    requires
        hunks_valid(a, b, hs),
        es.len() == hs.len(),
        0 <= k <= hs.len(),
        forall|i: int| 0 <= i < hs.len() ==> edit_of(a, b, #[trigger] hs[i], es[i]),
    ensures
        apply_forward(forward_halfway(a, b, hs, k), es.skip(k), forward_shift(a, b, hs, k)) == concat(b),
    decreases hs.len() - k,
{
    let la = gap_lo_a(hs, k);
    let lb = gap_lo_b(hs, k);
    assert(gap_ok(a, b, hs, k));
    if k == hs.len() {
        assert(es.skip(k).len() == 0);
        assert(a.skip(la) =~= b.skip(lb)) by {
            assert(a.subrange(la, a.len() as int) == b.subrange(lb, b.len() as int));
        }
        assert(b =~= b.take(lb) + b.skip(lb));
        lemma_concat_add(b.take(lb), b.skip(lb));
    } else {
        let h = hs[k];
        let e = es[k];
        assert(hunk_ok(h));
        assert(edit_of(a, b, h, e));
        assert(gap_ok(a, b, hs, k + 1));
        assert(gap_lo_a(hs, k + 1) == h.a1);
        assert(gap_lo_b(hs, k + 1) == h.b1);
        assert(gap_hi_a(hs, k, a.len() as int) == h.a0);
        assert(gap_hi_b(hs, k, b.len() as int) == h.b0);
        let shared = a.subrange(la, h.a0 as int);
        assert(shared == b.subrange(lb, h.b0 as int));
        let x = concat(b.take(h.b0 as int));
        let dl = concat(a.subrange(h.a0 as int, h.a1 as int));
        let rest = concat(a.skip(h.a1 as int));
        // The text halfway there is the new text up to the hunk, what it deletes, and the rest.
        assert(b.take(h.b0 as int) =~= b.take(lb) + b.subrange(lb, h.b0 as int));
        lemma_concat_add(b.take(lb), b.subrange(lb, h.b0 as int));
        assert(a.skip(la) =~= shared + a.subrange(h.a0 as int, h.a1 as int) + a.skip(h.a1 as int));
        lemma_concat_add(shared + a.subrange(h.a0 as int, h.a1 as int), a.skip(h.a1 as int));
        lemma_concat_add(shared, a.subrange(h.a0 as int, h.a1 as int));
        let t = forward_halfway(a, b, hs, k);
        assert(t =~= (x + dl) + rest);
        assert(t =~= x + (dl + rest));
        // Where the edit lands, moved on.
        assert(a.take(h.a0 as int) =~= a.take(la) + shared);
        lemma_concat_add(a.take(la), shared);
        lemma_utf16_concat(concat(a.take(la)), concat(shared));
        lemma_utf16_concat(concat(b.take(lb)), concat(shared));
        let at = e.at + forward_shift(a, b, hs, k);
        assert(at == utf16_len(x));
        lemma_utf16_index(x, dl + rest);
        lemma_utf16_index(x + dl, rest);
        lemma_utf16_concat(x, dl);
        assert(t.take(x.len() as int) =~= x);
        assert(t.skip((x + dl).len() as int) =~= rest);
        let next = t.take(utf16_index(t, at)) + e.insert@ + t.skip(utf16_index(t, at + e.delete));
        assert(next =~= x + e.insert@ + rest);
        // That is the text halfway there after this hunk.
        assert(b.take(h.b1 as int) =~= b.take(h.b0 as int) + b.subrange(h.b0 as int, h.b1 as int));
        lemma_concat_add(b.take(h.b0 as int), b.subrange(h.b0 as int, h.b1 as int));
        assert(next =~= forward_halfway(a, b, hs, k + 1));
        lemma_utf16_concat(x, e.insert@);
        assert(a.take(h.a1 as int) =~= a.take(h.a0 as int) + a.subrange(h.a0 as int, h.a1 as int));
        lemma_concat_add(a.take(h.a0 as int), a.subrange(h.a0 as int, h.a1 as int));
        lemma_utf16_concat(concat(a.take(h.a0 as int)), dl);
        assert(forward_shift(a, b, hs, k) + utf16_len(e.insert@) - e.delete == forward_shift(a, b, hs, k + 1));
        assert(es.skip(k)[0] == e);
        assert(es.skip(k).drop_first() =~= es.skip(k + 1));
        lemma_forward_from(a, b, hs, es, k + 1);
    }
}

/// Hunks come in the order of the text: one ends before the next starts.
proof fn lemma_hunks_ordered(a: Seq<Seq<char>>, b: Seq<Seq<char>>, hs: Seq<Hunk>, i: int, j: int)
    requires
        hunks_valid(a, b, hs),
        0 <= i < j < hs.len(),
    ensures
        hs[i].a1 <= hs[j].a0,
    decreases j - i,
{
    assert(gap_ok(a, b, hs, j));
    if i < j - 1 {
        lemma_hunks_ordered(a, b, hs, i, j - 1);
        assert(hunk_ok(hs[j - 1]));
    }
}

/// Tokens `i..j`, the first of them not empty, take some UTF-16 units.
proof fn lemma_units_positive(t: Seq<Seq<char>>, i: int, j: int)
    requires
        0 <= i < j <= t.len(),
        t[i].len() > 0,
    ensures
        utf16_len(concat(t.subrange(i, j))) > 0,
{
    let first = seq![t[i]];
    let rest = t.subrange(i + 1, j);
    assert(t.subrange(i, j) =~= first + rest);
    lemma_concat_add(first, rest);
    assert(first.drop_last() =~= Seq::<Seq<char>>::empty());
    assert(concat(Seq::<Seq<char>>::empty()) =~= Seq::<char>::empty());
    assert(concat(first) =~= concat(first.drop_last()) + t[i]);
    assert(concat(first) =~= t[i]);
    lemma_utf16_concat(t[i], concat(rest));
    assert(utf16_len(t[i]) == utf16_len(t[i].drop_last()) + utf16_width(t[i].last()));
}

/// A longer prefix of the tokens is no shorter in UTF-16 units.
proof fn lemma_prefix_units(t: Seq<Seq<char>>, i: int, j: int)
    requires
        0 <= i <= j <= t.len(),
    ensures
        concat(t.take(j)) == concat(t.take(i)) + concat(t.subrange(i, j)),
        utf16_len(concat(t.take(j))) == utf16_len(concat(t.take(i))) + utf16_len(
            concat(t.subrange(i, j)),
        ),
{
    assert(t.take(j) =~= t.take(i) + t.subrange(i, j));
    lemma_concat_add(t.take(i), t.subrange(i, j));
    lemma_utf16_concat(concat(t.take(i)), concat(t.subrange(i, j)));
}

/// The texts of the tokens `lo..hi`, laid end to end.
#[verifier::spinoff_prover]
#[verifier::rlimit(40)]
pub(crate) fn join(tokens: &[Token<'_>], lo: usize, hi: usize) -> (r: String)
    requires
        lo <= hi <= tokens@.len(),
    ensures
        r@ == concat(token_texts(tokens@).subrange(lo as int, hi as int)),
{
    let ghost t = token_texts(tokens@);
    let mut out = String::new();
    let mut i: usize = lo;
    while i < hi
        invariant
            lo <= i <= hi <= tokens@.len(),
            t == token_texts(tokens@),
            out@ == concat(t.subrange(lo as int, i as int)),
        decreases hi - i,
    {
        crate::strings::push_str(&mut out, tokens[i].text);
        assert(t.subrange(lo as int, i + 1).drop_last() =~= t.subrange(lo as int, i as int));
        i = i + 1;
    }
    out
}

/// A placed token ends where the tokens up to and including it end.
proof fn lemma_token_end(a: Seq<Token>, l: int)
    requires
        placed(a),
        0 <= l < a.len(),
    ensures
        a[l].at + a[l].len == utf16_len(concat(token_texts(a).take(l + 1))),
        utf16_len(concat(token_texts(a).take(l + 1))) <= utf16_len(concat(token_texts(a))),
{
    let t = token_texts(a);
    lemma_prefix_units(t, l, l + 1);
    assert(t.subrange(l, l + 1) =~= seq![t[l]]);
    assert(concat(seq![t[l]]) =~= t[l]) by {
        let one = seq![t[l]];
        assert(one.drop_last() =~= Seq::<Seq<char>>::empty());
        assert(concat(one.drop_last()) =~= Seq::<char>::empty());
        assert(one.last() == t[l]);
        assert(concat(one) == concat(one.drop_last()) + one.last());
    }
    lemma_prefix_units(t, l + 1, t.len() as int);
    assert(t.take(t.len() as int) =~= t);
}

/// The edit that hunk `h` stands for, over the placed old tokens `a`, whose
/// text ends at `end`, and the new tokens `b`.
#[verifier::spinoff_prover]
#[verifier::rlimit(40)]
fn edit_for(a: &[Token<'_>], b: &[Token<'_>], end: usize, h: Hunk, Ghost(hs): Ghost<Seq<Hunk>>, Ghost(k): Ghost<int>) -> (e: Edit)
    requires
        placed(a@),
        hunks_valid(token_texts(a@), token_texts(b@), hs),
        0 <= k < hs.len(),
        hs[k] == h,
        end == utf16_len(concat(token_texts(a@))),
        utf16_len(concat(token_texts(a@))) <= usize::MAX,
    ensures
        edit_of(token_texts(a@), token_texts(b@), h, e),
{
    let ghost ta = token_texts(a@);
    let ghost tb = token_texts(b@);
    proof {
        assert(hunk_ok(hs[k]));
        assert(gap_ok(ta, tb, hs, k));
        assert(gap_ok(ta, tb, hs, k + 1));
        lemma_prefix_units(ta, h.a0 as int, h.a1 as int);
        lemma_prefix_units(ta, h.a1 as int, ta.len() as int);
        assert(ta.take(ta.len() as int) =~= ta);
    }
    let at = if h.a0 < a.len() {
        a[h.a0].at
    } else {
        end
    };
    let delete = if h.a1 > h.a0 {
        proof {
            let l = h.a1 - 1;
            lemma_token_end(a@, l as int);
            lemma_prefix_units(ta, h.a0 as int, l as int);
        }
        a[h.a1 - 1].at + a[h.a1 - 1].len - a[h.a0].at
    } else {
        assert(ta.subrange(h.a0 as int, h.a1 as int) =~= Seq::<Seq<char>>::empty());
        0
    };
    let insert = join(b, h.b0, h.b1);
    Edit { at, delete, insert }
}

/// The word-level diff, as replacements that turn `old` into `new`: applied
/// back to front they land exactly on the new text, and they come in the
/// order of the text without overlapping.
#[verifier::spinoff_prover]
#[verifier::rlimit(40)]
pub fn diff(old: &str, new: &str) -> (r: Vec<Edit>)
    requires
        tokens_of(old@).len() + tokens_of(new@).len() <= isize::MAX / 16,
    ensures
        apply_edits(old@, r@) == new@,
        apply_forward(old@, r@, 0) == new@,
        edits_ordered(r@),
        old@ == new@ ==> r@.len() == 0,
        exists|hs: Seq<Hunk>|
            {
                &&& #[trigger] hunks_valid(tokens_of(old@), tokens_of(new@), hs)
                &&& hs == hunks_of(tokens_of(old@), tokens_of(new@))
                &&& hunks_spaced(hs)
                &&& hunks_trimmed(tokens_of(old@), tokens_of(new@), hs)
                &&& hs.len() == r@.len()
                &&& forall|i: int|
                    0 <= i < hs.len() ==> edit_of(tokens_of(old@), tokens_of(new@), #[trigger] hs[i], r@[i])
                &&& forall|q: Seq<(usize, usize)>|
                    #[trigger] matching(q, tokens_of(old@), tokens_of(new@)) && tokens_of(old@).len()
                        + tokens_of(new@).len() - 2 * q.len() <= TRACE_CEILING ==> q.len() + removed(hs)
                        <= tokens_of(old@).len()
            },
{
    let a = tokenize(old);
    let b = tokenize(new);
    let ghost ta = token_texts(a@);
    let ghost tb = token_texts(b@);
    proof {
        lemma_tokens_partition(old@);
        lemma_tokens_partition(new@);
    }
    let end = if a.len() > 0 {
        proof {
            let l = a@.len() - 1;
            lemma_token_end(a@, l);
            assert(ta.take(l + 1) =~= ta);
        }
        a[a.len() - 1].at + a[a.len() - 1].len
    } else {
        assert(ta =~= Seq::<Seq<char>>::empty());
        0
    };
    let hs = hunks(a.as_slice(), b.as_slice());
    let mut out: Vec<Edit> = Vec::new();
    let mut k: usize = 0;
    while k < hs.len()
        invariant
            k <= hs@.len(),
            out@.len() == k,
            hunks_valid(ta, tb, hs@),
            ta == token_texts(a@),
            tb == token_texts(b@),
            placed(a@),
            utf16_len(concat(ta)) <= usize::MAX,
            end == utf16_len(concat(ta)),
            forall|i: int| 0 <= i < k ==> edit_of(ta, tb, #[trigger] hs@[i], out@[i]),
        decreases hs@.len() - k,
    {
        let e = edit_for(a.as_slice(), b.as_slice(), end, hs[k], Ghost(hs@), Ghost(k as int));
        let ghost prev = out@;
        out.push(e);
        proof {
            assert forall|i: int| 0 <= i < k + 1 implies edit_of(ta, tb, #[trigger] hs@[i], out@[i]) by {
                if i < k {
                    assert(out@[i] == prev[i]);
                }
            }
        }
        k = k + 1;
    }
    proof {
        lemma_tokens_alternate(old@);
        lemma_apply_hunks(ta, tb, hs@, out@);
        lemma_forward_from(ta, tb, hs@, out@, 0);
        assert(out@.skip(0) =~= out@);
        assert(ta.skip(0) =~= ta);
        assert(tb.take(0) =~= Seq::<Seq<char>>::empty());
        assert(ta.take(0) =~= Seq::<Seq<char>>::empty());
        assert(forward_halfway(ta, tb, hs@, 0) =~= concat(ta));
        assert forall|i: int, j: int| 0 <= i < j < out@.len() implies (#[trigger] out@[i]).at
            + out@[i].delete < (#[trigger] out@[j]).at by {
            assert(edit_of(ta, tb, hs@[i], out@[i]));
            assert(edit_of(ta, tb, hs@[j], out@[j]));
            lemma_hunks_ordered(ta, tb, hs@, i, j);
            assert(hunk_ok(hs@[i]));
            assert(gap_ok(ta, tb, hs@, j));
            lemma_prefix_units(ta, hs@[i].a0 as int, hs@[i].a1 as int);
            lemma_prefix_units(ta, hs@[i].a1 as int, hs@[j].a0 as int);
            assert(hs@[i].a1 < hs@[j].a0);
            assert(ta[hs@[i].a1 as int].len() > 0);
            lemma_units_positive(ta, hs@[i].a1 as int, hs@[j].a0 as int);
        }
        assert(a@.len() == ta.len() && b@.len() == tb.len());
        assert(hunks_valid(tokens_of(old@), tokens_of(new@), hs@));
    }
    out
}

} // verus!
