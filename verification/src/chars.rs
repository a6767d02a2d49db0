//! Characters and strings, as the sequences of `char` that Verus sees them as.

use vstd::prelude::*;
use vstd::string::*;
use vstd::utf8::*;

verus! {

/// The Unicode `White_Space` property, which is what `char::is_whitespace`
/// and `str::trim` go by.
pub open spec fn white_space(c: char) -> bool {
    let u = c as u32;
    ||| 0x09 <= u <= 0x0d
    ||| u == 0x20
    ||| u == 0x85
    ||| u == 0xa0
    ||| u == 0x1680
    ||| 0x2000 <= u <= 0x200a
    ||| u == 0x2028
    ||| u == 0x2029
    ||| u == 0x202f
    ||| u == 0x205f
    ||| u == 0x3000
}

/// The characters Unicode gives the `White_Space` property: tab, line
/// feed, line and form feed, carriage return, space, next line, no-break
/// space, Ogham space mark, the spaces from en quad to hair space, line and
/// paragraph separator, narrow no-break space, medium mathematical space and
/// ideographic space.
pub open spec fn unicode_white_space(c: char) -> bool {
    ||| c == '\t' || c == '\n' || c == '\x0B' || c == '\x0C' || c == '\r' || c == ' '
    ||| c == '\u{85}' || c == '\u{A0}' || c == '\u{1680}'
    ||| c == '\u{2000}' || c == '\u{2001}' || c == '\u{2002}' || c == '\u{2003}' || c == '\u{2004}'
    ||| c == '\u{2005}' || c == '\u{2006}' || c == '\u{2007}' || c == '\u{2008}' || c == '\u{2009}'
    ||| c == '\u{200A}' || c == '\u{2028}' || c == '\u{2029}' || c == '\u{202F}' || c == '\u{205F}'
    ||| c == '\u{3000}'
}

/// The white space the tokens are split by is Unicode's `White_Space`,
/// character for character: tabs and line breaks included.
pub proof fn lemma_white_space_is_unicode(c: char)
    ensures
        white_space(c) == unicode_white_space(c),
{
    let u = c as u32;
    if 0x2000 <= u <= 0x200a {
        assert(u == 0x2000 || u == 0x2001 || u == 0x2002 || u == 0x2003 || u == 0x2004 || u == 0x2005
            || u == 0x2006 || u == 0x2007 || u == 0x2008 || u == 0x2009 || u == 0x200a);
    }
}

/// How many UTF-16 code units a character takes.
pub open spec fn utf16_width(c: char) -> nat {
    if (c as u32) < 0x10000 { 1 } else { 2 }
}

/// A character takes two UTF-16 code units exactly when it takes four
/// bytes in UTF-8: when it lies beyond the Basic Multilingual Plane.
pub proof fn lemma_utf16_width_by_utf8(c: char)
    ensures
        utf16_width(c) == (if encode_scalar(c as u32).len() == 4 { 2nat } else { 1nat }),
{
}

/// How many UTF-16 code units a text takes.
pub open spec fn utf16_len(s: Seq<char>) -> nat
    decreases s.len(),
{
    if s.len() == 0 { 0 } else { utf16_len(s.drop_last()) + utf16_width(s.last()) }
}

/// Whether the character has the Unicode `White_Space` property, as
/// `char::is_whitespace` answers.
pub(crate) fn is_whitespace(c: char) -> (r: bool)
    ensures
        r == white_space(c),
{
    let u = c as u32;
    (0x09 <= u && u <= 0x0d) || u == 0x20 || u == 0x85 || u == 0xa0 || u == 0x1680 || (0x2000 <= u
        && u <= 0x200a) || u == 0x2028 || u == 0x2029 || u == 0x202f || u == 0x205f || u == 0x3000
}

/// How many UTF-16 code units the character takes, as `char::len_utf16`
/// answers: one below U+10000, two above.
pub(crate) fn char_len_utf16(c: char) -> (r: usize)
    ensures
        r == utf16_width(c),
{
    if (c as u32) < 0x10000 {
        1
    } else {
        2
    }
}

/// The characters of a text, in order.
pub fn chars_of(text: &str) -> (v: Vec<char>)
    ensures
        v@ == text@,
{
    let mut v: Vec<char> = Vec::new();
    for c in it: text.chars()
        invariant
            v@ == it.seq().take(it.index() as int),
            it.seq() == text@,
    {
        v.push(c);
    }
    v
}


/// `str::trim_start`: the text without its leading white space.
pub open spec fn trim_start(s: Seq<char>) -> Seq<char>
    decreases s.len(),
{
    if s.len() > 0 && white_space(s[0]) {
        trim_start(s.drop_first())
    } else {
        s
    }
}

/// `str::trim_end`: the text without its trailing white space.
pub open spec fn trim_end(s: Seq<char>) -> Seq<char>
    decreases s.len(),
{
    if s.len() > 0 && white_space(s.last()) {
        trim_end(s.drop_last())
    } else {
        s
    }
}

/// `str::trim`: the text without white space at either end.
pub open spec fn trim(s: Seq<char>) -> Seq<char> {
    trim_end(trim_start(s))
}

/// Where the trimmed part of `cs[lo..hi]` lies.
pub fn trimmed(cs: &Vec<char>, lo: usize, hi: usize) -> (r: (usize, usize))
    requires
        lo <= hi <= cs.len(),
    ensures
        lo <= r.0 <= r.1 <= hi,
        cs@.subrange(r.0 as int, r.1 as int) == trim(cs@.subrange(lo as int, hi as int)),
{
    let mut a = lo;
    while a < hi && is_whitespace(cs[a])
        invariant
            lo <= a <= hi <= cs.len(),
            trim_start(cs@.subrange(lo as int, hi as int)) == trim_start(
                cs@.subrange(a as int, hi as int),
            ),
        decreases hi - a,
    {
        assert(cs@.subrange(a as int, hi as int).drop_first() =~= cs@.subrange(
            a + 1,
            hi as int,
        ));
        a = a + 1;
    }
    let mut b = hi;
    while b > a && is_whitespace(cs[b - 1])
        invariant
            lo <= a <= b <= hi <= cs.len(),
            trim_start(cs@.subrange(lo as int, hi as int)) == cs@.subrange(a as int, hi as int),
            trim_end(cs@.subrange(a as int, hi as int)) == trim_end(
                cs@.subrange(a as int, b as int),
            ),
        decreases b - a,
    {
        assert(cs@.subrange(a as int, b as int).drop_last() =~= cs@.subrange(
            a as int,
            b - 1,
        ));
        b = b - 1;
    }
    (a, b)
}

/// The text `cs[lo..hi]` as a string.
pub fn string_of(cs: &Vec<char>, lo: usize, hi: usize) -> (r: String)
    requires
        lo <= hi <= cs.len(),
    ensures
        r@ == cs@.subrange(lo as int, hi as int),
{
    let mut out = String::new();
    let mut i = lo;
    while i < hi
        invariant
            lo <= i <= hi <= cs.len(),
            out@ == cs@.subrange(lo as int, i as int),
        decreases hi - i,
    {
        crate::strings::push_char(&mut out, cs[i]);
        assert(cs@.subrange(lo as int, i + 1) =~= cs@.subrange(lo as int, i as int).push(cs@[i as int]));
        i = i + 1;
    }
    out
}


/// How many bytes the character takes in UTF-8, as `char::len_utf8`
/// answers.
pub(crate) fn char_len_utf8(c: char) -> (r: usize)
    ensures
        r == encode_scalar(c as u32).len(),
{
    let u = c as u32;
    if u < 0x80 {
        1
    } else if u < 0x800 {
        2
    } else if u < 0x10000 {
        3
    } else {
        4
    }
}

/// The UTF-8 encoding of a concatenation is the concatenation of the
/// encodings.
pub proof fn lemma_encode_concat(a: Seq<char>, b: Seq<char>)
    ensures
        encode_utf8(a + b) == encode_utf8(a) + encode_utf8(b),
    decreases a.len(),
{
    if a.len() == 0 {
        assert(a + b =~= b);
        assert(encode_utf8(a) + encode_utf8(b) =~= encode_utf8(b));
    } else {
        assert((a + b).drop_first() =~= a.drop_first() + b);
        lemma_encode_concat(a.drop_first(), b);
        assert(encode_utf8(a + b) =~= encode_utf8(a) + encode_utf8(b));
    }
}

/// The encoding of a text followed by more text has a character boundary
/// where the first text ends.
pub proof fn lemma_encode_boundary(a: Seq<char>, b: Seq<char>)
    ensures
        is_char_boundary(encode_utf8(a + b), encode_utf8(a).len() as int),
    decreases a.len(),
{
    broadcast use encode_utf8_valid_utf8;

    let bytes = encode_utf8(a + b);
    if a.len() == 0 {
    } else {
        let ab = a + b;
        encode_utf8_first_scalar(ab);
        lemma_encode_concat(a, b);
        assert(ab.drop_first() =~= a.drop_first() + b);
        lemma_encode_concat(a.drop_first(), b);
        assert(pop_first_scalar(bytes) =~= encode_utf8(ab.drop_first()));
        lemma_encode_boundary(a.drop_first(), b);
        assert(encode_utf8(a).len() == encode_scalar(a[0] as u32).len() + encode_utf8(
            a.drop_first(),
        ).len());
        assert(encode_scalar(a[0] as u32).len() > 0);
    }
}

/// UTF-16 lengths add up.
pub proof fn lemma_utf16_concat(a: Seq<char>, b: Seq<char>)
    ensures
        utf16_len(a + b) == utf16_len(a) + utf16_len(b),
    decreases b.len(),
{
    if b.len() == 0 {
        assert(a + b =~= a);
    } else {
        assert((a + b).drop_last() =~= a + b.drop_last());
        lemma_utf16_concat(a, b.drop_last());
    }
}

/// A text takes no more UTF-16 code units than UTF-8 bytes.
pub proof fn lemma_utf16_within_utf8(s: Seq<char>)
    ensures
        utf16_len(s) <= encode_utf8(s).len(),
    decreases s.len(),
{
    if s.len() > 0 {
        lemma_utf16_within_utf8(s.drop_last());
        assert(s.drop_last() + seq![s.last()] =~= s);
        lemma_encode_concat(s.drop_last(), seq![s.last()]);
        assert(seq![s.last()].drop_first() =~= Seq::<char>::empty());
        let c = s.last();
        char_is_scalar(c);
        assert(encode_utf8(seq![c].drop_first()) =~= Seq::<u8>::empty());
        assert(encode_utf8(seq![c]) =~= encode_scalar(seq![c][0] as u32) + encode_utf8(
            seq![c].drop_first(),
        ));
        assert(encode_scalar(c as u32).len() >= 1);
        assert((c as u32) >= 0x10000 ==> encode_scalar(c as u32).len() == 4);
    }
}

/// A text's UTF-16 length fits in a `usize`: it is no more than its length
/// in bytes, which does.
pub fn utf16_fits(text: &str)
    ensures
        utf16_len(text@) <= usize::MAX,
{
    let nbytes = text.as_bytes().len();
    proof {
        lemma_utf16_within_utf8(text@);
        assert(nbytes == encode_utf8(text@).len());
    }
}

/// The number of UTF-16 code units a text takes.
pub fn utf16_count(text: &str) -> (n: usize)
    ensures
        n == utf16_len(text@),
{
    utf16_fits(text);
    let cs = chars_of(text);
    let mut n: usize = 0;
    let mut i: usize = 0;
    while i < cs.len()
        invariant
            i <= cs@.len(),
            cs@ == text@,
            utf16_len(text@) <= usize::MAX,
            n == utf16_len(cs@.take(i as int)),
        decreases cs@.len() - i,
    {
        proof {
            assert(cs@.take(i + 1).drop_last() =~= cs@.take(i as int));
            assert(cs@ =~= cs@.take(i + 1) + cs@.skip(i + 1));
            lemma_utf16_concat(cs@.take(i + 1), cs@.skip(i + 1));
        }
        n = n + char_len_utf16(cs[i]);
        i = i + 1;
    }
    proof {
        assert(cs@.take(i as int) =~= cs@);
    }
    n
}

/// The byte offset at which the first `i` characters of `text` end.
pub open spec fn byte_offset(text: Seq<char>, i: int) -> nat {
    encode_utf8(text.take(i)).len()
}

/// The characters `lo..hi` of `text`, as a slice of it, given where they start
/// and end in bytes.
pub fn char_slice<'a>(
    text: &'a str,
    lo_byte: usize,
    hi_byte: usize,
    Ghost(lo): Ghost<int>,
    Ghost(hi): Ghost<int>,
) -> (r: &'a str)
    requires
        0 <= lo <= hi <= text@.len(),
        lo_byte == byte_offset(text@, lo),
        hi_byte == byte_offset(text@, hi),
    ensures
        r@ == text@.subrange(lo, hi),
{
    broadcast use encode_utf8_decode_utf8;

    let ghost s = text@;
    proof {
        assert(s =~= s.take(lo) + s.skip(lo));
        lemma_encode_concat(s.take(lo), s.skip(lo));
        lemma_encode_boundary(s.take(lo), s.skip(lo));
        assert(s.take(hi) =~= s.take(lo) + s.subrange(lo, hi));
        lemma_encode_concat(s.take(lo), s.subrange(lo, hi));
        assert(s.skip(lo) =~= s.subrange(lo, hi) + s.skip(hi));
        lemma_encode_concat(s.subrange(lo, hi), s.skip(hi));
        lemma_encode_boundary(s.subrange(lo, hi), s.skip(hi));
    }
    let (_, rest) = text.split_at(lo_byte);
    proof {
        assert(encode_utf8(rest@) =~= encode_utf8(s.skip(lo)));
        assert(rest@ == s.skip(lo)) by {
            assert(decode_utf8(encode_utf8(rest@)) == rest@);
            assert(decode_utf8(encode_utf8(s.skip(lo))) == s.skip(lo));
        }
    }
    let (piece, _) = rest.split_at(hi_byte - lo_byte);
    proof {
        assert(encode_utf8(piece@) =~= encode_utf8(s.subrange(lo, hi)));
        assert(decode_utf8(encode_utf8(piece@)) == piece@);
        assert(decode_utf8(encode_utf8(s.subrange(lo, hi))) == s.subrange(lo, hi));
    }
    piece
}


/// One more character moves the byte offset on by that character's width.
pub proof fn lemma_byte_offset_step(s: Seq<char>, i: int)
    requires
        0 <= i < s.len(),
    ensures
        byte_offset(s, i + 1) == byte_offset(s, i) + encode_scalar(s[i] as u32).len(),
        byte_offset(s, i + 1) <= encode_utf8(s).len(),
        utf16_len(s.take(i + 1)) <= byte_offset(s, i + 1),
        byte_offset(s, i) < byte_offset(s, i + 1),
{
    let c = s[i];
    char_is_scalar(c);
    assert(s.take(i + 1) =~= s.take(i) + seq![c]);
    lemma_encode_concat(s.take(i), seq![c]);
    assert(encode_utf8(seq![c].drop_first()) =~= Seq::<u8>::empty());
    assert(encode_utf8(seq![c]) =~= encode_scalar(seq![c][0] as u32) + encode_utf8(
        seq![c].drop_first(),
    ));
    assert(s =~= s.take(i + 1) + s.skip(i + 1));
    lemma_encode_concat(s.take(i + 1), s.skip(i + 1));
    lemma_utf16_within_utf8(s.take(i + 1));
}

/// Byte offsets rise by at least one per character, and stay within the
/// text's bytes.
pub proof fn lemma_byte_offset_mono(s: Seq<char>, i: int, j: int)
    requires
        0 <= i <= j <= s.len(),
    ensures
        byte_offset(s, i) + (j - i) <= byte_offset(s, j),
        byte_offset(s, j) <= encode_utf8(s).len(),
    decreases j - i,
{
    if i < j {
        lemma_byte_offset_step(s, j - 1);
        lemma_byte_offset_mono(s, i, j - 1);
    } else if j < s.len() {
        lemma_byte_offset_step(s, j);
    } else {
        assert(s.take(j) =~= s);
    }
}

} // verus!
