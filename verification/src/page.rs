//! The page a rendered document is stored as: a plain, readable, self-contained
//! HTML file with its styles inline, because a published document has to stand
//! on its own -- no webfonts, no scripts, nothing to fetch.

use vstd::prelude::*;

use crate::chars::{chars_of, string_of, trim, trim_end, trim_start, trimmed, white_space};
use crate::strings::{push_char, push_str};

verus! {

/// What an HTML document looks like. One sheet, because Markdown and authored
/// HTML use this page; Typst documents are paged PDFs and use the PDF viewer
/// instead.
pub const DOCUMENT_CSS: &'static str = "body {\n  margin: 0 auto;\n  max-width: 46rem;\n  padding: 2rem 1.25rem 4rem;\n  font-family: Georgia, \"Times New Roman\", serif;\n  font-size: 1.125rem;\n  line-height: 1.6;\n  color: #222;\n  background: #fff;\n}\nh1, h2, h3, h4 {\n  line-height: 1.25;\n  margin: 2rem 0 0.75rem;\n}\nh1 { font-size: 2rem; }\nh2 { font-size: 1.5rem; }\nh3 { font-size: 1.25rem; }\np, ul, ol, blockquote, pre, table { margin: 0 0 1rem; }\na { color: #1a5fb4; }\nimg, svg { max-width: 100%; height: auto; }\nblockquote {\n  border-left: 3px solid #ccc;\n  padding-left: 1rem;\n  color: #555;\n}\ncode, pre {\n  font-family: ui-monospace, Menlo, Consolas, monospace;\n  font-size: 0.9em;\n}\npre {\n  overflow-x: auto;\n  padding: 0.75rem 1rem;\n  background: #f5f5f5;\n}\ntable { border-collapse: collapse; }\nth, td {\n  border: 1px solid #ddd;\n  padding: 0.25rem 0.5rem;\n}\n";

/// What one character becomes in escaped HTML.
pub open spec fn escape_char(c: char) -> Seq<char> {
    if c == '&' {
        "&amp;"@
    } else if c == '<' {
        "&lt;"@
    } else if c == '>' {
        "&gt;"@
    } else if c == '"' {
        "&#34;"@
    } else if c == '\'' {
        "&#39;"@
    } else {
        seq![c]
    }
}

/// A text with each of the five characters that mean something to an HTML
/// parser replaced by its entity.
pub open spec fn html_escape(s: Seq<char>) -> Seq<char>
    decreases s.len(),
{
    if s.len() == 0 {
        seq![]
    } else {
        html_escape(s.drop_last()) + escape_char(s.last())
    }
}

/// Escaped text holds none of the characters that would start or end markup
/// or an attribute value: no `<`, `>`, `"` or `'`.
pub proof fn lemma_escape_inert(s: Seq<char>)
    ensures
        forall|k: int|
            0 <= k < html_escape(s).len() ==> #[trigger] html_escape(s)[k] != '<' && html_escape(s)[k] != '>'
                && html_escape(s)[k] != '"' && html_escape(s)[k] != '\'',
    decreases s.len(),
{
    if s.len() > 0 {
        lemma_escape_inert(s.drop_last());
        let before = html_escape(s.drop_last());
        let c = s.last();
        let e = escape_char(c);
        reveal_strlit("&amp;");
        reveal_strlit("&lt;");
        reveal_strlit("&gt;");
        reveal_strlit("&#34;");
        reveal_strlit("&#39;");
        assert forall|k: int| 0 <= k < html_escape(s).len() implies #[trigger] html_escape(s)[k] != '<'
            && html_escape(s)[k] != '>' && html_escape(s)[k] != '"' && html_escape(s)[k] != '\'' by {
            if k < before.len() {
                assert(html_escape(s)[k] == before[k]);
            } else {
                assert(html_escape(s)[k] == e[k - before.len()]);
            }
        }
    }
}

/// Whether one of the five entities `html_escape` writes starts at `k` in
/// `t`.
pub open spec fn entity_at(t: Seq<char>, k: int) -> bool {
    let r = t.skip(k);
    ||| r.len() >= 5 && r.take(5) == "&amp;"@
    ||| r.len() >= 4 && r.take(4) == "&lt;"@
    ||| r.len() >= 4 && r.take(4) == "&gt;"@
    ||| r.len() >= 5 && r.take(5) == "&#34;"@
    ||| r.len() >= 5 && r.take(5) == "&#39;"@
}

/// Each of the five entities read back as its character, every other
/// character as itself.
pub open spec fn html_unescape(t: Seq<char>) -> Seq<char>
    decreases t.len(),
{
    if t.len() == 0 {
        seq![]
    } else if t.len() >= 5 && t.take(5) == "&amp;"@ {
        seq!['&'] + html_unescape(t.skip(5))
    } else if t.len() >= 4 && t.take(4) == "&lt;"@ {
        seq!['<'] + html_unescape(t.skip(4))
    } else if t.len() >= 4 && t.take(4) == "&gt;"@ {
        seq!['>'] + html_unescape(t.skip(4))
    } else if t.len() >= 5 && t.take(5) == "&#34;"@ {
        seq!['"'] + html_unescape(t.skip(5))
    } else if t.len() >= 5 && t.take(5) == "&#39;"@ {
        seq!['\''] + html_unescape(t.skip(5))
    } else {
        seq![t[0]] + html_unescape(t.skip(1))
    }
}

/// Escaping a text piece by piece escapes it whole.
proof fn lemma_html_escape_add(a: Seq<char>, b: Seq<char>)
    ensures
        html_escape(a + b) == html_escape(a) + html_escape(b),
    decreases b.len(),
{
    if b.len() == 0 {
        assert(a + b =~= a);
        assert(html_escape(a) + html_escape(b) =~= html_escape(a));
    } else {
        lemma_html_escape_add(a, b.drop_last());
        assert((a + b).drop_last() =~= a + b.drop_last());
        assert(html_escape(a + b) =~= html_escape(a) + html_escape(b));
    }
}

/// Reading back one escaped character gives the character.
proof fn lemma_unescape_char(c: char, rest: Seq<char>)
    ensures
        html_unescape(escape_char(c) + rest) == seq![c] + html_unescape(rest),
{
    reveal_strlit("&amp;");
    reveal_strlit("&lt;");
    reveal_strlit("&gt;");
    reveal_strlit("&#34;");
    reveal_strlit("&#39;");
    let t = escape_char(c) + rest;
    if c == '&' {
        assert(t.take(5) =~= "&amp;"@);
        assert(t.skip(5) =~= rest);
    } else if c == '<' {
        assert(t.len() < 5 || t.take(5)[1] != "&amp;"@[1]);
        assert(t.take(4) =~= "&lt;"@);
        assert(t.skip(4) =~= rest);
    } else if c == '>' {
        assert(t.len() < 5 || t.take(5)[1] != "&amp;"@[1]);
        assert(t.take(4)[1] != "&lt;"@[1]);
        assert(t.take(4) =~= "&gt;"@);
        assert(t.skip(4) =~= rest);
    } else if c == '"' {
        assert(t.take(5)[1] != "&amp;"@[1]);
        assert(t.take(4)[1] != "&lt;"@[1]);
        assert(t.take(4)[1] != "&gt;"@[1]);
        assert(t.take(5) =~= "&#34;"@);
        assert(t.skip(5) =~= rest);
    } else if c == '\'' {
        assert(t.take(5)[1] != "&amp;"@[1]);
        assert(t.take(4)[1] != "&lt;"@[1]);
        assert(t.take(4)[1] != "&gt;"@[1]);
        assert(t.take(5)[3] != "&#34;"@[3]);
        assert(t.take(5) =~= "&#39;"@);
        assert(t.skip(5) =~= rest);
    } else {
        assert(t[0] == c);
        assert(t.len() < 5 || t.take(5)[0] != "&amp;"@[0]);
        assert(t.len() < 4 || t.take(4)[0] != "&lt;"@[0]);
        assert(t.len() < 4 || t.take(4)[0] != "&gt;"@[0]);
        assert(t.len() < 5 || t.take(5)[0] != "&#34;"@[0]);
        assert(t.len() < 5 || t.take(5)[0] != "&#39;"@[0]);
        assert(t.skip(1) =~= rest);
    }
}

/// Reading the entities back gives exactly the text that was escaped.
pub proof fn lemma_unescape_escape(s: Seq<char>)
    ensures
        html_unescape(html_escape(s)) == s,
    decreases s.len(),
{
    if s.len() > 0 {
        let first = seq![s[0]];
        let rest = s.skip(1);
        assert(s =~= first + rest);
        lemma_html_escape_add(first, rest);
        assert(first.drop_last() =~= Seq::<char>::empty());
        assert(html_escape(first.drop_last()) =~= Seq::<char>::empty());
        assert(html_escape(first) =~= escape_char(s[0]));
        lemma_unescape_char(s[0], html_escape(rest));
        lemma_unescape_escape(rest);
    }
}

/// A text with none of the five characters is its own escape.
pub proof fn lemma_escape_plain(s: Seq<char>)
    requires
        forall|k: int|
            0 <= k < s.len() ==> #[trigger] s[k] != '&' && s[k] != '<' && s[k] != '>' && s[k] != '"' && s[k]
                != '\'',
    ensures
        html_escape(s) == s,
    decreases s.len(),
{
    if s.len() > 0 {
        lemma_escape_plain(s.drop_last());
        assert(s.last() == s[s.len() - 1]);
        assert(s =~= s.drop_last().push(s.last()));
    }
}

/// Every `&` in an escaped text starts one of the five entities.
pub proof fn lemma_escape_ampersands(s: Seq<char>)
    ensures
        forall|k: int| 0 <= k < html_escape(s).len() && #[trigger] html_escape(s)[k] == '&' ==> entity_at(
            html_escape(s),
            k,
        ),
    decreases s.len(),
{
    reveal_strlit("&amp;");
    reveal_strlit("&lt;");
    reveal_strlit("&gt;");
    reveal_strlit("&#34;");
    reveal_strlit("&#39;");
    if s.len() > 0 {
        lemma_escape_ampersands(s.drop_last());
        let before = html_escape(s.drop_last());
        let e = escape_char(s.last());
        let t = html_escape(s);
        assert(t == before + e);
        assert forall|k: int| 0 <= k < t.len() && #[trigger] t[k] == '&' implies entity_at(t, k) by {
            if k < before.len() {
                assert(before[k] == '&');
                assert(entity_at(before, k));
                let r = before.skip(k);
                let r2 = t.skip(k);
                assert(r2 =~= r + e);
                if r.len() >= 5 && r.take(5) == "&amp;"@ {
                    assert(r2.take(5) =~= r.take(5));
                } else if r.len() >= 4 && r.take(4) == "&lt;"@ {
                    assert(r2.take(4) =~= r.take(4));
                } else if r.len() >= 4 && r.take(4) == "&gt;"@ {
                    assert(r2.take(4) =~= r.take(4));
                } else if r.len() >= 5 && r.take(5) == "&#34;"@ {
                    assert(r2.take(5) =~= r.take(5));
                } else {
                    assert(r2.take(5) =~= r.take(5));
                }
            } else {
                assert(t[k] == e[k - before.len()]);
                assert(k == before.len());
                let r2 = t.skip(k);
                assert(r2 =~= e);
                let c = s.last();
                if c == '&' {
                    assert(r2.take(5) =~= "&amp;"@);
                } else if c == '<' {
                    assert(r2.take(4) =~= "&lt;"@);
                } else if c == '>' {
                    assert(r2.take(4) =~= "&gt;"@);
                } else if c == '"' {
                    assert(r2.take(5) =~= "&#34;"@);
                } else {
                    assert(r2.take(5) =~= "&#39;"@);
                }
            }
        }
    }
}

/// The standalone page around a title, a renderer's extra head and a body.
pub open spec fn page_text(title: Seq<char>, head: Seq<char>, body: Seq<char>) -> Seq<char> {
    "<!doctype html>\n<html lang=\"en\">\n<head>\n<meta charset=\"utf-8\">\n<meta name=\"viewport\" content=\"width=device-width,initial-scale=1\">\n<title>"@
        + html_escape(title) + "</title>\n<style>\n"@ + DOCUMENT_CSS@ + "</style>\n"@ + head
        + "</head>\n<body>\n"@ + body + "</body>\n</html>\n"@
}

/// `w` occurs somewhere in `t`.
pub open spec fn holds_text(t: Seq<char>, w: Seq<char>) -> bool {
    exists|k: int| 0 <= k <= t.len() - w.len() && #[trigger] t.subrange(k, k + w.len()) == w
}

pub proof fn lemma_holds_within(a: Seq<char>, x: Seq<char>, b: Seq<char>, w: Seq<char>)
    requires
        holds_text(x, w),
    ensures
        holds_text(a + x + b, w),
{
    let k = choose|k: int| 0 <= k <= x.len() - w.len() && #[trigger] x.subrange(k, k + w.len()) == w;
    let t = a + x + b;
    assert(t.subrange(a.len() + k, a.len() + k + w.len()) =~= x.subrange(k, k + w.len()));
}

pub proof fn lemma_holds_prefix(x: Seq<char>, w: Seq<char>)
    requires
        w.len() <= x.len(),
        x.take(w.len() as int) == w,
    ensures
        holds_text(x, w),
{
    assert(x.subrange(0, w.len() as int) =~= x.take(w.len() as int));
    let k: int = 0;
    assert(x.subrange(k, k + w.len()) == w);
}

/// The page's title element holds the title escaped, so that no title
/// can close the element or open markup of its own.
pub proof fn lemma_page_title(title: Seq<char>, head: Seq<char>, body: Seq<char>)
    ensures
        holds_text(page_text(title, head, body), "<title>"@ + html_escape(title) + "</title>"@),
{
    reveal_strlit("<title>");
    reveal_strlit("</title>");
    reveal_strlit("</title>\n<style>\n");
    let lead = "<!doctype html>\n<html lang=\"en\">\n<head>\n<meta charset=\"utf-8\">\n<meta name=\"viewport\" content=\"width=device-width,initial-scale=1\">\n"@;
    reveal_strlit("<!doctype html>\n<html lang=\"en\">\n<head>\n<meta charset=\"utf-8\">\n<meta name=\"viewport\" content=\"width=device-width,initial-scale=1\">\n<title>");
    reveal_strlit("<!doctype html>\n<html lang=\"en\">\n<head>\n<meta charset=\"utf-8\">\n<meta name=\"viewport\" content=\"width=device-width,initial-scale=1\">\n");
    let w = "<title>"@ + html_escape(title) + "</title>"@;
    let rest = "\n<style>\n"@ + DOCUMENT_CSS@ + "</style>\n"@ + head + "</head>\n<body>\n"@ + body
        + "</body>\n</html>\n"@;
    reveal_strlit("\n<style>\n");
    assert(page_text(title, head, body) =~= lead + w + rest);
    assert(w.take(w.len() as int) =~= w);
    lemma_holds_prefix(w, w);
    lemma_holds_within(lead, w, rest, w);
}

/// Wraps rendered body HTML in the standalone page a document is stored as.
/// `head` is any renderer-specific stylesheet and goes after the shared sheet.
pub fn page(title: &str, head: &str, body: &str) -> (r: String)
    ensures
        r@ == page_text(title@, head@, body@),
{
    let mut out = String::new();
    push_str(
        &mut out,
        "<!doctype html>\n<html lang=\"en\">\n<head>\n<meta charset=\"utf-8\">\n<meta name=\"viewport\" content=\"width=device-width,initial-scale=1\">\n<title>",
    );
    push_escaped(&mut out, title);
    push_str(&mut out, "</title>\n<style>\n");
    push_str(&mut out, DOCUMENT_CSS);
    push_str(&mut out, "</style>\n");
    push_str(&mut out, head);
    push_str(&mut out, "</head>\n<body>\n");
    push_str(&mut out, body);
    push_str(&mut out, "</body>\n</html>\n");
    out
}

/// Appends `text`, HTML-escaped.
pub fn push_escaped(out: &mut String, text: &str)
    ensures
        final(out)@ == old(out)@ + html_escape(text@),
{
    let cs = chars_of(text);
    let ghost start = out@;
    let mut i: usize = 0;
    while i < cs.len()
        invariant
            i <= cs.len(),
            cs@ == text@,
            out@ == start + html_escape(cs@.take(i as int)),
        decreases cs.len() - i,
    {
        let c = cs[i];
        assert(cs@.take(i + 1).drop_last() =~= cs@.take(i as int));
        if c == '&' {
            push_str(out, "&amp;");
        } else if c == '<' {
            push_str(out, "&lt;");
        } else if c == '>' {
            push_str(out, "&gt;");
        } else if c == '"' {
            push_str(out, "&#34;");
        } else if c == '\'' {
            push_str(out, "&#39;");
        } else {
            push_char(out, c);
        }
        i = i + 1;
    }
    assert(cs@.take(cs.len() as int) =~= cs@);
}

/// HTML-escapes text for an element body or an attribute, the five characters
/// that mean something to a parser.
pub fn escape(text: &str) -> (r: String)
    ensures
        r@ == html_escape(text@),
{
    let mut out = String::new();
    push_escaped(&mut out, text);
    out
}

/// Where the line that starts at `i` ends: the first `\n` at or after `i`, or
/// the end of the text.
pub open spec fn line_end(s: Seq<char>, i: int) -> int
    decreases s.len() - i,
{
    if i < 0 || i >= s.len() {
        s.len() as int
    } else if s[i] == '\n' {
        i
    } else {
        line_end(s, i + 1)
    }
}

pub proof fn lemma_line_end(s: Seq<char>, i: int)
    requires
        0 <= i <= s.len(),
    ensures
        i <= line_end(s, i) <= s.len(),
        line_end(s, i) < s.len() ==> s[line_end(s, i)] == '\n',
        forall|k: int| i <= k < line_end(s, i) ==> #[trigger] s[k] != '\n',
    decreases s.len() - i,
{
    if i < s.len() && s[i] != '\n' {
        lemma_line_end(s, i + 1);
    }
}

/// The title a line gives, if it is a level-one heading: after trimming, the
/// marker, then white space or a tab, then a non-empty title, itself trimmed.
pub open spec fn heading(line: Seq<char>, marker: char) -> Option<Seq<char>> {
    let t = trim(line);
    if t.len() > 0 && t[0] == marker {
        let rest = t.drop_first();
        if rest.len() > 0 && (rest[0] == ' ' || rest[0] == '\t') && trim(rest).len() > 0 {
            Some(trim(rest))
        } else {
            None
        }
    } else {
        None
    }
}

/// Trimming the start takes off some white space and nothing else, and
/// leaves a text that is empty or starts with something else.
proof fn lemma_trim_start_cut(x: Seq<char>) -> (k: int)
    ensures
        0 <= k <= x.len(),
        trim_start(x) == x.skip(k),
        forall|i: int| 0 <= i < k ==> white_space(#[trigger] x[i]),
        k < x.len() ==> !white_space(x[k]),
    decreases x.len(),
{
    if x.len() > 0 && white_space(x[0]) {
        let k1 = lemma_trim_start_cut(x.drop_first());
        assert(x.drop_first().skip(k1) =~= x.skip(k1 + 1));
        assert forall|i: int| 0 <= i < k1 + 1 implies white_space(#[trigger] x[i]) by {
            if i > 0 {
                assert(x[i] == x.drop_first()[i - 1]);
            }
        }
        if k1 + 1 < x.len() {
            assert(x[k1 + 1] == x.drop_first()[k1]);
        }
        k1 + 1
    } else {
        assert(x.skip(0) =~= x);
        0
    }
}

/// Trimming the end of a text that ends in something other than white
/// space leaves it as it is.
proof fn lemma_trim_end_kept(x: Seq<char>)
    requires
        x.len() > 0,
        !white_space(x.last()),
    ensures
        trim_end(x) == x,
{
}

/// Trimmed text neither starts nor ends with white space.
proof fn lemma_trim_ends(x: Seq<char>)
    ensures
        trim(x).len() > 0 ==> !white_space(trim(x)[0]) && !white_space(trim(x).last()),
{
    let k = lemma_trim_start_cut(x);
    let y = trim_start(x);
    lemma_trim_end_cut(y);
}

proof fn lemma_trim_end_cut(y: Seq<char>)
    requires
        y.len() > 0 ==> !white_space(y[0]),
    ensures
        trim_end(y).len() > 0 ==> !white_space(trim_end(y)[0]) && !white_space(trim_end(y).last()),
        trim_end(y).len() <= y.len(),
        trim_end(y) == y.take(trim_end(y).len() as int),
    decreases y.len(),
{
    if y.len() > 0 && white_space(y.last()) {
        lemma_trim_end_cut(y.drop_last());
        assert(y.drop_last().take(trim_end(y).len() as int) =~= y.take(trim_end(y).len() as int));
        if trim_end(y).len() > 0 {
            assert(trim_end(y)[0] == y.drop_last()[0]);
        }
    } else {
        assert(y.take(y.len() as int) =~= y);
    }
}

/// What makes a line a heading: trimmed, it is the marker, then white
/// space, then the title, which neither starts nor ends with white space.
pub proof fn lemma_heading_shape(line: Seq<char>, marker: char)
    ensures
        heading(line, marker) matches Some(title) ==> {
            &&& title.len() > 0
            &&& !white_space(title[0])
            &&& !white_space(title.last())
            &&& exists|w: Seq<char>|
                {
                    &&& w.len() > 0
                    &&& forall|i: int| 0 <= i < w.len() ==> white_space(#[trigger] w[i])
                    &&& #[trigger] trim(line) == seq![marker] + w + title
                }
        },
{
    if let Some(title) = heading(line, marker) {
        let t = trim(line);
        let rest = t.drop_first();
        lemma_trim_ends(line);
        lemma_trim_ends(rest);
        assert(rest.last() == t.last());
        let k = lemma_trim_start_cut(rest);
        let y = trim_start(rest);
        assert(y.len() > 0);
        assert(y.last() == rest.last());
        lemma_trim_end_kept(y);
        assert(title == rest.skip(k));
        let w = rest.take(k);
        assert(white_space(rest[0]));
        assert(k > 0);
        assert forall|i: int| 0 <= i < w.len() implies white_space(#[trigger] w[i]) by {
            assert(w[i] == rest[i]);
        }
        assert(t =~= seq![marker] + w + title);
    }
}

/// The first heading among the lines that start at or after `i`.
pub open spec fn heading_from(s: Seq<char>, marker: char, i: int) -> Seq<char>
    decreases s.len() + 1 - i,
{
    if i < 0 || i > s.len() {
        seq![]
    } else {
        let e = line_end(s, i);
        proof {
            lemma_line_end(s, i);
        }
        match heading(s.subrange(i, e), marker) {
            Some(t) => t,
            None => heading_from(s, marker, e + 1),
        }
    }
}

/// The first level-one heading of a source, or nothing.
pub open spec fn first_heading_of(s: Seq<char>, marker: char) -> Seq<char> {
    heading_from(s, marker, 0)
}

/// Whether a line of `s` starts at `i`: at the start, or just after a line
/// feed.
pub open spec fn line_start_at(s: Seq<char>, i: int) -> bool {
    0 <= i <= s.len() && (i == 0 || s[i - 1] == '\n')
}

/// A title found from the line starting at `i` on is the heading of one of
/// the lines from there on.
proof fn lemma_heading_from_line(s: Seq<char>, marker: char, i: int)
    requires
        line_start_at(s, i),
    ensures
        heading_from(s, marker, i).len() > 0 ==> exists|j: int|
            i <= j && line_start_at(s, j) && #[trigger] heading(s.subrange(j, line_end(s, j)), marker)
                == Some(heading_from(s, marker, i)),
    decreases s.len() + 1 - i,
{
    lemma_line_end(s, i);
    let e = line_end(s, i);
    match heading(s.subrange(i, e), marker) {
        Some(t) => {
            assert(heading(s.subrange(i, line_end(s, i)), marker) == Some(heading_from(s, marker, i)));
        },
        None => {
            if e < s.len() {
                assert(s[e] == '\n');
                assert(line_start_at(s, e + 1));
                lemma_heading_from_line(s, marker, e + 1);
            }
        },
    }
}

/// The title of a source is a level-one heading of one of its lines: that
/// line, trimmed, is the marker, then white space, then the title, which
/// neither starts nor ends with white space.
pub proof fn lemma_first_heading_line(s: Seq<char>, marker: char)
    ensures
        first_heading_of(s, marker).len() > 0 ==> exists|j: int|
            line_start_at(s, j) && #[trigger] heading(s.subrange(j, line_end(s, j)), marker)
                == Some(first_heading_of(s, marker)),
        first_heading_of(s, marker).len() > 0 ==> !white_space(first_heading_of(s, marker)[0])
            && !white_space(first_heading_of(s, marker).last()),
{
    lemma_heading_from_line(s, marker, 0);
    if first_heading_of(s, marker).len() > 0 {
        let j = choose|j: int|
            0 <= j && line_start_at(s, j) && #[trigger] heading(s.subrange(j, line_end(s, j)), marker)
                == Some(heading_from(s, marker, 0));
        lemma_heading_shape(s.subrange(j, line_end(s, j)), marker);
    }
}

/// The first heading of a source, which is the obvious title when none was
/// given. `marker` is what a level-one heading starts with -- `#` in markdown,
/// `=` in typst -- followed by whitespace.
pub fn first_heading(source: &str, marker: char) -> (r: String)
    ensures
        r@ == first_heading_of(source@, marker),
{
    let cs = chars_of(source);
    let n = cs.len();
    let mut start: usize = 0;
    loop
        invariant
            start <= n == cs.len(),
            cs@ == source@,
            heading_from(cs@, marker, 0) == heading_from(cs@, marker, start as int),
        decreases n - start,
    {
        let mut end = start;
        while end < n && cs[end] != '\n'
            invariant
                start <= end <= n == cs.len(),
                line_end(cs@, start as int) == line_end(cs@, end as int),
            decreases n - end,
        {
            end = end + 1;
        }
        let ghost line = cs@.subrange(start as int, end as int);
        let (lo, hi) = trimmed(&cs, start, end);
        assert(cs@.subrange(lo as int, hi as int) == trim(line));
        if hi - lo >= 2 && cs[lo] == marker && (cs[lo + 1] == ' ' || cs[lo + 1] == '\t') {
            let (tlo, thi) = trimmed(&cs, lo + 1, hi);
            assert(cs@.subrange(lo as int, hi as int).drop_first() =~= cs@.subrange(lo + 1, hi as int));
            if tlo < thi {
                return string_of(&cs, tlo, thi);
            }
        }
        assert(line_end(cs@, end as int) == end);
        assert(heading(line, marker) is None);
        assert(heading_from(cs@, marker, start as int) == heading_from(cs@, marker, end + 1));
        if end == n {
            return String::new();
        }
        start = end + 1;
    }
}

} // verus!
