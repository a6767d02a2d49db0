//! What a compile has to say, beyond the page.
//!
//! A document written in a programming language stops compiling several times
//! an hour, and the message alone sends an author scrolling through two hundred
//! lines looking for the place. So a compile returns the page if there is one
//! and a list of diagnostics either way, each with its severity, its message,
//! its hints and where it is; the browser and the command line get the same
//! list, because they get it from here.
//!
//! Markdown and HTML never fail, so their lists are empty and every surface
//! built on this one is inert for them.

use vstd::prelude::*;

use crate::chars::chars_of;
use crate::page::{
    holds_text, html_escape, lemma_holds_prefix, lemma_holds_within, page, page_text, push_escaped,
    DOCUMENT_CSS,
};
use crate::strings::{decimal, digit, push_char, push_decimal, push_str};

verus! {

/// Whether a diagnostic keeps a page off the screen.
#[derive(Clone, Copy, Debug, PartialEq, Eq, Structural)]
pub enum Severity {
    Error,
    Warning,
}

impl Default for Severity {
    fn default() -> (r: Severity)
        ensures
            r == Severity::Error,
    {
        Severity::Error
    }
}

/// The name a severity is written with: typst's two.
pub open spec fn severity_name(s: Severity) -> Seq<char> {
    match s {
        Severity::Error => "error"@,
        Severity::Warning => "warning"@,
    }
}

impl Severity {
    pub fn as_str(self) -> (r: &'static str)
        ensures
            r@ == severity_name(self),
    {
        match self {
            Severity::Error => "error",
            Severity::Warning => "warning",
        }
    }
}

/// One thing the compiler has to say about a source.
///
/// `line` and `column` are one-based and the span ends at `end_line` and
/// `end_column`, exclusive. A diagnostic the compiler reports without a span
/// -- "no math font found" among them -- has `line` 0 and no end. Columns
/// count UTF-16 code units, because that is what an editor counts in.
#[derive(Clone, Debug, PartialEq, Eq)]
pub struct Diagnostic {
    /// `error` or `warning`, typst's two.
    pub severity: Severity,
    /// The compiler's message, unchanged.
    pub message: String,
    /// The compiler's hints, followed by its trace -- "error occurred in this
    /// call of function `f`" -- one entry per line.
    pub hints: Vec<String>,
    /// Empty for the document itself, and the path the compiler asked for when
    /// the span is in an imported file.
    pub file: String,
    pub line: usize,
    pub column: usize,
    pub end_line: usize,
    pub end_column: usize,
}

/// The hints of a diagnostic, as texts.
pub open spec fn hint_texts(d: Diagnostic) -> Seq<Seq<char>> {
    d.hints@.map_values(|h: String| h@)
}

impl Default for Diagnostic {
    fn default() -> (r: Diagnostic)
        ensures
            r.severity == Severity::Error,
            r.message@ == Seq::<char>::empty(),
            r.hints@.len() == 0,
            r.file@ == Seq::<char>::empty(),
            r.line == 0,
            r.column == 0,
            r.end_line == 0,
            r.end_column == 0,
    {
        Diagnostic {
            severity: Severity::Error,
            message: String::new(),
            hints: Vec::new(),
            file: String::new(),
            line: 0,
            column: 0,
            end_line: 0,
            end_column: 0,
        }
    }
}

/// The one-line form of a diagnostic: `file:line:column: severity: message`,
/// with the location left off when there is none, and the document's own name
/// standing for an empty `file`.
pub open spec fn line_form(d: Diagnostic, document: Seq<char>) -> Seq<char> {
    let name = if d.file@.len() == 0 { document } else { d.file@ };
    if d.line == 0 {
        severity_name(d.severity) + ": "@ + d.message@
    } else {
        name + ":"@ + decimal(d.line as nat) + ":"@ + decimal(d.column as nat) + ": "@
            + severity_name(d.severity) + ": "@ + d.message@
    }
}

/// The lowercase hexadecimal digit `n`.
pub open spec fn hex_digit(n: nat) -> char {
    if n < 10 {
        (n + 48) as char
    } else {
        (n + 87) as char
    }
}

/// What one character becomes inside a JSON string.
pub open spec fn json_char(c: char) -> Seq<char> {
    if c == '"' {
        "\\\""@
    } else if c == '\\' {
        "\\\\"@
    } else if c == '\n' {
        "\\n"@
    } else if c == '\r' {
        "\\r"@
    } else if c == '\t' {
        "\\t"@
    } else if (c as u32) < 0x20 {
        "\\u00"@ + seq![hex_digit((c as u32 / 16) as nat), hex_digit((c as u32 % 16) as nat)]
    } else {
        seq![c]
    }
}

/// A text's characters, each as JSON writes it inside a string.
pub open spec fn json_escape(s: Seq<char>) -> Seq<char>
    decreases s.len(),
{
    if s.len() == 0 {
        seq![]
    } else {
        json_escape(s.drop_last()) + json_char(s.last())
    }
}

/// The value of a hexadecimal digit.
pub open spec fn hex_value(c: char) -> int {
    let u = c as u32;
    if 48 <= u <= 57 {
        u - 48
    } else if 97 <= u <= 102 {
        u - 87
    } else if 65 <= u <= 70 {
        u - 55
    } else {
        0
    }
}

/// The character a two-character escape `\e` stands for in JSON.
pub open spec fn unescaped(e: char) -> char {
    if e == 'n' {
        '\n'
    } else if e == 'r' {
        '\r'
    } else if e == 't' {
        '\t'
    } else if e == 'b' {
        '\x08'
    } else if e == 'f' {
        '\x0C'
    } else {
        e
    }
}

/// What a JSON reader makes of the inside of a string literal: each escape
/// as the character it stands for, every other character as itself.
pub open spec fn json_read(t: Seq<char>) -> Seq<char>
    decreases t.len(),
{
    if t.len() == 0 {
        seq![]
    } else if t[0] == '\\' && t.len() >= 6 && t[1] == 'u' {
        seq![(hex_value(t[2]) * 4096 + hex_value(t[3]) * 256 + hex_value(t[4]) * 16 + hex_value(t[5])) as char]
            + json_read(t.skip(6))
    } else if t[0] == '\\' && t.len() >= 2 {
        seq![unescaped(t[1])] + json_read(t.skip(2))
    } else {
        seq![t[0]] + json_read(t.skip(1))
    }
}

/// Escaping a text piece by piece escapes it whole.
proof fn lemma_json_escape_add(a: Seq<char>, b: Seq<char>)
    ensures
        json_escape(a + b) == json_escape(a) + json_escape(b),
    decreases b.len(),
{
    if b.len() == 0 {
        assert(a + b =~= a);
        assert(json_escape(a) + json_escape(b) =~= json_escape(a));
    } else {
        lemma_json_escape_add(a, b.drop_last());
        assert((a + b).drop_last() =~= a + b.drop_last());
        assert(json_escape(a + b) =~= json_escape(a) + json_escape(b));
    }
}

/// A reader takes one escaped character back to the character.
proof fn lemma_json_read_char(c: char, rest: Seq<char>)
    ensures
        json_read(json_char(c) + rest) == seq![c] + json_read(rest),
{
    let t = json_char(c) + rest;
    reveal_strlit("\\\"");
    reveal_strlit("\\\\");
    reveal_strlit("\\n");
    reveal_strlit("\\r");
    reveal_strlit("\\t");
    reveal_strlit("\\u00");
    if c == '"' || c == '\\' || c == '\n' || c == '\r' || c == '\t' {
        assert(t.skip(2) =~= rest);
    } else if (c as u32) < 0x20 {
        let u = c as u32;
        let hi = hex_digit((u / 16) as nat);
        let lo = hex_digit((u % 16) as nat);
        assert(u / 16 < 2);
        assert(hi as u32 == u / 16 + 48);
        if u % 16 < 10 {
            assert(lo as u32 == u % 16 + 48);
        } else {
            assert(lo as u32 == u % 16 + 87);
        }
        assert(t[2] == '0' && t[3] == '0' && t[4] == hi && t[5] == lo);
        assert(hex_value(t[4]) * 16 + hex_value(t[5]) == u);
        assert(t.skip(6) =~= rest);
        assert((u as int) as char == c);
    } else {
        assert(t.skip(1) =~= rest);
    }
}

/// A JSON reader gets back exactly the text that was escaped.
pub proof fn lemma_json_read_escape(s: Seq<char>)
    ensures
        json_read(json_escape(s)) == s,
    decreases s.len(),
{
    if s.len() > 0 {
        let first = seq![s[0]];
        let rest = s.skip(1);
        assert(s =~= first + rest);
        lemma_json_escape_add(first, rest);
        assert(first.drop_last() =~= Seq::<char>::empty());
        assert(first.last() == s[0]);
        assert(json_escape(first.drop_last()) =~= Seq::<char>::empty());
        assert(json_escape(first) == json_escape(first.drop_last()) + json_char(first.last()));
        assert(json_escape(first) =~= json_char(s[0]));
        lemma_json_read_char(s[0], json_escape(rest));
        lemma_json_read_escape(rest);
    }
}

/// A text as a JSON string literal.
pub open spec fn json_quote(s: Seq<char>) -> Seq<char> {
    seq!['"'] + json_escape(s) + seq!['"']
}

/// What JSON writes for a character inside a string is no control
/// character.
proof fn lemma_json_char_printable(c: char)
    ensures
        forall|k: int| 0 <= k < json_char(c).len() ==> (#[trigger] json_char(c)[k]) as u32 >= 0x20,
{
    reveal_strlit("\\\"");
    reveal_strlit("\\\\");
    reveal_strlit("\\n");
    reveal_strlit("\\r");
    reveal_strlit("\\t");
    reveal_strlit("\\u00");
    if !(c == '"' || c == '\\' || c == '\n' || c == '\r' || c == '\t') && (c as u32) < 0x20 {
        let u = c as u32;
        assert(hex_digit((u / 16) as nat) as u32 >= 48);
        assert(hex_digit((u % 16) as nat) as u32 >= 48);
    }
}

/// A JSON string literal starts and ends with a quote, and holds no control
/// character: the text it is written for is read back from between them.
pub proof fn lemma_quote_printable(s: Seq<char>)
    ensures
        json_quote(s).len() >= 2,
        json_quote(s)[0] == '"',
        json_quote(s).last() == '"',
        json_quote(s).subrange(1, json_quote(s).len() - 1) == json_escape(s),
        forall|k: int| 0 <= k < json_quote(s).len() ==> (#[trigger] json_quote(s)[k]) as u32 >= 0x20,
{
    lemma_escape_printable(s);
    let q = json_quote(s);
    assert(q.subrange(1, q.len() - 1) =~= json_escape(s));
    assert forall|k: int| 0 <= k < q.len() implies (#[trigger] q[k]) as u32 >= 0x20 by {
        if 1 <= k < q.len() - 1 {
            assert(q[k] == json_escape(s)[k - 1]);
        }
    }
}

proof fn lemma_escape_printable(s: Seq<char>)
    ensures
        forall|k: int| 0 <= k < json_escape(s).len() ==> (#[trigger] json_escape(s)[k]) as u32 >= 0x20,
    decreases s.len(),
{
    if s.len() > 0 {
        lemma_escape_printable(s.drop_last());
        lemma_json_char_printable(s.last());
        let before = json_escape(s.drop_last());
        let e = json_char(s.last());
        assert forall|k: int| 0 <= k < json_escape(s).len() implies (#[trigger] json_escape(s)[k]) as u32
            >= 0x20 by {
            if k < before.len() {
                assert(json_escape(s)[k] == before[k]);
            } else {
                assert(json_escape(s)[k] == e[k - before.len()]);
            }
        }
    }
}

/// Where a JSON reader, inside a string literal, finds the quote that closes
/// it: it steps over a backslash and the character after it as one, and
/// over any other character alone.
pub open spec fn string_end(t: Seq<char>) -> int
    decreases t.len(),
{
    if t.len() == 0 {
        0
    } else if t[0] == '"' {
        0
    } else if t[0] == '\\' && t.len() >= 2 {
        2 + string_end(t.skip(2))
    } else {
        1 + string_end(t.skip(1))
    }
}

/// Past one escaped character, the reader is where the character's escape
/// ends.
proof fn lemma_string_end_char(c: char, rest: Seq<char>)
    ensures
        string_end(json_char(c) + rest) == json_char(c).len() + string_end(rest),
{
    reveal_strlit("\\\"");
    reveal_strlit("\\\\");
    reveal_strlit("\\n");
    reveal_strlit("\\r");
    reveal_strlit("\\t");
    reveal_strlit("\\u00");
    let t = json_char(c) + rest;
    if c == '"' || c == '\\' || c == '\n' || c == '\r' || c == '\t' {
        assert(t[0] == '\\' && t.len() >= 2);
        assert(t.skip(2) =~= rest);
    } else if (c as u32) < 0x20 {
        let u = c as u32;
        let hi = hex_digit((u / 16) as nat);
        let lo = hex_digit((u % 16) as nat);
        assert(hi as u32 >= 48 && hi as u32 <= 57);
        assert(lo as u32 >= 48 && lo as u32 <= 102);
        let t2 = t.skip(2);
        let t3 = t2.skip(1);
        let t4 = t3.skip(1);
        let t5 = t4.skip(1);
        assert(t[0] == '\\' && t.len() >= 2);
        assert(t2[0] == '0' && t3[0] == '0' && t4[0] == hi && t5[0] == lo);
        assert(t5.skip(1) =~= rest);
        assert(string_end(t5) == 1 + string_end(rest));
        assert(string_end(t4) == 1 + string_end(t5));
        assert(string_end(t3) == 1 + string_end(t4));
        assert(string_end(t2) == 1 + string_end(t3));
        assert(string_end(t) == 2 + string_end(t2));
    } else {
        assert(t[0] == c);
        assert(t.skip(1) =~= rest);
    }
}

/// In an escaped text followed by a quote, the reader finds that quote, so
/// that a JSON string literal ends where `json_quote` ends it.
pub proof fn lemma_string_end(s: Seq<char>, rest: Seq<char>)
    ensures
        string_end(json_escape(s) + seq!['"'] + rest) == json_escape(s).len(),
    decreases s.len(),
{
    if s.len() == 0 {
        assert(json_escape(s) + seq!['"'] + rest =~= seq!['"'] + rest);
    } else {
        let first = seq![s[0]];
        let tail = s.skip(1);
        assert(s =~= first + tail);
        lemma_json_escape_add(first, tail);
        assert(first.drop_last() =~= Seq::<char>::empty());
        assert(json_escape(first.drop_last()) =~= Seq::<char>::empty());
        assert(json_escape(first) =~= json_char(s[0]));
        let after = json_escape(tail) + seq!['"'] + rest;
        assert(json_escape(s) + seq!['"'] + rest =~= json_char(s[0]) + after);
        lemma_string_end_char(s[0], after);
        lemma_string_end(tail, rest);
    }
}

/// A JSON reader meeting a quoted text, whatever follows it, finds its
/// closing quote where `json_quote` put it and reads the text back from
/// between the quotes.
pub proof fn lemma_quote_reads(s: Seq<char>, rest: Seq<char>)
    ensures
        (json_quote(s) + rest)[0] == '"',
        1 + string_end((json_quote(s) + rest).skip(1)) == json_quote(s).len() - 1,
        json_read(json_quote(s).subrange(1, json_quote(s).len() - 1)) == s,
{
    let q = json_quote(s);
    assert((q + rest).skip(1) =~= json_escape(s) + seq!['"'] + rest);
    lemma_string_end(s, rest);
    lemma_quote_printable(s);
    lemma_json_read_escape(s);
}

/// Texts as JSON string literals, separated by commas.
pub open spec fn json_quote_list(hs: Seq<Seq<char>>) -> Seq<char>
    decreases hs.len(),
{
    if hs.len() == 0 {
        seq![]
    } else if hs.len() == 1 {
        json_quote(hs[0])
    } else {
        json_quote_list(hs.drop_last()) + ","@ + json_quote(hs.last())
    }
}

/// One entry of the diagnostics list as JSON.
pub open spec fn json_form(d: Diagnostic) -> Seq<char> {
    "{\"severity\":"@ + json_quote(severity_name(d.severity)) + ",\"message\":"@ + json_quote(
        d.message@,
    ) + ",\"hints\":["@ + json_quote_list(hint_texts(d)) + "],\"file\":"@ + json_quote(d.file@)
        + ",\"line\":"@ + decimal(d.line as nat) + ",\"column\":"@ + decimal(d.column as nat)
        + ",\"end_line\":"@ + decimal(d.end_line as nat) + ",\"end_column\":"@ + decimal(
        d.end_column as nat,
    ) + "}"@
}

/// A JSON reader's view of a string literal at the start of `t`: the text
/// it stands for, and what follows its closing quote.
pub open spec fn read_string(t: Seq<char>) -> (Seq<char>, Seq<char>) {
    let e = string_end(t.skip(1));
    (json_read(t.subrange(1, 1 + e)), t.skip(2 + e))
}

/// A JSON reader's view of the string literals of an array, read from just
/// after its `[` up to its `]`: the texts, and what follows the `]`.
pub open spec fn read_list(t: Seq<char>) -> (Seq<Seq<char>>, Seq<char>)
    decreases t.len(),
{
    if t.len() == 0 {
        (seq![], t)
    } else if t[0] == ']' {
        (seq![], t.skip(1))
    } else {
        let u = if t[0] == ',' { t.skip(1) } else { t };
        let e = string_end(u.skip(1));
        if 0 <= e && 2 + e <= u.len() {
            let r = read_list(u.skip(2 + e));
            (seq![json_read(u.subrange(1, 1 + e))] + r.0, r.1)
        } else {
            (seq![], t)
        }
    }
}

/// A JSON reader's view of an object member whose value is a string, from
/// the `{` or `,` before it: the key, the text, and what follows.
pub open spec fn read_text_member(t: Seq<char>) -> (Seq<char>, Seq<char>, Seq<char>) {
    let k = read_string(t.skip(1));
    let v = read_string(k.1.skip(1));
    (k.0, v.0, v.1)
}

/// A JSON reader's view of an object member whose value is an array of
/// strings, from the `,` before it: the key, the texts, and what follows.
pub open spec fn read_list_member(t: Seq<char>) -> (Seq<char>, Seq<Seq<char>>, Seq<char>) {
    let k = read_string(t.skip(1));
    let v = read_list(k.1.skip(2));
    (k.0, v.0, v.1)
}

/// `string_end` never goes back.
proof fn lemma_string_end_nonneg(t: Seq<char>)
    ensures
        string_end(t) >= 0,
    decreases t.len(),
{
    if t.len() > 0 && t[0] != '"' {
        if t[0] == '\\' && t.len() >= 2 {
            lemma_string_end_nonneg(t.skip(2));
        } else {
            lemma_string_end_nonneg(t.skip(1));
        }
    }
}

/// A reader takes a quoted text, whatever follows it, back to the text.
pub proof fn lemma_read_string(s: Seq<char>, rest: Seq<char>)
    ensures
        read_string(json_quote(s) + rest) == (s, rest),
{
    lemma_quote_reads(s, rest);
    let q = json_quote(s);
    let t = q + rest;
    let e = string_end(t.skip(1));
    assert(t.subrange(1, 1 + e) =~= q.subrange(1, q.len() - 1));
    assert(t.skip(2 + e) =~= rest);
}

/// A text with no quote, backslash or control character is its own
/// escape.
proof fn lemma_json_escape_plain(s: Seq<char>)
    requires
        forall|i: int| 0 <= i < s.len() ==> (#[trigger] s[i]) != '"' && s[i] != '\\' && (s[i] as u32) >= 0x20,
    ensures
        json_escape(s) == s,
    decreases s.len(),
{
    if s.len() > 0 {
        lemma_json_escape_plain(s.drop_last());
        assert(s[s.len() - 1] == s.last());
        assert(s =~= s.drop_last().push(s.last()));
    }
}

/// A list of quoted texts starts with the first of them.
proof fn lemma_quote_list_front(hs: Seq<Seq<char>>)
    requires
        hs.len() >= 2,
    ensures
        json_quote_list(hs) == json_quote(hs[0]) + ","@ + json_quote_list(hs.skip(1)),
    decreases hs.len(),
{
    let dl = hs.drop_last();
    let sk = hs.skip(1);
    assert(json_quote_list(hs) == json_quote_list(dl) + ","@ + json_quote(hs.last()));
    if hs.len() == 2 {
        assert(dl.len() == 1 && dl[0] == hs[0]);
        assert(json_quote_list(dl) == json_quote(hs[0]));
        assert(sk.len() == 1 && sk[0] == hs[1]);
        assert(json_quote_list(sk) == json_quote(hs[1]));
    } else {
        lemma_quote_list_front(dl);
        assert(dl[0] == hs[0]);
        assert(dl.skip(1) =~= sk.drop_last());
        assert(sk.last() == hs.last());
        assert(json_quote_list(sk) == json_quote_list(sk.drop_last()) + ","@ + json_quote(sk.last()));
        assert(json_quote_list(hs) =~= json_quote(hs[0]) + ","@ + json_quote_list(sk));
    }
}

/// A reader takes an array of quoted texts, from after its `[`, back to the
/// texts, with or without a comma before the first.
proof fn lemma_read_list(hs: Seq<Seq<char>>, rest: Seq<char>, lead: bool)
    requires
        lead ==> hs.len() > 0,
    ensures
        read_list((if lead { ","@ } else { seq![] }) + json_quote_list(hs) + "]"@ + rest) == (hs, rest),
    decreases hs.len(),
{
    reveal_strlit(",");
    reveal_strlit("]");
    let t = (if lead { ","@ } else { seq![] }) + json_quote_list(hs) + "]"@ + rest;
    if hs.len() == 0 {
        assert(t =~= "]"@ + rest);
        assert(t.skip(1) =~= rest);
    } else {
        let after: Seq<char> = if hs.len() == 1 {
            "]"@ + rest
        } else {
            ","@ + json_quote_list(hs.skip(1)) + "]"@ + rest
        };
        if hs.len() >= 2 {
            lemma_quote_list_front(hs);
        }
        let u = json_quote(hs[0]) + after;
        assert(t =~= (if lead { ","@ } else { seq![] }) + u);
        if lead {
            assert(t[0] == ',');
            assert(t.skip(1) =~= u);
        } else {
            assert(t =~= u);
            assert(u[0] == '"');
        }
        lemma_read_string(hs[0], after);
        lemma_quote_reads(hs[0], after);
        lemma_string_end_nonneg(u.skip(1));
        let e = string_end(u.skip(1));
        assert(u.skip(2 + e) == after);
        if hs.len() == 1 {
            lemma_read_list(seq![], rest, false);
            assert(after =~= seq![] + json_quote_list(seq![]) + "]"@ + rest);
            assert(seq![hs[0]] + Seq::<Seq<char>>::empty() =~= hs);
        } else {
            lemma_read_list(hs.skip(1), rest, true);
            assert(seq![hs[0]] + hs.skip(1) =~= hs);
        }
    }
}

/// A JSON reader going forward from the opening brace of a diagnostic's JSON
/// finds its text members in order, each key with its own field:
/// `severity`, `message`, `hints` and `file`.
#[verifier::spinoff_prover]
#[verifier::rlimit(60)]
pub proof fn lemma_json_texts(d: Diagnostic)
    ensures
        read_text_member(json_form(d)).0 == "severity"@,
        read_text_member(json_form(d)).1 == severity_name(d.severity),
        read_text_member(read_text_member(json_form(d)).2).0 == "message"@,
        read_text_member(read_text_member(json_form(d)).2).1 == d.message@,
        read_list_member(read_text_member(read_text_member(json_form(d)).2).2).0 == "hints"@,
        read_list_member(read_text_member(read_text_member(json_form(d)).2).2).1 == hint_texts(d),
        read_text_member(read_list_member(read_text_member(read_text_member(json_form(d)).2).2).2).0
            == "file"@,
        read_text_member(read_list_member(read_text_member(read_text_member(json_form(d)).2).2).2).1
            == d.file@,
{
    reveal_strlit("{\"severity\":");
    reveal_strlit(",\"message\":");
    reveal_strlit(",\"hints\":[");
    reveal_strlit("],\"file\":");
    reveal_strlit("severity");
    reveal_strlit("message");
    reveal_strlit("hints");
    reveal_strlit("file");
    reveal_strlit(",");
    reveal_strlit("]");
    reveal_strlit(":");
    reveal_strlit(":[");
    lemma_json_escape_plain("severity"@);
    lemma_json_escape_plain("message"@);
    lemma_json_escape_plain("hints"@);
    lemma_json_escape_plain("file"@);
    let tail = ",\"line\":"@ + decimal(d.line as nat) + ",\"column\":"@ + decimal(d.column as nat)
        + ",\"end_line\":"@ + decimal(d.end_line as nat) + ",\"end_column\":"@ + decimal(
        d.end_column as nat,
    ) + "}"@;
    let r4 = ","@ + json_quote("file"@) + ":"@ + json_quote(d.file@) + tail;
    let r3 = ","@ + json_quote("hints"@) + ":["@ + json_quote_list(hint_texts(d)) + "]"@ + r4;
    let r2 = ","@ + json_quote("message"@) + ":"@ + json_quote(d.message@) + r3;
    let t = "{"@ + json_quote("severity"@) + ":"@ + json_quote(severity_name(d.severity)) + r2;
    reveal_strlit("{");
    assert("{\"severity\":"@ =~= "{"@ + json_quote("severity"@) + ":"@);
    assert(",\"message\":"@ =~= ","@ + json_quote("message"@) + ":"@);
    assert(",\"hints\":["@ =~= ","@ + json_quote("hints"@) + ":["@);
    assert("],\"file\":"@ =~= "]"@ + ","@ + json_quote("file"@) + ":"@);
    assert(json_form(d) =~= t);
    // severity
    assert(t.skip(1) =~= json_quote("severity"@) + (":"@ + json_quote(severity_name(d.severity)) + r2));
    lemma_read_string("severity"@, ":"@ + json_quote(severity_name(d.severity)) + r2);
    assert((":"@ + json_quote(severity_name(d.severity)) + r2).skip(1) =~= json_quote(severity_name(d.severity)) + r2);
    lemma_read_string(severity_name(d.severity), r2);
    // message
    assert(r2.skip(1) =~= json_quote("message"@) + (":"@ + json_quote(d.message@) + r3));
    lemma_read_string("message"@, ":"@ + json_quote(d.message@) + r3);
    assert((":"@ + json_quote(d.message@) + r3).skip(1) =~= json_quote(d.message@) + r3);
    lemma_read_string(d.message@, r3);
    // hints
    let after_key = ":["@ + json_quote_list(hint_texts(d)) + "]"@ + r4;
    assert(r3.skip(1) =~= json_quote("hints"@) + after_key);
    lemma_read_string("hints"@, after_key);
    assert(after_key.skip(2) =~= seq![] + json_quote_list(hint_texts(d)) + "]"@ + r4);
    lemma_read_list(hint_texts(d), r4, false);
    // file
    assert(r4.skip(1) =~= json_quote("file"@) + (":"@ + json_quote(d.file@) + tail));
    lemma_read_string("file"@, ":"@ + json_quote(d.file@) + tail);
    assert((":"@ + json_quote(d.file@) + tail).skip(1) =~= json_quote(d.file@) + tail);
    lemma_read_string(d.file@, tail);
}

/// A decimal digit.
pub open spec fn is_digit(c: char) -> bool {
    48 <= (c as u32) <= 57
}

/// How many digits a text ends with.
pub open spec fn digits_at_end(t: Seq<char>) -> nat
    decreases t.len(),
{
    if t.len() > 0 && is_digit(t.last()) {
        digits_at_end(t.drop_last()) + 1
    } else {
        0
    }
}

/// The number a run of decimal digits stands for.
pub open spec fn digits_value(s: Seq<char>) -> nat
    decreases s.len(),
{
    if s.len() == 0 {
        0
    } else {
        digits_value(s.drop_last()) * 10 + ((s.last() as u32 - 48) as nat)
    }
}

/// How many characters other than `"` a text ends with.
pub open spec fn unquoted_at_end(t: Seq<char>) -> nat
    decreases t.len(),
{
    if t.len() > 0 && t.last() != '"' {
        unquoted_at_end(t.drop_last()) + 1
    } else {
        0
    }
}

/// A JSON reader's view of the last member of an object's body, read from
/// its end, when that member's value is a number: the key between the last
/// two quotes before the colon, the number the trailing digits stand for,
/// and what comes before the comma that opens the member.
pub open spec fn last_number_member(t: Seq<char>) -> (Seq<char>, nat, Seq<char>) {
    let n = digits_at_end(t);
    let value = digits_value(t.skip(t.len() - n));
    let u = t.take(t.len() - n);
    let inner = u.take(u.len() - 2);
    let q = unquoted_at_end(inner);
    (inner.skip(inner.len() - q), value, inner.take(inner.len() - q - 2))
}

/// A number written in decimal is digits, and reads back as the number.
pub proof fn lemma_decimal_reads(n: nat)
    ensures
        decimal(n).len() >= 1,
        forall|i: int| 0 <= i < decimal(n).len() ==> is_digit(#[trigger] decimal(n)[i]),
        digits_value(decimal(n)) == n,
    decreases n,
{
    if n < 10 {
        let d = decimal(n);
        assert(d.drop_last() =~= Seq::<char>::empty());
        assert(digit(n) as u32 == n + 48);
        assert(digits_value(d.drop_last()) == 0);
        assert(digits_value(d) == digits_value(d.drop_last()) * 10 + ((d.last() as u32 - 48) as nat));
    } else {
        lemma_decimal_reads(n / 10);
        let d = decimal(n);
        assert(d.drop_last() =~= decimal(n / 10));
        assert(d.last() == digit((n % 10) as nat));
        assert(digit((n % 10) as nat) as u32 == n % 10 + 48);
        assert(n == (n / 10) * 10 + n % 10) by {
            vstd::arithmetic::div_mod::lemma_fundamental_div_mod(n as int, 10);
        }
        assert(digits_value(d) == digits_value(d.drop_last()) * 10 + ((d.last() as u32 - 48) as nat));
        assert(digits_value(d) == (n / 10) * 10 + n % 10);
        assert forall|i: int| 0 <= i < d.len() implies is_digit(#[trigger] d[i]) by {
            if i < d.len() - 1 {
                assert(d[i] == decimal(n / 10)[i]);
            }
        }
    }
}

proof fn lemma_digits_at_end(x: Seq<char>, ds: Seq<char>)
    requires
        forall|i: int| 0 <= i < ds.len() ==> is_digit(#[trigger] ds[i]),
        x.len() == 0 || !is_digit(x.last()),
    ensures
        digits_at_end(x + ds) == ds.len(),
    decreases ds.len(),
{
    if ds.len() == 0 {
        assert(x + ds =~= x);
    } else {
        assert((x + ds).drop_last() =~= x + ds.drop_last());
        assert(is_digit(ds[ds.len() - 1]));
        lemma_digits_at_end(x, ds.drop_last());
    }
}

proof fn lemma_unquoted_at_end(x: Seq<char>, k: Seq<char>)
    requires
        forall|i: int| 0 <= i < k.len() ==> #[trigger] k[i] != '"',
        x.len() > 0 && x.last() == '"',
    ensures
        unquoted_at_end(x + k) == k.len(),
    decreases k.len(),
{
    if k.len() == 0 {
        assert(x + k =~= x);
    } else {
        assert((x + k).drop_last() =~= x + k.drop_last());
        assert(k[k.len() - 1] != '"');
        lemma_unquoted_at_end(x, k.drop_last());
    }
}

/// Read from its end, a member `"key":n` after `p` and a comma gives back
/// the key, the number and `p`.
proof fn lemma_last_number(p: Seq<char>, key: Seq<char>, n: nat)
    requires
        forall|i: int| 0 <= i < key.len() ==> #[trigger] key[i] != '"',
    ensures
        last_number_member(p + ",\""@ + key + "\":"@ + decimal(n)) == (key, n, p),
{
    reveal_strlit(",\"");
    reveal_strlit("\":");
    lemma_decimal_reads(n);
    let x = p + ",\""@ + key + "\":"@;
    let t = x + decimal(n);
    lemma_digits_at_end(x, decimal(n));
    assert(t.skip(t.len() - decimal(n).len()) =~= decimal(n));
    let u = t.take(t.len() - decimal(n).len());
    assert(u =~= x);
    let inner = u.take(u.len() - 2);
    let y = p + ",\""@;
    assert(inner =~= y + key);
    lemma_unquoted_at_end(y, key);
    assert(inner.skip(inner.len() - key.len()) =~= key);
    assert(inner.take(inner.len() - key.len() - 2) =~= p);
}

/// A JSON reader going back from the closing brace of a diagnostic's JSON
/// finds the numeric members in order, each key with its own field's
/// number: `end_column`, `end_line`, `column` and `line`.
pub proof fn lemma_json_numbers(d: Diagnostic)
    ensures
        json_form(d).last() == '}',
        last_number_member(json_form(d).drop_last()).0 == "end_column"@,
        last_number_member(json_form(d).drop_last()).1 == d.end_column,
        last_number_member(last_number_member(json_form(d).drop_last()).2).0 == "end_line"@,
        last_number_member(last_number_member(json_form(d).drop_last()).2).1 == d.end_line,
        last_number_member(last_number_member(last_number_member(json_form(d).drop_last()).2).2).0
            == "column"@,
        last_number_member(last_number_member(last_number_member(json_form(d).drop_last()).2).2).1
            == d.column,
        last_number_member(
            last_number_member(last_number_member(last_number_member(json_form(d).drop_last()).2).2).2,
        ).0 == "line"@,
        last_number_member(
            last_number_member(last_number_member(last_number_member(json_form(d).drop_last()).2).2).2,
        ).1 == d.line,
{
    reveal_strlit("}");
    reveal_strlit(",\"");
    reveal_strlit("\":");
    reveal_strlit("line");
    reveal_strlit("column");
    reveal_strlit("end_line");
    reveal_strlit("end_column");
    reveal_strlit(",\"line\":");
    reveal_strlit(",\"column\":");
    reveal_strlit(",\"end_line\":");
    reveal_strlit(",\"end_column\":");
    let p1 = "{\"severity\":"@ + json_quote(severity_name(d.severity)) + ",\"message\":"@ + json_quote(
        d.message@,
    ) + ",\"hints\":["@ + json_quote_list(hint_texts(d)) + "],\"file\":"@ + json_quote(d.file@);
    let p2 = p1 + ",\""@ + "line"@ + "\":"@ + decimal(d.line as nat);
    let p3 = p2 + ",\""@ + "column"@ + "\":"@ + decimal(d.column as nat);
    let p4 = p3 + ",\""@ + "end_line"@ + "\":"@ + decimal(d.end_line as nat);
    let body = p4 + ",\""@ + "end_column"@ + "\":"@ + decimal(d.end_column as nat);
    assert(json_form(d) =~= body + "}"@);
    assert(json_form(d).drop_last() =~= body);
    lemma_last_number(p4, "end_column"@, d.end_column as nat);
    lemma_last_number(p3, "end_line"@, d.end_line as nat);
    lemma_last_number(p2, "column"@, d.column as nat);
    lemma_last_number(p1, "line"@, d.line as nat);
}

/// The entries of a list, as JSON, separated by commas.
pub open spec fn json_list(ds: Seq<Diagnostic>) -> Seq<char>
    decreases ds.len(),
{
    if ds.len() == 0 {
        seq![]
    } else if ds.len() == 1 {
        json_form(ds[0])
    } else {
        json_list(ds.drop_last()) + ","@ + json_form(ds.last())
    }
}

impl Diagnostic {
    /// A diagnostic with no place in the source, which is what a compiler
    /// reports when the problem is not in any one span.
    pub fn spanless(severity: Severity, message: &str) -> (r: Diagnostic)
        ensures
            r.severity == severity,
            r.message@ == message@,
            r.hints@.len() == 0,
            r.file@ == Seq::<char>::empty(),
            r.line == 0,
            r.column == 0,
            r.end_line == 0,
            r.end_column == 0,
    {
        let mut out = String::new();
        push_str(&mut out, message);
        Diagnostic {
            severity,
            message: out,
            hints: Vec::new(),
            file: String::new(),
            line: 0,
            column: 0,
            end_line: 0,
            end_column: 0,
        }
    }

    /// Whether this one keeps the page off the screen.
    pub fn is_error(&self) -> (r: bool)
        ensures
            r == (self.severity == Severity::Error),
    {
        match self.severity {
            Severity::Error => true,
            Severity::Warning => false,
        }
    }

    /// The way every editor since `grep -n` expects to be told where something
    /// is: `file:line:column: severity: message`, with the location left off
    /// when there is none.
    pub fn to_line(&self, document: &str) -> (r: String)
        ensures
            r@ == line_form(*self, document@),
    {
        let mut out = String::new();
        let severity = self.severity.as_str();
        if self.line == 0 {
            push_str(&mut out, severity);
            push_str(&mut out, ": ");
            push_str(&mut out, self.message.as_str());
        } else {
            if self.file.as_str().is_empty() {
                push_str(&mut out, document);
            } else {
                push_str(&mut out, self.file.as_str());
            }
            push_str(&mut out, ":");
            push_decimal(&mut out, self.line);
            push_str(&mut out, ":");
            push_decimal(&mut out, self.column);
            push_str(&mut out, ": ");
            push_str(&mut out, severity);
            push_str(&mut out, ": ");
            push_str(&mut out, self.message.as_str());
        }
        out
    }

    /// The JSON one entry of the list is, written by hand so that neither
    /// module carries a serialiser it needs for a hundred bytes.
    pub fn to_json(&self) -> (r: String)
        ensures
            r@ == json_form(*self),
    {
        let mut out = String::new();
        push_json(&mut out, self);
        out
    }
}

/// Appends one entry of the list as JSON.
fn push_json(out: &mut String, d: &Diagnostic)
    ensures
        final(out)@ == old(out)@ + json_form(*d),
{
    let ghost start = out@;
    push_str(out, "{\"severity\":");
    push_quoted(out, d.severity.as_str());
    push_str(out, ",\"message\":");
    push_quoted(out, d.message.as_str());
    push_str(out, ",\"hints\":[");
    let mut i: usize = 0;
    while i < d.hints.len()
        invariant
            i <= d.hints@.len(),
            out@ == start + "{\"severity\":"@ + json_quote(severity_name(d.severity))
                + ",\"message\":"@ + json_quote(d.message@) + ",\"hints\":["@ + json_quote_list(
                hint_texts(*d).take(i as int),
            ),
        decreases d.hints@.len() - i,
    {
        assert(hint_texts(*d).take(i + 1).drop_last() =~= hint_texts(*d).take(i as int));
        if i > 0 {
            push_str(out, ",");
        }
        push_quoted(out, d.hints[i].as_str());
        i = i + 1;
    }
    assert(hint_texts(*d).take(d.hints@.len() as int) =~= hint_texts(*d));
    push_str(out, "],\"file\":");
    push_quoted(out, d.file.as_str());
    push_str(out, ",\"line\":");
    push_decimal(out, d.line);
    push_str(out, ",\"column\":");
    push_decimal(out, d.column);
    push_str(out, ",\"end_line\":");
    push_decimal(out, d.end_line);
    push_str(out, ",\"end_column\":");
    push_decimal(out, d.end_column);
    push_str(out, "}");
}

/// Appends the hexadecimal digit `n`.
fn push_hex_digit(out: &mut String, n: u32)
    requires
        n < 16,
    ensures
        final(out)@ == old(out)@.push(hex_digit(n as nat)),
{
    let b: u8 = n as u8;
    if b < 10 {
        push_char(out, (b + 48u8) as char);
    } else {
        push_char(out, (b + 87u8) as char);
    }
}

/// Appends a text as a JSON string literal.
fn push_quoted(out: &mut String, text: &str)
    ensures
        final(out)@ == old(out)@ + json_quote(text@),
{
    let ghost start = out@;
    let cs = chars_of(text);
    push_char(out, '"');
    let mut i: usize = 0;
    while i < cs.len()
        invariant
            i <= cs.len(),
            cs@ == text@,
            out@ == start + seq!['"'] + json_escape(cs@.take(i as int)),
        decreases cs.len() - i,
    {
        let c = cs[i];
        assert(cs@.take(i + 1).drop_last() =~= cs@.take(i as int));
        if c == '"' {
            push_str(out, "\\\"");
        } else if c == '\\' {
            push_str(out, "\\\\");
        } else if c == '\n' {
            push_str(out, "\\n");
        } else if c == '\r' {
            push_str(out, "\\r");
        } else if c == '\t' {
            push_str(out, "\\t");
        } else if (c as u32) < 0x20 {
            push_str(out, "\\u00");
            push_hex_digit(out, (c as u32) / 16);
            push_hex_digit(out, (c as u32) % 16);
        } else {
            push_char(out, c);
        }
        i = i + 1;
    }
    assert(cs@.take(cs.len() as int) =~= cs@);
    push_char(out, '"');
}


/// The format of a successful rendering.
///
/// Keeping the format in the type matters at the WebAssembly boundary: PDF
/// bytes must never be passed through a UTF-8 decoder, and callers should not
/// have to guess whether a byte buffer is HTML or PDF.
#[derive(Clone, Debug, PartialEq, Eq)]
pub enum RenderedDocument {
    /// A document whose output can be inserted into an HTML page.
    Html(String),
    /// A complete PDF file, including its binary header and cross-reference.
    Pdf(Vec<u8>),
}

impl RenderedDocument {
    pub fn html(&self) -> (r: Option<&str>)
        ensures
            match self {
                RenderedDocument::Html(h) => r is Some && r->0@ == h@,
                RenderedDocument::Pdf(_) => r is None,
            },
    {
        match self {
            RenderedDocument::Html(html) => Some(html.as_str()),
            RenderedDocument::Pdf(_) => None,
        }
    }

    pub fn pdf(&self) -> (r: Option<&[u8]>)
        ensures
            match self {
                RenderedDocument::Pdf(p) => r is Some && r->0@ == p@,
                RenderedDocument::Html(_) => r is None,
            },
    {
        match self {
            RenderedDocument::Pdf(pdf) => Some(pdf.as_slice()),
            RenderedDocument::Html(_) => None,
        }
    }
}

/// What a compile produced and everything the compiler had to say. A result
/// has no document exactly when at least one diagnostic is an error.
#[derive(Clone, Debug)]
pub struct Compiled {
    /// The successfully rendered document, if compilation succeeded.
    pub output: Option<RenderedDocument>,
    pub diagnostics: Vec<Diagnostic>,
}

impl Default for Compiled {
    fn default() -> (r: Compiled)
        ensures
            r.output is None,
            r.diagnostics@.len() == 0,
    {
        Compiled { output: None, diagnostics: Vec::new() }
    }
}

/// The errors among a list, in order.
pub open spec fn errors_of(ds: Seq<Diagnostic>) -> Seq<Diagnostic>
    decreases ds.len(),
{
    if ds.len() == 0 {
        seq![]
    } else if ds.last().severity == Severity::Error {
        errors_of(ds.drop_last()).push(ds.last())
    } else {
        errors_of(ds.drop_last())
    }
}

/// The warnings among a list, in order.
pub open spec fn warnings_of(ds: Seq<Diagnostic>) -> Seq<Diagnostic>
    decreases ds.len(),
{
    if ds.len() == 0 {
        seq![]
    } else if ds.last().severity == Severity::Warning {
        warnings_of(ds.drop_last()).push(ds.last())
    } else {
        warnings_of(ds.drop_last())
    }
}

/// What `errors_of` keeps are errors.
pub proof fn lemma_errors_are_errors(ds: Seq<Diagnostic>)
    ensures
        forall|i: int| 0 <= i < errors_of(ds).len() ==> (#[trigger] errors_of(ds)[i]).severity == Severity::Error,
    decreases ds.len(),
{
    if ds.len() > 0 {
        lemma_errors_are_errors(ds.drop_last());
    }
}

/// Every diagnostic is an error or a warning, so the two lists share them
/// out: together they are as many as the whole.
pub proof fn lemma_errors_and_warnings(ds: Seq<Diagnostic>)
    ensures
        errors_of(ds).len() + warnings_of(ds).len() == ds.len(),
    decreases ds.len(),
{
    if ds.len() > 0 {
        lemma_errors_and_warnings(ds.drop_last());
    }
}

/// What a caller with room for one line is told: the first error's message,
/// or a sentence of its own when there is no error.
pub open spec fn message_of(ds: Seq<Diagnostic>) -> Seq<char> {
    if errors_of(ds).len() > 0 {
        errors_of(ds)[0].message@
    } else {
        "this document could not be compiled"@
    }
}

/// A list with no errors among `errors_of` has no error at all.
proof fn lemma_no_errors(ds: Seq<Diagnostic>)
    ensures
        errors_of(ds).len() == 0 ==> forall|j: int| 0 <= j < ds.len() ==> (#[trigger] ds[j]).severity
            != Severity::Error,
    decreases ds.len(),
{
    if ds.len() > 0 {
        lemma_no_errors(ds.drop_last());
        if errors_of(ds).len() == 0 {
            assert forall|j: int| 0 <= j < ds.len() implies (#[trigger] ds[j]).severity != Severity::Error by {
                if j < ds.len() - 1 {
                    assert(ds[j] == ds.drop_last()[j]);
                }
            }
        }
    }
}

/// The first of the errors is the first diagnostic that is an error.
proof fn lemma_first_error(ds: Seq<Diagnostic>)
    ensures
        errors_of(ds).len() > 0 ==> exists|i: int|
            0 <= i < ds.len() && #[trigger] ds[i] == errors_of(ds)[0] && ds[i].severity == Severity::Error
                && forall|j: int| 0 <= j < i ==> (#[trigger] ds[j]).severity != Severity::Error,
    decreases ds.len(),
{
    if ds.len() > 0 {
        let dl = ds.drop_last();
        lemma_first_error(dl);
        lemma_no_errors(dl);
        if errors_of(dl).len() > 0 {
            let i = choose|i: int|
                0 <= i < dl.len() && #[trigger] dl[i] == errors_of(dl)[0] && dl[i].severity == Severity::Error
                    && forall|j: int| 0 <= j < i ==> (#[trigger] dl[j]).severity != Severity::Error;
            assert(ds[i] == dl[i]);
            assert forall|j: int| 0 <= j < i implies (#[trigger] ds[j]).severity != Severity::Error by {
                assert(ds[j] == dl[j]);
            }
        } else if errors_of(ds).len() > 0 {
            let i = ds.len() - 1;
            assert forall|j: int| 0 <= j < i implies (#[trigger] ds[j]).severity != Severity::Error by {
                assert(ds[j] == dl[j]);
            }
        }
    }
}

/// The one line a caller is told is the message of the first diagnostic
/// that is an error, and a sentence of its own only when none is.
pub proof fn lemma_message_first_error(ds: Seq<Diagnostic>)
    ensures
        (exists|i: int| 0 <= i < ds.len() && (#[trigger] ds[i]).severity == Severity::Error) ==> exists|i: int|
            0 <= i < ds.len() && (#[trigger] ds[i]).severity == Severity::Error && message_of(ds)
                == ds[i].message@ && forall|j: int| 0 <= j < i ==> (#[trigger] ds[j]).severity
                != Severity::Error,
        (forall|i: int| 0 <= i < ds.len() ==> (#[trigger] ds[i]).severity != Severity::Error) ==> message_of(
            ds,
        ) == "this document could not be compiled"@,
{
    lemma_first_error(ds);
    lemma_no_errors(ds);
    if errors_of(ds).len() > 0 {
        lemma_errors_are_errors(ds);
        assert(errors_of(ds)[0].severity == Severity::Error);
    }
}

/// The names the two severities go by: `error` and `warning`.
pub proof fn lemma_severity_names(s: Severity)
    ensures
        (severity_name(s) == "error"@) == (s == Severity::Error),
        (severity_name(s) == "warning"@) == (s == Severity::Warning),
{
    reveal_strlit("error");
    reveal_strlit("warning");
    assert("error"@ != "warning"@) by {
        assert("error"@[0] != "warning"@[0]);
    }
}

/// A list as references, as a sequence of the diagnostics they refer to.
pub open spec fn derefs(rs: Seq<&Diagnostic>) -> Seq<Diagnostic> {
    rs.map_values(|r: &Diagnostic| *r)
}

/// `r` is `c` with an HTML rendering `h` replaced by what `f` may make of
/// it, a PDF rendering kept byte for byte, and the diagnostics kept.
pub open spec fn mapped<F: FnOnce(String) -> String>(c: Compiled, f: F, r: Compiled) -> bool {
    &&& r.diagnostics == c.diagnostics
    &&& match c.output {
        Some(RenderedDocument::Html(h)) => r.output matches Some(RenderedDocument::Html(w)) && call_ensures(
            f,
            (h,),
            w,
        ),
        Some(RenderedDocument::Pdf(p)) => r.output == Some(RenderedDocument::Pdf(p)),
        None => r.output is None,
    }
}

/// With a mapping that gives one answer to one page, mapping a result gives
/// one result: `map_html` and `map_page`, which both give a `mapped` result,
/// agree.
pub proof fn lemma_mapped_unique<F: FnOnce(String) -> String>(c: Compiled, f: F, r1: Compiled, r2: Compiled)
    requires
        forall|x: String, y1: String, y2: String|
            call_ensures(f, (x,), y1) && call_ensures(f, (x,), y2) ==> y1 == y2,
        mapped(c, f, r1),
        mapped(c, f, r2),
    ensures
        r1 == r2,
{
}

impl Compiled {
    /// A compile that produced a page and said nothing about it: what markdown
    /// and HTML always return.
    pub fn page(page: String) -> (r: Compiled)
        ensures
            r.output == Some(RenderedDocument::Html(page)),
            r.diagnostics@.len() == 0,
    {
        Compiled { output: Some(RenderedDocument::Html(page)), diagnostics: Vec::new() }
    }

    /// A successful PDF rendering.
    pub fn pdf(pdf: Vec<u8>) -> (r: Compiled)
        ensures
            r.output == Some(RenderedDocument::Pdf(pdf)),
            r.diagnostics@.len() == 0,
    {
        Compiled { output: Some(RenderedDocument::Pdf(pdf)), diagnostics: Vec::new() }
    }

    /// A compile that failed for a reason with no place in the source.
    pub fn failed(message: &str) -> (r: Compiled)
        ensures
            r.output is None,
            r.diagnostics@.len() == 1,
            r.diagnostics@[0].severity == Severity::Error,
            r.diagnostics@[0].message@ == message@,
            r.diagnostics@[0].hints@.len() == 0,
            r.diagnostics@[0].file@.len() == 0,
            r.diagnostics@[0].line == 0,
            r.diagnostics@[0].column == 0,
            r.diagnostics@[0].end_line == 0,
            r.diagnostics@[0].end_column == 0,
    {
        let mut diagnostics = Vec::new();
        diagnostics.push(Diagnostic::spanless(Severity::Error, message));
        Compiled { output: None, diagnostics }
    }

    /// Replaces the page, keeping what the compiler said about it: what
    /// wrapping the output in the shared page template amounts to. A PDF is
    /// left as it is.
    pub fn map_page<F: FnOnce(String) -> String>(self, wrap: F) -> (r: Compiled)
        requires
            self.output matches Some(RenderedDocument::Html(h)) ==> call_requires(wrap, (h,)),
        ensures
            mapped(self, wrap, r),
    {
        let output = match self.output {
            Some(RenderedDocument::Html(html)) => Some(RenderedDocument::Html(wrap(html))),
            Some(RenderedDocument::Pdf(pdf)) => Some(RenderedDocument::Pdf(pdf)),
            None => None,
        };
        Compiled { output, diagnostics: self.diagnostics }
    }

    /// Maps an HTML rendering while leaving a PDF rendering untouched.
    pub fn map_html<F: FnOnce(String) -> String>(self, map: F) -> (r: Compiled)
        requires
            self.output matches Some(RenderedDocument::Html(h)) ==> call_requires(map, (h,)),
        ensures
            mapped(self, map, r),
    {
        self.map_page(map)
    }

    /// The errors, in the order the list has them.
    pub fn errors(&self) -> (r: Vec<&Diagnostic>)
        ensures
            derefs(r@) == errors_of(self.diagnostics@),
    {
        let mut out: Vec<&Diagnostic> = Vec::new();
        let mut i: usize = 0;
        while i < self.diagnostics.len()
            invariant
                i <= self.diagnostics@.len(),
                derefs(out@) == errors_of(self.diagnostics@.take(i as int)),
            decreases self.diagnostics@.len() - i,
        {
            assert(self.diagnostics@.take(i + 1).drop_last() =~= self.diagnostics@.take(i as int));
            let d = &self.diagnostics[i];
            let ghost prev = out@;
            if d.is_error() {
                out.push(d);
                assert(derefs(out@) =~= derefs(prev).push(*d));
            }
            i = i + 1;
        }
        assert(self.diagnostics@.take(self.diagnostics@.len() as int) =~= self.diagnostics@);
        out
    }

    /// The warnings, in the order the list has them.
    pub fn warnings(&self) -> (r: Vec<&Diagnostic>)
        ensures
            derefs(r@) == warnings_of(self.diagnostics@),
    {
        let mut out: Vec<&Diagnostic> = Vec::new();
        let mut i: usize = 0;
        while i < self.diagnostics.len()
            invariant
                i <= self.diagnostics@.len(),
                derefs(out@) == warnings_of(self.diagnostics@.take(i as int)),
            decreases self.diagnostics@.len() - i,
        {
            assert(self.diagnostics@.take(i + 1).drop_last() =~= self.diagnostics@.take(i as int));
            let d = &self.diagnostics[i];
            let ghost prev = out@;
            if !d.is_error() {
                out.push(d);
                assert(derefs(out@) =~= derefs(prev).push(*d));
            }
            i = i + 1;
        }
        assert(self.diagnostics@.take(self.diagnostics@.len() as int) =~= self.diagnostics@);
        out
    }

    /// The first error's message, for a caller that has room for one line.
    pub fn message(&self) -> (r: String)
        ensures
            r@ == message_of(self.diagnostics@),
    {
        let mut i: usize = 0;
        while i < self.diagnostics.len()
            invariant
                i <= self.diagnostics@.len(),
                errors_of(self.diagnostics@.take(i as int)).len() == 0,
            decreases self.diagnostics@.len() - i,
        {
            assert(self.diagnostics@.take(i + 1).drop_last() =~= self.diagnostics@.take(i as int));
            if self.diagnostics[i].is_error() {
                proof {
                    lemma_errors_of_prefix(self.diagnostics@, i as int);
                }
                return self.diagnostics[i].message.clone();
            }
            i = i + 1;
        }
        assert(self.diagnostics@.take(self.diagnostics@.len() as int) =~= self.diagnostics@);
        let mut out = String::new();
        push_str(&mut out, "this document could not be compiled");
        out
    }

    /// The page, or the first error's message, for the callers that want
    /// nothing more than a page or a reason.
    pub fn into_result(self) -> (r: Result<String, String>)
        ensures
            match self.output {
                Some(RenderedDocument::Html(p)) => r == Ok::<String, String>(p),
                Some(RenderedDocument::Pdf(_)) => r is Err && r->Err_0@
                    == "this compile produced a PDF"@,
                None => r is Err && r->Err_0@ == message_of(self.diagnostics@),
            },
    {
        let message = self.message();
        match self.output {
            Some(RenderedDocument::Html(page)) => Ok(page),
            Some(RenderedDocument::Pdf(_)) => {
                let mut out = String::new();
                push_str(&mut out, "this compile produced a PDF");
                Err(out)
            },
            None => Err(message),
        }
    }

    /// Returns a PDF result, retaining the compiler's first error when it did
    /// not produce one.
    pub fn into_pdf_result(self) -> (r: Result<Vec<u8>, String>)
        ensures
            match self.output {
                Some(RenderedDocument::Pdf(p)) => r == Ok::<Vec<u8>, String>(p),
                Some(RenderedDocument::Html(_)) => r is Err && r->Err_0@
                    == "this compile produced HTML"@,
                None => r is Err && r->Err_0@ == message_of(self.diagnostics@),
            },
    {
        let message = self.message();
        match self.output {
            Some(RenderedDocument::Pdf(pdf)) => Ok(pdf),
            Some(RenderedDocument::Html(_)) => {
                let mut out = String::new();
                push_str(&mut out, "this compile produced HTML");
                Err(out)
            },
            None => Err(message),
        }
    }

    /// The whole list as JSON, which is the same bytes on both sides of the
    /// WebAssembly boundary.
    pub fn diagnostics_json(&self) -> (r: String)
        ensures
            r@ == "["@ + json_list(self.diagnostics@) + "]"@,
    {
        let mut out = String::new();
        push_str(&mut out, "[");
        let mut i: usize = 0;
        while i < self.diagnostics.len()
            invariant
                i <= self.diagnostics@.len(),
                out@ == "["@ + json_list(self.diagnostics@.take(i as int)),
            decreases self.diagnostics@.len() - i,
        {
            assert(self.diagnostics@.take(i + 1).drop_last() =~= self.diagnostics@.take(i as int));
            if i > 0 {
                push_str(&mut out, ",");
            }
            push_json(&mut out, &self.diagnostics[i]);
            i = i + 1;
        }
        assert(self.diagnostics@.take(self.diagnostics@.len() as int) =~= self.diagnostics@);
        push_str(&mut out, "]");
        out
    }
}

/// The first error of a list is its first diagnostic that is an error.
pub proof fn lemma_errors_of_prefix(ds: Seq<Diagnostic>, i: int)
    requires
        0 <= i < ds.len(),
        errors_of(ds.take(i)).len() == 0,
        ds[i].severity == Severity::Error,
    ensures
        errors_of(ds).len() > 0,
        errors_of(ds)[0] == ds[i],
    decreases ds.len(),
{
    if i == ds.len() - 1 {
        assert(ds.drop_last() =~= ds.take(i));
    } else {
        assert(ds.drop_last().take(i) =~= ds.take(i));
        lemma_errors_of_prefix(ds.drop_last(), i);
    }
}

/// JSON's own escaping, which is the whole of what writing this by hand costs.
pub fn quote(text: &str) -> (r: String)
    ensures
        r@ == json_quote(text@),
{
    let mut out = String::new();
    push_quoted(&mut out, text);
    out
}


/// The stylesheet of the page that stands in for a document that did not
/// compile.
pub const DIAGNOSTICS_STYLE: &'static str = "<style>\n.komodoc-diagnostics { list-style: none; padding: 0; }\n.komodoc-diagnostics > li { border-left: 3px solid #c0392b; padding-left: 0.75rem; margin-bottom: 1rem; }\n.komodoc-diagnostics > li.warning { border-left-color: #b7791f; }\n.komodoc-diagnostics .where { color: #666; font-variant-numeric: tabular-nums; }\n.komodoc-diagnostics .hints { color: #666; }\n</style>";

/// Where a diagnostic is, as the page shows it: nothing for a spanless one.
pub open spec fn where_html(d: Diagnostic) -> Seq<char> {
    if d.line == 0 {
        seq![]
    } else {
        "<span class=\"where\">"@ + (if d.file@.len() == 0 {
            seq![]
        } else {
            html_escape(d.file@) + " "@
        }) + "line "@ + decimal(d.line as nat) + ", column "@ + decimal(d.column as nat)
            + "</span> "@
    }
}

/// Hints as list items.
pub open spec fn hint_items(hs: Seq<Seq<char>>) -> Seq<char>
    decreases hs.len(),
{
    if hs.len() == 0 {
        seq![]
    } else {
        hint_items(hs.drop_last()) + "<li>"@ + html_escape(hs.last()) + "</li>"@
    }
}

/// A diagnostic's hints as a nested list, or nothing when it has none.
pub open spec fn hints_html(d: Diagnostic) -> Seq<char> {
    if d.hints@.len() == 0 {
        seq![]
    } else {
        "<ul class=\"hints\">"@ + hint_items(hint_texts(d)) + "</ul>"@
    }
}

/// One diagnostic as an item of the page's list.
pub open spec fn item_html(d: Diagnostic) -> Seq<char> {
    "<li class=\""@ + severity_name(d.severity) + "\">"@ + where_html(d) + html_escape(d.message@)
        + hints_html(d) + "</li>\n"@
}

/// The items of the page's list.
pub open spec fn items_html(ds: Seq<Diagnostic>) -> Seq<char>
    decreases ds.len(),
{
    if ds.len() == 0 {
        seq![]
    } else {
        items_html(ds.drop_last()) + item_html(ds.last())
    }
}

/// The body of the page that stands in for a document that did not compile.
pub open spec fn failure_body(ds: Seq<Diagnostic>) -> Seq<char> {
    "<h1>This document does not compile</h1>\n<ul class=\"komodoc-diagnostics\">\n"@ + items_html(
        ds,
    ) + "</ul>\n"@
}

proof fn lemma_items_hold(ds: Seq<Diagnostic>, i: int, w: Seq<char>)
    requires
        0 <= i < ds.len(),
        holds_text(item_html(ds[i]), w),
    ensures
        holds_text(items_html(ds), w),
    decreases ds.len(),
{
    let last = ds.len() - 1;
    if i == last {
        lemma_holds_within(items_html(ds.drop_last()), item_html(ds[i]), seq![], w);
        assert(items_html(ds.drop_last()) + item_html(ds[i]) + seq![] =~= items_html(ds));
    } else {
        assert(ds.drop_last()[i] == ds[i]);
        lemma_items_hold(ds.drop_last(), i, w);
        lemma_holds_within(seq![], items_html(ds.drop_last()), item_html(ds.last()), w);
        assert(seq![] + items_html(ds.drop_last()) + item_html(ds.last()) =~= items_html(ds));
    }
}

/// The failure page places every located diagnostic: the file it names,
/// when it names one, then its line and column.
pub proof fn lemma_page_places(ds: Seq<Diagnostic>, title: Seq<char>, i: int)
    requires
        0 <= i < ds.len(),
        ds[i].line != 0,
    ensures
        ds[i].file@.len() > 0 ==> holds_text(
            page_text(title, DIAGNOSTICS_STYLE@, failure_body(ds)),
            "<span class=\"where\">"@ + html_escape(ds[i].file@) + " line "@ + decimal(ds[i].line as nat)
                + ", column "@ + decimal(ds[i].column as nat),
        ),
        ds[i].file@.len() == 0 ==> holds_text(
            page_text(title, DIAGNOSTICS_STYLE@, failure_body(ds)),
            "<span class=\"where\">line "@ + decimal(ds[i].line as nat) + ", column "@ + decimal(
                ds[i].column as nat,
            ),
        ),
{
    reveal_strlit(" ");
    reveal_strlit("line ");
    reveal_strlit(" line ");
    reveal_strlit("<span class=\"where\">");
    reveal_strlit("<span class=\"where\">line ");
    let d = ds[i];
    let w = if d.file@.len() > 0 {
        "<span class=\"where\">"@ + html_escape(d.file@) + " line "@ + decimal(d.line as nat) + ", column "@
            + decimal(d.column as nat)
    } else {
        "<span class=\"where\">line "@ + decimal(d.line as nat) + ", column "@ + decimal(d.column as nat)
    };
    let wh = where_html(d);
    assert(wh.take(w.len() as int) =~= w);
    lemma_holds_prefix(wh, w);
    let head = "<li class=\""@ + severity_name(d.severity) + "\">"@;
    let tail = html_escape(d.message@) + hints_html(d) + "</li>\n"@;
    lemma_holds_within(head, wh, tail, w);
    assert(head + wh + tail =~= item_html(d));
    lemma_items_hold(ds, i, w);
    let fb_head = "<h1>This document does not compile</h1>\n<ul class=\"komodoc-diagnostics\">\n"@;
    lemma_holds_within(fb_head, items_html(ds), "</ul>\n"@, w);
    let body = failure_body(ds);
    let pre = "<!doctype html>\n<html lang=\"en\">\n<head>\n<meta charset=\"utf-8\">\n<meta name=\"viewport\" content=\"width=device-width,initial-scale=1\">\n<title>"@
        + html_escape(title) + "</title>\n<style>\n"@ + DOCUMENT_CSS@ + "</style>\n"@ + DIAGNOSTICS_STYLE@
        + "</head>\n<body>\n"@;
    lemma_holds_within(pre, body, "</body>\n</html>\n"@, w);
    assert(pre + body + "</body>\n</html>\n"@ =~= page_text(title, DIAGNOSTICS_STYLE@, body));
}

/// A diagnostic names its own file, when it has one, as the place in its
/// line, whatever the document is called; the document's name stands only
/// for an empty file.
pub proof fn lemma_line_names_file(d: Diagnostic, document: Seq<char>, other: Seq<char>)
    ensures
        d.file@.len() > 0 ==> line_form(d, document) == line_form(d, other),
        d.line != 0 && d.file@.len() > 0 ==> line_form(d, document).take(d.file@.len() + 1int) == d.file@
            + ":"@,
        d.line != 0 && d.file@.len() == 0 ==> line_form(d, document).take(document.len() + 1int) == document
            + ":"@,
{
    reveal_strlit(":");
    if d.line != 0 {
        let name = if d.file@.len() == 0 { document } else { d.file@ };
        assert(line_form(d, document).take(name.len() + 1int) =~= name + ":"@);
    }
}

/// Appends one diagnostic as an item of the page's list.
#[verifier::spinoff_prover]
#[verifier::rlimit(40)]
fn push_item(out: &mut String, d: &Diagnostic)
    ensures
        final(out)@ == old(out)@ + item_html(*d),
{
    let ghost start = out@;
    push_str(out, "<li class=\"");
    push_str(out, d.severity.as_str());
    push_str(out, "\">");
    if d.line != 0 {
        push_str(out, "<span class=\"where\">");
        if !d.file.as_str().is_empty() {
            push_escaped(out, d.file.as_str());
            push_str(out, " ");
        }
        push_str(out, "line ");
        push_decimal(out, d.line);
        push_str(out, ", column ");
        push_decimal(out, d.column);
        push_str(out, "</span> ");
    }
    assert(out@ == start + "<li class=\""@ + severity_name(d.severity) + "\">"@ + where_html(*d));
    push_escaped(out, d.message.as_str());
    let ghost before_hints = out@;
    if d.hints.len() > 0 {
        push_str(out, "<ul class=\"hints\">");
        let mut i: usize = 0;
        while i < d.hints.len()
            invariant
                i <= d.hints@.len(),
                out@ == before_hints + "<ul class=\"hints\">"@ + hint_items(
                    hint_texts(*d).take(i as int),
                ),
            decreases d.hints@.len() - i,
        {
            assert(hint_texts(*d).take(i + 1).drop_last() =~= hint_texts(*d).take(i as int));
            push_str(out, "<li>");
            push_escaped(out, d.hints[i].as_str());
            push_str(out, "</li>");
            i = i + 1;
        }
        assert(hint_texts(*d).take(d.hints@.len() as int) =~= hint_texts(*d));
        push_str(out, "</ul>");
    }
    assert(out@ == before_hints + hints_html(*d));
    push_str(out, "</li>\n");
}

/// The page shown where a document would be when there is no document: the
/// diagnostics, dressed as a document rather than as a crash, so the editor,
/// the command line and a reader can all show the same one.
pub fn diagnostics_page(diagnostics: &[Diagnostic], title: &str) -> (r: String)
    ensures
        r@ == page_text(title@, DIAGNOSTICS_STYLE@, failure_body(diagnostics@)),
{
    let mut body = String::new();
    push_str(
        &mut body,
        "<h1>This document does not compile</h1>\n<ul class=\"komodoc-diagnostics\">\n",
    );
    let mut i: usize = 0;
    while i < diagnostics.len()
        invariant
            i <= diagnostics@.len(),
            body@ == "<h1>This document does not compile</h1>\n<ul class=\"komodoc-diagnostics\">\n"@
                + items_html(diagnostics@.take(i as int)),
        decreases diagnostics@.len() - i,
    {
        assert(diagnostics@.take(i + 1).drop_last() =~= diagnostics@.take(i as int));
        push_item(&mut body, &diagnostics[i]);
        i = i + 1;
    }
    assert(diagnostics@.take(diagnostics@.len() as int) =~= diagnostics@);
    push_str(&mut body, "</ul>\n");
    page(title, DIAGNOSTICS_STYLE, body.as_str())
}

} // verus!
