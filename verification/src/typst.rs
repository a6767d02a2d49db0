//! What this library decides around a typst compile: which files are typst
//! sources, what a document is titled, the date `datetime.today()` answers,
//! where in a source a diagnostic points, and how the diagnostics of a
//! compile are ordered. The compile itself runs against a world of files
//! and fonts the host supplies.

use vstd::prelude::*;

use vstd::utf8::*;

use crate::chars::{
    byte_offset, char_len_utf16, char_len_utf8, chars_of, lemma_byte_offset_mono,
    lemma_byte_offset_step, lemma_utf16_concat, utf16_len, utf16_width,
};
use crate::diagnostic::{
    errors_of, lemma_errors_are_errors, warnings_of, Compiled, Diagnostic, RenderedDocument, Severity,
};
use crate::page;

verus! {

/// The compiler this crate is built against, for the version a publisher is
/// told when their own typst differs.
pub const VERSION: &'static str = "0.15";

/// What `str::to_lowercase` makes of a text: its lowercase, as Unicode's
/// case mappings define it.
pub uninterp spec fn lowercase(s: Seq<char>) -> Seq<char>;

/// `str::to_lowercase`. What the lowercase of a text is takes Unicode's
/// tables to say, so the result is only named: the same text always lowers
/// the same way.
#[verifier::external_body]
fn to_lowercase(s: &str) -> (r: String)
    ensures
        r@ == lowercase(s@),
{
    s.to_lowercase()
}

/// Whether `s` ends with `suffix`.
pub open spec fn ends_with(s: Seq<char>, suffix: Seq<char>) -> bool {
    suffix.len() <= s.len() && s.skip(s.len() - suffix.len()) == suffix
}

/// The extension of a typst source.
pub open spec fn typ_extension() -> Seq<char> {
    seq!['.', 't', 'y', 'p']
}

/// Whether an already lowercased filename ends in `.typ`.
pub fn has_typst_extension(lowered: &str) -> (r: bool)
    ensures
        r == ends_with(lowered@, typ_extension()),
{
    let cs = chars_of(lowered);
    let n = cs.len();
    if n < 4 {
        return false;
    }
    let r = cs[n - 4] == '.' && cs[n - 3] == 't' && cs[n - 2] == 'y' && cs[n - 1] == 'p';
    proof {
        let tail = lowered@.skip(n - 4);
        if r {
            assert(tail =~= typ_extension());
        } else {
            assert(tail[0] != '.' || tail[1] != 't' || tail[2] != 'y' || tail[3] != 'p');
            assert(tail != typ_extension());
        }
    }
    r
}

/// Says whether a filename is one this renders: one that ends in `.typ` in
/// any case.
pub fn is_typst(name: &str) -> (r: bool)
    ensures
        r == ends_with(lowercase(name@), typ_extension()),
{
    let lowered = to_lowercase(name);
    has_typst_extension(lowered.as_str())
}

/// The document's first level-one heading, which is the obvious title when
/// none was given: typst has no metadata this side can see without
/// compiling.
pub fn title_of(source: &str) -> (r: String)
    ensures
        r@ == page::first_heading_of(source@, '='),
{
    page::first_heading(source, '=')
}

/// The name the document is compiled under, which its imports resolve
/// beside: the one it was given, or `main.typ` when it was given none.
pub fn document_name(name: &str) -> (r: &str)
    ensures
        name@.len() == 0 ==> r@ == "main.typ"@,
        name@.len() > 0 ==> r@ == name@,
{
    if name.is_empty() {
        "main.typ"
    } else {
        name
    }
}

/// A calendar date, for `datetime.today()`; the host supplies it, since the
/// engine has no clock of its own.
#[derive(Clone, Copy, Debug, PartialEq, Eq, Structural)]
pub struct Today {
    pub year: i32,
    pub month: u8,
    pub day: u8,
}

#[verifier::external_type_specification]
#[verifier::external_body]
pub struct ExSystemTime(std::time::SystemTime);

/// `SystemTime::now`: what the system clock reads. Nothing is promised of
/// it: it is the time.
#[verifier::external_body]
fn clock_now() -> std::time::SystemTime {
    std::time::SystemTime::now()
}

/// `SystemTime::duration_since` the Unix epoch: how long after the epoch a
/// reading is, or `None` for a reading before it. The reading is opaque here,
/// so nothing is promised of the result.
#[verifier::external_body]
fn since_epoch(reading: &std::time::SystemTime) -> Option<std::time::Duration> {
    reading.duration_since(std::time::UNIX_EPOCH).ok()
}

/// `Duration::as_secs`: the whole seconds of a duration. The duration is
/// opaque here, so nothing is promised of the result.
#[verifier::external_body]
fn whole_seconds(elapsed: &std::time::Duration) -> u64 {
    elapsed.as_secs()
}

/// `a` divided by a positive `b`, rounded down.
fn div_floor(a: i64, b: i64) -> (q: i64)
    requires
        b > 0,
    ensures
        q == (a as int) / (b as int),
{
    let q = a / b;
    let r = a % b;
    proof {
        if a >= 0 {
            assert(q == (a as int) / (b as int) && r == (a as int) % (b as int));
            vstd::arithmetic::div_mod::lemma_fundamental_div_mod(a as int, b as int);
            assert(q * b + r == a);
        } else {
            let x = (-(a as int)) / (b as int);
            let y = (-(a as int)) % (b as int);
            assert(q == -x && r == -y);
            vstd::arithmetic::div_mod::lemma_fundamental_div_mod(-(a as int), b as int);
            assert(q * b + r == a) by (nonlinear_arith)
                requires
                    q == -x,
                    r == -y,
                    -(a as int) == (b as int) * x + y,
            {
            }
        }
        assert(-b < r < b);
        assert(r < 0 ==> q > i64::MIN) by {
            if r < 0 && q == i64::MIN {
                assert(q * b <= i64::MIN) by (nonlinear_arith)
                    requires
                        q == i64::MIN,
                        b > 0,
                {
                }
            }
        }
    }
    if r < 0 {
        proof {
            assert((q - 1) * b + (r + b) == a) by (nonlinear_arith)
                requires
                    q * b + r == a,
            {
            }
            assert(0 <= r + b < b);
            vstd::arithmetic::div_mod::lemma_fundamental_div_mod_converse(a as int, b as int, q - 1, r + b);
        }
        q - 1
    } else {
        proof {
            assert(0 <= r < b);
            vstd::arithmetic::div_mod::lemma_fundamental_div_mod_converse(a as int, b as int, q as int, r as int);
        }
        q
    }
}

/// The proleptic Gregorian date `days` days after 1970-01-01, as year, month
/// and day: the era of 400 years the day falls in, the year of the era in a
/// calendar that starts in March (so that a leap day comes last), the day of
/// that year, and from it the month and day.
pub open spec fn civil_from_days(days: int) -> (int, int, int) {
    let z = days + 719468;
    let era = z / 146097;
    let doe = z - era * 146097;
    let yoe = (doe - doe / 1460 + doe / 36524 - doe / 146096) / 365;
    let y = yoe + era * 400;
    let doy = doe - (365 * yoe + yoe / 4 - yoe / 100);
    let mp = (5 * doy + 2) / 153;
    let d = doy - (153 * mp + 2) / 5 + 1;
    let m = if mp < 10 { mp + 3 } else { mp - 9 };
    (if m <= 2 { y + 1 } else { y }, m, d)
}

/// The number of days from 1970-01-01 to the proleptic Gregorian date
/// `y-m-d`: whole eras of 400 years at 146097 days each, then the years of
/// the era with a leap day every fourth year but the hundredth, then the
/// days of a year counted from March, so that a leap day comes last.
pub open spec fn days_from_civil(y: int, m: int, d: int) -> int {
    let yy = if m <= 2 { y - 1 } else { y };
    let era = yy / 400;
    let yoe = yy - era * 400;
    let mp = if m > 2 { m - 3 } else { m + 9 };
    let doy = (153 * mp + 2) / 5 + d - 1;
    let doe = yoe * 365 + yoe / 4 - yoe / 100 + doy;
    era * 146097 + doe - 719468
}

/// Whether `y` is a leap year of the proleptic Gregorian calendar.
pub open spec fn leap_year(y: int) -> bool {
    y % 4 == 0 && (y % 100 != 0 || y % 400 == 0)
}

/// How many days month `m` of year `y` has.
pub open spec fn month_length(y: int, m: int) -> int {
    if m == 2 {
        if leap_year(y) {
            29
        } else {
            28
        }
    } else if m == 4 || m == 6 || m == 9 || m == 11 {
        30
    } else {
        31
    }
}

/// The day of its era on which year `yr` of the era starts, the years
/// counted from March.
spec fn year_start(yr: int) -> int {
    365 * yr + yr / 4 - yr / 100
}

/// The year of the era that day `doe` of the era falls in.
spec fn year_of_era(doe: int) -> int {
    (doe - doe / 1460 + doe / 36524 - doe / 146096) / 365
}

/// The first day of each year of an era falls in that year.
proof fn lemma_year_start(yr: int)
    requires
        0 <= yr <= 399,
    ensures
        0 <= year_start(yr) < 146096,
        year_of_era(year_start(yr)) == yr,
{
    let a = yr / 100;
    let b = (yr % 100) / 4;
    let c = (yr % 100) % 4;
    assert(yr == 100 * a + 4 * b + c && 0 <= a <= 3 && 0 <= b <= 24 && 0 <= c <= 3) by {
        vstd::arithmetic::div_mod::lemma_fundamental_div_mod(yr, 100);
        vstd::arithmetic::div_mod::lemma_fundamental_div_mod(yr % 100, 4);
    }
    assert(yr / 4 == 25 * a + b) by {
        vstd::arithmetic::div_mod::lemma_fundamental_div_mod_converse(yr, 4, 25 * a + b, c);
    }
    let s = year_start(yr);
    assert(s == 365 * yr + 24 * a + b);
    assert(s == 1460 * (25 * a + b) + (365 * c + 24 * a + b)) by (nonlinear_arith)
        requires
            s == 365 * yr + 24 * a + b,
            yr == 100 * a + 4 * b + c,
    {
    }
    assert(s / 1460 == 25 * a + b) by {
        vstd::arithmetic::div_mod::lemma_fundamental_div_mod_converse(s, 1460, 25 * a + b, 365 * c + 24 * a + b);
    }
    assert(s == 36524 * a + (1460 * b + 365 * c + b)) by (nonlinear_arith)
        requires
            s == 365 * yr + 24 * a + b,
            yr == 100 * a + 4 * b + c,
    {
    }
    assert(s / 36524 == a) by {
        vstd::arithmetic::div_mod::lemma_fundamental_div_mod_converse(s, 36524, a, 1460 * b + 365 * c + b);
    }
    assert(0 <= s < 146096);
    assert(s / 146096 == 0) by {
        vstd::arithmetic::div_mod::lemma_fundamental_div_mod_converse(s, 146096, 0, s);
    }
    assert((365 * yr) / 365 == yr) by {
        vstd::arithmetic::div_mod::lemma_fundamental_div_mod_converse(365 * yr, 365, yr, 0);
    }
}

/// A year of an era after which no leap day comes is 365 days long.
proof fn lemma_year_length(yr: int)
    requires
        0 <= yr < 399,
        !((yr + 1) % 4 == 0 && (yr + 1) % 100 != 0),
    ensures
        year_start(yr + 1) == year_start(yr) + 365,
{
    vstd::arithmetic::div_mod::lemma_fundamental_div_mod(yr, 4);
    vstd::arithmetic::div_mod::lemma_fundamental_div_mod(yr, 100);
    vstd::arithmetic::div_mod::lemma_fundamental_div_mod(yr + 1, 4);
    vstd::arithmetic::div_mod::lemma_fundamental_div_mod(yr + 1, 100);
    if (yr + 1) % 4 == 0 {
        assert((yr + 1) % 100 == 0);
        assert((yr + 1) / 4 == yr / 4 + 1) by {
            vstd::arithmetic::div_mod::lemma_fundamental_div_mod_converse(yr, 4, (yr + 1) / 4 - 1, 3);
        }
        assert((yr + 1) / 100 == yr / 100 + 1) by {
            vstd::arithmetic::div_mod::lemma_fundamental_div_mod_converse(yr, 100, (yr + 1) / 100 - 1, 99);
        }
    } else {
        assert((yr + 1) / 4 == yr / 4) by {
            vstd::arithmetic::div_mod::lemma_fundamental_div_mod_converse(yr + 1, 4, yr / 4, yr % 4 + 1);
        }
        assert((yr + 1) % 100 != 0) by {
            if (yr + 1) % 100 == 0 {
                vstd::arithmetic::div_mod::lemma_fundamental_div_mod_converse(yr + 1, 4, 25 * ((yr + 1) / 100), 0);
            }
        }
        assert((yr + 1) / 100 == yr / 100) by {
            vstd::arithmetic::div_mod::lemma_fundamental_div_mod_converse(yr + 1, 100, yr / 100, yr % 100 + 1);
        }
    }
}

/// The date found for a day number is the date that counts to it, with its
/// month and day in range.
pub proof fn lemma_civil_days(n: int)
    ensures
        days_from_civil(civil_from_days(n).0, civil_from_days(n).1, civil_from_days(n).2) == n,
        1 <= civil_from_days(n).1 <= 12,
        1 <= civil_from_days(n).2 <= month_length(civil_from_days(n).0, civil_from_days(n).1),
{
    let z = n + 719468;
    let era = z / 146097;
    let doe = z - era * 146097;
    assert(0 <= doe < 146097) by {
        vstd::arithmetic::div_mod::lemma_fundamental_div_mod(z, 146097);
    }
    let yoe = (doe - doe / 1460 + doe / 36524 - doe / 146096) / 365;
    assert(0 <= yoe <= 399) by (nonlinear_arith)
        requires
            0 <= doe < 146097,
            yoe == (doe - doe / 1460 + doe / 36524 - doe / 146096) / 365,
    {
    }
    let y = yoe + era * 400;
    let doy = doe - (365 * yoe + yoe / 4 - yoe / 100);
    assert(0 <= doy <= 365) by (nonlinear_arith)
        requires
            0 <= doe < 146097,
            0 <= yoe <= 399,
            yoe == (doe - doe / 1460 + doe / 36524 - doe / 146096) / 365,
            doy == doe - (365 * yoe + yoe / 4 - yoe / 100),
    {
    }
    let mp = (5 * doy + 2) / 153;
    let d = doy - (153 * mp + 2) / 5 + 1;
    assert(0 <= mp <= 11);
    assert(1 <= d <= 31);
    let m = if mp < 10 { mp + 3 } else { mp - 9 };
    let c = civil_from_days(n);
    assert(c == (if m <= 2 { y + 1 } else { y }, m, d));
    let yy = if m <= 2 { c.0 - 1 } else { c.0 };
    assert(yy == y);
    assert(y / 400 == era) by {
        vstd::arithmetic::div_mod::lemma_fundamental_div_mod_converse(y, 400, era, yoe);
    }
    assert((if m > 2 { m - 3 } else { m + 9 }) == mp);
    // The month is as long as the gap to the next month's first day.
    assert(153 * mp <= 5 * doy + 2 < 153 * mp + 153) by {
        vstd::arithmetic::div_mod::lemma_fundamental_div_mod(5 * doy + 2, 153);
    }
    assert(mp == 0 || mp == 1 || mp == 2 || mp == 3 || mp == 4 || mp == 5 || mp == 6 || mp == 7 || mp
        == 8 || mp == 9 || mp == 10 || mp == 11);
    if mp == 11 {
        assert(d == doy - 336);
        if doy == 365 {
            assert(yoe == year_of_era(doe));
            assert(doe == year_start(yoe) + 365);
            if yoe < 399 && !((yoe + 1) % 4 == 0 && (yoe + 1) % 100 != 0) {
                lemma_year_length(yoe);
                lemma_year_start(yoe + 1);
                assert(false);
            }
            let yr = c.0;
            assert(yr == era * 400 + yoe + 1);
            if yoe == 399 {
                vstd::arithmetic::div_mod::lemma_fundamental_div_mod_converse(yr, 400, era + 1, 0);
                vstd::arithmetic::div_mod::lemma_fundamental_div_mod_converse(yr, 4, 100 * era + 100, 0);
            } else {
                vstd::arithmetic::div_mod::lemma_fundamental_div_mod(yoe + 1, 4);
                vstd::arithmetic::div_mod::lemma_fundamental_div_mod(yoe + 1, 100);
                vstd::arithmetic::div_mod::lemma_fundamental_div_mod_converse(
                    yr,
                    4,
                    100 * era + (yoe + 1) / 4,
                    (yoe + 1) % 4,
                );
                vstd::arithmetic::div_mod::lemma_fundamental_div_mod_converse(
                    yr,
                    100,
                    4 * era + (yoe + 1) / 100,
                    (yoe + 1) % 100,
                );
            }
            assert(leap_year(yr));
        }
    }
}

impl Today {
    /// The UTC date `seconds` after the Unix epoch. The year is kept as an
    /// `i32`, as typst's dates are.
    #[verifier::spinoff_prover]
    #[verifier::rlimit(40)]
    pub fn from_unix_seconds(seconds: i64) -> (r: Today)
        ensures
            r.year == civil_from_days(seconds as int / 86400).0 as i32,
            r.month == civil_from_days(seconds as int / 86400).1,
            r.day == civil_from_days(seconds as int / 86400).2,
            1 <= r.month <= 12,
            1 <= r.day <= month_length(civil_from_days(seconds as int / 86400).0, r.month as int),
            days_from_civil(civil_from_days(seconds as int / 86400).0, r.month as int, r.day as int)
                == seconds as int / 86400,
    {
        let days = div_floor(seconds, 86_400);
        proof {
            lemma_civil_days(days as int);
        }
        let z = days + 719_468;
        let era = div_floor(z, 146_097);
        let doe = z - era * 146_097;
        proof {
            assert(0 <= doe < 146_097);
        }
        let yoe = (doe - doe / 1460 + doe / 36_524 - doe / 146_096) / 365;
        proof {
            assert(0 <= yoe <= 399) by (nonlinear_arith)
                requires
                    0 <= doe < 146_097,
                    yoe == (doe - doe / 1460 + doe / 36_524 - doe / 146_096) / 365,
            {
            }
        }
        let y = yoe + era * 400;
        let doy = doe - (365 * yoe + yoe / 4 - yoe / 100);
        proof {
            assert(0 <= doy <= 365) by (nonlinear_arith)
                requires
                    0 <= doe < 146_097,
                    0 <= yoe <= 399,
                    yoe == (doe - doe / 1460 + doe / 36_524 - doe / 146_096) / 365,
                    doy == doe - (365 * yoe + yoe / 4 - yoe / 100),
            {
            }
        }
        let mp = (5 * doy + 2) / 153;
        let dd = doy - (153 * mp + 2) / 5 + 1;
        proof {
            assert(0 <= mp <= 11);
            assert(1 <= dd <= 31);
        }
        let d = dd as u8;
        let m = if mp < 10 {
            mp + 3
        } else {
            mp - 9
        } as u8;
        let year = if m <= 2 {
            y + 1
        } else {
            y
        };
        Today { year: year as i32, month: m, day: d }
    }

    /// Today's date in UTC, from the system clock, or `None` when the clock
    /// reads before 1970.
    pub fn now() -> (r: Option<Today>)
        ensures
            r matches Some(t) ==> 1 <= t.month <= 12 && 1 <= t.day <= 31,
            r matches Some(t) ==> exists|days: int|
                {
                    &&& t.year == civil_from_days(days).0 as i32
                    &&& t.month == civil_from_days(days).1
                    &&& t.day == civil_from_days(days).2
                    &&& t.day <= month_length(civil_from_days(days).0, t.month as int)
                },
    {
        let reading = clock_now();
        let elapsed = since_epoch(&reading)?;
        let seconds = whole_seconds(&elapsed);
        Some(Today::from_unix_seconds(seconds as i64))
    }
}

/// A character that ends a line for typst: line feed, vertical tab, form
/// feed, carriage return, next line, line separator, paragraph separator.
pub open spec fn newline(c: char) -> bool {
    c == '\n' || c == '\x0B' || c == '\x0C' || c == '\r' || c == '\u{85}' || c == '\u{2028}' || c == '\u{2029}'
}

/// A line ends after character `k`: it is a newline, and not the `\r` of a
/// `\r\n`, which ends one line together.
pub open spec fn breaks_after(text: Seq<char>, k: int) -> bool {
    newline(text[k]) && !(text[k] == '\r' && k + 1 < text.len() && text[k + 1] == '\n')
}

/// The byte offsets at which the lines among the first `n` characters
/// start: the first at 0, and one just after each break.
pub open spec fn starts_upto(text: Seq<char>, n: int) -> Seq<int>
    decreases n,
{
    if n <= 0 {
        seq![0]
    } else {
        let s = starts_upto(text, n - 1);
        if breaks_after(text, n - 1) {
            s.push(byte_offset(text, n) as int)
        } else {
            s
        }
    }
}

/// The byte offsets at which the lines of `text` start.
pub open spec fn line_starts(text: Seq<char>) -> Seq<int> {
    starts_upto(text, text.len() as int)
}

/// Line `i` of `text` holds byte `b`: it starts at or before `b`, and the
/// next line, if any, after it.
pub open spec fn line_holds(text: Seq<char>, b: int, i: int) -> bool {
    let starts = line_starts(text);
    &&& 0 <= i < starts.len()
    &&& starts[i] <= b
    &&& i + 1 < starts.len() ==> b < starts[i + 1]
}

/// `Lines::byte_to_line`, over the lines of `text`: the line a byte offset
/// falls in, or `None` past the end of the text.
#[verifier::external_body]
fn line_of_byte(text: &str, byte: usize) -> (r: Option<usize>)
    ensures
        match r {
            None => byte > encode_utf8(text@).len(),
            Some(i) => byte <= encode_utf8(text@).len() && line_holds(text@, byte as int, i as int),
        },
{
    ::typst::syntax::Lines::new(text).byte_to_line(byte)
}

/// `Lines::line_to_byte`, over the lines of `text`: the byte offset at
/// which line `line` starts, or `None` when there is no such line.
#[verifier::external_body]
fn line_start(text: &str, line: usize) -> (r: Option<usize>)
    ensures
        r == (if line < line_starts(text@).len() {
            Some(line_starts(text@)[line as int] as usize)
        } else {
            None
        }),
{
    ::typst::syntax::Lines::new(text).line_to_byte(line)
}

/// Line starts rise, each at least one byte after the one before, and all
/// lie within the text.
proof fn lemma_starts(text: Seq<char>, n: int)
    requires
        0 <= n <= text.len(),
    ensures
        starts_upto(text, n).len() >= 1,
        starts_upto(text, n)[0] == 0,
        forall|i: int| 0 <= i < starts_upto(text, n).len() ==> i <= #[trigger] starts_upto(text, n)[i] <= byte_offset(text, n),
        forall|i: int, j: int|
            0 <= i < j < starts_upto(text, n).len() ==> #[trigger] starts_upto(text, n)[i] < #[trigger] starts_upto(text, n)[j],
    decreases n,
{
    if n > 0 {
        lemma_starts(text, n - 1);
        lemma_byte_offset_step(text, n - 1);
        let s = starts_upto(text, n - 1);
        assert(s[s.len() - 1] <= byte_offset(text, n - 1));
        if breaks_after(text, n - 1) {
            let t = s.push(byte_offset(text, n) as int);
            assert forall|i: int| 0 <= i < t.len() implies i <= #[trigger] t[i] <= byte_offset(text, n) by {
                if i < s.len() {
                    assert(t[i] == s[i]);
                } else {
                    assert(s[s.len() - 1] >= s.len() - 1);
                }
            }
        }
    }
}

/// A byte offset that some character boundary has.
pub open spec fn at_boundary(text: Seq<char>, b: int) -> bool {
    exists|k: int| 0 <= k <= text.len() && byte_offset(text, k) == b
}

/// The character index whose byte offset is `b`.
pub open spec fn char_index(text: Seq<char>, b: int) -> int {
    choose|k: int| 0 <= k <= text.len() && byte_offset(text, k) == b
}

/// The UTF-16 units of `text` between byte offsets `lo` and `hi`, when both
/// fall on character boundaries with `lo` first; none otherwise.
pub open spec fn units_between(text: Seq<char>, lo: int, hi: int) -> int {
    if at_boundary(text, lo) && at_boundary(text, hi) && lo <= hi {
        utf16_len(text.subrange(char_index(text, lo), char_index(text, hi))) as int
    } else {
        0
    }
}

/// Only one character index has a given byte offset.
proof fn lemma_char_index(text: Seq<char>, b: int, k: int)
    requires
        0 <= k <= text.len(),
        byte_offset(text, k) == b,
    ensures
        at_boundary(text, b),
        char_index(text, b) == k,
{
    let c = char_index(text, b);
    if c < k {
        lemma_byte_offset_mono(text, c, k);
    } else if k < c {
        lemma_byte_offset_mono(text, k, c);
    }
}

/// The UTF-16 units of `text` between byte offsets `lo` and `hi`, the way
/// `str::get` slices: nothing unless both are character boundaries with `lo`
/// first.
#[verifier::spinoff_prover]
#[verifier::rlimit(40)]
fn units_in(text: &str, lo: usize, hi: usize) -> (r: usize)
    ensures
        r == units_between(text@, lo as int, hi as int),
{
    let cs = chars_of(text);
    let ghost s = text@;
    crate::chars::utf16_fits(text);
    let nbytes = text.as_bytes().len();
    proof {
        assert(nbytes == encode_utf8(s).len());
    }
    let mut byte: usize = 0;
    let mut i: usize = 0;
    let mut lo_at: Option<usize> = None;
    let mut hi_at: Option<usize> = None;
    proof {
        assert(s.take(0) =~= Seq::<char>::empty());
        assert(byte_offset(s, 0) == 0);
    }
    loop
        invariant_except_break
            match lo_at {
                Some(a) => a < i && byte_offset(s, a as int) == lo,
                None => forall|k: int| 0 <= k < i ==> byte_offset(s, k) != lo,
            },
            match hi_at {
                Some(a) => a < i && byte_offset(s, a as int) == hi,
                None => forall|k: int| 0 <= k < i ==> byte_offset(s, k) != hi,
            },
        invariant
            cs@ == s,
            i <= cs@.len(),
            nbytes == encode_utf8(s).len(),
            byte == byte_offset(s, i as int),
        ensures
            i == cs@.len(),
            match lo_at {
                Some(a) => a <= i && byte_offset(s, a as int) == lo,
                None => forall|k: int| 0 <= k <= i ==> byte_offset(s, k) != lo,
            },
            match hi_at {
                Some(a) => a <= i && byte_offset(s, a as int) == hi,
                None => forall|k: int| 0 <= k <= i ==> byte_offset(s, k) != hi,
            },
        decreases cs@.len() - i,
    {
        if byte == lo {
            lo_at = Some(i);
        }
        if byte == hi {
            hi_at = Some(i);
        }
        if i == cs.len() {
            break;
        }
        proof {
            lemma_byte_offset_step(s, i as int);
        }
        byte = byte + char_len_utf8(cs[i]);
        i = i + 1;
    }
    match (lo_at, hi_at) {
        (Some(a), Some(b)) => {
            proof {
                lemma_char_index(s, lo as int, a as int);
                lemma_char_index(s, hi as int, b as int);
                if a <= b {
                    lemma_byte_offset_mono(s, a as int, b as int);
                } else {
                    lemma_byte_offset_mono(s, b as int, a as int);
                }
            }
            if a <= b {
                let mut n: usize = 0;
                let mut k: usize = a;
                while k < b
                    invariant
                        a <= k <= b <= cs@.len(),
                        cs@ == s,
                        utf16_len(s) <= usize::MAX,
                        n == utf16_len(s.subrange(a as int, k as int)),
                    decreases b - k,
                {
                    proof {
                        assert(s.subrange(a as int, k + 1).drop_last() =~= s.subrange(a as int, k as int));
                        assert(s =~= s.take(a as int) + s.subrange(a as int, k + 1) + s.skip(k + 1));
                        lemma_utf16_concat(s.take(a as int) + s.subrange(a as int, k + 1), s.skip(k + 1));
                        lemma_utf16_concat(s.take(a as int), s.subrange(a as int, k + 1));
                    }
                    n = n + char_len_utf16(cs[k]);
                    k = k + 1;
                }
                n
            } else {
                0
            }
        },
        _ => {
            proof {
                if at_boundary(s, lo as int) && at_boundary(s, hi as int) {
                    let x = char_index(s, lo as int);
                    let y = char_index(s, hi as int);
                    assert(byte_offset(s, x) == lo && byte_offset(s, y) == hi);
                }
            }
            0
        },
    }
}

/// Where byte `b` of `text` is, as a one-based line and column: the line
/// that holds it, and one more than the UTF-16 units from that line's start
/// up to it; `(0, 0)` past the end of the text.
pub open spec fn placed(text: Seq<char>, b: int) -> (int, int) {
    if b > encode_utf8(text).len() {
        (0, 0)
    } else {
        let i = choose|i: int| line_holds(text, b, i);
        (i + 1, units_between(text, line_starts(text)[i], b) + 1)
    }
}

/// Only one line holds a byte.
proof fn lemma_line_unique(text: Seq<char>, b: int, i: int, j: int)
    requires
        line_holds(text, b, i),
        line_holds(text, b, j),
    ensures
        i == j,
{
    lemma_starts(text, text.len() as int);
    let starts = line_starts(text);
    if i < j {
        if i + 1 < j {
            assert(starts[i + 1] < starts[j]);
        }
    } else if j < i {
        if j + 1 < i {
            assert(starts[j + 1] < starts[i]);
        }
    }
}

/// A byte offset as a one-based line and column, the column counted in
/// UTF-16 code units because that is what the editor on the other side
/// counts in. A byte past the end of the text is `(0, 0)`; one inside a
/// character starts its line's count over, at column 1.
#[verifier::spinoff_prover]
#[verifier::rlimit(40)]
pub fn place(text: &str, byte: usize) -> (r: (usize, usize))
    requires
        encode_utf8(text@).len() < usize::MAX,
    ensures
        r.0 == placed(text@, byte as int).0,
        r.1 == placed(text@, byte as int).1,
{
    let line = match line_of_byte(text, byte) {
        Some(line) => line,
        None => return (0, 0),
    };
    let start = match line_start(text, line) {
        Some(start) => start,
        None => byte,
    };
    proof {
        lemma_starts(text@, text@.len() as int);
        assert(text@.take(text@.len() as int) =~= text@);
        assert(line_holds(text@, byte as int, line as int));
        let starts = line_starts(text@);
        assert(line <= starts[line as int]);
        lemma_byte_offset_mono(text@, 0, text@.len() as int);
        crate::chars::lemma_utf16_within_utf8(text@);
    }
    let units = units_in(text, start, byte);
    proof {
        if at_boundary(text@, start as int) && at_boundary(text@, byte as int) && start <= byte {
            let x = char_index(text@, start as int);
            let y = char_index(text@, byte as int);
            if y < x {
                lemma_byte_offset_mono(text@, y, x);
            }
            assert(text@ =~= text@.take(x) + text@.subrange(x, y) + text@.skip(y));
            lemma_utf16_concat(text@.take(x) + text@.subrange(x, y), text@.skip(y));
            lemma_utf16_concat(text@.take(x), text@.subrange(x, y));
        }
        let i = choose|i: int| line_holds(text@, byte as int, i);
        lemma_line_unique(text@, byte as int, i, line as int);
    }
    (line + 1, units + 1)
}

#[verifier::external_type_specification]
#[verifier::external_body]
pub struct ExPath(std::path::Path);

/// A world with nothing to read but the document: what the browser compiles
/// in, and the right default for a single-file document anywhere.
pub fn no_files(_path: &std::path::Path) -> (r: Option<Vec<u8>>)
    ensures
        r is None,
{
    None
}

/// The one error a compile with nothing to show and nothing to say reports.
pub open spec fn is_fallback(d: Diagnostic) -> bool {
    &&& d.severity == Severity::Error
    &&& d.message@ == "typst could not compile this"@
    &&& d.hints@.len() == 0
    &&& d.file@.len() == 0
    &&& d.line == 0 && d.column == 0 && d.end_line == 0 && d.end_column == 0
}

/// A compile's result from its output and what the compiler said: errors
/// first -- a list read top to bottom, and a badge that jumps to the first
/// thing worth looking at -- each group in the order the compiler gave it.
/// A compile with no output and no error says so with an error of its own.
#[verifier::spinoff_prover]
#[verifier::rlimit(40)]
pub fn settle(output: Option<RenderedDocument>, diagnostics: Vec<Diagnostic>) -> (r: Compiled)
    ensures
        r.output == output,
        r.diagnostics@.take(errors_of(diagnostics@).len() + warnings_of(diagnostics@).len() as int)
            == errors_of(diagnostics@) + warnings_of(diagnostics@),
        r.diagnostics@.len() == errors_of(diagnostics@).len() + warnings_of(diagnostics@).len() + (if output is None
            && errors_of(diagnostics@).len() == 0 {
            1int
        } else {
            0int
        }),
        output is None && errors_of(diagnostics@).len() == 0 ==> is_fallback(r.diagnostics@.last()),
        r.output is None ==> exists|i: int|
            0 <= i < r.diagnostics@.len() && (#[trigger] r.diagnostics@[i]).severity == Severity::Error,
{
    let ghost ds = diagnostics@;
    let mut rest = diagnostics;
    let mut errors: Vec<Diagnostic> = Vec::new();
    let mut warnings: Vec<Diagnostic> = Vec::new();
    let ghost mut c: int = 0;
    proof {
        assert(ds.take(0) =~= Seq::<Diagnostic>::empty());
        assert(ds.skip(0) =~= ds);
    }
    while rest.len() > 0
        invariant
            0 <= c <= ds.len(),
            rest@ == ds.skip(c),
            errors@ == errors_of(ds.take(c)),
            warnings@ == warnings_of(ds.take(c)),
        decreases rest@.len(),
    {
        let d = rest.remove(0);
        proof {
            assert(d == ds[c]);
            assert(rest@ =~= ds.skip(c + 1));
            assert(ds.take(c + 1).drop_last() =~= ds.take(c));
            assert(ds.take(c + 1).last() == ds[c]);
        }
        if d.is_error() {
            errors.push(d);
        } else {
            warnings.push(d);
        }
        proof {
            c = c + 1;
        }
    }
    proof {
        assert(ds.take(c) =~= ds);
    }
    let no_error = errors.len() == 0;
    let mut out = errors;
    let ghost firsts = out@;
    let mut w = warnings;
    out.append(&mut w);
    proof {
        assert(out@ == firsts + warnings_of(ds));
    }
    if output.is_none() && no_error {
        let fallback = Diagnostic::spanless(Severity::Error, "typst could not compile this");
        let ghost before = out@;
        out.push(fallback);
        proof {
            assert(out@.take(before.len() as int) =~= before);
            assert(out@[before.len() as int].severity == Severity::Error);
        }
    } else {
        proof {
            assert(out@.take(out@.len() as int) =~= out@);
            if output is None {
                lemma_errors_are_errors(ds);
                assert(out@[0] == firsts[0]);
                assert(out@[0].severity == Severity::Error);
            }
        }
    }
    Compiled { output, diagnostics: out }
}

/// A diagnostic the way every host reads it, from what the compiler said:
/// its severity and message; its hints, then where in the call trace it was
/// reached from, which is a hint about the same diagnostic rather than a
/// structure of its own; the file it names, empty for the document itself;
/// and, when its span lies in a source the world could read, that source's
/// text with the span's byte range, placed as `place` places them.
#[verifier::spinoff_prover]
#[verifier::rlimit(40)]
pub fn diagnostic_from(
    severity: Severity,
    message: String,
    hints: Vec<String>,
    trace: Vec<String>,
    file: String,
    located: Option<(&str, usize, usize)>,
) -> (r: Diagnostic)
    requires
        located matches Some(l) ==> encode_utf8(l.0@).len() < usize::MAX,
    ensures
        r.severity == severity,
        r.message == message,
        r.file == file,
        r.hints@.len() == hints@.len() + trace@.len(),
        forall|i: int| 0 <= i < hints@.len() ==> (#[trigger] r.hints@[i])@ == hints@[i]@,
        forall|j: int|
            0 <= j < trace@.len() ==> (#[trigger] r.hints@[hints@.len() + j])@ == "error occurred "@ + trace@[j]@,
        match located {
            None => r.line == 0 && r.column == 0 && r.end_line == 0 && r.end_column == 0,
            Some((text, start, end)) => r.line == placed(text@, start as int).0 && r.column == placed(
                text@,
                start as int,
            ).1 && r.end_line == placed(text@, end as int).0 && r.end_column == placed(text@, end as int).1,
        },
{
    let mut all = hints;
    let ghost first = all@;
    let mut j: usize = 0;
    while j < trace.len()
        invariant
            j <= trace@.len(),
            all@.len() == first.len() + j,
            forall|i: int| 0 <= i < first.len() ==> #[trigger] all@[i] == first[i],
            forall|k: int|
                0 <= k < j ==> (#[trigger] all@[first.len() + k])@ == "error occurred "@ + trace@[k]@,
        decreases trace@.len() - j,
    {
        let mut line = String::new();
        crate::strings::push_str(&mut line, "error occurred ");
        crate::strings::push_str(&mut line, trace[j].as_str());
        let ghost before = all@;
        all.push(line);
        proof {
            assert(all@[first.len() + j] == line);
            assert forall|k: int| 0 <= k < j implies (#[trigger] all@[first.len() + k])@ == "error occurred "@
                + trace@[k]@ by {
                assert(all@[first.len() + k] == before[first.len() + k]);
            }
        }
        j = j + 1;
    }
    let mut described = Diagnostic {
        severity,
        message,
        hints: all,
        file,
        line: 0,
        column: 0,
        end_line: 0,
        end_column: 0,
    };
    match located {
        Some((text, start, end)) => {
            let (line, column) = place(text, start);
            let (end_line, end_column) = place(text, end);
            described.line = line;
            described.column = column;
            described.end_line = end_line;
            described.end_column = end_column;
        },
        None => {},
    }
    described
}

} // verus!
