use wasm_typst::diagnostic::{Diagnostic, RenderedDocument, Severity};
use wasm_typst::typst::{diagnostic_from, document_name, is_typst, no_files, place, settle, title_of, Today, VERSION};

#[test]
fn titles_and_names() {
    assert_eq!(title_of("== Sub\n= The Title\n"), "The Title");
    assert!(is_typst("paper.TYP"));
    assert!(!is_typst("paper.md"));
}

#[test]
fn only_the_typ_extension_is_typst() {
    assert!(is_typst("a.typ"));
    assert!(is_typst("Notes.Typ"));
    assert!(!is_typst("typ"));
    assert!(!is_typst("a.typst"));
    assert!(!is_typst(""));
}

#[test]
fn a_title_is_empty_without_a_level_one_heading() {
    assert_eq!(title_of("== Only a subsection\n"), "");
    assert_eq!(title_of("=Tight\n"), "");
}

#[test]
fn the_version_is_the_pinned_compiler() {
    assert_eq!(VERSION, "0.15");
}

#[test]
fn a_world_without_files_finds_nothing() {
    assert_eq!(no_files(std::path::Path::new("lib.typ")), None);
}

#[test]
fn the_epoch_is_the_first_of_january_1970() {
    assert_eq!(Today::from_unix_seconds(0), Today { year: 1970, month: 1, day: 1 });
    assert_eq!(Today::from_unix_seconds(86_399), Today { year: 1970, month: 1, day: 1 });
    assert_eq!(Today::from_unix_seconds(86_400), Today { year: 1970, month: 1, day: 2 });
}

#[test]
fn dates_count_leap_days() {
    assert_eq!(Today::from_unix_seconds(951_782_400), Today { year: 2000, month: 2, day: 29 });
    assert_eq!(Today::from_unix_seconds(951_868_800), Today { year: 2000, month: 3, day: 1 });
    assert_eq!(Today::from_unix_seconds(1_700_000_000), Today { year: 2023, month: 11, day: 14 });
    assert_eq!(Today::from_unix_seconds(4_107_542_400), Today { year: 2100, month: 3, day: 1 });
}

#[test]
fn seconds_before_the_epoch_fall_on_earlier_days() {
    assert_eq!(Today::from_unix_seconds(-1), Today { year: 1969, month: 12, day: 31 });
    assert_eq!(Today::from_unix_seconds(-86_400), Today { year: 1969, month: 12, day: 31 });
}

#[test]
fn the_clock_gives_a_plausible_date() {
    let today = Today::now().expect("the clock reads after 1970");
    assert!(today.year >= 2024);
    assert!((1..=12).contains(&today.month));
    assert!((1..=31).contains(&today.day));
}

#[test]
fn columns_count_utf16_units() {
    // The emoji is four bytes, two UTF-16 units: `$` is at byte 10, column 4.
    assert_eq!(place("= T\n\n🙂 $x\n", 10), (3, 4));
}

#[test]
fn a_byte_past_the_end_has_no_place() {
    assert_eq!(place("abc", 4), (0, 0));
    assert_eq!(place("abc", 3), (1, 4));
    assert_eq!(place("", 0), (1, 1));
}

#[test]
fn a_crlf_ends_one_line() {
    assert_eq!(place("a\r\nb", 3), (2, 1));
    assert_eq!(place("a\rb", 2), (2, 1));
    assert_eq!(place("a\u{2028}b", 4), (2, 1));
}

#[test]
fn a_byte_inside_a_character_starts_its_column_count_over() {
    assert_eq!(place("🙂x", 2), (1, 1));
}

#[test]
fn errors_come_first_and_keep_their_order() {
    let warning = Diagnostic::spanless(Severity::Warning, "w");
    let first = Diagnostic::spanless(Severity::Error, "e1");
    let second = Diagnostic::spanless(Severity::Error, "e2");
    let compiled = settle(None, vec![warning.clone(), first.clone(), second.clone()]);
    assert_eq!(compiled.diagnostics, vec![first, second, warning]);
    assert!(compiled.output.is_none());
}

#[test]
fn a_failed_compile_with_nothing_to_say_says_so() {
    let warning = Diagnostic::spanless(Severity::Warning, "unknown font family");
    let compiled = settle(None, vec![warning.clone()]);
    assert_eq!(compiled.diagnostics.len(), 2);
    assert_eq!(compiled.diagnostics[0], warning);
    assert_eq!(
        compiled.diagnostics[1],
        Diagnostic::spanless(Severity::Error, "typst could not compile this")
    );
}

#[test]
fn a_document_with_warnings_keeps_them_beside_it() {
    let warning = Diagnostic::spanless(Severity::Warning, "w");
    let compiled = settle(Some(RenderedDocument::Pdf(b"%PDF".to_vec())), vec![warning.clone()]);
    assert_eq!(compiled.diagnostics, vec![warning]);
    assert_eq!(compiled.output.unwrap().pdf(), Some(b"%PDF".as_slice()));
}

#[test]
fn a_diagnostic_carries_its_trace_as_hints() {
    let d = diagnostic_from(
        Severity::Error,
        "unknown variable".to_string(),
        vec!["try `let`".to_string()],
        vec!["in this call of function `f`".to_string()],
        "lib.typ".to_string(),
        Some(("#let x = 1\n#y\n", 12, 13)),
    );
    assert_eq!(d.hints, vec!["try `let`", "error occurred in this call of function `f`"]);
    assert_eq!(d.file, "lib.typ");
    assert_eq!((d.line, d.column, d.end_line, d.end_column), (2, 2, 2, 3));
    assert_eq!(d.message, "unknown variable");
}

#[test]
fn a_diagnostic_without_a_span_has_no_place() {
    let d = diagnostic_from(Severity::Warning, "w".to_string(), vec![], vec![], String::new(), None);
    assert_eq!((d.line, d.column, d.end_line, d.end_column), (0, 0, 0, 0));
    assert!(d.hints.is_empty());
}

#[test]
fn every_day_falls_inside_its_month() {
    fn length(year: i32, month: u8) -> u8 {
        let leap = year % 4 == 0 && (year % 100 != 0 || year % 400 == 0);
        match month {
            2 if leap => 29,
            2 => 28,
            4 | 6 | 9 | 11 => 30,
            _ => 31,
        }
    }
    // From 1896-01-01 across the century turns of 1900, 2000 and 2100.
    let first: i64 = -2_335_219_200 / 86_400;
    let mut previous = Today::from_unix_seconds(first * 86_400);
    assert_eq!(previous, Today { year: 1896, month: 1, day: 1 });
    for days in first + 1..first + 80_000 {
        let today = Today::from_unix_seconds(days * 86_400);
        assert!(today.day >= 1 && today.day <= length(today.year, today.month), "{today:?}");
        if today.day == 1 {
            assert_eq!(previous.day, length(previous.year, previous.month), "{previous:?}");
        } else {
            assert_eq!((today.year, today.month, today.day - 1), (previous.year, previous.month, previous.day));
        }
        previous = today;
    }
}

#[test]
fn a_document_without_a_name_is_main() {
    assert_eq!(document_name(""), "main.typ");
    assert_eq!(document_name("paper.typ"), "paper.typ");
}
