use wasm_typst::diagnostic::{diagnostics_page, quote, Compiled, Diagnostic, RenderedDocument, Severity};

#[test]
fn a_diagnostic_prints_where_it_is() {
    let diagnostic = Diagnostic {
        severity: Severity::Error,
        message: "unclosed delimiter".into(),
        hints: vec!["expected `$`".into()],
        file: String::new(),
        line: 12,
        column: 7,
        end_line: 12,
        end_column: 8,
    };
    assert_eq!(
        diagnostic.to_line("paper.typ"),
        "paper.typ:12:7: error: unclosed delimiter"
    );
    let spanless = Diagnostic::spanless(Severity::Error, "no math font found");
    assert_eq!(spanless.to_line("paper.typ"), "error: no math font found");
}

#[test]
fn the_list_is_json_a_browser_can_read() {
    let compiled = Compiled {
        output: None,
        diagnostics: vec![Diagnostic {
            message: "say \"what\"\n".into(),
            line: 3,
            column: 1,
            ..Diagnostic::default()
        }],
    };
    let json = compiled.diagnostics_json();
    assert!(json.starts_with("[{"), "{json}");
    assert!(json.contains("\\\"what\\\"\\n"), "{json}");
    assert!(json.contains("\"line\":3"), "{json}");
    assert_eq!(Compiled::page("<p>x</p>".into()).diagnostics_json(), "[]");
    assert_eq!(
        Compiled::pdf(b"%PDF".to_vec()).output.unwrap().pdf(),
        Some(b"%PDF".as_slice())
    );
}

#[test]
fn a_page_stands_in_for_the_document_that_did_not_compile() {
    let page = diagnostics_page(
        &[Diagnostic {
            message: "unclosed delimiter".into(),
            hints: vec!["expected `$`".into()],
            line: 12,
            column: 7,
            ..Diagnostic::default()
        }],
        "paper",
    );
    assert!(page.starts_with("<!doctype html>"));
    assert!(page.contains("does not compile"));
    assert!(page.contains("line 12, column 7"));
    assert!(page.contains("expected `$`"));
}

#[test]
fn a_quoted_text_holds_no_control_character() {
    let q = quote("a\"b\\c\n\u{1}");
    assert_eq!(q, r#""a\"b\\c\n\u0001""#);
    assert!(q.starts_with('"') && q.ends_with('"'));
    assert!(q.chars().all(|c| c as u32 >= 0x20));
}

#[test]
fn mapping_the_html_keeps_a_pdf_and_the_diagnostics() {
    let warned = vec![Diagnostic::spanless(Severity::Warning, "w")];
    let html = Compiled { output: Some(RenderedDocument::Html("<p>x</p>".into())), diagnostics: warned.clone() };
    let by_page = html.clone().map_page(|h| format!("<main>{h}</main>"));
    let by_html = html.map_html(|h| format!("<main>{h}</main>"));
    assert_eq!(by_page.output, by_html.output);
    assert_eq!(by_page.diagnostics, by_html.diagnostics);
    assert_eq!(by_html.output, Some(RenderedDocument::Html("<main><p>x</p></main>".into())));
    assert_eq!(by_html.diagnostics, warned);
    let pdf = Compiled { output: Some(RenderedDocument::Pdf(b"%PDF-1.7".to_vec())), diagnostics: vec![] };
    let kept = pdf.map_html(|_| unreachable!("a PDF is not mapped"));
    assert_eq!(kept.output, Some(RenderedDocument::Pdf(b"%PDF-1.7".to_vec())));
}
