use wasm_typst::page::{escape, first_heading, page};

#[test]
fn a_page_is_whole_and_self_contained() {
    let out = page("A & B", "", "<p>x</p>");
    assert!(out.starts_with("<!doctype html>"));
    assert!(out.contains("<title>A &amp; B</title>"));
    assert!(out.contains("max-width: 46rem"));
    assert!(!out.contains("<script"));
    assert!(!out.contains("<link rel=\"stylesheet\""));
}

#[test]
fn the_first_level_one_heading_names_a_document() {
    assert_eq!(
        first_heading("intro\n\n# The Title\n\nbody\n\n# Later\n", '#'),
        "The Title"
    );
    assert_eq!(first_heading("## not level one\n", '#'), "");
    assert_eq!(first_heading("no headings here", '#'), "");
    assert_eq!(first_heading("= Notes\n", '='), "Notes");
    assert_eq!(first_heading("== Sub\n= Top\n", '='), "Top");
}

#[test]
fn escaping_names_each_special_character_and_nothing_else() {
    assert_eq!(escape("A & <b> \"q\" 'x'"), "A &amp; &lt;b&gt; &#34;q&#34; &#39;x&#39;");
    assert_eq!(escape("plain words, 🙂"), "plain words, 🙂");
}
