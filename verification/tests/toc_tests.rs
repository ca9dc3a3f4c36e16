use wander::toc::{headings, Heading};

fn h(level: u8, text: &str, anchor: Option<&str>) -> Heading {
    Heading {
        level,
        text: text.to_string(),
        anchor: anchor.map(str::to_string),
    }
}

#[test]
fn reads_headings_in_document_order() {
    let html = "<h1>One</h1><p>x</p><h2>Two</h2><h3>Three</h3>";
    assert_eq!(
        headings(html),
        vec![h(1, "One", None), h(2, "Two", None), h(3, "Three", None)]
    );
}

#[test]
fn every_level_is_recognised_and_nothing_else_is() {
    for level in 1..=6u8 {
        let html = format!("<h{level}>T</h{level}>");
        assert_eq!(headings(&html), vec![h(level, "T", None)]);
    }
    assert!(headings("<h0>T</h0>").is_empty());
    assert!(headings("<h7>T</h7>").is_empty());
    assert!(headings("<h2x>T</h2x>").is_empty());
    assert!(headings("<header>T</header>").is_empty());
}

#[test]
fn tag_case_does_not_matter() {
    assert_eq!(
        headings("<H2 ID=\"a\">Text</H2>"),
        vec![h(2, "Text", Some("a"))]
    );
}

#[test]
fn an_id_on_the_heading_is_the_anchor() {
    assert_eq!(
        headings(r#"<h2 id="History">History</h2>"#),
        vec![h(2, "History", Some("History"))]
    );
}

#[test]
fn a_mediawiki_headline_span_supplies_the_anchor() {
    let html = r#"<h2><span class="mw-headline" id="Early_life">Early life</span></h2>"#;
    assert_eq!(headings(html), vec![h(2, "Early life", Some("Early_life"))]);
}

#[test]
fn edit_links_are_not_part_of_the_title() {
    let html = r#"<h2><span class="mw-editsection">[<a href="/edit">edit</a>]</span><span class="mw-headline" id="History">History</span></h2>"#;
    assert_eq!(headings(html), vec![h(2, "History", Some("History"))]);
}

#[test]
fn nested_markup_is_reduced_to_its_text() {
    let html = "<h2>A <i>very</i> <b>bold</b> claim</h2>";
    assert_eq!(headings(html), vec![h(2, "A very bold claim", None)]);
}

#[test]
fn entities_are_decoded() {
    let html = "<h2>Arts &amp; Crafts &#8212; &lt;i&gt; &#x41;&nbsp;B</h2>";
    assert_eq!(headings(html), vec![h(2, "Arts & Crafts — <i> A B", None)]);
}

#[test]
fn an_unknown_entity_is_left_alone() {
    assert_eq!(
        headings("<h2>a &notanentity; b</h2>")[0].text,
        "a &notanentity; b"
    );
    assert_eq!(headings("<h2>Q &amp A</h2>")[0].text, "Q &amp A");
}

#[test]
fn a_quoted_attribute_may_contain_a_close_bracket() {
    let html = r#"<h2 title="a>b" id="x">Real</h2>"#;
    assert_eq!(headings(html), vec![h(2, "Real", Some("x"))]);
}

#[test]
fn unquoted_and_single_quoted_attributes_are_read() {
    assert_eq!(
        headings("<h2 id=plain>T</h2>"),
        vec![h(2, "T", Some("plain"))]
    );
    assert_eq!(headings("<h2 id='sq'>T</h2>"), vec![h(2, "T", Some("sq"))]);
}

#[test]
fn valueless_attributes_do_not_derail_the_scan() {
    assert_eq!(
        headings("<h2 hidden id=\"x\">T</h2>"),
        vec![h(2, "T", Some("x"))]
    );
}

#[test]
fn headings_inside_script_or_style_are_not_content() {
    let html = r#"<script>var s = "<h1>Not a heading</h1>";</script><h1>Real</h1>"#;
    assert_eq!(headings(html), vec![h(1, "Real", None)]);
    let html = "<style>/* <h3>nope</h3> */</style><h1>Real</h1>";
    assert_eq!(headings(html), vec![h(1, "Real", None)]);
}

#[test]
fn commented_out_headings_are_ignored() {
    assert_eq!(
        headings("<!-- <h1>Draft</h1> --><h1>Real</h1>"),
        vec![h(1, "Real", None)]
    );
}

#[test]
fn empty_headings_are_dropped() {
    assert!(headings("<h2></h2><h2>   </h2><h2><span></span></h2>").is_empty());
}

#[test]
fn an_unclosed_heading_does_not_hang_or_panic() {
    assert!(headings("<h2>Dangling").is_empty());
    assert!(headings("<h2").is_empty());
    assert!(headings("<!-- unterminated").is_empty());
    assert!(headings("<script>unterminated").is_empty());
}

#[test]
fn multibyte_text_survives_intact() {
    let html = "<h2 id=\"Wien\">Wien — Straße Ä 日本語</h2>";
    assert_eq!(
        headings(html),
        vec![h(2, "Wien — Straße Ä 日本語", Some("Wien"))]
    );
}

#[test]
fn whitespace_in_titles_is_collapsed() {
    assert_eq!(
        headings("<h2>\n  A   \t B \n</h2>"),
        vec![h(2, "A B", None)]
    );
}

#[test]
fn arbitrary_input_neither_panics_nor_hangs() {
    let alphabet: Vec<char> = "<>hH123456/ \t\n\"'=&;#!-abc\u{a0}Ä日".chars().collect();
    let mut seed = 0x2545_F491_4F6C_DD1Du64;
    for _ in 0..2000 {
        let mut input = String::new();
        seed ^= seed << 13;
        seed ^= seed >> 7;
        seed ^= seed << 17;
        let len = (seed % 120) as usize;
        for _ in 0..len {
            seed ^= seed << 13;
            seed ^= seed >> 7;
            seed ^= seed << 17;
            input.push(alphabet[(seed % alphabet.len() as u64) as usize]);
        }
        let _ = headings(&input);
    }
}

#[test]
fn deeply_nested_chrome_terminates() {
    let html = format!(
        "<h2>{}Real{}</h2>",
        "<span class=\"noprint\">".repeat(200),
        "</span>".repeat(200)
    );
    let _ = headings(&html);
}

#[test]
fn a_realistic_article_yields_its_outline() {
    let html = r##"
        <html><head><title>Vienna</title></head><body>
        <h1 id="firstHeading">Vienna</h1>
        <p>Vienna is the capital of Austria.</p>
        <h2><span class="mw-editsection">[<a href="#">edit</a>]</span>
            <span class="mw-headline" id="History">History</span></h2>
        <p>...</p>
        <h3 id="Roman_era">Roman era</h3>
        <h2 id="Geography">Geography &amp; climate</h2>
        </body></html>"##;
    assert_eq!(
        headings(html),
        vec![
            h(1, "Vienna", Some("firstHeading")),
            h(2, "History", Some("History")),
            h(3, "Roman era", Some("Roman_era")),
            h(2, "Geography & climate", Some("Geography")),
        ]
    );
}

#[test]
fn a_reference_next_to_multibyte_text_does_not_break_the_scan() {
    // The 12-byte window for a reference may end inside a character.
    assert_eq!(headings("<h2>&#8212;日本語</h2>")[0].text, "—日本語");
    assert_eq!(headings("<h2>&日本語日本語;</h2>")[0].text, "&日本語日本語;");
}

#[test]
fn numeric_references_follow_the_integer_parser() {
    assert_eq!(headings("<h2>&#+65;</h2>")[0].text, "A");
    assert_eq!(headings("<h2>&#X42;</h2>")[0].text, "B");
    assert_eq!(headings("<h2>&#xD800;x</h2>")[0].text, "&#xD800;x");
    assert_eq!(headings("<h2>&#;x</h2>")[0].text, "&#;x");
    assert_eq!(headings("<h2>&#39;</h2>")[0].text, "'");
}

#[test]
fn an_empty_id_on_the_heading_is_still_its_anchor() {
    assert_eq!(headings("<h2 id=\"\">T</h2>"), vec![h(2, "T", Some(""))]);
}

#[test]
fn a_self_closing_chrome_tag_hides_nothing() {
    assert_eq!(
        headings("<h2><span class=\"noprint\"/>Kept</h2>"),
        vec![h(2, "Kept", None)]
    );
}

#[test]
fn a_tag_ends_at_the_first_unquoted_close() {
    let html: Vec<char> = r#"<h2 title="a>b" id="x">Real</h2>"#.chars().collect();
    assert_eq!(wander::toc::markup::tag_end(&html, 0), Some(23));
    let quoted: Vec<char> = "<a title='x>y".chars().collect();
    assert_eq!(wander::toc::markup::tag_end(&quoted, 0), None);
    let plain: Vec<char> = "<p>".chars().collect();
    assert_eq!(wander::toc::markup::tag_end(&plain, 0), Some(3));
}
