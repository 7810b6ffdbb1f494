use mdnav::toc::{
    add_anchors, generate_toc_and_add_anchors, split_at_old_toc, split_toc_and_content, toc_document,
    toc_exists, toc_from_events, update_toc, MdEvent,
};

#[test]
fn toc_for_two_levels() {
    let (toc, body) = generate_toc_and_add_anchors("# Hello World\n\nSome text\n\n## Sub Part\n");
    assert_eq!(
        toc,
        "## Table of Contents\n\n- [Hello World](#hello-world)\n  - [Sub Part](#sub-part)\n"
    );
    assert_eq!(
        body,
        "# Hello World <a id=\"hello-world\"></a>\n\nSome text\n\n## Sub Part <a id=\"sub-part\"></a>\n"
    );
}

#[test]
fn toc_heading_is_not_listed() {
    let events = vec![
        MdEvent::StartHeading(2),
        MdEvent::Text("Table of Contents".to_string(), 20),
        MdEvent::EndHeading,
        MdEvent::Other,
        MdEvent::StartHeading(3),
        MdEvent::Text("Deep Dive".to_string(), 34),
        MdEvent::EndHeading,
    ];
    let (toc, inserts) = toc_from_events(&events);
    assert_eq!(toc, "## Table of Contents\n\n    - [Deep Dive](#deep-dive)\n");
    assert_eq!(
        inserts,
        vec![
            (20, "<a id=\"table-of-contents\"></a>".to_string()),
            (34, "<a id=\"deep-dive\"></a>".to_string()),
        ]
    );
}

#[test]
fn heading_text_gathers_all_text_nodes() {
    let (toc, body) = generate_toc_and_add_anchors("# Hello *world*\n");
    assert_eq!(toc, "## Table of Contents\n\n- [Hello world](#hello-world)\n");
    assert_eq!(body, "# Hello *world <a id=\"hello-world\"></a>*\n");
}

#[test]
fn present_anchor_is_not_repeated() {
    let doc = "# Title <a id=\"title\"></a>\n\ntext\n";
    let (toc, body) = generate_toc_and_add_anchors(doc);
    assert_eq!(toc, "## Table of Contents\n\n- [Title](#title)\n");
    assert_eq!(body, doc);
}

#[test]
fn text_outside_headings_is_kept_byte_for_byte() {
    let doc = "a\nb *c* [d](e)\n\n- item\n";
    let (toc, body) = generate_toc_and_add_anchors(doc);
    assert_eq!(toc, "## Table of Contents\n\n");
    assert_eq!(body, doc);
}

#[test]
fn anchors_go_at_their_positions() {
    let inserts = vec![(2, "<a id=\"x\"></a>".to_string()), (1, "<a id=\"y\"></a>".to_string())];
    assert_eq!(add_anchors("abcd", &inserts), "ab <a id=\"x\"></a>cd");
}

#[test]
fn update_toc_puts_new_toc_first() {
    assert_eq!(update_toc("old", "new", "body"), "new\n\nbody");
    assert_eq!(update_toc("same", "same", "body"), "same\n\nbody");
}

#[test]
fn toc_exists_finds_heading_line() {
    assert!(toc_exists("intro\n# Table of Contents\n- a"));
    assert!(toc_exists("# table of contents"));
    assert!(!toc_exists("## Table of Contents"));
}

#[test]
fn split_at_next_top_level_heading() {
    let (a, b) = split_toc_and_content("# Table of Contents\n- x\n# Next\ntext");
    assert_eq!(a, "# Table of Contents\n- x");
    assert_eq!(b, "\n# Next\ntext");
    let (c, d) = split_at_old_toc("abc\n# X", &Some("".to_string()));
    assert_eq!(c, "abc\n# X");
    assert_eq!(d, "");
}

#[test]
fn old_toc_ends_at_next_heading_after_its_own() {
    let (a, b) = split_toc_and_content("intro\n# Table of Contents\n- x\n# Next\n");
    assert_eq!(a, "intro\n# Table of Contents\n- x");
    assert_eq!(b, "\n# Next\n");
}

#[test]
fn fresh_toc_document() {
    let out = toc_document("# Title\n").unwrap();
    assert_eq!(out, "## Table of Contents\n\n- [Title](#title)\n\n\n# Title <a id=\"title\"></a>\n");
}

#[test]
fn existing_toc_is_regenerated() {
    let out = toc_document("# Table of Contents\n- old\n# Intro\n").unwrap();
    assert_eq!(out, "## Table of Contents\n\n- [Intro](#intro)\n\n\n\n# Intro <a id=\"intro\"></a>\n");
}
