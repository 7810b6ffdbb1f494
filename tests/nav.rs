use mdnav::nav::{
    block_matches, collect_links, is_content_document, create_new_readme_content, create_parent_link, links_section,
    links_section_is_updated, reconcile_index, reconcile_with_block, sort_links, stamp_content, Entry,
};

fn dir(name: &str, has_index: bool) -> Entry {
    Entry::Directory { name: name.to_string(), has_index }
}

fn md(file_name: &str) -> Entry {
    let stem = file_name.strip_suffix(".md").unwrap().to_string();
    Entry::Markdown { file_name: file_name.to_string(), stem }
}

#[test]
fn test_create_parent_link() {
    assert_eq!(create_parent_link(true), "[<-](../Readme.md)");
    assert_eq!(create_parent_link(false), "");
}

#[test]
fn test_links_section_is_updated() {
    let readme_content = "- [File1](file1.md)\n- [File2](file2.md)";
    let links_section = "- [File1](file1.md)\n- [File2](file2.md)";

    assert!(links_section_is_updated(readme_content, links_section));

    let new_links_section = "- [File1](file1.md)\n- [File3](file3.md)";
    assert!(!links_section_is_updated(readme_content, new_links_section));
}

#[test]
fn test_update_markdown_file() {
    let updated_content = stamp_content("Content\n").unwrap();
    assert!(updated_content.starts_with("[<-](./Readme.md)\n\nContent"));
}

#[test]
fn test_collect_links() {
    let entries = vec![md("Readme.md"), dir("subdir", true), md("file.md")];
    let links: Vec<String> = collect_links(&entries).into_iter().map(|(_, line)| line).collect();
    assert_eq!(links.len(), 2);
    assert!(links.contains(&"- [subdir](<subdir/Readme.md>)".to_string()));
    assert!(links.contains(&"- [file](file.md)".to_string()));
}

#[test]
fn test_create_new_readme_content() {
    let parent_link = "[<-](../Readme.md)";
    let links_section = "- [File1](file1.md)\n- [File2](file2.md)";
    let readme_content = "Some initial content\n";

    let new_content = create_new_readme_content(parent_link, links_section, readme_content);
    assert_eq!(new_content, "[<-](../Readme.md)\n- [File1](file1.md)\n- [File2](file2.md)\n---\nSome initial content\n");
}

#[test]
fn test_update_readme_navigation() {
    let entries = vec![md("Readme.md"), dir("subdir", true), md("file.md")];
    let updated_readme_content = reconcile_index(&entries, "Initial content\n", false).unwrap();
    assert!(updated_readme_content.contains("- [file](file.md)"));
    assert!(updated_readme_content.contains("- [subdir](<subdir/Readme.md>)"));
}

#[test]
fn readme_gets_sorted_block_divider_and_keeps_content() {
    let entries = vec![md("Readme.md"), dir("subdir", true), md("file.md")];
    let updated = reconcile_index(&entries, "Initial content\n", false).unwrap();
    assert_eq!(
        updated,
        "\n- [file](file.md)\n- [subdir](<subdir/Readme.md>)\n---\nInitial content\n"
    );
}

#[test]
fn second_reconciliation_writes_nothing() {
    let entries = vec![md("Readme.md"), dir("subdir", true), md("file.md"), md("other note.md")];
    let first = reconcile_index(&entries, "Initial content\n", true).unwrap();
    assert!(first.starts_with("[<-](../Readme.md)\n"));
    assert_eq!(reconcile_index(&entries, &first, true), None);
}

#[test]
fn mixed_directory_links() {
    let entries = vec![dir("A", true), dir("B", false), md("x.md"), md("y file.md")];
    assert_eq!(
        links_section(&entries),
        "- [A](<A/Readme.md>)\n- [x](x.md)\n- [y file](<y file.md>)"
    );
}

fn labelled(label: &str) -> (String, String) {
    (label.to_string(), format!("- [{}]({}.md)", label, label))
}

#[test]
fn sort_ignores_case_and_is_stable() {
    let links = vec![labelled("Zeta"), labelled("b"), labelled("alpha"), labelled("B")];
    let sorted = sort_links(links);
    assert_eq!(
        sorted,
        vec![labelled("alpha"), labelled("b"), labelled("B"), labelled("Zeta")]
    );
}

#[test]
fn sort_goes_by_label_not_by_line() {
    let entries = vec![md("a b.md"), md("a.md")];
    assert_eq!(links_section(&entries), "- [a](a.md)\n- [a b](<a b.md>)");
}

#[test]
fn current_block_means_no_write() {
    let entries = vec![md("a.md")];
    let content = "[<-](../Readme.md)\n- [a](a.md)\n---\nBody\n";
    assert_eq!(reconcile_index(&entries, content, true), None);
}

#[test]
fn stale_block_is_replaced_in_place() {
    let entries = vec![md("b.md")];
    let content = "Intro\n[<-](./Readme.md)\n- [a](a.md)\n---\nTail";
    let updated = reconcile_index(&entries, content, true).unwrap();
    assert_eq!(updated, "Intro\n[<-](./Readme.md)\n- [b](b.md)\n---\nTail");
}

#[test]
fn doubled_divider_is_consumed() {
    let content = "[<-](../Readme.md)\n- [old](old.md)\n---\n---\nBody\n";
    let updated = create_new_readme_content("", "- [new](new.md)", content);
    assert_eq!(updated, "[<-](../Readme.md)\n- [new](new.md)\n---\nBody\n");
}

#[test]
fn links_ending_in_newline_get_no_extra_newline() {
    let content = "[<-](../Readme.md)\n- [old](old.md)\n---\nBody";
    let updated = create_new_readme_content("", "- [new](new.md)\n", content);
    assert_eq!(updated, "[<-](../Readme.md)\n- [new](new.md)\n---\nBody");
}

#[test]
fn marker_without_divider_gets_fresh_region() {
    let content = "[<-](../Readme.md)\nno divider";
    let updated = create_new_readme_content("", "- [a](a.md)", content);
    assert_eq!(updated, "\n- [a](a.md)\n---\n[<-](../Readme.md)\nno divider");
}

#[test]
fn found_block_decides() {
    let entries = vec![md("a.md")];
    let found = Some("- [a](a.md)".to_string());
    assert!(block_matches(&found, "- [a](a.md)"));
    assert!(!block_matches(&None, "- [a](a.md)"));
    assert_eq!(reconcile_with_block(&entries, "anything", false, &found), None);
    assert_eq!(
        reconcile_with_block(&entries, "anything", false, &None),
        Some("\n- [a](a.md)\n---\nanything".to_string())
    );
}

#[test]
fn stamping_twice_stamps_once() {
    let once = stamp_content("File content\n").unwrap();
    assert_eq!(once, "[<-](./Readme.md)\n\nFile content\n");
    assert_eq!(stamp_content(&once), None);
    assert_eq!(stamp_content(""), Some("[<-](./Readme.md)\n\n".to_string()));
}

#[test]
fn link_block_is_found_inside_prose() {
    let content = "Intro\n- [a](a.md)\n- [b](b.md)\n---\nBody with - [c](c.md) later";
    assert!(links_section_is_updated(content, "- [a](a.md)\n- [b](b.md)"));
    assert!(!links_section_is_updated(content, "- [a](a.md)"));
    assert!(!links_section_is_updated("no links here", ""));
}

#[test]
fn marked_index_is_stable_after_one_pass() {
    let entries = vec![md("Readme.md"), md("b.md"), dir("Sub", true)];
    let content = "Title\n[<-](../Readme.md)\n- [old](old.md)\n---\nBody\n";
    let first = reconcile_index(&entries, content, true).unwrap();
    assert_eq!(
        first,
        "Title\n[<-](../Readme.md)\n- [b](b.md)\n- [Sub](<Sub/Readme.md>)\n---\nBody\n"
    );
    assert_eq!(reconcile_index(&entries, &first, true), None);
}

#[test]
fn only_non_index_markdown_is_content() {
    assert!(is_content_document(&md("notes.md")));
    assert!(!is_content_document(&md("Readme.md")));
    assert!(!is_content_document(&dir("sub", true)));
    assert!(!is_content_document(&Entry::Other));
}

#[test]
fn index_without_children_is_written_once() {
    let entries: Vec<Entry> = vec![md("Readme.md")];
    let first = reconcile_index(&entries, "Hello\n", false).unwrap();
    assert_eq!(first, "\n\n---\nHello\n");
    assert_eq!(reconcile_index(&entries, &first, false), None);

    let marked = "[<-](../Readme.md)\n- [x](x.md)\n---\nBody";
    let once = reconcile_index(&entries, marked, true).unwrap();
    assert_eq!(once, "[<-](../Readme.md)\n\n---\nBody");
    assert_eq!(reconcile_index(&entries, &once, true), None);
}
