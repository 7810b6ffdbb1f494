//! Navigation indexes: the link block of a directory's index document, and the
//! back-link that every other document of the directory starts with.

use vstd::prelude::*;
use crate::text::{
    chars_of, find_at, find_from, has_char, lemma_find_from, lex_less, lex_lt, lower_of, lowercase,
    lemma_lex_lt_asymmetric, lemma_lex_lt_irreflexive, matches_at, occurs_at, string_of,
};

verus! {

broadcast use vstd::string::group_string_axioms;

/// The parent-link marker that points to the enclosing directory's index.
pub open spec fn marker_up() -> Seq<char> {
    "[<-](../Readme.md)"@
}

/// The legacy parent-link marker, recognised but never written.
pub open spec fn marker_here() -> Seq<char> {
    "[<-](./Readme.md)"@
}

/// The divider that closes the navigation region.
pub open spec fn divider() -> Seq<char> {
    "---"@
}

/// A divider that was written twice in a row.
pub open spec fn double_divider() -> Seq<char> {
    "---\n---"@
}

/// What follows the link block: a newline unless the block already ends with one,
/// then a single divider line.
pub open spec fn block_close(links: Seq<char>) -> Seq<char> {
    if links.len() > 0 && links.last() == '\n' {
        "---\n"@
    } else {
        "\n---\n"@
    }
}

/// Where the text after a divider at `end` resumes: past the divider (both, when it is
/// doubled) and past the line break that ends it, if there is one.
pub open spec fn after_divider(content: Seq<char>, end: int) -> int {
    let d = if occurs_at(content, double_divider(), end) {
        end + double_divider().len()
    } else {
        end + divider().len()
    };
    if d < content.len() && content[d] == '\n' {
        d + 1
    } else {
        d
    }
}

/// The content with its navigation region rewritten, when `marker` occurs in it and a
/// divider follows: the text before the marker and after the divider line (both
/// dividers, when doubled) is kept, and the region between is the marker, a newline,
/// `links` and one divider line.
pub open spec fn splice_at_marker(content: Seq<char>, marker: Seq<char>, links: Seq<char>) -> Option<Seq<char>> {
    match find_from(content, marker, 0) {
        None => None,
        Some(start) => match find_from(content, divider(), start) {
            None => None,
            Some(end) => Some(
                content.take(start) + marker + "\n"@ + links + block_close(links) + content.skip(
                    after_divider(content, end),
                ),
            ),
        },
    }
}

/// A fresh navigation region put before the whole content.
pub open spec fn fresh_region(parent_link: Seq<char>, links: Seq<char>, content: Seq<char>) -> Seq<char> {
    parent_link + "\n"@ + links + "\n---\n"@ + content
}

/// The index content with its navigation region brought up to date: spliced at the first
/// marker form that has a divider after it, else put in front as a fresh region.
pub open spec fn new_readme_content(parent_link: Seq<char>, links: Seq<char>, content: Seq<char>) -> Seq<char> {
    match splice_at_marker(content, marker_up(), links) {
        Some(n) => n,
        None => match splice_at_marker(content, marker_here(), links) {
            Some(n) => n,
            None => fresh_region(parent_link, links, content),
        },
    }
}

/// Rewrites the navigation region of `content` at `marker`, if it has one.
fn splice_region(content: &Vec<char>, marker: &str, links_section: &str) -> (r: Option<String>)
    ensures
        match r {
            Some(n) => splice_at_marker(content@, marker@, links_section@) == Some(n@),
            None => splice_at_marker(content@, marker@, links_section@) is None,
        },
{
    let m = chars_of(marker);
    let start = match find_at(content, &m, 0) {
        Some(s) => s,
        None => {
            return None;
        },
    };
    let div = chars_of("---");
    let end = match find_at(content, &div, start) {
        Some(e) => e,
        None => {
            return None;
        },
    };
    proof {
        lemma_find_from(content@, div@, start as int);
        reveal_strlit("---");
        reveal_strlit("---\n---");
    }
    let n = content.len();
    let dd = chars_of("---\n---");
    let d = if matches_at(content, &dd, end) {
        end + 7
    } else {
        end + 3
    };
    let rest = if d < n && content[d] == '\n' {
        d + 1
    } else {
        d
    };
    let lv = chars_of(links_section);
    let close = if lv.len() > 0 && lv[lv.len() - 1] == '\n' {
        "---\n"
    } else {
        "\n---\n"
    };
    let mut out = string_of(content, 0, start);
    out.append(marker);
    out.append("\n");
    out.append(links_section);
    out.append(close);
    let tail = string_of(content, rest, content.len());
    out.append(tail.as_str());
    proof {
        assert(out@ =~= content@.take(start as int) + marker@ + "\n"@ + links_section@
            + block_close(links_section@) + content@.skip(rest as int));
    }
    Some(out)
}

/// The index content with its navigation region brought up to date.
///
/// Where `content` holds a parent-link marker (`[<-](../Readme.md)` first, else
/// `[<-](./Readme.md)`) with a divider after it, only the region from the marker to the
/// divider is replaced; a doubled divider is consumed whole, and one is written.
/// Otherwise the region is put in front: `parent_link`, a newline, the links, a divider.
pub fn create_new_readme_content(parent_link: &str, links_section: &str, readme_content: &str) -> (r: String)
    ensures
        r@ == new_readme_content(parent_link@, links_section@, readme_content@),
{
    let content = chars_of(readme_content);
    match splice_region(&content, "[<-](../Readme.md)", links_section) {
        Some(n) => n,
        None => match splice_region(&content, "[<-](./Readme.md)", links_section) {
            Some(n) => n,
            None => {
                let mut out = String::from_str(parent_link);
                out.append("\n");
                out.append(links_section);
                out.append("\n---\n");
                out.append(readme_content);
                out
            },
        },
    }
}

/// One entry directly inside a directory, as the navigation logic sees it.
pub enum Entry {
    /// A subdirectory: its name, and whether it holds an index document.
    Directory { name: String, has_index: bool },
    /// A file with the `md` extension: its file name and its stem.
    Markdown { file_name: String, stem: String },
    /// Anything else.
    Other,
}

/// The link line for a subdirectory with an index.
pub open spec fn dir_link(name: Seq<char>) -> Seq<char> {
    "- ["@ + name + "](<"@ + name + "/Readme.md>)"@
}

/// The link line for a content document; its target is angle-bracketed when the stem
/// holds a space.
pub open spec fn file_link(stem: Seq<char>) -> Seq<char> {
    if stem.contains(' ') {
        "- ["@ + stem + "](<"@ + stem + ".md>)"@
    } else {
        "- ["@ + stem + "]("@ + stem + ".md)"@
    }
}

/// The label and link line an entry contributes to its directory's index, if any.
pub open spec fn entry_link(e: Entry) -> Option<(Seq<char>, Seq<char>)> {
    match e {
        Entry::Directory { name, has_index } => if has_index {
            Some((name@, dir_link(name@)))
        } else {
            None
        },
        Entry::Markdown { file_name, stem } => if file_name@ == "Readme.md"@ {
            None
        } else {
            Some((stem@, file_link(stem@)))
        },
        Entry::Other => None,
    }
}

/// The labels and link lines of the entries, in the order the entries come.
pub open spec fn links_of(entries: Seq<Entry>) -> Seq<(Seq<char>, Seq<char>)>
    decreases entries.len(),
{
    if entries.len() == 0 {
        Seq::empty()
    } else {
        match entry_link(entries.last()) {
            Some(l) => links_of(entries.drop_last()).push(l),
            None => links_of(entries.drop_last()),
        }
    }
}

/// Whether an entry is a content document: a markdown file other than the index.
pub open spec fn is_content(e: Entry) -> bool {
    match e {
        Entry::Markdown { file_name, stem } => file_name@ != "Readme.md"@,
        _ => false,
    }
}

/// Whether an entry is a content document, to be stamped with the back-link.
pub fn is_content_document(e: &Entry) -> (r: bool)
    ensures
        r == is_content(*e),
{
    match e {
        Entry::Markdown { file_name, stem } => !is_index_name(file_name.as_str()),
        _ => false,
    }
}

/// Whether a file name is that of an index document.
pub fn is_index_name(name: &str) -> (r: bool)
    ensures
        r == (name@ == "Readme.md"@),
{
    String::from_str(name) == String::from_str("Readme.md")
}

/// Appends the label and link line of a subdirectory, when it holds an index.
pub fn add_directory_readme_link(name: &str, has_index: bool, links: &mut Vec<(String, String)>)
    ensures
        final(links).deep_view() == if has_index {
            old(links).deep_view().push((name@, dir_link(name@)))
        } else {
            old(links).deep_view()
        },
{
    if has_index {
        let mut link = String::from_str("- [");
        link.append(name);
        link.append("](<");
        link.append(name);
        link.append("/Readme.md>)");
        links.push((String::from_str(name), link));
        assert(links.deep_view() =~= old(links).deep_view().push((name@, dir_link(name@))));
    }
}

/// Appends the label and link line of a content document.
pub fn add_markdown_file_link(stem: &str, links: &mut Vec<(String, String)>)
    ensures
        final(links).deep_view() == old(links).deep_view().push((stem@, file_link(stem@))),
{
    let spaced = has_char(&chars_of(stem), ' ');
    let mut link = String::from_str("- [");
    link.append(stem);
    if spaced {
        link.append("](<");
        link.append(stem);
        link.append(".md>)");
    } else {
        link.append("](");
        link.append(stem);
        link.append(".md)");
    }
    links.push((String::from_str(stem), link));
    assert(links.deep_view() =~= old(links).deep_view().push((stem@, file_link(stem@))));
}

/// The labels and link lines of a directory's entries, in the order the entries come,
/// before sorting.
pub fn collect_links(entries: &Vec<Entry>) -> (r: Vec<(String, String)>)
    ensures
        r.deep_view() == links_of(entries@),
{
    let mut links: Vec<(String, String)> = Vec::new();
    let mut i: usize = 0;
    while i < entries.len()
        invariant
            i <= entries@.len(),
            links.deep_view() == links_of(entries@.take(i as int)),
        decreases entries@.len() - i,
    {
        assert(entries@.take(i + 1).drop_last() =~= entries@.take(i as int));
        assert(entries@.take(i + 1).last() == entries@[i as int]);
        match &entries[i] {
            Entry::Directory { name, has_index } => {
                add_directory_readme_link(name.as_str(), *has_index, &mut links);
            },
            Entry::Markdown { file_name, stem } => {
                if !is_index_name(file_name.as_str()) {
                    add_markdown_file_link(stem.as_str(), &mut links);
                }
            },
            Entry::Other => {},
        }
        i = i + 1;
    }
    assert(entries@.take(i as int) =~= entries@);
    links
}

/// `x` put into `s` after every link whose lowercase label does not come after its own.
pub open spec fn insert_by_lower(s: Seq<(Seq<char>, Seq<char>)>, x: (Seq<char>, Seq<char>)) -> Seq<(Seq<char>, Seq<char>)>
    decreases s.len(),
{
    if s.len() > 0 && lex_lt(lower_of(x.0), lower_of(s.last().0)) {
        insert_by_lower(s.drop_last(), x).push(s.last())
    } else {
        s.push(x)
    }
}

/// The links in ascending order of their lowercase labels; links whose lowercase labels
/// are equal keep their relative order.
pub open spec fn sort_by_lower(s: Seq<(Seq<char>, Seq<char>)>) -> Seq<(Seq<char>, Seq<char>)>
    decreases s.len(),
{
    if s.len() == 0 {
        s
    } else {
        insert_by_lower(sort_by_lower(s.drop_last()), s.last())
    }
}

/// Inserting at the position after which no line has a lowercase form above `x`'s.
proof fn lemma_insert_at(s: Seq<(Seq<char>, Seq<char>)>, x: (Seq<char>, Seq<char>), j: int)
    requires
        0 <= j <= s.len(),
        forall|k: int| j <= k < s.len() ==> lex_lt(lower_of(x.0), lower_of((#[trigger] s[k]).0)),
        j == 0 || !lex_lt(lower_of(x.0), lower_of(s[j - 1].0)),
    ensures
        insert_by_lower(s, x) == s.take(j).push(x) + s.skip(j),
    decreases s.len(),
{
    if s.len() > j {
        assert(lex_lt(lower_of(x.0), lower_of(s[s.len() - 1].0)));
        lemma_insert_at(s.drop_last(), x, j);
        assert(insert_by_lower(s, x) =~= s.take(j).push(x) + s.skip(j));
    } else {
        assert(insert_by_lower(s, x) =~= s.take(j).push(x) + s.skip(j));
    }
}

/// Sorts links by their lowercase labels, keeping the order of links whose lowercase
/// labels are equal.
pub fn sort_links(links: Vec<(String, String)>) -> (r: Vec<(String, String)>)
    ensures
        r.deep_view() == sort_by_lower(links.deep_view()),
{
    let mut out: Vec<(String, String)> = Vec::new();
    let mut keys: Vec<Vec<char>> = Vec::new();
    let mut i: usize = 0;
    while i < links.len()
        invariant
            i <= links@.len(),
            out.deep_view() == sort_by_lower(links.deep_view().take(i as int)),
            keys@.len() == out@.len(),
            forall|k: int| 0 <= k < keys@.len() ==> (#[trigger] keys@[k])@ == lower_of(out@[k].0@),
        decreases links@.len() - i,
    {
        let line = (links[i].0.clone(), links[i].1.clone());
        let key = chars_of(lowercase(line.0.as_str()).as_str());
        let mut j: usize = out.len();
        while j > 0 && lex_less(&key, &keys[j - 1])
            invariant
                j <= out@.len(),
                keys@.len() == out@.len(),
                forall|k: int| 0 <= k < keys@.len() ==> (#[trigger] keys@[k])@ == lower_of(out@[k].0@),
                forall|k: int| j <= k < out@.len() ==> lex_lt(key@, lower_of((#[trigger] out@[k]).0@)),
            decreases j,
        {
            j = j - 1;
        }
        proof {
            let s = out.deep_view();
            let pre = links.deep_view().take(i as int);
            assert(links.deep_view().take(i + 1).drop_last() =~= pre);
            assert(links.deep_view().take(i + 1).last() == (line.0@, line.1@));
            assert forall|k: int| j <= k < s.len() implies lex_lt(lower_of((line.0@, line.1@).0), lower_of((#[trigger] s[k]).0)) by {
                assert(s[k] == (out@[k].0@, out@[k].1@));
            }
            if j > 0 {
                assert(s[j - 1] == (out@[j - 1].0@, out@[j - 1].1@));
            }
            lemma_insert_at(s, (line.0@, line.1@), j as int);
        }
        let ghost old_out = out.deep_view();
        out.insert(j, line);
        keys.insert(j, key);
        assert(out.deep_view() =~= old_out.take(j as int).push((out@[j as int].0@, out@[j as int].1@)) + old_out.skip(j as int));
        i = i + 1;
    }
    assert(links.deep_view().take(i as int) =~= links.deep_view());
    out
}

/// The lines joined by newlines, with no newline after the last.
pub open spec fn join_lines(s: Seq<Seq<char>>) -> Seq<char>
    decreases s.len(),
{
    if s.len() == 0 {
        Seq::empty()
    } else if s.len() == 1 {
        s[0]
    } else {
        join_lines(s.drop_last()) + "\n"@ + s.last()
    }
}

/// The link lines of the links, in order.
pub open spec fn line_texts(s: Seq<(Seq<char>, Seq<char>)>) -> Seq<Seq<char>> {
    s.map_values(|p: (Seq<char>, Seq<char>)| p.1)
}

/// The link block: the link lines joined by newlines.
pub fn join_links(links: &Vec<(String, String)>) -> (r: String)
    ensures
        r@ == join_lines(line_texts(links.deep_view())),
{
    let mut out = String::new();
    let mut i: usize = 0;
    while i < links.len()
        invariant
            i <= links@.len(),
            out@ == join_lines(line_texts(links.deep_view()).take(i as int)),
        decreases links@.len() - i,
    {
        let ghost pre = line_texts(links.deep_view()).take(i as int);
        assert(line_texts(links.deep_view()).take(i + 1).drop_last() =~= pre);
        if i > 0 {
            out.append("\n");
        }
        out.append(links[i].1.as_str());
        i = i + 1;
        if i == 1 {
            assert(out@ =~= join_lines(line_texts(links.deep_view()).take(i as int)));
        }
    }
    assert(line_texts(links.deep_view()).take(i as int) =~= line_texts(links.deep_view()));
    out
}

/// The text of the first link block that the link-block pattern finds in `content`
/// (see `find_link_block`), if any.
pub uninterp spec fn link_block_of(content: Seq<char>) -> Option<Seq<char>>;

/// Relies on `regex::Regex::find` with the pattern of a maximal run of link lines
/// (`- [..](..)` lines joined by newlines): the text of its leftmost-first match depends
/// on `content` alone. The pattern is a valid literal, so `Regex::new` does not fail.
#[verifier::external_body]
fn find_link_block(content: &str) -> (r: Option<String>)
    ensures
        match r {
            Some(m) => link_block_of(content@) == Some(m@),
            None => link_block_of(content@) is None,
        },
{
    let re = regex::Regex::new(r"(?s)- \[.*?\]\(.*?\)(?:\n- \[.*?\]\(.*?\))*").unwrap();
    re.find(content).map(|m| m.as_str().to_string())
}

/// Whether the link block found in an index equals the canonical one.
pub open spec fn block_is_current(found: Option<Seq<char>>, links_section: Seq<char>) -> bool {
    match found {
        Some(b) => b == links_section,
        None => false,
    }
}

/// Whether the link block that was found (if any) is exactly `links_section`.
pub fn block_matches(found: &Option<String>, links_section: &str) -> (r: bool)
    ensures
        r == block_is_current(
            match found {
                Some(b) => Some(b@),
                None => None,
            },
            links_section@,
        ),
{
    match found {
        Some(b) => *b == String::from_str(links_section),
        None => false,
    }
}

/// Whether the first link block of `readme_content` is exactly `links_section`.
pub fn links_section_is_updated(readme_content: &str, links_section: &str) -> (r: bool)
    ensures
        r == block_is_current(link_block_of(readme_content@), links_section@),
{
    let found = find_link_block(readme_content);
    block_matches(&found, links_section)
}

/// The parent-link marker a fresh navigation region starts with: empty when the
/// enclosing directory has no index.
pub open spec fn parent_link(parent_has_index: bool) -> Seq<char> {
    if parent_has_index {
        marker_up()
    } else {
        ""@
    }
}

/// The parent-link marker for a directory whose parent does or does not hold an index.
pub fn create_parent_link(parent_has_index: bool) -> (r: String)
    ensures
        r@ == parent_link(parent_has_index),
{
    if parent_has_index {
        String::from_str("[<-](../Readme.md)")
    } else {
        String::from_str("")
    }
}

/// The canonical link block of a directory with these entries.
pub open spec fn links_section_of(entries: Seq<Entry>) -> Seq<char> {
    join_lines(line_texts(sort_by_lower(links_of(entries))))
}

/// The new index content, or `None` when the index is to be left as it is: its link
/// block (`found`) is already canonical, it already starts with the fresh region for
/// these links, or the rewrite changes nothing.
pub open spec fn reconciled(
    entries: Seq<Entry>,
    content: Seq<char>,
    parent_has_index: bool,
    found: Option<Seq<char>>,
) -> Option<Seq<char>> {
    let links = links_section_of(entries);
    if block_is_current(found, links) || occurs_at(content, fresh_region(parent_link(parent_has_index), links, ""@), 0) {
        None
    } else {
        let n = new_readme_content(parent_link(parent_has_index), links, content);
        if n == content {
            None
        } else {
            Some(n)
        }
    }
}

/// The canonical link block of a directory with these entries.
pub fn links_section(entries: &Vec<Entry>) -> (r: String)
    ensures
        r@ == links_section_of(entries@),
{
    let links = sort_links(collect_links(entries));
    join_links(&links)
}

/// Decides what to write to an index, given the link block found in it.
pub fn reconcile_with_block(
    entries: &Vec<Entry>,
    readme_content: &str,
    parent_has_index: bool,
    found: &Option<String>,
) -> (r: Option<String>)
    ensures
        match r {
            Some(n) => reconciled(entries@, readme_content@, parent_has_index, match found {
                Some(b) => Some(b@),
                None => None,
            }) == Some(n@),
            None => reconciled(entries@, readme_content@, parent_has_index, match found {
                Some(b) => Some(b@),
                None => None,
            }) is None,
        },
{
    let links = links_section(entries);
    if block_matches(found, links.as_str()) {
        return None;
    }
    let parent = create_parent_link(parent_has_index);
    let mut region = String::from_str(parent.as_str());
    region.append("\n");
    region.append(links.as_str());
    region.append("\n---\n");
    proof {
        reveal_strlit("");
        assert(region@ =~= fresh_region(parent@, links@, ""@));
    }
    if matches_at(&chars_of(readme_content), &chars_of(region.as_str()), 0) {
        return None;
    }
    let n = create_new_readme_content(parent.as_str(), links.as_str(), readme_content);
    if n == String::from_str(readme_content) {
        None
    } else {
        Some(n)
    }
}

/// Decides what to write to a directory's index: `None` when it is already canonical.
pub fn reconcile_index(entries: &Vec<Entry>, readme_content: &str, parent_has_index: bool) -> (r: Option<String>)
    ensures
        match r {
            Some(n) => reconciled(entries@, readme_content@, parent_has_index, link_block_of(readme_content@)) == Some(n@),
            None => reconciled(entries@, readme_content@, parent_has_index, link_block_of(readme_content@)) is None,
        },
{
    let found = find_link_block(readme_content);
    reconcile_with_block(entries, readme_content, parent_has_index, &found)
}

/// The back-link every content document starts with.
pub open spec fn back_link() -> Seq<char> {
    "[<-](./Readme.md)"@
}

/// A content document stamped with the back-link, or `None` when it already starts with it.
pub open spec fn stamped(content: Seq<char>) -> Option<Seq<char>> {
    if occurs_at(content, back_link(), 0) {
        None
    } else {
        Some(back_link() + "\n\n"@ + content)
    }
}

/// The stamped content document, or `None` when it already starts with the back-link.
pub fn stamp_content(content: &str) -> (r: Option<String>)
    ensures
        match r {
            Some(n) => stamped(content@) == Some(n@),
            None => stamped(content@) is None,
        },
{
    let cv = chars_of(content);
    let bl = chars_of("[<-](./Readme.md)");
    if matches_at(&cv, &bl, 0) {
        None
    } else {
        let mut out = String::from_str("[<-](./Readme.md)");
        out.append("\n\n");
        out.append(content);
        Some(out)
    }
}

/// Whether each link's lowercase label comes no earlier than its predecessor's.
pub open spec fn sorted_by_lower(s: Seq<(Seq<char>, Seq<char>)>) -> bool {
    forall|i: int| 0 <= i < s.len() - 1 ==> !lex_lt(lower_of((#[trigger] s[i + 1]).0), lower_of(s[i].0))
}

proof fn lemma_insert_sorted(s: Seq<(Seq<char>, Seq<char>)>, x: (Seq<char>, Seq<char>))
    requires
        sorted_by_lower(s),
    ensures
        sorted_by_lower(insert_by_lower(s, x)),
        insert_by_lower(s, x).len() == s.len() + 1,
        insert_by_lower(s, x).last() == x || (s.len() > 0 && insert_by_lower(s, x).last() == s.last()),
        insert_by_lower(s, x).to_multiset() == s.to_multiset().insert(x),
    decreases s.len(),
{
    broadcast use vstd::seq_lib::group_to_multiset_ensures;
    if s.len() > 0 && lex_lt(lower_of(x.0), lower_of(s.last().0)) {
        let t = s.drop_last();
        assert(sorted_by_lower(t)) by {
            assert forall|i: int| 0 <= i < t.len() - 1 implies !lex_lt(lower_of((#[trigger] t[i + 1]).0), lower_of(t[i].0)) by {
                assert(t[i + 1] == s[i + 1] && t[i] == s[i]);
            }
        }
        lemma_insert_sorted(t, x);
        let r = insert_by_lower(t, x);
        if r.last() == x {
            lemma_lex_lt_asymmetric(lower_of(x.0), lower_of(s.last().0), 0);
        } else {
            assert(t.last() == s[s.len() - 2]);
            assert(!lex_lt(lower_of(s[(s.len() - 2) + 1].0), lower_of(s[s.len() - 2].0)));
        }
        assert(s =~= t.push(s.last()));
        let rr = r.push(s.last());
        assert forall|i: int| 0 <= i < rr.len() - 1 implies !lex_lt(lower_of((#[trigger] rr[i + 1]).0), lower_of(rr[i].0)) by {
            if i < rr.len() - 2 {
                assert(rr[i + 1] == r[i + 1] && rr[i] == r[i]);
            } else {
                assert(rr[i + 1] == s.last() && rr[i] == r.last());
            }
        }
    } else {
        let rr = s.push(x);
        assert forall|i: int| 0 <= i < rr.len() - 1 implies !lex_lt(lower_of((#[trigger] rr[i + 1]).0), lower_of(rr[i].0)) by {
            if i < rr.len() - 2 {
                assert(rr[i + 1] == s[i + 1] && rr[i] == s[i]);
            }
        }
    }
}

/// Sorting links keeps exactly the same links, and puts them in ascending order of
/// their lowercase labels.
pub proof fn lemma_sort_by_lower(s: Seq<(Seq<char>, Seq<char>)>)
    ensures
        sorted_by_lower(sort_by_lower(s)),
        sort_by_lower(s).to_multiset() == s.to_multiset(),
    decreases s.len(),
{
    broadcast use vstd::seq_lib::group_to_multiset_ensures;
    if s.len() > 0 {
        lemma_sort_by_lower(s.drop_last());
        lemma_insert_sorted(sort_by_lower(s.drop_last()), s.last());
        assert(s =~= s.drop_last().push(s.last()));
    }
}

/// A directory with a subdirectory `a` that has an index, a subdirectory `b` that has
/// none, and content documents `x` and `y` (whose stem holds a space) gets one link line
/// for each of `a`, `x` and `y`, none for `b`, in ascending order of their lowercase
/// labels; the target of `y` is angle-bracketed.
pub proof fn lemma_links_of_mixed_directory(a: String, b: String, x_name: String, x: String, y_name: String, y: String)
    requires
        x_name@ != "Readme.md"@,
        y_name@ != "Readme.md"@,
        !x@.contains(' '),
        y@.contains(' '),
    ensures
        ({
            let entries = seq![
                Entry::Directory { name: a, has_index: true },
                Entry::Directory { name: b, has_index: false },
                Entry::Markdown { file_name: x_name, stem: x },
                Entry::Markdown { file_name: y_name, stem: y },
            ];
            let links = sort_by_lower(links_of(entries));
            &&& links.to_multiset() == seq![(a@, dir_link(a@)), (x@, file_link(x@)), (y@, file_link(y@))].to_multiset()
            &&& sorted_by_lower(links)
            &&& file_link(x@) == "- ["@ + x@ + "]("@ + x@ + ".md)"@
            &&& file_link(y@) == "- ["@ + y@ + "](<"@ + y@ + ".md>)"@
            &&& join_lines(line_texts(links)) == links_section_of(entries)
        }),
{
    let entries = seq![
        Entry::Directory { name: a, has_index: true },
        Entry::Directory { name: b, has_index: false },
        Entry::Markdown { file_name: x_name, stem: x },
        Entry::Markdown { file_name: y_name, stem: y },
    ];
    let e3 = entries.drop_last();
    let e2 = e3.drop_last();
    let e1 = e2.drop_last();
    assert(e1.drop_last() =~= Seq::<Entry>::empty());
    assert(e1.len() == 1 && e1.last() == entries[0]);
    assert(links_of(e1.drop_last()) == Seq::<(Seq<char>, Seq<char>)>::empty());
    assert(entry_link(e1.last()) == Some((a@, dir_link(a@))));
    assert(links_of(e1) =~= seq![(a@, dir_link(a@))]);
    assert(links_of(e2) =~= seq![(a@, dir_link(a@))]);
    assert(links_of(e3) =~= seq![(a@, dir_link(a@)), (x@, file_link(x@))]);
    assert(links_of(entries) =~= seq![(a@, dir_link(a@)), (x@, file_link(x@)), (y@, file_link(y@))]);
    lemma_sort_by_lower(links_of(entries));
}

/// The links whose lowercase label is `k`, in order.
pub open spec fn with_lower_label(s: Seq<(Seq<char>, Seq<char>)>, k: Seq<char>) -> Seq<(Seq<char>, Seq<char>)>
    decreases s.len(),
{
    if s.len() == 0 {
        s
    } else if lower_of(s.last().0) == k {
        with_lower_label(s.drop_last(), k).push(s.last())
    } else {
        with_lower_label(s.drop_last(), k)
    }
}

proof fn lemma_insert_stable(t: Seq<(Seq<char>, Seq<char>)>, x: (Seq<char>, Seq<char>), k: Seq<char>)
    ensures
        with_lower_label(insert_by_lower(t, x), k) == if lower_of(x.0) == k {
            with_lower_label(t, k).push(x)
        } else {
            with_lower_label(t, k)
        },
    decreases t.len(),
{
    if t.len() > 0 && lex_lt(lower_of(x.0), lower_of(t.last().0)) {
        let r = insert_by_lower(t.drop_last(), x);
        lemma_insert_stable(t.drop_last(), x, k);
        assert(r.push(t.last()).drop_last() =~= r);
        if lower_of(x.0) == k {
            lemma_lex_lt_irreflexive(k, 0);
        }
    } else {
        assert(t.push(x).drop_last() =~= t);
    }
}

/// Sorting keeps the order of links whose lowercase labels are equal.
pub proof fn lemma_sort_is_stable(s: Seq<(Seq<char>, Seq<char>)>, k: Seq<char>)
    ensures
        with_lower_label(sort_by_lower(s), k) == with_lower_label(s, k),
    decreases s.len(),
{
    if s.len() > 0 {
        lemma_sort_is_stable(s.drop_last(), k);
        lemma_insert_stable(sort_by_lower(s.drop_last()), s.last(), k);
    }
}

/// A link is among a directory's links exactly when one of its entries contributes it.
pub proof fn lemma_links_of_members(entries: Seq<Entry>, l: (Seq<char>, Seq<char>))
    ensures
        links_of(entries).contains(l) <==> exists|i: int| 0 <= i < entries.len() && entry_link(#[trigger] entries[i]) == Some(l),
    decreases entries.len(),
{
    if entries.len() > 0 {
        let t = entries.drop_last();
        lemma_links_of_members(t, l);
        if exists|i: int| 0 <= i < entries.len() && entry_link(#[trigger] entries[i]) == Some(l) {
            let i = choose|i: int| 0 <= i < entries.len() && entry_link(#[trigger] entries[i]) == Some(l);
            if i < entries.len() - 1 {
                assert(t[i] == entries[i]);
                let k = choose|k: int| 0 <= k < links_of(t).len() && links_of(t)[k] == l;
                match entry_link(entries.last()) {
                    Some(m) => assert(links_of(entries)[k] == l),
                    None => {},
                }
            } else {
                assert(links_of(entries).last() == l);
            }
        }
        if links_of(entries).contains(l) {
            let k = choose|k: int| 0 <= k < links_of(entries).len() && links_of(entries)[k] == l;
            match entry_link(entries.last()) {
                Some(m) => {
                    if k < links_of(t).len() {
                        assert(links_of(t)[k] == l);
                        let i = choose|i: int| 0 <= i < t.len() && entry_link(#[trigger] t[i]) == Some(l);
                        assert(entries[i] == t[i]);
                    } else {
                        assert(entry_link(entries[entries.len() - 1]) == Some(l));
                    }
                },
                None => {
                    assert(links_of(t)[k] == l);
                    let i = choose|i: int| 0 <= i < t.len() && entry_link(#[trigger] t[i]) == Some(l);
                    assert(entries[i] == t[i]);
                },
            }
        }
    }
}

/// Whatever order the entries of a directory come in, when each is a subdirectory `a`
/// with an index, a subdirectory `b` without one, or a content document `x` or `y`, the
/// link block holds exactly the lines of `a`, `x` and `y` (those present), none for `b`,
/// in ascending order of their lowercase labels.
pub proof fn lemma_mixed_directory_any_order(
    entries: Seq<Entry>,
    a: String,
    b: String,
    x_name: String,
    x: String,
    y_name: String,
    y: String,
    l: (Seq<char>, Seq<char>),
)
    requires
        x_name@ != "Readme.md"@,
        y_name@ != "Readme.md"@,
        forall|i: int| 0 <= i < entries.len() ==> {
            let e = #[trigger] entries[i];
            e == Entry::Directory { name: a, has_index: true }
                || e == Entry::Directory { name: b, has_index: false }
                || e == Entry::Markdown { file_name: x_name, stem: x }
                || e == Entry::Markdown { file_name: y_name, stem: y }
        },
    ensures
        sorted_by_lower(sort_by_lower(links_of(entries))),
        sort_by_lower(links_of(entries)).contains(l) ==> l == (a@, dir_link(a@)) || l == (x@, file_link(x@))
            || l == (y@, file_link(y@)),
        entries.contains(Entry::Directory { name: a, has_index: true }) ==> sort_by_lower(links_of(entries)).contains((a@, dir_link(a@))),
        entries.contains(Entry::Markdown { file_name: x_name, stem: x }) ==> sort_by_lower(links_of(entries)).contains((x@, file_link(x@))),
        entries.contains(Entry::Markdown { file_name: y_name, stem: y }) ==> sort_by_lower(links_of(entries)).contains((y@, file_link(y@))),
{
    broadcast use vstd::seq_lib::group_to_multiset_ensures;
    lemma_sort_by_lower(links_of(entries));
    let s = sort_by_lower(links_of(entries));
    assert forall|m: (Seq<char>, Seq<char>)| s.contains(m) <==> links_of(entries).contains(m) by {
        assert(s.to_multiset().count(m) == links_of(entries).to_multiset().count(m));
    }
    lemma_links_of_members(entries, l);
    lemma_links_of_members(entries, (a@, dir_link(a@)));
    lemma_links_of_members(entries, (x@, file_link(x@)));
    lemma_links_of_members(entries, (y@, file_link(y@)));
    if entries.contains(Entry::Directory { name: a, has_index: true }) {
        let i = choose|i: int| 0 <= i < entries.len() && entries[i] == Entry::Directory { name: a, has_index: true };
        assert(entry_link(entries[i]) == Some((a@, dir_link(a@))));
    }
    if entries.contains(Entry::Markdown { file_name: x_name, stem: x }) {
        let i = choose|i: int| 0 <= i < entries.len() && entries[i] == Entry::Markdown { file_name: x_name, stem: x };
        assert(entry_link(entries[i]) == Some((x@, file_link(x@))));
    }
    if entries.contains(Entry::Markdown { file_name: y_name, stem: y }) {
        let i = choose|i: int| 0 <= i < entries.len() && entries[i] == Entry::Markdown { file_name: y_name, stem: y };
        assert(entry_link(entries[i]) == Some((y@, file_link(y@))));
    }
}

/// An index whose link block is already canonical is left as it is.
pub proof fn lemma_current_block_not_rewritten(entries: Seq<Entry>, content: Seq<char>, parent_has_index: bool)
    requires
        link_block_of(content) == Some(links_section_of(entries)),
    ensures
        reconciled(entries, content, parent_has_index, link_block_of(content)) is None,
{
}

/// A second pass over a rewritten index writes nothing, once it finds there the link
/// block that the first pass wrote.
pub proof fn lemma_second_pass_writes_nothing(
    entries: Seq<Entry>,
    content: Seq<char>,
    parent_has_index: bool,
    written: Seq<char>,
)
    requires
        reconciled(entries, content, parent_has_index, link_block_of(content)) == Some(written),
        link_block_of(written) == Some(links_section_of(entries)),
    ensures
        reconciled(entries, written, parent_has_index, link_block_of(written)) is None,
{
}

/// An index that was given a fresh navigation region in front is left as it is by every
/// later pass with the same entries, whatever link block is found in it.
pub proof fn lemma_fresh_region_written_once(
    entries: Seq<Entry>,
    content: Seq<char>,
    parent_has_index: bool,
    found: Option<Seq<char>>,
)
    ensures
        reconciled(
            entries,
            fresh_region(parent_link(parent_has_index), links_section_of(entries), content),
            parent_has_index,
            found,
        ) is None,
{
    reveal_strlit("");
    let links = links_section_of(entries);
    let p = parent_link(parent_has_index);
    let region = fresh_region(p, links, ""@);
    let written = fresh_region(p, links, content);
    assert(written.subrange(0, region.len() as int) =~= region);
}

/// A stale link block is replaced in place: the text before the parent-link marker and
/// the text after the divider line (after both, when it is doubled) are kept, and between
/// them stand the marker, the canonical links and one divider line.
pub proof fn lemma_stale_block_replaced(
    entries: Seq<Entry>,
    content: Seq<char>,
    parent_has_index: bool,
    found: Option<Seq<char>>,
    marker: Seq<char>,
    start: int,
    end: int,
)
    requires
        !block_is_current(found, links_section_of(entries)),
        !occurs_at(content, fresh_region(parent_link(parent_has_index), links_section_of(entries), ""@), 0),
        marker == marker_up() || (marker == marker_here() && splice_at_marker(
            content,
            marker_up(),
            links_section_of(entries),
        ) is None),
        find_from(content, marker, 0) == Some(start),
        find_from(content, divider(), start) == Some(end),
    ensures
        ({
            let links = links_section_of(entries);
            let middle = marker + "\n"@ + links + block_close(links);
            let rest = after_divider(content, end);
            let n = content.take(start) + middle + content.skip(rest);
            &&& reconciled(entries, content, parent_has_index, found) == if n == content {
                None
            } else {
                Some(n)
            }
            &&& n.take(start) == content.take(start)
            &&& n.subrange(start, start + middle.len()) == middle
            &&& n.skip(start + middle.len()) == content.skip(rest)
        }),
{
    reveal_strlit("---");
    reveal_strlit("---\n---");
    let links = links_section_of(entries);
    let middle = marker + "\n"@ + links + block_close(links);
    let rest = after_divider(content, end);
    let n = content.take(start) + middle + content.skip(rest);
    lemma_find_from(content, marker, 0);
    lemma_find_from(content, divider(), start);
    assert(splice_at_marker(content, marker, links) == Some(n));
    assert(n.take(start) =~= content.take(start));
    assert(n.subrange(start, start + middle.len()) =~= middle);
    assert(n.skip(start + middle.len()) =~= content.skip(rest));
}

/// Stamping a content document puts the back-link and a blank line in front once; a
/// second stamping leaves it as it is.
pub proof fn lemma_stamp_once(content: Seq<char>)
    ensures
        !occurs_at(content, back_link(), 0) ==> stamped(content) == Some(back_link() + "\n\n"@ + content),
        match stamped(content) {
            Some(n) => stamped(n) is None,
            None => true,
        },
{
    reveal_strlit("[<-](./Readme.md)");
    if let Some(n) = stamped(content) {
        assert(n.subrange(0, back_link().len() as int) =~= back_link());
    }
}

}
