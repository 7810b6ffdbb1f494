//! Tables of contents: one entry per heading, and an anchor after each heading's text.

use vstd::prelude::*;
use crate::text::{
    chars_of, find_at, find_from, hyphenate, hyphenated, lemma_find_from, lower_of, lowercase,
    matches_at, occurs_at, repeat_char, string_of,
};

verus! {

broadcast use vstd::string::group_string_axioms;

/// A markdown parsing event, reduced to what the table of contents reads.
pub enum MdEvent {
    /// The start of a heading of the given level.
    StartHeading(u8),
    /// The end of a heading.
    EndHeading,
    /// A text node, and the character position in the document where it ends.
    Text(String, usize),
    /// Any other event.
    Other,
}

/// `s` without its trailing spaces.
pub open spec fn trim_end(s: Seq<char>) -> Seq<char>
    decreases s.len(),
{
    if s.len() > 0 && s.last() == ' ' {
        trim_end(s.drop_last())
    } else {
        s
    }
}

/// The anchor target of a heading: its lowercase text with spaces turned into hyphens.
pub open spec fn slug(text: Seq<char>) -> Seq<char> {
    hyphenate(lower_of(text))
}

/// The anchor put after a heading's text.
pub open spec fn anchor(text: Seq<char>) -> Seq<char> {
    "<a id=\""@ + slug(text) + "\"></a>"@
}

/// The table-of-contents line of a heading: two spaces of indentation per level below
/// the first, then a link to the heading's anchor.
pub open spec fn toc_entry(level: u8, header: Seq<char>) -> Seq<char> {
    Seq::new(2 * (if level > 0 { level - 1 } else { 0 }) as nat, |_i: int| ' ') + "- ["@ + header
        + "](#"@ + slug(header) + ")\n"@
}

/// What the generator has gathered after some events: the table of contents, the
/// heading being read (its level, its text so far, where its last text ends), and the
/// anchors to insert, each with its position.
pub struct TocState {
    pub toc: Seq<char>,
    pub level: Option<u8>,
    pub header: Seq<char>,
    pub text_end: Option<usize>,
    pub inserts: Seq<(int, Seq<char>)>,
}

/// The generator after one more event. A heading's text is all its text nodes, without
/// trailing spaces; its anchor goes where its last text node ends.
pub open spec fn step(st: TocState, ev: MdEvent) -> TocState {
    match ev {
        MdEvent::StartHeading(l) => TocState {
            level: Some(l),
            header: Seq::empty(),
            text_end: None,
            ..st
        },
        MdEvent::Text(t, e) => if st.level is Some {
            TocState { header: st.header + t@, text_end: Some(e), ..st }
        } else {
            st
        },
        MdEvent::EndHeading => match st.level {
            Some(l) => {
                let h = trim_end(st.header);
                TocState {
                    toc: if lower_of(h) != "table of contents"@ {
                        st.toc + toc_entry(l, h)
                    } else {
                        st.toc
                    },
                    level: None,
                    inserts: match st.text_end {
                        Some(e) => st.inserts.push((e as int, anchor(h))),
                        None => st.inserts,
                    },
                    ..st
                }
            },
            None => st,
        },
        MdEvent::Other => st,
    }
}

/// The generator after all the events.
pub open spec fn run(events: Seq<MdEvent>) -> TocState
    decreases events.len(),
{
    if events.len() == 0 {
        TocState {
            toc: "## Table of Contents\n\n"@,
            level: None,
            header: Seq::empty(),
            text_end: None,
            inserts: Seq::empty(),
        }
    } else {
        step(run(events.drop_last()), events.last())
    }
}

/// Whether the anchor already stands at position `p`, right there or after one space.
pub open spec fn anchor_present(c: Seq<char>, p: int, a: Seq<char>) -> bool {
    occurs_at(c, a, p) || occurs_at(c, " "@ + a, p)
}

/// `c` from `cursor` on, with each anchor inserted (after a space) at its position
/// unless it is already there. Positions that go backwards or past the end are passed
/// over; nothing else of `c` changes.
pub open spec fn with_anchors(c: Seq<char>, ins: Seq<(int, Seq<char>)>, cursor: int) -> Seq<char>
    decreases ins.len(),
{
    if ins.len() == 0 {
        c.skip(cursor)
    } else {
        let p = ins[0].0;
        let a = ins[0].1;
        if cursor <= p <= c.len() {
            c.subrange(cursor, p) + (if anchor_present(c, p, a) {
                Seq::empty()
            } else {
                " "@ + a
            }) + with_anchors(c, ins.drop_first(), p)
        } else {
            with_anchors(c, ins.drop_first(), cursor)
        }
    }
}

/// The anchors as positions and texts.
pub open spec fn inserts_view(v: Seq<(usize, String)>) -> Seq<(int, Seq<char>)> {
    v.map_values(|p: (usize, String)| (p.0 as int, p.1@))
}

/// Where every anchor is already present, the document is left as it is.
pub proof fn lemma_present_anchors_change_nothing(c: Seq<char>, ins: Seq<(int, Seq<char>)>, cursor: int)
    requires
        0 <= cursor <= c.len(),
        forall|i: int| 0 <= i < ins.len() ==> anchor_present(c, (#[trigger] ins[i]).0, ins[i].1),
    ensures
        with_anchors(c, ins, cursor) == c.skip(cursor),
    decreases ins.len(),
{
    if ins.len() > 0 {
        let p = ins[0].0;
        assert forall|i: int| 0 <= i < ins.drop_first().len() implies anchor_present(
            c,
            (#[trigger] ins.drop_first()[i]).0,
            ins.drop_first()[i].1,
        ) by {
            assert(ins.drop_first()[i] == ins[i + 1]);
        }
        if cursor <= p <= c.len() {
            lemma_present_anchors_change_nothing(c, ins.drop_first(), p);
            assert(c.subrange(cursor, p) + Seq::<char>::empty() + c.skip(p) =~= c.skip(cursor));
        } else {
            lemma_present_anchors_change_nothing(c, ins.drop_first(), cursor);
        }
    }
}

/// `s` without its trailing spaces.
pub fn trimmed_end(s: &str) -> (r: String)
    ensures
        r@ == trim_end(s@),
{
    let v = chars_of(s);
    let mut n: usize = v.len();
    assert(v@.take(n as int) =~= v@);
    while n > 0 && v[n - 1] == ' '
        invariant
            n <= v@.len(),
            trim_end(v@) == trim_end(v@.take(n as int)),
        decreases n,
    {
        assert(v@.take(n as int).drop_last() =~= v@.take(n - 1));
        n = n - 1;
    }
    assert(v@.take(n as int) =~= v@.subrange(0, n as int));
    string_of(&v, 0, n)
}

/// The table of contents of the events, and the anchors to insert with their positions.
pub fn toc_from_events(events: &Vec<MdEvent>) -> (r: (String, Vec<(usize, String)>))
    ensures
        r.0@ == run(events@).toc,
        inserts_view(r.1@) == run(events@).inserts,
{
    let mut toc = String::from_str("## Table of Contents\n\n");
    let mut level: Option<u8> = None;
    let mut header = String::new();
    let mut text_end: Option<usize> = None;
    let mut inserts: Vec<(usize, String)> = Vec::new();
    let mut i: usize = 0;
    assert(events@.take(0) =~= Seq::<MdEvent>::empty());
    assert(inserts_view(inserts@) =~= Seq::<(int, Seq<char>)>::empty());
    while i < events.len()
        invariant
            i <= events@.len(),
            run(events@.take(i as int)) == (TocState {
                toc: toc@,
                level,
                header: header@,
                text_end,
                inserts: inserts_view(inserts@),
            }),
        decreases events@.len() - i,
    {
        assert(events@.take(i + 1).drop_last() =~= events@.take(i as int));
        assert(events@.take(i + 1).last() == events@[i as int]);
        let ghost st = TocState { toc: toc@, level, header: header@, text_end, inserts: inserts_view(inserts@) };
        match &events[i] {
            MdEvent::StartHeading(l) => {
                level = Some(*l);
                header = String::new();
                text_end = None;
            },
            MdEvent::Text(t, e) => {
                if level.is_some() {
                    header.append(t.as_str());
                    text_end = Some(*e);
                }
            },
            MdEvent::EndHeading => {
                if let Some(l) = level {
                    let h = trimmed_end(header.as_str());
                    if lowercase(h.as_str()) != String::from_str("table of contents") {
                        let n: usize = if l > 0 { 2 * (l as usize - 1) } else { 0 };
                        toc.append(repeat_char(' ', n).as_str());
                        toc.append("- [");
                        toc.append(h.as_str());
                        toc.append("](#");
                        toc.append(hyphenated(lowercase(h.as_str()).as_str()).as_str());
                        toc.append(")\n");
                        assert(toc@ =~= st.toc + toc_entry(l, h@));
                    }
                    if let Some(e) = text_end {
                        let mut a = String::from_str("<a id=\"");
                        a.append(hyphenated(lowercase(h.as_str()).as_str()).as_str());
                        a.append("\"></a>");
                        let ghost old_ins = inserts@;
                        inserts.push((e, a));
                        assert(inserts_view(inserts@) =~= inserts_view(old_ins).push((e as int, anchor(h@))));
                    }
                    level = None;
                }
            },
            MdEvent::Other => {},
        }
        i = i + 1;
    }
    assert(events@.take(i as int) =~= events@);
    (toc, inserts)
}

/// The document with each anchor inserted, after a space, at its position unless it is
/// already there; nothing else changes.
pub fn add_anchors(content: &str, inserts: &Vec<(usize, String)>) -> (r: String)
    ensures
        r@ == with_anchors(content@, inserts_view(inserts@), 0),
{
    let v = chars_of(content);
    let ghost ins = inserts_view(inserts@);
    let mut out = String::new();
    let mut cursor: usize = 0;
    let mut i: usize = 0;
    assert(ins.skip(0) =~= ins);
    assert(out@ + with_anchors(v@, ins, 0) =~= with_anchors(v@, ins, 0));
    while i < inserts.len()
        invariant
            i <= inserts@.len(),
            cursor <= v@.len(),
            ins == inserts_view(inserts@),
            with_anchors(v@, ins, 0) == out@ + with_anchors(v@, ins.skip(i as int), cursor as int),
        decreases inserts@.len() - i,
    {
        let p = inserts[i].0;
        let ghost rest = ins.skip(i as int);
        assert(rest[0] == (p as int, inserts@[i as int].1@));
        assert(rest.drop_first() =~= ins.skip(i + 1));
        if cursor <= p && p <= v.len() {
            let a = chars_of(inserts[i].1.as_str());
            let mut spaced: Vec<char> = vec![' '];
            spaced.append(&mut chars_of(inserts[i].1.as_str()));
            assert(spaced@ =~= " "@ + a@) by {
                reveal_strlit(" ");
            }
            let present = matches_at(&v, &a, p) || matches_at(&v, &spaced, p);
            let ghost before = out@;
            out.append(string_of(&v, cursor, p).as_str());
            if !present {
                out.append(" ");
                out.append(inserts[i].1.as_str());
            }
            proof {
                let mid: Seq<char> = if anchor_present(v@, p as int, rest[0].1) { Seq::empty() } else { " "@ + rest[0].1 };
                assert(out@ =~= before + v@.subrange(cursor as int, p as int) + mid);
            }
            cursor = p;
        }
        i = i + 1;
    }
    assert(ins.skip(i as int) =~= Seq::<(int, Seq<char>)>::empty());
    let tail = string_of(&v, cursor, v.len());
    out.append(tail.as_str());
    out
}

/// The events that `pulldown_cmark` reports for a document, reduced to `MdEvent`s.
pub uninterp spec fn md_events_of(content: Seq<char>) -> Seq<MdEvent>;

/// Relies on `pulldown_cmark::Parser::new_ext` with no extensions and its
/// `into_offset_iter`: the events and their source ranges depend on the document alone.
/// Heading starts keep their level, heading ends are told from other ends, and each text
/// node keeps its text and the end of its range, counted in characters.
#[verifier::external_body]
fn parse_events(content: &str) -> (r: Vec<MdEvent>)
    ensures
        r@ == md_events_of(content@),
{
    let parser = pulldown_cmark::Parser::new_ext(content, pulldown_cmark::Options::empty());
    parser.into_offset_iter().map(|(e, range)| match e {
        pulldown_cmark::Event::Start(pulldown_cmark::Tag::Heading { level, .. }) => MdEvent::StartHeading(level as u8),
        pulldown_cmark::Event::End(pulldown_cmark::TagEnd::Heading(_)) => MdEvent::EndHeading,
        pulldown_cmark::Event::Text(t) => MdEvent::Text(t.to_string(), content[..range.end].chars().count()),
        _ => MdEvent::Other,
    }).collect()
}

/// The table of contents of a document, and the document with an anchor inserted right
/// after each heading's text (unless already there), otherwise unchanged.
pub fn generate_toc_and_add_anchors(content: &str) -> (r: (String, String))
    ensures
        r.0@ == run(md_events_of(content@)).toc,
        r.1@ == with_anchors(content@, run(md_events_of(content@)).inserts, 0),
{
    let events = parse_events(content);
    let (toc, inserts) = toc_from_events(&events);
    (toc, add_anchors(content, &inserts))
}

/// What follows the first line that starts with `# Table of Contents`, in any case,
/// if there is one.
pub uninterp spec fn after_toc_heading(content: Seq<char>) -> Option<Seq<char>>;

/// Relies on `regex::Regex::find` with the case-insensitive, multi-line pattern
/// `^# Table of Contents`: what follows the leftmost-first match depends on `content`
/// alone, and is a suffix of it (`Match::end` is an offset into `content`).
/// The pattern is a valid literal, so `Regex::new` does not fail.
#[verifier::external_body]
fn find_toc_heading(content: &str) -> (r: Option<String>)
    ensures
        match r {
            Some(t) => after_toc_heading(content@) == Some(t@) && t@.len() <= content@.len()
                && t@ == content@.skip(content@.len() - t@.len()),
            None => after_toc_heading(content@) is None,
        },
{
    let re = regex::Regex::new(r"(?mi)^# Table of Contents").unwrap();
    re.find(content).map(|m| content[m.end()..].to_string())
}

/// Whether some line of the document starts with `# Table of Contents`, in any case.
pub fn toc_exists(content: &str) -> (r: bool)
    ensures
        r == after_toc_heading(content@) is Some,
{
    find_toc_heading(content).is_some()
}

/// Where the old table of contents ends: at the next top-level heading after its own
/// heading (or after the start, without one), else at the end.
pub open spec fn toc_split_point(content: Seq<char>, after: Option<Seq<char>>) -> int {
    let from = match after {
        Some(t) => content.len() - t.len(),
        None => 0,
    };
    match find_from(content, "\n# "@, from) {
        Some(i) => i,
        None => content.len() as int,
    }
}

/// Splits a document in two, at `toc_split_point`, given what follows the
/// table-of-contents heading.
pub fn split_at_old_toc(content: &str, after: &Option<String>) -> (r: (String, String))
    requires
        match after {
            Some(t) => t@.len() <= content@.len(),
            None => true,
        },
    ensures
        ({
            let k = toc_split_point(content@, match after {
                Some(t) => Some(t@),
                None => None,
            });
            r.0@ == content@.take(k) && r.1@ == content@.skip(k)
        }),
{
    let v = chars_of(content);
    let from: usize = match after {
        Some(t) => v.len() - chars_of(t.as_str()).len(),
        None => 0,
    };
    let pat = chars_of("\n# ");
    let k: usize = match find_at(&v, &pat, from) {
        Some(i) => i,
        None => v.len(),
    };
    proof {
        lemma_find_from(v@, pat@, from as int);
    }
    (string_of(&v, 0, k), string_of(&v, k, v.len()))
}

/// Splits a document into its old table of contents and the rest.
pub fn split_toc_and_content(markdown: &str) -> (r: (String, String))
    ensures
        ({
            let k = toc_split_point(markdown@, after_toc_heading(markdown@));
            r.0@ == markdown@.take(k) && r.1@ == markdown@.skip(k)
        }),
{
    let after = find_toc_heading(markdown);
    split_at_old_toc(markdown, &after)
}

/// The document with `new_toc` in front of `content`; the old table of contents is
/// replaced whether or not it differs.
pub fn update_toc(old_toc: &str, new_toc: &str, content: &str) -> (r: String)
    ensures
        r@ == new_toc@ + "\n\n"@ + content@,
{
    if String::from_str(new_toc) != String::from_str(old_toc) {
        let mut out = String::from_str(new_toc);
        out.append("\n\n");
        out.append(content);
        out
    } else {
        let mut out = String::from_str(old_toc);
        out.append("\n\n");
        out.append(content);
        out
    }
}

/// The document to write for a markdown file, or `None` when its table of contents and
/// anchors are already up to date. Without a table-of-contents heading, the whole file
/// gets a fresh one; with one, the part after the old table is regenerated.
pub open spec fn toc_document_of(markdown: Seq<char>) -> Option<Seq<char>> {
    if after_toc_heading(markdown) is None {
        let st = run(md_events_of(markdown));
        Some(st.toc + "\n\n"@ + with_anchors(markdown, st.inserts, 0))
    } else {
        let k = toc_split_point(markdown, after_toc_heading(markdown));
        let old_toc = markdown.take(k);
        let content = markdown.skip(k);
        let st = run(md_events_of(content));
        let body = with_anchors(content, st.inserts, 0);
        if old_toc != st.toc || content != body {
            Some(st.toc + "\n\n"@ + body)
        } else {
            None
        }
    }
}

/// The document to write for a markdown file, or `None` when nothing changes.
pub fn toc_document(markdown: &str) -> (r: Option<String>)
    ensures
        match r {
            Some(n) => toc_document_of(markdown@) == Some(n@),
            None => toc_document_of(markdown@) is None,
        },
{
    if !toc_exists(markdown) {
        let (new_toc, new_content) = generate_toc_and_add_anchors(markdown);
        let mut out = new_toc;
        out.append("\n\n");
        out.append(new_content.as_str());
        Some(out)
    } else {
        let (old_toc, content) = split_toc_and_content(markdown);
        let (new_toc, new_content) = generate_toc_and_add_anchors(content.as_str());
        if old_toc != new_toc || content != new_content {
            Some(update_toc(old_toc.as_str(), new_toc.as_str(), new_content.as_str()))
        } else {
            None
        }
    }
}

}
