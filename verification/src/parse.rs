//! From mandoc's HTML (as a tree) to a `Document`.
//!
//! Sections are the `section.Sh` children of `div.manual-text`; inside
//! them, paragraphs, definition lists, lists and indented displays become
//! blocks. Unrecognized wrapper elements (nested <section> for Ss
//! subsections, stray <div>s) are flattened rather than dropped, and text
//! or inline markup standing outside any paragraph (the NAME line of a
//! man(7) page) becomes a paragraph of its own, so content never silently
//! disappears.
use vstd::prelude::*;
use crate::document::{
    Block, BlockM, DefItem, DefItemM, Document, DocumentM, Section, SectionM, Span, SpanM,
    blocks_model, items_model, spans_view, span_lists_view, lemma_blocks_model_push,
    lemma_items_model_push,
};
use crate::html::{
    HtmlEvent, HtmlNode, NodeV, Tag, TagV, nodes_model, lemma_nodes_model, build_tree, events_view,
    tree_of_events, fragment_edges, fragment_events,
};
use crate::links::{linkify_spans, linkify_spans_exec, sub_string};
use crate::text::{
    all_ws, chars_of, collapsed, collapse_chars, normalized_ws, normalize_ws_chars, has_sub,
    contains_chars, string_of, str_is, is_all_whitespace,
};
use crate::indexer::{plain, plain_text};

verus! {

/// ASCII whitespace as HTML uses it to separate class names.
pub open spec fn is_ascii_ws(c: char) -> bool {
    c == ' ' || c == '\t' || c == '\n' || c == '\u{c}' || c == '\r'
}

/// The `class` attribute, empty when absent.
pub open spec fn class_text(t: TagV) -> Seq<char> {
    match t.class {
        Some(c) => c,
        None => Seq::empty(),
    }
}

/// The `id` attribute, empty when absent.
pub open spec fn id_text(t: TagV) -> Seq<char> {
    match t.id {
        Some(c) => c,
        None => Seq::empty(),
    }
}

/// `tok` is one of the whitespace-separated names in the class attribute
/// (what the CSS selector `.tok` tests).
pub open spec fn has_class(t: TagV, tok: Seq<char>) -> bool {
    let c = class_text(t);
    exists|i: int|
        0 <= i && i + tok.len() <= c.len() && #[trigger] c.subrange(i, i + tok.len()) == tok && (
        i == 0 || is_ascii_ws(c[i - 1])) && (i + tok.len() == c.len() || is_ascii_ws(
            c[i + tok.len()],
        ))
}

/// An element with the given name.
pub open spec fn elem_is(n: NodeV, name: Seq<char>) -> bool {
    match n {
        NodeV::Element(t, _) => t.name == name,
        _ => false,
    }
}

/// An element with the given name and class (the CSS selector `name.cls`).
pub open spec fn elem_with_class(n: NodeV, name: Seq<char>, cls: Seq<char>) -> bool {
    match n {
        NodeV::Element(t, _) => t.name == name && has_class(t, cls),
        _ => false,
    }
}

/// All text below a node, in document order.
pub open spec fn text_of(n: NodeV) -> Seq<char>
    decreases n,
{
    match n {
        NodeV::Text(s) => s,
        NodeV::Element(_, kids) => text_kids(kids),
        NodeV::Other(kids) => text_kids(kids),
    }
}

pub open spec fn text_kids(kids: Seq<NodeV>) -> Seq<char>
    decreases kids,
{
    if kids.len() == 0 {
        Seq::empty()
    } else {
        text_kids(kids.drop_last()) + text_of(kids.last())
    }
}

/// The first `td.cls` element at or below `n`, in document order.
pub open spec fn first_td(n: NodeV, cls: Seq<char>) -> Option<NodeV>
    decreases n,
{
    if elem_with_class(n, "td"@, cls) {
        Some(n)
    } else {
        match n {
            NodeV::Element(_, kids) => first_td_kids(kids, cls),
            NodeV::Other(kids) => first_td_kids(kids, cls),
            NodeV::Text(_) => None,
        }
    }
}

pub open spec fn first_td_kids(kids: Seq<NodeV>, cls: Seq<char>) -> Option<NodeV>
    decreases kids,
{
    if kids.len() == 0 {
        None
    } else {
        match first_td_kids(kids.drop_last(), cls) {
            Some(x) => Some(x),
            None => first_td(kids.last(), cls),
        }
    }
}

/// The collapsed text of the first `td.cls`, or nothing.
pub open spec fn select_text(root: NodeV, cls: Seq<char>) -> Seq<char> {
    match first_td(root, cls) {
        Some(e) => collapsed(text_of(e)),
        None => Seq::empty(),
    }
}

/// Where an href of the form "name.section" splits: its last '.'.
pub open spec fn last_dot(h: Seq<char>, n: int) -> Option<int>
    decreases n,
{
    if n <= 0 || n > h.len() {
        None
    } else if h[n - 1] == '.' {
        Some(n - 1)
    } else {
        last_dot(h, n - 1)
    }
}

/// The (name, section) that a mandoc cross-reference anchor points to.
pub open spec fn xr_target(t: TagV) -> Option<(Seq<char>, Seq<char>)> {
    if t.name == "a"@ && has_class(t, "Xr"@) && t.href is Some {
        let h = t.href->Some_0;
        match last_dot(h, h.len() as int) {
            Some(d) => if 0 < d && d + 1 < h.len() {
                Some((h.subrange(0, d), h.subrange(d + 1, h.len() as int)))
            } else {
                None
            },
            None => None,
        }
    } else {
        None
    }
}

/// A styled span, or nothing when its text is empty.
pub open spec fn styled(kind: int, t: Seq<char>) -> Seq<SpanM> {
    if t.len() == 0 {
        Seq::empty()
    } else if kind == 0 {
        seq![SpanM::Bold(t)]
    } else if kind == 1 {
        seq![SpanM::Italic(t)]
    } else {
        seq![SpanM::Code(t)]
    }
}

/// The inline spans that one node contributes: text with its whitespace
/// normalized, bold/italic/code runs, cross-reference anchors; other
/// inline wrappers are looked through.
pub open spec fn span_contrib(n: NodeV) -> Seq<SpanM>
    decreases n,
{
    match n {
        NodeV::Text(s) => {
            let t = normalized_ws(s);
            if t.len() > 0 {
                seq![SpanM::Text(t)]
            } else {
                Seq::empty()
            }
        },
        NodeV::Element(tag, kids) => {
            if tag.name == "b"@ || tag.name == "strong"@ {
                styled(0, collapsed(text_kids(kids)))
            } else if tag.name == "i"@ || tag.name == "em"@ {
                styled(1, collapsed(text_kids(kids)))
            } else if tag.name == "code"@ {
                styled(2, collapsed(text_kids(kids)))
            } else if xr_target(tag) is Some {
                let t = collapsed(text_kids(kids));
                let (name, section) = xr_target(tag)->Some_0;
                if t.len() > 0 {
                    seq![SpanM::Link { text: t, name, section }]
                } else {
                    Seq::empty()
                }
            } else {
                collect_kids(kids)
            }
        },
        NodeV::Other(_) => Seq::empty(),
    }
}

pub open spec fn collect_kids(kids: Seq<NodeV>) -> Seq<SpanM>
    decreases kids,
{
    if kids.len() == 0 {
        Seq::empty()
    } else {
        collect_kids(kids.drop_last()) + span_contrib(kids.last())
    }
}

/// The spans of an element's content, with cross-references made links.
pub open spec fn spans_of_kids(kids: Seq<NodeV>) -> Seq<SpanM> {
    linkify_spans(collect_kids(kids))
}

/// Definition-list parsing state: the items so far and a term still
/// waiting for its description.
pub struct DlState {
    pub items: Seq<DefItemM>,
    pub pending: Option<Seq<SpanM>>,
}

/// The first child element whose name starts with 'h'.
pub open spec fn first_h(kids: Seq<NodeV>) -> Option<NodeV>
    decreases kids.len(),
{
    if kids.len() == 0 {
        None
    } else {
        match first_h(kids.drop_last()) {
            Some(x) => Some(x),
            None => match kids.last() {
                NodeV::Element(t, _) => if t.name.len() > 0 && t.name[0] == 'h' {
                    Some(kids.last())
                } else {
                    None
                },
                _ => None,
            },
        }
    }
}

/// A nested subsection's sub-heading, kept as a bold paragraph.
pub open spec fn sub_heading(kids: Seq<NodeV>) -> Seq<BlockM> {
    match first_h(kids) {
        Some(h) => seq![BlockM::Paragraph(seq![SpanM::Bold(collapsed(text_of(h)))])],
        None => Seq::empty(),
    }
}

/// The items of a bullet or numbered list: one span run per `li` child.
pub open spec fn li_items(kids: Seq<NodeV>) -> Seq<Seq<SpanM>>
    decreases kids.len(),
{
    if kids.len() == 0 {
        Seq::empty()
    } else {
        li_items(kids.drop_last()) + match kids.last() {
            NodeV::Element(t, k) => if t.name == "li"@ {
                seq![spans_of_kids(k)]
            } else {
                Seq::empty()
            },
            _ => Seq::empty(),
        }
    }
}

/// Elements that read as part of a paragraph rather than as a block.
pub open spec fn is_inline_name(name: Seq<char>) -> bool {
    ||| name == "a"@
    ||| name == "b"@
    ||| name == "i"@
    ||| name == "em"@
    ||| name == "strong"@
    ||| name == "code"@
    ||| name == "span"@
    ||| name == "br"@
    ||| name == "u"@
    ||| name == "small"@
    ||| name == "sub"@
    ||| name == "sup"@
    ||| name == "var"@
    ||| name == "kbd"@
    ||| name == "samp"@
    ||| name == "cite"@
    ||| name == "q"@
    ||| name == "tt"@
}

/// Headings: their text is the heading of the section that holds them.
pub open spec fn is_heading_name(name: Seq<char>) -> bool {
    ||| name == "h1"@
    ||| name == "h2"@
    ||| name == "h3"@
    ||| name == "h4"@
    ||| name == "h5"@
    ||| name == "h6"@
}

/// A child that belongs to a run of inline content: text, an inline
/// element, or a node that is neither (a comment), which adds nothing.
pub open spec fn is_inline(n: NodeV) -> bool {
    match n {
        NodeV::Element(t, _) => is_inline_name(t.name),
        _ => true,
    }
}

/// The paragraph that a run of inline content makes, when it holds some
/// text other than whitespace.
pub open spec fn run_para(run: Seq<NodeV>) -> Seq<BlockM> {
    let sp = spans_of_kids(run);
    if all_ws(plain(sp)) {
        Seq::empty()
    } else {
        seq![BlockM::Paragraph(sp)]
    }
}

/// Blocks built from children so far, and the run of inline children
/// that has not yet become a paragraph.
pub struct BlocksAcc {
    pub blocks: Seq<BlockM>,
    pub run: Seq<NodeV>,
}

/// The blocks that one child element contributes.
pub open spec fn block_contrib(n: NodeV) -> Seq<BlockM>
    decreases n,
{
    match n {
        NodeV::Element(tag, kids) => {
            if tag.name == "p"@ {
                let sp = spans_of_kids(kids);
                if sp.len() > 0 {
                    seq![BlockM::Paragraph(sp)]
                } else {
                    Seq::empty()
                }
            } else if tag.name == "dl"@ {
                seq![BlockM::DefList(finish_dl(dl_state(kids)))]
            } else if tag.name == "ul"@ || tag.name == "ol"@ {
                seq![BlockM::List(li_items(kids))]
            } else if tag.name == "div"@ && has_sub(class_text(tag), "Bd"@) {
                seq![BlockM::Indent(flushed(blocks_acc(kids)))]
            } else if tag.name == "section"@ {
                seq![BlockM::Indent(sub_heading(kids) + flushed(blocks_acc(kids)))]
            } else if tag.name == "table"@ || is_heading_name(tag.name) {
                Seq::empty()
            } else {
                flushed(blocks_acc(kids))
            }
        },
        _ => Seq::empty(),
    }
}

/// The children read one by one: inline children gather into a run; a
/// block child first turns the run into a paragraph, then adds its own
/// blocks.
pub open spec fn blocks_acc(kids: Seq<NodeV>) -> BlocksAcc
    decreases kids,
{
    if kids.len() == 0 {
        BlocksAcc { blocks: Seq::empty(), run: Seq::empty() }
    } else {
        let a = blocks_acc(kids.drop_last());
        let n = kids.last();
        if is_inline(n) {
            BlocksAcc { blocks: a.blocks, run: a.run.push(n) }
        } else {
            BlocksAcc { blocks: a.blocks + run_para(a.run) + block_contrib(n), run: Seq::empty() }
        }
    }
}

/// The blocks read so far, with the pending run made a paragraph.
pub open spec fn flushed(a: BlocksAcc) -> Seq<BlockM> {
    a.blocks + run_para(a.run)
}

/// The blocks of an element's children, in order: nothing with text is
/// dropped, inline content outside any paragraph becoming paragraphs of
/// its own.
pub open spec fn blocks_of_kids(kids: Seq<NodeV>) -> Seq<BlockM> {
    flushed(blocks_acc(kids))
}

/// The definition-list state after the given children.
pub open spec fn dl_state(kids: Seq<NodeV>) -> DlState
    decreases kids,
{
    if kids.len() == 0 {
        DlState { items: Seq::empty(), pending: None }
    } else {
        dl_step(dl_state(kids.drop_last()), kids.last())
    }
}

/// One child of a definition list: a `dt` starts a term (flushing an
/// orphaned earlier one with an empty body), a `dd` completes an item.
pub open spec fn dl_step(st: DlState, n: NodeV) -> DlState
    decreases n,
{
    match n {
        NodeV::Element(tag, kids) => {
            if tag.name == "dt"@ {
                DlState {
                    items: st.items + match st.pending {
                        Some(t) => seq![DefItemM { term: t, body: Seq::empty() }],
                        None => Seq::empty(),
                    },
                    pending: Some(spans_of_kids(kids)),
                }
            } else if tag.name == "dd"@ {
                let body = flushed(blocks_acc(kids));
                let body2 = if body.len() == 0 {
                    let sp = spans_of_kids(kids);
                    if sp.len() > 0 {
                        seq![BlockM::Paragraph(sp)]
                    } else {
                        Seq::empty()
                    }
                } else {
                    body
                };
                let term = match st.pending {
                    Some(t) => t,
                    None => Seq::empty(),
                };
                DlState { items: st.items.push(DefItemM { term, body: body2 }), pending: None }
            } else {
                st
            }
        },
        _ => st,
    }
}

/// The items of a definition list, a trailing orphaned term included.
pub open spec fn finish_dl(st: DlState) -> Seq<DefItemM> {
    st.items + match st.pending {
        Some(t) => seq![DefItemM { term: t, body: Seq::empty() }],
        None => Seq::empty(),
    }
}

/// The first `h1` child.
pub open spec fn first_h1(kids: Seq<NodeV>) -> Option<NodeV>
    decreases kids.len(),
{
    if kids.len() == 0 {
        None
    } else {
        match first_h1(kids.drop_last()) {
            Some(x) => Some(x),
            None => if elem_is(kids.last(), "h1"@) {
                Some(kids.last())
            } else {
                None
            },
        }
    }
}

/// A top-level section: heading and id from its `h1`, blocks from its children.
pub open spec fn section_of(n: NodeV) -> SectionM {
    let kids = n.children();
    match first_h1(kids) {
        Some(h) => SectionM {
            id: id_text(h->Element_0),
            heading: collapsed(text_of(h)),
            blocks: blocks_of_kids(kids),
        },
        None => SectionM { id: Seq::empty(), heading: Seq::empty(), blocks: blocks_of_kids(kids) },
    }
}

/// The sections at or below `n`: every `section.Sh` child of a
/// `div.manual-text`, in document order.
pub open spec fn sections_in(n: NodeV) -> Seq<SectionM>
    decreases n,
{
    match n {
        NodeV::Element(tag, kids) => sections_kids(
            kids,
            tag.name == "div"@ && has_class(tag, "manual-text"@),
        ),
        NodeV::Other(kids) => sections_kids(kids, false),
        NodeV::Text(_) => Seq::empty(),
    }
}

pub open spec fn sections_kids(kids: Seq<NodeV>, manual_text: bool) -> Seq<SectionM>
    decreases kids,
{
    if kids.len() == 0 {
        Seq::empty()
    } else {
        let last = kids.last();
        sections_kids(kids.drop_last(), manual_text) + (if manual_text && elem_with_class(
            last,
            "section"@,
            "Sh"@,
        ) {
            seq![section_of(last)]
        } else {
            Seq::empty()
        }) + sections_in(last)
    }
}

/// The page that mandoc's HTML describes.
pub open spec fn document_of(root: NodeV) -> DocumentM {
    DocumentM {
        title: select_text(root, "head-ltitle"@),
        volume: select_text(root, "head-vol"@),
        sections: sections_in(root),
    }
}

fn extend_chars(out: &mut Vec<char>, more: Vec<char>)
    ensures
        final(out)@ == old(out)@ + more@,
{
    let mut more = more;
    out.append(&mut more);
}

/// All text below a node, in document order.
pub fn text_of_exec(n: &HtmlNode) -> (r: Vec<char>)
    ensures
        r@ == text_of(n@),
    decreases n,
{
    match n {
        HtmlNode::Text(s) => chars_of(s.as_str()),
        HtmlNode::Element(_, kids) => text_kids_exec(kids),
        HtmlNode::Other(kids) => text_kids_exec(kids),
    }
}

fn text_kids_exec(kids: &Vec<HtmlNode>) -> (r: Vec<char>)
    ensures
        r@ == text_kids(nodes_model(kids@)),
    decreases kids,
{
    let ghost ks = nodes_model(kids@);
    proof {
        lemma_nodes_model(kids@);
    }
    let mut r: Vec<char> = Vec::new();
    let mut i: usize = 0;
    while i < kids.len()
        invariant
            i <= kids.len(),
            ks == nodes_model(kids@),
            ks.len() == kids.len(),
            forall|j: int| 0 <= j < kids.len() ==> #[trigger] ks[j] == kids@[j]@,
            r@ == text_kids(ks.take(i as int)),
        decreases kids.len() - i,
    {
        assert(ks.take(i + 1).drop_last() =~= ks.take(i as int));
        assert(ks.take(i + 1).last() == kids@[i as int]@);
        let t = text_of_exec(&kids[i]);
        extend_chars(&mut r, t);
        i = i + 1;
    }
    assert(ks.take(kids.len() as int) =~= ks);
    r
}

/// Whether the element's class attribute lists `tok`.
pub fn has_class_exec(t: &Tag, tok: &Vec<char>) -> (r: bool)
    ensures
        r == has_class(t@, tok@),
{
    let c: Vec<char> = match &t.class {
        Some(s) => chars_of(s.as_str()),
        None => Vec::new(),
    };
    assert(c@ == class_text(t@));
    if tok.len() > c.len() {
        return false;
    }
    let last = c.len() - tok.len();
    let mut i: usize = 0;
    loop
        invariant
            tok.len() <= c.len(),
            last == c.len() - tok.len(),
            c@ == class_text(t@),
            i <= last,
            forall|k: int|
                0 <= k < i ==> !(#[trigger] c@.subrange(k, k + tok@.len()) == tok@ && (k == 0
                    || is_ascii_ws(c@[k - 1])) && (k + tok@.len() == c@.len() || is_ascii_ws(
                    c@[k + tok@.len()],
                ))),
        decreases last - i,
    {
        let left_ok = i == 0 || is_ascii_ws_exec(c[i - 1]);
        let end = i + tok.len();
        let right_ok = end == c.len() || is_ascii_ws_exec(c[end]);
        if left_ok && right_ok {
            let sub = crate::links::slice_range(&c, i, end);
            if crate::text::chars_eq(&sub, tok) {
                return true;
            }
        }
        if i == last {
            assert forall|k: int|
                0 <= k && k + tok@.len() <= c@.len() implies !(#[trigger] c@.subrange(
                k,
                k + tok@.len(),
            ) == tok@ && (k == 0 || is_ascii_ws(c@[k - 1])) && (k + tok@.len() == c@.len()
                || is_ascii_ws(c@[k + tok@.len()]))) by {
                assert(k <= i);
            }
            return false;
        }
        i = i + 1;
    }
}

fn is_ascii_ws_exec(c: char) -> (r: bool)
    ensures
        r == is_ascii_ws(c),
{
    c == ' ' || c == '\t' || c == '\n' || c == '\u{c}' || c == '\r'
}

/// Whether an element is named `name`.
pub fn tag_is(t: &Tag, name: &str) -> (r: bool)
    ensures
        r == (t@.name == name@),
{
    str_is(&t.name, name)
}

/// The first `td.cls` element at or below `n`, in document order.
pub fn first_td_exec<'a>(n: &'a HtmlNode, cls: &Vec<char>) -> (r: Option<&'a HtmlNode>)
    ensures
        match r {
            Some(x) => first_td(n@, cls@) == Some(x@),
            None => first_td(n@, cls@) is None,
        },
    decreases n,
{
    match n {
        HtmlNode::Element(tag, kids) => {
            if tag_is(tag, "td") && has_class_exec(tag, cls) {
                Some(n)
            } else {
                first_td_kids_exec(kids, cls)
            }
        },
        HtmlNode::Other(kids) => first_td_kids_exec(kids, cls),
        HtmlNode::Text(_) => None,
    }
}

fn first_td_kids_exec<'a>(kids: &'a Vec<HtmlNode>, cls: &Vec<char>) -> (r: Option<&'a HtmlNode>)
    ensures
        match r {
            Some(x) => first_td_kids(nodes_model(kids@), cls@) == Some(x@),
            None => first_td_kids(nodes_model(kids@), cls@) is None,
        },
    decreases kids,
{
    let ghost ks = nodes_model(kids@);
    proof {
        lemma_nodes_model(kids@);
    }
    let mut i: usize = 0;
    while i < kids.len()
        invariant
            i <= kids.len(),
            ks == nodes_model(kids@),
            ks.len() == kids.len(),
            forall|j: int| 0 <= j < kids.len() ==> #[trigger] ks[j] == kids@[j]@,
            first_td_kids(ks.take(i as int), cls@) is None,
        decreases kids.len() - i,
    {
        assert(ks.take(i + 1).drop_last() =~= ks.take(i as int));
        assert(ks.take(i + 1).last() == kids@[i as int]@);
        match first_td_exec(&kids[i], cls) {
            Some(x) => {
                proof {
                    lemma_first_td_kids_extend(ks, i as int + 1, cls@);
                }
                return Some(x);
            },
            None => {},
        }
        i = i + 1;
    }
    assert(ks.take(kids.len() as int) =~= ks);
    None
}

proof fn lemma_first_td_kids_extend(ks: Seq<NodeV>, i: int, cls: Seq<char>)
    requires
        0 <= i <= ks.len(),
        first_td_kids(ks.take(i), cls) is Some,
    ensures
        first_td_kids(ks, cls) == first_td_kids(ks.take(i), cls),
    decreases ks.len() - i,
{
    if i < ks.len() {
        assert(ks.take(i + 1).drop_last() =~= ks.take(i));
        lemma_first_td_kids_extend(ks, i + 1, cls);
    } else {
        assert(ks.take(i) =~= ks);
    }
}

/// The collapsed text of the first `td.cls`, or the empty string.
pub fn select_text_exec(root: &HtmlNode, cls: &str) -> (r: String)
    ensures
        r@ == select_text(root@, cls@),
{
    let c = chars_of(cls);
    match first_td_exec(root, &c) {
        Some(e) => {
            let t = text_of_exec(e);
            string_of(&collapse_chars(&t))
        },
        None => String::new(),
    }
}

fn last_dot_exec(h: &Vec<char>) -> (r: Option<usize>)
    ensures
        match r {
            Some(d) => last_dot(h@, h@.len() as int) == Some(d as int) && d < h.len(),
            None => last_dot(h@, h@.len() as int) is None,
        },
{
    let mut n = h.len();
    while n > 0
        invariant
            n <= h.len(),
            last_dot(h@, n as int) == last_dot(h@, h@.len() as int),
        decreases n,
    {
        if h[n - 1] == '.' {
            return Some(n - 1);
        }
        n = n - 1;
    }
    None
}

/// The (name, section) that a mandoc cross-reference anchor points to.
pub fn xr_target_exec(t: &Tag) -> (r: Option<(String, String)>)
    ensures
        match r {
            Some((a, b)) => xr_target(t@) == Some((a@, b@)),
            None => xr_target(t@) is None,
        },
{
    if !tag_is(t, "a") {
        return None;
    }
    let xr = chars_of("Xr");
    if !has_class_exec(t, &xr) {
        return None;
    }
    match &t.href {
        Some(h) => {
            let hc = chars_of(h.as_str());
            match last_dot_exec(&hc) {
                Some(d) => {
                    if 0 < d && d + 1 < hc.len() {
                        Some((sub_string(&hc, 0, d), sub_string(&hc, d + 1, hc.len())))
                    } else {
                        None
                    }
                },
                None => None,
            }
        },
        None => None,
    }
}

fn push_styled(out: &mut Vec<Span>, kind: u8, t: Vec<char>)
    requires
        kind <= 2,
    ensures
        spans_view(final(out)@) == spans_view(old(out)@) + styled(kind as int, t@),
{
    let ghost o = spans_view(out@);
    if t.len() == 0 {
        assert(spans_view(out@) =~= o + styled(kind as int, t@));
        return ;
    }
    let s = string_of(&t);
    if kind == 0 {
        out.push(Span::Bold(s));
    } else if kind == 1 {
        out.push(Span::Italic(s));
    } else {
        out.push(Span::Code(s));
    }
    assert(spans_view(out@) =~= o + styled(kind as int, t@));
}

/// Appends the inline spans that one node contributes.
pub fn span_contrib_exec(n: &HtmlNode, out: &mut Vec<Span>)
    ensures
        spans_view(final(out)@) == spans_view(old(out)@) + span_contrib(n@),
    decreases n,
{
    let ghost o = spans_view(out@);
    match n {
        HtmlNode::Text(s) => {
            let cs = chars_of(s.as_str());
            let t = normalize_ws_chars(&cs);
            if t.len() > 0 {
                out.push(Span::Text(string_of(&t)));
            }
            assert(spans_view(out@) =~= o + span_contrib(n@));
        },
        HtmlNode::Element(tag, kids) => {
            if tag_is(tag, "b") || tag_is(tag, "strong") {
                let t = text_kids_exec(kids);
                push_styled(out, 0, collapse_chars(&t));
            } else if tag_is(tag, "i") || tag_is(tag, "em") {
                let t = text_kids_exec(kids);
                push_styled(out, 1, collapse_chars(&t));
            } else if tag_is(tag, "code") {
                let t = text_kids_exec(kids);
                push_styled(out, 2, collapse_chars(&t));
            } else {
                match xr_target_exec(tag) {
                    Some((name, section)) => {
                        let t = text_kids_exec(kids);
                        let c = collapse_chars(&t);
                        if c.len() > 0 {
                            out.push(Span::Link { text: string_of(&c), name, section });
                        }
                        assert(spans_view(out@) =~= o + span_contrib(n@));
                    },
                    None => {
                        collect_kids_exec(kids, out);
                    },
                }
            }
        },
        HtmlNode::Other(_) => {
            assert(spans_view(out@) =~= o + span_contrib(n@));
        },
    }
}

/// Appends the inline spans of a run of nodes.
pub fn collect_kids_exec(kids: &Vec<HtmlNode>, out: &mut Vec<Span>)
    ensures
        spans_view(final(out)@) == spans_view(old(out)@) + collect_kids(nodes_model(kids@)),
    decreases kids,
{
    let ghost ks = nodes_model(kids@);
    let ghost o = spans_view(out@);
    proof {
        lemma_nodes_model(kids@);
    }
    let mut i: usize = 0;
    assert(collect_kids(ks.take(0)) =~= Seq::<SpanM>::empty());
    assert(spans_view(out@) =~= o + collect_kids(ks.take(0)));
    while i < kids.len()
        invariant
            i <= kids.len(),
            ks == nodes_model(kids@),
            ks.len() == kids.len(),
            forall|j: int| 0 <= j < kids.len() ==> #[trigger] ks[j] == kids@[j]@,
            spans_view(out@) == o + collect_kids(ks.take(i as int)),
        decreases kids.len() - i,
    {
        assert(ks.take(i + 1).drop_last() =~= ks.take(i as int));
        assert(ks.take(i + 1).last() == kids@[i as int]@);
        span_contrib_exec(&kids[i], out);
        i = i + 1;
        assert(spans_view(out@) =~= o + collect_kids(ks.take(i as int)));
    }
    assert(ks.take(kids.len() as int) =~= ks);
}

/// The spans of an element's content, with cross-references made links.
pub fn spans_of_kids_exec(kids: &Vec<HtmlNode>) -> (r: Vec<Span>)
    ensures
        spans_view(r@) == spans_of_kids(nodes_model(kids@)),
{
    let mut raw: Vec<Span> = Vec::new();
    collect_kids_exec(kids, &mut raw);
    assert(spans_view(raw@) =~= collect_kids(nodes_model(kids@)));
    linkify_spans_exec(&raw)
}

fn push_block(out: &mut Vec<Block>, b: Block)
    ensures
        blocks_model(final(out)@) == blocks_model(old(out)@).push(b@),
{
    proof {
        lemma_blocks_model_push(out@, b);
    }
    out.push(b);
}

fn push_item(out: &mut Vec<DefItem>, b: DefItem)
    ensures
        items_model(final(out)@) == items_model(old(out)@).push(b@),
{
    proof {
        lemma_items_model_push(out@, b);
        assert(blocks_model(Seq::<Block>::empty()) =~= Seq::<BlockM>::empty());
    }
    out.push(b);
}

/// The first child element whose name starts with 'h'.
fn first_h_exec(kids: &Vec<HtmlNode>) -> (r: Option<&HtmlNode>)
    ensures
        match r {
            Some(x) => first_h(nodes_model(kids@)) == Some(x@),
            None => first_h(nodes_model(kids@)) is None,
        },
{
    let ghost ks = nodes_model(kids@);
    proof {
        lemma_nodes_model(kids@);
    }
    let mut i: usize = 0;
    while i < kids.len()
        invariant
            i <= kids.len(),
            ks == nodes_model(kids@),
            ks.len() == kids.len(),
            forall|j: int| 0 <= j < kids.len() ==> #[trigger] ks[j] == kids@[j]@,
            first_h(ks.take(i as int)) is None,
        decreases kids.len() - i,
    {
        assert(ks.take(i + 1).drop_last() =~= ks.take(i as int));
        assert(ks.take(i + 1).last() == kids@[i as int]@);
        match &kids[i] {
            HtmlNode::Element(tag, _) => {
                let nm = chars_of(tag.name.as_str());
                if nm.len() > 0 && nm[0] == 'h' {
                    proof {
                        lemma_first_h_extend(ks, i as int + 1);
                    }
                    return Some(&kids[i]);
                }
            },
            _ => {},
        }
        i = i + 1;
    }
    assert(ks.take(kids.len() as int) =~= ks);
    None
}

proof fn lemma_first_h_extend(ks: Seq<NodeV>, i: int)
    requires
        0 <= i <= ks.len(),
        first_h(ks.take(i)) is Some,
    ensures
        first_h(ks) == first_h(ks.take(i)),
    decreases ks.len() - i,
{
    if i < ks.len() {
        assert(ks.take(i + 1).drop_last() =~= ks.take(i));
        lemma_first_h_extend(ks, i + 1);
    } else {
        assert(ks.take(i) =~= ks);
    }
}

/// The first `h1` child.
fn first_h1_exec(kids: &Vec<HtmlNode>) -> (r: Option<&HtmlNode>)
    ensures
        match r {
            Some(x) => first_h1(nodes_model(kids@)) == Some(x@) && x is Element,
            None => first_h1(nodes_model(kids@)) is None,
        },
{
    let ghost ks = nodes_model(kids@);
    proof {
        lemma_nodes_model(kids@);
    }
    let mut i: usize = 0;
    while i < kids.len()
        invariant
            i <= kids.len(),
            ks == nodes_model(kids@),
            ks.len() == kids.len(),
            forall|j: int| 0 <= j < kids.len() ==> #[trigger] ks[j] == kids@[j]@,
            first_h1(ks.take(i as int)) is None,
        decreases kids.len() - i,
    {
        assert(ks.take(i + 1).drop_last() =~= ks.take(i as int));
        assert(ks.take(i + 1).last() == kids@[i as int]@);
        match &kids[i] {
            HtmlNode::Element(tag, _) => {
                if tag_is(tag, "h1") {
                    proof {
                        lemma_first_h1_extend(ks, i as int + 1);
                    }
                    return Some(&kids[i]);
                }
            },
            _ => {},
        }
        i = i + 1;
    }
    assert(ks.take(kids.len() as int) =~= ks);
    None
}

proof fn lemma_first_h1_extend(ks: Seq<NodeV>, i: int)
    requires
        0 <= i <= ks.len(),
        first_h1(ks.take(i)) is Some,
    ensures
        first_h1(ks) == first_h1(ks.take(i)),
    decreases ks.len() - i,
{
    if i < ks.len() {
        assert(ks.take(i + 1).drop_last() =~= ks.take(i));
        lemma_first_h1_extend(ks, i + 1);
    } else {
        assert(ks.take(i) =~= ks);
    }
}

/// The items of a bullet or numbered list.
fn li_items_exec(kids: &Vec<HtmlNode>) -> (r: Vec<Vec<Span>>)
    ensures
        span_lists_view(r@) == li_items(nodes_model(kids@)),
{
    let ghost ks = nodes_model(kids@);
    proof {
        lemma_nodes_model(kids@);
    }
    let mut r: Vec<Vec<Span>> = Vec::new();
    let mut i: usize = 0;
    assert(span_lists_view(r@) =~= li_items(ks.take(0)));
    while i < kids.len()
        invariant
            i <= kids.len(),
            ks == nodes_model(kids@),
            ks.len() == kids.len(),
            forall|j: int| 0 <= j < kids.len() ==> #[trigger] ks[j] == kids@[j]@,
            span_lists_view(r@) == li_items(ks.take(i as int)),
        decreases kids.len() - i,
    {
        assert(ks.take(i + 1).drop_last() =~= ks.take(i as int));
        assert(ks.take(i + 1).last() == kids@[i as int]@);
        let ghost before = span_lists_view(r@);
        match &kids[i] {
            HtmlNode::Element(tag, k) => {
                if tag_is(tag, "li") {
                    let sp = spans_of_kids_exec(k);
                    r.push(sp);
                }
            },
            _ => {},
        }
        i = i + 1;
        assert(span_lists_view(r@) =~= li_items(ks.take(i as int)));
    }
    assert(ks.take(kids.len() as int) =~= ks);
    r
}

/// Appends the blocks that one child element contributes.
pub fn block_contrib_exec(n: &HtmlNode, out: &mut Vec<Block>)
    ensures
        blocks_model(final(out)@) == blocks_model(old(out)@) + block_contrib(n@),
    decreases n,
{
    let ghost o = blocks_model(out@);
    match n {
        HtmlNode::Element(tag, kids) => {
            if tag_is(tag, "p") {
                let sp = spans_of_kids_exec(kids);
                if sp.len() > 0 {
                    push_block(out, Block::Paragraph(sp));
                }
                assert(blocks_model(out@) =~= o + block_contrib(n@));
            } else if tag_is(tag, "dl") {
                let items = deflist_exec(kids);
                push_block(out, Block::DefList(items));
                assert(blocks_model(out@) =~= o + block_contrib(n@));
            } else if tag_is(tag, "ul") || tag_is(tag, "ol") {
                let items = li_items_exec(kids);
                push_block(out, Block::List(items));
                assert(blocks_model(out@) =~= o + block_contrib(n@));
            } else if tag_is(tag, "div") && class_has_bd(tag) {
                let mut inner: Vec<Block> = Vec::new();
                assert(blocks_model(inner@) =~= Seq::<BlockM>::empty());
                blocks_kids_exec(kids, &mut inner);
                assert(blocks_model(inner@) =~= blocks_of_kids(nodes_model(kids@)));
                push_block(out, Block::Indent(inner));
                assert(blocks_model(out@) =~= o + block_contrib(n@));
            } else if tag_is(tag, "section") {
                let mut inner: Vec<Block> = Vec::new();
                assert(blocks_model(inner@) =~= Seq::<BlockM>::empty());
                match first_h_exec(kids) {
                    Some(h) => {
                        let t = text_of_exec(h);
                        let mut sp: Vec<Span> = Vec::new();
                        sp.push(Span::Bold(string_of(&collapse_chars(&t))));
                        assert(spans_view(sp@) =~= seq![SpanM::Bold(collapsed(text_of(h@)))]);
                        push_block(&mut inner, Block::Paragraph(sp));
                    },
                    None => {},
                }
                assert(blocks_model(inner@) =~= sub_heading(nodes_model(kids@)));
                blocks_kids_exec(kids, &mut inner);
                push_block(out, Block::Indent(inner));
                assert(blocks_model(out@) =~= o + block_contrib(n@));
            } else if tag_is(tag, "table") || heading_exec(tag) {
                assert(blocks_model(out@) =~= o + block_contrib(n@));
            } else {
                blocks_kids_exec(kids, out);
            }
        },
        _ => {
            assert(blocks_model(out@) =~= o + block_contrib(n@));
        },
    }
}

fn class_has_bd(t: &Tag) -> (r: bool)
    ensures
        r == has_sub(class_text(t@), "Bd"@),
{
    let c: Vec<char> = match &t.class {
        Some(s) => chars_of(s.as_str()),
        None => Vec::new(),
    };
    let bd = chars_of("Bd");
    contains_chars(&c, &bd)
}

fn inline_name_exec(t: &Tag) -> (r: bool)
    ensures
        r == is_inline_name(t@.name),
{
    tag_is(t, "a") || tag_is(t, "b") || tag_is(t, "i") || tag_is(t, "em") || tag_is(t, "strong")
        || tag_is(t, "code") || tag_is(t, "span") || tag_is(t, "br") || tag_is(t, "u") || tag_is(
        t,
        "small",
    ) || tag_is(t, "sub") || tag_is(t, "sup") || tag_is(t, "var") || tag_is(t, "kbd") || tag_is(
        t,
        "samp",
    ) || tag_is(t, "cite") || tag_is(t, "q") || tag_is(t, "tt")
}

fn heading_exec(t: &Tag) -> (r: bool)
    ensures
        r == is_heading_name(t@.name),
{
    tag_is(t, "h1") || tag_is(t, "h2") || tag_is(t, "h3") || tag_is(t, "h4") || tag_is(t, "h5")
        || tag_is(t, "h6")
}

fn inline_exec(n: &HtmlNode) -> (r: bool)
    ensures
        r == is_inline(n@),
{
    match n {
        HtmlNode::Element(t, _) => inline_name_exec(t),
        _ => true,
    }
}

/// Appends the inline spans of the children `kids[a..b]`.
fn collect_range_exec(kids: &Vec<HtmlNode>, a: usize, b: usize, out: &mut Vec<Span>)
    requires
        a <= b <= kids.len(),
    ensures
        spans_view(final(out)@) == spans_view(old(out)@) + collect_kids(
            nodes_model(kids@).subrange(a as int, b as int),
        ),
{
    let ghost ks = nodes_model(kids@);
    let ghost o = spans_view(out@);
    proof {
        lemma_nodes_model(kids@);
    }
    let mut i: usize = a;
    assert(collect_kids(ks.subrange(a as int, a as int)) =~= Seq::<SpanM>::empty());
    assert(spans_view(out@) =~= o + collect_kids(ks.subrange(a as int, a as int)));
    while i < b
        invariant
            a <= i <= b <= kids.len(),
            ks == nodes_model(kids@),
            ks.len() == kids.len(),
            forall|j: int| 0 <= j < kids.len() ==> #[trigger] ks[j] == kids@[j]@,
            spans_view(out@) == o + collect_kids(ks.subrange(a as int, i as int)),
        decreases b - i,
    {
        assert(ks.subrange(a as int, i + 1).drop_last() =~= ks.subrange(a as int, i as int));
        assert(ks.subrange(a as int, i + 1).last() == kids@[i as int]@);
        span_contrib_exec(&kids[i], out);
        i = i + 1;
        assert(spans_view(out@) =~= o + collect_kids(ks.subrange(a as int, i as int)));
    }
}

/// Appends the paragraph that the inline run `kids[a..b]` makes, if any.
fn flush_run(kids: &Vec<HtmlNode>, a: usize, b: usize, out: &mut Vec<Block>)
    requires
        a <= b <= kids.len(),
    ensures
        blocks_model(final(out)@) == blocks_model(old(out)@) + run_para(
            nodes_model(kids@).subrange(a as int, b as int),
        ),
{
    let ghost o = blocks_model(out@);
    let ghost run = nodes_model(kids@).subrange(a as int, b as int);
    let mut raw: Vec<Span> = Vec::new();
    collect_range_exec(kids, a, b, &mut raw);
    assert(spans_view(raw@) =~= collect_kids(run));
    let sp = linkify_spans_exec(&raw);
    let t = plain_text(&sp);
    let cs = chars_of(t.as_str());
    if !is_all_whitespace(&cs) {
        push_block(out, Block::Paragraph(sp));
    }
    assert(blocks_model(out@) =~= o + run_para(run));
}

/// Appends the blocks of a run of children (see `blocks_of_kids`).
pub fn blocks_kids_exec(kids: &Vec<HtmlNode>, out: &mut Vec<Block>)
    ensures
        blocks_model(final(out)@) == blocks_model(old(out)@) + blocks_of_kids(nodes_model(kids@)),
    decreases kids,
{
    let ghost ks = nodes_model(kids@);
    let ghost o = blocks_model(out@);
    proof {
        lemma_nodes_model(kids@);
    }
    let mut i: usize = 0;
    let mut run_start: usize = 0;
    assert(ks.take(0) =~= Seq::<NodeV>::empty());
    assert(blocks_acc(ks.take(0)).run =~= ks.subrange(0, 0));
    assert(blocks_model(out@) =~= o + blocks_acc(ks.take(0)).blocks);
    while i < kids.len()
        invariant
            run_start <= i <= kids.len(),
            ks == nodes_model(kids@),
            ks.len() == kids.len(),
            forall|j: int| 0 <= j < kids.len() ==> #[trigger] ks[j] == kids@[j]@,
            blocks_model(out@) == o + blocks_acc(ks.take(i as int)).blocks,
            blocks_acc(ks.take(i as int)).run == ks.subrange(run_start as int, i as int),
        decreases kids.len() - i,
    {
        assert(ks.take(i + 1).drop_last() =~= ks.take(i as int));
        assert(ks.take(i + 1).last() == kids@[i as int]@);
        let ghost before = blocks_acc(ks.take(i as int));
        if inline_exec(&kids[i]) {
            assert(ks.subrange(run_start as int, i + 1) =~= ks.subrange(run_start as int, i as int).push(
                ks[i as int],
            ));
        } else {
            flush_run(kids, run_start, i, out);
            block_contrib_exec(&kids[i], out);
            run_start = i + 1;
            assert(blocks_model(out@) =~= o + blocks_acc(ks.take(i + 1)).blocks);
            assert(ks.subrange(run_start as int, i + 1) =~= Seq::<NodeV>::empty());
        }
        i = i + 1;
    }
    assert(ks.take(kids.len() as int) =~= ks);
    flush_run(kids, run_start, kids.len(), out);
    assert(blocks_model(out@) =~= o + blocks_of_kids(ks));
}

pub open spec fn pending_view(p: Option<Vec<Span>>) -> Option<Seq<SpanM>> {
    match p {
        Some(v) => Some(spans_view(v@)),
        None => None,
    }
}

/// The items of a definition list.
pub fn deflist_exec(kids: &Vec<HtmlNode>) -> (r: Vec<DefItem>)
    ensures
        items_model(r@) == finish_dl(dl_state(nodes_model(kids@))),
    decreases kids,
{
    let ghost ks = nodes_model(kids@);
    proof {
        lemma_nodes_model(kids@);
    }
    let mut items: Vec<DefItem> = Vec::new();
    let mut pending: Option<Vec<Span>> = None;
    let mut i: usize = 0;
    assert(items_model(items@) =~= Seq::<DefItemM>::empty());
    while i < kids.len()
        invariant
            i <= kids.len(),
            ks == nodes_model(kids@),
            ks.len() == kids.len(),
            forall|j: int| 0 <= j < kids.len() ==> #[trigger] ks[j] == kids@[j]@,
            (DlState { items: items_model(items@), pending: pending_view(pending) }) == dl_state(
                ks.take(i as int),
            ),
        decreases kids.len() - i,
    {
        assert(ks.take(i + 1).drop_last() =~= ks.take(i as int));
        assert(ks.take(i + 1).last() == kids@[i as int]@);
        let ghost before = DlState { items: items_model(items@), pending: pending_view(pending) };
        match &kids[i] {
            HtmlNode::Element(tag, k) => {
                if tag_is(tag, "dt") {
                    match pending {
                        Some(term) => {
                            push_item(&mut items, DefItem { term, body: Vec::new() });
                        },
                        None => {},
                    }
                    pending = Some(spans_of_kids_exec(k));
                    assert(items_model(items@) =~= dl_step(before, ks[i as int]).items);
                } else if tag_is(tag, "dd") {
                    let mut body: Vec<Block> = Vec::new();
                    assert(blocks_model(body@) =~= Seq::<BlockM>::empty());
                    blocks_kids_exec(k, &mut body);
                    assert(blocks_model(body@) =~= flushed(blocks_acc(nodes_model(k@))));
                    if body.len() == 0 {
                        let sp = spans_of_kids_exec(k);
                        if sp.len() > 0 {
                            push_block(&mut body, Block::Paragraph(sp));
                        }
                        assert(blocks_model(body@) =~= (if spans_of_kids(nodes_model(k@)).len()
                            > 0 {
                            seq![BlockM::Paragraph(spans_of_kids(nodes_model(k@)))]
                        } else {
                            Seq::empty()
                        }));
                    }
                    let term = match pending {
                        Some(t) => t,
                        None => Vec::new(),
                    };
                    assert(spans_view(term@) =~= match before.pending {
                        Some(t) => t,
                        None => Seq::empty(),
                    });
                    pending = None;
                    let item = DefItem { term, body };
                    push_item(&mut items, item);
                    assert(items_model(items@) =~= dl_step(before, ks[i as int]).items);
                }
            },
            _ => {},
        }
        i = i + 1;
    }
    assert(ks.take(kids.len() as int) =~= ks);
    match pending {
        Some(term) => {
            push_item(&mut items, DefItem { term, body: Vec::new() });
        },
        None => {},
    }
    items
}

pub open spec fn sections_view(s: Seq<Section>) -> Seq<SectionM> {
    s.map_values(|x: Section| x@)
}

fn section_of_exec(n: &HtmlNode) -> (s: Section)
    ensures
        s@ == section_of(n@),
{
    let kids = match n {
        HtmlNode::Element(_, k) => k,
        HtmlNode::Other(k) => k,
        HtmlNode::Text(_) => {
            return Section { id: String::new(), heading: String::new(), blocks: Vec::new() };
        },
    };
    assert(n@.children() == nodes_model(kids@));
    let mut blocks: Vec<Block> = Vec::new();
    assert(blocks_model(blocks@) =~= Seq::<BlockM>::empty());
    blocks_kids_exec(kids, &mut blocks);
    assert(blocks_model(blocks@) =~= blocks_of_kids(nodes_model(kids@)));
    match first_h1_exec(kids) {
        Some(h) => {
            let id = match h {
                HtmlNode::Element(tag, _) => match &tag.id {
                    Some(i) => i.clone(),
                    None => String::new(),
                },
                _ => String::new(),
            };
            let t = text_of_exec(h);
            Section { id, heading: string_of(&collapse_chars(&t)), blocks }
        },
        None => Section { id: String::new(), heading: String::new(), blocks },
    }
}

/// Appends the sections at or below `n`.
pub fn sections_exec(n: &HtmlNode, out: &mut Vec<Section>)
    ensures
        sections_view(final(out)@) == sections_view(old(out)@) + sections_in(n@),
    decreases n,
{
    let ghost o = sections_view(out@);
    match n {
        HtmlNode::Element(tag, kids) => {
            let mt = tag_is(tag, "div") && has_class_exec(tag, &chars_of("manual-text"));
            sections_kids_exec(kids, mt, out);
        },
        HtmlNode::Other(kids) => {
            sections_kids_exec(kids, false, out);
        },
        HtmlNode::Text(_) => {
            assert(sections_view(out@) =~= o + sections_in(n@));
        },
    }
}

fn is_section_sh(n: &HtmlNode) -> (r: bool)
    ensures
        r == elem_with_class(n@, "section"@, "Sh"@),
{
    match n {
        HtmlNode::Element(tag, _) => tag_is(tag, "section") && has_class_exec(tag, &chars_of("Sh")),
        _ => false,
    }
}

fn sections_kids_exec(kids: &Vec<HtmlNode>, manual_text: bool, out: &mut Vec<Section>)
    ensures
        sections_view(final(out)@) == sections_view(old(out)@) + sections_kids(
            nodes_model(kids@),
            manual_text,
        ),
    decreases kids,
{
    let ghost ks = nodes_model(kids@);
    let ghost o = sections_view(out@);
    proof {
        lemma_nodes_model(kids@);
    }
    let mut i: usize = 0;
    assert(sections_kids(ks.take(0), manual_text) =~= Seq::<SectionM>::empty());
    assert(sections_view(out@) =~= o + sections_kids(ks.take(0), manual_text));
    while i < kids.len()
        invariant
            i <= kids.len(),
            ks == nodes_model(kids@),
            ks.len() == kids.len(),
            forall|j: int| 0 <= j < kids.len() ==> #[trigger] ks[j] == kids@[j]@,
            sections_view(out@) == o + sections_kids(ks.take(i as int), manual_text),
        decreases kids.len() - i,
    {
        assert(ks.take(i + 1).drop_last() =~= ks.take(i as int));
        assert(ks.take(i + 1).last() == kids@[i as int]@);
        let ghost mid = sections_view(out@);
        if manual_text && is_section_sh(&kids[i]) {
            let s = section_of_exec(&kids[i]);
            out.push(s);
        }
        assert(sections_view(out@) =~= mid + (if manual_text && elem_with_class(
            kids@[i as int]@,
            "section"@,
            "Sh"@,
        ) {
            seq![section_of(kids@[i as int]@)]
        } else {
            Seq::empty()
        }));
        sections_exec(&kids[i], out);
        i = i + 1;
        assert(sections_view(out@) =~= o + sections_kids(ks.take(i as int), manual_text));
    }
    assert(ks.take(kids.len() as int) =~= ks);
}

/// The page that mandoc's HTML tree describes.
pub fn document_from_tree(root: &HtmlNode) -> (doc: Document)
    ensures
        doc@ == document_of(root@),
{
    let title = select_text_exec(root, "head-ltitle");
    let volume = select_text_exec(root, "head-vol");
    let mut sections: Vec<Section> = Vec::new();
    assert(sections_view(sections@) =~= Seq::<SectionM>::empty());
    sections_exec(root, &mut sections);
    let doc = Document { title, volume, sections };
    assert(doc@.sections =~= sections_in(root@));
    doc
}

/// The page described by a traversal of mandoc's HTML tree.
pub fn document_from_events(events: &Vec<HtmlEvent>) -> (doc: Document)
    ensures
        doc@ == document_of(tree_of_events(events_view(events@))),
{
    let root = build_tree(events);
    document_from_tree(&root)
}

/// Parses mandoc's HTML output into a `Document`.
pub fn parse_document(html: &str) -> (doc: Document)
    ensures
        doc@ == document_of(tree_of_events(fragment_edges(html@))),
{
    let events = fragment_events(html);
    document_from_events(&events)
}

/// Whether a node is a list item (`li`) element.
pub open spec fn is_li(n: NodeV) -> bool {
    n matches NodeV::Element(t, _) && t.name == "li"@
}

/// The items of a list block (none for any other block).
pub open spec fn list_items(b: BlockM) -> Seq<Seq<SpanM>> {
    match b {
        BlockM::List(items) => items,
        _ => Seq::empty(),
    }
}

/// A bulleted (`ul`) or numbered (`ol`) list element makes exactly one
/// list block. An empty one has no items; each `li` child adds one item
/// at the end, the spans of that child's content; any other child adds
/// nothing and changes nothing.
pub proof fn law_lists(tag: TagV, kids: Seq<NodeV>, x: NodeV)
    requires
        tag.name == "ul"@ || tag.name == "ol"@,
    ensures
        block_contrib(NodeV::Element(tag, kids)).len() == 1,
        block_contrib(NodeV::Element(tag, kids))[0] is List,
        block_contrib(NodeV::Element(tag, Seq::empty())) == seq![BlockM::List(Seq::empty())],
        is_li(x) ==> list_items(block_contrib(NodeV::Element(tag, kids.push(x)))[0]) == list_items(
            block_contrib(NodeV::Element(tag, kids))[0],
        ).push(spans_of_kids(x.children())),
        !is_li(x) ==> block_contrib(NodeV::Element(tag, kids.push(x))) == block_contrib(
            NodeV::Element(tag, kids),
        ),
{
    reveal_strlit("ul");
    reveal_strlit("ol");
    reveal_strlit("p");
    reveal_strlit("dl");
    assert("p"@.len() == 1 && "ul"@.len() == 2 && "ol"@.len() == 2);
    assert("dl"@[0] == 'd' && "ul"@[0] == 'u' && "ol"@[0] == 'o');
    assert(tag.name != "p"@ && tag.name != "dl"@);
    assert(kids.push(x).drop_last() =~= kids);
    assert(kids.push(x).last() == x);
    assert(li_items(kids.push(x)) == li_items(kids) + match x {
        NodeV::Element(t, k) => if t.name == "li"@ {
            seq![spans_of_kids(k)]
        } else {
            Seq::<Seq<SpanM>>::empty()
        },
        _ => Seq::<Seq<SpanM>>::empty(),
    });
    if is_li(x) {
        assert(li_items(kids.push(x)) =~= li_items(kids).push(spans_of_kids(x.children())));
    } else {
        assert(li_items(kids.push(x)) =~= li_items(kids));
    }
}

} // verus!
