//! From a `Document` to the pager's lines of styled words, and the
//! word-wrap of those lines to a terminal width.
use vstd::prelude::*;
use crate::document::{
    Block, BlockM, DefItem, DefItemM, Document, DocumentM, Span, SpanM, spans_view,
    span_lists_view, blocks_model, items_model, lemma_blocks_model, lemma_items_model,
};
use crate::text::{chars_of, string_of, split_ws, words, char_vecs_view};

verus! {

/// How a word is shown.
#[derive(Clone, Copy, PartialEq, Eq, Structural, Debug)]
pub enum Style {
    Plain,
    Dim,
    Title,
    Heading,
    Term,
    Bold,
    Italic,
    Code,
    Link,
    LinkSelected,
    Match,
    MatchCurrent,
}

/// One word of the page.
#[derive(Debug)]
pub struct Word {
    pub text: String,
    pub style: Style,
    /// Index into the page's link table, if this word is (part of) a
    /// followable cross-reference.
    pub link: Option<usize>,
}

/// A copy of a word.
pub fn clone_word(w: &Word) -> (r: Word)
    ensures
        r@ == w@,
{
    Word { text: w.text.clone(), style: w.style, link: w.link }
}

pub struct WordV {
    pub text: Seq<char>,
    pub style: Style,
    pub link: Option<usize>,
}

impl View for Word {
    type V = WordV;

    open spec fn view(&self) -> WordV {
        WordV { text: self.text@, style: self.style, link: self.link }
    }
}

/// One logical (unwrapped) line of content: a run of styled words at a
/// given indent depth, and whether a blank line follows it.
#[derive(Debug)]
pub struct LogicalLine {
    pub indent: usize,
    pub words: Vec<Word>,
    pub spacer_after: bool,
}

pub struct LineV {
    pub indent: int,
    pub words: Seq<WordV>,
    pub spacer_after: bool,
}

pub open spec fn words_view(v: Seq<Word>) -> Seq<WordV> {
    v.map_values(|w: Word| w@)
}

impl View for LogicalLine {
    type V = LineV;

    open spec fn view(&self) -> LineV {
        LineV { indent: self.indent as int, words: words_view(self.words@), spacer_after: self.spacer_after }
    }
}

/// A followable cross-reference target, e.g. "ls(1)" -> name "ls", section "1".
#[derive(Debug, Clone)]
pub struct LinkEntry {
    pub name: String,
    pub section: String,
}

pub struct LinkV {
    pub name: Seq<char>,
    pub section: Seq<char>,
}

impl View for LinkEntry {
    type V = LinkV;

    open spec fn view(&self) -> LinkV {
        LinkV { name: self.name@, section: self.section@ }
    }
}

pub open spec fn lines_view(v: Seq<LogicalLine>) -> Seq<LineV> {
    v.map_values(|l: LogicalLine| l@)
}

pub open spec fn links_view(v: Seq<LinkEntry>) -> Seq<LinkV> {
    v.map_values(|l: LinkEntry| l@)
}

/// The words of a text, each with the given style and link.
pub open spec fn words_of(text: Seq<char>, style: Style, link: Option<usize>) -> Seq<WordV> {
    words(text).map_values(|w: Seq<char>| WordV { text: w, style, link })
}

/// Lines and links built so far.
pub struct LinesState {
    pub lines: Seq<LineV>,
    pub links: Seq<LinkV>,
}

/// The words of a run of spans, and the link table grown by the links
/// among them (each link's words carry its index in the table).
pub open spec fn spans_words(links: Seq<LinkV>, spans: Seq<SpanM>) -> (Seq<WordV>, Seq<LinkV>)
    decreases spans.len(),
{
    if spans.len() == 0 {
        (Seq::empty(), links)
    } else {
        let (w, l) = spans_words(links, spans.drop_last());
        match spans.last() {
            SpanM::Text(t) => (w + words_of(t, Style::Plain, None), l),
            SpanM::Bold(t) => (w + words_of(t, Style::Bold, None), l),
            SpanM::Italic(t) => (w + words_of(t, Style::Italic, None), l),
            SpanM::Code(t) => (w + words_of(t, Style::Code, None), l),
            SpanM::Link { text, name, section } => (
                w + words_of(text, Style::Link, Some(l.len() as usize)),
                l.push(LinkV { name, section }),
            ),
        }
    }
}

/// Term words: everything that is not a link shows as a term.
pub open spec fn as_term(ws: Seq<WordV>) -> Seq<WordV> {
    ws.map_values(
        |w: WordV|
            if w.link is None {
                WordV { text: w.text, style: Style::Term, link: w.link }
            } else {
                w
            },
    )
}

/// The bullet that starts a list item.
pub open spec fn bullet() -> WordV {
    WordV { text: seq!['\u{2022}'], style: Style::Plain, link: None }
}

/// The last line gets a blank line after it.
pub open spec fn space_last(lines: Seq<LineV>) -> Seq<LineV> {
    if lines.len() == 0 {
        lines
    } else {
        let l = lines.last();
        lines.update(lines.len() - 1, LineV { indent: l.indent, words: l.words, spacer_after: true })
    }
}

/// The lines of list items, one per item, each starting with a bullet.
pub open spec fn list_lines(st: LinesState, items: Seq<Seq<SpanM>>, indent: int) -> LinesState
    decreases items.len(),
{
    if items.len() == 0 {
        st
    } else {
        let prev = list_lines(st, items.drop_last(), indent);
        let (w, l) = spans_words(prev.links, items.last());
        LinesState {
            lines: prev.lines.push(LineV { indent, words: seq![bullet()] + w, spacer_after: false }),
            links: l,
        }
    }
}

/// The lines of a run of blocks at an indent depth.
pub open spec fn blocks_lines(st: LinesState, bs: Seq<BlockM>, indent: int) -> LinesState
    decreases bs,
{
    if bs.len() == 0 {
        st
    } else {
        block_lines(blocks_lines(st, bs.drop_last(), indent), bs.last(), indent)
    }
}

/// One indent step deeper; the depth stops growing at the largest
/// `usize`.
pub open spec fn deeper(indent: int) -> int {
    if indent < usize::MAX {
        indent + 1
    } else {
        indent
    }
}

fn deeper_exec(indent: usize) -> (r: usize)
    ensures
        r == deeper(indent as int),
{
    if indent < usize::MAX {
        indent + 1
    } else {
        indent
    }
}

/// The lines of one block: a paragraph is one line followed by a blank;
/// a definition list is its terms with their bodies indented one step
/// deeper; an indented block goes one step deeper; a list is one bulleted
/// line per item, the last followed by a blank.
pub open spec fn block_lines(st: LinesState, b: BlockM, indent: int) -> LinesState
    decreases b,
{
    match b {
        BlockM::Paragraph(spans) => {
            let (w, l) = spans_words(st.links, spans);
            LinesState {
                lines: st.lines.push(LineV { indent, words: w, spacer_after: true }),
                links: l,
            }
        },
        BlockM::DefList(items) => items_lines(st, items, indent),
        BlockM::Indent(inner) => blocks_lines(st, inner, deeper(indent)),
        BlockM::List(items) => {
            let s2 = list_lines(st, items, indent);
            LinesState { lines: space_last(s2.lines), links: s2.links }
        },
    }
}

pub open spec fn items_lines(st: LinesState, items: Seq<DefItemM>, indent: int) -> LinesState
    decreases items,
{
    if items.len() == 0 {
        st
    } else {
        item_lines(items_lines(st, items.drop_last(), indent), items.last(), indent)
    }
}

pub open spec fn item_lines(st: LinesState, it: DefItemM, indent: int) -> LinesState
    decreases it,
{
    let (w, l) = spans_words(st.links, it.term);
    let s2 = LinesState {
        lines: st.lines.push(LineV { indent, words: as_term(w), spacer_after: false }),
        links: l,
    };
    blocks_lines(s2, it.body, deeper(indent))
}

/// A line holding one whole text as a single word.
pub open spec fn single_word_line(text: Seq<char>, style: Style, spacer: bool) -> LineV {
    LineV { indent: 0, words: seq![WordV { text, style, link: None }], spacer_after: spacer }
}

/// The lines of the sections, each a heading line, its blocks one step
/// in, then an empty line.
pub open spec fn sections_lines(st: LinesState, secs: Seq<crate::document::SectionM>) -> LinesState
    decreases secs.len(),
{
    if secs.len() == 0 {
        st
    } else {
        let prev = sections_lines(st, secs.drop_last());
        let s = secs.last();
        let s1 = LinesState {
            lines: prev.lines.push(single_word_line(s.heading, Style::Heading, false)),
            links: prev.links,
        };
        let s2 = blocks_lines(s1, s.blocks, 1);
        LinesState {
            lines: s2.lines.push(LineV { indent: 0, words: Seq::empty(), spacer_after: false }),
            links: s2.links,
        }
    }
}

/// The header line: the title, then the volume when there is one.
pub open spec fn header_line(doc: DocumentM) -> LineV {
    LineV {
        indent: 0,
        words: seq![WordV { text: doc.title, style: Style::Title, link: None }] + (
        if doc.volume.len() > 0 {
            seq![WordV { text: doc.volume, style: Style::Dim, link: None }]
        } else {
            Seq::empty()
        }),
        spacer_after: true,
    }
}

/// All lines of a page and its link table.
pub open spec fn page_lines(doc: DocumentM) -> LinesState {
    sections_lines(LinesState { lines: seq![header_line(doc)], links: Seq::empty() }, doc.sections)
}

/// Appends the words of a text, each with the given style and link.
pub fn push_words(words: &mut Vec<Word>, text: &str, style: Style, link: Option<usize>)
    ensures
        words_view(final(words)@) == words_view(old(words)@) + words_of(text@, style, link),
{
    let cs = chars_of(text);
    let ws = split_ws(&cs);
    let ghost o = words_view(words@);
    let mut i: usize = 0;
    while i < ws.len()
        invariant
            i <= ws.len(),
            words_view(words@) == o + words_of(text@, style, link).take(i as int),
            char_vecs_view(ws@) == crate::text::words(text@),
        decreases ws.len() - i,
    {
        let ghost bv = words@;
        let t = string_of(&ws[i]);
        words.push(Word { text: t, style, link });
        proof {
            let wo = words_of(text@, style, link);
            assert(char_vecs_view(ws@)[i as int] == ws@[i as int]@);
            assert(wo[i as int] == WordV { text: ws@[i as int]@, style, link });
            assert(words_view(words@) =~= words_view(bv).push(wo[i as int]));
            assert(wo.take(i + 1) =~= wo.take(i as int).push(wo[i as int]));
        }
        i = i + 1;
    }
    assert(words_of(text@, style, link).take(ws.len() as int) =~= words_of(text@, style, link));
}

/// The words of a run of spans; the links among them are added to the
/// link table.
pub fn spans_to_words(spans: &Vec<Span>, links: &mut Vec<LinkEntry>) -> (r: Vec<Word>)
    ensures
        (words_view(r@), links_view(final(links)@)) == spans_words(
            links_view(old(links)@),
            spans_view(spans@),
        ),
{
    let ghost sv = spans_view(spans@);
    let ghost l0 = links_view(links@);
    let mut words: Vec<Word> = Vec::new();
    let mut i: usize = 0;
    assert(sv.take(0) =~= Seq::<SpanM>::empty());
    assert(words_view(words@) =~= Seq::<WordV>::empty());
    while i < spans.len()
        invariant
            i <= spans.len(),
            sv == spans_view(spans@),
            (words_view(words@), links_view(links@)) == spans_words(l0, sv.take(i as int)),
        decreases spans.len() - i,
    {
        assert(sv.take(i + 1).drop_last() =~= sv.take(i as int));
        assert(sv.take(i + 1).last() == spans@[i as int]@);
        match &spans[i] {
            Span::Text(t) => push_words(&mut words, t.as_str(), Style::Plain, None),
            Span::Bold(t) => push_words(&mut words, t.as_str(), Style::Bold, None),
            Span::Italic(t) => push_words(&mut words, t.as_str(), Style::Italic, None),
            Span::Code(t) => push_words(&mut words, t.as_str(), Style::Code, None),
            Span::Link { text, name, section } => {
                let ghost lb = links_view(links@);
                links.push(LinkEntry { name: name.clone(), section: section.clone() });
                assert(links_view(links@) =~= lb.push(LinkV { name: name@, section: section@ }));
                let idx = links.len() - 1;
                push_words(&mut words, text.as_str(), Style::Link, Some(idx));
            },
        }
        i = i + 1;
    }
    assert(sv.take(spans.len() as int) =~= sv);
    words
}

fn push_line(out: &mut Vec<LogicalLine>, l: LogicalLine)
    ensures
        lines_view(final(out)@) == lines_view(old(out)@).push(l@),
{
    let ghost o = out@;
    out.push(l);
    assert(lines_view(out@) =~= lines_view(o).push(l@));
}

fn mark_term(words: &mut Vec<Word>)
    ensures
        words_view(final(words)@) == as_term(words_view(old(words)@)),
{
    let ghost o = words_view(words@);
    let mut out: Vec<Word> = Vec::new();
    let mut rest: Vec<Word> = Vec::new();
    std::mem::swap(words, &mut rest);
    let n = rest.len();
    let ghost r0 = rest@;
    let mut i: usize = 0;
    assert(o == words_view(r0));
    while rest.len() > 0
        invariant
            i + rest.len() == r0.len(),
            r0.len() == n,
            rest@ == r0.subrange(i as int, r0.len() as int),
            words_view(out@) == as_term(words_view(r0)).take(i as int),
            o == words_view(r0),
        decreases rest.len(),
    {
        let w = rest.remove(0);
        assert(r0[i as int] == w);
        let nw = if w.link.is_none() {
            Word { text: w.text, style: Style::Term, link: w.link }
        } else {
            w
        };
        let ghost ob = out@;
        out.push(nw);
        proof {
            let t = as_term(words_view(r0));
            assert(t[i as int] == nw@);
            assert(words_view(out@) =~= words_view(ob).push(nw@));
            assert(t.take(i + 1) =~= t.take(i as int).push(t[i as int]));
        }
        i = i + 1;
        assert(rest@ =~= r0.subrange(i as int, r0.len() as int));
    }
    assert(as_term(words_view(r0)).take(i as int) =~= as_term(words_view(r0)));
    *words = out;
}

/// The lines of a run of blocks at an indent depth.
pub fn collect_blocks(
    blocks: &Vec<Block>,
    indent: usize,
    out: &mut Vec<LogicalLine>,
    links: &mut Vec<LinkEntry>,
)
    ensures
        (LinesState { lines: lines_view(final(out)@), links: links_view(final(links)@) })
            == blocks_lines(
            LinesState { lines: lines_view(old(out)@), links: links_view(old(links)@) },
            blocks_model(blocks@),
            indent as int,
        ),
    decreases blocks,
{
    let ghost bm = blocks_model(blocks@);
    let ghost st0 = LinesState { lines: lines_view(out@), links: links_view(links@) };
    proof {
        lemma_blocks_model(blocks@);
    }
    let mut i: usize = 0;
    while i < blocks.len()
        invariant
            i <= blocks.len(),
            bm == blocks_model(blocks@),
            bm.len() == blocks.len(),
            forall|j: int| 0 <= j < blocks.len() ==> #[trigger] bm[j] == blocks@[j]@,
            (LinesState { lines: lines_view(out@), links: links_view(links@) }) == blocks_lines(
                st0,
                bm.take(i as int),
                indent as int,
            ),
        decreases blocks.len() - i,
    {
        assert(bm.take(i + 1).drop_last() =~= bm.take(i as int));
        assert(bm.take(i + 1).last() == blocks@[i as int]@);
        let ghost st = LinesState { lines: lines_view(out@), links: links_view(links@) };
        match &blocks[i] {
            Block::Paragraph(spans) => {
                let w = spans_to_words(spans, links);
                push_line(out, LogicalLine { indent, words: w, spacer_after: true });
            },
            Block::DefList(items) => {
                collect_deflist(items, indent, out, links);
            },
            Block::Indent(inner) => {
                collect_blocks(inner, deeper_exec(indent), out, links);
            },
            Block::List(items) => {
                let mut k: usize = 0;
                let ghost iv = span_lists_view(items@);
                assert(iv.take(0) =~= Seq::<Seq<SpanM>>::empty());
                while k < items.len()
                    invariant
                        k <= items.len(),
                        iv == span_lists_view(items@),
                        (LinesState { lines: lines_view(out@), links: links_view(links@) })
                            == list_lines(st, iv.take(k as int), indent as int),
                    decreases items.len() - k,
                {
                    assert(iv.take(k + 1).drop_last() =~= iv.take(k as int));
                    assert(iv.take(k + 1).last() == spans_view(items@[k as int]@));
                    let mut words: Vec<Word> = Vec::new();
                    let mut dot: Vec<char> = Vec::new();
                    dot.push('\u{2022}');
                    words.push(Word { text: string_of(&dot), style: Style::Plain, link: None });
                    let ghost wb = words_view(words@);
                    assert(wb =~= seq![bullet()]);
                    let mut more = spans_to_words(&items[k], links);
                    let ghost mv = words_view(more@);
                    words.append(&mut more);
                    assert(words_view(words@) =~= wb + mv);
                    push_line(out, LogicalLine { indent, words, spacer_after: false });
                    k = k + 1;
                }
                assert(iv.take(items.len() as int) =~= iv);
                let n = out.len();
                if n > 0 {
                    let ghost lv = lines_view(out@);
                    let mut last = out.pop().unwrap();
                    last.spacer_after = true;
                    out.push(last);
                    assert(lines_view(out@) =~= space_last(lv));
                }
            },
        }
        assert((LinesState { lines: lines_view(out@), links: links_view(links@) }) == block_lines(st, bm[i as int], indent as int));
        i = i + 1;
    }
    assert(bm.take(blocks.len() as int) =~= bm);
}

/// The lines of a definition list: each term (non-link words shown as
/// terms), then its body one step deeper.
pub fn collect_deflist(
    items: &Vec<DefItem>,
    indent: usize,
    out: &mut Vec<LogicalLine>,
    links: &mut Vec<LinkEntry>,
)
    ensures
        (LinesState { lines: lines_view(final(out)@), links: links_view(final(links)@) })
            == items_lines(
            LinesState { lines: lines_view(old(out)@), links: links_view(old(links)@) },
            items_model(items@),
            indent as int,
        ),
    decreases items,
{
    let ghost im = items_model(items@);
    let ghost st0 = LinesState { lines: lines_view(out@), links: links_view(links@) };
    proof {
        lemma_items_model(items@);
    }
    let mut i: usize = 0;
    while i < items.len()
        invariant
            i <= items.len(),
            im == items_model(items@),
            im.len() == items.len(),
            forall|j: int| 0 <= j < items.len() ==> #[trigger] im[j] == items@[j]@,
            (LinesState { lines: lines_view(out@), links: links_view(links@) }) == items_lines(
                st0,
                im.take(i as int),
                indent as int,
            ),
        decreases items.len() - i,
    {
        assert(im.take(i + 1).drop_last() =~= im.take(i as int));
        assert(im.take(i + 1).last() == items@[i as int]@);
        let ghost st = LinesState { lines: lines_view(out@), links: links_view(links@) };
        let item = &items[i];
        let mut term_words = spans_to_words(&item.term, links);
        mark_term(&mut term_words);
        push_line(out, LogicalLine { indent, words: term_words, spacer_after: false });
        let ghost (w, l) = spans_words(st.links, im[i as int].term);
        assert((LinesState { lines: lines_view(out@), links: links_view(links@) }) == (LinesState {
            lines: st.lines.push(LineV { indent: indent as int, words: as_term(w), spacer_after: false }),
            links: l,
        }));
        collect_blocks(&item.body, deeper_exec(indent), out, links);
        assert((LinesState { lines: lines_view(out@), links: links_view(links@) }) == item_lines(st, im[i as int], indent as int));
        i = i + 1;
    }
    assert(im.take(items.len() as int) =~= im);
}

/// The lines of a page, and the table of the links on it: a header line
/// (title, then volume), and for each section its heading, its blocks
/// one step in and an empty line.
pub fn build_lines(doc: &Document) -> (r: (Vec<LogicalLine>, Vec<LinkEntry>))
    ensures
        (LinesState { lines: lines_view(r.0@), links: links_view(r.1@) }) == page_lines(doc@),
{
    let mut out: Vec<LogicalLine> = Vec::new();
    let mut links: Vec<LinkEntry> = Vec::new();
    let mut header_words: Vec<Word> = Vec::new();
    header_words.push(Word { text: doc.title.clone(), style: Style::Title, link: None });
    if !doc.volume.as_str().is_empty() {
        header_words.push(Word { text: doc.volume.clone(), style: Style::Dim, link: None });
    }
    let ghost hw = words_view(header_words@);
    assert(hw =~= header_line(doc@).words);
    push_line(&mut out, LogicalLine { indent: 0, words: header_words, spacer_after: true });
    assert(lines_view(out@) =~= seq![header_line(doc@)]);
    assert(links_view(links@) =~= Seq::<LinkV>::empty());
    let ghost secs = doc@.sections;
    let ghost st0 = LinesState { lines: seq![header_line(doc@)], links: Seq::empty() };
    let mut i: usize = 0;
    assert(secs.take(0) =~= Seq::<crate::document::SectionM>::empty());
    while i < doc.sections.len()
        invariant
            i <= doc.sections.len(),
            secs == doc@.sections,
            (LinesState { lines: lines_view(out@), links: links_view(links@) }) == sections_lines(
                st0,
                secs.take(i as int),
            ),
        decreases doc.sections.len() - i,
    {
        let section = &doc.sections[i];
        assert(secs[i as int] == section@);
        assert(secs.take(i + 1).drop_last() =~= secs.take(i as int));
        let mut hw: Vec<Word> = Vec::new();
        hw.push(Word { text: section.heading.clone(), style: Style::Heading, link: None });
        assert(words_view(hw@) =~= single_word_line(section.heading@, Style::Heading, false).words);
        push_line(&mut out, LogicalLine { indent: 0, words: hw, spacer_after: false });
        collect_blocks(&section.blocks, 1, &mut out, &mut links);
        let e: Vec<Word> = Vec::new();
        assert(words_view(e@) =~= Seq::<WordV>::empty());
        push_line(&mut out, LogicalLine { indent: 0, words: e, spacer_after: false });
        i = i + 1;
    }
    assert(secs.take(doc.sections.len() as int) =~= secs);
    (out, links)
}

/// Every word that belongs to a link names an entry of a table of `n`.
pub open spec fn words_link_below(ws: Seq<WordV>, n: int) -> bool {
    forall|j: int| 0 <= j < ws.len() ==> ((#[trigger] ws[j]).link matches Some(k) ==> k < n)
}

/// Every word of the lines that belongs to a link names an entry of a
/// table of `n`.
pub open spec fn lines_link_below(ls: Seq<LineV>, n: int) -> bool {
    forall|i: int| 0 <= i < ls.len() ==> words_link_below(#[trigger] ls[i].words, n)
}

/// The link table only grows, and every line's links name its entries.
pub open spec fn links_grow(before: LinesState, after: LinesState) -> bool {
    &&& before.links.len() <= after.links.len()
    &&& (lines_link_below(before.lines, before.links.len() as int) ==> lines_link_below(
        after.lines,
        after.links.len() as int,
    ))
}

proof fn lemma_words_of_link(t: Seq<char>, style: Style, link: Option<usize>, n: int)
    requires
        (link matches Some(k) ==> k < n),
    ensures
        words_link_below(words_of(t, style, link), n),
{
}

proof fn lemma_spans_words_links(links: Seq<LinkV>, spans: Seq<SpanM>)
    ensures
        spans_words(links, spans).1.len() >= links.len(),
        words_link_below(spans_words(links, spans).0, spans_words(links, spans).1.len() as int),
    decreases spans.len(),
{
    if spans.len() > 0 {
        lemma_spans_words_links(links, spans.drop_last());
        let (w, l) = spans_words(links, spans.drop_last());
        match spans.last() {
            SpanM::Link { text, name, section } => {
                let k = l.len() as usize;
                if l.len() <= usize::MAX {
                    assert(k == l.len());
                } else {
                    assert(k <= usize::MAX);
                }
                lemma_words_of_link(text, Style::Link, Some(k), l.len() + 1int);
            },
            _ => {},
        }
    }
}

proof fn lemma_push_line_links(st: LinesState, l: LineV, links: Seq<LinkV>)
    requires
        st.links.len() <= links.len(),
        words_link_below(l.words, links.len() as int),
    ensures
        links_grow(st, LinesState { lines: st.lines.push(l), links }),
{
    let n = links.len() as int;
    let ls = st.lines.push(l);
    if lines_link_below(st.lines, st.links.len() as int) {
        assert forall|i: int| 0 <= i < ls.len() implies words_link_below(#[trigger] ls[i].words, n) by {
            if i < st.lines.len() {
                assert(ls[i] == st.lines[i]);
                assert(words_link_below(st.lines[i].words, st.links.len() as int));
            }
        }
    }
}

proof fn lemma_list_links(st: LinesState, items: Seq<Seq<SpanM>>, indent: int)
    ensures
        links_grow(st, list_lines(st, items, indent)),
    decreases items.len(),
{
    if items.len() > 0 {
        lemma_list_links(st, items.drop_last(), indent);
        let prev = list_lines(st, items.drop_last(), indent);
        lemma_spans_words_links(prev.links, items.last());
        let (w, l) = spans_words(prev.links, items.last());
        let ws = seq![bullet()] + w;
        assert(words_link_below(ws, l.len() as int)) by {
            assert forall|j: int| 0 <= j < ws.len() implies ((#[trigger] ws[j]).link matches Some(k)
                ==> k < l.len()) by {
                if j > 0 {
                    assert(ws[j] == w[j - 1]);
                }
            }
        }
        lemma_push_line_links(prev, LineV { indent, words: ws, spacer_after: false }, l);
    }
}

proof fn lemma_blocks_links(st: LinesState, bs: Seq<BlockM>, indent: int)
    ensures
        links_grow(st, blocks_lines(st, bs, indent)),
    decreases bs,
{
    if bs.len() > 0 {
        lemma_blocks_links(st, bs.drop_last(), indent);
        lemma_block_links(blocks_lines(st, bs.drop_last(), indent), bs.last(), indent);
    }
}

proof fn lemma_block_links(st: LinesState, b: BlockM, indent: int)
    ensures
        links_grow(st, block_lines(st, b, indent)),
    decreases b,
{
    match b {
        BlockM::Paragraph(spans) => {
            lemma_spans_words_links(st.links, spans);
            let (w, l) = spans_words(st.links, spans);
            lemma_push_line_links(st, LineV { indent, words: w, spacer_after: true }, l);
        },
        BlockM::DefList(items) => {
            lemma_items_links(st, items, indent);
        },
        BlockM::Indent(inner) => {
            lemma_blocks_links(st, inner, deeper(indent));
        },
        BlockM::List(items) => {
            lemma_list_links(st, items, indent);
            let s2 = list_lines(st, items, indent);
            let sl = space_last(s2.lines);
            if lines_link_below(s2.lines, s2.links.len() as int) {
                assert forall|i: int| 0 <= i < sl.len() implies words_link_below(
                    #[trigger] sl[i].words,
                    s2.links.len() as int,
                ) by {
                    assert(sl[i].words == s2.lines[i].words);
                }
            }
        },
    }
}

proof fn lemma_items_links(st: LinesState, items: Seq<DefItemM>, indent: int)
    ensures
        links_grow(st, items_lines(st, items, indent)),
    decreases items,
{
    if items.len() > 0 {
        lemma_items_links(st, items.drop_last(), indent);
        lemma_item_links(items_lines(st, items.drop_last(), indent), items.last(), indent);
    }
}

proof fn lemma_item_links(st: LinesState, it: DefItemM, indent: int)
    ensures
        links_grow(st, item_lines(st, it, indent)),
    decreases it,
{
    lemma_spans_words_links(st.links, it.term);
    let (w, l) = spans_words(st.links, it.term);
    assert(words_link_below(as_term(w), l.len() as int)) by {
        assert forall|j: int| 0 <= j < as_term(w).len() implies ((#[trigger] as_term(w)[j]).link
            matches Some(k) ==> k < l.len()) by {
            assert(as_term(w)[j].link == w[j].link);
        }
    }
    let s2 = LinesState {
        lines: st.lines.push(LineV { indent, words: as_term(w), spacer_after: false }),
        links: l,
    };
    lemma_push_line_links(st, LineV { indent, words: as_term(w), spacer_after: false }, l);
    lemma_blocks_links(s2, it.body, deeper(indent));
}

proof fn lemma_sections_links(st: LinesState, secs: Seq<crate::document::SectionM>)
    ensures
        links_grow(st, sections_lines(st, secs)),
    decreases secs.len(),
{
    if secs.len() > 0 {
        lemma_sections_links(st, secs.drop_last());
        let prev = sections_lines(st, secs.drop_last());
        let s = secs.last();
        let h = single_word_line(s.heading, Style::Heading, false);
        lemma_push_line_links(prev, h, prev.links);
        let s1 = LinesState { lines: prev.lines.push(h), links: prev.links };
        lemma_blocks_links(s1, s.blocks, 1);
        let s2 = blocks_lines(s1, s.blocks, 1);
        lemma_push_line_links(
            s2,
            LineV { indent: 0, words: Seq::empty(), spacer_after: false },
            s2.links,
        );
    }
}

/// Every word of a page that belongs to a link names an entry of the
/// page's link table.
pub proof fn law_links_in_table(doc: DocumentM)
    ensures
        lines_link_below(page_lines(doc).lines, page_lines(doc).links.len() as int),
{
    let st0 = LinesState { lines: seq![header_line(doc)], links: Seq::empty() };
    assert(lines_link_below(st0.lines, 0)) by {
        assert forall|i: int| 0 <= i < st0.lines.len() implies words_link_below(
            #[trigger] st0.lines[i].words,
            0,
        ) by {
            let ws = header_line(doc).words;
            assert forall|j: int| 0 <= j < ws.len() implies ((#[trigger] ws[j]).link matches Some(k)
                ==> k < 0) by {
                if j > 0 {
                    assert(ws[j].link is None);
                }
            }
        }
    }
    lemma_sections_links(st0, doc.sections);
}

/// The words of a run of spans start with the words of any shorter run
/// it begins with.
proof fn lemma_spans_words_prefix(links: Seq<LinkV>, s: Seq<SpanM>, m: int)
    requires
        0 <= m <= s.len(),
    ensures
        spans_words(links, s.take(m)).0.len() <= spans_words(links, s).0.len(),
        forall|j: int|
            0 <= j < spans_words(links, s.take(m)).0.len() ==> #[trigger] spans_words(links, s).0[j]
                == spans_words(links, s.take(m)).0[j],
    decreases s.len(),
{
    if m == s.len() {
        assert(s.take(m) =~= s);
    } else {
        assert(s.drop_last().take(m) =~= s.take(m));
        lemma_spans_words_prefix(links, s.drop_last(), m);
    }
}

/// Each word keeps the style of the span it came from. The words of the
/// `k`-th span of a run are the words of its text, in order, right after
/// the words of the spans before it; they are Plain for text, Bold for
/// bold, Italic for italic, Code for code, none of them a link; the
/// words of a link are Link words carrying the index it gets in the
/// table, which is the number of entries the table had before it.
pub proof fn law_span_styles(links: Seq<LinkV>, spans: Seq<SpanM>, k: int)
    requires
        0 <= k < spans.len(),
    ensures
        ({
            let before = spans_words(links, spans.take(k));
            let all = spans_words(links, spans).0;
            let ws = words(spans[k].text());
            let style = match spans[k] {
                SpanM::Text(_) => Style::Plain,
                SpanM::Bold(_) => Style::Bold,
                SpanM::Italic(_) => Style::Italic,
                SpanM::Code(_) => Style::Code,
                SpanM::Link { .. } => Style::Link,
            };
            let link = match spans[k] {
                SpanM::Link { .. } => Some(before.1.len() as usize),
                _ => None,
            };
            &&& before.0.len() + ws.len() <= all.len()
            &&& forall|j: int|
                0 <= j < ws.len() ==> #[trigger] all[before.0.len() + j] == (WordV {
                    text: ws[j],
                    style,
                    link,
                })
        }),
{
    let s1 = spans.take(k + 1);
    assert(s1.drop_last() =~= spans.take(k));
    assert(s1.last() == spans[k]);
    lemma_spans_words_prefix(links, spans, k + 1);
    let before = spans_words(links, spans.take(k));
    assert(spans_words(links, s1).0 =~= before.0 + words_of(
        spans[k].text(),
        match spans[k] {
            SpanM::Text(_) => Style::Plain,
            SpanM::Bold(_) => Style::Bold,
            SpanM::Italic(_) => Style::Italic,
            SpanM::Code(_) => Style::Code,
            SpanM::Link { .. } => Style::Link,
        },
        match spans[k] {
            SpanM::Link { .. } => Some(before.1.len() as usize),
            _ => None,
        },
    ));
}

} // verus!
