//! The renderer-agnostic representation of a parsed man page.
//! The pager (and any other renderer) consumes this same structure.
use vstd::prelude::*;

verus! {

/// A whole page.
#[derive(Debug, Clone)]
pub struct Document {
    /// e.g. "JAVA(1)"
    pub title: String,
    /// e.g. "JDK Commands"
    pub volume: String,
    pub sections: Vec<Section>,
}

/// One top-level section (`.Sh`).
#[derive(Debug, Clone)]
pub struct Section {
    /// Anchor id, e.g. "DESCRIPTION"
    pub id: String,
    pub heading: String,
    pub blocks: Vec<Block>,
}

/// A block of content.
#[derive(Debug)]
pub enum Block {
    Paragraph(Vec<Span>),
    /// Definition list: flags/terms and their descriptions (Bl-tag in mdoc)
    DefList(Vec<DefItem>),
    /// Indented block (Bd-indent), holds nested blocks
    Indent(Vec<Block>),
    /// Bullet or numbered list items
    List(Vec<Vec<Span>>),
}

/// One term of a definition list with its description.
#[derive(Debug)]
pub struct DefItem {
    pub term: Vec<Span>,
    pub body: Vec<Block>,
}

/// An inline run of styled text.
#[derive(Debug)]
pub enum Span {
    Text(String),
    Bold(String),
    Italic(String),
    Code(String),
    /// A cross-reference to another man page, e.g. "ls(1)".
    /// `name`/`section` are what a loader is given to follow it.
    Link { text: String, name: String, section: String },
}

pub enum SpanM {
    Text(Seq<char>),
    Bold(Seq<char>),
    Italic(Seq<char>),
    Code(Seq<char>),
    Link { text: Seq<char>, name: Seq<char>, section: Seq<char> },
}

pub enum BlockM {
    Paragraph(Seq<SpanM>),
    DefList(Seq<DefItemM>),
    Indent(Seq<BlockM>),
    List(Seq<Seq<SpanM>>),
}

pub struct DefItemM {
    pub term: Seq<SpanM>,
    pub body: Seq<BlockM>,
}

pub struct SectionM {
    pub id: Seq<char>,
    pub heading: Seq<char>,
    pub blocks: Seq<BlockM>,
}

pub struct DocumentM {
    pub title: Seq<char>,
    pub volume: Seq<char>,
    pub sections: Seq<SectionM>,
}

impl View for Span {
    type V = SpanM;

    open spec fn view(&self) -> SpanM {
        match self {
            Span::Text(s) => SpanM::Text(s@),
            Span::Bold(s) => SpanM::Bold(s@),
            Span::Italic(s) => SpanM::Italic(s@),
            Span::Code(s) => SpanM::Code(s@),
            Span::Link { text, name, section } => SpanM::Link {
                text: text@,
                name: name@,
                section: section@,
            },
        }
    }
}

impl SpanM {
    /// The text a reader sees for this span.
    pub open spec fn text(self) -> Seq<char> {
        match self {
            SpanM::Text(s) => s,
            SpanM::Bold(s) => s,
            SpanM::Italic(s) => s,
            SpanM::Code(s) => s,
            SpanM::Link { text, .. } => text,
        }
    }
}

/// The view of a list of spans.
pub open spec fn spans_view(s: Seq<Span>) -> Seq<SpanM> {
    s.map_values(|x: Span| x@)
}

/// The view of a list of span lists.
pub open spec fn span_lists_view(s: Seq<Vec<Span>>) -> Seq<Seq<SpanM>> {
    s.map_values(|x: Vec<Span>| spans_view(x@))
}

impl Block {
    pub open spec fn model(self) -> BlockM
        decreases self,
    {
        match self {
            Block::Paragraph(spans) => BlockM::Paragraph(spans_view(spans@)),
            Block::DefList(items) => BlockM::DefList(items_model(items@)),
            Block::Indent(inner) => BlockM::Indent(blocks_model(inner@)),
            Block::List(items) => BlockM::List(span_lists_view(items@)),
        }
    }
}

impl View for Block {
    type V = BlockM;

    open spec fn view(&self) -> BlockM {
        self.model()
    }
}

impl DefItem {
    pub open spec fn model(self) -> DefItemM
        decreases self,
    {
        DefItemM { term: spans_view(self.term@), body: blocks_model(self.body@) }
    }
}

impl View for DefItem {
    type V = DefItemM;

    open spec fn view(&self) -> DefItemM {
        self.model()
    }
}

/// The view of a list of blocks.
pub open spec fn blocks_model(s: Seq<Block>) -> Seq<BlockM>
    decreases s,
{
    if s.len() == 0 {
        Seq::empty()
    } else {
        blocks_model(s.drop_last()).push(s.last().model())
    }
}

/// The view of a list of definition items.
pub open spec fn items_model(s: Seq<DefItem>) -> Seq<DefItemM>
    decreases s,
{
    if s.len() == 0 {
        Seq::empty()
    } else {
        items_model(s.drop_last()).push(s.last().model())
    }
}

impl View for Section {
    type V = SectionM;

    open spec fn view(&self) -> SectionM {
        SectionM { id: self.id@, heading: self.heading@, blocks: blocks_model(self.blocks@) }
    }
}

impl View for Document {
    type V = DocumentM;

    open spec fn view(&self) -> DocumentM {
        DocumentM {
            title: self.title@,
            volume: self.volume@,
            sections: self.sections@.map_values(|s: Section| s@),
        }
    }
}

pub proof fn lemma_blocks_model(s: Seq<Block>)
    ensures
        blocks_model(s).len() == s.len(),
        forall|i: int| 0 <= i < s.len() ==> #[trigger] blocks_model(s)[i] == s[i]@,
    decreases s.len(),
{
    if s.len() > 0 {
        lemma_blocks_model(s.drop_last());
        assert forall|i: int| 0 <= i < s.len() implies #[trigger] blocks_model(s)[i] == s[i]@ by {
            if i < s.len() - 1 {
                assert(s.drop_last()[i] == s[i]);
            }
        }
    }
}

pub proof fn lemma_items_model(s: Seq<DefItem>)
    ensures
        items_model(s).len() == s.len(),
        forall|i: int| 0 <= i < s.len() ==> #[trigger] items_model(s)[i] == s[i]@,
    decreases s.len(),
{
    if s.len() > 0 {
        lemma_items_model(s.drop_last());
        assert forall|i: int| 0 <= i < s.len() implies #[trigger] items_model(s)[i] == s[i]@ by {
            if i < s.len() - 1 {
                assert(s.drop_last()[i] == s[i]);
            }
        }
    }
}

pub proof fn lemma_blocks_model_push(s: Seq<Block>, b: Block)
    ensures
        blocks_model(s.push(b)) == blocks_model(s).push(b@),
{
    assert(s.push(b).drop_last() =~= s);
}

pub proof fn lemma_items_model_push(s: Seq<DefItem>, b: DefItem)
    ensures
        items_model(s.push(b)) == items_model(s).push(b@),
{
    assert(s.push(b).drop_last() =~= s);
}

impl Span {
    /// The text a reader sees for this span, whatever its style.
    pub fn plain_text(&self) -> (r: &str)
        ensures
            r@ == self@.text(),
    {
        match self {
            Span::Text(s) => s.as_str(),
            Span::Bold(s) => s.as_str(),
            Span::Italic(s) => s.as_str(),
            Span::Code(s) => s.as_str(),
            Span::Link { text, .. } => text.as_str(),
        }
    }
}

impl Span {
    /// A copy of the span.
    pub fn copy(&self) -> (r: Span)
        ensures
            r@ == self@,
    {
        match self {
            Span::Text(t) => Span::Text(t.clone()),
            Span::Bold(t) => Span::Bold(t.clone()),
            Span::Italic(t) => Span::Italic(t.clone()),
            Span::Code(t) => Span::Code(t.clone()),
            Span::Link { text, name, section } => Span::Link {
                text: text.clone(),
                name: name.clone(),
                section: section.clone(),
            },
        }
    }
}

impl Clone for Span {
    fn clone(&self) -> (r: Span)
        ensures
            r@ == self@,
    {
        self.copy()
    }
}

impl PartialEq for Span {
    fn eq(&self, other: &Span) -> (r: bool) {
        match self {
            Span::Text(a) => match other {
                Span::Text(b) => a.eq(b),
                _ => false,
            },
            Span::Bold(a) => match other {
                Span::Bold(b) => a.eq(b),
                _ => false,
            },
            Span::Italic(a) => match other {
                Span::Italic(b) => a.eq(b),
                _ => false,
            },
            Span::Code(a) => match other {
                Span::Code(b) => a.eq(b),
                _ => false,
            },
            Span::Link { text: a, name: b, section: c } => match other {
                Span::Link { text: x, name: y, section: z } => {
                    let same_text = a.eq(x);
                    let same_name = b.eq(y);
                    let same_section = c.eq(z);
                    same_text && same_name && same_section
                },
                _ => false,
            },
        }
    }
}

impl vstd::std_specs::cmp::PartialEqSpecImpl for Span {
    open spec fn obeys_eq_spec() -> bool {
        true
    }

    open spec fn eq_spec(&self, other: &Span) -> bool {
        self@ == other@
    }
}

impl Eq for Span {

}

/// Copies of a run of spans.
pub fn copy_spans(v: &Vec<Span>) -> (r: Vec<Span>)
    ensures
        spans_view(r@) == spans_view(v@),
{
    let mut r: Vec<Span> = Vec::new();
    let mut i: usize = 0;
    while i < v.len()
        invariant
            i <= v.len(),
            r.len() == i,
            forall|j: int| 0 <= j < i ==> (#[trigger] r@[j])@ == v@[j]@,
        decreases v.len() - i,
    {
        r.push(v[i].copy());
        i = i + 1;
    }
    assert(spans_view(r@) =~= spans_view(v@));
    r
}

fn copy_span_lists(v: &Vec<Vec<Span>>) -> (r: Vec<Vec<Span>>)
    ensures
        span_lists_view(r@) == span_lists_view(v@),
{
    let mut r: Vec<Vec<Span>> = Vec::new();
    let mut i: usize = 0;
    while i < v.len()
        invariant
            i <= v.len(),
            r.len() == i,
            forall|j: int| 0 <= j < i ==> spans_view((#[trigger] r@[j])@) == spans_view(v@[j]@),
        decreases v.len() - i,
    {
        r.push(copy_spans(&v[i]));
        i = i + 1;
    }
    assert(span_lists_view(r@) =~= span_lists_view(v@));
    r
}

/// A copy of a block.
pub fn copy_block(b: &Block) -> (r: Block)
    ensures
        r@ == b@,
    decreases b,
{
    match b {
        Block::Paragraph(sp) => Block::Paragraph(copy_spans(sp)),
        Block::DefList(items) => Block::DefList(copy_items(items)),
        Block::Indent(inner) => Block::Indent(copy_blocks(inner)),
        Block::List(items) => Block::List(copy_span_lists(items)),
    }
}

/// Copies of a run of blocks.
pub fn copy_blocks(v: &Vec<Block>) -> (r: Vec<Block>)
    ensures
        blocks_model(r@) == blocks_model(v@),
    decreases v,
{
    proof {
        lemma_blocks_model(v@);
    }
    let mut r: Vec<Block> = Vec::new();
    let mut i: usize = 0;
    assert(blocks_model(r@) =~= blocks_model(v@).take(0));
    while i < v.len()
        invariant
            i <= v.len(),
            blocks_model(v@).len() == v.len(),
            forall|j: int| 0 <= j < v.len() ==> #[trigger] blocks_model(v@)[j] == v@[j]@,
            blocks_model(r@) == blocks_model(v@).take(i as int),
        decreases v.len() - i,
    {
        let c = copy_block(&v[i]);
        proof {
            lemma_blocks_model_push(r@, c);
        }
        r.push(c);
        i = i + 1;
        assert(blocks_model(r@) =~= blocks_model(v@).take(i as int));
    }
    assert(blocks_model(v@).take(v.len() as int) =~= blocks_model(v@));
    r
}

/// A copy of a definition item.
pub fn copy_item(it: &DefItem) -> (r: DefItem)
    ensures
        r@ == it@,
    decreases it,
{
    DefItem { term: copy_spans(&it.term), body: copy_blocks(&it.body) }
}

/// Copies of a run of definition items.
pub fn copy_items(v: &Vec<DefItem>) -> (r: Vec<DefItem>)
    ensures
        items_model(r@) == items_model(v@),
    decreases v,
{
    proof {
        lemma_items_model(v@);
    }
    let mut r: Vec<DefItem> = Vec::new();
    let mut i: usize = 0;
    assert(items_model(r@) =~= items_model(v@).take(0));
    while i < v.len()
        invariant
            i <= v.len(),
            items_model(v@).len() == v.len(),
            forall|j: int| 0 <= j < v.len() ==> #[trigger] items_model(v@)[j] == v@[j]@,
            items_model(r@) == items_model(v@).take(i as int),
        decreases v.len() - i,
    {
        let c = copy_item(&v[i]);
        proof {
            lemma_items_model_push(r@, c);
        }
        r.push(c);
        i = i + 1;
        assert(items_model(r@) =~= items_model(v@).take(i as int));
    }
    assert(items_model(v@).take(v.len() as int) =~= items_model(v@));
    r
}

impl Clone for Block {
    fn clone(&self) -> (r: Block)
        ensures
            r@ == self@,
    {
        copy_block(self)
    }
}

impl Clone for DefItem {
    fn clone(&self) -> (r: DefItem)
        ensures
            r@ == self@,
    {
        copy_item(self)
    }
}

impl Default for Section {
    fn default() -> (r: Section)
        ensures
            r@ == (SectionM { id: Seq::empty(), heading: Seq::empty(), blocks: Seq::empty() }),
    {
        let r = Section { id: String::new(), heading: String::new(), blocks: Vec::new() };
        assert(blocks_model(r.blocks@) =~= Seq::<BlockM>::empty());
        r
    }
}

impl Default for Document {
    fn default() -> (r: Document)
        ensures
            r@ == (DocumentM { title: Seq::empty(), volume: Seq::empty(), sections: Seq::empty() }),
    {
        let r = Document { title: String::new(), volume: String::new(), sections: Vec::new() };
        assert(r@.sections =~= Seq::<SectionM>::empty());
        r
    }
}

} // verus!
