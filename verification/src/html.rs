//! The HTML fragment that mandoc emits, as a tree of plain values.
//!
//! The HTML5 parser (scraper/html5ever) turns the text into a node tree;
//! the library receives that tree as the sequence of its traversal edges
//! (each node opened, its children, then the node closed) and rebuilds
//! the tree from them.
use vstd::prelude::*;

verus! {

/// The attributes of an element that the page parser reads.
pub struct Tag {
    /// Local element name, lower case (e.g. "section").
    pub name: String,
    /// The `class` attribute.
    pub class: Option<String>,
    /// The `id` attribute.
    pub id: Option<String>,
    /// The `href` attribute.
    pub href: Option<String>,
}

pub struct TagV {
    pub name: Seq<char>,
    pub class: Option<Seq<char>>,
    pub id: Option<Seq<char>>,
    pub href: Option<Seq<char>>,
}

impl View for Tag {
    type V = TagV;

    open spec fn view(&self) -> TagV {
        TagV {
            name: self.name@,
            class: opt_view(self.class),
            id: opt_view(self.id),
            href: opt_view(self.href),
        }
    }
}

pub open spec fn opt_view(o: Option<String>) -> Option<Seq<char>> {
    match o {
        Some(s) => Some(s@),
        None => None,
    }
}

/// A copy of an optional string.
pub fn clone_opt(o: &Option<String>) -> (r: Option<String>)
    ensures
        opt_view(r) == opt_view(*o),
{
    match o {
        Some(s) => Some(s.clone()),
        None => None,
    }
}

/// One edge of a depth-first traversal of the parsed HTML tree.
pub enum HtmlEvent {
    /// An element is entered.
    OpenElement(Tag),
    /// A text node is entered.
    OpenText(String),
    /// Any other node (document or fragment root, comment, doctype) is entered.
    OpenOther,
    /// The most recently entered node is left.
    Close,
}

pub enum HtmlEventV {
    OpenElement(TagV),
    OpenText(Seq<char>),
    OpenOther,
    Close,
}

impl View for HtmlEvent {
    type V = HtmlEventV;

    open spec fn view(&self) -> HtmlEventV {
        match self {
            HtmlEvent::OpenElement(t) => HtmlEventV::OpenElement(t@),
            HtmlEvent::OpenText(s) => HtmlEventV::OpenText(s@),
            HtmlEvent::OpenOther => HtmlEventV::OpenOther,
            HtmlEvent::Close => HtmlEventV::Close,
        }
    }
}

/// The view of a sequence of events.
pub open spec fn events_view(s: Seq<HtmlEvent>) -> Seq<HtmlEventV> {
    s.map_values(|e: HtmlEvent| e@)
}

/// A node of the parsed HTML tree.
pub enum HtmlNode {
    Element(Tag, Vec<HtmlNode>),
    Text(String),
    Other(Vec<HtmlNode>),
}

pub enum NodeV {
    Element(TagV, Seq<NodeV>),
    Text(Seq<char>),
    Other(Seq<NodeV>),
}

impl NodeV {
    /// The children of a node (none for text).
    pub open spec fn children(self) -> Seq<NodeV> {
        match self {
            NodeV::Element(_, kids) => kids,
            NodeV::Other(kids) => kids,
            NodeV::Text(_) => Seq::empty(),
        }
    }
}

impl HtmlNode {
    pub open spec fn model(self) -> NodeV
        decreases self,
    {
        match self {
            HtmlNode::Element(t, kids) => NodeV::Element(t@, nodes_model(kids@)),
            HtmlNode::Text(s) => NodeV::Text(s@),
            HtmlNode::Other(kids) => NodeV::Other(nodes_model(kids@)),
        }
    }
}

impl View for HtmlNode {
    type V = NodeV;

    open spec fn view(&self) -> NodeV {
        self.model()
    }
}

pub open spec fn nodes_model(s: Seq<HtmlNode>) -> Seq<NodeV>
    decreases s,
{
    if s.len() == 0 {
        Seq::empty()
    } else {
        nodes_model(s.drop_last()).push(s.last().model())
    }
}

pub proof fn lemma_nodes_model(s: Seq<HtmlNode>)
    ensures
        nodes_model(s).len() == s.len(),
        forall|i: int| 0 <= i < s.len() ==> #[trigger] nodes_model(s)[i] == s[i].model(),
    decreases s.len(),
{
    if s.len() > 0 {
        lemma_nodes_model(s.drop_last());
        assert forall|i: int| 0 <= i < s.len() implies #[trigger] nodes_model(s)[i]
            == s[i].model() by {
            if i < s.len() - 1 {
                assert(s.drop_last()[i] == s[i]);
            }
        }
    }
}

/// What has been entered but not yet left, while the tree is rebuilt.
pub enum FrameKind {
    Element(Tag),
    Text(String),
    Other,
}

pub enum FrameKindV {
    Element(TagV),
    Text(Seq<char>),
    Other,
}

pub struct Frame {
    pub kind: FrameKind,
    pub kids: Vec<HtmlNode>,
}

pub struct FrameV {
    pub kind: FrameKindV,
    pub kids: Seq<NodeV>,
}

impl View for Frame {
    type V = FrameV;

    open spec fn view(&self) -> FrameV {
        FrameV {
            kind: match self.kind {
                FrameKind::Element(t) => FrameKindV::Element(t@),
                FrameKind::Text(s) => FrameKindV::Text(s@),
                FrameKind::Other => FrameKindV::Other,
            },
            kids: nodes_model(self.kids@),
        }
    }
}

/// The state of the rebuild: the open nodes (innermost last) and the
/// completed top-level nodes.
pub struct BuildV {
    pub open: Seq<FrameV>,
    pub done: Seq<NodeV>,
}

/// The node that a frame becomes once it is left.
pub open spec fn close_frame(f: FrameV) -> NodeV {
    match f.kind {
        FrameKindV::Element(t) => NodeV::Element(t, f.kids),
        FrameKindV::Text(s) => NodeV::Text(s),
        FrameKindV::Other => NodeV::Other(f.kids),
    }
}

/// Leaving the innermost open node: it becomes a child of the node around
/// it, or a completed top-level node. A stray close is ignored.
pub open spec fn close_top(st: BuildV) -> BuildV {
    if st.open.len() == 0 {
        st
    } else {
        let node = close_frame(st.open.last());
        let rest = st.open.drop_last();
        if rest.len() == 0 {
            BuildV { open: rest, done: st.done.push(node) }
        } else {
            let parent = rest.last();
            BuildV {
                open: rest.drop_last().push(FrameV { kind: parent.kind, kids: parent.kids.push(node) }),
                done: st.done,
            }
        }
    }
}

pub open spec fn build_step(st: BuildV, e: HtmlEventV) -> BuildV {
    match e {
        HtmlEventV::OpenElement(t) => BuildV {
            open: st.open.push(FrameV { kind: FrameKindV::Element(t), kids: Seq::empty() }),
            done: st.done,
        },
        HtmlEventV::OpenText(s) => BuildV {
            open: st.open.push(FrameV { kind: FrameKindV::Text(s), kids: Seq::empty() }),
            done: st.done,
        },
        HtmlEventV::OpenOther => BuildV {
            open: st.open.push(FrameV { kind: FrameKindV::Other, kids: Seq::empty() }),
            done: st.done,
        },
        HtmlEventV::Close => close_top(st),
    }
}

pub open spec fn build_events(ev: Seq<HtmlEventV>) -> BuildV
    decreases ev.len(),
{
    if ev.len() == 0 {
        BuildV { open: Seq::empty(), done: Seq::empty() }
    } else {
        build_step(build_events(ev.drop_last()), ev.last())
    }
}

/// Leaves every node that is still open (for a truncated traversal).
pub open spec fn close_all(st: BuildV) -> BuildV
    decreases st.open.len(),
{
    if st.open.len() == 0 {
        st
    } else {
        close_all(close_top(st))
    }
}

/// The tree that a traversal describes: its top-level nodes under one root.
pub open spec fn tree_of_events(ev: Seq<HtmlEventV>) -> NodeV {
    NodeV::Other(close_all(build_events(ev)).done)
}

pub open spec fn frames_view(s: Seq<Frame>) -> Seq<FrameV> {
    s.map_values(|f: Frame| f@)
}

fn close_frame_exec(f: Frame) -> (n: HtmlNode)
    ensures
        n@ == close_frame(f@),
{
    match f.kind {
        FrameKind::Element(t) => HtmlNode::Element(t, f.kids),
        FrameKind::Text(s) => HtmlNode::Text(s),
        FrameKind::Other => HtmlNode::Other(f.kids),
    }
}

proof fn lemma_nodes_model_push(s: Seq<HtmlNode>, n: HtmlNode)
    ensures
        nodes_model(s.push(n)) == nodes_model(s).push(n.model()),
{
    assert(s.push(n).drop_last() =~= s);
}

fn close_top_exec(open: &mut Vec<Frame>, done: &mut Vec<HtmlNode>)
    ensures
        (BuildV { open: frames_view(final(open)@), done: nodes_model(final(done)@) }) == close_top(
            BuildV { open: frames_view(old(open)@), done: nodes_model(old(done)@) },
        ),
        old(open).len() > 0 ==> final(open).len() == old(open).len() - 1,
{
    let ghost st = BuildV { open: frames_view(open@), done: nodes_model(done@) };
    if open.len() == 0 {
        return ;
    }
    let f = open.pop().unwrap();
    assert(frames_view(open@) =~= st.open.drop_last());
    let node = close_frame_exec(f);
    if open.len() == 0 {
        proof {
            lemma_nodes_model_push(done@, node);
        }
        done.push(node);
    } else {
        let mut parent = open.pop().unwrap();
        assert(frames_view(open@) =~= st.open.drop_last().drop_last());
        proof {
            lemma_nodes_model_push(parent.kids@, node);
        }
        parent.kids.push(node);
        open.push(parent);
        assert(frames_view(open@) =~= close_top(st).open);
    }
}

/// Rebuilds the tree from its traversal edges.
pub fn build_tree(events: &Vec<HtmlEvent>) -> (root: HtmlNode)
    ensures
        root@ == tree_of_events(events_view(events@)),
{
    let mut open: Vec<Frame> = Vec::new();
    let mut done: Vec<HtmlNode> = Vec::new();
    let ghost ev = events_view(events@);
    let mut i: usize = 0;
    assert(frames_view(open@) =~= Seq::<FrameV>::empty());
    assert(nodes_model(done@) =~= Seq::<NodeV>::empty());
    while i < events.len()
        invariant
            0 <= i <= events.len(),
            ev == events_view(events@),
            (BuildV { open: frames_view(open@), done: nodes_model(done@) }) == build_events(
                ev.take(i as int),
            ),
        decreases events.len() - i,
    {
        let ghost pre = BuildV { open: frames_view(open@), done: nodes_model(done@) };
        assert(ev.take(i + 1).drop_last() =~= ev.take(i as int));
        assert(ev.take(i + 1).last() == events@[i as int]@);
        match &events[i] {
            HtmlEvent::OpenElement(t) => {
                let t2 = Tag {
                    name: t.name.clone(),
                    class: clone_opt(&t.class),
                    id: clone_opt(&t.id),
                    href: clone_opt(&t.href),
                };
                open.push(Frame { kind: FrameKind::Element(t2), kids: Vec::new() });
                assert(nodes_model(Seq::<HtmlNode>::empty()) =~= Seq::<NodeV>::empty());
                assert(frames_view(open@) =~= build_step(pre, ev[i as int]).open);
            },
            HtmlEvent::OpenText(s) => {
                open.push(Frame { kind: FrameKind::Text(s.clone()), kids: Vec::new() });
                assert(nodes_model(Seq::<HtmlNode>::empty()) =~= Seq::<NodeV>::empty());
                assert(frames_view(open@) =~= build_step(pre, ev[i as int]).open);
            },
            HtmlEvent::OpenOther => {
                open.push(Frame { kind: FrameKind::Other, kids: Vec::new() });
                assert(nodes_model(Seq::<HtmlNode>::empty()) =~= Seq::<NodeV>::empty());
                assert(frames_view(open@) =~= build_step(pre, ev[i as int]).open);
            },
            HtmlEvent::Close => {
                close_top_exec(&mut open, &mut done);
            },
        }
        i = i + 1;
    }
    assert(ev.take(events.len() as int) =~= ev);
    while open.len() > 0
        invariant
            close_all(BuildV { open: frames_view(open@), done: nodes_model(done@) }) == close_all(
                build_events(ev),
            ),
        decreases open.len(),
    {
        close_top_exec(&mut open, &mut done);
    }
    HtmlNode::Other(done)
}

/// The traversal edges of the tree that the HTML5 parser (html5ever, through
/// `scraper::Html::parse_fragment`) builds for an HTML fragment.
pub uninterp spec fn fragment_edges(html: Seq<char>) -> Seq<HtmlEventV>;

/// Parses an HTML fragment with `scraper::Html::parse_fragment` and lists the
/// edges of `ego_tree::NodeRef::traverse` from the root of the resulting tree,
/// one event per edge. The contract names the result and says nothing more of
/// it: it depends on the text alone, and what the HTML5 tree-building rules
/// make of a text takes the HTML standard to state.
#[verifier::external_body]
pub(crate) fn fragment_events(html: &str) -> (events: Vec<HtmlEvent>)
    ensures
        events_view(events@) == fragment_edges(html@),
{
    let doc = scraper::Html::parse_fragment(html);
    doc.tree.root().traverse().map(|edge| match edge {
        ego_tree::iter::Edge::Open(node) => match node.value() {
            scraper::Node::Element(e) => HtmlEvent::OpenElement(Tag {
                name: e.name().to_string(),
                class: e.attr("class").map(str::to_string),
                id: e.attr("id").map(str::to_string),
                href: e.attr("href").map(str::to_string),
            }),
            scraper::Node::Text(t) => HtmlEvent::OpenText(t.to_string()),
            _ => HtmlEvent::OpenOther,
        },
        ego_tree::iter::Edge::Close(_) => HtmlEvent::Close,
    }).collect()
}

} // verus!
