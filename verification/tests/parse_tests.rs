use manview::document::{Block, DefItem, Document, Section, Span};
use manview::indexer::collect_flags;
use manview::parse_document;

fn head(title: &str, vol: &str) -> String {
    format!(
        "<table class=\"head\"><tr><td class=\"head-ltitle\">{title}</td>\
         <td class=\"head-vol\">{vol}</td><td class=\"head-rtitle\">{title}</td></tr></table>"
    )
}

fn page(body: &str) -> String {
    format!(
        "{}<div class=\"manual-text\"><section class=\"Sh\"><h1 class=\"Sh\" id=\"DESCRIPTION\">DESCRIPTION</h1>{body}</section></div>",
        head("LS(1)", "General Commands Manual")
    )
}

fn text(s: &str) -> Span {
    Span::Text(s.to_string())
}

fn link(t: &str, n: &str, s: &str) -> Span {
    Span::Link { text: t.to_string(), name: n.to_string(), section: s.to_string() }
}

fn first_blocks(doc: &Document) -> &Vec<Block> {
    &doc.sections[0].blocks
}

fn para_spans(b: &Block) -> Vec<Span> {
    match b {
        Block::Paragraph(s) => s.clone(),
        other => panic!("expected a paragraph, got {other:?}"),
    }
}

fn same_spans(a: &[Span], b: &[Span]) -> bool {
    format!("{a:?}") == format!("{b:?}")
}

#[test]
fn title_volume_and_sections() {
    let html = format!(
        "{}<div class=\"manual-text\">\
         <section class=\"Sh\"><h1 class=\"Sh\" id=\"NAME\">NAME</h1><p class=\"Pp\">ls - list directory contents</p></section>\
         <section class=\"Sh\"><h1 class=\"Sh\" id=\"SYNOPSIS\">SYNOPSIS</h1><p class=\"Pp\"><b>ls</b> [<i>OPTION</i>]...</p></section>\
         </div>",
        head("LS(1)", "User   Commands")
    );
    let doc = parse_document(&html);
    assert_eq!(doc.title, "LS(1)");
    assert_eq!(doc.volume, "User Commands");
    assert_eq!(doc.sections.len(), 2);
    assert_eq!(doc.sections[0].id, "NAME");
    assert_eq!(doc.sections[0].heading, "NAME");
    assert_eq!(doc.sections[1].heading, "SYNOPSIS");
    let p = para_spans(&doc.sections[0].blocks[0]);
    assert!(same_spans(&p, &[text("ls - list directory contents")]));
    let q = para_spans(&doc.sections[1].blocks[0]);
    assert!(same_spans(
        &q,
        &[
            Span::Bold("ls".to_string()),
            text(" ["),
            Span::Italic("OPTION".to_string()),
            text("]..."),
        ]
    ));
}

#[test]
fn document_without_head_or_sections() {
    let doc = parse_document("<p>stray</p>");
    assert_eq!(doc.title, "");
    assert_eq!(doc.volume, "");
    assert!(doc.sections.is_empty());
}

#[test]
fn whitespace_between_spans_is_kept_once() {
    let doc = parse_document(&page("<p>See   <b>grep</b>\n  and   <code>sed  x</code></p>"));
    let p = para_spans(&first_blocks(&doc)[0]);
    assert!(same_spans(
        &p,
        &[text("See "), Span::Bold("grep".to_string()), text(" and "), Span::Code("sed x".to_string())]
    ));
}

#[test]
fn mandoc_xr_anchor_becomes_link() {
    let doc = parse_document(&page("<p>see <a class=\"Xr\" href=\"ls.1\">ls(1)</a></p>"));
    let p = para_spans(&first_blocks(&doc)[0]);
    assert!(same_spans(&p, &[text("see "), link("ls(1)", "ls", "1")]));
}

#[test]
fn plain_text_reference_becomes_link() {
    let doc = parse_document(&page("<p>compare with ls(1) and printf(3p), not x(y)</p>"));
    let p = para_spans(&first_blocks(&doc)[0]);
    assert!(same_spans(
        &p,
        &[
            text("compare with "),
            link("ls(1)", "ls", "1"),
            text(" and "),
            link("printf(3p)", "printf", "3p"),
            text(", not x(y)"),
        ]
    ));
}

#[test]
fn bold_name_followed_by_section_becomes_link() {
    let doc = parse_document(&page("<p>See <b>dircolors</b>(1) for details</p>"));
    let p = para_spans(&first_blocks(&doc)[0]);
    assert!(same_spans(
        &p,
        &[text("See "), link("dircolors(1)", "dircolors", "1"), text(" for details")]
    ));
}

#[test]
fn definition_list_terms_and_bodies() {
    let doc = parse_document(&page(
        "<dl class=\"Bl-tag\"><dt><b>-a</b>, <b>--all</b></dt><dd>do not ignore entries starting with .</dd>\
         <dt><b>-l</b></dt><dd><p>use a long listing format</p></dd><dt>orphan</dt></dl>",
    ));
    match &first_blocks(&doc)[0] {
        Block::DefList(items) => {
            assert_eq!(items.len(), 3);
            assert!(same_spans(
                &items[0].term,
                &[Span::Bold("-a".to_string()), text(", "), Span::Bold("--all".to_string())]
            ));
            assert_eq!(items[0].body.len(), 1);
            assert!(same_spans(
                &para_spans(&items[0].body[0]),
                &[text("do not ignore entries starting with .")]
            ));
            assert!(same_spans(
                &para_spans(&items[1].body[0]),
                &[text("use a long listing format")]
            ));
            assert!(same_spans(&items[2].term, &[text("orphan")]));
            assert!(items[2].body.is_empty());
        }
        other => panic!("expected a definition list, got {other:?}"),
    }
}

#[test]
fn lists_indents_and_subsections() {
    let doc = parse_document(&page(
        "<ul><li>one</li><li><b>two</b></li></ul>\
         <div class=\"Bd-indent\"><p>inside</p></div>\
         <section class=\"Ss\"><h2 class=\"Ss\">Exit status</h2><p>zero</p></section>\
         <table><tr><td>skipped</td></tr></table>\
         <div class=\"other\"><p>flattened</p></div>",
    ));
    let blocks = first_blocks(&doc);
    assert_eq!(blocks.len(), 4);
    match &blocks[0] {
        Block::List(items) => {
            assert_eq!(items.len(), 2);
            assert!(same_spans(&items[0], &[text("one")]));
            assert!(same_spans(&items[1], &[Span::Bold("two".to_string())]));
        }
        other => panic!("expected a list, got {other:?}"),
    }
    match &blocks[1] {
        Block::Indent(inner) => assert!(same_spans(&para_spans(&inner[0]), &[text("inside")])),
        other => panic!("expected an indent, got {other:?}"),
    }
    match &blocks[2] {
        Block::Indent(inner) => {
            assert_eq!(inner.len(), 2);
            assert!(same_spans(&para_spans(&inner[0]), &[Span::Bold("Exit status".to_string())]));
            assert!(same_spans(&para_spans(&inner[1]), &[text("zero")]));
        }
        other => panic!("expected a subsection, got {other:?}"),
    }
    assert!(same_spans(&para_spans(&blocks[3]), &[text("flattened")]));
}

#[test]
fn comma_separated_term_gives_two_flags() {
    let doc = parse_document(&page(
        "<dl class=\"Bl-tag\"><dt><b>-a</b>, <b>--all</b></dt><dd>do not ignore entries starting with .</dd></dl>",
    ));
    let mut out = Vec::new();
    collect_flags(&doc, "ls", "1", &mut out);
    assert_eq!(out.len(), 2);
    assert_eq!(out[0].flag, "-a");
    assert_eq!(out[1].flag, "--all");
    for e in &out {
        assert_eq!(e.name, "ls");
        assert_eq!(e.section, "1");
        assert_eq!(e.description, "do not ignore entries starting with .");
    }
}

#[test]
fn nested_option_groups_are_indexed() {
    let doc = Document {
        title: "T(1)".to_string(),
        volume: String::new(),
        sections: vec![manview::Section {
            id: "OPTIONS".to_string(),
            heading: "OPTIONS".to_string(),
            blocks: vec![Block::Indent(vec![Block::DefList(vec![DefItem {
                term: vec![text("--outer")],
                body: vec![
                    Block::Paragraph(vec![text("outer flag")]),
                    Block::DefList(vec![DefItem {
                        term: vec![text(" -i , ")],
                        body: vec![],
                    }]),
                ],
            }])])],
        }],
    };
    let mut out = Vec::new();
    collect_flags(&doc, "t", "1", &mut out);
    assert_eq!(out.len(), 2);
    assert_eq!(out[0].flag, "--outer");
    assert_eq!(out[0].description, "outer flag");
    assert_eq!(out[1].flag, "-i");
    assert_eq!(out[1].description, "");
}

#[test]
fn span_plain_text_ignores_style() {
    assert_eq!(Span::Bold("x y".to_string()).plain_text(), "x y");
    assert_eq!(link("ls(1)", "ls", "1").plain_text(), "ls(1)");
    assert_eq!(text("").plain_text(), "");
}

#[test]
fn finding_references_keeps_the_text() {
    let input = "see ls(1), printf(3) or cat(1p); not (2) nor a(b)";
    let chars: Vec<char> = input.chars().collect();
    let spans = manview::links::linkify_text_exec(&chars);
    assert_eq!(manview::indexer::plain_text(&spans), input);
    let links: Vec<String> = spans
        .iter()
        .filter_map(|s| match s {
            Span::Link { name, section, .. } => Some(format!("{name}/{section}")),
            _ => None,
        })
        .collect();
    assert_eq!(links, vec!["ls/1", "printf/3", "cat/1p"]);
}

#[test]
fn text_directly_in_a_section_is_kept() {
    let html = "<div class=\"manual-text\"><section class=\"Sh\"><h1 class=\"Sh\" id=\"NAME\">NAME</h1>ls - list directory contents</section></div>";
    let doc = parse_document(html);
    assert_eq!(doc.sections.len(), 1);
    assert_eq!(doc.sections[0].heading, "NAME");
    let blocks = first_blocks(&doc);
    assert_eq!(blocks.len(), 1);
    assert!(same_spans(&para_spans(&blocks[0]), &[text("ls - list directory contents")]));
}

#[test]
fn inline_runs_between_blocks_become_paragraphs() {
    let doc = parse_document(&page(
        "<b>ls</b> [<i>OPTION</i>]...<br/>\n<p>next</p>\n  \n<dl><dt>-x</dt><dd>intro <p>more</p></dd></dl>\n",
    ));
    let blocks = first_blocks(&doc);
    assert_eq!(blocks.len(), 3);
    assert!(same_spans(
        &para_spans(&blocks[0]),
        &[Span::Bold("ls".to_string()), text(" ["), Span::Italic("OPTION".to_string()), text("]..."), text(" ")]
    ));
    assert!(same_spans(&para_spans(&blocks[1]), &[text("next")]));
    match &blocks[2] {
        Block::DefList(items) => {
            assert_eq!(items[0].body.len(), 2);
            assert!(same_spans(&para_spans(&items[0].body[0]), &[text("intro ")]));
            assert!(same_spans(&para_spans(&items[0].body[1]), &[text("more")]));
        }
        other => panic!("expected a definition list, got {other:?}"),
    }
}

#[test]
fn spans_compare_by_style_and_text() {
    let link = |t: &str| Span::Link { text: t.to_string(), name: "ls".to_string(), section: "1".to_string() };
    assert_eq!(Span::Bold("-a".to_string()), Span::Bold("-a".to_string()));
    assert_ne!(Span::Bold("-a".to_string()), Span::Text("-a".to_string()));
    assert_ne!(Span::Code("x".to_string()), Span::Code("y".to_string()));
    assert_eq!(link("ls(1)"), link("ls(1)"));
    assert_ne!(link("ls(1)"), link("ls (1)"));
}

#[test]
fn documents_copy_and_start_empty() {
    let d = Document::default();
    assert!(d.title.is_empty() && d.volume.is_empty() && d.sections.is_empty());
    let s = Section::default();
    assert!(s.id.is_empty() && s.heading.is_empty() && s.blocks.is_empty());
    let b = Block::DefList(vec![DefItem {
        term: vec![Span::Bold("-a".to_string())],
        body: vec![Block::Indent(vec![Block::List(vec![vec![Span::Text("one".to_string())]])])],
    }]);
    match b.clone() {
        Block::DefList(items) => {
            assert_eq!(items[0].term, vec![Span::Bold("-a".to_string())]);
            match &items[0].body[0] {
                Block::Indent(inner) => match &inner[0] {
                    Block::List(l) => assert_eq!(l[0], vec![Span::Text("one".to_string())]),
                    other => panic!("unexpected {other:?}"),
                },
                other => panic!("unexpected {other:?}"),
            }
        }
        other => panic!("unexpected {other:?}"),
    }
}
