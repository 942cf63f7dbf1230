use manview::document::{Block, DefItem, Document, Section, Span};
use manview::lines::{build_lines, Style, Word};
use manview::pager::{Action, Key, PageState, Pager};
use manview::screen::{look, pad_or_trim, status_line, word_style, Shade};
use manview::wrap::{wrap_all, wrap_words};

fn text(s: &str) -> Span {
    Span::Text(s.to_string())
}

fn link(t: &str, n: &str, s: &str) -> Span {
    Span::Link { text: t.to_string(), name: n.to_string(), section: s.to_string() }
}

fn word(t: &str) -> Word {
    Word { text: t.to_string(), style: Style::Plain, link: None }
}

fn sample_doc() -> Document {
    Document {
        title: "LS(1)".to_string(),
        volume: "User Commands".to_string(),
        sections: vec![
            Section {
                id: "NAME".to_string(),
                heading: "NAME".to_string(),
                blocks: vec![Block::Paragraph(vec![text("ls - list directory contents")])],
            },
            Section {
                id: "SEE".to_string(),
                heading: "SEE ALSO".to_string(),
                blocks: vec![
                    Block::Paragraph(vec![link("dircolors(1)", "dircolors", "1"), text(", "), link("stat(2)", "stat", "2")]),
                    Block::DefList(vec![DefItem {
                        term: vec![Span::Bold("-a,".to_string()), text(" --all")],
                        body: vec![Block::Paragraph(vec![text("show all")])],
                    }]),
                    Block::List(vec![vec![text("one")], vec![text("two")]]),
                ],
            },
        ],
    }
}

fn words_of(ws: &[Word]) -> Vec<String> {
    ws.iter().map(|w| w.text.clone()).collect()
}

#[test]
fn lines_of_a_page() {
    let doc = sample_doc();
    let (lines, links) = build_lines(&doc);
    let shape: Vec<(usize, Vec<String>, bool)> =
        lines.iter().map(|l| (l.indent, words_of(&l.words), l.spacer_after)).collect();
    let s = |v: &[&str]| v.iter().map(|x| x.to_string()).collect::<Vec<_>>();
    assert_eq!(
        shape,
        vec![
            (0, s(&["LS(1)", "User Commands"]), true),
            (0, s(&["NAME"]), false),
            (1, s(&["ls", "-", "list", "directory", "contents"]), true),
            (0, s(&[]), false),
            (0, s(&["SEE ALSO"]), false),
            (1, s(&["dircolors(1)", ",", "stat(2)"]), true),
            (1, s(&["-a,", "--all"]), false),
            (2, s(&["show", "all"]), true),
            (1, s(&["\u{2022}", "one"]), false),
            (1, s(&["\u{2022}", "two"]), true),
            (0, s(&[]), false),
        ]
    );
    assert_eq!(lines[0].words[0].style, Style::Title);
    assert_eq!(lines[0].words[1].style, Style::Dim);
    assert_eq!(lines[1].words[0].style, Style::Heading);
    assert_eq!(lines[5].words[0].link, Some(0));
    assert_eq!(lines[5].words[0].style, Style::Link);
    assert_eq!(lines[5].words[1].link, None);
    assert_eq!(lines[5].words[2].link, Some(1));
    assert_eq!(lines[6].words[0].style, Style::Term);
    assert_eq!(lines[6].words[1].style, Style::Term);
    assert_eq!(links.len(), 2);
    assert_eq!(links[0].name, "dircolors");
    assert_eq!(links[0].section, "1");
    assert_eq!(links[1].name, "stat");
    assert_eq!(links[1].section, "2");
}

#[test]
fn header_without_volume() {
    let doc = Document { title: "X(7)".to_string(), volume: String::new(), sections: vec![] };
    let (lines, links) = build_lines(&doc);
    assert_eq!(lines.len(), 1);
    assert_eq!(words_of(&lines[0].words), vec!["X(7)".to_string()]);
    assert!(links.is_empty());
}

#[test]
fn greedy_wrap() {
    let ws: Vec<Word> = ["aaa", "bb", "c", "dddddddddddd", "e"].iter().map(|t| word(t)).collect();
    let rows = wrap_words(&ws, 6);
    let rows: Vec<Vec<String>> = rows.iter().map(|r| words_of(r)).collect();
    assert_eq!(
        rows,
        vec![
            vec!["aaa".to_string(), "bb".to_string()],
            vec!["c".to_string()],
            vec!["dddddddddddd".to_string()],
            vec!["e".to_string()],
        ]
    );
    let none = wrap_words(&Vec::new(), 6);
    assert_eq!(none.len(), 1);
    assert!(none[0].is_empty());
}

#[test]
fn wrap_counts_characters_not_bytes() {
    let ws: Vec<Word> = ["\u{e9}\u{e9}\u{e9}\u{e9}", "\u{e9}"].iter().map(|t| word(t)).collect();
    let rows = wrap_words(&ws, 6);
    assert_eq!(rows.len(), 1);
}

#[test]
fn wrap_all_rows_and_link_rows() {
    let (lines, _) = build_lines(&sample_doc());
    let (rows, link_rows) = wrap_all(&lines, 14);
    let shape: Vec<(usize, Vec<String>)> = rows.iter().map(|r| (r.indent, words_of(&r.words))).collect();
    let s = |v: &[&str]| v.iter().map(|x| x.to_string()).collect::<Vec<_>>();
    assert_eq!(
        shape,
        vec![
            (0, s(&["LS(1)"])),
            (0, s(&["User Commands"])),
            (0, s(&[])),
            (0, s(&["NAME"])),
            (1, s(&["ls", "-", "list"])),
            (1, s(&["directory"])),
            (1, s(&["contents"])),
            (0, s(&[])),
            (0, s(&[])),
            (0, s(&["SEE ALSO"])),
            (1, s(&["dircolors(1)"])),
            (1, s(&[",", "stat(2)"])),
            (0, s(&[])),
            (1, s(&["-a,", "--all"])),
            (2, s(&["show", "all"])),
            (0, s(&[])),
            (1, s(&["\u{2022}", "one"])),
            (1, s(&["\u{2022}", "two"])),
            (0, s(&[])),
            (0, s(&[])),
        ]
    );
    assert_eq!(link_rows.len(), 2);
    assert_eq!(link_rows.get(&0), Some(&10));
    assert_eq!(link_rows.get(&1), Some(&11));
}

fn open_sample(cols: u16) -> PageState {
    PageState::from_document("ls".to_string(), Some("1".to_string()), &sample_doc(), cols)
}

#[test]
fn fresh_page_state() {
    let p = open_sample(80);
    assert_eq!(p.title_bar, "LS(1)");
    assert_eq!(p.scroll, 0);
    assert_eq!(p.current_link, None);
    assert!(!p.search_active);
    assert!(p.matches.is_empty());
    assert_eq!(p.visual.len(), 16);
}

#[test]
fn tab_cycles_links_and_backtab_returns() {
    let mut pager = Pager::new(open_sample(80));
    assert!(matches!(pager.handle_key(Key::Tab, 10), Action::Stay));
    assert_eq!(pager.page.current_link, Some(0));
    pager.handle_key(Key::Tab, 10);
    assert_eq!(pager.page.current_link, Some(1));
    pager.handle_key(Key::Tab, 10);
    assert_eq!(pager.page.current_link, Some(0));
    pager.handle_key(Key::BackTab, 10);
    assert_eq!(pager.page.current_link, Some(1));
    pager.handle_key(Key::Tab, 10);
    assert_eq!(pager.page.current_link, Some(0));
    let mut fresh = Pager::new(open_sample(80));
    fresh.handle_key(Key::BackTab, 10);
    assert_eq!(fresh.page.current_link, Some(1));
}

#[test]
fn tab_scrolls_to_the_links_row() {
    let mut pager = Pager::new(open_sample(80));
    pager.handle_key(Key::Tab, 5);
    assert_eq!(pager.page.current_link, Some(0));
    assert_eq!(pager.page.scroll, 5);
}

#[test]
fn follow_then_back() {
    let mut pager = Pager::new(open_sample(80));
    pager.handle_key(Key::Char('j'), 5);
    assert_eq!(pager.page.scroll, 1);
    assert!(matches!(pager.handle_key(Key::Enter, 5), Action::Stay));
    pager.handle_key(Key::Tab, 5);
    pager.handle_key(Key::Tab, 5);
    let scroll_before = pager.page.scroll;
    match pager.handle_key(Key::Enter, 5) {
        Action::Open { name, section } => {
            assert_eq!(name, "stat");
            assert_eq!(section, "2");
        }
        other => panic!("expected to open a page, got {other:?}"),
    }
    let target = PageState::from_document("stat".to_string(), Some("2".to_string()), &sample_doc(), 80);
    pager.opened(target);
    assert_eq!(pager.page.name, "stat");
    assert_eq!(pager.history.len(), 1);
    match pager.handle_key(Key::Char('b'), 5) {
        Action::Reopen { name, section, scroll } => {
            assert_eq!(name, "ls");
            assert_eq!(section, Some("1".to_string()));
            assert_eq!(scroll, scroll_before);
            pager.reopened(open_sample(80), scroll, 5);
        }
        other => panic!("expected to go back, got {other:?}"),
    }
    assert!(pager.history.is_empty());
    assert_eq!(pager.page.name, "ls");
    assert_eq!(pager.page.scroll, scroll_before);
    assert!(matches!(pager.handle_key(Key::Backspace, 5), Action::Stay));
}

#[test]
fn reopened_scroll_is_clamped() {
    let mut pager = Pager::new(open_sample(80));
    pager.reopened(open_sample(80), 1000, 5);
    assert_eq!(pager.page.scroll, 12);
}

#[test]
fn scrolling_keys() {
    let mut pager = Pager::new(open_sample(80));
    let steps = [
        (Key::Char('G'), 12),
        (Key::Down, 12),
        (Key::PageUp, 9),
        (Key::Char('k'), 8),
        (Key::Char(' '), 11),
        (Key::PageDown, 12),
        (Key::Home, 0),
        (Key::Up, 0),
        (Key::End, 12),
        (Key::Char('g'), 0),
        (Key::Char('j'), 1),
    ];
    for (key, scroll) in steps {
        assert!(matches!(pager.handle_key(key, 5), Action::Stay));
        assert_eq!(pager.page.scroll, scroll, "after {key:?}");
    }
    assert!(matches!(pager.handle_key(Key::Char('q'), 5), Action::Quit));
    assert!(matches!(pager.handle_key(Key::Esc, 5), Action::Quit));
    assert!(matches!(pager.handle_key(Key::Other, 5), Action::Stay));
}

#[test]
fn in_page_search() {
    let mut pager = Pager::new(open_sample(80));
    pager.handle_key(Key::Char('/'), 5);
    assert!(pager.page.search_active);
    for c in "ALL".chars() {
        pager.handle_key(Key::Char(c), 5);
    }
    assert_eq!(pager.page.search_query, "ALL");
    assert_eq!(pager.page.matches, vec![(9, 1), (10, 1)]);
    assert_eq!(pager.page.current_match, None);
    pager.handle_key(Key::Backspace, 5);
    assert_eq!(pager.page.search_query, "AL");
    pager.handle_key(Key::Char('L'), 5);
    assert!(matches!(pager.handle_key(Key::Char('q'), 5), Action::Stay));
    assert_eq!(pager.page.search_query, "ALLq");
    assert!(pager.page.matches.is_empty());
    pager.handle_key(Key::Backspace, 5);
    pager.handle_key(Key::Enter, 5);
    assert!(!pager.page.search_active);
    assert_eq!(pager.page.current_match, Some(0));
    assert_eq!(pager.page.scroll, 7);
    pager.handle_key(Key::Char('n'), 5);
    assert_eq!(pager.page.current_match, Some(1));
    pager.handle_key(Key::Char('n'), 5);
    assert_eq!(pager.page.current_match, Some(0));
    pager.handle_key(Key::Char('N'), 5);
    assert_eq!(pager.page.current_match, Some(1));
    let status = status_line(&pager.page, 60);
    assert_eq!(status.chars().count(), 60);
    assert!(status.starts_with(" LS(1)  \u{2014}  \"ALL\" match 2/2 \u{b7} n/N"));
    pager.handle_key(Key::Char('/'), 5);
    pager.handle_key(Key::Esc, 5);
    assert!(!pager.page.search_active);
    assert!(pager.page.search_query.is_empty());
    assert!(pager.page.matches.is_empty());
    assert_eq!(pager.page.current_match, None);
}

#[test]
fn status_line_variants() {
    let mut p = open_sample(80);
    assert_eq!(
        status_line(&p, 100),
        format!(
            "{:<100}",
            " LS(1)  \u{2014}  q quit \u{b7} j/k scroll \u{b7} Tab links \u{b7} Enter follow \u{b7} b back \u{b7} / search "
        )
    );
    p.search_active = true;
    p.search_query = "ab".to_string();
    assert_eq!(status_line(&p, 5), " /ab ");
    assert_eq!(status_line(&p, 2), " /");
    p.search_active = false;
    assert!(status_line(&p, 100).contains("\"ab\" match 0/0 "));
    let empty = PageState::from_document(
        "e".to_string(),
        None,
        &Document { title: "E(1)".to_string(), volume: String::new(), sections: vec![] },
        80,
    );
    assert!(status_line(&empty, 100).contains("g/G top/bottom"));
}

#[test]
fn resize_rewraps_and_keeps_scroll_in_rows() {
    let mut pager = Pager::new(open_sample(80));
    pager.handle_key(Key::Char('G'), 2);
    assert_eq!(pager.page.scroll, 15);
    pager.resized(14);
    assert_eq!(pager.page.visual.len(), 20);
    assert_eq!(pager.page.scroll, 15);
    let mut small = Pager::new(open_sample(14));
    small.handle_key(Key::Char('G'), 2);
    assert_eq!(small.page.scroll, 19);
    small.resized(80);
    assert_eq!(small.page.scroll, 15);
}

#[test]
fn word_styles_on_screen() {
    let mut pager = Pager::new(open_sample(80));
    assert_eq!(word_style(&pager.page, 0, 0), Style::Title);
    assert_eq!(word_style(&pager.page, 7, 0), Style::Link);
    pager.handle_key(Key::Tab, 40);
    assert_eq!(word_style(&pager.page, 7, 0), Style::LinkSelected);
    assert_eq!(word_style(&pager.page, 7, 2), Style::Link);
    pager.handle_key(Key::Char('/'), 40);
    pager.handle_key(Key::Char('s'), 40);
    pager.handle_key(Key::Char('t'), 40);
    pager.handle_key(Key::Enter, 40);
    assert_eq!(pager.page.matches, vec![(3, 2), (7, 2)]);
    assert_eq!(word_style(&pager.page, 3, 2), Style::MatchCurrent);
    assert_eq!(word_style(&pager.page, 7, 2), Style::Match);
    assert_eq!(word_style(&pager.page, 0, 0), Style::Title);
}

#[test]
fn looks_of_styles() {
    let l = look(Style::LinkSelected);
    assert_eq!(l.fg, Some(Shade::Black));
    assert_eq!(l.bg, Some(Shade::Blue));
    assert!(l.bold);
    let p = look(Style::Plain);
    assert_eq!(p.fg, None);
    assert!(!p.bold && !p.italic && !p.underlined);
    assert!(look(Style::Link).underlined);
    assert!(look(Style::Italic).italic);
}

#[test]
fn pad_or_trim_counts_characters() {
    assert_eq!(pad_or_trim("abc", 5), "abc  ");
    assert_eq!(pad_or_trim("ab\u{e9}cd", 3), "ab\u{e9}");
    assert_eq!(pad_or_trim("", 0), "");
}

#[test]
fn narrow_terminal_wraps_to_ten_columns() {
    let doc = Document {
        title: "aaaa bbbb".to_string(),
        volume: String::new(),
        sections: vec![Section {
            id: String::new(),
            heading: "H".to_string(),
            blocks: vec![Block::Indent(vec![Block::Paragraph(vec![text("cccc dddd eeee")])])],
        }],
    };
    let (lines, _) = build_lines(&doc);
    let (rows, _) = wrap_all(&lines, 3);
    let shape: Vec<(usize, Vec<String>)> = rows.iter().map(|r| (r.indent, words_of(&r.words))).collect();
    let s = |v: &[&str]| v.iter().map(|x| x.to_string()).collect::<Vec<_>>();
    assert_eq!(
        shape,
        vec![
            (0, s(&["aaaa bbbb"])),
            (0, s(&[])),
            (0, s(&["H"])),
            (2, s(&["cccc", "dddd"])),
            (2, s(&["eeee"])),
            (0, s(&[])),
            (0, s(&[])),
        ]
    );
}

#[test]
fn jumping_to_a_match_scrolls_it_into_view() {
    let mut p = open_sample(80);
    p.scroll = 12;
    p.search_query = "ls".to_string();
    p.recompute_matches(true, 4);
    assert_eq!(p.matches, vec![(0, 0), (3, 0), (6, 0)]);
    assert_eq!(p.current_match, Some(0));
    assert_eq!(p.scroll, 0);
    p.scroll = 2;
    p.recompute_matches(true, 4);
    assert_eq!(p.current_match, Some(1));
    assert_eq!(p.scroll, 2);
    p.scroll = 9;
    p.recompute_matches(false, 4);
    assert_eq!(p.current_match, Some(1));
    assert_eq!(p.scroll, 9);
}

#[test]
fn current_match_follows_its_word() {
    let mut pager = Pager::new(open_sample(80));
    for k in [Key::Char('/'), Key::Char('a'), Key::Char('l'), Key::Enter] {
        pager.handle_key(k, 40);
    }
    assert_eq!(pager.page.matches, vec![(6, 0), (9, 1), (10, 1)]);
    assert_eq!(pager.page.current_match, Some(0));
    pager.handle_key(Key::Char('n'), 40);
    assert_eq!(pager.page.current_match, Some(1));
    pager.handle_key(Key::Char('/'), 40);
    pager.handle_key(Key::Char('a'), 40);
    assert_eq!(pager.page.matches, vec![(0, 1), (2, 0), (6, 0), (7, 2), (9, 0), (9, 1), (10, 1)]);
    assert_eq!(pager.page.current_match, Some(5));
    pager.handle_key(Key::Char('l'), 40);
    pager.handle_key(Key::Char('l'), 40);
    assert_eq!(pager.page.matches, vec![(9, 1), (10, 1)]);
    assert_eq!(pager.page.current_match, Some(0));
    pager.handle_key(Key::Char('x'), 40);
    assert!(pager.page.matches.is_empty());
    assert_eq!(pager.page.current_match, None);
}
