use manview::document::{Block, Span};
use manview::indexer::{chunk_evenly, first_paragraph_text, plain_text, truncate};
use manview::text::{collapse, normalize_ws};

#[test]
fn truncate_to_a_hundred_characters() {
    let long: String = std::iter::repeat('\u{e9}').take(101).collect();
    let t = truncate(&long, 100);
    assert_eq!(t.chars().count(), 101);
    assert!(t.ends_with('\u{2026}'));
    assert!(t.starts_with(&long[..200]));
    let exact: String = std::iter::repeat('x').take(100).collect();
    assert_eq!(truncate(&exact, 100), exact);
    assert_eq!(truncate("", 0), "");
    assert_eq!(truncate("ab", 0), "\u{2026}");
}

#[test]
fn description_is_first_non_empty_paragraph() {
    let blocks = vec![
        Block::List(vec![vec![Span::Text("not this".to_string())]]),
        Block::Paragraph(vec![]),
        Block::Paragraph(vec![Span::Bold("use ".to_string()), Span::Text("this".to_string())]),
        Block::Paragraph(vec![Span::Text("later".to_string())]),
    ];
    assert_eq!(first_paragraph_text(&blocks), "use this");
    assert_eq!(first_paragraph_text(&vec![]), "");
    let long: String = std::iter::repeat('a').take(150).collect();
    let blocks = vec![Block::Paragraph(vec![Span::Text(long)])];
    let d = first_paragraph_text(&blocks);
    assert_eq!(d.chars().count(), 101);
}

#[test]
fn plain_text_joins_spans() {
    let spans = vec![
        Span::Text("a ".to_string()),
        Span::Italic("b".to_string()),
        Span::Link { text: "c(1)".to_string(), name: "c".to_string(), section: "1".to_string() },
    ];
    assert_eq!(plain_text(&spans), "a bc(1)");
}

#[test]
fn chunks_are_even_and_in_order() {
    let items: Vec<u32> = (1..=5).collect();
    assert_eq!(chunk_evenly(&items, 2), vec![vec![1, 2, 3], vec![4, 5]]);
    assert_eq!(chunk_evenly(&items, 3), vec![vec![1, 2], vec![3, 4], vec![5]]);
    assert_eq!(chunk_evenly(&items, 10), vec![vec![1], vec![2], vec![3], vec![4], vec![5]]);
    assert_eq!(chunk_evenly(&items, 0), vec![items.clone()]);
    let none: Vec<u32> = Vec::new();
    assert_eq!(chunk_evenly(&none, 4), vec![Vec::<u32>::new()]);
}

#[test]
fn whitespace_normalization() {
    assert_eq!(collapse("  a \t b\n\nc  "), "a b c");
    assert_eq!(collapse(" \n "), "");
    assert_eq!(normalize_ws("  a   b  "), " a b ");
    assert_eq!(normalize_ws("a  b"), "a b");
    assert_eq!(normalize_ws("\n"), " ");
    assert_eq!(normalize_ws(""), "");
    assert_eq!(normalize_ws("\u{a0}x"), " x");
}
