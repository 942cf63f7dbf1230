//! The pager's state for one page: its lines, rows on screen, links,
//! in-page search and scroll position, and what each key does to it.
use vstd::prelude::*;
use std::collections::HashMap;
use crate::document::{Document, DocumentM};
use crate::lines::{
    LogicalLine, LinkEntry, LinkV, LinesState, Word, WordV, build_lines, page_lines,
    lines_view, links_view,
};
use crate::wrap::{
    VisualLine, RowV, rows_view, visual_rows, first_link_rows, row_links_to, wrap_all, link_row_map,
};
use crate::text::{chars_of, contains_chars, has_sub, lowercase, to_lowercase, string_of, push_char};

verus! {

/// Everything needed to show one man page: its flattened content, its
/// link table, the in-page search and the scroll position.
pub struct PageState {
    pub name: String,
    pub section: Option<String>,
    pub title_bar: String,
    pub logical: Vec<LogicalLine>,
    pub links: Vec<LinkEntry>,
    pub visual: Vec<VisualLine>,
    /// The first row on which each link shows.
    pub link_rows: HashMap<usize, usize>,
    pub scroll: usize,
    pub current_link: Option<usize>,
    /// Whether a search query is being typed.
    pub search_active: bool,
    pub search_query: String,
    /// (row, word on the row) of every match.
    pub matches: Vec<(usize, usize)>,
    pub current_match: Option<usize>,
}

/// The matches of a query among the words of a row, in order.
pub open spec fn row_hits(row: int, ws: Seq<WordV>, q: Seq<char>) -> Seq<(usize, usize)>
    decreases ws.len(),
{
    if ws.len() == 0 {
        Seq::empty()
    } else {
        row_hits(row, ws.drop_last(), q) + if has_sub(lowercase(ws.last().text), q) {
            seq![(row as usize, (ws.len() - 1) as usize)]
        } else {
            Seq::empty()
        }
    }
}

/// The matches of a (lowercased) query over rows, row by row: each word
/// whose lowercase form contains it.
pub open spec fn hits(rows: Seq<RowV>, q: Seq<char>) -> Seq<(usize, usize)>
    decreases rows.len(),
{
    if rows.len() == 0 {
        Seq::empty()
    } else {
        hits(rows.drop_last(), q) + row_hits(rows.len() - 1, rows.last().words, q)
    }
}

/// The matches of a search query: none for an empty query, else the
/// case-insensitive hits.
pub open spec fn matches_of(rows: Seq<RowV>, query: Seq<char>) -> Seq<(usize, usize)> {
    if lowercase(query).len() == 0 {
        Seq::empty()
    } else {
        hits(rows, lowercase(query))
    }
}

/// Where a jump to the nearest match lands: the first match on or after
/// the scroll row, else the first match, else none.
pub open spec fn jump_target(ms: Seq<(usize, usize)>, scroll: int) -> Option<usize> {
    if exists|k: int| 0 <= k < ms.len() && ms[k].0 >= scroll {
        Some(
            (choose|k: int|
                0 <= k < ms.len() && ms[k].0 >= scroll && forall|j: int|
                    0 <= j < k ==> ms[j].0 < scroll) as usize,
        )
    } else if ms.len() > 0 {
        Some(0)
    } else {
        None
    }
}

/// The match a jump lands on (see `jump_target`).
fn jump_to(ms: &Vec<(usize, usize)>, scroll: usize) -> (r: Option<usize>)
    ensures
        r == jump_target(ms@, scroll as int),
        r matches Some(k) ==> k < ms.len(),
{
    let mut k: usize = 0;
    while k < ms.len()
        invariant
            k <= ms.len(),
            forall|j: int| 0 <= j < k ==> ms@[j].0 < scroll,
        decreases ms.len() - k,
    {
        if ms[k].0 >= scroll {
            proof {
                let p = |i: int|
                    0 <= i < ms@.len() && ms@[i].0 >= scroll && forall|j: int|
                        0 <= j < i ==> ms@[j].0 < scroll;
                assert(p(k as int));
                let c = choose|i: int|
                    0 <= i < ms@.len() && ms@[i].0 >= scroll && forall|j: int|
                        0 <= j < i ==> ms@[j].0 < scroll;
                assert(c == k) by {
                    if c < k {
                        assert(ms@[c].0 < scroll);
                    }
                    if k < c {
                        assert(ms@[k as int].0 < scroll);
                    }
                }
            }
            return Some(k);
        }
        k = k + 1;
    }
    if ms.len() > 0 {
        Some(0)
    } else {
        None
    }
}

/// Where a match position first occurs in a list of matches.
pub open spec fn position_of(ms: Seq<(usize, usize)>, x: (usize, usize)) -> Option<usize> {
    if exists|k: int| 0 <= k < ms.len() && ms[k] == x {
        Some(
            (choose|k: int|
                0 <= k < ms.len() && ms[k] == x && forall|j: int| 0 <= j < k ==> ms[j] != x) as usize,
        )
    } else {
        None
    }
}

/// Where a match position occurs in a list of matches (see `position_of`).
fn position_exec(ms: &Vec<(usize, usize)>, x: (usize, usize)) -> (r: Option<usize>)
    ensures
        r == position_of(ms@, x),
        r matches Some(k) ==> k < ms.len(),
{
    let mut k: usize = 0;
    while k < ms.len()
        invariant
            k <= ms.len(),
            forall|j: int| 0 <= j < k ==> ms@[j] != x,
        decreases ms.len() - k,
    {
        if ms[k].0 == x.0 && ms[k].1 == x.1 {
            proof {
                assert(ms@[k as int] == x);
                let c = choose|i: int|
                    0 <= i < ms@.len() && ms@[i] == x && forall|j: int| 0 <= j < i ==> ms@[j] != x;
                assert(c == k) by {
                    if c < k {
                        assert(ms@[c] != x);
                    }
                    if k < c {
                        assert(ms@[k as int] != x);
                    }
                }
            }
            return Some(k);
        }
        k = k + 1;
    }
    None
}

impl PageState {
    /// Indices held by the page point into its tables, and the link row
    /// table is that of its rows.
    pub open spec fn wf(&self) -> bool {
        &&& (self.current_link matches Some(i) ==> i < self.links.len())
        &&& (self.current_match matches Some(i) ==> i < self.matches.len())
        &&& first_link_rows(self.link_rows@, rows_view(self.visual@))
    }

    /// The state of a freshly opened page, at the top, with no link
    /// selected and no search.
    pub fn from_document(name: String, section: Option<String>, doc: &Document, cols: u16) -> (r:
        PageState)
        ensures
            r.wf(),
            r.name@ == name@,
            r.section == section,
            r.title_bar@ == doc@.title,
            (LinesState { lines: lines_view(r.logical@), links: links_view(r.links@) })
                == page_lines(doc@),
            rows_view(r.visual@) == visual_rows(lines_view(r.logical@), cols as int),
            r.scroll == 0,
            r.current_link is None,
            !r.search_active,
            r.search_query@.len() == 0,
            r.matches@.len() == 0,
            r.current_match is None,
    {
        let title_bar = doc.title.clone();
        let (logical, links) = build_lines(doc);
        let (visual, link_rows) = wrap_all(&logical, cols);
        PageState {
            name,
            section,
            title_bar,
            logical,
            links,
            visual,
            link_rows,
            scroll: 0,
            current_link: None,
            search_active: false,
            search_query: String::new(),
            matches: Vec::new(),
            current_match: None,
        }
    }

    /// Finds the matches of the search query over the rows. With `jump`,
    /// the current match becomes the nearest one at or after the scroll
    /// row (else the first); without, it keeps pointing at the same word
    /// while that word still matches.
    fn find_matches(&mut self, jump: bool)
        requires
            old(self).wf(),
        ensures
            final(self).wf(),
            final(self).matches@ == matches_of(rows_view(old(self).visual@), old(self).search_query@),
            jump ==> final(self).current_match == jump_target(
                final(self).matches@,
                old(self).scroll as int,
            ),
            !jump ==> final(self).current_match == kept_match(
                old(self).current_match,
                old(self).matches@,
                final(self).matches@,
            ),
            final(self).name == old(self).name,
            final(self).section == old(self).section,
            final(self).title_bar == old(self).title_bar,
            final(self).logical == old(self).logical,
            final(self).links == old(self).links,
            final(self).visual == old(self).visual,
            final(self).link_rows == old(self).link_rows,
            final(self).scroll == old(self).scroll,
            final(self).current_link == old(self).current_link,
            final(self).search_active == old(self).search_active,
            final(self).search_query == old(self).search_query,
    {
        let old_pos = match self.current_match {
            Some(idx) => if idx < self.matches.len() {
                Some(self.matches[idx])
            } else {
                None
            },
            None => None,
        };
        let ghost old_ms = self.matches@;
        let query = to_lowercase(self.search_query.as_str());
        let q = chars_of(query.as_str());
        let ghost rows = rows_view(self.visual@);
        let mut ms: Vec<(usize, usize)> = Vec::new();
        if q.len() > 0 {
            let mut row: usize = 0;
            assert(rows.take(0) =~= Seq::<RowV>::empty());
            while row < self.visual.len()
                invariant
                    row <= self.visual.len(),
                    rows == rows_view(self.visual@),
                    q@ == lowercase(self.search_query@),
                    ms@ == hits(rows.take(row as int), q@),
                decreases self.visual.len() - row,
            {
                let words = &self.visual[row].words;
                let ghost ws = rows[row as int].words;
                assert(ws == crate::lines::words_view(words@));
                assert(rows.take(row + 1).drop_last() =~= rows.take(row as int));
                let ghost base = ms@;
                let mut col: usize = 0;
                assert(ws.take(0) =~= Seq::<WordV>::empty());
                assert(base + row_hits(row as int, ws.take(0), q@) =~= base);
                while col < words.len()
                    invariant
                        col <= words.len(),
                        ws == crate::lines::words_view(words@),
                        ms@ == base + row_hits(row as int, ws.take(col as int), q@),
                    decreases words.len() - col,
                {
                    let lw = to_lowercase(words[col].text.as_str());
                    let lc = chars_of(lw.as_str());
                    assert(ws.take(col + 1).drop_last() =~= ws.take(col as int));
                    assert(ws[col as int] == words@[col as int]@);
                    let ghost before = ms@;
                    if contains_chars(&lc, &q) {
                        ms.push((row, col));
                        assert(ms@ =~= base + row_hits(row as int, ws.take(col + 1), q@));
                    } else {
                        assert(ms@ =~= base + row_hits(row as int, ws.take(col + 1), q@));
                    }
                    col = col + 1;
                }
                assert(ws.take(words.len() as int) =~= ws);
                row = row + 1;
            }
            assert(rows.take(self.visual.len() as int) =~= rows);
        } else {
            assert(ms@ =~= matches_of(rows, self.search_query@));
        }
        self.matches = ms;
        if jump {
            self.current_match = jump_to(&self.matches, self.scroll);
        } else {
            self.current_match = match old_pos {
                Some(x) => position_exec(&self.matches, x),
                None => None,
            };
        }
    }
}

/// What the pager shows of a page, as values.
pub struct PageV {
    pub name: Seq<char>,
    pub section: Option<Seq<char>>,
    pub title_bar: Seq<char>,
    pub lines: Seq<crate::lines::LineV>,
    pub links: Seq<LinkV>,
    pub rows: Seq<RowV>,
    pub link_rows: Map<usize, usize>,
    pub scroll: int,
    pub current_link: Option<usize>,
    pub search_active: bool,
    pub query: Seq<char>,
    pub matches: Seq<(usize, usize)>,
    pub current_match: Option<usize>,
}

pub open spec fn opt_str_view(o: Option<String>) -> Option<Seq<char>> {
    match o {
        Some(s) => Some(s@),
        None => None,
    }
}

impl View for PageState {
    type V = PageV;

    open spec fn view(&self) -> PageV {
        PageV {
            name: self.name@,
            section: opt_str_view(self.section),
            title_bar: self.title_bar@,
            lines: lines_view(self.logical@),
            links: links_view(self.links@),
            rows: rows_view(self.visual@),
            link_rows: self.link_rows@,
            scroll: self.scroll as int,
            current_link: self.current_link,
            search_active: self.search_active,
            query: self.search_query@,
            matches: self.matches@,
            current_match: self.current_match,
        }
    }
}

pub open spec fn sat_sub(a: int, b: int) -> int {
    if a >= b {
        a - b
    } else {
        0
    }
}

pub open spec fn min_int(a: int, b: int) -> int {
    if a <= b {
        a
    } else {
        b
    }
}

/// Rows of text on a screen of `rows` rows: all but the status line.
pub open spec fn content_rows(rows: int) -> int {
    sat_sub(rows, 1)
}

/// How far a page up or down moves.
pub open spec fn page_amount(rows: int) -> int {
    sat_sub(rows, 2)
}

/// The furthest the view scrolls: the last screenful.
pub open spec fn max_scroll(p: PageV, content: int) -> int {
    sat_sub(p.rows.len() as int, content)
}

/// The page scrolled so that a row is in view: when it is not, it is
/// put in the middle where the page allows.
pub open spec fn scrolled_to(p: PageV, row: int, content: int) -> PageV {
    if row < p.scroll || row >= p.scroll + content {
        PageV { scroll: min_int(sat_sub(row, content / 2), max_scroll(p, content)), ..p }
    } else {
        p
    }
}

impl PageState {
    /// Scrolls so the given row is in view, centering it when possible.
    pub fn scroll_to_row(&mut self, row: usize, content_rows: usize)
        requires
            old(self).wf(),
        ensures
            final(self).wf(),
            final(self)@ == scrolled_to(old(self)@, row as int, content_rows as int),
    {
        let max = if self.visual.len() >= content_rows {
            self.visual.len() - content_rows
        } else {
            0
        };
        let outside = if row < self.scroll {
            true
        } else {
            row - self.scroll >= content_rows
        };
        if outside {
            let half = content_rows / 2;
            let up = if row >= half {
                row - half
            } else {
                0
            };
            self.scroll = if up <= max {
                up
            } else {
                max
            };
        }
    }
}

/// The current match, kept pointing at the same (row, word) among the
/// new matches while that is still a match, else cleared.
pub open spec fn kept_match(
    cur: Option<usize>,
    old_ms: Seq<(usize, usize)>,
    new_ms: Seq<(usize, usize)>,
) -> Option<usize> {
    match cur {
        Some(i) => if i < old_ms.len() {
            position_of(new_ms, old_ms[i as int])
        } else {
            None
        },
        None => None,
    }
}

/// The page with its matches recomputed for its query: with `jump`, the
/// current match becomes the nearest one at or after the scroll row (else
/// the first) and is scrolled into view on a screen of `content` rows;
/// without, the current match keeps pointing at the same word while that
/// word still matches, and is cleared otherwise.
pub open spec fn with_matches(p: PageV, jump: bool, content: int) -> PageV {
    let ms = matches_of(p.rows, p.query);
    let q = PageV {
        matches: ms,
        current_match: if jump {
            jump_target(ms, p.scroll)
        } else {
            kept_match(p.current_match, p.matches, ms)
        },
        ..p
    };
    match q.current_match {
        Some(i) => if jump {
            scrolled_to(q, ms[i as int].0 as int, content)
        } else {
            q
        },
        None => q,
    }
}

/// The page wrapped anew to a terminal width: the scroll row is kept
/// within the rows, and the matches of a query are recomputed.
pub open spec fn rewrapped(p: PageV, cols: int) -> PageV {
    let rows = visual_rows(p.lines, cols);
    let q = PageV {
        rows,
        link_rows: link_row_map(rows),
        scroll: min_int(p.scroll, sat_sub(rows.len() as int, 1)),
        ..p
    };
    if p.query.len() > 0 {
        with_matches(q, false, 0)
    } else {
        q
    }
}

/// A text without its last character, if it has one.
pub open spec fn drop_last_char(s: Seq<char>) -> Seq<char> {
    if s.len() > 0 {
        s.drop_last()
    } else {
        s
    }
}

/// A key, as the pager tells keys apart.
#[derive(Clone, Copy, PartialEq, Eq, Structural, Debug)]
pub enum Key {
    Char(char),
    Esc,
    Enter,
    Backspace,
    Up,
    Down,
    PageUp,
    PageDown,
    Home,
    End,
    Tab,
    BackTab,
    Other,
}

/// A key typed while a search query is being typed: `Esc` drops the
/// search, `Enter` ends the typing and jumps to the nearest match,
/// `Backspace` and characters edit the query, whose matches follow it.
pub open spec fn search_key(p: PageV, key: Key, rows: int) -> PageV {
    match key {
        Key::Esc => PageV {
            search_active: false,
            query: Seq::empty(),
            matches: Seq::empty(),
            current_match: None,
            ..p
        },
        Key::Enter => with_matches(PageV { search_active: false, ..p }, true, content_rows(rows)),
        Key::Backspace => with_matches(
            PageV { query: drop_last_char(p.query), ..p },
            false,
            content_rows(rows),
        ),
        Key::Char(c) => with_matches(PageV { query: p.query.push(c), ..p }, false, content_rows(rows)),
        _ => p,
    }
}

impl PageState {
    /// Recomputes the matches of the search query over the rows (see
    /// `with_matches`). With `jump`, the view moves to the nearest match at
    /// or after the scroll row, and scrolls it into view on a screen of
    /// `content_rows` rows.
    pub fn recompute_matches(&mut self, jump: bool, content_rows: usize)
        requires
            old(self).wf(),
        ensures
            final(self).wf(),
            final(self)@ == with_matches(old(self)@, jump, content_rows as int),
    {
        self.find_matches(jump);
        if jump {
            match self.current_match {
                Some(idx) => {
                    let row = self.matches[idx].0;
                    self.scroll_to_row(row, content_rows);
                },
                None => {},
            }
        }
    }

    /// Wraps the page anew to a terminal width.
    pub fn rewrap(&mut self, cols: u16)
        requires
            old(self).wf(),
        ensures
            final(self).wf(),
            final(self)@ == rewrapped(old(self)@, cols as int),
    {
        let (visual, link_rows) = wrap_all(&self.logical, cols);
        self.visual = visual;
        self.link_rows = link_rows;
        let max_scroll = if self.visual.len() >= 1 {
            self.visual.len() - 1
        } else {
            0
        };
        if self.scroll > max_scroll {
            self.scroll = max_scroll;
        }
        if !self.search_query.as_str().is_empty() {
            self.recompute_matches(false, 0);
        }
    }

    /// Handles a key typed while the search query is being typed.
    pub fn search_key(&mut self, key: Key, rows: u16)
        requires
            old(self).wf(),
        ensures
            final(self).wf(),
            final(self)@ == search_key(old(self)@, key, rows as int),
    {
        let content = if rows >= 1 {
            (rows - 1) as usize
        } else {
            0
        };
        match key {
            Key::Esc => {
                self.search_active = false;
                self.search_query = String::new();
                self.matches = Vec::new();
                self.current_match = None;
                assert(self@ =~= search_key(old(self)@, key, rows as int));
            },
            Key::Enter => {
                self.search_active = false;
                self.recompute_matches(true, content);
            },
            Key::Backspace => {
                let mut cs = chars_of(self.search_query.as_str());
                if cs.len() > 0 {
                    cs.pop();
                }
                self.search_query = string_of(&cs);
                assert(self.search_query@ =~= drop_last_char(old(self).search_query@));
                self.recompute_matches(false, content);
            },
            Key::Char(c) => {
                push_char(&mut self.search_query, c);
                self.recompute_matches(false, content);
            },
            _ => {},
        }
    }
}

/// A page navigated away from: enough to load it again and scroll back.
#[derive(Debug)]
pub struct HistoryEntry {
    pub name: String,
    pub section: Option<String>,
    pub scroll: usize,
}

pub struct HistV {
    pub name: Seq<char>,
    pub section: Option<Seq<char>>,
    pub scroll: int,
}

impl View for HistoryEntry {
    type V = HistV;

    open spec fn view(&self) -> HistV {
        HistV { name: self.name@, section: opt_str_view(self.section), scroll: self.scroll as int }
    }
}

pub open spec fn history_view(h: Seq<HistoryEntry>) -> Seq<HistV> {
    h.map_values(|e: HistoryEntry| e@)
}

/// What the caller is to do after a key.
#[derive(Debug)]
pub enum Action {
    /// Keep showing the page and wait for the next key.
    Stay,
    /// Leave the pager.
    Quit,
    /// Load the page a link names; hand it to `opened` if it loads.
    Open { name: String, section: String },
    /// Load a page from the history again; hand it to `reopened` with
    /// the scroll row if it loads.
    Reopen { name: String, section: Option<String>, scroll: usize },
}

pub enum ActionV {
    Stay,
    Quit,
    Open { name: Seq<char>, section: Seq<char> },
    Reopen { name: Seq<char>, section: Option<Seq<char>>, scroll: int },
}

impl View for Action {
    type V = ActionV;

    open spec fn view(&self) -> ActionV {
        match self {
            Action::Stay => ActionV::Stay,
            Action::Quit => ActionV::Quit,
            Action::Open { name, section } => ActionV::Open { name: name@, section: section@ },
            Action::Reopen { name, section, scroll } => ActionV::Reopen {
                name: name@,
                section: opt_str_view(*section),
                scroll: *scroll as int,
            },
        }
    }
}

/// The pager: the page shown and the pages navigated away from.
pub struct Pager {
    pub page: PageState,
    pub history: Vec<HistoryEntry>,
}

pub struct PagerV {
    pub page: PageV,
    pub history: Seq<HistV>,
}

impl View for Pager {
    type V = PagerV;

    open spec fn view(&self) -> PagerV {
        PagerV { page: self.page@, history: history_view(self.history@) }
    }
}

/// The link after the selected one, round to the first.
pub open spec fn next_index(cur: Option<usize>, n: int) -> int {
    match cur {
        Some(i) => (i + 1) % n,
        None => 0,
    }
}

/// The link before the selected one, round to the last.
pub open spec fn prev_index(cur: Option<usize>, n: int) -> int {
    match cur {
        Some(i) => if i == 0 {
            n - 1
        } else {
            i - 1
        },
        None => n - 1,
    }
}

/// The page with link `i` selected and scrolled to the row it first
/// shows on.
pub open spec fn select_link(p: PageV, i: int, content: int) -> PageV {
    let q = PageV { current_link: Some(i as usize), ..p };
    if p.link_rows.contains_key(i as usize) {
        scrolled_to(q, p.link_rows[i as usize] as int, content)
    } else {
        q
    }
}

/// The page with match `i` current and scrolled to its row.
pub open spec fn select_match(p: PageV, i: int, content: int) -> PageV {
    scrolled_to(PageV { current_match: Some(i as usize), ..p }, p.matches[i].0 as int, content)
}

/// A key typed while no query is being typed: scrolling, starting a
/// search, cycling matches and links, following a link, going back.
#[verifier::opaque]
pub open spec fn view_key(s: PagerV, key: Key, rows: int) -> (PagerV, ActionV) {
    let p = s.page;
    let c = content_rows(rows);
    let m = max_scroll(p, c);
    let amount = page_amount(rows);
    let stay = (s, ActionV::Stay);
    let moved = |q: PageV| (PagerV { page: q, history: s.history }, ActionV::Stay);
    match key {
        Key::Char('q') | Key::Esc => (s, ActionV::Quit),
        Key::Down | Key::Char('j') => moved(PageV { scroll: min_int(p.scroll + 1, m), ..p }),
        Key::Up | Key::Char('k') => moved(PageV { scroll: sat_sub(p.scroll, 1), ..p }),
        Key::PageDown | Key::Char(' ') => moved(PageV { scroll: min_int(p.scroll + amount, m), ..p }),
        Key::PageUp => moved(PageV { scroll: sat_sub(p.scroll, amount), ..p }),
        Key::Char('g') | Key::Home => moved(PageV { scroll: 0, ..p }),
        Key::Char('G') | Key::End => moved(PageV { scroll: m, ..p }),
        Key::Char('/') => moved(PageV { search_active: true, query: Seq::empty(), ..p }),
        Key::Char('n') => if p.matches.len() > 0 {
            moved(select_match(p, next_index(p.current_match, p.matches.len() as int), c))
        } else {
            stay
        },
        Key::Char('N') => if p.matches.len() > 0 {
            moved(select_match(p, prev_index(p.current_match, p.matches.len() as int), c))
        } else {
            stay
        },
        Key::Tab => if p.links.len() > 0 {
            moved(select_link(p, next_index(p.current_link, p.links.len() as int), c))
        } else {
            stay
        },
        Key::BackTab => if p.links.len() > 0 {
            moved(select_link(p, prev_index(p.current_link, p.links.len() as int), c))
        } else {
            stay
        },
        Key::Enter => match p.current_link {
            Some(i) => (
                s,
                ActionV::Open { name: p.links[i as int].name, section: p.links[i as int].section },
            ),
            None => stay,
        },
        Key::Backspace | Key::Char('b') => if s.history.len() > 0 {
            let e = s.history.last();
            (
                PagerV { page: p, history: s.history.drop_last() },
                ActionV::Reopen { name: e.name, section: e.section, scroll: e.scroll },
            )
        } else {
            stay
        },
        _ => stay,
    }
}

/// What a key does to the pager, and what the caller is to do next.
pub open spec fn step(s: PagerV, key: Key, rows: int) -> (PagerV, ActionV) {
    if s.page.search_active {
        (PagerV { page: search_key(s.page, key, rows), history: s.history }, ActionV::Stay)
    } else {
        view_key(s, key, rows)
    }
}

/// The history entry that keeps a page to come back to.
pub open spec fn entry_of(p: PageV) -> HistV {
    HistV { name: p.name, section: p.section, scroll: p.scroll }
}

fn clone_opt_string(o: &Option<String>) -> (r: Option<String>)
    ensures
        opt_str_view(r) == opt_str_view(*o),
{
    match o {
        Some(s) => Some(s.clone()),
        None => None,
    }
}

impl Pager {
    pub open spec fn wf(&self) -> bool {
        self.page.wf()
    }

    /// A pager showing a page, with nothing to go back to.
    pub fn new(page: PageState) -> (r: Pager)
        requires
            page.wf(),
        ensures
            r.wf(),
            r@ == (PagerV { page: page@, history: Seq::empty() }),
    {
        let r = Pager { page, history: Vec::new() };
        assert(history_view(r.history@) =~= Seq::<HistV>::empty());
        r
    }

    /// Handles one key (see `step`).
    pub fn handle_key(&mut self, key: Key, rows: u16) -> (a: Action)
        requires
            old(self).wf(),
        ensures
            final(self).wf(),
            (final(self)@, a@) == step(old(self)@, key, rows as int),
    {
        proof {
            reveal(view_key);
        }
        if self.page.search_active {
            self.page.search_key(key, rows);
            return Action::Stay;
        }
        let content = if rows >= 1 {
            (rows - 1) as usize
        } else {
            0
        };
        let amount = if rows >= 2 {
            (rows - 2) as usize
        } else {
            0
        };
        let max = if self.page.visual.len() >= content {
            self.page.visual.len() - content
        } else {
            0
        };
        let scroll = self.page.scroll;
        match key {
            Key::Char('q') | Key::Esc => Action::Quit,
            Key::Down | Key::Char('j') => {
                self.page.scroll = if scroll < max {
                    scroll + 1
                } else {
                    max
                };
                Action::Stay
            },
            Key::Up | Key::Char('k') => {
                self.page.scroll = if scroll >= 1 {
                    scroll - 1
                } else {
                    0
                };
                Action::Stay
            },
            Key::PageDown | Key::Char(' ') => {
                self.page.scroll = if scroll <= max && amount <= max - scroll {
                    scroll + amount
                } else {
                    max
                };
                Action::Stay
            },
            Key::PageUp => {
                self.page.scroll = if scroll >= amount {
                    scroll - amount
                } else {
                    0
                };
                Action::Stay
            },
            Key::Char('g') | Key::Home => {
                self.page.scroll = 0;
                Action::Stay
            },
            Key::Char('G') | Key::End => {
                self.page.scroll = max;
                Action::Stay
            },
            Key::Char('/') => {
                self.page.search_active = true;
                self.page.search_query = String::new();
                Action::Stay
            },
            Key::Char('n') => {
                let n = self.page.matches.len();
                if n > 0 {
                    let next = match self.page.current_match {
                        Some(i) => (i + 1) % n,
                        None => 0,
                    };
                    self.page.current_match = Some(next);
                    let row = self.page.matches[next].0;
                    self.page.scroll_to_row(row, content);
                }
                Action::Stay
            },
            Key::Char('N') => {
                let n = self.page.matches.len();
                if n > 0 {
                    let prev = match self.page.current_match {
                        Some(i) => if i == 0 {
                            n - 1
                        } else {
                            i - 1
                        },
                        None => n - 1,
                    };
                    self.page.current_match = Some(prev);
                    let row = self.page.matches[prev].0;
                    self.page.scroll_to_row(row, content);
                }
                Action::Stay
            },
            Key::Tab => {
                let n = self.page.links.len();
                if n > 0 {
                    let next = match self.page.current_link {
                        Some(i) => (i + 1) % n,
                        None => 0,
                    };
                    self.select_link(next, content);
                }
                Action::Stay
            },
            Key::BackTab => {
                let n = self.page.links.len();
                if n > 0 {
                    let prev = match self.page.current_link {
                        Some(i) => if i == 0 {
                            n - 1
                        } else {
                            i - 1
                        },
                        None => n - 1,
                    };
                    self.select_link(prev, content);
                }
                Action::Stay
            },
            Key::Enter => {
                match self.page.current_link {
                    Some(idx) => {
                        let target = &self.page.links[idx];
                        Action::Open { name: target.name.clone(), section: target.section.clone() }
                    },
                    None => Action::Stay,
                }
            },
            Key::Backspace | Key::Char('b') => {
                if self.history.len() > 0 {
                    let ghost h = history_view(self.history@);
                    let e = self.history.pop().unwrap();
                    assert(history_view(self.history@) =~= h.drop_last());
                    Action::Reopen { name: e.name, section: e.section, scroll: e.scroll }
                } else {
                    Action::Stay
                }
            },
            _ => Action::Stay,
        }
    }

    fn select_link(&mut self, i: usize, content: usize)
        requires
            old(self).wf(),
            i < old(self).page.links.len(),
        ensures
            final(self).wf(),
            final(self)@ == (PagerV {
                page: select_link(old(self).page@, i as int, content as int),
                history: old(self)@.history,
            }),
    {
        broadcast use vstd::std_specs::hash::group_hash_axioms;

        self.page.current_link = Some(i);
        match self.page.link_rows.get(&i) {
            Some(row) => {
                let row = *row;
                self.page.scroll_to_row(row, content);
            },
            None => {},
        }
    }

    /// The page a followed link named has loaded: the page shown so far
    /// goes on the history, and the new one is shown.
    pub fn opened(&mut self, page: PageState)
        requires
            old(self).wf(),
            page.wf(),
        ensures
            final(self).wf(),
            final(self)@ == (PagerV {
                page: page@,
                history: old(self)@.history.push(entry_of(old(self)@.page)),
            }),
    {
        let ghost h = history_view(self.history@);
        let e = HistoryEntry {
            name: self.page.name.clone(),
            section: clone_opt_string(&self.page.section),
            scroll: self.page.scroll,
        };
        self.history.push(e);
        assert(history_view(self.history@) =~= h.push(entry_of(old(self)@.page)));
        self.page = page;
    }

    /// A page from the history has loaded again: it is shown, scrolled
    /// back to where it was as far as it now allows.
    pub fn reopened(&mut self, page: PageState, scroll: usize, rows: u16)
        requires
            old(self).wf(),
            page.wf(),
        ensures
            final(self).wf(),
            final(self)@ == (PagerV {
                page: PageV {
                    scroll: min_int(scroll as int, max_scroll(page@, content_rows(rows as int))),
                    ..page@
                },
                history: old(self)@.history,
            }),
    {
        let mut page = page;
        let content = if rows >= 1 {
            (rows - 1) as usize
        } else {
            0
        };
        let max = if page.visual.len() >= content {
            page.visual.len() - content
        } else {
            0
        };
        page.scroll = if scroll <= max {
            scroll
        } else {
            max
        };
        self.page = page;
    }

    /// The terminal was resized to `cols` columns.
    pub fn resized(&mut self, cols: u16)
        requires
            old(self).wf(),
        ensures
            final(self).wf(),
            final(self)@ == (PagerV {
                page: rewrapped(old(self)@.page, cols as int),
                history: old(self)@.history,
            }),
    {
        self.page.rewrap(cols);
    }
}

/// Position `a` comes before position `b` in reading order.
pub open spec fn before(a: (usize, usize), b: (usize, usize)) -> bool {
    a.0 < b.0 || (a.0 == b.0 && a.1 < b.1)
}

/// The word at a position is one whose lowercase form holds the query.
pub open spec fn is_hit(rows: Seq<RowV>, q: Seq<char>, pos: (usize, usize)) -> bool {
    &&& pos.0 < rows.len()
    &&& pos.1 < rows[pos.0 as int].words.len()
    &&& has_sub(lowercase(rows[pos.0 as int].words[pos.1 as int].text), q)
}

proof fn lemma_row_hits(row: int, ws: Seq<WordV>, q: Seq<char>)
    requires
        0 <= row <= usize::MAX,
        ws.len() <= usize::MAX,
    ensures
        forall|k: int|
            0 <= k < row_hits(row, ws, q).len() ==> (#[trigger] row_hits(row, ws, q)[k]).0 == row
                && row_hits(row, ws, q)[k].1 < ws.len() && has_sub(
                lowercase(ws[row_hits(row, ws, q)[k].1 as int].text),
                q,
            ),
        forall|c: int|
            0 <= c < ws.len() && has_sub(lowercase(#[trigger] ws[c].text), q) ==> exists|k: int|
                0 <= k < row_hits(row, ws, q).len() && row_hits(row, ws, q)[k] == (
                    row as usize,
                    c as usize,
                ),
        forall|i: int, j: int|
            0 <= i < j < row_hits(row, ws, q).len() ==> (#[trigger] row_hits(row, ws, q)[i]).1
                < (#[trigger] row_hits(row, ws, q)[j]).1,
    decreases ws.len(),
{
    if ws.len() > 0 {
        let p = ws.drop_last();
        lemma_row_hits(row, p, q);
        let a = row_hits(row, p, q);
        let r = row_hits(row, ws, q);
        let last = (ws.len() - 1) as usize;
        assert forall|k: int| 0 <= k < r.len() implies (#[trigger] r[k]).0 == row && r[k].1 < ws.len()
            && has_sub(lowercase(ws[r[k].1 as int].text), q) by {
            if k < a.len() {
                assert(r[k] == a[k]);
                assert(p[a[k].1 as int] == ws[a[k].1 as int]);
            }
        }
        assert forall|c: int| 0 <= c < ws.len() && has_sub(lowercase(#[trigger] ws[c].text), q)
            implies exists|k: int| 0 <= k < r.len() && r[k] == (row as usize, c as usize) by {
            if c < p.len() {
                assert(p[c] == ws[c]);
                let k = choose|k: int| 0 <= k < a.len() && a[k] == (row as usize, c as usize);
                assert(r[k] == a[k]);
            } else {
                assert(r[a.len() as int] == (row as usize, last));
            }
        }
        assert forall|i: int, j: int| 0 <= i < j < r.len() implies (#[trigger] r[i]).1 < (
        #[trigger] r[j]).1 by {
            assert(r[i] == a[i]);
            if j < a.len() {
                assert(r[j] == a[j]);
            }
        }
    }
}

/// The matches of a query are exactly the words whose lowercase form
/// holds it, each once, in reading order.
pub proof fn law_hits_exact(rows: Seq<RowV>, q: Seq<char>)
    requires
        rows.len() <= usize::MAX,
        forall|i: int| 0 <= i < rows.len() ==> (#[trigger] rows[i]).words.len() <= usize::MAX,
    ensures
        forall|k: int| 0 <= k < hits(rows, q).len() ==> is_hit(rows, q, #[trigger] hits(rows, q)[k]),
        forall|pos: (usize, usize)|
            #[trigger] is_hit(rows, q, pos) ==> exists|k: int|
                0 <= k < hits(rows, q).len() && hits(rows, q)[k] == pos,
        forall|i: int, j: int|
            0 <= i < j < hits(rows, q).len() ==> before(
                #[trigger] hits(rows, q)[i],
                #[trigger] hits(rows, q)[j],
            ),
    decreases rows.len(),
{
    if rows.len() > 0 {
        let p = rows.drop_last();
        let n = rows.len() - 1;
        assert forall|i: int| 0 <= i < p.len() implies (#[trigger] p[i]).words.len() <= usize::MAX by {
            assert(p[i] == rows[i]);
        }
        law_hits_exact(p, q);
        let ws = rows.last().words;
        lemma_row_hits(n, ws, q);
        let a = hits(p, q);
        let b = row_hits(n, ws, q);
        let h = hits(rows, q);
        assert(h == a + b);
        assert forall|k: int| 0 <= k < h.len() implies is_hit(rows, q, #[trigger] h[k]) by {
            if k < a.len() {
                assert(h[k] == a[k]);
                assert(is_hit(p, q, a[k]));
                assert(p[a[k].0 as int] == rows[a[k].0 as int]);
            } else {
                assert(h[k] == b[k - a.len()]);
            }
        }
        assert forall|pos: (usize, usize)| #[trigger] is_hit(rows, q, pos) implies exists|k: int|
            0 <= k < h.len() && h[k] == pos by {
            if (pos.0 as int) < n {
                assert(p[pos.0 as int] == rows[pos.0 as int]);
                assert(is_hit(p, q, pos));
                let k = choose|k: int| 0 <= k < a.len() && a[k] == pos;
                assert(h[k] == a[k]);
            } else {
                let c = pos.1 as int;
                assert(has_sub(lowercase(ws[c].text), q));
                let k = choose|k: int| 0 <= k < b.len() && b[k] == (n as usize, c as usize);
                assert(h[a.len() + k] == b[k]);
            }
        }
        assert forall|i: int, j: int| 0 <= i < j < h.len() implies before(
            #[trigger] h[i],
            #[trigger] h[j],
        ) by {
            if j < a.len() {
                assert(h[i] == a[i] && h[j] == a[j]);
            } else if i < a.len() {
                assert(h[i] == a[i]);
                assert(is_hit(p, q, a[i]));
                assert(h[j] == b[j - a.len()]);
            } else {
                assert(h[i] == b[i - a.len()]);
                assert(h[j] == b[j - a.len()]);
            }
        }
    }
}

/// What the cycling keys do, outside a search.
pub proof fn lemma_cycle_keys(s: PagerV, rows: int)
    requires
        !s.page.search_active,
    ensures
        step(s, Key::Tab, rows) == (if s.page.links.len() > 0 {
            (PagerV {
                page: select_link(s.page, next_index(s.page.current_link, s.page.links.len() as int), content_rows(rows)),
                history: s.history,
            }, ActionV::Stay)
        } else {
            (s, ActionV::Stay)
        }),
        step(s, Key::BackTab, rows) == (if s.page.links.len() > 0 {
            (PagerV {
                page: select_link(s.page, prev_index(s.page.current_link, s.page.links.len() as int), content_rows(rows)),
                history: s.history,
            }, ActionV::Stay)
        } else {
            (s, ActionV::Stay)
        }),
        step(s, Key::Char('n'), rows) == (if s.page.matches.len() > 0 {
            (PagerV {
                page: select_match(s.page, next_index(s.page.current_match, s.page.matches.len() as int), content_rows(rows)),
                history: s.history,
            }, ActionV::Stay)
        } else {
            (s, ActionV::Stay)
        }),
        step(s, Key::Char('N'), rows) == (if s.page.matches.len() > 0 {
            (PagerV {
                page: select_match(s.page, prev_index(s.page.current_match, s.page.matches.len() as int), content_rows(rows)),
                history: s.history,
            }, ActionV::Stay)
        } else {
            (s, ActionV::Stay)
        }),
        step(s, Key::Backspace, rows) == (if s.history.len() > 0 {
            (PagerV { page: s.page, history: s.history.drop_last() }, ActionV::Reopen {
                name: s.history.last().name,
                section: s.history.last().section,
                scroll: s.history.last().scroll,
            })
        } else {
            (s, ActionV::Stay)
        }),
{
    reveal(view_key);
}

proof fn lemma_cycle_index(i: usize, n: int)
    requires
        0 <= i < n <= usize::MAX,
    ensures
        0 <= next_index(Some(i), n) < n,
        0 <= prev_index(Some(i), n) < n,
        prev_index(Some(next_index(Some(i), n) as usize), n) == i,
        next_index(Some(prev_index(Some(i), n) as usize), n) == i,
{
    if i + 1 < n {
        vstd::arithmetic::div_mod::lemma_small_mod((i + 1) as nat, n as nat);
    } else {
        vstd::arithmetic::div_mod::lemma_mod_self_0(n);
    }
    if i == 0 {
        vstd::arithmetic::div_mod::lemma_mod_self_0(n);
    } else {
        vstd::arithmetic::div_mod::lemma_small_mod(i as nat, n as nat);
    }
}

proof fn lemma_select_fields(p: PageV, i: int, c: int)
    ensures
        select_link(p, i, c).current_link == Some(i as usize),
        select_link(p, i, c).links == p.links,
        select_link(p, i, c).search_active == p.search_active,
        select_match(p, i, c).current_match == Some(i as usize),
        select_match(p, i, c).matches == p.matches,
        select_match(p, i, c).search_active == p.search_active,
{
}

/// With a link selected, `Tab` then `Shift+Tab` selects it again, and
/// so does `Shift+Tab` then `Tab`.
pub proof fn law_tab_backtab(s: PagerV, rows: int)
    requires
        !s.page.search_active,
        s.page.current_link matches Some(i) && i < s.page.links.len(),
        s.page.links.len() <= usize::MAX,
    ensures
        step(step(s, Key::Tab, rows).0, Key::BackTab, rows).0.page.current_link == s.page.current_link,
        step(step(s, Key::BackTab, rows).0, Key::Tab, rows).0.page.current_link == s.page.current_link,
{
    let p = s.page;
    let c = content_rows(rows);
    let n = p.links.len() as int;
    let i = p.current_link.unwrap() as int;
    let nx = next_index(p.current_link, n);
    let pv = prev_index(p.current_link, n);
    lemma_cycle_index(i as usize, n);
    lemma_select_fields(p, nx, c);
    lemma_select_fields(p, pv, c);
    assert(0 <= nx < n);
    assert(0 <= pv < n);
    lemma_cycle_keys(s, rows);
    let t = PagerV { page: select_link(p, nx, c), history: s.history };
    assert(step(s, Key::Tab, rows).0 == t);
    assert(t.page.current_link == Some(nx as usize));
    assert(prev_index(t.page.current_link, n) == i);
    lemma_cycle_keys(t, rows);
    lemma_select_fields(t.page, prev_index(t.page.current_link, n), c);
    assert(step(t, Key::BackTab, rows).0.page.current_link == Some(i as usize));
    let u = PagerV { page: select_link(p, pv, c), history: s.history };
    assert(step(s, Key::BackTab, rows).0 == u);
    assert(next_index(u.page.current_link, n) == i);
    lemma_cycle_keys(u, rows);
    lemma_select_fields(u.page, next_index(u.page.current_link, n), c);
}

/// With a match current, `n` then `N` makes it current again, and so
/// does `N` then `n`.
pub proof fn law_next_prev_match(s: PagerV, rows: int)
    requires
        !s.page.search_active,
        s.page.current_match matches Some(i) && i < s.page.matches.len(),
        s.page.matches.len() <= usize::MAX,
    ensures
        step(step(s, Key::Char('n'), rows).0, Key::Char('N'), rows).0.page.current_match
            == s.page.current_match,
        step(step(s, Key::Char('N'), rows).0, Key::Char('n'), rows).0.page.current_match
            == s.page.current_match,
{
    let p = s.page;
    let c = content_rows(rows);
    let n = p.matches.len() as int;
    let i = p.current_match.unwrap() as int;
    let nx = next_index(p.current_match, n);
    let pv = prev_index(p.current_match, n);
    lemma_cycle_index(i as usize, n);
    lemma_select_fields(p, nx, c);
    lemma_select_fields(p, pv, c);
    lemma_cycle_keys(s, rows);
    let t = PagerV { page: select_match(p, nx, c), history: s.history };
    lemma_cycle_keys(t, rows);
    lemma_select_fields(t.page, prev_index(t.page.current_match, n), c);
    let u = PagerV { page: select_match(p, pv, c), history: s.history };
    lemma_cycle_keys(u, rows);
    lemma_select_fields(u.page, next_index(u.page.current_match, n), c);
}

/// Scrolling to a row keeps the view within the last screenful when it
/// was there.
proof fn lemma_scrolled_to_bounded(p: PageV, row: int, content: int)
    requires
        0 <= p.scroll <= max_scroll(p, content),
    ensures
        0 <= scrolled_to(p, row, content).scroll <= max_scroll(p, content),
        scrolled_to(p, row, content).rows == p.rows,
{
}

/// A key typed outside a search never scrolls the view past the last
/// screenful, or above the top, when it was within them.
pub proof fn law_scroll_stays_in_range(s: PagerV, key: Key, rows: int)
    requires
        !s.page.search_active,
        0 <= s.page.scroll <= max_scroll(s.page, content_rows(rows)),
        rows >= 0,
    ensures
        0 <= step(s, key, rows).0.page.scroll <= max_scroll(
            step(s, key, rows).0.page,
            content_rows(rows),
        ),
{
    reveal(view_key);
    let p = s.page;
    let c = content_rows(rows);
    match key {
        Key::Char('n') => {
            if p.matches.len() > 0 {
                let i = next_index(p.current_match, p.matches.len() as int);
                lemma_scrolled_to_bounded(
                    PageV { current_match: Some(i as usize), ..p },
                    p.matches[i].0 as int,
                    c,
                );
            }
        },
        Key::Char('N') => {
            if p.matches.len() > 0 {
                let i = prev_index(p.current_match, p.matches.len() as int);
                lemma_scrolled_to_bounded(
                    PageV { current_match: Some(i as usize), ..p },
                    p.matches[i].0 as int,
                    c,
                );
            }
        },
        Key::Tab => {
            if p.links.len() > 0 {
                let i = next_index(p.current_link, p.links.len() as int);
                lemma_scrolled_to_bounded(
                    PageV { current_link: Some(i as usize), ..p },
                    p.link_rows[i as usize] as int,
                    c,
                );
            }
        },
        Key::BackTab => {
            if p.links.len() > 0 {
                let i = prev_index(p.current_link, p.links.len() as int);
                lemma_scrolled_to_bounded(
                    PageV { current_link: Some(i as usize), ..p },
                    p.link_rows[i as usize] as int,
                    c,
                );
            }
        },
        _ => {},
    }
}

/// Following a link and then going back asks for the page left, at the
/// row it was scrolled to, and leaves the history as it was.
pub proof fn law_follow_then_back(s: PagerV, opened: PageV, rows: int)
    requires
        !opened.search_active,
    ensures
        step(
            PagerV { page: opened, history: s.history.push(entry_of(s.page)) },
            Key::Backspace,
            rows,
        ) == (PagerV { page: opened, history: s.history }, ActionV::Reopen {
            name: s.page.name,
            section: s.page.section,
            scroll: s.page.scroll,
        }),
{
    lemma_cycle_keys(PagerV { page: opened, history: s.history.push(entry_of(s.page)) }, rows);
    assert(s.history.push(entry_of(s.page)).drop_last() =~= s.history);
}

/// The pager after the same key pressed `k` times.
pub open spec fn repeat_key(s: PagerV, key: Key, rows: int, k: nat) -> PagerV
    decreases k,
{
    if k == 0 {
        s
    } else {
        step(repeat_key(s, key, rows, (k - 1) as nat), key, rows).0
    }
}

proof fn lemma_mod_step(x: int, n: int)
    requires
        x >= 0,
        n > 0,
    ensures
        0 <= x % n < n,
        ((x % n) + 1) % n == (x + 1) % n,
{
    vstd::arithmetic::div_mod::lemma_mod_pos_bound(x, n);
    vstd::arithmetic::div_mod::lemma_add_mod_noop(x, 1, n);
    vstd::arithmetic::div_mod::lemma_mod_pos_bound(x + 1, n);
    vstd::arithmetic::div_mod::lemma_mod_pos_bound((x % n) + 1, n);
    if n > 1 {
        vstd::arithmetic::div_mod::lemma_small_mod(1, n as nat);
    }
}

proof fn lemma_mod_full(i: int, n: int)
    requires
        0 <= i < n,
    ensures
        (i + n) % n == i,
{
    vstd::arithmetic::div_mod::lemma_add_mod_noop(i, n, n);
    vstd::arithmetic::div_mod::lemma_mod_self_0(n);
    vstd::arithmetic::div_mod::lemma_small_mod(i as nat, n as nat);
}

proof fn lemma_tab_repeat(s: PagerV, rows: int, j: nat)
    requires
        !s.page.search_active,
        s.page.current_link matches Some(i) && i < s.page.links.len(),
        s.page.links.len() <= usize::MAX,
    ensures
        repeat_key(s, Key::Tab, rows, j).page.links == s.page.links,
        !repeat_key(s, Key::Tab, rows, j).page.search_active,
        repeat_key(s, Key::Tab, rows, j).page.current_link == Some(
            ((s.page.current_link.unwrap() + j) % (s.page.links.len() as int)) as usize,
        ),
    decreases j,
{
    let n = s.page.links.len() as int;
    let i = s.page.current_link.unwrap() as int;
    if j == 0 {
        vstd::arithmetic::div_mod::lemma_small_mod(i as nat, n as nat);
    } else {
        lemma_tab_repeat(s, rows, (j - 1) as nat);
        let t = repeat_key(s, Key::Tab, rows, (j - 1) as nat);
        lemma_cycle_keys(t, rows);
        lemma_mod_step(i + j - 1, n);
        lemma_select_fields(t.page, next_index(t.page.current_link, n), content_rows(rows));
    }
}

proof fn lemma_next_match_repeat(s: PagerV, rows: int, j: nat)
    requires
        !s.page.search_active,
        s.page.current_match matches Some(i) && i < s.page.matches.len(),
        s.page.matches.len() <= usize::MAX,
    ensures
        repeat_key(s, Key::Char('n'), rows, j).page.matches == s.page.matches,
        !repeat_key(s, Key::Char('n'), rows, j).page.search_active,
        repeat_key(s, Key::Char('n'), rows, j).page.current_match == Some(
            ((s.page.current_match.unwrap() + j) % (s.page.matches.len() as int)) as usize,
        ),
    decreases j,
{
    let n = s.page.matches.len() as int;
    let i = s.page.current_match.unwrap() as int;
    if j == 0 {
        vstd::arithmetic::div_mod::lemma_small_mod(i as nat, n as nat);
    } else {
        lemma_next_match_repeat(s, rows, (j - 1) as nat);
        let t = repeat_key(s, Key::Char('n'), rows, (j - 1) as nat);
        lemma_cycle_keys(t, rows);
        lemma_mod_step(i + j - 1, n);
        lemma_select_fields(t.page, next_index(t.page.current_match, n), content_rows(rows));
    }
}

/// With a link selected, pressing `Tab` once for each link on the page
/// selects it again.
pub proof fn law_tab_full_cycle(s: PagerV, rows: int)
    requires
        !s.page.search_active,
        s.page.current_link matches Some(i) && i < s.page.links.len(),
        s.page.links.len() <= usize::MAX,
    ensures
        repeat_key(s, Key::Tab, rows, s.page.links.len()).page.current_link == s.page.current_link,
{
    lemma_tab_repeat(s, rows, s.page.links.len());
    lemma_mod_full(s.page.current_link.unwrap() as int, s.page.links.len() as int);
}

/// With a match current, pressing `n` once for each match makes it
/// current again.
pub proof fn law_next_match_full_cycle(s: PagerV, rows: int)
    requires
        !s.page.search_active,
        s.page.current_match matches Some(i) && i < s.page.matches.len(),
        s.page.matches.len() <= usize::MAX,
    ensures
        repeat_key(s, Key::Char('n'), rows, s.page.matches.len()).page.current_match
            == s.page.current_match,
{
    lemma_next_match_repeat(s, rows, s.page.matches.len());
    lemma_mod_full(s.page.current_match.unwrap() as int, s.page.matches.len() as int);
}

/// Outside a search the scrolling keys move the view and change nothing
/// else. On a screen of `rows` rows, one is the status line, so the last
/// screenful starts `rows - 1` rows before the end of the page (or at the
/// top of a shorter page). From a view within the page: Down and `j` go
/// one row further unless the last screenful is shown; Up and `k` one row
/// back unless at the top; PageDown and space `rows - 2` rows further but
/// not past the last screenful; PageUp `rows - 2` rows back but not above
/// the top; `g` and Home to the top; `G` and End to the last screenful.
pub proof fn law_scroll_keys(s: PagerV, rows: int)
    requires
        !s.page.search_active,
        rows >= 0,
        0 <= s.page.scroll,
        ({
            let shown = if rows >= 1 { rows - 1 } else { 0 };
            s.page.scroll == 0 || s.page.scroll + shown <= s.page.rows.len()
        }),
    ensures
        ({
            let p = s.page;
            let shown = if rows >= 1 { rows - 1 } else { 0 };
            let last = if p.rows.len() >= shown { p.rows.len() - shown } else { 0 };
            let amount = if rows >= 2 { rows - 2 } else { 0 };
            let moved_to = |scroll: int| (PagerV { page: PageV { scroll, ..p }, history: s.history }, ActionV::Stay);
            &&& step(s, Key::Down, rows) == moved_to(if p.scroll < last { p.scroll + 1 } else { p.scroll })
            &&& step(s, Key::Char('j'), rows) == step(s, Key::Down, rows)
            &&& step(s, Key::Up, rows) == moved_to(if p.scroll > 0 { p.scroll - 1 } else { 0 })
            &&& step(s, Key::Char('k'), rows) == step(s, Key::Up, rows)
            &&& step(s, Key::PageDown, rows) == moved_to(
                if p.scroll + amount <= last { p.scroll + amount } else { last },
            )
            &&& step(s, Key::Char(' '), rows) == step(s, Key::PageDown, rows)
            &&& step(s, Key::PageUp, rows) == moved_to(
                if p.scroll >= amount { p.scroll - amount } else { 0 },
            )
            &&& step(s, Key::Home, rows) == moved_to(0)
            &&& step(s, Key::Char('g'), rows) == step(s, Key::Home, rows)
            &&& step(s, Key::End, rows) == moved_to(last)
            &&& step(s, Key::Char('G'), rows) == step(s, Key::End, rows)
        }),
{
    reveal(view_key);
}

/// Scrolling to a row of the page brings it into view.
proof fn lemma_scrolled_to_shows(p: PageV, row: int, content: int)
    requires
        content > 0,
        0 <= row < p.rows.len(),
    ensures
        scrolled_to(p, row, content).scroll <= row < scrolled_to(p, row, content).scroll + content,
        scrolled_to(p, row, content) == (PageV { scroll: scrolled_to(p, row, content).scroll, ..p }),
{
}

/// Outside a search, with matches, `n` makes the next match current
/// (after the last, the first; with none current, the first) and `N` the
/// one before (before the first, the last; with none current, the last);
/// either way the view is scrolled so the new current match's row is on
/// screen, and nothing but the view and the current match changes.
pub proof fn law_match_keys_show_match(s: PagerV, rows: int)
    requires
        !s.page.search_active,
        rows >= 2,
        s.page.matches.len() > 0,
        s.page.matches.len() <= usize::MAX,
        s.page.current_match matches Some(i) ==> i < s.page.matches.len(),
        forall|k: int| 0 <= k < s.page.matches.len() ==> #[trigger] s.page.matches[k].0 < s.page.rows.len(),
    ensures
        ({
            let p = s.page;
            let len = p.matches.len() as int;
            let nx = match p.current_match { Some(i) => if i + 1 < len { i + 1 } else { 0 }, None => 0 };
            let pv = match p.current_match { Some(i) => if i > 0 { i - 1 } else { len - 1 }, None => len - 1 };
            let tn = step(s, Key::Char('n'), rows).0;
            let tp = step(s, Key::Char('N'), rows).0;
            &&& tn.history == s.history
            &&& tn.page == PageV { scroll: tn.page.scroll, current_match: Some(nx as usize), ..p }
            &&& tn.page.scroll <= p.matches[nx].0 < tn.page.scroll + rows - 1
            &&& tp.history == s.history
            &&& tp.page == PageV { scroll: tp.page.scroll, current_match: Some(pv as usize), ..p }
            &&& tp.page.scroll <= p.matches[pv].0 < tp.page.scroll + rows - 1
        }),
{
    let p = s.page;
    let len = p.matches.len() as int;
    let c = content_rows(rows);
    lemma_cycle_keys(s, rows);
    match p.current_match {
        Some(i) => lemma_cycle_index(i, len),
        None => {},
    }
    let nx = next_index(p.current_match, len);
    let pv = prev_index(p.current_match, len);
    match p.current_match {
        Some(i) => {
            if i + 1 < len {
                vstd::arithmetic::div_mod::lemma_small_mod((i + 1) as nat, len as nat);
            } else {
                vstd::arithmetic::div_mod::lemma_mod_self_0(len);
            }
        },
        None => {},
    }
    lemma_scrolled_to_shows(PageV { current_match: Some(nx as usize), ..p }, p.matches[nx].0 as int, c);
    lemma_scrolled_to_shows(PageV { current_match: Some(pv as usize), ..p }, p.matches[pv].0 as int, c);
}

} // verus!
