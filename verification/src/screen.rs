//! What the pager puts on screen besides the words themselves: the style
//! each word is shown in, and the status line.
use vstd::prelude::*;
use crate::lines::{Style, WordV};
use crate::numbers::{decimal, decimal_string};
use crate::pager::{PageState, PageV};
use crate::text::{append_str, chars_of, string_of};

verus! {

/// The style a word is shown in: the current match, then any match,
/// then the selected link, any link, and last its own style.
pub open spec fn shown_style(
    pos: (usize, usize),
    w: WordV,
    current_link: Option<usize>,
    matches: Seq<(usize, usize)>,
    current: Option<(usize, usize)>,
) -> Style {
    if current == Some(pos) {
        Style::MatchCurrent
    } else if matches.contains(pos) {
        Style::Match
    } else {
        match w.link {
            Some(idx) => if current_link == Some(idx) {
                Style::LinkSelected
            } else {
                Style::Link
            },
            None => w.style,
        }
    }
}

/// The position of the current match, if there is one.
pub open spec fn current_pos(p: PageV) -> Option<(usize, usize)> {
    match p.current_match {
        Some(i) => Some(p.matches[i as int]),
        None => None,
    }
}

/// The style the `i`-th word of row `row` is shown in.
pub fn word_style(page: &PageState, row: usize, i: usize) -> (r: Style)
    requires
        page.wf(),
        row < page.visual.len(),
        i < page.visual@[row as int].words.len(),
    ensures
        r == shown_style(
            (row, i),
            page@.rows[row as int].words[i as int],
            page.current_link,
            page.matches@,
            current_pos(page@),
        ),
{
    let w = &page.visual[row].words[i];
    assert(page@.rows[row as int].words[i as int] == w@);
    let cur = match page.current_match {
        Some(k) => Some(page.matches[k]),
        None => None,
    };
    let is_current = match cur {
        Some(pos) => pos.0 == row && pos.1 == i,
        None => false,
    };
    if is_current {
        return Style::MatchCurrent;
    }
    assert(current_pos(page@) != Some((row, i)));
    let mut k: usize = 0;
    while k < page.matches.len()
        invariant
            k <= page.matches.len(),
            forall|j: int| 0 <= j < k ==> page.matches@[j] != (row, i),
            current_pos(page@) != Some((row, i)),
        decreases page.matches.len() - k,
    {
        if page.matches[k].0 == row && page.matches[k].1 == i {
            assert(page.matches@.contains((row, i)));
            return Style::Match;
        }
        k = k + 1;
    }
    assert(!page.matches@.contains((row, i)));
    assert(current_pos(page@) != Some((row, i)));
    match w.link {
        Some(idx) => {
            match page.current_link {
                Some(c) => if c == idx {
                    Style::LinkSelected
                } else {
                    Style::Link
                },
                None => Style::Link,
            }
        },
        None => w.style,
    }
}

/// `n` spaces.
pub open spec fn spaces(n: nat) -> Seq<char> {
    Seq::new(n, |i: int| ' ')
}

/// A text cut or padded with spaces to exactly `width` characters.
pub open spec fn pad_or_trim_spec(s: Seq<char>, width: nat) -> Seq<char> {
    if s.len() >= width {
        s.take(width as int)
    } else {
        s + spaces((width - s.len()) as nat)
    }
}

/// Cuts or pads a text with spaces to exactly `width` characters.
pub fn pad_or_trim(s: &str, width: usize) -> (r: String)
    ensures
        r@ == pad_or_trim_spec(s@, width as nat),
        r@.len() == width,
{
    let cs = chars_of(s);
    let mut out: Vec<char> = Vec::new();
    if cs.len() >= width {
        let mut i: usize = 0;
        while i < width
            invariant
                i <= width <= cs.len(),
                out@ == cs@.take(i as int),
            decreases width - i,
        {
            out.push(cs[i]);
            i = i + 1;
            assert(out@ =~= cs@.take(i as int));
        }
    } else {
        let mut i: usize = 0;
        while i < cs.len()
            invariant
                i <= cs.len(),
                out@ == cs@.take(i as int),
            decreases cs.len() - i,
        {
            out.push(cs[i]);
            i = i + 1;
            assert(out@ =~= cs@.take(i as int));
        }
        assert(cs@.take(cs.len() as int) =~= cs@);
        let mut k: usize = cs.len();
        while k < width
            invariant
                cs.len() <= k <= width,
                out@ == cs@ + spaces((k - cs.len()) as nat),
            decreases width - k,
        {
            out.push(' ');
            k = k + 1;
            assert(out@ =~= cs@ + spaces((k - cs.len()) as nat));
        }
    }
    string_of(&out)
}

/// The text of the status line before it is fitted to the width: the
/// query being typed; or, with a query, the title, the query, which
/// match is current and the search keys; or the title and the keys.
pub open spec fn status_text(p: PageV) -> Seq<char> {
    if p.search_active {
        " /"@ + p.query
    } else if p.query.len() > 0 {
        let pos = match p.current_match {
            Some(i) => decimal((i + 1) as nat) + "/"@ + decimal(p.matches.len()),
            None => "0/0"@,
        };
        " "@ + p.title_bar + "  \u{2014}  \""@ + p.query + "\" match "@ + pos
            + " \u{b7} n/N next/prev \u{b7} / new search \u{b7} q quit "@
    } else {
        let hint = if p.links.len() == 0 {
            "q quit \u{b7} j/k scroll \u{b7} g/G top/bottom \u{b7} / search"@
        } else {
            "q quit \u{b7} j/k scroll \u{b7} Tab links \u{b7} Enter follow \u{b7} b back \u{b7} / search"@
        };
        " "@ + p.title_bar + "  \u{2014}  "@ + hint + " "@
    }
}

/// The status line, fitted to a terminal `cols` wide.
pub fn status_line(page: &PageState, cols: u16) -> (r: String)
    requires
        page.wf(),
    ensures
        r@ == pad_or_trim_spec(status_text(page@), cols as nat),
{
    let mut v: Vec<char> = Vec::new();
    if page.search_active {
        append_str(&mut v, " /");
        append_str(&mut v, page.search_query.as_str());
    } else if !page.search_query.as_str().is_empty() {
        append_str(&mut v, " ");
        append_str(&mut v, page.title_bar.as_str());
        append_str(&mut v, "  \u{2014}  \"");
        append_str(&mut v, page.search_query.as_str());
        append_str(&mut v, "\" match ");
        match page.current_match {
            Some(i) => {
                let a = decimal_string(i + 1);
                append_str(&mut v, a.as_str());
                append_str(&mut v, "/");
                let b = decimal_string(page.matches.len());
                append_str(&mut v, b.as_str());
            },
            None => {
                append_str(&mut v, "0/0");
            },
        }
        append_str(&mut v, " \u{b7} n/N next/prev \u{b7} / new search \u{b7} q quit ");
    } else {
        append_str(&mut v, " ");
        append_str(&mut v, page.title_bar.as_str());
        append_str(&mut v, "  \u{2014}  ");
        if page.links.len() == 0 {
            append_str(&mut v, "q quit \u{b7} j/k scroll \u{b7} g/G top/bottom \u{b7} / search");
        } else {
            append_str(
                &mut v,
                "q quit \u{b7} j/k scroll \u{b7} Tab links \u{b7} Enter follow \u{b7} b back \u{b7} / search",
            );
        }
        append_str(&mut v, " ");
    }
    assert(v@ =~= status_text(page@));
    let text = string_of(&v);
    pad_or_trim(text.as_str(), cols as usize)
}

/// A terminal colour the pager uses.
#[derive(Clone, Copy, PartialEq, Eq, Structural, Debug)]
pub enum Shade {
    DarkGrey,
    Yellow,
    Cyan,
    Green,
    Magenta,
    Blue,
    Black,
}

/// How a style looks on the terminal: colours and attributes.
#[derive(Clone, Copy, PartialEq, Eq, Structural, Debug)]
pub struct Look {
    pub fg: Option<Shade>,
    pub bg: Option<Shade>,
    pub bold: bool,
    pub italic: bool,
    pub underlined: bool,
}

pub open spec fn look_spec(fg: Option<Shade>, bg: Option<Shade>, bold: bool, italic: bool, underlined: bool) -> Look {
    Look { fg, bg, bold, italic, underlined }
}

/// The look of each style: plain text as the terminal has it; dim grey;
/// a yellow bold title; cyan bold headings; green bold terms; bold;
/// magenta italics; yellow code; blue underlined links; the selected link
/// black on blue, bold; matches black on yellow, the current one black on
/// green, bold.
pub open spec fn look_of(style: Style) -> Look {
    match style {
        Style::Plain => look_spec(None, None, false, false, false),
        Style::Dim => look_spec(Some(Shade::DarkGrey), None, false, false, false),
        Style::Title => look_spec(Some(Shade::Yellow), None, true, false, false),
        Style::Heading => look_spec(Some(Shade::Cyan), None, true, false, false),
        Style::Term => look_spec(Some(Shade::Green), None, true, false, false),
        Style::Bold => look_spec(None, None, true, false, false),
        Style::Italic => look_spec(Some(Shade::Magenta), None, false, true, false),
        Style::Code => look_spec(Some(Shade::Yellow), None, false, false, false),
        Style::Link => look_spec(Some(Shade::Blue), None, false, false, true),
        Style::LinkSelected => look_spec(Some(Shade::Black), Some(Shade::Blue), true, false, false),
        Style::Match => look_spec(Some(Shade::Black), Some(Shade::Yellow), false, false, false),
        Style::MatchCurrent => look_spec(Some(Shade::Black), Some(Shade::Green), true, false, false),
    }
}

/// How a style looks (see `look_of`).
pub fn look(style: Style) -> (r: Look)
    ensures
        r == look_of(style),
{
    let plain = Look { fg: None, bg: None, bold: false, italic: false, underlined: false };
    match style {
        Style::Plain => plain,
        Style::Dim => Look { fg: Some(Shade::DarkGrey), ..plain },
        Style::Title => Look { fg: Some(Shade::Yellow), bold: true, ..plain },
        Style::Heading => Look { fg: Some(Shade::Cyan), bold: true, ..plain },
        Style::Term => Look { fg: Some(Shade::Green), bold: true, ..plain },
        Style::Bold => Look { bold: true, ..plain },
        Style::Italic => Look { fg: Some(Shade::Magenta), italic: true, ..plain },
        Style::Code => Look { fg: Some(Shade::Yellow), ..plain },
        Style::Link => Look { fg: Some(Shade::Blue), underlined: true, ..plain },
        Style::LinkSelected => Look { fg: Some(Shade::Black), bg: Some(Shade::Blue), bold: true, ..plain },
        Style::Match => Look { fg: Some(Shade::Black), bg: Some(Shade::Yellow), ..plain },
        Style::MatchCurrent => Look { fg: Some(Shade::Black), bg: Some(Shade::Green), bold: true, ..plain },
    }
}

} // verus!
