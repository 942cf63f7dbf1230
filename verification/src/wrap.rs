//! Greedy word-wrap of logical lines to a terminal width, and the row on
//! which each link first shows.
use vstd::prelude::*;
use std::collections::HashMap;
use crate::lines::{Word, WordV, LogicalLine, LineV, words_view, lines_view, clone_word};
use crate::text::chars_of;

verus! {

/// How many columns a row of words takes: their characters, and one
/// space between each two.
#[verifier::opaque]
pub open spec fn row_len(r: Seq<WordV>) -> int
    decreases r.len(),
{
    if r.len() == 0 {
        0
    } else if r.len() == 1 {
        r[0].text.len() as int
    } else {
        row_len(r.drop_last()) + 1 + r.last().text.len()
    }
}

/// Greedy filling of rows: the rows closed so far and the row being
/// filled.
pub open spec fn wrap_acc(ws: Seq<WordV>, width: int) -> (Seq<Seq<WordV>>, Seq<WordV>)
    decreases ws.len(),
{
    if ws.len() == 0 {
        (Seq::empty(), Seq::empty())
    } else {
        let (rows, cur) = wrap_acc(ws.drop_last(), width);
        let w = ws.last();
        if cur.len() > 0 && row_len(cur) + 1 + w.text.len() > width {
            (rows.push(cur), seq![w])
        } else {
            (rows, cur.push(w))
        }
    }
}

/// The rows of a run of words wrapped to a width: a row is closed when
/// the next word, after a space, would pass the width, so a word longer
/// than the width gets a row of its own; no words give one empty row.
pub open spec fn wrapped(ws: Seq<WordV>, width: int) -> Seq<Seq<WordV>> {
    let (rows, cur) = wrap_acc(ws, width);
    if cur.len() > 0 {
        rows.push(cur)
    } else {
        seq![Seq::empty()]
    }
}

/// The words of rows, one row after the other.
pub open spec fn flatten(rows: Seq<Seq<WordV>>) -> Seq<WordV>
    decreases rows.len(),
{
    if rows.len() == 0 {
        Seq::empty()
    } else {
        flatten(rows.drop_last()) + rows.last()
    }
}

proof fn lemma_row_len_push(r: Seq<WordV>, w: WordV)
    requires
        r.len() > 0,
    ensures
        row_len(r.push(w)) == row_len(r) + 1 + w.text.len(),
{
    reveal(row_len);
    assert(r.push(w).drop_last() =~= r);
}

/// Every row holds a word, and fits the width unless it holds just one.
pub open spec fn rows_fit(rows: Seq<Seq<WordV>>, width: int) -> bool {
    forall|i: int|
        0 <= i < rows.len() ==> (#[trigger] rows[i]).len() > 0 && (rows[i].len() == 1 || row_len(
            rows[i],
        ) <= width)
}

/// The first word of each row, after a space, would not have fitted on
/// the row before it.
pub open spec fn rows_greedy(rows: Seq<Seq<WordV>>, width: int) -> bool {
    forall|i: int| 0 <= i < rows.len() - 1 ==> #[trigger] row_break(rows, i, width)
}

/// Row `i + 1` starts with a word that, after a space, would not have
/// fitted on row `i`.
pub open spec fn row_break(rows: Seq<Seq<WordV>>, i: int, width: int) -> bool {
    row_len(rows[i]) + 1 + rows[i + 1][0].text.len() > width
}

proof fn lemma_flatten_push(rows: Seq<Seq<WordV>>, r: Seq<WordV>)
    ensures
        flatten(rows.push(r)) == flatten(rows) + r,
{
    assert(rows.push(r).drop_last() =~= rows);
}

proof fn lemma_row_len_short(w: WordV)
    ensures
        row_len(Seq::empty()) == 0,
        row_len(seq![w]) == w.text.len(),
{
    reveal(row_len);
}

proof fn lemma_wrap_acc_words(ws: Seq<WordV>, width: int)
    ensures
        flatten(wrap_acc(ws, width).0) + wrap_acc(ws, width).1 == ws,
        ws.len() > 0 <==> wrap_acc(ws, width).1.len() > 0,
    decreases ws.len(),
{
    if ws.len() > 0 {
        let p = ws.drop_last();
        lemma_wrap_acc_words(p, width);
        let (rows, cur) = wrap_acc(p, width);
        let w = ws.last();
        if cur.len() > 0 && row_len(cur) + 1 + w.text.len() > width {
            lemma_flatten_push(rows, cur);
            assert(flatten(rows.push(cur)) + seq![w] =~= ws);
        } else {
            assert(ws =~= p.push(w));
            assert((flatten(rows) + cur).push(w) =~= flatten(rows) + cur.push(w));
        }
    }
}

proof fn lemma_step_new_row(all: Seq<Seq<WordV>>, w: WordV, width: int)
    requires
        all.len() > 0,
        rows_fit(all, width),
        rows_greedy(all, width),
        row_len(all.last()) + 1 + w.text.len() > width,
    ensures
        rows_fit(all.push(seq![w]), width),
        rows_greedy(all.push(seq![w]), width),
{
    let all2 = all.push(seq![w]);
    assert forall|i: int| 0 <= i < all2.len() implies (#[trigger] all2[i]).len() > 0 && (
    all2[i].len() == 1 || row_len(all2[i]) <= width) by {
        if i < all.len() {
            assert(all2[i] == all[i]);
        }
    }
    assert forall|i: int| 0 <= i < all2.len() - 1 implies #[trigger] row_break(all2, i, width) by {
        assert(all2[i] == all[i]);
        if i < all.len() - 1 {
            assert(row_break(all, i, width));
            assert(all2[i + 1] == all[i + 1]);
        }
    }
}

proof fn lemma_step_same_row(rows: Seq<Seq<WordV>>, cur: Seq<WordV>, w: WordV, width: int)
    requires
        cur.len() > 0,
        rows_fit(rows.push(cur), width),
        rows_greedy(rows.push(cur), width),
        row_len(cur) + 1 + w.text.len() <= width,
    ensures
        rows_fit(rows.push(cur.push(w)), width),
        rows_greedy(rows.push(cur.push(w)), width),
{
    lemma_row_len_push(cur, w);
    let all = rows.push(cur);
    let all2 = rows.push(cur.push(w));
    assert forall|i: int| 0 <= i < all2.len() implies (#[trigger] all2[i]).len() > 0 && (
    all2[i].len() == 1 || row_len(all2[i]) <= width) by {
        if i < rows.len() {
            assert(all2[i] == all[i]);
        }
    }
    assert forall|i: int| 0 <= i < all2.len() - 1 implies #[trigger] row_break(all2, i, width) by {
        assert(row_break(all, i, width));
        assert(all2[i] == all[i]);
        if i + 1 < rows.len() {
            assert(all2[i + 1] == all[i + 1]);
        } else {
            assert(all2[i + 1][0] == all[i + 1][0]);
        }
    }
}

proof fn lemma_wrap_acc_shape(ws: Seq<WordV>, width: int)
    requires
        ws.len() > 0,
    ensures
        wrap_acc(ws, width).1.len() > 0,
        rows_fit(wrap_acc(ws, width).0.push(wrap_acc(ws, width).1), width),
        rows_greedy(wrap_acc(ws, width).0.push(wrap_acc(ws, width).1), width),
    decreases ws.len(),
{
    let p = ws.drop_last();
    let w = ws.last();
    if p.len() == 0 {
        assert(wrap_acc(p, width).1.len() == 0);
        let all = seq![seq![w]];
        assert(wrap_acc(ws, width).0.push(wrap_acc(ws, width).1) =~= all);
        assert(all[0].len() == 1);
    } else {
        lemma_wrap_acc_shape(p, width);
        let (rows, cur) = wrap_acc(p, width);
        if row_len(cur) + 1 + w.text.len() > width {
            lemma_step_new_row(rows.push(cur), w, width);
        } else {
            lemma_step_same_row(rows, cur, w, width);
        }
    }
}

/// Wrapping loses no word, adds none and keeps their order.
pub proof fn law_wrap_keeps_words(ws: Seq<WordV>, width: int)
    ensures
        flatten(wrapped(ws, width)) == ws,
{
    lemma_wrap_acc_words(ws, width);
    let (rows, cur) = wrap_acc(ws, width);
    if cur.len() > 0 {
        lemma_flatten_push(rows, cur);
    } else {
        lemma_flatten_push(Seq::empty(), Seq::empty());
        assert(Seq::<Seq<WordV>>::empty().push(Seq::<WordV>::empty()) =~= seq![Seq::<WordV>::empty()]);
    }
}

/// Every row fits the width unless it holds a single word, and the rows
/// are filled greedily; with no words there is one empty row.
pub proof fn law_wrap_fits(ws: Seq<WordV>, width: int)
    ensures
        ws.len() > 0 ==> rows_fit(wrapped(ws, width), width) && rows_greedy(wrapped(ws, width), width),
        ws.len() == 0 ==> wrapped(ws, width) == seq![Seq::<WordV>::empty()],
{
    lemma_wrap_acc_words(ws, width);
    if ws.len() > 0 {
        lemma_wrap_acc_shape(ws, width);
    }
}

/// The view of rows of words.
pub open spec fn word_rows_view(v: Seq<Vec<Word>>) -> Seq<Seq<WordV>> {
    v.map_values(|r: Vec<Word>| words_view(r@))
}

/// Wraps words to a width (see `wrapped`).
pub fn wrap_words(words: &Vec<Word>, width: usize) -> (r: Vec<Vec<Word>>)
    ensures
        word_rows_view(r@) == wrapped(words_view(words@), width as int),
{
    let ghost ws = words_view(words@);
    let mut lines: Vec<Vec<Word>> = Vec::new();
    let mut cur: Vec<Word> = Vec::new();
    let mut cur_len: usize = 0;
    let mut i: usize = 0;
    proof {
        lemma_row_len_short(WordV { text: Seq::empty(), style: crate::lines::Style::Plain, link: None });
    }
    assert(ws.take(0) =~= Seq::<WordV>::empty());
    assert(word_rows_view(lines@) =~= Seq::<Seq<WordV>>::empty());
    assert(words_view(cur@) =~= Seq::<WordV>::empty());
    while i < words.len()
        invariant
            i <= words.len(),
            ws == words_view(words@),
            (word_rows_view(lines@), words_view(cur@)) == wrap_acc(ws.take(i as int), width as int),
            cur_len == row_len(words_view(cur@)),
            cur.len() <= 1 || cur_len <= width,
        decreases words.len() - i,
    {
        let w = &words[i];
        let wlen = chars_of(w.text.as_str()).len();
        let ghost pre = ws.take(i as int);
        assert(ws.take(i + 1).drop_last() =~= pre);
        assert(ws.take(i + 1).last() == w@);
        if cur.len() > 0 && (cur_len >= width || wlen >= width - cur_len) {
            let ghost lv = lines@;
            let full = cur;
            lines.push(full);
            assert(word_rows_view(lines@) =~= word_rows_view(lv).push(words_view(full@)));
            cur = Vec::new();
            cur_len = 0;
        }
        let ghost cv = words_view(cur@);
        if cur.len() > 0 {
            proof {
                lemma_row_len_push(cv, w@);
            }
            cur_len = cur_len + 1 + wlen;
        } else {
            proof {
                lemma_row_len_short(w@);
                assert(cv.push(w@) =~= seq![w@]);
            }
            cur_len = wlen;
        }
        cur.push(clone_word(w));
        assert(words_view(cur@) =~= cv.push(w@));
        i = i + 1;
    }
    assert(ws.take(words.len() as int) =~= ws);
    proof {
        lemma_wrap_acc_words(ws, width as int);
    }
    if cur.len() > 0 {
        let ghost lv = lines@;
        lines.push(cur);
        assert(word_rows_view(lines@) =~= word_rows_view(lv).push(words_view(cur@)));
    } else {
        let e: Vec<Word> = Vec::new();
        let ghost lv = lines@;
        lines.push(e);
        assert(word_rows_view(lv).len() == 0);
        assert(words_view(e@) =~= Seq::<WordV>::empty());
        assert(word_rows_view(lines@) =~= seq![words_view(e@)]);
    }
    lines
}

/// One row on screen: an indent depth and the words shown on it.
#[derive(Debug)]
pub struct VisualLine {
    pub indent: usize,
    pub words: Vec<Word>,
}

pub struct RowV {
    pub indent: int,
    pub words: Seq<WordV>,
}

impl View for VisualLine {
    type V = RowV;

    open spec fn view(&self) -> RowV {
        RowV { indent: self.indent as int, words: words_view(self.words@) }
    }
}

pub open spec fn rows_view(v: Seq<VisualLine>) -> Seq<RowV> {
    v.map_values(|r: VisualLine| r@)
}

/// The width a line at an indent depth is wrapped to: what the indent
/// (two columns a step) leaves of the terminal, but never under ten.
pub open spec fn wrap_width(cols: int, indent: int) -> int {
    if cols - 2 * indent >= 10 {
        cols - 2 * indent
    } else {
        10
    }
}

/// The rows of one logical line: its wrapped words at its indent, then a
/// blank row when it asks for one.
pub open spec fn line_rows(l: LineV, cols: int) -> Seq<RowV> {
    wrapped(l.words, wrap_width(cols, l.indent)).map_values(
        |r: Seq<WordV>| RowV { indent: l.indent, words: r },
    ) + (if l.spacer_after {
        seq![RowV { indent: 0, words: Seq::empty() }]
    } else {
        Seq::empty()
    })
}

/// The rows of all logical lines, in order.
pub open spec fn visual_rows(lines: Seq<LineV>, cols: int) -> Seq<RowV>
    decreases lines.len(),
{
    if lines.len() == 0 {
        Seq::empty()
    } else {
        visual_rows(lines.drop_last(), cols) + line_rows(lines.last(), cols)
    }
}

/// Some word of the row belongs to link `k`.
pub open spec fn row_links_to(r: RowV, k: usize) -> bool {
    exists|j: int| 0 <= j < r.words.len() && (#[trigger] r.words[j]).link == Some(k)
}

/// `m` sends each link that shows on some row to the first such row,
/// and holds no other link.
pub open spec fn first_link_rows(m: Map<usize, usize>, rows: Seq<RowV>) -> bool {
    &&& forall|k: usize|
        #[trigger] m.contains_key(k) <==> exists|i: int|
            0 <= i < rows.len() && row_links_to(#[trigger] rows[i], k)
    &&& forall|k: usize|
        #[trigger] m.contains_key(k) ==> m[k] < rows.len() && row_links_to(rows[m[k] as int], k)
            && forall|i: int| 0 <= i < m[k] ==> !row_links_to(#[trigger] rows[i], k)
}

/// The first row on which link `k` shows.
pub open spec fn first_row_of(rows: Seq<RowV>, k: usize) -> int {
    choose|i: int|
        0 <= i < rows.len() && row_links_to(rows[i], k) && forall|j: int|
            0 <= j < i ==> !row_links_to(#[trigger] rows[j], k)
}

/// Each link that shows on some row, sent to the first such row.
pub open spec fn link_row_map(rows: Seq<RowV>) -> Map<usize, usize> {
    Map::new(
        |k: usize| exists|i: int| 0 <= i < rows.len() && row_links_to(#[trigger] rows[i], k),
        |k: usize| first_row_of(rows, k) as usize,
    )
}

/// A map that sends each link to its first row is that map.
pub proof fn lemma_first_link_rows_unique(m: Map<usize, usize>, rows: Seq<RowV>)
    requires
        first_link_rows(m, rows),
    ensures
        m == link_row_map(rows),
{
    let lm = link_row_map(rows);
    assert(m.dom() =~= lm.dom());
    assert forall|k: usize| #[trigger] m.contains_key(k) implies m[k] == lm[k] by {
        let i = m[k] as int;
        assert(0 <= i < rows.len() && row_links_to(rows[i], k) && forall|j: int|
            0 <= j < i ==> !row_links_to(#[trigger] rows[j], k));
        let c = first_row_of(rows, k);
        if c < i {
            assert(!row_links_to(rows[c], k));
        }
        if i < c {
            assert(!row_links_to(rows[i], k));
        }
        assert(c == i);
    }
    assert(m =~= lm);
}

/// Adds a row, and records it for each link that shows on it for the
/// first time.
fn push_row(
    out: &mut Vec<VisualLine>,
    link_rows: &mut HashMap<usize, usize>,
    indent: usize,
    words: Vec<Word>,
)
    requires
        first_link_rows(old(link_rows)@, rows_view(old(out)@)),
    ensures
        rows_view(final(out)@) == rows_view(old(out)@).push(
            RowV { indent: indent as int, words: words_view(words@) },
        ),
        first_link_rows(final(link_rows)@, rows_view(final(out)@)),
{
    broadcast use vstd::std_specs::hash::group_hash_axioms;

    let row = out.len();
    let ghost rows0 = rows_view(out@);
    let ghost wv = words_view(words@);
    let mut j: usize = 0;
    proof {
        let r0 = RowV { indent: indent as int, words: wv.take(0) };
        lemma_first_rows_push_blank(link_rows@, rows0, r0);
    }
    while j < words.len()
        invariant
            j <= words.len(),
            row == rows0.len(),
            wv == words_view(words@),
            first_link_rows(
                link_rows@,
                rows0.push(RowV { indent: indent as int, words: wv.take(j as int) }),
            ),
        decreases words.len() - j,
    {
        let ghost m0 = link_rows@;
        let ghost before = rows0.push(RowV { indent: indent as int, words: wv.take(j as int) });
        let ghost after = rows0.push(RowV { indent: indent as int, words: wv.take(j + 1) });
        match words[j].link {
            Some(idx) => {
                if !link_rows.contains_key(&idx) {
                    link_rows.insert(idx, row);
                }
            },
            None => {},
        }
        proof {
            assert forall|k: usize| row_links_to(after[row as int], k) <==> row_links_to(
                before[row as int],
                k,
            ) || wv[j as int].link == Some(k) by {
                let a = after[row as int].words;
                let b = before[row as int].words;
                assert(a =~= b.push(wv[j as int]));
                if row_links_to(after[row as int], k) {
                    let jj = choose|jj: int| 0 <= jj < a.len() && (#[trigger] a[jj]).link == Some(k);
                    if jj < b.len() {
                        assert(b[jj] == a[jj]);
                    }
                }
                if row_links_to(before[row as int], k) {
                    let jj = choose|jj: int| 0 <= jj < b.len() && (#[trigger] b[jj]).link == Some(k);
                    assert(a[jj] == b[jj]);
                }
                if wv[j as int].link == Some(k) {
                    assert(a[j as int] == wv[j as int]);
                }
            }
            assert forall|i: int| 0 <= i < row implies #[trigger] after[i] == before[i] by {}
            lemma_first_rows_step(m0, link_rows@, before, after, wv[j as int].link, row);
        }
        j = j + 1;
    }
    let ghost ob = out@;
    out.push(VisualLine { indent, words });
    proof {
        assert(wv.take(wv.len() as int) =~= wv);
        assert(rows_view(out@) =~= rows0.push(RowV { indent: indent as int, words: wv }));
    }
}

proof fn lemma_first_rows_push_blank(m: Map<usize, usize>, rows: Seq<RowV>, r: RowV)
    requires
        first_link_rows(m, rows),
        r.words.len() == 0,
    ensures
        first_link_rows(m, rows.push(r)),
{
    let all = rows.push(r);
    assert forall|k: usize| #[trigger] m.contains_key(k) <==> exists|i: int|
        0 <= i < all.len() && row_links_to(#[trigger] all[i], k) by {
        if m.contains_key(k) {
            let i = choose|i: int| 0 <= i < rows.len() && row_links_to(#[trigger] rows[i], k);
            assert(all[i] == rows[i]);
        }
        if exists|i: int| 0 <= i < all.len() && row_links_to(#[trigger] all[i], k) {
            let i = choose|i: int| 0 <= i < all.len() && row_links_to(#[trigger] all[i], k);
            if i < rows.len() {
                assert(all[i] == rows[i]);
            } else {
                assert(all[i] == r);
            }
        }
    }
    assert forall|k: usize| #[trigger] m.contains_key(k) implies m[k] < all.len() && row_links_to(
        all[m[k] as int],
        k,
    ) && forall|i: int| 0 <= i < m[k] ==> !row_links_to(#[trigger] all[i], k) by {
        assert(all[m[k] as int] == rows[m[k] as int]);
        assert forall|i: int| 0 <= i < m[k] implies !row_links_to(#[trigger] all[i], k) by {
            assert(all[i] == rows[i]);
        }
    }
}

proof fn lemma_first_rows_step(
    m0: Map<usize, usize>,
    m1: Map<usize, usize>,
    before: Seq<RowV>,
    after: Seq<RowV>,
    link: Option<usize>,
    row: usize,
)
    requires
        before.len() == after.len(),
        before.len() == row + 1,
        first_link_rows(m0, before),
        forall|i: int| 0 <= i < before.len() - 1 ==> #[trigger] after[i] == before[i],
        forall|k: usize|
            row_links_to(after[after.len() - 1], k) <==> row_links_to(before[before.len() - 1], k)
                || link == Some(k),
        match link {
            Some(idx) => if m0.contains_key(idx) {
                m1 == m0
            } else {
                m1 == m0.insert(idx, row)
            },
            None => m1 == m0,
        },
    ensures
        first_link_rows(m1, after),
{
    let last = before.len() - 1;
    assert forall|k: usize| #[trigger] m1.contains_key(k) <==> exists|i: int|
        0 <= i < after.len() && row_links_to(#[trigger] after[i], k) by {
        if m1.contains_key(k) {
            if m0.contains_key(k) {
                let i = choose|i: int| 0 <= i < before.len() && row_links_to(#[trigger] before[i], k);
                if i < last {
                    assert(after[i] == before[i]);
                }
                assert(row_links_to(after[i], k));
            } else {
                assert(row_links_to(after[last], k));
            }
        }
        if exists|i: int| 0 <= i < after.len() && row_links_to(#[trigger] after[i], k) {
            let i = choose|i: int| 0 <= i < after.len() && row_links_to(#[trigger] after[i], k);
            if i < last {
                assert(after[i] == before[i]);
                assert(row_links_to(before[i], k));
            } else if row_links_to(before[last], k) {
                assert(m0.contains_key(k));
            }
        }
    }
    assert forall|k: usize| #[trigger] m1.contains_key(k) implies m1[k] < after.len()
        && row_links_to(after[m1[k] as int], k) && forall|i: int|
        0 <= i < m1[k] ==> !row_links_to(#[trigger] after[i], k) by {
        if m0.contains_key(k) {
            assert(m1[k] == m0[k]);
            if (m0[k] as int) < last {
                assert(after[m0[k] as int] == before[m0[k] as int]);
            }
            assert forall|i: int| 0 <= i < m1[k] implies !row_links_to(#[trigger] after[i], k) by {
                assert(after[i] == before[i]);
            }
        } else {
            match link {
                Some(idx) => {
                    assert(idx == k);
                },
                None => {},
            }
            assert(m1[k] == last);
            assert forall|i: int| 0 <= i < m1[k] implies !row_links_to(#[trigger] after[i], k) by {
                assert(after[i] == before[i]);
                if row_links_to(before[i], k) {
                    assert(m0.contains_key(k));
                }
            }
        }
    }
}

/// The rows of wrapped words at one indent.
pub open spec fn indented_rows(rows: Seq<Seq<WordV>>, indent: int) -> Seq<RowV> {
    rows.map_values(|r: Seq<WordV>| RowV { indent, words: r })
}

/// Wraps every logical line to the terminal width, and records the first
/// row on which each link shows (so the pager can scroll straight to it).
pub fn wrap_all(logical: &Vec<LogicalLine>, cols: u16) -> (r: (Vec<VisualLine>, HashMap<usize, usize>))
    ensures
        rows_view(r.0@) == visual_rows(lines_view(logical@), cols as int),
        first_link_rows(r.1@, rows_view(r.0@)),
        r.1@ == link_row_map(rows_view(r.0@)),
{
    let mut out: Vec<VisualLine> = Vec::new();
    let mut link_rows: HashMap<usize, usize> = HashMap::new();
    let ghost lv = lines_view(logical@);
    let c = cols as usize;
    let mut i: usize = 0;
    assert(rows_view(out@) =~= Seq::<RowV>::empty());
    assert(lv.take(0) =~= Seq::<LineV>::empty());
    while i < logical.len()
        invariant
            i <= logical.len(),
            c == cols,
            lv == lines_view(logical@),
            rows_view(out@) == visual_rows(lv.take(i as int), cols as int),
            first_link_rows(link_rows@, rows_view(out@)),
        decreases logical.len() - i,
    {
        let line = &logical[i];
        let ghost l = lv[i as int];
        assert(l == line@);
        assert(lv.take(i + 1).drop_last() =~= lv.take(i as int));
        let width: usize = if line.indent <= c / 2 {
            let w = c - 2 * line.indent;
            if w >= 10 {
                w
            } else {
                10
            }
        } else {
            10
        };
        assert(width == wrap_width(cols as int, l.indent));
        let ghost before = rows_view(out@);
        let ghost wr = wrapped(l.words, width as int);
        if line.words.len() == 0 {
            proof {
                law_wrap_fits(l.words, width as int);
            }
            let e: Vec<Word> = Vec::new();
            assert(words_view(e@) =~= Seq::<WordV>::empty());
            push_row(&mut out, &mut link_rows, line.indent, e);
            assert(indented_rows(wr, l.indent) =~= seq![RowV { indent: l.indent, words: Seq::empty() }]);
            assert(rows_view(out@) =~= before + indented_rows(wr, l.indent));
        } else {
            let rows = wrap_words(&line.words, width);
            let ghost rs = rows@;
            assert(word_rows_view(rs) == wr);
            assert(rows_view(out@) =~= before + indented_rows(wr, l.indent).take(0));
            for row in it: rows.into_iter()
                invariant
                    it.seq() == rs,
                    word_rows_view(rs) == wr,
                    line.indent == l.indent,
                    rows_view(out@) == before + indented_rows(wr, l.indent).take(it.index() as int),
                    first_link_rows(link_rows@, rows_view(out@)),
            {
                let ghost k = it.index();
                let ghost ob = rows_view(out@);
                assert(row == rs[k as int]);
                assert(words_view(row@) == wr[k as int]);
                push_row(&mut out, &mut link_rows, line.indent, row);
                assert(indented_rows(wr, l.indent).take(k + 1) =~= indented_rows(wr, l.indent).take(
                    k as int,
                ).push(RowV { indent: l.indent, words: wr[k as int] }));
                assert(rows_view(out@) =~= before + indented_rows(wr, l.indent).take(k + 1));
            }
            assert(indented_rows(wr, l.indent).take(rs.len() as int) =~= indented_rows(wr, l.indent));
        }
        let ghost mid = rows_view(out@);
        if line.spacer_after {
            let e: Vec<Word> = Vec::new();
            assert(words_view(e@) =~= Seq::<WordV>::empty());
            push_row(&mut out, &mut link_rows, 0, e);
            assert(rows_view(out@) =~= mid + seq![RowV { indent: 0, words: Seq::empty() }]);
        } else {
            assert(mid + Seq::<RowV>::empty() =~= mid);
        }
        assert(line_rows(l, cols as int) == indented_rows(wr, l.indent) + (if l.spacer_after {
            seq![RowV { indent: 0, words: Seq::empty() }]
        } else {
            Seq::empty()
        }));
        assert(rows_view(out@) =~= before + line_rows(l, cols as int));
        i = i + 1;
    }
    assert(lv.take(logical.len() as int) =~= lv);
    proof {
        lemma_first_link_rows_unique(link_rows@, rows_view(out@));
    }
    (out, link_rows)
}

} // verus!
