//! Flag extraction: every flag/option a page documents in its definition
//! lists, e.g. "-a, --all" in ls(1) becomes two entries, "-a" and "--all",
//! both pointing at ls/1 with the same description.
use vstd::prelude::*;
use crate::document::{Block, BlockM, DefItem, DefItemM, Document, Span, SpanM, spans_view, blocks_model, items_model, lemma_blocks_model, lemma_items_model};
use crate::text::{chars_of, string_of, trim_chars, trimmed, trim_start, trim_end, is_ws, push_char};

verus! {

/// One flag/option found in some man page's definition list.
#[derive(Debug, Clone)]
pub struct FlagEntry {
    pub flag: String,
    pub name: String,
    pub section: String,
    pub description: String,
}

pub struct FlagEntryV {
    pub flag: Seq<char>,
    pub name: Seq<char>,
    pub section: Seq<char>,
    pub description: Seq<char>,
}

impl View for FlagEntry {
    type V = FlagEntryV;

    open spec fn view(&self) -> FlagEntryV {
        FlagEntryV {
            flag: self.flag@,
            name: self.name@,
            section: self.section@,
            description: self.description@,
        }
    }
}

pub open spec fn flags_view(s: Seq<FlagEntry>) -> Seq<FlagEntryV> {
    s.map_values(|e: FlagEntry| e@)
}

/// The text of a run of spans, styles dropped.
pub open spec fn plain(spans: Seq<SpanM>) -> Seq<char>
    decreases spans.len(),
{
    if spans.len() == 0 {
        Seq::empty()
    } else {
        plain(spans.drop_last()) + spans.last().text()
    }
}

/// At most `max` characters of `s`; when it is longer, its first `max`
/// characters followed by an ellipsis.
pub open spec fn truncated(s: Seq<char>, max: nat) -> Seq<char> {
    if s.len() <= max {
        s
    } else {
        s.take(max as int).push('\u{2026}')
    }
}

/// The longest description kept for a flag, in characters.
pub const DESCRIPTION_CHARS: usize = 100;

/// The text of the first paragraph with some text.
pub open spec fn first_para(bs: Seq<BlockM>) -> Option<Seq<char>>
    decreases bs.len(),
{
    if bs.len() == 0 {
        None
    } else {
        match first_para(bs.drop_last()) {
            Some(t) => Some(t),
            None => match bs.last() {
                BlockM::Paragraph(sp) => if plain(sp).len() > 0 {
                    Some(plain(sp))
                } else {
                    None
                },
                _ => None,
            },
        }
    }
}

/// A flag's description: its first paragraph, truncated, or nothing.
pub open spec fn description_of(body: Seq<BlockM>) -> Seq<char> {
    match first_para(body) {
        Some(t) => truncated(t, DESCRIPTION_CHARS as nat),
        None => Seq::empty(),
    }
}

/// The comma-separated pieces of a text (`str::split(',')`: always at
/// least one piece).
pub open spec fn split_commas(s: Seq<char>) -> Seq<Seq<char>>
    decreases s.len(),
{
    if s.len() == 0 {
        seq![Seq::empty()]
    } else {
        let w = split_commas(s.drop_last());
        if s.last() == ',' {
            w.push(Seq::empty())
        } else {
            w.update(w.len() - 1, w.last().push(s.last()))
        }
    }
}

/// One entry per non-blank comma-separated piece of a term.
pub open spec fn entries_of_pieces(
    ps: Seq<Seq<char>>,
    desc: Seq<char>,
    name: Seq<char>,
    section: Seq<char>,
) -> Seq<FlagEntryV>
    decreases ps.len(),
{
    if ps.len() == 0 {
        Seq::empty()
    } else {
        let f = trimmed(ps.last());
        entries_of_pieces(ps.drop_last(), desc, name, section) + (if f.len() > 0 {
            seq![FlagEntryV { flag: f, name, section, description: desc }]
        } else {
            Seq::empty()
        })
    }
}

/// The flags of a run of blocks.
pub open spec fn flags_blocks(bs: Seq<BlockM>, name: Seq<char>, section: Seq<char>) -> Seq<
    FlagEntryV,
>
    decreases bs,
{
    if bs.len() == 0 {
        Seq::empty()
    } else {
        flags_blocks(bs.drop_last(), name, section) + flags_block(bs.last(), name, section)
    }
}

/// The flags of one block: definition lists, also nested in indents.
pub open spec fn flags_block(b: BlockM, name: Seq<char>, section: Seq<char>) -> Seq<FlagEntryV>
    decreases b,
{
    match b {
        BlockM::DefList(items) => flags_items(items, name, section),
        BlockM::Indent(inner) => flags_blocks(inner, name, section),
        _ => Seq::empty(),
    }
}

pub open spec fn flags_items(items: Seq<DefItemM>, name: Seq<char>, section: Seq<char>) -> Seq<
    FlagEntryV,
>
    decreases items,
{
    if items.len() == 0 {
        Seq::empty()
    } else {
        flags_items(items.drop_last(), name, section) + flags_item(items.last(), name, section)
    }
}

/// One entry per comma-separated flag of the term, then the flags of
/// definition lists nested in the body.
pub open spec fn flags_item(it: DefItemM, name: Seq<char>, section: Seq<char>) -> Seq<FlagEntryV>
    decreases it,
{
    entries_of_pieces(split_commas(plain(it.term)), description_of(it.body), name, section)
        + flags_blocks(it.body, name, section)
}

/// The flags of a whole page.
pub open spec fn flags_of_sections(secs: Seq<crate::document::SectionM>, name: Seq<char>, section: Seq<char>) -> Seq<FlagEntryV>
    decreases secs.len(),
{
    if secs.len() == 0 {
        Seq::empty()
    } else {
        flags_of_sections(secs.drop_last(), name, section) + flags_blocks(secs.last().blocks, name, section)
    }
}

/// The text of a run of spans, styles dropped.
pub fn plain_text(spans: &Vec<Span>) -> (r: String)
    ensures
        r@ == plain(spans_view(spans@)),
{
    let ghost sv = spans_view(spans@);
    let mut r = String::new();
    let mut i: usize = 0;
    while i < spans.len()
        invariant
            i <= spans.len(),
            sv == spans_view(spans@),
            r@ == plain(sv.take(i as int)),
        decreases spans.len() - i,
    {
        assert(sv.take(i + 1).drop_last() =~= sv.take(i as int));
        r.append(spans[i].plain_text());
        i = i + 1;
    }
    assert(sv.take(spans.len() as int) =~= sv);
    r
}

/// At most `max_chars` characters of `s`, with an ellipsis when cut.
pub fn truncate(s: &str, max_chars: usize) -> (r: String)
    ensures
        r@ == truncated(s@, max_chars as nat),
{
    let cs = chars_of(s);
    if cs.len() <= max_chars {
        return string_of(&cs);
    }
    let mut head = crate::links::slice_range(&cs, 0, max_chars);
    head.push('\u{2026}');
    string_of(&head)
}

/// The description of a flag: the first paragraph of its body that has
/// some text, truncated.
pub fn first_paragraph_text(blocks: &Vec<Block>) -> (r: String)
    ensures
        r@ == description_of(blocks_model(blocks@)),
{
    let ghost bm = blocks_model(blocks@);
    proof {
        lemma_blocks_model(blocks@);
    }
    let mut i: usize = 0;
    while i < blocks.len()
        invariant
            i <= blocks.len(),
            bm == blocks_model(blocks@),
            bm.len() == blocks.len(),
            forall|j: int| 0 <= j < blocks.len() ==> #[trigger] bm[j] == blocks@[j]@,
            first_para(bm.take(i as int)) is None,
        decreases blocks.len() - i,
    {
        assert(bm.take(i + 1).drop_last() =~= bm.take(i as int));
        assert(bm.take(i + 1).last() == blocks@[i as int]@);
        match &blocks[i] {
            Block::Paragraph(spans) => {
                let text = plain_text(spans);
                if text.as_str().unicode_len() > 0 {
                    proof {
                        lemma_first_para_extend(bm, i as int + 1);
                    }
                    return truncate(text.as_str(), DESCRIPTION_CHARS);
                }
            },
            _ => {},
        }
        i = i + 1;
    }
    assert(bm.take(blocks.len() as int) =~= bm);
    String::new()
}

proof fn lemma_first_para_extend(bs: Seq<BlockM>, i: int)
    requires
        0 <= i <= bs.len(),
        first_para(bs.take(i)) is Some,
    ensures
        first_para(bs) == first_para(bs.take(i)),
    decreases bs.len() - i,
{
    if i < bs.len() {
        assert(bs.take(i + 1).drop_last() =~= bs.take(i));
        lemma_first_para_extend(bs, i + 1);
    } else {
        assert(bs.take(i) =~= bs);
    }
}

fn push_flag(out: &mut Vec<FlagEntry>, e: FlagEntry)
    ensures
        flags_view(final(out)@) == flags_view(old(out)@).push(e@),
{
    let ghost o = out@;
    out.push(e);
    assert(flags_view(out@) =~= flags_view(o).push(e@));
}

/// Appends one entry per non-blank comma-separated piece of a term.
fn collect_term_flags(
    term: &Vec<char>,
    description: &String,
    name: &str,
    section: &str,
    out: &mut Vec<FlagEntry>,
)
    ensures
        flags_view(final(out)@) == flags_view(old(out)@) + entries_of_pieces(
            split_commas(term@),
            description@,
            name@,
            section@,
        ),
{
    let ghost o = flags_view(out@);
    let mut piece: Vec<char> = Vec::new();
    let mut i: usize = 0;
    while i < term.len()
        invariant
            i <= term.len(),
            split_commas(term@.take(i as int)).len() > 0,
            piece@ == split_commas(term@.take(i as int)).last(),
            flags_view(out@) == o + entries_of_pieces(
                split_commas(term@.take(i as int)).drop_last(),
                description@,
                name@,
                section@,
            ),
        decreases term.len() - i,
    {
        let ghost w = split_commas(term@.take(i as int));
        assert(term@.take(i + 1).drop_last() =~= term@.take(i as int));
        if term[i] == ',' {
            let f = trim_chars(&piece);
            if f.len() > 0 {
                push_flag(
                    out,
                    FlagEntry {
                        flag: string_of(&f),
                        name: name.to_owned(),
                        section: section.to_owned(),
                        description: description.clone(),
                    },
                );
            }
            piece = Vec::new();
            assert(split_commas(term@.take(i + 1)).drop_last() =~= w);
            assert(flags_view(out@) =~= o + entries_of_pieces(w, description@, name@, section@));
        } else {
            piece.push(term[i]);
            assert(split_commas(term@.take(i + 1)).drop_last() =~= w.drop_last());
        }
        i = i + 1;
    }
    assert(term@.take(term.len() as int) =~= term@);
    let ghost w = split_commas(term@);
    let f = trim_chars(&piece);
    if f.len() > 0 {
        push_flag(
            out,
            FlagEntry {
                flag: string_of(&f),
                name: name.to_owned(),
                section: section.to_owned(),
                description: description.clone(),
            },
        );
    }
    assert(w.drop_last().push(w.last()) =~= w);
    assert(flags_view(out@) =~= o + entries_of_pieces(w, description@, name@, section@));
}

/// Appends the flags of a run of blocks.
pub fn collect_flags_blocks(blocks: &Vec<Block>, name: &str, section: &str, out: &mut Vec<FlagEntry>)
    ensures
        flags_view(final(out)@) == flags_view(old(out)@) + flags_blocks(
            blocks_model(blocks@),
            name@,
            section@,
        ),
    decreases blocks,
{
    let ghost bm = blocks_model(blocks@);
    let ghost o = flags_view(out@);
    proof {
        lemma_blocks_model(blocks@);
    }
    let mut i: usize = 0;
    assert(flags_view(out@) =~= o + flags_blocks(bm.take(0), name@, section@));
    while i < blocks.len()
        invariant
            i <= blocks.len(),
            bm == blocks_model(blocks@),
            bm.len() == blocks.len(),
            forall|j: int| 0 <= j < blocks.len() ==> #[trigger] bm[j] == blocks@[j]@,
            flags_view(out@) == o + flags_blocks(bm.take(i as int), name@, section@),
        decreases blocks.len() - i,
    {
        assert(bm.take(i + 1).drop_last() =~= bm.take(i as int));
        assert(bm.take(i + 1).last() == blocks@[i as int]@);
        let ghost mid = flags_view(out@);
        let ghost bi = flags_block(blocks@[i as int]@, name@, section@);
        match &blocks[i] {
            Block::DefList(items) => {
                assert(bi == flags_items(items_model(items@), name@, section@));
                collect_defitems(items, name, section, out);
            },
            Block::Indent(inner) => {
                assert(bi == flags_blocks(blocks_model(inner@), name@, section@));
                collect_flags_blocks(inner, name, section, out);
            },
            _ => {
                assert(bi == Seq::<FlagEntryV>::empty());
                assert(flags_view(out@) =~= mid + Seq::<FlagEntryV>::empty());
            },
        }
        assert(flags_view(out@) == mid + bi);
        i = i + 1;
        assert(flags_view(out@) =~= o + flags_blocks(bm.take(i as int), name@, section@));
    }
    assert(bm.take(blocks.len() as int) =~= bm);
}

/// Appends the flags of the items of a definition list.
pub fn collect_defitems(items: &Vec<DefItem>, name: &str, section: &str, out: &mut Vec<FlagEntry>)
    ensures
        flags_view(final(out)@) == flags_view(old(out)@) + flags_items(
            items_model(items@),
            name@,
            section@,
        ),
    decreases items,
{
    let ghost im = items_model(items@);
    let ghost o = flags_view(out@);
    proof {
        lemma_items_model(items@);
    }
    let mut i: usize = 0;
    assert(flags_view(out@) =~= o + flags_items(im.take(0), name@, section@));
    while i < items.len()
        invariant
            i <= items.len(),
            im == items_model(items@),
            im.len() == items.len(),
            forall|j: int| 0 <= j < items.len() ==> #[trigger] im[j] == items@[j]@,
            flags_view(out@) == o + flags_items(im.take(i as int), name@, section@),
        decreases items.len() - i,
    {
        assert(im.take(i + 1).drop_last() =~= im.take(i as int));
        assert(im.take(i + 1).last() == items@[i as int]@);
        let item = &items[i];
        let term_text = plain_text(&item.term);
        let description = first_paragraph_text(&item.body);
        let tc = chars_of(term_text.as_str());
        let ghost mid = flags_view(out@);
        collect_term_flags(&tc, &description, name, section, out);
        collect_flags_blocks(&item.body, name, section, out);
        assert(flags_item(items@[i as int]@, name@, section@) == entries_of_pieces(
            split_commas(tc@),
            description@,
            name@,
            section@,
        ) + flags_blocks(blocks_model(item.body@), name@, section@));
        assert(flags_view(out@) =~= mid + flags_item(items@[i as int]@, name@, section@));
        i = i + 1;
        assert(flags_view(out@) =~= o + flags_items(im.take(i as int), name@, section@));
    }
    assert(im.take(items.len() as int) =~= im);
}

/// Appends every flag a page documents, with the page's name and section.
pub fn collect_flags(doc: &Document, name: &str, section: &str, out: &mut Vec<FlagEntry>)
    ensures
        flags_view(final(out)@) == flags_view(old(out)@) + flags_of_sections(
            doc@.sections,
            name@,
            section@,
        ),
{
    let ghost secs = doc@.sections;
    let ghost o = flags_view(out@);
    let mut i: usize = 0;
    assert(flags_view(out@) =~= o + flags_of_sections(secs.take(0), name@, section@));
    while i < doc.sections.len()
        invariant
            i <= doc.sections.len(),
            secs == doc@.sections,
            secs.len() == doc.sections.len(),
            flags_view(out@) == o + flags_of_sections(secs.take(i as int), name@, section@),
        decreases doc.sections.len() - i,
    {
        assert(secs.take(i + 1).drop_last() =~= secs.take(i as int));
        assert(secs[i as int] == doc.sections@[i as int]@);
        collect_flags_blocks(&doc.sections[i].blocks, name, section, out);
        i = i + 1;
        assert(flags_view(out@) =~= o + flags_of_sections(secs.take(i as int), name@, section@));
    }
    assert(secs.take(doc.sections.len() as int) =~= secs);
}

/// The chunk length that spreads `len` items over `n` workers:
/// `len / n` rounded up.
pub open spec fn chunk_len(len: int, n: int) -> int {
    if n <= 0 || len <= 0 {
        len
    } else {
        (len + n - 1) / n
    }
}

/// A chunk of `items[start..end]` holds clones of those items.
pub open spec fn clones_range<T: Clone>(items: Seq<T>, chunk: Seq<T>, start: int) -> bool {
    forall|j: int| 0 <= j < chunk.len() ==> cloned::<T>(items[start + j], #[trigger] chunk[j])
}

proof fn lemma_mul_step(k: int, size: int)
    ensures
        (k + 1) * size == k * size + size,
{
    assert((k + 1) * size == k * size + size) by (nonlinear_arith);
}

proof fn lemma_chunk_len(len: int, n: int)
    requires
        len > 0,
        n > 0,
    ensures
        chunk_len(len, n) >= 1,
        chunk_len(len, n) <= len,
        n * chunk_len(len, n) >= len,
{
    let c = (len + n - 1) / n;
    assert(c * n <= len + n - 1 && len + n - 1 < c * n + n) by (nonlinear_arith)
        requires
            c == (len + n - 1) / n,
            n > 0,
    ;
    assert(c >= 1) by (nonlinear_arith)
        requires
            c * n + n > len + n - 1,
            len > 0,
            n > 0,
    ;
    assert(c <= len) by (nonlinear_arith)
        requires
            c * n <= len + n - 1,
            n > 0,
            len > 0,
            c >= 1,
    ;
    assert(n * c >= len) by (nonlinear_arith)
        requires
            c * n + n > len + n - 1,
    ;
}

/// `r` splits `items` into at most `n` consecutive chunks of
/// `chunk_len` items (the last possibly shorter), each a clone of its
/// range of items.
pub open spec fn even_chunks<T: Clone>(items: Seq<T>, r: Seq<Seq<T>>, n: int) -> bool {
    let size = chunk_len(items.len() as int, n);
    &&& r.len() <= n
    &&& r.len() * size >= items.len()
    &&& forall|k: int|
        0 <= k < r.len() ==> {
            &&& (#[trigger] r[k]).len() > 0
            &&& r[k].len() == (if items.len() - k * size < size {
                items.len() - k * size
            } else {
                size
            })
            &&& clones_range(items, r[k], k * size)
        }
}

pub open spec fn chunk_seqs<T>(v: Seq<Vec<T>>) -> Seq<Seq<T>> {
    v.map_values(|c: Vec<T>| c@)
}

/// Item `i` is cloned into chunk `i / size`, at position `i % size`.
pub open spec fn chunk_spot<T: Clone>(items: Seq<T>, r: Seq<Seq<T>>, n: int, i: int) -> bool {
    let size = chunk_len(items.len() as int, n);
    &&& i / size < r.len()
    &&& i % size < r[i / size].len()
    &&& cloned::<T>(items[i], r[i / size][i % size])
}

/// Chunking loses no item: item `i` is cloned into chunk `i / size` at
/// position `i % size`.
pub proof fn law_chunks_cover<T: Clone>(items: Seq<T>, r: Seq<Seq<T>>, n: int)
    requires
        n > 0,
        items.len() > 0,
        even_chunks(items, r, n),
    ensures
        forall|i: int| 0 <= i < items.len() ==> #[trigger] chunk_spot(items, r, n, i),
{
    let len = items.len() as int;
    let size = chunk_len(len, n);
    lemma_chunk_len(len, n);
    assert forall|i: int| 0 <= i < items.len() implies #[trigger] chunk_spot(items, r, n, i) by {
        let k = i / size;
        let j = i % size;
        assert(i == k * size + j && 0 <= j < size && k >= 0) by (nonlinear_arith)
            requires
                size >= 1,
                i >= 0,
                k == i / size,
                j == i % size,
        ;
        assert(k < r.len()) by (nonlinear_arith)
            requires
                r.len() * size >= len,
                i < len,
                i == k * size + j,
                j >= 0,
                size >= 1,
        ;
        assert(r[k].len() > j);
        assert(cloned::<T>(items[k * size + j], r[k][j]));
    }
}

/// Splits `items` into at most `n` consecutive chunks of `len / n`
/// (rounded up) items, the last possibly shorter; one chunk with all the
/// items when `n` is 0 or there are no items.
pub fn chunk_evenly<T: Clone>(items: &[T], n: usize) -> (r: Vec<Vec<T>>)
    ensures
        n == 0 || items.len() == 0 ==> r.len() == 1 && r@[0].len() == items.len() && clones_range(
            items@,
            r@[0]@,
            0,
        ),
        n > 0 && items.len() > 0 ==> {
            let size = chunk_len(items.len() as int, n as int);
            &&& r.len() <= n
            &&& r.len() * size >= items.len()
            &&& forall|k: int|
                0 <= k < r.len() ==> {
                    &&& #[trigger] r@[k].len() > 0
                    &&& r@[k].len() == (if items.len() - k * size < size {
                        items.len() - k * size
                    } else {
                        size
                    })
                    &&& clones_range(items@, r@[k]@, k * size)
                }
        },
        n > 0 && items.len() > 0 ==> even_chunks(items@, chunk_seqs(r@), n as int),
{
    let len = items.len();
    if n == 0 || len == 0 {
        let all = clone_range(items, 0, len);
        let mut r: Vec<Vec<T>> = Vec::new();
        r.push(all);
        return r;
    }
    let size = if len % n == 0 {
        len / n
    } else {
        assert(len / n < len) by (nonlinear_arith)
            requires
                len % n != 0,
                n > 0,
                len > 0,
        ;
        len / n + 1
    };
    proof {
        let ln = len as int;
        let nn = n as int;
        assert(size == chunk_len(ln, nn)) by (nonlinear_arith)
            requires
                nn > 0,
                size == (if ln % nn == 0 {
                    ln / nn
                } else {
                    ln / nn + 1
                }),
                ln >= 0,
        ;
        lemma_chunk_len(ln, nn);
    }
    let ghost sz = size as int;
    let mut r: Vec<Vec<T>> = Vec::new();
    let mut start: usize = 0;
    assert(0 * sz == 0);
    while start < len
        invariant
            len == items.len(),
            0 < n,
            1 <= sz <= len,
            sz == size,
            n * sz >= len,
            sz == chunk_len(len as int, n as int),
            start == r.len() * sz || (start == len && r.len() * sz >= len),
            start <= len,
            r.len() <= n,
            forall|k: int|
                0 <= k < r.len() ==> {
                    &&& #[trigger] r@[k].len() > 0
                    &&& r@[k].len() == (if len - k * sz < sz {
                        len - k * sz
                    } else {
                        sz
                    })
                    &&& clones_range(items@, r@[k]@, k * sz)
                },
        decreases len - start,
    {
        let end = if size > len - start {
            len
        } else {
            start + size
        };
        let chunk = clone_range(items, start, end);
        proof {
            lemma_mul_step(r.len() as int, sz);
            assert(r.len() < n) by (nonlinear_arith)
                requires
                    start == r.len() * sz,
                    start < len,
                    n * sz >= len,
                    sz >= 1,
            ;
        }
        let ghost kk = r.len() as int;
        let ghost old_r = r@;
        assert(start == kk * sz);
        r.push(chunk);
        assert forall|k2: int| 0 <= k2 < r.len() implies {
            &&& #[trigger] r@[k2].len() > 0
            &&& r@[k2].len() == (if len - k2 * sz < sz {
                len - k2 * sz
            } else {
                sz
            })
            &&& clones_range(items@, r@[k2]@, k2 * sz)
        } by {
            if k2 < kk {
                assert(r@[k2] == old_r[k2]);
                assert(old_r[k2].len() == (if len - k2 * sz < sz {
                    len - k2 * sz
                } else {
                    sz
                }));
                assert(k2 * sz < len);
                assert(clones_range(items@, old_r[k2]@, k2 * sz));
            } else {
                assert(k2 == kk);
                assert(r@[k2] == chunk);
                assert(k2 * sz == start);
                assert(chunk.len() == end - start);
            }
        }
        start = end;
        assert(r.len() * sz == kk * sz + sz);
    }
    proof {
        assert(r.len() * sz >= len);
        let cs = chunk_seqs(r@);
        assert(cs.len() == r.len());
        assert forall|k: int| 0 <= k < cs.len() implies {
            &&& (#[trigger] cs[k]).len() > 0
            &&& cs[k].len() == (if len - k * sz < sz {
                len - k * sz
            } else {
                sz
            })
            &&& clones_range(items@, cs[k], k * sz)
        } by {
            assert(cs[k] == r@[k]@);
            assert(r@[k].len() > 0);
            assert(r@[k].len() == r@[k]@.len());
        }
    }
    r
}

fn clone_range<T: Clone>(items: &[T], a: usize, b: usize) -> (r: Vec<T>)
    requires
        a <= b <= items.len(),
    ensures
        r.len() == b - a,
        clones_range(items@, r@, a as int),
{
    let mut r: Vec<T> = Vec::new();
    let mut i = a;
    while i < b
        invariant
            a <= i <= b <= items.len(),
            r.len() == i - a,
            clones_range(items@, r@, a as int),
        decreases b - i,
    {
        let c = items[i].clone();
        r.push(c);
        i = i + 1;
    }
    r
}

/// An entry as the index holds it: on the given page, one flag that is
/// not empty, has no comma and no whitespace at either end, and a
/// description of at most a hundred characters and an ellipsis.
pub open spec fn entry_ok(e: FlagEntryV, name: Seq<char>, section: Seq<char>) -> bool {
    &&& e.name == name
    &&& e.section == section
    &&& e.flag.len() > 0
    &&& !is_ws(e.flag[0])
    &&& !is_ws(e.flag.last())
    &&& forall|i: int| 0 <= i < e.flag.len() ==> #[trigger] e.flag[i] != ','
    &&& e.description.len() <= DESCRIPTION_CHARS + 1
}

pub open spec fn entries_ok(es: Seq<FlagEntryV>, name: Seq<char>, section: Seq<char>) -> bool {
    forall|k: int| 0 <= k < es.len() ==> entry_ok(#[trigger] es[k], name, section)
}

proof fn lemma_entries_concat(a: Seq<FlagEntryV>, b: Seq<FlagEntryV>, name: Seq<char>, section: Seq<char>)
    requires
        entries_ok(a, name, section),
        entries_ok(b, name, section),
    ensures
        entries_ok(a + b, name, section),
{
    assert forall|k: int| 0 <= k < (a + b).len() implies entry_ok(#[trigger] (a + b)[k], name, section) by {
        if k < a.len() {
            assert((a + b)[k] == a[k]);
        } else {
            assert((a + b)[k] == b[k - a.len()]);
        }
    }
}

proof fn lemma_trim_start_shape(s: Seq<char>)
    ensures
        exists|k: int| 0 <= k <= s.len() && trim_start(s) == s.subrange(k, s.len() as int),
        trim_start(s).len() > 0 ==> !is_ws(trim_start(s)[0]),
    decreases s.len(),
{
    if s.len() > 0 && is_ws(s[0]) {
        lemma_trim_start_shape(s.drop_first());
        let k = choose|k: int|
            0 <= k <= s.drop_first().len() && trim_start(s.drop_first()) == s.drop_first().subrange(
                k,
                s.drop_first().len() as int,
            );
        assert(s.drop_first().subrange(k, s.drop_first().len() as int) =~= s.subrange(
            k + 1,
            s.len() as int,
        ));
    } else {
        assert(s.subrange(0, s.len() as int) =~= s);
    }
}

proof fn lemma_trim_end_shape(s: Seq<char>)
    ensures
        exists|k: int| 0 <= k <= s.len() && trim_end(s) == s.subrange(0, k),
        trim_end(s).len() > 0 ==> !is_ws(trim_end(s).last()),
    decreases s.len(),
{
    if s.len() > 0 && is_ws(s.last()) {
        lemma_trim_end_shape(s.drop_last());
        let k = choose|k: int| 0 <= k <= s.drop_last().len() && trim_end(s.drop_last()) == s.drop_last().subrange(0, k);
        assert(s.drop_last().subrange(0, k) =~= s.subrange(0, k));
    } else {
        assert(s.subrange(0, s.len() as int) =~= s);
    }
}

proof fn lemma_trimmed_flag(p: Seq<char>)
    requires
        forall|i: int| 0 <= i < p.len() ==> #[trigger] p[i] != ',',
        trimmed(p).len() > 0,
    ensures
        !is_ws(trimmed(p)[0]),
        !is_ws(trimmed(p).last()),
        forall|i: int| 0 <= i < trimmed(p).len() ==> #[trigger] trimmed(p)[i] != ',',
{
    let t = trim_start(p);
    lemma_trim_start_shape(p);
    lemma_trim_end_shape(t);
    let a = choose|k: int| 0 <= k <= p.len() && t == p.subrange(k, p.len() as int);
    let b = choose|k: int| 0 <= k <= t.len() && trim_end(t) == t.subrange(0, k);
    assert(trimmed(p) == t.subrange(0, b));
    assert(trimmed(p)[0] == t[0]);
    assert forall|i: int| 0 <= i < trimmed(p).len() implies #[trigger] trimmed(p)[i] != ',' by {
        assert(trimmed(p)[i] == p[a + i]);
    }
}

proof fn lemma_split_commas_pieces(s: Seq<char>)
    ensures
        forall|j: int, i: int|
            0 <= j < split_commas(s).len() && 0 <= i < split_commas(s)[j].len() ==> #[trigger] split_commas(s)[j][i] != ',',
    decreases s.len(),
{
    if s.len() > 0 {
        lemma_split_commas_pieces(s.drop_last());
        let w = split_commas(s.drop_last());
        lemma_split_commas_len(s.drop_last());
        let r = split_commas(s);
        assert forall|j: int, i: int| 0 <= j < r.len() && 0 <= i < r[j].len() implies #[trigger] r[j][i] != ',' by {
            if s.last() == ',' {
                if j < w.len() {
                    assert(r[j] == w[j]);
                }
            } else {
                if j < w.len() - 1 {
                    assert(r[j] == w[j]);
                } else {
                    assert(r[j] == w.last().push(s.last()));
                    if i < w.last().len() {
                        assert(r[j][i] == w[w.len() - 1][i]);
                    }
                }
            }
        }
    }
}

proof fn lemma_split_commas_len(s: Seq<char>)
    ensures
        split_commas(s).len() > 0,
    decreases s.len(),
{
    if s.len() > 0 {
        lemma_split_commas_len(s.drop_last());
    }
}

proof fn lemma_truncated_len(t: Seq<char>)
    ensures
        truncated(t, DESCRIPTION_CHARS as nat).len() <= DESCRIPTION_CHARS + 1,
{
}

proof fn lemma_pieces_ok(ps: Seq<Seq<char>>, desc: Seq<char>, name: Seq<char>, section: Seq<char>)
    requires
        forall|j: int, i: int| 0 <= j < ps.len() && 0 <= i < ps[j].len() ==> #[trigger] ps[j][i] != ',',
        desc.len() <= DESCRIPTION_CHARS + 1,
    ensures
        entries_ok(entries_of_pieces(ps, desc, name, section), name, section),
    decreases ps.len(),
{
    if ps.len() > 0 {
        let p = ps.drop_last();
        assert forall|j: int, i: int| 0 <= j < p.len() && 0 <= i < p[j].len() implies #[trigger] p[j][i] != ',' by {
            assert(p[j] == ps[j]);
        }
        lemma_pieces_ok(p, desc, name, section);
        let f = trimmed(ps.last());
        let tail = if f.len() > 0 {
            seq![FlagEntryV { flag: f, name, section, description: desc }]
        } else {
            Seq::empty()
        };
        if f.len() > 0 {
            assert forall|i: int| 0 <= i < ps.last().len() implies #[trigger] ps.last()[i] != ',' by {
                assert(ps.last()[i] == ps[ps.len() - 1][i]);
            }
            lemma_trimmed_flag(ps.last());
            assert(entry_ok(tail[0], name, section));
        }
        lemma_entries_concat(entries_of_pieces(p, desc, name, section), tail, name, section);
    }
}

proof fn lemma_flags_blocks_ok(bs: Seq<BlockM>, name: Seq<char>, section: Seq<char>)
    ensures
        entries_ok(flags_blocks(bs, name, section), name, section),
    decreases bs,
{
    if bs.len() > 0 {
        lemma_flags_blocks_ok(bs.drop_last(), name, section);
        lemma_flags_block_ok(bs.last(), name, section);
        lemma_entries_concat(
            flags_blocks(bs.drop_last(), name, section),
            flags_block(bs.last(), name, section),
            name,
            section,
        );
    }
}

proof fn lemma_flags_block_ok(b: BlockM, name: Seq<char>, section: Seq<char>)
    ensures
        entries_ok(flags_block(b, name, section), name, section),
    decreases b,
{
    match b {
        BlockM::DefList(items) => lemma_flags_items_ok(items, name, section),
        BlockM::Indent(inner) => lemma_flags_blocks_ok(inner, name, section),
        _ => {},
    }
}

proof fn lemma_flags_items_ok(items: Seq<DefItemM>, name: Seq<char>, section: Seq<char>)
    ensures
        entries_ok(flags_items(items, name, section), name, section),
    decreases items,
{
    if items.len() > 0 {
        lemma_flags_items_ok(items.drop_last(), name, section);
        lemma_flags_item_ok(items.last(), name, section);
        lemma_entries_concat(
            flags_items(items.drop_last(), name, section),
            flags_item(items.last(), name, section),
            name,
            section,
        );
    }
}

proof fn lemma_flags_item_ok(it: DefItemM, name: Seq<char>, section: Seq<char>)
    ensures
        entries_ok(flags_item(it, name, section), name, section),
    decreases it,
{
    let ps = split_commas(plain(it.term));
    lemma_split_commas_pieces(plain(it.term));
    let desc = description_of(it.body);
    match first_para(it.body) {
        Some(t) => lemma_truncated_len(t),
        None => {},
    }
    lemma_pieces_ok(ps, desc, name, section);
    lemma_flags_blocks_ok(it.body, name, section);
    lemma_entries_concat(
        entries_of_pieces(ps, desc, name, section),
        flags_blocks(it.body, name, section),
        name,
        section,
    );
}

/// Every entry indexed from a page is on that page, holds a single flag
/// (not empty, with no comma and no whitespace at either end) and a
/// description of at most a hundred characters and an ellipsis.
pub proof fn law_flag_entries(secs: Seq<crate::document::SectionM>, name: Seq<char>, section: Seq<char>)
    ensures
        entries_ok(flags_of_sections(secs, name, section), name, section),
    decreases secs.len(),
{
    if secs.len() > 0 {
        law_flag_entries(secs.drop_last(), name, section);
        lemma_flags_blocks_ok(secs.last().blocks, name, section);
        lemma_entries_concat(
            flags_of_sections(secs.drop_last(), name, section),
            flags_blocks(secs.last().blocks, name, section),
            name,
            section,
        );
    }
}

/// The entry a flag of a page gets, with the given description.
pub open spec fn entry_for(flag: Seq<char>, name: Seq<char>, section: Seq<char>, description: Seq<char>) -> FlagEntryV {
    FlagEntryV { flag, name, section, description }
}

proof fn lemma_contains_concat(a: Seq<FlagEntryV>, b: Seq<FlagEntryV>, e: FlagEntryV)
    ensures
        (a.contains(e) || b.contains(e)) ==> (a + b).contains(e),
{
    if a.contains(e) {
        let j = choose|j: int| 0 <= j < a.len() && a[j] == e;
        assert((a + b)[j] == e);
    } else if b.contains(e) {
        let j = choose|j: int| 0 <= j < b.len() && b[j] == e;
        assert((a + b)[a.len() + j] == e);
    }
}

proof fn lemma_pieces_contain(ps: Seq<Seq<char>>, desc: Seq<char>, name: Seq<char>, section: Seq<char>, m: int)
    requires
        0 <= m < ps.len(),
        trimmed(ps[m]).len() > 0,
    ensures
        entries_of_pieces(ps, desc, name, section).contains(entry_for(trimmed(ps[m]), name, section, desc)),
    decreases ps.len(),
{
    let e = entry_for(trimmed(ps[m]), name, section, desc);
    let front = entries_of_pieces(ps.drop_last(), desc, name, section);
    let f = trimmed(ps.last());
    let tail = if f.len() > 0 {
        seq![FlagEntryV { flag: f, name, section, description: desc }]
    } else {
        Seq::empty()
    };
    if m == ps.len() - 1 {
        assert(tail[0] == e);
    } else {
        assert(ps.drop_last()[m] == ps[m]);
        lemma_pieces_contain(ps.drop_last(), desc, name, section, m);
    }
    lemma_contains_concat(front, tail, e);
}

proof fn lemma_items_contain(items: Seq<DefItemM>, name: Seq<char>, section: Seq<char>, k: int, m: int)
    requires
        0 <= k < items.len(),
        0 <= m < split_commas(plain(items[k].term)).len(),
        trimmed(split_commas(plain(items[k].term))[m]).len() > 0,
    ensures
        flags_items(items, name, section).contains(entry_for(
            trimmed(split_commas(plain(items[k].term))[m]),
            name,
            section,
            description_of(items[k].body),
        )),
    decreases items.len(),
{
    let e = entry_for(
        trimmed(split_commas(plain(items[k].term))[m]),
        name,
        section,
        description_of(items[k].body),
    );
    let it = items.last();
    let own = entries_of_pieces(split_commas(plain(it.term)), description_of(it.body), name, section);
    if k == items.len() - 1 {
        lemma_pieces_contain(split_commas(plain(it.term)), description_of(it.body), name, section, m);
        lemma_contains_concat(own, flags_blocks(it.body, name, section), e);
    } else {
        assert(items.drop_last()[k] == items[k]);
        lemma_items_contain(items.drop_last(), name, section, k, m);
    }
    lemma_contains_concat(flags_items(items.drop_last(), name, section), flags_item(it, name, section), e);
}

proof fn lemma_blocks_contain(bs: Seq<BlockM>, name: Seq<char>, section: Seq<char>, b: int, k: int, m: int)
    requires
        0 <= b < bs.len(),
        bs[b] is DefList,
        0 <= k < bs[b]->DefList_0.len(),
        0 <= m < split_commas(plain(bs[b]->DefList_0[k].term)).len(),
        trimmed(split_commas(plain(bs[b]->DefList_0[k].term))[m]).len() > 0,
    ensures
        flags_blocks(bs, name, section).contains(entry_for(
            trimmed(split_commas(plain(bs[b]->DefList_0[k].term))[m]),
            name,
            section,
            description_of(bs[b]->DefList_0[k].body),
        )),
    decreases bs.len(),
{
    let items = bs[b]->DefList_0;
    let e = entry_for(
        trimmed(split_commas(plain(items[k].term))[m]),
        name,
        section,
        description_of(items[k].body),
    );
    if b == bs.len() - 1 {
        lemma_items_contain(items, name, section, k, m);
    } else {
        assert(bs.drop_last()[b] == bs[b]);
        lemma_blocks_contain(bs.drop_last(), name, section, b, k, m);
    }
    lemma_contains_concat(flags_blocks(bs.drop_last(), name, section), flags_block(bs.last(), name, section), e);
}

/// Every flag of a definition list on a page is indexed with the
/// description of its own item. For the `k`-th item of a definition list
/// that is block `b` of section `i`, each non-blank comma-separated piece
/// of the item's term, trimmed, has an entry on the page with the
/// description of that item's body (its first paragraph with text,
/// truncated), whatever the other items of the list hold.
pub proof fn law_flags_described_by_their_item(
    secs: Seq<crate::document::SectionM>,
    name: Seq<char>,
    section: Seq<char>,
    i: int,
    b: int,
    k: int,
    m: int,
)
    requires
        0 <= i < secs.len(),
        0 <= b < secs[i].blocks.len(),
        secs[i].blocks[b] is DefList,
        0 <= k < secs[i].blocks[b]->DefList_0.len(),
        0 <= m < split_commas(plain(secs[i].blocks[b]->DefList_0[k].term)).len(),
        trimmed(split_commas(plain(secs[i].blocks[b]->DefList_0[k].term))[m]).len() > 0,
    ensures
        flags_of_sections(secs, name, section).contains(entry_for(
            trimmed(split_commas(plain(secs[i].blocks[b]->DefList_0[k].term))[m]),
            name,
            section,
            description_of(secs[i].blocks[b]->DefList_0[k].body),
        )),
    decreases secs.len(),
{
    let it = secs[i].blocks[b]->DefList_0[k];
    let e = entry_for(trimmed(split_commas(plain(it.term))[m]), name, section, description_of(it.body));
    if i == secs.len() - 1 {
        lemma_blocks_contain(secs[i].blocks, name, section, b, k, m);
    } else {
        assert(secs.drop_last()[i] == secs[i]);
        law_flags_described_by_their_item(secs.drop_last(), name, section, i, b, k, m);
    }
    lemma_contains_concat(
        flags_of_sections(secs.drop_last(), name, section),
        flags_blocks(secs.last().blocks, name, section),
        e,
    );
}

} // verus!
