//! Cross-reference detection in inline text.
//!
//! Most Linux man pages use classic man(7) macros rather than mdoc's
//! semantic `.Xr`, so references show up as plain text: either
//! "ls(1)"-shaped text, or a bold command name immediately followed by a
//! separate "(1)" text node (`<b>dircolors</b>(1)`). Both become links.
use vstd::prelude::*;
use crate::document::{Span, SpanM};
use crate::text::string_of;
use crate::indexer::plain;

verus! {

/// A character that may appear in a page name ("git-commit", "systemd.unit",
/// "Foo::Bar", "g++").
pub open spec fn is_name_char(c: char) -> bool {
    ||| ('a' <= c && c <= 'z')
    ||| ('A' <= c && c <= 'Z')
    ||| ('0' <= c && c <= '9')
    ||| c == '_'
    ||| c == '-'
    ||| c == '.'
    ||| c == '+'
    ||| c == ':'
}

/// A character that may follow the leading digit of a section ("3pm", "1ssl").
pub open spec fn is_section_char(c: char) -> bool {
    ||| ('a' <= c && c <= 'z')
    ||| ('A' <= c && c <= 'Z')
    ||| ('0' <= c && c <= '9')
}

pub open spec fn is_digit(c: char) -> bool {
    '0' <= c && c <= '9'
}

fn name_char(c: char) -> (r: bool)
    ensures
        r == is_name_char(c),
{
    ('a' <= c && c <= 'z') || ('A' <= c && c <= 'Z') || ('0' <= c && c <= '9') || c == '_' || c
        == '-' || c == '.' || c == '+' || c == ':'
}

fn section_char(c: char) -> (r: bool)
    ensures
        r == is_section_char(c),
{
    ('a' <= c && c <= 'z') || ('A' <= c && c <= 'Z') || ('0' <= c && c <= '9')
}

/// The end of the run of name characters that starts at `k`.
pub open spec fn name_run_end(s: Seq<char>, k: int) -> int
    decreases s.len() - k,
{
    if 0 <= k < s.len() && is_name_char(s[k]) {
        name_run_end(s, k + 1)
    } else {
        k
    }
}

/// The end of the run of section characters that starts at `k`.
pub open spec fn section_run_end(s: Seq<char>, k: int) -> int
    decreases s.len() - k,
{
    if 0 <= k < s.len() && is_section_char(s[k]) {
        section_run_end(s, k + 1)
    } else {
        k
    }
}

pub proof fn lemma_run_ends(s: Seq<char>, k: int)
    requires
        0 <= k <= s.len(),
    ensures
        k <= name_run_end(s, k) <= s.len(),
        k <= section_run_end(s, k) <= s.len(),
    decreases s.len() - k,
{
    if k < s.len() {
        lemma_run_ends(s, k + 1);
    }
}

/// A reference "name(section)" whose name starts at `k`: the positions of
/// its '(' and ')'. The name is a maximal run of name characters, and the
/// section a digit followed by letters or digits.
pub open spec fn ref_at(s: Seq<char>, k: int) -> Option<(int, int)> {
    if 0 <= k < s.len() && (k == 0 || !is_name_char(s[k - 1])) {
        let p = name_run_end(s, k);
        if k < p && p + 1 < s.len() && s[p] == '(' && is_digit(s[p + 1]) {
            let q = section_run_end(s, p + 1);
            if q < s.len() && s[q] == ')' {
                Some((p, q))
            } else {
                None
            }
        } else {
            None
        }
    } else {
        None
    }
}

/// The spans of the text `s[start..]`, scanning for references from `k`.
pub open spec fn linkify_from(s: Seq<char>, start: int, k: int) -> Seq<SpanM>
    decreases s.len() - k,
{
    if k >= s.len() || k < start || start < 0 {
        if 0 <= start < s.len() {
            seq![SpanM::Text(s.subrange(start, s.len() as int))]
        } else {
            Seq::empty()
        }
    } else {
        proof {
            lemma_run_ends(s, k);
            if k < name_run_end(s, k) && name_run_end(s, k) + 1 < s.len() {
                lemma_run_ends(s, name_run_end(s, k) + 1);
            }
        }
        match ref_at(s, k) {
            Some((p, q)) => (if start < k {
                seq![SpanM::Text(s.subrange(start, k))]
            } else {
                Seq::empty()
            }) + seq![
                SpanM::Link {
                    text: s.subrange(k, q + 1),
                    name: s.subrange(k, p),
                    section: s.subrange(p + 1, q),
                },
            ] + linkify_from(s, q + 1, q + 1),
            None => linkify_from(s, start, k + 1),
        }
    }
}

/// A plain text split into text and link spans around every
/// "name(section)" reference in it.
pub open spec fn linkify_text(s: Seq<char>) -> Seq<SpanM> {
    linkify_from(s, 0, 0)
}

/// A page name: non-empty, made of name characters.
pub open spec fn is_page_name(n: Seq<char>) -> bool {
    n.len() > 0 && forall|i: int| 0 <= i < n.len() ==> #[trigger] is_name_char(n[i])
}

/// When `t` starts with "(section)", the position of its ')'.
pub open spec fn paren_section(t: Seq<char>) -> Option<int> {
    if t.len() >= 3 && t[0] == '(' && is_digit(t[1]) {
        let q = section_run_end(t, 1);
        if q < t.len() && t[q] == ')' {
            Some(q)
        } else {
            None
        }
    } else {
        None
    }
}

/// Links found in a run of spans: a bold page name followed by a text that
/// starts with "(section)" becomes one link; references inside text spans
/// become links; every other span stays as it is.
pub open spec fn linkify_spans(spans: Seq<SpanM>) -> Seq<SpanM>
    decreases spans.len(),
{
    if spans.len() == 0 {
        Seq::empty()
    } else {
        match spans[0] {
            SpanM::Bold(n) => {
                if is_page_name(n) && spans.len() >= 2 && spans[1] is Text && paren_section(
                    spans[1]->Text_0,
                ) is Some {
                    let t = spans[1]->Text_0;
                    let q = paren_section(t)->Some_0;
                    seq![
                        SpanM::Link {
                            text: n + t.subrange(0, q + 1),
                            name: n,
                            section: t.subrange(1, q),
                        },
                    ] + linkify_text(t.subrange(q + 1, t.len() as int)) + linkify_spans(
                        spans.subrange(2, spans.len() as int),
                    )
                } else {
                    seq![spans[0]] + linkify_spans(spans.drop_first())
                }
            },
            SpanM::Text(t) => linkify_text(t) + linkify_spans(spans.drop_first()),
            _ => seq![spans[0]] + linkify_spans(spans.drop_first()),
        }
    }
}

proof fn lemma_plain_concat(a: Seq<SpanM>, b: Seq<SpanM>)
    ensures
        plain(a + b) == plain(a) + plain(b),
    decreases b.len(),
{
    if b.len() == 0 {
        assert(a + b =~= a);
        assert(plain(a) + plain(b) =~= plain(a));
    } else {
        lemma_plain_concat(a, b.drop_last());
        assert((a + b).drop_last() =~= a + b.drop_last());
        assert(plain(a) + plain(b.drop_last()) + b.last().text() =~= plain(a) + (plain(
            b.drop_last(),
        ) + b.last().text()));
    }
}

proof fn lemma_plain_one(x: SpanM)
    ensures
        plain(seq![x]) == x.text(),
{
    assert(seq![x].drop_last() =~= Seq::<SpanM>::empty());
    assert(plain(Seq::<SpanM>::empty()) == Seq::<char>::empty());
    assert(Seq::<char>::empty() + x.text() =~= x.text());
}

proof fn lemma_linkify_from_text(s: Seq<char>, start: int, k: int)
    requires
        0 <= start <= k <= s.len(),
    ensures
        plain(linkify_from(s, start, k)) == s.subrange(start, s.len() as int),
    decreases s.len() - k,
{
    if k >= s.len() {
        if start < s.len() {
            lemma_plain_one(SpanM::Text(s.subrange(start, s.len() as int)));
        } else {
            assert(s.subrange(start, s.len() as int) =~= Seq::<char>::empty());
        }
    } else {
        lemma_run_ends(s, k);
        match ref_at(s, k) {
            Some((p, q)) => {
                lemma_run_ends(s, p + 1);
                lemma_linkify_from_text(s, q + 1, q + 1);
                let pre = if start < k {
                    seq![SpanM::Text(s.subrange(start, k))]
                } else {
                    Seq::empty()
                };
                let l = SpanM::Link {
                    text: s.subrange(k, q + 1),
                    name: s.subrange(k, p),
                    section: s.subrange(p + 1, q),
                };
                let rest = linkify_from(s, q + 1, q + 1);
                assert(linkify_from(s, start, k) == pre + seq![l] + rest);
                lemma_plain_concat(pre + seq![l], rest);
                lemma_plain_concat(pre, seq![l]);
                lemma_plain_one(l);
                if start < k {
                    lemma_plain_one(SpanM::Text(s.subrange(start, k)));
                } else {
                    assert(plain(pre) =~= s.subrange(start, k));
                }
                assert(s.subrange(start, k) + s.subrange(k, q + 1) + s.subrange(q + 1, s.len() as int)
                    =~= s.subrange(start, s.len() as int));
            },
            None => {
                lemma_linkify_from_text(s, start, k + 1);
            },
        }
    }
}

/// Finding references changes no text: the spans found in a text read,
/// styles dropped, exactly as the text did.
pub proof fn law_linkify_keeps_text(s: Seq<char>)
    ensures
        plain(linkify_text(s)) == s,
{
    lemma_linkify_from_text(s, 0, 0);
    assert(s.subrange(0, s.len() as int) =~= s);
}

/// Turning references in a run of spans into links changes no text.
pub proof fn law_linkify_spans_keeps_text(spans: Seq<SpanM>)
    ensures
        plain(linkify_spans(spans)) == plain(spans),
    decreases spans.len(),
{
    if spans.len() > 0 {
        let rest = spans.drop_first();
        assert(spans =~= seq![spans[0]] + rest);
        lemma_plain_concat(seq![spans[0]], rest);
        lemma_plain_one(spans[0]);
        match spans[0] {
            SpanM::Bold(n) => {
                if is_page_name(n) && spans.len() >= 2 && spans[1] is Text && paren_section(
                    spans[1]->Text_0,
                ) is Some {
                    let t = spans[1]->Text_0;
                    let q = paren_section(t)->Some_0;
                    let rest2 = spans.subrange(2, spans.len() as int);
                    law_linkify_spans_keeps_text(rest2);
                    law_linkify_keeps_text(t.subrange(q + 1, t.len() as int));
                    let l = SpanM::Link {
                        text: n + t.subrange(0, q + 1),
                        name: n,
                        section: t.subrange(1, q),
                    };
                    let mid = linkify_text(t.subrange(q + 1, t.len() as int));
                    lemma_plain_concat(seq![l] + mid, linkify_spans(rest2));
                    lemma_plain_concat(seq![l], mid);
                    lemma_plain_one(l);
                    assert(rest =~= seq![spans[1]] + rest2);
                    lemma_plain_concat(seq![spans[1]], rest2);
                    lemma_plain_one(spans[1]);
                    lemma_run_ends(t, 1);
                    assert(t.subrange(0, q + 1) + t.subrange(q + 1, t.len() as int) =~= t);
                    assert(n + t.subrange(0, q + 1) + t.subrange(q + 1, t.len() as int) =~= n + t);
                } else {
                    law_linkify_spans_keeps_text(rest);
                    lemma_plain_concat(seq![spans[0]], linkify_spans(rest));
                }
            },
            SpanM::Text(t) => {
                law_linkify_spans_keeps_text(rest);
                law_linkify_keeps_text(t);
                lemma_plain_concat(linkify_text(t), linkify_spans(rest));
            },
            _ => {
                law_linkify_spans_keeps_text(rest);
                lemma_plain_concat(seq![spans[0]], linkify_spans(rest));
            },
        }
    }
}

fn name_run_end_exec(s: &[char], k: usize) -> (r: usize)
    requires
        k <= s.len(),
    ensures
        r as int == name_run_end(s@, k as int),
        k <= r <= s.len(),
{
    let mut j = k;
    while j < s.len() && name_char(s[j])
        invariant
            k <= j <= s.len(),
            name_run_end(s@, j as int) == name_run_end(s@, k as int),
        decreases s.len() - j,
    {
        j = j + 1;
    }
    j
}

fn section_run_end_exec(s: &[char], k: usize) -> (r: usize)
    requires
        k <= s.len(),
    ensures
        r as int == section_run_end(s@, k as int),
        k <= r <= s.len(),
{
    let mut j = k;
    while j < s.len() && section_char(s[j])
        invariant
            k <= j <= s.len(),
            section_run_end(s@, j as int) == section_run_end(s@, k as int),
        decreases s.len() - j,
    {
        j = j + 1;
    }
    j
}

fn ref_at_exec(s: &[char], k: usize) -> (r: Option<(usize, usize)>)
    requires
        k < s.len(),
    ensures
        match r {
            Some((p, q)) => ref_at(s@, k as int) == Some((p as int, q as int)) && k < p < q < s.len(),
            None => ref_at(s@, k as int) is None,
        },
{
    if k > 0 && name_char(s[k - 1]) {
        return None;
    }
    let p = name_run_end_exec(s, k);
    if k < p && p < s.len() && p + 1 < s.len() && s[p] == '(' && '0' <= s[p + 1] && s[p + 1] <= '9' {
        let q = section_run_end_exec(s, p + 1);
        if q < s.len() && s[q] == ')' {
            assert(q >= p + 1);
            return Some((p, q));
        }
    }
    None
}

/// The characters `s[a..b]` as a string.
pub fn sub_string(s: &[char], a: usize, b: usize) -> (r: String)
    requires
        a <= b <= s.len(),
    ensures
        r@ == s@.subrange(a as int, b as int),
{
    let mut v: Vec<char> = Vec::new();
    let mut i = a;
    while i < b
        invariant
            a <= i <= b <= s.len(),
            v@ == s@.subrange(a as int, i as int),
        decreases b - i,
    {
        v.push(s[i]);
        i = i + 1;
        assert(v@ =~= s@.subrange(a as int, i as int));
    }
    string_of(&v)
}

/// Splits a plain text into text and link spans.
pub fn linkify_text_exec(s: &[char]) -> (out: Vec<Span>)
    ensures
        crate::document::spans_view(out@) == linkify_text(s@),
{
    let mut out: Vec<Span> = Vec::new();
    let mut start: usize = 0;
    let mut k: usize = 0;
    while k < s.len()
        invariant
            start <= k <= s.len(),
            crate::document::spans_view(out@) + linkify_from(s@, start as int, k as int)
                == linkify_text(s@),
        decreases s.len() - k,
    {
        let ghost before = crate::document::spans_view(out@);
        match ref_at_exec(s, k) {
            Some((p, q)) => {
                if start < k {
                    out.push(Span::Text(sub_string(s, start, k)));
                }
                out.push(
                    Span::Link {
                        text: sub_string(s, k, q + 1),
                        name: sub_string(s, k, p),
                        section: sub_string(s, p + 1, q),
                    },
                );
                assert(crate::document::spans_view(out@) =~= before + (if start < k {
                    seq![SpanM::Text(s@.subrange(start as int, k as int))]
                } else {
                    Seq::empty()
                }) + seq![
                    SpanM::Link {
                        text: s@.subrange(k as int, q + 1),
                        name: s@.subrange(k as int, p as int),
                        section: s@.subrange(p + 1, q as int),
                    },
                ]);
                start = q + 1;
                k = q + 1;
            },
            None => {
                k = k + 1;
            },
        }
    }
    let ghost before = crate::document::spans_view(out@);
    if start < s.len() {
        out.push(Span::Text(sub_string(s, start, s.len())));
        assert(crate::document::spans_view(out@) =~= before + seq![
            SpanM::Text(s@.subrange(start as int, s.len() as int)),
        ]);
    } else {
        assert(crate::document::spans_view(out@) =~= before + Seq::<SpanM>::empty());
    }
    out
}

fn page_name_exec(n: &[char]) -> (r: bool)
    ensures
        r == is_page_name(n@),
{
    if n.len() == 0 {
        return false;
    }
    let mut i: usize = 0;
    while i < n.len()
        invariant
            0 <= i <= n.len(),
            forall|j: int| 0 <= j < i ==> is_name_char(n@[j]),
        decreases n.len() - i,
    {
        if !name_char(n[i]) {
            return false;
        }
        i = i + 1;
    }
    true
}

fn paren_section_exec(t: &[char]) -> (r: Option<usize>)
    ensures
        match r {
            Some(q) => paren_section(t@) == Some(q as int) && 1 <= q < t.len(),
            None => paren_section(t@) is None,
        },
{
    if t.len() >= 3 && t[0] == '(' && '0' <= t[1] && t[1] <= '9' {
        let q = section_run_end_exec(t, 1);
        if q < t.len() && t[q] == ')' {
            return Some(q);
        }
    }
    None
}

fn append_spans(out: &mut Vec<Span>, more: Vec<Span>)
    ensures
        crate::document::spans_view(final(out)@) == crate::document::spans_view(old(out)@)
            + crate::document::spans_view(more@),
{
    let mut more = more;
    let ghost o = out@;
    let ghost m = more@;
    out.append(&mut more);
    assert(crate::document::spans_view(out@) =~= crate::document::spans_view(o)
        + crate::document::spans_view(m));
}

/// Turns the references in a run of spans into links.
pub fn linkify_spans_exec(spans: &Vec<Span>) -> (out: Vec<Span>)
    ensures
        crate::document::spans_view(out@) == linkify_spans(crate::document::spans_view(spans@)),
{
    let ghost all = crate::document::spans_view(spans@);
    let mut out: Vec<Span> = Vec::new();
    let mut i: usize = 0;
    assert(all.subrange(0, all.len() as int) =~= all);
    while i < spans.len()
        invariant
            0 <= i <= spans.len(),
            all == crate::document::spans_view(spans@),
            crate::document::spans_view(out@) + linkify_spans(all.subrange(i as int, all.len() as int))
                == linkify_spans(all),
        decreases spans.len() - i,
    {
        let ghost rest = all.subrange(i as int, all.len() as int);
        assert(rest[0] == spans@[i as int]@);
        assert(rest.drop_first() =~= all.subrange(i + 1, all.len() as int));
        let mut done = false;
        match &spans[i] {
            Span::Bold(n) => {
                if i + 1 < spans.len() {
                    assert(rest[1] == spans@[i + 1]@);
                    assert(rest.subrange(2, rest.len() as int) =~= all.subrange(
                        i + 2,
                        all.len() as int,
                    ));
                    match &spans[i + 1] {
                        Span::Text(t) => {
                            let nc = crate::text::chars_of(n.as_str());
                            let tc = crate::text::chars_of(t.as_str());
                            if page_name_exec(&nc) {
                                match paren_section_exec(&tc) {
                                    Some(q) => {
                                        let mut text = n.clone();
                                        let head = sub_string(&tc, 0, q + 1);
                                        text.append(head.as_str());
                                        let ghost before = crate::document::spans_view(out@);
                                        out.push(
                                            Span::Link {
                                                text,
                                                name: n.clone(),
                                                section: sub_string(&tc, 1, q),
                                            },
                                        );
                                        let tail = linkify_text_exec(
                                            &slice_from(&tc, q + 1),
                                        );
                                        append_spans(&mut out, tail);
                                        proof {
                                            assert(slice_tail_view(tc@, q + 1) =~= tc@.subrange(
                                                q + 1,
                                                tc@.len() as int,
                                            ));
                                        }
                                        i = i + 2;
                                        done = true;
                                    },
                                    None => {},
                                }
                            }
                        },
                        _ => {},
                    }
                }
                if !done {
                    out.push(spans[i].copy());
                    i = i + 1;
                }
            },
            Span::Text(t) => {
                let tc = crate::text::chars_of(t.as_str());
                let more = linkify_text_exec(&tc);
                append_spans(&mut out, more);
                i = i + 1;
            },
            _ => {
                out.push(spans[i].copy());
                i = i + 1;
            },
        }
    }
    assert(all.subrange(spans.len() as int, all.len() as int) =~= Seq::<SpanM>::empty());
    out
}

pub open spec fn slice_tail_view(s: Seq<char>, a: int) -> Seq<char> {
    s.subrange(a, s.len() as int)
}

/// The characters of `s` from position `a` on.
pub fn slice_from(s: &Vec<char>, a: usize) -> (r: Vec<char>)
    requires
        a <= s.len(),
    ensures
        r@ == slice_tail_view(s@, a as int),
{
    let mut v: Vec<char> = Vec::new();
    let mut i = a;
    while i < s.len()
        invariant
            a <= i <= s.len(),
            v@ == s@.subrange(a as int, i as int),
        decreases s.len() - i,
    {
        v.push(s[i]);
        i = i + 1;
        assert(v@ =~= s@.subrange(a as int, i as int));
    }
    v
}

/// The characters `s[a..b]`.
pub fn slice_range(s: &Vec<char>, a: usize, b: usize) -> (r: Vec<char>)
    requires
        a <= b <= s.len(),
    ensures
        r@ == s@.subrange(a as int, b as int),
{
    let mut v: Vec<char> = Vec::new();
    let mut i = a;
    while i < b
        invariant
            a <= i <= b <= s.len(),
            v@ == s@.subrange(a as int, i as int),
        decreases b - i,
    {
        v.push(s[i]);
        i = i + 1;
        assert(v@ =~= s@.subrange(a as int, i as int));
    }
    v
}

} // verus!
