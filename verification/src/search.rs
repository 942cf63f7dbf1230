//! Search over the flag index.
//!
//! Matching is token-aware, not raw substring: flags are split on their
//! natural delimiters (-, :, =, _, .), and the query must match a whole
//! token to count. A raw substring search for "all" would otherwise match
//! "-XX:AllocateHeapAt=path", which is technically true but useless noise;
//! token matching finds "--all" and "--almost-all" while excluding
//! "AllocateHeapAt".
//!
//! Ranked in two tiers: exact whole-flag match first, then any other flag
//! containing the query as a token, sorted by page name (then section)
//! within each tier, keeping index order among equal keys.
use vstd::prelude::*;
use vstd::multiset::Multiset;
use crate::indexer::{FlagEntry, FlagEntryV};
use crate::text::{
    ascii_lower, ascii_upper, chars_of, is_ascii_text, is_ws, lowercase, string_of, to_lowercase,
    trim_chars, trim_end, trim_start, trimmed,
};

verus! {

/// The delimiters a flag is split on.
pub open spec fn is_delim(c: char) -> bool {
    c == '-' || c == ':' || c == '=' || c == '_' || c == '.'
}

/// `s` without its leading dashes.
pub open spec fn strip_dashes(s: Seq<char>) -> Seq<char>
    decreases s.len(),
{
    if s.len() > 0 && s[0] == '-' {
        strip_dashes(s.drop_first())
    } else {
        s
    }
}

/// A flag or query as it is compared: trimmed, leading dashes removed,
/// lower-cased.
pub open spec fn normalized(s: Seq<char>) -> Seq<char> {
    lowercase(strip_dashes(trimmed(s)))
}

/// `q` is one of the delimiter-separated tokens of `f`.
pub open spec fn token_match(f: Seq<char>, q: Seq<char>) -> bool {
    &&& q.len() > 0
    &&& forall|j: int| 0 <= j < q.len() ==> !is_delim(#[trigger] q[j])
    &&& exists|i: int|
        0 <= i && i + q.len() <= f.len() && #[trigger] f.subrange(i, i + q.len()) == q && (i == 0
            || is_delim(f[i - 1])) && (i + q.len() == f.len() || is_delim(f[i + q.len()]))
}

/// 0: the normalized flag is the query; 1: the query is one of its tokens;
/// 2: no match.
pub open spec fn tier(flag: Seq<char>, q: Seq<char>) -> int {
    let f = normalized(flag);
    if f == q {
        0
    } else if token_match(f, q) {
        1
    } else {
        2
    }
}

/// The positions of the entries in tier `t`, in index order.
pub open spec fn tier_indices(es: Seq<FlagEntryV>, q: Seq<char>, t: int) -> Seq<usize>
    decreases es.len(),
{
    if es.len() == 0 {
        Seq::empty()
    } else {
        tier_indices(es.drop_last(), q, t) + (if tier(es.last().flag, q) == t {
            seq![(es.len() - 1) as usize]
        } else {
            Seq::empty()
        })
    }
}

/// Lexicographic order on texts (the order of `str`'s `Ord`, which
/// compares UTF-8 bytes and so orders by code points).
pub open spec fn lex_le(a: Seq<char>, b: Seq<char>) -> bool
    decreases a.len(),
{
    if a.len() == 0 {
        true
    } else if b.len() == 0 {
        false
    } else if a[0] != b[0] {
        a[0] < b[0]
    } else {
        lex_le(a.drop_first(), b.drop_first())
    }
}

/// The order of `(name, section)` pairs.
pub open spec fn key_le(x: FlagEntryV, y: FlagEntryV) -> bool {
    if x.name == y.name {
        lex_le(x.section, y.section)
    } else {
        lex_le(x.name, y.name)
    }
}

/// Inserts position `x` after every position of `s` (a sorted run) whose
/// entry's key is not greater than its own.
pub open spec fn insert_by_key(s: Seq<usize>, x: usize, es: Seq<FlagEntryV>) -> Seq<usize>
    decreases s.len(),
{
    if s.len() == 0 {
        seq![x]
    } else if key_le(es[s.last() as int], es[x as int]) {
        s.push(x)
    } else {
        insert_by_key(s.drop_last(), x, es).push(s.last())
    }
}

/// Positions stably sorted by their entries' `(name, section)`.
pub open spec fn sort_by_key(s: Seq<usize>, es: Seq<FlagEntryV>) -> Seq<usize>
    decreases s.len(),
{
    if s.len() == 0 {
        Seq::empty()
    } else {
        insert_by_key(sort_by_key(s.drop_last(), es), s.last(), es)
    }
}

/// The positions of the entries that `search` returns, in order.
pub open spec fn search_order(es: Seq<FlagEntryV>, query: Seq<char>) -> Seq<usize> {
    let q = normalized(query);
    if q.len() == 0 {
        Seq::empty()
    } else {
        sort_by_key(tier_indices(es, q, 0), es) + sort_by_key(tier_indices(es, q, 1), es)
    }
}

pub open spec fn entries_view(s: Seq<FlagEntry>) -> Seq<FlagEntryV> {
    s.map_values(|e: FlagEntry| e@)
}

fn strip_dashes_exec(s: &Vec<char>) -> (r: Vec<char>)
    ensures
        r@ == strip_dashes(s@),
{
    let mut a: usize = 0;
    assert(s@.subrange(0, s.len() as int) =~= s@);
    while a < s.len() && s[a] == '-'
        invariant
            a <= s.len(),
            strip_dashes(s@) == strip_dashes(s@.subrange(a as int, s.len() as int)),
        decreases s.len() - a,
    {
        assert(s@.subrange(a as int, s.len() as int).drop_first() =~= s@.subrange(
            a + 1,
            s.len() as int,
        ));
        a = a + 1;
    }
    crate::links::slice_range(s, a, s.len())
}

/// A flag or query as it is compared: trimmed, leading dashes removed,
/// lower-cased.
pub fn normalize(s: &str) -> (r: Vec<char>)
    ensures
        r@ == normalized(s@),
{
    let cs = chars_of(s);
    let t = trim_chars(&cs);
    let d = strip_dashes_exec(&t);
    let st = string_of(&d);
    let low = to_lowercase(st.as_str());
    chars_of(low.as_str())
}

fn delim(c: char) -> (r: bool)
    ensures
        r == is_delim(c),
{
    c == '-' || c == ':' || c == '=' || c == '_' || c == '.'
}

/// Whether `q` is one of the delimiter-separated tokens of `f`.
pub fn token_match_exec(f: &Vec<char>, q: &Vec<char>) -> (r: bool)
    ensures
        r == token_match(f@, q@),
{
    if q.len() == 0 {
        return false;
    }
    let mut j: usize = 0;
    while j < q.len()
        invariant
            j <= q.len(),
            forall|k: int| 0 <= k < j ==> !is_delim(#[trigger] q@[k]),
        decreases q.len() - j,
    {
        if delim(q[j]) {
            return false;
        }
        j = j + 1;
    }
    if q.len() > f.len() {
        return false;
    }
    let last = f.len() - q.len();
    let mut i: usize = 0;
    loop
        invariant
            0 < q.len() <= f.len(),
            last == f.len() - q.len(),
            i <= last,
            forall|k: int| 0 <= k < q.len() ==> !is_delim(#[trigger] q@[k]),
            forall|k: int|
                0 <= k < i ==> !(#[trigger] f@.subrange(k, k + q@.len()) == q@ && (k == 0
                    || is_delim(f@[k - 1])) && (k + q@.len() == f@.len() || is_delim(
                    f@[k + q@.len()],
                ))),
        decreases last - i,
    {
        let left_ok = i == 0 || delim(f[i - 1]);
        let end = i + q.len();
        let right_ok = end == f.len() || delim(f[end]);
        if left_ok && right_ok {
            let sub = crate::links::slice_range(f, i, end);
            if crate::text::chars_eq(&sub, q) {
                return true;
            }
        }
        if i == last {
            assert forall|k: int|
                0 <= k && k + q@.len() <= f@.len() implies !(#[trigger] f@.subrange(
                k,
                k + q@.len(),
            ) == q@ && (k == 0 || is_delim(f@[k - 1])) && (k + q@.len() == f@.len() || is_delim(
                f@[k + q@.len()],
            ))) by {
                assert(k <= i);
            }
            return false;
        }
        i = i + 1;
    }
}

/// Lexicographic comparison of texts.
pub fn lex_le_exec(a: &Vec<char>, b: &Vec<char>) -> (r: bool)
    ensures
        r == lex_le(a@, b@),
{
    let mut i: usize = 0;
    assert(a@.subrange(0, a.len() as int) =~= a@);
    assert(b@.subrange(0, b.len() as int) =~= b@);
    while i < a.len()
        invariant
            i <= a.len(),
            i <= b.len(),
            lex_le(a@, b@) == lex_le(a@.subrange(i as int, a.len() as int), b@.subrange(
                i as int,
                b.len() as int,
            )),
        decreases a.len() - i,
    {
        let ghost sa = a@.subrange(i as int, a.len() as int);
        let ghost sb = b@.subrange(i as int, b.len() as int);
        if i == b.len() {
            return false;
        }
        assert(sa[0] == a@[i as int] && sb[0] == b@[i as int]);
        if a[i] != b[i] {
            return a[i] < b[i];
        }
        assert(sa.drop_first() =~= a@.subrange(i + 1, a.len() as int));
        assert(sb.drop_first() =~= b@.subrange(i + 1, b.len() as int));
        i = i + 1;
    }
    true
}

/// The `(name, section)` order of two entries.
pub fn key_le_exec(x: &FlagEntry, y: &FlagEntry) -> (r: bool)
    ensures
        r == key_le(x@, y@),
{
    let xn = chars_of(x.name.as_str());
    let yn = chars_of(y.name.as_str());
    if crate::text::chars_eq(&xn, &yn) {
        let xs = chars_of(x.section.as_str());
        let ys = chars_of(y.section.as_str());
        lex_le_exec(&xs, &ys)
    } else {
        lex_le_exec(&xn, &yn)
    }
}

proof fn lemma_insert_at(s: Seq<usize>, x: usize, es: Seq<FlagEntryV>, p: int)
    requires
        0 <= p <= s.len(),
        forall|j: int| p <= j < s.len() ==> !key_le(#[trigger] es[s[j] as int], es[x as int]),
        p == 0 || key_le(es[s[p - 1] as int], es[x as int]),
    ensures
        insert_by_key(s, x, es) == s.take(p) + seq![x] + s.skip(p),
    decreases s.len(),
{
    if s.len() == 0 {
        assert(s.take(p) + seq![x] + s.skip(p) =~= seq![x]);
    } else if key_le(es[s.last() as int], es[x as int]) {
        assert(p == s.len());
        assert(s.take(p) + seq![x] + s.skip(p) =~= s.push(x));
    } else {
        assert(p < s.len());
        lemma_insert_at(s.drop_last(), x, es, p);
        assert(s.drop_last().take(p) + seq![x] + s.drop_last().skip(p) + seq![s.last()] =~= s.take(
            p,
        ) + seq![x] + s.skip(p));
    }
}

/// Sorts positions by their entries' `(name, section)`, stably.
pub fn sort_positions(s: Vec<usize>, es: &[FlagEntry]) -> (r: Vec<usize>)
    requires
        forall|j: int| 0 <= j < s.len() ==> #[trigger] s@[j] < es.len(),
    ensures
        r@ == sort_by_key(s@, entries_view(es@)),
        forall|j: int| 0 <= j < r.len() ==> #[trigger] r@[j] < es.len(),
{
    let ghost ev = entries_view(es@);
    let mut out: Vec<usize> = Vec::new();
    let mut i: usize = 0;
    while i < s.len()
        invariant
            i <= s.len(),
            ev == entries_view(es@),
            ev.len() == es.len(),
            forall|j: int| 0 <= j < s.len() ==> #[trigger] s@[j] < es.len(),
            forall|j: int| 0 <= j < out.len() ==> #[trigger] out@[j] < es.len(),
            out@ == sort_by_key(s@.take(i as int), ev),
        decreases s.len() - i,
    {
        let x = s[i];
        let mut p = out.len();
        while p > 0 && !key_le_exec(&es[out[p - 1]], &es[x])
            invariant
                p <= out.len(),
                x < es.len(),
                ev == entries_view(es@),
                forall|j: int| 0 <= j < out.len() ==> #[trigger] out@[j] < es.len(),
                forall|j: int| p <= j < out.len() ==> !key_le(#[trigger] ev[out@[j] as int], ev[x as int]),
            decreases p,
        {
            p = p - 1;
        }
        proof {
            lemma_insert_at(out@, x, ev, p as int);
            assert(s@.take(i + 1).drop_last() =~= s@.take(i as int));
        }
        out.insert(p, x);
        assert(out@ =~= sort_by_key(s@.take(i as int), ev).take(p as int) + seq![x] + sort_by_key(
            s@.take(i as int),
            ev,
        ).skip(p as int));
        i = i + 1;
    }
    assert(s@.take(s.len() as int) =~= s@);
    out
}

/// Searches the flag index for a query like "dry-run" or "--dry-run":
/// exact whole-flag matches first, then token matches, each tier sorted
/// by page name and section.
pub fn search<'a>(entries: &'a [FlagEntry], query: &str) -> (r: Vec<&'a FlagEntry>)
    ensures
        r@.len() == search_order(entries_view(entries@), query@).len(),
        forall|k: int|
            0 <= k < r@.len() ==> *#[trigger] r@[k] == entries@[search_order(
                entries_view(entries@),
                query@,
            )[k] as int],
{
    let ghost ev = entries_view(entries@);
    let q = normalize(query);
    if q.len() == 0 {
        return Vec::new();
    }
    let mut exact: Vec<usize> = Vec::new();
    let mut token: Vec<usize> = Vec::new();
    let mut i: usize = 0;
    while i < entries.len()
        invariant
            i <= entries.len(),
            ev == entries_view(entries@),
            q@ == normalized(query@),
            exact@ == tier_indices(ev.take(i as int), q@, 0),
            token@ == tier_indices(ev.take(i as int), q@, 1),
            forall|j: int| 0 <= j < exact.len() ==> #[trigger] exact@[j] < i,
            forall|j: int| 0 <= j < token.len() ==> #[trigger] token@[j] < i,
        decreases entries.len() - i,
    {
        assert(ev.take(i + 1).drop_last() =~= ev.take(i as int));
        assert(ev.take(i + 1).last() == entries@[i as int]@);
        let f = normalize(entries[i].flag.as_str());
        if crate::text::chars_eq(&f, &q) {
            exact.push(i);
        } else if token_match_exec(&f, &q) {
            token.push(i);
        }
        i = i + 1;
        assert(exact@ =~= tier_indices(ev.take(i as int), q@, 0));
        assert(token@ =~= tier_indices(ev.take(i as int), q@, 1));
    }
    assert(ev.take(entries.len() as int) =~= ev);
    let exact = sort_positions(exact, entries);
    let token = sort_positions(token, entries);
    let ghost order = exact@ + token@;
    assert(order == search_order(ev, query@));
    let mut r: Vec<&'a FlagEntry> = Vec::new();
    let mut k: usize = 0;
    while k < exact.len()
        invariant
            k <= exact.len(),
            order == exact@ + token@,
            forall|j: int| 0 <= j < exact.len() ==> #[trigger] exact@[j] < entries.len(),
            r@.len() == k,
            forall|j: int| 0 <= j < k ==> *#[trigger] r@[j] == entries@[order[j] as int],
        decreases exact.len() - k,
    {
        r.push(&entries[exact[k]]);
        k = k + 1;
    }
    let mut k: usize = 0;
    while k < token.len()
        invariant
            k <= token.len(),
            order == exact@ + token@,
            forall|j: int| 0 <= j < token.len() ==> #[trigger] token@[j] < entries.len(),
            r@.len() == exact.len() + k,
            forall|j: int| 0 <= j < exact.len() + k ==> *#[trigger] r@[j] == entries@[order[j] as int],
        decreases token.len() - k,
    {
        r.push(&entries[token[k]]);
        k = k + 1;
    }
    r
}

proof fn lemma_lex_total(a: Seq<char>, b: Seq<char>)
    ensures
        lex_le(a, b) || lex_le(b, a),
    decreases a.len(),
{
    if a.len() > 0 && b.len() > 0 && a[0] == b[0] {
        lemma_lex_total(a.drop_first(), b.drop_first());
    }
}

proof fn lemma_lex_antisym(a: Seq<char>, b: Seq<char>)
    requires
        lex_le(a, b),
        lex_le(b, a),
    ensures
        a == b,
    decreases a.len(),
{
    if a.len() == 0 {
        assert(b.len() == 0);
        assert(a =~= b);
    } else {
        assert(b.len() > 0);
        assert(a[0] == b[0]);
        lemma_lex_antisym(a.drop_first(), b.drop_first());
        assert forall|i: int| 0 <= i < a.len() implies a[i] == b[i] by {
            if i > 0 {
                assert(a[i] == a.drop_first()[i - 1]);
                assert(b[i] == b.drop_first()[i - 1]);
            }
        }
        assert(a =~= b);
    }
}

proof fn lemma_lex_trans(a: Seq<char>, b: Seq<char>, c: Seq<char>)
    requires
        lex_le(a, b),
        lex_le(b, c),
    ensures
        lex_le(a, c),
    decreases a.len(),
{
    if a.len() > 0 && b.len() > 0 && c.len() > 0 && a[0] == b[0] && b[0] == c[0] {
        lemma_lex_trans(a.drop_first(), b.drop_first(), c.drop_first());
    }
}

proof fn lemma_key_total(x: FlagEntryV, y: FlagEntryV)
    ensures
        key_le(x, y) || key_le(y, x),
{
    lemma_lex_total(x.name, y.name);
    lemma_lex_total(x.section, y.section);
}

proof fn lemma_key_trans(x: FlagEntryV, y: FlagEntryV, z: FlagEntryV)
    requires
        key_le(x, y),
        key_le(y, z),
    ensures
        key_le(x, z),
{
    if x.name == y.name && y.name == z.name {
        lemma_lex_trans(x.section, y.section, z.section);
    } else if x.name == y.name || y.name == z.name {
    } else if x.name == z.name {
        lemma_lex_antisym(x.name, y.name);
    } else {
        lemma_lex_trans(x.name, y.name, z.name);
    }
}

/// The positions are in `(name, section)` order of their entries.
pub open spec fn sorted_by_key(s: Seq<usize>, es: Seq<FlagEntryV>) -> bool {
    forall|i: int, j: int|
        0 <= i < j < s.len() ==> key_le(#[trigger] es[s[i] as int], #[trigger] es[s[j] as int])
}

proof fn lemma_insert_sorted(s: Seq<usize>, x: usize, es: Seq<FlagEntryV>)
    requires
        sorted_by_key(s, es),
    ensures
        sorted_by_key(insert_by_key(s, x, es), es),
        insert_by_key(s, x, es).to_multiset() == s.to_multiset().insert(x),
    decreases s.len(),
{
    broadcast use vstd::seq_lib::group_to_multiset_ensures;

    if s.len() == 0 {
        assert(seq![x] =~= Seq::<usize>::empty().push(x));
    } else if key_le(es[s.last() as int], es[x as int]) {
        let r = s.push(x);
        assert forall|i: int, j: int| 0 <= i < j < r.len() implies key_le(
            #[trigger] es[r[i] as int],
            #[trigger] es[r[j] as int],
        ) by {
            if j == s.len() {
                if i < s.len() - 1 {
                    assert(key_le(es[s[i] as int], es[s[s.len() - 1] as int]));
                    lemma_key_trans(es[s[i] as int], es[s.last() as int], es[x as int]);
                }
            } else {
                assert(r[i] == s[i] && r[j] == s[j]);
            }
        }
    } else {
        let p = s.drop_last();
        let l = s.last();
        assert forall|i: int, j: int| 0 <= i < j < p.len() implies key_le(
            #[trigger] es[p[i] as int],
            #[trigger] es[p[j] as int],
        ) by {
            assert(p[i] == s[i] && p[j] == s[j]);
        }
        lemma_insert_sorted(p, x, es);
        let inner = insert_by_key(p, x, es);
        let r = inner.push(l);
        assert(s =~= p.push(l));
        lemma_key_total(es[l as int], es[x as int]);
        assert forall|k: int| 0 <= k < inner.len() implies key_le(
            #[trigger] es[inner[k] as int],
            es[l as int],
        ) by {
            let e = inner[k];
            assert(inner.to_multiset().count(e) > 0);
            if e != x {
                assert(p.to_multiset().count(e) > 0);
                assert(p.contains(e));
                let m = choose|m: int| 0 <= m < p.len() && p[m] == e;
                assert(s[m] == e);
                assert(key_le(es[s[m] as int], es[s[s.len() - 1] as int]));
            }
        }
        assert forall|i: int, j: int| 0 <= i < j < r.len() implies key_le(
            #[trigger] es[r[i] as int],
            #[trigger] es[r[j] as int],
        ) by {
            assert(r[i] == inner[i]);
            if j < inner.len() {
                assert(r[j] == inner[j]);
            }
        }
        assert(r.to_multiset() =~= s.to_multiset().insert(x));
    }
}

proof fn lemma_sort(s: Seq<usize>, es: Seq<FlagEntryV>)
    ensures
        sorted_by_key(sort_by_key(s, es), es),
        sort_by_key(s, es).to_multiset() == s.to_multiset(),
    decreases s.len(),
{
    broadcast use vstd::seq_lib::group_to_multiset_ensures;

    if s.len() > 0 {
        lemma_sort(s.drop_last(), es);
        lemma_insert_sorted(sort_by_key(s.drop_last(), es), s.last(), es);
        assert(s =~= s.drop_last().push(s.last()));
    } else {
        assert(s.to_multiset() =~= Multiset::empty());
        assert(Seq::<usize>::empty().to_multiset() =~= Multiset::empty());
    }
}

proof fn lemma_tier_indices(es: Seq<FlagEntryV>, q: Seq<char>, t: int)
    requires
        es.len() <= usize::MAX + 1,
    ensures
        forall|i: usize| #[trigger] tier_indices(es, q, t).to_multiset().count(i) == (if i < es.len()
            && tier(es[i as int].flag, q) == t {
            1nat
        } else {
            0nat
        }),
    decreases es.len(),
{
    broadcast use vstd::seq_lib::group_to_multiset_ensures;

    if es.len() == 0 {
        assert(tier_indices(es, q, t) =~= Seq::<usize>::empty());
        assert(Seq::<usize>::empty().to_multiset() =~= Multiset::empty());
    } else {
        let p = es.drop_last();
        lemma_tier_indices(p, q, t);
        let a = tier_indices(p, q, t);
        let n = (es.len() - 1) as usize;
        assert forall|i: usize| #[trigger] tier_indices(es, q, t).to_multiset().count(i) == (if i
            < es.len() && tier(es[i as int].flag, q) == t {
            1nat
        } else {
            0nat
        }) by {
            if (i as int) < p.len() {
                assert(p[i as int] == es[i as int]);
            }
            if tier(es.last().flag, q) == t {
                assert(tier_indices(es, q, t) =~= a.push(n));
            } else {
                assert(tier_indices(es, q, t) =~= a);
            }
        }
    }
}

/// What a search returns: with an empty query (once trimmed of spaces and
/// leading dashes) nothing; else each entry whose flag is the query or
/// holds it as a whole token, exactly once; whole-flag matches before
/// token matches, and each group in `(name, section)` order.
pub proof fn law_search_results(es: Seq<FlagEntryV>, query: Seq<char>)
    requires
        es.len() <= usize::MAX,
    ensures
        normalized(query).len() == 0 ==> search_order(es, query).len() == 0,
        forall|i: usize| #[trigger] search_order(es, query).to_multiset().count(i) == (if i
            < es.len() && normalized(query).len() > 0 && tier(es[i as int].flag, normalized(query))
            <= 1 {
            1nat
        } else {
            0nat
        }),
        forall|i: int, j: int|
            0 <= i < j < search_order(es, query).len() ==> tier(
                es[#[trigger] search_order(es, query)[i] as int].flag,
                normalized(query),
            ) <= tier(es[#[trigger] search_order(es, query)[j] as int].flag, normalized(query)),
        forall|i: int, j: int|
            0 <= i < j < search_order(es, query).len() && tier(
                es[#[trigger] search_order(es, query)[i] as int].flag,
                normalized(query),
            ) == tier(es[#[trigger] search_order(es, query)[j] as int].flag, normalized(query))
                ==> key_le(es[search_order(es, query)[i] as int], es[search_order(es, query)[j] as int]),
{
    broadcast use vstd::seq_lib::group_to_multiset_ensures;

    let q = normalized(query);
    let order = search_order(es, query);
    if q.len() == 0 {
        assert(order =~= Seq::<usize>::empty());
        assert(order.to_multiset() =~= Multiset::empty());
    } else {
        let a = sort_by_key(tier_indices(es, q, 0), es);
        let b = sort_by_key(tier_indices(es, q, 1), es);
        lemma_sort(tier_indices(es, q, 0), es);
        lemma_sort(tier_indices(es, q, 1), es);
        lemma_tier_indices(es, q, 0);
        lemma_tier_indices(es, q, 1);
        assert(order == a + b);
        vstd::seq_lib::lemma_multiset_commutative(a, b);
        assert forall|k: int| 0 <= k < a.len() implies tier(es[#[trigger] a[k] as int].flag, q) == 0
            && a[k] < es.len() by {
            assert(a.to_multiset().count(a[k]) > 0);
        }
        assert forall|k: int| 0 <= k < b.len() implies tier(es[#[trigger] b[k] as int].flag, q) == 1
            && b[k] < es.len() by {
            assert(b.to_multiset().count(b[k]) > 0);
        }
        assert forall|i: int, j: int| 0 <= i < j < order.len() implies tier(
            es[#[trigger] order[i] as int].flag,
            q,
        ) <= tier(es[#[trigger] order[j] as int].flag, q) by {
            if i < a.len() {
                assert(order[i] == a[i]);
            } else {
                assert(order[i] == b[i - a.len()]);
            }
            if j < a.len() {
                assert(order[j] == a[j]);
            } else {
                assert(order[j] == b[j - a.len()]);
            }
        }
        assert forall|i: int, j: int|
            0 <= i < j < order.len() && tier(es[#[trigger] order[i] as int].flag, q) == tier(
                es[#[trigger] order[j] as int].flag,
                q,
            ) implies key_le(es[order[i] as int], es[order[j] as int]) by {
            if j < a.len() {
                assert(order[i] == a[i] && order[j] == a[j]);
            } else if i >= a.len() {
                assert(order[i] == b[i - a.len()] && order[j] == b[j - a.len()]);
            } else {
                assert(order[i] == a[i] && order[j] == b[j - a.len()]);
            }
        }
    }
}

proof fn lemma_trim_start_append(a: Seq<char>, b: Seq<char>)
    ensures
        trim_start(a).len() > 0 ==> trim_start(a + b) == trim_start(a) + b,
        trim_start(a).len() == 0 ==> trim_start(a + b) == trim_start(b),
    decreases a.len(),
{
    if a.len() == 0 {
        assert(a + b =~= b);
    } else if is_ws(a[0]) {
        lemma_trim_start_append(a.drop_first(), b);
        assert((a + b)[0] == a[0]);
        assert((a + b).drop_first() =~= a.drop_first() + b);
    } else {
        assert((a + b)[0] == a[0]);
    }
}

proof fn lemma_trim_end_prepend(c: char, q: Seq<char>)
    requires
        !is_ws(c),
    ensures
        trim_end(seq![c] + q) == seq![c] + trim_end(q),
        trim_start(seq![c] + q) == seq![c] + q,
    decreases q.len(),
{
    if q.len() == 0 {
        assert(seq![c] + q =~= seq![c]);
        assert(seq![c].last() == c);
    } else {
        assert((seq![c] + q).last() == q.last());
        if is_ws(q.last()) {
            lemma_trim_end_prepend(c, q.drop_last());
            assert((seq![c] + q).drop_last() =~= seq![c] + q.drop_last());
        }
    }
    assert((seq![c] + q)[0] == c);
}

proof fn lemma_trim_lens(q: Seq<char>)
    ensures
        trim_start(q).len() <= q.len(),
        trim_start(q).len() == q.len() ==> trim_start(q) == q,
        trim_end(q).len() <= q.len(),
    decreases q.len(),
{
    if q.len() > 0 {
        lemma_trim_lens(q.drop_first());
        lemma_trim_lens(q.drop_last());
    }
}

/// Spaces around a query change nothing: the results are the same.
pub proof fn law_search_ignores_padding(es: Seq<FlagEntryV>, q: Seq<char>)
    ensures
        search_order(es, seq![' '] + q) == search_order(es, q),
        search_order(es, q + seq![' ']) == search_order(es, q),
{
    assert(is_ws(' '));
    assert((seq![' '] + q)[0] == ' ');
    assert((seq![' '] + q).drop_first() =~= q);
    assert(trim_start(seq![' '] + q) == trim_start(q));
    lemma_trim_start_append(q, seq![' ']);
    lemma_trim_start_append(seq![' '], Seq::<char>::empty());
    assert(seq![' '] + Seq::<char>::empty() =~= seq![' ']);
    assert(trim_start(seq![' ']) == trim_start(seq![' '].drop_first()));
    assert(seq![' '].drop_first() =~= Seq::<char>::empty());
    let t = trim_start(q);
    if t.len() > 0 {
        assert((t + seq![' ']).last() == ' ');
        assert((t + seq![' ']).drop_last() =~= t);
    }
    assert(trimmed(q + seq![' ']) == trimmed(q));
    assert(normalized(q + seq![' ']) == normalized(q));
    assert(normalized(seq![' '] + q) == normalized(q));
}

/// Leading dashes on a query with no surrounding spaces change nothing:
/// "--dry-run" and "-dry-run" find what "dry-run" finds.
pub proof fn law_search_ignores_dashes(es: Seq<FlagEntryV>, q: Seq<char>)
    requires
        trimmed(q) == q,
    ensures
        search_order(es, seq!['-'] + q) == search_order(es, q),
        search_order(es, seq!['-', '-'] + q) == search_order(es, q),
{
    lemma_trim_lens(q);
    lemma_trim_lens(trim_start(q));
    assert(trim_start(q) == q);
    assert(trim_end(q) == q);
    lemma_trim_end_prepend('-', q);
    let d = seq!['-'] + q;
    assert(trimmed(d) == d);
    assert(d[0] == '-');
    assert(d.drop_first() =~= q);
    assert(strip_dashes(d) == strip_dashes(q));
    assert(normalized(d) == normalized(q));
    lemma_trim_end_prepend('-', d);
    let dd = seq!['-'] + d;
    assert(seq!['-', '-'] + q =~= dd);
    assert(trimmed(dd) == dd);
    assert(dd[0] == '-');
    assert(dd.drop_first() =~= d);
    assert(strip_dashes(dd) == strip_dashes(d));
    assert(normalized(dd) == normalized(q));
}

/// A text with its ASCII lower-case letters made upper-case.
pub open spec fn ascii_uppercased(s: Seq<char>) -> Seq<char> {
    s.map_values(|c: char| ascii_upper(c))
}

proof fn lemma_upper_char(c: char)
    ensures
        is_ws(ascii_upper(c)) == is_ws(c),
        (ascii_upper(c) == '-') == (c == '-'),
        c <= '\u{7f}' ==> ascii_upper(c) <= '\u{7f}',
        ascii_lower(ascii_upper(c)) == ascii_lower(c),
{
}

proof fn lemma_upper_trim_start(s: Seq<char>)
    ensures
        trim_start(ascii_uppercased(s)) == ascii_uppercased(trim_start(s)),
        is_ascii_text(s) ==> is_ascii_text(trim_start(s)),
    decreases s.len(),
{
    if s.len() > 0 {
        lemma_upper_char(s[0]);
        assert(ascii_uppercased(s)[0] == ascii_upper(s[0]));
        assert(ascii_uppercased(s).drop_first() =~= ascii_uppercased(s.drop_first()));
        lemma_upper_trim_start(s.drop_first());
        if is_ascii_text(s) {
            assert(is_ascii_text(s.drop_first())) by {
                assert forall|i: int| 0 <= i < s.drop_first().len() implies s.drop_first()[i]
                    <= '\u{7f}' by {
                    assert(s.drop_first()[i] == s[i + 1]);
                }
            }
        }
    } else {
        assert(ascii_uppercased(s) =~= s);
    }
}

proof fn lemma_upper_trim_end(s: Seq<char>)
    ensures
        trim_end(ascii_uppercased(s)) == ascii_uppercased(trim_end(s)),
        is_ascii_text(s) ==> is_ascii_text(trim_end(s)),
    decreases s.len(),
{
    if s.len() > 0 {
        lemma_upper_char(s.last());
        assert(ascii_uppercased(s).last() == ascii_upper(s.last()));
        assert(ascii_uppercased(s).drop_last() =~= ascii_uppercased(s.drop_last()));
        lemma_upper_trim_end(s.drop_last());
        if is_ascii_text(s) {
            assert(is_ascii_text(s.drop_last())) by {
                assert forall|i: int| 0 <= i < s.drop_last().len() implies s.drop_last()[i]
                    <= '\u{7f}' by {
                    assert(s.drop_last()[i] == s[i]);
                }
            }
        }
    } else {
        assert(ascii_uppercased(s) =~= s);
    }
}

proof fn lemma_upper_strip_dashes(s: Seq<char>)
    ensures
        strip_dashes(ascii_uppercased(s)) == ascii_uppercased(strip_dashes(s)),
        is_ascii_text(s) ==> is_ascii_text(strip_dashes(s)),
    decreases s.len(),
{
    if s.len() > 0 {
        lemma_upper_char(s[0]);
        assert(ascii_uppercased(s)[0] == ascii_upper(s[0]));
        assert(ascii_uppercased(s).drop_first() =~= ascii_uppercased(s.drop_first()));
        lemma_upper_strip_dashes(s.drop_first());
        if is_ascii_text(s) {
            assert(is_ascii_text(s.drop_first())) by {
                assert forall|i: int| 0 <= i < s.drop_first().len() implies s.drop_first()[i]
                    <= '\u{7f}' by {
                    assert(s.drop_first()[i] == s[i + 1]);
                }
            }
        }
    } else {
        assert(ascii_uppercased(s) =~= s);
    }
}

proof fn lemma_lower_of_upper(s: Seq<char>)
    requires
        is_ascii_text(s),
    ensures
        lowercase(ascii_uppercased(s)) == lowercase(s),
{
    reveal(lowercase);
    let u = ascii_uppercased(s);
    assert(is_ascii_text(u)) by {
        assert forall|i: int| 0 <= i < u.len() implies u[i] <= '\u{7f}' by {
            lemma_upper_char(s[i]);
        }
    }
    assert forall|i: int| 0 <= i < s.len() implies ascii_lower(#[trigger] u[i]) == ascii_lower(
        s[i],
    ) by {
        lemma_upper_char(s[i]);
    }
    assert(u.map_values(|c: char| ascii_lower(c)) =~= s.map_values(|c: char| ascii_lower(c)));
}

/// Matching ignores ASCII case: an ASCII query finds exactly what its
/// upper-cased form finds, in the same order.
pub proof fn law_search_ascii_case(es: Seq<FlagEntryV>, q: Seq<char>)
    requires
        is_ascii_text(q),
    ensures
        search_order(es, ascii_uppercased(q)) == search_order(es, q),
{
    lemma_upper_trim_start(q);
    let t = trim_start(q);
    lemma_upper_trim_end(t);
    let tt = trimmed(q);
    assert(trimmed(ascii_uppercased(q)) == ascii_uppercased(tt));
    lemma_upper_strip_dashes(tt);
    lemma_lower_of_upper(strip_dashes(tt));
    assert(normalized(ascii_uppercased(q)) == normalized(q));
}

} // verus!
