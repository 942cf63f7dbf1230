//! Character-level text handling shared by the parser, the index and the
//! pager: Unicode whitespace, word splitting, joining and collapsing.
use vstd::prelude::*;

verus! {

/// Unicode `White_Space` property (PropList.txt), the set of characters
/// that `char::is_whitespace` accepts.
pub open spec fn is_ws(c: char) -> bool {
    ||| ('\u{9}' <= c && c <= '\u{d}')
    ||| c == ' '
    ||| c == '\u{85}'
    ||| c == '\u{a0}'
    ||| c == '\u{1680}'
    ||| ('\u{2000}' <= c && c <= '\u{200a}')
    ||| c == '\u{2028}'
    ||| c == '\u{2029}'
    ||| c == '\u{202f}'
    ||| c == '\u{205f}'
    ||| c == '\u{3000}'
}

/// Whether `c` is Unicode whitespace.
pub fn is_whitespace(c: char) -> (r: bool)
    ensures
        r == is_ws(c),
{
    ('\u{9}' <= c && c <= '\u{d}') || c == ' ' || c == '\u{85}' || c == '\u{a0}' || c
        == '\u{1680}' || ('\u{2000}' <= c && c <= '\u{200a}') || c == '\u{2028}' || c
        == '\u{2029}' || c == '\u{202f}' || c == '\u{205f}' || c == '\u{3000}'
}

/// Whether every character of `s` is whitespace (true for the empty text).
pub open spec fn all_ws(s: Seq<char>) -> bool {
    forall|i: int| 0 <= i < s.len() ==> #[trigger] is_ws(s[i])
}

/// The maximal runs of non-whitespace characters of `s`, in order
/// (what `str::split_whitespace` yields).
pub open spec fn words(s: Seq<char>) -> Seq<Seq<char>>
    decreases s.len(),
{
    if s.len() == 0 {
        Seq::empty()
    } else {
        let w = words(s.drop_last());
        let c = s.last();
        if is_ws(c) {
            w
        } else if s.len() >= 2 && !is_ws(s[s.len() - 2]) {
            w.update(w.len() - 1, w.last().push(c))
        } else {
            w.push(seq![c])
        }
    }
}

/// The pieces of `ws` joined with `sep` between consecutive pieces.
pub open spec fn join(ws: Seq<Seq<char>>, sep: Seq<char>) -> Seq<char>
    decreases ws.len(),
{
    if ws.len() == 0 {
        Seq::empty()
    } else if ws.len() == 1 {
        ws[0]
    } else {
        join(ws.drop_last(), sep) + sep + ws.last()
    }
}

/// The pieces of `ws` concatenated with nothing between them.
pub open spec fn concat(ws: Seq<Seq<char>>) -> Seq<char>
    decreases ws.len(),
{
    if ws.len() == 0 {
        Seq::empty()
    } else {
        concat(ws.drop_last()) + ws.last()
    }
}

/// All whitespace runs collapsed to single spaces, ends trimmed.
pub open spec fn collapsed(s: Seq<char>) -> Seq<char> {
    join(words(s), seq![' '])
}

/// `s` with leading and trailing whitespace removed (`str::trim`).
pub open spec fn trimmed(s: Seq<char>) -> Seq<char> {
    trim_end(trim_start(s))
}

pub open spec fn trim_start(s: Seq<char>) -> Seq<char>
    decreases s.len(),
{
    if s.len() > 0 && is_ws(s[0]) {
        trim_start(s.drop_first())
    } else {
        s
    }
}

pub open spec fn trim_end(s: Seq<char>) -> Seq<char>
    decreases s.len(),
{
    if s.len() > 0 && is_ws(s.last()) {
        trim_end(s.drop_last())
    } else {
        s
    }
}

/// Every word is non-empty and holds no whitespace.
pub proof fn lemma_words_shape(s: Seq<char>)
    ensures
        forall|k: int|
            0 <= k < words(s).len() ==> (#[trigger] words(s)[k]).len() > 0 && !all_ws(
                words(s)[k],
            ) && forall|j: int| 0 <= j < words(s)[k].len() ==> !is_ws(words(s)[k][j]),
        words(s).len() == 0 <==> all_ws(s),
        s.len() > 0 && !is_ws(s.last()) ==> words(s).len() > 0,
    decreases s.len(),
{
    if s.len() > 0 {
        lemma_words_shape(s.drop_last());
        let w = words(s.drop_last());
        let c = s.last();
        if is_ws(c) {
            if all_ws(s.drop_last()) {
                assert forall|i: int| 0 <= i < s.len() implies #[trigger] is_ws(s[i]) by {
                    if i < s.len() - 1 {
                        assert(s[i] == s.drop_last()[i]);
                    }
                }
            } else {
                let i = choose|i: int| 0 <= i < s.len() - 1 && !is_ws(s.drop_last()[i]);
                assert(!is_ws(s[i]));
            }
        } else {
            assert(!is_ws(s[s.len() - 1]));
            if s.len() >= 2 && !is_ws(s[s.len() - 2]) {
                assert(!is_ws(s.drop_last().last()));
                let w2 = w.update(w.len() - 1, w.last().push(c));
                assert forall|k: int| 0 <= k < w2.len() implies (#[trigger] w2[k]).len() > 0
                    && !all_ws(w2[k]) && forall|j: int|
                    0 <= j < w2[k].len() ==> !is_ws(w2[k][j]) by {
                    if k == w.len() - 1 {
                        assert(w2[k] == w[k].push(c));
                        assert(!is_ws(w2[k][0]));
                        assert forall|j: int| 0 <= j < w2[k].len() implies !is_ws(w2[k][j]) by {
                            if j < w[k].len() {
                                assert(w2[k][j] == w[k][j]);
                            }
                        }
                    } else {
                        assert(w2[k] == w[k]);
                        assert(!is_ws(w2[k][0]));
                    }
                }
            } else {
                let w2 = w.push(seq![c]);
                assert forall|k: int| 0 <= k < w2.len() implies (#[trigger] w2[k]).len() > 0
                    && !all_ws(w2[k]) && forall|j: int|
                    0 <= j < w2[k].len() ==> !is_ws(w2[k][j]) by {
                    if k < w.len() {
                        assert(w2[k] == w[k]);
                        assert(!is_ws(w2[k][0]));
                    } else {
                        assert(w2[k] == seq![c]);
                        assert(!is_ws(w2[k][0]));
                    }
                }
            }
        }
    }
}

pub proof fn lemma_join_push(ws: Seq<Seq<char>>, x: Seq<char>, sep: Seq<char>)
    ensures
        join(ws.push(x), sep) == (if ws.len() == 0 {
            x
        } else {
            join(ws, sep) + sep + x
        }),
{
    assert(ws.push(x).drop_last() =~= ws);
    if ws.len() == 0 {
        assert(ws.push(x)[0] == x);
    }
}

pub proof fn lemma_join_extend_last(ws: Seq<Seq<char>>, c: char, sep: Seq<char>)
    requires
        ws.len() > 0,
    ensures
        join(ws.update(ws.len() - 1, ws.last().push(c)), sep) == join(ws, sep).push(c),
{
    let w2 = ws.update(ws.len() - 1, ws.last().push(c));
    if ws.len() == 1 {
    } else {
        assert(w2.drop_last() =~= ws.drop_last());
        assert((join(ws.drop_last(), sep) + sep + ws.last()).push(c) =~= join(ws.drop_last(), sep)
            + sep + ws.last().push(c));
    }
}

/// A string holding the characters of `v`.
pub fn string_of(v: &[char]) -> (s: String)
    ensures
        s@ == v@,
{
    let mut s = String::new();
    let mut i: usize = 0;
    while i < v.len()
        invariant
            0 <= i <= v.len(),
            s@ == v@.take(i as int),
        decreases v.len() - i,
    {
        push_char(&mut s, v[i]);
        i = i + 1;
        assert(v@.take(i as int) =~= v@.take((i - 1) as int).push(v@[i - 1]));
    }
    assert(v@.take(v.len() as int) =~= v@);
    s
}

/// `String::push`: appends one character.
#[verifier::external_body]
pub(crate) fn push_char(s: &mut String, c: char)
    ensures
        final(s)@ == old(s)@.push(c),
{
    s.push(c);
}

/// The characters of a string slice, in order.
pub fn chars_of(s: &str) -> (out: Vec<char>)
    ensures
        out@ == s@,
{
    let mut out: Vec<char> = Vec::new();
    for c in it: s.chars()
        invariant
            out@ == it.seq().take(it.index() as int),
    {
        out.push(c);
    }
    out
}

/// Appends the characters of a string slice.
pub fn append_str(out: &mut Vec<char>, s: &str)
    ensures
        final(out)@ == old(out)@ + s@,
{
    let mut cs = chars_of(s);
    let ghost o = out@;
    out.append(&mut cs);
    assert(out@ =~= o + s@);
}

/// Collapses all internal whitespace to single spaces and trims the ends.
pub fn collapse(s: &str) -> (out: String)
    ensures
        out@ == collapsed(s@),
{
    let cs = chars_of(s);
    let v = collapse_chars(&cs);
    string_of(&v)
}

/// `collapse` on a character vector.
pub fn collapse_chars(s: &[char]) -> (out: Vec<char>)
    ensures
        out@ == collapsed(s@),
{
    let mut out: Vec<char> = Vec::new();
    let mut i: usize = 0;
    while i < s.len()
        invariant
            0 <= i <= s.len(),
            out@ == collapsed(s@.take(i as int)),
            out@.len() == 0 <==> words(s@.take(i as int)).len() == 0,
        decreases s.len() - i,
    {
        let c = s[i];
        let ghost pre = s@.take(i as int);
        let ghost next = s@.take(i + 1);
        assert(next.drop_last() =~= pre);
        assert(next.last() == c);
        proof {
            lemma_words_shape(pre);
        }
        if is_whitespace(c) {
        } else if i >= 1 && !is_whitespace(s[i - 1]) {
            assert(next[next.len() - 2] == s@[i - 1]);
            assert(pre.last() == s@[i - 1]);
            proof {
                lemma_join_extend_last(words(pre), c, seq![' ']);
            }
            out.push(c);
        } else {
            proof {
                lemma_join_push(words(pre), seq![c], seq![' ']);
            }
            if out.len() > 0 {
                out.push(' ');
            }
            out.push(c);
            assert(out@ =~= collapsed(next));
        }
        i = i + 1;
        proof {
            lemma_words_shape(next);
        }
    }
    assert(s@.take(s.len() as int) =~= s@);
    out
}

/// Whether a text is made only of whitespace (true for the empty text).
pub fn is_all_whitespace(s: &[char]) -> (r: bool)
    ensures
        r == all_ws(s@),
{
    let mut i: usize = 0;
    while i < s.len()
        invariant
            0 <= i <= s.len(),
            forall|j: int| 0 <= j < i ==> is_ws(s@[j]),
        decreases s.len() - i,
    {
        if !is_whitespace(s[i]) {
            return false;
        }
        i = i + 1;
    }
    true
}

/// What `normalize_ws` makes of a text node: like `collapsed`, but a
/// leading or trailing whitespace run survives as one space, and a text
/// made only of whitespace becomes a single space.
pub open spec fn normalized_ws(s: Seq<char>) -> Seq<char> {
    if s.len() == 0 {
        Seq::empty()
    } else if all_ws(s) {
        seq![' ']
    } else {
        (if is_ws(s[0]) {
            seq![' ']
        } else {
            Seq::empty()
        }) + collapsed(s) + (if is_ws(s.last()) {
            seq![' ']
        } else {
            Seq::empty()
        })
    }
}

/// Like `collapse`, but keeps a single leading or trailing space where the
/// text had one, since that space is often meaningful between
/// adjacent inline spans.
pub fn normalize_ws(s: &str) -> (out: String)
    ensures
        out@ == normalized_ws(s@),
{
    let cs = chars_of(s);
    let v = normalize_ws_chars(&cs);
    string_of(&v)
}

/// `normalize_ws` on a character vector.
pub fn normalize_ws_chars(s: &[char]) -> (out: Vec<char>)
    ensures
        out@ == normalized_ws(s@),
{
    if s.len() == 0 {
        return Vec::new();
    }
    if is_all_whitespace(s) {
        let mut v = Vec::new();
        v.push(' ');
        assert(v@ =~= seq![' ']);
        return v;
    }
    let leading = is_whitespace(s[0]);
    let trailing = is_whitespace(s[s.len() - 1]);
    let body = collapse_chars(s);
    let mut out: Vec<char> = Vec::new();
    if leading {
        out.push(' ');
    }
    let mut i: usize = 0;
    let ghost start = out@;
    while i < body.len()
        invariant
            0 <= i <= body.len(),
            out@ == start + body@.take(i as int),
        decreases body.len() - i,
    {
        out.push(body[i]);
        i = i + 1;
        assert(body@.take(i as int) =~= body@.take((i - 1) as int).push(body@[i - 1]));
    }
    assert(body@.take(body.len() as int) =~= body@);
    if trailing {
        out.push(' ');
    }
    assert(out@ =~= normalized_ws(s@));
    out
}

/// Whether `needle` occurs in `hay` as a contiguous run.
pub open spec fn has_sub(hay: Seq<char>, needle: Seq<char>) -> bool {
    exists|i: int|
        0 <= i && i + needle.len() <= hay.len() && #[trigger] hay.subrange(i, i + needle.len())
            == needle
}

/// Whether `needle` occurs at position `i` of `hay`.
pub open spec fn sub_at(hay: Seq<char>, needle: Seq<char>, i: int) -> bool {
    0 <= i && i + needle.len() <= hay.len() && forall|j: int|
        0 <= j < needle.len() ==> #[trigger] hay[i + j] == needle[j]
}

pub proof fn lemma_sub_at(hay: Seq<char>, needle: Seq<char>, i: int)
    requires
        0 <= i && i + needle.len() <= hay.len(),
    ensures
        sub_at(hay, needle, i) <==> hay.subrange(i, i + needle.len()) == needle,
{
    if sub_at(hay, needle, i) {
        assert forall|j: int| 0 <= j < needle.len() implies #[trigger] hay.subrange(
            i,
            i + needle.len(),
        )[j] == needle[j] by {
            assert(hay[i + j] == needle[j]);
        }
        assert(hay.subrange(i, i + needle.len()) =~= needle);
    }
    if hay.subrange(i, i + needle.len()) == needle {
        assert forall|j: int| 0 <= j < needle.len() implies #[trigger] hay[i + j] == needle[j] by {
            assert(hay.subrange(i, i + needle.len())[j] == hay[i + j]);
        }
    }
}

/// Whether `needle` occurs in `hay` (`str::contains`).
pub fn contains_chars(hay: &[char], needle: &[char]) -> (r: bool)
    ensures
        r == has_sub(hay@, needle@),
{
    if needle.len() > hay.len() {
        assert(!has_sub(hay@, needle@));
        return false;
    }
    let mut i: usize = 0;
    while i <= hay.len() - needle.len()
        invariant
            needle.len() <= hay.len(),
            i <= hay.len(),
            forall|k: int|
                0 <= k < i ==> #[trigger] hay@.subrange(k, k + needle@.len()) != needle@,
        decreases hay.len() - i,
    {
        let mut j: usize = 0;
        let mut ok = true;
        while j < needle.len()
            invariant
                i + needle.len() <= hay.len(),
                j <= needle.len(),
                ok ==> forall|m: int| 0 <= m < j ==> #[trigger] hay@[i + m] == needle@[m],
                !ok ==> !sub_at(hay@, needle@, i as int),
            decreases needle.len() - j,
        {
            if hay[i + j] != needle[j] {
                ok = false;
            }
            j = j + 1;
        }
        proof {
            lemma_sub_at(hay@, needle@, i as int);
        }
        if ok {
            return true;
        }
        i = i + 1;
    }
    assert forall|k: int| 0 <= k && k + needle@.len() <= hay@.len() implies #[trigger] hay@.subrange(
        k,
        k + needle@.len(),
    ) != needle@ by {
        assert(k < i);
    }
    false
}

/// Whether two character runs are equal.
pub fn chars_eq(a: &[char], b: &[char]) -> (r: bool)
    ensures
        r == (a@ == b@),
{
    if a.len() != b.len() {
        return false;
    }
    let mut i: usize = 0;
    while i < a.len()
        invariant
            a.len() == b.len(),
            i <= a.len(),
            forall|k: int| 0 <= k < i ==> a@[k] == b@[k],
        decreases a.len() - i,
    {
        if a[i] != b[i] {
            return false;
        }
        i = i + 1;
    }
    assert(a@ =~= b@);
    true
}

/// Whether a string equals a string slice.
pub fn str_is(s: &String, lit: &str) -> (r: bool)
    ensures
        r == (s@ == lit@),
{
    let a = chars_of(s.as_str());
    let b = chars_of(lit);
    chars_eq(&a, &b)
}

/// Every character of the text is ASCII.
pub open spec fn is_ascii_text(s: Seq<char>) -> bool {
    forall|i: int| 0 <= i < s.len() ==> s[i] <= '\u{7f}'
}

/// An ASCII upper-case letter to its lower-case form; any other character
/// is left as it is.
pub open spec fn ascii_lower(c: char) -> char {
    if 'A' <= c && c <= 'Z' {
        ((c as u32) + 32) as char
    } else {
        c
    }
}

/// An ASCII lower-case letter to its upper-case form; any other character
/// is left as it is.
pub open spec fn ascii_upper(c: char) -> char {
    if 'a' <= c && c <= 'z' {
        ((c as u32) - 32) as char
    } else {
        c
    }
}

/// The lowercase form of a text under Unicode's case mapping (what
/// `str::to_lowercase` computes), for a text that is not all ASCII.
pub uninterp spec fn unicode_lowercase(s: Seq<char>) -> Seq<char>;

/// The lowercase form of a text: on ASCII text, each letter A-Z becomes
/// a-z and every other character stays; beyond ASCII, Unicode's mapping.
#[verifier::opaque]
pub open spec fn lowercase(s: Seq<char>) -> Seq<char> {
    if is_ascii_text(s) {
        s.map_values(|c: char| ascii_lower(c))
    } else {
        unicode_lowercase(s)
    }
}

/// `str::to_lowercase`. On ASCII text its result is stated (A-Z become
/// a-z, nothing else changes); beyond ASCII it is named and not spelled
/// out: it follows the Unicode case tables, and depends on the text alone.
#[verifier::external_body]
pub(crate) fn to_lowercase(s: &str) -> (r: String)
    ensures
        r@ == lowercase(s@),
        is_ascii_text(s@) ==> r@ == s@.map_values(|c: char| ascii_lower(c)),
        !is_ascii_text(s@) ==> r@ == unicode_lowercase(s@),
{
    s.to_lowercase()
}

/// `s` without its leading and trailing whitespace (`str::trim`).
pub fn trim_chars(s: &[char]) -> (r: Vec<char>)
    ensures
        r@ == trimmed(s@),
{
    let mut a: usize = 0;
    assert(s@.subrange(0, s.len() as int) =~= s@);
    while a < s.len() && is_whitespace(s[a])
        invariant
            a <= s.len(),
            trim_start(s@) == trim_start(s@.subrange(a as int, s.len() as int)),
        decreases s.len() - a,
    {
        assert(s@.subrange(a as int, s.len() as int).drop_first() =~= s@.subrange(
            a + 1,
            s.len() as int,
        ));
        a = a + 1;
    }
    let ghost front = s@.subrange(a as int, s.len() as int);
    assert(trim_start(front) == front);
    let mut b: usize = s.len();
    while b > a && is_whitespace(s[b - 1])
        invariant
            a <= b <= s.len(),
            front == s@.subrange(a as int, s.len() as int),
            trim_end(front) == trim_end(s@.subrange(a as int, b as int)),
        decreases b,
    {
        assert(s@.subrange(a as int, b as int).drop_last() =~= s@.subrange(a as int, b - 1));
        b = b - 1;
    }
    let mut r: Vec<char> = Vec::new();
    let mut i = a;
    while i < b
        invariant
            a <= i <= b <= s.len(),
            r@ == s@.subrange(a as int, i as int),
        decreases b - i,
    {
        r.push(s[i]);
        i = i + 1;
        assert(r@ =~= s@.subrange(a as int, i as int));
    }
    r
}

/// The pieces of a text separated by `c` (`str::split(c)`: always at
/// least one piece).
pub open spec fn split_on(s: Seq<char>, c: char) -> Seq<Seq<char>>
    decreases s.len(),
{
    if s.len() == 0 {
        seq![Seq::empty()]
    } else {
        let w = split_on(s.drop_last(), c);
        if s.last() == c {
            w.push(Seq::empty())
        } else {
            w.update(w.len() - 1, w.last().push(s.last()))
        }
    }
}

pub proof fn lemma_split_on_nonempty(s: Seq<char>, c: char)
    ensures
        split_on(s, c).len() >= 1,
    decreases s.len(),
{
    if s.len() > 0 {
        lemma_split_on_nonempty(s.drop_last(), c);
    }
}

/// The view of a list of character vectors.
pub open spec fn char_vecs_view(v: Seq<Vec<char>>) -> Seq<Seq<char>> {
    v.map_values(|x: Vec<char>| x@)
}

/// Splits a text at every `c`.
pub fn split_chars(s: &Vec<char>, c: char) -> (r: Vec<Vec<char>>)
    ensures
        char_vecs_view(r@) == split_on(s@, c),
{
    let mut done: Vec<Vec<char>> = Vec::new();
    let mut piece: Vec<char> = Vec::new();
    let mut i: usize = 0;
    while i < s.len()
        invariant
            i <= s.len(),
            split_on(s@.take(i as int), c) == char_vecs_view(done@).push(piece@),
        decreases s.len() - i,
    {
        assert(s@.take(i + 1).drop_last() =~= s@.take(i as int));
        let ghost w = split_on(s@.take(i as int), c);
        if s[i] == c {
            let p = piece;
            done.push(p);
            piece = Vec::new();
            assert(char_vecs_view(done@).push(piece@) =~= w.push(Seq::empty()));
        } else {
            piece.push(s[i]);
            assert(char_vecs_view(done@).push(piece@) =~= w.update(w.len() - 1, w.last().push(
                s@[i as int],
            )));
        }
        i = i + 1;
    }
    assert(s@.take(s.len() as int) =~= s@);
    done.push(piece);
    done
}

/// What `String::from_utf8_lossy` makes of bytes: their UTF-8 decoding,
/// each invalid sequence replaced by U+FFFD.
pub uninterp spec fn utf8_lossy(bytes: Seq<u8>) -> Seq<char>;

/// `String::from_utf8_lossy`. On valid UTF-8 it is the decoding; how it
/// replaces invalid sequences is named, not spelled out.
#[verifier::external_body]
pub(crate) fn from_utf8_lossy(bytes: &[u8]) -> (r: String)
    ensures
        r@ == utf8_lossy(bytes@),
        vstd::utf8::valid_utf8(bytes@) ==> r@ == vstd::utf8::decode_utf8(bytes@),
{
    String::from_utf8_lossy(bytes).into_owned()
}

/// The whitespace-separated words of a text (`str::split_whitespace`).
pub fn split_ws(s: &[char]) -> (r: Vec<Vec<char>>)
    ensures
        char_vecs_view(r@) == words(s@),
{
    let mut r: Vec<Vec<char>> = Vec::new();
    let mut cur: Vec<char> = Vec::new();
    let mut i: usize = 0;
    while i < s.len()
        invariant
            0 <= i <= s.len(),
            (if cur.len() > 0 {
                char_vecs_view(r@).push(cur@)
            } else {
                char_vecs_view(r@)
            }) == words(s@.take(i as int)),
            cur.len() > 0 <==> (i > 0 && !is_ws(s@[i - 1])),
        decreases s.len() - i,
    {
        let c = s[i];
        let ghost pre = s@.take(i as int);
        let ghost next = s@.take(i + 1);
        assert(next.drop_last() =~= pre);
        assert(next.last() == c);
        if is_whitespace(c) {
            if cur.len() > 0 {
                let w = cur;
                r.push(w);
                cur = Vec::new();
            }
        } else {
            if i >= 1 {
                assert(next[next.len() - 2] == s@[i - 1]);
            }
            let ghost old_cur = cur@;
            cur.push(c);
            proof {
                if old_cur.len() > 0 {
                    assert(char_vecs_view(r@).push(old_cur).update(
                        char_vecs_view(r@).len() as int,
                        old_cur.push(c),
                    ) =~= char_vecs_view(r@).push(cur@));
                } else {
                    assert(old_cur.push(c) =~= seq![c]);
                }
            }
        }
        i = i + 1;
    }
    assert(s@.take(s.len() as int) =~= s@);
    if cur.len() > 0 {
        r.push(cur);
    }
    r
}

} // verus!
