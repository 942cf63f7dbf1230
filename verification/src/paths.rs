//! File names and extensions of slash-separated paths.
use vstd::prelude::*;

verus! {

/// The position of the last `c` in `s[..n]`.
pub open spec fn last_index(s: Seq<char>, c: char, n: int) -> Option<int>
    decreases n,
{
    if n <= 0 || n > s.len() {
        None
    } else if s[n - 1] == c {
        Some(n - 1)
    } else {
        last_index(s, c, n - 1)
    }
}

/// A path without what ends it but names no component: trailing
/// separators, and "." components after a separator.
pub open spec fn trim_tail(p: Seq<char>) -> Seq<char>
    decreases p.len(),
{
    if p.len() > 0 && p.last() == '/' {
        trim_tail(p.drop_last())
    } else if p.len() >= 2 && p.last() == '.' && p[p.len() - 2] == '/' {
        trim_tail(p.drop_last())
    } else {
        p
    }
}

/// What follows the last '/' of a text (all of it when there is none).
pub open spec fn after_last_slash(p: Seq<char>) -> Seq<char> {
    match last_index(p, '/', p.len() as int) {
        Some(i) => p.subrange(i + 1, p.len() as int),
        None => p,
    }
}

/// The last component of a path, as `Path::file_name` finds it: trailing
/// separators and "." components are passed over; empty when the path
/// ends in ".." or names no component.
pub open spec fn file_name(path: Seq<char>) -> Seq<char> {
    let c = after_last_slash(trim_tail(path));
    if c == seq!['.'] || c == seq!['.', '.'] {
        Seq::empty()
    } else {
        c
    }
}

/// The extension of a file name: what follows its last '.', when that dot
/// is not its first character.
pub open spec fn extension(name: Seq<char>) -> Option<Seq<char>> {
    match last_index(name, '.', name.len() as int) {
        Some(i) => if i > 0 {
            Some(name.subrange(i + 1, name.len() as int))
        } else {
            None
        },
        None => None,
    }
}

/// The position of the last `c` in `s`.
pub fn last_index_exec(s: &Vec<char>, c: char) -> (r: Option<usize>)
    ensures
        match r {
            Some(i) => last_index(s@, c, s@.len() as int) == Some(i as int) && i < s.len(),
            None => last_index(s@, c, s@.len() as int) is None,
        },
{
    let mut n = s.len();
    while n > 0
        invariant
            n <= s.len(),
            last_index(s@, c, n as int) == last_index(s@, c, s@.len() as int),
        decreases n,
    {
        if s[n - 1] == c {
            return Some(n - 1);
        }
        n = n - 1;
    }
    None
}

/// The last component of a path (see `file_name`).
pub fn file_name_exec(path: &Vec<char>) -> (r: Vec<char>)
    ensures
        r@ == file_name(path@),
{
    let mut n = path.len();
    assert(path@.subrange(0, n as int) =~= path@);
    loop
        invariant
            n <= path.len(),
            trim_tail(path@) == trim_tail(path@.subrange(0, n as int)),
        ensures
            n <= path.len(),
            trim_tail(path@) == path@.subrange(0, n as int),
        decreases n,
    {
        let ghost t = path@.subrange(0, n as int);
        if n > 0 && path[n - 1] == '/' {
            assert(t.drop_last() =~= path@.subrange(0, n - 1));
            n = n - 1;
        } else if n >= 2 && path[n - 1] == '.' && path[n - 2] == '/' {
            assert(t.drop_last() =~= path@.subrange(0, n - 1));
            n = n - 1;
        } else {
            assert(trim_tail(t) == t);
            break;
        }
    }
    let t = crate::links::slice_range(path, 0, n);
    let c = match last_index_exec(&t, '/') {
        Some(i) => crate::links::slice_range(&t, i + 1, t.len()),
        None => t,
    };
    let dot = c.len() == 1 && c[0] == '.';
    let dotdot = c.len() == 2 && c[0] == '.' && c[1] == '.';
    proof {
        if c@ == seq!['.'] {
            assert(c@[0] == '.');
        }
        if c@ == seq!['.', '.'] {
            assert(c@[0] == '.' && c@[1] == '.');
        }
        if dot {
            assert(c@ =~= seq!['.']);
        }
        if dotdot {
            assert(c@ =~= seq!['.', '.']);
        }
    }
    if dot || dotdot {
        let e: Vec<char> = Vec::new();
        assert(e@ =~= file_name(path@));
        e
    } else {
        c
    }
}

/// Whether a path's last component has the extension "gz".
pub open spec fn is_gz_path(path: Seq<char>) -> bool {
    extension(file_name(path)) == Some(seq!['g', 'z'])
}

/// Whether a path's last component has the extension "gz".
pub fn is_gz_exec(path: &str) -> (r: bool)
    ensures
        r == is_gz_path(path@),
{
    let p = crate::text::chars_of(path);
    let name = file_name_exec(&p);
    match last_index_exec(&name, '.') {
        Some(i) => {
            if i == 0 {
                return false;
            }
            let ext = crate::links::slice_range(&name, i + 1, name.len());
            let r = ext.len() == 2 && ext[0] == 'g' && ext[1] == 'z';
            assert(r == (ext@ == seq!['g', 'z'])) by {
                if ext.len() == 2 && ext[0] == 'g' && ext[1] == 'z' {
                    assert(ext@ =~= seq!['g', 'z']);
                }
            }
            r
        },
        None => false,
    }
}

} // verus!
