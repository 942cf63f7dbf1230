//! Finding every man page installed on the system, across all `manpath`
//! directories (falling back to the usual default locations when the
//! `manpath` tool isn't available).
//!
//! The walk is a sequence of decisions between directory reads: the
//! caller reads the directory that `Walker::next_dir` asks for and hands
//! the listing back with `Walker::listing`.
use vstd::prelude::*;
use crate::paths::{file_name, last_index, file_name_exec, last_index_exec};
use crate::text::{
    chars_of, string_of, trimmed, trim_chars, split_on, split_chars, char_vecs_view, utf8_lossy,
    from_utf8_lossy,
};

verus! {

/// One discovered man page on disk, with its name/section already
/// parsed out of the filename (e.g. "ls.1.gz" -> name="ls", section="1").
#[derive(Debug, Clone)]
pub struct PageRef {
    pub path: String,
    pub name: String,
    pub section: String,
}

pub struct PageRefV {
    pub path: Seq<char>,
    pub name: Seq<char>,
    pub section: Seq<char>,
}

impl View for PageRef {
    type V = PageRefV;

    open spec fn view(&self) -> PageRefV {
        PageRefV { path: self.path@, name: self.name@, section: self.section@ }
    }
}

pub open spec fn strings_view(v: Seq<String>) -> Seq<Seq<char>> {
    v.map_values(|s: String| s@)
}

pub open spec fn pages_view(v: Seq<PageRef>) -> Seq<PageRefV> {
    v.map_values(|p: PageRef| p@)
}

pub open spec fn works_view(v: Seq<Work>) -> Seq<WorkV> {
    v.map_values(|w: Work| w@)
}

pub open spec fn roots(dirs: Seq<Seq<char>>) -> Seq<WorkV> {
    dirs.map_values(|d: Seq<char>| WorkV::Root(d))
}

pub open spec fn entry_works(es: Seq<(Seq<char>, EntryKind)>) -> Seq<WorkV> {
    es.map_values(|e: (Seq<char>, EntryKind)| WorkV::Entry(e.0, e.1))
}

proof fn lemma_reverse_skip<A>(s: Seq<A>, i: int)
    requires
        0 <= i < s.len(),
    ensures
        s.skip(i).reverse() == s.skip(i + 1).reverse().push(s[i]),
{
    let a = s.skip(i).reverse();
    let b = s.skip(i + 1).reverse().push(s[i]);
    assert(a.len() == b.len());
    assert forall|k: int| 0 <= k < a.len() implies a[k] == b[k] by {
        if k < a.len() - 1 {
            assert(a[k] == s.skip(i)[s.len() - i - 1 - k]);
            assert(b[k] == s.skip(i + 1).reverse()[k]);
            assert(s.skip(i + 1).reverse()[k] == s.skip(i + 1)[s.len() - i - 2 - k]);
        } else {
            assert(a[k] == s.skip(i)[0]);
        }
    }
    assert(a =~= b);
}

/// A file name without a trailing ".gz".
pub open spec fn strip_gz(s: Seq<char>) -> Seq<char> {
    if s.len() >= 3 && s.subrange(s.len() - 3, s.len() as int) == seq!['.', 'g', 'z'] {
        s.subrange(0, s.len() - 3)
    } else {
        s
    }
}

/// The page a file holds, going by its name "<name>.<section>[.gz]":
/// both parts non-empty, the section starting with a digit or being "n".
pub open spec fn page_of_path(path: Seq<char>) -> Option<PageRefV> {
    let stem = strip_gz(file_name(path));
    match last_index(stem, '.', stem.len() as int) {
        Some(d) => {
            let name = stem.subrange(0, d);
            let section = stem.subrange(d + 1, stem.len() as int);
            if name.len() == 0 || section.len() == 0 {
                None
            } else if ('0' <= section[0] && section[0] <= '9') || section == seq!['n'] {
                Some(PageRefV { path, name, section })
            } else {
                None
            }
        },
        None => None,
    }
}

/// Parses "ls.1.gz" into name "ls" and section "1". Filters out things
/// like locale ".mo" files that might share the directory tree.
pub fn parse_page_filename(path: &str) -> (r: Option<PageRef>)
    ensures
        match r {
            Some(p) => page_of_path(path@) == Some(p@),
            None => page_of_path(path@) is None,
        },
{
    let pc = chars_of(path);
    let fname = file_name_exec(&pc);
    let n = fname.len();
    let stem = if n >= 3 && fname[n - 3] == '.' && fname[n - 2] == 'g' && fname[n - 1] == 'z' {
        assert(fname@.subrange(n - 3, n as int) =~= seq!['.', 'g', 'z']);
        crate::links::slice_range(&fname, 0, n - 3)
    } else {
        proof {
            if n >= 3 && fname@.subrange(n - 3, n as int) == seq!['.', 'g', 'z'] {
                assert(fname@.subrange(n - 3, n as int)[0] == fname@[n - 3]);
                assert(fname@.subrange(n - 3, n as int)[1] == fname@[n - 2]);
                assert(fname@.subrange(n - 3, n as int)[2] == fname@[n - 1]);
            }
        }
        crate::links::slice_range(&fname, 0, n)
    };
    assert(stem@ == strip_gz(fname@));
    match last_index_exec(&stem, '.') {
        Some(d) => {
            if d == 0 || d + 1 == stem.len() {
                return None;
            }
            let first = stem[d + 1];
            let is_n = d + 2 == stem.len() && first == 'n';
            assert(stem@.subrange(d + 1, stem@.len() as int)[0] == first);
            proof {
                let sec = stem@.subrange(d + 1, stem@.len() as int);
                if is_n {
                    assert(sec =~= seq!['n']);
                }
                if sec == seq!['n'] {
                    assert(sec.len() == 1);
                }
            }
            if ('0' <= first && first <= '9') || is_n {
                Some(
                    PageRef {
                        path: path.to_owned(),
                        name: crate::links::sub_string(&stem, 0, d),
                        section: crate::links::sub_string(&stem, d + 1, stem.len()),
                    },
                )
            } else {
                None
            }
        },
        None => None,
    }
}

/// Where man pages are looked for when `manpath` is not available.
pub open spec fn default_dirs() -> Seq<Seq<char>> {
    seq!["/usr/share/man"@, "/usr/local/share/man"@]
}

/// The directories to walk: the colon-separated list that `manpath`
/// printed (when it ran and succeeded), else the default locations.
pub open spec fn manpath_dirs(output: Option<Seq<u8>>) -> Seq<Seq<char>> {
    match output {
        Some(bytes) => split_on(trimmed(utf8_lossy(bytes)), ':'),
        None => default_dirs(),
    }
}

/// The directories to walk, from what `manpath` printed.
pub fn manpath_dirs_exec(output: Option<Vec<u8>>) -> (r: Vec<String>)
    ensures
        strings_view(r@) == manpath_dirs(
            match output {
                Some(v) => Some(v@),
                None => None,
            },
        ),
{
    match output {
        Some(bytes) => {
            let text = from_utf8_lossy(bytes.as_slice());
            let cs = chars_of(text.as_str());
            let t = trim_chars(&cs);
            let pieces = split_chars(&t, ':');
            let mut r: Vec<String> = Vec::new();
            let mut i: usize = 0;
            while i < pieces.len()
                invariant
                    i <= pieces.len(),
                    r.len() == i,
                    strings_view(r@) == char_vecs_view(pieces@).take(i as int),
                decreases pieces.len() - i,
            {
                let ghost old_r = r@;
                r.push(string_of(&pieces[i]));
                proof {
                    let cv = char_vecs_view(pieces@);
                    assert forall|j: int| 0 <= j < i + 1 implies #[trigger] strings_view(r@)[j]
                        == cv.take(i + 1)[j] by {
                        if j < i {
                            assert(r@[j] == old_r[j]);
                            assert(strings_view(old_r)[j] == cv.take(i as int)[j]);
                        } else {
                            assert(cv[j] == pieces@[j]@);
                        }
                    }
                }
                i = i + 1;
                assert(strings_view(r@) =~= char_vecs_view(pieces@).take(i as int));
            }
            assert(char_vecs_view(pieces@).take(pieces.len() as int) =~= char_vecs_view(pieces@));
            r
        },
        None => {
            let mut r: Vec<String> = Vec::new();
            r.push("/usr/share/man".to_owned());
            r.push("/usr/local/share/man".to_owned());
            assert(strings_view(r@) =~= default_dirs());
            r
        },
    }
}

/// What kind of directory entry the caller found.
#[derive(Debug, Clone, Copy, PartialEq, Eq)]
pub enum EntryKind {
    Dir,
    /// Anything that is not a directory (a file, a symbolic link, ...).
    File,
    /// The entry's file type could not be read.
    Unknown,
}

/// One entry of a directory listing.
#[derive(Debug, Clone)]
pub struct DirEntryInfo {
    pub path: String,
    pub kind: EntryKind,
}

/// What remains to be visited: a manpath directory, or an entry of a
/// directory already read.
pub enum Work {
    Root(String),
    Entry(DirEntryInfo),
}

pub enum WorkV {
    Root(Seq<char>),
    Entry(Seq<char>, EntryKind),
}

impl View for Work {
    type V = WorkV;

    open spec fn view(&self) -> WorkV {
        match self {
            Work::Root(p) => WorkV::Root(p@),
            Work::Entry(e) => WorkV::Entry(e.path@, e.kind),
        }
    }
}

/// The state of a walk: what remains to be visited (the next item last),
/// and the pages found so far.
pub struct Walker {
    stack: Vec<Work>,
    pages: Vec<PageRef>,
}

pub struct WalkerV {
    pub stack: Seq<WorkV>,
    pub pages: Seq<PageRefV>,
}

impl View for Walker {
    type V = WalkerV;

    closed spec fn view(&self) -> WalkerV {
        WalkerV {
            stack: works_view(self.stack@),
            pages: pages_view(self.pages@),
        }
    }
}

/// Whether a directory holds preformatted pages ("cat1", "cat3", ...):
/// the same content as the man*/ directories.
pub open spec fn is_cat_dir(path: Seq<char>) -> bool {
    let n = file_name(path);
    n.len() >= 3 && n[0] == 'c' && n[1] == 'a' && n[2] == 't'
}

/// Visits items until a directory has to be read (returned) or nothing
/// remains (None). Files that name pages are recorded; "cat*"
/// directories and entries of unknown type are skipped.
pub open spec fn advance(st: WalkerV) -> (WalkerV, Option<Seq<char>>)
    decreases st.stack.len(),
{
    if st.stack.len() == 0 {
        (st, None)
    } else {
        let rest = WalkerV { stack: st.stack.drop_last(), pages: st.pages };
        match st.stack.last() {
            WorkV::Root(p) => (rest, Some(p)),
            WorkV::Entry(p, kind) => match kind {
                EntryKind::Dir => if is_cat_dir(p) {
                    advance(rest)
                } else {
                    (rest, Some(p))
                },
                EntryKind::File => advance(
                    WalkerV {
                        stack: rest.stack,
                        pages: match page_of_path(p) {
                            Some(pg) => st.pages.push(pg),
                            None => st.pages,
                        },
                    },
                ),
                EntryKind::Unknown => advance(rest),
            },
        }
    }
}

/// The entries of a directory just read go before everything else, the
/// first of them next; a directory that could not be read adds nothing.
pub open spec fn add_listing(st: WalkerV, entries: Option<Seq<(Seq<char>, EntryKind)>>) -> WalkerV {
    match entries {
        Some(es) => WalkerV {
            stack: st.stack + entry_works(es.reverse()),
            pages: st.pages,
        },
        None => st,
    }
}

/// The start of a walk: the manpath directories, the first of them next.
pub open spec fn walk_start(dirs: Seq<Seq<char>>) -> WalkerV {
    WalkerV {
        stack: roots(dirs.reverse()),
        pages: Seq::empty(),
    }
}

pub open spec fn entries_view(v: Seq<DirEntryInfo>) -> Seq<(Seq<char>, EntryKind)> {
    v.map_values(|e: DirEntryInfo| (e.path@, e.kind))
}

/// Starts discovering every installed page. `manpath_output` is what the
/// `manpath` tool printed, or None when it could not run or failed.
pub fn discover_pages(manpath_output: Option<Vec<u8>>) -> (w: Walker)
    ensures
        w@ == walk_start(
            manpath_dirs(
                match manpath_output {
                    Some(v) => Some(v@),
                    None => None,
                },
            ),
        ),
{
    let dirs = manpath_dirs_exec(manpath_output);
    let ghost dv = strings_view(dirs@);
    let mut stack: Vec<Work> = Vec::new();
    let mut i = dirs.len();
    let mut dirs = dirs;
    while i > 0
        invariant
            i == dirs.len(),
            strings_view(dirs@) == dv.take(i as int),
            i <= dv.len(),
            works_view(stack@) == roots(dv.skip(i as int).reverse()),
        decreases i,
    {
        let ghost od = dirs@;
        let d = dirs.pop().unwrap();
        assert(strings_view(od)[i - 1] == dv.take(i as int)[i - 1]);
        stack.push(Work::Root(d));
        i = i - 1;
        assert(strings_view(dirs@) =~= dv.take(i as int));
        proof {
            lemma_reverse_skip(dv, i as int);
            assert(roots(dv.skip(i + 1).reverse().push(dv[i as int])) =~= roots(
                dv.skip(i + 1).reverse(),
            ).push(WorkV::Root(dv[i as int])));
            assert(d@ == dv[i as int]);
        }
        assert(works_view(stack@) =~= roots(dv.skip(i as int).reverse()));
    }
    assert(dv.skip(0) =~= dv);
    let w = Walker { stack, pages: Vec::new() };
    assert(w@.pages =~= Seq::<PageRefV>::empty());
    w
}

fn is_cat_dir_exec(path: &str) -> (r: bool)
    ensures
        r == is_cat_dir(path@),
{
    let pc = chars_of(path);
    let n = file_name_exec(&pc);
    n.len() >= 3 && n[0] == 'c' && n[1] == 'a' && n[2] == 't'
}

impl Walker {
    /// The directory to read next, or None when the walk is over.
    pub fn next_dir(&mut self) -> (r: Option<String>)
        ensures
            (final(self)@, match r {
                Some(s) => Some(s@),
                None => None,
            }) == advance(old(self)@),
    {
        loop
            invariant
                advance(self@) == advance(old(self)@),
            decreases self.stack.len(),
        {
            let ghost before = self@;
            match self.stack.pop() {
                None => {
                    assert(self@ == before);
                    return None;
                },
                Some(w) => {
                    assert(self@.stack =~= before.stack.drop_last());
                    assert(before.stack.last() == w@);
                    match w {
                        Work::Root(p) => {
                            return Some(p);
                        },
                        Work::Entry(e) => {
                            match e.kind {
                                EntryKind::Dir => {
                                    if !is_cat_dir_exec(e.path.as_str()) {
                                        return Some(e.path);
                                    }
                                },
                                EntryKind::File => {
                                    let ghost p0 = self.pages@;
                                    match parse_page_filename(e.path.as_str()) {
                                        Some(pg) => {
                                            self.pages.push(pg);
                                            assert(pages_view(self.pages@) =~= pages_view(p0).push(
                                                pg@,
                                            ));
                                        },
                                        None => {},
                                    }
                                    assert(self@.stack =~= before.stack.drop_last());
                                },
                                EntryKind::Unknown => {},
                            }
                        },
                    }
                },
            }
        }
    }

    /// Hands over the listing of the directory last returned by
    /// `next_dir`, or None when it could not be read.
    pub fn listing(&mut self, entries: Option<Vec<DirEntryInfo>>)
        ensures
            final(self)@ == add_listing(
                old(self)@,
                match entries {
                    Some(v) => Some(entries_view(v@)),
                    None => None,
                },
            ),
    {
        match entries {
            Some(v) => {
                let ghost s0 = self@.stack;
                let ghost ev = entries_view(v@);
                let mut v = v;
                let mut i = v.len();
                while i > 0
                    invariant
                        i == v.len(),
                        entries_view(v@) == ev.take(i as int),
                        self@.pages == old(self)@.pages,
                        i <= ev.len(),
                        self@.stack == s0 + entry_works(ev.skip(i as int).reverse()),
                    decreases i,
                {
                    let ghost ov = v@;
                    let e = v.pop().unwrap();
                    assert(entries_view(ov)[i - 1] == ev.take(i as int)[i - 1]);
                    let ghost before = self@.stack;
                    let ghost ew = WorkV::Entry(e.path@, e.kind);
                    let ghost pe = (e.path@, e.kind);
                    self.stack.push(Work::Entry(e));
                    assert(self@.stack =~= before.push(ew));
                    i = i - 1;
                    assert(entries_view(v@) =~= ev.take(i as int));
                    proof {
                        lemma_reverse_skip(ev, i as int);
                        assert(entry_works(ev.skip(i + 1).reverse().push(ev[i as int])) =~= entry_works(
                            ev.skip(i + 1).reverse(),
                        ).push(WorkV::Entry(ev[i as int].0, ev[i as int].1)));
                        assert(ev[i as int] == pe);
                    }
                    assert(self@.stack =~= s0 + entry_works(ev.skip(i as int).reverse()));
                }
                assert(ev.skip(0) =~= ev);
            },
            None => {},
        }
    }

    /// The pages found so far, in the order they were found.
    pub fn pages(&self) -> (r: &Vec<PageRef>)
        ensures
            pages_view(r@) == self@.pages,
    {
        &self.pages
    }

    /// The pages found, giving up the walk.
    pub fn into_pages(self) -> (r: Vec<PageRef>)
        ensures
            pages_view(r@) == self@.pages,
    {
        self.pages
    }
}

/// Every page recorded is what its own file name parses to.
pub open spec fn pages_parsed(pages: Seq<PageRefV>) -> bool {
    forall|i: int| 0 <= i < pages.len() ==> page_of_path(#[trigger] pages[i].path) == Some(pages[i])
}

/// A walk only ever adds pages, and each page it records is what its
/// file name parses to; a directory it hands out to be read is a manpath
/// directory or not a "cat" directory.
pub proof fn law_walk_records_parsed_pages(
    st: WalkerV,
    entries: Option<Seq<(Seq<char>, EntryKind)>>,
)
    requires
        pages_parsed(st.pages),
    ensures
        pages_parsed(advance(st).0.pages),
        st.pages.len() <= advance(st).0.pages.len(),
        advance(st).0.pages.take(st.pages.len() as int) == st.pages,
        advance(st).1 matches Some(d) ==> (st.stack.contains(WorkV::Root(d)) || !is_cat_dir(d)),
        add_listing(st, entries).pages == st.pages,
    decreases st.stack.len(),
{
    assert(st.pages.take(st.pages.len() as int) =~= st.pages);
    if st.stack.len() > 0 {
        let rest = WalkerV { stack: st.stack.drop_last(), pages: st.pages };
        assert(st.stack.last() == st.stack[st.stack.len() - 1]);
        match st.stack.last() {
            WorkV::Root(p) => {
                assert(st.stack.contains(WorkV::Root(p)));
            },
            WorkV::Entry(p, kind) => match kind {
                EntryKind::Dir => if is_cat_dir(p) {
                    law_walk_records_parsed_pages(rest, None);
                    lemma_root_in_rest(st, advance(rest).1);
                },
                EntryKind::File => {
                    let np = match page_of_path(p) {
                        Some(pg) => st.pages.push(pg),
                        None => st.pages,
                    };
                    let nx = WalkerV { stack: rest.stack, pages: np };
                    match page_of_path(p) {
                        Some(pg) => {
                            lemma_page_path(p);
                            assert forall|i: int| 0 <= i < np.len() implies page_of_path(
                                #[trigger] np[i].path,
                            ) == Some(np[i]) by {
                                if i < st.pages.len() {
                                    assert(np[i] == st.pages[i]);
                                }
                            }
                        },
                        None => {},
                    }
                    law_walk_records_parsed_pages(nx, None);
                    assert(advance(nx).0.pages.take(st.pages.len() as int) =~= advance(nx).0.pages.take(
                        np.len() as int,
                    ).take(st.pages.len() as int));
                    assert(np.take(st.pages.len() as int) =~= st.pages);
                    lemma_root_in_rest(st, advance(nx).1);
                },
                EntryKind::Unknown => {
                    law_walk_records_parsed_pages(rest, None);
                    lemma_root_in_rest(st, advance(rest).1);
                },
            },
        }
    }
}

proof fn lemma_root_in_rest(st: WalkerV, d: Option<Seq<char>>)
    requires
        st.stack.len() > 0,
        d matches Some(x) ==> (st.stack.drop_last().contains(WorkV::Root(x)) || !is_cat_dir(x)),
    ensures
        d matches Some(x) ==> (st.stack.contains(WorkV::Root(x)) || !is_cat_dir(x)),
{
    if let Some(x) = d {
        if st.stack.drop_last().contains(WorkV::Root(x)) {
            let i = choose|i: int| 0 <= i < st.stack.drop_last().len() && st.stack.drop_last()[i] == WorkV::Root(x);
            assert(st.stack[i] == WorkV::Root(x));
        }
    }
}

proof fn lemma_page_path(p: Seq<char>)
    requires
        page_of_path(p) is Some,
    ensures
        page_of_path(p)->Some_0.path == p,
{
}

} // verus!
