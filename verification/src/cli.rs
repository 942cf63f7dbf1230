//! The command line: which mode the arguments ask for, how a flag search
//! result is listed, when indexing progress is reported, and where the
//! flag index is cached.
use vstd::prelude::*;
use crate::indexer::{FlagEntry, FlagEntryV};
use crate::numbers::{decimal, decimal_string};
use crate::text::{all_ws, append_str, chars_of, is_all_whitespace, join, str_is, string_of};

verus! {

/// What the arguments ask for.
#[derive(Debug)]
pub enum Command {
    /// Search every installed page's flags for a query.
    Flags { query: String },
    /// Build the flag index afresh.
    RebuildIndex,
    /// Show a page, by name or path, with an optional section.
    View { name: String, section: Option<String> },
    /// No arguments: print how to use the program.
    Usage,
}

pub enum CommandV {
    Flags { query: Seq<char> },
    RebuildIndex,
    View { name: Seq<char>, section: Option<Seq<char>> },
    Usage,
}

impl View for Command {
    type V = CommandV;

    open spec fn view(&self) -> CommandV {
        match self {
            Command::Flags { query } => CommandV::Flags { query: query@ },
            Command::RebuildIndex => CommandV::RebuildIndex,
            Command::View { name, section } => CommandV::View {
                name: name@,
                section: match section {
                    Some(s) => Some(s@),
                    None => None,
                },
            },
            Command::Usage => CommandV::Usage,
        }
    }
}

pub open spec fn strings_view(v: Seq<String>) -> Seq<Seq<char>> {
    v.map_values(|s: String| s@)
}

/// The mode the arguments (after the program's name) ask for: `flags`
/// with the rest joined by spaces as the query, `rebuild-index`, or a
/// page name with an optional section; nothing at all asks for usage.
pub open spec fn command_of(args: Seq<Seq<char>>) -> CommandV {
    if args.len() == 0 {
        CommandV::Usage
    } else if args[0] == "flags"@ {
        CommandV::Flags { query: join(args.drop_first(), " "@) }
    } else if args[0] == "rebuild-index"@ {
        CommandV::RebuildIndex
    } else {
        CommandV::View {
            name: args[0],
            section: if args.len() > 1 {
                Some(args[1])
            } else {
                None
            },
        }
    }
}

/// The pieces joined with spaces between them.
pub fn join_spaced(v: &Vec<String>, from: usize) -> (r: String)
    requires
        from <= v.len(),
    ensures
        r@ == join(strings_view(v@).subrange(from as int, v.len() as int), " "@),
{
    let ghost ws = strings_view(v@).subrange(from as int, v.len() as int);
    let mut out: Vec<char> = Vec::new();
    let mut i: usize = from;
    assert(ws.take(0) =~= Seq::<Seq<char>>::empty());
    while i < v.len()
        invariant
            from <= i <= v.len(),
            ws == strings_view(v@).subrange(from as int, v.len() as int),
            out@ == join(ws.take(i - from), " "@),
        decreases v.len() - i,
    {
        let ghost k = i - from;
        assert(ws.take(k + 1).drop_last() =~= ws.take(k));
        assert(ws[k] == v@[i as int]@);
        if i > from {
            append_str(&mut out, " ");
        } else {
            assert(ws.take(k + 1) =~= seq![ws[k]]);
        }
        append_str(&mut out, v[i].as_str());
        i = i + 1;
    }
    assert(ws.take(v.len() - from) =~= ws);
    string_of(&out)
}

/// Reads the mode from the arguments (see `command_of`).
pub fn parse_command(args: Vec<String>) -> (r: Command)
    ensures
        r@ == command_of(strings_view(args@)),
{
    let ghost a = strings_view(args@);
    if args.len() == 0 {
        return Command::Usage;
    }
    assert(a[0] == args@[0]@);
    if str_is(&args[0], "flags") {
        let query = join_spaced(&args, 1);
        assert(a.subrange(1, a.len() as int) =~= a.drop_first());
        return Command::Flags { query };
    }
    if str_is(&args[0], "rebuild-index") {
        return Command::RebuildIndex;
    }
    let name = args[0].clone();
    let section = if args.len() > 1 {
        assert(a[1] == args@[1]@);
        Some(args[1].clone())
    } else {
        None
    };
    Command::View { name, section }
}

/// Whether a page argument names a file rather than a page: it holds a
/// '/', or a file of that name exists (`is_file`, which the caller probes).
pub fn names_a_path(name: &str, is_file: bool) -> (r: bool)
    ensures
        r == (name@.contains('/') || is_file),
{
    if is_file {
        return true;
    }
    let cs = chars_of(name);
    let mut i: usize = 0;
    while i < cs.len()
        invariant
            cs@ == name@,
            i <= cs.len(),
            forall|j: int| 0 <= j < i ==> cs@[j] != '/',
        decreases cs.len() - i,
    {
        if cs[i] == '/' {
            assert(name@[i as int] == '/');
            return true;
        }
        i = i + 1;
    }
    false
}

/// Whether a query is empty once its surrounding whitespace is gone.
pub fn is_blank(s: &str) -> (r: bool)
    ensures
        r == all_ws(s@),
{
    let cs = chars_of(s);
    is_all_whitespace(&cs)
}

/// How the `i`-th result of a flag search is listed: its number, page,
/// section and flag; then its description, indented, when it has one.
pub open spec fn flag_entry_text(i: nat, e: FlagEntryV) -> Seq<Seq<char>> {
    let head = decimal(i) + ") "@ + e.name + "("@ + e.section + ")  "@ + e.flag;
    if e.description.len() > 0 {
        seq![head, "   "@ + e.description]
    } else {
        seq![head]
    }
}

pub open spec fn string_seq_view(v: Seq<String>) -> Seq<Seq<char>> {
    v.map_values(|s: String| s@)
}

/// The lines listing the `i`-th result of a flag search.
pub fn flag_entry_lines(i: usize, e: &FlagEntry) -> (r: Vec<String>)
    ensures
        string_seq_view(r@) == flag_entry_text(i as nat, e@),
{
    let mut head: Vec<char> = Vec::new();
    let n = decimal_string(i);
    append_str(&mut head, n.as_str());
    append_str(&mut head, ") ");
    append_str(&mut head, e.name.as_str());
    append_str(&mut head, "(");
    append_str(&mut head, e.section.as_str());
    append_str(&mut head, ")  ");
    append_str(&mut head, e.flag.as_str());
    let mut out: Vec<String> = Vec::new();
    out.push(string_of(&head));
    if !e.description.as_str().is_empty() {
        let mut d: Vec<char> = Vec::new();
        append_str(&mut d, "   ");
        append_str(&mut d, e.description.as_str());
        out.push(string_of(&d));
    }
    assert(string_seq_view(out@) =~= flag_entry_text(i as nat, e@));
    out
}

/// Whether indexing progress is worth reporting: when all pages are
/// done, or when the count of pages done passes a multiple of fifty.
pub open spec fn report_due(done: int, prev: int, total: int) -> bool {
    done == total || done / 50 != prev / 50
}

/// Decides whether to report progress after `done` of `total` pages,
/// the last report having been at `prev`.
pub fn should_report(done: usize, prev: usize, total: usize) -> (r: bool)
    ensures
        r == report_due(done as int, prev as int, total as int),
{
    done == total || done / 50 != prev / 50
}

/// A path with one more relative component, as `Path::join` makes it: a
/// separator goes between them unless the path is empty or already ends
/// with one.
pub open spec fn path_join(base: Seq<char>, comp: Seq<char>) -> Seq<char> {
    if base.len() == 0 || base.last() == '/' {
        base + comp
    } else {
        base + "/"@ + comp
    }
}

/// Where the flag index is cached: under `$XDG_CACHE_HOME` when it is
/// set, else under `$HOME/.cache` (the current directory when `HOME` is
/// unset), in `manview/flags_index.json`.
pub open spec fn cache_path_of(xdg: Option<Seq<char>>, home: Option<Seq<char>>) -> Seq<char> {
    let base = match xdg {
        Some(x) => x,
        None => path_join(
            match home {
                Some(h) => h,
                None => "."@,
            },
            ".cache"@,
        ),
    };
    path_join(path_join(base, "manview"@), "flags_index.json"@)
}

fn join_component(base: Vec<char>, comp: &str) -> (r: Vec<char>)
    ensures
        r@ == path_join(base@, comp@),
{
    let mut out = base;
    if out.len() > 0 && out[out.len() - 1] != '/' {
        append_str(&mut out, "/");
    }
    append_str(&mut out, comp);
    out
}

/// The cache file's path, given `$XDG_CACHE_HOME` and `$HOME`.
pub fn cache_path(xdg: Option<String>, home: Option<String>) -> (r: String)
    ensures
        r@ == cache_path_of(
            match xdg {
                Some(x) => Some(x@),
                None => None,
            },
            match home {
                Some(h) => Some(h@),
                None => None,
            },
        ),
{
    let base = match xdg {
        Some(x) => chars_of(x.as_str()),
        None => {
            let h = match home {
                Some(h) => chars_of(h.as_str()),
                None => chars_of("."),
            };
            join_component(h, ".cache")
        },
    };
    let dir = join_component(base, "manview");
    let file = join_component(dir, "flags_index.json");
    string_of(&file)
}

} // verus!
