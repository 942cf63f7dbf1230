//! Loading a page: locate it with `man -w`, read it (gunzipping when the
//! file name ends in ".gz"), render it with mandoc, and parse mandoc's
//! HTML into a `Document`.
//!
//! Running programs and reading files is the caller's part: each step
//! says what to do next, and the caller hands back what came of it.
use vstd::prelude::*;
use crate::document::{Document, DocumentM};
use crate::html::{fragment_edges, tree_of_events};
use crate::parse::{document_of, parse_document};
use crate::paths::{is_gz_path, is_gz_exec};
use crate::text::{append_str, chars_of, string_of, trim_chars, trimmed, utf8_lossy, from_utf8_lossy};

verus! {

/// Why a page could not be loaded.
#[derive(Debug)]
pub enum ManError {
    /// No such page: `man -w` failed or printed nothing.
    NotFound(String),
    /// Running a program or reading a file failed.
    Io(String),
    /// The page's source is not valid UTF-8.
    Utf8(String),
    /// mandoc could not be started.
    MandocMissing(String),
}

pub enum ManErrorV {
    NotFound(Seq<char>),
    Io(Seq<char>),
    Utf8(Seq<char>),
    MandocMissing(Seq<char>),
}

impl View for ManError {
    type V = ManErrorV;

    open spec fn view(&self) -> ManErrorV {
        match self {
            ManError::NotFound(s) => ManErrorV::NotFound(s@),
            ManError::Io(s) => ManErrorV::Io(s@),
            ManError::Utf8(s) => ManErrorV::Utf8(s@),
            ManError::MandocMissing(s) => ManErrorV::MandocMissing(s@),
        }
    }
}

impl ManErrorV {
    /// The message reporting the error.
    pub open spec fn message(self) -> Seq<char> {
        match self {
            ManErrorV::NotFound(s) => "man page not found: "@ + s,
            ManErrorV::Io(s) => "io error: "@ + s,
            ManErrorV::Utf8(s) => "invalid utf8 in man page source: "@ + s,
            ManErrorV::MandocMissing(s) => "couldn't run mandoc (is it installed?): "@ + s,
        }
    }
}

impl ManError {
    /// The message reporting the error.
    pub fn message(&self) -> (r: String)
        ensures
            r@ == self@.message(),
    {
        let mut v: Vec<char> = Vec::new();
        match self {
            ManError::NotFound(s) => {
                append_str(&mut v, "man page not found: ");
                append_str(&mut v, s.as_str());
            },
            ManError::Io(s) => {
                append_str(&mut v, "io error: ");
                append_str(&mut v, s.as_str());
            },
            ManError::Utf8(s) => {
                append_str(&mut v, "invalid utf8 in man page source: ");
                append_str(&mut v, s.as_str());
            },
            ManError::MandocMissing(s) => {
                append_str(&mut v, "couldn't run mandoc (is it installed?): ");
                append_str(&mut v, s.as_str());
            },
        }
        string_of(&v)
    }
}

/// What the caller does next.
#[derive(Debug)]
pub enum LoadStep {
    /// Run `man -w [section] name` and report with `page_found`.
    FindPage { name: String, section: Option<String> },
    /// Read the file at `path` and report with `file_read`.
    ReadFile { path: String },
    /// Pipe `source` through `mandoc -Thtml -Ofragment,man=%N.%S` and
    /// report with `rendered`.
    Render { source: String },
    /// The page, or why there is none.
    Done(Result<Document, ManError>),
}

pub enum LoadStepV {
    FindPage { name: Seq<char>, section: Option<Seq<char>> },
    ReadFile { path: Seq<char> },
    Render { source: Seq<char> },
    Done(Result<DocumentM, ManErrorV>),
}

impl View for LoadStep {
    type V = LoadStepV;

    open spec fn view(&self) -> LoadStepV {
        match self {
            LoadStep::FindPage { name, section } => LoadStepV::FindPage {
                name: name@,
                section: match section {
                    Some(s) => Some(s@),
                    None => None,
                },
            },
            LoadStep::ReadFile { path } => LoadStepV::ReadFile { path: path@ },
            LoadStep::Render { source } => LoadStepV::Render { source: source@ },
            LoadStep::Done(r) => LoadStepV::Done(
                match r {
                    Ok(d) => Ok(d@),
                    Err(e) => Err(e@),
                },
            ),
        }
    }
}

/// How `man -w` ended: whether it exited successfully, and what it printed.
pub struct ManWOutput {
    pub success: bool,
    pub stdout: Vec<u8>,
}

/// How running mandoc went.
pub enum MandocOutcome {
    /// mandoc could not be started.
    SpawnFailed(String),
    /// Writing its input or collecting its output failed.
    IoFailed(String),
    /// What mandoc printed.
    Finished(Vec<u8>),
}

/// The first line of a text (`str::lines`: up to the first '\n', without
/// a trailing '\r'); none for the empty text.
pub open spec fn first_line(s: Seq<char>) -> Option<Seq<char>> {
    if s.len() == 0 {
        None
    } else {
        let l = first_nl_prefix(s);
        if l.len() > 0 && l.last() == '\r' {
            Some(l.drop_last())
        } else {
            Some(l)
        }
    }
}

/// The text before the first '\n' (all of it when there is none).
pub open spec fn first_nl_prefix(s: Seq<char>) -> Seq<char>
    decreases s.len(),
{
    if s.len() == 0 {
        s
    } else if s[0] == '\n' {
        Seq::empty()
    } else {
        seq![s[0]] + first_nl_prefix(s.drop_first())
    }
}

/// Where `man -w` says the page lives: the first line it printed, trimmed.
pub open spec fn man_w_result(name: Seq<char>, out: Result<(bool, Seq<u8>), Seq<char>>) -> Result<
    Seq<char>,
    ManErrorV,
> {
    match out {
        Err(e) => Err(ManErrorV::Io(e)),
        Ok((success, stdout)) => if !success {
            Err(ManErrorV::NotFound(name))
        } else {
            match first_line(utf8_lossy(stdout)) {
                Some(l) => Ok(trimmed(l)),
                None => Err(ManErrorV::NotFound(name)),
            }
        },
    }
}

pub open spec fn man_w_view(out: Result<ManWOutput, String>) -> Result<(bool, Seq<u8>), Seq<char>> {
    match out {
        Ok(o) => Ok((o.success, o.stdout@)),
        Err(e) => Err(e@),
    }
}

fn first_line_exec(s: &Vec<char>) -> (r: Option<Vec<char>>)
    ensures
        match r {
            Some(l) => first_line(s@) == Some(l@),
            None => first_line(s@) is None,
        },
{
    if s.len() == 0 {
        return None;
    }
    let mut l: Vec<char> = Vec::new();
    let mut i: usize = 0;
    assert(s@.subrange(0, s.len() as int) =~= s@);
    assert(l@ + first_nl_prefix(s@) =~= first_nl_prefix(s@));
    while i < s.len() && s[i] != '\n'
        invariant
            i <= s.len(),
            first_nl_prefix(s@) == l@ + first_nl_prefix(s@.subrange(i as int, s.len() as int)),
        decreases s.len() - i,
    {
        proof {
            let rest = s@.subrange(i as int, s.len() as int);
            assert(rest.drop_first() =~= s@.subrange(i + 1, s.len() as int));
            assert(rest[0] == s@[i as int]);
        }
        l.push(s[i]);
        i = i + 1;
        assert(l@ + first_nl_prefix(s@.subrange(i as int, s.len() as int)) =~= l@.drop_last() + seq![
            s@[i - 1],
        ] + first_nl_prefix(s@.subrange(i as int, s.len() as int)));
    }
    proof {
        let rest = s@.subrange(i as int, s.len() as int);
        if i < s.len() {
            assert(rest[0] == '\n');
        }
        assert(l@ + first_nl_prefix(rest) =~= l@);
    }
    if l.len() > 0 && l[l.len() - 1] == '\r' {
        l.pop();
    }
    Some(l)
}

/// Where `man -w` says the page lives, from how it ended.
pub fn find_man_page(name: &str, out: Result<ManWOutput, String>) -> (r: Result<String, ManError>)
    ensures
        match r {
            Ok(p) => man_w_result(name@, man_w_view(out)) == Ok::<Seq<char>, ManErrorV>(p@),
            Err(e) => man_w_result(name@, man_w_view(out)) == Err::<Seq<char>, ManErrorV>(e@),
        },
{
    match out {
        Err(e) => Err(ManError::Io(e)),
        Ok(o) => {
            if !o.success {
                return Err(ManError::NotFound(name.to_owned()));
            }
            let text = from_utf8_lossy(o.stdout.as_slice());
            let cs = chars_of(text.as_str());
            match first_line_exec(&cs) {
                Some(l) => Ok(string_of(&trim_chars(&l))),
                None => Err(ManError::NotFound(name.to_owned())),
            }
        },
    }
}

/// What flate2's gzip decoder, read to a string, makes of some bytes: the
/// decompressed text, or the message of the error it stopped at.
pub uninterp spec fn gunzip_text(bytes: Seq<u8>) -> Result<Seq<char>, Seq<char>>;

/// Reads `bytes` through `flate2::read::GzDecoder` with
/// `std::io::Read::read_to_string`; an error becomes its message. The
/// result is named, not spelled out: it depends on the bytes alone.
#[verifier::external_body]
fn gunzip(bytes: &[u8]) -> (r: Result<String, String>)
    ensures
        match r {
            Ok(s) => gunzip_text(bytes@) == Ok::<Seq<char>, Seq<char>>(s@),
            Err(m) => gunzip_text(bytes@) == Err::<Seq<char>, Seq<char>>(m@),
        },
{
    let mut out = String::new();
    match std::io::Read::read_to_string(&mut flate2::read::GzDecoder::new(bytes), &mut out) {
        Ok(_) => Ok(out),
        Err(e) => Err(e.to_string()),
    }
}

/// The message of the error `String::from_utf8` reports for invalid bytes.
pub uninterp spec fn utf8_error_text(bytes: Seq<u8>) -> Seq<char>;

/// `String::from_utf8`, its error turned into its message: the decoding
/// when the bytes are valid UTF-8, an error exactly when they are not.
#[verifier::external_body]
fn utf8_decode(bytes: Vec<u8>) -> (r: Result<String, String>)
    ensures
        match r {
            Ok(s) => vstd::utf8::valid_utf8(bytes@) && s@ == vstd::utf8::decode_utf8(bytes@),
            Err(m) => !vstd::utf8::valid_utf8(bytes@) && m@ == utf8_error_text(bytes@),
        },
{
    String::from_utf8(bytes).map_err(|e| e.to_string())
}

/// The raw troff/mdoc source of a page file, from its path and its bytes.
pub open spec fn raw_source(path: Seq<char>, bytes: Result<Seq<u8>, Seq<char>>) -> Result<
    Seq<char>,
    ManErrorV,
> {
    match bytes {
        Err(e) => Err(ManErrorV::Io(e)),
        Ok(b) => if is_gz_path(path) {
            match gunzip_text(b) {
                Ok(s) => Ok(s),
                Err(m) => Err(ManErrorV::Io(m)),
            }
        } else if vstd::utf8::valid_utf8(b) {
            Ok(vstd::utf8::decode_utf8(b))
        } else {
            Err(ManErrorV::Utf8(utf8_error_text(b)))
        },
    }
}

/// A page file that is not gzipped reads back as exactly the text whose
/// UTF-8 encoding it holds.
pub proof fn law_read_plain_file(path: Seq<char>, text: Seq<char>)
    requires
        !is_gz_path(path),
    ensures
        raw_source(path, Ok(vstd::utf8::encode_utf8(text))) == Ok::<Seq<char>, ManErrorV>(text),
{
    vstd::utf8::encode_utf8_valid_utf8(text);
    vstd::utf8::encode_utf8_decode_utf8(text);
}

pub open spec fn bytes_view(r: Result<Vec<u8>, String>) -> Result<Seq<u8>, Seq<char>> {
    match r {
        Ok(v) => Ok(v@),
        Err(e) => Err(e@),
    }
}

/// The page's troff/mdoc source, transparently gunzipped when its file
/// name ends in ".gz".
pub fn read_raw(path: &str, bytes: Result<Vec<u8>, String>) -> (r: Result<String, ManError>)
    ensures
        match r {
            Ok(s) => raw_source(path@, bytes_view(bytes)) == Ok::<Seq<char>, ManErrorV>(s@),
            Err(e) => raw_source(path@, bytes_view(bytes)) == Err::<Seq<char>, ManErrorV>(e@),
        },
{
    match bytes {
        Err(e) => Err(ManError::Io(e)),
        Ok(b) => {
            if is_gz_exec(path) {
                match gunzip(b.as_slice()) {
                    Ok(s) => Ok(s),
                    Err(m) => Err(ManError::Io(m)),
                }
            } else {
                match utf8_decode(b) {
                    Ok(s) => Ok(s),
                    Err(m) => Err(ManError::Utf8(m)),
                }
            }
        },
    }
}

/// What mandoc's run amounts to: its output as HTML text, or the error.
pub open spec fn mandoc_result(out: MandocOutcome) -> Result<Seq<char>, ManErrorV> {
    match out {
        MandocOutcome::SpawnFailed(e) => Err(ManErrorV::MandocMissing(e@)),
        MandocOutcome::IoFailed(e) => Err(ManErrorV::Io(e@)),
        MandocOutcome::Finished(stdout) => Ok(utf8_lossy(stdout@)),
    }
}

/// mandoc's HTML, from how its run went.
pub fn troff_to_html(out: MandocOutcome) -> (r: Result<String, ManError>)
    ensures
        match r {
            Ok(s) => mandoc_result(out) == Ok::<Seq<char>, ManErrorV>(s@),
            Err(e) => mandoc_result(out) == Err::<Seq<char>, ManErrorV>(e@),
        },
{
    match out {
        MandocOutcome::SpawnFailed(e) => Err(ManError::MandocMissing(e)),
        MandocOutcome::IoFailed(e) => Err(ManError::Io(e)),
        MandocOutcome::Finished(stdout) => Ok(from_utf8_lossy(stdout.as_slice())),
    }
}

/// Starts loading a page by name (e.g. "ls") and optional section (e.g.
/// "5"): the first step is to ask `man -w` where it lives.
pub fn load(name: &str, section: Option<&str>) -> (r: LoadStep)
    ensures
        r@ == (LoadStepV::FindPage {
            name: name@,
            section: match section {
                Some(s) => Some(s@),
                None => None,
            },
        }),
{
    LoadStep::FindPage {
        name: name.to_owned(),
        section: match section {
            Some(s) => Some(s.to_owned()),
            None => None,
        },
    }
}

/// Starts loading a page directly from a file on disk (gzipped or plain),
/// bypassing the `man -w` lookup.
pub fn load_from_path(path: &str) -> (r: LoadStep)
    ensures
        r@ == (LoadStepV::ReadFile { path: path@ }),
{
    LoadStep::ReadFile { path: path.to_owned() }
}

/// After `man -w`: read the file it named, or stop with the error.
pub fn page_found(name: &str, out: Result<ManWOutput, String>) -> (r: LoadStep)
    ensures
        r@ == match man_w_result(name@, man_w_view(out)) {
            Ok(p) => LoadStepV::ReadFile { path: p },
            Err(e) => LoadStepV::Done(Err(e)),
        },
{
    match find_man_page(name, out) {
        Ok(p) => LoadStep::ReadFile { path: p },
        Err(e) => LoadStep::Done(Err(e)),
    }
}

/// After reading the file: render its source, or stop with the error.
pub fn file_read(path: &str, bytes: Result<Vec<u8>, String>) -> (r: LoadStep)
    ensures
        r@ == match raw_source(path@, bytes_view(bytes)) {
            Ok(s) => LoadStepV::Render { source: s },
            Err(e) => LoadStepV::Done(Err(e)),
        },
{
    match read_raw(path, bytes) {
        Ok(s) => LoadStep::Render { source: s },
        Err(e) => LoadStep::Done(Err(e)),
    }
}

/// After mandoc: the parsed page, or the error.
pub fn rendered(out: MandocOutcome) -> (r: LoadStep)
    ensures
        r@ == match mandoc_result(out) {
            Ok(html) => LoadStepV::Done(Ok(document_of(tree_of_events(fragment_edges(html))))),
            Err(e) => LoadStepV::Done(Err(e)),
        },
{
    match troff_to_html(out) {
        Ok(html) => LoadStep::Done(Ok(parse_document(html.as_str()))),
        Err(e) => LoadStep::Done(Err(e)),
    }
}

} // verus!
