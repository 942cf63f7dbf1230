use manview::loader::{file_read, page_found, rendered, LoadStep, MandocOutcome, ManWOutput};
use manview::{find_man_page, load, load_from_path, read_raw, troff_to_html, ManError};
use std::io::Write;

fn gz(text: &str) -> Vec<u8> {
    let mut enc = flate2::write::GzEncoder::new(Vec::new(), flate2::Compression::default());
    enc.write_all(text.as_bytes()).unwrap();
    enc.finish().unwrap()
}

fn ok_out(stdout: &str) -> Result<ManWOutput, String> {
    Ok(ManWOutput { success: true, stdout: stdout.as_bytes().to_vec() })
}

#[test]
fn man_w_first_line_trimmed() {
    let r = find_man_page("ls", ok_out("  /usr/share/man/man1/ls.1.gz \n/other\n"));
    assert_eq!(r.unwrap(), "/usr/share/man/man1/ls.1.gz");
    let r = find_man_page("ls", ok_out("/a/b.1\r\n"));
    assert_eq!(r.unwrap(), "/a/b.1");
    let r = find_man_page("ls", ok_out("\n"));
    assert_eq!(r.unwrap(), "");
}

#[test]
fn man_w_failures() {
    match find_man_page("nosuch", Ok(ManWOutput { success: false, stdout: b"/x\n".to_vec() })) {
        Err(ManError::NotFound(n)) => assert_eq!(n, "nosuch"),
        other => panic!("expected NotFound, got {other:?}"),
    }
    match find_man_page("empty", ok_out("")) {
        Err(ManError::NotFound(n)) => assert_eq!(n, "empty"),
        other => panic!("expected NotFound, got {other:?}"),
    }
    match find_man_page("ls", Err("No such file or directory".to_string())) {
        Err(ManError::Io(m)) => assert_eq!(m, "No such file or directory"),
        other => panic!("expected Io, got {other:?}"),
    }
}

#[test]
fn man_w_output_is_decoded_lossily() {
    let r = find_man_page("x", Ok(ManWOutput { success: true, stdout: vec![b'/', 0xff, b'a'] }));
    assert_eq!(r.unwrap(), "/\u{fffd}a");
}

#[test]
fn read_raw_gunzips_gz_files() {
    let bytes = gz(".TH LS 1\n.SH NAME\nls \\- list\n");
    let r = read_raw("/usr/share/man/man1/ls.1.gz", Ok(bytes));
    assert_eq!(r.unwrap(), ".TH LS 1\n.SH NAME\nls \\- list\n");
}

#[test]
fn read_raw_reports_bad_gzip_as_io() {
    match read_raw("/x/ls.1.gz", Ok(b"not gzip".to_vec())) {
        Err(ManError::Io(m)) => assert!(!m.is_empty()),
        other => panic!("expected Io, got {other:?}"),
    }
}

#[test]
fn read_raw_plain_files() {
    let r = read_raw("/x/ls.1", Ok("caf\u{e9}\n".as_bytes().to_vec()));
    assert_eq!(r.unwrap(), "caf\u{e9}\n");
    match read_raw("/x/ls.1", Ok(vec![b'a', 0xc3])) {
        Err(ManError::Utf8(m)) => assert!(!m.is_empty()),
        other => panic!("expected Utf8, got {other:?}"),
    }
    match read_raw("/x/ls.1", Err("permission denied".to_string())) {
        Err(ManError::Io(m)) => assert_eq!(m, "permission denied"),
        other => panic!("expected Io, got {other:?}"),
    }
    let plain = gz("x");
    match read_raw("/x/ls.gz.1", Ok(plain)) {
        Err(ManError::Utf8(_)) => {}
        other => panic!("a name ending elsewhere than .gz is not gunzipped: {other:?}"),
    }
}

#[test]
fn mandoc_outcomes() {
    match troff_to_html(MandocOutcome::SpawnFailed("No such file".to_string())) {
        Err(ManError::MandocMissing(m)) => assert_eq!(m, "No such file"),
        other => panic!("expected MandocMissing, got {other:?}"),
    }
    match troff_to_html(MandocOutcome::IoFailed("broken pipe".to_string())) {
        Err(ManError::Io(m)) => assert_eq!(m, "broken pipe"),
        other => panic!("expected Io, got {other:?}"),
    }
    let r = troff_to_html(MandocOutcome::Finished(vec![b'<', b'p', b'>', 0xfe]));
    assert_eq!(r.unwrap(), "<p>\u{fffd}");
}

#[test]
fn error_messages() {
    assert_eq!(ManError::NotFound("ls".to_string()).message(), "man page not found: ls");
    assert_eq!(ManError::Io("boom".to_string()).message(), "io error: boom");
    assert_eq!(ManError::Utf8("bad".to_string()).message(), "invalid utf8 in man page source: bad");
    assert_eq!(
        ManError::MandocMissing("gone".to_string()).message(),
        "couldn't run mandoc (is it installed?): gone"
    );
}

#[test]
fn load_steps_through_to_a_document() {
    match load("ls", Some("1")) {
        LoadStep::FindPage { name, section } => {
            assert_eq!(name, "ls");
            assert_eq!(section, Some("1".to_string()));
        }
        other => panic!("expected FindPage, got {other:?}"),
    }
    let path = match page_found("ls", ok_out("/m/ls.1.gz\n")) {
        LoadStep::ReadFile { path } => path,
        other => panic!("expected ReadFile, got {other:?}"),
    };
    assert_eq!(path, "/m/ls.1.gz");
    match file_read(&path, Ok(gz(".TH LS 1"))) {
        LoadStep::Render { source } => assert_eq!(source, ".TH LS 1"),
        other => panic!("expected Render, got {other:?}"),
    }
    let html = "<table class=\"head\"><tr><td class=\"head-ltitle\">LS(1)</td></tr></table>";
    match rendered(MandocOutcome::Finished(html.as_bytes().to_vec())) {
        LoadStep::Done(Ok(doc)) => assert_eq!(doc.title, "LS(1)"),
        other => panic!("expected a document, got {other:?}"),
    }
    match page_found("ls", Ok(ManWOutput { success: false, stdout: vec![] })) {
        LoadStep::Done(Err(ManError::NotFound(n))) => assert_eq!(n, "ls"),
        other => panic!("expected NotFound, got {other:?}"),
    }
    match load_from_path("./some.1") {
        LoadStep::ReadFile { path } => assert_eq!(path, "./some.1"),
        other => panic!("expected ReadFile, got {other:?}"),
    }
    match load("printf", None) {
        LoadStep::FindPage { section, .. } => assert_eq!(section, None),
        other => panic!("expected FindPage, got {other:?}"),
    }
}
