use manview::finder::{manpath_dirs_exec, parse_page_filename, DirEntryInfo, EntryKind};
use manview::discover_pages;

fn name_section(path: &str) -> Option<(String, String)> {
    parse_page_filename(path).map(|p| {
        assert_eq!(p.path, path);
        (p.name, p.section)
    })
}

fn ns(n: &str, s: &str) -> Option<(String, String)> {
    Some((n.to_string(), s.to_string()))
}

#[test]
fn page_file_names() {
    assert_eq!(name_section("/usr/share/man/man1/ls.1.gz"), ns("ls", "1"));
    assert_eq!(name_section("/usr/share/man/man3/printf.3p"), ns("printf", "3p"));
    assert_eq!(name_section("/usr/share/man/mann/Tcl.n.gz"), ns("Tcl", "n"));
    assert_eq!(name_section("systemd.unit.5"), ns("systemd.unit", "5"));
    assert_eq!(name_section("/usr/share/locale/de/man.mo"), None);
    assert_eq!(name_section("/x/.1"), None);
    assert_eq!(name_section("/x/ls."), None);
    assert_eq!(name_section("/x/README"), None);
    assert_eq!(name_section("/x/foo.nx"), None);
    assert_eq!(name_section("/x/ls.1.gz/"), ns("ls", "1"));
    assert_eq!(name_section("/x/man1/cp.1/."), ns("cp", "1"));
    assert_eq!(name_section("/x/.."), None);
}

#[test]
fn manpath_output_and_defaults() {
    let dirs = manpath_dirs_exec(Some(b" /usr/local/man:/usr/share/man\n".to_vec()));
    assert_eq!(dirs, vec!["/usr/local/man".to_string(), "/usr/share/man".to_string()]);
    let dirs = manpath_dirs_exec(None);
    assert_eq!(dirs, vec!["/usr/share/man".to_string(), "/usr/local/share/man".to_string()]);
    let dirs = manpath_dirs_exec(Some(b"/a::/b".to_vec()));
    assert_eq!(dirs, vec!["/a".to_string(), "".to_string(), "/b".to_string()]);
}

fn entry(path: &str, kind: EntryKind) -> DirEntryInfo {
    DirEntryInfo { path: path.to_string(), kind }
}

#[test]
fn walk_finds_pages_depth_first_skipping_cat_dirs() {
    let mut w = discover_pages(Some(b"/m1:/m2".to_vec()));
    let mut visited = Vec::new();
    while let Some(dir) = w.next_dir() {
        visited.push(dir.clone());
        let listing = match dir.as_str() {
            "/m1" => Some(vec![
                entry("/m1/man1", EntryKind::Dir),
                entry("/m1/cat1", EntryKind::Dir),
                entry("/m1/top.7", EntryKind::File),
            ]),
            "/m1/man1" => Some(vec![
                entry("/m1/man1/ls.1.gz", EntryKind::File),
                entry("/m1/man1/notes.txt", EntryKind::File),
                entry("/m1/man1/weird", EntryKind::Unknown),
                entry("/m1/man1/cp.1", EntryKind::File),
            ]),
            "/m2" => None,
            other => panic!("unexpected directory {other}"),
        };
        w.listing(listing);
    }
    assert_eq!(visited, vec!["/m1", "/m1/man1", "/m2"]);
    let pages: Vec<(String, String, String)> =
        w.into_pages().into_iter().map(|p| (p.path, p.name, p.section)).collect();
    assert_eq!(
        pages,
        vec![
            ("/m1/man1/ls.1.gz".to_string(), "ls".to_string(), "1".to_string()),
            ("/m1/man1/cp.1".to_string(), "cp".to_string(), "1".to_string()),
            ("/m1/top.7".to_string(), "top".to_string(), "7".to_string()),
        ]
    );
}
