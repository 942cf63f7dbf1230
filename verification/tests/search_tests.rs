use manview::search::normalize;
use manview::{search, FlagEntry};

fn entry(flag: &str, name: &str, section: &str) -> FlagEntry {
    FlagEntry {
        flag: flag.to_string(),
        name: name.to_string(),
        section: section.to_string(),
        description: String::new(),
    }
}

fn flags(r: &[&FlagEntry]) -> Vec<String> {
    r.iter().map(|e| format!("{}({}) {}", e.name, e.section, e.flag)).collect()
}

#[test]
fn token_match_excludes_fragments() {
    let entries = vec![
        entry("-XX:AllocateHeapAt=path", "java", "1"),
        entry("--almost-all", "ls", "1"),
        entry("-a", "ls", "1"),
        entry("--all", "ls", "1"),
    ];
    let r = search(&entries, "all");
    assert_eq!(flags(&r), vec!["ls(1) --all", "ls(1) --almost-all"]);
}

#[test]
fn exact_matches_come_first_and_tiers_sort_by_page() {
    let entries = vec![
        entry("--dry-run", "zypper", "8"),
        entry("-n, --dry-run", "git-add", "1"),
        entry("--dry-run", "apt", "8"),
        entry("--no-dry-run-check", "b", "1"),
        entry("--dry-run", "apt", "1"),
    ];
    let r = search(&entries, "--DRY-RUN");
    assert_eq!(flags(&r), vec!["apt(1) --dry-run", "apt(8) --dry-run", "zypper(8) --dry-run"]);
    let r = search(&entries, "run");
    assert_eq!(
        flags(&r),
        vec![
            "apt(1) --dry-run",
            "apt(8) --dry-run",
            "b(1) --no-dry-run-check",
            "git-add(1) -n, --dry-run",
            "zypper(8) --dry-run",
        ]
    );
}

#[test]
fn equal_keys_keep_index_order() {
    let mut a = entry("--x", "p", "1");
    a.description = "first".to_string();
    let mut b = entry("--x", "p", "1");
    b.description = "second".to_string();
    let entries = vec![a, b];
    let r = search(&entries, "x");
    assert_eq!(r.len(), 2);
    assert_eq!(r[0].description, "first");
    assert_eq!(r[1].description, "second");
}

#[test]
fn empty_query_finds_nothing() {
    let entries = vec![entry("--", "x", "1"), entry("-", "y", "1")];
    assert!(search(&entries, "").is_empty());
    assert!(search(&entries, "  --  ").is_empty());
}

#[test]
fn query_with_delimiter_matches_only_whole_flags() {
    let entries = vec![entry("--dry-run", "a", "1"), entry("--dry-run-x", "b", "1")];
    let r = search(&entries, "dry-run");
    assert_eq!(flags(&r), vec!["a(1) --dry-run"]);
}

#[test]
fn normalize_trims_dashes_and_case() {
    let n: String = normalize("  --Dry-Run \t").into_iter().collect();
    assert_eq!(n, "dry-run");
    let n: String = normalize("ÀLL").into_iter().collect();
    assert_eq!(n, "àll");
}

#[test]
fn padding_and_dashes_on_the_query_change_nothing() {
    let entries = vec![
        entry("--dry-run", "apt", "8"),
        entry("-n, --dry-run", "git-add", "1"),
        entry("--all", "ls", "1"),
    ];
    let base = flags(&search(&entries, "dry-run"));
    assert_eq!(base, vec!["apt(8) --dry-run"]);
    assert_eq!(flags(&search(&entries, "--dry-run")), base);
    assert_eq!(flags(&search(&entries, "-dry-run")), base);
    assert_eq!(flags(&search(&entries, "  dry-run ")), base);
    assert_eq!(flags(&search(&entries, "all")), flags(&search(&entries, " --all")));
}

#[test]
fn upper_case_ascii_query_finds_the_same() {
    let entries = vec![
        entry("--Color=WHEN", "ls", "1"),
        entry("--color", "grep", "1"),
        entry("-c, --count", "grep", "1"),
        entry("--no-color", "git", "1"),
    ];
    let lower = search(&entries, "color");
    let upper = search(&entries, "COLOR");
    let mixed = search(&entries, "CoLoR");
    assert_eq!(flags(&lower), vec!["grep(1) --color", "git(1) --no-color", "ls(1) --Color=WHEN"]);
    assert_eq!(flags(&upper), flags(&lower));
    assert_eq!(flags(&mixed), flags(&lower));
}
