use manview::cli::{cache_path, flag_entry_lines, is_blank, names_a_path, parse_command, should_report, Command};
use manview::numbers::{decimal_string, parse_choice};
use manview::FlagEntry;

fn args(v: &[&str]) -> Vec<String> {
    v.iter().map(|s| s.to_string()).collect()
}

#[test]
fn commands_from_arguments() {
    match parse_command(args(&["flags", "dry", "run"])) {
        Command::Flags { query } => assert_eq!(query, "dry run"),
        other => panic!("expected Flags, got {other:?}"),
    }
    match parse_command(args(&["flags"])) {
        Command::Flags { query } => assert_eq!(query, ""),
        other => panic!("expected Flags, got {other:?}"),
    }
    assert!(matches!(parse_command(args(&["rebuild-index", "x"])), Command::RebuildIndex));
    match parse_command(args(&["printf", "3", "extra"])) {
        Command::View { name, section } => {
            assert_eq!(name, "printf");
            assert_eq!(section, Some("3".to_string()));
        }
        other => panic!("expected View, got {other:?}"),
    }
    match parse_command(args(&["./some.1"])) {
        Command::View { name, section } => {
            assert_eq!(name, "./some.1");
            assert_eq!(section, None);
        }
        other => panic!("expected View, got {other:?}"),
    }
    assert!(matches!(parse_command(args(&[])), Command::Usage));
}

#[test]
fn blank_queries() {
    assert!(is_blank(""));
    assert!(is_blank(" \t\n"));
    assert!(!is_blank(" a "));
}

#[test]
fn flag_result_lines() {
    let e = FlagEntry {
        flag: "--all".to_string(),
        name: "ls".to_string(),
        section: "1".to_string(),
        description: "do not ignore entries".to_string(),
    };
    assert_eq!(
        flag_entry_lines(12, &e),
        vec!["12) ls(1)  --all".to_string(), "   do not ignore entries".to_string()]
    );
    let bare = FlagEntry { description: String::new(), ..e };
    assert_eq!(flag_entry_lines(1, &bare), vec!["1) ls(1)  --all".to_string()]);
}

#[test]
fn decimal_numbers() {
    assert_eq!(decimal_string(0), "0");
    assert_eq!(decimal_string(7), "7");
    assert_eq!(decimal_string(1090), "1090");
    assert_eq!(decimal_string(usize::MAX), usize::MAX.to_string());
}

#[test]
fn choices() {
    assert_eq!(parse_choice(" 2 \n", 3), Some(2));
    assert_eq!(parse_choice("+3", 3), Some(3));
    assert_eq!(parse_choice("4", 3), None);
    assert_eq!(parse_choice("0", 3), None);
    assert_eq!(parse_choice("", 3), None);
    assert_eq!(parse_choice("+", 3), None);
    assert_eq!(parse_choice("-1", 3), None);
    assert_eq!(parse_choice("1x", 3), None);
    assert_eq!(parse_choice("99999999999999999999999", usize::MAX), None);
    assert_eq!(parse_choice(&usize::MAX.to_string(), usize::MAX), Some(usize::MAX));
}

#[test]
fn progress_reports() {
    assert!(should_report(10, 9, 10));
    assert!(should_report(50, 49, 1000));
    assert!(!should_report(51, 50, 1000));
    assert!(should_report(100, 98, 1000));
    assert!(!should_report(3, 2, 1000));
}

#[test]
fn cache_locations() {
    assert_eq!(cache_path(Some("/xdg".to_string()), Some("/home/u".to_string())), "/xdg/manview/flags_index.json");
    assert_eq!(cache_path(Some("/xdg/".to_string()), None), "/xdg/manview/flags_index.json");
    assert_eq!(cache_path(None, Some("/home/u".to_string())), "/home/u/.cache/manview/flags_index.json");
    assert_eq!(cache_path(None, None), "./.cache/manview/flags_index.json");
    assert_eq!(cache_path(Some(String::new()), None), "manview/flags_index.json");
}

#[test]
fn page_arguments_that_name_files() {
    assert!(names_a_path("./ls.1", false));
    assert!(names_a_path("/usr/share/man/man1/ls.1.gz", false));
    assert!(names_a_path("ls.1", true));
    assert!(!names_a_path("ls", false));
    assert!(!names_a_path("", false));
}
