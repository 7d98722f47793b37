//! Reading the command line of the headless de-duplicator.

use koikatsu_dedupe::cli::{command, invocation, parse, parse_usize, Command};

fn args(a: &[&str]) -> Vec<String> {
    a.iter().map(|s| s.to_string()).collect()
}

#[test]
fn flags_take_values_and_bool_flags_stand_alone() {
    let (pos, flags) = parse(&args(&["scan", "--root", "R", "--full", "--db", "D", "extra"]));
    assert_eq!(pos, args(&["scan", "extra"]));
    assert_eq!(flags.get("root").map(|s| s.as_str()), Some("R"));
    assert_eq!(flags.get("db").map(|s| s.as_str()), Some("D"));
    assert_eq!(flags.get("full").map(|s| s.as_str()), Some("1"));
    assert!(flags.get("mode").is_none());
}

#[test]
fn a_trailing_flag_gets_an_empty_value_and_a_later_value_wins() {
    let (pos, flags) = parse(&args(&["groups", "--limit", "3", "--limit", "4", "--mode"]));
    assert_eq!(pos, args(&["groups"]));
    assert_eq!(flags.get("limit").map(|s| s.as_str()), Some("4"));
    assert_eq!(flags.get("mode").map(|s| s.as_str()), Some(""));
}

#[test]
fn a_flag_value_may_itself_start_with_dashes() {
    let (pos, flags) = parse(&args(&["delete", "--root", "--apply", "x.png"]));
    assert_eq!(pos, args(&["delete", "x.png"]));
    assert_eq!(flags.get("root").map(|s| s.as_str()), Some("--apply"));
    assert!(!flags.contains_key("apply"));
}

#[test]
fn usize_parsing_follows_str_parse() {
    for s in ["0", "42", "+7", "007", "18446744073709551615", "", "+", "-1", "1x", " 1", "18446744073709551616"] {
        assert_eq!(parse_usize(s.as_bytes()), s.parse::<usize>().ok(), "{s:?}");
    }
}

#[test]
fn scan_needs_a_root() {
    let inv = invocation(&args(&["scan"]));
    assert!(matches!(inv.command, Command::MissingFlag { ref command, ref flag } if command == "scan" && flag == "root"));
    let inv = invocation(&args(&["scan", "--root", "R", "--full", "--mode", "char"]));
    assert!(matches!(inv.command, Command::Scan { ref root, full: true, recursive: false } if root == "R"));
    assert_eq!(inv.mode, "char");
    assert_eq!(inv.db, None);
    let inv = invocation(&args(&["scan", "--root", "R", "--recursive", "--full"]));
    assert!(matches!(inv.command, Command::Scan { full: true, recursive: true, .. }));
}

#[test]
fn the_mode_defaults_to_byte_and_the_db_is_taken_as_given() {
    let inv = invocation(&args(&["stats", "--db", "/x/lib.sqlite"]));
    assert!(matches!(inv.command, Command::Stats));
    assert_eq!(inv.mode, "byte");
    assert_eq!(inv.db.as_deref(), Some("/x/lib.sqlite"));
}

#[test]
fn groups_take_a_limit_or_have_none() {
    assert!(matches!(invocation(&args(&["groups", "--limit", "5"])).command, Command::Groups { limit: 5 }));
    assert!(matches!(invocation(&args(&["groups"])).command, Command::Groups { limit: usize::MAX }));
    assert!(matches!(invocation(&args(&["groups", "--limit", "many"])).command, Command::Groups { limit: usize::MAX }));
}

#[test]
fn delete_is_a_dry_run_unless_applied() {
    let inv = invocation(&args(&["delete", "--root", "R", "a.png", "b.png"]));
    assert!(matches!(inv.command, Command::DeleteDryRun { ref root, ref names } if root == "R" && *names == args(&["a.png", "b.png"])));
    let inv = invocation(&args(&["delete", "--root", "R", "--apply", "a.png"]));
    assert!(matches!(inv.command, Command::DeleteApply { ref names, .. } if *names == args(&["a.png"])));
    assert!(matches!(invocation(&args(&["delete", "--root", "R"])).command, Command::NoNames));
    assert!(matches!(invocation(&args(&["delete", "a.png"])).command, Command::MissingFlag { .. }));
}

#[test]
fn strings_and_count_need_their_flag() {
    assert!(matches!(invocation(&args(&["strings", "--path", "c.png"])).command, Command::Strings { ref path } if path == "c.png"));
    assert!(matches!(invocation(&args(&["strings"])).command, Command::MissingFlag { ref flag, .. } if flag == "path"));
    assert!(matches!(invocation(&args(&["count", "--root", "R"])).command, Command::Count { ref root } if root == "R"));
    assert!(matches!(invocation(&args(&["count"])).command, Command::MissingFlag { ref command, .. } if command == "count"));
}

#[test]
fn no_command_is_a_usage_error_and_help_is_not() {
    assert!(matches!(invocation(&args(&[])).command, Command::Usage { exit: 2 }));
    assert!(matches!(invocation(&args(&["--root", "R"])).command, Command::Usage { exit: 2 }));
    let (pos, _) = parse(&args(&["--help"]));
    assert_eq!(pos, args(&["--help"]));
    for h in ["help", "--help", "-h"] {
        assert!(matches!(invocation(&args(&[h])).command, Command::Usage { exit: 0 }), "{h}");
    }
    assert!(matches!(invocation(&args(&["--version"])).command, Command::Version));
    assert!(matches!(invocation(&args(&["version"])).command, Command::Version));
    assert!(matches!(invocation(&args(&["describe"])).command, Command::Describe));
}

#[test]
fn an_unknown_command_is_named() {
    assert!(matches!(invocation(&args(&["frobnicate"])).command, Command::Unknown { ref command } if command == "frobnicate"));
}

#[test]
fn the_command_is_decided_from_parsed_arguments() {
    let (pos, flags) = parse(&args(&["count", "--root", "R"]));
    assert!(matches!(command(&pos, &flags), Command::Count { ref root } if root == "R"));
}

#[test]
fn organize_is_a_dry_run_unless_applied() {
    let inv = invocation(&args(&["organize", "--root", "R", "--recursive"]));
    assert!(matches!(inv.command, Command::Organize { ref root, recursive: true, game_root: None, apply: false } if root == "R"));
    let inv = invocation(&args(&["organize", "--root", "R", "--recursive", "--apply"]));
    assert!(matches!(inv.command, Command::Organize { recursive: true, apply: true, .. }));
    let inv = invocation(&args(&["organize", "--root", "R", "--game-root", "G"]));
    assert!(matches!(inv.command, Command::Organize { game_root: Some(ref g), recursive: false, apply: false, .. } if g == "G"));
    assert!(matches!(invocation(&args(&["organize"])).command, Command::MissingFlag { ref command, .. } if command == "organize"));
}
