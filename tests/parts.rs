use file_lookup::cli::get_directory_from_cli_args;
use file_lookup::text::{chars_of, empty_string, str_contains, str_ends_with, str_eq, str_less};
use file_lookup::thread_pool::ConcurrencyGate;

fn args(a: &[&str]) -> Vec<String> {
    a.iter().map(|s| s.to_string()).collect()
}

#[test]
fn substring_search() {
    assert!(str_contains("hello world", "o w"));
    assert!(str_contains("abc", ""));
    assert!(str_contains("", ""));
    assert!(!str_contains("abc", "abcd"));
    assert!(!str_contains("abc", "ac"));
    assert!(str_contains("héllo", "él"));
}

#[test]
fn suffixes() {
    assert!(str_ends_with("main.rs", ".rs"));
    assert!(!str_ends_with("rs", ".rs"));
    assert!(str_ends_with("a.txt", ".txt"));
    assert!(!str_ends_with("a.txt.bak", ".txt"));
}

#[test]
fn string_order_and_equality() {
    assert!(str_less("abc", "abd"));
    assert!(str_less("ab", "abc"));
    assert!(!str_less("abc", "abc"));
    assert!(str_less("Z", "a"));
    assert!(!str_less("b", "a"));
    assert!(str_eq("--find", "--find"));
    assert!(!str_eq("--find", "--fin"));
    assert_eq!(empty_string(), "");
    assert_eq!(chars_of("añb"), vec!['a', 'ñ', 'b']);
}

#[test]
fn gate_turns_away_past_its_limit() {
    let mut gate = ConcurrencyGate::new(2);
    assert!(gate.try_enter());
    assert!(gate.try_enter());
    assert!(!gate.try_enter());
    assert_eq!(gate.active_count(), 2);
    gate.leave();
    assert!(gate.try_enter());
    assert_eq!(gate.peak_count(), 2);
}

#[test]
fn gate_of_one_runs_work_one_at_a_time() {
    let mut gate = ConcurrencyGate::new(1);
    let mut results = Vec::new();
    for item in [3u32, 1, 2] {
        assert!(gate.try_enter());
        assert!(!gate.try_enter());
        results.push(item * 10);
        gate.leave();
    }
    assert_eq!(results, vec![30, 10, 20]);
    assert_eq!(gate.peak_count(), 1);
    assert_eq!(gate.active_count(), 0);
}

#[test]
fn command_line_defaults() {
    let o = get_directory_from_cli_args(&args(&["prog"]));
    assert_eq!(o.start_path, "./");
    assert_eq!(o.target_substring, "");
    assert_eq!(o.output_file, None);
    assert!(!o.settings.sort_files);
    assert!(!o.settings.look_for_key_entry_in_files);
}

#[test]
fn command_line_flags() {
    let o = get_directory_from_cli_args(&args(&[
        "prog", "dir", "--find", "txt", "--in_file", "hello", "--sort", "--to_file", "out.txt",
    ]));
    assert_eq!(o.start_path, "dir");
    assert_eq!(o.target_substring, "txt");
    assert_eq!(o.output_file, Some("out.txt".to_string()));
    assert!(o.settings.sort_files);
    assert!(o.settings.look_for_key_entry_in_files);
    assert_eq!(o.settings.key_in_file, "hello");
}

#[test]
fn command_line_last_flag_wins() {
    let o = get_directory_from_cli_args(&args(&["prog", "d", "--find", "a", "--find", "b"]));
    assert_eq!(o.target_substring, "b");
}

#[test]
fn command_line_path_may_be_left_out() {
    let o = get_directory_from_cli_args(&args(&["prog", "--sort"]));
    assert_eq!(o.start_path, "./");
    assert!(o.settings.sort_files);
    let o = get_directory_from_cli_args(&args(&["prog", "--find", "txt", "--in_file", "hello"]));
    assert_eq!(o.start_path, "./");
    assert_eq!(o.target_substring, "txt");
    assert!(o.settings.look_for_key_entry_in_files);
    assert_eq!(o.settings.key_in_file, "hello");
}
