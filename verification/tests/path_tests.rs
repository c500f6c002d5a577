//! Completion candidates and their common prefix. The caller lists the
//! directories; these tests hand the listings in as names.
use shell::path::{complete_command, complete_filename, longest_common_prefix};

const BUILTINS: &[&str] = &["echo", "exit", "type", "pwd", "cd"];

fn s(v: &[&str]) -> Vec<String> {
    v.iter().map(|x| x.to_string()).collect()
}

// --- complete_command: builtin-only -------------------------------------

#[test]
fn complete_command_builtin_unique_match() {
    assert_eq!(complete_command("ech", BUILTINS, &[]), vec!["echo"]);
}

#[test]
fn complete_command_builtin_multi_match_sorted() {
    // 'e' matches both 'echo' and 'exit'; result must be sorted.
    assert_eq!(complete_command("e", BUILTINS, &[]), vec!["echo", "exit"]);
}

#[test]
fn complete_command_no_match() {
    assert_eq!(complete_command("xyz", BUILTINS, &[]), Vec::<String>::new());
}

#[test]
fn complete_command_empty_prefix_matches_all_builtins() {
    let result = complete_command("", &["echo", "exit"], &[]);
    assert_eq!(result, vec!["echo", "exit"]);
}

// --- complete_command: executables found on the search path -------------

#[test]
fn complete_command_finds_path_executable() {
    // `custom<TAB>` -> `custom_executable`.
    assert_eq!(
        complete_command("custom", &[], &s(&["custom_executable"])),
        vec!["custom_executable"]
    );
}

#[test]
fn complete_command_combines_builtin_and_path() {
    assert_eq!(
        complete_command("ech", BUILTINS, &s(&["echo_external"])),
        vec!["echo", "echo_external"]
    );
}

#[test]
fn complete_command_dedupes_builtin_and_path_with_same_name() {
    // A path executable named 'echo' must not double up the builtin.
    assert_eq!(complete_command("ech", BUILTINS, &s(&["echo"])), vec!["echo"]);
}

#[test]
fn complete_command_dedupes_same_name_across_dirs() {
    // The same executable name found in two directories.
    assert_eq!(
        complete_command("same", &[], &s(&["same_name", "same_name"])),
        vec!["same_name"]
    );
}

#[test]
fn complete_command_path_multi_match_sorted() {
    assert_eq!(
        complete_command("xy", &[], &s(&["xy_foo", "xy_bar"])),
        vec!["xy_bar", "xy_foo"]
    );
}

#[test]
fn complete_command_path_dir_with_no_matches_is_harmless() {
    // The search path holds executables, but none match the prefix.
    // Builtins are still considered.
    assert_eq!(
        complete_command("ech", BUILTINS, &s(&["something_else_entirely"])),
        vec!["echo"]
    );
}

#[test]
fn complete_command_skips_missing_path_dirs() {
    // A missing directory contributes no name; the others still count.
    assert_eq!(
        complete_command("custom", &[], &s(&["custom_executable"])),
        vec!["custom_executable"]
    );
}

#[test]
fn complete_command_builtin_listing_order_does_not_matter() {
    assert_eq!(
        complete_command("", &["type", "cd", "echo"], &s(&["b", "a"])),
        vec!["a", "b", "cd", "echo", "type"]
    );
}

#[test]
fn complete_command_prefix_longer_than_name() {
    assert_eq!(complete_command("echoes", BUILTINS, &[]), Vec::<String>::new());
}

// --- longest_common_prefix ----------------------------------------------

#[test]
fn lcp_empty_slice_returns_zero() {
    assert_eq!(longest_common_prefix(&[]), 0);
}

#[test]
fn lcp_single_string_returns_its_length() {
    assert_eq!(longest_common_prefix(&s(&["echo"])), 4);
}

#[test]
fn lcp_single_empty_string_returns_zero() {
    assert_eq!(longest_common_prefix(&s(&[""])), 0);
}

#[test]
fn lcp_all_identical() {
    assert_eq!(longest_common_prefix(&s(&["echo", "echo", "echo"])), 4);
}

#[test]
fn lcp_no_common_prefix() {
    assert_eq!(longest_common_prefix(&s(&["abc", "xyz"])), 0);
}

#[test]
fn lcp_partial_common_prefix() {
    // 'echo' and 'exit' share only the first byte.
    assert_eq!(longest_common_prefix(&s(&["echo", "exit"])), 1);
}

#[test]
fn lcp_one_string_is_prefix_of_others() {
    // 'xyz_foo' is a prefix of the other two; the common prefix is the
    // whole of the shortest.
    assert_eq!(
        longest_common_prefix(&s(&["xyz_foo", "xyz_foo_bar", "xyz_foo_bar_baz"])),
        7,
    );
}

#[test]
fn lcp_codecrafters_scenario_step_two() {
    // The candidate set shrinks to these two; the common prefix becomes
    // 'xyz_foo_bar' (length 11).
    assert_eq!(
        longest_common_prefix(&s(&["xyz_foo_bar", "xyz_foo_bar_baz"])),
        11,
    );
}

#[test]
fn lcp_one_empty_string_collapses_to_zero() {
    // An empty string contributes no characters; the common prefix is 0.
    assert_eq!(longest_common_prefix(&s(&["echo", "", "exit"])), 0);
}

#[test]
fn lcp_byte_count_matches_slicing() {
    // The returned length is a valid byte index into the first string
    // (this is how the editor uses it: &matches[0][prefix.len()..lcp]).
    let m = s(&["xyz_foo", "xyz_foo_bar"]);
    let lcp = longest_common_prefix(&m);
    assert_eq!(&m[0][..lcp], "xyz_foo");
}

#[test]
fn lcp_counts_bytes_not_characters() {
    // "é" is two bytes long in UTF-8.
    assert_eq!(longest_common_prefix(&s(&["café", "cafés"])), 5);
}

#[test]
fn lcp_stops_at_a_character_boundary() {
    // "é" and "è" share their first byte, which does not end a character.
    let m = s(&["é", "è"]);
    assert_eq!(longest_common_prefix(&m), 0);
    let m = s(&["aé", "aè", "aéb"]);
    let lcp = longest_common_prefix(&m);
    assert_eq!(lcp, 1);
    assert!(m[0].is_char_boundary(lcp));
    assert_eq!(longest_common_prefix(&s(&["☕a", "☕b"])), 3);
}

#[test]
fn lcp_order_of_candidates_does_not_matter() {
    assert_eq!(longest_common_prefix(&s(&["abcd", "ab", "abc"])), 2);
}

// --- complete_filename --------------------------------------------------

#[test]
fn complete_filename_empty_dir_returns_empty() {
    assert_eq!(complete_filename("re", &[]), Vec::<String>::new());
}

#[test]
fn complete_filename_single_match_codecrafters() {
    // 'cat re<TAB>' -> readme.txt.
    assert_eq!(complete_filename("re", &s(&["readme.txt"])), vec!["readme.txt"]);
}

#[test]
fn complete_filename_prefix_filters_correctly() {
    assert_eq!(
        complete_filename("re", &s(&["readme.txt", "hello.py"])),
        vec!["readme.txt"]
    );
}

#[test]
fn complete_filename_second_codecrafters_scenario() {
    assert_eq!(
        complete_filename("hello", &s(&["readme.txt", "hello_world.py"])),
        vec!["hello_world.py"]
    );
}

#[test]
fn complete_filename_empty_prefix_lists_all_sorted() {
    assert_eq!(
        complete_filename("", &s(&["zeta", "alpha", "mu"])),
        vec!["alpha", "mu", "zeta"]
    );
}

#[test]
fn complete_filename_multi_match_sorted() {
    assert_eq!(
        complete_filename("re", &s(&["readme.txt", "readme.md"])),
        vec!["readme.md", "readme.txt"]
    );
}

#[test]
fn complete_filename_includes_directories() {
    // Directories are candidates too.
    assert_eq!(complete_filename("re", &s(&["results"])), vec!["results"]);
}

#[test]
fn complete_filename_no_exec_bit_filter() {
    // Unlike command completion, a non-executable file is a candidate.
    assert_eq!(complete_filename("re", &s(&["readme.txt"])), vec!["readme.txt"]);
}

#[test]
fn complete_filename_no_match_returns_empty() {
    assert_eq!(complete_filename("xyz", &s(&["readme.txt"])), Vec::<String>::new());
}

#[test]
fn complete_filename_nonexistent_cwd_returns_empty() {
    // A directory that cannot be listed has no entries.
    assert_eq!(complete_filename("re", &[]), Vec::<String>::new());
}

#[test]
fn complete_filename_works_when_dir_is_a_subdirectory() {
    assert_eq!(complete_filename("f", &s(&["file.txt"])), vec!["file.txt"]);
}

#[test]
fn complete_filename_only_lists_immediate_entries_not_recursive() {
    // The listing of the root holds the directory `inner`, not its files.
    assert!(
        complete_filename("f", &s(&["inner"])).is_empty(),
        "complete_filename should not recurse into subdirectories",
    );
}

#[test]
fn complete_filename_empty_prefix_in_nested_dir_lists_all() {
    assert_eq!(
        complete_filename("", &s(&["gamma.txt", "alpha.txt", "beta.txt"])),
        vec!["alpha.txt", "beta.txt", "gamma.txt"],
    );
}

#[test]
fn complete_filename_keeps_repeated_names() {
    assert_eq!(complete_filename("a", &s(&["ab", "a", "ab"])), vec!["a", "ab", "ab"]);
}

#[test]
fn lcp_does_not_depend_on_order_or_repeats() {
    let a = s(&["xyz_foo_bar", "xyz_foo", "xyz_foo_baz"]);
    let b = s(&["xyz_foo_baz", "xyz_foo", "xyz_foo_bar", "xyz_foo"]);
    assert_eq!(longest_common_prefix(&a), longest_common_prefix(&b));
}

#[test]
fn lcp_never_grows_with_another_candidate() {
    let a = s(&["echo", "echoes"]);
    let mut b = a.clone();
    b.push("ex".to_string());
    assert_eq!(longest_common_prefix(&a), 4);
    assert_eq!(longest_common_prefix(&b), 1);
}
