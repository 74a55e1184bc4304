use tau::cbor::{cbor_map_int, cbor_map_text, CborInteger, CborValue};
use tau::edit::{apply_edits, edit_result, find_matches, plan_edit, plan_write, write_result};
use tau::listing::{
    path_to_slash, report_matches, run_find, run_ls, sort_entries, write_output, LsEntry, WalkItem,
};
use tau::text::to_chars;
use tau::truncate::{
    truncate_head, truncate_head_plain, truncate_head_with_notice, truncate_line, truncate_tail,
    MAX_OUTPUT_BYTES, MAX_OUTPUT_LINES,
};

fn text(s: &str) -> CborValue {
    CborValue::Text(s.to_owned())
}

fn number(n: i64) -> CborValue {
    CborValue::Integer(CborInteger::from_i64(n))
}

fn table(entries: Vec<(&str, CborValue)>) -> CborValue {
    CborValue::Table(entries.into_iter().map(|(k, v)| (text(k), v)).collect())
}

fn edit(old: &str, new: &str) -> CborValue {
    table(vec![("oldText", text(old)), ("newText", text(new))])
}

fn edit_times(old: &str, new: &str, n: i64) -> CborValue {
    table(vec![
        ("oldText", text(old)),
        ("newText", text(new)),
        ("expected_matches", number(n)),
    ])
}

fn strings(v: &[&str]) -> Vec<String> {
    v.iter().map(|s| s.to_string()).collect()
}

// --- edit ---

#[test]
fn edits_replace_what_they_name() {
    assert_eq!(
        apply_edits("one two three", &[edit("three", "3"), edit("one", "1")]),
        Ok(("1 two 3".to_owned(), 2))
    );
    assert_eq!(
        apply_edits("a-a-a", &[edit_times("a", "bb", 3)]),
        Ok(("bb-bb-bb".to_owned(), 3))
    );
    assert_eq!(apply_edits("äöü", &[edit("ö", "")]), Ok(("äü".to_owned(), 1)));
    assert_eq!(apply_edits("abc", &[edit_times("x", "y", 0)]), Ok(("abc".to_owned(), 0)));
    assert_eq!(
        apply_edits("abcd", &[edit("ab", "1"), edit("cd", "2")]),
        Ok(("12".to_owned(), 2))
    );
}

#[test]
fn edits_that_cannot_be_made_say_why() {
    let fails = |edits: &[CborValue]| apply_edits("aXbXc", edits).unwrap_err();
    assert_eq!(fails(&[]), "edits array must not be empty");
    assert_eq!(fails(&[table(vec![])]), "each edit must have a string oldText");
    assert_eq!(
        fails(&[table(vec![("oldText", text("a"))])]),
        "each edit must have a string newText"
    );
    assert_eq!(fails(&[edit_times("a", "b", -1)]), "expected_matches must not be negative");
    assert_eq!(fails(&[edit("", "b")]), "oldText must not be empty");
    assert_eq!(fails(&[edit("X", "b")]), "matches: expected 1, found 2");
    assert_eq!(fails(&[edit_times("X", "b", 3)]), "matches: expected 3, found 2");
    assert_eq!(fails(&[edit("zz", "b")]), "matches: expected 1, found 0");
    assert_eq!(fails(&[edit("aX", "1"), edit("Xb", "2")]), "overlapping edits");
    assert_eq!(fails(&[edit("aX", "1"), edit("a", "2")]), "overlapping edits");
}

#[test]
fn text_replaced_by_itself_stays() {
    let s = "one two two three";
    assert_eq!(
        apply_edits(s, &[edit_times("two", "two", 2), edit("three", "three")]),
        Ok((s.to_owned(), 3))
    );
}

#[test]
fn matches_do_not_overlap_each_other() {
    assert_eq!(find_matches(&to_chars("aaaa"), &to_chars("aa")), vec![0, 2]);
    assert_eq!(find_matches(&to_chars("aaa"), &to_chars("aa")), vec![0]);
    assert_eq!(find_matches(&to_chars("a"), &to_chars("aa")), Vec::<usize>::new());
    let s = "abcabcab";
    let expected: Vec<usize> = s.match_indices("ab").map(|(i, _)| i).collect();
    assert_eq!(find_matches(&to_chars(s), &to_chars("ab")), expected);
}

#[test]
fn an_edit_is_planned_and_reported() {
    let arguments = table(vec![
        ("path", text("f.txt")),
        ("edits", CborValue::Array(vec![edit("a", "b")])),
    ]);
    let plan = plan_edit(&arguments, Ok("cat".to_owned())).unwrap();
    assert_eq!(plan.path, "f.txt");
    assert_eq!(plan.content, "cbt");
    let report = edit_result(&plan, CborValue::Null);
    assert_eq!(cbor_map_text(&report, "path"), Some("f.txt"));
    assert_eq!(cbor_map_int(&report, "edits_applied"), Some(1));

    assert_eq!(
        plan_edit(&arguments, Err("gone".to_owned())).unwrap_err(),
        "gone"
    );
    assert_eq!(
        plan_edit(&table(vec![]), Ok(String::new())).unwrap_err(),
        "missing string argument: path"
    );
    assert_eq!(
        plan_edit(&table(vec![("path", text("f"))]), Ok(String::new())).unwrap_err(),
        "missing array argument: edits"
    );
}

#[test]
fn a_write_is_planned_and_reported() {
    let arguments = table(vec![("path", text("d/f.txt")), ("content", text("äb"))]);
    let plan = plan_write(&arguments).unwrap();
    assert_eq!(plan.directory.as_deref(), Some("d"));
    let report = write_result(&plan, text("diff"));
    assert_eq!(cbor_map_text(&report, "path"), Some("d/f.txt"));
    assert_eq!(cbor_map_int(&report, "bytes_written"), Some(3));
    assert_eq!(cbor_map_text(&report, "diff"), Some("diff"));
    assert_eq!(
        plan_write(&table(vec![("path", text("f"))])).unwrap_err(),
        "missing string argument: content"
    );
    assert_eq!(
        plan_write(&table(vec![("content", text("f"))])).unwrap_err(),
        "missing string argument: path"
    );
}

// --- ls and find ---

fn entry(name: &str, is_dir: bool) -> LsEntry {
    LsEntry { name: name.to_owned(), is_dir }
}

#[test]
fn listings_are_sorted_letter_case_aside() {
    let listing = vec![entry("b", false), entry("A", true), entry("a.txt", false)];
    let report = run_ls(&table(vec![]), Ok(true), Ok(listing)).unwrap();
    assert_eq!(cbor_map_text(&report, "path"), Some("."));
    assert_eq!(cbor_map_int(&report, "entries"), Some(3));
    assert_eq!(cbor_map_text(&report, "output"), Some("a.txt\nA/\nb"));
    assert_eq!(
        sort_entries(&strings(&["b", "B", "É", "a", "é"])),
        strings(&["a", "b", "B", "É", "é"])
    );
}

#[test]
fn long_listings_are_cut() {
    let listing = vec![entry("a", false), entry("b", false), entry("c", false)];
    let arguments = table(vec![("path", text("d")), ("limit", number(2))]);
    let report = run_ls(&arguments, Ok(true), Ok(listing)).unwrap();
    assert_eq!(cbor_map_int(&report, "entries"), Some(3));
    assert_eq!(
        cbor_map_text(&report, "output"),
        Some("a\nb\n\n[2 entries limit reached. Use limit=4 for more.]")
    );
    let zero = table(vec![("limit", number(0))]);
    let report = run_ls(&zero, Ok(true), Ok(vec![entry("a", false)])).unwrap();
    assert_eq!(cbor_map_text(&report, "output"), Some("a"));
}

#[test]
fn listings_that_fail_say_why() {
    let arguments = table(vec![("path", text("d"))]);
    assert_eq!(
        run_ls(&arguments, Err("gone".to_owned()), Ok(Vec::new())).unwrap_err(),
        "failed to access d: gone"
    );
    assert_eq!(
        run_ls(&arguments, Ok(false), Ok(Vec::new())).unwrap_err(),
        "not a directory: d"
    );
    assert_eq!(
        run_ls(&arguments, Ok(true), Err("no".to_owned())).unwrap_err(),
        "failed to read d: no"
    );
    let empty = run_ls(&arguments, Ok(true), Ok(Vec::new())).unwrap();
    assert_eq!(cbor_map_text(&empty, "output"), Some("(empty directory)"));
    assert_eq!(cbor_map_int(&empty, "entries"), Some(0));
}

fn file(path: &str) -> WalkItem {
    WalkItem::File(path.to_owned())
}

#[test]
fn searches_report_the_files_that_match() {
    let arguments = table(vec![("pattern", text("**/*.rs"))]);
    let walk = vec![file("src/lib.rs"), file("README.md"), WalkItem::Other, file("Build.rs")];
    let report = run_find(&arguments, Ok(true), &walk).unwrap();
    assert_eq!(cbor_map_text(&report, "pattern"), Some("**/*.rs"));
    assert_eq!(cbor_map_int(&report, "matches"), Some(2));
    assert_eq!(cbor_map_text(&report, "output"), Some("Build.rs\nsrc/lib.rs"));
    let none = run_find(&table(vec![("pattern", text("*.py"))]), Ok(true), &walk).unwrap();
    assert_eq!(cbor_map_int(&none, "matches"), Some(0));
    assert_eq!(cbor_map_text(&none, "output"), Some("no files found matching pattern"));
}

#[test]
fn searches_that_fail_say_why() {
    let arguments = table(vec![("pattern", text("*")), ("path", text("d"))]);
    assert_eq!(
        run_find(&table(vec![]), Ok(true), &[]).unwrap_err(),
        "missing string argument: pattern"
    );
    assert_eq!(
        run_find(&arguments, Err("gone".to_owned()), &[]).unwrap_err(),
        "failed to access d: gone"
    );
    assert_eq!(run_find(&arguments, Ok(false), &[]).unwrap_err(), "not a directory: d");
    assert_eq!(
        run_find(&arguments, Ok(true), &[file("a"), WalkItem::Failed("x".to_owned())])
            .unwrap_err(),
        "failed to walk d: x"
    );
    let broken = table(vec![("pattern", text("a{\"b"))]);
    let message = run_find(&broken, Ok(true), &[]).unwrap_err();
    assert!(message.starts_with("invalid glob pattern \"a{\\\"b\": "), "{message}");
}

#[test]
fn long_results_are_cut() {
    let matches = strings(&["c", "a", "b"]);
    let report = report_matches(".", "*", 1, &matches);
    assert_eq!(cbor_map_int(&report, "matches"), Some(3));
    assert_eq!(
        cbor_map_text(&report, "output"),
        Some("a\n\n[1 results limit reached. Use limit=2 for more, or refine pattern.]")
    );
    let many: Vec<String> = (0..2500).map(|i| format!("{i:04}")).collect();
    let output = write_output(&many, 5000, "unused");
    assert!(output.ends_with("1999\n\n[50KB/2000 line output limit reached.]"));
    let output = write_output(&many, 2400, "limited.");
    assert!(output.ends_with("1999\n\n[limited. 50KB/2000 line output limit reached.]"));
    assert_eq!(path_to_slash("a\\b/c"), "a/b/c");
}

// --- truncation ---

#[test]
fn short_output_stays_as_it_is() {
    let t = truncate_head_plain("a\nb\n");
    assert!(!t.was_truncated);
    assert_eq!(t.content, "a\nb\n");
    assert_eq!((t.total_lines, t.total_bytes), (2, 4));
    assert_eq!(truncate_tail("a").content, "a");
    assert_eq!(truncate_head("").total_lines, 0);
}

#[test]
fn long_output_keeps_its_head_or_tail() {
    let input: String = (0..2500).map(|i| format!("{i}\n")).collect();
    let head = truncate_head_plain(&input);
    assert!(head.was_truncated);
    assert_eq!(head.content.lines().count(), MAX_OUTPUT_LINES);
    assert!(head.content.ends_with("\n1999"));
    let noted = truncate_head(&input);
    assert!(noted.content.ends_with(&format!(
        "\n1999\n\n[Showing lines 1-2000 of 2500 ({} bytes total). Use start_line and line_count to continue reading.]",
        input.len()
    )));
    assert!(truncate_head_with_notice(&input, "More.").content.ends_with("total). More.]"));
    let tail = truncate_tail(&input);
    assert!(tail.content.starts_with(&format!(
        "[Showing lines 501-2500 of 2500 ({} bytes total)]\n\n500\n501\n",
        input.len()
    )));
    assert!(tail.content.ends_with("\n2499"));
}

#[test]
fn wide_output_is_cut_at_whole_lines() {
    let line = "x".repeat(1000);
    let input: String = (0..60).map(|_| format!("{line}\n")).collect();
    let head = truncate_head_plain(&input);
    assert!(head.content.len() <= MAX_OUTPUT_BYTES);
    assert_eq!(head.content.lines().count(), 51);
    let tail = truncate_tail(&input);
    assert_eq!(tail.content.lines().count(), 51 + 2);
    let single = "y".repeat(MAX_OUTPUT_BYTES + 1);
    let head = truncate_head_plain(&single);
    assert!(head.was_truncated);
    assert_eq!(head.content, "");
}

#[test]
fn lines_are_cut_between_characters() {
    assert_eq!(truncate_line("abc", 3), "abc");
    assert_eq!(truncate_line("abcd", 3), "abc... [truncated]");
    assert_eq!(truncate_line("aäb", 2), "a... [truncated]");
    assert_eq!(truncate_line("ä", 1), "... [truncated]");
    assert_eq!(truncate_line("ä", 0), "... [truncated]");
}
