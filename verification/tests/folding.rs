use sample_collapse::sample::Folder;
use sample_collapse::sample::Options;

fn collapse_all(folder: &mut Folder, lines: &[&str]) -> (String, bool) {
    let owned: Vec<String> = lines.iter().map(|l| l.to_string()).collect();
    let mut out = String::new();
    let found = folder.collapse(&owned, &mut out);
    (out, found)
}

#[test]
fn scenario_thread_section() {
    let mut folder = Folder::default();
    let (out, found) = collapse_all(
        &mut folder,
        &[
            "Call graph:",
            "    5130 Thread_0001",
            "    +   5130 start_wqthread",
            "    +     4282 _pthread_wqthread",
            "    +       4282 __doworkq_kernreturn",
            "    +     848 other_func",
            "Total number in stack: 1",
        ],
    );
    assert!(found);
    assert_eq!(
        out,
        "Thread_0001;start_wqthread;_pthread_wqthread;__doworkq_kernreturn 4282\n\
         Thread_0001;start_wqthread;_pthread_wqthread;other_func 848\n"
    );
}

#[test]
fn well_formed_paths_match_indentation() {
    let mut folder = Folder::default();
    let (out, found) = collapse_all(
        &mut folder,
        &[
            "preamble junk",
            "Call graph:",
            "    100 main",
            "      60 foo",
            "        60 bar",
            "      40 baz",
            "Total number in stack: 2",
        ],
    );
    assert!(found);
    assert_eq!(out, "main;foo;bar 60\nmain;baz 40\n");
}

#[test]
fn repeated_paths_accumulate() {
    let mut folder = Folder::default();
    let (out, _) = collapse_all(
        &mut folder,
        &[
            "Call graph:",
            "    10 a",
            "      5 b",
            "    10 a",
            "      7 b",
            "Total number in stack",
        ],
    );
    assert_eq!(out, "a;b 12\n");
}

#[test]
fn ignored_leaf_suppressed() {
    let mut folder = Folder::default();
    let (out, _) = collapse_all(
        &mut folder,
        &[
            "Call graph:",
            "    50 main",
            "      30 __psynch_cvwait",
            "      20 work",
            "Total number in stack",
        ],
    );
    assert_eq!(out, "main;work 20\n");
}

#[test]
fn module_qualification_toggle() {
    let lines = [
        "Call graph:",
        "    90 start  (in libdyld.dylib) + 13 [0x7fff5bf73015]",
        "      90 main  (in MyApp) + 286 [0x1043a binary]",
        "        90 compute::run::h0123456789abcdef  (in MyApp) + 10 [0x104]",
        "Total number in stack",
    ];
    let mut with_modules = Folder::default();
    let (out_m, _) = collapse_all(&mut with_modules, &lines);
    assert_eq!(out_m, "libdyld`start;MyApp`main;MyApp`compute::run 90\n");

    let mut bare = Folder::from(Options { no_modules: true });
    let (out_b, _) = collapse_all(&mut bare, &lines);
    assert_eq!(out_b, "start;main;compute::run 90\n");
}

#[test]
fn no_start_marker_produces_nothing() {
    let mut folder = Folder::default();
    let (out, found) = collapse_all(&mut folder, &["no marker here", "    5 data"]);
    assert!(!found);
    assert_eq!(out, "");
}

#[test]
fn empty_section_emits_empty_key() {
    let mut folder = Folder::default();
    let (out, found) = collapse_all(&mut folder, &["Call graph:", "Total number in stack"]);
    assert!(found);
    assert_eq!(out, " 0\n");
}

#[test]
fn missing_end_marker_still_flushes() {
    let mut folder = Folder::default();
    let (out, found) = collapse_all(&mut folder, &["Call graph:", "    3 lone"]);
    assert!(found);
    assert_eq!(out, "lone 3\n");
}

#[test]
fn odd_indentation_still_processed() {
    let mut folder = Folder::default();
    let (out, _) = collapse_all(
        &mut folder,
        &["Call graph:", "    7 root", "    +  7 child", "Total number in stack"],
    );
    assert_eq!(out, "root;child 7\n");
}

#[test]
fn unparsable_line_skipped() {
    let mut folder = Folder::default();
    let (out, _) = collapse_all(
        &mut folder,
        &[
            "Call graph:",
            "    5 root",
            "      xyz child",
            "      3 leaf",
            "Total number in stack",
        ],
    );
    assert_eq!(out, "root;leaf 3\n");
}

#[test]
fn malformed_section_line_skipped() {
    let mut folder = Folder::default();
    let (out, _) = collapse_all(
        &mut folder,
        &[
            "Call graph:",
            "    5 root",
            "  2 shallow",
            "      3 leaf",
            "Total number in stack",
        ],
    );
    assert_eq!(out, "root;leaf 3\n");
}

#[test]
fn oversized_count_skipped() {
    let mut folder = Folder::default();
    let (out, _) = collapse_all(
        &mut folder,
        &[
            "Call graph:",
            "    5 root",
            "      99999999999999999999 big",
            "Total number in stack",
        ],
    );
    assert_eq!(out, "root 5\n");
}

#[test]
fn blank_lines_ignored() {
    let mut folder = Folder::default();
    let (out, _) = collapse_all(
        &mut folder,
        &["Call graph:", "", "    4 main", "   ", "      4 leafy", "Total number in stack"],
    );
    assert_eq!(out, "main;leafy 4\n");
}

#[test]
fn largest_count_round_trips() {
    let mut folder = Folder::default();
    let (out, _) = collapse_all(
        &mut folder,
        &[
            "Call graph:",
            "    18446744073709551615 huge",
            "Total number in stack",
        ],
    );
    assert_eq!(out, "huge 18446744073709551615\n");
}

#[test]
fn trailing_whitespace_trimmed() {
    let mut folder = Folder::default();
    let (out, _) = collapse_all(
        &mut folder,
        &["Call graph:", "    6 padded \t", "Total number in stack"],
    );
    assert_eq!(out, "padded 6\n");
}

#[test]
fn folder_reusable_across_runs() {
    let mut folder = Folder::default();
    let (out1, _) = collapse_all(
        &mut folder,
        &["Call graph:", "    9 first", "Total number in stack"],
    );
    assert_eq!(out1, "first 9\n");
    let (out2, _) = collapse_all(
        &mut folder,
        &["Call graph:", "    2 second", "Total number in stack"],
    );
    assert_eq!(out2, "second 2\n");
}
