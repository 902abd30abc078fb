use vrun::report::{
    count_passed, failure_files_in, fallback_diff, judge_test, render_block, render_diff,
    stress_failure_files, stress_label, test_label, DiffTag, StressRun, StressStep,
};

#[test]
fn judging_outputs() {
    let v = judge_test("1 2\n3\n", "1 2  \r\n3", "", false);
    assert!(v.passed && !v.show_details && !v.write_diff && !v.show_stderr);
    let v = judge_test("1 2", "1 3", "dbg", false);
    assert!(!v.passed && v.show_details && v.write_diff && v.show_stderr);
    let v = judge_test("x", "x", "dbg", true);
    assert!(v.passed && v.show_details && !v.write_diff && v.show_stderr);
    let v = judge_test("x", " x", "", false);
    assert!(!v.passed);
}

#[test]
fn trailing_whitespace_never_decides() {
    assert!(judge_test("a\nb", "a \t\nb\u{A0}\n", "", false).passed);
    assert!(!judge_test("a\nb", "a\n\nb", "", false).passed);
}

#[test]
fn blocks_as_printed() {
    assert_eq!(render_block("Input", "1 2"), "Input:\n--------------------\n1 2\n--------------------\n");
    let big: String = (0..61).map(|i| format!("{}\n", i)).collect();
    assert_eq!(
        render_block("Your Output", &big),
        "Your Output:\n--------------------\n<61 lines \u{2014} too large to print inline>\n--------------------\n"
    );
    let sixty: String = (0..60).map(|i| format!("{}\n", i)).collect();
    assert!(render_block("E", &sixty).contains("59\n"));
}

#[test]
fn labels() {
    assert_eq!(test_label(12), "TEST #12");
    assert_eq!(test_label(0), "TEST #0");
    assert_eq!(stress_label(usize::MAX), format!("STRESS seed={}", usize::MAX));
}

#[test]
fn fallback_diff_marks_lines() {
    assert_eq!(fallback_diff("a\nb", "a\nc"), " a\n-b\n+c\n");
    assert_eq!(fallback_diff("a  \nb\n", "a\nb"), " a\n b\n");
    assert_eq!(fallback_diff("", ""), "");
}

#[test]
fn counting_passes() {
    assert_eq!(count_passed(&vec![true, false, true]), 2);
    assert_eq!(count_passed(&vec![]), 0);
}

#[test]
fn stress_run_steps() {
    let mut r = StressRun::new(5, 2);
    assert!(r.should_continue(true));
    assert!(!r.should_continue(false));
    assert_eq!(r.record(true, true), StressStep::Next);
    assert_eq!((r.seed, r.passed), (6, 1));
    assert_eq!(r.record(false, false), StressStep::Next);
    assert_eq!((r.seed, r.passed), (7, 1));
    assert!(!r.should_continue(true));
    assert_eq!(r.completed(), 2);
    let mut f = StressRun::new(1, 0);
    assert!(f.should_continue(true));
    assert_eq!(f.record(false, true), StressStep::SaveFailure);
    assert_eq!((f.seed, f.passed, f.completed()), (1, 0, 0));
}

#[test]
fn stress_failure_locations() {
    assert_eq!(
        stress_failure_files("/p/sol.cpp", "/base"),
        ("/p/testcases/stress_fail_input.txt".to_string(), "/p/testcases/stress_fail_output.txt".to_string())
    );
    assert_eq!(
        stress_failure_files("/", "/base"),
        ("/base/testcases/stress_fail_input.txt".to_string(), "/base/testcases/stress_fail_output.txt".to_string())
    );
}

#[test]
fn given_changes_are_marked() {
    let cs = vec![
        (DiffTag::Equal, "1\n".to_string()),
        (DiffTag::Delete, "2\n".to_string()),
        (DiffTag::Insert, "3\n".to_string()),
    ];
    assert_eq!(render_diff(&cs), " 1\n-2\n+3\n");
    assert_eq!(render_diff(&vec![]), "");
}

#[test]
fn failure_files_from_a_given_parent() {
    assert_eq!(
        failure_files_in(Some("/p"), "/base"),
        ("/p/testcases/stress_fail_input.txt".to_string(), "/p/testcases/stress_fail_output.txt".to_string())
    );
    assert_eq!(
        failure_files_in(None, "/base"),
        ("/base/testcases/stress_fail_input.txt".to_string(), "/base/testcases/stress_fail_output.txt".to_string())
    );
}

#[test]
fn all_passed_exactly_when_the_count_is_full() {
    let all = vec![true, true, true];
    let some = vec![true, false, true];
    assert_eq!(count_passed(&all), all.len());
    assert!(count_passed(&some) < some.len());
}
