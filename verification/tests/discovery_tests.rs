use vrun::discovery::{
    find_prob_for_file, find_prob_for_source, keep_existing, next_lookup, Lookup, match_testcase, number_tests, problem_of_source,
    scan_testcases, select_test_source, sort_by_index, TestSource,
};
use vrun::listen::{plan_saved_tests, Payload, TestCase};

fn s(x: &str) -> String {
    x.to_string()
}

#[test]
fn testcase_names_are_recognised() {
    assert_eq!(match_testcase("A", "A_input.txt"), Some((0, s("A_output.txt"))));
    assert_eq!(match_testcase("A", "A_input3.txt"), Some((3, s("A_output3.txt"))));
    assert_eq!(match_testcase("A", "A_input0.txt"), Some((0, s("A_output0.txt"))));
    assert_eq!(match_testcase("A", "A_input007.txt"), Some((7, s("A_output7.txt"))));
    assert_eq!(match_testcase("A", "A_input+7.txt"), Some((7, s("A_output7.txt"))));
}

#[test]
fn other_names_are_not_testcases() {
    assert_eq!(match_testcase("A", "A_input.out"), None);
    assert_eq!(match_testcase("A", "A_inputx.txt"), None);
    assert_eq!(match_testcase("A", "A_input-1.txt"), None);
    assert_eq!(match_testcase("A", "A_input+.txt"), None);
    assert_eq!(match_testcase("A", "B_input1.txt"), None);
    assert_eq!(match_testcase("A", "A_output1.txt"), None);
    assert_eq!(match_testcase("A", "A_input99999999999999999999999.txt"), None);
    assert_eq!(match_testcase("A", "A_input"), None);
}

#[test]
fn saved_tests_are_found_again() {
    for i in [0usize, 1, 9, 10, 12345] {
        let name = format!("Prob_1_input{}.txt", i);
        assert_eq!(match_testcase("Prob_1", &name), Some((i, format!("Prob_1_output{}.txt", i))));
    }
}

#[test]
fn scanning_keeps_listing_order() {
    let names = vec![s("A_input2.txt"), s("notes.md"), s("A_input.txt"), s("A_input1.txt"), s("A_output1.txt")];
    let c = scan_testcases("A", "/d", &names);
    assert_eq!(
        c,
        vec![
            (2, s("/d/A_input2.txt"), s("/d/A_output2.txt")),
            (0, s("/d/A_input.txt"), s("/d/A_output.txt")),
            (1, s("/d/A_input1.txt"), s("/d/A_output1.txt")),
        ]
    );
    let kept = keep_existing(c, &vec![true, false, true]);
    assert_eq!(
        kept,
        vec![(2, s("/d/A_input2.txt"), s("/d/A_output2.txt")), (1, s("/d/A_input1.txt"), s("/d/A_output1.txt"))]
    );
}

#[test]
fn sorting_by_index_is_stable() {
    let v = vec![(3, s("c"), s("")), (1, s("a"), s("")), (3, s("d"), s("")), (0, s("z"), s("")), (1, s("b"), s(""))];
    let r = sort_by_index(v);
    let order: Vec<&str> = r.iter().map(|t| t.1.as_str()).collect();
    assert_eq!(order, vec!["z", "a", "b", "c", "d"]);
    assert_eq!(sort_by_index(vec![]), vec![]);
}

#[test]
fn test_source_choice() {
    let tc = vec![(2, s("i2"), s("o2")), (1, s("i1"), s("o1"))];
    match select_test_source(tc, None, Some(vec![(s("x"), s("y"))])) {
        Some(TestSource::FilePairs(p)) => assert_eq!(p, vec![(1, s("i1"), s("o1")), (2, s("i2"), s("o2"))]),
        _ => panic!("expected file pairs"),
    }
    let base = vec![(5, s("b"), s("c"))];
    match select_test_source(vec![], Some(base), None) {
        Some(TestSource::FilePairs(p)) => assert_eq!(p.len(), 1),
        _ => panic!("expected file pairs from the base directory"),
    }
    match select_test_source(vec![], Some(vec![]), Some(vec![(s("1 2"), s("3")), (s("4"), s("5"))])) {
        Some(TestSource::CphProb { tests }) => {
            assert_eq!(tests, vec![(1, s("1 2"), s("3")), (2, s("4"), s("5"))])
        }
        _ => panic!("expected the CPH tests"),
    }
    assert!(select_test_source(vec![], Some(vec![]), None).is_none());
    assert!(select_test_source(vec![], None, None).is_none());
}

#[test]
fn cph_tests_numbered_from_one() {
    assert_eq!(number_tests(vec![(s("a"), s("b"))]), vec![(1, s("a"), s("b"))]);
    assert_eq!(number_tests(vec![]), vec![]);
}

#[test]
fn test_source_lengths() {
    let d = TestSource::DirectFile { input_path: s("in"), expected_path: None };
    assert_eq!(d.len(), 1);
    assert_eq!(TestSource::FilePairs(vec![]).len(), 0);
    assert_eq!(TestSource::CphProb { tests: vec![(1, s("a"), s("b")), (2, s("c"), s("d"))] }.len(), 2);
}

#[test]
fn cph_problem_file_found() {
    let names = vec![s(".B.cpp_1.prob"), s("A.cpp_2.prob"), s(".A.cpp_abc.prob"), s(".A.cpp_zz.prob")];
    assert_eq!(find_prob_for_source("/w/A.cpp", "/w/.cph", &names), Some(s("/w/.cph/.A.cpp_abc.prob")));
    assert_eq!(find_prob_for_source("/w/C.cpp", "/w/.cph", &names), None);
    assert_eq!(find_prob_for_source("/", "/w/.cph", &names), None);
    assert_eq!(find_prob_for_source("/w/A.cpp", "/w/.cph", &vec![s(".A.cpp_.probx")]), None);
}

#[test]
fn problem_of_a_source_file() {
    assert_eq!(problem_of_source("/x/A Eating Game.cpp"), Some(s("A_Eating_Game")));
    assert_eq!(problem_of_source("/x/sol.tar.gz"), Some(s("sol_tar")));
    assert_eq!(problem_of_source("/x/.hidden"), Some(s("hidden")));
    assert_eq!(problem_of_source("/"), None);
}

#[test]
fn saved_tests_run_in_saved_order() {
    let payload = Payload {
        name: "B. Walk".to_string(),
        group: None,
        tests: (0..12).map(|i| TestCase { input: format!("{} \n", i), output: format!("{}\t\n\n", i * 2) }).collect(),
    };
    let (problem, files) = plan_saved_tests(&payload).unwrap();
    assert_eq!(problem, "B_Walk");
    for (i, f) in files.iter().enumerate() {
        assert_eq!(f.input_content, format!("{}\n", i));
        assert_eq!(f.output_content, format!("{}\n", i * 2));
    }
    let mut names: Vec<String> = Vec::new();
    for f in files.iter().rev() {
        names.push(f.output_name.clone());
        names.push(f.input_name.clone());
    }
    names.push(s("other_input3.txt"));
    let scanned = scan_testcases(&problem, "/b/testcases", &names);
    let flags = vec![true; scanned.len()];
    let kept = keep_existing(scanned, &flags);
    match select_test_source(kept, None, None) {
        Some(TestSource::FilePairs(p)) => {
            assert_eq!(p.len(), 12);
            for (i, t) in p.iter().enumerate() {
                assert_eq!(t.0, i);
                assert_eq!(t.1, format!("/b/testcases/B_Walk_input{}.txt", i));
                assert_eq!(t.2, format!("/b/testcases/B_Walk_output{}.txt", i));
            }
        }
        _ => panic!("expected the saved tests"),
    }
}

#[test]
fn prob_file_of_a_given_file_name() {
    let names = vec![s("x.prob"), s(".B.cpp_1.prob"), s(".A.cpp_abc.prob"), s(".A.cpp_zzz.prob")];
    assert_eq!(find_prob_for_file("A.cpp", "/w/.cph", &names), Some(s("/w/.cph/.A.cpp_abc.prob")));
    assert_eq!(find_prob_for_file("C.cpp", "/w/.cph", &names), None);
}

#[test]
fn lookups_of_a_run() {
    let one = vec![(0usize, s("i"), s("o"))];
    let none: Vec<(usize, String, String)> = vec![];
    assert_eq!(next_lookup(&one, None, false), Lookup::Choose);
    assert_eq!(next_lookup(&none, None, false), Lookup::ScanBaseDir);
    assert_eq!(next_lookup(&none, Some(&one), false), Lookup::Choose);
    assert_eq!(next_lookup(&none, Some(&none), false), Lookup::FindProbFile);
    assert_eq!(next_lookup(&none, Some(&none), true), Lookup::Choose);
}
