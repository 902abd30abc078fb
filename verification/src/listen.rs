//! Receiving test cases from the Competitive Companion browser extension:
//! the body of its HTTP request, and the files in which its tests are
//! saved.
use vstd::prelude::*;
use crate::discovery::{
    candidates, input_name, keep_flagged, lemma_saved_tests_run_in_order, output_name, pair_view,
    pairs_view, source_problem, stably_sorted, testcase_match, TestPair,
};
use crate::path::join_path;
use crate::name::{sanitize, sanitized};
use crate::number::decimal_chars;
use crate::text::{append_chars, append_str, chars_of, copy_range, is_ws, string_of, trim, trim_end, trim_end_chars};

verus! {

// ---------------------------------------------------------------------------
// HTTP request
// ---------------------------------------------------------------------------

/// The blank line that ends the head of an HTTP request.
pub open spec fn header_end() -> Seq<char> {
    seq!['\r', '\n', '\r', '\n']
}

/// Whether the blank line of [`header_end`] starts at index `k` of `s`.
pub open spec fn separator_at(s: Seq<char>, k: int) -> bool {
    0 <= k && k + 4 <= s.len() && s.subrange(k, k + 4) == header_end()
}

/// The first index at or after `from` where [`separator_at`] holds, if any.
pub open spec fn find_separator(s: Seq<char>, from: int) -> Option<int>
    decreases s.len() - from,
{
    if from < 0 || from + 4 > s.len() {
        None
    } else if separator_at(s, from) {
        Some(from)
    } else {
        find_separator(s, from + 1)
    }
}

/// The body of a request as the second piece of splitting it at blank
/// lines: from the end of the first blank line to the start of the next
/// one, or to the end; none without a blank line.
pub open spec fn http_body_of(req: Seq<char>) -> Option<Seq<char>> {
    match find_separator(req, 0) {
        None => None,
        Some(i) => match find_separator(req, i + 4) {
            None => Some(req.subrange(i + 4, req.len() as int)),
            Some(j) => Some(req.subrange(i + 4, j)),
        },
    }
}

proof fn lemma_find_separator_at(s: Seq<char>, from: int, k: int)
    requires
        0 <= from <= k,
        k + 4 <= s.len() ==> separator_at(s, k),
        forall|j: int| from <= j < k ==> !separator_at(s, j),
    ensures
        find_separator(s, from) == if k + 4 <= s.len() {
            Some(k)
        } else {
            None::<int>
        },
    decreases k - from,
{
    if from < k && from + 4 <= s.len() {
        assert(!separator_at(s, from));
        lemma_find_separator_at(s, from + 1, k);
    }
}

/// The first index at or after `from` where the blank line starts in `v`,
/// or `v.len()` when there is none.
fn find_separator_in(v: &Vec<char>, from: usize) -> (k: usize)
    requires
        from <= v.len(),
    ensures
        from <= k <= v.len(),
        find_separator(v@, from as int) == if k + 4 <= v.len() {
            Some(k as int)
        } else {
            None::<int>
        },
{
    let n = v.len();
    let mut k = from;
    while n - k >= 4
        invariant
            from <= k <= n == v@.len(),
            forall|j: int| from <= j < k ==> !separator_at(v@, j),
        decreases n - k,
    {
        if v[k] == '\r' && v[k + 1] == '\n' && v[k + 2] == '\r' && v[k + 3] == '\n' {
            assert(v@.subrange(k as int, k + 4) == header_end());
            proof {
                lemma_find_separator_at(v@, from as int, k as int);
            }
            return k;
        }
        assert(!separator_at(v@, k as int)) by {
            if separator_at(v@, k as int) {
                assert(v@.subrange(k as int, k + 4)[0] == v@[k as int]);
                assert(v@.subrange(k as int, k + 4)[1] == v@[k + 1]);
                assert(v@.subrange(k as int, k + 4)[2] == v@[k + 2]);
                assert(v@.subrange(k as int, k + 4)[3] == v@[k + 3]);
            }
        }
        k = k + 1;
    }
    proof {
        assert forall|j: int| from <= j < n implies !separator_at(v@, j) by {
            if j >= k {
                assert(!(j + 4 <= n));
            }
        }
        lemma_find_separator_at(v@, from as int, n as int);
    }
    n
}

/// The body of an HTTP request (see [`http_body_of`]).
pub fn http_body(request: &str) -> (r: Option<String>)
    ensures
        match r {
            Some(b) => http_body_of(request@) == Some(b@),
            None => http_body_of(request@) is None,
        },
{
    let v = chars_of(request);
    let i = find_separator_in(&v, 0);
    if v.len() - i < 4 {
        return None;
    }
    let j = find_separator_in(&v, i + 4);
    let end = if v.len() - j >= 4 {
        j
    } else {
        v.len()
    };
    let b = copy_range(&v, i + 4, end);
    Some(string_of(&b))
}

/// A request made of a head, the blank line, and a body is answered with
/// that body, provided the blank line after the head is the first one and
/// the body holds none.
pub proof fn lemma_http_body_of_request(head: Seq<char>, body: Seq<char>)
    requires
        forall|j: int| 0 <= j < head.len() ==> !separator_at(head + header_end() + body, j),
        forall|j: int| 0 <= j < body.len() ==> !separator_at(body, j),
    ensures
        http_body_of(head + header_end() + body) == Some(body),
{
    let req = head + header_end() + body;
    let h = head.len() as int;
    assert(req.subrange(h, h + 4) == header_end());
    lemma_find_separator_at(req, 0, h);
    assert forall|j: int| h + 4 <= j < req.len() implies !separator_at(req, j) by {
        if separator_at(req, j) {
            assert(req.subrange(j, j + 4) == body.subrange(j - h - 4, j - h));
            assert(separator_at(body, j - h - 4));
        }
    }
    lemma_find_separator_at(req, h + 4, req.len() as int);
    assert(req.subrange(h + 4, req.len() as int) == body);
}

// ---------------------------------------------------------------------------
// Saving received tests
// ---------------------------------------------------------------------------

/// One received test.
pub struct TestCase {
    pub input: String,
    pub output: String,
}

/// The problem data that Competitive Companion sends.
pub struct Payload {
    pub name: String,
    pub group: Option<String>,
    pub tests: Vec<TestCase>,
}

/// The two files in which one received test is saved.
pub struct SavedTest {
    pub input_name: String,
    pub input_content: String,
    pub output_name: String,
    pub output_content: String,
}

/// The text saved for a received input or output: without trailing
/// whitespace, ended by one line feed.
pub open spec fn saved_text(s: Seq<char>) -> Seq<char> {
    trim_end(s) + seq!['\n']
}

proof fn lemma_trim_end_idempotent(s: Seq<char>)
    ensures
        trim_end(trim_end(s)) == trim_end(s),
        trim_end(s).len() > 0 ==> !is_ws(trim_end(s).last()),
    decreases s.len(),
{
    if s.len() > 0 && is_ws(s.last()) {
        lemma_trim_end_idempotent(s.drop_last());
    }
}

/// A saved input or output is run and judged as the received one: both
/// are trimmed before use, and trimming the saved text gives the trimmed
/// received text.
pub proof fn lemma_saved_text_trims_alike(s: Seq<char>)
    ensures
        trim(saved_text(s)) == trim(s),
{
    let t = trim_end(s) + seq!['\n'];
    assert(t.last() == '\n');
    assert(is_ws('\n'));
    assert(t.drop_last() == trim_end(s));
    lemma_trim_end_idempotent(s);
    assert(trim_end(t) == trim_end(s));
}

/// Test `i`, saved in the files `f` from the received test `t`, is run as
/// the numbered test `p` found in directory `dir`: it is test `i`, reads
/// the saved input file, whose text is the received input without trailing
/// whitespace and ended by a line feed, and is judged against the saved
/// output file, which trims to the received output.
pub open spec fn runs_as_received(f: SavedTest, t: TestCase, p: TestPair, dir: Seq<char>, i: int) -> bool {
    &&& p.0 == i
    &&& p.1@ == join_path(dir, f.input_name@)
    &&& p.2@ == join_path(dir, f.output_name@)
    &&& f.input_content@ == saved_text(t.input@)
    &&& trim(f.input_content@) == trim(t.input@)
    &&& trim(f.output_content@) == trim(t.output@)
}

/// The tests that `listen` saved for a payload are the tests that a run of
/// a solution to the payload's problem runs, in the order received, each as
/// [`runs_as_received`] says: since the expected output is trimmed before it
/// is compared, each output is judged as against the received one. This
/// holds when the run finds the saved files (`names`, the entries of `dir`,
/// hold each saved input file once and no other input file of the problem;
/// `scanned`, `outputs_exist` and `pairs` are as in
/// [`lemma_saved_tests_run_in_order`]).
pub proof fn lemma_received_tests_run_as_received(
    payload_name: Seq<char>,
    tests: Seq<TestCase>,
    plan: Option<(String, Vec<SavedTest>)>,
    source: Seq<char>,
    dir: Seq<char>,
    names: Seq<Seq<char>>,
    scanned: Seq<TestPair>,
    outputs_exist: Seq<bool>,
    pairs: Seq<TestPair>,
)
    requires
        save_plan_of(payload_name, tests, plan),
        plan is Some,
        source_problem(source) == Some(sanitized(payload_name)),
        forall|a: int, b: int| 0 <= a < b < names.len() ==> #[trigger] names[a] != #[trigger] names[b],
        forall|i: int|
            0 <= i < tests.len() ==> exists|j: int|
                0 <= j < names.len() && names[j] == (#[trigger] (plan->0).1@[i]).input_name@,
        forall|j: int|
            0 <= j < names.len() && #[trigger] testcase_match(sanitized(payload_name), names[j])
                is Some ==> exists|i: int|
                0 <= i < tests.len() && names[j] == (#[trigger] (plan->0).1@[i]).input_name@,
        pairs_view(scanned) == candidates(source_problem(source)->0, dir, names),
        outputs_exist.len() == scanned.len(),
        forall|j: int| 0 <= j < outputs_exist.len() ==> #[trigger] outputs_exist[j],
        stably_sorted(pairs, keep_flagged(scanned, outputs_exist)),
    ensures
        pairs.len() == tests.len(),
        forall|i: int|
            0 <= i < tests.len() ==> {
                #[trigger] runs_as_received((plan->0).1@[i], tests[i], pairs[i], dir, i)
            },
{
    let problem = sanitized(payload_name);
    let files = (plan->0).1@;
    let n = tests.len();
    assert(files.len() == (plan->0).1.len());
    assert forall|i: nat| i < n implies exists|j: int|
        0 <= j < names.len() && names[j] == #[trigger] input_name(problem, i) by {
        let f = files[i as int];
        assert(f.input_name@ == input_name(problem, i));
    }
    assert forall|j: int|
        0 <= j < names.len() && #[trigger] testcase_match(problem, names[j]) is Some implies exists|
            i: nat,
        |
            i < n && names[j] == #[trigger] input_name(problem, i) by {
        let i = choose|i: int| 0 <= i < tests.len() && names[j] == (#[trigger] files[i]).input_name@;
        assert(files[i].input_name@ == input_name(problem, i as nat));
    }
    lemma_saved_tests_run_in_order(problem, dir, names, n, scanned, outputs_exist, pairs);
    assert forall|i: int| 0 <= i < tests.len() implies #[trigger] runs_as_received(
        files[i],
        tests[i],
        pairs[i],
        dir,
        i,
    ) by {
        assert(pair_view(pairs[i]) == (i as nat, join_path(dir, input_name(problem, i as nat)), join_path(dir, output_name(problem, i as nat))));
        lemma_saved_text_trims_alike(tests[i].input@);
        lemma_saved_text_trims_alike(tests[i].output@);
    }
}

/// Where and how a payload's tests are saved: none when it has no tests;
/// otherwise its problem identifier and, for test `i`, the files
/// `<problem>_input<i>.txt` and `<problem>_output<i>.txt` with the saved
/// texts of its input and output.
pub open spec fn save_plan_of(
    name: Seq<char>,
    tests: Seq<TestCase>,
    r: Option<(String, Vec<SavedTest>)>,
) -> bool {
    match r {
        None => tests.len() == 0,
        Some(plan) => {
            &&& tests.len() > 0
            &&& plan.0@ == sanitized(name)
            &&& plan.1@.len() == tests.len()
            &&& forall|i: int|
                0 <= i < tests.len() ==> {
                    let f = #[trigger] plan.1@[i];
                    &&& f.input_name@ == input_name(sanitized(name), i as nat)
                    &&& f.output_name@ == output_name(sanitized(name), i as nat)
                    &&& f.input_content@ == saved_text(tests[i].input@)
                    &&& f.output_content@ == saved_text(tests[i].output@)
                }
        },
    }
}

/// Plans how a received payload is saved (see [`save_plan_of`]).
pub fn plan_saved_tests(payload: &Payload) -> (r: Option<(String, Vec<SavedTest>)>)
    ensures
        save_plan_of(payload.name@, payload.tests@, r),
{
    if payload.tests.len() == 0 {
        return None;
    }
    let problem = sanitize(payload.name.as_str());
    let mut files: Vec<SavedTest> = Vec::new();
    let mut i: usize = 0;
    while i < payload.tests.len()
        invariant
            i <= payload.tests@.len(),
            problem@ == sanitized(payload.name@),
            files@.len() == i,
            forall|k: int|
                0 <= k < i ==> {
                    let f = #[trigger] files@[k];
                    &&& f.input_name@ == input_name(problem@, k as nat)
                    &&& f.output_name@ == output_name(problem@, k as nat)
                    &&& f.input_content@ == saved_text(payload.tests@[k].input@)
                    &&& f.output_content@ == saved_text(payload.tests@[k].output@)
                },
        decreases payload.tests.len() - i,
    {
        let t = &payload.tests[i];
        let d = decimal_chars(i);
        let mut in_name = chars_of(problem.as_str());
        append_str(&mut in_name, "_input");
        append_chars(&mut in_name, &d);
        append_str(&mut in_name, ".txt");
        let mut out_name = chars_of(problem.as_str());
        append_str(&mut out_name, "_output");
        append_chars(&mut out_name, &d);
        append_str(&mut out_name, ".txt");
        let mut in_text = trim_end_chars(&chars_of(t.input.as_str()));
        in_text.push('\n');
        let mut out_text = trim_end_chars(&chars_of(t.output.as_str()));
        out_text.push('\n');
        files.push(
            SavedTest {
                input_name: string_of(&in_name),
                input_content: string_of(&in_text),
                output_name: string_of(&out_name),
                output_content: string_of(&out_text),
            },
        );
        i = i + 1;
    }
    Some((problem, files))
}

} // verus!
