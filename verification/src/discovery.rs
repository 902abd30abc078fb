//! Finding the test cases of a problem: numbered input/output file pairs
//! in a directory, ordered by their number, or the tests of a CPH problem
//! file.
use vstd::prelude::*;
use crate::number::{decimal, decimal_chars, lemma_decimal_value, parse_unsigned, parse_unsigned_range};
use crate::name::{sanitize, sanitized};
use crate::path::{file_name, file_stem, join, join_path, opt_string_view, path_file_name, path_file_stem};
use crate::text::{append_chars, append_str, chars_equal, chars_of, ends_with, starts_with, string_of};

verus! {

/// A numbered test: its index, then its input and its expected output
/// (file paths, or the texts themselves for a CPH problem).
pub type TestPair = (usize, String, String);

// ---------------------------------------------------------------------------
// The problem of a source file
// ---------------------------------------------------------------------------

/// The problem identifier of a source file: its file stem, sanitised.
pub open spec fn source_problem(source_path: Seq<char>) -> Option<Seq<char>> {
    match path_file_stem(source_path) {
        Some(stem) => Some(sanitized(stem)),
        None => None,
    }
}

/// The problem identifier of a source file (see [`source_problem`]); none
/// when the path has no file name.
pub fn problem_of_source(source_path: &str) -> (r: Option<String>)
    ensures
        opt_string_view(r) == source_problem(source_path@),
{
    match file_stem(source_path) {
        Some(stem) => Some(sanitize(stem.as_str())),
        None => None,
    }
}

// ---------------------------------------------------------------------------
// File names of numbered test cases
// ---------------------------------------------------------------------------

/// `<problem>_input`, the start of every input file name of a problem.
pub open spec fn input_prefix(problem: Seq<char>) -> Seq<char> {
    problem + "_input"@
}

/// `<problem>_input.txt`, the input file of a problem's only test.
pub open spec fn single_input_name(problem: Seq<char>) -> Seq<char> {
    problem + "_input.txt"@
}

/// `<problem>_output.txt`, the output file of a problem's only test.
pub open spec fn single_output_name(problem: Seq<char>) -> Seq<char> {
    problem + "_output.txt"@
}

/// `<problem>_input<i>.txt`, the input file of test `i`.
pub open spec fn input_name(problem: Seq<char>, i: nat) -> Seq<char> {
    problem + "_input"@ + decimal(i) + ".txt"@
}

/// `<problem>_output<i>.txt`, the output file of test `i`.
pub open spec fn output_name(problem: Seq<char>, i: nat) -> Seq<char> {
    problem + "_output"@ + decimal(i) + ".txt"@
}

/// What a directory entry named `name` is for `problem`: the input of test
/// 0 when it is `<problem>_input.txt`, the input of test `i` when it is
/// `<problem>_input<i>.txt` for a number `i` that `usize` holds (an
/// optional `+` before the digits included); each with the name of the
/// output file that goes with it.
pub open spec fn testcase_match(problem: Seq<char>, name: Seq<char>) -> Option<(nat, Seq<char>)> {
    let prefix = input_prefix(problem);
    let txt = ".txt"@;
    if name == single_input_name(problem) {
        Some((0nat, single_output_name(problem)))
    } else if prefix.len() + txt.len() <= name.len() && name.take(prefix.len() as int) == prefix
        && name.skip(name.len() - txt.len()) == txt {
        match parse_unsigned(
            name.subrange(prefix.len() as int, name.len() - txt.len()),
            10,
            usize::MAX as nat,
        ) {
            Some(i) => Some((i, output_name(problem, i))),
            None => None,
        }
    } else {
        None
    }
}

/// What a directory entry named `name` is for `problem` (see
/// [`testcase_match`]).
pub fn match_testcase(problem: &str, name: &str) -> (r: Option<(usize, String)>)
    ensures
        match r {
            Some(m) => testcase_match(problem@, name@) == Some((m.0 as nat, m.1@)),
            None => testcase_match(problem@, name@) is None,
        },
{
    let nv = chars_of(name);
    let mut single = chars_of(problem);
    append_str(&mut single, "_input.txt");
    if chars_equal(&nv, &single) {
        let mut out = chars_of(problem);
        append_str(&mut out, "_output.txt");
        return Some((0, string_of(&out)));
    }
    let mut prefix = chars_of(problem);
    append_str(&mut prefix, "_input");
    let txt = chars_of(".txt");
    if nv.len() >= txt.len() && nv.len() - txt.len() >= prefix.len() && starts_with(&nv, &prefix)
        && ends_with(&nv, &txt) {
        let hi = nv.len() - txt.len();
        match parse_unsigned_range(&nv, prefix.len(), hi, 10, usize::MAX as u64) {
            Some(i) => {
                let idx = i as usize;
                let mut out = chars_of(problem);
                append_str(&mut out, "_output");
                let d = decimal_chars(idx);
                append_chars(&mut out, &d);
                append_str(&mut out, ".txt");
                Some((idx, string_of(&out)))
            },
            None => None,
        }
    } else {
        None
    }
}

/// The names of `names` as texts.
pub open spec fn names_view(names: Seq<String>) -> Seq<Seq<char>> {
    names.map_values(|s: String| s@)
}

/// A numbered test as texts.
pub open spec fn pair_view(t: TestPair) -> (nat, Seq<char>, Seq<char>) {
    (t.0 as nat, t.1@, t.2@)
}

/// Numbered tests as texts.
pub open spec fn pairs_view(s: Seq<TestPair>) -> Seq<(nat, Seq<char>, Seq<char>)> {
    s.map_values(|t: TestPair| pair_view(t))
}

/// The candidate tests among the entries `names` of directory `dir`, in
/// the order of the entries: index, input path and output path of each
/// entry that [`testcase_match`] recognises.
pub open spec fn candidates(problem: Seq<char>, dir: Seq<char>, names: Seq<Seq<char>>) -> Seq<
    (nat, Seq<char>, Seq<char>),
>
    decreases names.len(),
{
    if names.len() == 0 {
        seq![]
    } else {
        let prev = candidates(problem, dir, names.drop_last());
        match testcase_match(problem, names.last()) {
            Some(m) => prev.push((m.0, join_path(dir, names.last()), join_path(dir, m.1))),
            None => prev,
        }
    }
}

/// The candidate tests among the entries `names` of directory `dir` (see
/// [`candidates`]); whether each output file exists is for the caller to
/// find out.
pub fn scan_testcases(problem: &str, dir: &str, names: &Vec<String>) -> (r: Vec<TestPair>)
    ensures
        pairs_view(r@) == candidates(problem@, dir@, names_view(names@)),
{
    let ghost nv = names_view(names@);
    let mut r: Vec<TestPair> = Vec::new();
    let mut i: usize = 0;
    assert(nv.take(0) == Seq::<Seq<char>>::empty());
    assert(pairs_view(r@) == Seq::<(nat, Seq<char>, Seq<char>)>::empty());
    while i < names.len()
        invariant
            i <= names@.len(),
            nv == names_view(names@),
            pairs_view(r@) == candidates(problem@, dir@, nv.take(i as int)),
        decreases names.len() - i,
    {
        let name = &names[i];
        let ghost t = nv.take(i + 1);
        assert(t.drop_last() == nv.take(i as int));
        assert(t.last() == name@);
        match match_testcase(problem, name.as_str()) {
            Some(m) => {
                let input = join(dir, name.as_str());
                let output = join(dir, m.1.as_str());
                let ghost before = r@;
                r.push((m.0, input, output));
                assert(pairs_view(r@) == pairs_view(before).push(pair_view((m.0, input, output))));
            },
            None => {},
        }
        i = i + 1;
    }
    assert(nv.take(names.len() as int) == nv);
    r
}

/// The elements of `s` whose flag in `flags` is set, in order.
pub open spec fn keep_flagged<T>(s: Seq<T>, flags: Seq<bool>) -> Seq<T>
    decreases s.len(),
{
    if s.len() == 0 {
        seq![]
    } else {
        let prev = keep_flagged(s.drop_last(), flags.drop_last());
        if flags.last() {
            prev.push(s.last())
        } else {
            prev
        }
    }
}

/// Each element is kept exactly when its own flag is set, and the kept
/// elements stay in order: nothing comes of no elements, and one more
/// element with its flag is appended when the flag is set and dropped when
/// it is not.
pub proof fn lemma_keep_flagged_own_flag<T>(s: Seq<T>, flags: Seq<bool>, x: T, b: bool)
    requires
        s.len() == flags.len(),
    ensures
        keep_flagged(Seq::<T>::empty(), Seq::<bool>::empty()) == Seq::<T>::empty(),
        keep_flagged(s.push(x), flags.push(b)) == if b {
            keep_flagged(s, flags).push(x)
        } else {
            keep_flagged(s, flags)
        },
{
    assert(s.push(x).drop_last() == s);
    assert(flags.push(b).drop_last() == flags);
    assert(s.push(x).last() == x);
    assert(flags.push(b).last() == b);
}

/// The tests among `candidates` whose output file exists, as `exists`
/// tells for each.
pub fn keep_existing(candidates: Vec<TestPair>, exists: &Vec<bool>) -> (r: Vec<TestPair>)
    requires
        exists@.len() == candidates@.len(),
    ensures
        r@ == keep_flagged(candidates@, exists@),
{
    let ghost orig = candidates@;
    let mut rest = candidates;
    let mut r: Vec<TestPair> = Vec::new();
    let mut i: usize = 0;
    assert(orig.take(0) == Seq::<TestPair>::empty());
    assert(exists@.take(0) == Seq::<bool>::empty());
    assert(orig.skip(0) == orig);
    while i < exists.len()
        invariant
            i <= exists@.len() == orig.len(),
            rest@ == orig.skip(i as int),
            r@ == keep_flagged(orig.take(i as int), exists@.take(i as int)),
        decreases exists.len() - i,
    {
        let x = rest.remove(0);
        assert(x == orig[i as int]);
        assert(rest@ == orig.skip(i + 1));
        assert(orig.take(i + 1).drop_last() == orig.take(i as int));
        assert(exists@.take(i + 1).drop_last() == exists@.take(i as int));
        assert(orig.take(i + 1).last() == orig[i as int]);
        assert(exists@.take(i + 1).last() == exists@[i as int]);
        if exists[i] {
            r.push(x);
        }
        i = i + 1;
    }
    assert(orig.take(exists.len() as int) == orig);
    assert(exists@.take(exists.len() as int) == exists@);
    r
}

// ---------------------------------------------------------------------------
// Ordering by index
// ---------------------------------------------------------------------------

/// The elements of `s` with index `k`, in order.
pub open spec fn with_index(s: Seq<TestPair>, k: usize) -> Seq<TestPair>
    decreases s.len(),
{
    if s.len() == 0 {
        seq![]
    } else if s.last().0 == k {
        with_index(s.drop_last(), k).push(s.last())
    } else {
        with_index(s.drop_last(), k)
    }
}

/// Indices never decrease along `s`.
pub open spec fn sorted_by_index(s: Seq<TestPair>) -> bool {
    forall|i: int, j: int| 0 <= i < j < s.len() ==> #[trigger] s[i].0 <= #[trigger] s[j].0
}

/// `r` is `s` ordered by index, tests of equal index kept in their order
/// (what a stable sort by index gives).
pub open spec fn stably_sorted(r: Seq<TestPair>, s: Seq<TestPair>) -> bool {
    &&& r.len() == s.len()
    &&& sorted_by_index(r)
    &&& forall|k: usize| #[trigger] with_index(r, k) == with_index(s, k)
}

proof fn lemma_with_index_add(a: Seq<TestPair>, b: Seq<TestPair>, k: usize)
    ensures
        with_index(a + b, k) == with_index(a, k) + with_index(b, k),
    decreases b.len(),
{
    if b.len() == 0 {
        assert(a + b == a);
        assert(with_index(a, k) + Seq::<TestPair>::empty() == with_index(a, k));
    } else {
        assert((a + b).drop_last() == a + b.drop_last());
        assert((a + b).last() == b.last());
        lemma_with_index_add(a, b.drop_last(), k);
    }
}

proof fn lemma_with_index_none(b: Seq<TestPair>, k: usize)
    requires
        forall|i: int| 0 <= i < b.len() ==> #[trigger] b[i].0 != k,
    ensures
        with_index(b, k) == Seq::<TestPair>::empty(),
    decreases b.len(),
{
    if b.len() > 0 {
        assert(b.last() == b[b.len() - 1]);
        lemma_with_index_none(b.drop_last(), k);
    }
}

/// `pairs` ordered by index, ties in the order they came.
#[verifier::rlimit(40)]
pub fn sort_by_index(pairs: Vec<TestPair>) -> (r: Vec<TestPair>)
    ensures
        stably_sorted(r@, pairs@),
{
    let ghost orig = pairs@;
    let n = pairs.len();
    let mut rest = pairs;
    let mut out: Vec<TestPair> = Vec::new();
    let mut c: usize = 0;
    assert(orig.skip(0) == orig);
    assert forall|k: usize| #[trigger] with_index(out@, k) == with_index(orig.take(0), k) by {
        assert(orig.take(0) == Seq::<TestPair>::empty());
    }
    while c < n
        invariant
            c <= n == orig.len(),
            rest@ == orig.skip(c as int),
            out@.len() == c,
            sorted_by_index(out@),
            forall|k: usize| #[trigger] with_index(out@, k) == with_index(orig.take(c as int), k),
        decreases n - c,
    {
        let x = rest.remove(0);
        assert(x == orig[c as int]);
        assert(rest@ == orig.skip(c + 1));
        let mut p: usize = 0;
        while p < out.len() && out[p].0 <= x.0
            invariant
                p <= out@.len(),
                forall|j: int| 0 <= j < p ==> #[trigger] out@[j].0 <= x.0,
            decreases out.len() - p,
        {
            p = p + 1;
        }
        let ghost old_out = out@;
        let ghost a = old_out.subrange(0, p as int);
        let ghost b = old_out.subrange(p as int, old_out.len() as int);
        proof {
            assert forall|j: int| 0 <= j < b.len() implies #[trigger] b[j].0 > x.0 by {
                assert(b[j] == old_out[p + j]);
                if j > 0 {
                    assert(old_out[p as int].0 <= old_out[p + j].0);
                }
            }
        }
        out.insert(p, x);
        proof {
            assert(out@ == a.push(x) + b);
            assert(old_out == a + b);
            assert(a.push(x) == a + seq![x]);
            assert(sorted_by_index(out@)) by {
                assert forall|i: int, j: int| 0 <= i < j < out@.len() implies #[trigger] out@[i].0 <= #[trigger] out@[j].0 by {
                    if j < p {
                        assert(out@[i] == old_out[i]);
                        assert(out@[j] == old_out[j]);
                    } else if j == p {
                        assert(out@[i] == old_out[i]);
                    } else if i < p {
                        assert(out@[i] == old_out[i]);
                        assert(out@[j] == b[j - p - 1]);
                    } else if i == p {
                        assert(out@[j] == b[j - p - 1]);
                    } else {
                        assert(out@[i] == old_out[i - 1]);
                        assert(out@[j] == old_out[j - 1]);
                    }
                }
            }
            let t = orig.take(c + 1);
            assert(t.drop_last() == orig.take(c as int));
            assert(t.last() == x);
            assert forall|k: usize| #[trigger] with_index(out@, k) == with_index(t, k) by {
                lemma_with_index_add(a + seq![x], b, k);
                lemma_with_index_add(a, seq![x], k);
                lemma_with_index_add(a, b, k);
                assert(seq![x].drop_last() == Seq::<TestPair>::empty());
                assert(seq![x].last() == x);
                assert(with_index(Seq::<TestPair>::empty(), k) == Seq::<TestPair>::empty());
                if k == x.0 {
                    lemma_with_index_none(b, k);
                    assert(with_index(seq![x], k) == seq![x]);
                } else {
                    assert(with_index(seq![x], k) == Seq::<TestPair>::empty());
                }
            }
        }
        c = c + 1;
    }
    assert(orig.take(n as int) == orig);
    out
}

// ---------------------------------------------------------------------------
// The source of a run's tests
// ---------------------------------------------------------------------------

/// Where the tests of a run come from.
pub enum TestSource {
    /// One test: an input file given on the command line, and optionally
    /// the file of its expected output.
    DirectFile { input_path: String, expected_path: Option<String> },
    /// The tests of a CPH problem file: index, input text, expected text.
    CphProb { tests: Vec<TestPair> },
    /// Numbered input/output file pairs: index, input path, output path.
    FilePairs(Vec<TestPair>),
}

impl TestSource {
    /// The number of tests.
    pub open spec fn count(&self) -> nat {
        match self {
            TestSource::DirectFile { .. } => 1,
            TestSource::CphProb { tests } => tests@.len(),
            TestSource::FilePairs(pairs) => pairs@.len(),
        }
    }

    /// The number of tests.
    pub fn len(&self) -> (n: usize)
        ensures
            n == self.count(),
    {
        match self {
            TestSource::DirectFile { .. } => 1,
            TestSource::CphProb { tests } => tests.len(),
            TestSource::FilePairs(pairs) => pairs.len(),
        }
    }
}

/// The tests of a CPH problem file, numbered from 1.
pub open spec fn numbered(tests: Seq<(String, String)>) -> Seq<TestPair> {
    Seq::new(tests.len(), |i: int| ((i + 1) as usize, tests[i].0, tests[i].1))
}

/// Numbers the tests of a CPH problem file from 1.
pub fn number_tests(tests: Vec<(String, String)>) -> (r: Vec<TestPair>)
    ensures
        r@ == numbered(tests@),
{
    let ghost orig = tests@;
    let n = tests.len();
    let mut rest = tests;
    let mut r: Vec<TestPair> = Vec::new();
    let mut i: usize = 0;
    assert(orig.skip(0) == orig);
    while i < n
        invariant
            i <= n == orig.len(),
            rest@ == orig.skip(i as int),
            r@ == numbered(orig).take(i as int),
        decreases n - i,
    {
        let t = rest.remove(0);
        assert(t == orig[i as int]);
        assert(rest@ == orig.skip(i + 1));
        r.push((i + 1, t.0, t.1));
        assert(numbered(orig).take(i + 1) == numbered(orig).take(i as int).push(numbered(orig)[i as int]));
        i = i + 1;
    }
    assert(numbered(orig).take(n as int) == numbered(orig));
    r
}

/// The tests of a run when no input file was given: the existing pairs in
/// the test-case directory ordered by index; if there are none, the
/// existing pairs in the base directory, ordered alike; if there are none,
/// the tests of the problem's CPH file numbered from 1; if there is none
/// either, no tests at all.
pub open spec fn selected_source(
    testcase_pairs: Seq<TestPair>,
    base_pairs: Option<Seq<TestPair>>,
    prob_tests: Option<Seq<(String, String)>>,
    r: Option<TestSource>,
) -> bool {
    if testcase_pairs.len() > 0 {
        r matches Some(TestSource::FilePairs(p)) && stably_sorted(p@, testcase_pairs)
    } else if base_pairs is Some && base_pairs->0.len() > 0 {
        r matches Some(TestSource::FilePairs(p)) && stably_sorted(p@, base_pairs->0)
    } else if prob_tests is Some {
        r matches Some(TestSource::CphProb { tests }) && tests@ == numbered(prob_tests->0)
    } else {
        r is None
    }
}

/// The view of an optional vector.
pub open spec fn opt_vec_view<T>(o: Option<Vec<T>>) -> Option<Seq<T>> {
    match o {
        Some(v) => Some(v@),
        None => None,
    }
}

/// Chooses the tests of a run (see [`selected_source`]); `base_pairs` is
/// `None` when the base directory was not scanned, and `prob_tests` when
/// there is no CPH problem file.
pub fn select_test_source(
    testcase_pairs: Vec<TestPair>,
    base_pairs: Option<Vec<TestPair>>,
    prob_tests: Option<Vec<(String, String)>>,
) -> (r: Option<TestSource>)
    ensures
        selected_source(testcase_pairs@, opt_vec_view(base_pairs), opt_vec_view(prob_tests), r),
{
    if testcase_pairs.len() > 0 {
        return Some(TestSource::FilePairs(sort_by_index(testcase_pairs)));
    }
    if let Some(b) = base_pairs {
        if b.len() > 0 {
            return Some(TestSource::FilePairs(sort_by_index(b)));
        }
    }
    match prob_tests {
        Some(t) => Some(TestSource::CphProb { tests: number_tests(t) }),
        None => None,
    }
}

/// What a run does next to find its tests.
#[derive(PartialEq, Eq, Structural, Debug, Clone, Copy)]
pub enum Lookup {
    /// Scan the base directory for numbered test files.
    ScanBaseDir,
    /// Look for the source's CPH problem file.
    FindProbFile,
    /// Enough was looked up: choose the tests ([`select_test_source`]).
    Choose,
}

/// The next lookup, given how many numbered tests the test-case directory
/// held, how many the base directory held (`None` when it was not
/// scanned), and whether the CPH problem file was looked for: the base
/// directory is scanned only when the test-case directory held none, and
/// the problem file is looked for only when neither held any.
pub open spec fn next_lookup_of(testcase_count: nat, base_count: Option<nat>, prob_searched: bool) -> Lookup {
    if testcase_count > 0 {
        Lookup::Choose
    } else if base_count is None {
        Lookup::ScanBaseDir
    } else if base_count->0 > 0 || prob_searched {
        Lookup::Choose
    } else {
        Lookup::FindProbFile
    }
}

/// The next lookup of a run (see [`next_lookup_of`]).
pub fn next_lookup(
    testcase_pairs: &Vec<TestPair>,
    base_pairs: Option<&Vec<TestPair>>,
    prob_searched: bool,
) -> (r: Lookup)
    ensures
        r == next_lookup_of(
            testcase_pairs@.len(),
            match base_pairs {
                Some(b) => Some(b@.len()),
                None => None,
            },
            prob_searched,
        ),
{
    if testcase_pairs.len() > 0 {
        Lookup::Choose
    } else {
        match base_pairs {
            None => Lookup::ScanBaseDir,
            Some(b) => {
                if b.len() > 0 || prob_searched {
                    Lookup::Choose
                } else {
                    Lookup::FindProbFile
                }
            },
        }
    }
}

// ---------------------------------------------------------------------------
// CPH problem files
// ---------------------------------------------------------------------------

/// Whether `name` is a CPH problem file of the source file named `file`:
/// `.<file>_<anything>.prob`.
pub open spec fn is_prob_for(file: Seq<char>, name: Seq<char>) -> bool {
    let prefix = "."@ + file + "_"@;
    let suffix = ".prob"@;
    &&& prefix.len() <= name.len() && name.take(prefix.len() as int) == prefix
    &&& suffix.len() <= name.len() && name.skip(name.len() - suffix.len()) == suffix
}

/// The index of the first of `names` that is a problem file of `file`, or
/// `names.len()`.
pub open spec fn first_prob(file: Seq<char>, names: Seq<Seq<char>>) -> int
    decreases names.len(),
{
    if names.len() == 0 {
        0
    } else if is_prob_for(file, names[0]) {
        0
    } else {
        1 + first_prob(file, names.drop_first())
    }
}

proof fn lemma_first_prob_at(file: Seq<char>, names: Seq<Seq<char>>, i: int)
    requires
        0 <= i <= names.len(),
        i < names.len() ==> is_prob_for(file, names[i]),
        forall|j: int| 0 <= j < i ==> !is_prob_for(file, #[trigger] names[j]),
    ensures
        first_prob(file, names) == i,
    decreases names.len(),
{
    if names.len() > 0 && i > 0 {
        assert(!is_prob_for(file, names[0]));
        assert forall|j: int| 0 <= j < i - 1 implies !is_prob_for(file, #[trigger] names.drop_first()[j]) by {
            assert(names.drop_first()[j] == names[j + 1]);
        }
        lemma_first_prob_at(file, names.drop_first(), i - 1);
    }
}

/// The CPH problem file of a source file named `file`: the first of the
/// entries `names` of the CPH directory `cph_dir` that [`is_prob_for`]
/// `file`.
pub open spec fn prob_for_file(file: Seq<char>, cph_dir: Seq<char>, names: Seq<Seq<char>>) -> Option<
    Seq<char>,
> {
    let i = first_prob(file, names);
    if i < names.len() {
        Some(join_path(cph_dir, names[i]))
    } else {
        None
    }
}

/// The CPH problem file of a source: the one of its file name (see
/// [`prob_for_file`]); none when the path has no file name.
pub open spec fn prob_for_source(
    source_path: Seq<char>,
    cph_dir: Seq<char>,
    names: Seq<Seq<char>>,
) -> Option<Seq<char>> {
    match path_file_name(source_path) {
        None => None,
        Some(file) => prob_for_file(file, cph_dir, names),
    }
}

/// Finds the CPH problem file of the source file named `file` among the
/// entries `names` of the CPH directory (see [`prob_for_file`]).
pub fn find_prob_for_file(file: &str, cph_dir: &str, names: &Vec<String>) -> (r: Option<String>)
    ensures
        opt_string_view(r) == prob_for_file(file@, cph_dir@, names_view(names@)),
{
    let ghost nv = names_view(names@);
    let mut prefix = chars_of(".");
    append_str(&mut prefix, file);
    append_str(&mut prefix, "_");
    let suffix = chars_of(".prob");
    let mut i: usize = 0;
    while i < names.len()
        invariant
            i <= names@.len(),
            nv == names_view(names@),
            prefix@ == "."@ + file@ + "_"@,
            suffix@ == ".prob"@,
            forall|j: int| 0 <= j < i ==> !is_prob_for(file@, #[trigger] nv[j]),
        decreases names.len() - i,
    {
        let nm = chars_of(names[i].as_str());
        assert(nv[i as int] == names@[i as int]@);
        if starts_with(&nm, &prefix) && ends_with(&nm, &suffix) {
            proof {
                lemma_first_prob_at(file@, nv, i as int);
            }
            return Some(join(cph_dir, names[i].as_str()));
        }
        i = i + 1;
    }
    proof {
        lemma_first_prob_at(file@, nv, nv.len() as int);
    }
    None
}

/// Finds the CPH problem file of a source among the entries `names` of the
/// CPH directory (see [`prob_for_source`]).
pub fn find_prob_for_source(source_path: &str, cph_dir: &str, names: &Vec<String>) -> (r: Option<
    String,
>)
    ensures
        opt_string_view(r) == prob_for_source(source_path@, cph_dir@, names_view(names@)),
{
    match file_name(source_path) {
        Some(f) => find_prob_for_file(f.as_str(), cph_dir, names),
        None => None,
    }
}

// ---------------------------------------------------------------------------
// Saved tests are found again
// ---------------------------------------------------------------------------

/// A test saved as `<problem>_input<i>.txt` is found again as test `i`,
/// paired with `<problem>_output<i>.txt`.
pub proof fn lemma_saved_test_found(problem: Seq<char>, i: nat)
    requires
        i <= usize::MAX,
    ensures
        testcase_match(problem, input_name(problem, i)) == Some((i, output_name(problem, i))),
{
    reveal_strlit("_input");
    reveal_strlit("_input.txt");
    reveal_strlit(".txt");
    let name = input_name(problem, i);
    let prefix = input_prefix(problem);
    let d = decimal(i);
    lemma_decimal_value(i);
    let txt = ".txt"@;
    assert(name == prefix + d + txt);
    assert(name.len() == prefix.len() + d.len() + 4);
    assert(name[prefix.len() as int] == d[0]);
    assert(single_input_name(problem)[prefix.len() as int] == '.');
    assert(d[0] != '.') by {
        assert(crate::number::is_digit(d[0], 10));
    }
    assert(name != single_input_name(problem));
    assert(name.take(prefix.len() as int) == prefix);
    assert(name.skip(name.len() - 4) == txt);
    assert(name.subrange(prefix.len() as int, name.len() - 4) == d);
}

// ---------------------------------------------------------------------------
// Saved tests are run in order
// ---------------------------------------------------------------------------

/// The elements of `s` (tests as texts) with index `k`, in order.
pub open spec fn vwith(s: Seq<(nat, Seq<char>, Seq<char>)>, k: nat) -> Seq<
    (nat, Seq<char>, Seq<char>),
>
    decreases s.len(),
{
    if s.len() == 0 {
        seq![]
    } else if s.last().0 == k {
        vwith(s.drop_last(), k).push(s.last())
    } else {
        vwith(s.drop_last(), k)
    }
}

proof fn lemma_with_index_view(s: Seq<TestPair>, k: usize)
    ensures
        pairs_view(with_index(s, k)) == vwith(pairs_view(s), k as nat),
    decreases s.len(),
{
    if s.len() > 0 {
        lemma_with_index_view(s.drop_last(), k);
        assert(pairs_view(s).drop_last() == pairs_view(s.drop_last()));
        assert(pairs_view(s).last() == pair_view(s.last()));
        let w = with_index(s.drop_last(), k);
        assert(pairs_view(w.push(s.last())) == pairs_view(w).push(pair_view(s.last())));
    }
}

/// Test `i` of `problem` as the run finds it in directory `dir`.
pub open spec fn saved_entry(problem: Seq<char>, dir: Seq<char>, i: nat) -> (
    nat,
    Seq<char>,
    Seq<char>,
) {
    (i, join_path(dir, input_name(problem, i)), join_path(dir, output_name(problem, i)))
}

proof fn lemma_input_name_injective(problem: Seq<char>, i: nat, k: nat)
    requires
        i <= usize::MAX,
        k <= usize::MAX,
        input_name(problem, i) == input_name(problem, k),
    ensures
        i == k,
{
    lemma_saved_test_found(problem, i);
    lemma_saved_test_found(problem, k);
}

proof fn lemma_candidates_of_saved(
    problem: Seq<char>,
    dir: Seq<char>,
    names: Seq<Seq<char>>,
    n: nat,
    m: int,
)
    requires
        0 <= m <= names.len(),
        n <= usize::MAX + 1,
        forall|a: int, b: int| 0 <= a < b < names.len() ==> #[trigger] names[a] != #[trigger] names[b],
        forall|j: int|
            0 <= j < names.len() && #[trigger] testcase_match(problem, names[j]) is Some ==> exists|
                i: nat,
            |
                i < n && names[j] == #[trigger] input_name(problem, i),
    ensures
        forall|k: nat| #[trigger]
            vwith(candidates(problem, dir, names.take(m)), k) == if k < n && exists|j: int|
                0 <= j < m && names[j] == input_name(problem, k) {
                seq![saved_entry(problem, dir, k)]
            } else {
                Seq::<(nat, Seq<char>, Seq<char>)>::empty()
            },
    decreases m,
{
    if m == 0 {
        assert(names.take(0) == Seq::<Seq<char>>::empty());
    } else {
        lemma_candidates_of_saved(problem, dir, names, n, m - 1);
        let t = names.take(m);
        assert(t.drop_last() == names.take(m - 1));
        assert(t.last() == names[m - 1]);
        let x = names[m - 1];
        let prev = candidates(problem, dir, names.take(m - 1));
        match testcase_match(problem, x) {
            Some(mm) => {
                let i = choose|i: nat| i < n && x == #[trigger] input_name(problem, i);
                lemma_saved_test_found(problem, i);
                let e = saved_entry(problem, dir, i);
                assert(candidates(problem, dir, t) == prev.push(e));
                assert forall|k: nat| #[trigger]
                    vwith(candidates(problem, dir, t), k) == if k < n && exists|j: int|
                        0 <= j < m && names[j] == input_name(problem, k) {
                        seq![saved_entry(problem, dir, k)]
                    } else {
                        Seq::<(nat, Seq<char>, Seq<char>)>::empty()
                    } by {
                    assert(prev.push(e).drop_last() == prev);
                    assert(prev.push(e).last() == e);
                    let had = exists|j: int| 0 <= j < m - 1 && names[j] == input_name(problem, k);
                    assert(vwith(prev, k) == if k < n && had {
                        seq![saved_entry(problem, dir, k)]
                    } else {
                        Seq::<(nat, Seq<char>, Seq<char>)>::empty()
                    });
                    if k == i {
                        assert(vwith(prev.push(e), k) == vwith(prev, k).push(e));
                        if had {
                            let j = choose|j: int| 0 <= j < m - 1 && names[j] == input_name(problem, k);
                            assert(names[j] != names[m - 1]);
                        }
                        assert(vwith(prev, k) == Seq::<(nat, Seq<char>, Seq<char>)>::empty());
                        assert(names[m - 1] == input_name(problem, k));
                        assert(exists|j: int| 0 <= j < m && names[j] == input_name(problem, k));
                        assert(Seq::<(nat, Seq<char>, Seq<char>)>::empty().push(e) == seq![e]);
                    } else {
                        assert(vwith(prev.push(e), k) == vwith(prev, k));
                        if k < n && names[m - 1] == input_name(problem, k) {
                            lemma_input_name_injective(problem, i, k);
                        }
                        if k < n {
                            assert((exists|j: int| 0 <= j < m && names[j] == input_name(problem, k))
                                == had) by {
                                if exists|j: int| 0 <= j < m && names[j] == input_name(problem, k) {
                                    let j = choose|j: int| 0 <= j < m && names[j] == input_name(problem, k);
                                    assert(j != m - 1);
                                }
                            }
                        }
                    }
                }
            },
            None => {
                assert(candidates(problem, dir, t) == prev);
                assert forall|k: nat| #[trigger]
                    vwith(candidates(problem, dir, t), k) == if k < n && exists|j: int|
                        0 <= j < m && names[j] == input_name(problem, k) {
                        seq![saved_entry(problem, dir, k)]
                    } else {
                        Seq::<(nat, Seq<char>, Seq<char>)>::empty()
                    } by {
                    if k < n {
                        lemma_saved_test_found(problem, k);
                        assert(names[m - 1] != input_name(problem, k));
                        assert((exists|j: int| 0 <= j < m && names[j] == input_name(problem, k))
                            == (exists|j: int| 0 <= j < m - 1 && names[j] == input_name(problem, k)));
                    }
                }
            },
        }
    }
}

proof fn lemma_with_index_member(s: Seq<TestPair>, j: int)
    requires
        0 <= j < s.len(),
    ensures
        with_index(s, s[j].0).contains(s[j]),
    decreases s.len(),
{
    let k = s[j].0;
    if j == s.len() - 1 {
        let w = with_index(s.drop_last(), k);
        assert(w.push(s.last())[w.len() as int] == s[j]);
    } else {
        assert(s.drop_last()[j] == s[j]);
        lemma_with_index_member(s.drop_last(), j);
        let w = with_index(s.drop_last(), k);
        let t = choose|t: int| 0 <= t < w.len() && w[t] == s[j];
        if s.last().0 == k {
            assert(w.push(s.last())[t] == s[j]);
        }
    }
}

proof fn lemma_with_index_elements(s: Seq<TestPair>, k: usize, t: int)
    requires
        0 <= t < with_index(s, k).len(),
    ensures
        with_index(s, k)[t].0 == k,
        s.contains(with_index(s, k)[t]),
    decreases s.len(),
{
    let w = with_index(s.drop_last(), k);
    if s.last().0 == k && t == w.len() {
        assert(s[s.len() - 1] == s.last());
    } else {
        assert(with_index(s, k)[t] == w[t]);
        lemma_with_index_elements(s.drop_last(), k, t);
        let j = choose|j: int| 0 <= j < s.drop_last().len() && s.drop_last()[j] == w[t];
        assert(s[j] == w[t]);
    }
}

proof fn lemma_with_index_two(s: Seq<TestPair>, j1: int, j2: int)
    requires
        0 <= j1 < j2 < s.len(),
        s[j1].0 == s[j2].0,
    ensures
        with_index(s, s[j1].0).len() >= 2,
    decreases s.len(),
{
    let k = s[j1].0;
    assert(s.drop_last()[j1] == s[j1]);
    if j2 == s.len() - 1 {
        lemma_with_index_member(s.drop_last(), j1);
    } else {
        assert(s.drop_last()[j2] == s[j2]);
        lemma_with_index_two(s.drop_last(), j1, j2);
    }
}

/// The tests that `listen` saved for a problem are, when a run of that
/// problem finds them, run as tests 0, 1, ... in this order, each with its
/// saved input and output file: provided the directory holds each saved
/// input file once, holds no other input file of the problem, and every
/// output file exists (`scanned` is what [`scan_testcases`] gives for the
/// directory's entries, `outputs_exist` tells that each output file exists, and
/// `pairs` is what [`select_test_source`] runs of what [`keep_existing`]
/// kept).
pub proof fn lemma_saved_tests_run_in_order(
    problem: Seq<char>,
    dir: Seq<char>,
    names: Seq<Seq<char>>,
    n: nat,
    scanned: Seq<TestPair>,
    outputs_exist: Seq<bool>,
    pairs: Seq<TestPair>,
)
    requires
        n <= usize::MAX + 1,
        forall|a: int, b: int| 0 <= a < b < names.len() ==> #[trigger] names[a] != #[trigger] names[b],
        forall|i: nat| i < n ==> exists|j: int| 0 <= j < names.len() && names[j] == #[trigger] input_name(problem, i),
        forall|j: int|
            0 <= j < names.len() && #[trigger] testcase_match(problem, names[j]) is Some ==> exists|
                i: nat,
            |
                i < n && names[j] == #[trigger] input_name(problem, i),
        pairs_view(scanned) == candidates(problem, dir, names),
        outputs_exist.len() == scanned.len(),
        forall|j: int| 0 <= j < outputs_exist.len() ==> #[trigger] outputs_exist[j],
        stably_sorted(pairs, keep_flagged(scanned, outputs_exist)),
    ensures
        pairs.len() == n,
        forall|i: int| 0 <= i < n ==> #[trigger] pair_view(pairs[i]) == saved_entry(problem, dir, i as nat),
{
    lemma_keep_all(scanned, outputs_exist);
    let candidates_found = scanned;
    lemma_candidates_of_saved(problem, dir, names, n, names.len() as int);
    assert(names.take(names.len() as int) == names);
    let c = candidates(problem, dir, names);
    // what each index holds among the candidates, and so among the pairs
    assert forall|k: usize| #[trigger] pairs_view(with_index(pairs, k)) == (if (k as nat) < n {
        seq![saved_entry(problem, dir, k as nat)]
    } else {
        Seq::<(nat, Seq<char>, Seq<char>)>::empty()
    }) by {
        lemma_with_index_view(candidates_found, k);
        assert(with_index(pairs, k) == with_index(candidates_found, k));
        assert(vwith(c, k as nat) == vwith(candidates(problem, dir, names.take(names.len() as int)), k as nat));
    }
    // every index among the pairs is below n, and occurs once
    assert forall|j: int| 0 <= j < pairs.len() implies (#[trigger] pairs[j]).0 < n by {
        lemma_with_index_member(pairs, j);
        let w = with_index(pairs, pairs[j].0);
        assert(pairs_view(w).len() == w.len());
    }
    assert forall|a: int, b: int| 0 <= a < b < pairs.len() implies #[trigger] pairs[a].0 < #[trigger] pairs[b].0 by {
        if pairs[a].0 == pairs[b].0 {
            lemma_with_index_two(pairs, a, b);
            let w = with_index(pairs, pairs[a].0);
            assert(pairs_view(w).len() == w.len());
        }
        assert(pairs[a].0 <= pairs[b].0);
    }
    // every index below n occurs among the pairs
    assert forall|k: nat| k < n implies #[trigger] index_occurs(pairs, k) by {
        let ku = k as usize;
        let w = with_index(pairs, ku);
        assert(pairs_view(w).len() == 1);
        lemma_with_index_elements(pairs, ku, 0);
        let j = choose|j: int| 0 <= j < pairs.len() && pairs[j] == w[0];
        assert(pairs[j].0 == k);
    }
    // so the pairs hold the indices 0, 1, ..., n - 1 in order
    assert forall|i: int| 0 <= i < n implies i < pairs.len() && #[trigger] pairs[i].0 == i by {
        lemma_index_at(pairs, n, i);
    }
    if n > 0 {
        lemma_index_at(pairs, n, n - 1);
    }
    if pairs.len() > n {
        assert(pairs[n as int].0 < n);
        if n > 0 {
            lemma_index_at(pairs, n, n - 1);
            assert(pairs[n - 1].0 < pairs[n as int].0);
        }
    }
    assert forall|i: int| 0 <= i < n implies #[trigger] pair_view(pairs[i]) == saved_entry(problem, dir, i as nat) by {
        lemma_index_at(pairs, n, i);
        let ku = i as usize;
        lemma_with_index_member(pairs, i);
        let w = with_index(pairs, ku);
        assert(pairs_view(w) == seq![saved_entry(problem, dir, i as nat)]);
        let t = choose|t: int| 0 <= t < w.len() && w[t] == pairs[i];
        assert(pairs_view(w)[t] == pair_view(w[t]));
    }
}

proof fn lemma_keep_all(s: Seq<TestPair>, flags: Seq<bool>)
    requires
        flags.len() == s.len(),
        forall|j: int| 0 <= j < flags.len() ==> #[trigger] flags[j],
    ensures
        keep_flagged(s, flags) == s,
    decreases s.len(),
{
    if s.len() > 0 {
        assert(flags.last() == flags[flags.len() - 1]);
        assert forall|j: int| 0 <= j < flags.drop_last().len() implies #[trigger] flags.drop_last()[j] by {
            assert(flags.drop_last()[j] == flags[j]);
        }
        lemma_keep_all(s.drop_last(), flags.drop_last());
        assert(s.drop_last().push(s.last()) == s);
    }
}

/// Some test of `pairs` has index `k`.
pub open spec fn index_occurs(pairs: Seq<TestPair>, k: nat) -> bool {
    exists|j: int| 0 <= j < pairs.len() && #[trigger] pairs[j].0 == k
}

/// In a strictly increasing sequence of indices below `n` in which each
/// index below `n` occurs, index `i` stands at position `i`.
proof fn lemma_index_at(pairs: Seq<TestPair>, n: nat, i: int)
    requires
        0 <= i < n,
        forall|j: int| 0 <= j < pairs.len() ==> (#[trigger] pairs[j]).0 < n,
        forall|a: int, b: int| 0 <= a < b < pairs.len() ==> #[trigger] pairs[a].0 < #[trigger] pairs[b].0,
        forall|k: nat| k < n ==> #[trigger] index_occurs(pairs, k),
    ensures
        i < pairs.len(),
        pairs[i].0 == i,
    decreases i,
{
    let k = i as nat;
    assert(index_occurs(pairs, k));
    let t = choose|j: int| 0 <= j < pairs.len() && #[trigger] pairs[j].0 == k;
    if i == 0 {
        if t > 0 {
            assert(pairs[0].0 < pairs[t].0);
        }
    } else {
        lemma_index_at(pairs, n, i - 1);
        if t < i {
            if t < i - 1 {
                assert(pairs[t].0 < pairs[i - 1].0);
            }
        }
        assert(t >= i);
        if t > i {
            assert(pairs[i - 1].0 < pairs[i].0);
            assert(pairs[i].0 < pairs[t].0);
        } else {
        }
    }
}

} // verus!
