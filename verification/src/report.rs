//! Judging a test: comparing outputs, what to show of a test, the blocks
//! of text printed for it, a line diff of expected and actual output, the
//! tally of a run and the loop of a stress test.
use vstd::prelude::*;
use crate::number::{decimal, decimal_chars};
use crate::path::{join, join_path, opt_view, parent, path_parent, TESTCASES_DIR};
use crate::text::{
    append_chars, append_str, chars_equal, chars_of, clean_line, is_ws, join_lines, lemma_clean_output_normal, lines, lines_acc, normalize,
    normalize_chars, normalized, split_lines, string_of, strip_cr, trim_end, trimmed_lines,
};

verus! {

// ---------------------------------------------------------------------------
// Verdict of one test
// ---------------------------------------------------------------------------

/// Whether an actual output counts as the expected one: equal once each
/// line loses its trailing whitespace.
pub open spec fn outputs_match(expected: Seq<char>, actual: Seq<char>) -> bool {
    normalized(actual) == normalized(expected)
}

/// What becomes of one test.
pub struct Verdict {
    /// The output matched.
    pub passed: bool,
    /// Input, expected and actual output are printed.
    pub show_details: bool,
    /// A diff of expected and actual output is written.
    pub write_diff: bool,
    /// The program's standard error is printed.
    pub show_stderr: bool,
}

/// Judges one test: it passes when the outputs match; details are shown
/// for a failure or in verbose mode, a diff is written for a failure, and
/// standard error is shown with the details when it is not empty.
pub fn judge_test(expected: &str, actual: &str, stderr: &str, verbose: bool) -> (v: Verdict)
    ensures
        v.passed == outputs_match(expected@, actual@),
        v.passed <==> normalized(actual@) == normalized(expected@),
        v.show_details == (!v.passed || verbose),
        v.write_diff == !v.passed,
        v.show_stderr == (v.show_details && stderr@.len() > 0),
{
    let e = chars_of(expected);
    let a = chars_of(actual);
    let ne = normalize_chars(&e);
    let na = normalize_chars(&a);
    let passed = chars_equal(&na, &ne);
    let show_details = !passed || verbose;
    Verdict {
        passed,
        show_details,
        write_diff: !passed,
        show_stderr: show_details && !stderr.is_empty(),
    }
}

/// Two outputs match exactly when their normal forms are equal: an output
/// whose normal form is shorter than the expected one (an empty output
/// against a non-empty expected one among them) or differs from it in any
/// character fails, and matching is the same in either direction.
pub proof fn lemma_match_is_equal_normal_forms(expected: Seq<char>, actual: Seq<char>)
    ensures
        outputs_match(expected, actual) <==> normalized(actual) == normalized(expected),
        outputs_match(expected, actual) ==> normalized(actual).len() == normalized(expected).len(),
        normalized(actual).len() != normalized(expected).len() ==> !outputs_match(expected, actual),
        outputs_match(expected, actual) <==> outputs_match(actual, expected),
{
}

/// Outputs already in clean form (no whitespace at a line's end, a
/// non-empty last line) match exactly when they are equal: a different
/// answer always fails.
pub proof fn lemma_clean_outputs_match_only_if_equal(expected: Seq<Seq<char>>, actual: Seq<Seq<char>>)
    requires
        expected.len() > 0,
        forall|i: int| 0 <= i < expected.len() ==> clean_line(#[trigger] expected[i]),
        expected.last().len() > 0,
        actual.len() > 0,
        forall|i: int| 0 <= i < actual.len() ==> clean_line(#[trigger] actual[i]),
        actual.last().len() > 0,
    ensures
        outputs_match(join_lines(expected), join_lines(actual)) <==> join_lines(actual) == join_lines(
            expected,
        ),
{
    lemma_clean_output_normal(expected);
    lemma_clean_output_normal(actual);
}

/// Outputs whose lines agree once trailing whitespace is removed match.
pub proof fn lemma_trailing_whitespace_ignored(expected: Seq<char>, actual: Seq<char>)
    requires
        lines(expected).len() == lines(actual).len(),
        forall|i: int|
            0 <= i < lines(expected).len() ==> #[trigger] trim_end(lines(expected)[i]) == trim_end(
                lines(actual)[i],
            ),
    ensures
        outputs_match(expected, actual),
{
    assert(trimmed_lines(expected) == trimmed_lines(actual));
}

proof fn lemma_lines_final_newline(s: Seq<char>, cur: Seq<char>)
    requires
        (s.len() > 0 && s.last() != '\n') || (s.len() == 0 && cur.len() > 0),
    ensures
        lines_acc(s, cur).len() > 0,
        lines_acc(s + seq!['\n'], cur) == lines_acc(s, cur).drop_last().push(
            strip_cr(lines_acc(s, cur).last()),
        ),
    decreases s.len(),
{
    let t = s + seq!['\n'];
    if s.len() == 0 {
        assert(t[0] == '\n');
        assert(t.drop_first() == Seq::<char>::empty());
        assert(lines_acc(s, cur) == seq![cur]);
        assert(lines_acc(Seq::<char>::empty(), Seq::<char>::empty()) == Seq::<Seq<char>>::empty());
        assert(seq![strip_cr(cur)] + Seq::<Seq<char>>::empty() == seq![strip_cr(cur)]);
        assert(seq![cur].drop_last().push(strip_cr(cur)) == seq![strip_cr(cur)]);
    } else {
        assert(t[0] == s[0]);
        assert(t.drop_first() == s.drop_first() + seq!['\n']);
        if s[0] == '\n' {
            assert(s.len() >= 2);
            assert(s.drop_first().last() == s.last());
            lemma_lines_final_newline(s.drop_first(), seq![]);
            let rest = lines_acc(s.drop_first(), seq![]);
            assert(lines_acc(s, cur) == seq![strip_cr(cur)] + rest);
            assert((seq![strip_cr(cur)] + rest).last() == rest.last());
            assert((seq![strip_cr(cur)] + rest).drop_last().push(strip_cr(rest.last())) == seq![
                strip_cr(cur),
            ] + rest.drop_last().push(strip_cr(rest.last())));
        } else {
            if s.len() > 1 {
                assert(s.drop_first().last() == s.last());
            }
            lemma_lines_final_newline(s.drop_first(), cur.push(s[0]));
        }
    }
}

/// A single final line feed never decides a verdict.
pub proof fn lemma_final_newline_ignored(output: Seq<char>)
    requires
        !(output.len() > 0 && output.last() == '\n'),
    ensures
        normalized(output + seq!['\n']) == normalized(output),
{
    if output.len() == 0 {
        let t = output + seq!['\n'];
        assert(t == seq!['\n']);
        assert(t.drop_first() == Seq::<char>::empty());
        assert(lines(t) == seq![strip_cr(Seq::<char>::empty())] + lines_acc(
            Seq::<char>::empty(),
            seq![],
        ));
        assert(lines(t) == seq![Seq::<char>::empty()]);
        assert(lines(output) == Seq::<Seq<char>>::empty());
        assert(trimmed_lines(t) =~= seq![Seq::<char>::empty()]);
        assert(trimmed_lines(output) =~= Seq::<Seq<char>>::empty());
    } else {
        lemma_lines_final_newline(output, seq![]);
        let ls = lines(output);
        let l = ls.last();
        assert(trim_end(strip_cr(l)) == trim_end(l)) by {
            if l.len() > 0 && l.last() == '\r' {
                assert(is_ws('\r'));
            }
        }
        assert(trimmed_lines(output + seq!['\n']) =~= trimmed_lines(output));
    }
}

/// `s` with a space and a tab put before every line feed.
pub open spec fn pad_line_ends(s: Seq<char>) -> Seq<char>
    decreases s.len(),
{
    if s.len() == 0 {
        seq![]
    } else if s[0] == '\n' {
        seq![' ', '\t', '\n'] + pad_line_ends(s.drop_first())
    } else {
        seq![s[0]] + pad_line_ends(s.drop_first())
    }
}

proof fn lemma_trim_end_strip_cr(l: Seq<char>)
    ensures
        trim_end(strip_cr(l)) == trim_end(l),
{
    if l.len() > 0 && l.last() == '\r' {
        assert(is_ws('\r'));
    }
}

proof fn lemma_pad_lines(s: Seq<char>, cur: Seq<char>)
    ensures
        lines_acc(pad_line_ends(s), cur).map_values(|l: Seq<char>| trim_end(l)) == lines_acc(
            s,
            cur,
        ).map_values(|l: Seq<char>| trim_end(l)),
    decreases s.len(),
{
    let p = pad_line_ends(s);
    if s.len() == 0 {
    } else if s[0] == '\n' {
        let rest = pad_line_ends(s.drop_first());
        let c1 = cur.push(' ');
        let c2 = c1.push('\t');
        assert(p[0] == ' ');
        assert(p.drop_first() == seq!['\t', '\n'] + rest);
        assert(p.drop_first()[0] == '\t');
        assert(p.drop_first().drop_first() == seq!['\n'] + rest);
        assert((seq!['\n'] + rest)[0] == '\n');
        assert((seq!['\n'] + rest).drop_first() == rest);
        lemma_pad_lines(s.drop_first(), seq![]);
        let a = lines_acc(rest, seq![]);
        let b = lines_acc(s.drop_first(), seq![]);
        assert(lines_acc(p, cur) == lines_acc(p.drop_first(), c1));
        assert(lines_acc(p.drop_first(), c1) == lines_acc(seq!['\n'] + rest, c2));
        assert(lines_acc(seq!['\n'] + rest, c2) == seq![strip_cr(c2)] + a);
        assert(lines_acc(s, cur) == seq![strip_cr(cur)] + b);
        assert(c2.last() == '\t');
        assert(c2.drop_last() == c1);
        assert(c1.drop_last() == cur);
        assert(is_ws('\t') && is_ws(' '));
        assert(strip_cr(c2) == c2);
        assert(trim_end(c2) == trim_end(c1));
        assert(trim_end(c1) == trim_end(cur));
        lemma_trim_end_strip_cr(cur);
        assert((seq![strip_cr(c2)] + a).map_values(|l: Seq<char>| trim_end(l)) =~= seq![
            trim_end(strip_cr(c2)),
        ] + a.map_values(|l: Seq<char>| trim_end(l)));
        assert((seq![strip_cr(cur)] + b).map_values(|l: Seq<char>| trim_end(l)) =~= seq![
            trim_end(strip_cr(cur)),
        ] + b.map_values(|l: Seq<char>| trim_end(l)));
    } else {
        let rest = pad_line_ends(s.drop_first());
        assert(p[0] == s[0]);
        assert(p.drop_first() == rest);
        lemma_pad_lines(s.drop_first(), cur.push(s[0]));
    }
}

/// Spaces and tabs put before the line feeds of an output never change its
/// normal form, so they never decide a verdict.
pub proof fn lemma_padded_line_ends_ignored(output: Seq<char>)
    ensures
        normalized(pad_line_ends(output)) == normalized(output),
{
    lemma_pad_lines(output, seq![]);
    assert(trimmed_lines(pad_line_ends(output)) == trimmed_lines(output));
}

// ---------------------------------------------------------------------------
// Printed text
// ---------------------------------------------------------------------------

/// The most lines a block shows in full.
pub const INLINE_LINE_LIMIT: usize = 60;

/// The rule above and below the body of a block.
pub const RULE: &'static str = "--------------------";

/// The body of a block: the text itself, or a note of its line count when
/// it has more than [`INLINE_LINE_LIMIT`] lines.
pub open spec fn block_body(text: Seq<char>) -> Seq<char> {
    if lines(text).len() <= INLINE_LINE_LIMIT {
        text
    } else {
        "<"@ + decimal(lines(text).len()) + " lines \u{2014} too large to print inline>"@
    }
}

/// A labelled block of text as printed: the label and a colon, a rule, the
/// body, and a rule, each on a line of its own.
pub open spec fn block_text(label: Seq<char>, text: Seq<char>) -> Seq<char> {
    label + ":\n"@ + RULE@ + "\n"@ + block_body(text) + "\n"@ + RULE@ + "\n"@
}

/// The block printed for a labelled text (see [`block_text`]).
pub fn render_block(label: &str, text: &str) -> (r: String)
    ensures
        r@ == block_text(label@, text@),
{
    let tv = chars_of(text);
    let ls = split_lines(&tv);
    let mut out = chars_of(label);
    append_str(&mut out, ":\n");
    append_str(&mut out, RULE);
    append_str(&mut out, "\n");
    if ls.len() <= INLINE_LINE_LIMIT {
        append_chars(&mut out, &tv);
    } else {
        append_str(&mut out, "<");
        let d = decimal_chars(ls.len());
        append_chars(&mut out, &d);
        append_str(&mut out, " lines \u{2014} too large to print inline>");
    }
    append_str(&mut out, "\n");
    append_str(&mut out, RULE);
    append_str(&mut out, "\n");
    string_of(&out)
}

/// The label of test `idx`: `TEST #<idx>`.
pub fn test_label(idx: usize) -> (r: String)
    ensures
        r@ == "TEST #"@ + decimal(idx as nat),
{
    let mut out = chars_of("TEST #");
    let d = decimal_chars(idx);
    append_chars(&mut out, &d);
    string_of(&out)
}

/// The label of the stress test with seed `seed`: `STRESS seed=<seed>`.
pub fn stress_label(seed: usize) -> (r: String)
    ensures
        r@ == "STRESS seed="@ + decimal(seed as nat),
{
    let mut out = chars_of("STRESS seed=");
    let d = decimal_chars(seed);
    append_chars(&mut out, &d);
    string_of(&out)
}

// ---------------------------------------------------------------------------
// Line diff
// ---------------------------------------------------------------------------

/// The kind of one line of a diff.
#[derive(PartialEq, Eq, Structural, Debug, Clone, Copy)]
pub enum DiffTag {
    /// Only in the expected text.
    Delete,
    /// Only in the actual text.
    Insert,
    /// In both.
    Equal,
}

/// What `similar::TextDiff::from_lines(old, new).iter_all_changes()`
/// yields, each change as its tag and its text as `Display` writes it.
pub uninterp spec fn line_changes(old: Seq<char>, new: Seq<char>) -> Seq<(DiffTag, Seq<char>)>;

/// The changes of a line diff by the `similar` crate:
/// `TextDiff::from_lines(old, new).iter_all_changes()`, each change given
/// as its tag and its `to_string()`. The contract claims only that the
/// result is what [`line_changes`] names for the two texts; nothing about
/// which diff the algorithm finds is stated.
#[verifier::external_body]
fn text_diff_lines(old: &str, new: &str) -> (r: Vec<(DiffTag, String)>)
    ensures
        r@.len() == line_changes(old@, new@).len(),
        forall|i: int|
            0 <= i < r@.len() ==> #[trigger] r@[i].0 == line_changes(old@, new@)[i].0 && r@[i].1@
                == line_changes(old@, new@)[i].1,
{
    let diff = similar::TextDiff::from_lines(old, new);
    let mut out = Vec::new();
    for change in diff.iter_all_changes() {
        let tag = match change.tag() {
            similar::ChangeTag::Delete => DiffTag::Delete,
            similar::ChangeTag::Insert => DiffTag::Insert,
            similar::ChangeTag::Equal => DiffTag::Equal,
        };
        out.push((tag, change.to_string()));
    }
    out
}

/// The mark in front of a diff line: `-`, `+` or a space.
pub open spec fn diff_mark(t: DiffTag) -> char {
    match t {
        DiffTag::Delete => '-',
        DiffTag::Insert => '+',
        DiffTag::Equal => ' ',
    }
}

/// The changes written one after the other, each behind its mark.
pub open spec fn render_changes(cs: Seq<(DiffTag, Seq<char>)>) -> Seq<char>
    decreases cs.len(),
{
    if cs.len() == 0 {
        seq![]
    } else {
        render_changes(cs.drop_last()) + seq![diff_mark(cs.last().0)] + cs.last().1
    }
}

/// A list of changes as texts.
pub open spec fn changes_view(cs: Seq<(DiffTag, String)>) -> Seq<(DiffTag, Seq<char>)> {
    cs.map_values(|c: (DiffTag, String)| (c.0, c.1@))
}

/// The changes of a line diff written one after the other, each behind its
/// mark (see [`render_changes`]).
pub fn render_diff(changes: &Vec<(DiffTag, String)>) -> (r: String)
    ensures
        r@ == render_changes(changes_view(changes@)),
{
    let ghost spec_cs = changes_view(changes@);
    let mut out: Vec<char> = Vec::new();
    let mut i: usize = 0;
    assert(spec_cs.take(0) == Seq::<(DiffTag, Seq<char>)>::empty());
    while i < changes.len()
        invariant
            i <= changes@.len() == spec_cs.len(),
            spec_cs == changes_view(changes@),
            out@ == render_changes(spec_cs.take(i as int)),
        decreases changes.len() - i,
    {
        let mark = match changes[i].0 {
            DiffTag::Delete => '-',
            DiffTag::Insert => '+',
            DiffTag::Equal => ' ',
        };
        out.push(mark);
        append_str(&mut out, changes[i].1.as_str());
        assert(spec_cs.take(i + 1).drop_last() == spec_cs.take(i as int));
        assert(spec_cs.take(i + 1).last() == spec_cs[i as int]);
        i = i + 1;
    }
    assert(spec_cs.take(changes.len() as int) == spec_cs);
    string_of(&out)
}

/// The diff written when the system's `diff` cannot be used: a line diff
/// of the normalised expected and actual outputs, each line marked.
pub fn fallback_diff(expected: &str, actual: &str) -> (r: String)
    ensures
        r@ == render_changes(line_changes(normalized(expected@), normalized(actual@))),
{
    let e = normalize(expected);
    let a = normalize(actual);
    let cs = text_diff_lines(e.as_str(), a.as_str());
    assert(changes_view(cs@) == line_changes(e@, a@));
    render_diff(&cs)
}

// ---------------------------------------------------------------------------
// Tally of a run
// ---------------------------------------------------------------------------

/// The number of passed tests among `results`.
pub open spec fn passed_count(results: Seq<bool>) -> nat
    decreases results.len(),
{
    if results.len() == 0 {
        0
    } else {
        passed_count(results.drop_last()) + if results.last() {
            1nat
        } else {
            0nat
        }
    }
}

/// At most every test passed, and every test passed exactly when the count
/// of passed tests is the number of tests: a run reports failure exactly
/// when some test failed.
pub proof fn lemma_passed_count_bound(results: Seq<bool>)
    ensures
        passed_count(results) <= results.len(),
        passed_count(results) == results.len() <==> forall|i: int|
            0 <= i < results.len() ==> #[trigger] results[i],
    decreases results.len(),
{
    if results.len() > 0 {
        let prev = results.drop_last();
        lemma_passed_count_bound(prev);
        if passed_count(results) == results.len() {
            assert forall|i: int| 0 <= i < results.len() implies #[trigger] results[i] by {
                if i < results.len() - 1 {
                    assert(prev[i] == results[i]);
                }
            }
        }
        if forall|i: int| 0 <= i < results.len() ==> #[trigger] results[i] {
            assert forall|i: int| 0 <= i < prev.len() implies #[trigger] prev[i] by {
                assert(prev[i] == results[i]);
            }
            assert(results[results.len() - 1]);
        }
    }
}

/// A result adds one to the count exactly when it is a pass: a failure
/// never counts, wherever it comes.
pub proof fn lemma_passed_count_push(results: Seq<bool>, r: bool)
    ensures
        passed_count(results.push(r)) == passed_count(results) + if r {
            1int
        } else {
            0int
        },
        passed_count(Seq::<bool>::empty()) == 0,
{
    assert(results.push(r).drop_last() == results);
    assert(results.push(r).last() == r);
}

/// The count of passed tests is the number of passes among the results.
pub proof fn lemma_passed_count_is_passes(results: Seq<bool>)
    ensures
        passed_count(results) == results.filter(|b: bool| b).len(),
    decreases results.len(),
{
    if results.len() > 0 {
        let prev = results.drop_last();
        lemma_passed_count_is_passes(prev);
        assert(prev.push(results.last()) == results);
        prev.lemma_filter_push(results.last(), |b: bool| b);
        lemma_passed_count_push(prev, results.last());
    } else {
        reveal(Seq::filter);
    }
}

/// The number of passed tests among the results of a run.
pub fn count_passed(results: &Vec<bool>) -> (n: usize)
    ensures
        n == passed_count(results@),
{
    let mut n: usize = 0;
    let mut i: usize = 0;
    assert(results@.take(0) == Seq::<bool>::empty());
    while i < results.len()
        invariant
            i <= results@.len(),
            n == passed_count(results@.take(i as int)),
        decreases results.len() - i,
    {
        assert(results@.take(i + 1).drop_last() == results@.take(i as int));
        assert(results@.take(i + 1).last() == results@[i as int]);
        proof {
            lemma_passed_count_bound(results@.take(i as int));
        }
        if results[i] {
            n = n + 1;
        }
        i = i + 1;
    }
    assert(results@.take(results.len() as int) == results@);
    n
}

// ---------------------------------------------------------------------------
// Stress test
// ---------------------------------------------------------------------------

/// The state of a stress test: seeds `start`, `start + 1`, ... are tried,
/// `count` of them (or without end when `count` is 0); `seed` is the next
/// seed and `passed` the number of seeds passed so far.
pub struct StressRun {
    pub start: usize,
    pub count: usize,
    pub seed: usize,
    pub passed: usize,
}

/// What to do after a seed was tried.
#[derive(PartialEq, Eq, Structural, Debug, Clone, Copy)]
pub enum StressStep {
    /// Go on with the next seed.
    Next,
    /// Save the failing input and the correct output, and stop.
    SaveFailure,
}

impl StressRun {
    /// The seeds tried so far lie in the range; at most all of them passed.
    pub open spec fn wf(&self) -> bool {
        &&& self.start + self.count <= usize::MAX
        &&& self.start <= self.seed
        &&& self.passed <= self.seed - self.start
        &&& self.count > 0 ==> self.seed <= self.start + self.count
    }

    /// A stress test that starts at seed `start` and tries `count` seeds
    /// (0: without end).
    pub fn new(start: usize, count: usize) -> (r: StressRun)
        requires
            start + count <= usize::MAX,
        ensures
            r.wf(),
            r.start == start,
            r.count == count,
            r.seed == start,
            r.passed == 0,
    {
        StressRun { start, count, seed: start, passed: 0 }
    }

    /// Whether to try another seed: not interrupted, and seeds are left.
    pub fn should_continue(&self, running: bool) -> (b: bool)
        requires
            self.wf(),
        ensures
            b == (running && (self.count == 0 || self.seed < self.start + self.count)),
    {
        running && (self.count == 0 || self.seed < self.start + self.count)
    }

    /// Records the result of the current seed: a pass counts and moves on;
    /// a failure moves on, or stops the test when `stop_on_fail` is set.
    pub fn record(&mut self, ok: bool, stop_on_fail: bool) -> (s: StressStep)
        requires
            old(self).wf(),
            ok || !stop_on_fail ==> old(self).seed < usize::MAX,
            old(self).count > 0 ==> old(self).seed < old(self).start + old(self).count,
        ensures
            final(self).wf(),
            final(self).start == old(self).start,
            final(self).count == old(self).count,
            ok ==> s == StressStep::Next && final(self).seed == old(self).seed + 1
                && final(self).passed == old(self).passed + 1,
            !ok && stop_on_fail ==> s == StressStep::SaveFailure && final(self).seed == old(
                self,
            ).seed && final(self).passed == old(self).passed,
            !ok && !stop_on_fail ==> s == StressStep::Next && final(self).seed == old(self).seed
                + 1 && final(self).passed == old(self).passed,
    {
        if ok {
            self.passed = self.passed + 1;
            self.seed = self.seed + 1;
            StressStep::Next
        } else if stop_on_fail {
            StressStep::SaveFailure
        } else {
            self.seed = self.seed + 1;
            StressStep::Next
        }
    }

    /// The number of seeds tried.
    pub fn completed(&self) -> (n: usize)
        requires
            self.wf(),
        ensures
            n == self.seed - self.start,
    {
        self.seed - self.start
    }
}

/// The directory where a failing stress input is saved, given the parent
/// of the solution's path: the test-case directory there, or beside the
/// base directory when the path has no parent.
pub open spec fn failure_dir_in(solution_parent: Option<Seq<char>>, base_dir: Seq<char>) -> Seq<char> {
    join_path(
        match solution_parent {
            Some(p) => p,
            None => base_dir,
        },
        TESTCASES_DIR@,
    )
}

/// The directory where a failing stress input is saved: the test-case
/// directory beside the solution (beside the base directory when the
/// solution's path has no parent).
pub open spec fn stress_failure_dir(solution_path: Seq<char>, base_dir: Seq<char>) -> Seq<char> {
    failure_dir_in(path_parent(solution_path), base_dir)
}

/// Where a failing stress input and the correct output for it are saved,
/// given the parent of the solution's path (see [`failure_dir_in`]).
pub fn failure_files_in(solution_parent: Option<&str>, base_dir: &str) -> (r: (String, String))
    ensures
        r.0@ == join_path(failure_dir_in(opt_view(solution_parent), base_dir@), "stress_fail_input.txt"@),
        r.1@ == join_path(failure_dir_in(opt_view(solution_parent), base_dir@), "stress_fail_output.txt"@),
{
    let dir = match solution_parent {
        Some(p) => join(p, TESTCASES_DIR),
        None => join(base_dir, TESTCASES_DIR),
    };
    (join(dir.as_str(), "stress_fail_input.txt"), join(dir.as_str(), "stress_fail_output.txt"))
}

/// Where a failing stress input and the correct output for it are saved.
pub fn stress_failure_files(solution_path: &str, base_dir: &str) -> (r: (String, String))
    ensures
        r.0@ == join_path(stress_failure_dir(solution_path@, base_dir@), "stress_fail_input.txt"@),
        r.1@ == join_path(stress_failure_dir(solution_path@, base_dir@), "stress_fail_output.txt"@),
{
    match parent(solution_path) {
        Some(p) => failure_files_in(Some(p.as_str()), base_dir),
        None => failure_files_in(None, base_dir),
    }
}

} // verus!
