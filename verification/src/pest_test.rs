//! Tests written into a pest grammar as comments.
//!
//! A line such as ``//`a + b`: ok # sums`` above a rule `expr = { ... }`
//! declares that the rule `expr` accepts the input `a + b`; `error` in place
//! of `ok` declares that it rejects it.  [`PestFile::parse_str`] collects these
//! tests per rule, and [`PestFile::generate_test_rs`] writes Rust test
//! functions that run each of them.
use crate::text::{
    decimal, decimal_string, indentation, repeat,
    chars_eq, chars_of, lines, lines_of, split_once, split_once_chars, starts_with_chars, string_of,
    take_until, take_until_chars, trim, trim_chars, trim_start, trim_start_chars, views,
};
use vstd::prelude::*;

verus! {

/// The expected outcome of a grammar test, with its comment.
#[derive(Debug, Clone, PartialEq)]
pub enum PestResult {
    /// The rule must accept the input.
    Accepts(String),
    /// The rule must reject the input.
    Rejects(String),
}

/// The mathematical value of a [`PestResult`].
pub enum Outcome {
    Accepts(Seq<char>),
    Rejects(Seq<char>),
}

impl View for PestResult {
    type V = Outcome;

    open spec fn view(&self) -> Outcome {
        match self {
            PestResult::Accepts(s) => Outcome::Accepts(s@),
            PestResult::Rejects(s) => Outcome::Rejects(s@),
        }
    }
}

/// One grammar test: the input, the expected outcome, and the line that
/// declares it.
#[derive(Debug, Clone)]
pub struct PestTest {
    pub source: String,
    pub result: PestResult,
    pub line: Option<usize>,
}

/// The mathematical value of a [`PestTest`].
pub struct TestView {
    pub source: Seq<char>,
    pub result: Outcome,
    pub line: Option<usize>,
}

impl View for PestTest {
    type V = TestView;

    open spec fn view(&self) -> TestView {
        TestView { source: self.source@, result: self.result@, line: self.line }
    }
}

/// A grammar rule with the tests declared above it.
pub struct PestRule {
    pub name: String,
    pub tests: Vec<PestTest>,
    pub line: Option<usize>,
}

/// The mathematical value of a [`PestRule`].
pub struct RuleView {
    pub name: Seq<char>,
    pub tests: Seq<TestView>,
    pub line: Option<usize>,
}

/// The values of a sequence of tests.
pub open spec fn test_views(tests: Seq<PestTest>) -> Seq<TestView> {
    tests.map_values(|t: PestTest| t@)
}

impl View for PestRule {
    type V = RuleView;

    open spec fn view(&self) -> RuleView {
        RuleView { name: self.name@, tests: test_views(self.tests@), line: self.line }
    }
}

/// The rules of a grammar file, in the order in which they stand.
pub struct PestFile {
    pub rules: Vec<PestRule>,
}

/// The values of a sequence of rules.
pub open spec fn rule_views(rules: Seq<PestRule>) -> Seq<RuleView> {
    rules.map_values(|r: PestRule| r@)
}

impl View for PestFile {
    type V = Seq<RuleView>;

    open spec fn view(&self) -> Seq<RuleView> {
        rule_views(self.rules@)
    }
}

// ---------------------------------------------------------------------------
// What the readers accept
// ---------------------------------------------------------------------------

/// The outcome part of a test comment: `ok` or `error`, white space around it
/// ignored, then optionally `#` and a comment.
pub open spec fn spec_outcome(s: Seq<char>) -> Option<Outcome> {
    let result = trim(take_until(s, '#').0);
    let comment = trim(take_until(s, '#').1);
    if result == seq!['o', 'k'] {
        Some(Outcome::Accepts(comment))
    } else if result == seq!['e', 'r', 'r', 'o', 'r'] {
        Some(Outcome::Rejects(comment))
    } else {
        None
    }
}

/// What opens a test comment, after white space.
pub open spec fn test_marker() -> Seq<char> {
    seq!['/', '/', '`']
}

/// A test comment: ``//`input`: outcome``.  The input runs from the first
/// backtick to the next; the outcome from the `:` after it to the end of the
/// line.
pub open spec fn spec_test(s: Seq<char>) -> Option<TestView> {
    if !test_marker().is_prefix_of(trim_start(s)) {
        None
    } else {
        let after_tick = take_until(s, '`').1;
        let source = take_until(after_tick, '`').0;
        let after_source = take_until(after_tick, '`').1;
        let after_colon = take_until(after_source, ':').1;
        let outcome = take_until(after_colon, '\n').0;
        match spec_outcome(outcome) {
            Some(r) => Some(TestView { source, result: r, line: None }),
            None => None,
        }
    }
}

/// Whether every character of a rule name is alphanumeric or `_`.
pub open spec fn valid_rule_name(name: Seq<char>) -> bool {
    forall|i: int| 0 <= i < name.len() ==> char_is_alphanumeric(#[trigger] name[i]) || name[i] == '_'
}

/// The error for a rule name with other characters.
pub open spec fn invalid_rule_name_message(name: Seq<char>) -> Seq<char> {
    "Invalid rule name: "@ + name
}

/// Reading the lines of a grammar from line index `k` on, with the rules
/// already read and the tests that wait for the next rule.
///
/// A test comment joins the waiting tests; another `//` comment is skipped; a
/// line with `=` declares the rule named by the trimmed text before it, which
/// takes the waiting tests; any other line is skipped.  Lines are numbered
/// from one.
pub open spec fn spec_read_lines(
    lines: Seq<Seq<char>>,
    k: int,
    rules: Seq<RuleView>,
    waiting: Seq<TestView>,
) -> Result<Seq<RuleView>, Seq<char>>
    decreases lines.len() - k,
{
    if k < 0 || k >= lines.len() {
        Ok(rules)
    } else {
        let line = lines[k];
        match spec_test(line) {
            Some(t) => spec_read_lines(
                lines,
                k + 1,
                rules,
                waiting.push(TestView { source: t.source, result: t.result, line: Some((k + 1) as usize) }),
            ),
            None => {
                if seq!['/', '/'].is_prefix_of(line) {
                    spec_read_lines(lines, k + 1, rules, waiting)
                } else {
                    match split_once(line, '=') {
                        Some((before, _)) => {
                            let name = trim(before);
                            if !valid_rule_name(name) {
                                Err(invalid_rule_name_message(name))
                            } else {
                                spec_read_lines(
                                    lines,
                                    k + 1,
                                    rules.push(RuleView { name, tests: waiting, line: Some((k + 1) as usize) }),
                                    Seq::empty(),
                                )
                            }
                        },
                        None => spec_read_lines(lines, k + 1, rules, waiting),
                    }
                }
            },
        }
    }
}

/// A line that is no test comment, no `//` comment and declares no rule.
pub open spec fn inert_line(line: Seq<char>) -> bool {
    spec_test(line) is None && !seq!['/', '/'].is_prefix_of(line) && split_once(line, '=') is None
}

/// A line that reading passes over: an inert line, or a `//` comment that
/// is no test comment.
pub open spec fn skipped_line(line: Seq<char>) -> bool {
    inert_line(line) || (spec_test(line) is None && seq!['/', '/'].is_prefix_of(line))
}

/// Reading passes over a line that holds no test comment and declares no
/// rule, such as an empty line, just as over a `//` comment: putting one in
/// place of the other changes nothing, so the tests waiting for the next
/// rule stay.
pub proof fn lemma_skipped_lines_alike(
    lines: Seq<Seq<char>>,
    m: int,
    x: Seq<char>,
    k: int,
    rules: Seq<RuleView>,
    waiting: Seq<TestView>,
)
    requires
        0 <= m < lines.len(),
        skipped_line(lines[m]),
        skipped_line(x),
    ensures
        spec_read_lines(lines.update(m, x), k, rules, waiting) == spec_read_lines(lines, k, rules, waiting),
    decreases lines.len() - k,
{
    let u = lines.update(m, x);
    if 0 <= k < lines.len() {
        if k != m {
            assert(u[k] == lines[k]);
        }
        let line = lines[k];
        match spec_test(line) {
            Some(t) => {
                lemma_skipped_lines_alike(
                    lines,
                    m,
                    x,
                    k + 1,
                    rules,
                    waiting.push(TestView { source: t.source, result: t.result, line: Some((k + 1) as usize) }),
                );
            },
            None => {
                match split_once(line, '=') {
                    Some((before, _)) => {
                        lemma_skipped_lines_alike(
                            lines,
                            m,
                            x,
                            k + 1,
                            rules.push(RuleView { name: trim(before), tests: waiting, line: Some((k + 1) as usize) }),
                            Seq::empty(),
                        );
                    },
                    None => {},
                }
                lemma_skipped_lines_alike(lines, m, x, k + 1, rules, waiting);
            },
        }
    }
}

/// Reading never changes the rules read before: they stay, in order, at the
/// start of what it gives.
pub proof fn lemma_read_keeps_rules(lines: Seq<Seq<char>>, k: int, rules: Seq<RuleView>, waiting: Seq<TestView>)
    ensures
        spec_read_lines(lines, k, rules, waiting) matches Ok(rs) ==> rules.len() <= rs.len() && forall|j: int|
            0 <= j < rules.len() ==> #[trigger] rs[j] == rules[j],
    decreases lines.len() - k,
{
    if 0 <= k < lines.len() {
        let line = lines[k];
        match spec_test(line) {
            Some(t) => {
                lemma_read_keeps_rules(
                    lines,
                    k + 1,
                    rules,
                    waiting.push(TestView { source: t.source, result: t.result, line: Some((k + 1) as usize) }),
                );
            },
            None => {
                if !seq!['/', '/'].is_prefix_of(line) {
                    if let Some((before, _)) = split_once(line, '=') {
                        let name = trim(before);
                        let more = rules.push(RuleView { name, tests: waiting, line: Some((k + 1) as usize) });
                        lemma_read_keeps_rules(lines, k + 1, more, Seq::empty());
                        assert forall|j: int| 0 <= j < rules.len() implies #[trigger] more[j] == rules[j] by {}
                    }
                }
                lemma_read_keeps_rules(lines, k + 1, rules, waiting);
            },
        }
    }
}

/// Lines that reading passes over change nothing of what it holds.
proof fn lemma_skip_lines(lines: Seq<Seq<char>>, j: int, r: int, rules: Seq<RuleView>, waiting: Seq<TestView>)
    requires
        0 <= j <= r <= lines.len(),
        forall|q: int| j <= q < r ==> skipped_line(#[trigger] lines[q]),
    ensures
        spec_read_lines(lines, j, rules, waiting) == spec_read_lines(lines, r, rules, waiting),
    decreases r - j,
{
    if j < r {
        assert(skipped_line(lines[j]));
        lemma_skip_lines(lines, j + 1, r, rules, waiting);
    }
}

/// A test comment goes to the first rule declared after it: where only
/// lines that reading passes over (empty lines, other comments, any text
/// without `=`) stand between a test comment and a line that declares a
/// rule, that rule, read next after the rules before, takes the tests that
/// waited and then this test, with the number of the line it stands on.
pub proof fn lemma_test_goes_to_next_rule(
    lines: Seq<Seq<char>>,
    i: int,
    r: int,
    rules: Seq<RuleView>,
    waiting: Seq<TestView>,
)
    requires
        0 <= i < r < lines.len(),
        spec_test(lines[i]) is Some,
        forall|q: int| i < q < r ==> skipped_line(#[trigger] lines[q]),
        spec_test(lines[r]) is None,
        !seq!['/', '/'].is_prefix_of(lines[r]),
        split_once(lines[r], '=') is Some,
    ensures
        spec_read_lines(lines, i, rules, waiting) matches Ok(rs) ==> rules.len() < rs.len() && rs[rules.len() as int]
            == (RuleView {
            name: trim(split_once(lines[r], '=')->Some_0.0),
            tests: waiting.push(
                TestView {
                    source: spec_test(lines[i])->Some_0.source,
                    result: spec_test(lines[i])->Some_0.result,
                    line: Some((i + 1) as usize),
                },
            ),
            line: Some((r + 1) as usize),
        }),
{
    let t = spec_test(lines[i])->Some_0;
    let w2 = waiting.push(TestView { source: t.source, result: t.result, line: Some((i + 1) as usize) });
    assert(spec_read_lines(lines, i, rules, waiting) == spec_read_lines(lines, i + 1, rules, w2));
    lemma_skip_lines(lines, i + 1, r, rules, w2);
    let name = trim(split_once(lines[r], '=')->Some_0.0);
    if valid_rule_name(name) {
        let rv = RuleView { name, tests: w2, line: Some((r + 1) as usize) };
        lemma_read_keeps_rules(lines, r + 1, rules.push(rv), Seq::empty());
        assert(rules.push(rv)[rules.len() as int] == rv);
    }
}

/// The rules, with their tests, of a whole grammar file.
pub open spec fn spec_pest_file(s: Seq<char>) -> Result<Seq<RuleView>, Seq<char>> {
    spec_read_lines(lines(s), 0, Seq::empty(), Seq::empty())
}

// ---------------------------------------------------------------------------
// Readers
// ---------------------------------------------------------------------------

/// Whether `c` is alphanumeric.
pub uninterp spec fn char_is_alphanumeric(c: char) -> bool;

/// Trusted: a call of `char::is_alphanumeric`, which std documents as
/// "alphabetic or numeric" in Unicode's sense.  The contract names that
/// result and states only what it is on ASCII: the letters and digits, and
/// no other ASCII character.
#[verifier::external_body]
fn is_alphanumeric(c: char) -> (r: bool)
    ensures
        r == char_is_alphanumeric(c),
        ('a' <= c && c <= 'z') || ('A' <= c && c <= 'Z') || ('0' <= c && c <= '9') ==> r,
        c < '\u{80}' && !(('a' <= c && c <= 'z') || ('A' <= c && c <= 'Z') || ('0' <= c
            && c <= '9')) ==> !r,
{
    c.is_alphanumeric()
}

impl PestResult {
    /// Reads an outcome: `ok` or `error`, then optionally `#` and a comment.
    pub fn parse_chars(v: &Vec<char>) -> (r: Result<PestResult, ()>)
        ensures
            r matches Ok(p) ==> spec_outcome(v@) == Some(p@),
            r is Err ==> spec_outcome(v@) is None,
    {
        let (head, tail) = take_until_chars(v, '#');
        let result = trim_chars(&head);
        let comment = string_of(&trim_chars(&tail));
        let ok = vec!['o', 'k'];
        let error = vec!['e', 'r', 'r', 'o', 'r'];
        assert(ok@ =~= seq!['o', 'k']);
        assert(error@ =~= seq!['e', 'r', 'r', 'o', 'r']);
        if chars_eq(&result, &ok) {
            Ok(PestResult::Accepts(comment))
        } else if chars_eq(&result, &error) {
            Ok(PestResult::Rejects(comment))
        } else {
            Err(())
        }
    }

    /// Reads an outcome from text.
    pub fn parse_str(s: &str) -> (r: Result<PestResult, ()>)
        ensures
            r matches Ok(p) ==> spec_outcome(s@) == Some(p@),
            r is Err ==> spec_outcome(s@) is None,
    {
        Self::parse_chars(&chars_of(s))
    }
}

impl std::str::FromStr for PestResult {
    type Err = ();

    fn from_str(s: &str) -> (r: Result<Self, ()>)
        ensures
            r matches Ok(p) ==> spec_outcome(s@) == Some(p@),
            r is Err ==> spec_outcome(s@) is None,
    {
        PestResult::parse_str(s)
    }
}

impl PestTest {
    /// Reads a test comment; its line is left unknown.
    pub fn parse_chars(v: &Vec<char>) -> (r: Result<PestTest, ()>)
        ensures
            r matches Ok(t) ==> spec_test(v@) == Some(t@),
            r is Err ==> spec_test(v@) is None,
    {
        let front = trim_start_chars(v);
        let marker = vec!['/', '/', '`'];
        assert(marker@ =~= test_marker());
        if !starts_with_chars(&front, &marker) {
            return Err(());
        }
        let after_tick = take_until_chars(v, '`').1;
        let (source, after_source) = take_until_chars(&after_tick, '`');
        let after_colon = take_until_chars(&after_source, ':').1;
        let outcome = take_until_chars(&after_colon, '\n').0;
        let result = PestResult::parse_chars(&outcome)?;
        Ok(PestTest { source: string_of(&source), result, line: None })
    }

    /// Reads a test comment from text.
    pub fn parse_str(s: &str) -> (r: Result<PestTest, ()>)
        ensures
            r matches Ok(t) ==> spec_test(s@) == Some(t@),
            r is Err ==> spec_test(s@) is None,
    {
        Self::parse_chars(&chars_of(s))
    }
}

impl std::str::FromStr for PestTest {
    type Err = ();

    fn from_str(s: &str) -> (r: Result<Self, ()>)
        ensures
            r matches Ok(t) ==> spec_test(s@) == Some(t@),
            r is Err ==> spec_test(s@) is None,
    {
        PestTest::parse_str(s)
    }
}

/// Whether every character of `name` is alphanumeric or `_`.
fn is_rule_name(name: &Vec<char>) -> (r: bool)
    ensures
        r == valid_rule_name(name@),
{
    for i in 0..name.len()
        invariant
            forall|j: int|
                0 <= j < i ==> char_is_alphanumeric(#[trigger] name@[j]) || name@[j] == '_',
    {
        let c = name[i];
        if !is_alphanumeric(c) && c != '_' {
            return false;
        }
    }
    true
}

impl PestFile {
    /// Reads the rules of a grammar, each with the test comments that stand
    /// above it; a rule name with characters other than alphanumerics and `_`
    /// is an error.
    pub fn parse_str(s: &str) -> (r: Result<PestFile, String>)
        ensures
            r matches Ok(f) ==> spec_pest_file(s@) == Ok::<Seq<RuleView>, Seq<char>>(f@),
            r matches Err(e) ==> spec_pest_file(s@) == Err::<Seq<RuleView>, Seq<char>>(e@),
    {
        let text = chars_of(s);
        let all_lines = lines_of(&text);
        let mut rules: Vec<PestRule> = Vec::new();
        let mut tests: Vec<PestTest> = Vec::new();
        let ghost ls = lines(s@);
        assert(views(all_lines@) == ls);
        assert(rule_views(rules@) =~= Seq::<RuleView>::empty());
        assert(test_views(tests@) =~= Seq::<TestView>::empty());
        for k in 0..all_lines.len()
            invariant
                views(all_lines@) == ls,
                all_lines.len() == ls.len(),
                spec_pest_file(s@) == spec_read_lines(ls, k as int, rule_views(rules@), test_views(tests@)),
        {
            let line = &all_lines[k];
            assert(line@ == ls[k as int]);
            match PestTest::parse_chars(line) {
                Ok(test) => {
                    let t = PestTest { source: test.source, result: test.result, line: Some(k + 1) };
                    let ghost old_tests = test_views(tests@);
                    tests.push(t);
                    assert(test_views(tests@) =~= old_tests.push(t@));
                },
                Err(()) => {
                    let comment = vec!['/', '/'];
                    assert(comment@ =~= seq!['/', '/']);
                    if starts_with_chars(line, &comment) {
                    } else {
                        match split_once_chars(line, '=') {
                            Some((before, _)) => {
                                let name = trim_chars(&before);
                                if !is_rule_name(&name) {
                                    let mut message = String::from_str("Invalid rule name: ");
                                    message.append(string_of(&name).as_str());
                                    return Err(message);
                                }
                                let rule = PestRule {
                                    name: string_of(&name),
                                    tests,
                                    line: Some(k + 1),
                                };
                                let ghost old_rules = rule_views(rules@);
                                rules.push(rule);
                                assert(rule_views(rules@) =~= old_rules.push(rule@));
                                tests = Vec::new();
                                assert(test_views(tests@) =~= Seq::<TestView>::empty());
                            },
                            None => {},
                        }
                    }
                },
            }
        }
        Ok(PestFile { rules })
    }
}

impl std::str::FromStr for PestFile {
    type Err = String;

    fn from_str(s: &str) -> (r: Result<Self, String>)
        ensures
            r matches Ok(f) ==> spec_pest_file(s@) == Ok::<Seq<RuleView>, Seq<char>>(f@),
            r matches Err(e) ==> spec_pest_file(s@) == Err::<Seq<RuleView>, Seq<char>>(e@),
    {
        PestFile::parse_str(s)
    }
}

// ---------------------------------------------------------------------------
// Writing Rust code
// ---------------------------------------------------------------------------

/// What a [`RustWriter`] has written, and the indentation depth of the next line.
pub struct WriterState {
    pub text: Seq<char>,
    pub indent: nat,
}

/// A line at an indentation depth: four spaces per level, the text, a newline.
pub open spec fn line_text(indent: nat, s: Seq<char>) -> Seq<char> {
    repeat("    "@, indent) + s + seq!['\n']
}

/// The state after writing one line.
pub open spec fn w_line(st: WriterState, s: Seq<char>) -> WriterState {
    WriterState { text: st.text + line_text(st.indent, s), indent: st.indent }
}

/// The state after opening a scope: the line `s {` (just `{` for an empty
/// `s`), then one level deeper.
pub open spec fn w_begin(st: WriterState, s: Seq<char>) -> WriterState {
    let opener = if s.len() == 0 {
        seq!['{']
    } else {
        s + seq![' ', '{']
    };
    WriterState { text: w_line(st, opener).text, indent: st.indent + 1 }
}

/// The state after closing a scope: the line `}` at the inner depth, then one
/// level shallower.
pub open spec fn w_end(st: WriterState) -> WriterState {
    WriterState { text: w_line(st, seq!['}']).text, indent: (st.indent - 1) as nat }
}

/// Closing a scope after opening one comes back to the depth before, with
/// the opening and the closing line written.
pub proof fn lemma_scope_balance(st: WriterState, s: Seq<char>)
    ensures
        w_end(w_begin(st, s)).indent == st.indent,
        w_end(w_begin(st, s)).text == st.text + line_text(
            st.indent,
            if s.len() == 0 {
                seq!['{']
            } else {
                s + seq![' ', '{']
            },
        ) + line_text(st.indent + 1, seq!['}']),
{
}

/// Writes Rust source text line by line, indented by scope.
pub struct RustWriter {
    text: String,
    indent: usize,
}

impl View for RustWriter {
    type V = WriterState;

    closed spec fn view(&self) -> WriterState {
        WriterState { text: self.text@, indent: self.indent as nat }
    }
}

impl RustWriter {
    /// A writer that has written nothing, at depth zero.
    pub fn new() -> (w: RustWriter)
        ensures
            w@.text == Seq::<char>::empty(),
            w@.indent == 0,
    {
        RustWriter { text: String::new(), indent: 0 }
    }

    /// Opens a scope with the line `s {`, or `{` where `s` is empty.
    pub fn begin_scope(&mut self, s: &str)
        requires
            old(self)@.indent < usize::MAX,
        ensures
            final(self)@ == w_begin(old(self)@, s@),
    {
        if s.is_empty() {
            self.writeln("{");
            proof {
                reveal_strlit("{");
            }
            assert("{"@ =~= seq!['{']);
        } else {
            let mut opener = String::from_str(s);
            opener.append(" {");
            proof {
                reveal_strlit(" {");
            }
            assert(opener@ =~= s@ + seq![' ', '{']);
            self.writeln(opener.as_str());
        }
        self.indent = self.indent + 1;
    }

    /// Writes one line at the current depth.
    pub fn write(&mut self, s: &str)
        ensures
            final(self)@ == w_line(old(self)@, s@),
    {
        self.writeln(s);
    }

    /// Closes a scope with the line `}`.
    pub fn end_scope(&mut self)
        requires
            old(self)@.indent > 0,
        ensures
            final(self)@ == w_end(old(self)@),
    {
        self.writeln("}");
        proof {
            reveal_strlit("}");
        }
        assert("}"@ =~= seq!['}']);
        self.indent = self.indent - 1;
    }

    /// Writes one line at the current depth.
    pub fn writeln(&mut self, s: &str)
        ensures
            final(self)@ == w_line(old(self)@, s@),
    {
        let pad = indentation(self.indent);
        self.text.append(pad.as_str());
        self.text.append(s);
        self.text.append("\n");
        proof {
            reveal_strlit("\n");
        }
        assert(self.text@ =~= old(self)@.text + line_text(old(self)@.indent, s@));
    }

    /// All that has been written.
    pub fn text(&self) -> (s: String)
        ensures
            s@ == self@.text,
    {
        self.text.clone()
    }
}

/// The code that runs one test of the rule `rule`.
pub open spec fn gen_test(st: WriterState, t: TestView, parser: Seq<char>, rules: Seq<char>, rule: Seq<char>) -> WriterState {
    let st = w_begin(st, Seq::empty());
    let st = w_line(st, "use pest::Parser;"@);
    let st = w_line(st, "let test_line = "@ + decimal(t.line->0 as nat) + ";"@);
    let st = w_line(st, "let input = r#\""@ + t.source + "\"#;"@);
    let st = w_begin(st, "match "@ + parser + "::parse("@ + rules + "::r#"@ + rule + ", input)"@);
    let st = match t.result {
        Outcome::Accepts(c) => {
            let st = w_line(st, "Ok(pairs) =>  assert_eq!(input, pairs.as_str()),"@);
            w_line(st, "Err(e) => panic!(\"{} at `{}`:{} "@ + c + "\", e, input, test_line),"@)
        },
        Outcome::Rejects(c) => {
            let st = w_begin(st, "Ok(pairs) =>"@);
            let st = w_begin(st, "if input == pairs.as_str()"@);
            let st = w_line(st, "panic!(\"Expected parsing error at `{}`:{}: "@ + c + "\", input, test_line);"@);
            let st = w_end(st);
            let st = w_end(st);
            w_line(st, "Err(_) => (),"@)
        },
    };
    w_end(w_end(st))
}

/// The code for the tests `tests` of the rule `rule`, one after the other.
pub open spec fn gen_tests(st: WriterState, tests: Seq<TestView>, parser: Seq<char>, rules: Seq<char>, rule: Seq<char>) -> WriterState
    decreases tests.len(),
{
    if tests.len() == 0 {
        st
    } else {
        gen_tests(gen_test(st, tests[0], parser, rules, rule), tests.drop_first(), parser, rules, rule)
    }
}

/// The test function of one rule; nothing for a rule without tests.
pub open spec fn gen_rule(st: WriterState, r: RuleView, parser: Seq<char>, rules: Seq<char>) -> WriterState {
    if r.tests.len() == 0 {
        st
    } else {
        let st = w_line(st, "#[test]"@);
        let st = w_begin(st, "fn rule_"@ + r.name + "()"@);
        let st = w_line(st, "let _rule_line = "@ + decimal(r.line->0 as nat) + ";"@);
        let st = gen_tests(st, r.tests, parser, rules, r.name);
        w_end(st)
    }
}

/// The test functions of the rules `rs`, one after the other.
pub open spec fn gen_rules(st: WriterState, rs: Seq<RuleView>, parser: Seq<char>, rules: Seq<char>) -> WriterState
    decreases rs.len(),
{
    if rs.len() == 0 {
        st
    } else {
        gen_rules(gen_rule(st, rs[0], parser, rules), rs.drop_first(), parser, rules)
    }
}

/// The module `grammar` with a test function per rule that has tests.
pub open spec fn gen_module(rs: Seq<RuleView>, parser: Seq<char>, rules: Seq<char>) -> Seq<char> {
    let st = WriterState { text: Seq::empty(), indent: 0 };
    let st = w_line(st, "mod grammar {"@);
    let st = w_line(st, "use crate::*;"@);
    let st = gen_rules(st, rs, parser, rules);
    w_line(st, "}"@).text
}

/// Whether every rule with tests, and each of its tests, knows its line.
pub open spec fn lines_known(rs: Seq<RuleView>) -> bool {
    forall|i: int| 0 <= i < rs.len() && #[trigger] rs[i].tests.len() > 0 ==> {
        &&& rs[i].line is Some
        &&& forall|j: int| 0 <= j < rs[i].tests.len() ==> (#[trigger] rs[i].tests[j]).line is Some
    }
}

/// The text `a` followed by `b`.
fn concat(a: &str, b: &str) -> (s: String)
    ensures
        s@ == a@ + b@,
{
    let mut s = String::from_str(a);
    s.append(b);
    s
}

/// Writes the code that runs one test.
fn write_test(w: &mut RustWriter, t: &PestTest, parser: &str, rules: &str, rule: &str)
    requires
        t.line is Some,
        old(w)@.indent < 100,
    ensures
        final(w)@ == gen_test(old(w)@, t@, parser@, rules@, rule@),
{
    w.begin_scope("");
    proof {
        reveal_strlit("");
    }
    assert(""@ =~= Seq::<char>::empty());
    w.writeln("use pest::Parser;");
    let mut line = concat("let test_line = ", decimal_string(t.line.unwrap()).as_str());
    line.append(";");
    w.writeln(line.as_str());
    let mut input = concat("let input = r#\"", t.source.as_str());
    input.append("\"#;");
    w.writeln(input.as_str());
    let mut head = concat("match ", parser);
    head.append("::parse(");
    head.append(rules);
    head.append("::r#");
    head.append(rule);
    head.append(", input)");
    w.begin_scope(head.as_str());
    match &t.result {
        PestResult::Accepts(c) => {
            w.writeln("Ok(pairs) =>  assert_eq!(input, pairs.as_str()),");
            let mut e = concat("Err(e) => panic!(\"{} at `{}`:{} ", c.as_str());
            e.append("\", e, input, test_line),");
            w.writeln(e.as_str());
        },
        PestResult::Rejects(c) => {
            w.begin_scope("Ok(pairs) =>");
            w.begin_scope("if input == pairs.as_str()");
            let mut e = concat("panic!(\"Expected parsing error at `{}`:{}: ", c.as_str());
            e.append("\", input, test_line);");
            w.writeln(e.as_str());
            w.end_scope();
            w.end_scope();
            w.writeln("Err(_) => (),");
        },
    }
    w.end_scope();
    w.end_scope();
}

impl PestFile {
    /// The Rust module of tests for the rules of this file that have tests:
    /// each test parses its input with `parser_struct_name` and the rule
    /// `rule_enum_name::r#<rule>`, and checks acceptance or rejection.
    pub fn generate_test_rs(&self, parser_struct_name: &str, rule_enum_name: &str) -> (s: String)
        requires
            lines_known(self@),
        ensures
            s@ == gen_module(self@, parser_struct_name@, rule_enum_name@),
    {
        let mut r = RustWriter::new();
        r.writeln("mod grammar {");
        r.writeln("use crate::*;");
        let ghost st0 = r@;
        let ghost rs = self@;
        assert(rs.skip(0) =~= rs);
        for i in 0..self.rules.len()
            invariant
                rs == self@,
                rs.len() == self.rules.len(),
                lines_known(rs),
                r@.indent == 0,
                gen_rules(st0, rs, parser_struct_name@, rule_enum_name@) == gen_rules(
                    r@,
                    rs.skip(i as int),
                    parser_struct_name@,
                    rule_enum_name@,
                ),
        {
            let rule = &self.rules[i];
            let ghost before = r@;
            assert(rule@ == rs[i as int]);
            assert(rs.skip(i as int).drop_first() =~= rs.skip(i + 1));
            assert(rs.skip(i as int)[0] == rs[i as int]);
            if rule.tests.len() > 0 {
                assert(rs[i as int].tests.len() > 0);
                r.write("#[test]");
                let mut head = concat("fn rule_", rule.name.as_str());
                head.append("()");
                r.begin_scope(head.as_str());
                let mut first = concat("let _rule_line = ", decimal_string(rule.line.unwrap()).as_str());
                first.append(";");
                r.writeln(first.as_str());
                let ghost st1 = r@;
                let ghost ts = rule@.tests;
                assert(ts.skip(0) =~= ts);
                for j in 0..rule.tests.len()
                    invariant
                        i < rs.len(),
                        ts.len() == rule.tests.len(),
                        ts == rule@.tests,
                        ts == rs[i as int].tests,
                        forall|k: int| 0 <= k < ts.len() ==> (#[trigger] ts[k]).line is Some,
                        r@.indent == 1,
                        gen_tests(st1, ts, parser_struct_name@, rule_enum_name@, rule.name@) == gen_tests(
                            r@,
                            ts.skip(j as int),
                            parser_struct_name@,
                            rule_enum_name@,
                            rule.name@,
                        ),
                {
                    let t = &rule.tests[j];
                    assert(t@ == ts[j as int]);
                    assert(ts.skip(j as int).drop_first() =~= ts.skip(j + 1));
                    assert(ts.skip(j as int)[0] == ts[j as int]);
                    write_test(&mut r, t, parser_struct_name, rule_enum_name, rule.name.as_str());
                }
                assert(ts.skip(ts.len() as int) =~= Seq::<TestView>::empty());
                r.end_scope();
                assert(r@ == gen_rule(before, rs[i as int], parser_struct_name@, rule_enum_name@));
            } else {
                assert(r@ == gen_rule(before, rs[i as int], parser_struct_name@, rule_enum_name@));
            }
        }
        assert(rs.skip(rs.len() as int) =~= Seq::<RuleView>::empty());
        r.writeln("}");
        r.text()
    }
}

} // verus!
