//! A check of commands and of paths to write to, by their text alone.

use vstd::prelude::*;

use crate::json;
use crate::middleware::memo::builtin as fields;
use crate::middleware::shell;
use crate::middleware::verify;
use crate::middleware::verify::{FindingView, VerifyResult};
use crate::text;

verus! {

/// What a [`CommandVerifier`] denies unless it is told otherwise.
pub open spec fn default_denied() -> Seq<Seq<char>> {
    seq![
        "rm -rf /"@,
        "rm -fr /"@,
        "rm -r -f /"@,
        "rm -f -r /"@,
        "rm --recursive --force /"@,
        "rm --force --recursive /"@,
        "rm -rf /*"@,
        "rm -fr /*"@,
        "rm -r -f /*"@,
        ":(){:|:&};:"@,
    ]
}

/// The shells that a [`CommandVerifier`] allows unless it is told otherwise.
pub open spec fn default_shells() -> Seq<Seq<char>> {
    seq!["sh"@, "bash"@]
}

/// Judges a call by its text.
#[derive(Debug)]
pub struct CommandVerifier {
    allowed_shells: Vec<String>,
    deny_globs: Vec<String>,
}

/// What a verifier goes by.
pub struct RulesView {
    pub allowed_shells: Seq<Seq<char>>,
    pub deny_globs: Seq<Seq<char>>,
}

impl View for CommandVerifier {
    type V = RulesView;

    closed spec fn view(&self) -> RulesView {
        RulesView {
            allowed_shells: text::texts(self.allowed_shells@),
            deny_globs: text::texts(self.deny_globs@),
        }
    }
}

impl Clone for CommandVerifier {
    fn clone(&self) -> (r: Self)
        ensures
            r@ == self@,
    {
        CommandVerifier {
            allowed_shells: text::copy_texts(&self.allowed_shells),
            deny_globs: text::copy_texts(&self.deny_globs),
        }
    }
}

// ---------------------------------------------------------------------------
// Rules at the edges of words
// ---------------------------------------------------------------------------

/// Whether a character separates words of a shell.
pub open spec fn separates(c: char) -> bool {
    c == ' ' || c == ';' || c == '&' || c == '|' || c == '(' || c == ')' || c == '#'
}

/// A text with single spaces between its words.
pub open spec fn evened(text: Seq<char>) -> Seq<char> {
    text::joined(text::words(text), " "@)
}

/// Whether a rule stands in a text from `at` on, with an edge on both sides.
pub open spec fn stands_free(text: Seq<char>, rule: Seq<char>, at: int) -> bool {
    &&& text::occurs_at(text, rule, at)
    &&& at == 0 || separates(text[at - 1])
    &&& at + rule.len() == text.len() || separates(text[at + rule.len()])
}

/// Whether a rule matches a command.
pub open spec fn rule_matches(command: Seq<char>, rule: Seq<char>) -> bool {
    &&& evened(rule).len() > 0
    &&& exists|at: int|
        0 <= at <= evened(command).len() - evened(rule).len() && #[trigger] stands_free(
            evened(command),
            evened(rule),
            at,
        )
}

fn is_separator(c: char) -> (r: bool)
    ensures
        r == separates(c),
{
    c == ' ' || c == ';' || c == '&' || c == '|' || c == '(' || c == ')' || c == '#'
}

fn even(text: &str) -> (out: Vec<char>)
    ensures
        out@ == evened(text@),
{
    let words = text::split_whitespace(text);
    let joined = text::join(&words, " ");
    text::chars_of(joined.as_str())
}

/// Whether a rule matches a command: it stands there as a whole, between the
/// edges of words.
pub fn matches_at_token_boundary(command: &str, rule: &str) -> (r: bool)
    ensures
        r == rule_matches(command@, rule@),
{
    let whole = even(command);
    let part = even(rule);
    if part.len() == 0 || part.len() > whole.len() {
        return false;
    }
    let last: usize = whole.len() - part.len();
    let mut at: usize = 0;
    while at <= last
        invariant
            whole@ == evened(command@),
            part@ == evened(rule@),
            part.len() > 0,
            last + part.len() == whole.len(),
            at <= last + 1,
            forall|k: int| 0 <= k < at ==> !(#[trigger] stands_free(whole@, part@, k)),
        decreases last + 1 - at,
    {
        if text::stands_at(&whole, &part, at) {
            let before = at == 0 || is_separator(whole[at - 1]);
            let after = at == last || is_separator(whole[at + part.len()]);
            if before && after {
                assert(stands_free(whole@, part@, at as int));
                return true;
            }
        }
        at = at + 1;
    }
    false
}

/// Space within a command cannot hide it from a rule: only the words count.
pub proof fn spacing_hides_nothing(a: Seq<char>, b: Seq<char>, rule: Seq<char>)
    requires
        text::words(a) == text::words(b),
    ensures
        rule_matches(a, rule) == rule_matches(b, rule),
{
    assert(evened(a) == evened(b));
}

/// A rule with any word in it matches itself.
pub proof fn a_rule_matches_itself(rule: Seq<char>)
    requires
        evened(rule).len() > 0,
    ensures
        rule_matches(rule, rule),
{
    let even = evened(rule);
    assert(even.subrange(0, even.len() as int) =~= even);
    assert(stands_free(even, even, 0));
}

// ---------------------------------------------------------------------------
// Commands
// ---------------------------------------------------------------------------

/// The first rule that matches a command.
pub open spec fn first_denied(command: Seq<char>, rules: Seq<Seq<char>>) -> Option<Seq<char>>
    decreases rules.len(),
{
    if rules.len() == 0 {
        None
    } else if rule_matches(command, rules[0]) {
        Some(rules[0])
    } else {
        first_denied(command, rules.skip(1))
    }
}

/// What the deny rules say of a command.
pub open spec fn deny_finding(command: Seq<char>, rules: Seq<Seq<char>>) -> FindingView {
    match first_denied(command, rules) {
        Some(rule) => verify::failing("denied: command matches the deny rule `"@ + rule + "`"@),
        None => verify::passing(),
    }
}

/// What is said of a command. A command inside of a shell's `-c` is judged in
/// place of the whole.
pub open spec fn command_finding(rules: RulesView, command: Seq<char>) -> FindingView {
    if shell::unbalanced(command) {
        verify::failing("unparseable command: "@ + shell::UNBALANCED@)
    } else {
        let words = shell::command_words(command);
        if words.len() == 0 {
            verify::passing()
        } else if shell::wraps(words) {
            if !rules.allowed_shells.contains(words[0]) {
                verify::failing(
                    "shell `"@ + words[0] + "` is not in the allowed set ("@ + text::joined(
                        rules.allowed_shells,
                        ", "@,
                    ) + ")"@,
                )
            } else {
                deny_finding(text::joined(words.skip(2), " "@), rules.deny_globs)
            }
        } else {
            deny_finding(text::joined(words, " "@), rules.deny_globs)
        }
    }
}

// ---------------------------------------------------------------------------
// Paths
// ---------------------------------------------------------------------------

/// What is said of a path to write to, given its directory and what the file
/// system says of it.
pub open spec fn write_finding(parent: Seq<char>, exists_there: bool, read_only: bool) -> FindingView {
    if !exists_there {
        verify::failing(
            "path not writable: parent directory "@ + parent + " does not exist"@,
        )
    } else if read_only {
        verify::failing("path not writable: parent directory "@ + parent + " is read-only"@)
    } else {
        verify::passing()
    }
}

/// What is said of the root as a path to write to.
pub const ROOT_TARGET: &'static str =
    "path not writable: the target is the filesystem root, a directory";

/// What the text of a call comes to.
#[derive(Debug)]
pub enum CallJudgement {
    /// The finding.
    Settled(VerifyResult),
    /// The call writes into this directory; the file system is to be asked
    /// whether it exists and is read-only.
    Directory(String),
}

/// What the text of a call comes to, as a contract sees it.
pub enum JudgementView {
    Settled(FindingView),
    Directory(Seq<char>),
}

impl View for CallJudgement {
    type V = JudgementView;

    open spec fn view(&self) -> JudgementView {
        match self {
            CallJudgement::Settled(r) => JudgementView::Settled(r@),
            CallJudgement::Directory(d) => JudgementView::Directory(d@),
        }
    }
}

/// What a path to write to comes to.
pub open spec fn path_judgement(cwd: Seq<char>, path: Seq<char>) -> JudgementView {
    let parts = shell::components(cwd, path);
    if parts.len() == 0 {
        JudgementView::Settled(verify::failing(ROOT_TARGET@))
    } else {
        JudgementView::Directory(shell::rooted(parts.drop_last()))
    }
}

/// What the input of a call comes to: its command is judged, or else the path
/// that it names; anything else passes.
pub open spec fn call_judgement(rules: RulesView, cwd: Seq<char>, input: Seq<char>) -> JudgementView {
    match json::first_string(input, fields::command_keys()) {
        Some(command) => JudgementView::Settled(command_finding(rules, command)),
        None => match json::first_string(input, fields::path_keys()) {
            Some(path) => path_judgement(cwd, path),
            None => JudgementView::Settled(verify::passing()),
        },
    }
}

/// What is said of a path to write to, given what the file system says of its
/// directory.
pub fn settle_write(parent: &str, exists_there: bool, read_only: bool) -> (r: VerifyResult)
    ensures
        r@ == write_finding(parent@, exists_there, read_only),
{
    if exists_there && !read_only {
        return VerifyResult::pass();
    }
    let mut message = String::from_str("path not writable: parent directory ");
    text::push_text(&mut message, parent);
    if !exists_there {
        text::push_text(&mut message, " does not exist");
    } else {
        text::push_text(&mut message, " is read-only");
    }
    VerifyResult::fail(message)
}

impl CommandVerifier {
    /// A verifier with the default shells and rules.
    pub fn new() -> (r: Self)
        ensures
            r@ == (RulesView { allowed_shells: default_shells(), deny_globs: default_denied() }),
    {
        let mut shells: Vec<String> = Vec::new();
        text::push_to_list(&mut shells, "sh");
        text::push_to_list(&mut shells, "bash");
        assert(text::texts(shells@) =~= default_shells());
        let mut rules: Vec<String> = Vec::new();
        text::push_to_list(&mut rules, "rm -rf /");
        text::push_to_list(&mut rules, "rm -fr /");
        text::push_to_list(&mut rules, "rm -r -f /");
        text::push_to_list(&mut rules, "rm -f -r /");
        text::push_to_list(&mut rules, "rm --recursive --force /");
        text::push_to_list(&mut rules, "rm --force --recursive /");
        text::push_to_list(&mut rules, "rm -rf /*");
        text::push_to_list(&mut rules, "rm -fr /*");
        text::push_to_list(&mut rules, "rm -r -f /*");
        text::push_to_list(&mut rules, ":(){:|:&};:");
        assert(text::texts(rules@) =~= default_denied());
        CommandVerifier { allowed_shells: shells, deny_globs: rules }
    }

    /// The verifier with other shells.
    pub fn with_allowed_shells(self, shells: Vec<String>) -> (r: Self)
        ensures
            r@ == (RulesView { allowed_shells: text::texts(shells@), ..self@ }),
    {
        let mut r = self;
        r.allowed_shells = shells;
        r
    }

    /// The verifier with other rules.
    pub fn with_deny_globs(self, patterns: Vec<String>) -> (r: Self)
        ensures
            r@ == (RulesView { deny_globs: text::texts(patterns@), ..self@ }),
    {
        let mut r = self;
        r.deny_globs = patterns;
        r
    }

    /// What the rules say of a command.
    pub fn check_deny(&self, command: &str) -> (r: VerifyResult)
        ensures
            r@ == deny_finding(command@, self@.deny_globs),
    {
        let ghost all = self@.deny_globs;
        let mut i: usize = 0;
        assert(all.skip(0) =~= all);
        while i < self.deny_globs.len()
            invariant
                i <= self.deny_globs.len(),
                all == text::texts(self.deny_globs@),
                all == self@.deny_globs,
                first_denied(command@, all) == first_denied(command@, all.skip(i as int)),
            decreases self.deny_globs.len() - i,
        {
            assert(all.skip(i as int)[0] == self.deny_globs@[i as int]@);
            let rule = self.deny_globs[i].as_str();
            if matches_at_token_boundary(command, rule) {
                let mut message = String::from_str("denied: command matches the deny rule `");
                text::push_text(&mut message, rule);
                text::push_text(&mut message, "`");
                return VerifyResult::fail(message);
            }
            assert(all.skip(i as int).skip(1) =~= all.skip(i + 1));
            i = i + 1;
        }
        VerifyResult::pass()
    }

    /// What is said of a command; nothing of it is run.
    pub fn verify_command(&self, command: &str) -> (r: VerifyResult)
        ensures
            r@ == command_finding(self@, command@),
    {
        let words = match shell::shell_words(command) {
            Ok(words) => words,
            Err(reason) => {
                let mut message = String::from_str("unparseable command: ");
                text::push_text(&mut message, reason.as_str());
                return VerifyResult::fail(message);
            },
        };
        if words.len() == 0 {
            return VerifyResult::pass();
        }
        let ghost all = text::texts(words@);
        if shell::is_wrapped_shell(&words) {
            assert(all[0] == words@[0]@);
            if !text::list_contains(&self.allowed_shells, words[0].as_str()) {
                let mut message = String::from_str("shell `");
                text::push_text(&mut message, words[0].as_str());
                text::push_text(&mut message, "` is not in the allowed set (");
                let shells = text::join(&self.allowed_shells, ", ");
                text::push_text(&mut message, shells.as_str());
                text::push_text(&mut message, ")");
                return VerifyResult::fail(message);
            }
            let mut inner: Vec<String> = Vec::new();
            let mut i: usize = 2;
            assert(text::texts(inner@) =~= all.subrange(2, 2));
            while i < words.len()
                invariant
                    2 <= i <= words.len(),
                    all == text::texts(words@),
                    text::texts(inner@) == all.subrange(2, i as int),
                decreases words.len() - i,
            {
                assert(all.subrange(2, i + 1) =~= all.subrange(2, i as int).push(
                    words@[i as int]@,
                ));
                text::push_to_list(&mut inner, words[i].as_str());
                i = i + 1;
            }
            assert(all.subrange(2, i as int) =~= all.skip(2));
            let inner_command = text::join(&inner, " ");
            return self.check_deny(inner_command.as_str());
        }
        let whole = text::join(&words, " ");
        self.check_deny(whole.as_str())
    }

    /// What the input of a call comes to.
    pub fn judge_call(&self, cwd: &str, input: &str) -> (r: CallJudgement)
        ensures
            r@ == call_judgement(self@, cwd@, input@),
    {
        if let Some(command) = json::string_field(input, &fields::command_fields()) {
            return CallJudgement::Settled(self.verify_command(command.as_str()));
        }
        match json::string_field(input, &fields::path_fields()) {
            Some(path) => match shell::lexical_parent(cwd, path.as_str()) {
                Some(parent) => CallJudgement::Directory(parent),
                None => CallJudgement::Settled(
                    VerifyResult::fail(String::from_str(ROOT_TARGET)),
                ),
            },
            None => CallJudgement::Settled(VerifyResult::pass()),
        }
    }
}

impl Default for CommandVerifier {
    fn default() -> (r: Self)
        ensures
            r@ == (RulesView { allowed_shells: default_shells(), deny_globs: default_denied() }),
    {
        CommandVerifier::new()
    }
}

/// A command that a rule matches, bare or inside of an allowed shell, does not
/// pass.
pub proof fn a_denied_command_does_not_pass(rules: RulesView, command: Seq<char>, i: int)
    requires
        !shell::unbalanced(command),
        0 <= i < rules.deny_globs.len(),
        ({
            let words = shell::command_words(command);
            &&& words.len() > 0
            &&& rule_matches(
                if shell::wraps(words) {
                    text::joined(words.skip(2), " "@)
                } else {
                    text::joined(words, " "@)
                },
                rules.deny_globs[i],
            )
        }),
    ensures
        !command_finding(rules, command).passed,
{
    let words = shell::command_words(command);
    if shell::wraps(words) {
        lemma_first_denied(text::joined(words.skip(2), " "@), rules.deny_globs, i);
    } else {
        lemma_first_denied(text::joined(words, " "@), rules.deny_globs, i);
    }
}

proof fn lemma_first_denied(command: Seq<char>, rules: Seq<Seq<char>>, i: int)
    requires
        0 <= i < rules.len(),
        rule_matches(command, rules[i]),
    ensures
        first_denied(command, rules) is Some,
    decreases rules.len(),
{
    if !rule_matches(command, rules[0]) {
        assert(rules.skip(1)[i - 1] == rules[i]);
        lemma_first_denied(command, rules.skip(1), i - 1);
    }
}

/// A rule matches wherever its words stand in a command, at its edges or
/// between separators, and nowhere else: part of a longer word is no match.
pub proof fn a_rule_matches_between_separators(
    command: Seq<char>,
    rule: Seq<char>,
    before: Seq<char>,
    after: Seq<char>,
)
    requires
        evened(command) == before + evened(rule) + after,
        evened(rule).len() > 0,
        before.len() == 0 || " ;&|()#"@.contains(before.last()),
        after.len() == 0 || " ;&|()#"@.contains(after[0]),
    ensures
        rule_matches(command, rule),
{
    reveal_strlit(" ;&|()#");
    let text = evened(command);
    let r = evened(rule);
    let at = before.len() as int;
    assert(text.subrange(at, at + r.len()) =~= r);
    if before.len() > 0 {
        assert(text[at - 1] == before.last());
    }
    if after.len() > 0 {
        assert(text[at + r.len()] == after[0]);
    }
    assert(stands_free(text, r, at));
}

/// Where a rule matches, its words stand between edges or separators: the
/// result is what stands before and behind them.
pub proof fn a_match_stands_between_separators(command: Seq<char>, rule: Seq<char>) -> (sides: (
    Seq<char>,
    Seq<char>,
))
    requires
        rule_matches(command, rule),
    ensures
        evened(rule).len() > 0,
        evened(command) == sides.0 + evened(rule) + sides.1,
        sides.0.len() == 0 || " ;&|()#"@.contains(sides.0.last()),
        sides.1.len() == 0 || " ;&|()#"@.contains(sides.1[0]),
{
    reveal_strlit(" ;&|()#");
    let marks = " ;&|()#"@;
    assert(marks[0] == ' ' && marks[1] == ';' && marks[2] == '&' && marks[3] == '|' && marks[4]
        == '(' && marks[5] == ')' && marks[6] == '#');
    let text = evened(command);
    let r = evened(rule);
    let at = choose|at: int|
        0 <= at <= evened(command).len() - evened(rule).len() && #[trigger] stands_free(
            evened(command),
            evened(rule),
            at,
        );
    let before = text.take(at);
    let after = text.skip(at + r.len());
    assert(text =~= before + text.subrange(at, at + r.len()) + after);
    (before, after)
}

/// The first rule that matches is the one that denies; where none does, the
/// command passes.
pub proof fn the_first_matching_rule_denies(command: Seq<char>, rules: Seq<Seq<char>>, i: int)
    ensures
        0 <= i < rules.len() && rule_matches(command, rules[i]) && (forall|j: int|
            0 <= j < i ==> !rule_matches(command, #[trigger] rules[j])) ==> first_denied(
            command,
            rules,
        ) == Some(rules[i]) && deny_finding(command, rules) == verify::failing(
            "denied: command matches the deny rule `"@ + rules[i] + "`"@,
        ),
        (forall|j: int| 0 <= j < rules.len() ==> !rule_matches(command, #[trigger] rules[j]))
            ==> first_denied(command, rules) is None && deny_finding(command, rules).passed,
    decreases rules.len(),
{
    if rules.len() > 0 {
        let rest = rules.skip(1);
        the_first_matching_rule_denies(command, rest, i - 1);
        if 0 < i < rules.len() && rule_matches(command, rules[i]) && (forall|j: int|
            0 <= j < i ==> !rule_matches(command, #[trigger] rules[j])) {
            assert(!rule_matches(command, rules[0]));
            assert(rest[i - 1] == rules[i]);
            assert forall|j: int| 0 <= j < i - 1 implies !rule_matches(
                command,
                #[trigger] rest[j],
            ) by {
                assert(rest[j] == rules[j + 1]);
            }
        }
        if forall|j: int| 0 <= j < rules.len() ==> !rule_matches(command, #[trigger] rules[j]) {
            assert(!rule_matches(command, rules[0]));
            assert forall|j: int| 0 <= j < rest.len() implies !rule_matches(
                command,
                #[trigger] rest[j],
            ) by {
                assert(rest[j] == rules[j + 1]);
            }
        }
    }
}

/// A command that cannot be read does not pass and one without words does. One
/// that is handed to a shell passes only where the shell is allowed and no rule
/// matches what it is told to run; any other where no rule matches it.
pub proof fn a_command_is_judged_by_what_runs(rules: RulesView, command: Seq<char>)
    ensures
        shell::unbalanced(command) ==> !command_finding(rules, command).passed,
        !shell::unbalanced(command) ==> {
            let words = shell::command_words(command);
            &&& words.len() == 0 ==> command_finding(rules, command).passed
            &&& shell::wraps(words) && !rules.allowed_shells.contains(words[0])
                ==> !command_finding(rules, command).passed
            &&& shell::wraps(words) && rules.allowed_shells.contains(words[0]) ==> command_finding(
                rules,
                command,
            ) == deny_finding(text::joined(words.skip(2), seq![' ']), rules.deny_globs)
            &&& words.len() > 0 && !shell::wraps(words) ==> command_finding(rules, command)
                == deny_finding(text::joined(words, seq![' ']), rules.deny_globs)
        },
{
    reveal_strlit(" ");
    assert(" "@ =~= seq![' ']);
}

/// A path can be written where its directory is there and not read-only; the
/// root itself cannot.
pub proof fn a_path_is_judged_by_its_directory(
    parent: Seq<char>,
    there: bool,
    read_only: bool,
    cwd: Seq<char>,
    path: Seq<char>,
)
    ensures
        write_finding(parent, there, read_only).passed <==> there && !read_only,
        !there ==> write_finding(parent, there, read_only).diagnostics
            == "path not writable: parent directory "@ + parent + " does not exist"@,
        there && read_only ==> write_finding(parent, there, read_only).diagnostics
            == "path not writable: parent directory "@ + parent + " is read-only"@,
        shell::components(cwd, path).len() > 0 ==> path_judgement(cwd, path)
            == JudgementView::Directory(
            shell::rooted(
                shell::components(cwd, path).take(shell::components(cwd, path).len() - 1),
            ),
        ),
        shell::components(cwd, path).len() == 0 ==> (path_judgement(cwd, path) matches
            JudgementView::Settled(f) && !f.passed),
{
    let parts = shell::components(cwd, path);
    if parts.len() > 0 {
        assert(parts.drop_last() =~= parts.take(parts.len() - 1));
    }
}

/// A command in the input of a call is judged before a path is, and an input
/// with neither passes.
pub proof fn a_command_is_judged_before_a_path(rules: RulesView, cwd: Seq<char>, input: Seq<char>)
    ensures
        json::first_string(input, seq!["command"@, "cmd"@]) matches Some(command)
            ==> call_judgement(rules, cwd, input) == JudgementView::Settled(
            command_finding(rules, command),
        ),
        json::first_string(input, seq!["command"@, "cmd"@]) is None ==> (match json::first_string(
            input,
            seq!["path"@, "file_path"@, "filename"@, "filepath"@],
        ) {
            Some(path) => call_judgement(rules, cwd, input) == path_judgement(cwd, path),
            None => call_judgement(rules, cwd, input) == JudgementView::Settled(
                FindingView { passed: true, diagnostics: Seq::empty() },
            ),
        }),
{
}

/// Unless told otherwise, two shells are allowed and ten rules deny, nine ways
/// to remove the root among them.
pub proof fn removing_the_root_is_denied()
    ensures
        default_shells() == seq!["sh"@, "bash"@],
        default_denied().len() == 10,
        default_denied().contains("rm -rf /"@),
        default_denied().contains("rm -fr /"@),
        default_denied().contains("rm -r -f /"@),
        default_denied().contains("rm -f -r /"@),
        default_denied().contains("rm --recursive --force /"@),
        default_denied().contains("rm --force --recursive /"@),
        default_denied().contains("rm -rf /*"@),
        default_denied().contains("rm -fr /*"@),
        default_denied().contains("rm -r -f /*"@),
        default_denied().contains(":(){:|:&};:"@),
{
    let all = default_denied();
    assert(all[0] == "rm -rf /"@ && all[1] == "rm -fr /"@ && all[2] == "rm -r -f /"@ && all[3]
        == "rm -f -r /"@ && all[4] == "rm --recursive --force /"@ && all[5]
        == "rm --force --recursive /"@ && all[6] == "rm -rf /*"@ && all[7] == "rm -fr /*"@
        && all[8] == "rm -r -f /*"@ && all[9] == ":(){:|:&};:"@);
}

/// A text with even spacing has the words that it had, with one space between
/// them and none at its ends.
pub proof fn evening_keeps_the_words(text: Seq<char>)
    ensures
        text::words(evened(text)) == text::words(text),
        evened(text) == text::joined(text::words(text), seq![' ']),
{
    reveal_strlit(" ");
    assert(" "@ =~= seq![' ']);
    text::words_are_solid(text);
    lemma_words_of_joined(text::words(text));
}

proof fn lemma_words_of_joined(list: Seq<Seq<char>>)
    requires
        forall|k: int| 0 <= k < list.len() ==> (#[trigger] list[k]).len() > 0,
        forall|k: int, i: int|
            0 <= k < list.len() && 0 <= i < list[k].len() ==> !text::white(#[trigger] list[k][i]),
    ensures
        text::words(text::joined(list, seq![' '])) == list,
    decreases list.len(),
{
    let none = Seq::<char>::empty();
    text::white_space_parts_words(none, ' ', none);
    text::printed_characters_are_not_white('a');
    if list.len() == 0 {
        assert(text::joined(list, seq![' ']) =~= none);
        assert(list =~= Seq::<Seq<char>>::empty());
    } else {
        let last = list.last();
        assert(last == list[list.len() - 1]);
        assert forall|i: int| 0 <= i < last.len() implies !text::white(#[trigger] last[i]) by {
            assert(!text::white(list[list.len() - 1][i]));
        }
        text::white_space_parts_words(last, ' ', none);
        if list.len() == 1 {
            assert(list =~= seq![last]);
        } else {
            let fewer = list.drop_last();
            assert forall|k: int| 0 <= k < fewer.len() implies (#[trigger] fewer[k]).len() > 0 by {
                assert(fewer[k] == list[k]);
            }
            assert forall|k: int, i: int|
                0 <= k < fewer.len() && 0 <= i < fewer[k].len() implies !text::white(
                #[trigger] fewer[k][i],
            ) by {
                assert(!text::white(list[k][i]));
            }
            lemma_words_of_joined(fewer);
            let head = text::joined(fewer, seq![' ']);
            text::white_space_parts_words(head, ' ', last);
            assert(head + seq![' '] + last =~= head.push(' ') + last);
            assert(fewer + seq![last] =~= list);
        }
    }
}

} // verus!
