//! The paths that a call writes to, read off its input.

use vstd::prelude::*;

use crate::json;
use crate::middleware::memo::PathExtractor;
use crate::middleware::shell;
use crate::selection;
use crate::text;

verus! {

/// The keys under which a path is looked for, in order.
pub open spec fn path_keys() -> Seq<Seq<char>> {
    seq!["path"@, "file_path"@, "filename"@, "filepath"@]
}

/// The keys under which a command is looked for, in order.
pub open spec fn command_keys() -> Seq<Seq<char>> {
    seq!["command"@, "cmd"@]
}

/// The keys under which a path is looked for.
pub fn path_fields() -> (keys: Vec<String>)
    ensures
        text::texts(keys@) == path_keys(),
{
    let mut keys: Vec<String> = Vec::new();
    text::push_to_list(&mut keys, "path");
    text::push_to_list(&mut keys, "file_path");
    text::push_to_list(&mut keys, "filename");
    text::push_to_list(&mut keys, "filepath");
    assert(text::texts(keys@) =~= path_keys());
    keys
}

/// The keys under which a command is looked for.
pub fn command_fields() -> (keys: Vec<String>)
    ensures
        text::texts(keys@) == command_keys(),
{
    let mut keys: Vec<String> = Vec::new();
    text::push_to_list(&mut keys, "command");
    text::push_to_list(&mut keys, "cmd");
    assert(text::texts(keys@) =~= command_keys());
    keys
}

/// The redirections, in the order in which they are tried.
pub open spec fn operators() -> Seq<Seq<char>> {
    seq![">>"@, "2>>"@, "2>"@, "1>>"@, "1>"@, "&>"@, ">&"@, ">"@]
}

fn redirect_operators() -> (list: Vec<String>)
    ensures
        text::texts(list@) == operators(),
{
    let mut list: Vec<String> = Vec::new();
    text::push_to_list(&mut list, ">>");
    text::push_to_list(&mut list, "2>>");
    text::push_to_list(&mut list, "2>");
    text::push_to_list(&mut list, "1>>");
    text::push_to_list(&mut list, "1>");
    text::push_to_list(&mut list, "&>");
    text::push_to_list(&mut list, ">&");
    text::push_to_list(&mut list, ">");
    assert(text::texts(list@) =~= operators());
    list
}

/// What follows the first of these prefixes that a word has and is not all of.
pub open spec fn rest_after(word: Seq<char>, prefixes: Seq<Seq<char>>) -> Option<Seq<char>>
    decreases prefixes.len(),
{
    if prefixes.len() == 0 {
        None
    } else if text::begins_with(word, prefixes[0]) && word.len() > prefixes[0].len() {
        Some(word.skip(prefixes[0].len() as int))
    } else {
        rest_after(word, prefixes.skip(1))
    }
}

/// The target that stands in the same word as its redirection.
pub open spec fn inline_target(word: Seq<char>) -> Option<Seq<char>> {
    if operators().contains(word) {
        None
    } else {
        rest_after(word, operators())
    }
}

/// Whether a target is a file: neither another descriptor nor a number.
pub open spec fn names_file(target: Seq<char>) -> bool {
    &&& !(target.len() > 0 && target[0] == '&')
    &&& exists|i: int| 0 <= i < target.len() && !('0' <= #[trigger] target[i] <= '9')
}

/// What the word at `i` writes to, where it is a redirection to a file.
pub open spec fn target_at(words: Seq<Seq<char>>, i: int) -> Option<Seq<char>> {
    match inline_target(words[i]) {
        Some(target) => if names_file(target) {
            Some(target)
        } else {
            None
        },
        None => if operators().contains(words[i]) && i + 1 < words.len() && names_file(
            words[i + 1],
        ) {
            Some(words[i + 1])
        } else {
            None
        },
    }
}

/// What the first `n` words write to.
pub open spec fn targets(words: Seq<Seq<char>>, n: nat) -> Seq<Seq<char>>
    decreases n,
{
    if n == 0 {
        Seq::empty()
    } else {
        let before = targets(words, (n - 1) as nat);
        match target_at(words, n - 1) {
            Some(target) => before.push(target),
            None => before,
        }
    }
}

/// The words of the command that a shell is told to run; the words themselves
/// where no shell is.
pub open spec fn payload(words: Seq<Seq<char>>) -> Seq<Seq<char>> {
    if !shell::wraps(words) {
        words
    } else if words.len() > 2 && !shell::unbalanced(words[2]) {
        shell::command_words(words[2])
    } else {
        Seq::empty()
    }
}

/// What a command writes to. A command that cannot be read writes to nothing
/// that is known.
pub open spec fn redirections(command: Seq<char>) -> Seq<Seq<char>> {
    if shell::unbalanced(command) {
        Seq::empty()
    } else {
        let words = payload(shell::command_words(command));
        targets(words, words.len())
    }
}

/// The target that stands in the same word as its redirection.
pub fn inline_redirect_target(word: &str) -> (target: Option<String>)
    ensures
        json::optional_text(target) == inline_target(word@),
{
    let list = redirect_operators();
    if text::list_contains(&list, word) {
        return None;
    }
    let ghost all = operators();
    let mut i: usize = 0;
    assert(all.skip(0) =~= all);
    while i < list.len()
        invariant
            i <= list.len(),
            all == text::texts(list@),
            all == operators(),
            !all.contains(word@),
            rest_after(word@, all) == rest_after(word@, all.skip(i as int)),
        decreases list.len() - i,
    {
        assert(all.skip(i as int)[0] == list@[i as int]@);
        if let Some(rest) = text::strip_prefix(word, list[i].as_str()) {
            if !rest.as_str().is_empty() {
                return Some(rest);
            }
        }
        assert(all.skip(i as int).skip(1) =~= all.skip(i + 1));
        i = i + 1;
    }
    None
}

/// Whether a target is a file.
pub fn is_file_target(target: &str) -> (r: bool)
    ensures
        r == names_file(target@),
{
    let chars = text::chars_of(target);
    if chars.len() > 0 && chars[0] == '&' {
        return false;
    }
    let mut i: usize = 0;
    while i < chars.len()
        invariant
            i <= chars.len(),
            chars@ == target@,
            forall|k: int| 0 <= k < i ==> '0' <= #[trigger] target@[k] <= '9',
            !(target@.len() > 0 && target@[0] == '&'),
        decreases chars.len() - i,
    {
        if !('0' <= chars[i] && chars[i] <= '9') {
            assert(!('0' <= target@[i as int] <= '9'));
            return true;
        }
        i = i + 1;
    }
    false
}

/// The words of the command that a shell is told to run.
pub fn unwrap_shell_payload(words: Vec<String>) -> (out: Vec<String>)
    ensures
        text::texts(out@) == payload(text::texts(words@)),
{
    if !shell::is_wrapped_shell(&words) {
        return words;
    }
    if words.len() > 2 {
        assert(text::texts(words@)[2] == words@[2]@);
        if let Ok(inner) = shell::shell_words(words[2].as_str()) {
            return inner;
        }
    }
    let none: Vec<String> = Vec::new();
    assert(text::texts(none@) =~= Seq::<Seq<char>>::empty());
    none
}

/// What a command writes to, as it is written.
pub fn redirection_targets(command: &str) -> (out: Vec<String>)
    ensures
        text::texts(out@) == redirections(command@),
{
    let mut out: Vec<String> = Vec::new();
    assert(text::texts(out@) =~= Seq::<Seq<char>>::empty());
    let words = match shell::shell_words(command) {
        Ok(words) => unwrap_shell_payload(words),
        Err(_) => return out,
    };
    let ghost all = text::texts(words@);
    let list = redirect_operators();
    let mut i: usize = 0;
    while i < words.len()
        invariant
            i <= words.len(),
            all == text::texts(words@),
            text::texts(list@) == operators(),
            text::texts(out@) == targets(all, i as nat),
        decreases words.len() - i,
    {
        assert(all[i as int] == words@[i as int]@);
        match inline_redirect_target(words[i].as_str()) {
            Some(target) => {
                if is_file_target(target.as_str()) {
                    text::push_to_list(&mut out, target.as_str());
                }
            },
            None => {
                if text::list_contains(&list, words[i].as_str()) && i + 1 < words.len() {
                    assert(all[i + 1] == words@[i + 1]@);
                    if is_file_target(words[i + 1].as_str()) {
                        text::push_to_list(&mut out, words[i + 1].as_str());
                    }
                }
            },
        }
        i = i + 1;
    }
    out
}

/// Paths in their one spelling.
pub open spec fn spelled(cwd: Seq<char>, paths: Seq<Seq<char>>) -> Seq<Seq<char>> {
    paths.map_values(|p: Seq<char>| shell::rooted(shell::components(cwd, p)))
}

/// The paths that a call touches: what its command writes to, or else the path
/// that it names.
pub open spec fn touched(input: Seq<char>, cwd: Seq<char>) -> Seq<Seq<char>> {
    match json::first_string(input, command_keys()) {
        Some(command) => spelled(cwd, redirections(command)),
        None => match json::first_string(input, path_keys()) {
            Some(path) => spelled(cwd, seq![path]),
            None => Seq::empty(),
        },
    }
}

/// Reads the paths that a call touches off its input.
#[derive(Debug, Clone, Copy)]
pub struct WritePathExtractor;

fn spell(cwd: &str, paths: &Vec<String>) -> (out: Vec<String>)
    ensures
        text::texts(out@) == spelled(cwd@, text::texts(paths@)),
{
    let ghost want = spelled(cwd@, text::texts(paths@));
    let mut out: Vec<String> = Vec::new();
    let mut i: usize = 0;
    assert(text::texts(out@) =~= want.take(0));
    while i < paths.len()
        invariant
            i <= paths.len(),
            want == spelled(cwd@, text::texts(paths@)),
            text::texts(out@) == want.take(i as int),
        decreases paths.len() - i,
    {
        let path = shell::lexical_path(cwd, paths[i].as_str());
        assert(text::texts(paths@)[i as int] == paths@[i as int]@);
        assert(want.take(i + 1) =~= want.take(i as int).push(path@));
        text::push_to_list(&mut out, path.as_str());
        i = i + 1;
    }
    assert(want.take(i as int) =~= want);
    out
}

/// The paths that a call touches.
pub fn touched_paths(input: &str, cwd: &str) -> (paths: Vec<String>)
    ensures
        text::texts(paths@) == touched(input@, cwd@),
{
    if let Some(command) = json::string_field(input, &command_fields()) {
        let written = redirection_targets(command.as_str());
        return spell(cwd, &written);
    }
    let mut named: Vec<String> = Vec::new();
    assert(text::texts(named@) =~= Seq::<Seq<char>>::empty());
    match json::string_field(input, &path_fields()) {
        Some(path) => {
            text::push_to_list(&mut named, path.as_str());
            assert(text::texts(named@) =~= seq![path@]);
            spell(cwd, &named)
        },
        None => named,
    }
}

impl PathExtractor for WritePathExtractor {
    fn paths(&self, tool_name: &str, input: &str) -> (paths: Vec<String>)
        ensures
            text::texts(paths@) == touched(input@, "."@),
    {
        touched_paths(input, ".")
    }

    fn paths_with_cwd(&self, tool_name: &str, input: &str, cwd: &str) -> (paths: Vec<String>)
        ensures
            text::texts(paths@) == touched(input@, cwd@),
    {
        touched_paths(input, cwd)
    }
}

/// A command without a redirection touches nothing.
pub proof fn without_a_redirection_nothing_is_touched(words: Seq<Seq<char>>, n: nat)
    requires
        n <= words.len(),
        forall|i: int| 0 <= i < n ==> inline_target(#[trigger] words[i]) is None
            && !operators().contains(words[i]),
    ensures
        targets(words, n) == Seq::<Seq<char>>::empty(),
    decreases n,
{
    if n > 0 {
        without_a_redirection_nothing_is_touched(words, (n - 1) as nat);
        assert(inline_target(words[n - 1]) is None);
    }
}

/// What a command writes to is a file, never another descriptor.
pub proof fn every_target_is_a_file(words: Seq<Seq<char>>, n: nat)
    requires
        n <= words.len(),
    ensures
        forall|k: int| 0 <= k < targets(words, n).len() ==> names_file(#[trigger] targets(words, n)[k]),
    decreases n,
{
    if n > 0 {
        every_target_is_a_file(words, (n - 1) as nat);
        let before = targets(words, (n - 1) as nat);
        let now = targets(words, n);
        assert forall|k: int| 0 <= k < now.len() implies names_file(#[trigger] now[k]) by {
            if k < before.len() {
                assert(now[k] == before[k]);
            }
        }
    }
}

/// The files that words write to are those that the redirections among them
/// name, in order: the result names the places of these redirections.
pub proof fn every_redirection_counts(words: Seq<Seq<char>>, n: nat) -> (places: Seq<int>)
    requires
        n <= words.len(),
    ensures
        selection::selects(places, n, |i: int| target_at(words, i) is Some),
        targets(words, n) == places.map_values(|i: int| target_at(words, i)->0),
    decreases n,
{
    let rule = |i: int| target_at(words, i) is Some;
    if n == 0 {
        selection::lemma_none(rule);
        let none = Seq::<int>::empty();
        assert(targets(words, 0) =~= none.map_values(|i: int| target_at(words, i)->0));
        none
    } else {
        let before = every_redirection_counts(words, (n - 1) as nat);
        selection::lemma_next(before, (n - 1) as nat, rule);
        let places = if rule(n - 1) {
            before.push(n - 1)
        } else {
            before
        };
        assert(targets(words, n) =~= places.map_values(|i: int| target_at(words, i)->0));
        places
    }
}

/// A target is a file unless it starts with an ampersand or is made of digits
/// alone, or of nothing.
pub proof fn a_number_is_no_file(target: Seq<char>)
    ensures
        target.len() == 0 ==> !names_file(target),
        target.len() > 0 && target[0] == '&' ==> !names_file(target),
        (forall|i: int| 0 <= i < target.len() ==> '0' <= #[trigger] target[i] <= '9')
            ==> !names_file(target),
        forall|i: int|
            0 <= i < target.len() && target[0] != '&' && !('0' <= #[trigger] target[i] <= '9')
                ==> names_file(target),
{
}

/// A redirection and its target may stand in one word or in two; either way the
/// target is what the redirection leaves of its word, or else the next word.
pub proof fn a_target_follows_its_redirection(words: Seq<Seq<char>>, i: int, target: Seq<char>)
    requires
        0 <= i < words.len(),
    ensures
        inline_target(words[i]) == Some(target) && names_file(target) ==> target_at(words, i)
            == Some(target),
        inline_target(words[i]) == Some(target) && !names_file(target) ==> target_at(words, i)
            is None,
        operators().contains(words[i]) && i + 1 < words.len() && names_file(words[i + 1])
            ==> target_at(words, i) == Some(words[i + 1]),
        operators().contains(words[i]) && (i + 1 == words.len() || !names_file(words[i + 1]))
            ==> target_at(words, i) is None,
        inline_target(words[i]) is None && !operators().contains(words[i]) ==> target_at(words, i)
            is None,
{
}

/// There are eight redirections, and what follows one of them in its word, and
/// does not itself go on with an angle bracket or an ampersand, is its target.
pub proof fn there_are_eight_redirections(target: Seq<char>, k: int)
    requires
        target.len() > 0,
        target[0] != '>',
        target[0] != '&',
        0 <= k < 8,
    ensures
        ({
            let list = seq![
                seq!['>'],
                seq!['>', '>'],
                seq!['1', '>'],
                seq!['1', '>', '>'],
                seq!['2', '>'],
                seq!['2', '>', '>'],
                seq!['&', '>'],
                seq!['>', '&'],
            ];
            &&& operators().len() == 8
            &&& operators().contains(list[k])
            &&& inline_target(list[k]) is None
            &&& inline_target(list[k] + target) == Some(target)
        }),
{
    lemma_operators();
    let list = seq![
        seq!['>'],
        seq!['>', '>'],
        seq!['1', '>'],
        seq!['1', '>', '>'],
        seq!['2', '>'],
        seq!['2', '>', '>'],
        seq!['&', '>'],
        seq!['>', '&'],
    ];
    let all = operators();
    let at: Seq<int> = seq![7, 0, 4, 3, 2, 1, 5, 6];
    assert(all[at[k]] == list[k]);
    let word = list[k] + target;
    assert(word[list[k].len() as int] == target[0]);
    assert forall|j: int| 0 <= j < 8 implies #[trigger] all[j] != word by {}
    assert(word.skip(list[k].len() as int) =~= target);
    assert(word.take(list[k].len() as int) =~= list[k]);
    assert forall|j: int| 0 <= j < at[k] implies !text::begins_with(word, #[trigger] all[j]) by {
        let p = all[j];
        if text::begins_with(word, p) {
            assert(p.len() <= word.len());
            assert(word.take(p.len() as int) == p);
            assert(p[0] == word[0]);
            assert(p[1] == word[1]);
            if p.len() == 3 {
                assert(p[2] == word[2]);
            }
        }
    }
    text::a_text_begins_with_its_first_part(list[k], target, target);
    the_first_prefix_is_taken_off(word, all, at[k]);
}

/// What is left of a word is what follows the first prefix that it has and is
/// not all of.
pub proof fn the_first_prefix_is_taken_off(word: Seq<char>, prefixes: Seq<Seq<char>>, k: int)
    requires
        0 <= k < prefixes.len(),
        text::begins_with(word, prefixes[k]),
        word.len() > prefixes[k].len(),
        forall|j: int|
            0 <= j < k ==> !text::begins_with(word, #[trigger] prefixes[j]) || word.len()
                <= prefixes[j].len(),
    ensures
        rest_after(word, prefixes) == Some(word.skip(prefixes[k].len() as int)),
    decreases k,
{
    if k > 0 {
        let rest = prefixes.skip(1);
        assert(!text::begins_with(word, prefixes[0]) || word.len() <= prefixes[0].len());
        assert forall|j: int| 0 <= j < k - 1 implies !text::begins_with(word, #[trigger] rest[j])
            || word.len() <= rest[j].len() by {
            assert(rest[j] == prefixes[j + 1]);
        }
        the_first_prefix_is_taken_off(word, rest, k - 1);
    }
}

/// A word without an angle bracket redirects nothing.
pub proof fn only_an_angle_bracket_redirects(word: Seq<char>)
    requires
        forall|i: int| 0 <= i < word.len() ==> #[trigger] word[i] != '>',
    ensures
        inline_target(word) is None,
        !operators().contains(word),
{
    lemma_operators();
    let all = operators();
    assert forall|j: int| 0 <= j < 8 implies (#[trigger] all[j]).contains('>') by {
        let p = all[j];
        if j == 0 || j == 6 || j == 7 {
            assert(p[0] == '>');
        } else {
            assert(p[1] == '>');
        }
    }
    lemma_no_prefix(word, all);
    if all.contains(word) {
        let j = choose|j: int| 0 <= j < all.len() && all[j] == word;
        assert(all[j].contains('>'));
    }
}

proof fn lemma_no_prefix(word: Seq<char>, prefixes: Seq<Seq<char>>)
    requires
        forall|i: int| 0 <= i < word.len() ==> #[trigger] word[i] != '>',
        forall|j: int| 0 <= j < prefixes.len() ==> (#[trigger] prefixes[j]).contains('>'),
    ensures
        rest_after(word, prefixes) is None,
    decreases prefixes.len(),
{
    if prefixes.len() > 0 {
        let p = prefixes[0];
        assert(p.contains('>'));
        if text::begins_with(word, p) {
            let i = choose|i: int| 0 <= i < p.len() && p[i] == '>';
            assert(word.take(p.len() as int)[i] == word[i]);
        }
        let rest = prefixes.skip(1);
        assert forall|j: int| 0 <= j < rest.len() implies (#[trigger] rest[j]).contains('>') by {
            assert(rest[j] == prefixes[j + 1]);
        }
        lemma_no_prefix(word, rest);
    }
}

proof fn lemma_operators()
    ensures
        operators().len() == 8,
        operators()[0] == seq!['>', '>'],
        operators()[1] == seq!['2', '>', '>'],
        operators()[2] == seq!['2', '>'],
        operators()[3] == seq!['1', '>', '>'],
        operators()[4] == seq!['1', '>'],
        operators()[5] == seq!['&', '>'],
        operators()[6] == seq!['>', '&'],
        operators()[7] == seq!['>'],
{
    reveal_strlit(">>");
    reveal_strlit("2>>");
    reveal_strlit("2>");
    reveal_strlit("1>>");
    reveal_strlit("1>");
    reveal_strlit("&>");
    reveal_strlit(">&");
    reveal_strlit(">");
    assert(">>"@ =~= seq!['>', '>']);
    assert("2>>"@ =~= seq!['2', '>', '>']);
    assert("2>"@ =~= seq!['2', '>']);
    assert("1>>"@ =~= seq!['1', '>', '>']);
    assert("1>"@ =~= seq!['1', '>']);
    assert("&>"@ =~= seq!['&', '>']);
    assert(">&"@ =~= seq!['>', '&']);
    assert(">"@ =~= seq!['>']);
}

/// A command runs by itself unless a shell is told to run it; a call with a
/// command touches what that writes to, and only one without touches the path
/// that it names. Each path counts in its one spelling.
pub proof fn a_command_comes_before_a_path(input: Seq<char>, cwd: Seq<char>, words: Seq<Seq<char>>)
    ensures
        !shell::wraps(words) ==> payload(words) == words,
        shell::wraps(words) && words.len() > 2 && !shell::unbalanced(words[2]) ==> payload(words)
            == shell::command_words(words[2]),
        shell::wraps(words) && (words.len() == 2 || shell::unbalanced(words[2])) ==> payload(words)
            == Seq::<Seq<char>>::empty(),
        json::first_string(input, seq!["command"@, "cmd"@]) matches Some(command) ==> {
            &&& shell::unbalanced(command) ==> touched(input, cwd).len() == 0
            &&& !shell::unbalanced(command) ==> {
                let run = payload(shell::command_words(command));
                let files = targets(run, run.len());
                &&& touched(input, cwd).len() == files.len()
                &&& forall|i: int|
                    0 <= i < files.len() ==> #[trigger] touched(input, cwd)[i] == shell::rooted(
                        shell::components(cwd, files[i]),
                    )
            }
        },
        json::first_string(input, seq!["command"@, "cmd"@]) is None ==> (match json::first_string(
            input,
            seq!["path"@, "file_path"@, "filename"@, "filepath"@],
        ) {
            Some(path) => touched(input, cwd) == seq![shell::rooted(shell::components(cwd, path))],
            None => touched(input, cwd).len() == 0,
        }),
{
    if json::first_string(input, command_keys()) is None {
        if let Some(path) = json::first_string(input, path_keys()) {
            assert(spelled(cwd, seq![path]) =~= seq![
                shell::rooted(shell::components(cwd, path)),
            ]);
        }
    }
}

} // verus!
