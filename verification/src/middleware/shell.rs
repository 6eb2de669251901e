//! Shell commands and paths, read without running or touching anything.

use vstd::prelude::*;

use crate::text;

verus! {

// ---------------------------------------------------------------------------
// Words of a command
// ---------------------------------------------------------------------------

/// Which quotes a character stands in.
#[derive(Debug, Clone, Copy, PartialEq, Eq, Structural)]
pub enum Quoting {
    Bare,
    Single,
    Double,
}

/// How far a command has been read.
pub struct Reading {
    /// The words that are complete.
    pub words: Seq<Seq<char>>,
    /// The word that is being read, where one is.
    pub current: Option<Seq<char>>,
    pub quoting: Quoting,
    /// Whether a backslash stands right before.
    pub escaped: bool,
}

/// The word that is being read, empty where none is.
pub open spec fn begun(r: Reading) -> Seq<char> {
    match r.current {
        Some(w) => w,
        None => Seq::empty(),
    }
}

/// The reading with one more character in its word.
pub open spec fn extended(r: Reading, c: char) -> Reading {
    Reading { current: Some(begun(r).push(c)), escaped: false, ..r }
}

/// Whether a backslash takes its meaning from a character in double quotes.
pub open spec fn escapable(c: char) -> bool {
    c == '"' || c == '\\' || c == '$' || c == '`'
}

/// The reading after one more character. White space ends a word outside of
/// quotes; single quotes take everything as it is; and a backslash takes its
/// meaning from the next character, inside double quotes only from a few.
pub open spec fn reads(r: Reading, c: char) -> Reading {
    if r.escaped {
        if r.quoting == Quoting::Double && !escapable(c) {
            extended(extended(r, '\\'), c)
        } else {
            extended(r, c)
        }
    } else {
        match r.quoting {
            Quoting::Single => if c == '\'' {
                Reading { quoting: Quoting::Bare, ..r }
            } else {
                extended(r, c)
            },
            Quoting::Double => if c == '"' {
                Reading { quoting: Quoting::Bare, ..r }
            } else if c == '\\' {
                Reading { escaped: true, ..r }
            } else {
                extended(r, c)
            },
            Quoting::Bare => if text::white(c) {
                match r.current {
                    Some(w) => Reading { words: r.words.push(w), current: None, ..r },
                    None => r,
                }
            } else if c == '\'' {
                Reading { current: Some(begun(r)), quoting: Quoting::Single, ..r }
            } else if c == '"' {
                Reading { current: Some(begun(r)), quoting: Quoting::Double, ..r }
            } else if c == '\\' {
                Reading { current: Some(begun(r)), escaped: true, ..r }
            } else {
                extended(r, c)
            },
        }
    }
}

/// The reading of the first `n` characters.
pub open spec fn reading(command: Seq<char>, n: nat) -> Reading
    decreases n,
{
    if n == 0 {
        Reading {
            words: Seq::empty(),
            current: None,
            quoting: Quoting::Bare,
            escaped: false,
        }
    } else {
        reads(reading(command, (n - 1) as nat), command[n - 1])
    }
}

/// Whether a quote is still open at the end of a command.
pub open spec fn unbalanced(command: Seq<char>) -> bool {
    reading(command, command.len()).quoting != Quoting::Bare
}

/// The words of a command whose quotes are balanced. A backslash at the very
/// end stands for itself.
pub open spec fn command_words(command: Seq<char>) -> Seq<Seq<char>> {
    let r = reading(command, command.len());
    match r.current {
        Some(w) => r.words.push(
            if r.escaped {
                w.push('\\')
            } else {
                w
            },
        ),
        None => r.words,
    }
}

/// What is said of a command whose quotes are not balanced.
pub const UNBALANCED: &'static str = "unbalanced quote";

/// The words of a command, by the quoting rules of a shell.
pub fn shell_words(command: &str) -> (r: Result<Vec<String>, String>)
    ensures
        match r {
            Ok(words) => !unbalanced(command@) && text::texts(words@) == command_words(command@),
            Err(reason) => unbalanced(command@) && reason@ == UNBALANCED@,
        },
{
    let chars = text::chars_of(command);
    let mut words: Vec<String> = Vec::new();
    let mut word = String::new();
    let mut has_word = false;
    let mut quoting = Quoting::Bare;
    let mut escaped = false;
    let mut i: usize = 0;
    assert(text::texts(words@) =~= Seq::<Seq<char>>::empty());
    assert(word@ =~= Seq::<char>::empty());
    while i < chars.len()
        invariant
            i <= chars.len(),
            chars@ == command@,
            !has_word ==> word@ == Seq::<char>::empty(),
            reading(command@, i as nat) == (Reading {
                words: text::texts(words@),
                current: if has_word {
                    Some(word@)
                } else {
                    None
                },
                quoting,
                escaped,
            }),
        decreases chars.len() - i,
    {
        let c = chars[i];
        let ghost before = reading(command@, i as nat);
        assert(reading(command@, (i + 1) as nat) == reads(before, c));
        if escaped {
            if quoting == Quoting::Double && !(c == '"' || c == '\\' || c == '$' || c == '`') {
                word.push('\\');
            }
            word.push(c);
            has_word = true;
            escaped = false;
        } else {
            match quoting {
                Quoting::Single => {
                    if c == '\'' {
                        quoting = Quoting::Bare;
                    } else {
                        word.push(c);
                        has_word = true;
                    }
                },
                Quoting::Double => {
                    if c == '"' {
                        quoting = Quoting::Bare;
                    } else if c == '\\' {
                        escaped = true;
                    } else {
                        word.push(c);
                        has_word = true;
                    }
                },
                Quoting::Bare => {
                    if text::is_white(c) {
                        if has_word {
                            text::push_to_list(&mut words, word.as_str());
                            word = String::new();
                            has_word = false;
                            assert(word@ =~= Seq::<char>::empty());
                        }
                    } else if c == '\'' {
                        quoting = Quoting::Single;
                        has_word = true;
                    } else if c == '"' {
                        quoting = Quoting::Double;
                        has_word = true;
                    } else if c == '\\' {
                        escaped = true;
                        has_word = true;
                    } else {
                        word.push(c);
                        has_word = true;
                    }
                },
            }
        }
        i = i + 1;
    }
    if quoting != Quoting::Bare {
        return Err(String::from_str(UNBALANCED));
    }
    if has_word {
        if escaped {
            word.push('\\');
        }
        text::push_to_list(&mut words, word.as_str());
    }
    Ok(words)
}

/// Whether a character has a meaning to the quoting rules.
pub open spec fn quotes(c: char) -> bool {
    c == '\'' || c == '"' || c == '\\'
}

/// A command without quotes or backslashes is split at white space, and is
/// always balanced.
pub proof fn plain_commands_split_at_white_space(command: Seq<char>)
    requires
        forall|i: int| 0 <= i < command.len() ==> !quotes(#[trigger] command[i]),
    ensures
        !unbalanced(command),
        command_words(command) == text::words(command),
{
    lemma_plain_reading(command, command.len());
    lemma_plain_rest(command, command.len());
    assert(command.skip(command.len() as int) =~= Seq::<char>::empty());
    let r = reading(command, command.len());
    assert(after_reading(r, Seq::empty()) == command_words(command)) by {
        if let Some(w) = r.current {
            assert(w + Seq::<char>::empty() =~= w);
            lemma_one_word(w);
            assert(r.words + seq![w] =~= r.words.push(w));
        } else {
            assert(text::words(Seq::<char>::empty()) =~= Seq::<Seq<char>>::empty());
            assert(r.words + Seq::<Seq<char>>::empty() =~= r.words);
        }
    }
}

/// The words of what was read and of what is left, by white space alone.
spec fn after_reading(r: Reading, rest: Seq<char>) -> Seq<Seq<char>> {
    match r.current {
        Some(w) => r.words + text::words(w + rest),
        None => r.words + text::words(rest),
    }
}

spec fn solid(w: Seq<char>) -> bool {
    forall|i: int| 0 <= i < w.len() ==> !text::white(#[trigger] w[i])
}

proof fn lemma_one_word(w: Seq<char>)
    requires
        solid(w),
        w.len() > 0,
    ensures
        text::words(w) == seq![w],
{
    lemma_word_length_of(w, Seq::empty());
    assert(w + Seq::<char>::empty() =~= w);
    assert(w.take(w.len() as int) =~= w);
    assert(w.skip(w.len() as int) =~= Seq::<char>::empty());
    assert(text::words(Seq::<char>::empty()) =~= Seq::<Seq<char>>::empty());
    assert(seq![w] + Seq::<Seq<char>>::empty() =~= seq![w]);
}

/// A solid start followed by white space, or by nothing, is a whole word.
proof fn lemma_word_length_of(w: Seq<char>, rest: Seq<char>)
    requires
        solid(w),
        rest.len() == 0 || text::white(rest[0]),
    ensures
        text::word_length(w + rest) == w.len(),
    decreases w.len(),
{
    if w.len() == 0 {
        assert(w + rest =~= rest);
    } else {
        let less = w.skip(1);
        assert forall|i: int| 0 <= i < less.len() implies !text::white(#[trigger] less[i]) by {
            assert(less[i] == w[i + 1]);
        }
        lemma_word_length_of(less, rest);
        assert((w + rest).skip(1) =~= less + rest);
        assert((w + rest)[0] == w[0]);
    }
}

proof fn lemma_plain_reading(command: Seq<char>, n: nat)
    requires
        n <= command.len(),
        forall|i: int| 0 <= i < command.len() ==> !quotes(#[trigger] command[i]),
    ensures
        ({
            let r = reading(command, n);
            &&& r.quoting == Quoting::Bare
            &&& !r.escaped
            &&& r.current is Some ==> r.current->0.len() > 0 && solid(r.current->0)
        }),
    decreases n,
{
    if n > 0 {
        lemma_plain_reading(command, (n - 1) as nat);
        assert(!quotes(command[n - 1]));
    }
}

proof fn lemma_plain_rest(command: Seq<char>, n: nat)
    requires
        n <= command.len(),
        forall|i: int| 0 <= i < command.len() ==> !quotes(#[trigger] command[i]),
    ensures
        text::words(command) == after_reading(reading(command, n), command.skip(n as int)),
    decreases n,
{
    if n == 0 {
        assert(command.skip(0) =~= command);
        assert(Seq::<Seq<char>>::empty() + text::words(command) =~= text::words(command));
    } else {
        lemma_plain_rest(command, (n - 1) as nat);
        lemma_plain_reading(command, (n - 1) as nat);
        let before = reading(command, (n - 1) as nat);
        let after = reading(command, n);
        let c = command[n - 1];
        assert(!quotes(c));
        let long = command.skip(n - 1);
        let rest = command.skip(n as int);
        assert(long[0] == c);
        assert(long.skip(1) =~= rest);
        if text::white(c) {
            lemma_white_start(long);
            match before.current {
                Some(w) => {
                    lemma_word_length_of(w, long);
                    assert((w + long).take(w.len() as int) =~= w);
                    assert((w + long).skip(w.len() as int) =~= long);
                    assert((w + long)[0] == w[0]);
                    assert(text::words(w + long) == seq![w] + text::words(long));
                    assert(before.words + (seq![w] + text::words(rest)) =~= before.words.push(w)
                        + text::words(rest));
                },
                None => {},
            }
        } else {
            match before.current {
                Some(w) => {
                    assert(w + long =~= w.push(c) + rest);
                },
                None => {
                    assert(Seq::<char>::empty().push(c) + rest =~= long);
                },
            }
        }
    }
}

proof fn lemma_white_start(long: Seq<char>)
    requires
        long.len() > 0,
        text::white(long[0]),
    ensures
        text::words(long) == text::words(long.skip(1)),
{
}

/// The shells whose `-c` runs a command inside a command.
pub open spec fn is_shell(name: Seq<char>) -> bool {
    ||| name == "sh"@
    ||| name == "bash"@
    ||| name == "dash"@
    ||| name == "zsh"@
    ||| name == "ksh"@
    ||| name == "csh"@
    ||| name == "tcsh"@
    ||| name == "fish"@
}

/// Whether words are a shell, `-c` and what follows.
pub open spec fn wraps(words: Seq<Seq<char>>) -> bool {
    words.len() >= 2 && is_shell(words[0]) && words[1] == "-c"@
}

/// Whether words are a shell, `-c` and what follows.
pub fn is_wrapped_shell(words: &Vec<String>) -> (r: bool)
    ensures
        r == wraps(text::texts(words@)),
{
    if words.len() < 2 {
        return false;
    }
    let name = words[0].as_str();
    assert(text::texts(words@)[0] == name@);
    assert(text::texts(words@)[1] == words@[1]@);
    let known = text::same_text(name, "sh") || text::same_text(name, "bash") || text::same_text(
        name,
        "dash",
    ) || text::same_text(name, "zsh") || text::same_text(name, "ksh") || text::same_text(
        name,
        "csh",
    ) || text::same_text(name, "tcsh") || text::same_text(name, "fish");
    known && text::same_text(words[1].as_str(), "-c")
}

// ---------------------------------------------------------------------------
// Paths
// ---------------------------------------------------------------------------

/// Whether a path starts at the root.
pub open spec fn is_absolute(path: Seq<char>) -> bool {
    path.len() > 0 && path[0] == '/'
}

/// The components of a path, as they are written, after those of the directory
/// that a relative one starts from.
pub open spec fn written(cwd: Seq<char>, path: Seq<char>) -> Seq<Seq<char>> {
    if is_absolute(path) {
        text::pieces(path, '/')
    } else {
        text::pieces(cwd, '/') + text::pieces(path, '/')
    }
}

/// The directories that the first `n` components lead through: an empty one
/// and a single dot change nothing, two dots lead back, at the root nowhere.
pub open spec fn walked(parts: Seq<Seq<char>>, n: nat) -> Seq<Seq<char>>
    decreases n,
{
    if n == 0 {
        Seq::empty()
    } else {
        let before = walked(parts, (n - 1) as nat);
        let part = parts[n - 1];
        if part.len() == 0 || part == "."@ {
            before
        } else if part == ".."@ {
            if before.len() == 0 {
                before
            } else {
                before.drop_last()
            }
        } else {
            before.push(part)
        }
    }
}

/// The components of a path from the root on.
pub open spec fn components(cwd: Seq<char>, path: Seq<char>) -> Seq<Seq<char>> {
    walked(written(cwd, path), written(cwd, path).len())
}

/// The path with these components from the root on.
pub open spec fn rooted(parts: Seq<Seq<char>>) -> Seq<char> {
    "/"@ + text::joined(parts, "/"@)
}

/// The components of a path from the root on.
pub fn path_components(cwd: &str, path: &str) -> (out: Vec<String>)
    ensures
        text::texts(out@) == components(cwd@, path@),
{
    let chars = text::chars_of(path);
    let mut parts: Vec<String> = Vec::new();
    assert(text::texts(parts@) =~= Seq::<Seq<char>>::empty());
    if chars.len() == 0 || chars[0] != '/' {
        parts = text::split_at_mark(cwd, '/');
    }
    let ghost head = text::texts(parts@);
    let own = text::split_at_mark(path, '/');
    let mut k: usize = 0;
    assert(head + text::texts(own@).take(0) =~= head);
    while k < own.len()
        invariant
            k <= own.len(),
            text::texts(parts@) == head + text::texts(own@).take(k as int),
        decreases own.len() - k,
    {
        assert(text::texts(own@).take(k + 1) =~= text::texts(own@).take(k as int).push(
            own@[k as int]@,
        ));
        assert((head + text::texts(own@).take(k as int)).push(own@[k as int]@) =~= head
            + text::texts(own@).take(k + 1));
        text::push_to_list(&mut parts, own[k].as_str());
        k = k + 1;
    }
    assert(text::texts(own@).take(k as int) =~= text::texts(own@));
    let ghost all = written(cwd@, path@);
    assert(text::texts(parts@) =~= all);
    let mut out: Vec<String> = Vec::new();
    let mut i: usize = 0;
    assert(text::texts(out@) =~= Seq::<Seq<char>>::empty());
    while i < parts.len()
        invariant
            i <= parts.len(),
            text::texts(parts@) == all,
            text::texts(out@) == walked(all, i as nat),
        decreases parts.len() - i,
    {
        assert(all[i as int] == parts@[i as int]@);
        let part = parts[i].as_str();
        if text::chars_of(part).len() == 0 || text::same_text(part, ".") {
        } else if text::same_text(part, "..") {
            if out.len() > 0 {
                let ghost before = out@;
                let _gone = out.pop();
                assert(text::texts(out@) =~= text::texts(before).drop_last());
            }
        } else {
            text::push_to_list(&mut out, part);
        }
        i = i + 1;
    }
    out
}

/// The one spelling of a path, from the root on.
pub fn lexical_path(cwd: &str, path: &str) -> (out: String)
    ensures
        out@ == rooted(components(cwd@, path@)),
{
    let parts = path_components(cwd, path);
    let mut out = String::from_str("/");
    let tail = text::join(&parts, "/");
    text::push_text(&mut out, tail.as_str());
    out
}

/// The directory that a path stands in; the root stands in none.
pub fn lexical_parent(cwd: &str, path: &str) -> (out: Option<String>)
    ensures
        match out {
            Some(p) => components(cwd@, path@).len() > 0 && p@ == rooted(
                components(cwd@, path@).drop_last(),
            ),
            None => components(cwd@, path@).len() == 0,
        },
{
    let mut parts = path_components(cwd, path);
    if parts.len() == 0 {
        return None;
    }
    let ghost before = parts@;
    let _last = parts.pop();
    assert(text::texts(parts@) =~= text::texts(before).drop_last());
    let mut out = String::from_str("/");
    let tail = text::join(&parts, "/");
    text::push_text(&mut out, tail.as_str());
    Some(out)
}

proof fn lemma_pieces_around_mark(a: Seq<char>, b: Seq<char>, mark: char)
    ensures
        text::pieces(a.push(mark) + b, mark) == text::pieces(a, mark) + text::pieces(b, mark),
    decreases a.len(),
{
    let whole = a.push(mark) + b;
    text::lemma_first_mark(a, mark);
    text::lemma_first_mark(whole, mark);
    let k = text::first_mark(a, mark) as int;
    let m = text::first_mark(whole, mark) as int;
    if k < a.len() {
        assert(m == k) by {
            assert(whole[k] == mark);
            if m < k {
                assert(whole[m] == a[m]);
            }
        }
        lemma_pieces_around_mark(a.skip(k + 1), b, mark);
        assert(whole.skip(k + 1) =~= a.skip(k + 1).push(mark) + b);
        assert(whole.take(k) =~= a.take(k));
        assert(seq![a.take(k)] + (text::pieces(a.skip(k + 1), mark) + text::pieces(b, mark)) =~= (
        seq![a.take(k)] + text::pieces(a.skip(k + 1), mark)) + text::pieces(b, mark));
    } else {
        assert(m == a.len()) by {
            assert(whole[a.len() as int] == mark);
            if m < a.len() {
                assert(whole[m] == a[m]);
            }
        }
        assert(whole.take(m) =~= a);
        assert(whole.skip(m + 1) =~= b);
    }
}

/// A relative path means the same as its directory's path, a slash and itself:
/// one file has one spelling, from wherever it is named.
pub proof fn relative_and_absolute_spellings_agree(
    cwd: Seq<char>,
    path: Seq<char>,
    elsewhere: Seq<char>,
)
    requires
        is_absolute(cwd),
        !is_absolute(path),
    ensures
        components(elsewhere, cwd.push('/') + path) == components(cwd, path),
{
    lemma_pieces_around_mark(cwd, path, '/');
    assert((cwd.push('/') + path)[0] == cwd[0]);
}

/// Whether a component is neither empty, nor dots, nor holds a slash.
spec fn plain(part: Seq<char>) -> bool {
    &&& part.len() > 0
    &&& part != "."@
    &&& part != ".."@
    &&& forall|i: int| 0 <= i < part.len() ==> #[trigger] part[i] != '/'
}

proof fn lemma_pieces_hold_no_mark(whole: Seq<char>, mark: char)
    ensures
        forall|k: int, i: int|
            #![trigger text::pieces(whole, mark)[k][i]]
            0 <= k < text::pieces(whole, mark).len() && 0 <= i < text::pieces(whole, mark)[k].len()
                ==> text::pieces(whole, mark)[k][i] != mark,
    decreases whole.len(),
{
    text::lemma_first_mark(whole, mark);
    let at = text::first_mark(whole, mark) as int;
    let all = text::pieces(whole, mark);
    if at < whole.len() {
        let rest = text::pieces(whole.skip(at + 1), mark);
        lemma_pieces_hold_no_mark(whole.skip(at + 1), mark);
        assert forall|k: int, i: int|
            #![trigger all[k][i]]
            0 <= k < all.len() && 0 <= i < all[k].len() implies all[k][i] != mark by {
            if k > 0 {
                assert(all[k] == rest[k - 1]);
                assert(rest[k - 1][i] != mark);
            }
        }
    }
}

proof fn lemma_walked_plain(parts: Seq<Seq<char>>, n: nat)
    requires
        n <= parts.len(),
        forall|k: int, i: int|
            #![trigger parts[k][i]]
            0 <= k < parts.len() && 0 <= i < parts[k].len() ==> parts[k][i] != '/',
    ensures
        forall|k: int| 0 <= k < walked(parts, n).len() ==> plain(#[trigger] walked(parts, n)[k]),
    decreases n,
{
    if n > 0 {
        lemma_walked_plain(parts, (n - 1) as nat);
        let before = walked(parts, (n - 1) as nat);
        let now = walked(parts, n);
        assert forall|k: int| 0 <= k < now.len() implies plain(#[trigger] now[k]) by {
            if k < before.len() && now[k] == before[k] {
                assert(plain(before[k]));
            } else {
                assert(now[k] == parts[n - 1]);
                assert forall|i: int| 0 <= i < now[k].len() implies #[trigger] now[k][i] != '/' by {
                    assert(parts[n - 1][i] != '/');
                }
            }
        }
    }
}

proof fn lemma_pieces_of_joined(parts: Seq<Seq<char>>)
    requires
        parts.len() > 0,
        forall|k: int| 0 <= k < parts.len() ==> plain(#[trigger] parts[k]),
    ensures
        text::pieces(text::joined(parts, "/"@), '/') == parts,
    decreases parts.len(),
{
    reveal_strlit("/");
    assert("/"@ =~= seq!['/']);
    let last = parts.last();
    assert(plain(parts[parts.len() - 1]));
    text::lemma_first_mark(last, '/');
    assert(text::pieces(last, '/') =~= seq![last]) by {
        let k = text::first_mark(last, '/') as int;
        if k < last.len() {
            assert(last[k] == '/');
        }
    }
    if parts.len() == 1 {
        assert(parts =~= seq![parts[0]]);
    } else {
        let less = parts.drop_last();
        assert forall|k: int| 0 <= k < less.len() implies plain(#[trigger] less[k]) by {
            assert(plain(parts[k]));
        }
        lemma_pieces_of_joined(less);
        let head = text::joined(less, "/"@);
        lemma_pieces_around_mark(head, last, '/');
        assert(head.push('/') + last =~= head + "/"@ + last);
        assert(less + seq![last] =~= parts);
    }
}

proof fn lemma_plain_parts_are_kept(lead: Seq<char>, parts: Seq<Seq<char>>, n: nat)
    requires
        lead.len() == 0,
        n <= parts.len(),
        forall|k: int| 0 <= k < parts.len() ==> plain(#[trigger] parts[k]),
    ensures
        walked(seq![lead] + parts, (n + 1) as nat) == parts.take(n as int),
    decreases n,
{
    let all = seq![lead] + parts;
    if n == 0 {
        assert(all[0] == lead);
        assert(walked(all, 0) =~= Seq::<Seq<char>>::empty());
        assert(parts.take(0) =~= Seq::<Seq<char>>::empty());
    } else {
        lemma_plain_parts_are_kept(lead, parts, (n - 1) as nat);
        assert(all[n as int] == parts[n - 1]);
        assert(plain(parts[n - 1]));
        assert(parts.take(n - 1).push(parts[n - 1]) =~= parts.take(n as int));
    }
}

/// A path in its one spelling stays as it is, from wherever it is read.
pub proof fn one_spelling_is_final(cwd: Seq<char>, path: Seq<char>, elsewhere: Seq<char>)
    ensures
        components(elsewhere, rooted(components(cwd, path))) == components(cwd, path),
{
    reveal_strlit("/");
    assert("/"@ =~= seq!['/']);
    let parts = components(cwd, path);
    let all = written(cwd, path);
    lemma_pieces_hold_no_mark(path, '/');
    lemma_pieces_hold_no_mark(cwd, '/');
    assert forall|k: int, i: int|
        #![trigger all[k][i]]
        0 <= k < all.len() && 0 <= i < all[k].len() implies all[k][i] != '/' by {
        let c = text::pieces(cwd, '/');
        let p = text::pieces(path, '/');
        if is_absolute(path) {
            assert(p[k][i] != '/');
        } else if k < c.len() {
            assert(c[k][i] != '/');
        } else {
            assert(p[k - c.len()][i] != '/');
        }
    }
    lemma_walked_plain(all, all.len());
    let body = text::joined(parts, "/"@);
    let none = Seq::<char>::empty();
    let whole = rooted(parts);
    assert(whole =~= none.push('/') + body);
    lemma_pieces_around_mark(none, body, '/');
    assert(text::pieces(none, '/') =~= seq![none]);
    assert(whole[0] == '/');
    if parts.len() == 0 {
        assert(body =~= none);
        let both = seq![none] + seq![none];
        assert(both[0] == none && both[1] == none);
        assert(walked(both, 0) =~= Seq::<Seq<char>>::empty());
        assert(walked(both, 1) =~= Seq::<Seq<char>>::empty());
        assert(walked(both, 2) =~= Seq::<Seq<char>>::empty());
        assert(parts =~= Seq::<Seq<char>>::empty());
    } else {
        lemma_pieces_of_joined(parts);
        lemma_plain_parts_are_kept(none, parts, parts.len());
        assert(parts.take(parts.len() as int) =~= parts);
    }
}

/// Between single quotes everything stands for itself and belongs to one word.
pub proof fn single_quotes_keep_everything(command: Seq<char>, from: nat, to: nat)
    requires
        from < to < command.len(),
        reading(command, from).quoting == Quoting::Bare,
        !reading(command, from).escaped,
        command[from as int] == '\'',
        command[to as int] == '\'',
        forall|i: int| from < i < to ==> #[trigger] command[i] != '\'',
    ensures
        reading(command, to + 1) == (Reading {
            words: reading(command, from).words,
            current: Some(begun(reading(command, from)) + command.subrange(from as int + 1, to as int)),
            quoting: Quoting::Bare,
            escaped: false,
        }),
{
    lemma_in_single_quotes(command, from, to);
}

proof fn lemma_in_single_quotes(command: Seq<char>, from: nat, to: nat)
    requires
        from < to <= command.len(),
        reading(command, from).quoting == Quoting::Bare,
        !reading(command, from).escaped,
        command[from as int] == '\'',
        forall|i: int| from < i < to ==> #[trigger] command[i] != '\'',
    ensures
        reading(command, to) == (Reading {
            words: reading(command, from).words,
            current: Some(begun(reading(command, from)) + command.subrange(from as int + 1, to as int)),
            quoting: Quoting::Single,
            escaped: false,
        }),
    decreases to - from,
{
    let start = begun(reading(command, from));
    if to == from + 1 {
        assert(start + command.subrange(from as int + 1, to as int) =~= start);
        lemma_not_white();
    } else {
        lemma_in_single_quotes(command, from, (to - 1) as nat);
        assert((start + command.subrange(from as int + 1, to - 1)).push(command[to - 1]) =~= start
            + command.subrange(from as int + 1, to as int));
    }
}

/// None of the marks of the quoting rules is white space.
proof fn lemma_not_white()
    ensures
        !text::white('\''),
        !text::white('"'),
        !text::white('\\'),
{
    text::printed_characters_are_not_white('\'');
    text::printed_characters_are_not_white('"');
    text::printed_characters_are_not_white('\\');
}

/// Between double quotes everything but a backslash stands for itself and
/// belongs to one word.
pub proof fn double_quotes_keep_what_is_plain(command: Seq<char>, from: nat, to: nat)
    requires
        from < to < command.len(),
        reading(command, from).quoting == Quoting::Bare,
        !reading(command, from).escaped,
        command[from as int] == '"',
        command[to as int] == '"',
        forall|i: int| from < i < to ==> #[trigger] command[i] != '"' && command[i] != '\\',
    ensures
        reading(command, to + 1) == (Reading {
            words: reading(command, from).words,
            current: Some(begun(reading(command, from)) + command.subrange(from as int + 1, to as int)),
            quoting: Quoting::Bare,
            escaped: false,
        }),
{
    lemma_in_double_quotes(command, from, to);
}

proof fn lemma_in_double_quotes(command: Seq<char>, from: nat, to: nat)
    requires
        from < to <= command.len(),
        reading(command, from).quoting == Quoting::Bare,
        !reading(command, from).escaped,
        command[from as int] == '"',
        forall|i: int| from < i < to ==> #[trigger] command[i] != '"' && command[i] != '\\',
    ensures
        reading(command, to) == (Reading {
            words: reading(command, from).words,
            current: Some(begun(reading(command, from)) + command.subrange(from as int + 1, to as int)),
            quoting: Quoting::Double,
            escaped: false,
        }),
    decreases to - from,
{
    let start = begun(reading(command, from));
    if to == from + 1 {
        assert(start + command.subrange(from as int + 1, to as int) =~= start);
        lemma_not_white();
    } else {
        lemma_in_double_quotes(command, from, (to - 1) as nat);
        assert((start + command.subrange(from as int + 1, to - 1)).push(command[to - 1]) =~= start
            + command.subrange(from as int + 1, to as int));
    }
}

/// A backslash is left out and the character behind it stands for itself, be it
/// white space or a quote; in double quotes only before a double quote, a
/// backslash, a dollar sign or a backtick, and before anything else it stays.
pub proof fn a_backslash_frees_the_next_character(command: Seq<char>, n: nat)
    requires
        n + 1 < command.len(),
        command[n as int] == '\\',
        !reading(command, n).escaped,
    ensures
        ({
            let r = reading(command, n);
            let c = command[n as int + 1];
            let word = if r.current is Some {
                r.current->0
            } else {
                Seq::empty()
            };
            &&& r.quoting == Quoting::Bare ==> reading(command, n + 2) == (Reading {
                current: Some(word + seq![c]),
                ..r
            })
            &&& r.quoting == Quoting::Double && (c == '"' || c == '\\' || c == '$' || c == '`')
                ==> reading(command, n + 2) == (Reading { current: Some(word + seq![c]), ..r })
            &&& r.quoting == Quoting::Double && !(c == '"' || c == '\\' || c == '$' || c == '`')
                ==> reading(command, n + 2) == (Reading {
                current: Some(word + seq!['\\', c]),
                ..r
            })
            &&& r.quoting == Quoting::Single ==> reading(command, n + 1) == (Reading {
                current: Some(word + seq!['\\']),
                ..r
            })
        }),
{
    lemma_not_white();
    let r = reading(command, n);
    let c = command[n as int + 1];
    let next = reading(command, n + 1);
    assert(next == reads(r, '\\'));
    assert(reading(command, n + 2) == reads(next, c));
    let word = begun(r);
    assert(word + seq![c] =~= word.push(c));
    assert(word + seq!['\\'] =~= word.push('\\'));
    assert(word + seq!['\\', c] =~= word.push('\\').push(c));
}

/// White space outside of quotes ends the word before it, and between words
/// does nothing. Any other character but a quote or a backslash joins the word.
pub proof fn white_space_ends_a_word(command: Seq<char>, n: nat)
    requires
        n < command.len(),
        !reading(command, n).escaped,
        reading(command, n).quoting == Quoting::Bare,
    ensures
        reading(command, 0).words.len() == 0,
        reading(command, 0).current is None,
        reading(command, 0).quoting == Quoting::Bare,
        !reading(command, 0).escaped,
        ({
            let r = reading(command, n);
            let c = command[n as int];
            &&& text::white(c) && r.current is Some ==> reading(command, n + 1) == (Reading {
                words: r.words + seq![r.current->0],
                current: None,
                ..r
            })
            &&& text::white(c) && r.current is None ==> reading(command, n + 1) == r
            &&& !text::white(c) && c != '\'' && c != '"' && c != '\\' ==> reading(command, n + 1)
                == (Reading {
                current: Some(
                    if r.current is Some {
                        r.current->0 + seq![c]
                    } else {
                        seq![c]
                    },
                ),
                ..r
            })
        }),
{
    let r = reading(command, n);
    let c = command[n as int];
    assert(reading(command, n + 1) == reads(r, c));
    if let Some(w) = r.current {
        assert(w + seq![c] =~= w.push(c));
        assert(r.words + seq![w] =~= r.words.push(w));
    } else {
        assert(Seq::<char>::empty().push(c) =~= seq![c]);
    }
}

/// A command ends with the word that is being read, to which a backslash at the
/// very end still belongs. A quote that is never closed leaves it unbalanced.
pub proof fn the_last_word_counts(command: Seq<char>, from: nat)
    ensures
        ({
            let r = reading(command, command.len());
            &&& unbalanced(command) <==> r.quoting == Quoting::Single || r.quoting
                == Quoting::Double
            &&& r.current is None ==> command_words(command) == r.words
            &&& r.current is Some && !r.escaped ==> command_words(command) == r.words + seq![
                r.current->0,
            ]
            &&& r.current is Some && r.escaped ==> command_words(command) == r.words + seq![
                r.current->0 + seq!['\\'],
            ]
        }),
        from < command.len() && reading(command, from).quoting == Quoting::Bare && !reading(
            command,
            from,
        ).escaped && command[from as int] == '\'' && (forall|i: int|
            from < i < command.len() ==> #[trigger] command[i] != '\'') ==> unbalanced(command),
        from < command.len() && reading(command, from).quoting == Quoting::Bare && !reading(
            command,
            from,
        ).escaped && command[from as int] == '"' && (forall|i: int|
            from < i < command.len() ==> #[trigger] command[i] != '"' && command[i] != '\\')
            ==> unbalanced(command),
{
    let r = reading(command, command.len());
    if let Some(w) = r.current {
        assert(w + seq!['\\'] =~= w.push('\\'));
        assert(r.words + seq![w] =~= r.words.push(w));
        assert(r.words + seq![w.push('\\')] =~= r.words.push(w.push('\\')));
    }
    if from < command.len() && reading(command, from).quoting == Quoting::Bare && !reading(
        command,
        from,
    ).escaped {
        if command[from as int] == '\'' && (forall|i: int|
            from < i < command.len() ==> #[trigger] command[i] != '\'') {
            lemma_in_single_quotes(command, from, command.len());
        }
        if command[from as int] == '"' && (forall|i: int|
            from < i < command.len() ==> #[trigger] command[i] != '"' && command[i] != '\\') {
            lemma_in_double_quotes(command, from, command.len());
        }
    }
}

/// A command is handed to one of eight shells by `-c`.
pub proof fn eight_shells_are_known(words: Seq<Seq<char>>)
    ensures
        wraps(words) <==> words.len() >= 2 && seq![
            "sh"@,
            "bash"@,
            "dash"@,
            "zsh"@,
            "ksh"@,
            "csh"@,
            "tcsh"@,
            "fish"@,
        ].contains(words[0]) && words[1] == "-c"@,
{
    let list = seq!["sh"@, "bash"@, "dash"@, "zsh"@, "ksh"@, "csh"@, "tcsh"@, "fish"@];
    if words.len() >= 2 && is_shell(words[0]) {
        let name = words[0];
        assert(list[0] == "sh"@ && list[1] == "bash"@ && list[2] == "dash"@ && list[3] == "zsh"@
            && list[4] == "ksh"@ && list[5] == "csh"@ && list[6] == "tcsh"@ && list[7] == "fish"@);
        assert(exists|i: int| 0 <= i < list.len() && list[i] == name);
    }
}

/// A name leads one directory further, two dots behind it lead back, and an
/// empty component or a single dot leads nowhere; at the root, neither do two
/// dots.
pub proof fn two_dots_undo_a_name(parts: Seq<Seq<char>>, name: Seq<char>)
    requires
        name.len() > 0,
        name != "."@,
        name != ".."@,
    ensures
        ({
            let here = walked(parts, parts.len());
            &&& walked(parts.push(name), parts.len() + 1) == here.push(name)
            &&& walked(parts.push(name).push(".."@), parts.len() + 2) == here
            &&& walked(parts.push("."@), parts.len() + 1) == here
            &&& walked(parts.push(Seq::empty()), parts.len() + 1) == here
            &&& here.len() == 0 ==> walked(parts.push(".."@), parts.len() + 1) == here
            &&& here.len() > 0 ==> walked(parts.push(".."@), parts.len() + 1) == here.drop_last()
        }),
        walked(Seq::empty(), 0) == Seq::<Seq<char>>::empty(),
{
    let n = parts.len();
    let here = walked(parts, n);
    reveal_strlit(".");
    reveal_strlit("..");
    assert(".."@ != "."@) by {
        assert(".."@.len() == 2 && "."@.len() == 1);
    }
    lemma_same_start(parts, parts.push(name), n);
    let once = parts.push(name);
    assert(once[n as int] == name);
    assert(walked(once, n + 1) == here.push(name));
    let twice = once.push(".."@);
    lemma_same_start(once, twice, n + 1);
    assert(twice[n as int + 1] == ".."@);
    assert(walked(twice, n + 2) == here.push(name).drop_last());
    assert(here.push(name).drop_last() =~= here);
    let dot = parts.push("."@);
    lemma_same_start(parts, dot, n);
    assert(dot[n as int] == "."@);
    let none = parts.push(Seq::<char>::empty());
    lemma_same_start(parts, none, n);
    assert(none[n as int].len() == 0);
    let up = parts.push(".."@);
    lemma_same_start(parts, up, n);
    assert(up[n as int] == ".."@);
}

proof fn lemma_same_start(a: Seq<Seq<char>>, b: Seq<Seq<char>>, n: nat)
    requires
        n <= a.len(),
        n <= b.len(),
        forall|i: int| 0 <= i < n ==> a[i] == b[i],
    ensures
        walked(a, n) == walked(b, n),
    decreases n,
{
    if n > 0 {
        lemma_same_start(a, b, (n - 1) as nat);
        assert(a[n - 1] == b[n - 1]);
    }
}

/// A path that starts with a slash leads from the root, whatever directory it
/// is named in; any other from that directory on.
pub proof fn only_a_relative_path_starts_from_its_directory(cwd: Seq<char>, path: Seq<char>)
    ensures
        path.len() > 0 && path[0] == '/' ==> components(cwd, path) == walked(
            text::pieces(path, '/'),
            text::pieces(path, '/').len(),
        ),
        path.len() == 0 || path[0] != '/' ==> components(cwd, path) == walked(
            text::pieces(cwd, '/') + text::pieces(path, '/'),
            text::pieces(cwd, '/').len() + text::pieces(path, '/').len(),
        ),
        rooted(components(cwd, path)) == seq!['/'] + text::joined(components(cwd, path), seq!['/']),
{
    reveal_strlit("/");
    assert("/"@ =~= seq!['/']);
}

} // verus!
