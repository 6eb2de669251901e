//! The lines of a memory file, its rewrites and its registration.

use loopctl::error::LoopError;
use loopctl::memory::entry::{MemoryCategory, MemoryEntry};
use loopctl::memory::file::{open_step, OpenStep};
use loopctl::memory::lines::{decode_line, settle_load, split_complete_lines, LineRead};
use loopctl::memory::registry::{
    absolute_resolved, begin_key, located, parent_resolved, KeyStage, Located, Migration, Registration,
    StoreRegistry, SYMLINK_FOLLOW_LIMIT,
};
use loopctl::memory::rewrite::{
    begin_rewrite, fail_next_rewrite_at, injected_fault_at, is_stale_sibling, removes_sibling,
    rewrite_step, rewrite_text, temp_sibling_path, RewriteError, RewriteEvent, RewriteFaultStage,
    RewriteFaults, RewriteStage,
};

fn split(bytes: &[u8]) -> (Vec<Vec<u8>>, Option<Vec<u8>>) {
    split_complete_lines(bytes)
}

#[test]
fn a_file_ending_in_a_newline_has_no_trailing_fragment() {
    let (complete, trailing) = split(b"one\ntwo\n");
    assert_eq!(complete, vec![b"one".to_vec(), b"two".to_vec()]);
    assert!(trailing.is_none(), "nothing follows the last newline");
}

#[test]
fn bytes_after_the_last_newline_form_the_fragment() {
    let (complete, trailing) = split(b"one\ntw");
    assert_eq!(complete, vec![b"one".to_vec()]);
    assert_eq!(trailing, Some(b"tw".to_vec()));
}

#[test]
fn a_file_with_no_newline_is_all_fragment() {
    let (complete, trailing) = split(b"torn");
    assert!(complete.is_empty(), "no newline means no complete line");
    assert_eq!(trailing, Some(b"torn".to_vec()));
}

#[test]
fn an_empty_file_yields_no_lines_and_no_fragment() {
    let (complete, trailing) = split(b"");
    assert!(complete.is_empty());
    assert!(trailing.is_none());
}

#[test]
fn blank_lines_do_not_reach_the_complete_list() {
    let (complete, trailing) = split(b"\n\none\n\n");
    assert_eq!(complete, vec![b"one".to_vec()]);
    assert!(trailing.is_none());
}

fn entry(text: &str) -> MemoryEntry {
    MemoryEntry::new(MemoryCategory::Fact, text.to_string(), 0)
}

fn good(text: &str) -> LineRead {
    LineRead::Text {
        line: format!("{{{text}}}"),
        parsed: Ok(entry(text)),
    }
}

fn bad(line: &str) -> LineRead {
    LineRead::Text {
        line: line.to_string(),
        parsed: Err("expected value".to_string()),
    }
}

fn load(lines: Vec<LineRead>, tail: Option<LineRead>) -> Result<(Vec<String>, bool), String> {
    match settle_load(&lines, &tail) {
        Ok((entries, torn)) => Ok((entries.into_iter().map(|e| e.memory).collect(), torn)),
        Err(LoopError::Memory(m)) => Err(m),
        Err(other) => panic!("unexpected {other:?}"),
    }
}

#[test]
fn load_entries_reports_a_missing_file_as_empty_and_intact() {
    let (entries, torn) = load(vec![], None).unwrap();
    assert!(entries.is_empty());
    assert!(!torn, "nothing was dropped, so there is nothing to repair");
}

#[test]
fn load_entries_flags_a_undecodable_trailing_fragment() {
    let (entries, torn) = load(vec![], Some(bad("{\"torn\""))).unwrap();
    assert!(entries.is_empty());
    assert!(torn, "the caller must repair a torn tail");
}

#[test]
fn load_entries_keeps_a_complete_undecodable_line_loud() {
    let loud = load(vec![bad("not json"), bad("valid later")], None).unwrap_err();
    assert_eq!(
        loud, "corrupt memory line 1: expected value",
        "a complete malformed line is corruption, not a torn tail"
    );
}

#[test]
fn a_load_skips_blanks_and_numbers_what_is_corrupt() {
    let (entries, torn) = load(vec![good("a"), bad("  \t"), good("b")], Some(good("c"))).unwrap();
    assert_eq!(entries, vec!["a", "b", "c"]);
    assert!(torn, "even a readable fragment lacks its newline");
    let loud = load(
        vec![good("a"), LineRead::NotUtf8("invalid byte".to_string())],
        None,
    )
    .unwrap_err();
    assert_eq!(loud, "corrupt memory line 2: not valid UTF-8: invalid byte");
    let (entries, torn) =
        load(vec![good("a")], Some(LineRead::NotUtf8("cut".to_string()))).unwrap();
    assert_eq!(entries, vec!["a"]);
    assert!(torn);
}

#[test]
fn temp_sibling_paths_are_unpredictable_and_well_shaped() {
    let first = temp_sibling_path("/tmp/memory.jsonl");
    let second = temp_sibling_path("/tmp/memory.jsonl");
    assert_ne!(first, second, "each rewrite gets its own name");
    assert!(first.starts_with("/tmp/memory.jsonl."));
    assert!(first.ends_with(".tmp"));
    let name = first.strip_prefix("/tmp/").unwrap();
    assert!(is_stale_sibling("memory.jsonl", name));
}

#[test]
fn only_our_own_siblings_are_swept() {
    let id = "01234567-89ab-4def-8123-456789abcdef";
    assert!(is_stale_sibling("m", &format!("m.{id}.tmp")));
    assert!(!is_stale_sibling("m", &format!("n.{id}.tmp")));
    assert!(!is_stale_sibling("m", &format!("m.{id}.bak")));
    assert!(!is_stale_sibling("m", "m.notes.tmp"));
    assert!(!is_stale_sibling("m", "m..tmp"));
    assert!(!is_stale_sibling("m", "m.tmp"));
    assert!(!is_stale_sibling("m", "m"));
}

fn outcome(stage: RewriteStage) -> Result<(), RewriteError> {
    match stage {
        RewriteStage::Done(outcome) => outcome,
        other => panic!("the rewrite is not over: {other:?}"),
    }
}

fn failed(why: &str) -> RewriteEvent {
    RewriteEvent::Failed(why.to_string())
}

fn before_commit(stage: RewriteStage) -> String {
    assert!(removes_sibling(&stage));
    match outcome(stage) {
        Err(RewriteError::PreCommit(LoopError::Memory(m))) => m,
        other => panic!("unexpected {other:?}"),
    }
}

#[test]
fn a_rewrite_goes_through_its_steps() {
    let mut stage = begin_rewrite(None);
    stage = rewrite_step(stage, RewriteEvent::Succeeded);
    assert!(matches!(stage, RewriteStage::Write));
    stage = rewrite_step(stage, RewriteEvent::Succeeded);
    assert!(matches!(stage, RewriteStage::Inspect));
    stage = rewrite_step(stage, RewriteEvent::Link(false));
    assert!(matches!(stage, RewriteStage::Rename));
    stage = rewrite_step(stage, RewriteEvent::Succeeded);
    assert!(matches!(stage, RewriteStage::Sync));
    assert!(!removes_sibling(&stage));
    stage = rewrite_step(stage, RewriteEvent::Succeeded);
    assert!(!removes_sibling(&stage));
    assert!(outcome(stage).is_ok());
}

#[test]
fn each_step_fails_with_its_own_words() {
    assert_eq!(
        before_commit(begin_rewrite(Some("bad float"))),
        "memory entry serialization failed: bad float"
    );
    assert_eq!(
        before_commit(rewrite_step(RewriteStage::Create, failed("denied"))),
        "cannot create rewrite temp file: denied"
    );
    assert_eq!(
        before_commit(rewrite_step(RewriteStage::Write, failed("full"))),
        "cannot write rewrite temp file: full"
    );
    assert_eq!(
        before_commit(rewrite_step(RewriteStage::Inspect, RewriteEvent::Link(true))),
        "memory file path resolves to a symlink; refusing to replace the link"
    );
    assert_eq!(
        before_commit(rewrite_step(RewriteStage::Rename, failed("busy"))),
        "cannot finalize memory rewrite: busy"
    );
    match outcome(rewrite_step(RewriteStage::Sync, failed("io"))) {
        Err(RewriteError::NotDurable(LoopError::Memory(m))) => {
            assert_eq!(m, "cannot sync directory after memory rewrite: io")
        }
        other => panic!("unexpected {other:?}"),
    }
    let stray = rewrite_step(RewriteStage::Rename, RewriteEvent::Link(true));
    assert!(matches!(stray, RewriteStage::Rename));
    let error = RewriteError::NotDurable(LoopError::Memory("m".to_string())).into_error();
    assert!(matches!(error, LoopError::Memory(_)));
}

#[test]
fn a_file_is_one_line_per_entry() {
    let lines = vec!["a".to_string(), "b".to_string()];
    assert_eq!(rewrite_text(&lines), "a\nb\n");
    assert_eq!(rewrite_text(&vec![]), "");
}

#[test]
fn a_file_that_was_rewritten_is_read_back_whole() {
    let lines = vec!["{\"a\":1}".to_string(), "\u{e9}\u{4e16}".to_string()];
    let text = rewrite_text(&lines);
    let (complete, tail) = split_complete_lines(text.as_bytes());
    assert_eq!(complete.len(), 2);
    assert_eq!(complete[0], lines[0].as_bytes());
    assert_eq!(complete[1], lines[1].as_bytes());
    assert!(tail.is_none());
}

#[test]
fn a_fault_that_was_set_strikes_once() {
    let mut faults = RewriteFaults::new();
    fail_next_rewrite_at(&mut faults, "/m".to_string(), RewriteFaultStage::TempCreate);
    fail_next_rewrite_at(&mut faults, "/m".to_string(), RewriteFaultStage::DirectorySync);
    assert!(!injected_fault_at(&mut faults, "/other", RewriteFaultStage::TempCreate));
    assert!(injected_fault_at(&mut faults, "/m", RewriteFaultStage::DirectorySync));
    assert!(!injected_fault_at(&mut faults, "/m", RewriteFaultStage::DirectorySync));
    assert!(injected_fault_at(&mut faults, "/m", RewriteFaultStage::TempCreate));
}

// ---------------------------------------------------------------------------
// Keys
// ---------------------------------------------------------------------------

/// A file system of links, files and directories, as the search sees it.
struct World {
    links: Vec<(String, String)>,
    files: Vec<String>,
    directories: Vec<String>,
}

fn key_of(world: &World, path: &str) -> (String, bool) {
    let mut stage = begin_key(path);
    loop {
        stage = match stage {
            KeyStage::Locate { current, follows } => {
                let found = if world.files.contains(&current) {
                    Located::Canonical(current.clone())
                } else if let Some((_, target)) = world.links.iter().find(|(l, _)| *l == current) {
                    Located::Link(target.clone())
                } else {
                    Located::Missing
                };
                located(&current, follows, found)
            }
            KeyStage::Parent { current, exhausted } => {
                let found = world
                    .directories
                    .iter()
                    .find(|d| current.starts_with(d.as_str()))
                    .map(|_| current.clone());
                parent_resolved(exhausted, found)
            }
            KeyStage::Absolute => {
                let found = std::path::absolute(path)
                    .ok()
                    .and_then(|p| p.to_str().map(str::to_string));
                absolute_resolved(path, found)
            }
            KeyStage::Done { key, provisional } => return (key, provisional),
        };
    }
}

fn world() -> World {
    World {
        links: Vec::new(),
        files: Vec::new(),
        directories: vec!["/real/".to_string()],
    }
}

#[test]
fn an_existing_file_keys_by_where_it_is() {
    let mut w = world();
    w.files.push("/real/m".to_string());
    assert_eq!(key_of(&w, "/real/m"), ("/real/m".to_string(), false));
}

#[test]
fn a_missing_file_keys_by_its_directory() {
    assert_eq!(key_of(&world(), "/real/new"), ("/real/new".to_string(), false));
}

#[test]
fn a_dangling_link_keys_by_its_target() {
    let mut w = world();
    w.links.push(("/real/link".to_string(), "/real/target".to_string()));
    assert_eq!(key_of(&w, "/real/link"), ("/real/target".to_string(), false));
}

#[test]
fn a_chain_that_is_too_long_keys_provisionally() {
    let mut w = world();
    for n in 0..20 {
        w.links.push((format!("/real/l{n}"), format!("/real/l{}", n + 1)));
    }
    let (key, provisional) = key_of(&w, "/real/l0");
    assert_eq!(key, format!("/real/l{SYMLINK_FOLLOW_LIMIT}"));
    assert!(provisional);
}

#[test]
fn an_unresolvable_path_keys_by_its_spelling() {
    assert_eq!(key_of(&world(), "/nowhere/m"), ("/nowhere/m".to_string(), true));
    match absolute_resolved("m", Some("/cwd/m".to_string())) {
        KeyStage::Done { key, provisional } => {
            assert_eq!(key, "/cwd/m");
            assert!(provisional);
        }
        other => panic!("unexpected {other:?}"),
    }
}

#[test]
fn an_unresolvable_path_falls_back_to_the_lexical_absolute_form() {
    let absent = "/nonexistent-file-memory-unit/parent/mem.jsonl";
    let (key, is_fallback) = key_of(&world(), absent);
    assert_eq!(
        key, absent,
        "with neither the file nor its parent resolvable, the already \
        absolute spelling is returned as-is"
    );
    assert!(
        is_fallback,
        "only the unresolved lexical arm marks the key provisional"
    );
}

#[test]
fn an_empty_path_falls_back_to_the_raw_spelling() {
    let (key, is_fallback) = key_of(&world(), "");
    assert_eq!(key, "", "the empty path resolves nowhere at any stage");
    assert!(
        is_fallback,
        "a key that resolves nothing is provisional by construction"
    );
}

#[test]
fn a_trailing_dotdot_still_yields_a_key() {
    let edge = "/nonexistent-file-memory-unit/..";
    let (key, is_fallback) = key_of(&world(), edge);
    assert_eq!(
        key, edge,
        "a path with no file name component lands in the lexical fallback"
    );
    assert!(is_fallback, "the lexical fallback marks its keys provisional");
}

#[test]
fn a_registration_moves_settles_or_unites() {
    let mut registry = StoreRegistry::new();
    registry.insert("/a".to_string(), 1);
    assert_eq!(registry.get("/a"), Some(1));
    assert_eq!(registry.migrate("/a", "/b", 1), Migration::Moved);
    assert_eq!(registry.get("/a"), None);
    assert_eq!(registry.get("/b"), Some(1));
    assert_eq!(registry.migrate("/a", "/b", 1), Migration::Settled);
    registry.insert("/c".to_string(), 2);
    assert_eq!(
        registry.migrate("/c", "/b", 2),
        Migration::Unified { target: 1 }
    );
    assert_eq!(registry.get("/c"), Some(1));
    registry.insert("/b".to_string(), 3);
    assert_eq!(registry.get("/b"), Some(3));
    registry.remove("/b");
    registry.remove("/b");
    assert_eq!(registry.get("/b"), None);
    assert_eq!(registry.get("/c"), Some(1));
}

fn registration(registered: &str, derived: &str, store: u64, provisional: bool) -> Registration {
    Registration {
        registered: registered.to_string(),
        derived: derived.to_string(),
        store,
        provisional,
    }
}

#[test]
fn only_stale_registrations_are_migrated() {
    let mut registry = StoreRegistry::new();
    registry.insert("/link".to_string(), 1);
    registry.insert("/other".to_string(), 2);
    registry.insert("/real".to_string(), 3);
    registry.insert("/loop".to_string(), 4);
    let found = vec![
        registration("/link", "/target", 1, true),
        registration("/other", "/elsewhere", 2, false),
        registration("/real", "/real", 3, true),
        registration("/loop", "/real", 4, true),
    ];
    assert_eq!(
        registry.migrate_provisional_entries(&found),
        vec![
            Some(Migration::Moved),
            None,
            None,
            Some(Migration::Unified { target: 3 }),
        ]
    );
    let mut listed = registry.registrations();
    listed.sort();
    assert_eq!(
        listed,
        vec![
            ("/loop".to_string(), 3),
            ("/other".to_string(), 2),
            ("/real".to_string(), 3),
            ("/target".to_string(), 1),
        ]
    );
    let settled = vec![registration("/target", "/target", 1, true)];
    assert_eq!(registry.migrate_provisional_entries(&settled), vec![None]);
    assert_eq!(registry.get("/target"), Some(1));
}

#[test]
fn bytes_are_read_as_text_or_refused() {
    match decode_line("h\u{e9}".as_bytes()) {
        Ok(text) => assert_eq!(text, "h\u{e9}"),
        Err(read) => panic!("unexpected {read:?}"),
    }
    match decode_line(b"a\xff") {
        Err(LineRead::NotUtf8(why)) => {
            assert_eq!(why, "invalid utf-8 sequence of 1 bytes from index 1");
        }
        other => panic!("unexpected {other:?}"),
    }
}

#[test]
fn opening_attaches_or_loads_and_repairs_only_what_is_torn() {
    assert_eq!(open_step(true, None), OpenStep::Attach);
    assert_eq!(open_step(true, Some(true)), OpenStep::Attach);
    assert_eq!(open_step(false, None), OpenStep::Load);
    assert_eq!(open_step(false, Some(true)), OpenStep::Repair);
    assert_eq!(open_step(false, Some(false)), OpenStep::Register);
}

#[test]
fn siblings_are_recognized_in_every_spelling_of_an_identifier() {
    let id = "936DA01F-9abd-4d9d-80c7-02af85c822a8";
    let simple = id.replace('-', "");
    for middle in [
        id.to_string(),
        simple.clone(),
        format!("{{{id}}}"),
        format!("URN:uuid:{id}"),
    ] {
        assert!(is_stale_sibling("m", &format!("m.{middle}.tmp")), "{middle}");
    }
    for middle in [
        String::new(),
        id[..35].to_string(),
        format!("{{{simple}}}"),
        format!("urn:uuid:{simple}"),
        id.replace('D', "g"),
        format!("{id}0"),
    ] {
        assert!(!is_stale_sibling("m", &format!("m.{middle}.tmp")), "{middle}");
    }
}
