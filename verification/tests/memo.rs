//! Results that are handed out again, and the paths that drop them.

use std::collections::hash_map::DefaultHasher;
use std::hash::{Hash, Hasher};

use loopctl::message::{ToolResult, ToolResultPart};
use loopctl::middleware::dispatch::{
    PermissionCheck, ToolContext, ToolDispatchContext, ToolDispatchResult,
};
use loopctl::middleware::memo::builtin::{
    inline_redirect_target, is_file_target, redirection_targets, unwrap_shell_payload,
    WritePathExtractor,
};
use loopctl::middleware::memo::{
    append_cached_marker, make_key, CacheEntry, CacheKey, MemoStep, MemoizingMiddleware,
    NoopPathExtractor, PathExtractor, ResultCache,
};

/// The `path` of the input, where it has one.
struct PathFromInput;

impl PathExtractor for PathFromInput {
    fn paths(&self, tool_name: &str, input: &str) -> Vec<String> {
        self.paths_with_cwd(tool_name, input, "/")
    }

    fn paths_with_cwd(&self, _tool_name: &str, input: &str, _cwd: &str) -> Vec<String> {
        let value: serde_json::Value = serde_json::from_str(input).unwrap();
        value
            .get("path")
            .and_then(serde_json::Value::as_str)
            .map(str::to_string)
            .into_iter()
            .collect()
    }
}

/// A tool behind the layer that always gives the same result.
struct Inner {
    output: ToolResult,
    is_error: bool,
    calls: usize,
}

fn inner(text: &str, is_error: bool) -> Inner {
    Inner {
        output: ToolResult::from_string(text),
        is_error,
        calls: 0,
    }
}

fn ctx_for(tool_name: &str, input: &str, turn: usize) -> ToolDispatchContext {
    ToolDispatchContext {
        tool_name: tool_name.to_string(),
        input: input.to_string(),
        call_id: "c1".to_string(),
        turn_number: turn,
        permission: PermissionCheck::Allow,
        tool_context: ToolContext {
            cwd: "/".to_string(),
        },
    }
}

fn make_middleware<E>(extractor: E, ttl: u32) -> MemoizingMiddleware<E> {
    MemoizingMiddleware::new(
        vec!["Read".to_string()],
        vec!["Write".to_string()],
        extractor,
        ttl,
    )
}

fn dispatch<E: PathExtractor>(
    layer: &mut MemoizingMiddleware<E>,
    tool: &mut Inner,
    ctx: &ToolDispatchContext,
) -> ToolDispatchResult {
    match layer.before_dispatch(ctx) {
        MemoStep::Hit(result) => result,
        MemoStep::Run(pending) => {
            tool.calls += 1;
            let result = plain_result(tool.output.clone(), tool.is_error);
            layer.after_dispatch(pending, ctx, &result);
            result
        }
    }
}

fn plain_result(output: ToolResult, is_error: bool) -> ToolDispatchResult {
    ToolDispatchResult {
        tool_call_id: String::new(),
        output,
        is_error,
        duration: 5,
        resolved_tool_name: String::new(),
        display_hint: None,
    }
}

fn is_cached(result: &ToolDispatchResult) -> bool {
    result.output.to_text().contains("[cached]")
}

#[test]
fn repeat_read_returns_cached() {
    let mut mw = make_middleware(PathFromInput, 10);
    let mut tool = inner("file contents", false);
    let first = dispatch(&mut mw, &mut tool, &ctx_for("Read", "{\"path\":\"foo.rs\"}", 0));
    assert_eq!(tool.calls, 1);
    let second = dispatch(&mut mw, &mut tool, &ctx_for("Read", "{\"path\":\"foo.rs\"}", 1));
    assert_eq!(
        tool.calls, 1,
        "second call should hit the cache, not the inner dispatch"
    );
    assert!(is_cached(&second));
    assert_eq!(second.duration, 0, "a hit takes no time");
    assert!(!is_cached(&first), "first call output should not carry [cached]");
}

/// Says the same of every call, wherever it runs.
struct OnePath;

impl PathExtractor for OnePath {
    fn paths(&self, _tool_name: &str, _input: &str) -> Vec<String> {
        vec!["/a.rs".to_string()]
    }
}

#[test]
fn an_extractor_without_an_eye_for_directories_is_still_asked() {
    let mut mw = make_middleware(OnePath, 10);
    let mut tool = inner("content", false);
    dispatch(&mut mw, &mut tool, &ctx_for("Read", "{}", 0));
    assert_eq!(mw.cached(), 1);
    dispatch(&mut mw, &mut tool, &ctx_for("Write", "{}", 1));
    assert_eq!(mw.cached(), 0, "the write touched what was read");
}

/// An input that is nested more deeply than a reader of whole values allows.
fn deep(field: &str, text: &str) -> String {
    let nested = format!("{}{}", "[".repeat(300), "]".repeat(300));
    format!("{{\"deep\":{nested},\"{field}\":\"{text}\"}}")
}

#[test]
fn inputs_that_are_nested_deeply_keep_their_own_keys() {
    assert_ne!(make_key("Read", &deep("path", "a")), make_key("Read", &deep("path", "b")));
    assert_eq!(make_key("Read", &deep("path", "a")), make_key("Read", &deep("path", "a")));
    assert_ne!(make_key("Read", "not json"), make_key("Read", ""));
    let mut mw = make_middleware(Pathless, 10);
    let mut tool = inner("content", false);
    dispatch(&mut mw, &mut tool, &ctx_for("Read", &deep("path", "a"), 0));
    let second = dispatch(&mut mw, &mut tool, &ctx_for("Read", &deep("path", "b"), 0));
    assert!(!is_cached(&second), "another input has another result");
    assert_eq!(tool.calls, 2);
    assert_eq!(
        WritePathExtractor.paths_with_cwd("Write", &deep("path", "a.rs"), "/repo"),
        vec!["/repo/a.rs".to_string()]
    );
    assert_eq!(
        WritePathExtractor.paths_with_cwd("Bash", &deep("command", "ls > out"), "/repo"),
        vec!["/repo/out".to_string()]
    );
}

/// An extractor that names no path.
struct Pathless;

impl PathExtractor for Pathless {
    fn paths(&self, _tool_name: &str, _input: &str) -> Vec<String> {
        Vec::new()
    }
}

/// An extractor that knows the tools of its layer only.
struct Strict;

impl PathExtractor for Strict {
    fn paths(&self, tool_name: &str, _input: &str) -> Vec<String> {
        assert!(tool_name == "Read" || tool_name == "Write", "asked about {tool_name}");
        vec!["/a.rs".to_string()]
    }
}

#[test]
fn an_extractor_is_asked_only_where_its_answer_matters() {
    let mut mw = make_middleware(Strict, 10);
    let mut tool = inner("content", false);
    dispatch(&mut mw, &mut tool, &ctx_for("Other", "{}", 0));
    let mut failing = inner("failed", true);
    dispatch(&mut mw, &mut failing, &ctx_for("Other", "{}", 0));
    assert_eq!(mw.cached(), 0);
    dispatch(&mut mw, &mut tool, &ctx_for("Read", "{}", 0));
    assert_eq!(mw.cached(), 1);
    dispatch(&mut mw, &mut failing, &ctx_for("Write", "{}", 0));
    assert_eq!(mw.cached(), 1);
    dispatch(&mut mw, &mut tool, &ctx_for("Write", "{}", 0));
    assert_eq!(mw.cached(), 0);
}

#[test]
fn different_input_not_cached() {
    let mut mw = make_middleware(PathFromInput, 10);
    let mut tool = inner("content", false);
    dispatch(&mut mw, &mut tool, &ctx_for("Read", "{\"path\":\"a.rs\"}", 0));
    dispatch(&mut mw, &mut tool, &ctx_for("Read", "{\"path\":\"b.rs\"}", 1));
    assert_eq!(
        tool.calls, 2,
        "different input should be a cache miss — inner dispatched twice"
    );
    assert_eq!(mw.cached(), 2);
}

#[test]
fn write_invalidates_path_matching_cache() {
    let mut mw = make_middleware(PathFromInput, 10);
    let mut tool = inner("ok", false);
    dispatch(&mut mw, &mut tool, &ctx_for("Read", "{\"path\":\"foo.rs\"}", 0));
    assert_eq!(tool.calls, 1);
    dispatch(&mut mw, &mut tool, &ctx_for("Write", "{\"path\":\"bar.rs\"}", 1));
    assert_eq!(tool.calls, 2);
    let r = dispatch(&mut mw, &mut tool, &ctx_for("Read", "{\"path\":\"foo.rs\"}", 2));
    assert!(
        is_cached(&r),
        "Read(foo.rs) should still be cached after Write(bar.rs)"
    );
    dispatch(&mut mw, &mut tool, &ctx_for("Write", "{\"path\":\"foo.rs\"}", 3));
    let r = dispatch(&mut mw, &mut tool, &ctx_for("Read", "{\"path\":\"foo.rs\"}", 4));
    assert!(!is_cached(&r), "Read(foo.rs) should re-run after Write(foo.rs)");
}

#[test]
fn ttl_expiry() {
    // An entry inserted at turn 0 with two turns to live is fresh at turn 1,
    // expired at turn 2.
    let mut mw = make_middleware(PathFromInput, 2);
    let mut tool = inner("v", false);
    dispatch(&mut mw, &mut tool, &ctx_for("Read", "{\"path\":\"x\"}", 0));
    assert_eq!(tool.calls, 1);
    let r = dispatch(&mut mw, &mut tool, &ctx_for("Read", "{\"path\":\"x\"}", 1));
    assert!(is_cached(&r), "should be fresh at turn 1");
    assert_eq!(tool.calls, 1);
    let r = dispatch(&mut mw, &mut tool, &ctx_for("Read", "{\"path\":\"x\"}", 2));
    assert!(!is_cached(&r), "should be expired at turn 2");
    assert_eq!(tool.calls, 2);
}

#[test]
fn non_memoized_tool_passes_through() {
    let mut mw = make_middleware(PathFromInput, 10);
    let mut tool = inner("grep result", false);
    dispatch(&mut mw, &mut tool, &ctx_for("Grep", "{\"pattern\":\"foo\"}", 0));
    assert_eq!(tool.calls, 1);
    let r = dispatch(&mut mw, &mut tool, &ctx_for("Grep", "{\"pattern\":\"foo\"}", 1));
    assert_eq!(tool.calls, 2);
    assert!(!is_cached(&r), "non-memoized tool should never carry [cached]");
}

#[test]
fn write_tool_result_not_cached() {
    let mut mw = make_middleware(PathFromInput, 10);
    let mut tool = inner("wrote", false);
    let r1 = dispatch(&mut mw, &mut tool, &ctx_for("Write", "{\"path\":\"x\"}", 0));
    assert_eq!(tool.calls, 1);
    assert!(!is_cached(&r1), "write tool should never be cached");
    let r2 = dispatch(&mut mw, &mut tool, &ctx_for("Write", "{\"path\":\"x\"}", 1));
    assert_eq!(tool.calls, 2);
    assert!(!is_cached(&r2), "write tool should never be cached");
}

#[test]
fn error_result_not_cached() {
    let mut mw = make_middleware(PathFromInput, 10);
    let mut tool = inner("file not found", true);
    dispatch(&mut mw, &mut tool, &ctx_for("Read", "{\"path\":\"missing\"}", 0));
    assert_eq!(tool.calls, 1);
    dispatch(&mut mw, &mut tool, &ctx_for("Read", "{\"path\":\"missing\"}", 1));
    assert_eq!(
        tool.calls, 2,
        "error result should not be cached — second call re-ran"
    );
}

#[test]
fn cached_marker_format_text_and_multipart() {
    let mut mw = make_middleware(NoopPathExtractor, 10);
    let mut tool = inner("t", false);
    dispatch(&mut mw, &mut tool, &ctx_for("Read", "{\"path\":\"a\"}", 0));
    let r = dispatch(&mut mw, &mut tool, &ctx_for("Read", "{\"path\":\"a\"}", 1));
    match r.output {
        ToolResult::Text(s) => assert!(s.ends_with("\n[cached]"), "text marker: {s}"),
        ToolResult::Multipart(parts) => {
            panic!("expected Text, got Multipart with {} parts", parts.len())
        }
    }

    let mut mw = make_middleware(NoopPathExtractor, 10);
    let mut tool = Inner {
        output: ToolResult::from_multipart(vec![ToolResultPart::Text {
            text: "original".to_string(),
        }]),
        is_error: false,
        calls: 0,
    };
    dispatch(&mut mw, &mut tool, &ctx_for("Read", "{\"path\":\"b\"}", 0));
    let r = dispatch(&mut mw, &mut tool, &ctx_for("Read", "{\"path\":\"b\"}", 1));
    match r.output {
        ToolResult::Multipart(parts) => {
            assert_eq!(parts.len(), 2, "should have original + [cached] part");
            match &parts[1] {
                ToolResultPart::Text { text } => {
                    assert_eq!(text, "[cached]", "multipart marker part: {text}");
                }
                ToolResultPart::Image { .. } => panic!("expected Text part, got Image"),
            }
        }
        ToolResult::Text(t) => panic!("expected Multipart, got Text: {t}"),
    }
}

#[test]
fn cache_key_canonicalizes_input_key_order() {
    let mut mw = make_middleware(NoopPathExtractor, 10);
    let mut tool = inner("ok", false);
    dispatch(
        &mut mw,
        &mut tool,
        &ctx_for("Read", "{\"path\":\"x\",\"limit\":10}", 0),
    );
    let r = dispatch(
        &mut mw,
        &mut tool,
        &ctx_for("Read", "{ \"limit\": 10, \"path\": \"x\" }", 1),
    );
    assert_eq!(
        tool.calls, 1,
        "different key order, same logical input should hit the cache"
    );
    assert!(is_cached(&r), "should be cached despite key-order difference");
}

#[test]
fn memoize_middleware_name() {
    let mw = MemoizingMiddleware::new(vec![], vec![], NoopPathExtractor, 5);
    assert_eq!(mw.name(), "memoize");
}

#[test]
fn make_key_same_input_same_hash() {
    let k1 = make_key("Read", "{\"path\":\"foo.rs\"}");
    let k2 = make_key("Read", "{\"path\":\"foo.rs\"}");
    assert_eq!(k1, k2, "identical inputs must produce identical keys");
}

#[test]
fn make_key_different_tool_different_hash() {
    let k1 = make_key("Read", "{\"path\":\"foo.rs\"}");
    let k2 = make_key("Grep", "{\"path\":\"foo.rs\"}");
    assert_ne!(k1, k2, "different tool names must produce different keys");
}

#[test]
fn make_key_different_input_different_hash() {
    let k1 = make_key("Read", "{\"path\":\"foo.rs\"}");
    let k2 = make_key("Read", "{\"path\":\"bar.rs\"}");
    assert_ne!(k1, k2, "different inputs must produce different keys");
}

#[test]
fn a_key_holds_the_hash_of_the_compact_input() {
    let mut hasher = DefaultHasher::new();
    "{\"a\":1}".hash(&mut hasher);
    assert_eq!(make_key("t", " { \"a\" : 1 } ").input_hash, hasher.finish());
}

fn entry(text: &str, turn: usize, paths: &[&str]) -> CacheEntry {
    CacheEntry {
        result: plain_result(ToolResult::from_string(text), false),
        turn_inserted: turn,
        paths: paths.iter().map(|p| p.to_string()).collect(),
    }
}

fn key_for(path: &str) -> CacheKey {
    make_key("Read", &format!("{{\"path\":\"{path}\"}}"))
}

#[test]
fn lookup_fresh_returns_none_on_miss() {
    let mut cache = ResultCache::new();
    let result = cache.lookup_fresh(&key_for("x"), 0, 10);
    assert!(result.is_none(), "empty cache should miss");
}

#[test]
fn lookup_fresh_returns_result_on_hit() {
    let mut cache = ResultCache::new();
    let key = key_for("x");
    cache.insert(key.clone(), entry("content", 0, &[]));
    let result = cache.lookup_fresh(&key, 1, 10);
    assert!(result.is_some(), "fresh entry should hit");
}

#[test]
fn lookup_fresh_expires_and_evicts_stale_entry() {
    let mut cache = ResultCache::new();
    let key = key_for("x");
    cache.insert(key.clone(), entry("content", 0, &[]));
    assert!(
        cache.lookup_fresh(&key, 1, 2).is_some(),
        "should be fresh at turn 1"
    );
    assert!(
        cache.lookup_fresh(&key, 2, 2).is_none(),
        "should be expired at turn 2"
    );
    assert_eq!(cache.len(), 0, "expired entry should be evicted from cache");
}

#[test]
fn insert_stores_entry_and_replace_overwrites() {
    let mut cache = ResultCache::new();
    let key = key_for("x");
    cache.insert(key.clone(), entry("first", 0, &[]));
    cache.insert(key.clone(), entry("second", 1, &[]));
    assert_eq!(cache.len(), 1);
    let result = cache.lookup_fresh(&key, 2, 10).unwrap();
    match result.output {
        ToolResult::Text(s) => assert_eq!(s, "second", "second insert should overwrite"),
        ToolResult::Multipart(parts) => {
            panic!("expected Text, got Multipart with {} parts", parts.len())
        }
    }
}

#[test]
fn invalidate_paths_removes_overlapping_entries() {
    let mut cache = ResultCache::new();
    let key_a = key_for("a.rs");
    let key_b = key_for("b.rs");
    cache.insert(key_a.clone(), entry("content", 0, &["a.rs"]));
    cache.insert(key_b.clone(), entry("content", 0, &["b.rs"]));

    cache.invalidate_paths(&vec!["a.rs".to_string()]);

    assert!(
        !cache.contains_key(&key_a),
        "overlapping entry should be evicted"
    );
    assert!(
        cache.contains_key(&key_b),
        "non-overlapping entry should survive"
    );
}

#[test]
fn invalidate_paths_noop_on_empty_write_paths() {
    let mut cache = ResultCache::new();
    cache.insert(key_for("x"), entry("content", 0, &["x"]));
    cache.invalidate_paths(&vec![]);
    assert_eq!(cache.len(), 1, "empty write_paths should evict nothing");
}

#[test]
fn invalidate_paths_evicts_all_matching() {
    let mut cache = ResultCache::new();
    let k1 = make_key("Read", "{\"path\":\"shared.rs\",\"limit\":10}");
    let k2 = make_key("Grep", "{\"path\":\"shared.rs\",\"pattern\":\"foo\"}");
    cache.insert(k1, entry("content", 0, &["shared.rs"]));
    cache.insert(k2, entry("content", 0, &["shared.rs"]));
    cache.invalidate_paths(&vec!["shared.rs".to_string()]);
    assert_eq!(
        cache.len(),
        0,
        "both entries touch shared.rs — both evicted"
    );
}

#[test]
fn append_cached_marker_text() {
    let mut content = ToolResult::from_string("hello");
    append_cached_marker(&mut content);
    match content {
        ToolResult::Text(s) => assert!(s.ends_with("\n[cached]"), "marker appended: {s}"),
        ToolResult::Multipart(parts) => {
            panic!("expected Text, got Multipart with {} parts", parts.len())
        }
    }
}

#[test]
fn append_cached_marker_multipart() {
    let mut content = ToolResult::from_multipart(vec![ToolResultPart::Text {
        text: "original".to_string(),
    }]);
    append_cached_marker(&mut content);
    match content {
        ToolResult::Multipart(parts) => {
            assert_eq!(parts.len(), 2, "should push a new part");
            match &parts[1] {
                ToolResultPart::Text { text } => {
                    assert_eq!(text, "[cached]", "marker text: {text}");
                }
                ToolResultPart::Image { .. } => panic!("expected Text part, got Image"),
            }
        }
        ToolResult::Text(t) => panic!("expected Multipart, got Text: {t}"),
    }
}

#[test]
fn append_cached_marker_empty_text() {
    let mut content = ToolResult::from_string("");
    append_cached_marker(&mut content);
    match content {
        ToolResult::Text(s) => assert_eq!(s, "\n[cached]", "empty text + marker"),
        ToolResult::Multipart(parts) => {
            panic!("expected Text, got Multipart with {} parts", parts.len())
        }
    }
}

#[test]
fn failed_write_does_not_invalidate_cache() {
    let mut mw = make_middleware(PathFromInput, 10);
    let mut reads = inner("file contents", false);
    let mut writes = inner("permission denied", true);
    let r1 = dispatch(&mut mw, &mut reads, &ctx_for("Read", "{\"path\":\"foo.rs\"}", 0));
    assert!(!r1.is_error);
    let wr = dispatch(&mut mw, &mut writes, &ctx_for("Write", "{\"path\":\"foo.rs\"}", 1));
    assert!(wr.is_error, "write should return an error");
    let r3 = dispatch(&mut mw, &mut reads, &ctx_for("Read", "{\"path\":\"foo.rs\"}", 2));
    assert!(
        is_cached(&r3),
        "failed write should not invalidate cached read"
    );
}

#[test]
fn successful_write_does_invalidate_cache() {
    let mut mw = make_middleware(PathFromInput, 10);
    let mut reads = inner("file contents", false);
    let mut writes = inner("wrote", false);
    let r1 = dispatch(&mut mw, &mut reads, &ctx_for("Read", "{\"path\":\"foo.rs\"}", 0));
    assert!(!r1.is_error);
    let wr = dispatch(&mut mw, &mut writes, &ctx_for("Write", "{\"path\":\"foo.rs\"}", 1));
    assert!(!wr.is_error, "write should succeed");
    let r3 = dispatch(&mut mw, &mut reads, &ctx_for("Read", "{\"path\":\"foo.rs\"}", 2));
    assert!(
        !is_cached(&r3),
        "successful write should invalidate cached read"
    );
}

#[test]
fn noop_path_extractor_returns_empty() {
    let extractor = NoopPathExtractor;
    assert!(extractor.paths("Read", "{\"path\":\"/etc/hosts\"}").is_empty());
    assert!(extractor.paths("Grep", "{\"pattern\":\"x\"}").is_empty());
    assert!(extractor.paths("Write", "{}").is_empty());
}

#[test]
fn noop_path_extractor_disables_path_invalidation() {
    let mut mw = make_middleware(NoopPathExtractor, 5);
    let mut tool = inner("file body", false);
    let r1 = dispatch(&mut mw, &mut tool, &ctx_for("Read", "{\"path\":\"foo.rs\"}", 1));
    assert!(!is_cached(&r1));
    let wr = dispatch(&mut mw, &mut tool, &ctx_for("Write", "{\"path\":\"foo.rs\"}", 1));
    assert!(!wr.is_error, "write should succeed");
    let r3 = dispatch(&mut mw, &mut tool, &ctx_for("Read", "{\"path\":\"foo.rs\"}", 2));
    assert!(
        is_cached(&r3),
        "NoopPathExtractor disables path invalidation; read still cached"
    );
}

// ---------------------------------------------------------------------------
// Paths of a call
// ---------------------------------------------------------------------------

fn touched(input: &str, cwd: &str) -> Vec<String> {
    WritePathExtractor.paths_with_cwd("any", input, cwd)
}

#[test]
fn a_named_path_is_touched_in_its_one_spelling() {
    assert_eq!(touched("{\"path\":\"src/../a.rs\"}", "/repo"), vec!["/repo/a.rs"]);
    assert_eq!(touched("{\"file_path\":\"/x/./y\"}", "/repo"), vec!["/x/y"]);
    assert_eq!(touched("{\"filename\":\"n\"}", "/repo/"), vec!["/repo/n"]);
    assert_eq!(touched("{\"filepath\":\"..\"}", "/repo/sub"), vec!["/repo"]);
    assert_eq!(
        touched("{\"filename\":\"second\",\"path\":\"first\"}", "/"),
        vec!["/first"],
        "the first of the fields wins"
    );
    assert_eq!(
        touched("{\"path\":7,\"filename\":\"n\"}", "/"),
        vec!["/n"],
        "only a string counts"
    );
    assert!(touched("{}", "/repo").is_empty());
    assert!(touched("not json", "/repo").is_empty());
    assert_eq!(WritePathExtractor.paths("any", "{\"path\":\"a\"}"), vec!["/a"]);
}

#[test]
fn a_command_touches_what_it_redirects_to() {
    assert_eq!(redirection_targets("echo hi > out.txt"), vec!["out.txt"]);
    assert_eq!(redirection_targets("echo hi >>app.log"), vec!["app.log"]);
    assert_eq!(
        redirection_targets("run 2>err.log 1>> all.log"),
        vec!["err.log", "all.log"]
    );
    assert_eq!(redirection_targets("run &> both"), vec!["both"]);
    assert_eq!(redirection_targets("run >& both"), vec!["both"]);
    assert!(redirection_targets("run 2>&1").is_empty());
    assert!(redirection_targets("run >&2").is_empty());
    assert!(redirection_targets("cat file").is_empty());
    assert!(redirection_targets("echo 'unbalanced > x").is_empty());
    assert_eq!(
        redirection_targets("sh -c \"echo hi > inner.txt\""),
        vec!["inner.txt"],
        "one level of wrapping is looked through"
    );
    assert!(redirection_targets("sh -c").is_empty());
    assert_eq!(
        touched("{\"command\":\"echo > o\",\"path\":\"ignored\"}", "/w"),
        vec!["/w/o"]
    );
    assert_eq!(touched("{\"cmd\":\"echo > /o\"}", "/w"), vec!["/o"]);
}

#[test]
fn the_parts_of_a_redirection() {
    assert_eq!(inline_redirect_target(">out").as_deref(), Some("out"));
    assert_eq!(inline_redirect_target("2>>err").as_deref(), Some("err"));
    assert_eq!(inline_redirect_target(">"), None);
    assert_eq!(inline_redirect_target("plain"), None);
    assert!(is_file_target("2x"));
    assert!(!is_file_target("2"));
    assert!(!is_file_target("&1"));
    assert!(!is_file_target(""));
    let bare = vec!["ls".to_string(), "-c".to_string()];
    assert_eq!(unwrap_shell_payload(bare.clone()), bare);
    let wrapped: Vec<String> = ["bash", "-c", "a 'b c'"].iter().map(|w| w.to_string()).collect();
    assert_eq!(unwrap_shell_payload(wrapped), vec!["a", "b c"]);
}

#[test]
fn a_write_through_the_shell_drops_a_read_of_the_same_file() {
    let mut mw = MemoizingMiddleware::new(
        vec!["Read".to_string()],
        vec!["Bash".to_string()],
        WritePathExtractor,
        10,
    );
    let mut tool = inner("body", false);
    dispatch(&mut mw, &mut tool, &ctx_for("Read", "{\"path\":\"/repo/a.txt\"}", 0));
    let mut shell = ctx_for("Bash", "{\"command\":\"date > a.txt\"}", 1);
    shell.tool_context.cwd = "/repo".to_string();
    dispatch(&mut mw, &mut tool, &shell);
    let r = dispatch(&mut mw, &mut tool, &ctx_for("Read", "{\"path\":\"/repo/a.txt\"}", 2));
    assert!(!is_cached(&r));
    assert_eq!(tool.calls, 3);
}
