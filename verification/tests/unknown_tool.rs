//! Suggestions for tools that do not exist.

use loopctl::double::Double;
use loopctl::message::ToolResult;
use loopctl::middleware::dispatch::ToolDispatchResult;
use loopctl::middleware::unknown_tool::{
    similarity_parts, SimilarityArithmetic, SimilarityParts, UnknownToolMiddleware,
};

struct Host;

impl SimilarityArithmetic for Host {
    fn blend(&self, common: u32, prefix: u32, longest: u32) -> Double {
        let longest = f64::from(longest);
        let bonus = if prefix > 0 {
            f64::from(prefix) / longest * 0.1
        } else {
            0.0
        };
        double(f64::from(common) / longest + bonus)
    }
}

fn double(x: f64) -> Double {
    Double::from_bits(x.to_bits())
}

fn number(x: Double) -> f64 {
    f64::from_bits(x.bits)
}

fn chars(s: &str) -> Vec<char> {
    s.chars().collect()
}

fn best(requested: &str, available: &[&str], threshold: f64) -> Option<(String, f64)> {
    let names: Vec<String> = available.iter().map(|n| n.to_string()).collect();
    UnknownToolMiddleware::find_best_match_inner(&Host, requested, &names, double(threshold))
        .map(|(name, score)| (name, number(score)))
}

#[test]
fn lcs_length_identical_strings() {
    let a = chars("hello");
    let b = chars("hello");
    assert_eq!(UnknownToolMiddleware::lcs_length(&a, &b), 5);
}

#[test]
fn lcs_length_completely_different() {
    let a = chars("abc");
    let b = chars("xyz");
    assert_eq!(UnknownToolMiddleware::lcs_length(&a, &b), 0);
}

#[test]
fn lcs_length_empty_first() {
    let b = chars("abc");
    assert_eq!(UnknownToolMiddleware::lcs_length(&[], &b), 0);
}

#[test]
fn lcs_length_empty_second() {
    let a = chars("abc");
    assert_eq!(UnknownToolMiddleware::lcs_length(&a, &[]), 0);
}

#[test]
fn lcs_length_both_empty() {
    assert_eq!(UnknownToolMiddleware::lcs_length(&[], &[]), 0);
}

#[test]
fn lcs_length_subsequence_not_substring() {
    // "ace" is a subsequence of "abcde" but not a substring
    let a = chars("ace");
    let b = chars("abcde");
    assert_eq!(UnknownToolMiddleware::lcs_length(&a, &b), 3);
}

#[test]
fn lcs_length_partial_overlap() {
    let a = chars("kitten");
    let b = chars("sitting");
    // LCS is "ittn" → length 4
    assert_eq!(UnknownToolMiddleware::lcs_length(&a, &b), 4);
}

#[test]
fn lcs_length_order_independent() {
    let a = chars("sitting");
    let b = chars("kitten");
    assert_eq!(
        UnknownToolMiddleware::lcs_length(&a, &b),
        UnknownToolMiddleware::lcs_length(&b, &a),
    );
}

#[test]
fn lcs_length_single_character_common() {
    let a = chars("a");
    let b = chars("a");
    assert_eq!(UnknownToolMiddleware::lcs_length(&a, &b), 1);
}

#[test]
fn lcs_length_repeated_chars() {
    let a = chars("aaa");
    let b = chars("aa");
    assert_eq!(UnknownToolMiddleware::lcs_length(&a, &b), 2);
}

#[test]
fn find_best_match_exact_hit() {
    let available = ["read_file", "write_file", "list_dir"];
    let (suggestion, score) = best("read_file", &available, 0.5).unwrap();
    assert_eq!(suggestion, "read_file");
    assert!((score - 1.0).abs() < f64::EPSILON);
}

#[test]
fn find_best_match_close_typo() {
    let available = ["read_file", "write_file", "list_dir"];
    let (suggestion, _) = best("read_fil", &available, 0.5).unwrap();
    assert_eq!(suggestion, "read_file");
}

#[test]
fn find_best_match_nothing_above_threshold() {
    let available = ["read_file", "write_file", "list_dir"];
    assert!(best("xyz", &available, 0.5).is_none());
}

#[test]
fn find_best_match_empty_available() {
    let available: [&str; 0] = [];
    assert!(best("read_file", &available, 0.0).is_none());
}

#[test]
fn find_best_match_empty_requested() {
    let available = ["read_file", "write_file"];
    // An empty request has zero overlap with everything.
    assert!(
        best("", &available, 0.0).is_none() || best("", &available, 0.0).unwrap().1 == 0.0
    );
}

#[test]
fn find_best_match_picks_highest_score() {
    let available = ["read", "read_file", "rea"];
    // "read_file" requested → both "read" and "rea" are substrings,
    // but "read" has a higher LCS ratio.
    let (suggestion, _) = best("read_file", &available, 0.3).unwrap();
    assert_eq!(suggestion, "read_file");
}

#[test]
fn find_best_match_threshold_zero_returns_best() {
    let available = ["abc", "xyz"];
    // With threshold 0.0 even a zero-score match could pass, but "abc"
    // shares at least one char with "a" so it wins.
    let result = best("a", &available, 0.0);
    assert!(result.is_some());
    assert_eq!(result.unwrap().0, "abc");
}

#[test]
fn find_best_match_threshold_one_requires_exact() {
    let available = ["read_file", "write_file"];
    // Only an exact match can satisfy threshold 1.0.
    let (suggestion, score) = best("read_file", &available, 1.0).unwrap();
    assert_eq!(suggestion, "read_file");
    assert!((score - 1.0).abs() < f64::EPSILON);

    assert!(best("read_fil", &available, 1.0).is_none());
}

fn failed(message: &str) -> ToolDispatchResult {
    ToolDispatchResult::err("x", message.to_string(), 0)
}

#[test]
fn is_tool_not_found_error_with_phrase() {
    assert!(UnknownToolMiddleware::is_tool_not_found(&failed(
        "Tool 'foo' not found"
    )));
}

#[test]
fn is_tool_not_found_case_insensitive() {
    assert!(UnknownToolMiddleware::is_tool_not_found(&failed(
        "TOOL NOT FOUND"
    )));
}

#[test]
fn is_tool_not_found_success_result() {
    let result = ToolDispatchResult::ok("x", "done".to_string(), 0);
    assert!(!UnknownToolMiddleware::is_tool_not_found(&result));
}

#[test]
fn is_tool_not_found_error_without_phrase() {
    assert!(!UnknownToolMiddleware::is_tool_not_found(&failed(
        "permission denied"
    )));
}

#[test]
fn is_tool_not_found_multipart_error() {
    let result = ToolDispatchResult {
        tool_call_id: String::new(),
        output: ToolResult::Multipart(vec![]),
        is_error: true,
        duration: 0,
        resolved_tool_name: "x".to_string(),
        display_hint: None,
    };
    assert!(!UnknownToolMiddleware::is_tool_not_found(&result));
}

fn layer() -> UnknownToolMiddleware {
    UnknownToolMiddleware::new(vec!["read_file".to_string()])
}

#[test]
fn dispatch_appends_suggestion_for_typo() {
    let result = layer().after_dispatch(&Host, "read_fil", failed("Tool 'read_fil' not found"));
    assert!(result.is_error);
    assert_eq!(
        result.output.to_text(),
        "Tool 'read_fil' not found. Did you mean 'read_file'?"
    );
    assert_eq!(layer().name(), "unknown_tool");
}

#[test]
fn dispatch_suggestion_uses_post_dispatch_tool_name() {
    // The call asked for "xyz" and was redirected to "read_fil" on its way.
    let result = layer().after_dispatch(&Host, "read_fil", failed("Tool 'read_fil' not found"));
    let message = result.output.to_text();
    assert!(
        message.contains("Did you mean 'read_file'?"),
        "suggestion should reflect the renamed tool_name, message was: {message}"
    );
}

#[test]
fn dispatch_known_tool_no_suggestion() {
    let ok = ToolDispatchResult::ok("read_file", "ok".to_string(), 0);
    let result = layer().after_dispatch(&Host, "read_file", ok);
    assert!(!result.is_error, "known tool should not error");
    assert_eq!(result.output.to_text(), "ok");
}

#[test]
fn a_missing_file_is_not_a_missing_tool() {
    let result = layer().after_dispatch(&Host, "read_fil", failed("file not found"));
    assert_eq!(result.output.to_text(), "file not found");
}

#[test]
fn similarity_is_held_between_zero_and_one() {
    let long = "abcdefghijklmnopqrstuvwxyz";
    let cut = "abcdefghijklmnopqrstuvwxy";
    let near = number(UnknownToolMiddleware::similarity(&Host, long, cut));
    assert!(near < 1.0, "only the same name scores one");
    assert_eq!(near, f64::from_bits(1.0_f64.to_bits() - 1));
    let near = UnknownToolMiddleware::similarity(&Host, "abcdefghijkl", "abcdefghijk");
    assert!(number(near) < 1.0, "eleven of twelve letters are not all of them");
    let names = vec!["abcdefghijk".to_string(), "ABCDEFGHIJKL".to_string()];
    let found =
        UnknownToolMiddleware::find_best_match_inner(&Host, "abcdefghijkl", &names, double(0.5));
    let (name, score) = found.expect("a name is found");
    assert_eq!(name, "ABCDEFGHIJKL", "a near name does not tie with the right one");
    assert_eq!(number(score), 1.0);
    assert_eq!(number(UnknownToolMiddleware::similarity(&Host, "", "")), 1.0);
    assert_eq!(number(UnknownToolMiddleware::similarity(&Host, "a", "")), 0.0);
    assert_eq!(number(UnknownToolMiddleware::similarity(&Host, "BASH", "bash")), 1.0);
    let typo = number(UnknownToolMiddleware::similarity(&Host, "bash", "basj"));
    assert!((typo - (0.75 + 0.075)).abs() < 1e-12, "{typo}");
}

#[test]
fn similarity_is_made_of_counts() {
    assert_eq!(
        similarity_parts("kitten", "Sitting"),
        SimilarityParts::Blend {
            common: 4,
            prefix: 0,
            longest: 7
        }
    );
    assert_eq!(
        similarity_parts("bash", "basj"),
        SimilarityParts::Blend {
            common: 3,
            prefix: 3,
            longest: 4
        }
    );
}

#[test]
fn a_threshold_is_held_between_zero_and_one() {
    let strict = layer().with_threshold(double(7.0));
    let message = "Tool 'read_fil' not found";
    let same = strict.after_dispatch(&Host, "read_fil", failed(message));
    assert_eq!(same.output.to_text(), message);
    let lax = layer().with_threshold(double(-3.0));
    let suggested = lax.after_dispatch(&Host, "zzz", failed(message));
    assert!(suggested.output.to_text().ends_with("Did you mean 'read_file'?"));
}

#[test]
fn the_first_of_equal_scores_is_suggested() {
    let (name, _) = best("ab", &["ax", "ay"], 0.1).unwrap();
    assert_eq!(name, "ax");
}
