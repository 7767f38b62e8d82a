use document_processor::chunking::chunk_with_offsets;
use document_processor::circuit::CircuitBreaker;
use document_processor::fusion::{fuse_rankings, FusedEntry};
use document_processor::highlight::{parse_highlight_markers, HighlightSegment};
use std::time::{Duration, Instant};

fn wait(d: Duration) {
    let t = Instant::now();
    while t.elapsed() < d {}
}

/// Fused scores as the search combines them: `1 / (60 + rank + 1)` summed
/// over the lexical ranks, then the semantic ones; best first.
fn fused_scores(lexical: &[String], semantic: &[String]) -> Vec<(String, f64, bool, bool)> {
    let entries: Vec<FusedEntry> = fuse_rankings(lexical, semantic);
    let mut out: Vec<(String, f64, bool, bool)> = entries
        .into_iter()
        .map(|e| {
            let mut s = 0.0f64;
            for r in &e.lexical_ranks {
                s += 1.0 / (60.0 + *r as f64 + 1.0);
            }
            for r in &e.semantic_ranks {
                s += 1.0 / (60.0 + *r as f64 + 1.0);
            }
            (e.id, s, !e.lexical_ranks.is_empty(), !e.semantic_ranks.is_empty())
        })
        .collect();
    out.sort_by(|a, b| b.1.partial_cmp(&a.1).unwrap());
    out
}

#[test]
fn parse_highlight_markers_splits_marked_and_unmarked_segments() {
    let raw = "To jest \u{1}najmu\u{2} lokalu";
    let segments = parse_highlight_markers(raw);
    assert_eq!(segments.len(), 3);
    assert_eq!(segments[0], HighlightSegment { text: "To jest ".into(), marked: false });
    assert_eq!(segments[1], HighlightSegment { text: "najmu".into(), marked: true });
    assert_eq!(segments[2], HighlightSegment { text: " lokalu".into(), marked: false });
}

#[test]
fn circuit_breaker_starts_closed() {
    let cb = CircuitBreaker::new(3, std::time::Duration::from_secs(60));
    assert!(cb.allows_attempt());
}

#[test]
fn circuit_breaker_opens_after_threshold_consecutive_failures() {
    let mut cb = CircuitBreaker::new(3, std::time::Duration::from_secs(60));
    cb.record_result(false);
    assert!(cb.allows_attempt(), "below threshold, still closed");
    cb.record_result(false);
    assert!(cb.allows_attempt(), "still below threshold");
    cb.record_result(false);
    assert!(!cb.allows_attempt(), "third consecutive failure trips the breaker");
}

#[test]
fn circuit_breaker_a_success_resets_the_failure_count() {
    let mut cb = CircuitBreaker::new(3, std::time::Duration::from_secs(60));
    cb.record_result(false);
    cb.record_result(false);
    cb.record_result(true);
    cb.record_result(false);
    cb.record_result(false);
    assert!(cb.allows_attempt(), "only 2 consecutive failures since the reset");
}

#[test]
fn circuit_breaker_allows_one_probe_after_cooldown_and_closes_on_success() {
    let mut cb = CircuitBreaker::new(2, std::time::Duration::from_millis(20));
    cb.record_result(false);
    cb.record_result(false);
    assert!(!cb.allows_attempt(), "open immediately after tripping");
    wait(std::time::Duration::from_millis(30));
    assert!(cb.allows_attempt(), "cooldown elapsed — one probe let through");
    cb.record_result(true);
    assert!(cb.allows_attempt(), "probe succeeded — breaker closed");
}

#[test]
fn circuit_breaker_reopens_and_restarts_cooldown_if_the_probe_fails() {
    let mut cb = CircuitBreaker::new(2, std::time::Duration::from_millis(20));
    cb.record_result(false);
    cb.record_result(false);
    wait(std::time::Duration::from_millis(30));
    assert!(cb.allows_attempt(), "cooldown elapsed — probe allowed");
    cb.record_result(false); // the probe itself fails
    assert!(!cb.allows_attempt(), "failed probe reopens immediately, doesn't leave it closed");
}

#[test]
fn parse_highlight_markers_handles_no_markers() {
    let segments = parse_highlight_markers("zwykly tekst bez trafien");
    assert_eq!(segments.len(), 1);
    assert!(!segments[0].marked);
}

#[test]
fn parse_highlight_markers_never_leaks_the_raw_control_characters() {
    let raw = "\u{1}kill\u{2} -9 process, \u{1}sudo\u{2} rm";
    let segments = parse_highlight_markers(raw);
    for seg in &segments {
        assert!(!seg.text.contains('\u{1}'));
        assert!(!seg.text.contains('\u{2}'));
    }
}

#[test]
fn chunks_are_exact_substrings_with_correct_offsets() {
    let text = "Pierwsze zdanie. Drugie zdanie tez dosc dlugie tutaj. Trzecie.";
    let chunks = chunk_with_offsets(text, 20);
    for (chunk_text, start, end) in &chunks {
        assert_eq!(&text[*start..*end], chunk_text.as_str());
    }
    assert!(chunks.len() >= 2, "long text should split into >=2 chunks, got {}", chunks.len());
}

#[test]
fn chunk_offsets_survive_polish_diacritics() {
    let text = "Zażółć gęślą jaźń. Kolejne zdanie z polskimi znakami ąęćłńóśźż.";
    let chunks = chunk_with_offsets(text, 10);
    for (chunk_text, start, end) in &chunks {
        assert_eq!(&text[*start..*end], chunk_text.as_str());
    }
}

#[test]
fn short_text_is_a_single_chunk() {
    let chunks = chunk_with_offsets("Krotki tekst.", 1000);
    assert_eq!(chunks.len(), 1);
    assert_eq!(chunks[0].0, "Krotki tekst.");
}

#[test]
fn empty_text_produces_no_chunks() {
    assert_eq!(chunk_with_offsets("", 100).len(), 0);
    assert_eq!(chunk_with_offsets("   \n  ", 100).len(), 0);
}

#[test]
fn rrf_favours_ids_ranked_well_in_both_lists() {
    let lexical = vec!["a".to_string(), "b".to_string(), "c".to_string()];
    let semantic = vec!["b".to_string(), "a".to_string(), "d".to_string()];
    let fused = fused_scores(&lexical, &semantic);
    let top_two: std::collections::HashSet<_> =
        fused.iter().take(2).map(|(id, ..)| id.clone()).collect();
    assert!(top_two.contains("a"));
    assert!(top_two.contains("b"));
}

#[test]
fn rrf_marks_which_list_each_id_came_from() {
    let lexical = vec!["a".to_string()];
    let semantic = vec!["b".to_string()];
    let fused = fused_scores(&lexical, &semantic);
    let a = fused.iter().find(|(id, ..)| id == "a").unwrap();
    assert!(a.2 && !a.3, "a: lexical=true, semantic=false expected");
    let b = fused.iter().find(|(id, ..)| id == "b").unwrap();
    assert!(!b.2 && b.3, "b: lexical=false, semantic=true expected");
}

#[test]
fn rrf_id_in_both_lists_scores_higher_than_id_in_one() {
    let lexical = vec!["shared".to_string(), "only_lexical".to_string()];
    let semantic = vec!["shared".to_string(), "only_semantic".to_string()];
    let fused = fused_scores(&lexical, &semantic);
    let shared_score = fused.iter().find(|(id, ..)| id == "shared").unwrap().1;
    let lexical_only_score = fused.iter().find(|(id, ..)| id == "only_lexical").unwrap().1;
    assert!(shared_score > lexical_only_score);
}
