use document_processor::chunking::chunk_with_offsets;
use document_processor::circuit::CircuitBreaker;
use document_processor::documents::{
    is_blank_query, is_supported_extension, saved_document_id, should_import,
};
use document_processor::embedding::check_embedding_reply;
use document_processor::export::create_chunks;
use document_processor::fusion::fuse_rankings;
use document_processor::highlight::{parse_highlight_markers, HighlightSegment};
use document_processor::metadata::decode_metadata;
use document_processor::render::{
    decimal_string, escape_angle_brackets, markdown_file_name, print_html_file_name,
    render_markdown, render_print_html, sanitize_file_name,
};
use std::time::Duration;

fn seg(text: &str, marked: bool) -> HighlightSegment {
    HighlightSegment { text: text.to_string(), marked }
}

#[test]
fn highlight_span_at_start_and_trailing_text() {
    let segments = parse_highlight_markers("\u{1}umowa\u{2} najmu");
    assert_eq!(segments, vec![seg("umowa", true), seg(" najmu", false)]);
}

#[test]
fn highlight_drops_empty_segments_between_markers() {
    let segments = parse_highlight_markers("\u{1}\u{2}\u{1}x\u{2}\u{2}");
    assert_eq!(segments, vec![seg("x", true)]);
}

#[test]
fn highlight_unterminated_span_stays_marked() {
    let segments = parse_highlight_markers("a\u{1}ążź");
    assert_eq!(segments, vec![seg("a", false), seg("ążź", true)]);
}

#[test]
fn highlight_empty_input_has_no_segments() {
    assert!(parse_highlight_markers("").is_empty());
    assert!(parse_highlight_markers("\u{1}\u{2}").is_empty());
}

#[test]
fn highlight_segments_join_to_text_without_markers() {
    let raw = "Zażółć \u{1}gęślą\u{2} jaźń, \u{1}x\u{2}";
    let joined: String = parse_highlight_markers(raw).iter().map(|s| s.text.as_str()).collect();
    assert_eq!(joined, raw.replace('\u{1}', "").replace('\u{2}', ""));
}

#[test]
fn chunk_offsets_exact_values() {
    let chunks = chunk_with_offsets("Ab. Cd.\nEf", 3);
    assert_eq!(
        chunks,
        vec![("Ab.".to_string(), 0, 3), ("Cd.".to_string(), 4, 7), ("Ef".to_string(), 8, 10)]
    );
}

#[test]
fn chunk_trims_unicode_whitespace_like_str_trim() {
    let text = "\u{a0}Ala.\u{2003}";
    let chunks = chunk_with_offsets(text, 1);
    assert_eq!(chunks, vec![("Ala.".to_string(), 2, 6)]);
    assert_eq!(text[0..6].trim(), "Ala.");
}

#[test]
fn chunk_break_before_target_is_not_a_boundary() {
    let chunks = chunk_with_offsets("a. b. c. d", 100);
    assert_eq!(chunks, vec![("a. b. c. d".to_string(), 0, 10)]);
}

#[test]
fn chunks_cover_every_non_whitespace_character() {
    let text = "Ustawa z dnia 1. Art. 2\n\n  Paragraf trzeci ąę. Koniec";
    let chunks = chunk_with_offsets(text, 7);
    for (i, c) in text.char_indices() {
        if !c.is_whitespace() {
            assert!(chunks.iter().any(|(_, s, e)| *s <= i && i < *e), "byte {i} not covered");
        }
    }
    for w in chunks.windows(2) {
        assert!(w[0].2 <= w[1].1);
    }
    for (t, s, e) in &chunks {
        assert_eq!(&text[*s..*e], t.as_str());
        assert_eq!(t.trim(), t.as_str());
        assert!(!t.is_empty());
    }
}

#[test]
fn create_chunks_packs_sentences_in_one_chunk() {
    assert_eq!(create_chunks("Raz. Dwa. Trzy.", 1000), vec!["Raz. Dwa. Trzy".to_string()]);
}

#[test]
fn create_chunks_starts_new_chunk_when_target_exceeded() {
    assert_eq!(create_chunks("Raz. Dwa. Trzy.", 5), vec!["Raz", "Dwa", "Trzy"]);
    assert_eq!(create_chunks("Raz. Dwa. Trzy.", 6), vec!["Raz. Dwa", "Trzy"]);
}

#[test]
fn create_chunks_splits_on_newlines_and_skips_blank_sentences() {
    assert_eq!(create_chunks("a\n\n  \nb.  .c", 100), vec!["a. b. c"]);
    assert!(create_chunks("  . \n .", 10).is_empty());
    assert!(create_chunks("", 10).is_empty());
}

#[test]
fn decimal_string_matches_to_string() {
    for n in [0u64, 7, 10, 99, 1024, 1234567890123, u64::MAX] {
        assert_eq!(decimal_string(n), n.to_string());
    }
}

#[test]
fn escape_angle_brackets_replaces_both_brackets() {
    assert_eq!(escape_angle_brackets("<b>x</b> & y"), "&lt;b&gt;x&lt;/b&gt; & y");
    assert_eq!(escape_angle_brackets("bez znaków"), "bez znaków");
}

#[test]
fn sanitize_file_name_replaces_other_characters() {
    assert_eq!(sanitize_file_name("umowa najmu (1).pdf"), "umowa_najmu__1_.pdf");
    assert_eq!(sanitize_file_name("Zażółć-gęślą_1.docx"), "Zażółć-gęślą_1.docx");
    assert_eq!(sanitize_file_name("a/b\\c"), "a_b_c");
}

#[test]
fn export_file_names() {
    assert_eq!(print_html_file_name("a b.pdf"), "a_b.pdf_print.html");
    assert_eq!(markdown_file_name("a b.pdf"), "a_b.pdf.md");
}

fn expected_html(
    filename: &str,
    doc_type: Option<&str>,
    pages: Option<u32>,
    words: Option<u32>,
    size: u64,
    full_text: Option<&str>,
) -> String {
    format!(
        r#"<!DOCTYPE html>
<html lang="pl">
<head>
    <meta charset="UTF-8">
    <title>{}</title>
    <style>
        body {{ font-family: Arial, sans-serif; max-width: 800px; margin: 40px auto; padding: 20px; }}
        h1 {{ color: #333; border-bottom: 2px solid #4f46e5; padding-bottom: 10px; }}
        .meta {{ background: #f5f5f5; padding: 15px; border-radius: 8px; margin: 20px 0; display: flex; gap: 30px; }}
        .meta-item {{ }}
        .meta-item strong {{ color: #666; }}
        .content {{ white-space: pre-wrap; line-height: 1.8; font-size: 14px; }}
        @media print {{ body {{ margin: 20px; }} }}
    </style>
</head>
<body>
    <h1>{}</h1>
    <div class="meta">
        <div class="meta-item"><strong>Typ:</strong> {}</div>
        <div class="meta-item"><strong>Strony:</strong> {}</div>
        <div class="meta-item"><strong>Słowa:</strong> {}</div>
        <div class="meta-item"><strong>Rozmiar:</strong> {} KB</div>
    </div>
    <div class="content">{}</div>
    <script>window.onload = function() {{ window.print(); }}</script>
</body>
</html>"#,
        filename,
        filename,
        doc_type.unwrap_or("nieznany"),
        pages.map(|p| p.to_string()).unwrap_or_else(|| "N/A".to_string()),
        words.map(|w| w.to_string()).unwrap_or_else(|| "N/A".to_string()),
        size / 1024,
        full_text.unwrap_or("Brak treści").replace('<', "&lt;").replace('>', "&gt;")
    )
}

#[test]
fn render_print_html_matches_template() {
    let got = render_print_html("umowa.pdf", Some("umowa"), Some(3), Some(1200), 204800, Some("a < b > c"));
    assert_eq!(got, expected_html("umowa.pdf", Some("umowa"), Some(3), Some(1200), 204800, Some("a < b > c")));
    let got = render_print_html("x.txt", None, None, None, 1023, None);
    assert_eq!(got, expected_html("x.txt", None, None, None, 1023, None));
}

#[test]
fn render_markdown_matches_template() {
    let got = render_markdown("u.pdf", None, "/docs/u.pdf", Some(2), None, 512, "2024-01-01T00:00:00Z", Some("Treść <b>"));
    let expected = format!(
        r#"# {}

## Metadane

| Pole | Wartość |
|------|---------|
| Typ dokumentu | {} |
| Ścieżka | {} |
| Strony | {} |
| Słowa | {} |
| Rozmiar | {} bajtów |
| Przetworzono | {} |

## Treść dokumentu

{}
"#,
        "u.pdf", "nieznany", "/docs/u.pdf", "2", "N/A", 512, "2024-01-01T00:00:00Z", "Treść <b>"
    );
    assert_eq!(got, expected);
}

#[test]
fn supported_extensions_ignore_case() {
    for ext in ["pdf", "PDF", "Docx", "doc", "TXT"] {
        assert!(is_supported_extension(ext), "{ext}");
    }
    for ext in ["rtf", "pdfx", "", "do", "tx t"] {
        assert!(!is_supported_extension(ext), "{ext}");
    }
}

#[test]
fn saved_document_id_prefers_the_existing_row() {
    assert_eq!(saved_document_id(Some("old".to_string()), "new"), "old");
    assert_eq!(saved_document_id(None, "new"), "new");
}

#[test]
fn blank_queries_are_detected() {
    assert!(is_blank_query(""));
    assert!(is_blank_query(" \t\n\u{a0}"));
    assert!(!is_blank_query(" najem "));
}

#[test]
fn fuse_rankings_collects_every_position() {
    let lexical = vec!["a".to_string(), "b".to_string(), "a".to_string()];
    let semantic = vec!["b".to_string(), "c".to_string()];
    let fused = fuse_rankings(&lexical, &semantic);
    let got: Vec<(String, Vec<usize>, Vec<usize>)> = fused
        .into_iter()
        .map(|e| (e.id, e.lexical_ranks, e.semantic_ranks))
        .collect();
    assert_eq!(
        got,
        vec![
            ("a".to_string(), vec![0, 2], vec![]),
            ("b".to_string(), vec![1], vec![0]),
            ("c".to_string(), vec![], vec![1]),
        ]
    );
}

#[test]
fn breaker_with_threshold_one_and_explicit_cooldown_decision() {
    let mut cb = CircuitBreaker::new(1, Duration::from_secs(60));
    assert!(cb.allows_attempt_after(false));
    cb.record_result(false);
    assert!(!cb.allows_attempt());
    assert!(!cb.allows_attempt_after(false));
    assert!(cb.allows_attempt_after(true));
    cb.record_result(true);
    assert!(cb.allows_attempt_after(false));
}

#[test]
fn should_import_skips_only_known_documents_unless_forced() {
    assert!(!should_import(false, Some(true)));
    assert!(should_import(false, Some(false)));
    assert!(should_import(false, None));
    assert!(should_import(true, Some(true)));
}

#[test]
fn failed_probe_restarts_cooldown_at_its_own_time() {
    let mut cb = CircuitBreaker::new(2, Duration::from_millis(20));
    let t1 = std::time::Instant::now();
    cb.record_result_at(false, t1);
    assert_eq!(cb.cooldown_started_at(), None);
    cb.record_result_at(false, t1);
    assert_eq!(cb.cooldown_started_at(), Some(t1));
    let t2 = t1 + Duration::from_millis(50);
    cb.record_result_at(false, t2);
    assert_eq!(cb.cooldown_started_at(), Some(t2));
    cb.record_result_at(true, t2);
    assert_eq!(cb.cooldown_started_at(), None);
}

#[test]
fn record_result_restarts_cooldown_with_the_current_time() {
    let mut cb = CircuitBreaker::new(1, Duration::from_secs(60));
    let before = std::time::Instant::now();
    cb.record_result(false);
    let first = cb.cooldown_started_at().unwrap();
    assert!(first >= before);
    cb.record_result(false);
    let second = cb.cooldown_started_at().unwrap();
    assert!(second >= first);
    assert!(!cb.allows_attempt());
}

#[test]
fn embedding_reply_checks() {
    assert_eq!(check_embedding_reply(Some(768)), Ok(()));
    assert_eq!(check_embedding_reply(None), Err("ollama returned no embedding".to_string()));
    assert_eq!(
        check_embedding_reply(Some(384)),
        Err("embedding dimension mismatch: expected 768, got 384".to_string())
    );
}

#[test]
fn highlight_segments_written_back_parse_to_the_same_segments() {
    let segs = vec![seg("To jest ", false), seg("najmu", true), seg("x", true), seg(" lokalu ąę", false)];
    let encoded: String = segs
        .iter()
        .map(|g| if g.marked { format!("\u{1}{}\u{2}", g.text) } else { g.text.clone() })
        .collect();
    assert_eq!(parse_highlight_markers(&encoded), segs);
}

#[test]
fn breaker_decision_at_given_instants() {
    let mut cb = CircuitBreaker::new(2, Duration::from_millis(20));
    let t0 = std::time::Instant::now();
    cb.record_result_at(false, t0);
    assert!(cb.allows_attempt_at(t0));
    cb.record_result_at(false, t0);
    assert!(!cb.allows_attempt_at(t0));
    assert!(!cb.allows_attempt_at(t0 + Duration::from_millis(19)));
    assert!(cb.allows_attempt_at(t0 + Duration::from_millis(20)));
    let t1 = t0 + Duration::from_millis(30);
    cb.record_result_at(false, t1);
    assert!(!cb.allows_attempt_at(t1 + Duration::from_millis(10)));
    assert!(cb.allows_attempt_at(t1 + Duration::from_millis(25)));
    cb.record_result_at(true, t1);
    assert!(cb.allows_attempt_at(t1));
}

#[test]
fn stored_metadata_decodes_or_reads_as_empty() {
    let m = decode_metadata(r#"{"autor":"Jan","strony":"3"}"#);
    let mut expected = std::collections::HashMap::new();
    expected.insert("autor".to_string(), "Jan".to_string());
    expected.insert("strony".to_string(), "3".to_string());
    assert_eq!(m, expected);
    assert!(decode_metadata("").is_empty());
    assert!(decode_metadata("nie json").is_empty());
    assert!(decode_metadata(r#"{"strony":3}"#).is_empty());
}
