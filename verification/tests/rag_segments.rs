use trapo_server::segments::page_segment_groups;
use trapo_server::ocr_page::TextRegionSpan;
use trapo_server::segments::{
    annotation_id_for_segment, append_page_segments, estimate_tokens, rag_segment_text_is_clean,
    rag_text_chunks, rag_text_segments_are_current, ranges_overlap, PageTextRecord, RagTextSegmentRow,
    RAG_SEGMENT_TARGET_TOKENS,
};

#[test]
fn cjk_text_is_chunked_under_embedding_batch_limit() {
    let text = "饮用水卫生标准".repeat(180);
    let chunks = rag_text_chunks(&text);

    assert!(chunks.len() > 1);
    for (start, end) in chunks {
        let chunk = &text[start..end];
        assert!(estimate_tokens(chunk) <= RAG_SEGMENT_TARGET_TOKENS);
    }
}

#[test]
fn append_page_segments_preserves_offsets_for_chunks() {
    let mut segments = Vec::new();
    append_page_segments(
        "run-a",
        "file-a",
        vec![PageTextRecord {
            page_no: 1,
            text: "水".repeat(900),
            spans: Vec::new(),
        }],
        &mut segments,
    );

    assert!(segments.len() > 1);
    assert_eq!(segments[0].source_kind, "page_chunk");
    assert_eq!(segments[0].text_start, 0);
    assert!(segments[0].text_end > segments[0].text_start);
    assert!(segments
        .iter()
        .all(|segment| segment.token_estimate <= RAG_SEGMENT_TARGET_TOKENS));
}

#[test]
fn stale_or_oversized_text_segments_are_rebuilt() {
    let mut segments = Vec::new();
    append_page_segments(
        "run-a",
        "file-a",
        vec![PageTextRecord {
            page_no: 1,
            text: "short text".to_string(),
            spans: Vec::new(),
        }],
        &mut segments,
    );

    assert!(rag_text_segments_are_current(&segments));
    segments[0].source_kind = "page".to_string();
    assert!(!rag_text_segments_are_current(&segments));
    segments[0].source_kind = "page_chunk".to_string();
    segments[0].token_estimate = RAG_SEGMENT_TARGET_TOKENS + 1;
    assert!(!rag_text_segments_are_current(&segments));
}

#[test]
fn detector_marker_only_page_creates_no_rag_text_segments() {
    let mut segments = Vec::new();
    append_page_segments(
        "run-a",
        "file-a",
        vec![PageTextRecord {
            page_no: 1,
            text: "<|det|>image [164, 0, 842, 999]<|/det|>".to_string(),
            spans: Vec::new(),
        }],
        &mut segments,
    );

    assert!(segments.is_empty());
}

#[test]
fn category_prefixes_are_stored_as_segment_categories() {
    let mut segments = Vec::new();
    append_page_segments(
        "run-a",
        "file-a",
        vec![PageTextRecord {
            page_no: 1,
            text: [
                "header Quarterly results\n",
                "text Revenue grew across all product lines.\n",
                "aside Preliminary unaudited statement\n",
                "<|det|>image [164, 0, 842, 999]<|/det|>\n",
            ]
            .concat(),
            spans: Vec::new(),
        }],
        &mut segments,
    );

    assert_eq!(segments.len(), 3);
    assert_eq!(segments[0].category, "header");
    assert_eq!(segments[0].text, "Quarterly results");
    assert_eq!(segments[0].text_start, "header ".len() as u64);
    assert_eq!(segments[1].category, "text");
    assert_eq!(segments[1].text, "Revenue grew across all product lines.");
    assert_eq!(segments[2].category, "aside");
    assert_eq!(segments[2].text, "Preliminary unaudited statement");
    assert!(segments
        .iter()
        .all(|segment| !segment.text.contains("<|det|>")));
    assert!(rag_text_segments_are_current(&segments));
}

#[test]
fn appended_segments_preserve_overlapping_annotation_id() {
    let mut segments = Vec::new();
    append_page_segments(
        "run-a",
        "file-a",
        vec![PageTextRecord {
            page_no: 1,
            text: "title Annual report\ntext Revenue grew.".to_string(),
            spans: vec![
                TextRegionSpan {
                    annotation_id: "018f7a9b-10a0-7aa0-8f00-100000000001".to_string(),
                    end: 19,
                    page_no: 1,
                    region_id: "legacy-region-a".to_string(),
                    source_region_key: "source-a".to_string(),
                    start: 6,
                },
                TextRegionSpan {
                    annotation_id: "018f7a9b-10a0-7aa0-8f00-100000000002".to_string(),
                    end: 38,
                    page_no: 1,
                    region_id: "legacy-region-b".to_string(),
                    source_region_key: "source-b".to_string(),
                    start: 25,
                },
            ],
        }],
        &mut segments,
    );

    assert_eq!(
        segments[0].annotation_id.as_deref(),
        Some("018f7a9b-10a0-7aa0-8f00-100000000001")
    );
    assert_eq!(
        segments[1].annotation_id.as_deref(),
        Some("018f7a9b-10a0-7aa0-8f00-100000000002")
    );
}

#[test]
fn stale_marker_or_category_prefixed_segments_are_rebuilt() {
    let mut segments = Vec::new();
    append_page_segments(
        "run-a",
        "file-a",
        vec![PageTextRecord {
            page_no: 1,
            text: "plain text".to_string(),
            spans: Vec::new(),
        }],
        &mut segments,
    );

    segments[0].text = "<|det|>image [1,2,3,4]<|/det|>".to_string();
    assert!(!rag_text_segments_are_current(&segments));
    segments[0].text = "image [1,2,3,4]".to_string();
    assert!(!rag_text_segments_are_current(&segments));
}

#[test]
fn token_estimate_counts_ascii_by_fours_and_others_singly() {
    assert_eq!(estimate_tokens(""), 0);
    assert_eq!(estimate_tokens("abcd"), 1);
    assert_eq!(estimate_tokens("abcde"), 2);
    assert_eq!(estimate_tokens("水水"), 2);
    assert_eq!(estimate_tokens("ab水"), 2);
}

#[test]
fn chunks_are_greedy_byte_ranges() {
    let text = "水".repeat(300);
    let chunks = rag_text_chunks(&text);
    assert_eq!(chunks, vec![(0, 256 * 3), (256 * 3, 300 * 3)]);
    assert!(rag_text_chunks("").is_empty());
}

#[test]
fn rows_locate_their_text_in_the_page() {
    let page_text = "  title Big heading  \n<|ref|>x<|/ref|> body text\n";
    let mut segments: Vec<RagTextSegmentRow> = Vec::new();
    append_page_segments(
        "run-b",
        "file-b",
        vec![
            PageTextRecord {
                page_no: 2,
                text: page_text.to_string(),
                spans: Vec::new(),
            },
            PageTextRecord {
                page_no: 3,
                text: "caption Ünïcode".to_string(),
                spans: Vec::new(),
            },
        ],
        &mut segments,
    );
    assert_eq!(segments.len(), 3);
    for (index, row) in segments.iter().enumerate() {
        assert_eq!(row.segment_index as usize, index);
        assert_eq!(row.source_run_id, "run-b");
        assert_eq!(row.file_hash, "file-b");
        assert_eq!(row.segment_id.len(), 36);
    }
    assert_eq!(segments[0].category, "page_text");
    assert_eq!(segments[0].text, "title Big heading");
    assert_eq!(
        &page_text[segments[0].text_start as usize..segments[0].text_end as usize],
        segments[0].text
    );
    assert_eq!(segments[1].text, "body text");
    assert_eq!(
        &page_text[segments[1].text_start as usize..segments[1].text_end as usize],
        segments[1].text
    );
    assert_eq!(segments[2].page_no, 3);
    assert_eq!(segments[2].category, "caption");
    assert_eq!(segments[2].text, "Ünïcode");
    assert_eq!(segments[2].text_start, 8);
    assert_eq!(segments[2].text_end, 8 + "Ünïcode".len() as u64);
    assert!(rag_text_segments_are_current(&segments[1..]));
}

#[test]
fn appending_keeps_existing_rows_and_numbers_after_them() {
    let mut segments = Vec::new();
    append_page_segments(
        "run-a",
        "file-a",
        vec![PageTextRecord { page_no: 1, text: "one".to_string(), spans: Vec::new() }],
        &mut segments,
    );
    let first_id = segments[0].segment_id.clone();
    append_page_segments(
        "run-a",
        "file-a",
        vec![PageTextRecord { page_no: 2, text: "two".to_string(), spans: Vec::new() }],
        &mut segments,
    );
    assert_eq!(segments.len(), 2);
    assert_eq!(segments[0].segment_id, first_id);
    assert_eq!(segments[0].text, "one");
    assert_eq!(segments[1].segment_index, 1);
    assert_eq!(segments[1].text, "two");
}

#[test]
fn empty_segment_list_is_not_current() {
    assert!(!rag_text_segments_are_current(&[]));
}

#[test]
fn clean_text_has_no_marker_or_leading_category() {
    assert!(rag_segment_text_is_clean("Quarterly results"));
    assert!(!rag_segment_text_is_clean("a <|/ref|> b"));
    assert!(!rag_segment_text_is_clean("header Quarterly results"));
    assert!(rag_segment_text_is_clean("headers are fine"));
}

#[test]
fn half_open_ranges_overlap_only_when_they_share_a_byte() {
    assert!(ranges_overlap(0, 5, 4, 10));
    assert!(!ranges_overlap(0, 5, 5, 10));
    assert!(!ranges_overlap(6, 7, 0, 6));
    assert!(ranges_overlap(3, 4, 0, 10));
}

#[test]
fn annotation_id_needs_an_id_the_same_page_and_an_overlap() {
    let span = |id: &str, page_no: u32, start: u64, end: u64| TextRegionSpan {
        annotation_id: id.to_string(),
        region_id: String::new(),
        source_region_key: String::new(),
        page_no,
        start,
        end,
    };
    let page = PageTextRecord {
        page_no: 4,
        text: "0123456789".to_string(),
        spans: vec![span("", 4, 0, 10), span("other-page", 5, 0, 10), span("hit", 4, 2, 3), span("late", 4, 2, 3)],
    };
    assert_eq!(annotation_id_for_segment(&page, 0, 3).as_deref(), Some("hit"));
    assert_eq!(annotation_id_for_segment(&page, 3, 9), None);
}

#[test]
fn rows_are_grouped_by_page_in_key_order() {
    let mut rows = Vec::new();
    append_page_segments(
        "run",
        "file-b",
        vec![
            PageTextRecord { page_no: 2, text: "b2 one\nb2 two".to_string(), spans: Vec::new() },
            PageTextRecord { page_no: 1, text: "b1".to_string(), spans: Vec::new() },
        ],
        &mut rows,
    );
    append_page_segments(
        "run",
        "file-a",
        vec![PageTextRecord { page_no: 9, text: "a9".to_string(), spans: Vec::new() }],
        &mut rows,
    );
    append_page_segments(
        "run",
        "file-b",
        vec![PageTextRecord { page_no: 2, text: "b2 three".to_string(), spans: Vec::new() }],
        &mut rows,
    );
    let groups = page_segment_groups(&rows);
    let summary: Vec<(String, u32, Vec<usize>)> =
        groups.into_iter().map(|g| (g.file_hash, g.page_no, g.members)).collect();
    assert_eq!(
        summary,
        vec![
            ("file-a".to_string(), 9, vec![3]),
            ("file-b".to_string(), 1, vec![2]),
            ("file-b".to_string(), 2, vec![0, 1, 4]),
        ]
    );
    assert!(page_segment_groups(&[]).is_empty());
}
