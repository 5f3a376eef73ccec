use trapo_server::ocr_page::{OcrDocumentOutput, OcrEngineProvenance};
use trapo_server::native::preload_order;
use trapo_server::markers::BoxPoints;
use trapo_server::ocr_page::OverlayBox;
use trapo_server::regions::{is_image_region, markdown_alt, region_snippet_url, text_looks_image_like};
use trapo_server::native::macos_dylib_preload_rank;
use trapo_server::ocr_page::{apply_annotation_id, apply_region_content, parse_ocr_markers, ParseContext};

fn context() -> ParseContext {
    ParseContext {
        file_hash: "hash".to_string(),
        page_no: 1,
        engine_id: "engine".to_string(),
        profile_id: "profile".to_string(),
    }
}

fn assert_close(actual: f64, expected: f64) {
    assert!((actual - expected).abs() < 1e-9);
}

/// Page percent of a coordinate held in thousandths of the 0..=999 grid.
fn percent(milli: u32) -> f64 {
    f64::from(milli) / 1000.0 / 999.0 * 100.0
}

#[test]
fn parses_ref_det_markers() {
    let mut parsed = parse_ocr_markers(
        "A <|ref|>Title<|/ref|><|det|>[[0,0,999,100]]<|/det|> B",
        &context(),
    );
    apply_region_content(&mut parsed);
    assert_eq!(parsed.cleaned_text, "A B");
    assert_eq!(parsed.boxes.len(), 1);
    assert_eq!(parsed.spans[0].start, 2);
    assert_eq!(parsed.spans[0].end, 2);
    assert_eq!(parsed.boxes[0].category, "Title");
    assert_eq!(parsed.boxes[0].content_markdown, "B");
}

#[test]
fn region_content_uses_text_until_next_marker() {
    let mut parsed = parse_ocr_markers(
        "<|ref|>First<|/ref|><|det|>[[0,0,100,100]]<|/det|> body \
         <|ref|>Second<|/ref|><|det|>[[100,0,200,100]]<|/det|> tail",
        &context(),
    );
    apply_region_content(&mut parsed);

    assert_eq!(parsed.cleaned_text, " body tail");
    assert_eq!(parsed.boxes[0].category, "First");
    assert_eq!(parsed.boxes[1].category, "Second");
    assert_eq!(parsed.boxes[0].content_markdown, "body");
    assert_eq!(parsed.boxes[1].content_markdown, "tail");
}

#[test]
fn parses_standalone_det_marker() {
    let parsed = parse_ocr_markers("<|det|>Cell [900,100,100,200]<|/det|>", &context());
    assert_eq!(parsed.cleaned_text, "");
    let b = parsed.boxes[0].bbox;
    assert_close(percent(b.x1), 100.0 / 999.0 * 100.0);
    assert_close(percent(b.x2 - b.x1), 800.0 / 999.0 * 100.0);
}

#[test]
fn macos_preload_rank_orders_runtime_dependencies() {
    let mut names = [
        "libllama-common.0.dylib",
        "libmtmd.0.dylib",
        "libggml-metal.0.dylib",
        "libggml-base.0.dylib",
        "libllama.0.dylib",
        "libggml.0.dylib",
    ];

    names.sort_by_key(|name| (macos_dylib_preload_rank(name), *name));

    assert_eq!(names[0], "libggml-base.0.dylib");
    assert_eq!(names[1], "libggml.0.dylib");
    assert_eq!(names[5], "libllama-common.0.dylib");
}

#[test]
fn preload_ranks_of_each_family() {
    assert_eq!(macos_dylib_preload_rank("libggml-base.dylib"), 0);
    assert_eq!(macos_dylib_preload_rank("libggml.dylib"), 1);
    assert_eq!(macos_dylib_preload_rank("libggml-cpu.dylib"), 2);
    assert_eq!(macos_dylib_preload_rank("libllama.dylib"), 3);
    assert_eq!(macos_dylib_preload_rank("libmtmd.dylib"), 4);
    assert_eq!(macos_dylib_preload_rank("libllama-common.dylib"), 5);
    assert_eq!(macos_dylib_preload_rank("libother.dylib"), 6);
}

#[test]
fn marker_boxes_are_normalised_and_keyed() {
    let parsed = parse_ocr_markers("x <|ref|>Cap<|/ref|><|det|>[[10,20,5,1.5]]<|/det|>y", &context());
    assert_eq!(parsed.boxes.len(), 1);
    let b = parsed.boxes[0].bbox;
    assert_eq!((b.x1, b.y1, b.x2, b.y2), (5_000, 1_500, 10_000, 20_000));
    assert_eq!(parsed.boxes[0].page_no, 1);
    assert_eq!(parsed.spans.len(), 1);
    assert_eq!(parsed.spans[0].source_region_key, parsed.boxes[0].source_region_key);
    assert!(parsed.boxes[0].source_region_key.starts_with("src_"));
}

#[test]
fn annotation_ids_reach_every_part_of_a_region() {
    let mut parsed = parse_ocr_markers(
        "<|ref|>A<|/ref|><|det|>[[0,0,10,10]]<|/det|>one <|ref|>B<|/ref|><|det|>[[0,0,20,20]]<|/det|>two",
        &context(),
    );
    let key = parsed.boxes[0].source_region_key.clone();
    let other = parsed.boxes[1].region_id.clone();
    apply_annotation_id(&mut parsed, &key, "ann-1");
    assert_eq!(parsed.boxes[0].annotation_id, "ann-1");
    assert_eq!(parsed.boxes[0].region_id, "ann-1");
    assert_eq!(parsed.spans[0].annotation_id, "ann-1");
    assert_eq!(parsed.spans[0].region_id, "ann-1");
    assert_eq!(parsed.boxes[1].region_id, other);
    assert_ne!(parsed.boxes[1].annotation_id, "ann-1");
}

#[test]
fn preload_order_sorts_by_rank_then_name() {
    let names: Vec<String> = ["libmtmd.0.dylib", "libggml-metal.0.dylib", "libggml-cpu.0.dylib", "libggml-base.0.dylib", "zzz.dylib"]
        .iter()
        .map(|s| s.to_string())
        .collect();
    assert_eq!(
        preload_order(names),
        vec!["libggml-base.0.dylib", "libggml-cpu.0.dylib", "libggml-metal.0.dylib", "libmtmd.0.dylib", "zzz.dylib"]
    );
}

#[test]
fn region_pictures_urls_and_alt_texts() {
    let region = |label: &str, markdown: &str, html: Option<&str>| OverlayBox {
        annotation_id: String::new(),
        region_id: String::new(),
        source_region_key: String::new(),
        label: label.to_string(),
        category: label.to_string(),
        content_markdown: markdown.to_string(),
        content_html: html.map(str::to_string),
        page_no: 1,
        bbox: BoxPoints { x1: 0, y1: 0, x2: 1, y2: 1 },
        hidden: false,
        geometry_json: None,
    };
    assert!(text_looks_image_like(&region("Figure", "", None)));
    assert!(text_looks_image_like(&region("text", "A bar CHART of sales", None)));
    assert!(!text_looks_image_like(&region("text", "plain words", None)));
    assert!(is_image_region(&region("text", "", Some("image-snippet"))));
    assert!(!is_image_region(&region("text", "", Some("table"))));
    assert_eq!(markdown_alt(" [Fig] 1 "), "Fig  1");
    assert_eq!(region_snippet_url("h", "r"), "/api/documents/h/regions/r/snippet");
}

#[test]
fn normalizes_parsed_markers_to_shared_output() {
    let mut parsed = parse_ocr_markers(
        "<|ref|>Total<|/ref|><|det|>[[10,20,110,60]]<|/det|> total due",
        &ParseContext {
            file_hash: "hash".to_string(),
            page_no: 2,
            engine_id: "unlimited-ocr".to_string(),
            profile_id: "profile".to_string(),
        },
    );
    apply_region_content(&mut parsed);
    let output = OcrDocumentOutput::from_parsed_page(
        &parsed,
        OcrEngineProvenance {
            engine_id: "unlimited-ocr".to_string(),
            pipeline: "marker".to_string(),
            model_id: Some("model".to_string()),
            runtime_id: Some("runtime".to_string()),
            metadata_json: "{}".to_string(),
        },
    );

    assert_eq!(output.pages[0].page_no, 2);
    assert_eq!(output.pages[0].annotations[0].category, "Total");
    assert_eq!(output.pages[0].annotations[0].geometry.kind, "axis_aligned");
    assert_eq!(output.provenance.engine_id, "unlimited-ocr");
}

#[test]
fn shared_output_carries_spans_and_boxes() {
    let parsed = parse_ocr_markers(
        "<|ref|>Total<|/ref|><|det|>[[10,20,110,60]]<|/det|> total due",
        &context(),
    );
    let output = OcrDocumentOutput::from_parsed_page(
        &parsed,
        OcrEngineProvenance { engine_id: "e".to_string(), pipeline: "marker".to_string(), model_id: None, runtime_id: None, metadata_json: "{}".to_string() },
    );
    let page = &output.pages[0];
    assert_eq!(page.text, parsed.cleaned_text);
    assert_eq!(page.annotations.len(), parsed.boxes.len());
    assert_eq!(page.spans.len(), parsed.spans.len());
    let annotation = &page.annotations[0];
    assert_eq!(annotation.geometry.bbox, parsed.boxes[0].bbox);
    assert_eq!(annotation.source_region_key, parsed.boxes[0].source_region_key);
    let span = annotation.text_span.as_ref().unwrap();
    assert_eq!((span.start, span.end), (parsed.spans[0].start, parsed.spans[0].end));
    assert!(output.warnings.is_empty());
    assert_eq!(page.timing_ms, None);

    let empty = parse_ocr_markers("no regions here", &context());
    let output = OcrDocumentOutput::from_parsed_page(
        &empty,
        OcrEngineProvenance { engine_id: "e".to_string(), pipeline: "plain".to_string(), model_id: None, runtime_id: None, metadata_json: "{}".to_string() },
    );
    assert_eq!(output.pages[0].page_no, 1);
    assert!(output.pages[0].annotations.is_empty());
}

#[test]
fn parses_geometry_sidecar_for_rotated_markers() {
    let parsed = parse_ocr_markers(
        r#"<|ref|>Total<|/ref|><|det|>[[100,200,400,320]]<|/det|><|geom|>{"kind":"rotated_quad","points":[{"x":11.0,"y":20.0},{"x":41.0,"y":24.0},{"x":39.0,"y":34.0},{"x":9.0,"y":30.0}],"rotation_degrees":8.5,"layer_id":"source","coordinate_space":"page_percent","bounds":{"left":9.0,"top":20.0,"width":32.0,"height":14.0}}<|/geom|> total due"#,
        &context(),
    );

    let Some(raw) = parsed.boxes[0].geometry_json.as_ref() else {
        panic!("geometry sidecar should parse");
    };
    let geometry: serde_json::Value = serde_json::from_str(raw).expect("sidecar holds JSON");
    assert_eq!(geometry["kind"], "rotated_quad");
    assert_eq!(geometry["points"].as_array().map(Vec::len), Some(4));
    assert_eq!(geometry["rotation_degrees"].as_f64(), Some(8.5));
}

#[test]
fn geometry_sidecar_belongs_to_its_marker() {
    let parsed = parse_ocr_markers("A <|det|>x [1,2,3,4]<|/det|><|geom|> {\"k\":1} <|/geom|> tail", &context());
    assert_eq!(parsed.cleaned_text, "A tail");
    assert_eq!(parsed.boxes.len(), 1);
    assert_eq!(parsed.boxes[0].geometry_json.as_deref(), Some("{\"k\":1}"));

    let two = parse_ocr_markers("<|det|>[1,2,3,4][5,6,7,8]<|/det|><|geom|>{}<|/geom|>", &context());
    assert_eq!(two.boxes.len(), 2);
    assert!(two.boxes.iter().all(|b| b.geometry_json.is_none()));
    assert_eq!(two.cleaned_text, "");

    let apart = parse_ocr_markers("<|det|>[1,2,3,4]<|/det|> <|geom|>{}<|/geom|>", &context());
    assert!(apart.boxes[0].geometry_json.is_none());
    assert_eq!(apart.cleaned_text, " <|geom|>{}<|/geom|>");
}

#[test]
fn region_keys_write_coordinates_as_numbers() {
    let raw = "<|det|>x [1.5,2,3.25,4.125]<|/det|>";
    let parsed = parse_ocr_markers(raw, &context());
    assert_eq!(
        parsed.boxes[0].source_region_key,
        format!("src_hash|1|engine|profile|0:{}|x|1.5,2,3.25,4.125", raw.len())
    );
    let clamped = parse_ocr_markers("<|det|>[-3,1000,12.05,0.5]<|/det|>", &context());
    assert!(clamped.boxes[0].source_region_key.ends_with("|det|0,0.5,12.05,999"));
}
