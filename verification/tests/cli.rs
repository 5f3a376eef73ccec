use trapo_server::cli::{early_command, EarlyCommand};

fn args(items: &[&str]) -> Vec<String> {
    items.iter().map(|item| item.to_string()).collect()
}

#[test]
fn help_wins_over_everything() {
    assert!(matches!(early_command(&args(&["trapo", "--check-ocr-runtime", "x", "-h"])), Some(EarlyCommand::Help)));
    assert!(matches!(early_command(&args(&["trapo", "-V", "--help"])), Some(EarlyCommand::Help)));
}

#[test]
fn version_comes_before_runtime_checks() {
    assert!(matches!(early_command(&args(&["trapo", "--check-ocr-runtime", "x", "-V"])), Some(EarlyCommand::Version)));
}

#[test]
fn runtime_checks_take_the_next_argument() {
    match early_command(&args(&["trapo", "--check-ocr-runtime", "/opt/uocr.so"])) {
        Some(EarlyCommand::CheckOcrRuntime(path)) => assert_eq!(path.as_deref(), Some("/opt/uocr.so")),
        _ => panic!("expected an OCR runtime check"),
    }
    match early_command(&args(&["trapo", "--check-embedding-runtime", ""])) {
        Some(EarlyCommand::CheckEmbeddingRuntime(path)) => assert_eq!(path, None),
        _ => panic!("expected an embedding runtime check"),
    }
    match early_command(&args(&["trapo", "--check-ocr-runtime"])) {
        Some(EarlyCommand::CheckOcrRuntime(path)) => assert_eq!(path, None),
        _ => panic!("expected an OCR runtime check"),
    }
}

#[test]
fn embedding_worker_takes_two_paths() {
    match early_command(&args(&["trapo", "--embedding-worker", "req.json", "resp.json"])) {
        Some(EarlyCommand::EmbeddingWorker(request, response)) => {
            assert_eq!(request.as_deref(), Some("req.json"));
            assert_eq!(response.as_deref(), Some("resp.json"));
        }
        _ => panic!("expected the embedding worker"),
    }
    match early_command(&args(&["trapo", "--embedding-worker", "req.json"])) {
        Some(EarlyCommand::EmbeddingWorker(request, response)) => {
            assert_eq!(request.as_deref(), Some("req.json"));
            assert_eq!(response, None);
        }
        _ => panic!("expected the embedding worker"),
    }
}

#[test]
fn self_tests_and_plain_starts() {
    match early_command(&args(&["trapo", "--self-test-log-panic", "/tmp/logs"])) {
        Some(EarlyCommand::SelfTestLogPanic(dir)) => assert_eq!(dir.as_deref(), Some("/tmp/logs")),
        _ => panic!("expected the panic self-test"),
    }
    assert!(matches!(early_command(&args(&["trapo", "--self-test-child-stderr"])), Some(EarlyCommand::SelfTestChildStderr)));
    assert!(early_command(&args(&["trapo", "--port", "9000", "--no-browser"])).is_none());
    assert!(early_command(&[]).is_none());
}
