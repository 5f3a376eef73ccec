use trapo_server::config::{
    choose_app_root, join_path, pdfium_candidate_dirs, resolve_pdfium_dir, web_index_file, LayoutProbe, ServerConfig,
    ServerEnv,
};

fn empty_env() -> ServerEnv {
    ServerEnv {
        app_root: None,
        host: None,
        port: None,
        no_browser: false,
        log_dir: None,
        client_dist: None,
        pdfium_dir: None,
    }
}

fn args(items: &[&str]) -> Vec<String> {
    items.iter().map(|item| item.to_string()).collect()
}

#[test]
fn joins_paths_like_the_platform() {
    assert_eq!(join_path("/srv/trapo", "data", '/'), "/srv/trapo/data");
    assert_eq!(join_path("/srv/trapo/", "data", '/'), "/srv/trapo/data");
    assert_eq!(join_path("", "data", '/'), "data");
    assert_eq!(join_path("C:\\Trapo", "data", '\\'), "C:\\Trapo\\data");
    assert_eq!(join_path("C:/Trapo/", "data", '\\'), "C:/Trapo/data");
}

#[test]
fn resolves_packaged_web_before_source_dist() {
    let packaged = LayoutProbe { web_index_exists: true, pdfium_dir: None };
    let config = ServerConfig::from_env_and_args(&empty_env(), &args(&["trapo"]), "/app".to_string(), '/', packaged);
    assert_eq!(config.client_dist, "/app/web");
    assert_eq!(web_index_file("/app", '/'), "/app/web/index.html");

    let source = LayoutProbe { web_index_exists: false, pdfium_dir: None };
    let config = ServerConfig::from_env_and_args(&empty_env(), &args(&["trapo"]), "/app".to_string(), '/', source);
    assert_eq!(config.client_dist, "/app/src/trapo-client/dist");
}

#[test]
fn resolves_packaged_pdfium_before_dist_fallback() {
    let candidates = pdfium_candidate_dirs("/app", &args(&["trapo-workbench-windows-x64-v0.1.9"]), '/');
    let present: Vec<bool> = candidates
        .iter()
        .map(|dir| {
            dir == "/app/thirdparty/pdfium/bin"
                || dir == "/app/dist/trapo-workbench-windows-x64-v0.1.9/thirdparty/pdfium/bin"
        })
        .collect();
    assert_eq!(resolve_pdfium_dir(&candidates, &present).as_deref(), Some("/app/thirdparty/pdfium/bin"));
}

#[test]
fn resolves_local_dist_pdfium_for_source_runs() {
    let candidates = pdfium_candidate_dirs("/app", &args(&["trapo-workbench-windows-x64-v0.1.9"]), '/');
    let present: Vec<bool> =
        candidates.iter().map(|dir| dir == "/app/dist/trapo-workbench-windows-x64-v0.1.9/thirdparty/pdfium/bin").collect();
    assert_eq!(
        resolve_pdfium_dir(&candidates, &present).as_deref(),
        Some("/app/dist/trapo-workbench-windows-x64-v0.1.9/thirdparty/pdfium/bin")
    );
}

#[test]
fn pdfium_candidates_put_newer_workbenches_first() {
    let entries = args(&["trapo-workbench-linux-x64-v0.1.2", "notes.txt", "trapo-workbench-linux-x64-v0.1.10", "other"]);
    let candidates = pdfium_candidate_dirs("/app", &entries, '/');
    assert_eq!(
        candidates,
        args(&[
            "/app/thirdparty/pdfium/bin",
            "/app/thirdparty/pdfium/lib",
            "/app/thirdparty/pdfium",
            "/app",
            "/app/dist/trapo-workbench-linux-x64-v0.1.2/thirdparty/pdfium/bin",
            "/app/dist/trapo-workbench-linux-x64-v0.1.2/thirdparty/pdfium/lib",
            "/app/dist/trapo-workbench-linux-x64-v0.1.2/thirdparty/pdfium",
            "/app/dist/trapo-workbench-linux-x64-v0.1.10/thirdparty/pdfium/bin",
            "/app/dist/trapo-workbench-linux-x64-v0.1.10/thirdparty/pdfium/lib",
            "/app/dist/trapo-workbench-linux-x64-v0.1.10/thirdparty/pdfium",
        ])
    );
    assert_eq!(resolve_pdfium_dir(&candidates, &vec![false; candidates.len()]), None);
}

#[test]
fn app_root_prefers_environment_then_executable_then_source() {
    let mut env = empty_env();
    let exe = Some("/opt/trapo".to_string());
    assert_eq!(choose_app_root(&env, exe.clone(), &args(&["trapo", "opt"]), "/src".to_string()), "/opt/trapo");
    assert_eq!(
        choose_app_root(&env, Some("/repo/target/debug".to_string()), &args(&["debug", "target", "repo"]), "/src".to_string()),
        "/src"
    );
    assert_eq!(choose_app_root(&env, None, &[], "/src".to_string()), "/src");
    env.app_root = Some("/custom".to_string());
    assert_eq!(choose_app_root(&env, exe, &[], "/src".to_string()), "/custom");
}

#[test]
fn configuration_lays_out_directories_under_the_root() {
    let probe = LayoutProbe { web_index_exists: false, pdfium_dir: Some("/app/thirdparty/pdfium".to_string()) };
    let config =
        ServerConfig::from_env_and_args(&empty_env(), &args(&["trapo", "--port=9000", "--no-browser"]), "/app".to_string(), '/', probe);
    assert_eq!(config.app_root, "/app");
    assert_eq!(config.data_dir, "/app/data");
    assert_eq!(config.cache_dir, "/app/cache");
    assert_eq!(config.log_dir, "/app/logs");
    assert_eq!(config.model_dir, "/app/models");
    assert_eq!(config.database_path, "/app/data/trapo.duckdb");
    assert_eq!(config.pdfium_library_dir.as_deref(), Some("/app/thirdparty/pdfium"));
    assert_eq!(config.host, "127.0.0.1");
    assert_eq!(config.port, 9000);
    assert!(!config.open_browser);
}

#[test]
fn environment_overrides_directories_and_network() {
    let env = ServerEnv {
        app_root: None,
        host: Some("0.0.0.0".to_string()),
        port: Some("8080".to_string()),
        no_browser: false,
        log_dir: Some("/var/log/trapo".to_string()),
        client_dist: Some("/srv/client".to_string()),
        pdfium_dir: Some("/usr/lib/pdfium".to_string()),
    };
    let probe = LayoutProbe { web_index_exists: true, pdfium_dir: Some("/app/thirdparty/pdfium".to_string()) };
    let config = ServerConfig::from_env_and_args(&env, &args(&["trapo", "--port", "7000"]), "C:\\Trapo".to_string(), '\\', probe);
    assert_eq!(config.log_dir, "/var/log/trapo");
    assert_eq!(config.client_dist, "/srv/client");
    assert_eq!(config.pdfium_library_dir.as_deref(), Some("/usr/lib/pdfium"));
    assert_eq!(config.data_dir, "C:\\Trapo\\data");
    assert_eq!(config.database_path, "C:\\Trapo\\data\\trapo.duckdb");
    assert_eq!(config.host, "0.0.0.0");
    assert_eq!(config.port, 7000);
    assert!(config.open_browser);
}
