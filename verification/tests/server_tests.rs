use contexter::config::Config;
use contexter::contexter::WalkEntry;
use contexter::document::FileInput;
use contexter::server::{ContexterRequest, ServiceError};
use contexter::server_handlers::{
    get_project_content, get_project_metadata, list_project_files, list_projects,
    plan_aggregation, resolve_project, run_contexter,
};
use contexter::utils::{handle_config_generate_key, hash_api_key};

fn configured() -> (Config, String) {
    let mut config = Config::default();
    let secret = handle_config_generate_key(&mut config, "admin".to_string());
    config.add_project(
        "test_project".to_string(),
        "/path/to/test_project".to_string(),
    );
    (config, secret)
}

fn entry(path: &str, content: &str) -> WalkEntry {
    WalkEntry {
        path: path.to_string(),
        is_file: true,
        prefix: Some(content.as_bytes().to_vec()),
    }
}

fn file(path: &str, content: &str) -> FileInput {
    FileInput {
        path: path.to_string(),
        content: Some(content.to_string()),
        size: content.len() as u64,
        modified: 1_700_000_000,
    }
}

#[test]
fn test_list_projects() {
    let (config, secret) = configured();
    let resp = list_projects(&config, &secret).unwrap();
    assert_eq!(resp.projects.len(), 1);
    assert_eq!(resp.projects[0].name, "test_project");
    assert_eq!(resp.projects[0].path, "/path/to/test_project");
}

#[test]
fn test_list_projects_unauthorized() {
    let (config, _secret) = configured();
    let err = list_projects(&config, "wrong_key").err().unwrap();
    assert_eq!(err, ServiceError::Unauthorized);
}

#[test]
fn test_unauthorized_access() {
    // No credentials at all: even the empty credential is rejected,
    // before any project lookup happens.
    let mut config = Config::default();
    config.add_project("p".to_string(), "/p".to_string());
    assert_eq!(list_projects(&config, "").err().unwrap(), ServiceError::Unauthorized);
    assert_eq!(
        resolve_project(&config, "", "p").err().unwrap(),
        ServiceError::Unauthorized
    );
}

#[test]
fn test_project_not_found() {
    let (config, secret) = configured();
    let err = resolve_project(&config, &secret, "nonexistent_project")
        .err()
        .unwrap();
    assert_eq!(err, ServiceError::NotFound);
}

#[test]
fn test_get_project_metadata() {
    let (config, secret) = configured();
    let entries = vec![
        entry("/path/to/test_project/file1.rs", "// test file1\n"),
        entry("/path/to/test_project/subfolder/file2.rs", "// test file2\n"),
    ];
    let meta = get_project_metadata(&config, &secret, "test_project", entries).unwrap();
    assert_eq!(meta.name, "test_project");
    assert_eq!(meta.path, "/path/to/test_project");
    assert_eq!(meta.files, vec!["file1.rs", "subfolder/file2.rs"]);
}

#[test]
fn test_list_project_files() {
    let (config, secret) = configured();
    let entries = vec![
        entry("/path/to/test_project/file1.txt", "Test content 1\n"),
        entry("/path/to/test_project/file2.txt", "Test content 2\n"),
        entry("/path/to/test_project/subfolder/file3.txt", "Test content 3\n"),
    ];
    let resp = list_project_files(&config, &secret, "test_project", entries).unwrap();
    assert_eq!(resp.files, vec!["file1.txt", "file2.txt", "subfolder/file3.txt"]);
}

#[test]
fn test_get_project_content() {
    let (config, secret) = configured();
    let files = vec![file("/path/to/test_project/test.txt", "Test content\n")];
    let resp = get_project_content(&config, &secret, "test_project", files).unwrap();
    assert!(resp.content.contains("Test content"));
    assert!(resp.content.contains("Section: Documentation"));
}

#[test]
fn test_get_project_content_not_found() {
    let (config, secret) = configured();
    let err = get_project_content(&config, &secret, "nonexistent", vec![])
        .err()
        .unwrap();
    assert_eq!(err, ServiceError::NotFound);
}

#[test]
fn test_plan_aggregation_whole_project() {
    let (config, secret) = configured();
    let req = ContexterRequest { paths: None };
    let roots = plan_aggregation(&config, &secret, "test_project", &req).unwrap();
    assert_eq!(roots, vec!["/path/to/test_project"]);
}

#[test]
fn test_plan_aggregation_sub_paths() {
    let (config, secret) = configured();
    let req = ContexterRequest {
        paths: Some(vec!["file1.rs".to_string(), "subfolder".to_string()]),
    };
    let roots = plan_aggregation(&config, &secret, "test_project", &req).unwrap();
    assert_eq!(
        roots,
        vec![
            "/path/to/test_project/file1.rs",
            "/path/to/test_project/subfolder"
        ]
    );
}

#[test]
fn test_plan_aggregation_rejects_escape() {
    let (config, secret) = configured();
    for bad in ["../secrets", "a/../../b", "/etc/passwd", ".."] {
        let req = ContexterRequest {
            paths: Some(vec![bad.to_string()]),
        };
        let err = plan_aggregation(&config, &secret, "test_project", &req)
            .err()
            .unwrap();
        assert_eq!(err, ServiceError::BadRequest, "path {:?} must be refused", bad);
    }
}

#[test]
fn test_plan_aggregation_accepts_inner_dots() {
    let (config, secret) = configured();
    let req = ContexterRequest {
        paths: Some(vec!["a..b/c.rs".to_string()]),
    };
    assert!(plan_aggregation(&config, &secret, "test_project", &req).is_ok());
}

#[test]
fn test_run_contexter() {
    let (config, secret) = configured();
    let req = ContexterRequest { paths: None };
    let files = vec![
        file("/path/to/test_project/file1.rs", "// test file1\n"),
        file("/path/to/test_project/subfolder/file2.rs", "// test file2\n"),
    ];
    let resp = run_contexter(&config, &secret, "test_project", &req, files).unwrap();
    assert!(resp.content.contains("// test file1"));
    assert!(resp.content.contains("// test file2"));
}

#[test]
fn test_run_contexter_unauthorized() {
    let (config, _secret) = configured();
    let req = ContexterRequest { paths: None };
    let err = run_contexter(&config, "bad", "test_project", &req, vec![])
        .err()
        .unwrap();
    assert_eq!(err, ServiceError::Unauthorized);
}

#[test]
fn test_run_contexter_invalid_request() {
    let (config, secret) = configured();
    let req = ContexterRequest {
        paths: Some(vec!["../outside".to_string()]),
    };
    let err = run_contexter(&config, &secret, "test_project", &req, vec![])
        .err()
        .unwrap();
    assert_eq!(err, ServiceError::BadRequest);
}

#[test]
fn test_remove_missing_project() {
    let mut config = Config::default();
    config.add_project("present".to_string(), "/p".to_string());
    let found = contexter::utils::handle_config_remove_project(&mut config, "missing");
    assert!(!found);
    // Nothing changed, and nothing blew up.
    assert_eq!(config.projects.len(), 1);
    assert_eq!(config.projects[0].name, "present");
}

#[test]
fn test_registry_updates() {
    let mut config = Config::default();
    assert_eq!(config.port, 3030);
    assert_eq!(config.listen_address, "127.0.0.1");

    contexter::utils::handle_config_set_port(&mut config, 8080);
    contexter::utils::handle_config_set_address(&mut config, "0.0.0.0".to_string());
    assert_eq!(config.port, 8080);
    assert_eq!(config.listen_address, "0.0.0.0");

    contexter::utils::handle_config_add_project(
        &mut config,
        "p".to_string(),
        "/first".to_string(),
    );
    contexter::utils::handle_config_add_project(
        &mut config,
        "p".to_string(),
        "/second".to_string(),
    );
    assert_eq!(config.projects.len(), 1);
    assert_eq!(config.projects[0].value, "/second");

    let found = contexter::utils::handle_config_remove_project(&mut config, "p");
    assert!(found);
    assert_eq!(config.projects.len(), 0);
}

#[test]
fn test_error_descriptions() {
    assert_eq!(
        ServiceError::Unauthorized.describe(),
        "Invalid or missing API key"
    );
    assert_eq!(ServiceError::NotFound.describe(), "Project not found");
    assert_eq!(ServiceError::BadRequest.describe(), "Invalid request path");
    assert_eq!(ServiceError::Internal.describe(), "Internal server error");
}

#[test]
fn test_hash_collision_requires_matching_hash() {
    // Authorization compares hashes, not plaintext: a stored hash that is
    // not the hash of any presented secret never matches it.
    let mut config = Config::default();
    config.add_api_key("weird".to_string(), "not-a-real-hash".to_string());
    assert!(!contexter::utils::validate_api_key(&config, "not-a-real-hash"));
    let secret = "s3cret";
    config.add_api_key("real".to_string(), hash_api_key(secret));
    assert!(contexter::utils::validate_api_key(&config, secret));
}
