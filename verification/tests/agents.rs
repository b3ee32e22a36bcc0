use friday_core::agents::{detect, known_agent_list, which, AgentInfo};

/// The directories of a usual Unix PATH (the environment itself is not read in tests).
fn path_dirs() -> Vec<String> {
    ["/usr/local/sbin", "/usr/local/bin", "/usr/sbin", "/usr/bin", "/sbin", "/bin"]
        .iter()
        .map(|s| s.to_string())
        .collect()
}

fn is_file(p: &str) -> bool {
    std::path::Path::new(p).is_file()
}

#[test]
fn detects_a_binary_that_exists() {
    // `sh` is on PATH on every unix box.
    assert!(which("sh", &path_dirs(), &is_file).is_some());
    assert!(which("this-binary-does-not-exist-friday", &path_dirs(), &is_file).is_none());
    assert_eq!(detect(&path_dirs(), &is_file).len(), known_agent_list().len());
}

#[test]
fn which_takes_the_first_directory_that_has_the_file() {
    let dirs = vec!["/opt/a".to_string(), "/usr/bin/".to_string(), "/bin".to_string()];
    let found = which("codex", &dirs, &|p: &str| p == "/usr/bin/codex" || p == "/bin/codex");
    assert_eq!(found, Some("/usr/bin/codex".to_string()));
    assert_eq!(which("codex", &dirs, &|_p: &str| false), None);
    assert_eq!(which("codex", &Vec::new(), &|_p: &str| true), None);
}

#[test]
fn detect_reports_found_and_missing_agents() {
    let dirs = vec!["/opt/tools".to_string(), "/usr/local/bin".to_string()];
    let found = detect(&dirs, &|p: &str| p == "/usr/local/bin/codex");
    assert_eq!(
        found,
        vec![AgentInfo {
            id: "codex".to_string(),
            name: "Codex".to_string(),
            path: "/usr/local/bin/codex".to_string(),
            available: true,
        }]
    );
    let missing = detect(&dirs, &|_p: &str| false);
    assert_eq!(
        missing,
        vec![AgentInfo {
            id: "codex".to_string(),
            name: "Codex".to_string(),
            path: String::new(),
            available: false,
        }]
    );
    for agent in found.iter().chain(missing.iter()) {
        assert_eq!(agent.available, !agent.path.is_empty());
    }
    assert_eq!(known_agent_list(), vec![("codex".to_string(), "Codex".to_string())]);
}
