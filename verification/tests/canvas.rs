use friday_core::canvas::{canvas_dir, canvas_path, canvas_tmp_path, codex_kind};
use friday_core::desktop::working_dir;
use friday_core::paths::join_path;

#[test]
fn board_file_lives_in_the_project() {
    assert_eq!(canvas_path("/home/me/proj"), "/home/me/proj/.friday/canvas.json");
    assert_eq!(canvas_path("/home/me/proj/"), "/home/me/proj/.friday/canvas.json");
    assert_eq!(canvas_path(""), ".friday/canvas.json");
    assert_eq!(canvas_dir("/home/me/proj"), "/home/me/proj/.friday");
    assert_eq!(canvas_tmp_path("/home/me/proj"), "/home/me/proj/.friday/canvas.json.tmp");
}

#[test]
fn join_follows_unix_paths() {
    assert_eq!(join_path("/a", "b"), "/a/b");
    assert_eq!(join_path("/a/", "b"), "/a/b");
    assert_eq!(join_path("", "b"), "b");
    assert_eq!(join_path("/a", "/etc"), "/etc");
    assert_eq!(join_path("/a", ""), "/a/");
}

#[test]
fn defaults() {
    assert_eq!(codex_kind(), "codex");
    assert_eq!(working_dir(Some("/tmp".to_string()), "/proj"), "/tmp");
    assert_eq!(working_dir(None, "/proj"), "/proj");
}
