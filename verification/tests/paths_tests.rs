use ricesearch::paths::basename;
use ricesearch::paths::has_git_component;
use ricesearch::paths::normalize_separators;
use ricesearch::paths::normalize_upload_path;
use ricesearch::paths::parent_path;
use ricesearch::paths::relative_to_root;
use ricesearch::paths::trim_trailing_slashes;

#[test]
fn upload_path_uses_forward_slashes() {
    assert_eq!(normalize_upload_path("dir\\sub\\f.txt"), "dir/sub/f.txt");
    assert_eq!(normalize_upload_path("dir/sub/f.txt"), "dir/sub/f.txt");
    assert_eq!(normalize_upload_path("mixed\\sub/f.txt"), "mixed/sub/f.txt");
}

#[test]
fn upload_path_strips_extended_length_prefix() {
    assert_eq!(normalize_upload_path("\\\\?\\C:\\dir\\f.txt"), "C:/dir/f.txt");
    // Without the prefix nothing is stripped.
    assert_eq!(normalize_upload_path("C:\\dir\\f.txt"), "C:/dir/f.txt");
    assert!(!normalize_upload_path("\\\\?\\C:\\dir\\f.txt").contains('\\'));
}

#[test]
fn separators_normalize_per_character() {
    assert_eq!(normalize_separators("a\\b\\c"), "a/b/c");
    assert_eq!(normalize_separators(""), "");
    assert_eq!(normalize_separators("no-change"), "no-change");
}

#[test]
fn relative_path_is_anchored_at_the_root() {
    assert_eq!(relative_to_root("root", "root/a/b.txt"), "a/b.txt");
    assert_eq!(relative_to_root("root", "root"), "");
    assert_eq!(relative_to_root("root", "rooted/a"), "rooted/a");
    assert_eq!(relative_to_root("root", "elsewhere/a"), "elsewhere/a");
    assert_eq!(relative_to_root("", "a/b"), "a/b");
}

#[test]
fn basename_is_the_final_component() {
    assert_eq!(basename("a/b/c.txt"), "c.txt");
    assert_eq!(basename("c.txt"), "c.txt");
    assert_eq!(basename("a/b/"), "");
    assert_eq!(parent_path("a/b/c.txt"), "a/b");
    assert_eq!(parent_path("c.txt"), "");
}

#[test]
fn trailing_slashes_are_trimmed() {
    assert_eq!(trim_trailing_slashes("http://localhost:8000/"), "http://localhost:8000");
    assert_eq!(trim_trailing_slashes("http://x//"), "http://x");
    assert_eq!(trim_trailing_slashes("no-slash"), "no-slash");
    assert_eq!(trim_trailing_slashes(""), "");
}

#[test]
fn git_component_is_found_exactly() {
    assert!(has_git_component(".git"));
    assert!(has_git_component(".git/config"));
    assert!(has_git_component("a/.git"));
    assert!(has_git_component("a/.git/b"));
    assert!(!has_git_component(".gitignore"));
    assert!(!has_git_component("a/.gitmodules"));
    assert!(!has_git_component("git"));
    assert!(!has_git_component(""));
}
