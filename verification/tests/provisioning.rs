use dir_provisioner::disk::DiskModel;
use dir_provisioner::error::ErrorKind;
use dir_provisioner::path::AppPath;
use dir_provisioner::provision::{
    resolve_data_directory, resolve_templates_directory, AppContext,
};

fn path(segs: &[&str], representable: bool) -> AppPath {
    let v: Vec<String> = segs.iter().map(|s| s.to_string()).collect();
    AppPath::from_segments(v, representable).expect("segments form a valid path")
}

fn ctx(segs: &[&str]) -> AppContext {
    AppContext::with_data_root(path(segs, true))
}

#[test]
fn data_directory_created_when_absent() {
    let c = ctx(&["data", "app"]);
    let mut disk = DiskModel::new();
    assert!(!disk.is_dir(&path(&["data", "app"], true)));
    let r = resolve_data_directory(&c, &mut disk);
    assert_eq!(r.unwrap(), "/data/app");
    assert!(disk.is_dir(&path(&["data", "app"], true)));
}

#[test]
fn data_directory_idempotent() {
    let c = ctx(&["data", "app"]);
    let mut disk = DiskModel::new();
    let first = resolve_data_directory(&c, &mut disk).unwrap();
    assert!(disk.is_dir(&path(&["data", "app"], true)));
    let second = resolve_data_directory(&c, &mut disk).unwrap();
    assert_eq!(first, second);
    assert_eq!(second, "/data/app");
    assert!(disk.is_dir(&path(&["data", "app"], true)));
}

#[test]
fn templates_appends_fixed_segment() {
    let c = ctx(&["data", "app"]);
    let mut disk = DiskModel::new();
    let base = resolve_data_directory(&c, &mut disk).unwrap();
    let templates = resolve_templates_directory(&c, &mut disk).unwrap();
    assert_eq!(templates, format!("{}/templates", base));
    assert_eq!(templates, "/data/app/templates");
    assert!(disk.is_dir(&path(&["data", "app", "templates"], true)));
}

#[test]
fn templates_alone_creates_whole_chain() {
    let c = ctx(&["data", "app"]);
    let mut disk = DiskModel::new();
    let templates = resolve_templates_directory(&c, &mut disk).unwrap();
    assert_eq!(templates, "/data/app/templates");
    assert!(disk.is_dir(&path(&["data"], true)));
    assert!(disk.is_dir(&path(&["data", "app"], true)));
    assert!(disk.is_dir(&path(&["data", "app", "templates"], true)));
}

#[test]
fn recursive_creation_creates_ancestors() {
    let c = ctx(&["one", "two", "three", "four"]);
    let mut disk = DiskModel::new();
    let r = resolve_data_directory(&c, &mut disk).unwrap();
    assert_eq!(r, "/one/two/three/four");
    assert!(disk.is_dir(&path(&["one"], true)));
    assert!(disk.is_dir(&path(&["one", "two"], true)));
    assert!(disk.is_dir(&path(&["one", "two", "three"], true)));
    assert!(disk.is_dir(&path(&["one", "two", "three", "four"], true)));
}

#[test]
fn file_at_target_fails_and_survives() {
    let mut disk = DiskModel::new();
    assert!(disk.create_dir_all(&path(&["data"], true)));
    assert!(disk.create_file(&path(&["data", "app"], true)));
    let c = ctx(&["data", "app"]);
    let r = resolve_data_directory(&c, &mut disk);
    assert_eq!(r, Err(ErrorKind::DirectoryCreationFailed));
    assert!(disk.is_file(&path(&["data", "app"], true)));
    assert!(!disk.is_dir(&path(&["data", "app"], true)));
}

#[test]
fn file_on_ancestor_chain_fails_templates() {
    let mut disk = DiskModel::new();
    assert!(disk.create_dir_all(&path(&["data"], true)));
    assert!(disk.create_file(&path(&["data", "app"], true)));
    let c = ctx(&["data", "app"]);
    let r = resolve_templates_directory(&c, &mut disk);
    assert_eq!(r, Err(ErrorKind::DirectoryCreationFailed));
    assert!(disk.is_file(&path(&["data", "app"], true)));
    assert!(!disk.is_dir(&path(&["data", "app", "templates"], true)));
}

#[test]
fn file_occupying_templates_path_fails_only_templates() {
    let mut disk = DiskModel::new();
    assert!(disk.create_dir_all(&path(&["data", "app"], true)));
    assert!(disk.create_file(&path(&["data", "app", "templates"], true)));
    let c = ctx(&["data", "app"]);
    let data = resolve_data_directory(&c, &mut disk);
    assert_eq!(data.unwrap(), "/data/app");
    let templates = resolve_templates_directory(&c, &mut disk);
    assert_eq!(templates, Err(ErrorKind::DirectoryCreationFailed));
    assert!(disk.is_file(&path(&["data", "app", "templates"], true)));
}

#[test]
fn concurrent_callers_both_succeed() {
    let c = ctx(&["data", "app"]);

    let mut first_order = DiskModel::new();
    let a1 = resolve_data_directory(&c, &mut first_order).unwrap();
    let b1 = resolve_templates_directory(&c, &mut first_order).unwrap();

    let mut second_order = DiskModel::new();
    let b2 = resolve_templates_directory(&c, &mut second_order).unwrap();
    let a2 = resolve_data_directory(&c, &mut second_order).unwrap();

    assert_eq!(a1, a2);
    assert_eq!(b1, b2);
    assert_eq!(a1, "/data/app");
    assert_eq!(b1, "/data/app/templates");
    for disk in [&first_order, &second_order] {
        assert!(disk.is_dir(&path(&["data", "app"], true)));
        assert!(disk.is_dir(&path(&["data", "app", "templates"], true)));
        assert!(!disk.is_file(&path(&["data", "app"], true)));
        assert!(!disk.is_file(&path(&["data", "app", "templates"], true)));
    }
}

#[test]
fn platform_path_unavailable_creates_nothing() {
    let c = AppContext::without_data_root();
    let mut disk = DiskModel::new();
    let data = resolve_data_directory(&c, &mut disk);
    assert_eq!(data, Err(ErrorKind::PlatformPathUnavailable));
    let templates = resolve_templates_directory(&c, &mut disk);
    assert_eq!(templates, Err(ErrorKind::PlatformPathUnavailable));
    assert!(!disk.entry_exists(&path(&["data"], true)));
    assert!(!disk.entry_exists(&path(&["templates"], true)));
}

#[test]
fn unrepresentable_path_is_reported_after_creation() {
    let c = AppContext::with_data_root(path(&["data", "app"], false));
    let mut disk = DiskModel::new();
    let r = resolve_data_directory(&c, &mut disk);
    assert_eq!(r, Err(ErrorKind::PathNotRepresentable));
    assert!(disk.is_dir(&path(&["data", "app"], true)));
    let t = resolve_templates_directory(&c, &mut disk);
    assert_eq!(t, Err(ErrorKind::PathNotRepresentable));
    assert!(disk.is_dir(&path(&["data", "app", "templates"], true)));
}

#[test]
fn error_messages_are_fixed() {
    assert_eq!(
        ErrorKind::PlatformPathUnavailable.message(),
        "Failed to get app data directory"
    );
    assert_eq!(ErrorKind::DirectoryCreationFailed.message(), "Failed to create directory");
    assert_eq!(ErrorKind::PathNotRepresentable.message(), "Invalid path");
}

#[test]
fn path_segments_are_validated() {
    assert!(AppPath::from_segments(Vec::new(), true).is_none());
    assert!(AppPath::from_segments(vec![String::new()], true).is_none());
    assert!(AppPath::from_segments(vec!["a/b".to_string()], true).is_none());
    assert!(AppPath::from_segments(vec!["a".to_string(), "b".to_string()], true).is_some());
}

#[test]
fn path_renders_with_leading_separator() {
    assert_eq!(path(&["data", "app"], true).to_text().unwrap(), "/data/app");
    assert_eq!(path(&["x"], true).to_text().unwrap(), "/x");
    assert!(path(&["x"], true).is_representable());
    assert!(!path(&["x"], false).is_representable());
    assert!(path(&["x"], false).to_text().is_none());
}

#[test]
fn join_appends_one_segment() {
    let joined = path(&["data", "app"], true).join("templates");
    assert_eq!(joined.to_text().unwrap(), "/data/app/templates");
}

#[test]
fn create_file_requires_parent_directories() {
    let mut disk = DiskModel::new();
    assert!(!disk.create_file(&path(&["data", "app"], true)));
    assert!(disk.create_dir_all(&path(&["data"], true)));
    assert!(disk.create_file(&path(&["data", "app"], true)));
    assert!(disk.entry_exists(&path(&["data", "app"], true)));
    assert!(!disk.create_dir_all(&path(&["data", "app"], true)));
}
