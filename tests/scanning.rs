use photoview::{collect_images_recursive, is_supported_image, Node, ScanWarning, WatchedDirs, DEFAULT_SCAN_INTERVAL};

fn file(p: &str) -> Node {
    Node::File { path: p.to_string() }
}

fn dir(p: &str, entries: Vec<Node>) -> Node {
    Node::Dir { path: p.to_string(), entries, read_error: None }
}

fn sample_tree() -> Node {
    dir("/a", vec![file("/a/x.jpg"), dir("/a/sub", vec![file("/a/sub/y.PNG"), file("/a/sub/z.txt")])])
}

fn strings(v: &[&str]) -> Vec<String> {
    v.iter().map(|s| s.to_string()).collect()
}

#[test]
fn extension_matching_ignores_case() {
    assert!(is_supported_image("x.jpg"));
    assert!(is_supported_image("/a/sub/y.PNG"));
    assert!(is_supported_image("/p/photo.JpEg"));
    assert!(is_supported_image("/p/scan.TIF"));
    assert!(is_supported_image("/p/icon.ico"));
    assert!(is_supported_image("/p/anim.webp"));
    assert!(is_supported_image("/p/draw.Svg"));
    assert!(!is_supported_image("/a/sub/z.txt"));
    assert!(!is_supported_image("/p/photo.jpg.bak"));
    assert!(!is_supported_image("/p/jpg"));
    assert!(!is_supported_image("/p/.png"));
    assert!(!is_supported_image("/p/x.png/readme"));
    assert!(!is_supported_image("/p/x."));
    assert!(!is_supported_image(""));
    assert!(!is_supported_image("/p/x.jpgg"));
}

#[test]
fn extension_matching_takes_non_ascii_names() {
    assert!(is_supported_image("/fotos/été.png"));
    assert!(!is_supported_image("/fotos/été.pñg"));
}

#[test]
fn scan_finds_images_recursively() {
    let mut w = WatchedDirs::new(strings(&["/a"]), DEFAULT_SCAN_INTERVAL);
    let warnings = w.scan(&vec![Some(sample_tree())]);
    assert_eq!(w.imgs, strings(&["/a/x.jpg", "/a/sub/y.PNG"]));
    assert!(warnings.is_empty());
}

#[test]
fn missing_root_is_skipped_with_a_warning() {
    let mut w = WatchedDirs::new(strings(&["/gone", "/a"]), DEFAULT_SCAN_INTERVAL);
    let warnings = w.scan(&vec![None, Some(sample_tree())]);
    assert_eq!(w.imgs, strings(&["/a/x.jpg", "/a/sub/y.PNG"]));
    assert_eq!(warnings.len(), 1);
    assert!(matches!(&warnings[0], ScanWarning::DirectoryMissing { path } if path == "/gone"));
}

#[test]
fn unreadable_directory_keeps_what_was_read() {
    let broken = Node::Dir {
        path: "/a/locked".to_string(),
        entries: vec![file("/a/locked/one.gif")],
        read_error: Some("permission denied".to_string()),
    };
    let root = dir("/a", vec![broken, file("/a/two.bmp")]);
    let mut w = WatchedDirs::new(strings(&["/a"]), DEFAULT_SCAN_INTERVAL);
    let warnings = w.scan(&vec![Some(root)]);
    assert_eq!(w.imgs, strings(&["/a/locked/one.gif", "/a/two.bmp"]));
    assert_eq!(warnings.len(), 1);
    assert!(matches!(&warnings[0], ScanWarning::TraversalIOError { path, error }
        if path == "/a/locked" && error == "permission denied"));
}

#[test]
fn unreadable_root_gives_a_warning() {
    let root = Node::Dir { path: "/a".to_string(), entries: vec![], read_error: Some("gone away".to_string()) };
    let mut w = WatchedDirs::new(strings(&["/a"]), DEFAULT_SCAN_INTERVAL);
    let warnings = w.scan(&vec![Some(root)]);
    assert!(w.imgs.is_empty());
    assert!(matches!(&warnings[..], [ScanWarning::TraversalIOError { path, error }] if path == "/a" && error == "gone away"));
}

#[test]
fn root_that_is_a_file_gives_nothing() {
    let mut w = WatchedDirs::new(strings(&["/a.jpg"]), DEFAULT_SCAN_INTERVAL);
    let warnings = w.scan(&vec![Some(file("/a.jpg"))]);
    assert!(w.imgs.is_empty());
    assert!(warnings.is_empty());
}

#[test]
fn other_entries_are_ignored() {
    let root = dir("/a", vec![Node::Other { path: "/a/link.png".to_string() }, file("/a/b.png")]);
    let mut images = Vec::new();
    let mut warnings = Vec::new();
    if let Node::Dir { entries, .. } = &root {
        collect_images_recursive(entries, &mut images, &mut warnings);
    }
    assert_eq!(images, strings(&["/a/b.png"]));
    assert!(warnings.is_empty());
}

#[test]
fn collect_appends_to_what_is_there() {
    let mut images = strings(&["/old.png"]);
    let mut warnings = Vec::new();
    collect_images_recursive(&vec![file("/n/new.jpeg"), file("/n/notes.md")], &mut images, &mut warnings);
    assert_eq!(images, strings(&["/old.png", "/n/new.jpeg"]));
}

#[test]
fn scan_replaces_previous_results() {
    let mut w = WatchedDirs::new(strings(&["/a"]), DEFAULT_SCAN_INTERVAL);
    w.scan(&vec![Some(sample_tree())]);
    w.scan(&vec![Some(dir("/a", vec![file("/a/only.png")]))]);
    assert_eq!(w.imgs, strings(&["/a/only.png"]));
}

#[test]
fn second_scan_within_interval_changes_nothing() {
    let mut w = WatchedDirs::new(strings(&["/a"]), DEFAULT_SCAN_INTERVAL);
    let first = w.scan_directories_system(100, &vec![Some(sample_tree())]);
    assert!(first.is_some());
    let before = w.imgs.clone();
    assert!(!w.scan_due(104));
    let second = w.scan_directories_system(104, &vec![None]);
    assert!(second.is_none());
    assert_eq!(w.imgs, before);
    assert_eq!(w.last_scan, Some(100));
}

#[test]
fn scan_runs_again_once_interval_passed() {
    let mut w = WatchedDirs::new(strings(&["/a"]), DEFAULT_SCAN_INTERVAL);
    assert!(w.scan_due(0));
    w.scan_directories_system(0, &vec![Some(sample_tree())]);
    assert!(w.scan_due(5));
    let r = w.scan_directories_system(5, &vec![Some(dir("/a", vec![]))]);
    assert!(r.is_some());
    assert!(w.imgs.is_empty());
    assert_eq!(w.last_scan, Some(5));
}

#[test]
fn clock_going_back_does_not_scan() {
    let mut w = WatchedDirs::new(strings(&["/a"]), DEFAULT_SCAN_INTERVAL);
    w.scan_directories_system(50, &vec![Some(sample_tree())]);
    assert!(!w.scan_due(10));
}

#[test]
fn should_run_only_with_images() {
    let mut w = WatchedDirs::new(strings(&["/a"]), DEFAULT_SCAN_INTERVAL);
    assert!(!w.should_run());
    w.scan(&vec![Some(sample_tree())]);
    assert!(w.should_run());
}

#[test]
fn overlapping_roots_find_each_image_once() {
    let sub = dir("/a/sub", vec![file("/a/sub/y.PNG"), file("/a/sub/z.txt")]);
    let mut w = WatchedDirs::new(strings(&["/a", "/a/sub"]), DEFAULT_SCAN_INTERVAL);
    w.scan(&vec![Some(sample_tree()), Some(sub)]);
    assert_eq!(w.imgs, strings(&["/a/x.jpg", "/a/sub/y.PNG"]));
}

#[test]
fn collect_appends_every_match() {
    let mut images = strings(&["/n/new.jpeg"]);
    let mut warnings = Vec::new();
    collect_images_recursive(&vec![file("/n/new.jpeg"), file("/n/more.gif")], &mut images, &mut warnings);
    assert_eq!(images, strings(&["/n/new.jpeg", "/n/new.jpeg", "/n/more.gif"]));
}

#[test]
fn repeated_file_within_one_root_is_found_once() {
    let root = dir("/a", vec![file("/a/x.jpg"), dir("/a/l", vec![file("/a/x.jpg")])]);
    let mut w = WatchedDirs::new(strings(&["/a"]), DEFAULT_SCAN_INTERVAL);
    w.scan(&vec![Some(root)]);
    assert_eq!(w.imgs, strings(&["/a/x.jpg"]));
}
