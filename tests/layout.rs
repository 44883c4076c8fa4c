use photoview::{calculate_grid_position, grid_size_for, slap_img_on_quad, Node, ScanWarning, WatchedDirs};

fn strings(v: &[&str]) -> Vec<String> {
    v.iter().map(|s| s.to_string()).collect()
}

#[test]
fn grid_size_is_ceiling_of_square_root() {
    assert_eq!(grid_size_for(0), 0);
    assert_eq!(grid_size_for(1), 1);
    assert_eq!(grid_size_for(2), 2);
    assert_eq!(grid_size_for(4), 2);
    assert_eq!(grid_size_for(5), 3);
    assert_eq!(grid_size_for(9), 3);
    assert_eq!(grid_size_for(10), 4);
    assert_eq!(grid_size_for(1_000_001), 1001);
}

#[test]
fn grid_size_of_largest_count() {
    let g = grid_size_for(usize::MAX) as u128;
    assert!(g * g >= usize::MAX as u128);
    assert!((g - 1) * (g - 1) < usize::MAX as u128);
}

#[test]
fn fourth_of_five_lands_left_of_centre_row() {
    let g = grid_size_for(5);
    assert_eq!(g, 3);
    let p = calculate_grid_position(3, g);
    assert_eq!((p.row, p.col), (1, 0));
    let spacing = 2.5f32;
    let x = p.x_half_steps as f32 * spacing * 0.5;
    let z = p.z_half_steps as f32 * spacing * 0.5;
    assert_eq!(x, -2.5);
    assert_eq!(z, 0.0);
}

#[test]
fn grid_is_centred_on_origin() {
    let first = calculate_grid_position(0, 3);
    let last = calculate_grid_position(8, 3);
    assert_eq!((first.x_half_steps, first.z_half_steps), (-2, -2));
    assert_eq!((last.x_half_steps, last.z_half_steps), (2, 2));
    let even = calculate_grid_position(3, 2);
    assert_eq!((even.row, even.col, even.x_half_steps, even.z_half_steps), (1, 1, 1, 1));
}

#[test]
fn grid_position_is_repeatable() {
    assert_eq!(calculate_grid_position(7, 4), calculate_grid_position(7, 4));
}

#[test]
fn new_images_get_tiles_at_their_found_index() {
    let found = strings(&["/a/1.png", "/a/2.png", "/a/3.png", "/a/4.png", "/a/5.png"]);
    let existing = strings(&["/a/2.png", "/a/3.png"]);
    let plan = slap_img_on_quad(&found, &existing);
    assert_eq!(plan.grid_size, 3);
    let got: Vec<(String, usize)> = plan.spawns.iter().map(|s| (s.target.clone(), s.index)).collect();
    assert_eq!(got, vec![("/a/1.png".to_string(), 0), ("/a/4.png".to_string(), 3), ("/a/5.png".to_string(), 4)]);
    assert_eq!(plan.spawns[1].position, calculate_grid_position(3, 3));
    assert_eq!(plan.spawns[2].position.x_half_steps, 0);
    assert_eq!(plan.spawns[2].position.z_half_steps, 0);
}

#[test]
fn second_reconciliation_creates_nothing() {
    let found = strings(&["/a/1.png", "/a/2.png", "/a/3.png"]);
    let mut existing: Vec<String> = Vec::new();
    let first = slap_img_on_quad(&found, &existing);
    assert_eq!(first.spawns.len(), 3);
    existing.extend(first.spawns.iter().map(|s| s.target.clone()));
    let second = slap_img_on_quad(&found, &existing);
    assert!(second.spawns.is_empty());
}

#[test]
fn repeated_path_gets_one_tile() {
    let found = strings(&["/a/x.png", "/a/y.png", "/a/x.png"]);
    let plan = slap_img_on_quad(&found, &Vec::new());
    let got: Vec<usize> = plan.spawns.iter().map(|s| s.index).collect();
    assert_eq!(got, vec![0, 1]);
}

#[test]
fn nothing_found_places_nothing() {
    let plan = slap_img_on_quad(&Vec::new(), &strings(&["/a/old.png"]));
    assert_eq!(plan.grid_size, 0);
    assert!(plan.spawns.is_empty());
}

#[test]
fn removed_root_keeps_its_tiles() {
    let tree = Node::Dir {
        path: "/a".to_string(),
        entries: vec![Node::File { path: "/a/x.jpg".to_string() }],
        read_error: None,
    };
    let mut w = WatchedDirs::new(strings(&["/a"]), 5);
    w.scan_directories_system(0, &vec![Some(tree)]);
    let mut tiles: Vec<String> = Vec::new();
    let plan = slap_img_on_quad(&w.imgs, &tiles);
    tiles.extend(plan.spawns.iter().map(|s| s.target.clone()));
    assert_eq!(tiles, strings(&["/a/x.jpg"]));

    let warnings = w.scan_directories_system(5, &vec![None]).unwrap();
    assert!(matches!(&warnings[..], [ScanWarning::DirectoryMissing { path }] if path == "/a"));
    assert!(w.imgs.is_empty());
    assert!(!w.should_run());
    let plan = slap_img_on_quad(&w.imgs, &tiles);
    assert!(plan.spawns.is_empty());
    assert_eq!(tiles, strings(&["/a/x.jpg"]));
}
