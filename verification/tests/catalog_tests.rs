use wallgrid::catalog::{
    get_backgrounds_dir, build_catalog, get_current_background_path, file_uri, install_dest, is_image,
    thumbnail_file_name, Wallpaper,
};

#[test]
fn display_name_is_the_file_stem() {
    let w = Wallpaper::new("/path/to/Sunset Beach.png".to_string());
    assert_eq!(w.name, "Sunset Beach");
    assert_eq!(w.path, "/path/to/Sunset Beach.png");
    assert!(w.thumbnail.is_none());
}

#[test]
fn hidden_files_keep_their_whole_name() {
    let w = Wallpaper::new("/home/u/.hidden".to_string());
    assert_eq!(w.name, ".hidden");
}

#[test]
fn name_without_extension_is_kept() {
    let w = Wallpaper::new("plain".to_string());
    assert_eq!(w.name, "plain");
}

#[test]
fn empty_path_gets_the_placeholder_name() {
    let w = Wallpaper::new(String::new());
    assert_eq!(w.name, "unknown");
    let w = Wallpaper::new("dir/".to_string());
    assert_eq!(w.name, "unknown");
}

#[test]
fn image_extensions_are_recognized() {
    assert!(is_image("a.jpg"));
    assert!(is_image("/x/y/b.jpeg"));
    assert!(is_image("c.png"));
    assert!(is_image("d.gif"));
    assert!(is_image("e.webp"));
    assert!(is_image("f.bmp"));
}

#[test]
fn extension_case_is_ignored() {
    assert!(is_image("a.JPG"));
    assert!(is_image("b.Png"));
    assert!(is_image("c.WEBP"));
}

#[test]
fn non_images_are_rejected() {
    assert!(!is_image("readme.txt"));
    assert!(!is_image("noextension"));
    assert!(!is_image("archive.tar.gz"));
    // A leading dot marks a hidden file, not an extension.
    assert!(!is_image(".png"));
    assert!(!is_image("dir.png/"));
}

#[test]
fn catalog_keeps_images_sorted_by_name() {
    let paths = vec![
        "/w/b.png".to_string(),
        "/w/notes.txt".to_string(),
        "/w/a.jpg".to_string(),
        "/w/c.gif".to_string(),
    ];
    let catalog = build_catalog(paths);
    assert_eq!(catalog.len(), 3);
    assert_eq!(catalog[0].name, "a");
    assert_eq!(catalog[1].name, "b");
    assert_eq!(catalog[2].name, "c");
    assert_eq!(catalog[0].path, "/w/a.jpg");
}

#[test]
fn catalog_of_no_images_is_empty() {
    let catalog = build_catalog(vec!["x.txt".to_string()]);
    assert!(catalog.is_empty());
    let catalog = build_catalog(Vec::new());
    assert!(catalog.is_empty());
}

#[test]
fn well_known_paths_join_under_home() {
    assert_eq!(
        get_backgrounds_dir("/home/u"),
        "/home/u/.config/omarchy/current/theme/backgrounds"
    );
    assert_eq!(
        get_current_background_path("/home/u"),
        "/home/u/.config/omarchy/current/background"
    );
}

#[test]
fn install_destination_is_the_file_name_in_the_backgrounds_dir() {
    assert_eq!(
        install_dest("/bg", "/pics/sunset.png"),
        Some("/bg/sunset.png".to_string())
    );
    assert_eq!(install_dest("/bg", "bare.png"), Some("/bg/bare.png".to_string()));
    assert_eq!(install_dest("/bg", "dir/"), None);
    assert_eq!(install_dest("/bg", ""), None);
}

#[test]
fn thumbnail_names_hash_the_uri() {
    assert_eq!(file_uri("/pics/a.png"), "file:///pics/a.png");
    // The digest of the empty input is a fixed, well-known value.
    assert_eq!(thumbnail_file_name(""), "d41d8cd98f00b204e9800998ecf8427e.png");
    // The name never echoes the URI: always 32 hex digits plus the suffix.
    let n = thumbnail_file_name("file:///pics/a.png");
    assert_eq!(n.len(), 36);
    assert!(n.ends_with(".png"));
    assert_ne!(n, "file:///pics/a.png.png");
}
