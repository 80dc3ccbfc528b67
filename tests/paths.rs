use booru_core::{
    booru_path_for_image, default_root_with, expand_tilde, expand_tilde_with,
    metadata_path_for_image, normalize_image_path, BooruConfig,
};

#[test]
fn metadata_path_appends_json_to_extension() {
    assert_eq!(metadata_path_for_image("/a/b.png"), "/a/b.png.json");
    assert_eq!(metadata_path_for_image("/a/b"), "/a/b.json");
}

#[test]
fn booru_path_appends_to_file_name() {
    assert_eq!(booru_path_for_image("/a/b.png"), "/a/b.png.booru.json");
}

#[test]
fn normalize_strips_metadata_suffixes() {
    assert_eq!(normalize_image_path("/a/b.png.json"), "/a/b.png");
    assert_eq!(normalize_image_path("/a/b.png.booru.json"), "/a/b.png");
    assert_eq!(normalize_image_path("/a/b.png"), "/a/b.png");
}

#[test]
fn tilde_expands_with_home() {
    assert_eq!(expand_tilde_with("~/pics", Some("/home/u".to_string())), "/home/u/pics");
    assert_eq!(expand_tilde_with("~", Some("/home/u".to_string())), "/home/u/");
    assert_eq!(expand_tilde_with("~/pics", None), "~/pics");
    assert_eq!(expand_tilde_with("/x/~", Some("/home/u".to_string())), "/x/~");
    assert_eq!(expand_tilde("/plain/path"), "/plain/path");
}

#[test]
fn default_root_without_home() {
    assert_eq!(default_root_with(None), "./gallery-dl");
    assert_eq!(default_root_with(Some("/h".to_string())), "/h/Pictures/gallery-dl");
}

#[test]
fn config_keeps_plain_roots() {
    let config = BooruConfig::with_roots(vec!["/r1".to_string(), "/r2".to_string()]);
    assert_eq!(config.roots, vec!["/r1".to_string(), "/r2".to_string()]);
    assert_eq!(BooruConfig::default().roots.len(), 1);
}
