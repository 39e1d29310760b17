use limn::resources::font::FontLoader;

#[test]
fn font_loader_refuses_bytes_that_hold_no_font() {
    let mut loader = FontLoader::new();
    assert!(loader.needs_load("sans"));
    assert!(!loader.add_font("sans".to_owned(), vec![0, 1, 2, 3]));
    assert!(!loader.add_font("sans".to_owned(), Vec::new()));
    assert!(loader.needs_load("sans"));
    assert!(loader.get_font_if_present("sans").is_none());
}
