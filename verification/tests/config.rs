use iumenu::config::WindowConfig;

#[test]
fn default_window_is_800_by_400() {
    let w = WindowConfig::default();
    assert_eq!(w.width, 800);
    assert_eq!(w.height, 400);
}
