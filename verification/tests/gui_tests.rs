use qvod::gui::{
    is_cjk_font_name, resize_cursor, resize_edge, text_contains, AppSettings, Qvod6Skin, QvodTheme, ResizeCursor, ResizeEdge,
    TaskStatus,
};

#[test]
fn test_default_settings() {
    let settings = AppSettings::default();
    assert_eq!(settings.max_connections, 50);
    assert!(settings.http_fallback);
    assert!(settings.cache_dir.ends_with("qvs"));
}

#[test]
fn test_cache_size_calculation() {
    let settings = AppSettings { cache_size_gb: 5, ..Default::default() };
    assert_eq!(settings.cache_size_bytes(), 5 * 1024 * 1024 * 1024);
}

#[test]
fn cli_server_url_overrides() {
    let s = AppSettings::default().with_cli_server_url(Some("http://h:1".to_string()));
    assert_eq!(s.server_url.as_deref(), Some("http://h:1"));
    let t = s.clone().with_cli_server_url(None);
    assert_eq!(t.server_url.as_deref(), Some("http://h:1"));
}

#[test]
fn test_default_theme() {
    assert_eq!(QvodTheme::default(), QvodTheme::Dark);
}

#[test]
fn skin_and_task_defaults() {
    assert_eq!(Qvod6Skin::new().name(), "Qvod 6.x");
    assert_eq!(TaskStatus::default(), TaskStatus::Downloading);
}

#[test]
fn test_overlay_show_hide() {
    let mut mgr = qvod::gui::OverlayState::new();
    assert!(!mgr.is_visible());
    mgr.show(qvod::gui::OverlayType::Buffering);
    assert!(mgr.is_visible());
    mgr.dismiss();
    assert!(!mgr.is_visible());
    assert!(mgr.update().is_none());
}

#[test]
fn test_overlay_update() {
    let mut mgr = qvod::gui::OverlayState::new();
    mgr.show(qvod::gui::OverlayType::Info("test".into()));
    let result = mgr.update();
    assert!(result.is_some());
}

#[test]
fn test_overlay_color() {
    let c = qvod::gui::overlay_rgba(&qvod::gui::OverlayType::Buffering);
    assert_eq!(c, (0, 0, 0, 180));
    let c = qvod::gui::overlay_rgba(&qvod::gui::OverlayType::Error("err".into()));
    assert_eq!(c, (180, 0, 0, 200));
    assert_eq!(qvod::gui::overlay_rgba(&qvod::gui::OverlayType::Info("i".into())), (0, 0, 0, 160));
}

#[test]
fn cjk_font_names() {
    assert!(text_contains("abcdef", "cde"));
    assert!(!text_contains("abc", "abcd"));
    assert!(text_contains("abc", ""));
    assert!(is_cjk_font_name("notosanscjk-regular.ttc", Some("ttc")));
    assert!(is_cjk_font_name("wqy-microhei.ttc", Some("ttc")));
    assert!(is_cjk_font_name("droidsansfallback.ttf", Some("ttf")));
    assert!(is_cjk_font_name("notosanssc-bold.otf", Some("otf")));
    assert!(!is_cjk_font_name("notosanssc-bold.ttc", Some("ttc")));
    assert!(!is_cjk_font_name("dejavusans.ttf", Some("ttf")));
    assert!(!is_cjk_font_name("noto-sans.ttf", None));
}

#[test]
fn resize_edges_and_cursors() {
    assert_eq!(resize_edge(true, false, true, false), Some(ResizeEdge::NorthWest));
    assert_eq!(resize_edge(true, false, false, true), Some(ResizeEdge::SouthWest));
    assert_eq!(resize_edge(false, true, true, false), Some(ResizeEdge::NorthEast));
    assert_eq!(resize_edge(false, true, false, true), Some(ResizeEdge::SouthEast));
    assert_eq!(resize_edge(true, true, false, false), Some(ResizeEdge::West));
    assert_eq!(resize_edge(false, false, true, true), Some(ResizeEdge::North));
    assert_eq!(resize_edge(false, false, false, true), Some(ResizeEdge::South));
    assert_eq!(resize_edge(false, false, false, false), None);
    assert_eq!(resize_cursor(ResizeEdge::East), ResizeCursor::Horizontal);
    assert_eq!(resize_cursor(ResizeEdge::South), ResizeCursor::Vertical);
    assert_eq!(resize_cursor(ResizeEdge::SouthWest), ResizeCursor::NeSw);
    assert_eq!(resize_cursor(ResizeEdge::NorthWest), ResizeCursor::NwSe);
}
