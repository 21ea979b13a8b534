use qvod::client::{control_outcome, endpoint_url, play_url, segment_url, urlencoding};
use qvod::controls::{
    extract_hash, is_local_file_path, link_title, on_server_error, on_server_status, on_shortcut, plan_play, reconcile_state,
    server_step, sync_with_server, ControlsState, PlaylistManager, ServerCommand, ServerStep, ShortcutKey,
};
use qvod::error::QvodError;
use qvod::gui::{ControlResponse, PlayerState, TaskEntry, TaskStatus};

#[test]
fn controls_test_initial_state() {
    let ctrl = ControlsState::new(10000);
    assert!(!ctrl.playing);
    assert_eq!(ctrl.duration_ms, 10000);
}

#[test]
fn test_toggle_play() {
    let mut ctrl = ControlsState::new(10000);
    ctrl.toggle_play();
    assert!(ctrl.playing);
    ctrl.toggle_play();
    assert!(!ctrl.playing);
}

#[test]
fn controls_test_seek() {
    let mut ctrl = ControlsState::new(10000);
    ctrl.seek_to(5000);
    assert_eq!(ctrl.position_ms, 5000);
    ctrl.seek_to(50000);
    assert_eq!(ctrl.position_ms, 10000);
}

#[test]
fn test_mute() {
    let mut ctrl = ControlsState::new(10000);
    assert!(!ctrl.muted);
    ctrl.toggle_mute();
    assert!(ctrl.muted);
}

#[test]
fn test_seek_forward_backward() {
    let mut ctrl = ControlsState::new(10000);
    ctrl.seek_forward(5000);
    assert_eq!(ctrl.position_ms, 5000);
    ctrl.seek_backward(1000);
    assert_eq!(ctrl.position_ms, 4000);
    ctrl.seek_backward(9000);
    assert_eq!(ctrl.position_ms, 0);
    ctrl.seek_forward(20000);
    assert_eq!(ctrl.position_ms, 10000);
}

#[test]
fn controls_test_reset() {
    let mut ctrl = ControlsState::new(10000);
    ctrl.toggle_play();
    ctrl.seek_to(5000);
    ctrl.reset();
    assert!(!ctrl.playing);
    assert_eq!(ctrl.position_ms, 0);
}

#[test]
fn test_keyboard_shortcuts() {
    let mut ctrl = ControlsState::new(60000);
    assert_eq!(on_shortcut(&mut ctrl, ShortcutKey::Space), Some(PlayerState::Playing));
    assert_eq!(on_shortcut(&mut ctrl, ShortcutKey::Space), Some(PlayerState::Paused));
    assert_eq!(on_shortcut(&mut ctrl, ShortcutKey::ArrowRight), None);
    assert_eq!(ctrl.position_ms, 10000);
    assert_eq!(on_shortcut(&mut ctrl, ShortcutKey::ArrowLeft), None);
    assert_eq!(ctrl.position_ms, 0);
    ctrl.seek_to(30000);
    assert_eq!(on_shortcut(&mut ctrl, ShortcutKey::Escape), Some(PlayerState::Stopped));
    assert_eq!(ctrl.position_ms, 0);
    assert!(!ctrl.stop_pressed);
    assert_eq!(on_shortcut(&mut ctrl, ShortcutKey::Other), None);
}

fn make_entry(title: &str, uri: &str) -> TaskEntry {
    TaskEntry {
        title: title.into(),
        uri: uri.into(),
        status: TaskStatus::Downloading,
        downloaded: 0,
        total: 0,
    }
}

#[test]
fn test_add_and_play() {
    let mut pm = PlaylistManager::new();
    pm.add(make_entry("Test", "qvod://hash|test.mp4|1024|mp4|"));
    assert_eq!(pm.len(), 1);
    let entry = pm.play(0);
    assert!(entry.is_some());
    assert_eq!(pm.current().unwrap().title, "Test");
}

#[test]
fn test_remove() {
    let mut pm = PlaylistManager::new();
    pm.add(make_entry("A", "uri1"));
    pm.add(make_entry("B", "uri2"));
    pm.remove(1);
    assert_eq!(pm.len(), 1);
}

#[test]
fn playlist_test_clear() {
    let mut pm = PlaylistManager::new();
    pm.add(make_entry("A", "uri"));
    pm.clear();
    assert!(pm.is_empty());
}

#[test]
fn test_move_up() {
    let mut pm = PlaylistManager::new();
    pm.add(make_entry("A", "uri1"));
    pm.add(make_entry("B", "uri2"));
    pm.move_up(1);
    assert_eq!(pm.entries()[0].title, "B");
}

#[test]
fn test_move_down() {
    let mut pm = PlaylistManager::new();
    pm.add(make_entry("A", "uri1"));
    pm.add(make_entry("B", "uri2"));
    pm.move_down(0);
    assert_eq!(pm.entries()[0].title, "B");
}

#[test]
fn test_history() {
    let mut pm = PlaylistManager::new();
    pm.add(make_entry("A", "uri1"));
    pm.add(make_entry("B", "uri2"));
    pm.play(0);
    pm.play(1);
    assert_eq!(pm.history().len(), 2);
}

#[test]
fn playlist_selection_and_history() {
    let mut pl = PlaylistManager::new();
    pl.add(make_entry("a", "a"));
    pl.add(make_entry("b", "b"));
    pl.add(make_entry("c", "c"));
    assert_eq!(pl.len(), 3);
    assert_eq!(pl.play(2).unwrap().title, "c");
    assert_eq!(pl.current().unwrap().title, "c");
    pl.remove(0);
    assert_eq!(pl.current().unwrap().title, "c");
    pl.move_up(1);
    assert_eq!(pl.entries()[0].title, "c");
    assert_eq!(pl.current().unwrap().title, "c");
    pl.move_down(0);
    assert_eq!(pl.entries()[1].title, "c");
    assert_eq!(pl.current().unwrap().title, "c");
    pl.move_up(0);
    pl.move_down(1);
    assert_eq!(pl.entries()[0].title, "b");
    pl.remove(1);
    assert!(pl.current().is_none());
    assert!(pl.play(5).is_none());
    pl.remove(9);
    assert_eq!(pl.len(), 1);
    pl.clear();
    assert!(pl.is_empty());
    assert_eq!(pl.history(), &["c".to_string()]);
    pl.add(make_entry("u", "u"));
    for _ in 0..150 {
        pl.play(0);
    }
    assert_eq!(pl.history().len(), 100);
    pl.set_history(vec![]);
    assert!(pl.history().is_empty());
}

#[test]
fn moving_up_then_down_restores_the_playlist() {
    let mut pm = PlaylistManager::new();
    pm.add(make_entry("A", "uri1"));
    pm.add(make_entry("B", "uri2"));
    pm.add(make_entry("C", "uri3"));
    pm.play(2);
    pm.move_up(2);
    pm.move_down(1);
    let titles: Vec<&str> = pm.entries().iter().map(|e| e.title.as_str()).collect();
    assert_eq!(titles, vec!["A", "B", "C"]);
    assert_eq!(pm.current().unwrap().title, "C");
}

#[test]
fn links_and_paths() {
    assert!(is_local_file_path("/home/a.mp4"));
    assert!(is_local_file_path("\\\\server\\share\\a.mp4"));
    assert!(is_local_file_path("C:\\a.mp4"));
    assert!(is_local_file_path("d:/a.mp4"));
    assert!(!is_local_file_path("qvod://x|a|1|mp4|"));
    assert!(!is_local_file_path("file:///a.mp4"));
    assert!(!is_local_file_path("relative/a.mp4"));
    assert!(!is_local_file_path("C:"));
    assert_eq!(extract_hash("qvod://abc|t.mp4|1|mp4|"), Some("abc".to_string()));
    assert_eq!(extract_hash("qvod://|t.mp4|"), None);
    assert_eq!(extract_hash("qvod://abc"), Some("abc".to_string()));
    assert_eq!(extract_hash("https://x/y"), Some("https://x/y".to_string()));
    assert_eq!(extract_hash("ftp://x"), None);
    let p = plan_play("/v/a.mp4");
    assert_eq!(p.link, "file:///v/a.mp4");
    assert_eq!(p.hash, Some("file:///v/a.mp4".to_string()));
    assert!(p.decode_locally);
    let q = plan_play("qvod://abc|t.mp4|1|mp4|");
    assert_eq!(q.link, "qvod://abc|t.mp4|1|mp4|");
    assert_eq!(q.hash, Some("abc".to_string()));
    assert!(q.decode_locally);
    assert!(!plan_play("ftp://x").decode_locally);
    assert!(matches!(server_step(&p, true, true, true), ServerStep::PlayLocally));
    match server_step(&p, true, true, false) {
        ServerStep::Fail(m) => assert_eq!(m, "无法播放本地文件：解码失败。"),
        _ => panic!("expected failure"),
    }
    match server_step(&p, true, false, false) {
        ServerStep::RequestFile(f) => assert_eq!(f, "file:///v/a.mp4"),
        _ => panic!("expected a file request"),
    }
    match server_step(&q, false, false, true) {
        ServerStep::RequestHash(h) => assert_eq!(h, Some("abc".to_string())),
        _ => panic!("expected a hash request"),
    }
}

#[test]
fn server_addresses() {
    assert_eq!(urlencoding("a b/c~"), "a%20b%2Fc~");
    assert_eq!(play_url("http://127.0.0.1:8621", "ab|c"), "http://127.0.0.1:8621/play?hash=ab%7Cc");
    assert_eq!(segment_url("http://h", "x", 7), "http://h/segment?hash=x&index=7");
    assert_eq!(endpoint_url("http://h", "control"), "http://h/control");
    assert!(control_outcome(ControlResponse { success: true, message: "ok".to_string() }).is_ok());
    match control_outcome(ControlResponse { success: false, message: "no".to_string() }) {
        Err(QvodError::Protocol(m)) => assert_eq!(m, "no"),
        _ => panic!("expected refusal"),
    }
}

#[test]
fn controls_are_synced_to_the_server() {
    let mut c = ControlsState::new(60000);
    c.playing = true;
    c.position_ms = 5000;
    assert!(sync_with_server(&mut c, false, false, 0).is_empty());
    assert_eq!(sync_with_server(&mut c, true, false, 0), vec![ServerCommand::Resume, ServerCommand::Seek(5000)]);
    assert_eq!(sync_with_server(&mut c, true, true, 5000), Vec::<ServerCommand>::new());
    c.playing = false;
    assert_eq!(sync_with_server(&mut c, true, true, 5000), vec![ServerCommand::Pause]);
    c.stop_pressed = true;
    assert_eq!(sync_with_server(&mut c, true, true, 0), vec![ServerCommand::Stop]);
    assert!(!c.stop_pressed);
}

#[test]
fn server_status_drives_the_player() {
    let mut c = ControlsState::new(0);
    let mut p = PlayerState::Buffering;
    on_server_status(&mut p, &mut c, "Playing", 1200, 90000);
    assert_eq!(p, PlayerState::Playing);
    assert!(c.playing);
    assert_eq!((c.position_ms, c.duration_ms), (1200, 90000));
    on_server_status(&mut p, &mut c, "Buffering", 1300, 90000);
    assert_eq!(p, PlayerState::Playing);
    on_server_status(&mut p, &mut c, "Paused", 1300, 90000);
    assert_eq!(p, PlayerState::Paused);
    assert!(!c.playing);
    on_server_status(&mut p, &mut c, "Error", 1300, 90000);
    assert_eq!(p, PlayerState::Error("服务器流错误".to_string()));
    let mut stopped = PlayerState::Stopped;
    on_server_status(&mut stopped, &mut c, "Ended", 0, 0);
    assert_eq!(stopped, PlayerState::Stopped);
    on_server_status(&mut p, &mut c, "Ended", 0, 0);
    assert_eq!(p, PlayerState::Ended);
    on_server_error(&mut p, &mut c, "boom".to_string());
    assert_eq!(p, PlayerState::Error("boom".to_string()));
    let mut q = PlayerState::Paused;
    reconcile_state(&mut q, true);
    assert_eq!(q, PlayerState::Playing);
    reconcile_state(&mut q, false);
    assert_eq!(q, PlayerState::Paused);
    let mut e = PlayerState::Ended;
    reconcile_state(&mut e, true);
    assert_eq!(e, PlayerState::Ended);
}

#[test]
fn seeking_forward_then_back_returns() {
    let mut c = ControlsState::new(60000);
    c.seek_to(5000);
    c.seek_forward(10000);
    c.seek_backward(10000);
    assert_eq!(c.position_ms, 5000);
}

#[test]
fn titles_of_links() {
    assert_eq!(link_title("qvod://hash|test.mp4|1024|mp4|"), "test.mp4");
    assert_eq!(link_title("https://example.com/v.mp4"), "https://example.com/v.mp4");
    assert_eq!(link_title("a||b"), "");
}
