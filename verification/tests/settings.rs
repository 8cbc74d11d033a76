use bpsr_meter::scene::{apply_scene, level_map_id_or_zero, SceneState};
use bpsr_meter::webhook_state::{create_webhook_enabled, is_webhook_enabled, set_webhook_enabled};

#[test]
fn webhook_switch_reads_back_what_was_set() {
    let mut s = create_webhook_enabled(true);
    assert!(is_webhook_enabled(&s));
    set_webhook_enabled(&mut s, false);
    assert!(!is_webhook_enabled(&s));
    set_webhook_enabled(&mut s, true);
    assert!(is_webhook_enabled(&s));
    assert!(!is_webhook_enabled(&create_webhook_enabled(false)));
}

#[test]
fn scene_changes_clear_on_new_line_only() {
    let mut s = SceneState::new();
    assert_eq!(level_map_id_or_zero(&s), 0);
    assert!(apply_scene(&mut s, 3, 1001));
    assert_eq!((s.line_id, s.level_map_id), (Some(3), Some(1001)));
    assert!(!apply_scene(&mut s, 3, 1001));
    assert!(!apply_scene(&mut s, 0, 2002));
    assert_eq!((s.line_id, s.level_map_id), (Some(3), Some(2002)));
    assert_eq!(level_map_id_or_zero(&s), 2002);
    assert!(apply_scene(&mut s, 4, 0));
    assert_eq!((s.line_id, s.level_map_id), (Some(4), Some(2002)));
}
