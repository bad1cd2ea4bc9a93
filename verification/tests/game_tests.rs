use pinguiny::game_input::{
    toggle_debug_mode, translate_camera_input, CameraAction, CameraInputState, DebugMode,
};
use pinguiny::game_state::{Economy, GameState};
use pinguiny::hero::PartyConfig;
use pinguiny::mob::{MobType, WaveConfig};
use pinguiny::time_wizard::format_time_to_mm_ss;

fn none_pressed() -> CameraInputState {
    CameraInputState {
        pan_up: false,
        pan_down: false,
        pan_left: false,
        pan_right: false,
        zoom_in: false,
        zoom_out: false,
    }
}

#[test]
fn format_ninety_seconds() {
    assert_eq!(format_time_to_mm_ss(90), "01:30");
}

#[test]
fn format_edges() {
    assert_eq!(format_time_to_mm_ss(0), "00:00");
    assert_eq!(format_time_to_mm_ss(59), "00:59");
    assert_eq!(format_time_to_mm_ss(60), "01:00");
    assert_eq!(format_time_to_mm_ss(3599), "59:59");
    assert_eq!(format_time_to_mm_ss(6000), "100:00");
    assert_eq!(format_time_to_mm_ss(u32::MAX), "71582788:15");
}

#[test]
fn no_keys_no_commands() {
    let c = translate_camera_input(&none_pressed());
    assert_eq!(c.pan, None);
    assert!(c.zoom_deltas.is_empty());
}

#[test]
fn pan_keys_add_up() {
    let mut s = none_pressed();
    s.pan_left = true;
    s.pan_up = true;
    assert_eq!(translate_camera_input(&s).pan, Some((-1, 1)));
    s.pan_right = true;
    assert_eq!(translate_camera_input(&s).pan, Some((0, 1)));
    s.pan_down = true;
    assert_eq!(translate_camera_input(&s).pan, None);
}

#[test]
fn zoom_out_is_sent_before_zoom_in() {
    let mut s = none_pressed();
    s.zoom_in = true;
    assert_eq!(translate_camera_input(&s).zoom_deltas, vec![-1]);
    s.zoom_out = true;
    assert_eq!(translate_camera_input(&s).zoom_deltas, vec![1, -1]);
}

#[test]
fn pressed_reads_each_flag() {
    let mut s = none_pressed();
    s.pan_right = true;
    assert!(s.pressed(CameraAction::PanRight));
    assert!(!s.pressed(CameraAction::PanLeft));
    assert!(!s.pressed(CameraAction::ZoomIn));
}

#[test]
fn debug_toggle_flips_only_on_press() {
    let mut d = DebugMode(false);
    toggle_debug_mode(&mut d, false);
    assert_eq!(d, DebugMode(false));
    toggle_debug_mode(&mut d, true);
    assert_eq!(d, DebugMode(true));
    toggle_debug_mode(&mut d, true);
    assert_eq!(d, DebugMode(false));
}

#[test]
fn mob_sides() {
    assert!(MobType::SlimeMage.is_hostile());
    assert!(MobType::Skeleton.is_hostile());
    assert!(MobType::MiniBoss.is_hostile());
    assert!(!MobType::Cow.is_hostile());
    assert!(!MobType::Wolf.is_hostile());
}

#[test]
fn defaults() {
    assert_eq!(GameState::default(), GameState::SelectHeroes);
    assert_eq!(Economy::default().crystals, 0);
    let w = WaveConfig::default();
    assert_eq!(w.mobs_to_spawn, vec!["SlimeMage".to_string(), "Skeleton".to_string(), "Gothmog".to_string()]);
    let p = PartyConfig::default();
    assert_eq!(p.slot_one.as_deref(), Some("Gandalf"));
    assert_eq!(p.slot_two, None);
}
