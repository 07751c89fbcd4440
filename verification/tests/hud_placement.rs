use poe_alarm::hud_placement::{drop_monitor, placement_monitor, preferred_monitor, MonitorWorkArea, Rect};

fn rect(x: i32, y: i32, width: i32, height: i32) -> Rect {
    Rect { x, y, width, height }
}

fn displays() -> Vec<MonitorWorkArea> {
    vec![
        MonitorWorkArea {
            device_name: Some("\\\\.\\DISPLAY2".to_owned()),
            bounds: rect(-1920, -200, 1920, 1080),
            work: rect(-1920, -160, 1920, 1040),
            primary: false,
        },
        MonitorWorkArea {
            device_name: Some("\\\\.\\DISPLAY1".to_owned()),
            bounds: rect(0, 0, 2560, 1440),
            work: rect(0, 0, 2560, 1400),
            primary: true,
        },
    ]
}

#[test]
fn a_saved_display_is_found_whatever_its_case() {
    let monitors = displays();
    assert_eq!(preferred_monitor(&monitors, Some("\\\\.\\display2")), Some(0));
    assert_eq!(preferred_monitor(&monitors, Some("\\\\.\\DISPLAY1")), Some(1));
}

#[test]
fn a_missing_display_falls_back_to_the_primary_then_the_first() {
    let monitors = displays();
    assert_eq!(preferred_monitor(&monitors, Some("\\\\.\\DISPLAY9")), Some(1));
    assert_eq!(preferred_monitor(&monitors, None), Some(1));
    assert_eq!(preferred_monitor(&monitors[..1], Some("elsewhere")), Some(0));
    assert_eq!(preferred_monitor(&[], None), None);
}

#[test]
fn a_drop_belongs_to_the_display_holding_most_of_the_window() {
    let monitors = displays();
    assert_eq!(drop_monitor(&monitors, -1567, 321), Some(0));
    // More of the window is on the left display even though it crosses the seam.
    assert_eq!(drop_monitor(&monitors, -200, 100), Some(0));
    assert_eq!(drop_monitor(&monitors, -100, 100), Some(1));
    assert_eq!(drop_monitor(&[], 0, 0), None);
}

#[test]
fn an_offscreen_drop_belongs_to_the_nearest_display() {
    let monitors = displays();
    assert_eq!(drop_monitor(&monitors, -2500, -500), Some(0));
    assert_eq!(drop_monitor(&monitors, 3000, 2000), Some(1));
}

#[test]
fn a_drop_on_an_unnamed_display_still_picks_it() {
    let mut monitors = displays();
    monitors[0].device_name = None;
    assert_eq!(drop_monitor(&monitors, -1500, 100), Some(0));
    assert!(monitors[0].device_name.is_none());
}

#[test]
fn a_drop_is_saved_on_the_chosen_named_display() {
    let monitors = displays();
    assert_eq!(placement_monitor(&monitors, -200, 100), Some(0));
    assert_eq!(placement_monitor(&monitors, -100, 100), Some(1));
    assert_eq!(placement_monitor(&[], 0, 0), None);
}

#[test]
fn a_drop_is_not_saved_when_it_cannot_be_measured_or_named() {
    let mut monitors = displays();
    assert_eq!(placement_monitor(&monitors, i32::MAX - 295, 0), None);
    assert_eq!(placement_monitor(&monitors, 0, i32::MAX - 51), None);
    assert_eq!(placement_monitor(&monitors, i32::MAX - 296, 100), Some(1));
    monitors[0].device_name = None;
    assert_eq!(placement_monitor(&monitors, -200, 100), None);
    assert_eq!(placement_monitor(&monitors, 100, 100), Some(1));
    monitors[0].bounds.width = -1;
    assert_eq!(placement_monitor(&monitors, 100, 100), None);
}
