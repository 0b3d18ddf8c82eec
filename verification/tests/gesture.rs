use glean::gesture::{button_edge, Edge, Gesture, Release};

const MS: u64 = 1_000_000;

fn pressed(at: (f64, f64), now_ns: u64) -> Gesture<(f64, f64)> {
    let mut g = Gesture::new();
    assert!(!g.press(at, now_ns, None));
    g
}

#[test]
fn edges_of_button_samples() {
    assert_eq!(button_edge(false, true), Edge::Press);
    assert_eq!(button_edge(true, false), Edge::Release);
    assert_eq!(button_edge(true, true), Edge::Unchanged);
    assert_eq!(button_edge(false, false), Edge::Unchanged);
}

#[test]
fn press_outside_shown_panel_dismisses_it() {
    let mut g: Gesture<(f64, f64)> = Gesture::new();
    assert!(g.press((1.0, 2.0), 5, Some(false)));
    assert!(!g.press_inside_panel);
    assert!(!g.press((1.0, 2.0), 6, Some(true)));
    assert!(g.press_inside_panel);
    assert!(!g.press((1.0, 2.0), 7, None));
    assert!(!g.press_inside_panel);
}

#[test]
fn drag_triggers_and_forgets_click() {
    let mut g = pressed((0.0, 0.0), 10 * MS);
    g.last_click = None;
    let kind = g.release((40.0, 0.0), 200 * MS, true, false, true);
    assert_eq!(kind, Release::Drag);
    assert!(kind.triggers());
    assert!(g.press.is_none());
    assert!(g.last_click.is_none());
}

#[test]
fn release_without_press_is_unpaired() {
    let mut g: Gesture<(f64, f64)> = Gesture::new();
    let kind = g.release((3.0, 3.0), MS, true, true, true);
    assert_eq!(kind, Release::Unpaired);
    assert!(!kind.triggers());
    assert!(g.last_click.is_none());
}

#[test]
fn release_of_press_on_panel_does_nothing() {
    let mut g: Gesture<(f64, f64)> = Gesture::new();
    g.press((5.0, 5.0), MS, Some(true));
    let kind = g.release((90.0, 5.0), 2 * MS, true, false, true);
    assert_eq!(kind, Release::OnPanel);
    assert!(!g.press_inside_panel);
    assert!(g.last_click.is_none());
}

#[test]
fn stale_press_counts_as_click() {
    let mut g = pressed((0.0, 0.0), 0);
    let kind = g.release((50.0, 0.0), 60_000 * MS + 1, true, false, true);
    assert_eq!(kind, Release::Stale);
    let click = g.last_click.unwrap();
    assert_eq!(click.at, (50.0, 0.0));
    assert_eq!(click.time_ns, 60_000 * MS + 1);
    // Exactly sixty seconds is not yet stale.
    let mut g = pressed((0.0, 0.0), 0);
    assert_eq!(g.release((50.0, 0.0), 60_000 * MS, true, false, true), Release::Drag);
}

#[test]
fn two_close_clicks_make_a_double_click() {
    let mut g = pressed((10.0, 10.0), 0);
    assert_eq!(g.release((10.0, 10.0), 50 * MS, false, false, true), Release::Click);
    g.press((11.0, 10.0), 300 * MS, None);
    // 400.9 ms after the first click still counts as 400 whole ms.
    let kind = g.release((11.0, 10.0), 450 * MS + 900_000, false, true, true);
    assert_eq!(kind, Release::DoubleClick);
    assert!(kind.triggers());
    assert!(g.last_click.is_none());
}

#[test]
fn slow_or_far_or_disabled_second_click_is_a_click() {
    let mut g = pressed((10.0, 10.0), 0);
    g.release((10.0, 10.0), 50 * MS, false, false, true);
    g.press((10.0, 10.0), 400 * MS, None);
    assert_eq!(g.release((10.0, 10.0), 451 * MS, false, true, true), Release::Click);

    let mut g = pressed((10.0, 10.0), 0);
    g.release((10.0, 10.0), 50 * MS, false, false, true);
    g.press((30.0, 10.0), 100 * MS, None);
    assert_eq!(g.release((30.0, 10.0), 150 * MS, false, false, true), Release::Click);

    let mut g = pressed((10.0, 10.0), 0);
    g.release((10.0, 10.0), 50 * MS, false, false, false);
    g.press((10.0, 10.0), 100 * MS, None);
    assert_eq!(g.release((10.0, 10.0), 150 * MS, false, true, false), Release::Click);
}

#[test]
fn triple_click_triggers_once() {
    let mut g = pressed((10.0, 10.0), 0);
    assert_eq!(g.release((10.0, 10.0), 20 * MS, false, false, true), Release::Click);
    g.press((10.0, 10.0), 100 * MS, None);
    assert_eq!(g.release((10.0, 10.0), 120 * MS, false, true, true), Release::DoubleClick);
    g.press((10.0, 10.0), 200 * MS, None);
    assert_eq!(g.release((10.0, 10.0), 220 * MS, false, true, true), Release::Click);
}
