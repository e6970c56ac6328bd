use omoya::layers::{exclusive_focus, surface_under, Interactivity, Layer};

#[test]
fn a_click_lands_on_the_overlay_before_the_window() {
    assert_eq!(surface_under(Some("lock"), None, Some("term"), None, Some("wall")), Some("lock"));
}

#[test]
fn a_click_lands_on_the_window_before_the_wallpaper() {
    assert_eq!(surface_under(None, None, Some("term"), Some("dock"), Some("wall")), Some("term"));
}

#[test]
fn a_click_on_bare_background_reaches_it() {
    assert_eq!(surface_under::<&str>(None, None, None, None, Some("wall")), Some("wall"));
    assert_eq!(surface_under::<&str>(None, None, None, None, None), None);
}

#[test]
fn top_layer_beats_window_and_bottom_beats_background() {
    assert_eq!(surface_under(None, Some(2), Some(3), Some(4), Some(5)), Some(2));
    assert_eq!(surface_under(None, None, None, Some(4), Some(5)), Some(4));
}

#[test]
fn the_most_recent_exclusive_launcher_takes_the_keyboard() {
    let mapped = [
        (Layer::Top, Interactivity::Exclusive),
        (Layer::Background, Interactivity::Exclusive),
        (Layer::Overlay, Interactivity::Exclusive),
        (Layer::Top, Interactivity::OnDemand),
    ];
    assert_eq!(exclusive_focus(&mapped), Some(2));
}

#[test]
fn on_demand_and_bottom_layers_never_take_the_keyboard() {
    let mapped = [
        (Layer::Top, Interactivity::OnDemand),
        (Layer::Bottom, Interactivity::Exclusive),
        (Layer::Background, Interactivity::Exclusive),
        (Layer::Overlay, Interactivity::NoFocus),
    ];
    assert_eq!(exclusive_focus(&mapped), None);
    assert_eq!(exclusive_focus(&[]), None);
}
