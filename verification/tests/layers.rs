use graphyr::cell::CellId;
use graphyr::data::{end_line, ViewData};
use graphyr::store::{Arrow, Configuration};

#[test]
fn configuration_starts_with_one_layer() {
    let c = Configuration::new();
    assert_eq!(c.layers.len(), 1);
    assert_eq!(c.layers[0].name, "Unnamed");
    assert!(!c.layers[0].enabled);
    assert!(c.layers[0].arrows.is_empty());
}

#[test]
fn add_and_remove_layers() {
    let mut c = Configuration::new();
    c.add_layer();
    c.add_layer();
    assert_eq!(c.layers.len(), 3);
    c.remove_layer(1);
    assert_eq!(c.layers.len(), 2);
}

#[test]
fn toggle_flips_only_enabled() {
    let mut c = Configuration::new();
    c.add_layer();
    c.toggle(0);
    assert!(c.layers[0].enabled);
    assert!(!c.layers[1].enabled);
    c.toggle(0);
    assert!(!c.layers[0].enabled);
}

#[test]
fn add_and_remove_arrows() {
    let mut c = Configuration::new();
    let a = Arrow::new(CellId(1), CellId(2));
    let b = Arrow::new(CellId(3), CellId(4));
    c.add_arrow(0, a);
    c.add_arrow(0, b);
    assert_eq!(c.layers[0].arrows.len(), 2);
    assert_eq!(c.layers[0].arrows[0].from, CellId(1));
    c.remove_arrow(0, 0);
    assert_eq!(c.layers[0].arrows.len(), 1);
    assert_eq!(c.layers[0].arrows[0].from, CellId(3));
}

#[test]
fn arrow_margin_stays_in_range() {
    // The routing margin is drawn at random but always lies in [3, 15).
    for _ in 0..64 {
        let a = Arrow::new(CellId(1), CellId(2));
        assert!(a.margin >= 3 && a.margin < 15);
        assert_eq!(a.from, CellId(1));
        assert_eq!(a.to, CellId(2));
    }
}

#[test]
fn gesture_appends_to_enabled_layers_only() {
    let mut view = ViewData::new();
    let mut config = Configuration::new();
    config.add_layer();
    config.add_layer();
    config.toggle(0);
    config.toggle(2);

    view.start_line(CellId(10));
    let made = end_line(&mut view, &mut config, CellId(20));
    let arrow = made.unwrap();
    assert_eq!(arrow.from, CellId(10));
    assert_eq!(arrow.to, CellId(20));
    assert_eq!(config.layers[0].arrows.len(), 1);
    assert_eq!(config.layers[1].arrows.len(), 0);
    assert_eq!(config.layers[2].arrows.len(), 1);
    assert!(view.arrow_start_id.is_none());
}

#[test]
fn gesture_on_same_cell_does_nothing() {
    let mut view = ViewData::new();
    let mut config = Configuration::new();
    config.toggle(0);
    view.start_line(CellId(10));
    assert!(end_line(&mut view, &mut config, CellId(10)).is_none());
    assert_eq!(config.layers[0].arrows.len(), 0);
    assert_eq!(view.arrow_start_id, Some(CellId(10)));
}

#[test]
fn gesture_without_pending_start_does_nothing() {
    let mut view = ViewData::new();
    let mut config = Configuration::new();
    config.toggle(0);
    assert!(end_line(&mut view, &mut config, CellId(20)).is_none());
    assert_eq!(config.layers[0].arrows.len(), 0);
}

#[test]
fn cancel_clears_pending_start() {
    let mut view = ViewData::new();
    view.start_line(CellId(10));
    view.cancel_line();
    assert!(view.arrow_start_id.is_none());
    view.start_line(CellId(11));
    view.reset();
    assert!(view.arrow_start_id.is_none());
    assert_eq!(view.displayed_cell.0, vec![(0, 0)]);
}
