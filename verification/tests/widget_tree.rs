use std::cell::Cell;

use propcell::widgets::{HasLabel, Ui, WidgetContainer};

#[test]
fn containers_hand_out_placeholders() {
    let ui = Ui::new();
    assert_eq!(ui.button().id, 0);
    assert_eq!(ui.labeled_button("go").id, 0);
    let fs = ui.fieldset();
    assert_eq!(fs.id, 0);
    assert_eq!(fs.field("name").id, 0);
}

#[test]
fn labelling_returns_the_same_widget() {
    let b = Ui::new().button();
    assert!(*b.label("press") == b);
}

#[test]
fn on_action_invokes_the_callback_once() {
    let b = Ui::new().button();
    let calls = Cell::new(0);
    b.on_action(|w| {
        assert_eq!(w.id, 0);
        calls.set(calls.get() + 1);
    });
    assert_eq!(calls.get(), 1);
}

#[test]
fn buttons_nest_as_containers() {
    let outer = Ui::new().button();
    assert_eq!(outer.button().id, 0);
    assert_eq!(outer.fieldset().id, 0);
}
