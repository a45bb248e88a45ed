use propcell::cells::{Cells, Event, Property};
use propcell::ops::SatAdd;

fn fresh() -> Cells<i64, SatAdd> {
    Cells::new()
}

#[test]
fn new_property_holds_initial_value() {
    let mut cells = fresh();
    let p = Property::new(&mut cells, 42);
    assert_eq!(p.value(&cells), 42);
}

#[test]
fn set_value_then_read() {
    let mut cells = fresh();
    let p = Property::new(&mut cells, 1);
    assert!(p.set_value(&mut cells, 7).is_ok());
    assert_eq!(p.value(&cells), 7);
}

#[test]
fn observe_value_fires_once_with_new_value() {
    let mut cells = fresh();
    let p = Property::new(&mut cells, 1);
    let token = p.observe_value(&mut cells);
    let before = cells.event_count();
    assert!(p.set_value(&mut cells, 5).is_ok());
    assert_eq!(cells.event_count(), before + 1);
    assert_eq!(cells.event(before), Event::Fired { token, value: Some(5) });
}

#[test]
fn observe_fires_without_payload() {
    let mut cells = fresh();
    let p = Property::new(&mut cells, 1);
    let token = p.observe(&mut cells);
    assert!(p.set_value(&mut cells, 2).is_ok());
    assert_eq!(cells.event_count(), 1);
    assert_eq!(cells.event(0), Event::Fired { token, value: None });
}

#[test]
fn listeners_fire_in_registration_order() {
    let mut cells = fresh();
    let p = Property::new(&mut cells, 0);
    let first = p.observe_value(&mut cells);
    let second = p.observe_value(&mut cells);
    assert_ne!(first, second);
    assert!(p.set_value(&mut cells, 9).is_ok());
    assert_eq!(cells.event_count(), 2);
    assert_eq!(cells.event(0), Event::Fired { token: first, value: Some(9) });
    assert_eq!(cells.event(1), Event::Fired { token: second, value: Some(9) });
}

#[test]
fn binding_is_not_eager_then_follows() {
    let mut cells = fresh();
    let a = Property::new(&mut cells, 1);
    let b = Property::new(&mut cells, 2);
    b.bind(&mut cells, &a);
    assert_eq!(b.value(&cells), 2);
    assert!(a.set_value(&mut cells, 5).is_ok());
    assert_eq!(b.value(&cells), 5);
    assert_eq!(a.value(&cells), 5);
}

#[test]
fn combine_is_eager_and_stays_current() {
    let mut cells = fresh();
    let a = Property::new(&mut cells, 2);
    let b = Property::new(&mut cells, 3);
    let c = a.combine(&mut cells, &b, SatAdd);
    assert_eq!(c.value(&cells), 5);
    assert!(a.set_value(&mut cells, 10).is_ok());
    assert_eq!(c.value(&cells), 13);
    assert!(b.set_value(&mut cells, 1).is_ok());
    assert_eq!(c.value(&cells), 11);
}

#[test]
fn reentrant_write_is_refused_and_leaves_outer_value() {
    let mut cells = fresh();
    let p = Property::new(&mut cells, 1);
    p.bind(&mut cells, &p);
    assert!(p.set_value(&mut cells, 9).is_ok());
    assert_eq!(p.value(&cells), 9);
    assert_eq!(cells.event_count(), 1);
    assert_eq!(cells.event(0), Event::Conflicted { target: p.id });
}

#[test]
fn last_write_wins_with_two_bindings() {
    let mut cells = fresh();
    let a = Property::new(&mut cells, 0);
    let b = Property::new(&mut cells, 0);
    let t = Property::new(&mut cells, 0);
    t.bind(&mut cells, &a);
    t.bind(&mut cells, &b);
    assert!(a.set_value(&mut cells, 4).is_ok());
    assert_eq!(t.value(&cells), 4);
    assert!(b.set_value(&mut cells, 6).is_ok());
    assert_eq!(t.value(&cells), 6);
}

#[test]
fn bindings_cascade_through_a_chain() {
    let mut cells = fresh();
    let a = Property::new(&mut cells, 0);
    let b = Property::new(&mut cells, 0);
    let c = Property::new(&mut cells, 0);
    b.bind(&mut cells, &a);
    c.bind(&mut cells, &b);
    assert!(a.set_value(&mut cells, 3).is_ok());
    assert_eq!(b.value(&cells), 3);
    assert_eq!(c.value(&cells), 3);
}

#[test]
fn mutual_binding_conflicts_instead_of_looping() {
    let mut cells = fresh();
    let a = Property::new(&mut cells, 0);
    let b = Property::new(&mut cells, 0);
    a.bind(&mut cells, &b);
    b.bind(&mut cells, &a);
    assert!(a.set_value(&mut cells, 8).is_ok());
    assert_eq!(a.value(&cells), 8);
    assert_eq!(b.value(&cells), 8);
    assert_eq!(cells.event_count(), 1);
    assert_eq!(cells.event(0), Event::Conflicted { target: a.id });
}

#[test]
fn notify_replays_listeners_without_writing() {
    let mut cells = fresh();
    let p = Property::new(&mut cells, 4);
    let token = p.observe_value(&mut cells);
    assert!(cells.notify(p).is_ok());
    assert_eq!(p.value(&cells), 4);
    assert_eq!(cells.event_count(), 1);
    assert_eq!(cells.event(0), Event::Fired { token, value: Some(4) });
}

#[test]
fn property_handles_are_copies_of_the_same_cell() {
    let mut cells = fresh();
    let p = Property::new(&mut cells, 1);
    let q = p;
    assert!(q.set_value(&mut cells, 2).is_ok());
    assert_eq!(p.value(&cells), 2);
    assert_eq!(cells.cell_count(), 1);
}

#[test]
fn listener_on_bound_target_sees_the_forwarded_value() {
    let mut cells = fresh();
    let a = Property::new(&mut cells, 0);
    let b = Property::new(&mut cells, 0);
    b.bind(&mut cells, &a);
    let token = b.observe_value(&mut cells);
    assert!(a.set_value(&mut cells, 7).is_ok());
    assert_eq!(cells.event_count(), 1);
    assert_eq!(cells.event(0), Event::Fired { token, value: Some(7) });
}
