//! Stateless widget stubs: placeholder handles a surrounding toolkit could
//! later give behaviour. They carry no state beyond an identifier and every
//! operation succeeds.

use vstd::prelude::*;

verus! {

pub type WidgetId = i32;

/// A widget that can hold children; the factory operations hand out
/// placeholder instances.
pub trait WidgetContainer {
    fn button(&self) -> (b: Button)
        ensures
            b.id == 0,
    {
        Button { id: 0 }
    }

    fn labeled_button(&self, label: &str) -> (b: Button)
        ensures
            b.id == 0,
    {
        let b = Button { id: 0 };
        b.label(label);
        b
    }

    fn fieldset(&self) -> (f: FieldSet)
        ensures
            f.id == 0,
    {
        FieldSet { id: 0 }
    }
}

/// A widget that carries a (currently ignored) label.
pub trait HasLabel {
    fn label<'a>(&'a self, label: &str) -> (r: &'a Self)
        ensures
            r == self,
    ;
}

/// The root of a widget tree.
pub struct Ui {}

impl Ui {
    pub fn new() -> Ui {
        Ui {  }
    }
}

impl WidgetContainer for Ui {
}

/// A push button.
#[derive(Clone, Copy, PartialEq, Eq, Structural)]
pub struct Button {
    pub id: WidgetId,
}

impl Button {
    /// Hands the button to an action callback, immediately and exactly once.
    pub fn on_action<F: Fn(&Button) -> ()>(&self, f: F)
        requires
            call_requires(f, (self,)),
    {
        f(self)
    }
}

impl WidgetContainer for Button {
}

impl HasLabel for Button {
    fn label<'a>(&'a self, label: &str) -> (r: &'a Self) {
        self
    }
}

/// A titled group of fields.
#[derive(Clone, Copy, PartialEq, Eq, Structural)]
pub struct FieldSet {
    pub id: WidgetId,
}

impl FieldSet {
    /// Adds a labelled entry field to the set; a placeholder like its owner.
    pub fn field(&self, label: &str) -> (r: Field)
        ensures
            r.id == 0,
    {
        Field { id: 0 }
    }
}

impl WidgetContainer for FieldSet {
}

impl HasLabel for FieldSet {
    fn label<'a>(&'a self, label: &str) -> (r: &'a Self) {
        self
    }
}

/// A single entry field.
#[derive(Clone, Copy, PartialEq, Eq, Structural)]
pub struct Field {
    pub id: WidgetId,
}

} // verus!
