//! The property graph: cells, handles, registration, and notification.
//!
//! Every cell of a graph lives in one [`Cells`] arena; a [`Property`] is a
//! cheap, copyable handle naming one of them. Shared ownership of a cell —
//! many handles, and listeners that name cells — is therefore plain index
//! sharing, and a cell lives exactly as long as its graph.
//!
//! Listeners are data, not closures: a binding is a `Forward` entry on the
//! source cell, a derived property a `Recompute` entry on each source, and
//! an outside subscriber a token whose firings the engine appends to its
//! event log. An embedding reads the log after each mutation and dispatches
//! its own callbacks from it; the log order is the delivery order.

use vstd::prelude::*;

use crate::ops::BinaryOp;
use crate::sem;

verus! {

/// Error returned when a mutation reaches a cell that is already
/// mid-notification: a reentrant write.
#[derive(Clone, Copy, PartialEq, Eq, Debug)]
pub struct BorrowConflict;

/// A registered listener, kept in registration order.
#[derive(Clone, Copy)]
pub enum Listener<Op> {
    /// From `observe`: report a change, no payload.
    Notice { token: u64 },
    /// From `observe_value`: report a change together with a snapshot of the
    /// owning cell's value, read at firing time.
    NoticeValue { token: u64 },
    /// From `bind`: forward the owning cell's current value to `target`.
    Forward { target: usize },
    /// From `combine`: recompute `op` over the current values of `left` and
    /// `right` and write the result into `target`.
    Recompute { left: usize, right: usize, target: usize, op: Op },
}

/// A record of one listener firing (or one write being refused), appended to
/// the engine's event log during notification.
#[derive(Clone, Copy, PartialEq, Eq, Debug)]
pub enum Event<T> {
    /// Subscription `token` fired; `value` carries the snapshot for
    /// `observe_value` subscriptions and is `None` for `observe` ones.
    Fired { token: u64, value: Option<T> },
    /// A write into `target` was refused because `target` was already
    /// mid-notification.
    Conflicted { target: usize },
}

/// One cell: the stored value, the flag marking a notification in progress,
/// and the listeners in registration order.
pub struct PropertyCell<T, Op> {
    pub value: T,
    pub notifying: bool,
    pub listeners: Vec<Listener<Op>>,
}

/// The mathematical shadow of a [`PropertyCell`].
#[verifier::ext_equal]
pub struct CellView<T, Op> {
    pub value: T,
    pub notifying: bool,
    pub listeners: Seq<Listener<Op>>,
}

impl<T, Op> View for PropertyCell<T, Op> {
    type V = CellView<T, Op>;

    open spec fn view(&self) -> CellView<T, Op> {
        CellView { value: self.value, notifying: self.notifying, listeners: self.listeners@ }
    }
}

impl<T, Op> PropertyCell<T, Op> {
    /// A fresh cell holding `value`, with no listeners and no notification
    /// in progress.
    pub fn new(value: T) -> (c: PropertyCell<T, Op>)
        ensures
            c@.value == value,
            !c@.notifying,
            c@.listeners.len() == 0,
    {
        PropertyCell { value, notifying: false, listeners: Vec::new() }
    }
}

/// The engine: every cell of one property graph, the event log, and the
/// counter from which subscription tokens are drawn.
pub struct Cells<T, Op> {
    cells: Vec<PropertyCell<T, Op>>,
    events: Vec<Event<T>>,
    next_token: u64,
}

/// The mathematical shadow of a whole graph.
#[verifier::ext_equal]
pub struct CellsView<T, Op> {
    pub cells: Seq<CellView<T, Op>>,
    pub events: Seq<Event<T>>,
    pub next_token: u64,
}

impl<T, Op> View for Cells<T, Op> {
    type V = CellsView<T, Op>;

    closed spec fn view(&self) -> CellsView<T, Op> {
        CellsView {
            cells: self.cells@.map_values(|c: PropertyCell<T, Op>| c@),
            events: self.events@,
            next_token: self.next_token,
        }
    }
}

/// A shared handle to one cell. Copying a `Property` copies the handle, not
/// the cell: both copies read and write the same storage.
#[derive(Clone, Copy, PartialEq, Eq, Structural)]
pub struct Property {
    pub id: usize,
}

impl<T: Copy, Op: BinaryOp<T> + Copy> Cells<T, Op> {
    /// Well-formed engine: every listener's indices are in range, no cell is
    /// mid-notification between public calls, and every issued token lies
    /// below the counter.
    pub open spec fn wf(self) -> bool {
        &&& sem::cells_wf(self@)
        &&& sem::quiescent(self@)
        &&& sem::tokens_bounded(self@)
    }

    /// An empty graph.
    pub fn new() -> (r: Cells<T, Op>)
        ensures
            r.wf(),
            r@.cells.len() == 0,
            r@.events.len() == 0,
            r@.next_token == 0,
    {
        Cells { cells: Vec::new(), events: Vec::new(), next_token: 0 }
    }

    /// How many cells the graph holds.
    pub fn cell_count(&self) -> (n: usize)
        ensures
            n == self@.cells.len(),
    {
        self.cells.len()
    }

    /// How many events the log holds.
    pub fn event_count(&self) -> (n: usize)
        ensures
            n == self@.events.len(),
    {
        self.events.len()
    }

    /// The `i`th event of the log, oldest first.
    pub fn event(&self, i: usize) -> (e: Event<T>)
        requires
            i < self@.events.len(),
        ensures
            e == self@.events[i as int],
    {
        self.events[i]
    }

    /// Replaces the value and notification flag of cell `i`, keeping its
    /// listeners.
    fn store_cell(&mut self, i: usize, value: T, notifying: bool)
        requires
            i < old(self)@.cells.len(),
        ensures
            final(self)@ == sem::store(old(self)@, i as int, value, notifying),
    {
        let mut c = self.cells.remove(i);
        c.value = value;
        c.notifying = notifying;
        self.cells.insert(i, c);
        proof {
            let t = sem::store(old(self)@, i as int, value, notifying);
            assert forall|j: int| 0 <= j < self@.cells.len() implies self@.cells[j] =~= t.cells[j] by {
                if j < i {
                } else if j == i {
                } else {
                }
            }
            assert(self@.cells =~~= t.cells);
            assert(self@ =~~= t);
        }
    }

    /// Appends a listener to cell `i`'s list.
    fn push_listener(&mut self, i: usize, l: Listener<Op>)
        requires
            i < old(self)@.cells.len(),
        ensures
            final(self)@.cells == sem::with_listener(old(self)@.cells, i as int, l),
            final(self)@.events == old(self)@.events,
            final(self)@.next_token == old(self)@.next_token,
    {
        let mut c = self.cells.remove(i);
        c.listeners.push(l);
        self.cells.insert(i, c);
        proof {
            let t = sem::with_listener(old(self)@.cells, i as int, l);
            assert forall|j: int| 0 <= j < self@.cells.len() implies self@.cells[j] =~= t[j] by {
                if j < i {
                } else if j == i {
                } else {
                }
            }
            assert(self@.cells =~~= t);
        }
    }

    /// The cascade loop's induction step: any completed continuation of the
    /// partly fired listener list is also the completion of some run that
    /// starts at the beginning of the list in the initial state.
    spec fn continues(
        mid: CellsView<T, Op>,
        init: CellsView<T, Op>,
        c: usize,
        ls: Seq<Listener<Op>>,
        j: int,
    ) -> bool {
        forall|fuel: nat|
            (#[trigger] sem::fire_listeners(mid, c, ls, j, fuel)) is Some ==> exists|f2: nat|
                sem::fire_listeners(init, c, ls, 0, f2) == sem::fire_listeners(mid, c, ls, j, fuel)
    }

    /// A write arriving at `target` from a firing listener: refused and
    /// logged when `target` is mid-notification, otherwise applied, with
    /// `target`'s own notification run to completion before returning.
    fn deliver(&mut self, target: usize, value: T)
        requires
            sem::cells_wf(old(self)@),
            target < old(self)@.cells.len(),
        ensures
            old(self)@.cells[target as int].notifying ==> final(self)@ == sem::log(
                old(self)@,
                Event::Conflicted { target },
            ),
            !old(self)@.cells[target as int].notifying ==> exists|fuel: nat|
                sem::fire_listeners(
                    sem::store(old(self)@, target as int, value, true),
                    target,
                    old(self)@.cells[target as int].listeners,
                    0,
                    fuel,
                ) == Some(final(self)@),
        decreases sem::free_count(self@), 0int,
    {
        if self.cells[target].notifying {
            self.events.push(Event::Conflicted { target });
            proof {
                assert(self@ =~~= sem::log(old(self)@, Event::Conflicted { target }));
            }
        } else {
            self.store_cell(target, value, true);
            proof {
                let marked = sem::store(old(self)@, target as int, value, true);
                assert(self@ == marked);
                sem::lemma_cells_wf_congruent(old(self)@, marked);
                sem::lemma_count_free_mark(
                    old(self)@.cells,
                    target as int,
                    CellView {
                        value,
                        notifying: true,
                        listeners: old(self)@.cells[target as int].listeners,
                    },
                );
                assert(sem::free_count(self@) < sem::free_count(old(self)@));
                assert(self@.cells[target as int].listeners == old(self)@.cells[
                    target as int
                ].listeners);
            }
            self.cascade_cell(target);
        }
    }

    /// Fires every listener of cell `c` in registration order, then takes
    /// `c` out of notification; exactly a completed run of the semantic
    /// machine. The recursion descends on the number of free cells: a
    /// cascade only ever enters cells not already notifying.
    fn cascade_cell(&mut self, c: usize)
        requires
            sem::cells_wf(old(self)@),
            c < old(self)@.cells.len(),
            old(self)@.cells[c as int].notifying,
        ensures
            exists|fuel: nat|
                sem::fire_listeners(
                    old(self)@,
                    c,
                    old(self)@.cells[c as int].listeners,
                    0,
                    fuel,
                ) == Some(final(self)@),
        decreases sem::free_count(self@), 1int,
    {
        let ghost init_v = self@;
        let ghost ls = self@.cells[c as int].listeners;
        let n = self.cells[c].listeners.len();
        let mut j: usize = 0;
        while j < n
            invariant
                init_v == old(self)@,
                j <= n,
                c < self@.cells.len(),
                n == ls.len(),
                sem::cells_wf(self@),
                self@.cells.len() == init_v.cells.len(),
                forall|i: int|
                    0 <= i < self@.cells.len() ==> (#[trigger] self@.cells[i]).listeners
                        == init_v.cells[i].listeners,
                forall|i: int|
                    0 <= i < self@.cells.len() ==> (#[trigger] self@.cells[i]).notifying
                        == init_v.cells[i].notifying,
                init_v.cells[c as int].listeners == ls,
                init_v.cells[c as int].notifying,
                sem::free_count(self@) == sem::free_count(init_v),
                Self::continues(self@, init_v, c, ls, j as int),
            decreases n - j,
        {
            let ghost pre_v = self@;
            let l = self.cells[c].listeners[j];
            proof {
                assert(l == ls[j as int]);
                assert(sem::listener_wf(pre_v, l));
            }
            match l {
                Listener::Notice { token } => {
                    self.events.push(Event::Fired { token, value: None });
                    proof {
                        assert(self@ =~~= sem::log(pre_v, Event::Fired { token, value: None }));
                        assert forall|fuel: nat|
                            (#[trigger] sem::fire_listeners(self@, c, ls, j + 1, fuel))
                                is Some implies exists|f2: nat|
                            sem::fire_listeners(init_v, c, ls, 0, f2) == sem::fire_listeners(
                                self@, c, ls, j + 1, fuel,
                            ) by {
                            assert(sem::fire_listeners(pre_v, c, ls, j as int, fuel)
                                == sem::fire_listeners(self@, c, ls, j + 1, fuel));
                        }
                        assert(Self::continues(self@, init_v, c, ls, j + 1));
                    }
                }
                Listener::NoticeValue { token } => {
                    let val = self.cells[c].value;
                    self.events.push(Event::Fired { token, value: Some(val) });
                    proof {
                        assert(val == pre_v.cells[c as int].value);
                        assert(self@ =~~= sem::log(
                            pre_v,
                            Event::Fired { token, value: Some(pre_v.cells[c as int].value) },
                        ));
                        assert forall|fuel: nat|
                            (#[trigger] sem::fire_listeners(self@, c, ls, j + 1, fuel))
                                is Some implies exists|f2: nat|
                            sem::fire_listeners(init_v, c, ls, 0, f2) == sem::fire_listeners(
                                self@, c, ls, j + 1, fuel,
                            ) by {
                            assert(sem::fire_listeners(pre_v, c, ls, j as int, fuel)
                                == sem::fire_listeners(self@, c, ls, j + 1, fuel));
                        }
                        assert(Self::continues(self@, init_v, c, ls, j + 1));
                    }
                }
                Listener::Forward { target } => {
                    let val = self.cells[c].value;
                    proof {
                        assert(val == pre_v.cells[c as int].value);
                    }
                    self.deliver(target, val);
                    proof {
                        self.lemma_after_deliver(pre_v, init_v, c, ls, j as int, target, val);
                    }
                }
                Listener::Recompute { left, right, target, op } => {
                    let a = self.cells[left].value;
                    let b = self.cells[right].value;
                    let val = op.apply(a, b);
                    proof {
                        assert(val == op.spec_apply(
                            pre_v.cells[left as int].value,
                            pre_v.cells[right as int].value,
                        ));
                    }
                    self.deliver(target, val);
                    proof {
                        self.lemma_after_deliver(pre_v, init_v, c, ls, j as int, target, val);
                    }
                }
            }
            j = j + 1;
        }
        let val = self.cells[c].value;
        let ghost pre_clear = self@;
        self.store_cell(c, val, false);
        proof {
            assert(val == pre_clear.cells[c as int].value);
            assert(sem::fire_listeners(pre_clear, c, ls, n as int, 0) == Some(self@));
            assert(Self::continues(pre_clear, init_v, c, ls, n as int));
            let f2 = choose|f2: nat|
                sem::fire_listeners(init_v, c, ls, 0, f2) == sem::fire_listeners(
                    pre_clear, c, ls, n as int, 0,
                );
            assert(sem::fire_listeners(init_v, c, ls, 0, f2) == Some(self@));
        }
    }

    /// Rebuilds the cascade loop's invariant after one listener's write was
    /// delivered: relates the states before and after the delivery through
    /// `write_step`, whichever branch the delivery took.
    proof fn lemma_after_deliver(
        &self,
        pre_v: CellsView<T, Op>,
        init_v: CellsView<T, Op>,
        c: usize,
        ls: Seq<Listener<Op>>,
        j: int,
        target: usize,
        value: T,
    )
        requires
            sem::cells_wf(pre_v),
            c < pre_v.cells.len(),
            target < pre_v.cells.len(),
            0 <= j < ls.len(),
            ls == pre_v.cells[c as int].listeners,
            pre_v.cells[c as int].notifying,
            ls[j] matches Listener::Forward { target: t } ==> t == target && value == pre_v.cells[
                c as int
            ].value,
            ls[j] matches Listener::Recompute { left, right, target: t, op } ==> t == target
                && value == op.spec_apply(
                pre_v.cells[left as int].value,
                pre_v.cells[right as int].value,
            ),
            ls[j] is Forward || ls[j] is Recompute,
            pre_v.cells[target as int].notifying ==> self@ == sem::log(
                pre_v,
                Event::Conflicted { target },
            ),
            !pre_v.cells[target as int].notifying ==> exists|fuel: nat|
                sem::fire_listeners(
                    sem::store(pre_v, target as int, value, true),
                    target,
                    pre_v.cells[target as int].listeners,
                    0,
                    fuel,
                ) == Some(self@),
            Self::continues(pre_v, init_v, c, ls, j),
            pre_v.cells.len() == init_v.cells.len(),
            forall|i: int|
                0 <= i < pre_v.cells.len() ==> (#[trigger] pre_v.cells[i]).listeners
                    == init_v.cells[i].listeners,
            forall|i: int|
                0 <= i < pre_v.cells.len() ==> (#[trigger] pre_v.cells[i]).notifying
                    == init_v.cells[i].notifying,
        ensures
            sem::cells_wf(self@),
            self@.cells.len() == init_v.cells.len(),
            forall|i: int|
                0 <= i < self@.cells.len() ==> (#[trigger] self@.cells[i]).listeners
                    == init_v.cells[i].listeners,
            forall|i: int|
                0 <= i < self@.cells.len() ==> (#[trigger] self@.cells[i]).notifying
                    == init_v.cells[i].notifying,
            sem::free_count(self@) == sem::free_count(init_v),
            Self::continues(self@, init_v, c, ls, j + 1),
    {
        if pre_v.cells[target as int].notifying {
            let now = sem::log(pre_v, Event::Conflicted { target });
            assert(self@ == now);
            sem::lemma_cells_wf_congruent(pre_v, now);
            assert forall|fuel: nat|
                (#[trigger] sem::fire_listeners(self@, c, ls, j + 1, fuel)) is Some implies
                exists|f2: nat|
                    sem::fire_listeners(init_v, c, ls, 0, f2) == sem::fire_listeners(
                        self@, c, ls, j + 1, fuel,
                    ) by {
                assert(sem::write_step(pre_v, c, ls, j, target, value, fuel)
                    == sem::fire_listeners(self@, c, ls, j + 1, fuel));
                assert(sem::fire_listeners(pre_v, c, ls, j, fuel) == sem::fire_listeners(
                    self@, c, ls, j + 1, fuel,
                ));
            }
            sem::lemma_count_free_congruent(self@.cells, init_v.cells);
        } else {
            let marked = sem::store(pre_v, target as int, value, true);
            let lst = pre_v.cells[target as int].listeners;
            let f_sub = choose|fuel: nat|
                sem::fire_listeners(marked, target, lst, 0, fuel) == Some(self@);
            sem::lemma_cells_wf_congruent(pre_v, marked);
            sem::lemma_fire(marked, target, lst, 0, f_sub, self@);
            sem::lemma_cells_wf_congruent(pre_v, self@);
            assert forall|i: int|
                0 <= i < self@.cells.len() implies (#[trigger] self@.cells[i]).notifying
                == init_v.cells[i].notifying by {
                if i == target as int {
                } else {
                }
            }
            sem::lemma_count_free_congruent(self@.cells, init_v.cells);
            assert forall|fuel: nat|
                (#[trigger] sem::fire_listeners(self@, c, ls, j + 1, fuel)) is Some implies
                exists|f2: nat|
                    sem::fire_listeners(init_v, c, ls, 0, f2) == sem::fire_listeners(
                        self@, c, ls, j + 1, fuel,
                    ) by {
                let big = (f_sub + fuel + 1) as nat;
                sem::lemma_fire_mono(marked, target, lst, 0, f_sub, (big - 1) as nat);
                sem::lemma_fire_mono(self@, c, ls, j + 1, fuel, big);
                assert(sem::fire_listeners(marked, target, lst, 0, (big - 1) as nat) == Some(
                    self@,
                ));
                assert(sem::fire_listeners(self@, c, ls, j + 1, big) == sem::fire_listeners(
                    self@, c, ls, j + 1, fuel,
                ));
                assert(sem::write_step(pre_v, c, ls, j, target, value, big)
                    == sem::fire_listeners(self@, c, ls, j + 1, big));
                assert(sem::fire_listeners(pre_v, c, ls, j, big) == sem::fire_listeners(
                    self@, c, ls, j + 1, fuel,
                ));
            }
        }
    }

    /// Fires `p`'s listeners as if its value had just been written again:
    /// the notification half of `set_value`, with the stored value kept.
    pub fn notify(&mut self, p: Property) -> (r: Result<(), BorrowConflict>)
        requires
            old(self).wf(),
            p.id < old(self)@.cells.len(),
        ensures
            r is Ok,
            final(self).wf(),
            final(self)@.cells.len() == old(self)@.cells.len(),
            forall|i: int|
                0 <= i < old(self)@.cells.len() ==> (#[trigger] final(self)@.cells[i]).listeners
                    == old(self)@.cells[i].listeners,
            final(self)@.next_token == old(self)@.next_token,
            old(self)@.events.len() <= final(self)@.events.len(),
            forall|i: int|
                0 <= i < old(self)@.events.len() ==> #[trigger] final(self)@.events[i] == old(self)@.events[i],
            final(self)@.cells[p.id as int].value == old(self)@.cells[p.id as int].value,
            exists|fuel: nat| sem::notify_outcome(old(self)@, p.id, fuel) == Some(final(self)@),
    {
        proof {
            assert(self@.cells[p.id as int] == self.cells@[p.id as int]@);
        }
        if self.cells[p.id].notifying {
            return Err(BorrowConflict);
        }
        let val = self.cells[p.id].value;
        self.store_cell(p.id, val, true);
        proof {
            self.lemma_marked(old(self)@, p.id, val);
        }
        self.cascade_cell(p.id);
        proof {
            self.lemma_after_cascade(old(self)@, p.id, val);
            let f = choose|fuel: nat|
                sem::set_outcome(old(self)@, p.id, val, fuel) == Some(self@);
            assert(sem::notify_outcome(old(self)@, p.id, f) == Some(self@));
        }
        Ok(())
    }

    /// After marking `p` for notification: the machine's invariants hold of
    /// the marked state.
    proof fn lemma_marked(&self, pre: CellsView<T, Op>, p: usize, value: T)
        requires
            sem::cells_wf(pre),
            p < pre.cells.len(),
            self@ == sem::store(pre, p as int, value, true),
        ensures
            sem::cells_wf(self@),
            self@.cells[p as int].notifying,
            self@.cells.len() == pre.cells.len(),
    {
        sem::lemma_cells_wf_congruent(pre, self@);
    }

    /// After the cascade started by marking `p` and storing `value` into it:
    /// the engine is well formed again and the run is a completed
    /// `set_outcome`.
    proof fn lemma_after_cascade(&self, pre: CellsView<T, Op>, p: usize, value: T)
        requires
            pre.cells.len() > 0,
            p < pre.cells.len(),
            sem::cells_wf(pre),
            sem::quiescent(pre),
            sem::tokens_bounded(pre),
            exists|fuel: nat|
                sem::fire_listeners(
                    sem::store(pre, p as int, value, true),
                    p,
                    sem::store(pre, p as int, value, true).cells[p as int].listeners,
                    0,
                    fuel,
                ) == Some(self@),
        ensures
            self.wf(),
            self@.cells.len() == pre.cells.len(),
            forall|i: int|
                0 <= i < pre.cells.len() ==> (#[trigger] self@.cells[i]).listeners == pre.cells[i].listeners,
            self@.next_token == pre.next_token,
            pre.events.len() <= self@.events.len(),
            forall|i: int| 0 <= i < pre.events.len() ==> #[trigger] self@.events[i] == pre.events[i],
            self@.cells[p as int].value == value,
            exists|fuel: nat| sem::set_outcome(pre, p, value, fuel) == Some(self@),
    {
        let marked = sem::store(pre, p as int, value, true);
        let lst = marked.cells[p as int].listeners;
        assert(lst == pre.cells[p as int].listeners);
        let f = choose|fuel: nat| sem::fire_listeners(marked, p, lst, 0, fuel) == Some(self@);
        sem::lemma_cells_wf_congruent(pre, marked);
        sem::lemma_fire(marked, p, lst, 0, f, self@);
        assert(sem::set_outcome(pre, p, value, f) == Some(self@));
        sem::lemma_cells_wf_congruent(pre, self@);
        sem::lemma_tokens_congruent(pre, self@);
        assert forall|i: int| 0 <= i < self@.cells.len() implies !(#[trigger] self@.cells[i]).notifying by {
            if i == p as int {
            } else {
                assert(marked.cells[i].notifying == pre.cells[i].notifying);
            }
        }
        assert(marked.cells[p as int].notifying && marked.cells[p as int].value == value);
        assert(self@.cells[p as int].value == value);
    }
}

impl Property {
    /// Creates a new cell holding `value` and returns the first handle to
    /// it.
    pub fn new<T: Copy, Op: BinaryOp<T> + Copy>(cells: &mut Cells<T, Op>, value: T) -> (p:
        Property)
        requires
            old(cells).wf(),
        ensures
            final(cells).wf(),
            p.id == old(cells)@.cells.len(),
            final(cells)@.cells == old(cells)@.cells.push(
                CellView { value, notifying: false, listeners: Seq::empty() },
            ),
            final(cells)@.events == old(cells)@.events,
            final(cells)@.next_token == old(cells)@.next_token,
    {
        let id = cells.cells.len();
        cells.cells.push(PropertyCell::new(value));
        proof {
            let t = old(cells)@.cells.push(
                CellView { value, notifying: false, listeners: Seq::empty() },
            );
            assert forall|i: int| 0 <= i < cells@.cells.len() implies cells@.cells[i] =~= t[i] by {
                if i < old(cells)@.cells.len() {
                } else {
                }
            }
            assert(cells@.cells =~~= t);
            assert forall|c: int, j: int|
                0 <= c < cells@.cells.len() && 0 <= j < cells@.cells[c].listeners.len() implies
                sem::listener_wf(cells@, #[trigger] cells@.cells[c].listeners[j])
                    && sem::listener_token_ok(cells@.cells[c].listeners[j], cells@.next_token) by {
                assert(c < old(cells)@.cells.len());
                assert(cells@.cells[c].listeners == old(cells)@.cells[c].listeners);
                assert(sem::listener_wf(old(cells)@, old(cells)@.cells[c].listeners[j]));
                assert(sem::listener_token_ok(
                    old(cells)@.cells[c].listeners[j],
                    old(cells)@.next_token,
                ));
            }
        }
        Property { id }
    }

    /// Returns an independent copy of the current value; the cell keeps its
    /// own.
    pub fn value<T: Copy, Op: BinaryOp<T> + Copy>(&self, cells: &Cells<T, Op>) -> (r: T)
        requires
            self.id < cells@.cells.len(),
        ensures
            r == cells@.cells[self.id as int].value,
    {
        cells.cells[self.id].value
    }

    /// Overwrites the stored value, then runs every listener of this
    /// property — and, through them, any dependent properties — before
    /// returning. Between public calls no cell is mid-notification, so the
    /// reentrancy refusal can only be observed inside a cascade (see the
    /// `Conflicted` event); the result is `Ok` for every well-formed engine.
    pub fn set_value<T: Copy, Op: BinaryOp<T> + Copy>(
        &self,
        cells: &mut Cells<T, Op>,
        value: T,
    ) -> (r: Result<(), BorrowConflict>)
        requires
            old(cells).wf(),
            self.id < old(cells)@.cells.len(),
        ensures
            r is Ok,
            final(cells).wf(),
            final(cells)@.cells.len() == old(cells)@.cells.len(),
            forall|i: int|
                0 <= i < old(cells)@.cells.len() ==> (#[trigger] final(cells)@.cells[i]).listeners == old(cells)@.cells[i].listeners,
            final(cells)@.next_token == old(cells)@.next_token,
            old(cells)@.events.len() <= final(cells)@.events.len(),
            forall|i: int|
                0 <= i < old(cells)@.events.len() ==> #[trigger] final(cells)@.events[i] == old(cells)@.events[i],
            final(cells)@.cells[self.id as int].value == value,
            exists|fuel: nat| sem::set_outcome(old(cells)@, self.id, value, fuel) == Some(
                final(cells)@,
            ),
    {
        proof {
            assert(cells@.cells[self.id as int] == cells.cells@[self.id as int]@);
        }
        if cells.cells[self.id].notifying {
            return Err(BorrowConflict);
        }
        cells.store_cell(self.id, value, true);
        proof {
            cells.lemma_marked(old(cells)@, self.id, value);
        }
        cells.cascade_cell(self.id);
        proof {
            cells.lemma_after_cascade(old(cells)@, self.id, value);
        }
        Ok(())
    }

    /// Subscribes to change notifications without payload. The returned
    /// token is fresh — no earlier subscription anywhere in the graph uses
    /// it — and names this subscription's entries in the event log.
    pub fn observe<T: Copy, Op: BinaryOp<T> + Copy>(&self, cells: &mut Cells<T, Op>) -> (token:
        u64)
        requires
            old(cells).wf(),
            self.id < old(cells)@.cells.len(),
            old(cells)@.next_token < u64::MAX,
        ensures
            final(cells).wf(),
            token == old(cells)@.next_token,
            final(cells)@.next_token == token + 1,
            final(cells)@.cells == sem::with_listener(
                old(cells)@.cells,
                self.id as int,
                Listener::Notice { token },
            ),
            final(cells)@.events == old(cells)@.events,
    {
        let token = cells.next_token;
        cells.push_listener(self.id, Listener::Notice { token });
        cells.next_token = cells.next_token + 1;
        proof {
            lemma_registration_wf(old(cells)@, cells@, self.id as int, Listener::Notice { token });
        }
        token
    }

    /// Subscribes to change notifications with a value snapshot, read at
    /// firing time: if an earlier listener has meanwhile rewritten some
    /// other property this one mirrors, the snapshot is that latest value.
    /// The returned token is fresh and names this subscription's entries in
    /// the event log.
    pub fn observe_value<T: Copy, Op: BinaryOp<T> + Copy>(&self, cells: &mut Cells<T, Op>) -> (
        token: u64)
        requires
            old(cells).wf(),
            self.id < old(cells)@.cells.len(),
            old(cells)@.next_token < u64::MAX,
        ensures
            final(cells).wf(),
            token == old(cells)@.next_token,
            final(cells)@.next_token == token + 1,
            final(cells)@.cells == sem::with_listener(
                old(cells)@.cells,
                self.id as int,
                Listener::NoticeValue { token },
            ),
            final(cells)@.events == old(cells)@.events,
    {
        let token = cells.next_token;
        cells.push_listener(self.id, Listener::NoticeValue { token });
        cells.next_token = cells.next_token + 1;
        proof {
            lemma_registration_wf(
                old(cells)@,
                cells@,
                self.id as int,
                Listener::NoticeValue { token },
            );
        }
        token
    }

    /// Wires this property to mirror `source`'s future changes: every later
    /// write to `source` is forwarded here, in registration order. Binding
    /// is lazy — nothing is copied now; only subsequent changes propagate.
    /// No cycle check is made: mutually bound properties refuse the echo as
    /// a conflict on the first write.
    pub fn bind<T: Copy, Op: BinaryOp<T> + Copy>(&self, cells: &mut Cells<T, Op>, source:
        &Property)
        requires
            old(cells).wf(),
            self.id < old(cells)@.cells.len(),
            source.id < old(cells)@.cells.len(),
        ensures
            final(cells).wf(),
            final(cells)@.cells == sem::with_listener(
                old(cells)@.cells,
                source.id as int,
                Listener::Forward { target: self.id },
            ),
            final(cells)@.events == old(cells)@.events,
            final(cells)@.next_token == old(cells)@.next_token,
    {
        cells.push_listener(source.id, Listener::Forward { target: self.id });
        proof {
            lemma_registration_wf(
                old(cells)@,
                cells@,
                source.id as int,
                Listener::Forward { target: self.id },
            );
        }
    }

    /// Builds a derived property holding `op` of this property and `other`.
    /// Eager, unlike `bind`: the new cell starts at the operator applied to
    /// the current values, and is recomputed from the then-current values
    /// whenever either source changes.
    pub fn combine<T: Copy, Op: BinaryOp<T> + Copy>(
        &self,
        cells: &mut Cells<T, Op>,
        other: &Property,
        op: Op,
    ) -> (p: Property)
        requires
            old(cells).wf(),
            self.id < old(cells)@.cells.len(),
            other.id < old(cells)@.cells.len(),
        ensures
            final(cells).wf(),
            p.id == old(cells)@.cells.len(),
            final(cells)@.events == old(cells)@.events,
            final(cells)@.next_token == old(cells)@.next_token,
            ({
                let rc = Listener::Recompute {
                    left: self.id,
                    right: other.id,
                    target: p.id,
                    op,
                };
                let grown = old(cells)@.cells.push(
                    CellView {
                        value: op.spec_apply(
                            old(cells)@.cells[self.id as int].value,
                            old(cells)@.cells[other.id as int].value,
                        ),
                        notifying: false,
                        listeners: Seq::empty(),
                    },
                );
                final(cells)@.cells == sem::with_listener(
                    sem::with_listener(grown, self.id as int, rc),
                    other.id as int,
                    rc,
                )
            }),
    {
        let a = self.value(cells);
        let b = other.value(cells);
        let init = op.apply(a, b);
        let p = Property::new(cells, init);
        let ghost grown_v = cells@;
        let rc = Listener::Recompute { left: self.id, right: other.id, target: p.id, op };
        cells.push_listener(self.id, rc);
        let ghost one_v = cells@;
        cells.push_listener(other.id, rc);
        proof {
            lemma_registration_wf(grown_v, one_v, self.id as int, rc);
            lemma_registration_wf(one_v, cells@, other.id as int, rc);
        }
        p
    }
}

/// Appending one in-range, token-in-bound listener to one cell keeps the
/// engine well formed; the flags and the cell count do not move.
proof fn lemma_registration_wf<T: Copy, Op: BinaryOp<T> + Copy>(
    pre: CellsView<T, Op>,
    now: CellsView<T, Op>,
    i: int,
    l: Listener<Op>,
)
    requires
        sem::cells_wf(pre),
        sem::quiescent(pre),
        sem::tokens_bounded(pre),
        0 <= i < pre.cells.len(),
        sem::listener_wf(pre, l),
        sem::listener_token_ok(l, now.next_token),
        pre.next_token <= now.next_token,
        now.cells == sem::with_listener(pre.cells, i, l),
        now.events == pre.events,
    ensures
        sem::cells_wf(now),
        sem::quiescent(now),
        sem::tokens_bounded(now),
{
    assert forall|c: int, j: int|
        0 <= c < now.cells.len() && 0 <= j < now.cells[c].listeners.len() implies sem::listener_wf(
        now,
        #[trigger] now.cells[c].listeners[j],
    ) && sem::listener_token_ok(now.cells[c].listeners[j], now.next_token) by {
        if c == i && j == pre.cells[c].listeners.len() {
            assert(now.cells[c].listeners[j] == l);
        } else {
            assert(now.cells[c].listeners[j] == pre.cells[c].listeners[j]);
            assert(sem::listener_wf(pre, pre.cells[c].listeners[j]));
            assert(sem::listener_token_ok(pre.cells[c].listeners[j], pre.next_token));
        }
    }
    assert forall|c: int| 0 <= c < now.cells.len() implies !(#[trigger] now.cells[c]).notifying by {
        assert(!pre.cells[c].notifying);
    }
}

} // verus!
