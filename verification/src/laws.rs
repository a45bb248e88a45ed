//! The behavioural laws of the engine, proved over the semantic machine.
//!
//! Each lemma quantifies over every graph and every value its statement
//! allows; outcomes of `set_value` appear as completed runs of
//! [`crate::sem::set_outcome`], exactly the form the executable engine's
//! `ensures` promise.

use vstd::prelude::*;

use crate::cells::{CellView, CellsView, Event, Listener};
use crate::ops::BinaryOp;
use crate::sem;

verus! {

/// A property created with an initial value holds that value: the fresh
/// cell a `Property::new` appends reads back what was passed in.
pub proof fn lemma_new_then_value<T, Op>(v: CellsView<T, Op>, value: T)
    ensures
        ({
            let grown = v.cells.push(
                CellView { value, notifying: false, listeners: Seq::empty() },
            );
            grown[v.cells.len() as int].value == value
        }),
{
}

/// After a completed `set_value(p, value)`, reading `p` yields `value` —
/// whatever listeners fired in between, since no write can reach `p` while
/// `p`'s own notification runs. The rest of the graph keeps its shape: same
/// cells, same listener lists, same token counter, the log only grown, and
/// the graph quiescent again.
pub proof fn lemma_set_then_value<T, Op: BinaryOp<T>>(
    v: CellsView<T, Op>,
    p: usize,
    value: T,
    fuel: nat,
    r: CellsView<T, Op>,
)
    requires
        sem::cells_wf(v),
        sem::quiescent(v),
        p < v.cells.len(),
        sem::set_outcome(v, p, value, fuel) == Some(r),
    ensures
        r.cells[p as int].value == value,
        r.cells.len() == v.cells.len(),
        forall|i: int|
            0 <= i < v.cells.len() ==> (#[trigger] r.cells[i]).listeners == v.cells[i].listeners,
        r.next_token == v.next_token,
        v.events.len() <= r.events.len(),
        forall|i: int| 0 <= i < v.events.len() ==> #[trigger] r.events[i] == v.events[i],
        sem::quiescent(r),
{
    let marked = sem::store(v, p as int, value, true);
    let ls = v.cells[p as int].listeners;
    sem::lemma_cells_wf_congruent(v, marked);
    sem::lemma_fire(marked, p, ls, 0, fuel, r);
    assert forall|i: int| 0 <= i < r.cells.len() implies !(#[trigger] r.cells[i]).notifying by {
        if i != p as int {
            assert(marked.cells[i].notifying == v.cells[i].notifying);
        }
    }
}

/// Registering `observe_value` on a property with no other listeners and
/// then setting it fires the subscription exactly once, with exactly the
/// value just written: the log grows by that one entry and nothing else.
pub proof fn lemma_observe_value_fires_once<T, Op: BinaryOp<T>>(
    v: CellsView<T, Op>,
    p: usize,
    token: u64,
    value: T,
    fuel: nat,
    r: CellsView<T, Op>,
)
    requires
        sem::cells_wf(v),
        sem::quiescent(v),
        p < v.cells.len(),
        v.cells[p as int].listeners == Seq::<Listener<Op>>::empty(),
        ({
            let w = CellsView {
                cells: sem::with_listener(
                    v.cells,
                    p as int,
                    Listener::NoticeValue { token },
                ),
                events: v.events,
                next_token: v.next_token,
            };
            sem::set_outcome(w, p, value, fuel) == Some(r)
        }),
    ensures
        r.events == v.events.push(Event::Fired { token, value: Some(value) }),
        r.cells[p as int].value == value,
{
    let w = CellsView {
        cells: sem::with_listener(v.cells, p as int, Listener::NoticeValue { token }),
        events: v.events,
        next_token: v.next_token,
    };
    let ls = w.cells[p as int].listeners;
    assert(ls =~= Seq::<Listener<Op>>::empty().push(Listener::NoticeValue { token }));
    assert(ls.len() == 1 && ls[0] == Listener::<Op>::NoticeValue { token });
    let marked = sem::store(w, p as int, value, true);
    assert(marked.cells[p as int].value == value);
    let v1 = sem::log(marked, Event::Fired { token, value: Some(value) });
    assert(sem::fire_listeners(marked, p, ls, 0, fuel) == sem::fire_listeners(v1, p, ls, 1, fuel));
    assert(sem::fire_listeners(v1, p, ls, 1, fuel) == Some(
        sem::store(v1, p as int, v1.cells[p as int].value, false),
    ));
    assert(r == sem::store(v1, p as int, v1.cells[p as int].value, false));
    assert(r.events =~= v.events.push(Event::Fired { token, value: Some(value) }));
}

/// Listeners fire in registration order: with two subscriptions registered
/// first `t1`, then `t2`, on an otherwise listener-free property, one write
/// appends `t1`'s entry to the log strictly before `t2`'s.
pub proof fn lemma_listeners_fire_in_order<T, Op: BinaryOp<T>>(
    v: CellsView<T, Op>,
    p: usize,
    t1: u64,
    t2: u64,
    value: T,
    fuel: nat,
    r: CellsView<T, Op>,
)
    requires
        sem::cells_wf(v),
        sem::quiescent(v),
        p < v.cells.len(),
        v.cells[p as int].listeners == Seq::<Listener<Op>>::empty(),
        ({
            let w = CellsView {
                cells: sem::with_listener(
                    sem::with_listener(v.cells, p as int, Listener::NoticeValue { token: t1 }),
                    p as int,
                    Listener::NoticeValue { token: t2 },
                ),
                events: v.events,
                next_token: v.next_token,
            };
            sem::set_outcome(w, p, value, fuel) == Some(r)
        }),
    ensures
        r.events == v.events.push(Event::Fired { token: t1, value: Some(value) }).push(
            Event::Fired { token: t2, value: Some(value) },
        ),
{
    let w = CellsView {
        cells: sem::with_listener(
            sem::with_listener(v.cells, p as int, Listener::NoticeValue { token: t1 }),
            p as int,
            Listener::NoticeValue { token: t2 },
        ),
        events: v.events,
        next_token: v.next_token,
    };
    let ls = w.cells[p as int].listeners;
    assert(ls.len() == 2 && ls[0] == Listener::<Op>::NoticeValue { token: t1 } && ls[1]
        == Listener::<Op>::NoticeValue { token: t2 });
    let marked = sem::store(w, p as int, value, true);
    assert(marked.cells[p as int].value == value);
    let v1 = sem::log(marked, Event::Fired { token: t1, value: Some(value) });
    assert(v1.cells[p as int].value == value);
    let v2 = sem::log(v1, Event::Fired { token: t2, value: Some(value) });
    assert(sem::fire_listeners(marked, p, ls, 0, fuel) == sem::fire_listeners(v1, p, ls, 1, fuel));
    assert(sem::fire_listeners(v1, p, ls, 1, fuel) == sem::fire_listeners(v2, p, ls, 2, fuel));
    assert(sem::fire_listeners(v2, p, ls, 2, fuel) == Some(
        sem::store(v2, p as int, v2.cells[p as int].value, false),
    ));
    assert(r == sem::store(v2, p as int, v2.cells[p as int].value, false));
    assert(r.events =~= v.events.push(Event::Fired { token: t1, value: Some(value) }).push(
        Event::Fired { token: t2, value: Some(value) },
    ));
}

/// Binding is lazy: wiring a binding changes no stored value anywhere — in
/// particular the target keeps its old value until the source next changes.
pub proof fn lemma_bind_is_lazy<T, Op>(s: Seq<CellView<T, Op>>, i: int, l: Listener<Op>)
    requires
        0 <= i < s.len(),
    ensures
        sem::with_listener(s, i, l).len() == s.len(),
        forall|k: int|
            0 <= k < s.len() ==> (#[trigger] sem::with_listener(s, i, l)[k]).value == s[k].value,
{
}

/// A bound target mirrors the source's next write: with `a`'s only listener
/// a binding into `b` (and `b` listener-free), a completed `set_value(a, x)`
/// leaves both `a` and `b` at `x`, and logs nothing.
pub proof fn lemma_bound_value_follows<T, Op: BinaryOp<T>>(
    v: CellsView<T, Op>,
    a: usize,
    b: usize,
    x: T,
    fuel: nat,
    r: CellsView<T, Op>,
)
    requires
        sem::cells_wf(v),
        sem::quiescent(v),
        a < v.cells.len(),
        b < v.cells.len(),
        a != b,
        v.cells[a as int].listeners == Seq::<Listener<Op>>::empty().push(
            Listener::Forward { target: b },
        ),
        v.cells[b as int].listeners == Seq::<Listener<Op>>::empty(),
        sem::set_outcome(v, a, x, fuel) == Some(r),
    ensures
        r.cells[a as int].value == x,
        r.cells[b as int].value == x,
        r.events == v.events,
{
    let ls = v.cells[a as int].listeners;
    assert(ls.len() == 1 && ls[0] == (Listener::<Op>::Forward { target: b }));
    let marked = sem::store(v, a as int, x, true);
    assert(marked.cells[a as int].value == x);
    assert(!marked.cells[b as int].notifying);
    assert(sem::fire_listeners(marked, a, ls, 0, fuel) == sem::write_step(
        marked,
        a,
        ls,
        0,
        b,
        x,
        fuel,
    ));
    assert(fuel > 0) by {
        if fuel == 0 {
            assert(sem::write_step(marked, a, ls, 0, b, x, fuel) is None);
        }
    }
    let bmarked = sem::store(marked, b as int, x, true);
    let lsb = marked.cells[b as int].listeners;
    assert(lsb.len() == 0);
    assert(sem::fire_listeners(bmarked, b, lsb, 0, (fuel - 1) as nat) == Some(
        sem::store(bmarked, b as int, x, false),
    ));
    let v2 = sem::store(bmarked, b as int, x, false);
    assert(sem::write_step(marked, a, ls, 0, b, x, fuel) == sem::fire_listeners(
        v2,
        a,
        ls,
        1,
        fuel,
    ));
    assert(sem::fire_listeners(v2, a, ls, 1, fuel) == Some(
        sem::store(v2, a as int, v2.cells[a as int].value, false),
    ));
    assert(r == sem::store(v2, a as int, v2.cells[a as int].value, false));
    assert(r.events =~= v.events);
}

/// A derived property is eager: the freshly combined cell already holds the
/// operator applied to both sources' current values, before any change.
pub proof fn lemma_combine_is_eager<T, Op: BinaryOp<T>>(
    v: CellsView<T, Op>,
    a: usize,
    b: usize,
    op: Op,
)
    requires
        a < v.cells.len(),
        b < v.cells.len(),
    ensures
        ({
            let grown = v.cells.push(
                CellView {
                    value: op.spec_apply(v.cells[a as int].value, v.cells[b as int].value),
                    notifying: false,
                    listeners: Seq::empty(),
                },
            );
            grown[v.cells.len() as int].value == op.spec_apply(
                v.cells[a as int].value,
                v.cells[b as int].value,
            )
        }),
{
}

/// A derived property stays current: with `a`'s only listener the
/// recomputation into `c` (and `c` listener-free), a completed
/// `set_value(a, x)` leaves `c` at the operator applied to `x` and the
/// then-current value of the other source `b` — read at firing time, not at
/// combination time.
pub proof fn lemma_combined_tracks_source<T, Op: BinaryOp<T>>(
    v: CellsView<T, Op>,
    a: usize,
    b: usize,
    c: usize,
    op: Op,
    x: T,
    fuel: nat,
    r: CellsView<T, Op>,
)
    requires
        sem::cells_wf(v),
        sem::quiescent(v),
        a < v.cells.len(),
        b < v.cells.len(),
        c < v.cells.len(),
        a != b && a != c && b != c,
        v.cells[a as int].listeners == Seq::<Listener<Op>>::empty().push(
            Listener::Recompute { left: a, right: b, target: c, op },
        ),
        v.cells[c as int].listeners == Seq::<Listener<Op>>::empty(),
        sem::set_outcome(v, a, x, fuel) == Some(r),
    ensures
        r.cells[a as int].value == x,
        r.cells[b as int].value == v.cells[b as int].value,
        r.cells[c as int].value == op.spec_apply(x, v.cells[b as int].value),
        r.events == v.events,
{
    let ls = v.cells[a as int].listeners;
    let rc = Listener::Recompute { left: a, right: b, target: c, op };
    assert(ls.len() == 1 && ls[0] == rc);
    let marked = sem::store(v, a as int, x, true);
    assert(marked.cells[a as int].value == x);
    assert(marked.cells[b as int].value == v.cells[b as int].value);
    let y = op.spec_apply(x, v.cells[b as int].value);
    assert(sem::fire_listeners(marked, a, ls, 0, fuel) == sem::write_step(
        marked,
        a,
        ls,
        0,
        c,
        y,
        fuel,
    ));
    assert(!marked.cells[c as int].notifying);
    assert(fuel > 0) by {
        if fuel == 0 {
            assert(sem::write_step(marked, a, ls, 0, c, y, fuel) is None);
        }
    }
    let cmarked = sem::store(marked, c as int, y, true);
    let lsc = marked.cells[c as int].listeners;
    assert(lsc.len() == 0);
    assert(sem::fire_listeners(cmarked, c, lsc, 0, (fuel - 1) as nat) == Some(
        sem::store(cmarked, c as int, y, false),
    ));
    let v2 = sem::store(cmarked, c as int, y, false);
    assert(sem::write_step(marked, a, ls, 0, c, y, fuel) == sem::fire_listeners(
        v2,
        a,
        ls,
        1,
        fuel,
    ));
    assert(sem::fire_listeners(v2, a, ls, 1, fuel) == Some(
        sem::store(v2, a as int, v2.cells[a as int].value, false),
    ));
    assert(r == sem::store(v2, a as int, v2.cells[a as int].value, false));
    assert(r.events =~= v.events);
}

/// Reentrancy is refused: a write fired into a cell that is itself
/// mid-notification changes no cell — the target keeps the outer write's
/// value — and only records the conflict.
pub proof fn lemma_reentrant_write_refused<T, Op: BinaryOp<T>>(
    v: CellsView<T, Op>,
    c: usize,
    ls: Seq<Listener<Op>>,
    j: int,
    target: usize,
    value: T,
    fuel: nat,
)
    requires
        0 <= j < ls.len(),
        v.cells[target as int].notifying,
    ensures
        sem::write_step(v, c, ls, j, target, value, fuel) == sem::fire_listeners(
            sem::log(v, Event::Conflicted { target }),
            c,
            ls,
            j + 1,
            fuel,
        ),
        sem::log(v, Event::Conflicted { target }).cells == v.cells,
{
}

/// The reentrancy scenario end to end: a property bound to itself keeps the
/// outer write's value — the echoing inner write fails as a conflict, is
/// logged, and corrupts nothing.
pub proof fn lemma_self_bind_conflicts<T, Op: BinaryOp<T>>(
    v: CellsView<T, Op>,
    p: usize,
    x: T,
    fuel: nat,
    r: CellsView<T, Op>,
)
    requires
        sem::cells_wf(v),
        sem::quiescent(v),
        p < v.cells.len(),
        v.cells[p as int].listeners == Seq::<Listener<Op>>::empty().push(
            Listener::Forward { target: p },
        ),
        sem::set_outcome(v, p, x, fuel) == Some(r),
    ensures
        r.cells[p as int].value == x,
        r.events == v.events.push(Event::Conflicted { target: p }),
{
    let ls = v.cells[p as int].listeners;
    assert(ls.len() == 1 && ls[0] == (Listener::<Op>::Forward { target: p }));
    let marked = sem::store(v, p as int, x, true);
    assert(marked.cells[p as int].value == x);
    assert(marked.cells[p as int].notifying);
    assert(sem::fire_listeners(marked, p, ls, 0, fuel) == sem::write_step(
        marked,
        p,
        ls,
        0,
        p,
        x,
        fuel,
    ));
    let v1 = sem::log(marked, Event::Conflicted { target: p });
    assert(sem::write_step(marked, p, ls, 0, p, x, fuel) == sem::fire_listeners(
        v1,
        p,
        ls,
        1,
        fuel,
    ));
    assert(sem::fire_listeners(v1, p, ls, 1, fuel) == Some(
        sem::store(v1, p as int, v1.cells[p as int].value, false),
    ));
    assert(r == sem::store(v1, p as int, v1.cells[p as int].value, false));
    assert(r.events =~= v.events.push(Event::Conflicted { target: p }));
}

/// Last write wins: with two bindings into the same target from sources
/// `a` and `b`, writing `a` then `b` leaves the target at `b`'s value — the
/// later firing overwrote the earlier one.
pub proof fn lemma_last_write_wins<T, Op: BinaryOp<T>>(
    v: CellsView<T, Op>,
    a: usize,
    b: usize,
    t: usize,
    x: T,
    y: T,
    f1: nat,
    f2: nat,
    r1: CellsView<T, Op>,
    r2: CellsView<T, Op>,
)
    requires
        sem::cells_wf(v),
        sem::quiescent(v),
        a < v.cells.len(),
        b < v.cells.len(),
        t < v.cells.len(),
        a != b && a != t && b != t,
        v.cells[a as int].listeners == Seq::<Listener<Op>>::empty().push(
            Listener::Forward { target: t },
        ),
        v.cells[b as int].listeners == Seq::<Listener<Op>>::empty().push(
            Listener::Forward { target: t },
        ),
        v.cells[t as int].listeners == Seq::<Listener<Op>>::empty(),
        sem::set_outcome(v, a, x, f1) == Some(r1),
        sem::set_outcome(r1, b, y, f2) == Some(r2),
    ensures
        r1.cells[t as int].value == x,
        r2.cells[t as int].value == y,
{
    lemma_bound_value_follows(v, a, t, x, f1, r1);
    lemma_set_then_value(v, a, x, f1, r1);
    sem::lemma_cells_wf_congruent(v, r1);
    assert(r1.cells[b as int].listeners == v.cells[b as int].listeners);
    assert(r1.cells[t as int].listeners == v.cells[t as int].listeners);
    lemma_bound_value_follows(r1, b, t, y, f2, r2);
}

/// The general exactly-once law: registering `observe_value` — whose token
/// is freshly drawn from the counter — and then completing a
/// `set_value(p, value)` adds exactly one firing of that token to the log,
/// and every such firing carries exactly the value just written. This holds
/// with any other listeners on `p`, any other cells, and any cascades the
/// write sets off.
pub proof fn lemma_observe_value_exactly_once<T, Op: BinaryOp<T>>(
    v: CellsView<T, Op>,
    w: CellsView<T, Op>,
    p: usize,
    tok: u64,
    value: T,
    fuel: nat,
    r: CellsView<T, Op>,
)
    requires
        sem::cells_wf(v),
        sem::quiescent(v),
        sem::tokens_bounded(v),
        p < v.cells.len(),
        tok == v.next_token,
        w.cells == sem::with_listener(v.cells, p as int, Listener::NoticeValue { token: tok }),
        w.events == v.events,
        sem::set_outcome(w, p, value, fuel) == Some(r),
    ensures
        sem::count_token(r.events, tok) == sem::count_token(v.events, tok) + 1,
        (forall|i: int|
            v.events.len() <= i < r.events.len() && sem::is_token_event(
                #[trigger] r.events[i],
                tok,
            ) ==> r.events[i] == (Event::Fired { token: tok, value: Some(value) })),
{
    let nv = Listener::<Op>::NoticeValue { token: tok };
    let k = v.cells[p as int].listeners.len() as int;
    let marked = sem::store(w, p as int, value, true);
    let ls = w.cells[p as int].listeners;
    assert(ls == v.cells[p as int].listeners.push(nv));
    assert(marked.cells[p as int].listeners == ls);
    assert(marked.cells[p as int].value == value);
    assert(marked.events == v.events);
    assert forall|c: int, j: int|
        0 <= c < marked.cells.len() && 0 <= j < marked.cells[c].listeners.len() implies
        sem::listener_wf(marked, #[trigger] marked.cells[c].listeners[j]) by {
        if c == p as int && j == k {
            assert(marked.cells[c].listeners[j] == nv);
        } else {
            assert(marked.cells[c].listeners[j] == v.cells[c].listeners[j]);
            assert(sem::listener_wf(v, v.cells[c].listeners[j]));
        }
    }
    assert forall|i: int, j: int|
        0 <= i < marked.cells.len() && i != p as int && 0 <= j < marked.cells[i].listeners.len()
        implies !sem::listener_has_token(#[trigger] marked.cells[i].listeners[j], tok) by {
        assert(marked.cells[i].listeners[j] == v.cells[i].listeners[j]);
        assert(sem::listener_token_ok(v.cells[i].listeners[j], v.next_token));
    }
    assert(sem::token_once_at(ls, k, tok)) by {
        assert forall|j: int| 0 <= j < ls.len() && j != k implies !sem::listener_has_token(
            #[trigger] ls[j],
            tok,
        ) by {
            assert(ls[j] == v.cells[p as int].listeners[j]);
            assert(sem::listener_token_ok(v.cells[p as int].listeners[j], v.next_token));
        }
    }
    sem::lemma_fire_token(marked, p, ls, 0, fuel, r, p, tok, k);
}

} // verus!
