//! The meaning of notification, as a recursive machine over a view of the
//! whole property graph.
//!
//! A write into a cell stores the value, marks the cell as notifying, and
//! fires the cell's listeners in registration order. A listener that writes
//! into another cell runs that cell's whole notification before the next
//! listener fires — depth-first, strict call-stack order. A write that
//! reaches a cell already mid-notification is refused and logged instead of
//! applied, so a cell's value cannot change while its own notification runs.
//! That refusal also bounds the depth: a cascade only ever descends into
//! cells not currently notifying, of which there are finitely many.
//!
//! `fire_listeners` nevertheless takes fuel, because the fuel argument is
//! what its recursion visibly decreases; the executable engine returns
//! results through `exists` over fuel, and `lemma_fire_mono` shows the fuel
//! does not matter once it suffices.

use vstd::prelude::*;

use crate::cells::{CellView, CellsView, Event, Listener};
use crate::ops::BinaryOp;

verus! {

/// Every index a listener names lies inside the graph.
pub open spec fn listener_wf<T, Op>(v: CellsView<T, Op>, l: Listener<Op>) -> bool {
    match l {
        Listener::Notice { .. } => true,
        Listener::NoticeValue { .. } => true,
        Listener::Forward { target } => target < v.cells.len(),
        Listener::Recompute { left, right, target, .. } =>
            left < v.cells.len() && right < v.cells.len() && target < v.cells.len(),
    }
}

pub open spec fn cells_wf<T, Op>(v: CellsView<T, Op>) -> bool {
    forall|c: int, j: int|
        0 <= c < v.cells.len() && 0 <= j < v.cells[c].listeners.len()
            ==> listener_wf(v, #[trigger] v.cells[c].listeners[j])
}

/// No notification is in progress anywhere.
pub open spec fn quiescent<T, Op>(v: CellsView<T, Op>) -> bool {
    forall|c: int| 0 <= c < v.cells.len() ==> !(#[trigger] v.cells[c]).notifying
}

/// The token bound for a single listener.
pub open spec fn listener_token_ok<Op>(l: Listener<Op>, bound: u64) -> bool {
    match l {
        Listener::Notice { token } => token < bound,
        Listener::NoticeValue { token } => token < bound,
        Listener::Forward { .. } => true,
        Listener::Recompute { .. } => true,
    }
}

/// Every subscription token already handed out lies below the counter, so a
/// freshly drawn token belongs to no existing listener.
pub open spec fn tokens_bounded<T, Op>(v: CellsView<T, Op>) -> bool {
    forall|c: int, j: int|
        0 <= c < v.cells.len() && 0 <= j < v.cells[c].listeners.len()
            ==> listener_token_ok(#[trigger] v.cells[c].listeners[j], v.next_token)
}

/// Cell `c` with its value and notifying flag replaced, listeners kept.
pub open spec fn store<T, Op>(
    v: CellsView<T, Op>,
    c: int,
    value: T,
    notifying: bool,
) -> CellsView<T, Op> {
    CellsView {
        cells: v.cells.update(c, CellView { value, notifying, listeners: v.cells[c].listeners }),
        events: v.events,
        next_token: v.next_token,
    }
}

/// One more event in the log.
pub open spec fn log<T, Op>(v: CellsView<T, Op>, e: Event<T>) -> CellsView<T, Op> {
    CellsView { cells: v.cells, events: v.events.push(e), next_token: v.next_token }
}

/// Fires the listeners `ls[j..]` of cell `c` (with `ls` being `c`'s listener
/// list), then takes `c` out of notification. `None` means the fuel ran out
/// before the cascade completed.
pub open spec fn fire_listeners<T, Op: BinaryOp<T>>(
    v: CellsView<T, Op>,
    c: usize,
    ls: Seq<Listener<Op>>,
    j: int,
    fuel: nat,
) -> Option<CellsView<T, Op>>
    decreases fuel, ls.len() - j, 1int,
{
    if j >= ls.len() {
        Some(store(v, c as int, v.cells[c as int].value, false))
    } else {
        match ls[j] {
            Listener::Notice { token } => fire_listeners(
                log(v, Event::Fired { token, value: None }),
                c,
                ls,
                j + 1,
                fuel,
            ),
            Listener::NoticeValue { token } => fire_listeners(
                log(v, Event::Fired { token, value: Some(v.cells[c as int].value) }),
                c,
                ls,
                j + 1,
                fuel,
            ),
            Listener::Forward { target } => write_step(
                v,
                c,
                ls,
                j,
                target,
                v.cells[c as int].value,
                fuel,
            ),
            Listener::Recompute { left, right, target, op } => write_step(
                v,
                c,
                ls,
                j,
                target,
                op.spec_apply(v.cells[left as int].value, v.cells[right as int].value),
                fuel,
            ),
        }
    }
}

/// A listener of `c` writes `value` into `target`: refused and logged when
/// `target` is itself mid-notification, otherwise stored, with `target`'s
/// whole notification run before `c`'s next listener fires.
pub open spec fn write_step<T, Op: BinaryOp<T>>(
    v: CellsView<T, Op>,
    c: usize,
    ls: Seq<Listener<Op>>,
    j: int,
    target: usize,
    value: T,
    fuel: nat,
) -> Option<CellsView<T, Op>>
    decreases fuel, ls.len() - j, 0int,
{
    if j < 0 || j >= ls.len() {
        None
    } else if v.cells[target as int].notifying {
        fire_listeners(log(v, Event::Conflicted { target }), c, ls, j + 1, fuel)
    } else if fuel == 0 {
        None
    } else {
        let marked = store(v, target as int, value, true);
        match fire_listeners(marked, target, v.cells[target as int].listeners, 0, (fuel - 1) as nat) {
            None => None,
            Some(v2) => fire_listeners(v2, c, ls, j + 1, fuel),
        }
    }
}

/// The complete outcome of `set_value(p, value)` under a given fuel: store,
/// mark, fire.
pub open spec fn set_outcome<T, Op: BinaryOp<T>>(
    v: CellsView<T, Op>,
    p: usize,
    value: T,
    fuel: nat,
) -> Option<CellsView<T, Op>> {
    fire_listeners(store(v, p as int, value, true), p, v.cells[p as int].listeners, 0, fuel)
}

/// The complete outcome of `notify(p)` under a given fuel: as `set_outcome`
/// with the stored value untouched.
pub open spec fn notify_outcome<T, Op: BinaryOp<T>>(
    v: CellsView<T, Op>,
    p: usize,
    fuel: nat,
) -> Option<CellsView<T, Op>> {
    set_outcome(v, p, v.cells[p as int].value, fuel)
}

/// How many cells are free, that is, not notifying; the quantity a cascade's
/// recursion descends on.
pub open spec fn count_free<T, Op>(s: Seq<CellView<T, Op>>) -> nat
    decreases s.len(),
{
    if s.len() == 0 {
        0
    } else {
        count_free(s.drop_last()) + if s.last().notifying {
            0nat
        } else {
            1nat
        }
    }
}

pub open spec fn free_count<T, Op>(v: CellsView<T, Op>) -> nat {
    count_free(v.cells)
}

/// Sequences whose cells agree on the notifying flag have the same number of
/// free cells.
pub proof fn lemma_count_free_congruent<T, Op>(a: Seq<CellView<T, Op>>, b: Seq<CellView<T, Op>>)
    requires
        a.len() == b.len(),
        forall|i: int| 0 <= i < a.len() ==> (#[trigger] a[i]).notifying == b[i].notifying,
    ensures
        count_free(a) == count_free(b),
    decreases a.len(),
{
    if a.len() > 0 {
        lemma_count_free_congruent(a.drop_last(), b.drop_last());
    }
}

/// Marking one free cell as notifying lowers the free count by exactly one.
pub proof fn lemma_count_free_mark<T, Op>(s: Seq<CellView<T, Op>>, i: int, c: CellView<T, Op>)
    requires
        0 <= i < s.len(),
        !s[i].notifying,
        c.notifying,
    ensures
        count_free(s.update(i, c)) + 1 == count_free(s),
    decreases s.len(),
{
    let t = s.update(i, c);
    if i == s.len() - 1 {
        assert(t.drop_last() =~= s.drop_last());
    } else {
        assert(t.drop_last() =~= s.drop_last().update(i, c));
        lemma_count_free_mark(s.drop_last(), i, c);
    }
}


/// A graph that keeps its length and all listener lists keeps listener
/// well-formedness.
pub proof fn lemma_cells_wf_congruent<T, Op>(a: CellsView<T, Op>, b: CellsView<T, Op>)
    requires
        cells_wf(a),
        a.cells.len() == b.cells.len(),
        forall|i: int|
            0 <= i < b.cells.len() ==> (#[trigger] b.cells[i]).listeners == a.cells[i].listeners,
    ensures
        cells_wf(b),
{
    assert forall|c: int, j: int|
        0 <= c < b.cells.len() && 0 <= j < b.cells[c].listeners.len() implies listener_wf(
        b,
        #[trigger] b.cells[c].listeners[j],
    ) by {
        assert(b.cells[c].listeners == a.cells[c].listeners);
        assert(listener_wf(a, a.cells[c].listeners[j]));
    }
}

/// A graph that keeps its listener lists and its token counter keeps the
/// token bound.
pub proof fn lemma_tokens_congruent<T, Op>(a: CellsView<T, Op>, b: CellsView<T, Op>)
    requires
        tokens_bounded(a),
        a.cells.len() == b.cells.len(),
        a.next_token == b.next_token,
        forall|i: int|
            0 <= i < b.cells.len() ==> (#[trigger] b.cells[i]).listeners == a.cells[i].listeners,
    ensures
        tokens_bounded(b),
{
    assert forall|c: int, j: int|
        0 <= c < b.cells.len() && 0 <= j < b.cells[c].listeners.len() implies listener_token_ok(
        #[trigger] b.cells[c].listeners[j],
        b.next_token,
    ) by {
        assert(b.cells[c].listeners == a.cells[c].listeners);
        assert(listener_token_ok(a.cells[c].listeners[j], a.next_token));
    }
}

/// Cell `i`'s list with `l` appended; everything else untouched.
pub open spec fn with_listener<T, Op>(
    s: Seq<CellView<T, Op>>,
    i: int,
    l: Listener<Op>,
) -> Seq<CellView<T, Op>> {
    s.update(
        i,
        CellView { value: s[i].value, notifying: s[i].notifying, listeners: s[i].listeners.push(l) },
    )
}

/// What a completed cascade guarantees: the graph's shape survives (same
/// cells, same listener lists, same token counter), the log only grows, the
/// firing cell comes out of notification while every other flag is as it
/// was, and no cell that was mid-notification — including the firing cell
/// itself — has its value changed.
pub proof fn lemma_fire<T, Op: BinaryOp<T>>(
    v: CellsView<T, Op>,
    c: usize,
    ls: Seq<Listener<Op>>,
    j: int,
    fuel: nat,
    r: CellsView<T, Op>,
)
    requires
        cells_wf(v),
        c < v.cells.len(),
        v.cells[c as int].notifying,
        ls == v.cells[c as int].listeners,
        0 <= j <= ls.len(),
        fire_listeners(v, c, ls, j, fuel) == Some(r),
    ensures
        r.cells.len() == v.cells.len(),
        forall|i: int|
            0 <= i < v.cells.len() ==> (#[trigger] r.cells[i]).listeners == v.cells[i].listeners,
        r.next_token == v.next_token,
        v.events.len() <= r.events.len(),
        forall|i: int| 0 <= i < v.events.len() ==> #[trigger] r.events[i] == v.events[i],
        forall|i: int|
            0 <= i < v.cells.len() && i != c ==> (#[trigger] r.cells[i]).notifying
                == v.cells[i].notifying,
        !r.cells[c as int].notifying,
        forall|i: int|
            0 <= i < v.cells.len() && v.cells[i].notifying ==> (#[trigger] r.cells[i]).value
                == v.cells[i].value,
    decreases fuel, ls.len() - j, 1int,
{
    if j >= ls.len() {
        assert(r == store(v, c as int, v.cells[c as int].value, false));
    } else {
        let l = ls[j];
        assert(listener_wf(v, l));
        match l {
            Listener::Notice { token } => {
                let v1 = log(v, Event::Fired { token, value: None });
                lemma_fire(v1, c, ls, j + 1, fuel, r);
            }
            Listener::NoticeValue { token } => {
                let v1 = log(v, Event::Fired { token, value: Some(v.cells[c as int].value) });
                lemma_fire(v1, c, ls, j + 1, fuel, r);
            }
            Listener::Forward { target } => {
                lemma_write_step(v, c, ls, j, target, v.cells[c as int].value, fuel, r);
            }
            Listener::Recompute { left, right, target, op } => {
                lemma_write_step(
                    v,
                    c,
                    ls,
                    j,
                    target,
                    op.spec_apply(v.cells[left as int].value, v.cells[right as int].value),
                    fuel,
                    r,
                );
            }
        }
    }
}

proof fn lemma_write_step<T, Op: BinaryOp<T>>(
    v: CellsView<T, Op>,
    c: usize,
    ls: Seq<Listener<Op>>,
    j: int,
    target: usize,
    value: T,
    fuel: nat,
    r: CellsView<T, Op>,
)
    requires
        cells_wf(v),
        c < v.cells.len(),
        target < v.cells.len(),
        v.cells[c as int].notifying,
        ls == v.cells[c as int].listeners,
        0 <= j < ls.len(),
        write_step(v, c, ls, j, target, value, fuel) == Some(r),
    ensures
        r.cells.len() == v.cells.len(),
        forall|i: int|
            0 <= i < v.cells.len() ==> (#[trigger] r.cells[i]).listeners == v.cells[i].listeners,
        r.next_token == v.next_token,
        v.events.len() <= r.events.len(),
        forall|i: int| 0 <= i < v.events.len() ==> #[trigger] r.events[i] == v.events[i],
        forall|i: int|
            0 <= i < v.cells.len() && i != c ==> (#[trigger] r.cells[i]).notifying
                == v.cells[i].notifying,
        !r.cells[c as int].notifying,
        forall|i: int|
            0 <= i < v.cells.len() && v.cells[i].notifying ==> (#[trigger] r.cells[i]).value
                == v.cells[i].value,
    decreases fuel, ls.len() - j, 0int,
{
    if v.cells[target as int].notifying {
        let v1 = log(v, Event::Conflicted { target });
        lemma_fire(v1, c, ls, j + 1, fuel, r);
    } else {
        let marked = store(v, target as int, value, true);
        let lst = v.cells[target as int].listeners;
        assert(target != c);
        let sub = fire_listeners(marked, target, lst, 0, (fuel - 1) as nat);
        let v2 = sub->Some_0;
        assert forall|cc: int, jj: int|
            0 <= cc < marked.cells.len() && 0 <= jj < marked.cells[cc].listeners.len()
            implies listener_wf(marked, #[trigger] marked.cells[cc].listeners[jj]) by {
            assert(marked.cells[cc].listeners == v.cells[cc].listeners);
            assert(listener_wf(v, v.cells[cc].listeners[jj]));
        }
        lemma_fire(marked, target, lst, 0, (fuel - 1) as nat, v2);
        assert forall|cc: int, jj: int|
            0 <= cc < v2.cells.len() && 0 <= jj < v2.cells[cc].listeners.len()
            implies listener_wf(v2, #[trigger] v2.cells[cc].listeners[jj]) by {
            assert(v2.cells[cc].listeners == v.cells[cc].listeners);
            assert(listener_wf(v, v.cells[cc].listeners[jj]));
        }
        lemma_fire(v2, c, ls, j + 1, fuel, r);
    }
}

/// More fuel than enough changes nothing: the machine's outcome is a
/// function of the starting state alone.
pub proof fn lemma_fire_mono<T, Op: BinaryOp<T>>(
    v: CellsView<T, Op>,
    c: usize,
    ls: Seq<Listener<Op>>,
    j: int,
    f1: nat,
    f2: nat,
)
    requires
        0 <= j <= ls.len(),
        f1 <= f2,
        fire_listeners(v, c, ls, j, f1) is Some,
    ensures
        fire_listeners(v, c, ls, j, f2) == fire_listeners(v, c, ls, j, f1),
    decreases f1, ls.len() - j, 1int,
{
    if j >= ls.len() {
    } else {
        match ls[j] {
            Listener::Notice { token } => {
                lemma_fire_mono(
                    log(v, Event::Fired { token, value: None }),
                    c,
                    ls,
                    j + 1,
                    f1,
                    f2,
                );
            }
            Listener::NoticeValue { token } => {
                lemma_fire_mono(
                    log(v, Event::Fired { token, value: Some(v.cells[c as int].value) }),
                    c,
                    ls,
                    j + 1,
                    f1,
                    f2,
                );
            }
            Listener::Forward { target } => {
                lemma_write_step_mono(v, c, ls, j, target, v.cells[c as int].value, f1, f2);
            }
            Listener::Recompute { left, right, target, op } => {
                lemma_write_step_mono(
                    v,
                    c,
                    ls,
                    j,
                    target,
                    op.spec_apply(v.cells[left as int].value, v.cells[right as int].value),
                    f1,
                    f2,
                );
            }
        }
    }
}

proof fn lemma_write_step_mono<T, Op: BinaryOp<T>>(
    v: CellsView<T, Op>,
    c: usize,
    ls: Seq<Listener<Op>>,
    j: int,
    target: usize,
    value: T,
    f1: nat,
    f2: nat,
)
    requires
        0 <= j < ls.len(),
        f1 <= f2,
        write_step(v, c, ls, j, target, value, f1) is Some,
    ensures
        write_step(v, c, ls, j, target, value, f2) == write_step(v, c, ls, j, target, value, f1),
    decreases f1, ls.len() - j, 0int,
{
    if v.cells[target as int].notifying {
        lemma_fire_mono(log(v, Event::Conflicted { target }), c, ls, j + 1, f1, f2);
    } else {
        let marked = store(v, target as int, value, true);
        let lst = v.cells[target as int].listeners;
        let sub1 = fire_listeners(marked, target, lst, 0, (f1 - 1) as nat);
        lemma_fire_mono(marked, target, lst, 0, (f1 - 1) as nat, (f2 - 1) as nat);
        let v2 = sub1->Some_0;
        lemma_fire_mono(v2, c, ls, j + 1, f1, f2);
    }
}

/// Two completed cascades from the same state agree, whatever their fuel.
pub proof fn lemma_fire_det<T, Op: BinaryOp<T>>(
    v: CellsView<T, Op>,
    c: usize,
    ls: Seq<Listener<Op>>,
    j: int,
    f1: nat,
    f2: nat,
)
    requires
        0 <= j <= ls.len(),
        fire_listeners(v, c, ls, j, f1) is Some,
        fire_listeners(v, c, ls, j, f2) is Some,
    ensures
        fire_listeners(v, c, ls, j, f1) == fire_listeners(v, c, ls, j, f2),
{
    if f1 <= f2 {
        lemma_fire_mono(v, c, ls, j, f1, f2);
    } else {
        lemma_fire_mono(v, c, ls, j, f2, f1);
    }
}

/// Whether a log entry is a firing of subscription `tok`.
pub open spec fn is_token_event<T>(e: Event<T>, tok: u64) -> bool {
    match e {
        Event::Fired { token, .. } => token == tok,
        Event::Conflicted { .. } => false,
    }
}

/// How many entries of the log are firings of subscription `tok`.
pub open spec fn count_token<T>(events: Seq<Event<T>>, tok: u64) -> nat
    decreases events.len(),
{
    if events.len() == 0 {
        0
    } else {
        count_token(events.drop_last(), tok) + if is_token_event(events.last(), tok) {
            1nat
        } else {
            0nat
        }
    }
}

pub proof fn lemma_count_token_push<T>(events: Seq<Event<T>>, e: Event<T>, tok: u64)
    ensures
        count_token(events.push(e), tok) == count_token(events, tok) + if is_token_event(e, tok) {
            1nat
        } else {
            0nat
        },
{
    assert(events.push(e).drop_last() =~= events);
}

/// Whether a listener is a subscription under token `tok`.
pub open spec fn listener_has_token<Op>(l: Listener<Op>, tok: u64) -> bool {
    match l {
        Listener::Notice { token } => token == tok,
        Listener::NoticeValue { token } => token == tok,
        Listener::Forward { .. } => false,
        Listener::Recompute { .. } => false,
    }
}

/// Token `tok` is subscribed nowhere outside cell `p`.
pub open spec fn token_only_at<T, Op>(v: CellsView<T, Op>, p: int, tok: u64) -> bool {
    forall|i: int, j: int|
        0 <= i < v.cells.len() && i != p && 0 <= j < v.cells[i].listeners.len()
            ==> !listener_has_token(#[trigger] v.cells[i].listeners[j], tok)
}

/// Within `ls`, token `tok` is subscribed exactly once, at index `k`, with a
/// value snapshot.
pub open spec fn token_once_at<Op>(ls: Seq<Listener<Op>>, k: int, tok: u64) -> bool {
    &&& 0 <= k < ls.len()
    &&& ls[k] == Listener::<Op>::NoticeValue { token: tok }
    &&& forall|j: int|
        0 <= j < ls.len() && j != k ==> !listener_has_token(#[trigger] ls[j], tok)
}

/// Exactly-once delivery: when token `tok` is subscribed once on cell `p`
/// and nowhere else, and `p` is mid-notification, a completed cascade of
/// cell `c` adds exactly one firing of `tok` to the log if it is `p`'s own
/// cascade with the subscription still ahead, and none otherwise — and any
/// firing of `tok` it adds carries `p`'s pinned current value.
pub proof fn lemma_fire_token<T, Op: BinaryOp<T>>(
    v: CellsView<T, Op>,
    c: usize,
    ls: Seq<Listener<Op>>,
    j: int,
    fuel: nat,
    r: CellsView<T, Op>,
    p: usize,
    tok: u64,
    k: int,
)
    requires
        cells_wf(v),
        c < v.cells.len(),
        v.cells[c as int].notifying,
        ls == v.cells[c as int].listeners,
        0 <= j <= ls.len(),
        fire_listeners(v, c, ls, j, fuel) == Some(r),
        p < v.cells.len(),
        v.cells[p as int].notifying,
        token_only_at(v, p as int, tok),
        token_once_at(v.cells[p as int].listeners, k, tok),
    ensures
        (count_token(r.events, tok) == count_token(v.events, tok) + (if c == p && j <= k {
            1nat
        } else {
            0nat
        })),
        (forall|i: int|
            v.events.len() <= i < r.events.len() && is_token_event(#[trigger] r.events[i], tok)
                ==> r.events[i] == (Event::Fired {
                    token: tok,
                    value: Some(v.cells[p as int].value),
                })),
    decreases fuel, ls.len() - j, 1int,
{
    lemma_fire(v, c, ls, j, fuel, r);
    if j >= ls.len() {
        if c == p {
            assert(k < ls.len());
        }
    } else {
        let l = ls[j];
        assert(listener_wf(v, l));
        if c == p && j != k {
            assert(!listener_has_token(l, tok));
        }
        if c != p {
            assert(!listener_has_token(l, tok));
        }
        match l {
            Listener::Notice { token } => {
                let e = Event::Fired { token, value: None };
                let v1 = log(v, e);
                assert(token != tok);
                lemma_count_token_push(v.events, e, tok);
                lemma_fire_token(v1, c, ls, j + 1, fuel, r, p, tok, k);
                assert(c == p && j <= k ==> j < k);
                lemma_fire(v1, c, ls, j + 1, fuel, r);
                assert forall|i: int|
                    v.events.len() <= i < r.events.len() && is_token_event(
                        #[trigger] r.events[i],
                        tok,
                    ) implies r.events[i] == (Event::Fired {
                    token: tok,
                    value: Some(v.cells[p as int].value),
                }) by {
                    if i < v1.events.len() {
                        assert(r.events[i] == v1.events[i]);
                        assert(v1.events[i] == e);
                    } else {
                        assert(v1.cells[p as int].value == v.cells[p as int].value);
                    }
                }
            }
            Listener::NoticeValue { token } => {
                let e = Event::Fired { token, value: Some(v.cells[c as int].value) };
                let v1 = log(v, e);
                lemma_count_token_push(v.events, e, tok);
                lemma_fire_token(v1, c, ls, j + 1, fuel, r, p, tok, k);
                if c == p && j == k {
                    assert(token == tok);
                    assert(is_token_event(e, tok));
                } else {
                    assert(token != tok);
                }
                lemma_fire(v1, c, ls, j + 1, fuel, r);
                assert forall|i: int|
                    v.events.len() <= i < r.events.len() && is_token_event(
                        #[trigger] r.events[i],
                        tok,
                    ) implies r.events[i] == (Event::Fired {
                    token: tok,
                    value: Some(v.cells[p as int].value),
                }) by {
                    if i < v1.events.len() {
                        assert(r.events[i] == v1.events[i]);
                        assert(v1.events[i] == e);
                    } else {
                        assert(v1.cells[p as int].value == v.cells[p as int].value);
                    }
                }
            }
            Listener::Forward { target } => {
                lemma_write_step_token(
                    v, c, ls, j, target, v.cells[c as int].value, fuel, r, p, tok, k,
                );
            }
            Listener::Recompute { left, right, target, op } => {
                lemma_write_step_token(
                    v,
                    c,
                    ls,
                    j,
                    target,
                    op.spec_apply(v.cells[left as int].value, v.cells[right as int].value),
                    fuel,
                    r,
                    p,
                    tok,
                    k,
                );
            }
        }
    }
}

proof fn lemma_write_step_token<T, Op: BinaryOp<T>>(
    v: CellsView<T, Op>,
    c: usize,
    ls: Seq<Listener<Op>>,
    j: int,
    target: usize,
    value: T,
    fuel: nat,
    r: CellsView<T, Op>,
    p: usize,
    tok: u64,
    k: int,
)
    requires
        cells_wf(v),
        c < v.cells.len(),
        target < v.cells.len(),
        v.cells[c as int].notifying,
        ls == v.cells[c as int].listeners,
        0 <= j < ls.len(),
        write_step(v, c, ls, j, target, value, fuel) == Some(r),
        ls[j] is Forward || ls[j] is Recompute,
        p < v.cells.len(),
        v.cells[p as int].notifying,
        token_only_at(v, p as int, tok),
        token_once_at(v.cells[p as int].listeners, k, tok),
    ensures
        (count_token(r.events, tok) == count_token(v.events, tok) + (if c == p && j <= k {
            1nat
        } else {
            0nat
        })),
        (forall|i: int|
            v.events.len() <= i < r.events.len() && is_token_event(#[trigger] r.events[i], tok)
                ==> r.events[i] == (Event::Fired {
                    token: tok,
                    value: Some(v.cells[p as int].value),
                })),
    decreases fuel, ls.len() - j, 0int,
{
    lemma_write_step(v, c, ls, j, target, value, fuel, r);
    assert(c == p && j <= k ==> j < k) by {
        if c == p && j == k {
            assert(ls[k] == Listener::<Op>::NoticeValue { token: tok });
        }
    }
    if v.cells[target as int].notifying {
        let e = Event::Conflicted { target };
        let v1 = log(v, e);
        lemma_count_token_push(v.events, e, tok);
        lemma_fire_token(v1, c, ls, j + 1, fuel, r, p, tok, k);
        lemma_fire(v1, c, ls, j + 1, fuel, r);
        assert forall|i: int|
            v.events.len() <= i < r.events.len() && is_token_event(
                #[trigger] r.events[i],
                tok,
            ) implies r.events[i] == (Event::Fired {
            token: tok,
            value: Some(v.cells[p as int].value),
        }) by {
            if i < v1.events.len() {
                assert(r.events[i] == v1.events[i]);
                assert(v1.events[i] == e);
            } else {
                assert(v1.cells[p as int].value == v.cells[p as int].value);
            }
        }
    } else {
        assert(target != p);
        let marked = store(v, target as int, value, true);
        let lst = v.cells[target as int].listeners;
        let sub = fire_listeners(marked, target, lst, 0, (fuel - 1) as nat);
        let v2 = sub->Some_0;
        lemma_cells_wf_congruent(v, marked);
        lemma_fire(marked, target, lst, 0, (fuel - 1) as nat, v2);
        lemma_fire_token(marked, target, lst, 0, (fuel - 1) as nat, v2, p, tok, k);
        lemma_cells_wf_congruent(v, v2);
        assert(v2.cells[p as int].notifying);
        assert(v2.cells[p as int].value == v.cells[p as int].value);
        assert(v2.cells[p as int].listeners == v.cells[p as int].listeners);
        lemma_fire_token(v2, c, ls, j + 1, fuel, r, p, tok, k);
        assert(count_token(v2.events, tok) == count_token(v.events, tok));
        lemma_fire(v2, c, ls, j + 1, fuel, r);
        assert forall|i: int|
            v.events.len() <= i < r.events.len() && is_token_event(
                #[trigger] r.events[i],
                tok,
            ) implies r.events[i] == (Event::Fired {
            token: tok,
            value: Some(v.cells[p as int].value),
        }) by {
            if i < v2.events.len() {
                assert(r.events[i] == v2.events[i]);
                assert(marked.events == v.events);
                assert(v2.events[i] == (Event::Fired {
                    token: tok,
                    value: Some(marked.cells[p as int].value),
                }));
                assert(marked.cells[p as int].value == v.cells[p as int].value);
            } else {
                assert(v2.cells[p as int].value == v.cells[p as int].value);
            }
        }
    }
}

} // verus!
