//! The engine's general guarantees, stated and proved over the ghost
//! state: what an edit session as a whole does to a cell, the dependency
//! symmetry invariant, and the evaluator's splitting and error rules.

use vstd::prelude::*;

use crate::addr::{in_bounds, spec_cell_ref, cell_ref_core, lemma_cell_ref_core_in_bounds};
use crate::deps::{
    deps_seq_of, dedup_first, lemma_non_formula_no_deps, lemma_scan_no_upper,
    lemma_scan_single_ref, scan_refs,
};
use crate::engine::{
    after_value, begin_update, busy_wf, grid_after_edit, grid_wf, install_rdeps, mode_wf,
    prop_advance, push_unique, session_feed_num, session_feed_op, tear_rdeps, wf_state, CellsV,
    ContV, GridV, ModeV, lemma_remove_value_props, lemma_push_unique_props,
};
use crate::engine::{lemma_edit_grid_wf, step_of};
use crate::eval::{
    feed_num, feed_op, first_op, fold_step, start_task, FrameV, Outcome, StepV, TaskV,
};
use crate::text::{is_digit, is_upper};
use crate::text::trim_sp;
use crate::value::{is_zero_bits, Val};

verus! {

/// The worklist walk touches nothing but values, and only at cells it
/// pops; every other cell's value entry is exactly what it was.
pub proof fn lemma_prop_advance_frame(g: GridV, wl: Seq<(usize, usize)>, vis: Set<(usize, usize)>)
    ensures
        ({
            let s = prop_advance(g, wl, vis);
            &&& s.grid.formulas == g.formulas
            &&& s.grid.deps == g.deps
            &&& s.grid.rdeps == g.rdeps
            &&& forall|c: (usize, usize)|
                !wl.contains(c) ==> (#[trigger] s.grid.values.contains_key(c)
                    == g.values.contains_key(c)) && (s.grid.values.contains_key(c)
                    ==> s.grid.values[c] == g.values[c])
        }),
    decreases wl.len(),
{
    if wl.len() > 0 {
        let w = wl.last();
        let rest = wl.drop_last();
        assert(wl.contains(w)) by {
            assert(wl[wl.len() - 1] == w);
        }
        assert(forall|c: (usize, usize)|
            !wl.contains(c) ==> !(#[trigger] rest.contains(c))) by {
            assert forall|c: (usize, usize)| rest.contains(c) implies wl.contains(c) by {
                let m = choose|m: int| 0 <= m < rest.len() && rest[m] == c;
                assert(wl[m] == c);
            }
        }
        if vis.contains(w) {
            lemma_prop_advance_frame(g, rest, vis);
        } else {
            let vis1 = vis.insert(w);
            if g.formulas.contains_key(w) {
                match start_task(g.formulas[w]) {
                    Outcome::More(task) => {},
                    Outcome::Finished(val) => {
                        let g2 = GridV { values: g.values.insert(w, val), ..g };
                        lemma_prop_advance_frame(g2, rest, vis1);
                    },
                }
            } else {
                lemma_prop_advance_frame(g, rest, vis1);
            }
        }
    }
}

/// A cell that is not on the worklist is neither re-evaluated nor ever
/// made the session's target by the walk.
pub proof fn lemma_prop_advance_avoids(
    g: GridV,
    wl: Seq<(usize, usize)>,
    vis: Set<(usize, usize)>,
    a: (usize, usize),
)
    requires
        !wl.contains(a),
    ensures
        ({
            let s = prop_advance(g, wl, vis);
            &&& s.grid.values.contains_key(a) == g.values.contains_key(a)
            &&& s.grid.values.contains_key(a) ==> s.grid.values[a] == g.values[a]
            &&& match s.mode {
                ModeV::Idle => true,
                ModeV::Busy { target, cont, .. } => target != a && match cont {
                    ContV::Seed => true,
                    ContV::Prop { worklist, .. } => !worklist.contains(a),
                },
            }
        }),
    decreases wl.len(),
{
    lemma_prop_advance_frame(g, wl, vis);
    if wl.len() > 0 {
        let w = wl.last();
        let rest = wl.drop_last();
        assert(wl[wl.len() - 1] == w);
        assert(w != a);
        assert(!rest.contains(a)) by {
            if rest.contains(a) {
                let m = choose|m: int| 0 <= m < rest.len() && rest[m] == a;
                assert(wl[m] == a);
            }
        }
        if vis.contains(w) {
            lemma_prop_advance_avoids(g, rest, vis, a);
        } else {
            let vis1 = vis.insert(w);
            if g.formulas.contains_key(w) {
                match start_task(g.formulas[w]) {
                    Outcome::More(task) => {},
                    Outcome::Finished(val) => {
                        let g2 = GridV { values: g.values.insert(w, val), ..g };
                        lemma_prop_advance_avoids(g2, rest, vis1, a);
                    },
                }
            } else {
                lemma_prop_advance_avoids(g, rest, vis1, a);
            }
        }
    }
}

/// The walk picks only fresh targets: whenever it stops at a cell to
/// re-evaluate it, that cell was not yet visited, is marked visited from
/// then on, and the visited set only ever grows. Together with the
/// evaluation measure of `task_measure` (which strictly shrinks with every
/// answered request) this is the termination witness for a whole edit:
/// between stops the walk can only mark one of the finitely many grid
/// cells, and within a stop only finitely many requests remain.
pub proof fn lemma_prop_advance_visits(g: GridV, wl: Seq<(usize, usize)>, vis: Set<(usize, usize)>)
    ensures
        match prop_advance(g, wl, vis).mode {
            ModeV::Idle => true,
            ModeV::Busy { target, cont, .. } => match cont {
                ContV::Seed => false,
                ContV::Prop { visited, .. } => {
                    &&& visited.contains(target)
                    &&& !vis.contains(target)
                    &&& forall|c: (usize, usize)| vis.contains(c) ==> visited.contains(c)
                },
            },
        },
    decreases wl.len(),
{
    if wl.len() > 0 {
        let w = wl.last();
        let rest = wl.drop_last();
        if vis.contains(w) {
            lemma_prop_advance_visits(g, rest, vis);
        } else {
            let vis1 = vis.insert(w);
            if g.formulas.contains_key(w) {
                match start_task(g.formulas[w]) {
                    Outcome::More(task) => {},
                    Outcome::Finished(val) => {
                        let g2 = GridV { values: g.values.insert(w, val), ..g };
                        lemma_prop_advance_visits(g2, rest, vis1);
                    },
                }
            } else {
                lemma_prop_advance_visits(g, rest, vis1);
            }
        }
    }
}

/// The session-level reading of `lemma_prop_advance_visits`: answering a
/// request either keeps the session at the same target, or moves it to a
/// cell it has not re-evaluated before and marks that cell at once.
pub proof fn lemma_session_num_visits(
    s: CellsV,
    tk: TaskV,
    target: (usize, usize),
    cont: ContV,
    reply: Option<u64>,
)
    requires
        s.mode == (ModeV::Busy { task: tk, target, cont }),
        match cont {
            ContV::Prop { visited, .. } => visited.contains(target),
            ContV::Seed => true,
        },
    ensures
        match session_feed_num(s, reply).mode {
            ModeV::Idle => true,
            ModeV::Busy { target: t2, cont: c2, .. } => match c2 {
                ContV::Seed => t2 == target && c2 == cont,
                ContV::Prop { visited: v2, .. } => {
                    &&& v2.contains(t2)
                    &&& match cont {
                        ContV::Seed => true,
                        ContV::Prop { worklist: wl0, visited: vis } => {
                            &&& forall|c: (usize, usize)|
                                vis.contains(c) ==> v2.contains(c)
                            &&& t2 == target || !vis.contains(t2)
                        },
                    }
                },
            },
        },
{
    match feed_num(tk, s.grid.values, reply) {
        Outcome::More(t2) => {},
        Outcome::Finished(val) => {
            let g1 = GridV { values: s.grid.values.insert(target, val), ..s.grid };
            match cont {
                ContV::Seed => {
                    lemma_prop_advance_visits(g1, g1.rdeps[target], Set::empty());
                },
                ContV::Prop { worklist, visited } => {
                    lemma_prop_advance_visits(g1, worklist + g1.rdeps[target], visited);
                },
            }
        },
    }
}

/// The operator-answer twin of `lemma_session_num_visits`.
pub proof fn lemma_session_op_visits(
    s: CellsV,
    tk: TaskV,
    target: (usize, usize),
    cont: ContV,
    reply: u64,
)
    requires
        s.mode == (ModeV::Busy { task: tk, target, cont }),
        match cont {
            ContV::Prop { visited, .. } => visited.contains(target),
            ContV::Seed => true,
        },
    ensures
        match session_feed_op(s, reply).mode {
            ModeV::Idle => true,
            ModeV::Busy { target: t2, cont: c2, .. } => match c2 {
                ContV::Seed => t2 == target && c2 == cont,
                ContV::Prop { visited: v2, .. } => {
                    &&& v2.contains(t2)
                    &&& match cont {
                        ContV::Seed => true,
                        ContV::Prop { worklist: wl0, visited: vis } => {
                            &&& forall|c: (usize, usize)|
                                vis.contains(c) ==> v2.contains(c)
                            &&& t2 == target || !vis.contains(t2)
                        },
                    }
                },
            },
        },
{
    match feed_op(tk, reply) {
        Outcome::More(t2) => {},
        Outcome::Finished(val) => {
            let g1 = GridV { values: s.grid.values.insert(target, val), ..s.grid };
            match cont {
                ContV::Seed => {
                    lemma_prop_advance_visits(g1, g1.rdeps[target], Set::empty());
                },
                ContV::Prop { worklist, visited } => {
                    lemma_prop_advance_visits(g1, worklist + g1.rdeps[target], visited);
                },
            }
        },
    }
}

/// A cell no stored formula references, and which is not itself the
/// session's target.
pub open spec fn unreferenced(s: CellsV, a: (usize, usize)) -> bool {
    &&& in_bounds(a)
    &&& forall|x: (usize, usize)| in_bounds(x) ==> !(#[trigger] s.grid.rdeps[x]).contains(a)
    &&& match s.mode {
        ModeV::Idle => true,
        ModeV::Busy { target, cont, .. } => target != a && match cont {
            ContV::Seed => true,
            ContV::Prop { worklist, .. } => !worklist.contains(a),
        },
    }
}

/// Delivering a value for the session's target leaves an unreferenced
/// cell entirely alone, and keeps it unreferenced.
proof fn lemma_after_value_avoids(
    s: CellsV,
    a: (usize, usize),
    tk: TaskV,
    target: (usize, usize),
    val: Val,
    cont: ContV,
)
    requires
        wf_state(s),
        s.mode == (ModeV::Busy { task: tk, target, cont }),
        unreferenced(s, a),
    ensures
        ({
            let s2 = after_value(s.grid, target, val, cont);
            &&& s2.grid.formulas == s.grid.formulas
            &&& s2.grid.deps == s.grid.deps
            &&& s2.grid.rdeps == s.grid.rdeps
            &&& s2.grid.values.contains_key(a) == s.grid.values.contains_key(a)
            &&& s2.grid.values.contains_key(a) ==> s2.grid.values[a] == s.grid.values[a]
            &&& unreferenced(s2, a)
        }),
{
    let g1 = GridV { values: s.grid.values.insert(target, val), ..s.grid };
    assert(in_bounds(target));
    match cont {
        ContV::Seed => {
            assert(!g1.rdeps[target].contains(a));
            lemma_prop_advance_frame(g1, g1.rdeps[target], Set::empty());
            lemma_prop_advance_avoids(g1, g1.rdeps[target], Set::empty(), a);
        },
        ContV::Prop { worklist, visited } => {
            let wl2 = worklist + g1.rdeps[target];
            assert(!wl2.contains(a)) by {
                if wl2.contains(a) {
                    let m = choose|m: int| 0 <= m < wl2.len() && wl2[m] == a;
                    if m < worklist.len() {
                        assert(worklist[m] == a);
                    } else {
                        assert(g1.rdeps[target][m - worklist.len()] == a);
                        assert(g1.rdeps[target].contains(a));
                    }
                }
            }
            lemma_prop_advance_frame(g1, wl2, visited);
            lemma_prop_advance_avoids(g1, wl2, visited, a);
        },
    }
}

/// Any continuation of the session leaves an unreferenced cell's stores
/// and value entry untouched. With the lemmas about what an edit first
/// establishes, this carries a literal's stored value, or a deletion's
/// absence, unchanged through the whole rest of the edit.
pub proof fn lemma_session_num_preserves(s: CellsV, a: (usize, usize), reply: Option<u64>)
    requires
        wf_state(s),
        unreferenced(s, a),
    ensures
        ({
            let s2 = session_feed_num(s, reply);
            &&& s2.grid.formulas == s.grid.formulas
            &&& s2.grid.deps == s.grid.deps
            &&& s2.grid.rdeps == s.grid.rdeps
            &&& s2.grid.values.contains_key(a) == s.grid.values.contains_key(a)
            &&& s2.grid.values.contains_key(a) ==> s2.grid.values[a] == s.grid.values[a]
            &&& unreferenced(s2, a)
        }),
{
    match s.mode {
        ModeV::Idle => {},
        ModeV::Busy { task, target, cont } => {
            match feed_num(task, s.grid.values, reply) {
                Outcome::More(t2) => {},
                Outcome::Finished(val) => {
                    lemma_after_value_avoids(s, a, task, target, val, cont);
                },
            }
        },
    }
}

/// The operator-answer twin of `lemma_session_num_preserves`.
pub proof fn lemma_session_op_preserves(s: CellsV, a: (usize, usize), reply: u64)
    requires
        wf_state(s),
        unreferenced(s, a),
    ensures
        ({
            let s2 = session_feed_op(s, reply);
            &&& s2.grid.formulas == s.grid.formulas
            &&& s2.grid.deps == s.grid.deps
            &&& s2.grid.rdeps == s.grid.rdeps
            &&& s2.grid.values.contains_key(a) == s.grid.values.contains_key(a)
            &&& s2.grid.values.contains_key(a) ==> s2.grid.values[a] == s.grid.values[a]
            &&& unreferenced(s2, a)
        }),
{
    match s.mode {
        ModeV::Idle => {},
        ModeV::Busy { task, target, cont } => {
            match feed_op(task, reply) {
                Outcome::More(t2) => {},
                Outcome::Finished(val) => {
                    lemma_after_value_avoids(s, a, task, target, val, cont);
                },
            }
        },
    }
}

/// A session's later steps change values only: the formula store and both
/// edge maps are fixed the moment the edit begins. In particular the
/// formula text that `update_cell` stores is still there, untouched, when
/// the session ends.
pub proof fn lemma_session_num_frame(s: CellsV, reply: Option<u64>)
    ensures
        session_feed_num(s, reply).grid.formulas == s.grid.formulas,
        session_feed_num(s, reply).grid.deps == s.grid.deps,
        session_feed_num(s, reply).grid.rdeps == s.grid.rdeps,
{
    match s.mode {
        ModeV::Idle => {},
        ModeV::Busy { task, target, cont } => {
            match feed_num(task, s.grid.values, reply) {
                Outcome::More(t2) => {},
                Outcome::Finished(val) => {
                    let g1 = GridV { values: s.grid.values.insert(target, val), ..s.grid };
                    match cont {
                        ContV::Seed => {
                            lemma_prop_advance_frame(g1, g1.rdeps[target], Set::empty());
                        },
                        ContV::Prop { worklist, visited } => {
                            lemma_prop_advance_frame(g1, worklist + g1.rdeps[target], visited);
                        },
                    }
                },
            }
        },
    }
}

/// The operator-answer twin of `lemma_session_num_frame`.
pub proof fn lemma_session_op_frame(s: CellsV, reply: u64)
    ensures
        session_feed_op(s, reply).grid.formulas == s.grid.formulas,
        session_feed_op(s, reply).grid.deps == s.grid.deps,
        session_feed_op(s, reply).grid.rdeps == s.grid.rdeps,
{
    match s.mode {
        ModeV::Idle => {},
        ModeV::Busy { task, target, cont } => {
            match feed_op(task, reply) {
                Outcome::More(t2) => {},
                Outcome::Finished(val) => {
                    let g1 = GridV { values: s.grid.values.insert(target, val), ..s.grid };
                    match cont {
                        ContV::Seed => {
                            lemma_prop_advance_frame(g1, g1.rdeps[target], Set::empty());
                        },
                        ContV::Prop { worklist, visited } => {
                            lemma_prop_advance_frame(g1, worklist + g1.rdeps[target], visited);
                        },
                    }
                },
            }
        },
    }
}

/// Clearing a cell: after `update_cell` with blank text, the cell stores
/// no formula and no value and has no forward edges, and no formula
/// references it any more. If, moreover, no other cell's formula
/// referenced it before the edit, its reverse set is empty too. The
/// preservation lemmas then keep all of this through the rest of the
/// session, which only re-evaluates former dependents.
pub proof fn lemma_clear_removes_cell(g: GridV, a: (usize, usize), text: Seq<char>)
    requires
        grid_wf(g),
        in_bounds(a),
        trim_sp(text).len() == 0,
    ensures
        ({
            let s1 = begin_update(g, a, text);
            &&& !s1.grid.formulas.contains_key(a)
            &&& !s1.grid.values.contains_key(a)
            &&& s1.grid.deps[a] == Seq::<(usize, usize)>::empty()
            &&& unreferenced(s1, a)
            &&& (forall|c: (usize, usize)|
                in_bounds(c) && c != a ==> !(#[trigger] g.deps[c]).contains(a))
                ==> s1.grid.rdeps[a] == Seq::<(usize, usize)>::empty()
        }),
{
    let g1 = grid_after_edit(g, a, trim_sp(text));
    assert forall|x: (usize, usize)| in_bounds(x) implies !(#[trigger] g1.rdeps[x]).contains(a) by {
        lemma_remove_value_props(g.rdeps[x], a);
        if g.deps[a].contains(x) {
            assert(g1.rdeps[x] == g.rdeps[x].remove_value(a));
        } else {
            assert(g1.rdeps[x] == g.rdeps[x]);
            assert(!g.deps[a].contains(x));
            assert(!g.rdeps[x].contains(a));
        }
    }
    assert(!g1.rdeps[a].contains(a));
    assert(!g1.formulas.contains_key(a));
    assert(!g1.values.contains_key(a));
    let wl = g1.rdeps[a];
    assert(!wl.contains(a));
    lemma_prop_advance_frame(g1, wl, Set::empty());
    lemma_prop_advance_avoids(g1, wl, Set::empty(), a);
    if forall|c: (usize, usize)| in_bounds(c) && c != a ==> !(#[trigger] g.deps[c]).contains(a) {
        assert(g1.rdeps[a] =~= Seq::<(usize, usize)>::empty()) by {
            if g1.rdeps[a].len() > 0 {
                let c = g1.rdeps[a][0];
                assert(g1.rdeps[a].contains(c));
                lemma_remove_value_props(g.rdeps[a], a);
                assert(g.rdeps[a].contains(c));
                assert(in_bounds(c));
                assert(g.deps[c].contains(a));
                assert(c != a);
            }
        }
    }
}

/// Storing a literal: a non-empty text that does not start with `=` is
/// stored with no edges of its own, the caller is asked to parse it, and
/// the answer decides the cell's value - the parsed number, or the
/// trimmed text as a label. Nothing references the cell, so the rest of
/// the session (re-evaluating its former dependents) leaves that value in
/// place.
pub proof fn lemma_literal_store(g: GridV, a: (usize, usize), text: Seq<char>, reply: Option<u64>)
    requires
        grid_wf(g),
        in_bounds(a),
        trim_sp(text).len() > 0,
        trim_sp(text)[0] != '=',
    ensures
        ({
            let t = trim_sp(text);
            let s1 = begin_update(g, a, text);
            let s2 = session_feed_num(s1, reply);
            &&& s1.mode == (ModeV::Busy {
                task: TaskV::Lit { text: t },
                target: a,
                cont: ContV::Seed,
            })
            &&& s2.grid.values.contains_key(a)
            &&& s2.grid.values[a] == match reply {
                Option::Some(b) => Val::VNum(b),
                Option::None => Val::VText(t),
            }
            &&& s2.grid.formulas.contains_key(a) && s2.grid.formulas[a] == t
            &&& unreferenced(s2, a)
        }),
{
    let t = trim_sp(text);
    let s1 = begin_update(g, a, text);
    let g1 = grid_after_edit(g, a, t);
    crate::text::lemma_trim_idempotent(text);
    lemma_non_formula_no_deps(t);
    assert(deps_seq_of(t) == Seq::<(usize, usize)>::empty());
    assert forall|x: (usize, usize)| in_bounds(x) implies !(#[trigger] g1.rdeps[x]).contains(a) by {
        lemma_remove_value_props(g.rdeps[x], a);
        lemma_push_unique_props(
            tear_rdeps(g.rdeps, g.deps[a], a)[x],
            a,
        );
        if deps_seq_of(t).contains(x) {
        } else {
            if g.deps[a].contains(x) {
                assert(g1.rdeps[x] == g.rdeps[x].remove_value(a));
            } else {
                assert(g1.rdeps[x] == g.rdeps[x]);
                assert(!g.rdeps[x].contains(a));
            }
        }
    }
    let val = match reply {
        Option::Some(b) => Val::VNum(b),
        Option::None => Val::VText(t),
    };
    assert(feed_num(TaskV::Lit { text: t }, s1.grid.values, reply) == Outcome::Finished(val));
    let g2 = GridV { values: g1.values.insert(a, val), ..g1 };
    let wl = g2.rdeps[a];
    assert(!wl.contains(a));
    lemma_prop_advance_frame(g2, wl, Set::empty());
    lemma_prop_advance_avoids(g2, wl, Set::empty(), a);
}

/// A cell `a` referenced (at most) by the freshly edited formula of one
/// cell, via a target `x` that itself stores nothing: neither can ever be
/// picked up by the walk, so `a`'s value entry survives the session.
pub open spec fn shielded(s: CellsV, a: (usize, usize), x: (usize, usize)) -> bool {
    &&& in_bounds(a)
    &&& in_bounds(x)
    &&& x != a
    &&& forall|z: (usize, usize)|
        in_bounds(z) ==> ((#[trigger] s.grid.rdeps[z]).contains(a) ==> z == x)
    &&& forall|z: (usize, usize)| in_bounds(z) ==> !(#[trigger] s.grid.rdeps[z]).contains(x)
    &&& match s.mode {
        ModeV::Idle => true,
        ModeV::Busy { target, cont, .. } => target != a && target != x && match cont {
            ContV::Seed => true,
            ContV::Prop { worklist, .. } => !worklist.contains(a) && !worklist.contains(x),
        },
    }
}

/// Any continuation of the session leaves a shielded cell's value entry
/// untouched, and keeps it shielded.
pub proof fn lemma_session_num_shields(
    s: CellsV,
    a: (usize, usize),
    x: (usize, usize),
    reply: Option<u64>,
)
    requires
        wf_state(s),
        shielded(s, a, x),
    ensures
        ({
            let s2 = session_feed_num(s, reply);
            &&& s2.grid.rdeps == s.grid.rdeps
            &&& s2.grid.values.contains_key(a) == s.grid.values.contains_key(a)
            &&& s2.grid.values.contains_key(a) ==> s2.grid.values[a] == s.grid.values[a]
            &&& shielded(s2, a, x)
        }),
{
    match s.mode {
        ModeV::Idle => {},
        ModeV::Busy { task, target, cont } => {
            match feed_num(task, s.grid.values, reply) {
                Outcome::More(t2) => {},
                Outcome::Finished(val) => {
                    lemma_after_value_shields(s, a, x, task, target, val, cont);
                },
            }
        },
    }
}

/// The operator-answer twin of `lemma_session_num_shields`.
pub proof fn lemma_session_op_shields(s: CellsV, a: (usize, usize), x: (usize, usize), reply: u64)
    requires
        wf_state(s),
        shielded(s, a, x),
    ensures
        ({
            let s2 = session_feed_op(s, reply);
            &&& s2.grid.rdeps == s.grid.rdeps
            &&& s2.grid.values.contains_key(a) == s.grid.values.contains_key(a)
            &&& s2.grid.values.contains_key(a) ==> s2.grid.values[a] == s.grid.values[a]
            &&& shielded(s2, a, x)
        }),
{
    match s.mode {
        ModeV::Idle => {},
        ModeV::Busy { task, target, cont } => {
            match feed_op(task, reply) {
                Outcome::More(t2) => {},
                Outcome::Finished(val) => {
                    lemma_after_value_shields(s, a, x, task, target, val, cont);
                },
            }
        },
    }
}

proof fn lemma_after_value_shields(
    s: CellsV,
    a: (usize, usize),
    x: (usize, usize),
    tk: TaskV,
    target: (usize, usize),
    val: Val,
    cont: ContV,
)
    requires
        wf_state(s),
        s.mode == (ModeV::Busy { task: tk, target, cont }),
        shielded(s, a, x),
    ensures
        ({
            let s2 = after_value(s.grid, target, val, cont);
            &&& s2.grid.rdeps == s.grid.rdeps
            &&& s2.grid.values.contains_key(a) == s.grid.values.contains_key(a)
            &&& s2.grid.values.contains_key(a) ==> s2.grid.values[a] == s.grid.values[a]
            &&& shielded(s2, a, x)
        }),
{
    let g1 = GridV { values: s.grid.values.insert(target, val), ..s.grid };
    assert(!g1.rdeps[target].contains(a));
    assert(!g1.rdeps[target].contains(x));
    match cont {
        ContV::Seed => {
            lemma_prop_advance_frame(g1, g1.rdeps[target], Set::empty());
            lemma_prop_advance_avoids(g1, g1.rdeps[target], Set::empty(), a);
            lemma_prop_advance_avoids(g1, g1.rdeps[target], Set::empty(), x);
        },
        ContV::Prop { worklist, visited } => {
            let wl2 = worklist + g1.rdeps[target];
            assert forall|c: (usize, usize)| wl2.contains(c) implies (c != a && c != x) by {
                let m = choose|m: int| 0 <= m < wl2.len() && wl2[m] == c;
                if m < worklist.len() {
                    assert(worklist[m] == c);
                    assert(worklist.contains(c));
                } else {
                    assert(g1.rdeps[target][m - worklist.len()] == c);
                    assert(g1.rdeps[target].contains(c));
                }
            }
            assert(!wl2.contains(a));
            assert(!wl2.contains(x));
            lemma_prop_advance_frame(g1, wl2, visited);
            lemma_prop_advance_avoids(g1, wl2, visited, a);
            lemma_prop_advance_avoids(g1, wl2, visited, x);
        },
    }
}

/// Referencing an unpopulated cell: when the caller reports that the
/// expression part is not a number, the part names a valid address, and
/// that address stores no value, the part contributes the zero word (the
/// encoding of 0.0) - absent is not an error.
pub proof fn lemma_empty_ref_is_zero(cur: Seq<char>, values: Map<(usize, usize), Val>, x: (
    usize,
    usize,
))
    requires
        spec_cell_ref(cur) == Some(x),
        !values.contains_key(x),
    ensures
        feed_num(TaskV::Expr { cur, stack: Seq::empty() }, values, None) == Outcome::Finished(
            Val::VNum(0),
        ),
{
}

/// The unpopulated-reference default at the edit level: an edit whose
/// trimmed text is exactly `=` followed by one reference to a valid
/// address storing nothing first asks the caller to parse that reference
/// text; on the `None` answer the edited cell's value becomes the zero
/// word (the encoding of 0.0), not an error. Neither cell can be picked
/// up by the rest of the session's walk, so with the shield-preservation
/// lemmas the zero is still there when the session ends.
pub proof fn lemma_unpopulated_ref_stores_zero(
    g: GridV,
    a: (usize, usize),
    text: Seq<char>,
    x: (usize, usize),
)
    requires
        grid_wf(g),
        in_bounds(a),
        x != a,
        trim_sp(text).len() > 0,
        trim_sp(text)[0] == '=',
        trim_sp(trim_sp(text).drop_first()) == trim_sp(text).drop_first(),
        cell_ref_core(trim_sp(text).drop_first()) == Some(x),
        !g.formulas.contains_key(x),
    ensures
        ({
            let s1 = begin_update(g, a, text);
            let s2 = session_feed_num(s1, None);
            &&& step_of(s1) == StepV::NeedNum(trim_sp(text).drop_first())
            &&& s2.grid.values.contains_key(a)
            &&& s2.grid.values[a] == Val::VNum(0)
            &&& shielded(s2, a, x)
        }),
{
    let t = trim_sp(text);
    let cur = t.drop_first();
    crate::text::lemma_trim_idempotent(text);
    lemma_cell_ref_core_in_bounds(cur);
    assert(in_bounds(x));
    // The scan of the lone reference finds at most that reference.
    if is_upper(cur[0]) {
        lemma_scan_single_ref(cur, x);
        assert(seq![x].drop_last() =~= Seq::<(usize, usize)>::empty());
        assert(seq![x].last() == x);
        assert(dedup_first(Seq::<(usize, usize)>::empty()) =~= Seq::<(usize, usize)>::empty());
        assert(Seq::<(usize, usize)>::empty().push(x) =~= seq![x]);
        assert(dedup_first(seq![x]) =~= seq![x]);
    } else {
        assert forall|k: int| 0 <= k < cur.len() implies !is_upper(cur[k]) by {
            if k >= 1 {
                assert(is_digit(cur.drop_first()[k - 1]));
            }
        }
        lemma_scan_no_upper(cur, 0);
    }
    let ds = deps_seq_of(t);
    assert(forall|w: (usize, usize)| #[trigger] ds.contains(w) ==> w == x);
    let g1 = grid_after_edit(g, a, t);
    lemma_edit_grid_wf(g, a, t);
    assert(g1.deps[a] == ds);
    assert(g1.deps[x] == Seq::<(usize, usize)>::empty());
    // The edit stops at the parse request for the reference text.
    assert(start_task(t) == Outcome::More(TaskV::Expr { cur, stack: Seq::empty() }));
    let s1 = begin_update(g, a, text);
    assert(s1.mode == (ModeV::Busy {
        task: TaskV::Expr { cur, stack: Seq::empty() },
        target: a,
        cont: ContV::Seed,
    }));
    // The referenced cell stores no value, so the part is the zero word.
    assert(!g1.values.contains_key(x));
    assert(feed_num(TaskV::Expr { cur, stack: Seq::empty() }, g1.values, None)
        == Outcome::Finished(Val::VNum(0)));
    let g2 = GridV { values: g1.values.insert(a, Val::VNum(0)), ..g1 };
    // Nothing references either cell, so the walk never touches them.
    assert forall|z: (usize, usize)| in_bounds(z) implies ((#[trigger] g1.rdeps[z]).contains(a)
        ==> z == x) && !g1.rdeps[z].contains(x) by {
        if g1.rdeps[z].contains(a) {
            assert(g1.deps[a].contains(z));
            assert(ds.contains(z));
        }
        if g1.rdeps[z].contains(x) {
            assert(g1.deps[x].contains(z));
        }
    }
    assert(!g2.rdeps[a].contains(a));
    assert(!g2.rdeps[a].contains(x));
    lemma_prop_advance_frame(g2, g2.rdeps[a], Set::empty());
    lemma_prop_advance_avoids(g2, g2.rdeps[a], Set::empty(), a);
    lemma_prop_advance_avoids(g2, g2.rdeps[a], Set::empty(), x);
}

/// The flat left-scan split: an expression part that neither parses as a
/// number nor names a cell splits at its first operator character. The
/// text left of the operator is evaluated next (it holds no operator, so
/// it is a leaf), and the whole remainder right of it waits as one piece:
/// the split is right-leaning, with no precedence.
pub proof fn lemma_first_operator_split(
    cur: Seq<char>,
    values: Map<(usize, usize), Val>,
    stack: Seq<FrameV>,
    i: int,
)
    requires
        spec_cell_ref(cur) is None,
        first_op(cur, 0) == Some(i),
    ensures
        0 <= i < cur.len(),
        feed_num(TaskV::Expr { cur, stack }, values, None) == Outcome::More(
            TaskV::Expr {
                cur: trim_sp(cur.take(i)),
                stack: stack.push(FrameV::RightOf { op: cur[i], right: cur.skip(i + 1) }),
            },
        ),
{
    crate::eval::lemma_first_op_in_range(cur, 0, i);
}

/// Division by an exact zero: handing a right operand equal to one of the
/// two IEEE-754 zero words to a pending division ends the evaluation with
/// the `DIV0` error before any operation is requested; any other word
/// lets the division proceed.
pub proof fn lemma_division_guard(lhs: u64, rhs: u64, stack: Seq<FrameV>)
    ensures
        fold_step(rhs, stack.push(FrameV::Combine { op: '/', lhs })) == if is_zero_bits(rhs) {
            Outcome::Finished(Val::VError("DIV0"@))
        } else {
            Outcome::More(TaskV::Apply { op: '/', lhs, rhs, stack })
        },
{
    let st = stack.push(FrameV::Combine { op: '/', lhs });
    assert(st.last() == FrameV::Combine { op: '/', lhs });
    assert(st.drop_last() =~= stack);
}

/// Arithmetic against label text: when an expression part names a cell
/// whose stored value is text, the evaluation ends with the `TEXT` error,
/// whatever work was pending.
pub proof fn lemma_text_operand(
    cur: Seq<char>,
    values: Map<(usize, usize), Val>,
    stack: Seq<FrameV>,
    x: (usize, usize),
)
    requires
        spec_cell_ref(cur) == Some(x),
        values.contains_key(x),
        values[x] is VText,
    ensures
        feed_num(TaskV::Expr { cur, stack }, values, None) == Outcome::Finished(
            Val::VError("TEXT"@),
        ),
{
}

/// A stored error propagates verbatim: a part naming a cell whose value
/// is an error ends the evaluation with that same code.
pub proof fn lemma_error_propagates(
    cur: Seq<char>,
    values: Map<(usize, usize), Val>,
    stack: Seq<FrameV>,
    x: (usize, usize),
    e: Seq<char>,
)
    requires
        spec_cell_ref(cur) == Some(x),
        values.contains_key(x),
        values[x] == Val::VError(e),
    ensures
        feed_num(TaskV::Expr { cur, stack }, values, None) == Outcome::Finished(Val::VError(e)),
{
}

/// Evaluation is stateless: a step's outcome is a function of the task,
/// the value store and the answer alone. Together with `evaluate_formula`
/// borrowing the engine immutably, evaluating the same unchanged formula
/// twice with the same answers yields the same value.
pub proof fn lemma_evaluation_repeatable(
    t1: TaskV,
    t2: TaskV,
    values: Map<(usize, usize), Val>,
    reply: Option<u64>,
)
    requires
        t1 == t2,
    ensures
        feed_num(t1, values, reply) == feed_num(t2, values, reply),
{
}

/// Dependency symmetry: at every stop of every session, a cell stands in
/// another's forward set exactly when the second stands in the first's
/// reverse set. Every public operation of the engine ensures the
/// well-formedness this reads it from.
pub proof fn lemma_dependency_symmetry(s: CellsV, a: (usize, usize), x: (usize, usize))
    requires
        wf_state(s),
        in_bounds(a),
        in_bounds(x),
    ensures
        s.grid.deps[a].contains(x) <==> s.grid.rdeps[x].contains(a),
{
}

/// Round trip: an edit with non-blank text stores exactly the trimmed
/// text, at once, and the session's later steps never change a stored
/// formula.
pub proof fn lemma_formula_round_trip(g: GridV, a: (usize, usize), text: Seq<char>)
    requires
        grid_wf(g),
        in_bounds(a),
        trim_sp(text).len() > 0,
    ensures
        begin_update(g, a, text).grid.formulas.contains_key(a),
        begin_update(g, a, text).grid.formulas[a] == trim_sp(text),
{
    let t = trim_sp(text);
    let g1 = grid_after_edit(g, a, t);
    assert(g1.formulas[a] == t);
    match start_task(t) {
        Outcome::More(task) => {},
        Outcome::Finished(val) => {
            let g2 = GridV { values: g1.values.insert(a, val), ..g1 };
            lemma_prop_advance_frame(g2, g2.rdeps[a], Set::empty());
        },
    }
}

} // verus!
