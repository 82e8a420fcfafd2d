//! The grid engine: the formula store, the computed-value store, the two
//! dependency edge maps, and the edit-and-propagate controller.
//!
//! An edit tears down the edited cell's old forward edges, stores the new
//! formula, installs the freshly extracted edges, evaluates the cell, and
//! then re-evaluates every transitively dependent cell by an explicit
//! worklist walk that visits each dependent at most once per edit.
//! Because evaluation stops at numeric requests, an edit is a short
//! session: `update_cell` opens it and `resume_num` / `resume_op` continue
//! it, each returning the next request until `Done`.

use vstd::prelude::*;

use crate::addr::{in_bounds, COLS, ROWS};
use crate::deps::{cell_in, deps_seq_of, parse_dependencies, lemma_deps_seq_of};
use crate::eval::{
    exec_feed_num, exec_feed_op, exec_start, feed_num, feed_op, request_of, start_task, Outcome,
    Step, StepV, Task, TaskV, Stepped,
};
use crate::text::{trim_sp, trim_str};
use crate::value::{idx, values_view, CellValue, Val, lemma_idx_bounds, lemma_idx_injective};
use vstd::string::StrSliceExecFns;

verus! {

/// Ghost state of the four stores. `formulas` and `values` are partial
/// maps over the cells that hold content; `deps` and `rdeps` are total
/// over in-bounds cells, empty by default.
pub struct GridV {
    /// Raw (trimmed) formula text per cell.
    pub formulas: Map<(usize, usize), Seq<char>>,
    /// Last computed value per cell.
    pub values: Map<(usize, usize), Val>,
    /// Forward edges: the addresses a cell's formula references.
    pub deps: Map<(usize, usize), Seq<(usize, usize)>>,
    /// Reverse edges: the addresses whose formulas reference a cell.
    pub rdeps: Map<(usize, usize), Seq<(usize, usize)>>,
}

/// What follows once the evaluation in flight delivers its value.
pub enum ContV {
    /// The edited cell itself is evaluating; its reverse dependents seed
    /// the worklist afterwards.
    Seed,
    /// A dependent is re-evaluating within the worklist walk.
    Prop { worklist: Seq<(usize, usize)>, visited: Set<(usize, usize)> },
}

/// Whether an edit session is in flight.
pub enum ModeV {
    Idle,
    Busy { task: TaskV, target: (usize, usize), cont: ContV },
}

/// The engine's whole ghost state.
pub struct CellsV {
    pub grid: GridV,
    pub mode: ModeV,
}

/// `s` with `a` appended unless already present.
pub open spec fn push_unique(s: Seq<(usize, usize)>, a: (usize, usize)) -> Seq<(usize, usize)> {
    if s.contains(a) {
        s
    } else {
        s.push(a)
    }
}

/// Reverse-edge maps after removing `a` from the reverse set of each of
/// its old forward targets `ds`.
pub open spec fn tear_rdeps(
    rd: Map<(usize, usize), Seq<(usize, usize)>>,
    ds: Seq<(usize, usize)>,
    a: (usize, usize),
) -> Map<(usize, usize), Seq<(usize, usize)>> {
    Map::new(
        |x: (usize, usize)| in_bounds(x),
        |x: (usize, usize)|
            if ds.contains(x) {
                rd[x].remove_value(a)
            } else {
                rd[x]
            },
    )
}

/// Reverse-edge maps after adding `a` to the reverse set of each of its
/// new forward targets `ds`.
pub open spec fn install_rdeps(
    rd: Map<(usize, usize), Seq<(usize, usize)>>,
    ds: Seq<(usize, usize)>,
    a: (usize, usize),
) -> Map<(usize, usize), Seq<(usize, usize)>> {
    Map::new(
        |x: (usize, usize)| in_bounds(x),
        |x: (usize, usize)|
            if ds.contains(x) {
                push_unique(rd[x], a)
            } else {
                rd[x]
            },
    )
}

/// The stores after the non-evaluating part of an edit: old edges torn
/// down, then either the cell deleted outright (empty text) or the new
/// formula stored with its freshly extracted edges.
pub open spec fn grid_after_edit(g: GridV, a: (usize, usize), t: Seq<char>) -> GridV {
    let rd1 = tear_rdeps(g.rdeps, g.deps[a], a);
    if t.len() == 0 {
        GridV {
            formulas: g.formulas.remove(a),
            values: g.values.remove(a),
            deps: g.deps.insert(a, Seq::empty()),
            rdeps: rd1,
        }
    } else {
        let ds = deps_seq_of(t);
        GridV {
            formulas: g.formulas.insert(a, t),
            values: g.values,
            deps: g.deps.insert(a, ds),
            rdeps: install_rdeps(rd1, ds, a),
        }
    }
}

/// The worklist walk, run until it reaches a cell that needs evaluating
/// (the session stops there) or empties (the session is done). The top of
/// the worklist is its last element. A visited cell is skipped; an
/// unvisited one is marked and, if it stores a formula, evaluated. Stored
/// formulas are never empty, so their evaluation always stops at a first
/// request; the degenerate branch merely keeps the walk total.
pub open spec fn prop_advance(
    g: GridV,
    wl: Seq<(usize, usize)>,
    vis: Set<(usize, usize)>,
) -> CellsV
    decreases wl.len(),
{
    if wl.len() == 0 {
        CellsV { grid: g, mode: ModeV::Idle }
    } else {
        let w = wl.last();
        let rest = wl.drop_last();
        if vis.contains(w) {
            prop_advance(g, rest, vis)
        } else {
            let vis1 = vis.insert(w);
            if g.formulas.contains_key(w) {
                match start_task(g.formulas[w]) {
                    Outcome::More(task) => CellsV {
                        grid: g,
                        mode: ModeV::Busy {
                            task,
                            target: w,
                            cont: ContV::Prop { worklist: rest, visited: vis1 },
                        },
                    },
                    Outcome::Finished(val) => prop_advance(
                        GridV { values: g.values.insert(w, val), ..g },
                        rest,
                        vis1,
                    ),
                }
            } else {
                prop_advance(g, rest, vis1)
            }
        }
    }
}

/// The state after the evaluation in flight delivers `val` for `target`:
/// the value is stored, the worklist is seeded from the edited cell's
/// reverse dependents or extended with the re-evaluated cell's, and the
/// walk resumes.
pub open spec fn after_value(
    g: GridV,
    target: (usize, usize),
    val: Val,
    cont: ContV,
) -> CellsV {
    let g1 = GridV { values: g.values.insert(target, val), ..g };
    match cont {
        ContV::Seed => prop_advance(g1, g1.rdeps[target], Set::empty()),
        ContV::Prop { worklist, visited } => prop_advance(
            g1,
            worklist + g1.rdeps[target],
            visited,
        ),
    }
}

/// The whole state an edit leaves behind at its first stop: stores and
/// edges are final; only values still change while evaluation requests
/// are answered.
pub open spec fn begin_update(g: GridV, a: (usize, usize), text: Seq<char>) -> CellsV {
    let t = trim_sp(text);
    let g1 = grid_after_edit(g, a, t);
    if t.len() == 0 {
        prop_advance(g1, g1.rdeps[a], Set::empty())
    } else {
        match start_task(t) {
            Outcome::More(task) => CellsV {
                grid: g1,
                mode: ModeV::Busy { task, target: a, cont: ContV::Seed },
            },
            Outcome::Finished(val) => after_value(g1, a, val, ContV::Seed),
        }
    }
}

/// One session step from an answered parse request.
pub open spec fn session_feed_num(s: CellsV, reply: Option<u64>) -> CellsV {
    match s.mode {
        ModeV::Idle => s,
        ModeV::Busy { task, target, cont } => match feed_num(task, s.grid.values, reply) {
            Outcome::More(t2) => CellsV {
                grid: s.grid,
                mode: ModeV::Busy { task: t2, target, cont },
            },
            Outcome::Finished(val) => after_value(s.grid, target, val, cont),
        },
    }
}

/// One session step from an answered operator request.
pub open spec fn session_feed_op(s: CellsV, reply: u64) -> CellsV {
    match s.mode {
        ModeV::Idle => s,
        ModeV::Busy { task, target, cont } => match feed_op(task, reply) {
            Outcome::More(t2) => CellsV {
                grid: s.grid,
                mode: ModeV::Busy { task: t2, target, cont },
            },
            Outcome::Finished(val) => after_value(s.grid, target, val, cont),
        },
    }
}

/// The request the session is stopped at, `Done` when idle.
pub open spec fn step_of(s: CellsV) -> StepV {
    match s.mode {
        ModeV::Idle => StepV::Done,
        ModeV::Busy { task, .. } => request_of(task),
    }
}

/// Well-formedness of the stores: content only in bounds, stored formulas
/// trimmed and non-empty, values only where formulas are, edges exactly
/// the extracted ones, duplicate-free, and the two edge maps symmetric.
pub open spec fn grid_wf(g: GridV) -> bool {
    &&& forall|c: (usize, usize)| #[trigger]
        g.formulas.contains_key(c) ==> in_bounds(c) && g.formulas[c].len() > 0 && trim_sp(
            g.formulas[c],
        ) == g.formulas[c]
    &&& forall|c: (usize, usize)| #[trigger]
        g.values.contains_key(c) ==> g.formulas.contains_key(c)
    &&& forall|c: (usize, usize)| #[trigger] g.deps.contains_key(c) <==> in_bounds(c)
    &&& forall|c: (usize, usize)| #[trigger] g.rdeps.contains_key(c) <==> in_bounds(c)
    &&& forall|c: (usize, usize)|
        in_bounds(c) ==> (#[trigger] g.deps[c]).no_duplicates() && (forall|k: int|
            0 <= k < g.deps[c].len() ==> in_bounds(#[trigger] g.deps[c][k]))
    &&& forall|c: (usize, usize)|
        in_bounds(c) ==> (#[trigger] g.rdeps[c]).no_duplicates() && (forall|k: int|
            0 <= k < g.rdeps[c].len() ==> in_bounds(#[trigger] g.rdeps[c][k]))
    &&& forall|c: (usize, usize)|
        in_bounds(c) ==> #[trigger] g.deps[c] == if g.formulas.contains_key(c) {
            deps_seq_of(g.formulas[c])
        } else {
            Seq::<(usize, usize)>::empty()
        }
    &&& forall|c: (usize, usize), x: (usize, usize)|
        in_bounds(c) && in_bounds(x) ==> (#[trigger] g.deps[c].contains(x) <==> #[trigger]
        g.rdeps[x].contains(c))
}

/// Well-formedness of an in-flight evaluation's target and continuation:
/// the target is a stored cell, and everything on the worklist (and the
/// target itself, during the walk) is somebody's reverse dependent.
pub open spec fn busy_wf(g: GridV, target: (usize, usize), cont: ContV) -> bool {
    &&& in_bounds(target)
    &&& g.formulas.contains_key(target)
    &&& match cont {
        ContV::Seed => true,
        ContV::Prop { worklist, visited } => {
            &&& forall|k: int|
                0 <= k < worklist.len() ==> in_bounds(#[trigger] worklist[k]) && exists|
                    x: (usize, usize),
                |
                    in_bounds(x) && g.rdeps[x].contains(worklist[k])
            &&& exists|x: (usize, usize)| in_bounds(x) && g.rdeps[x].contains(target)
        },
    }
}

/// Well-formedness of the session state on top of the stores.
pub open spec fn mode_wf(g: GridV, m: ModeV) -> bool {
    match m {
        ModeV::Idle => true,
        ModeV::Busy { task, target, cont } => busy_wf(g, target, cont),
    }
}

/// Well-formedness of the engine's whole ghost state.
pub open spec fn wf_state(s: CellsV) -> bool {
    grid_wf(s.grid) && mode_wf(s.grid, s.mode)
}

/// The visited set a vector of flags denotes.
pub open spec fn vis_view(b: Seq<bool>) -> Set<(usize, usize)> {
    Set::new(|c: (usize, usize)| in_bounds(c) && 0 <= idx(c) < b.len() && b[idx(c)])
}

/// What follows once the evaluation in flight delivers its value
/// (executable form).
pub(crate) enum Cont {
    Seed,
    Prop { worklist: Vec<(usize, usize)>, visited: Vec<bool> },
}

/// The ghost shape of a continuation.
pub(crate) open spec fn cont_view(c: &Cont) -> ContV {
    match c {
        Cont::Seed => ContV::Seed,
        Cont::Prop { worklist, visited } => ContV::Prop {
            worklist: worklist@,
            visited: vis_view(visited@),
        },
    }
}

/// Whether an edit session is in flight (executable form).
pub(crate) enum Mode {
    Idle,
    Busy { task: Task, target: (usize, usize), cont: Cont },
}

/// Distinct in-bounds cells have distinct backing indices.
pub proof fn lemma_idx_all_injective()
    ensures
        forall|c: (usize, usize), x: (usize, usize)| #![trigger idx(c), idx(x)]
            in_bounds(c) && in_bounds(x) && c != x ==> idx(c) != idx(x),
{
    assert forall|c: (usize, usize), x: (usize, usize)| #![trigger idx(c), idx(x)]
        in_bounds(c) && in_bounds(x) && c != x implies idx(c) != idx(x) by {
        if idx(c) == idx(x) {
            lemma_idx_injective(c, x);
        }
    }
}

pub proof fn lemma_idx_injective_contrapos(a: (usize, usize), b: (usize, usize))
    requires
        in_bounds(a),
        in_bounds(b),
        a != b,
    ensures
        idx(a) != idx(b),
{
    if idx(a) == idx(b) {
        lemma_idx_injective(a, b);
    }
}

/// Removing a value from a duplicate-free sequence removes exactly that
/// value's occurrence and keeps the rest, duplicate-free.
pub proof fn lemma_remove_value_props(s: Seq<(usize, usize)>, a: (usize, usize))
    requires
        s.no_duplicates(),
    ensures
        s.remove_value(a).no_duplicates(),
        forall|x: (usize, usize)| #[trigger]
            s.remove_value(a).contains(x) <==> (s.contains(x) && x != a),
{
    s.index_of_first_ensures(a);
    if s.contains(a) {
        let i = s.index_of_first(a)->0;
        let r = s.remove(i);
        s.remove_ensures(i);
        assert forall|x: (usize, usize)| #[trigger] r.contains(x) implies (s.contains(x) && x != a)
            by {
            let m = choose|m: int| 0 <= m < r.len() && r[m] == x;
            if m < i {
                assert(s[m] == x);
            } else {
                assert(s[m + 1] == x);
            }
            assert(s.contains(x));
            if x == a {
                if m < i {
                    assert(s[m] == a && s[i] == a && m != i);
                    assert(!s.no_duplicates());
                } else {
                    assert(s[m + 1] == a && s[i] == a && m + 1 != i);
                    assert(!s.no_duplicates());
                }
            }
        }
        assert forall|x: (usize, usize)| (s.contains(x) && x != a) implies #[trigger] r.contains(x)
            by {
            let m = choose|m: int| 0 <= m < s.len() && s[m] == x;
            if m < i {
                assert(r[m] == x);
            } else if m > i {
                assert(r[m - 1] == x);
            }
        }
        assert forall|p: int, q: int| 0 <= p < q < r.len() implies r[p] != r[q] by {
            let sp: int = if p < i {
                p
            } else {
                p + 1
            };
            let sq: int = if q < i {
                q
            } else {
                q + 1
            };
            assert(r[p] == s[sp]);
            assert(r[q] == s[sq]);
        }
    }
}

/// Appending a value unless present keeps a duplicate-free sequence
/// duplicate-free and adds exactly that value.
pub proof fn lemma_push_unique_props(s: Seq<(usize, usize)>, a: (usize, usize))
    requires
        s.no_duplicates(),
    ensures
        push_unique(s, a).no_duplicates(),
        forall|x: (usize, usize)| #[trigger]
            push_unique(s, a).contains(x) <==> (s.contains(x) || x == a),
{
    if !s.contains(a) {
        let r = s.push(a);
        assert forall|x: (usize, usize)| #[trigger] r.contains(x) implies (s.contains(x) || x == a)
            by {
            let m = choose|m: int| 0 <= m < r.len() && r[m] == x;
            if m < s.len() {
                assert(s[m] == x);
            }
        }
        assert forall|x: (usize, usize)| (s.contains(x) || x == a) implies #[trigger] r.contains(x)
            by {
            if x == a {
                assert(r[s.len() as int] == a);
            } else {
                let m = choose|m: int| 0 <= m < s.len() && s[m] == x;
                assert(r[m] == x);
            }
        }
        assert forall|p: int, q: int| 0 <= p < q < r.len() implies r[p] != r[q] by {
            if q == s.len() {
                assert(r[p] == s[p]);
                assert(!s.contains(a) ==> s[p] != a);
            }
        }
    }
}

/// An edit leaves the stores well formed, whatever they held.
pub proof fn lemma_edit_grid_wf(g: GridV, a: (usize, usize), t: Seq<char>)
    requires
        grid_wf(g),
        in_bounds(a),
        trim_sp(t) == t,
    ensures
        grid_wf(grid_after_edit(g, a, t)),
{
    let rd1 = tear_rdeps(g.rdeps, g.deps[a], a);
    let g1 = grid_after_edit(g, a, t);
    let ds = if t.len() == 0 {
        Seq::<(usize, usize)>::empty()
    } else {
        deps_seq_of(t)
    };
    lemma_deps_seq_of(t);
    crate::text::lemma_trim_idempotent(t);
    assert(g1.deps =~= g.deps.insert(a, ds));
    assert forall|x: (usize, usize)| in_bounds(x) implies (#[trigger] g1.rdeps[x]).no_duplicates()
        && (forall|k: int| 0 <= k < g1.rdeps[x].len() ==> in_bounds(#[trigger] g1.rdeps[x][k]))
        && (g1.rdeps[x].contains(a) <==> ds.contains(x)) && (forall|c: (usize, usize)|
        c != a ==> (#[trigger] g1.rdeps[x].contains(c) <==> g.rdeps[x].contains(c))) by {
        lemma_remove_value_props(g.rdeps[x], a);
        let r1 = if g.deps[a].contains(x) {
            g.rdeps[x].remove_value(a)
        } else {
            g.rdeps[x]
        };
        assert(rd1[x] == r1);
        lemma_push_unique_props(r1, a);
        assert(!r1.contains(a));
        assert forall|k: int| 0 <= k < g1.rdeps[x].len() implies in_bounds(
            #[trigger] g1.rdeps[x][k],
        ) by {
            assert(g1.rdeps[x].contains(g1.rdeps[x][k]));
            if g1.rdeps[x][k] != a {
                assert(g.rdeps[x].contains(g1.rdeps[x][k]));
                let m = choose|m: int| 0 <= m < g.rdeps[x].len() && g.rdeps[x][m] == g1.rdeps[x][k];
            }
        }
    }
    assert forall|c: (usize, usize), x: (usize, usize)| in_bounds(c) && in_bounds(x) implies (
    #[trigger] g1.deps[c].contains(x) <==> #[trigger] g1.rdeps[x].contains(c)) by {
        if c == a {
            assert(g1.deps[a] == ds);
        } else {
            assert(g1.deps[c] == g.deps[c]);
        }
    }
}

/// Removes the single occurrence of `a` from `v`, if present.
fn remove_cell(v: &mut Vec<(usize, usize)>, a: (usize, usize))
    requires
        old(v)@.no_duplicates(),
    ensures
        final(v)@ == old(v)@.remove_value(a),
{
    let n = v.len();
    let mut k: usize = 0;
    while k < n
        invariant
            k <= n,
            n == v@.len(),
            v@ == old(v)@,
            forall|m: int| 0 <= m < k ==> v@[m] != a,
        decreases n - k,
    {
        let c = v[k];
        if c.0 == a.0 && c.1 == a.1 {
            proof {
                old(v)@.index_of_first_ensures(a);
                assert(old(v)@.contains(a)) by {
                    assert(old(v)@[k as int] == a);
                }
                assert(old(v)@.index_of_first(a) == Some(k as int));
            }
            v.remove(k);
            return;
        }
        k += 1;
    }
    proof {
        assert(!old(v)@.contains(a));
        old(v)@.index_of_first_ensures(a);
    }
}

/// A copy of a list of addresses.
fn copy_cells(v: &Vec<(usize, usize)>) -> (r: Vec<(usize, usize)>)
    ensures
        r@ == v@,
{
    let mut r: Vec<(usize, usize)> = Vec::new();
    let n = v.len();
    let mut k: usize = 0;
    while k < n
        invariant
            k <= n,
            n == v@.len(),
            r@ == v@.subrange(0, k as int),
        decreases n - k,
    {
        r.push(v[k]);
        proof {
            assert(r@ =~= v@.subrange(0, k + 1));
        }
        k += 1;
    }
    proof {
        assert(v@.subrange(0, n as int) =~= v@);
    }
    r
}

/// A grid-sized vector of unset visited flags.
fn fresh_flags() -> (r: Vec<bool>)
    ensures
        r@.len() == ROWS * COLS,
        forall|k: int| 0 <= k < r@.len() ==> !(#[trigger] r@[k]),
{
    let mut r: Vec<bool> = Vec::new();
    let mut k: usize = 0;
    while k < ROWS * COLS
        invariant
            k <= ROWS * COLS,
            r@.len() == k,
            forall|m: int| 0 <= m < k ==> !(#[trigger] r@[m]),
        decreases ROWS * COLS - k,
    {
        r.push(false);
        k += 1;
    }
    r
}

/// Whether the flag at `i` is set.
fn visited_at(v: &Vec<bool>, i: usize) -> (r: bool)
    requires
        i < v@.len(),
    ensures
        r == v@[i as int],
{
    v[i]
}

/// The request a task is stopped at, as a fresh `Step`.
fn request_step(task: &Task) -> (st: Step)
    ensures
        st@ == request_of(task@),
{
    match task {
        Task::Lit { text } => Step::NeedNum(text.clone()),
        Task::Expr { cur, .. } => Step::NeedNum(cur.clone()),
        Task::Apply { op, lhs, rhs, .. } => Step::NeedOp(*op, *lhs, *rhs),
    }
}

/// The spreadsheet engine.
pub struct Cells {
    formulas: Vec<Option<String>>,
    values: Vec<Option<CellValue>>,
    deps: Vec<Vec<(usize, usize)>>,
    rdeps: Vec<Vec<(usize, usize)>>,
    mode: Mode,
}

impl View for Cells {
    type V = CellsV;

    closed spec fn view(&self) -> CellsV {
        CellsV {
            grid: GridV {
                formulas: Map::new(
                    |c: (usize, usize)|
                        in_bounds(c) && 0 <= idx(c) < self.formulas@.len() && self.formulas@[idx(
                            c,
                        )] is Some,
                    |c: (usize, usize)| (self.formulas@[idx(c)]->0)@,
                ),
                values: values_view(self.values@),
                deps: Map::new(
                    |c: (usize, usize)| in_bounds(c),
                    |c: (usize, usize)| self.deps@[idx(c)]@,
                ),
                rdeps: Map::new(
                    |c: (usize, usize)| in_bounds(c),
                    |c: (usize, usize)| self.rdeps@[idx(c)]@,
                ),
            },
            mode: match &self.mode {
                Mode::Idle => ModeV::Idle,
                Mode::Busy { task, target, cont } => ModeV::Busy {
                    task: task@,
                    target: *target,
                    cont: cont_view(cont),
                },
            },
        }
    }
}

impl Cells {
    /// Representation invariant: every backing vector covers the whole
    /// grid, and the ghost state is well formed.
    pub closed spec fn wf(&self) -> bool {
        &&& self.formulas@.len() == ROWS * COLS
        &&& self.values@.len() == ROWS * COLS
        &&& self.deps@.len() == ROWS * COLS
        &&& self.rdeps@.len() == ROWS * COLS
        &&& (match &self.mode {
            Mode::Idle => true,
            Mode::Busy { cont, .. } => match cont {
                Cont::Seed => true,
                Cont::Prop { visited, .. } => visited@.len() == ROWS * COLS,
            },
        })
        &&& wf_state(self@)
    }

    /// The well-formedness the contracts rely on, stated of the view.
    pub proof fn lemma_wf_view(&self)
        requires
            self.wf(),
        ensures
            wf_state(self@),
    {
    }

    /// A fresh, empty grid: no formulas, no values, no edges.
    pub fn new() -> (r: Cells)
        ensures
            r.wf(),
            r@.mode is Idle,
            r@.grid.formulas == Map::<(usize, usize), Seq<char>>::empty(),
            r@.grid.values == Map::<(usize, usize), Val>::empty(),
            forall|c: (usize, usize)|
                in_bounds(c) ==> #[trigger] r@.grid.deps[c] == Seq::<(usize, usize)>::empty()
                    && #[trigger] r@.grid.rdeps[c] == Seq::<(usize, usize)>::empty(),
    {
        let mut formulas: Vec<Option<String>> = Vec::new();
        let mut values: Vec<Option<CellValue>> = Vec::new();
        let mut deps: Vec<Vec<(usize, usize)>> = Vec::new();
        let mut rdeps: Vec<Vec<(usize, usize)>> = Vec::new();
        let mut i: usize = 0;
        while i < ROWS * COLS
            invariant
                formulas@.len() == i,
                values@.len() == i,
                deps@.len() == i,
                rdeps@.len() == i,
                i <= ROWS * COLS,
                forall|k: int| 0 <= k < i ==> formulas@[k] is None,
                forall|k: int| 0 <= k < i ==> values@[k] is None,
                forall|k: int| 0 <= k < i ==> (#[trigger] deps@[k])@ == Seq::<(
                    usize,
                    usize,
                )>::empty(),
                forall|k: int| 0 <= k < i ==> (#[trigger] rdeps@[k])@ == Seq::<(
                    usize,
                    usize,
                )>::empty(),
            decreases ROWS * COLS - i,
        {
            formulas.push(None);
            values.push(None);
            let d: Vec<(usize, usize)> = Vec::new();
            let rd: Vec<(usize, usize)> = Vec::new();
            proof {
                assert(d@ =~= Seq::<(usize, usize)>::empty());
                assert(rd@ =~= Seq::<(usize, usize)>::empty());
            }
            deps.push(d);
            rdeps.push(rd);
            i += 1;
        }
        let r = Cells { formulas, values, deps, rdeps, mode: Mode::Idle };
        proof {
            assert forall|c: (usize, usize)| in_bounds(c) implies 0 <= idx(c) < ROWS * COLS by {
                lemma_idx_bounds(c);
            }
            assert(r@.grid.formulas =~= Map::<(usize, usize), Seq<char>>::empty());
            assert(r@.grid.values =~= Map::<(usize, usize), Val>::empty());
        }
        r
    }

    /// The last computed value of a cell, absent when the cell stores
    /// nothing.
    pub fn get_value(&self, row: usize, col: usize) -> (r: Option<&CellValue>)
        requires
            self.wf(),
            row < ROWS,
            col < COLS,
        ensures
            match r {
                Option::Some(v) => self@.grid.values.contains_key((row, col)) && v@
                    == self@.grid.values[(row, col)],
                Option::None => !self@.grid.values.contains_key((row, col)),
            },
    {
        proof {
            lemma_idx_bounds((row, col));
        }
        let i = row * COLS + col;
        self.values[i].as_ref()
    }

    /// The stored formula text of a cell, for re-editing; absent when the
    /// cell stores nothing.
    pub fn get_formula(&self, row: usize, col: usize) -> (r: Option<&String>)
        requires
            self.wf(),
            row < ROWS,
            col < COLS,
        ensures
            match r {
                Option::Some(f) => self@.grid.formulas.contains_key((row, col)) && f@
                    == self@.grid.formulas[(row, col)],
                Option::None => !self@.grid.formulas.contains_key((row, col)),
            },
    {
        proof {
            lemma_idx_bounds((row, col));
        }
        let i = row * COLS + col;
        self.formulas[i].as_ref()
    }

    /// Opens an edit session: tears down the edited cell's old edges,
    /// stores the trimmed text (or deletes the cell when the text is
    /// empty), installs the newly extracted edges, and stops at the first
    /// evaluation request - of the edited cell itself, or already of a
    /// dependent when the edit was a deletion.
    pub fn update_cell(&mut self, row: usize, col: usize, formula: String) -> (st: Step)
        requires
            old(self).wf(),
            old(self)@.mode is Idle,
            row < ROWS,
            col < COLS,
        ensures
            final(self).wf(),
            final(self)@ == begin_update(old(self)@.grid, (row, col), formula@),
            st@ == step_of(final(self)@),
    {
        let ghost g0 = self@.grid;
        let a = (row, col);
        proof {
            lemma_idx_bounds(a);
            assert forall|c: (usize, usize), x: (usize, usize)|
                in_bounds(c) && in_bounds(x) && c != x implies idx(c) != idx(x) by {
                if idx(c) == idx(x) {
                    lemma_idx_injective(c, x);
                }
            }
        }
        let ia = row * COLS + col;
        let t = trim_str(formula.as_str());
        // Tear down the old forward edges.
        let mut old_deps: Vec<(usize, usize)> = Vec::new();
        core::mem::swap(&mut old_deps, &mut self.deps[ia]);
        proof {
            assert(old_deps@ == g0.deps[a]);
            assert(self@.grid.deps =~= g0.deps.insert(a, Seq::<(usize, usize)>::empty()));
            assert(g0.deps[a].subrange(0, 0) =~= Seq::<(usize, usize)>::empty());
        }
        let nd = old_deps.len();
        let mut k: usize = 0;
        while k < nd
            invariant
                k <= nd,
                nd == old_deps@.len(),
                old_deps@ == g0.deps[a],
                in_bounds(a),
                grid_wf(g0),
                ia == idx(a),
                self.formulas@.len() == ROWS * COLS,
                self.values@.len() == ROWS * COLS,
                self.deps@.len() == ROWS * COLS,
                self.rdeps@.len() == ROWS * COLS,
                self@.grid.formulas == g0.formulas,
                self@.grid.values == g0.values,
                self@.grid.deps == g0.deps.insert(a, Seq::<(usize, usize)>::empty()),
                self@.mode == ModeV::Idle,
                self.mode is Idle,
                forall|x: (usize, usize)|
                    in_bounds(x) ==> #[trigger] self@.grid.rdeps[x] == if g0.deps[a].subrange(
                        0,
                        k as int,
                    ).contains(x) {
                        g0.rdeps[x].remove_value(a)
                    } else {
                        g0.rdeps[x]
                    },
                forall|x: (usize, usize)|
                    in_bounds(x) ==> (#[trigger] self@.grid.rdeps[x]).no_duplicates(),
            decreases nd - k,
        {
            let x = old_deps[k];
            proof {
                assert(in_bounds(x));
                lemma_idx_bounds(x);
                assert(!g0.deps[a].subrange(0, k as int).contains(x)) by {
                    if g0.deps[a].subrange(0, k as int).contains(x) {
                        let m = choose|m: int|
                            0 <= m < k && (#[trigger] g0.deps[a].subrange(0, k as int)[m]) == x;
                        assert(g0.deps[a][m] == x);
                        assert(g0.deps[a][k as int] == x);
                        assert(!g0.deps[a].no_duplicates());
                    }
                }
            }
            let ix = x.0 * COLS + x.1;
            let ghost rd_before = self@.grid.rdeps;
            proof {
                assert(rd_before[x] == self.rdeps@[ix as int]@);
                assert(rd_before[x] == g0.rdeps[x]);
            }
            remove_cell(&mut self.rdeps[ix], a);
            proof {
                lemma_remove_value_props(g0.rdeps[x], a);
                assert(self@.grid.rdeps[x] == g0.rdeps[x].remove_value(a));
                assert forall|y: (usize, usize)| in_bounds(y) implies #[trigger] self@.grid.rdeps[y]
                    == if g0.deps[a].subrange(0, k + 1).contains(y) {
                    g0.rdeps[y].remove_value(a)
                } else {
                    g0.rdeps[y]
                } by {
                    let pre = g0.deps[a];
                    if y != x {
                        lemma_idx_injective_contrapos(y, x);
                        assert(self@.grid.rdeps[y] == rd_before[y]);
                        assert(pre.subrange(0, k + 1).contains(y) == pre.subrange(
                            0,
                            k as int,
                        ).contains(y)) by {
                            if pre.subrange(0, k + 1).contains(y) {
                                let m = choose|m: int|
                                    0 <= m < k + 1 && (#[trigger] pre.subrange(0, k + 1)[m]) == y;
                                assert(pre[m] == y);
                                assert(m < k);
                                assert(pre.subrange(0, k as int)[m] == y);
                            }
                            if pre.subrange(0, k as int).contains(y) {
                                let m = choose|m: int|
                                    0 <= m < k && (#[trigger] pre.subrange(0, k as int)[m]) == y;
                                assert(pre[m] == y);
                                assert(pre.subrange(0, k + 1)[m] == y);
                            }
                        }
                    } else {
                        assert(pre.subrange(0, k + 1)[k as int] == x);
                    }
                }
                assert forall|y: (usize, usize)| in_bounds(y) implies (#[trigger] self@.grid.rdeps[y]).no_duplicates() by {
                    lemma_remove_value_props(g0.rdeps[y], a);
                }
            }
            k += 1;
        }
        let ghost rd1 = tear_rdeps(g0.rdeps, g0.deps[a], a);
        proof {
            assert(g0.deps[a].subrange(0, nd as int) =~= g0.deps[a]);
            assert(self@.grid.rdeps =~= rd1);
        }
        // Store the new text, or delete the cell.
        if t.as_str().is_empty() {
            self.formulas[ia] = None;
            self.values[ia] = None;
            proof {
                assert(self@.grid.formulas =~= g0.formulas.remove(a));
                assert(self@.grid.values =~= g0.values.remove(a));
                assert(self@.grid =~= grid_after_edit(g0, a, trim_sp(formula@)));
                crate::text::lemma_trim_idempotent(formula@);
                lemma_edit_grid_wf(g0, a, trim_sp(formula@));
            }
            let wl = copy_cells(&self.rdeps[ia]);
            let vis = fresh_flags();
            proof {
                assert(vis_view(vis@) =~= Set::<(usize, usize)>::empty());
                assert forall|m: int| 0 <= m < wl@.len() implies in_bounds(#[trigger] wl@[m])
                    && exists|x: (usize, usize)| in_bounds(x) && self@.grid.rdeps[x].contains(
                    wl@[m],
                ) by {
                    assert(self@.grid.rdeps[a].contains(wl@[m]));
                }
            }
            let st = self.run_prop(wl, vis);
            proof {
                assert(self@ == begin_update(g0, a, formula@));
            }
            st
        } else {
            self.formulas[ia] = Some(t.clone());
            let ds = parse_dependencies(t.as_str());
            let ds_store = copy_cells(&ds);
            self.deps[ia] = ds_store;
            proof {
                lemma_idx_all_injective();
                assert(self@.grid.formulas =~= g0.formulas.insert(a, t@));
                assert(self@.grid.deps[a] == deps_seq_of(t@));
                assert forall|c: (usize, usize)| in_bounds(c) && c != a implies #[trigger] self@.grid.deps[c]
                    == g0.deps[c] by {
                    assert(idx(c) != idx(a));
                    assert(g0.deps.insert(a, Seq::<(usize, usize)>::empty())[c] == g0.deps[c]);
                }
                assert(self@.grid.deps =~= g0.deps.insert(a, deps_seq_of(t@)));
                assert(self@.grid.rdeps =~= rd1);
                assert(ds@.subrange(0, 0) =~= Seq::<(usize, usize)>::empty());
            }
            let nk = ds.len();
            let mut k2: usize = 0;
            while k2 < nk
                invariant
                    k2 <= nk,
                    nk == ds@.len(),
                    ds@ == deps_seq_of(t@),
                    ds@.no_duplicates(),
                    forall|m: int| 0 <= m < ds@.len() ==> in_bounds(#[trigger] ds@[m]),
                    in_bounds(a),
                    ia == idx(a),
                    grid_wf(g0),
                    self.formulas@.len() == ROWS * COLS,
                    self.values@.len() == ROWS * COLS,
                    self.deps@.len() == ROWS * COLS,
                    self.rdeps@.len() == ROWS * COLS,
                    self@.grid.formulas == g0.formulas.insert(a, t@),
                    self@.grid.values == g0.values,
                    self@.grid.deps == g0.deps.insert(a, deps_seq_of(t@)),
                    self@.mode == ModeV::Idle,
                    self.mode is Idle,
                    rd1 == tear_rdeps(g0.rdeps, g0.deps[a], a),
                    forall|x: (usize, usize)|
                        in_bounds(x) ==> (#[trigger] rd1[x]).no_duplicates(),
                    forall|x: (usize, usize)|
                        in_bounds(x) ==> #[trigger] self@.grid.rdeps[x] == if ds@.subrange(
                            0,
                            k2 as int,
                        ).contains(x) {
                            push_unique(rd1[x], a)
                        } else {
                            rd1[x]
                        },
                decreases nk - k2,
            {
                let x = ds[k2];
                proof {
                    lemma_idx_bounds(x);
                    assert(!ds@.subrange(0, k2 as int).contains(x)) by {
                        if ds@.subrange(0, k2 as int).contains(x) {
                            let m = choose|m: int|
                                0 <= m < k2 && (#[trigger] ds@.subrange(0, k2 as int)[m]) == x;
                            assert(ds@[m] == x);
                            assert(ds@[k2 as int] == x);
                            assert(!ds@.no_duplicates());
                        }
                    }
                }
                let ix = x.0 * COLS + x.1;
                let ghost before = self@.grid.rdeps;
                proof {
                    assert(before[x] == self.rdeps@[ix as int]@);
                    assert(before[x] == rd1[x]);
                }
                if !cell_in(&self.rdeps[ix], a) {
                    self.rdeps[ix].push(a);
                    proof {
                        assert(self@.grid.rdeps[x] =~= before[x].push(a));
                        assert(self@.grid.rdeps[x] == push_unique(rd1[x], a));
                    }
                } else {
                    proof {
                        assert(rd1[x].contains(a));
                        assert(self@.grid.rdeps[x] == push_unique(rd1[x], a));
                    }
                }
                proof {
                    assert forall|y: (usize, usize)| in_bounds(y) implies #[trigger] self@.grid.rdeps[y]
                        == if ds@.subrange(0, k2 + 1).contains(y) {
                        push_unique(rd1[y], a)
                    } else {
                        rd1[y]
                    } by {
                        if y != x {
                            lemma_idx_injective_contrapos(y, x);
                            assert(self@.grid.rdeps[y] == before[y]);
                            assert(ds@.subrange(0, k2 + 1).contains(y) == ds@.subrange(
                                0,
                                k2 as int,
                            ).contains(y)) by {
                                if ds@.subrange(0, k2 + 1).contains(y) {
                                    let m = choose|m: int|
                                        0 <= m < k2 + 1 && (#[trigger] ds@.subrange(0, k2 + 1)[m]) == y;
                                    assert(ds@[m] == y);
                                    assert(m < k2);
                                    assert(ds@.subrange(0, k2 as int)[m] == y);
                                }
                                if ds@.subrange(0, k2 as int).contains(y) {
                                    let m = choose|m: int|
                                        0 <= m < k2 && (#[trigger] ds@.subrange(0, k2 as int)[m]) == y;
                                    assert(ds@[m] == y);
                                    assert(ds@.subrange(0, k2 + 1)[m] == y);
                                }
                            }
                        } else {
                            assert(ds@.subrange(0, k2 + 1)[k2 as int] == x);
                        }
                    }
                }
                k2 += 1;
            }
            proof {
                assert(ds@.subrange(0, nk as int) =~= ds@);
                assert(self@.grid.rdeps =~= install_rdeps(rd1, deps_seq_of(t@), a));
                assert(self@.grid =~= grid_after_edit(g0, a, trim_sp(formula@)));
                crate::text::lemma_trim_idempotent(formula@);
                lemma_edit_grid_wf(g0, a, trim_sp(formula@));
            }
            let stepped = exec_start(t.as_str());
            match stepped {
                Stepped::More(task) => {
                    let st = request_step(&task);
                    self.mode = Mode::Busy { task, target: a, cont: Cont::Seed };
                    proof {
                        assert(self@ == begin_update(g0, a, formula@));
                    }
                    st
                },
                Stepped::Finished(val) => {
                    let st = self.finish_value(a, val, Cont::Seed);
                    proof {
                        assert(self@ == begin_update(g0, a, formula@));
                    }
                    st
                },
            }
        }
    }

    /// Answers the parse request the session is stopped at and continues
    /// to the next stop.
    pub fn resume_num(&mut self, reply: Option<u64>) -> (st: Step)
        requires
            old(self).wf(),
            step_of(old(self)@) is NeedNum,
        ensures
            final(self).wf(),
            final(self)@ == session_feed_num(old(self)@, reply),
            st@ == step_of(final(self)@),
    {
        let mut m = Mode::Idle;
        core::mem::swap(&mut m, &mut self.mode);
        match m {
            Mode::Idle => {
                proof {
                    assert(false);
                }
                Step::Done
            },
            Mode::Busy { task, target, cont } => {
                let stepped = exec_feed_num(task, &self.values, reply);
                match stepped {
                    Stepped::More(t2) => {
                        let st = request_step(&t2);
                        self.mode = Mode::Busy { task: t2, target, cont };
                        st
                    },
                    Stepped::Finished(val) => self.finish_value(target, val, cont),
                }
            },
        }
    }

    /// Answers the operator request the session is stopped at and
    /// continues to the next stop.
    pub fn resume_op(&mut self, reply: u64) -> (st: Step)
        requires
            old(self).wf(),
            step_of(old(self)@) is NeedOp,
        ensures
            final(self).wf(),
            final(self)@ == session_feed_op(old(self)@, reply),
            st@ == step_of(final(self)@),
    {
        let mut m = Mode::Idle;
        core::mem::swap(&mut m, &mut self.mode);
        match m {
            Mode::Idle => {
                proof {
                    assert(false);
                }
                Step::Done
            },
            Mode::Busy { task, target, cont } => {
                let stepped = exec_feed_op(task, reply);
                match stepped {
                    Stepped::More(t2) => {
                        let st = request_step(&t2);
                        self.mode = Mode::Busy { task: t2, target, cont };
                        st
                    },
                    Stepped::Finished(val) => self.finish_value(target, val, cont),
                }
            },
        }
    }

    /// Stores the delivered value and resumes the worklist walk.
    fn finish_value(&mut self, target: (usize, usize), val: CellValue, cont: Cont) -> (st: Step)
        requires
            old(self).wf(),
            old(self)@.mode is Idle,
            busy_wf(old(self)@.grid, target, cont_view(&cont)),
            match cont {
                Cont::Prop { visited, .. } => visited@.len() == ROWS * COLS,
                Cont::Seed => true,
            },
        ensures
            final(self).wf(),
            final(self)@ == after_value(old(self)@.grid, target, val@, cont_view(&cont)),
            st@ == step_of(final(self)@),
    {
        let ghost g0 = self@.grid;
        proof {
            lemma_idx_bounds(target);
            assert forall|c: (usize, usize), x: (usize, usize)|
                in_bounds(c) && in_bounds(x) && c != x implies idx(c) != idx(x) by {
                if idx(c) == idx(x) {
                    lemma_idx_injective(c, x);
                }
            }
        }
        let it = target.0 * COLS + target.1;
        self.values[it] = Some(val);
        let ghost g1 = GridV { values: g0.values.insert(target, val@), ..g0 };
        proof {
            assert(self@.grid.values =~= g1.values);
            assert(self@.grid =~= g1);
        }
        match cont {
            Cont::Seed => {
                let wl = copy_cells(&self.rdeps[it]);
                let vis = fresh_flags();
                proof {
                    assert(vis_view(vis@) =~= Set::<(usize, usize)>::empty());
                    assert forall|m: int| 0 <= m < wl@.len() implies in_bounds(#[trigger] wl@[m])
                        && exists|x: (usize, usize)| in_bounds(x) && self@.grid.rdeps[x].contains(
                        wl@[m],
                    ) by {
                        assert(self@.grid.rdeps[target].contains(wl@[m]));
                    }
                }
                self.run_prop(wl, vis)
            },
            Cont::Prop { worklist, visited } => {
                let mut wl = worklist;
                let ghost wl0 = wl@;
                let ext = copy_cells(&self.rdeps[it]);
                let ne = ext.len();
                let mut m: usize = 0;
                while m < ne
                    invariant
                        m <= ne,
                        ne == ext@.len(),
                        wl@ == wl0 + ext@.subrange(0, m as int),
                    decreases ne - m,
                {
                    wl.push(ext[m]);
                    proof {
                        assert(wl@ =~= wl0 + ext@.subrange(0, m + 1));
                    }
                    m += 1;
                }
                proof {
                    assert(ext@.subrange(0, ne as int) =~= ext@);
                    assert(wl@ == wl0 + g1.rdeps[target]);
                    assert forall|q: int| 0 <= q < wl@.len() implies in_bounds(#[trigger] wl@[q])
                        && exists|x: (usize, usize)| in_bounds(x) && self@.grid.rdeps[x].contains(
                        wl@[q],
                    ) by {
                        if q < wl0.len() {
                            assert(wl@[q] == wl0[q]);
                        } else {
                            assert(wl@[q] == g1.rdeps[target][q - wl0.len()]);
                            assert(self@.grid.rdeps[target].contains(wl@[q]));
                        }
                    }
                }
                self.run_prop(wl, visited)
            },
        }
    }

    /// The worklist walk itself: pops until it reaches an unvisited cell
    /// that stores a formula (stopping there with its first request) or
    /// runs out of work.
    fn run_prop(&mut self, worklist: Vec<(usize, usize)>, visited: Vec<bool>) -> (st: Step)
        requires
            old(self).wf(),
            old(self)@.mode is Idle,
            visited@.len() == ROWS * COLS,
            forall|k: int|
                0 <= k < worklist@.len() ==> in_bounds(#[trigger] worklist@[k]) && exists|
                    x: (usize, usize),
                |
                    in_bounds(x) && old(self)@.grid.rdeps[x].contains(worklist@[k]),
        ensures
            final(self).wf(),
            final(self)@ == prop_advance(old(self)@.grid, worklist@, vis_view(visited@)),
            st@ == step_of(final(self)@),
    {
        let ghost g_entry = self@.grid;
        let ghost wl0 = worklist@;
        let ghost vis0 = vis_view(visited@);
        let mut wl = worklist;
        let mut vis = visited;
        proof {
            lemma_idx_all_injective();
        }
        loop
            invariant
                self.wf(),
                self@.mode is Idle,
                vis@.len() == ROWS * COLS,
                g_entry == old(self)@.grid,
                wl0 == worklist@,
                vis0 == vis_view(visited@),
                forall|k: int|
                    0 <= k < wl@.len() ==> in_bounds(#[trigger] wl@[k]) && exists|
                        x: (usize, usize),
                    |
                        in_bounds(x) && self@.grid.rdeps[x].contains(wl@[k]),
                prop_advance(self@.grid, wl@, vis_view(vis@)) == prop_advance(g_entry, wl0, vis0),
                forall|c: (usize, usize), x: (usize, usize)| #![trigger idx(c), idx(x)]
                    in_bounds(c) && in_bounds(x) && c != x ==> idx(c) != idx(x),
            decreases wl@.len(),
        {
            let ghost wl_pre = wl@;
            let ghost vis_pre = vis_view(vis@);
            let ghost gb = self@.grid;
            let popped = wl.pop();
            match popped {
                Option::None => {
                    proof {
                        assert(prop_advance(gb, wl_pre, vis_pre) == CellsV {
                            grid: gb,
                            mode: ModeV::Idle,
                        });
                        assert(self@ == CellsV { grid: gb, mode: ModeV::Idle });
                    }
                    return Step::Done;
                },
                Option::Some(w) => {
                    proof {
                        assert(w == wl_pre.last());
                        assert(wl@ == wl_pre.drop_last());
                        assert(in_bounds(w)) by {
                            assert(wl_pre[wl_pre.len() - 1] == w);
                        }
                        lemma_idx_bounds(w);
                    }
                    let iw = w.0 * COLS + w.1;
                    if visited_at(&vis, iw) {
                        proof {
                            assert(vis_pre.contains(w));
                            assert(prop_advance(gb, wl_pre, vis_pre) == prop_advance(
                                gb,
                                wl@,
                                vis_pre,
                            ));
                        }
                    } else {
                        proof {
                            assert(!vis_pre.contains(w));
                        }
                        vis[iw] = true;
                        proof {
                            assert(vis_view(vis@) =~= vis_pre.insert(w));
                        }
                        let ghost fw = self@.grid.formulas[w];
                        let stepped: Option<Stepped> = match &self.formulas[iw] {
                            Option::Some(f) => {
                                proof {
                                    assert(self@.grid.formulas.contains_key(w));
                                    assert(f@ == fw);
                                }
                                Some(exec_start(f.as_str()))
                            },
                            Option::None => {
                                proof {
                                    assert(!self@.grid.formulas.contains_key(w));
                                }
                                None
                            },
                        };
                        match stepped {
                            Option::Some(Stepped::More(task)) => {
                                let st = request_step(&task);
                                proof {
                                    assert(wl_pre[wl_pre.len() - 1] == w);
                                    assert(exists|x: (usize, usize)|
                                        in_bounds(x) && self@.grid.rdeps[x].contains(w));
                                    assert(prop_advance(gb, wl_pre, vis_pre) == CellsV {
                                        grid: gb,
                                        mode: ModeV::Busy {
                                            task: task@,
                                            target: w,
                                            cont: ContV::Prop {
                                                worklist: wl@,
                                                visited: vis_pre.insert(w),
                                            },
                                        },
                                    });
                                }
                                self.mode = Mode::Busy {
                                    task,
                                    target: w,
                                    cont: Cont::Prop { worklist: wl, visited: vis },
                                };
                                return st;
                            },
                            Option::Some(Stepped::Finished(v)) => {
                                self.values[iw] = Some(v);
                                proof {
                                    assert(self@.grid.values =~= gb.values.insert(w, v@));
                                    assert(self@.grid =~= GridV {
                                        values: gb.values.insert(w, v@),
                                        ..gb
                                    });
                                    assert(prop_advance(gb, wl_pre, vis_pre) == prop_advance(
                                        self@.grid,
                                        wl@,
                                        vis_pre.insert(w),
                                    ));
                                    assert forall|c: (usize, usize)| #[trigger]
                                        self@.grid.values.contains_key(c) implies self@.grid.formulas.contains_key(
                                        c,
                                    ) by {
                                        if c != w {
                                            assert(gb.values.contains_key(c));
                                        }
                                    }
                                }
                            },
                            Option::None => {
                                proof {
                                    assert(prop_advance(gb, wl_pre, vis_pre) == prop_advance(
                                        gb,
                                        wl@,
                                        vis_pre.insert(w),
                                    ));
                                }
                            },
                        }
                    }
                },
            }
        }
    }

    /// The addresses the cell's stored formula references, in the order
    /// the scan first finds them.
    pub fn dependencies_of(&self, row: usize, col: usize) -> (r: Vec<(usize, usize)>)
        requires
            self.wf(),
            row < ROWS,
            col < COLS,
        ensures
            r@ == self@.grid.deps[(row, col)],
    {
        proof {
            lemma_idx_bounds((row, col));
        }
        let i = row * COLS + col;
        copy_cells(&self.deps[i])
    }

    /// The addresses whose stored formulas reference the cell, in the
    /// order their edits installed the edges.
    pub fn dependents_of(&self, row: usize, col: usize) -> (r: Vec<(usize, usize)>)
        requires
            self.wf(),
            row < ROWS,
            col < COLS,
        ensures
            r@ == self@.grid.rdeps[(row, col)],
    {
        proof {
            lemma_idx_bounds((row, col));
        }
        let i = row * COLS + col;
        copy_cells(&self.rdeps[i])
    }

    /// Starts a read-only evaluation of a raw formula text against the
    /// current store, without storing anything: the session object carries
    /// the outstanding work.
    pub fn evaluate_formula(&self, formula: &str) -> (e: Evaluation)
        requires
            self.wf(),
        ensures
            e@ == start_task(formula@),
    {
        Evaluation { state: exec_start(formula) }
    }

    /// Whether a cell currently holds a numeric value.
    pub fn is_cell_number(&self, row: usize, col: usize) -> (r: bool)
        requires
            self.wf(),
            row < ROWS,
            col < COLS,
        ensures
            r == (self@.grid.values.contains_key((row, col)) && self@.grid.values[(row, col)]
                is VNum),
    {
        proof {
            lemma_idx_bounds((row, col));
        }
        let i = row * COLS + col;
        match &self.values[i] {
            Option::Some(CellValue::Number(_)) => true,
            _ => false,
        }
    }
}

/// A read-only evaluation in flight: the outstanding work of evaluating
/// one formula text against a value store, stopped wherever caller input
/// is needed. Feeding it never changes the store, so evaluating the same
/// unchanged formula twice with the same answers gives the same value.
pub struct Evaluation {
    pub(crate) state: Stepped,
}

impl View for Evaluation {
    type V = Outcome;

    closed spec fn view(&self) -> Outcome {
        self.state@
    }
}

impl Evaluation {
    /// The request the evaluation is stopped at, `Done` once finished.
    pub fn request(&self) -> (st: Step)
        ensures
            st@ == match self@ {
                Outcome::More(t) => request_of(t),
                Outcome::Finished(_) => StepV::Done,
            },
    {
        match &self.state {
            Stepped::More(task) => request_step(task),
            Stepped::Finished(_) => Step::Done,
        }
    }

    /// The value the evaluation delivered, once finished.
    pub fn result(&self) -> (r: Option<&CellValue>)
        ensures
            match r {
                Option::Some(v) => self@ == Outcome::Finished(v@),
                Option::None => self@ is More,
            },
    {
        match &self.state {
            Stepped::More(_) => None,
            Stepped::Finished(v) => Some(v),
        }
    }

    /// Answers the outstanding parse request against `cells`' current
    /// values.
    pub fn feed_num(&mut self, cells: &Cells, reply: Option<u64>)
        requires
            cells.wf(),
            old(self)@ is More,
            request_of(old(self)@->More_0) is NeedNum,
        ensures
            final(self)@ == feed_num(old(self)@->More_0, cells@.grid.values, reply),
    {
        let mut st = Stepped::Finished(CellValue::Number(0));
        core::mem::swap(&mut st, &mut self.state);
        match st {
            Stepped::More(task) => {
                self.state = exec_feed_num(task, &cells.values, reply);
            },
            Stepped::Finished(v) => {
                proof {
                    assert(false);
                }
                self.state = Stepped::Finished(v);
            },
        }
    }

    /// Answers the outstanding operator request.
    pub fn feed_op(&mut self, reply: u64)
        requires
            old(self)@ is More,
            request_of(old(self)@->More_0) is NeedOp,
        ensures
            final(self)@ == feed_op(old(self)@->More_0, reply),
    {
        let mut st = Stepped::Finished(CellValue::Number(0));
        core::mem::swap(&mut st, &mut self.state);
        match st {
            Stepped::More(task) => {
                self.state = exec_feed_op(task, reply);
            },
            Stepped::Finished(v) => {
                proof {
                    assert(false);
                }
                self.state = Stepped::Finished(v);
            },
        }
    }
}

} // verus!
