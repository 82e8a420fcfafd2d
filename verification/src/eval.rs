//! The expression evaluator, written as an explicit machine.
//!
//! Evaluating the text after `=` follows the flat left-scan rule: try the
//! whole (trimmed) text as a numeric literal; else as a single cell
//! reference; else split at the first arithmetic operator, evaluate the
//! left part (which holds no operator, so it is a leaf), then the right
//! part, and combine. There is no precedence and no parenthesis support.
//!
//! The machine never parses a literal or applies an operator itself: it
//! stops at an explicit request (`NeedNum`, `NeedOp`) and resumes from the
//! caller's answer, so every numeric outcome is a function of the answers
//! handed in. Division is the one guarded case: a right operand equal to
//! an IEEE-754 zero word ends the evaluation with the `DIV0` error before
//! any operation is requested.

use vstd::prelude::*;

use crate::addr::{spec_cell_ref, parse_cell_reference, COLS, ROWS};
use crate::text::{trim_sp, trim_str};
use crate::value::{is_zero_bits, values_view, zero_bits, CellValue, Val, idx, lemma_idx_bounds};
use vstd::string::{StringExecFns, StrSliceExecFns};

verus! {

/// Work still owed after the left part of an operator split.
pub enum Frame {
    /// The left part is done; the text right of the operator is next.
    RightOf { op: char, right: String },
    /// Both parts are done; the operator is ready to apply.
    Combine { op: char, lhs: u64 },
}

/// One cell evaluation, stopped where caller input is needed.
pub enum Task {
    /// A stored text that does not start with `=`: a number if it parses,
    /// else label text.
    Lit { text: String },
    /// An expression part whose parse attempt is outstanding.
    Expr { cur: String, stack: Vec<Frame> },
    /// An arithmetic application whose result is outstanding.
    Apply { op: char, lhs: u64, rhs: u64, stack: Vec<Frame> },
}

/// Ghost shape of a `Frame`.
pub enum FrameV {
    RightOf { op: char, right: Seq<char> },
    Combine { op: char, lhs: u64 },
}

/// Ghost shape of a `Task`.
pub enum TaskV {
    Lit { text: Seq<char> },
    Expr { cur: Seq<char>, stack: Seq<FrameV> },
    Apply { op: char, lhs: u64, rhs: u64, stack: Seq<FrameV> },
}

impl View for Frame {
    type V = FrameV;

    open spec fn view(&self) -> FrameV {
        match self {
            Frame::RightOf { op, right } => FrameV::RightOf { op: *op, right: right@ },
            Frame::Combine { op, lhs } => FrameV::Combine { op: *op, lhs: *lhs },
        }
    }
}

/// The ghost shapes of a stack of frames.
pub open spec fn stack_view(s: Seq<Frame>) -> Seq<FrameV> {
    s.map_values(|f: Frame| f@)
}

impl View for Task {
    type V = TaskV;

    open spec fn view(&self) -> TaskV {
        match self {
            Task::Lit { text } => TaskV::Lit { text: text@ },
            Task::Expr { cur, stack } => TaskV::Expr { cur: cur@, stack: stack_view(stack@) },
            Task::Apply { op, lhs, rhs, stack } => TaskV::Apply {
                op: *op,
                lhs: *lhs,
                rhs: *rhs,
                stack: stack_view(stack@),
            },
        }
    }
}

/// Where one step of the machine lands: either more work, stopped at the
/// next request, or a final value for the cell.
pub enum Outcome {
    More(TaskV),
    Finished(Val),
}

/// What the caller is asked while a task is outstanding.
pub enum Step {
    /// Parse this text as a number, answering `None` if it does not parse.
    NeedNum(String),
    /// Apply this operator to these two numeric words.
    NeedOp(char, u64, u64),
    /// Nothing is outstanding.
    Done,
}

/// Ghost shape of a `Step`.
pub enum StepV {
    NeedNum(Seq<char>),
    NeedOp(char, u64, u64),
    Done,
}

impl View for Step {
    type V = StepV;

    open spec fn view(&self) -> StepV {
        match self {
            Step::NeedNum(s) => StepV::NeedNum(s@),
            Step::NeedOp(op, a, b) => StepV::NeedOp(*op, *a, *b),
            Step::Done => StepV::Done,
        }
    }
}

/// The request a task is stopped at.
pub open spec fn request_of(t: TaskV) -> StepV {
    match t {
        TaskV::Lit { text } => StepV::NeedNum(text),
        TaskV::Expr { cur, .. } => StepV::NeedNum(cur),
        TaskV::Apply { op, lhs, rhs, .. } => StepV::NeedOp(op, lhs, rhs),
    }
}

/// The four arithmetic operator characters.
pub open spec fn op_char(c: char) -> bool {
    c == '+' || c == '-' || c == '*' || c == '/'
}

/// Index of the first operator character at or after `i` in `s`.
pub open spec fn first_op(s: Seq<char>, i: int) -> Option<int>
    decreases s.len() - i,
{
    if i < 0 || i >= s.len() {
        None
    } else if op_char(s[i]) {
        Some(i)
    } else {
        first_op(s, i + 1)
    }
}

/// Hands a finished part's value back to the pending work: the final value
/// if nothing is pending, else the right part of the innermost split, else
/// the operator application - refused outright as `DIV0` when it would
/// divide by a zero word.
pub open spec fn fold_step(v: u64, stack: Seq<FrameV>) -> Outcome {
    if stack.len() == 0 {
        Outcome::Finished(Val::VNum(v))
    } else {
        match stack.last() {
            FrameV::RightOf { op, right } => Outcome::More(
                TaskV::Expr {
                    cur: trim_sp(right),
                    stack: stack.drop_last().push(FrameV::Combine { op, lhs: v }),
                },
            ),
            FrameV::Combine { op, lhs } => {
                if op == '/' && is_zero_bits(v) {
                    Outcome::Finished(Val::VError("DIV0"@))
                } else {
                    Outcome::More(TaskV::Apply { op, lhs, rhs: v, stack: stack.drop_last() })
                }
            },
        }
    }
}

/// One machine step from an answered parse request. For a stored literal,
/// the parse decides between number and label text. For an expression
/// part: a successful parse is the part's value; otherwise a lone cell
/// reference is looked up, with a `TEXT` error for label text, the stored
/// error propagated, and an absent cell standing in for zero; otherwise
/// the part splits at its first operator, or fails as `ERR` if it has
/// none.
pub open spec fn feed_num(task: TaskV, values: Map<(usize, usize), Val>, reply: Option<u64>) -> Outcome {
    match task {
        TaskV::Lit { text } => match reply {
            Option::Some(v) => Outcome::Finished(Val::VNum(v)),
            Option::None => Outcome::Finished(Val::VText(text)),
        },
        TaskV::Expr { cur, stack } => match reply {
            Option::Some(v) => fold_step(v, stack),
            Option::None => match spec_cell_ref(cur) {
                Option::Some(x) => {
                    if values.contains_key(x) {
                        match values[x] {
                            Val::VNum(v) => fold_step(v, stack),
                            Val::VText(_) => Outcome::Finished(Val::VError("TEXT"@)),
                            Val::VError(e) => Outcome::Finished(Val::VError(e)),
                        }
                    } else {
                        fold_step(0u64, stack)
                    }
                },
                Option::None => match first_op(cur, 0) {
                    Option::Some(i) => Outcome::More(
                        TaskV::Expr {
                            cur: trim_sp(cur.take(i)),
                            stack: stack.push(
                                FrameV::RightOf {
                                    op: cur[i],
                                    right: cur.skip(i + 1),
                                },
                            ),
                        },
                    ),
                    Option::None => Outcome::Finished(Val::VError("ERR"@)),
                },
            },
        },
        // An operator request is not answered by a parse; the task stands.
        TaskV::Apply { .. } => Outcome::More(task),
    }
}

/// One machine step from an answered operator request: the answer stands
/// for the application's result and is handed back to the pending work.
pub open spec fn feed_op(task: TaskV, reply: u64) -> Outcome {
    match task {
        TaskV::Apply { op, lhs, rhs, stack } => fold_step(reply, stack),
        // A parse request is not answered by an operator; the task stands.
        _ => Outcome::More(task),
    }
}

/// Where evaluating a raw formula text starts: empty text is already the
/// empty label, text starting with `=` is an expression, and anything else
/// is a literal-or-label.
pub open spec fn start_task(f: Seq<char>) -> Outcome {
    let t = trim_sp(f);
    if t.len() == 0 {
        Outcome::Finished(Val::VText(Seq::empty()))
    } else if t[0] == '=' {
        Outcome::More(TaskV::Expr { cur: trim_sp(t.drop_first()), stack: Seq::empty() })
    } else {
        Outcome::More(TaskV::Lit { text: t })
    }
}

/// Weight of a pending frame in the evaluation measure.
pub open spec fn frame_measure(f: FrameV) -> nat {
    match f {
        FrameV::RightOf { right, .. } => 4 * right.len() + 3,
        FrameV::Combine { .. } => 1,
    }
}

/// Weight of a stack of pending frames.
pub open spec fn stack_measure(s: Seq<FrameV>) -> nat
    decreases s.len(),
{
    if s.len() == 0 {
        0
    } else {
        stack_measure(s.drop_last()) + frame_measure(s.last())
    }
}

/// A termination measure for one cell evaluation: every answered request
/// strictly shrinks it (see the two lemmas below), so an evaluation
/// reaches its value after finitely many answers, whatever the answers
/// are.
pub open spec fn task_measure(t: TaskV) -> nat {
    match t {
        TaskV::Lit { .. } => 1,
        TaskV::Expr { cur, stack } => 4 * cur.len() + 2 + stack_measure(stack),
        TaskV::Apply { stack, .. } => 1 + stack_measure(stack),
    }
}

/// A found first operator lies within the text.
pub proof fn lemma_first_op_in_range(s: Seq<char>, j: int, i: int)
    requires
        first_op(s, j) == Some(i),
        0 <= j,
    ensures
        j <= i < s.len(),
    decreases s.len() - j,
{
    if j < s.len() && !op_char(s[j]) {
        lemma_first_op_in_range(s, j + 1, i);
    }
}

/// The split inequality over the components: pushing the remainder and
/// keeping a left part no longer than the split point costs less than the
/// undivided text, because the operator character itself is consumed.
proof fn lemma_split_measure(
    c2: Seq<char>,
    cur: Seq<char>,
    stack: Seq<FrameV>,
    opc: char,
    rt: Seq<char>,
    i: int,
)
    requires
        0 <= i < cur.len(),
        c2.len() <= i,
        rt.len() == cur.len() - i - 1,
    ensures
        task_measure(
            TaskV::Expr { cur: c2, stack: stack.push(FrameV::RightOf { op: opc, right: rt }) },
        ) < task_measure(TaskV::Expr { cur, stack }),
{
    let f = FrameV::RightOf { op: opc, right: rt };
    lemma_stack_measure_push(stack, f);
    assert(stack_measure(stack.push(f)) == stack_measure(stack) + 4 * rt.len() + 3);
}

/// The first-operator split leaves strictly less pending text: the
/// operator character itself is consumed.
proof fn lemma_split_decreases(cur: Seq<char>, stack: Seq<FrameV>, i: int)
    requires
        first_op(cur, 0) == Some(i),
    ensures
        task_measure(
            TaskV::Expr {
                cur: trim_sp(cur.take(i)),
                stack: stack.push(FrameV::RightOf { op: cur[i], right: cur.skip(i + 1) }),
            },
        ) < task_measure(TaskV::Expr { cur, stack }),
{
    lemma_first_op_in_range(cur, 0, i);
    crate::text::lemma_trim_len(cur.take(i));
    lemma_split_measure(trim_sp(cur.take(i)), cur, stack, cur[i], cur.skip(i + 1), i);
}

/// Pushing one frame adds exactly its weight.
proof fn lemma_stack_measure_push(stack: Seq<FrameV>, f: FrameV)
    ensures
        stack_measure(stack.push(f)) == stack_measure(stack) + frame_measure(f),
{
    let pushed = stack.push(f);
    assert(pushed.drop_last() =~= stack);
    assert(pushed.last() == f);
}

/// Handing a value back to the pending work lands at or below the weight
/// of that pending work.
proof fn lemma_fold_step_bound(v: u64, stack: Seq<FrameV>)
    ensures
        match fold_step(v, stack) {
            Outcome::More(t2) => task_measure(t2) <= stack_measure(stack),
            Outcome::Finished(_) => true,
        },
{
    if stack.len() > 0 {
        let rest = stack.drop_last();
        match stack.last() {
            FrameV::RightOf { op, right } => {
                crate::text::lemma_trim_len(right);
                let pushed = rest.push(FrameV::Combine { op, lhs: v });
                assert(pushed.drop_last() =~= rest);
                assert(pushed.last() == FrameV::Combine { op, lhs: v });
            },
            FrameV::Combine { op, lhs } => {},
        }
    }
}

/// An answered parse request either finishes the cell or leaves strictly
/// less work: with `lemma_feed_op_decreases`, one cell evaluation always
/// terminates, whatever the caller answers.
pub proof fn lemma_feed_num_decreases(
    task: TaskV,
    values: Map<(usize, usize), Val>,
    reply: Option<u64>,
)
    requires
        request_of(task) is NeedNum,
    ensures
        match feed_num(task, values, reply) {
            Outcome::More(t2) => task_measure(t2) < task_measure(task),
            Outcome::Finished(_) => true,
        },
{
    match task {
        TaskV::Lit { .. } => {},
        TaskV::Expr { cur, stack } => {
            match reply {
                Option::Some(v) => {
                    lemma_fold_step_bound(v, stack);
                },
                Option::None => {
                    match spec_cell_ref(cur) {
                        Option::Some(x) => {
                            if values.contains_key(x) {
                                match values[x] {
                                    Val::VNum(v) => {
                                        lemma_fold_step_bound(v, stack);
                                    },
                                    Val::VText(_) => {},
                                    Val::VError(_) => {},
                                }
                            } else {
                                lemma_fold_step_bound(0u64, stack);
                            }
                        },
                        Option::None => {
                            match first_op(cur, 0) {
                                Option::Some(i) => {
                                    lemma_split_decreases(cur, stack, i);
                                    assert(feed_num(task, values, reply) == Outcome::More(
                                        TaskV::Expr {
                                            cur: trim_sp(cur.take(i)),
                                            stack: stack.push(
                                                FrameV::RightOf {
                                                    op: cur[i],
                                                    right: cur.skip(i + 1),
                                                },
                                            ),
                                        },
                                    ));
                                },
                                Option::None => {},
                            }
                        },
                    }
                },
            }
        },
        TaskV::Apply { .. } => {},
    }
}

/// An answered operator request either finishes the cell or leaves
/// strictly less work.
pub proof fn lemma_feed_op_decreases(task: TaskV, reply: u64)
    requires
        request_of(task) is NeedOp,
    ensures
        match feed_op(task, reply) {
            Outcome::More(t2) => task_measure(t2) < task_measure(task),
            Outcome::Finished(_) => true,
        },
{
    match task {
        TaskV::Apply { op, lhs, rhs, stack } => {
            lemma_fold_step_bound(reply, stack);
        },
        _ => {},
    }
}

/// Executable mirror of `Outcome`.
pub enum Stepped {
    More(Task),
    Finished(CellValue),
}

impl View for Stepped {
    type V = Outcome;

    open spec fn view(&self) -> Outcome {
        match self {
            Stepped::More(t) => Outcome::More(t@),
            Stepped::Finished(v) => Outcome::Finished(v@),
        }
    }
}

/// Index of the first operator character in `s`, executably.
fn find_first_op(s: &str) -> (r: Option<usize>)
    ensures
        match r {
            Option::Some(i) => first_op(s@, 0) == Some(i as int) && i < s@.len(),
            Option::None => first_op(s@, 0) is None,
        },
{
    let n = s.unicode_len();
    let mut i: usize = 0;
    while i < n
        invariant
            0 <= i <= n,
            n == s@.len(),
            first_op(s@, 0) == first_op(s@, i as int),
        decreases n - i,
    {
        let c = s.get_char(i);
        if c == '+' || c == '-' || c == '*' || c == '/' {
            return Some(i);
        }
        proof {
            assert(first_op(s@, i as int) == first_op(s@, i + 1));
        }
        i += 1;
    }
    None
}

/// Executable `fold_step`.
pub(crate) fn exec_fold(v: u64, stack: Vec<Frame>) -> (r: Stepped)
    ensures
        r@ == fold_step(v, stack_view(stack@)),
{
    let ghost s0 = stack_view(stack@);
    let mut rest = stack;
    let popped = rest.pop();
    match popped {
        Option::None => {
            proof {
                assert(s0.len() == 0);
            }
            Stepped::Finished(CellValue::Number(v))
        },
        Option::Some(f) => {
            proof {
                assert(s0.last() == f@);
                assert(stack_view(rest@) =~= s0.drop_last());
            }
            match f {
                Frame::RightOf { op, right } => {
                    let cur = crate::text::trim_str(right.as_str());
                    rest.push(Frame::Combine { op, lhs: v });
                    proof {
                        assert(stack_view(rest@) =~= s0.drop_last().push(
                            FrameV::Combine { op, lhs: v },
                        ));
                    }
                    Stepped::More(Task::Expr { cur, stack: rest })
                },
                Frame::Combine { op, lhs } => {
                    if op == '/' && zero_bits(v) {
                        Stepped::Finished(CellValue::Error(String::from_str("DIV0")))
                    } else {
                        Stepped::More(Task::Apply { op, lhs, rhs: v, stack: rest })
                    }
                },
            }
        },
    }
}

/// Executable `feed_num`, reading referenced cells from the backing value
/// vector.
pub(crate) fn exec_feed_num(task: Task, values: &Vec<Option<CellValue>>, reply: Option<u64>) -> (r:
    Stepped)
    requires
        values@.len() == ROWS * COLS,
    ensures
        r@ == feed_num(task@, values_view(values@), reply),
{
    match task {
        Task::Lit { text } => match reply {
            Option::Some(v) => Stepped::Finished(CellValue::Number(v)),
            Option::None => Stepped::Finished(CellValue::Text(text)),
        },
        Task::Expr { cur, stack } => match reply {
            Option::Some(v) => exec_fold(v, stack),
            Option::None => {
                match parse_cell_reference(cur.as_str()) {
                    Option::Some(x) => {
                        proof {
                            lemma_idx_bounds(x);
                        }
                        let i = x.0 * COLS + x.1;
                        let ghost vm = values_view(values@);
                        proof {
                            assert(idx(x) == i);
                            assert(vm.contains_key(x) <==> values@[i as int] is Some);
                            if vm.contains_key(x) {
                                assert(vm[x] == (values@[i as int]->0)@);
                            }
                        }
                        let slot = &values[i];
                        match slot {
                            Option::Some(CellValue::Number(v)) => exec_fold(*v, stack),
                            Option::Some(CellValue::Text(_)) => Stepped::Finished(
                                CellValue::Error(String::from_str("TEXT")),
                            ),
                            Option::Some(CellValue::Error(e)) => Stepped::Finished(
                                CellValue::Error(e.clone()),
                            ),
                            Option::None => exec_fold(0u64, stack),
                        }
                    },
                    Option::None => {
                        match find_first_op(cur.as_str()) {
                            Option::Some(i) => {
                                let mut stack = stack;
                                let n = cur.as_str().unicode_len();
                                let op = cur.as_str().get_char(i);
                                let left = trim_str(cur.as_str().substring_char(0, i));
                                let right = cur.as_str().substring_char(i + 1, n).to_owned();
                                proof {
                                    assert(cur@.subrange(0, i as int) =~= cur@.take(i as int));
                                    assert(right@ =~= cur@.skip(i + 1));
                                }
                                let ghost st0 = stack_view(stack@);
                                let ghost rv = right@;
                                stack.push(Frame::RightOf { op, right });
                                proof {
                                    assert(stack_view(stack@) =~= st0.push(
                                        FrameV::RightOf { op, right: rv },
                                    ));
                                }
                                Stepped::More(Task::Expr { cur: left, stack })
                            },
                            Option::None => Stepped::Finished(
                                CellValue::Error(String::from_str("ERR")),
                            ),
                        }
                    },
                }
            },
        },
        Task::Apply { op, lhs, rhs, stack } => Stepped::More(
            Task::Apply { op, lhs, rhs, stack },
        ),
    }
}

/// Executable `feed_op`.
pub(crate) fn exec_feed_op(task: Task, reply: u64) -> (r: Stepped)
    ensures
        r@ == feed_op(task@, reply),
{
    match task {
        Task::Apply { op, lhs, rhs, stack } => exec_fold(reply, stack),
        Task::Lit { text } => Stepped::More(Task::Lit { text }),
        Task::Expr { cur, stack } => Stepped::More(Task::Expr { cur, stack }),
    }
}

/// Executable `start_task`.
pub(crate) fn exec_start(f: &str) -> (r: Stepped)
    ensures
        r@ == start_task(f@),
{
    let t = trim_str(f);
    let n = t.as_str().unicode_len();
    if n == 0 {
        proof {
            assert(t@ =~= Seq::<char>::empty());
        }
        Stepped::Finished(CellValue::Text(t))
    } else if t.as_str().get_char(0) == '=' {
        let cur = trim_str(t.as_str().substring_char(1, n));
        proof {
            assert(t@.subrange(1, n as int) =~= t@.drop_first());
        }
        let stack: Vec<Frame> = Vec::new();
        proof {
            assert(stack_view(stack@) =~= Seq::<FrameV>::empty());
        }
        Stepped::More(Task::Expr { cur, stack })
    } else {
        Stepped::More(Task::Lit { text: t })
    }
}

} // verus!
