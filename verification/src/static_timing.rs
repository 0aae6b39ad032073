//! Optimized lowering for control statements that only contain groups with
//! the "static" attribute.
use vstd::prelude::*;
use crate::action::{Action, VisResult};
use crate::errors::{CalyxResult, Error};
use crate::math_utilities::get_bit_width_from;
use crate::visitor::{Named, Visitor};
use crate::trace::HookNote;
use crate::ir::{
    Assignment, Cell, Component, Control, Enable, Group, Guard, If, LibrarySignatures, Par,
    PortComp, PortName, PortParent, PortRef, Prototype, Sequence, While, assignment_wf,
    assignments_wf, control_wf, lemma_assignments_wf_mono, lemma_control_wf_mono,
    lemma_stmts_wf_rec, guard_wf,
};
use crate::math_utilities::bit_width;
use itertools::Itertools;

verus! {

/// The name of the pass that removes combinational groups, which has to run
/// before this one.
pub const REMOVE_COMB_GROUPS: &'static str = "remove-comb-groups";

// ---------------------------------------------------------------------------
// Static times of statements and how they are accumulated.
// ---------------------------------------------------------------------------

/// The static time of a statement: that of the group it enables, where the
/// statement is an enable and the group has one; `None` otherwise.
pub open spec fn stmt_static_time(c: Control, groups: Seq<Group>) -> Option<u64> {
    match c {
        Control::Enable(e) => groups[e.group as int].static_time,
        _ => None,
    }
}

/// The static time of each statement.
pub open spec fn static_times(stmts: Seq<Control>, groups: Seq<Group>) -> Seq<Option<u64>> {
    stmts.map_values(|c: Control| stmt_static_time(c, groups))
}

/// Every enable among the statements names one of the groups.
pub open spec fn enables_in(stmts: Seq<Control>, ngroups: nat) -> bool {
    forall|i: int|
        0 <= i < stmts.len() ==> (#[trigger] stmts[i] matches Control::Enable(e) ==> e.group
            < ngroups)
}

/// How the static times of the statements are combined.
#[derive(Clone, Copy, Debug, PartialEq, Eq, Structural)]
pub enum StaticFold {
    /// The greatest time: statements that run in parallel.
    Max,
    /// The sum of the times: statements that run one after the other.
    Sum,
}

/// One step of the accumulation.
pub open spec fn fold_step(op: StaticFold, acc: int, x: int) -> int {
    match op {
        StaticFold::Max => if acc >= x {
            acc
        } else {
            x
        },
        StaticFold::Sum => acc + x,
    }
}

impl StaticFold {
    /// One step of the accumulation: `max(acc, x)` or `acc + x`.
    pub fn combine(self, acc: u64, x: u64) -> (r: u64)
        requires
            fold_step(self, acc as int, x as int) <= u64::MAX,
        ensures
            r == fold_step(self, acc as int, x as int),
    {
        match self {
            StaticFold::Max => if acc >= x {
                acc
            } else {
                x
            },
            StaticFold::Sum => acc + x,
        }
    }
}

/// Folds the values left to right from `init`; `None` as soon as an item is
/// `None`.
pub open spec fn fold_options(items: Seq<Option<u64>>, init: int, op: StaticFold) -> Option<int>
    decreases items.len(),
{
    if items.len() == 0 {
        Some(init)
    } else {
        match fold_options(items.drop_last(), init, op) {
            Some(acc) => match items.last() {
                Some(v) => Some(fold_step(op, acc, v as int)),
                None => None,
            },
            None => None,
        }
    }
}

/// Every step that `fold_options` takes stays within `u64` (the steps after
/// the first `None` are not taken).
pub open spec fn fold_fits(items: Seq<Option<u64>>, init: int, op: StaticFold) -> bool
    decreases items.len(),
{
    if items.len() == 0 {
        0 <= init <= u64::MAX
    } else {
        &&& fold_fits(items.drop_last(), init, op)
        &&& match (fold_options(items.drop_last(), init, op), items.last()) {
            (Some(acc), Some(v)) => fold_step(op, acc, v as int) <= u64::MAX,
            _ => true,
        }
    }
}

/// The value of an optional `u64` as an integer.
pub open spec fn opt_int(o: Option<u64>) -> Option<int> {
    match o {
        Some(v) => Some(v as int),
        None => None,
    }
}

/// The sum of the values.
pub open spec fn seq_sum(s: Seq<u64>) -> int
    decreases s.len(),
{
    if s.len() == 0 {
        0
    } else {
        seq_sum(s.drop_last()) + s.last()
    }
}

/// The greatest value (0 for none).
pub open spec fn seq_max(s: Seq<u64>) -> int
    decreases s.len(),
{
    if s.len() == 0 {
        0
    } else {
        vstd::math::max(seq_max(s.drop_last()), s.last() as int)
    }
}

/// Every statement has a static time.
pub open spec fn all_static(items: Seq<Option<u64>>) -> bool {
    forall|i: int| 0 <= i < items.len() ==> #[trigger] items[i] is Some
}

/// The static times, where every statement has one.
pub open spec fn unwrap_times(items: Seq<Option<u64>>) -> Seq<u64> {
    items.map_values(|o: Option<u64>| o.unwrap())
}

/// A fold that met a `None` stays `None` and keeps fitting, whatever follows.
pub proof fn lemma_fold_none_stays(items: Seq<Option<u64>>, init: int, op: StaticFold, k: int)
    requires
        0 <= k <= items.len(),
        fold_options(items.take(k), init, op) is None,
        fold_fits(items.take(k), init, op),
    ensures
        fold_options(items, init, op) is None,
        fold_fits(items, init, op),
    decreases items.len(),
{
    if items.len() == k {
        assert(items.take(k) =~= items);
    } else {
        assert(items.drop_last().take(k) =~= items.take(k));
        lemma_fold_none_stays(items.drop_last(), init, op, k);
    }
}

/// The fold of a prefix one longer is one step further.
pub proof fn lemma_fold_take_step(items: Seq<Option<u64>>, init: int, op: StaticFold, i: int)
    requires
        0 <= i < items.len(),
    ensures
        fold_options(items.take(i + 1), init, op) == (match fold_options(items.take(i), init, op) {
            Some(acc) => match items[i] {
                Some(v) => Some(fold_step(op, acc, v as int)),
                None => None,
            },
            None => None,
        }),
        fold_fits(items.take(i + 1), init, op) == (fold_fits(items.take(i), init, op) && match (
            fold_options(items.take(i), init, op),
            items[i],
        ) {
            (Some(acc), Some(v)) => fold_step(op, acc, v as int) <= u64::MAX,
            _ => true,
        }),
{
    assert(items.take(i + 1).drop_last() =~= items.take(i));
}

/// Accumulating gives `None` exactly when some item is `None`; otherwise the
/// sum (for `Sum` from 0) or the greatest value (for `Max` from 0).
pub proof fn lemma_fold_options_value(items: Seq<Option<u64>>)
    ensures
        fold_options(items, 0, StaticFold::Sum) == (if all_static(items) {
            Some(seq_sum(unwrap_times(items)))
        } else {
            None::<int>
        }),
        fold_options(items, 0, StaticFold::Max) == (if all_static(items) {
            Some(seq_max(unwrap_times(items)))
        } else {
            None::<int>
        }),
    decreases items.len(),
{
    if items.len() > 0 {
        lemma_fold_options_value(items.drop_last());
        assert(unwrap_times(items).drop_last() =~= unwrap_times(items.drop_last()));
        if all_static(items) {
            assert(all_static(items.drop_last()));
            assert(items.last() == items[items.len() - 1]);
        } else if all_static(items.drop_last()) {
            assert(items.last() is None) by {
                let k = choose|k: int| 0 <= k < items.len() && !(#[trigger] items[k] is Some);
                if k < items.len() - 1 {
                    assert(items.drop_last()[k] is Some);
                }
            }
        }
    }
}

/// Accumulating the static times gives `None` as soon as one statement is
/// not an enable (a compound statement, an invoke or an empty one), whatever
/// the accumulator.
pub proof fn lemma_accumulate_none(stmts: Seq<Control>, groups: Seq<Group>, i: int, op: StaticFold)
    requires
        0 <= i < stmts.len(),
        !(stmts[i] is Enable),
    ensures
        fold_options(static_times(stmts, groups), 0, op) is None,
{
    let items = static_times(stmts, groups);
    assert(!(items[i] is Some));
    lemma_fold_options_value(items);
}

/// Collapses a sequence of optional static times with itertools'
/// `fold_options`, combining the values with `op` from `init`. Claimed: the
/// values are combined left to right, and the result is `None` as soon as an
/// item is `None` (`fold_options` in the spec functions above).
#[verifier::external_body]
fn fold_static_times(items: Vec<Option<u64>>, init: u64, op: StaticFold) -> (r: Option<u64>)
    requires
        fold_fits(items@, init as int, op),
    ensures
        opt_int(r) == fold_options(items@, init as int, op),
{
    items.into_iter().fold_options(init, |acc, x| op.combine(acc, x))
}

/// Collects the static time of each statement, using `acc` to combine them.
/// Returns `None` if any of the statements is not an enable of a group with
/// a static time.
pub fn accumulate_static_time(stmts: &[Control], groups: &[Group], acc: StaticFold) -> (r: Option<
    u64,
>)
    requires
        enables_in(stmts@, groups@.len()),
        fold_fits(static_times(stmts@, groups@), 0, acc),
    ensures
        opt_int(r) == fold_options(static_times(stmts@, groups@), 0, acc),
{
    let mut items: Vec<Option<u64>> = Vec::new();
    let n = stmts.len();
    let mut i: usize = 0;
    while i < n
        invariant
            n == stmts@.len(),
            i <= n,
            enables_in(stmts@, groups@.len()),
            items@.len() == i,
            forall|j: int| 0 <= j < i ==> #[trigger] items@[j] == stmt_static_time(stmts@[j], groups@),
        decreases n - i,
    {
        let t = match &stmts[i] {
            Control::Enable(data) => {
                assert(stmts@[i as int] matches Control::Enable(e) ==> e.group < groups@.len());
                groups[data.group].static_time
            },
            _ => None,
        };
        items.push(t);
        i += 1;
    }
    assert(items@ =~= static_times(stmts@, groups@));
    fold_static_times(items, 0, acc)
}

/// Whether adding up the static times of the statements, as
/// [accumulate_static_time] does with [StaticFold::Sum], stays within `u64`.
pub fn static_sum_fits(stmts: &[Control], groups: &[Group]) -> (r: bool)
    requires
        enables_in(stmts@, groups@.len()),
    ensures
        r == fold_fits(static_times(stmts@, groups@), 0, StaticFold::Sum),
{
    let ghost items = static_times(stmts@, groups@);
    let n = stmts.len();
    let mut acc: u64 = 0;
    let mut i: usize = 0;
    assert(items.take(0) =~= Seq::<Option<u64>>::empty());
    while i < n
        invariant
            n == stmts@.len(),
            items == static_times(stmts@, groups@),
            i <= n,
            enables_in(stmts@, groups@.len()),
            fold_fits(items.take(i as int), 0, StaticFold::Sum),
            fold_options(items.take(i as int), 0, StaticFold::Sum) == Some(acc as int),
        decreases n - i,
    {
        proof {
            lemma_fold_take_step(items, 0, StaticFold::Sum, i as int);
        }
        let t = match &stmts[i] {
            Control::Enable(data) => {
                assert(stmts@[i as int] matches Control::Enable(e) ==> e.group < groups@.len());
                groups[data.group].static_time
            },
            _ => None,
        };
        assert(t == items[i as int]);
        match t {
            None => {
                proof {
                    lemma_fold_none_stays(items, 0, StaticFold::Sum, i + 1);
                }
                return true;
            },
            Some(v) => {
                if acc > u64::MAX - v {
                    proof {
                        if fold_fits(items, 0, StaticFold::Sum) {
                            lemma_fits_prefix(items, 0, StaticFold::Sum, i + 1);
                        }
                    }
                    return false;
                }
                acc = acc + v;
            },
        }
        i += 1;
    }
    assert(items.take(n as int) =~= items);
    true
}

/// A fold that fits fits on every prefix.
pub proof fn lemma_fits_prefix(items: Seq<Option<u64>>, init: int, op: StaticFold, k: int)
    requires
        0 <= k <= items.len(),
        fold_fits(items, init, op),
    ensures
        fold_fits(items.take(k), init, op),
    decreases items.len(),
{
    if items.len() == k {
        assert(items.take(k) =~= items);
    } else {
        assert(items.drop_last().take(k) =~= items.take(k));
        lemma_fits_prefix(items.drop_last(), init, op, k);
    }
}

/// The message of the error for a group that takes less than one cycle.
pub open spec fn comb_group_message(name: Seq<char>) -> Seq<char> {
    "static-timing: Group `"@ + name
        + "` is a combinational group (it takes less than one cycle to run). Run `"@
        + REMOVE_COMB_GROUPS@ + "` to remove all combinational groups before running static-timing."@
}

/// Attempts to get the value of the "static" attribute from the group if
/// present. Also ensures that the group is not a combinational group.
pub fn check_not_comb(group: &Group) -> (r: CalyxResult<Option<u64>>)
    ensures
        match group.static_time {
            Some(t) => if t < 1 {
                r matches Err(Error::MalformedControl(m)) && m@ == comb_group_message(group.name@)
            } else {
                r == Ok::<Option<u64>, Error>(Some(t))
            },
            None => r == Ok::<Option<u64>, Error>(None),
        },
{
    if let Some(time) = group.static_time {
        if time < 1 {
            let mut m = String::from_str("static-timing: Group `");
            m.append(group.name.as_str());
            m.append(
                "` is a combinational group (it takes less than one cycle to run). Run `",
            );
            m.append(REMOVE_COMB_GROUPS);
            m.append("` to remove all combinational groups before running static-timing.");
            Err(Error::MalformedControl(m))
        } else {
            Ok(Some(time))
        }
    } else {
        Ok(None)
    }
}

// ---------------------------------------------------------------------------
// What the lowering of a static `seq` and of a static `par` builds.
// ---------------------------------------------------------------------------

/// The port `port` of the cell at position `cell`.
pub open spec fn cell_port(cell: int, port: PortName) -> PortRef {
    PortRef { parent: PortParent::Cell(cell as usize), port }
}

/// The `out` port of the cell at position `cell`.
pub open spec fn out(cell: int) -> PortRef {
    cell_port(cell, PortName::Out)
}

/// The hole `port` of the group at position `group`.
pub open spec fn hole(group: int, port: PortName) -> PortRef {
    PortRef { parent: PortParent::Group(group as usize), port }
}

/// `std_reg(width)`.
pub open spec fn reg_cell(width: u64) -> Cell {
    Cell { prototype: Prototype::Reg { width } }
}

/// `std_add(width)`.
pub open spec fn add_cell(width: u64) -> Cell {
    Cell { prototype: Prototype::Add { width } }
}

/// The constant `value` of the given width.
pub open spec fn const_cell(value: int, width: u64) -> Cell {
    Cell { prototype: Prototype::Constant { value: value as u64, width } }
}

/// The sum of the first `i` values: the cycle at which the `i`-th statement
/// of a static `seq` starts.
pub open spec fn prefix_sum(ts: Seq<u64>, i: int) -> int {
    seq_sum(ts.take(i))
}

/// The group each statement enables (0 for a statement that is not an
/// enable).
pub open spec fn enable_groups(stmts: Seq<Control>) -> Seq<usize> {
    stmts.map_values(
        |c: Control|
            match c {
                Control::Enable(e) => e.group,
                _ => 0,
            },
    )
}

/// `fsm.out == last.out`: the FSM has counted to its last state.
pub open spec fn done_guard(fsm: int, last: int) -> Guard {
    Guard::CompOp(PortComp::Eq, out(fsm), out(last))
}

/// `dst = guard ? src`.
pub open spec fn assign(dst: PortRef, src: PortRef, guard: Guard) -> Assignment {
    Assignment { dst, src, guard }
}

/// The counting logic of a static group `g` driven by the register `fsm`:
/// `incr = one + fsm`, `fsm` takes `incr` while not done, and the group is
/// done when `fsm` equals `last`. `sig` is the constant 1 of width 1.
pub open spec fn fsm_step_assigns(fsm: int, sig: int, incr: int, one: int, last: int, g: int) -> Seq<
    Assignment,
> {
    let done = done_guard(fsm, last);
    let not_done = Guard::Not(Box::new(done));
    seq![
        assign(cell_port(incr, PortName::Left), out(one), Guard::True),
        assign(cell_port(incr, PortName::Right), out(fsm), Guard::True),
        assign(cell_port(fsm, PortName::In), out(incr), not_done),
        assign(cell_port(fsm, PortName::WriteEn), out(sig), not_done),
        assign(hole(g, PortName::Done), out(sig), done),
    ]
}

/// The continuous assignments that put `fsm` back to `reset` (0) once it
/// reaches `last`.
pub open spec fn fsm_reset_assigns(fsm: int, sig: int, reset: int, last: int) -> Seq<Assignment> {
    let done = done_guard(fsm, last);
    seq![
        assign(cell_port(fsm, PortName::In), out(reset), done),
        assign(cell_port(fsm, PortName::WriteEn), out(sig), done),
    ]
}

/// The constants that bound each statement of a static `seq`: for the
/// `i`-th, its start cycle then its end cycle (first `m` of them).
pub open spec fn seq_bound_cells(ts: Seq<u64>, w: u64, m: int) -> Seq<Cell> {
    Seq::new(
        m as nat,
        |k: int|
            if k % 2 == 0 {
                const_cell(prefix_sum(ts, k / 2), w)
            } else {
                const_cell(prefix_sum(ts, k / 2) + ts[k / 2], w)
            },
    )
}

/// The cells that the lowering of a static `seq` adds, in order: the FSM
/// register, the constant 1, the bounds of each statement, the incrementer,
/// the constant 1 of the FSM's width, the last state and the reset value.
pub open spec fn seq_cells(ts: Seq<u64>, w: u64) -> Seq<Cell> {
    seq![reg_cell(w), const_cell(1, 1)] + seq_bound_cells(ts, w, 2 * ts.len() as int) + seq![
        add_cell(w),
        const_cell(1, w),
        const_cell(seq_sum(ts), w),
        const_cell(0, w),
    ]
}

/// When the statement that takes `t` cycles from cycle `start` runs, with
/// the FSM in cell `fsm` and the bounds in cells `start_c` and `end_c`:
/// `fsm == start` for a single cycle, `fsm < end` from cycle 0, and
/// `start <= fsm < end` otherwise.
pub open spec fn seq_go_guard(t: u64, start: int, fsm: int, start_c: int, end_c: int) -> Guard {
    if t == 1 {
        Guard::CompOp(PortComp::Eq, out(fsm), out(start_c))
    } else if start == 0 {
        Guard::CompOp(PortComp::Lt, out(fsm), out(end_c))
    } else {
        Guard::And(
            Box::new(Guard::CompOp(PortComp::Geq, out(fsm), out(start_c))),
            Box::new(Guard::CompOp(PortComp::Lt, out(fsm), out(end_c))),
        )
    }
}

/// The assignments that start each of the first `m` statements of a static
/// `seq` whose cells start at position `b`.
pub open spec fn seq_go_assigns(ts: Seq<u64>, gs: Seq<usize>, b: int, m: int) -> Seq<Assignment> {
    Seq::new(
        m as nat,
        |i: int|
            assign(
                hole(gs[i] as int, PortName::Go),
                out(b + 1),
                seq_go_guard(ts[i], prefix_sum(ts, i), b, b + 2 + 2 * i, b + 3 + 2 * i),
            ),
    )
}

/// The assignments of the group that runs a static `seq`.
pub open spec fn seq_assigns(ts: Seq<u64>, gs: Seq<usize>, b: int, g: int) -> Seq<Assignment> {
    let n = ts.len() as int;
    seq_go_assigns(ts, gs, b, n) + fsm_step_assigns(b, b + 1, b + 2 * n + 2, b + 2 * n + 3, b + 2 * n + 4, g)
}

/// `new` is `old` with a static `seq` of statements that take `ts` cycles
/// and enable the groups `gs` lowered into a new group named `name`.
pub open spec fn lowered_seq(old: Component, new: Component, ts: Seq<u64>, gs: Seq<usize>) -> bool {
    let b = old.cells@.len() as int;
    let g = old.groups@.len() as int;
    let n = ts.len() as int;
    let total = seq_sum(ts);
    let w = bit_width((total + 1) as nat) as u64;
    &&& new.name == old.name
    &&& new.control == old.control
    &&& new.cells@ == old.cells@ + seq_cells(ts, w)
    &&& new.groups@.len() == g + 1
    &&& forall|j: int| 0 <= j < g ==> #[trigger] new.groups@[j] == old.groups@[j]
    &&& new.groups@[g].name@ == "static_seq"@
    &&& new.groups@[g].static_time == Some(total as u64)
    &&& new.groups@[g].assignments@ == seq_assigns(ts, gs, b, g)
    &&& new.continuous_assignments@ == old.continuous_assignments@ + fsm_reset_assigns(
        b,
        b + 1,
        b + 2 * n + 5,
        b + 2 * n + 4,
    )
}

/// The cells that the lowering of a static `par` adds, in order: the FSM
/// register, the constant 1, the incrementer, the constant 1 of the FSM's
/// width, the last state, the end of each statement and the reset value.
pub open spec fn par_cells(ts: Seq<u64>, w: u64) -> Seq<Cell> {
    seq![reg_cell(w), const_cell(1, 1), add_cell(w), const_cell(1, w), const_cell(seq_max(ts), w)]
        + Seq::new(ts.len(), |i: int| const_cell(ts[i] as int, w)) + seq![const_cell(0, w)]
}

/// The assignments that start each of the first `m` statements of a static
/// `par` whose cells start at position `b`: `fsm < end`.
pub open spec fn par_go_assigns(gs: Seq<usize>, b: int, m: int) -> Seq<Assignment> {
    Seq::new(
        m as nat,
        |i: int|
            assign(
                hole(gs[i] as int, PortName::Go),
                out(b + 1),
                Guard::CompOp(PortComp::Lt, out(b), out(b + 5 + i)),
            ),
    )
}

/// The assignments of the group that runs a static `par`.
pub open spec fn par_assigns(gs: Seq<usize>, b: int, g: int, n: int) -> Seq<Assignment> {
    fsm_step_assigns(b, b + 1, b + 2, b + 3, b + 4, g) + par_go_assigns(gs, b, n)
}

/// `new` is `old` with a static `par` of statements that take `ts` cycles
/// and enable the groups `gs` lowered into a new group.
pub open spec fn lowered_par(old: Component, new: Component, ts: Seq<u64>, gs: Seq<usize>) -> bool {
    let b = old.cells@.len() as int;
    let g = old.groups@.len() as int;
    let n = ts.len() as int;
    let max = seq_max(ts);
    let w = bit_width((max + 1) as nat) as u64;
    &&& new.name == old.name
    &&& new.control == old.control
    &&& new.cells@ == old.cells@ + par_cells(ts, w)
    &&& new.groups@.len() == g + 1
    &&& forall|j: int| 0 <= j < g ==> #[trigger] new.groups@[j] == old.groups@[j]
    &&& new.groups@[g].name@ == "static_par"@
    &&& new.groups@[g].static_time == Some(max as u64)
    &&& new.groups@[g].assignments@ == par_assigns(gs, b, g, n)
    &&& new.continuous_assignments@ == old.continuous_assignments@ + fsm_reset_assigns(
        b,
        b + 1,
        b + 5 + n,
        b + 4,
    )
}

// ---------------------------------------------------------------------------
// Facts about sums, maxima and the lowered components.
// ---------------------------------------------------------------------------

/// The sum of the first `i + 1` values is that of the first `i` plus the
/// `i`-th; the sums of prefixes grow with the prefix and end at the total.
pub proof fn lemma_prefix_sum(ts: Seq<u64>, i: int)
    requires
        0 <= i < ts.len(),
    ensures
        prefix_sum(ts, i + 1) == prefix_sum(ts, i) + ts[i],
        prefix_sum(ts, i) >= 0,
        prefix_sum(ts, i + 1) <= seq_sum(ts),
    decreases ts.len(),
{
    assert(ts.take(i + 1).drop_last() =~= ts.take(i));
    lemma_seq_sum_nonneg(ts.take(i));
    if i + 1 == ts.len() {
        assert(ts.take(i + 1) =~= ts);
    } else {
        lemma_prefix_sum(ts.drop_last(), i);
        assert(ts.drop_last().take(i + 1) =~= ts.take(i + 1));
        assert(ts.drop_last().take(i) =~= ts.take(i));
    }
}

/// Sums of `u64` values are not negative.
pub proof fn lemma_seq_sum_nonneg(ts: Seq<u64>)
    ensures
        seq_sum(ts) >= 0,
    decreases ts.len(),
{
    if ts.len() > 0 {
        lemma_seq_sum_nonneg(ts.drop_last());
    }
}

/// The greatest of values is at most their sum.
pub proof fn lemma_seq_max_le_sum(ts: Seq<u64>)
    ensures
        seq_max(ts) <= seq_sum(ts),
    decreases ts.len(),
{
    if ts.len() > 0 {
        lemma_seq_max_le_sum(ts.drop_last());
        lemma_seq_sum_nonneg(ts.drop_last());
    }
}

/// The time of a `par` is at most that of a `seq` on the same statements:
/// the static times of statements accumulate with `Max` exactly when they
/// accumulate with `Sum`, and then to no more.
pub proof fn lemma_par_time_within_seq_time(stmts: Seq<Control>, groups: Seq<Group>)
    ensures
        match (
            fold_options(static_times(stmts, groups), 0, StaticFold::Max),
            fold_options(static_times(stmts, groups), 0, StaticFold::Sum),
        ) {
            (Some(m), Some(t)) => m <= t,
            (None, None) => true,
            _ => false,
        },
{
    let items = static_times(stmts, groups);
    lemma_fold_options_value(items);
    lemma_seq_max_le_sum(unwrap_times(items));
}

/// Taking one value out of a sum takes it off the sum.
proof fn lemma_seq_sum_remove(ts: Seq<u64>, j: int)
    requires
        0 <= j < ts.len(),
    ensures
        seq_sum(ts) == seq_sum(ts.remove(j)) + ts[j],
    decreases ts.len(),
{
    if j == ts.len() - 1 {
        assert(ts.remove(j) =~= ts.drop_last());
    } else {
        lemma_seq_sum_remove(ts.drop_last(), j);
        assert(ts.remove(j).drop_last() =~= ts.drop_last().remove(j));
        assert(ts.remove(j).last() == ts.last());
    }
}

/// The greatest value is the greater of any one value and the greatest of
/// the others.
proof fn lemma_seq_max_remove(ts: Seq<u64>, j: int)
    requires
        0 <= j < ts.len(),
    ensures
        seq_max(ts) == vstd::math::max(seq_max(ts.remove(j)), ts[j] as int),
    decreases ts.len(),
{
    if j == ts.len() - 1 {
        assert(ts.remove(j) =~= ts.drop_last());
    } else {
        lemma_seq_max_remove(ts.drop_last(), j);
        assert(ts.remove(j).drop_last() =~= ts.drop_last().remove(j));
        assert(ts.remove(j).last() == ts.last());
    }
}

/// One more step of accumulation, as [fold_options] takes it.
spec fn fold_more(acc: Option<int>, v: Option<u64>, op: StaticFold) -> Option<int> {
    match acc {
        Some(x) => match v {
            Some(w) => Some(fold_step(op, x, w as int)),
            None => None,
        },
        None => None,
    }
}

/// Accumulating gives the same as accumulating all items but one, then that
/// one.
proof fn lemma_fold_remove(items: Seq<Option<u64>>, j: int, op: StaticFold)
    requires
        0 <= j < items.len(),
    ensures
        fold_options(items, 0, op) == fold_more(fold_options(items.remove(j), 0, op), items[j], op),
{
    let rest = items.remove(j);
    lemma_fold_options_value(items);
    lemma_fold_options_value(rest);
    assert(all_static(items) <==> (all_static(rest) && items[j] is Some)) by {
        if all_static(items) {
            assert forall|i: int| 0 <= i < rest.len() implies #[trigger] rest[i] is Some by {
                if i < j {
                    assert(rest[i] == items[i]);
                } else {
                    assert(rest[i] == items[i + 1]);
                }
            }
        }
        if all_static(rest) && items[j] is Some {
            assert forall|i: int| 0 <= i < items.len() implies #[trigger] items[i] is Some by {
                if i < j {
                    assert(rest[i] == items[i]);
                } else if i > j {
                    assert(rest[i - 1] == items[i]);
                }
            }
        }
    }
    if all_static(items) {
        assert(unwrap_times(items).remove(j) =~= unwrap_times(rest));
        lemma_seq_sum_remove(unwrap_times(items), j);
        lemma_seq_max_remove(unwrap_times(items), j);
    }
}

/// The accumulated static time does not depend on the order of the
/// statements: two lists that hold the same statements, each as often,
/// accumulate to the same result.
pub proof fn lemma_accumulate_order_free(
    a: Seq<Control>,
    b: Seq<Control>,
    groups: Seq<Group>,
    op: StaticFold,
)
    requires
        a.to_multiset() == b.to_multiset(),
    ensures
        fold_options(static_times(a, groups), 0, op) == fold_options(
            static_times(b, groups),
            0,
            op,
        ),
    decreases a.len(),
{
    vstd::seq_lib::to_multiset_len(a);
    vstd::seq_lib::to_multiset_len(b);
    if a.len() > 0 {
        let x = a.last();
        vstd::seq_lib::to_multiset_contains(a, x);
        assert(a.contains(x)) by {
            assert(a[a.len() - 1] == x);
        }
        vstd::seq_lib::to_multiset_contains(b, x);
        let j = choose|j: int| 0 <= j < b.len() && b[j] == x;
        vstd::seq_lib::to_multiset_remove(a, a.len() - 1);
        vstd::seq_lib::to_multiset_remove(b, j);
        assert(a.remove(a.len() - 1) =~= a.drop_last());
        lemma_accumulate_order_free(a.drop_last(), b.remove(j), groups, op);
        let sa = static_times(a, groups);
        let sb = static_times(b, groups);
        assert(static_times(a.drop_last(), groups) =~= sa.drop_last());
        assert(static_times(b.remove(j), groups) =~= sb.remove(j));
        lemma_fold_remove(sb, j, op);
        assert(sa.last() == sb[j]);
    } else {
        assert(static_times(a, groups) =~= static_times(b, groups));
    }
}

/// The greatest of `u64` values is at least each of them and fits in `u64`.
pub proof fn lemma_seq_max(ts: Seq<u64>)
    ensures
        0 <= seq_max(ts) <= u64::MAX,
        forall|i: int| 0 <= i < ts.len() ==> ts[i] <= #[trigger] seq_max(ts),
    decreases ts.len(),
{
    if ts.len() > 0 {
        lemma_seq_max(ts.drop_last());
        assert forall|i: int| 0 <= i < ts.len() implies ts[i] <= #[trigger] seq_max(ts) by {
            if i < ts.len() - 1 {
                assert(ts[i] == ts.drop_last()[i]);
            }
        }
    }
}

/// Taking the greatest value never leaves `u64`.
pub proof fn lemma_fold_max_fits(items: Seq<Option<u64>>)
    ensures
        fold_fits(items, 0, StaticFold::Max),
        fold_options(items, 0, StaticFold::Max) matches Some(v) ==> 0 <= v <= u64::MAX,
    decreases items.len(),
{
    if items.len() > 0 {
        lemma_fold_max_fits(items.drop_last());
    }
}

/// A statement with a static time is an enable.
pub proof fn lemma_static_is_enable(stmts: Seq<Control>, groups: Seq<Group>, i: int)
    requires
        0 <= i < stmts.len(),
        static_times(stmts, groups)[i] is Some,
    ensures
        stmts[i] is Enable,
        stmts[i] matches Control::Enable(e) ==> e.group == enable_groups(stmts)[i]
            && groups[e.group as int].static_time == Some(
            unwrap_times(static_times(stmts, groups))[i],
        ),
{
}

/// The error for a `par` whose number of states does not fit in `u64`.
pub open spec fn par_overflow_message() -> Seq<char> {
    "static-timing: the latency of a static par does not fit in 64 bits"@
}

/// The error for a `seq` whose latency does not fit in `u64`.
pub open spec fn seq_overflow_message() -> Seq<char> {
    "static-timing: the latency of a static seq does not fit in 64 bits"@
}

/// The error for an `if` that still has a condition group.
pub open spec fn if_cond_message() -> Seq<char> {
    "static-timing"@ + ": condition group should be removed from if. Run `"@ + REMOVE_COMB_GROUPS@
        + "` before this pass."@
}

/// The group takes less than one cycle.
pub open spec fn is_comb(g: Group) -> bool {
    g.static_time matches Some(t) && t < 1
}

/// The error for an `if` whose two branches are static groups.
pub open spec fn static_if_message() -> Seq<char> {
    "static-timing: lowering an if whose branches are static groups is not implemented"@
}

/// The error for a `while`.
pub open spec fn while_message() -> Seq<char> {
    "static-timing: lowering a while loop is not implemented"@
}

/// The lowering of a static `par` keeps the component well formed.
pub proof fn lemma_lowered_par_wf(old: Component, new: Component, ts: Seq<u64>, gs: Seq<usize>)
    requires
        old.wf(),
        lowered_par(old, new, ts, gs),
        gs.len() == ts.len(),
        forall|i: int| 0 <= i < gs.len() ==> #[trigger] gs[i] < old.groups@.len(),
        new.cells@.len() <= usize::MAX,
    ensures
        new.wf(),
        new.extends(old),
{
    let b = old.cells@.len() as int;
    let g = old.groups@.len() as int;
    let n = ts.len() as int;
    let nc = new.cells@.len();
    let ng = new.groups@.len();
    assert(nc == b + 6 + n);
    assert forall|j: int| 0 <= j < ng implies #[trigger] assignments_wf(
        new.groups@[j].assignments@,
        nc,
        ng,
    ) by {
        if j < g {
            assert(assignments_wf(old.groups@[j].assignments@, b as nat, g as nat));
            lemma_assignments_wf_mono(old.groups@[j].assignments@, b as nat, g as nat, nc, ng);
        } else {
            let a = par_assigns(gs, b, g, n);
            assert forall|k: int| 0 <= k < a.len() implies #[trigger] assignment_wf(a[k], nc, ng) by {
                if k >= 5 {
                    assert(a[k] == par_go_assigns(gs, b, n)[k - 5]);
                } else {
                    assert(a[k] == fsm_step_assigns(b, b + 1, b + 2, b + 3, b + 4, g)[k]);
                    assert(guard_wf(done_guard(b, b + 4), nc, ng));
                }
            }
        }
    }
    lemma_assignments_wf_mono(old.continuous_assignments@, b as nat, g as nat, nc, ng);
    let c = new.continuous_assignments@;
    assert forall|k: int| 0 <= k < c.len() implies #[trigger] assignment_wf(c[k], nc, ng) by {
        if k < old.continuous_assignments@.len() {
            assert(c[k] == old.continuous_assignments@[k]);
        }
    }
    lemma_control_wf_mono(old.control, b as nat, g as nat, nc, ng);
}

/// The lowering of a static `seq` keeps the component well formed.
pub proof fn lemma_lowered_seq_wf(old: Component, new: Component, ts: Seq<u64>, gs: Seq<usize>)
    requires
        old.wf(),
        lowered_seq(old, new, ts, gs),
        gs.len() == ts.len(),
        forall|i: int| 0 <= i < gs.len() ==> #[trigger] gs[i] < old.groups@.len(),
        new.cells@.len() <= usize::MAX,
    ensures
        new.wf(),
        new.extends(old),
{
    let b = old.cells@.len() as int;
    let g = old.groups@.len() as int;
    let n = ts.len() as int;
    let nc = new.cells@.len();
    let ng = new.groups@.len();
    assert(nc == b + 6 + 2 * n);
    assert forall|j: int| 0 <= j < ng implies #[trigger] assignments_wf(
        new.groups@[j].assignments@,
        nc,
        ng,
    ) by {
        if j < g {
            assert(assignments_wf(old.groups@[j].assignments@, b as nat, g as nat));
            lemma_assignments_wf_mono(old.groups@[j].assignments@, b as nat, g as nat, nc, ng);
        } else {
            let a = seq_assigns(ts, gs, b, g);
            assert forall|k: int| 0 <= k < a.len() implies #[trigger] assignment_wf(a[k], nc, ng) by {
                if k < n {
                    assert(a[k] == seq_go_assigns(ts, gs, b, n)[k]);
                    let t = ts[k];
                    let st = prefix_sum(ts, k);
                    let gd = seq_go_guard(t, st, b, b + 2 + 2 * k, b + 3 + 2 * k);
                    if t != 1 && st != 0 {
                        assert(guard_wf(*gd->And_0, nc, ng));
                        assert(guard_wf(*gd->And_1, nc, ng));
                    }
                    assert(guard_wf(gd, nc, ng));
                } else {
                    assert(a[k] == fsm_step_assigns(
                        b,
                        b + 1,
                        b + 2 * n + 2,
                        b + 2 * n + 3,
                        b + 2 * n + 4,
                        g,
                    )[k - n]);
                    assert(guard_wf(done_guard(b, b + 2 * n + 4), nc, ng));
                }
            }
        }
    }
    lemma_assignments_wf_mono(old.continuous_assignments@, b as nat, g as nat, nc, ng);
    let c = new.continuous_assignments@;
    assert forall|k: int| 0 <= k < c.len() implies #[trigger] assignment_wf(c[k], nc, ng) by {
        if k < old.continuous_assignments@.len() {
            assert(c[k] == old.continuous_assignments@[k]);
        }
    }
    lemma_control_wf_mono(old.control, b as nat, g as nat, nc, ng);
}


/// When the fold fits, its value fits too.
pub proof fn lemma_fits_value(items: Seq<Option<u64>>, init: int, op: StaticFold)
    requires
        fold_fits(items, init, op),
    ensures
        fold_options(items, init, op) matches Some(v) ==> 0 <= v <= u64::MAX,
    decreases items.len(),
{
    if items.len() > 0 {
        lemma_fits_value(items.drop_last(), init, op);
        match (fold_options(items.drop_last(), init, op), items.last()) {
            (Some(acc), Some(v)) => {
                assert(0 <= acc);
                assert(fold_step(op, acc, v as int) >= 0);
            },
            _ => {},
        }
    }
}

/// Builds the error message for a `seq` whose latency overflows.
fn seq_overflow_error() -> (e: Error)
    ensures
        e matches Error::MalformedControl(m) && m@ == seq_overflow_message(),
{
    Error::MalformedControl(
        String::from_str("static-timing: the latency of a static seq does not fit in 64 bits"),
    )
}

/// Builds the error message for a `par` whose number of states overflows.
fn par_overflow_error() -> (e: Error)
    ensures
        e matches Error::MalformedControl(m) && m@ == par_overflow_message(),
{
    Error::MalformedControl(
        String::from_str("static-timing: the latency of a static par does not fit in 64 bits"),
    )
}

/// Optimized lowering for control statements that only contain groups with
/// the "static" attribute.
///
/// Structured as a bottom-up pass. Control constructs not compiled by this
/// pass are compiled by the generic control compilation pass.
#[derive(Default, Debug)]
pub struct StaticTiming {}

impl Named for StaticTiming {
    fn name() -> (r: &'static str)
        ensures
            r@ == "static-timing"@,
    {
        "static-timing"
    }

    fn description() -> (r: &'static str)
        ensures
            r@ == "Opportunistically compile timed groups and generate timing information when possible."@,
    {
        "Opportunistically compile timed groups and generate timing information when possible."
    }
}

/// What the static-timing pass answers at the end of a `seq` node `s` in
/// `comp`, leaving `new_comp`: the node is lowered into one group when all
/// its statements enable statically timed groups and the time fits;
/// otherwise it is left (or refused on an overflow).
pub open spec fn finish_seq_result(s: Sequence, comp: Component, new_comp: Component, r: VisResult) -> bool {
    let items = static_times(s.stmts@, comp.groups@);
    let ts = unwrap_times(items);
    if !fold_fits(items, 0, StaticFold::Sum) {
        &&& r matches Err(Error::MalformedControl(m))
        &&& m@ == seq_overflow_message()
        &&& new_comp == comp
    } else if !all_static(items) {
        r == Ok::<Action, Error>(Action::Continue) && new_comp == comp
    } else if seq_sum(ts) == u64::MAX {
        &&& r matches Err(Error::MalformedControl(m))
        &&& m@ == seq_overflow_message()
        &&& new_comp == comp
    } else {
        &&& lowered_seq(comp, new_comp, ts, enable_groups(s.stmts@))
        &&& r == Ok::<Action, Error>(
            Action::Change(
                Box::new(
                    Control::Enable(Enable { group: comp.groups@.len() as usize }),
                ),
            ),
        )
    }
}

/// What the static-timing pass answers at the end of a `par` node `s` in
/// `comp`, leaving `new_comp`: the node is lowered into one group when all
/// its statements enable statically timed groups and the time fits;
/// otherwise it is left (or refused on an overflow).
pub open spec fn finish_par_result(s: Par, comp: Component, new_comp: Component, r: VisResult) -> bool {
    let items = static_times(s.stmts@, comp.groups@);
    let ts = unwrap_times(items);
    if !all_static(items) {
        r == Ok::<Action, Error>(Action::Continue) && new_comp == comp
    } else if seq_max(ts) == u64::MAX {
        &&& r matches Err(Error::MalformedControl(m))
        &&& m@ == par_overflow_message()
        &&& new_comp == comp
    } else {
        &&& lowered_par(comp, new_comp, ts, enable_groups(s.stmts@))
        &&& r == Ok::<Action, Error>(
            Action::Change(
                Box::new(
                    Control::Enable(Enable { group: comp.groups@.len() as usize }),
                ),
            ),
        )
    }
}

impl Visitor for StaticTiming {
    /// The pass refuses some programs.
    open spec fn hooks_never_fail() -> bool {
        false
    }

    /// The pass rewrites control programs.
    open spec fn hooks_change_nothing() -> bool {
        false
    }

    /// The pass keeps no log of its hook calls.
    open spec fn keeps_log() -> bool {
        false
    }

    /// Nothing is logged.
    fn record(&mut self, call: HookNote) {
    }

    /// An `if` with a condition group is refused; so is one whose branches
    /// enable a group that takes less than one cycle. The lowering of an
    /// `if` whose branches both enable static groups is not implemented:
    /// it is refused too. Every other `if` is left to the generic pass.
    fn finish_if(
        &mut self,
        s: &mut If,
        comp: &mut Component,
        sigs: &LibrarySignatures,
        comps: &[Component],
    ) -> (r: VisResult)
        ensures
            *final(s) == *old(s),
            *final(comp) == *old(comp),
            match (*old(s).tbranch, *old(s).fbranch) {
                (Control::Enable(te), Control::Enable(fe)) => {
                    let tru = old(comp).groups@[te.group as int];
                    let fal = old(comp).groups@[fe.group as int];
                    if old(s).cond is Some {
                        r matches Err(Error::MalformedStructure(m)) && m@ == if_cond_message()
                    } else if is_comb(tru) {
                        r matches Err(Error::MalformedControl(m)) && m@ == comb_group_message(
                            tru.name@,
                        )
                    } else if is_comb(fal) {
                        r matches Err(Error::MalformedControl(m)) && m@ == comb_group_message(
                            fal.name@,
                        )
                    } else if tru.static_time is Some && fal.static_time is Some {
                        r matches Err(Error::NotImplemented(m)) && m@ == static_if_message()
                    } else {
                        r == Ok::<Action, Error>(Action::Continue)
                    }
                },
                _ => r == Ok::<Action, Error>(Action::Continue),
            },
    {
        if let Control::Enable(tdata) = &*s.tbranch {
            if let Control::Enable(fdata) = &*s.fbranch {
                let tru = tdata.group;
                let fal = fdata.group;
                assert(control_wf(*s.tbranch, comp.cells@.len(), comp.groups@.len()));
                assert(control_wf(*s.fbranch, comp.cells@.len(), comp.groups@.len()));
                if s.cond.is_some() {
                    let mut m = String::from_str(Self::name());
                    m.append(": condition group should be removed from if. Run `");
                    m.append(REMOVE_COMB_GROUPS);
                    m.append("` before this pass.");
                    return Err(Error::MalformedStructure(m));
                }
                let ttime = check_not_comb(&comp.groups[tru])?;
                let ftime = check_not_comb(&comp.groups[fal])?;
                if ttime.is_some() && ftime.is_some() {
                    return Err(
                        Error::NotImplemented(
                            String::from_str(
                                "static-timing: lowering an if whose branches are static groups is not implemented",
                            ),
                        ),
                    );
                }
            }
        }
        Ok(Action::Continue)
    }

    /// The lowering of `while` loops is not implemented: they are refused.
    fn finish_while(
        &mut self,
        s: &mut While,
        comp: &mut Component,
        sigs: &LibrarySignatures,
        comps: &[Component],
    ) -> (r: VisResult)
        ensures
            *final(s) == *old(s),
            *final(comp) == *old(comp),
            r matches Err(Error::NotImplemented(m)) && m@ == while_message(),
    {
        Err(
            Error::NotImplemented(
                String::from_str("static-timing: lowering a while loop is not implemented"),
            ),
        )
    }

    /// A `seq` whose statements are all enables of groups with static times
    /// becomes one group driven by an FSM that counts to the sum of the
    /// times; each group runs during its own window of cycles.
    #[verifier::loop_isolation(false)]
    fn finish_seq(
        &mut self,
        s: &mut Sequence,
        comp: &mut Component,
        sigs: &LibrarySignatures,
        comps: &[Component],
    ) -> (r: VisResult)
        ensures
            *final(s) == *old(s),
            finish_seq_result(*old(s), *old(comp), *final(comp), r),
    {
        let ghost c0 = *comp;
        let ghost items = static_times(s.stmts@, c0.groups@);
        let ghost ts = unwrap_times(items);
        let ghost gs = enable_groups(s.stmts@);
        proof {
            lemma_stmts_wf_rec(s.stmts@, c0.cells@.len(), c0.groups@.len());
            assert forall|i: int| 0 <= i < s.stmts@.len() implies (#[trigger] s.stmts@[i] matches Control::Enable(e) ==> e.group < c0.groups@.len()) by {
                assert(control_wf(s.stmts@[i], c0.cells@.len(), c0.groups@.len()));
            }
            lemma_fold_options_value(items);
        }
        if !static_sum_fits(s.stmts.as_slice(), comp.groups.as_slice()) {
            return Err(seq_overflow_error());
        }
        proof {
            lemma_fits_value(items, 0, StaticFold::Sum);
        }
        // If this sequence only contains groups with the "static" attribute,
        // compile it using a statically timed FSM.
        let total_time = accumulate_static_time(s.stmts.as_slice(), comp.groups.as_slice(), StaticFold::Sum);
        // Early return if this group is not compilable.
        let total = match total_time {
            None => {
                return Ok(Action::Continue);
            },
            Some(t) => t,
        };
        if total == u64::MAX {
            return Err(seq_overflow_error());
        }
        let fsm_size = get_bit_width_from(1 + total);
        // Create new group for compiling this seq.
        let seq_group = comp.add_group(String::from_str("static_seq"));
        // Add FSM register
        let fsm = comp.add_cell(Prototype::Reg { width: fsm_size });
        let signal_const = comp.add_cell(Prototype::Constant { value: 1, width: 1 });
        let ghost b = c0.cells@.len() as int;
        let ghost g = c0.groups@.len() as int;
        let ghost w = fsm_size;
        let ghost head = seq![reg_cell(w), const_cell(1, 1)];
        assert(comp.cells@ =~= c0.cells@ + head + seq_bound_cells(ts, w, 0));
        assert(comp.groups@[g].assignments@ =~= seq_go_assigns(ts, gs, b, 0));
        assert(ts.take(0) =~= Seq::<u64>::empty());
        let mut cur_cycle: u64 = 0;
        let n = s.stmts.len();
        let mut i: usize = 0;
        while i < n
            invariant
                i <= n,
                n == s.stmts@.len(),
                comp.name == c0.name,
                comp.control == c0.control,
                comp.continuous_assignments == c0.continuous_assignments,
                comp.cells@ == c0.cells@ + head + seq_bound_cells(ts, w, 2 * i),
                comp.groups@.len() == g + 1,
                forall|j: int| 0 <= j < g ==> #[trigger] comp.groups@[j] == c0.groups@[j],
                comp.groups@[g].name@ == "static_seq"@,
                comp.groups@[g].static_time is None,
                comp.groups@[g].assignments@ == seq_go_assigns(ts, gs, b, i as int),
                cur_cycle == prefix_sum(ts, i as int),
            decreases n - i,
        {
            proof {
                lemma_static_is_enable(s.stmts@, c0.groups@, i as int);
                lemma_prefix_sum(ts, i as int);
            }
            if let Control::Enable(data) = &s.stmts[i] {
                let group = data.group;
                // Static time of the group.
                let static_time: u64 = comp.groups[group].static_time.unwrap();
                let start_st = comp.add_cell(Prototype::Constant { value: cur_cycle, width: fsm_size });
                let end_st = comp.add_cell(
                    Prototype::Constant { value: cur_cycle + static_time, width: fsm_size },
                );
                // group[go] = fsm.out >= start_st & fsm.out < end_st ? 1;
                // Do not generate fsm.out >= 0: the FSM holds unsigned values,
                // so it would always be true.
                let go_guard = if static_time == 1 {
                    Guard::CompOp(
                        PortComp::Eq,
                        PortRef::cell(fsm, PortName::Out),
                        PortRef::cell(start_st, PortName::Out),
                    )
                } else if cur_cycle == 0 {
                    Guard::CompOp(
                        PortComp::Lt,
                        PortRef::cell(fsm, PortName::Out),
                        PortRef::cell(end_st, PortName::Out),
                    )
                } else {
                    Guard::And(
                        Box::new(
                            Guard::CompOp(
                                PortComp::Geq,
                                PortRef::cell(fsm, PortName::Out),
                                PortRef::cell(start_st, PortName::Out),
                            ),
                        ),
                        Box::new(
                            Guard::CompOp(
                                PortComp::Lt,
                                PortRef::cell(fsm, PortName::Out),
                                PortRef::cell(end_st, PortName::Out),
                            ),
                        ),
                    )
                };
                comp.add_group_assignment(
                    seq_group,
                    Assignment {
                        dst: PortRef::hole(group, PortName::Go),
                        src: PortRef::cell(signal_const, PortName::Out),
                        guard: go_guard,
                    },
                );
                assert(comp.cells@ =~= c0.cells@ + head + seq_bound_cells(ts, w, 2 * i + 2));
                assert(comp.groups@[g].assignments@ =~= seq_go_assigns(ts, gs, b, i + 1));
                cur_cycle = cur_cycle + static_time;
            }
            i += 1;
        }
        proof {
            assert(ts.take(n as int) =~= ts);
        }
        // Add self incrementing logic for the FSM.
        let incr = comp.add_cell(Prototype::Add { width: fsm_size });
        let one = comp.add_cell(Prototype::Constant { value: 1, width: fsm_size });
        let last = comp.add_cell(Prototype::Constant { value: cur_cycle, width: fsm_size });
        let reset_val = comp.add_cell(Prototype::Constant { value: 0, width: fsm_size });
        let _ = comp.cells.len();
        comp.add_group_assignment(
            seq_group,
            Assignment {
                dst: PortRef::cell(incr, PortName::Left),
                src: PortRef::cell(one, PortName::Out),
                guard: Guard::True,
            },
        );
        comp.add_group_assignment(
            seq_group,
            Assignment {
                dst: PortRef::cell(incr, PortName::Right),
                src: PortRef::cell(fsm, PortName::Out),
                guard: Guard::True,
            },
        );
        comp.add_group_assignment(
            seq_group,
            Assignment {
                dst: PortRef::cell(fsm, PortName::In),
                src: PortRef::cell(incr, PortName::Out),
                guard: Guard::Not(Box::new(Guard::CompOp(PortComp::Eq, PortRef::cell(fsm, PortName::Out), PortRef::cell(last, PortName::Out)))),
            },
        );
        comp.add_group_assignment(
            seq_group,
            Assignment {
                dst: PortRef::cell(fsm, PortName::WriteEn),
                src: PortRef::cell(signal_const, PortName::Out),
                guard: Guard::Not(Box::new(Guard::CompOp(PortComp::Eq, PortRef::cell(fsm, PortName::Out), PortRef::cell(last, PortName::Out)))),
            },
        );
        comp.add_group_assignment(
            seq_group,
            Assignment {
                dst: PortRef::hole(seq_group, PortName::Done),
                src: PortRef::cell(signal_const, PortName::Out),
                guard: Guard::CompOp(PortComp::Eq, PortRef::cell(fsm, PortName::Out), PortRef::cell(last, PortName::Out)),
            },
        );
        // CLEANUP: Reset the fsm to initial state once it's done.
        comp.add_continuous_assignment(Assignment {
            dst: PortRef::cell(fsm, PortName::In),
            src: PortRef::cell(reset_val, PortName::Out),
            guard: Guard::CompOp(PortComp::Eq, PortRef::cell(fsm, PortName::Out), PortRef::cell(last, PortName::Out)),
        });
        comp.add_continuous_assignment(Assignment {
            dst: PortRef::cell(fsm, PortName::WriteEn),
            src: PortRef::cell(signal_const, PortName::Out),
            guard: Guard::CompOp(PortComp::Eq, PortRef::cell(fsm, PortName::Out), PortRef::cell(last, PortName::Out)),
        });
        // Add static attribute to this group.
        comp.set_static_time(seq_group, cur_cycle);
        proof {
            assert(comp.cells@ =~= c0.cells@ + seq_cells(ts, w));
            assert(comp.continuous_assignments@ =~= c0.continuous_assignments@ + fsm_reset_assigns(b, b + 1, b + 2 * n + 5, b + 2 * n + 4));
            assert(comp.groups@[g].assignments@ =~= seq_assigns(ts, gs, b, g));
            assert(lowered_seq(c0, *comp, ts, gs));
            lemma_lowered_seq_wf(c0, *comp, ts, gs);
            lemma_control_wf_mono(
                Control::Sequence(*s),
                c0.cells@.len(),
                c0.groups@.len(),
                comp.cells@.len(),
                comp.groups@.len(),
            );
        }
        // Replace the control with the seq group.
        Ok(Action::Change(Box::new(Control::enable(seq_group))))
    }
    /// A `par` whose statements are all enables of groups with static times
    /// becomes one group driven by an FSM that counts to the greatest of the
    /// times; each group runs while the FSM is below its own time.
    #[verifier::loop_isolation(false)]
    fn finish_par(
        &mut self,
        s: &mut Par,
        comp: &mut Component,
        sigs: &LibrarySignatures,
        comps: &[Component],
    ) -> (r: VisResult)
        ensures
            *final(s) == *old(s),
            finish_par_result(*old(s), *old(comp), *final(comp), r),
    {
        let ghost c0 = *comp;
        let ghost items = static_times(s.stmts@, c0.groups@);
        let ghost ts = unwrap_times(items);
        let ghost gs = enable_groups(s.stmts@);
        proof {
            lemma_stmts_wf_rec(s.stmts@, c0.cells@.len(), c0.groups@.len());
            assert forall|i: int| 0 <= i < s.stmts@.len() implies (#[trigger] s.stmts@[i] matches Control::Enable(e) ==> e.group < c0.groups@.len()) by {
                assert(control_wf(s.stmts@[i], c0.cells@.len(), c0.groups@.len()));
            }
            lemma_fold_max_fits(items);
            lemma_fold_options_value(items);
            lemma_seq_max(ts);
        }
        // Early return if this group is not compilable.
        let max = accumulate_static_time(s.stmts.as_slice(), comp.groups.as_slice(), StaticFold::Max);
        let max_time = match max {
            None => {
                return Ok(Action::Continue);
            },
            Some(t) => t,
        };
        if max_time == u64::MAX {
            return Err(par_overflow_error());
        }
        let fsm_size = get_bit_width_from(max_time + 1);
        let par_group = comp.add_group(String::from_str("static_par"));
        comp.set_static_time(par_group, max_time);
        let fsm = comp.add_cell(Prototype::Reg { width: fsm_size });
        let signal_const = comp.add_cell(Prototype::Constant { value: 1, width: 1 });
        let incr = comp.add_cell(Prototype::Add { width: fsm_size });
        let one = comp.add_cell(Prototype::Constant { value: 1, width: fsm_size });
        let last = comp.add_cell(Prototype::Constant { value: max_time, width: fsm_size });
        comp.add_group_assignment(
            par_group,
            Assignment {
                dst: PortRef::cell(incr, PortName::Left),
                src: PortRef::cell(one, PortName::Out),
                guard: Guard::True,
            },
        );
        comp.add_group_assignment(
            par_group,
            Assignment {
                dst: PortRef::cell(incr, PortName::Right),
                src: PortRef::cell(fsm, PortName::Out),
                guard: Guard::True,
            },
        );
        comp.add_group_assignment(
            par_group,
            Assignment {
                dst: PortRef::cell(fsm, PortName::In),
                src: PortRef::cell(incr, PortName::Out),
                guard: Guard::Not(Box::new(Guard::CompOp(PortComp::Eq, PortRef::cell(fsm, PortName::Out), PortRef::cell(last, PortName::Out)))),
            },
        );
        comp.add_group_assignment(
            par_group,
            Assignment {
                dst: PortRef::cell(fsm, PortName::WriteEn),
                src: PortRef::cell(signal_const, PortName::Out),
                guard: Guard::Not(Box::new(Guard::CompOp(PortComp::Eq, PortRef::cell(fsm, PortName::Out), PortRef::cell(last, PortName::Out)))),
            },
        );
        comp.add_group_assignment(
            par_group,
            Assignment {
                dst: PortRef::hole(par_group, PortName::Done),
                src: PortRef::cell(signal_const, PortName::Out),
                guard: Guard::CompOp(PortComp::Eq, PortRef::cell(fsm, PortName::Out), PortRef::cell(last, PortName::Out)),
            },
        );
        let ghost b = c0.cells@.len() as int;
        let ghost g = c0.groups@.len() as int;
        let ghost w = fsm_size;
        let ghost head = seq![reg_cell(w), const_cell(1, 1), add_cell(w), const_cell(1, w), const_cell(seq_max(ts), w)];
        assert(comp.cells@ =~= c0.cells@ + head + Seq::new(0, |k: int| const_cell(ts[k] as int, w)));
        assert(comp.groups@[g].assignments@ =~= fsm_step_assigns(b, b + 1, b + 2, b + 3, b + 4, g) + par_go_assigns(gs, b, 0));
        let n = s.stmts.len();
        let mut i: usize = 0;
        while i < n
            invariant
                i <= n,
                n == s.stmts@.len(),
                comp.name == c0.name,
                comp.control == c0.control,
                comp.continuous_assignments == c0.continuous_assignments,
                comp.cells@ == c0.cells@ + head + Seq::new(i as nat, |k: int| const_cell(ts[k] as int, w)),
                comp.groups@.len() == g + 1,
                forall|j: int| 0 <= j < g ==> #[trigger] comp.groups@[j] == c0.groups@[j],
                comp.groups@[g].name@ == "static_par"@,
                comp.groups@[g].static_time == Some(max_time),
                comp.groups@[g].assignments@ == fsm_step_assigns(b, b + 1, b + 2, b + 3, b + 4, g) + par_go_assigns(gs, b, i as int),
            decreases n - i,
        {
            proof {
                lemma_static_is_enable(s.stmts@, c0.groups@, i as int);
            }
            if let Control::Enable(data) = &s.stmts[i] {
                let group = data.group;
                let static_time: u64 = comp.groups[group].static_time.unwrap();
                let state_const = comp.add_cell(Prototype::Constant { value: static_time, width: fsm_size });
                comp.add_group_assignment(
                    par_group,
                    Assignment {
                        dst: PortRef::hole(group, PortName::Go),
                        src: PortRef::cell(signal_const, PortName::Out),
                        guard: Guard::CompOp(PortComp::Lt, PortRef::cell(fsm, PortName::Out), PortRef::cell(state_const, PortName::Out)),
                    },
                );
                assert(comp.cells@ =~= c0.cells@ + head + Seq::new((i + 1) as nat, |k: int| const_cell(ts[k] as int, w)));
                assert(comp.groups@[g].assignments@ =~= fsm_step_assigns(b, b + 1, b + 2, b + 3, b + 4, g) + par_go_assigns(gs, b, i + 1));
            }
            i += 1;
        }
        let reset_val = comp.add_cell(Prototype::Constant { value: 0, width: fsm_size });
        let _ = comp.cells.len();
        comp.add_continuous_assignment(Assignment {
            dst: PortRef::cell(fsm, PortName::In),
            src: PortRef::cell(reset_val, PortName::Out),
            guard: Guard::CompOp(PortComp::Eq, PortRef::cell(fsm, PortName::Out), PortRef::cell(last, PortName::Out)),
        });
        comp.add_continuous_assignment(Assignment {
            dst: PortRef::cell(fsm, PortName::WriteEn),
            src: PortRef::cell(signal_const, PortName::Out),
            guard: Guard::CompOp(PortComp::Eq, PortRef::cell(fsm, PortName::Out), PortRef::cell(last, PortName::Out)),
        });
        proof {
            assert(comp.cells@ =~= c0.cells@ + par_cells(ts, w));
            assert(comp.continuous_assignments@ =~= c0.continuous_assignments@ + fsm_reset_assigns(b, b + 1, b + 5 + n, b + 4));
            assert(comp.groups@[g].assignments@ =~= par_assigns(gs, b, g, n as int));
            assert(lowered_par(c0, *comp, ts, gs));
            lemma_lowered_par_wf(c0, *comp, ts, gs);
            lemma_control_wf_mono(
                Control::Par(*s),
                c0.cells@.len(),
                c0.groups@.len(),
                comp.cells@.len(),
                comp.groups@.len(),
            );
        }
        Ok(Action::Change(Box::new(Control::enable(par_group))))
    }
}

} // verus!
