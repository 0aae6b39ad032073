//! What the groups built by the static lowering do, cycle by cycle: guards
//! are evaluated with the FSM register holding the current state and every
//! constant cell carrying its value.
use vstd::prelude::*;
use vstd::arithmetic::power2::{pow2, lemma_pow2_unfold};
use crate::ir::{Assignment, Cell, Guard, PortComp, PortName, PortParent, PortRef, Prototype};
use crate::math_utilities::{bit_width, lemma_bit_width_bounds};
use crate::static_timing::{
    done_guard, lowered_par, lowered_seq, prefix_sum, seq_max, seq_sum, lemma_prefix_sum,
    lemma_seq_max, lemma_seq_sum_nonneg, seq_cells, par_cells, seq_assigns, par_assigns,
    seq_go_assigns, par_go_assigns, fsm_step_assigns, seq_go_guard, fsm_reset_assigns,
};

verus! {

/// The truth of a comparison.
pub open spec fn eval_comp(op: PortComp, l: int, r: int) -> bool {
    match op {
        PortComp::Eq => l == r,
        PortComp::Neq => l != r,
        PortComp::Gt => l > r,
        PortComp::Lt => l < r,
        PortComp::Geq => l >= r,
        PortComp::Leq => l <= r,
    }
}

/// Whether the guard holds when each port `p` carries `val(p)` (a port used
/// as a guard holds when it is not 0).
pub open spec fn eval_guard(g: Guard, val: spec_fn(PortRef) -> int) -> bool
    decreases g,
{
    match g {
        Guard::True => true,
        Guard::Port(p) => val(p) != 0,
        Guard::Not(b) => !eval_guard(*b, val),
        Guard::And(l, r) => eval_guard(*l, val) && eval_guard(*r, val),
        Guard::Or(l, r) => eval_guard(*l, val) || eval_guard(*r, val),
        Guard::CompOp(op, l, r) => eval_comp(op, val(l), val(r)),
    }
}

/// The values on the ports when the register in cell `fsm` holds `state`:
/// its `out` carries `state`, the `out` of each constant carries its value
/// (other ports are not read by the lowering's guards and carry 0 here).
pub open spec fn fsm_values(cells: Seq<Cell>, fsm: int, state: int) -> spec_fn(PortRef) -> int {
    |p: PortRef|
        match p.parent {
            PortParent::Cell(i) => if p.port == PortName::Out && i == fsm {
                state
            } else if p.port == PortName::Out && i < cells.len() {
                match cells[i as int].prototype {
                    Prototype::Constant { value, .. } => value as int,
                    _ => 0,
                }
            } else {
                0
            },
            PortParent::Group(_) => 0,
        }
}

/// Every constant among `cells` fits in its width.
pub open spec fn constants_fit(cells: Seq<Cell>) -> bool {
    forall|k: int|
        0 <= k < cells.len() ==> (#[trigger] cells[k].prototype matches Prototype::Constant {
            value,
            width,
        } ==> value < pow2(width as nat))
}

/// The `i`-th statement of a lowered static `seq` is started exactly during
/// its own window of cycles: from the sum of the times before it, for its
/// own time.
pub proof fn lemma_seq_schedule(
    old: crate::ir::Component,
    new: crate::ir::Component,
    ts: Seq<u64>,
    gs: Seq<usize>,
    i: int,
    state: int,
)
    requires
        lowered_seq(old, new, ts, gs),
        seq_sum(ts) < u64::MAX,
        new.cells@.len() <= usize::MAX,
        gs.len() == ts.len(),
        0 <= i < ts.len(),
        0 <= state,
    ensures
        ({
            let b = old.cells@.len() as int;
            let a = new.groups@[old.groups@.len() as int].assignments@[i];
            &&& a.dst == (PortRef { parent: PortParent::Group(gs[i]), port: PortName::Go })
            &&& fsm_values(new.cells@, b, state)(a.src) == 1
            &&& eval_guard(a.guard, fsm_values(new.cells@, b, state)) == (prefix_sum(ts, i)
                <= state < prefix_sum(ts, i) + ts[i])
        }),
{
    let b = old.cells@.len() as int;
    let g = old.groups@.len() as int;
    let n = ts.len() as int;
    let w = bit_width((seq_sum(ts) + 1) as nat) as u64;
    let val = fsm_values(new.cells@, b, state);
    lemma_prefix_sum(ts, i);
    let start = prefix_sum(ts, i);
    let a = new.groups@[g].assignments@[i];
    assert(a == seq_go_assigns(ts, gs, b, n)[i]);
    assert(new.cells@[b + 1] == seq_cells(ts, w)[1]);
    assert(new.cells@[b + 2 + 2 * i] == seq_cells(ts, w)[2 + 2 * i]);
    assert(new.cells@[b + 3 + 2 * i] == seq_cells(ts, w)[3 + 2 * i]);
    assert((2 * i) / 2 == i && (2 * i) % 2 == 0);
    assert((2 * i + 1) / 2 == i && (2 * i + 1) % 2 == 1);
    assert(val(out_port(b + 2 + 2 * i)) == start);
    assert(val(out_port(b + 3 + 2 * i)) == start + ts[i]);
    assert(val(out_port(b)) == state);
    let gd = seq_go_guard(ts[i], start, b, b + 2 + 2 * i, b + 3 + 2 * i);
    if ts[i] != 1 && start != 0 {
        assert(eval_guard(*gd->And_0, val) == (state >= start));
        assert(eval_guard(*gd->And_1, val) == (state < start + ts[i]));
    }
}

/// The `out` port of the cell at position `cell`.
pub open spec fn out_port(cell: int) -> PortRef {
    PortRef { parent: PortParent::Cell(cell as usize), port: PortName::Out }
}

/// The group of a lowered static `seq` is done exactly when its FSM has
/// counted to the sum of the times, and the FSM counts up until then.
pub proof fn lemma_seq_done(
    old: crate::ir::Component,
    new: crate::ir::Component,
    ts: Seq<u64>,
    gs: Seq<usize>,
    state: int,
)
    requires
        lowered_seq(old, new, ts, gs),
        seq_sum(ts) < u64::MAX,
        new.cells@.len() <= usize::MAX,
        0 <= state,
    ensures
        ({
            let b = old.cells@.len() as int;
            let g = old.groups@.len() as int;
            let n = ts.len() as int;
            let a = new.groups@[g].assignments@;
            let val = fsm_values(new.cells@, b, state);
            &&& a[n + 4].dst == (PortRef { parent: PortParent::Group(g as usize), port: PortName::Done })
            &&& eval_guard(a[n + 4].guard, val) == (state == seq_sum(ts))
            &&& a[n + 2].dst == (PortRef { parent: PortParent::Cell(b as usize), port: PortName::In })
            &&& eval_guard(a[n + 2].guard, val) == (state != seq_sum(ts))
            &&& eval_guard(a[n + 3].guard, val) == (state != seq_sum(ts))
        }),
{
    let b = old.cells@.len() as int;
    let g = old.groups@.len() as int;
    let n = ts.len() as int;
    let w = bit_width((seq_sum(ts) + 1) as nat) as u64;
    let val = fsm_values(new.cells@, b, state);
    lemma_seq_sum_nonneg(ts);
    let steps = fsm_step_assigns(b, b + 1, b + 2 * n + 2, b + 2 * n + 3, b + 2 * n + 4, g);
    let a = new.groups@[g].assignments@;
    assert(a[n + 4] == steps[4]);
    assert(a[n + 2] == steps[2]);
    assert(a[n + 3] == steps[3]);
    assert(new.cells@[b + 2 * n + 4] == seq_cells(ts, w)[2 * n + 4]);
    assert(val(out_port(b + 2 * n + 4)) == seq_sum(ts));
    assert(eval_guard(done_guard(b, b + 2 * n + 4), val) == (state == seq_sum(ts)));
}

/// The `i`-th statement of a lowered static `par` is started exactly during
/// the first cycles, as many as its own time; the group is done when its
/// FSM has counted to the greatest time.
pub proof fn lemma_par_schedule(
    old: crate::ir::Component,
    new: crate::ir::Component,
    ts: Seq<u64>,
    gs: Seq<usize>,
    i: int,
    state: int,
)
    requires
        lowered_par(old, new, ts, gs),
        seq_max(ts) < u64::MAX,
        new.cells@.len() <= usize::MAX,
        gs.len() == ts.len(),
        0 <= i < ts.len(),
        0 <= state,
    ensures
        ({
            let b = old.cells@.len() as int;
            let g = old.groups@.len() as int;
            let a = new.groups@[g].assignments@;
            let val = fsm_values(new.cells@, b, state);
            &&& a[5 + i].dst == (PortRef { parent: PortParent::Group(gs[i]), port: PortName::Go })
            &&& val(a[5 + i].src) == 1
            &&& eval_guard(a[5 + i].guard, val) == (state < ts[i])
            &&& a[4].dst == (PortRef { parent: PortParent::Group(g as usize), port: PortName::Done })
            &&& eval_guard(a[4].guard, val) == (state == seq_max(ts))
        }),
{
    let b = old.cells@.len() as int;
    let g = old.groups@.len() as int;
    let n = ts.len() as int;
    let w = bit_width((seq_max(ts) + 1) as nat) as u64;
    let val = fsm_values(new.cells@, b, state);
    lemma_seq_max(ts);
    let a = new.groups@[g].assignments@;
    assert(a[5 + i] == par_go_assigns(gs, b, n)[i]);
    assert(a[4] == fsm_step_assigns(b, b + 1, b + 2, b + 3, b + 4, g)[4]);
    assert(new.cells@[b + 1] == par_cells(ts, w)[1]);
    assert(new.cells@[b + 4] == par_cells(ts, w)[4]);
    assert(new.cells@[b + 5 + i] == par_cells(ts, w)[5 + i]);
    assert(val(out_port(b + 5 + i)) == ts[i]);
    assert(val(out_port(b + 4)) == seq_max(ts));
}

/// Every constant that the lowering of a static `seq` adds fits in its
/// width: the FSM is wide enough for all the states it counts through.
pub proof fn lemma_seq_constants_fit(
    old: crate::ir::Component,
    new: crate::ir::Component,
    ts: Seq<u64>,
    gs: Seq<usize>,
)
    requires
        lowered_seq(old, new, ts, gs),
        seq_sum(ts) < u64::MAX,
    ensures
        constants_fit(new.cells@.subrange(old.cells@.len() as int, new.cells@.len() as int)),
{
    let total = seq_sum(ts);
    let w = bit_width((total + 1) as nat) as u64;
    let added = new.cells@.subrange(old.cells@.len() as int, new.cells@.len() as int);
    assert(added =~= seq_cells(ts, w));
    lemma_seq_sum_nonneg(ts);
    lemma_width_holds(total);
    assert forall|k: int| 0 <= k < added.len() implies (#[trigger] added[k].prototype matches Prototype::Constant {
        value,
        width,
    } ==> value < pow2(width as nat)) by {
        let n = ts.len() as int;
        if 2 <= k < 2 + 2 * n {
            let i = (k - 2) / 2;
            lemma_prefix_sum(ts, i);
        }
        if k == 1 {
            lemma_pow2_unfold(1);
            vstd::arithmetic::power::lemma_pow0(2);
            reveal(pow2);
        }
    }
}

/// Every constant that the lowering of a static `par` adds fits in its
/// width.
pub proof fn lemma_par_constants_fit(
    old: crate::ir::Component,
    new: crate::ir::Component,
    ts: Seq<u64>,
    gs: Seq<usize>,
)
    requires
        lowered_par(old, new, ts, gs),
        seq_max(ts) < u64::MAX,
    ensures
        constants_fit(new.cells@.subrange(old.cells@.len() as int, new.cells@.len() as int)),
{
    let max = seq_max(ts);
    let w = bit_width((max + 1) as nat) as u64;
    let added = new.cells@.subrange(old.cells@.len() as int, new.cells@.len() as int);
    assert(added =~= par_cells(ts, w));
    lemma_width_holds(max);
    lemma_seq_max(ts);
    assert forall|k: int| 0 <= k < added.len() implies (#[trigger] added[k].prototype matches Prototype::Constant {
        value,
        width,
    } ==> value < pow2(width as nat)) by {
        if k == 1 {
            lemma_pow2_unfold(1);
            vstd::arithmetic::power::lemma_pow0(2);
            reveal(pow2);
        }
    }
}

/// An FSM of `bit_width(last + 1)` bits holds every state up to `last`, and
/// has at least one bit.
pub proof fn lemma_width_holds(last: int)
    requires
        0 <= last < u64::MAX,
    ensures
        ({
            let w = bit_width((last + 1) as nat);
            &&& 1 <= w <= 64
            &&& last < pow2(w)
            &&& 2 <= pow2(w)
        }),
{
    let w = bit_width((last + 1) as nat);
    lemma_bit_width_bounds((last + 1) as nat);
    vstd::arithmetic::power2::lemma2_to64();
    crate::math_utilities::lemma_bit_width_le((last + 1) as nat, 64);
    assert(w >= 1);
    lemma_pow2_unfold(w);
    vstd::arithmetic::power2::lemma_pow2_pos((w - 1) as nat);
}


/// The first assignment of `assigns` that drives the port `dst` and whose
/// guard holds when each port `p` carries `val(p)`.
pub open spec fn driver(assigns: Seq<Assignment>, dst: PortRef, val: spec_fn(PortRef) -> int) -> Option<
    Assignment,
>
    decreases assigns.len(),
{
    if assigns.len() == 0 {
        None
    } else if assigns[0].dst == dst && eval_guard(assigns[0].guard, val) {
        Some(assigns[0])
    } else {
        driver(assigns.drop_first(), dst, val)
    }
}

/// What the assignments `assigns` drive onto `dst` (0 when none does).
pub open spec fn driven(assigns: Seq<Assignment>, dst: PortRef, val: spec_fn(PortRef) -> int) -> int {
    match driver(assigns, dst, val) {
        Some(a) => val(a.src),
        None => 0,
    }
}

/// The value on port `p` within a cycle in which the assignments `assigns`
/// run and the register in cell `fsm` holds `state`: the `out` of an adder
/// carries the sum of what `assigns` drive onto its `left` and `right`;
/// every other port carries its value by [fsm_values].
pub open spec fn cycle_value(cells: Seq<Cell>, assigns: Seq<Assignment>, fsm: int, state: int, p: PortRef) -> int {
    let val = fsm_values(cells, fsm, state);
    match p.parent {
        PortParent::Cell(i) => if p.port == PortName::Out && i < cells.len() && cells[i as int].prototype is Add {
            driven(assigns, PortRef { parent: PortParent::Cell(i), port: PortName::Left }, val) + driven(
                assigns,
                PortRef { parent: PortParent::Cell(i), port: PortName::Right },
                val,
            )
        } else {
            val(p)
        },
        PortParent::Group(_) => val(p),
    }
}

/// Assignments that drive other ports are passed over.
pub proof fn lemma_driver_skip(x: Seq<Assignment>, y: Seq<Assignment>, dst: PortRef, val: spec_fn(PortRef) -> int)
    requires
        forall|i: int| 0 <= i < x.len() ==> (#[trigger] x[i]).dst != dst,
    ensures
        driver(x + y, dst, val) == driver(y, dst, val),
    decreases x.len(),
{
    if x.len() == 0 {
        assert(x + y =~= y);
    } else {
        assert((x + y)[0] == x[0]);
        assert((x + y).drop_first() =~= x.drop_first() + y);
        assert forall|i: int| 0 <= i < x.drop_first().len() implies (#[trigger] x.drop_first()[i]).dst != dst by {
            assert(x.drop_first()[i] == x[i + 1]);
        }
        lemma_driver_skip(x.drop_first(), y, dst, val);
    }
}

/// The counting assignments of a lowered group, while the FSM in cell `fsm`
/// holds `state` and each constant its value: the FSM is written the sum of
/// its own value and the constant 1 (held by `one`) while it is below the
/// last state (held by `last`), and not written once it is there.
proof fn lemma_fsm_step(
    cells: Seq<Cell>,
    go: Seq<Assignment>,
    fsm: int,
    sig: int,
    incr: int,
    one: int,
    last: int,
    g: int,
    state: int,
    last_value: int,
)
    requires
        0 <= fsm < sig < incr < one < last < cells.len() <= usize::MAX,
        0 <= state,
        cells[incr].prototype is Add,
        cells[sig].prototype == (Prototype::Constant { value: 1, width: 1 }),
        cells[one].prototype matches Prototype::Constant { value, .. } && value == 1,
        cells[last].prototype matches Prototype::Constant { value, .. } && value == last_value,
        forall|i: int| 0 <= i < go.len() ==> (#[trigger] go[i]).dst.parent is Group,
    ensures
        ({
            let a = go + fsm_step_assigns(fsm, sig, incr, one, last, g);
            let val = fsm_values(cells, fsm, state);
            let fsm_in = PortRef { parent: PortParent::Cell(fsm as usize), port: PortName::In };
            let fsm_we = PortRef { parent: PortParent::Cell(fsm as usize), port: PortName::WriteEn };
            &&& state != last_value ==> (driver(a, fsm_in, val) matches Some(d) && cycle_value(
                cells,
                a,
                fsm,
                state,
                d.src,
            ) == state + 1)
            &&& state != last_value ==> (driver(a, fsm_we, val) matches Some(d) && val(d.src) == 1)
            &&& state == last_value ==> driver(a, fsm_in, val) is None && driver(a, fsm_we, val) is None
        }),
{
    let steps = fsm_step_assigns(fsm, sig, incr, one, last, g);
    let a = go + steps;
    let val = fsm_values(cells, fsm, state);
    let fsm_in = PortRef { parent: PortParent::Cell(fsm as usize), port: PortName::In };
    let fsm_we = PortRef { parent: PortParent::Cell(fsm as usize), port: PortName::WriteEn };
    let left = PortRef { parent: PortParent::Cell(incr as usize), port: PortName::Left };
    let right = PortRef { parent: PortParent::Cell(incr as usize), port: PortName::Right };
    assert forall|i: int| 0 <= i < go.len() implies (#[trigger] go[i]).dst != fsm_in by {
        assert(go[i].dst.parent is Group);
    }
    assert forall|i: int| 0 <= i < go.len() implies (#[trigger] go[i]).dst != fsm_we by {
        assert(go[i].dst.parent is Group);
    }
    assert forall|i: int| 0 <= i < go.len() implies (#[trigger] go[i]).dst != left by {
        assert(go[i].dst.parent is Group);
    }
    assert forall|i: int| 0 <= i < go.len() implies (#[trigger] go[i]).dst != right by {
        assert(go[i].dst.parent is Group);
    }
    lemma_driver_skip(go, steps, fsm_in, val);
    lemma_driver_skip(go, steps, fsm_we, val);
    lemma_driver_skip(go, steps, left, val);
    lemma_driver_skip(go, steps, right, val);
    assert(val(out_port(fsm)) == state);
    assert(val(out_port(last)) == last_value);
    assert(val(out_port(one)) == 1);
    assert(val(out_port(sig)) == 1);
    assert(eval_guard(done_guard(fsm, last), val) == (state == last_value));
    reveal_with_fuel(driver, 6);
    assert(fsm as usize != incr as usize);
    assert(fsm as usize != one as usize);
    assert(driver(steps, left, val) == Some(steps[0]));
    assert(driver(steps, right, val) == Some(steps[1]));
}

/// While the group of a lowered static `seq` is not done, each cycle writes
/// its FSM register the current state plus one (the adder of the FSM and
/// the constant 1); once the FSM holds the sum of the times, the group
/// writes it no more.
pub proof fn lemma_seq_fsm_counts(
    old: crate::ir::Component,
    new: crate::ir::Component,
    ts: Seq<u64>,
    gs: Seq<usize>,
    state: int,
)
    requires
        lowered_seq(old, new, ts, gs),
        seq_sum(ts) < u64::MAX,
        new.cells@.len() <= usize::MAX,
        gs.len() == ts.len(),
        0 <= state,
    ensures
        ({
            let b = old.cells@.len() as int;
            let a = new.groups@[old.groups@.len() as int].assignments@;
            let val = fsm_values(new.cells@, b, state);
            let fsm_in = PortRef { parent: PortParent::Cell(b as usize), port: PortName::In };
            let fsm_we = PortRef { parent: PortParent::Cell(b as usize), port: PortName::WriteEn };
            &&& state < seq_sum(ts) ==> (driver(a, fsm_in, val) matches Some(d) && cycle_value(
                new.cells@,
                a,
                b,
                state,
                d.src,
            ) == state + 1)
            &&& state < seq_sum(ts) ==> (driver(a, fsm_we, val) matches Some(d) && val(d.src) == 1)
            &&& state == seq_sum(ts) ==> driver(a, fsm_in, val) is None && driver(a, fsm_we, val)
                is None
        }),
{
    let b = old.cells@.len() as int;
    let g = old.groups@.len() as int;
    let n = ts.len() as int;
    let w = bit_width((seq_sum(ts) + 1) as nat) as u64;
    lemma_seq_sum_nonneg(ts);
    let go = seq_go_assigns(ts, gs, b, n);
    assert(new.groups@[g].assignments@ == go + fsm_step_assigns(b, b + 1, b + 2 * n + 2, b + 2 * n + 3, b + 2 * n + 4, g));
    assert forall|i: int| 0 <= i < go.len() implies (#[trigger] go[i]).dst.parent is Group by {}
    assert(new.cells@[b + 1] == seq_cells(ts, w)[1]);
    assert(new.cells@[b + 2 * n + 2] == seq_cells(ts, w)[2 * n + 2]);
    assert(new.cells@[b + 2 * n + 3] == seq_cells(ts, w)[2 * n + 3]);
    assert(new.cells@[b + 2 * n + 4] == seq_cells(ts, w)[2 * n + 4]);
    lemma_fsm_step(new.cells@, go, b, b + 1, b + 2 * n + 2, b + 2 * n + 3, b + 2 * n + 4, g, state, seq_sum(ts));
}

/// While the group of a lowered static `par` is not done, each cycle writes
/// its FSM register the current state plus one; once the FSM holds the
/// greatest time, the group writes it no more.
pub proof fn lemma_par_fsm_counts(
    old: crate::ir::Component,
    new: crate::ir::Component,
    ts: Seq<u64>,
    gs: Seq<usize>,
    state: int,
)
    requires
        lowered_par(old, new, ts, gs),
        seq_max(ts) < u64::MAX,
        new.cells@.len() <= usize::MAX,
        gs.len() == ts.len(),
        0 <= state,
    ensures
        ({
            let b = old.cells@.len() as int;
            let a = new.groups@[old.groups@.len() as int].assignments@;
            let val = fsm_values(new.cells@, b, state);
            let fsm_in = PortRef { parent: PortParent::Cell(b as usize), port: PortName::In };
            let fsm_we = PortRef { parent: PortParent::Cell(b as usize), port: PortName::WriteEn };
            &&& state < seq_max(ts) ==> (driver(a, fsm_in, val) matches Some(d) && cycle_value(
                new.cells@,
                a,
                b,
                state,
                d.src,
            ) == state + 1)
            &&& state < seq_max(ts) ==> (driver(a, fsm_we, val) matches Some(d) && val(d.src) == 1)
            &&& state == seq_max(ts) ==> driver(a, fsm_in, val) is None && driver(a, fsm_we, val)
                is None
        }),
{
    let b = old.cells@.len() as int;
    let g = old.groups@.len() as int;
    let n = ts.len() as int;
    let w = bit_width((seq_max(ts) + 1) as nat) as u64;
    lemma_seq_max(ts);
    let steps = fsm_step_assigns(b, b + 1, b + 2, b + 3, b + 4, g);
    let go = par_go_assigns(gs, b, n);
    let empty = Seq::<Assignment>::empty();
    assert(new.groups@[g].assignments@ == steps + go);
    assert(new.cells@[b + 1] == par_cells(ts, w)[1]);
    assert(new.cells@[b + 2] == par_cells(ts, w)[2]);
    assert(new.cells@[b + 3] == par_cells(ts, w)[3]);
    assert(new.cells@[b + 4] == par_cells(ts, w)[4]);
    lemma_fsm_step(new.cells@, empty, b, b + 1, b + 2, b + 3, b + 4, g, state, seq_max(ts));
    assert(empty + steps =~= steps);
    let val = fsm_values(new.cells@, b, state);
    let fsm_in = PortRef { parent: PortParent::Cell(b as usize), port: PortName::In };
    let fsm_we = PortRef { parent: PortParent::Cell(b as usize), port: PortName::WriteEn };
    let left = PortRef { parent: PortParent::Cell((b + 2) as usize), port: PortName::Left };
    let right = PortRef { parent: PortParent::Cell((b + 2) as usize), port: PortName::Right };
    reveal_with_fuel(driver, 3);
    assert(driver(steps, left, val) is Some);
    assert(driver(steps, right, val) is Some);
    lemma_driver_prefix(steps, go, fsm_in, val);
    lemma_driver_prefix(steps, go, fsm_we, val);
    lemma_driver_prefix(steps, go, left, val);
    lemma_driver_prefix(steps, go, right, val);
    assert forall|i: int| 0 <= i < go.len() implies (#[trigger] go[i]).dst != fsm_in by {}
    assert forall|i: int| 0 <= i < go.len() implies (#[trigger] go[i]).dst != fsm_we by {}
    lemma_driver_skip(go, empty, fsm_in, val);
    lemma_driver_skip(go, empty, fsm_we, val);
    assert(go + empty =~= go);
    if state < seq_max(ts) {
        let d = driver(steps, fsm_in, val).unwrap();
        assert(eval_guard(done_guard(b, b + 4), val) == (state == seq_max(ts))) by {
            assert(val(out_port(b)) == state);
            assert(val(out_port(b + 4)) == seq_max(ts));
        }
        assert(d == steps[2]);
        assert(d.src == out_port(b + 2));
        assert(driven(steps + go, left, val) == driven(steps, left, val));
        assert(driven(steps + go, right, val) == driven(steps, right, val));
        assert(cycle_value(new.cells@, steps, b, state, d.src) == state + 1);
        assert(cycle_value(new.cells@, steps + go, b, state, d.src) == cycle_value(
            new.cells@,
            steps,
            b,
            state,
            d.src,
        ));
    }
}

/// An assignment found among the first ones is found among them followed by
/// more; where none is found among the first ones, it is looked for among
/// the rest.
pub proof fn lemma_driver_prefix(x: Seq<Assignment>, y: Seq<Assignment>, dst: PortRef, val: spec_fn(PortRef) -> int)
    ensures
        driver(x, dst, val) is Some ==> driver(x + y, dst, val) == driver(x, dst, val),
        driver(x, dst, val) is None ==> driver(x + y, dst, val) == driver(y, dst, val),
    decreases x.len(),
{
    if x.len() > 0 {
        assert((x + y)[0] == x[0]);
        assert((x + y).drop_first() =~= x.drop_first() + y);
        lemma_driver_prefix(x.drop_first(), y, dst, val);
    } else {
        assert(x + y =~= y);
    }
}

/// The continuous assignments added by the lowering put the FSM register
/// back to 0 (writing it) exactly in the cycles in which it holds the last
/// state `last_value`.
proof fn lemma_fsm_reset(
    cells: Seq<Cell>,
    fsm: int,
    sig: int,
    reset: int,
    last: int,
    state: int,
    last_value: int,
)
    requires
        0 <= fsm < sig < last < reset < cells.len() <= usize::MAX,
        0 <= state,
        cells[sig].prototype == (Prototype::Constant { value: 1, width: 1 }),
        cells[reset].prototype matches Prototype::Constant { value, .. } && value == 0,
        cells[last].prototype matches Prototype::Constant { value, .. } && value == last_value,
    ensures
        ({
            let ca = fsm_reset_assigns(fsm, sig, reset, last);
            let val = fsm_values(cells, fsm, state);
            let fsm_in = PortRef { parent: PortParent::Cell(fsm as usize), port: PortName::In };
            let fsm_we = PortRef { parent: PortParent::Cell(fsm as usize), port: PortName::WriteEn };
            &&& (driver(ca, fsm_in, val) is Some <==> state == last_value)
            &&& (driver(ca, fsm_in, val) matches Some(d) ==> val(d.src) == 0)
            &&& (driver(ca, fsm_we, val) is Some <==> state == last_value)
            &&& (driver(ca, fsm_we, val) matches Some(d) ==> val(d.src) == 1)
        }),
{
    let val = fsm_values(cells, fsm, state);
    assert(val(out_port(fsm)) == state);
    assert(val(out_port(last)) == last_value);
    assert(val(out_port(reset)) == 0);
    assert(val(out_port(sig)) == 1);
    assert(eval_guard(done_guard(fsm, last), val) == (state == last_value));
    reveal_with_fuel(driver, 3);
}

/// The continuous assignments that the lowering of a static `seq` adds write
/// the FSM register exactly in the cycles in which it holds the sum of the
/// times, putting it back to 0.
pub proof fn lemma_seq_fsm_resets(
    old: crate::ir::Component,
    new: crate::ir::Component,
    ts: Seq<u64>,
    gs: Seq<usize>,
    state: int,
)
    requires
        lowered_seq(old, new, ts, gs),
        seq_sum(ts) < u64::MAX,
        new.cells@.len() <= usize::MAX,
        0 <= state,
    ensures
        ({
            let b = old.cells@.len() as int;
            let ca = new.continuous_assignments@.subrange(
                old.continuous_assignments@.len() as int,
                new.continuous_assignments@.len() as int,
            );
            let val = fsm_values(new.cells@, b, state);
            let fsm_in = PortRef { parent: PortParent::Cell(b as usize), port: PortName::In };
            let fsm_we = PortRef { parent: PortParent::Cell(b as usize), port: PortName::WriteEn };
            &&& (driver(ca, fsm_in, val) is Some <==> state == seq_sum(ts))
            &&& (driver(ca, fsm_in, val) matches Some(d) ==> val(d.src) == 0)
            &&& (driver(ca, fsm_we, val) is Some <==> state == seq_sum(ts))
            &&& (driver(ca, fsm_we, val) matches Some(d) ==> val(d.src) == 1)
        }),
{
    let b = old.cells@.len() as int;
    let n = ts.len() as int;
    let w = bit_width((seq_sum(ts) + 1) as nat) as u64;
    lemma_seq_sum_nonneg(ts);
    let ca = new.continuous_assignments@.subrange(
        old.continuous_assignments@.len() as int,
        new.continuous_assignments@.len() as int,
    );
    assert(ca =~= fsm_reset_assigns(b, b + 1, b + 2 * n + 5, b + 2 * n + 4));
    assert(new.cells@[b + 1] == seq_cells(ts, w)[1]);
    assert(new.cells@[b + 2 * n + 4] == seq_cells(ts, w)[2 * n + 4]);
    assert(new.cells@[b + 2 * n + 5] == seq_cells(ts, w)[2 * n + 5]);
    lemma_fsm_reset(new.cells@, b, b + 1, b + 2 * n + 5, b + 2 * n + 4, state, seq_sum(ts));
}

/// The continuous assignments that the lowering of a static `par` adds write
/// the FSM register exactly in the cycles in which it holds the greatest
/// time, putting it back to 0.
pub proof fn lemma_par_fsm_resets(
    old: crate::ir::Component,
    new: crate::ir::Component,
    ts: Seq<u64>,
    gs: Seq<usize>,
    state: int,
)
    requires
        lowered_par(old, new, ts, gs),
        seq_max(ts) < u64::MAX,
        new.cells@.len() <= usize::MAX,
        0 <= state,
    ensures
        ({
            let b = old.cells@.len() as int;
            let ca = new.continuous_assignments@.subrange(
                old.continuous_assignments@.len() as int,
                new.continuous_assignments@.len() as int,
            );
            let val = fsm_values(new.cells@, b, state);
            let fsm_in = PortRef { parent: PortParent::Cell(b as usize), port: PortName::In };
            let fsm_we = PortRef { parent: PortParent::Cell(b as usize), port: PortName::WriteEn };
            &&& (driver(ca, fsm_in, val) is Some <==> state == seq_max(ts))
            &&& (driver(ca, fsm_in, val) matches Some(d) ==> val(d.src) == 0)
            &&& (driver(ca, fsm_we, val) is Some <==> state == seq_max(ts))
            &&& (driver(ca, fsm_we, val) matches Some(d) ==> val(d.src) == 1)
        }),
{
    let b = old.cells@.len() as int;
    let n = ts.len() as int;
    let w = bit_width((seq_max(ts) + 1) as nat) as u64;
    lemma_seq_max(ts);
    let ca = new.continuous_assignments@.subrange(
        old.continuous_assignments@.len() as int,
        new.continuous_assignments@.len() as int,
    );
    assert(ca =~= fsm_reset_assigns(b, b + 1, b + 5 + n, b + 4));
    assert(new.cells@[b + 1] == par_cells(ts, w)[1]);
    assert(new.cells@[b + 4] == par_cells(ts, w)[4]);
    assert(new.cells@[b + 5 + n] == par_cells(ts, w)[5 + n]);
    lemma_fsm_reset(new.cells@, b, b + 1, b + 5 + n, b + 4, state, seq_max(ts));
}

} // verus!
