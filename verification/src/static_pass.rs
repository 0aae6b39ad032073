//! What the static-timing pass does to a whole control program. The pass is
//! structured bottom up: the children of a `seq` or `par` are visited (and
//! lowered) before its finish hook sees it, so a tree of `seq` and `par`
//! blocks over statically timed groups becomes a single group.
use vstd::prelude::*;
use crate::action::Action;
use crate::errors::Error;
use crate::ir::{Component, Control, Group};
use crate::static_timing::{
    StaticFold, all_static, finish_par_result, finish_seq_result, fold_fits, fold_options,
    lemma_fold_options_value, seq_max, seq_sum, static_times, unwrap_times,
};
use crate::trace::{
    Hook, HookCall, Shape, has_shape, lemma_max_height_drop_first, lemma_stmts_run_advances,
    lemma_visit_run_advances, stmts_run, visit_run,
};
use crate::visitor::{height, lemma_max_height, max_height};

verus! {

/// A call that a hook of the static-timing pass makes, by the contracts of
/// its hooks: `finish_seq` and `finish_par` as [finish_seq_result] and
/// [finish_par_result] state, leaving the node itself; the hooks that the
/// pass leaves to their defaults answer `Continue` and change nothing. Of
/// `finish_if` and `finish_while` nothing is said here.
pub open spec fn static_timing_call(e: HookCall) -> bool {
    match e.hook {
        Hook::FinishSeq => e.node matches Control::Sequence(s) && e.new_node == e.node
            && finish_seq_result(s, e.comp, e.new_comp, e.answer),
        Hook::FinishPar => e.node matches Control::Par(s) && e.new_node == e.node
            && finish_par_result(s, e.comp, e.new_comp, e.answer),
        Hook::FinishIf => true,
        Hook::FinishWhile => true,
        _ => e.answer == Ok::<Action, Error>(Action::Continue) && e.new_node == e.node
            && e.new_comp == e.comp,
    }
}

/// The static time of a tree of `seq` and `par` blocks whose leaves enable
/// statically timed groups of `groups`: the sum of the times of the
/// statements of a `seq`, the greatest for a `par`; `None` for any other
/// program, and where a time does not stay below `u64::MAX`.
pub open spec fn static_tree(c: Control, groups: Seq<Group>) -> Option<u64>
    decreases c,
{
    match c {
        Control::Enable(e) => if e.group < groups.len() {
            groups[e.group as int].static_time
        } else {
            None
        },
        Control::Sequence(s) => {
            let items = tree_times(s.stmts@, groups);
            match fold_options(items, 0, StaticFold::Sum) {
                Some(v) => if fold_fits(items, 0, StaticFold::Sum) && v < u64::MAX {
                    Some(v as u64)
                } else {
                    None
                },
                None => None,
            }
        },
        Control::Par(s) => {
            let items = tree_times(s.stmts@, groups);
            match fold_options(items, 0, StaticFold::Max) {
                Some(v) => if v < u64::MAX {
                    Some(v as u64)
                } else {
                    None
                },
                None => None,
            }
        },
        _ => None,
    }
}

/// [static_tree] of each statement.
pub open spec fn tree_times(ss: Seq<Control>, groups: Seq<Group>) -> Seq<Option<u64>>
    decreases ss,
{
    if ss.len() == 0 {
        Seq::empty()
    } else {
        seq![static_tree(ss[0], groups)] + tree_times(ss.drop_first(), groups)
    }
}

/// The number of `seq` and `par` blocks in a program.
pub open spec fn blocks(c: Control) -> nat
    decreases c,
{
    match c {
        Control::Sequence(s) => 1 + stmts_blocks(s.stmts@),
        Control::Par(s) => 1 + stmts_blocks(s.stmts@),
        _ => 0,
    }
}

/// [blocks] of each statement, added up.
pub open spec fn stmts_blocks(ss: Seq<Control>) -> nat
    decreases ss,
{
    if ss.len() == 0 {
        0
    } else {
        blocks(ss[0]) + stmts_blocks(ss.drop_first())
    }
}

/// `g2` holds the groups of `g1` at their positions, and maybe more after.
pub open spec fn groups_extend(g2: Seq<Group>, g1: Seq<Group>) -> bool {
    &&& g1.len() <= g2.len()
    &&& forall|j: int| 0 <= j < g1.len() ==> #[trigger] g2[j] == g1[j]
}

/// `sh` is exactly the enable of a group of `groups` whose static time is
/// `t`.
pub open spec fn enables_timed(sh: Shape, groups: Seq<Group>, t: Option<u64>) -> bool {
    sh matches Shape::Exactly(Control::Enable(e)) && e.group < groups.len() && groups[e.group as int].static_time == t
}

/// The time of each statement is at its position.
pub proof fn lemma_tree_times_index(ss: Seq<Control>, groups: Seq<Group>)
    ensures
        tree_times(ss, groups).len() == ss.len(),
        forall|i: int| 0 <= i < ss.len() ==> #[trigger] tree_times(ss, groups)[i] == static_tree(ss[i], groups),
    decreases ss.len(),
{
    if ss.len() > 0 {
        lemma_tree_times_index(ss.drop_first(), groups);
        assert forall|i: int| 0 <= i < ss.len() implies #[trigger] tree_times(ss, groups)[i] == static_tree(ss[i], groups) by {
            if i > 0 {
                assert(ss.drop_first()[i - 1] == ss[i]);
            }
        }
    }
}

/// A tree keeps its time when groups are added after the ones it enables.
pub proof fn lemma_static_tree_extend(c: Control, g1: Seq<Group>, g2: Seq<Group>)
    requires
        static_tree(c, g1) is Some,
        groups_extend(g2, g1),
    ensures
        static_tree(c, g2) == static_tree(c, g1),
    decreases c,
{
    match c {
        Control::Sequence(s) => {
            lemma_tree_times_extend(s.stmts@, g1, g2, StaticFold::Sum);
        },
        Control::Par(s) => {
            lemma_tree_times_extend(s.stmts@, g1, g2, StaticFold::Max);
        },
        _ => {},
    }
}

/// As [lemma_static_tree_extend], for the times of statements that all have
/// one.
pub proof fn lemma_tree_times_extend(ss: Seq<Control>, g1: Seq<Group>, g2: Seq<Group>, op: StaticFold)
    requires
        fold_options(tree_times(ss, g1), 0, op) is Some,
        groups_extend(g2, g1),
    ensures
        tree_times(ss, g2) == tree_times(ss, g1),
    decreases ss,
{
    lemma_tree_times_index(ss, g1);
    lemma_tree_times_index(ss, g2);
    lemma_fold_options_value(tree_times(ss, g1));
    assert forall|i: int| 0 <= i < ss.len() implies #[trigger] tree_times(ss, g2)[i] == tree_times(ss, g1)[i] by {
        assert(tree_times(ss, g1)[i] is Some);
        lemma_static_tree_extend(ss[i], g1, g2);
    }
    assert(tree_times(ss, g2) =~= tree_times(ss, g1));
}

/// The visit by the static-timing pass of a tree of `seq` and `par` blocks
/// over statically timed groups: read off a log whose calls are those of the
/// pass's hooks, it answers `Continue`, leaves the enable of one group whose
/// static time is the tree's, adds one group for each block, and keeps the
/// groups there were.
pub proof fn lemma_static_tree_lowered(c: Control, comp: Component, comps: Seq<Component>, log: Seq<HookCall>, p: int)
    requires
        static_tree(c, comp.groups@) is Some,
        visit_run(c, comp, comps, log, p) is Some,
        forall|i: int|
            p <= i < visit_run(c, comp, comps, log, p).unwrap().0 ==> static_timing_call(#[trigger] log[i]),
    ensures
        ({
            let (q, sh, comp1, r) = visit_run(c, comp, comps, log, p).unwrap();
            &&& r == Ok::<Action, Error>(Action::Continue)
            &&& enables_timed(sh, comp1.groups@, static_tree(c, comp.groups@))
            &&& comp1.groups@.len() == comp.groups@.len() + blocks(c)
            &&& groups_extend(comp1.groups@, comp.groups@)
        }),
    decreases height(c), 1nat, 0nat,
{
    let q = visit_run(c, comp, comps, log, p).unwrap().0;
    lemma_visit_run_advances(c, comp, comps, log, p);
    let e = log[p];
    assert(static_timing_call(e));
    match c {
        Control::Sequence(s) => {
            let ss = s.stmts@;
            lemma_tree_times_index(ss, comp.groups@);
            lemma_fold_options_value(tree_times(ss, comp.groups@));
            lemma_stmts_run_advances(ss, comp, comps, log, p + 1);
            let (q1, shs, comp1, r1) = stmts_run(ss, comp, comps, log, p + 1).unwrap();
            assert(q1 <= q);
            assert forall|i: int| 0 <= i < ss.len() implies (#[trigger] static_tree(
                ss[i],
                comp.groups@,
            )) is Some by {
                assert(tree_times(ss, comp.groups@)[i] is Some);
            }
            lemma_static_stmts_lowered(ss, comp, comps, log, p + 1);
            let f = log[q1];
            assert(static_timing_call(f));
            let s2 = f.node->Sequence_0;
            let items = static_times(s2.stmts@, comp1.groups@);
            assert(items =~= tree_times(ss, comp.groups@)) by {
                assert forall|i: int| 0 <= i < ss.len() implies #[trigger] items[i] == tree_times(ss, comp.groups@)[i] by {
                    assert(has_shape(s2.stmts@[i], shs[i]));
                }
            }
            vstd::std_specs::vec::axiom_spec_len(&comp1.groups);
        },
        Control::Par(s) => {
            let ss = s.stmts@;
            lemma_tree_times_index(ss, comp.groups@);
            lemma_fold_options_value(tree_times(ss, comp.groups@));
            lemma_stmts_run_advances(ss, comp, comps, log, p + 1);
            let (q1, shs, comp1, r1) = stmts_run(ss, comp, comps, log, p + 1).unwrap();
            assert(q1 <= q);
            assert forall|i: int| 0 <= i < ss.len() implies (#[trigger] static_tree(
                ss[i],
                comp.groups@,
            )) is Some by {
                assert(tree_times(ss, comp.groups@)[i] is Some);
            }
            lemma_static_stmts_lowered(ss, comp, comps, log, p + 1);
            let f = log[q1];
            assert(static_timing_call(f));
            let s2 = f.node->Par_0;
            let items = static_times(s2.stmts@, comp1.groups@);
            assert(items =~= tree_times(ss, comp.groups@)) by {
                assert forall|i: int| 0 <= i < ss.len() implies #[trigger] items[i] == tree_times(ss, comp.groups@)[i] by {
                    assert(has_shape(s2.stmts@[i], shs[i]));
                }
            }
            vstd::std_specs::vec::axiom_spec_len(&comp1.groups);
        },
        _ => {},
    }
}

/// As [lemma_static_tree_lowered], for statements that are all such trees:
/// each is left the enable of a group with its time.
pub proof fn lemma_static_stmts_lowered(ss: Seq<Control>, comp: Component, comps: Seq<Component>, log: Seq<HookCall>, p: int)
    requires
        forall|i: int| 0 <= i < ss.len() ==> (#[trigger] static_tree(ss[i], comp.groups@)) is Some,
        stmts_run(ss, comp, comps, log, p) is Some,
        0 <= p <= log.len(),
        forall|i: int|
            p <= i < stmts_run(ss, comp, comps, log, p).unwrap().0 ==> static_timing_call(#[trigger] log[i]),
    ensures
        ({
            let (q, shs, comp1, r) = stmts_run(ss, comp, comps, log, p).unwrap();
            &&& r == Ok::<Action, Error>(Action::Continue)
            &&& shs.len() == ss.len()
            &&& forall|i: int|
                0 <= i < ss.len() ==> enables_timed(
                    #[trigger] shs[i],
                    comp1.groups@,
                    static_tree(ss[i], comp.groups@),
                )
            &&& comp1.groups@.len() == comp.groups@.len() + stmts_blocks(ss)
            &&& groups_extend(comp1.groups@, comp.groups@)
        }),
    decreases 1 + max_height(ss), 0nat, ss.len(),
{
    let q = stmts_run(ss, comp, comps, log, p).unwrap().0;
    if ss.len() > 0 {
        lemma_max_height(ss, 0);
        lemma_max_height_drop_first(ss);
        assert(static_tree(ss[0], comp.groups@) is Some);
        lemma_visit_run_advances(ss[0], comp, comps, log, p);
        let (q0, sh, comp1, r1) = visit_run(ss[0], comp, comps, log, p).unwrap();
        assert(q0 <= q) by {
            if r1 is Ok && !(r1 == Ok::<Action, Error>(Action::Stop)) {
                lemma_stmts_run_advances(ss.drop_first(), comp1, comps, log, q0);
            }
        }
        lemma_static_tree_lowered(ss[0], comp, comps, log, p);
        let rest = ss.drop_first();
        assert forall|i: int| 0 <= i < rest.len() implies (#[trigger] static_tree(rest[i], comp1.groups@)) is Some by {
            assert(rest[i] == ss[i + 1]);
            assert(static_tree(ss[i + 1], comp.groups@) is Some);
            lemma_static_tree_extend(ss[i + 1], comp.groups@, comp1.groups@);
        }
        lemma_stmts_run_advances(rest, comp1, comps, log, q0);
        lemma_static_stmts_lowered(rest, comp1, comps, log, q0);
        let (q2, shs2, comp2, r2) = stmts_run(rest, comp1, comps, log, q0).unwrap();
        let shs = seq![sh] + shs2;
        assert forall|i: int|
            0 <= i < ss.len() implies enables_timed(
                #[trigger] shs[i],
                comp2.groups@,
                static_tree(ss[i], comp.groups@),
            ) by {
            if i == 0 {
                let e = sh->Exactly_0->Enable_0;
                assert(comp2.groups@[e.group as int] == comp1.groups@[e.group as int]);
            } else {
                assert(shs[i] == shs2[i - 1]);
                assert(rest[i - 1] == ss[i]);
                lemma_static_tree_extend(ss[i], comp.groups@, comp1.groups@);
            }
        }
    }
}

} // verus!
