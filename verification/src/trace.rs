//! The calls that a traversal makes on a visitor, and what a traversal does
//! with their answers. A visitor that keeps a log of its hook calls (see
//! [`crate::visitor::Visitor::keeps_log`]) lets the traversal state, as a
//! function of that log, which hooks were called, in which order, on which
//! nodes, and what became of the program.
use vstd::prelude::*;
use crate::action::{Action, VisResult, spec_pop};
use crate::errors::CalyxResult;
use crate::ir::{Component, Control, Empty, PortRef};
use crate::visitor::{height, max_height, lemma_max_height};

verus! {

/// The hooks of a visitor.
pub enum Hook {
    Start,
    Finish,
    StartSeq,
    FinishSeq,
    StartPar,
    FinishPar,
    StartIf,
    FinishIf,
    StartWhile,
    FinishWhile,
    Enable,
    Invoke,
    Empty,
    /// Not a hook: the visitor's data was cleared (see
    /// [`crate::visitor::ConstructVisitor::clear_data`]).
    Clear,
}

/// One call of a hook: the node and the component it was handed, the node
/// and the component it left, its answer, and the other components it was
/// handed. For [Hook::Start] and
/// [Hook::Finish] the node is the control program of the component.
pub struct HookCall {
    pub hook: Hook,
    pub node: Control,
    pub comp: Component,
    pub new_node: Control,
    pub new_comp: Component,
    pub answer: VisResult,
    pub components: Seq<Component>,
}

/// A hook call as it is handed to [`crate::visitor::Visitor::record`].
pub type HookNote = Ghost<HookCall>;

/// The hook call made of these parts.
pub open spec fn call_of(
    hook: Hook,
    node: Control,
    comp: Component,
    new_node: Control,
    new_comp: Component,
    answer: VisResult,
    components: Seq<Component>,
) -> HookCall {
    HookCall { hook, node, comp, new_node, new_comp, answer, components }
}

/// `new` is `old` followed by more calls.
pub open spec fn log_extends(new: Seq<HookCall>, old: Seq<HookCall>) -> bool {
    &&& old.len() <= new.len()
    &&& forall|i: int| 0 <= i < old.len() ==> #[trigger] new[i] == old[i]
}

/// What a control program is known to be after a visit: exactly a given
/// program, or a compound node of the same kind whose children are known
/// in turn.
pub enum Shape {
    Exactly(Control),
    Sequence(Seq<Shape>),
    Par(Seq<Shape>),
    If(PortRef, Option<usize>, Box<Shape>, Box<Shape>),
    While(PortRef, Option<usize>, Box<Shape>),
}

/// `c` is a program of shape `sh`.
pub open spec fn has_shape(c: Control, sh: Shape) -> bool
    decreases sh,
{
    match sh {
        Shape::Exactly(d) => c == d,
        Shape::Sequence(ss) => c matches Control::Sequence(x) && x.stmts@.len() == ss.len()
            && forall|i: int| 0 <= i < ss.len() ==> has_shape(#[trigger] x.stmts@[i], ss[i]),
        Shape::Par(ss) => c matches Control::Par(x) && x.stmts@.len() == ss.len()
            && forall|i: int| 0 <= i < ss.len() ==> has_shape(#[trigger] x.stmts@[i], ss[i]),
        Shape::If(port, cond, t, f) => c matches Control::If(x) && x.port == port && x.cond == cond
            && has_shape(*x.tbranch, *t) && has_shape(*x.fbranch, *f),
        Shape::While(port, cond, b) => c matches Control::While(x) && x.port == port && x.cond
            == cond && has_shape(*x.body, *b),
    }
}

/// Each program of `cs` has the shape at its position in `ss`.
pub open spec fn has_shapes(cs: Seq<Control>, ss: Seq<Shape>) -> bool {
    &&& cs.len() == ss.len()
    &&& forall|i: int| 0 <= i < ss.len() ==> has_shape(#[trigger] cs[i], ss[i])
}

/// The shapes of programs that are left as they are.
pub open spec fn exact_shapes(cs: Seq<Control>) -> Seq<Shape> {
    cs.map_values(|c: Control| Shape::Exactly(c))
}

/// The call at position `p` of `log` is a call of `hook` handed `node`,
/// `comp` and the other components `comps`.
pub open spec fn call_at(
    log: Seq<HookCall>,
    p: int,
    hook: Hook,
    node: Control,
    comp: Component,
    comps: Seq<Component>,
) -> bool {
    &&& 0 <= p < log.len()
    &&& log[p].hook == hook
    &&& log[p].node == node
    &&& log[p].comp == comp
    &&& log[p].components == comps
}

/// The shape of the node a hook left, once a `Change` it answered has been
/// applied.
pub open spec fn changed_shape(node: Control, r: VisResult) -> Shape {
    match r {
        Ok(Action::Change(x)) => Shape::Exactly(*x),
        _ => Shape::Exactly(node),
    }
}

/// The answer once a `Change` has been applied: `Continue`.
pub open spec fn changed_answer(r: VisResult) -> VisResult {
    match r {
        Ok(Action::Change(_)) => Ok(Action::Continue),
        _ => r,
    }
}

/// A visit at a leaf: one call of its hook, whose `Change` replaces the
/// leaf.
pub open spec fn leaf_run(c: Control, hook: Hook, comp: Component, comps: Seq<Component>, log: Seq<HookCall>, p: int)
    -> Option<(int, Shape, Component, VisResult)>
{
    if !call_at(log, p, hook, c, comp, comps) {
        None
    } else {
        let e = log[p];
        Some((p + 1, changed_shape(e.new_node, e.answer), e.new_comp, changed_answer(e.answer)))
    }
}

/// What follows the children of a compound node, given where they left the
/// visit: an error ends it; otherwise `SkipChildren` counts as `Continue`,
/// and on `Continue` the finish hook is called on the node as the children
/// left it; a `Change` (of the start or the finish hook) replaces the node.
pub open spec fn finish_run(
    mid: Option<(int, Shape, Component, VisResult)>,
    hook: Hook,
    comps: Seq<Component>, log: Seq<HookCall>,
) -> Option<(int, Shape, Component, VisResult)> {
    match mid {
        None => None,
        Some((q, sh, comp, r)) => match r {
            Err(x) => Some((q, sh, comp, Err(x))),
            Ok(b) => if spec_pop(b) is Continue {
                if 0 <= q < log.len() && log[q].hook == hook && has_shape(log[q].node, sh)
                    && log[q].comp == comp && log[q].components == comps {
                    let f = log[q];
                    Some(
                        (
                            q + 1,
                            changed_shape(f.new_node, f.answer),
                            f.new_comp,
                            changed_answer(f.answer),
                        ),
                    )
                } else {
                    None
                }
            } else {
                match b {
                    Action::Change(x) => Some((q, Shape::Exactly(*x), comp, Ok(Action::Continue))),
                    _ => Some((q, sh, comp, Ok(b))),
                }
            },
        },
    }
}

/// The visit of the control program `c` in `comp`, read off the calls of
/// `log` from position `p`: the position after its last call, the shape of
/// the program it leaves, the component it leaves, and its answer; `None`
/// where the calls in `log` are not those of a visit of `c`.
///
/// The start hook of a compound node is handed the node; on `Continue` its
/// children are visited (the statements of a `seq` or `par` in order, the
/// true then the false branch of an `if`, the body of a `while`); then
/// [finish_run].
pub open spec fn visit_run(c: Control, comp: Component, comps: Seq<Component>, log: Seq<HookCall>, p: int) -> Option<
    (int, Shape, Component, VisResult),
>
    decreases height(c), 1nat, 0nat,
{
    match c {
        Control::Enable(_) => leaf_run(c, Hook::Enable, comp, comps, log, p),
        Control::Invoke(_) => leaf_run(c, Hook::Invoke, comp, comps, log, p),
        Control::Empty(_) => leaf_run(c, Hook::Empty, comp, comps, log, p),
        Control::Sequence(_) => {
            if !call_at(log, p, Hook::StartSeq, c, comp, comps) {
                None
            } else {
                let e = log[p];
                match e.new_node {
                    Control::Sequence(s1) => if height(e.new_node) > height(c) {
                        None
                    } else {
                        match e.answer {
                            Err(x) => Some((p + 1, Shape::Exactly(e.new_node), e.new_comp, Err(x))),
                            Ok(a) => {
                                let mid = if a is Continue {
                                    match stmts_run(s1.stmts@, e.new_comp, comps, log, p + 1) {
                                        Some((q, ss, comp1, r1)) => Some(
                                            (q, Shape::Sequence(ss), comp1, r1),
                                        ),
                                        None => None,
                                    }
                                } else {
                                    Some((p + 1, Shape::Exactly(e.new_node), e.new_comp, Ok(a)))
                                };
                                finish_run(mid, Hook::FinishSeq, comps, log)
                            },
                        }
                    },
                    _ => None,
                }
            }
        },
        Control::Par(_) => {
            if !call_at(log, p, Hook::StartPar, c, comp, comps) {
                None
            } else {
                let e = log[p];
                match e.new_node {
                    Control::Par(s1) => if height(e.new_node) > height(c) {
                        None
                    } else {
                        match e.answer {
                            Err(x) => Some((p + 1, Shape::Exactly(e.new_node), e.new_comp, Err(x))),
                            Ok(a) => {
                                let mid = if a is Continue {
                                    match stmts_run(s1.stmts@, e.new_comp, comps, log, p + 1) {
                                        Some((q, ss, comp1, r1)) => Some(
                                            (q, Shape::Par(ss), comp1, r1),
                                        ),
                                        None => None,
                                    }
                                } else {
                                    Some((p + 1, Shape::Exactly(e.new_node), e.new_comp, Ok(a)))
                                };
                                finish_run(mid, Hook::FinishPar, comps, log)
                            },
                        }
                    },
                    _ => None,
                }
            }
        },
        Control::If(_) => {
            if !call_at(log, p, Hook::StartIf, c, comp, comps) {
                None
            } else {
                let e = log[p];
                match e.new_node {
                    Control::If(s1) => if height(e.new_node) > height(c) {
                        None
                    } else {
                        match e.answer {
                            Err(x) => Some((p + 1, Shape::Exactly(e.new_node), e.new_comp, Err(x))),
                            Ok(a) => {
                                let m1 = if a is Continue {
                                    visit_run(*s1.tbranch, e.new_comp, comps, log, p + 1)
                                } else {
                                    Some(
                                        (p + 1, Shape::Exactly(*s1.tbranch), e.new_comp, Ok(a)),
                                    )
                                };
                                match m1 {
                                    None => None,
                                    Some((q1, tsh, comp1, r1)) => match r1 {
                                        Err(x) => Some(
                                            (
                                                q1,
                                                Shape::If(
                                                    s1.port,
                                                    s1.cond,
                                                    Box::new(tsh),
                                                    Box::new(Shape::Exactly(*s1.fbranch)),
                                                ),
                                                comp1,
                                                Err(x),
                                            ),
                                        ),
                                        Ok(b) => {
                                            let m2 = if b is Continue {
                                                visit_run(*s1.fbranch, comp1, comps, log, q1)
                                            } else {
                                                Some(
                                                    (
                                                        q1,
                                                        Shape::Exactly(*s1.fbranch),
                                                        comp1,
                                                        Ok(b),
                                                    ),
                                                )
                                            };
                                            match m2 {
                                                None => None,
                                                Some((q2, fsh, comp2, r2)) => finish_run(
                                                    Some(
                                                        (
                                                            q2,
                                                            Shape::If(
                                                                s1.port,
                                                                s1.cond,
                                                                Box::new(tsh),
                                                                Box::new(fsh),
                                                            ),
                                                            comp2,
                                                            r2,
                                                        ),
                                                    ),
                                                    Hook::FinishIf,
                                                    comps,
                                                    log,
                                                ),
                                            }
                                        },
                                    },
                                }
                            },
                        }
                    },
                    _ => None,
                }
            }
        },
        Control::While(_) => {
            if !call_at(log, p, Hook::StartWhile, c, comp, comps) {
                None
            } else {
                let e = log[p];
                match e.new_node {
                    Control::While(s1) => if height(e.new_node) > height(c) {
                        None
                    } else {
                        match e.answer {
                            Err(x) => Some((p + 1, Shape::Exactly(e.new_node), e.new_comp, Err(x))),
                            Ok(a) => {
                                let m1 = if a is Continue {
                                    visit_run(*s1.body, e.new_comp, comps, log, p + 1)
                                } else {
                                    Some((p + 1, Shape::Exactly(*s1.body), e.new_comp, Ok(a)))
                                };
                                match m1 {
                                    None => None,
                                    Some((q1, bsh, comp1, r1)) => finish_run(
                                        Some(
                                            (
                                                q1,
                                                Shape::While(s1.port, s1.cond, Box::new(bsh)),
                                                comp1,
                                                r1,
                                            ),
                                        ),
                                        Hook::FinishWhile,
                                        comps,
                                        log,
                                    ),
                                }
                            },
                        }
                    },
                    _ => None,
                }
            }
        },
    }
}

/// The visit of the statements `s` in turn, read off `log` from position
/// `p`: each is visited in `comp` as the one before left it; an error ends
/// the list, and so does a `Stop`, which is the answer of the list; the
/// statements after it are left as they are. Otherwise the answer is
/// `Continue`.
pub open spec fn stmts_run(s: Seq<Control>, comp: Component, comps: Seq<Component>, log: Seq<HookCall>, p: int) -> Option<
    (int, Seq<Shape>, Component, VisResult),
>
    decreases 1 + max_height(s), 0nat, s.len(),
{
    if s.len() == 0 {
        Some((p, Seq::empty(), comp, Ok(Action::Continue)))
    } else {
        proof {
            lemma_max_height(s, 0);
            lemma_max_height_drop_first(s);
        }
        match visit_run(s[0], comp, comps, log, p) {
            None => None,
            Some((q, sh, comp1, r1)) => match r1 {
                Err(x) => Some((q, seq![sh] + exact_shapes(s.drop_first()), comp1, Err(x))),
                Ok(Action::Stop) => Some(
                    (q, seq![sh] + exact_shapes(s.drop_first()), comp1, Ok(Action::Stop)),
                ),
                Ok(_) => match stmts_run(s.drop_first(), comp1, comps, log, q) {
                    None => None,
                    Some((q2, rest, comp2, r2)) => Some((q2, seq![sh] + rest, comp2, r2)),
                },
            },
        }
    }
}


/// `a` and `b` are the same component but for their control programs.
pub open spec fn same_but_control(a: Component, b: Component) -> bool {
    &&& a.name == b.name
    &&& a.cells == b.cells
    &&& a.groups == b.groups
    &&& a.continuous_assignments == b.continuous_assignments
}

/// The traversal of the component `comp`, read off `log` from position `p`:
/// the position after its last call, the component it leaves (but for its
/// control program), the shape of the control program it leaves, and its
/// result; `None` where the calls are not those of such a traversal.
///
/// [Hook::Start] is handed the component; on `Continue` its control program,
/// unless empty, is taken out of the component (which holds the empty
/// program meanwhile), visited, and put back; an error ends the traversal.
/// Then, on `Continue`, [Hook::Finish] is handed the component. A `Change`
/// of either replaces the control program. Any other answer ends the
/// traversal with success.
pub open spec fn component_run(comp: Component, comps: Seq<Component>, log: Seq<HookCall>, p: int) -> Option<
    (int, Component, Shape, CalyxResult<()>),
> {
    if !(0 <= p < log.len() && log[p].hook == Hook::Start && log[p].comp == comp
        && log[p].components == comps) {
        None
    } else {
        let e = log[p];
        match e.answer {
            Err(x) => Some((p + 1, e.new_comp, Shape::Exactly(e.new_comp.control), Err(x))),
            Ok(a) => {
                let mid = if a is Continue {
                    if e.new_comp.control is Empty {
                        Some(
                            (
                                p + 1,
                                e.new_comp,
                                Shape::Exactly(e.new_comp.control),
                                Ok::<Action, crate::errors::Error>(Action::Continue),
                            ),
                        )
                    } else {
                        let inner = Component { control: Control::Empty(Empty {}), ..e.new_comp };
                        match visit_run(e.new_comp.control, inner, comps, log, p + 1) {
                            None => None,
                            Some((q, sh, comp1, r1)) => match r1 {
                                Err(x) => Some((q, comp1, sh, Err(x))),
                                Ok(_) => Some((q, comp1, sh, Ok(Action::Continue))),
                            },
                        }
                    }
                } else {
                    Some((p + 1, e.new_comp, Shape::Exactly(e.new_comp.control), Ok(a)))
                };
                match mid {
                    None => None,
                    Some((q, comp1, sh, r1)) => match r1 {
                        Err(x) => Some((q, comp1, sh, Err(x))),
                        Ok(b) => if b is Continue {
                            if 0 <= q < log.len() && log[q].hook == Hook::Finish && same_but_control(
                                log[q].comp,
                                comp1,
                            ) && has_shape(log[q].comp.control, sh) && log[q].components == comps {
                                let f = log[q];
                                match f.answer {
                                    Err(x) => Some(
                                        (q + 1, f.new_comp, Shape::Exactly(f.new_comp.control), Err(x)),
                                    ),
                                    Ok(Action::Change(x)) => Some(
                                        (q + 1, f.new_comp, Shape::Exactly(*x), Ok(())),
                                    ),
                                    Ok(_) => Some(
                                        (q + 1, f.new_comp, Shape::Exactly(f.new_comp.control), Ok(())),
                                    ),
                                }
                            } else {
                                None
                            }
                        } else {
                            match b {
                                Action::Change(x) => Some((q, comp1, Shape::Exactly(*x), Ok(()))),
                                _ => Some((q, comp1, sh, Ok(()))),
                            }
                        },
                    },
                }
            },
        }
    }
}

/// The visit of `c` in `comp` is the one read off all the calls of `log`
/// from position `p`, and leaves `new_c`, `new_comp` and the answer `r`.
pub open spec fn visit_ran(
    c: Control,
    comp: Component,
    comps: Seq<Component>, log: Seq<HookCall>,
    p: int,
    new_c: Control,
    new_comp: Component,
    r: VisResult,
) -> bool {
    match visit_run(c, comp, comps, log, p) {
        Some((q, sh, comp1, r1)) => q == log.len() && has_shape(new_c, sh) && new_comp == comp1
            && r1 == r,
        None => false,
    }
}

/// As [visit_ran], for a list of statements.
pub open spec fn stmts_ran(
    s: Seq<Control>,
    comp: Component,
    comps: Seq<Component>, log: Seq<HookCall>,
    p: int,
    new_s: Seq<Control>,
    new_comp: Component,
    r: VisResult,
) -> bool {
    match stmts_run(s, comp, comps, log, p) {
        Some((q, ss, comp1, r1)) => q == log.len() && has_shapes(new_s, ss) && new_comp == comp1
            && r1 == r,
        None => false,
    }
}

/// As [visit_ran], for the traversal of a component.
pub open spec fn component_ran(
    comp: Component,
    comps: Seq<Component>, log: Seq<HookCall>,
    p: int,
    new_comp: Component,
    r: CalyxResult<()>,
) -> bool {
    match component_run(comp, comps, log, p) {
        Some((q, comp1, sh, r1)) => q == log.len() && same_but_control(new_comp, comp1) && has_shape(
            new_comp.control,
            sh,
        ) && r1 == r,
        None => false,
    }
}

/// No statement after the first is higher than the highest of all.
pub proof fn lemma_max_height_drop_first(s: Seq<Control>)
    requires
        s.len() > 0,
    ensures
        max_height(s.drop_first()) <= max_height(s),
{
    assert forall|i: int| 0 <= i < s.drop_first().len() implies height(
        #[trigger] s.drop_first()[i],
    ) <= max_height(s) by {
        lemma_max_height(s, i + 1);
    }
    lemma_max_height_bound(s.drop_first(), max_height(s));
}

/// A bound on the height of every statement bounds the highest.
pub proof fn lemma_max_height_bound(s: Seq<Control>, b: nat)
    requires
        forall|i: int| 0 <= i < s.len() ==> height(#[trigger] s[i]) <= b,
    ensures
        max_height(s) <= b,
    decreases s.len(),
{
    if s.len() > 0 {
        assert forall|i: int| 0 <= i < s.drop_last().len() implies height(
            #[trigger] s.drop_last()[i],
        ) <= b by {
            assert(s.drop_last()[i] == s[i]);
        }
        lemma_max_height_bound(s.drop_last(), b);
        assert(height(s[s.len() - 1]) <= b);
    }
}

/// A visit read off a log reads only the calls it consumes: it reads the
/// same off any longer log.
pub proof fn lemma_visit_run_frame(c: Control, comp: Component, comps: Seq<Component>, log: Seq<HookCall>, more: Seq<HookCall>, p: int)
    requires
        visit_run(c, comp, comps, log, p) is Some,
        log_extends(more, log),
    ensures
        visit_run(c, comp, comps, more, p) == visit_run(c, comp, comps, log, p),
    decreases height(c), 1nat, 0nat,
{
    match c {
        Control::Sequence(_) => {
            let e = log[p];
            if let Control::Sequence(s1) = e.new_node {
                if e.answer matches Ok(a) && a is Continue {
                    lemma_stmts_run_frame(s1.stmts@, e.new_comp, comps, log, more, p + 1);
                }
            }
        },
        Control::Par(_) => {
            let e = log[p];
            if let Control::Par(s1) = e.new_node {
                if e.answer matches Ok(a) && a is Continue {
                    lemma_stmts_run_frame(s1.stmts@, e.new_comp, comps, log, more, p + 1);
                }
            }
        },
        Control::If(_) => {
            let e = log[p];
            if let Control::If(s1) = e.new_node {
                if let Ok(a) = e.answer {
                    if a is Continue {
                        lemma_visit_run_frame(*s1.tbranch, e.new_comp, comps, log, more, p + 1);
                    }
                    let m1 = if a is Continue {
                        visit_run(*s1.tbranch, e.new_comp, comps, log, p + 1)
                    } else {
                        Some((p + 1, Shape::Exactly(*s1.tbranch), e.new_comp, Ok(a)))
                    };
                    if let Some((q1, tsh, comp1, r1)) = m1 {
                        if r1 matches Ok(b) && b is Continue {
                            lemma_visit_run_frame(*s1.fbranch, comp1, comps, log, more, q1);
                        }
                    }
                }
            }
        },
        Control::While(_) => {
            let e = log[p];
            if let Control::While(s1) = e.new_node {
                if e.answer matches Ok(a) && a is Continue {
                    lemma_visit_run_frame(*s1.body, e.new_comp, comps, log, more, p + 1);
                }
            }
        },
        _ => {},
    }
}

/// As [lemma_visit_run_frame], for a list of statements.
pub proof fn lemma_stmts_run_frame(s: Seq<Control>, comp: Component, comps: Seq<Component>, log: Seq<HookCall>, more: Seq<HookCall>, p: int)
    requires
        stmts_run(s, comp, comps, log, p) is Some,
        log_extends(more, log),
    ensures
        stmts_run(s, comp, comps, more, p) == stmts_run(s, comp, comps, log, p),
    decreases 1 + max_height(s), 0nat, s.len(),
{
    if s.len() > 0 {
        lemma_max_height(s, 0);
        lemma_max_height_drop_first(s);
        lemma_visit_run_frame(s[0], comp, comps, log, more, p);
        let (q, sh, comp1, r1) = visit_run(s[0], comp, comps, log, p).unwrap();
        if r1 is Ok && !(r1 == Ok::<Action, crate::errors::Error>(Action::Stop)) {
            lemma_stmts_run_frame(s.drop_first(), comp1, comps, log, more, q);
        }
    }
}

/// Every call of `log` from position `p` up to (not including) `q` answers
/// `Ok` with an action other than `Stop`.
pub open spec fn goes_on(log: Seq<HookCall>, p: int, q: int) -> bool {
    forall|i: int|
        p <= i < q ==> (#[trigger] log[i]).answer is Ok && log[i].answer != Ok::<
            Action,
            crate::errors::Error,
        >(Action::Stop)
}

/// How a visit ends is decided by its last call: every call before it goes
/// on (answers `Ok`, and not `Stop`); the visit answers `Stop` exactly when
/// its last call does, so a `Stop` anywhere ends the whole visit, with no
/// later call; it fails exactly when its last call fails, with that error;
/// and a `Change` answered by its last call replaces the node, the visit
/// then answering `Continue`.
pub proof fn lemma_visit_last_call(c: Control, comp: Component, comps: Seq<Component>, log: Seq<HookCall>, p: int)
    requires
        visit_run(c, comp, comps, log, p) is Some,
    ensures
        ({
            let (q, sh, comp1, r) = visit_run(c, comp, comps, log, p).unwrap();
            &&& p < q <= log.len()
            &&& goes_on(log, p, q - 1)
            &&& (log[q - 1].answer == Ok::<Action, crate::errors::Error>(Action::Stop) <==> r
                == Ok::<Action, crate::errors::Error>(Action::Stop))
            &&& (log[q - 1].answer is Err <==> r is Err)
            &&& (r is Err ==> r == log[q - 1].answer)
            &&& (r is Ok ==> !(r->Ok_0 is Change))
            &&& (log[q - 1].answer matches Ok(Action::Change(x)) ==> sh == Shape::Exactly(*x) && r
                == Ok::<Action, crate::errors::Error>(Action::Continue))
        }),
    decreases height(c), 1nat, 0nat,
{
    lemma_visit_run_advances(c, comp, comps, log, p);
    let q = visit_run(c, comp, comps, log, p).unwrap().0;
    let e = log[p];
    match c {
        Control::Sequence(_) => {
            let s1 = e.new_node->Sequence_0;
            if e.answer matches Ok(a) && a is Continue {
                lemma_stmts_run_advances(s1.stmts@, e.new_comp, comps, log, p + 1);
                lemma_stmts_last_call(s1.stmts@, e.new_comp, comps, log, p + 1);
                let (q1, ss, comp1, r1) = stmts_run(s1.stmts@, e.new_comp, comps, log, p + 1).unwrap();
                assert(goes_on(log, p, q - 1)) by {
                    assert forall|i: int| p <= i < q - 1 implies (#[trigger] log[i]).answer is Ok
                        && log[i].answer != Ok::<Action, crate::errors::Error>(Action::Stop) by {
                        if i > p && i < q1 - 1 {
                            assert(goes_on(log, p + 1, q1 - 1));
                        }
                    }
                }
            }
        },
        Control::Par(_) => {
            let s1 = e.new_node->Par_0;
            if e.answer matches Ok(a) && a is Continue {
                lemma_stmts_run_advances(s1.stmts@, e.new_comp, comps, log, p + 1);
                lemma_stmts_last_call(s1.stmts@, e.new_comp, comps, log, p + 1);
                let (q1, ss, comp1, r1) = stmts_run(s1.stmts@, e.new_comp, comps, log, p + 1).unwrap();
                assert(goes_on(log, p, q - 1)) by {
                    assert forall|i: int| p <= i < q - 1 implies (#[trigger] log[i]).answer is Ok
                        && log[i].answer != Ok::<Action, crate::errors::Error>(Action::Stop) by {
                        if i > p && i < q1 - 1 {
                            assert(goes_on(log, p + 1, q1 - 1));
                        }
                    }
                }
            }
        },
        Control::If(_) => {
            let s1 = e.new_node->If_0;
            if let Ok(a) = e.answer {
                let m1 = if a is Continue {
                    visit_run(*s1.tbranch, e.new_comp, comps, log, p + 1)
                } else {
                    Some((p + 1, Shape::Exactly(*s1.tbranch), e.new_comp, Ok(a)))
                };
                if a is Continue {
                    lemma_visit_last_call(*s1.tbranch, e.new_comp, comps, log, p + 1);
                }
                let (q1, tsh, comp1, r1) = m1.unwrap();
                if r1 matches Ok(b) && b is Continue {
                    lemma_visit_last_call(*s1.fbranch, comp1, comps, log, q1);
                    let (q2, fsh, comp2, r2) = visit_run(*s1.fbranch, comp1, comps, log, q1).unwrap();
                    assert(goes_on(log, p, q - 1)) by {
                        assert forall|i: int| p <= i < q - 1 implies (#[trigger] log[i]).answer is Ok
                            && log[i].answer != Ok::<Action, crate::errors::Error>(Action::Stop) by {
                            if p < i < q1 - 1 {
                                assert(goes_on(log, p + 1, q1 - 1));
                            }
                            if q1 <= i < q2 - 1 {
                                assert(goes_on(log, q1, q2 - 1));
                            }
                        }
                    }
                } else if a is Continue {
                    assert(goes_on(log, p, q - 1)) by {
                        assert forall|i: int| p <= i < q - 1 implies (#[trigger] log[i]).answer is Ok
                            && log[i].answer != Ok::<Action, crate::errors::Error>(Action::Stop) by {
                            if p < i < q1 - 1 {
                                assert(goes_on(log, p + 1, q1 - 1));
                            }
                        }
                    }
                }
            }
        },
        Control::While(_) => {
            let s1 = e.new_node->While_0;
            if e.answer matches Ok(a) && a is Continue {
                lemma_visit_last_call(*s1.body, e.new_comp, comps, log, p + 1);
                let (q1, bsh, comp1, r1) = visit_run(*s1.body, e.new_comp, comps, log, p + 1).unwrap();
                assert(goes_on(log, p, q - 1)) by {
                    assert forall|i: int| p <= i < q - 1 implies (#[trigger] log[i]).answer is Ok
                        && log[i].answer != Ok::<Action, crate::errors::Error>(Action::Stop) by {
                        if p < i < q1 - 1 {
                            assert(goes_on(log, p + 1, q1 - 1));
                        }
                    }
                }
            }
        },
        _ => {},
    }
}

/// As [lemma_visit_last_call], for a list of statements: the list answers
/// `Continue`, `Stop` or an error; a `Stop` or an error can only come from
/// the last call, which then gives the list's answer.
pub proof fn lemma_stmts_last_call(s: Seq<Control>, comp: Component, comps: Seq<Component>, log: Seq<HookCall>, p: int)
    requires
        stmts_run(s, comp, comps, log, p) is Some,
        0 <= p <= log.len(),
    ensures
        ({
            let (q, ss, comp1, r) = stmts_run(s, comp, comps, log, p).unwrap();
            &&& p <= q <= log.len()
            &&& (r is Ok ==> r == Ok::<Action, crate::errors::Error>(Action::Continue) || r == Ok::<
                Action,
                crate::errors::Error,
            >(Action::Stop))
            &&& (q == p ==> r == Ok::<Action, crate::errors::Error>(Action::Continue))
            &&& goes_on(log, p, q - 1)
            &&& (p < q ==> (log[q - 1].answer == Ok::<Action, crate::errors::Error>(Action::Stop)
                <==> r == Ok::<Action, crate::errors::Error>(Action::Stop)))
            &&& (p < q ==> (log[q - 1].answer is Err <==> r is Err))
            &&& (r is Err ==> r == log[q - 1].answer)
        }),
    decreases 1 + max_height(s), 0nat, s.len(),
{
    lemma_stmts_run_advances(s, comp, comps, log, p);
    if s.len() > 0 {
        lemma_max_height(s, 0);
        lemma_max_height_drop_first(s);
        lemma_visit_last_call(s[0], comp, comps, log, p);
        let (q0, sh, comp1, r1) = visit_run(s[0], comp, comps, log, p).unwrap();
        if r1 is Ok && !(r1 == Ok::<Action, crate::errors::Error>(Action::Stop)) {
            lemma_stmts_run_advances(s.drop_first(), comp1, comps, log, q0);
            lemma_stmts_last_call(s.drop_first(), comp1, comps, log, q0);
            let (q2, rest, comp2, r2) = stmts_run(s.drop_first(), comp1, comps, log, q0).unwrap();
            assert(goes_on(log, p, q2 - 1)) by {
                assert forall|i: int| p <= i < q2 - 1 implies (#[trigger] log[i]).answer is Ok
                    && log[i].answer != Ok::<Action, crate::errors::Error>(Action::Stop) by {
                    if i < q0 - 1 {
                        assert(goes_on(log, p, q0 - 1));
                    } else if i >= q0 {
                        assert(goes_on(log, q0, q2 - 1));
                    }
                }
            }
        }
    }
}

/// How a traversal of a component ends is decided by its last call: it
/// fails exactly when its last call fails, with that error; and a `Change`
/// answered by its last call (the start hook, or else the finish hook)
/// becomes the component's control program.
pub proof fn lemma_component_last_call(comp: Component, comps: Seq<Component>, log: Seq<HookCall>, p: int)
    requires
        component_run(comp, comps, log, p) is Some,
    ensures
        ({
            let (q, comp1, sh, r) = component_run(comp, comps, log, p).unwrap();
            &&& p < q <= log.len()
            &&& (log[q - 1].answer is Err <==> r is Err)
            &&& (r matches Err(x) ==> log[q - 1].answer == Err::<Action, crate::errors::Error>(x))
            &&& (log[q - 1].answer matches Ok(Action::Change(x)) ==> sh == Shape::Exactly(*x) && r
                == Ok::<(), crate::errors::Error>(()))
        }),
{
    let e = log[p];
    if e.answer matches Ok(a) && a is Continue && !(e.new_comp.control is Empty) {
        let inner = Component { control: Control::Empty(Empty {}), ..e.new_comp };
        lemma_visit_last_call(e.new_comp.control, inner, comps, log, p + 1);
    }
}

/// The hooks, in order, that a visit of `c` calls when every hook answers
/// `Continue` and changes nothing: depth first, the start hook of a compound
/// node on the way down, then its children in order (the true then the false
/// branch of an `if`), then its finish hook on the way up; one call at each
/// leaf.
pub open spec fn depth_first_hooks(c: Control) -> Seq<Hook>
    decreases c,
{
    match c {
        Control::Sequence(s) => seq![Hook::StartSeq] + depth_first_stmts(s.stmts@) + seq![
            Hook::FinishSeq,
        ],
        Control::Par(s) => seq![Hook::StartPar] + depth_first_stmts(s.stmts@) + seq![
            Hook::FinishPar,
        ],
        Control::If(s) => seq![Hook::StartIf] + depth_first_hooks(*s.tbranch) + depth_first_hooks(
            *s.fbranch,
        ) + seq![Hook::FinishIf],
        Control::While(s) => seq![Hook::StartWhile] + depth_first_hooks(*s.body) + seq![
            Hook::FinishWhile,
        ],
        Control::Enable(_) => seq![Hook::Enable],
        Control::Invoke(_) => seq![Hook::Invoke],
        Control::Empty(_) => seq![Hook::Empty],
    }
}

/// [depth_first_hooks] of each statement, in order.
pub open spec fn depth_first_stmts(s: Seq<Control>) -> Seq<Hook>
    decreases s,
{
    if s.len() == 0 {
        Seq::empty()
    } else {
        depth_first_hooks(s[0]) + depth_first_stmts(s.drop_first())
    }
}

/// Every call of `log` from position `p` up to `q` answers `Continue` and
/// leaves its node and its component as they were.
pub open spec fn quiet(log: Seq<HookCall>, p: int, q: int) -> bool {
    forall|i: int|
        p <= i < q ==> {
            &&& (#[trigger] log[i]).answer == Ok::<Action, crate::errors::Error>(Action::Continue)
            &&& log[i].new_node == log[i].node
            &&& log[i].new_comp == log[i].comp
        }
}

/// The hooks of the calls of `log` from position `p` up to `q`.
pub open spec fn hooks_between(log: Seq<HookCall>, p: int, q: int) -> Seq<Hook> {
    log.subrange(p, q).map_values(|e: HookCall| e.hook)
}

/// A visit read off a log ends after the position it starts from.
pub proof fn lemma_visit_run_advances(c: Control, comp: Component, comps: Seq<Component>, log: Seq<HookCall>, p: int)
    requires
        visit_run(c, comp, comps, log, p) is Some,
    ensures
        p < visit_run(c, comp, comps, log, p).unwrap().0 <= log.len(),
    decreases height(c), 1nat, 0nat,
{
    match c {
        Control::Sequence(_) => {
            let e = log[p];
            if let Control::Sequence(s1) = e.new_node {
                if e.answer matches Ok(a) && a is Continue {
                    lemma_stmts_run_advances(s1.stmts@, e.new_comp, comps, log, p + 1);
                }
            }
        },
        Control::Par(_) => {
            let e = log[p];
            if let Control::Par(s1) = e.new_node {
                if e.answer matches Ok(a) && a is Continue {
                    lemma_stmts_run_advances(s1.stmts@, e.new_comp, comps, log, p + 1);
                }
            }
        },
        Control::If(_) => {
            let e = log[p];
            if let Control::If(s1) = e.new_node {
                if let Ok(a) = e.answer {
                    if a is Continue {
                        lemma_visit_run_advances(*s1.tbranch, e.new_comp, comps, log, p + 1);
                    }
                    let m1 = if a is Continue {
                        visit_run(*s1.tbranch, e.new_comp, comps, log, p + 1)
                    } else {
                        Some((p + 1, Shape::Exactly(*s1.tbranch), e.new_comp, Ok(a)))
                    };
                    if let Some((q1, tsh, comp1, r1)) = m1 {
                        if r1 matches Ok(b) && b is Continue {
                            lemma_visit_run_advances(*s1.fbranch, comp1, comps, log, q1);
                        }
                    }
                }
            }
        },
        Control::While(_) => {
            let e = log[p];
            if let Control::While(s1) = e.new_node {
                if e.answer matches Ok(a) && a is Continue {
                    lemma_visit_run_advances(*s1.body, e.new_comp, comps, log, p + 1);
                }
            }
        },
        _ => {},
    }
}

/// As [lemma_visit_run_advances], for a list of statements, which may be
/// empty.
pub proof fn lemma_stmts_run_advances(s: Seq<Control>, comp: Component, comps: Seq<Component>, log: Seq<HookCall>, p: int)
    requires
        stmts_run(s, comp, comps, log, p) is Some,
        0 <= p <= log.len(),
    ensures
        p <= stmts_run(s, comp, comps, log, p).unwrap().0 <= log.len(),
        s.len() > 0 ==> p < stmts_run(s, comp, comps, log, p).unwrap().0,
    decreases 1 + max_height(s), 0nat, s.len(),
{
    if s.len() > 0 {
        lemma_max_height(s, 0);
        lemma_max_height_drop_first(s);
        lemma_visit_run_advances(s[0], comp, comps, log, p);
        let (q, sh, comp1, r1) = visit_run(s[0], comp, comps, log, p).unwrap();
        if r1 is Ok && !(r1 == Ok::<Action, crate::errors::Error>(Action::Stop)) {
            lemma_stmts_run_advances(s.drop_first(), comp1, comps, log, q);
        }
    }
}

/// A visit in which every hook answers `Continue` and changes nothing calls
/// the hooks depth first ([depth_first_hooks]), answers `Continue` and
/// leaves the component as it was.
pub proof fn lemma_quiet_visit_depth_first(c: Control, comp: Component, comps: Seq<Component>, log: Seq<HookCall>, p: int)
    requires
        visit_run(c, comp, comps, log, p) is Some,
        quiet(log, p, visit_run(c, comp, comps, log, p).unwrap().0),
    ensures
        hooks_between(log, p, visit_run(c, comp, comps, log, p).unwrap().0) == depth_first_hooks(c),
        visit_run(c, comp, comps, log, p).unwrap().2 == comp,
        visit_run(c, comp, comps, log, p).unwrap().3 == Ok::<Action, crate::errors::Error>(
            Action::Continue,
        ),
    decreases height(c), 1nat, 0nat,
{
    let q = visit_run(c, comp, comps, log, p).unwrap().0;
    lemma_visit_run_advances(c, comp, comps, log, p);
    let e = log[p];
    assert(e.answer == Ok::<Action, crate::errors::Error>(Action::Continue) && e.new_node == c
        && e.new_comp == comp);
    match c {
        Control::Sequence(s) => {
            lemma_stmts_run_advances(s.stmts@, comp, comps, log, p + 1);
            let (q1, ss, comp1, r1) = stmts_run(s.stmts@, comp, comps, log, p + 1).unwrap();
            assert(q1 <= q);
            lemma_quiet_stmts_depth_first(s.stmts@, comp, comps, log, p + 1);
            assert(q == q1 + 1);
            assert(log.subrange(p, q) =~= seq![log[p]] + log.subrange(p + 1, q1) + seq![log[q1]]);
            assert(hooks_between(log, p, q) =~= seq![Hook::StartSeq] + hooks_between(log, p + 1, q1)
                + seq![Hook::FinishSeq]);
        },
        Control::Par(s) => {
            lemma_stmts_run_advances(s.stmts@, comp, comps, log, p + 1);
            let (q1, ss, comp1, r1) = stmts_run(s.stmts@, comp, comps, log, p + 1).unwrap();
            assert(q1 <= q);
            lemma_quiet_stmts_depth_first(s.stmts@, comp, comps, log, p + 1);
            assert(q == q1 + 1);
            assert(log.subrange(p, q) =~= seq![log[p]] + log.subrange(p + 1, q1) + seq![log[q1]]);
            assert(hooks_between(log, p, q) =~= seq![Hook::StartPar] + hooks_between(log, p + 1, q1)
                + seq![Hook::FinishPar]);
        },
        Control::If(s) => {
            lemma_visit_run_advances(*s.tbranch, comp, comps, log, p + 1);
            let (q1, tsh, comp1, r1) = visit_run(*s.tbranch, comp, comps, log, p + 1).unwrap();
            assert(q1 <= q) by {
                if r1 matches Ok(b) && b is Continue {
                    lemma_visit_run_advances(*s.fbranch, comp1, comps, log, q1);
                }
            }
            lemma_quiet_visit_depth_first(*s.tbranch, comp, comps, log, p + 1);
            lemma_visit_run_advances(*s.fbranch, comp1, comps, log, q1);
            let (q2, fsh, comp2, r2) = visit_run(*s.fbranch, comp1, comps, log, q1).unwrap();
            assert(q2 <= q);
            lemma_quiet_visit_depth_first(*s.fbranch, comp1, comps, log, q1);
            assert(q == q2 + 1);
            assert(log.subrange(p, q) =~= seq![log[p]] + log.subrange(p + 1, q1) + log.subrange(
                q1,
                q2,
            ) + seq![log[q2]]);
            assert(hooks_between(log, p, q) =~= seq![Hook::StartIf] + hooks_between(log, p + 1, q1)
                + hooks_between(log, q1, q2) + seq![Hook::FinishIf]);
        },
        Control::While(s) => {
            lemma_visit_run_advances(*s.body, comp, comps, log, p + 1);
            let (q1, bsh, comp1, r1) = visit_run(*s.body, comp, comps, log, p + 1).unwrap();
            assert(q1 <= q);
            lemma_quiet_visit_depth_first(*s.body, comp, comps, log, p + 1);
            assert(q == q1 + 1);
            assert(log.subrange(p, q) =~= seq![log[p]] + log.subrange(p + 1, q1) + seq![log[q1]]);
            assert(hooks_between(log, p, q) =~= seq![Hook::StartWhile] + hooks_between(
                log,
                p + 1,
                q1,
            ) + seq![Hook::FinishWhile]);
        },
        _ => {
            assert(log.subrange(p, q) =~= seq![e]);
            assert(hooks_between(log, p, q) =~= seq![e.hook]);
        },
    }
}

/// As [lemma_quiet_visit_depth_first], for a list of statements.
pub proof fn lemma_quiet_stmts_depth_first(s: Seq<Control>, comp: Component, comps: Seq<Component>, log: Seq<HookCall>, p: int)
    requires
        stmts_run(s, comp, comps, log, p) is Some,
        0 <= p <= log.len(),
        quiet(log, p, stmts_run(s, comp, comps, log, p).unwrap().0),
    ensures
        hooks_between(log, p, stmts_run(s, comp, comps, log, p).unwrap().0) == depth_first_stmts(s),
        stmts_run(s, comp, comps, log, p).unwrap().2 == comp,
        stmts_run(s, comp, comps, log, p).unwrap().3 == Ok::<Action, crate::errors::Error>(
            Action::Continue,
        ),
    decreases 1 + max_height(s), 0nat, s.len(),
{
    let q = stmts_run(s, comp, comps, log, p).unwrap().0;
    if s.len() == 0 {
        assert(hooks_between(log, p, q) =~= Seq::<Hook>::empty());
    } else {
        lemma_max_height(s, 0);
        lemma_max_height_drop_first(s);
        lemma_visit_run_advances(s[0], comp, comps, log, p);
        let (q0, sh, comp1, r1) = visit_run(s[0], comp, comps, log, p).unwrap();
        assert(q0 <= q) by {
            if r1 is Ok && !(r1 == Ok::<Action, crate::errors::Error>(Action::Stop)) {
                lemma_stmts_run_advances(s.drop_first(), comp1, comps, log, q0);
            }
        }
        lemma_quiet_visit_depth_first(s[0], comp, comps, log, p);
        lemma_stmts_run_advances(s.drop_first(), comp, comps, log, q0);
        lemma_quiet_stmts_depth_first(s.drop_first(), comp, comps, log, q0);
        assert(log.subrange(p, q) =~= log.subrange(p, q0) + log.subrange(q0, q));
        assert(hooks_between(log, p, q) =~= hooks_between(log, p, q0) + hooks_between(log, q0, q));
    }
}

/// The number of nodes of a program.
pub open spec fn nodes(c: Control) -> nat
    decreases c,
{
    match c {
        Control::Sequence(s) => 1 + stmts_nodes(s.stmts@),
        Control::Par(s) => 1 + stmts_nodes(s.stmts@),
        Control::If(s) => 1 + nodes(*s.tbranch) + nodes(*s.fbranch),
        Control::While(s) => 1 + nodes(*s.body),
        _ => 1,
    }
}

/// [nodes] of each statement, added up.
pub open spec fn stmts_nodes(ss: Seq<Control>) -> nat
    decreases ss,
{
    if ss.len() == 0 {
        0
    } else {
        nodes(ss[0]) + stmts_nodes(ss.drop_first())
    }
}

/// A depth-first visit calls at most two hooks per node.
pub proof fn lemma_depth_first_len(c: Control)
    ensures
        depth_first_hooks(c).len() <= 2 * nodes(c),
    decreases c,
{
    match c {
        Control::Sequence(s) => lemma_depth_first_stmts_len(s.stmts@),
        Control::Par(s) => lemma_depth_first_stmts_len(s.stmts@),
        Control::If(s) => {
            lemma_depth_first_len(*s.tbranch);
            lemma_depth_first_len(*s.fbranch);
        },
        Control::While(s) => lemma_depth_first_len(*s.body),
        _ => {},
    }
}

/// As [lemma_depth_first_len], for a list of statements.
pub proof fn lemma_depth_first_stmts_len(ss: Seq<Control>)
    ensures
        depth_first_stmts(ss).len() <= 2 * stmts_nodes(ss),
    decreases ss,
{
    if ss.len() > 0 {
        lemma_depth_first_len(ss[0]);
        lemma_depth_first_stmts_len(ss.drop_first());
    }
}

/// A visit in which every hook answers `Continue` and changes nothing makes
/// at most two hook calls per node of the program.
pub proof fn lemma_quiet_visit_calls_bound(c: Control, comp: Component, comps: Seq<Component>, log: Seq<HookCall>, p: int)
    requires
        visit_run(c, comp, comps, log, p) is Some,
        quiet(log, p, visit_run(c, comp, comps, log, p).unwrap().0),
    ensures
        visit_run(c, comp, comps, log, p).unwrap().0 - p <= 2 * nodes(c),
{
    let q = visit_run(c, comp, comps, log, p).unwrap().0;
    lemma_visit_run_advances(c, comp, comps, log, p);
    lemma_quiet_visit_depth_first(c, comp, comps, log, p);
    lemma_depth_first_len(c);
    assert(hooks_between(log, p, q).len() == q - p);
}

/// The traversal of a component in which every hook answers `Continue` and
/// changes nothing calls [Hook::Start], then the hooks of its control
/// program depth first (none for the empty program), then [Hook::Finish],
/// and succeeds.
pub proof fn lemma_quiet_component_depth_first(comp: Component, comps: Seq<Component>, log: Seq<HookCall>, p: int)
    requires
        component_run(comp, comps, log, p) is Some,
        quiet(log, p, component_run(comp, comps, log, p).unwrap().0),
    ensures
        hooks_between(log, p, component_run(comp, comps, log, p).unwrap().0) == seq![Hook::Start] + (if comp.control is Empty {
            Seq::<Hook>::empty()
        } else {
            depth_first_hooks(comp.control)
        }) + seq![Hook::Finish],
        component_run(comp, comps, log, p).unwrap().3 == Ok::<(), crate::errors::Error>(()),
{
    let q = component_run(comp, comps, log, p).unwrap().0;
    let e = log[p];
    let inner = Component { control: Control::Empty(Empty {}), ..comp };
    assert(p < q) by {
        if e.answer matches Ok(a) && a is Continue && !(e.new_comp.control is Empty) {
            let inner1 = Component { control: Control::Empty(Empty {}), ..e.new_comp };
            lemma_visit_run_advances(e.new_comp.control, inner1, comps, log, p + 1);
        }
    }
    assert(e.answer == Ok::<Action, crate::errors::Error>(Action::Continue) && e.new_comp == comp);
    if comp.control is Empty {
        assert(q == p + 2);
        assert(log.subrange(p, q) =~= seq![log[p], log[p + 1]]);
        assert(hooks_between(log, p, q) =~= seq![Hook::Start, Hook::Finish]);
        assert(seq![Hook::Start] + Seq::<Hook>::empty() + seq![Hook::Finish] =~= seq![
            Hook::Start,
            Hook::Finish,
        ]);
    } else {
        lemma_visit_run_advances(comp.control, inner, comps, log, p + 1);
        let (q1, sh, comp1, r1) = visit_run(comp.control, inner, comps, log, p + 1).unwrap();
        assert(q1 <= q);
        lemma_quiet_visit_depth_first(comp.control, inner, comps, log, p + 1);
        assert(q == q1 + 1);
        assert(log.subrange(p, q) =~= seq![log[p]] + log.subrange(p + 1, q1) + seq![log[q1]]);
        assert(hooks_between(log, p, q) =~= seq![Hook::Start] + hooks_between(log, p + 1, q1)
            + seq![Hook::Finish]);
    }
}

/// The positions `0, 1, ..., n - 1` in turn.
pub open spec fn upto(n: nat) -> Seq<usize> {
    Seq::new(n, |i: int| i as usize)
}

/// The traversals, one after the other, of the components of `comps` at the
/// positions listed in `order`, each handed the other components (one fewer
/// than `comps`), read off `log` from position `p`: the
/// position after the last call, and what each traversal left (the
/// component but for its control program, and the shape of its control
/// program); `None` where the calls are not those of such traversals, each
/// of them succeeding.
pub open spec fn pass_run(comps: Seq<Component>, order: Seq<usize>, log: Seq<HookCall>, p: int) -> Option<
    (int, Seq<(Component, Shape)>),
>
    decreases order.len(),
{
    if order.len() == 0 {
        Some((p, Seq::empty()))
    } else {
        match pass_run(comps, order.drop_last(), log, p) {
            None => None,
            Some((q, res)) => if 0 <= q < log.len() && log[q].components.len() + 1 == comps.len() {
                match component_run(comps[order.last() as int], log[q].components, log, q) {
                    Some((q2, comp1, sh, r)) => if r is Ok {
                        Some((q2, res.push((comp1, sh))))
                    } else {
                        None
                    },
                    None => None,
                }
            } else {
                None
            },
        }
    }
}

/// The calls of `log` from position `p` to its end are the traversals of the
/// components of `comps` at the positions of `order`, in turn, each
/// succeeding, and each of these positions holds in `new_comps` what its
/// traversal left.
pub open spec fn pass_ran(
    comps: Seq<Component>,
    order: Seq<usize>,
    log: Seq<HookCall>,
    p: int,
    new_comps: Seq<Component>,
) -> bool {
    match pass_run(comps, order, log, p) {
        Some((q, res)) => {
            &&& q == log.len()
            &&& res.len() == order.len()
            &&& forall|t: int|
                0 <= t < order.len() ==> {
                    &&& same_but_control(#[trigger] new_comps[order[t] as int], res[t].0)
                    &&& has_shape(new_comps[order[t] as int].control, res[t].1)
                }
        },
        None => false,
    }
}

/// The calls of `log` from position `p` to its end are the traversals, in
/// turn, of the components of `comps` at the positions `order[0..k]`, each
/// succeeding, then the traversal of the one at `order[k]`, which fails with
/// `err`.
pub open spec fn pass_failed(
    comps: Seq<Component>,
    order: Seq<usize>,
    k: int,
    log: Seq<HookCall>,
    p: int,
    err: crate::errors::Error,
) -> bool {
    &&& 0 <= k < order.len()
    &&& match pass_run(comps, order.take(k), log, p) {
        Some((q, res)) => 0 <= q < log.len() && log[q].components.len() + 1 == comps.len()
            && match component_run(comps[order[k] as int], log[q].components, log, q) {
            Some((q2, comp1, sh, r)) => q2 == log.len() && r == Err::<(), crate::errors::Error>(err),
            None => false,
        },
        None => false,
    }
}

/// `new` is `old` followed by one call marking that the visitor was
/// cleared.
pub open spec fn log_cleared(new: Seq<HookCall>, old: Seq<HookCall>) -> bool {
    &&& new.len() == old.len() + 1
    &&& log_extends(new, old)
    &&& new[old.len() as int].hook == Hook::Clear
}

/// As [pass_run], with the visitor cleared after each traversal: each
/// traversal is followed in `log` by a call marking the clearing.
pub open spec fn cleared_pass_run(comps: Seq<Component>, order: Seq<usize>, log: Seq<HookCall>, p: int) -> Option<
    (int, Seq<(Component, Shape)>),
>
    decreases order.len(),
{
    if order.len() == 0 {
        Some((p, Seq::empty()))
    } else {
        match cleared_pass_run(comps, order.drop_last(), log, p) {
            None => None,
            Some((q, res)) => if 0 <= q < log.len() && log[q].components.len() + 1 == comps.len() {
                match component_run(comps[order.last() as int], log[q].components, log, q) {
                    Some((q2, comp1, sh, r)) => if r is Ok && 0 <= q2 < log.len() && log[q2].hook
                        == Hook::Clear {
                        Some((q2 + 1, res.push((comp1, sh))))
                    } else {
                        None
                    },
                    None => None,
                }
            } else {
                None
            },
        }
    }
}

/// As [pass_ran], with the visitor cleared after each traversal.
pub open spec fn cleared_pass_ran(
    comps: Seq<Component>,
    order: Seq<usize>,
    log: Seq<HookCall>,
    p: int,
    new_comps: Seq<Component>,
) -> bool {
    match cleared_pass_run(comps, order, log, p) {
        Some((q, res)) => {
            &&& q == log.len()
            &&& res.len() == order.len()
            &&& forall|t: int|
                0 <= t < order.len() ==> {
                    &&& same_but_control(#[trigger] new_comps[order[t] as int], res[t].0)
                    &&& has_shape(new_comps[order[t] as int].control, res[t].1)
                }
        },
        None => false,
    }
}

/// Cleared traversals read off a log read the same off any longer log.
pub proof fn lemma_cleared_pass_run_frame(
    comps: Seq<Component>,
    order: Seq<usize>,
    log: Seq<HookCall>,
    more: Seq<HookCall>,
    p: int,
)
    requires
        cleared_pass_run(comps, order, log, p) is Some,
        log_extends(more, log),
    ensures
        cleared_pass_run(comps, order, more, p) == cleared_pass_run(comps, order, log, p),
    decreases order.len(),
{
    if order.len() > 0 {
        lemma_cleared_pass_run_frame(comps, order.drop_last(), log, more, p);
        let (q, res) = cleared_pass_run(comps, order.drop_last(), log, p).unwrap();
        lemma_component_run_frame(comps[order.last() as int], log[q].components, log, more, q);
    }
}

/// Cleared traversals leave one result for each position traversed.
pub proof fn lemma_cleared_pass_run_len(comps: Seq<Component>, order: Seq<usize>, log: Seq<HookCall>, p: int)
    requires
        cleared_pass_run(comps, order, log, p) is Some,
    ensures
        cleared_pass_run(comps, order, log, p).unwrap().1.len() == order.len(),
    decreases order.len(),
{
    if order.len() > 0 {
        lemma_cleared_pass_run_len(comps, order.drop_last(), log, p);
    }
}

/// A traversal of a component read off a log reads the same off any longer
/// log.
pub proof fn lemma_component_run_frame(comp: Component, comps: Seq<Component>, log: Seq<HookCall>, more: Seq<HookCall>, p: int)
    requires
        component_run(comp, comps, log, p) is Some,
        log_extends(more, log),
    ensures
        component_run(comp, comps, more, p) == component_run(comp, comps, log, p),
{
    let e = log[p];
    if e.answer matches Ok(a) && a is Continue && !(e.new_comp.control is Empty) {
        let inner = Component { control: Control::Empty(Empty {}), ..e.new_comp };
        lemma_visit_run_frame(e.new_comp.control, inner, comps, log, more, p + 1);
    }
}

/// Traversals of components read off a log read the same off any longer
/// log.
pub proof fn lemma_pass_run_frame(
    comps: Seq<Component>,
    order: Seq<usize>,
    log: Seq<HookCall>,
    more: Seq<HookCall>,
    p: int,
)
    requires
        pass_run(comps, order, log, p) is Some,
        log_extends(more, log),
    ensures
        pass_run(comps, order, more, p) == pass_run(comps, order, log, p),
    decreases order.len(),
{
    if order.len() > 0 {
        lemma_pass_run_frame(comps, order.drop_last(), log, more, p);
        let (q, res) = pass_run(comps, order.drop_last(), log, p).unwrap();
        lemma_component_run_frame(comps[order.last() as int], log[q].components, log, more, q);
    }
}

/// Traversals read off a log leave one result for each position traversed.
pub proof fn lemma_pass_run_len(comps: Seq<Component>, order: Seq<usize>, log: Seq<HookCall>, p: int)
    requires
        pass_run(comps, order, log, p) is Some,
    ensures
        pass_run(comps, order, log, p).unwrap().1.len() == order.len(),
    decreases order.len(),
{
    if order.len() > 0 {
        lemma_pass_run_len(comps, order.drop_last(), log, p);
    }
}

} // verus!
