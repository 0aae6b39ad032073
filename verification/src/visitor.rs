//! Implements a visitor for control programs. Program passes implemented as
//! a [`Visitor`] are run on a [`Context`] to compile every component.
use vstd::prelude::*;
use crate::action::{Action, VisResult};
use crate::errors::{CalyxResult, Error};
use crate::post_order::{post_order, is_post_order};
use crate::ir::{
    Component, Context, Control, Empty, Enable, If, Invoke, LibrarySignatures, Par, Sequence,
    While, control_wf, stmts_wf, lemma_stmts_wf_rec, lemma_control_wf_mono, same_control,
    same_stmts, same_component, lemma_same_control_refl, lemma_same_stmts_pointwise,
    lemma_same_control_trans,
};
use crate::trace::{
    Hook, HookCall, HookNote, Shape, call_of, log_extends, visit_ran, stmts_ran, component_ran, visit_run,
    stmts_run, has_shape, has_shapes, exact_shapes, lemma_visit_run_frame, lemma_stmts_run_frame,
    lemma_max_height_drop_first, upto, pass_ran, pass_run, lemma_pass_run_frame, lemma_pass_run_len,
    same_but_control, pass_failed, log_cleared, cleared_pass_ran, cleared_pass_run,
    lemma_cleared_pass_run_frame, lemma_cleared_pass_run_len, lemma_component_run_frame,
};
use itertools::Itertools;

verus! {

// ---------------------------------------------------------------------------
// What every hook keeps.
// ---------------------------------------------------------------------------

/// The height of a control program: leaves have height 0, a compound node is
/// one higher than its highest child.
pub open spec fn height(c: Control) -> nat
    decreases c,
{
    match c {
        Control::Sequence(s) => 1 + max_height(s.stmts@),
        Control::Par(s) => 1 + max_height(s.stmts@),
        Control::If(s) => 1 + vstd::math::max(
            height(*s.tbranch) as int,
            height(*s.fbranch) as int,
        ) as nat,
        Control::While(s) => 1 + height(*s.body),
        _ => 0,
    }
}

/// The greatest height among the statements (0 for none).
pub open spec fn max_height(s: Seq<Control>) -> nat
    decreases s,
{
    if s.len() == 0 {
        0
    } else {
        vstd::math::max(height(s.last()) as int, max_height(s.drop_last()) as int) as nat
    }
}

pub proof fn lemma_max_height(s: Seq<Control>, i: int)
    requires
        0 <= i < s.len(),
    ensures
        height(s[i]) <= max_height(s),
    decreases s.len(),
{
    if i < s.len() - 1 {
        lemma_max_height(s.drop_last(), i);
    }
}

/// A change asked for by a hook names only cells and groups of `comp`.
pub open spec fn change_wf(r: VisResult, comp: Component) -> bool {
    r matches Ok(Action::Change(c)) ==> comp.control_wf_in(*c)
}

/// What a hook on the whole component keeps: the component stays well
/// formed and keeps its cells and groups, and a change names only those.
pub open spec fn comp_hook_keeps(old: Component, new: Component, r: VisResult) -> bool {
    &&& new.wf()
    &&& new.extends(old)
    &&& change_wf(r, new)
}

/// What a hook on a node keeps: as `comp_hook_keeps`, and the node names
/// only cells and groups of the component.
pub open spec fn hook_keeps(old: Component, new: Component, node: Control, r: VisResult) -> bool {
    &&& comp_hook_keeps(old, new, r)
    &&& new.control_wf_in(node)
}

/// A hook run before the children of a node neither grows the node nor
/// breaks what `hook_keeps` says, so that the traversal ends.
pub open spec fn start_hook_keeps(
    old: Component,
    new: Component,
    old_node: Control,
    node: Control,
    r: VisResult,
) -> bool {
    &&& hook_keeps(old, new, node, r)
    &&& height(node) <= height(old_node)
}

/// Trait that describes named things. Running a pass by name requires this
/// to be implemented.
pub trait Named {
    /// The name of a pass. Is used for identifying passes.
    fn name() -> &'static str;

    /// A short description of the pass.
    fn description() -> &'static str;
}

/// The line that a pass named `name` logs for `context` and `msg`:
/// `name.context: msg`.
pub fn log_line(name: &str, context: &str, msg: &str) -> (r: String)
    ensures
        r@ == name@ + "."@ + context@ + ": "@ + msg@,
{
    let mut r = String::from_str(name);
    r.append(".");
    r.append(context);
    r.append(": ");
    r.append(msg);
    r
}

/// Trait defining method that can be used to construct a Visitor from a
/// [`Context`]. This is useful when a pass needs to construct information
/// using the context *before* visiting the components.
///
/// For passes that don't need to use the context, this trait is derived
/// from [Default].
pub trait ConstructVisitor: Visitor {
    /// Construction from a context never fails. An implementation that
    /// makes this promise overrides it with `true`.
    open spec fn from_never_fails() -> bool {
        false
    }

    /// What a visitor constructed by [ConstructVisitor::from] is (anything,
    /// unless the implementation says more).
    open spec fn is_constructed(v: Self) -> bool where Self: Sized {
        true
    }

    /// Construct the visitor using information from the Context
    fn from(ctx: &Context) -> (r: CalyxResult<Self>) where Self: Sized
        ensures
            Self::from_never_fails() ==> r is Ok,
            r matches Ok(v) ==> Self::is_constructed(v),
    ;

    /// What a visitor whose data has been cleared is (anything, unless the
    /// implementation says more).
    open spec fn is_cleared(v: Self) -> bool where Self: Sized {
        true
    }

    /// Clearing the data keeps the log of hook calls ([Visitor::log]). An
    /// implementation that makes this promise overrides it with `true`.
    open spec fn clear_keeps_log() -> bool {
        false
    }

    /// Clearing the data appends to the log of hook calls a call marking
    /// the clearing ([Hook::Clear]) and keeps the rest. An implementation
    /// that makes this promise overrides it with `true`.
    open spec fn clear_logs() -> bool {
        false
    }

    /// Clear the data stored in the visitor. Called before traversing the
    /// next component by [`Traversal::do_pass`].
    fn clear_data(&mut self) where Self: Sized
        ensures
            Self::is_cleared(*final(self)),
            Self::clear_keeps_log() ==> final(self).log() == old(self).log(),
            Self::clear_logs() ==> log_cleared(final(self).log(), old(self).log()),
    ;
}

/// Derive ConstructVisitor when [Default] is provided for a visitor.
impl<T: Default + Sized + Visitor> ConstructVisitor for T {
    open spec fn from_never_fails() -> bool {
        true
    }

    /// A constructed visitor is what `T::default()` gives.
    open spec fn is_constructed(v: Self) -> bool {
        call_ensures(T::default, (), v)
    }

    /// The visitor is `T::default()`.
    fn from(ctx: &Context) -> CalyxResult<Self> {
        Ok(T::default())
    }

    /// Clearing makes a new visitor, with whatever log it starts with.
    open spec fn clear_keeps_log() -> bool {
        false
    }

    /// Clearing is not logged.
    open spec fn clear_logs() -> bool {
        false
    }

    /// A cleared visitor is what `T::default()` gives.
    open spec fn is_cleared(v: Self) -> bool {
        call_ensures(T::default, (), v)
    }

    /// The visitor becomes `T::default()`.
    fn clear_data(&mut self) {
        *self = T::default();
    }
}

/// Moves every element out of `v` into a new vector with itertools'
/// `collect_vec` over `Vec::drain(..)`. Claimed: the new vector holds the
/// elements of `v` in order, and `v` is left empty.
#[verifier::external_body]
fn drain_all<T>(v: &mut Vec<T>) -> (r: Vec<T>)
    ensures
        r@ == old(v)@,
        final(v)@ == Seq::<T>::empty(),
{
    v.drain(..).collect_vec()
}

/// The visiting interface for a control program. Contains two kinds of
/// functions:
/// 1. start_<node>: Called when visiting <node> top-down.
/// 2. finish_<node>: Called when visiting <node> bottom-up.
///
/// A pass will usually override one or more function and rely on the default
/// visitors to automatically visit the children.
///
/// Every hook keeps the component well formed and keeps its cells and
/// groups; a hook run before the children of a node does not make the node
/// higher.
pub trait Visitor: Sized {
    /// No hook of this visitor ever answers an error. A visitor that makes
    /// this promise overrides it with `true`.
    open spec fn hooks_never_fail() -> bool {
        false
    }

    /// Every hook of this visitor answers `Continue` and changes neither its
    /// node nor the component. A visitor that makes this promise overrides
    /// it with `true`.
    open spec fn hooks_change_nothing() -> bool {
        false
    }

    /// The visitor keeps a log of the calls of its hooks: each hook, and
    /// nothing else of the traversal, appends its call to [Visitor::log]. A
    /// visitor that makes this promise overrides it with `true`.
    open spec fn keeps_log() -> bool {
        false
    }

    /// The hook calls logged so far.
    open spec fn log(&self) -> Seq<HookCall> {
        Seq::empty()
    }

    /// Logs one hook call: called by each default hook with its call.
    fn record(&mut self, call: HookNote)
        ensures
            Self::keeps_log() ==> final(self).log() == old(self).log().push(call@),
    ;

    /// Returns true if this pass requires a post-order traversal of the
    /// components. In a post-order traversal, if component `B` uses a
    /// component `A`, then `A` is traversed before `B`.
    fn require_postorder() -> (r: bool)
        default_ensures
            !r,
    {
        false
    }

    /// Executed before the traversal begins.
    fn start(
        &mut self,
        comp: &mut Component,
        sigs: &LibrarySignatures,
        comps: &[Component],
    ) -> (r: VisResult)
        requires
            old(comp).wf(),
        ensures
            comp_hook_keeps(*old(comp), *final(comp), r),
            Self::hooks_never_fail() ==> r is Ok,
            Self::hooks_change_nothing() ==> r == Ok::<Action, Error>(Action::Continue) && *final(comp) == *old(comp),
            Self::keeps_log() ==> final(self).log() == old(self).log().push(
                call_of(Hook::Start, old(comp).control, *old(comp), final(comp).control, *final(comp), r, comps@),
            ),
        default_ensures
            r == Ok::<Action, Error>(Action::Continue),
            *final(comp) == *old(comp),
    {
        self.record(
            Ghost(
                call_of(
                    Hook::Start,
                    comp.control,
                    *comp,
                    comp.control,
                    *comp,
                    Ok(Action::Continue),
                comps@,
                ),
            ),
        );
        Ok(Action::Continue)
    }

    /// Executed after the traversal ends, unless [Visitor::start] asked for
    /// something other than going on; the actions of the children do not
    /// matter.
    fn finish(
        &mut self,
        comp: &mut Component,
        sigs: &LibrarySignatures,
        comps: &[Component],
    ) -> (r: VisResult)
        requires
            old(comp).wf(),
        ensures
            comp_hook_keeps(*old(comp), *final(comp), r),
            Self::hooks_never_fail() ==> r is Ok,
            Self::hooks_change_nothing() ==> r == Ok::<Action, Error>(Action::Continue) && *final(comp) == *old(comp),
            Self::keeps_log() ==> final(self).log() == old(self).log().push(
                call_of(Hook::Finish, old(comp).control, *old(comp), final(comp).control, *final(comp), r, comps@),
            ),
        default_ensures
            r == Ok::<Action, Error>(Action::Continue),
            *final(comp) == *old(comp),
    {
        self.record(
            Ghost(
                call_of(
                    Hook::Finish,
                    comp.control,
                    *comp,
                    comp.control,
                    *comp,
                    Ok(Action::Continue),
                comps@,
                ),
            ),
        );
        Ok(Action::Continue)
    }

    /// Executed before visiting the children of a [Sequence] node.
    fn start_seq(
        &mut self,
        s: &mut Sequence,
        comp: &mut Component,
        sigs: &LibrarySignatures,
        comps: &[Component],
    ) -> (r: VisResult)
        requires
            old(comp).wf(),
            old(comp).control_wf_in(Control::Sequence(*old(s))),
        ensures
            start_hook_keeps(
                *old(comp),
                *final(comp),
                Control::Sequence(*old(s)),
                Control::Sequence(*final(s)),
                r,
            ),
            Self::hooks_never_fail() ==> r is Ok,
            Self::hooks_change_nothing() ==> r == Ok::<Action, Error>(Action::Continue) && *final(comp) == *old(comp) && *final(s) == *old(s),
            Self::keeps_log() ==> final(self).log() == old(self).log().push(
                call_of(Hook::StartSeq, Control::Sequence(*old(s)), *old(comp), Control::Sequence(*final(s)), *final(comp), r, comps@),
            ),
        default_ensures
            r == Ok::<Action, Error>(Action::Continue),
            *final(comp) == *old(comp),
            *final(s) == *old(s),
    {
        self.record(
            Ghost(
                call_of(
                    Hook::StartSeq,
                    Control::Sequence(*s),
                    *comp,
                    Control::Sequence(*s),
                    *comp,
                    Ok(Action::Continue),
                comps@,
                ),
            ),
        );
        Ok(Action::Continue)
    }

    /// Executed after visiting the children of a [Sequence] node.
    fn finish_seq(
        &mut self,
        s: &mut Sequence,
        comp: &mut Component,
        sigs: &LibrarySignatures,
        comps: &[Component],
    ) -> (r: VisResult)
        requires
            old(comp).wf(),
            old(comp).control_wf_in(Control::Sequence(*old(s))),
        ensures
            hook_keeps(*old(comp), *final(comp), Control::Sequence(*final(s)), r),
            Self::hooks_never_fail() ==> r is Ok,
            Self::hooks_change_nothing() ==> r == Ok::<Action, Error>(Action::Continue) && *final(comp) == *old(comp) && *final(s) == *old(s),
            Self::keeps_log() ==> final(self).log() == old(self).log().push(
                call_of(Hook::FinishSeq, Control::Sequence(*old(s)), *old(comp), Control::Sequence(*final(s)), *final(comp), r, comps@),
            ),
        default_ensures
            r == Ok::<Action, Error>(Action::Continue),
            *final(comp) == *old(comp),
            *final(s) == *old(s),
    {
        self.record(
            Ghost(
                call_of(
                    Hook::FinishSeq,
                    Control::Sequence(*s),
                    *comp,
                    Control::Sequence(*s),
                    *comp,
                    Ok(Action::Continue),
                comps@,
                ),
            ),
        );
        Ok(Action::Continue)
    }

    /// Executed before visiting the children of a [Par] node.
    fn start_par(
        &mut self,
        s: &mut Par,
        comp: &mut Component,
        sigs: &LibrarySignatures,
        comps: &[Component],
    ) -> (r: VisResult)
        requires
            old(comp).wf(),
            old(comp).control_wf_in(Control::Par(*old(s))),
        ensures
            start_hook_keeps(
                *old(comp),
                *final(comp),
                Control::Par(*old(s)),
                Control::Par(*final(s)),
                r,
            ),
            Self::hooks_never_fail() ==> r is Ok,
            Self::hooks_change_nothing() ==> r == Ok::<Action, Error>(Action::Continue) && *final(comp) == *old(comp) && *final(s) == *old(s),
            Self::keeps_log() ==> final(self).log() == old(self).log().push(
                call_of(Hook::StartPar, Control::Par(*old(s)), *old(comp), Control::Par(*final(s)), *final(comp), r, comps@),
            ),
        default_ensures
            r == Ok::<Action, Error>(Action::Continue),
            *final(comp) == *old(comp),
            *final(s) == *old(s),
    {
        self.record(
            Ghost(
                call_of(
                    Hook::StartPar,
                    Control::Par(*s),
                    *comp,
                    Control::Par(*s),
                    *comp,
                    Ok(Action::Continue),
                comps@,
                ),
            ),
        );
        Ok(Action::Continue)
    }

    /// Executed after visiting the children of a [Par] node.
    fn finish_par(
        &mut self,
        s: &mut Par,
        comp: &mut Component,
        sigs: &LibrarySignatures,
        comps: &[Component],
    ) -> (r: VisResult)
        requires
            old(comp).wf(),
            old(comp).control_wf_in(Control::Par(*old(s))),
        ensures
            hook_keeps(*old(comp), *final(comp), Control::Par(*final(s)), r),
            Self::hooks_never_fail() ==> r is Ok,
            Self::hooks_change_nothing() ==> r == Ok::<Action, Error>(Action::Continue) && *final(comp) == *old(comp) && *final(s) == *old(s),
            Self::keeps_log() ==> final(self).log() == old(self).log().push(
                call_of(Hook::FinishPar, Control::Par(*old(s)), *old(comp), Control::Par(*final(s)), *final(comp), r, comps@),
            ),
        default_ensures
            r == Ok::<Action, Error>(Action::Continue),
            *final(comp) == *old(comp),
            *final(s) == *old(s),
    {
        self.record(
            Ghost(
                call_of(
                    Hook::FinishPar,
                    Control::Par(*s),
                    *comp,
                    Control::Par(*s),
                    *comp,
                    Ok(Action::Continue),
                comps@,
                ),
            ),
        );
        Ok(Action::Continue)
    }

    /// Executed before visiting the children of an [If] node.
    fn start_if(
        &mut self,
        s: &mut If,
        comp: &mut Component,
        sigs: &LibrarySignatures,
        comps: &[Component],
    ) -> (r: VisResult)
        requires
            old(comp).wf(),
            old(comp).control_wf_in(Control::If(*old(s))),
        ensures
            start_hook_keeps(
                *old(comp),
                *final(comp),
                Control::If(*old(s)),
                Control::If(*final(s)),
                r,
            ),
            Self::hooks_never_fail() ==> r is Ok,
            Self::hooks_change_nothing() ==> r == Ok::<Action, Error>(Action::Continue) && *final(comp) == *old(comp) && *final(s) == *old(s),
            Self::keeps_log() ==> final(self).log() == old(self).log().push(
                call_of(Hook::StartIf, Control::If(*old(s)), *old(comp), Control::If(*final(s)), *final(comp), r, comps@),
            ),
        default_ensures
            r == Ok::<Action, Error>(Action::Continue),
            *final(comp) == *old(comp),
            *final(s) == *old(s),
    {
        self.record(
            Ghost(
                call_of(
                    Hook::StartIf,
                    Control::If(*s),
                    *comp,
                    Control::If(*s),
                    *comp,
                    Ok(Action::Continue),
                comps@,
                ),
            ),
        );
        Ok(Action::Continue)
    }

    /// Executed after visiting the children of an [If] node.
    fn finish_if(
        &mut self,
        s: &mut If,
        comp: &mut Component,
        sigs: &LibrarySignatures,
        comps: &[Component],
    ) -> (r: VisResult)
        requires
            old(comp).wf(),
            old(comp).control_wf_in(Control::If(*old(s))),
        ensures
            hook_keeps(*old(comp), *final(comp), Control::If(*final(s)), r),
            Self::hooks_never_fail() ==> r is Ok,
            Self::hooks_change_nothing() ==> r == Ok::<Action, Error>(Action::Continue) && *final(comp) == *old(comp) && *final(s) == *old(s),
            Self::keeps_log() ==> final(self).log() == old(self).log().push(
                call_of(Hook::FinishIf, Control::If(*old(s)), *old(comp), Control::If(*final(s)), *final(comp), r, comps@),
            ),
        default_ensures
            r == Ok::<Action, Error>(Action::Continue),
            *final(comp) == *old(comp),
            *final(s) == *old(s),
    {
        self.record(
            Ghost(
                call_of(
                    Hook::FinishIf,
                    Control::If(*s),
                    *comp,
                    Control::If(*s),
                    *comp,
                    Ok(Action::Continue),
                comps@,
                ),
            ),
        );
        Ok(Action::Continue)
    }

    /// Executed before visiting the children of a [While] node.
    fn start_while(
        &mut self,
        s: &mut While,
        comp: &mut Component,
        sigs: &LibrarySignatures,
        comps: &[Component],
    ) -> (r: VisResult)
        requires
            old(comp).wf(),
            old(comp).control_wf_in(Control::While(*old(s))),
        ensures
            start_hook_keeps(
                *old(comp),
                *final(comp),
                Control::While(*old(s)),
                Control::While(*final(s)),
                r,
            ),
            Self::hooks_never_fail() ==> r is Ok,
            Self::hooks_change_nothing() ==> r == Ok::<Action, Error>(Action::Continue) && *final(comp) == *old(comp) && *final(s) == *old(s),
            Self::keeps_log() ==> final(self).log() == old(self).log().push(
                call_of(Hook::StartWhile, Control::While(*old(s)), *old(comp), Control::While(*final(s)), *final(comp), r, comps@),
            ),
        default_ensures
            r == Ok::<Action, Error>(Action::Continue),
            *final(comp) == *old(comp),
            *final(s) == *old(s),
    {
        self.record(
            Ghost(
                call_of(
                    Hook::StartWhile,
                    Control::While(*s),
                    *comp,
                    Control::While(*s),
                    *comp,
                    Ok(Action::Continue),
                comps@,
                ),
            ),
        );
        Ok(Action::Continue)
    }

    /// Executed after visiting the children of a [While] node.
    fn finish_while(
        &mut self,
        s: &mut While,
        comp: &mut Component,
        sigs: &LibrarySignatures,
        comps: &[Component],
    ) -> (r: VisResult)
        requires
            old(comp).wf(),
            old(comp).control_wf_in(Control::While(*old(s))),
        ensures
            hook_keeps(*old(comp), *final(comp), Control::While(*final(s)), r),
            Self::hooks_never_fail() ==> r is Ok,
            Self::hooks_change_nothing() ==> r == Ok::<Action, Error>(Action::Continue) && *final(comp) == *old(comp) && *final(s) == *old(s),
            Self::keeps_log() ==> final(self).log() == old(self).log().push(
                call_of(Hook::FinishWhile, Control::While(*old(s)), *old(comp), Control::While(*final(s)), *final(comp), r, comps@),
            ),
        default_ensures
            r == Ok::<Action, Error>(Action::Continue),
            *final(comp) == *old(comp),
            *final(s) == *old(s),
    {
        self.record(
            Ghost(
                call_of(
                    Hook::FinishWhile,
                    Control::While(*s),
                    *comp,
                    Control::While(*s),
                    *comp,
                    Ok(Action::Continue),
                comps@,
                ),
            ),
        );
        Ok(Action::Continue)
    }

    /// Executed at an [Enable] node.
    fn enable(
        &mut self,
        s: &mut Enable,
        comp: &mut Component,
        sigs: &LibrarySignatures,
        comps: &[Component],
    ) -> (r: VisResult)
        requires
            old(comp).wf(),
            old(comp).control_wf_in(Control::Enable(*old(s))),
        ensures
            hook_keeps(*old(comp), *final(comp), Control::Enable(*final(s)), r),
            Self::hooks_never_fail() ==> r is Ok,
            Self::hooks_change_nothing() ==> r == Ok::<Action, Error>(Action::Continue) && *final(comp) == *old(comp) && *final(s) == *old(s),
            Self::keeps_log() ==> final(self).log() == old(self).log().push(
                call_of(Hook::Enable, Control::Enable(*old(s)), *old(comp), Control::Enable(*final(s)), *final(comp), r, comps@),
            ),
        default_ensures
            r == Ok::<Action, Error>(Action::Continue),
            *final(comp) == *old(comp),
            *final(s) == *old(s),
    {
        self.record(
            Ghost(
                call_of(
                    Hook::Enable,
                    Control::Enable(*s),
                    *comp,
                    Control::Enable(*s),
                    *comp,
                    Ok(Action::Continue),
                comps@,
                ),
            ),
        );
        Ok(Action::Continue)
    }

    /// Executed at an [Invoke] node.
    fn invoke(
        &mut self,
        s: &mut Invoke,
        comp: &mut Component,
        sigs: &LibrarySignatures,
        comps: &[Component],
    ) -> (r: VisResult)
        requires
            old(comp).wf(),
            old(comp).control_wf_in(Control::Invoke(*old(s))),
        ensures
            hook_keeps(*old(comp), *final(comp), Control::Invoke(*final(s)), r),
            Self::hooks_never_fail() ==> r is Ok,
            Self::hooks_change_nothing() ==> r == Ok::<Action, Error>(Action::Continue) && *final(comp) == *old(comp) && *final(s) == *old(s),
            Self::keeps_log() ==> final(self).log() == old(self).log().push(
                call_of(Hook::Invoke, Control::Invoke(*old(s)), *old(comp), Control::Invoke(*final(s)), *final(comp), r, comps@),
            ),
        default_ensures
            r == Ok::<Action, Error>(Action::Continue),
            *final(comp) == *old(comp),
            *final(s) == *old(s),
    {
        self.record(
            Ghost(
                call_of(
                    Hook::Invoke,
                    Control::Invoke(*s),
                    *comp,
                    Control::Invoke(*s),
                    *comp,
                    Ok(Action::Continue),
                comps@,
                ),
            ),
        );
        Ok(Action::Continue)
    }

    /// Executed at an [Empty] node.
    fn empty(
        &mut self,
        s: &mut Empty,
        comp: &mut Component,
        sigs: &LibrarySignatures,
        comps: &[Component],
    ) -> (r: VisResult)
        requires
            old(comp).wf(),
            old(comp).control_wf_in(Control::Empty(*old(s))),
        ensures
            hook_keeps(*old(comp), *final(comp), Control::Empty(*final(s)), r),
            Self::hooks_never_fail() ==> r is Ok,
            Self::hooks_change_nothing() ==> r == Ok::<Action, Error>(Action::Continue) && *final(comp) == *old(comp) && *final(s) == *old(s),
            Self::keeps_log() ==> final(self).log() == old(self).log().push(
                call_of(Hook::Empty, Control::Empty(*old(s)), *old(comp), Control::Empty(*final(s)), *final(comp), r, comps@),
            ),
        default_ensures
            r == Ok::<Action, Error>(Action::Continue),
            *final(comp) == *old(comp),
            *final(s) == *old(s),
    {
        self.record(
            Ghost(
                call_of(
                    Hook::Empty,
                    Control::Empty(*s),
                    *comp,
                    Control::Empty(*s),
                    *comp,
                    Ok(Action::Continue),
                comps@,
                ),
            ),
        );
        Ok(Action::Continue)
    }
}

/// Each component of `new` has at least the cells and groups of the
/// component at the same position in `old`, and there are as many.
pub open spec fn components_extend(new: Seq<Component>, old: Seq<Component>) -> bool {
    &&& new.len() == old.len()
    &&& forall|i: int| 0 <= i < new.len() ==> #[trigger] new[i].extends(old[i])
}

/// `new` holds the same components as `old`, in the same order.
pub open spec fn components_same(new: Seq<Component>, old: Seq<Component>) -> bool {
    &&& new.len() == old.len()
    &&& forall|i: int| 0 <= i < new.len() ==> #[trigger] same_component(new[i], old[i])
}

/// Running a [Visitor] over components and programs. Every visitor has these
/// methods.
pub trait Traversal: Visitor {
    /// Define the traversal over a component.
    /// Calls [Visitor::start], visits each control node, and finally calls
    /// [Visitor::finish].
    fn traverse_component(
        &mut self,
        comp: &mut Component,
        signatures: &LibrarySignatures,
        components: &[Component],
    ) -> (r: CalyxResult<()>)
        requires
            old(comp).wf(),
        ensures
            final(comp).wf(),
            final(comp).extends(*old(comp)),
            Self::hooks_never_fail() ==> r is Ok,
            Self::hooks_change_nothing() ==> r is Ok && same_component(*final(comp), *old(comp)),
            Self::keeps_log() ==> log_extends(final(self).log(), old(self).log()) && component_ran(
                *old(comp),
                components@,
                final(self).log(),
                old(self).log().len() as int,
                *final(comp),
                r,
            ),
    ;

    /// Run the visitor on a given program [`Context`]. Each component is
    /// traversed in turn, seeing the others; after each, the visitor is reset
    /// with [ConstructVisitor::clear_data]. When the visitor asks for a
    /// post-order traversal, the components are traversed in the order of
    /// [`post_order`], and a cycle of instances is refused. On an error the
    /// program is left without components.
    ///
    /// For a visitor that logs its hook calls and keeps the log when cleared,
    /// the calls of the pass are the traversals ([`crate::trace::component_run`])
    /// of every component once, in the order of the list or, when the visitor
    /// asks for it, in a post-order; each component ends as its traversal
    /// left it.
    fn do_pass(&mut self, context: &mut Context) -> (r: CalyxResult<()>) where
        Self: ConstructVisitor,
        requires
            old(context).wf(),
        ensures
            r is Ok ==> final(context).wf() && components_extend(
                final(context).components@,
                old(context).components@,
            ),
            r is Err ==> final(context).components@.len() == 0,
            Self::hooks_never_fail() && (exists|o: Seq<usize>|
                is_post_order(old(context).components@, o)) ==> r is Ok,
            Self::hooks_change_nothing() && r is Ok ==> components_same(
                final(context).components@,
                old(context).components@,
            ),
            r is Ok && old(context).components@.len() > 0 ==> Self::is_cleared(*final(self)),
            r is Ok && old(context).components@.len() == 0 ==> *final(self) == *old(self),
            old(context).components@.len() == 0 ==> r is Ok && final(context).components@.len()
                == 0,
            final(context).lib == old(context).lib,
            (forall|b: bool| #[trigger] call_ensures(Self::require_postorder, (), b) ==> b) && !(
            exists|o: Seq<usize>| is_post_order(old(context).components@, o)) ==> r is Err,
            Self::keeps_log() && Self::clear_keeps_log() && r is Err ==> (final(self).log()
                == old(self).log() && !(exists|o: Seq<usize>|
                is_post_order(old(context).components@, o))) || exists|o: Seq<usize>, k: int|
                {
                    &&& (o == upto(old(context).components@.len()) || is_post_order(
                        old(context).components@,
                        o,
                    ))
                    &&& log_extends(final(self).log(), old(self).log())
                    &&& #[trigger] pass_failed(
                        old(context).components@,
                        o,
                        k,
                        final(self).log(),
                        old(self).log().len() as int,
                        r->Err_0,
                    )
                },
            Self::keeps_log() && Self::clear_keeps_log() && r is Ok ==> log_extends(
                final(self).log(),
                old(self).log(),
            ) && exists|o: Seq<usize>|
                {
                    &&& (o == upto(old(context).components@.len()) || is_post_order(
                        old(context).components@,
                        o,
                    ))
                    &&& ((forall|b: bool| #[trigger]
                        call_ensures(Self::require_postorder, (), b) ==> b) ==> is_post_order(
                        old(context).components@,
                        o,
                    ))
                    &&& ((forall|b: bool| #[trigger]
                        call_ensures(Self::require_postorder, (), b) ==> !b) ==> o == upto(
                        old(context).components@.len(),
                    ))
                    &&& #[trigger] pass_ran(
                        old(context).components@,
                        o,
                        final(self).log(),
                        old(self).log().len() as int,
                        final(context).components@,
                    )
                },
            Self::keeps_log() && Self::clear_logs() && r is Ok ==> log_extends(
                final(self).log(),
                old(self).log(),
            ) && exists|o: Seq<usize>|
                #![trigger cleared_pass_ran(old(context).components@, o, final(self).log(), old(self).log().len() as int, final(context).components@)]
                cleared_pass_ran(
                    old(context).components@,
                    o,
                    final(self).log(),
                    old(self).log().len() as int,
                    final(context).components@,
                ) && (o == upto(old(context).components@.len()) || is_post_order(
                    old(context).components@,
                    o,
                )),
    ;

    /// Build a [Default] implementation of this pass and call
    /// [Traversal::do_pass] using it.
    fn do_pass_default(context: &mut Context) -> (r: CalyxResult<Self>) where
        Self: ConstructVisitor,
        requires
            old(context).wf(),
        ensures
            r is Ok ==> final(context).wf() && components_extend(
                final(context).components@,
                old(context).components@,
            ),
            r is Err ==> final(context).components@.len() == 0 || *final(context)
                == *old(context),
            Self::from_never_fails() && Self::hooks_never_fail() && (exists|o: Seq<usize>|
                is_post_order(old(context).components@, o)) ==> r is Ok,
            Self::hooks_change_nothing() && r is Ok ==> components_same(
                final(context).components@,
                old(context).components@,
            ),
            final(context).lib == old(context).lib,
            r matches Ok(v) ==> if old(context).components@.len() > 0 {
                Self::is_cleared(v)
            } else {
                Self::is_constructed(v)
            },
            Self::from_never_fails() && r is Err ==> final(context).components@.len() == 0,
            Self::keeps_log() && Self::clear_keeps_log() && r is Ok ==> exists|o: Seq<usize>, p: int|
                #![trigger pass_ran(old(context).components@, o, r->Ok_0.log(), p, final(context).components@)]
                pass_ran(old(context).components@, o, r->Ok_0.log(), p, final(context).components@)
                    && (o == upto(old(context).components@.len()) || is_post_order(
                    old(context).components@,
                    o,
                )) && ((forall|b: bool| #[trigger]
                    call_ensures(Self::require_postorder, (), b) ==> b) ==> is_post_order(
                    old(context).components@,
                    o,
                )) && ((forall|b: bool| #[trigger]
                    call_ensures(Self::require_postorder, (), b) ==> !b) ==> o == upto(
                    old(context).components@.len(),
                )),
    ;
}

impl<T: Visitor> Traversal for T {
    /// Define the traversal over a component.
    /// Calls [Visitor::start], visits each control node, and finally calls
    /// [Visitor::finish].
    fn traverse_component(
        &mut self,
        comp: &mut Component,
        signatures: &LibrarySignatures,
        components: &[Component],
    ) -> (r: CalyxResult<()>)
    {
        let ghost comp0 = *comp;
        proof {
            lemma_same_control_refl(comp.control);
        }
        let a = match self.start(comp, signatures, components) {
            Ok(a) => a,
            Err(e) => {
                return Err(e);
            },
        };
        let ghost comp1 = *comp;
        let ghost p0 = old(self).log().len() as int;
        let b = match a {
            Action::Continue => {
                if let Control::Empty(_) = &comp.control {
                    // Don't traverse if the control program is empty.
                    Action::Continue
                } else {
                    // The control program is taken out of the component
                    // while it is traversed, and put back afterwards.
                    let mut control = Control::empty();
                    std::mem::swap(&mut control, &mut comp.control);
                    let res = control.visit(self, comp, signatures, components);
                    std::mem::swap(&mut control, &mut comp.control);
                    match res {
                        Ok(_) => {},
                        Err(e) => {
                            return Err(e);
                        },
                    }
                    Action::Continue
                }
            },
            other => other,
        };
        let ghost log2 = self.log();
        let c = match b {
            Action::Continue => match self.finish(comp, signatures, components) {
                Ok(x) => {
                    proof {
                        if Self::keeps_log() && a is Continue && !(comp1.control is Empty) {
                            lemma_visit_run_frame(
                                comp1.control,
                                Component { control: Control::Empty(Empty {}), ..comp1 },
                                components@,
                                log2,
                                self.log(),
                                p0 + 1,
                            );
                        }
                    }
                    x
                },
                Err(e) => {
                    proof {
                        if Self::keeps_log() && a is Continue && !(comp1.control is Empty) {
                            lemma_visit_run_frame(
                                comp1.control,
                                Component { control: Control::Empty(Empty {}), ..comp1 },
                                components@,
                                log2,
                                self.log(),
                                p0 + 1,
                            );
                        }
                    }
                    return Err(e);
                },
            },
            other => other,
        };
        c.apply_change(&mut comp.control);
        proof {
            if Self::hooks_change_nothing() {
                assert(same_component(*comp, comp0));
            }
        }
        Ok(())
    }

    /// Run the visitor on a given program [`Context`]. Each component is
    /// traversed in turn, seeing the others; after each, the visitor is reset
    /// with [ConstructVisitor::clear_data].
    fn do_pass(&mut self, context: &mut Context) -> (r: CalyxResult<()>) where
        Self: ConstructVisitor,
    {
        let ghost orig = context.components@;
        let ghost self0 = *self;
        let ghost log0 = self.log();
        let ghost p0 = log0.len() as int;
        let signatures = context.lib;
        let mut comps = drain_all(&mut context.components);
        let n = comps.len();
        proof {
            assert forall|i: int| 0 <= i < n implies #[trigger] same_component(comps@[i], orig[i]) by {
                lemma_same_control_refl(orig[i].control);
            }
        }
        proof {
            if n == 0 {
                assert(is_post_order(comps@, Seq::<usize>::empty()));
            }
        }
        let ghost mut chosen: Seq<usize> = upto(n as nat);
        let ask = Self::require_postorder;
        let postorder = ask();
        proof {
            assert(pass_ran(orig, Seq::<usize>::empty(), log0, p0, comps@));
            assert(cleared_pass_ran(orig, Seq::<usize>::empty(), log0, p0, comps@));
            assert(upto(0) =~= Seq::<usize>::empty());
            assert(call_ensures(Self::require_postorder, (), postorder));
        }
        if postorder {
            // Components are traversed so that each one comes after the
            // components it instantiates.
            let order = match post_order(&comps) {
                Some(o) => o,
                None => {
                    return Err(
                        Error::MalformedStructure(
                            String::from_str("There is a cycle in definition of component cells"),
                        ),
                    );
                },
            };
            proof {
                if n > 0 {
                    assert(crate::post_order::appears(order@, 0));
                } else if order@.len() > 0 {
                    assert(order@[0] < n);
                }
            }
            let mut k: usize = 0;
            while k < order.len()
                invariant
                    n == comps@.len(),
                    k <= order@.len(),
                    k > 0 ==> Self::is_cleared(*self),
                    k == 0 ==> *self == self0,
                    n > 0 ==> order@.len() > 0,
                    n == 0 ==> order@.len() == 0,
                    forall|p: int| 0 <= p < order@.len() ==> #[trigger] order@[p] < n,
                    context.components@.len() == 0,
                    forall|i: int| 0 <= i < comps@.len() ==> #[trigger] comps@[i].wf(),
                    orig == old(context).components@,
                    components_extend(comps@, orig),
                    Self::hooks_change_nothing() ==> components_same(comps@, orig),
                    is_post_order(orig, order@),
                    forall|t: int| k <= t < order@.len() ==> #[trigger] comps@[order@[t] as int] == orig[order@[t] as int],
                    Self::keeps_log() && Self::clear_keeps_log() ==> log_extends(self.log(), log0)
                        && pass_ran(orig, order@.take(k as int), self.log(), p0, comps@),
                    Self::keeps_log() && Self::clear_logs() ==> log_extends(self.log(), log0)
                        && cleared_pass_ran(orig, order@.take(k as int), self.log(), p0, comps@),
                    p0 == log0.len(),
                    log0 == old(self).log(),
                decreases order@.len() - k,
            {
                let idx = order[k];
                let ghost before = comps@;
                let ghost lb = self.log();
                let mut comp = comps.remove(idx);
                proof {
                    assert(comp == orig[order@[k as int] as int]);
                }
                let ghost others = comps@;
                match self.traverse_component(&mut comp, &signatures, comps.as_slice()) {
                    Ok(_) => {},
                    Err(e) => {
                        proof {
                            if Self::keeps_log() && Self::clear_keeps_log() {
                                lemma_pass_run_frame(orig, order@.take(k as int), lb, self.log(), p0);
                                assert(pass_failed(orig, order@, k as int, self.log(), p0, e));
                                assert(log_extends(self.log(), log0)) by {
                                    assert forall|i: int| 0 <= i < log0.len() implies #[trigger] self.log()[i] == log0[i] by {
                                        assert(lb[i] == log0[i]);
                                    }
                                }
                                assert(orig == old(context).components@);
                                assert(p0 == old(self).log().len());
                                assert(exists|o: Seq<usize>, k: int|
                                    {
                                        &&& (o == upto(old(context).components@.len()) || is_post_order(
                                            old(context).components@,
                                            o,
                                        ))
                                        &&& log_extends(self.log(), old(self).log())
                                        &&& #[trigger] pass_failed(
                                            old(context).components@,
                                            o,
                                            k,
                                            self.log(),
                                            old(self).log().len() as int,
                                            e,
                                        )
                                    }) by {
                                    assert(pass_failed(old(context).components@, order@, k as int, self.log(), old(self).log().len() as int, e));
                                }
                            }
                        }
                        return Err(e);
                    },
                }
                let ghost la = self.log();
                self.clear_data();
                comps.insert(idx, comp);
                assert(comps@ =~= before.update(idx as int, comp));
                proof {
                    if Self::keeps_log() && Self::clear_logs() {
                        let lc = self.log();
                        lemma_cleared_pass_run_frame(orig, order@.take(k as int), lb, lc, p0);
                        lemma_component_run_frame(orig[idx as int], others, la, lc, lb.len() as int);
                        assert(order@.take(k + 1).drop_last() =~= order@.take(k as int));
                        lemma_cleared_pass_run_len(orig, order@.take(k + 1), lc, p0);
                        let (q, res) = cleared_pass_run(orig, order@.take(k + 1), lc, p0).unwrap();
                        let (q0, res0) = cleared_pass_run(orig, order@.take(k as int), lb, p0).unwrap();
                        assert(res == res0.push(res[k as int]));
                        assert forall|t: int| 0 <= t < k + 1 implies {
                            &&& same_but_control(#[trigger] comps@[order@.take(k + 1)[t] as int], res[t].0)
                            &&& has_shape(comps@[order@.take(k + 1)[t] as int].control, res[t].1)
                        } by {
                            if t < k {
                                assert(order@.take(k + 1)[t] == order@.take(k as int)[t]);
                                assert(order@[t] != order@[k as int]);
                                assert(res[t] == res0[t]);
                            }
                        }
                    }
                }
                proof {
                    if Self::keeps_log() && Self::clear_keeps_log() {
                        lemma_pass_run_frame(orig, order@.take(k as int), lb, la, p0);
                        assert(order@.take(k + 1).drop_last() =~= order@.take(k as int));
                        lemma_pass_run_len(orig, order@.take(k + 1), la, p0);
                        let (q, res) = pass_run(orig, order@.take(k + 1), la, p0).unwrap();
                        let (q0, res0) = pass_run(orig, order@.take(k as int), lb, p0).unwrap();
                        assert(res == res0.push(res[k as int]));
                        assert forall|t: int| 0 <= t < k + 1 implies {
                            &&& same_but_control(#[trigger] comps@[order@.take(k + 1)[t] as int], res[t].0)
                            &&& has_shape(comps@[order@.take(k + 1)[t] as int].control, res[t].1)
                        } by {
                            if t < k {
                                assert(order@.take(k + 1)[t] == order@.take(k as int)[t]);
                                assert(order@[t] != order@[k as int]);
                                assert(res[t] == res0[t]);
                            }
                        }
                    }
                    assert forall|t: int| k + 1 <= t < order@.len() implies #[trigger] comps@[order@[t] as int] == orig[order@[t] as int] by {
                        assert(order@[t] != order@[k as int]);
                    }
                }
                proof {
                    assert forall|i: int| 0 <= i < comps@.len() implies #[trigger] comps@[i].extends(
                        orig[i],
                    ) by {
                        assert(before[i].extends(orig[i]));
                    }
                    if Self::hooks_change_nothing() {
                        assert forall|i: int| 0 <= i < comps@.len() implies #[trigger] same_component(
                            comps@[i],
                            orig[i],
                        ) by {
                            assert(same_component(before[i], orig[i]));
                            if i == idx as int {
                                lemma_same_control_trans(comps@[i].control, before[i].control, orig[i].control);
                            }
                        }
                    }
                }
                k += 1;
            }
            proof {
                assert(order@.take(order@.len() as int) =~= order@);
                chosen = order@;
            }
        } else {
            let mut idx: usize = 0;
            while idx < n
                invariant
                    n == comps@.len(),
                    idx <= n,
                    idx > 0 ==> Self::is_cleared(*self),
                    idx == 0 ==> *self == self0,
                    context.components@.len() == 0,
                    forall|i: int| 0 <= i < comps@.len() ==> #[trigger] comps@[i].wf(),
                    orig == old(context).components@,
                    components_extend(comps@, orig),
                    Self::hooks_change_nothing() ==> components_same(comps@, orig),
                    forall|j: int| idx <= j < n ==> #[trigger] comps@[j] == orig[j],
                    Self::keeps_log() && Self::clear_keeps_log() ==> log_extends(self.log(), log0)
                        && pass_ran(orig, upto(idx as nat), self.log(), p0, comps@),
                    Self::keeps_log() && Self::clear_logs() ==> log_extends(self.log(), log0)
                        && cleared_pass_ran(orig, upto(idx as nat), self.log(), p0, comps@),
                    p0 == log0.len(),
                    log0 == old(self).log(),
                decreases n - idx,
            {
                let ghost before = comps@;
                let ghost lb = self.log();
                let mut comp = comps.remove(idx);
                proof {
                    assert(comp == orig[idx as int]);
                }
                let ghost others = comps@;
                match self.traverse_component(&mut comp, &signatures, comps.as_slice()) {
                    Ok(_) => {},
                    Err(e) => {
                        proof {
                            if Self::keeps_log() && Self::clear_keeps_log() {
                                lemma_pass_run_frame(orig, upto(idx as nat), lb, self.log(), p0);
                                assert(upto(n as nat).take(idx as int) =~= upto(idx as nat));
                                assert(pass_failed(orig, upto(n as nat), idx as int, self.log(), p0, e));
                                assert(log_extends(self.log(), log0)) by {
                                    assert forall|i: int| 0 <= i < log0.len() implies #[trigger] self.log()[i] == log0[i] by {
                                        assert(lb[i] == log0[i]);
                                    }
                                }
                                assert(orig == old(context).components@);
                                assert(p0 == old(self).log().len());
                                assert(exists|o: Seq<usize>, k: int|
                                    {
                                        &&& (o == upto(old(context).components@.len()) || is_post_order(
                                            old(context).components@,
                                            o,
                                        ))
                                        &&& log_extends(self.log(), old(self).log())
                                        &&& #[trigger] pass_failed(
                                            old(context).components@,
                                            o,
                                            k,
                                            self.log(),
                                            old(self).log().len() as int,
                                            e,
                                        )
                                    }) by {
                                    assert(pass_failed(old(context).components@, upto(n as nat), idx as int, self.log(), old(self).log().len() as int, e));
                                }
                            }
                        }
                        return Err(e);
                    },
                }
                let ghost la = self.log();
                self.clear_data();
                comps.insert(idx, comp);
                assert(comps@ =~= before.update(idx as int, comp));
                proof {
                    if Self::keeps_log() && Self::clear_logs() {
                        let lc = self.log();
                        lemma_cleared_pass_run_frame(orig, upto(idx as nat), lb, lc, p0);
                        lemma_component_run_frame(orig[idx as int], others, la, lc, lb.len() as int);
                        assert(upto((idx + 1) as nat).drop_last() =~= upto(idx as nat));
                        lemma_cleared_pass_run_len(orig, upto((idx + 1) as nat), lc, p0);
                        let (q, res) = cleared_pass_run(orig, upto((idx + 1) as nat), lc, p0).unwrap();
                        let (q0, res0) = cleared_pass_run(orig, upto(idx as nat), lb, p0).unwrap();
                        assert(res == res0.push(res[idx as int]));
                        assert forall|t: int| 0 <= t < idx + 1 implies {
                            &&& same_but_control(#[trigger] comps@[upto((idx + 1) as nat)[t] as int], res[t].0)
                            &&& has_shape(comps@[upto((idx + 1) as nat)[t] as int].control, res[t].1)
                        } by {
                            if t < idx {
                                assert(upto((idx + 1) as nat)[t] == upto(idx as nat)[t]);
                                assert(res[t] == res0[t]);
                            }
                        }
                    }
                }
                proof {
                    if Self::keeps_log() && Self::clear_keeps_log() {
                        lemma_pass_run_frame(orig, upto(idx as nat), lb, la, p0);
                        assert(upto((idx + 1) as nat).drop_last() =~= upto(idx as nat));
                        lemma_pass_run_len(orig, upto((idx + 1) as nat), la, p0);
                        let (q, res) = pass_run(orig, upto((idx + 1) as nat), la, p0).unwrap();
                        let (q0, res0) = pass_run(orig, upto(idx as nat), lb, p0).unwrap();
                        assert(res == res0.push(res[idx as int]));
                        assert forall|t: int| 0 <= t < idx + 1 implies {
                            &&& same_but_control(#[trigger] comps@[upto((idx + 1) as nat)[t] as int], res[t].0)
                            &&& has_shape(comps@[upto((idx + 1) as nat)[t] as int].control, res[t].1)
                        } by {
                            if t < idx {
                                assert(upto((idx + 1) as nat)[t] == upto(idx as nat)[t]);
                                assert(res[t] == res0[t]);
                            }
                        }
                    }
                }
                proof {
                    assert forall|i: int| 0 <= i < comps@.len() implies #[trigger] comps@[i].extends(
                        orig[i],
                    ) by {
                        assert(before[i].extends(orig[i]));
                    }
                    if Self::hooks_change_nothing() {
                        assert forall|i: int| 0 <= i < comps@.len() implies #[trigger] same_component(
                            comps@[i],
                            orig[i],
                        ) by {
                            assert(same_component(before[i], orig[i]));
                            if i == idx as int {
                                lemma_same_control_trans(comps@[i].control, before[i].control, orig[i].control);
                            }
                        }
                    }
                }
                idx += 1;
            }
        }
        context.components = comps;
        proof {
            if Self::keeps_log() && Self::clear_keeps_log() {
                assert(pass_ran(orig, chosen, self.log(), p0, context.components@));
            }
            if Self::keeps_log() && Self::clear_logs() {
                assert(cleared_pass_ran(orig, chosen, self.log(), p0, context.components@));
            }
        }
        Ok(())
    }

    /// Build a [Default] implementation of this pass and call
    /// [Traversal::do_pass] using it.
    fn do_pass_default(context: &mut Context) -> (r: CalyxResult<Self>) where
        Self: ConstructVisitor,
    {
        let mut visitor = <Self as ConstructVisitor>::from(&*context)?;
        let ghost start = visitor.log().len() as int;
        let ghost comps0 = context.components@;
        visitor.do_pass(context)?;
        let res: CalyxResult<Self> = Ok(visitor);
        proof {
            if Self::keeps_log() && Self::clear_keeps_log() {
                assert(comps0 == old(context).components@);
                let v = res->Ok_0;
                let o = choose|o: Seq<usize>|
                    #![trigger pass_ran(comps0, o, v.log(), start, context.components@)]
                    pass_ran(comps0, o, v.log(), start, context.components@) && (o == upto(
                        comps0.len(),
                    ) || is_post_order(comps0, o)) && ((forall|b: bool| #[trigger]
                        call_ensures(Self::require_postorder, (), b) ==> b) ==> is_post_order(
                        comps0,
                        o,
                    )) && ((forall|b: bool| #[trigger]
                        call_ensures(Self::require_postorder, (), b) ==> !b) ==> o == upto(
                        comps0.len(),
                    ));
                assert(pass_ran(old(context).components@, o, v.log(), start, context.components@));
                assert(o == upto(old(context).components@.len()) || is_post_order(
                    old(context).components@,
                    o,
                ));
                assert((forall|b: bool| #[trigger]
                    call_ensures(Self::require_postorder, (), b) ==> b) ==> is_post_order(
                    old(context).components@,
                    o,
                ));
                assert((forall|b: bool| #[trigger]
                    call_ensures(Self::require_postorder, (), b) ==> !b) ==> o == upto(
                    old(context).components@.len(),
                ));
            }
        }
        res
    }

}

/// Describes types that can be visited by things implementing [Visitor].
/// This performs a recursive walk of the tree.
///
/// It calls `Visitor::start_*` on the way down, and `Visitor::finish_*` on
/// the way up.
pub trait Visitable {
    /// The visited value names only cells and groups of `comp`.
    spec fn wf_in(&self, comp: Component) -> bool;

    /// `self` and `other` are the same value.
    spec fn same_as(&self, other: &Self) -> bool;

    /// The visit of `self` in `comp`, with the other components `comps`, is
    /// the one read off the calls of `log`
    /// from position `p` to its end, and leaves `after`, `new_comp` and the
    /// answer `r` (see [`crate::trace::visit_run`] and
    /// [`crate::trace::stmts_run`]).
    spec fn visited(
        &self,
        comp: Component,
        comps: Seq<Component>,
        log: Seq<HookCall>,
        p: int,
        after: &Self,
        new_comp: Component,
        r: VisResult,
    ) -> bool;

    /// Perform the traversal. The component stays well formed and keeps its
    /// cells and groups, the visited value stays well formed in it, and a
    /// `Change` asked for by a hook has been applied in place: it is never
    /// returned.
    fn visit<V: Visitor>(
        &mut self,
        visitor: &mut V,
        component: &mut Component,
        signatures: &LibrarySignatures,
        components: &[Component],
    ) -> (r: VisResult)
        requires
            old(component).wf(),
            old(self).wf_in(*old(component)),
        ensures
            final(component).wf(),
            final(component).extends(*old(component)),
            final(self).wf_in(*final(component)),
            r matches Ok(a) ==> !(a is Change),
            V::hooks_never_fail() ==> r is Ok,
            V::hooks_change_nothing() ==> r == Ok::<Action, Error>(Action::Continue)
                && *final(component) == *old(component) && final(self).same_as(old(self)),
            V::keeps_log() ==> log_extends(final(visitor).log(), old(visitor).log())
                && old(self).visited(
                *old(component),
                components@,
                final(visitor).log(),
                old(visitor).log().len() as int,
                final(self),
                *final(component),
                r,
            ),
    ;
}

impl Visitable for Control {
    open spec fn wf_in(&self, comp: Component) -> bool {
        comp.control_wf_in(*self)
    }

    open spec fn same_as(&self, other: &Self) -> bool {
        same_control(*self, *other)
    }

    open spec fn visited(
        &self,
        comp: Component,
        comps: Seq<Component>,
        log: Seq<HookCall>,
        p: int,
        after: &Self,
        new_comp: Component,
        r: VisResult,
    ) -> bool {
        visit_ran(*self, comp, comps, log, p, *after, new_comp, r)
    }

    fn visit<V: Visitor>(
        &mut self,
        visitor: &mut V,
        component: &mut Component,
        signatures: &LibrarySignatures,
        components: &[Component],
    ) -> (r: VisResult)
        ensures
            r matches Ok(a) ==> (a is Continue || a is SkipChildren || a is Stop),
    {
        visit_control(self, visitor, component, signatures, components)
    }
}

impl Visitable for Vec<Control> {
    open spec fn wf_in(&self, comp: Component) -> bool {
        stmts_wf(self@, comp.cells@.len(), comp.groups@.len())
    }

    open spec fn same_as(&self, other: &Self) -> bool {
        same_stmts(self@, other@)
    }

    open spec fn visited(
        &self,
        comp: Component,
        comps: Seq<Component>,
        log: Seq<HookCall>,
        p: int,
        after: &Self,
        new_comp: Component,
        r: VisResult,
    ) -> bool {
        stmts_ran(self@, comp, comps, log, p, after@, new_comp, r)
    }

    fn visit<V: Visitor>(
        &mut self,
        visitor: &mut V,
        component: &mut Component,
        signatures: &LibrarySignatures,
        components: &[Component],
    ) -> (r: VisResult)
        ensures
            r matches Ok(a) ==> (a is Continue || a is Stop),
            old(self)@.len() == 0 ==> r == Ok::<Action, Error>(Action::Continue)
                && *final(component) == *old(component) && final(self)@ == old(self)@,
            final(self)@.len() == old(self)@.len(),
    {
        let ghost s0 = self@;
        let r = visit_stmts_from(self, 0, visitor, component, signatures, components);
        proof {
            assert(s0.skip(0) =~= s0);
            assert(self@.skip(0) =~= self@);
            if V::hooks_change_nothing() {
                lemma_same_stmts_pointwise(self@, s0);
            }
        }
        r
    }
}

/// Visits the statements from position `k` on, in order; stops at the first
/// that answers `Stop` and answers `Stop` too, and otherwise answers
/// `Continue`. The statements before `k` are left as they are.
fn visit_stmts_from<V: Visitor>(
    stmts: &mut Vec<Control>,
    k: usize,
    visitor: &mut V,
    comp: &mut Component,
    sigs: &LibrarySignatures,
    comps: &[Component],
) -> (r: VisResult)
    requires
        old(comp).wf(),
        stmts_wf(old(stmts)@, old(comp).cells@.len(), old(comp).groups@.len()),
        k <= old(stmts)@.len(),
    ensures
        final(comp).wf(),
        final(comp).extends(*old(comp)),
        stmts_wf(final(stmts)@, final(comp).cells@.len(), final(comp).groups@.len()),
        final(stmts)@.len() == old(stmts)@.len(),
        forall|j: int| 0 <= j < k ==> #[trigger] final(stmts)@[j] == old(stmts)@[j],
        r matches Ok(a) ==> (a is Continue || a is Stop),
        k == old(stmts)@.len() ==> r == Ok::<Action, Error>(Action::Continue) && *final(comp)
            == *old(comp) && final(stmts)@ == old(stmts)@ && *final(visitor) == *old(visitor),
        V::hooks_never_fail() ==> r is Ok,
        V::hooks_change_nothing() ==> r == Ok::<Action, Error>(Action::Continue) && *final(comp)
            == *old(comp) && forall|j: int|
            0 <= j < old(stmts)@.len() ==> #[trigger] same_control(final(stmts)@[j], old(stmts)@[j]),
        V::keeps_log() ==> log_extends(final(visitor).log(), old(visitor).log()) && stmts_ran(
            old(stmts)@.skip(k as int),
            *old(comp),
            comps@,
            final(visitor).log(),
            old(visitor).log().len() as int,
            final(stmts)@.skip(k as int),
            *final(comp),
            r,
        ),
    decreases 1 + max_height(old(stmts)@.skip(k as int)), 0nat, old(stmts)@.len() - k,
{
    let ghost comp0 = *comp;
    let ghost s0 = stmts@;
    let ghost log0 = visitor.log();
    if k >= stmts.len() {
        proof {
            assert(s0.skip(k as int) =~= Seq::<Control>::empty());
            if V::hooks_change_nothing() {
                assert forall|j: int| 0 <= j < s0.len() implies #[trigger] same_control(
                    s0[j],
                    s0[j],
                ) by {
                    lemma_same_control_refl(s0[j]);
                }
            }
        }
        return Ok(Action::Continue);
    }
    proof {
        lemma_max_height(s0.skip(k as int), 0);
        assert(s0.skip(k as int)[0] == s0[k as int]);
        assert(control_wf(s0[k as int], comp0.cells@.len(), comp0.groups@.len()));
    }
    let res = visit_control(&mut stmts[k], visitor, comp, sigs, comps);
    let ghost comp1 = *comp;
    let ghost s1 = stmts@;
    let ghost log1 = visitor.log();
    proof {
        assert forall|j: int| 0 <= j < s1.len() implies #[trigger] control_wf(
            s1[j],
            comp1.cells@.len(),
            comp1.groups@.len(),
        ) by {
            if j != k {
                assert(control_wf(s0[j], comp0.cells@.len(), comp0.groups@.len()));
                lemma_control_wf_mono(
                    s0[j],
                    comp0.cells@.len(),
                    comp0.groups@.len(),
                    comp1.cells@.len(),
                    comp1.groups@.len(),
                );
            }
        }
        if V::keeps_log() {
            assert(s0.skip(k as int).drop_first() =~= s0.skip(k + 1));
            assert(s1.skip(k as int).drop_first() =~= s0.skip(k + 1));
            assert(exact_shapes(s0.skip(k + 1)) == exact_shapes(s0.skip(k as int).drop_first()));
        }
    }
    let a = match res {
        Ok(a) => a,
        Err(e) => {
            proof {
                if V::keeps_log() {
                    let (q, sh, compv, rv) = visit_run(s0[k as int], comp0, comps@, log1, log0.len() as int).unwrap();
                    let ss = seq![sh] + exact_shapes(s0.skip(k + 1));
                    assert(has_shapes(s1.skip(k as int), ss)) by {
                        assert forall|i: int| 0 <= i < ss.len() implies has_shape(
                            #[trigger] s1.skip(k as int)[i],
                            ss[i],
                        ) by {
                            if i > 0 {
                                assert(s1.skip(k as int)[i] == s0.skip(k + 1)[i - 1]);
                            }
                        }
                    }
                }
            }
            return Err(e);
        },
    };
    if let Action::Stop = a {
        proof {
            if V::keeps_log() {
                let (q, sh, compv, rv) = visit_run(s0[k as int], comp0, comps@, log1, log0.len() as int).unwrap();
                let ss = seq![sh] + exact_shapes(s0.skip(k + 1));
                assert(has_shapes(s1.skip(k as int), ss)) by {
                    assert forall|i: int| 0 <= i < ss.len() implies has_shape(
                        #[trigger] s1.skip(k as int)[i],
                        ss[i],
                    ) by {
                        if i > 0 {
                            assert(s1.skip(k as int)[i] == s0.skip(k + 1)[i - 1]);
                        }
                    }
                }
            }
            if V::hooks_change_nothing() {
                assert(false);
            }
        }
        return Ok(Action::Stop);
    }
    proof {
        assert(s1.skip(k + 1) =~= s0.skip(k + 1));
        assert(s0.skip(k as int).drop_first() =~= s0.skip(k + 1));
        lemma_max_height_drop_first(s0.skip(k as int));
    }
    let r = visit_stmts_from(stmts, k + 1, visitor, comp, sigs, comps);
    proof {
        let s2 = stmts@;
        if V::keeps_log() {
            let log2 = visitor.log();
            lemma_visit_run_frame(s0[k as int], comp0, comps@, log1, log2, log0.len() as int);
            let (q, sh, compv, rv) = visit_run(s0[k as int], comp0, comps@, log1, log0.len() as int).unwrap();
            let (q2, rest, comp2, r2) = stmts_run(s0.skip(k + 1), comp1, comps@, log2, q).unwrap();
            let ss = seq![sh] + rest;
            assert(has_shapes(s2.skip(k as int), ss)) by {
                assert forall|i: int| 0 <= i < ss.len() implies has_shape(
                    #[trigger] s2.skip(k as int)[i],
                    ss[i],
                ) by {
                    if i > 0 {
                        assert(s2.skip(k as int)[i] == s2.skip(k + 1)[i - 1]);
                    } else {
                        assert(s2[k as int] == s1[k as int]);
                    }
                }
            }
        }
        if V::hooks_change_nothing() {
            assert forall|j: int| 0 <= j < s0.len() implies #[trigger] same_control(s2[j], s0[j]) by {
                if j < k {
                    lemma_same_control_refl(s0[j]);
                } else if j == k {
                    assert(s2[j] == s1[j]);
                } else {
                    assert(same_control(s2[j], s1[j]));
                }
            }
        }
    }
    r
}

/// Visits one control node: its start hook, then (if that answered
/// `Continue`) its children, then (if they did not stop the traversal) its
/// finish hook; a `Change` is applied in place.
#[verifier::rlimit(100)]
fn visit_control<V: Visitor>(
    c: &mut Control,
    visitor: &mut V,
    comp: &mut Component,
    sigs: &LibrarySignatures,
    comps: &[Component],
) -> (r: VisResult)
    requires
        old(comp).wf(),
        old(comp).control_wf_in(*old(c)),
    ensures
        final(comp).wf(),
        final(comp).extends(*old(comp)),
        final(comp).control_wf_in(*final(c)),
        r matches Ok(a) ==> (a is Continue || a is SkipChildren || a is Stop),
        V::hooks_never_fail() ==> r is Ok,
        V::hooks_change_nothing() ==> r == Ok::<Action, Error>(Action::Continue) && *final(comp)
            == *old(comp) && same_control(*final(c), *old(c)),
        V::keeps_log() ==> log_extends(final(visitor).log(), old(visitor).log()) && visit_ran(
            *old(c),
            *old(comp),
            comps@,
            final(visitor).log(),
            old(visitor).log().len() as int,
            *final(c),
            *final(comp),
            r,
        ),
    decreases height(*old(c)), 1nat, 0nat,
{
    let ghost comp0 = *comp;
    let ghost c0 = *c;
    let ghost log0 = visitor.log();
    let ghost p0 = log0.len() as int;
    let res = match c {
        Control::Sequence(ctrl) => {
            let a = match visitor.start_seq(ctrl, comp, sigs, comps) {
                Ok(a) => a,
                Err(e) => {
                    return Err(e);
                },
            };
            let ghost comp1 = *comp;
            let ghost s1 = *ctrl;
            let b = match a {
                Action::Continue => {
                    proof {
                        lemma_stmts_wf_rec(ctrl.stmts@, comp.cells@.len(), comp.groups@.len());
                        assert(ctrl.stmts@.skip(0) =~= ctrl.stmts@);
                    }
                    let r = visit_stmts_from(&mut ctrl.stmts, 0, visitor, comp, sigs, comps);
                    proof {
                        lemma_stmts_wf_rec(ctrl.stmts@, comp.cells@.len(), comp.groups@.len());
                        assert(ctrl.stmts@.skip(0) =~= ctrl.stmts@);
                        if V::hooks_change_nothing() {
                            lemma_same_stmts_pointwise(ctrl.stmts@, s1.stmts@);
                        }
                    }
                    match r {
                        Ok(x) => x,
                        Err(e) => {
                            return Err(e);
                        },
                    }
                },
                other => other,
            };
            let ghost log2 = visitor.log();
            match b.pop() {
                Action::Continue => {
                    let f = visitor.finish_seq(ctrl, comp, sigs, comps);
                    proof {
                        if V::keeps_log() && a is Continue {
                            lemma_stmts_run_frame(s1.stmts@, comp1, comps@, log2, visitor.log(), p0 + 1);
                        }
                    }
                    match f {
                        Ok(x) => x,
                        Err(e) => {
                            return Err(e);
                        },
                    }
                },
                other => other,
            }
        },
        Control::Par(ctrl) => {
            let a = match visitor.start_par(ctrl, comp, sigs, comps) {
                Ok(a) => a,
                Err(e) => {
                    return Err(e);
                },
            };
            let ghost comp1 = *comp;
            let ghost s1 = *ctrl;
            let b = match a {
                Action::Continue => {
                    proof {
                        lemma_stmts_wf_rec(ctrl.stmts@, comp.cells@.len(), comp.groups@.len());
                        assert(ctrl.stmts@.skip(0) =~= ctrl.stmts@);
                    }
                    let r = visit_stmts_from(&mut ctrl.stmts, 0, visitor, comp, sigs, comps);
                    proof {
                        lemma_stmts_wf_rec(ctrl.stmts@, comp.cells@.len(), comp.groups@.len());
                        assert(ctrl.stmts@.skip(0) =~= ctrl.stmts@);
                        if V::hooks_change_nothing() {
                            lemma_same_stmts_pointwise(ctrl.stmts@, s1.stmts@);
                        }
                    }
                    match r {
                        Ok(x) => x,
                        Err(e) => {
                            return Err(e);
                        },
                    }
                },
                other => other,
            };
            let ghost log2 = visitor.log();
            match b.pop() {
                Action::Continue => {
                    let f = visitor.finish_par(ctrl, comp, sigs, comps);
                    proof {
                        if V::keeps_log() && a is Continue {
                            lemma_stmts_run_frame(s1.stmts@, comp1, comps@, log2, visitor.log(), p0 + 1);
                        }
                    }
                    match f {
                        Ok(x) => x,
                        Err(e) => {
                            return Err(e);
                        },
                    }
                },
                other => other,
            }
        },
        Control::If(ctrl) => {
            let a = match visitor.start_if(ctrl, comp, sigs, comps) {
                Ok(a) => a,
                Err(e) => {
                    return Err(e);
                },
            };
            let ghost comp1 = *comp;
            let ghost s1 = *ctrl;
            let b = match a {
                Action::Continue => {
                    let ghost before = *comp;
                    let r = visit_control(&mut *ctrl.tbranch, visitor, comp, sigs, comps);
                    proof {
                        lemma_control_wf_mono(
                            *ctrl.fbranch,
                            before.cells@.len(),
                            before.groups@.len(),
                            comp.cells@.len(),
                            comp.groups@.len(),
                        );
                        assert(has_shape(*ctrl.fbranch, Shape::Exactly(*s1.fbranch)));
                    }
                    match r {
                        Ok(x) => x,
                        Err(e) => {
                            return Err(e);
                        },
                    }
                },
                other => other,
            };
            let ghost log2 = visitor.log();
            let ghost comp2 = *comp;
            let c2 = match b {
                Action::Continue => {
                    let ghost before = *comp;
                    let r = visit_control(&mut *ctrl.fbranch, visitor, comp, sigs, comps);
                    proof {
                        lemma_control_wf_mono(
                            *ctrl.tbranch,
                            before.cells@.len(),
                            before.groups@.len(),
                            comp.cells@.len(),
                            comp.groups@.len(),
                        );
                        if V::keeps_log() && a is Continue {
                            lemma_visit_run_frame(*s1.tbranch, comp1, comps@, log2, visitor.log(), p0 + 1);
                        }
                    }
                    match r {
                        Ok(x) => x,
                        Err(e) => {
                            return Err(e);
                        },
                    }
                },
                other => other,
            };
            let ghost log3 = visitor.log();
            proof {
                assert(has_shape(*ctrl.tbranch, Shape::Exactly(*ctrl.tbranch)));
                assert(has_shape(*ctrl.fbranch, Shape::Exactly(*ctrl.fbranch)));
            }
            match c2.pop() {
                Action::Continue => {
                    let f = visitor.finish_if(ctrl, comp, sigs, comps);
                    proof {
                        if V::keeps_log() {
                            if a is Continue {
                                lemma_visit_run_frame(*s1.tbranch, comp1, comps@, log2, visitor.log(), p0 + 1);
                            }
                            if b is Continue {
                                lemma_visit_run_frame(*s1.fbranch, comp2, comps@, log3, visitor.log(), log2.len() as int);
                            }
                        }
                    }
                    match f {
                        Ok(x) => x,
                        Err(e) => {
                            return Err(e);
                        },
                    }
                },
                other => other,
            }
        },
        Control::While(ctrl) => {
            let a = match visitor.start_while(ctrl, comp, sigs, comps) {
                Ok(a) => a,
                Err(e) => {
                    return Err(e);
                },
            };
            let ghost comp1 = *comp;
            let ghost s1 = *ctrl;
            let b = match a {
                Action::Continue => {
                    let r = visit_control(&mut *ctrl.body, visitor, comp, sigs, comps);
                    match r {
                        Ok(x) => x,
                        Err(e) => {
                            return Err(e);
                        },
                    }
                },
                other => other,
            };
            let ghost log2 = visitor.log();
            proof {
                assert(has_shape(*ctrl.body, Shape::Exactly(*ctrl.body)));
            }
            match b.pop() {
                Action::Continue => {
                    let f = visitor.finish_while(ctrl, comp, sigs, comps);
                    proof {
                        if V::keeps_log() && a is Continue {
                            lemma_visit_run_frame(*s1.body, comp1, comps@, log2, visitor.log(), p0 + 1);
                        }
                    }
                    match f {
                        Ok(x) => x,
                        Err(e) => {
                            return Err(e);
                        },
                    }
                },
                other => other,
            }
        },
        Control::Enable(ctrl) => match visitor.enable(ctrl, comp, sigs, comps) {
            Ok(x) => x,
            Err(e) => {
                return Err(e);
            },
        },
        Control::Empty(ctrl) => match visitor.empty(ctrl, comp, sigs, comps) {
            Ok(x) => x,
            Err(e) => {
                return Err(e);
            },
        },
        Control::Invoke(data) => match visitor.invoke(data, comp, sigs, comps) {
            Ok(x) => x,
            Err(e) => {
                return Err(e);
            },
        },
    };
    Ok(res.apply_change(c))
}

} // verus!
