//! The intermediate representation that passes read and rewrite: components
//! made of cells, groups of guarded assignments, and a control program.
//!
//! Cells and groups are identified by their position in the component that
//! owns them; every reference in the representation is such a position.
use vstd::prelude::*;

verus! {

/// The name of a port on a cell, or of a hole on a group (`go`, `done`).
#[derive(PartialEq, Eq, Structural, Clone, Copy, Debug)]
pub enum PortName {
    In,
    Out,
    WriteEn,
    Left,
    Right,
    Go,
    Done,
}

/// What a port belongs to.
#[derive(PartialEq, Eq, Structural, Clone, Copy, Debug)]
pub enum PortParent {
    /// A port of the cell at this position in `Component::cells`.
    Cell(usize),
    /// A hole of the group at this position in `Component::groups`.
    Group(usize),
}

/// A reference to a port.
#[derive(PartialEq, Eq, Structural, Clone, Copy, Debug)]
pub struct PortRef {
    pub parent: PortParent,
    pub port: PortName,
}

/// Comparison operators usable in guards.
#[derive(PartialEq, Eq, Structural, Clone, Copy, Debug)]
pub enum PortComp {
    Eq,
    Neq,
    Gt,
    Lt,
    Geq,
    Leq,
}

/// A guard on an assignment.
#[derive(Debug)]
pub enum Guard {
    True,
    Port(PortRef),
    Not(Box<Guard>),
    And(Box<Guard>, Box<Guard>),
    Or(Box<Guard>, Box<Guard>),
    CompOp(PortComp, PortRef, PortRef),
}

/// `dst = guard ? src`.
#[derive(Debug)]
pub struct Assignment {
    pub dst: PortRef,
    pub src: PortRef,
    pub guard: Guard,
}

/// What a cell is an instance of.
#[derive(Clone, Debug)]
pub enum Prototype {
    /// `std_reg(width)`: ports `in`, `write_en`, `out`.
    Reg { width: u64 },
    /// `std_add(width)`: ports `left`, `right`, `out`.
    Add { width: u64 },
    /// A constant of the given width: port `out` always carries `value`.
    Constant { value: u64, width: u64 },
    /// Any other primitive of the library.
    Primitive { name: String },
    /// An instance of another component of the program.
    Component { name: String },
}

/// A cell of a component.
#[derive(Clone, Debug)]
pub struct Cell {
    pub prototype: Prototype,
}

/// A group of assignments. `static_time` is the group's `static` attribute:
/// the number of cycles it takes, where it is known.
#[derive(Debug)]
pub struct Group {
    pub name: String,
    pub static_time: Option<u64>,
    pub assignments: Vec<Assignment>,
}

/// `seq { ... }`
#[derive(Debug)]
pub struct Sequence {
    pub stmts: Vec<Control>,
}

/// `par { ... }`
#[derive(Debug)]
pub struct Par {
    pub stmts: Vec<Control>,
}

/// `if port with cond { tbranch } else { fbranch }`
#[derive(Debug)]
pub struct If {
    pub port: PortRef,
    pub cond: Option<usize>,
    pub tbranch: Box<Control>,
    pub fbranch: Box<Control>,
}

/// `while port with cond { body }`
#[derive(Debug)]
pub struct While {
    pub port: PortRef,
    pub cond: Option<usize>,
    pub body: Box<Control>,
}

/// Runs the group at this position in `Component::groups`.
#[derive(Clone, Copy, Debug)]
pub struct Enable {
    pub group: usize,
}

/// Invokes the component instance held by the cell at this position.
#[derive(Clone, Copy, Debug)]
pub struct Invoke {
    pub comp: usize,
}

/// The control program that does nothing.
#[derive(Clone, Copy, Debug)]
pub struct Empty {}

/// A control program.
#[derive(Debug)]
pub enum Control {
    Sequence(Sequence),
    Par(Par),
    If(If),
    While(While),
    Invoke(Invoke),
    Enable(Enable),
    Empty(Empty),
}

/// A component: its cells, groups, continuous assignments and control.
#[derive(Debug)]
pub struct Component {
    pub name: String,
    pub cells: Vec<Cell>,
    pub groups: Vec<Group>,
    pub continuous_assignments: Vec<Assignment>,
    pub control: Control,
}

/// The signatures of the library primitives. Passes receive them but the
/// logic here does not read them.
#[derive(Clone, Copy, Debug)]
pub struct LibrarySignatures {}

/// A whole program.
#[derive(Debug)]
pub struct Context {
    pub components: Vec<Component>,
    pub lib: LibrarySignatures,
}

impl Control {
    /// The control program that does nothing.
    pub fn empty() -> (c: Control)
        ensures
            c == Control::Empty(Empty {}),
    {
        Control::Empty(Empty {})
    }

    /// The control program that runs one group.
    pub fn enable(group: usize) -> (c: Control)
        ensures
            c == Control::Enable(Enable { group }),
    {
        Control::Enable(Enable { group })
    }
}

impl PortRef {
    /// The port `port` of the cell at position `cell`.
    pub fn cell(cell: usize, port: PortName) -> (p: PortRef)
        ensures
            p == (PortRef { parent: PortParent::Cell(cell), port }),
    {
        PortRef { parent: PortParent::Cell(cell), port }
    }

    /// The hole `port` of the group at position `group`.
    pub fn hole(group: usize, port: PortName) -> (p: PortRef)
        ensures
            p == (PortRef { parent: PortParent::Group(group), port }),
    {
        PortRef { parent: PortParent::Group(group), port }
    }
}

impl Component {
    /// Appends a cell with the given prototype; returns its position.
    pub fn add_cell(&mut self, prototype: Prototype) -> (idx: usize)
        ensures
            idx == old(self).cells@.len(),
            final(self).cells@ == old(self).cells@.push(Cell { prototype }),
            final(self).name == old(self).name,
            final(self).groups == old(self).groups,
            final(self).continuous_assignments == old(self).continuous_assignments,
            final(self).control == old(self).control,
    {
        let idx = self.cells.len();
        self.cells.push(Cell { prototype });
        idx
    }

    /// Appends a group with the given name, no assignments and no static
    /// time; returns its position.
    pub fn add_group(&mut self, name: String) -> (idx: usize)
        ensures
            idx == old(self).groups@.len(),
            final(self).groups@.len() == old(self).groups@.len() + 1,
            forall|j: int|
                0 <= j < old(self).groups@.len() ==> #[trigger] final(self).groups@[j]
                    == old(self).groups@[j],
            final(self).groups@[idx as int].name == name,
            final(self).groups@[idx as int].static_time is None,
            final(self).groups@[idx as int].assignments@.len() == 0,
            final(self).name == old(self).name,
            final(self).cells == old(self).cells,
            final(self).continuous_assignments == old(self).continuous_assignments,
            final(self).control == old(self).control,
    {
        let idx = self.groups.len();
        self.groups.push(Group { name, static_time: None, assignments: Vec::new() });
        idx
    }

    /// Appends an assignment to the group at position `group`.
    pub fn add_group_assignment(&mut self, group: usize, a: Assignment)
        requires
            group < old(self).groups@.len(),
        ensures
            final(self).groups@.len() == old(self).groups@.len(),
            forall|j: int|
                0 <= j < old(self).groups@.len() && j != group ==> #[trigger] final(self).groups@[j]
                    == old(self).groups@[j],
            final(self).groups@[group as int].name == old(self).groups@[group as int].name,
            final(self).groups@[group as int].static_time == old(
                self,
            ).groups@[group as int].static_time,
            final(self).groups@[group as int].assignments@ == old(
                self,
            ).groups@[group as int].assignments@.push(a),
            final(self).name == old(self).name,
            final(self).cells == old(self).cells,
            final(self).continuous_assignments == old(self).continuous_assignments,
            final(self).control == old(self).control,
    {
        self.groups[group].assignments.push(a);
    }

    /// Sets the static time of the group at position `group`.
    pub fn set_static_time(&mut self, group: usize, time: u64)
        requires
            group < old(self).groups@.len(),
        ensures
            final(self).groups@.len() == old(self).groups@.len(),
            forall|j: int|
                0 <= j < old(self).groups@.len() && j != group ==> #[trigger] final(self).groups@[j]
                    == old(self).groups@[j],
            final(self).groups@[group as int].name == old(self).groups@[group as int].name,
            final(self).groups@[group as int].static_time == Some(time),
            final(self).groups@[group as int].assignments == old(
                self,
            ).groups@[group as int].assignments,
            final(self).name == old(self).name,
            final(self).cells == old(self).cells,
            final(self).continuous_assignments == old(self).continuous_assignments,
            final(self).control == old(self).control,
    {
        self.groups[group].static_time = Some(time);
    }

    /// Appends a continuous assignment.
    pub fn add_continuous_assignment(&mut self, a: Assignment)
        ensures
            final(self).continuous_assignments@ == old(self).continuous_assignments@.push(a),
            final(self).name == old(self).name,
            final(self).cells == old(self).cells,
            final(self).groups == old(self).groups,
            final(self).control == old(self).control,
    {
        self.continuous_assignments.push(a);
    }
}

// ---------------------------------------------------------------------------
// Well-formedness: every reference points at a cell or group that exists.
// ---------------------------------------------------------------------------

/// The port refers to a cell among the first `ncells` or a group among the
/// first `ngroups`.
pub open spec fn port_wf(p: PortRef, ncells: nat, ngroups: nat) -> bool {
    match p.parent {
        PortParent::Cell(i) => i < ncells,
        PortParent::Group(g) => g < ngroups,
    }
}

pub open spec fn guard_wf(g: Guard, ncells: nat, ngroups: nat) -> bool
    decreases g,
{
    match g {
        Guard::True => true,
        Guard::Port(p) => port_wf(p, ncells, ngroups),
        Guard::Not(b) => guard_wf(*b, ncells, ngroups),
        Guard::And(l, r) => guard_wf(*l, ncells, ngroups) && guard_wf(*r, ncells, ngroups),
        Guard::Or(l, r) => guard_wf(*l, ncells, ngroups) && guard_wf(*r, ncells, ngroups),
        Guard::CompOp(_, l, r) => port_wf(l, ncells, ngroups) && port_wf(r, ncells, ngroups),
    }
}

pub open spec fn assignment_wf(a: Assignment, ncells: nat, ngroups: nat) -> bool {
    &&& port_wf(a.dst, ncells, ngroups)
    &&& port_wf(a.src, ncells, ngroups)
    &&& guard_wf(a.guard, ncells, ngroups)
}

pub open spec fn assignments_wf(s: Seq<Assignment>, ncells: nat, ngroups: nat) -> bool {
    forall|i: int| 0 <= i < s.len() ==> #[trigger] assignment_wf(s[i], ncells, ngroups)
}

pub open spec fn opt_group_wf(g: Option<usize>, ngroups: nat) -> bool {
    match g {
        Some(i) => i < ngroups,
        None => true,
    }
}

/// Every group, cell and port that the control program names exists.
pub open spec fn control_wf(c: Control, ncells: nat, ngroups: nat) -> bool
    decreases c,
{
    match c {
        Control::Sequence(s) => stmts_wf_rec(s.stmts@, ncells, ngroups),
        Control::Par(s) => stmts_wf_rec(s.stmts@, ncells, ngroups),
        Control::If(s) => {
            &&& port_wf(s.port, ncells, ngroups)
            &&& opt_group_wf(s.cond, ngroups)
            &&& control_wf(*s.tbranch, ncells, ngroups)
            &&& control_wf(*s.fbranch, ncells, ngroups)
        },
        Control::While(s) => {
            &&& port_wf(s.port, ncells, ngroups)
            &&& opt_group_wf(s.cond, ngroups)
            &&& control_wf(*s.body, ncells, ngroups)
        },
        Control::Invoke(s) => s.comp < ncells,
        Control::Enable(s) => s.group < ngroups,
        Control::Empty(_) => true,
    }
}

/// Every statement of the list is well formed (stated by recursion on the
/// list; `stmts_wf` says the same with a quantifier).
pub open spec fn stmts_wf_rec(s: Seq<Control>, ncells: nat, ngroups: nat) -> bool
    decreases s,
{
    if s.len() == 0 {
        true
    } else {
        control_wf(s.last(), ncells, ngroups) && stmts_wf_rec(s.drop_last(), ncells, ngroups)
    }
}

/// Every statement of the list is well formed.
pub open spec fn stmts_wf(s: Seq<Control>, ncells: nat, ngroups: nat) -> bool {
    forall|i: int| 0 <= i < s.len() ==> #[trigger] control_wf(s[i], ncells, ngroups)
}

pub proof fn lemma_stmts_wf_rec(s: Seq<Control>, ncells: nat, ngroups: nat)
    ensures
        stmts_wf_rec(s, ncells, ngroups) == stmts_wf(s, ncells, ngroups),
    decreases s.len(),
{
    if s.len() > 0 {
        lemma_stmts_wf_rec(s.drop_last(), ncells, ngroups);
        if stmts_wf(s, ncells, ngroups) {
            assert forall|i: int| 0 <= i < s.drop_last().len() implies #[trigger] control_wf(
                s.drop_last()[i],
                ncells,
                ngroups,
            ) by {
                assert(control_wf(s[i], ncells, ngroups));
            }
            assert(control_wf(s[s.len() - 1], ncells, ngroups));
        }
        if stmts_wf_rec(s, ncells, ngroups) {
            assert forall|i: int| 0 <= i < s.len() implies #[trigger] control_wf(
                s[i],
                ncells,
                ngroups,
            ) by {
                if i < s.len() - 1 {
                    assert(control_wf(s.drop_last()[i], ncells, ngroups));
                }
            }
        }
    }
}

impl Component {
    /// Every assignment and the control program refer only to cells and
    /// groups of this component.
    pub open spec fn wf(self) -> bool {
        &&& forall|g: int|
            0 <= g < self.groups@.len() ==> #[trigger] assignments_wf(
                self.groups@[g].assignments@,
                self.cells@.len(),
                self.groups@.len(),
            )
        &&& assignments_wf(self.continuous_assignments@, self.cells@.len(), self.groups@.len())
        &&& control_wf(self.control, self.cells@.len(), self.groups@.len())
    }

    /// `self` has at least the cells and groups of `old`, so that every
    /// position valid in `old` is valid in `self`.
    pub open spec fn extends(self, old: Component) -> bool {
        &&& old.cells@.len() <= self.cells@.len()
        &&& old.groups@.len() <= self.groups@.len()
    }

    /// The control program is well formed in this component.
    pub open spec fn control_wf_in(self, c: Control) -> bool {
        control_wf(c, self.cells@.len(), self.groups@.len())
    }
}

impl Context {
    /// Every component is well formed.
    pub open spec fn wf(self) -> bool {
        forall|i: int| 0 <= i < self.components@.len() ==> #[trigger] self.components@[i].wf()
    }
}

// ---------------------------------------------------------------------------
// Equality of control programs up to the identity of their vectors: two
// programs are the same when they have the same shape and the same
// statements, port, condition and groups everywhere.
// ---------------------------------------------------------------------------

/// `a` and `b` are the same control program.
pub open spec fn same_control(a: Control, b: Control) -> bool
    decreases a,
{
    match a {
        Control::Sequence(x) => b matches Control::Sequence(y) && same_stmts(x.stmts@, y.stmts@),
        Control::Par(x) => b matches Control::Par(y) && same_stmts(x.stmts@, y.stmts@),
        Control::If(x) => b matches Control::If(y) && x.port == y.port && x.cond == y.cond
            && same_control(*x.tbranch, *y.tbranch) && same_control(*x.fbranch, *y.fbranch),
        Control::While(x) => b matches Control::While(y) && x.port == y.port && x.cond == y.cond
            && same_control(*x.body, *y.body),
        _ => a == b,
    }
}

/// `s` and `t` hold the same control programs, in the same order.
pub open spec fn same_stmts(s: Seq<Control>, t: Seq<Control>) -> bool
    decreases s,
{
    if s.len() == 0 {
        t.len() == 0
    } else {
        &&& t.len() == s.len()
        &&& same_control(s.last(), t.last())
        &&& same_stmts(s.drop_last(), t.drop_last())
    }
}

/// `a` and `b` are the same component.
pub open spec fn same_component(a: Component, b: Component) -> bool {
    &&& a.name == b.name
    &&& a.cells == b.cells
    &&& a.groups == b.groups
    &&& a.continuous_assignments == b.continuous_assignments
    &&& same_control(a.control, b.control)
}

/// Every program is the same as itself.
pub proof fn lemma_same_control_refl(c: Control)
    ensures
        same_control(c, c),
    decreases c, 1nat,
{
    match c {
        Control::Sequence(x) => lemma_same_stmts_refl(x.stmts@),
        Control::Par(x) => lemma_same_stmts_refl(x.stmts@),
        Control::If(x) => {
            lemma_same_control_refl(*x.tbranch);
            lemma_same_control_refl(*x.fbranch);
        },
        Control::While(x) => lemma_same_control_refl(*x.body),
        _ => {},
    }
}

/// Every list of programs is the same as itself.
pub proof fn lemma_same_stmts_refl(s: Seq<Control>)
    ensures
        same_stmts(s, s),
    decreases s, 0nat,
{
    if s.len() > 0 {
        lemma_same_control_refl(s.last());
        lemma_same_stmts_refl(s.drop_last());
    }
}

/// Being the same program is transitive.
pub proof fn lemma_same_control_trans(a: Control, b: Control, c: Control)
    requires
        same_control(a, b),
        same_control(b, c),
    ensures
        same_control(a, c),
    decreases a, 1nat,
{
    match a {
        Control::Sequence(x) => {
            let y = b->Sequence_0;
            let z = c->Sequence_0;
            lemma_same_stmts_trans(x.stmts@, y.stmts@, z.stmts@);
        },
        Control::Par(x) => {
            let y = b->Par_0;
            let z = c->Par_0;
            lemma_same_stmts_trans(x.stmts@, y.stmts@, z.stmts@);
        },
        Control::If(x) => {
            let y = b->If_0;
            let z = c->If_0;
            lemma_same_control_trans(*x.tbranch, *y.tbranch, *z.tbranch);
            lemma_same_control_trans(*x.fbranch, *y.fbranch, *z.fbranch);
        },
        Control::While(x) => {
            let y = b->While_0;
            let z = c->While_0;
            lemma_same_control_trans(*x.body, *y.body, *z.body);
        },
        _ => {},
    }
}

/// Being the same list of programs is transitive.
pub proof fn lemma_same_stmts_trans(s: Seq<Control>, t: Seq<Control>, u: Seq<Control>)
    requires
        same_stmts(s, t),
        same_stmts(t, u),
    ensures
        same_stmts(s, u),
    decreases s, 0nat,
{
    if s.len() > 0 {
        lemma_same_control_trans(s.last(), t.last(), u.last());
        lemma_same_stmts_trans(s.drop_last(), t.drop_last(), u.drop_last());
    }
}

/// Two lists are the same when they have the same length and the same
/// programs at each position.
pub proof fn lemma_same_stmts_pointwise(s: Seq<Control>, t: Seq<Control>)
    requires
        s.len() == t.len(),
        forall|i: int| 0 <= i < s.len() ==> #[trigger] same_control(s[i], t[i]),
    ensures
        same_stmts(s, t),
    decreases s.len(),
{
    if s.len() > 0 {
        assert(same_control(s[s.len() - 1], t[t.len() - 1]));
        assert forall|i: int| 0 <= i < s.drop_last().len() implies #[trigger] same_control(
            s.drop_last()[i],
            t.drop_last()[i],
        ) by {
            assert(same_control(s[i], t[i]));
        }
        lemma_same_stmts_pointwise(s.drop_last(), t.drop_last());
    }
}

// ---------------------------------------------------------------------------
// Well-formedness is kept when cells and groups are added.
// ---------------------------------------------------------------------------

pub proof fn lemma_guard_wf_mono(g: Guard, nc: nat, ng: nat, nc2: nat, ng2: nat)
    requires
        guard_wf(g, nc, ng),
        nc <= nc2,
        ng <= ng2,
    ensures
        guard_wf(g, nc2, ng2),
    decreases g,
{
    match g {
        Guard::Not(b) => lemma_guard_wf_mono(*b, nc, ng, nc2, ng2),
        Guard::And(l, r) => {
            lemma_guard_wf_mono(*l, nc, ng, nc2, ng2);
            lemma_guard_wf_mono(*r, nc, ng, nc2, ng2);
        },
        Guard::Or(l, r) => {
            lemma_guard_wf_mono(*l, nc, ng, nc2, ng2);
            lemma_guard_wf_mono(*r, nc, ng, nc2, ng2);
        },
        _ => {},
    }
}

pub proof fn lemma_assignments_wf_mono(s: Seq<Assignment>, nc: nat, ng: nat, nc2: nat, ng2: nat)
    requires
        assignments_wf(s, nc, ng),
        nc <= nc2,
        ng <= ng2,
    ensures
        assignments_wf(s, nc2, ng2),
{
    assert forall|i: int| 0 <= i < s.len() implies #[trigger] assignment_wf(s[i], nc2, ng2) by {
        assert(assignment_wf(s[i], nc, ng));
        lemma_guard_wf_mono(s[i].guard, nc, ng, nc2, ng2);
    }
}

pub proof fn lemma_control_wf_mono(c: Control, nc: nat, ng: nat, nc2: nat, ng2: nat)
    requires
        control_wf(c, nc, ng),
        nc <= nc2,
        ng <= ng2,
    ensures
        control_wf(c, nc2, ng2),
    decreases c, 1nat,
{
    match c {
        Control::Sequence(s) => lemma_stmts_wf_mono(s.stmts@, nc, ng, nc2, ng2),
        Control::Par(s) => lemma_stmts_wf_mono(s.stmts@, nc, ng, nc2, ng2),
        Control::If(s) => {
            lemma_control_wf_mono(*s.tbranch, nc, ng, nc2, ng2);
            lemma_control_wf_mono(*s.fbranch, nc, ng, nc2, ng2);
        },
        Control::While(s) => {
            lemma_control_wf_mono(*s.body, nc, ng, nc2, ng2);
        },
        _ => {},
    }
}

pub proof fn lemma_stmts_wf_mono(s: Seq<Control>, nc: nat, ng: nat, nc2: nat, ng2: nat)
    requires
        stmts_wf_rec(s, nc, ng),
        nc <= nc2,
        ng <= ng2,
    ensures
        stmts_wf_rec(s, nc2, ng2),
    decreases s, 0nat,
{
    if s.len() > 0 {
        lemma_control_wf_mono(s.last(), nc, ng, nc2, ng2);
        lemma_stmts_wf_mono(s.drop_last(), nc, ng, nc2, ng2);
    }
}

} // verus!
