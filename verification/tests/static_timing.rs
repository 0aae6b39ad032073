use calyx::action::Action;
use calyx::errors::Error;
use calyx::ir::{
    Assignment, Cell, Component, Control, Empty, Enable, Group, Guard, If, LibrarySignatures, Par,
    PortComp, PortName, PortParent, PortRef, Prototype, Sequence, While,
};
use calyx::static_timing::{
    accumulate_static_time, check_not_comb, static_sum_fits, StaticFold, StaticTiming,
    REMOVE_COMB_GROUPS,
};
use calyx::visitor::{Named, Visitor};

fn group(name: &str, time: Option<u64>) -> Group {
    Group { name: name.to_string(), static_time: time, assignments: vec![] }
}

fn enable(g: usize) -> Control {
    Control::Enable(Enable { group: g })
}

fn component(groups: Vec<Group>) -> Component {
    Component {
        name: "main".to_string(),
        cells: vec![Cell { prototype: Prototype::Primitive { name: "std_lt".to_string() } }],
        groups,
        continuous_assignments: vec![],
        control: Control::Empty(Empty {}),
    }
}

fn constant(c: &Cell) -> Option<(u64, u64)> {
    match c.prototype {
        Prototype::Constant { value, width } => Some((value, width)),
        _ => None,
    }
}

fn cell(i: usize, port: PortName) -> PortRef {
    PortRef { parent: PortParent::Cell(i), port }
}

fn hole(g: usize, port: PortName) -> PortRef {
    PortRef { parent: PortParent::Group(g), port }
}

fn is_cmp(g: &Guard, op: PortComp, l: PortRef, r: PortRef) -> bool {
    match g {
        Guard::CompOp(o, a, b) => *o == op && *a == l && *b == r,
        _ => false,
    }
}

#[test]
fn pass_name_and_description() {
    assert_eq!(StaticTiming::name(), "static-timing");
    assert_eq!(
        StaticTiming::description(),
        "Opportunistically compile timed groups and generate timing information when possible."
    );
}

#[test]
fn accumulate_sums_and_maxes_static_times() {
    let groups = vec![group("a", Some(3)), group("b", Some(5)), group("c", Some(2))];
    let stmts = vec![enable(0), enable(1), enable(2)];
    assert_eq!(accumulate_static_time(&stmts, &groups, StaticFold::Sum), Some(10));
    assert_eq!(accumulate_static_time(&stmts, &groups, StaticFold::Max), Some(5));
}

#[test]
fn accumulate_of_nothing_is_zero() {
    let groups = vec![group("a", Some(3))];
    assert_eq!(accumulate_static_time(&[], &groups, StaticFold::Sum), Some(0));
    assert_eq!(accumulate_static_time(&[], &groups, StaticFold::Max), Some(0));
}

#[test]
fn accumulate_refuses_compound_and_untimed() {
    let groups = vec![group("a", Some(3)), group("b", None)];
    let compound = vec![enable(0), Control::Sequence(Sequence { stmts: vec![enable(0)] })];
    assert_eq!(accumulate_static_time(&compound, &groups, StaticFold::Sum), None);
    let untimed = vec![enable(0), enable(1)];
    assert_eq!(accumulate_static_time(&untimed, &groups, StaticFold::Max), None);
    let empty = vec![Control::Empty(Empty {})];
    assert_eq!(accumulate_static_time(&empty, &groups, StaticFold::Sum), None);
}

#[test]
fn sum_fits_detects_overflow() {
    let groups = vec![group("a", Some(u64::MAX)), group("b", Some(1)), group("c", None)];
    assert!(static_sum_fits(&[enable(0)], &groups));
    assert!(!static_sum_fits(&[enable(0), enable(1)], &groups));
    // The fold stops at the first statement without a static time.
    assert!(static_sum_fits(&[enable(2), enable(0), enable(1)], &groups));
}

#[test]
fn check_not_comb_results() {
    assert!(matches!(check_not_comb(&group("a", Some(4))), Ok(Some(4))));
    assert!(matches!(check_not_comb(&group("a", None)), Ok(None)));
    match check_not_comb(&group("comb", Some(0))) {
        Err(Error::MalformedControl(m)) => assert_eq!(
            m,
            format!(
                "static-timing: Group `comb` is a combinational group (it takes less than one cycle to run). Run `{}` to remove all combinational groups before running static-timing.",
                REMOVE_COMB_GROUPS
            )
        ),
        _ => panic!("expected an error"),
    }
}

#[test]
fn finish_seq_lowers_static_seq() {
    let mut comp = component(vec![group("a", Some(1)), group("b", Some(3)), group("c", Some(2))]);
    let mut s = Sequence { stmts: vec![enable(0), enable(1), enable(2)] };
    let mut pass = StaticTiming::default();
    let r = pass.finish_seq(&mut s, &mut comp, &LibrarySignatures {}, &[]);
    match r {
        Ok(Action::Change(c)) => assert!(matches!(*c, Control::Enable(Enable { group: 3 }))),
        _ => panic!("expected a change"),
    }
    let g = &comp.groups[3];
    assert_eq!(g.name, "static_seq");
    assert_eq!(g.static_time, Some(6));
    // cells: 1 old + fsm + signal + 3 * 2 bounds + incr, one, last, reset
    assert_eq!(comp.cells.len(), 1 + 2 + 6 + 4);
    // fsm width: bit width of 7 states is 3
    assert!(matches!(comp.cells[1].prototype, Prototype::Reg { width: 3 }));
    assert_eq!(constant(&comp.cells[2]), Some((1, 1)));
    assert_eq!(constant(&comp.cells[3]), Some((0, 3)));
    assert_eq!(constant(&comp.cells[4]), Some((1, 3)));
    assert_eq!(constant(&comp.cells[5]), Some((1, 3)));
    assert_eq!(constant(&comp.cells[6]), Some((4, 3)));
    assert_eq!(constant(&comp.cells[7]), Some((4, 3)));
    assert_eq!(constant(&comp.cells[8]), Some((6, 3)));
    assert!(matches!(comp.cells[9].prototype, Prototype::Add { width: 3 }));
    assert_eq!(constant(&comp.cells[10]), Some((1, 3)));
    assert_eq!(constant(&comp.cells[11]), Some((6, 3)));
    assert_eq!(constant(&comp.cells[12]), Some((0, 3)));
    assert_eq!(g.assignments.len(), 3 + 5);
    // a takes one cycle: fsm == start
    assert_eq!(g.assignments[0].dst, hole(0, PortName::Go));
    assert_eq!(g.assignments[0].src, cell(2, PortName::Out));
    assert!(is_cmp(&g.assignments[0].guard, PortComp::Eq, cell(1, PortName::Out), cell(3, PortName::Out)));
    // b starts later: start <= fsm < end
    assert_eq!(g.assignments[1].dst, hole(1, PortName::Go));
    match &g.assignments[1].guard {
        Guard::And(l, r) => {
            assert!(is_cmp(l, PortComp::Geq, cell(1, PortName::Out), cell(5, PortName::Out)));
            assert!(is_cmp(r, PortComp::Lt, cell(1, PortName::Out), cell(6, PortName::Out)));
        }
        _ => panic!("expected a conjunction"),
    }
    assert_eq!(g.assignments[2].dst, hole(2, PortName::Go));
    // counting logic
    assert_eq!(g.assignments[3].dst, cell(9, PortName::Left));
    assert_eq!(g.assignments[3].src, cell(10, PortName::Out));
    assert!(matches!(g.assignments[3].guard, Guard::True));
    assert_eq!(g.assignments[4].dst, cell(9, PortName::Right));
    assert_eq!(g.assignments[4].src, cell(1, PortName::Out));
    assert_eq!(g.assignments[5].dst, cell(1, PortName::In));
    match &g.assignments[5].guard {
        Guard::Not(d) => assert!(is_cmp(d, PortComp::Eq, cell(1, PortName::Out), cell(11, PortName::Out))),
        _ => panic!("expected a negation"),
    }
    assert_eq!(g.assignments[7].dst, hole(3, PortName::Done));
    assert!(is_cmp(&g.assignments[7].guard, PortComp::Eq, cell(1, PortName::Out), cell(11, PortName::Out)));
    // cleanup
    assert_eq!(comp.continuous_assignments.len(), 2);
    assert_eq!(comp.continuous_assignments[0].dst, cell(1, PortName::In));
    assert_eq!(comp.continuous_assignments[0].src, cell(12, PortName::Out));
    assert_eq!(comp.continuous_assignments[1].dst, cell(1, PortName::WriteEn));
    assert_eq!(comp.continuous_assignments[1].src, cell(2, PortName::Out));
}

#[test]
fn finish_seq_first_group_uses_lt() {
    let mut comp = component(vec![group("a", Some(2)), group("b", Some(2))]);
    let mut s = Sequence { stmts: vec![enable(0), enable(1)] };
    let mut pass = StaticTiming::default();
    assert!(matches!(pass.finish_seq(&mut s, &mut comp, &LibrarySignatures {}, &[]), Ok(Action::Change(_))));
    let g = &comp.groups[2];
    // fsm is cell 1, a's end is cell 4
    assert!(is_cmp(&g.assignments[0].guard, PortComp::Lt, cell(1, PortName::Out), cell(4, PortName::Out)));
    assert_eq!(g.static_time, Some(4));
}

#[test]
fn finish_seq_leaves_dynamic_seq() {
    let mut comp = component(vec![group("a", Some(2)), group("b", None)]);
    let mut s = Sequence { stmts: vec![enable(0), enable(1)] };
    let mut pass = StaticTiming::default();
    assert!(matches!(pass.finish_seq(&mut s, &mut comp, &LibrarySignatures {}, &[]), Ok(Action::Continue)));
    assert_eq!(comp.groups.len(), 2);
    assert_eq!(comp.cells.len(), 1);
}

#[test]
fn finish_seq_refuses_overflowing_latency() {
    let mut comp = component(vec![group("a", Some(u64::MAX)), group("b", Some(1))]);
    let mut s = Sequence { stmts: vec![enable(0), enable(1)] };
    let mut pass = StaticTiming::default();
    assert!(matches!(pass.finish_seq(&mut s, &mut comp, &LibrarySignatures {}, &[]), Err(Error::MalformedControl(_))));
    let mut s = Sequence { stmts: vec![enable(0)] };
    assert!(matches!(pass.finish_seq(&mut s, &mut comp, &LibrarySignatures {}, &[]), Err(Error::MalformedControl(_))));
    assert_eq!(comp.groups.len(), 2);
}

#[test]
fn finish_par_lowers_static_par() {
    let mut comp = component(vec![group("a", Some(3)), group("b", Some(5))]);
    let mut s = Par { stmts: vec![enable(0), enable(1)] };
    let mut pass = StaticTiming::default();
    let r = pass.finish_par(&mut s, &mut comp, &LibrarySignatures {}, &[]);
    match r {
        Ok(Action::Change(c)) => assert!(matches!(*c, Control::Enable(Enable { group: 2 }))),
        _ => panic!("expected a change"),
    }
    let g = &comp.groups[2];
    assert_eq!(g.name, "static_par");
    assert_eq!(g.static_time, Some(5));
    // fsm of bit_width(6) = 3 bits
    assert!(matches!(comp.cells[1].prototype, Prototype::Reg { width: 3 }));
    assert_eq!(constant(&comp.cells[2]), Some((1, 1)));
    assert!(matches!(comp.cells[3].prototype, Prototype::Add { width: 3 }));
    assert_eq!(constant(&comp.cells[4]), Some((1, 3)));
    assert_eq!(constant(&comp.cells[5]), Some((5, 3)));
    assert_eq!(constant(&comp.cells[6]), Some((3, 3)));
    assert_eq!(constant(&comp.cells[7]), Some((5, 3)));
    assert_eq!(constant(&comp.cells[8]), Some((0, 3)));
    assert_eq!(comp.cells.len(), 9);
    assert_eq!(g.assignments.len(), 7);
    assert_eq!(g.assignments[4].dst, hole(2, PortName::Done));
    assert_eq!(g.assignments[5].dst, hole(0, PortName::Go));
    assert!(is_cmp(&g.assignments[5].guard, PortComp::Lt, cell(1, PortName::Out), cell(6, PortName::Out)));
    assert_eq!(g.assignments[6].dst, hole(1, PortName::Go));
    assert!(is_cmp(&g.assignments[6].guard, PortComp::Lt, cell(1, PortName::Out), cell(7, PortName::Out)));
    assert_eq!(comp.continuous_assignments.len(), 2);
    assert_eq!(comp.continuous_assignments[0].src, cell(8, PortName::Out));
}

#[test]
fn finish_par_leaves_dynamic_par() {
    let mut comp = component(vec![group("a", Some(3))]);
    let mut s = Par { stmts: vec![enable(0), Control::Empty(Empty {})] };
    let mut pass = StaticTiming::default();
    assert!(matches!(pass.finish_par(&mut s, &mut comp, &LibrarySignatures {}, &[]), Ok(Action::Continue)));
    assert_eq!(comp.groups.len(), 1);
}

#[test]
fn finish_par_refuses_overflowing_states() {
    let mut comp = component(vec![group("a", Some(u64::MAX))]);
    let mut s = Par { stmts: vec![enable(0)] };
    let mut pass = StaticTiming::default();
    assert!(matches!(pass.finish_par(&mut s, &mut comp, &LibrarySignatures {}, &[]), Err(Error::MalformedControl(_))));
}

fn if_node(cond: Option<usize>, t: Control, f: Control) -> If {
    If { port: cell(0, PortName::Out), cond, tbranch: Box::new(t), fbranch: Box::new(f) }
}

#[test]
fn finish_if_refuses_cond_group() {
    let mut comp = component(vec![group("a", Some(1)), group("b", Some(1)), group("c", None)]);
    let mut s = if_node(Some(2), enable(0), enable(1));
    let mut pass = StaticTiming::default();
    match pass.finish_if(&mut s, &mut comp, &LibrarySignatures {}, &[]) {
        Err(Error::MalformedStructure(m)) => assert_eq!(
            m,
            "static-timing: condition group should be removed from if. Run `remove-comb-groups` before this pass."
        ),
        _ => panic!("expected an error"),
    }
}

#[test]
fn finish_if_refuses_comb_branch() {
    let mut comp = component(vec![group("a", Some(2)), group("z", Some(0))]);
    let mut s = if_node(None, enable(0), enable(1));
    let mut pass = StaticTiming::default();
    match pass.finish_if(&mut s, &mut comp, &LibrarySignatures {}, &[]) {
        Err(Error::MalformedControl(m)) => assert!(m.contains("Group `z`")),
        _ => panic!("expected an error"),
    }
}

#[test]
fn finish_if_static_branches_not_implemented() {
    let mut comp = component(vec![group("a", Some(2)), group("b", Some(3))]);
    let mut s = if_node(None, enable(0), enable(1));
    let mut pass = StaticTiming::default();
    assert!(matches!(pass.finish_if(&mut s, &mut comp, &LibrarySignatures {}, &[]), Err(Error::NotImplemented(_))));
}

#[test]
fn finish_if_leaves_other_ifs() {
    let mut comp = component(vec![group("a", Some(2)), group("b", None)]);
    let mut s = if_node(None, enable(0), enable(1));
    let mut pass = StaticTiming::default();
    assert!(matches!(pass.finish_if(&mut s, &mut comp, &LibrarySignatures {}, &[]), Ok(Action::Continue)));
    let mut s = if_node(Some(1), enable(0), Control::Empty(Empty {}));
    assert!(matches!(pass.finish_if(&mut s, &mut comp, &LibrarySignatures {}, &[]), Ok(Action::Continue)));
}

#[test]
fn finish_while_not_implemented() {
    let mut comp = component(vec![group("a", Some(2))]);
    let mut s = While { port: cell(0, PortName::Out), cond: None, body: Box::new(enable(0)) };
    let mut pass = StaticTiming::default();
    match pass.finish_while(&mut s, &mut comp, &LibrarySignatures {}, &[]) {
        Err(Error::NotImplemented(m)) => assert_eq!(m, "static-timing: lowering a while loop is not implemented"),
        _ => panic!("expected an error"),
    }
}

#[test]
fn builder_methods() {
    let mut comp = component(vec![]);
    let g = comp.add_group("g".to_string());
    assert_eq!(g, 0);
    let c = comp.add_cell(Prototype::Reg { width: 4 });
    assert_eq!(c, 1);
    comp.add_group_assignment(
        g,
        Assignment { dst: hole(g, PortName::Done), src: cell(c, PortName::Out), guard: Guard::True },
    );
    comp.set_static_time(g, 7);
    comp.add_continuous_assignment(Assignment { dst: cell(c, PortName::In), src: cell(0, PortName::Out), guard: Guard::True });
    assert_eq!(comp.groups[0].assignments.len(), 1);
    assert_eq!(comp.groups[0].static_time, Some(7));
    assert_eq!(comp.continuous_assignments.len(), 1);
}

#[test]
fn par_time_is_at_most_seq_time() {
    let groups = vec![group("a", Some(2)), group("b", Some(5)), group("c", Some(3))];
    let stmts = vec![enable(0), enable(1), enable(2)];
    let par_time = accumulate_static_time(&stmts, &groups, StaticFold::Max).unwrap();
    let seq_time = accumulate_static_time(&stmts, &groups, StaticFold::Sum).unwrap();
    assert_eq!((par_time, seq_time), (5, 10));
    assert!(par_time <= seq_time);
}

#[test]
fn accumulated_time_ignores_statement_order() {
    let groups = vec![group("a", Some(2)), group("b", Some(5)), group("c", Some(3))];
    let forward = vec![enable(0), enable(1), enable(2)];
    let backward = vec![enable(2), enable(0), enable(1)];
    for op in [StaticFold::Sum, StaticFold::Max] {
        assert_eq!(
            accumulate_static_time(&forward, &groups, op),
            accumulate_static_time(&backward, &groups, op)
        );
    }
    let untimed = vec![group("a", Some(2)), group("u", None)];
    assert_eq!(
        accumulate_static_time(&[enable(0), enable(1)], &untimed, StaticFold::Sum),
        accumulate_static_time(&[enable(1), enable(0)], &untimed, StaticFold::Sum)
    );
}
