use calyx::action::{Action, VisResult};
use calyx::errors::Error;
use calyx::ir::{
    Cell, Component, Context, Control, Empty, Enable, Group, If, LibrarySignatures, Par,
    PortName, PortParent, PortRef, Prototype, Sequence, While,
};
use calyx::post_order::post_order;
use calyx::static_timing::StaticTiming;
use calyx::trace::HookNote;
use calyx::visitor::{log_line, Traversal, Visitable, Visitor};

fn group(name: &str, time: Option<u64>) -> Group {
    Group { name: name.to_string(), static_time: time, assignments: vec![] }
}

fn enable(g: usize) -> Control {
    Control::Enable(Enable { group: g })
}

fn seq(stmts: Vec<Control>) -> Control {
    Control::Sequence(Sequence { stmts })
}

fn par(stmts: Vec<Control>) -> Control {
    Control::Par(Par { stmts })
}

fn component(name: &str, groups: Vec<Group>, control: Control) -> Component {
    Component {
        name: name.to_string(),
        cells: vec![Cell { prototype: Prototype::Primitive { name: "std_lt".to_string() } }],
        groups,
        continuous_assignments: vec![],
        control,
    }
}

/// Records the hooks it sees, by name.
#[derive(Default)]
struct Recorder {
    log: Vec<String>,
    stop_at_enable: Option<usize>,
    skip_seq: bool,
}

impl Visitor for Recorder {
    fn record(&mut self, _call: HookNote) {}
    fn start_seq(&mut self, _s: &mut Sequence, _c: &mut Component, _l: &LibrarySignatures, _cs: &[Component]) -> VisResult {
        self.log.push("start_seq".to_string());
        if self.skip_seq { Ok(Action::SkipChildren) } else { Ok(Action::Continue) }
    }
    fn finish_seq(&mut self, _s: &mut Sequence, _c: &mut Component, _l: &LibrarySignatures, _cs: &[Component]) -> VisResult {
        self.log.push("finish_seq".to_string());
        Ok(Action::Continue)
    }
    fn start_par(&mut self, _s: &mut Par, _c: &mut Component, _l: &LibrarySignatures, _cs: &[Component]) -> VisResult {
        self.log.push("start_par".to_string());
        Ok(Action::Continue)
    }
    fn finish_par(&mut self, _s: &mut Par, _c: &mut Component, _l: &LibrarySignatures, _cs: &[Component]) -> VisResult {
        self.log.push("finish_par".to_string());
        Ok(Action::Continue)
    }
    fn start_if(&mut self, _s: &mut If, _c: &mut Component, _l: &LibrarySignatures, _cs: &[Component]) -> VisResult {
        self.log.push("start_if".to_string());
        Ok(Action::Continue)
    }
    fn finish_if(&mut self, _s: &mut If, _c: &mut Component, _l: &LibrarySignatures, _cs: &[Component]) -> VisResult {
        self.log.push("finish_if".to_string());
        Ok(Action::Continue)
    }
    fn start_while(&mut self, _s: &mut While, _c: &mut Component, _l: &LibrarySignatures, _cs: &[Component]) -> VisResult {
        self.log.push("start_while".to_string());
        Ok(Action::Continue)
    }
    fn finish_while(&mut self, _s: &mut While, _c: &mut Component, _l: &LibrarySignatures, _cs: &[Component]) -> VisResult {
        self.log.push("finish_while".to_string());
        Ok(Action::Continue)
    }
    fn enable(&mut self, s: &mut Enable, _c: &mut Component, _l: &LibrarySignatures, _cs: &[Component]) -> VisResult {
        self.log.push(format!("enable {}", s.group));
        if self.stop_at_enable == Some(s.group) { Ok(Action::Stop) } else { Ok(Action::Continue) }
    }
    fn empty(&mut self, _s: &mut Empty, _c: &mut Component, _l: &LibrarySignatures, _cs: &[Component]) -> VisResult {
        self.log.push("empty".to_string());
        Ok(Action::Continue)
    }
    fn start(&mut self, _c: &mut Component, _l: &LibrarySignatures, _cs: &[Component]) -> VisResult {
        self.log.push("start".to_string());
        Ok(Action::Continue)
    }
    fn finish(&mut self, _c: &mut Component, _l: &LibrarySignatures, _cs: &[Component]) -> VisResult {
        self.log.push("finish".to_string());
        Ok(Action::Continue)
    }
}

fn ctx(components: Vec<Component>) -> Context {
    Context { components, lib: LibrarySignatures {} }
}

#[test]
fn traversal_visits_top_down_and_bottom_up() {
    let groups = vec![group("a", None), group("b", None), group("c", None)];
    let port = PortRef { parent: PortParent::Cell(0), port: PortName::Out };
    let control = seq(vec![
        enable(0),
        par(vec![enable(1)]),
        Control::If(If { port, cond: None, tbranch: Box::new(enable(2)), fbranch: Box::new(Control::Empty(Empty {})) }),
        Control::While(While { port, cond: None, body: Box::new(enable(0)) }),
    ]);
    let mut comp = component("main", groups, control);
    let mut v = Recorder::default();
    v.traverse_component(&mut comp, &LibrarySignatures {}, &[]).unwrap();
    assert_eq!(
        v.log,
        vec![
            "start", "start_seq", "enable 0", "start_par", "enable 1", "finish_par", "start_if",
            "enable 2", "empty", "finish_if", "start_while", "enable 0", "finish_while",
            "finish_seq", "finish"
        ]
    );
}

#[test]
fn stop_ends_the_children_and_the_parent() {
    let groups = vec![group("a", None), group("b", None), group("c", None)];
    let mut control = seq(vec![enable(0), enable(1), enable(2)]);
    let mut comp = component("main", groups, Control::Empty(Empty {}));
    let mut v = Recorder { stop_at_enable: Some(1), ..Default::default() };
    let r = control.visit(&mut v, &mut comp, &LibrarySignatures {}, &[]);
    assert!(matches!(r, Ok(Action::Stop)));
    assert_eq!(v.log, vec!["start_seq", "enable 0", "enable 1"]);
}

#[test]
fn vec_visit_answers_stop_or_continue() {
    let groups = vec![group("a", None), group("b", None)];
    let mut comp = component("main", groups, Control::Empty(Empty {}));
    let mut stmts = vec![enable(0), enable(1)];
    let mut v = Recorder { stop_at_enable: Some(0), ..Default::default() };
    assert!(matches!(stmts.visit(&mut v, &mut comp, &LibrarySignatures {}, &[]), Ok(Action::Stop)));
    assert_eq!(v.log, vec!["enable 0"]);
    let mut v = Recorder::default();
    assert!(matches!(stmts.visit(&mut v, &mut comp, &LibrarySignatures {}, &[]), Ok(Action::Continue)));
    assert_eq!(v.log, vec!["enable 0", "enable 1"]);
}

#[test]
fn skip_children_skips_them_but_not_finish() {
    let groups = vec![group("a", None)];
    let mut control = seq(vec![enable(0)]);
    let mut comp = component("main", groups, Control::Empty(Empty {}));
    let mut v = Recorder { skip_seq: true, ..Default::default() };
    let r = control.visit(&mut v, &mut comp, &LibrarySignatures {}, &[]);
    assert!(matches!(r, Ok(Action::Continue)));
    assert_eq!(v.log, vec!["start_seq", "finish_seq"]);
}

#[test]
fn empty_control_is_not_traversed() {
    let mut comp = component("main", vec![], Control::Empty(Empty {}));
    let mut v = Recorder::default();
    v.traverse_component(&mut comp, &LibrarySignatures {}, &[]).unwrap();
    assert_eq!(v.log, vec!["start", "finish"]);
}

#[test]
fn static_timing_pass_compiles_nested_static_control() {
    // seq { a; par { b; c } } with static a = 2, b = 3, c = 1.
    let groups = vec![group("a", Some(2)), group("b", Some(3)), group("c", Some(1))];
    let control = seq(vec![enable(0), par(vec![enable(1), enable(2)])]);
    let mut context = ctx(vec![component("main", groups, control)]);
    StaticTiming::do_pass_default(&mut context).unwrap();
    let comp = &context.components[0];
    // The par became group 3 (static 3), then the seq group 4 (static 2 + 3).
    assert_eq!(comp.groups.len(), 5);
    assert_eq!(comp.groups[3].name, "static_par");
    assert_eq!(comp.groups[3].static_time, Some(3));
    assert_eq!(comp.groups[4].name, "static_seq");
    assert_eq!(comp.groups[4].static_time, Some(5));
    assert!(matches!(comp.control, Control::Enable(Enable { group: 4 })));
}

#[test]
fn static_timing_pass_leaves_dynamic_control() {
    let groups = vec![group("a", Some(2)), group("b", None)];
    let control = seq(vec![enable(0), enable(1)]);
    let mut context = ctx(vec![component("main", groups, control)]);
    StaticTiming::do_pass_default(&mut context).unwrap();
    let comp = &context.components[0];
    assert_eq!(comp.groups.len(), 2);
    assert!(matches!(&comp.control, Control::Sequence(s) if s.stmts.len() == 2));
}

#[test]
fn static_timing_pass_fails_on_while() {
    let groups = vec![group("a", Some(2))];
    let port = PortRef { parent: PortParent::Cell(0), port: PortName::Out };
    let control = Control::While(While { port, cond: None, body: Box::new(enable(0)) });
    let mut context = ctx(vec![component("main", groups, control)]);
    assert!(matches!(StaticTiming::do_pass_default(&mut context), Err(Error::NotImplemented(_))));
}

#[test]
fn do_pass_visits_every_component() {
    let c1 = component("a", vec![group("x", Some(1))], seq(vec![enable(0)]));
    let c2 = component("b", vec![group("y", Some(4))], par(vec![enable(0)]));
    let mut context = ctx(vec![c1, c2]);
    let mut pass = StaticTiming::default();
    pass.do_pass(&mut context).unwrap();
    assert_eq!(context.components.len(), 2);
    assert_eq!(context.components[0].name, "a");
    assert_eq!(context.components[1].name, "b");
    assert!(matches!(context.components[0].control, Control::Enable(Enable { group: 1 })));
    assert!(matches!(context.components[1].control, Control::Enable(Enable { group: 1 })));
    assert_eq!(context.components[1].groups[1].static_time, Some(4));
}

/// Asks for the post-order traversal and records component names.
#[derive(Default)]
struct OrderRecorder {
    names: Vec<String>,
}

impl Visitor for OrderRecorder {
    fn record(&mut self, _call: HookNote) {}
    fn require_postorder() -> bool {
        true
    }
    fn start(&mut self, c: &mut Component, _l: &LibrarySignatures, _cs: &[Component]) -> VisResult {
        self.names.push(c.name.clone());
        Ok(Action::Continue)
    }
}

fn instance_of(name: &str) -> Cell {
    Cell { prototype: Prototype::Component { name: name.to_string() } }
}

#[test]
fn post_order_traversal_visits_instances_first() {
    // main uses mid, mid uses leaf.
    let mut main = component("main", vec![], Control::Empty(Empty {}));
    main.cells.push(instance_of("mid"));
    let mut mid = component("mid", vec![], Control::Empty(Empty {}));
    mid.cells.push(instance_of("leaf"));
    let leaf = component("leaf", vec![], Control::Empty(Empty {}));
    let mut context = ctx(vec![main, mid, leaf]);
    let mut v = OrderRecorder::default();
    v.do_pass(&mut context).unwrap();
    // clear_data resets the recorder after each component, so record order
    // through the post order itself.
    assert_eq!(context.components.len(), 3);
    assert_eq!(context.components[0].name, "main");
    let order = post_order(&context.components).unwrap();
    assert_eq!(order, vec![2, 1, 0]);
}

#[test]
fn post_order_keeps_independent_components_in_place() {
    let a = component("a", vec![], Control::Empty(Empty {}));
    let b = component("b", vec![], Control::Empty(Empty {}));
    assert_eq!(post_order(&vec![a, b]).unwrap(), vec![0, 1]);
}

#[test]
fn post_order_refuses_cycles() {
    let mut a = component("a", vec![], Control::Empty(Empty {}));
    a.cells.push(instance_of("b"));
    let mut b = component("b", vec![], Control::Empty(Empty {}));
    b.cells.push(instance_of("a"));
    assert!(post_order(&vec![a, b]).is_none());
    let mut s = component("self", vec![], Control::Empty(Empty {}));
    s.cells.push(instance_of("self"));
    assert!(post_order(&vec![s]).is_none());
}

#[test]
fn postorder_pass_fails_on_cycles() {
    let mut a = component("a", vec![], Control::Empty(Empty {}));
    a.cells.push(instance_of("a"));
    let mut context = ctx(vec![a]);
    let mut v = OrderRecorder::default();
    assert!(matches!(v.do_pass(&mut context), Err(Error::MalformedStructure(_))));
}

#[test]
fn actions_pop_and_apply() {
    assert!(matches!(Action::SkipChildren.pop(), Action::Continue));
    assert!(matches!(Action::Stop.pop(), Action::Stop));
    assert!(matches!(Action::Continue.pop(), Action::Continue));
    let mut c = Control::Empty(Empty {});
    let a = Action::Change(Box::new(enable(7)));
    assert!(matches!(a.apply_change(&mut c), Action::Continue));
    assert!(matches!(c, Control::Enable(Enable { group: 7 })));
    assert!(matches!(Action::Stop.apply_change(&mut c), Action::Stop));
    assert!(matches!(c, Control::Enable(Enable { group: 7 })));
}

#[test]
fn log_lines() {
    assert_eq!(log_line("static-timing", "groups", "3"), "static-timing.groups: 3");
}

#[test]
fn control_constructors() {
    assert!(matches!(Control::empty(), Control::Empty(_)));
    assert!(matches!(Control::enable(3), Control::Enable(Enable { group: 3 })));
    assert_eq!(PortRef::cell(2, PortName::In), PortRef { parent: PortParent::Cell(2), port: PortName::In });
    assert_eq!(PortRef::hole(1, PortName::Go), PortRef { parent: PortParent::Group(1), port: PortName::Go });
}

#[test]
fn finish_runs_even_when_children_stop() {
    let groups = vec![group("a", None), group("b", None)];
    let mut comp = component("main", groups, seq(vec![enable(0), enable(1)]));
    let mut v = Recorder { stop_at_enable: Some(0), ..Default::default() };
    v.traverse_component(&mut comp, &LibrarySignatures {}, &[]).unwrap();
    assert_eq!(v.log, vec!["start", "start_seq", "enable 0", "finish"]);
    assert!(matches!(&comp.control, Control::Sequence(s) if s.stmts.len() == 2));
}

/// A visitor that keeps every default hook.
#[derive(Default)]
struct Plain {}

impl Visitor for Plain {
    fn record(&mut self, _call: HookNote) {}
}

#[test]
fn default_hooks_change_nothing() {
    let groups = vec![group("a", Some(1)), group("b", Some(2))];
    let control = seq(vec![enable(0), par(vec![enable(1)])]);
    let mut context = ctx(vec![component("main", groups, control)]);
    Plain::do_pass_default(&mut context).unwrap();
    let comp = &context.components[0];
    assert_eq!(comp.groups.len(), 2);
    assert_eq!(comp.cells.len(), 1);
    match &comp.control {
        Control::Sequence(s) => {
            assert_eq!(s.stmts.len(), 2);
            assert!(matches!(s.stmts[0], Control::Enable(Enable { group: 0 })));
            assert!(matches!(&s.stmts[1], Control::Par(p) if p.stmts.len() == 1));
        }
        _ => panic!("expected the seq to stay"),
    }
    assert!(!Plain::require_postorder());
}

#[test]
fn visiting_no_statements_calls_no_hook() {
    let mut v = Recorder::default();
    let mut comp = component("main", vec![group("a", None)], Control::Empty(Empty {}));
    let mut stmts: Vec<Control> = vec![];
    let r = stmts.visit(&mut v, &mut comp, &LibrarySignatures {}, &[]);
    assert!(matches!(r, Ok(Action::Continue)));
    assert!(stmts.is_empty());
    assert!(v.log.is_empty());
}

#[test]
fn pass_over_no_components_succeeds() {
    let mut context = ctx(vec![]);
    let mut v = OrderRecorder::default();
    v.do_pass(&mut context).unwrap();
    assert!(context.components.is_empty());
    assert!(v.names.is_empty());
}

#[test]
fn static_timing_visit_lowers_par_then_seq() {
    // seq { par { A; B }; C } with static A = 2, B = 3, C = 1.
    let groups = vec![group("A", Some(2)), group("B", Some(3)), group("C", Some(1))];
    let mut comp = component("main", groups, Control::Empty(Empty {}));
    let mut control = seq(vec![par(vec![enable(0), enable(1)]), enable(2)]);
    let mut pass = StaticTiming::default();
    let r = control.visit(&mut pass, &mut comp, &LibrarySignatures {}, &[]);
    assert!(matches!(r, Ok(Action::Continue)));
    assert_eq!(comp.groups.len(), 5);
    assert_eq!(comp.groups[3].static_time, Some(3));
    assert_eq!(comp.groups[4].static_time, Some(4));
    assert!(matches!(control, Control::Enable(Enable { group: 4 })));
}
