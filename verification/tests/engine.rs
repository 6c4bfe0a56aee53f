use std::any::Any;
use std::cell::RefCell;
use std::rc::Rc;
use ui3_core::Application;
use ui3_core::Deferred;
use ui3_core::DynEffectFunc;
use ui3_core::DynWidgetFunc;
use ui3_core::InternalContext;
use ui3_core::MountedWidgetNode;
use ui3_core::RenderNode;
use ui3_core::UiBackend;
use ui3_core::WidgetComponent;
use ui3_core::WidgetEffectComponent;
use ui3_core::WidgetNode;
use ui3_core::WidgetNodeGroup;

struct Tb;

struct Cell {
    value: Box<dyn Any>,
    changed: u32,
}

type Log = Rc<RefCell<Vec<String>>>;

struct Host {
    log: Log,
    cells: Vec<Option<Cell>>,
    tick: u32,
    dep: u32,
}

impl Host {
    fn new() -> Host {
        Host { log: Rc::new(RefCell::new(Vec::new())), cells: Vec::new(), tick: 1, dep: 0 }
    }

    fn note(&mut self, line: &str) {
        self.log.borrow_mut().push(line.to_string());
    }

    fn take_log(&self) -> Vec<String> {
        self.log.replace(Vec::new())
    }

    fn live_cells(&self) -> usize {
        self.cells.iter().filter(|c| c.is_some()).count()
    }
}

#[derive(Clone, Copy, PartialEq)]
enum WFn {
    Label,
    Counter,
    Other,
    Nest,
    WithEffect,
    Follow,
    Toggle,
}

struct Wf {
    kind: WFn,
    log: Log,
}

impl Wf {
    fn child(&self, kind: WFn, props: &str) -> WidgetNode<Tb> {
        WidgetNode::Component(WidgetComponent {
            func: Rc::new(Wf { kind, log: self.log.clone() }),
            props: Rc::new(props.to_string()),
        })
    }
}

#[derive(Clone, Copy, PartialEq)]
enum EFn {
    Watch,
    Trace,
}

impl WFn {
    fn name(&self) -> &'static str {
        match self {
            WFn::Label => "label",
            WFn::Counter => "counter",
            WFn::Other => "other",
            WFn::Nest => "nest",
            WFn::WithEffect => "with-effect",
            WFn::Follow => "follow",
            WFn::Toggle => "toggle",
        }
    }
}

impl UiBackend for Tb {
    type Unit = String;
    type RunCtx = Host;
    type Props = String;
    type State = Vec<(usize, u32)>;
    type Cleanup = String;
    type Dep = u32;
    type WidgetFn = Wf;
    type EffectFn = EFn;
    type StoreId = usize;
    type StoreInitData = (usize, u32);

    fn mark_update(ctx: &mut Host) {
        ctx.tick += 1;
        ctx.note("mark");
    }

    fn run_cleanup(ctx: &mut Host, cleanup: String) {
        ctx.note(&format!("cleanup:{}", cleanup));
    }

    fn dep_changed(ctx: &Host, dep: &u32) -> bool {
        ctx.dep != *dep
    }

    fn store_exists<T: Send + Sync + 'static>(id: usize, ctx: &Host) -> bool {
        match ctx.cells.get(id) {
            Some(Some(cell)) => cell.value.is::<T>(),
            _ => false,
        }
    }

    fn access_store_mut<'a, T: Send + Sync + 'static>(id: usize, ctx: &'a mut Host) -> &'a mut T {
        let tick = ctx.tick;
        let cell = ctx.cells[id].as_mut().unwrap();
        cell.changed = tick;
        cell.value.downcast_mut().unwrap()
    }

    fn access_store<'a, T: Send + Sync + 'static>(id: usize, ctx: &'a Host) -> &'a T {
        ctx.cells[id].as_ref().unwrap().value.downcast_ref().unwrap()
    }

    fn read_store_marked<'a, T: Send + Sync + 'static>(
        id: usize,
        ctx: &'a Host,
        init_data: &mut (usize, u32),
    ) -> &'a T {
        init_data.1 = ctx.tick;
        Self::access_store(id, ctx)
    }

    fn init_store<T: Send + Sync + 'static>(ctx: &mut Host, val: T) -> (usize, u32) {
        let tick = ctx.tick;
        ctx.cells.push(Some(Cell { value: Box::new(val), changed: tick }));
        (ctx.cells.len() - 1, 0)
    }

    fn deinit_store(data: (usize, u32), ctx: &mut Host) {
        ctx.cells[data.0] = None;
    }

    fn id_from_store_init_data(data: &(usize, u32)) -> usize {
        data.0
    }

    fn check_store_needs_recalc<T: Send + Sync + 'static>(ctx: &Host, init_data: &(usize, u32)) -> bool {
        ctx.cells[init_data.0].as_ref().unwrap().changed > init_data.1
    }
}

fn text(s: &str) -> WidgetNode<Tb> {
    WidgetNode::Unit { unit: Rc::new(s.to_string()), children: Rc::new(WidgetNode::Empty) }
}

fn comp(host: &Host, kind: WFn, props: &str) -> WidgetNode<Tb> {
    WidgetNode::Component(WidgetComponent {
        func: Rc::new(Wf { kind, log: host.log.clone() }),
        props: Rc::new(props.to_string()),
    })
}

fn effect(f: EFn, props: &str) -> WidgetNode<Tb> {
    WidgetNode::Effect(WidgetEffectComponent { func: Rc::new(f), props: Rc::new(props.to_string()) })
}

fn group(items: Vec<WidgetNode<Tb>>) -> WidgetNode<Tb> {
    let mut g = WidgetNodeGroup::default();
    for item in items {
        g.push(item);
    }
    WidgetNode::Group(g)
}

impl DynWidgetFunc<Tb> for Wf {
    fn call(
        &self,
        ctx: &Host,
        props: &String,
        init_data: &mut Vec<(usize, u32)>,
        deps: &mut Vec<u32>,
    ) -> WidgetNode<Tb> {
        self.log.borrow_mut().push(format!("call:{}:{}", self.kind.name(), props));
        match self.kind {
            WFn::Follow => {
                deps.push(ctx.dep);
                text(&format!("{}{}", props, ctx.dep))
            },
            WFn::Toggle => {
                deps.push(ctx.dep);
                if ctx.dep == 0 {
                    effect(EFn::Trace, props)
                } else {
                    WidgetNode::Empty
                }
            },
            WFn::Label => text(props),
            WFn::Other => text(&format!("other {}", props)),
            WFn::Counter => {
                let id = init_data[0].0;
                let n: &i64 = Tb::read_store_marked(id, ctx, &mut init_data[0]);
                text(&format!("{}{}", props, n))
            },
            WFn::Nest => group(vec![self.child(WFn::Counter, "inner "), self.child(WFn::Label, props)]),
            WFn::WithEffect => group(vec![effect(EFn::Trace, props), text(props)]),
        }
    }

    fn needs_recalc(&self, ctx: &Host, init_data: &Vec<(usize, u32)>) -> bool {
        match self.kind {
            WFn::Counter => Tb::check_store_needs_recalc::<i64>(ctx, &init_data[0]),
            _ => false,
        }
    }

    fn init(&self, ctx: &mut Host) -> Vec<(usize, u32)> {
        ctx.note(&format!("init:{}", self.kind.name()));
        match self.kind {
            WFn::Counter => vec![Tb::init_store(ctx, 0i64)],
            _ => Vec::new(),
        }
    }

    fn deinit(&self, ctx: &mut Host, init_data: Vec<(usize, u32)>) {
        ctx.note(&format!("deinit:{}", self.kind.name()));
        for data in init_data {
            Tb::deinit_store(data, ctx);
        }
    }

    fn fn_type_id(&self) -> u64 {
        self.kind as u64
    }
}

impl DynEffectFunc<Tb> for EFn {
    fn call(&self, ctx: &mut Host, props: &String, init_data: &mut Vec<(usize, u32)>) -> String {
        match self {
            EFn::Watch => {
                init_data[0].1 = ctx.dep;
                let line = format!("run:{}:{}", props, ctx.dep);
                ctx.note(&line);
                format!("{}:{}", props, ctx.dep)
            },
            EFn::Trace => {
                init_data[0].1 = 1;
                ctx.note(&format!("trace:{}", props));
                format!("trace:{}", props)
            },
        }
    }

    fn needs_recalc(&self, ctx: &Host, init_data: &Vec<(usize, u32)>) -> bool {
        match self {
            EFn::Watch => init_data[0].1 != ctx.dep,
            EFn::Trace => false,
        }
    }

    fn init(&self, ctx: &mut Host) -> Vec<(usize, u32)> {
        ctx.note("effect-init");
        vec![(0, u32::MAX)]
    }

    fn fn_type_id(&self) -> u64 {
        *self as u64
    }
}

fn lines(v: &[&str]) -> Vec<String> {
    v.iter().map(|s| s.to_string()).collect()
}

fn shown(nodes: &Vec<RenderNode<'_, Tb>>) -> Vec<String> {
    nodes.iter().map(|n| n.unit.clone()).collect()
}

#[test]
fn group_shrinks_in_place() {
    let mut host = Host::new();
    let mut ctx = InternalContext::new();
    let mounted = group(vec![text("A"), text("B")]).mount(&mut host, &mut ctx);
    assert_eq!(shown(&mounted.render()), lines(&["A", "B"]));
    let after = mounted.diff(&group(vec![text("B")]), &mut host, &mut ctx);
    assert_eq!(shown(&after.render()), lines(&["B"]));
    match &after {
        MountedWidgetNode::Group(g) => {
            assert_eq!(g.ordered.len(), 1);
            assert_eq!(g.named.len(), 0);
            assert_eq!(g.render_order.len(), 1);
        },
        _ => panic!("a group stays a group"),
    }
    assert!(ctx.execute_at_end.is_empty());
    assert_eq!(host.take_log(), Vec::<String>::new());
}

#[test]
fn deferred_work_runs_in_the_order_of_the_traversal() {
    let mut host = Host::new();
    let root = group(vec![effect(EFn::Watch, "w"), comp(&host, WFn::Toggle, "t")]);
    let mut app = Application::new(root, &mut host);
    assert_eq!(
        host.take_log(),
        lines(&[
            "effect-init",
            "init:toggle",
            "call:toggle:t",
            "effect-init",
            "run:w:0",
            "trace:t",
            "mark",
            "mark"
        ])
    );
    host.dep = 1;
    assert!(app.pass(&mut host));
    assert_eq!(
        host.take_log(),
        lines(&["call:toggle:t", "mark", "cleanup:w:0", "run:w:1", "cleanup:trace:t"])
    );
    assert!(!app.pass(&mut host));
    assert_eq!(host.take_log(), lines(&["mark"]));
}

#[test]
fn reruns_follow_the_order_of_the_comparison() {
    let mut host = Host::new();
    let mut ctx = InternalContext::new();
    let build = |tag: &str| -> WidgetNode<Tb> {
        let mut g = WidgetNodeGroup::default();
        g.push_named(effect(EFn::Trace, &format!("named {}", tag)), "n".to_string());
        g.push(effect(EFn::Trace, &format!("first {}", tag)));
        WidgetNode::Group(g)
    };
    let mut tree = build("a").mount(&mut host, &mut ctx);
    tree = tree.flush(&mut host, &mut ctx);
    assert_eq!(
        host.take_log(),
        lines(&["effect-init", "effect-init", "trace:named a", "trace:first a"])
    );
    tree = tree.diff(&build("b"), &mut host, &mut ctx);
    tree = tree.flush(&mut host, &mut ctx);
    assert_eq!(
        host.take_log(),
        lines(&[
            "cleanup:trace:first a",
            "trace:first b",
            "cleanup:trace:named a",
            "trace:named b"
        ])
    );
    tree.unmount(&mut host, &mut ctx);
    MountedWidgetNode::<Tb>::Empty.flush(&mut host, &mut ctx);
    assert_eq!(host.take_log(), lines(&["cleanup:trace:named b", "cleanup:trace:first b"]));
}

#[test]
fn patch_keeps_the_mounted_function() {
    let mut host = Host::new();
    let mut ctx = InternalContext::new();
    let other = Host::new();
    let mut tree = comp(&host, WFn::Label, "a").mount(&mut host, &mut ctx);
    host.take_log();
    tree = tree.diff(&comp(&other, WFn::Label, "b"), &mut host, &mut ctx);
    assert_eq!(host.take_log(), lines(&["call:label:b"]));
    assert_eq!(other.take_log(), Vec::<String>::new());
    assert_eq!(shown(&tree.render()), lines(&["b"]));
}

#[test]
fn group_shrinks_unmounts_second_and_patches_first() {
    let mut host = Host::new();
    let mut ctx = InternalContext::new();
    let mounted =
        group(vec![comp(&host, WFn::Label, "A"), comp(&host, WFn::Label, "B")]).mount(&mut host, &mut ctx);
    assert_eq!(
        host.take_log(),
        lines(&["init:label", "call:label:A", "init:label", "call:label:B"])
    );
    let after = mounted.diff(&group(vec![comp(&host, WFn::Label, "B")]), &mut host, &mut ctx);
    assert_eq!(host.take_log(), lines(&["deinit:label", "call:label:B"]));
    assert_eq!(shown(&after.render()), lines(&["B"]));
}

#[test]
fn counter_rerenders_once_per_increment() {
    let mut host = Host::new();
    let mut app = Application::new(comp(&host, WFn::Counter, ""), &mut host);
    assert_eq!(shown(&app.render()), lines(&["0"]));
    assert_eq!(host.take_log(), lines(&["init:counter", "call:counter:", "mark", "mark"]));
    for expected in ["1", "2"] {
        *Tb::access_store_mut::<i64>(0, &mut host) += 1;
        assert!(app.update(&mut host));
        assert_eq!(host.take_log(), lines(&["call:counter:", "mark"]));
        assert_eq!(shown(&app.render()), lines(&[expected]));
    }
    assert_eq!(host.live_cells(), 1);
}

fn named_group(items: Vec<(&str, WidgetNode<Tb>)>) -> WidgetNode<Tb> {
    let mut g = WidgetNodeGroup::default();
    for (name, item) in items {
        g.push_named(item, name.to_string());
    }
    WidgetNode::Group(g)
}

fn count(log: &[String], prefix: &str) -> usize {
    log.iter().filter(|l| l.starts_with(prefix)).count()
}

fn end_pass(tree: MountedWidgetNode<Tb>, host: &mut Host, ctx: &mut InternalContext<Tb>) -> MountedWidgetNode<Tb> {
    Tb::mark_update(host);
    tree.flush(host, ctx)
}

#[test]
fn every_init_meets_its_deinit() {
    let mut host = Host::new();
    let mut ctx = InternalContext::new();
    let mut all: Vec<String> = Vec::new();
    let mut tree = comp(&host, WFn::Nest, "n").mount(&mut host, &mut ctx);
    all.extend(host.take_log());
    assert_eq!(host.live_cells(), 1);
    tree = tree.diff(&group(vec![comp(&host, WFn::Counter, ""), comp(&host, WFn::Nest, "m")]), &mut host, &mut ctx);
    all.extend(host.take_log());
    assert_eq!(host.live_cells(), 2);
    tree = tree.diff(&comp(&host, WFn::Counter, ""), &mut host, &mut ctx);
    all.extend(host.take_log());
    assert_eq!(host.live_cells(), 1);
    tree = tree.diff(&text("plain"), &mut host, &mut ctx);
    all.extend(host.take_log());
    assert_eq!(host.live_cells(), 0);
    tree = tree.diff(&comp(&host, WFn::Nest, "again"), &mut host, &mut ctx);
    all.extend(host.take_log());
    tree.unmount(&mut host, &mut ctx);
    all.extend(host.take_log());
    assert_eq!(count(&all, "init:"), count(&all, "deinit:"));
    assert_eq!(count(&all, "init:"), 11);
    assert_eq!(host.live_cells(), 0);
}

#[test]
fn mount_allocates_one_state_per_instance() {
    let mut host = Host::new();
    let mut ctx = InternalContext::new();
    let tree = comp(&host, WFn::Nest, "n").mount(&mut host, &mut ctx);
    assert_eq!(
        host.take_log(),
        lines(&[
            "init:nest",
            "call:nest:n",
            "init:counter",
            "call:counter:inner ",
            "init:label",
            "call:label:n"
        ])
    );
    tree.unmount(&mut host, &mut ctx);
    assert_eq!(host.take_log(), lines(&["deinit:counter", "deinit:label", "deinit:nest"]));
}

#[test]
fn same_identity_keeps_state_other_identity_resets_it() {
    let mut host = Host::new();
    let mut ctx = InternalContext::new();
    let mut tree = comp(&host, WFn::Counter, "a").mount(&mut host, &mut ctx);
    host.take_log();
    *Tb::access_store_mut::<i64>(0, &mut host) = 5;
    tree = tree.diff(&comp(&host, WFn::Counter, "b"), &mut host, &mut ctx);
    assert_eq!(host.take_log(), lines(&["call:counter:b"]));
    assert_eq!(shown(&tree.render()), lines(&["b5"]));
    assert_eq!(host.live_cells(), 1);
    tree = tree.diff(&comp(&host, WFn::Other, "x"), &mut host, &mut ctx);
    assert_eq!(host.take_log(), lines(&["deinit:counter", "init:other", "call:other:x"]));
    assert_eq!(shown(&tree.render()), lines(&["other x"]));
    assert_eq!(host.live_cells(), 0);
    tree = tree.diff(&comp(&host, WFn::Counter, "c"), &mut host, &mut ctx);
    assert_eq!(host.take_log(), lines(&["deinit:other", "init:counter", "call:counter:c"]));
    assert_eq!(shown(&tree.render()), lines(&["c0"]));
}

#[test]
fn nested_state_survives_a_patch_of_the_parent() {
    let mut host = Host::new();
    let mut ctx = InternalContext::new();
    let mut tree = comp(&host, WFn::Nest, "one").mount(&mut host, &mut ctx);
    host.take_log();
    *Tb::access_store_mut::<i64>(0, &mut host) = 7;
    tree = tree.diff(&comp(&host, WFn::Nest, "two"), &mut host, &mut ctx);
    assert_eq!(
        host.take_log(),
        lines(&["call:nest:two", "call:counter:inner ", "call:label:two"])
    );
    assert_eq!(shown(&tree.render()), lines(&["inner 7", "two"]));
}

#[test]
fn cleanup_runs_right_before_each_rerun_and_once_at_the_end() {
    let mut host = Host::new();
    let mut app = Application::new(effect(EFn::Watch, "w"), &mut host);
    assert_eq!(host.take_log(), lines(&["effect-init", "run:w:0", "mark", "mark"]));
    for n in 1..=3u32 {
        host.dep = n;
        assert!(app.update(&mut host));
        assert_eq!(
            host.take_log(),
            lines(&["mark", &format!("cleanup:w:{}", n - 1), &format!("run:w:{}", n), "mark"])
        );
    }
    assert!(app.render().is_empty());
}

#[test]
fn final_cleanup_runs_once_on_unmount() {
    let mut host = Host::new();
    let mut ctx = InternalContext::new();
    let mut tree = effect(EFn::Watch, "w").mount(&mut host, &mut ctx);
    tree = end_pass(tree, &mut host, &mut ctx);
    let mut total = host.take_log();
    for n in 1..=4u32 {
        host.dep = n;
        tree = tree.process(&mut host, &mut ctx);
        tree = end_pass(tree, &mut host, &mut ctx);
        total.extend(host.take_log());
    }
    assert_eq!(count(&total, "cleanup:"), 4);
    assert_eq!(count(&total, "run:"), 5);
    tree.unmount(&mut host, &mut ctx);
    assert_eq!(ctx.execute_at_end.len(), 1);
    assert!(matches!(&ctx.execute_at_end[0], Deferred::Cleanup(action) if action == "w:4"));
    let rest = MountedWidgetNode::<Tb>::Empty.flush(&mut host, &mut ctx);
    assert_eq!(host.take_log(), lines(&["cleanup:w:4"]));
    assert!(ctx.execute_at_end.is_empty());
    rest.flush(&mut host, &mut ctx);
    assert_eq!(host.take_log(), Vec::<String>::new());
}

#[test]
fn effect_unmounted_before_its_first_run_never_runs() {
    let mut host = Host::new();
    let mut ctx = InternalContext::new();
    let tree = effect(EFn::Watch, "w").mount(&mut host, &mut ctx);
    assert_eq!(host.take_log(), lines(&["effect-init"]));
    assert_eq!(ctx.execute_at_end.len(), 1);
    assert!(matches!(&ctx.execute_at_end[0], Deferred::Run));
    tree.unmount(&mut host, &mut ctx);
    assert_eq!(ctx.execute_at_end.len(), 1);
    MountedWidgetNode::<Tb>::Empty.flush(&mut host, &mut ctx);
    assert!(ctx.execute_at_end.is_empty());
    assert_eq!(host.take_log(), Vec::<String>::new());
}

#[test]
fn effect_patch_schedules_a_run_and_other_identity_replaces() {
    let mut host = Host::new();
    let mut ctx = InternalContext::new();
    let mut tree = effect(EFn::Trace, "a").mount(&mut host, &mut ctx);
    tree = end_pass(tree, &mut host, &mut ctx);
    assert_eq!(host.take_log(), lines(&["effect-init", "mark", "trace:a"]));
    tree = tree.diff(&effect(EFn::Trace, "b"), &mut host, &mut ctx);
    assert_eq!(host.take_log(), Vec::<String>::new());
    tree = end_pass(tree, &mut host, &mut ctx);
    assert_eq!(host.take_log(), lines(&["mark", "cleanup:trace:a", "trace:b"]));
    tree = tree.diff(&effect(EFn::Watch, "c"), &mut host, &mut ctx);
    assert_eq!(host.take_log(), lines(&["effect-init"]));
    assert_eq!(ctx.execute_at_end.len(), 2);
    assert!(matches!(&ctx.execute_at_end[0], Deferred::Cleanup(action) if action == "trace:b"));
    assert!(matches!(&ctx.execute_at_end[1], Deferred::Run));
    tree = end_pass(tree, &mut host, &mut ctx);
    assert_eq!(host.take_log(), lines(&["mark", "cleanup:trace:b", "run:c:0"]));
    match tree {
        MountedWidgetNode::Effect(e) => {
            assert!(e.pending.is_none());
            assert_eq!(e.cleanup_fn, Some("c:0".to_string()));
        },
        _ => panic!("an effect stays an effect"),
    }
}

#[test]
fn reordering_named_children_keeps_instances_and_state() {
    let mut host = Host::new();
    let mut ctx = InternalContext::new();
    let first = named_group(vec![("a", comp(&host, WFn::Counter, "a")), ("b", comp(&host, WFn::Counter, "b"))]);
    let mut tree = first.mount(&mut host, &mut ctx);
    host.take_log();
    *Tb::access_store_mut::<i64>(0, &mut host) = 1;
    *Tb::access_store_mut::<i64>(1, &mut host) = 2;
    let second = named_group(vec![("b", comp(&host, WFn::Counter, "b")), ("a", comp(&host, WFn::Counter, "a"))]);
    tree = tree.diff(&second, &mut host, &mut ctx);
    assert_eq!(host.take_log(), lines(&["call:counter:a", "call:counter:b"]));
    assert_eq!(shown(&tree.render()), lines(&["b2", "a1"]));
    assert_eq!(host.live_cells(), 2);
    tree = tree.diff(&first, &mut host, &mut ctx);
    assert_eq!(host.take_log(), lines(&["call:counter:a", "call:counter:b"]));
    assert_eq!(shown(&tree.render()), lines(&["a1", "b2"]));
}

#[test]
fn update_at_rest_only_tells_the_backend() {
    let mut host = Host::new();
    let mut app = Application::new(
        group(vec![comp(&host, WFn::Nest, "n"), effect(EFn::Watch, "w"), text("t")]),
        &mut host,
    );
    host.take_log();
    let before = shown(&app.render());
    assert!(app.update(&mut host));
    assert_eq!(host.take_log(), lines(&["mark"]));
    assert!(!app.pass(&mut host));
    assert_eq!(host.take_log(), lines(&["mark"]));
    assert_eq!(shown(&app.render()), before);
    assert_eq!(before, lines(&["inner 0", "n", "t"]));
}

#[test]
fn group_renders_in_render_order() {
    let mut host = Host::new();
    let mut ctx = InternalContext::new();
    let mut g = WidgetNodeGroup::default();
    g.push(text("first"));
    g.push_named(text("second"), "x".to_string());
    g.push(text("third"));
    g.push_named(comp(&host, WFn::Label, "fourth"), "y".to_string());
    let tree = WidgetNode::Group(g).mount(&mut host, &mut ctx);
    assert_eq!(shown(&tree.render()), lines(&["first", "second", "third", "fourth"]));
}

#[test]
fn render_nests_children_below_their_unit() {
    let mut host = Host::new();
    let mut ctx = InternalContext::new();
    let inner = group(vec![text("a"), comp(&host, WFn::Label, "b"), effect(EFn::Trace, "e")]);
    let outer: WidgetNode<Tb> =
        WidgetNode::Unit { unit: Rc::new("box".to_string()), children: Rc::new(inner) };
    let tree = outer.mount(&mut host, &mut ctx);
    let rendered = tree.render();
    assert_eq!(shown(&rendered), lines(&["box"]));
    assert_eq!(shown(&rendered[0].children), lines(&["a", "b"]));
    assert!(rendered[0].children[0].children.is_empty());
    assert_eq!(shown(&tree.render()), lines(&["box"]));
}

#[test]
fn group_grows_by_mounting_what_is_new() {
    let mut host = Host::new();
    let mut ctx = InternalContext::new();
    let mut tree = group(vec![comp(&host, WFn::Label, "a")]).mount(&mut host, &mut ctx);
    host.take_log();
    let mut g = WidgetNodeGroup::default();
    g.push(comp(&host, WFn::Label, "a2"));
    g.push_named(comp(&host, WFn::Label, "n"), "name".to_string());
    g.push(comp(&host, WFn::Label, "b"));
    tree = tree.diff(&WidgetNode::Group(g), &mut host, &mut ctx);
    assert_eq!(
        host.take_log(),
        lines(&["call:label:a2", "init:label", "call:label:b", "init:label", "call:label:n"])
    );
    assert_eq!(shown(&tree.render()), lines(&["a2", "n", "b"]));
}

#[test]
fn named_child_whose_name_is_gone_is_unmounted() {
    let mut host = Host::new();
    let mut ctx = InternalContext::new();
    let first = named_group(vec![("a", comp(&host, WFn::Label, "a")), ("b", comp(&host, WFn::Counter, "b"))]);
    let mut tree = first.mount(&mut host, &mut ctx);
    host.take_log();
    let second = named_group(vec![("c", comp(&host, WFn::Label, "c")), ("a", comp(&host, WFn::Label, "a2"))]);
    tree = tree.diff(&second, &mut host, &mut ctx);
    assert_eq!(
        host.take_log(),
        lines(&["call:label:a2", "deinit:counter", "init:label", "call:label:c"])
    );
    assert_eq!(shown(&tree.render()), lines(&["c", "a2"]));
    assert_eq!(host.live_cells(), 0);
}

#[test]
fn mismatched_kinds_unmount_before_they_mount() {
    let mut host = Host::new();
    let mut ctx = InternalContext::new();
    let mut tree = comp(&host, WFn::Counter, "").mount(&mut host, &mut ctx);
    host.take_log();
    tree = tree.diff(&group(vec![comp(&host, WFn::Label, "g")]), &mut host, &mut ctx);
    assert_eq!(host.take_log(), lines(&["deinit:counter", "init:label", "call:label:g"]));
    tree = tree.diff(&text("leaf"), &mut host, &mut ctx);
    assert_eq!(host.take_log(), lines(&["deinit:label"]));
    tree = tree.diff(&WidgetNode::Empty, &mut host, &mut ctx);
    assert!(matches!(tree, MountedWidgetNode::Empty));
    tree = tree.diff(&WidgetNode::Empty, &mut host, &mut ctx);
    assert!(matches!(tree, MountedWidgetNode::Empty));
    assert_eq!(host.take_log(), Vec::<String>::new());
    assert!(tree.render().is_empty());
}

#[test]
fn unit_is_updated_in_place() {
    let mut host = Host::new();
    let mut ctx = InternalContext::new();
    let boxed = |label: &str, child: WidgetNode<Tb>| -> WidgetNode<Tb> {
        WidgetNode::Unit { unit: Rc::new(label.to_string()), children: Rc::new(child) }
    };
    let mut tree = boxed("old", comp(&host, WFn::Counter, "")).mount(&mut host, &mut ctx);
    host.take_log();
    *Tb::access_store_mut::<i64>(0, &mut host) = 3;
    tree = tree.diff(&boxed("new", comp(&host, WFn::Counter, "")), &mut host, &mut ctx);
    assert_eq!(host.take_log(), lines(&["call:counter:"]));
    let rendered = tree.render();
    assert_eq!(shown(&rendered), lines(&["new"]));
    assert_eq!(shown(&rendered[0].children), lines(&["3"]));
}

#[test]
fn process_recomputes_only_what_changed() {
    let mut host = Host::new();
    let mut app = Application::new(
        group(vec![comp(&host, WFn::Counter, "x"), comp(&host, WFn::Counter, "y"), comp(&host, WFn::Label, "z")]),
        &mut host,
    );
    host.take_log();
    *Tb::access_store_mut::<i64>(1, &mut host) = 9;
    assert!(app.pass(&mut host) == false);
    assert_eq!(host.take_log(), lines(&["call:counter:y", "mark"]));
    assert_eq!(shown(&app.render()), lines(&["x0", "y9", "z"]));
}

#[test]
fn component_that_registers_an_effect() {
    let mut host = Host::new();
    let mut app = Application::new(comp(&host, WFn::WithEffect, "p"), &mut host);
    assert_eq!(
        host.take_log(),
        lines(&["init:with-effect", "call:with-effect:p", "effect-init", "trace:p", "mark", "mark"])
    );
    assert_eq!(shown(&app.render()), lines(&["p"]));
    assert!(app.update(&mut host));
    assert_eq!(host.take_log(), lines(&["mark"]));
}

#[test]
fn effects_run_after_the_whole_tree_is_reconciled() {
    let mut host = Host::new();
    let mut ctx = InternalContext::new();
    let tree = group(vec![effect(EFn::Trace, "e"), comp(&host, WFn::Label, "l")]).mount(&mut host, &mut ctx);
    assert_eq!(host.take_log(), lines(&["effect-init", "init:label", "call:label:l"]));
    assert_eq!(ctx.execute_at_end.len(), 1);
    let tree = tree.flush(&mut host, &mut ctx);
    assert_eq!(host.take_log(), lines(&["trace:e"]));
    tree.flush(&mut host, &mut ctx);
    assert_eq!(host.take_log(), Vec::<String>::new());
}

#[test]
fn registered_dependency_triggers_one_recompute() {
    let mut host = Host::new();
    let mut app = Application::new(comp(&host, WFn::Follow, "dep "), &mut host);
    assert_eq!(host.take_log(), lines(&["init:follow", "call:follow:dep ", "mark", "mark"]));
    assert_eq!(shown(&app.render()), lines(&["dep 0"]));
    assert!(app.update(&mut host));
    assert_eq!(host.take_log(), lines(&["mark"]));
    host.dep = 4;
    assert!(app.update(&mut host));
    assert_eq!(host.take_log(), lines(&["call:follow:dep ", "mark"]));
    assert_eq!(shown(&app.render()), lines(&["dep 4"]));
    assert!(app.update(&mut host));
    assert_eq!(host.take_log(), lines(&["mark"]));
}

#[test]
fn dependencies_of_the_last_call_replace_the_earlier_ones() {
    let mut host = Host::new();
    let mut ctx = InternalContext::new();
    let mut tree = comp(&host, WFn::Follow, "").mount(&mut host, &mut ctx);
    for n in 1..=3u32 {
        host.dep = n;
        tree = tree.process(&mut host, &mut ctx);
        match &tree {
            MountedWidgetNode::Component(c) => {
                assert_eq!(c.deps, vec![n]);
                assert!(!c.needs_recalc(&host));
            },
            _ => panic!("a component stays a component"),
        }
    }
    host.dep = 9;
    match &tree {
        MountedWidgetNode::Component(c) => assert!(c.needs_recalc(&host)),
        _ => panic!("a component stays a component"),
    }
    assert_eq!(count(&host.take_log(), "call:follow"), 4);
}

#[test]
fn pass_tells_whether_deferred_work_was_done() {
    let mut host = Host::new();
    let mut app = Application::new(effect(EFn::Watch, "w"), &mut host);
    host.take_log();
    assert!(!app.pass(&mut host));
    host.dep = 1;
    assert!(app.pass(&mut host));
    assert_eq!(host.take_log(), lines(&["mark", "mark", "cleanup:w:0", "run:w:1"]));
    assert!(!app.pass(&mut host));
    assert_eq!(host.take_log(), lines(&["mark"]));
}
