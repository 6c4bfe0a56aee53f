use std::any::Any;
use std::rc::Rc;
use ui3_core::DynEffectFunc;
use ui3_core::DynWidgetFunc;
use ui3_core::EffectFunc;
use ui3_core::IntOrString;
use ui3_core::InternalContext;
use ui3_core::Store;
use ui3_core::StoreId;
use ui3_core::UiBackend;
use ui3_core::WidgetFunc;
use ui3_core::WidgetNode;
use ui3_core::WidgetNodeGroup;
use ui3_core::WidgetParam;

struct Db;

struct Slot {
    value: Box<dyn Any>,
    changed: u32,
}

struct World {
    slots: Vec<Option<Slot>>,
    tick: u32,
    calls: u32,
}

impl World {
    fn new() -> World {
        World { slots: Vec::new(), tick: 1, calls: 0 }
    }
}

struct Paint;

struct Hook;

impl UiBackend for Db {
    type Unit = String;
    type RunCtx = World;
    type Props = (u32, String);
    type State = ();
    type Cleanup = ();
    type Dep = ();
    type WidgetFn = Paint;
    type EffectFn = Hook;
    type StoreId = usize;
    type StoreInitData = (usize, u32);

    fn mark_update(ctx: &mut World) {
        ctx.tick += 1;
    }

    fn run_cleanup(_ctx: &mut World, _cleanup: ()) {}

    fn dep_changed(_ctx: &World, _dep: &()) -> bool {
        false
    }

    fn store_exists<T: Send + Sync + 'static>(id: usize, ctx: &World) -> bool {
        match ctx.slots.get(id) {
            Some(Some(slot)) => slot.value.is::<T>(),
            _ => false,
        }
    }

    fn access_store_mut<'a, T: Send + Sync + 'static>(id: usize, ctx: &'a mut World) -> &'a mut T {
        let tick = ctx.tick;
        let slot = ctx.slots[id].as_mut().unwrap();
        slot.changed = tick;
        slot.value.downcast_mut().unwrap()
    }

    fn access_store<'a, T: Send + Sync + 'static>(id: usize, ctx: &'a World) -> &'a T {
        ctx.slots[id].as_ref().unwrap().value.downcast_ref().unwrap()
    }

    fn read_store_marked<'a, T: Send + Sync + 'static>(
        id: usize,
        ctx: &'a World,
        init_data: &mut (usize, u32),
    ) -> &'a T {
        init_data.1 = ctx.tick;
        Self::access_store(id, ctx)
    }

    fn init_store<T: Send + Sync + 'static>(ctx: &mut World, val: T) -> (usize, u32) {
        let tick = ctx.tick;
        ctx.slots.push(Some(Slot { value: Box::new(val), changed: tick }));
        (ctx.slots.len() - 1, 0)
    }

    fn deinit_store(data: (usize, u32), ctx: &mut World) {
        ctx.slots[data.0] = None;
    }

    fn id_from_store_init_data(data: &(usize, u32)) -> usize {
        data.0
    }

    fn check_store_needs_recalc<T: Send + Sync + 'static>(ctx: &World, init_data: &(usize, u32)) -> bool {
        ctx.slots[init_data.0].as_ref().unwrap().changed > init_data.1
    }
}

impl DynWidgetFunc<Db> for Paint {
    fn call(
        &self,
        _ctx: &World,
        props: &(u32, String),
        _init_data: &mut (),
        _deps: &mut Vec<()>,
    ) -> WidgetNode<Db> {
        WidgetNode::Unit {
            unit: Rc::new(format!("{}:{}", props.0, props.1)),
            children: Rc::new(WidgetNode::Empty),
        }
    }

    fn needs_recalc(&self, _ctx: &World, _init_data: &()) -> bool {
        false
    }

    fn init(&self, _ctx: &mut World) {}

    fn deinit(&self, _ctx: &mut World, _init_data: ()) {}

    fn fn_type_id(&self) -> u64 {
        11
    }
}

impl DynEffectFunc<Db> for Hook {
    fn call(&self, ctx: &mut World, _props: &(u32, String), _init_data: &mut ()) {
        ctx.calls += 1;
    }

    fn needs_recalc(&self, _ctx: &World, _init_data: &()) -> bool {
        false
    }

    fn init(&self, _ctx: &mut World) {}

    fn fn_type_id(&self) -> u64 {
        12
    }
}

struct Painter;

impl WidgetFunc<u32, Db> for Painter {
    fn as_dynamic(&self) -> Rc<Paint> {
        Rc::new(Paint)
    }

    fn erase(&self, props: u32) -> (u32, String) {
        (props, "painted".to_string())
    }
}

struct Hooker;

impl EffectFunc<String, Db> for Hooker {
    fn as_dynamic(&self) -> Rc<Hook> {
        Rc::new(Hook)
    }

    fn erase(&self, props: String) -> (u32, String) {
        (0, props)
    }
}

fn leaf(s: &str) -> WidgetNode<Db> {
    WidgetNode::Unit { unit: Rc::new(s.to_string()), children: Rc::new(WidgetNode::Empty) }
}

fn order(g: &WidgetNodeGroup<Db>) -> Vec<String> {
    g.render_order
        .iter()
        .map(|slot| match slot {
            IntOrString::Int(i) => format!("#{}", i),
            IntOrString::String(s) => s.clone(),
        })
        .collect()
}

#[test]
fn default_group_is_empty() {
    let g: WidgetNodeGroup<Db> = WidgetNodeGroup::default();
    assert!(g.render_order.is_empty());
    assert!(g.ordered.is_empty());
    assert!(g.names.is_empty());
    assert!(g.named.is_empty());
}

#[test]
fn single_holds_one_positional_child() {
    let g = WidgetNodeGroup::single(leaf("only"));
    assert_eq!(g.ordered.len(), 1);
    assert_eq!(g.named.len(), 0);
    assert_eq!(order(&g), vec!["#0".to_string()]);
    assert!(matches!(&g.ordered[0], WidgetNode::Unit { unit, .. } if **unit == "only"));
}

#[test]
fn push_and_push_named_record_the_render_order() {
    let mut g: WidgetNodeGroup<Db> = WidgetNodeGroup::default();
    g.push(leaf("a"));
    g.push_named(leaf("b"), "left".to_string());
    g.push(leaf("c"));
    g.push_named(leaf("d"), "right".to_string());
    assert_eq!(
        order(&g),
        vec!["#0".to_string(), "left".to_string(), "#1".to_string(), "right".to_string()]
    );
    assert_eq!(g.ordered.len(), 2);
    assert_eq!(g.names, vec!["left".to_string(), "right".to_string()]);
    assert_eq!(g.named.len(), 2);
    assert!(g.has_name(&"left".to_string()));
    assert!(g.has_name(&"right".to_string()));
    assert!(!g.has_name(&"middle".to_string()));
    assert!(!g.has_name(&"".to_string()));
}

#[test]
fn int_or_string_clone_is_equal() {
    let a = IntOrString::Int(7);
    let b = IntOrString::String("seven".to_string());
    assert!(matches!(a.clone(), IntOrString::Int(7)));
    assert!(matches!(b.clone(), IntOrString::String(s) if s == "seven"));
}

#[test]
fn descriptor_clone_describes_the_same_tree() {
    let mut g: WidgetNodeGroup<Db> = WidgetNodeGroup::default();
    g.push(leaf("a"));
    g.push_named(Painter.w(3), "p".to_string());
    g.push(Hooker.e("h".to_string()));
    let node = WidgetNode::Group(g);
    let copy = node.clone();
    let mut world = World::new();
    let mut ctx = InternalContext::new();
    let first = node.mount(&mut world, &mut ctx);
    let second = copy.mount(&mut world, &mut ctx);
    let show = |nodes: Vec<ui3_core::RenderNode<'_, Db>>| -> Vec<String> {
        nodes.iter().map(|n| n.unit.clone()).collect()
    };
    assert_eq!(show(first.render()), vec!["a".to_string(), "3:painted".to_string()]);
    assert_eq!(show(second.render()), vec!["a".to_string(), "3:painted".to_string()]);
    match (&node, &copy) {
        (WidgetNode::Group(a), WidgetNode::Group(b)) => {
            assert_eq!(order(a), order(b));
            assert_eq!(a.names, b.names);
            assert_eq!(a.ordered.len(), b.ordered.len());
            assert_eq!(a.named.len(), b.named.len());
        },
        _ => panic!("a group is copied as a group"),
    }
}

#[test]
fn typed_widget_function_describes_a_component() {
    let node = Painter.w(5);
    match &node {
        WidgetNode::Component(c) => {
            assert_eq!(*c.props, (5, "painted".to_string()));
            assert_eq!(c.func.fn_type_id(), 11);
        },
        _ => panic!("a widget function describes a component"),
    }
    let copy = match &node {
        WidgetNode::Component(c) => c.clone(),
        _ => panic!("a widget function describes a component"),
    };
    assert!(Rc::ptr_eq(&copy.props, match &node {
        WidgetNode::Component(c) => &c.props,
        _ => panic!("a widget function describes a component"),
    }));
}

#[test]
fn typed_effect_function_describes_an_effect() {
    let node = Hooker.e("deps".to_string());
    match &node {
        WidgetNode::Effect(c) => {
            assert_eq!(*c.props, (0, "deps".to_string()));
            assert_eq!(c.func.fn_type_id(), 12);
            let copy = c.clone();
            assert!(Rc::ptr_eq(&copy.func, &c.func));
        },
        _ => panic!("an effect function describes an effect"),
    }
}

#[test]
fn store_parameter_follows_its_cell() {
    let mut world = World::new();
    let mut data = <Store<'static, i64, Db> as WidgetParam<Db>>::init(&mut world);
    assert_eq!(data, (0, 0));
    assert!(<Store<'static, i64, Db> as WidgetParam<Db>>::needs_recalc(&world, &data));
    let id: StoreId<i64, Db> = {
        let item = <Store<'static, i64, Db> as WidgetParam<Db>>::get_item(&world, &mut data);
        assert_eq!(*item.value(), 0);
        item.id()
    };
    assert_eq!(id.id, 0);
    assert_eq!(data, (0, 1));
    assert!(!<Store<'static, i64, Db> as WidgetParam<Db>>::needs_recalc(&world, &data));
    Db::mark_update(&mut world);
    assert!(!<Store<'static, i64, Db> as WidgetParam<Db>>::needs_recalc(&world, &data));
    let copy = id;
    *copy.access_mut(&mut world) += 41;
    *id.clone().access_mut(&mut world) += 1;
    assert!(<Store<'static, i64, Db> as WidgetParam<Db>>::needs_recalc(&world, &data));
    {
        let item = <Store<'static, i64, Db> as WidgetParam<Db>>::get_item(&world, &mut data);
        assert_eq!(*item.value(), 42);
    }
    assert_eq!(data, (0, 2));
    assert!(!<Store<'static, i64, Db> as WidgetParam<Db>>::needs_recalc(&world, &data));
    assert!(Db::store_exists::<i64>(0, &world));
    assert!(!Db::store_exists::<String>(0, &world));
    match id.try_access_mut(&mut world) {
        Some(value) => *value = 7,
        None => panic!("the store is there"),
    }
    assert_eq!(*Db::access_store::<i64>(0, &world), 7);
    <Store<'static, i64, Db> as WidgetParam<Db>>::deinit(&mut world, data);
    assert!(world.slots[0].is_none());
    assert!(!Db::store_exists::<i64>(0, &world));
    let tick = world.tick;
    assert!(id.try_access_mut(&mut world).is_none());
    assert_eq!(world.tick, tick);
}

#[test]
fn two_parameters_recalc_when_either_changed() {
    type Both = (Store<'static, i64, Db>, Store<'static, String, Db>);
    let mut world = World::new();
    let mut data = <Both as WidgetParam<Db>>::init(&mut world);
    assert_eq!(data, ((0, 0), (1, 0)));
    {
        let (number, words) = <Both as WidgetParam<Db>>::get_item(&world, &mut data);
        assert_eq!(*number.value(), 0);
        assert_eq!(*words.value(), "");
    }
    assert!(!<Both as WidgetParam<Db>>::needs_recalc(&world, &data));
    Db::mark_update(&mut world);
    Db::access_store_mut::<String>(1, &mut world).push('x');
    assert!(<Both as WidgetParam<Db>>::needs_recalc(&world, &data));
    {
        let (_, words) = <Both as WidgetParam<Db>>::get_item(&world, &mut data);
        assert_eq!(*words.value(), "x");
    }
    assert!(!<Both as WidgetParam<Db>>::needs_recalc(&world, &data));
    Db::mark_update(&mut world);
    *Db::access_store_mut::<i64>(0, &mut world) = 4;
    assert!(<Both as WidgetParam<Db>>::needs_recalc(&world, &data));
    <Both as WidgetParam<Db>>::deinit(&mut world, data);
    assert!(world.slots.iter().all(|s| s.is_none()));
}

#[test]
fn no_parameter_never_changes() {
    let mut world = World::new();
    let mut data = <() as WidgetParam<Db>>::init(&mut world);
    <() as WidgetParam<Db>>::get_item(&world, &mut data);
    assert!(!<() as WidgetParam<Db>>::needs_recalc(&world, &data));
    <() as WidgetParam<Db>>::deinit(&mut world, data);
    assert!(world.slots.is_empty());
    assert_eq!(world.tick, 1);
}
