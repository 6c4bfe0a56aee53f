//! The mounted tree: the persistent, stateful counterpart of a descriptor
//! tree, and the operations that bring it in line with fresh descriptors.
use crate::backend::UiBackend;
use crate::dispatch::DynEffectFunc;
use crate::dispatch::DynWidgetFunc;
use crate::model::Deferred;
use crate::model::Tree;
use crate::node::name_views;
use crate::node::slot_views;
use crate::node::IntOrString;
use crate::node::WidgetComponent;
use crate::node::WidgetEffectComponent;
use crate::node::WidgetNode;
use crate::node::WidgetNodeGroup;
use std::rc::Rc;
use vstd::prelude::*;

verus! {

/// What a reconciliation pass leaves to be done at its end, in the order in
/// which the traversal came upon it: runs of effects, and the last cleanup
/// actions of effects that were unmounted.
pub struct InternalContext<B: UiBackend> {
    pub execute_at_end: Vec<Deferred<B>>,
}

impl<B: UiBackend> View for InternalContext<B> {
    type V = Seq<Deferred<B>>;

    open spec fn view(&self) -> Seq<Deferred<B>> {
        self.execute_at_end@
    }
}

impl<B: UiBackend> InternalContext<B> {
    /// A context with nothing queued.
    pub fn new() -> (ctx: Self)
        ensures
            ctx@ == Seq::<Deferred<B>>::empty(),
    {
        InternalContext { execute_at_end: Vec::new() }
    }
}

/// A mounted component instance.
#[verifier::reject_recursive_types(B)]
pub struct MountedWidgetComponent<B: UiBackend> {
    pub template: WidgetComponent<B>,
    pub result: Box<MountedWidgetNode<B>>,
    pub init_data: B::State,
    /// The dependencies that the last call registered.
    pub deps: Vec<B::Dep>,
}

/// A mounted effect registration.
#[verifier::reject_recursive_types(B)]
pub struct MountedWidgetEffectComponent<B: UiBackend> {
    pub template: WidgetEffectComponent<B>,
    pub init_data: B::State,
    /// The cleanup action of the last run, until it is run or deferred.
    pub cleanup_fn: Option<B::Cleanup>,
    /// Where a run is due at the end of the pass: the position of that run
    /// in the list of deferred work.
    pub pending: Option<usize>,
}

/// A mounted group. `names[i]` is the name of `named[i]`.
#[verifier::reject_recursive_types(B)]
pub struct MountedWidgetNodeGroup<B: UiBackend> {
    pub render_order: Vec<IntOrString>,
    pub ordered: Vec<MountedWidgetNode<B>>,
    pub names: Vec<String>,
    pub named: Vec<MountedWidgetNode<B>>,
}

/// One node of the mounted tree.
#[verifier::reject_recursive_types(B)]
pub enum MountedWidgetNode<B: UiBackend> {
    Empty,
    Component(MountedWidgetComponent<B>),
    Effect(MountedWidgetEffectComponent<B>),
    Unit { unit: Rc<B::Unit>, children: Box<MountedWidgetNode<B>> },
    Group(MountedWidgetNodeGroup<B>),
}

impl<B: UiBackend> MountedWidgetNode<B> {
    /// The tree as a mathematical value.
    pub open spec fn view(self) -> Tree<B>
        decreases self, 0nat,
    {
        match self {
            MountedWidgetNode::Empty => Tree::Empty,
            MountedWidgetNode::Component(c) => Tree::Component {
                template: c.template,
                result: Box::new(c.result.view()),
                state: c.init_data,
                deps: c.deps@,
            },
            MountedWidgetNode::Effect(e) => e.view(),
            MountedWidgetNode::Unit { unit, children } => Tree::Unit {
                unit: *unit,
                children: Box::new(children.view()),
            },
            MountedWidgetNode::Group(g) => Tree::Group {
                render_order: slot_views(g.render_order@),
                ordered: Self::views(g.ordered@),
                names: name_views(g.names@),
                named: Self::views(g.named@),
            },
        }
    }

    /// The views of a sequence of trees.
    pub open spec fn views(nodes: Seq<MountedWidgetNode<B>>) -> Seq<Tree<B>>
        decreases nodes, 1nat,
    {
        Seq::new(
            nodes.len(),
            |i: int|
                if 0 <= i < nodes.len() {
                    nodes[i].view()
                } else {
                    Tree::Empty
                },
        )
    }
}

impl<B: UiBackend> MountedWidgetComponent<B> {
    /// The instance as a mathematical value.
    pub open spec fn view(self) -> Tree<B> {
        MountedWidgetNode::Component(self).view()
    }
}

impl<B: UiBackend> MountedWidgetEffectComponent<B> {
    /// The registration as a mathematical value.
    pub open spec fn view(self) -> Tree<B> {
        Tree::Effect {
            template: self.template,
            state: self.init_data,
            cleanup: self.cleanup_fn,
            pending: match self.pending {
                Some(ticket) => Some(ticket as nat),
                None => None,
            },
        }
    }
}

impl<B: UiBackend> MountedWidgetNodeGroup<B> {
    /// The group as a mathematical value.
    pub open spec fn view(self) -> Tree<B> {
        MountedWidgetNode::Group(self).view()
    }
}

/// Mounts the descriptors of `nodes` from position `start` on, in order.
pub fn mount_list<B: UiBackend>(
    nodes: &Vec<WidgetNode<B>>,
    start: usize,
    host: &mut B::RunCtx,
    ctx: &mut InternalContext<B>,
) -> (r: Vec<MountedWidgetNode<B>>) where
    B::WidgetFn: DynWidgetFunc<B>,
    B::EffectFn: DynEffectFunc<B>,

    requires
        WidgetNode::<B>::well_founded(),
        start <= nodes@.len(),
    ensures
        ({
            let rest = nodes@.subrange(start as int, nodes@.len() as int);
            let step = Tree::mount_all(rest, rest.len(), *old(host), old(ctx)@);
            &&& MountedWidgetNode::views(r@) == step.trees
            &&& *final(host) == step.host
            &&& final(ctx)@ == step.queue
        }),
    decreases WidgetNode::<B>::rank_all(nodes@, nodes@.len()), nodes@, 0nat,
{
    let ghost host0 = *host;
    let ghost queue0 = ctx@;
    let ghost rest = nodes@.subrange(start as int, nodes@.len() as int);
    let mut out: Vec<MountedWidgetNode<B>> = Vec::new();
    let mut i: usize = start;
    assert(MountedWidgetNode::views(out@) =~= Seq::<Tree<B>>::empty());
    while i < nodes.len()
        invariant
            start <= i <= nodes.len(),
            WidgetNode::<B>::well_founded(),
            rest == nodes@.subrange(start as int, nodes@.len() as int),
            MountedWidgetNode::views(out@) == Tree::mount_all(
                rest,
                (i - start) as nat,
                host0,
                queue0,
            ).trees,
            *host == Tree::mount_all(rest, (i - start) as nat, host0, queue0).host,
            ctx@ == Tree::mount_all(rest, (i - start) as nat, host0, queue0).queue,
        decreases nodes.len() - i,
    {
        proof {
            WidgetNode::<B>::lemma_rank_all(nodes@, nodes@.len(), i as int);
            assert(rest[i - start] == nodes@[i as int]);
        }
        let ghost before = out@;
        let child = nodes[i].mount(host, ctx);
        out.push(child);
        assert(MountedWidgetNode::views(out@) =~= MountedWidgetNode::views(before).push(child@));
        i += 1;
    }
    out
}

/// Unmounts every tree of `nodes`, in order.
pub fn unmount_list<B: UiBackend>(
    nodes: Vec<MountedWidgetNode<B>>,
    host: &mut B::RunCtx,
    ctx: &mut InternalContext<B>,
) where B::WidgetFn: DynWidgetFunc<B>, B::EffectFn: DynEffectFunc<B>
    ensures
        ({
            let trees = MountedWidgetNode::views(nodes@);
            let step = Tree::unmount_all(trees, trees.len(), *old(host), old(ctx)@);
            &&& *final(host) == step.host
            &&& final(ctx)@ == step.queue
        }),
    decreases nodes@, 0nat,
{
    let ghost host0 = *host;
    let ghost queue0 = ctx@;
    let ghost all = nodes@;
    let ghost trees = MountedWidgetNode::views(nodes@);
    for child in it: nodes
        invariant
            it.seq() == all,
            trees == MountedWidgetNode::views(all),
            *host == Tree::unmount_all(trees, it.index() as nat, host0, queue0).host,
            ctx@ == Tree::unmount_all(trees, it.index() as nat, host0, queue0).queue,
    {
        child.unmount(host, ctx);
    }
}

impl<B: UiBackend> WidgetNode<B> where B::WidgetFn: DynWidgetFunc<B>, B::EffectFn: DynEffectFunc<B> {
    /// Mounts the descriptor.
    pub fn mount(&self, host: &mut B::RunCtx, ctx: &mut InternalContext<B>) -> (r:
        MountedWidgetNode<B>)
        requires
            Self::well_founded(),
        ensures
            ({
                let step = Tree::mount(*self, *old(host), old(ctx)@);
                &&& r@ == step.tree
                &&& *final(host) == step.host
                &&& final(ctx)@ == step.queue
            }),
        decreases self.rank(), self, 2nat,
    {
        match self {
            WidgetNode::Empty => MountedWidgetNode::Empty,
            WidgetNode::Component(c) => MountedWidgetNode::Component(c.mount(host, ctx)),
            WidgetNode::Effect(e) => MountedWidgetNode::Effect(e.mount(host, ctx)),
            WidgetNode::Unit { unit, children } => {
                let mounted = children.mount(host, ctx);
                MountedWidgetNode::Unit { unit: unit.clone(), children: Box::new(mounted) }
            },
            WidgetNode::Group(group) => MountedWidgetNode::Group(group.mount(host, ctx)),
        }
    }
}

impl<B: UiBackend> WidgetComponent<B> where
    B::WidgetFn: DynWidgetFunc<B>,
    B::EffectFn: DynEffectFunc<B>,
 {
    /// Mounts a component: allocates its hook state, calls its function and
    /// mounts what the function produced.
    pub fn mount(&self, host: &mut B::RunCtx, ctx: &mut InternalContext<B>) -> (r:
        MountedWidgetComponent<B>)
        requires
            WidgetNode::<B>::well_founded(),
        ensures
            ({
                let step = Tree::mount(WidgetNode::Component(*self), *old(host), old(ctx)@);
                &&& r@ == step.tree
                &&& *final(host) == step.host
                &&& final(ctx)@ == step.queue
            }),
        decreases self.func.rank(*self.props) + 1, self, 1nat,
    {
        let mut init_data = self.func.init(host);
        let mut deps: Vec<B::Dep> = Vec::new();
        let produced = self.func.call(host, &self.props, &mut init_data, &mut deps);
        let result = produced.mount(host, ctx);
        MountedWidgetComponent { template: self.clone(), result: Box::new(result), init_data, deps }
    }
}

impl<B: UiBackend> WidgetEffectComponent<B> where
    B::WidgetFn: DynWidgetFunc<B>,
    B::EffectFn: DynEffectFunc<B>,
 {
    /// Mounts an effect: allocates its hook state and defers its first run
    /// to the end of the pass.
    pub fn mount(&self, host: &mut B::RunCtx, ctx: &mut InternalContext<B>) -> (r:
        MountedWidgetEffectComponent<B>)
        requires
            WidgetNode::<B>::well_founded(),
        ensures
            ({
                let step = Tree::mount(WidgetNode::Effect(*self), *old(host), old(ctx)@);
                &&& r@ == step.tree
                &&& *final(host) == step.host
                &&& final(ctx)@ == step.queue
            }),
    {
        let init_data = self.func.init(host);
        let ticket = ctx.execute_at_end.len();
        ctx.execute_at_end.push(Deferred::Run);
        MountedWidgetEffectComponent {
            template: self.clone(),
            init_data,
            cleanup_fn: None,
            pending: Some(ticket),
        }
    }
}

impl<B: UiBackend> WidgetNodeGroup<B> where
    B::WidgetFn: DynWidgetFunc<B>,
    B::EffectFn: DynEffectFunc<B>,
 {
    /// Mounts a group: the named children in the order of their names, then
    /// the positional ones.
    pub fn mount(&self, host: &mut B::RunCtx, ctx: &mut InternalContext<B>) -> (r:
        MountedWidgetNodeGroup<B>)
        requires
            WidgetNode::<B>::well_founded(),
        ensures
            ({
                let step = Tree::mount(WidgetNode::Group(*self), *old(host), old(ctx)@);
                &&& r@ == step.tree
                &&& *final(host) == step.host
                &&& final(ctx)@ == step.queue
            }),
        decreases WidgetNode::Group(*self).rank(), self, 1nat,
    {
        assert(self.named@.subrange(0, self.named@.len() as int) =~= self.named@);
        assert(self.ordered@.subrange(0, self.ordered@.len() as int) =~= self.ordered@);
        let named = mount_list(&self.named, 0, host, ctx);
        let ordered = mount_list(&self.ordered, 0, host, ctx);
        MountedWidgetNodeGroup {
            render_order: self.render_order.clone(),
            ordered,
            names: self.names.clone(),
            named,
        }
    }
}

impl<B: UiBackend> MountedWidgetNode<B> where
    B::WidgetFn: DynWidgetFunc<B>,
    B::EffectFn: DynEffectFunc<B>,
 {
    /// Unmounts the tree.
    pub fn unmount(self, host: &mut B::RunCtx, ctx: &mut InternalContext<B>)
        ensures
            ({
                let step = self@.unmount(*old(host), old(ctx)@);
                &&& *final(host) == step.host
                &&& final(ctx)@ == step.queue
            }),
        decreases self, 2nat,
    {
        match self {
            MountedWidgetNode::Empty => {},
            MountedWidgetNode::Component(c) => c.unmount(host, ctx),
            MountedWidgetNode::Effect(e) => e.unmount(ctx),
            MountedWidgetNode::Unit { unit, children } => (*children).unmount(host, ctx),
            MountedWidgetNode::Group(group) => group.unmount(host, ctx),
        }
    }
}

impl<B: UiBackend> MountedWidgetComponent<B> where
    B::WidgetFn: DynWidgetFunc<B>,
    B::EffectFn: DynEffectFunc<B>,
 {
    /// Unmounts the instance: its result first, then its hook state.
    pub fn unmount(self, host: &mut B::RunCtx, ctx: &mut InternalContext<B>)
        ensures
            ({
                let step = self@.unmount(*old(host), old(ctx)@);
                &&& *final(host) == step.host
                &&& final(ctx)@ == step.queue
            }),
        decreases self, 1nat,
    {
        let MountedWidgetComponent { template, result, init_data, deps } = self;
        (*result).unmount(host, ctx);
        template.func.deinit(host, init_data);
    }
}

impl<B: UiBackend> MountedWidgetEffectComponent<B> where
    B::WidgetFn: DynWidgetFunc<B>,
    B::EffectFn: DynEffectFunc<B>,
 {
    /// Unmounts the registration: its cleanup action, if it has run, joins
    /// the deferred work.
    pub fn unmount(self, ctx: &mut InternalContext<B>)
        ensures
            final(ctx)@ == match self.cleanup_fn {
                Some(action) => old(ctx)@.push(Deferred::Cleanup(action)),
                None => old(ctx)@,
            },
    {
        match self.cleanup_fn {
            Some(action) => {
                ctx.execute_at_end.push(Deferred::Cleanup(action));
            },
            None => {},
        }
    }
}

impl<B: UiBackend> MountedWidgetNodeGroup<B> where
    B::WidgetFn: DynWidgetFunc<B>,
    B::EffectFn: DynEffectFunc<B>,
 {
    /// Unmounts the group: the named children, then the positional ones.
    pub fn unmount(self, host: &mut B::RunCtx, ctx: &mut InternalContext<B>)
        ensures
            ({
                let step = self@.unmount(*old(host), old(ctx)@);
                &&& *final(host) == step.host
                &&& final(ctx)@ == step.queue
            }),
        decreases self, 1nat,
    {
        let MountedWidgetNodeGroup { render_order, ordered, names, named } = self;
        unmount_list(named, host, ctx);
        unmount_list(ordered, host, ctx);
    }
}

} // verus!
