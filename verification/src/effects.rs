//! The deferred work of a pass: effect runs and cleanup actions.
//!
//! Nothing here runs while the tree is being reconciled. A pass lists the
//! runs of the effects that are due and the cleanup actions of the effects
//! it unmounts, in the order in which the traversal comes upon them; when the
//! traversal is over, the list is run front to back.
use crate::backend::UiBackend;
use crate::dispatch::DynEffectFunc;
use crate::dispatch::DynWidgetFunc;
use crate::model::Deferred;
use crate::model::Tree;
use crate::mounted::InternalContext;
use crate::mounted::MountedWidgetComponent;
use crate::mounted::MountedWidgetEffectComponent;
use crate::mounted::MountedWidgetNode;
use crate::mounted::MountedWidgetNodeGroup;
use vstd::prelude::*;

verus! {

/// Runs the effects that hold `ticket` in every tree of `nodes`, in order.
pub fn run_due_list<B: UiBackend>(
    nodes: Vec<MountedWidgetNode<B>>,
    ticket: usize,
    host: &mut B::RunCtx,
) -> (r: Vec<MountedWidgetNode<B>>) where B::WidgetFn: DynWidgetFunc<B>, B::EffectFn: DynEffectFunc<B>
    ensures
        ({
            let trees = MountedWidgetNode::views(nodes@);
            let step = Tree::run_due_all(trees, trees.len(), ticket as nat, *old(host));
            &&& MountedWidgetNode::views(r@) == step.trees
            &&& *final(host) == step.host
        }),
    decreases nodes@, 0nat,
{
    let ghost host0 = *host;
    let ghost all = nodes@;
    let ghost trees = MountedWidgetNode::views(nodes@);
    let mut out: Vec<MountedWidgetNode<B>> = Vec::new();
    assert(MountedWidgetNode::views(out@) =~= Seq::<Tree<B>>::empty());
    for child in it: nodes
        invariant
            it.seq() == all,
            trees == MountedWidgetNode::views(all),
            MountedWidgetNode::views(out@) == Tree::run_due_all(
                trees,
                it.index() as nat,
                ticket as nat,
                host0,
            ).trees,
            *host == Tree::run_due_all(trees, it.index() as nat, ticket as nat, host0).host,
    {
        let ghost before = out@;
        let done = child.run_due(ticket, host);
        out.push(done);
        assert(MountedWidgetNode::views(out@) =~= MountedWidgetNode::views(before).push(done@));
    }
    out
}

impl<B: UiBackend> MountedWidgetEffectComponent<B> where
    B::WidgetFn: DynWidgetFunc<B>,
    B::EffectFn: DynEffectFunc<B>,
 {
    /// Runs the effect if it holds `ticket`: the cleanup action of its
    /// previous run first, then the effect itself, whose cleanup action is
    /// kept for the next time.
    pub fn run(self, ticket: usize, host: &mut B::RunCtx) -> (r: Self)
        ensures
            ({
                let step = self@.run_due(ticket as nat, *old(host));
                &&& r@ == step.tree
                &&& *final(host) == step.host
            }),
    {
        let due = match self.pending {
            Some(held) => held == ticket,
            None => false,
        };
        if due {
            let MountedWidgetEffectComponent { template, init_data, cleanup_fn, pending } = self;
            match cleanup_fn {
                Some(action) => {
                    B::run_cleanup(host, action);
                },
                None => {},
            }
            let mut init_data = init_data;
            let action = template.func.call(host, &template.props, &mut init_data);
            MountedWidgetEffectComponent {
                template,
                init_data,
                cleanup_fn: Some(action),
                pending: None,
            }
        } else {
            self
        }
    }
}

impl<B: UiBackend> MountedWidgetNode<B> where
    B::WidgetFn: DynWidgetFunc<B>,
    B::EffectFn: DynEffectFunc<B>,
 {
    /// Runs the effects that hold `ticket`, in tree order.
    pub fn run_due(self, ticket: usize, host: &mut B::RunCtx) -> (r: Self)
        ensures
            ({
                let step = self@.run_due(ticket as nat, *old(host));
                &&& r@ == step.tree
                &&& *final(host) == step.host
            }),
        decreases self, 1nat,
    {
        match self {
            MountedWidgetNode::Empty => MountedWidgetNode::Empty,
            MountedWidgetNode::Component(c) => {
                let MountedWidgetComponent { template, result, init_data, deps } = c;
                let inner = (*result).run_due(ticket, host);
                MountedWidgetNode::Component(
                    MountedWidgetComponent { template, result: Box::new(inner), init_data, deps },
                )
            },
            MountedWidgetNode::Effect(e) => MountedWidgetNode::Effect(e.run(ticket, host)),
            MountedWidgetNode::Unit { unit, children } => {
                let inner = (*children).run_due(ticket, host);
                MountedWidgetNode::Unit { unit, children: Box::new(inner) }
            },
            MountedWidgetNode::Group(group) => {
                let MountedWidgetNodeGroup { render_order, ordered, names, named } = group;
                let named = run_due_list(named, ticket, host);
                let ordered = run_due_list(ordered, ticket, host);
                MountedWidgetNode::Group(
                    MountedWidgetNodeGroup { render_order, ordered, names, named },
                )
            },
        }
    }

    /// Does the deferred work of a pass in the order of the list, and leaves
    /// the list empty.
    pub fn flush(self, host: &mut B::RunCtx, ctx: &mut InternalContext<B>) -> (r: Self)
        ensures
            ({
                let step = self@.flush(*old(host), old(ctx)@);
                &&& r@ == step.tree
                &&& *final(host) == step.host
                &&& final(ctx)@ == step.queue
            }),
    {
        let ghost host0 = *host;
        let ghost queue = ctx@;
        let ghost start = self@;
        let mut entries: Vec<Deferred<B>> = Vec::new();
        std::mem::swap(&mut entries, &mut ctx.execute_at_end);
        let mut tree = self;
        let mut i: usize = 0;
        assert(queue.len() == entries.len());
        for entry in it: entries
            invariant
                it.seq() == queue,
                i == it.index(),
                queue.len() <= usize::MAX,
                ctx@.len() == 0,
                tree@ == start.flush_upto(host0, queue, i as nat).tree,
                *host == start.flush_upto(host0, queue, i as nat).host,
        {
            match entry {
                Deferred::Cleanup(action) => {
                    B::run_cleanup(host, action);
                },
                Deferred::Run => {
                    tree = tree.run_due(i, host);
                },
            }
            i += 1;
        }
        assert(ctx@ =~= Seq::<Deferred<B>>::empty());
        tree
    }
}

} // verus!
