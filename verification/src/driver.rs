//! The application driver: owns the root of the mounted tree and runs
//! reconciliation passes until the tree is at rest.
use crate::backend::UiBackend;
use crate::dispatch::DynEffectFunc;
use crate::dispatch::DynWidgetFunc;
use crate::model::Tree;
use crate::mounted::InternalContext;
use crate::mounted::MountedWidgetNode;
use crate::node::WidgetNode;
use crate::render::RenderNode;
use vstd::prelude::*;

verus! {

/// The number of passes after which [`Application::update`] stops although
/// work is left. No run reaches it: it stands for "no limit".
pub const PASS_LIMIT: u64 = 0xffff_ffff_ffff_ffff;

/// A mounted user interface.
#[verifier::reject_recursive_types(B)]
pub struct Application<B: UiBackend> {
    root: MountedWidgetNode<B>,
}

impl<B: UiBackend> Application<B> where B::WidgetFn: DynWidgetFunc<B>, B::EffectFn: DynEffectFunc<B> {
    /// The mounted tree as a mathematical value.
    pub closed spec fn view(&self) -> Tree<B> {
        self.root@
    }

    /// Mounts `root`, runs the first runs of its effects, tells the backend,
    /// and updates until the tree is at rest.
    pub fn new(root: WidgetNode<B>, ctx: &mut B::RunCtx) -> (this: Self)
        requires
            WidgetNode::<B>::well_founded(),
        ensures
            ({
                let step = Tree::start(root, *old(ctx), PASS_LIMIT as nat);
                &&& this@ == step.tree
                &&& *final(ctx) == step.host
            }),
    {
        let mut queue = InternalContext::new();
        let mounted = root.mount(ctx, &mut queue);
        let tree = mounted.flush(ctx, &mut queue);
        B::mark_update(ctx);
        let mut this = Application { root: tree };
        this.update(ctx);
        this
    }

    /// One pass: the traversal of the tree, the notice to the backend, and
    /// the deferred work. Tells whether the traversal deferred any work.
    pub fn pass(&mut self, ctx: &mut B::RunCtx) -> (unsettled: bool)
        requires
            WidgetNode::<B>::well_founded(),
        ensures
            ({
                let step = old(self)@.pass(*old(ctx));
                &&& final(self)@ == step.tree
                &&& *final(ctx) == step.host
                &&& unsettled == old(self)@.unsettled(*old(ctx))
            }),
    {
        let mut root = MountedWidgetNode::Empty;
        std::mem::swap(&mut root, &mut self.root);
        let mut queue = InternalContext::new();
        let walked = root.process(ctx, &mut queue);
        B::mark_update(ctx);
        let unsettled = queue.execute_at_end.len() > 0;
        let tree = walked.flush(ctx, &mut queue);
        self.root = tree;
        unsettled
    }

    /// Passes until one defers no work. Tells whether the
    /// tree came to rest; it did unless [`PASS_LIMIT`] passes were not
    /// enough.
    pub fn update(&mut self, ctx: &mut B::RunCtx) -> (settled: bool)
        requires
            WidgetNode::<B>::well_founded(),
        ensures
            ({
                let step = old(self)@.settle(*old(ctx), PASS_LIMIT as nat);
                &&& final(self)@ == step.tree
                &&& *final(ctx) == step.host
                &&& settled == old(self)@.settles_within(*old(ctx), PASS_LIMIT as nat)
            }),
    {
        let ghost tree0 = self@;
        let ghost host0 = *ctx;
        let mut passes: u64 = 0;
        let mut settled = false;
        while passes < PASS_LIMIT && !settled
            invariant
                WidgetNode::<B>::well_founded(),
                passes <= PASS_LIMIT,
                tree0.settles_within(host0, PASS_LIMIT as nat) == (settled || self@.settles_within(
                    *ctx,
                    (PASS_LIMIT - passes) as nat,
                )),
                tree0.settle(host0, PASS_LIMIT as nat).tree == if settled {
                    self@
                } else {
                    self@.settle(*ctx, (PASS_LIMIT - passes) as nat).tree
                },
                tree0.settle(host0, PASS_LIMIT as nat).host == if settled {
                    *ctx
                } else {
                    self@.settle(*ctx, (PASS_LIMIT - passes) as nat).host
                },
            decreases PASS_LIMIT - passes,
        {
            let unsettled = self.pass(ctx);
            passes = passes + 1;
            settled = !unsettled;
        }
        settled
    }

    /// The visible units of the mounted tree, in order.
    pub fn render(&self) -> (r: Vec<RenderNode<'_, B>>)
        ensures
            RenderNode::views(r@) == self@.render(),
    {
        self.root.render()
    }
}

} // verus!
