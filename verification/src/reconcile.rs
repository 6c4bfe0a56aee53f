//! Reconciliation: bringing the mounted tree in line with fresh descriptors.
use crate::backend::UiBackend;
use crate::dispatch::DynEffectFunc;
use crate::dispatch::DynWidgetFunc;
use crate::model::counterpart;
use crate::model::is_missing;
use crate::model::kept_names;
use crate::model::missing_names_upto;
use crate::model::named_child;
use crate::model::Deferred;
use crate::model::Tree;
use crate::mounted::mount_list;
use crate::mounted::unmount_list;
use crate::mounted::InternalContext;
use crate::mounted::MountedWidgetComponent;
use crate::mounted::MountedWidgetEffectComponent;
use crate::mounted::MountedWidgetNode;
use crate::mounted::MountedWidgetNodeGroup;
use crate::node::find_name;
use crate::node::name_views;
use crate::node::WidgetComponent;
use crate::node::WidgetEffectComponent;
use crate::node::WidgetNode;
use crate::node::WidgetNodeGroup;
use vstd::prelude::*;

verus! {

/// The position of the child that `key` names among the first `count`
/// children, if any.
pub fn find_child(names: &Vec<String>, count: usize, key: &String) -> (r: Option<usize>)
    ensures
        match r {
            Some(k) => named_child(name_views(names@), count as nat, key@) == Some(k as int),
            None => named_child(name_views(names@), count as nat, key@).is_none(),
        },
{
    match find_name(names, key) {
        Some(k) => if k < count {
            Some(k)
        } else {
            None
        },
        None => None,
    }
}

/// Compares each tree of `olds` with the descriptor at its position in `news`.
pub fn diff_list<B: UiBackend>(
    olds: Vec<MountedWidgetNode<B>>,
    news: &Vec<WidgetNode<B>>,
    host: &mut B::RunCtx,
    ctx: &mut InternalContext<B>,
) -> (r: Vec<MountedWidgetNode<B>>) where
    B::WidgetFn: DynWidgetFunc<B>,
    B::EffectFn: DynEffectFunc<B>,

    requires
        WidgetNode::<B>::well_founded(),
        olds@.len() <= news@.len(),
    ensures
        ({
            let trees = MountedWidgetNode::views(olds@);
            let step = Tree::diff_all(trees, news@, trees.len(), *old(host), old(ctx)@);
            &&& MountedWidgetNode::views(r@) == step.trees
            &&& *final(host) == step.host
            &&& final(ctx)@ == step.queue
        }),
    decreases WidgetNode::<B>::rank_all(news@, news@.len()), 1nat, news@, 0nat,
{
    let ghost host0 = *host;
    let ghost queue0 = ctx@;
    let ghost all = olds@;
    let ghost trees = MountedWidgetNode::views(olds@);
    let mut out: Vec<MountedWidgetNode<B>> = Vec::new();
    let mut i: usize = 0;
    assert(MountedWidgetNode::views(out@) =~= Seq::<Tree<B>>::empty());
    assert(news@.len() == news.len());
    for child in it: olds
        invariant
            it.seq() == all,
            i == it.index(),
            all.len() <= news@.len(),
            news@.len() <= usize::MAX,
            trees == MountedWidgetNode::views(all),
            WidgetNode::<B>::well_founded(),
            MountedWidgetNode::views(out@) == Tree::diff_all(
                trees,
                news@,
                i as nat,
                host0,
                queue0,
            ).trees,
            *host == Tree::diff_all(trees, news@, i as nat, host0, queue0).host,
            ctx@ == Tree::diff_all(trees, news@, i as nat, host0, queue0).queue,
    {
        proof {
            WidgetNode::<B>::lemma_rank_all(news@, news@.len(), i as int);
        }
        let ghost before = out@;
        let patched = child.diff(&news[i], host, ctx);
        out.push(patched);
        assert(MountedWidgetNode::views(out@) =~= MountedWidgetNode::views(before).push(
            patched@,
        ));
        i += 1;
    }
    out
}

/// Goes through the named children in mounted order: a child whose name the
/// new group has is compared with the descriptor of that name and stays; any
/// other is unmounted and leaves. Hands back the names and the children that
/// stay.
pub fn diff_named_list<B: UiBackend>(
    names: &Vec<String>,
    named: Vec<MountedWidgetNode<B>>,
    new: &WidgetNodeGroup<B>,
    host: &mut B::RunCtx,
    ctx: &mut InternalContext<B>,
) -> (r: (Vec<String>, Vec<MountedWidgetNode<B>>)) where
    B::WidgetFn: DynWidgetFunc<B>,
    B::EffectFn: DynEffectFunc<B>,

    requires
        WidgetNode::<B>::well_founded(),
    ensures
        ({
            let trees = MountedWidgetNode::views(named@);
            let step = Tree::diff_named(
                name_views(names@),
                trees,
                name_views(new.names@),
                new.named@,
                trees.len(),
                *old(host),
                old(ctx)@,
            );
            &&& MountedWidgetNode::views(r.1@) == step.trees
            &&& name_views(r.0@) == kept_names(
                name_views(names@),
                trees.len(),
                name_views(new.names@),
                new.named@.len(),
                trees.len(),
            )
            &&& *final(host) == step.host
            &&& final(ctx)@ == step.queue
        }),
    decreases WidgetNode::Group(*new).rank(), 1nat, new, 0nat,
{
    let ghost host0 = *host;
    let ghost queue0 = ctx@;
    let ghost all = named@;
    let ghost trees = MountedWidgetNode::views(named@);
    let ghost old_names = name_views(names@);
    assert(all.len() == named.len());
    let ghost new_names = name_views(new.names@);
    let mut out_names: Vec<String> = Vec::new();
    let mut out: Vec<MountedWidgetNode<B>> = Vec::new();
    let mut j: usize = 0;
    assert(MountedWidgetNode::views(out@) =~= Seq::<Tree<B>>::empty());
    assert(name_views(out_names@) =~= Seq::<Seq<char>>::empty());
    for child in it: named
        invariant
            it.seq() == all,
            j == it.index(),
            all.len() <= usize::MAX,
            trees == MountedWidgetNode::views(all),
            old_names == name_views(names@),
            new_names == name_views(new.names@),
            WidgetNode::<B>::well_founded(),
            MountedWidgetNode::views(out@) == Tree::diff_named(
                old_names,
                trees,
                new_names,
                new.named@,
                j as nat,
                host0,
                queue0,
            ).trees,
            name_views(out_names@) == kept_names(
                old_names,
                trees.len(),
                new_names,
                new.named@.len(),
                j as nat,
            ),
            *host == Tree::diff_named(
                old_names,
                trees,
                new_names,
                new.named@,
                j as nat,
                host0,
                queue0,
            ).host,
            ctx@ == Tree::diff_named(
                old_names,
                trees,
                new_names,
                new.named@,
                j as nat,
                host0,
                queue0,
            ).queue,
    {
        let slot = if j < names.len() {
            find_child(&new.names, new.named.len(), &names[j])
        } else {
            None
        };
        assert(match slot {
            Some(k) => counterpart(old_names, new_names, new.named@.len(), j as int) == Some(
                k as int,
            ),
            None => counterpart(old_names, new_names, new.named@.len(), j as int).is_none(),
        });
        match slot {
            Some(k) => {
                proof {
                    WidgetNode::<B>::lemma_rank_all(new.named@, new.named@.len(), k as int);
                }
                let ghost before = out@;
                let ghost names_before = out_names@;
                let patched = child.diff(&new.named[k], host, ctx);
                out.push(patched);
                out_names.push(names[j].clone());
                assert(MountedWidgetNode::views(out@) =~= MountedWidgetNode::views(before).push(
                    patched@,
                ));
                assert(name_views(out_names@) =~= name_views(names_before).push(
                    old_names[j as int],
                ));
            },
            None => {
                child.unmount(host, ctx);
            },
        }
        j += 1;
    }
    (out_names, out)
}

/// Mounts the named descriptors of `new` whose names none of the first
/// `count` of `names` bears, and appends them with their names.
pub fn mount_missing_list<B: UiBackend>(
    names: &Vec<String>,
    count: usize,
    new: &WidgetNodeGroup<B>,
    host: &mut B::RunCtx,
    ctx: &mut InternalContext<B>,
) -> (r: (Vec<String>, Vec<MountedWidgetNode<B>>)) where
    B::WidgetFn: DynWidgetFunc<B>,
    B::EffectFn: DynEffectFunc<B>,

    requires
        WidgetNode::<B>::well_founded(),
    ensures
        ({
            let step = Tree::mount_missing(
                name_views(names@),
                count as nat,
                name_views(new.names@),
                new.named@,
                new.named@.len(),
                *old(host),
                old(ctx)@,
            );
            &&& MountedWidgetNode::views(r.1@) == step.trees
            &&& name_views(r.0@) == missing_names_upto(
                name_views(names@),
                count as nat,
                name_views(new.names@),
                new.named@.len(),
            )
            &&& *final(host) == step.host
            &&& final(ctx)@ == step.queue
        }),
{
    let ghost host0 = *host;
    let ghost queue0 = ctx@;
    let ghost old_names = name_views(names@);
    let ghost new_names = name_views(new.names@);
    let mut out_names: Vec<String> = Vec::new();
    let mut out: Vec<MountedWidgetNode<B>> = Vec::new();
    let mut k: usize = 0;
    assert(MountedWidgetNode::views(out@) =~= Seq::<Tree<B>>::empty());
    assert(name_views(out_names@) =~= Seq::<Seq<char>>::empty());
    while k < new.named.len()
        invariant
            k <= new.named@.len(),
            old_names == name_views(names@),
            new_names == name_views(new.names@),
            WidgetNode::<B>::well_founded(),
            MountedWidgetNode::views(out@) == Tree::mount_missing(
                old_names,
                count as nat,
                new_names,
                new.named@,
                k as nat,
                host0,
                queue0,
            ).trees,
            name_views(out_names@) == missing_names_upto(
                old_names,
                count as nat,
                new_names,
                k as nat,
            ),
            *host == Tree::mount_missing(
                old_names,
                count as nat,
                new_names,
                new.named@,
                k as nat,
                host0,
                queue0,
            ).host,
            ctx@ == Tree::mount_missing(
                old_names,
                count as nat,
                new_names,
                new.named@,
                k as nat,
                host0,
                queue0,
            ).queue,
        decreases new.named@.len() - k,
    {
        let absent = k < new.names.len() && find_child(names, count, &new.names[k]).is_none();
        assert(absent == is_missing(old_names, count as nat, new_names, k as int));
        if absent {
            let ghost before = out@;
            let ghost names_before = out_names@;
            let child = new.named[k].mount(host, ctx);
            out.push(child);
            out_names.push(new.names[k].clone());
            assert(MountedWidgetNode::views(out@) =~= MountedWidgetNode::views(before).push(
                child@,
            ));
            assert(name_views(out_names@) =~= name_views(names_before).push(new_names[k as int]));
        }
        k += 1;
    }
    (out_names, out)
}

/// Runs the traversal on every tree of `nodes`, in order.
pub fn process_list<B: UiBackend>(
    nodes: Vec<MountedWidgetNode<B>>,
    host: &mut B::RunCtx,
    ctx: &mut InternalContext<B>,
) -> (r: Vec<MountedWidgetNode<B>>) where
    B::WidgetFn: DynWidgetFunc<B>,
    B::EffectFn: DynEffectFunc<B>,

    requires
        WidgetNode::<B>::well_founded(),
    ensures
        ({
            let trees = MountedWidgetNode::views(nodes@);
            let step = Tree::process_all(trees, trees.len(), *old(host), old(ctx)@);
            &&& MountedWidgetNode::views(r@) == step.trees
            &&& *final(host) == step.host
            &&& final(ctx)@ == step.queue
        }),
    decreases nodes@, 0nat,
{
    let ghost host0 = *host;
    let ghost queue0 = ctx@;
    let ghost all = nodes@;
    let ghost trees = MountedWidgetNode::views(nodes@);
    let mut out: Vec<MountedWidgetNode<B>> = Vec::new();
    assert(MountedWidgetNode::views(out@) =~= Seq::<Tree<B>>::empty());
    for child in it: nodes
        invariant
            it.seq() == all,
            trees == MountedWidgetNode::views(all),
            WidgetNode::<B>::well_founded(),
            MountedWidgetNode::views(out@) == Tree::process_all(
                trees,
                it.index() as nat,
                host0,
                queue0,
            ).trees,
            *host == Tree::process_all(trees, it.index() as nat, host0, queue0).host,
            ctx@ == Tree::process_all(trees, it.index() as nat, host0, queue0).queue,
    {
        let ghost before = out@;
        let walked = child.process(host, ctx);
        out.push(walked);
        assert(MountedWidgetNode::views(out@) =~= MountedWidgetNode::views(before).push(
            walked@,
        ));
    }
    out
}

impl<B: UiBackend> MountedWidgetNode<B> where
    B::WidgetFn: DynWidgetFunc<B>,
    B::EffectFn: DynEffectFunc<B>,
 {
    /// Unmounts the tree and mounts `new` in its place.
    pub fn replace(self, new: &WidgetNode<B>, host: &mut B::RunCtx, ctx: &mut InternalContext<B>) -> (r:
        Self)
        requires
            WidgetNode::<B>::well_founded(),
        ensures
            ({
                let step = self@.replace(*new, *old(host), old(ctx)@);
                &&& r@ == step.tree
                &&& *final(host) == step.host
                &&& final(ctx)@ == step.queue
            }),
    {
        self.unmount(host, ctx);
        new.mount(host, ctx)
    }

    /// Brings the tree in line with `new`, patching in place where the two
    /// are of one kind and, for components and effects, of one function
    /// identity, and replacing the tree otherwise.
    pub fn diff(self, new: &WidgetNode<B>, host: &mut B::RunCtx, ctx: &mut InternalContext<B>) -> (r:
        Self)
        requires
            WidgetNode::<B>::well_founded(),
        ensures
            ({
                let step = self@.diff(*new, *old(host), old(ctx)@);
                &&& r@ == step.tree
                &&& *final(host) == step.host
                &&& final(ctx)@ == step.queue
            }),
        decreases new.rank(), 1nat, new, 2nat,
    {
        match new {
            WidgetNode::Empty => self.replace(new, host, ctx),
            WidgetNode::Component(c) => match self {
                MountedWidgetNode::Component(mounted) => MountedWidgetNode::Component(
                    mounted.diff(c, host, ctx),
                ),
                other => other.replace(new, host, ctx),
            },
            WidgetNode::Effect(e) => match self {
                MountedWidgetNode::Effect(mounted) => MountedWidgetNode::Effect(
                    mounted.diff(e, host, ctx),
                ),
                other => other.replace(new, host, ctx),
            },
            WidgetNode::Unit { unit, children } => match self {
                MountedWidgetNode::Unit { unit: previous, children: mounted } => {
                    let inner = (*mounted).diff(children, host, ctx);
                    MountedWidgetNode::Unit { unit: unit.clone(), children: Box::new(inner) }
                },
                other => other.replace(new, host, ctx),
            },
            WidgetNode::Group(g) => match self {
                MountedWidgetNode::Group(mounted) => MountedWidgetNode::Group(
                    mounted.diff(g, host, ctx),
                ),
                other => other.replace(new, host, ctx),
            },
        }
    }

    /// One traversal of the tree: recomputes the components whose hook
    /// parameters report a change and marks the effects whose dependencies
    /// report one.
    pub fn process(self, host: &mut B::RunCtx, ctx: &mut InternalContext<B>) -> (r: Self)
        requires
            WidgetNode::<B>::well_founded(),
        ensures
            ({
                let step = self@.process(*old(host), old(ctx)@);
                &&& r@ == step.tree
                &&& *final(host) == step.host
                &&& final(ctx)@ == step.queue
            }),
        decreases self, 2nat,
    {
        match self {
            MountedWidgetNode::Empty => MountedWidgetNode::Empty,
            MountedWidgetNode::Component(c) => MountedWidgetNode::Component(c.process(host, ctx)),
            MountedWidgetNode::Effect(e) => MountedWidgetNode::Effect(e.process(host, ctx)),
            MountedWidgetNode::Unit { unit, children } => {
                let inner = (*children).process(host, ctx);
                MountedWidgetNode::Unit { unit, children: Box::new(inner) }
            },
            MountedWidgetNode::Group(group) => MountedWidgetNode::Group(group.process(host, ctx)),
        }
    }
}

impl<B: UiBackend> MountedWidgetComponent<B> where
    B::WidgetFn: DynWidgetFunc<B>,
    B::EffectFn: DynEffectFunc<B>,
 {
    /// Calls the function again and brings the mounted result in line with
    /// what it produced.
    pub fn recompute(self, host: &mut B::RunCtx, ctx: &mut InternalContext<B>) -> (r: Self)
        requires
            WidgetNode::<B>::well_founded(),
        ensures
            ({
                let step = Tree::recompute(
                    self.template,
                    self.result@,
                    self.init_data,
                    *old(host),
                    old(ctx)@,
                );
                &&& r@ == step.tree
                &&& *final(host) == step.host
                &&& final(ctx)@ == step.queue
            }),
        decreases self.template.func.rank(*self.template.props) + 1, 0nat, self.template, 0nat,
    {
        let MountedWidgetComponent { template, result, init_data, deps } = self;
        let mut init_data = init_data;
        let mut deps: Vec<B::Dep> = Vec::new();
        let produced = template.func.call(host, &template.props, &mut init_data, &mut deps);
        let result = (*result).diff(&produced, host, ctx);
        MountedWidgetComponent { template, result: Box::new(result), init_data, deps }
    }

    /// Whether the instance is out of date: a hook parameter reports a
    /// change, or a dependency that the last call registered does.
    pub fn needs_recalc(&self, host: &B::RunCtx) -> (r: bool)
        ensures
            r == Tree::stale(self.template, self.init_data, self.deps@, *host),
    {
        if self.template.func.needs_recalc(host, &self.init_data) {
            return true;
        }
        let mut i: usize = 0;
        while i < self.deps.len()
            invariant
                i <= self.deps@.len(),
                forall|j: int| 0 <= j < i ==> !B::dep_changed_spec(*host, #[trigger] self.deps@[j]),
            decreases self.deps.len() - i,
        {
            if B::dep_changed(host, &self.deps[i]) {
                return true;
            }
            i += 1;
        }
        false
    }

    /// The traversal at a component: recomputes it where it is out of date,
    /// and goes on into its result otherwise.
    pub fn process(self, host: &mut B::RunCtx, ctx: &mut InternalContext<B>) -> (r: Self)
        requires
            WidgetNode::<B>::well_founded(),
        ensures
            ({
                let step = self@.process(*old(host), old(ctx)@);
                &&& r@ == step.tree
                &&& *final(host) == step.host
                &&& final(ctx)@ == step.queue
            }),
        decreases self, 1nat,
    {
        if self.needs_recalc(host) {
            self.recompute(host, ctx)
        } else {
            let MountedWidgetComponent { template, result, init_data, deps } = self;
            let inner = (*result).process(host, ctx);
            MountedWidgetComponent { template, result: Box::new(inner), init_data, deps }
        }
    }

    /// Brings the instance in line with `new`: of one function identity, it
    /// keeps its function and its hook state, adopts the new properties and
    /// is recomputed; otherwise it is unmounted and `new` is mounted afresh.
    pub fn diff(self, new: &WidgetComponent<B>, host: &mut B::RunCtx, ctx: &mut InternalContext<B>) -> (r:
        Self)
        requires
            WidgetNode::<B>::well_founded(),
        ensures
            ({
                let step = self@.diff(WidgetNode::Component(*new), *old(host), old(ctx)@);
                &&& r@ == step.tree
                &&& *final(host) == step.host
                &&& final(ctx)@ == step.queue
            }),
        decreases new.func.rank(*new.props) + 1, 1nat, new, 1nat,
    {
        if self.template.func.fn_type_id() == new.func.fn_type_id() {
            let MountedWidgetComponent { template, result, init_data, deps } = self;
            let adopted = MountedWidgetComponent {
                template: WidgetComponent { func: template.func, props: new.props.clone() },
                result,
                init_data,
                deps,
            };
            adopted.recompute(host, ctx)
        } else {
            self.unmount(host, ctx);
            new.mount(host, ctx)
        }
    }
}

impl<B: UiBackend> MountedWidgetEffectComponent<B> where
    B::WidgetFn: DynWidgetFunc<B>,
    B::EffectFn: DynEffectFunc<B>,
 {
    /// Whether the dependencies of the effect report a change.
    pub fn needs_recalc(&self, host: &B::RunCtx) -> (r: bool)
        ensures
            r == self.template.func.needs_recalc_spec(*host, self.init_data),
    {
        self.template.func.needs_recalc(host, &self.init_data)
    }

    /// The traversal at an effect: a run of it joins the deferred work where
    /// its dependencies report a change.
    pub fn process(self, host: &B::RunCtx, ctx: &mut InternalContext<B>) -> (r: Self)
        ensures
            ({
                let step = self@.process(*host, old(ctx)@);
                &&& r@ == step.tree
                &&& final(ctx)@ == step.queue
            }),
    {
        if self.needs_recalc(host) {
            let MountedWidgetEffectComponent { template, init_data, cleanup_fn, pending } = self;
            let ticket = ctx.execute_at_end.len();
            ctx.execute_at_end.push(Deferred::Run);
            MountedWidgetEffectComponent { template, init_data, cleanup_fn, pending: Some(ticket) }
        } else {
            self
        }
    }

    /// Brings the registration in line with `new`: of one function identity,
    /// it keeps its function and its hook state, adopts the new properties,
    /// and a run of it joins the deferred work; otherwise it is unmounted and
    /// `new` is mounted afresh.
    pub fn diff(
        self,
        new: &WidgetEffectComponent<B>,
        host: &mut B::RunCtx,
        ctx: &mut InternalContext<B>,
    ) -> (r: Self)
        requires
            WidgetNode::<B>::well_founded(),
        ensures
            ({
                let step = self@.diff(WidgetNode::Effect(*new), *old(host), old(ctx)@);
                &&& r@ == step.tree
                &&& *final(host) == step.host
                &&& final(ctx)@ == step.queue
            }),
    {
        if self.template.func.fn_type_id() == new.func.fn_type_id() {
            let MountedWidgetEffectComponent { template, init_data, cleanup_fn, pending } = self;
            let ticket = ctx.execute_at_end.len();
            ctx.execute_at_end.push(Deferred::Run);
            MountedWidgetEffectComponent {
                template: WidgetEffectComponent { func: template.func, props: new.props.clone() },
                init_data,
                cleanup_fn,
                pending: Some(ticket),
            }
        } else {
            self.unmount(ctx);
            new.mount(host, ctx)
        }
    }
}

impl<B: UiBackend> MountedWidgetNodeGroup<B> where
    B::WidgetFn: DynWidgetFunc<B>,
    B::EffectFn: DynEffectFunc<B>,
 {
    /// Brings the group in line with `new`.
    ///
    /// Positional children beyond the new count are unmounted, the others
    /// compared by position, new positions mounted. Named children are
    /// compared by name, those whose name is gone unmounted, new names
    /// mounted. The render order of `new` is adopted.
    pub fn diff(self, new: &WidgetNodeGroup<B>, host: &mut B::RunCtx, ctx: &mut InternalContext<B>) -> (r:
        Self)
        requires
            WidgetNode::<B>::well_founded(),
        ensures
            ({
                let step = self@.diff(WidgetNode::Group(*new), *old(host), old(ctx)@);
                &&& r@ == step.tree
                &&& *final(host) == step.host
                &&& final(ctx)@ == step.queue
            }),
        decreases WidgetNode::Group(*new).rank(), 1nat, new, 1nat,
    {
        let ghost host0 = *host;
        let ghost queue0 = ctx@;
        let MountedWidgetNodeGroup { render_order, ordered, names, named } = self;
        let ghost trees = MountedWidgetNode::views(ordered@);
        let ghost old_named = MountedWidgetNode::views(named@);
        let ghost old_names = name_views(names@);
        let mut ordered = ordered;
        let keep = if ordered.len() <= new.ordered.len() {
            ordered.len()
        } else {
            new.ordered.len()
        };
        let extra = ordered.split_off(keep);
        assert(MountedWidgetNode::views(extra@) =~= trees.subrange(
            keep as int,
            trees.len() as int,
        ));
        assert(MountedWidgetNode::views(ordered@) =~= trees.subrange(0, keep as int));
        unmount_list(extra, host, ctx);
        let ghost dropped = Tree::unmount_all(
            trees.subrange(keep as int, trees.len() as int),
            (trees.len() - keep) as nat,
            host0,
            queue0,
        );
        let mut ordered = diff_list(ordered, &new.ordered, host, ctx);
        let ghost kept = Tree::diff_all(
            trees.subrange(0, keep as int),
            new.ordered@,
            keep as nat,
            dropped.host,
            dropped.queue,
        );
        let mut added = mount_list(&new.ordered, keep, host, ctx);
        let ghost grown = Tree::mount_all(
            new.ordered@.subrange(keep as int, new.ordered@.len() as int),
            (new.ordered@.len() - keep) as nat,
            kept.host,
            kept.queue,
        );
        let ghost kept_trees = MountedWidgetNode::views(ordered@);
        let ghost added_trees = MountedWidgetNode::views(added@);
        ordered.append(&mut added);
        assert(MountedWidgetNode::views(ordered@) =~= kept_trees + added_trees);
        let count = named.len();
        let (mut out_names, mut out_named) = diff_named_list(&names, named, new, host, ctx);
        let ghost known = Tree::diff_named(
            old_names,
            old_named,
            name_views(new.names@),
            new.named@,
            old_named.len(),
            grown.host,
            grown.queue,
        );
        let (mut fresh_names, mut fresh_named) = mount_missing_list(&names, count, new, host, ctx);
        let ghost fresh = Tree::mount_missing(
            old_names,
            old_named.len(),
            name_views(new.names@),
            new.named@,
            new.named@.len(),
            known.host,
            known.queue,
        );
        let ghost known_names = name_views(out_names@);
        let ghost added_names = name_views(fresh_names@);
        let ghost known_trees = MountedWidgetNode::views(out_named@);
        let ghost fresh_trees = MountedWidgetNode::views(fresh_named@);
        out_names.append(&mut fresh_names);
        out_named.append(&mut fresh_named);
        assert(MountedWidgetNode::views(out_named@) =~= known_trees + fresh_trees);
        assert(name_views(out_names@) =~= known_names + added_names);
        let render_order = new.render_order.clone();
        assert(render_order@ =~= new.render_order@);
        let r = MountedWidgetNodeGroup { render_order, ordered, names: out_names, named: out_named };
        proof {
            let step = Tree::diff_group(trees, old_names, old_named, *new, host0, queue0);
            assert(r@ == step.tree);
        }
        r
    }

    /// The traversal at a group: the named children, then the positional
    /// ones.
    pub fn process(self, host: &mut B::RunCtx, ctx: &mut InternalContext<B>) -> (r: Self)
        requires
            WidgetNode::<B>::well_founded(),
        ensures
            ({
                let step = self@.process(*old(host), old(ctx)@);
                &&& r@ == step.tree
                &&& *final(host) == step.host
                &&& final(ctx)@ == step.queue
            }),
        decreases self, 1nat,
    {
        let MountedWidgetNodeGroup { render_order, ordered, names, named } = self;
        let named = process_list(named, host, ctx);
        let ordered = process_list(ordered, host, ctx);
        MountedWidgetNodeGroup { render_order, ordered, names, named }
    }
}

} // verus!
