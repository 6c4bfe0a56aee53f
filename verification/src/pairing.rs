//! Law: every allocation of component state meets its release.
//!
//! The executable operations are proved equal to the functions of the model,
//! so what is shown here of the model holds of every run of the engine.
use crate::backend::UiBackend;
use crate::dispatch::DynEffectFunc;
use crate::dispatch::DynWidgetFunc;
use crate::model::Deferred;
use crate::model::Event;
use crate::model::Tree;
use crate::model::counterpart;
use crate::model::is_missing;
use crate::node::name_views;
use crate::node::WidgetComponent;
use crate::node::WidgetNode;
use crate::node::WidgetNodeGroup;
use vstd::prelude::*;

verus! {

/// The number of events in `log` that are allocations of component state.
pub open spec fn inits(log: Seq<Event>) -> nat
    decreases log.len(),
{
    if log.len() == 0 {
        0
    } else {
        inits(log.drop_last()) + if log.last() is Init {
            1nat
        } else {
            0nat
        }
    }
}

/// The number of events in `log` that are releases of component state.
pub open spec fn deinits(log: Seq<Event>) -> nat
    decreases log.len(),
{
    if log.len() == 0 {
        0
    } else {
        deinits(log.drop_last()) + if log.last() is Deinit {
            1nat
        } else {
            0nat
        }
    }
}

/// Counting allocations and releases goes through concatenation.
pub proof fn lemma_counts_add(a: Seq<Event>, b: Seq<Event>)
    ensures
        inits(a + b) == inits(a) + inits(b),
        deinits(a + b) == deinits(a) + deinits(b),
    decreases b.len(),
{
    if b.len() == 0 {
        assert(a + b =~= a);
    } else {
        lemma_counts_add(a, b.drop_last());
        assert((a + b).drop_last() =~= a + b.drop_last());
    }
}

/// Counting allocations and releases in a log that ends with `e`.
pub proof fn lemma_counts_push(a: Seq<Event>, e: Event)
    ensures
        inits(a.push(e)) == inits(a) + if e is Init {
            1nat
        } else {
            0nat
        },
        deinits(a.push(e)) == deinits(a) + if e is Deinit {
            1nat
        } else {
            0nat
        },
{
    assert(a.push(e).drop_last() =~= a);
}

/// Counting instances among the first `k` trees pays no heed to a tree
/// appended behind them.
pub proof fn lemma_instances_frame<B: UiBackend>(s: Seq<Tree<B>>, x: Tree<B>, k: nat)
    requires
        k <= s.len(),
    ensures
        Tree::instances_all(s.push(x), k) == Tree::instances_all(s, k),
    decreases k,
{
    if k > 0 {
        lemma_instances_frame(s, x, (k - 1) as nat);
    }
}

/// The instances of a sequence that ends with `x`.
pub proof fn lemma_instances_push<B: UiBackend>(s: Seq<Tree<B>>, x: Tree<B>)
    ensures
        Tree::instances_all(s.push(x), s.len() + 1) == Tree::instances_all(s, s.len())
            + x.instances(),
{
    lemma_instances_frame(s, x, s.len());
}

/// The instances of a concatenation.
pub proof fn lemma_instances_add<B: UiBackend>(a: Seq<Tree<B>>, b: Seq<Tree<B>>)
    ensures
        Tree::instances_all(a + b, (a + b).len()) == Tree::instances_all(a, a.len())
            + Tree::instances_all(b, b.len()),
    decreases b.len(),
{
    if b.len() == 0 {
        assert(a + b =~= a);
    } else {
        let front = b.drop_last();
        lemma_instances_add(a, front);
        assert(a + b =~= (a + front).push(b.last()));
        assert(b =~= front.push(b.last()));
        lemma_instances_push(a + front, b.last());
        lemma_instances_push(front, b.last());
    }
}

impl<B: UiBackend> Tree<B> where B::WidgetFn: DynWidgetFunc<B>, B::EffectFn: DynEffectFunc<B> {
    /// Mounting allocates the state of exactly the component instances it
    /// mounts and releases none.
    pub proof fn law_mount_allocates(node: WidgetNode<B>, host: B::RunCtx, queue: Seq<Deferred<B>>)
        requires
            WidgetNode::<B>::well_founded(),
        ensures
            inits(Self::mount(node, host, queue).log) == Self::mount(
                node,
                host,
                queue,
            ).tree.instances(),
            deinits(Self::mount(node, host, queue).log) == 0,
        decreases node.rank(), node, 0nat,
    {
        let step = Self::mount(node, host, queue);
        match node {
            WidgetNode::Empty => {
                assert(step.log =~= Seq::<Event>::empty());
            },
            WidgetNode::Component(c) => {
                let (fresh, created) = c.func.init_spec(host);
                let (produced, state, deps) = c.func.call_spec(created, c.spec_props(), fresh);
                let inner = Self::mount(produced, created, queue);
                Self::law_mount_allocates(produced, created, queue);
                let init = Event::Init(c.func.identity());
                let call = Event::Call(c.func.identity());
                let head = Seq::<Event>::empty().push(init).push(call);
                lemma_counts_push(Seq::<Event>::empty(), init);
                lemma_counts_push(Seq::<Event>::empty().push(init), call);
                lemma_counts_add(head, inner.log);
                assert(step.log =~= head + inner.log);
            },
            WidgetNode::Effect(e) => {
                lemma_counts_push(Seq::<Event>::empty(), Event::EffectInit(e.func.identity()));
                assert(step.log =~= Seq::<Event>::empty().push(
                    Event::EffectInit(e.func.identity()),
                ));
            },
            WidgetNode::Unit { unit, children } => {
                Self::law_mount_allocates(node.spec_children(), host, queue);
            },
            WidgetNode::Group(g) => {
                let named = Self::mount_all(g.named@, g.named@.len(), host, queue);
                let ordered = Self::mount_all(
                    g.ordered@,
                    g.ordered@.len(),
                    named.host,
                    named.queue,
                );
                Self::lemma_mount_all(g.named@, g.named@.len(), host, queue);
                Self::lemma_mount_all(g.ordered@, g.ordered@.len(), named.host, named.queue);
                lemma_counts_add(named.log, ordered.log);
            },
        }
    }

    /// Mounting a sequence allocates the state of exactly the component
    /// instances it mounts and releases none.
    pub proof fn lemma_mount_all(
        nodes: Seq<WidgetNode<B>>,
        n: nat,
        host: B::RunCtx,
        queue: Seq<Deferred<B>>,
    )
        requires
            WidgetNode::<B>::well_founded(),
            n <= nodes.len(),
        ensures
            ({
                let step = Self::mount_all(nodes, n, host, queue);
                &&& step.trees.len() == n
                &&& inits(step.log) == Self::instances_all(step.trees, n)
                &&& deinits(step.log) == 0
            }),
        decreases WidgetNode::<B>::rank_all(nodes, nodes.len()), nodes, n,
    {
        if n > 0 {
            let before = Self::mount_all(nodes, (n - 1) as nat, host, queue);
            Self::lemma_mount_all(nodes, (n - 1) as nat, host, queue);
            WidgetNode::<B>::lemma_rank_all(nodes, nodes.len(), n - 1);
            let last = Self::mount(nodes[n - 1], before.host, before.queue);
            Self::law_mount_allocates(nodes[n - 1], before.host, before.queue);
            lemma_counts_add(before.log, last.log);
            lemma_instances_push(before.trees, last.tree);
        }
    }

    /// Unmounting releases the state of exactly the component instances of
    /// the tree and allocates none.
    pub proof fn law_unmount_releases(self, host: B::RunCtx, queue: Seq<Deferred<B>>)
        ensures
            deinits(self.unmount(host, queue).log) == self.instances(),
            inits(self.unmount(host, queue).log) == 0,
            self.unmount(host, queue).tree == Tree::<B>::Empty,
        decreases self, 0nat,
    {
        match self {
            Tree::Empty => {},
            Tree::Component { template, result, state, deps } => {
                let inner = result.unmount(host, queue);
                result.law_unmount_releases(host, queue);
                lemma_counts_push(inner.log, Event::Deinit(template.func.identity()));
            },
            Tree::Effect { .. } => {},
            Tree::Unit { unit, children } => {
                children.law_unmount_releases(host, queue);
            },
            Tree::Group { render_order, ordered, names, named } => {
                let first = Self::unmount_all(named, named.len(), host, queue);
                let second = Self::unmount_all(ordered, ordered.len(), first.host, first.queue);
                Self::lemma_unmount_all(named, named.len(), host, queue);
                Self::lemma_unmount_all(ordered, ordered.len(), first.host, first.queue);
                lemma_counts_add(first.log, second.log);
            },
        }
    }

    /// Unmounting a sequence releases the state of exactly its component
    /// instances and allocates none.
    pub proof fn lemma_unmount_all(
        trees: Seq<Tree<B>>,
        n: nat,
        host: B::RunCtx,
        queue: Seq<Deferred<B>>,
    )
        requires
            n <= trees.len(),
        ensures
            deinits(Self::unmount_all(trees, n, host, queue).log) == Self::instances_all(trees, n),
            inits(Self::unmount_all(trees, n, host, queue).log) == 0,
        decreases trees, n,
    {
        if n > 0 {
            let before = Self::unmount_all(trees, (n - 1) as nat, host, queue);
            Self::lemma_unmount_all(trees, (n - 1) as nat, host, queue);
            let last = trees[n - 1].unmount(before.host, before.queue);
            trees[n - 1].law_unmount_releases(before.host, before.queue);
            lemma_counts_add(before.log, last.log);
        }
    }

    /// Replacing a tree releases the state of its instances and allocates
    /// that of the instances of the new one.
    pub proof fn lemma_replace(self, node: WidgetNode<B>, host: B::RunCtx, queue: Seq<Deferred<B>>)
        requires
            WidgetNode::<B>::well_founded(),
        ensures
            balanced(
                self.instances(),
                self.replace(node, host, queue).log,
                self.replace(node, host, queue).tree.instances(),
            ),
    {
        let gone = self.unmount(host, queue);
        let fresh = Self::mount(node, gone.host, gone.queue);
        self.law_unmount_releases(host, queue);
        Self::law_mount_allocates(node, gone.host, gone.queue);
        lemma_counts_add(gone.log, fresh.log);
    }

    /// Recomputing an instance allocates and releases in step with the
    /// instances that come and go below it.
    pub proof fn lemma_recompute(
        template: WidgetComponent<B>,
        result: Tree<B>,
        state: B::State,
        host: B::RunCtx,
        queue: Seq<Deferred<B>>,
    )
        requires
            WidgetNode::<B>::well_founded(),
        ensures
            balanced(
                1 + result.instances(),
                Self::recompute(template, result, state, host, queue).log,
                Self::recompute(template, result, state, host, queue).tree.instances(),
            ),
        decreases template.func.rank(template.spec_props()) + 1, 0nat, template, 0nat,
    {
        let step = Self::recompute(template, result, state, host, queue);
        let (produced, after, deps) = template.func.call_spec(host, template.spec_props(), state);
        let inner = result.diff(produced, host, queue);
        result.law_diff_conserves(produced, host, queue);
        let call = Event::Call(template.func.identity());
        let head = Seq::<Event>::empty().push(call);
        lemma_counts_push(Seq::<Event>::empty(), call);
        lemma_counts_add(head, inner.log);
        assert(step.log =~= head + inner.log);
    }

    /// Reconciliation allocates and releases in step with the instances that
    /// come and go: the instances before, with those allocated, are the
    /// instances after, with those released.
    pub proof fn law_diff_conserves(
        self,
        node: WidgetNode<B>,
        host: B::RunCtx,
        queue: Seq<Deferred<B>>,
    )
        requires
            WidgetNode::<B>::well_founded(),
        ensures
            balanced(
                self.instances(),
                self.diff(node, host, queue).log,
                self.diff(node, host, queue).tree.instances(),
            ),
        decreases node.rank(), 1nat, node, 0nat,
    {
        let step = self.diff(node, host, queue);
        self.lemma_replace(node, host, queue);
        match node {
            WidgetNode::Empty => {},
            WidgetNode::Component(c) => match self {
                Tree::Component { template, result, state, deps } => {
                    if template.func.identity() == c.func.identity() {
                        Self::lemma_recompute(
                            WidgetComponent { func: template.func, props: c.props },
                            *result,
                            state,
                            host,
                            queue,
                        );
                    }
                },
                _ => {},
            },
            WidgetNode::Effect(e) => match self {
                Tree::Effect { template, state, cleanup, pending } => {
                    if template.func.identity() == e.func.identity() {
                        assert(step.log =~= Seq::<Event>::empty());
                    }
                },
                _ => {},
            },
            WidgetNode::Unit { unit, children } => match self {
                Tree::Unit { unit: previous, children: mounted } => {
                    mounted.law_diff_conserves(node.spec_children(), host, queue);
                },
                _ => {},
            },
            WidgetNode::Group(g) => match self {
                Tree::Group { render_order, ordered, names, named } => {
                    Self::lemma_diff_group(ordered, names, named, g, host, queue);
                },
                _ => {},
            },
        }
    }

    /// Reconciling a group allocates and releases in step with the instances
    /// that come and go.
    pub proof fn lemma_diff_group(
        ordered: Seq<Tree<B>>,
        names: Seq<Seq<char>>,
        named: Seq<Tree<B>>,
        g: WidgetNodeGroup<B>,
        host: B::RunCtx,
        queue: Seq<Deferred<B>>,
    )
        requires
            WidgetNode::<B>::well_founded(),
        ensures
            balanced(
                Self::instances_all(named, named.len()) + Self::instances_all(
                    ordered,
                    ordered.len(),
                ),
                Self::diff_group(ordered, names, named, g, host, queue).log,
                Self::diff_group(ordered, names, named, g, host, queue).tree.instances(),
            ),
        decreases WidgetNode::Group(g).rank(), 1nat, g, 0nat,
    {
        let keep = if ordered.len() <= g.ordered@.len() {
            ordered.len()
        } else {
            g.ordered@.len()
        };
        let common = ordered.subrange(0, keep as int);
        let extra = ordered.subrange(keep as int, ordered.len() as int);
        let rest = g.ordered@.subrange(keep as int, g.ordered@.len() as int);
        let new_names = name_views(g.names@);
        let dropped = Self::unmount_all(extra, extra.len(), host, queue);
        let kept = Self::diff_all(common, g.ordered@, keep, dropped.host, dropped.queue);
        let added = Self::mount_all(rest, rest.len(), kept.host, kept.queue);
        let known = Self::diff_named(
            names,
            named,
            new_names,
            g.named@,
            named.len(),
            added.host,
            added.queue,
        );
        let fresh = Self::mount_missing(
            names,
            named.len(),
            new_names,
            g.named@,
            g.named@.len(),
            known.host,
            known.queue,
        );
        Self::lemma_unmount_all(extra, extra.len(), host, queue);
        Self::lemma_diff_all(common, g.ordered@, keep, dropped.host, dropped.queue);
        Self::lemma_mount_all(rest, rest.len(), kept.host, kept.queue);
        Self::lemma_diff_named(
            names,
            named,
            new_names,
            g.named@,
            named.len(),
            added.host,
            added.queue,
        );
        Self::lemma_mount_missing(
            names,
            named.len(),
            new_names,
            g.named@,
            g.named@.len(),
            known.host,
            known.queue,
        );
        lemma_counts_add(dropped.log, kept.log);
        lemma_counts_add(dropped.log + kept.log, added.log);
        lemma_counts_add(dropped.log + kept.log + added.log, known.log);
        lemma_counts_add(dropped.log + kept.log + added.log + known.log, fresh.log);
        assert(ordered =~= common + extra);
        lemma_instances_add(common, extra);
        lemma_instances_add(kept.trees, added.trees);
        lemma_instances_add(known.trees, fresh.trees);
    }

    /// Comparing by position allocates and releases in step with the
    /// instances that come and go.
    pub proof fn lemma_diff_all(
        trees: Seq<Tree<B>>,
        nodes: Seq<WidgetNode<B>>,
        n: nat,
        host: B::RunCtx,
        queue: Seq<Deferred<B>>,
    )
        requires
            WidgetNode::<B>::well_founded(),
            n <= trees.len(),
            n <= nodes.len(),
        ensures
            Self::diff_all(trees, nodes, n, host, queue).trees.len() == n,
            balanced(
                Self::instances_all(trees, n),
                Self::diff_all(trees, nodes, n, host, queue).log,
                Self::instances_all(Self::diff_all(trees, nodes, n, host, queue).trees, n),
            ),
        decreases WidgetNode::<B>::rank_all(nodes, nodes.len()), 1nat, nodes, n,
    {
        if n > 0 {
            let before = Self::diff_all(trees, nodes, (n - 1) as nat, host, queue);
            Self::lemma_diff_all(trees, nodes, (n - 1) as nat, host, queue);
            WidgetNode::<B>::lemma_rank_all(nodes, nodes.len(), n - 1);
            let last = trees[n - 1].diff(nodes[n - 1], before.host, before.queue);
            trees[n - 1].law_diff_conserves(nodes[n - 1], before.host, before.queue);
            lemma_counts_add(before.log, last.log);
            lemma_instances_push(before.trees, last.tree);
        } else {
            assert(Self::diff_all(trees, nodes, n, host, queue).log =~= Seq::<Event>::empty());
        }
    }

    /// Comparing by name allocates and releases in step with the instances
    /// that come and go.
    pub proof fn lemma_diff_named(
        names: Seq<Seq<char>>,
        named: Seq<Tree<B>>,
        new_names: Seq<Seq<char>>,
        nodes: Seq<WidgetNode<B>>,
        n: nat,
        host: B::RunCtx,
        queue: Seq<Deferred<B>>,
    )
        requires
            WidgetNode::<B>::well_founded(),
            n <= named.len(),
        ensures
            ({
                let step = Self::diff_named(names, named, new_names, nodes, n, host, queue);
                balanced(
                    Self::instances_all(named, n),
                    step.log,
                    Self::instances_all(step.trees, step.trees.len()),
                )
            }),
        decreases WidgetNode::<B>::rank_all(nodes, nodes.len()), 1nat, nodes, n,
    {
        if n > 0 {
            let before = Self::diff_named(
                names,
                named,
                new_names,
                nodes,
                (n - 1) as nat,
                host,
                queue,
            );
            Self::lemma_diff_named(names, named, new_names, nodes, (n - 1) as nat, host, queue);
            match counterpart(names, new_names, nodes.len(), n - 1) {
                Some(k) => {
                    new_names.index_of_first_ensures(names[n - 1]);
                    WidgetNode::<B>::lemma_rank_all(nodes, nodes.len(), k);
                    let last = named[n - 1].diff(nodes[k], before.host, before.queue);
                    named[n - 1].law_diff_conserves(nodes[k], before.host, before.queue);
                    lemma_counts_add(before.log, last.log);
                    lemma_instances_push(before.trees, last.tree);
                },
                None => {
                    let gone = named[n - 1].unmount(before.host, before.queue);
                    named[n - 1].law_unmount_releases(before.host, before.queue);
                    lemma_counts_add(before.log, gone.log);
                },
            }
        } else {
            assert(Self::diff_named(names, named, new_names, nodes, n, host, queue).log
                =~= Seq::<Event>::empty());
        }
    }

    /// Mounting the children whose names are new allocates the state of
    /// exactly the instances it mounts.
    pub proof fn lemma_mount_missing(
        names: Seq<Seq<char>>,
        count: nat,
        new_names: Seq<Seq<char>>,
        nodes: Seq<WidgetNode<B>>,
        n: nat,
        host: B::RunCtx,
        queue: Seq<Deferred<B>>,
    )
        requires
            WidgetNode::<B>::well_founded(),
            n <= nodes.len(),
        ensures
            ({
                let step = Self::mount_missing(names, count, new_names, nodes, n, host, queue);
                &&& inits(step.log) == Self::instances_all(step.trees, step.trees.len())
                &&& deinits(step.log) == 0
            }),
        decreases n,
    {
        if n > 0 {
            let before = Self::mount_missing(
                names,
                count,
                new_names,
                nodes,
                (n - 1) as nat,
                host,
                queue,
            );
            Self::lemma_mount_missing(names, count, new_names, nodes, (n - 1) as nat, host, queue);
            if is_missing(names, count, new_names, n - 1) {
                let last = Self::mount(nodes[n - 1], before.host, before.queue);
                Self::law_mount_allocates(nodes[n - 1], before.host, before.queue);
                lemma_counts_add(before.log, last.log);
                lemma_instances_push(before.trees, last.tree);
            }
        } else {
            assert(Self::mount_missing(names, count, new_names, nodes, n, host, queue).log
                =~= Seq::<Event>::empty());
        }
    }

    /// The traversal allocates and releases in step with the instances that
    /// come and go.
    pub proof fn law_process_conserves(self, host: B::RunCtx, queue: Seq<Deferred<B>>)
        requires
            WidgetNode::<B>::well_founded(),
        ensures
            balanced(
                self.instances(),
                self.process(host, queue).log,
                self.process(host, queue).tree.instances(),
            ),
        decreases self, 0nat,
    {
        let step = self.process(host, queue);
        match self {
            Tree::Empty => {
                assert(step.log =~= Seq::<Event>::empty());
            },
            Tree::Component { template, result, state, deps } => {
                if Self::stale(template, state, deps, host) {
                    Self::lemma_recompute(template, *result, state, host, queue);
                } else {
                    result.law_process_conserves(host, queue);
                }
            },
            Tree::Effect { .. } => {
                assert(step.log =~= Seq::<Event>::empty());
            },
            Tree::Unit { unit, children } => {
                children.law_process_conserves(host, queue);
            },
            Tree::Group { render_order, ordered, names, named } => {
                let first = Self::process_all(named, named.len(), host, queue);
                let second = Self::process_all(ordered, ordered.len(), first.host, first.queue);
                Self::lemma_process_all(named, named.len(), host, queue);
                Self::lemma_process_all(ordered, ordered.len(), first.host, first.queue);
                lemma_counts_add(first.log, second.log);
            },
        }
    }

    /// The traversal of a sequence allocates and releases in step with the
    /// instances that come and go.
    pub proof fn lemma_process_all(
        trees: Seq<Tree<B>>,
        n: nat,
        host: B::RunCtx,
        queue: Seq<Deferred<B>>,
    )
        requires
            WidgetNode::<B>::well_founded(),
            n <= trees.len(),
        ensures
            Self::process_all(trees, n, host, queue).trees.len() == n,
            balanced(
                Self::instances_all(trees, n),
                Self::process_all(trees, n, host, queue).log,
                Self::instances_all(Self::process_all(trees, n, host, queue).trees, n),
            ),
        decreases trees, n,
    {
        if n > 0 {
            let before = Self::process_all(trees, (n - 1) as nat, host, queue);
            Self::lemma_process_all(trees, (n - 1) as nat, host, queue);
            let last = trees[n - 1].process(before.host, before.queue);
            trees[n - 1].law_process_conserves(before.host, before.queue);
            lemma_counts_add(before.log, last.log);
            lemma_instances_push(before.trees, last.tree);
        } else {
            assert(Self::process_all(trees, n, host, queue).log =~= Seq::<Event>::empty());
        }
    }

    /// Running effects neither allocates nor releases component state, and
    /// leaves every instance where it is.
    pub proof fn lemma_run_due(self, ticket: nat, host: B::RunCtx)
        ensures
            inits(self.run_due(ticket, host).log) == 0,
            deinits(self.run_due(ticket, host).log) == 0,
            self.run_due(ticket, host).tree.instances() == self.instances(),
        decreases self, 0nat,
    {
        let step = self.run_due(ticket, host);
        match self {
            Tree::Empty => {
                assert(step.log =~= Seq::<Event>::empty());
            },
            Tree::Component { template, result, state, deps } => {
                result.lemma_run_due(ticket, host);
            },
            Tree::Effect { template, state, cleanup, pending } => {
                let run = Event::EffectRun(template.func.identity());
                lemma_counts_push(Seq::<Event>::empty(), Event::Cleanup);
                lemma_counts_push(Seq::<Event>::empty().push(Event::Cleanup), run);
                lemma_counts_push(Seq::<Event>::empty(), run);
                if pending == Some(ticket) {
                    if cleanup is Some {
                        assert(step.log =~= Seq::<Event>::empty().push(Event::Cleanup).push(run));
                    } else {
                        assert(step.log =~= Seq::<Event>::empty().push(run));
                    }
                } else {
                    assert(step.log =~= Seq::<Event>::empty());
                }
            },
            Tree::Unit { unit, children } => {
                children.lemma_run_due(ticket, host);
            },
            Tree::Group { render_order, ordered, names, named } => {
                let first = Self::run_due_all(named, named.len(), ticket, host);
                let second = Self::run_due_all(ordered, ordered.len(), ticket, first.host);
                Self::lemma_run_due_all(named, named.len(), ticket, host);
                Self::lemma_run_due_all(ordered, ordered.len(), ticket, first.host);
                lemma_counts_add(first.log, second.log);
            },
        }
    }

    /// Running the effects of a sequence neither allocates nor releases
    /// component state, and leaves every instance where it is.
    pub proof fn lemma_run_due_all(trees: Seq<Tree<B>>, n: nat, ticket: nat, host: B::RunCtx)
        requires
            n <= trees.len(),
        ensures
            Self::run_due_all(trees, n, ticket, host).trees.len() == n,
            inits(Self::run_due_all(trees, n, ticket, host).log) == 0,
            deinits(Self::run_due_all(trees, n, ticket, host).log) == 0,
            Self::instances_all(Self::run_due_all(trees, n, ticket, host).trees, n)
                == Self::instances_all(trees, n),
        decreases trees, n,
    {
        if n > 0 {
            let before = Self::run_due_all(trees, (n - 1) as nat, ticket, host);
            Self::lemma_run_due_all(trees, (n - 1) as nat, ticket, host);
            let last = trees[n - 1].run_due(ticket, before.host);
            trees[n - 1].lemma_run_due(ticket, before.host);
            lemma_counts_add(before.log, last.log);
            lemma_instances_push(before.trees, last.tree);
        } else {
            assert(Self::run_due_all(trees, n, ticket, host).log =~= Seq::<Event>::empty());
        }
    }

    /// The deferred work of a pass neither allocates nor releases component
    /// state, and leaves every instance where it is.
    pub proof fn lemma_flush_upto(self, host: B::RunCtx, queue: Seq<Deferred<B>>, n: nat)
        requires
            n <= queue.len(),
        ensures
            inits(self.flush_upto(host, queue, n).log) == 0,
            deinits(self.flush_upto(host, queue, n).log) == 0,
            self.flush_upto(host, queue, n).tree.instances() == self.instances(),
        decreases n,
    {
        if n > 0 {
            let before = self.flush_upto(host, queue, (n - 1) as nat);
            self.lemma_flush_upto(host, queue, (n - 1) as nat);
            match queue[n - 1] {
                Deferred::Cleanup(action) => {
                    lemma_counts_push(before.log, Event::Cleanup);
                },
                Deferred::Run => {
                    let ran = before.tree.run_due((n - 1) as nat, before.host);
                    before.tree.lemma_run_due((n - 1) as nat, before.host);
                    lemma_counts_add(before.log, ran.log);
                },
            }
        } else {
            assert(self.flush_upto(host, queue, n).log =~= Seq::<Event>::empty());
        }
    }

    /// The deferred work of a pass neither allocates nor releases component
    /// state.
    pub proof fn lemma_flush(self, host: B::RunCtx, queue: Seq<Deferred<B>>)
        ensures
            inits(self.flush(host, queue).log) == 0,
            deinits(self.flush(host, queue).log) == 0,
            self.flush(host, queue).tree.instances() == self.instances(),
    {
        self.lemma_flush_upto(host, queue, queue.len());
    }

    /// A pass allocates and releases in step with the instances that come
    /// and go.
    pub proof fn law_pass_conserves(self, host: B::RunCtx)
        requires
            WidgetNode::<B>::well_founded(),
        ensures
            balanced(self.instances(), self.pass(host).log, self.pass(host).tree.instances()),
    {
        let walked = self.process(host, seq![]);
        let told = B::mark_update_spec(walked.host);
        let done = walked.tree.flush(told, walked.queue);
        self.law_process_conserves(host, seq![]);
        walked.tree.lemma_flush(told, walked.queue);
        lemma_counts_push(walked.log, Event::MarkUpdate);
        lemma_counts_add(walked.log.push(Event::MarkUpdate), done.log);
    }

    /// An update allocates and releases in step with the instances that come
    /// and go, however many passes it takes.
    pub proof fn law_update_conserves(self, host: B::RunCtx, limit: nat)
        requires
            WidgetNode::<B>::well_founded(),
        ensures
            balanced(
                self.instances(),
                self.settle(host, limit).log,
                self.settle(host, limit).tree.instances(),
            ),
        decreases limit,
    {
        if limit == 0 {
            assert(self.settle(host, limit).log =~= Seq::<Event>::empty());
        } else {
            let once = self.pass(host);
            self.law_pass_conserves(host);
            if self.unsettled(host) {
                let rest = once.tree.settle(once.host, (limit - 1) as nat);
                once.tree.law_update_conserves(once.host, (limit - 1) as nat);
                lemma_counts_add(once.log, rest.log);
            }
        }
    }

    /// From the start of an application on, the component state allocated
    /// and not released is that of the instances in the tree.
    pub proof fn law_start_allocates(node: WidgetNode<B>, host: B::RunCtx, limit: nat)
        requires
            WidgetNode::<B>::well_founded(),
        ensures
            balanced(
                0,
                Self::start(node, host, limit).log,
                Self::start(node, host, limit).tree.instances(),
            ),
    {
        let mounted = Self::mount(node, host, seq![]);
        let first = mounted.tree.flush(mounted.host, mounted.queue);
        let told = B::mark_update_spec(first.host);
        let rest = first.tree.settle(told, limit);
        Self::law_mount_allocates(node, host, seq![]);
        mounted.tree.lemma_flush(mounted.host, mounted.queue);
        first.tree.law_update_conserves(told, limit);
        lemma_counts_push(first.log, Event::MarkUpdate);
        lemma_counts_add(mounted.log, first.log.push(Event::MarkUpdate));
        lemma_counts_add(mounted.log + first.log.push(Event::MarkUpdate), rest.log);
    }

    /// Pairing: whatever was mounted, reconciled and updated, once the tree
    /// is torn down every allocation of component state has met its release.
    /// `log` is the record of everything that happened to the tree up to the
    /// state `self`.
    pub proof fn law_pairing(self, log: Seq<Event>, host: B::RunCtx, queue: Seq<Deferred<B>>)
        requires
            balanced(0, log, self.instances()),
        ensures
            inits(log + self.unmount(host, queue).log) == deinits(
                log + self.unmount(host, queue).log,
            ),
    {
        self.law_unmount_releases(host, queue);
        lemma_counts_add(log, self.unmount(host, queue).log);
    }
}

/// The instances `before`, with those allocated in `log`, are the instances
/// `after`, with those released in `log`.
pub open spec fn balanced(before: nat, log: Seq<Event>, after: nat) -> bool {
    before + inits(log) == after + deinits(log)
}

} // verus!
