//! The mathematical model of the mounted tree and of what reconciliation
//! does to it.
//!
//! Every operation of the engine is a function from a mounted tree, the host
//! context and the list of work deferred to the end of the pass to their
//! values afterwards. The functions here say so without reference to how the
//! executable code walks its vectors. Beside the new state each of them lists,
//! in order, the lifecycle events that the operation causes; the laws of the
//! engine are stated over those lists.
use crate::backend::UiBackend;
use crate::dispatch::DynEffectFunc;
use crate::dispatch::DynWidgetFunc;
use crate::node::group_wf;
use crate::node::name_views;
use crate::node::slot_views;
use crate::node::Slot;
use crate::node::WidgetComponent;
use crate::node::WidgetEffectComponent;
use crate::node::WidgetNode;
use crate::node::WidgetNodeGroup;
use vstd::prelude::*;

verus! {

/// One call from the engine into a widget function, an effect function or the
/// backend. The number is the identity token of the function concerned.
pub enum Event {
    /// The hook state of a new component instance was allocated.
    Init(u64),
    /// A widget function was invoked.
    Call(u64),
    /// The hook state of a component instance was released.
    Deinit(u64),
    /// The hook state of a new effect registration was allocated.
    EffectInit(u64),
    /// An effect ran.
    EffectRun(u64),
    /// A cleanup action ran.
    Cleanup,
    /// The backend was told that a pass is over.
    MarkUpdate,
}

/// One piece of work deferred to the end of a pass.
///
/// The list of deferred work is in the order in which the traversal came
/// upon it, and it is run in that order.
pub enum Deferred<B: UiBackend> {
    /// The last cleanup action of an effect that was unmounted.
    Cleanup(B::Cleanup),
    /// The run of the effect that holds the position of this entry in the
    /// list as its ticket: the cleanup action of its previous run, then the
    /// effect itself.
    Run,
}

/// The mounted tree as a mathematical value.
#[allow(inconsistent_fields)]
#[verifier::reject_recursive_types(B)]
pub enum Tree<B: UiBackend> {
    /// Nothing is mounted here.
    Empty,
    /// A component instance: the descriptor it came from, the mounted form of
    /// what its function last produced, its hook state, and the dependencies
    /// that the last call registered.
    Component {
        template: WidgetComponent<B>,
        result: Box<Tree<B>>,
        state: B::State,
        deps: Seq<B::Dep>,
    },
    /// An effect registration: the descriptor it came from, its hook state,
    /// the cleanup action of its last run, and, where a run is due at the end
    /// of the pass, the position of that run in the list of deferred work.
    Effect {
        template: WidgetEffectComponent<B>,
        state: B::State,
        cleanup: Option<B::Cleanup>,
        pending: Option<nat>,
    },
    /// A unit with its mounted children.
    Unit { unit: B::Unit, children: Box<Tree<B>> },
    /// A group: `names[i]` is the name of `named[i]`.
    Group {
        render_order: Seq<Slot>,
        ordered: Seq<Tree<B>>,
        names: Seq<Seq<char>>,
        named: Seq<Tree<B>>,
    },
}

/// The outcome of an operation on one tree.
#[verifier::reject_recursive_types(B)]
pub struct Step<B: UiBackend> {
    /// The tree afterwards.
    pub tree: Tree<B>,
    /// The host context afterwards.
    pub host: B::RunCtx,
    /// The work deferred to the end of the pass afterwards.
    pub queue: Seq<Deferred<B>>,
    /// The events the operation caused, in order.
    pub log: Seq<Event>,
}

/// The outcome of an operation on a sequence of trees.
#[verifier::reject_recursive_types(B)]
pub struct Steps<B: UiBackend> {
    /// The trees afterwards.
    pub trees: Seq<Tree<B>>,
    /// The host context afterwards.
    pub host: B::RunCtx,
    /// The work deferred to the end of the pass afterwards.
    pub queue: Seq<Deferred<B>>,
    /// The events the operation caused, in order.
    pub log: Seq<Event>,
}

/// The child that `key` names among the first `count` children, if any.
pub open spec fn named_child(names: Seq<Seq<char>>, count: nat, key: Seq<char>) -> Option<int> {
    match names.index_of_first(key) {
        Some(k) => if k < count {
            Some(k)
        } else {
            None
        },
        None => None,
    }
}

impl<B: UiBackend> Tree<B> {
    /// Whether every group in the tree meets the group invariant.
    pub open spec fn wf(self) -> bool
        decreases self,
    {
        match self {
            Tree::Empty => true,
            Tree::Component { template, result, state, deps } => result.wf(),
            Tree::Effect { .. } => true,
            Tree::Unit { unit, children } => children.wf(),
            Tree::Group { render_order, ordered, names, named } => {
                &&& group_wf(render_order, ordered.len(), names, named.len())
                &&& forall|i: int| 0 <= i < ordered.len() ==> (#[trigger] ordered[i]).wf()
                &&& forall|i: int| 0 <= i < named.len() ==> (#[trigger] named[i]).wf()
            },
        }
    }

    /// The number of component instances in the tree.
    pub open spec fn instances(self) -> nat
        decreases self, 0nat,
    {
        match self {
            Tree::Empty => 0,
            Tree::Component { template, result, state, deps } => 1 + result.instances(),
            Tree::Effect { .. } => 0,
            Tree::Unit { unit, children } => children.instances(),
            Tree::Group { render_order, ordered, names, named } => Self::instances_all(
                named,
                named.len(),
            ) + Self::instances_all(ordered, ordered.len()),
        }
    }

    /// The number of component instances in the first `n` trees of `trees`.
    pub open spec fn instances_all(trees: Seq<Tree<B>>, n: nat) -> nat
        decreases trees, n,
    {
        if n == 0 || n > trees.len() {
            0
        } else {
            Self::instances_all(trees, (n - 1) as nat) + trees[n - 1].instances()
        }
    }
}

impl<B: UiBackend> Tree<B> where B::WidgetFn: DynWidgetFunc<B>, B::EffectFn: DynEffectFunc<B> {
    /// Mounting `node`: hook state is allocated for every component and
    /// effect, every component's function is called once, and what it
    /// produces is mounted in its place. The first run of an effect joins the
    /// deferred work.
    pub open spec fn mount(node: WidgetNode<B>, host: B::RunCtx, queue: Seq<Deferred<B>>) -> Step<B>
        decreases node.rank(), node, 0nat,
        when WidgetNode::<B>::well_founded()
    {
        match node {
            WidgetNode::Empty => Step { tree: Tree::Empty, host, queue, log: seq![] },
            WidgetNode::Component(c) => {
                let (fresh, created) = c.func.init_spec(host);
                let (produced, state, deps) = c.func.call_spec(created, *c.props, fresh);
                let inner = Self::mount(produced, created, queue);
                Step {
                    tree: Tree::Component {
                        template: c,
                        result: Box::new(inner.tree),
                        state,
                        deps,
                    },
                    host: inner.host,
                    queue: inner.queue,
                    log: seq![Event::Init(c.func.identity()), Event::Call(c.func.identity())]
                        + inner.log,
                }
            },
            WidgetNode::Effect(e) => {
                let (fresh, created) = e.func.init_spec(host);
                Step {
                    tree: Tree::Effect {
                        template: e,
                        state: fresh,
                        cleanup: None,
                        pending: Some(queue.len()),
                    },
                    host: created,
                    queue: queue.push(Deferred::Run),
                    log: seq![Event::EffectInit(e.func.identity())],
                }
            },
            WidgetNode::Unit { unit, children } => {
                let inner = Self::mount(*children, host, queue);
                Step {
                    tree: Tree::Unit { unit: *unit, children: Box::new(inner.tree) },
                    host: inner.host,
                    queue: inner.queue,
                    log: inner.log,
                }
            },
            WidgetNode::Group(g) => {
                let named = Self::mount_all(g.named@, g.named@.len(), host, queue);
                let ordered = Self::mount_all(
                    g.ordered@,
                    g.ordered@.len(),
                    named.host,
                    named.queue,
                );
                Step {
                    tree: Tree::Group {
                        render_order: slot_views(g.render_order@),
                        ordered: ordered.trees,
                        names: name_views(g.names@),
                        named: named.trees,
                    },
                    host: ordered.host,
                    queue: ordered.queue,
                    log: named.log + ordered.log,
                }
            },
        }
    }

    /// Mounting the first `n` descriptors of `nodes`, in order.
    pub open spec fn mount_all(
        nodes: Seq<WidgetNode<B>>,
        n: nat,
        host: B::RunCtx,
        queue: Seq<Deferred<B>>,
    ) -> Steps<B>
        decreases WidgetNode::<B>::rank_all(nodes, nodes.len()), nodes, n,
        when WidgetNode::<B>::well_founded()
    {
        if n == 0 || n > nodes.len() {
            Steps { trees: seq![], host, queue, log: seq![] }
        } else {
            let before = Self::mount_all(nodes, (n - 1) as nat, host, queue);
            proof {
                WidgetNode::<B>::lemma_rank_all(nodes, nodes.len(), n - 1);
            }
            let last = Self::mount(nodes[n - 1], before.host, before.queue);
            Steps {
                trees: before.trees.push(last.tree),
                host: last.host,
                queue: last.queue,
                log: before.log + last.log,
            }
        }
    }

    /// Unmounting the tree: children first, then the node itself. A
    /// component's hook state is released after its result is gone. The
    /// cleanup action of an effect joins the deferred work; a run of it that
    /// was still due finds no effect and does nothing.
    pub open spec fn unmount(self, host: B::RunCtx, queue: Seq<Deferred<B>>) -> Step<B>
        decreases self, 0nat,
    {
        match self {
            Tree::Empty => Step { tree: Tree::Empty, host, queue, log: seq![] },
            Tree::Component { template, result, state, deps } => {
                let inner = result.unmount(host, queue);
                Step {
                    tree: Tree::Empty,
                    host: template.func.deinit_spec(inner.host, state),
                    queue: inner.queue,
                    log: inner.log.push(Event::Deinit(template.func.identity())),
                }
            },
            Tree::Effect { template, state, cleanup, pending } => Step {
                tree: Tree::Empty,
                host,
                queue: match cleanup {
                    Some(action) => queue.push(Deferred::Cleanup(action)),
                    None => queue,
                },
                log: seq![],
            },
            Tree::Unit { unit, children } => children.unmount(host, queue),
            Tree::Group { render_order, ordered, names, named } => {
                let first = Self::unmount_all(named, named.len(), host, queue);
                let second = Self::unmount_all(ordered, ordered.len(), first.host, first.queue);
                Step {
                    tree: Tree::Empty,
                    host: second.host,
                    queue: second.queue,
                    log: first.log + second.log,
                }
            },
        }
    }

    /// Unmounting the first `n` trees of `trees`, in order. None is left.
    pub open spec fn unmount_all(
        trees: Seq<Tree<B>>,
        n: nat,
        host: B::RunCtx,
        queue: Seq<Deferred<B>>,
    ) -> Steps<B>
        decreases trees, n,
    {
        if n == 0 || n > trees.len() {
            Steps { trees: seq![], host, queue, log: seq![] }
        } else {
            let before = Self::unmount_all(trees, (n - 1) as nat, host, queue);
            let last = trees[n - 1].unmount(before.host, before.queue);
            Steps { trees: seq![], host: last.host, queue: last.queue, log: before.log + last.log }
        }
    }

    /// Whether an instance is out of date: a hook parameter reports a change,
    /// or a dependency that its last call registered does.
    pub open spec fn stale(
        template: WidgetComponent<B>,
        state: B::State,
        deps: Seq<B::Dep>,
        host: B::RunCtx,
    ) -> bool {
        template.func.needs_recalc_spec(host, state) || exists|i: int|
            0 <= i < deps.len() && B::dep_changed_spec(host, #[trigger] deps[i])
    }

    /// Replacing the tree by the mounted form of `node`: the old tree is
    /// unmounted before anything of the new one is mounted.
    pub open spec fn replace(
        self,
        node: WidgetNode<B>,
        host: B::RunCtx,
        queue: Seq<Deferred<B>>,
    ) -> Step<B> {
        let gone = self.unmount(host, queue);
        let fresh = Self::mount(node, gone.host, gone.queue);
        Step { tree: fresh.tree, host: fresh.host, queue: fresh.queue, log: gone.log + fresh.log }
    }

    /// Calling the function of the instance `template` again and bringing the
    /// mounted result in line with what it produced. The dependencies of the
    /// previous call are forgotten; those of this call take their place.
    pub open spec fn recompute(
        template: WidgetComponent<B>,
        result: Tree<B>,
        state: B::State,
        host: B::RunCtx,
        queue: Seq<Deferred<B>>,
    ) -> Step<B>
        decreases template.func.rank(*template.props) + 1, 0nat, template, 0nat,
        when WidgetNode::<B>::well_founded()
    {
        let (produced, after, deps) = template.func.call_spec(host, *template.props, state);
        let inner = result.diff(produced, host, queue);
        Step {
            tree: Tree::Component { template, result: Box::new(inner.tree), state: after, deps },
            host: inner.host,
            queue: inner.queue,
            log: seq![Event::Call(template.func.identity())] + inner.log,
        }
    }

    /// Bringing the tree in line with `node`.
    ///
    /// A component or an effect is patched in place where the function
    /// identities agree: it keeps its function and its hook state and adopts
    /// the new properties; the component is recomputed, a run of the effect
    /// joins the deferred work. A unit takes the new unit value and its children are
    /// compared in turn. A group is compared child by child. In every other
    /// case the tree is replaced.
    pub open spec fn diff(self, node: WidgetNode<B>, host: B::RunCtx, queue: Seq<Deferred<B>>) -> Step<
        B,
    >
        decreases node.rank(), 1nat, node, 0nat,
        when WidgetNode::<B>::well_founded()
    {
        match node {
            WidgetNode::Empty => self.replace(node, host, queue),
            WidgetNode::Component(c) => match self {
                Tree::Component { template, result, state, deps } => if template.func.identity()
                    == c.func.identity() {
                    Self::recompute(
                        WidgetComponent { func: template.func, props: c.props },
                        *result,
                        state,
                        host,
                        queue,
                    )
                } else {
                    self.replace(node, host, queue)
                },
                _ => self.replace(node, host, queue),
            },
            WidgetNode::Effect(e) => match self {
                Tree::Effect { template, state, cleanup, pending } => if template.func.identity()
                    == e.func.identity() {
                    Step {
                        tree: Tree::Effect {
                            template: WidgetEffectComponent { func: template.func, props: e.props },
                            state,
                            cleanup,
                            pending: Some(queue.len()),
                        },
                        host,
                        queue: queue.push(Deferred::Run),
                        log: seq![],
                    }
                } else {
                    self.replace(node, host, queue)
                },
                _ => self.replace(node, host, queue),
            },
            WidgetNode::Unit { unit, children } => match self {
                Tree::Unit { unit: previous, children: mounted } => {
                    let inner = mounted.diff(*children, host, queue);
                    Step {
                        tree: Tree::Unit { unit: *unit, children: Box::new(inner.tree) },
                        host: inner.host,
                        queue: inner.queue,
                        log: inner.log,
                    }
                },
                _ => self.replace(node, host, queue),
            },
            WidgetNode::Group(g) => match self {
                Tree::Group { render_order, ordered, names, named } => Self::diff_group(
                    ordered,
                    names,
                    named,
                    g,
                    host,
                    queue,
                ),
                _ => self.replace(node, host, queue),
            },
        }
    }

    /// Bringing a mounted group in line with the descriptor `g`.
    ///
    /// Positional children beyond the new count are unmounted; the others are
    /// compared by position; positions that are new are mounted. Then each
    /// named child, in mounted order, is compared with the descriptor of its
    /// name, or unmounted where the name is gone; names that are new are
    /// mounted behind them. The new render order is adopted as it is.
    pub open spec fn diff_group(
        ordered: Seq<Tree<B>>,
        names: Seq<Seq<char>>,
        named: Seq<Tree<B>>,
        g: WidgetNodeGroup<B>,
        host: B::RunCtx,
        queue: Seq<Deferred<B>>,
    ) -> Step<B>
        decreases WidgetNode::Group(g).rank(), 1nat, g, 0nat,
        when WidgetNode::<B>::well_founded()
    {
        let keep = if ordered.len() <= g.ordered@.len() {
            ordered.len()
        } else {
            g.ordered@.len()
        };
        let extra = ordered.subrange(keep as int, ordered.len() as int);
        let dropped = Self::unmount_all(extra, extra.len(), host, queue);
        let kept = Self::diff_all(
            ordered.subrange(0, keep as int),
            g.ordered@,
            keep,
            dropped.host,
            dropped.queue,
        );
        let added = Self::mount_all(
            g.ordered@.subrange(keep as int, g.ordered@.len() as int),
            (g.ordered@.len() - keep) as nat,
            kept.host,
            kept.queue,
        );
        let known = Self::diff_named(
            names,
            named,
            name_views(g.names@),
            g.named@,
            named.len(),
            added.host,
            added.queue,
        );
        let fresh = Self::mount_missing(
            names,
            named.len(),
            name_views(g.names@),
            g.named@,
            g.named@.len(),
            known.host,
            known.queue,
        );
        Step {
            tree: Tree::Group {
                render_order: slot_views(g.render_order@),
                ordered: kept.trees + added.trees,
                names: kept_names(names, named.len(), name_views(g.names@), g.named@.len(), named.len())
                    + missing_names(names, named.len(), name_views(g.names@), g.named@.len()),
                named: known.trees + fresh.trees,
            },
            host: fresh.host,
            queue: fresh.queue,
            log: dropped.log + kept.log + added.log + known.log + fresh.log,
        }
    }

    /// Comparing the first `n` trees of `trees` with the descriptors at the
    /// same positions of `nodes`.
    pub open spec fn diff_all(
        trees: Seq<Tree<B>>,
        nodes: Seq<WidgetNode<B>>,
        n: nat,
        host: B::RunCtx,
        queue: Seq<Deferred<B>>,
    ) -> Steps<B>
        decreases WidgetNode::<B>::rank_all(nodes, nodes.len()), 1nat, nodes, n,
        when WidgetNode::<B>::well_founded()
    {
        if n == 0 || n > nodes.len() || n > trees.len() {
            Steps { trees: seq![], host, queue, log: seq![] }
        } else {
            let before = Self::diff_all(trees, nodes, (n - 1) as nat, host, queue);
            proof {
                WidgetNode::<B>::lemma_rank_all(nodes, nodes.len(), n - 1);
            }
            let last = trees[n - 1].diff(nodes[n - 1], before.host, before.queue);
            Steps {
                trees: before.trees.push(last.tree),
                host: last.host,
                queue: last.queue,
                log: before.log + last.log,
            }
        }
    }

    /// Going through the first `n` named children in mounted order: a child
    /// whose name the new group has is compared with the descriptor of that
    /// name and stays; any other is unmounted and leaves.
    pub open spec fn diff_named(
        names: Seq<Seq<char>>,
        named: Seq<Tree<B>>,
        new_names: Seq<Seq<char>>,
        nodes: Seq<WidgetNode<B>>,
        n: nat,
        host: B::RunCtx,
        queue: Seq<Deferred<B>>,
    ) -> Steps<B>
        decreases WidgetNode::<B>::rank_all(nodes, nodes.len()), 1nat, nodes, n,
        when WidgetNode::<B>::well_founded()
    {
        if n == 0 || n > named.len() {
            Steps { trees: seq![], host, queue, log: seq![] }
        } else {
            let before = Self::diff_named(
                names,
                named,
                new_names,
                nodes,
                (n - 1) as nat,
                host,
                queue,
            );
            match counterpart(names, new_names, nodes.len(), n - 1) {
                Some(k) => {
                    proof {
                        new_names.index_of_first_ensures(names[n - 1]);
                        WidgetNode::<B>::lemma_rank_all(nodes, nodes.len(), k);
                    }
                    let last = named[n - 1].diff(nodes[k], before.host, before.queue);
                    Steps {
                        trees: before.trees.push(last.tree),
                        host: last.host,
                        queue: last.queue,
                        log: before.log + last.log,
                    }
                },
                None => {
                    let gone = named[n - 1].unmount(before.host, before.queue);
                    Steps {
                        trees: before.trees,
                        host: gone.host,
                        queue: gone.queue,
                        log: before.log + gone.log,
                    }
                },
            }
        }
    }

    /// Going through the first `n` named descriptors of the new group: one
    /// whose name no mounted child has is mounted.
    pub open spec fn mount_missing(
        names: Seq<Seq<char>>,
        count: nat,
        new_names: Seq<Seq<char>>,
        nodes: Seq<WidgetNode<B>>,
        n: nat,
        host: B::RunCtx,
        queue: Seq<Deferred<B>>,
    ) -> Steps<B>
        decreases n,
    {
        if n == 0 || n > nodes.len() {
            Steps { trees: seq![], host, queue, log: seq![] }
        } else {
            let before = Self::mount_missing(
                names,
                count,
                new_names,
                nodes,
                (n - 1) as nat,
                host,
                queue,
            );
            if is_missing(names, count, new_names, n - 1) {
                let last = Self::mount(nodes[n - 1], before.host, before.queue);
                Steps {
                    trees: before.trees.push(last.tree),
                    host: last.host,
                    queue: last.queue,
                    log: before.log + last.log,
                }
            } else {
                before
            }
        }
    }

    /// One traversal of the tree between reconciliations.
    ///
    /// A component that is out of date is recomputed; any other hands the
    /// traversal on to its result. A run of an effect whose dependencies
    /// report a change joins the deferred work. Nothing else changes.
    pub open spec fn process(self, host: B::RunCtx, queue: Seq<Deferred<B>>) -> Step<B>
        decreases self, 0nat,
    {
        match self {
            Tree::Empty => Step { tree: self, host, queue, log: seq![] },
            Tree::Component { template, result, state, deps } => if Self::stale(
                template,
                state,
                deps,
                host,
            ) {
                Self::recompute(template, *result, state, host, queue)
            } else {
                let inner = result.process(host, queue);
                Step {
                    tree: Tree::Component { template, result: Box::new(inner.tree), state, deps },
                    host: inner.host,
                    queue: inner.queue,
                    log: inner.log,
                }
            },
            Tree::Effect { template, state, cleanup, pending } => if template.func.needs_recalc_spec(
                host,
                state,
            ) {
                Step {
                    tree: Tree::Effect { template, state, cleanup, pending: Some(queue.len()) },
                    host,
                    queue: queue.push(Deferred::Run),
                    log: seq![],
                }
            } else {
                Step { tree: self, host, queue, log: seq![] }
            },
            Tree::Unit { unit, children } => {
                let inner = children.process(host, queue);
                Step {
                    tree: Tree::Unit { unit, children: Box::new(inner.tree) },
                    host: inner.host,
                    queue: inner.queue,
                    log: inner.log,
                }
            },
            Tree::Group { render_order, ordered, names, named } => {
                let first = Self::process_all(named, named.len(), host, queue);
                let second = Self::process_all(ordered, ordered.len(), first.host, first.queue);
                Step {
                    tree: Tree::Group {
                        render_order,
                        ordered: second.trees,
                        names,
                        named: first.trees,
                    },
                    host: second.host,
                    queue: second.queue,
                    log: first.log + second.log,
                }
            },
        }
    }

    /// The traversal of the first `n` trees of `trees`, in order.
    pub open spec fn process_all(
        trees: Seq<Tree<B>>,
        n: nat,
        host: B::RunCtx,
        queue: Seq<Deferred<B>>,
    ) -> Steps<B>
        decreases trees, n,
    {
        if n == 0 || n > trees.len() {
            Steps { trees: seq![], host, queue, log: seq![] }
        } else {
            let before = Self::process_all(trees, (n - 1) as nat, host, queue);
            let last = trees[n - 1].process(before.host, before.queue);
            Steps {
                trees: before.trees.push(last.tree),
                host: last.host,
                queue: last.queue,
                log: before.log + last.log,
            }
        }
    }

    /// Running the effects that hold `ticket`, in tree order.
    ///
    /// For each, the cleanup action of its previous run is run first, then
    /// the effect itself, whose cleanup action is kept for the next time.
    /// Effects that hold another ticket, or none, are left as they are.
    pub open spec fn run_due(self, ticket: nat, host: B::RunCtx) -> Step<B>
        decreases self, 0nat,
    {
        match self {
            Tree::Empty => Step { tree: self, host, queue: seq![], log: seq![] },
            Tree::Component { template, result, state, deps } => {
                let inner = result.run_due(ticket, host);
                Step {
                    tree: Tree::Component { template, result: Box::new(inner.tree), state, deps },
                    host: inner.host,
                    queue: seq![],
                    log: inner.log,
                }
            },
            Tree::Effect { template, state, cleanup, pending } => if pending == Some(ticket) {
                let cleaned = match cleanup {
                    Some(action) => B::cleanup_spec(host, action),
                    None => host,
                };
                let (action, after, kept) = template.func.call_spec(cleaned, *template.props, state);
                Step {
                    tree: Tree::Effect {
                        template,
                        state: kept,
                        cleanup: Some(action),
                        pending: None,
                    },
                    host: after,
                    queue: seq![],
                    log: match cleanup {
                        Some(_) => seq![Event::Cleanup, Event::EffectRun(template.func.identity())],
                        None => seq![Event::EffectRun(template.func.identity())],
                    },
                }
            } else {
                Step { tree: self, host, queue: seq![], log: seq![] }
            },
            Tree::Unit { unit, children } => {
                let inner = children.run_due(ticket, host);
                Step {
                    tree: Tree::Unit { unit, children: Box::new(inner.tree) },
                    host: inner.host,
                    queue: seq![],
                    log: inner.log,
                }
            },
            Tree::Group { render_order, ordered, names, named } => {
                let first = Self::run_due_all(named, named.len(), ticket, host);
                let second = Self::run_due_all(ordered, ordered.len(), ticket, first.host);
                Step {
                    tree: Tree::Group {
                        render_order,
                        ordered: second.trees,
                        names,
                        named: first.trees,
                    },
                    host: second.host,
                    queue: seq![],
                    log: first.log + second.log,
                }
            },
        }
    }

    /// Running the effects that hold `ticket` in the first `n` trees of
    /// `trees`, in order.
    pub open spec fn run_due_all(trees: Seq<Tree<B>>, n: nat, ticket: nat, host: B::RunCtx) -> Steps<
        B,
    >
        decreases trees, n,
    {
        if n == 0 || n > trees.len() {
            Steps { trees: seq![], host, queue: seq![], log: seq![] }
        } else {
            let before = Self::run_due_all(trees, (n - 1) as nat, ticket, host);
            let last = trees[n - 1].run_due(ticket, before.host);
            Steps {
                trees: before.trees.push(last.tree),
                host: last.host,
                queue: seq![],
                log: before.log + last.log,
            }
        }
    }

    /// Doing the first `n` pieces of the deferred work, in the order of the
    /// list: a cleanup action is run; a run is the run of the effect that
    /// holds its position as ticket.
    pub open spec fn flush_upto(self, host: B::RunCtx, queue: Seq<Deferred<B>>, n: nat) -> Step<B>
        decreases n,
    {
        if n == 0 || n > queue.len() {
            Step { tree: self, host, queue: seq![], log: seq![] }
        } else {
            let before = self.flush_upto(host, queue, (n - 1) as nat);
            match queue[n - 1] {
                Deferred::Cleanup(action) => Step {
                    tree: before.tree,
                    host: B::cleanup_spec(before.host, action),
                    queue: seq![],
                    log: before.log.push(Event::Cleanup),
                },
                Deferred::Run => {
                    let ran = before.tree.run_due((n - 1) as nat, before.host);
                    Step {
                        tree: ran.tree,
                        host: ran.host,
                        queue: seq![],
                        log: before.log + ran.log,
                    }
                },
            }
        }
    }

    /// The deferred work of a pass, done in the order in which the traversal
    /// came upon it. Nothing is deferred afterwards.
    pub open spec fn flush(self, host: B::RunCtx, queue: Seq<Deferred<B>>) -> Step<B> {
        self.flush_upto(host, queue, queue.len())
    }

    /// The deferred work that a pass from this state ends with.
    pub open spec fn deferred(self, host: B::RunCtx) -> Step<B> {
        let walked = self.process(host, seq![]);
        walked.tree.flush(B::mark_update_spec(walked.host), walked.queue)
    }

    /// One pass: the traversal, the notice to the backend, the deferred work.
    pub open spec fn pass(self, host: B::RunCtx) -> Step<B> {
        let walked = self.process(host, seq![]);
        let done = self.deferred(host);
        Step {
            tree: done.tree,
            host: done.host,
            queue: done.queue,
            log: walked.log.push(Event::MarkUpdate) + done.log,
        }
    }

    /// Whether the traversal of a pass from this state defers any work.
    pub open spec fn unsettled(self, host: B::RunCtx) -> bool {
        self.process(host, seq![]).queue.len() > 0
    }

    /// Passes repeated until one defers no work, `limit` at most.
    pub open spec fn settle(self, host: B::RunCtx, limit: nat) -> Step<B>
        decreases limit,
    {
        if limit == 0 {
            Step { tree: self, host, queue: seq![], log: seq![] }
        } else {
            let once = self.pass(host);
            if self.unsettled(host) {
                let rest = once.tree.settle(once.host, (limit - 1) as nat);
                Step { tree: rest.tree, host: rest.host, queue: seq![], log: once.log + rest.log }
            } else {
                once
            }
        }
    }

    /// Whether passes from this state come to rest within `limit` of them.
    pub open spec fn settles_within(self, host: B::RunCtx, limit: nat) -> bool
        decreases limit,
    {
        limit > 0 && (!self.unsettled(host) || self.pass(host).tree.settles_within(
            self.pass(host).host,
            (limit - 1) as nat,
        ))
    }

    /// The start of an application: the root is mounted, the first runs of
    /// its effects take place, the backend is told, and passes follow until
    /// one defers no work, `limit` at most.
    pub open spec fn start(node: WidgetNode<B>, host: B::RunCtx, limit: nat) -> Step<B> {
        let mounted = Self::mount(node, host, seq![]);
        let first = mounted.tree.flush(mounted.host, mounted.queue);
        let told = B::mark_update_spec(first.host);
        let rest = first.tree.settle(told, limit);
        Step {
            tree: rest.tree,
            host: rest.host,
            queue: seq![],
            log: mounted.log + first.log.push(Event::MarkUpdate) + rest.log,
        }
    }
}

/// The descriptor that the `i`-th mounted name has in a new group of
/// `count` named children, if any.
pub open spec fn counterpart(
    names: Seq<Seq<char>>,
    new_names: Seq<Seq<char>>,
    count: nat,
    i: int,
) -> Option<int> {
    if 0 <= i < names.len() {
        named_child(new_names, count, names[i])
    } else {
        None
    }
}

/// Whether the `i`-th name of a new group is borne by none of `count`
/// mounted children.
pub open spec fn is_missing(
    names: Seq<Seq<char>>,
    count: nat,
    new_names: Seq<Seq<char>>,
    i: int,
) -> bool {
    0 <= i < new_names.len() && named_child(names, count, new_names[i]).is_none()
}

/// The names, among the first `n` mounted ones, that the new group has too.
pub open spec fn kept_names(
    names: Seq<Seq<char>>,
    count: nat,
    new_names: Seq<Seq<char>>,
    new_count: nat,
    n: nat,
) -> Seq<Seq<char>>
    decreases n,
{
    if n == 0 || n > count {
        seq![]
    } else {
        let before = kept_names(names, count, new_names, new_count, (n - 1) as nat);
        if counterpart(names, new_names, new_count, n - 1).is_some() {
            before.push(names[n - 1])
        } else {
            before
        }
    }
}

/// The names, among the first `n` of a new group, that no mounted child has.
pub open spec fn missing_names_upto(
    names: Seq<Seq<char>>,
    count: nat,
    new_names: Seq<Seq<char>>,
    n: nat,
) -> Seq<Seq<char>>
    decreases n,
{
    if n == 0 {
        seq![]
    } else {
        let before = missing_names_upto(names, count, new_names, (n - 1) as nat);
        if is_missing(names, count, new_names, n - 1) {
            before.push(new_names[n - 1])
        } else {
            before
        }
    }
}

/// The names of a new group of `new_count` named children that no mounted
/// child has.
pub open spec fn missing_names(
    names: Seq<Seq<char>>,
    count: nat,
    new_names: Seq<Seq<char>>,
    new_count: nat,
) -> Seq<Seq<char>> {
    missing_names_upto(names, count, new_names, new_count)
}

} // verus!
