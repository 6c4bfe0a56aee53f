//! The render projection: a read-only view of the units of the mounted tree.
use crate::backend::UiBackend;
use crate::model::named_child;
use crate::model::Tree;
use crate::mounted::MountedWidgetNode;
use crate::node::IntOrString;
use crate::node::Slot;
use crate::reconcile::find_child;
use vstd::prelude::*;

verus! {

/// One visible unit with the units below it.
#[verifier::reject_recursive_types(B)]
pub struct RenderNode<'a, B: UiBackend> {
    pub unit: &'a B::Unit,
    pub children: Vec<RenderNode<'a, B>>,
}

/// A [`RenderNode`] as a mathematical value.
#[verifier::reject_recursive_types(B)]
pub struct Rendered<B: UiBackend> {
    pub unit: B::Unit,
    pub children: Seq<Rendered<B>>,
}

impl<'a, B: UiBackend> RenderNode<'a, B> {
    /// The unit and the projections below it.
    pub open spec fn view(self) -> Rendered<B>
        decreases self, 0nat,
    {
        Rendered { unit: *self.unit, children: Self::views(self.children@) }
    }

    /// The views of a sequence of render nodes.
    pub open spec fn views(nodes: Seq<RenderNode<'a, B>>) -> Seq<Rendered<B>>
        decreases nodes, 1nat,
    {
        Seq::new(
            nodes.len(),
            |i: int|
                if 0 <= i < nodes.len() {
                    nodes[i].view()
                } else {
                    arbitrary()
                },
        )
    }
}

impl<B: UiBackend> Tree<B> {
    /// The number of entries in the render order of a group; zero for any
    /// other tree.
    pub open spec fn slots(self) -> nat {
        match self {
            Tree::Group { render_order, ordered, names, named } => render_order.len(),
            _ => 0,
        }
    }

    /// The visible units of the tree, in order.
    ///
    /// Components and effects are transparent: a component contributes what
    /// its result does, an effect nothing. A unit contributes itself, with
    /// the projection of its children below it. A group contributes what its
    /// children do, one after another in render order.
    pub open spec fn render(self) -> Seq<Rendered<B>>
        decreases self, self.slots() + 1,
    {
        match self {
            Tree::Empty => seq![],
            Tree::Component { template, result, state, deps } => result.render(),
            Tree::Effect { .. } => seq![],
            Tree::Unit { unit, children } => seq![Rendered { unit, children: children.render() }],
            Tree::Group { render_order, ordered, names, named } => self.render_slots(
                render_order.len(),
            ),
        }
    }

    /// What the child behind the `k`-th entry of the render order of a group
    /// contributes; nothing where the entry refers to no child.
    pub open spec fn render_slot(self, k: int) -> Seq<Rendered<B>>
        decreases self, 0nat,
    {
        match self {
            Tree::Group { render_order, ordered, names, named } => if 0 <= k < render_order.len() {
                match render_order[k] {
                    Slot::Index(i) => if 0 <= i < ordered.len() {
                        ordered[i].render()
                    } else {
                        seq![]
                    },
                    Slot::Name(s) => match named_child(names, named.len(), s) {
                        Some(j) => if 0 <= j < named.len() {
                            named[j].render()
                        } else {
                            seq![]
                        },
                        None => seq![],
                    },
                }
            } else {
                seq![]
            },
            _ => seq![],
        }
    }

    /// What the first `n` entries of the render order of a group contribute.
    pub open spec fn render_slots(self, n: nat) -> Seq<Rendered<B>>
        decreases self, n,
    {
        if n == 0 || n > self.slots() {
            seq![]
        } else {
            self.render_slots((n - 1) as nat) + self.render_slot(n - 1)
        }
    }
}

impl<B: UiBackend> MountedWidgetNode<B> {
    /// The visible units of the tree, in order. The tree is left untouched.
    pub fn render(&self) -> (r: Vec<RenderNode<'_, B>>)
        ensures
            RenderNode::views(r@) == self@.render(),
        decreases self,
    {
        match self {
            MountedWidgetNode::Empty => {
                let out: Vec<RenderNode<'_, B>> = Vec::new();
                assert(RenderNode::views(out@) =~= Seq::<Rendered<B>>::empty());
                out
            },
            MountedWidgetNode::Effect(_) => {
                let out: Vec<RenderNode<'_, B>> = Vec::new();
                assert(RenderNode::views(out@) =~= Seq::<Rendered<B>>::empty());
                out
            },
            MountedWidgetNode::Component(c) => c.result.render(),
            MountedWidgetNode::Unit { unit, children } => {
                let below = children.render();
                let node = RenderNode { unit: &**unit, children: below };
                let mut out: Vec<RenderNode<'_, B>> = Vec::new();
                out.push(node);
                assert(RenderNode::views(out@) =~= seq![node@]);
                out
            },
            MountedWidgetNode::Group(g) => {
                let ghost tree = self@;
                let mut out: Vec<RenderNode<'_, B>> = Vec::new();
                assert(RenderNode::views(out@) =~= Seq::<Rendered<B>>::empty());
                let mut k: usize = 0;
                while k < g.render_order.len()
                    invariant
                        k <= g.render_order@.len(),
                        *self == MountedWidgetNode::Group(*g),
                        tree == self@,
                        RenderNode::views(out@) == tree.render_slots(k as nat),
                    decreases g.render_order@.len() - k,
                {
                    let ghost before = RenderNode::views(out@);
                    proof {
                        assert(tree matches Tree::Group { render_order, ordered, names, named }
                            && render_order[k as int] == g.render_order@[k as int]@
                            && ordered == MountedWidgetNode::views(g.ordered@)
                            && named == MountedWidgetNode::views(g.named@)
                            && names == crate::node::name_views(g.names@));
                    }
                    match &g.render_order[k] {
                        IntOrString::Int(i) => {
                            if *i < g.ordered.len() {
                                let mut part = g.ordered[*i].render();
                                let ghost views = RenderNode::views(part@);
                                out.append(&mut part);
                                assert(RenderNode::views(out@) =~= before + views);
                                assert(tree.render_slot(k as int) == views);
                            } else {
                                assert(tree.render_slot(k as int) =~= Seq::<Rendered<B>>::empty());
                            }
                        },
                        IntOrString::String(s) => {
                            match find_child(&g.names, g.named.len(), s) {
                                Some(j) => {
                                    let mut part = g.named[j].render();
                                    let ghost views = RenderNode::views(part@);
                                    out.append(&mut part);
                                    assert(RenderNode::views(out@) =~= before + views);
                                    assert(tree.render_slot(k as int) == views);
                                },
                                None => {
                                    assert(tree.render_slot(k as int) =~= Seq::<Rendered<B>>::empty());
                                },
                            }
                        },
                    }
                    assert(RenderNode::views(out@) =~= before + tree.render_slot(k as int));
                    k += 1;
                }
                out
            },
        }
    }
}

} // verus!
