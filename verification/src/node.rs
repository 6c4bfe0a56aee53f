//! Descriptors: the immutable description of what should be rendered.
//!
//! A widget function produces a fresh descriptor tree on every invocation.
//! Descriptors are cheap to share: functions, properties, units and the
//! children of a unit sit behind reference-counted handles.
use crate::backend::UiBackend;
use std::rc::Rc;
use vstd::prelude::*;

verus! {

/// A reference to one child of a group: by position or by name.
pub enum IntOrString {
    Int(usize),
    String(String),
}

/// The mathematical value of an [`IntOrString`].
pub enum Slot {
    Index(int),
    Name(Seq<char>),
}

impl View for IntOrString {
    type V = Slot;

    open spec fn view(&self) -> Slot {
        match self {
            IntOrString::Int(i) => Slot::Index(*i as int),
            IntOrString::String(s) => Slot::Name(s@),
        }
    }
}

impl Clone for IntOrString {
    fn clone(&self) -> (r: Self)
        ensures
            r == *self,
    {
        match self {
            IntOrString::Int(i) => IntOrString::Int(*i),
            IntOrString::String(s) => IntOrString::String(s.clone()),
        }
    }
}

/// The views of a sequence of names.
pub open spec fn name_views(names: Seq<String>) -> Seq<Seq<char>> {
    Seq::new(names.len(), |i: int| names[i]@)
}

/// The views of a render order.
pub open spec fn slot_views(order: Seq<IntOrString>) -> Seq<Slot> {
    Seq::new(order.len(), |i: int| order[i]@)
}

/// No two entries of `s` are equal.
pub open spec fn distinct<T>(s: Seq<T>) -> bool {
    forall|i: int, j: int| 0 <= i < j < s.len() ==> s[i] != s[j]
}

/// `slot` refers to one of `ordered` positional children or to one of `names`.
pub open spec fn slot_in_range(slot: Slot, ordered: nat, names: Seq<Seq<char>>) -> bool {
    match slot {
        Slot::Index(i) => 0 <= i < ordered,
        Slot::Name(s) => names.contains(s),
    }
}

/// The invariant of a group, over its mathematical parts: names are unique and
/// stand beside their children one for one, and the render order refers to
/// every child once and to nothing else.
pub open spec fn group_wf(order: Seq<Slot>, ordered: nat, names: Seq<Seq<char>>, named: nat) -> bool {
    &&& names.len() == named
    &&& distinct(names)
    &&& distinct(order)
    &&& forall|k: int| 0 <= k < order.len() ==> slot_in_range(#[trigger] order[k], ordered, names)
    &&& forall|i: int| 0 <= i < ordered ==> #[trigger] order.contains(Slot::Index(i))
    &&& forall|j: int| 0 <= j < names.len() ==> order.contains(Slot::Name(#[trigger] names[j]))
}

/// The position of the first name in `names` whose view is `key`.
pub fn find_name(names: &Vec<String>, key: &String) -> (r: Option<usize>)
    ensures
        match r {
            Some(i) => name_views(names@).index_of_first(key@) == Some(i as int),
            None => name_views(names@).index_of_first(key@).is_none(),
        },
{
    let ghost views = name_views(names@);
    let mut i: usize = 0;
    while i < names.len()
        invariant
            i <= names.len(),
            views == name_views(names@),
            forall|j: int| 0 <= j < i ==> views[j] != key@,
        decreases names.len() - i,
    {
        if names[i] == *key {
            proof {
                views.index_of_first_ensures(key@);
                assert(views[i as int] == key@);
            }
            return Some(i);
        }
        i += 1;
    }
    proof {
        views.index_of_first_ensures(key@);
    }
    None
}

/// A deferred call of a widget function with its properties.
#[verifier::reject_recursive_types(B)]
pub struct WidgetComponent<B: UiBackend> {
    pub func: Rc<B::WidgetFn>,
    pub props: Rc<B::Props>,
}

impl<B: UiBackend> WidgetComponent<B> {
    /// The properties behind the handle.
    pub open spec fn spec_props(self) -> B::Props {
        *self.props
    }
}

impl<B: UiBackend> Clone for WidgetComponent<B> {
    fn clone(&self) -> (r: Self)
        ensures
            r == *self,
    {
        WidgetComponent { func: self.func.clone(), props: self.props.clone() }
    }
}

/// A deferred registration of an effect function with its properties.
#[verifier::reject_recursive_types(B)]
pub struct WidgetEffectComponent<B: UiBackend> {
    pub func: Rc<B::EffectFn>,
    pub props: Rc<B::Props>,
}

impl<B: UiBackend> WidgetEffectComponent<B> {
    /// The properties behind the handle.
    pub open spec fn spec_props(self) -> B::Props {
        *self.props
    }
}

impl<B: UiBackend> Clone for WidgetEffectComponent<B> {
    fn clone(&self) -> (r: Self)
        ensures
            r == *self,
    {
        WidgetEffectComponent { func: self.func.clone(), props: self.props.clone() }
    }
}

/// One node of a descriptor tree.
#[verifier::reject_recursive_types(B)]
pub enum WidgetNode<B: UiBackend> {
    /// Renders nothing.
    Empty,
    /// A widget function to call; its result takes this node's place.
    Component(WidgetComponent<B>),
    /// A side effect to register; never visible.
    Effect(WidgetEffectComponent<B>),
    /// One renderable unit with its children.
    Unit { unit: Rc<B::Unit>, children: Rc<WidgetNode<B>> },
    /// Positional and named children, rendered in `render_order`.
    Group(WidgetNodeGroup<B>),
}

/// A composite of positional and named children.
///
/// `names[i]` is the name of `named[i]`. `render_order` is the sequence in
/// which the children are rendered and compared.
#[verifier::reject_recursive_types(B)]
pub struct WidgetNodeGroup<B: UiBackend> {
    pub render_order: Vec<IntOrString>,
    pub ordered: Vec<WidgetNode<B>>,
    pub names: Vec<String>,
    pub named: Vec<WidgetNode<B>>,
}

impl<B: UiBackend> WidgetNodeGroup<B> {
    /// Whether this group itself meets the group invariant.
    pub open spec fn wf(self) -> bool {
        group_wf(
            slot_views(self.render_order@),
            self.ordered@.len(),
            name_views(self.names@),
            self.named@.len(),
        )
    }

    /// Whether a child is registered under `name`.
    pub open spec fn spec_has_name(self, name: Seq<char>) -> bool {
        name_views(self.names@).contains(name)
    }

    /// A group with one positional child.
    pub fn single(node: WidgetNode<B>) -> (this: Self)
        ensures
            this.ordered@ == seq![node],
            slot_views(this.render_order@) == seq![Slot::Index(0)],
            this.names@.len() == 0,
            this.named@.len() == 0,
            this.wf(),
    {
        let mut this = Self::default();
        this.push(node);
        assert(this.ordered@ =~= seq![node]);
        assert(slot_views(this.render_order@) =~= seq![Slot::Index(0)]);
        this
    }

    /// Appends a positional child, rendered after everything pushed so far.
    pub fn push(&mut self, node: WidgetNode<B>)
        ensures
            final(self).ordered@ == old(self).ordered@.push(node),
            slot_views(final(self).render_order@) == slot_views(old(self).render_order@).push(
                Slot::Index(old(self).ordered@.len() as int),
            ),
            final(self).names@ == old(self).names@,
            final(self).named@ == old(self).named@,
            old(self).wf() ==> final(self).wf(),
    {
        let ghost before = slot_views(self.render_order@);
        let index = self.ordered.len();
        self.render_order.push(IntOrString::Int(index));
        self.ordered.push(node);
        proof {
            let after = slot_views(self.render_order@);
            assert(after =~= before.push(Slot::Index(index as int)));
            if old(self).wf() {
                assert forall|k: int| 0 <= k < after.len() implies slot_in_range(
                    #[trigger] after[k],
                    self.ordered@.len(),
                    name_views(self.names@),
                ) by {
                    if k < before.len() {
                        assert(slot_in_range(
                            before[k],
                            old(self).ordered@.len(),
                            name_views(self.names@),
                        ));
                    }
                }
                assert forall|i: int, j: int| 0 <= i < j < after.len() implies after[i]
                    != after[j] by {
                    if j == before.len() {
                        assert(slot_in_range(
                            before[i],
                            old(self).ordered@.len(),
                            name_views(self.names@),
                        ));
                    }
                }
                assert forall|i: int| 0 <= i < self.ordered@.len() implies #[trigger] after.contains(
                    Slot::Index(i),
                ) by {
                    if i < index {
                        assert(before.contains(Slot::Index(i)));
                        let k = choose|k: int| 0 <= k < before.len() && before[k] == Slot::Index(i);
                        assert(after[k] == Slot::Index(i));
                    } else {
                        assert(after[before.len() as int] == Slot::Index(i));
                    }
                }
                assert forall|j: int| 0 <= j < self.names@.len() implies after.contains(
                    Slot::Name(#[trigger] name_views(self.names@)[j]),
                ) by {
                    let s = name_views(self.names@)[j];
                    let k = choose|k: int| 0 <= k < before.len() && before[k] == Slot::Name(s);
                    assert(after[k] == Slot::Name(s));
                }
            }
        }
    }

    /// Whether a child is registered under `name`.
    pub fn has_name(&self, name: &String) -> (r: bool)
        ensures
            r == self.spec_has_name(name@),
    {
        let found = find_name(&self.names, name);
        proof {
            name_views(self.names@).index_of_first_ensures(name@);
        }
        found.is_some()
    }

    /// Appends a child under `name`, rendered after everything pushed so far.
    ///
    /// A name can be used once in a group.
    pub fn push_named(&mut self, node: WidgetNode<B>, name: String)
        requires
            !old(self).spec_has_name(name@),
        ensures
            final(self).named@ == old(self).named@.push(node),
            name_views(final(self).names@) == name_views(old(self).names@).push(name@),
            slot_views(final(self).render_order@) == slot_views(old(self).render_order@).push(
                Slot::Name(name@),
            ),
            final(self).ordered@ == old(self).ordered@,
            old(self).wf() ==> final(self).wf(),
    {
        let ghost before = slot_views(self.render_order@);
        let ghost names_before = name_views(self.names@);
        let key = name.clone();
        self.names.push(key);
        self.named.push(node);
        self.render_order.push(IntOrString::String(name));
        proof {
            let after = slot_views(self.render_order@);
            let names_after = name_views(self.names@);
            assert(after =~= before.push(Slot::Name(name@)));
            assert(names_after =~= names_before.push(name@));
            if old(self).wf() {
                assert forall|k: int| 0 <= k < after.len() implies slot_in_range(
                    #[trigger] after[k],
                    self.ordered@.len(),
                    names_after,
                ) by {
                    if k < before.len() {
                        assert(slot_in_range(before[k], self.ordered@.len(), names_before));
                        match before[k] {
                            Slot::Index(_) => {},
                            Slot::Name(s) => {
                                let w = choose|w: int|
                                    0 <= w < names_before.len() && names_before[w] == s;
                                assert(names_after[w] == s);
                            },
                        }
                    } else {
                        assert(names_after[names_before.len() as int] == name@);
                    }
                }
                assert forall|i: int, j: int| 0 <= i < j < after.len() implies after[i]
                    != after[j] by {
                    if j == before.len() {
                        assert(slot_in_range(before[i], self.ordered@.len(), names_before));
                    }
                }
                assert(distinct(names_after));
                assert forall|i: int| 0 <= i < self.ordered@.len() implies #[trigger] after.contains(
                    Slot::Index(i),
                ) by {
                    assert(before.contains(Slot::Index(i)));
                    let k = choose|k: int| 0 <= k < before.len() && before[k] == Slot::Index(i);
                    assert(after[k] == Slot::Index(i));
                }
                assert forall|j: int| 0 <= j < names_after.len() implies after.contains(
                    Slot::Name(#[trigger] names_after[j]),
                ) by {
                    let s = names_after[j];
                    if j < names_before.len() {
                        assert(names_before[j] == s);
                        let k = choose|k: int| 0 <= k < before.len() && before[k] == Slot::Name(s);
                        assert(after[k] == Slot::Name(s));
                    } else {
                        assert(after[before.len() as int] == Slot::Name(s));
                    }
                }
            }
        }
    }
}

impl<B: UiBackend> Default for WidgetNodeGroup<B> {
    /// The group without children.
    fn default() -> (this: Self)
        ensures
            this.render_order@.len() == 0,
            this.ordered@.len() == 0,
            this.names@.len() == 0,
            this.named@.len() == 0,
            this.wf(),
    {
        WidgetNodeGroup {
            render_order: Vec::new(),
            ordered: Vec::new(),
            names: Vec::new(),
            named: Vec::new(),
        }
    }
}

impl<B: UiBackend> WidgetNode<B> {
    /// The children of a unit; nothing for any other descriptor.
    pub open spec fn spec_children(self) -> WidgetNode<B> {
        match self {
            WidgetNode::Unit { unit, children } => *children,
            _ => WidgetNode::Empty,
        }
    }

    /// Whether every group in this tree meets the group invariant.
    pub open spec fn wf(self) -> bool
        decreases self,
    {
        match self {
            WidgetNode::Empty => true,
            WidgetNode::Component(_) => true,
            WidgetNode::Effect(_) => true,
            WidgetNode::Unit { unit, children } => children.wf(),
            WidgetNode::Group(g) => {
                &&& g.wf()
                &&& forall|i: int| 0 <= i < g.ordered@.len() ==> (#[trigger] g.ordered@[i]).wf()
                &&& forall|i: int| 0 <= i < g.named@.len() ==> (#[trigger] g.named@[i]).wf()
            },
        }
    }
}

impl<B: UiBackend> WidgetNode<B> {
    /// Whether the two descriptors describe the same tree: they are equal but
    /// for the vectors in which groups hold their children, which have the
    /// same contents.
    pub open spec fn same(self, other: Self) -> bool
        decreases self,
    {
        match self {
            WidgetNode::Empty => other is Empty,
            WidgetNode::Component(c) => other == self,
            WidgetNode::Effect(e) => other == self,
            WidgetNode::Unit { unit, children } => other == self,
            WidgetNode::Group(g) => other matches WidgetNode::Group(h) && {
                &&& g.render_order@ == h.render_order@
                &&& g.names@ == h.names@
                &&& g.ordered@.len() == h.ordered@.len()
                &&& g.named@.len() == h.named@.len()
                &&& forall|i: int|
                    0 <= i < g.ordered@.len() ==> (#[trigger] g.ordered@[i]).same(h.ordered@[i])
                &&& forall|i: int|
                    0 <= i < g.named@.len() ==> (#[trigger] g.named@[i]).same(h.named@[i])
            },
        }
    }

    /// A copy of each descriptor of `nodes`.
    pub fn clone_list(nodes: &Vec<WidgetNode<B>>) -> (r: Vec<WidgetNode<B>>)
        ensures
            r@.len() == nodes@.len(),
            forall|i: int| 0 <= i < nodes@.len() ==> (#[trigger] nodes@[i]).same(r@[i]),
        decreases nodes@, 0nat,
    {
        let mut out: Vec<WidgetNode<B>> = Vec::new();
        let mut i: usize = 0;
        while i < nodes.len()
            invariant
                i <= nodes.len(),
                out@.len() == i,
                forall|j: int| 0 <= j < i ==> (#[trigger] nodes@[j]).same(out@[j]),
            decreases nodes.len() - i,
        {
            let copy = nodes[i].clone();
            out.push(copy);
            i += 1;
        }
        out
    }
}

impl<B: UiBackend> Clone for WidgetNode<B> {
    /// A copy that shares everything behind handles with the descriptor it
    /// was made from.
    fn clone(&self) -> (r: Self)
        ensures
            self.same(r),
        decreases self, 1nat,
    {
        match self {
            WidgetNode::Empty => WidgetNode::Empty,
            WidgetNode::Component(c) => WidgetNode::Component(c.clone()),
            WidgetNode::Effect(c) => WidgetNode::Effect(c.clone()),
            WidgetNode::Unit { unit, children } => WidgetNode::Unit {
                unit: unit.clone(),
                children: children.clone(),
            },
            WidgetNode::Group(g) => WidgetNode::Group(g.clone()),
        }
    }
}

impl<B: UiBackend> Clone for WidgetNodeGroup<B> {
    /// A copy of the group and of the descriptors it holds.
    fn clone(&self) -> (r: Self)
        ensures
            WidgetNode::Group(*self).same(WidgetNode::Group(r)),
        decreases self, 1nat,
    {
        let render_order = self.render_order.clone();
        let names = self.names.clone();
        assert(render_order@ =~= self.render_order@);
        assert(names@ =~= self.names@);
        WidgetNodeGroup {
            render_order,
            ordered: WidgetNode::clone_list(&self.ordered),
            names,
            named: WidgetNode::clone_list(&self.named),
        }
    }
}

} // verus!
