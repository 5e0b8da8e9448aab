//! The arena that owns every widget of a tree, with its derived state and
//! the upward merge that keeps each node's aggregated flags consistent.
//!
//! Nodes are only ever appended, so a parent always sits at a lower index
//! than its children. That order bounds every walk towards the root and lets
//! a subtree be found in one forward sweep.
use vstd::prelude::*;

use crate::properties::PropertyMap;
use crate::size::Size;

verus! {

/// The handle of a node: its index in the arena. Indices are never reused.
#[derive(Clone, Copy, Debug, PartialEq, Eq, Structural)]
pub struct WidgetId(pub usize);

/// Validity flags; a set flag means the matching pass has work to do.
#[derive(Clone, Copy, Debug, PartialEq, Eq, Structural)]
pub struct Flags {
    pub layout: bool,
    pub paint: bool,
    pub accessibility: bool,
    pub mutation: bool,
}

impl Flags {
    pub open spec fn or_spec(self, other: Flags) -> Flags {
        Flags {
            layout: self.layout || other.layout,
            paint: self.paint || other.paint,
            accessibility: self.accessibility || other.accessibility,
            mutation: self.mutation || other.mutation,
        }
    }

    pub open spec fn none_spec() -> Flags {
        Flags { layout: false, paint: false, accessibility: false, mutation: false }
    }

    pub open spec fn all_spec() -> Flags {
        Flags { layout: true, paint: true, accessibility: true, mutation: true }
    }

    /// No flag set.
    pub fn none() -> (r: Flags)
        ensures
            r == Flags::none_spec(),
    {
        Flags { layout: false, paint: false, accessibility: false, mutation: false }
    }

    /// Every flag set.
    pub fn all() -> (r: Flags)
        ensures
            r == Flags::all_spec(),
    {
        Flags { layout: true, paint: true, accessibility: true, mutation: true }
    }

    /// The union of two sets of flags.
    pub fn or(&self, other: &Flags) -> (r: Flags)
        ensures
            r == self.or_spec(*other),
    {
        Flags {
            layout: self.layout || other.layout,
            paint: self.paint || other.paint,
            accessibility: self.accessibility || other.accessibility,
            mutation: self.mutation || other.mutation,
        }
    }
}

/// The kinds of pass, each with its own validity flag.
#[derive(Clone, Copy, Debug, PartialEq, Eq, Structural)]
pub enum PassKind {
    Layout,
    Paint,
    Accessibility,
    Mutation,
}

impl PassKind {
    /// `flags` with this pass's flag cleared.
    pub open spec fn clear_spec(self, flags: Flags) -> Flags {
        match self {
            PassKind::Layout => Flags { layout: false, ..flags },
            PassKind::Paint => Flags { paint: false, ..flags },
            PassKind::Accessibility => Flags { accessibility: false, ..flags },
            PassKind::Mutation => Flags { mutation: false, ..flags },
        }
    }

    /// Whether this pass's flag is set in `flags`.
    pub open spec fn flag(self, flags: Flags) -> bool {
        match self {
            PassKind::Layout => flags.layout,
            PassKind::Paint => flags.paint,
            PassKind::Accessibility => flags.accessibility,
            PassKind::Mutation => flags.mutation,
        }
    }

    /// Clears this pass's flag.
    pub fn clear(self, flags: Flags) -> (r: Flags)
        ensures
            r == self.clear_spec(flags),
    {
        let mut r = flags;
        match self {
            PassKind::Layout => r.layout = false,
            PassKind::Paint => r.paint = false,
            PassKind::Accessibility => r.accessibility = false,
            PassKind::Mutation => r.mutation = false,
        }
        r
    }
}

/// The derived state of one node.
#[derive(Clone, Copy, Debug)]
pub struct WidgetState {
    pub id: WidgetId,
    /// The size chosen by the latest layout.
    pub size: Size,
    /// This node's own flags.
    pub local: Flags,
    /// The union of the flags of the whole subtree, this node included.
    pub aggregated: Flags,
}

/// One node: its widget, its state and its links.
pub struct WidgetNode<W> {
    pub widget: W,
    pub state: WidgetState,
    /// This node's property overrides.
    pub properties: PropertyMap,
    pub parent: Option<usize>,
    pub children: Vec<usize>,
}

/// Exclusive access to one node during a mutation: its widget, and requests
/// that set its own validity flags.
pub struct WidgetMut<W> {
    pub(crate) id: WidgetId,
    pub(crate) widget: W,
    pub(crate) local: Flags,
    pub(crate) properties: PropertyMap,
    pub(crate) defaults: PropertyMap,
    pub(crate) removal: Option<WidgetId>,
    pub(crate) size: Size,
}

impl<W> WidgetMut<W> {
    pub open(crate) spec fn id_spec(&self) -> WidgetId {
        self.id
    }

    pub open(crate) spec fn local_spec(&self) -> Flags {
        self.local
    }

    pub open(crate) spec fn widget_spec(&self) -> W {
        self.widget
    }

    pub open(crate) spec fn properties_spec(&self) -> PropertyMap {
        self.properties
    }

    pub open(crate) spec fn defaults_spec(&self) -> PropertyMap {
        self.defaults
    }

    pub open(crate) spec fn removal_spec(&self) -> Option<WidgetId> {
        self.removal
    }

    pub open(crate) spec fn size_spec(&self) -> Size {
        self.size
    }

    /// The size the node took at its latest layout.
    pub fn size(&self) -> (r: Size)
        ensures
            r == self.size_spec(),
    {
        self.size
    }

    /// Asks for `child`, with its whole subtree, to be removed from this
    /// node when the mutation ends; a later request replaces this one. A
    /// `child` that is not a child of this node is ignored.
    pub fn remove_child(&mut self, child: WidgetId)
        ensures
            final(self).removal_spec() == Some(child),
            final(self).widget_spec() == old(self).widget_spec(),
            final(self).local_spec() == old(self).local_spec(),
            final(self).properties_spec() == old(self).properties_spec(),
            final(self).id_spec() == old(self).id_spec(),
            final(self).defaults_spec() == old(self).defaults_spec(),
    {
        self.removal = Some(child);
    }

    /// The node's own override of property `key`, if any.
    pub fn property_override(&self, key: u64) -> (r: Option<u64>)
        ensures
            r == self.properties_spec().get_spec(key),
    {
        self.properties.get(key)
    }

    /// The value of property `key` on this node: its override, else the
    /// default.
    pub fn property(&self, key: u64) -> (r: Option<u64>)
        ensures
            r == (match self.properties_spec().get_spec(key) {
                Some(v) => Some(v),
                None => self.defaults_spec().get_spec(key),
            }),
    {
        match self.properties.get(key) {
            Some(v) => Some(v),
            None => self.defaults.get(key),
        }
    }

    /// Overrides property `key` on this node.
    pub fn set_property(&mut self, key: u64, value: u64)
        ensures
            final(self).properties_spec().get_spec(key) == Some(value),
            forall|other: u64|
                other != key ==> #[trigger] final(self).properties_spec().get_spec(other) == old(
                    self,
                ).properties_spec().get_spec(other),
            final(self).widget_spec() == old(self).widget_spec(),
            final(self).local_spec() == old(self).local_spec(),
            final(self).id_spec() == old(self).id_spec(),
            final(self).removal_spec() == old(self).removal_spec(),
            final(self).defaults_spec() == old(self).defaults_spec(),
    {
        self.properties.insert(key, value);
    }

    /// The node's widget.
    pub fn widget(&self) -> (r: &W)
        ensures
            *r == self.widget_spec(),
    {
        &self.widget
    }

    /// Replaces the node's widget.
    pub fn set_widget(&mut self, widget: W)
        ensures
            final(self).widget_spec() == widget,
            final(self).local_spec() == old(self).local_spec(),
            final(self).id_spec() == old(self).id_spec(),
            final(self).removal_spec() == old(self).removal_spec(),
            final(self).defaults_spec() == old(self).defaults_spec(),
            final(self).properties_spec() == old(self).properties_spec(),
    {
        self.widget = widget;
    }

    /// The node this handle gives access to.
    pub fn id(&self) -> (r: WidgetId)
        ensures
            r == self.id_spec(),
    {
        self.id
    }

    /// The node's own flags as they stand in this handle.
    pub fn local_flags(&self) -> (r: Flags)
        ensures
            r == self.local_spec(),
    {
        self.local
    }

    /// Asks for a new layout of this node.
    pub fn request_layout(&mut self)
        ensures
            final(self).local_spec() == (Flags { layout: true, ..old(self).local_spec() }),
            final(self).id_spec() == old(self).id_spec(),
            final(self).removal_spec() == old(self).removal_spec(),
            final(self).defaults_spec() == old(self).defaults_spec(),
            final(self).widget_spec() == old(self).widget_spec(),
            final(self).properties_spec() == old(self).properties_spec(),
    {
        self.local.layout = true;
    }

    /// Asks for this node to be painted again.
    pub fn request_paint(&mut self)
        ensures
            final(self).local_spec() == (Flags { paint: true, ..old(self).local_spec() }),
            final(self).id_spec() == old(self).id_spec(),
            final(self).removal_spec() == old(self).removal_spec(),
            final(self).defaults_spec() == old(self).defaults_spec(),
            final(self).widget_spec() == old(self).widget_spec(),
            final(self).properties_spec() == old(self).properties_spec(),
    {
        self.local.paint = true;
    }

    /// Asks for this node's accessibility data to be built again.
    pub fn request_accessibility(&mut self)
        ensures
            final(self).local_spec() == (Flags { accessibility: true, ..old(self).local_spec() }),
            final(self).id_spec() == old(self).id_spec(),
            final(self).removal_spec() == old(self).removal_spec(),
            final(self).defaults_spec() == old(self).defaults_spec(),
            final(self).widget_spec() == old(self).widget_spec(),
            final(self).properties_spec() == old(self).properties_spec(),
    {
        self.local.accessibility = true;
    }
}

/// The aggregated flags of node `i`, or none where there is no such node.
pub open spec fn aggregated_at<W>(nodes: Seq<Option<WidgetNode<W>>>, i: int) -> Flags {
    if 0 <= i < nodes.len() && nodes[i] is Some {
        nodes[i]->Some_0.state.aggregated
    } else {
        Flags::none_spec()
    }
}

/// The union of the aggregated flags of the nodes listed in `ids`.
pub open spec fn union_aggregated<W>(nodes: Seq<Option<WidgetNode<W>>>, ids: Seq<usize>) -> Flags
    decreases ids.len(),
{
    if ids.len() == 0 {
        Flags::none_spec()
    } else {
        union_aggregated(nodes, ids.drop_last()).or_spec(aggregated_at(nodes, ids.last() as int))
    }
}

/// Whether `y` lies in the subtree rooted at `x`, following parent links.
pub open spec fn in_subtree<W>(nodes: Seq<Option<WidgetNode<W>>>, y: int, x: int) -> bool
    decreases y,
{
    if y == x {
        true
    } else if 0 <= y < nodes.len() && nodes[y] is Some && nodes[y]->Some_0.parent is Some
        && (nodes[y]->Some_0.parent->Some_0 as int) < y {
        in_subtree(nodes, nodes[y]->Some_0.parent->Some_0 as int, x)
    } else {
        false
    }
}

/// Whether `skip` names `i`.
pub open spec fn is_skipped(skip: Option<usize>, i: int) -> bool {
    match skip {
        Some(s) => s as int == i,
        None => false,
    }
}

/// The arena of a widget tree (or of a forest: every node without a parent
/// is a root).
pub struct WidgetArena<W> {
    pub(crate) nodes: Vec<Option<WidgetNode<W>>>,
}

impl<W> WidgetArena<W> {
    pub open(crate) spec fn nodes_spec(self) -> Seq<Option<WidgetNode<W>>> {
        self.nodes@
    }

    /// Whether `i` is the index of a live node.
    pub open spec fn is_live(self, i: int) -> bool {
        0 <= i < self.nodes_spec().len() && self.nodes_spec()[i] is Some
    }

    pub open spec fn node(self, i: int) -> WidgetNode<W> {
        self.nodes_spec()[i]->Some_0
    }

    pub open spec fn children_spec(self, i: int) -> Seq<usize> {
        self.node(i).children@
    }

    /// The links of node `i` are consistent.
    pub open spec fn links_ok(self, i: int) -> bool {
        let n = self.node(i);
        &&& n.state.id == WidgetId(i as usize)
        &&& n.children@.no_duplicates()
        &&& forall|k: int|
            0 <= k < n.children@.len() ==> {
                let c = #[trigger] n.children@[k] as int;
                &&& self.is_live(c)
                &&& i < c
                &&& self.node(c).parent == Some(i as usize)
            }
        &&& match n.parent {
            Some(p) => self.is_live(p as int) && p < i && self.node(p as int).children@.contains(
                i as usize,
            ),
            None => true,
        }
    }

    /// The aggregated flags of node `i` are its own flags joined with its
    /// children's aggregated flags.
    pub open spec fn aggregated_ok(self, i: int) -> bool {
        self.node(i).state.aggregated == self.node(i).state.local.or_spec(
            union_aggregated(self.nodes_spec(), self.children_spec(i)),
        )
    }

    pub open spec fn structure_ok(self) -> bool {
        &&& self.nodes_spec().len() <= usize::MAX
        &&& forall|i: int| #[trigger] self.is_live(i) ==> self.links_ok(i)
    }

    /// The arena is well formed: consistent links, and every aggregated
    /// flag equal to the union over the node and its children.
    pub open spec fn wf(self) -> bool {
        &&& self.structure_ok()
        &&& forall|i: int| #[trigger] self.is_live(i) ==> self.aggregated_ok(i)
    }

    /// Every live node other than `skip` has its aggregated flags right.
    pub open spec fn aggregated_ok_except(self, skip: Option<usize>) -> bool {
        forall|i: int| #[trigger] self.is_live(i) && !is_skipped(skip, i) ==> self.aggregated_ok(i)
    }

    /// `other` differs from `self` at most in aggregated flags.
    pub open spec fn same_but_aggregated(self, other: Self) -> bool {
        &&& self.nodes_spec().len() == other.nodes_spec().len()
        &&& forall|i: int| #[trigger]
            self.is_live(i) == other.is_live(i)
        &&& forall|i: int| #[trigger]
            self.is_live(i) ==> {
                let a = self.node(i);
                let b = other.node(i);
                &&& a.widget == b.widget
                &&& a.properties == b.properties
                &&& a.parent == b.parent
                &&& a.children@ == b.children@
                &&& a.state.id == b.state.id
                &&& a.state.size == b.state.size
                &&& a.state.local == b.state.local
            }
    }

    /// The union of the aggregated flags of node `i`'s children.
    fn children_aggregated(&self, i: usize) -> (r: Flags)
        requires
            self.is_live(i as int),
        ensures
            r == union_aggregated(self.nodes_spec(), self.children_spec(i as int)),
    {
        let node = match &self.nodes[i] {
            Some(n) => n,
            None => {
                return Flags::none();
            },
        };
        let mut acc = Flags::none();
        let mut k: usize = 0;
        while k < node.children.len()
            invariant
                0 <= k <= node.children@.len(),
                *node == self.node(i as int),
                acc == union_aggregated(self.nodes_spec(), node.children@.take(k as int)),
            decreases node.children@.len() - k,
        {
            let c = node.children[k];
            let child_flags = if c < self.nodes.len() {
                match &self.nodes[c] {
                    Some(cn) => cn.state.aggregated,
                    None => Flags::none(),
                }
            } else {
                Flags::none()
            };
            proof {
                assert(node.children@.take(k + 1).drop_last() =~= node.children@.take(k as int));
            }
            acc = acc.or(&child_flags);
            k = k + 1;
        }
        proof {
            assert(node.children@.take(k as int) =~= node.children@);
        }
        acc
    }

    /// Gives node `i` the own flags `local` and recomputes its aggregated
    /// flags from them and its children's. Of the other nodes, only `i`'s
    /// parent can be affected.
    fn store_local_and_merge(&mut self, i: usize, local: Flags)
        requires
            old(self).structure_ok(),
            old(self).is_live(i as int),
        ensures
            final(self).structure_ok(),
            final(self).aggregated_ok(i as int),
            forall|j: int| #[trigger]
                old(self).is_live(j) && j != i && !is_skipped(old(self).node(i as int).parent, j)
                    ==> final(self).aggregated_ok(j) == old(self).aggregated_ok(j),
            old(self).mutated_at(
                *final(self),
                i as int,
                old(self).node(i as int).widget,
                local,
                old(self).node(i as int).properties,
            ),
    {
        let flags = self.children_aggregated(i);
        let ghost before = self.nodes_spec();
        let mut slot: Option<WidgetNode<W>> = None;
        self.nodes.set_and_swap(i, &mut slot);
        match slot {
            Some(mut node) => {
                node.state.local = local;
                node.state.aggregated = local.or(&flags);
                self.nodes.set(i, Some(node));
            },
            None => {},
        }
        proof {
            let after = self.nodes_spec();
            assert(after.len() == before.len());
            assert(after[i as int] is Some);
            assert(forall|j: int| 0 <= j < before.len() && j != i ==> after[j] == before[j]);
            assert forall|j: int| #[trigger] self.is_live(j) implies self.links_ok(j) by {
                assert(old(self).is_live(j));
                assert(old(self).links_ok(j));
                let n = self.node(j);
                assert forall|k: int| 0 <= k < n.children@.len() implies {
                    let c = #[trigger] n.children@[k] as int;
                    &&& self.is_live(c)
                    &&& j < c
                    &&& self.node(c).parent == Some(j as usize)
                } by {
                    let c = n.children@[k] as int;
                    assert(old(self).is_live(c));
                }
                match n.parent {
                    Some(p) => {
                        assert(old(self).is_live(p as int));
                    },
                    None => {},
                }
            }
            assert forall|j: int| #[trigger]
                old(self).is_live(j) && !is_skipped(old(self).node(i as int).parent, j) implies (j
                == i ==> self.aggregated_ok(j)) && (j != i ==> self.aggregated_ok(j)
                == old(self).aggregated_ok(j)) by {
                assert(old(self).links_ok(j));
                assert(!old(self).children_spec(j).contains(i)) by {
                    if old(self).children_spec(j).contains(i) {
                        let k = choose|k: int|
                            0 <= k < old(self).children_spec(j).len()
                                && old(self).children_spec(j)[k] == i;
                        assert(old(self).node(i as int).parent == Some(j as usize));
                    }
                }
                let cs = old(self).children_spec(j);
                assert forall|k: int| 0 <= k < cs.len() implies aggregated_at(
                    before,
                    #[trigger] cs[k] as int,
                ) == aggregated_at(after, cs[k] as int) by {
                    assert(cs[k] != i);
                }
                lemma_union_same(before, after, cs);
            }
            assert(old(self).links_ok(i as int));
            assert(old(self).is_live(i as int) && !is_skipped(old(self).node(i as int).parent, i as int));
            assert forall|j: int| #[trigger] old(self).is_live(j) implies self.is_live(j) by {}
        }
    }

    /// Recomputes the aggregated flags of node `i` from its own flags and its
    /// children's aggregated flags. Only `i`'s parent may be left to fix.
    pub(crate) fn merge_state_up(&mut self, i: usize)
        requires
            old(self).structure_ok(),
            old(self).is_live(i as int),
            old(self).aggregated_ok_except(Some(i)),
        ensures
            final(self).structure_ok(),
            final(self).aggregated_ok_except(old(self).node(i as int).parent),
            old(self).same_but_aggregated(*final(self)),
    {
        let local = match &self.nodes[i] {
            Some(n) => n.state.local,
            None => Flags::none(),
        };
        self.store_local_and_merge(i, local);
        proof {
            assert forall|j: int| #[trigger] self.is_live(j) && !is_skipped(
                old(self).node(i as int).parent,
                j,
            ) implies self.aggregated_ok(j) by {
                assert(old(self).is_live(j));
            }
        }
    }

    /// Restores every aggregated flag after a change at node `i`, walking
    /// from `i` up to its root and merging at each node on the way.
    pub(crate) fn merge_up_to_root(&mut self, i: usize)
        requires
            old(self).structure_ok(),
            old(self).is_live(i as int),
            old(self).aggregated_ok_except(Some(i)),
        ensures
            final(self).wf(),
            old(self).same_but_aggregated(*final(self)),
    {
        let ghost start = *self;
        let mut current: Option<usize> = Some(i);
        while current.is_some()
            invariant
                self.structure_ok(),
                self.aggregated_ok_except(current),
                start.same_but_aggregated(*self),
                match current {
                    Some(c) => self.is_live(c as int),
                    None => true,
                },
            decreases
                match current {
                    Some(c) => c as int + 1,
                    None => 0,
                },
        {
            let c = current.unwrap();
            let parent = match &self.nodes[c] {
                Some(n) => n.parent,
                None => None,
            };
            let ghost mid = *self;
            self.merge_state_up(c);
            proof {
                assert(mid.links_ok(c as int));
                lemma_same_but_aggregated_trans(start, mid, *self);
            }
            current = parent;
        }
        proof {
            assert forall|j: int| #[trigger] self.is_live(j) implies self.aggregated_ok(j) by {}
        }
    }

    /// Adds a node without a parent; all its flags start set, so that every
    /// pass runs on it once.
    pub fn insert_root(&mut self, widget: W) -> (r: WidgetId)
        requires
            old(self).wf(),
            old(self).nodes_spec().len() < usize::MAX,
        ensures
            final(self).wf(),
            r.0 == old(self).nodes_spec().len(),
            final(self).nodes_spec() == old(self).nodes_spec().push(final(self).nodes_spec()[r.0 as int]),
            final(self).is_live(r.0 as int),
            final(self).node(r.0 as int).widget == widget,
            final(self).node(r.0 as int).parent is None,
            final(self).children_spec(r.0 as int).len() == 0,
            final(self).node(r.0 as int).state.local == Flags::all_spec(),
    {
        let n = self.nodes.len();
        let state = WidgetState {
            id: WidgetId(n),
            size: Size::zero(),
            local: Flags::all(),
            aggregated: Flags::all(),
        };
        let node = WidgetNode {
            widget,
            state,
            properties: PropertyMap::new(),
            parent: None,
            children: Vec::new(),
        };
        let ghost before = self.nodes_spec();
        self.nodes.push(Some(node));
        proof {
            let after = self.nodes_spec();
            assert(after.len() == before.len() + 1);
            assert forall|j: int| 0 <= j < before.len() implies after[j] == before[j] by {}
            assert(union_aggregated(after, Seq::<usize>::empty()) == Flags::none_spec());
            assert(self.children_spec(n as int) =~= Seq::<usize>::empty());
            assert forall|j: int| #[trigger] self.is_live(j) implies self.links_ok(j)
                && self.aggregated_ok(j) by {
                if j != n {
                    assert(old(self).is_live(j));
                    assert(old(self).links_ok(j));
                    assert(old(self).aggregated_ok(j));
                    let cs = old(self).children_spec(j);
                    assert forall|k: int| 0 <= k < cs.len() implies aggregated_at(
                        before,
                        #[trigger] cs[k] as int,
                    ) == aggregated_at(after, cs[k] as int) by {
                        assert(old(self).is_live(cs[k] as int));
                    }
                    lemma_union_same(before, after, cs);
                    let nd = self.node(j);
                    assert forall|k: int| 0 <= k < nd.children@.len() implies {
                        let c = #[trigger] nd.children@[k] as int;
                        &&& self.is_live(c)
                        &&& j < c
                        &&& self.node(c).parent == Some(j as usize)
                    } by {
                        assert(old(self).is_live(nd.children@[k] as int));
                    }
                    match nd.parent {
                        Some(q) => {
                            assert(old(self).is_live(q as int));
                        },
                        None => {},
                    }
                }
            }
        }
        WidgetId(n)
    }

    /// Adds a node as the child of `parent` at position `index` among its
    /// children, leaving the parent's aggregated flags to merge.
    #[verifier::rlimit(40)]
    fn attach_child(&mut self, parent: WidgetId, index: usize, widget: W) -> (r: WidgetId)
        requires
            old(self).wf(),
            old(self).is_live(parent.0 as int),
            index <= old(self).children_spec(parent.0 as int).len(),
            old(self).nodes_spec().len() < usize::MAX,
        ensures
            final(self).structure_ok(),
            final(self).aggregated_ok_except(Some(parent.0)),
            r.0 == old(self).nodes_spec().len(),
            final(self).nodes_spec().len() == old(self).nodes_spec().len() + 1,
            final(self).is_live(r.0 as int),
            final(self).node(r.0 as int).widget == widget,
            final(self).node(r.0 as int).parent == Some(parent.0),
            final(self).children_spec(r.0 as int).len() == 0,
            final(self).node(r.0 as int).state.local == Flags::all_spec(),
            final(self).children_spec(parent.0 as int) == old(self).children_spec(parent.0 as int).insert(
                index as int,
                r.0,
            ),
            forall|j: int| #[trigger]
                old(self).is_live(j) ==> final(self).is_live(j) && final(self).node(j).widget
                    == old(self).node(j).widget && final(self).node(j).parent == old(self).node(
                    j,
                ).parent && final(self).node(j).state.local == old(self).node(j).state.local && (j
                    != parent.0 ==> final(self).children_spec(j) == old(self).children_spec(j)),
    {
        let p = parent.0;
        let n = self.nodes.len();
        let state = WidgetState {
            id: WidgetId(n),
            size: Size::zero(),
            local: Flags::all(),
            aggregated: Flags::all(),
        };
        let node = WidgetNode {
            widget,
            state,
            properties: PropertyMap::new(),
            parent: Some(p),
            children: Vec::new(),
        };
        let ghost before = self.nodes_spec();
        self.nodes.push(Some(node));
        let mut slot: Option<WidgetNode<W>> = None;
        self.nodes.set_and_swap(p, &mut slot);
        match slot {
            Some(mut pn) => {
                pn.children.insert(index, n);
                self.nodes.set(p, Some(pn));
            },
            None => {},
        }
        proof {
            let after = self.nodes_spec();
            let old_cs = old(self).children_spec(p as int);
            let new_cs = self.children_spec(p as int);
            assert(after.len() == before.len() + 1);
            assert(after[p as int] is Some);
            assert forall|j: int| 0 <= j < before.len() && j != p implies after[j] == before[j] by {}
            assert(new_cs == old_cs.insert(index as int, n));
            assert(old(self).links_ok(p as int));
            assert(!old_cs.contains(n)) by {
                if old_cs.contains(n) {
                    let k = choose|k: int| 0 <= k < old_cs.len() && old_cs[k] == n;
                    assert(old(self).is_live(old_cs[k] as int));
                }
            }
            lemma_insert_no_duplicates(old_cs, index as int, n);
            assert(union_aggregated(after, Seq::<usize>::empty()) == Flags::none_spec());
            assert(self.children_spec(n as int) =~= Seq::<usize>::empty());
            assert forall|j: int| #[trigger] self.is_live(j) implies self.links_ok(j) && (j != p
                ==> self.aggregated_ok(j)) by {
                if j == n {
                    assert(new_cs[index as int] == n);
                } else {
                    assert(old(self).is_live(j));
                    assert(old(self).links_ok(j));
                    let nd = self.node(j);
                    if j != p {
                        assert(old(self).aggregated_ok(j));
                        let cs = old(self).children_spec(j);
                        assert forall|k: int| 0 <= k < cs.len() implies aggregated_at(
                            before,
                            #[trigger] cs[k] as int,
                        ) == aggregated_at(after, cs[k] as int) by {
                            assert(old(self).is_live(cs[k] as int));
                        }
                        lemma_union_same(before, after, cs);
                    }
                    assert forall|k: int| 0 <= k < nd.children@.len() implies {
                        let c = #[trigger] nd.children@[k] as int;
                        &&& self.is_live(c)
                        &&& j < c
                        &&& self.node(c).parent == Some(j as usize)
                    } by {
                        if j == p {
                            if nd.children@[k] != n {
                                let k0 = if k < index { k } else { k - 1 };
                                assert(old_cs[k0] == nd.children@[k]);
                                assert(old(self).is_live(old_cs[k0] as int));
                            }
                        } else {
                            assert(old(self).is_live(nd.children@[k] as int));
                        }
                    }
                    match nd.parent {
                        Some(q) => {
                            assert(old(self).is_live(q as int));
                            if q == p {
                                let k = choose|k: int| 0 <= k < old_cs.len() && old_cs[k] == j;
                                let k1 = if k < index { k } else { k + 1 };
                                assert(new_cs[k1] == j);
                            }
                        },
                        None => {},
                    }
                }
            }
            assert forall|j: int| #[trigger] old(self).is_live(j) implies self.is_live(j) by {}
        }
        WidgetId(n)
    }

    /// Adds a node as the child of `parent` at position `index` among its
    /// children, then merges the new flags up to the root.
    pub fn insert_child(&mut self, parent: WidgetId, index: usize, widget: W) -> (r: WidgetId)
        requires
            old(self).wf(),
            old(self).is_live(parent.0 as int),
            index <= old(self).children_spec(parent.0 as int).len(),
            old(self).nodes_spec().len() < usize::MAX,
        ensures
            final(self).wf(),
            r.0 == old(self).nodes_spec().len(),
            final(self).nodes_spec().len() == old(self).nodes_spec().len() + 1,
            final(self).is_live(r.0 as int),
            final(self).node(r.0 as int).widget == widget,
            final(self).node(r.0 as int).parent == Some(parent.0),
            final(self).children_spec(r.0 as int).len() == 0,
            final(self).node(r.0 as int).state.local == Flags::all_spec(),
            final(self).children_spec(parent.0 as int) == old(self).children_spec(parent.0 as int).insert(
                index as int,
                r.0,
            ),
            forall|j: int| #[trigger]
                old(self).is_live(j) ==> final(self).is_live(j) && final(self).node(j).widget
                    == old(self).node(j).widget && final(self).node(j).parent == old(self).node(
                    j,
                ).parent && final(self).node(j).state.local == old(self).node(j).state.local && (j
                    != parent.0 ==> final(self).children_spec(j) == old(self).children_spec(j)),
    {
        let r = self.attach_child(parent, index, widget);
        let ghost mid = *self;
        self.merge_up_to_root(parent.0);
        proof {
            assert(mid.is_live(r.0 as int));
            assert(self.is_live(r.0 as int));
            assert(mid.is_live(parent.0 as int));
            assert forall|j: int| #[trigger] old(self).is_live(j) implies mid.is_live(j) by {}
        }
        r
    }

    /// Ends a pass of `kind`: clears that pass's own flag on every node,
    /// whatever the pass did, then restores every aggregated flag, children
    /// before parents.
    pub fn finish_pass(&mut self, kind: PassKind)
        requires
            old(self).wf(),
        ensures
            final(self).wf(),
            final(self).nodes_spec().len() == old(self).nodes_spec().len(),
            forall|k: int| #[trigger] final(self).is_live(k) == old(self).is_live(k),
            forall|k: int| #[trigger]
                old(self).is_live(k) ==> {
                    let a = old(self).node(k);
                    let b = final(self).node(k);
                    &&& b.state.local == kind.clear_spec(a.state.local)
                    &&& b.widget == a.widget
                    &&& b.parent == a.parent
                    &&& b.properties == a.properties
                    &&& b.state.size == a.state.size
                    &&& b.state.id == a.state.id
                    &&& b.children@ == a.children@
                },
    {
        let ghost start = *self;
        let mut j: usize = self.nodes.len();
        while j > 0
            invariant
                0 <= j <= self.nodes_spec().len(),
                self.structure_ok(),
                self.nodes_spec().len() == start.nodes_spec().len(),
                forall|k: int| #[trigger] self.is_live(k) == start.is_live(k),
                forall|k: int| #[trigger]
                    start.is_live(k) ==> {
                        let a = start.node(k);
                        let b = self.node(k);
                        &&& b.state.local == (if k >= j {
                            kind.clear_spec(a.state.local)
                        } else {
                            a.state.local
                        })
                        &&& b.widget == a.widget
                        &&& b.parent == a.parent
                        &&& b.properties == a.properties
                        &&& b.state.size == a.state.size
                        &&& b.state.id == a.state.id
                        &&& b.children@ == a.children@
                    },
                forall|k: int| #[trigger] self.is_live(k) && k >= j ==> self.aggregated_ok(k),
            decreases j,
        {
            j = j - 1;
            if self.contains(WidgetId(j)) {
                let local = kind.clear(self.state(WidgetId(j)).local);
                let ghost before = *self;
                self.store_local_and_merge(j, local);
                proof {
                    assert(before.links_ok(j as int));
                    assert forall|k: int| #[trigger] self.is_live(k) && k >= j implies self.aggregated_ok(k) by {
                        assert(before.is_live(k));
                    }
                    assert forall|k: int| #[trigger] self.is_live(k) == start.is_live(k) by {
                        assert(before.is_live(k) == self.is_live(k));
                    }
                    assert forall|k: int| #[trigger] start.is_live(k) implies {
                        let a = start.node(k);
                        let b = self.node(k);
                        &&& b.state.local == (if k >= j {
                            kind.clear_spec(a.state.local)
                        } else {
                            a.state.local
                        })
                        &&& b.widget == a.widget
                        &&& b.parent == a.parent
                        &&& b.properties == a.properties
                        &&& b.state.size == a.state.size
                        &&& b.state.id == a.state.id
                        &&& b.children@ == a.children@
                    } by {
                        assert(before.is_live(k));
                    }
                }
            }
        }
    }

    /// The handle that a mutation of node `i` receives.
    pub open(crate) spec fn handle_spec(self, i: int, defaults: PropertyMap) -> WidgetMut<W> {
        WidgetMut {
            id: WidgetId(i as usize),
            widget: self.node(i).widget,
            local: self.node(i).state.local,
            properties: self.node(i).properties,
            defaults,
            removal: None,
            size: self.node(i).state.size,
        }
    }

    /// `other` is `self` with node `i` given `widget`, the own flags `local`
    /// and the overrides `properties`; aggregated flags aside, nothing else
    /// differs.
    pub open spec fn mutated_at(
        self,
        other: Self,
        i: int,
        widget: W,
        local: Flags,
        properties: PropertyMap,
    ) -> bool {
        &&& self.nodes_spec().len() == other.nodes_spec().len()
        &&& forall|j: int| #[trigger] self.is_live(j) == other.is_live(j)
        &&& forall|j: int| #[trigger]
            self.is_live(j) ==> {
                let a = self.node(j);
                let b = other.node(j);
                &&& b.widget == (if j == i { widget } else { a.widget })
                &&& b.state.local == (if j == i { local } else { a.state.local })
                &&& b.properties == (if j == i { properties } else { a.properties })
                &&& a.parent == b.parent
                &&& a.children@ == b.children@
                &&& a.state.id == b.state.id
                &&& a.state.size == b.state.size
            }
    }

    /// Whether `removal` names a child of node `i`.
    pub open spec fn removes_child(self, i: int, removal: Option<WidgetId>) -> bool {
        match removal {
            Some(c) => self.is_live(c.0 as int) && self.node(c.0 as int).parent == Some(i as usize),
            None => false,
        }
    }

    /// `other` is `self` with node `i` given `widget`, the own flags `local`
    /// and the overrides `properties`, and then, where `removal` names a
    /// child of `i`, with that child's subtree removed and the child taken
    /// out of `i`'s children. Aggregated flags aside, nothing else differs.
    pub open spec fn mutated_and_pruned(
        self,
        other: Self,
        i: int,
        widget: W,
        local: Flags,
        properties: PropertyMap,
        removal: Option<WidgetId>,
    ) -> bool {
        let removes = self.removes_child(i, removal);
        let c = removal->Some_0.0 as int;
        &&& self.nodes_spec().len() == other.nodes_spec().len()
        &&& forall|j: int| #[trigger]
            other.is_live(j) == (self.is_live(j) && !(removes && in_subtree(
                self.nodes_spec(),
                j,
                c,
            )))
        &&& forall|j: int| #[trigger]
            other.is_live(j) ==> {
                let a = self.node(j);
                let b = other.node(j);
                &&& b.widget == (if j == i { widget } else { a.widget })
                &&& b.state.local == (if j == i { local } else { a.state.local })
                &&& b.properties == (if j == i { properties } else { a.properties })
                &&& a.parent == b.parent
                &&& (j != i ==> a.children@ == b.children@)
                &&& a.state.id == b.state.id
                &&& a.state.size == b.state.size
            }
        &&& !removes ==> other.children_spec(i) == self.children_spec(i)
        &&& removes ==> exists|pos: int|
            0 <= pos < self.children_spec(i).len() && self.children_spec(i)[pos] == c
                && other.children_spec(i) == self.children_spec(i).remove(pos)
    }

    /// Hands node `i`, with the table `defaults`, to `f` as a [`WidgetMut`],
    /// then stores the widget, own flags and overrides that `f` hands back,
    /// and returns the table with `f`'s result. Only `i`'s aggregated flags
    /// are left to merge.
    pub(crate) fn mutate_node<R, F: FnOnce(WidgetMut<W>) -> (WidgetMut<W>, R)>(
        &mut self,
        i: usize,
        f: F,
        defaults: PropertyMap,
    ) -> (r: (R, PropertyMap, Option<WidgetId>))
        requires
            old(self).wf(),
            old(self).is_live(i as int),
            f.requires((old(self).handle_spec(i as int, defaults),)),
        ensures
            final(self).structure_ok(),
            final(self).aggregated_ok_except(Some(i)),
            exists|h: WidgetMut<W>|
                call_ensures(f, (old(self).handle_spec(i as int, defaults),), (h, r.0)) && old(
                    self,
                ).mutated_at(*final(self), i as int, h.widget, h.local, h.properties) && r.1
                    == h.defaults && r.2 == h.removal,
    {
        let ghost before = self.nodes_spec();
        let mut slot: Option<WidgetNode<W>> = None;
        self.nodes.set_and_swap(i, &mut slot);
        let node = slot.unwrap();
        let WidgetNode { widget, state, properties, parent, children } = node;
        proof {
            assert(old(self).links_ok(i as int));
        }
        let handle = WidgetMut {
            id: state.id,
            widget,
            local: state.local,
            properties,
            defaults,
            removal: None,
            size: state.size,
        };
        let (back, r) = f(handle);
        let ghost h = back;
        let WidgetMut { id: _, widget, local, properties, defaults, removal, size: _ } = back;
        let restored = WidgetNode {
            widget,
            state: WidgetState { local, ..state },
            properties,
            parent,
            children,
        };
        self.nodes.set(i, Some(restored));
        proof {
            let after = self.nodes_spec();
            assert(after.len() == before.len());
            assert(forall|j: int| 0 <= j < before.len() && j != i ==> after[j] == before[j]);
            assert(aggregated_at(after, i as int) == aggregated_at(before, i as int));
            assert forall|j: int| #[trigger] self.is_live(j) implies self.links_ok(j) && (j != i
                ==> self.aggregated_ok(j)) by {
                assert(old(self).is_live(j));
                assert(old(self).links_ok(j));
                let cs = old(self).children_spec(j);
                assert forall|k: int| 0 <= k < cs.len() implies aggregated_at(
                    before,
                    #[trigger] cs[k] as int,
                ) == aggregated_at(after, cs[k] as int) by {}
                lemma_union_same(before, after, cs);
                let nd = self.node(j);
                assert forall|k: int| 0 <= k < nd.children@.len() implies {
                    let c = #[trigger] nd.children@[k] as int;
                    &&& self.is_live(c)
                    &&& j < c
                    &&& self.node(c).parent == Some(j as usize)
                } by {
                    assert(old(self).is_live(nd.children@[k] as int));
                }
                match nd.parent {
                    Some(q) => {
                        assert(old(self).is_live(q as int));
                    },
                    None => {},
                }
            }
            assert(old(self).mutated_at(*self, i as int, h.widget, h.local, h.properties));
        }
        (r, defaults, removal)
    }

    /// Detaches `child` from `parent` and destroys the whole subtree rooted
    /// at `child`, then merges the parent's changed flags up to the root.
    /// Nodes outside that subtree keep their widgets, own flags and links
    /// (the parent loses `child` from its children, and nothing else).
    pub fn remove_child(&mut self, parent: WidgetId, child: WidgetId)
        requires
            old(self).wf(),
            old(self).is_live(child.0 as int),
            old(self).node(child.0 as int).parent == Some(parent.0),
        ensures
            final(self).wf(),
            final(self).nodes_spec().len() == old(self).nodes_spec().len(),
            forall|i: int| #[trigger]
                final(self).is_live(i) == (old(self).is_live(i) && !in_subtree(
                    old(self).nodes_spec(),
                    i,
                    child.0 as int,
                )),
            forall|i: int| #[trigger]
                final(self).is_live(i) ==> {
                    let a = old(self).node(i);
                    let b = final(self).node(i);
                    &&& b.widget == a.widget
                    &&& b.state.local == a.state.local
                    &&& b.parent == a.parent
                    &&& b.properties == a.properties
                    &&& b.state.size == a.state.size
                    &&& b.state.id == a.state.id
                    &&& (i != parent.0 ==> b.children@ == a.children@)
                },
            exists|pos: int|
                0 <= pos < old(self).children_spec(parent.0 as int).len() && old(self).children_spec(
                    parent.0 as int,
                )[pos] == child.0 && final(self).children_spec(parent.0 as int) == old(
                    self,
                ).children_spec(parent.0 as int).remove(pos),
    {
        let ghost s0 = self.nodes_spec();
        let x = child.0;
        let p = parent.0;
        proof {
            assert(old(self).links_ok(x as int));
            assert(old(self).links_ok(p as int));
        }
        // Where `child` stands among the parent's children.
        let pos = self.child_position(p, x);
        // One forward sweep: a node lies in the subtree when it is `child`
        // or its parent, at a lower index, was found to lie in it.
        let n = self.nodes.len();
        let mut removed: Vec<bool> = Vec::new();
        let mut k: usize = 0;
        while k < n
            invariant
                k <= n,
                removed@.len() == k,
                forall|q: int| 0 <= q < k ==> !(#[trigger] removed@[q]),
            decreases n - k,
        {
            removed.push(false);
            k = k + 1;
        }
        let mut j: usize = x;
        while j < n
            invariant
                x <= j <= n,
                n == s0.len(),
                old(self).nodes_spec() == s0,
                old(self).wf(),
                removed@.len() == n,
                self.nodes@.len() == n,
                forall|q: int|
                    0 <= q < n ==> #[trigger] removed@[q] == (x <= q < j && in_subtree(s0, q, x as int)),
                forall|q: int|
                    0 <= q < n ==> #[trigger] self.nodes@[q] == (if x <= q < j && in_subtree(
                        s0,
                        q,
                        x as int,
                    ) {
                        None
                    } else {
                        s0[q]
                    }),
            decreases n - j,
        {
            let inside = if j == x {
                true
            } else {
                match &self.nodes[j] {
                    Some(node) => match node.parent {
                        Some(q) => q < j && removed[q],
                        None => false,
                    },
                    None => false,
                }
            };
            proof {
                if j != x && s0[j as int] is Some {
                    assert(old(self).is_live(j as int));
                    assert(old(self).links_ok(j as int));
                    match s0[j as int]->Some_0.parent {
                        Some(q) => {
                            if (q as int) < x {
                                lemma_subtree_index(s0, q as int, x as int);
                            }
                        },
                        None => {},
                    }
                }
            }
            assert(inside == in_subtree(s0, j as int, x as int));
            if inside {
                removed.set(j, true);
                self.nodes.set(j, None);
            }
            j = j + 1;
        }
        // Detach `child` from the parent, which lies outside the subtree.
        let ghost swept = self.nodes@;
        proof {
            lemma_subtree_index(s0, p as int, x as int);
            assert forall|q: int| 0 <= q < n implies #[trigger] swept[q] == (if in_subtree(
                s0,
                q,
                x as int,
            ) {
                None
            } else {
                s0[q]
            }) by {
                lemma_subtree_index(s0, q, x as int);
            }
        }
        let mut slot: Option<WidgetNode<W>> = None;
        self.nodes.set_and_swap(p, &mut slot);
        match slot {
            Some(mut pn) => {
                pn.children.remove(pos);
                self.nodes.set(p, Some(pn));
            },
            None => {},
        }
        proof {
            assert(forall|q: int| 0 <= q < n && q != p ==> self.nodes@[q] == swept[q]);
            self.lemma_removal_structure(*old(self), p as int, x as int, pos as int);
        }
        let ghost mid = *self;
        self.merge_up_to_root(p);
        proof {
            assert forall|i: int| #[trigger] self.is_live(i) == (old(self).is_live(i) && !in_subtree(
                s0,
                i,
                x as int,
            )) by {
                assert(mid.is_live(i) == self.is_live(i));
            }
            assert forall|i: int| #[trigger] self.is_live(i) implies {
                let a = old(self).node(i);
                let b = self.node(i);
                &&& b.widget == a.widget
                &&& b.state.local == a.state.local
                &&& b.parent == a.parent
                &&& b.properties == a.properties
                &&& b.state.size == a.state.size
                &&& b.state.id == a.state.id
                &&& (i != parent.0 ==> b.children@ == a.children@)
            } by {
                assert(mid.is_live(i));
            }
            assert(mid.is_live(p as int));
        }
    }

    /// The position of `x` among the children of `p`.
    fn child_position(&self, p: usize, x: usize) -> (r: usize)
        requires
            self.is_live(p as int),
            self.children_spec(p as int).contains(x),
        ensures
            0 <= r < self.children_spec(p as int).len(),
            self.children_spec(p as int)[r as int] == x,
    {
        let node = self.nodes[p].as_ref().unwrap();
        let mut k: usize = 0;
        while k < node.children.len()
            invariant
                0 <= k <= node.children@.len(),
                node.children@ == self.children_spec(p as int),
                forall|q: int| 0 <= q < k ==> node.children@[q] != x,
            decreases node.children@.len() - k,
        {
            if node.children[k] == x {
                return k;
            }
            k = k + 1;
        }
        proof {
            let q = choose|q: int| 0 <= q < node.children@.len() && node.children@[q] == x;
        }
        0
    }

    /// After the subtree of `x` is gone and `x` left its parent `p`'s
    /// children, the links are consistent and only `p`'s aggregated flags
    /// may be wrong.
    #[verifier::rlimit(80)]
    proof fn lemma_removal_structure(self, before: Self, p: int, x: int, pos: int)
        requires
            before.wf(),
            before.is_live(x),
            0 <= p <= usize::MAX,
            before.nodes_spec().len() <= usize::MAX,
            before.node(x).parent == Some(p as usize),
            0 <= pos < before.children_spec(p).len(),
            before.children_spec(p)[pos] == x,
            self.nodes_spec().len() == before.nodes_spec().len(),
            self.is_live(p),
            self.children_spec(p) == before.children_spec(p).remove(pos),
            self.node(p).widget == before.node(p).widget,
            self.node(p).state == before.node(p).state,
            self.node(p).properties == before.node(p).properties,
            self.node(p).parent == before.node(p).parent,
            forall|q: int|
                0 <= q < before.nodes_spec().len() && q != p ==> #[trigger] self.nodes_spec()[q] == (
                if in_subtree(before.nodes_spec(), q, x) {
                    None
                } else {
                    before.nodes_spec()[q]
                }),
        ensures
            self.structure_ok(),
            self.aggregated_ok_except(Some(p as usize)),
            forall|i: int| #[trigger]
                self.is_live(i) == (before.is_live(i) && !in_subtree(before.nodes_spec(), i, x)),
            forall|i: int| #[trigger]
                self.is_live(i) ==> {
                    let a = before.node(i);
                    let b = self.node(i);
                    &&& b.widget == a.widget
                    &&& b.state.local == a.state.local
                    &&& b.parent == a.parent
                    &&& b.properties == a.properties
                    &&& b.state.size == a.state.size
                    &&& b.state.id == a.state.id
                    &&& (i != p ==> b.children@ == a.children@)
                },
    {
        let s0 = before.nodes_spec();
        let old_cs = before.children_spec(p);
        let new_cs = self.children_spec(p);
        assert(before.links_ok(x));
        assert(before.links_ok(p));
        lemma_subtree_index(s0, p, x);
        assert(!in_subtree(s0, p, x));
        assert forall|k: int| 0 <= k < new_cs.len() implies #[trigger] new_cs[k] == (if k < pos {
            old_cs[k]
        } else {
            old_cs[k + 1]
        }) && new_cs[k] != x by {
            if k < pos {
                assert(new_cs[k] == old_cs[k]);
            } else {
                assert(new_cs[k] == old_cs[k + 1]);
            }
        }
        assert(new_cs.no_duplicates()) by {
            assert forall|a: int, b: int|
                0 <= a < new_cs.len() && 0 <= b < new_cs.len() && a != b implies new_cs[a]
                != new_cs[b] by {
                let a0 = if a < pos { a } else { a + 1 };
                let b0 = if b < pos { b } else { b + 1 };
                assert(new_cs[a] == old_cs[a0]);
                assert(new_cs[b] == old_cs[b0]);
            }
        }
        assert forall|i: int| #[trigger]
            self.is_live(i) == (before.is_live(i) && !in_subtree(s0, i, x)) by {
            if i == p {
            } else if 0 <= i < s0.len() {
            }
        }
        assert forall|i: int| #[trigger] self.is_live(i) implies self.links_ok(i) && (i != p
            ==> self.aggregated_ok(i)) && {
            let a = before.node(i);
            let b = self.node(i);
            &&& b.widget == a.widget
            &&& b.state.local == a.state.local
            &&& b.parent == a.parent
            &&& b.properties == a.properties
            &&& b.state.size == a.state.size
            &&& b.state.id == a.state.id
            &&& (i != p ==> b.children@ == a.children@)
        } by {
            assert(before.is_live(i));
            assert(before.links_ok(i));
            let nd = self.node(i);
            assert forall|k: int| 0 <= k < nd.children@.len() implies {
                let c = #[trigger] nd.children@[k] as int;
                &&& self.is_live(c)
                &&& i < c
                &&& self.node(c).parent == Some(i as usize)
            } by {
                let c = nd.children@[k] as int;
                if i == p {
                    let k0 = if k < pos { k } else { k + 1 };
                    assert(old_cs[k0] == nd.children@[k]);
                    assert(before.is_live(c));
                    assert(c != x);
                    assert(before.links_ok(c));
                } else {
                    assert(before.is_live(c));
                    assert(before.links_ok(c));
                    assert(c != x);
                }
                assert(!in_subtree(s0, c, x));
            }
            match nd.parent {
                Some(q) => {
                    assert(before.is_live(q as int));
                    assert(i != x);
                    assert(!in_subtree(s0, q as int, x));
                    if q as int == p {
                        assert(old_cs.contains(i as usize));
                        let k = choose|k: int| 0 <= k < old_cs.len() && old_cs[k] == i as usize;
                        assert(old_cs[k] as int == i);
                        assert(old_cs[pos] as int == x);
                        assert(k != pos);
                        let k1 = if k < pos { k } else { k - 1 };
                        assert(new_cs[k1] == i);
                    }
                },
                None => {},
            }
            if i != p {
                assert(before.aggregated_ok(i));
                let cs = before.children_spec(i);
                assert forall|k: int| 0 <= k < cs.len() implies aggregated_at(
                    s0,
                    #[trigger] cs[k] as int,
                ) == aggregated_at(self.nodes_spec(), cs[k] as int) by {
                    let c = cs[k] as int;
                    assert(before.is_live(c));
                    assert(before.links_ok(c));
                    assert(c != x);
                    assert(!in_subtree(s0, c, x));
                }
                lemma_union_same(s0, self.nodes_spec(), cs);
            }
        }
    }

    /// The parent of a node, if it has one.
    pub fn parent_of(&self, id: WidgetId) -> (r: Option<WidgetId>)
        requires
            self.is_live(id.0 as int),
        ensures
            r == (match self.node(id.0 as int).parent {
                Some(p) => Some(WidgetId(p)),
                None => None,
            }),
    {
        match &self.nodes[id.0] {
            Some(n) => match n.parent {
                Some(p) => Some(WidgetId(p)),
                None => None,
            },
            None => None,
        }
    }

    /// The children of a node, in order.
    pub fn children_of(&self, id: WidgetId) -> (r: Vec<WidgetId>)
        requires
            self.is_live(id.0 as int),
        ensures
            r@.len() == self.children_spec(id.0 as int).len(),
            forall|k: int| 0 <= k < r@.len() ==> #[trigger] r@[k] == WidgetId(self.children_spec(id.0 as int)[k]),
    {
        let mut out: Vec<WidgetId> = Vec::new();
        match &self.nodes[id.0] {
            Some(n) => {
                let mut k: usize = 0;
                while k < n.children.len()
                    invariant
                        0 <= k <= n.children@.len(),
                        n.children@ == self.children_spec(id.0 as int),
                        out@.len() == k,
                        forall|i: int| 0 <= i < k ==> #[trigger] out@[i] == WidgetId(n.children@[i]),
                    decreases n.children@.len() - k,
                {
                    out.push(WidgetId(n.children[k]));
                    k = k + 1;
                }
            },
            None => {},
        }
        out
    }

    /// Whether `id` names a live node.
    pub fn contains(&self, id: WidgetId) -> (r: bool)
        ensures
            r == self.is_live(id.0 as int),
    {
        id.0 < self.nodes.len() && self.nodes[id.0].is_some()
    }

    /// The derived state of a node.
    pub fn state(&self, id: WidgetId) -> (r: WidgetState)
        requires
            self.is_live(id.0 as int),
        ensures
            r == self.node(id.0 as int).state,
    {
        match &self.nodes[id.0] {
            Some(n) => n.state,
            None => WidgetState {
                id,
                size: Size::zero(),
                local: Flags::none(),
                aggregated: Flags::none(),
            },
        }
    }

    /// The property overrides of a node.
    pub fn properties(&self, id: WidgetId) -> (r: &PropertyMap)
        requires
            self.is_live(id.0 as int),
        ensures
            *r == self.node(id.0 as int).properties,
    {
        let n = self.nodes[id.0].as_ref().unwrap();
        &n.properties
    }

    /// The widget of a node.
    pub fn widget(&self, id: WidgetId) -> (r: &W)
        requires
            self.is_live(id.0 as int),
        ensures
            *r == self.node(id.0 as int).widget,
    {
        let n = self.nodes[id.0].as_ref().unwrap();
        &n.widget
    }

    /// An empty arena.
    pub fn new() -> (r: Self)
        ensures
            r.wf(),
            r.nodes_spec().len() == 0,
    {
        WidgetArena { nodes: Vec::new() }
    }
}

/// The union over `ids` depends only on the aggregated flags of the nodes
/// that `ids` lists.
proof fn lemma_union_same<W>(
    before: Seq<Option<WidgetNode<W>>>,
    after: Seq<Option<WidgetNode<W>>>,
    ids: Seq<usize>,
)
    requires
        forall|k: int|
            0 <= k < ids.len() ==> aggregated_at(before, #[trigger] ids[k] as int) == aggregated_at(
                after,
                ids[k] as int,
            ),
    ensures
        union_aggregated(after, ids) == union_aggregated(before, ids),
    decreases ids.len(),
{
    if ids.len() > 0 {
        let rest = ids.drop_last();
        assert forall|k: int| 0 <= k < rest.len() implies aggregated_at(
            before,
            #[trigger] rest[k] as int,
        ) == aggregated_at(after, rest[k] as int) by {
            assert(rest[k] == ids[k]);
        }
        lemma_union_same(before, after, rest);
        assert(ids.last() == ids[ids.len() - 1]);
    }
}

/// In a well-formed arena, the aggregated flag of a pass is set on node `a`
/// exactly when that pass's own flag is set on `a` or on some node below it:
/// the aggregated flag is the union over the whole subtree.
pub proof fn lemma_aggregated_is_subtree_union<W>(arena: WidgetArena<W>, a: int, kind: PassKind)
    requires
        arena.wf(),
        arena.is_live(a),
    ensures
        kind.flag(arena.node(a).state.aggregated) <==> exists|d: int|
            arena.is_live(d) && in_subtree(arena.nodes_spec(), d, a) && kind.flag(
                #[trigger] arena.node(d).state.local,
            ),
{
    if kind.flag(arena.node(a).state.aggregated) {
        lemma_aggregated_has_witness(arena, a, kind);
    }
    if exists|d: int|
        arena.is_live(d) && in_subtree(arena.nodes_spec(), d, a) && kind.flag(
            #[trigger] arena.node(d).state.local,
        ) {
        let d = choose|d: int|
            arena.is_live(d) && in_subtree(arena.nodes_spec(), d, a) && kind.flag(
                #[trigger] arena.node(d).state.local,
            );
        lemma_flag_reaches_ancestor(arena, d, a, kind);
    }
}

/// A flag set on a node's own flags or aggregated flags is set on the
/// aggregated flags of every node above it.
proof fn lemma_flag_reaches_ancestor<W>(arena: WidgetArena<W>, d: int, a: int, kind: PassKind)
    requires
        arena.wf(),
        arena.is_live(d),
        in_subtree(arena.nodes_spec(), d, a),
        kind.flag(arena.node(d).state.local) || kind.flag(arena.node(d).state.aggregated),
    ensures
        kind.flag(arena.node(a).state.aggregated),
    decreases d,
{
    assert(arena.aggregated_ok(d));
    assert(arena.links_ok(d));
    if d != a {
        let p = arena.node(d).parent->Some_0 as int;
        assert(arena.is_live(p));
        assert(arena.links_ok(p));
        assert(arena.aggregated_ok(p));
        let cs = arena.children_spec(p);
        let k = choose|k: int| 0 <= k < cs.len() && cs[k] == d as usize;
        lemma_union_member(arena.nodes_spec(), cs, k, kind);
        lemma_flag_reaches_ancestor(arena, p, a, kind);
    }
}

/// The union over a list holds each listed node's aggregated flags.
proof fn lemma_union_member<W>(nodes: Seq<Option<WidgetNode<W>>>, ids: Seq<usize>, k: int, kind: PassKind)
    requires
        0 <= k < ids.len(),
        kind.flag(aggregated_at(nodes, ids[k] as int)),
    ensures
        kind.flag(union_aggregated(nodes, ids)),
    decreases ids.len(),
{
    if k < ids.len() - 1 {
        assert(ids.drop_last()[k] == ids[k]);
        lemma_union_member(nodes, ids.drop_last(), k, kind);
    }
}

/// A flag set in the union over a list is set in the aggregated flags of a
/// listed node.
proof fn lemma_union_witness<W>(nodes: Seq<Option<WidgetNode<W>>>, ids: Seq<usize>, kind: PassKind) -> (k: int)
    requires
        kind.flag(union_aggregated(nodes, ids)),
    ensures
        0 <= k < ids.len(),
        kind.flag(aggregated_at(nodes, ids[k] as int)),
    decreases ids.len(),
{
    if kind.flag(aggregated_at(nodes, ids.last() as int)) {
        ids.len() - 1
    } else {
        let k = lemma_union_witness(nodes, ids.drop_last(), kind);
        assert(ids.drop_last()[k] == ids[k]);
        k
    }
}

/// A set aggregated flag comes from the own flag of some node of the subtree.
proof fn lemma_aggregated_has_witness<W>(arena: WidgetArena<W>, a: int, kind: PassKind)
    requires
        arena.wf(),
        arena.is_live(a),
        kind.flag(arena.node(a).state.aggregated),
    ensures
        exists|d: int|
            arena.is_live(d) && in_subtree(arena.nodes_spec(), d, a) && kind.flag(
                #[trigger] arena.node(d).state.local,
            ),
    decreases arena.nodes_spec().len() - a,
{
    assert(arena.aggregated_ok(a));
    assert(arena.links_ok(a));
    if kind.flag(arena.node(a).state.local) {
        assert(in_subtree(arena.nodes_spec(), a, a));
    } else {
        let cs = arena.children_spec(a);
        let k = lemma_union_witness(arena.nodes_spec(), cs, kind);
        let c = cs[k] as int;
        assert(arena.is_live(c));
        lemma_aggregated_has_witness(arena, c, kind);
        let d = choose|d: int|
            arena.is_live(d) && in_subtree(arena.nodes_spec(), d, c) && kind.flag(
                #[trigger] arena.node(d).state.local,
            );
        lemma_subtree_step(arena, d, c, a);
    }
}

/// A node below a child of `a` is below `a`.
proof fn lemma_subtree_step<W>(arena: WidgetArena<W>, d: int, c: int, a: int)
    requires
        arena.structure_ok(),
        arena.is_live(c),
        arena.is_live(a),
        arena.node(c).parent == Some(a as usize),
        in_subtree(arena.nodes_spec(), d, c),
    ensures
        in_subtree(arena.nodes_spec(), d, a),
    decreases d,
{
    assert(arena.links_ok(c));
    lemma_subtree_index(arena.nodes_spec(), d, c);
    if d == c {
        assert(in_subtree(arena.nodes_spec(), a, a));
    } else {
        let q = arena.nodes_spec()[d]->Some_0.parent->Some_0 as int;
        lemma_subtree_step(arena, q, c, a);
    }
}

/// Membership of a subtree depends only on which nodes are live and on their
/// parent links.
pub proof fn lemma_subtree_same_links<W>(a: WidgetArena<W>, b: WidgetArena<W>, y: int, x: int)
    requires
        a.nodes_spec().len() == b.nodes_spec().len(),
        forall|j: int| #[trigger] a.is_live(j) == b.is_live(j),
        forall|j: int| #[trigger] a.is_live(j) ==> a.node(j).parent == b.node(j).parent,
    ensures
        in_subtree(a.nodes_spec(), y, x) == in_subtree(b.nodes_spec(), y, x),
    decreases y,
{
    if y != x && a.is_live(y) {
        assert(b.is_live(y));
        if a.node(y).parent is Some && (a.node(y).parent->Some_0 as int) < y {
            lemma_subtree_same_links(a, b, a.node(y).parent->Some_0 as int, x);
        }
    } else if y != x {
        assert(!b.is_live(y));
    }
}

/// A node of the subtree rooted at `x` never sits below `x` in the arena.
pub proof fn lemma_subtree_index<W>(nodes: Seq<Option<WidgetNode<W>>>, y: int, x: int)
    ensures
        in_subtree(nodes, y, x) ==> y >= x,
    decreases y,
{
    if y != x && 0 <= y < nodes.len() && nodes[y] is Some && nodes[y]->Some_0.parent is Some
        && (nodes[y]->Some_0.parent->Some_0 as int) < y {
        lemma_subtree_index(nodes, nodes[y]->Some_0.parent->Some_0 as int, x);
    }
}

/// Inserting a value that a list lacks keeps the list free of duplicates.
proof fn lemma_insert_no_duplicates(old_cs: Seq<usize>, index: int, n: usize)
    requires
        old_cs.no_duplicates(),
        !old_cs.contains(n),
        0 <= index <= old_cs.len(),
    ensures
        old_cs.insert(index, n).no_duplicates(),
        forall|k: int|
            0 <= k < old_cs.len() + 1 ==> #[trigger] old_cs.insert(index, n)[k] == (if k < index {
                old_cs[k]
            } else if k == index {
                n
            } else {
                old_cs[k - 1]
            }),
{
    let new_cs = old_cs.insert(index, n);
    assert forall|k: int| 0 <= k < new_cs.len() implies #[trigger] new_cs[k] == (if k < index {
        old_cs[k]
    } else if k == index {
        n
    } else {
        old_cs[k - 1]
    }) by {}
    assert forall|a: int, b: int|
        0 <= a < new_cs.len() && 0 <= b < new_cs.len() && a != b implies new_cs[a] != new_cs[b] by {
        if a != index && b != index {
            let a0 = if a < index { a } else { a - 1 };
            assert(old_cs[a0] == new_cs[a]);
        } else if a == index {
            let b0 = if b < index { b } else { b - 1 };
            assert(old_cs[b0] == new_cs[b]);
            assert(old_cs.contains(new_cs[b]));
        } else {
            let a0 = if a < index { a } else { a - 1 };
            assert(old_cs[a0] == new_cs[a]);
            assert(old_cs.contains(new_cs[a]));
        }
    }
}

proof fn lemma_same_but_aggregated_trans<W>(a: WidgetArena<W>, b: WidgetArena<W>, c: WidgetArena<W>)
    requires
        a.same_but_aggregated(b),
        b.same_but_aggregated(c),
    ensures
        a.same_but_aggregated(c),
{
    assert forall|i: int| #[trigger] a.is_live(i) implies b.is_live(i) by {}
}

} // verus!
