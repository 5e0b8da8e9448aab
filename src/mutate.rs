//! Mutation of single nodes, now or deferred, with the merge of their
//! changed flags up to the root.
use vstd::prelude::*;

use crate::properties::PropertyMap;
use crate::widget_arena::{
    in_subtree, lemma_subtree_same_links, union_aggregated, Flags, WidgetArena, WidgetId, WidgetMut,
};

verus! {

/// A change that can be queued for a node and applied later.
#[derive(Clone, Copy, Debug, PartialEq, Eq, Structural)]
pub enum Mutation {
    RequestLayout,
    RequestPaint,
    RequestAccessibility,
    /// Overrides property `key` with `value` on the node.
    SetProperty { key: u64, value: u64 },
}

impl Mutation {
    /// The node's own flags after this change.
    pub open spec fn apply_spec(self, local: Flags) -> Flags {
        match self {
            Mutation::RequestLayout => Flags { layout: true, ..local },
            Mutation::RequestPaint => Flags { paint: true, ..local },
            Mutation::RequestAccessibility => Flags { accessibility: true, ..local },
            Mutation::SetProperty { .. } => local,
        }
    }

    /// The node's override of property `key` after this change, given the
    /// one before.
    pub open spec fn property_after(self, key: u64, current: Option<u64>) -> Option<u64> {
        match self {
            Mutation::SetProperty { key: k, value } => if k == key {
                Some(value)
            } else {
                current
            },
            _ => current,
        }
    }

    /// Applies this change through a node's handle.
    pub fn apply<W>(self, handle: WidgetMut<W>) -> (r: WidgetMut<W>)
        ensures
            r.local_spec() == self.apply_spec(handle.local_spec()),
            r.widget_spec() == handle.widget_spec(),
            forall|key: u64| #[trigger]
                r.properties_spec().get_spec(key) == self.property_after(
                    key,
                    handle.properties_spec().get_spec(key),
                ),
            r.id_spec() == handle.id_spec(),
            r.defaults_spec() == handle.defaults_spec(),
            r.removal_spec() == handle.removal_spec(),
    {
        let mut handle = handle;
        match self {
            Mutation::RequestLayout => handle.request_layout(),
            Mutation::RequestPaint => handle.request_paint(),
            Mutation::RequestAccessibility => handle.request_accessibility(),
            Mutation::SetProperty { key, value } => handle.set_property(key, value),
        }
        handle
    }
}

/// A mutation waiting in the queue: the node it targets, and the change.
#[derive(Clone, Copy, Debug, PartialEq, Eq, Structural)]
pub struct MutateCallback {
    pub id: WidgetId,
    pub mutation: Mutation,
}

/// The own flags of node `i` after the queued mutations `queue` have run on
/// them one after another, in queue order.
pub open spec fn queued_effect(local: Flags, i: int, queue: Seq<MutateCallback>) -> Flags
    decreases queue.len(),
{
    if queue.len() == 0 {
        local
    } else {
        let before = queued_effect(local, i, queue.drop_last());
        if queue.last().id.0 as int == i {
            queue.last().mutation.apply_spec(before)
        } else {
            before
        }
    }
}

/// The override of property `key` on node `i` after the queued mutations
/// `queue` have run one after another, in queue order.
pub open spec fn queued_property(
    current: Option<u64>,
    i: int,
    key: u64,
    queue: Seq<MutateCallback>,
) -> Option<u64>
    decreases queue.len(),
{
    if queue.len() == 0 {
        current
    } else {
        let before = queued_property(current, i, key, queue.drop_last());
        if queue.last().id.0 as int == i {
            queue.last().mutation.property_after(key, before)
        } else {
            before
        }
    }
}

/// The widget tree together with its queue of deferred mutations and its
/// table of default property values.
pub struct RenderRoot<W> {
    pub widget_arena: WidgetArena<W>,
    pub mutate_callbacks: Vec<MutateCallback>,
    /// The values a property takes on nodes that do not override it.
    pub default_properties: PropertyMap,
}

impl<W> RenderRoot<W> {
    /// A tree holding one root widget, with an empty queue.
    pub fn new(root_widget: W) -> (r: (RenderRoot<W>, WidgetId))
        ensures
            r.0.widget_arena.wf(),
            r.0.widget_arena.is_live(r.1.0 as int),
            r.0.widget_arena.node(r.1.0 as int).widget == root_widget,
            r.0.widget_arena.node(r.1.0 as int).parent is None,
            r.0.widget_arena.children_spec(r.1.0 as int).len() == 0,
            r.0.mutate_callbacks@.len() == 0,
            forall|key: u64| #[trigger] r.0.default_properties.get_spec(key) is None,
    {
        let mut widget_arena = WidgetArena::new();
        let id = widget_arena.insert_root(root_widget);
        (
            RenderRoot {
                widget_arena,
                mutate_callbacks: Vec::new(),
                default_properties: PropertyMap::new(),
            },
            id,
        )
    }

    /// The value of property `key` on node `id`: the node's override, else
    /// the default.
    pub fn property(&self, id: WidgetId, key: u64) -> (r: Option<u64>)
        requires
            self.widget_arena.is_live(id.0 as int),
        ensures
            r == (match self.widget_arena.node(id.0 as int).properties.get_spec(key) {
                Some(v) => Some(v),
                None => self.default_properties.get_spec(key),
            }),
    {
        match self.widget_arena.properties(id).get(key) {
            Some(v) => Some(v),
            None => self.default_properties.get(key),
        }
    }

    /// Queues `mutation` for node `id`, to run in the next mutate pass; the
    /// tree is left as it is until then.
    pub fn mutate_later(&mut self, id: WidgetId, mutation: Mutation)
        ensures
            final(self).mutate_callbacks@ == old(self).mutate_callbacks@.push(
                MutateCallback { id, mutation },
            ),
            final(self).widget_arena == old(self).widget_arena,
            final(self).default_properties == old(self).default_properties,
    {
        self.mutate_callbacks.push(MutateCallback { id, mutation });
    }
}

/// Gives `mutate_fn` exclusive access to node `id`, with a copy of the
/// table of defaults, stores what it changed, removes the child it asked to
/// remove (with that child's subtree), then merges the changed flags into
/// every ancestor up to the root. Returns what `mutate_fn` returned. The
/// table of defaults itself is left as it is.
pub fn mutate_widget<W, R, F: FnOnce(WidgetMut<W>) -> (WidgetMut<W>, R)>(
    root: &mut RenderRoot<W>,
    id: WidgetId,
    mutate_fn: F,
) -> (r: R)
    requires
        old(root).widget_arena.wf(),
        old(root).widget_arena.is_live(id.0 as int),
        forall|defaults: PropertyMap|
            defaults.same_values(old(root).default_properties) ==> #[trigger] mutate_fn.requires(
                (old(root).widget_arena.handle_spec(id.0 as int, defaults),),
            ),
    ensures
        final(root).widget_arena.wf(),
        final(root).mutate_callbacks == old(root).mutate_callbacks,
        final(root).default_properties == old(root).default_properties,
        exists|defaults: PropertyMap, h: WidgetMut<W>|
            defaults.same_values(old(root).default_properties) && call_ensures(
                mutate_fn,
                (old(root).widget_arena.handle_spec(id.0 as int, defaults),),
                (h, r),
            ) && old(root).widget_arena.mutated_and_pruned(
                final(root).widget_arena,
                id.0 as int,
                h.widget_spec(),
                h.local_spec(),
                h.properties_spec(),
                h.removal_spec(),
            ),
{
    let defaults = root.default_properties.duplicate();
    let ghost d = defaults;
    let (result, _, removal) = root.widget_arena.mutate_node(id.0, mutate_fn, defaults);
    let ghost mid = root.widget_arena;
    proof {
        assert(mid.is_live(id.0 as int));
    }
    root.widget_arena.merge_up_to_root(id.0);
    let ghost merged = root.widget_arena;
    let h = Ghost(
        choose|h: WidgetMut<W>|
            call_ensures(
                mutate_fn,
                (old(root).widget_arena.handle_spec(id.0 as int, d),),
                (h, result),
            ) && old(root).widget_arena.mutated_at(mid, id.0 as int, h.widget, h.local, h.properties)
                && removal == h.removal,
    );
    proof {
        assert forall|j: int| #[trigger] old(root).widget_arena.is_live(j) implies mid.is_live(j) by {}
        assert(old(root).widget_arena.mutated_at(
            merged,
            id.0 as int,
            h@.widget_spec(),
            h@.local_spec(),
            h@.properties_spec(),
        ));
    }
    let removes = match removal {
        Some(c) => {
            if root.widget_arena.contains(c) {
                match root.widget_arena.parent_of(c) {
                    Some(p) => p.0 == id.0,
                    None => false,
                }
            } else {
                false
            }
        },
        None => false,
    };
    proof {
        if removal is Some {
            let c = removal->Some_0.0 as int;
            assert(merged.is_live(c) == old(root).widget_arena.is_live(c));
        }
        assert(removes == old(root).widget_arena.removes_child(id.0 as int, removal));
    }
    if removes {
        let c = match removal {
            Some(c) => c,
            None => id,
        };
        root.widget_arena.remove_child(id, c);
        proof {
            let o = old(root).widget_arena;
            let f = root.widget_arena;
            assert forall|j: int| #[trigger] o.is_live(j) implies o.node(j).parent == merged.node(
                j,
            ).parent by {
                assert(merged.is_live(j));
            }
            assert forall|j: int| #[trigger] o.is_live(j) == merged.is_live(j) by {}
            assert forall|j: int| #[trigger]
                f.is_live(j) == (o.is_live(j) && !in_subtree(o.nodes_spec(), j, c.0 as int)) by {
                lemma_subtree_same_links(o, merged, j, c.0 as int);
            }
            assert forall|j: int| #[trigger] f.is_live(j) implies {
                let a = o.node(j);
                let b = f.node(j);
                &&& b.widget == (if j == id.0 { h@.widget } else { a.widget })
                &&& b.state.local == (if j == id.0 { h@.local } else { a.state.local })
                &&& b.properties == (if j == id.0 { h@.properties } else { a.properties })
                &&& a.parent == b.parent
                &&& (j != id.0 ==> a.children@ == b.children@)
                &&& a.state.id == b.state.id
                &&& a.state.size == b.state.size
            } by {
                assert(merged.is_live(j));
                assert(o.is_live(j));
            }
            assert(merged.children_spec(id.0 as int) == o.children_spec(id.0 as int));
        }
    } else {
        proof {
            let o = old(root).widget_arena;
            assert forall|j: int| #[trigger] o.is_live(j) implies merged.is_live(j) by {}
        }
    }
    proof {
        let o = old(root).widget_arena;
        let f = root.widget_arena;
        let rm = o.removes_child(id.0 as int, h@.removal_spec());
        let c = h@.removal_spec()->Some_0.0 as int;
        assert(o.nodes_spec().len() == f.nodes_spec().len());
        assert(forall|j: int| #[trigger] f.is_live(j) == (o.is_live(j) && !(rm && in_subtree(o.nodes_spec(), j, c))));
        assert(!rm ==> f.children_spec(id.0 as int) == o.children_spec(id.0 as int));
        assert(rm ==> exists|pos: int|
            0 <= pos < o.children_spec(id.0 as int).len() && o.children_spec(id.0 as int)[pos] == c
                && f.children_spec(id.0 as int) == o.children_spec(id.0 as int).remove(pos));
        assert(d.same_values(old(root).default_properties));
        assert(call_ensures(
            mutate_fn,
            (old(root).widget_arena.handle_spec(id.0 as int, d),),
            (h@, result),
        ));
        assert(old(root).widget_arena.mutated_and_pruned(
            root.widget_arena,
            id.0 as int,
            h@.widget_spec(),
            h@.local_spec(),
            h@.properties_spec(),
            h@.removal_spec(),
        ));
    }
    result
}

/// Removing the only child `c` of node `p` through a mutation of `p`, as
/// [`mutate_widget`] states it, leaves `p` without children, `c` gone, and
/// `p`'s aggregated flags equal to its own flags.
pub proof fn lemma_remove_only_child<W>(
    before: WidgetArena<W>,
    after: WidgetArena<W>,
    p: int,
    c: WidgetId,
    widget: W,
    local: Flags,
    properties: PropertyMap,
)
    requires
        before.wf(),
        before.is_live(p),
        before.children_spec(p) == seq![c.0],
        after.wf(),
        before.mutated_and_pruned(after, p, widget, local, properties, Some(c)),
    ensures
        after.is_live(p),
        after.children_spec(p).len() == 0,
        !after.is_live(c.0 as int),
        after.node(p).state.aggregated == after.node(p).state.local,
{
    assert(before.links_ok(p));
    assert(before.children_spec(p)[0] == c.0);
    assert(before.removes_child(p, Some(c)));
    crate::widget_arena::lemma_subtree_index(before.nodes_spec(), p, c.0 as int);
    assert(in_subtree(before.nodes_spec(), c.0 as int, c.0 as int));
    assert(after.is_live(p));
    let pos = choose|pos: int|
        0 <= pos < before.children_spec(p).len() && before.children_spec(p)[pos] == c.0
            && after.children_spec(p) == before.children_spec(p).remove(pos);
    assert(after.children_spec(p).len() == 0);
    assert(after.aggregated_ok(p));
    assert(union_aggregated(after.nodes_spec(), after.children_spec(p)) == Flags::none_spec());
}

/// Runs every deferred mutation, once each and in the order in which they
/// were queued, and leaves the queue empty.
pub fn run_mutate_pass<W>(root: &mut RenderRoot<W>)
    requires
        old(root).widget_arena.wf(),
        forall|k: int|
            0 <= k < old(root).mutate_callbacks@.len() ==> old(root).widget_arena.is_live(
                #[trigger] old(root).mutate_callbacks@[k].id.0 as int,
            ),
    ensures
        final(root).widget_arena.wf(),
        final(root).mutate_callbacks@.len() == 0,
        final(root).default_properties == old(root).default_properties,
        forall|i: int| #[trigger]
            final(root).widget_arena.is_live(i) == old(root).widget_arena.is_live(i),
        forall|i: int| #[trigger]
            old(root).widget_arena.is_live(i) ==> {
                let a = old(root).widget_arena.node(i);
                let b = final(root).widget_arena.node(i);
                &&& b.state.local == queued_effect(a.state.local, i, old(root).mutate_callbacks@)
                &&& forall|key: u64| #[trigger]
                    b.properties.get_spec(key) == queued_property(
                        a.properties.get_spec(key),
                        i,
                        key,
                        old(root).mutate_callbacks@,
                    )
                &&& b.widget == a.widget
                &&& b.parent == a.parent
                &&& b.state.size == a.state.size
                &&& b.state.id == a.state.id
                &&& b.children@ == a.children@
            },
{
    let mut callbacks: Vec<MutateCallback> = Vec::new();
    std::mem::swap(&mut callbacks, &mut root.mutate_callbacks);
    let ghost start = root.widget_arena;
    let mut k: usize = 0;
    while k < callbacks.len()
        invariant
            0 <= k <= callbacks@.len(),
            callbacks@ == old(root).mutate_callbacks@,
            start == old(root).widget_arena,
            root.mutate_callbacks@.len() == 0,
            root.default_properties == old(root).default_properties,
            root.widget_arena.wf(),
            forall|j: int|
                0 <= j < callbacks@.len() ==> start.is_live(#[trigger] callbacks@[j].id.0 as int),
            forall|i: int| #[trigger] root.widget_arena.is_live(i) == start.is_live(i),
            forall|i: int| #[trigger]
                start.is_live(i) ==> {
                    let a = start.node(i);
                    let b = root.widget_arena.node(i);
                    &&& b.state.local == queued_effect(a.state.local, i, callbacks@.take(k as int))
                    &&& forall|key: u64| #[trigger]
                        b.properties.get_spec(key) == queued_property(
                            a.properties.get_spec(key),
                            i,
                            key,
                            callbacks@.take(k as int),
                        )
                    &&& b.widget == a.widget
                    &&& b.parent == a.parent
                    &&& b.state.size == a.state.size
                    &&& b.state.id == a.state.id
                    &&& b.children@ == a.children@
                },
        decreases callbacks@.len() - k,
    {
        let callback = callbacks[k];
        let mutation = callback.mutation;
        let ghost before = root.widget_arena;
        let ghost before_defaults = root.default_properties;
        proof {
            assert(start.is_live(callbacks@[k as int].id.0 as int));
        }
        let apply_queued = move |handle: WidgetMut<W>| -> (r: (WidgetMut<W>, ()))
            ensures
                r.0.local_spec() == mutation.apply_spec(handle.local_spec()),
                r.0.widget_spec() == handle.widget_spec(),
                r.0.defaults_spec() == handle.defaults_spec(),
                r.0.removal_spec() == handle.removal_spec(),
                forall|key: u64| #[trigger]
                    r.0.properties_spec().get_spec(key) == mutation.property_after(
                        key,
                        handle.properties_spec().get_spec(key),
                    ),
            { (mutation.apply(handle), ()) };
        mutate_widget(root, callback.id, apply_queued);
        proof {
            let (d, h) = choose|d: PropertyMap, h: WidgetMut<W>|
                d.same_values(before_defaults) && call_ensures(
                    apply_queued,
                    (before.handle_spec(callback.id.0 as int, d),),
                    (h, ()),
                ) && before.mutated_and_pruned(
                    root.widget_arena,
                    callback.id.0 as int,
                    h.widget_spec(),
                    h.local_spec(),
                    h.properties_spec(),
                    h.removal_spec(),
                );
            assert(!before.removes_child(callback.id.0 as int, h.removal_spec()));
            let q = callbacks@.take(k as int + 1);
            assert(q.drop_last() =~= callbacks@.take(k as int));
            assert(q.last() == callback);
            assert forall|i: int| #[trigger] start.is_live(i) implies {
                let a = start.node(i);
                let b = root.widget_arena.node(i);
                &&& b.state.local == queued_effect(a.state.local, i, q)
                &&& forall|key: u64| #[trigger]
                    b.properties.get_spec(key) == queued_property(a.properties.get_spec(key), i, key, q)
                &&& b.widget == a.widget
                &&& b.parent == a.parent
                &&& b.state.size == a.state.size
                &&& b.state.id == a.state.id
                &&& b.children@ == a.children@
            } by {
                assert(before.is_live(i));
                assert(root.widget_arena.is_live(i));
                if i == callback.id.0 as int {
                    assert(root.widget_arena.children_spec(i) == before.children_spec(i));
                    assert forall|key: u64| #[trigger]
                        root.widget_arena.node(i).properties.get_spec(key) == queued_property(
                            start.node(i).properties.get_spec(key),
                            i,
                            key,
                            q,
                        ) by {
                        assert(h.properties_spec().get_spec(key) == mutation.property_after(
                            key,
                            before.node(i).properties.get_spec(key),
                        ));
                    }
                }
            }
            assert forall|i: int| #[trigger] root.widget_arena.is_live(i) == start.is_live(i) by {
                assert(before.is_live(i) == root.widget_arena.is_live(i));
            }
        }
        k = k + 1;
    }
    proof {
        assert(callbacks@.take(k as int) =~= callbacks@);
    }
}

} // verus!
