use masonry_core::mutate::{mutate_widget, run_mutate_pass, Mutation, RenderRoot};
use masonry_core::widget_arena::{Flags, PassKind, WidgetId, WidgetMut};

fn clean() -> Flags {
    Flags::none()
}

fn finish_all(root: &mut RenderRoot<String>) {
    for kind in [PassKind::Layout, PassKind::Paint, PassKind::Accessibility, PassKind::Mutation] {
        root.widget_arena.finish_pass(kind);
    }
}

/// root -> (a -> (a1, a2), b)
fn sample() -> (RenderRoot<String>, [WidgetId; 5]) {
    let (mut root, r) = RenderRoot::new("root".to_string());
    let a = root.widget_arena.insert_child(r, 0, "a".to_string());
    let b = root.widget_arena.insert_child(r, 1, "b".to_string());
    let a1 = root.widget_arena.insert_child(a, 0, "a1".to_string());
    let a2 = root.widget_arena.insert_child(a, 1, "a2".to_string());
    finish_all(&mut root);
    (root, [r, a, b, a1, a2])
}

#[test]
fn new_nodes_start_invalid() {
    let (mut root, r) = RenderRoot::new("root".to_string());
    assert_eq!(root.widget_arena.state(r).local, Flags::all());
    let c = root.widget_arena.insert_child(r, 0, "child".to_string());
    assert_eq!(root.widget_arena.state(c).local, Flags::all());
    assert_eq!(root.widget_arena.state(c).aggregated, Flags::all());
    assert_eq!(root.widget_arena.parent_of(c), Some(r));
    assert_eq!(root.widget_arena.parent_of(r), None);
    assert_eq!(root.widget_arena.children_of(r), vec![c]);
    assert_eq!(root.widget_arena.widget(c), "child");
}

#[test]
fn insert_child_keeps_the_given_order() {
    let (mut root, r) = RenderRoot::new("root".to_string());
    let x = root.widget_arena.insert_child(r, 0, "x".to_string());
    let y = root.widget_arena.insert_child(r, 0, "y".to_string());
    let z = root.widget_arena.insert_child(r, 1, "z".to_string());
    assert_eq!(root.widget_arena.children_of(r), vec![y, z, x]);
}

#[test]
fn finish_pass_clears_only_its_flag() {
    let (mut root, r) = RenderRoot::new("root".to_string());
    let c = root.widget_arena.insert_child(r, 0, "c".to_string());
    root.widget_arena.finish_pass(PassKind::Layout);
    let expected = Flags { layout: false, paint: true, accessibility: true, mutation: true };
    assert_eq!(root.widget_arena.state(c).local, expected);
    assert_eq!(root.widget_arena.state(r).aggregated, expected);
    finish_all(&mut root);
    assert_eq!(root.widget_arena.state(r).aggregated, clean());
    assert_eq!(root.widget_arena.state(c).aggregated, clean());
}

#[test]
fn mutation_merges_up_to_every_ancestor() {
    let (mut root, [r, a, b, a1, a2]) = sample();
    let result = mutate_widget(&mut root, a1, |mut handle: WidgetMut<String>| {
        handle.request_paint();
        let name = handle.widget().clone();
        (handle, name)
    });
    assert_eq!(result, "a1");
    let paint = Flags { paint: true, ..clean() };
    assert_eq!(root.widget_arena.state(a1).local, paint);
    assert_eq!(root.widget_arena.state(a1).aggregated, paint);
    assert_eq!(root.widget_arena.state(a).local, clean());
    assert_eq!(root.widget_arena.state(a).aggregated, paint);
    assert_eq!(root.widget_arena.state(r).aggregated, paint);
    assert_eq!(root.widget_arena.state(b).aggregated, clean());
    assert_eq!(root.widget_arena.state(a2).aggregated, clean());
}

#[test]
fn mutation_can_replace_the_widget() {
    let (mut root, [_, _, b, _, _]) = sample();
    mutate_widget(&mut root, b, |mut handle: WidgetMut<String>| {
        assert_eq!(handle.id(), b);
        handle.set_widget("New text".to_string());
        (handle, ())
    });
    assert_eq!(root.widget_arena.widget(b), "New text");
    assert_eq!(root.widget_arena.state(b).local, clean());
}

#[test]
fn aggregated_flags_are_the_union_of_the_subtree() {
    let (mut root, [r, a, b, a1, a2]) = sample();
    mutate_widget(&mut root, a2, |mut handle: WidgetMut<String>| {
        handle.request_layout();
        (handle, ())
    });
    mutate_widget(&mut root, b, |mut handle: WidgetMut<String>| {
        handle.request_accessibility();
        (handle, ())
    });
    let layout = Flags { layout: true, ..clean() };
    let access = Flags { accessibility: true, ..clean() };
    assert_eq!(root.widget_arena.state(a).aggregated, layout);
    assert_eq!(root.widget_arena.state(a1).aggregated, clean());
    assert_eq!(root.widget_arena.state(r).aggregated, layout.or(&access));
    root.widget_arena.finish_pass(PassKind::Layout);
    assert_eq!(root.widget_arena.state(a).aggregated, clean());
    assert_eq!(root.widget_arena.state(r).aggregated, access);
    assert_eq!(root.widget_arena.state(b).local, access);
}

#[test]
fn deferred_mutations_run_in_order_once() {
    let (mut root, [r, a, b, a1, _]) = sample();
    root.mutate_later(a1, Mutation::RequestLayout);
    root.mutate_later(b, Mutation::RequestPaint);
    root.mutate_later(a1, Mutation::RequestAccessibility);
    assert_eq!(root.mutate_callbacks.len(), 3);
    assert_eq!(root.widget_arena.state(a1).local, clean());
    run_mutate_pass(&mut root);
    assert_eq!(root.mutate_callbacks.len(), 0);
    assert_eq!(
        root.widget_arena.state(a1).local,
        Flags { layout: true, accessibility: true, ..clean() }
    );
    assert_eq!(root.widget_arena.state(b).local, Flags { paint: true, ..clean() });
    assert_eq!(
        root.widget_arena.state(a).aggregated,
        Flags { layout: true, accessibility: true, ..clean() }
    );
    assert_eq!(
        root.widget_arena.state(r).aggregated,
        Flags { layout: true, paint: true, accessibility: true, mutation: false }
    );
    run_mutate_pass(&mut root);
    assert_eq!(root.mutate_callbacks.len(), 0);
}

#[test]
fn deferred_mutation_waits_for_the_mutate_pass() {
    let (mut root, [r, a, b, a1, a2]) = sample();
    // A layout pass walks the nodes in order; at `a` it asks for a later
    // change of `a2`, which the nodes after it must not see.
    let mut seen = Vec::new();
    for id in [r, a, a1, a2, b] {
        if id == a {
            root.mutate_later(a2, Mutation::RequestPaint);
        }
        seen.push(root.widget_arena.state(id).local);
    }
    assert!(seen.iter().all(|f| *f == clean()));
    root.widget_arena.finish_pass(PassKind::Layout);
    assert_eq!(root.widget_arena.state(a2).local, clean());
    run_mutate_pass(&mut root);
    assert_eq!(root.widget_arena.state(a2).local, Flags { paint: true, ..clean() });
    assert_eq!(root.widget_arena.state(r).aggregated, Flags { paint: true, ..clean() });
}

#[test]
fn access_grandchild_widget() {
    let (mut root, r) = RenderRoot::new("column".to_string());
    let row = root.widget_arena.insert_child(r, 0, "row".to_string());
    let inner = root.widget_arena.insert_child(row, 0, "row".to_string());
    let label = root.widget_arena.insert_child(inner, 0, "Old text".to_string());
    finish_all(&mut root);
    mutate_widget(&mut root, label, |mut handle: WidgetMut<String>| {
        handle.set_widget("New text".to_string());
        handle.request_layout();
        (handle, ())
    });
    assert_eq!(root.widget_arena.widget(label), "New text");
    assert!(root.widget_arena.state(r).aggregated.layout);
    assert!(root.widget_arena.state(row).aggregated.layout);
    assert!(!root.widget_arena.state(row).local.layout);
}

#[test]
fn removing_an_only_child_leaves_no_children() {
    let (mut root, [r, a, b, a1, a2]) = sample();
    let leaf = root.widget_arena.insert_child(b, 0, "leaf".to_string());
    finish_all(&mut root);
    mutate_widget(&mut root, a1, |mut handle: WidgetMut<String>| {
        handle.request_paint();
        (handle, ())
    });
    let a_state = root.widget_arena.state(a);
    let a1_state = root.widget_arena.state(a1);
    let a2_state = root.widget_arena.state(a2);
    root.widget_arena.remove_child(b, leaf);
    assert!(root.widget_arena.children_of(b).is_empty());
    assert!(!root.widget_arena.contains(leaf));
    assert_eq!(root.widget_arena.children_of(a), vec![a1, a2]);
    assert_eq!(root.widget_arena.state(a).local, a_state.local);
    assert_eq!(root.widget_arena.state(a).aggregated, a_state.aggregated);
    assert_eq!(root.widget_arena.state(a1).local, a1_state.local);
    assert_eq!(root.widget_arena.state(a2).local, a2_state.local);
    assert_eq!(root.widget_arena.children_of(r), vec![a, b]);
}

#[test]
fn removing_a_subtree_destroys_its_descendants() {
    let (mut root, [r, a, b, a1, a2]) = sample();
    mutate_widget(&mut root, a2, |mut handle: WidgetMut<String>| {
        handle.request_layout();
        (handle, ())
    });
    assert!(root.widget_arena.state(r).aggregated.layout);
    root.widget_arena.remove_child(r, a);
    assert!(!root.widget_arena.contains(a));
    assert!(!root.widget_arena.contains(a1));
    assert!(!root.widget_arena.contains(a2));
    assert!(root.widget_arena.contains(b));
    assert_eq!(root.widget_arena.children_of(r), vec![b]);
    // The invalid node went with the subtree.
    assert_eq!(root.widget_arena.state(r).aggregated, clean());
    // A new node gets a fresh index.
    let c = root.widget_arena.insert_child(r, 1, "c".to_string());
    assert!(c != a && c != a1 && c != a2);
    assert_eq!(root.widget_arena.children_of(r), vec![b, c]);
}

#[test]
fn removing_an_only_child_through_a_mutation() {
    let (mut root, [r, a, b, a1, a2]) = sample();
    let leaf = root.widget_arena.insert_child(b, 0, "leaf".to_string());
    let grandchild = root.widget_arena.insert_child(leaf, 0, "grandchild".to_string());
    finish_all(&mut root);
    mutate_widget(&mut root, a1, |mut handle: WidgetMut<String>| {
        handle.request_paint();
        (handle, ())
    });
    mutate_widget(&mut root, leaf, |mut handle: WidgetMut<String>| {
        handle.request_layout();
        (handle, ())
    });
    let a_state = root.widget_arena.state(a);
    let a1_state = root.widget_arena.state(a1);
    let size = mutate_widget(&mut root, b, |mut handle: WidgetMut<String>| {
        handle.remove_child(leaf);
        let size = handle.size();
        (handle, size)
    });
    assert_eq!(size, root.widget_arena.state(b).size);
    assert!(root.widget_arena.children_of(b).is_empty());
    assert!(!root.widget_arena.contains(leaf));
    assert!(!root.widget_arena.contains(grandchild));
    assert_eq!(root.widget_arena.state(b).aggregated, root.widget_arena.state(b).local);
    assert_eq!(root.widget_arena.children_of(a), vec![a1, a2]);
    assert_eq!(root.widget_arena.state(a).aggregated, a_state.aggregated);
    assert_eq!(root.widget_arena.state(a1).local, a1_state.local);
    assert_eq!(root.widget_arena.state(r).aggregated, Flags { paint: true, ..clean() });
}

#[test]
fn removing_a_node_that_is_not_a_child_is_ignored() {
    let (mut root, [r, a, b, a1, _]) = sample();
    mutate_widget(&mut root, b, |mut handle: WidgetMut<String>| {
        handle.remove_child(a1);
        (handle, ())
    });
    assert!(root.widget_arena.contains(a1));
    assert_eq!(root.widget_arena.children_of(r), vec![a, b]);
}
