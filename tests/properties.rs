use masonry_core::mutate::{mutate_widget, run_mutate_pass, Mutation, RenderRoot};
use masonry_core::properties::PropertyMap;
use masonry_core::widget_arena::WidgetMut;

#[test]
fn property_map_keeps_the_last_value_per_key() {
    let mut map = PropertyMap::new();
    assert_eq!(map.get(1), None);
    map.insert(1, 10);
    map.insert(2, 20);
    map.insert(1, 11);
    assert_eq!(map.get(1), Some(11));
    assert_eq!(map.get(2), Some(20));
    assert_eq!(map.get(3), None);
}

#[test]
fn overrides_fall_back_to_defaults() {
    let (mut root, r) = RenderRoot::new("root".to_string());
    let child = root.widget_arena.insert_child(r, 0, "child".to_string());
    root.default_properties.insert(7, 100);
    root.default_properties.insert(8, 200);
    assert_eq!(root.property(child, 7), Some(100));
    assert_eq!(root.property(child, 9), None);
    let seen = mutate_widget(&mut root, child, |mut handle: WidgetMut<String>| {
        let before = (handle.property(7), handle.property_override(7));
        handle.set_property(7, 5);
        let after = (handle.property(7), handle.property(8), handle.property_override(8));
        (handle, (before, after))
    });
    assert_eq!(seen, ((Some(100), None), (Some(5), Some(200), None)));
    assert_eq!(root.property(child, 7), Some(5));
    assert_eq!(root.property(child, 8), Some(200));
    assert_eq!(root.property(r, 7), Some(100));
    assert_eq!(root.widget_arena.properties(child).get(7), Some(5));
    assert_eq!(root.widget_arena.properties(r).get(7), None);
}

#[test]
fn deferred_property_changes_apply_in_queue_order() {
    let (mut root, r) = RenderRoot::new("root".to_string());
    let child = root.widget_arena.insert_child(r, 0, "child".to_string());
    root.mutate_later(child, Mutation::SetProperty { key: 1, value: 10 });
    root.mutate_later(child, Mutation::SetProperty { key: 1, value: 20 });
    root.mutate_later(r, Mutation::SetProperty { key: 1, value: 30 });
    assert_eq!(root.property(child, 1), None);
    run_mutate_pass(&mut root);
    assert_eq!(root.property(child, 1), Some(20));
    assert_eq!(root.property(r, 1), Some(30));
    assert!(root.mutate_callbacks.is_empty());
}
