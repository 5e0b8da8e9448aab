use masonry_core::box_constraints::BoxConstraints;
use masonry_core::image::{Image, ImageData, ObjectFit};
use masonry_core::mutate::{mutate_widget, RenderRoot};
use masonry_core::size::{Frac, Size};
use masonry_core::widget_arena::{PassKind, WidgetMut};

fn bc(min_width: u64, min_height: u64, max_width: u64, max_height: u64) -> BoxConstraints {
    BoxConstraints::new(Size::new(min_width, min_height), Size::new(max_width, max_height))
}

fn image(width: u32, height: u32, fit: ObjectFit) -> Image {
    Image::new(ImageData { width, height }).fit_mode(fit)
}

#[test]
fn new_image_fills_by_default() {
    let img = Image::new(ImageData { width: 40, height: 60 });
    assert_eq!(img.object_fit, ObjectFit::Fill);
    assert_eq!(img.layout(&bc(0, 0, 100, 50)), Size::new(100, 50));
}

#[test]
fn image_layout_per_fit_mode() {
    let c = bc(0, 0, 100, 50);
    // A 40x60 image: height / width = 3 / 2. A size that leaves the
    // constraints is clamped into them; one within them is kept exactly.
    let third = Size::from_fracs(Frac::new(100, 3), Frac::whole(50));
    assert_eq!(image(40, 60, ObjectFit::Contain).layout(&c), third);
    assert_eq!(image(40, 60, ObjectFit::Cover).layout(&c), Size::new(100, 50));
    assert_eq!(image(40, 60, ObjectFit::Fill).layout(&c), Size::new(100, 50));
    assert_eq!(image(40, 60, ObjectFit::FitHeight).layout(&c), third);
    assert_eq!(image(40, 60, ObjectFit::FitWidth).layout(&c), Size::new(100, 50));
    assert_eq!(image(40, 60, ObjectFit::Natural).layout(&c), Size::new(40, 50));
    assert_eq!(image(40, 60, ObjectFit::ScaleDown).layout(&c), third);
    assert_eq!(image(40, 30, ObjectFit::ScaleDown).layout(&c), Size::new(40, 30));
}

#[test]
fn image_layout_stays_within_the_constraints() {
    let c = bc(0, 0, 10, 10);
    for fit in [
        ObjectFit::Contain,
        ObjectFit::Cover,
        ObjectFit::Fill,
        ObjectFit::FitHeight,
        ObjectFit::FitWidth,
        ObjectFit::Natural,
        ObjectFit::ScaleDown,
    ] {
        let size = image(20, 20, fit).layout(&c);
        assert!(c.contains(size), "{fit:?}");
    }
    assert_eq!(image(20, 20, ObjectFit::Natural).layout(&c), Size::new(10, 10));
}

#[test]
fn empty_image_takes_the_minimum() {
    let c = bc(10, 20, 100, 50);
    assert_eq!(image(0, 60, ObjectFit::Natural).layout(&c), Size::new(10, 20));
    assert_eq!(image(40, 0, ObjectFit::Cover).layout(&c), Size::new(10, 20));
}

#[test]
fn setting_the_fit_mode_requests_layout() {
    let (mut root, id) = RenderRoot::new(image(40, 60, ObjectFit::Fill));
    for kind in [PassKind::Layout, PassKind::Paint, PassKind::Accessibility, PassKind::Mutation] {
        root.widget_arena.finish_pass(kind);
    }
    assert!(!root.widget_arena.state(id).local.layout);
    mutate_widget(&mut root, id, |mut handle: WidgetMut<Image>| {
        Image::set_fit_mode(&mut handle, ObjectFit::Natural);
        Image::set_image_data(&mut handle, ImageData { width: 10, height: 20 });
        (handle, ())
    });
    assert!(root.widget_arena.state(id).local.layout);
    assert!(root.widget_arena.state(id).aggregated.layout);
    assert_eq!(*root.widget_arena.widget(id), image(10, 20, ObjectFit::Natural));
    assert_eq!(root.widget_arena.widget(id).layout(&bc(0, 0, 100, 50)), Size::new(10, 20));
}

#[test]
fn layout() {
    let image_data = ImageData { width: 8, height: 8 };
    let harness = bc(0, 0, 100, 50);
    let cases = [
        (ObjectFit::Contain, Size::new(8, 8)),
        (ObjectFit::Cover, Size::new(100, 50)),
        (ObjectFit::Fill, Size::new(100, 50)),
        (ObjectFit::FitHeight, Size::new(50, 50)),
        (ObjectFit::FitWidth, Size::new(100, 50)),
        (ObjectFit::Natural, Size::new(8, 8)),
        (ObjectFit::ScaleDown, Size::new(8, 8)),
    ];
    for (fit, expected) in cases {
        let image_widget = Image::new(image_data).fit_mode(fit);
        assert_eq!(image_widget.layout(&harness), expected, "{fit:?}");
    }
    let tight = BoxConstraints::tight(Size::new(100, 50));
    for (fit, _) in cases {
        let image_widget = Image::new(image_data).fit_mode(fit);
        let size = image_widget.layout(&tight);
        assert_eq!(tight.constrain(size), Size::new(100, 50), "{fit:?}");
    }
}

#[test]
fn edit_image() {
    let image_data = ImageData { width: 8, height: 8 };
    let other_image_data = ImageData { width: 4, height: 10 };
    let first = Image::new(image_data);
    let (mut root, id) = RenderRoot::new(Image::new(other_image_data));
    mutate_widget(&mut root, id, |mut image: WidgetMut<Image>| {
        Image::set_image_data(&mut image, image_data);
        (image, ())
    });
    assert!(*root.widget_arena.widget(id) == first);
    let c = bc(0, 0, 40, 60);
    assert_eq!(root.widget_arena.widget(id).layout(&c), first.layout(&c));
}

#[test]
fn contain_keeps_the_exact_aspect_ratio_size() {
    let c = bc(0, 0, 1, 100);
    let expected = Size::from_fracs(Frac::whole(1), Frac::new(1, 2));
    assert_eq!(image(2, 1, ObjectFit::Contain).layout(&c), expected);
    assert_eq!(image(2, 1, ObjectFit::ScaleDown).layout(&c), expected);
    assert_eq!(c.constrain_aspect_ratio(Frac::new(1, 2), Frac::whole(2)), expected);
}

#[test]
fn empty_image_under_reversed_constraints_takes_the_minimum() {
    let c = bc(20, 20, 10, 10);
    assert_eq!(image(0, 0, ObjectFit::Fill).layout(&c), Size::new(20, 20));
}
