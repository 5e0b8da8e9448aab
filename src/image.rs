//! An image widget: chooses its size from the image's dimensions, the box
//! constraints and an object-fit mode.
use vstd::prelude::*;

use crate::box_constraints::{lemma_constrain_aspect_ratio_in_box, BoxConstraints};
use crate::size::{Frac, Size};
use crate::widget_arena::{Flags, WidgetMut};

verus! {

/// How an image is fitted into the box it is given.
#[derive(Clone, Copy, Debug, PartialEq, Eq, Structural)]
pub enum ObjectFit {
    /// As large as possible within the box, keeping the aspect ratio.
    Contain,
    /// Fill the maximum width, keeping the aspect ratio.
    Cover,
    /// Fill the maximum size, ignoring the aspect ratio.
    Fill,
    /// Fill the maximum height, keeping the aspect ratio.
    FitHeight,
    /// Fill the maximum width, keeping the aspect ratio.
    FitWidth,
    /// The image's own size.
    Natural,
    /// The image's own size when it fits, else as with `Contain`.
    ScaleDown,
}

/// The dimensions of a bitmap, in pixels.
#[derive(Clone, Copy, Debug, PartialEq, Eq, Structural)]
pub struct ImageData {
    pub width: u32,
    pub height: u32,
}

/// A widget that shows a bitmap.
#[derive(Clone, Copy, Debug, PartialEq, Eq, Structural)]
pub struct Image {
    pub image_data: ImageData,
    pub object_fit: ObjectFit,
}

impl ImageData {
    /// The image's own size.
    pub open spec fn size_spec(self) -> Size {
        Size { width: Frac::whole_spec(self.width as u64), height: Frac::whole_spec(self.height as u64) }
    }

    /// `height / width`.
    pub open spec fn aspect_ratio_spec(self) -> Frac {
        Frac { num: self.height as u64, den: self.width as u64 }
    }
}

impl Image {
    /// The products that laying this image out may form fit in a `u64`.
    pub open spec fn layout_fits(self, bc: BoxConstraints) -> bool {
        bc.aspect_fits(self.image_data.aspect_ratio_spec(), Frac::whole_spec(self.image_data.width as u64))
    }

    /// The size this image takes under `bc`: with an empty image, the
    /// minimum size; else the fitted size where it lies within the
    /// constraints, and that size clamped into them where it does not.
    pub open spec fn layout_spec(self, bc: BoxConstraints) -> Size {
        let fitted = self.fitted_size_spec(bc);
        if self.image_data.width == 0 || self.image_data.height == 0 {
            bc.min_spec()
        } else if bc.contains_spec(fitted) {
            fitted
        } else {
            bc.constrain_spec(fitted)
        }
    }

    /// The size the object fit asks for, before it is clamped.
    pub open spec fn fitted_size_spec(self, bc: BoxConstraints) -> Size {
        let data = self.image_data;
        let image_size = data.size_spec();
        let ratio = data.aspect_ratio_spec();
        let max = bc.max_spec();
        if data.width == 0 || data.height == 0 {
            bc.min_spec()
        } else {
            match self.object_fit {
                ObjectFit::Contain => bc.constrain_aspect_ratio_spec(ratio, image_size.width),
                ObjectFit::Cover => Size { width: max.width, height: max.width.mul_spec(ratio) },
                ObjectFit::Fill => max,
                ObjectFit::FitHeight => Size {
                    width: max.height.mul_spec(ratio.recip_spec()),
                    height: max.height,
                },
                ObjectFit::FitWidth => Size { width: max.width, height: max.width.mul_spec(ratio) },
                ObjectFit::Natural => image_size,
                ObjectFit::ScaleDown => if bc.contains_spec(image_size) {
                    image_size
                } else {
                    bc.constrain_aspect_ratio_spec(ratio, image_size.width)
                },
            }
        }
    }

    /// An image widget that fills its box.
    pub fn new(image_data: ImageData) -> (r: Image)
        ensures
            r.image_data == image_data,
            r.object_fit == ObjectFit::Fill,
    {
        Image { image_data, object_fit: ObjectFit::Fill }
    }

    /// The same image with another object fit.
    pub fn fit_mode(self, mode: ObjectFit) -> (r: Image)
        ensures
            r.image_data == self.image_data,
            r.object_fit == mode,
    {
        Image { object_fit: mode, ..self }
    }

    /// Changes the object fit of a mounted image, and asks for a new layout.
    pub fn set_fit_mode(this: &mut WidgetMut<Image>, new_object_fit: ObjectFit)
        ensures
            final(this).widget_spec() == (Image { object_fit: new_object_fit, ..old(this).widget_spec() }),
            final(this).local_spec() == (Flags { layout: true, ..old(this).local_spec() }),
            final(this).id_spec() == old(this).id_spec(),
    {
        let widget = this.widget().fit_mode(new_object_fit);
        this.set_widget(widget);
        this.request_layout();
    }

    /// Replaces the bitmap of a mounted image, and asks for a new layout.
    pub fn set_image_data(this: &mut WidgetMut<Image>, image_data: ImageData)
        ensures
            final(this).widget_spec() == (Image { image_data, ..old(this).widget_spec() }),
            final(this).local_spec() == (Flags { layout: true, ..old(this).local_spec() }),
            final(this).id_spec() == old(this).id_spec(),
    {
        let widget = Image { image_data, object_fit: this.widget().object_fit };
        this.set_widget(widget);
        this.request_layout();
    }

    /// The size this image takes under `bc`: with an empty image, the
    /// minimum size; else as the object fit says, clamped into `bc` only
    /// where it does not already lie within it. With sound constraints,
    /// `Contain` (and `ScaleDown` for an image too large) keeps the exact
    /// size that [`BoxConstraints::constrain_aspect_ratio`] finds.
    pub fn layout(&self, bc: &BoxConstraints) -> (r: Size)
        requires
            self.image_data.width == 0 || self.image_data.height == 0 || self.layout_fits(*bc),
        ensures
            r == self.layout_spec(*bc),
            bc.is_ordered() ==> bc.contains_spec(r),
            bc.is_sound() && self.image_data.width > 0 && self.image_data.height > 0 && (
            self.object_fit == ObjectFit::Contain || (self.object_fit == ObjectFit::ScaleDown
                && !bc.contains_spec(self.image_data.size_spec()))) ==> r
                == bc.constrain_aspect_ratio_spec(
                self.image_data.aspect_ratio_spec(),
                self.image_data.size_spec().width,
            ),
    {
        let fitted = self.fitted_size(bc);
        proof {
            use_type_invariant(bc);
            bc.lemma_min_in_box();
            if bc.is_sound() && self.image_data.width > 0 && self.image_data.height > 0 {
                lemma_constrain_aspect_ratio_in_box(
                    *bc,
                    self.image_data.aspect_ratio_spec(),
                    self.image_data.size_spec().width,
                );
            }
        }
        if self.image_data.width == 0 || self.image_data.height == 0 {
            fitted
        } else if bc.contains(fitted) {
            fitted
        } else {
            bc.constrain(fitted)
        }
    }

    /// The size the object fit asks for.
    fn fitted_size(&self, bc: &BoxConstraints) -> (r: Size)
        requires
            self.image_data.width == 0 || self.image_data.height == 0 || self.layout_fits(*bc),
        ensures
            r == self.fitted_size_spec(*bc),
    {
        let data = self.image_data;
        let image_size = Size::new(data.width as u64, data.height as u64);
        if data.width == 0 || data.height == 0 {
            return bc.min();
        }
        let ratio = Frac::new(data.height as u64, data.width as u64);
        let max = bc.max();
        match self.object_fit {
            ObjectFit::Contain => bc.constrain_aspect_ratio(ratio, image_size.width),
            ObjectFit::Cover => Size::from_fracs(max.width, max.width.mul(&ratio)),
            ObjectFit::Fill => max,
            ObjectFit::FitHeight => Size::from_fracs(max.height.mul(&ratio.recip()), max.height),
            ObjectFit::FitWidth => Size::from_fracs(max.width, max.width.mul(&ratio)),
            ObjectFit::Natural => image_size,
            ObjectFit::ScaleDown => {
                if bc.contains(image_size) {
                    image_size
                } else {
                    bc.constrain_aspect_ratio(ratio, image_size.width)
                }
            },
        }
    }
}

} // verus!
