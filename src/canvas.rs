//! RGBA canvases: creation, proportional cropping and drawing the crop
//! outline.
use vstd::prelude::*;
use crate::geometry::{calculate_crop_area, crop_rect, lemma_crop_inside_image, Center};
use crate::imaging::{crop_rgba, draw_outline, outline_drawn, outline_painted};

verus! {

/// An RGBA image, four bytes per pixel, stored row by row.
pub struct CanvasImage {
    pub data: Vec<u8>,
    pub width: u32,
    pub height: u32,
}

/// The colour of a drawn crop outline.
pub const CROP_OUTLINE: (u8, u8, u8, u8) = (255, 0, 0, 255);

impl CanvasImage {
    pub open spec fn wf(&self) -> bool {
        &&& self.data.len() == 4 * self.width * self.height
        &&& 4 * self.width * self.height <= 0xffff_ffff
    }

    /// A fully transparent black canvas.
    pub fn new(width: u32, height: u32) -> (r: CanvasImage)
        requires
            4 * width * height <= 0xffff_ffff,
        ensures
            r.wf(),
            r.width == width,
            r.height == height,
            forall|i: int| 0 <= i < r.data.len() ==> r.data[i] == 0,
    {
        let n: u64 = 4 * (width as u64) * (height as u64);
        CanvasImage { data: vec![0u8; n as usize], width, height }
    }

    pub fn width(&self) -> (r: u32)
        ensures
            r == self.width,
    {
        self.width
    }

    pub fn height(&self) -> (r: u32)
        ensures
            r == self.height,
    {
        self.height
    }

    /// A copy of the canvas.
    pub fn clone(&self) -> (r: CanvasImage)
        ensures
            r.data@ == self.data@,
            r.width == self.width,
            r.height == self.height,
    {
        let data = self.data.clone();
        assert(data@ =~= self.data@);
        CanvasImage { data, width: self.width, height: self.height }
    }

    /// The part of the canvas inside the proportional crop rectangle centred
    /// on `center`.
    pub fn crop(self, center: Center, width_rate: i32, height_rate: i32) -> (r: CanvasImage)
        requires
            self.wf(),
            center.strictly_within(self.width as int, self.height as int),
        ensures
            ({
                let (left, top, w, h) = crop_rect(self.width as int, self.height as int, center, width_rate as int, height_rate as int);
                &&& r.width == w
                &&& r.height == h
                &&& r.data.len() == 4 * w * h
                &&& forall|y: int, x: int, c: int|
                    0 <= y < h && 0 <= x < w && 0 <= c < 4 ==> #[trigger] r.data[4 * (y * w + x) + c]
                        == self.data[4 * ((top + y) * self.width + left + x) + c]
            }),
    {
        proof {
            assert(self.height >= 1) by (nonlinear_arith)
                requires center.y_num < self.height * center.den, center.y_num >= 0, center.den >= 1;
            assert(self.width < 0x4000_0000) by (nonlinear_arith)
                requires
                    4 * self.width * self.height <= 0xffff_ffff,
                    self.height >= 1,
            ;
            assert(center.x_num < 0x8000_0000 * center.den) by (nonlinear_arith)
                requires center.x_num < self.width * center.den, self.width < 0x4000_0000, center.den >= 1;
        }
        let rect = calculate_crop_area(self.width, self.height, center, width_rate, height_rate);
        proof {
            lemma_crop_inside_image(self.width, self.height, center, width_rate, height_rate);
        }
        let data = crop_rgba(self.data, self.width, self.height, rect);
        CanvasImage { data, width: rect.width, height: rect.height }
    }

    /// The canvas with the outline of the proportional crop rectangle
    /// centred on `center` drawn in red. Nothing is drawn on a canvas without
    /// pixels, nor when the rectangle starts past the right or bottom edge
    /// (its outline would lie wholly outside the image).
    pub fn draw_crop_area(self, center: Center, width_rate: i32, height_rate: i32) -> (r: CanvasImage)
        requires
            self.wf(),
            center.admissible(self.width as int, self.height as int),
        ensures
            r.wf(),
            r.width == self.width,
            r.height == self.height,
            ({
                let (left, top, w, h) = crop_rect(self.width as int, self.height as int, center, width_rate as int, height_rate as int);
                if self.width == 0 || self.height == 0 || left >= self.width || top >= self.height {
                    r.data@ == self.data@
                } else {
                    &&& r.data@ == outline_drawn(self.width, self.height, self.data@, (left as u32, top as u32, w as u32, h as u32), CROP_OUTLINE)
                    &&& (left + w <= 0x100_0000 && top + h <= 0x100_0000 ==>
                        r.data@ == outline_painted(self.width, self.data@, (left as u32, top as u32, w as u32, h as u32), CROP_OUTLINE))
                }
            }),
    {
        if self.width == 0 || self.height == 0 {
            return self;
        }
        let rect = calculate_crop_area(self.width, self.height, center, width_rate, height_rate);
        if rect.left >= self.width || rect.top >= self.height {
            return self;
        }
        proof {
            assert(self.width < 0x4000_0000 && self.height < 0x4000_0000) by (nonlinear_arith)
                requires
                    4 * self.width * self.height <= 0xffff_ffff,
                    self.width >= 1,
                    self.height >= 1,
            ;
        }
        let data = draw_outline(self.data, self.width, self.height, rect, CROP_OUTLINE);
        CanvasImage { data, width: self.width, height: self.height }
    }
}

} // verus!
