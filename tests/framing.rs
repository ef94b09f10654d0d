use blob_framing::blobs::{labelling_accepts, BlobImage, Point};
use blob_framing::canvas::CanvasImage;
use blob_framing::geometry::{calculate_crop_area, Center, CropRect, Rect};

fn point(x: u32, y: u32) -> Center {
    Center { x_num: x as u128, y_num: y as u128, den: 1 }
}

fn rect(left: u32, top: u32, width: u32, height: u32) -> Rect {
    Rect { left, top, width, height }
}

/// A label map of `width x height` cells where each listed cell gets its label.
fn labels(width: u32, height: u32, cells: &[(u32, u32, u32)]) -> Vec<u32> {
    let mut v = vec![0u32; (width * height) as usize];
    for &(x, y, l) in cells {
        v[(y * width + x) as usize] = l;
    }
    v
}

fn total_points(img: &BlobImage) -> usize {
    img.blobs.iter().map(|b| b.len()).sum()
}

#[test]
fn it_works() {
    let result = blob_framing::add(2, 2);
    assert_eq!(result, 4);
}

#[test]
fn crop_full_rate_is_capped_by_image() {
    let r = calculate_crop_area(100, 100, point(50, 50), 200, 200);
    assert_eq!(r, rect(0, 0, 100, 100));
}

#[test]
fn crop_near_corner_is_capped_by_edge_distance() {
    let r = calculate_crop_area(100, 100, point(10, 10), 100, 100);
    assert_eq!(r, rect(0, 0, 20, 20));
}

#[test]
fn crop_half_rate_at_center() {
    let r = calculate_crop_area(100, 60, point(50, 30), 50, 50);
    assert_eq!(r, rect(25, 15, 50, 30));
}

#[test]
fn crop_truncates_toward_zero() {
    // centre (10.5, 7.5), 10% of 101 = 10.1 wide, 10% of 51 = 5.1 high
    let c = Center { x_num: 21, y_num: 15, den: 2 };
    let r = calculate_crop_area(101, 51, c, 10, 10);
    // left = 10.5 - 5.05 = 5.45, top = 7.5 - 2.55 = 4.95
    assert_eq!(r, rect(5, 4, 10, 5));
}

#[test]
fn crop_zero_rate_gives_one_pixel() {
    let r = calculate_crop_area(100, 100, point(40, 30), 0, -20);
    assert_eq!(r, rect(40, 30, 1, 1));
}

#[test]
fn crop_center_on_edge_collapses_to_one_pixel() {
    let r = calculate_crop_area(100, 100, point(100, 0), 100, 100);
    assert_eq!(r, rect(100, 0, 1, 1));
}

#[test]
fn crop_stays_inside_image_for_inner_centers() {
    for &(w, h) in &[(1u32, 1u32), (7, 3), (100, 60), (33, 99)] {
        for x in 0..w {
            for y in 0..h {
                for &rate in &[0, 1, 37, 50, 99, 100, 250] {
                    let r = calculate_crop_area(w, h, point(x, y), rate, 100 - rate);
                    assert!(r.width >= 1 && r.height >= 1);
                    assert!(r.left + r.width <= w);
                    assert!(r.top + r.height <= h);
                }
            }
        }
    }
}

#[test]
fn detect_groups_points_by_label_in_scan_order() {
    let map = labels(4, 3, &[(3, 0, 2), (1, 1, 1), (0, 2, 2), (2, 2, 1), (3, 2, 4)]);
    let img = BlobImage::from_labels(4, 3, map).detect_blob();
    // labels 1 to 4, label 3 unused
    assert_eq!(img.blobs.len(), 4);
    assert_eq!(img.blobs[0], vec![Point { x: 1, y: 1 }, Point { x: 2, y: 2 }]);
    assert_eq!(img.blobs[1], vec![Point { x: 3, y: 0 }, Point { x: 0, y: 2 }]);
    assert!(img.blobs[2].is_empty());
    assert_eq!(img.blobs[3], vec![Point { x: 3, y: 2 }]);
    assert_eq!(img.search_area, rect(0, 0, 4, 3));
    assert_eq!(img.crop_area, rect(0, 0, 4, 3));
}

#[test]
fn detect_counts_every_foreground_pixel() {
    let map = labels(5, 4, &[(0, 0, 1), (1, 0, 1), (4, 3, 3), (2, 2, 2), (2, 3, 2), (3, 3, 2)]);
    let foreground = map.iter().filter(|&&l| l != 0).count();
    let img = BlobImage::from_labels(5, 4, map).detect_blob();
    assert_eq!(total_points(&img), foreground);
    assert_eq!(total_points(&img), 6);
}

#[test]
fn detect_on_background_only_gives_no_points() {
    let img = BlobImage::from_labels(3, 3, vec![0; 9]).detect_blob();
    assert_eq!(img.blobs.len(), 0);
    assert_eq!(total_points(&img), 0);
}

/// A 10x10 map with blobs of 10, 11 and 50 pixels (labels 1, 2, 3).
fn sized_blobs() -> BlobImage {
    let mut v = vec![0u32; 100];
    for i in 0..10 {
        v[i] = 1;
    }
    for i in 20..31 {
        v[i] = 2;
    }
    for i in 40..90 {
        v[i] = 3;
    }
    BlobImage::from_labels(10, 10, v).detect_blob()
}

#[test]
fn area_filter_bounds_are_strict() {
    let img = sized_blobs().extract_with_area(10, 50);
    assert_eq!(img.blobs.len(), 1);
    assert_eq!(img.blobs[0].len(), 11);
}

#[test]
fn area_filter_never_grows() {
    let before = sized_blobs();
    let (n, pts) = (before.blobs.len(), total_points(&before));
    let after = before.extract_with_area(0, 100);
    assert!(after.blobs.len() <= n);
    assert!(total_points(&after) <= pts);
    assert_eq!(n, 3);
    assert_eq!(after.blobs.len(), 3);
}

#[test]
fn area_filter_clamps_rates() {
    let img = sized_blobs().extract_with_area(-5, 400);
    assert_eq!(img.blobs.len(), 3);
    // max below min is raised to min: nothing can lie strictly between
    let img = sized_blobs().extract_with_area(30, 20);
    assert_eq!(img.blobs.len(), 0);
}

#[test]
fn area_filter_keeps_search_and_crop_areas() {
    let img = sized_blobs().crop_with_blob(50, 50);
    let crop = img.crop_area;
    let img = img.extract_with_area(10, 50);
    assert_eq!(img.crop_area, crop);
    assert_eq!(img.search_area, rect(0, 0, 10, 10));
}

#[test]
fn position_filter_drops_whole_blobs() {
    // blob 1 fully inside, blob 2 has one point on the window edge
    let map = labels(10, 10, &[(4, 4, 1), (5, 5, 1), (3, 4, 2), (5, 4, 2), (1, 5, 2)]);
    let img = BlobImage::from_labels(10, 10, map).detect_blob();
    // window over max coordinate 9: x in (0.9, 8.1), y in (0.9, 8.1)
    let kept = img.extract_with_position(10, 10, 90, 90);
    assert_eq!(kept.blobs, vec![vec![Point { x: 4, y: 4 }, Point { x: 5, y: 5 }], vec![Point { x: 3, y: 4 }, Point { x: 5, y: 4 }, Point { x: 1, y: 5 }]]);
    let map = labels(10, 10, &[(4, 4, 1), (5, 5, 1), (3, 4, 2), (5, 4, 2), (1, 5, 2)]);
    let img = BlobImage::from_labels(10, 10, map).detect_blob();
    // x in (1.8, 8.1): the point at x = 1 removes all of blob 2
    let kept = img.extract_with_position(20, 10, 90, 90);
    assert_eq!(kept.blobs, vec![vec![Point { x: 4, y: 4 }, Point { x: 5, y: 5 }]]);
    for blob in &kept.blobs {
        for p in blob {
            assert!(9 * 20 < 100 * p.x && 100 * p.x < 9 * 90);
            assert!(9 * 10 < 100 * p.y && 100 * p.y < 9 * 90);
        }
    }
}

#[test]
fn position_filter_records_requested_window() {
    let img = sized_blobs().extract_with_position(10, 20, 90, 80);
    assert_eq!(img.search_area, rect(0, 1, 8, 6));
    // no blob with points fits, the window is recorded all the same
    assert_eq!(total_points(&img), 0);
    assert_eq!(img.crop_area, rect(0, 0, 10, 10));
}

#[test]
fn position_filter_clamps_rates() {
    let img = sized_blobs().extract_with_position(-10, 150, 5, 0);
    // left 0, top 100, right 5, bottom raised to top's 100
    assert_eq!(img.search_area, rect(0, 9, 1, 1));
    assert_eq!(total_points(&img), 0);
}

#[test]
fn centroid_of_nothing_is_origin() {
    let img = BlobImage::from_labels(4, 4, vec![0; 16]).detect_blob();
    assert_eq!(img.blob_center(), Center { x_num: 0, y_num: 0, den: 1 });
}

#[test]
fn centroid_of_single_point_is_that_point() {
    let img = BlobImage::from_labels(4, 4, labels(4, 4, &[(3, 2, 1)])).detect_blob();
    assert_eq!(img.blob_center(), Center { x_num: 3, y_num: 2, den: 1 });
}

#[test]
fn centroid_is_mean_over_all_blobs() {
    let map = labels(6, 6, &[(0, 0, 1), (1, 0, 1), (5, 5, 2)]);
    let img = BlobImage::from_labels(6, 6, map).detect_blob();
    let c = img.blob_center();
    assert_eq!(c, Center { x_num: 6, y_num: 5, den: 3 });
}

#[test]
fn blob_crop_defaults_to_image_center() {
    let img = BlobImage::from_labels(100, 60, vec![0; 6000]).detect_blob();
    let img = img.extract_with_area(10, 50);
    assert_eq!(img.blobs.len(), 0);
    let img = img.crop_with_blob(50, 50);
    let at_center = calculate_crop_area(100, 60, point(50, 30), 50, 50);
    assert_eq!(img.crop_area, at_center);
    assert_eq!(img.crop_area, rect(25, 15, 50, 30));
}

#[test]
fn blob_crop_centers_on_centroid() {
    let map = labels(20, 20, &[(2, 3, 1), (4, 5, 1)]);
    let img = BlobImage::from_labels(20, 20, map).detect_blob().crop_with_blob(100, 100);
    // centroid (3, 4): width min(20, 6, 34) = 6, height min(20, 8, 32) = 8
    assert_eq!(img.crop_area, rect(0, 0, 6, 8));
    let r: CropRect = img.crop_rect();
    assert_eq!((r.left(), r.top(), r.width(), r.height()), (0, 0, 6, 8));
}

#[test]
fn new_labels_connected_regions() {
    let mut data = vec![0u8; 25];
    // two regions: an L in the top-left corner and a diagonal pair at the bottom-right
    data[0] = 255;
    data[1] = 255;
    data[5] = 255;
    data[18] = 9;
    data[24] = 9;
    let img = BlobImage::new(5, 5, data).detect_blob();
    let mut sizes: Vec<usize> = img.blobs.iter().map(|b| b.len()).filter(|&n| n > 0).collect();
    sizes.sort();
    assert_eq!(sizes, vec![2, 3]);
    assert_eq!(img.blobs.len(), 2);
    assert_eq!(total_points(&img), 5);
}

#[test]
fn canvas_new_is_blank() {
    let c = CanvasImage::new(3, 2);
    assert_eq!((c.width(), c.height()), (3, 2));
    assert_eq!(c.data, vec![0u8; 24]);
    let d = c.clone();
    assert_eq!(d.data, c.data);
}

#[test]
fn canvas_crop_copies_the_rectangle() {
    let mut c = CanvasImage::new(4, 4);
    for (i, v) in c.data.iter_mut().enumerate() {
        *v = i as u8;
    }
    // centre (2, 2), 50%: a 2x2 square at (1, 1)
    let out = c.crop(point(2, 2), 50, 50);
    assert_eq!((out.width(), out.height()), (2, 2));
    let px = |x: usize, y: usize| -> Vec<u8> { (0..4).map(|k| ((y * 4 + x) * 4 + k) as u8).collect() };
    let mut expected = Vec::new();
    for (x, y) in [(1, 1), (2, 1), (1, 2), (2, 2)] {
        expected.extend(px(x, y));
    }
    assert_eq!(out.data, expected);
}

#[test]
fn canvas_draw_crop_area_marks_outline() {
    let c = CanvasImage::new(10, 10);
    let out = c.draw_crop_area(point(5, 5), 60, 60);
    assert_eq!((out.width(), out.height()), (10, 10));
    // rectangle (2, 2, 6, 6): its corner is red, the centre and the image corner untouched
    let at = |x: usize, y: usize| out.data[(y * 10 + x) * 4..(y * 10 + x) * 4 + 4].to_vec();
    assert_eq!(at(2, 2), vec![255, 0, 0, 255]);
    assert_eq!(at(7, 7), vec![255, 0, 0, 255]);
    assert_eq!(at(5, 5), vec![0, 0, 0, 0]);
    assert_eq!(at(0, 0), vec![0, 0, 0, 0]);
}

#[test]
fn blob_canvas_marks_points_and_search_area() {
    let map = labels(5, 5, &[(2, 2, 1), (3, 2, 1)]);
    let img = BlobImage::from_labels(5, 5, map).detect_blob();
    let canvas = img.to_canvas();
    assert_eq!((canvas.width(), canvas.height()), (5, 5));
    let at = |x: usize, y: usize| canvas.data[(y * 5 + x) * 4..(y * 5 + x) * 4 + 4].to_vec();
    assert_eq!(at(2, 2), vec![0, 255, 0, 255]);
    assert_eq!(at(3, 2), vec![0, 255, 0, 255]);
    assert_eq!(at(1, 1), vec![0, 0, 0, 0]);
    // the search area covers the whole image: its outline is the border
    assert_eq!(at(0, 0), vec![255, 255, 0, 255]);
    assert_eq!(at(4, 3), vec![255, 255, 0, 255]);
    let same = img.into_canvas();
    assert_eq!(same.data, canvas.data);
}

#[test]
fn blob_canvas_outlines_requested_window() {
    let img = BlobImage::from_labels(10, 10, vec![0; 100]).detect_blob();
    // window (0, 0) to (4, 4): rates 0..50 of the largest coordinate 9
    let img = img.extract_with_position(0, 0, 50, 50);
    assert_eq!(img.search_area, rect(0, 0, 5, 5));
    let canvas = img.to_canvas();
    let at = |x: usize, y: usize| canvas.data[(y * 10 + x) * 4..(y * 10 + x) * 4 + 4].to_vec();
    assert_eq!(at(4, 4), vec![255, 255, 0, 255]);
    assert_eq!(at(2, 2), vec![0, 0, 0, 0]);
    assert_eq!(at(9, 9), vec![0, 0, 0, 0]);
}

#[test]
fn new_labels_uniform_foreground() {
    // every pixel foreground and equal: one region
    let img = BlobImage::new(3, 2, vec![7; 6]).detect_blob();
    assert_eq!(img.blobs.len(), 1);
    assert_eq!(img.blobs[0].len(), 6);
}

#[test]
fn crop_center_beyond_image_collapses_past_edge() {
    // centre (130, 20) on a 100x100 image: width min(100, 260, -60) = -60,
    // left = 130 + 30 = 160, width raised to 1
    let r = calculate_crop_area(100, 100, point(130, 20), 100, 100);
    assert_eq!(r, rect(160, 0, 1, 40));
}

#[test]
fn draw_crop_area_beyond_image_draws_nothing() {
    let c = CanvasImage::new(10, 10);
    let out = c.draw_crop_area(point(15, 5), 50, 50);
    assert_eq!(out.data, vec![0u8; 400]);
}

#[test]
fn labelling_accepts_only_numberable_images() {
    assert!(labelling_accepts(2, 1, &vec![0, 3]));
    assert!(labelling_accepts(2, 1, &vec![5, 5]));
    assert!(labelling_accepts(0, 3, &vec![]));
    assert!(!labelling_accepts(1, 1, &vec![1]));
    assert!(!labelling_accepts(2, 1, &vec![1, 2]));
}

fn patterned_canvas(width: u32, height: u32) -> CanvasImage {
    let mut c = CanvasImage::new(width, height);
    for (i, v) in c.data.iter_mut().enumerate() {
        *v = (i % 251) as u8;
    }
    c
}

#[test]
fn canvas_crop_full_rate_is_identity() {
    let c = patterned_canvas(100, 100);
    let original = c.data.clone();
    let out = c.crop(point(50, 50), 200, 200);
    assert_eq!((out.width(), out.height()), (100, 100));
    assert_eq!(out.data, original);
}

#[test]
fn canvas_crop_near_corner_takes_top_left_block() {
    let c = patterned_canvas(100, 100);
    let original = c.data.clone();
    let out = c.crop(point(10, 10), 100, 100);
    assert_eq!((out.width(), out.height()), (20, 20));
    for j in 0..20usize {
        for i in 0..20usize {
            for k in 0..4usize {
                assert_eq!(out.data[4 * (20 * j + i) + k], original[4 * (100 * j + i) + k]);
            }
        }
    }
}

#[test]
fn canvas_draw_outline_leaves_other_pixels() {
    let c = patterned_canvas(8, 6);
    let original = c.data.clone();
    // centre (4, 3), 50%: rectangle (2, 1.5 -> 1, 4, 3)
    let out = c.draw_crop_area(point(4, 3), 50, 50);
    for y in 0..6usize {
        for x in 0..8usize {
            let on = ((y == 1 || y == 3) && (2..=5).contains(&x)) || ((x == 2 || x == 5) && (1..=3).contains(&y));
            let px = out.data[(y * 8 + x) * 4..(y * 8 + x) * 4 + 4].to_vec();
            if on {
                assert_eq!(px, vec![255, 0, 0, 255]);
            } else {
                assert_eq!(px, original[(y * 8 + x) * 4..(y * 8 + x) * 4 + 4].to_vec());
            }
        }
    }
}
