//! Blob extraction from a label map, blob filters, the blob centroid and
//! blob-centred cropping.
use vstd::prelude::*;
use vstd::arithmetic::div_mod::{lemma_fundamental_div_mod, lemma_mod_bound, lemma_div_pos_is_pos};
use crate::geometry::{calculate_crop_area, clamp, clamp_rate, crop_rect, lemma_floor_mul, rect_tuple, Center, CropRect, Rect};
use crate::canvas::CanvasImage;
use crate::imaging::{components_of, draw_outline, label_components, labelling_fits, outline_drawn, outline_painted};

verus! {

/// A pixel coordinate.
#[derive(Clone, Copy, Debug, PartialEq, Eq, Structural)]
pub struct Point {
    pub x: u32,
    pub y: u32,
}

/// A grid of region labels stored row by row; 0 is background.
pub struct LabelMap {
    pub width: u32,
    pub height: u32,
    pub labels: Vec<u32>,
}

/// The framing state: a label map, the current blobs (each a list of
/// points), the last requested search window and the last crop rectangle.
pub struct BlobImage {
    pub label_map: LabelMap,
    pub blobs: Vec<Vec<Point>>,
    pub search_area: Rect,
    pub crop_area: Rect,
}

/// The number of points over all blobs.
pub open spec fn total_points(bs: Seq<Seq<Point>>) -> nat
    decreases bs.len(),
{
    if bs.len() == 0 {
        0
    } else {
        total_points(bs.drop_last()) + bs.last().len()
    }
}

/// The number of foreground (non-zero) cells.
pub open spec fn count_foreground(labels: Seq<u32>) -> nat
    decreases labels.len(),
{
    if labels.len() == 0 {
        0
    } else {
        count_foreground(labels.drop_last()) + if labels.last() != 0 { 1nat } else { 0nat }
    }
}

/// The largest label (0 for an empty grid).
pub open spec fn max_label(labels: Seq<u32>) -> u32
    decreases labels.len(),
{
    if labels.len() == 0 {
        0
    } else {
        let m = max_label(labels.drop_last());
        if labels.last() > m {
            labels.last()
        } else {
            m
        }
    }
}

/// The coordinate of cell `k` in a row-major grid of the given width.
pub open spec fn point_at(width: int, k: int) -> Point {
    Point { x: (k % width) as u32, y: (k / width) as u32 }
}

/// The points labelled `l`, in row-major scan order.
pub open spec fn label_points(labels: Seq<u32>, width: int, l: u32) -> Seq<Point>
    decreases labels.len(),
{
    if labels.len() == 0 {
        seq![]
    } else {
        let r = label_points(labels.drop_last(), width, l);
        if labels.last() == l {
            r.push(point_at(width, labels.len() - 1))
        } else {
            r
        }
    }
}

/// One blob per label value from 1 to the largest label: blob `i` holds the
/// points labelled `i + 1` (empty where that label does not occur).
pub open spec fn extract(labels: Seq<u32>, width: int) -> Seq<Seq<Point>> {
    Seq::new(max_label(labels) as nat, |i: int| label_points(labels, width, (i + 1) as u32))
}

/// The blobs of `bs` that `keep` accepts, in their order.
pub open spec fn select(bs: Seq<Seq<Point>>, keep: spec_fn(Seq<Point>) -> bool) -> Seq<Seq<Point>>
    decreases bs.len(),
{
    if bs.len() == 0 {
        seq![]
    } else {
        let r = select(bs.drop_last(), keep);
        if keep(bs.last()) {
            r.push(bs.last())
        } else {
            r
        }
    }
}

/// A blob is kept when its point count lies strictly between `min_rate` and
/// `max_rate` percent of `area`.
pub open spec fn area_range(area: int, min_rate: int, max_rate: int) -> spec_fn(Seq<Point>) -> bool {
    |b: Seq<Point>| area * min_rate < 100 * b.len() && 100 * b.len() < area * max_rate
}

/// The area filter over an image of `width x height` pixels, with the rates
/// clamped: `min_rate` into `[0, 100]`, `max_rate` into `[min_rate, 100]`.
pub open spec fn area_filter(bs: Seq<Seq<Point>>, width: int, height: int, min_rate: int, max_rate: int) -> Seq<Seq<Point>> {
    let lo = clamp(min_rate, 0, 100);
    let hi = clamp(max_rate, lo, 100);
    select(bs, area_range(width * height, lo, hi))
}

/// Strictly inside the window `(max_x * l / 100, max_x * r / 100)` by
/// `(max_y * t / 100, max_y * b / 100)`.
pub open spec fn point_inside(p: Point, max_x: int, max_y: int, l: int, t: int, r: int, b: int) -> bool {
    &&& max_x * l < 100 * p.x
    &&& 100 * p.x < max_x * r
    &&& max_y * t < 100 * p.y
    &&& 100 * p.y < max_y * b
}

/// A blob is kept when every one of its points lies strictly inside the
/// window.
pub open spec fn inside_window(max_x: int, max_y: int, l: int, t: int, r: int, b: int) -> spec_fn(Seq<Point>) -> bool {
    |pts: Seq<Point>| forall|j: int| 0 <= j < pts.len() ==> point_inside(#[trigger] pts[j], max_x, max_y, l, t, r, b)
}

/// The clamped window rates: left and top into `[0, 100]`, right into
/// `[left, 100]`, bottom into `[top, 100]`.
pub open spec fn window_rates(left_rate: int, top_rate: int, right_rate: int, bottom_rate: int) -> (int, int, int, int) {
    let l = clamp(left_rate, 0, 100);
    let t = clamp(top_rate, 0, 100);
    (l, t, clamp(right_rate, l, 100), clamp(bottom_rate, t, 100))
}

/// The position filter over an image of `width x height` pixels.
pub open spec fn position_filter(
    bs: Seq<Seq<Point>>,
    width: int,
    height: int,
    left_rate: int,
    top_rate: int,
    right_rate: int,
    bottom_rate: int,
) -> Seq<Seq<Point>> {
    let (l, t, r, b) = window_rates(left_rate, top_rate, right_rate, bottom_rate);
    select(bs, inside_window(width - 1, height - 1, l, t, r, b))
}

/// The requested window as a rectangle: corner at the truncated left and
/// top bounds, sides one more than the truncated spans.
pub open spec fn window_rect(width: int, height: int, left_rate: int, top_rate: int, right_rate: int, bottom_rate: int) -> (int, int, int, int) {
    let (l, t, r, b) = window_rates(left_rate, top_rate, right_rate, bottom_rate);
    (
        (width - 1) * l / 100,
        (height - 1) * t / 100,
        (width - 1) * (r - l) / 100 + 1,
        (height - 1) * (b - t) / 100 + 1,
    )
}

/// Sum of the x coordinates of the points of one blob.
pub open spec fn sum_x_blob(b: Seq<Point>) -> nat
    decreases b.len(),
{
    if b.len() == 0 {
        0
    } else {
        sum_x_blob(b.drop_last()) + b.last().x as nat
    }
}

/// Sum of the y coordinates of the points of one blob.
pub open spec fn sum_y_blob(b: Seq<Point>) -> nat
    decreases b.len(),
{
    if b.len() == 0 {
        0
    } else {
        sum_y_blob(b.drop_last()) + b.last().y as nat
    }
}

pub open spec fn sum_x(bs: Seq<Seq<Point>>) -> nat
    decreases bs.len(),
{
    if bs.len() == 0 {
        0
    } else {
        sum_x(bs.drop_last()) + sum_x_blob(bs.last())
    }
}

pub open spec fn sum_y(bs: Seq<Seq<Point>>) -> nat
    decreases bs.len(),
{
    if bs.len() == 0 {
        0
    } else {
        sum_y(bs.drop_last()) + sum_y_blob(bs.last())
    }
}

/// The mean position of all points, as a fraction over the point count;
/// `(0, 0)` when there are no points.
pub open spec fn centroid(bs: Seq<Seq<Point>>) -> Center {
    if total_points(bs) == 0 {
        Center { x_num: 0, y_num: 0, den: 1 }
    } else {
        Center { x_num: sum_x(bs) as u128, y_num: sum_y(bs) as u128, den: total_points(bs) as u64 }
    }
}

/// The point a blob-centred crop is centred on: the centroid, or the centre
/// of the image when there are no points.
pub open spec fn crop_center(bs: Seq<Seq<Point>>, width: u32, height: u32) -> Center {
    if total_points(bs) == 0 {
        Center { x_num: width as u128, y_num: height as u128, den: 2 }
    } else {
        centroid(bs)
    }
}

/// Index of the pixel of `p` in a row-major grid of the given width.
pub open spec fn pixel_index(p: Point, width: int) -> int {
    p.y * width + p.x
}

/// Whether some point of `bs` sits on pixel `k`.
pub open spec fn covered(bs: Seq<Seq<Point>>, width: int, k: int) -> bool {
    exists|i: int, j: int| 0 <= i < bs.len() && 0 <= j < bs[i].len() && #[trigger] pixel_index(bs[i][j], width) == k
}

/// Channel `c` of the opaque green that marks blob pixels.
pub open spec fn mark_byte(c: int) -> u8 {
    if c == 1 || c == 3 {
        255
    } else {
        0
    }
}

/// An RGBA image of `width x height` pixels: opaque green on every blob
/// point, transparent black elsewhere.
pub open spec fn blob_pixels(bs: Seq<Seq<Point>>, width: int, height: int) -> Seq<u8> {
    Seq::new((4 * width * height) as nat, |b: int| if covered(bs, width, b / 4) { mark_byte(b % 4) } else { 0u8 })
}

/// The colour of a drawn search-area outline.
pub const SEARCH_OUTLINE: (u8, u8, u8, u8) = (255, 255, 0, 255);

/// No point occurs twice, within one blob or across blobs.
pub open spec fn disjoint_points(bs: Seq<Seq<Point>>) -> bool {
    forall|i1: int, j1: int, i2: int, j2: int|
        0 <= i1 < bs.len() && 0 <= j1 < bs[i1].len() && 0 <= i2 < bs.len() && 0 <= j2 < bs[i2].len()
            && (i1 != i2 || j1 != j2) ==> #[trigger] bs[i1][j1] != #[trigger] bs[i2][j2]
}

/// Every point lies in `[0, width) x [0, height)`.
pub open spec fn points_in(bs: Seq<Seq<Point>>, width: int, height: int) -> bool {
    forall|i: int, j: int|
        0 <= i < bs.len() && 0 <= j < bs[i].len() ==> {
            &&& (#[trigger] bs[i][j]).x < width
            &&& bs[i][j].y < height
        }
}

pub open spec fn blob_view(v: Seq<Vec<Point>>) -> Seq<Seq<Point>> {
    v.map_values(|b: Vec<Point>| b@)
}

impl LabelMap {
    pub open spec fn wf(&self) -> bool {
        &&& self.labels.len() == self.width * self.height
        &&& self.width * self.height < 0x1_0000_0000
    }
}

impl BlobImage {
    pub open spec fn view(&self) -> Seq<Seq<Point>> {
        blob_view(self.blobs@)
    }

    pub open spec fn width_spec(&self) -> int {
        self.label_map.width as int
    }

    pub open spec fn height_spec(&self) -> int {
        self.label_map.height as int
    }

    /// Every point lies in the image and there are no more points than
    /// pixels.
    pub open spec fn wf(&self) -> bool {
        &&& self.label_map.wf()
        &&& points_in(self@, self.label_map.width as int, self.label_map.height as int)
        &&& disjoint_points(self@)
        &&& total_points(self@) <= self.label_map.width * self.label_map.height
        &&& self.search_area.left + self.search_area.width <= self.label_map.width
        &&& self.search_area.top + self.search_area.height <= self.label_map.height
        &&& self.label_map.width >= 1 ==> self.search_area.width >= 1
        &&& self.label_map.height >= 1 ==> self.search_area.height >= 1
    }
}

proof fn lemma_count_foreground_bound(labels: Seq<u32>)
    ensures
        count_foreground(labels) <= labels.len(),
    decreases labels.len(),
{
    if labels.len() > 0 {
        lemma_count_foreground_bound(labels.drop_last());
    }
}

proof fn lemma_max_label_bound(labels: Seq<u32>)
    ensures
        forall|i: int| 0 <= i < labels.len() ==> labels[i] <= max_label(labels),
    decreases labels.len(),
{
    if labels.len() > 0 {
        lemma_max_label_bound(labels.drop_last());
        assert forall|i: int| 0 <= i < labels.len() - 1 implies labels[i] == labels.drop_last()[i] by {}
    }
}

proof fn lemma_total_push_at(bs: Seq<Seq<Point>>, i: int, p: Point)
    requires
        0 <= i < bs.len(),
    ensures
        total_points(bs.update(i, bs[i].push(p))) == total_points(bs) + 1,
    decreases bs.len(),
{
    let nb = bs.update(i, bs[i].push(p));
    if i == bs.len() - 1 {
        assert(nb.drop_last() =~= bs.drop_last());
    } else {
        lemma_total_push_at(bs.drop_last(), i, p);
        assert(nb.drop_last() =~= bs.drop_last().update(i, bs[i].push(p)));
    }
}

proof fn lemma_total_empty(n: nat)
    ensures
        total_points(Seq::new(n, |l: int| Seq::<Point>::empty())) == 0,
    decreases n,
{
    if n > 0 {
        lemma_total_empty((n - 1) as nat);
        assert(Seq::new(n, |l: int| Seq::<Point>::empty()).drop_last()
            =~= Seq::new((n - 1) as nat, |l: int| Seq::<Point>::empty()));
    }
}

/// `k / width < height` and `k % width < width` for a cell index of the grid.
proof fn lemma_cell(width: int, height: int, k: int)
    requires
        0 <= k < width * height,
        width >= 0,
        height >= 0,
    ensures
        width > 0,
        0 <= k % width < width,
        0 <= k / width < height,
{
    if width == 0 {
        assert(width * height == 0);
    }
    lemma_fundamental_div_mod(k, width);
    lemma_mod_bound(k, width);
    lemma_div_pos_is_pos(k, width);
    let q = k / width;
    assert(q < height) by (nonlinear_arith)
        requires
            k == width * q + k % width,
            k % width >= 0,
            k < width * height,
            width > 0,
    ;
}

proof fn lemma_select_shrinks(bs: Seq<Seq<Point>>, keep: spec_fn(Seq<Point>) -> bool)
    ensures
        select(bs, keep).len() <= bs.len(),
        total_points(select(bs, keep)) <= total_points(bs),
    decreases bs.len(),
{
    if bs.len() > 0 {
        lemma_select_shrinks(bs.drop_last(), keep);
        let r = select(bs.drop_last(), keep);
        if keep(bs.last()) {
            assert(r.push(bs.last()).drop_last() =~= r);
        }
    }
}

proof fn lemma_select_contains(bs: Seq<Seq<Point>>, keep: spec_fn(Seq<Point>) -> bool)
    ensures
        forall|b: Seq<Point>| select(bs, keep).contains(b) <==> (bs.contains(b) && keep(b)),
    decreases bs.len(),
{
    if bs.len() > 0 {
        let init = bs.drop_last();
        lemma_select_contains(init, keep);
        let r = select(init, keep);
        assert forall|b: Seq<Point>| select(bs, keep).contains(b) <==> (bs.contains(b) && keep(b)) by {
            if bs.contains(b) && keep(b) {
                let k = choose|k: int| 0 <= k < bs.len() && bs[k] == b;
                if k == bs.len() - 1 {
                    assert(r.push(bs.last())[r.len() as int] == b);
                } else {
                    assert(init[k] == b);
                    assert(init.contains(b));
                    assert(r.contains(b));
                    let m = choose|m: int| 0 <= m < r.len() && r[m] == b;
                    if keep(bs.last()) {
                        assert(r.push(bs.last())[m] == b);
                    }
                }
            }
            if select(bs, keep).contains(b) {
                let m = choose|m: int| 0 <= m < select(bs, keep).len() && select(bs, keep)[m] == b;
                if keep(bs.last()) && m == r.len() {
                    assert(bs[bs.len() - 1] == b);
                } else {
                    assert(r[m] == b);
                    assert(r.contains(b));
                    assert(init.contains(b));
                    let k = choose|k: int| 0 <= k < init.len() && init[k] == b;
                    assert(init[k] == bs[k]);
                    assert(bs[k] == b);
                }
            }
        }
    }
}

/// The area filter never adds blobs or points: the result has at most as many
/// blobs, and at most as many points, as its input.
pub proof fn lemma_area_filter_shrinks(bs: Seq<Seq<Point>>, width: int, height: int, min_rate: int, max_rate: int)
    ensures
        area_filter(bs, width, height, min_rate, max_rate).len() <= bs.len(),
        total_points(area_filter(bs, width, height, min_rate, max_rate)) <= total_points(bs),
{
    let lo = clamp(min_rate, 0, 100);
    lemma_select_shrinks(bs, area_range(width * height, lo, clamp(max_rate, lo, 100)));
}

/// The position filter keeps or drops whole blobs: a blob is in the result
/// exactly when it is in the input and every one of its points lies strictly
/// inside the window.
pub proof fn lemma_position_filter_whole_blobs(
    bs: Seq<Seq<Point>>,
    width: int,
    height: int,
    left_rate: int,
    top_rate: int,
    right_rate: int,
    bottom_rate: int,
)
    ensures
        ({
            let (l, t, r, b) = window_rates(left_rate, top_rate, right_rate, bottom_rate);
            forall|blob: Seq<Point>|
                #[trigger] position_filter(bs, width, height, left_rate, top_rate, right_rate, bottom_rate).contains(blob)
                    <==> (bs.contains(blob) && forall|j: int| 0 <= j < blob.len()
                        ==> point_inside(#[trigger] blob[j], width - 1, height - 1, l, t, r, b))
        }),
{
    let (l, t, r, b) = window_rates(left_rate, top_rate, right_rate, bottom_rate);
    lemma_select_contains(bs, inside_window(width - 1, height - 1, l, t, r, b));
}

/// The centroid of a collection without points is `(0, 0)`, and that of a
/// single point is the point itself.
pub proof fn lemma_centroid_empty_and_single(bs: Seq<Seq<Point>>, p: Point)
    ensures
        total_points(bs) == 0 ==> centroid(bs) == (Center { x_num: 0, y_num: 0, den: 1 }),
        centroid(seq![seq![p]]) == (Center { x_num: p.x as u128, y_num: p.y as u128, den: 1 }),
{
    let one = seq![seq![p]];
    assert(one.drop_last() =~= Seq::<Seq<Point>>::empty());
    assert(one.last().drop_last() =~= Seq::<Point>::empty());
    assert(total_points(Seq::<Seq<Point>>::empty()) == 0);
    assert(sum_x(Seq::<Seq<Point>>::empty()) == 0);
    assert(sum_y(Seq::<Seq<Point>>::empty()) == 0);
    assert(sum_x_blob(Seq::<Point>::empty()) == 0);
    assert(sum_y_blob(Seq::<Point>::empty()) == 0);
    assert(one.last() == seq![p]);
    assert(total_points(one) == 1);
    assert(sum_x_blob(seq![p]) == p.x);
    assert(sum_y_blob(seq![p]) == p.y);
    assert(sum_x(one) == p.x);
    assert(sum_y(one) == p.y);
}

proof fn lemma_select_members(bs: Seq<Seq<Point>>, keep: spec_fn(Seq<Point>) -> bool, i: int)
    requires
        0 <= i < select(bs, keep).len(),
    ensures
        exists|k: int| 0 <= k < bs.len() && bs[k] == select(bs, keep)[i],
{
    lemma_select_contains(bs, keep);
    assert(select(bs, keep).contains(select(bs, keep)[i]));
    assert(bs.contains(select(bs, keep)[i]));
}

proof fn lemma_select_points_in(bs: Seq<Seq<Point>>, keep: spec_fn(Seq<Point>) -> bool, width: int, height: int)
    requires
        points_in(bs, width, height),
    ensures
        points_in(select(bs, keep), width, height),
        total_points(select(bs, keep)) <= total_points(bs),
{
    lemma_select_shrinks(bs, keep);
    let sel = select(bs, keep);
    assert forall|i: int, j: int| 0 <= i < sel.len() && 0 <= j < sel[i].len() implies
        (#[trigger] sel[i][j]).x < width && sel[i][j].y < height by {
        lemma_select_members(bs, keep, i);
        let k = choose|k: int| 0 <= k < bs.len() && bs[k] == sel[i];
        assert(bs[k][j] == sel[i][j]);
    }
}

proof fn lemma_total_take(bs: Seq<Seq<Point>>, i: int)
    requires
        0 <= i <= bs.len(),
    ensures
        total_points(bs.take(i)) <= total_points(bs),
    decreases bs.len(),
{
    if i == bs.len() {
        assert(bs.take(i) =~= bs);
    } else {
        lemma_total_take(bs.drop_last(), i);
        assert(bs.drop_last().take(i) =~= bs.take(i));
    }
}

proof fn lemma_take_step(bs: Seq<Seq<Point>>, i: int)
    requires
        0 <= i < bs.len(),
    ensures
        total_points(bs.take(i + 1)) == total_points(bs.take(i)) + bs[i].len(),
        sum_x(bs.take(i + 1)) == sum_x(bs.take(i)) + sum_x_blob(bs[i]),
        sum_y(bs.take(i + 1)) == sum_y(bs.take(i)) + sum_y_blob(bs[i]),
{
    assert(bs.take(i + 1).drop_last() =~= bs.take(i));
}

proof fn lemma_blob_take_step(b: Seq<Point>, j: int)
    requires
        0 <= j < b.len(),
    ensures
        sum_x_blob(b.take(j + 1)) == sum_x_blob(b.take(j)) + b[j].x,
        sum_y_blob(b.take(j + 1)) == sum_y_blob(b.take(j)) + b[j].y,
{
    assert(b.take(j + 1).drop_last() =~= b.take(j));
}

/// `m * l / 100 + m * (r - l) / 100 <= m` for rates `0 <= l <= r <= 100`.
proof fn lemma_floor_sum_bound(m: int, l: int, r: int)
    requires
        m >= 0,
        0 <= l <= r <= 100,
    ensures
        (m * l) / 100 + (m * (r - l)) / 100 <= m,
{
    assert(m * l >= 0 && m * (r - l) >= 0) by (nonlinear_arith) requires m >= 0, 0 <= l <= r;
    lemma_floor_mul(m * l, 100);
    lemma_floor_mul(m * (r - l), 100);
    assert((m * l) / 100 + (m * (r - l)) / 100 <= m) by (nonlinear_arith)
        requires
            100 * ((m * l) / 100) <= m * l,
            100 * ((m * (r - l)) / 100) <= m * (r - l),
            r <= 100,
            m >= 0,
    ;
}

/// Whether every point of `b` lies strictly inside the window.
fn blob_inside(b: &Vec<Point>, max_x: u64, max_y: u64, l: u64, t: u64, r: u64, bt: u64) -> (ok: bool)
    requires
        max_x < 0x1_0000_0000,
        max_y < 0x1_0000_0000,
        l <= 100,
        t <= 100,
        r <= 100,
        bt <= 100,
    ensures
        ok == inside_window(max_x as int, max_y as int, l as int, t as int, r as int, bt as int)(b@),
{
    let mut j: usize = 0;
    while j < b.len()
        invariant
            j <= b@.len(),
            max_x < 0x1_0000_0000,
            max_y < 0x1_0000_0000,
            l <= 100,
            t <= 100,
            r <= 100,
            bt <= 100,
            forall|k: int| 0 <= k < j ==> point_inside(#[trigger] b@[k], max_x as int, max_y as int, l as int, t as int, r as int, bt as int),
        decreases b@.len() - j,
    {
        let x = b[j].x as u64;
        let y = b[j].y as u64;
        proof {
            assert(max_x * l <= 0xffff_ffff * 100) by (nonlinear_arith) requires max_x < 0x1_0000_0000, l <= 100;
            assert(max_x * r <= 0xffff_ffff * 100) by (nonlinear_arith) requires max_x < 0x1_0000_0000, r <= 100;
            assert(max_y * t <= 0xffff_ffff * 100) by (nonlinear_arith) requires max_y < 0x1_0000_0000, t <= 100;
            assert(max_y * bt <= 0xffff_ffff * 100) by (nonlinear_arith) requires max_y < 0x1_0000_0000, bt <= 100;
        }
        if !(max_x * l < 100 * x && 100 * x < max_x * r && max_y * t < 100 * y && 100 * y < max_y * bt) {
            return false;
        }
        j = j + 1;
    }
    true
}

proof fn lemma_covered_push_empty(bs: Seq<Seq<Point>>, width: int)
    ensures
        forall|k: int| #[trigger] covered(bs.push(Seq::<Point>::empty()), width, k) == covered(bs, width, k),
{
    let nb = bs.push(Seq::<Point>::empty());
    assert forall|k: int| covered(nb, width, k) == covered(bs, width, k) by {
        if covered(nb, width, k) {
            let (i, j) = choose|i: int, j: int| 0 <= i < nb.len() && 0 <= j < nb[i].len() && #[trigger] pixel_index(nb[i][j], width) == k;
            assert(nb[i] == bs[i]);
            assert(pixel_index(bs[i][j], width) == k);
        }
        if covered(bs, width, k) {
            let (i, j) = choose|i: int, j: int| 0 <= i < bs.len() && 0 <= j < bs[i].len() && #[trigger] pixel_index(bs[i][j], width) == k;
            assert(nb[i] == bs[i]);
            assert(pixel_index(nb[i][j], width) == k);
        }
    }
}

proof fn lemma_covered_extend(bs: Seq<Seq<Point>>, p: Point, width: int)
    requires
        bs.len() >= 1,
    ensures
        forall|k: int| #[trigger] covered(bs.update(bs.len() - 1, bs.last().push(p)), width, k)
            == (covered(bs, width, k) || k == pixel_index(p, width)),
{
    let last = bs.len() - 1;
    let nb = bs.update(last, bs.last().push(p));
    assert forall|k: int| covered(nb, width, k) == (covered(bs, width, k) || k == pixel_index(p, width)) by {
        if covered(nb, width, k) {
            let (i, j) = choose|i: int, j: int| 0 <= i < nb.len() && 0 <= j < nb[i].len() && #[trigger] pixel_index(nb[i][j], width) == k;
            if i == last && j == bs[last].len() {
            } else {
                assert(nb[i][j] == bs[i][j]);
                assert(pixel_index(bs[i][j], width) == k);
            }
        }
        if covered(bs, width, k) {
            let (i, j) = choose|i: int, j: int| 0 <= i < bs.len() && 0 <= j < bs[i].len() && #[trigger] pixel_index(bs[i][j], width) == k;
            assert(nb[i][j] == bs[i][j]);
            assert(pixel_index(nb[i][j], width) == k);
        }
        if k == pixel_index(p, width) {
            assert(nb[last][bs[last].len() as int] == p);
            assert(pixel_index(nb[last][bs[last].len() as int], width) == k);
        }
    }
}

proof fn lemma_select_disjoint(bs: Seq<Seq<Point>>, keep: spec_fn(Seq<Point>) -> bool)
    requires
        disjoint_points(bs),
    ensures
        disjoint_points(select(bs, keep)),
    decreases bs.len(),
{
    if bs.len() > 0 {
        let init = bs.drop_last();
        let last = bs.len() - 1;
        assert(disjoint_points(init)) by {
            assert forall|i1: int, j1: int, i2: int, j2: int|
                0 <= i1 < init.len() && 0 <= j1 < init[i1].len() && 0 <= i2 < init.len() && 0 <= j2 < init[i2].len()
                    && (i1 != i2 || j1 != j2) implies #[trigger] init[i1][j1] != #[trigger] init[i2][j2] by {
                assert(init[i1] == bs[i1] && init[i2] == bs[i2]);
                assert(bs[i1][j1] != bs[i2][j2]);
            }
        }
        lemma_select_disjoint(init, keep);
        let r = select(init, keep);
        if keep(bs.last()) {
            let nr = r.push(bs.last());
            assert forall|i1: int, j1: int, i2: int, j2: int|
                0 <= i1 < nr.len() && 0 <= j1 < nr[i1].len() && 0 <= i2 < nr.len() && 0 <= j2 < nr[i2].len()
                    && (i1 != i2 || j1 != j2) implies #[trigger] nr[i1][j1] != #[trigger] nr[i2][j2] by {
                if i1 < r.len() && i2 < r.len() {
                    assert(nr[i1] == r[i1] && nr[i2] == r[i2]);
                    assert(r[i1][j1] != r[i2][j2]);
                } else if i1 == r.len() && i2 == r.len() {
                    assert(bs[last][j1] != bs[last][j2]);
                } else if i1 < r.len() {
                    lemma_select_members(init, keep, i1);
                    let k = choose|k: int| 0 <= k < init.len() && init[k] == select(init, keep)[i1];
                    assert(nr[i1][j1] == bs[k][j1]);
                    assert(bs[k][j1] != bs[last][j2]);
                } else {
                    lemma_select_members(init, keep, i2);
                    let k = choose|k: int| 0 <= k < init.len() && init[k] == select(init, keep)[i2];
                    assert(nr[i2][j2] == bs[k][j2]);
                    assert(bs[last][j1] != bs[k][j2]);
                }
            }
        }
    }
}

/// Whether `BlobImage::new` accepts `data` as a `width x height` image:
/// some pixel is background, or there are at least two pixels and all hold
/// one value (or there is no pixel at all).
pub fn labelling_accepts(width: u32, height: u32, data: &Vec<u8>) -> (r: bool)
    requires
        data.len() >= width * height,
    ensures
        r == labelling_fits(width, height, data@),
{
    let total: u64 = width as u64 * height as u64;
    let n: usize = total as usize;
    if n == 0 {
        return true;
    }
    let first = data[0];
    let mut uniform = true;
    let mut i: usize = 0;
    while i < n
        invariant
            n == width * height,
            n <= data@.len(),
            n >= 1,
            first == data@[0],
            i <= n,
            forall|j: int| 0 <= j < i ==> data@[j] != 0,
            uniform == forall|j: int| 0 <= j < i ==> #[trigger] data@[j] == first,
        decreases n - i,
    {
        if data[i] == 0 {
            return true;
        }
        if data[i] != first {
            uniform = false;
        }
        i = i + 1;
    }
    n >= 2 && uniform
}

impl BlobImage {
    /// A framing state over a given label map, with no blobs yet and search
    /// and crop areas covering the whole image.
    pub fn from_labels(width: u32, height: u32, labels: Vec<u32>) -> (r: BlobImage)
        requires
            labels.len() == width * height,
            width * height < 0x1_0000_0000,
        ensures
            r.wf(),
            r.label_map.width == width,
            r.label_map.height == height,
            r.label_map.labels@ == labels@,
            r@.len() == 0,
            r.search_area == Rect::full_spec(width, height),
            r.crop_area == Rect::full_spec(width, height),
    {
        BlobImage {
            label_map: LabelMap { width, height, labels },
            blobs: Vec::new(),
            search_area: Rect::full(width, height),
            crop_area: Rect::full(width, height),
        }
    }

    /// Labels the connected regions of a binary image (`width x height`
    /// bytes, row by row, 0 for background; see `labelling_fits` for the
    /// images the labelling accepts) and starts a framing state over
    /// the resulting label map.
    pub fn new(width: u32, height: u32, data: Vec<u8>) -> (r: BlobImage)
        requires
            data.len() >= width * height,
            width * height < 0x1_0000_0000,
            labelling_fits(width, height, data@),
        ensures
            r.wf(),
            r.label_map.width == width,
            r.label_map.height == height,
            r.label_map.labels@ == components_of(width, height, data@),
            forall|i: int| 0 <= i < width * height ==> (r.label_map.labels[i] == 0 <==> data[i] == 0),
            r@.len() == 0,
            r.search_area == Rect::full_spec(width, height),
            r.crop_area == Rect::full_spec(width, height),
    {
        let labels = label_components(width, height, data);
        BlobImage::from_labels(width, height, labels)
    }

    /// Groups the pixels of the label map by label: for every label `l` from
    /// 1 to the largest label, blob `l - 1` holds the points labelled `l` in
    /// row-major order. Background pixels belong to no blob. The search and
    /// crop areas are reset to the whole image.
    pub fn detect_blob(self) -> (r: BlobImage)
        requires
            self.wf(),
        ensures
            r.wf(),
            r.label_map == self.label_map,
            r@ == extract(self.label_map.labels@, self.width_spec()),
            total_points(r@) == count_foreground(self.label_map.labels@),
            r.search_area == Rect::full_spec(self.label_map.width, self.label_map.height),
            r.crop_area == Rect::full_spec(self.label_map.width, self.label_map.height),
    {
        let width = self.label_map.width;
        let height = self.label_map.height;
        let labels = &self.label_map.labels;
        let n = labels.len();
        let ghost w = width as int;
        let ghost ls = labels@;

        let mut max: u32 = 0;
        let mut k: usize = 0;
        while k < n
            invariant
                n == ls.len(),
                ls == labels@,
                k <= n,
                max == max_label(ls.take(k as int)),
            decreases n - k,
        {
            assert(ls.take(k + 1).drop_last() =~= ls.take(k as int));
            if labels[k] > max {
                max = labels[k];
            }
            k = k + 1;
        }
        assert(ls.take(n as int) =~= ls);

        let m: usize = max as usize;
        let mut blobs: Vec<Vec<Point>> = Vec::new();
        while blobs.len() < m
            invariant
                blobs@.len() <= m,
                forall|i: int| 0 <= i < blobs@.len() ==> (#[trigger] blobs@[i])@.len() == 0,
            decreases m - blobs@.len(),
        {
            blobs.push(Vec::new());
        }
        let ghost count: nat = m as nat;
        proof {
            assert forall|i: int| 0 <= i < count implies blob_view(blobs@)[i] == Seq::<Point>::empty() by {
                assert(blobs@[i]@ =~= Seq::<Point>::empty());
            }
            lemma_max_label_bound(ls);
            assert(blob_view(blobs@) =~= Seq::new(count, |l: int| Seq::<Point>::empty()));
            lemma_total_empty(count);
            assert(ls.take(0) =~= Seq::<u32>::empty());
        }

        let mut k: usize = 0;
        while k < n
            invariant
                n == ls.len(),
                ls == labels@,
                n == width * height,
                width * height < 0x1_0000_0000,
                w == width,
                k <= n,
                count == max_label(ls),
                blobs@.len() == count,
                forall|i: int| 0 <= i < ls.len() ==> ls[i] <= max_label(ls),
                forall|l: int| 0 <= l < count ==> (#[trigger] blobs@[l])@ == label_points(ls.take(k as int), w, (l + 1) as u32),
                total_points(blob_view(blobs@)) == count_foreground(ls.take(k as int)),
                disjoint_points(blob_view(blobs@)),
                forall|i: int, j: int| 0 <= i < count && 0 <= j < blobs@[i]@.len() ==>
                    pixel_index(#[trigger] blobs@[i]@[j], w) < k,
                forall|i: int, j: int| 0 <= i < count && 0 <= j < blobs@[i]@.len() ==> {
                    &&& (#[trigger] blobs@[i]@[j]).x < width
                    &&& blobs@[i]@[j].y < height
                },
            decreases n - k,
        {
            proof {
                lemma_cell(w, height as int, k as int);
                assert(ls.take(k + 1).drop_last() =~= ls.take(k as int));
            }
            let label = labels[k];
            if label > 0 {
                let p = Point { x: (k % (width as usize)) as u32, y: (k / (width as usize)) as u32 };
                assert(p == point_at(w, k as int));
                proof {
                    lemma_fundamental_div_mod(k as int, w);
                    assert(p.y == k as int / w && p.x == k as int % w);
                    let q = k as int / w;
                    assert(q * w == w * q) by (nonlinear_arith);
                    assert(pixel_index(p, w) == k);
                }
                let ghost before = blob_view(blobs@);
                let slot: usize = (label - 1) as usize;
                let mut b = Vec::new();
                std::mem::swap(&mut b, &mut blobs[slot]);
                b.push(p);
                blobs.set(slot, b);
                proof {
                    let nb = before.update(slot as int, before[slot as int].push(p));
                    assert(blob_view(blobs@) =~= nb);
                    lemma_total_push_at(before, slot as int, p);
                    let li = slot as int;
                    let lj = before[li].len() as int;
                    assert forall|i1: int, j1: int, i2: int, j2: int|
                        0 <= i1 < nb.len() && 0 <= j1 < nb[i1].len() && 0 <= i2 < nb.len() && 0 <= j2 < nb[i2].len()
                            && (i1 != i2 || j1 != j2) implies #[trigger] nb[i1][j1] != #[trigger] nb[i2][j2] by {
                        if i1 == li && j1 == lj {
                            assert(nb[i2][j2] == before[i2][j2]);
                            assert(pixel_index(blobs@[i2]@[j2], w) < k);
                        } else if i2 == li && j2 == lj {
                            assert(nb[i1][j1] == before[i1][j1]);
                            assert(pixel_index(blobs@[i1]@[j1], w) < k);
                        } else {
                            assert(nb[i1][j1] == before[i1][j1]);
                            assert(nb[i2][j2] == before[i2][j2]);
                        }
                    }
                }
            }
            k = k + 1;
        }
        proof {
            assert(ls.take(n as int) =~= ls);
            assert(blob_view(blobs@) =~= extract(ls, w));
            lemma_count_foreground_bound(ls);
        }
        BlobImage {
            label_map: self.label_map,
            blobs,
            search_area: Rect::full(width, height),
            crop_area: Rect::full(width, height),
        }
    }

    /// Keeps the blobs whose point count lies strictly between `min_rate`
    /// and `max_rate` percent of the image area (`min_rate` clamped into
    /// `[0, 100]`, `max_rate` into `[min_rate, 100]`), in their order.
    pub fn extract_with_area(self, min_rate: i32, max_rate: i32) -> (r: BlobImage)
        requires
            self.wf(),
        ensures
            r.wf(),
            r.label_map == self.label_map,
            r@ == area_filter(self@, self.width_spec(), self.height_spec(), min_rate as int, max_rate as int),
            r.search_area == self.search_area,
            r.crop_area == self.crop_area,
    {
        let lo = clamp_rate(min_rate, 0);
        let hi = clamp_rate(max_rate, lo);
        let area: u128 = self.label_map.width as u128 * self.label_map.height as u128;
        let ghost bs = self@;
        let ghost keep = area_range(area as int, lo as int, hi as int);
        let mut kept: Vec<Vec<Point>> = Vec::new();
        let mut i: usize = 0;
        proof {
            assert(bs.take(0) =~= Seq::<Seq<Point>>::empty());
            assert(blob_view(kept@) =~= Seq::<Seq<Point>>::empty());
        }
        while i < self.blobs.len()
            invariant
                i <= self.blobs@.len(),
                bs == blob_view(self.blobs@),
                area < 0x1_0000_0000,
                lo <= 100,
                hi <= 100,
                keep == area_range(area as int, lo as int, hi as int),
                blob_view(kept@) == select(bs.take(i as int), keep),
            decreases self.blobs@.len() - i,
        {
            let n = self.blobs[i].len() as u128;
            proof {
                assert(area * lo <= 0xffff_ffff * 100) by (nonlinear_arith) requires area < 0x1_0000_0000, lo <= 100;
                assert(area * hi <= 0xffff_ffff * 100) by (nonlinear_arith) requires area < 0x1_0000_0000, hi <= 100;
                assert(bs.take(i + 1).drop_last() =~= bs.take(i as int));
                assert(bs.take(i + 1).last() == bs[i as int]);
            }
            if area * (lo as u128) < 100 * n && 100 * n < area * (hi as u128) {
                let b = self.blobs[i].clone();
                proof {
                    assert(b@ =~= self.blobs@[i as int]@);
                }
                let ghost before = kept@;
                kept.push(b);
                proof {
                    assert(blob_view(kept@) =~= blob_view(before).push(b@));
                }
            }
            i = i + 1;
        }
        proof {
            assert(bs.take(self.blobs@.len() as int) =~= bs);
            lemma_select_points_in(bs, keep, self.width_spec(), self.height_spec());
            lemma_select_disjoint(bs, keep);
        }
        BlobImage {
            label_map: self.label_map,
            blobs: kept,
            search_area: self.search_area,
            crop_area: self.crop_area,
        }
    }

    /// Keeps the blobs whose points all lie strictly inside the window given
    /// by the rates (percentages of the largest coordinate, clamped: left and
    /// top into `[0, 100]`, right into `[left, 100]`, bottom into
    /// `[top, 100]`), and records that window as the search area whatever
    /// was kept.
    pub fn extract_with_position(self, left_rate: i32, top_rate: i32, right_rate: i32, bottom_rate: i32) -> (r: BlobImage)
        requires
            self.wf(),
            self.label_map.width >= 1,
            self.label_map.height >= 1,
        ensures
            r.wf(),
            r.label_map == self.label_map,
            r@ == position_filter(self@, self.width_spec(), self.height_spec(), left_rate as int, top_rate as int, right_rate as int, bottom_rate as int),
            rect_tuple(r.search_area) == window_rect(self.width_spec(), self.height_spec(), left_rate as int, top_rate as int, right_rate as int, bottom_rate as int),
            r.crop_area == self.crop_area,
    {
        let l = clamp_rate(left_rate, 0);
        let t = clamp_rate(top_rate, 0);
        let r = clamp_rate(right_rate, l);
        let bt = clamp_rate(bottom_rate, t);
        let max_x: u64 = (self.label_map.width - 1) as u64;
        let max_y: u64 = (self.label_map.height - 1) as u64;
        let ghost bs = self@;
        let ghost keep = inside_window(max_x as int, max_y as int, l as int, t as int, r as int, bt as int);
        let mut kept: Vec<Vec<Point>> = Vec::new();
        let mut i: usize = 0;
        proof {
            assert(bs.take(0) =~= Seq::<Seq<Point>>::empty());
            assert(blob_view(kept@) =~= Seq::<Seq<Point>>::empty());
        }
        while i < self.blobs.len()
            invariant
                i <= self.blobs@.len(),
                bs == blob_view(self.blobs@),
                max_x < 0x1_0000_0000,
                max_y < 0x1_0000_0000,
                l <= 100,
                t <= 100,
                r <= 100,
                bt <= 100,
                keep == inside_window(max_x as int, max_y as int, l as int, t as int, r as int, bt as int),
                blob_view(kept@) == select(bs.take(i as int), keep),
            decreases self.blobs@.len() - i,
        {
            proof {
                assert(bs.take(i + 1).drop_last() =~= bs.take(i as int));
                assert(bs.take(i + 1).last() == bs[i as int]);
            }
            if blob_inside(&self.blobs[i], max_x, max_y, l as u64, t as u64, r as u64, bt as u64) {
                let b = self.blobs[i].clone();
                proof {
                    assert(b@ =~= self.blobs@[i as int]@);
                }
                let ghost before = kept@;
                kept.push(b);
                proof {
                    assert(blob_view(kept@) =~= blob_view(before).push(b@));
                }
            }
            i = i + 1;
        }
        proof {
            assert(bs.take(self.blobs@.len() as int) =~= bs);
            lemma_select_points_in(bs, keep, self.width_spec(), self.height_spec());
            lemma_select_disjoint(bs, keep);
            lemma_floor_mul(max_x * l, 100);
            lemma_floor_mul(max_y * t, 100);
            lemma_floor_mul(max_x * (r - l), 100);
            lemma_floor_mul(max_y * (bt - t), 100);
            assert(max_x * l <= max_x * 100) by (nonlinear_arith) requires l <= 100, max_x >= 0;
            assert(max_y * t <= max_y * 100) by (nonlinear_arith) requires t <= 100, max_y >= 0;
            assert(max_x * (r - l) <= max_x * 100 && max_x * (r - l) >= 0) by (nonlinear_arith) requires l <= r <= 100, max_x >= 0;
            assert(max_y * (bt - t) <= max_y * 100 && max_y * (bt - t) >= 0) by (nonlinear_arith) requires t <= bt <= 100, max_y >= 0;
            lemma_floor_sum_bound(max_x as int, l as int, r as int);
            lemma_floor_sum_bound(max_y as int, t as int, bt as int);
        }
        let search_area = Rect {
            left: (max_x * (l as u64) / 100) as u32,
            top: (max_y * (t as u64) / 100) as u32,
            width: (max_x * ((r - l) as u64) / 100 + 1) as u32,
            height: (max_y * ((bt - t) as u64) / 100 + 1) as u32,
        };
        BlobImage {
            label_map: self.label_map,
            blobs: kept,
            search_area,
            crop_area: self.crop_area,
        }
    }

    /// The sums of the x and y coordinates over all points, and the number
    /// of points.
    fn coordinate_sums(&self) -> (r: (u128, u128, u64))
        requires
            self.wf(),
        ensures
            r.0 == sum_x(self@),
            r.1 == sum_y(self@),
            r.2 == total_points(self@),
            r.0 + r.2 <= r.2 * self.width_spec(),
            r.1 + r.2 <= r.2 * self.height_spec(),
    {
        let ghost bs = self@;
        let ghost w = self.width_spec();
        let ghost h = self.height_spec();
        let mut sx: u128 = 0;
        let mut sy: u128 = 0;
        let mut cnt: u64 = 0;
        let mut i: usize = 0;
        proof {
            assert(bs.take(0) =~= Seq::<Seq<Point>>::empty());
        }
        while i < self.blobs.len()
            invariant
                self.wf(),
                bs == self@,
                w == self.width_spec(),
                h == self.height_spec(),
                i <= bs.len(),
                cnt == total_points(bs.take(i as int)),
                sx == sum_x(bs.take(i as int)),
                sy == sum_y(bs.take(i as int)),
                sx + cnt <= cnt * w,
                sy + cnt <= cnt * h,
            decreases bs.len() - i,
        {
            let blob = &self.blobs[i];
            let mut j: usize = 0;
            proof {
                lemma_take_step(bs, i as int);
                lemma_total_take(bs, i + 1);
                assert(bs[i as int].take(0) =~= Seq::<Point>::empty());
            }
            while j < blob.len()
                invariant
                    self.wf(),
                    bs == self@,
                    w == self.width_spec(),
                    h == self.height_spec(),
                    i < bs.len(),
                    blob@ == self.blobs@[i as int]@,
                    bs[i as int] == blob@,
                    j <= blob@.len(),
                    total_points(bs.take(i + 1)) == total_points(bs.take(i as int)) + blob@.len(),
                    total_points(bs.take(i + 1)) <= total_points(bs),
                    cnt == total_points(bs.take(i as int)) + j,
                    sx == sum_x(bs.take(i as int)) + sum_x_blob(blob@.take(j as int)),
                    sy == sum_y(bs.take(i as int)) + sum_y_blob(blob@.take(j as int)),
                    sx + cnt <= cnt * w,
                    sy + cnt <= cnt * h,
                decreases blob@.len() - j,
            {
                let p = blob[j];
                proof {
                    lemma_blob_take_step(blob@, j as int);
                    assert(bs[i as int][j as int] == p);
                    assert(p.x < w && p.y < h);
                    assert(cnt * w <= 0xffff_ffff * 0xffff_ffff) by (nonlinear_arith)
                        requires cnt <= 0xffff_ffff, 0 <= w <= 0xffff_ffff;
                    assert(cnt * h <= 0xffff_ffff * 0xffff_ffff) by (nonlinear_arith)
                        requires cnt <= 0xffff_ffff, 0 <= h <= 0xffff_ffff;
                    assert((cnt + 1) * w == cnt * w + w) by (nonlinear_arith);
                    assert((cnt + 1) * h == cnt * h + h) by (nonlinear_arith);
                }
                sx = sx + p.x as u128;
                sy = sy + p.y as u128;
                cnt = cnt + 1;
                j = j + 1;
            }
            proof {
                assert(blob@.take(j as int) =~= blob@);
            }
            i = i + 1;
        }
        proof {
            assert(bs.take(bs.len() as int) =~= bs);
        }
        (sx, sy, cnt)
    }

    /// The mean position of all points (`(0, 0)` when there are none).
    pub fn blob_center(&self) -> (r: Center)
        requires
            self.wf(),
        ensures
            r == centroid(self@),
            total_points(self@) > 0 ==> {
                &&& r.x_num == sum_x(self@)
                &&& r.y_num == sum_y(self@)
                &&& r.den == total_points(self@)
                &&& r.strictly_within(self.width_spec(), self.height_spec())
            },
    {
        let (sx, sy, cnt) = self.coordinate_sums();
        proof {
            assert(self.width_spec() * cnt == cnt * self.width_spec()) by (nonlinear_arith);
            assert(self.height_spec() * cnt == cnt * self.height_spec()) by (nonlinear_arith);
        }
        if cnt > 0 {
            Center { x_num: sx, y_num: sy, den: cnt }
        } else {
            Center { x_num: 0, y_num: 0, den: 1 }
        }
    }

    /// Records as crop area the proportional crop rectangle centred on the
    /// blobs' centroid, or on the image centre when no point is left.
    pub fn crop_with_blob(self, width_rate: i32, height_rate: i32) -> (r: BlobImage)
        requires
            self.wf(),
        ensures
            r.wf(),
            r.label_map == self.label_map,
            r@ == self@,
            r.search_area == self.search_area,
            rect_tuple(r.crop_area) == crop_rect(
                self.width_spec(),
                self.height_spec(),
                crop_center(self@, self.label_map.width, self.label_map.height),
                width_rate as int,
                height_rate as int,
            ),
    {
        let width = self.label_map.width;
        let height = self.label_map.height;
        let (sx, sy, cnt) = self.coordinate_sums();
        proof {
            assert(self.width_spec() * cnt == cnt * self.width_spec()) by (nonlinear_arith);
            assert(self.height_spec() * cnt == cnt * self.height_spec()) by (nonlinear_arith);
        }
        let center = if cnt > 0 {
            Center { x_num: sx, y_num: sy, den: cnt }
        } else {
            Center { x_num: width as u128, y_num: height as u128, den: 2 }
        };
        let crop_area = calculate_crop_area(width, height, center, width_rate, height_rate);
        BlobImage {
            label_map: self.label_map,
            blobs: self.blobs,
            search_area: self.search_area,
            crop_area,
        }
    }

    /// The crop area, each side at least one pixel.
    pub fn crop_rect(&self) -> (r: CropRect)
        ensures
            r.left == self.crop_area.left,
            r.top == self.crop_area.top,
            r.width == if self.crop_area.width < 1 { 1 } else { self.crop_area.width },
            r.height == if self.crop_area.height < 1 { 1 } else { self.crop_area.height },
    {
        CropRect {
            left: self.crop_area.left,
            top: self.crop_area.top,
            width: if self.crop_area.width < 1 { 1 } else { self.crop_area.width },
            height: if self.crop_area.height < 1 { 1 } else { self.crop_area.height },
        }
    }

    /// The blob points painted opaque green on a transparent black image.
    fn paint_blobs(&self) -> (r: Vec<u8>)
        requires
            self.wf(),
            4 * self.label_map.width * self.label_map.height <= 0xffff_ffff,
        ensures
            r@ == blob_pixels(self@, self.width_spec(), self.height_spec()),
    {
        let width = self.label_map.width;
        let height = self.label_map.height;
        let ghost w = width as int;
        let ghost h = height as int;
        let ghost bs = self@;
        let n: u64 = 4 * (width as u64) * (height as u64);
        let mut data: Vec<u8> = vec![0u8; n as usize];
        proof {
            assert(bs.take(0) =~= Seq::<Seq<Point>>::empty());
            assert(data@ =~= blob_pixels(bs.take(0), w, h));
        }
        let mut i: usize = 0;
        while i < self.blobs.len()
            invariant
                self.wf(),
                bs == self@,
                w == width,
                h == height,
                width == self.label_map.width,
                height == self.label_map.height,
                4 * width * height <= 0xffff_ffff,
                i <= bs.len(),
                data@ == blob_pixels(bs.take(i as int), w, h),
            decreases bs.len() - i,
        {
            let blob = &self.blobs[i];
            let ghost done = bs.take(i as int);
            proof {
                lemma_covered_push_empty(done, w);
                assert(bs[i as int].take(0) =~= Seq::<Point>::empty());
                assert(data@ =~= blob_pixels(done.push(bs[i as int].take(0)), w, h));
            }
            let mut j: usize = 0;
            while j < blob.len()
                invariant
                    self.wf(),
                    bs == self@,
                    w == width,
                    h == height,
                    width == self.label_map.width,
                    height == self.label_map.height,
                    4 * width * height <= 0xffff_ffff,
                    i < bs.len(),
                    done == bs.take(i as int),
                    bs[i as int] == blob@,
                    j <= blob@.len(),
                    data@ == blob_pixels(done.push(blob@.take(j as int)), w, h),
                    data@.len() == 4 * w * h,
                decreases blob@.len() - j,
            {
                let p = blob[j];
                let ghost before = done.push(blob@.take(j as int));
                let ghost after = done.push(blob@.take(j + 1));
                proof {
                    assert(bs[i as int][j as int] == p);
                    assert(p.x < width && p.y < height);
                    assert(p.y * w + p.x < w * h) by (nonlinear_arith)
                        requires p.x < w, p.y < h, p.x >= 0, p.y >= 0;
                    assert(blob@.take(j + 1) =~= blob@.take(j as int).push(p));
                    assert(before.last() == blob@.take(j as int));
                    assert(after =~= before.update(before.len() - 1, before.last().push(p)));
                    lemma_covered_extend(before, p, w);
                }
                let k: usize = (p.y as usize) * (width as usize) + p.x as usize;
                assert(k == pixel_index(p, w));
                assert(data@.len() == 4 * w * h);
                assert(4 * w * h == 4 * (w * h)) by (nonlinear_arith);
                let ghost old_data = data@;
                data.set(4 * k, 0);
                data.set(4 * k + 1, 255);
                data.set(4 * k + 2, 0);
                data.set(4 * k + 3, 255);
                proof {
                    assert forall|b: int| 0 <= b < data@.len() implies data@[b] == blob_pixels(after, w, h)[b] by {
                        if 4 * k <= b < 4 * k + 4 {
                            assert(b / 4 == k);
                            assert(b % 4 == b - 4 * k);
                            assert(k as int == pixel_index(p, w));
                            assert(covered(before.update(before.len() - 1, before.last().push(p)), w, k as int));
                            assert(covered(after, w, k as int));
                            assert(blob_pixels(after, w, h)[b] == mark_byte(b - 4 * k));
                        } else {
                            assert(b / 4 != k);
                            assert(data@[b] == old_data[b]);
                            assert(old_data[b] == blob_pixels(before, w, h)[b]);
                            assert(covered(before.update(before.len() - 1, before.last().push(p)), w, b / 4)
                                == covered(before, w, b / 4));
                            assert(covered(after, w, b / 4) == covered(before, w, b / 4));
                        }
                    }
                    assert(data@ =~= blob_pixels(after, w, h));
                }
                j = j + 1;
            }
            proof {
                assert(blob@.take(j as int) =~= blob@);
                assert(done.push(blob@) =~= bs.take(i + 1));
            }
            i = i + 1;
        }
        proof {
            assert(bs.take(bs.len() as int) =~= bs);
        }
        data
    }

    /// An RGBA picture of the state: blob points in green on transparent
    /// black, with the outline of the search area drawn in yellow.
    pub fn to_canvas(&self) -> (r: CanvasImage)
        requires
            self.wf(),
            4 * self.label_map.width * self.label_map.height <= 0xffff_ffff,
        ensures
            r.wf(),
            r.width == self.label_map.width,
            r.height == self.label_map.height,
            self.width_spec() == 0 || self.height_spec() == 0 ==> r.data@ == blob_pixels(self@, self.width_spec(), self.height_spec()),
            self.width_spec() >= 1 && self.height_spec() >= 1 ==> r.data@ == outline_drawn(
                self.label_map.width,
                self.label_map.height,
                blob_pixels(self@, self.width_spec(), self.height_spec()),
                (self.search_area.left, self.search_area.top, self.search_area.width, self.search_area.height),
                SEARCH_OUTLINE,
            ),
            self.width_spec() >= 1 && self.height_spec() >= 1
                && self.search_area.left + self.search_area.width <= 0x100_0000
                && self.search_area.top + self.search_area.height <= 0x100_0000 ==> r.data@ == outline_painted(
                self.label_map.width,
                blob_pixels(self@, self.width_spec(), self.height_spec()),
                (self.search_area.left, self.search_area.top, self.search_area.width, self.search_area.height),
                SEARCH_OUTLINE,
            ),
    {
        let width = self.label_map.width;
        let height = self.label_map.height;
        let data = self.paint_blobs();
        if width == 0 || height == 0 {
            return CanvasImage { data, width, height };
        }
        proof {
            assert(width < 0x4000_0000 && height < 0x4000_0000) by (nonlinear_arith)
                requires
                    4 * width * height <= 0xffff_ffff,
                    width >= 1,
                    height >= 1,
            ;
        }
        let data = draw_outline(data, width, height, self.search_area, SEARCH_OUTLINE);
        CanvasImage { data, width, height }
    }

    /// As `to_canvas`, consuming the state.
    pub fn into_canvas(self) -> (r: CanvasImage)
        requires
            self.wf(),
            4 * self.label_map.width * self.label_map.height <= 0xffff_ffff,
        ensures
            r.wf(),
            r.width == self.label_map.width,
            r.height == self.label_map.height,
            self.width_spec() == 0 || self.height_spec() == 0 ==> r.data@ == blob_pixels(self@, self.width_spec(), self.height_spec()),
            self.width_spec() >= 1 && self.height_spec() >= 1 ==> r.data@ == outline_drawn(
                self.label_map.width,
                self.label_map.height,
                blob_pixels(self@, self.width_spec(), self.height_spec()),
                (self.search_area.left, self.search_area.top, self.search_area.width, self.search_area.height),
                SEARCH_OUTLINE,
            ),
            self.width_spec() >= 1 && self.height_spec() >= 1
                && self.search_area.left + self.search_area.width <= 0x100_0000
                && self.search_area.top + self.search_area.height <= 0x100_0000 ==> r.data@ == outline_painted(
                self.label_map.width,
                blob_pixels(self@, self.width_spec(), self.height_spec()),
                (self.search_area.left, self.search_area.top, self.search_area.width, self.search_area.height),
                SEARCH_OUTLINE,
            ),
    {
        self.to_canvas()
    }
}

} // verus!
