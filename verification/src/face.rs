//! Faces: how a picture is laid out for the models, and which of the places that the
//! detector marks are taken for faces.

use vstd::prelude::*;

use crate::ranking::{law_ranking_repeats_nothing, listed_before, rank, Ranked};
use crate::score::Score;
use crate::search::{is_order_of, lemma_order_is_complete, VECTOR_DIMENSION};
use crate::thumbnail::{exact_pixels, picture_size, pixel_bytes, rgb_of, RgbPixels};

verus! {

/// The side of the square that the detector looks at.
pub const DETECTOR_SIZE: u32 = 640;

/// The side of the square that the recognizer looks at.
pub const RECOGNIZER_SIZE: u32 = 112;

/// The key of 0.65, above which a place is taken for a face.
pub const SCORE_THRESHOLD_KEY: i32 = 0x3f26_6666;

/// The key of 0.4, up to which two faces may overlap.
pub const NMS_THRESHOLD_KEY: i32 = 0x3ecc_cccd;

/// The key of 24, the least width and height of a face that is kept.
pub const LEAST_FACE_KEY: i32 = 0x41c0_0000;

/// How many places the detector marks at each point.
pub const ANCHOR_NUM: u32 = 2;

// ---------------------------------------------------------------------------
// Layout
// ---------------------------------------------------------------------------

/// The byte of a colour at a point of a square into whose corner a picture is laid; 0
/// beside the picture.
pub open spec fn plane_byte(pixels: Seq<u8>, width: int, height: int, colour: int, x: int, y: int) -> u8 {
    if x < width && y < height {
        pixels[(y * width + x) * 3 + colour]
    } else {
        0
    }
}

/// `planes` holds the red, the green and the blue bytes of a square of the given side,
/// each as its rows one after the other.
pub open spec fn are_planes(planes: Seq<u8>, side: int, pixels: Seq<u8>, width: int, height: int) -> bool {
    &&& planes.len() == 3 * side * side
    &&& forall|colour: int, y: int, x: int|
        0 <= colour < 3 && 0 <= y < side && 0 <= x < side ==> planes[#[trigger] plane_index(side, colour, y, x)]
            == plane_byte(pixels, width, height, colour, x, y)
}

/// Where the byte of a colour at a point stands.
pub open spec fn plane_index(side: int, colour: int, y: int, x: int) -> int {
    (colour * side + y) * side + x
}

/// Lays a picture into the corner of a square and its colours one after the other.
pub fn lay_out(image: &RgbPixels, side: u32) -> (planes: Vec<u8>)
    requires
        image.well_formed(),
        image.width <= side,
        image.height <= side,
    ensures
        are_planes(planes@, side as int, image.pixels@, image.width as int, image.height as int),
{
    let ghost pixels = image.pixels@;
    let width: usize = image.width as usize;
    let height: usize = image.height as usize;
    let edge: usize = side as usize;
    let count: usize = image.pixels.len();
    let mut planes: Vec<u8> = Vec::new();
    assert(0 * edge * edge == 0) by (nonlinear_arith);
    for colour in 0..3usize
        invariant
            pixels == image.pixels@,
            pixels.len() == pixel_bytes(width as int, height as int),
            count == pixels.len(),
            width <= edge,
            height <= edge,
            planes@.len() == colour * edge * edge,
            forall|c: int, y: int, x: int|
                0 <= c < colour && 0 <= y < edge && 0 <= x < edge ==> planes@[#[trigger] plane_index(
                    edge as int,
                    c,
                    y,
                    x,
                )] == plane_byte(pixels, width as int, height as int, c, x, y),
            forall|c: int, y: int, x: int|
                0 <= c < colour && 0 <= y < edge && 0 <= x < edge ==> 0 <= #[trigger] plane_index(
                    edge as int,
                    c,
                    y,
                    x,
                ) < planes@.len(),
    {
        for row in 0..edge
            invariant
                pixels == image.pixels@,
                pixels.len() == pixel_bytes(width as int, height as int),
                count == pixels.len(),
                width <= edge,
                height <= edge,
                colour < 3,
                planes@.len() == (colour * edge + row) * edge,
                forall|c: int, y: int, x: int|
                    0 <= c <= colour && 0 <= y < edge && 0 <= x < edge && (c < colour || y < row)
                        ==> planes@[#[trigger] plane_index(edge as int, c, y, x)] == plane_byte(
                        pixels,
                        width as int,
                        height as int,
                        c,
                        x,
                        y,
                    ),
                forall|c: int, y: int, x: int|
                    0 <= c <= colour && 0 <= y < edge && 0 <= x < edge && (c < colour || y < row) ==> 0
                        <= #[trigger] plane_index(edge as int, c, y, x) < planes@.len(),
        {
            for column in 0..edge
                invariant
                    pixels == image.pixels@,
                    pixels.len() == pixel_bytes(width as int, height as int),
                    count == pixels.len(),
                    width <= edge,
                    height <= edge,
                    colour < 3,
                    row < edge,
                    planes@.len() == plane_index(edge as int, colour as int, row as int, column as int),
                    forall|c: int, y: int, x: int|
                        0 <= c <= colour && 0 <= y < edge && 0 <= x < edge && (c < colour || y < row || (y == row
                            && x < column)) ==> planes@[#[trigger] plane_index(edge as int, c, y, x)]
                            == plane_byte(pixels, width as int, height as int, c, x, y),
                    forall|c: int, y: int, x: int|
                        0 <= c <= colour && 0 <= y < edge && 0 <= x < edge && (c < colour || y < row || (y == row
                            && x < column)) ==> 0 <= #[trigger] plane_index(edge as int, c, y, x) < planes@.len(),
            {
                if column < width && row < height {
                    proof {
                        lemma_pixel_in_bounds(width as int, height as int, column as int, row as int, colour as int);
                    }
                    planes.push(image.pixels[(row * width + column) * 3 + colour]);
                } else {
                    planes.push(0);
                }
                proof {
                    assert forall|c: int, y: int, x: int|
                        0 <= c <= colour && 0 <= y < edge && 0 <= x < edge && (c < colour || y < row || (y == row
                            && x < column + 1)) implies 0 <= #[trigger] plane_index(edge as int, c, y, x)
                        < planes@.len() && planes@[plane_index(edge as int, c, y, x)] == plane_byte(
                        pixels,
                        width as int,
                        height as int,
                        c,
                        x,
                        y,
                    ) by {
                        if c == colour && y == row && x == column {
                            assert(plane_index(edge as int, c, y, x) == planes@.len() - 1);
                            assert(0 <= (c * edge + y) * edge) by (nonlinear_arith)
                                requires
                                    0 <= c,
                                    0 <= y,
                                    0 <= edge,
                            ;
                        } else {
                            let at = plane_index(edge as int, c, y, x);
                            assert(0 <= at < planes@.len() - 1);
                        }
                    }
                }
            }
            assert(plane_index(edge as int, colour as int, row as int, edge as int) == (colour * edge + row + 1)
                * edge) by (nonlinear_arith)
                requires
                    plane_index(edge as int, colour as int, row as int, edge as int) == (colour * edge + row) * edge
                        + edge,
            ;
        }
        assert((colour * edge + edge) * edge == (colour + 1) * edge * edge) by (nonlinear_arith);
    }
    planes
}

/// A pixel of a picture is among its bytes.
proof fn lemma_pixel_in_bounds(width: int, height: int, x: int, y: int, colour: int)
    requires
        0 <= x < width,
        0 <= y < height,
        0 <= colour < 3,
    ensures
        0 <= (y * width + x) * 3 + colour < pixel_bytes(width, height),
        0 <= y * width,
{
    assert(0 <= y * width) by (nonlinear_arith)
        requires
            0 <= y,
            0 <= width,
    ;
    assert(y * width + x < width * height) by (nonlinear_arith)
        requires
            0 <= x < width,
            0 <= y < height,
    ;
}

/// The pixels of a picture brought to the given dimensions by a triangle filter.
pub uninterp spec fn scaled(pixels: Seq<u8>, width: u32, height: u32, new_width: u32, new_height: u32) -> Seq<u8>;

/// `image::imageops::resize` brings a picture to new dimensions. It computes in a buffer
/// of sixteen bytes for each pixel of the old width and the new height, and tells the places
/// of pixels apart by numbers that are exact only as far as the new dimensions are small.
#[verifier::external_body]
fn scale(image: &RgbPixels, new_width: u32, new_height: u32) -> (result: RgbPixels)
    requires
        image.well_formed(),
        new_width <= DETECTOR_SIZE,
        new_height <= DETECTOR_SIZE,
        image.width * new_height * 16 <= isize::MAX,
    ensures
        result.well_formed(),
        result.width == new_width,
        result.height == new_height,
        result.pixels@ == scaled(image.pixels@, image.width, image.height, new_width, new_height),
{
    let filter = image::imageops::FilterType::Triangle;
    let pixels = image::RgbImage::from_raw(image.width, image.height, image.pixels.clone())
        .map(|source| image::imageops::resize(&source, new_width, new_height, filter).into_raw())
        .unwrap_or_default();
    RgbPixels { width: new_width, height: new_height, pixels }
}

/// Lays a decoded picture out for the detector: its pixels turned into three bytes each, scaled
/// to the given dimensions, in the corner of its square, the colours one after the other.
pub fn detector_planes(image: &image::DynamicImage, width: u32, height: u32) -> (planes: Vec<u8>)
    requires
        width <= DETECTOR_SIZE,
        height <= DETECTOR_SIZE,
        picture_size(*image).0 * height * 16 <= isize::MAX,
    ensures
        are_planes(
            planes@,
            DETECTOR_SIZE as int,
            scaled(exact_pixels(*image), picture_size(*image).0, picture_size(*image).1, width, height),
            width as int,
            height as int,
        ),
{
    assert(pixel_bytes(width as int, height as int) <= 640 * 640 * 3) by (nonlinear_arith)
        requires
            width <= 640,
            height <= 640,
            pixel_bytes(width as int, height as int) == width * height * 3,
    ;
    let rgb: RgbPixels = rgb_of(image);
    lay_out(&scale(&rgb, width, height), DETECTOR_SIZE)
}

/// Lays an aligned face out for the recognizer, the colours one after the other.
pub fn recognizer_planes(image: &RgbPixels) -> (planes: Vec<u8>)
    requires
        image.well_formed(),
        image.width == RECOGNIZER_SIZE,
        image.height == RECOGNIZER_SIZE,
    ensures
        are_planes(
            planes@,
            RECOGNIZER_SIZE as int,
            image.pixels@,
            RECOGNIZER_SIZE as int,
            RECOGNIZER_SIZE as int,
        ),
{
    lay_out(image, RECOGNIZER_SIZE)
}

// ---------------------------------------------------------------------------
// Places that the detector marks
// ---------------------------------------------------------------------------

/// A place that the detector marks, by its number among the outputs of a level, and the
/// point of the grid that it belongs to.
#[derive(Debug, Clone, Copy, PartialEq, Eq, Structural)]
pub struct Anchor {
    pub index: usize,
    pub x: u32,
    pub y: u32,
}

/// How many places of a level are looked at: those of a grid of the given side of which
/// there are a score, the four numbers of a box and the ten numbers of five points.
pub open spec fn places(side: int, scores: int, boxes: int, landmarks: int) -> int {
    let grid = side * side * ANCHOR_NUM;
    let scored = if scores < grid { scores } else { grid };
    let boxed = if boxes / 4 < scored { boxes / 4 } else { scored };
    if landmarks / 10 < boxed {
        landmarks / 10
    } else {
        boxed
    }
}

/// The place with the given number.
pub open spec fn anchor_at(side: int, index: int) -> Anchor {
    Anchor {
        index: index as usize,
        x: (index / 2 % side) as u32,
        y: (index / 2 / side) as u32,
    }
}

/// The places among the first `count` whose score is that of a face.
pub open spec fn marked(side: int, scores: Seq<Score>, count: int) -> Seq<Anchor>
    decreases count,
{
    if count <= 0 {
        Seq::empty()
    } else {
        let before = marked(side, scores, count - 1);
        if scores[count - 1].above(Score { key: SCORE_THRESHOLD_KEY }) {
            before.push(anchor_at(side, count - 1))
        } else {
            before
        }
    }
}

/// Every place that is taken for a face is one of those looked at, its point lies on the
/// grid, and its score is that of a face.
pub proof fn law_marked_places_lie_on_the_grid(side: int, scores: Seq<Score>, count: int, k: int)
    requires
        0 < side <= u32::MAX,
        0 <= count <= side * side * ANCHOR_NUM,
        count <= scores.len() <= usize::MAX,
        0 <= k < marked(side, scores, count).len(),
    ensures
        ({
            let place = marked(side, scores, count)[k];
            &&& 0 <= place.index < count
            &&& scores[place.index as int].above(Score { key: SCORE_THRESHOLD_KEY })
            &&& place.x < side
            &&& place.y < side
            &&& (place.y * side + place.x) * 2 <= place.index < (place.y * side + place.x) * 2 + 2
        }),
    decreases count,
{
    if count > 0 {
        let before = marked(side, scores, count - 1);
        if k < before.len() {
            law_marked_places_lie_on_the_grid(side, scores, count - 1, k);
        } else {
            let point = (count - 1) / 2;
            assert(point < side * side) by (nonlinear_arith)
                requires
                    point == (count - 1) / 2,
                    0 < count <= side * side * 2,
            ;
            assert(0 <= point / side < side) by (nonlinear_arith)
                requires
                    0 <= point < side * side,
                    0 < side,
            ;
            assert(0 <= point % side < side) by (nonlinear_arith)
                requires
                    0 <= point,
                    0 < side,
            ;
            assert(point == point / side * side + point % side) by (nonlinear_arith)
                requires
                    0 < side,
            ;
        }
    }
}

/// The places of a level that are taken for faces: `stride` is the distance of the
/// points of its grid, and `boxes` and `landmarks` are how many numbers there are.
pub fn level_anchors(stride: u32, scores: &Vec<Score>, boxes: usize, landmarks: usize) -> (anchors: Vec<Anchor>)
    requires
        1 <= stride <= DETECTOR_SIZE,
    ensures
        anchors@ == marked(
            (DETECTOR_SIZE / stride) as int,
            scores@,
            places(
                (DETECTOR_SIZE / stride) as int,
                scores@.len() as int,
                boxes as int,
                landmarks as int,
            ),
        ),
{
    let side: usize = (DETECTOR_SIZE / stride) as usize;
    assert(1 <= 640u32 / stride <= 640) by (nonlinear_arith)
        requires
            1 <= stride <= 640,
    ;
    assert(1 <= side <= 640);
    assert(side * side <= 640 * 640) by (nonlinear_arith)
        requires
            1 <= side <= 640,
    ;
    let grid: usize = side * side * ANCHOR_NUM as usize;
    let scored: usize = if scores.len() < grid {
        scores.len()
    } else {
        grid
    };
    let boxed: usize = if boxes / 4 < scored {
        boxes / 4
    } else {
        scored
    };
    let count: usize = if landmarks / 10 < boxed {
        landmarks / 10
    } else {
        boxed
    };
    let mut anchors: Vec<Anchor> = Vec::new();
    for i in 0..count
        invariant
            1 <= side <= 640,
            count <= scores@.len(),
            count <= 640 * 640 * 2,
            anchors@ == marked(side as int, scores@, i as int),
    {
        if scores[i].is_above(Score { key: SCORE_THRESHOLD_KEY }) {
            let point: usize = i / 2;
            proof {
                assert(0 <= point / side <= point && 0 <= point % side <= point) by (nonlinear_arith)
                    requires
                        1 <= side,
                        0 <= point,
                ;
            }
            anchors.push(Anchor { index: i, x: (point % side) as u32, y: (point / side) as u32 });
        }
    }
    anchors
}

// ---------------------------------------------------------------------------
// Overlapping faces
// ---------------------------------------------------------------------------

/// A score, ranked with the highest first.
struct Descending {
    score: Score,
}

impl Ranked for Descending {
    closed spec fn at_most(self, other: Self) -> bool {
        self.score.key >= other.score.key
    }

    proof fn total(left: Self, right: Self) {
    }

    proof fn transitive(first: Self, second: Self, third: Self) {
    }

    fn ranks_at_most(&self, other: &Self) -> (result: bool) {
        self.score.key >= other.score.key
    }
}

/// `order` lists the scores from the highest down, and equal ones as they came.
pub open spec fn orders_scores(scores: Seq<Score>, order: Seq<usize>) -> bool {
    &&& is_order_of(order, scores.len())
    &&& forall|i: int, j: int|
        0 <= i < j < order.len() ==> ({
            let left = #[trigger] order[i] as int;
            let right = #[trigger] order[j] as int;
            scores[left].key > scores[right].key || scores[left].key == scores[right].key && left < right
        })
}

/// Lists the scores from the highest down, and equal ones as they came.
pub fn order_by_score(scores: &Vec<Score>) -> (order: Vec<usize>)
    ensures
        orders_scores(scores@, order@),
{
    let mut keys: Vec<Descending> = Vec::new();
    for i in 0..scores.len()
        invariant
            keys@.len() == i,
            forall|k: int| 0 <= k < i ==> (#[trigger] keys@[k]).score == scores@[k],
    {
        keys.push(Descending { score: scores[i] });
    }
    let order: Vec<usize> = rank(&keys);
    proof {
        law_ranking_repeats_nothing(keys@, order@);
        assert forall|i: int, j: int| 0 <= i < j < order@.len() implies ({
            let left = #[trigger] order@[i] as int;
            let right = #[trigger] order@[j] as int;
            scores@[left].key > scores@[right].key || scores@[left].key == scores@[right].key && left < right
        }) by {
            assert(listed_before(keys@, order@[i] as int, order@[j] as int));
            assert(keys@[order@[i] as int].score == scores@[order@[i] as int]);
            assert(keys@[order@[j] as int].score == scores@[order@[j] as int]);
        }
    }
    order
}

/// How much two detections overlap, by a table of rows.
pub open spec fn overlap(table: Seq<Vec<Score>>, kept: int, other: int) -> Score {
    table[kept]@[other]
}

/// A detection overlaps none of those kept by too much.
pub open spec fn stands_apart(table: Seq<Vec<Score>>, kept: Seq<usize>, other: usize) -> bool {
    forall|k: int|
        0 <= k < kept.len() ==> (Score { key: NMS_THRESHOLD_KEY }).at_least(
            overlap(table, #[trigger] kept[k] as int, other as int),
        )
}

/// The detections that are kept, taken in the given order: each one that stands apart
/// from those kept before it.
pub open spec fn kept_detections(table: Seq<Vec<Score>>, order: Seq<usize>) -> Seq<usize>
    decreases order.len(),
{
    if order.len() == 0 {
        Seq::empty()
    } else {
        let before = kept_detections(table, order.drop_last());
        if stands_apart(table, before, order.last()) {
            before.push(order.last())
        } else {
            before
        }
    }
}

/// The table has a row of the given length for each detection.
pub open spec fn is_table(table: Seq<Vec<Score>>, count: nat) -> bool {
    &&& table.len() == count
    &&& forall|k: int| 0 <= k < table.len() ==> (#[trigger] table[k])@.len() == count
}

fn is_apart(table: &Vec<Vec<Score>>, kept: &Vec<usize>, other: usize) -> (apart: bool)
    requires
        is_table(table@, table@.len()),
        forall|k: int| 0 <= k < kept@.len() ==> #[trigger] kept@[k] < table@.len(),
        other < table@.len(),
    ensures
        apart == stands_apart(table@, kept@, other),
{
    for i in 0..kept.len()
        invariant
            is_table(table@, table@.len()),
            forall|k: int| 0 <= k < kept@.len() ==> #[trigger] kept@[k] < table@.len(),
            other < table@.len(),
            forall|k: int|
                0 <= k < i ==> (Score { key: NMS_THRESHOLD_KEY }).at_least(
                    overlap(table@, #[trigger] kept@[k] as int, other as int),
                ),
    {
        let row: &Vec<Score> = &table[kept[i]];
        if !(Score { key: NMS_THRESHOLD_KEY }).is_at_least(row[other]) {
            assert(!(Score { key: NMS_THRESHOLD_KEY }).at_least(
                overlap(table@, kept@[i as int] as int, other as int),
            ));
            return false;
        }
    }
    true
}

/// Keeps of overlapping detections the one with the highest score: goes through them from
/// the highest score down and keeps those that stand apart from all kept before. `overlaps`
/// holds for each detection how much every other one overlaps it.
pub fn suppress_overlaps(scores: &Vec<Score>, overlaps: &Vec<Vec<Score>>) -> (kept: Vec<usize>)
    requires
        is_table(overlaps@, scores@.len()),
    ensures
        exists|order: Seq<usize>| #[trigger]
            orders_scores(scores@, order) && kept@ == kept_detections(overlaps@, order),
        forall|k: int| 0 <= k < kept@.len() ==> #[trigger] kept@[k] < scores@.len(),
{
    let order: Vec<usize> = order_by_score(scores);
    let mut kept: Vec<usize> = Vec::new();
    assert(kept@ =~= kept_detections(overlaps@, order@.take(0)));
    for i in 0..order.len()
        invariant
            is_table(overlaps@, scores@.len()),
            is_order_of(order@, scores@.len()),
            kept@ == kept_detections(overlaps@, order@.take(i as int)),
            forall|k: int| 0 <= k < kept@.len() ==> #[trigger] kept@[k] < scores@.len(),
    {
        assert(order@.take(i + 1).drop_last() =~= order@.take(i as int));
        assert(order@.take(i + 1).last() == order@[i as int]);
        if is_apart(overlaps, &kept, order[i]) {
            kept.push(order[i]);
        }
    }
    assert(order@.take(order@.len() as int) =~= order@);
    kept
}

/// Two detections overlap by more than is allowed.
pub open spec fn overlap_too_much(table: Seq<Vec<Score>>, kept: usize, other: usize) -> bool {
    !(Score { key: NMS_THRESHOLD_KEY }).at_least(overlap(table, kept as int, other as int))
}

/// Of the detections that are kept none overlaps one kept before it by too much. Each one that
/// is not kept overlaps by too much one that is, which was taken before it.
proof fn lemma_kept_detections(table: Seq<Vec<Score>>, order: Seq<usize>)
    ensures
        forall|i: int, j: int|
            0 <= i < j < kept_detections(table, order).len() ==> !overlap_too_much(
                table,
                #[trigger] kept_detections(table, order)[i],
                #[trigger] kept_detections(table, order)[j],
            ),
        forall|i: int|
            0 <= i < order.len() && !kept_detections(table, order).contains(#[trigger] order[i]) ==> exists|k: int|
                0 <= k < i && kept_detections(table, order).contains(#[trigger] order[k]) && overlap_too_much(
                    table,
                    order[k],
                    order[i],
                ),
        forall|i: int|
            0 <= i < kept_detections(table, order).len() ==> order.contains(
                #[trigger] kept_detections(table, order)[i],
            ),
    decreases order.len(),
{
    if order.len() > 0 {
        let shorter = order.drop_last();
        lemma_kept_detections(table, shorter);
        let before = kept_detections(table, shorter);
        let after = kept_detections(table, order);
        let last = order.last();
        assert(order[order.len() - 1] == last);
        assert forall|k: int| 0 <= k < before.len() implies #[trigger] after[k] == before[k] by {}
        assert forall|id: usize| before.contains(id) implies #[trigger] after.contains(id) by {
            let k = choose|k: int| 0 <= k < before.len() && before[k] == id;
            assert(after[k] == id);
        }
        assert forall|i: int| 0 <= i < after.len() implies order.contains(#[trigger] after[i]) by {
            if i < before.len() {
                assert(shorter.contains(before[i]));
                let k = choose|k: int| 0 <= k < shorter.len() && shorter[k] == before[i];
                assert(order[k] == after[i]);
            }
        }
        assert forall|i: int, j: int| 0 <= i < j < after.len() implies !overlap_too_much(
            table,
            #[trigger] after[i],
            #[trigger] after[j],
        ) by {
            assert(after[i] == before[i]);
            if j < before.len() {
                assert(after[j] == before[j]);
            } else {
                assert(stands_apart(table, before, last));
            }
        }
        assert forall|i: int| 0 <= i < order.len() && !after.contains(#[trigger] order[i]) implies exists|k: int|
            0 <= k < i && after.contains(#[trigger] order[k]) && overlap_too_much(table, order[k], order[i]) by {
            if i < shorter.len() {
                assert(shorter[i] == order[i]);
                let k = choose|k: int|
                    0 <= k < i && before.contains(#[trigger] shorter[k]) && overlap_too_much(table, shorter[k], shorter[i]);
                assert(order[k] == shorter[k]);
                assert(after.contains(order[k]));
            } else {
                if stands_apart(table, before, last) {
                    assert(after[before.len() as int] == last);
                }
                let n = choose|n: int|
                    0 <= n < before.len() && !(Score { key: NMS_THRESHOLD_KEY }).at_least(
                        overlap(table, #[trigger] before[n] as int, last as int),
                    );
                assert(shorter.contains(before[n]));
                let k = choose|k: int| 0 <= k < shorter.len() && shorter[k] == before[n];
                assert(order[k] == before[n]);
                assert(after[n] == before[n]);
                assert(after.contains(order[k]) && overlap_too_much(table, order[k], order[i]));
            }
        }
    }
}

/// Of the detections that are kept none overlaps one kept before it by too much. Each detection
/// that is not kept overlaps by too much one that is, of at least its score.
pub proof fn law_kept_faces_stand_apart(scores: Seq<Score>, table: Seq<Vec<Score>>, order: Seq<usize>)
    requires
        orders_scores(scores, order),
    ensures
        ({
            let kept = kept_detections(table, order);
            &&& forall|i: int, j: int|
                0 <= i < j < kept.len() ==> !overlap_too_much(table, #[trigger] kept[i], #[trigger] kept[j])
            &&& forall|other: usize|
                other < scores.len() && !#[trigger] kept.contains(other) ==> exists|n: int|
                    0 <= n < kept.len() && overlap_too_much(table, #[trigger] kept[n], other) && scores[kept[n] as int].key
                        >= scores[other as int].key
        }),
{
    let kept = kept_detections(table, order);
    lemma_kept_detections(table, order);
    assert forall|other: usize| other < scores.len() && !#[trigger] kept.contains(other) implies exists|n: int|
        0 <= n < kept.len() && overlap_too_much(table, #[trigger] kept[n], other) && scores[kept[n] as int].key
            >= scores[other as int].key by {
        lemma_order_is_complete(order, scores.len(), other);
        let i = choose|i: int| 0 <= i < order.len() && order[i] == other;
        assert(!kept.contains(order[i]));
        let k = choose|k: int| 0 <= k < i && kept.contains(#[trigger] order[k]) && overlap_too_much(table, order[k], order[i]);
        let n = choose|n: int| 0 <= n < kept.len() && kept[n] == order[k];
        assert(overlap_too_much(table, kept[n], other));
        assert(scores[order[k] as int].key >= scores[order[i] as int].key);
    }
}

// ---------------------------------------------------------------------------
// Checks
// ---------------------------------------------------------------------------

/// How many threads a model runs on, given how many there are: one is left to the
/// window, and there are no more than four; one where it is not known.
pub fn inference_threads(available: Option<usize>) -> (threads: usize)
    ensures
        threads == match available {
            Some(available) => if available <= 2 {
                1
            } else if available <= 5 {
                available - 1
            } else {
                4
            },
            None => 1,
        },
{
    match available {
        Some(available) => {
            if available <= 2 {
                1
            } else if available <= 5 {
                available - 1
            } else {
                4
            }
        },
        None => 1,
    }
}

/// Checks that the detector has the outputs of three levels: scores, boxes and points.
pub fn check_detector_outputs(count: usize) -> (result: Result<(), String>)
    ensures
        match result {
            Ok(()) => count >= 9,
            Err(message) => count < 9 && message@ == "人臉偵測模型輸出格式不相容。"@,
        },
{
    if count < 9 {
        Err("人臉偵測模型輸出格式不相容。".to_owned())
    } else {
        Ok(())
    }
}

/// Checks that the recognizer gave a vector of the right length.
pub fn check_face_vector(length: usize) -> (result: Result<(), String>)
    ensures
        match result {
            Ok(()) => length == VECTOR_DIMENSION,
            Err(message) => length != VECTOR_DIMENSION && message@ == "人臉辨識模型沒有回傳 512 維向量。"@,
        },
{
    if length != VECTOR_DIMENSION {
        Err("人臉辨識模型沒有回傳 512 維向量。".to_owned())
    } else {
        Ok(())
    }
}

/// Whether a face is large enough to be kept: neither its width nor its height is below 24.
pub fn is_large_enough(width: Score, height: Score) -> (large: bool)
    ensures
        large == !((Score { key: LEAST_FACE_KEY }).above(width) || (Score { key: LEAST_FACE_KEY }).above(height)),
{
    let least: Score = Score { key: LEAST_FACE_KEY };
    !(least.is_above(width) || least.is_above(height))
}

// ---------------------------------------------------------------------------
// What the models see, and what is kept of what they say
// ---------------------------------------------------------------------------

/// A picture that is laid out keeps each of its pixels, colour by colour, at its own place in the
/// corner of the square; beside it all is 0.
pub proof fn law_pixels_are_laid_out_in_place(image: &RgbPixels, side: u32, planes: Vec<u8>, colour: int, y: int, x: int)
    requires
        image.well_formed(),
        image.width <= side,
        image.height <= side,
        call_ensures(lay_out, (image, side), planes),
        0 <= colour < 3,
        0 <= y < side,
        0 <= x < side,
    ensures
        planes@.len() == 3 * side * side,
        x < image.width && y < image.height ==> planes@[(colour * side + y) * side + x] == image.pixels@[(y
            * image.width + x) * 3 + colour],
        x >= image.width || y >= image.height ==> planes@[(colour * side + y) * side + x] == 0,
{
    assert(plane_index(side as int, colour, y, x) == (colour * side + y) * side + x);
}

/// A place of a level is taken for a face exactly where its score lies above the threshold and the
/// detector gave its score, its box and its points, within the grid of the level; places keep
/// their order.
pub proof fn law_marked_places_are_taken_for_faces(
    stride: u32,
    scores: &Vec<Score>,
    boxes: usize,
    landmarks: usize,
    anchors: Vec<Anchor>,
    at: int,
)
    requires
        1 <= stride <= 640,
        call_ensures(level_anchors, (stride, scores, boxes, landmarks), anchors),
        0 <= at < scores@.len(),
    ensures
        ({
            let side = (640u32 / stride) as int;
            let is_whole = at < side * side * 2 && 4 * at + 4 <= boxes && 10 * at + 10 <= landmarks;
            let is_face = scores@[at].above(Score { key: 0x3f26_6666 });
            &&& is_whole && is_face ==> exists|k: int|
                0 <= k < anchors@.len() && (#[trigger] anchors@[k]).index == at
            &&& !is_whole || !is_face ==> forall|k: int|
                0 <= k < anchors@.len() ==> (#[trigger] anchors@[k]).index != at
        }),
        forall|i: int, j: int|
            0 <= i < j < anchors@.len() ==> (#[trigger] anchors@[i]).index < (#[trigger] anchors@[j]).index,
        forall|k: int|
            0 <= k < anchors@.len() ==> ({
                let anchor = #[trigger] anchors@[k];
                let side = (640u32 / stride) as int;
                &&& anchor.x < side
                &&& anchor.y < side
                &&& (anchor.y * side + anchor.x) * 2 <= anchor.index < (anchor.y * side + anchor.x) * 2 + 2
            }),
{
    let side = (640u32 / stride) as int;
    assert(1 <= 640u32 / stride <= 640) by (nonlinear_arith)
        requires
            1 <= stride <= 640,
    ;
    let count = places(side, scores@.len() as int, boxes as int, landmarks as int);
    assert(0 <= side * side * 2) by (nonlinear_arith)
        requires
            1 <= side,
    ;
    assert(0 <= count <= side * side * 2);
    assert(scores@.len() == scores.len());
    lemma_marked(side, scores@, count);
    let found = marked(side, scores@, count);
    assert(found == anchors@);
    assert forall|k: int| 0 <= k < anchors@.len() implies ({
        let anchor = #[trigger] anchors@[k];
        &&& anchor.x < side
        &&& anchor.y < side
        &&& (anchor.y * side + anchor.x) * 2 <= anchor.index < (anchor.y * side + anchor.x) * 2 + 2
    }) by {
        law_marked_places_lie_on_the_grid(side, scores@, count, k);
    }
    let is_whole = at < side * side * 2 && 4 * at + 4 <= boxes && 10 * at + 10 <= landmarks;
    assert(is_whole == (at < count));
    let is_face = scores@[at].above(Score { key: SCORE_THRESHOLD_KEY });
    if is_whole && is_face {
        let k = choose|k: int| 0 <= k < found.len() && (#[trigger] found[k]).index == at;
        assert(anchors@[k].index == at);
    }
}

proof fn lemma_marked(side: int, scores: Seq<Score>, count: int)
    requires
        count <= scores.len() <= usize::MAX,
    ensures
        forall|at: int|
            0 <= at < count && (#[trigger] scores[at]).above(Score { key: SCORE_THRESHOLD_KEY }) ==> exists|k: int|
                0 <= k < marked(side, scores, count).len() && (#[trigger] marked(side, scores, count)[k]).index == at,
        forall|k: int|
            0 <= k < marked(side, scores, count).len() ==> (#[trigger] marked(side, scores, count)[k]).index < count
                && scores[marked(side, scores, count)[k].index as int].above(Score { key: SCORE_THRESHOLD_KEY }),
        forall|i: int, j: int|
            0 <= i < j < marked(side, scores, count).len() ==> (#[trigger] marked(side, scores, count)[i]).index < (
            #[trigger] marked(side, scores, count)[j]).index,
    decreases count,
{
    if count > 0 {
        lemma_marked(side, scores, count - 1);
        let before = marked(side, scores, count - 1);
        let after = marked(side, scores, count);
        assert forall|k: int| 0 <= k < before.len() implies #[trigger] after[k] == before[k] by {}
        assert forall|at: int|
            0 <= at < count && (#[trigger] scores[at]).above(Score { key: SCORE_THRESHOLD_KEY }) implies exists|k: int|
            0 <= k < after.len() && (#[trigger] after[k]).index == at by {
            if at < count - 1 {
                let k = choose|k: int| 0 <= k < before.len() && (#[trigger] before[k]).index == at;
                assert(after[k].index == at);
            } else {
                assert(after[before.len() as int].index == at);
            }
        }
    }
}

/// Of two faces the first overlaps the second by at most two fifths.
pub open spec fn overlaps_little(overlaps: Seq<Vec<Score>>, first: usize, second: usize) -> bool {
    (Score { key: 0x3ecc_cccd }).at_least(overlaps[first as int]@[second as int])
}

/// Of overlapping detections the best one is kept: none that is kept overlaps by too much one that
/// was kept before it, and each one that is dropped overlaps by too much one that is kept and has
/// no lower score. The one with the highest score is always kept.
pub proof fn law_overlapping_faces_are_dropped(
    scores: &Vec<Score>,
    overlaps: &Vec<Vec<Score>>,
    kept: Vec<usize>,
    other: usize,
)
    requires
        is_table(overlaps@, scores@.len()),
        call_ensures(suppress_overlaps, (scores, overlaps), kept),
    ensures
        forall|i: int, j: int|
            0 <= i < j < kept@.len() ==> overlaps_little(overlaps@, #[trigger] kept@[i], #[trigger] kept@[j]),
        forall|i: int, j: int| 0 <= i < j < kept@.len() ==> #[trigger] kept@[i] != #[trigger] kept@[j],
        forall|i: int| 0 <= i < kept@.len() ==> #[trigger] kept@[i] < scores@.len(),
        forall|i: int, j: int|
            0 <= i < j < kept@.len() ==> scores@[#[trigger] kept@[i] as int].key >= scores@[#[trigger] kept@[j] as int].key,
        other < scores@.len() && !kept@.contains(other) ==> exists|n: int|
            0 <= n < kept@.len() && !overlaps_little(overlaps@, #[trigger] kept@[n], other) && scores@[kept@[n] as int].key
                >= scores@[other as int].key,
        other < scores@.len() && (forall|k: int|
            0 <= k < scores@.len() && k != other ==> (#[trigger] scores@[k]).key < scores@[other as int].key)
            ==> kept@.contains(other),
{
    let order = choose|order: Seq<usize>| #[trigger]
        orders_scores(scores@, order) && kept@ == kept_detections(overlaps@, order);
    law_kept_faces_stand_apart(scores@, overlaps@, order);
    let places = lemma_kept_in_order(overlaps@, order);
    assert forall|i: int, j: int| 0 <= i < j < kept@.len() implies scores@[#[trigger] kept@[i] as int].key
        >= scores@[#[trigger] kept@[j] as int].key by {
        assert(places[i] < places[j]);
        assert(order[places[i]] == kept@[i] && order[places[j]] == kept@[j]);
    }
    assert forall|i: int, j: int| 0 <= i < j < kept@.len() implies #[trigger] kept@[i] != #[trigger] kept@[j] by {
        assert(places[i] < places[j]);
        assert(order[places[i]] == kept@[i] && order[places[j]] == kept@[j]);
    }
    if other < scores@.len() && (forall|k: int|
        0 <= k < scores@.len() && k != other ==> (#[trigger] scores@[k]).key < scores@[other as int].key)
        && !kept@.contains(other) {
        let n = choose|n: int|
            0 <= n < kept@.len() && overlap_too_much(overlaps@, #[trigger] kept@[n], other) && scores@[kept@[n] as int].key
                >= scores@[other as int].key;
        assert(kept@.contains(kept@[n]));
        assert(kept@[n] < scores@.len());
        assert(scores@[kept@[n] as int].key < scores@[other as int].key);
    }
}

proof fn lemma_kept_in_order(table: Seq<Vec<Score>>, order: Seq<usize>) -> (places: Seq<int>)
    ensures
        places.len() == kept_detections(table, order).len(),
        forall|k: int|
            0 <= k < places.len() ==> 0 <= #[trigger] places[k] < order.len() && order[places[k]] == kept_detections(
                table,
                order,
            )[k],
        forall|i: int, j: int| 0 <= i < j < places.len() ==> #[trigger] places[i] < #[trigger] places[j],
    decreases order.len(),
{
    if order.len() == 0 {
        Seq::empty()
    } else {
        let shorter = order.drop_last();
        let before = lemma_kept_in_order(table, shorter);
        if stands_apart(table, kept_detections(table, shorter), order.last()) {
            before.push(order.len() - 1)
        } else {
            before
        }
    }
}

/// A face is kept exactly where neither its width nor its height is a number below 24.
pub proof fn law_small_faces_are_dropped(width: Score, height: Score, large: bool)
    requires
        call_ensures(is_large_enough, (width, height), large),
    ensures
        width.key >= 0x41c0_0000 && height.key >= 0x41c0_0000 ==> large,
        0 <= width.key < 0x41c0_0000 ==> !large,
        0 <= height.key < 0x41c0_0000 ==> !large,
        -0x7f80_0001 <= width.key < 0 || -0x7f80_0001 <= height.key < 0 ==> !large,
{
}

/// One thread is left to the window, and no model runs on more than four.
pub proof fn law_threads_are_left_to_the_window(available: Option<usize>, threads: usize)
    requires
        call_ensures(inference_threads, (available,), threads),
    ensures
        1 <= threads <= 4,
        available is Some && available->0 >= 2 ==> threads < available->0,
        available is Some && 2 <= available->0 <= 5 ==> threads == available->0 - 1,
        available is Some && available->0 > 5 ==> threads == 4,
        available is None ==> threads == 1,
        available is Some && available->0 <= 2 ==> threads == 1,
{
}

/// The outputs of the models are taken exactly where they have the right form.
pub proof fn law_outputs_of_models_are_checked(
    count: usize,
    outputs: Result<(), String>,
    length: usize,
    vector: Result<(), String>,
)
    requires
        call_ensures(check_detector_outputs, (count,), outputs),
        call_ensures(check_face_vector, (length,), vector),
    ensures
        outputs is Ok <==> count >= 9,
        vector is Ok <==> length == 512,
        outputs is Err ==> outputs->Err_0@ == "人臉偵測模型輸出格式不相容。"@,
        vector is Err ==> vector->Err_0@ == "人臉辨識模型沒有回傳 512 維向量。"@,
{
}

/// Faces are taken in from the most certain down, each once, and equally certain ones as they came.
pub proof fn law_certain_faces_come_first(scores: &Vec<Score>, order: Vec<usize>, first: int, second: int, face: usize)
    requires
        call_ensures(order_by_score, (scores,), order),
    ensures
        order@.len() == scores@.len(),
        face < scores@.len() ==> order@.contains(face),
        0 <= first < second < order@.len() ==> order@[first] != order@[second] && order@[first] < scores@.len()
            && order@[second] < scores@.len() && scores@[order@[first] as int].key
            >= scores@[order@[second] as int].key,
        0 <= first < second < order@.len() && scores@[order@[first] as int].key
            == scores@[order@[second] as int].key ==> order@[first] < order@[second],
{
    if face < scores@.len() {
        lemma_order_is_complete(order@, scores@.len(), face);
    }
}

/// The detector sees the whole picture, scaled to the given dimensions, in the corner of a square of
/// 640 pixels, and the recognizer a face of 112 pixels as it is: red, green and blue one after the other.
pub proof fn law_models_see_the_whole_picture(
    image: &image::DynamicImage,
    width: u32,
    height: u32,
    planes: Vec<u8>,
    face: &RgbPixels,
    face_planes: Vec<u8>,
    colour: int,
    y: int,
    x: int,
)
    requires
        width <= 640,
        height <= 640,
        picture_size(*image).0 * height * 16 <= isize::MAX,
        call_ensures(detector_planes, (image, width, height), planes),
        face.well_formed(),
        face.width == 112,
        face.height == 112,
        call_ensures(recognizer_planes, (face,), face_planes),
        0 <= colour < 3,
        0 <= y,
        0 <= x,
    ensures
        ({
            let size = picture_size(*image);
            let pixels = scaled(exact_pixels(*image), size.0, size.1, width, height);
            &&& planes@.len() == 3 * 640 * 640
            &&& x < width && y < height ==> planes@[(colour * 640 + y) * 640 + x] == pixels[(y * width + x) * 3 + colour]
            &&& x < 640 && y < 640 && (x >= width || y >= height) ==> planes@[(colour * 640 + y) * 640 + x] == 0
            &&& face_planes@.len() == 3 * 112 * 112
            &&& x < 112 && y < 112 ==> face_planes@[(colour * 112 + y) * 112 + x] == face.pixels@[(y * 112 + x) * 3
                + colour]
        }),
{
    assert(plane_index(640, colour, y, x) == (colour * 640 + y) * 640 + x);
    assert(plane_index(112, colour, y, x) == (colour * 112 + y) * 112 + x);
}

} // verus!
