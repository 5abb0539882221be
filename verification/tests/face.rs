use local_lens::face::{
    check_detector_outputs, check_face_vector, detector_planes, inference_threads, is_large_enough, lay_out,
    level_anchors, order_by_score, recognizer_planes, suppress_overlaps, Anchor, DETECTOR_SIZE, LEAST_FACE_KEY,
    NMS_THRESHOLD_KEY, RECOGNIZER_SIZE, SCORE_THRESHOLD_KEY,
};
use local_lens::score::Score;
use local_lens::thumbnail::RgbPixels;

fn score(value: f32) -> Score {
    Score::from_bits(value.to_bits())
}

#[test]
fn keys_are_those_of_the_documented_numbers() {
    assert_eq!(SCORE_THRESHOLD_KEY, score(0.65).key);
    assert_eq!(NMS_THRESHOLD_KEY, score(0.4).key);
    assert_eq!(LEAST_FACE_KEY, score(24.0).key);
}

#[test]
fn colours_are_laid_out_one_after_the_other() {
    let image = RgbPixels { width: 2, height: 1, pixels: vec![1, 2, 3, 4, 5, 6] };
    assert_eq!(lay_out(&image, 2), vec![1, 4, 0, 0, 2, 5, 0, 0, 3, 6, 0, 0]);
    let empty = RgbPixels { width: 0, height: 0, pixels: vec![] };
    assert_eq!(lay_out(&empty, 1), vec![0, 0, 0]);
}

#[test]
fn a_picture_is_scaled_into_the_corner_of_the_detector() {
    let side = DETECTOR_SIZE as usize;
    let rgb = image::RgbImage::from_raw(2, 2, [10u8, 20, 30].repeat(4)).unwrap();
    let planes = detector_planes(&image::DynamicImage::ImageRgb8(rgb), 640, 320);
    assert_eq!(planes.len(), 3 * side * side);
    assert_eq!(planes[0], 10);
    assert_eq!(planes[side * side + 319 * side + 639], 20);
    assert_eq!(planes[2 * side * side + 320 * side], 0);
}

#[test]
fn a_grey_picture_is_laid_out_in_three_colours() {
    let side = DETECTOR_SIZE as usize;
    let grey = image::GrayImage::from_raw(1, 1, vec![77]).unwrap();
    let planes = detector_planes(&image::DynamicImage::ImageLuma8(grey), 1, 1);
    assert_eq!((planes[0], planes[side * side], planes[2 * side * side]), (77, 77, 77));
    assert_eq!(planes[1], 0);
}

#[test]
fn an_aligned_face_fills_the_recognizer() {
    let side = RECOGNIZER_SIZE as usize;
    let image = RgbPixels {
        width: RECOGNIZER_SIZE,
        height: RECOGNIZER_SIZE,
        pixels: [7u8, 8, 9].repeat(side * side),
    };
    let planes = recognizer_planes(&image);
    assert!(planes[..side * side].iter().all(|value| *value == 7));
    assert!(planes[side * side..2 * side * side].iter().all(|value| *value == 8));
    assert!(planes[2 * side * side..].iter().all(|value| *value == 9));
}

#[test]
fn places_are_marked_above_the_threshold() {
    let mut scores = vec![score(0.1); 800];
    scores[0] = score(0.9);
    scores[41] = score(0.66);
    scores[42] = score(0.65);
    scores[799] = score(1.0);
    let marked = level_anchors(32, &scores, 3200, 8000);
    assert_eq!(
        marked,
        vec![
            Anchor { index: 0, x: 0, y: 0 },
            Anchor { index: 41, x: 0, y: 1 },
            Anchor { index: 799, x: 19, y: 19 },
        ]
    );
    assert_eq!(level_anchors(32, &scores, 3199, 8000).len(), 2);
    assert_eq!(level_anchors(32, &scores, 3200, 410).len(), 1);
    assert_eq!(level_anchors(8, &vec![score(0.9); 3], 100, 100).len(), 3);
    assert!(level_anchors(8, &vec![], 100, 100).is_empty());
}

#[test]
fn detections_are_taken_from_the_highest_score_down() {
    assert_eq!(order_by_score(&vec![score(0.7), score(0.9), score(0.7)]), vec![1, 0, 2]);
}

#[test]
fn overlapping_detections_leave_the_best_one() {
    let scores = vec![score(0.7), score(0.9), score(0.8)];
    let table = |pairs: &[(usize, usize, f32)]| -> Vec<Vec<Score>> {
        let mut rows = vec![vec![score(0.0); 3]; 3];
        for (left, right, value) in pairs {
            rows[*left][*right] = score(*value);
            rows[*right][*left] = score(*value);
        }
        rows
    };
    assert_eq!(suppress_overlaps(&scores, &table(&[(1, 2, 0.5)])), vec![1, 0]);
    assert_eq!(suppress_overlaps(&scores, &table(&[(1, 2, 0.4)])), vec![1, 2, 0]);
    assert_eq!(suppress_overlaps(&scores, &table(&[(1, 2, 0.5), (2, 0, 0.9)])), vec![1, 0]);
    assert_eq!(suppress_overlaps(&scores, &table(&[(1, 0, f32::NAN)])), vec![1, 2]);
    assert!(suppress_overlaps(&vec![], &vec![]).is_empty());
    let all = table(&[(1, 2, 0.5), (1, 0, 0.2), (2, 0, 0.9)]);
    let kept = suppress_overlaps(&scores, &all);
    for other in (0..scores.len()).filter(|other| !kept.contains(other)) {
        assert!(kept
            .iter()
            .any(|&one| all[one][other].key > NMS_THRESHOLD_KEY && scores[one].key >= scores[other].key));
    }
}

#[test]
fn one_thread_is_left_to_the_window() {
    assert_eq!(inference_threads(None), 1);
    for count in 1..10usize {
        assert_eq!(inference_threads(Some(count)), count.saturating_sub(1).clamp(1, 4));
    }
}

#[test]
fn model_outputs_are_checked() {
    assert!(check_detector_outputs(9).is_ok());
    assert_eq!(check_detector_outputs(8), Err("人臉偵測模型輸出格式不相容。".to_owned()));
    assert!(check_face_vector(512).is_ok());
    assert_eq!(check_face_vector(128), Err("人臉辨識模型沒有回傳 512 維向量。".to_owned()));
    assert!(is_large_enough(score(24.0), score(30.0)));
    assert!(!is_large_enough(score(23.9), score(30.0)));
    assert!(!is_large_enough(score(30.0), score(-1.0)));
}
