use std::hash::{Hash, Hasher};

use local_lens::media::{
    counted_characters, extract_exif_capture_time, extract_ocr_text, format_modified, make_ocr_image,
    normalize_exif_datetime, ocr_candidate, ocr_image_name, ocr_target_side, read_table, read_words, readings,
    reads_again_in_english, scale_for_reading, tesseract_arguments, tesseract_opencl_available, OcrCandidate,
    ProgramOutput, Reading,
};
use local_lens::score::Score;

fn score(value: f32) -> Score {
    Score::from_bits(value.to_bits())
}

#[test]
fn exif_datetime_is_normalized_for_date_queries() {
    assert_eq!(
        normalize_exif_datetime("2025:07:01 12:34:56"),
        Some("2025-07-01 12:34:56".to_owned())
    );
    assert_eq!(normalize_exif_datetime("not-a-date"), None);
    assert_eq!(normalize_exif_datetime("2025:13:01 12:34:56"), None);
}

#[test]
fn exif_dates_are_cleaned_and_checked() {
    assert_eq!(
        normalize_exif_datetime(" \"2025-7-1T2:3:4\" "),
        Some("2025-07-01 02:03:04".to_owned())
    );
    assert_eq!(
        normalize_exif_datetime("2025:07:01 12:34:56\0\0"),
        Some("2025-07-01 12:34:56".to_owned())
    );
    assert_eq!(
        normalize_exif_datetime("2025:07:01 12:34:60 +08:00"),
        Some("2025-07-01 12:34:60".to_owned())
    );
    assert_eq!(normalize_exif_datetime("2025:07:01 12:34"), None);
    assert_eq!(normalize_exif_datetime("1899:07:01 12:34:56"), None);
    assert_eq!(normalize_exif_datetime("2201:07:01 12:34:56"), None);
    assert_eq!(normalize_exif_datetime("2025:07:32 12:34:56"), None);
    assert_eq!(normalize_exif_datetime("2025:07:00 12:34:56"), None);
    assert_eq!(normalize_exif_datetime("2025:07:01 24:34:56"), None);
    assert_eq!(normalize_exif_datetime("2025:07:01 12:60:56"), None);
    assert_eq!(normalize_exif_datetime("2025:07:01 12:34:61"), None);
    assert_eq!(normalize_exif_datetime(""), None);
}

#[test]
fn times_of_change_are_written_in_seconds() {
    assert_eq!(format_modified(Some(0)), "0");
    assert_eq!(format_modified(Some(1_755_561_600)), "1755561600");
    assert_eq!(format_modified(None), "");
}

/// A TIFF file with one directory that holds nothing but the time of change.
fn tiff_changed_at(date: &[u8; 20]) -> Vec<u8> {
    let mut file = Vec::new();
    file.extend_from_slice(b"MM\0\x2a\0\0\0\x08");
    file.extend_from_slice(&[0, 1]);
    file.extend_from_slice(&[0x01, 0x32, 0, 2, 0, 0, 0, 20, 0, 0, 0, 26]);
    file.extend_from_slice(&[0, 0, 0, 0]);
    file.extend_from_slice(date);
    file
}

#[test]
fn capture_time_is_read_from_a_file() {
    let file = tiff_changed_at(b"2024:05:06 07:08:09\0");
    assert_eq!(extract_exif_capture_time(&file), Some("2024-05-06 07:08:09".to_owned()));
    let wrong = tiff_changed_at(b"2024:15:06 07:08:09\0");
    assert_eq!(extract_exif_capture_time(&wrong), None);
    assert_eq!(extract_exif_capture_time(&vec![1, 2, 3]), None);
    assert_eq!(extract_exif_capture_time(&vec![]), None);
}

/// A TIFF file whose Exif directory holds when the picture was taken, beside the time of
/// change in the main one.
fn tiff_taken_at(taken: &[u8; 20], changed: &[u8; 20]) -> Vec<u8> {
    let mut file = Vec::new();
    file.extend_from_slice(b"MM\0\x2a\0\0\0\x08");
    file.extend_from_slice(&[0, 2]);
    file.extend_from_slice(&[0x01, 0x32, 0, 2, 0, 0, 0, 20, 0, 0, 0, 56]);
    file.extend_from_slice(&[0x87, 0x69, 0, 4, 0, 0, 0, 1, 0, 0, 0, 38]);
    file.extend_from_slice(&[0, 0, 0, 0]);
    file.extend_from_slice(&[0, 1]);
    file.extend_from_slice(&[0x90, 0x03, 0, 2, 0, 0, 0, 20, 0, 0, 0, 76]);
    file.extend_from_slice(&[0, 0, 0, 0]);
    file.extend_from_slice(changed);
    file.extend_from_slice(taken);
    file
}

#[test]
fn the_time_of_taking_counts_before_that_of_change() {
    let file = tiff_taken_at(b"2020:01:02 03:04:05\0", b"2024:05:06 07:08:09\0");
    assert_eq!(extract_exif_capture_time(&file), Some("2020-01-02 03:04:05".to_owned()));
    let broken = tiff_taken_at(b"2020:99:02 03:04:05\0", b"2024:05:06 07:08:09\0");
    assert_eq!(extract_exif_capture_time(&broken), Some("2024-05-06 07:08:09".to_owned()));
}

fn output(success: bool, stdout: &str, stderr: &str) -> Option<ProgramOutput> {
    Some(ProgramOutput { success, stdout: stdout.as_bytes().to_vec(), stderr: stderr.as_bytes().to_vec() })
}

#[test]
fn opencl_is_looked_for_in_either_output() {
    assert!(tesseract_opencl_available(&output(true, "tesseract 5\n OpenCL info", "")));
    assert!(tesseract_opencl_available(&output(true, "", "OPENCL")));
    assert!(tesseract_opencl_available(&output(true, "open", "cl")));
    assert!(!tesseract_opencl_available(&output(true, "tesseract 5", "")));
    assert!(!tesseract_opencl_available(&output(false, "OpenCL", "")));
    assert!(!tesseract_opencl_available(&None));
}

fn line(confidence: &str, word: &str) -> String {
    format!("5\t1\t1\t1\t1\t1\t0\t0\t10\t10\t{confidence}\t{word}")
}

#[test]
fn words_are_read_from_a_table() {
    let table = format!(
        "head\n{}\r\n{}\n{}\nshort\tline\n{}",
        line("96.5", "Hello"),
        line("-1", "  "),
        line("80", " a\tb "),
        line("12", "end\r")
    );
    let words = read_words(&table.as_bytes().to_vec());
    let read: Vec<(&str, &str)> =
        words.iter().map(|word| (word.word.as_str(), word.confidence.as_str())).collect();
    assert_eq!(read, vec![("Hello", "96.5"), ("a\tb", "80"), ("end", "12")]);
    assert!(read_words(&vec![]).is_empty());
    assert!(read_table(&line("1", "head only").chars().collect()).is_empty());
}

#[test]
fn bytes_that_are_no_text_are_replaced() {
    let mut bytes = b"head\n5\t1\t1\t1\t1\t1\t0\t0\t10\t10\t50\tw".to_vec();
    bytes.push(0xff);
    let words = read_words(&bytes);
    assert_eq!(words[0].word, "w\u{fffd}");
}

#[test]
fn texts_of_low_confidence_are_dropped() {
    let words = read_words(&format!("head\n{}\n{}", line("90", "two"), line("70", "words")).into_bytes());
    let kept = ocr_candidate(&words, Some(score(80.0))).unwrap();
    assert_eq!(kept.text, "two words");
    assert_eq!(kept.confidence, score(80.0));
    assert!(ocr_candidate(&words, Some(score(19.99))).is_none());
    assert!(ocr_candidate(&words, Some(score(20.0))).is_some());
    assert_eq!(ocr_candidate(&words, None).unwrap().confidence, score(0.0));
    assert!(ocr_candidate(&vec![], None).is_none());
}

#[test]
fn the_best_text_is_taken() {
    let candidate = |text: &str| OcrCandidate { text: text.to_owned(), confidence: score(50.0) };
    let candidates = vec![candidate("first"), candidate("second"), candidate("third")];
    assert_eq!(extract_ocr_text(&candidates, &vec![score(3.0), score(9.0), score(-1.0)]), "second");
    assert_eq!(extract_ocr_text(&candidates, &vec![score(9.0), score(9.0), score(1.0)]), "second");
    assert_eq!(extract_ocr_text(&vec![], &vec![]), "");
    assert_eq!(counted_characters("海邊"), 2);
    assert_eq!(counted_characters(&"x".repeat(300)), 200);
    assert!(reads_again_in_english(&None, false));
    assert!(!reads_again_in_english(&None, true));
    assert!(!reads_again_in_english(&Some(candidate("x")), false));
}

#[test]
fn pictures_are_scaled_for_reading() {
    assert_eq!(ocr_target_side(1000), 2000);
    assert_eq!(ocr_target_side(1300), 2600);
    assert_eq!(ocr_target_side(1799), 2600);
    assert_eq!(ocr_target_side(1800), 1800);
    assert_eq!(ocr_target_side(3200), 3200);
    assert_eq!(ocr_target_side(9000), 3200);
    assert_eq!(ocr_target_side(0), 0);
}

#[test]
fn a_small_picture_is_enlarged_for_reading() {
    let picture = image::DynamicImage::ImageLuma8(image::GrayImage::new(100, 40));
    let scaled = scale_for_reading(picture).unwrap();
    assert_eq!((scaled.width(), scaled.height()), (200, 80));
    let wide = image::DynamicImage::ImageLuma8(image::GrayImage::new(2000, 3));
    let kept = scale_for_reading(wide.clone()).unwrap();
    assert_eq!(kept, wide);
    let long = image::DynamicImage::ImageLuma8(image::GrayImage::new(3, 6400));
    let shrunk = scale_for_reading(long).unwrap();
    assert_eq!((shrunk.width(), shrunk.height()), (2, 3200));
}

#[test]
fn the_name_of_a_reading_copy_follows_the_path() {
    let path = "C:\\Photos\\海.jpg";
    let mut hasher = std::collections::hash_map::DefaultHasher::new();
    path.hash(&mut hasher);
    let expected = format!("local-lens-ocr-{}-{:x}.png", 4242, hasher.finish());
    assert_eq!(ocr_image_name(4242, path), expected);
}

#[test]
fn the_reader_is_asked_for_a_table() {
    let arguments = tesseract_arguments(11);
    assert_eq!(arguments.before_language, vec!["stdout", "--oem", "1", "--psm", "11", "-l"]);
    assert_eq!(
        arguments.after_language,
        vec!["-c", "user_defined_dpi=300", "-c", "preserve_interword_spaces=1", "tsv"]
    );
}

#[test]
fn a_copy_for_reading_is_grey() {
    let colours = image::RgbImage::from_raw(2000, 1, [200u8, 10, 30].repeat(2000)).unwrap();
    let picture = image::DynamicImage::ImageRgb8(colours);
    let copy = make_ocr_image(picture.clone()).unwrap();
    assert_eq!(copy.color(), image::ColorType::L8);
    assert_eq!(copy, picture.grayscale());
    let small = image::DynamicImage::ImageRgb8(image::RgbImage::new(100, 40));
    let enlarged = make_ocr_image(small).unwrap();
    assert_eq!((enlarged.width(), enlarged.height()), (200, 80));
    assert_eq!(enlarged.color(), image::ColorType::L8);
    let nothing = make_ocr_image(image::DynamicImage::ImageRgb8(image::RgbImage::new(0, 0))).unwrap();
    assert_eq!((nothing.width(), nothing.height()), (0, 0));
}

#[test]
fn a_picture_is_read_in_two_ways() {
    assert_eq!(
        readings(true),
        vec![Reading { from_copy: true, mode: 6 }, Reading { from_copy: false, mode: 11 }]
    );
    assert_eq!(
        readings(false),
        vec![Reading { from_copy: false, mode: 6 }, Reading { from_copy: false, mode: 11 }]
    );
}

#[test]
fn a_normalized_date_is_its_own_normal_form() {
    let raw = ["2025:07:01 12:34:56", "1900-1-1T0:0:0", "\"2200:12:31 23:59:60\"", "2024:02:29 1:2:3 +08:00"];
    let mut dates: Vec<String> = raw.iter().map(|value| normalize_exif_datetime(value).unwrap()).collect();
    for date in &dates {
        assert_eq!(normalize_exif_datetime(date).as_ref(), Some(date));
        assert_eq!(date.len(), 19);
        assert_eq!((&date[4..5], &date[10..11], &date[13..14]), ("-", " ", ":"));
    }
    dates.sort();
    assert_eq!(
        dates,
        vec!["1900-01-01 00:00:00", "2024-02-29 01:02:03", "2025-07-01 12:34:56", "2200-12-31 23:59:60"]
    );
}
