use local_lens::record::ImageRecord;
use local_lens::score::Score;
use local_lens::thumbnail::{
    decode_thumbnail_data_url, encode_face, encode_thumbnail, hydrate_thumbnails, is_encodable, make_face_thumbnail,
    make_thumbnail, misses_thumbnails, rgb_of, thumbnail_data_url, thumbnail_dimensions, FaceArea, RgbPixels,
};

#[test]
fn thumbnail_dimensions_fit_the_longest_edge() {
    assert_eq!(thumbnail_dimensions(4_000, 3_000), (480, 360));
    assert_eq!(thumbnail_dimensions(3_000, 4_000), (360, 480));
    assert_eq!(thumbnail_dimensions(1, 1), (480, 480));
}

#[test]
fn thumbnail_edges_are_rounded_and_do_not_vanish() {
    assert_eq!(thumbnail_dimensions(1000, 667), (480, 320));
    for times in 1..50 {
        assert_eq!(thumbnail_dimensions(1000 * times, 667 * times), (480, 320));
        assert_eq!(thumbnail_dimensions(2 * times, 320 * times), thumbnail_dimensions(2, 320));
        assert_eq!(thumbnail_dimensions(77 * times, 13 * times), thumbnail_dimensions(77, 13));
    }
    assert_eq!(thumbnail_dimensions(100_000, 1), (480, 1));
    assert_eq!(thumbnail_dimensions(1, 100_000), (1, 480));
    assert_eq!(thumbnail_dimensions(5, 0), (480, 1));
    assert_eq!(thumbnail_dimensions(u32::MAX, u32::MAX), (480, 480));
}

#[test]
fn data_urls_give_their_bytes_back() {
    for bytes in [vec![], vec![0u8], vec![255, 254], vec![1, 2, 3], b"any longer text?>".to_vec()] {
        let url = thumbnail_data_url(&bytes);
        assert!(url.starts_with("data:image/jpeg;base64,"));
        assert_eq!(decode_thumbnail_data_url(&url), Some(bytes));
    }
    assert_eq!(thumbnail_data_url(&vec![0]), "data:image/jpeg;base64,AA==");
    assert_eq!(thumbnail_data_url(&b"Man".to_vec()), "data:image/jpeg;base64,TWFu");
    assert_eq!(thumbnail_data_url(&vec![0xfb, 0xff]), "data:image/jpeg;base64,+/8=");
}

#[test]
fn texts_that_are_no_data_urls_hold_nothing() {
    assert_eq!(decode_thumbnail_data_url(""), None);
    assert_eq!(decode_thumbnail_data_url("data:image/png;base64,AA=="), None);
    assert_eq!(decode_thumbnail_data_url("data:image/jpeg;base64,AA"), None);
    assert_eq!(decode_thumbnail_data_url("data:image/jpeg;base64,AB=="), None);
    assert_eq!(decode_thumbnail_data_url("data:image/jpeg;base64,A A="), None);
    assert_eq!(decode_thumbnail_data_url("data:image/jpeg;base64,"), Some(vec![]));
    assert!(is_encodable(1 << 20));
    assert!(!is_encodable(usize::MAX));
}

fn stripes(width: u32, height: u32) -> Vec<u8> {
    let mut pixels = Vec::new();
    for _ in 0..height {
        for x in 0..width {
            let value = if x < width / 2 { 250 } else { 5 };
            pixels.extend_from_slice(&[value, value, value]);
        }
    }
    pixels
}

fn striped(width: u32, height: u32) -> image::DynamicImage {
    let rgb = image::RgbImage::from_raw(width, height, stripes(width, height)).unwrap();
    image::DynamicImage::ImageRgb8(rgb)
}

#[test]
fn bytes_behind_the_last_pixel_are_cut_off() {
    let longer = image::RgbImage::from_raw(1, 1, vec![7, 8, 9, 200]).unwrap();
    let rgb = rgb_of(&image::DynamicImage::ImageRgb8(longer));
    assert_eq!((rgb.width, rgb.height), (1, 1));
    assert_eq!(rgb.pixels, vec![7, 8, 9]);
}

#[test]
fn grey_pixels_are_turned_into_three_bytes() {
    let grey = image::GrayImage::from_raw(2, 1, vec![3, 250]).unwrap();
    let rgb = rgb_of(&image::DynamicImage::ImageLuma8(grey));
    assert_eq!((rgb.width, rgb.height), (2, 1));
    assert_eq!(rgb.pixels, vec![3, 3, 3, 250, 250, 250]);
}

#[test]
fn a_grey_picture_has_a_thumbnail_in_colours() {
    let grey = image::GrayImage::from_raw(10, 10, vec![90; 100]).unwrap();
    let url = make_thumbnail(&image::DynamicImage::ImageLuma8(grey)).unwrap().unwrap();
    let bytes = decode_thumbnail_data_url(&url).unwrap();
    let picture = image::load_from_memory_with_format(&bytes, image::ImageFormat::Jpeg).unwrap();
    assert_eq!((picture.width(), picture.height()), (480, 480));
    assert_eq!(picture.color(), image::ColorType::Rgb8);
}

#[test]
fn a_thumbnail_is_a_small_jpeg() {
    let url = make_thumbnail(&striped(960, 480)).unwrap().unwrap();
    let bytes = decode_thumbnail_data_url(&url).unwrap();
    let picture = image::load_from_memory_with_format(&bytes, image::ImageFormat::Jpeg).unwrap().to_rgb8();
    assert_eq!((picture.width(), picture.height()), (480, 240));
    assert!(picture.get_pixel(20, 100)[0] > 200);
    assert!(picture.get_pixel(460, 100)[0] < 50);
    assert_eq!(encode_thumbnail(stripes(960, 480), 960, 480).unwrap(), bytes);
}

#[test]
fn too_few_pixels_are_an_error() {
    assert_eq!(
        encode_thumbnail(vec![0; 5], 2, 1),
        Err("無法準備縮圖像素：Size of buffer is smaller than required".to_owned())
    );
}

#[test]
fn a_face_is_cut_out_and_scaled() {
    let rgb = image::RgbImage::from_raw(200, 100, stripes(200, 100)).unwrap();
    let picture = image::DynamicImage::ImageRgb8(rgb);
    let url = make_face_thumbnail(&picture, FaceArea { x1: 100, y1: 0, x2: 200, y2: 50 }).unwrap();
    let bytes = decode_thumbnail_data_url(&url).unwrap();
    let face = image::load_from_memory_with_format(&bytes, image::ImageFormat::Jpeg).unwrap().to_rgb8();
    assert_eq!((face.width(), face.height()), (180, 90));
    assert!(face.get_pixel(90, 45)[0] < 30);
}

#[test]
fn a_face_at_the_edge_is_cut_off() {
    let rgb = image::RgbImage::from_raw(200, 100, stripes(200, 100)).unwrap();
    let picture = image::DynamicImage::ImageRgb8(rgb);
    let url = make_face_thumbnail(&picture, FaceArea { x1: 190, y1: 80, x2: 999, y2: 999 }).unwrap();
    let bytes = decode_thumbnail_data_url(&url).unwrap();
    let face = image::load_from_memory_with_format(&bytes, image::ImageFormat::Jpeg).unwrap();
    assert_eq!((face.width(), face.height()), (90, 180));
}

#[test]
fn a_grey_face_has_a_thumbnail_in_colours() {
    let mut grey = image::GrayImage::new(40, 40);
    for pixel in grey.pixels_mut() {
        pixel.0 = [200];
    }
    let picture = image::DynamicImage::ImageLuma8(grey);
    let url = make_face_thumbnail(&picture, FaceArea { x1: 0, y1: 0, x2: 20, y2: 20 }).unwrap();
    let bytes = decode_thumbnail_data_url(&url).unwrap();
    let face = image::load_from_memory_with_format(&bytes, image::ImageFormat::Jpeg).unwrap();
    assert_eq!((face.width(), face.height()), (180, 180));
    assert_eq!(face.color(), image::ColorType::Rgb8);
    let pixel = face.to_rgb8().get_pixel(90, 90).0;
    assert!(pixel.iter().all(|value| (190..=210).contains(value)));
}

#[test]
fn a_face_without_pixels_has_no_thumbnail() {
    assert_eq!(encode_face(&RgbPixels { width: 0, height: 0, pixels: vec![] }), None);
    assert!(encode_face(&RgbPixels { width: 1, height: 1, pixels: vec![9, 9, 9] }).is_some());
}

fn record(path: &str, thumbnail: &str) -> ImageRecord {
    ImageRecord {
        id: path.to_owned(),
        path: path.to_owned(),
        filename: path.to_owned(),
        modified_at: String::new(),
        captured_at: None,
        width: None,
        height: None,
        thumbnail: thumbnail.to_owned(),
        ocr_text: String::new(),
        people: vec![],
        score: Score::from_bits(1.0f32.to_bits()),
        face_group_ids: vec![],
    }
}

#[test]
fn missing_thumbnails_are_put_on_records() {
    let mut records = vec![record("a", ""), record("b", "there"), record("c", "")];
    assert!(misses_thumbnails(&records));
    hydrate_thumbnails(&mut records, &vec![Some(vec![0]), Some(vec![1]), None]);
    assert_eq!(records[0].thumbnail, "data:image/jpeg;base64,AA==");
    assert_eq!(records[1].thumbnail, "there");
    assert_eq!(records[2].thumbnail, "");
    assert!(!misses_thumbnails(&vec![record("a", "x")]));
    assert!(!misses_thumbnails(&vec![]));
}
