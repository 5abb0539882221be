use local_lens::names::{sort_names, Name};
use local_lens::number::{
    decimal_string, push_hexadecimal, push_hexadecimal_digits, push_padded, read_i64, read_unsigned,
};
use local_lens::ranking::rank;
use local_lens::score::{last_greatest, Score};
use local_lens::text::{
    ascii_lower, chars_of, comes_before, compact, contains, find, join, replace, string_of, trim, trim_char,
};

fn score(value: f32) -> Score {
    Score::from_bits(value.to_bits())
}

fn name(text: &str) -> Name {
    Name { chars: text.chars().collect() }
}

#[test]
fn ranking_is_stable() {
    let names = vec![name("b"), name("a"), name("b"), name("a"), name("")];
    assert_eq!(rank(&names), vec![4, 1, 3, 0, 2]);
    assert_eq!(rank(&Vec::<Name>::new()), Vec::<usize>::new());
}

#[test]
fn names_are_listed_once_in_order() {
    let list: Vec<String> = ["小明", "Tony", "Amy", "Tony", "tony"].iter().map(|name| name.to_string()).collect();
    let mut expected = list.clone();
    expected.sort();
    expected.dedup();
    assert_eq!(sort_names(&list), expected);
    assert!(sort_names(&vec![]).is_empty());
}

#[test]
fn texts_are_ordered_by_code_point() {
    let before = |left: &str, right: &str| comes_before(&chars_of(left), &chars_of(right));
    assert!(before("a", "b"));
    assert!(before("", "a"));
    assert!(before("a", "aa"));
    assert!(!before("a", "a"));
    assert!(before("Z", "a"));
    assert_eq!(before("\u{ffff}", "\u{10000}"), "\u{ffff}" < "\u{10000}");
}

#[test]
fn scores_are_ordered_as_numbers_are() {
    let values = [
        f32::NEG_INFINITY, -2.5, -1.0, -0.0, 0.0, f32::MIN_POSITIVE, 0.25, 1.0, f32::INFINITY, f32::NAN, -f32::NAN,
    ];
    for left in values {
        for right in values {
            assert_eq!(score(left).key.cmp(&score(right).key), left.total_cmp(&right), "{left} {right}");
            assert_eq!(score(left).is_at_least(score(right)), left >= right, "{left} {right}");
            assert_eq!(score(left).is_above(score(right)), left > right, "{left} {right}");
        }
        assert_eq!(score(left).bits(), left.to_bits());
    }
    assert_eq!(score(1.0).key, local_lens::score::ONE_KEY);
    assert_eq!(score(f32::INFINITY).key, local_lens::score::INFINITY_KEY);
}

#[test]
fn the_last_of_equal_scores_is_the_greatest() {
    assert_eq!(last_greatest(&vec![]), None);
    assert_eq!(last_greatest(&vec![score(1.0), score(3.0), score(3.0), score(2.0)]), Some(2));
    assert_eq!(last_greatest(&vec![score(-1.0)]), Some(0));
}

#[test]
fn numbers_are_written_and_read() {
    assert_eq!(decimal_string(0), "0");
    assert_eq!(decimal_string(u128::MAX), u128::MAX.to_string());
    for value in [0u64, 9, 10, 65535, u64::MAX] {
        let mut digits = Vec::new();
        push_hexadecimal(&mut digits, value, 16);
        assert_eq!(string_of(&digits), format!("{value:016x}"));
        let mut short = Vec::new();
        push_hexadecimal_digits(&mut short, value);
        assert_eq!(string_of(&short), format!("{value:x}"));
    }
    for value in [0i64, 7, -7, 12345, -12345, i64::MIN] {
        let mut padded = Vec::new();
        push_padded(&mut padded, value, 4);
        assert_eq!(string_of(&padded), format!("{value:04}"));
    }
    for text in ["0", "+5", "-5", "9223372036854775807", "9223372036854775808", "-9223372036854775808", "", "-", "+", "1x"] {
        assert_eq!(read_i64(&chars_of(text)), text.parse::<i64>().ok(), "{text}");
        assert_eq!(
            read_unsigned(&chars_of(text), u32::MAX as u128),
            text.parse::<u32>().ok().map(|value| value as u128),
            "{text}"
        );
    }
}

#[test]
fn texts_are_searched_and_changed() {
    let chars = |text: &str| chars_of(text);
    assert_eq!(find(&chars("abcabc"), &chars("ca")), Some(2));
    assert_eq!(find(&chars("abc"), &chars("")), Some(0));
    assert_eq!(find(&chars("abc"), &chars("d")), None);
    assert!(contains(&chars("海邊的狗"), &chars("邊的")));
    assert_eq!(string_of(&replace(&chars("aaaa"), &chars("aa"), &chars("b"))), "aaaa".replace("aa", "b"));
    assert_eq!(string_of(&replace(&chars("ab"), &chars(""), &chars("-"))), "ab".replace("", "-"));
    assert_eq!(string_of(&trim(&chars(" \u{3000}a b\n"))), "a b");
    assert_eq!(string_of(&trim_char(&chars("\"\"a\"b\""), '"')), "a\"b");
    assert_eq!(string_of(&compact(&chars(" a\u{3000}b\tc "))), "abc");
    assert_eq!(string_of(&ascii_lower(&chars("AbZ[Ä"))), "AbZ[Ä".to_ascii_lowercase());
    assert_eq!(join(&vec!["a".to_owned(), "b".to_owned(), "c".to_owned()], ", "), "a, b, c");
    assert_eq!(join(&vec![], ", "), "");
}
