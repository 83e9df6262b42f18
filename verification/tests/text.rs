use fan_controllerd::listing::{comes_not_after, in_order};
use fan_controllerd::text::{
    ends_with, equal_but_case, is_white_space, replace, same_text, split, split_words,
    starts_with, trim,
};

const SAMPLES: [&str; 9] = [
    "",
    " ",
    "a",
    "  a b  ",
    "\t\u{a0}x|y\u{3000}\r\n",
    "||",
    "temp1_input",
    "_input_input",
    "Grüße | aus  München",
];

#[test]
fn white_space_is_that_of_unicode() {
    for n in 0..=0x10ffff {
        if let Some(c) = char::from_u32(n) {
            assert_eq!(is_white_space(c), c.is_whitespace());
        }
    }
}

#[test]
fn text_functions_agree_with_those_of_str() {
    for s in SAMPLES {
        assert_eq!(trim(s), s.trim());
        assert_eq!(split(s, '|'), s.split('|').collect::<Vec<_>>());
        assert_eq!(split_words(s), s.split_whitespace().collect::<Vec<_>>());
        assert_eq!(replace(s, "_input", "_label"), s.replace("_input", "_label"));
        assert_eq!(replace(s, "a", "aa"), s.replace("a", "aa"));
        for t in SAMPLES {
            assert_eq!(same_text(s, t), s == t);
            assert_eq!(starts_with(s, t), s.starts_with(t));
            assert_eq!(ends_with(s, t), s.ends_with(t));
            assert_eq!(equal_but_case(s, t), s.eq_ignore_ascii_case(t));
        }
    }
    assert!(equal_but_case("Ok", "oK"));
    assert!(!equal_but_case("Ü", "ü"));
}

#[test]
fn entries_are_visited_in_the_order_of_their_bytes() {
    let names: Vec<Vec<u8>> = ["hwmon2", "hwmon10", "hwmon1", "a", "", "hwmon1", "\u{e9}"]
        .iter()
        .map(|s| s.as_bytes().to_vec())
        .collect();
    let order = in_order(&names);
    assert_eq!(order, vec![4, 3, 2, 5, 1, 0, 6]);
    for x in &names {
        for y in &names {
            assert_eq!(comes_not_after(x, y), x <= y);
        }
    }
}
