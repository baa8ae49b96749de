use trivia::decimal::{read_number, push_decimal, push_digits, read_i32, read_usize};
use trivia::order::comes_before;
use trivia::ranking::stands_above;
use trivia::text::{chars_of, copy_range, find_in, push_joined, space, split_at, string_of, trimmed};

fn chars(text: &str) -> Vec<char> {
    text.chars().collect()
}

#[test]
fn chars_and_strings_convert_both_ways() {
    assert_eq!(chars_of("aé✓"), vec!['a', 'é', '✓']);
    assert_eq!(chars_of(""), Vec::<char>::new());
    assert_eq!(string_of(&chars("hello"), 1, 4), "ell");
    assert_eq!(string_of(&chars("hello"), 2, 2), "");
    assert_eq!(copy_range(&chars("hello"), 0, 5), chars("hello"));
}

#[test]
fn find_gives_first_position_or_end() {
    assert_eq!(find_in(&chars("a|b|c"), 0, 5, '|'), 1);
    assert_eq!(find_in(&chars("a|b|c"), 2, 5, '|'), 3);
    assert_eq!(find_in(&chars("a|b|c"), 4, 5, '|'), 5);
    assert_eq!(find_in(&chars("a|b|c"), 0, 1, '|'), 1);
    assert_eq!(find_in(&chars(""), 0, 0, '|'), 0);
}

#[test]
fn split_cuts_at_every_separator() {
    let rows = |text: &str| -> Vec<String> {
        split_at(&chars(text), '\n').iter().map(|row| row.iter().collect()).collect()
    };
    assert_eq!(rows("a\nb"), vec!["a", "b"]);
    assert_eq!(rows("a\n\nb\n"), vec!["a", "", "b", ""]);
    assert_eq!(rows(""), vec![""]);
    assert_eq!(rows("\n"), vec!["", ""]);
    assert_eq!(rows("abc"), vec!["abc"]);
}

#[test]
fn split_agrees_with_the_standard_library() {
    for text in ["", "\n", "a", "a\nb", "\na\n\n", "x_a|b\nc|d\n", "é\n✓"] {
        let expected: Vec<Vec<char>> = text.split('\n').map(|row| row.chars().collect()).collect();
        assert_eq!(split_at(&chars(text), '\n'), expected, "{:?}", text);
    }
}

#[test]
fn joined_strings_have_the_separator_between_them() {
    let mut out = String::from(">");
    push_joined(&mut out, &vec!["a".to_string(), "".to_string(), "b".to_string()], ',');
    assert_eq!(out, ">a,,b");
    let mut one = String::new();
    push_joined(&mut one, &vec!["a".to_string()], ',');
    assert_eq!(one, "a");
    let mut none = String::from("x");
    push_joined(&mut none, &Vec::new(), ',');
    assert_eq!(none, "x");
}

#[test]
fn white_space_is_what_the_standard_library_calls_so() {
    for code in 0u32..0x11_0000 {
        if let Some(c) = char::from_u32(code) {
            assert_eq!(space(c), c.is_whitespace(), "U+{:04X}", code);
        }
    }
}

#[test]
fn trimmed_range_leaves_white_space_out() {
    assert_eq!(trimmed(&chars("  ab c \n")), (2, 6));
    assert_eq!(trimmed(&chars("abc")), (0, 3));
    assert_eq!(trimmed(&chars("   ")), (3, 3));
    assert_eq!(trimmed(&chars("")), (0, 0));
}

#[test]
fn digits_read_up_to_the_limit() {
    assert_eq!(read_number(&chars("0123"), 0, 4, 1000), Some(123));
    assert_eq!(read_number(&chars("1000"), 0, 4, 1000), Some(1000));
    assert_eq!(read_number(&chars("1001"), 0, 4, 1000), None);
    assert_eq!(read_number(&chars("12a"), 0, 3, 1000), None);
    assert_eq!(read_number(&chars("12a"), 0, 2, 1000), Some(12));
    assert_eq!(read_number(&chars(""), 0, 0, 1000), None);
    assert_eq!(read_number(&chars("18446744073709551615"), 0, 20, u64::MAX), Some(u64::MAX));
    assert_eq!(read_number(&chars("18446744073709551616"), 0, 20, u64::MAX), None);
    assert_eq!(read_number(&chars("٣"), 0, 1, 1000), None);
}

#[test]
fn integers_read_as_the_standard_library_reads_them() {
    for text in [
        "0", "-0", "+0", "7", "-7", "+7", "007", "2147483647", "2147483648", "-2147483648",
        "-2147483649", "", "-", "+", "--1", "+-1", "1-", " 1", "1 ", "1e3", "0x10", "４",
        "99999999999999999999", "-99999999999999999999", "00000000000000000000001",
    ] {
        let cs = chars(text);
        assert_eq!(read_i32(&cs, 0, cs.len()), text.parse::<i32>().ok(), "{:?}", text);
        assert_eq!(read_usize(&cs, 0, cs.len()), text.parse::<usize>().ok(), "{:?}", text);
    }
}

#[test]
fn integers_are_written_in_decimal() {
    for n in [0, 1, 9, 10, 11, 99, 100, 12345, -1, -10, -999, i32::MAX, i32::MIN] {
        let mut out = String::from("n=");
        push_decimal(&mut out, n);
        assert_eq!(out, format!("n={}", n));
        let cs = chars(&out[2..]);
        assert_eq!(read_i32(&cs, 0, cs.len()), Some(n));
    }
    let mut out = String::new();
    push_digits(&mut out, u64::MAX);
    assert_eq!(out, "18446744073709551615");
}

#[test]
fn names_are_ordered_by_code_point() {
    let pairs = [
        ("", ""), ("", "a"), ("a", ""), ("a", "a"), ("a", "b"), ("b", "a"), ("ab", "abc"),
        ("abc", "ab"), ("Z", "a"), ("a", "Z"), ("é", "z"), ("z", "é"), ("😀", "\u{ffff}"),
    ];
    for (a, b) in pairs {
        assert_eq!(comes_before(&chars(a), &chars(b)), a < b, "{:?} {:?}", a, b);
    }
}

#[test]
fn higher_score_stands_above_and_later_name_breaks_ties() {
    assert!(stands_above(10, &chars("Carol"), 5, &chars("Bob")));
    assert!(!stands_above(5, &chars("Bob"), 10, &chars("Carol")));
    assert!(stands_above(5, &chars("Bob"), 5, &chars("Alice")));
    assert!(!stands_above(5, &chars("Alice"), 5, &chars("Bob")));
    assert!(!stands_above(5, &chars("Bob"), 5, &chars("Bob")));
    assert!(stands_above(-1, &chars("a"), -2, &chars("z")));
}
