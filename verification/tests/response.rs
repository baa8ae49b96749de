use trivia::response::{judge, menu, select, Verdict};

#[test]
fn empty_line_and_y_judge_correct() {
    assert_eq!(judge(""), Verdict::Correct);
    assert_eq!(judge("\n"), Verdict::Correct);
    assert_eq!(judge("y"), Verdict::Correct);
    assert_eq!(judge("y\n"), Verdict::Correct);
    assert_eq!(judge("  y \r\n"), Verdict::Correct);
    assert_eq!(judge(" \t\u{a0}\u{3000} "), Verdict::Correct);
}

#[test]
fn n_judges_incorrect() {
    assert_eq!(judge("n"), Verdict::Incorrect);
    assert_eq!(judge("n\n"), Verdict::Incorrect);
    assert_eq!(judge("\u{2003}n\u{2028}"), Verdict::Incorrect);
}

#[test]
fn s_skips() {
    assert_eq!(judge("s"), Verdict::Skip);
    assert_eq!(judge(" s\n"), Verdict::Skip);
}

#[test]
fn other_lines_are_no_judgment() {
    for line in ["Y", "N", "S", "yes", "no", "y n", "yy", "x", "1", "\u{200b}", "é"] {
        assert_eq!(judge(line), Verdict::Invalid, "{:?}", line);
    }
}

#[test]
fn judgment_agrees_with_trim_of_the_standard_library() {
    for code in 0u32..0x3100 {
        if let Some(c) = char::from_u32(code) {
            let line = format!("{}y{}", c, c);
            let expected = if line.trim() == "y" { Verdict::Correct } else { Verdict::Invalid };
            assert_eq!(judge(&line), expected, "U+{:04X}", code);
        }
    }
}

#[test]
fn selection_is_one_based() {
    assert_eq!(select("2", 2), Some(1));
    assert_eq!(select("1", 2), Some(0));
    assert_eq!(select(" 2\n", 2), Some(1));
    assert_eq!(select("+2", 2), Some(1));
    assert_eq!(select("002", 2), Some(1));
    assert_eq!(select("10", 12), Some(9));
}

#[test]
fn selection_out_of_range_is_refused() {
    assert_eq!(select("0", 2), None);
    assert_eq!(select("3", 2), None);
    assert_eq!(select("1", 0), None);
    assert_eq!(select("18446744073709551616", 2), None);
    assert_eq!(select("99999999999999999999999999999999999999999999", 2), None);
}

#[test]
fn selection_that_is_no_number_is_refused() {
    for line in ["x", "", " ", "-1", "1.0", "1 2", "+", "２", "1x"] {
        assert_eq!(select(line, 5), None, "{:?}", line);
    }
}

#[test]
fn menu_numbers_the_roster_from_one() {
    let roster = vec!["Ann".to_string(), "Bo".to_string()];
    assert_eq!(menu(&roster), "  [1] Ann\n  [2] Bo");
    let many: Vec<String> = (0..11).map(|i| format!("name{}", i)).collect();
    let text = menu(&many);
    assert!(text.starts_with("  [1] name0\n  [2] name1\n"));
    assert!(text.ends_with("\n  [10] name9\n  [11] name10"));
    assert_eq!(menu(&Vec::new()), "");
}
