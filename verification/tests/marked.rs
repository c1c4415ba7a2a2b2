use commit_review::marked::boundaries;

#[test]
fn boundaries_of_ascii_include_both_ends() {
    assert_eq!(boundaries("hello", 1..4), vec![1, 2, 3, 4]);
    assert_eq!(boundaries("hello", 2..2), vec![2]);
}

#[test]
fn boundaries_skip_inside_multibyte_characters() {
    // 'é' takes two bytes, '€' three.
    let text = "aé€b";
    assert_eq!(boundaries(text, 0..text.len()), vec![0, 1, 3, 6, 7]);
    assert_eq!(boundaries(text, 1..6), vec![1, 3, 6]);
}

#[test]
fn ranges_that_split_a_character_or_overrun_give_nothing() {
    let text = "aé€b";
    assert!(boundaries(text, 2..6).is_empty());
    assert!(boundaries(text, 0..8).is_empty());
    assert!(boundaries(text, std::ops::Range { start: 3, end: 1 }).is_empty());
}
