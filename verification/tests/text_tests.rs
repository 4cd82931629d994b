use primorial_of_a_number::text::{chars_of, string_wrap, usize_to_decimal, OutputMode};

#[test]
fn numbered_lines() {
    let s = String::from("abcdef");
    assert_eq!(string_wrap(&s, 4, &OutputMode::Number), "1~ abcd\n2~ ef");
    assert_eq!(string_wrap(&s, 3, &OutputMode::Number), "1~ abc\n2~ def");
    assert_eq!(string_wrap(&s, 10, &OutputMode::Number), "1~ abcdef");
}

#[test]
fn plain_lines() {
    let s = String::from("abcdef");
    assert_eq!(string_wrap(&s, 4, &OutputMode::Message), "abcd\nef");
    assert_eq!(string_wrap(&s, 1, &OutputMode::Message), "a\nb\nc\nd\ne\nf");
}

#[test]
fn empty_text_has_no_lines() {
    assert_eq!(string_wrap(&String::new(), 5, &OutputMode::Number), "");
    assert_eq!(string_wrap(&String::new(), 5, &OutputMode::Message), "");
}

#[test]
fn many_lines_count_past_nine() {
    let s = "x".repeat(12);
    let expected = (1..=12).map(|i| format!("{}~ x", i)).collect::<Vec<_>>().join("\n");
    assert_eq!(string_wrap(&s, 1, &OutputMode::Number), expected);
}

#[test]
fn wide_characters_count_once() {
    let s = String::from("ééé");
    assert_eq!(string_wrap(&s, 2, &OutputMode::Message), "éé\né");
}

#[test]
fn decimal_of_usize() {
    assert_eq!(usize_to_decimal(0), vec!['0']);
    assert_eq!(usize_to_decimal(907), vec!['9', '0', '7']);
    assert_eq!(usize_to_decimal(usize::MAX).iter().collect::<String>(), usize::MAX.to_string());
}

#[test]
fn characters_of_text() {
    assert_eq!(chars_of("aé b"), vec!['a', 'é', ' ', 'b']);
    assert_eq!(chars_of(""), Vec::<char>::new());
}

#[test]
fn message_lines_give_back_the_text() {
    let s = String::from("abcdefghij");
    for w in 1..12u16 {
        let r = string_wrap(&s, w, &OutputMode::Message);
        assert_eq!(r.replace('\n', ""), s);
        let lines: Vec<&str> = r.split('\n').collect();
        assert_eq!(lines.len(), (s.len() + w as usize - 1) / w as usize);
        for (k, line) in lines.iter().enumerate() {
            if k + 1 < lines.len() {
                assert_eq!(line.chars().count(), w as usize);
            } else {
                assert!(line.chars().count() >= 1 && line.chars().count() <= w as usize);
            }
        }
    }
}
