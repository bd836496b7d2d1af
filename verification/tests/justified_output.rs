use text_justify::align_line;
use text_justify::transform;

#[test]
fn test_align_line() {
    let test_cases = [
        (vec![], 5, ""),
        (vec!["test"], 5, "test "),
        (vec!["dolor", "sit"], 12, "dolor    sit"),
        (vec!["6chars", "7charss"], 12, "6chars 7charss"),
        (vec!["3", "words", "yet"], 19, "3     words     yet"),
        (vec!["3", "words", "yet"], 20, "3      words     yet"),
        (vec!["Bảo", "tàng", "Lâm", "Đồng"], 18, "Bảo  tàng Lâm Đồng"),
    ];

    for (words, line_width, expected) in test_cases {
        let output = align_line(words, line_width);
        assert_eq!(output, expected);
    }
}

#[test]
fn test_transform() {
    let test_cases = [
        ("", 5, ""),
        ("test", 5, "test "),
        ("Lorem ipsum dolor sit amet consectetur adipiscing elit sed do eiusmod tempor incididunt ut labore et dolore magna aliqua", 12,
         "Lorem  ipsum\ndolor    sit\namet        \nconsectetur \nadipiscing  \nelit  sed do\neiusmod     \ntempor      \nincididunt  \nut labore et\ndolore magna\naliqua      "),
        ("Lorem     ipsum    dolor", 17, "Lorem ipsum dolor"),
        ("Мама мыла раму, раму мыла мама.", 7, "Мама   \nмыла   \nраму,  \nраму   \nмыла   \nмама.  "),
        ("Bảo tàng Lâm Đồng Minh Nguyệt Cư Sĩ Lâm", 10, "Bảo   tàng\nLâm   Đồng\nMinh      \nNguyệt  Cư\nSĩ     Lâm")
    ];

    for &(input, line_width, expected) in &test_cases {
        println!("input: '{}'", input);
        let output = transform(input, line_width);
        println!("output: '{}'", output);
        assert_eq!(output, expected);
    }
}

#[test]
fn width_invariant_on_narrow_groups() {
    // Both word-groups are narrower than the width, so both lines must be
    // exactly five codepoints long.
    let output = transform("a bb ccc", 5);
    assert_eq!(output, "a  bb\nccc  ");
    for line in output.split('\n') {
        assert_eq!(line.chars().count(), 5);
    }
}

#[test]
fn single_wide_word_overflows_without_padding() {
    assert_eq!(transform("hello", 3), "hello");
    assert_eq!(transform("aaaa bb", 3), "aaaa\nbb ");
}

#[test]
fn width_zero_is_accepted() {
    assert_eq!(transform("", 0), "");
    assert_eq!(transform("x y", 0), "x\ny");
    assert_eq!(align_line(vec!["x"], 0), "x");
}

#[test]
fn overflowing_group_is_single_spaced() {
    // Natural width 9 meets the target 9: single spaces only.
    assert_eq!(align_line(vec!["abcd", "efgh"], 9), "abcd efgh");
    // Total width 8 already exceeds the target 7: still single spaces.
    assert_eq!(align_line(vec!["abcd", "efgh"], 7), "abcd efgh");
}

#[test]
fn leftmost_gaps_take_the_remainder() {
    // slack 7 over 3 gaps: base 2, remainder 1, so only the first gap widens.
    assert_eq!(align_line(vec!["a", "b", "c", "d"], 11), "a   b  c  d");
}

#[test]
fn words_survive_transformation() {
    let input = "one two three four";
    let output = transform(input, 7);
    let mut collected: Vec<&str> = Vec::new();
    for line in output.split('\n') {
        for word in line.split(' ') {
            if !word.is_empty() {
                collected.push(word);
            }
        }
    }
    let input_words: Vec<&str> = input.split(' ').filter(|w| !w.is_empty()).collect();
    assert_eq!(collected, input_words);
}

#[test]
fn rewrapping_a_flattened_document_is_stable() {
    let input = "Lorem ipsum dolor sit amet consectetur adipiscing elit";
    let output = transform(input, 12);
    let flattened = output.replace('\n', " ");
    assert_eq!(transform(&flattened, 12), output);
}

#[test]
fn multibyte_words_are_measured_in_codepoints() {
    // Four words of three codepoints each, nine bytes of UTF-8 apiece.
    let output = transform("ảảả ằằằ ẳẳẳ ẵẵẵ", 7);
    assert_eq!(output, "ảảả ằằằ\nẳẳẳ ẵẵẵ");
    for line in output.split('\n') {
        assert_eq!(line.chars().count(), 7);
    }
}
