use name_history::text::{chars_of, comes_before, split_lines, split_ranges};

fn pieces(text: &str, sep: char) -> Vec<String> {
    let chars = chars_of(text);
    split_ranges(&chars, sep)
        .iter()
        .map(|(from, to)| chars[*from..*to].iter().collect::<String>())
        .collect()
}

#[test]
fn characters_come_out_in_order() {
    assert_eq!(chars_of("aé,z"), vec!['a', 'é', ',', 'z']);
    assert_eq!(chars_of(""), Vec::<char>::new());
}

#[test]
fn fields_are_cut_at_every_comma() {
    for text in ["", ",", "a", "a,b", "a,,b", ",a", "a,", "42,alice,0,86400", "é,ü,,", ",,,"] {
        let expected: Vec<String> = text.split(',').map(|s| s.to_string()).collect();
        assert_eq!(pieces(text, ','), expected, "input {:?}", text);
    }
}

#[test]
fn lines_agree_with_the_standard_library() {
    for text in [
        "", "\n", "a", "a\n", "a\nb", "a\nb\n", "a\r\nb\r\n", "a\n\nb", "\n\n", "a\r", "a\r\n",
        "a\r\r\n", "\r\n", "1,x,0\n2,y,86400\n", "é\nü", "a\rb\n",
    ] {
        let expected: Vec<String> = text.lines().map(|s| s.to_string()).collect();
        assert_eq!(split_lines(text), expected, "input {:?}", text);
    }
}

#[test]
fn a_line_feed_ends_a_line() {
    assert_eq!(split_lines("1,a\n2,b\n"), vec!["1,a", "2,b"]);
    assert_eq!(split_lines("1,a\r\n2,b"), vec!["1,a", "2,b"]);
    assert_eq!(split_lines("\n"), vec![""]);
    assert!(split_lines("").is_empty());
}

#[test]
fn text_order_agrees_with_the_standard_library() {
    let names = ["", "a", "A", "ab", "abc", "b", "alice", "alicia", "bob", "Zed", "é", "e", "ée", "日本", "z"];
    for a in names {
        for b in names {
            assert_eq!(comes_before(a, b), a < b, "{:?} before {:?}", a, b);
        }
    }
}
