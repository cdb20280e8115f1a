use least_squares::record::{leading_pair, split_fields, SEPARATOR};

fn texts(line: &str) -> Vec<String> {
    split_fields(line.as_bytes()).iter().map(|&(s, e)| line[s..e].to_string()).collect()
}

#[test]
fn separator_is_the_comma() {
    assert_eq!(SEPARATOR, b',');
}

#[test]
fn line_splits_at_commas() {
    assert_eq!(split_fields(b"5,9"), vec![(0, 1), (2, 3)]);
    assert_eq!(split_fields(b"53, 3"), vec![(0, 2), (3, 5)]);
    assert_eq!(texts(" 1.5 ,2,x"), vec![" 1.5 ", "2", "x"]);
}

#[test]
fn line_without_comma_is_one_field() {
    assert_eq!(split_fields(b"abc"), vec![(0, 3)]);
    assert_eq!(split_fields(b""), vec![(0, 0)]);
}

#[test]
fn empty_fields_are_kept() {
    assert_eq!(split_fields(b","), vec![(0, 0), (1, 1)]);
    assert_eq!(split_fields(b"a,,b,"), vec![(0, 1), (2, 2), (3, 4), (5, 5)]);
    assert_eq!(texts(",7,,"), vec!["", "7", "", ""]);
}

#[test]
fn fields_of_text_beyond_ascii() {
    assert_eq!(texts("1\u{a0},\u{2003}2"), vec!["1\u{a0}", "\u{2003}2"]);
}

#[test]
fn pair_is_the_first_two_values() {
    assert_eq!(leading_pair(&[Some(5), Some(9)]), Some((5, 9)));
    assert_eq!(leading_pair(&[Some(5), Some(9), Some(1)]), Some((5, 9)));
    assert_eq!(leading_pair(&[Some(1.5), Some(-2.0)]), Some((1.5, -2.0)));
}

#[test]
fn unread_fields_are_passed_over() {
    assert_eq!(leading_pair(&[None, Some(3), Some(4), Some(5)]), Some((3, 4)));
    assert_eq!(leading_pair(&[Some(1), None, None, Some(2)]), Some((1, 2)));
}

#[test]
fn fewer_than_two_values_give_no_pair() {
    let nothing: [Option<i64>; 0] = [];
    assert_eq!(leading_pair(&nothing), None);
    assert_eq!(leading_pair(&[Some(1)]), None);
    assert_eq!(leading_pair(&[None, Some(1), None]), None);
    assert_eq!(leading_pair::<i64>(&[None, None, None]), None);
}

#[test]
fn lines_become_pairs() {
    let read = |line: &str| -> Option<(f64, f64)> {
        let values: Vec<Option<f64>> = split_fields(line.as_bytes())
            .iter()
            .map(|&(s, e)| line[s..e].trim().parse::<f64>().ok())
            .collect();
        leading_pair(&values)
    };
    assert_eq!(read("5,9"), Some((5.0, 9.0)));
    assert_eq!(read(" 53 , 3 "), Some((53.0, 3.0)));
    assert_eq!(read("x,1,2"), Some((1.0, 2.0)));
    assert_eq!(read("1;2"), None);
    assert_eq!(read("7,"), None);
    assert_eq!(read(""), None);
}
