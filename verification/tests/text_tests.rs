use taureria::text::{chars_less, chars_of, ends_with, sort_strings, str_less};

#[test]
fn chars_of_splits_into_characters() {
    assert_eq!(chars_of("aé日"), vec!['a', 'é', '日']);
    assert!(chars_of("").is_empty());
}

#[test]
fn ends_with_compares_the_tail() {
    let c = chars_of("cover.jpeg");
    assert!(ends_with(&c, ".jpeg"));
    assert!(ends_with(&c, ""));
    assert!(!ends_with(&c, ".jpg"));
    assert!(!ends_with(&chars_of("g"), ".jpg"));
}

#[test]
fn string_order_matches_std() {
    let samples = ["", "a", "ab", "b", "B", "é", "日本", "a0", "a/"];
    for x in samples.iter() {
        for y in samples.iter() {
            assert_eq!(str_less(x, y), x < y, "{} {}", x, y);
            assert_eq!(chars_less(&chars_of(x), &chars_of(y)), x < y);
        }
    }
}

#[test]
fn sort_strings_matches_std_sort() {
    let v: Vec<String> = ["d", "b", "a", "c", "b", "", "é", "A"].iter().map(|s| s.to_string()).collect();
    let mut expected = v.clone();
    expected.sort();
    assert_eq!(sort_strings(&v), expected);
}
