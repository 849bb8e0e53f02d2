use linkscope::search::{search_plan, split_words};

#[test]
fn words_split_at_white_space() {
    assert_eq!(split_words("  a\tbc \n d\u{3000}e  "), vec!["a", "bc", "d", "e"]);
    assert!(split_words("   ").is_empty());
    assert_eq!(split_words("x"), vec!["x"]);
}

#[test]
fn blank_queries_find_nothing() {
    assert_eq!(search_plan(" \t\n", 10), None);
    assert_eq!(search_plan("", 10), None);
}

#[test]
fn queries_match_their_first_eight_words_lowercased() {
    let (terms, hits) = search_plan("One TWO three four five six seven eight NINE", 500).unwrap();
    assert_eq!(terms, vec!["one", "two", "three", "four", "five", "six", "seven", "eight"]);
    assert_eq!(hits, 500);
    assert_eq!(search_plan("x", 0).unwrap().1, 1);
    assert_eq!(search_plan("x", 5000).unwrap().1, 1000);
    assert_eq!(search_plan("ÉCOLE", 3).unwrap().0, vec!["école"]);
}
