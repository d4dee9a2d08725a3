use travel_planner::case_insensitive_sort::{comes_before, sort_usernames};

fn names(list: &[&str]) -> Vec<String> {
    list.iter().map(|name| name.to_string()).collect()
}

#[test]
fn five_users() {
    let mut users = names(&["Todd", "Amy", "mike99", "Jennifer", "alison"]);
    let sorted = names(&["alison", "Amy", "Jennifer", "mike99", "Todd"]);
    sort_usernames(&mut users);

    assert_eq!(users, sorted);
}

#[test]
fn names_that_differ_only_in_case_keep_their_order() {
    let mut users = names(&["bob", "ALICE", "Bob", "alice", "BOB", "Alice"]);
    sort_usernames(&mut users);
    assert_eq!(users, names(&["ALICE", "alice", "Alice", "bob", "Bob", "BOB"]));
}

#[test]
fn upper_case_does_not_go_first() {
    // By code point "Zed" comes before "adam"; without regard to case it does not.
    let mut users = names(&["Zed", "adam"]);
    sort_usernames(&mut users);
    assert_eq!(users, names(&["adam", "Zed"]));
}

#[test]
fn short_lists_are_left_alone() {
    let mut none: Vec<String> = vec![];
    sort_usernames(&mut none);
    assert!(none.is_empty());
    let mut one = names(&["Solo"]);
    sort_usernames(&mut one);
    assert_eq!(one, names(&["Solo"]));
}

#[test]
fn sorting_agrees_with_the_standard_library() {
    let mut users = names(&["émile", "Zoë", "zoe", "Émile", "ÀB", "àa", "", "ß", "SS", "a", "A"]);
    let mut expected = users.clone();
    expected.sort_by_cached_key(|name| name.to_lowercase());
    sort_usernames(&mut users);
    assert_eq!(users, expected);
}

#[test]
fn order_of_texts() {
    let chars = |s: &str| s.chars().collect::<Vec<char>>();
    assert!(comes_before(&chars(""), &chars("a")));
    assert!(!comes_before(&chars(""), &chars("")));
    assert!(!comes_before(&chars("a"), &chars("")));
    assert!(comes_before(&chars("ab"), &chars("abc")));
    assert!(comes_before(&chars("abc"), &chars("abd")));
    assert!(!comes_before(&chars("abd"), &chars("abc")));
    assert!(!comes_before(&chars("abc"), &chars("abc")));
    assert!(comes_before(&chars("Z"), &chars("a")));
    assert_eq!(comes_before(&chars("é"), &chars("z")), "é" < "z");
    assert_eq!(comes_before(&chars("z"), &chars("é")), "z" < "é");
}
