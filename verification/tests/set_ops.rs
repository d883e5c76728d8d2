use sets::lineset::from_content;
use sets::options::read_error_message;
use sets::options::Operation;
use sets::options::Options;
use sets::setops::intersect;
use sets::setops::invoke;
use sets::setops::subset_test;
use sets::text::str_eq;
use sets::text::str_lt;
use sets::text::trim_str;

#[test]
fn test_intersect() {
    let options = Options::from_stdin("intersect", "A\nB\nC\nD\nE", "B\nD");
    assert_eq!("B\nD", invoke(options), "Should return the intersection");
}

#[test]
fn test_intersect_ignores_whitespace() {
    let options = Options::from_stdin("intersect", "A\n  \n B \n\n", "  \n \nB\nA\n\n");
    assert_eq!("A\nB", invoke(options), "Should ignore all whitespace");
}

#[test]
fn test_subset_test() {
    let options = Options::from_stdin("subset-test", "A\nB", "X\nA\nY\nB\nZ");
    assert_eq!("true", invoke(options), "Should return 'true' when left is a subset of right");
}

#[test]
fn test_subset_test_when_not_subset() {
    let options = Options::from_stdin("subset-test", "X", "Y");
    assert_eq!("false", invoke(options), "Should return 'false' when left is not a subset of right");
}

#[test]
fn test_subset_test_ignore_whitespace_lines() {
    let options = Options::from_stdin("subset-test", "A\nB\n  \n\n", "X\nA\nB\nY");
    assert_eq!("true", invoke(options), "Should ignore all whitespace");
}

#[test]
fn intersect_of_disjoint_sets_is_empty() {
    let left = from_content("A\nB");
    let right = from_content("C\nD");
    assert_eq!("", intersect(&left, &right));
}

#[test]
fn intersect_output_is_ascending() {
    let left = from_content("C\nA\nB");
    let right = from_content("B\nC\nA");
    assert_eq!("A\nB\nC", intersect(&left, &right));
}

#[test]
fn reading_twice_yields_the_same_set() {
    let first = from_content("pear\napple\n\nplum");
    let second = from_content("pear\napple\n\nplum");
    assert_eq!(first.lines(), second.lines());
}

#[test]
fn line_order_and_blanks_do_not_matter() {
    let shuffled = from_content("plum\n\n  apple\npear\n \npear\n");
    let plain = from_content("apple\npear\nplum");
    assert_eq!(shuffled.lines(), plain.lines());
}

#[test]
fn lines_are_trimmed_deduplicated_and_sorted() {
    let set = from_content("  B \nA\nB\n\tA\n");
    assert_eq!(&vec![String::from("A"), String::from("B")], set.lines());
}

#[test]
fn whitespace_only_content_gives_the_empty_set() {
    let set = from_content("  \n\t\n \n");
    assert_eq!(0, set.len());
    assert_eq!("", intersect(&set, &set));
}

#[test]
fn empty_content_gives_the_empty_set() {
    let set = from_content("");
    assert_eq!(0, set.len());
}

#[test]
fn empty_set_is_subset_of_anything() {
    let left = from_content("\n  \n");
    let right = from_content("A");
    assert_eq!("true", subset_test(&left, &right));
}

#[test]
fn subset_test_needs_every_element() {
    let left = from_content("A\nB\nC");
    let right = from_content("A\nB");
    assert_eq!("false", subset_test(&left, &right));
}

#[test]
fn operation_tokens_parse() {
    assert!(matches!(Operation::from_token("intersect"), Some(Operation::Intersect())));
    assert!(matches!(Operation::from_token("subset-test"), Some(Operation::SubsetTest())));
    assert!(Operation::from_token("union").is_none());
    assert!(Operation::from_token("").is_none());
}

#[test]
fn read_error_message_carries_path_and_cause() {
    assert_eq!(
        "Cannot read file 'left.txt': No such file or directory (os error 2)",
        read_error_message("left.txt", "No such file or directory (os error 2)")
    );
}

#[test]
fn string_comparison_is_lexicographic() {
    assert!(str_lt("apple", "pear"));
    assert!(!str_lt("pear", "apple"));
    assert!(str_lt("app", "apple"));
    assert!(!str_lt("apple", "apple"));
    assert!(str_eq("apple", "apple"));
    assert!(!str_eq("apple", "Apple"));
}

#[test]
fn trimming_strips_both_ends() {
    assert_eq!("a b", trim_str(" \t a b \r\n"));
    assert_eq!("", trim_str("   \t "));
    assert_eq!("x", trim_str("x"));
}
