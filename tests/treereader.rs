use wfwalk::tree::build_data::{trim_prefix, trim_with_length};
use wfwalk::tree::{read_tree, BuildData, NTree, TreeError};

fn lines_of(s: &str) -> Vec<String> {
    s.lines().map(|l| l.to_string()).collect()
}

fn bf_values(tree: &NTree<String>) -> Vec<String> {
    let mut out = Vec::new();
    let mut it = tree.bf_iter();
    while let Some((_, s)) = it.next() {
        out.push(s.clone());
    }
    out
}

fn bf_values_from_string(s: &'static str) -> Vec<String> {
    let tree = read_tree(&lines_of(s), None).unwrap();
    bf_values(&tree)
}

#[test]
fn build_data_test_trim_with_length() {
    assert_eq!(("foo", 0), trim_with_length("foo"));
    assert_eq!(("foo", 3), trim_with_length("   foo"));
    assert_eq!(("foo  ", 3), trim_with_length("   foo  "));
    assert_eq!(("", 4), trim_with_length("   \n"));
    assert_eq!(("+ foo", 5), trim_with_length("     + foo"));
}

#[test]
fn treereader_test_trim_with_length() {
    assert_eq!(("foo", 0), trim_with_length("foo"));
    assert_eq!(("foo", 3), trim_with_length("   foo"));
    assert_eq!(("foo  ", 3), trim_with_length("   foo  "));
    assert_eq!(("", 4), trim_with_length("   \n"));
    assert_eq!(("+ foo", 5), trim_with_length("     + foo"));
}

#[test]
fn trim_with_length_counts_bytes_of_wide_white_space() {
    // U+3000 takes three bytes in UTF-8, U+00A0 two.
    assert_eq!(("foo", 5), trim_with_length("\u{3000}\u{a0}foo"));
}

#[test]
fn test_trim_prefix() {
    // No prefix should return the string unchanged.
    assert_eq!("quux", trim_prefix("quux", &None));
    assert_eq!("  quux", trim_prefix("  quux", &None));
    assert_eq!("- quux", trim_prefix("- quux", &None));
    assert_eq!("  - quux", trim_prefix("  - quux", &None));

    // A missing prefix should return the string unchanged.
    assert_eq!("quux", trim_prefix("quux", &Some("-".to_string())));
    assert_eq!("  quux", trim_prefix("  quux", &Some("-".to_string())));

    // Remove the prefix and any spaces which remain.
    assert_eq!("quux", trim_prefix("- quux", &Some("-".to_string())));
    assert_eq!("quux", trim_prefix("-    quux", &Some("-".to_string())));

    // The prefix must be at the very beginning of the string to have an effect.
    assert_eq!("  - quux", trim_prefix("  - quux", &Some("-".to_string())));

    // A mis-matched prefix should have no effect.
    assert_eq!("quux", trim_prefix("quux", &Some("XXX".to_string())));
    assert_eq!("  quux", trim_prefix("  quux", &Some("XXX".to_string())));
    assert_eq!("- quux", trim_prefix("- quux", &Some("XXX".to_string())));
    assert_eq!("  - quux", trim_prefix("  - quux", &Some("XXX".to_string())));
}

const TOP_LEVEL: &str = r#"ONE
TWO
THREE"#;

#[test]
fn treereader_test_top_level() {
    assert_eq!(
        vec!["", "ONE", "TWO", "THREE"],
        bf_values_from_string(TOP_LEVEL)
    );
}

static TWO_LEVELS: &str = r#"ONE
    ONE-ONE
    ONE-TWO
TWO
THREE"#;

#[test]
fn treereader_test_two_levels() {
    assert_eq!(
        vec!["", "ONE", "TWO", "THREE", "ONE-ONE", "ONE-TWO"],
        bf_values_from_string(TWO_LEVELS)
    );
}

static COMPLEX: &str = r#"ONE
    ONE-ONE
    ONE-TWO
TWO
  TWO-ONE
  TWO-TWO
  TWO-THREE
THREE
  THREE-ONE
    THREE-ONE-ONE
    THREE-ONE-TWO
    THREE-ONE-THREE
  THREE-TWO
       THREE-TWO-ONE
  THREE-THREE
FOUR
    FOUR-ONE
    FOUR-TWO"#;

#[test]
fn treereader_test_complex() {
    assert_eq!(
        vec![
            "",
            "ONE",
            "TWO",
            "THREE",
            "FOUR",
            "ONE-ONE",
            "ONE-TWO",
            "TWO-ONE",
            "TWO-TWO",
            "TWO-THREE",
            "THREE-ONE",
            "THREE-TWO",
            "THREE-THREE",
            "FOUR-ONE",
            "FOUR-TWO",
            "THREE-ONE-ONE",
            "THREE-ONE-TWO",
            "THREE-ONE-THREE",
            "THREE-TWO-ONE"
        ],
        bf_values_from_string(COMPLEX)
    );
}

static SKIP_LEVELS: &str = r#"ONE
TWO
  TWO-ONE
  TWO-TWO
    TWO-TWO-ONE
      TWO-TWO-ONE-ONE
  TWO-THREE
    TWO-THREE-ONE
      TWO-THREE-ONE-ONE
      TWO-THREE-ONE-TWO
THREE
  THREE-ONE"#;

#[test]
fn treereader_test_skip_levels() {
    assert_eq!(
        vec![
            "",
            "ONE",
            "TWO",
            "THREE",
            "TWO-ONE",
            "TWO-TWO",
            "TWO-THREE",
            "THREE-ONE",
            "TWO-TWO-ONE",
            "TWO-THREE-ONE",
            "TWO-TWO-ONE-ONE",
            "TWO-THREE-ONE-ONE",
            "TWO-THREE-ONE-TWO"
        ],
        bf_values_from_string(SKIP_LEVELS)
    );
}

static BAD_INDENT: &str = r#"ONE
TWO
   TWO-ONE
  BAD-INDENT"#;

#[test]
fn test_bad_indent() {
    let bad = read_tree(&lines_of(BAD_INDENT), None);
    assert!(bad.is_err());
}

#[test]
fn bad_indent_reports_its_width() {
    let mut bd = BuildData::new(None);
    bd.add("ONE").unwrap();
    bd.add("   ONE-ONE").unwrap();
    assert_eq!(Err(TreeError::NoSibling(2)), bd.add("  BAD"));
}

#[test]
fn read_tree_strips_bullets() {
    let tree = read_tree(&lines_of("- ONE\n  - ONE-ONE\n- TWO"), Some("-")).unwrap();
    assert_eq!(vec!["", "ONE", "TWO", "ONE-ONE"], bf_values(&tree));
}
