use simdpath::bytes::find_byte;
use simdpath::bytes::find_byte2;
use simdpath::bytes::find_non_whitespace;
use simdpath::bytes::find_unescaped_byte;
use simdpath::bytes::find_unescaped_byte2;
use simdpath::bytes::is_escaped;

#[test]
fn find_byte_when_there_are_no_bytes() {
    assert_eq!(None, find_byte(b'{', "".as_bytes()));
}

#[test]
fn find_byte_when_there_is_only_that_byte() {
    assert_eq!(Some(0), find_byte(b'{', "{".as_bytes()));
}

#[test]
fn find_byte_when_byte_exists() {
    let bytes = r#"administrateur de \"La Libre Parole\", maire de Garches"#.as_bytes();
    assert_eq!(Some(19), find_byte(b'"', bytes));
}

#[test]
fn find_byte_when_byte_does_not_exist() {
    let bytes = r#"administrateur de \"La Libre Parole\", maire de Garches"#.as_bytes();
    assert_eq!(None, find_byte(b'{', bytes));
}

#[test]
fn find_byte2_when_there_are_no_bytes() {
    assert_eq!(None, find_byte2(b'{', b'}', "".as_bytes()));
}

#[test]
fn find_byte2_when_there_is_only_the_first_byte() {
    assert_eq!(Some(0), find_byte2(b'{', b'}', "{".as_bytes()));
}

#[test]
fn find_byte2_when_there_is_only_the_second_byte() {
    assert_eq!(Some(0), find_byte2(b'{', b'}', "}".as_bytes()));
}

#[test]
fn find_byte2_when_the_first_byte_occurs_first() {
    let bytes = r#"administrateur de \"La Libre Parole\", maire de Garches"#.as_bytes();
    assert_eq!(Some(19), find_byte2(b'"', b'L', bytes));
}

#[test]
fn find_byte2_when_the_second_byte_occurs_first() {
    let bytes = r#"administrateur de \"La Libre Parole\", maire de Garches"#.as_bytes();
    assert_eq!(Some(29), find_byte2(b'P', b'G', bytes));
}

#[test]
fn find_byte2_when_none_of_the_bytes_occur() {
    let bytes = r#"administrateur de \"La Libre Parole\", maire de Garches"#.as_bytes();
    assert_eq!(None, find_byte2(b'M', b'X', bytes));
}

#[test]
fn find_unescaped_byte_when_all_matching_bytes_are_escaped() {
    let bytes = r#"administrateur de \"La Libre Parole\", maire de Garches"#.as_bytes();
    assert_eq!(None, find_unescaped_byte(b'"', bytes));

    let bytes = r#"personne qui \"fait la plonge\" dans la restauration"#.as_bytes();
    assert_eq!(None, find_unescaped_byte(b'"', bytes));
}

#[test]
fn find_unescaped_byte_when_some_matching_bytes_are_escaped() {
    let bytes = r#"administrateur de \"La Libre Parole\", maire de Garches",
        {
            "label": 123
        }"#
    .as_bytes();
    assert_eq!(Some(55), find_unescaped_byte(b'"', bytes));
}

#[test]
fn find_unescaped_byte_when_the_backslash_is_escaped() {
    let bytes = r#"text \n xxx yyyy \\n was unescaped"#.as_bytes();
    assert_eq!(Some(19), find_unescaped_byte(b'n', bytes));
}

#[test]
fn find_unescaped_byte_when_the_backslash_is_escaped_many_times() {
    let bytes = r#"text \n xxx yyyy \\\\\\\\\\\\n was unescaped"#.as_bytes();
    assert_eq!(Some(29), find_unescaped_byte(b'n', bytes));
}

#[test]
fn find_unescaped_byte2_when_there_is_only_one_of_the_bytes() {
    assert_eq!(Some(0), find_unescaped_byte2(b'{', b'}', "{".as_bytes()));
    assert_eq!(Some(0), find_unescaped_byte2(b'{', b'}', "}".as_bytes()));
}

#[test]
fn find_unescaped_byte2_when_some_matching_bytes_are_escaped() {
    let bytes = r#"personne qui \"fait la plonge\" dans la restauration
        },
        "en""#
        .as_bytes();
    assert_eq!(Some(61), find_unescaped_byte2(b'"', b'}', bytes));
}

#[test]
fn find_unescaped_byte2_when_the_backslash_is_escaped() {
    let bytes = r#"text \n xxx yyyy \\n was unescaped"#.as_bytes();
    assert_eq!(Some(19), find_unescaped_byte2(b'n', b'}', bytes));
    assert_eq!(Some(19), find_unescaped_byte2(b'}', b'n', bytes));
}

#[test]
fn is_escaped_counts_the_run_of_backslashes() {
    let bytes = r#"ab\c\\d\\\e"#.as_bytes();
    assert!(!is_escaped(0, bytes));
    assert!(!is_escaped(2, bytes));
    assert!(is_escaped(3, bytes));
    assert!(!is_escaped(6, bytes));
    assert!(is_escaped(10, bytes));
}

#[test]
fn find_non_whitespace_when_there_are_no_bytes() {
    assert_eq!(None, find_non_whitespace("".as_bytes()));
}

#[test]
fn find_non_whitespace_when_there_is_only_one_non_whitespace_byte() {
    assert_eq!(Some(0), find_non_whitespace("x".as_bytes()));
}

#[test]
fn find_non_whitespace_when_there_is_leading_whitespace() {
    assert_eq!(
        Some(19),
        find_non_whitespace(" \t\n\r  \t  \n\t  \r \n\r  x".as_bytes())
    );
}

#[test]
fn find_non_whitespace_does_not_treat_other_control_bytes_as_whitespace() {
    assert_eq!(Some(0), find_non_whitespace("\u{000b}".as_bytes()));
    assert_eq!(Some(0), find_non_whitespace("\u{000c}".as_bytes()));
    assert_eq!(Some(0), find_non_whitespace("\u{0085}".as_bytes()));
    assert_eq!(Some(0), find_non_whitespace("\u{00A0}".as_bytes()));
}
