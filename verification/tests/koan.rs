use koans::koan::{decode, ParseError, DIRECTORY_PATTERN, FILE_PATTERN, FILE_SUFFIX};
use koans::Koan;

fn groups(whole: &str, number: &str, name: &str) -> Option<Vec<Option<String>>> {
    Some(vec![Some(whole.to_string()), Some(number.to_string()), Some(name.to_string())])
}

#[test]
fn parse_reads_both_names() {
    let koan = Koan::parse("01_constructors", "04_random.rs").unwrap();
    assert_eq!(koan.parent_name, "constructors");
    assert_eq!(koan.parent_number, 1);
    assert_eq!(koan.name, "random");
    assert_eq!(koan.number, 4);
}

#[test]
fn parse_reads_all_two_digit_numbers() {
    let koan = Koan::parse("99_z", "00_a.rs").unwrap();
    assert_eq!(koan.parent_number, 99);
    assert_eq!(koan.number, 0);
    let koan = Koan::parse("10_z", "42_a.rs").unwrap();
    assert_eq!(koan.parent_number, 10);
    assert_eq!(koan.number, 42);
}

#[test]
fn parse_takes_the_identifier_as_far_as_it_goes() {
    let koan = Koan::parse("02_cluster_generation-old", "05_random_take2.rs.orig").unwrap();
    assert_eq!(koan.parent_name, "cluster_generation");
    assert_eq!(koan.name, "random_take2");
    let koan = Koan::parse("00_größe", "00_日本語.rs").unwrap();
    assert_eq!(koan.parent_name, "größe");
    assert_eq!(koan.name, "日本語");
}

#[test]
fn parse_refuses_a_file_without_the_extension() {
    assert_eq!(Koan::parse("00_a", "00_x"), Err(ParseError::KoanName));
    assert_eq!(Koan::parse("00_a", "00_x.py"), Err(ParseError::KoanName));
    assert_eq!(Koan::parse("00_a", "00_x.r"), Err(ParseError::KoanName));
}

#[test]
fn parse_refuses_names_without_two_digits() {
    assert_eq!(Koan::parse("00_a", "0_x.rs"), Err(ParseError::KoanName));
    assert_eq!(Koan::parse("00_a", "x.rs"), Err(ParseError::KoanName));
    assert_eq!(Koan::parse("00_a", ""), Err(ParseError::KoanName));
    assert_eq!(Koan::parse("0_a", "00_x.rs"), Err(ParseError::DirName));
    assert_eq!(Koan::parse("a", "00_x.rs"), Err(ParseError::DirName));
    assert_eq!(Koan::parse("", "00_x.rs"), Err(ParseError::DirName));
    assert_eq!(Koan::parse("00", "00_x.rs"), Err(ParseError::DirName));
    assert_eq!(Koan::parse("00_", "00_x.rs"), Err(ParseError::DirName));
}

#[test]
fn parse_reads_the_file_name_first() {
    assert_eq!(Koan::parse("a", "x"), Err(ParseError::KoanName));
}

#[test]
fn parse_wants_the_number_at_the_beginning() {
    assert_eq!(Koan::parse("00_a", "x00_x.rs"), Err(ParseError::KoanName));
    assert_eq!(Koan::parse("00_a", "000_x.rs"), Err(ParseError::KoanName));
    assert_eq!(Koan::parse("x00_a", "00_x.rs"), Err(ParseError::DirName));
    assert_eq!(Koan::parse("000_a", "00_x.rs"), Err(ParseError::DirName));
}

#[test]
fn parse_refuses_digits_of_other_scripts() {
    assert_eq!(Koan::parse("00_a", "٤٢_x.rs"), Err(ParseError::KoanName));
    assert_eq!(Koan::parse("٤٢_a", "00_x.rs"), Err(ParseError::DirName));
}

#[test]
fn decode_reads_number_and_identifier() {
    let found = groups("04_random.rs", "04", "random");
    assert_eq!(decode("04_random.rs", ".rs", &found), Some((4, "random".to_string())));
    let found = groups("01_constructors", "01", "constructors");
    assert_eq!(decode("01_constructors", "", &found), Some((1, "constructors".to_string())));
    assert_eq!(decode("01_constructors.d", "", &found), Some((1, "constructors".to_string())));
}

#[test]
fn decode_refuses_a_search_that_found_nothing() {
    assert_eq!(decode("04_random.rs", ".rs", &None), None);
}

#[test]
fn decode_wants_exactly_three_groups() {
    let two = Some(vec![Some("04_random.rs".to_string()), Some("04".to_string())]);
    assert_eq!(decode("04_random.rs", ".rs", &two), None);
    let four = Some(vec![
        Some("04_random.rs".to_string()),
        Some("04".to_string()),
        Some("random".to_string()),
        Some("rs".to_string()),
    ]);
    assert_eq!(decode("04_random.rs", ".rs", &four), None);
    assert_eq!(decode("04_random.rs", ".rs", &Some(vec![])), None);
}

#[test]
fn decode_wants_both_groups_to_take_part() {
    let no_number = Some(vec![Some("04_random.rs".to_string()), None, Some("random".to_string())]);
    assert_eq!(decode("04_random.rs", ".rs", &no_number), None);
    let no_name = Some(vec![Some("04_random.rs".to_string()), Some("04".to_string()), None]);
    assert_eq!(decode("04_random.rs", ".rs", &no_name), None);
}

#[test]
fn decode_wants_two_digits() {
    assert_eq!(decode("4_random.rs", ".rs", &groups("4_random.rs", "4", "random")), None);
    assert_eq!(decode("004_random.rs", ".rs", &groups("004_random.rs", "004", "random")), None);
    assert_eq!(decode("xx_random.rs", ".rs", &groups("xx_random.rs", "xx", "random")), None);
}

#[test]
fn decode_wants_the_text_to_begin_with_what_was_found() {
    assert_eq!(decode("x04_random.rs", ".rs", &groups("04_random.rs", "04", "random")), None);
    assert_eq!(decode("04_random", ".rs", &groups("04_random", "04", "random")), None);
    assert_eq!(decode("04-random.rs", ".rs", &groups("04_random.rs", "04", "random")), None);
    assert_eq!(decode("04_random.rs", ".rs", &groups("04_rand", "04", "rand")), None);
}

#[test]
fn decode_refuses_an_identifier_with_a_line_break() {
    assert_eq!(decode("04_ran\ndom.rs", ".rs", &groups("04_ran\ndom.rs", "04", "ran\ndom")), None);
}

#[test]
fn assemble_builds_the_exercise_from_both_searches() {
    let koan = Koan::assemble(
        "01_constructors",
        "04_random.rs",
        &groups("04_random.rs", "04", "random"),
        &groups("01_constructors", "01", "constructors"),
    )
    .unwrap();
    assert_eq!(
        koan,
        Koan {
            parent_name: "constructors".to_string(),
            parent_number: 1,
            name: "random".to_string(),
            number: 4,
        }
    );
}

#[test]
fn assemble_names_the_name_that_failed() {
    let file = groups("04_random.rs", "04", "random");
    let directory = groups("01_constructors", "01", "constructors");
    assert_eq!(
        Koan::assemble("01_constructors", "04_random.rs", &None, &directory),
        Err(ParseError::KoanName)
    );
    assert_eq!(
        Koan::assemble("01_constructors", "04_random.rs", &file, &None),
        Err(ParseError::DirName)
    );
    assert_eq!(
        Koan::assemble("01_constructors", "04_random.rs", &None, &None),
        Err(ParseError::KoanName)
    );
}

#[test]
fn qualified_name_joins_group_and_exercise() {
    let koan = Koan::parse("01_constructors", "04_random.rs").unwrap();
    assert_eq!(koan.qualified_name(), "01_constructors/04_random");
    let koan = Koan::parse("00_a", "00_x.rs").unwrap();
    assert_eq!(koan.qualified_name(), "00_a/00_x");
}

#[test]
fn qualified_name_writes_numbers_in_two_digits() {
    let koan = Koan {
        parent_name: "a".to_string(),
        parent_number: 3,
        name: "x".to_string(),
        number: 120,
    };
    assert_eq!(koan.qualified_name(), "03_a/120_x");
}

#[test]
fn qualified_name_gives_back_the_beginning_of_the_names() {
    let koan = Koan::parse("07_k_means", "00_assembling.rs").unwrap();
    let name = koan.qualified_name();
    assert_eq!(format!("{}.rs", name), "07_k_means/00_assembling.rs");
}

#[test]
fn a_koan_converts_into_its_qualified_name() {
    let koan = Koan::parse("01_constructors", "04_random.rs").unwrap();
    let name: String = (&koan).into();
    assert_eq!(name, "01_constructors/04_random");
    assert_eq!(String::from(&koan), koan.qualified_name());
}

#[test]
fn a_pair_of_names_converts_into_a_koan() {
    let names = ("01_constructors".to_string(), "04_random.rs".to_string());
    assert_eq!(Koan::try_from(names), Koan::parse("01_constructors", "04_random.rs"));
    let names = ("01_constructors".to_string(), "random.rs".to_string());
    assert_eq!(Koan::try_from(names), Err(ParseError::KoanName));
    let names = ("constructors".to_string(), "04_random.rs".to_string());
    assert_eq!(Koan::try_from(names), Err(ParseError::DirName));
}

#[test]
fn message_says_which_name_failed() {
    assert_eq!(ParseError::KoanName.message(), "Failed to parse koan name.");
    assert_eq!(ParseError::DirName.message(), "Failed to parse dir name.");
}

#[test]
fn clone_copies_every_field() {
    let koan = Koan::parse("07_k_means", "00_assembling.rs").unwrap();
    assert_eq!(koan.clone(), koan);
}

#[test]
fn patterns_are_those_of_the_naming_convention() {
    assert_eq!(FILE_PATTERN, r"(?P<number>\d{2})_(?P<name>\w+)\.rs");
    assert_eq!(DIRECTORY_PATTERN, r"(?P<number>\d{2})_(?P<name>\w+)");
    assert_eq!(FILE_SUFFIX, ".rs");
}
