use koans::catalog::{build, flatten, parse_all, CatalogError, Entry};
use koans::koan::ParseError;

fn directory(name: &str, files: &[&str]) -> Entry {
    Entry::Directory {
        name: name.to_string(),
        files: files.iter().map(|file| file.to_string()).collect(),
    }
}

fn pair(directory: &str, file: &str) -> (String, String) {
    (directory.to_string(), file.to_string())
}

fn qualified(listing: &Vec<Entry>) -> Vec<String> {
    build(listing).unwrap().iter().map(|koan| koan.qualified_name()).collect()
}

#[test]
fn flatten_pairs_files_with_their_directory() {
    let listing = vec![directory("01_b", &["00_z.rs"]), directory("00_a", &["01_y.rs", "00_x.rs"])];
    assert_eq!(
        flatten(&listing),
        Ok(vec![pair("01_b", "00_z.rs"), pair("00_a", "01_y.rs"), pair("00_a", "00_x.rs")])
    );
}

#[test]
fn flatten_of_empty_directories_is_empty() {
    assert_eq!(flatten(&vec![]), Ok(vec![]));
    assert_eq!(flatten(&vec![directory("00_a", &[])]), Ok(vec![]));
}

#[test]
fn flatten_refuses_what_is_no_directory() {
    let listing = vec![
        directory("00_a", &["00_x.rs"]),
        Entry::Other { name: "README.md".to_string() },
        directory("01_b", &["00_z.rs"]),
        Entry::Other { name: "notes.txt".to_string() },
    ];
    assert_eq!(flatten(&listing), Err(CatalogError::NotADirectory { name: "README.md".to_string() }));
}

#[test]
fn parse_all_reads_every_pair_in_turn() {
    let koans = parse_all(&vec![pair("01_b", "00_z.rs"), pair("00_a", "01_y.rs")]).unwrap();
    assert_eq!(koans.len(), 2);
    assert_eq!(koans[0].qualified_name(), "01_b/00_z");
    assert_eq!(koans[1].qualified_name(), "00_a/01_y");
}

#[test]
fn parse_all_stops_at_the_first_pair_it_cannot_read() {
    let names = vec![
        pair("00_a", "00_x.rs"),
        pair("00_a", "notes.txt"),
        pair("broken", "00_z.rs"),
    ];
    assert_eq!(
        parse_all(&names),
        Err(CatalogError::Unreadable {
            directory: "00_a".to_string(),
            file: "notes.txt".to_string(),
            error: ParseError::KoanName,
        })
    );
}

#[test]
fn build_orders_the_catalog_by_names() {
    let listing = vec![directory("01_b", &["00_z.rs"]), directory("00_a", &["01_y.rs", "00_x.rs"])];
    assert_eq!(qualified(&listing), vec!["00_a/00_x", "00_a/01_y", "01_b/00_z"]);
}

#[test]
fn build_does_not_depend_on_the_order_of_the_listing() {
    let one = vec![
        directory("00_a", &["00_x.rs", "01_y.rs"]),
        directory("01_b", &["00_z.rs"]),
        directory("10_c", &["02_w.rs", "10_v.rs"]),
    ];
    let other = vec![
        directory("10_c", &["10_v.rs", "02_w.rs"]),
        directory("01_b", &["00_z.rs"]),
        directory("00_a", &["01_y.rs", "00_x.rs"]),
    ];
    let expected = vec!["00_a/00_x", "00_a/01_y", "01_b/00_z", "10_c/02_w", "10_c/10_v"];
    assert_eq!(qualified(&one), expected);
    assert_eq!(qualified(&other), expected);
}

#[test]
fn build_puts_two_before_ten_thanks_to_the_leading_zero() {
    let listing = vec![directory("10_x", &["00_a.rs"]), directory("02_x", &["00_a.rs"])];
    assert_eq!(qualified(&listing), vec!["02_x/00_a", "10_x/00_a"]);
}

#[test]
fn build_lets_numbers_ascend() {
    let listing = vec![
        directory("03_c", &["07_a.rs", "02_b.rs", "11_c.rs"]),
        directory("01_a", &["05_a.rs"]),
        directory("02_b", &["09_a.rs", "00_b.rs"]),
    ];
    let koans = build(&listing).unwrap();
    let numbers: Vec<(usize, usize)> =
        koans.iter().map(|koan| (koan.parent_number, koan.number)).collect();
    assert_eq!(numbers, vec![(1, 5), (2, 0), (2, 9), (3, 2), (3, 7), (3, 11)]);
}

#[test]
fn build_of_an_empty_listing_is_empty() {
    assert_eq!(build(&vec![]), Ok(vec![]));
}

#[test]
fn build_refuses_what_is_no_directory() {
    let listing =
        vec![directory("00_a", &["00_x.rs"]), Entry::Other { name: "lib.rs".to_string() }];
    assert_eq!(build(&listing), Err(CatalogError::NotADirectory { name: "lib.rs".to_string() }));
}

#[test]
fn build_refuses_what_is_no_directory_before_it_reads_names() {
    let listing =
        vec![directory("broken", &["broken"]), Entry::Other { name: "lib.rs".to_string() }];
    assert_eq!(build(&listing), Err(CatalogError::NotADirectory { name: "lib.rs".to_string() }));
}

#[test]
fn build_names_the_first_unreadable_file_in_catalog_order() {
    let listing = vec![
        directory("01_b", &["zz.rs", "00_z.rs"]),
        directory("00_a", &["01_y.rs", "notes.txt"]),
    ];
    assert_eq!(
        build(&listing),
        Err(CatalogError::Unreadable {
            directory: "00_a".to_string(),
            file: "notes.txt".to_string(),
            error: ParseError::KoanName,
        })
    );
}

#[test]
fn build_names_an_unreadable_directory() {
    let listing = vec![directory("drafts", &["00_z.rs"])];
    assert_eq!(
        build(&listing),
        Err(CatalogError::Unreadable {
            directory: "drafts".to_string(),
            file: "00_z.rs".to_string(),
            error: ParseError::DirName,
        })
    );
}

#[test]
fn message_names_the_root_directory() {
    let error = CatalogError::NotADirectory { name: "lib.rs".to_string() };
    assert_eq!(error.message("src/koans"), "Each entry in src/koans has to be a directory");
}

#[test]
fn message_says_which_name_could_not_be_read() {
    let error = CatalogError::Unreadable {
        directory: "00_a".to_string(),
        file: "notes.txt".to_string(),
        error: ParseError::KoanName,
    };
    assert_eq!(error.message("src/koans"), "Failed to parse koan name.");
    let error = CatalogError::Unreadable {
        directory: "drafts".to_string(),
        file: "00_x.rs".to_string(),
        error: ParseError::DirName,
    };
    assert_eq!(error.message("src/koans"), "Failed to parse dir name.");
}
