use koans::order::{names_le, sort};

fn pair(directory: &str, file: &str) -> (String, String) {
    (directory.to_string(), file.to_string())
}

#[test]
fn names_le_compares_the_directory_first() {
    assert!(names_le(&pair("00_a", "09_z.rs"), &pair("01_a", "00_a.rs")));
    assert!(!names_le(&pair("01_a", "00_a.rs"), &pair("00_a", "09_z.rs")));
}

#[test]
fn names_le_compares_files_within_a_directory() {
    assert!(names_le(&pair("00_a", "00_x.rs"), &pair("00_a", "01_y.rs")));
    assert!(!names_le(&pair("00_a", "01_y.rs"), &pair("00_a", "00_x.rs")));
    assert!(names_le(&pair("00_a", "00_x.rs"), &pair("00_a", "00_x.rs")));
}

#[test]
fn names_le_agrees_with_the_order_of_tuples() {
    let samples = [
        pair("00_a", "00_x.rs"),
        pair("00_a", "01_y.rs"),
        pair("00_ab", "00_x.rs"),
        pair("01_b", "00_z.rs"),
        pair("", ""),
        pair("10_b", "00_z.rs"),
        pair("2_b", "00_z.rs"),
    ];
    for x in samples.iter() {
        for y in samples.iter() {
            assert_eq!(names_le(x, y), x <= y, "{:?} {:?}", x, y);
        }
    }
}

#[test]
fn sort_puts_pairs_in_the_order_of_their_names() {
    let sorted = sort(vec![
        pair("01_b", "00_z.rs"),
        pair("00_a", "01_y.rs"),
        pair("00_a", "00_x.rs"),
    ]);
    assert_eq!(
        sorted,
        vec![pair("00_a", "00_x.rs"), pair("00_a", "01_y.rs"), pair("01_b", "00_z.rs")]
    );
}

#[test]
fn sort_agrees_with_the_sort_of_vectors() {
    let given = vec![
        pair("05_e", "03_c.rs"),
        pair("00_a", "01_y.rs"),
        pair("10_k", "00_x.rs"),
        pair("05_e", "00_a.rs"),
        pair("02_c", "00_x.rs"),
        pair("05_e", "03_c.rs"),
        pair("00_a", "00_x.rs"),
        pair("09_j", "10_x.rs"),
        pair("09_j", "02_x.rs"),
    ];
    let mut expected = given.clone();
    expected.sort();
    assert_eq!(sort(given), expected);
}

#[test]
fn sort_of_nothing_is_nothing() {
    assert_eq!(sort(vec![]), vec![]);
    assert_eq!(sort(vec![pair("00_a", "00_x.rs")]), vec![pair("00_a", "00_x.rs")]);
}
