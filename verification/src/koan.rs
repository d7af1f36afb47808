//! One exercise, and how its two names are read and written.

use crate::pattern::{captures, regex_captures};
use crate::text::{begins_with, has_char, push_two_digits, read_two_digits};
use crate::text::lemma_decimal_has_no_line_break;
use crate::text::{lemma_two_digit_value_round_trip, two_digit_value, two_digits};
use vstd::prelude::*;

verus! {

/// The pattern that a file name has to hold: two digits, an underscore,
/// an identifier and the extension of a source file.
pub const FILE_PATTERN: &'static str = r"(?P<number>\d{2})_(?P<name>\w+)\.rs";

/// The pattern that a directory name has to hold.
pub const DIRECTORY_PATTERN: &'static str = r"(?P<number>\d{2})_(?P<name>\w+)";

/// What has to follow the identifier in a file name.
pub const FILE_SUFFIX: &'static str = ".rs";

/// One exercise: its own number and name, and those of its group.
#[derive(Debug, PartialEq, Eq)]
pub struct Koan {
    pub parent_name: String,
    pub parent_number: usize,
    pub name: String,
    pub number: usize,
}

/// A `Koan` as plain values.
pub struct KoanView {
    pub parent_name: Seq<char>,
    pub parent_number: nat,
    pub name: Seq<char>,
    pub number: nat,
}

impl View for Koan {
    type V = KoanView;

    open spec fn view(&self) -> KoanView {
        KoanView {
            parent_name: self.parent_name@,
            parent_number: self.parent_number as nat,
            name: self.name@,
            number: self.number as nat,
        }
    }
}

/// Which of an exercise's two names could not be read.
#[derive(Debug, Clone, Copy, PartialEq, Eq, Structural)]
pub enum ParseError {
    /// The file name does not start with two digits, an underscore, an
    /// identifier and `.rs`.
    KoanName,
    /// The directory name does not start with two digits, an underscore and
    /// an identifier.
    DirName,
}

impl ParseError {
    /// What is wrong, in words.
    pub open spec fn text(self) -> Seq<char> {
        match self {
            ParseError::KoanName => "Failed to parse koan name."@,
            ParseError::DirName => "Failed to parse dir name."@,
        }
    }

    /// What is wrong, in words.
    pub fn message(&self) -> (r: &'static str)
        ensures
            r@ == self.text(),
    {
        match self {
            ParseError::KoanName => "Failed to parse koan name.",
            ParseError::DirName => "Failed to parse dir name.",
        }
    }
}

/// The number and the identifier of `text`, given the groups that the search
/// for a pattern found in it: group 1 has to be two digits, group 2 an
/// identifier that fits on one line, and `text` has to begin with the two,
/// joined by an underscore and followed by `suffix`.
pub open spec fn numbered(
    text: Seq<char>,
    suffix: Seq<char>,
    groups: Option<Seq<Option<Seq<char>>>>,
) -> Option<(nat, Seq<char>)> {
    match groups {
        Some(found) => {
            if found.len() == 3 && found[1] is Some && found[2] is Some {
                let digits = found[1]->0;
                let name = found[2]->0;
                if two_digit_value(digits) is Some && !name.contains('\n') && (digits + seq!['_']
                    + name + suffix).is_prefix_of(text) {
                    Some((two_digit_value(digits)->0, name))
                } else {
                    None
                }
            } else {
                None
            }
        },
        None => None,
    }
}

/// Reads the number and the identifier out of `text`, given the groups that
/// the search for a pattern found in it.
pub fn decode(text: &str, suffix: &str, groups: &Option<Vec<Option<String>>>) -> (r: Option<
    (usize, String),
>)
    ensures
        match r {
            Some((number, name)) => numbered(text@, suffix@, groups.deep_view()) == Some(
                (number as nat, name@),
            ),
            None => numbered(text@, suffix@, groups.deep_view()) is None,
        },
{
    match groups {
        Some(found) => {
            if found.len() != 3 {
                return None;
            }
            match (&found[1], &found[2]) {
                (Some(digits), Some(name)) => {
                    let number = match read_two_digits(digits.as_str()) {
                        Some(n) => n,
                        None => {
                            return None;
                        },
                    };
                    if has_char(name.as_str(), '\n') {
                        return None;
                    }
                    let mut frame = digits.clone();
                    frame.append("_");
                    frame.append(name.as_str());
                    frame.append(suffix);
                    proof {
                        reveal_strlit("_");
                    }
                    if begins_with(text, frame.as_str()) {
                        Some((number, name.clone()))
                    } else {
                        None
                    }
                },
                _ => None,
            }
        },
        None => None,
    }
}

impl KoanView {
    /// The name under which the exercise is recorded and its tests are
    /// selected: group and exercise, each with its number in two digits.
    pub open spec fn qualified_name(self) -> Seq<char> {
        two_digits(self.parent_number) + seq!['_'] + self.parent_name + seq!['/'] + two_digits(
            self.number,
        ) + seq!['_'] + self.name
    }

    /// An exercise whose qualified name fits on one line of the marker.
    pub open spec fn recordable(self) -> bool {
        !self.qualified_name().contains('\n')
    }
}

/// The exercise that a directory name and a file name stand for, given the
/// groups that were found in each of them. The file name is read first.
pub open spec fn assembled(
    directory: Seq<char>,
    file: Seq<char>,
    file_groups: Option<Seq<Option<Seq<char>>>>,
    directory_groups: Option<Seq<Option<Seq<char>>>>,
) -> Result<KoanView, ParseError> {
    match numbered(file, FILE_SUFFIX@, file_groups) {
        None => Err(ParseError::KoanName),
        Some((number, name)) => match numbered(directory, Seq::empty(), directory_groups) {
            None => Err(ParseError::DirName),
            Some((parent_number, parent_name)) => Ok(
                KoanView { parent_name, parent_number, name, number },
            ),
        },
    }
}

/// The exercise that a directory name and a file name stand for.
pub open spec fn parsed(directory: Seq<char>, file: Seq<char>) -> Result<KoanView, ParseError> {
    assembled(
        directory,
        file,
        regex_captures(FILE_PATTERN@, file),
        regex_captures(DIRECTORY_PATTERN@, directory),
    )
}

/// An exercise that was read from its names has both numbers below one
/// hundred, fits on one line of the marker, and is named by the beginnings
/// of the two names it was read from.
pub proof fn lemma_assembled(
    directory: Seq<char>,
    file: Seq<char>,
    file_groups: Option<Seq<Option<Seq<char>>>>,
    directory_groups: Option<Seq<Option<Seq<char>>>>,
)
    requires
        assembled(directory, file, file_groups, directory_groups) is Ok,
    ensures
        ({
            let koan = assembled(directory, file, file_groups, directory_groups)->Ok_0;
            &&& koan.number < 100
            &&& koan.parent_number < 100
            &&& koan.recordable()
            &&& (two_digits(koan.parent_number) + seq!['_'] + koan.parent_name).is_prefix_of(
                directory,
            )
            &&& (two_digits(koan.number) + seq!['_'] + koan.name + FILE_SUFFIX@).is_prefix_of(file)
        }),
{
    let koan = assembled(directory, file, file_groups, directory_groups)->Ok_0;
    let file_digits = file_groups->0[1]->0;
    let directory_digits = directory_groups->0[1]->0;
    lemma_two_digit_value_round_trip(file_digits);
    lemma_two_digit_value_round_trip(directory_digits);
    lemma_decimal_has_no_line_break(koan.number);
    lemma_decimal_has_no_line_break(koan.parent_number);
}

/// The same of an exercise that was read from its two names alone.
pub proof fn lemma_parsed(directory: Seq<char>, file: Seq<char>)
    requires
        parsed(directory, file) is Ok,
    ensures
        ({
            let koan = parsed(directory, file)->Ok_0;
            &&& koan.number < 100
            &&& koan.parent_number < 100
            &&& koan.recordable()
            &&& (two_digits(koan.parent_number) + seq!['_'] + koan.parent_name).is_prefix_of(
                directory,
            )
            &&& (two_digits(koan.number) + seq!['_'] + koan.name + FILE_SUFFIX@).is_prefix_of(file)
        }),
{
    lemma_assembled(
        directory,
        file,
        regex_captures(FILE_PATTERN@, file),
        regex_captures(DIRECTORY_PATTERN@, directory),
    );
}

impl Koan {
    /// Builds the exercise from its two names and the groups that were found
    /// in each of them.
    pub fn assemble(
        directory: &str,
        file: &str,
        file_groups: &Option<Vec<Option<String>>>,
        directory_groups: &Option<Vec<Option<String>>>,
    ) -> (r: Result<Koan, ParseError>)
        ensures
            match r {
                Ok(koan) => assembled(
                    directory@,
                    file@,
                    file_groups.deep_view(),
                    directory_groups.deep_view(),
                ) == Ok::<KoanView, ParseError>(koan@),
                Err(error) => assembled(
                    directory@,
                    file@,
                    file_groups.deep_view(),
                    directory_groups.deep_view(),
                ) == Err::<KoanView, ParseError>(error),
            },
    {
        let (number, name) = match decode(file, FILE_SUFFIX, file_groups) {
            Some(found) => found,
            None => {
                return Err(ParseError::KoanName);
            },
        };
        proof {
            reveal_strlit("");
        }
        let (parent_number, parent_name) = match decode(directory, "", directory_groups) {
            Some(found) => found,
            None => {
                return Err(ParseError::DirName);
            },
        };
        Ok(Koan { parent_name, parent_number, name, number })
    }

    /// Reads the exercise out of the name of its directory and the name of
    /// its file.
    pub fn parse(directory: &str, file: &str) -> (r: Result<Koan, ParseError>)
        ensures
            match r {
                Ok(koan) => parsed(directory@, file@) == Ok::<KoanView, ParseError>(koan@),
                Err(error) => parsed(directory@, file@) == Err::<KoanView, ParseError>(error),
            },
    {
        let file_groups = captures(FILE_PATTERN, file);
        let directory_groups = captures(DIRECTORY_PATTERN, directory);
        Koan::assemble(directory, file, &file_groups, &directory_groups)
    }

    /// The name under which the exercise is recorded and its tests are
    /// selected.
    pub fn qualified_name(&self) -> (r: String)
        ensures
            r@ == self@.qualified_name(),
    {
        let mut out = String::new();
        push_two_digits(&mut out, self.parent_number);
        out.append("_");
        out.append(self.parent_name.as_str());
        out.append("/");
        push_two_digits(&mut out, self.number);
        out.append("_");
        out.append(self.name.as_str());
        proof {
            reveal_strlit("_");
            reveal_strlit("/");
        }
        out
    }
}

impl TryFrom<(String, String)> for Koan {
    type Error = ParseError;

    /// Reads the exercise out of the name of its directory and the name of
    /// its file, in this order.
    fn try_from(names: (String, String)) -> (r: Result<Koan, ParseError>)
        ensures
            match r {
                Ok(koan) => parsed(names.0@, names.1@) == Ok::<KoanView, ParseError>(koan@),
                Err(error) => parsed(names.0@, names.1@) == Err::<KoanView, ParseError>(error),
            },
    {
        Koan::parse(names.0.as_str(), names.1.as_str())
    }
}

/// A contract cannot build a `Koan` out of plain values, so what `try_from`
/// returns is stated over views, on `try_from` itself.
impl vstd::std_specs::convert::TryFromSpecImpl<(String, String)> for Koan {
    open spec fn obeys_try_from_spec() -> bool {
        false
    }

    open spec fn try_from_spec(names: (String, String)) -> Result<Koan, ParseError> {
        arbitrary()
    }
}

impl<'a> From<&'a Koan> for String {
    /// The qualified name of the exercise.
    fn from(koan: &'a Koan) -> (r: String)
        ensures
            r@ == koan@.qualified_name(),
    {
        koan.qualified_name()
    }
}

/// A contract cannot build a `String` out of plain values, so what `from`
/// returns is stated over views, on `from` itself.
impl<'a> vstd::std_specs::convert::FromSpecImpl<&'a Koan> for String {
    open spec fn obeys_from_spec() -> bool {
        false
    }

    open spec fn from_spec(koan: &'a Koan) -> String {
        arbitrary()
    }
}

impl Clone for Koan {
    fn clone(&self) -> (r: Koan)
        ensures
            r@ == self@,
    {
        Koan {
            parent_name: self.parent_name.clone(),
            parent_number: self.parent_number,
            name: self.name.clone(),
            number: self.number,
        }
    }
}

} // verus!
