//! The catalog: every exercise under a directory, in the order of the names
//! of its directory and its file.

use crate::koan::{lemma_parsed, parsed, Koan, KoanView, ParseError};
use crate::order::{catalog_order, in_order, sort, Names};
use crate::order::{lemma_catalog_order_total, lemma_in_order, lemma_in_order_ignores_arrangement};
use crate::text::lemma_precedes_orders_numbers;
use vstd::prelude::*;
use vstd::relations::sorted_by;

verus! {

/// What was found directly under the root directory.
#[derive(Debug, PartialEq, Eq)]
pub enum Entry {
    /// A directory, with the names of what it holds.
    Directory { name: String, files: Vec<String> },
    /// Anything that is no directory.
    Other { name: String },
}

/// An `Entry` as plain values.
pub enum EntryView {
    Directory { name: Seq<char>, files: Seq<Seq<char>> },
    Other { name: Seq<char> },
}

impl View for Entry {
    type V = EntryView;

    open spec fn view(&self) -> EntryView {
        match self {
            Entry::Directory { name, files } => EntryView::Directory {
                name: name@,
                files: files.deep_view(),
            },
            Entry::Other { name } => EntryView::Other { name: name@ },
        }
    }
}

/// Why no catalog could be built.
#[derive(Debug, PartialEq, Eq)]
pub enum CatalogError {
    /// The root directory holds something that is no directory.
    NotADirectory { name: String },
    /// A directory or a file is not named as an exercise has to be.
    Unreadable { directory: String, file: String, error: ParseError },
}

/// A `CatalogError` as plain values.
pub enum CatalogErrorView {
    NotADirectory { name: Seq<char> },
    Unreadable { directory: Seq<char>, file: Seq<char>, error: ParseError },
}

impl View for CatalogError {
    type V = CatalogErrorView;

    open spec fn view(&self) -> CatalogErrorView {
        match self {
            CatalogError::NotADirectory { name } => CatalogErrorView::NotADirectory { name: name@ },
            CatalogError::Unreadable { directory, file, error } => CatalogErrorView::Unreadable {
                directory: directory@,
                file: file@,
                error: *error,
            },
        }
    }
}

impl CatalogErrorView {
    /// What is wrong, in words; `path` is the root directory.
    pub open spec fn text(self, path: Seq<char>) -> Seq<char> {
        match self {
            CatalogErrorView::NotADirectory { .. } => "Each entry in "@ + path
                + " has to be a directory"@,
            CatalogErrorView::Unreadable { error, .. } => error.text(),
        }
    }
}

impl CatalogError {
    /// What is wrong, in words; `path` is the root directory.
    pub fn message(&self, path: &str) -> (r: String)
        ensures
            r@ == self@.text(path@),
    {
        match self {
            CatalogError::NotADirectory { .. } => {
                let mut text = String::from_str("Each entry in ");
                text.append(path);
                text.append(" has to be a directory");
                text
            },
            CatalogError::Unreadable { error, .. } => String::from_str(error.message()),
        }
    }
}

/// The views of the entries of a listing.
pub open spec fn listed(listing: Seq<Entry>) -> Seq<EntryView> {
    listing.map_values(|entry: Entry| entry@)
}

/// The name of the first entry that is no directory.
pub open spec fn first_stray(listing: Seq<EntryView>) -> Option<Seq<char>>
    decreases listing.len(),
{
    if listing.len() == 0 {
        None
    } else {
        match first_stray(listing.drop_last()) {
            Some(name) => Some(name),
            None => match listing.last() {
                EntryView::Other { name } => Some(name),
                EntryView::Directory { .. } => None,
            },
        }
    }
}

/// Each file of a directory, paired with the directory's name.
pub open spec fn paired(name: Seq<char>, files: Seq<Seq<char>>) -> Seq<Names> {
    files.map_values(|file: Seq<char>| (name, file))
}

/// The pairs of names of all files in the directories of a listing, as they
/// were listed.
pub open spec fn flattened(listing: Seq<EntryView>) -> Seq<Names>
    decreases listing.len(),
{
    if listing.len() == 0 {
        Seq::empty()
    } else {
        flattened(listing.drop_last()) + match listing.last() {
            EntryView::Directory { name, files } => paired(name, files),
            EntryView::Other { .. } => Seq::empty(),
        }
    }
}

/// The exercises that the pairs stand for, in the order of the pairs; if some
/// pair cannot be read, the first such pair and what is wrong with it.
pub open spec fn parsed_all(names: Seq<Names>) -> Result<Seq<KoanView>, CatalogErrorView>
    decreases names.len(),
{
    if names.len() == 0 {
        Ok(Seq::empty())
    } else {
        match parsed_all(names.drop_last()) {
            Err(error) => Err(error),
            Ok(koans) => match parsed(names.last().0, names.last().1) {
                Ok(koan) => Ok(koans.push(koan)),
                Err(error) => Err(
                    CatalogErrorView::Unreadable {
                        directory: names.last().0,
                        file: names.last().1,
                        error,
                    },
                ),
            },
        }
    }
}

/// Where all pairs can be read, there is one exercise for each pair, read
/// from that pair.
pub proof fn lemma_parsed_all_reads_each(names: Seq<Names>)
    requires
        parsed_all(names) is Ok,
    ensures
        parsed_all(names)->Ok_0.len() == names.len(),
        forall|i: int|
            0 <= i < names.len() ==> parsed((#[trigger] names[i]).0, names[i].1) == Ok::<
                KoanView,
                ParseError,
            >(parsed_all(names)->Ok_0[i]),
    decreases names.len(),
{
    if names.len() > 0 {
        let earlier = names.drop_last();
        lemma_parsed_all_reads_each(earlier);
        assert forall|i: int| 0 <= i < names.len() implies parsed(
            (#[trigger] names[i]).0,
            names[i].1,
        ) == Ok::<KoanView, ParseError>(parsed_all(names)->Ok_0[i]) by {
            if i < earlier.len() {
                assert(earlier[i] == names[i]);
            }
        }
    }
}

/// Where some pair cannot be read, the error names the first such pair and
/// says what is wrong with it.
pub proof fn lemma_parsed_all_first_error(names: Seq<Names>) -> (at: int)
    requires
        parsed_all(names) is Err,
    ensures
        0 <= at < names.len(),
        forall|i: int| 0 <= i < at ==> parsed((#[trigger] names[i]).0, names[i].1) is Ok,
        parsed(names[at].0, names[at].1) is Err,
        parsed_all(names)->Err_0 == (CatalogErrorView::Unreadable {
            directory: names[at].0,
            file: names[at].1,
            error: parsed(names[at].0, names[at].1)->Err_0,
        }),
    decreases names.len(),
{
    let earlier = names.drop_last();
    if parsed_all(earlier) is Err {
        let at = lemma_parsed_all_first_error(earlier);
        assert forall|i: int| 0 <= i < at implies parsed((#[trigger] names[i]).0, names[i].1)
            is Ok by {
            assert(earlier[i] == names[i]);
        }
        at
    } else {
        lemma_parsed_all_reads_each(earlier);
        assert forall|i: int| 0 <= i < names.len() - 1 implies parsed(
            (#[trigger] names[i]).0,
            names[i].1,
        ) is Ok by {
            assert(earlier[i] == names[i]);
        }
        names.len() - 1
    }
}

/// The catalog of a listing: no entry may be anything but a directory, and
/// then every file of every directory is an exercise, in the order of the
/// catalog.
pub open spec fn catalog_of(listing: Seq<EntryView>) -> Result<Seq<KoanView>, CatalogErrorView> {
    match first_stray(listing) {
        Some(name) => Err(CatalogErrorView::NotADirectory { name }),
        None => parsed_all(in_order(flattened(listing))),
    }
}

/// Every exercise of `catalog` fits on one line of the marker.
pub open spec fn all_recordable(catalog: Seq<KoanView>) -> bool {
    forall|i: int| 0 <= i < catalog.len() ==> (#[trigger] catalog[i]).recordable()
}

/// Every exercise of a catalog fits on one line of the marker.
pub proof fn lemma_catalog_recordable(listing: Seq<EntryView>)
    requires
        catalog_of(listing) is Ok,
    ensures
        all_recordable(catalog_of(listing)->Ok_0),
{
    let names = in_order(flattened(listing));
    let koans = catalog_of(listing)->Ok_0;
    lemma_parsed_all_reads_each(names);
    assert forall|i: int| 0 <= i < koans.len() implies (#[trigger] koans[i]).recordable() by {
        lemma_parsed(names[i].0, names[i].1);
    }
}

/// The catalog holds one exercise for each file of the listing, read from
/// the names of the file and its directory, and the exercises stand in the
/// order of those names.
pub proof fn lemma_catalog_in_order(listing: Seq<EntryView>)
    requires
        catalog_of(listing) is Ok,
    ensures
        ({
            let names = in_order(flattened(listing));
            let koans = catalog_of(listing)->Ok_0;
            &&& sorted_by(names, catalog_order())
            &&& names.to_multiset() == flattened(listing).to_multiset()
            &&& koans.len() == names.len()
            &&& forall|i: int|
                0 <= i < names.len() ==> parsed((#[trigger] names[i]).0, names[i].1) == Ok::<
                    KoanView,
                    ParseError,
                >(koans[i])
        }),
{
    lemma_in_order(flattened(listing));
    lemma_parsed_all_reads_each(in_order(flattened(listing)));
}

/// The catalog does not depend on the order in which directories and files
/// were listed: two listings of directories that hold the same pairs of
/// names have the same catalog.
pub proof fn lemma_catalog_ignores_arrangement(listing: Seq<EntryView>, shuffled: Seq<EntryView>)
    requires
        first_stray(listing) is None,
        first_stray(shuffled) is None,
        flattened(listing).to_multiset() == flattened(shuffled).to_multiset(),
    ensures
        catalog_of(listing) == catalog_of(shuffled),
{
    lemma_in_order_ignores_arrangement(flattened(listing), flattened(shuffled));
}

/// In the catalog the numbers of the groups never fall, and within one
/// directory the numbers of the exercises never fall.
pub proof fn lemma_catalog_numbers_ascend(listing: Seq<EntryView>, i: int, j: int)
    requires
        catalog_of(listing) is Ok,
        0 <= i <= j < catalog_of(listing)->Ok_0.len(),
    ensures
        ({
            let names = in_order(flattened(listing));
            let koans = catalog_of(listing)->Ok_0;
            &&& koans[i].parent_number <= koans[j].parent_number
            &&& names[i].0 == names[j].0 ==> koans[i].number <= koans[j].number
        }),
{
    let names = in_order(flattened(listing));
    let koans = catalog_of(listing)->Ok_0;
    lemma_catalog_in_order(listing);
    lemma_catalog_order_total();
    let order = catalog_order();
    assert(order(names[i], names[j]));
    lemma_parsed(names[i].0, names[i].1);
    lemma_parsed(names[j].0, names[j].1);
    if names[i].0 == names[j].0 {
        lemma_precedes_orders_numbers(names[i].1, names[j].1, koans[i].number, koans[j].number);
    } else {
        lemma_precedes_orders_numbers(
            names[i].0,
            names[j].0,
            koans[i].parent_number,
            koans[j].parent_number,
        );
    }
}

/// The views of the exercises of a catalog.
pub open spec fn koan_views(koans: Seq<Koan>) -> Seq<KoanView> {
    koans.map_values(|koan: Koan| koan@)
}

/// Pairs every file of every directory with the directory's name, and
/// refuses a listing that holds anything but directories.
pub fn flatten(listing: &Vec<Entry>) -> (r: Result<Vec<(String, String)>, CatalogError>)
    ensures
        match r {
            Ok(names) => first_stray(listed(listing@)) is None && names.deep_view() == flattened(
                listed(listing@),
            ),
            Err(error) => first_stray(listed(listing@)) is Some && error@
                == (CatalogErrorView::NotADirectory { name: first_stray(listed(listing@))->0 }),
        },
{
    let ghost all = listed(listing@);
    let mut names: Vec<(String, String)> = Vec::new();
    let mut at: usize = 0;
    while at < listing.len()
        invariant
            at <= listing.len(),
            all == listed(listing@),
            first_stray(all.take(at as int)) is None,
            names.deep_view() == flattened(all.take(at as int)),
        decreases listing.len() - at,
    {
        assert(all.take(at + 1).drop_last() =~= all.take(at as int));
        match &listing[at] {
            Entry::Other { name } => {
                proof {
                    lemma_first_stray_stays(all, at + 1);
                }
                return Err(CatalogError::NotADirectory { name: name.clone() });
            },
            Entry::Directory { name, files } => {
                let ghost before = names.deep_view();
                let mut next: usize = 0;
                while next < files.len()
                    invariant
                        next <= files.len(),
                        names.deep_view() == before + paired(name@, files.deep_view().take(
                            next as int,
                        )),
                    decreases files.len() - next,
                {
                    let ghost held = names.deep_view();
                    names.push((name.clone(), files[next].clone()));
                    assert(names.deep_view() =~= held.push((name@, files[next as int]@)));
                    next = next + 1;
                }
            },
        }
        at = at + 1;
    }
    assert(all.take(at as int) =~= all);
    Ok(names)
}

/// An entry that is no directory stays the first such entry when more
/// entries are listed after it.
pub proof fn lemma_first_stray_stays(listing: Seq<EntryView>, upto: int)
    requires
        0 <= upto <= listing.len(),
        first_stray(listing.take(upto)) is Some,
    ensures
        first_stray(listing) == first_stray(listing.take(upto)),
    decreases listing.len() - upto,
{
    if upto == listing.len() {
        assert(listing.take(upto) =~= listing);
    } else {
        assert(listing.take(upto + 1).drop_last() =~= listing.take(upto));
        lemma_first_stray_stays(listing, upto + 1);
    }
}

/// Reads every pair of names as an exercise, in the order given, and stops
/// at the first pair that cannot be read.
pub fn parse_all(names: &Vec<(String, String)>) -> (r: Result<Vec<Koan>, CatalogError>)
    ensures
        match r {
            Ok(koans) => parsed_all(names.deep_view()) == Ok::<
                Seq<KoanView>,
                CatalogErrorView,
            >(koan_views(koans@)),
            Err(error) => parsed_all(names.deep_view()) == Err::<
                Seq<KoanView>,
                CatalogErrorView,
            >(error@),
        },
{
    let ghost all = names.deep_view();
    let mut koans: Vec<Koan> = Vec::new();
    let mut at: usize = 0;
    assert(koan_views(koans@) =~= Seq::<KoanView>::empty());
    while at < names.len()
        invariant
            at <= names.len(),
            all == names.deep_view(),
            parsed_all(all.take(at as int)) == Ok::<Seq<KoanView>, CatalogErrorView>(
                koan_views(koans@),
            ),
        decreases names.len() - at,
    {
        assert(all.take(at + 1).drop_last() =~= all.take(at as int));
        let directory = &names[at].0;
        let file = &names[at].1;
        match Koan::parse(directory.as_str(), file.as_str()) {
            Ok(koan) => {
                let ghost before = koan_views(koans@);
                koans.push(koan);
                assert(koan_views(koans@) =~= before.push(koan@));
            },
            Err(error) => {
                proof {
                    lemma_parsed_all_error_stays(all, at + 1);
                }
                return Err(
                    CatalogError::Unreadable {
                        directory: directory.clone(),
                        file: file.clone(),
                        error,
                    },
                );
            },
        }
        at = at + 1;
    }
    assert(all.take(at as int) =~= all);
    Ok(koans)
}

/// The first pair that cannot be read stays the first such pair when more
/// pairs follow it.
pub proof fn lemma_parsed_all_error_stays(names: Seq<Names>, upto: int)
    requires
        0 <= upto <= names.len(),
        parsed_all(names.take(upto)) is Err,
    ensures
        parsed_all(names) == parsed_all(names.take(upto)),
    decreases names.len() - upto,
{
    if upto == names.len() {
        assert(names.take(upto) =~= names);
    } else {
        assert(names.take(upto + 1).drop_last() =~= names.take(upto));
        lemma_parsed_all_error_stays(names, upto + 1);
    }
}

/// Builds the catalog of a listing.
pub fn build(listing: &Vec<Entry>) -> (r: Result<Vec<Koan>, CatalogError>)
    ensures
        match r {
            Ok(koans) => catalog_of(listed(listing@)) == Ok::<Seq<KoanView>, CatalogErrorView>(
                koan_views(koans@),
            ) && all_recordable(koan_views(koans@)),
            Err(error) => catalog_of(listed(listing@)) == Err::<
                Seq<KoanView>,
                CatalogErrorView,
            >(error@),
        },
{
    match flatten(listing) {
        Err(error) => Err(error),
        Ok(names) => {
            let sorted = sort(names);
            let r = parse_all(&sorted);
            proof {
                if r is Ok {
                    lemma_catalog_recordable(listed(listing@));
                }
            }
            r
        },
    }
}

} // verus!
