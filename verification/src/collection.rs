//! The catalog together with the marker of progress: which exercises are
//! open, which one is next, and how the next one is opened.

use crate::catalog::{all_recordable, build, catalog_of, koan_views, listed};
use crate::catalog::{CatalogError, CatalogErrorView, Entry};
use crate::koan::{Koan, KoanView};
use crate::progress::{lemma_append_adds_one_record, lemma_append_counts};
use crate::progress::{line_of, records, terminated, ProgressStore};
use vstd::prelude::*;
use vstd::slice::slice_subrange;

verus! {

/// The exercises of a directory and the marker that tells how many of them
/// are open.
pub struct KoanCollection {
    path: String,
    enlightenment_path: String,
    koans: Vec<Koan>,
    progress: ProgressStore,
}

impl KoanCollection {
    /// The exercises, in the order of the catalog.
    pub closed spec fn catalog(&self) -> Seq<KoanView> {
        koan_views(self.koans@)
    }

    /// The text of the marker.
    pub closed spec fn marker(&self) -> Seq<char> {
        self.progress@
    }

    /// The directory that the exercises were found under.
    pub closed spec fn root(&self) -> Seq<char> {
        self.path@
    }

    /// The place where the marker is kept.
    pub closed spec fn marker_path(&self) -> Seq<char> {
        self.enlightenment_path@
    }

    /// The number of records in the marker.
    pub open spec fn unlocked(&self) -> nat {
        records(self.marker()).len()
    }

    /// The number of exercises that are open: one for each record, and no
    /// more than there are exercises.
    pub open spec fn open_count(&self) -> nat {
        if self.unlocked() < self.catalog().len() {
            self.unlocked()
        } else {
            self.catalog().len()
        }
    }

    /// Every exercise of a collection fits on one line of the marker.
    #[verifier::type_invariant]
    pub open spec fn well_formed(&self) -> bool {
        all_recordable(self.catalog())
    }

    /// Builds the collection from what was listed under `path` and from the
    /// text of the marker at `enlightenment_path`.
    pub fn new(path: &str, enlightenment_path: &str, listing: &Vec<Entry>, marker: String) -> (r:
        Result<KoanCollection, CatalogError>)
        ensures
            match r {
                Ok(collection) => {
                    &&& catalog_of(listed(listing@)) == Ok::<Seq<KoanView>, CatalogErrorView>(
                        collection.catalog(),
                    )
                    &&& collection.marker() == marker@
                    &&& collection.root() == path@
                    &&& collection.marker_path() == enlightenment_path@
                    &&& collection.well_formed()
                },
                Err(error) => catalog_of(listed(listing@)) == Err::<
                    Seq<KoanView>,
                    CatalogErrorView,
                >(error@),
            },
    {
        match build(listing) {
            Err(error) => Err(error),
            Ok(koans) => {
                Ok(
                    KoanCollection {
                        path: String::from_str(path),
                        enlightenment_path: String::from_str(enlightenment_path),
                        koans,
                        progress: ProgressStore::new(marker),
                    },
                )
            },
        }
    }

    /// The directory that the exercises were found under.
    pub fn path(&self) -> (r: &str)
        ensures
            r@ == self.root(),
    {
        self.path.as_str()
    }

    /// The place where the marker is kept.
    pub fn enlightenment_path(&self) -> (r: &str)
        ensures
            r@ == self.marker_path(),
    {
        self.enlightenment_path.as_str()
    }

    /// The marker as it stands.
    pub fn progress(&self) -> (r: &ProgressStore)
        ensures
            r@ == self.marker(),
    {
        &self.progress
    }

    /// All exercises, open or not.
    pub fn koans(&self) -> (r: &[Koan])
        ensures
            koan_views(r@) == self.catalog(),
            self.well_formed(),
    {
        proof {
            use_type_invariant(self);
        }
        self.koans.as_slice()
    }

    /// Takes the text of the marker anew, as it was read again from where it
    /// is kept.
    pub fn reload(&mut self, marker: String)
        ensures
            final(self).marker() == marker@,
            final(self).catalog() == old(self).catalog(),
            final(self).root() == old(self).root(),
            final(self).marker_path() == old(self).marker_path(),
    {
        proof {
            use_type_invariant(&*self);
        }
        self.progress = ProgressStore::new(marker);
    }

    /// The number of records in the marker.
    pub fn n_opened(&self) -> (count: usize)
        ensures
            count == self.unlocked(),
    {
        self.progress.count_unlocked()
    }

    /// The exercises that are open: the first of the catalog, one for each
    /// record in the marker.
    pub fn opened(&self) -> (r: &[Koan])
        ensures
            koan_views(r@) == self.catalog().take(self.open_count() as int),
    {
        let count = self.n_opened();
        let end = if count < self.koans.len() {
            count
        } else {
            self.koans.len()
        };
        slice_subrange(self.koans.as_slice(), 0, end)
    }

    /// The exercise to open next, unless all are open.
    pub fn next(&self) -> (r: Option<&Koan>)
        ensures
            match r {
                Some(koan) => self.unlocked() < self.catalog().len() && koan@
                    == self.catalog()[self.unlocked() as int],
                None => self.unlocked() >= self.catalog().len(),
            },
    {
        let count = self.n_opened();
        if count < self.koans.len() {
            Some(&self.koans[count])
        } else {
            None
        }
    }

    /// Opens the next exercise: adds its record to the marker and returns
    /// it. Where all exercises are open, nothing changes.
    pub fn open_next(&mut self) -> (r: Result<&Koan, ()>)
        ensures
            final(self).catalog() == old(self).catalog(),
            final(self).root() == old(self).root(),
            final(self).marker_path() == old(self).marker_path(),
            match r {
                Ok(koan) => {
                    &&& old(self).unlocked() < old(self).catalog().len()
                    &&& koan@ == old(self).catalog()[old(self).unlocked() as int]
                    &&& final(self).marker() == old(self).marker() + line_of(
                        koan@.qualified_name(),
                    )
                    &&& final(self).unlocked() == old(self).unlocked() + if terminated(
                        old(self).marker(),
                    ) {
                        1nat
                    } else {
                        0nat
                    }
                    &&& terminated(old(self).marker()) ==> records(final(self).marker())
                        == records(old(self).marker()).push(koan@.qualified_name())
                },
                Err(_) => {
                    &&& old(self).unlocked() >= old(self).catalog().len()
                    &&& final(self).marker() == old(self).marker()
                },
            },
    {
        proof {
            use_type_invariant(&*self);
        }
        let count = self.n_opened();
        if count < self.koans.len() {
            let record = self.koans[count].qualified_name();
            proof {
                assert(self.koans@[count as int]@ == koan_views(self.koans@)[count as int]);
                lemma_append_counts(self.progress@, record@);
                if terminated(self.progress@) {
                    lemma_append_adds_one_record(self.progress@, record@);
                }
            }
            let mut progress = ProgressStore::new(String::new());
            std::mem::swap(&mut self.progress, &mut progress);
            progress.append_unlock(record.as_str());
            self.progress = progress;
            Ok(&self.koans[count])
        } else {
            Err(())
        }
    }
}

} // verus!
