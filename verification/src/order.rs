//! The order of the catalog: pairs of names, compared as texts.

use crate::text::{le, precedes};
use crate::text::{
    lemma_precedes_antisymmetric, lemma_precedes_reflexive, lemma_precedes_total,
    lemma_precedes_transitive,
};
use vstd::prelude::*;
use vstd::relations::{sorted_by, total_ordering};
use vstd::seq_lib::{lemma_sorted_unique, to_multiset_insert};

verus! {

/// The name of a directory and the name of a file in it.
pub type Names = (Seq<char>, Seq<char>);

/// The order of the catalog: by the directory's name, and within one
/// directory by the file's name.
pub open spec fn names_precede(x: Names, y: Names) -> bool {
    if x.0 == y.0 {
        precedes(x.1, y.1)
    } else {
        precedes(x.0, y.0)
    }
}

/// The order of the catalog as a relation.
pub open spec fn catalog_order() -> spec_fn(Names, Names) -> bool {
    |x: Names, y: Names| names_precede(x, y)
}

/// The order of the catalog is total: it compares any two pairs of names,
/// and only equal pairs both ways.
pub proof fn lemma_catalog_order_total()
    ensures
        total_ordering(catalog_order()),
{
    let order = catalog_order();
    assert forall|x: Names| #[trigger] order(x, x) by {
        lemma_precedes_reflexive(x.1);
    }
    assert forall|x: Names, y: Names| #[trigger] order(x, y) && #[trigger] order(y, x) implies x
        == y by {
        if x.0 == y.0 {
            lemma_precedes_antisymmetric(x.1, y.1);
        } else {
            lemma_precedes_antisymmetric(x.0, y.0);
        }
    }
    assert forall|x: Names, y: Names, z: Names| #[trigger]
        order(x, y) && #[trigger] order(y, z) implies order(x, z) by {
        if x.0 == y.0 && y.0 == z.0 {
            lemma_precedes_transitive(x.1, y.1, z.1);
        } else if x.0 == y.0 || y.0 == z.0 {
            if x.0 == z.0 {
                lemma_precedes_antisymmetric(x.0, y.0);
            }
        } else {
            lemma_precedes_transitive(x.0, y.0, z.0);
            if x.0 == z.0 {
                lemma_precedes_antisymmetric(x.0, y.0);
            }
        }
    }
    assert forall|x: Names, y: Names| #[trigger] order(x, y) || #[trigger] order(y, x) by {
        lemma_precedes_total(x.0, y.0);
        lemma_precedes_total(x.1, y.1);
    }
}

/// The pairs of `names` in the order of the catalog.
pub open spec fn in_order(names: Seq<Names>) -> Seq<Names> {
    names.sort_by(catalog_order())
}

/// The ordered pairs are the given pairs, each as often as it was given, and
/// each comes before those that follow it.
pub proof fn lemma_in_order(names: Seq<Names>)
    ensures
        sorted_by(in_order(names), catalog_order()),
        in_order(names).to_multiset() == names.to_multiset(),
        in_order(names).len() == names.len(),
{
    lemma_catalog_order_total();
    names.lemma_sort_by_ensures(catalog_order());
    vstd::seq_lib::to_multiset_len(names);
    vstd::seq_lib::to_multiset_len(in_order(names));
}

/// Only one arrangement of the given pairs is in order.
pub proof fn lemma_in_order_unique(names: Seq<Names>, arranged: Seq<Names>)
    requires
        sorted_by(arranged, catalog_order()),
        arranged.to_multiset() == names.to_multiset(),
    ensures
        arranged == in_order(names),
{
    lemma_in_order(names);
    lemma_catalog_order_total();
    lemma_sorted_unique(arranged, in_order(names), catalog_order());
}

/// The order of the catalog does not depend on the order in which the
/// pairs were found.
pub proof fn lemma_in_order_ignores_arrangement(names: Seq<Names>, shuffled: Seq<Names>)
    requires
        names.to_multiset() == shuffled.to_multiset(),
    ensures
        in_order(names) == in_order(shuffled),
{
    lemma_in_order(shuffled);
    lemma_in_order_unique(names, in_order(shuffled));
}

/// Tells whether the pair `x` comes before the pair `y` in the catalog, or
/// equals it.
pub fn names_le(x: &(String, String), y: &(String, String)) -> (r: bool)
    ensures
        r == names_precede(x.deep_view(), y.deep_view()),
{
    if x.0 == y.0 {
        le(x.1.as_str(), y.1.as_str())
    } else {
        le(x.0.as_str(), y.0.as_str())
    }
}

/// Puts the pairs in the order of the catalog: the result holds the given
/// pairs, each as often as it was given, and each comes before those that
/// follow it.
pub fn sort(names: Vec<(String, String)>) -> (sorted: Vec<(String, String)>)
    ensures
        sorted.deep_view() == in_order(names.deep_view()),
        sorted_by(sorted.deep_view(), catalog_order()),
        sorted.deep_view().to_multiset() == names.deep_view().to_multiset(),
{
    let ghost given = names.deep_view();
    let mut rest = names;
    let mut sorted: Vec<(String, String)> = Vec::new();
    proof {
        lemma_catalog_order_total();
        sorted.deep_view().to_multiset_ensures();
    }
    while rest.len() > 0
        invariant
            total_ordering(catalog_order()),
            sorted_by(sorted.deep_view(), catalog_order()),
            rest.deep_view().to_multiset().add(sorted.deep_view().to_multiset())
                == given.to_multiset(),
        decreases rest.len(),
    {
        let ghost before = rest.deep_view();
        let ghost placed = sorted.deep_view();
        let item = rest.pop().unwrap();
        let ghost key = item.deep_view();
        proof {
            assert(before =~= rest.deep_view().push(key));
            vstd::seq_lib::to_multiset_build(rest.deep_view(), key);
        }
        let mut at: usize = 0;
        while at < sorted.len() && names_le(&sorted[at], &item)
            invariant
                at <= sorted.len(),
                placed == sorted.deep_view(),
                key == item.deep_view(),
                forall|i: int| 0 <= i < at ==> names_precede(#[trigger] placed[i], key),
            decreases sorted.len() - at,
        {
            at = at + 1;
        }
        sorted.insert(at, item);
        proof {
            let order = catalog_order();
            let after = sorted.deep_view();
            assert(after =~= placed.insert(at as int, key));
            to_multiset_insert(placed, at as int, key);
            assert forall|i: int, j: int| 0 <= i < j < after.len() implies #[trigger] order(
                after[i],
                after[j],
            ) by {
                if i == at {
                    let displaced = placed[at as int];
                    assert(order(displaced, key) || order(key, displaced));
                    assert(order(key, displaced) && order(displaced, placed[j - 1]) ==> order(
                        key,
                        placed[j - 1],
                    ));
                }
            }
        }
    }
    proof {
        rest.deep_view().to_multiset_ensures();
        assert(sorted.deep_view().to_multiset() =~= given.to_multiset());
        lemma_in_order_unique(given, sorted.deep_view());
    }
    sorted
}

} // verus!
