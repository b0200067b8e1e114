//! The item-matching engine: scoring items against free-text search terms.
//!
//! An item matches a list of terms when every term, case-insensitively,
//! occurs as a substring of the item's display name or of its path; each
//! term may hit either field on its own.

use vstd::prelude::*;
use crate::text::lower_of;
use crate::text::lowercase;
use crate::text::seq_contains;
use crate::text::str_contains;

verus! {

/// A recent project of a JetBrains product: a display name and the project
/// directory, as a UTF-8 path.
pub struct RecentItem {
    /// The human readable name.
    pub name: String,
    /// The project directory.
    pub path: String,
}

/// One term hits an item when its lowercase form occurs in the lowercase
/// display name or in the lowercase path.
pub open spec fn term_matches(name: Seq<char>, path: Seq<char>, term: Seq<char>) -> bool {
    seq_contains(lower_of(name), lower_of(term)) || seq_contains(lower_of(path), lower_of(term))
}

/// An item matches when every term hits it; an empty term list matches
/// every item.
pub open spec fn item_matches(item: RecentItem, terms: Seq<String>) -> bool {
    forall|i: int| 0 <= i < terms.len() ==> term_matches(item.name@, item.path@, #[trigger] terms[i]@)
}

/// The identifiers of the entries whose item matches all of `terms`, in
/// entry order.
pub open spec fn matching_ids(entries: Seq<(String, RecentItem)>, terms: Seq<String>) -> Seq<
    Seq<char>,
>
    decreases entries.len(),
{
    if entries.len() == 0 {
        Seq::empty()
    } else {
        let prior = matching_ids(entries.drop_last(), terms);
        if item_matches(entries.last().1, terms) {
            prior.push(entries.last().0@)
        } else {
            prior
        }
    }
}

/// Whether `item` satisfies every term in `terms`.
pub fn matches_all_terms(item: &RecentItem, terms: &Vec<String>) -> (r: bool)
    ensures
        r == item_matches(*item, terms@),
{
    let lower_name = lowercase(item.name.as_str());
    let lower_path = lowercase(item.path.as_str());
    let mut k: usize = 0;
    while k < terms.len()
        invariant
            k <= terms.len(),
            lower_name@ == lower_of(item.name@),
            lower_path@ == lower_of(item.path@),
            forall|i: int|
                0 <= i < k ==> term_matches(item.name@, item.path@, #[trigger] terms@[i]@),
        decreases terms.len() - k,
    {
        let lower_term = lowercase(terms[k].as_str());
        let hit = str_contains(lower_name.as_str(), lower_term.as_str()) || str_contains(
            lower_path.as_str(),
            lower_term.as_str(),
        );
        if !hit {
            assert(!term_matches(item.name@, item.path@, terms@[k as int]@));
            return false;
        }
        k += 1;
    }
    true
}

/// Find all entries of `projects` which match the given `terms`.
///
/// `projects` is a sequence of `(id, project)` pairs. For each project the
/// terms are matched against the name and the path, and the ids of all
/// matching projects are returned, in the input order.
pub fn find_matching_projects(projects: &Vec<(String, RecentItem)>, terms: &Vec<String>) -> (r:
    Vec<String>)
    ensures
        r.deep_view() == matching_ids(projects@, terms@),
{
    let mut ids: Vec<String> = Vec::new();
    let mut idx: usize = 0;
    proof {
        assert(projects@.take(0) =~= Seq::<(String, RecentItem)>::empty());
        assert(ids.deep_view() =~= matching_ids(projects@.take(0), terms@));
    }
    while idx < projects.len()
        invariant
            idx <= projects.len(),
            ids.deep_view() == matching_ids(projects@.take(idx as int), terms@),
        decreases projects.len() - idx,
    {
        let ghost prev = ids.deep_view();
        if matches_all_terms(&projects[idx].1, terms) {
            ids.push(projects[idx].0.clone());
            proof {
                assert(ids.deep_view() =~= prev.push(projects@[idx as int].0@));
            }
        }
        proof {
            assert(projects@.take(idx + 1).drop_last() =~= projects@.take(idx as int));
            assert(projects@.take(idx + 1).last() == projects@[idx as int]);
        }
        idx += 1;
    }
    proof {
        assert(projects@.take(projects@.len() as int) =~= projects@);
    }
    ids
}

} // verus!
