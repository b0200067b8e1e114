//! Provider state and the search-protocol adapter.
//!
//! Each provider owns the item index of one application: an ordered mapping
//! from result identifier to recent item, rebuilt wholesale on every initial
//! search and read by every other call.

use vstd::prelude::*;
use crate::matching::find_matching_projects;
use crate::matching::item_matches;
use crate::matching::matches_all_terms;
use crate::matching::matching_ids;
use crate::matching::RecentItem;
use crate::text::last_segment;
use crate::text::last_segment_str;
use crate::text::str_eq;
use crate::text::trim_spec;
use crate::text::trim_str;
use vstd::string::StringExecFns;

verus! {

/// An error surfaced to the protocol caller.
#[derive(Debug)]
pub enum ProviderError {
    /// The operation could not be carried out; the message names the cause.
    OperationFailed(String),
    /// The requested result identifier is not known.
    NotFound(String),
}

/// One recent project handed to a refresh: the project path and, if the
/// project carries a name marker file, that file's contents.
pub struct ProjectEntry {
    /// The project directory, as a UTF-8 path.
    pub path: String,
    /// The contents of the project's name marker file, when one could be
    /// read.
    pub marker: Option<String>,
}

/// The outcome of locating and reading the recent projects record, which
/// involves the filesystem and is done by the caller around this library's
/// record reader.
pub enum LoadOutcome {
    /// No versioned configuration directory or no record file was found.
    Missing,
    /// The record was read; its projects, in record order.
    Loaded(Vec<ProjectEntry>),
    /// Reading or parsing the record failed; the message names the cause.
    Failed(String),
}

/// The display name of a project: the trimmed marker file contents when a
/// marker was read, else the last segment of the project path.
pub open spec fn project_name_of(path: Seq<char>, marker: Option<Seq<char>>) -> Option<Seq<char>> {
    match marker {
        Some(m) => Some(trim_spec(m)),
        None => last_segment(path),
    }
}

/// The display name for the project at `path`, given the contents of its
/// name marker file if one was readable.
pub fn get_project_name(path: &str, marker: Option<&String>) -> (r: Option<String>)
    ensures
        ({
            let mv = match marker {
                Some(m) => Some(m@),
                None => None,
            };
            match r {
                Some(n) => project_name_of(path@, mv) == Some(n@),
                None => project_name_of(path@, mv) is None,
            }
        }),
{
    match marker {
        Some(m) => Some(trim_str(m.as_str())),
        None => last_segment_str(path),
    }
}

/// The stable identifier of one item: a prefix naming this service, the
/// application identifier, and the item's path.
pub open spec fn id_of(app_id: Seq<char>, path: Seq<char>) -> Seq<char> {
    "jetbrains-search-provider-"@ + app_id + "-"@ + path
}

/// Build the identifier for the item at `path` of application `app_id`.
pub fn make_id(app_id: &str, path: &str) -> (r: String)
    ensures
        r@ == id_of(app_id@, path@),
{
    let mut id = String::new();
    id.append("jetbrains-search-provider-");
    id.append(app_id);
    id.append("-");
    id.append(path);
    id
}

/// The index at view level: identifier, then name and path of the item.
pub open spec fn index_view(entries: Seq<(String, RecentItem)>) -> Seq<
    (Seq<char>, (Seq<char>, Seq<char>)),
> {
    entries.map_values(|p: (String, RecentItem)| (p.0@, (p.1.name@, p.1.path@)))
}

/// No two entries share a key.
pub open spec fn keys_unique(entries: Seq<(Seq<char>, (Seq<char>, Seq<char>))>) -> bool {
    forall|i: int, j: int|
        0 <= i < j < entries.len() ==> (#[trigger] entries[i]).0 != (#[trigger] entries[j]).0
}

/// The position of the first entry keyed `key`, or a negative number if
/// there is none.
pub open spec fn key_pos(entries: Seq<(Seq<char>, (Seq<char>, Seq<char>))>, key: Seq<char>) -> int
    decreases entries.len(),
{
    if entries.len() == 0 {
        -1
    } else if entries[0].0 == key {
        0
    } else {
        let p = key_pos(entries.drop_first(), key);
        if p < 0 {
            -1
        } else {
            p + 1
        }
    }
}

/// `entries` with `value` stored under `key`: in place when the key is
/// already present, appended otherwise.
pub open spec fn upsert(
    entries: Seq<(Seq<char>, (Seq<char>, Seq<char>))>,
    key: Seq<char>,
    value: (Seq<char>, Seq<char>),
) -> Seq<(Seq<char>, (Seq<char>, Seq<char>))> {
    let p = key_pos(entries, key);
    if p < 0 {
        entries.push((key, value))
    } else {
        entries.update(p, (key, value))
    }
}

/// The index built from `entries` for application `app_id`: each project
/// with a derivable name, keyed by its identifier, later duplicates
/// overwriting earlier ones in place.
pub open spec fn built_index(app_id: Seq<char>, entries: Seq<ProjectEntry>) -> Seq<
    (Seq<char>, (Seq<char>, Seq<char>)),
>
    decreases entries.len(),
{
    if entries.len() == 0 {
        Seq::empty()
    } else {
        let prior = built_index(app_id, entries.drop_last());
        let e = entries.last();
        let mv = match e.marker {
            Some(m) => Some(m@),
            None => None,
        };
        match project_name_of(e.path@, mv) {
            Some(name) => upsert(prior, id_of(app_id, e.path@), (name, e.path@)),
            None => prior,
        }
    }
}

/// A key that first appears at `j` has position `j`.
proof fn lemma_key_pos_first(
    entries: Seq<(Seq<char>, (Seq<char>, Seq<char>))>,
    key: Seq<char>,
    j: int,
)
    requires
        0 <= j < entries.len(),
        entries[j].0 == key,
        forall|t: int| 0 <= t < j ==> (#[trigger] entries[t]).0 != key,
    ensures
        key_pos(entries, key) == j,
    decreases j,
{
    if j > 0 {
        lemma_key_pos_first(entries.drop_first(), key, j - 1);
    }
}

/// A key that appears nowhere has no position.
proof fn lemma_key_pos_none(entries: Seq<(Seq<char>, (Seq<char>, Seq<char>))>, key: Seq<char>)
    requires
        forall|t: int| 0 <= t < entries.len() ==> (#[trigger] entries[t]).0 != key,
    ensures
        key_pos(entries, key) < 0,
    decreases entries.len(),
{
    if entries.len() > 0 {
        lemma_key_pos_none(entries.drop_first(), key);
    }
}

/// Store `item` under `id` in `index`: overwrite the entry with that key in
/// place, or append a new entry.
fn upsert_entry(index: &mut Vec<(String, RecentItem)>, id: String, item: RecentItem)
    ensures
        index_view(final(index)@) == upsert(
            index_view(old(index)@),
            id@,
            (item.name@, item.path@),
        ),
        keys_unique(index_view(old(index)@)) ==> keys_unique(index_view(final(index)@)),
{
    let ghost v0 = index_view(index@);
    let mut j: usize = 0;
    while j < index.len()
        invariant
            j <= index@.len(),
            v0 == index_view(index@),
            v0 == index_view(old(index)@),
            forall|t: int| 0 <= t < j ==> (#[trigger] v0[t]).0 != id@,
        decreases index@.len() - j,
    {
        if str_eq(index[j].0.as_str(), id.as_str()) {
            proof {
                assert(v0[j as int].0 == id@);
                lemma_key_pos_first(v0, id@, j as int);
            }
            index.set(j, (id, item));
            proof {
                assert(index_view(index@) =~= v0.update(j as int, (id@, (item.name@, item.path@))));
                assert(forall|t: int|
                    0 <= t < v0.len() ==> (#[trigger] index_view(index@)[t]).0 == v0[t].0);
                assert(keys_unique(v0) ==> keys_unique(index_view(index@)));
            }
            return ;
        }
        j += 1;
    }
    proof {
        lemma_key_pos_none(v0, id@);
    }
    index.push((id, item));
    proof {
        assert(index_view(index@) =~= v0.push((id@, (item.name@, item.path@))));
    }
}

/// The item stored under `key`, read from the first entry with that key.
pub open spec fn index_find(entries: Seq<(String, RecentItem)>, key: Seq<char>) -> Option<
    RecentItem,
>
    decreases entries.len(),
{
    if entries.len() == 0 {
        None
    } else if entries[0].0@ == key {
        Some(entries[0].1)
    } else {
        index_find(entries.drop_first(), key)
    }
}

/// The members of `previous` that are still in the index and whose item
/// matches all of `terms`, in their order in `previous`.
pub open spec fn refined_ids(
    index: Seq<(String, RecentItem)>,
    previous: Seq<Seq<char>>,
    terms: Seq<String>,
) -> Seq<Seq<char>>
    decreases previous.len(),
{
    if previous.len() == 0 {
        Seq::empty()
    } else {
        let prior = refined_ids(index, previous.drop_last(), terms);
        match index_find(index, previous.last()) {
            Some(item) => if item_matches(item, terms) {
                prior.push(previous.last())
            } else {
                prior
            },
            None => prior,
        }
    }
}

/// Whether a refinement keeps `id`: it is in the index and its item
/// matches all of `terms`.
pub open spec fn keeps(index: Seq<(String, RecentItem)>, id: Seq<char>, terms: Seq<String>) -> bool {
    match index_find(index, id) {
        Some(item) => item_matches(item, terms),
        None => false,
    }
}

/// Every identifier a refinement returns is kept by that refinement's
/// filter.
proof fn lemma_refined_all_keep(
    index: Seq<(String, RecentItem)>,
    previous: Seq<Seq<char>>,
    terms: Seq<String>,
)
    ensures
        forall|t: int|
            0 <= t < refined_ids(index, previous, terms).len() ==> keeps(
                index,
                #[trigger] refined_ids(index, previous, terms)[t],
                terms,
            ),
    decreases previous.len(),
{
    if previous.len() > 0 {
        lemma_refined_all_keep(index, previous.drop_last(), terms);
        let prior = refined_ids(index, previous.drop_last(), terms);
        let whole = refined_ids(index, previous, terms);
        assert forall|t: int| 0 <= t < whole.len() implies keeps(
            index,
            #[trigger] whole[t],
            terms,
        ) by {
            if t < prior.len() {
                assert(whole[t] == prior[t]);
            } else {
                assert(whole[t] == previous.last());
            }
        }
    }
}

/// Refining a set whose members are all kept gives the set back unchanged.
proof fn lemma_refined_of_kept(
    index: Seq<(String, RecentItem)>,
    previous: Seq<Seq<char>>,
    terms: Seq<String>,
)
    requires
        forall|t: int|
            0 <= t < previous.len() ==> keeps(index, #[trigger] previous[t], terms),
    ensures
        refined_ids(index, previous, terms) == previous,
    decreases previous.len(),
{
    if previous.len() > 0 {
        assert(forall|t: int|
            0 <= t < previous.drop_last().len() ==> keeps(
                index,
                #[trigger] previous.drop_last()[t],
                terms,
            ));
        lemma_refined_of_kept(index, previous.drop_last(), terms);
        assert(keeps(index, previous[previous.len() - 1], terms));
        assert(refined_ids(index, previous, terms) =~= previous);
    }
}

/// Law: the refinement filter is idempotent. Refining a refined result set
/// once more, over the same index and with the same terms, changes
/// nothing.
pub proof fn lemma_refinement_idempotent(
    index: Seq<(String, RecentItem)>,
    previous: Seq<Seq<char>>,
    terms: Seq<String>,
)
    ensures
        refined_ids(index, refined_ids(index, previous, terms), terms) == refined_ids(
            index,
            previous,
            terms,
        ),
{
    lemma_refined_all_keep(index, previous, terms);
    lemma_refined_of_kept(index, refined_ids(index, previous, terms), terms);
}

/// A key held by no entry is not found.
proof fn lemma_find_absent(index: Seq<(String, RecentItem)>, key: Seq<char>)
    requires
        forall|j: int| 0 <= j < index.len() ==> (#[trigger] index[j]).0@ != key,
    ensures
        index_find(index, key) is None,
    decreases index.len(),
{
    if index.len() > 0 {
        lemma_find_absent(index.drop_first(), key);
    }
}

/// Finding a key after one entry was appended: the earlier entries still
/// win; the new entry is found only where the key was absent.
proof fn lemma_find_push(
    index: Seq<(String, RecentItem)>,
    entry: (String, RecentItem),
    key: Seq<char>,
)
    ensures
        index_find(index.push(entry), key) == (if index_find(index, key) is Some {
            index_find(index, key)
        } else if entry.0@ == key {
            Some(entry.1)
        } else {
            None
        }),
    decreases index.len(),
{
    if index.len() == 0 {
        assert(index.push(entry)[0] == entry);
        assert(index.push(entry).drop_first() =~= Seq::<(String, RecentItem)>::empty());
        assert(index_find(Seq::<(String, RecentItem)>::empty(), key) is None);
    } else {
        lemma_find_push(index.drop_first(), entry, key);
        assert(index.push(entry)[0] == index[0]);
        assert(index.push(entry).drop_first() =~= index.drop_first().push(entry));
        assert(index_find(index.push(entry), key) == (if index.push(entry)[0].0@ == key {
            Some(index[0].1)
        } else {
            index_find(index.drop_first().push(entry), key)
        }));
    }
}

/// In an index without duplicate keys, every identifier that the initial
/// search returns is kept by a refinement with the same terms.
proof fn lemma_matching_ids_keep(index: Seq<(String, RecentItem)>, terms: Seq<String>)
    requires
        keys_unique(index_view(index)),
    ensures
        forall|t: int|
            0 <= t < matching_ids(index, terms).len() ==> keeps(
                index,
                #[trigger] matching_ids(index, terms)[t],
                terms,
            ),
    decreases index.len(),
{
    if index.len() > 0 {
        let prior = index.drop_last();
        let last = index.last();
        assert(index_view(prior) =~= index_view(index).drop_last());
        assert(keys_unique(index_view(prior)));
        lemma_matching_ids_keep(prior, terms);
        assert(prior.push(last) =~= index);
        assert forall|t: int|
            0 <= t < matching_ids(prior, terms).len() implies keeps(
            index,
            #[trigger] matching_ids(prior, terms)[t],
            terms,
        ) by {
            lemma_find_push(prior, last, matching_ids(prior, terms)[t]);
        }
        if item_matches(last.1, terms) {
            assert forall|j: int| 0 <= j < prior.len() implies (#[trigger] prior[j]).0@
                != last.0@ by {
                assert(index_view(index)[j].0 == prior[j].0@);
                assert(index_view(index)[index.len() - 1].0 == last.0@);
            }
            lemma_find_absent(prior, last.0@);
            lemma_find_push(prior, last, last.0@);
            assert(keeps(index, last.0@, terms));
        }
    }
}

/// Law: refining the result set of an initial search, over the same index
/// and with the same terms, gives the same result set back.
pub proof fn lemma_refine_initial_results(index: Seq<(String, RecentItem)>, terms: Seq<String>)
    requires
        keys_unique(index_view(index)),
    ensures
        refined_ids(index, matching_ids(index, terms), terms) == matching_ids(index, terms),
{
    lemma_matching_ids_keep(index, terms);
    lemma_refined_of_kept(index, matching_ids(index, terms), terms);
}

/// Metadata of one search result, handed back for display.
pub struct ResultMeta {
    /// The result identifier.
    pub id: String,
    /// The item's display name.
    pub name: String,
    /// The textual representation of the application's icon.
    pub gicon: String,
    /// The item's path, shown as description.
    pub description: String,
}

/// The fields of each metadata record, as sequences of characters.
pub open spec fn meta_views(metas: Seq<ResultMeta>) -> Seq<
    (Seq<char>, Seq<char>, Seq<char>, Seq<char>),
> {
    metas.map_values(|m: ResultMeta| (m.id@, m.name@, m.gicon@, m.description@))
}

/// The metadata for the members of `ids` present in the index, in their
/// order in `ids`; absent identifiers are passed over.
pub open spec fn metas_of(
    index: Seq<(String, RecentItem)>,
    gicon: Seq<char>,
    ids: Seq<Seq<char>>,
) -> Seq<(Seq<char>, Seq<char>, Seq<char>, Seq<char>)>
    decreases ids.len(),
{
    if ids.len() == 0 {
        Seq::empty()
    } else {
        let prior = metas_of(index, gicon, ids.drop_last());
        match index_find(index, ids.last()) {
            Some(item) => prior.push((ids.last(), item.name@, gicon, item.path@)),
            None => prior,
        }
    }
}

/// The message surfaced when a refresh fails.
pub open spec fn refresh_failure_message(app_id: Seq<char>, cause: Seq<char>) -> Seq<char> {
    "Failed to update recent projects for "@ + app_id + ": "@ + cause
}

/// The message surfaced when an identifier is not known.
pub open spec fn not_found_message(id: Seq<char>) -> Seq<char> {
    "Result "@ + id + " not found"@
}

/// A search provider for one JetBrains application: the sole owner of that
/// application's item index.
pub struct SearchProvider {
    /// The application identifier, part of every result identifier.
    pub app_id: String,
    /// The textual icon representation handed out with result metadata.
    pub gicon: String,
    /// All known recent projects, keyed by result identifier, in insertion
    /// order.
    pub index: Vec<(String, RecentItem)>,
}

impl SearchProvider {
    /// The index never holds two entries with one key.
    pub open spec fn wf(self) -> bool {
        keys_unique(index_view(self.index@))
    }

    /// A provider with an empty index.
    pub fn new(app_id: String, gicon: String) -> (r: SearchProvider)
        ensures
            r.app_id == app_id,
            r.gicon == gicon,
            r.index@ == Seq::<(String, RecentItem)>::empty(),
            r.wf(),
    {
        let r = SearchProvider { app_id, gicon, index: Vec::new() };
        proof {
            assert(index_view(r.index@) =~= Seq::<(Seq<char>, (Seq<char>, Seq<char>))>::empty());
            assert(r.index@ =~= Seq::<(String, RecentItem)>::empty());
        }
        r
    }

    /// Update recent projects.
    ///
    /// Clears the index and rebuilds it from the outcome of reading the
    /// recent projects record. On a failed read the index stays empty and
    /// the error is surfaced: a failed refresh never serves stale results.
    pub fn update_recent_projects(&mut self, outcome: LoadOutcome) -> (r: Result<
        (),
        ProviderError,
    >)
        ensures
            final(self).app_id == old(self).app_id,
            final(self).gicon == old(self).gicon,
            final(self).wf(),
            match outcome {
                LoadOutcome::Missing => final(self).index@.len() == 0 && r is Ok,
                LoadOutcome::Loaded(entries) => r is Ok && index_view(final(self).index@)
                    == built_index(old(self).app_id@, entries@),
                LoadOutcome::Failed(cause) => final(self).index@.len() == 0 && (r matches Err(
                    ProviderError::OperationFailed(m),
                ) && m@ == refresh_failure_message(old(self).app_id@, cause@)),
            },
    {
        self.index = Vec::new();
        proof {
            assert(index_view(self.index@) =~= Seq::<(Seq<char>, (Seq<char>, Seq<char>))>::empty());
        }
        match outcome {
            LoadOutcome::Missing => Ok(()),
            LoadOutcome::Failed(cause) => {
                let mut message = String::new();
                message.append("Failed to update recent projects for ");
                message.append(self.app_id.as_str());
                message.append(": ");
                message.append(cause.as_str());
                Err(ProviderError::OperationFailed(message))
            },
            LoadOutcome::Loaded(entries) => {
                let mut i: usize = 0;
                proof {
                    assert(entries@.take(0) =~= Seq::<ProjectEntry>::empty());
                }
                while i < entries.len()
                    invariant
                        i <= entries@.len(),
                        self.app_id == old(self).app_id,
                        self.gicon == old(self).gicon,
                        index_view(self.index@) == built_index(
                            old(self).app_id@,
                            entries@.take(i as int),
                        ),
                        keys_unique(index_view(self.index@)),
                    decreases entries@.len() - i,
                {
                    let entry = &entries[i];
                    match get_project_name(entry.path.as_str(), entry.marker.as_ref()) {
                        Some(name) => {
                            let id = make_id(self.app_id.as_str(), entry.path.as_str());
                            let item = RecentItem { name, path: entry.path.clone() };
                            upsert_entry(&mut self.index, id, item);
                        },
                        None => {},
                    }
                    proof {
                        assert(entries@.take(i + 1).drop_last() =~= entries@.take(i as int));
                        assert(entries@.take(i + 1).last() == entries@[i as int]);
                    }
                    i += 1;
                }
                proof {
                    assert(entries@.take(entries@.len() as int) =~= entries@);
                }
                Ok(())
            },
        }
    }

    /// Start a search: refresh the index from `outcome`, then return the
    /// identifiers of the items matching `terms`, in index order. A failed
    /// refresh surfaces an operation-failed error and leaves the index
    /// empty.
    pub fn get_initial_result_set(&mut self, outcome: LoadOutcome, terms: &Vec<String>) -> (r:
        Result<Vec<String>, ProviderError>)
        ensures
            final(self).app_id == old(self).app_id,
            final(self).gicon == old(self).gicon,
            final(self).wf(),
            match outcome {
                LoadOutcome::Missing => final(self).index@.len() == 0 && r is Ok,
                LoadOutcome::Loaded(entries) => r is Ok && index_view(final(self).index@)
                    == built_index(old(self).app_id@, entries@),
                LoadOutcome::Failed(cause) => final(self).index@.len() == 0 && (r matches Err(
                    ProviderError::OperationFailed(m),
                ) && m@ == refresh_failure_message(old(self).app_id@, cause@)),
            },
            r is Ok ==> r->Ok_0.deep_view() == matching_ids(final(self).index@, terms@),
    {
        match self.update_recent_projects(outcome) {
            Err(error) => Err(error),
            Ok(_) => Ok(find_matching_projects(&self.index, terms)),
        }
    }

    /// The item stored under `id`, if any. Absence is not an error at this
    /// layer.
    pub fn lookup(&self, id: &str) -> (r: Option<&RecentItem>)
        ensures
            match r {
                Some(item) => index_find(self.index@, id@) == Some(*item),
                None => index_find(self.index@, id@) is None,
            },
    {
        let mut i: usize = 0;
        proof {
            assert(self.index@.skip(0) =~= self.index@);
        }
        while i < self.index.len()
            invariant
                i <= self.index@.len(),
                index_find(self.index@, id@) == index_find(self.index@.skip(i as int), id@),
            decreases self.index@.len() - i,
        {
            if str_eq(self.index[i].0.as_str(), id) {
                return Some(&self.index[i].1);
            }
            proof {
                assert(self.index@.skip(i as int).drop_first() =~= self.index@.skip(i + 1));
            }
            i += 1;
        }
        None
    }

    /// Refine an ongoing search: keep, of the previously returned
    /// identifiers, those still present in the index whose item matches all
    /// of `terms`. The index is not refreshed, and this never errors.
    pub fn get_subsearch_result_set(&self, previous_results: &Vec<String>, terms: &Vec<String>) -> (r:
        Vec<String>)
        ensures
            r.deep_view() == refined_ids(self.index@, previous_results.deep_view(), terms@),
    {
        let ghost prev_views = previous_results.deep_view();
        let mut ids: Vec<String> = Vec::new();
        let mut i: usize = 0;
        proof {
            assert(prev_views.take(0) =~= Seq::<Seq<char>>::empty());
            assert(ids.deep_view() =~= refined_ids(self.index@, prev_views.take(0), terms@));
        }
        while i < previous_results.len()
            invariant
                i <= previous_results@.len(),
                prev_views == previous_results.deep_view(),
                prev_views.len() == previous_results@.len(),
                ids.deep_view() == refined_ids(self.index@, prev_views.take(i as int), terms@),
            decreases previous_results@.len() - i,
        {
            let ghost before = ids.deep_view();
            proof {
                assert(prev_views[i as int] == previous_results@[i as int]@);
            }
            match self.lookup(previous_results[i].as_str()) {
                Some(item) => {
                    if matches_all_terms(item, terms) {
                        ids.push(previous_results[i].clone());
                        proof {
                            assert(ids.deep_view() =~= before.push(prev_views[i as int]));
                        }
                    }
                },
                None => {},
            }
            proof {
                assert(prev_views.take(i + 1).drop_last() =~= prev_views.take(i as int));
                assert(prev_views.take(i + 1).last() == prev_views[i as int]);
            }
            i += 1;
        }
        proof {
            assert(prev_views.take(prev_views.len() as int) =~= prev_views);
        }
        ids
    }

    /// Metadata for the given results: one record per identifier present in
    /// the index, in input order; stale identifiers are silently dropped.
    pub fn get_result_metas(&self, results: &Vec<String>) -> (r: Vec<ResultMeta>)
        ensures
            meta_views(r@) == metas_of(self.index@, self.gicon@, results.deep_view()),
    {
        let ghost id_views = results.deep_view();
        let mut metas: Vec<ResultMeta> = Vec::new();
        let mut i: usize = 0;
        proof {
            assert(id_views.take(0) =~= Seq::<Seq<char>>::empty());
            assert(meta_views(metas@) =~= metas_of(self.index@, self.gicon@, id_views.take(0)));
        }
        while i < results.len()
            invariant
                i <= results@.len(),
                id_views == results.deep_view(),
                id_views.len() == results@.len(),
                meta_views(metas@) == metas_of(self.index@, self.gicon@, id_views.take(i as int)),
            decreases results@.len() - i,
        {
            let ghost before = meta_views(metas@);
            proof {
                assert(id_views[i as int] == results@[i as int]@);
            }
            match self.lookup(results[i].as_str()) {
                Some(item) => {
                    let meta = ResultMeta {
                        id: results[i].clone(),
                        name: item.name.clone(),
                        gicon: self.gicon.clone(),
                        description: item.path.clone(),
                    };
                    metas.push(meta);
                    proof {
                        assert(meta_views(metas@) =~= before.push(
                            (
                                id_views[i as int],
                                index_find(self.index@, id_views[i as int])->Some_0.name@,
                                self.gicon@,
                                index_find(self.index@, id_views[i as int])->Some_0.path@,
                            ),
                        ));
                    }
                },
                None => {},
            }
            proof {
                assert(id_views.take(i + 1).drop_last() =~= id_views.take(i as int));
                assert(id_views.take(i + 1).last() == id_views[i as int]);
            }
            i += 1;
        }
        proof {
            assert(id_views.take(id_views.len() as int) =~= id_views);
        }
        metas
    }

    /// Activate a result: hand back the path of the item stored under `id`,
    /// to be opened by the application; an unknown identifier is a
    /// not-found error.
    pub fn activate_result(&self, id: &str) -> (r: Result<String, ProviderError>)
        ensures
            match index_find(self.index@, id@) {
                Some(item) => r matches Ok(p) && p@ == item.path@,
                None => r matches Err(ProviderError::NotFound(m)) && m@ == not_found_message(id@),
            },
    {
        match self.lookup(id) {
            Some(item) => Ok(item.path.clone()),
            None => {
                let mut message = String::new();
                message.append("Result ");
                message.append(id);
                message.append(" not found");
                Err(ProviderError::NotFound(message))
            },
        }
    }
}

} // verus!
