//! Which source files are redundant, and what a run does about them.

use vstd::prelude::*;
use crate::index::{
    bucket_views, file_of, files_with_key, first_keys, grouped, has_key, lemma_first_keys,
    lemma_grouped_buckets, occurs, under_key, DirectoryIndex,
};
use crate::listing::{entry_key, keyed_files, lemma_keyed_files, ListedEntry};

verus! {

/// The keys under which the buckets stand.
pub open spec fn key_set<P>(buckets: Seq<(Seq<char>, Seq<P>)>) -> Set<Seq<char>> {
    Set::new(|key: Seq<char>| has_key(buckets, key))
}

/// The test that picks the buckets whose key is one of `keys`.
pub open spec fn matched<P>(keys: Set<Seq<char>>) -> spec_fn((Seq<char>, Seq<P>)) -> bool {
    |bucket: (Seq<char>, Seq<P>)| keys.contains(bucket.0)
}

/// The projection of a bucket to its files.
pub open spec fn files_in<P>() -> spec_fn((Seq<char>, Seq<P>)) -> Seq<P> {
    |bucket: (Seq<char>, Seq<P>)| bucket.1
}

/// The files to delete: all files of every source bucket whose key is one
/// of `keys`, bucket after bucket in the order of `source`, the files of one
/// bucket together and in their order.
pub open spec fn candidates_of<P>(keys: Set<Seq<char>>, source: Seq<(Seq<char>, Seq<P>)>) -> Seq<P> {
    source.filter(matched(keys)).map_values(files_in()).flatten()
}

/// The candidates after one more source bucket: its files follow where its
/// key is one of `keys`, and nothing changes where it is not.
pub proof fn lemma_candidates_push<P>(
    keys: Set<Seq<char>>,
    source: Seq<(Seq<char>, Seq<P>)>,
    bucket: (Seq<char>, Seq<P>),
)
    ensures
        candidates_of(keys, source.push(bucket)) == if keys.contains(bucket.0) {
            candidates_of(keys, source) + bucket.1
        } else {
            candidates_of(keys, source)
        },
{
    source.lemma_filter_push(bucket, matched(keys));
    if keys.contains(bucket.0) {
        let kept = source.filter(matched(keys));
        kept.lemma_push_map_commute(files_in(), bucket);
        kept.map_values(files_in()).lemma_flatten_push(bucket.1);
    }
}

/// Selects the files to delete: every file of `source` whose key also
/// stands in `destination`, however many files stand under it there.
pub fn deletion_candidates<P, Q>(destination: &DirectoryIndex<Q>, source: DirectoryIndex<P>) -> (candidates:
    Vec<P>)
    ensures
        candidates@ == candidates_of(key_set(destination@), source@),
{
    let ghost keys = key_set(destination@);
    let ghost all = source@;
    let buckets = source.into_buckets();
    let mut candidates: Vec<P> = Vec::new();
    assert(candidates@ =~= candidates_of(keys, all.take(0))) by {
        reveal(Seq::filter);
        assert(all.take(0).filter(matched(keys)) =~= Seq::empty());
    }
    for bucket in it: buckets
        invariant
            keys == key_set(destination@),
            all == bucket_views(it.seq()),
            candidates@ == candidates_of(keys, all.take(it.index())),
    {
        let ghost done = all.take(it.index());
        let (key, mut files) = bucket;
        proof {
            lemma_candidates_push(keys, done, (key@, files@));
            assert(done.push((key@, files@)) =~= all.take(it.index() + 1));
        }
        if destination.contains_key(key.as_str()) {
            candidates.append(&mut files);
        }
    }
    assert(all.take(all.len() as int) =~= all);
    candidates
}

/// What a run is to do with the candidates it found.
#[derive(Debug, PartialEq, Eq)]
pub enum Plan<P> {
    /// A dry run: the candidates are listed and no file is touched.
    Report(Vec<P>),
    /// A live run: every candidate is to be removed.
    Delete(Vec<P>),
}

impl<P> Plan<P> {
    /// The candidates that the run found.
    pub open spec fn candidates(self) -> Seq<P> {
        match self {
            Plan::Report(candidates) => candidates@,
            Plan::Delete(candidates) => candidates@,
        }
    }

    /// The files that the run is to remove.
    pub open spec fn removals(self) -> Seq<P> {
        match self {
            Plan::Report(_) => Seq::empty(),
            Plan::Delete(candidates) => candidates@,
        }
    }
}

/// One of the two directories of a run.
#[derive(Debug, Clone, Copy, PartialEq, Eq)]
pub enum Directory {
    /// The directory of the files that were derived.
    Destination,
    /// The directory of the files they were derived from.
    Source,
}

/// A directory could not be listed. Nothing is known of its files, so the
/// run ends without touching any.
#[derive(Debug, PartialEq, Eq)]
pub struct DirectoryReadError<E> {
    /// The directory that could not be listed.
    pub directory: Directory,
    /// What the listing failed with.
    pub cause: E,
}

/// Decides what a run does once both directories were scanned.
///
/// Where a scan failed the run fails with it, the destination's failure
/// first, and no candidate is named. Otherwise the candidates are the files of
/// the source index whose key stands in the destination index; a dry run only
/// reports them, a live run is to remove each of them.
pub fn reconcile<P, Q, E>(
    destination: Result<DirectoryIndex<Q>, E>,
    source: Result<DirectoryIndex<P>, E>,
    dry_run: bool,
) -> (outcome: Result<Plan<P>, DirectoryReadError<E>>)
    ensures
        match (destination, source) {
            (Err(cause), _) => outcome == Err::<Plan<P>, DirectoryReadError<E>>(
                DirectoryReadError { directory: Directory::Destination, cause },
            ),
            (Ok(_), Err(cause)) => outcome == Err::<Plan<P>, DirectoryReadError<E>>(
                DirectoryReadError { directory: Directory::Source, cause },
            ),
            (Ok(derived), Ok(sources)) => match outcome {
                Ok(plan) => {
                    &&& plan.candidates() == candidates_of(key_set(derived@), sources@)
                    &&& plan is Report <==> dry_run
                    &&& plan.removals() == if dry_run {
                        Seq::<P>::empty()
                    } else {
                        plan.candidates()
                    }
                },
                Err(_) => false,
            },
        },
{
    let derived = match destination {
        Ok(index) => index,
        Err(cause) => {
            return Err(DirectoryReadError { directory: Directory::Destination, cause });
        },
    };
    let sources = match source {
        Ok(index) => index,
        Err(cause) => {
            return Err(DirectoryReadError { directory: Directory::Source, cause });
        },
    };
    let candidates = deletion_candidates(&derived, sources);
    if dry_run {
        Ok(Plan::Report(candidates))
    } else {
        Ok(Plan::Delete(candidates))
    }
}

/// A value is in the concatenation of some parts exactly where it is in one
/// of the parts.
proof fn lemma_flatten_contains<A>(parts: Seq<Seq<A>>, value: A)
    ensures
        parts.flatten().contains(value) <==> exists|i: int|
            0 <= i < parts.len() && (#[trigger] parts[i]).contains(value),
    decreases parts.len(),
{
    if parts.len() == 0 {
        assert(parts.flatten() =~= Seq::empty());
    } else {
        let front = parts.drop_last();
        let last = parts.last();
        lemma_flatten_contains(front, value);
        front.lemma_flatten_push(last);
        assert(front.push(last) =~= parts);
        let whole = front.flatten() + last;
        if whole.contains(value) {
            let at = choose|at: int| 0 <= at < whole.len() && whole[at] == value;
            if at < front.flatten().len() {
                assert(front.flatten()[at] == value);
                let i = choose|i: int| 0 <= i < front.len() && (#[trigger] front[i]).contains(value);
                assert(parts[i] == front[i]);
            } else {
                assert(last[at - front.flatten().len()] == value);
                assert(parts[parts.len() - 1].contains(value));
            }
        }
        if exists|i: int| 0 <= i < parts.len() && (#[trigger] parts[i]).contains(value) {
            let i = choose|i: int| 0 <= i < parts.len() && (#[trigger] parts[i]).contains(value);
            if i < front.len() {
                assert(front[i] == parts[i]);
                let at = choose|at: int|
                    0 <= at < front.flatten().len() && front.flatten()[at] == value;
                assert(whole[at] == value);
            } else {
                let at = choose|at: int| 0 <= at < last.len() && last[at] == value;
                assert(whole[front.flatten().len() + at] == value);
            }
        }
    }
}

/// A file is a candidate exactly where it stands in the source under a key
/// that is one of `keys`.
pub proof fn lemma_candidates_contains<P>(
    keys: Set<Seq<char>>,
    pairs: Seq<(Seq<char>, P)>,
    file: P,
)
    ensures
        candidates_of(keys, grouped(pairs)).contains(file) <==> exists|i: int|
            0 <= i < pairs.len() && keys.contains((#[trigger] pairs[i]).0) && pairs[i].1 == file,
{
    let buckets = grouped(pairs);
    let kept = buckets.filter(matched(keys));
    let parts = kept.map_values(files_in());
    lemma_flatten_contains(parts, file);
    lemma_first_keys(pairs);
    if candidates_of(keys, buckets).contains(file) {
        let m = choose|m: int| 0 <= m < parts.len() && (#[trigger] parts[m]).contains(file);
        buckets.lemma_filter_pred(matched(keys), m);
        assert(kept.contains(kept[m]));
        buckets.lemma_filter_contains_rev(matched(keys), kept[m]);
        let t = choose|t: int| 0 <= t < buckets.len() && buckets[t] == kept[m];
        let key = first_keys(pairs)[t];
        assert(kept[m].1 == files_with_key(pairs, key));
        let under = pairs.filter(under_key(key));
        let at = choose|at: int| 0 <= at < parts[m].len() && parts[m][at] == file;
        assert(under[at].1 == file);
        pairs.lemma_filter_pred(under_key(key), at);
        assert(under.contains(under[at]));
        pairs.lemma_filter_contains_rev(under_key(key), under[at]);
        let i = choose|i: int| 0 <= i < pairs.len() && pairs[i] == under[at];
        assert(keys.contains(pairs[i].0) && pairs[i].1 == file);
    }
    if exists|i: int|
        0 <= i < pairs.len() && keys.contains((#[trigger] pairs[i]).0) && pairs[i].1 == file {
        let i = choose|i: int|
            0 <= i < pairs.len() && keys.contains((#[trigger] pairs[i]).0) && pairs[i].1 == file;
        let key = pairs[i].0;
        assert(occurs(pairs, key));
        assert(first_keys(pairs).contains(key));
        let t = choose|t: int| 0 <= t < first_keys(pairs).len() && first_keys(pairs)[t] == key;
        assert(buckets[t] == (key, files_with_key(pairs, key)));
        buckets.lemma_filter_contains(matched(keys), t);
        let m = choose|m: int| 0 <= m < kept.len() && kept[m] == buckets[t];
        let under = pairs.filter(under_key(key));
        pairs.lemma_filter_contains(under_key(key), i);
        let at = choose|at: int| 0 <= at < under.len() && under[at] == pairs[i];
        assert(under.map_values(file_of())[at] == file);
        assert(parts[m].contains(file));
    }
}

/// The files that a run selects for the listings of its two directories.
pub open spec fn selected<P, Q>(
    destination: Seq<ListedEntry<Q>>,
    source: Seq<ListedEntry<P>>,
) -> Seq<P> {
    candidates_of(key_set(grouped(keyed_files(destination))), grouped(keyed_files(source)))
}

/// A key stands in the index of a listing exactly where an entry of the
/// listing has it.
pub proof fn lemma_listing_keys<P>(listing: Seq<ListedEntry<P>>, key: Seq<char>)
    ensures
        key_set(grouped(keyed_files(listing))).contains(key) <==> exists|i: int|
            0 <= i < listing.len() && entry_key(#[trigger] listing[i]) == Some(key),
{
    let pairs = keyed_files(listing);
    lemma_grouped_buckets(pairs, key);
    if occurs(pairs, key) {
        let at = choose|at: int| 0 <= at < pairs.len() && (#[trigger] pairs[at]).0 == key;
        assert(pairs.contains((key, pairs[at].1)));
        lemma_keyed_files(listing, key, pairs[at].1);
    }
    if exists|i: int| 0 <= i < listing.len() && entry_key(#[trigger] listing[i]) == Some(key) {
        let i = choose|i: int|
            0 <= i < listing.len() && entry_key(#[trigger] listing[i]) == Some(key);
        lemma_keyed_files(listing, key, listing[i].file);
        let at = choose|at: int|
            0 <= at < pairs.len() && pairs[at] == (key, listing[i].file);
        assert(pairs[at].0 == key);
    }
}

/// A file of the source directory is selected exactly where it is a regular
/// file with a stem, and the lowercase of that stem is the lowercase of the
/// stem of a regular file in the destination directory. A file whose stem
/// matches none there is never selected.
pub proof fn lemma_selected_iff_stem_matches<P, Q>(
    destination: Seq<ListedEntry<Q>>,
    source: Seq<ListedEntry<P>>,
    file: P,
)
    ensures
        selected(destination, source).contains(file) <==> exists|i: int, j: int|
            #![trigger source[i], destination[j]]
            0 <= i < source.len() && 0 <= j < destination.len() && source[i].file == file
                && entry_key(source[i]) is Some && entry_key(source[i]) == entry_key(
                destination[j],
            ),
{
    let keys = key_set(grouped(keyed_files(destination)));
    let pairs = keyed_files(source);
    lemma_candidates_contains(keys, pairs, file);
    if selected(destination, source).contains(file) {
        let at = choose|at: int|
            0 <= at < pairs.len() && keys.contains((#[trigger] pairs[at]).0) && pairs[at].1 == file;
        let key = pairs[at].0;
        assert(pairs.contains((key, file)));
        lemma_keyed_files(source, key, file);
        lemma_listing_keys(destination, key);
        let i = choose|i: int|
            0 <= i < source.len() && entry_key(#[trigger] source[i]) == Some(key)
                && source[i].file == file;
        let j = choose|j: int|
            0 <= j < destination.len() && entry_key(#[trigger] destination[j]) == Some(key);
        assert(entry_key(source[i]) == entry_key(destination[j]));
    }
    if exists|i: int, j: int|
        #![trigger source[i], destination[j]]
        0 <= i < source.len() && 0 <= j < destination.len() && source[i].file == file
            && entry_key(source[i]) is Some && entry_key(source[i]) == entry_key(destination[j]) {
        let (i, j) = choose|i: int, j: int|
            #![trigger source[i], destination[j]]
            0 <= i < source.len() && 0 <= j < destination.len() && source[i].file == file
                && entry_key(source[i]) is Some && entry_key(source[i]) == entry_key(
                destination[j],
            );
        let key = entry_key(source[i])->0;
        lemma_keyed_files(source, key, file);
        lemma_listing_keys(destination, key);
        assert(entry_key(destination[j]) == Some(key));
        let at = choose|at: int| 0 <= at < pairs.len() && pairs[at] == (key, file);
        assert(keys.contains(pairs[at].0) && pairs[at].1 == file);
    }
}

/// Files of one stem are selected together: where two regular files of the
/// source directory have the same stem in lowercase, whatever their
/// extensions, and a regular file of the destination directory has that stem
/// too, both are selected.
pub proof fn lemma_same_stem_selected_together<P, Q>(
    destination: Seq<ListedEntry<Q>>,
    source: Seq<ListedEntry<P>>,
    first: int,
    second: int,
    derived: int,
)
    requires
        0 <= first < source.len(),
        0 <= second < source.len(),
        0 <= derived < destination.len(),
        entry_key(source[first]) is Some,
        entry_key(source[first]) == entry_key(source[second]),
        entry_key(source[first]) == entry_key(destination[derived]),
    ensures
        selected(destination, source).contains(source[first].file),
        selected(destination, source).contains(source[second].file),
{
    lemma_selected_iff_stem_matches(destination, source, source[first].file);
    lemma_selected_iff_stem_matches(destination, source, source[second].file);
}

/// A second run finds nothing. Let a live run have removed every file it
/// selected, so that each regular file now in the source directory was there
/// before, under the same key, and was not selected; and let the destination
/// directory hold no stem that it did not hold before. Then the next run
/// selects no file.
pub proof fn lemma_second_run_selects_nothing<P, Q>(
    destination: Seq<ListedEntry<Q>>,
    source: Seq<ListedEntry<P>>,
    later_destination: Seq<ListedEntry<Q>>,
    later_source: Seq<ListedEntry<P>>,
)
    requires
        forall|i: int|
            0 <= i < later_source.len() && entry_key(#[trigger] later_source[i]) is Some
                ==> !selected(destination, source).contains(later_source[i].file),
        forall|i: int|
            0 <= i < later_source.len() && entry_key(#[trigger] later_source[i]) is Some
                ==> exists|j: int|
                0 <= j < source.len() && (#[trigger] source[j]).file == later_source[i].file
                    && entry_key(source[j]) == entry_key(later_source[i]),
        forall|i: int|
            0 <= i < later_destination.len() && entry_key(#[trigger] later_destination[i]) is Some
                ==> exists|j: int|
                0 <= j < destination.len() && entry_key(#[trigger] destination[j]) == entry_key(
                    later_destination[i],
                ),
    ensures
        selected(later_destination, later_source) == Seq::<P>::empty(),
{
    let found = selected(later_destination, later_source);
    if found.len() > 0 {
        let file = found[0];
        assert(found.contains(file));
        lemma_selected_iff_stem_matches(later_destination, later_source, file);
        let (i, j) = choose|i: int, j: int|
            #![trigger later_source[i], later_destination[j]]
            0 <= i < later_source.len() && 0 <= j < later_destination.len() && later_source[i].file
                == file && entry_key(later_source[i]) is Some && entry_key(later_source[i])
                == entry_key(later_destination[j]);
        let was = choose|was: int|
            0 <= was < source.len() && (#[trigger] source[was]).file == later_source[i].file
                && entry_key(source[was]) == entry_key(later_source[i]);
        let held = choose|held: int|
            0 <= held < destination.len() && entry_key(#[trigger] destination[held]) == entry_key(
                later_destination[j],
            );
        lemma_selected_iff_stem_matches(destination, source, file);
        assert(source[was].file == file && entry_key(source[was]) == entry_key(destination[held]));
        assert(false);
    }
    assert(found =~= Seq::<P>::empty());
}

} // verus!
