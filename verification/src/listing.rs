//! What a directory listing shows, and how it becomes an index.

use vstd::prelude::*;
use crate::index::{
    grouped, lemma_grouped_push, lemma_grouped_well_formed, well_formed, DirectoryIndex,
};
use crate::stem::{stem_key, stem_key_of};

verus! {

/// What a listing shows of one direct child of a directory. `P` is whatever
/// the caller uses to find the file again; nothing here looks inside it.
#[derive(Debug)]
pub struct ListedEntry<P> {
    /// The name of the entry, where it is valid Unicode.
    pub file_name: Option<String>,
    /// Whether the entry could be examined and is a regular file.
    pub is_regular_file: bool,
    /// The file itself.
    pub file: P,
}

/// The key under which an entry is matched. An entry that is not a regular
/// file, or whose name is unknown or has no stem, has none and is passed
/// over.
pub open spec fn entry_key<P>(entry: ListedEntry<P>) -> Option<Seq<char>> {
    if entry.is_regular_file {
        match entry.file_name {
            Some(name) => stem_key_of(name@),
            None => None,
        }
    } else {
        None
    }
}

/// An entry's file with its key, where the entry has a key.
pub open spec fn keyed_file<P>() -> spec_fn(ListedEntry<P>) -> Option<(Seq<char>, P)> {
    |entry: ListedEntry<P>|
        match entry_key(entry) {
            Some(key) => Some((key, entry.file)),
            None => None,
        }
}

/// The files of a listing that have a key, each with its key, in the order
/// of the listing.
pub open spec fn keyed_files<P>(listing: Seq<ListedEntry<P>>) -> Seq<(Seq<char>, P)> {
    listing.filter_map(keyed_file())
}

/// A keyed file is among those of a listing exactly where an entry of the
/// listing has that key and is that file.
pub proof fn lemma_keyed_files<P>(listing: Seq<ListedEntry<P>>, key: Seq<char>, file: P)
    ensures
        keyed_files(listing).contains((key, file)) <==> exists|i: int|
            0 <= i < listing.len() && entry_key(#[trigger] listing[i]) == Some(key)
                && listing[i].file == file,
    decreases listing.len(),
{
    if listing.len() > 0 {
        let front = listing.drop_last();
        let last = listing.last();
        lemma_keyed_files(front, key, file);
        let before = keyed_files(front);
        if keyed_files(listing).contains((key, file)) {
            let at = choose|at: int|
                0 <= at < keyed_files(listing).len() && keyed_files(listing)[at] == (key, file);
            if at < before.len() {
                assert(before[at] == (key, file));
                let i = choose|i: int|
                    0 <= i < front.len() && entry_key(#[trigger] front[i]) == Some(key)
                        && front[i].file == file;
                assert(listing[i] == front[i]);
            } else {
                assert(entry_key(listing[listing.len() - 1]) == Some(key));
            }
        }
        if exists|i: int|
            0 <= i < listing.len() && entry_key(#[trigger] listing[i]) == Some(key)
                && listing[i].file == file {
            let i = choose|i: int|
                0 <= i < listing.len() && entry_key(#[trigger] listing[i]) == Some(key)
                    && listing[i].file == file;
            if i < front.len() {
                assert(front[i] == listing[i]);
                let at = choose|at: int| 0 <= at < before.len() && before[at] == (key, file);
                assert(keyed_files(listing)[at] == (key, file));
            } else {
                assert(keyed_files(listing)[before.len() as int] == (key, file));
            }
        }
    }
}

/// Examines one entry: gives its file with its key, or nothing where the
/// entry is passed over.
pub fn inspect_entry<P>(entry: ListedEntry<P>) -> (pair: Option<(String, P)>)
    ensures
        match pair {
            Some((key, file)) => entry_key(entry) == Some(key@) && file == entry.file,
            None => entry_key(entry) is None,
        },
{
    if !entry.is_regular_file {
        return None;
    }
    let ListedEntry { file_name, is_regular_file: _, file } = entry;
    match file_name {
        Some(name) => match stem_key(name.as_str()) {
            Some(key) => Some((key, file)),
            None => None,
        },
        None => None,
    }
}

/// Indexes a listing: every regular file with a stem stands under its key,
/// and nothing else is in the index.
pub fn index_listing<P>(listing: Vec<ListedEntry<P>>) -> (index: DirectoryIndex<P>)
    ensures
        index@ == grouped(keyed_files(listing@)),
        well_formed(index@),
{
    let mut index = DirectoryIndex::new();
    let ghost all = listing@;
    for entry in it: listing
        invariant
            all == it.seq(),
            index@ == grouped(keyed_files(all.take(it.index()))),
    {
        let ghost done = keyed_files(all.take(it.index()));
        proof {
            all.lemma_filter_map_take_succ(keyed_file(), it.index());
        }
        match inspect_entry(entry) {
            Some((key, file)) => {
                proof {
                    lemma_grouped_push(done, key@, file);
                    assert(done + seq![(key@, file)] =~= done.push((key@, file)));
                }
                index.insert(key, file);
            },
            None => {
                assert(done + Seq::<(Seq<char>, P)>::empty() =~= done);
            },
        }
    }
    proof {
        assert(all.take(all.len() as int) =~= all);
        lemma_grouped_well_formed(keyed_files(all));
    }
    index
}

} // verus!
