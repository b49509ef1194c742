//! The index of one directory: its files grouped by stem key.
//!
//! An index is modelled as a sequence of buckets. A bucket is a key with the
//! files that stand under it, in the order in which they were added; the
//! buckets keep the order in which their keys were first seen. No key has two
//! buckets and no bucket is empty.
//!
//! Keys are looked up by walking the buckets, so adding a file costs time in
//! the number of keys.

use vstd::prelude::*;

verus! {

/// Whether one of the buckets stands under `key`.
pub open spec fn has_key<P>(buckets: Seq<(Seq<char>, Seq<P>)>, key: Seq<char>) -> bool {
    exists|i: int| 0 <= i < buckets.len() && (#[trigger] buckets[i]).0 == key
}

/// Whether the bucket at `at` is the first one under `key`.
pub open spec fn is_first_at<P>(buckets: Seq<(Seq<char>, Seq<P>)>, key: Seq<char>, at: int) -> bool {
    &&& 0 <= at < buckets.len()
    &&& buckets[at].0 == key
    &&& forall|j: int| 0 <= j < at ==> (#[trigger] buckets[j]).0 != key
}

/// The place of the first bucket under `key`, where there is one.
pub open spec fn key_position<P>(buckets: Seq<(Seq<char>, Seq<P>)>, key: Seq<char>) -> int {
    choose|at: int| is_first_at(buckets, key, at)
}

/// The files of the first bucket under `key`, where there is one.
pub open spec fn files_under<P>(buckets: Seq<(Seq<char>, Seq<P>)>, key: Seq<char>) -> Seq<P> {
    buckets[key_position(buckets, key)].1
}

/// The buckets after `file` was added under `key`: it joins the bucket of
/// its key at the end, or opens a new last bucket where the key is new.
pub open spec fn inserted<P>(buckets: Seq<(Seq<char>, Seq<P>)>, key: Seq<char>, file: P) -> Seq<
    (Seq<char>, Seq<P>),
> {
    if has_key(buckets, key) {
        let at = key_position(buckets, key);
        buckets.update(at, (key, buckets[at].1.push(file)))
    } else {
        buckets.push((key, seq![file]))
    }
}

/// Well-formed buckets: no key stands over two of them, and none is empty.
pub open spec fn well_formed<P>(buckets: Seq<(Seq<char>, Seq<P>)>) -> bool {
    &&& forall|i: int, j: int|
        0 <= i < j < buckets.len() ==> (#[trigger] buckets[i]).0 != (#[trigger] buckets[j]).0
    &&& forall|i: int| 0 <= i < buckets.len() ==> (#[trigger] buckets[i]).1.len() > 0
}

/// Whether one of the pairs stands under `key`.
pub open spec fn occurs<P>(pairs: Seq<(Seq<char>, P)>, key: Seq<char>) -> bool {
    exists|i: int| 0 <= i < pairs.len() && (#[trigger] pairs[i]).0 == key
}

/// The test that picks the pairs standing under `key`.
pub open spec fn under_key<P>(key: Seq<char>) -> spec_fn((Seq<char>, P)) -> bool {
    |pair: (Seq<char>, P)| pair.0 == key
}

/// The projection of a pair to its file.
pub open spec fn file_of<P>() -> spec_fn((Seq<char>, P)) -> P {
    |pair: (Seq<char>, P)| pair.1
}

/// The files that `pairs` holds under `key`, in their order in `pairs`.
pub open spec fn files_with_key<P>(pairs: Seq<(Seq<char>, P)>, key: Seq<char>) -> Seq<P> {
    pairs.filter(under_key(key)).map_values(file_of())
}

/// The keys of `pairs` without repetition, each at the place of its first
/// occurrence.
pub open spec fn first_keys<P>(pairs: Seq<(Seq<char>, P)>) -> Seq<Seq<char>>
    decreases pairs.len(),
{
    if pairs.len() == 0 {
        Seq::empty()
    } else {
        let before = first_keys(pairs.drop_last());
        if before.contains(pairs.last().0) {
            before
        } else {
            before.push(pairs.last().0)
        }
    }
}

/// The bucket that `pairs` gives to a key.
pub open spec fn bucket_of<P>(pairs: Seq<(Seq<char>, P)>) -> spec_fn(Seq<char>) -> (
    Seq<char>,
    Seq<P>,
) {
    |key: Seq<char>| (key, files_with_key(pairs, key))
}

/// The pairs grouped by key: one bucket for each key, in the order in which
/// the keys first occur, that holds the files of its key in their order.
pub open spec fn grouped<P>(pairs: Seq<(Seq<char>, P)>) -> Seq<(Seq<char>, Seq<P>)> {
    first_keys(pairs).map_values(bucket_of(pairs))
}

/// The pairs of a vector of keyed files, each key taken as its characters.
pub open spec fn keyed<P>(pairs: Seq<(String, P)>) -> Seq<(Seq<char>, P)> {
    pairs.map_values(|pair: (String, P)| (pair.0@, pair.1))
}

/// What a vector of buckets holds: each key as its characters, with the
/// files under it.
pub open spec fn bucket_views<P>(buckets: Seq<(String, Vec<P>)>) -> Seq<(Seq<char>, Seq<P>)> {
    buckets.map_values(|bucket: (String, Vec<P>)| (bucket.0@, bucket.1@))
}

/// Compares two strings with `==` of `str`. Believed, not proved: the result
/// is `true` exactly where both strings are made of the same characters.
#[verifier::external_body]
fn same_text(left: &str, right: &str) -> (same: bool)
    ensures
        same == (left@ == right@),
{
    left == right
}

/// The files of a directory grouped by stem key. `P` is whatever the caller
/// uses to find a file again; nothing here looks inside it.
#[derive(Debug)]
pub struct DirectoryIndex<P> {
    buckets: Vec<(String, Vec<P>)>,
}

impl<P> View for DirectoryIndex<P> {
    type V = Seq<(Seq<char>, Seq<P>)>;

    /// The buckets in the order in which their keys were first seen.
    closed spec fn view(&self) -> Seq<(Seq<char>, Seq<P>)> {
        bucket_views(self.buckets@)
    }
}

impl<P> DirectoryIndex<P> {
    #[verifier::type_invariant]
    spec fn buckets_well_formed(self) -> bool {
        well_formed(self@)
    }

    /// An index without any file.
    pub fn new() -> (index: Self)
        ensures
            index@ == Seq::<(Seq<char>, Seq<P>)>::empty(),
            well_formed(index@),
    {
        let index = DirectoryIndex { buckets: Vec::new() };
        assert(index@ =~= Seq::<(Seq<char>, Seq<P>)>::empty());
        index
    }

    /// Groups keyed files, taken in the order of `pairs`.
    pub fn from_pairs(pairs: Vec<(String, P)>) -> (index: Self)
        ensures
            index@ == grouped(keyed(pairs@)),
            well_formed(index@),
    {
        let mut index = DirectoryIndex::new();
        let ghost all = keyed(pairs@);
        for pair in it: pairs
            invariant
                all == keyed(it.seq()),
                index@ == grouped(all.take(it.index())),
        {
            let ghost done = all.take(it.index());
            let (key, file) = pair;
            proof {
                lemma_grouped_push(done, key@, file);
                assert(done.push((key@, file)) =~= all.take(it.index() + 1));
            }
            index.insert(key, file);
        }
        proof {
            assert(all.take(all.len() as int) =~= all);
            lemma_grouped_well_formed(all);
        }
        index
    }

    /// Adds `file` under `key`.
    pub fn insert(&mut self, key: String, file: P)
        ensures
            final(self)@ == inserted(old(self)@, key@, file),
            well_formed(final(self)@),
    {
        proof {
            use_type_invariant(&*self);
            lemma_inserted_well_formed(self@, key@, file);
        }
        let found = self.find(key.as_str());
        // The buckets are taken out, changed and put back whole: an index is
        // well formed whenever it can be seen.
        let mut taken = DirectoryIndex::new();
        core::mem::swap(self, &mut taken);
        let DirectoryIndex { buckets } = taken;
        let mut buckets = buckets;
        match found {
            Some(i) => {
                proof {
                    lemma_first_is_unique(old(self)@, key@, i as int);
                }
                buckets[i].1.push(file);
            },
            None => {
                let mut files = Vec::new();
                files.push(file);
                buckets.push((key, files));
            },
        }
        assert(bucket_views(buckets@) =~= inserted(old(self)@, key@, file));
        *self = DirectoryIndex { buckets };
    }

    fn find(&self, key: &str) -> (at: Option<usize>)
        ensures
            match at {
                Some(i) => is_first_at(self@, key@, i as int) && i < self.buckets@.len(),
                None => !has_key(self@, key@),
            },
    {
        let mut i: usize = 0;
        while i < self.buckets.len()
            invariant
                i <= self.buckets.len(),
                self@.len() == self.buckets.len(),
                forall|j: int| 0 <= j < i ==> (#[trigger] self@[j]).0 != key@,
            decreases self.buckets.len() - i,
        {
            if same_text(self.buckets[i].0.as_str(), key) {
                assert(self@[i as int].0 == key@);
                return Some(i);
            }
            i = i + 1;
        }
        None
    }

    /// Whether a file was added under `key`.
    pub fn contains_key(&self, key: &str) -> (found: bool)
        ensures
            found == has_key(self@, key@),
            well_formed(self@),
    {
        proof {
            use_type_invariant(self);
        }
        self.find(key).is_some()
    }

    /// The files that were added under `key`, in the order in which they were
    /// added, where there are any.
    pub fn get(&self, key: &str) -> (files: Option<&Vec<P>>)
        ensures
            match files {
                Some(found) => has_key(self@, key@) && found@ == files_under(self@, key@),
                None => !has_key(self@, key@),
            },
            well_formed(self@),
    {
        proof {
            use_type_invariant(self);
        }
        match self.find(key) {
            Some(i) => {
                proof {
                    lemma_first_is_unique(self@, key@, i as int);
                }
                Some(&self.buckets[i].1)
            },
            None => None,
        }
    }

    /// The number of keys under which files were added.
    pub fn len(&self) -> (count: usize)
        ensures
            count == self@.len(),
            well_formed(self@),
    {
        proof {
            use_type_invariant(self);
        }
        self.buckets.len()
    }

    /// Hands out the buckets, each with its key, in the order of the index.
    pub fn into_buckets(self) -> (buckets: Vec<(String, Vec<P>)>)
        ensures
            bucket_views(buckets@) == self@,
            well_formed(self@),
    {
        proof {
            use_type_invariant(&self);
        }
        self.buckets
    }
}

/// Where any bucket stands under `key`, `key_position` is the place of the
/// first of them.
pub proof fn lemma_key_position<P>(buckets: Seq<(Seq<char>, Seq<P>)>, key: Seq<char>)
    requires
        has_key(buckets, key),
    ensures
        is_first_at(buckets, key, key_position(buckets, key)),
    decreases buckets.len(),
{
    if buckets.len() > 0 {
        let front = buckets.drop_last();
        if has_key(front, key) {
            lemma_key_position(front, key);
            let at = key_position(front, key);
            assert(forall|j: int| 0 <= j < at ==> front[j] == buckets[j]);
            assert(front[at] == buckets[at]);
            assert(is_first_at(buckets, key, at));
        } else {
            let at = buckets.len() - 1;
            assert forall|j: int| 0 <= j < at implies (#[trigger] buckets[j]).0 != key by {
                assert(front[j] == buckets[j]);
            }
            assert(is_first_at(buckets, key, at));
        }
    }
}

/// No two places are the first under one key.
pub proof fn lemma_first_is_unique<P>(buckets: Seq<(Seq<char>, Seq<P>)>, key: Seq<char>, at: int)
    requires
        is_first_at(buckets, key, at),
    ensures
        has_key(buckets, key),
        key_position(buckets, key) == at,
{
    let other = key_position(buckets, key);
    if other < at {
        assert(buckets[other].0 != key);
    } else if at < other {
        assert(buckets[at].0 != key);
    }
}

/// Adding a file keeps buckets well formed.
pub proof fn lemma_inserted_well_formed<P>(
    buckets: Seq<(Seq<char>, Seq<P>)>,
    key: Seq<char>,
    file: P,
)
    requires
        well_formed(buckets),
    ensures
        well_formed(inserted(buckets, key, file)),
{
    if has_key(buckets, key) {
        lemma_key_position(buckets, key);
    }
}

/// `first_keys` holds no key twice, and holds exactly the keys that occur.
pub proof fn lemma_first_keys<P>(pairs: Seq<(Seq<char>, P)>)
    ensures
        first_keys(pairs).no_duplicates(),
        forall|key: Seq<char>| #[trigger] first_keys(pairs).contains(key) <==> occurs(pairs, key),
    decreases pairs.len(),
{
    if pairs.len() > 0 {
        let front = pairs.drop_last();
        let before = first_keys(front);
        lemma_first_keys(front);
        assert forall|key: Seq<char>| #[trigger]
            first_keys(pairs).contains(key) <==> occurs(pairs, key) by {
            if occurs(pairs, key) {
                let i = choose|i: int| 0 <= i < pairs.len() && (#[trigger] pairs[i]).0 == key;
                if i < front.len() {
                    assert(front[i].0 == key);
                    assert(before.contains(key));
                    let at = choose|at: int| 0 <= at < before.len() && before[at] == key;
                    assert(first_keys(pairs)[at] == key);
                } else if !before.contains(key) {
                    assert(first_keys(pairs)[before.len() as int] == key);
                } else {
                    let at = choose|at: int| 0 <= at < before.len() && before[at] == key;
                    assert(first_keys(pairs)[at] == key);
                }
            }
            if first_keys(pairs).contains(key) {
                let at = choose|at: int|
                    0 <= at < first_keys(pairs).len() && first_keys(pairs)[at] == key;
                if at < before.len() {
                    assert(before[at] == key);
                    assert(before.contains(key));
                    let i = choose|i: int| 0 <= i < front.len() && (#[trigger] front[i]).0 == key;
                    assert(pairs[i].0 == key);
                } else {
                    assert(pairs[pairs.len() - 1].0 == key);
                }
            }
        }
    }
}

/// The files under a key after one more pair: the file of that pair comes
/// last under its own key and changes nothing under another.
pub proof fn lemma_files_with_key_push<P>(
    pairs: Seq<(Seq<char>, P)>,
    key: Seq<char>,
    file: P,
    other: Seq<char>,
)
    ensures
        files_with_key(pairs.push((key, file)), other) == if other == key {
            files_with_key(pairs, other).push(file)
        } else {
            files_with_key(pairs, other)
        },
{
    pairs.lemma_filter_push((key, file), under_key(other));
    if other == key {
        pairs.filter(under_key(other)).lemma_push_map_commute(file_of(), (key, file));
    }
}

/// No file stands under a key that does not occur.
pub proof fn lemma_files_with_absent_key<P>(pairs: Seq<(Seq<char>, P)>, key: Seq<char>)
    requires
        !occurs(pairs, key),
    ensures
        files_with_key(pairs, key) == Seq::<P>::empty(),
{
    let test = under_key::<P>(key);
    assert(pairs.all(|pair: (Seq<char>, P)| !test(pair))) by {
        assert forall|i: int| 0 <= i < pairs.len() implies !test(#[trigger] pairs[i]) by {}
    }
    pairs.lemma_all_neg_filter_empty(test);
    assert(files_with_key(pairs, key) =~= Seq::<P>::empty());
}

/// Grouping one more pair is adding its file to the grouped pairs.
pub proof fn lemma_grouped_push<P>(pairs: Seq<(Seq<char>, P)>, key: Seq<char>, file: P)
    ensures
        grouped(pairs.push((key, file))) == inserted(grouped(pairs), key, file),
{
    let more = pairs.push((key, file));
    let keys = first_keys(pairs);
    let before = grouped(pairs);
    let after = grouped(more);
    assert(more.drop_last() =~= pairs);
    lemma_first_keys(pairs);
    assert forall|j: int| 0 <= j < keys.len() implies #[trigger] bucket_of(more)(keys[j]) == (
        if keys[j] == key {
            (key, before[j].1.push(file))
        } else {
            before[j]
        }) by {
        lemma_files_with_key_push(pairs, key, file, keys[j]);
    }
    if keys.contains(key) {
        let at = choose|at: int| 0 <= at < keys.len() && keys[at] == key;
        assert(before[at].0 == key);
        assert(is_first_at(before, key, at));
        lemma_first_is_unique(before, key, at);
        assert(after =~= inserted(before, key, file));
    } else {
        assert(!has_key(before, key)) by {
            if has_key(before, key) {
                let at = choose|at: int| 0 <= at < before.len() && (#[trigger] before[at]).0 == key;
                assert(keys[at] == key);
            }
        }
        lemma_files_with_key_push(pairs, key, file, key);
        lemma_files_with_absent_key(pairs, key);
        assert(after =~= inserted(before, key, file));
    }
}

/// The grouped pairs have a bucket under exactly the keys that occur, and
/// the bucket of a key holds the files of that key.
pub proof fn lemma_grouped_buckets<P>(pairs: Seq<(Seq<char>, P)>, key: Seq<char>)
    ensures
        has_key(grouped(pairs), key) <==> occurs(pairs, key),
        occurs(pairs, key) ==> files_under(grouped(pairs), key) == files_with_key(pairs, key),
{
    let keys = first_keys(pairs);
    let buckets = grouped(pairs);
    lemma_first_keys(pairs);
    if has_key(buckets, key) {
        let at = choose|at: int| 0 <= at < buckets.len() && (#[trigger] buckets[at]).0 == key;
        assert(keys[at] == key);
        assert(keys.contains(key));
    }
    if occurs(pairs, key) {
        assert(keys.contains(key));
        let at = choose|at: int| 0 <= at < keys.len() && keys[at] == key;
        assert(buckets[at].0 == key);
        assert(is_first_at(buckets, key, at));
        lemma_first_is_unique(buckets, key, at);
    }
}

/// Grouped pairs are well formed.
pub proof fn lemma_grouped_well_formed<P>(pairs: Seq<(Seq<char>, P)>)
    ensures
        well_formed(grouped(pairs)),
    decreases pairs.len(),
{
    if pairs.len() == 0 {
        assert(grouped(pairs) =~= Seq::empty());
    } else {
        let front = pairs.drop_last();
        lemma_grouped_well_formed(front);
        lemma_grouped_push(front, pairs.last().0, pairs.last().1);
        assert(front.push(pairs.last()) =~= pairs);
        lemma_inserted_well_formed(grouped(front), pairs.last().0, pairs.last().1);
    }
}

} // verus!
