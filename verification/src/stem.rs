//! File stems and the keys under which files are matched.
//!
//! A name here is the name of one directory entry, as a listing gives it: a
//! path separator in it would be a character like any other.

use vstd::prelude::*;
use vstd::string::*;

verus! {

/// The index of the last `.` in `name`, or `-1` where it holds none.
pub open spec fn last_dot(name: Seq<char>) -> int
    decreases name.len(),
{
    if name.len() == 0 {
        -1
    } else if name.last() == '.' {
        name.len() - 1
    } else {
        last_dot(name.drop_last())
    }
}

/// `last_dot` marks a `.` after which no other `.` follows; it is negative
/// exactly where `name` holds no `.` at all.
pub proof fn lemma_last_dot(name: Seq<char>)
    ensures
        -1 <= last_dot(name) < name.len(),
        last_dot(name) >= 0 ==> name[last_dot(name)] == '.',
        forall|j: int| last_dot(name) < j < name.len() ==> name[j] != '.',
    decreases name.len(),
{
    if name.len() > 0 && name.last() != '.' {
        let front = name.drop_last();
        lemma_last_dot(front);
        assert forall|j: int| last_dot(name) < j < name.len() implies name[j] != '.' by {
            if j < front.len() {
                assert(front[j] == name[j]);
            }
        }
    }
}

/// The stem of a file name: the name without its last extension.
///
/// A name without a `.`, or whose only `.` is its first character, is its
/// own stem. The empty name and the names `.` and `..` are not file names
/// and have no stem.
pub open spec fn stem_of(name: Seq<char>) -> Option<Seq<char>> {
    if name.len() == 0 || name == seq!['.'] || name == seq!['.', '.'] {
        None
    } else if last_dot(name) <= 0 {
        Some(name)
    } else {
        Some(name.take(last_dot(name)))
    }
}

/// Extracts the stem of a file name, as `stem_of` defines it.
pub fn file_stem(name: &str) -> (stem: Option<&str>)
    ensures
        match stem {
            Some(found) => stem_of(name@) == Some(found@),
            None => stem_of(name@) is None,
        },
{
    let len = name.unicode_len();
    let mut dot: Option<usize> = None;
    let mut seen: usize = 0;
    for c in it: name.chars()
        invariant
            seen == it.index(),
            it.seq() == name@,
            len == name@.len(),
            match dot {
                Some(d) => d == last_dot(name@.take(seen as int)),
                None => last_dot(name@.take(seen as int)) == -1,
            },
    {
        assert(name@.take(seen + 1).drop_last() =~= name@.take(seen as int));
        if c == '.' {
            dot = Some(seen);
        }
        seen = seen + 1;
    }
    proof {
        assert(name@.take(seen as int) =~= name@);
        lemma_last_dot(name@);
    }
    if len == 0 {
        return None;
    }
    match dot {
        Some(d) => {
            if d == 0 {
                if len == 1 {
                    assert(name@ =~= seq!['.']);
                    None
                } else {
                    Some(name)
                }
            } else if d == 1 && len == 2 && name.get_char(0) == '.' {
                assert(name@ =~= seq!['.', '.']);
                None
            } else {
                Some(name.substring_char(0, d))
            }
        },
        None => Some(name),
    }
}

/// The characters of the string that `str::to_lowercase` returns for a
/// string of the characters `text`. Which characters these are is not said
/// here: the lowercase of a string follows Unicode's tables.
pub uninterp spec fn lowercase_of(text: Seq<char>) -> Seq<char>;

/// Lowercases `text` with `str::to_lowercase`. Believed, not proved: the
/// result depends on the characters of `text` alone, and so has the name
/// `lowercase_of`.
#[verifier::external_body]
fn to_lowercase(text: &str) -> (lower: String)
    ensures
        lower@ == lowercase_of(text@),
{
    text.to_lowercase()
}

/// The key under which a file of the given name is matched: its stem in
/// lowercase, where it has a stem.
pub open spec fn stem_key_of(name: Seq<char>) -> Option<Seq<char>> {
    match stem_of(name) {
        Some(stem) => Some(lowercase_of(stem)),
        None => None,
    }
}

/// Computes the key under which a file of the given name is matched.
pub fn stem_key(name: &str) -> (key: Option<String>)
    ensures
        match key {
            Some(k) => stem_key_of(name@) == Some(k@),
            None => stem_key_of(name@) is None,
        },
{
    match file_stem(name) {
        Some(stem) => Some(to_lowercase(stem)),
        None => None,
    }
}

} // verus!
