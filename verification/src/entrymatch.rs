//! The filters of the directory walker: which entry kinds a type filter
//! admits, and whether any name pattern matches a file name.

use vstd::prelude::*;

verus! {

/// The entry kinds the type filter can name.
#[derive(Clone, Copy, Debug, PartialEq, Eq, Structural)]
pub enum EntryType {
    File,
    Dir,
    Link,
}

/// What kind a directory entry actually is, as the walker reports it.
#[derive(Clone, Copy, Debug, PartialEq, Eq, Structural)]
pub enum EntryKind {
    File,
    Dir,
    Link,
    Other,
}

/// Whether a type-filter list admits an entry of the given kind: an empty
/// filter admits everything; otherwise the kind must be named, and an entry
/// that is neither file, directory nor symlink matches no filter.
pub open spec fn entry_type_matches(kind: EntryKind, entry_types: Seq<EntryType>) -> bool {
    ||| entry_types.len() == 0
    ||| match kind {
        EntryKind::Dir => entry_types.contains(EntryType::Dir),
        EntryKind::File => entry_types.contains(EntryType::File),
        EntryKind::Link => entry_types.contains(EntryType::Link),
        EntryKind::Other => false,
    }
}

fn contains_type(entry_types: &[EntryType], t: EntryType) -> (r: bool)
    ensures
        r == entry_types@.contains(t),
{
    let n = entry_types.len();
    let mut i: usize = 0;
    while i < n
        invariant
            0 <= i <= n,
            n == entry_types@.len(),
            forall|j: int| 0 <= j < i ==> entry_types@[j] != t,
        decreases n - i,
    {
        if entry_types[i] == t {
            assert(entry_types@[i as int] == t);
            return true;
        }
        i = i + 1;
    }
    assert(!entry_types@.contains(t));
    false
}

/// Whether the type filter admits an entry of kind `kind`.
pub fn is_match_entry_type(kind: EntryKind, entry_types: &[EntryType]) -> (r: bool)
    ensures
        r == entry_type_matches(kind, entry_types@),
{
    if entry_types.len() == 0 {
        return true;
    }
    match kind {
        EntryKind::Dir => contains_type(entry_types, EntryType::Dir),
        EntryKind::File => contains_type(entry_types, EntryType::File),
        EntryKind::Link => contains_type(entry_types, EntryType::Link),
        EntryKind::Other => false,
    }
}

/// What matching one pattern against one text yields: a function of the two
/// strings alone, `None` when the pattern does not compile.
pub uninterp spec fn re_match(pattern: Seq<char>, text: Seq<char>) -> Option<bool>;

/// Relies on regex::Regex::new and regex::Regex::is_match: whether the
/// pattern compiles, and whether the compiled pattern matches the haystack,
/// are functions of the pattern and haystack strings alone.
#[verifier::external_body]
fn regex_is_match(pattern: &str, text: &str) -> (r: Option<bool>)
    ensures
        r == re_match(pattern@, text@),
{
    match regex::Regex::new(pattern) {
        Ok(re) => Some(re.is_match(text)),
        Err(_) => None,
    }
}

/// Whether any name pattern matches the file name: an empty pattern list
/// matches everything; a pattern that does not compile matches nothing.
pub open spec fn name_matches(fname: Seq<char>, names: Seq<Seq<char>>) -> bool {
    ||| names.len() == 0
    ||| exists|i: int| 0 <= i < names.len() && re_match(names[i], fname) == Some(true)
}

/// Whether the name filter admits a file name.
pub fn is_match_name(fname: &str, names: &Vec<String>) -> (r: bool)
    ensures
        r == name_matches(fname@, names.deep_view()),
{
    let ghost ndv = names.deep_view();
    if names.len() == 0 {
        return true;
    }
    let n = names.len();
    let mut i: usize = 0;
    while i < n
        invariant
            0 <= i <= n,
            n == ndv.len(),
            n >= 1,
            ndv == names.deep_view(),
            forall|j: int| 0 <= j < i ==> re_match(#[trigger] ndv[j], fname@) != Some(true),
        decreases n - i,
    {
        let outcome = regex_is_match(names[i].as_str(), fname);
        proof {
            assert(ndv[i as int] == names@[i as int]@);
        }
        match outcome {
            Option::Some(hit) => {
                if hit {
                    assert(re_match(ndv[i as int], fname@) == Some(true));
                    return true;
                }
            },
            Option::None => {},
        }
        i = i + 1;
    }
    assert(!name_matches(fname@, ndv));
    false
}

} // verus!
