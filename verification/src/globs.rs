//! Glob patterns and maps from them, as `glob_set` has them.
use glob_set::{Glob, GlobMap, GlobMapBuilder};
use vstd::prelude::*;
use crate::hazards::{cuts_char, gives_nul_key, spoils_trie, splits_char};

verus! {

#[verifier::external_type_specification]
#[verifier::external_body]
pub struct ExGlob(glob_set::Glob);

#[verifier::external_type_specification]
#[verifier::external_body]
pub struct ExGlobError(glob_set::Error);

#[verifier::external_type_specification]
#[verifier::external_body]
#[verifier::reject_recursive_types(T)]
pub struct ExGlobMap<T>(glob_set::GlobMap<T>);

#[verifier::external_type_specification]
#[verifier::external_body]
#[verifier::reject_recursive_types(T)]
pub struct ExGlobMapBuilder<T>(glob_set::GlobMapBuilder<T>);

/// Whether [`Glob::new`] takes a pattern.
pub uninterp spec fn glob_accepts(pattern: Seq<char>) -> bool;

/// The pattern that a glob was made of.
pub uninterp spec fn glob_pattern(glob: glob_set::Glob) -> Seq<char>;

/// Whether a single glob matches a text, by [`glob_set::GlobMatcher::is_match`].
pub uninterp spec fn glob_matches(pattern: Seq<char>, text: Seq<char>) -> bool;

/// The patterns of a map under construction, with their values, in the order
/// in which they came.
pub uninterp spec fn builder_entries(builder: glob_set::GlobMapBuilder<usize>) -> Seq<(Seq<char>, usize)>;

/// The patterns of a map with their values, in the order in which they came.
pub uninterp spec fn map_entries(map: glob_set::GlobMap<usize>) -> Seq<(Seq<char>, usize)>;

/// Whether [`GlobMapBuilder::build`] succeeds for a list of patterns.
pub uninterp spec fn map_builds(patterns: Seq<Seq<char>>) -> bool;

/// Which pattern of a map [`GlobMap::get`] finds for a text.
pub uninterp spec fn first_match(patterns: Seq<Seq<char>>, text: Seq<char>) -> Option<int>;

/// The patterns of entries.
pub open spec fn patterns_of(entries: Seq<(Seq<char>, usize)>) -> Seq<Seq<char>> {
    entries.map_values(|e: (Seq<char>, usize)| e.0)
}

/// Whether a map can be built with a pattern: no trie gets a key with a NUL, and
/// no text is cut inside a character.
pub open spec fn is_safe(pattern: Seq<char>) -> bool {
    !spoils_trie(pattern) && !splits_char(pattern)
}

/// Whether patterns are looked up one by one: all differ, and none has
/// alternatives in braces.
pub open spec fn are_plain(patterns: Seq<Seq<char>>) -> bool {
    &&& patterns.no_duplicates()
    &&& forall|i: int| 0 <= i < patterns.len() ==> !(#[trigger] patterns[i]).contains('{')
}

/// Whether a map of one pattern finds it for a text.
pub open spec fn finds_alone(pattern: Seq<char>, text: Seq<char>) -> bool {
    first_match(seq![pattern], text) is Some
}

/// Calls [`Glob::new`], which takes a pattern that is well formed and keeps its
/// text.
#[verifier::external_body]
pub(crate) fn new_glob(pattern: &str) -> (r: Result<Glob, glob_set::Error>)
    ensures
        r is Ok == glob_accepts(pattern@),
        r matches Ok(glob) ==> glob_pattern(glob) == pattern@,
{
    Glob::new(pattern)
}

/// Calls [`glob_set::GlobMatcher::is_match`] on the matcher that
/// [`Glob::compile_matcher`] makes. The answer depends on the pattern and the
/// text alone.
#[verifier::external_body]
pub(crate) fn glob_is_match(glob: &Glob, text: &str) -> (r: bool)
    ensures
        r == glob_matches(glob_pattern(*glob), text@),
{
    glob.compile_matcher().is_match(text)
}

/// Calls [`GlobMapBuilder::new`]: a map without patterns.
#[verifier::external_body]
pub(crate) fn new_builder() -> (r: GlobMapBuilder<usize>)
    ensures
        builder_entries(r).len() == 0,
{
    GlobMapBuilder::new()
}

/// Calls [`GlobMapBuilder::insert`], which adds a pattern behind all others.
#[verifier::external_body]
pub(crate) fn insert_glob(builder: &mut GlobMapBuilder<usize>, glob: Glob, value: usize)
    ensures
        builder_entries(*final(builder)) == builder_entries(*old(builder)).push(
            (glob_pattern(glob), value),
        ),
{
    builder.insert(glob, value);
}

/// Calls [`GlobMapBuilder::build`]. Whether it succeeds depends on the patterns
/// alone. The map holds what the builder held. The call fails on a key with a NUL
/// and on a text that is cut inside a character, so neither may come about.
#[verifier::external_body]
pub(crate) fn build_map(builder: GlobMapBuilder<usize>) -> (r: Result<GlobMap<usize>, glob_set::Error>)
    requires
        forall|i: int|
            0 <= i < builder_entries(builder).len() ==> is_safe(
                (#[trigger] builder_entries(builder)[i]).0,
            ),
    ensures
        r is Ok == map_builds(patterns_of(builder_entries(builder))),
        r matches Ok(map) ==> map_entries(map) == builder_entries(builder),
{
    builder.build()
}

/// Calls [`GlobMap::get`], which hands out the value of the pattern that it
/// finds for a text. That depends on the patterns and the text alone. Among
/// patterns that are looked up one by one it is the first that is found alone.
#[verifier::external_body]
pub(crate) fn get_match(map: &GlobMap<usize>, text: &str) -> (r: Option<usize>)
    requires
        !text@.contains('\0'),
    ensures
        match first_match(patterns_of(map_entries(*map)), text@) {
            Some(i) => 0 <= i < map_entries(*map).len() && r == Some(map_entries(*map)[i].1),
            None => r is None,
        },
        are_plain(patterns_of(map_entries(*map))) ==> match first_match(
            patterns_of(map_entries(*map)),
            text@,
        ) {
            Some(i) => r is Some && finds_alone(map_entries(*map)[i].0, text@) && forall|j: int|
                0 <= j < i ==> !finds_alone((#[trigger] map_entries(*map)[j]).0, text@),
            None => r is None && forall|j: int|
                0 <= j < map_entries(*map).len() ==> !finds_alone(
                    (#[trigger] map_entries(*map)[j]).0,
                    text@,
                ),
        },
{
    map.get(text).copied()
}

/// Whether a map can be built with a pattern.
pub fn safe_pattern(pattern: &[char]) -> (r: bool)
    ensures
        r == is_safe(pattern@),
{
    !gives_nul_key(pattern) && !cuts_char(pattern)
}

} // verus!
