//! Sets of ignore rules: which rule decides on a path.
use glob_set::{Glob, GlobMap};
use std::sync::Arc;
use vstd::prelude::*;
use crate::cli::{texts, Args};
use crate::error::Failure;
use crate::globs::{
    are_plain, build_map, builder_entries, finds_alone, first_match, get_match, glob_accepts, glob_pattern,
    insert_glob, is_safe, map_builds, map_entries, new_builder, new_glob, patterns_of, safe_pattern,
};
use crate::path::{spell, PathBuf, PathView};
use crate::rules::{
    is_balanced, parse_file, parse_rule, rule_views, rules_of, slash_path, spec_slash_path,
    validate_override, Decision, Rule, RuleView,
};
use crate::text::{chars_of, lines, lossy_text, same_text, utf8_lossy};

verus! {

/// A rule that matched, with its place in the list of rules.
#[derive(Clone, Copy, Debug)]
pub struct RuleMatch {
    pub decision: Decision,
    pub priority: usize,
}

/// Whether a rule is looked at: rules for directories are, if directories are
/// asked for.
pub open spec fn is_asked(rule: RuleView, include_dir_only: bool) -> bool {
    rule.dir_only ==> include_dir_only
}

/// Whether a rule takes part: it is looked at, no later one of its kind, for
/// names or for paths, that is looked at has its pattern, and the pattern is a
/// glob that a map can be built with.
pub open spec fn takes_part(rules: Seq<RuleView>, include_dir_only: bool, i: int) -> bool {
    &&& is_asked(rules[i], include_dir_only)
    &&& forall|j: int|
        i < j < rules.len() && is_asked(#[trigger] rules[j], include_dir_only)
            && rules[j].basename_only == rules[i].basename_only ==> rules[j].pattern
            != rules[i].pattern
    &&& is_usable(rules[i].pattern)
}

/// The patterns of the rules from a position on that take part, for names or
/// for paths, the last rule first.
pub open spec fn entries_from(
    rules: Seq<RuleView>,
    include_dir_only: bool,
    for_names: bool,
    from: int,
) -> Seq<(Seq<char>, usize)>
    decreases rules.len() - from,
{
    if from < 0 || from >= rules.len() {
        Seq::empty()
    } else {
        let later = entries_from(rules, include_dir_only, for_names, from + 1);
        if takes_part(rules, include_dir_only, from) && rules[from].basename_only == for_names {
            later.push((rules[from].pattern, from as usize))
        } else {
            later
        }
    }
}

/// The rule that decides on a text.
pub open spec fn found_in(entries: Seq<(Seq<char>, usize)>, text: Seq<char>) -> Option<usize> {
    match first_match(patterns_of(entries), text) {
        Some(i) => Some(entries[i].1),
        None => None,
    }
}

/// Of two rules the later one.
pub open spec fn later_of(a: Option<usize>, b: Option<usize>) -> Option<usize> {
    match (a, b) {
        (Some(x), Some(y)) => if x > y {
            Some(x)
        } else {
            Some(y)
        },
        (Some(x), None) => Some(x),
        (None, y) => y,
    }
}

/// What rules say of a name and a path.
pub open spec fn verdict(
    rules: Seq<RuleView>,
    include_dir_only: bool,
    basename: Seq<char>,
    relative: Seq<char>,
) -> Option<Decision> {
    match later_of(
        found_in(entries_from(rules, include_dir_only, true, 0), basename),
        found_in(entries_from(rules, include_dir_only, false, 0), relative),
    ) {
        Some(i) => Some(rules[i as int].decision),
        None => None,
    }
}

/// The decision of the later one of two rules that matched.
pub fn pick_match(left: Option<RuleMatch>, right: Option<RuleMatch>) -> (r: Option<Decision>)
    ensures
        match (left, right) {
            (Some(a), Some(b)) => r == Some(if a.priority > b.priority { a.decision } else { b.decision }),
            (Some(a), None) => r == Some(a.decision),
            (None, Some(b)) => r == Some(b.decision),
            (None, None) => r is None,
        },
{
    match (left, right) {
        (Some(a), Some(b)) => {
            if a.priority > b.priority {
                Some(a.decision)
            } else {
                Some(b.decision)
            }
        },
        (Some(a), None) => Some(a.decision),
        (None, Some(b)) => Some(b.decision),
        (None, None) => None,
    }
}

/// Whether a pattern is a glob that a map can be built with.
pub open spec fn is_usable(pattern: Seq<char>) -> bool {
    glob_accepts(pattern) && is_safe(pattern)
}

/// Whether a later rule of the same kind that is looked at has the pattern of
/// a rule.
fn seen_later(rules: &Vec<Rule>, i: usize, include_dir_only: bool) -> (r: bool)
    requires
        i < rules@.len(),
    ensures
        r == exists|k: int|
            i < k < rules@.len() && is_asked(#[trigger] rule_views(rules@)[k], include_dir_only)
                && rule_views(rules@)[k].basename_only == rule_views(rules@)[i as int].basename_only
                && rule_views(rules@)[k].pattern == rule_views(rules@)[i as int].pattern,
{
    let ghost views = rule_views(rules@);
    let count: usize = rules.len();
    let mut j: usize = i + 1;
    while j < count
        invariant
            i < j <= count,
            count == rules@.len(),
            views == rule_views(rules@),
            forall|k: int|
                i < k < j && is_asked(#[trigger] views[k], include_dir_only)
                    && views[k].basename_only == views[i as int].basename_only ==> views[k].pattern
                    != views[i as int].pattern,
        decreases count - j,
    {
        assert(views[j as int] == rules@[j as int]@);
        assert(views[i as int] == rules@[i as int]@);
        if !(rules[j].dir_only && !include_dir_only) && rules[j].basename_only
            == rules[i].basename_only && same_text(
            rules[j].pattern.as_str(),
            rules[i].pattern.as_str(),
        ) {
            return true;
        }
        j += 1;
    }
    false
}

/// The glob of a rule, if the rule takes part.
fn glob_of(rules: &Vec<Rule>, i: usize, include_dir_only: bool) -> (r: Option<Glob>)
    requires
        i < rules@.len(),
    ensures
        r is Some == takes_part(rule_views(rules@), include_dir_only, i as int),
        r matches Some(glob) ==> glob_pattern(glob) == rule_views(rules@)[i as int].pattern,
{
    let rule = &rules[i];
    assert(rule_views(rules@)[i as int] == rule@);
    if rule.dir_only && !include_dir_only {
        return None;
    }
    if seen_later(rules, i, include_dir_only) {
        return None;
    }
    let chars = chars_of(rule.pattern.as_str());
    if !safe_pattern(chars.as_slice()) {
        return None;
    }
    match new_glob(rule.pattern.as_str()) {
        Ok(glob) => Some(glob),
        Err(_) => None,
    }
}

/// Rules made ready for matching.
pub struct CompiledRules {
    basenames: GlobMap<usize>,
    paths: GlobMap<usize>,
    decisions: Vec<Decision>,
    rules: Ghost<Seq<RuleView>>,
    dirs: Ghost<bool>,
}

impl CompiledRules {
    #[verifier::type_invariant]
    spec fn wf(self) -> bool {
        &&& map_entries(self.basenames) == entries_from(self.rules@, self.dirs@, true, 0)
        &&& map_entries(self.paths) == entries_from(self.rules@, self.dirs@, false, 0)
        &&& self.decisions@.len() == self.rules@.len()
        &&& forall|i: int|
            0 <= i < self.rules@.len() ==> #[trigger] self.decisions@[i] == self.rules@[i].decision
    }

    /// The rules that these were made of.
    pub closed spec fn rules(self) -> Seq<RuleView> {
        self.rules@
    }

    /// Whether rules for directories are among them.
    pub closed spec fn for_dirs(self) -> bool {
        self.dirs@
    }

    /// Makes rules ready for matching.
    pub fn new(rules: &Vec<Rule>, include_dir_only: bool) -> (r: Result<Self, Failure>)
        ensures
            match r {
                Ok(c) => c.rules() == rule_views(rules@) && c.for_dirs() == include_dir_only && compiles(
                    rule_views(rules@),
                    include_dir_only,
                ),
                Err(e) => e == Failure::Globs && !compiles(rule_views(rules@), include_dir_only),
            },
    {
        let ghost views = rule_views(rules@);
        let mut basenames = new_builder();
        let mut paths = new_builder();
        let mut i: usize = rules.len();
        proof {
            assert(builder_entries(basenames) =~= Seq::empty());
            assert(builder_entries(paths) =~= Seq::empty());
        }
        // A map finds the pattern that came first, so the last rule goes first.
        while i > 0
            invariant
                i <= rules@.len(),
                views == rule_views(rules@),
                builder_entries(basenames) == entries_from(views, include_dir_only, true, i as int),
                builder_entries(paths) == entries_from(views, include_dir_only, false, i as int),
                forall|j: int|
                    0 <= j < builder_entries(basenames).len() ==> is_safe(
                        (#[trigger] builder_entries(basenames)[j]).0,
                    ),
                forall|j: int|
                    0 <= j < builder_entries(paths).len() ==> is_safe(
                        (#[trigger] builder_entries(paths)[j]).0,
                    ),
            decreases i,
        {
            i -= 1;
            let glob = match glob_of(rules, i, include_dir_only) {
                Some(glob) => glob,
                None => {
                    continue ;
                },
            };
            assert(views[i as int] == rules@[i as int]@);
            if rules[i].basename_only {
                insert_glob(&mut basenames, glob, i);
            } else {
                insert_glob(&mut paths, glob, i);
            }
        }
        let mut decisions: Vec<Decision> = Vec::with_capacity(rules.len());
        let mut k: usize = 0;
        while k < rules.len()
            invariant
                k <= rules@.len(),
                decisions@.len() == k,
                views == rule_views(rules@),
                forall|j: int| 0 <= j < k ==> #[trigger] decisions@[j] == views[j].decision,
            decreases rules.len() - k,
        {
            decisions.push(rules[k].decision);
            k += 1;
        }
        let basenames = match build_map(basenames) {
            Ok(map) => map,
            Err(_) => {
                return Err(Failure::Globs);
            },
        };
        let paths = match build_map(paths) {
            Ok(map) => map,
            Err(_) => {
                return Err(Failure::Globs);
            },
        };
        Ok(
            CompiledRules {
                basenames,
                paths,
                decisions,
                rules: Ghost(views),
                dirs: Ghost(include_dir_only),
            },
        )
    }

    /// What the rules say of a name and a path.
    pub fn matched(&self, basename: &str, relative: &str) -> (r: Option<Decision>)
        requires
            !basename@.contains('\0'),
            !relative@.contains('\0'),
        ensures
            r == verdict(self.rules(), self.for_dirs(), basename@, relative@),
            is_separable(self.rules()) ==> r == last_word(
                self.rules(),
                self.for_dirs(),
                basename@,
                relative@,
            ),
    {
        let count: usize = self.decisions.len();
        proof {
            use_type_invariant(self);
            assert(self.rules@.len() == count);
            lemma_entries_low(self.rules@, self.dirs@, true, 0);
            lemma_entries_low(self.rules@, self.dirs@, false, 0);
        }
        let by_name = get_match(&self.basenames, basename);
        let by_path = get_match(&self.paths, relative);
        let left = match by_name {
            Some(i) => Some(RuleMatch { decision: self.decisions[i], priority: i }),
            None => None,
        };
        let right = match by_path {
            Some(i) => Some(RuleMatch { decision: self.decisions[i], priority: i }),
            None => None,
        };
        proof {
            if is_separable(self.rules@) {
                lemma_plain_entries(self.rules@, self.dirs@, true);
                lemma_plain_entries(self.rules@, self.dirs@, false);
                lemma_found_last(self.rules@, self.dirs@, true, basename@, by_name);
                lemma_found_last(self.rules@, self.dirs@, false, relative@, by_path);
                lemma_last_word(self.rules@, self.dirs@, basename@, relative@);
                if last_index(self.rules@, self.dirs@, basename@, relative@) >= 0 {
                    lemma_last_takes_part(self.rules@, self.dirs@, basename@, relative@);
                }
            }
        }
        pick_match(left, right)
    }
}

/// Whether the maps of rules can be built.
pub open spec fn compiles(rules: Seq<RuleView>, include_dir_only: bool) -> bool {
    &&& map_builds(patterns_of(entries_from(rules, include_dir_only, true, 0)))
    &&& map_builds(patterns_of(entries_from(rules, include_dir_only, false, 0)))
}

proof fn lemma_entries_low(rules: Seq<RuleView>, include_dir_only: bool, for_names: bool, from: int)
    requires
        0 <= from,
        rules.len() <= usize::MAX,
    ensures
        forall|i: int|
            0 <= i < entries_from(rules, include_dir_only, for_names, from).len() ==> {
                let e = #[trigger] entries_from(rules, include_dir_only, for_names, from)[i];
                from <= e.1 < rules.len() && takes_part(rules, include_dir_only, e.1 as int)
                    && rules[e.1 as int].basename_only == for_names && e.0 == rules[e.1 as int].pattern
            },
    decreases rules.len() - from,
{
    if from < rules.len() {
        lemma_entries_low(rules, include_dir_only, for_names, from + 1);
    }
}

/// Whether rules are looked up one by one: no pattern has alternatives in
/// braces.
pub open spec fn is_separable(rules: Seq<RuleView>) -> bool {
    forall|i: int| 0 <= i < rules.len() ==> !(#[trigger] rules[i]).pattern.contains('{')
}

/// Whether a rule applies by itself to a name and a path.
pub open spec fn applies(
    rule: RuleView,
    include_dir_only: bool,
    basename: Seq<char>,
    relative: Seq<char>,
) -> bool {
    &&& is_asked(rule, include_dir_only)
    &&& is_usable(rule.pattern)
    &&& finds_alone(
        rule.pattern,
        if rule.basename_only {
            basename
        } else {
            relative
        },
    )
}

/// The decision of the last rule that applies.
pub open spec fn last_word(
    rules: Seq<RuleView>,
    include_dir_only: bool,
    basename: Seq<char>,
    relative: Seq<char>,
) -> Option<Decision>
    decreases rules.len(),
{
    if rules.len() == 0 {
        None
    } else if applies(rules.last(), include_dir_only, basename, relative) {
        Some(rules.last().decision)
    } else {
        last_word(rules.drop_last(), include_dir_only, basename, relative)
    }
}

/// Where the last rule is that applies, or -1.
spec fn last_index(
    rules: Seq<RuleView>,
    include_dir_only: bool,
    basename: Seq<char>,
    relative: Seq<char>,
) -> int
    decreases rules.len(),
{
    if rules.len() == 0 {
        -1
    } else if applies(rules.last(), include_dir_only, basename, relative) {
        rules.len() - 1
    } else {
        last_index(rules.drop_last(), include_dir_only, basename, relative)
    }
}

proof fn lemma_last_word(
    rules: Seq<RuleView>,
    include_dir_only: bool,
    basename: Seq<char>,
    relative: Seq<char>,
)
    ensures
        ({
            let q = last_index(rules, include_dir_only, basename, relative);
            &&& -1 <= q < rules.len()
            &&& q >= 0 ==> applies(rules[q], include_dir_only, basename, relative)
            &&& forall|k: int|
                q < k < rules.len() ==> !applies(
                    #[trigger] rules[k],
                    include_dir_only,
                    basename,
                    relative,
                )
            &&& last_word(rules, include_dir_only, basename, relative) == if q >= 0 {
                Some(rules[q].decision)
            } else {
                None
            }
        }),
    decreases rules.len(),
{
    if rules.len() > 0 {
        let d = rules.drop_last();
        lemma_last_word(d, include_dir_only, basename, relative);
        if !applies(rules.last(), include_dir_only, basename, relative) {
            let q = last_index(d, include_dir_only, basename, relative);
            assert forall|k: int| q < k < rules.len() implies !applies(
                #[trigger] rules[k],
                include_dir_only,
                basename,
                relative,
            ) by {
                if k < d.len() {
                    assert(rules[k] == d[k]);
                }
            }
        }
    }
}

/// The last word is that of the last rule that applies, and it is missing if
/// and only if no rule applies.
pub proof fn the_last_rule_decides(
    rules: Seq<RuleView>,
    include_dir_only: bool,
    basename: Seq<char>,
    relative: Seq<char>,
)
    ensures
        last_word(rules, include_dir_only, basename, relative) is None == forall|k: int|
            0 <= k < rules.len() ==> !applies(
                #[trigger] rules[k],
                include_dir_only,
                basename,
                relative,
            ),
        forall|q: int|
            0 <= q < rules.len() && applies(
                #[trigger] rules[q],
                include_dir_only,
                basename,
                relative,
            ) && (forall|k: int|
                q < k < rules.len() ==> !applies(
                    #[trigger] rules[k],
                    include_dir_only,
                    basename,
                    relative,
                )) ==> last_word(rules, include_dir_only, basename, relative) == Some(
                rules[q].decision,
            ),
{
    lemma_last_word(rules, include_dir_only, basename, relative);
    let q = last_index(rules, include_dir_only, basename, relative);
    if q >= 0 {
        assert(applies(rules[q], include_dir_only, basename, relative));
    }
}

proof fn lemma_last_takes_part(
    rules: Seq<RuleView>,
    include_dir_only: bool,
    basename: Seq<char>,
    relative: Seq<char>,
)
    requires
        is_separable(rules),
        last_index(rules, include_dir_only, basename, relative) >= 0,
    ensures
        takes_part(
            rules,
            include_dir_only,
            last_index(rules, include_dir_only, basename, relative),
        ),
{
    let q = last_index(rules, include_dir_only, basename, relative);
    lemma_last_word(rules, include_dir_only, basename, relative);
    assert forall|j: int|
        q < j < rules.len() && is_asked(#[trigger] rules[j], include_dir_only)
            && rules[j].basename_only == rules[q].basename_only implies rules[j].pattern
        != rules[q].pattern by {
        assert(!applies(rules[j], include_dir_only, basename, relative));
    }
}

/// The entries of the rules that take part are plain, come in falling order,
/// and leave none out.
proof fn lemma_entries_all(rules: Seq<RuleView>, include_dir_only: bool, for_names: bool, from: int)
    requires
        0 <= from,
        rules.len() <= usize::MAX,
    ensures
        ({
            let e = entries_from(rules, include_dir_only, for_names, from);
            &&& forall|i: int, j: int|
                0 <= i < j < e.len() ==> (#[trigger] e[i]).1 > (#[trigger] e[j]).1
            &&& forall|k: int|
                from <= k < rules.len() && #[trigger] takes_part(rules, include_dir_only, k)
                    && rules[k].basename_only == for_names ==> exists|i: int|
                    0 <= i < e.len() && (#[trigger] e[i]).1 == k
        }),
    decreases rules.len() - from,
{
    if from < rules.len() {
        lemma_entries_all(rules, include_dir_only, for_names, from + 1);
        lemma_entries_low(rules, include_dir_only, for_names, from + 1);
        let later = entries_from(rules, include_dir_only, for_names, from + 1);
        let e = entries_from(rules, include_dir_only, for_names, from);
        assert forall|k: int|
            from <= k < rules.len() && #[trigger] takes_part(rules, include_dir_only, k)
                && rules[k].basename_only == for_names implies exists|i: int|
            0 <= i < e.len() && (#[trigger] e[i]).1 == k by {
            if k > from {
                let i = choose|i: int| 0 <= i < later.len() && (#[trigger] later[i]).1 == k;
                assert(e[i].1 == k);
            } else {
                assert(e[later.len() as int].1 == k);
            }
        }
    }
}

proof fn lemma_plain_entries(rules: Seq<RuleView>, include_dir_only: bool, for_names: bool)
    requires
        rules.len() <= usize::MAX,
        is_separable(rules),
    ensures
        are_plain(patterns_of(entries_from(rules, include_dir_only, for_names, 0))),
{
    let e = entries_from(rules, include_dir_only, for_names, 0);
    let p = patterns_of(e);
    lemma_entries_low(rules, include_dir_only, for_names, 0);
    lemma_entries_all(rules, include_dir_only, for_names, 0);
    assert forall|i: int| 0 <= i < p.len() implies !(#[trigger] p[i]).contains('{') by {
        assert(p[i] == rules[e[i].1 as int].pattern);
    }
    assert forall|i: int, j: int| 0 <= i < p.len() && 0 <= j < p.len() && i != j implies p[i] != p[j] by {
        let a = e[i].1 as int;
        let b = e[j].1 as int;
        assert(p[i] == rules[a].pattern && p[j] == rules[b].pattern);
        if i < j {
            assert(e[i].1 > e[j].1);
            assert(takes_part(rules, include_dir_only, b));
            assert(is_asked(rules[a], include_dir_only));
        } else {
            assert(e[j].1 > e[i].1);
            assert(takes_part(rules, include_dir_only, a));
            assert(is_asked(rules[b], include_dir_only));
        }
    }
}

/// Among separable rules a lookup finds the last one that takes part and is
/// found alone.
proof fn lemma_found_last(
    rules: Seq<RuleView>,
    include_dir_only: bool,
    for_names: bool,
    text: Seq<char>,
    found: Option<usize>,
)
    requires
        rules.len() <= usize::MAX,
        ({
            let e = entries_from(rules, include_dir_only, for_names, 0);
            match first_match(patterns_of(e), text) {
                Some(i) => 0 <= i < e.len() && found == Some(e[i].1) && finds_alone(e[i].0, text)
                    && forall|j: int| 0 <= j < i ==> !finds_alone((#[trigger] e[j]).0, text),
                None => found is None && forall|j: int|
                    0 <= j < e.len() ==> !finds_alone((#[trigger] e[j]).0, text),
            }
        }),
    ensures
        found matches Some(p) ==> p < rules.len() && takes_part(rules, include_dir_only, p as int)
            && rules[p as int].basename_only == for_names && finds_alone(
            rules[p as int].pattern,
            text,
        ),
        forall|k: int|
            0 <= k < rules.len() && #[trigger] takes_part(rules, include_dir_only, k)
                && rules[k].basename_only == for_names && finds_alone(rules[k].pattern, text)
                ==> found is Some && found->0 >= k,
{
    let e = entries_from(rules, include_dir_only, for_names, 0);
    lemma_entries_low(rules, include_dir_only, for_names, 0);
    lemma_entries_all(rules, include_dir_only, for_names, 0);
    if let Some(i) = first_match(patterns_of(e), text) {
        assert(e[i].0 == rules[e[i].1 as int].pattern);
    }
    assert forall|k: int|
        0 <= k < rules.len() && #[trigger] takes_part(rules, include_dir_only, k)
            && rules[k].basename_only == for_names && finds_alone(rules[k].pattern, text) implies found is Some
        && found->0 >= k by {
        let j = choose|j: int| 0 <= j < e.len() && (#[trigger] e[j]).1 == k;
        assert(e[j].0 == rules[k].pattern);
        assert(finds_alone(e[j].0, text));
        let i = first_match(patterns_of(e), text)->0;
        assert(i <= j);
        if i < j {
            assert(e[i].1 > e[j].1);
        }
    }
}

/// Whether no component of a path holds a NUL.
pub open spec fn free_of_nul(p: PathView) -> bool {
    forall|i: int| 0 <= i < p.comps.len() ==> !(#[trigger] p.comps[i]).contains(0)
}

/// Whether no component of a path holds a NUL.
pub fn has_no_nul(path: &PathBuf) -> (r: bool)
    ensures
        r == free_of_nul(path@),
{
    let mut i: usize = 0;
    while i < path.len()
        invariant
            i <= path@.comps.len(),
            forall|j: int| 0 <= j < i ==> !(#[trigger] path@.comps[j]).contains(0),
        decreases path@.comps.len() - i,
    {
        let comp = path.component(i);
        let mut k: usize = 0;
        while k < comp.len()
            invariant
                k <= comp@.len(),
                i < path@.comps.len(),
                comp@ == path@.comps[i as int],
                forall|j: int| 0 <= j < k ==> comp@[j] != 0,
            decreases comp.len() - k,
        {
            if comp[k] == 0 {
                assert(path@.comps[i as int][k as int] == 0);
                assert(path@.comps[i as int].contains(0));
                return false;
            }
            k += 1;
        }
        i += 1;
    }
    true
}

proof fn lemma_spell_free(comps: Seq<Seq<u8>>)
    requires
        forall|i: int| 0 <= i < comps.len() ==> !(#[trigger] comps[i]).contains(0),
    ensures
        !spell(comps).contains(0),
    decreases comps.len(),
{
    if comps.len() > 1 {
        let d = comps.drop_last();
        assert forall|i: int| 0 <= i < d.len() implies !(#[trigger] d[i]).contains(0) by {
            assert(d[i] == comps[i]);
        }
        lemma_spell_free(d);
        assert(!comps[comps.len() - 1].contains(0));
        let s = spell(comps);
        assert forall|i: int| 0 <= i < s.len() implies s[i] != 0 by {
            if i < spell(d).len() {
                assert(s[i] == spell(d)[i]);
            } else if i > spell(d).len() {
                assert(s[i] == comps.last()[i - spell(d).len() - 1]);
            }
        }
    } else if comps.len() == 1 {
        assert(!comps[0].contains(0));
    }
}

proof fn lemma_bytes_free(p: PathView)
    requires
        free_of_nul(p),
    ensures
        !p.bytes().contains(0),
{
    lemma_spell_free(p.comps);
    let s = p.bytes();
    assert forall|i: int| 0 <= i < s.len() implies s[i] != 0 by {
        if p.absolute && i > 0 {
            assert(s[i] == spell(p.comps)[i - 1]);
        }
    }
}

/// What a set of rules with one base says of a path below the base.
pub open spec fn scope_verdict(
    base: PathView,
    rules: Seq<RuleView>,
    path: PathView,
    is_dir: bool,
) -> Option<Decision> {
    match path.strip_prefix(base) {
        Some(relative) => if relative.depth() == 0 {
            None
        } else {
            match path.file_name() {
                Some(name) => verdict(
                    rules,
                    is_dir,
                    utf8_lossy(name),
                    spec_slash_path(relative),
                ),
                None => None,
            }
        },
        None => None,
    }
}

/// What the last rule that applies to a path below the base says, among rules
/// with one base.
pub open spec fn scope_last_word(
    base: PathView,
    rules: Seq<RuleView>,
    path: PathView,
    is_dir: bool,
) -> Option<Decision> {
    match path.strip_prefix(base) {
        Some(relative) => if relative.depth() == 0 {
            None
        } else {
            match path.file_name() {
                Some(name) => last_word(
                    rules,
                    is_dir,
                    utf8_lossy(name),
                    spec_slash_path(relative),
                ),
                None => None,
            }
        },
        None => None,
    }
}

/// Rules with one base.
pub struct RuleScope {
    base: PathBuf,
    directories: CompiledRules,
    files: CompiledRules,
}

impl RuleScope {
    #[verifier::type_invariant]
    spec fn wf(self) -> bool {
        &&& self.directories.for_dirs()
        &&& !self.files.for_dirs()
        &&& self.directories.rules() == self.files.rules()
    }

    /// The base and the rules.
    pub closed spec fn parts(self) -> (PathView, Seq<RuleView>) {
        (self.base@, self.files.rules())
    }

    /// Makes rules with one base ready for matching.
    pub fn new(base: &PathBuf, rules: &Vec<Rule>) -> (r: Result<Self, Failure>)
        ensures
            match r {
                Ok(scope) => scope.parts() == (base@, rule_views(rules@)) && compiles_both(
                    rule_views(rules@),
                ),
                Err(e) => e == Failure::Globs && !compiles_both(rule_views(rules@)),
            },
    {
        let directories = match CompiledRules::new(rules, true) {
            Ok(compiled) => compiled,
            Err(e) => {
                return Err(e);
            },
        };
        let files = match CompiledRules::new(rules, false) {
            Ok(compiled) => compiled,
            Err(e) => {
                return Err(e);
            },
        };
        Ok(RuleScope { base: base.clone(), directories, files })
    }

    /// What the rules say of a path.
    pub fn matched(&self, path: &PathBuf, is_dir: bool) -> (r: Option<Decision>)
        requires
            free_of_nul(path@),
        ensures
            r == scope_verdict(self.parts().0, self.parts().1, path@, is_dir),
            is_separable(self.parts().1) ==> r == scope_last_word(
                self.parts().0,
                self.parts().1,
                path@,
                is_dir,
            ),
    {
        proof {
            use_type_invariant(self);
        }
        let relative = match path.strip_prefix(&self.base) {
            Some(relative) => relative,
            None => {
                return None;
            },
        };
        if relative.is_empty() {
            return None;
        }
        let name = match path.file_name() {
            Some(name) => name,
            None => {
                return None;
            },
        };
        proof {
            assert(free_of_nul(relative@)) by {
                assert forall|i: int| 0 <= i < relative@.comps.len() implies !(
                #[trigger] relative@.comps[i]).contains(0) by {
                    assert(relative@.comps[i] == path@.comps[i + self.base@.comps.len()]);
                }
            }
            lemma_bytes_free(relative@);
            assert(!path@.comps[path@.comps.len() - 1].contains(0));
        }
        let basename = lossy_text(name);
        let text = slash_path(&relative);
        if is_dir {
            self.directories.matched(basename.as_str(), text.as_str())
        } else {
            self.files.matched(basename.as_str(), text.as_str())
        }
    }
}

/// Whether the maps of rules can be built, for directories and for files.
pub open spec fn compiles_both(rules: Seq<RuleView>) -> bool {
    compiles(rules, true) && compiles(rules, false)
}

/// What sets of rules say of a path: the last one that says something.
pub open spec fn scopes_verdict(
    scopes: Seq<(PathView, Seq<RuleView>)>,
    path: PathView,
    is_dir: bool,
) -> Option<Decision>
    decreases scopes.len(),
{
    if scopes.len() == 0 {
        None
    } else {
        match scope_verdict(scopes.last().0, scopes.last().1, path, is_dir) {
            Some(d) => Some(d),
            None => scopes_verdict(scopes.drop_last(), path, is_dir),
        }
    }
}

/// The first that says something.
pub open spec fn or_else(a: Option<Decision>, b: Option<Decision>) -> Option<Decision> {
    match a {
        Some(d) => Some(d),
        None => b,
    }
}

/// Whether the rules of all sets are looked up one by one.
pub open spec fn are_separable(scopes: Seq<(PathView, Seq<RuleView>)>) -> bool {
    forall|i: int| 0 <= i < scopes.len() ==> is_separable((#[trigger] scopes[i]).1)
}

/// What the last rule that applies to a path says, in the last of several sets
/// that has one.
pub open spec fn scopes_last_word(
    scopes: Seq<(PathView, Seq<RuleView>)>,
    path: PathView,
    is_dir: bool,
) -> Option<Decision>
    decreases scopes.len(),
{
    if scopes.len() == 0 {
        None
    } else {
        or_else(
            scope_last_word(scopes.last().0, scopes.last().1, path, is_dir),
            scopes_last_word(scopes.drop_last(), path, is_dir),
        )
    }
}

/// Sets of rules are silent on a path if and only if each of them is.
pub proof fn silent_sets(scopes: Seq<(PathView, Seq<RuleView>)>, path: PathView, is_dir: bool)
    ensures
        scopes_last_word(scopes, path, is_dir) is None == forall|i: int|
            0 <= i < scopes.len() ==> scope_last_word(
                (#[trigger] scopes[i]).0,
                scopes[i].1,
                path,
                is_dir,
            ) is None,
    decreases scopes.len(),
{
    if scopes.len() > 0 {
        let d = scopes.drop_last();
        silent_sets(d, path, is_dir);
        assert forall|i: int| 0 <= i < d.len() implies scopes[i] == #[trigger] d[i] by {}
        let last = scopes[scopes.len() - 1];
        if scopes_last_word(scopes, path, is_dir) is None {
            assert forall|i: int| 0 <= i < scopes.len() implies scope_last_word(
                (#[trigger] scopes[i]).0,
                scopes[i].1,
                path,
                is_dir,
            ) is None by {
                if i < d.len() {
                    assert(scopes[i] == d[i]);
                }
            }
        }
    }
}

/// Rules of one source, in the order in which they came.
pub struct RuleSet {
    scopes: Vec<Arc<RuleScope>>,
}

impl View for RuleSet {
    type V = Seq<(PathView, Seq<RuleView>)>;

    closed spec fn view(&self) -> Seq<(PathView, Seq<RuleView>)> {
        self.scopes@.map_values(|s: Arc<RuleScope>| s.parts())
    }
}

impl Default for RuleSet {
    fn default() -> (r: Self)
        ensures
            r@.len() == 0,
    {
        RuleSet { scopes: Vec::new() }
    }
}

impl Clone for RuleSet {
    fn clone(&self) -> (r: Self)
        ensures
            r@ == self@,
    {
        let mut scopes: Vec<Arc<RuleScope>> = Vec::with_capacity(self.scopes.len());
        let mut i: usize = 0;
        while i < self.scopes.len()
            invariant
                i <= self.scopes@.len(),
                scopes@ == self.scopes@.take(i as int),
            decreases self.scopes.len() - i,
        {
            scopes.push(self.scopes[i].clone());
            assert(scopes@ =~= self.scopes@.take(i + 1));
            i += 1;
        }
        assert(scopes@ =~= self.scopes@);
        RuleSet { scopes }
    }
}

impl RuleSet {
    /// What the rules say of a path.
    pub fn matched(&self, path: &PathBuf, is_dir: bool) -> (r: Option<Decision>)
        requires
            free_of_nul(path@),
        ensures
            r == scopes_verdict(self@, path@, is_dir),
            are_separable(self@) ==> r == scopes_last_word(self@, path@, is_dir),
    {
        let mut i: usize = self.scopes.len();
        assert(self@.take(i as int) =~= self@);
        while i > 0
            invariant
                i <= self.scopes@.len(),
                free_of_nul(path@),
                scopes_verdict(self@, path@, is_dir) == scopes_verdict(
                    self@.take(i as int),
                    path@,
                    is_dir,
                ),
                scopes_last_word(self@, path@, is_dir) == or_else(
                    None,
                    scopes_last_word(self@.take(i as int), path@, is_dir),
                ) || !are_separable(self@),
            decreases i,
        {
            proof {
                assert(self@[i - 1] == self.scopes@[i - 1].parts());
                assert(self@.take(i as int).drop_last() =~= self@.take(i - 1));
                assert(self@.take(i as int).last() == self.scopes@[i - 1].parts());
            }
            if let Some(d) = self.scopes[i - 1].matched(path, is_dir) {
                return Some(d);
            }
            i -= 1;
        }
        None
    }

    /// Adds rules with one base behind all others. If their matcher cannot be
    /// built nothing changes.
    pub fn add_rules(&mut self, base: &PathBuf, rules: &Vec<Rule>) -> (r: Result<(), Failure>)
        ensures
            match r {
                Ok(_) => (rules@.len() == 0 || compiles_both(rule_views(rules@))) && final(self)@ == if rules@.len()
                    == 0 {
                    old(self)@
                } else {
                    old(self)@.push((base@, rule_views(rules@)))
                },
                Err(e) => e == Failure::Globs && rules@.len() > 0 && !compiles_both(
                    rule_views(rules@),
                ) && final(self)@ == old(self)@,
            },
    {
        if rules.len() > 0 {
            let scope = match RuleScope::new(base, rules) {
                Ok(scope) => scope,
                Err(e) => {
                    return Err(e);
                },
            };
            let ghost before = self@;
            self.scopes.push(Arc::new(scope));
            assert(self@ =~= before.push((base@, rule_views(rules@))));
        }
        Ok(())
    }

    /// Adds the rules of an ignore file with its directory as base. If their
    /// matcher cannot be built nothing changes.
    pub fn add_file(&mut self, bytes: &[u8], base: &PathBuf)
        ensures
            ({
                let rules = rules_of(lines(utf8_lossy(bytes@)), base@, false);
                final(self)@ == if rules.len() > 0 && compiles_both(rules) {
                    old(self)@.push((base@, rules))
                } else {
                    old(self)@
                }
            }),
    {
        let rules = parse_file(bytes, base);
        assert(rule_views(rules@).len() == rules@.len());
        let _ = self.add_rules(base, &rules);
    }
}

/// The rules of all sources.
pub struct Rules {
    pub ignore: RuleSet,
    pub gitignore: RuleSet,
    pub git_exclude: RuleSet,
    pub git_global: RuleSet,
}

impl Default for Rules {
    fn default() -> (r: Self)
        ensures
            r.ignore@.len() == 0,
            r.gitignore@.len() == 0,
            r.git_exclude@.len() == 0,
            r.git_global@.len() == 0,
    {
        Rules {
            ignore: RuleSet::default(),
            gitignore: RuleSet::default(),
            git_exclude: RuleSet::default(),
            git_global: RuleSet::default(),
        }
    }
}

impl Clone for Rules {
    fn clone(&self) -> (r: Self)
        ensures
            r.ignore@ == self.ignore@,
            r.gitignore@ == self.gitignore@,
            r.git_exclude@ == self.git_exclude@,
            r.git_global@ == self.git_global@,
    {
        Rules {
            ignore: self.ignore.clone(),
            gitignore: self.gitignore.clone(),
            git_exclude: self.git_exclude.clone(),
            git_global: self.git_global.clone(),
        }
    }
}

impl Rules {
    /// What the rules say of a path: `.ignore` files first, then, in a
    /// repository, `.gitignore` files, its exclude file, and the global one.
    pub open spec fn spec_matched(self, path: PathView, is_dir: bool, in_git: bool) -> Option<Decision> {
        or_else(
            scopes_verdict(self.ignore@, path, is_dir),
            if in_git {
                or_else(
                    scopes_verdict(self.gitignore@, path, is_dir),
                    or_else(
                        scopes_verdict(self.git_exclude@, path, is_dir),
                        scopes_verdict(self.git_global@, path, is_dir),
                    ),
                )
            } else {
                None
            },
        )
    }

    /// What the last rule that applies to a path says, in the first of the
    /// sources that has one.
    pub open spec fn last_word(self, path: PathView, is_dir: bool, in_git: bool) -> Option<Decision> {
        or_else(
            scopes_last_word(self.ignore@, path, is_dir),
            if in_git {
                or_else(
                    scopes_last_word(self.gitignore@, path, is_dir),
                    or_else(
                        scopes_last_word(self.git_exclude@, path, is_dir),
                        scopes_last_word(self.git_global@, path, is_dir),
                    ),
                )
            } else {
                None
            },
        )
    }

    /// Whether the rules of all sources are looked up one by one.
    pub open spec fn is_separable(self) -> bool {
        &&& are_separable(self.ignore@)
        &&& are_separable(self.gitignore@)
        &&& are_separable(self.git_exclude@)
        &&& are_separable(self.git_global@)
    }

    /// What the rules say of a path.
    pub fn matched(&self, path: &PathBuf, is_dir: bool, in_git: bool) -> (r: Option<Decision>)
        requires
            free_of_nul(path@),
        ensures
            r == self.spec_matched(path@, is_dir, in_git),
            self.is_separable() ==> r == self.last_word(path@, is_dir, in_git),
    {
        if let Some(d) = self.ignore.matched(path, is_dir) {
            return Some(d);
        }
        if !in_git {
            return None;
        }
        if let Some(d) = self.gitignore.matched(path, is_dir) {
            return Some(d);
        }
        if let Some(d) = self.git_exclude.matched(path, is_dir) {
            return Some(d);
        }
        self.git_global.matched(path, is_dir)
    }
}

/// Globs of the command line that come before all rules.
pub struct Overrides {
    rules: RuleSet,
    has_includes: bool,
}

/// The rules of overrides.
pub open spec fn override_rules(args: Args) -> Seq<RuleView> {
    rules_of(texts(args.overrides@), args.path@, true)
}

/// Whether a rule includes.
pub open spec fn any_includes(rules: Seq<RuleView>) -> bool {
    exists|i: int| 0 <= i < rules.len() && (#[trigger] rules[i]).decision == Decision::Include
}

/// Where the first override is that leaves something open, or their number.
pub open spec fn first_open(overrides: Seq<Seq<char>>) -> int
    decreases overrides.len(),
{
    if overrides.len() == 0 {
        0
    } else if !is_balanced(overrides[0]) {
        0
    } else {
        1 + first_open(overrides.skip(1))
    }
}

/// What reading the overrides of the command line gives: the first one that
/// leaves something open is an error, and so is a matcher that cannot be built.
pub open spec fn are_overrides(args: Args, r: Result<Overrides, Failure>) -> bool {
    let open = first_open(texts(args.overrides@));
    let rules = override_rules(args);
    if open < args.overrides@.len() {
        r is Err && r->Err_0 is Override && (r->Err_0->Override_0)@ == args.overrides@[open]@
    } else if rules.len() > 0 && !compiles_both(rules) {
        r == Err::<Overrides, Failure>(Failure::Globs)
    } else {
        r is Ok && r->Ok_0.includes() == any_includes(rules) && r->Ok_0.scopes() == if rules.len() == 0 {
            Seq::empty()
        } else {
            seq![(args.path@, rules)]
        }
    }
}

impl Overrides {
    /// The sets of rules.
    pub closed spec fn scopes(self) -> Seq<(PathView, Seq<RuleView>)> {
        self.rules@
    }

    /// Whether one of the rules includes.
    pub closed spec fn includes(self) -> bool {
        self.has_includes
    }

    /// Whether one of the rules includes.
    pub fn has_includes(&self) -> (r: bool)
        ensures
            r == self.includes(),
    {
        self.has_includes
    }

    /// Reads the overrides of the command line.
    pub fn new(args: &Args) -> (r: Result<Self, Failure>)
        ensures
            are_overrides(*args, r),
    {
        let ghost all = texts(args.overrides@);
        let mut parsed: Vec<Rule> = Vec::new();
        let mut has_includes = false;
        let mut i: usize = 0;
        proof {
            assert(all.skip(0) =~= all);
            assert(all.take(0) =~= Seq::empty());
            assert(rule_views(parsed@) =~= Seq::empty());
            assert(all.len() == args.overrides@.len());
        }
        while i < args.overrides.len()
            invariant
                i <= args.overrides@.len(),
                all == texts(args.overrides@),
                all.len() == args.overrides@.len(),
                first_open(all) == i + first_open(all.skip(i as int)),
                rule_views(parsed@) == rules_of(all.take(i as int), args.path@, true),
                has_includes == any_includes(rule_views(parsed@)),
            decreases args.overrides.len() - i,
        {
            let pattern = args.overrides[i].as_str();
            proof {
                assert(all.skip(i as int)[0] == pattern@);
                assert(all.skip(i as int).skip(1) =~= all.skip(i + 1));
                assert(all.take(i + 1).drop_last() =~= all.take(i as int));
                assert(all.take(i + 1).last() == pattern@);
            }
            if let Err(e) = validate_override(pattern) {
                return Err(e);
            }
            if let Some(rule) = parse_rule(pattern, &args.path, true) {
                let ghost before = rule_views(parsed@);
                let ghost had = has_includes;
                if rule.decision == Decision::Include {
                    has_includes = true;
                }
                parsed.push(rule);
                proof {
                    let after = rule_views(parsed@);
                    assert(after =~= before.push(rule@));
                    if any_includes(before) {
                        let k = choose|k: int|
                            0 <= k < before.len() && (#[trigger] before[k]).decision == Decision::Include;
                        assert(after[k].decision == Decision::Include);
                    }
                    if rule.decision == Decision::Include {
                        assert(after[before.len() as int].decision == Decision::Include);
                    }
                    if any_includes(after) {
                        let k = choose|k: int|
                            0 <= k < after.len() && (#[trigger] after[k]).decision == Decision::Include;
                        if k < before.len() {
                            assert(before[k].decision == Decision::Include);
                        }
                    }
                }
            }
            i += 1;
        }
        proof {
            assert(all.take(i as int) =~= all);
            assert(all.skip(i as int).len() == 0);
            assert(rule_views(parsed@).len() == parsed@.len());
        }
        let mut rules = RuleSet::default();
        match rules.add_rules(&args.path, &parsed) {
            Ok(_) => {
                assert(rules@ =~= if parsed@.len() == 0 {
                    Seq::empty()
                } else {
                    seq![(args.path@, rule_views(parsed@))]
                });
                Ok(Overrides { rules, has_includes })
            },
            Err(e) => Err(e),
        }
    }

    /// What the overrides say of a path.
    pub fn matched(&self, path: &PathBuf, is_dir: bool) -> (r: Option<Decision>)
        requires
            free_of_nul(path@),
        ensures
            r == scopes_verdict(self.scopes(), path@, is_dir),
            are_separable(self.scopes()) ==> r == scopes_last_word(self.scopes(), path@, is_dir),
    {
        self.rules.matched(path, is_dir)
    }
}

impl Clone for Overrides {
    fn clone(&self) -> (r: Self)
        ensures
            r.scopes() == self.scopes(),
            r.includes() == self.includes(),
    {
        Overrides { rules: self.rules.clone(), has_includes: self.has_includes }
    }
}

/// A rule for directories has nothing to say where files are asked for, and any
/// other rule says the same of both.
pub proof fn directory_rules_spare_files(rule: RuleView, basename: Seq<char>, relative: Seq<char>)
    ensures
        rule.dir_only ==> !applies(rule, false, basename, relative),
        !rule.dir_only ==> applies(rule, true, basename, relative) == applies(rule, false, basename, relative),
{
}

/// A rule for names is asked about names, any other about paths.
pub proof fn rules_are_asked_about_their_kind(rule: RuleView, is_dir: bool, a: Seq<char>, b: Seq<char>, c: Seq<char>)
    ensures
        rule.basename_only ==> applies(rule, is_dir, a, b) == applies(rule, is_dir, a, c),
        !rule.basename_only ==> applies(rule, is_dir, a, b) == applies(rule, is_dir, c, b),
{
}

/// Rules say nothing of their base, nor of what is not below it.
pub proof fn rules_stay_in_their_directory(base: PathView, rules: Seq<RuleView>, path: PathView, is_dir: bool)
    requires
        base.depth() > 0,
        path == base || !path.starts_with(base),
    ensures
        scope_verdict(base, rules, path, is_dir) is None,
        scope_last_word(base, rules, path, is_dir) is None,
{
}

/// The rules of a file that is read later come before those of all files before
/// it, and where they say nothing the others decide.
pub proof fn later_files_come_first(
    scopes: Seq<(PathView, Seq<RuleView>)>,
    base: PathView,
    rules: Seq<RuleView>,
    path: PathView,
    is_dir: bool,
)
    ensures
        scope_verdict(base, rules, path, is_dir) is Some ==> scopes_verdict(
            scopes.push((base, rules)),
            path,
            is_dir,
        ) == scope_verdict(base, rules, path, is_dir),
        scope_verdict(base, rules, path, is_dir) is None ==> scopes_verdict(
            scopes.push((base, rules)),
            path,
            is_dir,
        ) == scopes_verdict(scopes, path, is_dir),
        scopes_verdict(Seq::empty(), path, is_dir) is None,
{
    assert(scopes.push((base, rules)).drop_last() =~= scopes);
    assert(scopes.push((base, rules)).last() == (base, rules));
}

/// The sources of rules come in an order: `.ignore` files, then those of git, of
/// which `.gitignore` files come first and the global one last. Outside of a
/// repository only the first count.
pub proof fn sources_come_in_order(r: Rules, path: PathView, is_dir: bool)
    ensures
        ({
            let ignore = scopes_verdict(r.ignore@, path, is_dir);
            let gitignore = scopes_verdict(r.gitignore@, path, is_dir);
            let exclude = scopes_verdict(r.git_exclude@, path, is_dir);
            let global = scopes_verdict(r.git_global@, path, is_dir);
            let inside = r.spec_matched(path, is_dir, true);
            &&& r.spec_matched(path, is_dir, false) == ignore
            &&& ignore is Some ==> inside == ignore
            &&& ignore is None && gitignore is Some ==> inside == gitignore
            &&& ignore is None && gitignore is None && exclude is Some ==> inside == exclude
            &&& ignore is None && gitignore is None && exclude is None ==> inside == global
        }),
{
}

/// Of overrides that leave something open the first is the one that is found.
pub proof fn the_first_open_one_is_found(overrides: Seq<Seq<char>>)
    ensures
        ({
            let i = first_open(overrides);
            &&& 0 <= i <= overrides.len()
            &&& i < overrides.len() ==> !is_balanced(overrides[i])
            &&& forall|j: int| 0 <= j < i ==> is_balanced(#[trigger] overrides[j])
        }),
    decreases overrides.len(),
{
    if overrides.len() > 0 && is_balanced(overrides[0]) {
        let t = overrides.skip(1);
        the_first_open_one_is_found(t);
        let i = first_open(overrides);
        assert forall|j: int| 0 <= j < i implies is_balanced(#[trigger] overrides[j]) by {
            if j > 0 {
                assert(t[j - 1] == overrides[j]);
            }
        }
        if i < overrides.len() {
            assert(t[i - 1] == overrides[i]);
        }
    }
}

} // verus!
