//! Patterns that break the building of a glob map.
//!
//! A map looks for the longest literal part of a pattern, which it cuts out of
//! the text, and it keeps what precedes or follows `**` in a trie, whose keys
//! hold no NUL.
use vstd::prelude::*;
use crate::text::{chars_between, find_char, first_index, has_char};

verus! {

/// How many bytes a character takes in UTF-8.
pub open spec fn width(c: char) -> nat {
    if (c as u32) < 0x80 {
        1
    } else if (c as u32) < 0x800 {
        2
    } else if (c as u32) < 0x10000 {
        3
    } else {
        4
    }
}

/// Where a pattern goes on behind an escaped character.
pub open spec fn escape_end(p: Seq<char>, i: int) -> int {
    if i + 2 <= p.len() {
        i + 2
    } else {
        p.len() as int
    }
}

/// Where the rest of a class ends, behind its bracket.
pub open spec fn rest_end(p: Seq<char>, i: int) -> int
    decreases p.len() - i,
{
    if i >= p.len() {
        p.len() as int
    } else if p[i] == ']' {
        i + 1
    } else if p[i] == '\\' {
        rest_end(p, escape_end(p, i))
    } else {
        rest_end(p, i + 1)
    }
}

/// Where the rest of a class begins: a bracket that comes first does not end it.
pub open spec fn rest_start(p: Seq<char>, i: int) -> int {
    let j = if i + 1 < p.len() && (p[i + 1] == '^' || p[i + 1] == '!') {
        i + 2
    } else {
        i + 1
    };
    if j < p.len() && p[j] == ']' {
        j + 1
    } else {
        j
    }
}

/// Where a class ends that begins at a place.
pub open spec fn class_end(p: Seq<char>, i: int) -> int {
    rest_end(p, rest_start(p, i))
}

proof fn lemma_rest_end(p: Seq<char>, i: int)
    ensures
        rest_end(p, i) <= p.len(),
        i < p.len() ==> rest_end(p, i) > i,
    decreases p.len() - i,
{
    if i < p.len() && p[i] != ']' {
        if p[i] == '\\' {
            lemma_rest_end(p, escape_end(p, i));
        } else {
            lemma_rest_end(p, i + 1);
        }
    }
}

proof fn lemma_class_end(p: Seq<char>, i: int)
    requires
        0 <= i < p.len(),
    ensures
        i < class_end(p, i) <= p.len(),
{
    lemma_rest_end(p, rest_start(p, i));
}

/// Where braces end, from a place within so many of them.
pub open spec fn braces_end(p: Seq<char>, i: int, depth: nat) -> int
    decreases p.len() - i,
    via braces_end_ends
{
    if depth == 0 {
        i
    } else if i < 0 || i >= p.len() {
        p.len() as int
    } else if p[i] == '[' {
        braces_end(p, class_end(p, i), depth)
    } else if p[i] == '{' {
        braces_end(p, i + 1, depth + 1)
    } else if p[i] == '}' {
        braces_end(p, i + 1, (depth - 1) as nat)
    } else if p[i] == '\\' {
        braces_end(p, escape_end(p, i), depth)
    } else {
        braces_end(p, i + 1, depth)
    }
}

#[via_fn]
proof fn braces_end_ends(p: Seq<char>, i: int, depth: nat) {
    if 0 <= i < p.len() {
        lemma_class_end(p, i);
    }
}

proof fn lemma_braces_end(p: Seq<char>, i: int, depth: nat)
    requires
        0 <= i,
        depth == 0 ==> i <= p.len(),
    ensures
        braces_end(p, i, depth) <= p.len(),
        i <= p.len() ==> braces_end(p, i, depth) >= i,
    decreases p.len() - i,
{
    if depth > 0 && i < p.len() {
        if p[i] == '[' {
            lemma_class_end(p, i);
            lemma_braces_end(p, class_end(p, i), depth);
        } else if p[i] == '{' {
            lemma_braces_end(p, i + 1, depth + 1);
        } else if p[i] == '}' {
            lemma_braces_end(p, i + 1, (depth - 1) as nat);
        } else if p[i] == '\\' {
            lemma_braces_end(p, escape_end(p, i), depth);
        } else {
            lemma_braces_end(p, i + 1, depth);
        }
    }
}

/// Where stars end that stand side by side.
pub open spec fn stars_end(p: Seq<char>, i: int) -> int
    decreases p.len() - i,
{
    if 0 <= i < p.len() && p[i] == '*' {
        stars_end(p, i + 1)
    } else {
        i
    }
}

proof fn lemma_stars_end(p: Seq<char>, i: int)
    requires
        0 <= i <= p.len(),
    ensures
        i <= stars_end(p, i) <= p.len(),
        i < p.len() && p[i] == '*' ==> stars_end(p, i) > i,
    decreases p.len() - i,
{
    if i < p.len() && p[i] == '*' {
        lemma_stars_end(p, i + 1);
    }
}

/// Where a wildcard of stars ends: with two of them or more it takes in the
/// separator behind them.
pub open spec fn wildcard_end(p: Seq<char>, i: int) -> int {
    let j = stars_end(p, i);
    if j - i >= 2 && j < p.len() && p[j] == '/' {
        j + 1
    } else {
        j
    }
}

/// A literal part of a pattern: how many bytes it has, and whether it begins
/// inside a character.
pub struct Run {
    pub bytes: nat,
    pub inside: bool,
}

/// The literal part before any character.
pub open spec fn no_run() -> Run {
    Run { bytes: 0, inside: false }
}

/// The longer of two literal parts, or the first.
pub open spec fn longer(best: Run, run: Run) -> Run {
    if run.bytes > best.bytes {
        run
    } else {
        best
    }
}

/// The longest literal part of a pattern from a place on, given the one that is
/// being read and the longest so far. Wildcards, classes, braces and escapes end
/// a part. One byte behind a backslash is passed over, so that the next part begins
/// inside the escaped character if that has more.
pub open spec fn longest(p: Seq<char>, i: int, run: Run, best: Run) -> Run
    decreases p.len() - i,
    via longest_ends
{
    if i < 0 || i >= p.len() {
        longer(best, run)
    } else if p[i] == '*' {
        longest(p, wildcard_end(p, i), no_run(), longer(best, run))
    } else if p[i] == '?' {
        longest(p, i + 1, no_run(), longer(best, run))
    } else if p[i] == '[' {
        longest(p, class_end(p, i), no_run(), longer(best, run))
    } else if p[i] == '{' {
        longest(p, braces_end(p, i + 1, 1), no_run(), longer(best, run))
    } else if p[i] == '\\' {
        let next = if i + 1 < p.len() && width(p[i + 1]) > 1 {
            Run { bytes: (width(p[i + 1]) - 1) as nat, inside: true }
        } else {
            no_run()
        };
        longest(p, escape_end(p, i), next, longer(best, run))
    } else {
        longest(p, i + 1, Run { bytes: run.bytes + width(p[i]), ..run }, best)
    }
}

#[via_fn]
proof fn longest_ends(p: Seq<char>, i: int, run: Run, best: Run) {
    if 0 <= i < p.len() {
        lemma_stars_end(p, i);
        lemma_class_end(p, i);
        lemma_braces_end(p, i + 1, 1);
    }
}

/// Whether the longest literal part of a pattern begins inside a character, where
/// no text can be cut.
pub open spec fn splits_char(p: Seq<char>) -> bool {
    longest(p, 0, no_run(), no_run()).inside
}

fn find_class_end(p: &[char], i: usize) -> (r: usize)
    requires
        i < p@.len(),
    ensures
        r == class_end(p@, i as int),
        i < r <= p@.len(),
{
    let count: usize = p.len();
    let mut j: usize = i + 1;
    if j < count && (p[j] == '^' || p[j] == '!') {
        j += 1;
    }
    if j < count && p[j] == ']' {
        j += 1;
    }
    proof {
        lemma_class_end(p@, i as int);
    }
    while j < count
        invariant
            j <= count,
            count == p@.len(),
            rest_end(p@, j as int) == class_end(p@, i as int),
            i < class_end(p@, i as int) <= count,
        decreases count - j,
    {
        if p[j] == ']' {
            return j + 1;
        }
        if p[j] == '\\' {
            if count - j < 2 {
                j = count;
            } else {
                j += 2;
            }
        } else {
            j += 1;
        }
    }
    count
}

fn find_braces_end(p: &[char], i: usize) -> (r: usize)
    requires
        i < p@.len(),
    ensures
        r == braces_end(p@, i + 1, 1),
        i < r <= p@.len(),
{
    let count: usize = p.len();
    let mut depth: usize = 1;
    let mut j: usize = i + 1;
    proof {
        lemma_braces_end(p@, i + 1, 1);
    }
    while j < count && depth > 0
        invariant
            j <= count,
            depth <= j,
            count == p@.len(),
            braces_end(p@, j as int, depth as nat) == braces_end(p@, i + 1, 1),
            i < braces_end(p@, i + 1, 1) <= count,
        decreases count - j,
    {
        let c: char = p[j];
        if c == '[' {
            j = find_class_end(p, j);
        } else if c == '{' {
            depth += 1;
            j += 1;
        } else if c == '}' {
            depth -= 1;
            j += 1;
        } else if c == '\\' {
            if count - j < 2 {
                j = count;
            } else {
                j += 2;
            }
        } else {
            j += 1;
        }
    }
    j
}

fn find_wildcard_end(p: &[char], i: usize) -> (r: usize)
    requires
        i < p@.len(),
        p@[i as int] == '*',
    ensures
        r == wildcard_end(p@, i as int),
        i < r <= p@.len(),
{
    let count: usize = p.len();
    let mut j: usize = i;
    proof {
        lemma_stars_end(p@, i as int);
    }
    while j < count && p[j] == '*'
        invariant
            i <= j <= count,
            count == p@.len(),
            stars_end(p@, j as int) == stars_end(p@, i as int),
        decreases count - j,
    {
        j += 1;
    }
    assert(j == stars_end(p@, i as int));
    if j - i >= 2 && j < count && p[j] == '/' {
        j + 1
    } else {
        j
    }
}

fn width_of(c: char) -> (r: u128)
    ensures
        r == width(c),
{
    if (c as u32) < 0x80 {
        1
    } else if (c as u32) < 0x800 {
        2
    } else if (c as u32) < 0x10000 {
        3
    } else {
        4
    }
}

/// Whether the longest literal part of a pattern begins inside a character.
pub fn cuts_char(p: &[char]) -> (r: bool)
    ensures
        r == splits_char(p@),
{
    let count: usize = p.len();
    let mut i: usize = 0;
    let mut run_bytes: u128 = 0;
    let mut run_inside: bool = false;
    let mut best_bytes: u128 = 0;
    let mut best_inside: bool = false;
    while i < count
        invariant
            i <= count,
            count == p@.len(),
            run_bytes <= 4 * i,
            longest(p@, 0, no_run(), no_run()) == longest(
                p@,
                i as int,
                (Run { bytes: run_bytes as nat, inside: run_inside }),
                (Run { bytes: best_bytes as nat, inside: best_inside }),
            ),
        decreases count - i,
    {
        let c: char = p[i];
        if c == '*' || c == '?' || c == '[' || c == '{' || c == '\\' {
            if run_bytes > best_bytes {
                best_bytes = run_bytes;
                best_inside = run_inside;
            }
            run_bytes = 0;
            run_inside = false;
        }
        if c == '*' {
            i = find_wildcard_end(p, i);
        } else if c == '[' {
            i = find_class_end(p, i);
        } else if c == '{' {
            i = find_braces_end(p, i);
        } else if c == '\\' {
            if count - i < 2 {
                i = count;
            } else {
                let w: u128 = width_of(p[i + 1]);
                if w > 1 {
                    run_bytes = w - 1;
                    run_inside = true;
                }
                i += 2;
            }
        } else if c == '?' {
            i += 1;
        } else {
            run_bytes += width_of(c);
            i += 1;
        }
    }
    if run_bytes > best_bytes {
        run_inside
    } else {
        best_inside
    }
}

/// Whether a part of a pattern is literal, where no class, escape or single
/// wildcard occurs in the pattern.
pub open spec fn is_literal(s: Seq<char>) -> bool {
    !s.contains('*') && !s.contains('{')
}

/// Whether a text is made of segments `**/` and a star behind them.
pub open spec fn is_deep_star(s: Seq<char>) -> bool
    decreases s.len(),
{
    &&& s.len() >= 4
    &&& s[0] == '*' && s[1] == '*' && s[2] == '/'
    &&& (s.len() == 4 && s[3] == '*') || is_deep_star(s.skip(3))
}

/// Whether a pattern stands for an extension: `*.ext` or `**/*.ext`.
pub open spec fn has_extension_form(v: Seq<char>) -> bool {
    let dot = last_index(v, '.');
    &&& 0 < dot < v.len() - 1
    &&& is_literal(v.skip(dot + 1))
    &&& (dot == 1 && v[0] == '*') || is_deep_star(v.take(dot))
}

/// Where a character comes last, or -1.
pub open spec fn last_index(s: Seq<char>, c: char) -> int
    decreases s.len(),
{
    if s.len() == 0 {
        -1
    } else if s.last() == c {
        s.len() - 1
    } else {
        last_index(s.drop_last(), c)
    }
}

/// Whether a pattern is a literal part and `/**` behind it.
pub open spec fn has_prefix_form(v: Seq<char>) -> bool {
    let n = v.len() - 3;
    &&& n > 0
    &&& v[n] == '/' && v[n + 1] == '*' && v[n + 2] == '*'
    &&& is_literal(v.take(n))
}

/// Whether a pattern is `**/` and a literal part behind it.
pub open spec fn has_suffix_form(v: Seq<char>) -> bool {
    &&& v.len() > 3
    &&& v[0] == '*' && v[1] == '*' && v[2] == '/'
    &&& is_literal(v.skip(3))
}

/// Whether a pattern is `**/*` and a literal part behind it.
pub open spec fn has_ending_form(v: Seq<char>) -> bool {
    &&& v.len() > 4
    &&& v[0] == '*' && v[1] == '*' && v[2] == '/' && v[3] == '*'
    &&& is_literal(v.skip(4))
}

/// Whether a pattern is `/**/*` between two literal parts.
pub open spec fn has_middle_form(v: Seq<char>) -> bool {
    let s = first_index(v, '*');
    &&& 2 <= s && s + 4 < v.len()
    &&& v[s - 1] == '/' && v[s + 1] == '*' && v[s + 2] == '/' && v[s + 3] == '*'
    &&& is_literal(v.take(s - 1))
    &&& is_literal(v.skip(s + 4))
}

/// Whether a pattern without alternatives is looked up by a table or a trie.
pub open spec fn is_looked_up(v: Seq<char>) -> bool {
    ||| is_literal(v)
    ||| has_extension_form(v)
    ||| has_prefix_form(v)
    ||| has_suffix_form(v)
    ||| has_ending_form(v)
    ||| has_middle_form(v)
}

/// Whether the key in a trie of a pattern without alternatives holds a NUL.
pub open spec fn has_nul_key(v: Seq<char>) -> bool {
    ||| has_prefix_form(v) && v.take(v.len() - 3).contains('\0')
    ||| has_suffix_form(v) && v.skip(3).contains('\0')
    ||| has_ending_form(v) && !has_extension_form(v) && v.skip(4).contains('\0')
    ||| has_middle_form(v) && v.take(first_index(v, '*') - 1).contains('\0')
}

/// Where the first group of alternatives ends.
pub open spec fn group_close(p: Seq<char>) -> int {
    braces_end(p, first_index(p, '{') + 1, 1) - 1
}

/// Whether a pattern has a group of alternatives.
pub open spec fn has_group(p: Seq<char>) -> bool {
    let open = first_index(p, '{');
    open < group_close(p) < p.len() && p[group_close(p)] == '}'
}

/// Where the first comma outside of braces is, from a place on.
pub open spec fn next_comma(s: Seq<char>, i: int) -> int
    decreases s.len() - i,
    via next_comma_ends
{
    if i < 0 || i >= s.len() {
        s.len() as int
    } else if s[i] == '{' {
        next_comma(s, braces_end(s, i + 1, 1))
    } else if s[i] == ',' {
        i
    } else {
        next_comma(s, i + 1)
    }
}

#[via_fn]
proof fn next_comma_ends(s: Seq<char>, i: int) {
    if 0 <= i < s.len() {
        lemma_braces_end(s, i + 1, 1);
    }
}

proof fn lemma_next_comma(s: Seq<char>, i: int)
    requires
        0 <= i <= s.len(),
    ensures
        i <= next_comma(s, i) <= s.len(),
    decreases s.len() - i,
{
    if i < s.len() {
        if s[i] == '{' {
            lemma_braces_end(s, i + 1, 1);
            lemma_next_comma(s, braces_end(s, i + 1, 1));
        } else if s[i] != ',' {
            lemma_next_comma(s, i + 1);
        }
    }
}

/// The alternatives that commas separate.
pub open spec fn alternatives(s: Seq<char>) -> Seq<Seq<char>>
    decreases s.len(),
    via alternatives_end
{
    let k = next_comma(s, 0);
    if k >= s.len() {
        seq![s]
    } else {
        seq![s.take(k)] + alternatives(s.skip(k + 1))
    }
}

#[via_fn]
proof fn alternatives_end(s: Seq<char>) {
    lemma_next_comma(s, 0);
}

proof fn lemma_alternatives(s: Seq<char>)
    ensures
        forall|k: int|
            0 <= k < alternatives(s).len() ==> (#[trigger] alternatives(s)[k]).len() <= s.len(),
    decreases s.len(),
{
    let k = next_comma(s, 0);
    lemma_next_comma(s, 0);
    if k < s.len() {
        lemma_alternatives(s.skip(k + 1));
        let rest = alternatives(s.skip(k + 1));
        assert forall|j: int| 0 <= j < alternatives(s).len() implies (#[trigger] alternatives(s)[j]).len()
            <= s.len() by {
            if j > 0 {
                assert(alternatives(s)[j] == rest[j - 1]);
            }
        }
    }
}

/// The patterns that the alternatives of the first group give.
pub open spec fn expanded(p: Seq<char>) -> Seq<Seq<char>> {
    let open = first_index(p, '{');
    let close = group_close(p);
    alternatives(p.subrange(open + 1, close)).map_values(
        |alt: Seq<char>| p.take(open) + alt + p.skip(close + 1),
    )
}

proof fn lemma_expanded(p: Seq<char>)
    requires
        has_group(p),
    ensures
        forall|k: int| 0 <= k < expanded(p).len() ==> (#[trigger] expanded(p)[k]).len() < p.len(),
{
    let open = first_index(p, '{');
    lemma_first_index(p, '{');
    lemma_alternatives(p.subrange(open + 1, group_close(p)));
}

proof fn lemma_first_index(s: Seq<char>, c: char)
    ensures
        0 <= first_index(s, c) <= s.len(),
    decreases s.len(),
{
    if s.len() > 0 && s[0] != c {
        lemma_first_index(s.skip(1), c);
    }
}

/// Whether all that the groups of a pattern give is looked up by tables or tries.
pub open spec fn all_looked_up(p: Seq<char>) -> bool
    decreases p.len(),
    via all_looked_up_ends
{
    if has_group(p) {
        forall|k: int| 0 <= k < expanded(p).len() ==> all_looked_up(#[trigger] expanded(p)[k])
    } else {
        is_looked_up(p)
    }
}

#[via_fn]
proof fn all_looked_up_ends(p: Seq<char>) {
    if has_group(p) {
        lemma_expanded(p);
    }
}

/// Whether the groups of a pattern give one whose key in a trie holds a NUL.
pub open spec fn any_nul_key(p: Seq<char>) -> bool
    decreases p.len(),
    via any_nul_key_ends
{
    if has_group(p) {
        exists|k: int| 0 <= k < expanded(p).len() && any_nul_key(#[trigger] expanded(p)[k])
    } else {
        has_nul_key(p)
    }
}

#[via_fn]
proof fn any_nul_key_ends(p: Seq<char>) {
    if has_group(p) {
        lemma_expanded(p);
    }
}

/// Whether a pattern gives a trie a key with a NUL. One that holds a class, an
/// escape or a question mark, or gives one that is not looked up, is searched for
/// as a whole and gives no key.
pub open spec fn spoils_trie(p: Seq<char>) -> bool {
    &&& p.contains('\0')
    &&& !p.contains('?') && !p.contains('[') && !p.contains('\\')
    &&& all_looked_up(p)
    &&& any_nul_key(p)
}

fn literal(s: &[char], from: usize, to: usize) -> (r: bool)
    requires
        from <= to <= s@.len(),
    ensures
        r == is_literal(s@.subrange(from as int, to as int)),
{
    let part = chars_between(s, from, to);
    !has_char(part.as_slice(), '*') && !has_char(part.as_slice(), '{')
}

fn holds_nul(s: &[char], from: usize, to: usize) -> (r: bool)
    requires
        from <= to <= s@.len(),
    ensures
        r == s@.subrange(from as int, to as int).contains('\0'),
{
    let part = chars_between(s, from, to);
    has_char(part.as_slice(), '\0')
}

/// Whether a text up to a place is made of segments `**/` and a star behind them.
fn deep_star(s: &[char], to: usize) -> (r: bool)
    requires
        to <= s@.len(),
    ensures
        r == is_deep_star(s@.take(to as int)),
{
    let ghost whole = s@.take(to as int);
    let mut i: usize = 0;
    assert(whole.skip(0) =~= whole);
    while i <= to
        invariant
            i <= to <= s@.len(),
            whole == s@.take(to as int),
            is_deep_star(whole) == is_deep_star(whole.skip(i as int)),
        decreases to - i,
    {
        let ghost rest = whole.skip(i as int);
        if to - i < 4 {
            return false;
        }
        proof {
            assert(rest[0] == s@[i as int] && rest[1] == s@[i + 1] && rest[2] == s@[i + 2] && rest[3]
                == s@[i + 3]);
            assert(rest.skip(3) =~= whole.skip(i + 3));
        }
        if s[i] != '*' || s[i + 1] != '*' || s[i + 2] != '/' {
            return false;
        }
        if to - i == 4 && s[i + 3] == '*' {
            return true;
        }
        i += 3;
    }
    false
}

fn extension_form(v: &[char]) -> (r: bool)
    ensures
        r == has_extension_form(v@),
{
    let count: usize = v.len();
    let mut i: usize = count;
    assert(v@.take(count as int) =~= v@);
    while i > 0
        invariant
            i <= count,
            count == v@.len(),
            last_index(v@, '.') == last_index(v@.take(i as int), '.'),
        decreases i,
    {
        proof {
            assert(v@.take(i as int).drop_last() =~= v@.take(i - 1));
            assert(v@.take(i as int).last() == v@[i - 1]);
        }
        i -= 1;
        if v[i] == '.' {
            if i == 0 || count - i < 2 {
                return false;
            }
            assert(v@.skip(i + 1) =~= v@.subrange(i + 1, count as int));
            return literal(v, i + 1, count) && ((i == 1 && v[0] == '*') || deep_star(v, i));
        }
    }
    false
}

fn prefix_form(v: &[char]) -> (r: bool)
    ensures
        r == has_prefix_form(v@),
{
    let count: usize = v.len();
    if count <= 3 {
        return false;
    }
    let n: usize = count - 3;
    assert(v@.take(n as int) =~= v@.subrange(0, n as int));
    v[n] == '/' && v[n + 1] == '*' && v[n + 2] == '*' && literal(v, 0, n)
}

fn suffix_form(v: &[char]) -> (r: bool)
    ensures
        r == has_suffix_form(v@),
{
    let count: usize = v.len();
    if count <= 3 {
        return false;
    }
    assert(v@.skip(3) =~= v@.subrange(3, count as int));
    v[0] == '*' && v[1] == '*' && v[2] == '/' && literal(v, 3, count)
}

fn ending_form(v: &[char]) -> (r: bool)
    ensures
        r == has_ending_form(v@),
{
    let count: usize = v.len();
    if count <= 4 {
        return false;
    }
    assert(v@.skip(4) =~= v@.subrange(4, count as int));
    v[0] == '*' && v[1] == '*' && v[2] == '/' && v[3] == '*' && literal(v, 4, count)
}

fn middle_form(v: &[char]) -> (r: bool)
    ensures
        r == has_middle_form(v@),
{
    let count: usize = v.len();
    let s: usize = find_char(v, '*');
    if s < 2 || count - s <= 4 {
        return false;
    }
    assert(v@.take(s - 1) =~= v@.subrange(0, s - 1));
    assert(v@.skip(s + 4) =~= v@.subrange(s + 4, count as int));
    v[s - 1] == '/' && v[s + 1] == '*' && v[s + 2] == '/' && v[s + 3] == '*' && literal(v, 0, s - 1)
        && literal(v, s + 4, count)
}

/// Whether a pattern without alternatives is looked up, and whether its key in a
/// trie holds a NUL.
fn looked_up(v: &[char]) -> (r: (bool, bool))
    ensures
        r.0 == is_looked_up(v@),
        r.1 == has_nul_key(v@),
{
    let count: usize = v.len();
    let extension = extension_form(v);
    let prefix = prefix_form(v);
    let suffix = suffix_form(v);
    let ending = ending_form(v);
    let middle = middle_form(v);
    assert(v@.subrange(0, count as int) =~= v@);
    let plain = literal(v, 0, count);
    proof {
        assert(prefix ==> v@.take(count - 3) =~= v@.subrange(0, count - 3));
        assert(suffix ==> v@.skip(3) =~= v@.subrange(3, count as int));
        assert(ending ==> v@.skip(4) =~= v@.subrange(4, count as int));
        let s = first_index(v@, '*');
        assert(middle ==> v@.take(s - 1) =~= v@.subrange(0, s - 1));
    }
    let nul = (prefix && holds_nul(v, 0, count - 3)) || (suffix && holds_nul(v, 3, count)) || (ending
        && !extension && holds_nul(v, 4, count)) || (middle && holds_nul(v, 0, find_char(v, '*') - 1));
    (plain || extension || prefix || suffix || ending || middle, nul)
}

fn find_comma(s: &[char]) -> (r: usize)
    ensures
        r == next_comma(s@, 0),
        r <= s@.len(),
{
    let count: usize = s.len();
    let mut i: usize = 0;
    while i < count
        invariant
            i <= count,
            count == s@.len(),
            next_comma(s@, i as int) == next_comma(s@, 0),
        decreases count - i,
    {
        if s[i] == ',' {
            return i;
        }
        if s[i] == '{' {
            i = find_braces_end(s, i);
        } else {
            i += 1;
        }
    }
    count
}

fn joined(a: &[char], from: usize, to: usize, r: &mut Vec<char>)
    requires
        from <= to <= a@.len(),
    ensures
        final(r)@ == old(r)@ + a@.subrange(from as int, to as int),
{
    let ghost before = r@;
    let mut i: usize = from;
    while i < to
        invariant
            from <= i <= to,
            to <= a@.len(),
            r@ == before + a@.subrange(from as int, i as int),
        decreases to - i,
    {
        r.push(a[i]);
        assert(r@ =~= before + a@.subrange(from as int, i + 1));
        i += 1;
    }
}

/// Whether all that the groups of a pattern give is looked up, and whether a key
/// in a trie holds a NUL.
fn all_and_any(p: &[char]) -> (r: (bool, bool))
    ensures
        r.0 == all_looked_up(p@),
        r.1 == any_nul_key(p@),
    decreases p@.len(),
{
    let count: usize = p.len();
    let open: usize = find_char(p, '{');
    if open >= count {
        assert(!has_group(p@)) by {
            lemma_braces_end(p@, open + 1, 1);
        }
        return looked_up(p);
    }
    let close: usize = find_braces_end(p, open) - 1;
    if close <= open || p[close] != '}' {
        return looked_up(p);
    }
    let ghost list = expanded(p@);
    let ghost alts = alternatives(p@.subrange(open + 1, close as int));
    let mut rest = chars_between(p, open + 1, close);
    let mut all = true;
    let mut any = false;
    let ghost mut done: int = 0;
    let mut more = true;
    proof {
        lemma_expanded(p@);
        assert(alts.skip(0) =~= alts);
    }
    while more
        invariant
            has_group(p@),
            count == p@.len(),
            open == first_index(p@, '{'),
            close == group_close(p@),
            open < close < count,
            list == expanded(p@),
            alts == alternatives(p@.subrange(open + 1, close as int)),
            list.len() == alts.len(),
            0 <= done <= alts.len(),
            more ==> alts.skip(done) == alternatives(rest@),
            !more ==> done == alts.len(),
            forall|k: int| 0 <= k < list.len() ==> (#[trigger] list[k]).len() < p@.len(),
            all == forall|k: int| 0 <= k < done ==> all_looked_up(#[trigger] list[k]),
            any == exists|k: int| 0 <= k < done && any_nul_key(#[trigger] list[k]),
        decreases alts.len() - done,
    {
        let comma: usize = find_comma(rest.as_slice());
        let mut variant: Vec<char> = Vec::new();
        joined(p, 0, open, &mut variant);
        joined(rest.as_slice(), 0, comma, &mut variant);
        joined(p, close + 1, count, &mut variant);
        proof {
            let now = alternatives(rest@);
            assert(now.len() > 0);
            assert(alts[done] == alts.skip(done)[0]);
            assert(rest@.subrange(0, comma as int) =~= now[0]);
            assert(variant@ =~= p@.take(open as int) + alts[done] + p@.skip(close + 1));
            assert(variant@ == list[done]);
        }
        let (fast, nul) = all_and_any(variant.as_slice());
        proof {
            assert(all_looked_up(list[done]) == fast);
            assert(any_nul_key(list[done]) == nul);
            if any && exists|k: int| 0 <= k < done && any_nul_key(#[trigger] list[k]) {
                let k = choose|k: int| 0 <= k < done && any_nul_key(#[trigger] list[k]);
                assert(any_nul_key(list[k]));
            }
        }
        all = all && fast;
        any = any || nul;
        if comma < rest.len() {
            let next = chars_between(rest.as_slice(), comma + 1, rest.len());
            proof {
                assert(next@ =~= rest@.skip(comma + 1));
                assert(alts.skip(done + 1) =~= alts.skip(done).skip(1));
                assert(alternatives(rest@).skip(1) =~= alternatives(next@));
            }
            rest = next;
        } else {
            more = false;
            assert(alts.skip(done).len() == 1);
        }
        proof {
            done = done + 1;
        }
    }
    (all, any)
}

/// Whether a pattern gives a trie a key with a NUL.
pub fn gives_nul_key(p: &[char]) -> (r: bool)
    ensures
        r == spoils_trie(p@),
{
    if !has_char(p, '\0') || has_char(p, '?') || has_char(p, '[') || has_char(p, '\\') {
        return false;
    }
    let (all, any) = all_and_any(p);
    all && any
}

proof fn lemma_never_inside(p: Seq<char>, i: int, run: Run, best: Run)
    requires
        !p.contains('\\'),
        !run.inside,
        !best.inside,
    ensures
        !longest(p, i, run, best).inside,
    decreases p.len() - i,
{
    if 0 <= i < p.len() {
        assert(p[i] != '\\') by {
            assert(p.contains(p[i]));
        }
        lemma_stars_end(p, i);
        lemma_class_end(p, i);
        lemma_braces_end(p, i + 1, 1);
        if p[i] == '*' {
            lemma_never_inside(p, wildcard_end(p, i), no_run(), longer(best, run));
        } else if p[i] == '?' {
            lemma_never_inside(p, i + 1, no_run(), longer(best, run));
        } else if p[i] == '[' {
            lemma_never_inside(p, class_end(p, i), no_run(), longer(best, run));
        } else if p[i] == '{' {
            lemma_never_inside(p, braces_end(p, i + 1, 1), no_run(), longer(best, run));
        } else {
            lemma_never_inside(p, i + 1, Run { bytes: run.bytes + width(p[i]), ..run }, best);
        }
    }
}

/// A pattern without an escape cuts no character, and one without a NUL, or with a
/// class, an escape or a question mark, spoils no trie.
pub proof fn plain_patterns_do_no_harm(p: Seq<char>)
    ensures
        !p.contains('\\') ==> !splits_char(p),
        !p.contains('\0') ==> !spoils_trie(p),
        p.contains('?') || p.contains('[') || p.contains('\\') ==> !spoils_trie(p),
{
    if !p.contains('\\') {
        lemma_never_inside(p, 0, no_run(), no_run());
    }
}

/// An escaped character of several bytes is cut if nothing longer stands beside
/// it.
pub proof fn escapes_cut_wide_characters(c: char)
    ensures
        splits_char(seq!['\\', c]) <==> width(c) > 1,
        width(c) > 1 <==> c as u32 >= 0x80,
{
    let p = seq!['\\', c];
    let next = if width(c) > 1 {
        Run { bytes: (width(c) - 1) as nat, inside: true }
    } else {
        no_run()
    };
    assert(longest(p, 0, no_run(), no_run()) == longest(p, 2, next, longer(no_run(), no_run())));
    assert(longest(p, 2, next, longer(no_run(), no_run())) == longer(longer(no_run(), no_run()), next));
}

} // verus!
