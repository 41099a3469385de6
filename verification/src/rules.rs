//! Ignore rules: what a line of an ignore file says.
use vstd::prelude::*;
use crate::error::Failure;
use crate::globs::{glob_accepts, glob_is_match, glob_matches, new_glob};
use crate::path::{PathBuf, PathView};
use crate::text::{
    char_lists, chars_between, chars_of, has_char, lines, lines_of, lossy_text, text_of, utf8_lossy,
};

verus! {

/// What a rule says of the paths that it matches.
#[derive(Clone, Copy, Debug, PartialEq, Eq, Structural)]
pub enum Decision {
    Include,
    Exclude,
}

/// One rule of an ignore file.
#[derive(Debug)]
pub struct Rule {
    pub base: PathBuf,
    pub pattern: String,
    pub decision: Decision,
    pub dir_only: bool,
    pub basename_only: bool,
}

/// What a rule is.
#[verifier::ext_equal]
pub struct RuleView {
    pub base: PathView,
    pub pattern: Seq<char>,
    pub decision: Decision,
    pub dir_only: bool,
    pub basename_only: bool,
}

impl View for Rule {
    type V = RuleView;

    open spec fn view(&self) -> RuleView {
        RuleView {
            base: self.base@,
            pattern: self.pattern@,
            decision: self.decision,
            dir_only: self.dir_only,
            basename_only: self.basename_only,
        }
    }
}

impl Clone for Rule {
    fn clone(&self) -> (r: Self)
        ensures
            r@ == self@,
    {
        Rule {
            base: self.base.clone(),
            pattern: self.pattern.clone(),
            decision: self.decision,
            dir_only: self.dir_only,
            basename_only: self.basename_only,
        }
    }
}

/// What rules are.
pub open spec fn rule_views(s: Seq<Rule>) -> Seq<RuleView> {
    s.map_values(|r: Rule| r@)
}

/// A text without carriage returns at its end.
pub open spec fn trim_returns(s: Seq<char>) -> Seq<char>
    decreases s.len(),
{
    if s.len() > 0 && s.last() == '\r' {
        trim_returns(s.drop_last())
    } else {
        s
    }
}

/// How many backslashes end a text.
pub open spec fn backslashes(s: Seq<char>) -> nat
    decreases s.len(),
{
    if s.len() > 0 && s.last() == '\\' {
        backslashes(s.drop_last()) + 1
    } else {
        0
    }
}

/// A text without the spaces at its end that no backslash escapes.
pub open spec fn trim_spaces(s: Seq<char>) -> Seq<char>
    decreases s.len(),
{
    if s.len() > 0 && s.last() == ' ' && backslashes(s.drop_last()) % 2 == 0 {
        trim_spaces(s.drop_last())
    } else {
        s
    }
}

/// A pattern without the mark that turns it around.
pub open spec fn unmarked(s: Seq<char>) -> Seq<char> {
    if s.len() > 0 && s[0] == '!' {
        s.skip(1)
    } else {
        s
    }
}

/// Whether a pattern is for directories: it ends in a slash that is not
/// escaped.
pub open spec fn for_dirs(s: Seq<char>) -> bool {
    s.len() > 0 && s.last() == '/' && !(s.len() > 1 && s[s.len() - 2] == '\\')
}

/// A pattern without the slash that makes it one for directories.
pub open spec fn without_dir_slash(s: Seq<char>) -> Seq<char> {
    if for_dirs(s) {
        s.drop_last()
    } else {
        s
    }
}

/// Whether a pattern starts at its base.
pub open spec fn is_anchored(s: Seq<char>) -> bool {
    s.len() > 0 && s[0] == '/'
}

/// What a glob is made of: a pattern without the slash that anchors it, and
/// with a leading exclamation mark escaped.
pub open spec fn glob_text(s: Seq<char>) -> Seq<char> {
    let t = if is_anchored(s) {
        s.skip(1)
    } else {
        s
    };
    if t.len() > 0 && t[0] == '!' {
        seq!['\\'] + t
    } else {
        t
    }
}

/// What a line says. A `!` turns a rule around; in overrides a plain pattern
/// includes, elsewhere it excludes.
pub open spec fn rule_of(line: Seq<char>, base: PathView, override_rule: bool) -> Option<RuleView> {
    let whole = trim_spaces(trim_returns(line));
    let marked = unmarked(whole);
    let negated = whole.len() > 0 && whole[0] == '!';
    let body = without_dir_slash(marked);
    let pattern = glob_text(body);
    if whole.len() == 0 || whole[0] == '#' || marked.len() == 0 || pattern.len() == 0 {
        None
    } else {
        Some(
            RuleView {
                base,
                pattern,
                decision: if override_rule != negated {
                    Decision::Include
                } else {
                    Decision::Exclude
                },
                dir_only: for_dirs(marked),
                basename_only: !is_anchored(body) && !pattern.contains('/'),
            },
        )
    }
}

/// How many characters are left without the unescaped spaces at the end.
pub fn trim_unescaped_spaces(line: &[char]) -> (r: usize)
    ensures
        r <= line@.len(),
        line@.take(r as int) == trim_spaces(line@),
{
    let mut n: usize = line.len();
    assert(line@.take(n as int) =~= line@);
    loop
        invariant
            n <= line@.len(),
            trim_spaces(line@) == trim_spaces(line@.take(n as int)),
        ensures
            n <= line@.len(),
            line@.take(n as int) == trim_spaces(line@),
        decreases n,
    {
        if n == 0 || line[n - 1] != ' ' {
            break;
        }
        let ghost before = line@.take(n - 1);
        assert(line@.take(n as int).drop_last() =~= before);
        let mut k: usize = n - 1;
        let mut odd: bool = false;
        assert(before.take(k as int) =~= before);
        while k > 0 && line[k - 1] == '\\'
            invariant
                k <= n - 1,
                n <= line@.len(),
                before == line@.take(n - 1),
                backslashes(before) == (n - 1 - k) + backslashes(before.take(k as int)),
                odd == ((n - 1 - k) % 2 == 1),
            decreases k,
        {
            assert(before.take(k as int).drop_last() =~= before.take(k - 1));
            assert(before.take(k as int).last() == line@[k - 1]);
            k -= 1;
            odd = !odd;
        }
        proof {
            if k > 0 {
                assert(before.take(k as int).last() == line@[k - 1]);
            }
            assert(backslashes(before.take(k as int)) == 0);
        }
        if odd {
            break;
        }
        n -= 1;
    }
    n
}

/// Reads a line of an ignore file, or an override.
pub fn parse_rule(line: &str, base: &PathBuf, override_rule: bool) -> (r: Option<Rule>)
    ensures
        match r {
            Some(rule) => rule_of(line@, base@, override_rule) == Some(rule@),
            None => rule_of(line@, base@, override_rule) is None,
        },
{
    let chars = chars_of(line);
    parse_chars(chars.as_slice(), base, override_rule)
}

fn parse_chars(line: &[char], base: &PathBuf, override_rule: bool) -> (r: Option<Rule>)
    ensures
        match r {
            Some(rule) => rule_of(line@, base@, override_rule) == Some(rule@),
            None => rule_of(line@, base@, override_rule) is None,
        },
{
    let mut end: usize = line.len();
    assert(line@.take(end as int) =~= line@);
    while end > 0 && line[end - 1] == '\r'
        invariant
            end <= line@.len(),
            trim_returns(line@) == trim_returns(line@.take(end as int)),
        decreases end,
    {
        assert(line@.take(end as int).drop_last() =~= line@.take(end - 1));
        end -= 1;
    }
    let ghost bare = trim_returns(line@);
    assert(bare == line@.take(end as int));
    let line = chars_between(line, 0, end);
    assert(line@ =~= bare);
    let end: usize = trim_unescaped_spaces(line.as_slice());
    let ghost whole = trim_spaces(bare);
    if end == 0 || line[0] == '#' {
        return None;
    }
    let negated = line[0] == '!';
    let mut from: usize = if negated {
        1
    } else {
        0
    };
    let ghost marked = unmarked(whole);
    assert(marked =~= line@.subrange(from as int, end as int));
    if from == end {
        return None;
    }
    let dir_only = line[end - 1] == '/' && !(end - from > 1 && line[end - 2] == '\\');
    assert(dir_only == for_dirs(marked));
    let to: usize = if dir_only {
        end - 1
    } else {
        end
    };
    let ghost body = without_dir_slash(marked);
    assert(body =~= line@.subrange(from as int, to as int));
    let anchored = from < to && line[from] == '/';
    if anchored {
        from += 1;
    }
    let ghost text = line@.subrange(from as int, to as int);
    assert(text =~= if is_anchored(body) {
        body.skip(1)
    } else {
        body
    });
    if from == to {
        return None;
    }
    let mut pattern: Vec<char> = Vec::new();
    if line[from] == '!' {
        pattern.push('\\');
    }
    let mut rest = chars_between(line.as_slice(), from, to);
    pattern.append(&mut rest);
    assert(pattern@ =~= glob_text(body));
    let basename_only = !anchored && !has_char(pattern.as_slice(), '/');
    let decision = if override_rule != negated {
        Decision::Include
    } else {
        Decision::Exclude
    };
    Some(
        Rule {
            base: base.clone(),
            pattern: text_of(pattern.as_slice()),
            decision,
            dir_only,
            basename_only,
        },
    )
}

/// The rules of lines: those lines that say something.
pub open spec fn rules_of(all: Seq<Seq<char>>, base: PathView, override_rule: bool) -> Seq<RuleView>
    decreases all.len(),
{
    if all.len() == 0 {
        Seq::empty()
    } else {
        let before = rules_of(all.drop_last(), base, override_rule);
        match rule_of(all.last(), base, override_rule) {
            Some(rule) => before.push(rule),
            None => before,
        }
    }
}

/// Reads an ignore file.
pub fn parse_file(bytes: &[u8], base: &PathBuf) -> (r: Vec<Rule>)
    ensures
        rule_views(r@) == rules_of(lines(utf8_lossy(bytes@)), base@, false),
{
    let text = lossy_text(bytes);
    let chars = chars_of(text.as_str());
    let all = lines_of(chars.as_slice());
    let ghost ls = lines(utf8_lossy(bytes@));
    let mut r: Vec<Rule> = Vec::new();
    let mut i: usize = 0;
    proof {
        assert(ls.take(0) =~= Seq::empty());
        assert(rule_views(r@) =~= Seq::empty());
        assert(char_lists(all@).len() == all@.len());
    }
    while i < all.len()
        invariant
            i <= all@.len(),
            char_lists(all@) == ls,
            all@.len() == ls.len(),
            rule_views(r@) == rules_of(ls.take(i as int), base@, false),
        decreases all.len() - i,
    {
        let ghost rb = r@;
        proof {
            assert(ls.take(i + 1).drop_last() =~= ls.take(i as int));
            assert(ls.take(i + 1).last() == char_lists(all@)[i as int]);
        }
        if let Some(rule) = parse_chars(all[i].as_slice(), base, false) {
            r.push(rule);
            assert(rule_views(r@) =~= rule_views(rb).push(rule@));
        }
        i += 1;
    }
    assert(ls.take(i as int) =~= ls);
    r
}

/// The nesting that is left open after a text: brackets, braces, and whether a
/// backslash is last.
pub open spec fn open_after(s: Seq<u8>) -> (nat, nat, bool)
    decreases s.len(),
{
    if s.len() == 0 {
        (0, 0, false)
    } else {
        let (brackets, braces, escaped) = open_after(s.drop_last());
        let b = s.last();
        if escaped {
            (brackets, braces, false)
        } else if b == 0x5c {
            (brackets, braces, true)
        } else if b == 0x5b {
            (brackets + 1, braces, false)
        } else if b == 0x5d && brackets > 0 {
            ((brackets - 1) as nat, braces, false)
        } else if b == 0x7b {
            (brackets, braces + 1, false)
        } else if b == 0x7d && braces > 0 {
            (brackets, (braces - 1) as nat, false)
        } else {
            (brackets, braces, false)
        }
    }
}

/// Whether an override leaves no bracket, brace or escape open.
pub open spec fn is_balanced(pattern: Seq<char>) -> bool {
    open_after(vstd::utf8::encode_utf8(pattern)) == (0nat, 0nat, false)
}

proof fn lemma_open_bounds(s: Seq<u8>)
    ensures
        open_after(s).0 <= s.len(),
        open_after(s).1 <= s.len(),
    decreases s.len(),
{
    if s.len() > 0 {
        lemma_open_bounds(s.drop_last());
    }
}

/// Rejects an override that leaves a bracket, a brace or an escape open.
pub fn validate_override(pattern: &str) -> (r: Result<(), Failure>)
    ensures
        match r {
            Ok(_) => is_balanced(pattern@),
            Err(e) => !is_balanced(pattern@) && e is Override && (e->Override_0)@ == pattern@,
        },
{
    let bytes = pattern.as_bytes();
    let ghost b = vstd::utf8::encode_utf8(pattern@);
    let mut escaped = false;
    let mut brackets: usize = 0;
    let mut braces: usize = 0;
    let mut i: usize = 0;
    assert(b.take(0) =~= Seq::empty());
    while i < bytes.len()
        invariant
            bytes@ == b,
            i <= b.len(),
            open_after(b.take(i as int)) == (brackets as nat, braces as nat, escaped),
        decreases bytes.len() - i,
    {
        proof {
            assert(b.take(i + 1).drop_last() =~= b.take(i as int));
            assert(b.take(i + 1).last() == b[i as int]);
            lemma_open_bounds(b.take(i as int));
        }
        let byte: u8 = bytes[i];
        if escaped {
            escaped = false;
        } else if byte == 0x5c {
            escaped = true;
        } else if byte == 0x5b {
            brackets += 1;
        } else if byte == 0x5d && brackets > 0 {
            brackets -= 1;
        } else if byte == 0x7b {
            braces += 1;
        } else if byte == 0x7d && braces > 0 {
            braces -= 1;
        }
        i += 1;
    }
    assert(b.take(i as int) =~= b);
    if brackets == 0 && braces == 0 && !escaped {
        return Ok(());
    }
    Err(Failure::Override(pattern.to_owned()))
}

/// A text with slashes for backslashes.
pub open spec fn with_slashes(s: Seq<char>) -> Seq<char> {
    s.map_values(|c: char| if c == '\\' { '/' } else { c })
}

/// A path as patterns see it.
pub open spec fn spec_slash_path(p: PathView) -> Seq<char> {
    with_slashes(utf8_lossy(p.bytes()))
}

/// A path as patterns see it.
pub fn slash_path(path: &PathBuf) -> (r: String)
    ensures
        r@ == spec_slash_path(path@),
        !path@.bytes().contains(0) ==> !r@.contains('\0'),
{
    let bytes = path.to_bytes();
    let text = lossy_text(bytes.as_slice());
    let chars = chars_of(text.as_str());
    let mut r: Vec<char> = Vec::with_capacity(chars.len());
    let mut i: usize = 0;
    while i < chars.len()
        invariant
            i <= chars@.len(),
            r@ == with_slashes(chars@.take(i as int)),
        decreases chars.len() - i,
    {
        let c = chars[i];
        r.push(if c == '\\' { '/' } else { c });
        assert(with_slashes(chars@.take(i + 1)) =~= with_slashes(chars@.take(i as int)).push(
            if chars@[i as int] == '\\' {
                '/'
            } else {
                chars@[i as int]
            },
        ));
        i += 1;
    }
    assert(chars@.take(i as int) =~= chars@);
    proof {
        if r@.contains('\0') {
            let k = choose|k: int| 0 <= k < r@.len() && r@[k] == '\0';
            assert(chars@[k] == '\0');
        }
    }
    text_of(r.as_slice())
}

/// Whether a name is hidden: its text starts with a dot.
pub open spec fn spec_is_hidden(name: Seq<u8>) -> bool {
    utf8_lossy(name).len() > 0 && utf8_lossy(name)[0] == '.'
}

/// Whether a name is hidden.
pub fn is_hidden(name: &[u8]) -> (r: bool)
    ensures
        r == spec_is_hidden(name@),
{
    let text = lossy_text(name);
    let chars = chars_of(text.as_str());
    chars.len() > 0 && chars[0] == '.'
}

/// Whether a rule applies to a path: the path lies below the base, is a
/// directory if the rule is for directories, and its name, or what lies
/// between base and path, matches.
pub open spec fn rule_matches(rule: RuleView, path: PathView, is_dir: bool) -> bool {
    &&& rule.dir_only ==> is_dir
    &&& path.strip_prefix(rule.base) is Some
    &&& (path.strip_prefix(rule.base)->0).depth() > 0
    &&& glob_accepts(rule.pattern)
    &&& if rule.basename_only {
        path.file_name() is Some && glob_matches(rule.pattern, utf8_lossy(path.file_name()->0))
    } else {
        glob_matches(rule.pattern, spec_slash_path(path.strip_prefix(rule.base)->0))
    }
}

impl Rule {
    /// Whether the rule applies to a path.
    pub fn matches(&self, path: &PathBuf, is_dir: bool) -> (r: bool)
        ensures
            r == rule_matches(self@, path@, is_dir),
    {
        if self.dir_only && !is_dir {
            return false;
        }
        let relative = match path.strip_prefix(&self.base) {
            Some(relative) => relative,
            None => {
                return false;
            },
        };
        if relative.is_empty() {
            return false;
        }
        let glob = match new_glob(self.pattern.as_str()) {
            Ok(glob) => glob,
            Err(_) => {
                return false;
            },
        };
        if self.basename_only {
            match path.file_name() {
                Some(name) => {
                    let text = lossy_text(name);
                    glob_is_match(&glob, text.as_str())
                },
                None => false,
            }
        } else {
            let text = slash_path(&relative);
            glob_is_match(&glob, text.as_str())
        }
    }
}

/// A `!` turns the decision of a rule around, and so does its being an
/// override; nothing else of the rule depends on either.
pub proof fn polarity(line: Seq<char>, base: PathView)
    ensures
        rule_of(line, base, true) is Some == rule_of(line, base, false) is Some,
        rule_of(line, base, true) is Some ==> ({
            let over = rule_of(line, base, true)->0;
            let plain = rule_of(line, base, false)->0;
            over.decision != plain.decision && over == (RuleView { decision: over.decision, ..plain })
        }),
{
}

/// A line that is empty or starts with a number sign says nothing.
pub proof fn comments_say_nothing(line: Seq<char>, base: PathView, override_rule: bool)
    requires
        line.len() == 0 || (line[0] == '#'),
    ensures
        rule_of(line, base, override_rule) is None,
{
    lemma_trim_first(line);
    lemma_trim_spaces_first(trim_returns(line));
}

proof fn lemma_trim_first(s: Seq<char>)
    ensures
        trim_returns(s).len() > 0 ==> s.len() > 0 && trim_returns(s)[0] == s[0],
    decreases s.len(),
{
    if s.len() > 0 && s.last() == '\r' {
        lemma_trim_first(s.drop_last());
    }
}

proof fn lemma_trim_spaces_first(s: Seq<char>)
    ensures
        trim_spaces(s).len() > 0 ==> s.len() > 0 && trim_spaces(s)[0] == s[0],
    decreases s.len(),
{
    if s.len() > 0 && s.last() == ' ' && backslashes(s.drop_last()) % 2 == 0 {
        lemma_trim_spaces_first(s.drop_last());
    }
}

/// A character so many times.
pub open spec fn repeated(c: char, n: nat) -> Seq<char> {
    Seq::new(n, |i: int| c)
}

/// A pattern as a line spells it: with the mark that turns it around, with the
/// slash that anchors it, with the slash that makes it one for directories, and
/// with spaces and carriage returns at the end.
pub open spec fn written(
    pattern: Seq<char>,
    negated: bool,
    anchored: bool,
    dirs: bool,
    spaces: nat,
    ends: nat,
) -> Seq<char> {
    (if negated {
        seq!['!']
    } else {
        Seq::empty()
    }) + (if anchored {
        seq!['/']
    } else {
        Seq::empty()
    }) + pattern + (if dirs {
        seq!['/']
    } else {
        Seq::empty()
    }) + repeated(' ', spaces) + repeated('\r', ends)
}

proof fn lemma_returns_off(s: Seq<char>, n: nat)
    requires
        s.len() > 0,
        s.last() != '\r',
    ensures
        trim_returns(s + repeated('\r', n)) == s,
    decreases n,
{
    let t = s + repeated('\r', n);
    if n > 0 {
        assert(t.drop_last() =~= s + repeated('\r', (n - 1) as nat));
        lemma_returns_off(s, (n - 1) as nat);
    } else {
        assert(t =~= s);
    }
}

proof fn lemma_spaces_off(s: Seq<char>, n: nat)
    requires
        s.len() > 0,
        s.last() != ' ',
        s.last() != '\\',
    ensures
        trim_spaces(s + repeated(' ', n)) == s,
    decreases n,
{
    let t = s + repeated(' ', n);
    if n > 0 {
        let d = s + repeated(' ', (n - 1) as nat);
        assert(t.drop_last() =~= d);
        assert(backslashes(d) == 0);
        lemma_spaces_off(s, (n - 1) as nat);
    } else {
        assert(t =~= s);
    }
}

/// A line means the pattern that it spells, however it is decorated: a leading
/// slash ties the pattern to its base, a trailing one makes it one for directories
/// alone, a mark turns the decision around, and spaces and carriage returns at the
/// end mean nothing. A pattern that is not tied and has no slash inside is for
/// names at any depth.
pub proof fn lines_mean_what_they_spell(
    pattern: Seq<char>,
    negated: bool,
    anchored: bool,
    dirs: bool,
    spaces: nat,
    ends: nat,
    base: PathView,
    override_rule: bool,
)
    requires
        pattern.len() > 0,
        pattern[0] != '/' && pattern[0] != '!',
        pattern[0] != '#' || negated || anchored,
        pattern.last() != '/' && pattern.last() != ' ' && pattern.last() != '\r' && pattern.last() != '\\',
    ensures
        rule_of(written(pattern, negated, anchored, dirs, spaces, ends), base, override_rule) == Some(
            RuleView {
                base,
                pattern,
                decision: if negated == override_rule {
                    Decision::Exclude
                } else {
                    Decision::Include
                },
                dir_only: dirs,
                basename_only: !anchored && !pattern.contains('/'),
            },
        ),
{
    let line = written(pattern, negated, anchored, dirs, spaces, ends);
    let front = (if negated {
        seq!['!']
    } else {
        Seq::empty()
    });
    let tie = (if anchored {
        seq!['/']
    } else {
        Seq::empty()
    });
    let back = (if dirs {
        seq!['/']
    } else {
        Seq::empty()
    });
    let body = tie + pattern;
    let marked = body + back;
    let whole = front + marked;
    assert(line =~= whole + repeated(' ', spaces) + repeated('\r', ends));
    assert(whole.last() != ' ' && whole.last() != '\\' && whole.last() != '\r');
    let spaced = whole + repeated(' ', spaces);
    assert(spaced.last() != '\r');
    lemma_returns_off(spaced, ends);
    lemma_spaces_off(whole, spaces);
    assert(trim_spaces(trim_returns(line)) == whole);
    assert(unmarked(whole) =~= marked) by {
        assert(whole.skip(1) =~= if negated { marked } else { whole.skip(1) });
    }
    assert(for_dirs(marked) == dirs);
    assert(without_dir_slash(marked) =~= body);
    assert(glob_text(body) =~= pattern) by {
        assert(body.skip(1) =~= if anchored { pattern } else { body.skip(1) });
    }
    assert(whole[0] != '#');
}

proof fn lemma_prefix_of_line(line: Seq<char>)
    ensures
        trim_spaces(trim_returns(line)).is_prefix_of(line),
    decreases line.len(),
{
    lemma_returns_prefix(line);
    lemma_spaces_prefix(trim_returns(line));
}

proof fn lemma_returns_prefix(s: Seq<char>)
    ensures
        trim_returns(s).is_prefix_of(s),
    decreases s.len(),
{
    if s.len() > 0 && s.last() == '\r' {
        lemma_returns_prefix(s.drop_last());
    }
}

proof fn lemma_spaces_prefix(s: Seq<char>)
    ensures
        trim_spaces(s).is_prefix_of(s),
    decreases s.len(),
{
    if s.len() > 0 && s.last() == ' ' && backslashes(s.drop_last()) % 2 == 0 {
        lemma_spaces_prefix(s.drop_last());
    }
}

/// Whatever follows, a line whose pattern starts with a slash, behind the mark or
/// without one, is for paths from its base and not for names at any depth.
pub proof fn leading_slashes_anchor(line: Seq<char>, base: PathView, override_rule: bool)
    requires
        line.len() > 0,
        line[0] == '/' || (line.len() > 1 && line[0] == '!' && line[1] == '/'),
        rule_of(line, base, override_rule) is Some,
    ensures
        !(rule_of(line, base, override_rule)->0).basename_only,
{
    lemma_prefix_of_line(line);
    let whole = trim_spaces(trim_returns(line));
    assert(forall|i: int| 0 <= i < whole.len() ==> whole[i] == line[i]);
    let marked = unmarked(whole);
    assert(marked.len() > 0);
    assert(marked[0] == '/');
    let body = without_dir_slash(marked);
    assert(body.len() > 0) by {
        if body.len() == 0 {
            assert(glob_text(body).len() == 0);
        }
    }
    assert(body[0] == '/');
}

/// A pattern with a slash inside is never for names, and no glob begins with an
/// exclamation mark, which would turn it around.
pub proof fn slashes_inside_make_paths(line: Seq<char>, base: PathView, override_rule: bool)
    requires
        rule_of(line, base, override_rule) is Some,
    ensures
        ({
            let rule = rule_of(line, base, override_rule)->0;
            &&& rule.pattern.contains('/') ==> !rule.basename_only
            &&& rule.base == base
            &&& rule.pattern.len() > 0
            &&& rule.pattern[0] != '!'
            &&& rule.dir_only ==> line.contains('/')
        }),
{
    lemma_prefix_of_line(line);
    let whole = trim_spaces(trim_returns(line));
    let marked = unmarked(whole);
    if for_dirs(marked) {
        let i = if whole[0] == '!' {
            marked.len() as int
        } else {
            marked.len() - 1
        };
        assert(whole[i] == '/');
        assert(line[i] == '/');
    }
}

/// The rules of two parts of a file are those of the one and then those of the
/// other, and each line has its say.
pub proof fn lines_speak_in_turn(a: Seq<Seq<char>>, b: Seq<Seq<char>>, base: PathView, override_rule: bool)
    ensures
        rules_of(a + b, base, override_rule) == rules_of(a, base, override_rule) + rules_of(
            b,
            base,
            override_rule,
        ),
        rules_of(seq![], base, override_rule).len() == 0,
        forall|line: Seq<char>|
            #![trigger rules_of(seq![line], base, override_rule)]
            match rule_of(line, base, override_rule) {
                Some(rule) => rules_of(seq![line], base, override_rule) == seq![rule],
                None => rules_of(seq![line], base, override_rule).len() == 0,
            },
    decreases b.len(),
{
    if b.len() == 0 {
        assert(a + b =~= a);
        assert(rules_of(b, base, override_rule) =~= Seq::empty());
    } else {
        lines_speak_in_turn(a, b.drop_last(), base, override_rule);
        assert((a + b).drop_last() =~= a + b.drop_last());
        assert(rules_of(a + b, base, override_rule) =~= rules_of(a, base, override_rule) + rules_of(
            b,
            base,
            override_rule,
        ));
    }
    assert forall|line: Seq<char>|
        #![trigger rules_of(seq![line], base, override_rule)]
        match rule_of(line, base, override_rule) {
            Some(rule) => rules_of(seq![line], base, override_rule) == seq![rule],
            None => rules_of(seq![line], base, override_rule).len() == 0,
        } by {
        assert(seq![line].drop_last() =~= Seq::empty());
        assert(rules_of(Seq::<Seq<char>>::empty(), base, override_rule) =~= Seq::empty());
        if let Some(rule) = rule_of(line, base, override_rule) {
            assert(rules_of(seq![line], base, override_rule) =~= seq![rule]);
        }
    }
}

/// Where nothing is escaped, a bracket or brace that is closed leaves open what was
/// open before it. A backslash takes its meaning from the byte after it, and any
/// other byte has none. What is open was opened: nothing else is.
pub proof fn closing_undoes_opening(s: Seq<u8>, b: u8)
    requires
        !open_after(s).2,
    ensures
        open_after(s.push(0x5b).push(0x5d)) == open_after(s),
        open_after(s.push(0x7b).push(0x7d)) == open_after(s),
        open_after(s.push(0x5c).push(b)) == open_after(s),
        b != 0x5b && b != 0x5c && b != 0x5d && b != 0x7b && b != 0x7d ==> open_after(s.push(b)) == open_after(s),
        open_after(s.push(0x5b)).0 == open_after(s).0 + 1,
        open_after(s.push(0x5b)).1 == open_after(s).1,
        open_after(s.push(0x7b)).1 == open_after(s).1 + 1,
        open_after(s.push(0x7b)).0 == open_after(s).0,
        open_after(s).0 == 0 ==> open_after(s.push(0x5d)) == open_after(s),
        open_after(s).1 == 0 ==> open_after(s.push(0x7d)) == open_after(s),
        open_after(s.push(0x5c)).2,
        open_after(Seq::empty()) == (0nat, 0nat, false),
{
    assert(s.push(0x5b).drop_last() =~= s);
    assert(s.push(0x7b).drop_last() =~= s);
    assert(s.push(0x5c).drop_last() =~= s);
    assert(s.push(0x5d).drop_last() =~= s);
    assert(s.push(0x7d).drop_last() =~= s);
    assert(s.push(b).drop_last() =~= s);
    assert(s.push(0x5b).push(0x5d).drop_last() =~= s.push(0x5b));
    assert(s.push(0x7b).push(0x7d).drop_last() =~= s.push(0x7b));
    assert(s.push(0x5c).push(b).drop_last() =~= s.push(0x5c));
    let (brackets, braces, escaped) = open_after(s);
    assert(open_after(s.push(0x5b)) == (brackets + 1, braces, false));
    assert(open_after(s.push(0x7b)) == (brackets, braces + 1, false));
    assert(open_after(s.push(0x5c)) == (brackets, braces, true));
    assert(s.push(0x5b).push(0x5d).last() == 0x5d);
    assert(s.push(0x7b).push(0x7d).last() == 0x7d);
    assert(open_after(s.push(0x5b).push(0x5d)) == (brackets, braces, false));
    assert(open_after(s.push(0x7b).push(0x7d)) == (brackets, braces, false));
    assert(open_after(s.push(0x5c).push(b)) == (brackets, braces, false));
}

/// A rule says nothing of its base, nor of what is not below it. A rule for
/// directories says nothing of files, and any other rule does not ask.
pub proof fn rules_reach_below_their_base(rule: RuleView, path: PathView, is_dir: bool)
    ensures
        rule.base.depth() > 0 && path == rule.base ==> !rule_matches(rule, path, is_dir),
        !path.starts_with(rule.base) ==> !rule_matches(rule, path, is_dir),
        rule.dir_only ==> !rule_matches(rule, path, false),
        !rule.dir_only ==> rule_matches(rule, path, true) == rule_matches(rule, path, false),
        rule_matches(rule, path, false) ==> rule_matches(rule, path, true),
{
}

/// A rule for names goes by the name alone, wherever below the base it is.
pub proof fn name_rules_match_anywhere(rule: RuleView, path: PathView, other: PathView, is_dir: bool)
    requires
        rule.basename_only,
        rule.base.depth() > 0,
        path.starts_with(rule.base),
        other.starts_with(rule.base),
        path.depth() > rule.base.depth(),
        other.depth() > rule.base.depth(),
        path.file_name() == other.file_name(),
    ensures
        rule_matches(rule, path, is_dir) == rule_matches(rule, other, is_dir),
{
    assert((path.strip_prefix(rule.base)->0).depth() > 0);
    assert((other.strip_prefix(rule.base)->0).depth() > 0);
}

/// Patterns see no backslashes in paths, and all else as it is.
pub proof fn slashes_stand_for_backslashes(s: Seq<char>, i: int)
    requires
        0 <= i < s.len(),
    ensures
        with_slashes(s).len() == s.len(),
        s[i] == '\\' ==> with_slashes(s)[i] == '/',
        s[i] != '\\' ==> with_slashes(s)[i] == s[i],
        !with_slashes(s).contains('\\'),
{
    if with_slashes(s).contains('\\') {
        let k = choose|k: int| 0 <= k < s.len() && with_slashes(s)[k] == '\\';
        assert(with_slashes(s)[k] != '\\');
    }
}

} // verus!
