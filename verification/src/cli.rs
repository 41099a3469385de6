//! Command line arguments.
use vstd::prelude::*;
use crate::path::{parse_path, PathBuf, PathView};
use crate::show::{decimal, digit};
use crate::text::{chars_from, chars_of, same_text, starts_with_text, text_of, utf8_text};

verus! {

/// What to scan and how.
#[derive(Debug)]
pub struct Args {
    /// Scanning root path
    pub path: PathBuf,
    /// Maximum depth of tree to keep in memory.
    ///
    /// Subtrees below this depth are replaced with summary nodes.
    /// Does not affect scan depth.
    pub max_depth: usize,
    /// Allow crossing filesystem boundarires.
    ///
    /// Use this on platforms without support for querying filesystem id.
    pub cross_fs: bool,
    /// Group files by type at the top-level, then split each region by directory.
    pub xray: bool,
    /// Don't *automatically* skip any files. Only overrides will be used.
    pub include_all: bool,
    /// Don't skip hidden files and folders
    pub include_hidden: bool,
    /// Don't skip .ignore'd files
    pub include_ignored: bool,
    /// Don't skip .gitignore'd files and folders
    pub include_gitignored: bool,
    /// Don't skip files and folders listed in .git/info/exclude
    pub include_gitexcluded: bool,
    /// Git-style override globs. '!' prefix negates glob
    pub overrides: Vec<String>,
}

/// What arguments say.
#[verifier::ext_equal]
pub struct ArgsView {
    pub path: PathView,
    pub max_depth: nat,
    pub cross_fs: bool,
    pub xray: bool,
    pub include_all: bool,
    pub include_hidden: bool,
    pub include_ignored: bool,
    pub include_gitignored: bool,
    pub include_gitexcluded: bool,
    pub overrides: Seq<Seq<char>>,
}

/// The texts that a list of strings holds.
pub open spec fn texts(s: Seq<String>) -> Seq<Seq<char>> {
    s.map_values(|t: String| t@)
}

/// A copy of a list of strings.
pub fn copy_texts(s: &Vec<String>) -> (r: Vec<String>)
    ensures
        texts(r@) == texts(s@),
{
    let mut r: Vec<String> = Vec::with_capacity(s.len());
    let mut i: usize = 0;
    while i < s.len()
        invariant
            i <= s@.len(),
            texts(r@) == texts(s@.take(i as int)),
        decreases s.len() - i,
    {
        let ghost before = r@;
        r.push(s[i].clone());
        proof {
            assert(texts(r@) =~= texts(before).push(s@[i as int]@));
            assert(texts(s@.take(i + 1)) =~= texts(s@.take(i as int)).push(s@[i as int]@));
        }
        i += 1;
    }
    assert(s@.take(i as int) =~= s@);
    r
}

impl View for Args {
    type V = ArgsView;

    open spec fn view(&self) -> ArgsView {
        ArgsView {
            path: self.path@,
            max_depth: self.max_depth as nat,
            cross_fs: self.cross_fs,
            xray: self.xray,
            include_all: self.include_all,
            include_hidden: self.include_hidden,
            include_ignored: self.include_ignored,
            include_gitignored: self.include_gitignored,
            include_gitexcluded: self.include_gitexcluded,
            overrides: texts(self.overrides@),
        }
    }
}

impl Clone for Args {
    fn clone(&self) -> (r: Self)
        ensures
            r@ == self@,
    {
        Args {
            path: self.path.clone(),
            max_depth: self.max_depth,
            cross_fs: self.cross_fs,
            xray: self.xray,
            include_all: self.include_all,
            include_hidden: self.include_hidden,
            include_ignored: self.include_ignored,
            include_gitignored: self.include_gitignored,
            include_gitexcluded: self.include_gitexcluded,
            overrides: copy_texts(&self.overrides),
        }
    }
}

impl Args {
    /// The same arguments with another depth.
    pub fn with_depth(&self, max_depth: usize) -> (r: Self)
        ensures
            r@ == (ArgsView { max_depth: max_depth as nat, ..self@ }),
    {
        let mut r = self.clone();
        r.max_depth = max_depth;
        r
    }

    /// The same arguments with another path.
    pub fn with_path(&self, path: &PathBuf) -> (r: Self)
        ensures
            r@ == (ArgsView { path: path@, ..self@ }),
    {
        let mut r = self.clone();
        r.path = path.clone();
        r
    }
}

/// What the command line asks for.
#[derive(Debug)]
pub enum NanoAction {
    /// To run with arguments.
    Run(Args),
    /// To print help, a long one if the flag is set.
    Help(bool),
    /// To print the version.
    Version,
}

/// What the command line asks for.
#[verifier::ext_equal]
pub enum NanoView {
    Run(ArgsView),
    Help(bool),
    Version,
}

impl View for NanoAction {
    type V = NanoView;

    open spec fn view(&self) -> NanoView {
        match *self {
            NanoAction::Run(args) => NanoView::Run(args@),
            NanoAction::Help(long) => NanoView::Help(long),
            NanoAction::Version => NanoView::Version,
        }
    }
}

/// The text that bytes encode, if they are UTF-8.
pub open spec fn text_in(b: Seq<u8>) -> Option<Seq<char>> {
    if vstd::utf8::valid_utf8(b) {
        Some(vstd::utf8::decode_utf8(b))
    } else {
        None
    }
}

/// A text in quotes, with escapes, as `{:?}` formats a path.
pub uninterp spec fn debug_path(s: Seq<char>) -> Seq<char>;

/// Formats a [`std::path::Path`] with `{:?}`. The result depends on the text
/// alone.
#[verifier::external_body]
pub(crate) fn quoted_value(s: &str) -> (r: String)
    ensures
        r@ == debug_path(s@),
{
    format!("{:?}", std::path::Path::new(s))
}

/// Whether a character is a decimal digit.
pub open spec fn is_digit(c: char) -> bool {
    '0' <= c && c <= '9'
}

/// The number that decimal digits spell.
pub open spec fn digits_value(s: Seq<char>) -> nat
    decreases s.len(),
{
    if s.len() == 0 {
        0
    } else {
        digits_value(s.drop_last()) * 10 + (s.last() as nat - '0' as nat) as nat
    }
}

/// A text without a plus sign at its start.
pub open spec fn without_plus(s: Seq<char>) -> Seq<char> {
    if s.len() > 0 && s[0] == '+' {
        s.skip(1)
    } else {
        s
    }
}

/// The number that a text spells, if it does and the machine can hold it.
pub open spec fn number_in(s: Seq<char>) -> Option<nat> {
    let d = without_plus(s);
    if d.len() > 0 && (forall|i: int| 0 <= i < d.len() ==> is_digit(#[trigger] d[i])) && digits_value(d)
        <= usize::MAX {
        Some(digits_value(d))
    } else {
        None
    }
}

proof fn lemma_digits_grow(s: Seq<char>, i: int)
    requires
        0 <= i <= s.len(),
    ensures
        digits_value(s.take(i)) <= digits_value(s),
    decreases s.len() - i,
{
    if i < s.len() {
        lemma_digits_grow(s, i + 1);
        assert(s.take(i + 1).drop_last() =~= s.take(i));
        assert(digits_value(s.take(i + 1)) >= digits_value(s.take(i)));
    } else {
        assert(s.take(i) =~= s);
    }
}

/// The number that a text spells.
pub fn parse_number(text: &str) -> (r: Option<usize>)
    ensures
        number_in(text@) == match r {
            Some(n) => Some(n as nat),
            None => None,
        },
{
    let chars = chars_of(text);
    let start: usize = if chars.len() > 0 && chars[0] == '+' {
        1
    } else {
        0
    };
    let digits = chars_from(chars.as_slice(), start);
    let ghost d = without_plus(text@);
    assert(digits@ =~= d);
    if digits.len() == 0 {
        return None;
    }
    let mut n: usize = 0;
    let mut i: usize = 0;
    assert(d.take(0) =~= Seq::empty());
    while i < digits.len()
        invariant
            i <= digits@.len(),
            digits@ == d,
            d == without_plus(text@),
            n == digits_value(d.take(i as int)),
            forall|j: int| 0 <= j < i ==> is_digit(#[trigger] d[j]),
        decreases digits.len() - i,
    {
        let c = digits[i];
        if !('0' <= c && c <= '9') {
            assert(!is_digit(d[i as int]));
            return None;
        }
        let v: usize = (c as u32 - '0' as u32) as usize;
        proof {
            assert(d.take(i + 1).drop_last() =~= d.take(i as int));
            assert(d.take(i + 1).last() == c);
            lemma_digits_grow(d, i + 1);
        }
        if n > (usize::MAX - v) / 10 {
            assert(digits_value(d.take(i + 1)) > usize::MAX);
            return None;
        }
        n = n * 10 + v;
        i += 1;
    }
    assert(d.take(i as int) =~= d);
    Some(n)
}

/// The depth that a text gives, or what is wrong with it.
pub open spec fn depth_of_text(t: Seq<char>) -> Result<nat, Seq<char>> {
    match number_in(t) {
        Some(n) => Ok(n),
        None => Err("invalid value "@ + debug_path(t) + " for '--max-depth'"@),
    }
}

/// The depth that an argument gives, or what is wrong with it.
pub open spec fn depth_of(b: Seq<u8>) -> Result<nat, Seq<char>> {
    match text_in(b) {
        Some(t) => depth_of_text(t),
        None => Err("maximum depth must be valid UTF-8"@),
    }
}

/// A depth or an error as it is stated.
pub open spec fn depth_view(r: Result<usize, String>) -> Result<nat, Seq<char>> {
    match r {
        Ok(n) => Ok(n as nat),
        Err(message) => Err(message@),
    }
}

fn parse_depth_text(value: &str) -> (r: Result<usize, String>)
    ensures
        depth_view(r) == depth_of_text(value@),
{
    match parse_number(value) {
        Some(n) => Ok(n),
        None => {
            let quoted = quoted_value(value);
            let message = "invalid value ".to_owned().concat(quoted.as_str());
            Err(message.concat(" for '--max-depth'"))
        },
    }
}

/// The depth that an argument gives.
pub fn parse_depth(value: &[u8]) -> (r: Result<usize, String>)
    ensures
        depth_view(r) == depth_of(value@),
{
    match utf8_text(value) {
        Some(text) => parse_depth_text(text),
        None => Err("maximum depth must be valid UTF-8".to_owned()),
    }
}

/// The arguments after a one-letter flag, if there is such a flag.
pub open spec fn with_flag(a: ArgsView, c: char) -> Option<ArgsView> {
    if c == 'x' {
        Some(ArgsView { xray: true, ..a })
    } else if c == 'A' {
        Some(ArgsView { include_all: true, ..a })
    } else if c == 'H' {
        Some(ArgsView { include_hidden: true, ..a })
    } else if c == 'I' {
        Some(ArgsView { include_ignored: true, ..a })
    } else if c == 'G' {
        Some(ArgsView { include_gitignored: true, ..a })
    } else if c == 'E' {
        Some(ArgsView { include_gitexcluded: true, ..a })
    } else {
        None
    }
}

/// What follows a depth flag in an argument: what comes after an equals sign if
/// there is one, and nothing if nothing is left.
pub open spec fn attached(t: Seq<char>) -> Option<Seq<char>> {
    let value = if t.len() > 0 && t[0] == '=' {
        t.skip(1)
    } else {
        t
    };
    if value.len() == 0 {
        None
    } else {
        Some(value)
    }
}

/// The arguments after one-letter flags, and what came of them: a depth flag,
/// with the value that is attached to it, or the first letter that is none.
pub open spec fn short_options(a: ArgsView, t: Seq<char>) -> (
    ArgsView,
    Result<Option<Option<Seq<char>>>, Seq<char>>,
)
    decreases t.len(),
{
    if t.len() == 0 {
        (a, Ok(None))
    } else if t[0] == 'd' {
        (a, Ok(Some(attached(t.skip(1)))))
    } else {
        match with_flag(a, t[0]) {
            Some(b) => short_options(b, t.skip(1)),
            None => (a, Err("unexpected argument '-"@ + seq![t[0]] + "'"@)),
        }
    }
}

/// An attached value or an error as it is stated.
pub open spec fn short_view(r: Result<Option<Option<String>>, String>) -> Result<
    Option<Option<Seq<char>>>,
    Seq<char>,
> {
    match r {
        Ok(Some(Some(value))) => Ok(Some(Some(value@))),
        Ok(Some(None)) => Ok(Some(None)),
        Ok(None) => Ok(None),
        Err(message) => Err(message@),
    }
}

fn set_flag(parsed: &mut Args, c: char) -> (r: bool)
    ensures
        match with_flag(old(parsed)@, c) {
            Some(a) => r && final(parsed)@ == a,
            None => !r && final(parsed)@ == old(parsed)@,
        },
{
    if c == 'x' {
        parsed.xray = true;
    } else if c == 'A' {
        parsed.include_all = true;
    } else if c == 'H' {
        parsed.include_hidden = true;
    } else if c == 'I' {
        parsed.include_ignored = true;
    } else if c == 'G' {
        parsed.include_gitignored = true;
    } else if c == 'E' {
        parsed.include_gitexcluded = true;
    } else {
        return false;
    }
    true
}

/// Takes the one-letter flags that follow a dash.
pub fn parse_short_options(value: &str, parsed: &mut Args) -> (r: Result<Option<Option<String>>, String>)
    requires
        value@.len() > 0,
    ensures
        (final(parsed)@, short_view(r)) == short_options(old(parsed)@, value@.skip(1)),
{
    let chars = chars_of(value);
    let ghost t = value@.skip(1);
    let ghost first = parsed@;
    let mut i: usize = 1;
    assert(t.skip(0) =~= t);
    while i < chars.len()
        invariant
            1 <= i <= chars@.len(),
            chars@ == value@,
            t == value@.skip(1),
            first == old(parsed)@,
            short_options(first, t) == short_options(parsed@, t.skip(i - 1)),
        decreases chars.len() - i,
    {
        let ghost left = t.skip(i - 1);
        proof {
            assert(left.skip(1) =~= t.skip(i as int));
            assert(left[0] == chars@[i as int]);
        }
        let c = chars[i];
        if c == 'd' {
            let from: usize = if i + 1 < chars.len() && chars[i + 1] == '=' {
                i + 2
            } else {
                i + 1
            };
            let rest = chars_from(chars.as_slice(), from);
            proof {
                let after = left.skip(1);
                if i + 1 < chars@.len() {
                    assert(after[0] == chars@[i + 1]);
                }
                if after.len() > 0 && after[0] == '=' {
                    assert(after.skip(1) =~= rest@);
                } else {
                    assert(after =~= rest@);
                }
            }
            if rest.len() == 0 {
                return Ok(Some(None));
            }
            return Ok(Some(Some(text_of(rest.as_slice()))));
        }
        if !set_flag(parsed, c) {
            let mut message = "unexpected argument '-".to_owned();
            message.push(c);
            assert(message@ =~= "unexpected argument '-"@ + seq![c]);
            return Err(message.concat("'"));
        }
        i += 1;
    }
    assert(t.skip(i - 1) =~= Seq::empty());
    Ok(None)
}

/// The arguments after a flag that stands alone, if there is such a flag.
pub open spec fn with_named_flag(a: ArgsView, t: Seq<char>) -> Option<ArgsView> {
    if t == "--cross-fs"@ {
        Some(ArgsView { cross_fs: true, ..a })
    } else if t == "-x"@ || t == "--xray"@ {
        Some(ArgsView { xray: true, ..a })
    } else if t == "-A"@ || t == "--include-all"@ {
        Some(ArgsView { include_all: true, ..a })
    } else if t == "-H"@ || t == "--include-hidden"@ {
        Some(ArgsView { include_hidden: true, ..a })
    } else if t == "-I"@ || t == "--include-ignored"@ {
        Some(ArgsView { include_ignored: true, ..a })
    } else if t == "-G"@ || t == "--include-gitignored"@ {
        Some(ArgsView { include_gitignored: true, ..a })
    } else if t == "-E"@ || t == "--include-gitexcluded"@ {
        Some(ArgsView { include_gitexcluded: true, ..a })
    } else {
        None
    }
}

fn set_named_flag(parsed: &mut Args, t: &str) -> (r: bool)
    ensures
        match with_named_flag(old(parsed)@, t@) {
            Some(a) => r && final(parsed)@ == a,
            None => !r && final(parsed)@ == old(parsed)@,
        },
{
    if same_text(t, "--cross-fs") {
        parsed.cross_fs = true;
    } else if same_text(t, "-x") || same_text(t, "--xray") {
        parsed.xray = true;
    } else if same_text(t, "-A") || same_text(t, "--include-all") {
        parsed.include_all = true;
    } else if same_text(t, "-H") || same_text(t, "--include-hidden") {
        parsed.include_hidden = true;
    } else if same_text(t, "-I") || same_text(t, "--include-ignored") {
        parsed.include_ignored = true;
    } else if same_text(t, "-G") || same_text(t, "--include-gitignored") {
        parsed.include_gitignored = true;
    } else if same_text(t, "-E") || same_text(t, "--include-gitexcluded") {
        parsed.include_gitexcluded = true;
    } else {
        return false;
    }
    true
}

/// How far the command line is parsed.
#[verifier::ext_equal]
pub struct Progress {
    pub args: ArgsView,
    /// Only paths and overrides follow.
    pub positional_only: bool,
    pub path_set: bool,
}

/// What an argument leads to: an end, or the next argument that is looked at.
#[verifier::ext_equal]
pub enum Step {
    Stop(Result<NanoView, Seq<char>>),
    Go(nat, Progress),
}

/// After a depth was given.
pub open spec fn depth_step(p: Progress, depth: Result<nat, Seq<char>>, next: nat) -> Step {
    match depth {
        Ok(n) => Step::Go(
            next,
            Progress { args: ArgsView { max_depth: n, ..p.args }, ..p },
        ),
        Err(message) => Step::Stop(Err(message)),
    }
}

/// After a path or an override. The first one is the path.
pub open spec fn positional_step(p: Progress, arg: Seq<u8>, next: nat) -> Step {
    if !p.path_set {
        Step::Go(
            next,
            Progress {
                args: ArgsView { path: parse_path(arg), ..p.args },
                path_set: true,
                ..p
            },
        )
    } else {
        match text_in(arg) {
            Some(t) => Step::Go(
                next,
                Progress {
                    args: ArgsView { overrides: p.args.overrides.push(t), ..p.args },
                    ..p
                },
            ),
            None => Step::Stop(Err("override globs must be valid UTF-8"@)),
        }
    }
}

/// After an argument that is a text, if it is an option.
pub open spec fn option_step(args: Seq<Seq<u8>>, at: nat, p: Progress, t: Seq<char>) -> Option<Step> {
    let next = (at + 1) as nat;
    if t == "--"@ {
        Some(Step::Go(next, Progress { positional_only: true, ..p }))
    } else if t == "-h"@ {
        Some(Step::Stop(Ok(NanoView::Help(false))))
    } else if t == "--help"@ {
        Some(Step::Stop(Ok(NanoView::Help(true))))
    } else if t == "-V"@ || t == "--version"@ {
        Some(Step::Stop(Ok(NanoView::Version)))
    } else if with_named_flag(p.args, t) is Some {
        Some(Step::Go(next, Progress { args: with_named_flag(p.args, t)->0, ..p }))
    } else if t == "-d"@ || t == "--max-depth"@ {
        if next < args.len() {
            Some(depth_step(p, depth_of(args[next as int]), (at + 2) as nat))
        } else {
            Some(Step::Stop(Err("a value is required for '"@ + t + "'"@)))
        }
    } else if "--max-depth="@.is_prefix_of(t) {
        Some(depth_step(p, depth_of_text(t.skip("--max-depth="@.len() as int)), next))
    } else if "--"@.is_prefix_of(t) {
        Some(Step::Stop(Err("unexpected argument '"@ + t + "'"@)))
    } else if t.len() > 1 && t[0] == '-' {
        Some(short_step(args, at, p, t))
    } else {
        None
    }
}

/// After one-letter flags.
pub open spec fn short_step(args: Seq<Seq<u8>>, at: nat, p: Progress, t: Seq<char>) -> Step {
    let (a, came) = short_options(p.args, t.skip(1));
    let q = Progress { args: a, ..p };
    let next = (at + 1) as nat;
    match came {
        Ok(None) => Step::Go(next, q),
        Ok(Some(Some(value))) => depth_step(q, depth_of_text(value), next),
        Ok(Some(None)) => if next < args.len() {
            depth_step(q, depth_of(args[next as int]), (at + 2) as nat)
        } else {
            Step::Stop(Err("a value is required for '-d'"@))
        },
        Err(message) => Step::Stop(Err(message)),
    }
}

/// What the argument at a place leads to.
pub open spec fn step_of(args: Seq<Seq<u8>>, at: nat, p: Progress) -> Step {
    let positional = positional_step(p, args[at as int], (at + 1) as nat);
    if p.positional_only {
        positional
    } else {
        match text_in(args[at as int]) {
            Some(t) => match option_step(args, at, p, t) {
                Some(step) => step,
                None => positional,
            },
            None => positional,
        }
    }
}

/// What arguments ask for from a place on.
pub open spec fn parsed_from(args: Seq<Seq<u8>>, at: nat, p: Progress) -> Result<NanoView, Seq<char>>
    decreases args.len() - at,
{
    if at >= args.len() {
        Ok(NanoView::Run(p.args))
    } else {
        match step_of(args, at, p) {
            Step::Stop(r) => r,
            Step::Go(next, q) => if next > at {
                parsed_from(args, next, q)
            } else {
                Ok(NanoView::Run(p.args))
            },
        }
    }
}

/// The arguments where the command line says nothing.
pub open spec fn default_args() -> ArgsView {
    ArgsView {
        path: parse_path(vstd::utf8::encode_utf8("."@)),
        max_depth: 5,
        cross_fs: false,
        xray: false,
        include_all: false,
        include_hidden: false,
        include_ignored: false,
        include_gitignored: false,
        include_gitexcluded: false,
        overrides: Seq::empty(),
    }
}

/// What a command line asks for, or what is wrong with it.
pub open spec fn parsed(args: Seq<Seq<u8>>) -> Result<NanoView, Seq<char>> {
    parsed_from(
        args,
        0,
        Progress { args: default_args(), positional_only: false, path_set: false },
    )
}

/// The bytes of arguments.
pub open spec fn arg_bytes(s: Seq<Vec<u8>>) -> Seq<Seq<u8>> {
    s.map_values(|a: Vec<u8>| a@)
}

/// A demand or an error as it is stated.
pub open spec fn nano_view(r: Result<NanoAction, String>) -> Result<NanoView, Seq<char>> {
    match r {
        Ok(action) => Ok(action@),
        Err(message) => Err(message@),
    }
}

/// What one argument led to: an end, or the next one to look at.
enum Outcome {
    Stop(Result<NanoAction, String>),
    Go(usize),
}

struct Parser {
    args: Args,
    positional_only: bool,
    path_set: bool,
}

impl Parser {
    spec fn progress(self) -> Progress {
        Progress {
            args: self.args@,
            positional_only: self.positional_only,
            path_set: self.path_set,
        }
    }

    spec fn led(self, o: Outcome) -> Step {
        match o {
            Outcome::Stop(r) => Step::Stop(nano_view(r)),
            Outcome::Go(next) => Step::Go(next as nat, self.progress()),
        }
    }

    fn take_depth(&mut self, depth: Result<usize, String>, next: usize) -> (r: Outcome)
        ensures
            final(self).led(r) == depth_step(old(self).progress(), depth_view(depth), next as nat),
    {
        match depth {
            Ok(n) => {
                self.args.max_depth = n;
                Outcome::Go(next)
            },
            Err(message) => Outcome::Stop(Err(message)),
        }
    }

    fn take_positional(&mut self, arg: &Vec<u8>, next: usize) -> (r: Outcome)
        ensures
            final(self).led(r) == positional_step(old(self).progress(), arg@, next as nat),
    {
        if !self.path_set {
            self.args.path = PathBuf::from_bytes(arg.as_slice());
            self.path_set = true;
            return Outcome::Go(next);
        }
        match utf8_text(arg.as_slice()) {
            Some(text) => {
                let ghost before = texts(self.args.overrides@);
                self.args.overrides.push(text.to_owned());
                assert(texts(self.args.overrides@) =~= before.push(text@));
                Outcome::Go(next)
            },
            None => Outcome::Stop(Err("override globs must be valid UTF-8".to_owned())),
        }
    }

    fn take_short(&mut self, args: &Vec<Vec<u8>>, at: usize, t: &str) -> (r: Outcome)
        requires
            at < args@.len(),
            t@.len() > 1,
        ensures
            final(self).led(r) == short_step(arg_bytes(args@), at as nat, old(self).progress(), t@),
    {
        let ghost all = arg_bytes(args@);
        let count: usize = args.len();
        let came = parse_short_options(t, &mut self.args);
        match came {
            Ok(None) => Outcome::Go(at + 1),
            Ok(Some(Some(value))) => {
                let depth = parse_depth_text(value.as_str());
                self.take_depth(depth, at + 1)
            },
            Ok(Some(None)) => if at + 1 < count {
                assert(all[at + 1] == args@[at + 1]@);
                let depth = parse_depth(args[at + 1].as_slice());
                self.take_depth(depth, at + 2)
            } else {
                Outcome::Stop(Err("a value is required for '-d'".to_owned()))
            },
            Err(message) => Outcome::Stop(Err(message)),
        }
    }

    fn take_option(&mut self, args: &Vec<Vec<u8>>, at: usize, t: &str) -> (r: Option<Outcome>)
        requires
            at < args@.len(),
        ensures
            match r {
                Some(o) => option_step(arg_bytes(args@), at as nat, old(self).progress(), t@) == Some(
                    final(self).led(o),
                ),
                None => option_step(arg_bytes(args@), at as nat, old(self).progress(), t@) is None
                    && *final(self) == *old(self),
            },
    {
        let ghost all = arg_bytes(args@);
        let count: usize = args.len();
        if same_text(t, "--") {
            self.positional_only = true;
            return Some(Outcome::Go(at + 1));
        }
        if same_text(t, "-h") {
            return Some(Outcome::Stop(Ok(NanoAction::Help(false))));
        }
        if same_text(t, "--help") {
            return Some(Outcome::Stop(Ok(NanoAction::Help(true))));
        }
        if same_text(t, "-V") || same_text(t, "--version") {
            return Some(Outcome::Stop(Ok(NanoAction::Version)));
        }
        if is_named_flag(t) {
            let _ = set_named_flag(&mut self.args, t);
            return Some(Outcome::Go(at + 1));
        }
        if same_text(t, "-d") || same_text(t, "--max-depth") {
            if at + 1 < count {
                assert(all[at + 1] == args@[at + 1]@);
                let depth = parse_depth(args[at + 1].as_slice());
                return Some(self.take_depth(depth, at + 2));
            }
            let message = "a value is required for '".to_owned().concat(t);
            return Some(Outcome::Stop(Err(message.concat("'"))));
        }
        let chars = chars_of(t);
        if starts_with_text(chars.as_slice(), "--max-depth=") {
            let head = chars_of("--max-depth=");
            let rest = chars_from(chars.as_slice(), head.len());
            let value = text_of(rest.as_slice());
            let depth = parse_depth_text(value.as_str());
            return Some(self.take_depth(depth, at + 1));
        }
        if starts_with_text(chars.as_slice(), "--") {
            let message = "unexpected argument '".to_owned().concat(t);
            return Some(Outcome::Stop(Err(message.concat("'"))));
        }
        if chars.len() > 1 && chars[0] == '-' {
            return Some(self.take_short(args, at, t));
        }
        None
    }

    fn take(&mut self, args: &Vec<Vec<u8>>, at: usize) -> (r: Outcome)
        requires
            at < args@.len(),
        ensures
            final(self).led(r) == step_of(arg_bytes(args@), at as nat, old(self).progress()),
    {
        assert(arg_bytes(args@)[at as int] == args@[at as int]@);
        let count: usize = args.len();
        assert(at < count);
        if !self.positional_only {
            if let Some(t) = utf8_text(args[at].as_slice()) {
                if let Some(o) = self.take_option(args, at, t) {
                    return o;
                }
            }
        }
        self.take_positional(&args[at], at + 1)
    }
}

fn is_named_flag(t: &str) -> (r: bool)
    ensures
        forall|a: ArgsView| r == (#[trigger] with_named_flag(a, t@) is Some),
{
    same_text(t, "--cross-fs") || same_text(t, "-x") || same_text(t, "--xray") || same_text(t, "-A")
        || same_text(t, "--include-all") || same_text(t, "-H") || same_text(t, "--include-hidden")
        || same_text(t, "-I") || same_text(t, "--include-ignored") || same_text(t, "-G") || same_text(
        t,
        "--include-gitignored",
    ) || same_text(t, "-E") || same_text(t, "--include-gitexcluded")
}

impl Args {
    /// Parses a command line, without the name of the program.
    pub fn parse_nano(args: Vec<Vec<u8>>) -> (r: Result<NanoAction, String>)
        ensures
            nano_view(r) == parsed(arg_bytes(args@)),
    {
        let ghost all = arg_bytes(args@);
        let mut parser = Parser {
            args: Args {
                path: PathBuf::from_text("."),
                max_depth: 5,
                cross_fs: false,
                xray: false,
                include_all: false,
                include_hidden: false,
                include_ignored: false,
                include_gitignored: false,
                include_gitexcluded: false,
                overrides: Vec::new(),
            },
            positional_only: false,
            path_set: false,
        };
        proof {
            assert(texts(parser.args.overrides@) =~= Seq::empty());
            assert(parser.args@ =~= default_args());
        }
        let mut at: usize = 0;
        while at < args.len()
            invariant
                all == arg_bytes(args@),
                all.len() == args@.len(),
                parsed(all) == parsed_from(all, at as nat, parser.progress()),
            decreases args.len() - at,
        {
            let ghost before = parser.progress();
            match parser.take(&args, at) {
                Outcome::Stop(r) => {
                    return r;
                },
                Outcome::Go(next) => {
                    proof {
                        lemma_steps_forward(all, at as nat, before);
                    }
                    at = next;
                },
            }
        }
        Ok(NanoAction::Run(parser.args))
    }

    /// The arguments with everything included if nothing is to be skipped.
    pub fn with_all_included(self) -> (r: Self)
        ensures
            r@ == if self@.include_all {
                ArgsView {
                    include_hidden: true,
                    include_ignored: true,
                    include_gitignored: true,
                    include_gitexcluded: true,
                    ..self@
                }
            } else {
                self@
            },
    {
        let mut args = self;
        if args.include_all {
            args.include_hidden = true;
            args.include_ignored = true;
            args.include_gitignored = true;
            args.include_gitexcluded = true;
        }
        args
    }
}

proof fn lemma_steps_forward(args: Seq<Seq<u8>>, at: nat, p: Progress)
    requires
        at < args.len(),
    ensures
        step_of(args, at, p) matches Step::Go(next, _) ==> next > at,
{
}

/// What follows a double dash is no option: the first one is the path if there
/// was none, each other one is an override.
pub proof fn options_end(args: Seq<Seq<u8>>, at: nat, p: Progress)
    requires
        at < args.len(),
        p.positional_only,
    ensures
        step_of(args, at, p) matches Step::Go(next, q) ==> next == at + 1 && q.positional_only && q.path_set
            && q.args == (ArgsView {
            path: q.args.path,
            overrides: q.args.overrides,
            ..p.args
        }),
{
}

/// The message about a command line that is wrong.
pub fn usage_error(message: &str) -> (r: String)
    ensures
        r@ == "error: "@ + message@
            + "\n\nUsage: leaves [OPTIONS] [PATH] [OVERRIDES]...\n\nFor more information, try '--help'.\n"@,
{
    let r = "error: ".to_owned().concat(message);
    r.concat(
        "\n\nUsage: leaves [OPTIONS] [PATH] [OVERRIDES]...\n\nFor more information, try '--help'.\n",
    )
}

/// The short help.
pub const SHORT_HELP: &'static str = "\
Usage: leaves [OPTIONS] [PATH] [OVERRIDES]...

Arguments:
  [PATH]          Scanning root path [default: .]
  [OVERRIDES]...  Git-style override globs. '!' prefix negates glob

Options:
  -d, --max-depth <MAX_DEPTH>  Maximum depth of tree to keep in memory [default: 5]
      --cross-fs               Allow crossing filesystem boundarires
  -x, --xray                   Group files by type at the top-level, then split each region by directory
  -A, --include-all            Don't *automatically* skip any files. Only overrides will be used
  -H, --include-hidden         Don't skip hidden files and folders
  -I, --include-ignored        Don't skip .ignore'd files
  -G, --include-gitignored     Don't skip .gitignore'd files and folders
  -E, --include-gitexcluded    Don't skip files and folders listed in .git/info/exclude
  -h, --help                   Print help (see more with '--help')
  -V, --version                Print version
";

/// The long help.
pub const LONG_HELP: &'static str = "\
Usage: leaves [OPTIONS] [PATH] [OVERRIDES]...

Arguments:
  [PATH]
          Scanning root path

          [default: .]

  [OVERRIDES]...
          Git-style override globs. '!' prefix negates glob

Options:
  -d, --max-depth <MAX_DEPTH>
          Maximum depth of tree to keep in memory.

          Subtrees below this depth are replaced with summary nodes. Does not affect scan depth.

          [default: 5]

      --cross-fs
          Allow crossing filesystem boundarires.

          Use this on platforms without support for querying filesystem id.

  -x, --xray
          Group files by type at the top-level, then split each region by directory

  -A, --include-all
          Don't *automatically* skip any files. Only overrides will be used

  -H, --include-hidden
          Don't skip hidden files and folders

  -I, --include-ignored
          Don't skip .ignore'd files

  -G, --include-gitignored
          Don't skip .gitignore'd files and folders

  -E, --include-gitexcluded
          Don't skip files and folders listed in .git/info/exclude

  -h, --help
          Print help (see a summary with '-h')

  -V, --version
          Print version
";

/// Each one-letter flag switches on one thing, and changes nothing else. The long
/// names do the same.
pub proof fn flags_switch_on_one_thing(a: ArgsView)
    ensures
        with_flag(a, 'x') == Some(ArgsView { xray: true, ..a }),
        with_flag(a, 'A') == Some(ArgsView { include_all: true, ..a }),
        with_flag(a, 'H') == Some(ArgsView { include_hidden: true, ..a }),
        with_flag(a, 'I') == Some(ArgsView { include_ignored: true, ..a }),
        with_flag(a, 'G') == Some(ArgsView { include_gitignored: true, ..a }),
        with_flag(a, 'E') == Some(ArgsView { include_gitexcluded: true, ..a }),
        with_named_flag(a, "--cross-fs"@) == Some(ArgsView { cross_fs: true, ..a }),
        with_named_flag(a, "--xray"@) == with_flag(a, 'x'),
        with_named_flag(a, "--include-all"@) == with_flag(a, 'A'),
        with_named_flag(a, "--include-hidden"@) == with_flag(a, 'H'),
        with_named_flag(a, "--include-ignored"@) == with_flag(a, 'I'),
        with_named_flag(a, "--include-gitignored"@) == with_flag(a, 'G'),
        with_named_flag(a, "--include-gitexcluded"@) == with_flag(a, 'E'),
        with_named_flag(a, "-x"@) == with_flag(a, 'x'),
        with_named_flag(a, "-A"@) == with_flag(a, 'A'),
        with_named_flag(a, "-H"@) == with_flag(a, 'H'),
        with_named_flag(a, "-I"@) == with_flag(a, 'I'),
        with_named_flag(a, "-G"@) == with_flag(a, 'G'),
        with_named_flag(a, "-E"@) == with_flag(a, 'E'),
{
    reveal_strlit("--cross-fs");
    reveal_strlit("--xray");
    reveal_strlit("--include-all");
    reveal_strlit("--include-hidden");
    reveal_strlit("--include-ignored");
    reveal_strlit("--include-gitignored");
    reveal_strlit("--include-gitexcluded");
    reveal_strlit("-x");
    reveal_strlit("-A");
    reveal_strlit("-H");
    reveal_strlit("-I");
    reveal_strlit("-G");
    reveal_strlit("-E");
    assert("--cross-fs"@.len() == 10 && "--xray"@.len() == 6 && "--include-all"@.len() == 13);
    assert("--include-hidden"@.len() == 16 && "--include-ignored"@.len() == 17);
    assert("--include-gitignored"@.len() == 20 && "--include-gitexcluded"@.len() == 21);
    assert("-x"@[1] == 'x' && "-A"@[1] == 'A' && "-H"@[1] == 'H' && "-I"@[1] == 'I' && "-G"@[1] == 'G' && "-E"@[1]
        == 'E');
    assert("-x"@.len() == 2 && "-A"@.len() == 2 && "-H"@.len() == 2 && "-I"@.len() == 2 && "-G"@.len() == 2
        && "-E"@.len() == 2);
}

/// Flags can be given in any order, and as often as one likes.
pub proof fn flags_go_in_any_order(a: ArgsView, c: char, d: char)
    requires
        with_flag(a, c) is Some,
        with_flag(a, d) is Some,
    ensures
        with_flag(with_flag(a, c)->0, d) == with_flag(with_flag(a, d)->0, c),
        with_flag(with_flag(a, c)->0, c) == with_flag(a, c),
        with_flag(with_flag(a, c)->0, d) is Some,
{
}

/// One-letter flags can be written together: that means each of them.
pub proof fn flags_go_together(a: ArgsView, c: char, more: Seq<char>)
    requires
        with_flag(a, c) is Some,
    ensures
        short_options(a, seq![c] + more) == short_options(with_flag(a, c)->0, more),
        short_options(a, Seq::empty()) == (a, Ok::<Option<Option<Seq<char>>>, Seq<char>>(None)),
{
    assert((seq![c] + more).skip(1) =~= more);
    assert((seq![c] + more)[0] == c);
}

/// A depth can be attached to its flag, with an equals sign or without, behind
/// other flags too, or stand after it.
pub proof fn depths_are_attached(a: ArgsView, value: Seq<char>)
    requires
        value.len() > 0,
        value[0] != '=',
    ensures
        short_options(a, seq!['d'] + value).1 == Ok::<Option<Option<Seq<char>>>, Seq<char>>(Some(Some(value))),
        short_options(a, seq!['d', '='] + value).1 == Ok::<Option<Option<Seq<char>>>, Seq<char>>(
            Some(Some(value)),
        ),
        short_options(a, seq!['d']).1 == Ok::<Option<Option<Seq<char>>>, Seq<char>>(Some(None)),
        short_options(a, seq!['d'] + value).0 == a,
        short_options(a, seq!['d']).0 == a,
{
    assert((seq!['d'] + value).skip(1) =~= value);
    assert((seq!['d', '='] + value).skip(1) =~= seq!['='] + value);
    assert((seq!['='] + value).skip(1) =~= value);
    assert(seq!['d'].skip(1) =~= Seq::empty());
}

/// A depth that is given is the one that is set, and nothing else is.
pub proof fn depths_are_set(p: Progress, n: nat, next: nat)
    ensures
        depth_step(p, Ok(n), next) matches Step::Go(then, q) && then == next && q.args.max_depth == n && (ArgsView {
            max_depth: p.args.max_depth,
            ..q.args
        }) == p.args && q.path_set == p.path_set && q.positional_only == p.positional_only,
{
}

proof fn lemma_decimal(n: nat)
    ensures
        decimal(n).len() > 0,
        forall|i: int| 0 <= i < decimal(n).len() ==> is_digit(#[trigger] decimal(n)[i]),
        digits_value(decimal(n)) == n,
    decreases n,
{
    if n < 10 {
        assert(decimal(n).drop_last() =~= Seq::empty());
        assert(digits_value(decimal(n).drop_last()) == 0);
        assert(decimal(n).last() as nat - '0' as nat == n);
    } else {
        lemma_decimal(n / 10);
        let t = decimal(n / 10);
        assert(decimal(n) == t.push(digit(n % 10)));
        assert(decimal(n).drop_last() =~= t);
        assert(digit(n % 10) as nat - '0' as nat == n % 10);
        assert forall|i: int| 0 <= i < decimal(n).len() implies is_digit(#[trigger] decimal(n)[i]) by {
            if i < t.len() {
                assert(is_digit(t[i]));
            }
        }
    }
}

/// A number that is written in decimal is read as itself, with a plus sign in
/// front too. One that the machine cannot hold is not read.
pub proof fn numbers_are_read_back(n: nat)
    ensures
        n <= usize::MAX ==> number_in(decimal(n)) == Some(n),
        n <= usize::MAX ==> number_in(seq!['+'] + decimal(n)) == Some(n),
        n > usize::MAX ==> number_in(decimal(n)) is None,
        number_in(Seq::empty()) is None,
{
    lemma_decimal(n);
    let d = decimal(n);
    assert(is_digit(d[0]));
    assert(without_plus(d) == d);
    assert((seq!['+'] + d).skip(1) =~= d);
}

/// The first argument that is no option is the path, and those after it are
/// overrides, in their order.
pub proof fn the_path_comes_first(p: Progress, arg: Seq<u8>, next: nat)
    ensures
        !p.path_set ==> (positional_step(p, arg, next) matches Step::Go(then, q) && then == next && q.path_set
            && q.args.path == parse_path(arg) && q.args.overrides == p.args.overrides && q.args.max_depth
            == p.args.max_depth),
        p.path_set && text_in(arg) is Some ==> (positional_step(p, arg, next) matches Step::Go(then, q) && then
            == next && q.path_set && q.args.path == p.args.path && q.args.overrides == p.args.overrides.push(
            text_in(arg)->0,
        )),
        p.path_set && text_in(arg) is None ==> positional_step(p, arg, next) is Stop,
{
}

/// Where nothing is asked for, the directory at hand is shown, to a depth of
/// five, without what is hidden or ignored.
pub proof fn nothing_asked_for()
    ensures
        ({
            let none = Seq::<Seq<u8>>::empty();
            &&& parsed(none) == Ok::<NanoView, Seq<char>>(NanoView::Run(default_args()))
            &&& default_args().max_depth == 5
            &&& !default_args().xray
            &&& !default_args().cross_fs
            &&& !default_args().include_all
            &&& !default_args().include_hidden
            &&& !default_args().include_ignored
            &&& !default_args().include_gitignored
            &&& !default_args().include_gitexcluded
            &&& default_args().overrides.len() == 0
        }),
{
}

/// What does not begin with a dash is no option, and neither is a dash alone.
pub proof fn options_begin_with_a_dash(args: Seq<Seq<u8>>, at: nat, p: Progress, t: Seq<char>)
    requires
        t.len() == 0 || t[0] != '-' || t.len() == 1,
    ensures
        option_step(args, at, p, t) is None,
{
    lemma_option_names();
    assert(!"--max-depth="@.is_prefix_of(t)) by {
        if "--max-depth="@.is_prefix_of(t) {
            assert("--max-depth="@[0] == t[0]);
        }
    }
    assert(!"--"@.is_prefix_of(t)) by {
        if "--"@.is_prefix_of(t) {
            assert("--"@[0] == t[0]);
        }
    }
}

proof fn lemma_option_names()
    ensures
        "--"@.len() == 2 && "--"@[0] == '-' && "--"@[1] == '-',
        "-h"@.len() == 2 && "-h"@[0] == '-' && "-h"@[1] == 'h',
        "-V"@.len() == 2 && "-V"@[0] == '-' && "-V"@[1] == 'V',
        "-d"@.len() == 2 && "-d"@[0] == '-' && "-d"@[1] == 'd',
        "-x"@.len() == 2 && "-x"@[0] == '-' && "-x"@[1] == 'x',
        "-A"@.len() == 2 && "-A"@[0] == '-' && "-A"@[1] == 'A',
        "-H"@.len() == 2 && "-H"@[0] == '-' && "-H"@[1] == 'H',
        "-I"@.len() == 2 && "-I"@[0] == '-' && "-I"@[1] == 'I',
        "-G"@.len() == 2 && "-G"@[0] == '-' && "-G"@[1] == 'G',
        "-E"@.len() == 2 && "-E"@[0] == '-' && "-E"@[1] == 'E',
        "--help"@.len() == 6 && "--help"@[0] == '-' && "--help"@[1] == '-' && "--help"@[2] == 'h',
        "--xray"@.len() == 6 && "--xray"@[0] == '-' && "--xray"@[1] == '-' && "--xray"@[2] == 'x',
        "--version"@.len() == 9 && "--version"@[0] == '-' && "--version"@[1] == '-' && "--version"@[2] == 'v',
        "--cross-fs"@.len() == 10 && "--cross-fs"@[0] == '-' && "--cross-fs"@[1] == '-' && "--cross-fs"@[2] == 'c',
        "--max-depth"@.len() == 11 && "--max-depth"@[0] == '-' && "--max-depth"@[1] == '-' && "--max-depth"@[2]
            == 'm',
        "--max-depth="@.len() == 12 && "--max-depth="@[0] == '-' && "--max-depth="@[1] == '-'
            && "--max-depth="@[2] == 'm',
        "--include-all"@.len() == 13 && "--include-all"@[0] == '-' && "--include-all"@[2] == 'i',
        "--include-hidden"@.len() == 16 && "--include-hidden"@[0] == '-' && "--include-hidden"@[2] == 'i',
        "--include-ignored"@.len() == 17 && "--include-ignored"@[0] == '-' && "--include-ignored"@[2] == 'i',
        "--include-gitignored"@.len() == 20 && "--include-gitignored"@[0] == '-' && "--include-gitignored"@[2]
            == 'i',
        "--include-gitexcluded"@.len() == 21 && "--include-gitexcluded"@[0] == '-' && "--include-gitexcluded"@[2]
            == 'i',
{
    reveal_strlit("--");
    reveal_strlit("-h");
    reveal_strlit("-V");
    reveal_strlit("-d");
    reveal_strlit("-x");
    reveal_strlit("-A");
    reveal_strlit("-H");
    reveal_strlit("-I");
    reveal_strlit("-G");
    reveal_strlit("-E");
    reveal_strlit("--help");
    reveal_strlit("--xray");
    reveal_strlit("--version");
    reveal_strlit("--cross-fs");
    reveal_strlit("--max-depth");
    reveal_strlit("--max-depth=");
    reveal_strlit("--include-all");
    reveal_strlit("--include-hidden");
    reveal_strlit("--include-ignored");
    reveal_strlit("--include-gitignored");
    reveal_strlit("--include-gitexcluded");
}

/// Help and the version end the command line, in a short form and a long one. Two
/// dashes end the options.
pub proof fn some_options_end_it(args: Seq<Seq<u8>>, at: nat, p: Progress)
    ensures
        option_step(args, at, p, "-h"@) == Some(Step::Stop(Ok(NanoView::Help(false)))),
        option_step(args, at, p, "--help"@) == Some(Step::Stop(Ok(NanoView::Help(true)))),
        option_step(args, at, p, "-V"@) == Some(Step::Stop(Ok(NanoView::Version))),
        option_step(args, at, p, "--version"@) == Some(Step::Stop(Ok(NanoView::Version))),
        option_step(args, at, p, "--"@) matches Some(Step::Go(next, q)) && next == at + 1 && q.positional_only
            && q.args == p.args && q.path_set == p.path_set,
{
    lemma_option_names();
}

/// A depth can be given in one argument with its name, or in the one after it. It
/// comes to the same.
pub proof fn depths_come_in_two_forms(args: Seq<Seq<u8>>, at: nat, p: Progress, value: Seq<char>)
    requires
        at + 1 < args.len(),
        text_in(args[at as int + 1]) == Some(value),
    ensures
        option_step(args, at, p, "--max-depth="@ + value) == Some(depth_step(p, depth_of_text(value), at + 1)),
        option_step(args, at, p, "--max-depth"@) == Some(depth_step(p, depth_of_text(value), at + 2)),
        option_step(args, at, p, "-d"@) == option_step(args, at, p, "--max-depth"@),
{
    lemma_option_names();
    let t = "--max-depth="@ + value;
    assert(t[0] == '-' && t[1] == '-' && t[2] == 'm');
    assert("--max-depth="@.is_prefix_of(t)) by {
        assert("--max-depth="@ =~= t.subrange(0, "--max-depth="@.len() as int));
    }
    assert(t.skip("--max-depth="@.len() as int) =~= value);
}

/// An option that is not known is refused, and named. So is a flag for the depth
/// without one.
pub proof fn unknown_options_are_refused(args: Seq<Seq<u8>>, at: nat, p: Progress, t: Seq<char>, c: char, more: Seq<char>)
    requires
        t.len() > 2,
        t[0] == '-',
        t[1] == '-',
        t[2] != 'h' && t[2] != 'v' && t[2] != 'c' && t[2] != 'x' && t[2] != 'i' && t[2] != 'm',
        c != 'd',
        with_flag(p.args, c) is None,
        at + 1 >= args.len(),
    ensures
        option_step(args, at, p, t) == Some(Step::Stop(Err("unexpected argument '"@ + t + "'"@))),
        short_options(p.args, seq![c] + more).1 == Err::<Option<Option<Seq<char>>>, Seq<char>>(
            "unexpected argument '-"@ + seq![c] + "'"@,
        ),
        option_step(args, at, p, "-d"@) == Some(
            Step::Stop(Err("a value is required for '"@ + "-d"@ + "'"@)),
        ),
        option_step(args, at, p, "--max-depth"@) == Some(
            Step::Stop(Err("a value is required for '"@ + "--max-depth"@ + "'"@)),
        ),
{
    lemma_option_names();
    assert(!"--max-depth="@.is_prefix_of(t)) by {
        if "--max-depth="@.is_prefix_of(t) {
            assert("--max-depth="@[2] == t[2]);
        }
    }
    assert("--"@.is_prefix_of(t)) by {
        assert("--"@ =~= t.subrange(0, 2));
    }
    assert((seq![c] + more)[0] == c);
}

/// A text that is no number is refused as a depth, and shown.
pub proof fn depths_are_numbers(t: Seq<char>, b: Seq<u8>)
    ensures
        number_in(t) is None ==> depth_of_text(t) == Err::<nat, Seq<char>>(
            "invalid value "@ + debug_path(t) + " for '--max-depth'"@,
        ),
        number_in(t) matches Some(n) ==> depth_of_text(t) == Ok::<nat, Seq<char>>(n),
        text_in(b) is None ==> depth_of(b) is Err,
        text_in(b) matches Some(u) ==> depth_of(b) == depth_of_text(u),
{
}

} // verus!
