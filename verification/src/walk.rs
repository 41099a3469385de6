//! What a walk over a file system does with what it meets.
use vstd::prelude::*;
use crate::cli::Args;
use crate::colors::ColorScheme;
use crate::path::{parse_path, PathBuf, PathView};
use crate::rules::{is_hidden, spec_is_hidden, Decision};
use crate::ruleset::{free_of_nul, scopes_verdict, Overrides, RuleSet, Rules};
use crate::text::{
    ascii_lower, char_lists, chars_between, chars_from, chars_of, eq_but_case, find_char, first_index,
    first_is_first, is_white, lines, lines_of, same_but_case, starts_with_text, text_of, trim, trimmed,
    utf8_lossy, white_space_comes_off,
};

verus! {

/// The path that a text spells.
pub open spec fn text_path(s: Seq<char>) -> PathView {
    parse_path(vstd::utf8::encode_utf8(s))
}

/// Where an ignore file comes from.
#[derive(Clone, Copy, Debug, PartialEq, Eq, Structural)]
pub enum Source {
    Ignore,
    Gitignore,
    Exclude,
    Global,
}

/// An ignore file to read, and the base of its rules.
#[derive(Debug)]
pub struct RuleFile {
    pub source: Source,
    pub file: PathBuf,
    pub base: PathBuf,
}

/// What rule files are.
pub open spec fn file_views(s: Seq<RuleFile>) -> Seq<(Source, PathView, PathView)> {
    s.map_values(|f: RuleFile| (f.source, f.file@, f.base@))
}

/// A repository: where it starts and where its data is.
#[derive(Debug)]
pub struct Repository {
    pub root: PathBuf,
    pub git_dir: PathBuf,
}

impl View for Repository {
    type V = (PathView, PathView);

    open spec fn view(&self) -> (PathView, PathView) {
        (self.root@, self.git_dir@)
    }
}

impl Clone for Repository {
    fn clone(&self) -> (r: Self)
        ensures
            r@ == self@,
    {
        Repository { root: self.root.clone(), git_dir: self.git_dir.clone() }
    }
}

/// What an optional repository is.
pub open spec fn repository_view(r: Option<Repository>) -> Option<(PathView, PathView)> {
    match r {
        Some(repository) => Some(repository@),
        None => None,
    }
}

/// Whether an entry is looked at. Overrides come first; with one that includes,
/// files that none of them includes are skipped. Then the rules decide, and of
/// what they leave open hidden entries are skipped.
pub open spec fn is_admitted(
    over: Option<Decision>,
    has_includes: bool,
    is_file: bool,
    ignore: Option<Decision>,
    include_hidden: bool,
    hidden: bool,
) -> bool {
    match over {
        Some(Decision::Exclude) => false,
        Some(Decision::Include) => true,
        None => if has_includes && is_file {
            false
        } else {
            match ignore {
                Some(Decision::Exclude) => false,
                Some(Decision::Include) => true,
                None => include_hidden || !hidden,
            }
        },
    }
}

/// What a walk knows where it is.
pub struct Walker {
    pub colors: ColorScheme,
    pub args: Args,
    pub overrides: Overrides,
    pub rules: Rules,
    pub repository: Option<Repository>,
    pub root_device: Option<u64>,
}

impl Clone for Walker {
    fn clone(&self) -> (r: Self)
        ensures
            r.same_as(*self),
    {
        Walker {
            colors: self.colors,
            args: self.args.clone(),
            overrides: self.overrides.clone(),
            rules: self.rules.clone(),
            repository: match &self.repository {
                Some(repository) => Some(repository.clone()),
                None => None,
            },
            root_device: self.root_device,
        }
    }
}

impl Walker {
    /// Whether two walks know the same.
    pub open spec fn same_as(self, other: Walker) -> bool {
        &&& self.colors == other.colors
        &&& self.args@ == other.args@
        &&& self.overrides.scopes() == other.overrides.scopes()
        &&& self.overrides.includes() == other.overrides.includes()
        &&& self.rules.ignore@ == other.rules.ignore@
        &&& self.rules.gitignore@ == other.rules.gitignore@
        &&& self.rules.git_exclude@ == other.rules.git_exclude@
        &&& self.rules.git_global@ == other.rules.git_global@
        &&& repository_view(self.repository) == repository_view(other.repository)
        &&& self.root_device == other.root_device
    }

    /// Whether an entry is looked at.
    pub open spec fn spec_admits(self, path: PathView, is_dir: bool, is_file: bool) -> bool {
        is_admitted(
            scopes_verdict(self.overrides.scopes(), path, is_dir),
            self.overrides.includes(),
            is_file,
            self.rules.spec_matched(path, is_dir, self.repository is Some),
            self.args.include_hidden,
            path.file_name() is Some && spec_is_hidden(path.file_name()->0),
        )
    }

    /// Whether an entry is looked at.
    pub fn admits(&self, path: &PathBuf, is_dir: bool, is_file: bool) -> (r: bool)
        requires
            free_of_nul(path@),
        ensures
            r == self.spec_admits(path@, is_dir, is_file),
            r == is_admitted(
                scopes_verdict(self.overrides.scopes(), path@, is_dir),
                self.overrides.includes(),
                is_file,
                self.rules.spec_matched(path@, is_dir, self.repository is Some),
                self.args.include_hidden,
                path@.file_name() is Some && spec_is_hidden(path@.file_name()->0),
            ),
    {
        match self.overrides.matched(path, is_dir) {
            Some(Decision::Exclude) => {
                return false;
            },
            Some(Decision::Include) => {
                return true;
            },
            None => {},
        }
        if self.overrides.has_includes() && is_file {
            return false;
        }
        match self.rules.matched(path, is_dir, self.repository.is_some()) {
            Some(Decision::Exclude) => false,
            Some(Decision::Include) => true,
            None => {
                if self.args.include_hidden {
                    return true;
                }
                match path.file_name() {
                    Some(name) => !is_hidden(name),
                    None => true,
                }
            },
        }
    }

    /// Whether a directory on a device is entered.
    pub open spec fn spec_enters(self, device: Option<u64>) -> bool {
        self.args.cross_fs || match (self.root_device, device) {
            (Some(root), Some(child)) => root == child,
            _ => true,
        }
    }

    /// Whether a directory is entered: it lies on the device of the root, or
    /// that is not known, or other devices are allowed.
    pub fn enters(&self, device: Option<u64>) -> (r: bool)
        ensures
            r == (self.args.cross_fs || self.root_device is None || device is None || self.root_device
                == device),
            r == self.spec_enters(device),
    {
        if self.args.cross_fs {
            return true;
        }
        match (self.root_device, device) {
            (Some(root), Some(child)) => root == child,
            _ => true,
        }
    }

    /// The ignore files of a directory.
    pub open spec fn spec_directory_files(self, dir: PathView) -> Seq<(Source, PathView, PathView)> {
        let ignore = (Source::Ignore, dir.join(text_path(".ignore"@)), dir);
        let gitignore = (Source::Gitignore, dir.join(text_path(".gitignore"@)), dir);
        let first = if self.args.include_ignored {
            Seq::empty()
        } else {
            seq![ignore]
        };
        if self.repository is Some && !self.args.include_gitignored {
            first.push(gitignore)
        } else {
            first
        }
    }

    /// The ignore files to read when a directory is entered.
    pub fn directory_files(&self, dir: &PathBuf) -> (r: Vec<RuleFile>)
        ensures
            file_views(r@) == self.spec_directory_files(dir@),
    {
        let mut r: Vec<RuleFile> = Vec::new();
        if !self.args.include_ignored {
            r.push(
                RuleFile {
                    source: Source::Ignore,
                    file: dir.join(&PathBuf::from_text(".ignore")),
                    base: dir.clone(),
                },
            );
        }
        if self.repository.is_some() && !self.args.include_gitignored {
            r.push(
                RuleFile {
                    source: Source::Gitignore,
                    file: dir.join(&PathBuf::from_text(".gitignore")),
                    base: dir.clone(),
                },
            );
        }
        assert(file_views(r@) =~= self.spec_directory_files(dir@));
        r
    }

    /// The ignore files of the repository: its exclude file, and the global
    /// ignore file if there is one.
    pub open spec fn spec_repository_files(self, global: Option<PathView>) -> Seq<
        (Source, PathView, PathView),
    > {
        match repository_view(self.repository) {
            None => Seq::empty(),
            Some((root, git_dir)) => {
                let exclude = (Source::Exclude, git_dir.join(text_path("info/exclude"@)), root);
                let first = if self.args.include_gitexcluded {
                    Seq::empty()
                } else {
                    seq![exclude]
                };
                match global {
                    Some(path) if !self.args.include_all => first.push((Source::Global, path, root)),
                    _ => first,
                }
            },
        }
    }

    /// The ignore files to read when a repository is entered.
    pub fn repository_files(&self, global: Option<&PathBuf>) -> (r: Vec<RuleFile>)
        ensures
            file_views(r@) == self.spec_repository_files(
                match global {
                    Some(path) => Some(path@),
                    None => None,
                },
            ),
    {
        let mut r: Vec<RuleFile> = Vec::new();
        let ghost given = match global {
            Some(path) => Some(path@),
            None => None,
        };
        if let Some(repository) = &self.repository {
            if !self.args.include_gitexcluded {
                r.push(
                    RuleFile {
                        source: Source::Exclude,
                        file: repository.git_dir.join(&PathBuf::from_text("info/exclude")),
                        base: repository.root.clone(),
                    },
                );
            }
            if !self.args.include_all {
                if let Some(path) = global {
                    r.push(
                        RuleFile {
                            source: Source::Global,
                            file: path.clone(),
                            base: repository.root.clone(),
                        },
                    );
                }
            }
        }
        assert(file_views(r@) =~= self.spec_repository_files(given));
        r
    }

    /// The ignore files of the first `n` directories above a root, from the
    /// top: `.gitignore` files count inside the repository only.
    pub open spec fn spec_parent_files(self, root: PathView, n: int) -> Seq<
        (Source, PathView, PathView),
    >
        decreases n,
    {
        if n <= 0 {
            Seq::empty()
        } else {
            let before = self.spec_parent_files(root, n - 1);
            let parent = PathView { absolute: root.absolute, comps: root.comps.take(n - 1) };
            let ignore = (Source::Ignore, parent.join(text_path(".ignore"@)), parent);
            let gitignore = (Source::Gitignore, parent.join(text_path(".gitignore"@)), parent);
            let first = if self.args.include_ignored {
                before
            } else {
                before.push(ignore)
            };
            if !self.args.include_gitignored && self.repository is Some && parent.starts_with(
                self.repository->0.root@,
            ) {
                first.push(gitignore)
            } else {
                first
            }
        }
    }

    /// The ignore files to read before a walk, from the top: those of the
    /// directories above the root, then those of the repository.
    pub fn initial_files(&self, root: &PathBuf, global: Option<&PathBuf>) -> (r: Vec<RuleFile>)
        ensures
            file_views(r@) == self.spec_parent_files(root@, root@.comps.len() as int)
                + self.spec_repository_files(
                match global {
                    Some(path) => Some(path@),
                    None => None,
                },
            ),
    {
        let mut r: Vec<RuleFile> = Vec::new();
        let mut n: usize = 0;
        assert(file_views(r@) =~= self.spec_parent_files(root@, 0));
        while n < root.len()
            invariant
                n <= root@.comps.len(),
                file_views(r@) == self.spec_parent_files(root@, n as int),
            decreases root@.comps.len() - n,
        {
            let ghost before = file_views(r@);
            let parent = root.up_to(n);
            if !self.args.include_ignored {
                r.push(
                    RuleFile {
                        source: Source::Ignore,
                        file: parent.join(&PathBuf::from_text(".ignore")),
                        base: parent.clone(),
                    },
                );
            }
            if !self.args.include_gitignored {
                if let Some(repository) = &self.repository {
                    if parent.starts_with(&repository.root) {
                        r.push(
                            RuleFile {
                                source: Source::Gitignore,
                                file: parent.join(&PathBuf::from_text(".gitignore")),
                                base: parent.clone(),
                            },
                        );
                    }
                }
            }
            assert(file_views(r@) =~= self.spec_parent_files(root@, n + 1));
            n += 1;
        }
        let ghost above = r@;
        let mut more = self.repository_files(global);
        let ghost own = more@;
        r.append(&mut more);
        assert(file_views(r@) =~= file_views(above) + file_views(own));
        r
    }

    /// The rules of a source.
    pub open spec fn source_rules(self, source: Source) -> Seq<(PathView, Seq<crate::rules::RuleView>)> {
        match source {
            Source::Ignore => self.rules.ignore@,
            Source::Gitignore => self.rules.gitignore@,
            Source::Exclude => self.rules.git_exclude@,
            Source::Global => self.rules.git_global@,
        }
    }

    /// Adds the rules of an ignore file to those of its source. If their matcher
    /// cannot be built nothing changes.
    pub fn load(&mut self, source: Source, bytes: &[u8], base: &PathBuf)
        ensures
            ({
                let rules = crate::rules::rules_of(lines(crate::text::utf8_lossy(bytes@)), base@, false);
                final(self).source_rules(source) == if rules.len() > 0
                    && crate::ruleset::compiles_both(rules) {
                    old(self).source_rules(source).push((base@, rules))
                } else {
                    old(self).source_rules(source)
                }
            }),
            forall|other: Source|
                other != source ==> #[trigger] final(self).source_rules(other) == old(self).source_rules(
                    other,
                ),
            final(self).args == old(self).args,
            final(self).colors == old(self).colors,
            final(self).overrides == old(self).overrides,
            final(self).repository == old(self).repository,
            final(self).root_device == old(self).root_device,
    {
        match source {
            Source::Ignore => self.rules.ignore.add_file(bytes, base),
            Source::Gitignore => self.rules.gitignore.add_file(bytes, base),
            Source::Exclude => self.rules.git_exclude.add_file(bytes, base),
            Source::Global => self.rules.git_global.add_file(bytes, base),
        }
    }

    /// Enters a directory that may be a repository. A repository that is not
    /// the one the walk is in replaces it, and the rules of the old one go;
    /// then the ignore files of the new one are to be read.
    pub fn enter_repository(&mut self, dir: &PathBuf, found: Option<Repository>) -> (r: bool)
        ensures
            r == (found is Some && !(old(self).repository is Some && old(self).repository->0.root@
                == dir@)),
            r ==> repository_view(final(self).repository) == repository_view(found)
                && final(self).rules.gitignore@.len() == 0 && final(self).rules.git_exclude@.len() == 0
                && final(self).rules.git_global@.len() == 0 && final(self).rules.ignore@ == old(
                self,
            ).rules.ignore@,
            !r ==> *final(self) == *old(self),
            final(self).args == old(self).args,
            final(self).colors == old(self).colors,
            final(self).overrides == old(self).overrides,
            final(self).root_device == old(self).root_device,
    {
        if let Some(repository) = &self.repository {
            if repository.root.same(dir) {
                return false;
            }
        }
        match found {
            None => false,
            Some(repository) => {
                self.repository = Some(repository);
                self.rules.gitignore = RuleSet::default();
                self.rules.git_exclude = RuleSet::default();
                self.rules.git_global = RuleSet::default();
                true
            },
        }
    }
}

/// What follows a text, if a longer one starts with it.
pub open spec fn after(s: Seq<char>, head: Seq<char>) -> Option<Seq<char>> {
    if head.is_prefix_of(s) {
        Some(s.skip(head.len() as int))
    } else {
        None
    }
}

fn strip_text(chars: &[char], head: &str) -> (r: Option<Vec<char>>)
    ensures
        match r {
            Some(rest) => after(chars@, head@) == Some(rest@),
            None => after(chars@, head@) is None,
        },
{
    if !starts_with_text(chars, head) {
        return None;
    }
    let n: usize = chars_of(head).len();
    Some(chars_from(chars, n))
}

/// The repository at a path, from what is found at its `.git`: a directory, or
/// a file that says where the directory is.
pub open spec fn repository_found(path: PathView, is_dir: bool, text: Option<Seq<char>>) -> Option<
    (PathView, PathView),
> {
    if is_dir {
        Some((path, path.join(text_path(".git"@))))
    } else {
        match text {
            Some(t) => match after(trimmed(t), "gitdir:"@) {
                Some(rest) => Some((path, path.join(text_path(trimmed(rest))))),
                None => None,
            },
            None => None,
        }
    }
}

/// The repository at a path, from what is found at its `.git`.
pub fn repository_at(path: &PathBuf, is_dir: bool, text: Option<&str>) -> (r: Option<Repository>)
    ensures
        repository_view(r) == repository_found(
            path@,
            is_dir,
            match text {
                Some(t) => Some(t@),
                None => None,
            },
        ),
{
    if is_dir {
        return Some(
            Repository { root: path.clone(), git_dir: path.join(&PathBuf::from_text(".git")) },
        );
    }
    let text = match text {
        Some(text) => text,
        None => {
            return None;
        },
    };
    let chars = chars_of(text);
    let whole = trim(chars.as_slice());
    match strip_text(whole.as_slice(), "gitdir:") {
        Some(rest) => {
            let dir = trim(rest.as_slice());
            let dir = text_of(dir.as_slice());
            Some(
                Repository {
                    root: path.clone(),
                    git_dir: path.join(&PathBuf::from_text(dir.as_str())),
                },
            )
        },
        None => None,
    }
}

/// A text without the quotes at its end.
pub open spec fn quotes_off_end(s: Seq<char>) -> Seq<char>
    decreases s.len(),
{
    if s.len() > 0 && s.last() == '"' {
        quotes_off_end(s.drop_last())
    } else {
        s
    }
}

/// A text without the quotes at its start.
pub open spec fn quotes_off_start(s: Seq<char>) -> Seq<char>
    decreases s.len(),
{
    if s.len() > 0 && s[0] == '"' {
        quotes_off_start(s.skip(1))
    } else {
        s
    }
}

fn trim_quotes(chars: &[char]) -> (r: Vec<char>)
    ensures
        r@ == quotes_off_end(quotes_off_start(chars@)),
{
    let mut from: usize = 0;
    assert(chars@.skip(0) =~= chars@);
    while from < chars.len() && chars[from] == '"'
        invariant
            from <= chars@.len(),
            quotes_off_start(chars@) == quotes_off_start(chars@.skip(from as int)),
        decreases chars.len() - from,
    {
        assert(chars@.skip(from as int).skip(1) =~= chars@.skip(from + 1));
        from += 1;
    }
    let ghost s = chars@.skip(from as int);
    assert(quotes_off_start(chars@) == s);
    let mut to: usize = chars.len();
    assert(chars@.subrange(from as int, to as int) =~= s);
    while to > from && chars[to - 1] == '"'
        invariant
            from <= to <= chars@.len(),
            quotes_off_end(s) == quotes_off_end(chars@.subrange(from as int, to as int)),
        decreases to,
    {
        assert(chars@.subrange(from as int, to as int).drop_last() =~= chars@.subrange(
            from as int,
            to - 1,
        ));
        to -= 1;
    }
    chars_between(chars, from, to)
}

/// The value that a line of a `[core]` section gives to `excludesfile`.
pub open spec fn excludes_value(line: Seq<char>) -> Option<Seq<char>> {
    let at = first_index(line, '=');
    if at < line.len() && same_but_case(trimmed(line.take(at)), "excludesfile"@) {
        Some(quotes_off_end(quotes_off_start(trimmed(line.skip(at + 1)))))
    } else {
        None
    }
}

/// The excludes file that the lines of a git configuration name, from a line
/// on. The first line that names one counts.
pub open spec fn excludes_in(all: Seq<Seq<char>>, in_core: bool, home: Option<PathView>) -> Option<PathView>
    decreases all.len(),
{
    if all.len() == 0 {
        None
    } else {
        let line = trimmed(all[0]);
        let rest = all.skip(1);
        if line.len() > 0 && line[0] == '[' {
            excludes_in(rest, same_but_case(line, "[core]"@), home)
        } else if !in_core || (line.len() > 0 && (line[0] == '#' || line[0] == ';')) {
            excludes_in(rest, in_core, home)
        } else {
            match excludes_value(line) {
                None => excludes_in(rest, in_core, home),
                Some(value) => match after(value, "~/"@) {
                    Some(relative) => match home {
                        Some(h) => Some(h.join(text_path(relative))),
                        None => None,
                    },
                    None => Some(text_path(value)),
                },
            }
        }
    }
}

/// What an optional path is.
pub open spec fn path_view(p: Option<PathBuf>) -> Option<PathView> {
    match p {
        Some(path) => Some(path@),
        None => None,
    }
}

/// What an optional path is.
pub open spec fn path_ref_view(p: Option<&PathBuf>) -> Option<PathView> {
    match p {
        Some(path) => Some(path@),
        None => None,
    }
}

fn exec_excludes_value(line: &[char]) -> (r: Option<Vec<char>>)
    ensures
        match r {
            Some(v) => excludes_value(line@) == Some(v@),
            None => excludes_value(line@) is None,
        },
{
    let at: usize = find_char(line, '=');
    if at >= line.len() {
        return None;
    }
    let key = chars_between(line, 0, at);
    assert(key@ =~= line@.take(at as int));
    let key = trim(key.as_slice());
    if !eq_but_case(key.as_slice(), "excludesfile") {
        return None;
    }
    let value = chars_from(line, at + 1);
    let value = trim(value.as_slice());
    Some(trim_quotes(value.as_slice()))
}

/// The excludes file that a git configuration names.
pub fn configured_excludes_file(text: &str, home: Option<&PathBuf>) -> (r: Option<PathBuf>)
    ensures
        path_view(r) == excludes_in(lines(text@), false, path_ref_view(home)),
{
    let chars = chars_of(text);
    let all = lines_of(chars.as_slice());
    let ghost ls = lines(text@);
    let ghost h = path_ref_view(home);
    let mut in_core = false;
    let mut i: usize = 0;
    proof {
        assert(ls.skip(0) =~= ls);
        assert(char_lists(all@).len() == all@.len());
    }
    while i < all.len()
        invariant
            i <= all@.len(),
            char_lists(all@) == ls,
            ls == lines(text@),
            all@.len() == ls.len(),
            h == path_ref_view(home),
            excludes_in(ls, false, h) == excludes_in(ls.skip(i as int), in_core, h),
        decreases all.len() - i,
    {
        let line = trim(all[i].as_slice());
        proof {
            assert(ls.skip(i as int)[0] == char_lists(all@)[i as int]);
            assert(ls.skip(i as int).skip(1) =~= ls.skip(i + 1));
        }
        i += 1;
        if line.len() > 0 && line[0] == '[' {
            in_core = eq_but_case(line.as_slice(), "[core]");
        } else if !(!in_core || (line.len() > 0 && (line[0] == '#' || line[0] == ';'))) {
            if let Some(value) = exec_excludes_value(line.as_slice()) {
                return match strip_text(value.as_slice(), "~/") {
                    Some(relative) => {
                        match home {
                            Some(home) => {
                                let relative = text_of(relative.as_slice());
                                Some(home.join(&PathBuf::from_text(relative.as_str())))
                            },
                            None => None,
                        }
                    },
                    None => {
                        let value = text_of(value.as_slice());
                        Some(PathBuf::from_text(value.as_str()))
                    },
                };
            }
        }
    }
    None
}

/// The directory of configuration files: the value of `XDG_CONFIG_HOME` if
/// that is not empty, else `.config` in the home directory.
pub open spec fn spec_config_dir(home: Option<PathView>, xdg: Option<Seq<u8>>) -> Option<PathView> {
    if xdg is Some && xdg->0.len() > 0 {
        Some(parse_path(xdg->0))
    } else {
        match home {
            Some(h) => Some(h.join(text_path(".config"@))),
            None => None,
        }
    }
}

/// The directory of configuration files.
pub fn config_dir(home: Option<&PathBuf>, xdg: Option<&[u8]>) -> (r: Option<PathBuf>)
    ensures
        path_view(r) == spec_config_dir(
            path_ref_view(home),
            match xdg {
                Some(v) => Some(v@),
                None => None,
            },
        ),
{
    if let Some(value) = xdg {
        if value.len() > 0 {
            return Some(PathBuf::from_bytes(value));
        }
    }
    match home {
        Some(home) => Some(home.join(&PathBuf::from_text(".config"))),
        None => None,
    }
}

/// The git configuration files, if their directories are known: that of the
/// home directory, and that of the configuration directory.
pub fn git_config_files(home: Option<&PathBuf>, config: Option<&PathBuf>) -> (r: (
    Option<PathBuf>,
    Option<PathBuf>,
))
    ensures
        path_view(r.0) == match home {
            Some(h) => Some(h@.join(text_path(".gitconfig"@))),
            None => None,
        },
        path_view(r.1) == match config {
            Some(c) => Some(c@.join(text_path("git/config"@))),
            None => None,
        },
{
    let first = match home {
        Some(home) => Some(home.join(&PathBuf::from_text(".gitconfig"))),
        None => None,
    };
    let second = match config {
        Some(config) => Some(config.join(&PathBuf::from_text("git/config"))),
        None => None,
    };
    (first, second)
}

/// The excludes file that a configuration names, if it can be read.
pub open spec fn named_by(text: Option<Seq<char>>, home: Option<PathView>) -> Option<PathView> {
    match text {
        Some(t) => excludes_in(lines(t), false, home),
        None => None,
    }
}

fn exec_named_by(text: Option<&str>, home: Option<&PathBuf>) -> (r: Option<PathBuf>)
    ensures
        path_view(r) == named_by(
            match text {
                Some(t) => Some(t@),
                None => None,
            },
            path_ref_view(home),
        ),
{
    match text {
        Some(text) => configured_excludes_file(text, home),
        None => None,
    }
}

/// The global ignore file, given the texts of two git configurations and where
/// other settings are.
pub open spec fn spec_global_ignore(
    first: Option<Seq<char>>,
    second: Option<Seq<char>>,
    home: Option<PathView>,
    config: Option<PathView>,
) -> Option<PathView> {
    match named_by(first, home) {
        Some(path) => Some(path),
        None => match named_by(second, home) {
            Some(path) => Some(path),
            None => match config {
                Some(c) => Some(c.join(text_path("git/ignore"@))),
                None => None,
            },
        },
    }
}

/// The global ignore file: the one that the first of two git configurations
/// names, else `git/ignore` in the configuration directory.
pub fn global_ignore_path(home: Option<&PathBuf>, config: Option<&PathBuf>, home_text: Option<&str>, config_text: Option<
    &str,
>) -> (r: Option<PathBuf>)
    ensures
        ({
            let first = named_by(
                match home_text {
                    Some(t) => Some(t@),
                    None => None,
                },
                path_ref_view(home),
            );
            let second = named_by(
                match config_text {
                    Some(t) => Some(t@),
                    None => None,
                },
                path_ref_view(home),
            );
            path_view(r) == if first is Some {
                first
            } else if second is Some {
                second
            } else {
                match config {
                    Some(c) => Some(c@.join(text_path("git/ignore"@))),
                    None => None,
                }
            }
        }),
        path_view(r) == spec_global_ignore(
            match home_text {
                Some(t) => Some(t@),
                None => None,
            },
            match config_text {
                Some(t) => Some(t@),
                None => None,
            },
            path_ref_view(home),
            path_ref_view(config),
        ),
{
    if let Some(path) = exec_named_by(home_text, home) {
        return Some(path);
    }
    if let Some(path) = exec_named_by(config_text, home) {
        return Some(path);
    }
    match config {
        Some(config) => Some(config.join(&PathBuf::from_text("git/ignore"))),
        None => None,
    }
}

/// Overrides have the last word: what one of them includes is looked at and what
/// one excludes is not, whatever ignore files say and whether it is hidden or not.
pub proof fn overrides_win(
    decision: Decision,
    has_includes: bool,
    is_file: bool,
    ignore: Option<Decision>,
    include_hidden: bool,
    hidden: bool,
)
    ensures
        is_admitted(Some(decision), has_includes, is_file, ignore, include_hidden, hidden) <==> decision
            == Decision::Include,
{
}

/// What no override speaks of: once one of them includes something, files are not
/// looked at, and directories are as if there were none.
pub proof fn includes_leave_other_files_out(
    is_file: bool,
    ignore: Option<Decision>,
    include_hidden: bool,
    hidden: bool,
)
    ensures
        is_file ==> !is_admitted(None, true, is_file, ignore, include_hidden, hidden),
        !is_file ==> is_admitted(None, true, is_file, ignore, include_hidden, hidden) == is_admitted(
            None,
            false,
            is_file,
            ignore,
            include_hidden,
            hidden,
        ),
{
}

/// Without overrides ignore files have the last word, on hidden entries too. Where
/// they say nothing, all but hidden entries are looked at, and these where hidden
/// entries are asked for. Files and directories are treated alike.
pub proof fn rules_come_before_hiding(
    is_file: bool,
    ignore: Option<Decision>,
    include_hidden: bool,
    hidden: bool,
)
    ensures
        ({
            let admitted = is_admitted(None, false, is_file, ignore, include_hidden, hidden);
            &&& ignore is Some ==> (admitted <==> ignore == Some(Decision::Include))
            &&& ignore is None && hidden ==> admitted == include_hidden
            &&& ignore is None && !hidden ==> admitted
        }),
{
}

/// Of walks that differ in nothing else, one that shows hidden entries looks at all
/// that the other looks at, and further only at hidden ones.
pub proof fn showing_hidden_adds_the_hidden(w: Walker, v: Walker, path: PathView, is_dir: bool, is_file: bool)
    requires
        w.overrides == v.overrides,
        w.rules == v.rules,
        w.repository == v.repository,
        v.args.include_hidden,
    ensures
        w.spec_admits(path, is_dir, is_file) ==> v.spec_admits(path, is_dir, is_file),
        v.spec_admits(path, is_dir, is_file) && !w.spec_admits(path, is_dir, is_file) ==> path.file_name() is Some
            && utf8_lossy(path.file_name()->0).len() > 0 && utf8_lossy(path.file_name()->0)[0] == '.',
{
}

/// Outside of a repository nothing that git says counts.
pub proof fn git_counts_in_repositories(w: Walker, v: Walker, path: PathView, is_dir: bool, is_file: bool)
    requires
        w.overrides == v.overrides,
        w.args == v.args,
        w.rules.ignore@ == v.rules.ignore@,
        w.repository is None && v.repository is None,
    ensures
        w.spec_admits(path, is_dir, is_file) == v.spec_admits(path, is_dir, is_file),
{
}

/// Which ignore files of a directory are read: its `.ignore`, unless ignored
/// files are wanted, and in a repository its `.gitignore`, unless those are. Rules
/// of later files come first, so the `.gitignore` stands last.
pub proof fn directories_have_two_files(w: Walker, dir: PathView)
    ensures
        ({
            let files = w.spec_directory_files(dir);
            let ignore = (Source::Ignore, dir.join(text_path(".ignore"@)), dir);
            let gitignore = (Source::Gitignore, dir.join(text_path(".gitignore"@)), dir);
            &&& files.contains(ignore) <==> !w.args.include_ignored
            &&& files.contains(gitignore) <==> w.repository is Some && !w.args.include_gitignored
            &&& forall|i: int|
                0 <= i < files.len() ==> #[trigger] files[i] == ignore || (files[i] == gitignore && i + 1
                    == files.len())
        }),
{
    let files = w.spec_directory_files(dir);
    let ignore = (Source::Ignore, dir.join(text_path(".ignore"@)), dir);
    let gitignore = (Source::Gitignore, dir.join(text_path(".gitignore"@)), dir);
    if !w.args.include_ignored {
        assert(files[0] == ignore);
    }
    if w.repository is Some && !w.args.include_gitignored {
        assert(files[files.len() - 1] == gitignore);
    }
}

/// Which ignore files of a repository are read: its exclude file, unless what it
/// excludes is wanted, and the global one, unless all is. Their rules are taken
/// from the root of the repository.
pub proof fn repositories_have_two_files(w: Walker, global: Option<PathView>)
    ensures
        w.repository is None ==> w.spec_repository_files(global).len() == 0,
        w.repository matches Some(repository) ==> {
            let files = w.spec_repository_files(global);
            let exclude = (
                Source::Exclude,
                repository.git_dir@.join(text_path("info/exclude"@)),
                repository.root@,
            );
            &&& files.contains(exclude) <==> !w.args.include_gitexcluded
            &&& global matches Some(path) ==> (files.contains((Source::Global, path, repository.root@))
                <==> !w.args.include_all)
            &&& forall|i: int|
                0 <= i < files.len() ==> #[trigger] files[i] == exclude || (files[i].0 == Source::Global && global
                    == Some(files[i].1) && files[i].2 == repository.root@)
        },
{
    if let Some(repository) = w.repository {
        let files = w.spec_repository_files(global);
        let exclude = (
            Source::Exclude,
            repository.git_dir@.join(text_path("info/exclude"@)),
            repository.root@,
        );
        if !w.args.include_gitexcluded {
            assert(files[0] == exclude);
        }
        if let Some(path) = global {
            if !w.args.include_all {
                assert(files[files.len() - 1] == (Source::Global, path, repository.root@));
            }
        }
    }
}

/// The directory that the first components of a path name.
pub open spec fn ancestor(path: PathView, n: int) -> PathView {
    PathView { absolute: path.absolute, comps: path.comps.take(n) }
}

/// Whether an ignore file belongs to one of the first directories above a path.
pub open spec fn is_file_above(w: Walker, root: PathView, n: int, file: (Source, PathView, PathView)) -> bool {
    let k = file.2.comps.len() as int;
    &&& k < n
    &&& file.2 == ancestor(root, k)
    &&& if file.0 == Source::Ignore {
        file.1 == file.2.join(text_path(".ignore"@))
    } else {
        &&& file.0 == Source::Gitignore
        &&& file.1 == file.2.join(text_path(".gitignore"@))
        &&& w.repository is Some
        &&& file.2.starts_with(w.repository->0.root@)
    }
}

/// Before a walk the ignore files of all directories above its root are read, from
/// the top: their `.ignore`, unless ignored files are wanted, and within the
/// repository their `.gitignore`, unless those are.
pub proof fn directories_above_have_files(w: Walker, root: PathView, n: int)
    requires
        0 <= n <= root.comps.len(),
    ensures
        ({
            let files = w.spec_parent_files(root, n);
            &&& forall|i: int| 0 <= i < files.len() ==> is_file_above(w, root, n, #[trigger] files[i])
            &&& forall|i: int, j: int|
                0 <= i < j < files.len() ==> (#[trigger] files[i]).2.comps.len() <= (
                #[trigger] files[j]).2.comps.len()
            &&& forall|k: int|
                0 <= k < n ==> (files.contains(
                    (
                        Source::Ignore,
                        (#[trigger] ancestor(root, k)).join(text_path(".ignore"@)),
                        ancestor(root, k),
                    ),
                ) <==> !w.args.include_ignored)
            &&& forall|k: int|
                0 <= k < n ==> (files.contains(
                    (
                        Source::Gitignore,
                        (#[trigger] ancestor(root, k)).join(text_path(".gitignore"@)),
                        ancestor(root, k),
                    ),
                ) <==> !w.args.include_gitignored && w.repository is Some && ancestor(root, k).starts_with(
                    w.repository->0.root@,
                ))
        }),
    decreases n,
{
    let files = w.spec_parent_files(root, n);
    if n > 0 {
        let before = w.spec_parent_files(root, n - 1);
        let d = ancestor(root, n - 1);
        directories_above_have_files(w, root, n - 1);
        let ignore = (Source::Ignore, d.join(text_path(".ignore"@)), d);
        let gitignore = (Source::Gitignore, d.join(text_path(".gitignore"@)), d);
        assert(d.comps.len() == n - 1);
        assert(before.is_prefix_of(files));
        assert forall|i: int| 0 <= i < files.len() implies is_file_above(w, root, n, #[trigger] files[i]) && (i
            >= before.len() ==> files[i] == ignore || files[i] == gitignore) && (i < before.len() ==> files[i]
            == before[i]) by {
            if i < before.len() {
                assert(files[i] == before[i]);
                assert(is_file_above(w, root, n - 1, before[i]));
            }
        }
        assert forall|i: int, j: int| 0 <= i < j < files.len() implies (#[trigger] files[i]).2.comps.len() <= (
        #[trigger] files[j]).2.comps.len() by {
            assert(is_file_above(w, root, n, files[i]));
            if j < before.len() {
                assert(files[i] == before[i] && files[j] == before[j]);
            }
        }
        assert forall|k: int| 0 <= k < n implies (files.contains(
            (
                Source::Ignore,
                (#[trigger] ancestor(root, k)).join(text_path(".ignore"@)),
                ancestor(root, k),
            ),
        ) <==> !w.args.include_ignored) by {
            lemma_file_kept(
                before,
                files,
                (Source::Ignore, ancestor(root, k).join(text_path(".ignore"@)), ancestor(root, k)),
                d,
            );
            if k == n - 1 {
                if !w.args.include_ignored {
                    assert(files[before.len() as int] == ignore);
                } else if files.contains(ignore) {
                    let i = choose|i: int| 0 <= i < files.len() && files[i] == ignore;
                    if i < before.len() {
                        assert(is_file_above(w, root, n - 1, before[i]));
                    }
                }
            } else {
                assert(ancestor(root, k).comps.len() == k);
            }
        }
        assert forall|k: int| 0 <= k < n implies (files.contains(
            (
                Source::Gitignore,
                (#[trigger] ancestor(root, k)).join(text_path(".gitignore"@)),
                ancestor(root, k),
            ),
        ) <==> !w.args.include_gitignored && w.repository is Some && ancestor(root, k).starts_with(
            w.repository->0.root@,
        )) by {
            lemma_file_kept(
                before,
                files,
                (Source::Gitignore, ancestor(root, k).join(text_path(".gitignore"@)), ancestor(root, k)),
                d,
            );
            if k == n - 1 {
                if !w.args.include_gitignored && w.repository is Some && d.starts_with(w.repository->0.root@) {
                    assert(files[files.len() - 1] == gitignore);
                } else if files.contains(gitignore) {
                    let i = choose|i: int| 0 <= i < files.len() && files[i] == gitignore;
                    if i < before.len() {
                        assert(is_file_above(w, root, n - 1, before[i]));
                    }
                }
            } else {
                assert(ancestor(root, k).comps.len() == k);
            }
        }
    }
}

proof fn lemma_file_kept(
    before: Seq<(Source, PathView, PathView)>,
    files: Seq<(Source, PathView, PathView)>,
    file: (Source, PathView, PathView),
    d: PathView,
)
    requires
        before.is_prefix_of(files),
        forall|i: int| before.len() <= i < files.len() ==> (#[trigger] files[i]).2 == d,
    ensures
        file.2 != d ==> (files.contains(file) <==> before.contains(file)),
{
    if before.contains(file) {
        let i = choose|i: int| 0 <= i < before.len() && before[i] == file;
        assert(files[i] == before[i]);
    }
    if files.contains(file) && file.2 != d {
        let i = choose|i: int| 0 <= i < files.len() && files[i] == file;
        assert(before[i] == files[i]);
    }
}

/// A repository has its data in its `.git`, or where a file of that name says.
pub proof fn git_files_point_to_repositories(path: PathView, before: Seq<char>, to: Seq<char>, after: Seq<char>, t: Option<
    Seq<char>,
>)
    requires
        forall|i: int| 0 <= i < before.len() ==> is_white(#[trigger] before[i]),
        forall|i: int| 0 <= i < after.len() ==> is_white(#[trigger] after[i]),
        to.len() > 0,
        !is_white(to[0]),
        !is_white(to.last()),
    ensures
        repository_found(path, true, t) == Some((path, path.join(text_path(".git"@)))),
        repository_found(path, false, Some("gitdir:"@ + before + to + after)) == Some(
            (path, path.join(text_path(to))),
        ),
        repository_found(path, false, Some(to)) is Some ==> "gitdir:"@.is_prefix_of(to),
        repository_found(path, false, None) is None,
{
    reveal_strlit("gitdir:");
    let head = "gitdir:"@;
    let line = head + before + to;
    let none = Seq::<char>::empty();
    assert(line[0] == 'g');
    assert(line.last() == to.last());
    white_space_comes_off(none, line, after);
    assert(none + line + after =~= head + before + to + after);
    assert(head =~= line.subrange(0, head.len() as int));
    assert(line.skip(head.len() as int) =~= before + to);
    white_space_comes_off(before, to, none);
    assert(before + to + none =~= before + to);
    white_space_comes_off(none, to, none);
    assert(none + to + none =~= to);
}

/// Settings are looked for where the environment says, if it says something, and
/// in the home directory else.
pub proof fn settings_have_a_place(home: Option<PathView>, xdg: Seq<u8>)
    ensures
        xdg.len() > 0 ==> spec_config_dir(home, Some(xdg)) == Some(parse_path(xdg)),
        home matches Some(h) ==> spec_config_dir(home, None) == Some(h.join(text_path(".config"@))),
        spec_config_dir(home, Some(Seq::empty())) == spec_config_dir(home, None),
        spec_config_dir(None, None) is None,
{
}

proof fn lemma_no_quotes(s: Seq<char>)
    requires
        s.len() > 0,
        s[0] != '"',
        s.last() != '"',
    ensures
        quotes_off_end(quotes_off_start(s)) == s,
        quotes_off_end(quotes_off_start(seq!['"'] + s + seq!['"'])) == s,
{
    let q = seq!['"'] + s + seq!['"'];
    assert(q.skip(1) =~= s + seq!['"']);
    assert((s + seq!['"'])[0] == s[0]);
    assert(quotes_off_start(q) == quotes_off_start(s + seq!['"']));
    assert((s + seq!['"']).drop_last() =~= s);
    assert(quotes_off_end(s + seq!['"']) == quotes_off_end(s));
}

/// Whether a key of a configuration is the one for the excludes file.
pub open spec fn is_excludes_key(key: Seq<char>) -> bool {
    same_but_case(key, "excludesfile"@)
}

/// A line of the core section that gives a value to the key for the excludes file
/// names that file, in quotes or not, and in the home directory if it begins so.
/// The first such line counts.
pub proof fn the_core_section_names_the_file(
    key: Seq<char>,
    value: Seq<char>,
    rest: Seq<Seq<char>>,
    home: PathView,
)
    requires
        is_excludes_key(key),
        value.len() > 0,
        !is_white(value[0]),
        !is_white(value.last()),
        value[0] != '"',
        value.last() != '"',
    ensures
        ({
            let named = excludes_in(seq![key.push(' ').push('=').push(' ') + value] + rest, true, Some(home));
            let quoted = excludes_in(
                seq![key.push(' ').push('=').push(' ') + (seq!['"'] + value + seq!['"'])] + rest,
                true,
                Some(home),
            );
            &&& named == quoted
            &&& !"~/"@.is_prefix_of(value) ==> named == Some(text_path(value))
            &&& "~/"@.is_prefix_of(value) ==> named == Some(home.join(text_path(value.skip(2))))
        }),
{
    reveal_strlit("~/");
    lemma_no_quotes(value);
    lemma_excludes_line(key, value);
    let quoted = seq!['"'] + value + seq!['"'];
    lemma_excludes_line(key, quoted);
    let line = key.push(' ').push('=').push(' ') + value;
    let other = key.push(' ').push('=').push(' ') + quoted;
    assert((seq![line] + rest)[0] == line);
    assert((seq![other] + rest)[0] == other);
}

proof fn lemma_excludes_line(key: Seq<char>, value: Seq<char>)
    requires
        is_excludes_key(key),
        value.len() > 0,
        !is_white(value[0]),
        !is_white(value.last()),
    ensures
        ({
            let line = key.push(' ').push('=').push(' ') + value;
            &&& trimmed(line) == line
            &&& line[0] != '[' && line[0] != '#' && line[0] != ';'
            &&& excludes_value(line) == Some(quotes_off_end(quotes_off_start(value)))
        }),
{
    reveal_strlit("excludesfile");
    let word = "excludesfile"@;
    let none = Seq::<char>::empty();
    let line = key.push(' ').push('=').push(' ') + value;
    assert(key.len() == 12);
    assert forall|i: int| 0 <= i < key.len() implies #[trigger] key[i] != '=' && !is_white(key[i]) && key[i] != '['
        && key[i] != '#' && key[i] != ';' by {
        assert(ascii_lower(key[i]) == ascii_lower(word[i]));
        assert(0x61 <= word[i] as u32 <= 0x7a);
    }
    assert(line[0] == key[0]);
    assert(line.last() == value.last());
    white_space_comes_off(none, line, none);
    first_is_first(line, '=');
    assert(line[13] == '=');
    let at = first_index(line, '=');
    assert(at == 13) by {
        assert(line.contains('='));
        if at < 12 {
            assert(line[at] == key[at]);
        } else if at == 12 {
            assert(line[12] == ' ');
        }
    }
    let blank = seq![' '];
    assert(line.take(at) =~= none + key + blank);
    white_space_comes_off(none, key, blank);
    assert(line.skip(at + 1) =~= blank + value + none);
    white_space_comes_off(blank, value, none);
}

/// A heading begins a section: only the one named core counts. Other sections say
/// nothing of the file, and neither do comments.
pub proof fn other_sections_say_nothing(line: Seq<char>, rest: Seq<Seq<char>>, in_core: bool, home: Option<PathView>)
    requires
        trimmed(line).len() > 0,
    ensures
        ({
            let first = trimmed(line)[0];
            let found = excludes_in(seq![line] + rest, in_core, home);
            &&& first == '[' && same_but_case(trimmed(line), "[core]"@) ==> found == excludes_in(rest, true, home)
            &&& first == '[' && !same_but_case(trimmed(line), "[core]"@) ==> found == excludes_in(rest, false, home)
            &&& first == '#' || first == ';' ==> found == excludes_in(rest, in_core, home)
            &&& first != '[' && !in_core ==> found == excludes_in(rest, false, home)
        }),
        excludes_in(Seq::empty(), in_core, home) is None,
{
    assert((seq![line] + rest)[0] == line);
    assert((seq![line] + rest).skip(1) =~= rest);
}

/// Directories of the device of the root are entered, and so are all where devices
/// are not known. Those of other devices are entered only if that is asked for.
pub proof fn walks_stay_on_their_device(w: Walker, device: Option<u64>)
    ensures
        w.args.cross_fs ==> w.spec_enters(device),
        device == w.root_device ==> w.spec_enters(device),
        device is None || w.root_device is None ==> w.spec_enters(device),
        !w.args.cross_fs && device is Some && w.root_device is Some && device != w.root_device ==> !w.spec_enters(
            device,
        ),
{
}

/// The global ignore file is the one that the first configuration names, then the
/// one that the second names, and a default where neither can be read or names
/// one.
pub proof fn configurations_come_in_order(
    first: Option<Seq<char>>,
    second: Option<Seq<char>>,
    home: Option<PathView>,
    config: PathView,
)
    ensures
        named_by(first, home) is Some ==> spec_global_ignore(first, second, home, Some(config)) == named_by(
            first,
            home,
        ),
        named_by(first, home) is None && named_by(second, home) is Some ==> spec_global_ignore(
            first,
            second,
            home,
            Some(config),
        ) == named_by(second, home),
        spec_global_ignore(None, None, home, Some(config)) == Some(config.join(text_path("git/ignore"@))),
        spec_global_ignore(None, None, home, None) is None,
        named_by(None, home) is None,
        first matches Some(t) ==> named_by(first, home) == excludes_in(lines(t), false, home),
{
}

} // verus!
