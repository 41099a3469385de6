use std::collections::BTreeSet;

use leaves::cli::Args;
use leaves::colors::ColorScheme;
use leaves::config::Config;
use leaves::path::PathBuf;
use leaves::ruleset::{Overrides, Rules};
use leaves::walk::{
    config_dir, configured_excludes_file, git_config_files, global_ignore_path, repository_at, Repository, RuleFile,
    Walker,
};

fn path(text: &str) -> PathBuf {
    PathBuf::from_text(text)
}

fn args(root: &str, overrides: &[&str]) -> Args {
    Args {
        path: path(root),
        max_depth: 5,
        cross_fs: false,
        xray: false,
        include_all: false,
        include_hidden: false,
        include_ignored: false,
        include_gitignored: false,
        include_gitexcluded: false,
        overrides: overrides.iter().map(|value| value.to_string()).collect(),
    }
}

/// A file system in memory: files by their path, with what they hold.
struct Files(Vec<(&'static str, &'static str)>);

impl Files {
    fn read(&self, file: &PathBuf) -> Option<&'static str> {
        self.0.iter().find(|(name, _)| path(name) == *file).map(|(_, text)| *text)
    }

    fn is_dir(&self, dir: &PathBuf) -> bool {
        self.0.iter().any(|(name, _)| path(name) != *dir && path(name).starts_with(dir))
    }

    fn children(&self, dir: &PathBuf) -> BTreeSet<String> {
        self.0
            .iter()
            .filter(|(name, _)| path(name) != *dir && path(name).starts_with(dir))
            .map(|(name, _)| {
                let full = path(name);
                let child = full.up_to(dir.len() + 1);
                String::from_utf8(child.to_bytes()).unwrap()
            })
            .collect()
    }

    fn repository(&self, dir: &PathBuf) -> Option<Repository> {
        let marker = dir.join(&path(".git"));
        repository_at(dir, self.is_dir(&marker), self.read(&marker))
    }

    fn load(&self, walker: &mut Walker, files: Vec<RuleFile>) {
        for file in files {
            if let Some(text) = self.read(&file.file) {
                walker.load(file.source, text.as_bytes(), &file.base);
            }
        }
    }

    fn walk(&self, root: &str, args: &Args) -> BTreeSet<String> {
        let root = path(root);
        let mut walker = Walker {
            colors: ColorScheme::new(&Config::default(), false),
            args: args.clone(),
            overrides: Overrides::new(args).unwrap(),
            rules: Rules::default(),
            repository: self.repository(&root),
            root_device: Some(1),
        };
        let initial = walker.initial_files(&root, None);
        self.load(&mut walker, initial);
        let mut found = BTreeSet::new();
        self.enter(walker, &root, &root, &mut found);
        found
    }

    fn enter(&self, mut walker: Walker, root: &PathBuf, dir: &PathBuf, found: &mut BTreeSet<String>) {
        let repository = self.repository(dir);
        if walker.enter_repository(dir, repository) {
            let files = walker.repository_files(None);
            self.load(&mut walker, files);
        }
        let files = walker.directory_files(dir);
        self.load(&mut walker, files);
        for child in self.children(dir) {
            let child = path(&child);
            let is_dir = self.is_dir(&child);
            if !walker.admits(&child, is_dir, !is_dir) {
                continue;
            }
            if is_dir {
                if walker.enters(Some(1)) {
                    self.enter(walker.clone(), root, &child, found);
                }
            } else if !self.read(&child).unwrap().is_empty() {
                let relative = child.strip_prefix(root).unwrap();
                found.insert(String::from_utf8(relative.to_bytes()).unwrap());
            }
        }
    }
}

fn fixture() -> Files {
    Files(vec![
        ("/r/.git/info/exclude", "excluded.bin\n"),
        ("/r/.gitignore", "*.log\n!keep.log\nignored/\n"),
        ("/r/.ignore", "!debug.log\n*.tmp\n"),
        ("/r/keep.txt", "x"),
        ("/r/debug.log", "x"),
        ("/r/keep.log", "x"),
        ("/r/scratch.tmp", "x"),
        ("/r/excluded.bin", "x"),
        ("/r/.hidden", "x"),
        ("/r/empty.txt", ""),
        ("/r/ignored/data.txt", "x"),
        ("/r/nested/.gitignore", "*.bin\n"),
        ("/r/nested/drop.bin", "x"),
        ("/r/nested/keep.txt", "x"),
    ])
}

fn set(names: &[&str]) -> BTreeSet<String> {
    names.iter().map(|name| name.to_string()).collect()
}

#[test]
fn walk_applies_all_ignore_sources_and_precedence() {
    let files = fixture();
    assert_eq!(
        files.walk("/r", &args("/r", &[])),
        set(&["debug.log", "keep.log", "keep.txt", "nested/keep.txt"])
    );

    let mut hidden = args("/r", &[]);
    hidden.include_hidden = true;
    assert!(files.walk("/r", &hidden).contains(".hidden"));
    assert!(files.walk("/r", &hidden).contains(".gitignore"));

    let mut ignored = args("/r", &[]);
    ignored.include_ignored = true;
    assert_eq!(
        files.walk("/r", &ignored),
        set(&["keep.log", "keep.txt", "nested/keep.txt", "scratch.tmp"])
    );

    let mut gitignored = args("/r", &[]);
    gitignored.include_gitignored = true;
    assert_eq!(
        files.walk("/r", &gitignored),
        set(&[
            "debug.log",
            "ignored/data.txt",
            "keep.log",
            "keep.txt",
            "nested/drop.bin",
            "nested/keep.txt"
        ])
    );

    let mut excluded = args("/r", &[]);
    excluded.include_gitexcluded = true;
    assert!(files.walk("/r", &excluded).contains("excluded.bin"));

    assert_eq!(
        files.walk("/r", &args("/r", &["*.txt", "!ignored/**"])),
        set(&["keep.txt", "nested/keep.txt"])
    );
}

#[test]
fn rules_above_the_root_count_too() {
    let files = Files(vec![
        ("/r/.git/HEAD", "x"),
        ("/r/.gitignore", "*.log\n"),
        ("/r/in/a.log", "x"),
        ("/r/in/a.txt", "x"),
        ("/.ignore", "*.tmp\n"),
        ("/r/in/a.tmp", "x"),
    ]);
    let mut walker = Walker {
        colors: ColorScheme::new(&Config::default(), false),
        args: args("/r/in", &[]),
        overrides: Overrides::new(&args("/r/in", &[])).unwrap(),
        rules: Rules::default(),
        repository: files.repository(&path("/r")),
        root_device: None,
    };
    let initial = walker.initial_files(&path("/r/in"), Some(&path("/home/.gitignore")));
    let names: Vec<String> = initial
        .iter()
        .map(|file| String::from_utf8(file.file.to_bytes()).unwrap())
        .collect();
    assert_eq!(
        names,
        [
            "/.ignore",
            "/r/.ignore",
            "/r/.gitignore",
            "/r/.git/info/exclude",
            "/home/.gitignore"
        ]
    );
    files.load(&mut walker, initial);
    assert!(!walker.admits(&path("/r/in/a.log"), false, true));
    assert!(!walker.admits(&path("/r/in/a.tmp"), false, true));
    assert!(walker.admits(&path("/r/in/a.txt"), false, true));
}

#[test]
fn other_devices_are_entered_on_demand() {
    let mut walker = Walker {
        colors: ColorScheme::new(&Config::default(), false),
        args: args("/r", &[]),
        overrides: Overrides::new(&args("/r", &[])).unwrap(),
        rules: Rules::default(),
        repository: None,
        root_device: Some(7),
    };
    assert!(walker.enters(Some(7)));
    assert!(!walker.enters(Some(8)));
    assert!(walker.enters(None));
    walker.args.cross_fs = true;
    assert!(walker.enters(Some(8)));
    walker.args.cross_fs = false;
    walker.root_device = None;
    assert!(walker.enters(Some(8)));
}

#[test]
fn a_repository_is_a_directory_or_a_link_to_one() {
    let at = path("/work/tree");
    let found = repository_at(&at, true, None).unwrap();
    assert_eq!(found.git_dir, path("/work/tree/.git"));
    let found = repository_at(&at, false, Some("gitdir: ../main/.git/worktrees/tree\n")).unwrap();
    assert_eq!(found.git_dir, path("/work/tree/../main/.git/worktrees/tree"));
    let found = repository_at(&at, false, Some(" gitdir:/main/.git ")).unwrap();
    assert_eq!(found.git_dir, path("/main/.git"));
    assert_eq!(found.root, at);
    assert!(repository_at(&at, false, Some("nothing")).is_none());
    assert!(repository_at(&at, false, None).is_none());
}

#[test]
fn a_nested_repository_has_its_own_git_rules() {
    let files = Files(vec![
        ("/r/.git/HEAD", "x"),
        ("/r/.gitignore", "*.log\n"),
        ("/r/sub/.git/HEAD", "x"),
        ("/r/sub/a.log", "x"),
        ("/r/a.log", "x"),
    ]);
    assert_eq!(files.walk("/r", &args("/r", &[])), set(&["sub/a.log"]));
}

#[test]
fn the_global_ignore_file_is_configured_or_in_its_place() {
    let home = path("/home/me");
    let text = "[user]\n excludesfile = /wrong\n[core]\n# excludesfile = /no\n ExcludesFile = \"~/mine\"\n";
    assert_eq!(
        configured_excludes_file(text, Some(&home)),
        Some(path("/home/me/mine"))
    );
    assert_eq!(configured_excludes_file("[CORE]\nexcludesfile=/x/y\n", None), Some(path("/x/y")));
    assert_eq!(configured_excludes_file("[core]\nexcludesfile=~/y\n", None), None);
    assert_eq!(configured_excludes_file("[core]\neditor = vi\n", Some(&home)), None);

    let config = config_dir(Some(&home), None).unwrap();
    assert_eq!(config, path("/home/me/.config"));
    assert_eq!(config_dir(Some(&home), Some(b"")), Some(path("/home/me/.config")));
    assert_eq!(config_dir(Some(&home), Some(b"/etc/xdg")), Some(path("/etc/xdg")));
    assert_eq!(config_dir(None, None), None);

    let (first, second) = git_config_files(Some(&home), Some(&config));
    assert_eq!(first, Some(path("/home/me/.gitconfig")));
    assert_eq!(second, Some(path("/home/me/.config/git/config")));

    assert_eq!(
        global_ignore_path(Some(&home), Some(&config), None, None),
        Some(path("/home/me/.config/git/ignore"))
    );
    assert_eq!(
        global_ignore_path(Some(&home), Some(&config), None, Some("[core]\nexcludesfile = /two\n")),
        Some(path("/two"))
    );
    assert_eq!(
        global_ignore_path(
            Some(&home),
            Some(&config),
            Some("[core]\nexcludesfile = /one\n"),
            Some("[core]\nexcludesfile = /two\n")
        ),
        Some(path("/one"))
    );
    assert_eq!(global_ignore_path(None, None, None, None), None);
}
