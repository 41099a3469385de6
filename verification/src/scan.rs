//! What is known while a directory is scanned.
use vstd::prelude::*;
use crate::app::Key;
use crate::colors::ColorScheme;
use crate::entry::{leaf_node, node, Entry};
use crate::frame::lines_view;
use crate::path::{PathBuf, PathView};
use crate::show::{decimal, decimal_text, human_size, joined, path_text, show_path, size_text};

verus! {

/// How far a scan is.
#[derive(Debug)]
pub struct ScanState {
    pub done: bool,
    /// The last path that was looked at.
    pub path: PathBuf,
    /// How many paths were looked at.
    pub count: usize,
    /// How large the files are together.
    pub total: usize,
}

/// How far a scan is.
#[verifier::ext_equal]
pub struct ScanView {
    pub done: bool,
    pub path: PathView,
    pub count: nat,
    pub total: nat,
}

impl View for ScanState {
    type V = ScanView;

    open spec fn view(&self) -> ScanView {
        ScanView {
            done: self.done,
            path: self.path@,
            count: self.count as nat,
            total: self.total as nat,
        }
    }
}

impl Default for ScanState {
    fn default() -> (r: Self)
        ensures
            r@ == (ScanView {
                done: false,
                path: PathView { absolute: false, comps: Seq::empty() },
                count: 0,
                total: 0,
            }),
    {
        ScanState { done: false, path: PathBuf::default(), count: 0, total: 0 }
    }
}

impl Clone for ScanState {
    fn clone(&self) -> (r: Self)
        ensures
            r@ == self@,
    {
        ScanState { done: self.done, path: self.path.clone(), count: self.count, total: self.total }
    }
}

impl ScanView {
    /// After a path was looked at.
    pub open spec fn visited(self, path: PathView) -> Self {
        ScanView { path, count: self.count + 1, ..self }
    }

    /// After a file of a size was found, or something else.
    pub open spec fn having_found(self, is_file: bool, size: nat) -> Self {
        if is_file {
            ScanView { total: self.total + size, ..self }
        } else {
            self
        }
    }
}

impl ScanState {
    /// A path is looked at.
    pub fn visit(&mut self, path: PathBuf)
        requires
            old(self)@.count < usize::MAX,
        ensures
            final(self)@ == (ScanView {
                path: path@,
                count: old(self)@.count + 1,
                ..old(self)@
            }),
            final(self)@ == old(self)@.visited(path@),
    {
        self.count = self.count + 1;
        self.path = path;
    }

    /// What was looked at is a file of a size, or not a file. A file that is not
    /// empty becomes a leaf.
    pub fn found(&mut self, path: PathBuf, is_file: bool, size: usize, colors: &ColorScheme) -> (r: Option<
        Entry,
    >)
        requires
            is_file ==> old(self)@.total + size <= usize::MAX,
        ensures
            if is_file && size > 0 {
                &&& r matches Some(entry) && node(entry) == leaf_node(path@, size as nat, *colors)
                &&& final(self)@ == (ScanView {
                    total: (old(self)@.total + size) as nat,
                    ..old(self)@
                })
            } else {
                &&& r is None
                &&& final(self)@ == old(self)@
            },
            final(self)@ == old(self)@.having_found(is_file, size as nat),
            r is Some <==> is_file && size > 0,
    {
        if is_file && size > 0 {
            self.total = self.total + size;
            Some(Entry::new_leaf(path, size, colors))
        } else {
            None
        }
    }
}

/// The window that is shown during a scan.
#[derive(Debug)]
pub struct ScanUI {
    done: bool,
    quit: bool,
    state: ScanState,
}

impl ScanUI {
    /// Whether the scan has come to its end.
    pub closed spec fn is_done(self) -> bool {
        self.done
    }

    /// Whether the user wants to leave.
    pub closed spec fn is_quit(self) -> bool {
        self.quit
    }

    /// How far the scan was when the window was last brought up to date.
    pub closed spec fn shown(self) -> ScanView {
        self.state@
    }

    /// A window for a scan.
    pub fn new(state: ScanState) -> (r: Self)
        ensures
            !r.is_done(),
            !r.is_quit(),
            r.shown() == state@,
    {
        ScanUI { done: false, quit: false, state }
    }

    /// Whether another frame has to be drawn.
    pub fn running(&self) -> (r: bool)
        ensures
            r == (!self.is_quit() && !self.is_done()),
    {
        !self.quit && !self.done
    }

    /// Whether the user wants to leave.
    pub fn wants_to_quit(&self) -> (r: bool)
        ensures
            r == self.is_quit(),
    {
        self.quit
    }

    /// Brings the window up to date.
    pub fn refresh(&mut self, state: ScanState)
        ensures
            final(self).is_done() == state@.done,
            final(self).is_quit() == old(self).is_quit(),
            final(self).shown() == state@,
    {
        self.done = state.done;
        self.state = state;
    }

    /// A key was pressed. Only one of them does something: it leaves.
    pub fn press(&mut self, key: Key)
        ensures
            final(self).is_quit() == (old(self).is_quit() || key == Key::Char('q')),
            final(self).is_done() == old(self).is_done(),
            final(self).shown() == old(self).shown(),
    {
        if key == Key::Char('q') {
            self.quit = true;
        }
    }

    /// The lines of the window.
    pub fn lines(&self) -> (r: Vec<String>)
        ensures
            lines_view(r@) == seq![
                "Scanning "@ + path_text(self.shown().path),
                "Count: "@ + decimal(self.shown().count),
                "Total: "@ + size_text(self.shown().total),
            ],
    {
        let path = show_path(&self.state.path);
        let count = decimal_text(self.state.count);
        let total = human_size(self.state.total);
        let mut r: Vec<String> = Vec::new();
        r.push(joined("Scanning ", path.as_str()));
        r.push(joined("Count: ", count.as_str()));
        r.push(joined("Total: ", total.as_str()));
        assert(lines_view(r@) =~= seq![
            "Scanning "@ + path_text(self.shown().path),
            "Count: "@ + decimal(self.shown().count),
            "Total: "@ + size_text(self.shown().total),
        ]);
        r
    }
}

/// Each path that is looked at counts once and is the one that is shown. Files add
/// their sizes up, and nothing else does.
pub proof fn scans_add_up(s: ScanView, a: PathView, b: PathView, m: nat, n: nat)
    ensures
        s.visited(a).visited(b).count == s.count + 2,
        s.visited(a).visited(b).path == b,
        s.visited(a).total == s.total,
        s.visited(a).done == s.done,
        s.having_found(true, m).having_found(true, n).total == s.total + m + n,
        s.having_found(true, m).having_found(true, n) == s.having_found(true, n).having_found(true, m),
        s.having_found(false, m) == s,
        s.having_found(true, m).count == s.count,
        s.having_found(true, m).path == s.path,
        s.having_found(true, m).done == s.done,
{
}

} // verus!
