//! The texts of a frame: title, keys, and what is said of the selection.
use vstd::prelude::*;
use crate::app::{type_of, App, AppView};
use crate::colors::Color;
use crate::entry::{node, Entry, InfoView, Node};
use crate::ids::in_order;
use crate::path::{here, prefixes_come_off, PathBuf, PathView};
use crate::show::{
    decimal, decimal_text, human_size, joined, path_text, separated, show_path, size_text, with_commas,
};
use crate::state::{AppMode, AppState, StateView};

use crate::text::{lossy_text, utf8_lossy};

verus! {

/// How a text is shown.
#[derive(Clone, Copy, Debug, PartialEq, Eq, Structural)]
pub enum Tone {
    Plain,
    Bold,
    /// Blue and bold.
    Blue,
    /// Green and bold.
    Green,
    /// Cyan and bold.
    Cyan,
}

/// A stretch of text.
#[derive(Debug)]
pub struct Span {
    pub text: String,
    pub tone: Tone,
}

/// What stretches of text are.
pub open spec fn spans(s: Seq<Span>) -> Seq<(Seq<char>, Tone)> {
    s.map_values(|it: Span| (it.text@, it.tone))
}

fn add_span(to: &mut Vec<Span>, text: String, tone: Tone)
    ensures
        spans(final(to)@) == spans(old(to)@).push((text@, tone)),
{
    let ghost before = spans(to@);
    let ghost chars = text@;
    to.push(Span { text, tone });
    assert(spans(to@) =~= before.push((chars, tone)));
}

fn add_text(to: &mut Vec<Span>, text: &str, tone: Tone)
    ensures
        spans(final(to)@) == spans(old(to)@).push((text@, tone)),
{
    add_span(to, text.to_owned(), tone);
}

/// The part of the title that says where the view is. Below the root, the root
/// stands out.
pub open spec fn place_spans(root: PathView, path: PathView) -> Seq<(Seq<char>, Tone)> {
    match path.strip_prefix(root) {
        Some(rel) => {
            let start = seq![(path_text(root), Tone::Bold)];
            if rel.depth() == 0 {
                start
            } else if path_text(root).len() > 0 && path_text(root).last() == '/' {
                start.push((path_text(rel), Tone::Plain))
            } else {
                start.push(("/"@, Tone::Plain)).push((path_text(rel), Tone::Plain))
            }
        },
        None => seq![(path_text(path), Tone::Plain)],
    }
}

/// The part of the title that says which file type the view is of.
pub open spec fn tag_spans(tag: Option<Seq<u8>>) -> Seq<(Seq<char>, Tone)> {
    match tag {
        Some(tag) => seq![
            ("/**."@, Tone::Plain),
            (
                if tag.len() == 0 {
                    "(none)"@
                } else {
                    utf8_lossy(tag)
                },
                Tone::Green,
            ),
        ],
        None => Seq::empty(),
    }
}

/// The part of the title that says how large the view is.
pub open spec fn count_spans(info: InfoView, diagnostic: bool) -> Seq<(Seq<char>, Tone)> {
    let counts = seq![
        (" | "@, Tone::Plain),
        (size_text(info.size), Tone::Bold),
        (" ("@ + with_commas(info.nfiles) + " files)"@, Tone::Plain),
    ];
    if diagnostic {
        counts.push((" ["@ + with_commas(info.leaves) + " leaves]"@, Tone::Plain))
    } else {
        counts
    }
}

/// The title of the frame.
pub open spec fn title_of(s: StateView) -> Seq<(Seq<char>, Tone)> {
    match s.view_info {
        Some(info) => place_spans(s.root, info.path) + tag_spans(info.tag) + count_spans(
            info,
            s.diagnostic,
        ),
        None => seq![("leaves"@, Tone::Cyan)],
    }
}

fn ends_with_slash(text: &str) -> (r: bool)
    ensures
        r == (text@.len() > 0 && text@.last() == '/'),
{
    let chars = crate::text::chars_of(text);
    chars.len() > 0 && chars[chars.len() - 1] == '/'
}

fn add_place(to: &mut Vec<Span>, root: &PathBuf, path: &PathBuf)
    ensures
        spans(final(to)@) == spans(old(to)@) + place_spans(root@, path@),
{
    let ghost before = spans(to@);
    match path.strip_prefix(root) {
        Some(rel) => {
            let start = show_path(root);
            let slash = ends_with_slash(start.as_str());
            add_span(to, start, Tone::Bold);
            if !rel.is_empty() {
                if !slash {
                    add_text(to, "/", Tone::Plain);
                }
                add_span(to, show_path(&rel), Tone::Plain);
            }
        },
        None => {
            add_span(to, show_path(path), Tone::Plain);
        },
    }
    assert(spans(to@) =~= before + place_spans(root@, path@));
}

fn add_tag(to: &mut Vec<Span>, tag: &Option<Vec<u8>>)
    ensures
        spans(final(to)@) == spans(old(to)@) + tag_spans(crate::colors::bytes_view(*tag)),
{
    let ghost before = spans(to@);
    if let Some(tag) = tag {
        add_text(to, "/**.", Tone::Plain);
        if tag.len() == 0 {
            add_text(to, "(none)", Tone::Green);
        } else {
            add_span(to, lossy_text(tag.as_slice()), Tone::Green);
        }
    }
    assert(spans(to@) =~= before + tag_spans(crate::colors::bytes_view(*tag)));
}

/// A count between two texts.
fn around(before: &str, n: usize, after: &str) -> (r: String)
    ensures
        r@ == before@ + with_commas(n as nat) + after@,
{
    let count = separated(n);
    let r = joined(before, count.as_str());
    joined(r.as_str(), after)
}

/// The title of the frame.
pub fn title_spans(state: &AppState) -> (r: Vec<Span>)
    ensures
        spans(r@) == title_of(state@),
{
    let mut r: Vec<Span> = Vec::new();
    assert(spans(r@) =~= Seq::empty());
    match &state.view_info {
        Some(info) => {
            add_place(&mut r, &state.root, &info.path);
            add_tag(&mut r, &info.tag);
            add_text(&mut r, " | ", Tone::Plain);
            add_span(&mut r, human_size(info.size), Tone::Bold);
            add_span(&mut r, around(" (", info.nfiles, " files)"), Tone::Plain);
            if state.diagnostic {
                add_span(&mut r, around(" [", info.leaves, " leaves]"), Tone::Plain);
            }
        },
        None => {
            add_text(&mut r, "leaves", Tone::Cyan);
        },
    }
    assert(spans(r@) =~= title_of(state@));
    r
}

/// Whether the window of an x-rayed forest is drawn with dashes, and in which
/// colour: that of the file type that is looked at.
pub fn window_look(app: &App, state: &AppState) -> (r: (bool, Option<Color>))
    ensures
        r.0 == app@.args.xray,
        match r.1 {
            Some(color) => app@.args.xray && state@.skip_view.len() > 0 && (state@.tag matches Some(tag)
                && color@ == app@.colors.spec_ext_color(tag)),
            None => !(app@.args.xray && state@.skip_view.len() > 0 && state@.tag is Some),
        },
{
    if app.args.xray && state.skip_view.len() > 0 {
        if let Some(tag) = &state.tag {
            return (true, Some(app.colors.ext_color(tag.as_slice())));
        }
    }
    (app.args.xray, None)
}

/// What the keys at the bottom say of the mode.
pub open spec fn mode_spans(mode: AppMode) -> Seq<(Seq<char>, Tone)> {
    match mode {
        AppMode::Normal => seq![
            (" Mode: normal "@, Tone::Plain),
            (" | Keys: "@, Tone::Bold),
            (" x"@, Tone::Blue),
            ("-ray "@, Tone::Plain),
        ],
        AppMode::Xray => seq![
            (" Mode: x-ray "@, Tone::Plain),
            (" | Keys: "@, Tone::Bold),
            (" ("@, Tone::Plain),
            ("x"@, Tone::Blue),
            (")Normal "@, Tone::Plain),
        ],
    }
}

/// What the keys at the bottom say of the views.
pub open spec fn view_spans(focus: Option<Node>, s: StateView) -> Seq<(Seq<char>, Tone)> {
    let interior = focus is Some && (focus->0).subtree.len() > 0;
    let group = focus is Some && (focus->0).is_group;
    let enter = if interior && s.tree_state.selected.len() > 0 {
        seq![(" <Enter>"@, Tone::Blue), ("Focus "@, Tone::Plain)]
    } else {
        Seq::empty()
    };
    let back = if s.skip_view.len() > 0 {
        seq![(" <Back>"@, Tone::Blue), ("Defocus "@, Tone::Plain)]
    } else {
        Seq::empty()
    };
    let change = if interior && !group {
        seq![
            (" e"@, Tone::Blue),
            ("xpand "@, Tone::Plain),
            (" d"@, Tone::Blue),
            ("eflate "@, Tone::Plain),
        ]
    } else {
        Seq::empty()
    };
    enter + back + change
}

/// What the keys at the bottom say of the depth and of the end.
pub open spec fn depth_spans(depth: nat) -> Seq<(Seq<char>, Tone)> {
    seq![
        (" +"@, Tone::Blue),
        ("/"@, Tone::Plain),
        ("-"@, Tone::Blue),
        ("depth["@ + decimal(depth) + "]"@, Tone::Plain),
        (" q"@, Tone::Blue),
        ("uit "@, Tone::Plain),
    ]
}

/// The keys at the bottom of the frame.
pub open spec fn status_of(a: AppView, s: StateView) -> Seq<(Seq<char>, Tone)> {
    mode_spans(s.mode) + view_spans(a.entries.at(), s) + depth_spans(a.args.max_depth)
}

fn add_mode(to: &mut Vec<Span>, mode: AppMode)
    ensures
        spans(final(to)@) == spans(old(to)@) + mode_spans(mode),
{
    let ghost before = spans(to@);
    match mode {
        AppMode::Normal => {
            add_text(to, " Mode: normal ", Tone::Plain);
            add_text(to, " | Keys: ", Tone::Bold);
            add_text(to, " x", Tone::Blue);
            add_text(to, "-ray ", Tone::Plain);
        },
        AppMode::Xray => {
            add_text(to, " Mode: x-ray ", Tone::Plain);
            add_text(to, " | Keys: ", Tone::Bold);
            add_text(to, " (", Tone::Plain);
            add_text(to, "x", Tone::Blue);
            add_text(to, ")Normal ", Tone::Plain);
        },
    }
    assert(spans(to@) =~= before + mode_spans(mode));
}

fn add_views(to: &mut Vec<Span>, focus: Option<&Entry>, state: &AppState)
    ensures
        spans(final(to)@) == spans(old(to)@) + view_spans(
            match focus {
                Some(e) => Some(node(*e)),
                None => None,
            },
            state@,
        ),
{
    let ghost before = spans(to@);
    let (interior, group) = match focus {
        Some(entry) => (entry.subtree.len() > 0, entry.is_group),
        None => (false, false),
    };
    if interior && state.tree_state.selected.len() > 0 {
        add_text(to, " <Enter>", Tone::Blue);
        add_text(to, "Focus ", Tone::Plain);
    }
    if state.skip_view.len() > 0 {
        add_text(to, " <Back>", Tone::Blue);
        add_text(to, "Defocus ", Tone::Plain);
    }
    if interior && !group {
        add_text(to, " e", Tone::Blue);
        add_text(to, "xpand ", Tone::Plain);
        add_text(to, " d", Tone::Blue);
        add_text(to, "eflate ", Tone::Plain);
    }
    assert(spans(to@) =~= before + view_spans(
        match focus {
            Some(e) => Some(node(*e)),
            None => None,
        },
        state@,
    ));
}

/// The keys at the bottom of the frame.
pub fn status_spans(app: &App, state: &AppState) -> (r: Vec<Span>)
    requires
        in_order(app@.entries.tree),
    ensures
        spans(r@) == status_of(app@, state@),
{
    let mut r: Vec<Span> = Vec::new();
    assert(spans(r@) =~= Seq::empty());
    add_mode(&mut r, state.mode);
    add_views(&mut r, app.entries.entry(), state);
    let depth = decimal_text(app.args.max_depth);
    let depth = joined("depth[", depth.as_str());
    let depth = joined(depth.as_str(), "]");
    add_text(&mut r, " +", Tone::Blue);
    add_text(&mut r, "/", Tone::Plain);
    add_text(&mut r, "-", Tone::Blue);
    add_span(&mut r, depth, Tone::Plain);
    add_text(&mut r, " q", Tone::Blue);
    add_text(&mut r, "uit ", Tone::Plain);
    assert(spans(r@) =~= status_of(app@, state@));
    r
}

/// The texts in a list.
pub open spec fn lines_view(s: Seq<String>) -> Seq<Seq<char>> {
    s.map_values(|t: String| t@)
}

/// What is said of the file type of an entry.
pub open spec fn type_text(n: Node) -> Seq<char> {
    match n.tag {
        Some(tag) => utf8_lossy(tag),
        None => match n.path.extension() {
            Some(ext) => utf8_lossy(ext),
            None => "(none)"@,
        },
    }
}

/// What is said of the entry that the user looks at: its file type, and how many
/// files or bytes it has.
pub open spec fn info_of_focus(focus: Option<Node>, diagnostic: bool) -> Seq<Seq<char>> {
    match focus {
        Some(n) => {
            let kind = seq!["tag: "@ + type_text(n)];
            let leaves = if diagnostic {
                seq!["leaves: "@ + with_commas(n.leaves)]
            } else {
                Seq::empty()
            };
            let size = if n.nfiles > 1 {
                seq!["files: "@ + with_commas(n.nfiles)]
            } else if n.subtree.len() == 0 {
                seq!["bytes: "@ + with_commas(n.size)]
            } else {
                Seq::empty()
            };
            kind + leaves + size
        },
        None => Seq::empty(),
    }
}

fn add_line(to: &mut Vec<String>, line: String)
    ensures
        lines_view(final(to)@) == lines_view(old(to)@).push(line@),
{
    let ghost before = lines_view(to@);
    let ghost chars = line@;
    to.push(line);
    assert(lines_view(to@) =~= before.push(chars));
}

/// What is said of the entry that the user looks at.
pub fn info_lines(app: &App, state: &AppState) -> (r: Vec<String>)
    requires
        in_order(app@.entries.tree),
    ensures
        lines_view(r@) == info_of_focus(app@.entries.at(), state@.diagnostic),
{
    let mut r: Vec<String> = Vec::new();
    assert(lines_view(r@) =~= Seq::empty());
    if let Some(entry) = app.entries.entry() {
        let kind = match &entry.tag {
            Some(tag) => lossy_text(tag.as_slice()),
            None => match entry.path.extension() {
                Some(ext) => lossy_text(ext.as_slice()),
                None => "(none)".to_owned(),
            },
        };
        add_line(&mut r, joined("tag: ", kind.as_str()));
        if state.diagnostic {
            let count = separated(entry.leaves);
            add_line(&mut r, joined("leaves: ", count.as_str()));
        }
        if entry.nfiles > 1 {
            let count = separated(entry.nfiles);
            add_line(&mut r, joined("files: ", count.as_str()));
        } else if entry.subtree.len() == 0 {
            let count = separated(entry.size);
            add_line(&mut r, joined("bytes: ", count.as_str()));
        }
    }
    assert(lines_view(r@) =~= info_of_focus(app@.entries.at(), state@.diagnostic));
    r
}

/// Numbers with commas and blanks between them.
pub open spec fn listed(ids: Seq<usize>) -> Seq<char>
    decreases ids.len(),
{
    if ids.len() == 0 {
        Seq::empty()
    } else if ids.len() == 1 {
        decimal(ids[0] as nat)
    } else {
        listed(ids.drop_last()) + ", "@ + decimal(ids.last() as nat)
    }
}

/// An address as it is shown.
pub open spec fn address_text(ids: Seq<usize>) -> Seq<char> {
    "["@ + listed(ids) + "]"@
}

/// An address as it is shown.
pub fn show_address(ids: &[usize]) -> (r: String)
    ensures
        r@ == address_text(ids@),
{
    let mut list = String::new();
    let mut i: usize = 0;
    proof {
        assert(ids@.take(0) =~= Seq::empty());
        assert(list@ =~= Seq::empty());
    }
    while i < ids.len()
        invariant
            i <= ids@.len(),
            list@ == listed(ids@.take(i as int)),
        decreases ids.len() - i,
    {
        let number = decimal_text(ids[i]);
        proof {
            assert(ids@.take(i + 1).drop_last() =~= ids@.take(i as int));
            assert(ids@.take(i + 1).last() == ids@[i as int]);
        }
        if i > 0 {
            list = joined(list.as_str(), ", ");
            list = joined(list.as_str(), number.as_str());
        } else {
            assert(ids@.take(1)[0] == ids@[0]);
            list = number;
        }
        i += 1;
    }
    assert(ids@.take(i as int) =~= ids@);
    let r = joined("[", list.as_str());
    joined(r.as_str(), "]")
}

/// What is said of the view, the selection and the tag to look into the
/// application itself. The tag comes as it is spelled, since only the system
/// knows how to spell bytes that are no text.
pub fn diag_lines(state: &AppState, tag: &str) -> (r: Vec<String>)
    ensures
        lines_view(r@) == seq![
            "--- Diagnostics ---"@,
            "VW "@ + address_text(state@.skip_view),
            "SL "@ + address_text(state@.tree_state.selected),
            "TG "@ + tag@,
        ],
{
    let mut r: Vec<String> = Vec::new();
    assert(lines_view(r@) =~= Seq::empty());
    add_line(&mut r, "--- Diagnostics ---".to_owned());
    let view = show_address(state.skip_view.as_slice());
    add_line(&mut r, joined("VW ", view.as_str()));
    let selected = show_address(state.tree_state.selected.as_slice());
    add_line(&mut r, joined("SL ", selected.as_str()));
    add_line(&mut r, joined("TG ", tag));
    assert(lines_view(r@) =~= seq![
        "--- Diagnostics ---"@,
        "VW "@ + address_text(state@.skip_view),
        "SL "@ + address_text(state@.tree_state.selected),
        "TG "@ + tag@,
    ]);
    r
}

/// The path of the entry that the user looks at.
pub fn focus_path(app: &App) -> (r: Option<String>)
    requires
        in_order(app@.entries.tree),
    ensures
        match app@.entries.at() {
            Some(n) => r is Some && (r->0)@ == path_text(n.path),
            None => r is None,
        },
{
    match app.entries.entry() {
        Some(entry) => Some(show_path(&entry.path)),
        None => None,
    }
}

/// How wide the sidebar is: a share of a narrow window, a number of columns of a
/// wide one.
#[derive(Clone, Copy, Debug, PartialEq, Eq, Structural)]
pub enum Width {
    Percentage(u16),
    Max(u16),
}

/// How wide the sidebar is.
pub fn sidebar_width(width: u16) -> (r: Width)
    ensures
        r == if width < 200 {
            Width::Percentage(25)
        } else {
            Width::Max(50)
        },
{
    if width < 200 {
        Width::Percentage(25)
    } else {
        Width::Max(50)
    }
}

/// The share of the sidebar, in percent, that what is said of the selection
/// takes.
pub fn inspector_share(diagnostic: bool) -> (r: u16)
    ensures
        r == if diagnostic {
            50u16
        } else {
            25u16
        },
{
    if diagnostic {
        50
    } else {
        25
    }
}

/// How many lines a text takes in a column.
pub open spec fn lines_in(text_width: int, width: int) -> int {
    (text_width + width - 1) / width
}

/// How many lines a text takes in a column, as far as a terminal counts them, and
/// one more.
pub fn wrapped_height(text_width: usize, width: u16) -> (r: u16)
    requires
        width > 0,
        lines_in(text_width as int, width as int) % 65536 < u16::MAX,
    ensures
        r as int == lines_in(text_width as int, width as int) % 65536 + 1,
{
    let whole: usize = text_width / width as usize;
    let rest: usize = text_width % width as usize;
    proof {
        let t: int = text_width as int;
        let w: int = width as int;
        assert(t == whole * w + rest && 0 <= rest < w && 0 <= whole <= t) by (nonlinear_arith)
            requires
                w > 0,
                t >= 0,
                whole == t / w,
                rest == t % w,
        ;
        assert((t + w - 1) / w == whole + if rest > 0 {
            1int
        } else {
            0int
        }) by (nonlinear_arith)
            requires
                w > 0,
                t == whole * w + rest,
                0 <= rest < w,
        ;
        if rest > 0 {
            assert(whole < t) by (nonlinear_arith)
                requires
                    w > 0,
                    t == whole * w + rest,
                    rest > 0,
                    whole >= 0,
            ;
        }
    }
    let lines: usize = if rest > 0 {
        whole + 1
    } else {
        whole
    };
    (lines % 65536) as u16 + 1
}

proof fn lemma_in_both(a: Seq<(Seq<char>, Tone)>, b: Seq<(Seq<char>, Tone)>, x: (Seq<char>, Tone))
    ensures
        (a + b).contains(x) <==> a.contains(x) || b.contains(x),
{
    if a.contains(x) {
        let i = choose|i: int| 0 <= i < a.len() && a[i] == x;
        assert((a + b)[i] == x);
    }
    if b.contains(x) {
        let i = choose|i: int| 0 <= i < b.len() && b[i] == x;
        assert((a + b)[a.len() + i] == x);
    }
    if (a + b).contains(x) {
        let i = choose|i: int| 0 <= i < (a + b).len() && (a + b)[i] == x;
        if i < a.len() {
            assert(a[i] == x);
        } else {
            assert(b[i - a.len()] == x);
        }
    }
}

/// The title of a view says its size and its number of files, and with details its
/// number of leaves too. It begins with the root, in bold, if the view lies below
/// it. A file type, if there is one, stands out in green.
pub proof fn titles_describe_the_view(s: StateView, info: InfoView)
    requires
        s.view_info == Some(info),
    ensures
        ({
            let t = title_of(s);
            &&& t.contains((size_text(info.size), Tone::Bold))
            &&& t.contains((" ("@ + with_commas(info.nfiles) + " files)"@, Tone::Plain))
            &&& s.diagnostic ==> t.contains((" ["@ + with_commas(info.leaves) + " leaves]"@, Tone::Plain))
            &&& title_of(StateView { diagnostic: true, ..s }).len() == title_of(
                StateView { diagnostic: false, ..s },
            ).len() + 1
            &&& info.path.starts_with(s.root) ==> t[0] == (path_text(s.root), Tone::Bold)
            &&& !info.path.starts_with(s.root) ==> t[0] == (path_text(info.path), Tone::Plain)
            &&& info.tag matches Some(tag) ==> (tag.len() > 0 ==> t.contains((utf8_lossy(tag), Tone::Green)))
            &&& info.tag matches Some(tag) ==> (tag.len() == 0 ==> t.contains(("(none)"@, Tone::Green)))
        }),
        info.tag is None ==> forall|i: int| 0 <= i < title_of(s).len() ==> (#[trigger] title_of(s)[i]).1 != Tone::Green,
{
    let place = place_spans(s.root, info.path);
    let tag = tag_spans(info.tag);
    let counts = count_spans(info, s.diagnostic);
    let t = title_of(s);
    assert(t == place + tag + counts);
    assert(counts[1] == (size_text(info.size), Tone::Bold));
    assert(counts[2] == (" ("@ + with_commas(info.nfiles) + " files)"@, Tone::Plain));
    lemma_in_both(place + tag, counts, counts[1]);
    lemma_in_both(place + tag, counts, counts[2]);
    if s.diagnostic {
        assert(counts[3] == (" ["@ + with_commas(info.leaves) + " leaves]"@, Tone::Plain));
        lemma_in_both(place + tag, counts, counts[3]);
    }
    assert(t[0] == place[0]);
    if info.tag is Some {
        let x = tag[1];
        lemma_in_both(place, tag, x);
        lemma_in_both(place + tag, counts, x);
    }
}

/// Below the root a title shows what leads there, with one slash before it.
pub proof fn titles_show_the_way(root: PathView, rest: PathView)
    requires
        root.depth() > 0,
        !rest.absolute,
        rest.comps.len() > 0,
        rest.comps[0] != here(),
    ensures
        ({
            let t = place_spans(root, root.join(rest));
            let slash = path_text(root).len() > 0 && path_text(root).last() == '/';
            &&& t[0] == (path_text(root), Tone::Bold)
            &&& t.last() == (path_text(rest), Tone::Plain)
            &&& slash ==> t.len() == 2
            &&& !slash ==> t.len() == 3 && t[1] == ("/"@, Tone::Plain)
        }),
        place_spans(root, root).len() == 1,
{
    prefixes_come_off(root, rest);
    assert(root.strip_prefix(root) is Some) by {
        assert(root.comps.is_prefix_of(root.comps));
    }
    assert((root.strip_prefix(root)->0).depth() == 0);
}

proof fn lemma_key_names()
    ensures
        " <Enter>"@.len() == 8,
        " <Back>"@.len() == 7,
        " e"@.len() == 2 && " e"@[1] == 'e',
        " d"@.len() == 2 && " d"@[1] == 'd',
        " x"@.len() == 2 && " x"@[1] == 'x',
        "x"@.len() == 1,
        " +"@.len() == 2 && " +"@[1] == '+',
        "-"@.len() == 1 && "-"@[0] == '-',
        " q"@.len() == 2 && " q"@[1] == 'q',
{
    reveal_strlit(" <Enter>");
    reveal_strlit(" <Back>");
    reveal_strlit(" e");
    reveal_strlit(" d");
    reveal_strlit(" x");
    reveal_strlit("x");
    reveal_strlit(" +");
    reveal_strlit("-");
    reveal_strlit(" q");
}

/// The keys at the bottom are those that do something: to enter what is selected,
/// to go back from a view, and to expand and deflate a directory. The depth is
/// shown, and how to leave.
pub proof fn keys_are_shown_where_they_work(a: AppView, s: StateView)
    ensures
        ({
            let t = status_of(a, s);
            let focus = a.entries.at();
            let full = focus is Some && (focus->0).subtree.len() > 0;
            &&& t.contains((" <Enter>"@, Tone::Blue)) <==> full && s.tree_state.selected.len() > 0
            &&& t.contains((" <Back>"@, Tone::Blue)) <==> s.skip_view.len() > 0
            &&& t.contains((" e"@, Tone::Blue)) <==> full && !(focus->0).is_group
            &&& t.contains((" d"@, Tone::Blue)) <==> full && !(focus->0).is_group
            &&& t.contains((" q"@, Tone::Blue))
            &&& t.contains((" +"@, Tone::Blue))
            &&& t.contains(("-"@, Tone::Blue))
            &&& t.contains(("depth["@ + decimal(a.args.max_depth) + "]"@, Tone::Plain))
            &&& t[0].0 == if s.mode == AppMode::Xray {
                " Mode: x-ray "@
            } else {
                " Mode: normal "@
            }
        }),
{
    let t = status_of(a, s);
    let mode = mode_spans(s.mode);
    let views = view_spans(a.entries.at(), s);
    let depth = depth_spans(a.args.max_depth);
    lemma_key_names();
    assert(t == mode + views + depth);
    assert(depth[0] == (" +"@, Tone::Blue) && depth[2] == ("-"@, Tone::Blue) && depth[4] == (" q"@, Tone::Blue));
    assert(depth[3] == ("depth["@ + decimal(a.args.max_depth) + "]"@, Tone::Plain));
    lemma_in_both(mode + views, depth, depth[0]);
    lemma_in_both(mode + views, depth, depth[2]);
    lemma_in_both(mode + views, depth, depth[3]);
    lemma_in_both(mode + views, depth, depth[4]);
    lemma_key_shown(a, s, " <Enter>"@);
    lemma_key_shown(a, s, " <Back>"@);
    lemma_key_shown(a, s, " e"@);
    lemma_key_shown(a, s, " d"@);
    lemma_views_shown(a.entries.at(), s);
}

proof fn lemma_key_shown(a: AppView, s: StateView, name: Seq<char>)
    requires
        name.len() > 2 || (name.len() == 2 && name[1] != 'x' && name[1] != '+' && name[1] != 'q'),
    ensures
        status_of(a, s).contains((name, Tone::Blue)) <==> view_spans(a.entries.at(), s).contains(
            (name, Tone::Blue),
        ),
{
    let x = (name, Tone::Blue);
    let mode = mode_spans(s.mode);
    let views = view_spans(a.entries.at(), s);
    let depth = depth_spans(a.args.max_depth);
    lemma_key_names();
    lemma_in_both(mode, views, x);
    lemma_in_both(mode + views, depth, x);
    assert(!mode.contains(x)) by {
        if mode.contains(x) {
            let i = choose|i: int| 0 <= i < mode.len() && mode[i] == x;
            assert(mode[i].1 == Tone::Blue);
            assert(mode[i].0 == " x"@ || mode[i].0 == "x"@);
        }
    }
    assert(!depth.contains(x)) by {
        if depth.contains(x) {
            let i = choose|i: int| 0 <= i < depth.len() && depth[i] == x;
            assert(depth[i].1 == Tone::Blue);
            assert(depth[i].0 == " +"@ || depth[i].0 == "-"@ || depth[i].0 == " q"@);
        }
    }
}

proof fn lemma_views_shown(focus: Option<Node>, s: StateView)
    ensures
        ({
            let t = view_spans(focus, s);
            let full = focus is Some && (focus->0).subtree.len() > 0;
            &&& t.contains((" <Enter>"@, Tone::Blue)) <==> full && s.tree_state.selected.len() > 0
            &&& t.contains((" <Back>"@, Tone::Blue)) <==> s.skip_view.len() > 0
            &&& t.contains((" e"@, Tone::Blue)) <==> full && !(focus->0).is_group
            &&& t.contains((" d"@, Tone::Blue)) <==> full && !(focus->0).is_group
        }),
{
    lemma_key_names();
    let full = focus is Some && (focus->0).subtree.len() > 0;
    let enter = if full && s.tree_state.selected.len() > 0 {
        seq![(" <Enter>"@, Tone::Blue), ("Focus "@, Tone::Plain)]
    } else {
        Seq::empty()
    };
    let back = if s.skip_view.len() > 0 {
        seq![(" <Back>"@, Tone::Blue), ("Defocus "@, Tone::Plain)]
    } else {
        Seq::empty()
    };
    let change = if full && !(focus->0).is_group {
        seq![
            (" e"@, Tone::Blue),
            ("xpand "@, Tone::Plain),
            (" d"@, Tone::Blue),
            ("eflate "@, Tone::Plain),
        ]
    } else {
        Seq::empty()
    };
    let t = view_spans(focus, s);
    assert(t == enter + back + change);
    if enter.len() > 0 {
        assert(enter[0] == (" <Enter>"@, Tone::Blue));
    }
    if back.len() > 0 {
        assert(back[0] == (" <Back>"@, Tone::Blue));
    }
    if change.len() > 0 {
        assert(change[0] == (" e"@, Tone::Blue));
        assert(change[2] == (" d"@, Tone::Blue));
    }
    assert forall|x: (Seq<char>, Tone)| t.contains(x) <==> enter.contains(x) || back.contains(x) || change.contains(x) by {
        lemma_in_both(enter, back, x);
        lemma_in_both(enter + back, change, x);
    }
    assert forall|x: (Seq<char>, Tone)| x.1 == Tone::Blue && #[trigger] enter.contains(x) implies x.0.len() == 8 by {}
    assert forall|x: (Seq<char>, Tone)| x.1 == Tone::Blue && #[trigger] back.contains(x) implies x.0.len() == 7 by {}
    assert forall|x: (Seq<char>, Tone)| x.1 == Tone::Blue && #[trigger] change.contains(x) implies x.0.len() == 2 by {}
}

/// The lines on the selection name its file type first. They count the files of
/// what holds several and the bytes of a single file, and with details the leaves.
pub proof fn selections_are_described(n: Node, diagnostic: bool)
    ensures
        ({
            let t = info_of_focus(Some(n), diagnostic);
            let d: int = if diagnostic {
                1
            } else {
                0
            };
            &&& t.len() > 0
            &&& t[0] == "tag: "@ + type_text(n)
            &&& diagnostic ==> t[1] == "leaves: "@ + with_commas(n.leaves)
            &&& n.nfiles > 1 ==> t.len() == d + 2 && t.last() == "files: "@ + with_commas(n.nfiles)
            &&& n.nfiles <= 1 && n.subtree.len() == 0 ==> t.len() == d + 2 && t.last() == "bytes: "@ + with_commas(
                n.size,
            )
            &&& n.nfiles <= 1 && n.subtree.len() > 0 ==> t.len() == d + 1
            &&& n.tag matches Some(tag) ==> type_text(n) == utf8_lossy(tag)
        }),
        info_of_focus(None, diagnostic).len() == 0,
{
}

/// The type that is shown of an entry is the one that is remembered of it.
pub proof fn types_are_shown(n: Node, tag: Seq<u8>)
    requires
        type_of(n) == Some(tag),
        tag.len() > 0,
    ensures
        type_text(n) == utf8_lossy(tag),
{
}

/// A text takes just as many lines as it needs.
pub proof fn lines_are_just_enough(text_width: int, width: int)
    requires
        text_width > 0,
        width > 0,
    ensures
        lines_in(text_width, width) * width >= text_width,
        (lines_in(text_width, width) - 1) * width < text_width,
        lines_in(0, width) == 0,
{
    let n = lines_in(text_width, width);
    let all = text_width + width - 1;
    vstd::arithmetic::div_mod::lemma_fundamental_div_mod(all, width);
    vstd::arithmetic::div_mod::lemma_mod_bound(all, width);
    assert(n * width >= text_width && (n - 1) * width < text_width) by (nonlinear_arith)
        requires
            all == width * n + all % width,
            0 <= all % width < width,
            all == text_width + width - 1,
    ;
    vstd::arithmetic::div_mod::lemma_basic_div(width - 1, width);
}

} // verus!
