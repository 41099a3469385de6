//! Which colour an entry has.
//!
//! A colour is named by what it is derived from: a directory's name, or a file
//! extension. The gradients that turn a name into red, green and blue are
//! sampled where the entry is drawn.
use vstd::prelude::*;
use crate::config::Config;
use crate::path::{copy_bytes, PathBuf, PathView};
use crate::text::same_text;

verus! {

/// The colour of an entry.
#[derive(Debug)]
pub enum Color {
    /// The terminal's own colour.
    Reset,
    /// The colour that the directory gradient gives to a file name.
    Dir(Option<Vec<u8>>),
    /// The colour that the file gradient gives to an extension.
    Ext(Vec<u8>),
}

/// What a colour is derived from.
#[verifier::ext_equal]
pub enum ColorView {
    Reset,
    Dir(Option<Seq<u8>>),
    Ext(Seq<u8>),
}

/// The bytes that an optional byte string holds.
pub open spec fn bytes_view(b: Option<Vec<u8>>) -> Option<Seq<u8>> {
    match b {
        Some(t) => Some(t@),
        None => None,
    }
}

/// A copy of an optional byte string.
pub fn copy_optional(b: &Option<Vec<u8>>) -> (r: Option<Vec<u8>>)
    ensures
        bytes_view(r) == bytes_view(*b),
{
    match b {
        Some(t) => Some(copy_bytes(t.as_slice())),
        None => None,
    }
}

impl View for Color {
    type V = ColorView;

    open spec fn view(&self) -> ColorView {
        match *self {
            Color::Reset => ColorView::Reset,
            Color::Dir(n) => ColorView::Dir(bytes_view(n)),
            Color::Ext(e) => ColorView::Ext(e@),
        }
    }
}

impl Clone for Color {
    fn clone(&self) -> (r: Self)
        ensures
            r@ == self@,
    {
        match self {
            Color::Reset => Color::Reset,
            Color::Dir(n) => Color::Dir(copy_optional(n)),
            Color::Ext(e) => Color::Ext(copy_bytes(e.as_slice())),
        }
    }
}

impl Default for Color {
    fn default() -> (r: Self)
        ensures
            r@ == ColorView::Reset,
    {
        Color::Reset
    }
}

/// The pair of gradients that a scheme draws from.
#[derive(Debug, Clone, Copy, PartialEq, Eq, Structural)]
pub enum Palette {
    /// The gradients of a theme in the settings.
    Custom,
    /// Cool directories, warm files.
    Fall,
    /// Warm directories, cool files.
    Spring,
    /// Shades of grey for both.
    Greys,
}

/// How entries are coloured.
#[derive(Debug, Clone, Copy)]
pub struct ColorScheme {
    pub dark_mode: bool,
    pub mono: bool,
    pub palette: Palette,
}

/// The gradients that a theme draws from. Those of a theme in the settings come
/// first, if they could be made.
pub open spec fn palette_of(name: Seq<char>, custom: bool) -> Palette {
    if custom {
        Palette::Custom
    } else if name == "spring"@ || name == "swap"@ {
        Palette::Spring
    } else if name == "mono"@ || name == "greys"@ {
        Palette::Greys
    } else {
        Palette::Fall
    }
}

impl ColorScheme {
    /// The scheme that the settings ask for. `gradients` says whether the
    /// gradients of the theme in the settings could be made.
    pub fn new(config: &Config, gradients: bool) -> (r: Self)
        ensures
            r.dark_mode == config.dark_mode,
            r.mono == (config.theme_name() == "mono"@),
            r.palette == palette_of(
                config.theme_name(),
                gradients && config.theme_index() is Some,
            ),
    {
        let name: &str = match &config.colors {
            Some(name) => name.as_str(),
            None => "fall",
        };
        let custom = gradients && config.theme().is_some();
        let palette = if custom {
            Palette::Custom
        } else if same_text(name, "spring") || same_text(name, "swap") {
            Palette::Spring
        } else if same_text(name, "mono") || same_text(name, "greys") {
            Palette::Greys
        } else {
            Palette::Fall
        };
        ColorScheme { dark_mode: config.dark_mode, mono: same_text(name, "mono"), palette }
    }

    /// The colour of a directory goes by its name.
    pub open spec fn spec_dir_color(self, p: PathView) -> ColorView {
        if self.mono {
            ColorView::Reset
        } else {
            ColorView::Dir(p.file_name())
        }
    }

    /// The colour of an extension: none if it is empty.
    pub open spec fn spec_ext_color(self, ext: Seq<u8>) -> ColorView {
        if self.mono || ext.len() == 0 {
            ColorView::Reset
        } else {
            ColorView::Ext(ext)
        }
    }

    /// The colour of a file goes by its extension.
    pub open spec fn spec_file_color(self, p: PathView) -> ColorView {
        match p.extension() {
            Some(ext) => self.spec_ext_color(ext),
            None => ColorView::Reset,
        }
    }

    /// The colour of a directory.
    pub fn dir_color(&self, dir_path: &PathBuf) -> (r: Color)
        ensures
            r@ == self.spec_dir_color(dir_path@),
    {
        if self.mono {
            return Color::Reset;
        }
        match dir_path.file_name() {
            Some(name) => Color::Dir(Some(copy_bytes(name))),
            None => Color::Dir(None),
        }
    }

    /// The colour of a file.
    pub fn file_color(&self, file_path: &PathBuf) -> (r: Color)
        ensures
            r@ == self.spec_file_color(file_path@),
    {
        match file_path.extension() {
            Some(ext) => self.ext_color(ext.as_slice()),
            None => Color::Reset,
        }
    }

    /// The colour of an extension.
    pub fn ext_color(&self, ext: &[u8]) -> (r: Color)
        ensures
            r@ == self.spec_ext_color(ext@),
    {
        if self.mono || ext.len() == 0 {
            return Color::Reset;
        }
        Color::Ext(copy_bytes(ext))
    }
}

/// Directories of one name have one colour, wherever they are.
pub proof fn same_name_same_color(scheme: ColorScheme, a: PathView, b: PathView)
    requires
        a.file_name() == b.file_name(),
    ensures
        scheme.spec_dir_color(a) == scheme.spec_dir_color(b),
{
}

/// Files of one extension have one colour, wherever they are.
pub proof fn same_extension_same_color(scheme: ColorScheme, a: PathView, b: PathView)
    requires
        a.extension() == b.extension(),
    ensures
        scheme.spec_file_color(a) == scheme.spec_file_color(b),
{
}

/// Without a theme of one colour, names of directories and extensions of files
/// that differ have colours that differ, and no file has the colour of a
/// directory.
pub proof fn colors_tell_apart(scheme: ColorScheme, a: PathView, b: PathView)
    requires
        !scheme.mono,
    ensures
        a.file_name() != b.file_name() ==> scheme.spec_dir_color(a) != scheme.spec_dir_color(b),
        a.extension() is Some && b.extension() is Some && a.extension() != b.extension()
            ==> scheme.spec_file_color(a) != scheme.spec_file_color(b),
        scheme.spec_dir_color(a) != scheme.spec_file_color(b),
        a.extension() is None ==> scheme.spec_file_color(a) == ColorView::Reset,
{
    if a.extension() is Some && b.extension() is Some {
        let x = a.extension()->0;
        let y = b.extension()->0;
        if x.len() == 0 && y.len() == 0 {
            assert(x =~= y);
        }
    }
}

/// A file has the colour of its extension, the one that a group of files of that
/// type has.
pub proof fn files_look_like_their_type(scheme: ColorScheme, p: PathView, ext: Seq<u8>)
    requires
        p.extension() == Some(ext),
    ensures
        scheme.spec_file_color(p) == scheme.spec_ext_color(ext),
{
}

/// The theme of one colour has no other.
pub proof fn mono_has_one_color(scheme: ColorScheme, p: PathView, ext: Seq<u8>)
    requires
        scheme.mono,
    ensures
        scheme.spec_dir_color(p) == ColorView::Reset,
        scheme.spec_file_color(p) == ColorView::Reset,
        scheme.spec_ext_color(ext) == ColorView::Reset,
{
}

/// The gradients of a theme in the settings come first. Else the names of the
/// themes that are built in count, and any other name is that of the usual one.
pub proof fn palettes_go_by_name(name: Seq<char>)
    ensures
        palette_of(name, true) == Palette::Custom,
        palette_of("spring"@, false) == Palette::Spring,
        palette_of("swap"@, false) == Palette::Spring,
        palette_of("mono"@, false) == Palette::Greys,
        palette_of("greys"@, false) == Palette::Greys,
        name != "spring"@ && name != "swap"@ && name != "mono"@ && name != "greys"@ ==> palette_of(name, false)
            == Palette::Fall,
{
    reveal_strlit("spring");
    reveal_strlit("swap");
    reveal_strlit("mono");
    reveal_strlit("greys");
    assert("mono"@[0] != "swap"@[0]);
    assert("greys"@.len() == 5 && "spring"@.len() == 6 && "swap"@.len() == 4);
}

} // verus!
