//! Settings, and what the environment overrides of them.
use vstd::prelude::*;
use crate::text::same_text;

verus! {

/// The name that the settings and the environment variables go by.
pub const PROJECT_NAME: &'static str = "leaves";

/// How the borders of directories are drawn.
#[derive(Debug, Clone, Copy, PartialEq, Eq, Structural)]
pub enum DirStyle {
    Plain,
    Thick,
}

impl Default for DirStyle {
    fn default() -> (r: Self)
        ensures
            r == DirStyle::Plain,
    {
        DirStyle::Plain
    }
}

/// The colours that the gradients of a theme are made of.
#[derive(Debug)]
pub struct ThemeSpec {
    pub dirs: Vec<String>,
    pub files: Vec<String>,
}

/// How much colours are lightened or darkened.
#[derive(Debug)]
pub enum ColorShift {
    /// As much as the settings say.
    Setting,
    /// Not at all.
    Off,
    /// By a fifth.
    Standard,
    /// By the number that a text spells, or as much as the settings say if it
    /// spells none.
    Given(String),
}

/// What a shift of colours is.
#[verifier::ext_equal]
pub enum ShiftView {
    Setting,
    Off,
    Standard,
    Given(Seq<char>),
}

impl View for ColorShift {
    type V = ShiftView;

    open spec fn view(&self) -> ShiftView {
        match *self {
            ColorShift::Setting => ShiftView::Setting,
            ColorShift::Off => ShiftView::Off,
            ColorShift::Standard => ShiftView::Standard,
            ColorShift::Given(text) => ShiftView::Given(text@),
        }
    }
}

/// Whether dark mode is on where a settings file does not say.
pub fn default_true() -> (r: bool)
    ensures
        r,
{
    true
}

/// The settings.
#[derive(Debug)]
pub struct Config {
    /// Render for a darker background
    pub dark_mode: bool,
    /// Name of theme for color gradients to apply to files and directories
    pub colors: Option<String>,
    /// Apply lightening or darkening depending on dark_mode
    pub color_shift: ColorShift,
    /// Render directories with heavy lines
    pub dir_style: DirStyle,
    /// The themes by name.
    pub themes: Vec<(String, ThemeSpec)>,
}

/// What the settings say.
#[verifier::ext_equal]
pub struct ConfigView {
    pub dark_mode: bool,
    pub colors: Option<Seq<char>>,
    pub color_shift: ShiftView,
    pub dir_style: DirStyle,
    pub themes: Seq<(String, ThemeSpec)>,
}

impl View for Config {
    type V = ConfigView;

    open spec fn view(&self) -> ConfigView {
        ConfigView {
            dark_mode: self.dark_mode,
            colors: match self.colors {
                Some(name) => Some(name@),
                None => None,
            },
            color_shift: self.color_shift@,
            dir_style: self.dir_style,
            themes: self.themes@,
        }
    }
}

impl Default for Config {
    fn default() -> (r: Self)
        ensures
            r@ == (ConfigView {
                dark_mode: false,
                colors: None,
                color_shift: ShiftView::Setting,
                dir_style: DirStyle::Plain,
                themes: Seq::empty(),
            }),
    {
        Config {
            dark_mode: false,
            colors: None,
            color_shift: ColorShift::Setting,
            dir_style: DirStyle::Plain,
            themes: Vec::new(),
        }
    }
}

/// A text in small letters.
pub uninterp spec fn lowercase(s: Seq<char>) -> Seq<char>;

/// Calls [`str::to_lowercase`]. The result depends on the text alone.
#[verifier::external_body]
pub(crate) fn lower_text(s: &str) -> (r: String)
    ensures
        r@ == lowercase(s@),
{
    s.to_lowercase()
}

/// Environment variables with their values.
#[derive(Debug)]
pub struct EnvWrap {
    vars: Vec<(String, String)>,
}

/// The value of a variable in a list. The last one of a name counts.
pub open spec fn value_in(vars: Seq<(String, String)>, key: Seq<char>) -> Option<Seq<char>>
    decreases vars.len(),
{
    if vars.len() == 0 {
        None
    } else if vars.last().0@ == key {
        Some(vars.last().1@)
    } else {
        value_in(vars.drop_last(), key)
    }
}

/// What a value is in small letters.
pub open spec fn lowered(value: Option<Seq<char>>) -> Option<Seq<char>> {
    match value {
        Some(text) => Some(lowercase(text)),
        None => None,
    }
}

/// The value of the first of some variables that is set.
pub open spec fn first_of(vars: Seq<(String, String)>, keys: Seq<Seq<char>>) -> Option<Seq<char>>
    decreases keys.len(),
{
    if keys.len() == 0 {
        None
    } else {
        match value_in(vars, keys[0]) {
            Some(value) => Some(value),
            None => first_of(vars, keys.skip(1)),
        }
    }
}

/// The characters of names.
pub open spec fn key_texts(keys: Seq<&str>) -> Seq<Seq<char>> {
    keys.map_values(|k: &str| k@)
}

impl EnvWrap {
    /// The variables and their values, in order.
    pub closed spec fn pairs(self) -> Seq<(String, String)> {
        self.vars@
    }

    /// Takes variables with their values.
    pub fn of(vars: Vec<(String, String)>) -> (r: Self)
        ensures
            r.pairs() == vars@,
    {
        EnvWrap { vars }
    }

    /// The value of a variable.
    pub fn get(&self, key: &str) -> (r: Option<&str>)
        ensures
            match r {
                Some(value) => value_in(self.pairs(), key@) == Some(value@),
                None => value_in(self.pairs(), key@) is None,
            },
    {
        let mut i: usize = self.vars.len();
        assert(self.vars@.take(i as int) =~= self.vars@);
        while i > 0
            invariant
                i <= self.vars@.len(),
                value_in(self.pairs(), key@) == value_in(self.vars@.take(i as int), key@),
            decreases i,
        {
            let ghost part = self.vars@.take(i as int);
            assert(part.drop_last() =~= self.vars@.take(i - 1));
            assert(part.last() == self.vars@[i - 1]);
            if same_text(self.vars[i - 1].0.as_str(), key) {
                return Some(self.vars[i - 1].1.as_str());
            }
            i -= 1;
        }
        None
    }

    /// The value, in small letters, of the first of some variables that is set.
    pub fn one_of(&self, keys: &[&str]) -> (r: Option<String>)
        ensures
            match r {
                Some(value) => lowered(first_of(self.pairs(), key_texts(keys@))) == Some(value@),
                None => first_of(self.pairs(), key_texts(keys@)) is None,
            },
    {
        let ghost all = key_texts(keys@);
        let mut i: usize = 0;
        assert(all.skip(0) =~= all);
        while i < keys.len()
            invariant
                i <= keys@.len(),
                all == key_texts(keys@),
                first_of(self.pairs(), all) == first_of(self.pairs(), all.skip(i as int)),
            decreases keys.len() - i,
        {
            assert(all.skip(i as int).skip(1) =~= all.skip(i + 1));
            assert(all.skip(i as int)[0] == keys@[i as int]@);
            if let Some(value) = self.get(keys[i]) {
                return Some(lower_text(value));
            }
            i += 1;
        }
        None
    }

    /// The value of a variable in small letters.
    pub fn lower(&self, key: &str) -> (r: Option<String>)
        ensures
            match r {
                Some(value) => lowered(value_in(self.pairs(), key@)) == Some(value@),
                None => value_in(self.pairs(), key@) is None,
            },
    {
        match self.get(key) {
            Some(value) => Some(lower_text(value)),
            None => None,
        }
    }
}

/// Whether dark mode is on, given what the variables for it say in small
/// letters. What is said of the background has the last word.
pub open spec fn dark_mode_of(
    setting: bool,
    mode: Option<Seq<char>>,
    background: Option<Seq<char>>,
) -> bool {
    if background == Some("light"@) {
        false
    } else if background == Some("dark"@) {
        true
    } else if mode == Some("0"@) || mode == Some("no"@) || mode == Some("false"@) {
        false
    } else if mode == Some("1"@) || mode == Some("yes"@) || mode == Some("true"@) {
        true
    } else {
        setting
    }
}

/// The theme, given what the variables for it say in small letters.
pub open spec fn colors_of(setting: Option<Seq<char>>, theme: Option<Seq<char>>) -> Option<Seq<char>> {
    if theme == Some("none"@) || theme == Some("mono"@) || theme == Some("monochrome"@) {
        Some("mono"@)
    } else if theme is Some {
        theme
    } else {
        setting
    }
}

/// The shift of colours, given what the variable for it says in small letters.
pub open spec fn shift_of(setting: ShiftView, shift: Option<Seq<char>>) -> ShiftView {
    match shift {
        Some(text) => if text == "no"@ || text == "none"@ || text == "false"@ {
            ShiftView::Off
        } else if text == "yes"@ || text == "true"@ {
            ShiftView::Standard
        } else {
            ShiftView::Given(text)
        },
        None => setting,
    }
}

/// The style of directories, given what the variable for it says in small
/// letters.
pub open spec fn dir_style_of(setting: DirStyle, style: Option<Seq<char>>) -> DirStyle {
    if style == Some("heavy"@) || style == Some("thick"@) || style == Some("strong"@) {
        DirStyle::Thick
    } else if style == Some("plain"@) {
        DirStyle::Plain
    } else {
        setting
    }
}

/// The settings after what the environment overrides.
pub open spec fn overridden(c: ConfigView, vars: Seq<(String, String)>) -> ConfigView {
    ConfigView {
        dark_mode: dark_mode_of(
            c.dark_mode,
            lowered(value_in(vars, "LEAVES_DARK_MODE"@)),
            lowered(value_in(vars, "LEAVES_BG"@)),
        ),
        colors: colors_of(
            c.colors,
            lowered(first_of(vars, seq!["LEAVES_COLORS"@, "LEAVES_THEME"@])),
        ),
        color_shift: shift_of(c.color_shift, lowered(value_in(vars, "LEAVES_COLOR_SHIFT"@))),
        dir_style: dir_style_of(c.dir_style, lowered(value_in(vars, "LEAVES_DIR_STYLE"@))),
        themes: c.themes,
    }
}

/// The characters of an optional text.
pub open spec fn chars_in(text: Option<String>) -> Option<Seq<char>> {
    match text {
        Some(it) => Some(it@),
        None => None,
    }
}

/// Whether a value is a given text.
fn says(value: &Option<String>, text: &str) -> (r: bool)
    ensures
        r == (chars_in(*value) == Some(text@)),
{
    match value {
        Some(it) => same_text(it.as_str(), text),
        None => false,
    }
}

/// Whether dark mode is on, given what the variables for it say in small
/// letters.
pub fn resolve_dark_mode(setting: bool, mode: &Option<String>, background: &Option<String>) -> (r: bool)
    ensures
        r == dark_mode_of(setting, chars_in(*mode), chars_in(*background)),
{
    if says(background, "light") {
        false
    } else if says(background, "dark") {
        true
    } else if says(mode, "0") || says(mode, "no") || says(mode, "false") {
        false
    } else if says(mode, "1") || says(mode, "yes") || says(mode, "true") {
        true
    } else {
        setting
    }
}

/// The theme, given what the variables for it say in small letters.
pub fn resolve_colors(setting: Option<String>, theme: Option<String>) -> (r: Option<String>)
    ensures
        chars_in(r) == colors_of(chars_in(setting), chars_in(theme)),
{
    if says(&theme, "none") || says(&theme, "mono") || says(&theme, "monochrome") {
        Some("mono".to_owned())
    } else {
        match theme {
            Some(name) => Some(name),
            None => setting,
        }
    }
}

/// The shift of colours, given what the variable for it says in small letters.
pub fn resolve_shift(setting: ColorShift, shift: Option<String>) -> (r: ColorShift)
    ensures
        r@ == shift_of(setting@, chars_in(shift)),
{
    if says(&shift, "no") || says(&shift, "none") || says(&shift, "false") {
        ColorShift::Off
    } else if says(&shift, "yes") || says(&shift, "true") {
        ColorShift::Standard
    } else {
        match shift {
            Some(text) => ColorShift::Given(text),
            None => setting,
        }
    }
}

/// The style of directories, given what the variable for it says in small
/// letters.
pub fn resolve_dir_style(setting: DirStyle, style: &Option<String>) -> (r: DirStyle)
    ensures
        r == dir_style_of(setting, chars_in(*style)),
{
    if says(style, "heavy") || says(style, "thick") || says(style, "strong") {
        DirStyle::Thick
    } else if says(style, "plain") {
        DirStyle::Plain
    } else {
        setting
    }
}

impl Config {
    /// Apply overrides from environment
    pub fn with_env(self, env: Vec<(String, String)>) -> (r: Self)
        ensures
            r@ == overridden(self@, env@),
    {
        let vars = EnvWrap::of(env);
        let mode = vars.lower("LEAVES_DARK_MODE");
        let background = vars.lower("LEAVES_BG");
        let keys: [&str; 2] = ["LEAVES_COLORS", "LEAVES_THEME"];
        assert(key_texts(keys@) =~= seq!["LEAVES_COLORS"@, "LEAVES_THEME"@]);
        let theme = vars.one_of(&keys);
        let shift = vars.lower("LEAVES_COLOR_SHIFT");
        let style = vars.lower("LEAVES_DIR_STYLE");
        Config {
            dark_mode: resolve_dark_mode(self.dark_mode, &mode, &background),
            colors: resolve_colors(self.colors, theme),
            color_shift: resolve_shift(self.color_shift, shift),
            dir_style: resolve_dir_style(self.dir_style, &style),
            themes: self.themes,
        }
    }

    /// The name of the theme.
    pub open spec fn theme_name(self) -> Seq<char> {
        match self.colors {
            Some(name) => name@,
            None => "fall"@,
        }
    }

    /// The index of the theme among those in the settings.
    pub open spec fn theme_index(self) -> Option<int> {
        index_of_theme(self.themes@, self.theme_name())
    }

    /// The theme in the settings that goes by the chosen name.
    pub fn theme(&self) -> (r: Option<&ThemeSpec>)
        ensures
            match self.theme_index() {
                Some(i) => r == Some(&self.themes@[i].1),
                None => r is None,
            },
    {
        let name: &str = match &self.colors {
            Some(name) => name.as_str(),
            None => "fall",
        };
        let ghost wanted = self.theme_name();
        let mut i: usize = 0;
        while i < self.themes.len()
            invariant
                i <= self.themes@.len(),
                wanted == name@,
                wanted == self.theme_name(),
                forall|j: int| 0 <= j < i ==> (#[trigger] self.themes@[j]).0@ != wanted,
            decreases self.themes.len() - i,
        {
            if same_text(self.themes[i].0.as_str(), name) {
                proof {
                    lemma_theme_index(self.themes@, wanted, i as int);
                }
                return Some(&self.themes[i].1);
            }
            i += 1;
        }
        proof {
            lemma_no_theme(self.themes@, wanted);
        }
        None
    }
}

/// The index of the first theme of a name.
pub open spec fn index_of_theme(themes: Seq<(String, ThemeSpec)>, name: Seq<char>) -> Option<int>
    decreases themes.len(),
{
    if themes.len() == 0 {
        None
    } else {
        match index_of_theme(themes.drop_last(), name) {
            Some(i) => Some(i),
            None => if themes.last().0@ == name {
                Some(themes.len() - 1)
            } else {
                None
            },
        }
    }
}

proof fn lemma_no_theme(themes: Seq<(String, ThemeSpec)>, name: Seq<char>)
    requires
        forall|j: int| 0 <= j < themes.len() ==> (#[trigger] themes[j]).0@ != name,
    ensures
        index_of_theme(themes, name) is None,
    decreases themes.len(),
{
    if themes.len() > 0 {
        let d = themes.drop_last();
        assert forall|j: int| 0 <= j < d.len() implies (#[trigger] d[j]).0@ != name by {
            assert(d[j] == themes[j]);
        }
        assert(themes.last() == themes[themes.len() - 1]);
        lemma_no_theme(d, name);
    }
}

proof fn lemma_theme_index(themes: Seq<(String, ThemeSpec)>, name: Seq<char>, i: int)
    requires
        0 <= i < themes.len(),
        themes[i].0@ == name,
        forall|j: int| 0 <= j < i ==> (#[trigger] themes[j]).0@ != name,
    ensures
        index_of_theme(themes, name) == Some(i),
    decreases themes.len(),
{
    let d = themes.drop_last();
    if i == themes.len() - 1 {
        assert forall|j: int| 0 <= j < d.len() implies (#[trigger] d[j]).0@ != name by {
            assert(d[j] == themes[j]);
        }
        lemma_no_theme(d, name);
    } else {
        assert forall|j: int| 0 <= j < i implies (#[trigger] d[j]).0@ != name by {
            assert(d[j] == themes[j]);
        }
        lemma_theme_index(d, name, i);
    }
}

/// The last value that is given to a variable counts, and no other variable is
/// touched by it.
pub proof fn the_last_value_counts(vars: Seq<(String, String)>, one: (String, String), key: Seq<char>)
    ensures
        value_in(vars.push(one), one.0@) == Some(one.1@),
        key != one.0@ ==> value_in(vars.push(one), key) == value_in(vars, key),
        value_in(Seq::empty(), key) is None,
{
    assert(vars.push(one).drop_last() =~= vars);
    assert(vars.push(one).last() == one);
}

/// What the environment says nothing of stays as the settings have it.
pub proof fn silence_keeps_the_settings(c: ConfigView, vars: Seq<(String, String)>)
    ensures
        value_in(vars, "LEAVES_DARK_MODE"@) is None && value_in(vars, "LEAVES_BG"@) is None ==> overridden(
            c,
            vars,
        ).dark_mode == c.dark_mode,
        value_in(vars, "LEAVES_COLORS"@) is None && value_in(vars, "LEAVES_THEME"@) is None ==> overridden(
            c,
            vars,
        ).colors == c.colors,
        value_in(vars, "LEAVES_COLOR_SHIFT"@) is None ==> overridden(c, vars).color_shift == c.color_shift,
        value_in(vars, "LEAVES_DIR_STYLE"@) is None ==> overridden(c, vars).dir_style == c.dir_style,
        overridden(c, vars).themes == c.themes,
        overridden(c, Seq::empty()) == c,
{
    let keys = seq!["LEAVES_COLORS"@, "LEAVES_THEME"@];
    lemma_first_of_two(vars, keys[0], keys[1]);
    lemma_first_of_two(Seq::empty(), keys[0], keys[1]);
}

proof fn lemma_first_of_two(vars: Seq<(String, String)>, a: Seq<char>, b: Seq<char>)
    ensures
        value_in(vars, a) is Some ==> first_of(vars, seq![a, b]) == value_in(vars, a),
        value_in(vars, a) is None ==> first_of(vars, seq![a, b]) == value_in(vars, b),
{
    let keys = seq![a, b];
    assert(keys.skip(1) =~= seq![b]);
    assert(seq![b].skip(1) =~= Seq::empty());
    assert(first_of(vars, keys.skip(1).skip(1)) is None) by {
        assert(keys.skip(1).skip(1).len() == 0);
    }
    assert(first_of(vars, seq![b]) == value_in(vars, b)) by {
        assert(seq![b][0] == b);
        assert(first_of(vars, seq![b].skip(1)) is None) by {
            assert(seq![b].skip(1).len() == 0);
        }
    }
}

/// What is said of the background decides on dark mode. Else the variable for the
/// mode does, if it says yes or no.
pub proof fn the_background_decides(c: ConfigView, vars: Seq<(String, String)>)
    ensures
        ({
            let mode = lowered(value_in(vars, "LEAVES_DARK_MODE"@));
            let background = lowered(value_in(vars, "LEAVES_BG"@));
            let dark = overridden(c, vars).dark_mode;
            let open = background != Some("light"@) && background != Some("dark"@);
            &&& background == Some("light"@) ==> !dark
            &&& background == Some("dark"@) ==> dark
            &&& open && (mode == Some("0"@) || mode == Some("no"@) || mode == Some("false"@)) ==> !dark
            &&& open && (mode == Some("1"@) || mode == Some("yes"@) || mode == Some("true"@)) ==> dark
            &&& open && mode is None ==> dark == c.dark_mode
            &&& open && (mode matches Some(text) && text.len() > 5) ==> dark == c.dark_mode
        }),
{
    lemma_words();
}

proof fn lemma_words()
    ensures
        "light"@ != "dark"@,
        "0"@.len() == 1 && "1"@.len() == 1 && "no"@.len() == 2 && "yes"@.len() == 3,
        "0"@ != "1"@,
        "yes"@ != "no"@,
        "true"@ != "false"@,
        "true"@.len() == 4 && "false"@.len() == 5,
        "none"@.len() == 4 && "none"@ != "true"@,
        "heavy"@ != "plain"@ && "thick"@ != "plain"@ && "strong"@.len() == 6 && "plain"@.len() == 5,
        "mono"@.len() == 4,
{
    reveal_strlit("light");
    reveal_strlit("dark");
    reveal_strlit("0");
    reveal_strlit("1");
    reveal_strlit("no");
    reveal_strlit("yes");
    reveal_strlit("none");
    reveal_strlit("true");
    reveal_strlit("false");
    reveal_strlit("heavy");
    reveal_strlit("thick");
    reveal_strlit("strong");
    reveal_strlit("plain");
    reveal_strlit("mono");
    assert("light"@.len() == 5 && "dark"@.len() == 4);
    assert("yes"@.len() == 3 && "no"@.len() == 2);
    assert("true"@.len() == 4 && "false"@.len() == 5);
    assert("0"@[0] != "1"@[0]);
    assert("none"@[0] != "true"@[0]);
    assert("heavy"@[0] != "plain"@[0]);
    assert("thick"@[0] != "plain"@[0]);
}

/// The variable for colours comes before that for the theme. A theme without
/// colours goes by one name.
pub proof fn colors_come_before_themes(c: ConfigView, vars: Seq<(String, String)>)
    ensures
        ({
            let colors = value_in(vars, "LEAVES_COLORS"@);
            let said = lowered(
                if colors is Some {
                    colors
                } else {
                    value_in(vars, "LEAVES_THEME"@)
                },
            );
            let chosen = overridden(c, vars).colors;
            &&& said == Some("none"@) || said == Some("monochrome"@) || said == Some("mono"@) ==> chosen == Some(
                "mono"@,
            )
            &&& said is Some && said != Some("none"@) && said != Some("monochrome"@) ==> chosen == said
        }),
{
    lemma_first_of_two(vars, "LEAVES_COLORS"@, "LEAVES_THEME"@);
}

/// The shift of colours is switched on and off by words, and is given else. The
/// style of directories goes by words too.
pub proof fn words_are_understood(c: ConfigView, vars: Seq<(String, String)>)
    ensures
        ({
            let shift = lowered(value_in(vars, "LEAVES_COLOR_SHIFT"@));
            let style = lowered(value_in(vars, "LEAVES_DIR_STYLE"@));
            let d = overridden(c, vars);
            &&& shift == Some("no"@) || shift == Some("none"@) || shift == Some("false"@) ==> d.color_shift
                == ShiftView::Off
            &&& shift == Some("yes"@) || shift == Some("true"@) ==> d.color_shift == ShiftView::Standard
            &&& shift matches Some(text) ==> (text.len() == 1 || text.len() > 5 ==> d.color_shift
                == ShiftView::Given(text))
            &&& style == Some("heavy"@) || style == Some("thick"@) || style == Some("strong"@) ==> d.dir_style
                == DirStyle::Thick
            &&& style == Some("plain"@) ==> d.dir_style == DirStyle::Plain
        }),
{
    lemma_words();
}

/// The first theme of a name is the one that is found.
pub proof fn the_first_theme_is_found(themes: Seq<(String, ThemeSpec)>, name: Seq<char>)
    ensures
        match index_of_theme(themes, name) {
            Some(i) => 0 <= i < themes.len() && themes[i].0@ == name && forall|j: int|
                0 <= j < i ==> (#[trigger] themes[j]).0@ != name,
            None => forall|j: int| 0 <= j < themes.len() ==> (#[trigger] themes[j]).0@ != name,
        },
    decreases themes.len(),
{
    if themes.len() > 0 {
        let d = themes.drop_last();
        the_first_theme_is_found(d, name);
        match index_of_theme(d, name) {
            Some(i) => {
                assert(d[i] == themes[i]);
                assert forall|j: int| 0 <= j < i implies (#[trigger] themes[j]).0@ != name by {
                    assert(d[j] == themes[j]);
                }
            },
            None => {
                assert forall|j: int| 0 <= j < themes.len() - 1 implies (#[trigger] themes[j]).0@ != name by {
                    assert(d[j] == themes[j]);
                }
            },
        }
    }
}

} // verus!
