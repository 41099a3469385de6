//! The texts that are shown.
use thousands::Separable;
use vstd::prelude::*;
use crate::entry::{node, Entry, EntryInfo, InfoView, Node};
use crate::path::{PathBuf, PathView, DOT};
use crate::text::{lossy_text, utf8_lossy};

verus! {

/// A size in decimal units, as `humansize` writes it.
pub uninterp spec fn size_text(size: nat) -> Seq<char>;

/// Calls [`humansize::format_size`] with decimal units. The text depends on the
/// size alone.
#[verifier::external_body]
pub(crate) fn human_size(size: usize) -> (r: String)
    ensures
        r@ == size_text(size as nat),
{
    humansize::format_size(size, humansize::DECIMAL)
}

/// Calls [`typed_path::TypedPath::display`] on a name, which shows it as text
/// and replaces what is not UTF-8.
#[verifier::external_body]
pub(crate) fn display_name(name: &[u8]) -> (r: String)
    ensures
        r@ == utf8_lossy(name@),
{
    typed_path::TypedPath::from(name).display().to_string()
}

/// A decimal digit.
pub open spec fn digit(d: nat) -> char {
    (d as u8 + 0x30) as char
}

/// A number in decimal.
pub open spec fn decimal(n: nat) -> Seq<char>
    decreases n,
{
    if n < 10 {
        seq![digit(n)]
    } else {
        decimal(n / 10).push(digit(n % 10))
    }
}

/// A number in decimal with a comma before every three digits from the right.
pub open spec fn with_commas(n: nat) -> Seq<char>
    decreases n,
{
    if n < 1000 {
        decimal(n)
    } else {
        with_commas(n / 1000) + seq![
            ',',
            digit(n / 100 % 10),
            digit(n / 10 % 10),
            digit(n % 10),
        ]
    }
}

/// Calls [`Separable::separate_with_commas`], which writes a number in decimal
/// with a comma before every three digits from the right.
#[verifier::external_body]
pub(crate) fn separated(n: usize) -> (r: String)
    ensures
        r@ == with_commas(n as nat),
{
    n.separate_with_commas()
}

fn digit_char(d: usize) -> (r: char)
    requires
        d < 10,
    ensures
        r == digit(d as nat),
{
    let code: u8 = d as u8 + 0x30;
    code as char
}

/// A number in decimal.
pub fn decimal_text(n: usize) -> (r: String)
    ensures
        r@ == decimal(n as nat),
    decreases n,
{
    if n < 10 {
        let mut r = String::new();
        r.push(digit_char(n));
        assert(r@ =~= decimal(n as nat));
        return r;
    }
    let mut r = decimal_text(n / 10);
    r.push(digit_char(n % 10));
    r
}

/// A text in front of another.
pub fn joined(a: &str, b: &str) -> (r: String)
    ensures
        r@ == a@ + b@,
{
    let mut r = a.to_owned();
    r.append(b);
    r
}

/// A path as it is shown.
pub open spec fn path_text(p: PathView) -> Seq<char> {
    utf8_lossy(p.bytes())
}

/// A path as it is shown.
pub fn show_path(p: &PathBuf) -> (r: String)
    ensures
        r@ == path_text(p@),
{
    let bytes = p.to_bytes();
    lossy_text(bytes.as_slice())
}

/// The text of an entry in the navigator: its size and its name.
pub open spec fn nav_text(n: Node) -> Seq<char> {
    "["@ + size_text(n.size) + "] "@ + utf8_lossy(name_of(n.path))
}

/// The name of a path, or nothing.
pub open spec fn name_of(p: PathView) -> Seq<u8> {
    match p.file_name() {
        Some(name) => name,
        None => Seq::empty(),
    }
}

/// The name of a path as it is shown.
pub fn show_name(path: &PathBuf) -> (r: String)
    ensures
        r@ == utf8_lossy(name_of(path@)),
{
    match path.file_name() {
        Some(name) => display_name(name),
        None => {
            let none: Vec<u8> = Vec::new();
            assert(none@ =~= Seq::empty());
            display_name(none.as_slice())
        },
    }
}

/// The text of an entry in the navigator.
pub fn show_nav(entry: &Entry) -> (r: String)
    ensures
        r@ == nav_text(node(*entry)),
{
    let size = human_size(entry.size);
    let name = show_name(&entry.path);
    let r = joined("[", size.as_str());
    let r = joined(r.as_str(), "] ");
    joined(r.as_str(), name.as_str())
}

/// The path that stands for the files of an extension below a path.
pub open spec fn group_path(p: PathView, tag: Seq<u8>) -> PathView {
    if tag.len() == 0 {
        p.child(seq![42u8, 42u8])
    } else {
        p.child(seq![42u8, 42u8, DOT] + tag)
    }
}

/// The title of a view, in bytes: what it shows, its size and its number of
/// files.
pub open spec fn title_bytes(info: InfoView) -> Seq<u8> {
    let path = match info.tag {
        Some(tag) => group_path(info.path, tag),
        None => info.path,
    };
    path.bytes() + vstd::utf8::encode_utf8(title_tail(info))
}

/// What follows the path in a title.
pub open spec fn title_tail(info: InfoView) -> Seq<char> {
    " | "@ + size_text(info.size) + " ("@ + with_commas(info.nfiles) + " files)"@
}

/// What follows the path in a title.
pub fn show_title_tail(info: &EntryInfo) -> (r: String)
    ensures
        r@ == title_tail(info@),
{
    let size = human_size(info.size);
    let count = separated(info.nfiles);
    let r = joined(" | ", size.as_str());
    let r = joined(r.as_str(), " (");
    let r = joined(r.as_str(), count.as_str());
    joined(r.as_str(), " files)")
}

/// An item of the navigator shows the size in brackets, and the name after them.
pub proof fn items_show_size_and_name(n: Node)
    ensures
        ({
            let t = nav_text(n);
            let size = size_text(n.size);
            let name = utf8_lossy(name_of(n.path));
            &&& t.len() == size.len() + name.len() + 3
            &&& t[0] == '['
            &&& t.subrange(1, 1 + size.len() as int) == size
            &&& t[1 + size.len() as int] == ']'
            &&& t[2 + size.len() as int] == ' '
            &&& t.skip(3 + size.len() as int) == name
        }),
{
    reveal_strlit("[");
    reveal_strlit("] ");
    let t = nav_text(n);
    let size = size_text(n.size);
    let name = utf8_lossy(name_of(n.path));
    assert(t.subrange(1, 1 + size.len() as int) =~= size);
    assert(t.skip(3 + size.len() as int) =~= name);
}

/// A title begins with the path of the view, or with that of the files of its type
/// in it.
pub proof fn titles_begin_with_the_path(info: InfoView)
    ensures
        info.tag is None ==> info.path.bytes().is_prefix_of(title_bytes(info)),
        info.tag matches Some(tag) ==> tag.len() > 0 ==> info.path.child(
            seq![42u8, 42u8].push(DOT) + tag,
        ).bytes().is_prefix_of(title_bytes(info)),
        info.tag matches Some(tag) ==> tag.len() == 0 ==> info.path.child(seq![42u8, 42u8]).bytes().is_prefix_of(
            title_bytes(info),
        ),
{
    let t = title_bytes(info);
    let path = match info.tag {
        Some(tag) => group_path(info.path, tag),
        None => info.path,
    };
    assert(path.bytes() =~= t.subrange(0, path.bytes().len() as int));
    if let Some(tag) = info.tag {
        assert(seq![42u8, 42u8].push(DOT) + tag =~= seq![42u8, 42u8, DOT] + tag);
    }
}

proof fn lemma_digits_only(n: nat)
    ensures
        forall|i: int| 0 <= i < decimal(n).len() ==> #[trigger] decimal(n)[i] != ',',
    decreases n,
{
    if n >= 10 {
        lemma_digits_only(n / 10);
        assert forall|i: int| 0 <= i < decimal(n).len() implies #[trigger] decimal(n)[i] != ',' by {
            if i < decimal(n / 10).len() {
                assert(decimal(n)[i] == decimal(n / 10)[i]);
            }
        }
    }
}

/// A text without its commas.
pub open spec fn without_commas(s: Seq<char>) -> Seq<char>
    decreases s.len(),
{
    if s.len() == 0 {
        s
    } else if s.last() == ',' {
        without_commas(s.drop_last())
    } else {
        without_commas(s.drop_last()).push(s.last())
    }
}

proof fn lemma_nothing_to_lose(s: Seq<char>)
    requires
        forall|i: int| 0 <= i < s.len() ==> #[trigger] s[i] != ',',
    ensures
        without_commas(s) == s,
    decreases s.len(),
{
    if s.len() > 0 {
        assert(s[s.len() - 1] != ',');
        assert forall|i: int| 0 <= i < s.drop_last().len() implies #[trigger] s.drop_last()[i] != ',' by {
            assert(s[i] != ',');
        }
        lemma_nothing_to_lose(s.drop_last());
        assert(s.drop_last().push(s.last()) =~= s);
    }
}

/// A number with commas is the number in decimal, with a comma before every three
/// digits.
pub proof fn commas_only_separate(n: nat)
    ensures
        without_commas(with_commas(n)) == decimal(n),
        n >= 1000 ==> with_commas(n)[with_commas(n).len() - 4] == ',',
    decreases n,
{
    if n < 1000 {
        lemma_digits_only(n);
        lemma_nothing_to_lose(decimal(n));
    } else {
        let top = with_commas(n / 1000);
        let a = digit(n / 100 % 10);
        let b = digit(n / 10 % 10);
        let c = digit(n % 10);
        commas_only_separate(n / 1000);
        let t = with_commas(n);
        assert(t =~= top.push(',').push(a).push(b).push(c));
        assert(top.push(',').drop_last() =~= top);
        assert(top.push(',').push(a).drop_last() =~= top.push(','));
        assert(top.push(',').push(a).push(b).drop_last() =~= top.push(',').push(a));
        assert(t.drop_last() =~= top.push(',').push(a).push(b));
        assert(a != ',' && b != ',' && c != ',');
        assert(without_commas(top.push(',')) == decimal(n / 1000));
        assert(without_commas(top.push(',').push(a)) == decimal(n / 1000).push(a));
        assert(without_commas(top.push(',').push(a).push(b)) == decimal(n / 1000).push(a).push(b));
        assert(decimal(n / 100) == decimal(n / 100 / 10).push(digit(n / 100 % 10)));
        assert(decimal(n / 10) == decimal(n / 10 / 10).push(digit(n / 10 % 10)));
        assert(n / 100 / 10 == n / 1000);
        assert(n / 10 / 10 == n / 100);
    }
}

} // verus!
