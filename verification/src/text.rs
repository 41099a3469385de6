//! Texts as characters and as bytes.
use vstd::prelude::*;

verus! {

/// The text that stands for bytes which need not be UTF-8.
pub uninterp spec fn utf8_lossy(b: Seq<u8>) -> Seq<char>;

/// Calls [`String::from_utf8_lossy`], which replaces what is not UTF-8. Bytes
/// that are UTF-8 become the text that they encode, and a NUL comes of a zero
/// byte only.
#[verifier::external_body]
pub(crate) fn lossy_text(b: &[u8]) -> (r: String)
    ensures
        r@ == utf8_lossy(b@),
        vstd::utf8::valid_utf8(b@) ==> r@ == vstd::utf8::decode_utf8(b@),
        !b@.contains(0) ==> !r@.contains('\0'),
{
    String::from_utf8_lossy(b).into_owned()
}

/// Calls [`std::str::from_utf8`]: the text that bytes encode, if they are
/// UTF-8.
#[verifier::external_body]
pub(crate) fn utf8_text(b: &[u8]) -> (r: Option<&str>)
    ensures
        r is Some == vstd::utf8::valid_utf8(b@),
        r matches Some(s) ==> s@ == vstd::utf8::decode_utf8(b@),
{
    std::str::from_utf8(b).ok()
}

/// A text in quotes, with escapes, as `{:?}` formats it.
pub uninterp spec fn debug_text(s: Seq<char>) -> Seq<char>;

/// Formats a text with `{:?}`. The result depends on the text alone.
#[verifier::external_body]
pub(crate) fn quoted_text(s: &str) -> (r: String)
    ensures
        r@ == debug_text(s@),
{
    format!("{s:?}")
}

/// [`String::push`] adds a character at the end.
pub assume_specification[ String::push ](s: &mut String, ch: char)
    ensures
        final(s)@ == old(s)@.push(ch),
;

/// The characters of a text.
pub fn chars_of(s: &str) -> (r: Vec<char>)
    ensures
        r@ == s@,
{
    let mut r: Vec<char> = Vec::new();
    for c in it: s.chars()
        invariant
            it.seq() == s@,
            r@ == s@.take(it.index() as int),
    {
        r.push(c);
        assert(r@ =~= s@.take(it.index() as int + 1));
    }
    assert(r@ =~= s@);
    r
}

/// The text of a stretch of characters.
pub fn text_of(chars: &[char]) -> (r: String)
    ensures
        r@ == chars@,
{
    let mut r = String::new();
    let mut i: usize = 0;
    while i < chars.len()
        invariant
            i <= chars@.len(),
            r@ == chars@.take(i as int),
        decreases chars.len() - i,
    {
        r.push(chars[i]);
        assert(r@ =~= chars@.take(i + 1));
        i += 1;
    }
    assert(r@ =~= chars@);
    r
}

/// Whether two texts are equal.
pub fn same_text(a: &str, b: &str) -> (r: bool)
    ensures
        r == (a@ == b@),
{
    let x = chars_of(a);
    let y = chars_of(b);
    same_chars(x.as_slice(), y.as_slice())
}

/// Whether two stretches of characters are equal.
pub fn same_chars(a: &[char], b: &[char]) -> (r: bool)
    ensures
        r == (a@ == b@),
{
    if a.len() != b.len() {
        return false;
    }
    let mut i: usize = 0;
    while i < a.len()
        invariant
            i <= a@.len(),
            a@.len() == b@.len(),
            forall|j: int| 0 <= j < i ==> a@[j] == b@[j],
        decreases a.len() - i,
    {
        if a[i] != b[i] {
            return false;
        }
        i += 1;
    }
    assert(a@ =~= b@);
    true
}

/// The characters of a text from a position on.
pub fn chars_from(chars: &[char], from: usize) -> (r: Vec<char>)
    requires
        from <= chars@.len(),
    ensures
        r@ == chars@.skip(from as int),
{
    chars_between(chars, from, chars.len())
}

/// The characters of a text between two positions.
pub fn chars_between(chars: &[char], from: usize, to: usize) -> (r: Vec<char>)
    requires
        from <= to <= chars@.len(),
    ensures
        r@ == chars@.subrange(from as int, to as int),
{
    let mut r: Vec<char> = Vec::new();
    let mut i: usize = from;
    while i < to
        invariant
            from <= i <= to,
            to <= chars@.len(),
            r@ == chars@.subrange(from as int, i as int),
        decreases to - i,
    {
        r.push(chars[i]);
        assert(r@ =~= chars@.subrange(from as int, i + 1));
        i += 1;
    }
    r
}

/// Whether a text starts with another.
pub fn starts_with_text(chars: &[char], head: &str) -> (r: bool)
    ensures
        r == head@.is_prefix_of(chars@),
{
    let head = chars_of(head);
    if head.len() > chars.len() {
        return false;
    }
    let start = chars_between(chars, 0, head.len());
    assert(head@.is_prefix_of(chars@) == (start@ == head@)) by {
        if start@ == head@ {
            assert(head@ =~= chars@.subrange(0, head@.len() as int));
        }
    }
    same_chars(start.as_slice(), head.as_slice())
}

/// The characters that Unicode calls white space.
pub open spec fn is_white(c: char) -> bool {
    ||| 0x9 <= c as u32 <= 0xd
    ||| c as u32 == 0x20
    ||| c as u32 == 0x85
    ||| c as u32 == 0xa0
    ||| c as u32 == 0x1680
    ||| 0x2000 <= c as u32 <= 0x200a
    ||| c as u32 == 0x2028
    ||| c as u32 == 0x2029
    ||| c as u32 == 0x202f
    ||| c as u32 == 0x205f
    ||| c as u32 == 0x3000
}

fn white(c: char) -> (r: bool)
    ensures
        r == is_white(c),
{
    let n: u32 = c as u32;
    (n >= 0x9 && n <= 0xd) || n == 0x20 || n == 0x85 || n == 0xa0 || n == 0x1680 || (n >= 0x2000 && n
        <= 0x200a) || n == 0x2028 || n == 0x2029 || n == 0x202f || n == 0x205f || n == 0x3000
}

/// A text without white space at its end.
pub open spec fn trim_end(s: Seq<char>) -> Seq<char>
    decreases s.len(),
{
    if s.len() > 0 && is_white(s.last()) {
        trim_end(s.drop_last())
    } else {
        s
    }
}

/// A text without white space at its start.
pub open spec fn trim_start(s: Seq<char>) -> Seq<char>
    decreases s.len(),
{
    if s.len() > 0 && is_white(s[0]) {
        trim_start(s.skip(1))
    } else {
        s
    }
}

/// A text without white space at its start and its end.
pub open spec fn trimmed(s: Seq<char>) -> Seq<char> {
    trim_end(trim_start(s))
}

/// The characters of a text without white space at its start and its end.
pub fn trim(chars: &[char]) -> (r: Vec<char>)
    ensures
        r@ == trimmed(chars@),
{
    let mut from: usize = 0;
    assert(chars@.skip(0) =~= chars@);
    while from < chars.len() && white(chars[from])
        invariant
            from <= chars@.len(),
            trim_start(chars@) == trim_start(chars@.skip(from as int)),
        decreases chars.len() - from,
    {
        assert(chars@.skip(from as int).skip(1) =~= chars@.skip(from + 1));
        from += 1;
    }
    let ghost s = chars@.skip(from as int);
    assert(trim_start(chars@) == s);
    let mut to: usize = chars.len();
    assert(chars@.subrange(from as int, to as int) =~= s);
    while to > from && white(chars[to - 1])
        invariant
            from <= to <= chars@.len(),
            trim_end(s) == trim_end(chars@.subrange(from as int, to as int)),
        decreases to,
    {
        assert(chars@.subrange(from as int, to as int).drop_last() =~= chars@.subrange(
            from as int,
            to - 1,
        ));
        to -= 1;
    }
    chars_between(chars, from, to)
}

/// The stretches of a text between line feeds.
pub open spec fn line_pieces(s: Seq<char>) -> Seq<Seq<char>>
    decreases s.len(),
{
    if s.len() == 0 {
        seq![Seq::empty()]
    } else {
        let before = line_pieces(s.drop_last());
        if s.last() == '\n' {
            before.push(Seq::empty())
        } else {
            before.drop_last().push(before.last().push(s.last()))
        }
    }
}

/// A line that a line feed ends, without a carriage return before that.
pub open spec fn without_return(line: Seq<char>) -> Seq<char> {
    if line.len() > 0 && line.last() == '\r' {
        line.drop_last()
    } else {
        line
    }
}

/// The lines of a text. What follows the last line feed is a line if it is not
/// empty.
pub open spec fn lines(s: Seq<char>) -> Seq<Seq<char>> {
    let all = line_pieces(s);
    let ended = all.drop_last().map_values(|line: Seq<char>| without_return(line));
    if all.last().len() == 0 {
        ended
    } else {
        ended.push(all.last())
    }
}

/// What lists of characters hold.
pub open spec fn char_lists(s: Seq<Vec<char>>) -> Seq<Seq<char>> {
    s.map_values(|v: Vec<char>| v@)
}

proof fn lemma_pieces_some(s: Seq<char>)
    ensures
        line_pieces(s).len() > 0,
    decreases s.len(),
{
    if s.len() > 0 {
        lemma_pieces_some(s.drop_last());
    }
}

/// The lines of a text.
pub fn lines_of(chars: &[char]) -> (r: Vec<Vec<char>>)
    ensures
        char_lists(r@) == lines(chars@),
{
    let mut r: Vec<Vec<char>> = Vec::new();
    let mut line: Vec<char> = Vec::new();
    let mut i: usize = 0;
    proof {
        assert(chars@.take(0) =~= Seq::empty());
        assert(line_pieces(chars@.take(0)).drop_last() =~= Seq::empty());
        assert(line_pieces(chars@.take(0)).last() =~= Seq::empty());
        assert(char_lists(r@) =~= line_pieces(chars@.take(0)).drop_last().map_values(
            |line: Seq<char>| without_return(line),
        ));
    }
    while i < chars.len()
        invariant
            i <= chars@.len(),
            line@ == line_pieces(chars@.take(i as int)).last(),
            char_lists(r@) == line_pieces(chars@.take(i as int)).drop_last().map_values(
                |line: Seq<char>| without_return(line),
            ),
        decreases chars.len() - i,
    {
        let ghost part = chars@.take(i as int);
        let ghost next = chars@.take(i + 1);
        let ghost before = line_pieces(part);
        let ghost rb = r@;
        proof {
            lemma_pieces_some(part);
            assert(next.drop_last() =~= part);
            assert(next.last() == chars@[i as int]);
        }
        let c = chars[i];
        if c == '\n' {
            let mut done: Vec<char> = Vec::new();
            std::mem::swap(&mut done, &mut line);
            let ghost whole = done@;
            if done.len() > 0 && done[done.len() - 1] == '\r' {
                let _ = done.pop();
            }
            assert(done@ == without_return(whole));
            r.push(done);
            proof {
                assert(line_pieces(next).drop_last() =~= before);
                assert(before =~= before.drop_last().push(before.last()));
                assert(char_lists(r@) =~= char_lists(rb).push(done@));
                assert(char_lists(r@) =~= before.map_values(|line: Seq<char>| without_return(line)));
            }
        } else {
            line.push(c);
            proof {
                assert(line_pieces(next).drop_last() =~= before.drop_last());
            }
        }
        i += 1;
    }
    assert(chars@.take(i as int) =~= chars@);
    let ghost ended = char_lists(r@);
    if line.len() > 0 {
        let ghost last = line@;
        r.push(line);
        assert(char_lists(r@) =~= ended.push(last));
    }
    r
}

/// The code of a character, that of the small letter for an ASCII capital.
pub open spec fn ascii_lower(c: char) -> int {
    if 0x41 <= c as u32 <= 0x5a {
        c as u32 + 0x20
    } else {
        c as int
    }
}

fn lower(c: char) -> (r: u32)
    ensures
        r == ascii_lower(c),
{
    let n: u32 = c as u32;
    if n >= 0x41 && n <= 0x5a {
        n + 0x20
    } else {
        n
    }
}

/// Whether two texts are equal up to the case of ASCII letters.
pub open spec fn same_but_case(a: Seq<char>, b: Seq<char>) -> bool {
    a.len() == b.len() && forall|i: int|
        0 <= i < a.len() ==> ascii_lower(#[trigger] a[i]) == ascii_lower(b[i])
}

/// Whether two texts are equal up to the case of ASCII letters.
pub fn eq_but_case(a: &[char], b: &str) -> (r: bool)
    ensures
        r == same_but_case(a@, b@),
{
    let other = chars_of(b);
    if a.len() != other.len() {
        return false;
    }
    let mut i: usize = 0;
    while i < a.len()
        invariant
            i <= a@.len(),
            a@.len() == b@.len(),
            other@ == b@,
            forall|j: int| 0 <= j < i ==> ascii_lower(#[trigger] a@[j]) == ascii_lower(b@[j]),
        decreases a.len() - i,
    {
        if lower(a[i]) != lower(other[i]) {
            assert(ascii_lower(a@[i as int]) != ascii_lower(b@[i as int]));
            return false;
        }
        i += 1;
    }
    true
}

/// The position of the first such character, or the length of the text.
pub open spec fn first_index(s: Seq<char>, c: char) -> int
    decreases s.len(),
{
    if s.len() == 0 {
        0
    } else if s[0] == c {
        0
    } else {
        1 + first_index(s.skip(1), c)
    }
}

/// The position of the first such character, or the length of the text.
pub fn find_char(chars: &[char], c: char) -> (r: usize)
    ensures
        r == first_index(chars@, c),
        r <= chars@.len(),
        r < chars@.len() ==> chars@[r as int] == c,
{
    let mut i: usize = 0;
    assert(chars@.skip(0) =~= chars@);
    while i < chars.len()
        invariant
            i <= chars@.len(),
            first_index(chars@, c) == i + first_index(chars@.skip(i as int), c),
        decreases chars.len() - i,
    {
        if chars[i] == c {
            return i;
        }
        assert(chars@.skip(i as int).skip(1) =~= chars@.skip(i + 1));
        i += 1;
    }
    i
}

/// Whether a text holds a character.
pub fn has_char(chars: &[char], c: char) -> (r: bool)
    ensures
        r == chars@.contains(c),
{
    let mut i: usize = 0;
    while i < chars.len()
        invariant
            i <= chars@.len(),
            forall|j: int| 0 <= j < i ==> chars@[j] != c,
        decreases chars.len() - i,
    {
        if chars[i] == c {
            assert(chars@[i as int] == c);
            return true;
        }
        i += 1;
    }
    false
}

proof fn lemma_trim_end(s: Seq<char>, after: Seq<char>)
    requires
        forall|i: int| 0 <= i < after.len() ==> is_white(#[trigger] after[i]),
        s.len() > 0 ==> !is_white(s.last()),
    ensures
        trim_end(s + after) == s,
    decreases after.len(),
{
    if after.len() == 0 {
        assert(s + after =~= s);
    } else {
        let d = after.drop_last();
        assert(is_white(after[after.len() - 1]));
        assert forall|i: int| 0 <= i < d.len() implies is_white(#[trigger] d[i]) by {
            assert(is_white(after[i]));
        }
        lemma_trim_end(s, d);
        assert((s + after).drop_last() =~= s + d);
    }
}

proof fn lemma_trim_start(before: Seq<char>, s: Seq<char>)
    requires
        forall|i: int| 0 <= i < before.len() ==> is_white(#[trigger] before[i]),
        s.len() > 0 ==> !is_white(s[0]),
    ensures
        trim_start(before + s) == s,
    decreases before.len(),
{
    if before.len() == 0 {
        assert(before + s =~= s);
    } else {
        let d = before.skip(1);
        assert(is_white(before[0]));
        assert forall|i: int| 0 <= i < d.len() implies is_white(#[trigger] d[i]) by {
            assert(is_white(before[i + 1]));
        }
        lemma_trim_start(d, s);
        assert((before + s).skip(1) =~= d + s);
    }
}

/// White space around a text comes off, and nothing else does.
pub proof fn white_space_comes_off(before: Seq<char>, s: Seq<char>, after: Seq<char>)
    requires
        forall|i: int| 0 <= i < before.len() ==> is_white(#[trigger] before[i]),
        forall|i: int| 0 <= i < after.len() ==> is_white(#[trigger] after[i]),
        s.len() > 0 ==> !is_white(s[0]) && !is_white(s.last()),
    ensures
        trimmed(before + s + after) == s,
        trimmed(s) == s,
        is_white(' '),
        is_white('\t'),
        is_white('\n'),
        is_white('\r'),
{
    let none = Seq::<char>::empty();
    if s.len() > 0 {
        assert((s + after)[0] == s[0]);
        lemma_trim_start(before, s + after);
        assert(before + (s + after) =~= before + s + after);
    } else {
        let all = before + after;
        assert(before + s + after =~= all + none);
        assert forall|i: int| 0 <= i < all.len() implies is_white(#[trigger] all[i]) by {
            if i < before.len() {
                assert(is_white(before[i]));
            } else {
                assert(is_white(after[i - before.len()]));
            }
        }
        lemma_trim_start(all, none);
        assert(s =~= none);
    }
    lemma_trim_end(s, after);
    lemma_trim_start(none, s);
    lemma_trim_end(s, none);
    assert(none + s =~= s);
    assert(s + none =~= s);
}

proof fn lemma_pieces_after(line: Seq<char>, rest: Seq<char>)
    requires
        !line.contains('\n'),
    ensures
        line_pieces(line) == seq![line],
        line_pieces(line.push('\n') + rest) == seq![line] + line_pieces(rest),
    decreases line.len(), rest.len(),
{
    let all = line.push('\n') + rest;
    lemma_pieces_some(rest);
    if rest.len() == 0 {
        if line.len() > 0 {
            let d = line.drop_last();
            assert(line[line.len() - 1] != '\n');
            assert(!d.contains('\n')) by {
                if d.contains('\n') {
                    let k = choose|k: int| 0 <= k < d.len() && d[k] == '\n';
                    assert(line[k] == '\n');
                }
            }
            lemma_pieces_after(d, rest);
            assert(line_pieces(line) =~= seq![line]) by {
                assert(d.push(line.last()) =~= line);
                assert(seq![d].drop_last() =~= Seq::empty());
            }
        } else {
            assert(line =~= Seq::empty());
            assert(line_pieces(line) =~= seq![line]);
        }
        assert(rest =~= Seq::empty());
        assert(line_pieces(rest) =~= seq![Seq::<char>::empty()]);
        assert(all.drop_last() =~= line);
        assert(all.last() == '\n');
        assert(line_pieces(all) =~= seq![line] + line_pieces(rest));
    } else {
        let d = rest.drop_last();
        lemma_pieces_after(line, d);
        lemma_pieces_some(d);
        assert(all.drop_last() =~= line.push('\n') + d);
        assert(all.last() == rest.last());
        let before = seq![line] + line_pieces(d);
        if rest.last() == '\n' {
            assert(before.push(Seq::empty()) =~= seq![line] + line_pieces(rest));
        } else {
            assert(before.last() == line_pieces(d).last());
            assert(before.drop_last().push(before.last().push(rest.last())) =~= seq![line] + line_pieces(rest));
        }
    }
}

/// A line feed ends a line, alone or after a carriage return, and what follows has
/// lines of its own. A last line needs none.
pub proof fn line_feeds_end_lines(line: Seq<char>, rest: Seq<char>)
    requires
        !line.contains('\n'),
        line.len() > 0 ==> line.last() != '\r',
    ensures
        lines(line.push('\n') + rest) == seq![line] + lines(rest),
        lines(line.push('\r').push('\n') + rest) == seq![line] + lines(rest),
        line.len() > 0 ==> lines(line) == seq![line],
        lines(Seq::empty()).len() == 0,
{
    lemma_pieces_after(line, rest);
    lemma_pieces_some(rest);
    let both = line.push('\r');
    assert(!both.contains('\n')) by {
        if both.contains('\n') {
            let k = choose|k: int| 0 <= k < both.len() && both[k] == '\n';
            assert(line[k] == '\n');
        }
    }
    lemma_pieces_after(both, rest);
    assert(both.drop_last() =~= line);
    assert((seq![line] + line_pieces(rest)).drop_last() =~= seq![line] + line_pieces(rest).drop_last());
    assert((seq![both] + line_pieces(rest)).drop_last() =~= seq![both] + line_pieces(rest).drop_last());
    assert(lines(line.push('\n') + rest) =~= seq![line] + lines(rest));
    assert(lines(both.push('\n') + rest) =~= seq![line] + lines(rest));
    assert(lines(line) =~= if line.len() > 0 {
        seq![line]
    } else {
        Seq::empty()
    });
    assert(line_pieces(Seq::<char>::empty()) =~= seq![Seq::<char>::empty()]);
    assert(lines(Seq::empty()) =~= Seq::empty());
}

/// The first such character is where it is found, and none comes before it.
pub proof fn first_is_first(s: Seq<char>, c: char)
    ensures
        0 <= first_index(s, c) <= s.len(),
        first_index(s, c) < s.len() <==> s.contains(c),
        first_index(s, c) < s.len() ==> s[first_index(s, c)] == c,
        forall|i: int| 0 <= i < first_index(s, c) ==> #[trigger] s[i] != c,
    decreases s.len(),
{
    if s.len() > 0 && s[0] != c {
        let t = s.skip(1);
        first_is_first(t, c);
        assert forall|i: int| 0 <= i < first_index(s, c) implies #[trigger] s[i] != c by {
            if i > 0 {
                assert(t[i - 1] != c);
            }
        }
        if s.contains(c) {
            let k = choose|k: int| 0 <= k < s.len() && s[k] == c;
            assert(t[k - 1] == c);
        }
        if first_index(t, c) < t.len() {
            assert(s[first_index(t, c) + 1] == c);
        }
    } else if s.len() > 0 {
        assert(s[0] == c);
    }
}

/// Letters, digits and signs are no white space, and neither is a control character
/// but those that move on.
pub proof fn signs_are_not_white(c: char)
    ensures
        0x21 <= c as u32 <= 0x7e ==> !is_white(c),
        (c as u32) < 0x9 ==> !is_white(c),
        0xe <= c as u32 <= 0x1f ==> !is_white(c),
        c as u32 > 0x3000 ==> !is_white(c),
{
}

/// Texts that are equal up to case are so in any order, and have one length. Only
/// ASCII letters differ in case.
pub proof fn case_is_all_that_differs(a: Seq<char>, b: Seq<char>, i: int)
    requires
        same_but_case(a, b),
        0 <= i < a.len(),
    ensures
        same_but_case(b, a),
        same_but_case(a, a),
        a.len() == b.len(),
        a[i] != b[i] ==> (0x41 <= a[i] as u32 <= 0x5a || 0x61 <= a[i] as u32 <= 0x7a),
        !(0x41 <= a[i] as u32 <= 0x5a || 0x61 <= a[i] as u32 <= 0x7a) ==> a[i] == b[i],
{
    assert(ascii_lower(a[i]) == ascii_lower(b[i]));
}

} // verus!
