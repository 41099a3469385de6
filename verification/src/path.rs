//! File system paths as sequences of components.
//!
//! Two spellings of a path that differ only in repeated separators, in a
//! trailing separator or in `.` components name the same components, so they
//! are one value here. Components are bytes: nothing is assumed of their
//! encoding.
use vstd::prelude::*;

verus! {

pub const SEPARATOR: u8 = 47;

pub const DOT: u8 = 46;

/// What a path is: whether it starts at the root, and its components.
#[verifier::ext_equal]
pub struct PathView {
    pub absolute: bool,
    pub comps: Seq<Seq<u8>>,
}

/// A path, kept as its components.
#[derive(Debug)]
pub struct PathBuf {
    absolute: bool,
    comps: Vec<Vec<u8>>,
}

/// The byte strings that a list of owned byte strings holds.
pub open spec fn names(comps: Seq<Vec<u8>>) -> Seq<Seq<u8>> {
    comps.map_values(|c: Vec<u8>| c@)
}

/// The component that names the directory itself.
pub open spec fn here() -> Seq<u8> {
    seq![DOT]
}

/// The component that names the directory above.
pub open spec fn up() -> Seq<u8> {
    seq![DOT, DOT]
}

/// Whether a component is an ordinary name.
pub open spec fn is_normal(c: Seq<u8>) -> bool {
    c != here() && c != up()
}

/// A component can stand in a path: it is not empty and holds no separator.
pub open spec fn is_component(c: Seq<u8>) -> bool {
    c.len() > 0 && !c.contains(SEPARATOR)
}

impl PathView {
    /// Every component can stand in a path, and `.` stands only at the start
    /// of a relative one.
    pub open spec fn valid(self) -> bool {
        &&& forall|i: int| 0 <= i < self.comps.len() ==> is_component(#[trigger] self.comps[i])
        &&& forall|i: int|
            0 <= i < self.comps.len() && #[trigger] self.comps[i] == here() ==> i == 0
                && !self.absolute
    }

    /// The path without its last component, if it has one.
    pub open spec fn parent(self) -> Option<PathView> {
        if self.comps.len() == 0 {
            None
        } else {
            Some(PathView { absolute: self.absolute, comps: self.comps.drop_last() })
        }
    }

    /// The last component, if it is an ordinary name.
    pub open spec fn file_name(self) -> Option<Seq<u8>> {
        if self.comps.len() > 0 && is_normal(self.comps.last()) {
            Some(self.comps.last())
        } else {
            None
        }
    }

    /// What follows the last dot of the file name, unless that dot starts it.
    pub open spec fn extension(self) -> Option<Seq<u8>> {
        match self.file_name() {
            Some(name) => name_extension(name),
            None => None,
        }
    }

    /// The path with one more component.
    pub open spec fn child(self, name: Seq<u8>) -> PathView {
        PathView { absolute: self.absolute, comps: self.comps.push(name) }
    }

    /// How many components the path has, the root counted as one.
    pub open spec fn depth(self) -> nat {
        self.comps.len() + if self.absolute { 1nat } else { 0nat }
    }

    /// Whether the components of `base`, the root among them, start this path.
    pub open spec fn starts_with(self, base: PathView) -> bool {
        if base.absolute {
            self.absolute && base.comps.is_prefix_of(self.comps)
        } else {
            base.comps.len() == 0 || (!self.absolute && base.comps.is_prefix_of(self.comps))
        }
    }

    /// What is left of this path after the components of `base`.
    pub open spec fn strip_prefix(self, base: PathView) -> Option<PathView> {
        if self.starts_with(base) {
            Some(
                PathView {
                    absolute: self.absolute && !base.absolute,
                    comps: self.comps.skip(base.comps.len() as int),
                },
            )
        } else {
            None
        }
    }

    /// `other` as seen from this path: `other` itself if it is absolute.
    pub open spec fn join(self, other: PathView) -> PathView {
        if other.absolute || self.depth() == 0 {
            other
        } else {
            PathView { absolute: self.absolute, comps: self.comps + without_here(other.comps) }
        }
    }

    /// The bytes that spell the path.
    pub open spec fn bytes(self) -> Seq<u8> {
        if self.absolute {
            seq![SEPARATOR] + spell(self.comps)
        } else {
            spell(self.comps)
        }
    }
}

/// The components without a leading `.`.
pub open spec fn without_here(comps: Seq<Seq<u8>>) -> Seq<Seq<u8>> {
    if comps.len() > 0 && comps[0] == here() {
        comps.skip(1)
    } else {
        comps
    }
}

/// The components with a separator between any two.
pub open spec fn spell(comps: Seq<Seq<u8>>) -> Seq<u8>
    decreases comps.len(),
{
    if comps.len() == 0 {
        Seq::empty()
    } else if comps.len() == 1 {
        comps[0]
    } else {
        spell(comps.drop_last()).push(SEPARATOR) + comps.last()
    }
}

/// The position of the last dot of a name, or -1.
pub open spec fn last_dot(name: Seq<u8>) -> int
    decreases name.len(),
{
    if name.len() == 0 {
        -1
    } else if name.last() == DOT {
        name.len() - 1
    } else {
        last_dot(name.drop_last())
    }
}

/// What follows the last dot of a name, unless that dot starts the name.
pub open spec fn name_extension(name: Seq<u8>) -> Option<Seq<u8>> {
    if last_dot(name) > 0 {
        Some(name.skip(last_dot(name) + 1))
    } else {
        None
    }
}

/// The stretches of bytes between separators.
pub open spec fn pieces(b: Seq<u8>) -> Seq<Seq<u8>>
    decreases b.len(),
{
    if b.len() == 0 {
        seq![Seq::empty()]
    } else {
        let before = pieces(b.drop_last());
        if b.last() == SEPARATOR {
            before.push(Seq::empty())
        } else {
            before.drop_last().push(before.last().push(b.last()))
        }
    }
}

/// The pieces that are components: empty ones are dropped, and so is every `.`
/// but a first one.
pub open spec fn kept(ps: Seq<Seq<u8>>) -> Seq<Seq<u8>>
    decreases ps.len(),
{
    if ps.len() == 0 {
        Seq::empty()
    } else {
        let before = kept(ps.drop_last());
        if ps.last().len() > 0 && (ps.last() != here() || ps.len() == 1) {
            before.push(ps.last())
        } else {
            before
        }
    }
}

/// The path that the bytes spell.
pub open spec fn parse_path(b: Seq<u8>) -> PathView {
    PathView { absolute: b.len() > 0 && b[0] == SEPARATOR, comps: kept(pieces(b)) }
}

proof fn lemma_pieces(b: Seq<u8>)
    ensures
        pieces(b).len() >= 1,
        forall|i: int| 0 <= i < pieces(b).len() ==> !(#[trigger] pieces(b)[i]).contains(SEPARATOR),
        b.len() > 0 && b[0] == SEPARATOR ==> pieces(b)[0].len() == 0 && pieces(b).len() >= 2,
    decreases b.len(),
{
    if b.len() > 0 {
        lemma_pieces(b.drop_last());
        let before = pieces(b.drop_last());
        if b.last() != SEPARATOR {
            let grown = before.last().push(b.last());
            assert(!grown.contains(SEPARATOR)) by {
                if grown.contains(SEPARATOR) {
                    let k = choose|k: int| 0 <= k < grown.len() && grown[k] == SEPARATOR;
                    if k < before.last().len() {
                        assert(before.last()[k] == SEPARATOR);
                        assert(before[before.len() - 1].contains(SEPARATOR));
                    }
                }
            }
        }
    }
}

proof fn lemma_kept(ps: Seq<Seq<u8>>, absolute: bool)
    requires
        forall|i: int| 0 <= i < ps.len() ==> !(#[trigger] ps[i]).contains(SEPARATOR),
        absolute && ps.len() > 0 ==> ps[0].len() == 0,
    ensures
        (PathView { absolute, comps: kept(ps) }).valid(),
        kept(ps).len() <= ps.len(),
    decreases ps.len(),
{
    if ps.len() > 0 {
        lemma_kept(ps.drop_last(), absolute);
        let before = kept(ps.drop_last());
        let after = kept(ps);
        let bv = PathView { absolute, comps: before };
        assert(bv.valid());
        if after.len() > before.len() {
            assert(!ps[ps.len() - 1].contains(SEPARATOR));
            assert(after.drop_last() =~= before);
            assert forall|i: int| 0 <= i < after.len() implies is_component(#[trigger] after[i]) by {
                if i < before.len() {
                    assert(after[i] == bv.comps[i]);
                }
            }
            assert forall|i: int| 0 <= i < after.len() && #[trigger] after[i] == here() implies i
                == 0 && !absolute by {
                if i < before.len() {
                    assert(after[i] == bv.comps[i]);
                }
            }
        }
    }
}

/// What bytes spell is always a valid path.
pub proof fn lemma_parse_valid(b: Seq<u8>)
    ensures
        parse_path(b).valid(),
{
    lemma_pieces(b);
    lemma_kept(pieces(b), parse_path(b).absolute);
}

proof fn lemma_pieces_extend(b: Seq<u8>, c: Seq<u8>)
    requires
        !c.contains(SEPARATOR),
    ensures
        pieces(b + c) == pieces(b).drop_last().push(pieces(b).last() + c),
    decreases c.len(),
{
    lemma_pieces(b);
    if c.len() == 0 {
        assert(b + c =~= b);
        assert(pieces(b).last() + c =~= pieces(b).last());
        assert(pieces(b) =~= pieces(b).drop_last().push(pieces(b).last()));
    } else {
        let d = c.drop_last();
        assert(c[c.len() - 1] != SEPARATOR);
        assert forall|i: int| 0 <= i < d.len() implies d[i] != SEPARATOR by {
            assert(c[i] != SEPARATOR);
        }
        lemma_pieces_extend(b, d);
        assert((b + c).drop_last() =~= b + d);
        assert((b + c).last() == c.last());
        let before = pieces(b + d);
        assert(before.drop_last() =~= pieces(b).drop_last());
        assert(before.last() == pieces(b).last() + d);
        assert((pieces(b).last() + d).push(c.last()) =~= pieces(b).last() + c);
    }
}

proof fn lemma_pieces_spelled(comps: Seq<Seq<u8>>)
    requires
        comps.len() > 0,
        forall|i: int| 0 <= i < comps.len() ==> is_component(#[trigger] comps[i]),
    ensures
        pieces(spell(comps)) == comps,
        spell(comps).len() > 0,
        spell(comps)[0] != SEPARATOR,
    decreases comps.len(),
{
    let last = comps.last();
    assert(last == comps[comps.len() - 1]);
    let none = Seq::<u8>::empty();
    if comps.len() == 1 {
        lemma_pieces_extend(none, last);
        assert(none + last =~= last);
        assert(pieces(none).last() + last =~= last);
        assert(pieces(none).drop_last() =~= Seq::empty());
        assert(pieces(spell(comps)) =~= comps);
        assert(last[0] != SEPARATOR) by {
            if last[0] == SEPARATOR {
                assert(last.contains(SEPARATOR));
            }
        }
    } else {
        let d = comps.drop_last();
        assert forall|i: int| 0 <= i < d.len() implies is_component(#[trigger] d[i]) by {
            assert(d[i] == comps[i]);
        }
        lemma_pieces_spelled(d);
        let b = spell(d).push(SEPARATOR);
        assert(b.drop_last() =~= spell(d));
        assert(pieces(b) == d.push(none));
        lemma_pieces_extend(b, last);
        assert(pieces(b).drop_last() =~= d);
        assert(none + last =~= last);
        assert(pieces(spell(comps)) =~= comps);
        assert(spell(comps)[0] == spell(d)[0]);
    }
}

proof fn lemma_pieces_rooted(b: Seq<u8>)
    ensures
        pieces(seq![SEPARATOR] + b) == seq![Seq::<u8>::empty()] + pieces(b),
    decreases b.len(),
{
    let none = Seq::<u8>::empty();
    let root = seq![SEPARATOR];
    lemma_pieces(b);
    if b.len() == 0 {
        assert(root + b =~= root);
        assert(root.drop_last() =~= none);
        assert(pieces(root.drop_last()) == seq![none]);
        assert(pieces(root) =~= seq![none].push(none));
        assert(seq![none] + pieces(b) =~= seq![none].push(none));
    } else {
        let d = b.drop_last();
        lemma_pieces_rooted(d);
        lemma_pieces(d);
        assert((root + b).drop_last() =~= root + d);
        assert((root + b).last() == b.last());
        let before = seq![none] + pieces(d);
        assert(before.last() == pieces(d).last());
        assert(before.drop_last() =~= seq![none] + pieces(d).drop_last());
        assert(pieces(root + b) =~= seq![none] + pieces(b));
    }
}

proof fn lemma_all_kept(comps: Seq<Seq<u8>>)
    requires
        (PathView { absolute: false, comps }).valid(),
    ensures
        kept(comps) == comps,
    decreases comps.len(),
{
    let p = PathView { absolute: false, comps };
    if comps.len() > 0 {
        let d = comps.drop_last();
        let q = PathView { absolute: false, comps: d };
        assert forall|i: int| 0 <= i < d.len() implies is_component(#[trigger] q.comps[i]) by {
            assert(d[i] == p.comps[i]);
        }
        assert forall|i: int| 0 <= i < q.comps.len() && #[trigger] q.comps[i] == here() implies i == 0 by {
            assert(d[i] == p.comps[i]);
        }
        lemma_all_kept(d);
        assert(p.comps[comps.len() - 1] == comps.last());
        assert(kept(comps) =~= comps);
    } else {
        assert(kept(comps) =~= comps);
    }
}

proof fn lemma_rooted_kept(comps: Seq<Seq<u8>>)
    requires
        (PathView { absolute: true, comps }).valid(),
    ensures
        kept(seq![Seq::<u8>::empty()] + comps) == comps,
    decreases comps.len(),
{
    let p = PathView { absolute: true, comps };
    let none = Seq::<u8>::empty();
    let all = seq![none] + comps;
    if comps.len() > 0 {
        let d = comps.drop_last();
        let q = PathView { absolute: true, comps: d };
        assert forall|i: int| 0 <= i < d.len() implies is_component(#[trigger] q.comps[i]) by {
            assert(d[i] == p.comps[i]);
        }
        assert forall|i: int| 0 <= i < q.comps.len() implies #[trigger] q.comps[i] != here() by {
            assert(d[i] == p.comps[i]);
        }
        lemma_rooted_kept(d);
        assert(all.drop_last() =~= seq![none] + d);
        assert(all.last() == p.comps[comps.len() - 1]);
        assert(kept(all) =~= comps);
    } else {
        assert(all =~= seq![none]);
        assert(all.drop_last() =~= Seq::empty());
        assert(kept(all.drop_last()) =~= Seq::empty());
        assert(kept(all) =~= comps);
    }
}

/// The bytes that spell a path spell no other one.
pub proof fn spelling_comes_back(p: PathView)
    requires
        p.valid(),
    ensures
        parse_path(p.bytes()) == p,
{
    let none = Seq::<u8>::empty();
    let comps = p.comps;
    if comps.len() > 0 {
        lemma_pieces_spelled(comps);
    } else {
        assert(spell(comps) =~= none);
        assert(pieces(none) == seq![none]);
    }
    if p.absolute {
        lemma_pieces_rooted(spell(comps));
        if comps.len() > 0 {
            lemma_rooted_kept(comps);
        } else {
            let both = seq![none] + seq![none];
            assert(both.drop_last() =~= seq![none]);
            assert(seq![none].drop_last() =~= Seq::empty());
            assert(kept(seq![none].drop_last()) =~= Seq::empty());
            assert(kept(seq![none]) =~= Seq::empty());
            assert(kept(both) =~= comps);
        }
    } else {
        if comps.len() > 0 {
            lemma_all_kept(comps);
        } else {
            assert(seq![none].drop_last() =~= Seq::empty());
            assert(kept(seq![none].drop_last()) =~= Seq::empty());
            assert(kept(seq![none]) =~= comps);
        }
    }
    assert(parse_path(p.bytes()) =~= p);
}

/// A copy of a byte string.
pub fn copy_bytes(b: &[u8]) -> (r: Vec<u8>)
    ensures
        r@ == b@,
{
    let mut r: Vec<u8> = Vec::with_capacity(b.len());
    r.extend_from_slice(b);
    assert(r@ =~= b@);
    r
}

/// Whether two byte strings are equal.
pub fn same_bytes(a: &[u8], b: &[u8]) -> (r: bool)
    ensures
        r == (a@ == b@),
{
    if a.len() != b.len() {
        return false;
    }
    let mut i: usize = 0;
    while i < a.len()
        invariant
            a.len() == b.len(),
            i <= a.len(),
            forall|j: int| 0 <= j < i ==> a@[j] == b@[j],
        decreases a.len() - i,
    {
        if a[i] != b[i] {
            return false;
        }
        i += 1;
    }
    assert(a@ =~= b@);
    true
}

fn is_here(c: &[u8]) -> (r: bool)
    ensures
        r == (c@ == here()),
{
    let r = c.len() == 1 && c[0] == DOT;
    proof {
        if r {
            assert(c@ =~= here());
        }
    }
    r
}

fn is_up(c: &[u8]) -> (r: bool)
    ensures
        r == (c@ == up()),
{
    let r = c.len() == 2 && c[0] == DOT && c[1] == DOT;
    proof {
        if r {
            assert(c@ =~= up());
        }
    }
    r
}

impl View for PathBuf {
    type V = PathView;

    closed spec fn view(&self) -> PathView {
        PathView { absolute: self.absolute, comps: names(self.comps@) }
    }
}

impl Clone for PathBuf {
    fn clone(&self) -> (r: Self)
        ensures
            r@ == self@,
    {
        proof {
            use_type_invariant(self);
        }
        let comps = copy_comps(&self.comps, 0, self.comps.len());
        assert(names(self.comps@).subrange(0, self.comps@.len() as int) =~= names(self.comps@));
        PathBuf { absolute: self.absolute, comps }
    }
}

fn copy_comps(comps: &Vec<Vec<u8>>, from: usize, to: usize) -> (r: Vec<Vec<u8>>)
    requires
        from <= to <= comps@.len(),
    ensures
        names(r@) == names(comps@).subrange(from as int, to as int),
{
    let mut r: Vec<Vec<u8>> = Vec::with_capacity(to - from);
    let mut i: usize = from;
    while i < to
        invariant
            from <= i <= to <= comps@.len(),
            names(r@) =~= names(comps@).subrange(from as int, i as int),
        decreases to - i,
    {
        let ghost before = r@;
        r.push(copy_bytes(comps[i].as_slice()));
        assert(names(r@) =~= names(before).push(comps@[i as int]@));
        i += 1;
    }
    r
}

impl PartialEq for PathBuf {
    fn eq(&self, other: &Self) -> (r: bool) {
        self.same(other)
    }
}

impl vstd::std_specs::cmp::PartialEqSpecImpl for PathBuf {
    open spec fn obeys_eq_spec() -> bool {
        true
    }

    open spec fn eq_spec(&self, other: &Self) -> bool {
        self@ == other@
    }
}

impl Default for PathBuf {
    fn default() -> (r: Self)
        ensures
            r@ == (PathView { absolute: false, comps: Seq::empty() }),
    {
        PathBuf::empty()
    }
}

impl PathBuf {
    #[verifier::type_invariant]
    spec fn inv(self) -> bool {
        (PathView { absolute: self.absolute, comps: names(self.comps@) }).valid()
    }

    /// The path without components.
    pub fn empty() -> (r: Self)
        ensures
            r@ == (PathView { absolute: false, comps: Seq::empty() }),
    {
        let r = PathBuf { absolute: false, comps: Vec::new() };
        assert(r@.comps =~= Seq::empty());
        r
    }

    /// Every path is valid.
    pub fn reveal_valid(&self)
        ensures
            self@.valid(),
    {
        proof {
            use_type_invariant(self);
        }
    }

    /// The path that the bytes spell.
    pub fn from_bytes(b: &[u8]) -> (r: Self)
        ensures
            r@ == parse_path(b@),
    {
        let mut comps: Vec<Vec<u8>> = Vec::new();
        let mut cur: Vec<u8> = Vec::new();
        let mut first = true;
        let mut i: usize = 0;
        while i < b.len()
            invariant
                i <= b.len(),
                pieces(b@.take(i as int)).len() >= 1,
                cur@ == pieces(b@.take(i as int)).last(),
                names(comps@) == kept(pieces(b@.take(i as int)).drop_last()),
                first == (pieces(b@.take(i as int)).len() == 1),
            decreases b.len() - i,
        {
            let ghost before = pieces(b@.take(i as int));
            let c = b[i];
            assert(b@.take(i + 1).drop_last() =~= b@.take(i as int));
            assert(b@.take(i + 1).last() == c);
            if c == SEPARATOR {
                let done = cur;
                cur = Vec::new();
                assert(cur@ =~= Seq::empty());
                assert(pieces(b@.take(i + 1)).drop_last() =~= before);
                if done.len() > 0 && (first || !is_here(done.as_slice())) {
                    let ghost old_comps = comps@;
                    comps.push(done);
                    assert(names(comps@) =~= names(old_comps).push(done@));
                }
                first = false;
            } else {
                cur.push(c);
                assert(pieces(b@.take(i + 1)).drop_last() =~= before.drop_last());
            }
            i += 1;
        }
        assert(b@.take(i as int) =~= b@);
        if cur.len() > 0 && (first || !is_here(cur.as_slice())) {
            let ghost old_comps = comps@;
            let ghost last = cur@;
            comps.push(cur);
            assert(names(comps@) =~= names(old_comps).push(last));
        }
        let absolute = b.len() > 0 && b[0] == SEPARATOR;
        proof {
            lemma_parse_valid(b@);
        }
        PathBuf { absolute, comps }
    }

    /// The path that the text spells.
    pub fn from_text(s: &str) -> (r: Self)
        ensures
            r@ == parse_path(vstd::utf8::encode_utf8(s@)),
    {
        PathBuf::from_bytes(s.as_bytes())
    }

    /// The bytes that spell the path.
    pub fn to_bytes(&self) -> (r: Vec<u8>)
        ensures
            r@ == self@.bytes(),
    {
        let mut r: Vec<u8> = Vec::new();
        if self.absolute {
            r.push(SEPARATOR);
        }
        let ghost start = r@;
        let mut i: usize = 0;
        while i < self.comps.len()
            invariant
                i <= self.comps.len(),
                r@ =~= start + spell(names(self.comps@).take(i as int)),
            decreases self.comps.len() - i,
        {
            let ghost before = names(self.comps@).take(i as int);
            let ghost after = names(self.comps@).take(i + 1);
            assert(after.drop_last() =~= before);
            assert(after.last() == self.comps@[i as int]@);
            if i > 0 {
                r.push(SEPARATOR);
            }
            r.extend_from_slice(self.comps[i].as_slice());
            i += 1;
        }
        assert(names(self.comps@).take(i as int) =~= self@.comps);
        r
    }

    /// Whether two paths have the same components.
    pub fn same(&self, other: &PathBuf) -> (r: bool)
        ensures
            r == (self@ == other@),
    {
        if self.absolute != other.absolute || self.comps.len() != other.comps.len() {
            assert(self@.comps.len() == self.comps@.len());
            assert(other@.comps.len() == other.comps@.len());
            return false;
        }
        let r = shares(&self.comps, &other.comps);
        proof {
            assert(names(other.comps@).take(names(other.comps@).len() as int) =~= names(
                other.comps@,
            ));
        }
        r
    }

    /// Whether the path starts at the root.
    pub fn is_absolute(&self) -> (r: bool)
        ensures
            r == self@.absolute,
    {
        self.absolute
    }

    /// How many components follow the root.
    pub fn len(&self) -> (r: usize)
        ensures
            r == self@.comps.len(),
    {
        self.comps.len()
    }

    /// Whether nothing spells the path.
    pub fn is_empty(&self) -> (r: bool)
        ensures
            r == (self@.depth() == 0),
    {
        !self.absolute && self.comps.len() == 0
    }

    /// The component at a position.
    pub fn component(&self, i: usize) -> (r: &[u8])
        requires
            i < self@.comps.len(),
        ensures
            r@ == self@.comps[i as int],
    {
        self.comps[i].as_slice()
    }

    /// The path without its last component, if it has one.
    pub fn parent(&self) -> (r: Option<PathBuf>)
        ensures
            match r {
                Some(p) => self@.parent() == Some(p@),
                None => self@.parent() is None,
            },
    {
        if self.comps.len() == 0 {
            return None;
        }
        Some(self.up_to(self.comps.len() - 1))
    }

    /// The path of the first components.
    pub fn up_to(&self, n: usize) -> (r: PathBuf)
        requires
            n <= self@.comps.len(),
        ensures
            r@ == (PathView { absolute: self@.absolute, comps: self@.comps.take(n as int) }),
    {
        proof {
            use_type_invariant(self);
        }
        let comps = copy_comps(&self.comps, 0, n);
        assert(names(comps@) =~= self@.comps.take(n as int));
        PathBuf { absolute: self.absolute, comps }
    }

    /// The path with one more component.
    pub fn child(&self, name: &[u8]) -> (r: PathBuf)
        requires
            is_component(name@),
            name@ == here() ==> self@.depth() == 0,
        ensures
            r@ == self@.child(name@),
    {
        proof {
            use_type_invariant(self);
        }
        let mut comps = copy_comps(&self.comps, 0, self.comps.len());
        let ghost before = comps@;
        comps.push(copy_bytes(name));
        proof {
            assert(names(before) =~= self@.comps);
            assert(names(comps@) =~= self@.comps.push(name@));
            let v = PathView { absolute: self.absolute, comps: names(comps@) };
            assert forall|i: int| 0 <= i < v.comps.len() implies is_component(
                #[trigger] v.comps[i],
            ) by {
                if i < self@.comps.len() {
                    assert(v.comps[i] == self@.comps[i]);
                }
            }
            assert forall|i: int| 0 <= i < v.comps.len() && #[trigger] v.comps[i]
                == here() implies i == 0 && !v.absolute by {
                if i < self@.comps.len() {
                    assert(v.comps[i] == self@.comps[i]);
                }
            }
        }
        PathBuf { absolute: self.absolute, comps }
    }

    /// The last component, if it is an ordinary name.
    pub fn file_name(&self) -> (r: Option<&[u8]>)
        ensures
            match r {
                Some(n) => self@.file_name() == Some(n@),
                None => self@.file_name() is None,
            },
    {
        let n = self.comps.len();
        if n == 0 {
            return None;
        }
        let last = self.comps[n - 1].as_slice();
        assert(self@.comps.last() == last@);
        if is_here(last) || is_up(last) {
            None
        } else {
            Some(last)
        }
    }

    /// What follows the last dot of the file name, unless that dot starts it.
    pub fn extension(&self) -> (r: Option<Vec<u8>>)
        ensures
            match r {
                Some(e) => self@.extension() == Some(e@),
                None => self@.extension() is None,
            },
    {
        match self.file_name() {
            Some(name) => extension_of(name),
            None => None,
        }
    }

    /// How many components the path has, the root counted as one.
    pub fn depth(&self) -> (r: usize)
        requires
            self@.depth() <= usize::MAX,
        ensures
            r == self@.depth(),
    {
        if self.absolute {
            self.comps.len() + 1
        } else {
            self.comps.len()
        }
    }

    /// Whether the components of `base` start this path.
    pub fn starts_with(&self, base: &PathBuf) -> (r: bool)
        ensures
            r == self@.starts_with(base@),
    {
        if base.absolute {
            self.absolute && shares(&base.comps, &self.comps)
        } else {
            base.comps.len() == 0 || (!self.absolute && shares(&base.comps, &self.comps))
        }
    }

    /// What is left of this path after the components of `base`.
    pub fn strip_prefix(&self, base: &PathBuf) -> (r: Option<PathBuf>)
        ensures
            match r {
                Some(p) => self@.strip_prefix(base@) == Some(p@),
                None => self@.strip_prefix(base@) is None,
            },
    {
        if !self.starts_with(base) {
            return None;
        }
        proof {
            use_type_invariant(self);
            use_type_invariant(base);
        }
        let comps = copy_comps(&self.comps, base.comps.len(), self.comps.len());
        let absolute = self.absolute && !base.absolute;
        proof {
            let v = PathView { absolute, comps: names(comps@) };
            assert(v.comps =~= self@.comps.skip(base@.comps.len() as int));
            assert forall|i: int| 0 <= i < v.comps.len() implies is_component(
                #[trigger] v.comps[i],
            ) by {
                assert(v.comps[i] == self@.comps[i + base@.comps.len()]);
            }
            assert forall|i: int| 0 <= i < v.comps.len() && #[trigger] v.comps[i]
                == here() implies i == 0 && !v.absolute by {
                assert(v.comps[i] == self@.comps[i + base@.comps.len()]);
            }
        }
        Some(PathBuf { absolute, comps })
    }

    /// `other` as seen from this path: `other` itself if it is absolute.
    pub fn join(&self, other: &PathBuf) -> (r: PathBuf)
        ensures
            r@ == self@.join(other@),
    {
        if other.absolute || self.is_empty() {
            return other.clone();
        }
        proof {
            use_type_invariant(self);
            use_type_invariant(other);
        }
        let mut comps = copy_comps(&self.comps, 0, self.comps.len());
        let from: usize = if other.comps.len() > 0 && is_here(other.comps[0].as_slice()) {
            1
        } else {
            0
        };
        let mut rest = copy_comps(&other.comps, from, other.comps.len());
        let ghost start = comps@;
        let ghost added = rest@;
        comps.append(&mut rest);
        proof {
            assert(names(start) =~= self@.comps);
            assert(names(added) =~= without_here(other@.comps));
            let v = PathView { absolute: self.absolute, comps: names(comps@) };
            assert(v.comps =~= self@.comps + without_here(other@.comps));
            let n = self@.comps.len() as int;
            assert forall|i: int| 0 <= i < v.comps.len() implies is_component(
                #[trigger] v.comps[i],
            ) by {
                if i < n {
                    assert(v.comps[i] == self@.comps[i]);
                } else {
                    assert(v.comps[i] == other@.comps[i - n + from]);
                }
            }
            assert forall|i: int| 0 <= i < v.comps.len() && #[trigger] v.comps[i]
                == here() implies i == 0 && !v.absolute by {
                if i < n {
                    assert(v.comps[i] == self@.comps[i]);
                } else {
                    assert(v.comps[i] == other@.comps[i - n + from]);
                }
            }
        }
        PathBuf { absolute: self.absolute, comps }
    }
}

/// Whether the first list of components starts the second.
fn shares(a: &Vec<Vec<u8>>, b: &Vec<Vec<u8>>) -> (r: bool)
    ensures
        r == names(a@).is_prefix_of(names(b@)),
        r && a@.len() == b@.len() ==> names(a@) == names(b@),
{
    if a.len() > b.len() {
        return false;
    }
    let mut i: usize = 0;
    while i < a.len()
        invariant
            i <= a.len() <= b.len(),
            forall|j: int| 0 <= j < i ==> a@[j]@ == b@[j]@,
        decreases a.len() - i,
    {
        if !same_bytes(a[i].as_slice(), b[i].as_slice()) {
            proof {
                assert(names(a@)[i as int] != names(b@)[i as int]);
                if names(a@).is_prefix_of(names(b@)) {
                    assert(names(b@).subrange(0, a@.len() as int)[i as int] == names(b@)[i as int]);
                }
            }
            return false;
        }
        i += 1;
    }
    proof {
        assert(names(a@) =~= names(b@).subrange(0, a@.len() as int));
        if a@.len() == b@.len() {
            assert(names(a@) =~= names(b@));
        }
    }
    true
}

/// What follows the last dot of a name, unless that dot starts the name.
pub fn extension_of(name: &[u8]) -> (r: Option<Vec<u8>>)
    ensures
        match r {
            Some(e) => name_extension(name@) == Some(e@),
            None => name_extension(name@) is None,
        },
{
    let mut i: usize = name.len();
    assert(name@.take(i as int) =~= name@);
    while i > 0
        invariant
            i <= name.len(),
            last_dot(name@) == last_dot(name@.take(i as int)),
        decreases i,
    {
        let ghost now = name@.take(i as int);
        assert(now.drop_last() =~= name@.take(i - 1));
        if name[i - 1] == DOT {
            assert(last_dot(name@) == i - 1);
            if i == 1 {
                return None;
            }
            let (_, rest) = name.split_at(i);
            assert(rest@ =~= name@.skip(i as int));
            return Some(copy_bytes(rest));
        }
        i -= 1;
    }
    None
}

proof fn lemma_last_dot(stem: Seq<u8>, ext: Seq<u8>)
    requires
        !ext.contains(DOT),
    ensures
        last_dot(stem.push(DOT) + ext) == stem.len(),
    decreases ext.len(),
{
    let name = stem.push(DOT) + ext;
    if ext.len() == 0 {
        assert(name.last() == DOT);
    } else {
        let d = ext.drop_last();
        assert(ext[ext.len() - 1] != DOT);
        assert(!d.contains(DOT)) by {
            if d.contains(DOT) {
                let k = choose|k: int| 0 <= k < d.len() && d[k] == DOT;
                assert(ext[k] == DOT);
            }
        }
        lemma_last_dot(stem, d);
        assert(name.drop_last() =~= stem.push(DOT) + d);
    }
}

proof fn lemma_no_dot(name: Seq<u8>)
    requires
        forall|i: int| 0 < i < name.len() ==> #[trigger] name[i] != DOT,
    ensures
        last_dot(name) <= 0,
    decreases name.len(),
{
    if name.len() > 0 {
        if name.last() != DOT {
            assert forall|i: int| 0 < i < name.drop_last().len() implies #[trigger] name.drop_last()[i] != DOT by {
                assert(name[i] != DOT);
            }
            lemma_no_dot(name.drop_last());
        } else if name.len() > 1 {
            assert(name[name.len() - 1] != DOT);
        }
    }
}

/// The extension of a name is what follows its last dot. A name that begins with
/// its only dot, or has none, has no extension.
pub proof fn extensions_follow_the_last_dot(stem: Seq<u8>, ext: Seq<u8>, plain: Seq<u8>)
    requires
        stem.len() > 0,
        !ext.contains(DOT),
        !plain.contains(DOT),
    ensures
        name_extension(stem.push(DOT) + ext) == Some(ext),
        name_extension(plain) is None,
        name_extension(seq![DOT] + plain) is None,
{
    lemma_last_dot(stem, ext);
    assert((stem.push(DOT) + ext).skip(stem.len() as int + 1) =~= ext);
    assert forall|i: int| 0 < i < plain.len() implies #[trigger] plain[i] != DOT by {
        assert(plain.contains(plain[i]));
    }
    lemma_no_dot(plain);
    let hidden = seq![DOT] + plain;
    assert forall|i: int| 0 < i < hidden.len() implies #[trigger] hidden[i] != DOT by {
        assert(plain.contains(plain[i - 1]));
    }
    lemma_no_dot(hidden);
}

/// The extension of a path is that of its last component, whatever the others
/// are.
pub proof fn extensions_are_those_of_names(p: PathView, q: PathView, name: Seq<u8>)
    requires
        is_normal(name),
    ensures
        p.child(name).extension() == name_extension(name),
        p.child(name).extension() == q.child(name).extension(),
        p.child(name).file_name() == Some(name),
        p.child(name).parent() == Some(p),
        p.child(name).depth() == p.depth() + 1,
        p.child(here()).file_name() is None,
        p.child(up()).file_name() is None,
{
    assert(p.child(name).comps.drop_last() =~= p.comps);
    assert(p.child(here()).comps.last() == here());
    assert(p.child(up()).comps.last() == up());
}

/// A path with another in front starts with that one, and without it is what it
/// was.
pub proof fn prefixes_come_off(base: PathView, rest: PathView)
    requires
        base.depth() > 0,
        !rest.absolute,
        rest.comps.len() > 0 ==> rest.comps[0] != here(),
    ensures
        base.join(rest).starts_with(base),
        base.join(rest).strip_prefix(base) == Some(rest),
        base.join(rest).depth() == base.depth() + rest.depth(),
{
    let p = base.join(rest);
    assert(p.comps =~= base.comps + rest.comps);
    assert(base.comps.is_prefix_of(p.comps)) by {
        assert(base.comps =~= p.comps.subrange(0, base.comps.len() as int));
    }
    assert(p.comps.skip(base.comps.len() as int) =~= rest.comps);
}

/// A path that starts with another is that one and what is left of it.
pub proof fn prefixes_go_back_on(p: PathView, base: PathView)
    requires
        p.valid(),
        base.depth() > 0,
    ensures
        p.strip_prefix(base) is Some <==> p.starts_with(base),
        p.strip_prefix(base) matches Some(rest) ==> base.join(rest) == p && rest.depth() + base.depth()
            == p.depth(),
        p.absolute ==> base.join(p) == p,
{
    if let Some(rest) = p.strip_prefix(base) {
        assert(base.comps.is_prefix_of(p.comps));
        assert(rest.comps.len() > 0 && base.comps.len() > 0 ==> rest.comps[0] == p.comps[base.comps.len() as int]);
        if rest.comps.len() > 0 && rest.comps[0] == here() {
            assert(p.comps[base.comps.len() as int] == here());
        }
        assert(base.comps + rest.comps =~= p.comps);
        assert(base.join(rest).comps =~= p.comps);
    }
}

proof fn lemma_pieces_joined(a: Seq<u8>, b: Seq<u8>)
    ensures
        pieces(a.push(SEPARATOR) + b) == pieces(a) + pieces(b),
    decreases b.len(),
{
    let all = a.push(SEPARATOR) + b;
    lemma_pieces(b);
    if b.len() == 0 {
        assert(all =~= a.push(SEPARATOR));
        assert(a.push(SEPARATOR).drop_last() =~= a);
        assert(pieces(a).push(Seq::empty()) =~= pieces(a) + pieces(b));
    } else {
        let d = b.drop_last();
        lemma_pieces(d);
        lemma_pieces_joined(a, d);
        assert(all.drop_last() =~= a.push(SEPARATOR) + d);
        assert(all.last() == b.last());
        let before = pieces(a) + pieces(d);
        if b.last() == SEPARATOR {
            assert(before.push(Seq::empty()) =~= pieces(a) + pieces(b));
        } else {
            assert(before.last() == pieces(d).last());
            assert(before.drop_last().push(before.last().push(b.last())) =~= pieces(a) + pieces(b));
        }
    }
}

proof fn lemma_kept_joined(a: Seq<Seq<u8>>, b: Seq<Seq<u8>>)
    requires
        a.len() > 0,
        b.len() > 0,
    ensures
        kept(a + b) == kept(a) + if b[0] == here() {
            kept(b).skip(1)
        } else {
            kept(b)
        },
        b[0] == here() ==> kept(b).len() > 0 && kept(b)[0] == here(),
        b[0] != here() ==> kept(b).len() > 0 ==> kept(b)[0] != here(),
    decreases b.len(),
{
    let d = b.drop_last();
    assert((a + b).drop_last() =~= a + d);
    assert((a + b).last() == b.last());
    if d.len() == 0 {
        assert(a + d =~= a);
        assert(kept(d) =~= Seq::empty());
        if b[0] == here() {
            assert(kept(b) =~= seq![here()]);
            assert(kept(a + b) =~= kept(a) + kept(b).skip(1));
        } else {
            assert(kept(a + b) =~= kept(a) + kept(b));
        }
    } else {
        lemma_kept_joined(a, d);
        assert(d[0] == b[0]);
        if b[0] == here() {
            assert(kept(a + b) =~= kept(a) + kept(b).skip(1));
        } else {
            assert(kept(a + b) =~= kept(a) + kept(b));
        }
    }
}

/// Bytes with a separator between them spell one path joined to another.
pub proof fn separators_join(a: Seq<u8>, b: Seq<u8>)
    requires
        parse_path(a).depth() > 0,
        !parse_path(b).absolute,
    ensures
        parse_path(a.push(SEPARATOR) + b) == parse_path(a).join(parse_path(b)),
        a.len() > 0,
{
    if a.len() == 0 {
        assert(pieces(a) =~= seq![Seq::empty()]);
        assert(pieces(a).drop_last() =~= Seq::empty());
        assert(kept(pieces(a).drop_last()) =~= Seq::empty());
        assert(kept(pieces(a)) =~= Seq::empty());
    }
    lemma_pieces(a);
    lemma_pieces(b);
    lemma_pieces_joined(a, b);
    lemma_kept_joined(pieces(a), pieces(b));
    let all = a.push(SEPARATOR) + b;
    assert(all[0] == a[0]);
    assert(parse_path(all).comps =~= parse_path(a).comps + without_here(parse_path(b).comps));
}

/// A separator at the end of a path, or one more of them, says nothing.
pub proof fn more_separators_say_nothing(a: Seq<u8>, b: Seq<u8>)
    requires
        parse_path(a).depth() > 0,
        !parse_path(b).absolute,
    ensures
        parse_path(a.push(SEPARATOR)) == parse_path(a),
        parse_path(a.push(SEPARATOR).push(SEPARATOR) + b) == parse_path(a.push(SEPARATOR) + b),
        parse_path(a.push(SEPARATOR).push(DOT).push(SEPARATOR) + b) == parse_path(a.push(SEPARATOR) + b),
{
    let none = Seq::<u8>::empty();
    assert(pieces(none).drop_last() =~= Seq::empty());
    assert(kept(pieces(none).drop_last()) =~= Seq::empty());
    assert(parse_path(none).comps =~= Seq::empty());
    separators_join(a, none);
    assert(a.push(SEPARATOR) + none =~= a.push(SEPARATOR));
    assert(parse_path(a).join(parse_path(none)).comps =~= parse_path(a).comps);
    assert(parse_path(a.push(SEPARATOR)) == parse_path(a));
    separators_join(a, b);
    separators_join(a.push(SEPARATOR), b);
    let dot = seq![DOT];
    assert(dot.drop_last() =~= none);
    assert(pieces(dot) =~= seq![dot]);
    assert(pieces(dot).drop_last() =~= Seq::empty());
    assert(kept(pieces(dot).drop_last()) =~= Seq::empty());
    assert(kept(pieces(dot)) =~= seq![here()]);
    separators_join(a, dot);
    assert(a.push(SEPARATOR) + dot =~= a.push(SEPARATOR).push(DOT));
    assert(without_here(seq![here()]) =~= Seq::empty());
    assert(parse_path(a).join(parse_path(dot)).comps =~= parse_path(a).comps);
    separators_join(a.push(SEPARATOR).push(DOT), b);
}

} // verus!
