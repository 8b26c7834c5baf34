//! Unix paths as the bytes they are, taken apart into components.

use crate::bytes;
use crate::sort::Ordered;
use vstd::prelude::*;

verus! {

/// A path: any bytes, with `/` between names.
#[derive(Debug, PartialEq, Eq)]
pub struct UnixPath {
    pub bytes: Vec<u8>,
}

impl View for UnixPath {
    type V = Seq<u8>;

    open spec fn view(&self) -> Seq<u8> {
        self.bytes@
    }
}

/// A component of a path.
#[derive(Debug, PartialEq, Eq)]
pub enum Component {
    /// The root, in front of an absolute path.
    Root,
    /// A `.` that a relative path begins with.
    Current,
    /// A `..`.
    Parent,
    Name(Vec<u8>),
}

/// What a component is.
pub enum Part {
    Root,
    Current,
    Parent,
    Name(Seq<u8>),
}

impl View for Component {
    type V = Part;

    open spec fn view(&self) -> Part {
        match self {
            Component::Root => Part::Root,
            Component::Current => Part::Current,
            Component::Parent => Part::Parent,
            Component::Name(name) => Part::Name(name@),
        }
    }
}

/// `/`.
pub const SLASH: u8 = 47;

/// `.`.
pub const DOT: u8 = 46;

/// The pieces between the slashes of `s`.
pub open spec fn pieces(s: Seq<u8>) -> Seq<Seq<u8>>
    decreases s.len(),
{
    let at = bytes::position(s, SLASH);
    if 0 <= at < s.len() {
        seq![s.take(at)] + pieces(s.skip(at + 1))
    } else {
        seq![s]
    }
}

/// What a piece names; nothing where it is empty or a `.`.
pub open spec fn part_of(piece: Seq<u8>) -> Seq<Part> {
    if piece.len() == 0 || piece == seq![DOT] {
        Seq::empty()
    } else if piece == seq![DOT, DOT] {
        seq![Part::Parent]
    } else {
        seq![Part::Name(piece)]
    }
}

/// What the pieces name.
pub open spec fn parts_of(pieces: Seq<Seq<u8>>) -> Seq<Part>
    decreases pieces.len(),
{
    if pieces.len() == 0 {
        Seq::empty()
    } else {
        part_of(pieces[0]) + parts_of(pieces.drop_first())
    }
}

/// The components of a path: repeated slashes, a trailing one and every `.`
/// but a leading one count for nothing.
pub open spec fn components(s: Seq<u8>) -> Seq<Part> {
    let first = if s.len() > 0 && s[0] == SLASH {
        seq![Part::Root]
    } else if pieces(s)[0] == seq![DOT] {
        seq![Part::Current]
    } else {
        Seq::<Part>::empty()
    };
    first + parts_of(pieces(s))
}

/// The views of a list of components.
pub open spec fn parts(v: Seq<Component>) -> Seq<Part> {
    Seq::new(v.len(), |i: int| v[i]@)
}

/// Whether a path begins at the root.
pub open spec fn is_absolute(s: Seq<u8>) -> bool {
    s.len() > 0 && s[0] == SLASH
}

/// Whether a `..` occurs in the path.
pub open spec fn climbs(s: Seq<u8>) -> bool {
    components(s).contains(Part::Parent)
}

/// Whether the path is made of names and `.` alone: it cannot name anything
/// outside the directory it is taken in.
pub open spec fn is_plain(s: Seq<u8>) -> bool {
    forall|i: int|
        0 <= i < components(s).len() ==> (#[trigger] components(s)[i]) is Name || components(
            s,
        )[i] is Current
}

/// `rest` taken in the directory `base`.
pub open spec fn joined(base: Seq<u8>, rest: Seq<u8>) -> Seq<u8> {
    if is_absolute(rest) {
        rest
    } else if base.len() == 0 || base.last() == SLASH {
        base + rest
    } else {
        base.push(SLASH) + rest
    }
}

/// Whether the path is `base` or lies below it, component by component.
pub open spec fn is_within(s: Seq<u8>, base: Seq<u8>) -> bool {
    components(base).is_prefix_of(components(s))
}

/// The name a path ends with.
pub open spec fn file_name(s: Seq<u8>) -> Option<Seq<u8>> {
    let all = components(s);
    if all.len() > 0 && all.last() is Name {
        Some(all.last()->Name_0)
    } else {
        None
    }
}

/// The order of the kinds of component.
pub open spec fn rank(part: Part) -> int {
    match part {
        Part::Root => 0,
        Part::Current => 1,
        Part::Parent => 2,
        Part::Name(_) => 3,
    }
}

/// The order of components.
pub open spec fn part_less(a: Part, b: Part) -> bool {
    match (a, b) {
        (Part::Name(a), Part::Name(b)) => bytes::less(a, b),
        _ => rank(a) < rank(b),
    }
}

/// The order of component lists: by the first component in which they differ.
pub open spec fn parts_less(a: Seq<Part>, b: Seq<Part>) -> bool
    decreases b.len(),
{
    if b.len() == 0 {
        false
    } else if a.len() == 0 {
        true
    } else if a[0] != b[0] {
        part_less(a[0], b[0])
    } else {
        parts_less(a.drop_first(), b.drop_first())
    }
}

/// The order of paths.
pub open spec fn path_less(a: Seq<u8>, b: Seq<u8>) -> bool {
    parts_less(components(a), components(b))
}

proof fn lemma_part_less_transitive(a: Part, b: Part, c: Part)
    requires
        part_less(a, b),
        part_less(b, c),
    ensures
        part_less(a, c),
{
    if let (Part::Name(a), Part::Name(b)) = (a, b) {
        if let Part::Name(c) = c {
            bytes::lemma_less_transitive(a, b, c);
        }
    }
}

proof fn lemma_part_less_strict(a: Part, b: Part)
    requires
        part_less(a, b),
    ensures
        a != b,
        !part_less(b, a),
{
    if let (Part::Name(a), Part::Name(b)) = (a, b) {
        if bytes::less(b, a) {
            bytes::lemma_less_transitive(a, b, a);
        }
        bytes::lemma_less_irreflexive(a);
    }
}

/// The order of component lists is transitive.
pub proof fn lemma_parts_less_transitive(a: Seq<Part>, b: Seq<Part>, c: Seq<Part>)
    requires
        parts_less(a, b),
        parts_less(b, c),
    ensures
        parts_less(a, c),
    decreases c.len(),
{
    if a.len() > 0 {
        if a[0] == b[0] {
            if b[0] == c[0] {
                lemma_parts_less_transitive(a.drop_first(), b.drop_first(), c.drop_first());
            }
        } else {
            lemma_part_less_strict(a[0], b[0]);
            if b[0] != c[0] {
                lemma_part_less_transitive(a[0], b[0], c[0]);
                lemma_part_less_strict(a[0], c[0]);
            }
        }
    }
}

/// The order of component lists is strict.
pub proof fn lemma_parts_less_irreflexive(a: Seq<Part>)
    ensures
        !parts_less(a, a),
    decreases a.len(),
{
    if a.len() > 0 {
        lemma_parts_less_irreflexive(a.drop_first());
    }
}

impl Ordered for UnixPath {
    open spec fn precedes(self, other: Self) -> bool {
        path_less(self@, other@)
    }

    proof fn lemma_irreflexive(a: Self) {
        lemma_parts_less_irreflexive(components(a@));
    }

    proof fn lemma_transitive(a: Self, b: Self, c: Self) {
        lemma_parts_less_transitive(
            components(a@),
            components(b@),
            components(c@),
        );
    }

    fn comes_before(&self, other: &Self) -> (r: bool) {
        self.is_before(other)
    }
}

/// The views of a list of paths.
pub open spec fn path_views(v: Seq<UnixPath>) -> Seq<Seq<u8>> {
    Seq::new(v.len(), |i: int| v[i]@)
}

impl Clone for UnixPath {
    fn clone(&self) -> (r: Self)
        ensures
            r@ == self@,
    {
        UnixPath { bytes: bytes::copied(&self.bytes) }
    }
}

/// What `String::from_utf8_lossy` makes of bytes: they are decoded as UTF-8,
/// and what is not UTF-8 in them is replaced.
pub uninterp spec fn lossy(bytes: Seq<u8>) -> Seq<char>;

/// `String::from_utf8_lossy` of std: the text is [`lossy`] of the bytes, and
/// valid UTF-8 is decoded as it is.
#[verifier::external_body]
pub(crate) fn lossy_text(bytes: &[u8]) -> (r: String)
    ensures
        r@ == lossy(bytes@),
        vstd::utf8::valid_utf8(bytes@) ==> r@ == vstd::utf8::decode_utf8(bytes@),
{
    String::from_utf8_lossy(bytes).into_owned()
}

/// `String::from_utf8` of std: the text the bytes encode, where they are
/// valid UTF-8.
#[verifier::external_body]
fn utf8_text(bytes: Vec<u8>) -> (r: Option<String>)
    ensures
        r is Some <==> vstd::utf8::valid_utf8(bytes@),
        r is Some ==> (r->0)@ == vstd::utf8::decode_utf8(bytes@),
{
    String::from_utf8(bytes).ok()
}

impl UnixPath {
    /// The name the path ends with as text, where it is valid UTF-8.
    pub fn file_text(&self) -> (r: Option<String>)
        ensures
            match file_name(self@) {
                Some(name) => if vstd::utf8::valid_utf8(name) {
                    r is Some && (r->0)@ == vstd::utf8::decode_utf8(name)
                } else {
                    r is None
                },
                None => r is None,
            },
    {
        match self.file_name() {
            Some(name) => utf8_text(name),
            None => None,
        }
    }

    /// The path as text to show: what is not UTF-8 in it is replaced.
    pub fn display(&self) -> (r: String)
        ensures
            r@ == lossy(self@),
            vstd::utf8::valid_utf8(self@) ==> r@ == vstd::utf8::decode_utf8(self@),
    {
        lossy_text(&self.bytes)
    }

    /// The path made of these bytes.
    pub fn new(bytes: Vec<u8>) -> (r: Self)
        ensures
            r@ == bytes@,
    {
        UnixPath { bytes }
    }

    /// The path that `s` spells.
    pub fn from_text(s: &str) -> (r: Self)
        ensures
            r@ == vstd::utf8::encode_utf8(s@),
    {
        UnixPath { bytes: s.as_bytes_vec() }
    }

    /// The components of the path.
    pub fn components(&self) -> (r: Vec<Component>)
        ensures
            parts(r@) == components(self@),
    {
        let s: &Vec<u8> = &self.bytes;
        let mut r: Vec<Component> = Vec::new();
        let ghost all = pieces(s@);
        let first: usize = bytes::find_from(s, 0, SLASH);
        proof {
            assert(s@.skip(0) =~= s@);
        }
        if s.len() > 0 && s[0] == SLASH {
            r.push(Component::Root);
        } else if first == 1 && s[0] == DOT {
            r.push(Component::Current);
            proof {
                assert(all[0] =~= seq![DOT]);
            }
        } else {
            proof {
                assert(all[0] != seq![DOT]) by {
                    assert(all[0] =~= s@.take(first as int));
                    if all[0] == seq![DOT] {
                        assert(all[0].len() == 1);
                        assert(all[0][0] == s@[0]);
                    }
                }
            }
        }
        let len: usize = s.len();
        let mut from: usize = 0;
        let mut more: bool = true;
        proof {
            assert(parts(r@) + parts_of(all) == components(s@));
        }
        while more
            invariant
                s@ == self@,
                len == s@.len(),
                from <= s@.len(),
                more ==> parts(r@) + parts_of(pieces(s@.skip(from as int))) == components(s@),
                !more ==> parts(r@) == components(s@),
            decreases s@.len() - from + if more {
                1int
            } else {
                0
            },
        {
            let ghost left = s@.skip(from as int);
            let ghost before = parts(r@);
            let at: usize = bytes::find_from(s, from, SLASH);
            let piece = &s.as_slice()[from..from + at];
            let ghost rest = if at < left.len() {
                pieces(left.skip(at + 1))
            } else {
                Seq::<Seq<u8>>::empty()
            };
            proof {
                assert(piece@ =~= left.take(at as int));
                if at < left.len() {
                    assert(pieces(left) == seq![left.take(at as int)] + rest);
                } else {
                    assert(left.take(at as int) =~= left);
                    assert(pieces(left) == seq![left] + rest) by {
                        assert(seq![left] + rest =~= seq![left]);
                    }
                }
                assert((seq![piece@] + rest).drop_first() =~= rest);
                assert(parts_of(pieces(left)) == part_of(piece@) + parts_of(rest));
            }
            if piece.len() == 0 || (piece.len() == 1 && piece[0] == DOT) {
                proof {
                    if piece@.len() == 1 {
                        assert(piece@ =~= seq![DOT]);
                    }
                    assert(part_of(piece@) =~= Seq::<Part>::empty());
                    assert(parts(r@) =~= before + part_of(piece@));
                }
            } else if piece.len() == 2 && piece[0] == DOT && piece[1] == DOT {
                r.push(Component::Parent);
                proof {
                    assert(piece@ =~= seq![DOT, DOT]);
                    assert(parts(r@) =~= before + part_of(piece@));
                }
            } else {
                r.push(Component::Name(bytes::copied(piece)));
                proof {
                    assert(piece@ != seq![DOT]) by {
                        if piece@ == seq![DOT] {
                            assert(piece@.len() == 1 && piece@[0] == DOT);
                        }
                    }
                    assert(piece@ != seq![DOT, DOT]) by {
                        if piece@ == seq![DOT, DOT] {
                            assert(piece@.len() == 2 && piece@[0] == DOT && piece@[1] == DOT);
                        }
                    }
                    assert(parts(r@) =~= before + part_of(piece@));
                }
            }
            proof {
                assert(before + (part_of(piece@) + parts_of(rest)) =~= (before + part_of(piece@))
                    + parts_of(rest));
            }
            if from + at < s.len() {
                proof {
                    assert(left.skip(at + 1) =~= s@.skip(from + at + 1));
                }
                from = from + at + 1;
            } else {
                proof {
                    assert(parts(r@) + parts_of(rest) =~= parts(r@));
                }
                more = false;
            }
        }
        r
    }

    /// Whether the path begins at the root.
    pub fn is_absolute(&self) -> (r: bool)
        ensures
            r == is_absolute(self@),
    {
        self.bytes.len() > 0 && self.bytes[0] == SLASH
    }

    /// Whether a `..` occurs in the path.
    pub fn climbs(&self) -> (r: bool)
        ensures
            r == climbs(self@),
    {
        let all = self.components();
        let mut i: usize = 0;
        while i < all.len()
            invariant
                i <= all@.len(),
                parts(all@) == components(self@),
                forall|j: int| 0 <= j < i ==> (#[trigger] parts(all@)[j]) != Part::Parent,
            decreases all@.len() - i,
        {
            if let Component::Parent = &all[i] {
                proof {
                    assert(parts(all@)[i as int] == Part::Parent);
                }
                return true;
            }
            i = i + 1;
        }
        false
    }

    /// Whether the path is made of names and `.` alone.
    pub fn is_plain(&self) -> (r: bool)
        ensures
            r == is_plain(self@),
    {
        let all = self.components();
        let mut i: usize = 0;
        while i < all.len()
            invariant
                i <= all@.len(),
                parts(all@) == components(self@),
                forall|j: int|
                    0 <= j < i ==> (#[trigger] components(self@)[j]) is Name || components(
                        self@,
                    )[j] is Current,
            decreases all@.len() - i,
        {
            proof {
                assert(parts(all@)[i as int] == all@[i as int]@);
            }
            match &all[i] {
                Component::Root => {
                    return false;
                },
                Component::Parent => {
                    return false;
                },
                Component::Current => {},
                Component::Name(_) => {},
            }
            i = i + 1;
        }
        true
    }

    /// `rest` taken in this directory.
    pub fn join(&self, rest: &UnixPath) -> (r: UnixPath)
        ensures
            r@ == joined(self@, rest@),
    {
        if rest.is_absolute() {
            return rest.clone();
        }
        let mut bytes = bytes::copied(&self.bytes);
        if bytes.len() > 0 && bytes[bytes.len() - 1] != SLASH {
            bytes.push(SLASH);
        }
        bytes.extend_from_slice(&rest.bytes);
        proof {
            assert(bytes@ =~= joined(self@, rest@));
        }
        UnixPath { bytes }
    }

    /// Whether the path is `base` or lies below it.
    pub fn is_within(&self, base: &UnixPath) -> (r: bool)
        ensures
            r == is_within(self@, base@),
    {
        let all = self.components();
        let wanted = base.components();
        if all.len() < wanted.len() {
            return false;
        }
        let mut i: usize = 0;
        while i < wanted.len()
            invariant
                i <= wanted@.len() <= all@.len(),
                parts(all@) == components(self@),
                parts(wanted@) == components(base@),
                forall|j: int| 0 <= j < i ==> parts(wanted@)[j] == parts(all@)[j],
            decreases wanted@.len() - i,
        {
            if !same_component(&wanted[i], &all[i]) {
                proof {
                    assert(parts(wanted@)[i as int] != parts(all@)[i as int]);
                    assert(components(self@).subrange(0, wanted@.len() as int)[i as int] == parts(
                        all@,
                    )[i as int]);
                }
                return false;
            }
            i = i + 1;
        }
        proof {
            assert(parts(wanted@) =~= parts(all@).subrange(0, wanted@.len() as int));
        }
        true
    }

    /// The name the path ends with.
    pub fn file_name(&self) -> (r: Option<Vec<u8>>)
        ensures
            match file_name(self@) {
                Some(name) => r is Some && (r->0)@ == name,
                None => r is None,
            },
    {
        let mut all = self.components();
        let ghost whole = all@;
        match all.pop() {
            Some(last) => {
                proof {
                    assert(parts(whole).last() == last@);
                }
                match last {
                    Component::Name(name) => Some(name),
                    _ => None,
                }
            },
            None => None,
        }
    }

    /// Whether this path comes before `other`.
    pub fn is_before(&self, other: &UnixPath) -> (r: bool)
        ensures
            r == path_less(self@, other@),
    {
        let a = self.components();
        let b = other.components();
        let ghost left = parts(a@);
        let ghost right = parts(b@);
        let mut i: usize = 0;
        proof {
            assert(left.skip(0) =~= left);
            assert(right.skip(0) =~= right);
        }
        while i < a.len() && i < b.len()
            invariant
                i <= a@.len(),
                i <= b@.len(),
                left == parts(a@),
                right == parts(b@),
                left == components(self@),
                right == components(other@),
                parts_less(left, right) == parts_less(left.skip(i as int), right.skip(i as int)),
            decreases a@.len() - i,
        {
            proof {
                assert(left.skip(i as int)[0] == a@[i as int]@);
                assert(right.skip(i as int)[0] == b@[i as int]@);
                assert(left.skip(i as int).drop_first() =~= left.skip(i + 1));
                assert(right.skip(i as int).drop_first() =~= right.skip(i + 1));
            }
            if !same_component(&a[i], &b[i]) {
                return component_is_before(&a[i], &b[i]);
            }
            i = i + 1;
        }
        i < b.len()
    }

    /// Whether the two paths have the same components.
    pub fn is_same(&self, other: &UnixPath) -> (r: bool)
        ensures
            r == (components(self@) == components(other@)),
    {
        let a = self.components();
        let b = other.components();
        if a.len() != b.len() {
            assert(parts(a@).len() != parts(b@).len());
            return false;
        }
        let mut i: usize = 0;
        while i < a.len()
            invariant
                i <= a@.len() == b@.len(),
                parts(a@) == components(self@),
                parts(b@) == components(other@),
                forall|j: int| 0 <= j < i ==> parts(a@)[j] == parts(b@)[j],
            decreases a@.len() - i,
        {
            if !same_component(&a[i], &b[i]) {
                proof {
                    assert(parts(a@)[i as int] != parts(b@)[i as int]);
                }
                return false;
            }
            i = i + 1;
        }
        proof {
            assert(parts(a@) =~= parts(b@));
        }
        true
    }
}

fn same_component(a: &Component, b: &Component) -> (r: bool)
    ensures
        r == (a@ == b@),
{
    match (a, b) {
        (Component::Root, Component::Root) => true,
        (Component::Current, Component::Current) => true,
        (Component::Parent, Component::Parent) => true,
        (Component::Name(a), Component::Name(b)) => bytes::is_same(a, b),
        _ => false,
    }
}

fn rank_of(component: &Component) -> (r: u8)
    ensures
        r == rank(component@),
{
    match component {
        Component::Root => 0,
        Component::Current => 1,
        Component::Parent => 2,
        Component::Name(_) => 3,
    }
}

fn component_is_before(a: &Component, b: &Component) -> (r: bool)
    ensures
        r == part_less(a@, b@),
{
    match (a, b) {
        (Component::Name(a), Component::Name(b)) => bytes::is_less(a, b),
        _ => rank_of(a) < rank_of(b),
    }
}

proof fn lemma_position_before_slash(a: Seq<u8>, b: Seq<u8>)
    ensures
        bytes::position(a.push(SLASH) + b, SLASH) == bytes::position(a, SLASH),
        0 <= bytes::position(a, SLASH) <= a.len(),
    decreases a.len(),
{
    let s = a.push(SLASH) + b;
    if a.len() > 0 {
        assert(s[0] == a[0]);
        assert(s.drop_first() =~= a.drop_first().push(SLASH) + b);
        lemma_position_before_slash(a.drop_first(), b);
    } else {
        assert(s[0] == SLASH);
    }
}

proof fn lemma_pieces_join(a: Seq<u8>, b: Seq<u8>)
    ensures
        pieces(a.push(SLASH) + b) == pieces(a) + pieces(b),
        pieces(a).len() > 0,
    decreases a.len(),
{
    let s = a.push(SLASH) + b;
    let at = bytes::position(a, SLASH);
    lemma_position_before_slash(a, b);
    if at < a.len() {
        let rest = a.skip(at + 1);
        lemma_pieces_join(rest, b);
        assert(s.take(at) =~= a.take(at));
        assert(s.skip(at + 1) =~= rest.push(SLASH) + b);
        assert(seq![a.take(at)] + (pieces(rest) + pieces(b)) =~= (seq![a.take(at)] + pieces(rest))
            + pieces(b));
    } else {
        assert(s.take(at) =~= a);
        assert(s.skip(at + 1) =~= b);
    }
}

proof fn lemma_parts_join(p: Seq<Seq<u8>>, q: Seq<Seq<u8>>)
    ensures
        parts_of(p + q) == parts_of(p) + parts_of(q),
    decreases p.len(),
{
    if p.len() > 0 {
        lemma_parts_join(p.drop_first(), q);
        assert((p + q).drop_first() =~= p.drop_first() + q);
        assert(part_of(p[0]) + (parts_of(p.drop_first()) + parts_of(q)) =~= (part_of(p[0])
            + parts_of(p.drop_first())) + parts_of(q));
    } else {
        assert(p + q =~= q);
        assert(parts_of(p) + parts_of(q) =~= parts_of(q));
    }
}

/// A plain path taken in a directory names that directory or something below
/// it.
pub proof fn law_plain_paths_stay_below(base: Seq<u8>, rest: Seq<u8>)
    requires
        base.len() > 0,
        is_plain(rest),
    ensures
        is_within(joined(base, rest), base),
{
    if is_absolute(rest) {
        assert(components(rest)[0] == Part::Root);
    }
    let whole = joined(base, rest);
    let a = if base.last() == SLASH {
        base.drop_last()
    } else {
        base
    };
    assert(whole =~= a.push(SLASH) + rest);
    lemma_pieces_join(a, rest);
    lemma_parts_join(pieces(a), pieces(rest));
    if base.last() == SLASH {
        let nothing = Seq::<u8>::empty();
        assert(base =~= a.push(SLASH) + nothing);
        lemma_pieces_join(a, nothing);
        lemma_parts_join(pieces(a), pieces(nothing));
        assert(pieces(nothing) =~= seq![nothing]);
        assert(parts_of(seq![nothing]) =~= Seq::<Part>::empty()) by {
            assert(parts_of(seq![nothing].drop_first()) =~= Seq::<Part>::empty());
        }
        assert(parts_of(pieces(base)) =~= parts_of(pieces(a)));
        assert(pieces(base)[0] == pieces(a)[0]);
    }
    assert(pieces(whole)[0] == pieces(a)[0]);
    assert(whole[0] == base[0]);
    assert(components(whole) =~= components(base) + parts_of(pieces(rest)));
    assert(components(base) =~= components(whole).subrange(0, components(base).len() as int));
}

/// Whether bytes are the name of one entry of a directory.
pub open spec fn is_name(name: Seq<u8>) -> bool {
    &&& name.len() > 0
    &&& !name.contains(47)
    &&& name != seq![46u8]
    &&& name != seq![46u8, 46u8]
}

proof fn lemma_no_slash(s: Seq<u8>)
    requires
        !s.contains(47),
    ensures
        bytes::position(s, SLASH) == s.len(),
    decreases s.len(),
{
    if s.len() > 0 {
        assert(s.contains(s[0]));
        let rest = s.drop_first();
        assert forall|i: int| 0 <= i < rest.len() implies rest[i] != 47 by {
            assert(s.contains(s[i + 1]));
        }
        lemma_no_slash(rest);
    }
}

/// The components of a path in a directory are those of the directory and what
/// the path adds.
proof fn lemma_joined_parts(base: Seq<u8>, rest: Seq<u8>)
    requires
        base.len() > 0,
        !is_absolute(rest),
    ensures
        components(joined(base, rest)) == components(base) + parts_of(pieces(rest)),
{
    let whole = joined(base, rest);
    let a = if base.last() == SLASH {
        base.drop_last()
    } else {
        base
    };
    assert(whole =~= a.push(SLASH) + rest);
    lemma_pieces_join(a, rest);
    lemma_parts_join(pieces(a), pieces(rest));
    if base.last() == SLASH {
        let nothing = Seq::<u8>::empty();
        assert(base =~= a.push(SLASH) + nothing);
        lemma_pieces_join(a, nothing);
        lemma_parts_join(pieces(a), pieces(nothing));
        assert(pieces(nothing) =~= seq![nothing]);
        assert(parts_of(seq![nothing]) =~= Seq::<Part>::empty()) by {
            assert(parts_of(seq![nothing].drop_first()) =~= Seq::<Part>::empty());
        }
        assert(parts_of(pieces(base)) =~= parts_of(pieces(a)));
        assert(pieces(base)[0] == pieces(a)[0]);
    }
    assert(pieces(whole)[0] == pieces(a)[0]);
    assert(whole[0] == base[0]);
    assert(components(whole) =~= components(base) + parts_of(pieces(rest)));
}

proof fn lemma_one_piece(piece: Seq<u8>)
    requires
        !piece.contains(47),
    ensures
        pieces(piece) == seq![piece],
        parts_of(pieces(piece)) == part_of(piece),
{
    lemma_no_slash(piece);
    assert(parts_of(seq![piece].drop_first()) =~= Seq::<Part>::empty());
    assert(part_of(piece) + Seq::<Part>::empty() =~= part_of(piece));
}

/// A path taken in a directory: an absolute one is itself; another stands
/// behind the directory, parted from it by a slash.
pub proof fn law_a_path_is_taken_in_a_directory(base: Seq<u8>, rest: Seq<u8>)
    ensures
        rest.len() > 0 && rest[0] == 47 ==> joined(base, rest) == rest,
        !(rest.len() > 0 && rest[0] == 47) ==> {
            let whole = joined(base, rest);
            &&& base.is_prefix_of(whole)
            &&& whole.skip(whole.len() - rest.len()) == rest
            &&& base.len() > 0 ==> whole[whole.len() - rest.len() - 1] == 47
            &&& base.len() > 0 ==> whole.len() <= base.len() + 1 + rest.len()
            &&& base.len() == 0 ==> whole == rest
        },
{
    let whole = joined(base, rest);
    if !is_absolute(rest) {
        assert(whole.skip(whole.len() - rest.len()) =~= rest);
        assert(base =~= whole.subrange(0, base.len() as int));
        if base.len() == 0 {
            assert(whole =~= rest);
        }
    }
}

/// The path of an entry of a directory has the directory's components and then
/// the entry's name. It is below the directory, not below any other entry of
/// it, and its file name is the entry's.
pub proof fn law_an_entry_stands_below_its_directory(
    base: Seq<u8>,
    name: Seq<u8>,
    other: Seq<u8>,
)
    requires
        base.len() > 0,
        is_name(name),
        is_name(other),
    ensures
        components(joined(base, name)) == components(base).push(Part::Name(name)),
        is_within(joined(base, name), base),
        !is_within(base, joined(base, name)),
        is_within(joined(base, name), joined(base, other)) <==> name == other,
        file_name(joined(base, name)) == Some(name),
        path_less(base, joined(base, name)),
        name != other ==> (path_less(joined(base, name), joined(base, other)) <==> bytes::less(
            name,
            other,
        )),
{
    lemma_entry_parts(base, name);
    lemma_entry_parts(base, other);
    let dir = components(base);
    let a = components(joined(base, name));
    let b = components(joined(base, other));
    assert(dir =~= a.subrange(0, dir.len() as int));
    if b.is_prefix_of(a) {
        assert(b[dir.len() as int] == a[dir.len() as int]);
    }
    lemma_less_behind(dir, Seq::<Part>::empty(), seq![Part::Name(name)]);
    assert(dir + Seq::<Part>::empty() =~= dir);
    assert(dir + seq![Part::Name(name)] =~= a);
    assert(dir + seq![Part::Name(other)] =~= b);
    lemma_less_behind(dir, seq![Part::Name(name)], seq![Part::Name(other)]);
}

proof fn lemma_entry_parts(base: Seq<u8>, name: Seq<u8>)
    requires
        base.len() > 0,
        is_name(name),
    ensures
        components(joined(base, name)) == components(base).push(Part::Name(name)),
{
    assert(name.contains(name[0]));
    lemma_joined_parts(base, name);
    lemma_one_piece(name);
    assert(components(base) + seq![Part::Name(name)] =~= components(base).push(Part::Name(name)));
}

/// What is common in front does not decide an order.
proof fn lemma_less_behind(front: Seq<Part>, a: Seq<Part>, b: Seq<Part>)
    ensures
        parts_less(front + a, front + b) == parts_less(a, b),
    decreases front.len(),
{
    if front.len() > 0 {
        let rest = front.drop_first();
        lemma_less_behind(rest, a, b);
        assert((front + a).drop_first() =~= rest + a);
        assert((front + b).drop_first() =~= rest + b);
        if b.len() == 0 && rest.len() == 0 {
            assert((front + b)[0] == front[0]);
        }
    } else {
        assert(front + a =~= a);
        assert(front + b =~= b);
    }
}

/// A path begins at the root, or where it is taken: a leading slash makes it
/// absolute, a name stands for itself, two dots lead up, and neither a dot nor
/// an empty piece counts behind the start.
pub proof fn law_components_are_what_slashes_part(base: Seq<u8>, name: Seq<u8>)
    requires
        is_name(name),
    ensures
        components(name) == seq![Part::Name(name)],
        components(seq![47u8]) == seq![Part::Root],
        components(seq![46u8]) == seq![Part::Current],
        components(seq![46u8, 46u8]) == seq![Part::Parent],
        components(Seq::empty()) == Seq::<Part>::empty(),
        base.len() > 0 ==> components(joined(base, seq![46u8, 46u8])) == components(base).push(
            Part::Parent,
        ),
        base.len() > 0 ==> components(joined(base, seq![46u8])) == components(base),
        base.len() > 0 ==> components(joined(base, Seq::empty())) == components(base),
        is_absolute(base) <==> components(base).len() > 0 && components(base)[0] == Part::Root,
        climbs(seq![46u8, 46u8]),
        base.len() > 0 ==> climbs(joined(base, seq![46u8, 46u8])),
        !climbs(name),
{
    assert(name.contains(name[0]));
    lemma_one_piece(name);
    assert(components(name) =~= seq![Part::Name(name)]);
    let root = seq![47u8];
    let nothing = Seq::<u8>::empty();
    assert(root =~= nothing.push(SLASH) + nothing);
    lemma_pieces_join(nothing, nothing);
    lemma_one_piece(nothing);
    lemma_parts_join(pieces(nothing), pieces(nothing));
    assert(components(root) =~= seq![Part::Root]);
    let dot = seq![46u8];
    let up = seq![46u8, 46u8];
    assert(!dot.contains(47)) by {
        assert forall|i: int| 0 <= i < dot.len() implies dot[i] != 47 by {}
    }
    assert(!up.contains(47)) by {
        assert forall|i: int| 0 <= i < up.len() implies up[i] != 47 by {}
    }
    lemma_one_piece(dot);
    lemma_one_piece(up);
    assert(up.len() != dot.len());
    assert(components(dot) =~= seq![Part::Current]);
    assert(components(up) =~= seq![Part::Parent]);
    assert(components(nothing) =~= Seq::<Part>::empty());
    if base.len() > 0 {
        lemma_joined_parts(base, up);
        lemma_joined_parts(base, dot);
        lemma_joined_parts(base, nothing);
        assert(components(base) + seq![Part::Parent] =~= components(base).push(Part::Parent));
        assert(components(base) + Seq::<Part>::empty() =~= components(base));
        let led = components(base).push(Part::Parent);
        assert(led[led.len() - 1] == Part::Parent);
    }
    lemma_no_root(pieces(base));
    assert(components(up)[0] == Part::Parent);
    if !is_absolute(base) && components(base).len() > 0 {
        if pieces(base)[0] == seq![DOT] {
            assert(components(base)[0] == Part::Current);
        } else {
            assert(components(base) =~= parts_of(pieces(base)));
        }
    }
    if climbs(name) {
        let i = choose|i: int| 0 <= i < components(name).len() && components(name)[i] == Part::Parent;
        assert(components(name)[i] == Part::Name(name));
    }
}

proof fn lemma_no_root(p: Seq<Seq<u8>>)
    ensures
        !parts_of(p).contains(Part::Root),
        parts_of(p).len() > 0 ==> parts_of(p)[0] != Part::Root,
    decreases p.len(),
{
    if p.len() > 0 {
        lemma_no_root(p.drop_first());
        let rest = parts_of(p.drop_first());
        let all = parts_of(p);
        assert forall|i: int| 0 <= i < all.len() implies all[i] != Part::Root by {
            if i >= part_of(p[0]).len() {
                assert(all[i] == rest[i - part_of(p[0]).len()]);
                assert(rest.contains(rest[i - part_of(p[0]).len()]));
            }
        }
    }
}

/// A plain path neither leads up nor starts at the root.
pub proof fn law_a_plain_path_does_not_climb(s: Seq<u8>)
    ensures
        is_plain(s) ==> !climbs(s) && !is_absolute(s),
        !climbs(s) && !is_absolute(s) ==> is_plain(s),
{
    if is_absolute(s) {
        assert(components(s)[0] == Part::Root);
    } else {
        lemma_no_root(pieces(s));
        if !climbs(s) {
            assert forall|i: int| 0 <= i < components(s).len() implies (#[trigger] components(
                s,
            )[i]) is Name || components(s)[i] is Current by {
                assert(components(s).contains(components(s)[i]));
                let first = components(s).len() - parts_of(pieces(s)).len();
                if i >= first {
                    assert(components(s)[i] == parts_of(pieces(s))[i - first]);
                    assert(parts_of(pieces(s)).contains(parts_of(pieces(s))[i - first]));
                }
            }
        }
    }
}

/// What is below a directory has all the directory's components in front: being
/// below is kept along a chain of directories.
pub proof fn law_below_is_kept_along_directories(a: Seq<u8>, b: Seq<u8>, c: Seq<u8>)
    ensures
        is_within(a, a),
        is_within(a, b) && is_within(b, c) ==> is_within(a, c),
        is_within(a, b) && is_within(b, a) ==> components(a) == components(b),
        is_within(a, b) ==> components(b).len() <= components(a).len(),
        is_within(a, b) && is_absolute(b) ==> is_absolute(a),
{
    let (x, y, z) = (components(a), components(b), components(c));
    assert(x =~= x.subrange(0, x.len() as int));
    if is_within(a, b) && is_within(b, c) {
        assert(z =~= x.subrange(0, z.len() as int));
    }
    if is_within(a, b) && is_within(b, a) {
        assert(x =~= y);
    }
    if is_within(a, b) && is_absolute(b) {
        assert(y[0] == Part::Root);
        assert(x[0] == y[0]);
        lemma_no_root(pieces(a));
        if !is_absolute(a) && pieces(a)[0] != seq![DOT] {
            assert(x =~= parts_of(pieces(a)));
        }
    }
}

/// Two paths taken in one directory are one only where they are the same.
pub proof fn law_paths_in_a_directory_differ(base: Seq<u8>, a: Seq<u8>, b: Seq<u8>)
    requires
        joined(base, a) == joined(base, b),
        !(a.len() > 0 && a[0] == 47),
        !(b.len() > 0 && b[0] == 47),
    ensures
        a == b,
{
    law_a_path_is_taken_in_a_directory(base, a);
    law_a_path_is_taken_in_a_directory(base, b);
    let whole = joined(base, a);
    assert(whole.len() - a.len() == whole.len() - b.len());
    assert(a =~= whole.skip(whole.len() - a.len()));
    assert(b =~= whole.skip(whole.len() - b.len()));
}

/// Paths are seen one by one, in their order.
pub proof fn law_paths_are_seen_in_their_order(paths: Seq<UnixPath>, i: int)
    requires
        0 <= i < paths.len(),
    ensures
        path_views(paths).len() == paths.len(),
        path_views(paths)[i] == paths[i].bytes@,
{
}

} // verus!
