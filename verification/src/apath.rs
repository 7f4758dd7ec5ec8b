//! "Apaths" (for archive paths) are the canonical names of entries in a tree.
//!
//! An apath always starts with `/`, uses `/` as its only separator, has no
//! empty, `.` or `..` component, and has no trailing `/` unless it is the root.
//!
//! Apaths are totally ordered so that a directory comes before everything
//! below it, and the entries of one directory sort by the bytes of their
//! names. That is the same as comparing two paths byte by byte with the
//! separator ranked below every other byte, which is how the order is
//! defined here.

use vstd::prelude::*;
use vstd::string::StringSliceAdditionalSpecFns;

verus! {

/// The separator byte, `/`.
pub const SLASH: u8 = 47;

/// The byte `.`.
pub const DOT: u8 = 46;

/// The place of a byte in the order of paths: the separator first, then every
/// other byte by its value.
pub open spec fn byte_rank(b: u8) -> int {
    if b == SLASH {
        0
    } else {
        b as int + 1
    }
}

/// Strict order of paths: lexicographic by [`byte_rank`], a proper prefix
/// before its extensions.
pub open spec fn path_lt(a: Seq<u8>, b: Seq<u8>) -> bool
    decreases a.len(),
{
    if b.len() == 0 {
        false
    } else if a.len() == 0 {
        true
    } else if a[0] == b[0] {
        path_lt(a.drop_first(), b.drop_first())
    } else {
        byte_rank(a[0]) < byte_rank(b[0])
    }
}

/// The bytes form a canonical path.
pub open spec fn valid_path(p: Seq<u8>) -> bool {
    &&& p.len() >= 1
    &&& p[0] == SLASH
    &&& p.len() > 1 ==> p[p.len() - 1] != SLASH
    &&& forall|i: int| 0 <= i < p.len() - 1 && p[i] == SLASH ==> #[trigger] starts_component(p, i + 1)
}

/// A component that is neither empty, `.` nor `..` starts at `i`.
pub open spec fn starts_component(p: Seq<u8>, i: int) -> bool {
    &&& 0 <= i < p.len()
    &&& p[i] != SLASH
    &&& p[i] == DOT ==> {
        &&& i + 1 < p.len()
        &&& p[i + 1] != SLASH
        &&& p[i + 1] == DOT ==> i + 2 < p.len() && p[i + 2] != SLASH
    }
}

/// `p` names `subtree` itself or something below it.
pub open spec fn path_within(p: Seq<u8>, subtree: Seq<u8>) -> bool {
    ||| p == subtree
    ||| (subtree.len() == 1 && p.len() >= 1 && p[0] == SLASH && subtree[0] == SLASH)
    ||| (p.len() > subtree.len() && p.take(subtree.len() as int) == subtree
        && p[subtree.len() as int] == SLASH)
}

/// No path comes before itself.
pub proof fn lemma_path_lt_irreflexive(a: Seq<u8>)
    ensures
        !path_lt(a, a),
    decreases a.len(),
{
    if a.len() > 0 {
        lemma_path_lt_irreflexive(a.drop_first());
    }
}

/// The order of paths is transitive.
pub proof fn lemma_path_lt_transitive(a: Seq<u8>, b: Seq<u8>, c: Seq<u8>)
    requires
        path_lt(a, b),
        path_lt(b, c),
    ensures
        path_lt(a, c),
    decreases a.len(),
{
    if a.len() > 0 && b.len() > 0 && c.len() > 0 {
        if a[0] == b[0] && b[0] == c[0] {
            lemma_path_lt_transitive(a.drop_first(), b.drop_first(), c.drop_first());
        }
    }
}

/// Of two different paths exactly one comes first.
pub proof fn lemma_path_lt_total(a: Seq<u8>, b: Seq<u8>)
    ensures
        a == b || path_lt(a, b) || path_lt(b, a),
        !(path_lt(a, b) && path_lt(b, a)),
        a == b ==> !path_lt(a, b),
    decreases a.len(),
{
    if a.len() == 0 || b.len() == 0 {
        if a.len() == 0 && b.len() == 0 {
            assert(a =~= b);
        }
    } else if a[0] == b[0] {
        lemma_path_lt_total(a.drop_first(), b.drop_first());
        if a.drop_first() == b.drop_first() {
            assert(a =~= seq![a[0]] + a.drop_first());
            assert(b =~= seq![b[0]] + b.drop_first());
        }
    }
    if a == b {
        lemma_path_lt_irreflexive(a);
    }
}

/// A directory comes before everything below it.
pub proof fn lemma_directory_first(dir: Seq<u8>, p: Seq<u8>)
    requires
        p.len() > dir.len(),
        p.take(dir.len() as int) == dir,
    ensures
        path_lt(dir, p),
    decreases dir.len(),
{
    if dir.len() > 0 {
        assert(p.take(dir.len() as int)[0] == p[0]);
        assert(p.drop_first().take(dir.len() - 1) =~= dir.drop_first());
        lemma_directory_first(dir.drop_first(), p.drop_first());
    }
}

/// What lies in the order between a directory and something below it lies
/// below that directory too: the paths below a directory follow it without a
/// gap.
pub proof fn lemma_subtree_has_no_gap(dir: Seq<u8>, below: Seq<u8>, between: Seq<u8>)
    requires
        path_within(below, dir),
        dir.len() >= 1,
        path_lt(dir, between),
        path_lt(between, below),
    ensures
        path_within(between, dir),
{
    lemma_path_lt_irreflexive(dir);
    if dir.len() == 1 && dir[0] == SLASH && below.len() >= 1 && below[0] == SLASH {
        // Everything that comes after the root starts like the root.
        if between.len() == 0 || between[0] != SLASH {
            assert(between.len() > 0);
            assert(byte_rank(between[0]) > byte_rank(below[0]));
            assert(path_lt(below, between));
            lemma_path_lt_total(below, between);
        }
    } else if below == dir {
        lemma_path_lt_transitive(dir, between, dir);
    } else {
        let n = dir.len() as int;
        assert(below.take(n) == dir && below[n] == SLASH);
        // Find where `between` leaves `dir`, if it does.
        lemma_common_prefix(dir, between);
        let i = common_prefix(dir, between);
        assert(below.take(i) =~= dir.take(i));
        if i < n {
            // It leaves `dir` with a byte of higher rank, so it comes after
            // everything that starts with `dir`.
            lemma_path_lt_at(dir, between, i);
            assert(i < between.len());
            assert(below[i] == dir[i]) by {
                assert(below.take(n)[i] == below[i]);
            }
            lemma_path_lt_at(between, below, i);
            assert(false);
        } else {
            lemma_path_lt_at(dir, between, n);
            assert(between.len() > n);
            assert(between.take(n) =~= dir);
            if between[n] != SLASH {
                assert(between.take(n) == below.take(n));
                lemma_path_lt_at(between, below, n);
                assert(false);
            }
        }
    }
}

/// The number of bytes that two paths have in common at their start.
pub open spec fn common_prefix(a: Seq<u8>, b: Seq<u8>) -> int
    decreases a.len(),
{
    if a.len() == 0 || b.len() == 0 || a[0] != b[0] {
        0
    } else {
        1 + common_prefix(a.drop_first(), b.drop_first())
    }
}

/// What two paths have in common at their start.
pub proof fn lemma_common_prefix(a: Seq<u8>, b: Seq<u8>)
    ensures
        0 <= common_prefix(a, b) <= a.len(),
        common_prefix(a, b) <= b.len(),
        a.take(common_prefix(a, b)) == b.take(common_prefix(a, b)),
        common_prefix(a, b) < a.len() && common_prefix(a, b) < b.len() ==> a[common_prefix(a, b)]
            != b[common_prefix(a, b)],
    decreases a.len(),
{
    if a.len() == 0 || b.len() == 0 || a[0] != b[0] {
        assert(a.take(0) =~= b.take(0));
    } else {
        lemma_common_prefix(a.drop_first(), b.drop_first());
        let n = common_prefix(a.drop_first(), b.drop_first());
        assert(a.take(n + 1) =~= seq![a[0]] + a.drop_first().take(n));
        assert(b.take(n + 1) =~= seq![b[0]] + b.drop_first().take(n));
    }
}

/// Where two paths first differ decides their order.
pub proof fn lemma_path_lt_at(a: Seq<u8>, b: Seq<u8>, i: int)
    requires
        0 <= i <= a.len(),
        i <= b.len(),
        a.take(i) == b.take(i),
    ensures
        i == a.len() ==> (path_lt(a, b) <==> i < b.len()),
        i == b.len() ==> !path_lt(a, b),
        i < a.len() && i < b.len() && a[i] != b[i] ==> (path_lt(a, b) <==> byte_rank(a[i])
            < byte_rank(b[i])),
    decreases i,
{
    if i == 0 {
    } else {
        assert(a.take(i)[0] == a[0] && b.take(i)[0] == b[0]);
        assert(a.drop_first().take(i - 1) =~= a.take(i).drop_first());
        assert(b.drop_first().take(i - 1) =~= b.take(i).drop_first());
        lemma_path_lt_at(a.drop_first(), b.drop_first(), i - 1);
    }
}

/// How one path stands to another in the order of paths.
#[derive(Clone, Copy, Debug, PartialEq, Eq, Structural)]
pub enum Place {
    Before,
    Same,
    After,
}

/// Compares two paths given as bytes.
pub fn place_of(a: &[u8], b: &[u8]) -> (r: Place)
    ensures
        r == Place::Before <==> path_lt(a@, b@),
        r == Place::Same <==> a@ == b@,
        r == Place::After <==> path_lt(b@, a@),
{
    let mut i: usize = 0;
    proof {
        lemma_path_lt_total(a@, b@);
    }
    while i < a.len() && i < b.len()
        invariant
            i <= a.len(),
            i <= b.len(),
            a@.take(i as int) == b@.take(i as int),
        decreases a.len() - i,
    {
        let x: u8 = a[i];
        let y: u8 = b[i];
        if x != y {
            proof {
                lemma_path_lt_at(a@, b@, i as int);
                lemma_path_lt_at(b@, a@, i as int);
                assert(a@ != b@);
            }
            let rx: u16 = if x == SLASH { 0 } else { x as u16 + 1 };
            let ry: u16 = if y == SLASH { 0 } else { y as u16 + 1 };
            if rx < ry {
                return Place::Before;
            } else {
                return Place::After;
            }
        }
        assert(a@.take(i as int + 1) =~= a@.take(i as int).push(a@[i as int]));
        assert(b@.take(i as int + 1) =~= b@.take(i as int).push(b@[i as int]));
        i = i + 1;
    }
    proof {
        lemma_path_lt_at(a@, b@, i as int);
        lemma_path_lt_at(b@, a@, i as int);
    }
    if i < b.len() {
        assert(a@ != b@);
        Place::Before
    } else if i < a.len() {
        assert(a@ != b@);
        Place::After
    } else {
        assert(a@ =~= a@.take(i as int));
        assert(b@ =~= b@.take(i as int));
        Place::Same
    }
}

/// Tells whether the bytes form a canonical path.
pub fn is_valid_path(p: &[u8]) -> (r: bool)
    ensures
        r == valid_path(p@),
{
    let n = p.len();
    if n == 0 || p[0] != SLASH {
        return false;
    }
    if n > 1 && p[n - 1] == SLASH {
        return false;
    }
    let mut i: usize = 0;
    while i + 1 < n
        invariant
            n == p.len(),
            n >= 1,
            i <= n - 1,
            forall|j: int| 0 <= j < i && p@[j] == SLASH ==> #[trigger] starts_component(p@, j + 1),
        decreases n - i,
    {
        if p[i] == SLASH {
            let c: u8 = p[i + 1];
            let ok = if c == SLASH {
                false
            } else if c != DOT {
                true
            } else if i + 2 >= n {
                false
            } else if p[i + 2] == SLASH {
                false
            } else if p[i + 2] != DOT {
                true
            } else {
                i + 3 < n && p[i + 3] != SLASH
            };
            assert(ok == starts_component(p@, i as int + 1));
            if !ok {
                return false;
            }
        }
        i = i + 1;
    }
    true
}

/// A canonical path inside a tree.
#[derive(Debug, PartialEq, Eq)]
pub struct Apath {
    text: String,
}

impl Clone for Apath {
    fn clone(&self) -> (r: Apath)
        ensures
            r@ == self@,
            r.text() == self.text(),
    {
        Apath { text: self.text.clone() }
    }
}

impl View for Apath {
    type V = Seq<u8>;

    /// The bytes of the path.
    closed spec fn view(&self) -> Seq<u8> {
        vstd::utf8::encode_utf8(self.text@)
    }
}

impl Apath {
    /// The path is canonical. Every `Apath` that this module hands out is.
    pub open spec fn wf(&self) -> bool {
        valid_path(self@)
    }

    /// The path as text.
    pub closed spec fn text(&self) -> Seq<char> {
        self.text@
    }

    /// Text and bytes of a path determine each other.
    pub proof fn lemma_text_bytes(&self, other: &Apath)
        ensures
            self.text() == other.text() <==> self@ == other@,
            self@ == vstd::utf8::encode_utf8(self.text()),
    {
        vstd::utf8::encode_utf8_decode_utf8(self.text());
        vstd::utf8::encode_utf8_decode_utf8(other.text());
    }

    /// The root of a tree, `/`.
    pub fn root() -> (r: Apath)
        ensures
            r.wf(),
            r@ == seq![SLASH],
    {
        let s = "/";
        proof {
            reveal_strlit("/");
            vstd::string::is_ascii_spec_bytes(s);
            assert(s.spec_bytes() =~= seq![SLASH]);
        }
        Apath { text: s.to_owned() }
    }

    /// Tells whether `s` is a canonical path.
    pub fn is_valid(s: &str) -> (r: bool)
        ensures
            r == valid_path(s.spec_bytes()),
    {
        is_valid_path(s.as_bytes())
    }

    /// Makes a path out of `s`, if `s` is canonical.
    pub fn from_str(s: &str) -> (r: Option<Apath>)
        ensures
            r is Some <==> valid_path(s.spec_bytes()),
            r matches Some(a) ==> a.wf() && a@ == s.spec_bytes() && a.text() == s@,
    {
        if is_valid_path(s.as_bytes()) {
            Some(Apath { text: s.to_owned() })
        } else {
            None
        }
    }

    /// The path as a string slice.
    pub fn as_str(&self) -> (r: &str)
        ensures
            r@ == self.text(),
            r.spec_bytes() == self@,
    {
        self.text.as_str()
    }

    /// The path as bytes.
    pub fn as_bytes(&self) -> (r: &[u8])
        ensures
            r@ == self@,
    {
        self.text.as_str().as_bytes()
    }

    /// How this path stands to `other` in the order of paths.
    pub fn place(&self, other: &Apath) -> (r: Place)
        ensures
            r == Place::Before <==> path_lt(self@, other@),
            r == Place::Same <==> self@ == other@,
            r == Place::After <==> path_lt(other@, self@),
    {
        place_of(self.as_bytes(), other.as_bytes())
    }

    /// True if this path comes strictly before `other`.
    pub fn precedes(&self, other: &Apath) -> (r: bool)
        ensures
            r == path_lt(self@, other@),
    {
        match self.place(other) {
            Place::Before => true,
            _ => false,
        }
    }

    /// True if the two paths are the same.
    pub fn same_as(&self, other: &Apath) -> (r: bool)
        ensures
            r == (self@ == other@),
    {
        match self.place(other) {
            Place::Same => true,
            _ => false,
        }
    }

    /// True if this path is `subtree` or lies below it.
    pub fn is_within(&self, subtree: &Apath) -> (r: bool)
        requires
            self.wf(),
            subtree.wf(),
        ensures
            r == path_within(self@, subtree@),
    {
        let p = self.as_bytes();
        let s = subtree.as_bytes();
        if s.len() == 1 {
            return true;
        }
        if p.len() < s.len() {
            assert(p@ != s@);
            return false;
        }
        let mut i: usize = 0;
        while i < s.len()
            invariant
                i <= s.len(),
                s.len() <= p.len(),
                s.len() != 1,
                p@ == self@,
                s@ == subtree@,
                p@.take(i as int) == s@.take(i as int),
            decreases s.len() - i,
        {
            if p[i] != s[i] {
                assert(p@[i as int] != s@[i as int]);
                assert(p@.take(s.len() as int)[i as int] == p@[i as int]);
                return false;
            }
            assert(p@.take(i as int + 1) =~= p@.take(i as int).push(p@[i as int]));
            assert(s@.take(i as int + 1) =~= s@.take(i as int).push(s@[i as int]));
            i = i + 1;
        }
        assert(s@.take(s.len() as int) =~= s@);
        if p.len() == s.len() {
            assert(p@.take(p.len() as int) =~= p@);
            true
        } else {
            p[s.len()] == SLASH
        }
    }
}

} // verus!
