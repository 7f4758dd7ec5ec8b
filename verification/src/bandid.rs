//! Band ids: the names of the bands (backup versions) of an archive.
//!
//! A band id is a non-empty list of numbers. It is written as `b`, then the
//! numbers in decimal, each padded with zeros to at least four digits, with
//! dots between them: `b0000`, `b0001.0003`.

use vstd::prelude::*;
use vstd::string::StringExecFns;
use vstd::string::StrSliceExecFns;
use crate::apath::Place;

verus! {

/// The decimal digit for a value below 10.
pub open spec fn decimal_digit(n: nat) -> char {
    (48 + n) as u8 as char
}

/// True for `0`-`9`.
pub open spec fn is_decimal_digit(c: char) -> bool {
    '0' <= c <= '9'
}

/// A number in decimal, without leading zeros.
pub open spec fn decimal_text(n: nat) -> Seq<char>
    decreases n,
{
    if n < 10 {
        seq![decimal_digit(n)]
    } else {
        decimal_text(n / 10).push(decimal_digit(n % 10))
    }
}

/// The number that decimal digits stand for.
pub open spec fn decimal_value(text: Seq<char>) -> nat
    decreases text.len(),
{
    if text.len() == 0 {
        0
    } else {
        decimal_value(text.drop_last()) * 10 + (text.last() as nat - 48) as nat
    }
}

/// True if `text` is made of decimal digits only.
pub open spec fn all_decimal(text: Seq<char>) -> bool {
    forall|i: int| 0 <= i < text.len() ==> is_decimal_digit(#[trigger] text[i])
}

/// One number of a band id as it is written: in decimal, padded with zeros
/// to four digits.
pub open spec fn component_text(n: u32) -> Seq<char> {
    zero_padded(n as nat, 4)
}

/// The numbers of a band id as they are written, with dots between them.
pub open spec fn components_text(seqs: Seq<u32>) -> Seq<char>
    decreases seqs.len(),
{
    if seqs.len() == 0 {
        Seq::empty()
    } else if seqs.len() == 1 {
        component_text(seqs[0])
    } else {
        component_text(seqs[0]) + seq!['.'] + components_text(seqs.drop_first())
    }
}

/// A band id as it is written.
pub open spec fn band_text(seqs: Seq<u32>) -> Seq<char> {
    seq!['b'] + components_text(seqs)
}

/// Where the first dot of `text` stands, or its length if it has none.
pub open spec fn first_dot(text: Seq<char>) -> int
    decreases text.len(),
{
    if text.len() == 0 || text[0] == '.' {
        0
    } else {
        1 + first_dot(text.drop_first())
    }
}

/// True if `text` can stand for one number of a band id: one or more decimal
/// digits whose value fits 32 bits.
pub open spec fn is_component(text: Seq<char>) -> bool {
    text.len() >= 1 && all_decimal(text) && decimal_value(text) <= u32::MAX
}

/// The numbers that `text` stands for, if it is a list of numbers with dots
/// between them.
pub open spec fn parse_components(text: Seq<char>) -> Option<Seq<u32>>
    decreases text.len(),
{
    let d = first_dot(text);
    if d < 0 || d > text.len() {
        None
    } else {
        let head = text.take(d);
        if !is_component(head) {
            None
        } else if d == text.len() {
            Some(seq![decimal_value(head) as u32])
        } else {
            match parse_components(text.skip(d + 1)) {
                Some(rest) => Some(seq![decimal_value(head) as u32] + rest),
                None => None,
            }
        }
    }
}

/// The band id that `text` names, if it names one: `b`, then numbers with dots
/// between them.
pub open spec fn parse_band(text: Seq<char>) -> Option<Seq<u32>> {
    if text.len() >= 1 && text[0] == 'b' {
        parse_components(text.skip(1))
    } else {
        None
    }
}

/// Strict order of band ids: number by number, a proper prefix first.
pub open spec fn band_lt(a: Seq<u32>, b: Seq<u32>) -> bool
    decreases a.len(),
{
    if b.len() == 0 {
        false
    } else if a.len() == 0 {
        true
    } else if a[0] == b[0] {
        band_lt(a.drop_first(), b.drop_first())
    } else {
        a[0] < b[0]
    }
}


/// Numbers in front of what more text stands for, if it stands for anything.
pub open spec fn numbers_then(front: Seq<u32>, more: Option<Seq<u32>>) -> Option<Seq<u32>> {
    match more {
        Some(rest) => Some(front + rest),
        None => None,
    }
}

/// Digits never stand for less than the digits before the last.
pub proof fn lemma_decimal_value_grows(text: Seq<char>, k: int)
    requires
        0 <= k <= text.len(),
    ensures
        decimal_value(text.take(k)) <= decimal_value(text),
    decreases text.len() - k,
{
    if k == text.len() {
        assert(text.take(k) =~= text);
    } else {
        lemma_decimal_value_grows(text.drop_last(), k);
        assert(text.drop_last().take(k) =~= text.take(k));
    }
}

/// What [`first_dot`] finds.
pub proof fn lemma_first_dot(text: Seq<char>)
    ensures
        0 <= first_dot(text) <= text.len(),
        forall|k: int| 0 <= k < first_dot(text) ==> text[k] != '.',
        first_dot(text) < text.len() ==> text[first_dot(text)] == '.',
    decreases text.len(),
{
    if text.len() == 0 || text[0] == '.' {
    } else {
        lemma_first_dot(text.drop_first());
        assert forall|k: int| 0 <= k < first_dot(text) implies text[k] != '.' by {
            if k > 0 {
                assert(text[k] == text.drop_first()[k - 1]);
            }
        }
    }
}

/// The first dot is where a prefix without dots ends.
pub proof fn lemma_first_dot_at(text: Seq<char>, d: int)
    requires
        0 <= d <= text.len(),
        forall|k: int| 0 <= k < d ==> text[k] != '.',
        d < text.len() ==> text[d] == '.',
    ensures
        first_dot(text) == d,
    decreases text.len(),
{
    if text.len() == 0 || text[0] == '.' {
    } else {
        assert forall|k: int| 0 <= k < d - 1 implies text.drop_first()[k] != '.' by {
            assert(text.drop_first()[k] == text[k + 1]);
        }
        lemma_first_dot_at(text.drop_first(), d - 1);
    }
}

/// Decimal text is made of digits, and stands for its number.
pub proof fn lemma_decimal_text(n: nat)
    ensures
        decimal_text(n).len() >= 1,
        all_decimal(decimal_text(n)),
        decimal_value(decimal_text(n)) == n,
        n < 10 ==> decimal_text(n).len() == 1,
        10 <= n < 100 ==> decimal_text(n).len() == 2,
        100 <= n < 1000 ==> decimal_text(n).len() == 3,
        n >= 1000 ==> decimal_text(n).len() >= 4,
    decreases n,
{
    if n < 10 {
        let t = decimal_text(n);
        assert(t.drop_last() =~= Seq::<char>::empty());
        assert(decimal_value(t.drop_last()) == 0);
    } else {
        lemma_decimal_text(n / 10);
        let t = decimal_text(n);
        let p = decimal_text(n / 10);
        assert(t.drop_last() =~= p);
        assert(t.last() == decimal_digit(n % 10));
        assert forall|i: int| 0 <= i < t.len() implies is_decimal_digit(#[trigger] t[i]) by {
            if i < p.len() {
                assert(t[i] == p[i]);
            }
        }
    }
}

/// Zeros in front do not change the value of decimal digits.
pub proof fn lemma_leading_zeros(k: nat, text: Seq<char>)
    ensures
        decimal_value(Seq::new(k, |i: int| '0') + text) == decimal_value(text),
    decreases text.len(),
{
    let zeros = Seq::new(k, |i: int| '0');
    if text.len() == 0 {
        assert(zeros + text =~= zeros);
        lemma_zeros_value(k);
    } else {
        lemma_leading_zeros(k, text.drop_last());
        assert((zeros + text).drop_last() =~= zeros + text.drop_last());
        assert((zeros + text).last() == text.last());
    }
}

/// Zeros alone stand for zero.
pub proof fn lemma_zeros_value(k: nat)
    ensures
        decimal_value(Seq::new(k, |i: int| '0')) == 0,
    decreases k,
{
    let zeros = Seq::new(k, |i: int| '0');
    if k > 0 {
        lemma_zeros_value((k - 1) as nat);
        assert(zeros.drop_last() =~= Seq::new((k - 1) as nat, |i: int| '0'));
    }
}

/// A number of a band id as written is a component that stands for it.
pub proof fn lemma_component_text(n: u32)
    ensures
        is_component(component_text(n)),
        decimal_value(component_text(n)) == n,
        forall|k: int| 0 <= k < component_text(n).len() ==> component_text(n)[k] != '.',
{
    lemma_decimal_text(n as nat);
    let t = decimal_text(n as nat);
    if t.len() < 4 {
        lemma_leading_zeros((4 - t.len()) as nat, t);
    }
    let c = component_text(n);
    assert forall|k: int| 0 <= k < c.len() implies is_decimal_digit(#[trigger] c[k]) by {
        if t.len() < 4 && k >= 4 - t.len() {
            assert(c[k] == t[k - (4 - t.len())]);
        }
    }
    assert forall|k: int| 0 <= k < c.len() implies c[k] != '.' by {
        assert(is_decimal_digit(c[k]));
    }
}

/// Reading what was written gives the numbers back.
pub proof fn lemma_parse_components_text(seqs: Seq<u32>)
    requires
        seqs.len() >= 1,
    ensures
        parse_components(components_text(seqs)) == Some(seqs),
    decreases seqs.len(),
{
    let head = component_text(seqs[0]);
    lemma_component_text(seqs[0]);
    let text = components_text(seqs);
    if seqs.len() == 1 {
        lemma_first_dot_at(text, text.len() as int);
        assert(text.take(text.len() as int) =~= text);
        assert(seq![decimal_value(head) as u32] =~= seqs);
    } else {
        let rest = components_text(seqs.drop_first());
        assert(text == head + seq!['.'] + rest);
        assert forall|k: int| 0 <= k < head.len() implies text[k] != '.' by {
            assert(text[k] == head[k]);
        }
        assert(text[head.len() as int] == '.');
        lemma_first_dot_at(text, head.len() as int);
        assert(text.take(head.len() as int) =~= head);
        assert(text.skip(head.len() as int + 1) =~= rest);
        lemma_parse_components_text(seqs.drop_first());
        assert(seq![seqs[0]] + seqs.drop_first() =~= seqs);
    }
}

/// A band id is read back from its text unchanged.
pub proof fn lemma_parse_band_text(seqs: Seq<u32>)
    requires
        seqs.len() >= 1,
    ensures
        parse_band(band_text(seqs)) == Some(seqs),
{
    lemma_parse_components_text(seqs);
    assert(band_text(seqs).skip(1) =~= components_text(seqs));
}

/// No band id comes before itself.
pub proof fn lemma_band_lt_irreflexive(a: Seq<u32>)
    ensures
        !band_lt(a, a),
    decreases a.len(),
{
    if a.len() > 0 {
        lemma_band_lt_irreflexive(a.drop_first());
    }
}

/// The order of band ids is transitive.
pub proof fn lemma_band_lt_transitive(a: Seq<u32>, b: Seq<u32>, c: Seq<u32>)
    requires
        band_lt(a, b),
        band_lt(b, c),
    ensures
        band_lt(a, c),
    decreases a.len(),
{
    if a.len() > 0 && b.len() > 0 && c.len() > 0 {
        if a[0] == b[0] && b[0] == c[0] {
            lemma_band_lt_transitive(a.drop_first(), b.drop_first(), c.drop_first());
        }
    }
}

/// Of two different band ids exactly one comes first.
pub proof fn lemma_band_lt_total(a: Seq<u32>, b: Seq<u32>)
    ensures
        a == b || band_lt(a, b) || band_lt(b, a),
        !(band_lt(a, b) && band_lt(b, a)),
        a == b ==> !band_lt(a, b),
    decreases a.len(),
{
    if a.len() == 0 || b.len() == 0 {
        if a.len() == 0 && b.len() == 0 {
            assert(a =~= b);
        }
    } else if a[0] == b[0] {
        lemma_band_lt_total(a.drop_first(), b.drop_first());
        if a.drop_first() == b.drop_first() {
            assert(a =~= seq![a[0]] + a.drop_first());
            assert(b =~= seq![b[0]] + b.drop_first());
        }
    }
    if a == b {
        lemma_band_lt_irreflexive(a);
    }
}

/// Where two band ids first differ decides their order.
pub proof fn lemma_band_lt_at(a: Seq<u32>, b: Seq<u32>, i: int)
    requires
        0 <= i <= a.len(),
        i <= b.len(),
        a.take(i) == b.take(i),
    ensures
        i == a.len() ==> (band_lt(a, b) <==> i < b.len()),
        i == b.len() ==> !band_lt(a, b),
        i < a.len() && i < b.len() && a[i] != b[i] ==> (band_lt(a, b) <==> a[i] < b[i]),
    decreases i,
{
    if i > 0 {
        assert(a.take(i)[0] == a[0] && b.take(i)[0] == b[0]);
        assert(a.drop_first().take(i - 1) =~= a.take(i).drop_first());
        assert(b.drop_first().take(i - 1) =~= b.take(i).drop_first());
        lemma_band_lt_at(a.drop_first(), b.drop_first(), i - 1);
    }
}

/// The text of one decimal digit.
fn decimal_digit_str(n: u64) -> (r: &'static str)
    requires
        n < 10,
    ensures
        r@ == seq![decimal_digit(n as nat)],
{
    proof {
        reveal_strlit("0");
        reveal_strlit("1");
        reveal_strlit("2");
        reveal_strlit("3");
        reveal_strlit("4");
        reveal_strlit("5");
        reveal_strlit("6");
        reveal_strlit("7");
        reveal_strlit("8");
        reveal_strlit("9");
    }
    let r = match n {
        0 => "0",
        1 => "1",
        2 => "2",
        3 => "3",
        4 => "4",
        5 => "5",
        6 => "6",
        7 => "7",
        8 => "8",
        _ => "9",
    };
    assert(r@ =~= seq![decimal_digit(n as nat)]);
    r
}

/// Appends `n` in decimal to `out`.
pub fn push_decimal(out: &mut String, n: u64)
    ensures
        final(out)@ == old(out)@ + decimal_text(n as nat),
    decreases n,
{
    if n >= 10 {
        push_decimal(out, n / 10);
    }
    out.append(decimal_digit_str(n % 10));
    proof {
        if n >= 10 {
            assert(final(out)@ =~= old(out)@ + decimal_text(n as nat));
        } else {
            assert(final(out)@ =~= old(out)@ + decimal_text(n as nat));
        }
    }
}

/// Numbers that are read from text are one at least.
pub proof fn lemma_parsed_not_empty(text: Seq<char>)
    ensures
        parse_components(text) matches Some(v) ==> v.len() >= 1,
    decreases text.len(),
{
    lemma_first_dot(text);
    let d = first_dot(text);
    if d < text.len() {
        lemma_parsed_not_empty(text.skip(d + 1));
    }
}

/// A number in decimal, with zeros before it up to `width` digits.
pub open spec fn zero_padded(n: nat, width: nat) -> Seq<char> {
    let t = decimal_text(n);
    if t.len() >= width {
        t
    } else {
        Seq::new((width - t.len()) as nat, |i: int| '0') + t
    }
}

/// The number of decimal digits of a number.
pub fn decimal_len(n: u64) -> (r: usize)
    ensures
        r == decimal_text(n as nat).len(),
        1 <= r <= 20,
    decreases n,
{
    if n < 10 {
        1
    } else {
        let r = decimal_len(n / 10);
        proof {
            lemma_decimal_len_bound(n as nat);
        }
        r + 1
    }
}

/// A number below the n-th power of ten has n digits at most.
pub proof fn lemma_decimal_len_bound(n: nat)
    ensures
        n <= u64::MAX ==> decimal_text(n).len() <= 20,
        decimal_text(n).len() >= 1,
    decreases n,
{
    reveal_with_fuel(decimal_text, 21);
}

/// Appends a number in decimal, with zeros before it up to `width` digits.
pub fn push_zero_padded(out: &mut String, n: u64, width: usize)
    ensures
        final(out)@ == old(out)@ + zero_padded(n as nat, width as nat),
{
    let len = decimal_len(n);
    let mut i: usize = len;
    proof {
        assert(out@ =~= old(out)@ + Seq::new(0nat, |k: int| '0'));
    }
    while i < width
        invariant
            len <= i,
            i <= width || i == len,
            out@ == old(out)@ + Seq::new((i - len) as nat, |k: int| '0'),
        decreases width - i,
    {
        proof {
            reveal_strlit("0");
        }
        out.append("0");
        assert(out@ =~= old(out)@ + Seq::new((i + 1 - len) as nat, |k: int| '0'));
        i = i + 1;
    }
    push_decimal(out, n);
    assert(out@ =~= old(out)@ + zero_padded(n as nat, width as nat));
}

/// Reads decimal numbers with dots between them from `text`, from the
/// character at `start` on. Each number must fit 32 bits.
pub fn parse_numbers(text: &str, start: usize) -> (r: Option<Vec<u32>>)
    requires
        start <= text@.len(),
    ensures
        r matches Some(v) ==> parse_components(text@.skip(start as int)) == Some(v@),
        r is None ==> parse_components(text@.skip(start as int)) is None,
{
    let n = text.unicode_len();
    let ghost goal = parse_components(text@.skip(start as int));
    let mut seqs: Vec<u32> = Vec::new();
    assert(Seq::<u32>::empty() + goal->0 =~= goal->0);
    if start == n {
        proof {
            let e = text@.skip(start as int);
            assert(e.len() == 0);
            assert(!is_component(e.take(0)));
        }
        return None;
    }
    let mut seqs: Vec<u32> = Vec::new();
    let mut pos: usize = start;
    loop
        invariant
            n == text@.len(),
            start <= pos <= n,
            goal == parse_components(text@.skip(start as int)),
            goal == numbers_then(seqs@, parse_components(text@.skip(pos as int))),
        decreases n - pos + 1,
    {
        let ghost rest = text@.skip(pos as int);
        let mut j: usize = pos;
        let mut value: u64 = 0;
        while j < n && text.get_char(j) != '.'
            invariant
                n == text@.len(),
                pos <= j <= n,
                rest == text@.skip(pos as int),
                goal == parse_components(text@.skip(start as int)),
                goal == numbers_then(seqs@, parse_components(rest)),
                value <= u32::MAX,
                value == decimal_value(rest.take(j - pos)),
                forall|k: int| 0 <= k < j - pos ==> is_decimal_digit(#[trigger] rest[k]),
            decreases n - j,
        {
            let c = text.get_char(j);
            let ghost head = rest.take(first_dot(rest));
            proof {
                lemma_first_dot(rest);
                assert(rest[j - pos] == c);
                assert(first_dot(rest) > j - pos) by {
                    if first_dot(rest) <= j - pos {
                        if first_dot(rest) < j - pos {
                            assert(is_decimal_digit(rest[first_dot(rest)]));
                        }
                    }
                }
                assert(head[j - pos] == c);
            }
            if !(c >= '0' && c <= '9') {
                assert(!is_component(head));
                return None;
            }
            let digit: u64 = (c as u32 - 48) as u64;
            let next: u64 = value * 10 + digit;
            proof {
                let upto = rest.take(j - pos + 1);
                assert(upto.drop_last() =~= rest.take(j - pos));
                assert(upto.last() == c);
                assert(next == decimal_value(upto));
                lemma_decimal_value_grows(head, j - pos + 1);
                assert(head.take(j - pos + 1) =~= upto);
            }
            if next > 0xffff_ffff {
                assert(!is_component(head));
                return None;
            }
            value = next;
            j = j + 1;
        }
        let ghost d = j - pos;
        proof {
            lemma_first_dot_at(rest, d);
            assert(forall|k: int| 0 <= k < d ==> rest[k] != '.') by {
                assert forall|k: int| 0 <= k < d implies rest[k] != '.' by {
                    assert(is_decimal_digit(rest[k]));
                }
            }
            if j < n {
                assert(rest[d] == '.');
            }
            lemma_first_dot_at(rest, d);
        }
        if j == pos {
            assert(!is_component(rest.take(d)));
            return None;
        }
        assert(is_component(rest.take(d)));
        let ghost before = seqs@;
        seqs.push(value as u32);
        if j == n {
            proof {
                assert(parse_components(rest) == Some(seq![value as u32]));
                assert(before + seq![value as u32] =~= seqs@);
            }
            return Some(seqs);
        }
        proof {
            assert(rest.skip(d + 1) =~= text@.skip(j + 1));
            let tail = parse_components(text@.skip(j + 1));
            assert(parse_components(rest) == numbers_then(seq![value as u32], tail));
            if tail is Some {
                assert(before + (seq![value as u32] + tail->0) =~= seqs@ + tail->0);
            }
        }
        pos = j + 1;
        if pos == n {
            proof {
                let e = text@.skip(pos as int);
                assert(e.len() == 0);
                assert(first_dot(e) == 0);
                assert(!is_component(e.take(0)));
            }
            return None;
        }
    }
}

/// Identifies a band within an archive.
#[derive(Debug, PartialEq, Eq, Hash, PartialOrd, Ord)]
pub struct BandId {
    seqs: Vec<u32>,
}

impl View for BandId {
    type V = Seq<u32>;

    /// The numbers of the id.
    closed spec fn view(&self) -> Seq<u32> {
        self.seqs@
    }
}

impl Clone for BandId {
    fn clone(&self) -> (r: BandId)
        ensures
            r@ == self@,
    {
        proof {
            use_type_invariant(self);
        }
        BandId { seqs: self.seqs.clone() }
    }
}

impl BandId {
    #[verifier::type_invariant]
    spec fn well_formed(&self) -> bool {
        self.seqs@.len() >= 1
    }

    /// The id as it is written: the name of the band's directory.
    pub open spec fn name(&self) -> Seq<char> {
        band_text(self@)
    }

    /// The number of numbers in the id, which is never zero.
    pub fn len(&self) -> (r: usize)
        ensures
            r == self@.len(),
            r >= 1,
    {
        proof {
            use_type_invariant(self);
        }
        self.seqs.len()
    }

    /// Makes a new band id from its numbers.
    pub fn new(seqs: &[u32]) -> (r: BandId)
        requires
            seqs@.len() >= 1,
        ensures
            r@ == seqs@,
    {
        BandId { seqs: vstd::slice::slice_to_vec(seqs) }
    }

    /// The first band of an archive, `b0000`.
    pub fn zero() -> (r: BandId)
        ensures
            r@ == seq![0u32],
    {
        let mut seqs: Vec<u32> = Vec::new();
        seqs.push(0);
        assert(seqs@ =~= seq![0u32]);
        BandId { seqs }
    }

    /// One of the numbers of the id.
    pub fn get(&self, i: usize) -> (r: u32)
        requires
            i < self@.len(),
        ensures
            r == self@[i as int],
    {
        self.seqs[i]
    }

    /// The last number of the id.
    pub fn last(&self) -> (r: u32)
        ensures
            self@.len() >= 1,
            r == self@.last(),
    {
        proof {
            use_type_invariant(self);
        }
        self.seqs[self.seqs.len() - 1]
    }

    /// The band after this one: the same id with its last number one higher.
    /// There is none after the highest number.
    pub fn next_sibling(&self) -> (r: Option<BandId>)
        ensures
            self@.len() >= 1,
            r is Some <==> self@.last() < u32::MAX,
            r matches Some(n) ==> n@ == self@.drop_last().push((self@.last() + 1) as u32),
    {
        proof {
            use_type_invariant(self);
        }
        let n = self.seqs.len();
        let last = self.seqs[n - 1];
        if last == u32::MAX {
            return None;
        }
        let mut seqs = self.seqs.clone();
        seqs.set(n - 1, last + 1);
        assert(seqs@ =~= self@.drop_last().push((self@.last() + 1) as u32));
        Some(BandId { seqs })
    }

    /// The band before this one: the same id with its last number one lower.
    /// There is none before a last number of zero.
    pub fn previous(&self) -> (r: Option<BandId>)
        ensures
            self@.len() >= 1,
            r is Some <==> self@.last() > 0,
            r matches Some(p) ==> p@ == self@.drop_last().push((self@.last() - 1) as u32),
    {
        proof {
            use_type_invariant(self);
        }
        let n = self.seqs.len();
        let last = self.seqs[n - 1];
        if last == 0 {
            return None;
        }
        let mut seqs = self.seqs.clone();
        seqs.set(n - 1, last - 1);
        assert(seqs@ =~= self@.drop_last().push((self@.last() - 1) as u32));
        Some(BandId { seqs })
    }

    /// The id as text, such as `b0001.0003`.
    pub fn to_string(&self) -> (r: String)
        ensures
            r@ == self.name(),
    {
        proof {
            use_type_invariant(self);
            reveal_strlit("b");
            reveal_strlit(".");
        }
        let mut out = String::new();
        out.append("b");
        let n = self.seqs.len();
        let mut i: usize = n;
        // The numbers are written first, and then put together from the last
        // to the first, each in front of what is there.
        let mut pieces: Vec<String> = Vec::new();
        let mut k: usize = 0;
        while k < n
            invariant
                n == self.seqs@.len(),
                k <= n,
                pieces@.len() == k,
                forall|j: int| 0 <= j < k ==> (#[trigger] pieces@[j])@ == component_text(self.seqs@[j]),
            decreases n - k,
        {
            let mut piece = String::new();
            push_zero_padded(&mut piece, self.seqs[k] as u64, 4);
            assert(piece@ =~= component_text(self.seqs@[k as int]));
            pieces.push(piece);
            k = k + 1;
        }
        let mut body = String::new();
        while i > 0
            invariant
                n == self.seqs@.len(),
                n >= 1,
                i <= n,
                pieces@.len() == n,
                forall|j: int| 0 <= j < n ==> (#[trigger] pieces@[j])@ == component_text(self.seqs@[j]),
                body@ == components_text(self.seqs@.skip(i as int)),
            decreases i,
        {
            i = i - 1;
            let mut next = String::new();
            next.append(pieces[i].as_str());
            proof {
                reveal_strlit(".");
                assert(pieces@[i as int]@ == component_text(self.seqs@[i as int]));
                let s = self.seqs@.skip(i as int);
                assert(s.drop_first() =~= self.seqs@.skip(i as int + 1));
                assert(s[0] == self.seqs@[i as int]);
            }
            if i + 1 < n {
                next.append(".");
                next.append(body.as_str());
                assert(next@ =~= component_text(self.seqs@[i as int]) + seq!['.'] + body@);
            } else {
                assert(body@ =~= Seq::<char>::empty());
                assert(next@ =~= component_text(self.seqs@[i as int]));
            }
            body = next;
        }
        assert(self.seqs@.skip(0) =~= self.seqs@);
        out.append(body.as_str());
        assert(out@ =~= band_text(self@));
        out
    }

    /// Reads a band id from its text: `b`, then one or more decimal numbers
    /// that fit 32 bits, with dots between them. Padding is not asked for:
    /// `b1` names the same band as `b0001`.
    pub fn from_str(text: &str) -> (r: Option<BandId>)
        ensures
            r matches Some(id) ==> parse_band(text@) == Some(id@),
            r is None ==> parse_band(text@) is None,
    {
        let n = text.unicode_len();
        if n == 0 || text.get_char(0) != 'b' {
            return None;
        }
        match parse_numbers(text, 1) {
            Some(seqs) => {
                proof {
                    lemma_parsed_not_empty(text@.skip(1));
                }
                Some(BandId { seqs })
            },
            None => None,
        }
    }

    /// How this id stands to `other` in the order of band ids.
    pub fn place(&self, other: &BandId) -> (r: Place)
        ensures
            r == Place::Before <==> band_lt(self@, other@),
            r == Place::Same <==> self@ == other@,
            r == Place::After <==> band_lt(other@, self@),
    {
        let a = &self.seqs;
        let b = &other.seqs;
        let mut i: usize = 0;
        proof {
            lemma_band_lt_total(a@, b@);
        }
        while i < a.len() && i < b.len()
            invariant
                i <= a.len(),
                i <= b.len(),
                a@ == self@,
                b@ == other@,
                a@.take(i as int) == b@.take(i as int),
            decreases a.len() - i,
        {
            let x: u32 = a[i];
            let y: u32 = b[i];
            if x != y {
                proof {
                    lemma_band_lt_total(a@, b@);
                    lemma_band_lt_at(a@, b@, i as int);
                    lemma_band_lt_at(b@, a@, i as int);
                    assert(a@ != b@);
                }
                if x < y {
                    return Place::Before;
                } else {
                    return Place::After;
                }
            }
            assert(a@.take(i as int + 1) =~= a@.take(i as int).push(a@[i as int]));
            assert(b@.take(i as int + 1) =~= b@.take(i as int).push(b@[i as int]));
            i = i + 1;
        }
        proof {
            lemma_band_lt_at(a@, b@, i as int);
            lemma_band_lt_at(b@, a@, i as int);
        }
        if i < b.len() {
            assert(a@ != b@);
            Place::Before
        } else if i < a.len() {
            assert(a@ != b@);
            Place::After
        } else {
            assert(a@ =~= a@.take(i as int));
            assert(b@ =~= b@.take(i as int));
            Place::Same
        }
    }

    /// True if this id comes strictly before `other`.
    pub fn precedes(&self, other: &BandId) -> (r: bool)
        ensures
            r == band_lt(self@, other@),
    {
        match self.place(other) {
            Place::Before => true,
            _ => false,
        }
    }

    /// True if the two ids are the same.
    pub fn same_as(&self, other: &BandId) -> (r: bool)
        ensures
            r == (self@ == other@),
    {
        match self.place(other) {
            Place::Same => true,
            _ => false,
        }
    }
}

/// The band before a band comes before it in the order of band ids.
pub proof fn lemma_previous_precedes(a: Seq<u32>)
    requires
        a.len() >= 1,
        a.last() > 0,
    ensures
        band_lt(a.drop_last().push((a.last() - 1) as u32), a),
{
    let p = a.drop_last().push((a.last() - 1) as u32);
    let i = a.len() - 1;
    assert(p.take(i) =~= a.take(i));
    lemma_band_lt_at(p, a, i);
}

} // verus!
