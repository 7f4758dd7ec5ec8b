//! Generally useful functions.

use vstd::prelude::*;
use vstd::std_specs::cmp::PartialEqSpec;
use vstd::string::StringExecFns;

verus! {

/// Where the first item stands that `item` equals, or the number of items if
/// there is none.
pub open spec fn first_equal<T, U: PartialEq<T>>(items: Seq<T>, item: U) -> int
    decreases items.len(),
{
    if items.len() == 0 || item.eq_spec(&items[0]) {
        0
    } else {
        1 + first_equal(items.drop_first(), item)
    }
}

/// What [`first_equal`] finds.
pub proof fn lemma_first_equal<T, U: PartialEq<T>>(items: Seq<T>, item: U, at: int)
    requires
        0 <= at <= items.len(),
        forall|k: int| 0 <= k < at ==> !item.eq_spec(&#[trigger] items[k]),
        at < items.len() ==> item.eq_spec(&items[at]),
    ensures
        first_equal(items, item) == at,
    decreases items.len(),
{
    if items.len() == 0 || item.eq_spec(&items[0]) {
        if at > 0 {
            assert(!item.eq_spec(&items[0]));
        }
    } else {
        assert forall|k: int| 0 <= k < at - 1 implies !item.eq_spec(
            &#[trigger] items.drop_first()[k],
        ) by {
            assert(items.drop_first()[k] == items[k + 1]);
        }
        lemma_first_equal(items.drop_first(), item, at - 1);
    }
}

/// Removes an item from a vec, if it is present: the first that `item`
/// equals.
pub fn remove_item<T, U: PartialEq<T>>(v: &mut Vec<T>, item: &U)
    ensures
        U::obeys_eq_spec() ==> final(v)@ == (if first_equal(old(v)@, *item) < old(v)@.len() {
            old(v)@.remove(first_equal(old(v)@, *item))
        } else {
            old(v)@
        }),
{
    let mut pos: usize = 0;
    while pos < v.len()
        invariant
            pos <= v.len(),
            v@ == old(v)@,
            U::obeys_eq_spec() ==> forall|k: int| 0 <= k < pos ==> !item.eq_spec(&#[trigger] v@[k]),
        decreases v.len() - pos,
    {
        if *item == v[pos] {
            proof {
                if U::obeys_eq_spec() {
                    lemma_first_equal(v@, *item, pos as int);
                }
            }
            v.remove(pos);
            return ;
        }
        pos = pos + 1;
    }
    proof {
        if U::obeys_eq_spec() {
            lemma_first_equal(v@, *item, pos as int);
        }
    }
}

/// The three decimal digits of a number below 1000.
pub open spec fn three_digits(n: nat) -> Seq<char> {
    seq![
        crate::bandid::decimal_digit(n / 100),
        crate::bandid::decimal_digit((n / 10) % 10),
        crate::bandid::decimal_digit(n % 10),
    ]
}

/// A number in decimal with a comma before every three digits, counted from
/// the right.
pub open spec fn with_commas(n: nat) -> Seq<char>
    decreases n,
{
    if n < 1000 {
        crate::bandid::decimal_text(n)
    } else {
        with_commas(n / 1000) + seq![','] + three_digits(n % 1000)
    }
}

/// Calls `thousands::Separable::separate_with_commas` on a number.
///
/// Trusted: the number comes back in decimal with a comma inserted every
/// three digits from the right.
#[verifier::external_body]
pub(crate) fn separate_with_commas(n: u64) -> (r: String)
    ensures
        r@ == with_commas(n as nat),
{
    thousands::Separable::separate_with_commas(&n)
}

/// A number of bytes as whole megabytes, for people to read.
pub fn bytes_to_human_mb(s: u64) -> (r: String)
    ensures
        r@ == with_commas((s / 1_000_000) as nat) + " MB"@,
{
    let mut s = separate_with_commas(s / 1_000_000);
    s.append(" MB");
    s
}

/// True if `a` is zero.
pub fn zero_u32(a: &u32) -> (r: bool)
    ensures
        r == (*a == 0),
{
    *a == 0
}

/// True if `a` is zero.
pub fn zero_u64(a: &u64) -> (r: bool)
    ensures
        r == (*a == 0),
{
    *a == 0
}

} // verus!
