//! Block hashes: the BLAKE2b-512 digest of a block's uncompressed bytes,
//! written in file names as 128 lowercase hexadecimal digits.

use vstd::prelude::*;
use vstd::string::StringExecFns;
use vstd::string::StringSliceAdditionalSpecFns;

verus! {

/// Length of a block hash in bytes.
pub const BLAKE_HASH_SIZE_BYTES: usize = 64;

/// The BLAKE2b digest of 64 bytes, without a key, of `data`.
pub uninterp spec fn blake2b_digest(data: Seq<u8>) -> Seq<u8>;

/// Calls `blake2_rfc::blake2b::blake2b` for a 64-byte digest with an empty
/// key, and copies the result out.
///
/// Trusted: the result is the digest of exactly the bytes given, and it is as
/// long as the length asked for.
#[verifier::external_body]
pub(crate) fn blake2b_64(data: &[u8]) -> (r: Vec<u8>)
    ensures
        r@ == blake2b_digest(data@),
        r@.len() == BLAKE_HASH_SIZE_BYTES,
{
    blake2_rfc::blake2b::blake2b(BLAKE_HASH_SIZE_BYTES, &[], data).as_bytes().to_vec()
}

/// The lowercase hexadecimal digit for a value below 16.
pub open spec fn hex_digit(n: u8) -> char {
    if n < 10 {
        (48 + n) as u8 as char
    } else {
        (87 + n) as u8 as char
    }
}

/// True for `0`-`9` and `a`-`f`.
pub open spec fn is_lower_hex(c: char) -> bool {
    ('0' <= c <= '9') || ('a' <= c <= 'f')
}

/// The value of a lowercase hexadecimal digit.
pub open spec fn hex_value(c: char) -> u8 {
    if '0' <= c <= '9' {
        (c as u8 - 48) as u8
    } else {
        (c as u8 - 87) as u8
    }
}

/// Bytes written as lowercase hexadecimal digits, two for each byte, the high
/// half first.
pub open spec fn hex_text(bytes: Seq<u8>) -> Seq<char> {
    Seq::new(
        2 * bytes.len(),
        |i: int|
            if i % 2 == 0 {
                hex_digit(bytes[i / 2] / 16)
            } else {
                hex_digit(bytes[i / 2] % 16)
            },
    )
}

/// True if `text` is made of lowercase hexadecimal digits only.
pub open spec fn all_lower_hex(text: Seq<char>) -> bool {
    forall|i: int| 0 <= i < text.len() ==> is_lower_hex(#[trigger] text[i])
}

/// True if `text` can be the name of a block: 128 lowercase hexadecimal digits.
pub open spec fn is_hash_name(text: Seq<char>) -> bool {
    text.len() == 2 * BLAKE_HASH_SIZE_BYTES && all_lower_hex(text)
}

/// A hexadecimal digit gives its value back.
pub proof fn lemma_hex_digit_value(n: u8)
    requires
        n < 16,
    ensures
        is_lower_hex(hex_digit(n)),
        hex_value(hex_digit(n)) == n,
{
}

/// The value of a digit gives the digit back.
pub proof fn lemma_hex_value_digit(c: char)
    requires
        is_lower_hex(c),
    ensures
        hex_value(c) < 16,
        hex_digit(hex_value(c)) == c,
{
}

/// Hexadecimal text is made of digits only.
pub proof fn lemma_hex_text_digits(bytes: Seq<u8>)
    ensures
        all_lower_hex(hex_text(bytes)),
        hex_text(bytes).len() == 2 * bytes.len(),
{
    assert forall|i: int| 0 <= i < hex_text(bytes).len() implies is_lower_hex(
        #[trigger] hex_text(bytes)[i],
    ) by {
        let b = bytes[i / 2];
        assert(b / 16 < 16 && b % 16 < 16);
        lemma_hex_digit_value(b / 16);
        lemma_hex_digit_value(b % 16);
    }
}

/// Different bytes never share a hexadecimal text.
pub proof fn lemma_hex_text_injective(a: Seq<u8>, b: Seq<u8>)
    requires
        hex_text(a) == hex_text(b),
    ensures
        a == b,
{
    assert(hex_text(a).len() == 2 * a.len());
    assert(hex_text(b).len() == 2 * b.len());
    assert forall|k: int| 0 <= k < a.len() implies a[k] == b[k] by {
        let x = a[k];
        let y = b[k];
        assert(hex_text(a)[2 * k] == hex_digit(x / 16));
        assert(hex_text(b)[2 * k] == hex_digit(y / 16));
        assert(hex_text(a)[2 * k + 1] == hex_digit(x % 16));
        assert(hex_text(b)[2 * k + 1] == hex_digit(y % 16));
        assert(x / 16 < 16 && x % 16 < 16 && y / 16 < 16 && y % 16 < 16);
        lemma_hex_digit_value(x / 16);
        lemma_hex_digit_value(y / 16);
        lemma_hex_digit_value(x % 16);
        lemma_hex_digit_value(y % 16);
        assert(x / 16 == y / 16 && x % 16 == y % 16);
    }
    assert(a =~= b);
}

/// The text of one hexadecimal digit.
fn digit_str(n: u8) -> (r: &'static str)
    requires
        n < 16,
    ensures
        r@ == seq![hex_digit(n)],
{
    proof {
        reveal_strlit("0");
        reveal_strlit("1");
        reveal_strlit("2");
        reveal_strlit("3");
        reveal_strlit("4");
        reveal_strlit("5");
        reveal_strlit("6");
        reveal_strlit("7");
        reveal_strlit("8");
        reveal_strlit("9");
        reveal_strlit("a");
        reveal_strlit("b");
        reveal_strlit("c");
        reveal_strlit("d");
        reveal_strlit("e");
        reveal_strlit("f");
    }
    let r = match n {
        0 => "0",
        1 => "1",
        2 => "2",
        3 => "3",
        4 => "4",
        5 => "5",
        6 => "6",
        7 => "7",
        8 => "8",
        9 => "9",
        10 => "a",
        11 => "b",
        12 => "c",
        13 => "d",
        14 => "e",
        _ => "f",
    };
    assert(r@ =~= seq![hex_digit(n)]);
    r
}

/// Writes bytes as lowercase hexadecimal digits.
pub fn to_hex(bytes: &[u8]) -> (r: String)
    ensures
        r@ == hex_text(bytes@),
{
    let mut out = String::new();
    let mut i: usize = 0;
    while i < bytes.len()
        invariant
            i <= bytes.len(),
            out@ == hex_text(bytes@.take(i as int)),
        decreases bytes.len() - i,
    {
        let b: u8 = bytes[i];
        let ghost before = out@;
        out.append(digit_str(b / 16));
        out.append(digit_str(b % 16));
        proof {
            let next = bytes@.take(i as int + 1);
            assert(next =~= bytes@.take(i as int).push(b));
            assert(out@ =~= hex_text(next)) by {
                assert forall|k: int| 0 <= k < out@.len() implies out@[k] == hex_text(next)[k] by {
                    if k < 2 * i {
                        assert(out@[k] == before[k]);
                        assert(next[k / 2] == bytes@.take(i as int)[k / 2]);
                    }
                }
            }
        }
        i = i + 1;
    }
    assert(bytes@.take(i as int) =~= bytes@);
    out
}

/// The value of a hexadecimal digit given as an ASCII byte, if it is one.
fn hex_value_of(b: u8) -> (r: Option<u8>)
    ensures
        r is Some <==> b < 128 && is_lower_hex(b as char),
        r matches Some(v) ==> v == hex_value(b as char) && v < 16,
{
    if b >= 48 && b <= 57 {
        Some(b - 48)
    } else if b >= 97 && b <= 102 {
        Some(b - 87)
    } else {
        None
    }
}

/// Reads lowercase hexadecimal digits back into bytes.
///
/// Anything but an even number of the digits `0`-`9` and `a`-`f` gives `None`.
pub fn from_hex(text: &str) -> (r: Option<Vec<u8>>)
    ensures
        r is Some <==> text@.len() % 2 == 0 && all_lower_hex(text@),
        r matches Some(v) ==> hex_text(v@) == text@,
{
    if !text.is_ascii() {
        proof {
            if all_lower_hex(text@) {
                assert forall|i: int| 0 <= i < text@.len() implies '\0' <= #[trigger] text@[i]
                    <= '\u{7f}' by {
                    assert(is_lower_hex(text@[i]));
                }
            }
        }
        return None;
    }
    let raw = text.as_bytes();
    proof {
        vstd::string::is_ascii_spec_bytes(text);
    }
    assert(raw@.len() == text@.len());
    assert(forall|i: int| 0 <= i < raw@.len() ==> raw@[i] == text@[i] as u8);
    if raw.len() % 2 != 0 {
        return None;
    }
    let mut out: Vec<u8> = Vec::new();
    let mut i: usize = 0;
    while i < raw.len()
        invariant
            i <= raw.len(),
            i % 2 == 0,
            raw.len() % 2 == 0,
            raw@.len() == text@.len(),
            vstd::string::is_ascii(text),
            forall|j: int| 0 <= j < raw@.len() ==> raw@[j] == text@[j] as u8,
            out@.len() == i / 2,
            forall|j: int| 0 <= j < i ==> is_lower_hex(#[trigger] text@[j]),
            hex_text(out@) == text@.take(i as int),
        decreases raw.len() - i,
    {
        let hi_b: u8 = raw[i];
        let lo_b: u8 = raw[i + 1];
        assert('\0' <= text@[i as int] <= '\u{7f}');
        assert('\0' <= text@[i as int + 1] <= '\u{7f}');
        assert(hi_b as char == text@[i as int]);
        assert(lo_b as char == text@[i as int + 1]);
        match (hex_value_of(hi_b), hex_value_of(lo_b)) {
            (Some(hi), Some(lo)) => {
                let ghost before = out@;
                out.push(hi * 16 + lo);
                proof {
                    lemma_hex_value_digit(text@[i as int]);
                    lemma_hex_value_digit(text@[i as int + 1]);
                    let b: u8 = (hi * 16 + lo) as u8;
                    assert(b / 16 == hi && b % 16 == lo);
                    let want = text@.take(i as int + 2);
                    assert(hex_text(out@) =~= want) by {
                        assert forall|k: int| 0 <= k < want.len() implies hex_text(out@)[k]
                            == want[k] by {
                            if k < i {
                                assert(out@[k / 2] == before[k / 2]);
                                assert(hex_text(before)[k] == text@.take(i as int)[k]);
                            }
                        }
                    }
                }
            },
            _ => {
                assert(!all_lower_hex(text@)) by {
                    if all_lower_hex(text@) {
                        assert(is_lower_hex(text@[i as int]));
                        assert(is_lower_hex(text@[i as int + 1]));
                    }
                }
                return None;
            },
        }
        i = i + 2;
    }
    assert(text@.take(i as int) =~= text@);
    assert(all_lower_hex(text@));
    Some(out)
}

/// The hash of the uncompressed content of a block.
#[derive(Debug, PartialEq, Eq, Hash, PartialOrd, Ord)]
pub struct BlockHash {
    bin: Vec<u8>,
}

impl View for BlockHash {
    type V = Seq<u8>;

    /// The 64 bytes of the hash.
    closed spec fn view(&self) -> Seq<u8> {
        self.bin@
    }
}

impl BlockHash {
    #[verifier::type_invariant]
    spec fn well_formed(&self) -> bool {
        self.bin@.len() == BLAKE_HASH_SIZE_BYTES
    }

    /// The hash written as text: the name of its block.
    pub open spec fn name(&self) -> Seq<char> {
        hex_text(self@)
    }

    /// Every hash has 64 bytes.
    pub fn len(&self) -> (r: usize)
        ensures
            r == BLAKE_HASH_SIZE_BYTES,
            self@.len() == BLAKE_HASH_SIZE_BYTES,
    {
        proof {
            use_type_invariant(self);
        }
        self.bin.len()
    }

    /// The hash of `data`.
    pub fn hash_bytes(data: &[u8]) -> (r: BlockHash)
        ensures
            r@ == blake2b_digest(data@),
            r@.len() == BLAKE_HASH_SIZE_BYTES,
    {
        BlockHash { bin: blake2b_64(data) }
    }

    /// A hash from its 64 bytes; `None` for any other number of bytes.
    pub fn from_bytes(bin: &[u8]) -> (r: Option<BlockHash>)
        ensures
            r is Some <==> bin@.len() == BLAKE_HASH_SIZE_BYTES,
            r matches Some(h) ==> h@ == bin@,
    {
        if bin.len() == BLAKE_HASH_SIZE_BYTES {
            Some(BlockHash { bin: vstd::slice::slice_to_vec(bin) })
        } else {
            None
        }
    }

    /// Reads a hash from the name of a block.
    pub fn from_str(text: &str) -> (r: Option<BlockHash>)
        ensures
            r is Some <==> is_hash_name(text@),
            r matches Some(h) ==> h.name() == text@ && h@.len() == BLAKE_HASH_SIZE_BYTES,
    {
        match from_hex(text) {
            Some(bin) => {
                assert(hex_text(bin@).len() == 2 * bin@.len());
                if bin.len() == BLAKE_HASH_SIZE_BYTES {
                    Some(BlockHash { bin })
                } else {
                    None
                }
            },
            None => None,
        }
    }

    /// The bytes of the hash.
    pub fn as_bytes(&self) -> (r: &[u8])
        ensures
            r@ == self@,
            r@.len() == BLAKE_HASH_SIZE_BYTES,
    {
        proof {
            use_type_invariant(self);
        }
        self.bin.as_slice()
    }

    /// The hash as 128 lowercase hexadecimal digits.
    pub fn to_string(&self) -> (r: String)
        ensures
            r@ == self.name(),
            is_hash_name(r@),
    {
        proof {
            use_type_invariant(self);
            lemma_hex_text_digits(self@);
        }
        to_hex(self.bin.as_slice())
    }

    /// True if the two hashes are the same.
    pub fn same_as(&self, other: &BlockHash) -> (r: bool)
        ensures
            r == (self@ == other@),
    {
        proof {
            use_type_invariant(self);
            use_type_invariant(other);
        }
        let mut i: usize = 0;
        while i < BLAKE_HASH_SIZE_BYTES
            invariant
                i <= BLAKE_HASH_SIZE_BYTES,
                self.bin@.len() == BLAKE_HASH_SIZE_BYTES,
                other.bin@.len() == BLAKE_HASH_SIZE_BYTES,
                self.bin@.take(i as int) == other.bin@.take(i as int),
            decreases BLAKE_HASH_SIZE_BYTES - i,
        {
            if self.bin[i] != other.bin[i] {
                return false;
            }
            assert(self.bin@.take(i as int + 1) =~= self.bin@.take(i as int).push(self.bin@[i as int]));
            assert(other.bin@.take(i as int + 1) =~= other.bin@.take(i as int).push(
                other.bin@[i as int],
            ));
            i = i + 1;
        }
        assert(self.bin@ =~= self.bin@.take(i as int));
        assert(other.bin@ =~= other.bin@.take(i as int));
        true
    }
}

impl Clone for BlockHash {
    fn clone(&self) -> (r: BlockHash)
        ensures
            r@ == self@,
    {
        proof {
            use_type_invariant(self);
        }
        BlockHash { bin: self.bin.clone() }
    }
}

/// Two hashes with the same name are the same hash.
pub proof fn lemma_name_decides_hash(a: BlockHash, b: BlockHash)
    requires
        a.name() == b.name(),
    ensures
        a@ == b@,
{
    lemma_hex_text_injective(a@, b@);
}

} // verus!
