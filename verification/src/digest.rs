//! Content fingerprints: a trusted binding to the MD5 digest and a verified
//! hexadecimal rendering of digest bytes.

use vstd::prelude::*;
use vstd::string::StringExecFns;

verus! {

/// The 16-byte MD5 digest of a byte sequence, as the `md5` crate computes
/// it.  The digest is a pure function of the input bytes; nothing further
/// is assumed about its value.
pub uninterp spec fn md5_of(bytes: Seq<u8>) -> Seq<u8>;

/// Relies on `md5::compute`: the returned digest is 16 bytes long and
/// depends on the input bytes alone.
#[verifier::external_body]
pub(crate) fn md5_digest(bytes: &[u8]) -> (r: Vec<u8>)
    ensures
        r@ == md5_of(bytes@),
        r@.len() == 16,
{
    md5::compute(bytes).0.to_vec()
}

/// Length in bytes of the file prefix hashed by the partial-fingerprint
/// stage.
pub const PARTIAL_HASH_LEN: usize = 8192;

/// How many leading bytes of a file of `size` bytes the partial-fingerprint
/// stage hashes: the whole file when it is shorter than the bound.
pub fn partial_prefix_len(size: u64) -> (r: usize)
    ensures
        r == partial_prefix_len_spec(size),
{
    if size >= PARTIAL_HASH_LEN as u64 {
        PARTIAL_HASH_LEN
    } else {
        size as usize
    }
}

/// The prefix length hashed by the partial-fingerprint stage.
pub open spec fn partial_prefix_len_spec(size: u64) -> int {
    if size >= PARTIAL_HASH_LEN {
        PARTIAL_HASH_LEN as int
    } else {
        size as int
    }
}

/// The leading bytes of a content that the partial-fingerprint stage
/// hashes.
pub open spec fn partial_prefix_of(bytes: Seq<u8>) -> Seq<u8> {
    if bytes.len() >= PARTIAL_HASH_LEN {
        bytes.take(PARTIAL_HASH_LEN as int)
    } else {
        bytes
    }
}

/// The lower-case hexadecimal digit for a value below 16.
pub open spec fn hex_digit(n: u8) -> char
    recommends
        n < 16,
{
    if n == 0 {
        '0'
    } else if n == 1 {
        '1'
    } else if n == 2 {
        '2'
    } else if n == 3 {
        '3'
    } else if n == 4 {
        '4'
    } else if n == 5 {
        '5'
    } else if n == 6 {
        '6'
    } else if n == 7 {
        '7'
    } else if n == 8 {
        '8'
    } else if n == 9 {
        '9'
    } else if n == 10 {
        'a'
    } else if n == 11 {
        'b'
    } else if n == 12 {
        'c'
    } else if n == 13 {
        'd'
    } else if n == 14 {
        'e'
    } else {
        'f'
    }
}

/// The two lower-case hexadecimal digits of one byte, high nibble first.
pub open spec fn hex_pair(b: u8) -> Seq<char> {
    seq![hex_digit((b / 16) as u8), hex_digit((b % 16) as u8)]
}

/// The lower-case hexadecimal rendering of a byte sequence.
pub open spec fn hex_of(bytes: Seq<u8>) -> Seq<char>
    decreases bytes.len(),
{
    if bytes.len() == 0 {
        Seq::empty()
    } else {
        hex_of(bytes.drop_last()) + hex_pair(bytes.last())
    }
}

/// The hexadecimal rendering has two digits per byte, so a 16-byte
/// digest renders as 32 digits.
pub proof fn lemma_hex_of_len(bytes: Seq<u8>)
    ensures
        hex_of(bytes).len() == 2 * bytes.len(),
    decreases bytes.len(),
{
    if bytes.len() > 0 {
        lemma_hex_of_len(bytes.drop_last());
    }
}

/// A one-character string slice holding the hexadecimal digit of `n`.
fn hex_digit_str(n: u8) -> (r: &'static str)
    requires
        n < 16,
    ensures
        r@ == seq![hex_digit(n)],
{
    let r: &'static str = if n == 0 {
        "0"
    } else if n == 1 {
        "1"
    } else if n == 2 {
        "2"
    } else if n == 3 {
        "3"
    } else if n == 4 {
        "4"
    } else if n == 5 {
        "5"
    } else if n == 6 {
        "6"
    } else if n == 7 {
        "7"
    } else if n == 8 {
        "8"
    } else if n == 9 {
        "9"
    } else if n == 10 {
        "a"
    } else if n == 11 {
        "b"
    } else if n == 12 {
        "c"
    } else if n == 13 {
        "d"
    } else if n == 14 {
        "e"
    } else {
        "f"
    };
    proof {
        reveal_strlit("0");
        reveal_strlit("1");
        reveal_strlit("2");
        reveal_strlit("3");
        reveal_strlit("4");
        reveal_strlit("5");
        reveal_strlit("6");
        reveal_strlit("7");
        reveal_strlit("8");
        reveal_strlit("9");
        reveal_strlit("a");
        reveal_strlit("b");
        reveal_strlit("c");
        reveal_strlit("d");
        reveal_strlit("e");
        reveal_strlit("f");
    }
    r
}

/// Byte-for-byte equality of two byte strings.
pub fn bytes_equal(a: &[u8], b: &[u8]) -> (r: bool)
    ensures
        r == (a@ == b@),
{
    if a.len() != b.len() {
        return false;
    }
    let mut i: usize = 0;
    while i < a.len()
        invariant
            i <= a.len(),
            a@.len() == b@.len(),
            forall|m: int| 0 <= m < i ==> a@[m] == b@[m],
        decreases a.len() - i,
    {
        if a[i] != b[i] {
            return false;
        }
        i = i + 1;
    }
    proof {
        assert(a@ =~= b@);
    }
    true
}

/// A fresh copy of a byte vector.
pub fn copy_bytes(v: &Vec<u8>) -> (r: Vec<u8>)
    ensures
        r@ == v@,
{
    let mut r: Vec<u8> = Vec::new();
    let mut i: usize = 0;
    while i < v.len()
        invariant
            i <= v.len(),
            r@ == v@.take(i as int),
        decreases v.len() - i,
    {
        r.push(v[i]);
        proof {
            assert(r@ =~= v@.take(i + 1 as int));
        }
        i = i + 1;
    }
    proof {
        assert(v@.take(v@.len() as int) =~= v@);
    }
    r
}

/// Renders digest bytes as lower-case hexadecimal, two digits per byte.
pub fn digest_hex(digest: &Vec<u8>) -> (r: String)
    ensures
        r@ == hex_of(digest@),
{
    let mut r = String::new();
    let mut i: usize = 0;
    while i < digest.len()
        invariant
            i <= digest.len(),
            r@ == hex_of(digest@.take(i as int)),
        decreases digest.len() - i,
    {
        let b = digest[i];
        let hi: u8 = b / 16;
        let lo: u8 = b % 16;
        r.append(hex_digit_str(hi));
        r.append(hex_digit_str(lo));
        proof {
            let t = digest@.take(i + 1 as int);
            assert(t.drop_last() =~= digest@.take(i as int));
            assert(t.last() == digest@[i as int]);
            assert(r@ =~= hex_of(digest@.take(i + 1 as int)));
        }
        i = i + 1;
    }
    proof {
        assert(digest@.take(digest@.len() as int) =~= digest@);
    }
    r
}

} // verus!
