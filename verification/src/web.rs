//! Fetched web pages, and the digests that name them in the cache.

use vstd::prelude::*;

use std::hash::{Hash, Hasher};

use crate::sept::{pw, sept_alphabet};

verus! {

/// A fetched web page.
#[derive(Debug, Clone, PartialEq, Eq, PartialOrd, Ord, Hash)]
pub struct Page {
    pub url: String,
    pub url_final: String,
    pub content_type: Option<String>,
    pub body: String,
}

/// Hashes `bytes` with XXH3 (64-bit), as `Hash` for byte slices feeds them to
/// a hasher: their length, then the bytes.
///
/// Calls `twox_hash::Xxh3Hash64`'s `write` and `finish`. Nothing is claimed
/// of the result: the length is fed in the machine's own `usize` width and
/// byte order, so the same bytes hash differently on different machines.
#[verifier::external_body]
fn xxh3_hash(bytes: &[u8]) -> u64 {
    let mut hasher = twox_hash::Xxh3Hash64::default();
    bytes.hash(&mut hasher);
    hasher.finish()
}

/// Hexadecimal digit `k` (from the most significant) of the sixteen digits
/// of `hash`.
pub open spec fn hex_digit(hash: u64, k: int) -> nat {
    (hash as nat / pw(16, (15 - k) as nat)) % 16
}

/// `x` followed by the sixteen uppercase hexadecimal digits of `hash`.
pub open spec fn digest_chars(hash: u64) -> Seq<char> {
    seq!['x'] + Seq::new(16, |k: int| sept_alphabet()[hex_digit(hash, k) as int])
}

proof fn lemma_hex_step(hash: u64, k: int)
    requires
        0 <= k < 16,
    ensures
        hash as nat / pw(16, (16 - k) as nat) == (hash as nat / pw(16, (15 - k) as nat)) / 16,
        pw(16, (15 - k) as nat) > 0,
{
    let p = pw(16, (15 - k) as nat);
    lemma_pw16_positive((15 - k) as nat);
    assert(pw(16, (16 - k) as nat) == 16 * p);
    vstd::arithmetic::div_mod::lemma_div_denominator(hash as int, p as int, 16);
    assert(p * 16 == 16 * p) by (nonlinear_arith);
}

proof fn lemma_pw16_positive(exp: nat)
    ensures
        pw(16, exp) > 0,
    decreases exp,
{
    if exp > 0 {
        lemma_pw16_positive((exp - 1) as nat);
    }
}

/// `x` followed by the sixteen uppercase hexadecimal digits of `hash`.
pub fn digest_string(hash: u64) -> (digest: String)
    ensures
        digest@ == digest_chars(hash),
{
    let alphabet = "0123456789ABCDEFGHJKMNPQRSTVWXYZ";
    let prefix = "x";
    proof {
        reveal_strlit("0123456789ABCDEFGHJKMNPQRSTVWXYZ");
        reveal_strlit("x");
        assert(alphabet@ =~= sept_alphabet());
    }
    let mut digits: Vec<u64> = vec![0u64; 16];
    let mut rest = hash;
    let mut k: usize = 16;
    proof {
        assert(pw(16, 0) == 1);
        assert(hash as nat / 1 == hash);
    }
    while k > 0
        invariant
            k <= 16,
            digits@.len() == 16,
            rest == hash as nat / pw(16, (16 - k) as nat),
            forall|j: int| k <= j < 16 ==> digits@[j] == hex_digit(hash, j),
        decreases k,
    {
        k = k - 1;
        proof {
            lemma_hex_step(hash, k as int);
        }
        digits.set(k, rest % 16);
        rest = rest / 16;
    }
    let mut digest = String::new();
    digest.append(prefix);
    let mut j: usize = 0;
    while j < 16
        invariant
            j <= 16,
            digits@.len() == 16,
            alphabet@ == sept_alphabet(),
            forall|i: int| 0 <= i < 16 ==> digits@[i] == hex_digit(hash, i),
            digest@ == digest_chars(hash).take(j + 1),
        decreases 16 - j,
    {
        assert(hex_digit(hash, j as int) < 16);
        let d = digits[j] as usize;
        let piece = alphabet.substring_ascii(d, d + 1);
        digest.append(piece);
        j = j + 1;
        assert(digest@ =~= digest_chars(hash).take(j + 1));
    }
    assert(digest_chars(hash).take(17) =~= digest_chars(hash));
    digest
}

/// The name of `bytes` in the page cache: `x` and the sixteen uppercase
/// hexadecimal digits of their XXH3 hash.
pub fn digest(bytes: &[u8]) -> (digest: String)
    ensures
        exists|hash: u64| digest@ == digest_chars(hash),
{
    let hash = xxh3_hash(bytes);
    digest_string(hash)
}

} // verus!
