use vstd::prelude::*;

use vstd::utf8::encode_utf8;

use crate::text::push_char;

verus! {

/// What `xxhash_rust::xxh3::xxh3_64` returns for the given bytes.
pub uninterp spec fn spec_xxh3_64(bytes: Seq<u8>) -> u64;

/// Hashes a gram (a short byte string) for the posting lookup table.
///
/// Trusted: calls `xxhash_rust::xxh3::xxh3_64`; the contract claims only that
/// the result is a function of the bytes alone, named `spec_xxh3_64`.
#[verifier::external_body]
pub fn hash_gram(bytes: &[u8]) -> (h: u64)
    ensures
        h == spec_xxh3_64(bytes@),
{
    xxhash_rust::xxh3::xxh3_64(bytes)
}

/// What `blake3::hash` returns for the given bytes, as its 32 bytes.
pub uninterp spec fn spec_blake3(bytes: Seq<u8>) -> Seq<u8>;

/// The BLAKE3 digest of the bytes.
///
/// Trusted: calls `blake3::hash` and copies out `Hash::as_bytes`, which is
/// `OUT_LEN` (32) bytes long; the digest is a function of the input alone.
#[verifier::external_body]
pub(crate) fn blake3_digest(bytes: &[u8]) -> (d: Vec<u8>)
    ensures
        d@ == spec_blake3(bytes@),
        d@.len() == 32,
{
    blake3::hash(bytes).as_bytes().to_vec()
}

/// `16` to the power `k`.
pub open spec fn pow16(k: nat) -> nat
    decreases k,
{
    if k == 0 {
        1
    } else {
        16 * pow16((k - 1) as nat)
    }
}

/// The lowercase hexadecimal digit for `d` (below 16).
pub open spec fn hex_char(d: u64) -> char {
    if d < 10 {
        ((48 + d) as u8) as char
    } else {
        ((87 + d) as u8) as char
    }
}

/// `x` written as exactly 16 lowercase hexadecimal digits, most significant
/// first.
pub open spec fn hex16(x: u64) -> Seq<char> {
    Seq::new(16, |i: int| hex_char(((x as nat / pow16((15 - i) as nat)) % 16) as u64))
}

proof fn lemma_pow16_step(k: nat)
    requires
        k < 15,
    ensures
        pow16(k + 1) == 16 * pow16(k),
        pow16(k) <= pow16(15),
        pow16(k) >= 1,
        pow16(15) == 0x1000_0000_0000_0000,
    decreases 15 - k,
{
    reveal_with_fuel(pow16, 16);
    if k < 14 {
        lemma_pow16_step(k + 1);
    }
}

/// The id of a repository: the xxh3 hash of its path, as 16 lowercase
/// hexadecimal digits.
pub fn hash_repo_id(input: &str) -> (id: String)
    ensures
        id@ == hex16(spec_xxh3_64(encode_utf8(input@))),
{
    let x = hash_gram(input.as_bytes());
    let mut out = String::new();
    let mut div: u64 = 0x1000_0000_0000_0000;
    proof {
        lemma_pow16_step(0);
    }
    for i in 0..16usize
        invariant
            i < 16 ==> div == pow16((15 - i) as nat),
            div > 0,
            out@ == hex16(x).take(i as int),
            x == spec_xxh3_64(encode_utf8(input@)),
    {
        let d = (x / div) % 16;
        let c = if d < 10 {
            (48u8 + d as u8) as char
        } else {
            (87u8 + d as u8) as char
        };
        assert(c == hex16(x)[i as int]);
        push_char(&mut out, c);
        assert(hex16(x).take(i + 1) =~= hex16(x).take(i as int).push(c));
        if i < 15 {
            proof {
                lemma_pow16_step((14 - i) as nat);
            }
            div = div / 16;
        }
    }
    assert(hex16(x).take(16) =~= hex16(x));
    out
}

} // verus!
