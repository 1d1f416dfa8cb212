//! Random salts for generated filenames: six characters drawn uniformly
//! from a restricted alphabet (upper-case letters and digits, minus the
//! visually ambiguous `O` and `0`).

use vstd::prelude::*;

verus! {

/// The seedable random number generator that callers hand to salt
/// generation. Opaque here; tests and the application seed it themselves.
#[verifier::external_type_specification]
#[verifier::external_body]
pub struct ExChaCha8Rng(rand_chacha::ChaCha8Rng);

/// Relies on rand's `Uniform::new(0, n)` and `Distribution::sample`: a draw
/// uniformly distributed over the half-open range `[0, n)`. `Uniform::new`
/// panics when the range is empty, so `n` must be positive. Nothing more is
/// assumed of the value: every outcome below `n` is possible.
#[verifier::external_body]
fn sample_below(rng: &mut rand_chacha::ChaCha8Rng, n: usize) -> (r: usize)
    requires
        0 < n,
    ensures
        r < n,
{
    rand::Rng::sample(rng, rand::distributions::Uniform::new(0, n))
}

/// The 34-symbol salt alphabet.
pub open spec fn salt_alphabet() -> Seq<char> {
    "ABCDEFGHIJKLMNPQRSTUVWXYZ123456789"@
}

/// How long every salt is.
pub open spec fn salt_len() -> nat {
    6
}

/// Whether `s` has the shape of a generated salt.
pub open spec fn is_salt(s: Seq<char>) -> bool {
    &&& s.len() == salt_len()
    &&& forall|i: int| 0 <= i < s.len() ==> salt_alphabet().contains(#[trigger] s[i])
}

/// Draw a fresh six-character salt from the salt alphabet, uniformly per
/// character.
pub fn gen_salt(rng: &mut rand_chacha::ChaCha8Rng) -> (r: String)
    ensures
        is_salt(r@),
{
    let charset = "ABCDEFGHIJKLMNPQRSTUVWXYZ123456789";
    proof {
        reveal_strlit("ABCDEFGHIJKLMNPQRSTUVWXYZ123456789");
    }
    let mut salt = String::new();
    let mut i: usize = 0;
    while i < 6
        invariant
            charset@ == salt_alphabet(),
            charset@.len() == 34,
            0 <= i <= 6,
            salt@.len() == i,
            forall|j: int| 0 <= j < i ==> salt_alphabet().contains(#[trigger] salt@[j]),
        decreases 6 - i,
    {
        let k = sample_below(rng, 34);
        let c = charset.substring_char(k, k + 1);
        assert(c@ =~= seq![charset@[k as int]]);
        salt.append(c);
        assert(salt_alphabet().contains(salt@[i as int]));
        i = i + 1;
    }
    salt
}

} // verus!
