use vstd::prelude::*;

verus! {

/// The holiday hash of the first `n` characters: start from zero and,
/// for each character, add its code, multiply by 17, and reduce modulo
/// 256.
pub open spec fn hash_rec(s: Seq<char>, n: int) -> int
    decreases n,
{
    if n <= 0 {
        0
    } else {
        ((hash_rec(s, n - 1) + s[n - 1] as int) * 17) % 256
    }
}

/// Computes the holiday hash of a string.
pub fn hash(s: &str) -> (r: u32)
    ensures
        r == hash_rec(s@, s@.len() as int),
        r < 256,
{
    let n = s.unicode_len();
    let mut acc: u32 = 0;
    let mut i: usize = 0;
    while i < n
        invariant
            0 <= i <= n,
            n == s@.len(),
            acc == hash_rec(s@, i as int),
            acc < 256,
        decreases n - i,
    {
        let c = s.get_char(i);
        acc = ((acc + c as u32) * 17) % 256;
        i = i + 1;
    }
    acc
}

} // verus!
