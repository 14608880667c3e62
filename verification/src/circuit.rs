use vstd::prelude::*;

verus! {

/// Mathematical sum of the first `n` entries of `s`.
pub open spec fn sum_prefix(s: Seq<u8>, n: int) -> int
    decreases n,
{
    if n <= 0 {
        0
    } else {
        sum_prefix(s, n - 1) + s[n - 1]
    }
}

/// Extending the summed prefix over entries that are all zero does not
/// change the sum.
proof fn lemma_sum_prefix_zero_tail(s: Seq<u8>, n: int, m: int)
    requires
        0 <= n <= m <= s.len(),
        forall|i: int| n <= i < m ==> s[i] == 0,
    ensures
        sum_prefix(s, m) == sum_prefix(s, n),
    decreases m - n,
{
    if m > n {
        lemma_sum_prefix_zero_tail(s, n, m - 1);
    }
}

/// The arithmetic the confidential cluster performs on the decrypted slots:
/// add the scores and echo the count back, as the two bytes of the result.
/// Unused slots past `num_scores` must be zero; the sum is reduced modulo
/// 256 to fit its single-byte slot.
pub fn process_scores(scores: &[u8; 8], num_scores: u8) -> (r: [u8; 2])
    requires
        1 <= num_scores <= 8,
        forall|i: int| num_scores <= i < 8 ==> scores@[i] == 0,
    ensures
        r@[0] == sum_prefix(scores@, num_scores as int) % 256,
        r@[1] == num_scores,
{
    let mut sum: u16 = 0;
    let mut i: usize = 0;
    while i < 8
        invariant
            0 <= i <= 8,
            sum == sum_prefix(scores@, i as int),
            sum <= 255 * i,
        decreases 8 - i,
    {
        sum = sum + scores[i] as u16;
        i = i + 1;
    }
    proof {
        lemma_sum_prefix_zero_tail(scores@, num_scores as int, 8);
    }
    [(sum % 256) as u8, num_scores]
}

} // verus!
