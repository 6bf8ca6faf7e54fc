//! Frequency accumulation: summing a list of signed shifts, and finding the
//! first running total that repeats when the list is applied cyclically.

use vstd::prelude::*;

verus! {

/// The sum of a sequence of shifts.
pub open spec fn sum_of(s: Seq<i64>) -> int
    decreases s.len(),
{
    if s.len() == 0 {
        0
    } else {
        sum_of(s.drop_last()) + s.last()
    }
}

/// The running total after applying `k` shifts from the cyclically repeated
/// list, starting from `start`.
pub open spec fn cyc_sum(start: int, s: Seq<i64>, k: nat) -> int
    decreases k,
{
    if k == 0 || s.len() == 0 {
        start
    } else {
        cyc_sum(start, s, (k - 1) as nat) + s[((k - 1) as int) % (s.len() as int)]
    }
}

/// The running total at step `n` repeats an earlier one.
pub open spec fn dup_at(start: int, s: Seq<i64>, n: nat) -> bool {
    exists|m: nat| m < n && cyc_sum(start, s, m) == cyc_sum(start, s, n)
}

/// Applies every shift once to the starting value.
pub fn calc_shift(start: i64, shifts: &[i64]) -> (r: i64)
    requires
        forall|k: int|
            0 <= k <= shifts@.len() ==> i64::MIN <= start + sum_of(#[trigger] shifts@.take(k))
                <= i64::MAX,
    ensures
        r == start + sum_of(shifts@),
{
    let mut val = start;
    let mut i: usize = 0;
    while i < shifts.len()
        invariant
            i <= shifts@.len(),
            val == start + sum_of(shifts@.take(i as int)),
            forall|k: int|
                0 <= k <= shifts@.len() ==> i64::MIN <= start + sum_of(#[trigger] shifts@.take(k))
                    <= i64::MAX,
        decreases shifts@.len() - i,
    {
        proof {
            assert(shifts@.take(i + 1).drop_last() =~= shifts@.take(i as int));
            assert(shifts@.take(i + 1).last() == shifts@[i as int]);
        }
        val = val + shifts[i];
        i = i + 1;
    }
    proof {
        assert(shifts@.take(shifts@.len() as int) =~= shifts@);
    }
    val
}

/// Whether the vector holds the value.
fn seen_contains(v: &Vec<i64>, x: i64) -> (r: bool)
    ensures
        r == v@.contains(x),
{
    let mut k: usize = 0;
    while k < v.len()
        invariant
            k <= v@.len(),
            forall|j: int| 0 <= j < k ==> v@[j] != x,
        decreases v@.len() - k,
    {
        if v[k] == x {
            return true;
        }
        k = k + 1;
    }
    false
}

/// There is a least step at which the running total repeats.
proof fn lemma_least_dup(start: int, s: Seq<i64>, n: nat)
    requires
        dup_at(start, s, n),
    ensures
        exists|l: nat|
            #[trigger] dup_at(start, s, l) && l <= n && (forall|m: nat|
                m < l ==> !(#[trigger] dup_at(start, s, m))),
    decreases n,
{
    if exists|m: nat| m < n && #[trigger] dup_at(start, s, m) {
        let m = choose|m: nat| m < n && #[trigger] dup_at(start, s, m);
        lemma_least_dup(start, s, m);
        let l = choose|l: nat|
            #[trigger] dup_at(start, s, l) && l <= m && (forall|m2: nat|
                m2 < l ==> !(#[trigger] dup_at(start, s, m2)));
        assert(dup_at(start, s, l) && l <= n);
    } else {
        assert(dup_at(start, s, n) && n <= n);
    }
}

/// Applies the shifts cyclically from the starting value until a running
/// total repeats, and returns that total: the value reached at the first
/// step whose total has been seen before.
pub fn find_dup_freq(start: i64, shifts: &[i64]) -> (r: i64)
    requires
        shifts@.len() >= 1,
        exists|n: nat|
            1 <= n && #[trigger] dup_at(start as int, shifts@, n) && (forall|k: nat|
                k <= n ==> i64::MIN <= #[trigger] cyc_sum(start as int, shifts@, k) <= i64::MAX),
    ensures
        exists|n: nat|
            1 <= n && #[trigger] dup_at(start as int, shifts@, n) && (forall|m: nat|
                m < n ==> !(#[trigger] dup_at(start as int, shifts@, m))) && r == cyc_sum(
                start as int,
                shifts@,
                n,
            ),
{
    let ghost s = shifts@;
    let ghost n0 = choose|n: nat|
        1 <= n && #[trigger] dup_at(start as int, s, n) && (forall|k: nat|
            k <= n ==> i64::MIN <= #[trigger] cyc_sum(start as int, s, k) <= i64::MAX);
    proof {
        lemma_least_dup(start as int, s, n0);
    }
    let ghost nleast = choose|l: nat|
        #[trigger] dup_at(start as int, s, l) && l <= n0 && (forall|m: nat|
            m < l ==> !(#[trigger] dup_at(start as int, s, m)));
    proof {
        assert(1 <= nleast) by {
            if nleast == 0 {
                let m = choose|m: nat|
                    m < 0 && (#[trigger] cyc_sum(start as int, s, m)) == cyc_sum(start as int, s, 0);
                assert(false);
            }
        }
    }
    let mut seen: Vec<i64> = Vec::new();
    seen.push(start);
    let mut val = start;
    let mut j: usize = 0;
    let ghost mut k: nat = 0;
    proof {
        vstd::arithmetic::div_mod::lemma_small_mod(0, s.len() as nat);
    }
    loop
        invariant
            s == shifts@,
            s.len() >= 1,
            j < shifts@.len(),
            j == k % (s.len() as nat),
            val == cyc_sum(start as int, s, k),
            seen@.len() == k + 1,
            forall|m: int| 0 <= m <= k ==> seen@[m] == cyc_sum(start as int, s, m as nat),
            k < nleast,
            nleast <= n0,
            dup_at(start as int, s, nleast),
            forall|m: nat| m < nleast ==> !(#[trigger] dup_at(start as int, s, m)),
            forall|m: nat|
                m <= n0 ==> i64::MIN <= #[trigger] cyc_sum(start as int, s, m) <= i64::MAX,
        decreases nleast - k,
    {
        proof {
            assert(k + 1 <= nleast);
            assert(k + 1 <= n0);
            assert(cyc_sum(start as int, s, (k + 1) as nat) == cyc_sum(start as int, s, k)
                + s[(k as int) % (s.len() as int)]);
            assert((k as int) % (s.len() as int) == j as int) by {
                assert(j == k % (s.len() as nat));
            }
        }
        val = val + shifts[j];
        proof {
            k = k + 1;
        }
        let ghost jold = j as int;
        j = j + 1;
        if j >= shifts.len() {
            j = 0;
        }
        proof {
            let len = s.len() as int;
            let kk = k as int;
            vstd::arithmetic::div_mod::lemma_fundamental_div_mod(kk - 1, len);
            let q = (kk - 1) / len;
            vstd::arithmetic::mul::lemma_mul_is_commutative(len, q);
            assert(kk - 1 == q * len + jold);
            if (j as int) != 0 {
                assert(kk == q * len + j);
                vstd::arithmetic::div_mod::lemma_fundamental_div_mod_converse_mod(
                    kk,
                    len,
                    q,
                    j as int,
                );
            } else {
                assert(jold + 1 == len);
                vstd::arithmetic::mul::lemma_mul_is_distributive_add_other_way(len, q, 1);
                assert((q + 1) * len == q * len + 1 * len);
                assert(kk == (q + 1) * len + 0);
                vstd::arithmetic::div_mod::lemma_fundamental_div_mod_converse_mod(
                    kk,
                    len,
                    q + 1,
                    0,
                );
            }
            assert(j == k % (s.len() as nat));
        }
        if seen_contains(&seen, val) {
            proof {
                assert(dup_at(start as int, s, k)) by {
                    let m = choose|m: int| 0 <= m < seen@.len() && seen@[m] == val;
                    assert(seen@[m] == cyc_sum(start as int, s, m as nat));
                    assert((m as nat) < k);
                }
                assert(k == nleast) by {
                    if k < nleast {
                        assert(!dup_at(start as int, s, k));
                    }
                }
            }
            return val;
        }
        proof {
            assert(!dup_at(start as int, s, k)) by {
                if dup_at(start as int, s, k) {
                    let m = choose|m: nat|
                        m < k && cyc_sum(start as int, s, m) == cyc_sum(start as int, s, k);
                    assert(seen@[m as int] == cyc_sum(start as int, s, m));
                    assert(seen@.contains(val)) by {
                        assert(seen@[m as int] == val);
                    }
                    assert(false);
                }
            }
            assert(k < nleast) by {
                assert(k != nleast);
                assert(k <= nleast);
            }
        }
        seen.push(val);
    }
}

} // verus!
