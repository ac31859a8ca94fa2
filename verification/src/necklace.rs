//! Necklaces: sequences of letters `0 .. k` that are equal when one is a
//! rotation of the other, counted through their least rotation.

use vstd::prelude::*;

verus! {

/// `b` to the power `e`.
pub open spec fn power(b: int, e: nat) -> int
    decreases e,
{
    if e == 0 {
        1
    } else {
        b * power(b, (e - 1) as nat)
    }
}

/// The number whose base-`k` digits, most significant first, are `s`.
pub open spec fn number(s: Seq<u32>, k: int) -> int
    decreases s.len(),
{
    if s.len() == 0 {
        0
    } else {
        number(s.drop_last(), k) * k + s.last()
    }
}

/// `s` rotated right by `r` places: its last `r` letters move to the front.
pub open spec fn rotated(s: Seq<u32>, r: int) -> Seq<u32> {
    s.subrange(s.len() - r, s.len() as int) + s.subrange(0, s.len() - r)
}

/// `m` is the first rotation amount below `s.len()` whose rotation has the
/// least number.
pub open spec fn is_first_min(s: Seq<u32>, k: int, m: int) -> bool {
    &&& 0 <= m < s.len()
    &&& forall|i: int| 0 <= i < s.len() ==> number(rotated(s, m), k) <= number(rotated(s, i), k)
    &&& forall|i: int| 0 <= i < m ==> number(rotated(s, i), k) > number(rotated(s, m), k)
}

/// The least rotation of `s`; when several rotations share the least number,
/// the one that rotates `s` by the fewest places. The empty sequence is its own.
pub open spec fn least_rotation(s: Seq<u32>, k: int) -> Seq<u32> {
    if s.len() == 0 {
        s
    } else {
        rotated(s, choose|m: int| is_first_min(s, k, m))
    }
}

/// At most one rotation amount is the first least one.
pub proof fn lemma_first_min_unique(s: Seq<u32>, k: int, m1: int, m2: int)
    requires
        is_first_min(s, k, m1),
        is_first_min(s, k, m2),
    ensures
        m1 == m2,
{
    if m1 < m2 {
        assert(number(rotated(s, m1), k) > number(rotated(s, m2), k));
    } else if m2 < m1 {
        assert(number(rotated(s, m2), k) > number(rotated(s, m1), k));
    }
}

proof fn lemma_power_nonneg(b: int, e: nat)
    requires
        b >= 0,
    ensures
        power(b, e) >= 0,
    decreases e,
{
    if e > 0 {
        lemma_power_nonneg(b, (e - 1) as nat);
        vstd::arithmetic::mul::lemma_mul_nonnegative(b, power(b, (e - 1) as nat));
    }
}

/// Powers of a base of at least one grow with the exponent.
pub proof fn lemma_power_monotone(b: int, e1: nat, e2: nat)
    requires
        b >= 1,
        e1 <= e2,
    ensures
        1 <= power(b, e1) <= power(b, e2),
    decreases e2,
{
    if e2 > e1 {
        lemma_power_monotone(b, e1, (e2 - 1) as nat);
        lemma_power_nonneg(b, (e2 - 1) as nat);
        vstd::arithmetic::mul::lemma_mul_inequality(1, b, power(b, (e2 - 1) as nat));
    } else if e2 > 0 {
        lemma_power_monotone(b, 0, (e2 - 1) as nat);
        vstd::arithmetic::mul::lemma_mul_inequality(1, b, power(b, (e2 - 1) as nat));
    }
}

/// A power that fits bounds every smaller power of the same base.
proof fn lemma_power_bounded(b: int, e1: nat, e2: nat)
    requires
        b >= 0,
        e1 <= e2,
        power(b, e2) <= u32::MAX,
    ensures
        0 <= power(b, e1) <= u32::MAX,
    decreases e2,
{
    lemma_power_nonneg(b, e1);
    if b >= 1 {
        lemma_power_monotone(b, e1, e2);
    } else if e1 > 0 {
        assert(power(b, e1) == 0 * power(b, (e1 - 1) as nat));
    }
}

/// `b` to the power `e`.
pub fn pow_u32(b: u32, e: u32) -> (p: u32)
    requires
        power(b as int, e as nat) <= u32::MAX,
    ensures
        p == power(b as int, e as nat),
{
    let mut p: u32 = 1;
    let mut i: u32 = 0;
    while i < e
        invariant
            i <= e,
            p == power(b as int, i as nat),
            power(b as int, e as nat) <= u32::MAX,
        decreases e - i,
    {
        proof {
            lemma_power_bounded(b as int, (i + 1) as nat, e as nat);
            assert(power(b as int, (i + 1) as nat) == b * power(b as int, i as nat));
            vstd::arithmetic::mul::lemma_mul_is_commutative(b as int, p as int);
        }
        p = p * b;
        i = i + 1;
    }
    p
}

/// The weighted sum of the first `m` digits of `s`, each weighted by its place.
spec fn prefix_sum(s: Seq<u32>, k: int, m: int) -> int {
    number(s.take(m), k) * power(k, (s.len() - m) as nat)
}

proof fn lemma_number_nonneg(s: Seq<u32>, k: int)
    requires
        k >= 0,
    ensures
        number(s, k) >= 0,
    decreases s.len(),
{
    if s.len() > 0 {
        lemma_number_nonneg(s.drop_last(), k);
        vstd::arithmetic::mul::lemma_mul_nonnegative(number(s.drop_last(), k), k);
    }
}

proof fn lemma_prefix_sum_step(s: Seq<u32>, k: int, m: int)
    requires
        0 <= m < s.len(),
        k >= 0,
    ensures
        prefix_sum(s, k, m + 1) == prefix_sum(s, k, m) + s[m] * power(k, (s.len() - m - 1) as nat),
        s[m] * power(k, (s.len() - m - 1) as nat) >= 0,
        prefix_sum(s, k, m) >= 0,
{
    let e = (s.len() - m - 1) as nat;
    let a = number(s.take(m), k);
    assert(s.take(m + 1).drop_last() =~= s.take(m));
    assert(number(s.take(m + 1), k) == a * k + s[m]);
    assert(power(k, (e + 1) as nat) == k * power(k, e));
    assert((a * k + s[m]) * power(k, e) == a * (k * power(k, e)) + s[m] * power(k, e))
        by (nonlinear_arith);
    lemma_power_nonneg(k, e);
    lemma_power_nonneg(k, (e + 1) as nat);
    lemma_number_nonneg(s.take(m), k);
    vstd::arithmetic::mul::lemma_mul_nonnegative(s[m] as int, power(k, e));
    vstd::arithmetic::mul::lemma_mul_nonnegative(a, power(k, (e + 1) as nat));
}

proof fn lemma_prefix_sum_monotone(s: Seq<u32>, k: int, m: int)
    requires
        0 <= m <= s.len(),
        k >= 0,
    ensures
        0 <= prefix_sum(s, k, m) <= number(s, k),
    decreases s.len() - m,
{
    if m == s.len() {
        assert(s.take(m) =~= s);
        lemma_number_nonneg(s, k);
    } else {
        lemma_prefix_sum_step(s, k, m);
        lemma_prefix_sum_monotone(s, k, m + 1);
    }
}

/// The number that the digits of `seq` spell in base `k`, as the sum of each
/// digit times `k` to the power of its place.
pub fn seq_value(seq: &Vec<u32>, k: u32) -> (val: u32)
    requires
        seq.len() <= u32::MAX,
        seq.len() == 0 || power(k as int, (seq.len() - 1) as nat) <= u32::MAX,
        number(seq@, k as int) <= u32::MAX,
    ensures
        val == number(seq@, k as int),
{
    let n = seq.len();
    let mut val: u32 = 0;
    let mut ind: usize = 0;
    assert(seq@.take(0) =~= Seq::<u32>::empty());
    while ind < n
        invariant
            n == seq.len(),
            n <= u32::MAX,
            ind <= n,
            n == 0 || power(k as int, (n - 1) as nat) <= u32::MAX,
            number(seq@, k as int) <= u32::MAX,
            val == prefix_sum(seq@, k as int, ind as int),
        decreases n - ind,
    {
        proof {
            lemma_prefix_sum_step(seq@, k as int, ind as int);
            lemma_prefix_sum_monotone(seq@, k as int, ind + 1);
            lemma_power_bounded(k as int, (n - 1 - ind) as nat, (n - 1) as nat);
        }
        let p = pow_u32(k, n as u32 - 1 - ind as u32);
        val = val + seq[ind] * p;
        ind = ind + 1;
    }
    assert(seq@.take(n as int) =~= seq@);
    val
}

/// Rotates `v` right by `r` places.
pub fn rotate_right(v: &mut Vec<u32>, r: usize)
    requires
        r <= old(v).len(),
    ensures
        final(v)@ == rotated(old(v)@, r as int),
{
    let n = v.len();
    let mut out: Vec<u32> = Vec::new();
    let mut i: usize = n - r;
    while i < n
        invariant
            n == v.len(),
            r <= n,
            n - r <= i <= n,
            out@ == v@.subrange(n - r, i as int),
        decreases n - i,
    {
        out.push(v[i]);
        i = i + 1;
    }
    let mut j: usize = 0;
    while j < n - r
        invariant
            n == v.len(),
            r <= n,
            j <= n - r,
            out@ == v@.subrange(n - r, n as int) + v@.subrange(0, j as int),
        decreases n - r - j,
    {
        out.push(v[j]);
        j = j + 1;
    }
    *v = out;
}

proof fn lemma_rotated_step(s: Seq<u32>, i: int)
    requires
        0 <= i < s.len(),
    ensures
        rotated(rotated(s, i), 1) == rotated(s, i + 1),
{
    assert(rotated(rotated(s, i), 1) =~= rotated(s, i + 1));
}

proof fn lemma_rotated_full(s: Seq<u32>)
    ensures
        rotated(s, s.len() as int) == s,
        rotated(s, 0) == s,
{
    assert(rotated(s, s.len() as int) =~= s);
    assert(rotated(s, 0) =~= s);
}

/// Every digit of every rotation of `seq` in base `k` spells a number that fits.
pub open spec fn rotations_fit(s: Seq<u32>, k: int) -> bool {
    forall|i: int| 0 <= i < s.len() ==> #[trigger] number(rotated(s, i), k) <= u32::MAX
}

/// The least rotation of `seq`: the rotation whose digits spell the least number
/// in base `k`, the one that moves the fewest letters where several tie.
pub fn shift_to_minimum(seq: &Vec<u32>, k: u32) -> (res: Vec<u32>)
    requires
        seq.len() <= u32::MAX,
        seq.len() == 0 || power(k as int, (seq.len() - 1) as nat) <= u32::MAX,
        rotations_fit(seq@, k as int),
    ensures
        res@ == least_rotation(seq@, k as int),
        seq.len() > 0 ==> exists|m: int|
            is_first_min(seq@, k as int, m) && res@ == rotated(seq@, m),
{
    let n = seq.len();
    let mut min_ind: usize = 0;
    let mut min_val: u32 = 0;
    let mut seq_tmp = seq.clone();
    let mut ind: usize = 0;
    proof {
        lemma_rotated_full(seq@);
    }
    while ind < n
        invariant
            n == seq.len(),
            n <= u32::MAX,
            n == 0 || power(k as int, (n - 1) as nat) <= u32::MAX,
            rotations_fit(seq@, k as int),
            ind <= n,
            seq_tmp@ == rotated(seq@, ind as int),
            ind > 0 ==> min_ind < ind,
            ind > 0 ==> min_val == number(rotated(seq@, min_ind as int), k as int),
            forall|i: int| 0 <= i < ind ==> min_val <= number(rotated(seq@, i), k as int),
            forall|i: int|
                0 <= i < min_ind ==> number(rotated(seq@, i), k as int) > min_val,
        decreases n - ind,
    {
        assert(number(rotated(seq@, ind as int), k as int) <= u32::MAX);
        let val = seq_value(&seq_tmp, k);
        if ind == 0 {
            min_val = val;
            min_ind = ind;
        } else if val < min_val {
            min_val = val;
            min_ind = ind;
        }
        proof {
            lemma_rotated_step(seq@, ind as int);
        }
        rotate_right(&mut seq_tmp, 1);
        ind = ind + 1;
    }
    proof {
        lemma_rotated_full(seq@);
    }
    rotate_right(&mut seq_tmp, min_ind);
    proof {
        if n > 0 {
            assert(is_first_min(seq@, k as int, min_ind as int));
            let m = choose|m: int| is_first_min(seq@, k as int, m);
            lemma_first_min_unique(seq@, k as int, m, min_ind as int);
        }
    }
    seq_tmp
}


/// Where a carry that starts at place `ind` stops: the nearest place at or left of
/// `ind` whose digit plus one stays below `k`, or the first place.
pub open spec fn carry_stop(s: Seq<u32>, ind: int, k: int) -> int
    decreases ind,
{
    if ind <= 0 || s[ind] + 1 < k {
        ind
    } else {
        carry_stop(s, ind - 1, k)
    }
}

/// `s` after one is added at place `ind` in base `k`: every place right of the
/// stop of the carry and up to `ind` gains one and loses `k`, the stop gains one,
/// the other places keep their digits.
pub open spec fn incremented(s: Seq<u32>, ind: int, k: int) -> Seq<u32> {
    let t = carry_stop(s, ind, k);
    Seq::new(
        s.len(),
        |j: int|
            if t < j <= ind {
                (s[j] + 1 - k) as u32
            } else if j == t {
                (s[j] + 1) as u32
            } else {
                s[j]
            },
    )
}

proof fn lemma_carry_stop_range(s: Seq<u32>, ind: int, k: int)
    requires
        0 <= ind,
    ensures
        0 <= carry_stop(s, ind, k) <= ind,
        forall|j: int| carry_stop(s, ind, k) < j <= ind ==> s[j] + 1 >= k,
        carry_stop(s, ind, k) == 0 || s[carry_stop(s, ind, k)] + 1 < k,
    decreases ind,
{
    if ind > 0 && s[ind] + 1 >= k {
        lemma_carry_stop_range(s, ind - 1, k);
    }
}

proof fn lemma_carry_stop_agree(s1: Seq<u32>, s2: Seq<u32>, ind: int, k: int)
    requires
        0 <= ind,
        ind < s1.len(),
        s1.len() == s2.len(),
        forall|j: int| 0 <= j <= ind ==> s1[j] == s2[j],
    ensures
        carry_stop(s1, ind, k) == carry_stop(s2, ind, k),
    decreases ind,
{
    if ind > 0 {
        lemma_carry_stop_agree(s1, s2, ind - 1, k);
    }
}

/// Adds one at place `ind` of a base-`k` counter, carrying to the left; a carry
/// out of the first place is left there.
pub fn seq_incr(seq: &mut Vec<u32>, ind: usize, k: u32)
    requires
        ind < old(seq).len(),
        forall|j: int|
            carry_stop(old(seq)@, ind as int, k as int) <= j <= ind ==> old(seq)@[j] < u32::MAX,
    ensures
        final(seq)@ == incremented(old(seq)@, ind as int, k as int),
    decreases ind,
{
    let ghost s = seq@;
    proof {
        lemma_carry_stop_range(s, ind as int, k as int);
    }
    let v = seq[ind] + 1;
    seq.set(ind, v);
    if seq[ind] >= k {
        if ind == 0 {
            assert(seq@ =~= incremented(s, ind as int, k as int));
            return;
        }
        let ghost s1 = seq@;
        proof {
            lemma_carry_stop_agree(s, s1, ind - 1, k as int);
            lemma_carry_stop_range(s, (ind - 1) as int, k as int);
        }
        seq_incr(seq, ind - 1, k);
        let w = seq[ind] - k;
        seq.set(ind, w);
        assert(seq@ =~= incremented(s, ind as int, k as int));
    } else {
        assert(seq@ =~= incremented(s, ind as int, k as int));
    }
}

/// `s` is a necklace of length `n` over the letters `0 .. k`.
pub open spec fn is_word(s: Seq<u32>, k: int, n: int) -> bool {
    &&& s.len() == n
    &&& forall|j: int| 0 <= j < s.len() ==> #[trigger] s[j] < k
}

/// The least rotations of all necklaces of length `n` over `k` letters: one
/// representative for each class of necklaces that are equal under rotation.
pub open spec fn necklace_set(k: int, n: int) -> Set<Seq<u32>> {
    Set::new(|c: Seq<u32>| exists|s: Seq<u32>| is_word(s, k, n) && c == least_rotation(s, k))
}

/// The least rotations of the necklaces whose number is below `i`.
spec fn seen_set(k: int, n: int, i: int) -> Set<Seq<u32>> {
    Set::new(
        |c: Seq<u32>|
            exists|s: Seq<u32>| is_word(s, k, n) && number(s, k) < i && c == least_rotation(s, k),
    )
}

proof fn lemma_number_bound(s: Seq<u32>, k: int)
    requires
        is_word(s, k, s.len() as int),
        k >= 0,
    ensures
        0 <= number(s, k) < power(k, s.len()) || (s.len() == 0 && number(s, k) == 0),
        number(s, k) <= power(k, s.len()) - 1,
    decreases s.len(),
{
    if s.len() > 0 {
        let p = s.drop_last();
        assert(is_word(p, k, p.len() as int)) by {
            assert forall|j: int| 0 <= j < p.len() implies #[trigger] p[j] < k by {
                assert(p[j] == s[j]);
            }
        }
        lemma_number_bound(p, k);
        lemma_number_nonneg(p, k);
        let a = number(p, k);
        let q = power(k, p.len());
        assert(s.last() < k) by {
            assert(s[s.len() - 1] < k);
        }
        assert(a * k + s.last() <= (q - 1) * k + (k - 1)) by (nonlinear_arith)
            requires
                a <= q - 1,
                k >= 0,
                s.last() <= k - 1,
        ;
        assert((q - 1) * k + (k - 1) == k * q - 1) by (nonlinear_arith);
        assert(power(k, s.len()) == k * q);
        vstd::arithmetic::mul::lemma_mul_nonnegative(a, k);
    } else {
    }
}

/// Two necklaces of one length over `k` letters with the same number are equal.
proof fn lemma_number_injective(s: Seq<u32>, t: Seq<u32>, k: int)
    requires
        is_word(s, k, s.len() as int),
        is_word(t, k, s.len() as int),
        number(s, k) == number(t, k),
    ensures
        s == t,
    decreases s.len(),
{
    if s.len() > 0 {
        let ps = s.drop_last();
        let pt = t.drop_last();
        assert(s[s.len() - 1] < k);
        assert(t[t.len() - 1] < k);
        vstd::arithmetic::div_mod::lemma_fundamental_div_mod_converse(
            number(s, k),
            k,
            number(ps, k),
            s.last() as int,
        );
        vstd::arithmetic::div_mod::lemma_fundamental_div_mod_converse(
            number(t, k),
            k,
            number(pt, k),
            t.last() as int,
        );
        assert(is_word(ps, k, ps.len() as int)) by {
            assert forall|j: int| 0 <= j < ps.len() implies #[trigger] ps[j] < k by {
                assert(ps[j] == s[j]);
            }
        }
        assert(is_word(pt, k, ps.len() as int)) by {
            assert forall|j: int| 0 <= j < pt.len() implies #[trigger] pt[j] < k by {
                assert(pt[j] == t[j]);
            }
        }
        lemma_number_injective(ps, pt, k);
        assert(s =~= t) by {
            assert(s =~= ps.push(s.last()));
            assert(t =~= pt.push(t.last()));
        }
    } else {
        assert(s =~= t);
    }
}

proof fn lemma_number_concat(a: Seq<u32>, b: Seq<u32>, k: int)
    ensures
        number(a + b, k) == number(a, k) * power(k, b.len()) + number(b, k),
    decreases b.len(),
{
    if b.len() == 0 {
        assert(a + b =~= a);
    } else {
        let b1 = b.drop_last();
        assert((a + b).drop_last() =~= a + b1);
        assert((a + b).last() == b.last());
        lemma_number_concat(a, b1, k);
        let x = number(a, k);
        let q = power(k, b1.len());
        assert(power(k, b.len()) == k * q);
        assert((x * q + number(b1, k)) * k + b.last() == x * (k * q) + (number(b1, k) * k
            + b.last())) by (nonlinear_arith);
    }
}

/// A run of `m` digits `k - 1` spells `k^m - 1`; a run of zeros spells zero.
proof fn lemma_number_all(s: Seq<u32>, k: int, d: int)
    requires
        forall|j: int| 0 <= j < s.len() ==> s[j] == d,
        d == k - 1 || d == 0,
    ensures
        d == k - 1 ==> number(s, k) == power(k, s.len()) - 1,
        d == 0 ==> number(s, k) == 0,
    decreases s.len(),
{
    if s.len() > 0 {
        lemma_number_all(s.drop_last(), k, d);
        let q = power(k, (s.len() - 1) as nat);
        assert(s.last() == d);
        assert(power(k, s.len()) == k * q);
        if d == k - 1 {
            assert((q - 1) * k + (k - 1) == k * q - 1) by (nonlinear_arith);
        }
    }
}

/// Adding one at the last place of a necklace that is not the largest gives the
/// necklace whose number is one more.
proof fn lemma_incremented_word(s: Seq<u32>, k: int)
    requires
        s.len() > 0,
        is_word(s, k, s.len() as int),
        k <= u32::MAX,
        number(s, k) + 1 < power(k, s.len()),
    ensures
        is_word(incremented(s, s.len() - 1, k), k, s.len() as int),
        number(incremented(s, s.len() - 1, k), k) == number(s, k) + 1,
{
    let n = s.len() as int;
    let ind = n - 1;
    let r = incremented(s, ind, k);
    let t = carry_stop(s, ind, k);
    lemma_carry_stop_range(s, ind, k);
    assert(forall|j: int| t < j <= ind ==> #[trigger] s[j] == k - 1);
    let tail_s = s.subrange(t + 1, n);
    let tail_r = r.subrange(t + 1, n);
    assert forall|j: int| 0 <= j < tail_s.len() implies tail_s[j] == k - 1 by {
        assert(tail_s[j] == s[t + 1 + j]);
    }
    assert forall|j: int| 0 <= j < tail_r.len() implies tail_r[j] == 0 by {
        assert(tail_r[j] == r[t + 1 + j]);
        assert(s[t + 1 + j] == k - 1);
    }
    lemma_number_all(tail_s, k, k - 1);
    lemma_number_all(tail_r, k, 0);
    if t == 0 && s[0] + 1 >= k {
        // every digit is k - 1, so s is the largest necklace
        assert(s[0] == k - 1);
        assert forall|j: int| 0 <= j < s.len() implies s[j] == k - 1 by {
            if j > 0 {
                assert(s[j] == k - 1);
            }
        }
        lemma_number_all(s, k, k - 1);
        assert(false);
    }
    assert(s[t] + 1 < k);
    let head_s = s.subrange(0, t + 1);
    let head_r = r.subrange(0, t + 1);
    assert(head_r.drop_last() =~= head_s.drop_last()) by {
        assert forall|j: int| 0 <= j < t implies head_r[j] == head_s[j] by {
            assert(r[j] == s[j]);
        }
    }
    assert(head_r.last() == head_s.last() + 1);
    assert(number(head_r, k) == number(head_s, k) + 1);
    assert(s =~= head_s + tail_s);
    assert(r =~= head_r + tail_r);
    lemma_number_concat(head_s, tail_s, k);
    lemma_number_concat(head_r, tail_r, k);
    let q = power(k, tail_s.len());
    assert((number(head_s, k) + 1) * q == number(head_s, k) * q + q) by (nonlinear_arith);
    assert forall|j: int| 0 <= j < r.len() implies #[trigger] r[j] < k by {
        if t < j <= ind {
            assert(s[j] == k - 1);
        } else if j == t {
        } else {
            assert(s[j] < k);
        }
    }
}

/// A rotation of a necklace is a necklace of the same length.
proof fn lemma_rotated_word(s: Seq<u32>, k: int, r: int)
    requires
        is_word(s, k, s.len() as int),
        0 <= r <= s.len(),
    ensures
        is_word(rotated(s, r), k, s.len() as int),
{
    let t = rotated(s, r);
    assert forall|j: int| 0 <= j < t.len() implies #[trigger] t[j] < k by {
        if j < r {
            assert(t[j] == s[s.len() - r + j]);
        } else {
            assert(t[j] == s[j - r]);
        }
    }
}

/// Whether `a` and `b` hold the same digits.
fn same_digits(a: &Vec<u32>, b: &Vec<u32>) -> (r: bool)
    ensures
        r == (a@ == b@),
{
    if a.len() != b.len() {
        return false;
    }
    let mut i: usize = 0;
    while i < a.len()
        invariant
            a.len() == b.len(),
            i <= a.len(),
            forall|j: int| 0 <= j < i ==> a@[j] == b@[j],
        decreases a.len() - i,
    {
        if a[i] != b[i] {
            return false;
        }
        i = i + 1;
    }
    assert(a@ =~= b@);
    true
}

/// The digit sequences held by a list of vectors.
pub open spec fn digits_view(found: Seq<Vec<u32>>) -> Seq<Seq<u32>> {
    found.map_values(|v: Vec<u32>| v@)
}

/// Whether `found` holds a vector with the digits of `v`.
fn contains_digits(found: &Vec<Vec<u32>>, v: &Vec<u32>) -> (r: bool)
    ensures
        r == digits_view(found@).contains(v@),
{
    let mut i: usize = 0;
    while i < found.len()
        invariant
            i <= found.len(),
            forall|j: int| 0 <= j < i ==> found@[j]@ != v@,
        decreases found.len() - i,
    {
        if same_digits(&found[i], v) {
            assert(digits_view(found@)[i as int] == v@);
            return true;
        }
        i = i + 1;
    }
    assert(!digits_view(found@).contains(v@)) by {
        if digits_view(found@).contains(v@) {
            let j = choose|j: int| 0 <= j < digits_view(found@).len() && digits_view(found@)[j] == v@;
            assert(found@[j]@ == v@);
        }
    }
    false
}

/// The number of distinct necklaces of length `n` over `k` letters, where two
/// necklaces are equal when one is a rotation of the other.
pub fn necklaces(k: u32, n: usize) -> (count: usize)
    requires
        n >= 1,
        n <= u32::MAX,
        power(k as int, n as nat) <= u32::MAX,
    ensures
        count == necklace_set(k as int, n as int).len(),
        necklace_set(k as int, n as int).finite(),
{
    let mut seq: Vec<u32> = Vec::new();
    while seq.len() < n
        invariant
            seq.len() <= n,
            forall|j: int| 0 <= j < seq.len() ==> seq@[j] == 0,
        decreases n - seq.len(),
    {
        seq.push(0);
    }
    let count = pow_u32(k, n as u32);
    let mut found: Vec<Vec<u32>> = Vec::new();
    let ghost kk = k as int;
    proof {
        lemma_power_bounded(kk, (n - 1) as nat, n as nat);
        if count > 0 {
            lemma_number_all(seq@, kk, 0);
            assert(kk > 0) by {
                if kk == 0 {
                    assert(power(0, n as nat) == 0 * power(0, (n - 1) as nat));
                }
            }
        }
        assert forall|c: Seq<u32>| !seen_set(kk, n as int, 0).contains(c) by {
            if seen_set(kk, n as int, 0).contains(c) {
                let s = choose|s: Seq<u32>|
                    is_word(s, kk, n as int) && number(s, kk) < 0 && c == least_rotation(s, kk);
                lemma_number_nonneg(s, kk);
            }
        }
        assert(digits_view(found@).to_set() =~= seen_set(kk, n as int, 0));
    }
    let mut i: u32 = 0;
    while i < count
        invariant
            kk == k,
            seq.len() == n,
            n >= 1,
            n <= u32::MAX,
            count == power(kk, n as nat),
            count <= u32::MAX,
            power(kk, (n - 1) as nat) <= u32::MAX,
            i <= count,
            i < count ==> is_word(seq@, kk, n as int) && number(seq@, kk) == i,
            digits_view(found@).no_duplicates(),
            digits_view(found@).to_set() == seen_set(kk, n as int, i as int),
        decreases count - i,
    {
        proof {
            assert forall|r: int| 0 <= r < seq@.len() implies #[trigger] number(rotated(seq@, r), kk)
                <= u32::MAX by {
                lemma_rotated_word(seq@, kk, r);
                lemma_number_bound(rotated(seq@, r), kk);
            }
        }
        let shifted = shift_to_minimum(&seq, k);
        let ghost old_found = digits_view(found@);
        if !contains_digits(&found, &shifted) {
            found.push(shifted);
            proof {
                assert(digits_view(found@) =~= old_found.push(least_rotation(seq@, kk)));
            }
        }
        proof {
            let cur = seq@;
            let new_view = digits_view(found@);
            assert(new_view.no_duplicates());
            assert(new_view.to_set() =~= seen_set(kk, n as int, i + 1)) by {
                assert forall|c: Seq<u32>| new_view.to_set().contains(c) implies seen_set(
                    kk,
                    n as int,
                    i + 1,
                ).contains(c) by {
                    if old_found.to_set().contains(c) {
                        let s = choose|s: Seq<u32>|
                            is_word(s, kk, n as int) && number(s, kk) < i && c == least_rotation(
                                s,
                                kk,
                            );
                        assert(is_word(s, kk, n as int) && number(s, kk) < i + 1 && c
                            == least_rotation(s, kk));
                    } else {
                        assert(c == least_rotation(cur, kk));
                        assert(is_word(cur, kk, n as int) && number(cur, kk) < i + 1 && c
                            == least_rotation(cur, kk));
                    }
                }
                assert forall|c: Seq<u32>| seen_set(kk, n as int, i + 1).contains(c) implies new_view.to_set().contains(c) by {
                    let s = choose|s: Seq<u32>|
                        is_word(s, kk, n as int) && number(s, kk) < i + 1 && c == least_rotation(
                            s,
                            kk,
                        );
                    if number(s, kk) < i {
                        assert(seen_set(kk, n as int, i as int).contains(c));
                        assert(old_found.to_set().contains(c));
                        assert(old_found.contains(c));
                        let j = choose|j: int| 0 <= j < old_found.len() && old_found[j] == c;
                        assert(new_view[j] == c);
                    } else {
                        lemma_number_injective(s, cur, kk);
                        assert(c == least_rotation(cur, kk));
                        if old_found.contains(c) {
                            let j = choose|j: int| 0 <= j < old_found.len() && old_found[j] == c;
                            assert(new_view[j] == c);
                        } else {
                            assert(new_view[new_view.len() - 1] == c);
                        }
                    }
                }
            }
        }
        let ghost before = seq@;
        let last = seq.len() - 1;
        proof {
            lemma_carry_stop_range(before, last as int, kk);
        }
        seq_incr(&mut seq, last, k);
        proof {
            if i + 1 < count {
                lemma_incremented_word(before, kk);
            }
        }
        i = i + 1;
    }
    proof {
        let v = digits_view(found@);
        v.unique_seq_to_set();
        assert(seen_set(kk, n as int, count as int) =~= necklace_set(kk, n as int)) by {
            assert forall|c: Seq<u32>| necklace_set(kk, n as int).contains(c) implies seen_set(
                kk,
                n as int,
                count as int,
            ).contains(c) by {
                let s = choose|s: Seq<u32>| is_word(s, kk, n as int) && c == least_rotation(s, kk);
                lemma_number_bound(s, kk);
            }
        }
    }
    found.len()
}


/// Rotating by `r` and then by `i` rotates by `r + i`, wrapping around.
proof fn lemma_rotated_compose(s: Seq<u32>, r: int, i: int)
    requires
        0 <= r < s.len(),
        0 <= i < s.len(),
    ensures
        rotated(rotated(s, r), i) == rotated(
            s,
            if r + i < s.len() {
                r + i
            } else {
                r + i - s.len()
            },
        ),
{
    let n = s.len() as int;
    let t = rotated(s, r);
    let m = if r + i < n {
        r + i
    } else {
        r + i - n
    };
    assert forall|j: int| 0 <= j < n implies #[trigger] rotated(t, i)[j] == rotated(s, m)[j] by {
        let q = if j < i {
            n - i + j
        } else {
            j - i
        };
        assert(rotated(t, i)[j] == t[q]);
        assert(t[q] == if q < r {
            s[n - r + q]
        } else {
            s[q - r]
        });
        assert(rotated(s, m)[j] == if j < m {
            s[n - m + j]
        } else {
            s[j - m]
        });
    }
    assert(rotated(t, i) =~= rotated(s, m));
}

/// The least rotation of a necklace of length at least one is one of its
/// rotations, and no rotation of the necklace has a smaller number.
proof fn lemma_least_rotation_props(s: Seq<u32>, k: int) -> (m: int)
    requires
        s.len() > 0,
    ensures
        is_first_min(s, k, m),
        least_rotation(s, k) == rotated(s, m),
{
    let witness = first_min_witness(s, k, s.len() as int);
    assert(is_first_min(s, k, witness));
    let m = choose|m: int| is_first_min(s, k, m);
    m
}

/// The first least rotation amount among the first `i` amounts.
proof fn first_min_witness(s: Seq<u32>, k: int, i: int) -> (m: int)
    requires
        1 <= i <= s.len(),
    ensures
        0 <= m < i,
        forall|j: int| 0 <= j < i ==> number(rotated(s, m), k) <= number(rotated(s, j), k),
        forall|j: int| 0 <= j < m ==> number(rotated(s, j), k) > number(rotated(s, m), k),
    decreases i,
{
    if i == 1 {
        0
    } else {
        let m = first_min_witness(s, k, i - 1);
        if number(rotated(s, i - 1), k) < number(rotated(s, m), k) {
            i - 1
        } else {
            m
        }
    }
}

/// Two necklaces of the same length over `k` letters have the same least rotation
/// exactly when one is a rotation of the other.
pub proof fn law_least_rotation_classifies(s: Seq<u32>, t: Seq<u32>, k: int)
    requires
        s.len() > 0,
        k <= u32::MAX,
        is_word(s, k, s.len() as int),
        is_word(t, k, s.len() as int),
    ensures
        least_rotation(s, k) == least_rotation(t, k) <==> exists|r: int|
            0 <= r < s.len() && t == #[trigger] rotated(s, r),
{
    let n = s.len() as int;
    let ms = lemma_least_rotation_props(s, k);
    let mt = lemma_least_rotation_props(t, k);
    if least_rotation(s, k) == least_rotation(t, k) {
        // t is the rotation of its least rotation back by n - mt
        let back = if mt == 0 {
            0
        } else {
            n - mt
        };
        if mt > 0 {
            lemma_rotated_compose(t, mt, n - mt);
        }
        lemma_rotated_full(t);
        assert(rotated(rotated(t, mt), back) == t);
        if back > 0 {
            lemma_rotated_compose(s, ms, back);
        } else {
            lemma_rotated_full(rotated(s, ms));
        }
        let r = if ms + back < n {
            ms + back
        } else {
            ms + back - n
        };
        assert(t == rotated(s, r));
    }
    if exists|r: int| 0 <= r < n && t == #[trigger] rotated(s, r) {
        let r = choose|r: int| 0 <= r < n && t == #[trigger] rotated(s, r);
        lemma_least_rotation_rotated(s, k, r);
    }
}

/// Rotating a necklace does not change its least rotation.
pub proof fn lemma_least_rotation_rotated(s: Seq<u32>, k: int, r: int)
    requires
        s.len() > 0,
        k <= u32::MAX,
        is_word(s, k, s.len() as int),
        0 <= r < s.len(),
    ensures
        least_rotation(rotated(s, r), k) == least_rotation(s, k),
{
    let n = s.len() as int;
    let t = rotated(s, r);
    let ms = lemma_least_rotation_props(s, k);
    let mt = lemma_least_rotation_props(t, k);
    // rotated(t, mt) is the rotation of s by (r + mt) mod n
    lemma_rotated_compose(s, r, mt);
    let a = if r + mt < n {
        r + mt
    } else {
        r + mt - n
    };
    assert(number(rotated(s, ms), k) <= number(rotated(s, a), k));
    // rotated(s, ms) is the rotation of t by (ms - r) mod n
    let b = if ms >= r {
        ms - r
    } else {
        ms - r + n
    };
    lemma_rotated_compose(s, r, b);
    assert(rotated(t, b) == rotated(s, ms));
    assert(number(rotated(t, mt), k) <= number(rotated(t, b), k));
    lemma_rotated_word(s, k, ms);
    lemma_rotated_word(s, k, a);
    lemma_number_injective(rotated(s, ms), rotated(s, a), k);
}

/// Adding one at the last place of a necklace that is not the largest gives the
/// necklace whose number is one more: the counter visits the necklaces in the
/// order of their numbers.
pub proof fn law_increment_counts_up(s: Seq<u32>, k: int)
    requires
        s.len() > 0,
        is_word(s, k, s.len() as int),
        k <= u32::MAX,
        number(s, k) + 1 < power(k, s.len()),
    ensures
        is_word(incremented(s, s.len() - 1, k), k, s.len() as int),
        number(incremented(s, s.len() - 1, k), k) == number(s, k) + 1,
{
    lemma_incremented_word(s, k);
}

/// `a` comes before `b` in dictionary order: at the first place where they
/// differ, `a` has the smaller letter.
pub open spec fn lex_less(a: Seq<u32>, b: Seq<u32>) -> bool {
    exists|i: int| 0 <= i < a.len() && i < b.len() && a.take(i) == b.take(i) && #[trigger] a[i] < #[trigger] b[i]
}

/// Words of one length that agree before place `i` and have the smaller letter
/// at `i` have the smaller number.
proof fn lemma_number_first_difference(a: Seq<u32>, b: Seq<u32>, k: int, i: int)
    requires
        a.len() == b.len(),
        is_word(a, k, a.len() as int),
        is_word(b, k, a.len() as int),
        0 <= i < a.len(),
        a.take(i) == b.take(i),
        a[i] < b[i],
    ensures
        number(a, k) < number(b, k),
{
    let n = a.len() as int;
    let r = (n - i - 1) as nat;
    let pre = a.take(i);
    let ra = a.skip(i + 1);
    let rb = b.skip(i + 1);
    assert(a =~= pre + (seq![a[i]] + ra));
    assert(b =~= pre + (seq![b[i]] + rb));
    lemma_number_concat(pre, seq![a[i]] + ra, k);
    lemma_number_concat(pre, seq![b[i]] + rb, k);
    lemma_number_concat(seq![a[i]], ra, k);
    lemma_number_concat(seq![b[i]], rb, k);
    assert(seq![a[i]].drop_last() =~= Seq::<u32>::empty());
    assert(seq![b[i]].drop_last() =~= Seq::<u32>::empty());
    assert(number(Seq::<u32>::empty(), k) == 0);
    assert(seq![a[i]].last() == a[i]);
    assert(seq![b[i]].last() == b[i]);
    assert(number(seq![a[i]], k) == a[i]);
    assert(number(seq![b[i]], k) == b[i]);
    assert(is_word(ra, k, ra.len() as int)) by {
        assert forall|j: int| 0 <= j < ra.len() implies #[trigger] ra[j] < k by {
            assert(ra[j] == a[i + 1 + j]);
        }
    }
    assert(is_word(rb, k, rb.len() as int)) by {
        assert forall|j: int| 0 <= j < rb.len() implies #[trigger] rb[j] < k by {
            assert(rb[j] == b[i + 1 + j]);
        }
    }
    lemma_number_bound(ra, k);
    lemma_number_bound(rb, k);
    lemma_power_nonneg(k, r);
    lemma_number_nonneg(rb, k);
    let q = power(k, r);
    let p = power(k, (r + 1) as nat);
    let x = number(pre, k);
    assert(ra.len() == r && rb.len() == r);
    assert((a[i] + 1) * q <= b[i] * q) by (nonlinear_arith)
        requires
            a[i] + 1 <= b[i],
            q >= 0,
    ;
    assert(a[i] * q + (q - 1) < b[i] * q + 0) by (nonlinear_arith)
        requires
            (a[i] + 1) * q <= b[i] * q,
    ;
    assert(x * p + (a[i] * q + number(ra, k)) < x * p + (b[i] * q + number(rb, k)));
}

/// The first place where two different words of one length differ.
proof fn first_difference(a: Seq<u32>, b: Seq<u32>, i: int) -> (d: int)
    requires
        a.len() == b.len(),
        0 <= i <= a.len(),
        a.take(i) == b.take(i),
        a != b,
    ensures
        i <= d < a.len(),
        a.take(d) == b.take(d),
        a[d] != b[d],
    decreases a.len() - i,
{
    if i == a.len() {
        assert(a =~= a.take(i));
        assert(b =~= b.take(i));
        i
    } else if a[i] != b[i] {
        i
    } else {
        assert(a.take(i + 1) =~= a.take(i).push(a[i]));
        assert(b.take(i + 1) =~= b.take(i).push(b[i]));
        first_difference(a, b, i + 1)
    }
}

/// On words of one length over `k` letters, the number that `seq_value`
/// computes orders them as a dictionary does, and different words have
/// different numbers.
pub proof fn law_number_orders_words(a: Seq<u32>, b: Seq<u32>, k: int)
    requires
        a.len() == b.len(),
        is_word(a, k, a.len() as int),
        is_word(b, k, a.len() as int),
    ensures
        (number(a, k) < number(b, k)) == lex_less(a, b),
        (number(a, k) == number(b, k)) == (a == b),
{
    if lex_less(a, b) {
        let i = choose|i: int| 0 <= i < a.len() && i < b.len() && a.take(i) == b.take(i) && #[trigger] a[i] < #[trigger] b[i];
        lemma_number_first_difference(a, b, k, i);
    }
    if lex_less(b, a) {
        let i = choose|i: int| 0 <= i < b.len() && i < a.len() && b.take(i) == a.take(i) && #[trigger] b[i] < #[trigger] a[i];
        lemma_number_first_difference(b, a, k, i);
    }
    if a != b {
        assert(a.take(0) =~= b.take(0));
        let d = first_difference(a, b, 0);
        if a[d] < b[d] {
            assert(lex_less(a, b));
        } else {
            assert(b[d] < a[d]);
            assert(b.take(d) == a.take(d));
            assert(lex_less(b, a));
        }
    }
}

/// Rotating a word by any number of places, right or (for negative `j`) left,
/// leaves its least rotation unchanged; so does taking the least rotation
/// again.
pub proof fn law_least_rotation_is_canonical(s: Seq<u32>, k: int, j: int)
    requires
        s.len() > 0,
        k <= u32::MAX,
        is_word(s, k, s.len() as int),
    ensures
        least_rotation(rotated(s, j % (s.len() as int)), k) == least_rotation(s, k),
        least_rotation(least_rotation(s, k), k) == least_rotation(s, k),
{
    let n = s.len() as int;
    lemma_least_rotation_rotated(s, k, j % n);
    let m = lemma_least_rotation_props(s, k);
    lemma_least_rotation_rotated(s, k, m);
}

} // verus!
