//! Query position bookkeeping: mapping trace positions to constraint-tree leaves, splitting
//! an evaluation domain among workers of the distributed FRI prover, and translating
//! positions between the global domain and the workers' local domains.

use crate::options::{is_pow2, lemma_pow2_log2, log2};
use vstd::arithmetic::div_mod::{lemma_fundamental_div_mod, lemma_fundamental_div_mod_converse};
use vstd::arithmetic::power2::{lemma2_to64, lemma2_to64_rest, lemma_pow2_strictly_increases, pow2};
use vstd::arithmetic::power::pow;
use vstd::arithmetic::power2::lemma_pow2_adds;
use vstd::bits::lemma_usize_shl_is_mul;
use vstd::prelude::*;

verus! {

// DEDUPLICATION
// ================================================================================================

/// The distinct values of `s`, each kept where it first occurs.
pub open spec fn dedup(s: Seq<usize>) -> Seq<usize>
    decreases s.len(),
{
    if s.len() == 0 {
        Seq::empty()
    } else {
        let d = dedup(s.drop_last());
        if d.contains(s.last()) {
            d
        } else {
            d.push(s.last())
        }
    }
}

/// `dedup` holds no value twice and holds exactly the values of its input.
pub proof fn lemma_dedup(s: Seq<usize>)
    ensures
        dedup(s).no_duplicates(),
        forall|x: usize| dedup(s).contains(x) <==> s.contains(x),
        dedup(s).len() <= s.len(),
    decreases s.len(),
{
    if s.len() > 0 {
        let t = s.drop_last();
        lemma_dedup(t);
        assert(s == t.push(s.last()));
        assert forall|x: usize| dedup(s).contains(x) <==> s.contains(x) by {
            if s.contains(x) {
                let k = choose|k: int| 0 <= k < s.len() && s[k] == x;
                if k < t.len() {
                    assert(t[k] == x);
                    assert(t.contains(x));
                    assert(dedup(t).contains(x));
                    let k2 = choose|k2: int| 0 <= k2 < dedup(t).len() && dedup(t)[k2] == x;
                    if !dedup(t).contains(s.last()) {
                        assert(dedup(s)[k2] == x);
                    }
                } else {
                    if !dedup(t).contains(s.last()) {
                        assert(dedup(s)[dedup(t).len() as int] == x);
                    }
                }
            }
            if dedup(s).contains(x) {
                let k = choose|k: int| 0 <= k < dedup(s).len() && dedup(s)[k] == x;
                if k < dedup(t).len() {
                    assert(dedup(t)[k] == x);
                    assert(t.contains(x));
                    let k2 = choose|k2: int| 0 <= k2 < t.len() && t[k2] == x;
                    assert(s[k2] == x);
                } else {
                    assert(s[s.len() - 1] == x);
                }
            }
        }
    }
}

/// Returns true when `x` occurs in `v`.
pub fn contains_position(v: &Vec<usize>, x: usize) -> (r: bool)
    ensures
        r == v@.contains(x),
{
    let mut i: usize = 0;
    while i < v.len()
        invariant
            i <= v.len(),
            forall|k: int| 0 <= k < i ==> v@[k] != x,
        decreases v.len() - i,
    {
        if v[i] == x {
            assert(v@[i as int] == x);
            return true;
        }
        i = i + 1;
    }
    false
}

// CONSTRAINT POSITIONS
// ================================================================================================

/// Each trace position halved: two constraint evaluations share one leaf of the constraint tree.
pub open spec fn halved(positions: Seq<usize>) -> Seq<usize> {
    positions.map_values(|p: usize| (p / 2) as usize)
}

/// Maps trace positions to the leaves of the constraint commitment tree that hold their
/// evaluations; every leaf is listed once, in the order in which it is first needed.
pub fn map_trace_to_constraint_positions(positions: &[usize]) -> (r: Vec<usize>)
    ensures
        r@ == dedup(halved(positions@)),
{
    let mut result: Vec<usize> = Vec::new();
    let mut i: usize = 0;
    while i < positions.len()
        invariant
            i <= positions@.len(),
            result@ == dedup(halved(positions@).take(i as int)),
        decreases positions.len() - i,
    {
        let cp = positions[i] / 2;
        proof {
            let h = halved(positions@);
            assert(h.take(i + 1).drop_last() == h.take(i as int));
            assert(h.take(i + 1).last() == cp);
        }
        if !contains_position(&result, cp) {
            result.push(cp);
        }
        i = i + 1;
    }
    proof {
        assert(halved(positions@).take(positions@.len() as int) == halved(positions@));
    }
    result
}

// PARTITIONS
// ================================================================================================

/// Splits `evaluations` into `num_partitions` partitions; the value at position i goes to
/// partition i % num_partitions, so that partition k holds positions k, k + n, k + 2n, ...
pub fn partition<T: Copy>(evaluations: &[T], num_partitions: usize) -> (r: Vec<Vec<T>>)
    requires
        num_partitions > 0,
    ensures
        r@.len() == num_partitions,
        forall|k: int|
            #![trigger r@[k]]
            0 <= k < num_partitions ==> r@[k]@.len() == (evaluations@.len() + num_partitions - 1
                - k) / num_partitions as int,
        forall|k: int|
            #![trigger r@[k]]
            0 <= k < num_partitions && r@[k]@.len() > 0 ==> k + (r@[k]@.len() - 1)
                * num_partitions < evaluations@.len(),
        forall|k: int, j: int|
            #![trigger r@[k]@[j]]
            0 <= k < num_partitions && 0 <= j < r@[k]@.len() ==> r@[k]@[j]
                == evaluations@[k + j * num_partitions],
{
    let n = num_partitions;
    let len = evaluations.len();
    let mut result: Vec<Vec<T>> = Vec::new();
    let mut k: usize = 0;
    while k < n
        invariant
            k <= n,
            len == evaluations@.len(),
            result@.len() == k,
            forall|q: int|
                #![trigger result@[q]]
                0 <= q < k ==> result@[q]@.len() == (len + n - 1 - q) / n as int,
            forall|q: int|
                #![trigger result@[q]]
                0 <= q < k && result@[q]@.len() > 0 ==> q + (result@[q]@.len() - 1) * n < len,
            forall|q: int, j: int|
                #![trigger result@[q]@[j]]
                0 <= q < k && 0 <= j < result@[q]@.len() ==> result@[q]@[j] == evaluations@[q
                    + j * n],
        decreases n - k,
    {
        let part = stride_values(evaluations, k, n);
        result.push(part);
        proof {
            assert(result@[k as int] == part);
        }
        k = k + 1;
    }
    result
}

/// The worker holding partition `p % n` finds position `p` at its local position
/// `(p - p % n) / n`: that local position lies within the partition, and the partition holds
/// position `p` there.
pub proof fn lemma_local_position_in_partition(len: nat, num_partitions: nat, p: nat)
    requires
        num_partitions > 0,
        p < len,
    ensures
        ({
            let k = p as int % num_partitions as int;
            let j = (p - k) / num_partitions as int;
            &&& 0 <= j < (len + num_partitions - 1 - k) / num_partitions as int
            &&& k + j * num_partitions == p
        }),
{
    let n = num_partitions as int;
    let k = p as int % n;
    let q = p as int / n;
    lemma_fundamental_div_mod(p as int, n);
    assert(p - k == q * n) by (nonlinear_arith)
        requires
            p == n * q + k,
    ;
    lemma_fundamental_div_mod_converse(p - k, n, q, 0);
    assert(q >= 0) by (nonlinear_arith)
        requires
            p == n * q + k,
            0 <= k < n,
            p >= 0,
    ;
    // len + n - 1 - k = q * n + (len - p - 1 + n), and len - p - 1 + n >= n
    let r = (len + n - 1 - k) as int;
    lemma_fundamental_div_mod(r, n);
    assert(r / n > q) by (nonlinear_arith)
        requires
            r == n * (r / n) + r % n,
            0 <= r % n < n,
            r >= q * n + n,
            n > 0,
    ;
}

/// The values at positions start, start + step, start + 2 * step, ... of `evaluations`.
fn stride_values<T: Copy>(evaluations: &[T], start: usize, step: usize) -> (r: Vec<T>)
    requires
        0 <= start < step,
    ensures
        r@.len() == (evaluations@.len() + step - 1 - start) / step as int,
        r@.len() > 0 ==> start + (r@.len() - 1) * step < evaluations@.len(),
        forall|j: int| 0 <= j < r@.len() ==> #[trigger] r@[j] == evaluations@[start + j * step],
{
    let len = evaluations.len();
    let mut part: Vec<T> = Vec::new();
    let mut j: usize = start;
    while j < len
        invariant
            0 <= start < step,
            len == evaluations@.len(),
            j < len ==> j == start + part@.len() * step,
            j >= len ==> start + part@.len() * step >= len,
            part@.len() > 0 ==> start + (part@.len() - 1) * step < len,
            j == start ==> part@.len() == 0,
            forall|q: int|
                0 <= q < part@.len() ==> #[trigger] part@[q] == evaluations@[start + q * step],
        decreases len - j,
    {
        let ghost m = part@.len();
        let ghost old_part = part@;
        part.push(evaluations[j]);
        proof {
            assert(part@[m as int] == evaluations@[j as int]);
            assert(start + m * step == j);
            assert(start + (m + 1 - 1) * step < len);
            assert(start + (m + 1) * step == start + m * step + step) by (nonlinear_arith);
        }
        if len - j > step {
            j = j + step;
        } else {
            j = len;
        }
    }
    proof {
        let m = part@.len();
        if m == 0 {
            lemma_fundamental_div_mod_converse(
                (len + step - 1 - start) as int,
                step as int,
                0,
                (len + step - 1 - start) as int,
            );
        } else {
            assert(start + (m - 1) * step == start + m * step - step) by (nonlinear_arith);
            lemma_fundamental_div_mod_converse(
                (len + step - 1 - start) as int,
                step as int,
                m as int,
                len + step - 1 - start - m * step,
            );
        }
    }
    part
}

// TRAILING ZEROS
// ================================================================================================

/// Number of trailing zero bits of `n`; all bits of a `usize` for zero.
pub open spec fn tz(n: usize) -> nat
    decreases n,
{
    if n == 0 {
        usize::BITS as nat
    } else if n % 2 == 1 {
        0
    } else {
        1 + tz((n / 2) as usize)
    }
}

/// Returns the number of trailing zero bits of `n` (all bits of a `usize` for zero).
pub fn trailing_zero_count(n: usize) -> (r: usize)
    ensures
        r == tz(n),
{
    if n == 0 {
        return usize::BITS as usize;
    }
    let mut m = n;
    let mut k: usize = 0;
    while m % 2 == 0
        invariant
            m > 0,
            k + tz(m) == tz(n),
            k + m <= n,
        decreases m,
    {
        m = m / 2;
        k = k + 1;
    }
    k
}

/// A power of two has as many trailing zeros as its logarithm.
pub proof fn lemma_tz_pow2(n: usize)
    requires
        is_pow2(n as int),
    ensures
        tz(n) == log2(n as int),
    decreases n,
{
    if n > 1 {
        lemma_tz_pow2((n / 2) as usize);
    }
}

// SHUFFLED LAYERS
// ================================================================================================

/// The layout of `evaluations` once its positions are grouped by partition: partition i (the
/// positions congruent to i modulo `num_partitions`) becomes the i-th contiguous block.
pub open spec fn shuffled<T>(evaluations: Seq<T>, num_partitions: nat) -> Seq<T> {
    let ps = evaluations.len() / num_partitions;
    Seq::new(
        num_partitions * ps,
        |k: int| evaluations[k / ps as int + (k % ps as int) * num_partitions],
    )
}

/// Rearranges `evaluations` so that each partition (positions congruent modulo
/// `num_partitions`) occupies a contiguous block, in the order used by the distributed prover.
pub fn shuffle_evaluations<T: Copy>(evaluations: &[T], num_partitions: usize) -> (r: Vec<T>)
    requires
        num_partitions > 0,
    ensures
        r@ == shuffled(evaluations@, num_partitions as nat),
{
    let np = num_partitions;
    let ps = evaluations.len() / np;
    let ghost len = evaluations@.len();
    proof {
        lemma_fundamental_div_mod(len as int, np as int);
        assert(np * ps <= len);
    }
    let mut result: Vec<T> = Vec::new();
    let mut i: usize = 0;
    while i < np
        invariant
            np > 0,
            len == evaluations@.len(),
            len <= usize::MAX,
            ps == len as int / np as int,
            np * ps <= len,
            i <= np,
            result@.len() == i * ps,
            forall|k: int|
                0 <= k < result@.len() ==> #[trigger] result@[k] == evaluations@[k / ps as int
                    + (k % ps as int) * np],
        decreases np - i,
    {
        let mut j: usize = 0;
        while j < ps
            invariant
                np > 0,
                len == evaluations@.len(),
                len <= usize::MAX,
                ps == len as int / np as int,
                np * ps <= len,
                i < np,
                j <= ps,
                result@.len() == i * ps + j,
                forall|k: int|
                    0 <= k < result@.len() ==> #[trigger] result@[k] == evaluations@[k / ps as int
                        + (k % ps as int) * np],
            decreases ps - j,
        {
            proof {
                assert(i + j * np < np * ps) by (nonlinear_arith)
                    requires
                        i < np,
                        j < ps,
                ;
                lemma_fundamental_div_mod_converse((i * ps + j) as int, ps as int, i as int, j as int);
            }
            let v = evaluations[i + j * np];
            result.push(v);
            j = j + 1;
        }
        proof {
            assert((i + 1) * ps == i * ps + ps) by (nonlinear_arith);
        }
        i = i + 1;
    }
    proof {
        assert(result@ =~= shuffled(evaluations@, num_partitions as nat));
    }
    result
}

/// Number of bits of a position within a partition: the logarithm of the number of groups of
/// four values of a layer of `num_evaluations` values, less that of the number of partitions.
pub open spec fn local_bits(num_evaluations: usize, num_partitions: usize) -> int {
    tz((num_evaluations / 4) as usize) - tz(num_partitions)
}

/// Where position `p` of a layer of `num_evaluations` values lands once the layer's groups of
/// four are shuffled into `num_partitions` partitions: the partition index, shifted by the
/// local bits, selects the block, the position within the partition the offset in it.
pub open spec fn partition_index(p: usize, num_evaluations: usize, num_partitions: usize) -> usize {
    (((p % num_partitions) as usize) << (local_bits(num_evaluations, num_partitions) as usize)) | (((p
        - p % num_partitions) / num_partitions as int) as usize)
}

/// Maps query positions of a layer with `num_evaluations` values to their positions in the
/// shuffled layer, sorted in ascending order.
pub fn map_positions(positions: &[usize], num_evaluations: usize, num_partitions: usize) -> (r: Vec<
    usize,
>)
    requires
        num_partitions > 0,
        tz(num_partitions) <= tz((num_evaluations / 4) as usize),
        local_bits(num_evaluations, num_partitions) < usize::BITS,
    ensures
        ascending(r@),
        r@.to_multiset() == positions@.map_values(
            |p: usize| partition_index(p, num_evaluations, num_partitions),
        ).to_multiset(),
{
    let shift = trailing_zero_count(num_evaluations / 4) - trailing_zero_count(num_partitions);
    let ghost mapped = positions@.map_values(
        |p: usize| partition_index(p, num_evaluations, num_partitions),
    );
    let mut result: Vec<usize> = Vec::new();
    let mut i: usize = 0;
    while i < positions.len()
        invariant
            i <= positions@.len(),
            num_partitions > 0,
            shift == local_bits(num_evaluations, num_partitions),
            shift < usize::BITS,
            mapped == positions@.map_values(
                |p: usize| partition_index(p, num_evaluations, num_partitions),
            ),
            result@ == mapped.take(i as int),
        decreases positions.len() - i,
    {
        let p = positions[i];
        let p_idx = p % num_partitions;
        proof {
            assert(p_idx <= p) by (nonlinear_arith)
                requires
                    p_idx == p % num_partitions,
                    num_partitions > 0,
            ;
        }
        let loc_p = (p - p_idx) / num_partitions;
        result.push((p_idx << shift) | loc_p);
        proof {
            assert(mapped.take(i + 1) == mapped.take(i as int).push(mapped[i as int]));
        }
        i = i + 1;
    }
    proof {
        assert(mapped.take(positions@.len() as int) == mapped);
    }
    let sorted = sort_positions(result);
    sorted
}

/// The values of `s` never decrease.
pub open spec fn ascending(s: Seq<usize>) -> bool {
    forall|a: int, b: int| 0 <= a < b < s.len() ==> s[a] <= s[b]
}

/// Sorts `v` in ascending order.
pub fn sort_positions(v: Vec<usize>) -> (r: Vec<usize>)
    ensures
        ascending(r@),
        r@.to_multiset() == v@.to_multiset(),
{
    broadcast use vstd::seq_lib::group_to_multiset_ensures;

    let mut out: Vec<usize> = Vec::new();
    let mut i: usize = 0;
    while i < v.len()
        invariant
            i <= v@.len(),
            ascending(out@),
            out@.to_multiset() == v@.take(i as int).to_multiset(),
        decreases v.len() - i,
    {
        let x = v[i];
        let mut idx: usize = 0;
        while idx < out.len() && out[idx] <= x
            invariant
                idx <= out@.len(),
                forall|k: int| 0 <= k < idx ==> out@[k] <= x,
            decreases out.len() - idx,
        {
            idx = idx + 1;
        }
        let ghost before = out@;
        out.insert(idx, x);
        proof {
            assert forall|a: int, b: int| 0 <= a < b < out@.len() implies out@[a] <= out@[b] by {
                if b < idx {
                    assert(before[a] <= before[b]);
                } else if b == idx {
                    assert(out@[a] == before[a]);
                } else if a == idx {
                    assert(out@[b] == before[b - 1]);
                    assert(before[idx as int] > x);
                    if b - 1 > idx {
                        assert(before[idx as int] <= before[b - 1]);
                    }
                } else if a < idx {
                    assert(out@[b] == before[b - 1]);
                    assert(before[a] <= before[b - 1]);
                } else {
                    assert(before[a - 1] <= before[b - 1]);
                }
            }
            assert(out@.to_multiset() == before.to_multiset().insert(x)) by {
                vstd::seq_lib::to_multiset_insert(before, idx as int, x);
            }
            assert(v@.take(i + 1) == v@.take(i as int).push(x));
            vstd::seq_lib::to_multiset_build(v@.take(i as int), x);
        }
        i = i + 1;
    }
    proof {
        assert(v@.take(v@.len() as int) == v@);
    }
    out
}

/// Setting the low `shift` bits of a left-shifted value is an addition.
proof fn lemma_or_low_bits(a: usize, b: usize, shift: usize)
    by (bit_vector)
    requires
        shift < usize::BITS,
        b < (1usize << shift),
    ensures
        (a << shift) | b == (a << shift) + b,
{
}

/// In a power-of-two layer of `len` groups split into power-of-two `num_partitions`
/// partitions, a position's partition index is its partition times the partition size plus
/// its offset within the partition.
pub proof fn lemma_partition_index_value(len: usize, num_partitions: usize, p: usize)
    requires
        is_pow2(len as int),
        is_pow2(num_partitions as int),
        num_partitions <= len,
        p < len,
        len * 4 <= usize::MAX,
    ensures
        len as int / num_partitions as int > 0,
        (len as int / num_partitions as int) * num_partitions == len,
        0 <= local_bits((len * 4) as usize, num_partitions) < usize::BITS,
        partition_index(p, (len * 4) as usize, num_partitions) == (p as int % num_partitions as int) * (
        len as int / num_partitions as int) + p as int / num_partitions as int,
{
    let np = num_partitions as int;
    let x = log2(len as int);
    let y = log2(np);
    lemma_pow2_log2(len as int);
    lemma_pow2_log2(np);
    if y > x {
        lemma_pow2_strictly_increases(x, y);
    }
    let lb = (x - y) as nat;
    lemma_pow2_adds(y, lb);
    let ps = pow2(lb) as int;
    assert(len == np * ps) by (nonlinear_arith)
        requires
            len == pow2(x),
            np == pow2(y),
            ps == pow2(lb),
            pow2(y) * pow2(lb) == pow2(y + lb),
            x == y + lb,
    ;
    lemma_fundamental_div_mod_converse(len as int, np, ps, 0);
    assert(((len * 4) as usize) / 4 == len);
    lemma_tz_pow2(len);
    lemma_tz_pow2(num_partitions);
    assert(local_bits((len * 4) as usize, num_partitions) == lb);
    assert(ps > 0) by {
        vstd::arithmetic::power2::lemma_pow2_pos(lb);
    }
    // the offset within the partition stays below the partition size
    lemma_fundamental_div_mod(p as int, np);
    let a = p as int % np;
    let b = p as int / np;
    assert(b < ps) by (nonlinear_arith)
        requires
            p == np * b + a,
            0 <= a,
            p < np * ps,
            np > 0,
    ;
    assert((p - a) / np == b) by {
        assert(p - a == b * np) by (nonlinear_arith)
            requires
                p == np * b + a,
        ;
        lemma_fundamental_div_mod_converse(p - a, np, b, 0);
    }
    // lb is a valid shift amount
    assert(lb < usize::BITS) by {
        lemma2_to64();
        lemma2_to64_rest();
        if lb >= usize::BITS {
            lemma_pow2_strictly_increases((usize::BITS - 1) as nat, lb);
            assert(usize::BITS == 32 || usize::BITS == 64);
        }
    }
    assert(a * ps <= usize::MAX) by (nonlinear_arith)
        requires
            a < np,
            np * ps <= usize::MAX,
            ps > 0,
    ;
    lemma_usize_shl_is_mul(a as usize, lb as usize);
    lemma_usize_shl_is_mul(1usize, lb as usize);
    lemma_or_low_bits(a as usize, b as usize, lb as usize);
}

/// The shuffled layer holds, at the partition index of `p`, the value that the layer holds
/// at `p`: querying the shuffled layer at mapped positions reads the same values.
pub proof fn lemma_shuffled_at_partition_index<T>(
    evaluations: Seq<T>,
    num_partitions: usize,
    p: usize,
)
    requires
        is_pow2(evaluations.len() as int),
        is_pow2(num_partitions as int),
        num_partitions <= evaluations.len(),
        p < evaluations.len(),
        evaluations.len() * 4 <= usize::MAX,
    ensures
        ({
            let k = partition_index(p, (evaluations.len() * 4) as usize, num_partitions);
            &&& k < shuffled(evaluations, num_partitions as nat).len()
            &&& shuffled(evaluations, num_partitions as nat)[k as int] == evaluations[p as int]
        }),
{
    let len = evaluations.len() as usize;
    let np = num_partitions as int;
    lemma_partition_index_value(len, num_partitions, p);
    let ps = len as int / np;
    let a = p as int % np;
    let b = p as int / np;
    let k = a * ps + b;
    lemma_fundamental_div_mod(p as int, np);
    assert(b < ps) by (nonlinear_arith)
        requires
            p == np * b + a,
            0 <= a < np,
            p < len,
            len == ps * np,
            np > 0,
    ;
    assert(k < np * ps) by (nonlinear_arith)
        requires
            k == a * ps + b,
            0 <= a < np,
            0 <= b < ps,
    {
        assert(a * ps <= (np - 1) * ps);
    }
    lemma_fundamental_div_mod_converse(k, ps, a, b);
    assert(a + b * np == p) by (nonlinear_arith)
        requires
            p == np * b + a,
    ;
}

// WORKER POSITIONS
// ================================================================================================

/// The positions of `positions` that fall to the worker holding partition `index`, translated
/// to that worker's local domain (in the order of `positions`, duplicates included).
pub open spec fn local_candidates(positions: Seq<usize>, num_partitions: usize, index: usize) -> Seq<
    usize,
>
    decreases positions.len(),
{
    if positions.len() == 0 {
        Seq::empty()
    } else {
        let rest = local_candidates(positions.drop_last(), num_partitions, index);
        let p = positions.last();
        if p % num_partitions == index {
            rest.push(((p - index) / num_partitions as int) as usize)
        } else {
            rest
        }
    }
}

/// Selects the positions that belong to the worker holding partition `index` (those congruent
/// to `index` modulo `num_partitions`) and translates them into the worker's local domain;
/// each local position is listed once.
pub fn to_local_positions(positions: &[usize], num_partitions: usize, index: usize) -> (r: Vec<
    usize,
>)
    requires
        num_partitions > 0,
    ensures
        r@ == dedup(local_candidates(positions@, num_partitions, index)),
{
    let mut result: Vec<usize> = Vec::new();
    let mut i: usize = 0;
    while i < positions.len()
        invariant
            num_partitions > 0,
            i <= positions@.len(),
            result@ == dedup(local_candidates(positions@.take(i as int), num_partitions, index)),
        decreases positions.len() - i,
    {
        let p = positions[i];
        proof {
            assert(positions@.take(i + 1).drop_last() == positions@.take(i as int));
            assert(positions@.take(i + 1).last() == p);
        }
        if p % num_partitions == index {
            proof {
                assert(index <= p) by (nonlinear_arith)
                    requires
                        index == p % num_partitions,
                        num_partitions > 0,
                ;
            }
            let local = (p - index) / num_partitions;
            proof {
                let c = local_candidates(positions@.take(i as int), num_partitions, index);
                assert(c.push(local).drop_last() == c);
            }
            if !contains_position(&result, local) {
                result.push(local);
            }
        }
        i = i + 1;
    }
    proof {
        assert(positions@.take(positions@.len() as int) == positions@);
    }
    result
}

/// Each position reduced modulo the number of values in a layer.
pub open spec fn folded(positions: Seq<usize>, num_evaluations: usize) -> Seq<usize> {
    positions.map_values(|p: usize| (p % num_evaluations) as usize)
}

/// Maps positions onto a worker layer of `num_evaluations` values; each resulting position
/// is listed once.
pub fn map_layer_positions(positions: &[usize], num_evaluations: usize) -> (r: Vec<usize>)
    requires
        num_evaluations > 0,
    ensures
        r@ == dedup(folded(positions@, num_evaluations)),
{
    let mut result: Vec<usize> = Vec::new();
    let mut i: usize = 0;
    while i < positions.len()
        invariant
            num_evaluations > 0,
            i <= positions@.len(),
            result@ == dedup(folded(positions@, num_evaluations).take(i as int)),
        decreases positions.len() - i,
    {
        let p = positions[i] % num_evaluations;
        proof {
            let f = folded(positions@, num_evaluations);
            assert(f.take(i + 1).drop_last() == f.take(i as int));
            assert(f.take(i + 1).last() == p);
        }
        if !contains_position(&result, p) {
            result.push(p);
        }
        i = i + 1;
    }
    proof {
        assert(folded(positions@, num_evaluations).take(positions@.len() as int) == folded(
            positions@,
            num_evaluations,
        ));
    }
    result
}

/// Number of values in FRI layer `layer_depth` of a domain of `domain_size` values, each layer
/// folding the previous one by four.
pub open spec fn layer_size(domain_size: usize, layer_depth: usize) -> int {
    domain_size as int / pow(4, (layer_depth + 1) as nat)
}

/// Number of bits of a position within a worker's part of layer `layer_depth`.
pub open spec fn worker_bits(domain_size: usize, num_workers: usize, layer_depth: usize) -> int {
    tz(layer_size(domain_size, layer_depth) as usize) - tz(num_workers)
}

/// The global index of the value at `local_position` of layer `layer_depth` of worker
/// `worker_idx`.
pub open spec fn global_position(
    domain_size: usize,
    num_workers: usize,
    worker_idx: usize,
    layer_depth: usize,
    local_position: usize,
) -> usize {
    (worker_idx << (worker_bits(domain_size, num_workers, layer_depth) as usize)) | local_position
}

/// Translates a position in a worker's local layer into the position in the global layer:
/// the worker index, shifted by the number of local bits, selects the block, the local
/// position the offset in it.
pub fn to_global_position(
    domain_size: usize,
    num_workers: usize,
    worker_idx: usize,
    layer_depth: usize,
    local_position: usize,
) -> (r: usize)
    requires
        pow(4, (layer_depth + 1) as nat) <= usize::MAX,
        tz(num_workers) <= tz(layer_size(domain_size, layer_depth) as usize),
        worker_bits(domain_size, num_workers, layer_depth) < usize::BITS,
    ensures
        r == global_position(domain_size, num_workers, worker_idx, layer_depth, local_position),
{
    let mut divisor: usize = 4;
    let mut d: usize = 0;
    proof {
        vstd::arithmetic::power::lemma_pow1(4);
    }
    while d < layer_depth
        invariant
            d <= layer_depth,
            divisor == pow(4, (d + 1) as nat),
            divisor > 0,
            pow(4, (layer_depth + 1) as nat) <= usize::MAX,
        decreases layer_depth - d,
    {
        proof {
            vstd::arithmetic::power::lemma_pow_increases(4, (d + 2) as nat, (layer_depth + 1) as nat);
            vstd::arithmetic::power::lemma_pow_adds(4, (d + 1) as nat, 1);
            vstd::arithmetic::power::lemma_pow1(4);
            vstd::arithmetic::power::lemma_pow_positive(4, (d + 2) as nat);
        }
        divisor = divisor * 4;
        d = d + 1;
    }
    let num_evaluations = domain_size / divisor;
    let shift = trailing_zero_count(num_evaluations) - trailing_zero_count(num_workers);
    (worker_idx << shift) | local_position
}

/// The worker-side route (partition by index, local position, back to global) lands on the
/// same place as the partition index of the shuffled layer.
pub proof fn lemma_global_position_is_partition_index(
    domain_size: usize,
    num_workers: usize,
    p: usize,
)
    requires
        num_workers > 0,
    ensures
        global_position(
            domain_size,
            num_workers,
            (p % num_workers) as usize,
            0,
            ((p - p % num_workers) / num_workers as int) as usize,
        ) == partition_index(p, domain_size, num_workers),
{
    vstd::arithmetic::power::lemma_pow1(4);
}

} // verus!
