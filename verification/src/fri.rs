//! The verifier's side of FRI: checking that the queried values of each layer agree with the
//! values folded from the previous layer, folding them with the layer's random point, and
//! checking the remainder.
//!
//! The values queried from each layer (already authenticated against the layer commitments)
//! and the random folding points are inputs; the positions queried at each layer are computed
//! here, and a caller reads the layer values at [positions_of_next_layer] of the previous
//! positions.

use crate::field::{field_exp, field_mul, f_exp, f_mul, is_element};
use crate::poly::all_elements;
use crate::positions::{dedup, folded, lemma_dedup, map_layer_positions};
use crate::verification::{
    first_index, interpolate_at, interpolant, remainder_verdict, verify_remainder, RemainderError,
};
use vstd::prelude::*;

verus! {

/// Reasons for which a FRI proof is rejected.
#[derive(Debug, Clone, Copy, PartialEq, Eq, Structural)]
pub enum FriError {
    /// The queried values of a layer are not one row per queried position.
    LayerQueryMismatch(usize),
    /// The values folded from the previous layer differ from the queried values of a layer.
    EvaluationsMismatch(usize),
    /// The values folded from the last layer differ from the remainder.
    RemainderMismatch,
    /// The remainder is not a low-degree polynomial.
    InvalidRemainder(RemainderError),
}

// SPECIFICATION
// ================================================================================================

/// `n` divided by four, `k` times.
pub open spec fn quarter_n(n: nat, k: nat) -> nat
    decreases k,
{
    if k == 0 {
        n
    } else {
        quarter_n(n, (k - 1) as nat) / 4
    }
}

/// Each of the first `num_layers` layers has a size that is a positive multiple of four.
pub open spec fn layers_divisible(domain_size: nat, num_layers: nat) -> bool {
    forall|d: nat|
        d < num_layers ==> #[trigger] quarter_n(domain_size, d) % 4 == 0 && quarter_n(domain_size, d)
            >= 4
}

/// The queried rows of every layer hold canonical field elements.
pub open spec fn rows_ok(layers: Seq<Seq<[u128; 4]>>) -> bool {
    forall|d: int, i: int, k: int|
        0 <= d < layers.len() && 0 <= i < layers[d].len() && 0 <= k < 4 ==> is_element(
            #[trigger] layers[d][i][k],
        )
}

/// The queried rows of every layer.
pub open spec fn layers_view(layer_values: Seq<Vec<[u128; 4]>>) -> Seq<Seq<[u128; 4]>> {
    layer_values.map_values(|v: Vec<[u128; 4]>| v@)
}

/// Value of each queried position in the rows of a layer of `size` values.
pub open spec fn column_values(
    values: Seq<[u128; 4]>,
    positions: Seq<usize>,
    augmented: Seq<usize>,
    size: nat,
) -> Seq<u128> {
    let row_length = (size / 4) as usize;
    Seq::new(
        positions.len(),
        |k: int|
            values[first_index(augmented, (positions[k] % row_length) as usize)][(positions[k]
                / row_length) as int],
    )
}

/// The four points of the row of the layer at position `i`: `i`-th power of the layer's root
/// times each of the four fourth roots of unity.
pub open spec fn row_points(quartic_roots: Seq<u128>, root: u128, i: usize) -> Seq<u128> {
    let xe = f_exp(root as int, (i as u32) as nat);
    Seq::new(4, |k: int| f_mul(quartic_roots[k] as int, xe) as u128)
}

/// The values of the next layer: each row's polynomial evaluated at the folding point.
pub open spec fn folded_values(
    values: Seq<[u128; 4]>,
    augmented: Seq<usize>,
    quartic_roots: Seq<u128>,
    root: u128,
    alpha: u128,
) -> Seq<u128> {
    Seq::new(
        augmented.len(),
        |i: int| interpolant(row_points(quartic_roots, root, augmented[i]), values[i]@, alpha as int) as u128,
    )
}

/// Positions, values, domain root and size after checking and folding the layers from `depth`
/// on; or the first error.
pub open spec fn fri_layers(
    layers: Seq<Seq<[u128; 4]>>,
    alphas: Seq<u128>,
    quartic_roots: Seq<u128>,
    depth: nat,
    positions: Seq<usize>,
    evaluations: Seq<u128>,
    root: u128,
    size: nat,
) -> Result<(Seq<usize>, Seq<u128>, u128, nat), FriError>
    decreases layers.len() - depth,
{
    if depth >= layers.len() {
        Ok((positions, evaluations, root, size))
    } else {
        let augmented = dedup(folded(positions, (size / 4) as usize));
        let values = layers[depth as int];
        if values.len() != augmented.len() {
            Err(FriError::LayerQueryMismatch(depth as usize))
        } else if evaluations != column_values(values, positions, augmented, size) {
            Err(FriError::EvaluationsMismatch(depth as usize))
        } else {
            fri_layers(
                layers,
                alphas,
                quartic_roots,
                depth + 1,
                augmented,
                folded_values(values, augmented, quartic_roots, root, alphas[depth as int]),
                f_exp(root as int, 4) as u128,
                size / 4,
            )
        }
    }
}

/// The fourth roots of unity of a domain of `domain_size` values generated by `domain_root`.
pub open spec fn quartic_roots_of(domain_root: u128, domain_size: usize) -> Seq<u128> {
    seq![
        1u128,
        f_exp(domain_root as int, (((domain_size / 4) as u32) as nat)) as u128,
        f_exp(domain_root as int, (((domain_size / 2) as u32) as nat)) as u128,
        f_exp(domain_root as int, ((((domain_size * 3) / 4) as u32) as nat)) as u128,
    ]
}

/// The remainder holds the folded value at each of the last positions.
pub open spec fn matches_remainder(remainder: Seq<u128>, positions: Seq<usize>, evaluations: Seq<u128>) -> bool {
    let n = if positions.len() < evaluations.len() {
        positions.len()
    } else {
        evaluations.len()
    };
    forall|k: int| 0 <= k < n ==> remainder[#[trigger] positions[k] as int] == evaluations[k]
}

/// Outcome of verifying a FRI proof.
pub open spec fn fri_verdict(
    domain_size: usize,
    domain_root: u128,
    max_degree: usize,
    blowup_factor: usize,
    positions: Seq<usize>,
    evaluations: Seq<u128>,
    layers: Seq<Seq<[u128; 4]>>,
    alphas: Seq<u128>,
    remainder: Seq<u128>,
) -> Result<bool, FriError> {
    let quartic_roots = quartic_roots_of(domain_root, domain_size);
    match fri_layers(
        layers,
        alphas,
        quartic_roots,
        0,
        positions,
        evaluations,
        domain_root,
        domain_size as nat,
    ) {
        Err(e) => Err(e),
        Ok((last_positions, last_evaluations, root, _)) => {
            if !matches_remainder(remainder, last_positions, last_evaluations) {
                Err(FriError::RemainderMismatch)
            } else {
                match remainder_verdict(
                    remainder,
                    quarter_n((max_degree + 1) as nat, layers.len()),
                    root,
                    blowup_factor as nat,
                ) {
                    Ok(b) => Ok(b),
                    Err(e) => Err(FriError::InvalidRemainder(e)),
                }
            }
        },
    }
}

// EXECUTABLE
// ================================================================================================

proof fn lemma_first_index_found(s: Seq<usize>, v: usize)
    requires
        s.contains(v),
    ensures
        0 <= first_index(s, v) < s.len(),
        s[first_index(s, v)] == v,
    decreases s.len(),
{
    if s[0] != v {
        let k = choose|k: int| 0 <= k < s.len() && s[k] == v;
        assert(s.drop_first()[k - 1] == v);
        lemma_first_index_found(s.drop_first(), v);
    }
}

/// The positions to query in the next layer: each position reduced modulo a quarter of the
/// layer size, listed once.
pub fn positions_of_next_layer(positions: &[usize], layer_size: usize) -> (r: Vec<usize>)
    requires
        layer_size >= 4,
    ensures
        r@ == dedup(folded(positions@, (layer_size / 4) as usize)),
{
    map_layer_positions(positions, layer_size / 4)
}

fn copy_of<T: Copy>(s: &[T]) -> (r: Vec<T>)
    ensures
        r@ == s@,
{
    let mut r: Vec<T> = Vec::new();
    let mut i: usize = 0;
    while i < s.len()
        invariant
            i <= s@.len(),
            r@ == s@.take(i as int),
        decreases s.len() - i,
    {
        r.push(s[i]);
        i = i + 1;
        assert(r@ =~= s@.take(i as int));
    }
    assert(s@.take(i as int) =~= s@);
    r
}

fn same_values(a: &[u128], b: &[u128]) -> (r: bool)
    ensures
        r == (a@ == b@),
{
    if a.len() != b.len() {
        return false;
    }
    let mut i: usize = 0;
    while i < a.len()
        invariant
            a@.len() == b@.len(),
            i <= a@.len(),
            forall|k: int| 0 <= k < i ==> a@[k] == b@[k],
        decreases a.len() - i,
    {
        if a[i] != b[i] {
            return false;
        }
        i = i + 1;
    }
    assert(a@ =~= b@);
    true
}

/// Folds the queried rows of a layer with the folding point `alpha`.
fn fold_rows(
    values: &[[u128; 4]],
    augmented: &[usize],
    quartic_roots: &[u128; 4],
    root: u128,
    alpha: u128,
) -> (r: Vec<u128>)
    requires
        values@.len() == augmented@.len(),
        forall|i: int, k: int| 0 <= i < values@.len() && 0 <= k < 4 ==> is_element(#[trigger] values@[i][k]),
        all_elements(quartic_roots@),
        is_element(root),
        is_element(alpha),
    ensures
        r@ == folded_values(values@, augmented@, quartic_roots@, root, alpha),
        all_elements(r@),
{
    let mut result: Vec<u128> = Vec::new();
    let mut i: usize = 0;
    while i < augmented.len()
        invariant
            values@.len() == augmented@.len(),
            forall|j: int, k: int| 0 <= j < values@.len() && 0 <= k < 4 ==> is_element(#[trigger] values@[j][k]),
            all_elements(quartic_roots@),
            is_element(root),
            is_element(alpha),
            i <= augmented@.len(),
            result@ == folded_values(values@, augmented@, quartic_roots@, root, alpha).take(i as int),
            all_elements(result@),
        decreases augmented.len() - i,
    {
        let xe = field_exp(root, (#[verifier::truncate] (augmented[i] as u32)) as u128);
        let xs: [u128; 4] = [
            field_mul(quartic_roots[0], xe),
            field_mul(quartic_roots[1], xe),
            field_mul(quartic_roots[2], xe),
            field_mul(quartic_roots[3], xe),
        ];
        let ys: [u128; 4] = values[i];
        proof {
            assert(xs@ =~= row_points(quartic_roots@, root, augmented@[i as int]));
            assert(all_elements(ys@)) by {
                assert forall|k: int| 0 <= k < ys@.len() implies is_element(#[trigger] ys@[k]) by {
                    assert(is_element(values@[i as int][k]));
                }
            }
        }
        let v = interpolate_at(&xs, &ys, alpha);
        result.push(v);
        i = i + 1;
        proof {
            assert(result@ =~= folded_values(values@, augmented@, quartic_roots@, root, alpha).take(
                i as int,
            ));
        }
    }
    proof {
        assert(result@ =~= folded_values(values@, augmented@, quartic_roots@, root, alpha));
    }
    result
}

/// Verifies the FRI layers of a proof and its remainder: at each layer, the values folded from
/// the previous layer (at first, `evaluations`) must be the queried values of the layer at the
/// queried positions; the queried rows are then folded with the layer's random point. The
/// values folded from the last layer must be the remainder's values at the last positions,
/// and the remainder must be a polynomial of degree at most `max_degree` folded as many times.
pub fn verify(
    domain_size: usize,
    domain_root: u128,
    max_degree: usize,
    blowup_factor: usize,
    positions: &[usize],
    evaluations: &[u128],
    layer_values: &[Vec<[u128; 4]>],
    alphas: &[u128],
    remainder: &[u128],
) -> (r: Result<bool, FriError>)
    requires
        layer_values@.len() == alphas@.len(),
        layers_divisible(domain_size as nat, layer_values@.len()),
        domain_size * 3 <= usize::MAX,
        max_degree < usize::MAX,
        blowup_factor > 0,
        forall|k: int| 0 <= k < positions@.len() ==> #[trigger] positions@[k] < domain_size,
        remainder@.len() >= quarter_n(domain_size as nat, layer_values@.len()),
        is_element(domain_root),
        all_elements(evaluations@),
        all_elements(alphas@),
        all_elements(remainder@),
        rows_ok(layers_view(layer_values@)),
    ensures
        r == fri_verdict(
            domain_size,
            domain_root,
            max_degree,
            blowup_factor,
            positions@,
            evaluations@,
            layers_view(layer_values@),
            alphas@,
            remainder@,
        ),
{
    let ghost layers = layers_view(layer_values@);
    let quartic_roots: [u128; 4] = [
        1u128,
        field_exp(domain_root, (#[verifier::truncate] ((domain_size / 4) as u32)) as u128),
        field_exp(domain_root, (#[verifier::truncate] ((domain_size / 2) as u32)) as u128),
        field_exp(domain_root, (#[verifier::truncate] (((domain_size * 3) / 4) as u32)) as u128),
    ];
    proof {
        assert(quartic_roots@ =~= quartic_roots_of(domain_root, domain_size));
    }
    let ghost start = fri_layers(
        layers,
        alphas@,
        quartic_roots@,
        0,
        positions@,
        evaluations@,
        domain_root,
        domain_size as nat,
    );
    let mut root = domain_root;
    let mut size = domain_size;
    let mut current_positions: Vec<usize> = copy_of(positions);
    let mut current_evaluations: Vec<u128> = copy_of(evaluations);
    let mut max_degree_plus_1 = max_degree + 1;
    let mut depth: usize = 0;
    while depth < layer_values.len()
        invariant
            layers == layers_view(layer_values@),
            quartic_roots@ == quartic_roots_of(domain_root, domain_size),
            start == fri_layers(
                layers,
                alphas@,
                quartic_roots@,
                0,
                positions@,
                evaluations@,
                domain_root,
                domain_size as nat,
            ),
            layer_values@.len() == alphas@.len(),
            layers_divisible(domain_size as nat, layer_values@.len()),
            rows_ok(layers),
            all_elements(alphas@),
            all_elements(quartic_roots@),
            depth <= layer_values@.len(),
            size == quarter_n(domain_size as nat, depth as nat),
            max_degree_plus_1 == quarter_n((max_degree + 1) as nat, depth as nat),
            is_element(root),
            all_elements(current_evaluations@),
            forall|k: int| 0 <= k < current_positions@.len() ==> #[trigger] current_positions@[k] < size,
            start == fri_layers(
                layers,
                alphas@,
                quartic_roots@,
                depth as nat,
                current_positions@,
                current_evaluations@,
                root,
                size as nat,
            ),
        decreases layer_values@.len() - depth,
    {
        proof {
            assert(quarter_n(domain_size as nat, depth as nat) % 4 == 0);
        }
        let augmented = positions_of_next_layer(current_positions.as_slice(), size);
        let values = &layer_values[depth];
        proof {
            assert(values@ == layers[depth as int]);
        }
        if values.len() != augmented.len() {
            return Err(FriError::LayerQueryMismatch(depth));
        }
        let ghost row_length = (size / 4) as usize;
        proof {
            lemma_dedup(folded(current_positions@, row_length));
            assert forall|k: int| 0 <= k < current_positions@.len() implies {
                let p = #[trigger] current_positions@[k];
                &&& augmented@.contains((p % row_length) as usize)
                &&& first_index(augmented@, (p % row_length) as usize) < values@.len()
                &&& p / row_length < 4
            } by {
                let p = current_positions@[k];
                let f = folded(current_positions@, row_length);
                assert(f[k] == (p % row_length) as usize);
                assert(f.contains(f[k]));
                lemma_first_index_found(augmented@, (p % row_length) as usize);
                assert(p / row_length < 4) by (nonlinear_arith)
                    requires
                        p < size,
                        size == 4 * row_length,
                        row_length > 0,
                ;
            }
        }
        let column = crate::verification::get_column_values(
            values.as_slice(),
            current_positions.as_slice(),
            augmented.as_slice(),
            size,
        );
        proof {
            assert(column@ =~= column_values(
                values@,
                current_positions@,
                augmented@,
                size as nat,
            ));
        }
        if !same_values(current_evaluations.as_slice(), column.as_slice()) {
            return Err(FriError::EvaluationsMismatch(depth));
        }
        proof {
            assert forall|i: int, k: int|
                0 <= i < values@.len() && 0 <= k < 4 implies is_element(#[trigger] values@[i][k]) by {
                assert(layers[depth as int][i][k] == values@[i][k]);
            }
        }
        let next = fold_rows(values.as_slice(), augmented.as_slice(), &quartic_roots, root, alphas[depth]);
        proof {
            assert forall|k: int| 0 <= k < augmented@.len() implies #[trigger] augmented@[k] < size / 4 by {
                let f = folded(current_positions@, row_length);
                assert(augmented@.contains(augmented@[k]));
                assert(f.contains(augmented@[k]));
                let j = choose|j: int| 0 <= j < f.len() && f[j] == augmented@[k];
                assert(f[j] == (current_positions@[j] % row_length) as usize);
            }
        }
        root = field_exp(root, 4);
        size = size / 4;
        max_degree_plus_1 = max_degree_plus_1 / 4;
        current_positions = augmented;
        current_evaluations = next;
        depth = depth + 1;
    }
    let n = if current_positions.len() < current_evaluations.len() {
        current_positions.len()
    } else {
        current_evaluations.len()
    };
    proof {
        assert(start == Ok::<(Seq<usize>, Seq<u128>, u128, nat), FriError>(
            (current_positions@, current_evaluations@, root, size as nat),
        ));
    }
    let mut k: usize = 0;
    while k < n
        invariant
            layers == layers_view(layer_values@),
            quartic_roots@ == quartic_roots_of(domain_root, domain_size),
            start == fri_layers(
                layers,
                alphas@,
                quartic_roots@,
                0,
                positions@,
                evaluations@,
                domain_root,
                domain_size as nat,
            ),
            start == Ok::<(Seq<usize>, Seq<u128>, u128, nat), FriError>(
                (current_positions@, current_evaluations@, root, size as nat),
            ),
            n == if current_positions@.len() < current_evaluations@.len() {
                current_positions@.len()
            } else {
                current_evaluations@.len()
            },
            n <= current_positions@.len(),
            n <= current_evaluations@.len(),
            k <= n,
            forall|q: int| 0 <= q < current_positions@.len() ==> #[trigger] current_positions@[q] < size,
            size <= remainder@.len(),
            forall|q: int|
                0 <= q < k ==> remainder@[#[trigger] current_positions@[q] as int]
                    == current_evaluations@[q],
        decreases n - k,
    {
        let p = current_positions[k];
        if remainder[p] != current_evaluations[k] {
            proof {
                assert(remainder@[current_positions@[k as int] as int] != current_evaluations@[k as int]);
                assert(!matches_remainder(remainder@, current_positions@, current_evaluations@));
            }
            return Err(FriError::RemainderMismatch);
        }
        k = k + 1;
    }
    match verify_remainder(remainder, max_degree_plus_1, root, blowup_factor) {
        Ok(b) => Ok(b),
        Err(e) => Err(FriError::InvalidRemainder(e)),
    }
}

// PROVER SIDE
// ================================================================================================

/// The rows of a layer at the queried row positions, as the prover answers a query.
pub fn query_layer(values: &[[u128; 4]], positions: &[usize]) -> (r: Vec<[u128; 4]>)
    requires
        forall|k: int| 0 <= k < positions@.len() ==> #[trigger] positions@[k] < values@.len(),
    ensures
        r@.len() == positions@.len(),
        forall|k: int| 0 <= k < positions@.len() ==> #[trigger] r@[k] == values@[positions@[k] as int],
{
    let mut result: Vec<[u128; 4]> = Vec::new();
    let mut k: usize = 0;
    while k < positions.len()
        invariant
            k <= positions@.len(),
            forall|q: int| 0 <= q < positions@.len() ==> #[trigger] positions@[q] < values@.len(),
            result@.len() == k,
            forall|q: int| 0 <= q < k ==> #[trigger] result@[q] == values@[positions@[q] as int],
        decreases positions.len() - k,
    {
        result.push(values[positions[k]]);
        k = k + 1;
    }
    result
}

/// The remainder sent by the prover: the rows of the last layer laid out column by column, so
/// that value `j` is column `j / n` of row `j % n` for `n` rows.
pub fn build_remainder(last_values: &[[u128; 4]]) -> (r: Vec<u128>)
    requires
        last_values@.len() * 4 <= usize::MAX,
    ensures
        r@.len() == 4 * last_values@.len(),
        forall|j: int|
            0 <= j < r@.len() ==> #[trigger] r@[j] == last_values@[j % last_values@.len() as int][j
                / last_values@.len() as int],
{
    let n = last_values.len();
    let mut result: Vec<u128> = Vec::new();
    let mut k: usize = 0;
    while k < 4
        invariant
            n == last_values@.len(),
            n * 4 <= usize::MAX,
            k <= 4,
            result@.len() == k * n,
            forall|j: int|
                0 <= j < result@.len() ==> #[trigger] result@[j] == last_values@[j % n as int][j
                    / n as int],
        decreases 4 - k,
    {
        let mut i: usize = 0;
        while i < n
            invariant
                n == last_values@.len(),
                n * 4 <= usize::MAX,
                k < 4,
                i <= n,
                result@.len() == k * n + i,
                forall|j: int|
                    0 <= j < result@.len() ==> #[trigger] result@[j] == last_values@[j % n as int][j
                        / n as int],
            decreases n - i,
        {
            proof {
                vstd::arithmetic::div_mod::lemma_fundamental_div_mod_converse(
                    (k * n + i) as int,
                    n as int,
                    k as int,
                    i as int,
                );
                assert(k * n + i < 4 * n) by (nonlinear_arith)
                    requires
                        k < 4,
                        i < n,
                ;
            }
            result.push(last_values[i][k]);
            i = i + 1;
        }
        proof {
            assert((k + 1) * n == k * n + n) by (nonlinear_arith);
        }
        k = k + 1;
    }
    result
}

/// The rows that the prover answers at a layer's queried positions are read back by the
/// verifier as the layer's values at those positions: position p is column `p / (size / 4)`
/// of row `p % (size / 4)`.
pub proof fn lemma_answers_read_back(values: Seq<[u128; 4]>, positions: Seq<usize>, size: nat)
    requires
        size % 4 == 0,
        size / 4 == values.len(),
        values.len() > 0,
        size <= usize::MAX,
        forall|k: int| 0 <= k < positions.len() ==> #[trigger] positions[k] < size,
    ensures
        ({
            let row_length = (size / 4) as usize;
            let augmented = dedup(folded(positions, row_length));
            let answers = Seq::new(augmented.len(), |i: int| values[augmented[i] as int]);
            column_values(answers, positions, augmented, size) == Seq::new(
                positions.len(),
                |k: int| values[(positions[k] % row_length) as int][(positions[k] / row_length) as int],
            )
        }),
{
    let row_length = (size / 4) as usize;
    let f = folded(positions, row_length);
    let augmented = dedup(f);
    let answers = Seq::new(augmented.len(), |i: int| values[augmented[i] as int]);
    lemma_dedup(f);
    assert forall|k: int| 0 <= k < positions.len() implies #[trigger] column_values(
        answers,
        positions,
        augmented,
        size,
    )[k] == values[(positions[k] % row_length) as int][(positions[k] / row_length) as int] by {
        let v = (positions[k] % row_length) as usize;
        assert(f[k] == v);
        assert(f.contains(v));
        lemma_first_index_found(augmented, v);
    }
    assert(column_values(answers, positions, augmented, size) =~= Seq::new(
        positions.len(),
        |k: int| values[(positions[k] % row_length) as int][(positions[k] / row_length) as int],
    ));
}

// COMPLETENESS
// ================================================================================================

/// The positions queried at layer `d`: the first layer's positions, folded onto each following
/// layer in turn.
pub open spec fn layer_positions(positions: Seq<usize>, domain_size: nat, d: nat) -> Seq<usize>
    decreases d,
{
    if d == 0 {
        positions
    } else {
        dedup(
            folded(
                layer_positions(positions, domain_size, (d - 1) as nat),
                (quarter_n(domain_size, (d - 1) as nat) / 4) as usize,
            ),
        )
    }
}

/// The root of the domain of layer `d`: the first root raised to the fourth power `d` times.
pub open spec fn layer_root(root: u128, d: nat) -> u128
    decreases d,
{
    if d == 0 {
        root
    } else {
        f_exp(layer_root(root, (d - 1) as nat) as int, 4) as u128
    }
}

/// The value at position `p` of layer `d` of a prover holding the full layers `tables` (each a
/// table of rows of four values) and the remainder: column `p / r` of row `p % r` of the
/// layer's table of `r` rows, and past the last layer the remainder's value.
pub open spec fn honest_value(tables: Seq<Seq<[u128; 4]>>, remainder: Seq<u128>, d: nat, p: int) -> u128 {
    if d < tables.len() {
        let r = tables[d as int].len() as int;
        tables[d as int][p % r][p / r]
    } else {
        remainder[p]
    }
}

/// The rows that a prover holding the full layers `tables` answers at each layer's queried
/// positions.
pub open spec fn honest_answers(tables: Seq<Seq<[u128; 4]>>, positions: Seq<usize>, domain_size: nat) -> Seq<
    Seq<[u128; 4]>,
> {
    Seq::new(
        tables.len(),
        |d: int|
            {
                let rows = layer_positions(positions, domain_size, (d + 1) as nat);
                Seq::new(rows.len(), |i: int| tables[d][rows[i] as int])
            },
    )
}

/// The layers of a prover are folded honestly: each value of a layer (and of the remainder,
/// after the last layer) is the row of the previous layer at that position, interpolated over
/// the row's points and evaluated at the layer's folding point.
pub open spec fn honestly_folded(
    domain_size: usize,
    domain_root: u128,
    tables: Seq<Seq<[u128; 4]>>,
    alphas: Seq<u128>,
    remainder: Seq<u128>,
) -> bool {
    forall|d: nat, i: int|
        d < tables.len() && 0 <= i < tables[d as int].len() ==> #[trigger] honest_value(
            tables,
            remainder,
            d + 1,
            i,
        ) == interpolant(
            row_points(quartic_roots_of(domain_root, domain_size), layer_root(domain_root, d), i as usize),
            tables[d as int][i]@,
            alphas[d as int] as int,
        ) as u128
}

proof fn lemma_quarter_n_bound(n: nat, k: nat)
    ensures
        quarter_n(n, k) <= n,
    decreases k,
{
    if k > 0 {
        lemma_quarter_n_bound(n, (k - 1) as nat);
    }
}

proof fn lemma_layer_positions_bound(positions: Seq<usize>, domain_size: nat, num_layers: nat, d: nat)
    requires
        layers_divisible(domain_size, num_layers),
        domain_size <= usize::MAX,
        d <= num_layers,
        forall|k: int| 0 <= k < positions.len() ==> #[trigger] positions[k] < domain_size,
    ensures
        forall|k: int|
            0 <= k < layer_positions(positions, domain_size, d).len() ==> #[trigger] layer_positions(
                positions,
                domain_size,
                d,
            )[k] < quarter_n(domain_size, d),
    decreases d,
{
    if d > 0 {
        let e = (d - 1) as nat;
        lemma_layer_positions_bound(positions, domain_size, num_layers, e);
        let prev = layer_positions(positions, domain_size, e);
        let r = (quarter_n(domain_size, e) / 4) as usize;
        assert(quarter_n(domain_size, e) >= 4);
        lemma_quarter_n_bound(domain_size, e);
        let f = folded(prev, r);
        lemma_dedup(f);
        assert forall|k: int| 0 <= k < dedup(f).len() implies #[trigger] dedup(f)[k] < quarter_n(domain_size, d) by {
            let v = dedup(f)[k];
            assert(dedup(f).contains(v));
            assert(f.contains(v));
            let j = choose|j: int| 0 <= j < f.len() && f[j] == v;
            assert(f[j] == (prev[j] % r) as usize);
            assert(r > 0);
            assert(prev[j] % r < r);
        }
    }
}

proof fn lemma_honest_layers(
    domain_size: usize,
    domain_root: u128,
    positions: Seq<usize>,
    tables: Seq<Seq<[u128; 4]>>,
    alphas: Seq<u128>,
    remainder: Seq<u128>,
    d: nat,
)
    requires
        layers_divisible(domain_size as nat, tables.len()),
        alphas.len() == tables.len(),
        forall|e: int| 0 <= e < tables.len() ==> (#[trigger] tables[e]).len() == quarter_n(domain_size as nat, e as nat) / 4,
        forall|k: int| 0 <= k < positions.len() ==> #[trigger] positions[k] < domain_size,
        honestly_folded(domain_size, domain_root, tables, alphas, remainder),
        d <= tables.len(),
    ensures
        ({
            let n = domain_size as nat;
            let num_layers = tables.len();
            let pd = layer_positions(positions, n, d);
            let pl = layer_positions(positions, n, num_layers);
            fri_layers(
                honest_answers(tables, positions, n),
                alphas,
                quartic_roots_of(domain_root, domain_size),
                d,
                pd,
                Seq::new(pd.len(), |k: int| honest_value(tables, remainder, d, pd[k] as int)),
                layer_root(domain_root, d),
                quarter_n(n, d),
            ) == Ok::<(Seq<usize>, Seq<u128>, u128, nat), FriError>(
                (
                    pl,
                    Seq::new(pl.len(), |k: int| honest_value(tables, remainder, num_layers, pl[k] as int)),
                    layer_root(domain_root, num_layers),
                    quarter_n(n, num_layers),
                ),
            )
        }),
    decreases tables.len() - d,
{
    let n = domain_size as nat;
    let layers = honest_answers(tables, positions, n);
    let qr = quartic_roots_of(domain_root, domain_size);
    if d < tables.len() {
        let pd = layer_positions(positions, n, d);
        let size = quarter_n(n, d);
        let r = (size / 4) as usize;
        let augmented = dedup(folded(pd, r));
        assert(augmented == layer_positions(positions, n, d + 1));
        let values = layers[d as int];
        let table = tables[d as int];
        assert(size % 4 == 0 && size >= 4);
        lemma_quarter_n_bound(n, d);
        lemma_layer_positions_bound(positions, n, tables.len(), d);
        lemma_layer_positions_bound(positions, n, tables.len(), d + 1);
        lemma_answers_read_back(table, pd, size);
        assert(values =~= Seq::new(augmented.len(), |i: int| table[augmented[i] as int]));
        let evaluations = Seq::new(pd.len(), |k: int| honest_value(tables, remainder, d, pd[k] as int));
        assert(evaluations =~= column_values(values, pd, augmented, size));
        let next = folded_values(values, augmented, qr, layer_root(domain_root, d), alphas[d as int]);
        assert(next =~= Seq::new(
            augmented.len(),
            |k: int| honest_value(tables, remainder, d + 1, augmented[k] as int),
        )) by {
            assert forall|k: int| 0 <= k < augmented.len() implies next[k] == honest_value(
                tables,
                remainder,
                d + 1,
                augmented[k] as int,
            ) by {
                assert(augmented[k] < quarter_n(n, d + 1));
                assert(values[k] == table[augmented[k] as int]);
                assert(honest_value(tables, remainder, d + 1, augmented[k] as int) == interpolant(
                    row_points(qr, layer_root(domain_root, d), augmented[k] as int as usize),
                    table[augmented[k] as int]@,
                    alphas[d as int] as int,
                ) as u128);
            }
        }
        lemma_honest_layers(domain_size, domain_root, positions, tables, alphas, remainder, d + 1);
    }
}

/// Completeness of the FRI verifier: a proof from a prover that holds full layers folded
/// honestly from one layer to the next (and into the remainder), and that answers each layer's
/// queries with the rows of its tables, is accepted for every set of queried positions, as
/// long as the remainder passes the low-degree check.
pub proof fn lemma_honest_proof_is_accepted(
    domain_size: usize,
    domain_root: u128,
    max_degree: usize,
    blowup_factor: usize,
    positions: Seq<usize>,
    tables: Seq<Seq<[u128; 4]>>,
    alphas: Seq<u128>,
    remainder: Seq<u128>,
)
    requires
        layers_divisible(domain_size as nat, tables.len()),
        alphas.len() == tables.len(),
        forall|e: int| 0 <= e < tables.len() ==> (#[trigger] tables[e]).len() == quarter_n(domain_size as nat, e as nat) / 4,
        forall|k: int| 0 <= k < positions.len() ==> #[trigger] positions[k] < domain_size,
        honestly_folded(domain_size, domain_root, tables, alphas, remainder),
        remainder_verdict(
            remainder,
            quarter_n((max_degree + 1) as nat, tables.len()),
            layer_root(domain_root, tables.len()),
            blowup_factor as nat,
        ) == Ok::<bool, RemainderError>(true),
    ensures
        fri_verdict(
            domain_size,
            domain_root,
            max_degree,
            blowup_factor,
            positions,
            Seq::new(positions.len(), |k: int| honest_value(tables, remainder, 0, positions[k] as int)),
            honest_answers(tables, positions, domain_size as nat),
            alphas,
            remainder,
        ) == Ok::<bool, FriError>(true),
{
    lemma_honest_layers(domain_size, domain_root, positions, tables, alphas, remainder, 0);
    let pl = layer_positions(positions, domain_size as nat, tables.len());
    let el = Seq::new(pl.len(), |k: int| honest_value(tables, remainder, tables.len(), pl[k] as int));
    assert(layer_positions(positions, domain_size as nat, 0) == positions);
    assert(honest_answers(tables, positions, domain_size as nat).len() == tables.len());
    assert(matches_remainder(remainder, pl, el));
}

// SOUNDNESS
// ================================================================================================

/// The values that the verifier carries into layer `d`: the given evaluations at the first
/// layer, and after that the values folded from the rows queried at the layer before.
pub open spec fn carried_values(
    domain_size: usize,
    domain_root: u128,
    positions: Seq<usize>,
    evaluations: Seq<u128>,
    layers: Seq<Seq<[u128; 4]>>,
    alphas: Seq<u128>,
    d: nat,
) -> Seq<u128> {
    if d == 0 {
        evaluations
    } else {
        folded_values(
            layers[d - 1],
            layer_positions(positions, domain_size as nat, d),
            quartic_roots_of(domain_root, domain_size),
            layer_root(domain_root, (d - 1) as nat),
            alphas[d - 1],
        )
    }
}

/// Layer `d` holds one queried row per position of the next layer, and the values carried into
/// it are the layer's values at its queried positions.
pub open spec fn layer_consistent(
    domain_size: usize,
    domain_root: u128,
    positions: Seq<usize>,
    evaluations: Seq<u128>,
    layers: Seq<Seq<[u128; 4]>>,
    alphas: Seq<u128>,
    d: nat,
) -> bool {
    let n = domain_size as nat;
    &&& layers[d as int].len() == layer_positions(positions, n, d + 1).len()
    &&& carried_values(domain_size, domain_root, positions, evaluations, layers, alphas, d)
        == column_values(
        layers[d as int],
        layer_positions(positions, n, d),
        layer_positions(positions, n, d + 1),
        quarter_n(n, d),
    )
}

proof fn lemma_accepted_from(
    domain_size: usize,
    domain_root: u128,
    positions: Seq<usize>,
    evaluations: Seq<u128>,
    layers: Seq<Seq<[u128; 4]>>,
    alphas: Seq<u128>,
    d: nat,
)
    requires
        d <= layers.len(),
        fri_layers(
            layers,
            alphas,
            quartic_roots_of(domain_root, domain_size),
            d,
            layer_positions(positions, domain_size as nat, d),
            carried_values(domain_size, domain_root, positions, evaluations, layers, alphas, d),
            layer_root(domain_root, d),
            quarter_n(domain_size as nat, d),
        ) is Ok,
    ensures
        forall|e: nat|
            d <= e < layers.len() ==> #[trigger] layer_consistent(
                domain_size,
                domain_root,
                positions,
                evaluations,
                layers,
                alphas,
                e,
            ),
        fri_layers(
            layers,
            alphas,
            quartic_roots_of(domain_root, domain_size),
            d,
            layer_positions(positions, domain_size as nat, d),
            carried_values(domain_size, domain_root, positions, evaluations, layers, alphas, d),
            layer_root(domain_root, d),
            quarter_n(domain_size as nat, d),
        ) == Ok::<(Seq<usize>, Seq<u128>, u128, nat), FriError>(
            (
                layer_positions(positions, domain_size as nat, layers.len()),
                carried_values(domain_size, domain_root, positions, evaluations, layers, alphas, layers.len()),
                layer_root(domain_root, layers.len()),
                quarter_n(domain_size as nat, layers.len()),
            ),
        ),
    decreases layers.len() - d,
{
    if d < layers.len() {
        let n = domain_size as nat;
        let size = quarter_n(n, d);
        let augmented = dedup(folded(layer_positions(positions, n, d), (size / 4) as usize));
        assert(augmented == layer_positions(positions, n, d + 1));
        assert(layer_consistent(domain_size, domain_root, positions, evaluations, layers, alphas, d));
        assert(carried_values(domain_size, domain_root, positions, evaluations, layers, alphas, d + 1)
            == folded_values(
            layers[d as int],
            augmented,
            quartic_roots_of(domain_root, domain_size),
            layer_root(domain_root, d),
            alphas[d as int],
        ));
        lemma_accepted_from(domain_size, domain_root, positions, evaluations, layers, alphas, d + 1);
    }
}

/// Soundness of the FRI verifier, layer by layer: when it accepts a proof, every layer holds one
/// queried row per position of the next layer, the values carried into every layer (the given
/// evaluations at the first, the values folded from the layer before at the others) are that
/// layer's values at its queried positions, and the values folded from the last layer are the
/// remainder's values at the last positions.
pub proof fn lemma_accepted_layers_are_consistent(
    domain_size: usize,
    domain_root: u128,
    max_degree: usize,
    blowup_factor: usize,
    positions: Seq<usize>,
    evaluations: Seq<u128>,
    layers: Seq<Seq<[u128; 4]>>,
    alphas: Seq<u128>,
    remainder: Seq<u128>,
)
    requires
        fri_verdict(
            domain_size,
            domain_root,
            max_degree,
            blowup_factor,
            positions,
            evaluations,
            layers,
            alphas,
            remainder,
        ) is Ok,
    ensures
        forall|d: nat|
            d < layers.len() ==> #[trigger] layer_consistent(
                domain_size,
                domain_root,
                positions,
                evaluations,
                layers,
                alphas,
                d,
            ),
        matches_remainder(
            remainder,
            layer_positions(positions, domain_size as nat, layers.len()),
            carried_values(domain_size, domain_root, positions, evaluations, layers, alphas, layers.len()),
        ),
{
    assert(layer_positions(positions, domain_size as nat, 0) == positions);
    assert(carried_values(domain_size, domain_root, positions, evaluations, layers, alphas, 0) == evaluations);
    assert(layer_root(domain_root, 0) == domain_root);
    assert(quarter_n(domain_size as nat, 0) == domain_size as nat);
    lemma_accepted_from(domain_size, domain_root, positions, evaluations, layers, alphas, 0);
}

} // verus!
