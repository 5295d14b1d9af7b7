//! The folding state of a worker of the distributed FRI prover: the worker holds its share of
//! the evaluation domain and the layers it has folded so far, each as rows of four values, and
//! folds its last layer with a random point into the next one, or into the remainder once a
//! single value is left.

use crate::field::{f_exp, f_mul, field_exp, field_mul, is_element, m, poly_eval};
use crate::folding::{lemma_fold_row, reduced};
use crate::interpolation::invertible_differences;
use crate::poly::all_elements;
use crate::verification::{interpolant, interpolate_at};
use vstd::arithmetic::power::{lemma_pow0, lemma_pow1, lemma_pow_adds, lemma_pow_positive, pow};
use vstd::prelude::*;

verus! {

/// The values of `values` grouped into rows of four with a stride of a quarter of their number:
/// row `i` holds the values at `i`, `i + q`, `i + 2q` and `i + 3q`, for `q` rows.
pub fn transpose(values: &[u128]) -> (r: Vec<[u128; 4]>)
    requires
        values@.len() % 4 == 0,
    ensures
        r@.len() == values@.len() / 4,
        forall|i: int| 0 <= i < r@.len() ==> (#[trigger] r@[i])[0] == values@[i],
        forall|i: int| 0 <= i < r@.len() ==> (#[trigger] r@[i])[1] == values@[i + r@.len()],
        forall|i: int| 0 <= i < r@.len() ==> (#[trigger] r@[i])[2] == values@[i + 2 * r@.len()],
        forall|i: int| 0 <= i < r@.len() ==> (#[trigger] r@[i])[3] == values@[i + 3 * r@.len()],
{
    let q = values.len() / 4;
    let mut result: Vec<[u128; 4]> = Vec::new();
    let mut i: usize = 0;
    while i < q
        invariant
            q == values@.len() / 4,
            values@.len() % 4 == 0,
            i <= q,
            result@.len() == i,
            forall|j: int| 0 <= j < i ==> (#[trigger] result@[j])[0] == values@[j],
            forall|j: int| 0 <= j < i ==> (#[trigger] result@[j])[1] == values@[j + q],
            forall|j: int| 0 <= j < i ==> (#[trigger] result@[j])[2] == values@[j + 2 * q],
            forall|j: int| 0 <= j < i ==> (#[trigger] result@[j])[3] == values@[j + 3 * q],
        decreases q - i,
    {
        result.push([values[i], values[i + q], values[i + 2 * q], values[i + 3 * q]]);
        i = i + 1;
    }
    result
}

/// The points `x0 * stride^k`, for `k` below `n`.
pub open spec fn geometric(x0: u128, stride: u128, k: nat) -> u128
    decreases k,
{
    if k == 0 {
        x0
    } else {
        f_mul(geometric(x0, stride, (k - 1) as nat) as int, stride as int) as u128
    }
}

/// The four domain points of row `i` when a domain of `4 * q * stride` points is taken with
/// `stride`: those at `i`, `i + q`, `i + 2q` and `i + 3q`, each times `stride`.
pub open spec fn row_domain(domain: Seq<u128>, stride: nat, i: int) -> Seq<u128> {
    let q = domain.len() / (4 * stride);
    seq![
        domain[i * stride],
        domain[(i + q) * stride],
        domain[(i + 2 * q) * stride],
        domain[(i + 3 * q) * stride],
    ]
}

/// The values of a layer folded with `alpha`: each row interpolated over its domain points and
/// evaluated at `alpha`.
pub open spec fn folded_layer(rows: Seq<[u128; 4]>, domain: Seq<u128>, stride: nat, alpha: u128) -> Seq<u128> {
    Seq::new(
        rows.len(),
        |i: int| interpolant(row_domain(domain, stride, i), rows[i]@, alpha as int) as u128,
    )
}

/// The FRI folding state of one worker.
pub struct Worker {
    domain: Vec<u128>,
    evaluations: Vec<Vec<[u128; 4]>>,
    remainder: u128,
}

impl Worker {
    /// The worker's domain points.
    pub closed spec fn domain(&self) -> Seq<u128> {
        self.domain@
    }

    /// The layers folded so far, first layer first, each as rows of four values.
    pub closed spec fn layers(&self) -> Seq<Seq<[u128; 4]>> {
        self.evaluations@.map_values(|v: Vec<[u128; 4]>| v@)
    }

    pub closed spec fn spec_remainder(&self) -> u128 {
        self.remainder
    }

    /// The last layer has a row for each quarter of the domain, and all values are field
    /// elements.
    pub open spec fn wf(&self) -> bool {
        &&& self.layers().len() > 0
        &&& self.domain().len() == 4 * self.layers().last().len()
        &&& all_elements(self.domain())
        &&& is_element(self.spec_remainder())
        &&& forall|d: int, i: int, k: int|
            0 <= d < self.layers().len() && 0 <= i < self.layers()[d].len() && 0 <= k < 4
                ==> is_element(#[trigger] self.layers()[d][i][k])
    }

    /// Creates the worker holding partition `index` of `num_partitions` of a domain generated by
    /// `domain_root`: its domain is `domain_root^index * (domain_root^num_partitions)^k` for each
    /// of its evaluations, and its first layer is its evaluations in rows of four.
    pub fn new(domain_root: u128, num_partitions: usize, index: usize, evaluations: &[u128]) -> (r: Self)
        requires
            is_element(domain_root),
            all_elements(evaluations@),
            evaluations@.len() % 4 == 0,
            evaluations@.len() >= 4,
        ensures
            r.wf(),
            r.domain().len() == evaluations@.len(),
            forall|k: int| 0 <= k < evaluations@.len() ==> #[trigger] r.domain()[k] == geometric(
                f_exp(domain_root as int, index as nat) as u128,
                f_exp(domain_root as int, num_partitions as nat) as u128,
                k as nat,
            ),
            r.layers().len() == 1,
            r.layers()[0].len() == evaluations@.len() / 4,
            forall|i: int, k: int|
                0 <= i < r.layers()[0].len() && 0 <= k < 4 ==> #[trigger] r.layers()[0][i][k]
                    == evaluations@[i + k * r.layers()[0].len()],
            r.spec_remainder() == 0,
    {
        let stride = field_exp(domain_root, num_partitions as u128);
        let x0 = field_exp(domain_root, index as u128);
        let mut x = x0;
        let mut domain: Vec<u128> = Vec::new();
        domain.push(x);
        let mut k: usize = 1;
        while k < evaluations.len()
            invariant
                1 <= k <= evaluations@.len(),
                is_element(stride),
                is_element(x),
                domain@.len() == k,
                x == geometric(x0, stride, (k - 1) as nat),
                forall|j: int| 0 <= j < k ==> #[trigger] domain@[j] == geometric(x0, stride, j as nat),
                all_elements(domain@),
            decreases evaluations.len() - k,
        {
            x = field_mul(x, stride);
            domain.push(x);
            k = k + 1;
        }
        let rows = transpose(evaluations);
        let q = rows.len();
        let ghost rv = rows@;
        let mut evaluations_by_layer: Vec<Vec<[u128; 4]>> = Vec::new();
        evaluations_by_layer.push(rows);
        let r = Worker { domain, evaluations: evaluations_by_layer, remainder: 0 };
        proof {
            assert(r.layers()[0] == rv);
            assert forall|i: int, k: int| 0 <= i < q && 0 <= k < 4 implies #[trigger] r.layers()[0][i][k]
                == evaluations@[i + k * q] by {
                if k == 0 {
                } else if k == 1 {
                } else if k == 2 {
                    assert(2 * q == k * q);
                } else {
                    assert(3 * q == k * q);
                }
            }
            assert forall|i: int, k: int| 0 <= i < q && 0 <= k < 4 implies is_element(#[trigger] rv[i][k]) by {
                assert(0 <= i + k * q < evaluations@.len()) by (nonlinear_arith)
                    requires
                        0 <= i < q,
                        0 <= k < 4,
                        evaluations@.len() == 4 * q,
                ;
                assert(r.layers()[0][i][k] == evaluations@[i + k * q]);
            }
        }
        r
    }

    /// The remainder: the single value left after the last folding.
    pub fn remainder(&self) -> (r: u128)
        ensures
            r == self.spec_remainder(),
    {
        self.remainder
    }

    /// Folds the last layer with `alpha`: each row is interpolated over its four domain points
    /// and evaluated at `alpha`. A single folded value becomes the remainder; otherwise the
    /// folded values, in rows of four, become the next layer. The domain becomes its first
    /// quarter raised to the fourth power.
    pub fn apply_drp(&mut self, alpha: u128)
        requires
            old(self).wf(),
            is_element(alpha),
            old(self).layers().last().len() == 1 || old(self).layers().last().len() % 4 == 0,
        ensures
            ({
                let rows = old(self).layers().last();
                let folded = folded_layer(rows, old(self).domain(), 1, alpha);
                &&& final(self).domain() == Seq::new(
                    old(self).domain().len() / 4,
                    |i: int| f_exp(old(self).domain()[i] as int, 4) as u128,
                )
                &&& if rows.len() == 1 {
                    &&& final(self).spec_remainder() == folded[0]
                    &&& final(self).layers() == old(self).layers()
                } else {
                    &&& final(self).wf()
                    &&& final(self).spec_remainder() == old(self).spec_remainder()
                    &&& final(self).layers().len() == old(self).layers().len() + 1
                    &&& final(self).layers().drop_last() == old(self).layers()
                    &&& final(self).layers().last().len() == rows.len() / 4
                    &&& forall|i: int, k: int|
                        0 <= i < rows.len() / 4 && 0 <= k < 4 ==> #[trigger] final(self).layers().last()[i][k]
                            == folded[i + k * (rows.len() / 4)]
                }
            }),
    {
        let ghost old_layers = self.layers();
        let ghost domain0 = self.domain@;
        let last = self.evaluations.len() - 1;
        let q = self.evaluations[last].len();
        proof {
            assert(self.evaluations@[last as int]@ == old_layers.last());
            assert forall|i: int, k: int| 0 <= i < q && 0 <= k < 4 implies is_element(
                #[trigger] self.evaluations@[last as int]@[i][k],
            ) by {
                assert(is_element(old_layers[last as int][i][k]));
            }
        }
        let folded = fold_layer(self.evaluations[last].as_slice(), self.domain.as_slice(), 1, alpha);
        if q == 1 {
            self.remainder = folded[0];
        } else {
            let rows = transpose(folded.as_slice());
            let ghost rv = rows@;
            self.evaluations.push(rows);
            proof {
                let nl = self.layers();
                assert(nl.drop_last() =~= old_layers);
                assert(nl.last() == rv);
                assert forall|i: int, k: int| 0 <= i < q / 4 && 0 <= k < 4 implies #[trigger] nl.last()[i][k]
                    == folded@[i + k * (q / 4)] by {
                    if k == 2 {
                        assert(2 * (q / 4) == k * (q / 4));
                    } else if k == 3 {
                        assert(3 * (q / 4) == k * (q / 4));
                    }
                }
                assert forall|d: int, i: int, k: int|
                    0 <= d < nl.len() && 0 <= i < nl[d].len() && 0 <= k < 4 implies is_element(
                    #[trigger] nl[d][i][k],
                ) by {
                    if d < old_layers.len() {
                        assert(nl[d] == old_layers[d]);
                    } else {
                        assert(0 <= i + k * (q / 4) < q) by (nonlinear_arith)
                            requires
                                0 <= i < q / 4,
                                0 <= k < 4,
                                q % 4 == 0,
                        ;
                    }
                }
            }
        }
        self.domain = raise_to_fourth(self.domain.as_slice());
    }
}

/// Folds each row of `rows` with `alpha` over its four points of `domain` taken with `stride`.
fn fold_layer(rows: &[[u128; 4]], domain: &[u128], stride: usize, alpha: u128) -> (r: Vec<u128>)
    requires
        stride >= 1,
        domain@.len() == 4 * rows@.len() * stride,
        all_elements(domain@),
        is_element(alpha),
        forall|i: int, k: int| 0 <= i < rows@.len() && 0 <= k < 4 ==> is_element(#[trigger] rows@[i][k]),
    ensures
        r@ == folded_layer(rows@, domain@, stride as nat, alpha),
        all_elements(r@),
{
    let q = rows.len();
    let domain_size = domain.len();
    proof {
        assert(domain@.len() / (4 * stride as nat) == q) by (nonlinear_arith)
            requires
                domain@.len() == 4 * q * stride,
                stride >= 1,
        ;
    }
    let mut folded: Vec<u128> = Vec::new();
    let mut i: usize = 0;
    while i < q
        invariant
            q == rows@.len(),
            stride >= 1,
            domain@.len() == 4 * q * stride,
            domain_size == domain@.len(),
            domain@.len() / (4 * stride as nat) == q,
            all_elements(domain@),
            is_element(alpha),
            forall|j: int, k: int| 0 <= j < q && 0 <= k < 4 ==> is_element(#[trigger] rows@[j][k]),
            i <= q,
            folded@ == folded_layer(rows@, domain@, stride as nat, alpha).take(i as int),
            all_elements(folded@),
        decreases q - i,
    {
        proof {
            assert(i * stride <= domain@.len() && q * stride <= domain@.len()) by (nonlinear_arith)
                requires
                    i < q,
                    stride >= 1,
                    domain@.len() == 4 * q * stride,
            ;
        }
        let base = i * stride;
        let step = q * stride;
        proof {
            assert(base + 3 * step < domain@.len()) by (nonlinear_arith)
                requires
                    i < q,
                    stride >= 1,
                    base == i * stride,
                    step == q * stride,
                    domain@.len() == 4 * q * stride,
            ;
            assert((i + q) * stride == base + step && (i + 2 * q) * stride == base + 2 * step && (i
                + 3 * q) * stride == base + 3 * step) by (nonlinear_arith)
                requires
                    base == i * stride,
                    step == q * stride,
            ;
        }
        let xs: [u128; 4] = [
            domain[base],
            domain[base + step],
            domain[base + 2 * step],
            domain[base + 3 * step],
        ];
        let ys: [u128; 4] = rows[i];
        proof {
            assert(xs@ =~= row_domain(domain@, stride as nat, i as int));
            assert(all_elements(ys@)) by {
                assert forall|k: int| 0 <= k < ys@.len() implies is_element(#[trigger] ys@[k]) by {
                    assert(is_element(rows@[i as int][k]));
                }
            }
        }
        let v = interpolate_at(&xs, &ys, alpha);
        folded.push(v);
        i = i + 1;
        proof {
            assert(folded@ =~= folded_layer(rows@, domain@, stride as nat, alpha).take(i as int));
        }
    }
    assert(folded@ =~= folded_layer(rows@, domain@, stride as nat, alpha));
    folded
}

/// Applies the degree-respecting projection to the rows of a layer at `depth`: each row is
/// interpolated over its four points of the full domain `domain`, taken with a stride of
/// `4^depth` (the points of the layer's domain), and evaluated at `alpha`.
pub fn apply_drp(evaluations: &[[u128; 4]], domain: &[u128], depth: usize, alpha: u128) -> (r: Vec<u128>)
    requires
        domain@.len() == 4 * evaluations@.len() * pow(4, depth as nat),
        all_elements(domain@),
        is_element(alpha),
        forall|i: int, k: int|
            0 <= i < evaluations@.len() && 0 <= k < 4 ==> is_element(#[trigger] evaluations@[i][k]),
    ensures
        r@ == folded_layer(evaluations@, domain@, pow(4, depth as nat) as nat, alpha),
        all_elements(r@),
{
    if evaluations.len() == 0 {
        let r: Vec<u128> = Vec::new();
        assert(r@ =~= folded_layer(evaluations@, domain@, pow(4, depth as nat) as nat, alpha));
        return r;
    }
    let domain_size = domain.len();
    let mut stride: usize = 1;
    let mut d: usize = 0;
    proof {
        lemma_pow0(4);
    }
    while d < depth
        invariant
            d <= depth,
            stride == pow(4, d as nat),
            domain@.len() == 4 * evaluations@.len() * pow(4, depth as nat),
            evaluations@.len() >= 1,
            domain_size == domain@.len(),
        decreases depth - d,
    {
        proof {
            lemma_pow_adds(4, (d + 1) as nat, (depth - d - 1) as nat);
            lemma_pow_positive(4, (depth - d - 1) as nat);
            lemma_pow_positive(4, (d + 1) as nat);
            lemma_pow1(4);
            lemma_pow_adds(4, d as nat, 1);
            let a = pow(4, (d + 1) as nat);
            let b = pow(4, (depth - d - 1) as nat);
            assert(pow(4, depth as nat) == a * b);
            assert(a == stride * 4);
            assert(a <= domain@.len()) by (nonlinear_arith)
                requires
                    domain@.len() == 4 * evaluations@.len() * (a * b),
                    b >= 1,
                    a >= 1,
                    evaluations@.len() >= 1,
            ;
        }
        stride = stride * 4;
        d = d + 1;
    }
    proof {
        lemma_pow_positive(4, depth as nat);
    }
    fold_layer(evaluations, domain, stride, alpha)
}

/// The first quarter of `domain`, each point raised to the fourth power.
fn raise_to_fourth(domain: &[u128]) -> (r: Vec<u128>)
    requires
        all_elements(domain@),
    ensures
        r@ == Seq::new(domain@.len() / 4, |i: int| f_exp(domain@[i] as int, 4) as u128),
        all_elements(r@),
{
    let n = domain.len() / 4;
    let mut result: Vec<u128> = Vec::new();
    let mut j: usize = 0;
    while j < n
        invariant
            n == domain@.len() / 4,
            j <= n,
            all_elements(domain@),
            all_elements(result@),
            result@ == Seq::new(n as nat, |i: int| f_exp(domain@[i] as int, 4) as u128).take(j as int),
        decreases n - j,
    {
        result.push(field_exp(domain[j], 4));
        j = j + 1;
        proof {
            assert(result@ =~= Seq::new(n as nat, |i: int| f_exp(domain@[i] as int, 4) as u128).take(j as int));
        }
    }
    assert(result@ =~= Seq::new(n as nat, |i: int| f_exp(domain@[i] as int, 4) as u128));
    result
}

/// The degree-respecting projection folds an honest layer: when row `i` holds the values of a
/// polynomial `P` at its four domain points (points sharing their fourth power `y`, with
/// differences that have inverses), the folded value of the row is the value at `y` of the
/// polynomial whose coefficient `j` is `p[4j] + p[4j+1] alpha + p[4j+2] alpha^2 +
/// p[4j+3] alpha^3`.
pub proof fn lemma_projection_of_honest_row(
    p: Seq<u128>,
    rows: Seq<[u128; 4]>,
    domain: Seq<u128>,
    stride: nat,
    alpha: u128,
    i: int,
)
    requires
        0 <= i < rows.len(),
        p.len() % 4 == 0,
        invertible_differences(row_domain(domain, stride, i)),
        forall|k: int|
            0 <= k < 4 ==> f_exp(#[trigger] row_domain(domain, stride, i)[k] as int, 4) == f_exp(
                row_domain(domain, stride, i)[0] as int,
                4,
            ),
        forall|k: int|
            0 <= k < 4 ==> #[trigger] rows[i][k] as int == poly_eval(p, row_domain(domain, stride, i)[k] as int),
    ensures
        folded_layer(rows, domain, stride, alpha)[i] as int == poly_eval(
            reduced(p, alpha as int),
            f_exp(row_domain(domain, stride, i)[0] as int, 4),
        ),
{
    let pts = row_domain(domain, stride, i);
    let y = f_exp(pts[0] as int, 4);
    let vals = rows[i]@;
    assert forall|k: int| 0 <= k < 4 implies #[trigger] vals[k] as int == poly_eval(p, pts[k] as int) by {
        assert(vals[k] == rows[i][k]);
    }
    lemma_fold_row(p, pts, vals, alpha as int, y);
    let v = interpolant(pts, vals, alpha as int);
    assert(0 <= v < m());
}

} // verus!
