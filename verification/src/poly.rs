//! Element-wise operations on vectors of field elements used when composing polynomials.

use crate::field::{eval, field_add, field_mul, field_sub, f_add, f_mul, f_sub, is_element, poly_eval};
use crate::options::is_pow2;
use vstd::prelude::*;

verus! {

/// All values of `s` are canonical field elements.
pub open spec fn all_elements(s: Seq<u128>) -> bool {
    forall|i: int| 0 <= i < s.len() ==> is_element(#[trigger] s[i])
}

/// Computes a[i] + b[i] for all i and stores the results in a.
pub fn add_in_place(a: &mut Vec<u128>, b: &[u128])
    requires
        old(a)@.len() == b@.len(),
        all_elements(old(a)@),
        all_elements(b@),
    ensures
        final(a)@.len() == old(a)@.len(),
        all_elements(final(a)@),
        forall|i: int| 0 <= i < b@.len() ==> #[trigger] final(a)@[i] == f_add(old(a)@[i] as int, b@[i] as int),
{
    let mut i: usize = 0;
    while i < a.len()
        invariant
            a@.len() == old(a)@.len() == b@.len(),
            i <= a@.len(),
            all_elements(a@),
            all_elements(old(a)@),
            all_elements(b@),
            forall|j: int| 0 <= j < i ==> #[trigger] a@[j] == f_add(old(a)@[j] as int, b@[j] as int),
            forall|j: int| i <= j < a@.len() ==> #[trigger] a@[j] == old(a)@[j],
        decreases a.len() - i,
    {
        let v = field_add(a[i], b[i]);
        a.set(i, v);
        i = i + 1;
    }
}

/// Computes a[offset + i] + b[i] * c for all i and saves the results into a.
pub fn mul_acc_at(a: &mut Vec<u128>, offset: usize, b: &[u128], c: u128)
    requires
        offset + b@.len() <= old(a)@.len(),
        all_elements(old(a)@),
        all_elements(b@),
        is_element(c),
    ensures
        final(a)@.len() == old(a)@.len(),
        all_elements(final(a)@),
        forall|i: int| 0 <= i < offset ==> #[trigger] final(a)@[i] == old(a)@[i],
        forall|i: int| offset + b@.len() <= i < old(a)@.len() ==> #[trigger] final(a)@[i] == old(a)@[i],
        forall|i: int| 0 <= i < b@.len() ==> #[trigger] final(a)@[offset + i] == f_add(
            old(a)@[offset + i] as int,
            f_mul(b@[i] as int, c as int),
        ),
{
    let mut i: usize = 0;
    while i < b.len()
        invariant
            a@.len() == old(a)@.len(),
            offset + b@.len() <= a.len(),
            i <= b@.len(),
            is_element(c),
            all_elements(a@),
            all_elements(b@),
            all_elements(old(a)@),
            forall|j: int| 0 <= j < i ==> #[trigger] a@[offset + j] == f_add(
                old(a)@[offset + j] as int,
                f_mul(b@[j] as int, c as int),
            ),
            forall|j: int| 0 <= j < a@.len() && !(offset <= j < offset + i) ==> #[trigger] a@[j]
                == old(a)@[j],
        decreases b.len() - i,
    {
        let t = field_mul(b[i], c);
        let v = field_add(a[offset + i], t);
        a.set(offset + i, v);
        i = i + 1;
    }
}

/// Computes a[i] + b[i] * c for all i and saves the results into a.
pub fn mul_acc(a: &mut Vec<u128>, b: &[u128], c: u128)
    requires
        old(a)@.len() == b@.len(),
        all_elements(old(a)@),
        all_elements(b@),
        is_element(c),
    ensures
        final(a)@.len() == old(a)@.len(),
        all_elements(final(a)@),
        forall|i: int| 0 <= i < b@.len() ==> #[trigger] final(a)@[i] == f_add(
            old(a)@[i] as int,
            f_mul(b@[i] as int, c as int),
        ),
{
    mul_acc_at(a, 0, b, c);
    assert forall|i: int| 0 <= i < b@.len() implies #[trigger] a@[i] == f_add(
        old(a)@[i] as int,
        f_mul(b@[i] as int, c as int),
    ) by {
        assert(a@[0 + i] == a@[i]);
    }
}

/// Computes (P(x) - value) * k and adds the result into the accumulator.
pub fn acc_poly(accumulator: &mut Vec<u128>, poly: &[u128], value: u128, k: u128)
    requires
        old(accumulator)@.len() == poly@.len(),
        poly@.len() > 0,
        all_elements(old(accumulator)@),
        all_elements(poly@),
        is_element(value),
        is_element(k),
    ensures
        final(accumulator)@.len() == old(accumulator)@.len(),
        all_elements(final(accumulator)@),
        final(accumulator)@[0] == f_sub(
            f_add(old(accumulator)@[0] as int, f_mul(poly@[0] as int, k as int)),
            f_mul(value as int, k as int),
        ),
        forall|i: int| 1 <= i < poly@.len() ==> #[trigger] final(accumulator)@[i] == f_add(
            old(accumulator)@[i] as int,
            f_mul(poly@[i] as int, k as int),
        ),
{
    mul_acc(accumulator, poly, k);
    let adjusted_tz = field_mul(value, k);
    let v = field_sub(accumulator[0], adjusted_tz);
    accumulator.set(0, v);
}

// POLYNOMIAL TABLES
// ================================================================================================

/// A table of polynomials (coefficients, lowest degree first) of the same power-of-two size.
pub struct PolyTable(Vec<Vec<u128>>);

/// The polynomials of the trace registers.
pub type TracePolyTable = PolyTable;

/// The coefficients of the given polynomials.
pub open spec fn polys_view(polys: Seq<Vec<u128>>) -> Seq<Seq<u128>> {
    polys.map_values(|p: Vec<u128>| p@)
}

/// At least one polynomial, all of the same power-of-two size, with canonical coefficients.
pub open spec fn valid_polys(polys: Seq<Seq<u128>>) -> bool {
    &&& polys.len() > 0
    &&& is_pow2(polys[0].len() as int)
    &&& forall|i: int|
        0 <= i < polys.len() ==> (#[trigger] polys[i]).len() == polys[0].len() && all_elements(
            polys[i],
        )
}

impl PolyTable {
    /// The polynomials of the table.
    pub closed spec fn polys(&self) -> Seq<Seq<u128>> {
        polys_view(self.0@)
    }

    /// Creates a table from polynomials of the same power-of-two size.
    pub fn new(polys: Vec<Vec<u128>>) -> (r: Self)
        requires
            valid_polys(polys_view(polys@)),
        ensures
            r.polys() == polys_view(polys@),
            valid_polys(r.polys()),
    {
        PolyTable(polys)
    }

    /// Number of coefficients of each polynomial.
    pub fn poly_size(&self) -> (r: usize)
        requires
            valid_polys(self.polys()),
        ensures
            r == self.polys()[0].len(),
    {
        self.0[0].len()
    }

    /// Number of polynomials.
    pub fn num_polys(&self) -> (r: usize)
        ensures
            r == self.polys().len(),
    {
        self.0.len()
    }

    /// The polynomial at `idx`.
    pub fn get_poly(&self, idx: usize) -> (r: &[u128])
        requires
            idx < self.polys().len(),
        ensures
            r@ == self.polys()[idx as int],
    {
        self.0[idx].as_slice()
    }

    /// Evaluates every polynomial of the table at `x`.
    pub fn evaluate_at(&self, x: u128) -> (r: Vec<u128>)
        requires
            valid_polys(self.polys()),
            is_element(x),
        ensures
            r@.len() == self.polys().len(),
            all_elements(r@),
            forall|i: int| 0 <= i < r@.len() ==> #[trigger] r@[i] == poly_eval(self.polys()[i], x as int),
    {
        let mut result: Vec<u128> = Vec::new();
        let mut i: usize = 0;
        while i < self.0.len()
            invariant
                valid_polys(self.polys()),
                is_element(x),
                i <= self.0@.len(),
                result@.len() == i,
                all_elements(result@),
                forall|k: int| 0 <= k < i ==> #[trigger] result@[k] == poly_eval(self.polys()[k], x as int),
            decreases self.0@.len() - i,
        {
            proof {
                assert(all_elements(self.polys()[i as int]));
            }
            let v = eval(self.0[i].as_slice(), x);
            result.push(v);
            i = i + 1;
        }
        result
    }

    /// Consumes the table and returns its polynomials.
    pub fn into_vec(self) -> (r: Vec<Vec<u128>>)
        ensures
            polys_view(r@) == self.polys(),
    {
        self.0
    }
}

} // verus!
