//! The verifier side: rebuilding the computation context from a proof, checking the prover's
//! proof-of-work on the query seed, and composing queried trace states and constraint
//! evaluations into evaluations of the DEEP composition polynomial.

use crate::channel::{ProverChannel, build_query_seed as hash_fri_roots, concat_roots, pow_buffer, pow_input, pow_ok, seed_head};
use crate::field::{field_add, field_div, field_exp, field_mul, field_sub, f_add, f_div, f_exp, f_inv, f_mul, f_sub, is_element, m, poly_eval, MODULUS};
use crate::hash::{HashFunction, digest};
use crate::fri::{fri_verdict, layers_divisible, layers_view, quarter_n, rows_ok, verify, FriError};
use crate::options::ProofOptions;
use crate::interpolation::{invertible_differences, lemma_interpolant_is_the_polynomial};
use crate::poly::all_elements;
use crate::sums::{field_sum, lemma_f_add_grouping};
use vstd::arithmetic::power2::{lemma2_to64, pow2};
use vstd::prelude::*;

verus! {

// ERRORS AND CONTEXT
// ================================================================================================

/// Reasons for which a proof is rejected.
#[derive(Debug, Clone, Copy, PartialEq, Eq, Structural)]
pub enum VerifierError {
    /// The computation context could not be rebuilt from the proof.
    ComputationContextDeserializationFailed,
    /// The proof-of-work nonce does not meet the grinding factor.
    QuerySeedProofOfWorkVerificationFailed,
}

/// Field in which the verifier works.
#[derive(Debug, Clone, Copy, PartialEq, Eq, Structural)]
pub enum FieldExtension {
    Base,
    Quadratic,
}

/// The computation parameters written into a proof.
#[derive(Clone, Copy)]
pub struct ProofContext {
    pub lde_domain_depth: u8,
    pub trace_width: u8,
    pub ce_blowup_factor: u8,
    pub field_extension_factor: u8,
    pub options: ProofOptions,
}

/// Parameters of the computation that a proof attests.
#[derive(Clone, Copy)]
pub struct ComputationContext {
    trace_width: usize,
    trace_length: usize,
    ce_blowup_factor: usize,
    field_extension: FieldExtension,
    options: ProofOptions,
}

impl ComputationContext {
    pub closed spec fn spec_trace_width(&self) -> usize {
        self.trace_width
    }

    pub closed spec fn spec_trace_length(&self) -> usize {
        self.trace_length
    }

    pub closed spec fn spec_ce_blowup_factor(&self) -> usize {
        self.ce_blowup_factor
    }

    pub closed spec fn spec_field_extension(&self) -> FieldExtension {
        self.field_extension
    }

    pub closed spec fn spec_options(&self) -> ProofOptions {
        self.options
    }

    /// Creates a context from its parameters.
    pub fn new(
        trace_width: usize,
        trace_length: usize,
        ce_blowup_factor: usize,
        field_extension: FieldExtension,
        options: ProofOptions,
    ) -> (r: Self)
        ensures
            r.spec_trace_width() == trace_width,
            r.spec_trace_length() == trace_length,
            r.spec_ce_blowup_factor() == ce_blowup_factor,
            r.spec_field_extension() == field_extension,
            r.spec_options() == options,
    {
        ComputationContext { trace_width, trace_length, ce_blowup_factor, field_extension, options }
    }

    /// Number of registers in the execution trace.
    pub fn trace_width(&self) -> (r: usize)
        ensures
            r == self.spec_trace_width(),
    {
        self.trace_width
    }

    /// Number of steps in the execution trace.
    pub fn trace_length(&self) -> (r: usize)
        ensures
            r == self.spec_trace_length(),
    {
        self.trace_length
    }

    /// Blowup factor of the constraint evaluation domain.
    pub fn ce_blowup_factor(&self) -> (r: usize)
        ensures
            r == self.spec_ce_blowup_factor(),
    {
        self.ce_blowup_factor
    }

    /// Field in which verification is performed.
    pub fn field_extension(&self) -> (r: FieldExtension)
        ensures
            r == self.spec_field_extension(),
    {
        self.field_extension
    }

    /// Proof options of the computation.
    pub fn options(&self) -> (r: &ProofOptions)
        ensures
            *r == self.spec_options(),
    {
        &self.options
    }
}

/// Rebuilds the computation context from the parameters written into a proof: the trace
/// length is the size of the LDE domain divided by the blowup factor, and the field
/// extension factor must be 1 (base field) or 2 (quadratic extension).
pub fn build_context(context: &ProofContext) -> (r: Result<ComputationContext, VerifierError>)
    requires
        context.lde_domain_depth < 64,
        pow2(context.lde_domain_depth as nat) <= usize::MAX,
        context.options.wf(),
    ensures
        match r {
            Ok(c) => {
                &&& context.field_extension_factor == 1 || context.field_extension_factor == 2
                &&& c.spec_trace_width() == context.trace_width
                &&& c.spec_trace_length() == pow2(context.lde_domain_depth as nat)
                    / context.options.spec_blowup_factor()
                &&& c.spec_ce_blowup_factor() == context.ce_blowup_factor
                &&& c.spec_field_extension() == if context.field_extension_factor == 1 {
                    FieldExtension::Base
                } else {
                    FieldExtension::Quadratic
                }
                &&& c.spec_options() == context.options
            },
            Err(e) => {
                &&& e == VerifierError::ComputationContextDeserializationFailed
                &&& context.field_extension_factor != 1 && context.field_extension_factor != 2
            },
        },
{
    let options = context.options;
    let mut domain_size: usize = 1;
    let mut k: u8 = 0;
    proof {
        lemma2_to64();
    }
    while k < context.lde_domain_depth
        invariant
            k <= context.lde_domain_depth,
            context.lde_domain_depth < 64,
            domain_size == pow2(k as nat),
            pow2(context.lde_domain_depth as nat) <= usize::MAX,
        decreases context.lde_domain_depth - k,
    {
        proof {
            vstd::arithmetic::power2::lemma_pow2_unfold((k + 1) as nat);
            if k + 1 < context.lde_domain_depth {
                vstd::arithmetic::power2::lemma_pow2_strictly_increases(
                    (k + 1) as nat,
                    context.lde_domain_depth as nat,
                );
            }
        }
        domain_size = domain_size * 2;
        k = k + 1;
    }
    let blowup = options.blowup_factor();
    let trace_length = domain_size / blowup;
    let field_extension = match context.field_extension_factor {
        1 => FieldExtension::Base,
        2 => FieldExtension::Quadratic,
        _ => { return Err(VerifierError::ComputationContextDeserializationFailed) },
    };
    Ok(
        ComputationContext::new(
            context.trace_width as usize,
            trace_length,
            context.ce_blowup_factor as usize,
            field_extension,
            options,
        ),
    )
}

// QUERY SEED
// ================================================================================================

/// The query seed that the verifier accepts for FRI layer roots `fri_roots`, proof-of-work
/// `nonce` and `options`: the hash of the proof-of-work input built on the hash of the
/// roots, provided that the nonce is a valid proof of work; none otherwise.
pub open spec fn accepted_query_seed(fri_roots: Seq<[u8; 32]>, nonce: u64, options: ProofOptions) -> Option<
    Seq<u8>,
> {
    let hf = options.spec_hash_fn();
    let seed = digest(hf, concat_roots(fri_roots));
    if pow_ok(hf, seed, nonce, options.spec_grinding_factor() as u32) {
        Some(digest(hf, pow_input(seed, nonce)))
    } else {
        None
    }
}

/// Rebuilds the query seed from the FRI layer roots and checks the prover's proof of work.
pub fn build_query_seed(fri_roots: &[[u8; 32]], nonce: u64, options: &ProofOptions) -> (r: Result<
    [u8; 32],
    VerifierError,
>)
    requires
        options.wf(),
    ensures
        match r {
            Ok(seed) => accepted_query_seed(fri_roots@, nonce, *options) == Some(seed@),
            Err(e) => {
                &&& e == VerifierError::QuerySeedProofOfWorkVerificationFailed
                &&& accepted_query_seed(fri_roots@, nonce, *options) is None
            },
        },
{
    let hash = options.hash_fn();
    let seed = hash_fri_roots(fri_roots, hash);
    let input = pow_buffer(&seed, nonce);
    let query_seed = hash.hash(input.as_slice());
    let head = seed_head(&query_seed);
    if head.trailing_zeros() < options.grinding_factor() {
        return Err(VerifierError::QuerySeedProofOfWorkVerificationFailed);
    }
    Ok(query_seed)
}

/// A channel whose query seed was ground is accepted by the verifier: with the channel's
/// FRI roots, nonce and options, the verifier rebuilds exactly the prover's query seed.
pub proof fn lemma_ground_seed_is_accepted(channel: ProverChannel)
    requires
        channel.ground(),
    ensures
        accepted_query_seed(
            channel.spec_fri_roots(),
            channel.spec_pow_nonce(),
            channel.spec_options(),
        ) == Some(channel.spec_query_seed().unwrap()@),
{
}

// DEEP COMPOSITION
// ================================================================================================

/// Pseudo-random coefficients of the DEEP composition.
pub struct CompositionCoefficients {
    pub trace: Vec<(u128, u128)>,
    pub trace_degree: (u128, u128),
    pub constraints: u128,
}

/// The coefficients are canonical field elements.
pub open spec fn coefficients_ok(cc: &CompositionCoefficients) -> bool {
    &&& forall|i: int| 0 <= i < cc.trace@.len() ==> is_element((#[trigger] cc.trace@[i]).0)
        && is_element(cc.trace@[i].1)
    &&& is_element(cc.trace_degree.0)
    &&& is_element(cc.trace_degree.1)
    &&& is_element(cc.constraints)
}

/// Sum over the first `n` registers of (T(x) - T(z)) / (x - z) * a_i + (T(x) - T(z * g)) /
/// (x - z * g) * b_i, accumulated register by register.
pub open spec fn deep_trace_sum(
    registers: Seq<u128>,
    at_z: Seq<u128>,
    at_next_z: Seq<u128>,
    cc: Seq<(u128, u128)>,
    x: int,
    z: int,
    next_z: int,
    n: nat,
) -> int
    decreases n,
{
    if n == 0 {
        0
    } else {
        let i = n - 1;
        let acc = deep_trace_sum(registers, at_z, at_next_z, cc, x, z, next_z, (n - 1) as nat);
        let t1 = f_div(f_sub(registers[i] as int, at_z[i] as int), f_sub(x, z));
        let acc1 = f_add(acc, f_mul(t1, cc[i].0 as int));
        let t2 = f_div(f_sub(registers[i] as int, at_next_z[i] as int), f_sub(x, next_z));
        f_add(acc1, f_mul(t2, cc[i].1 as int))
    }
}

/// The DEEP composition of one queried trace state at `x`, with its degree raised by
/// `incremental_degree`.
pub open spec fn composed_state(
    registers: Seq<u128>,
    at_z: Seq<u128>,
    at_next_z: Seq<u128>,
    cc: &CompositionCoefficients,
    x: int,
    z: int,
    next_z: int,
    incremental_degree: nat,
) -> int {
    let c = deep_trace_sum(registers, at_z, at_next_z, cc.trace@, x, z, next_z, registers.len());
    let xp = f_exp(x, incremental_degree);
    f_add(f_mul(c, cc.trace_degree.0 as int), f_mul(f_mul(c, xp), cc.trace_degree.1 as int))
}

/// Combines the queried trace states with the out-of-domain frame into evaluations of the
/// DEEP composition polynomial at the queried points `x_coordinates`.
pub fn compose_registers(
    trace_length: usize,
    composition_degree: usize,
    trace_generator: u128,
    trace_states: &[Vec<u128>],
    x_coordinates: &[u128],
    at_z: &[u128],
    at_next_z: &[u128],
    z: u128,
    cc: &CompositionCoefficients,
) -> (r: Vec<u128>)
    requires
        2 <= trace_length,
        trace_length - 2 <= composition_degree,
        is_element(trace_generator),
        is_element(z),
        all_elements(x_coordinates@),
        all_elements(at_z@),
        all_elements(at_next_z@),
        coefficients_ok(cc),
        forall|k: int|
            0 <= k < trace_states@.len() ==> {
                &&& all_elements((#[trigger] trace_states@[k])@)
                &&& trace_states@[k]@.len() <= at_z@.len()
                &&& trace_states@[k]@.len() <= at_next_z@.len()
                &&& trace_states@[k]@.len() <= cc.trace@.len()
            },
    ensures
        r@.len() == if trace_states@.len() < x_coordinates@.len() {
            trace_states@.len()
        } else {
            x_coordinates@.len()
        },
        all_elements(r@),
        forall|k: int|
            0 <= k < r@.len() ==> #[trigger] r@[k] == composed_state(
                trace_states@[k]@,
                at_z@,
                at_next_z@,
                cc,
                x_coordinates@[k] as int,
                z as int,
                f_mul(z as int, trace_generator as int),
                ((composition_degree - (trace_length - 2)) as u32) as nat,
            ),
{
    let next_z = field_mul(z, trace_generator);
    let incremental_degree = (composition_degree - (trace_length - 2)) as u32;
    let n = if trace_states.len() < x_coordinates.len() {
        trace_states.len()
    } else {
        x_coordinates.len()
    };
    let mut result: Vec<u128> = Vec::new();
    let mut k: usize = 0;
    while k < n
        invariant
            k <= n,
            n <= trace_states@.len(),
            n <= x_coordinates@.len(),
            next_z == f_mul(z as int, trace_generator as int),
            is_element(next_z),
            is_element(z),
            incremental_degree == (composition_degree - (trace_length - 2)) as u32,
            all_elements(x_coordinates@),
            all_elements(at_z@),
            all_elements(at_next_z@),
            coefficients_ok(cc),
            forall|q: int|
                0 <= q < trace_states@.len() ==> {
                    &&& all_elements((#[trigger] trace_states@[q])@)
                    &&& trace_states@[q]@.len() <= at_z@.len()
                    &&& trace_states@[q]@.len() <= at_next_z@.len()
                    &&& trace_states@[q]@.len() <= cc.trace@.len()
                },
            result@.len() == k,
            all_elements(result@),
            forall|q: int|
                0 <= q < k ==> #[trigger] result@[q] == composed_state(
                    trace_states@[q]@,
                    at_z@,
                    at_next_z@,
                    cc,
                    x_coordinates@[q] as int,
                    z as int,
                    next_z as int,
                    incremental_degree as nat,
                ),
        decreases n - k,
    {
        let registers = &trace_states[k];
        let x = x_coordinates[k];
        assert(all_elements(registers@));
        let mut composition: u128 = 0;
        let mut i: usize = 0;
        let x_minus_z = field_sub(x, z);
        let x_minus_next_z = field_sub(x, next_z);
        while i < registers.len()
            invariant
                i <= registers@.len(),
                registers@.len() <= at_z@.len(),
                registers@.len() <= at_next_z@.len(),
                registers@.len() <= cc.trace@.len(),
                all_elements(registers@),
                all_elements(at_z@),
                all_elements(at_next_z@),
                coefficients_ok(cc),
                x_minus_z == f_sub(x as int, z as int),
                x_minus_next_z == f_sub(x as int, next_z as int),
                is_element(x_minus_z),
                is_element(x_minus_next_z),
                is_element(composition),
                composition == deep_trace_sum(
                    registers@,
                    at_z@,
                    at_next_z@,
                    cc.trace@,
                    x as int,
                    z as int,
                    next_z as int,
                    i as nat,
                ),
            decreases registers.len() - i,
        {
            let value = registers[i];
            let (a, b) = cc.trace[i];
            assert(is_element(cc.trace@[i as int].0) && is_element(cc.trace@[i as int].1));
            let t1 = field_div(field_sub(value, at_z[i]), x_minus_z);
            composition = field_add(composition, field_mul(t1, a));
            let t2 = field_div(field_sub(value, at_next_z[i]), x_minus_next_z);
            composition = field_add(composition, field_mul(t2, b));
            i = i + 1;
        }
        let xp = field_exp(x, incremental_degree as u128);
        let adjusted = field_mul(field_mul(composition, xp), cc.trace_degree.1);
        let value = field_add(field_mul(composition, cc.trace_degree.0), adjusted);
        result.push(value);
        k = k + 1;
    }
    result
}

proof fn lemma_deep_trace_sum(
    registers: Seq<u128>,
    at_z: Seq<u128>,
    at_next_z: Seq<u128>,
    cc: Seq<(u128, u128)>,
    x: int,
    z: int,
    next_z: int,
    n: nat,
)
    ensures
        deep_trace_sum(registers, at_z, at_next_z, cc, x, z, next_z, n) == field_sum(
            Seq::new(
                n,
                |i: int|
                    f_add(
                        f_mul(f_div(f_sub(registers[i] as int, at_z[i] as int), f_sub(x, z)), cc[i].0 as int),
                        f_mul(
                            f_div(f_sub(registers[i] as int, at_next_z[i] as int), f_sub(x, next_z)),
                            cc[i].1 as int,
                        ),
                    ),
            ),
        ),
    decreases n,
{
    let terms = Seq::new(
        n,
        |i: int|
            f_add(
                f_mul(f_div(f_sub(registers[i] as int, at_z[i] as int), f_sub(x, z)), cc[i].0 as int),
                f_mul(f_div(f_sub(registers[i] as int, at_next_z[i] as int), f_sub(x, next_z)), cc[i].1 as int),
            ),
    );
    if n > 0 {
        lemma_deep_trace_sum(registers, at_z, at_next_z, cc, x, z, next_z, (n - 1) as nat);
        let i = n - 1;
        assert(terms.drop_last() =~= Seq::new(
            (n - 1) as nat,
            |i: int|
                f_add(
                    f_mul(f_div(f_sub(registers[i] as int, at_z[i] as int), f_sub(x, z)), cc[i].0 as int),
                    f_mul(
                        f_div(f_sub(registers[i] as int, at_next_z[i] as int), f_sub(x, next_z)),
                        cc[i].1 as int,
                    ),
                ),
        ));
        let acc = deep_trace_sum(registers, at_z, at_next_z, cc, x, z, next_z, (n - 1) as nat);
        let u = f_mul(f_div(f_sub(registers[i] as int, at_z[i] as int), f_sub(x, z)), cc[i].0 as int);
        let v = f_mul(f_div(f_sub(registers[i] as int, at_next_z[i] as int), f_sub(x, next_z)), cc[i].1 as int);
        lemma_f_add_grouping(acc, u, v, 0);
    }
}

/// DEEP composition weighs each register by its own pair of coefficients: the composed value of a
/// queried state is `S * k1 + S * x^p * k2`, where `S` is the field sum over the registers `i`
/// of `(T_i(x) - T_i(z)) / (x - z) * a_i + (T_i(x) - T_i(next_z)) / (x - next_z) * b_i`, with
/// `(a_i, b_i)` the trace coefficients of register `i`.
pub proof fn lemma_composed_state_weighs_each_register(
    registers: Seq<u128>,
    at_z: Seq<u128>,
    at_next_z: Seq<u128>,
    cc: &CompositionCoefficients,
    x: int,
    z: int,
    next_z: int,
    incremental_degree: nat,
)
    ensures
        ({
            let sum = field_sum(
                Seq::new(
                    registers.len(),
                    |i: int|
                        f_add(
                            f_mul(
                                f_div(f_sub(registers[i] as int, at_z[i] as int), f_sub(x, z)),
                                cc.trace@[i].0 as int,
                            ),
                            f_mul(
                                f_div(f_sub(registers[i] as int, at_next_z[i] as int), f_sub(x, next_z)),
                                cc.trace@[i].1 as int,
                            ),
                        ),
                ),
            );
            composed_state(registers, at_z, at_next_z, cc, x, z, next_z, incremental_degree) == f_add(
                f_mul(sum, cc.trace_degree.0 as int),
                f_mul(f_mul(sum, f_exp(x, incremental_degree)), cc.trace_degree.1 as int),
            )
        }),
{
    lemma_deep_trace_sum(registers, at_z, at_next_z, cc.trace@, x, z, next_z, registers.len());
}

/// C(x) = (P(x) - P(z)) / (x - z), multiplied by the constraint coefficient.
pub open spec fn composed_constraint(evaluation: int, x: int, z: int, at_z: int, coefficient: int) -> int {
    f_mul(f_div(f_sub(evaluation, at_z), f_sub(x, z)), coefficient)
}

/// Divides the DEEP point out of the queried constraint evaluations and scales them by the
/// constraint coefficient.
pub fn compose_constraints(
    evaluations: &[u128],
    x_coordinates: &[u128],
    z: u128,
    evaluation_at_z: u128,
    cc: &CompositionCoefficients,
) -> (r: Vec<u128>)
    requires
        all_elements(evaluations@),
        all_elements(x_coordinates@),
        is_element(z),
        is_element(evaluation_at_z),
        is_element(cc.constraints),
    ensures
        r@.len() == if evaluations@.len() < x_coordinates@.len() {
            evaluations@.len()
        } else {
            x_coordinates@.len()
        },
        all_elements(r@),
        forall|k: int|
            0 <= k < r@.len() ==> #[trigger] r@[k] == composed_constraint(
                evaluations@[k] as int,
                x_coordinates@[k] as int,
                z as int,
                evaluation_at_z as int,
                cc.constraints as int,
            ),
{
    let n = if evaluations.len() < x_coordinates.len() {
        evaluations.len()
    } else {
        x_coordinates.len()
    };
    let mut result: Vec<u128> = Vec::new();
    let mut k: usize = 0;
    while k < n
        invariant
            k <= n,
            n <= evaluations@.len(),
            n <= x_coordinates@.len(),
            all_elements(evaluations@),
            all_elements(x_coordinates@),
            is_element(z),
            is_element(evaluation_at_z),
            is_element(cc.constraints),
            result@.len() == k,
            all_elements(result@),
            forall|q: int|
                0 <= q < k ==> #[trigger] result@[q] == composed_constraint(
                    evaluations@[q] as int,
                    x_coordinates@[q] as int,
                    z as int,
                    evaluation_at_z as int,
                    cc.constraints as int,
                ),
        decreases n - k,
    {
        let numerator = field_sub(evaluations[k], evaluation_at_z);
        let denominator = field_sub(x_coordinates[k], z);
        let composition = field_div(numerator, denominator);
        result.push(field_mul(composition, cc.constraints));
        k = k + 1;
    }
    result
}

// VERIFYING THE QUERIES
// ================================================================================================

/// The points of the low-degree extension domain at the queried positions:
/// `root^position * offset`.
pub open spec fn query_points(positions: Seq<usize>, root: u128, offset: u128) -> Seq<u128> {
    Seq::new(
        positions.len(),
        |k: int| f_mul(f_exp(root as int, positions[k] as nat), offset as int) as u128,
    )
}

/// Evaluations of the DEEP composition polynomial at the queried points: the composed trace
/// state plus the composed constraint evaluation, one per query (as many as there are queried
/// positions, trace states and constraint evaluations alike).
pub open spec fn deep_evaluations(
    trace_length: usize,
    composition_degree: usize,
    trace_generator: u128,
    positions: Seq<usize>,
    root: u128,
    offset: u128,
    trace_states: Seq<Vec<u128>>,
    constraint_evaluations: Seq<u128>,
    at_z: Seq<u128>,
    at_next_z: Seq<u128>,
    z: u128,
    constraint_at_z: u128,
    cc: &CompositionCoefficients,
) -> Seq<u128> {
    let xs = query_points(positions, root, offset);
    let n1 = if trace_states.len() < positions.len() { trace_states.len() } else { positions.len() };
    let n = if constraint_evaluations.len() < n1 { constraint_evaluations.len() } else { n1 };
    Seq::new(
        n,
        |k: int|
            f_add(
                composed_state(
                    trace_states[k]@,
                    at_z,
                    at_next_z,
                    cc,
                    xs[k] as int,
                    z as int,
                    f_mul(z as int, trace_generator as int),
                    ((composition_degree - (trace_length - 2)) as u32) as nat,
                ),
                composed_constraint(
                    constraint_evaluations[k] as int,
                    xs[k] as int,
                    z as int,
                    constraint_at_z as int,
                    cc.constraints as int,
                ),
            ) as u128,
    )
}

/// Verifies the queries of a proof: computes the points of the low-degree extension domain at
/// the queried positions, composes the queried trace states (against the out-of-domain frame
/// `at_z`, `at_next_z`) and the queried constraint evaluations (against their value at `z`)
/// into evaluations of the DEEP composition polynomial, and verifies with FRI that these are
/// evaluations of a polynomial of degree at most `max_degree`.
pub fn verify_queries(
    positions: &[usize],
    lde_domain_size: usize,
    lde_root: u128,
    domain_offset: u128,
    trace_length: usize,
    composition_degree: usize,
    trace_generator: u128,
    trace_states: &[Vec<u128>],
    constraint_evaluations: &[u128],
    at_z: &[u128],
    at_next_z: &[u128],
    z: u128,
    constraint_at_z: u128,
    cc: &CompositionCoefficients,
    layer_values: &[Vec<[u128; 4]>],
    alphas: &[u128],
    remainder: &[u128],
    max_degree: usize,
    blowup_factor: usize,
) -> (r: Result<bool, FriError>)
    requires
        2 <= trace_length,
        trace_length - 2 <= composition_degree,
        is_element(trace_generator),
        is_element(lde_root),
        is_element(domain_offset),
        is_element(z),
        is_element(constraint_at_z),
        all_elements(constraint_evaluations@),
        all_elements(at_z@),
        all_elements(at_next_z@),
        coefficients_ok(cc),
        forall|k: int|
            0 <= k < trace_states@.len() ==> {
                &&& all_elements((#[trigger] trace_states@[k])@)
                &&& trace_states@[k]@.len() <= at_z@.len()
                &&& trace_states@[k]@.len() <= at_next_z@.len()
                &&& trace_states@[k]@.len() <= cc.trace@.len()
            },
        layer_values@.len() == alphas@.len(),
        layers_divisible(lde_domain_size as nat, layer_values@.len()),
        lde_domain_size * 3 <= usize::MAX,
        max_degree < usize::MAX,
        blowup_factor > 0,
        forall|k: int| 0 <= k < positions@.len() ==> #[trigger] positions@[k] < lde_domain_size,
        remainder@.len() >= quarter_n(lde_domain_size as nat, layer_values@.len()),
        all_elements(alphas@),
        all_elements(remainder@),
        rows_ok(layers_view(layer_values@)),
    ensures
        r == fri_verdict(
            lde_domain_size,
            lde_root,
            max_degree,
            blowup_factor,
            positions@,
            deep_evaluations(
                trace_length,
                composition_degree,
                trace_generator,
                positions@,
                lde_root,
                domain_offset,
                trace_states@,
                constraint_evaluations@,
                at_z@,
                at_next_z@,
                z,
                constraint_at_z,
                cc,
            ),
            layers_view(layer_values@),
            alphas@,
            remainder@,
        ),
{
    // points of the low-degree extension domain at the queried positions
    let mut xs: Vec<u128> = Vec::new();
    let mut k: usize = 0;
    while k < positions.len()
        invariant
            k <= positions@.len(),
            is_element(lde_root),
            is_element(domain_offset),
            xs@ == query_points(positions@, lde_root, domain_offset).take(k as int),
        decreases positions.len() - k,
    {
        let p = field_exp(lde_root, positions[k] as u128);
        xs.push(field_mul(p, domain_offset));
        k = k + 1;
        proof {
            assert(xs@ =~= query_points(positions@, lde_root, domain_offset).take(k as int));
        }
    }
    assert(xs@ =~= query_points(positions@, lde_root, domain_offset));
    assert(all_elements(xs@));
    let t = compose_registers(
        trace_length,
        composition_degree,
        trace_generator,
        trace_states,
        xs.as_slice(),
        at_z,
        at_next_z,
        z,
        cc,
    );
    let c = compose_constraints(constraint_evaluations, xs.as_slice(), z, constraint_at_z, cc);
    let n = if t.len() < c.len() { t.len() } else { c.len() };
    let mut evaluations: Vec<u128> = Vec::new();
    let ghost expected = deep_evaluations(
        trace_length,
        composition_degree,
        trace_generator,
        positions@,
        lde_root,
        domain_offset,
        trace_states@,
        constraint_evaluations@,
        at_z@,
        at_next_z@,
        z,
        constraint_at_z,
        cc,
    );
    assert(n == expected.len());
    let mut k: usize = 0;
    while k < n
        invariant
            k <= n,
            n == expected.len(),
            n <= t@.len(),
            n <= c@.len(),
            all_elements(t@),
            all_elements(c@),
            forall|q: int| 0 <= q < n ==> #[trigger] expected[q] == f_add(t@[q] as int, c@[q] as int) as u128,
            evaluations@ == expected.take(k as int),
        decreases n - k,
    {
        evaluations.push(field_add(t[k], c[k]));
        k = k + 1;
        proof {
            assert(evaluations@ =~= expected.take(k as int));
        }
    }
    assert(evaluations@ =~= expected);
    verify(
        lde_domain_size,
        lde_root,
        max_degree,
        blowup_factor,
        positions,
        evaluations.as_slice(),
        layer_values,
        alphas,
        remainder,
    )
}

// QUERIED VALUES
// ================================================================================================

/// Index of the first occurrence of `v` in `s`; the length of `s` when `v` does not occur.
pub open spec fn first_index(s: Seq<usize>, v: usize) -> int
    decreases s.len(),
{
    if s.len() == 0 {
        0
    } else if s[0] == v {
        0
    } else {
        1 + first_index(s.drop_first(), v)
    }
}

proof fn lemma_first_index(s: Seq<usize>, v: usize, i: int)
    requires
        0 <= i < s.len(),
        s[i] == v,
        forall|j: int| 0 <= j < i ==> s[j] != v,
    ensures
        first_index(s, v) == i,
    decreases i,
{
    if i > 0 {
        lemma_first_index(s.drop_first(), v, i - 1);
    }
}

/// Returns the index of the first occurrence of `v` in `s`, which must occur.
fn position_of(s: &[usize], v: usize) -> (r: usize)
    requires
        s@.contains(v),
    ensures
        r == first_index(s@, v),
        r < s@.len(),
        s@[r as int] == v,
{
    let mut i: usize = 0;
    while i < s.len()
        invariant
            i <= s@.len(),
            s@.contains(v),
            forall|j: int| 0 <= j < i ==> s@[j] != v,
        decreases s.len() - i,
    {
        if s[i] == v {
            proof {
                lemma_first_index(s@, v, i as int);
            }
            return i;
        }
        i = i + 1;
    }
    proof {
        let k = choose|k: int| 0 <= k < s@.len() && s@[k] == v;
        assert(s@[k] != v);
    }
    0
}

/// The value of each queried position read from the rows of a FRI layer: position p lies in
/// the row that holds `p % (column_length / 4)` and in column `p / (column_length / 4)` of it.
pub fn get_column_values(
    values: &[[u128; 4]],
    positions: &[usize],
    augmented_positions: &[usize],
    column_length: usize,
) -> (r: Vec<u128>)
    requires
        column_length / 4 > 0,
        forall|k: int|
            0 <= k < positions@.len() ==> {
                let p = #[trigger] positions@[k];
                let row_length = column_length / 4;
                &&& augmented_positions@.contains((p % row_length) as usize)
                &&& first_index(augmented_positions@, (p % row_length) as usize) < values@.len()
                &&& p / row_length < 4
            },
    ensures
        r@.len() == positions@.len(),
        forall|k: int|
            0 <= k < positions@.len() ==> {
                let p = #[trigger] positions@[k];
                let row_length = column_length / 4;
                r@[k] == values@[first_index(augmented_positions@, (p % row_length) as usize)][(p
                    / row_length) as int]
            },
{
    let row_length = column_length / 4;
    let mut result: Vec<u128> = Vec::new();
    let mut k: usize = 0;
    while k < positions.len()
        invariant
            row_length == column_length / 4,
            row_length > 0,
            k <= positions@.len(),
            result@.len() == k,
            forall|q: int|
                0 <= q < positions@.len() ==> {
                    let p = #[trigger] positions@[q];
                    &&& augmented_positions@.contains((p % row_length) as usize)
                    &&& first_index(augmented_positions@, (p % row_length) as usize) < values@.len()
                    &&& p / row_length < 4
                },
            forall|q: int|
                0 <= q < k ==> {
                    let p = #[trigger] positions@[q];
                    result@[q] == values@[first_index(augmented_positions@, (p % row_length) as usize)][(p
                        / row_length) as int]
                },
        decreases positions.len() - k,
    {
        let p = positions[k];
        let idx = position_of(augmented_positions, p % row_length);
        let row = values[idx];
        result.push(row[p / row_length]);
        k = k + 1;
    }
    result
}

/// Value of a little-endian byte string.
pub open spec fn le_value(bytes: Seq<u8>) -> nat
    decreases bytes.len(),
{
    if bytes.len() == 0 {
        0
    } else {
        (bytes[0] + 256 * le_value(bytes.drop_first())) as nat
    }
}

/// 256 to the power `n`.
pub open spec fn byte_power(n: nat) -> nat
    decreases n,
{
    if n == 0 {
        1
    } else {
        256 * byte_power((n - 1) as nat)
    }
}

proof fn lemma_le_value_bound(bytes: Seq<u8>)
    ensures
        le_value(bytes) < byte_power(bytes.len()),
    decreases bytes.len(),
{
    if bytes.len() > 0 {
        lemma_le_value_bound(bytes.drop_first());
    }
}

/// Reads the 16 bytes of `leaf` starting at `start` as a little-endian `u128`.
pub fn read_u128_le(leaf: &[u8; 32], start: usize) -> (r: u128)
    requires
        start + 16 <= 32,
    ensures
        r == le_value(leaf@.subrange(start as int, start + 16)),
{
    let mut v: u128 = 0;
    let mut i: usize = 16;
    proof {
        reveal_with_fuel(byte_power, 17);
        assert(leaf@.subrange(start + 16, start + 16) =~= Seq::<u8>::empty());
    }
    while i > 0
        invariant
            i <= 16,
            start + 16 <= 32,
            leaf@.len() == 32,
            v == le_value(leaf@.subrange(start + i, start + 16)),
            byte_power(16) == 0x1_0000_0000_0000_0000_0000_0000_0000_0000,
        decreases i,
    {
        i = i - 1;
        let ghost rest = leaf@.subrange(start + i + 1, start + 16);
        proof {
            lemma_le_value_bound(rest);
            assert(byte_power(rest.len()) * 256 <= byte_power(16)) by {
                reveal_with_fuel(byte_power, 17);
            }
            assert(leaf@.subrange(start + i, start + 16).drop_first() =~= rest);
        }
        v = v * 256 + leaf[start + i] as u128;
    }
    v
}

/// The constraint evaluation of each queried trace position, read from the leaves of the
/// constraint commitment: position p lies in the leaf listed for p / 2 in `c_positions`, in its
/// first 16 bytes when p is even and its last 16 bytes when p is odd.
pub fn read_constraint_evaluations(
    positions: &[usize],
    c_positions: &[usize],
    leaves: &[[u8; 32]],
) -> (r: Vec<u128>)
    requires
        forall|k: int|
            0 <= k < positions@.len() ==> {
                let p = #[trigger] positions@[k];
                &&& c_positions@.contains((p / 2) as usize)
                &&& first_index(c_positions@, (p / 2) as usize) < leaves@.len()
            },
    ensures
        r@.len() == positions@.len(),
        forall|k: int|
            0 <= k < positions@.len() ==> {
                let p = #[trigger] positions@[k];
                let start = (p % 2) * 16;
                r@[k] == le_value(
                    leaves@[first_index(c_positions@, (p / 2) as usize)]@.subrange(start, start + 16),
                )
            },
{
    let mut result: Vec<u128> = Vec::new();
    let mut k: usize = 0;
    while k < positions.len()
        invariant
            k <= positions@.len(),
            result@.len() == k,
            forall|q: int|
                0 <= q < positions@.len() ==> {
                    let p = #[trigger] positions@[q];
                    &&& c_positions@.contains((p / 2) as usize)
                    &&& first_index(c_positions@, (p / 2) as usize) < leaves@.len()
                },
            forall|q: int|
                0 <= q < k ==> {
                    let p = #[trigger] positions@[q];
                    let start = (p % 2) * 16;
                    result@[q] == le_value(
                        leaves@[first_index(c_positions@, (p / 2) as usize)]@.subrange(
                            start,
                            start + 16,
                        ),
                    )
                },
        decreases positions.len() - k,
    {
        let p = positions[k];
        let idx = position_of(c_positions, p / 2);
        let start = (p % 2) * 16;
        result.push(read_u128_le(&leaves[idx], start));
        k = k + 1;
    }
    result
}

// FRI REMAINDER
// ================================================================================================

/// Reasons for which the remainder of a FRI proof is rejected.
#[derive(Debug, Clone, Copy, PartialEq, Eq, Structural)]
pub enum RemainderError {
    /// More coefficients are expected than the remainder has values.
    DegreeGreaterThanValues,
    /// The remainder values do not lie on one polynomial with `max_degree_plus_1` coefficients.
    NotLowDegree(usize),
}

/// The positions below `len` that are not multiples of `blowup_factor`, in increasing order.
pub open spec fn checked_positions(len: nat, blowup_factor: nat) -> Seq<usize>
    decreases len,
{
    if len == 0 {
        Seq::empty()
    } else {
        let s = checked_positions((len - 1) as nat, blowup_factor);
        if (len - 1) % (blowup_factor as int) != 0 {
            s.push((len - 1) as usize)
        } else {
            s
        }
    }
}

/// Product over the first `m` points other than point `i` of (x - xs[j]) / (xs[i] - xs[j]).
pub open spec fn basis_upto(xs: Seq<u128>, i: int, x: int, m: nat) -> int
    decreases m,
{
    if m == 0 {
        1
    } else {
        let b = basis_upto(xs, i, x, (m - 1) as nat);
        let j = m - 1;
        if j == i {
            b
        } else {
            f_mul(b, f_div(f_sub(x, xs[j] as int), f_sub(xs[i] as int, xs[j] as int)))
        }
    }
}

/// The Lagrange basis polynomial of point `i` of `xs`, evaluated at `x`.
pub open spec fn lagrange_basis(xs: Seq<u128>, i: int, x: int) -> int {
    basis_upto(xs, i, x, xs.len())
}

/// Sum over the first `m` points of ys[i] times the basis polynomial of point i at `x`.
pub open spec fn interpolant_upto(xs: Seq<u128>, ys: Seq<u128>, x: int, m: nat) -> int
    decreases m,
{
    if m == 0 {
        0
    } else {
        f_add(
            interpolant_upto(xs, ys, x, (m - 1) as nat),
            f_mul(ys[m - 1] as int, lagrange_basis(xs, m - 1, x)),
        )
    }
}

/// The value at `x` of the polynomial of lowest degree through the points (xs[i], ys[i]).
pub open spec fn interpolant(xs: Seq<u128>, ys: Seq<u128>, x: int) -> int {
    interpolant_upto(xs, ys, x, xs.len())
}

/// At the points of `xs`, the basis of point `i` is one at its own point and zero at the others
/// among the first `n`, when the differences of the points have inverses.
proof fn lemma_basis_at_points(xs: Seq<u128>, i: int, k: int, n: nat)
    requires
        n <= xs.len(),
        0 <= i < xs.len(),
        0 <= k < xs.len(),
        forall|a: int, b: int|
            0 <= a < xs.len() && 0 <= b < xs.len() && a != b ==> f_mul(
                #[trigger] f_sub(xs[a] as int, xs[b] as int),
                f_inv(f_sub(xs[a] as int, xs[b] as int)),
            ) == 1,
    ensures
        i == k ==> basis_upto(xs, i, xs[k] as int, n) == 1,
        i != k && k < n ==> basis_upto(xs, i, xs[k] as int, n) == 0,
    decreases n,
{
    if n > 0 {
        lemma_basis_at_points(xs, i, k, (n - 1) as nat);
        let j = n - 1;
        if j != i {
            let b = basis_upto(xs, i, xs[k] as int, (n - 1) as nat);
            let d = f_sub(xs[i] as int, xs[j] as int);
            let f = f_div(f_sub(xs[k] as int, xs[j] as int), d);
            if i == k {
                assert(f == f_mul(d, f_inv(d)));
                assert(f == 1);
                assert(f_mul(1, 1) == 1);
            } else if j == k {
                assert(0int % m() == 0);
                assert(f_sub(xs[k] as int, xs[j] as int) == 0);
                assert(f == f_mul(0, f_inv(d)));
                assert(f_mul(0, f_inv(d)) == 0);
                assert(f_mul(b, 0) == 0);
            } else if k < n {
                assert(b == 0);
                assert(f_mul(0, f) == 0);
            }
        }
    }
}

proof fn lemma_interpolant_upto_at_point(xs: Seq<u128>, ys: Seq<u128>, k: int, n: nat)
    requires
        n <= xs.len(),
        xs.len() == ys.len(),
        all_elements(ys),
        0 <= k < xs.len(),
        forall|a: int, b: int|
            0 <= a < xs.len() && 0 <= b < xs.len() && a != b ==> f_mul(
                #[trigger] f_sub(xs[a] as int, xs[b] as int),
                f_inv(f_sub(xs[a] as int, xs[b] as int)),
            ) == 1,
    ensures
        interpolant_upto(xs, ys, xs[k] as int, n) == if k < n {
            ys[k] as int
        } else {
            0
        },
    decreases n,
{
    if n > 0 {
        lemma_interpolant_upto_at_point(xs, ys, k, (n - 1) as nat);
        let j = n - 1;
        lemma_basis_at_points(xs, j, k, xs.len());
        let y = ys[j] as int;
        assert(is_element(ys[k]));
        vstd::arithmetic::div_mod::lemma_small_mod(ys[k] as nat, MODULUS as nat);
        if j == k {
            assert(f_mul(y, 1) == y);
            assert(f_add(0, y) == y);
        } else {
            assert(f_mul(y, 0) == 0);
            if k < n {
                assert(f_add(ys[k] as int, 0) == ys[k] as int);
            } else {
                assert(f_add(0, 0) == 0);
            }
        }
    }
}

/// The interpolant passes through its points: at each point of `xs` it takes the value given
/// for that point, whenever the differences of the points have inverses (as the differences of
/// distinct points of a prime field do).
pub proof fn lemma_interpolant_at_points(xs: Seq<u128>, ys: Seq<u128>, k: int)
    requires
        xs.len() == ys.len(),
        all_elements(ys),
        0 <= k < xs.len(),
        forall|a: int, b: int|
            0 <= a < xs.len() && 0 <= b < xs.len() && a != b ==> f_mul(
                #[trigger] f_sub(xs[a] as int, xs[b] as int),
                f_inv(f_sub(xs[a] as int, xs[b] as int)),
            ) == 1,
    ensures
        interpolant(xs, ys, xs[k] as int) == ys[k] as int,
{
    lemma_interpolant_upto_at_point(xs, ys, k, xs.len());
}

/// Evaluates at `x` the polynomial of lowest degree through the points (xs[i], ys[i]), in
/// Lagrange form.
pub fn interpolate_at(xs: &[u128], ys: &[u128], x: u128) -> (r: u128)
    requires
        xs@.len() == ys@.len(),
        all_elements(xs@),
        all_elements(ys@),
        is_element(x),
    ensures
        is_element(r),
        r == interpolant(xs@, ys@, x as int),
{
    let n = xs.len();
    let mut sum: u128 = 0;
    let mut i: usize = 0;
    while i < n
        invariant
            n == xs@.len(),
            xs@.len() == ys@.len(),
            all_elements(xs@),
            all_elements(ys@),
            is_element(x),
            i <= n,
            is_element(sum),
            sum == interpolant_upto(xs@, ys@, x as int, i as nat),
        decreases n - i,
    {
        let mut basis: u128 = 1;
        let mut j: usize = 0;
        while j < n
            invariant
                n == xs@.len(),
                all_elements(xs@),
                is_element(x),
                i < n,
                j <= n,
                is_element(basis),
                basis == basis_upto(xs@, i as int, x as int, j as nat),
            decreases n - j,
        {
            if j != i {
                let numerator = field_sub(x, xs[j]);
                let denominator = field_sub(xs[i], xs[j]);
                basis = field_mul(basis, field_div(numerator, denominator));
            }
            j = j + 1;
        }
        sum = field_add(sum, field_mul(ys[i], basis));
        i = i + 1;
    }
    sum
}

/// Outcome of checking a FRI remainder: the positions not on multiples of the blowup factor are
/// checked; the first `max_degree_plus_1` of them define the polynomial, and every other one
/// must lie on it.
pub open spec fn remainder_verdict(
    remainder: Seq<u128>,
    max_degree_plus_1: nat,
    domain_root: u128,
    blowup_factor: nat,
) -> Result<bool, RemainderError> {
    if max_degree_plus_1 > remainder.len() {
        Err(RemainderError::DegreeGreaterThanValues)
    } else {
        let positions = checked_positions(remainder.len(), blowup_factor);
        let n = if max_degree_plus_1 < positions.len() {
            max_degree_plus_1
        } else {
            positions.len()
        };
        let xs = Seq::new(n, |k: int| f_exp(domain_root as int, positions[k] as nat) as u128);
        let ys = Seq::new(n, |k: int| remainder[positions[k] as int]);
        if forall|k: int|
            n <= k < positions.len() ==> interpolant(
                xs,
                ys,
                f_exp(domain_root as int, #[trigger] positions[k] as nat),
            ) == remainder[positions[k] as int] {
            Ok(true)
        } else {
            Err(RemainderError::NotLowDegree(max_degree_plus_1 as usize))
        }
    }
}

/// Completeness of the remainder check: a remainder that holds, at each position `j`, the value
/// at `root^j` of a polynomial with at most `max_degree_plus_1` coefficients is accepted, when the
/// points `root^j` of the remainder's domain have invertible differences (as distinct points of
/// a prime field do).
pub proof fn lemma_low_degree_remainder_is_accepted(
    remainder: Seq<u128>,
    max_degree_plus_1: nat,
    domain_root: u128,
    blowup_factor: nat,
    p: Seq<u128>,
)
    requires
        max_degree_plus_1 <= remainder.len(),
        remainder.len() <= usize::MAX,
        blowup_factor > 0,
        p.len() <= max_degree_plus_1,
        forall|j: int|
            0 <= j < remainder.len() ==> #[trigger] remainder[j] as int == poly_eval(
                p,
                f_exp(domain_root as int, j as nat),
            ),
        invertible_differences(
            Seq::new(remainder.len(), |j: int| f_exp(domain_root as int, j as nat) as u128),
        ),
    ensures
        remainder_verdict(remainder, max_degree_plus_1, domain_root, blowup_factor) == Ok::<
            bool,
            RemainderError,
        >(true),
{
    let len = remainder.len();
    let positions = checked_positions(len, blowup_factor);
    lemma_checked_positions_exact(len, blowup_factor);
    let n = if max_degree_plus_1 < positions.len() {
        max_degree_plus_1
    } else {
        positions.len()
    };
    let xs = Seq::new(n, |k: int| f_exp(domain_root as int, positions[k] as nat) as u128);
    let ys = Seq::new(n, |k: int| remainder[positions[k] as int]);
    let dom = Seq::new(len, |j: int| f_exp(domain_root as int, j as nat) as u128);
    if n < positions.len() {
        assert(invertible_differences(xs)) by {
            assert forall|a: int, b: int| 0 <= a < xs.len() && 0 <= b < xs.len() && a != b implies f_mul(
                #[trigger] f_sub(xs[a] as int, xs[b] as int),
                f_inv(f_sub(xs[a] as int, xs[b] as int)),
            ) == 1 by {
                let pa = positions[a] as int;
                let pb = positions[b] as int;
                if a < b {
                    assert(positions[a] < positions[b]);
                } else {
                    assert(positions[b] < positions[a]);
                }
                assert(xs[a] == dom[pa] && xs[b] == dom[pb]);
            }
        }
        assert forall|k: int| 0 <= k < xs.len() implies #[trigger] ys[k] as int == poly_eval(
            p,
            xs[k] as int,
        ) by {
            let pk = positions[k] as int;
            let v = f_exp(domain_root as int, pk as nat);
            assert(0 <= v < m());
            assert(xs[k] as int == v);
            assert(remainder[pk] as int == poly_eval(p, v));
        }
        assert forall|k: int| n <= k < positions.len() implies interpolant(
            xs,
            ys,
            f_exp(domain_root as int, #[trigger] positions[k] as nat),
        ) == remainder[positions[k] as int] by {
            lemma_interpolant_is_the_polynomial(
                xs,
                ys,
                p,
                f_exp(domain_root as int, positions[k] as nat),
            );
            assert(remainder[positions[k] as int] as int == poly_eval(
                p,
                f_exp(domain_root as int, positions[k] as nat),
            ));
        }
    }
}

proof fn lemma_checked_positions(len: nat, blowup_factor: nat)
    requires
        blowup_factor > 0,
    ensures
        forall|k: int|
            0 <= k < checked_positions(len, blowup_factor).len() ==> #[trigger] checked_positions(
                len,
                blowup_factor,
            )[k] < len,
        checked_positions(len, blowup_factor).len() <= len,
    decreases len,
{
    if len > 0 {
        lemma_checked_positions((len - 1) as nat, blowup_factor);
    }
}

/// The remainder check looks at exactly the positions below the remainder's length that are not
/// multiples of the blowup factor, each once, in ascending order.
pub proof fn lemma_checked_positions_exact(len: nat, blowup_factor: nat)
    requires
        blowup_factor > 0,
        len <= usize::MAX,
    ensures
        forall|i: usize|
            i < len ==> (#[trigger] checked_positions(len, blowup_factor).contains(i) <==> (i as int)
                % (blowup_factor as int) != 0),
        forall|k: int|
            0 <= k < checked_positions(len, blowup_factor).len() ==> #[trigger] checked_positions(
                len,
                blowup_factor,
            )[k] < len,
        forall|j: int, k: int|
            0 <= j < k < checked_positions(len, blowup_factor).len() ==> #[trigger] checked_positions(
                len,
                blowup_factor,
            )[j] < #[trigger] checked_positions(len, blowup_factor)[k],
    decreases len,
{
    lemma_checked_positions(len, blowup_factor);
    if len > 0 {
        let prev = checked_positions((len - 1) as nat, blowup_factor);
        lemma_checked_positions_exact((len - 1) as nat, blowup_factor);
        let cur = checked_positions(len, blowup_factor);
        let last = (len - 1) as usize;
        assert(last as int == len - 1);
        assert forall|k: int| 0 <= k < prev.len() implies #[trigger] prev[k] < last by {
            assert(prev[k] < (len - 1) as nat);
        }
        if ((len - 1) as int) % (blowup_factor as int) != 0 {
            assert(cur == prev.push(last));
            assert forall|j: int, k: int| 0 <= j < k < cur.len() implies #[trigger] cur[j] < #[trigger] cur[k] by {
                if k < prev.len() {
                    assert(cur[j] == prev[j] && cur[k] == prev[k]);
                } else {
                    assert(cur[j] == prev[j]);
                }
            }
            assert forall|i: usize| i < len implies (#[trigger] cur.contains(i) <==> (i as int) % (
            blowup_factor as int) != 0) by {
                if cur.contains(i) && i != last {
                    let k = choose|k: int| 0 <= k < cur.len() && cur[k] == i;
                    assert(k < prev.len());
                    assert(prev[k] == i);
                    assert(prev.contains(i));
                }
                if i != last && prev.contains(i) {
                    let k = choose|k: int| 0 <= k < prev.len() && prev[k] == i;
                    assert(cur[k] == i);
                }
                if i == last {
                    assert(cur[cur.len() - 1] == i);
                }
            }
        } else {
            assert(cur == prev);
            assert forall|i: usize| i < len implies (#[trigger] cur.contains(i) <==> (i as int) % (
            blowup_factor as int) != 0) by {
                if i == last && cur.contains(i) {
                    let k = choose|k: int| 0 <= k < cur.len() && cur[k] == i;
                    assert(prev[k] < last);
                }
            }
        }
    }
}

/// The positions below `len` that are not multiples of `blowup_factor`.
fn remainder_positions(len: usize, blowup_factor: usize) -> (r: Vec<usize>)
    requires
        blowup_factor > 0,
    ensures
        r@ == checked_positions(len as nat, blowup_factor as nat),
{
    let mut result: Vec<usize> = Vec::new();
    let mut i: usize = 0;
    while i < len
        invariant
            blowup_factor > 0,
            i <= len,
            result@ == checked_positions(i as nat, blowup_factor as nat),
        decreases len - i,
    {
        if i % blowup_factor != 0 {
            result.push(i);
        }
        i = i + 1;
    }
    result
}

/// Checks that the values of a FRI remainder, at the points 1, r, r^2, ... of the domain
/// generated by `domain_root`, lie on a polynomial with `max_degree_plus_1` coefficients.
pub fn verify_remainder(
    remainder: &[u128],
    max_degree_plus_1: usize,
    domain_root: u128,
    blowup_factor: usize,
) -> (r: Result<bool, RemainderError>)
    requires
        blowup_factor > 0,
        all_elements(remainder@),
        is_element(domain_root),
    ensures
        r == remainder_verdict(
            remainder@,
            max_degree_plus_1 as nat,
            domain_root,
            blowup_factor as nat,
        ),
{
    if max_degree_plus_1 > remainder.len() {
        return Err(RemainderError::DegreeGreaterThanValues);
    }
    let positions = remainder_positions(remainder.len(), blowup_factor);
    proof {
        lemma_checked_positions(remainder@.len(), blowup_factor as nat);
    }
    let n = if max_degree_plus_1 < positions.len() {
        max_degree_plus_1
    } else {
        positions.len()
    };
    let ghost gxs = Seq::new(n as nat, |k: int| f_exp(domain_root as int, positions@[k] as nat) as u128);
    let ghost gys = Seq::new(n as nat, |k: int| remainder@[positions@[k] as int]);
    let mut xs: Vec<u128> = Vec::new();
    let mut ys: Vec<u128> = Vec::new();
    let mut k: usize = 0;
    while k < n
        invariant
            n <= positions@.len(),
            positions@ == checked_positions(remainder@.len(), blowup_factor as nat),
            forall|q: int| 0 <= q < positions@.len() ==> #[trigger] positions@[q] < remainder@.len(),
            all_elements(remainder@),
            is_element(domain_root),
            k <= n,
            gxs == Seq::new(n as nat, |k: int| f_exp(domain_root as int, positions@[k] as nat) as u128),
            gys == Seq::new(n as nat, |k: int| remainder@[positions@[k] as int]),
            xs@ == gxs.take(k as int),
            ys@ == gys.take(k as int),
            all_elements(xs@),
            all_elements(ys@),
        decreases n - k,
    {
        let p = positions[k];
        xs.push(field_exp(domain_root, p as u128));
        ys.push(remainder[p]);
        k = k + 1;
        proof {
            assert(xs@ =~= gxs.take(k as int));
            assert(ys@ =~= gys.take(k as int));
        }
    }
    proof {
        assert(xs@ =~= gxs);
        assert(ys@ =~= gys);
    }
    let mut k: usize = n;
    while k < positions.len()
        invariant
            n <= k <= positions@.len(),
            positions@ == checked_positions(remainder@.len(), blowup_factor as nat),
            n == if max_degree_plus_1 < positions@.len() {
                max_degree_plus_1 as nat
            } else {
                positions@.len()
            },
            max_degree_plus_1 <= remainder@.len(),
            gxs == Seq::new(n as nat, |k: int| f_exp(domain_root as int, positions@[k] as nat) as u128),
            gys == Seq::new(n as nat, |k: int| remainder@[positions@[k] as int]),
            forall|q: int| 0 <= q < positions@.len() ==> #[trigger] positions@[q] < remainder@.len(),
            all_elements(remainder@),
            is_element(domain_root),
            xs@ == gxs,
            ys@ == gys,
            xs@.len() == ys@.len(),
            all_elements(xs@),
            all_elements(ys@),
            forall|q: int|
                n <= q < k ==> interpolant(
                    gxs,
                    gys,
                    f_exp(domain_root as int, #[trigger] positions@[q] as nat),
                ) == remainder@[positions@[q] as int],
        decreases positions.len() - k,
    {
        let p = positions[k];
        let x = field_exp(domain_root, p as u128);
        if interpolate_at(xs.as_slice(), ys.as_slice(), x) != remainder[p] {
            proof {
                let spec_positions = checked_positions(remainder@.len(), blowup_factor as nat);
                assert(spec_positions[k as int] == p);
                assert(!(forall|q: int|
                    n <= q < spec_positions.len() ==> interpolant(
                        gxs,
                        gys,
                        f_exp(domain_root as int, #[trigger] spec_positions[q] as nat),
                    ) == remainder@[spec_positions[q] as int]));
            }
            return Err(RemainderError::NotLowDegree(max_degree_plus_1));
        }
        k = k + 1;
    }
    Ok(true)
}

} // verus!
