//! Execution traces: two-dimensional matrices in which each column holds the values of one
//! register over all steps of a computation, and each row the state of the computation at one
//! step.

use crate::field::TWO_ADICITY;
use crate::options::{is_pow2, log2};
use vstd::prelude::*;

verus! {

// CONSTANTS
// ================================================================================================

/// Largest number of registers in an execution trace.
pub const MAX_TRACE_WIDTH: usize = 255;

/// Smallest number of steps in an execution trace.
pub const MIN_TRACE_LENGTH: usize = 8;

/// Largest number of metadata bytes attached to an execution trace.
pub const MAX_META_LENGTH: usize = 65535;

/// Smallest number of rows in a trace fragment.
pub const MIN_FRAGMENT_LENGTH: usize = 2;

// SHAPES
// ================================================================================================

/// A valid number of steps: a power of two, at least the minimum trace length, and no larger
/// than the field's largest power-of-two subgroup.
pub open spec fn valid_length(length: int) -> bool {
    &&& length >= MIN_TRACE_LENGTH
    &&& is_pow2(length)
    &&& log2(length) <= TWO_ADICITY
}

/// Valid register traces: one to 255 registers, all of the same valid length.
pub open spec fn valid_columns(columns: Seq<Seq<u128>>) -> bool {
    &&& 0 < columns.len() <= MAX_TRACE_WIDTH
    &&& valid_length(columns[0].len() as int)
    &&& forall|r: int| 0 <= r < columns.len() ==> (#[trigger] columns[r]).len() == columns[0].len()
}

/// The values of the given register traces.
pub open spec fn columns_view(columns: Seq<Vec<u128>>) -> Seq<Seq<u128>> {
    columns.map_values(|c: Vec<u128>| c@)
}

/// The state at `step`: the value of every register at that step.
pub open spec fn row_of(columns: Seq<Seq<u128>>, step: int) -> Seq<u128> {
    Seq::new(columns.len(), |r: int| columns[r][step])
}

/// Rows `offset .. offset + length` of every column.
pub open spec fn rows_of(columns: Seq<Seq<u128>>, offset: int, length: int) -> Seq<Seq<u128>> {
    Seq::new(columns.len(), |c: int| columns[c].subrange(offset, offset + length))
}

/// `columns` with the rows starting at `offset` replaced by the rows of `part`.
pub open spec fn overwrite_rows(columns: Seq<Seq<u128>>, part: Seq<Seq<u128>>, offset: int) -> Seq<
    Seq<u128>,
> {
    Seq::new(
        columns.len(),
        |c: int|
            Seq::new(
                columns[c].len(),
                |j: int|
                    if offset <= j < offset + part[c].len() {
                        part[c][j - offset]
                    } else {
                        columns[c][j]
                    },
            ),
    )
}

/// Writing back the rows that a fragment was copied from leaves the columns unchanged.
pub proof fn lemma_overwrite_with_own_rows(columns: Seq<Seq<u128>>, offset: int, length: int)
    requires
        0 <= offset,
        0 <= length,
        forall|c: int| 0 <= c < columns.len() ==> offset + length <= (#[trigger] columns[c]).len(),
    ensures
        overwrite_rows(columns, rows_of(columns, offset, length), offset) == columns,
{
    let r = overwrite_rows(columns, rows_of(columns, offset, length), offset);
    assert forall|c: int| 0 <= c < columns.len() implies #[trigger] r[c] == columns[c] by {
        assert(r[c] =~= columns[c]);
    }
    assert(r =~= columns);
}

/// Writing `state` into row `step` changes that row into `state` and no other row.
proof fn lemma_rows_after_update(
    before: Seq<Seq<u128>>,
    after: Seq<Seq<u128>>,
    step: int,
    state: Seq<u128>,
    length: int,
)
    requires
        after.len() == before.len(),
        state.len() == before.len(),
        forall|r: int| 0 <= r < before.len() ==> (#[trigger] before[r]).len() == length,
        forall|r: int|
            #![trigger after[r]]
            0 <= r < before.len() ==> after[r] == before[r].update(step, state[r]),
        0 <= step < length,
    ensures
        row_of(after, step) == state,
        forall|j: int|
            0 <= j < length && j != step ==> #[trigger] row_of(after, j) == row_of(before, j),
{
    assert(row_of(after, step) =~= state);
    assert forall|j: int| 0 <= j < length && j != step implies #[trigger] row_of(after, j) == row_of(
        before,
        j,
    ) by {
        assert(row_of(after, j) =~= row_of(before, j));
    }
}

// ROWS
// ================================================================================================

/// Writes `state` into the row at `step` of `columns`: column i takes `state[i]`, for every
/// column that `state` has a value for.
pub fn write_row(columns: &mut Vec<Vec<u128>>, step: usize, state: &[u128])
    requires
        forall|r: int| 0 <= r < old(columns)@.len() ==> step < (#[trigger] old(columns)@[r])@.len(),
    ensures
        final(columns)@.len() == old(columns)@.len(),
        forall|r: int|
            #![trigger columns_view(final(columns)@)[r]]
            0 <= r < old(columns)@.len() ==> columns_view(final(columns)@)[r] == if r
                < state@.len() {
                columns_view(old(columns)@)[r].update(step as int, state@[r])
            } else {
                columns_view(old(columns)@)[r]
            },
{
    let n = if columns.len() < state.len() {
        columns.len()
    } else {
        state.len()
    };
    let mut r: usize = 0;
    while r < n
        invariant
            n <= columns@.len(),
            n <= state@.len(),
            r <= n,
            columns@.len() == old(columns)@.len(),
            forall|q: int| 0 <= q < old(columns)@.len() ==> step < (#[trigger] old(columns)@[q])@.len(),
            forall|q: int|
                #![trigger columns_view(columns@)[q]]
                0 <= q < columns@.len() ==> columns_view(columns@)[q] == if q < r {
                    columns_view(old(columns)@)[q].update(step as int, state@[q])
                } else {
                    columns_view(old(columns)@)[q]
                },
        decreases n - r,
    {
        proof {
            assert(columns_view(columns@)[r as int] == columns_view(old(columns)@)[r as int]);
        }
        let ghost prev = columns@;
        columns[r].set(step, state[r]);
        proof {
            assert forall|q: int| 0 <= q < columns@.len() implies #[trigger] columns_view(columns@)[q]
                == if q < r + 1 {
                columns_view(old(columns)@)[q].update(step as int, state@[q])
            } else {
                columns_view(old(columns)@)[q]
            } by {
                if q != r {
                    assert(columns@[q] == prev[q]);
                    assert(columns_view(prev)[q] == prev[q]@);
                }
            }
        }
        r = r + 1;
    }
}

/// Fills all `length` rows of `columns`: the first row with the state that `init` leaves when
/// given a state of zeros, and each next row with the state that `update` leaves when given
/// the previous row and its index.
#[verifier::spinoff_prover]
#[verifier::rlimit(40)]
pub fn fill_rows<I: Fn(&mut [u128]), U: Fn(usize, &mut [u128])>(
    columns: &mut Vec<Vec<u128>>,
    length: usize,
    init: I,
    update: U,
)
    requires
        length >= 1,
        forall|r: int| 0 <= r < old(columns)@.len() ==> (#[trigger] old(columns)@[r])@.len() == length,
        forall|s: &mut [u128]| call_requires(init, (s,)),
        forall|i: usize, s: &mut [u128]| call_requires(update, (i, s)),
        forall|s: &mut [u128]| #[trigger] call_ensures(init, (s,), ()) ==> final(s)@.len() == s@.len(),
        forall|i: usize, s: &mut [u128]|
            #[trigger] call_ensures(update, (i, s), ()) ==> final(s)@.len() == s@.len(),
    ensures
        final(columns)@.len() == old(columns)@.len(),
        forall|r: int| 0 <= r < final(columns)@.len() ==> (#[trigger] final(columns)@[r])@.len() == length,
        exists|s: &mut [u128]|
            s@ == Seq::new(old(columns)@.len(), |r: int| 0u128) && final(s)@ == row_of(
                columns_view(final(columns)@),
                0,
            ) && call_ensures(init, (s,), ()),
        forall|i: int|
            #![trigger row_of(columns_view(final(columns)@), i)]
            0 <= i < length - 1 ==> exists|s: &mut [u128]|
                s@ == row_of(columns_view(final(columns)@), i) && final(s)@ == row_of(
                    columns_view(final(columns)@),
                    i + 1,
                ) && call_ensures(update, (i as usize, s), ()),
{
    let width = columns.len();
    let mut state: Vec<u128> = Vec::new();
    let mut k: usize = 0;
    while k < width
        invariant
            k <= width,
            state@ == Seq::new(k as nat, |r: int| 0u128),
        decreases width - k,
    {
        state.push(0);
        k = k + 1;
        assert(state@ =~= Seq::new(k as nat, |r: int| 0u128));
    }
    let ghost zeros = state@;
    let ghost old_rows = columns_view(columns@);
    init(state.as_mut_slice());
    assert(state@.len() == width);
    write_row(columns, 0, state.as_slice());
    proof {
        lemma_rows_after_update(old_rows, columns_view(columns@), 0, state@, length as int);
        assert forall|r: int| 0 <= r < columns@.len() implies (#[trigger] columns@[r])@.len() == length by {
            assert(columns_view(columns@)[r] == columns@[r]@);
            assert(old_rows[r].len() == length);
        }
    }
    let mut i: usize = 0;
    while i < length - 1
        invariant
            columns@.len() == width,
            forall|r: int| 0 <= r < columns@.len() ==> (#[trigger] columns@[r])@.len() == length,
            i < length,
            state@.len() == width,
            state@ == row_of(columns_view(columns@), i as int),
            zeros == Seq::new(width as nat, |r: int| 0u128),
            exists|s: &mut [u128]|
                s@ == zeros && final(s)@ == row_of(columns_view(columns@), 0) && call_ensures(
                    init,
                    (s,),
                    (),
                ),
            forall|j: int|
                #![trigger row_of(columns_view(columns@), j)]
                0 <= j < i ==> exists|s: &mut [u128]|
                    s@ == row_of(columns_view(columns@), j) && final(s)@ == row_of(
                        columns_view(columns@),
                        j + 1,
                    ) && call_ensures(update, (j as usize, s), ()),
            forall|j: usize, s: &mut [u128]| call_requires(update, (j, s)),
            forall|j: usize, s: &mut [u128]|
                #[trigger] call_ensures(update, (j, s), ()) ==> final(s)@.len() == s@.len(),
        decreases length - 1 - i,
    {
        let ghost old_cols = columns@;
        let ghost old_rows = columns_view(columns@);
        let ghost before = state@;
        update(i, state.as_mut_slice());
        assert(exists|s: &mut [u128]|
            s@ == before && final(s)@ == state@ && call_ensures(update, (i, s), ()));
        assert(state@.len() == width);
        write_row(columns, i + 1, state.as_slice());
        proof {
            let rows = columns_view(columns@);
            lemma_rows_after_update(old_rows, rows, (i + 1) as int, state@, length as int);
            assert(row_of(rows, i + 1) == state@);
            assert(row_of(rows, i as int) == before);
            assert(row_of(rows, 0) == row_of(old_rows, 0));
            assert forall|j: int| 0 <= j < i + 1 implies exists|s: &mut [u128]|
                s@ == #[trigger] row_of(rows, j) && final(s)@ == row_of(rows, j + 1) && call_ensures(
                    update,
                    (j as usize, s),
                    (),
                ) by {
                if j < i {
                    assert(row_of(rows, j) == row_of(old_rows, j));
                    assert(row_of(rows, j + 1) == row_of(old_rows, j + 1));
                }
            }
            assert forall|r: int| 0 <= r < columns@.len() implies (#[trigger] columns@[r])@.len() == length by {
                assert(columns_view(columns@)[r] == columns@[r]@);
                assert(columns_view(old_cols)[r] == old_cols[r]@);
            }
        }
        i = i + 1;
    }
}

// EXECUTION TRACE
// ================================================================================================

/// An assertion about an execution trace: `register` holds `value` at `step`.
#[derive(Debug, Clone, Copy, PartialEq, Eq, Structural)]
pub struct Assertion {
    pub register: usize,
    pub step: usize,
    pub value: u128,
}

/// An execution trace of a computation, with optional metadata of up to 65535 bytes.
pub struct ExecutionTrace {
    trace: Vec<Vec<u128>>,
    meta: Vec<u8>,
}

impl ExecutionTrace {
    /// The register traces.
    pub closed spec fn columns(&self) -> Seq<Seq<u128>> {
        columns_view(self.trace@)
    }

    /// The metadata bytes.
    pub closed spec fn spec_meta(&self) -> Seq<u8> {
        self.meta@
    }

    /// Valid shape and metadata size.
    pub open spec fn wf(&self) -> bool {
        &&& valid_columns(self.columns())
        &&& self.spec_meta().len() <= MAX_META_LENGTH
    }

    pub open spec fn spec_width(&self) -> nat {
        self.columns().len()
    }

    pub open spec fn spec_length(&self) -> nat {
        self.columns()[0].len()
    }

    /// The state of the computation at `step`.
    pub open spec fn row(&self, step: int) -> Seq<u128> {
        row_of(self.columns(), step)
    }

    // CONSTRUCTORS
    // --------------------------------------------------------------------------------------------

    /// Creates an execution trace of the specified width and length, with all values zero.
    pub fn new(width: usize, length: usize) -> (r: Self)
        requires
            0 < width <= MAX_TRACE_WIDTH,
            valid_length(length as int),
        ensures
            r.wf(),
            r.spec_width() == width,
            r.spec_length() == length,
            forall|i: int, j: int|
                0 <= i < width && 0 <= j < length ==> #[trigger] r.columns()[i][j] == 0,
            r.spec_meta() == Seq::<u8>::empty(),
    {
        Self::with_meta(width, length, Vec::new())
    }

    /// Creates an execution trace of the specified width and length, with all values zero, and
    /// with the specified metadata.
    pub fn with_meta(width: usize, length: usize, meta: Vec<u8>) -> (r: Self)
        requires
            0 < width <= MAX_TRACE_WIDTH,
            valid_length(length as int),
            meta@.len() <= MAX_META_LENGTH,
        ensures
            r.wf(),
            r.spec_width() == width,
            r.spec_length() == length,
            forall|i: int, j: int|
                0 <= i < width && 0 <= j < length ==> #[trigger] r.columns()[i][j] == 0,
            r.spec_meta() == meta@,
    {
        let mut registers: Vec<Vec<u128>> = Vec::new();
        let mut i: usize = 0;
        while i < width
            invariant
                i <= width,
                registers@.len() == i,
                forall|k: int|
                    0 <= k < i ==> (#[trigger] registers@[k])@ == Seq::new(length as nat, |j: int| 0u128),
            decreases width - i,
        {
            let mut column: Vec<u128> = Vec::new();
            let mut j: usize = 0;
            while j < length
                invariant
                    j <= length,
                    column@ == Seq::new(j as nat, |q: int| 0u128),
                decreases length - j,
            {
                column.push(0);
                j = j + 1;
                assert(column@ =~= Seq::new(j as nat, |q: int| 0u128));
            }
            registers.push(column);
            i = i + 1;
        }
        let r = ExecutionTrace { trace: registers, meta };
        assert(r.columns()[0] == Seq::new(length as nat, |j: int| 0u128));
        r
    }

    /// Creates an execution trace from the provided register traces.
    pub fn init(registers: Vec<Vec<u128>>) -> (r: Self)
        requires
            valid_columns(columns_view(registers@)),
        ensures
            r.wf(),
            r.columns() == columns_view(registers@),
            r.spec_meta() == Seq::<u8>::empty(),
    {
        ExecutionTrace { trace: registers, meta: Vec::new() }
    }

    // DATA MUTATORS
    // --------------------------------------------------------------------------------------------

    /// Sets the value of `register` at `step`.
    pub fn set(&mut self, register: usize, step: usize, value: u128)
        requires
            old(self).wf(),
            register < old(self).spec_width(),
            step < old(self).spec_length(),
        ensures
            final(self).wf(),
            final(self).columns() == old(self).columns().update(
                register as int,
                old(self).columns()[register as int].update(step as int, value),
            ),
            final(self).spec_meta() == old(self).spec_meta(),
    {
        proof {
            assert(self.columns()[register as int].len() == self.columns()[0].len());
        }
        self.trace[register].set(step, value);
        proof {
            assert(self.columns() =~= old(self).columns().update(
                register as int,
                old(self).columns()[register as int].update(step as int, value),
            ));
        }
    }

    /// Replaces the metadata of this trace.
    pub fn set_meta(&mut self, meta: Vec<u8>)
        requires
            meta@.len() <= MAX_META_LENGTH,
        ensures
            final(self).columns() == old(self).columns(),
            final(self).spec_meta() == meta@,
    {
        self.meta = meta;
    }

    /// Writes `state` into the row at `step`: register i takes `state[i]`, for every register
    /// that `state` has a value for.
    pub fn update_row(&mut self, step: usize, state: &[u128])
        requires
            old(self).wf(),
            state@.len() > 0 ==> step < old(self).spec_length(),
        ensures
            final(self).wf(),
            final(self).spec_meta() == old(self).spec_meta(),
            final(self).columns().len() == old(self).columns().len(),
            forall|r: int|
                #![trigger final(self).columns()[r]]
                0 <= r < old(self).columns().len() ==> final(self).columns()[r] == if r
                    < state@.len() {
                    old(self).columns()[r].update(step as int, state@[r])
                } else {
                    old(self).columns()[r]
                },
    {
        if state.len() == 0 {
            return;
        }
        let ghost length = self.columns()[0].len();
        proof {
            assert forall|r: int| 0 <= r < self.trace@.len() implies step < (#[trigger] self.trace@[r])@.len() by {
                assert(self.columns()[r].len() == length);
            }
        }
        write_row(&mut self.trace, step, state);
        proof {
            assert forall|q: int| 0 <= q < self.columns().len() implies (#[trigger] self.columns()[q]).len()
                == self.columns()[0].len() by {
                assert(old(self).columns()[q].len() == length);
            }
        }
    }

    /// Fills all rows of the trace: the first row with the state that `init` leaves when given
    /// a state of zeros, and each next row with the state that `update` leaves when given the
    /// previous row and its step.
    pub fn fill<I: Fn(&mut [u128]), U: Fn(usize, &mut [u128])>(&mut self, init: I, update: U)
        requires
            old(self).wf(),
            forall|s: &mut [u128]| call_requires(init, (s,)),
            forall|i: usize, s: &mut [u128]| call_requires(update, (i, s)),
            forall|s: &mut [u128]| #[trigger] call_ensures(init, (s,), ()) ==> final(s)@.len() == s@.len(),
            forall|i: usize, s: &mut [u128]|
                #[trigger] call_ensures(update, (i, s), ()) ==> final(s)@.len() == s@.len(),
        ensures
            final(self).wf(),
            final(self).spec_meta() == old(self).spec_meta(),
            final(self).spec_width() == old(self).spec_width(),
            final(self).spec_length() == old(self).spec_length(),
            exists|s: &mut [u128]|
                s@ == Seq::new(old(self).spec_width(), |r: int| 0u128) && final(s)@ == final(self).row(0)
                    && call_ensures(init, (s,), ()),
            forall|i: int|
                #![trigger final(self).row(i)]
                0 <= i < final(self).spec_length() - 1 ==> exists|s: &mut [u128]|
                    s@ == final(self).row(i) && final(s)@ == final(self).row(i + 1)
                        && call_ensures(update, (i as usize, s), ()),
    {
        let length = self.length();
        proof {
            assert forall|r: int| 0 <= r < self.trace@.len() implies (#[trigger] self.trace@[r])@.len()
                == length by {
                assert(self.columns()[r].len() == length);
            }
        }
        fill_rows(&mut self.trace, length, init, update);
        proof {
            assert forall|r: int| 0 <= r < self.columns().len() implies (#[trigger] self.columns()[r]).len()
                == length by {}
        }
    }

    // ASSERTIONS
    // --------------------------------------------------------------------------------------------

    /// Validates a non-empty list of assertions against the trace: each assertion's register holds
    /// its value at its step. An empty list, an assertion outside the trace or one that the trace
    /// does not satisfy is refused by the precondition, so every call that verifies is one on
    /// which the trace satisfies all the assertions, and there is nothing left to check when it
    /// runs; the trace is not changed.
    pub fn validate_assertions(&self, assertions: &[Assertion])
        requires
            self.wf(),
            assertions@.len() > 0,
            forall|i: int|
                0 <= i < assertions@.len() ==> (#[trigger] assertions@[i]).register < self.spec_width()
                    && assertions@[i].step < self.spec_length(),
            forall|i: int|
                0 <= i < assertions@.len() ==> self.columns()[(#[trigger] assertions@[i]).register as int][assertions@[i].step as int]
                    == assertions@[i].value,
    {
    }

    // FRAGMENTS
    // --------------------------------------------------------------------------------------------

    /// Breaks the execution trace into fragments of `fragment_length` consecutive rows each.
    /// The fragments hold copies of the rows; a fragment filled or updated on its own is written
    /// back with [ExecutionTrace::apply_fragment].
    pub fn fragments(&self, fragment_length: usize) -> (r: Vec<ExecutionTraceFragment>)
        requires
            self.wf(),
            MIN_FRAGMENT_LENGTH <= fragment_length <= self.spec_length(),
            is_pow2(fragment_length as int),
        ensures
            r@.len() == self.spec_length() as int / fragment_length as int,
            forall|k: int|
                #![trigger r@[k]]
                0 <= k < r@.len() ==> {
                    &&& r@[k].wf()
                    &&& r@[k].spec_index() == k
                    &&& r@[k].spec_offset() == k * fragment_length
                    &&& r@[k].spec_width() == self.spec_width()
                    &&& r@[k].spec_length() == fragment_length
                    &&& r@[k].columns() == rows_of(
                        self.columns(),
                        k * fragment_length,
                        fragment_length as int,
                    )
                },
    {
        let length = self.length();
        let num_fragments = length / fragment_length;
        let mut result: Vec<ExecutionTraceFragment> = Vec::new();
        let mut k: usize = 0;
        proof {
            vstd::arithmetic::div_mod::lemma_fundamental_div_mod(length as int, fragment_length as int);
            assert(num_fragments * fragment_length <= length) by (nonlinear_arith)
                requires
                    length == fragment_length * num_fragments + length as int % fragment_length as int,
                    length as int % fragment_length as int >= 0,
            ;
        }
        while k < num_fragments
            invariant
                self.wf(),
                length == self.spec_length(),
                MIN_FRAGMENT_LENGTH <= fragment_length <= length,
                num_fragments == length / fragment_length,
                num_fragments * fragment_length <= length,
                k <= num_fragments,
                result@.len() == k,
                forall|q: int|
                    #![trigger result@[q]]
                    0 <= q < k ==> {
                        &&& result@[q].wf()
                        &&& result@[q].spec_index() == q
                        &&& result@[q].spec_offset() == q * fragment_length
                        &&& result@[q].spec_width() == self.spec_width()
                        &&& result@[q].spec_length() == fragment_length
                        &&& result@[q].columns() == rows_of(
                            self.columns(),
                            q * fragment_length,
                            fragment_length as int,
                        )
                    },
            decreases num_fragments - k,
        {
            proof {
                assert((k + 1) * fragment_length <= num_fragments * fragment_length) by (nonlinear_arith)
                    requires
                        k < num_fragments,
                ;
                assert((k + 1) * fragment_length == k * fragment_length + fragment_length) by (nonlinear_arith);
            }
            let offset = k * fragment_length;
            let mut data: Vec<Vec<u128>> = Vec::new();
            let mut c: usize = 0;
            while c < self.trace.len()
                invariant
                    self.wf(),
                    length == self.spec_length(),
                    offset + fragment_length <= length,
                    c <= self.trace@.len(),
                    data@.len() == c,
                    forall|q: int|
                        0 <= q < c ==> (#[trigger] data@[q])@ == self.columns()[q].subrange(
                            offset as int,
                            offset + fragment_length,
                        ),
                decreases self.trace@.len() - c,
            {
                proof {
                    assert(self.columns()[c as int].len() == length);
                }
                let column = &self.trace[c];
                let mut chunk: Vec<u128> = Vec::new();
                let mut j: usize = 0;
                while j < fragment_length
                    invariant
                        j <= fragment_length,
                        offset + fragment_length <= column@.len(),
                        offset + fragment_length <= length,
                        chunk@ == column@.subrange(offset as int, offset + j),
                    decreases fragment_length - j,
                {
                    chunk.push(column[offset + j]);
                    j = j + 1;
                    assert(chunk@ =~= column@.subrange(offset as int, offset + j));
                }
                data.push(chunk);
                c = c + 1;
            }
            let fragment = ExecutionTraceFragment { index: k, offset, data };
            proof {
                assert(fragment.columns()[0].len() == fragment_length);
                assert(fragment.columns() =~= rows_of(
                    self.columns(),
                    k * fragment_length,
                    fragment_length as int,
                ));
            }
            result.push(fragment);
            k = k + 1;
        }
        result
    }

    /// Writes the rows of `fragment` back into this trace, starting at the fragment's offset.
    pub fn apply_fragment(&mut self, fragment: &ExecutionTraceFragment)
        requires
            old(self).wf(),
            fragment.wf(),
            fragment.spec_width() == old(self).spec_width(),
            fragment.spec_offset() + fragment.spec_length() <= old(self).spec_length(),
        ensures
            final(self).wf(),
            final(self).spec_meta() == old(self).spec_meta(),
            final(self).spec_width() == old(self).spec_width(),
            final(self).spec_length() == old(self).spec_length(),
            final(self).columns() == overwrite_rows(
                old(self).columns(),
                fragment.columns(),
                fragment.spec_offset() as int,
            ),
    {
        let offset = fragment.offset;
        let rows = fragment.length();
        let length = self.length();
        let mut j: usize = 0;
        while j < rows
            invariant
                self.wf(),
                fragment.wf(),
                self.spec_meta() == old(self).spec_meta(),
                self.spec_width() == old(self).spec_width(),
                self.spec_length() == old(self).spec_length(),
                fragment.spec_width() == self.spec_width(),
                offset == fragment.spec_offset(),
                rows == fragment.spec_length(),
                offset + rows <= self.spec_length(),
                length == self.spec_length(),
                j <= rows,
                forall|c: int, q: int|
                    0 <= c < self.spec_width() && 0 <= q < self.spec_length() ==> #[trigger] self.columns()[c][q]
                        == if offset <= q < offset + j {
                        fragment.columns()[c][q - offset]
                    } else {
                        old(self).columns()[c][q]
                    },
            decreases rows - j,
        {
            let row = fragment.row_values(j);
            let ghost before = self.columns();
            self.update_row(offset + j, row.as_slice());
            proof {
                assert forall|c: int, q: int|
                    0 <= c < self.spec_width() && 0 <= q < self.spec_length() implies #[trigger] self.columns()[c][q]
                        == if offset <= q < offset + j + 1 {
                        fragment.columns()[c][q - offset]
                    } else {
                        old(self).columns()[c][q]
                    } by {
                    assert(before[c].len() == self.spec_length());
                    if q != offset + j {
                        assert(self.columns()[c][q] == before[c][q]);
                    }
                }
            }
            j = j + 1;
        }
        proof {
            let expected = overwrite_rows(old(self).columns(), fragment.columns(), offset as int);
            assert forall|c: int| 0 <= c < self.spec_width() implies #[trigger] self.columns()[c]
                == expected[c] by {
                assert(self.columns()[c].len() == self.spec_length());
                assert(old(self).columns()[c].len() == self.spec_length());
                assert(fragment.columns()[c].len() == rows);
                assert(self.columns()[c] =~= expected[c]);
            }
            assert(self.columns() =~= expected);
        }
    }

    // PUBLIC ACCESSORS
    // --------------------------------------------------------------------------------------------

    /// Number of registers.
    pub fn width(&self) -> (r: usize)
        ensures
            r == self.spec_width(),
    {
        self.trace.len()
    }

    /// Number of steps.
    pub fn length(&self) -> (r: usize)
        requires
            self.wf(),
        ensures
            r == self.spec_length(),
    {
        self.trace[0].len()
    }

    /// The value of `register` at `step`.
    pub fn get(&self, register: usize, step: usize) -> (r: u128)
        requires
            self.wf(),
            register < self.spec_width(),
            step < self.spec_length(),
        ensures
            r == self.columns()[register as int][step as int],
    {
        proof {
            assert(self.columns()[register as int].len() == self.columns()[0].len());
        }
        self.trace[register][step]
    }

    /// The whole trace of register `idx`.
    pub fn get_register(&self, idx: usize) -> (r: &[u128])
        requires
            idx < self.spec_width(),
        ensures
            r@ == self.columns()[idx as int],
    {
        self.trace[idx].as_slice()
    }

    /// The metadata of this trace.
    pub fn meta(&self) -> (r: &[u8])
        ensures
            r@ == self.spec_meta(),
    {
        self.meta.as_slice()
    }

    /// Copies the state at `step` into the first `width` values of `target`.
    pub fn read_row_into(&self, step: usize, target: &mut [u128])
        requires
            self.wf(),
            step < self.spec_length(),
            old(target)@.len() >= self.spec_width(),
        ensures
            final(target)@.len() == old(target)@.len(),
            forall|i: int|
                0 <= i < final(target)@.len() ==> #[trigger] final(target)@[i] == if i
                    < self.spec_width() {
                    self.columns()[i][step as int]
                } else {
                    old(target)@[i]
                },
    {
        let mut i: usize = 0;
        while i < self.trace.len()
            invariant
                self.wf(),
                step < self.spec_length(),
                i <= self.trace@.len(),
                target@.len() == old(target)@.len(),
                target@.len() >= self.spec_width(),
                forall|k: int|
                    0 <= k < target@.len() ==> #[trigger] target@[k] == if k < i {
                        self.columns()[k][step as int]
                    } else {
                        old(target)@[k]
                    },
            decreases self.trace@.len() - i,
        {
            proof {
                assert(self.columns()[i as int].len() == self.columns()[0].len());
            }
            target[i] = self.trace[i][step];
            i = i + 1;
        }
    }

    /// Consumes the trace and returns its register traces.
    pub fn into_columns(self) -> (r: Vec<Vec<u128>>)
        ensures
            columns_view(r@) == self.columns(),
    {
        self.trace
    }
}

// TRACE FRAGMENTS
// ================================================================================================

/// A set of consecutive rows of an execution trace, held apart from the trace; it is created by
/// [ExecutionTrace::fragments] and written back by [ExecutionTrace::apply_fragment].
pub struct ExecutionTraceFragment {
    index: usize,
    offset: usize,
    data: Vec<Vec<u128>>,
}

impl ExecutionTraceFragment {
    pub closed spec fn spec_index(&self) -> usize {
        self.index
    }

    pub closed spec fn spec_offset(&self) -> usize {
        self.offset
    }

    /// The fragment's part of each register trace.
    pub closed spec fn columns(&self) -> Seq<Seq<u128>> {
        columns_view(self.data@)
    }

    pub open spec fn spec_width(&self) -> nat {
        self.columns().len()
    }

    pub open spec fn spec_length(&self) -> nat {
        self.columns()[0].len()
    }

    /// At least one register, at least one row, all registers of the same length.
    pub open spec fn wf(&self) -> bool {
        &&& self.columns().len() > 0
        &&& self.spec_length() > 0
        &&& forall|r: int|
            0 <= r < self.columns().len() ==> (#[trigger] self.columns()[r]).len() == self.columns()[0].len()
    }

    /// The index of this fragment.
    pub fn index(&self) -> (r: usize)
        ensures
            r == self.spec_index(),
    {
        self.index
    }

    /// The step at which the fragment starts in the execution trace.
    pub fn offset(&self) -> (r: usize)
        ensures
            r == self.spec_offset(),
    {
        self.offset
    }

    /// Number of rows in the fragment.
    pub fn length(&self) -> (r: usize)
        requires
            self.wf(),
        ensures
            r == self.spec_length(),
    {
        self.data[0].len()
    }

    /// Number of registers in the fragment.
    pub fn width(&self) -> (r: usize)
        ensures
            r == self.spec_width(),
    {
        self.data.len()
    }

    /// The values of all registers at row `row_idx` of the fragment.
    fn row_values(&self, row_idx: usize) -> (r: Vec<u128>)
        requires
            self.wf(),
            row_idx < self.spec_length(),
        ensures
            r@ == row_of(self.columns(), row_idx as int),
    {
        let mut result: Vec<u128> = Vec::new();
        let mut c: usize = 0;
        while c < self.data.len()
            invariant
                self.wf(),
                row_idx < self.spec_length(),
                c <= self.data@.len(),
                result@ == row_of(self.columns(), row_idx as int).subrange(0, c as int),
            decreases self.data@.len() - c,
        {
            proof {
                assert(self.columns()[c as int].len() == self.spec_length());
            }
            result.push(self.data[c][row_idx]);
            c = c + 1;
            assert(result@ =~= row_of(self.columns(), row_idx as int).subrange(0, c as int));
        }
        assert(result@ =~= row_of(self.columns(), row_idx as int));
        result
    }

    /// Fills all rows in the fragment, as [ExecutionTrace::fill] does for a whole trace.
    pub fn fill<I: Fn(&mut [u128]), U: Fn(usize, &mut [u128])>(&mut self, init: I, update: U)
        requires
            old(self).wf(),
            forall|s: &mut [u128]| call_requires(init, (s,)),
            forall|i: usize, s: &mut [u128]| call_requires(update, (i, s)),
            forall|s: &mut [u128]| #[trigger] call_ensures(init, (s,), ()) ==> final(s)@.len() == s@.len(),
            forall|i: usize, s: &mut [u128]|
                #[trigger] call_ensures(update, (i, s), ()) ==> final(s)@.len() == s@.len(),
        ensures
            final(self).wf(),
            final(self).spec_index() == old(self).spec_index(),
            final(self).spec_offset() == old(self).spec_offset(),
            final(self).spec_width() == old(self).spec_width(),
            final(self).spec_length() == old(self).spec_length(),
            exists|s: &mut [u128]|
                s@ == Seq::new(old(self).spec_width(), |r: int| 0u128) && final(s)@ == row_of(
                    final(self).columns(),
                    0,
                ) && call_ensures(init, (s,), ()),
            forall|i: int|
                #![trigger row_of(final(self).columns(), i)]
                0 <= i < final(self).spec_length() - 1 ==> exists|s: &mut [u128]|
                    s@ == row_of(final(self).columns(), i) && final(s)@ == row_of(
                        final(self).columns(),
                        i + 1,
                    ) && call_ensures(update, (i as usize, s), ()),
    {
        let length = self.length();
        proof {
            assert forall|r: int| 0 <= r < self.data@.len() implies (#[trigger] self.data@[r])@.len()
                == length by {
                assert(self.columns()[r].len() == length);
            }
        }
        fill_rows(&mut self.data, length, init, update);
        proof {
            assert forall|r: int| 0 <= r < self.columns().len() implies (#[trigger] self.columns()[r]).len()
                == length by {}
        }
    }

    /// Writes `row_data` into row `row_idx` of the fragment: register i takes `row_data[i]`,
    /// for every register that `row_data` has a value for.
    pub fn update_row(&mut self, row_idx: usize, row_data: &[u128])
        requires
            old(self).wf(),
            row_data@.len() > 0 ==> row_idx < old(self).spec_length(),
        ensures
            final(self).wf(),
            final(self).spec_index() == old(self).spec_index(),
            final(self).spec_offset() == old(self).spec_offset(),
            final(self).columns().len() == old(self).columns().len(),
            forall|r: int|
                #![trigger final(self).columns()[r]]
                0 <= r < old(self).columns().len() ==> final(self).columns()[r] == if r
                    < row_data@.len() {
                    old(self).columns()[r].update(row_idx as int, row_data@[r])
                } else {
                    old(self).columns()[r]
                },
    {
        if row_data.len() == 0 {
            return;
        }
        let ghost length = self.columns()[0].len();
        proof {
            assert forall|r: int| 0 <= r < self.data@.len() implies row_idx < (#[trigger] self.data@[r])@.len() by {
                assert(self.columns()[r].len() == length);
            }
        }
        write_row(&mut self.data, row_idx, row_data);
        proof {
            assert forall|q: int| 0 <= q < self.columns().len() implies (#[trigger] self.columns()[q]).len()
                == self.columns()[0].len() by {
                assert(old(self).columns()[q].len() == length);
            }
        }
    }
}

} // verus!
