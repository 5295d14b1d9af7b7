use winterfell::field::{field_add, field_mul};
use winterfell::trace::{Assertion, ExecutionTrace};

fn build_fib_trace(length: usize) -> ExecutionTrace {
    let mut reg1 = vec![1u128];
    let mut reg2 = vec![1u128];
    for i in 0..(length / 2 - 1) {
        reg1.push(field_add(reg1[i], reg2[i]));
        reg2.push(field_add(reg1[i], field_mul(2, reg2[i])));
    }
    ExecutionTrace::init(vec![reg1, reg2])
}

#[test]
fn tests_new_trace_table() {
    let trace_length = 8;
    let trace = build_fib_trace(trace_length * 2);

    assert_eq!(2, trace.width());
    assert_eq!(8, trace.length());

    let expected: Vec<u128> = vec![1, 2, 5, 13, 34, 89, 233, 610];
    assert_eq!(expected, trace.get_register(0));

    let expected: Vec<u128> = vec![1, 3, 8, 21, 55, 144, 377, 987];
    assert_eq!(expected, trace.get_register(1));
}

#[test]
fn new_trace_is_zero() {
    let trace = ExecutionTrace::with_meta(3, 16, vec![7, 8]);
    assert_eq!(trace.width(), 3);
    assert_eq!(trace.length(), 16);
    assert_eq!(trace.meta(), &[7, 8]);
    for r in 0..3 {
        for s in 0..16 {
            assert_eq!(trace.get(r, s), 0);
        }
    }
}

#[test]
fn set_and_read_rows() {
    let mut trace = ExecutionTrace::new(2, 8);
    trace.set(1, 5, 42);
    assert_eq!(trace.get(1, 5), 42);
    assert_eq!(trace.get(0, 5), 0);
    trace.update_row(3, &[9, 10]);
    let mut row = [0u128; 3];
    row[2] = 77;
    trace.read_row_into(3, &mut row);
    assert_eq!(row, [9, 10, 77]);
    trace.set_meta(vec![1]);
    assert_eq!(trace.meta(), &[1]);
    let columns = trace.into_columns();
    assert_eq!(columns[1][5], 42);
}

#[test]
fn fill_runs_init_then_updates() {
    let mut trace = ExecutionTrace::new(2, 8);
    trace.fill(
        |state: &mut [u128]| {
            state[0] = 1;
            state[1] = 1;
        },
        |_, state: &mut [u128]| {
            let a = state[0];
            let b = state[1];
            state[0] = field_add(a, b);
            state[1] = field_add(a, field_mul(2, b));
        },
    );
    assert_eq!(trace.get_register(0), &[1, 2, 5, 13, 34, 89, 233, 610]);
    assert_eq!(trace.get_register(1), &[1, 3, 8, 21, 55, 144, 377, 987]);
}

#[test]
fn fragments_cover_the_trace() {
    let trace = build_fib_trace(16);
    let fragments = trace.fragments(4);
    assert_eq!(fragments.len(), 2);
    assert_eq!(fragments[1].index(), 1);
    assert_eq!(fragments[1].offset(), 4);
    assert_eq!(fragments[1].length(), 4);
    assert_eq!(fragments[1].width(), 2);
    // writing back an untouched fragment leaves the trace unchanged
    let mut copy = build_fib_trace(16);
    copy.apply_fragment(&fragments[1]);
    assert_eq!(copy.get_register(0), trace.get_register(0));
}

#[test]
fn filled_fragments_write_back() {
    let mut trace = ExecutionTrace::new(1, 8);
    let mut fragments = trace.fragments(4);
    for fragment in fragments.iter_mut() {
        let offset = fragment.offset() as u128;
        fragment.fill(
            |state: &mut [u128]| state[0] = offset,
            |_, state: &mut [u128]| state[0] = state[0] + 1,
        );
    }
    fragments[0].update_row(3, &[100]);
    for fragment in fragments.iter() {
        trace.apply_fragment(fragment);
    }
    assert_eq!(trace.get_register(0), &[0, 1, 2, 100, 4, 5, 6, 7]);
}

#[test]
fn assertions_against_trace() {
    let trace = build_fib_trace(16);
    let good = [
        Assertion { register: 0, step: 0, value: 1 },
        Assertion { register: 1, step: 7, value: 987 },
    ];
    trace.validate_assertions(&good);
    assert_eq!(trace.get(0, 0), 1);
    assert_eq!(trace.get(1, 7), 987);
    // an assertion of 611 at register 0, step 7 is one the trace does not satisfy
    assert_ne!(trace.get(0, 7), 611);
}
