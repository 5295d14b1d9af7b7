use winterfell::field::{eval, field_add, field_exp, field_mul, get_root_of_unity};
use winterfell::fri::{build_remainder, positions_of_next_layer, query_layer, verify, FriError};
use winterfell::verification::{get_column_values, interpolate_at, RemainderError};
use winterfell::worker::{transpose, Worker};

const ROOT: u128 = 7;

fn fold(row: [u128; 4], position: usize, alpha: u128) -> u128 {
    // points of the row: the position's power of the root times the fourth roots of unity of a
    // domain of 16 values
    let xe = field_exp(ROOT, position as u128);
    let quartic = [1, field_exp(ROOT, 4), field_exp(ROOT, 8), field_exp(ROOT, 12)];
    let xs: Vec<u128> = quartic.iter().map(|&q| field_mul(q, xe)).collect();
    interpolate_at(&xs, &row, alpha)
}

fn example() -> (Vec<usize>, Vec<u128>, Vec<Vec<[u128; 4]>>, Vec<u128>, Vec<u128>) {
    let positions = vec![1usize, 6];
    let rows = vec![[11u128, 12, 13, 14], [21, 22, 23, 24]];
    // position 1 is column 0 of the row for 1; position 6 is column 1 of the row for 2
    let evaluations = vec![11u128, 22];
    let alphas = vec![5u128];
    let mut remainder = vec![0u128; 4];
    remainder[1] = fold(rows[0], 1, 5);
    remainder[2] = fold(rows[1], 2, 5);
    (positions, evaluations, vec![rows], alphas, remainder)
}

#[test]
fn next_layer_positions() {
    assert_eq!(positions_of_next_layer(&[1, 6, 5, 10], 16), vec![1, 2]);
}

#[test]
fn consistent_fri_proof_is_accepted() {
    let (positions, evaluations, layers, alphas, remainder) = example();
    assert_eq!(
        verify(16, ROOT, 15, 2, &positions, &evaluations, &layers, &alphas, &remainder),
        Ok(true)
    );
}

#[test]
fn fri_errors() {
    let (positions, evaluations, layers, alphas, remainder) = example();
    let mut bad_evaluations = evaluations.clone();
    bad_evaluations[1] = 23;
    assert_eq!(
        verify(16, ROOT, 15, 2, &positions, &bad_evaluations, &layers, &alphas, &remainder),
        Err(FriError::EvaluationsMismatch(0))
    );
    let short_layers = vec![vec![layers[0][0]]];
    assert_eq!(
        verify(16, ROOT, 15, 2, &positions, &evaluations, &short_layers, &alphas, &remainder),
        Err(FriError::LayerQueryMismatch(0))
    );
    let mut bad_remainder = remainder.clone();
    bad_remainder[2] = bad_remainder[2] + 1;
    assert_eq!(
        verify(16, ROOT, 15, 2, &positions, &evaluations, &layers, &alphas, &bad_remainder),
        Err(FriError::RemainderMismatch)
    );
    // with a degree bound of 3 the folded remainder must be constant on the checked positions
    let mut uneven = remainder.clone();
    uneven[3] = uneven[1] + 1;
    assert_eq!(
        verify(16, ROOT, 3, 2, &positions, &evaluations, &layers, &alphas, &uneven),
        Err(FriError::InvalidRemainder(RemainderError::NotLowDegree(1)))
    );
}

#[test]
fn remainder_is_laid_out_by_columns() {
    let last = [[1u128, 2, 3, 4], [5, 6, 7, 8]];
    assert_eq!(build_remainder(&last), vec![1, 5, 2, 6, 3, 7, 4, 8]);
}

#[test]
fn prover_answers_are_read_back_by_verifier() {
    // a layer of 16 values in 4 rows
    let rows: Vec<[u128; 4]> = (0..4u128).map(|i| [i, 10 + i, 20 + i, 30 + i]).collect();
    let positions = vec![13usize, 2, 6, 1];
    let augmented = positions_of_next_layer(&positions, 16);
    let answers = query_layer(&rows, &augmented);
    let read = get_column_values(&answers, &positions, &augmented, 16);
    let expected: Vec<u128> = positions.iter().map(|&p| rows[p % 4][p / 4]).collect();
    assert_eq!(read, expected);
    assert_eq!(read, vec![31, 2, 12, 1]);
}

#[test]
fn honest_prover_is_accepted() {
    // a full layer of 16 values in 4 rows, folded honestly into the remainder
    let table: Vec<[u128; 4]> = (0..4u128).map(|i| [3 * i + 1, 5 * i + 2, 7 * i + 3, 11 * i + 4]).collect();
    let alpha = 9u128;
    let remainder: Vec<u128> = (0..4usize).map(|i| fold(table[i], i, alpha)).collect();
    let positions = vec![1usize, 6, 11, 14];
    let evaluations: Vec<u128> = positions.iter().map(|&p| table[p % 4][p / 4]).collect();
    let answers = query_layer(&table, &positions_of_next_layer(&positions, 16));
    assert_eq!(
        verify(16, ROOT, 15, 2, &positions, &evaluations, &[answers], &[alpha], &remainder),
        Ok(true)
    );
}

#[test]
fn worker_folds_layers_into_the_remainder() {
    let values: Vec<u128> = (0..16u128).map(|v| v * v + 1).collect();
    let mut worker = Worker::new(ROOT, 1, 0, &values);
    assert_eq!(worker.remainder(), 0);
    // rows of the first layer: values i, i + 4, i + 8, i + 12 over points 7^i * (1, 7^4, 7^8, 7^12)
    let first: Vec<u128> =
        (0..4usize).map(|i| fold([values[i], values[i + 4], values[i + 8], values[i + 12]], i, 5)).collect();
    worker.apply_drp(5);
    assert_eq!(worker.remainder(), 0);
    // the folded layer is a single row over the points 1, 7^4, 7^8, 7^12
    worker.apply_drp(3);
    let xs = [1, field_exp(ROOT, 4), field_exp(ROOT, 8), field_exp(ROOT, 12)];
    assert_eq!(worker.remainder(), interpolate_at(&xs, &first, 3));
}

#[test]
fn apply_drp() {
    // build a polynomial and evaluate it over a domain 8 times larger than its size
    let mut seed = 1u128;
    let p: Vec<u128> = (0..32)
        .map(|_| {
            seed = field_add(field_mul(seed, 6364136223846793005), 1442695040888963407);
            seed
        })
        .collect();
    let g = get_root_of_unity(8);
    let domain: Vec<u128> = (0..256u128).map(|i| field_exp(g, i)).collect();
    let evaluations: Vec<u128> = domain.iter().map(|&x| eval(&p, x)).collect();

    // apply degree respecting projection
    let coeff = 123456789u128;
    let t_evaluations = transpose(&evaluations);
    let folded = winterfell::worker::apply_drp(&t_evaluations, &domain, 0, coeff);
    assert_eq!(folded.len(), 64);

    // the folded values are the evaluations, over the domain raised to the fourth power, of the
    // polynomial whose coefficient i is p[4i] + p[4i + 1] * c + p[4i + 2] * c^2 + p[4i + 3] * c^3;
    // it has a quarter of the coefficients of p
    let reduced: Vec<u128> = (0..p.len() / 4)
        .map(|i| {
            let c1 = field_mul(p[i * 4 + 1], coeff);
            let c2 = field_mul(p[i * 4 + 2], field_exp(coeff, 2));
            let c3 = field_mul(p[i * 4 + 3], field_exp(coeff, 3));
            field_add(field_add(p[i * 4], c1), field_add(c2, c3))
        })
        .collect();
    for (i, &value) in folded.iter().enumerate() {
        assert_eq!(value, eval(&reduced, field_exp(domain[i], 4)));
    }
}
