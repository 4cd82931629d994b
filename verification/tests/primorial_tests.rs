use primorial_of_a_number::number::BigNat;
use primorial_of_a_number::primorial::{
    first_primes, multiply_all, multiply_vec, primorial, split_into_chunks, thread_chunks,
};

#[test]
fn primorial_of_six_is_30030() {
    assert_eq!(primorial(6).to_decimal_string(), "30030");
}

#[test]
fn primorial_of_small_counts() {
    assert_eq!(primorial(0).to_decimal_string(), "1");
    assert_eq!(primorial(1).to_decimal_string(), "2");
    assert_eq!(primorial(2).to_decimal_string(), "6");
    assert_eq!(primorial(3).to_decimal_string(), "30");
    assert_eq!(primorial(10).to_decimal_string(), "6469693230");
}

#[test]
fn primorial_of_larger_counts() {
    assert_eq!(primorial(20).to_decimal_string(), "557940830126698960967415390");
    assert_eq!(
        primorial(50).to_decimal_string(),
        "19078266889580195013601891820992757757219839668357012055907516904309700014933909014729740190"
    );
}

#[test]
fn first_primes_takes_the_smallest() {
    assert_eq!(first_primes(0), Some(Vec::<usize>::new()));
    assert_eq!(first_primes(1), Some(vec![2]));
    assert_eq!(first_primes(6), Some(vec![2, 3, 5, 7, 11, 13]));
    let thousand = first_primes(1000).unwrap();
    assert_eq!(thousand.len(), 1000);
    assert_eq!(thousand[999], 7919);
}

#[test]
fn first_primes_refuses_limits_that_overflow() {
    assert_eq!(first_primes(usize::MAX / 16 + 1), None);
    assert_eq!(first_primes(usize::MAX), None);
}

#[test]
fn multiply_vec_multiplies_everything() {
    assert_eq!(multiply_vec(vec![]).to_decimal_string(), "1");
    assert_eq!(multiply_vec(vec![2, 3, 5, 7]).to_decimal_string(), "210");
    assert_eq!(
        multiply_vec(vec![usize::MAX, usize::MAX]).to_decimal_string(),
        ((usize::MAX as u128) * (usize::MAX as u128)).to_string()
    );
}

#[test]
fn multiply_all_multiplies_the_parts() {
    let parts = vec![multiply_vec(vec![2, 3]), multiply_vec(vec![5, 7]), BigNat::one()];
    assert_eq!(multiply_all(parts).to_decimal_string(), "210");
    assert_eq!(multiply_all(vec![]).to_decimal_string(), "1");
}

#[test]
fn split_into_chunks_matches_slice_chunks() {
    let v: Vec<usize> = (1..=10).collect();
    for size in 1..12 {
        let expected: Vec<Vec<usize>> = v.chunks(size).map(|c| c.to_vec()).collect();
        assert_eq!(split_into_chunks(&v, size), expected);
    }
    assert_eq!(split_into_chunks(&vec![], 3), Vec::<Vec<usize>>::new());
}

#[test]
fn thread_chunks_use_nine_parts_at_most() {
    let v: Vec<usize> = (0..100).collect();
    let chunks = thread_chunks(&v);
    assert_eq!(chunks.len(), 9);
    assert_eq!(chunks[0].len(), 12);
    assert_eq!(chunks.concat(), v);
    let small = vec![2, 3, 5];
    assert_eq!(thread_chunks(&small), vec![vec![2], vec![3], vec![5]]);
}

#[test]
fn chunked_product_equals_whole_product() {
    let primes = first_primes(200).unwrap();
    let whole = multiply_vec(primes.clone()).to_decimal_string();
    let parts: Vec<BigNat> = thread_chunks(&primes).into_iter().map(multiply_vec).collect();
    assert_eq!(multiply_all(parts).to_decimal_string(), whole);
    assert_eq!(primorial(200).to_decimal_string(), whole);
}

#[test]
fn first_primes_refuses_counts_the_sieve_cannot_reach() {
    // below 16 * 1_617_175 there are fewer than 1_617_175 primes
    assert_eq!(first_primes(1_617_175), None);
}

#[test]
fn first_primes_reaches_the_last_count_the_sieve_covers() {
    assert_eq!(first_primes(1_617_174).map(|p| p.len()), Some(1_617_174));
}
