use wasm_kernels::{calculate_primes, fibonacci, grayscale, map_color_channels, quicksort};

#[test]
fn test_add() {
    assert_eq!(wasm_kernels::add(2, 3), 5);
}

#[test]
fn test_fibonacci() {
    assert_eq!(fibonacci(0), 0);
    assert_eq!(fibonacci(1), 1);
    assert_eq!(fibonacci(10), 55);
}

#[test]
fn add_negative_and_mixed_signs() {
    assert_eq!(wasm_kernels::add(-7, 3), -4);
    assert_eq!(wasm_kernels::add(-7, -8), -15);
    assert_eq!(wasm_kernels::add(0, 0), 0);
}

#[test]
fn add_wraps_on_overflow() {
    assert_eq!(wasm_kernels::add(i32::MAX, 1), i32::MIN);
    assert_eq!(wasm_kernels::add(i32::MIN, -1), i32::MAX);
    assert_eq!(wasm_kernels::add(i32::MAX, i32::MAX), -2);
}

#[test]
fn fibonacci_twenty() {
    assert_eq!(fibonacci(2), 1);
    assert_eq!(fibonacci(3), 2);
    assert_eq!(fibonacci(20), 6765);
}

#[test]
fn fibonacci_largest_exact_value() {
    assert_eq!(fibonacci(93), 12200160415121876738);
}

#[test]
fn fibonacci_wraps_past_u64() {
    // fib(94) = 19740274219868223167, taken modulo 2^64
    assert_eq!(fibonacci(94), 1293530146158671551);
}

#[test]
fn primes_below_two_are_none() {
    assert_eq!(calculate_primes(0), Vec::<u32>::new());
    assert_eq!(calculate_primes(1), Vec::<u32>::new());
}

#[test]
fn primes_up_to_two() {
    assert_eq!(calculate_primes(2), vec![2]);
}

#[test]
fn primes_up_to_ten() {
    assert_eq!(calculate_primes(10), vec![2, 3, 5, 7]);
}

#[test]
fn primes_bound_included() {
    assert_eq!(calculate_primes(13), vec![2, 3, 5, 7, 11, 13]);
    assert_eq!(calculate_primes(49), vec![2, 3, 5, 7, 11, 13, 17, 19, 23, 29, 31, 37, 41, 43, 47]);
}

#[test]
fn primes_count_up_to_ten_thousand() {
    let p = calculate_primes(10000);
    assert_eq!(p.len(), 1229);
    assert_eq!(p[p.len() - 1], 9973);
}

#[test]
fn grayscale_pure_red() {
    let mut data = vec![255u8, 0, 0, 255];
    grayscale(&mut data);
    assert_eq!(data, vec![76, 76, 76, 255]);
}

#[test]
fn grayscale_mixed_pixel_and_alpha_kept() {
    let mut data = vec![10u8, 200, 30, 7, 0, 0, 255, 128];
    grayscale(&mut data);
    // (299*10 + 587*200 + 114*30) / 1000 = 123; (114*255) / 1000 = 29
    assert_eq!(data, vec![123, 123, 123, 7, 29, 29, 29, 128]);
}

#[test]
fn grayscale_gray_buffer_unchanged() {
    let mut data = Vec::new();
    for v in 0..=255u8 {
        data.push(v);
        data.push(v);
        data.push(v);
        data.push(255 - v);
    }
    let before = data.clone();
    grayscale(&mut data);
    assert_eq!(data, before);
}

#[test]
fn grayscale_trailing_partial_pixel_untouched() {
    let mut data = vec![0u8, 255, 0, 9, 50, 60, 70];
    grayscale(&mut data);
    assert_eq!(data, vec![149, 149, 149, 9, 50, 60, 70]);
}

#[test]
fn grayscale_empty_buffer() {
    let mut data: Vec<u8> = Vec::new();
    grayscale(&mut data);
    assert!(data.is_empty());
}

fn doubling_table() -> Vec<u8> {
    (0..=255u32).map(|v| (v * 2).min(255) as u8).collect()
}

#[test]
fn channel_map_doubles_colour_keeps_alpha() {
    let mut data = vec![100u8, 100, 100, 255];
    map_color_channels(&mut data, &doubling_table());
    assert_eq!(data, vec![200, 200, 200, 255]);
}

#[test]
fn channel_map_clamped_table_and_partial_pixel() {
    let mut data = vec![200u8, 128, 127, 100, 200, 200];
    map_color_channels(&mut data, &doubling_table());
    assert_eq!(data, vec![255, 255, 254, 100, 200, 200]);
}

#[test]
fn quicksort_small() {
    let mut a = vec![3i64, 1, 2];
    quicksort(&mut a);
    assert_eq!(a, vec![1, 2, 3]);
}

#[test]
fn quicksort_duplicates_and_negatives() {
    let mut a = vec![5i64, -2, 5, 0, -2, i64::MAX, i64::MIN, 7, 0];
    quicksort(&mut a);
    assert_eq!(a, vec![i64::MIN, -2, -2, 0, 0, 5, 5, 7, i64::MAX]);
}

#[test]
fn quicksort_sorted_and_reversed() {
    let mut a: Vec<i64> = (0..200).collect();
    quicksort(&mut a);
    assert_eq!(a, (0..200).collect::<Vec<i64>>());
    let mut b: Vec<i64> = (0..200).rev().collect();
    quicksort(&mut b);
    assert_eq!(b, (0..200).collect::<Vec<i64>>());
}

#[test]
fn quicksort_empty_and_single() {
    let mut a: Vec<i64> = Vec::new();
    quicksort(&mut a);
    assert!(a.is_empty());
    let mut b = vec![42i64];
    quicksort(&mut b);
    assert_eq!(b, vec![42]);
}

#[test]
fn quicksort_is_a_sorted_permutation() {
    let mut a: Vec<i64> = Vec::new();
    let mut x: i64 = 12345;
    for _ in 0..300 {
        x = (x * 1103515245 + 12345) % 2147483648;
        a.push(x % 1000 - 500);
    }
    let mut expected = a.clone();
    expected.sort();
    quicksort(&mut a);
    assert_eq!(a, expected);
}
