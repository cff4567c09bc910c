//! Small numeric and buffer kernels with proved contracts: wrapping integer
//! addition, Fibonacci numbers, a prime sieve, in-place quicksort and RGBA
//! pixel filters.

mod pixels;
mod scalar;
mod sieve;
mod sort;

pub use pixels::{
    grayscale, grayscale_byte, is_color_byte, is_gray, lemma_grayscale_keeps_gray, luminance,
    map_color_channels, mapped_byte, pixel_start,
};
pub use scalar::{add, fib, fibonacci, modulus_u64};
pub use sieve::{calculate_primes, is_prime, survives};
pub use sort::{permuted_within, quicksort, sorted_between};
