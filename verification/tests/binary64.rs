//! The binary64 steps on concrete values: rounding an integer to the nearest
//! `f64`, dividing by 1000, writing fixed digits and the shortest digits.

use numan::double::{at_least_1000, div1000_u128, nearest_double_u128, pow2_u128};
use numan::render::render_double;
use numan::shortest::shortest;

#[test]
fn integers_to_the_nearest_f64() {
    assert_eq!(nearest_double_u128(0), (0, 0));
    assert_eq!(nearest_double_u128(1), (4_503_599_627_370_496, -52));
    assert_eq!(nearest_double_u128(1_050), (4_617_948_836_659_200, -42));
    // 2^53 + 1 is a tie between 2^53 and 2^53 + 2: the even mantissa wins.
    assert_eq!(nearest_double_u128(9_007_199_254_740_993), (4_503_599_627_370_496, 1));
    assert_eq!(nearest_double_u128(9_007_199_254_740_995), (4_503_599_627_370_498, 1));
    // Rounding up past 2^128 - 1 gives 2^128.
    assert_eq!(nearest_double_u128(u128::MAX), (4_503_599_627_370_496, 76));
}

#[test]
fn division_by_1000_rounds_to_the_nearest_f64() {
    let d = nearest_double_u128(1_050);
    assert_eq!(div1000_u128(d), (4_728_779_608_739_021, -52));
    assert_eq!(div1000_u128(nearest_double_u128(1_000)), (4_503_599_627_370_496, -52));
    assert!(at_least_1000(nearest_double_u128(1_000)));
    assert!(!at_least_1000(nearest_double_u128(999)));
    assert!(!at_least_1000((0, 0)));
    assert_eq!(pow2_u128(10), 1_024);
}

#[test]
fn fixed_digits_of_the_exact_binary_value() {
    let v = (4_728_779_608_739_021, -52); // 1.05 as an f64
    assert_eq!(render_double(v, 1), (1, "1.1".chars().collect::<Vec<char>>()));
    assert_eq!(render_double(v, 0), (1, vec!['1']));
    let (ip, digits) = render_double(v, 20);
    assert_eq!(ip, 1);
    assert_eq!(digits.into_iter().collect::<String>(), "1.05000000000000004441");
    // 2.5 is a tie at no decimals: half to even.
    assert_eq!(render_double((5_629_499_534_213_120, -51), 0), (2, vec!['2']));
    assert_eq!(render_double((0, 0), 2), (0, "0.00".chars().collect::<Vec<char>>()));
    let (_, long) = render_double((4_503_599_627_370_496, -53), 60);
    assert_eq!(long.len(), 62);
    assert!(long.into_iter().collect::<String>().starts_with("0.5000"));
}

#[test]
fn shortest_digits_that_read_back() {
    assert_eq!(shortest((4_503_599_627_370_496, 76)), (3_402_823_669_209_385, 23));
    assert_eq!(shortest((4_503_599_627_370_496, 75)), (17_014_118_346_046_923, 22));
    assert_eq!(shortest(nearest_double_u128(1_000_000_000_000_000)), (1_000_000_000_000_000, 0));
    assert_eq!(shortest(nearest_double_u128(10_u128.pow(36))), (1, 36));
}
