use itualgs_rs::randomization::lcg_random::lcg_generate;
use itualgs_rs::randomization::lcg_random::shuffle_list;

#[test]
fn lcg_random_test_size() {
    let size = 2000;
    let arr = lcg_generate(size);
    assert!(arr.len() == size);
}

#[test]
fn test_uniform() {
    let size = 200_000;
    let arr = lcg_generate(size);

    // Assert the length of generated array
    assert_eq!(arr.len(), size);

    let num_bins = 100;
    // Gives ten percent tolerance
    let tolerance_factor = 10;

    // Initialize the counter for each bin
    let mut bins = vec![0; num_bins];

    // For each number, increment the count for its bin
    for &element in &arr {
        let bin_index = (element % num_bins as u32) as usize;
        bins[bin_index] += 1;
    }

    // Calculate average and tolerance
    let avg_count = size / num_bins;
    let tolerance = avg_count / tolerance_factor;

    // Assert that each bin's count is within the tolerance
    for count in bins {
        assert!(count >= avg_count - tolerance, "Count was too low: {}", count);
        assert!(count <= avg_count + tolerance, "Count was too high: {}", count);
    }
}

#[test]
fn lcg_follows_its_recurrence() {
    let arr = lcg_generate(50);
    for i in 0..49 {
        let expected = (1103515245u64 * arr[i] as u64 + 12345) % 2147483648;
        assert_eq!(arr[i + 1] as u64, expected);
    }
}

#[test]
fn shuffle_keeps_the_elements() {
    let mut list = vec![5, 1, 4, 1, 5, 9, 2, 6];
    let mut sorted_before = list.clone();
    sorted_before.sort();
    shuffle_list(&mut list);
    let mut sorted_after = list.clone();
    sorted_after.sort();
    assert_eq!(sorted_before, sorted_after);
}
