use player5::onset::select_onsets;

#[test]
fn onsets_start_at_their_window_and_respect_the_refractory_period() {
    // 5 ms windows at 48 kHz are 240 samples; 30 ms of refractory is 1 440.
    let mut jumps = vec![false; 200];
    jumps[4] = true; // 960
    jumps[6] = true; // 1 440: only 480 after the last onset
    jumps[100] = true; // 24 000
    jumps[125] = true; // 30 000
    assert_eq!(select_onsets(&jumps, 240, 1_440), vec![960, 24_000, 30_000]);
    jumps[10] = true; // 2 400: exactly 1 440 after 960, so it counts
    assert_eq!(select_onsets(&jumps, 240, 1_440), vec![960, 2_400, 24_000, 30_000]);
    assert!(select_onsets(&[], 240, 1_440).is_empty());
}

#[test]
fn onsets_reach_the_last_window_of_a_huge_window_size() {
    let window = usize::MAX / 2 + 1;
    let onsets = select_onsets(&[true, true], window, 0);
    assert_eq!(onsets, vec![0, window as u64]);
    // A refractory period far past every window start keeps only the first.
    assert_eq!(select_onsets(&[true, true, true], 4, usize::MAX), vec![0]);
}
