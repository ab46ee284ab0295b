use audiomesh::audio::AudioData;
use audiomesh::mixer::AudioBuffer;

fn chunk(client_id: u16, pos: u64, samples: Vec<i16>) -> AudioData {
    AudioData { client_id, pos, data: samples }
}

#[test]
fn no_sources_yields_nothing() {
    let mut mixer = AudioBuffer::new(100, 4, u32::MAX);
    assert_eq!(mixer.get_next(4, 0), None);
}

#[test]
fn single_source_scaled_by_two() {
    let mut mixer = AudioBuffer::new(8, 0, u32::MAX);
    mixer.store_data(chunk(5, 1, vec![10, -7, 3, 100]), 0).unwrap();
    // One source: every sample is divided by 1 + 1 = 2, toward zero.
    assert_eq!(mixer.get_next(4, 0), Some(vec![5, -3, 1, 50]));
}

#[test]
fn two_sources_summed_with_scaling_three() {
    let mut mixer = AudioBuffer::new(100, 4, u32::MAX);
    mixer.store_data(chunk(1, 1, vec![30; 10]), 0).unwrap();
    mixer.store_data(chunk(2, 1, vec![60; 10]), 0).unwrap();
    // Two sources: scaling 3, output 30/3 + 60/3 = 30.
    assert_eq!(mixer.get_next(4, 0), Some(vec![30; 4]));
}

#[test]
fn mixer_gating() {
    let mut mixer = AudioBuffer::new(100, 4, u32::MAX);
    mixer.store_data(chunk(1, 1, vec![30; 10]), 0).unwrap();
    mixer.store_data(chunk(2, 1, vec![60; 10]), 0).unwrap();
    assert_eq!(mixer.get_next(4, 0), Some(vec![30; 4]));
    assert_eq!(mixer.get_next(4, 0), Some(vec![30; 4]));
    // Both readers stand at position 9 with 2 samples left. Feed source 1
    // ten more: source 2 is now behind, but the slowest available source
    // has 12 samples, beyond the jitter budget of 4, so the mixer plays
    // source 1 and substitutes silence for source 2.
    mixer.store_data(chunk(1, 11, vec![30; 10]), 0).unwrap();
    assert_eq!(mixer.get_next(4, 0), Some(vec![10; 4]));
}

#[test]
fn mixer_gating_waits_within_budget() {
    let mut mixer = AudioBuffer::new(100, 4, u32::MAX);
    mixer.store_data(chunk(1, 1, vec![30; 10]), 0).unwrap();
    mixer.store_data(chunk(2, 1, vec![60; 10]), 0).unwrap();
    // Drain both sources completely.
    assert_eq!(mixer.get_next(10, 0), Some(vec![30; 10]));
    // Source 1 gets 3 samples: available but under the jitter budget of 4.
    // Source 2 is behind with nothing: the mixer waits.
    mixer.store_data(chunk(1, 11, vec![30; 3]), 0).unwrap();
    assert_eq!(mixer.get_next(1, 0), None);
    // Source 2 catches up: mixing resumes.
    mixer.store_data(chunk(2, 11, vec![60; 3]), 0).unwrap();
    assert_eq!(mixer.get_next(1, 0), Some(vec![30]));
}

#[test]
fn idle_source_is_muted_not_awaited() {
    let mut mixer = AudioBuffer::new(100, 0, 100);
    mixer.store_data(chunk(1, 1, vec![30; 8]), 0).unwrap();
    mixer.store_data(chunk(2, 1, vec![60; 2]), 0).unwrap();
    // At time 50 neither source is idle; source 2 cannot yield 4 samples
    // and the budget is 0, so nothing blocks and source 2 is simply
    // skipped while warming up.
    assert_eq!(mixer.get_next(4, 50), Some(vec![10; 4]));
    // Source 1 keeps talking; source 2 stays silent past its threshold.
    mixer.store_data(chunk(1, 9, vec![30; 4]), 150).unwrap();
    // At time 200 source 2 went idle (no store for 200 ms > 100 ms): it is
    // muted, not awaited, and source 1 alone is played.
    assert_eq!(mixer.get_next(4, 200), Some(vec![10; 4]));
}
