use audio_authoring::memory_source::MemorySource;
use audio_authoring::source::SampleSource;

#[test]
fn read_in_one_shot_returns_all_samples() {
    let mut source = MemorySource::new(vec![1.0, 2.0, 3.0, 4.0], 44_100, 1);
    let mut out_buf = [0.0f32; 4];
    assert_eq!(source.read(&mut out_buf).unwrap(), 4);
    assert_eq!(out_buf, [1.0, 2.0, 3.0, 4.0]);
}

#[test]
fn read_in_small_chunks_reassembles_correctly() {
    let mut source = MemorySource::new(vec![1.0, 2.0, 3.0, 4.0, 5.0], 44_100, 1);
    let mut collected = Vec::new();
    let mut chunk = [0.0f32; 2];
    loop {
        let n = source.read(&mut chunk).unwrap();
        if n == 0 {
            break;
        }
        collected.extend_from_slice(&chunk[..n]);
    }
    assert_eq!(collected, vec![1.0, 2.0, 3.0, 4.0, 5.0]);
}

#[test]
fn read_after_exhaustion_returns_ok_zero_repeatedly() {
    let mut source = MemorySource::new(vec![1.0, 2.0], 44_100, 1);
    let mut out_buf = [0.0f32; 8];
    assert_eq!(source.read(&mut out_buf).unwrap(), 2);
    assert_eq!(source.read(&mut out_buf).unwrap(), 0, "should be exhausted");
    assert_eq!(source.read(&mut out_buf).unwrap(), 0, "should stay exhausted, not panic or wrap");
}

#[test]
fn short_read_leaves_rest_of_buffer_alone() {
    let mut source = MemorySource::new(vec![7, 8], 8000, 2);
    let mut out_buf = [1, 1, 1, 1];
    assert_eq!(source.read_samples(&mut out_buf), 2);
    assert_eq!(out_buf, [7, 8, 1, 1]);
}

#[test]
fn memory_source_reports_format_and_samples() {
    let source = MemorySource::new(vec![0.5f32, -0.5], 22_050, 2);
    assert_eq!(source.sample_rate(), 22_050);
    assert_eq!(source.channels(), 2);
    assert_eq!(source.samples(), &vec![0.5, -0.5]);
}

#[test]
fn chunk_sizes_do_not_change_what_is_read() {
    let samples: Vec<i32> = (0..11).collect();
    let mut whole = MemorySource::new(samples.clone(), 1, 1);
    let mut big = [0i32; 11];
    assert_eq!(whole.read_samples(&mut big), 11);

    let mut pieces = MemorySource::new(samples.clone(), 1, 1);
    let mut collected = Vec::new();
    let mut tiny = [0i32; 3];
    loop {
        let n = pieces.read_samples(&mut tiny);
        if n == 0 {
            break;
        }
        collected.extend_from_slice(&tiny[..n]);
    }
    assert_eq!(collected, big.to_vec());
    assert_eq!(collected, samples);
}

#[test]
fn empty_buffer_reads_nothing() {
    let mut source = MemorySource::new(vec![1u8, 2, 3], 1, 1);
    let mut none: [u8; 0] = [];
    assert_eq!(source.read_samples(&mut none), 0);
    let mut out_buf = [0u8; 3];
    assert_eq!(source.read_samples(&mut out_buf), 3);
    assert_eq!(out_buf, [1, 2, 3]);
}
