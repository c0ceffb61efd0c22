use std::sync::atomic::Ordering;

use audio_authoring::memory_source::MemorySource;
use audio_authoring::source::SampleSource;
use audio_authoring::voice_mixer::VoiceMixer;

type Mixer = VoiceMixer<f32, Box<dyn SampleSource<f32>>>;

struct MockSource {
    samples: Vec<f32>,
    position: usize,
}

impl MockSource {
    fn new(samples: Vec<f32>) -> Self {
        Self {
            samples,
            position: 0,
        }
    }
}

impl SampleSource<f32> for MockSource {
    fn sample_rate(&self) -> u32 {
        44100
    }

    fn channels(&self) -> u16 {
        1
    }

    fn read(&mut self, out: &mut [f32]) -> Result<usize, symphonia::core::errors::Error> {
        let remaining = self.samples.len() - self.position;
        let count = remaining.min(out.len());

        out[..count]
            .copy_from_slice(&self.samples[self.position..self.position + count]);

        self.position += count;

        Ok(count)
    }
}

struct BrokenSource;

impl SampleSource<f32> for BrokenSource {
    fn sample_rate(&self) -> u32 {
        44100
    }

    fn channels(&self) -> u16 {
        1
    }

    fn read(&mut self, _out: &mut [f32]) -> Result<usize, symphonia::core::errors::Error> {
        Err(symphonia::core::errors::Error::DecodeError("broken"))
    }
}

#[test]
fn new_mixer_is_empty_and_not_finished() {
    let mixer = Mixer::new();

    assert!(!mixer.finished().load(Ordering::Relaxed));
}

#[test]
fn empty_mixer_outputs_silence() {
    let mut mixer = Mixer::new();
    let mut buffer = [1.0, 2.0, 3.0];

    mixer.render(&mut buffer);

    assert_eq!(buffer, [0.0, 0.0, 0.0]);
    assert!(mixer.finished().load(Ordering::Relaxed));
}

#[test]
fn single_voice_is_rendered() {
    let mut mixer = Mixer::new();

    mixer.add_voice(
        Box::new(MockSource::new(vec![1.0, 2.0, 3.0])),
        1.0,
    );

    let mut buffer = [0.0; 3];

    mixer.render(&mut buffer);

    assert_eq!(buffer, [1.0, 2.0, 3.0]);
}

#[test]
fn voice_volume_is_applied() {
    let mut mixer = Mixer::new();

    mixer.add_voice(
        Box::new(MockSource::new(vec![1.0, 2.0, 3.0])),
        0.5,
    );

    let mut buffer = [0.0; 3];

    mixer.render(&mut buffer);

    assert_eq!(buffer, [0.5, 1.0, 1.5]);
}

#[test]
fn multiple_voices_are_mixed() {
    let mut mixer = Mixer::new();

    mixer.add_voice(
        Box::new(MockSource::new(vec![1.0, 2.0, 3.0])),
        1.0,
    );

    mixer.add_voice(
        Box::new(MockSource::new(vec![4.0, 5.0, 6.0])),
        1.0,
    );

    let mut buffer = [0.0; 3];

    mixer.render(&mut buffer);

    assert_eq!(buffer, [5.0, 7.0, 9.0]);
}

#[test]
fn render_clears_existing_buffer() {
    let mut mixer = Mixer::new();

    mixer.add_voice(
        Box::new(MockSource::new(vec![1.0, 2.0])),
        1.0,
    );

    let mut buffer = [100.0, 100.0];

    mixer.render(&mut buffer);

    assert_eq!(buffer, [1.0, 2.0]);
}

#[test]
fn shorter_voice_only_fills_available_samples() {
    let mut mixer = Mixer::new();

    mixer.add_voice(
        Box::new(MockSource::new(vec![1.0, 2.0])),
        1.0,
    );

    let mut buffer = [0.0; 4];

    mixer.render(&mut buffer);

    assert_eq!(buffer, [1.0, 2.0, 0.0, 0.0]);
}

#[test]
fn voice_progresses_between_renders() {
    let mut mixer = Mixer::new();

    mixer.add_voice(
        Box::new(MockSource::new(vec![1.0, 2.0, 3.0, 4.0])),
        1.0,
    );

    let mut buffer = [0.0; 2];

    mixer.render(&mut buffer);
    assert_eq!(buffer, [1.0, 2.0]);

    mixer.render(&mut buffer);
    assert_eq!(buffer, [3.0, 4.0]);
}

#[test]
fn finished_voice_is_removed() {
    let mut mixer = Mixer::new();

    mixer.add_voice(
        Box::new(MockSource::new(vec![1.0, 2.0])),
        1.0,
    );

    let mut buffer = [0.0; 2];

    // Consume the voice.
    mixer.render(&mut buffer);
    assert_eq!(buffer, [1.0, 2.0]);

    // The source now reports Ok(0), so the voice is dropped.
    mixer.render(&mut buffer);

    assert_eq!(buffer, [0.0, 0.0]);
    assert!(mixer.finished().load(Ordering::Relaxed));
}

#[test]
fn finished_voice_does_not_remove_other_voices() {
    let mut mixer = Mixer::new();

    mixer.add_voice(
        Box::new(MockSource::new(vec![1.0])),
        1.0,
    );

    mixer.add_voice(
        Box::new(MockSource::new(vec![10.0, 20.0])),
        1.0,
    );

    let mut buffer = [0.0];

    mixer.render(&mut buffer);
    assert_eq!(buffer, [11.0]);

    mixer.render(&mut buffer);
    assert_eq!(buffer, [20.0]);

    assert!(!mixer.finished().load(Ordering::Relaxed));

    mixer.render(&mut buffer);

    assert!(mixer.finished().load(Ordering::Relaxed));
}

#[test]
fn failing_voice_is_dropped_and_others_play() {
    let mut mixer = Mixer::new();
    mixer.add_voice(Box::new(BrokenSource), 1.0);
    mixer.add_voice(Box::new(MockSource::new(vec![2.0, 4.0])), 0.25);
    let mut buffer = [3.0; 3];
    mixer.render(&mut buffer);
    assert_eq!(buffer, [0.5, 1.0, 0.0]);
    assert!(!mixer.finished().load(Ordering::Relaxed));
}

#[test]
fn integer_voices_mix_exactly() {
    let mut mixer: VoiceMixer<i32, MemorySource<i32>> = VoiceMixer::new();
    mixer.add_voice(MemorySource::new(vec![1, 2, 3], 8000, 1), 2);
    mixer.add_voice(MemorySource::new(vec![10], 8000, 1), -1);
    let mut buffer = [7; 4];
    mixer.render(&mut buffer);
    assert_eq!(buffer, [2 - 10, 4, 6, 0]);
    mixer.render(&mut buffer);
    assert_eq!(buffer, [0, 0, 0, 0]);
    assert!(mixer.finished().load(Ordering::Relaxed));
}

#[test]
fn finished_flag_stays_raised_once_raised() {
    let mut mixer = Mixer::new();
    let flag = mixer.finished();
    let mut buffer = [0.0; 2];
    mixer.render(&mut buffer);
    assert!(flag.load(Ordering::Relaxed));
    mixer.add_voice(Box::new(MockSource::new(vec![1.0])), 1.0);
    mixer.render(&mut buffer);
    assert_eq!(buffer, [1.0, 0.0]);
    assert!(flag.load(Ordering::Relaxed));
}
