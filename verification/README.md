# audio_authoring

The core of an audio authoring tool, verified with Verus.

- `src/` is the library. It is generic over the sample type and holds:
  - `source`: the `SampleSource` trait that every audio source implements,
    seen as the samples it has yet to deliver when it states them;
  - `memory_source`: a fully decoded signal read front to back;
  - `packet_buffer`: the buffering, refill and packet-routing decisions of a
    streaming source;
  - `mixing`: the specification of a mix and the per-chunk mixing steps;
  - `voice_mixer` and `audio_renderer`: mixing several sources into one buffer,
    dropping sources that have played out and raising a finished flag;
  - `loader`: how a file is loaded (into memory or streamed), the step that
    collects a drained stream into memory, and the defaults
    used for a track's sample rate and channel count;
  - `format`: the channel count and sample rate of a stream.
- `app/` is the player: it opens and decodes files with symphonia, plays the
  mix on the default output device with cpal, and instantiates the library
  with `f32` samples.
- `tests/` exercises the library on concrete values.
