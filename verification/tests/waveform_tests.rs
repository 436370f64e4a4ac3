use waveform::encode::waveform_to_string;
use waveform::error::WaveformError;
use waveform::formats::get_supported_formats;
use waveform::plan::plan_samples_per_bucket;
use waveform::plan::DEFAULT_SAMPLES_PER_BUCKET;
use waveform::reduce::render_waveform;
use waveform::reduce::WaveformReducer;
use waveform::reduce::AMPLITUDE_SCALE;

#[test]
fn planner_known_length_honors_point_count() {
    // 44100 frames, mono, 10 points: 4410 samples per bucket.
    assert_eq!(plan_samples_per_bucket(Some(44100), 1, 10), Ok(4410));
    // Stereo doubles the interleaved sample count.
    assert_eq!(plan_samples_per_bucket(Some(44100), 2, 10), Ok(8820));
}

#[test]
fn planner_unknown_length_uses_default() {
    assert_eq!(plan_samples_per_bucket(None, 2, 10), Ok(DEFAULT_SAMPLES_PER_BUCKET));
    assert_eq!(DEFAULT_SAMPLES_PER_BUCKET, 100);
}

#[test]
fn planner_never_returns_zero_bucket_size() {
    // Fewer samples than requested points: one sample per bucket.
    assert_eq!(plan_samples_per_bucket(Some(5), 1, 10), Ok(1));
    assert_eq!(plan_samples_per_bucket(Some(0), 1, 10), Ok(1));
}

#[test]
fn planner_rejects_zero_points() {
    assert_eq!(plan_samples_per_bucket(Some(44100), 1, 0), Err(WaveformError::InvalidPointCount));
    assert_eq!(plan_samples_per_bucket(None, 1, 0), Err(WaveformError::InvalidPointCount));
}

#[test]
fn quantization_is_floored_scaling() {
    // A full-scale peak reaches the ceiling exactly.
    assert_eq!(render_waveform(&[AMPLITUDE_SCALE], 1, 255), vec![255]);
    // A half-scale peak lands on floor(0.5 * 255) = 127.
    assert_eq!(render_waveform(&[32768], 1, 255), vec![127]);
    // A quarter-scale peak lands on floor(0.25 * 255) = 63.
    assert_eq!(render_waveform(&[16384], 1, 255), vec![63]);
    // A smaller ceiling scales down the same peak.
    assert_eq!(render_waveform(&[AMPLITUDE_SCALE], 1, 128), vec![128]);
}

#[test]
fn unnormalized_peak_exceeds_ceiling_without_clipping() {
    // A decoder handing out twice full scale: the emitted value is
    // floor(2.0 * 100) = 200, above the ceiling, saturated only at
    // what one byte can hold.
    assert_eq!(render_waveform(&[2 * AMPLITUDE_SCALE], 1, 100), vec![200]);
    assert_eq!(render_waveform(&[4 * AMPLITUDE_SCALE], 1, 255), vec![255]);
}

#[test]
fn normalized_input_stays_within_ceiling() {
    // Any normalized stream, any ceiling: no emitted value exceeds
    // the ceiling.
    let samples: Vec<u32> = (0..66u32).map(|i| (i * 1000).min(AMPLITUDE_SCALE)).collect();
    for m in [0u8, 1, 127, 254, 255] {
        for v in render_waveform(&samples, 7, m) {
            assert!(v <= m);
        }
    }
}

#[test]
fn buckets_hold_peak_amplitudes() {
    let samples = [0, AMPLITUDE_SCALE, 32768, 16384];
    assert_eq!(render_waveform(&samples, 2, 255), vec![255, 127]);
}

#[test]
fn trailing_partial_bucket_is_emitted() {
    // Five samples at two per bucket: the lone fifth sample still
    // produces a third bucket.
    let samples = [AMPLITUDE_SCALE, 0, 0, 0, 32768];
    assert_eq!(render_waveform(&samples, 2, 255), vec![255, 0, 127]);
}

#[test]
fn zero_ceiling_yields_all_zero_bytes() {
    let samples = [AMPLITUDE_SCALE, 32768, AMPLITUDE_SCALE, 123];
    assert_eq!(render_waveform(&samples, 2, 0), vec![0, 0]);
    assert_eq!(render_waveform(&samples, 3, 0), vec![0, 0]);
}

#[test]
fn one_second_mono_at_ten_points_gives_ten_buckets() {
    // One second of mono audio at 44100 Hz, reduced to ten points:
    // 4410 samples per bucket, and 44100 divides evenly, so exactly
    // ten buckets come out.
    let spb = plan_samples_per_bucket(Some(44100), 1, 10).unwrap();
    assert_eq!(spb, 4410);
    let samples = vec![32768u32; 44100];
    let wave = render_waveform(&samples, spb, 255);
    assert_eq!(wave.len(), 10);
    assert_eq!(wave, vec![127u8; 10]);
}

#[test]
fn uneven_tail_adds_one_truncated_bucket() {
    // 44103 samples at 4410 per bucket: ten full buckets and a
    // three-sample remainder bucket.
    let mut samples = vec![16384u32; 44100];
    samples.extend_from_slice(&[AMPLITUDE_SCALE, 0, 0]);
    let wave = render_waveform(&samples, 4410, 255);
    assert_eq!(wave.len(), 11);
    assert_eq!(wave[9], 63);
    assert_eq!(wave[10], 255);
}

#[test]
fn streaming_runs_match_one_shot_reduction() {
    // Feeding the reducer packet by packet gives the same waveform as
    // reducing the concatenated stream at once.
    let first = [AMPLITUDE_SCALE, 0, 32768];
    let second = [16384, 16384, AMPLITUDE_SCALE, 0];
    let mut reducer = WaveformReducer::new(3, 255);
    reducer.push_run(&first);
    reducer.push_run(&second);
    let streamed = reducer.finish();

    let mut joined = Vec::new();
    joined.extend_from_slice(&first);
    joined.extend_from_slice(&second);
    assert_eq!(streamed, render_waveform(&joined, 3, 255));
}

#[test]
fn skipped_packet_leaves_a_gap_not_an_error() {
    // A corrupt packet in the middle is skipped by the caller: the
    // waveform is the reduction of the surviving runs only.
    let before = [AMPLITUDE_SCALE, AMPLITUDE_SCALE];
    let after = [32768, 32768];
    let mut reducer = WaveformReducer::new(2, 255);
    reducer.push_run(&before);
    // The corrupt packet's samples never reach the reducer.
    reducer.push_run(&after);
    let wave = reducer.finish();
    assert_eq!(wave, vec![255, 127]);
}

#[test]
fn waveform_encodes_to_standard_base64() {
    assert_eq!(waveform_to_string(Ok(vec![255, 0, 127])), "/wB/");
    assert_eq!(waveform_to_string(Ok(vec![0, 0])), "AAA=");
    assert_eq!(waveform_to_string(Ok(vec![])), "");
}

#[test]
fn failures_collapse_to_the_empty_string() {
    assert_eq!(waveform_to_string(Err(WaveformError::Unprobeable)), "");
    assert_eq!(waveform_to_string(Err(WaveformError::NoDefaultTrack)), "");
    assert_eq!(waveform_to_string(Err(WaveformError::DecoderUnsupported)), "");
    assert_eq!(waveform_to_string(Err(WaveformError::InvalidPointCount)), "");
}

#[test]
fn error_descriptions_name_the_failure() {
    assert_eq!(WaveformError::InvalidPointCount.describe(), "requested point count is zero");
    assert_eq!(WaveformError::Unprobeable.describe(), "container format could not be identified");
    assert_eq!(WaveformError::NoDefaultTrack.describe(), "no default audio track found");
    assert_eq!(WaveformError::DecoderUnsupported.describe(), "no decoder supports the track");
}

#[test]
fn identical_input_gives_identical_output() {
    let samples = [123, 45678, AMPLITUDE_SCALE, 9999, 0, 31415];
    let first = waveform_to_string(Ok(render_waveform(&samples, 2, 200)));
    let second = waveform_to_string(Ok(render_waveform(&samples, 2, 200)));
    assert_eq!(first, second);
    assert!(!first.is_empty());
}

#[test]
fn supported_formats_are_advertised_in_order() {
    let formats = get_supported_formats();
    assert_eq!(formats, vec!["mp3", "aac", "ogg", "flac", "wav"]);
}
