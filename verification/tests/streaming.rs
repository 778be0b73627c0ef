use sea_codec::codec::file::SeaFile;
use sea_codec::cursor::Cursor;
use sea_codec::decoder::SeaDecoder;
use sea_codec::encoder::{EncoderSettings, SeaEncoder};
use sea_codec::{sea_decode, sea_encode};

const TEST_SAMPLE_RATE: u32 = 44100;

/// A deterministic signal: two tones and a little noise, the same in every
/// channel but for a shift.
fn gen_test_signal(channels: u32, frames: usize) -> Vec<i16> {
    let mut state: u32 = 12345;
    let mut out = Vec::with_capacity(frames * channels as usize);
    for t in 0..frames {
        state = state.wrapping_mul(1664525).wrapping_add(1013904223);
        let noise = ((state >> 16) as i32 % 200) - 100;
        for ch in 0..channels {
            let x = (t + 7 * ch as usize) as f64;
            let tone = (x * 2.0 * std::f64::consts::PI * 440.0 / TEST_SAMPLE_RATE as f64).sin()
                * 12000.0
                + (x * 2.0 * std::f64::consts::PI * 1870.0 / TEST_SAMPLE_RATE as f64).sin()
                    * 4000.0;
            out.push((tone as i32 + noise).clamp(-32768, 32767) as i16);
        }
    }
    out
}

struct Decoded {
    decoded: Vec<i16>,
}

fn encode_decode(
    input: &[i16],
    sample_rate: u32,
    channels: u32,
    settings: EncoderSettings,
) -> Decoded {
    let encoded = sea_encode(input, sample_rate, channels, settings);
    let info = sea_decode(&encoded);
    assert_eq!(info.channels, channels);
    assert_eq!(info.sample_rate, sample_rate);
    Decoded { decoded: info.samples }
}

/// Reads from a growing buffer as a pipe would: every read sees the bytes
/// written so far and takes what it needs from their front.
struct Pipe {
    bytes: Vec<u8>,
    read: usize,
}

#[test]
fn streaming() {
    let channels = 1;
    let input_samples = gen_test_signal(channels, TEST_SAMPLE_RATE as usize);

    let reference_samples = encode_decode(
        &input_samples,
        TEST_SAMPLE_RATE,
        channels,
        EncoderSettings::default(),
    );

    let mut pipe = Pipe { bytes: Vec::with_capacity(input_samples.len()), read: 0 };

    let mut sea_encoder = SeaEncoder::from_slice(
        channels as u8,
        TEST_SAMPLE_RATE,
        None,
        EncoderSettings::default(),
        &input_samples,
    )
    .unwrap();

    // need to encode first frame to get the header
    sea_encoder.encode_frame(&mut pipe.bytes).unwrap();

    let mut sea_decoded = Vec::<i16>::with_capacity(input_samples.len() * 2);
    let mut file = {
        let mut cursor = Cursor::from_slice(&pipe.bytes[pipe.read..]);
        let before = cursor.remaining();
        let file = SeaFile::from_reader(&mut cursor).unwrap();
        pipe.read += before - cursor.remaining();
        file
    };

    for _ in 0..3 {
        sea_encoder.encode_frame(&mut pipe.bytes).unwrap();
        let mut cursor = Cursor::from_slice(&pipe.bytes[pipe.read..]);
        let before = cursor.remaining();
        let samples = file.samples_from_reader(&mut cursor, None).unwrap();
        pipe.read += before - cursor.remaining();
        if let Some(samples) = samples {
            sea_decoded.extend_from_slice(&samples);
        }
    }

    assert!(!sea_decoded.is_empty());
    assert_eq!(
        reference_samples.decoded[..sea_decoded.len()],
        sea_decoded[..]
    );

    // The decoder, reading the bytes of the pipe from their start, hands out
    // the same samples in the same three calls.
    let mut sea_decoder = SeaDecoder::from_reader(Cursor::from_slice(&pipe.bytes)).unwrap();
    let mut again = Vec::<i16>::new();
    for _ in 0..3 {
        assert_eq!(sea_decoder.decode_frame(&mut again), Ok(true));
    }
    assert_eq!(again, sea_decoded);
}
