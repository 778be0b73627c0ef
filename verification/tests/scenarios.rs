use sea_codec::codec::chunk::SeaChunk;
use sea_codec::codec::common::SeaError;
use sea_codec::codec::dqt::SeaDequantTab;
use sea_codec::codec::file::SeaFileHeader;
use sea_codec::codec::lms::SeaLMS;
use sea_codec::cursor::Cursor;
use sea_codec::decoder::SeaDecoder;
use sea_codec::encoder::{EncoderSettings, SeaEncoder, SeaEncoderState};
use sea_codec::{sea_decode, sea_encode, try_sea_decode, try_sea_encode};

fn sine(samples: usize, rate: f64, tone: f64, size: f64) -> Vec<i16> {
    (0..samples)
        .map(|t| ((2.0 * std::f64::consts::PI * tone * t as f64 / rate).sin() * size) as i16)
        .collect()
}

/// White noise from a linear congruential generator.
fn noise(seed: u32, samples: usize) -> Vec<i16> {
    let mut state = seed;
    (0..samples)
        .map(|_| {
            state = state.wrapping_mul(1103515245).wrapping_add(12345);
            ((state >> 16) & 0xFFFF) as u16 as i16
        })
        .collect()
}

fn signal_to_noise_db(input: &[i16], output: &[i16]) -> f64 {
    let signal: f64 = input.iter().map(|x| (*x as f64) * (*x as f64)).sum();
    let error: f64 = input
        .iter()
        .zip(output.iter())
        .map(|(x, y)| (*x as f64 - *y as f64) * (*x as f64 - *y as f64))
        .sum();
    10.0 * (signal / error.max(1.0)).log10()
}

/// Splits a stream of one channel into its header and its chunks.
fn chunks_of(stream: &[u8]) -> (Vec<u8>, Vec<Vec<u8>>) {
    let metadata = u32::from_le_bytes([stream[18], stream[19], stream[20], stream[21]]) as usize;
    let chunk_size = u16::from_le_bytes([stream[6], stream[7]]) as usize;
    let head = stream[..22 + metadata].to_vec();
    let body = &stream[22 + metadata..];
    (head, body.chunks(chunk_size).map(|c| c.to_vec()).collect())
}

#[test]
fn sine_survives_with_little_noise() {
    let input = sine(8000, 8000.0, 440.0, 20000.0);
    let encoded = sea_encode(&input, 8000, 1, EncoderSettings::default());
    let info = sea_decode(&encoded);
    assert_eq!(info.samples.len(), 8000);
    assert_eq!(info.sample_rate, 8000);
    assert_eq!(info.channels, 1);
    let snr = signal_to_noise_db(&input, &info.samples);
    assert!(snr >= 30.0, "signal to noise {}", snr);
    // One whole chunk of 5120 frames and one of 2880, three bits a sample.
    assert_eq!(encoded.len(), 22 + 2067 + 1171);
}

#[test]
fn silence_stays_silent() {
    let input = vec![0i16; 10240];
    let encoded = sea_encode(&input, 44100, 2, EncoderSettings::default());
    assert_eq!(&encoded[..4], b"SEAC");
    assert_eq!(encoded[4], 1);
    assert_eq!(encoded[5], 2);
    assert_eq!(u16::from_le_bytes([encoded[6], encoded[7]]), 4131);
    assert_eq!(u16::from_le_bytes([encoded[8], encoded[9]]), 5120);
    assert_eq!(u32::from_le_bytes([encoded[10], encoded[11], encoded[12], encoded[13]]), 44100);
    assert_eq!(u32::from_le_bytes([encoded[14], encoded[15], encoded[16], encoded[17]]), 5120);
    assert_eq!(&encoded[18..22], &[0, 0, 0, 0]);
    assert_eq!(encoded.len(), 22 + 4131);
    // The chunk: constant bitrate, three residual bits, the reserved byte,
    // and zeroed predictors.
    assert_eq!(&encoded[22..25], &[1, 3, 0x5A]);
    assert!(encoded[25..57].iter().all(|b| *b == 0));
    let info = sea_decode(&encoded);
    assert_eq!(info.channels, 2);
    assert_eq!(info.samples.len(), 10240);
    assert!(info.samples.iter().all(|x| (-2..=2).contains(x)));
}

#[test]
fn noise_at_four_bits_has_the_size_of_its_residuals() {
    let input = noise(1, 16384);
    let settings = EncoderSettings { residual_bits: 4000, ..EncoderSettings::default() };
    let encoded = sea_encode(&input, 44100, 1, settings);
    // Three whole chunks and one of 1024 frames.
    assert_eq!(encoded.len(), 22 + 3 * 2707 + 557);
    let residuals = 4.0 * 16384.0 / 8.0;
    let overhead = 22.0 + 4.0 * 19.0 + 3.0 * 128.0 + 26.0;
    let expected = residuals + overhead;
    assert!((encoded.len() as f64 - expected).abs() <= 0.005 * expected);
    let info = sea_decode(&encoded);
    assert_eq!(info.samples.len(), 16384);
}

#[test]
fn noise_at_a_variable_bitrate_meets_its_target() {
    let input = noise(1, 16384);
    let settings =
        EncoderSettings { residual_bits: 3400, vbr: true, ..EncoderSettings::default() };
    let encoded = sea_encode(&input, 44100, 1, settings);
    assert_eq!(encoded.len(), 22 + 3 * 2181 + 452);
    let info = sea_decode(&encoded);
    assert_eq!(info.samples.len(), input.len());
    // The bits of a whole chunk per sample, all blocks counted, are the
    // residual width that the settings ask for.
    let bits_per_sample = 2181.0 * 8.0 / 5120.0;
    assert!((3.35..=3.45).contains(&bits_per_sample), "bits per sample {}", bits_per_sample);
    // The widths of the slices of the first chunk: 58 of two bits, 140 of
    // three, 38 of four and 20 of five, for a mean of 3.075.
    let (_, chunks) = chunks_of(&encoded);
    let first = &chunks[0];
    assert_eq!(&first[..3], &[2, 3, 0x5A]);
    let codes = &first[3 + 16 + 128..3 + 16 + 128 + 64];
    let mut counts = [0usize; 4];
    for byte in codes {
        for shift in [6, 4, 2, 0] {
            counts[((byte >> shift) & 3) as usize] += 1;
        }
    }
    assert_eq!(counts, [58, 140, 38, 20]);
    let mean = (2 * 58 + 3 * 140 + 4 * 38 + 5 * 20) as f64 / 256.0;
    assert!((mean - 3.075).abs() <= 0.05);
}

#[test]
fn truncated_stream_ends_cleanly() {
    let input = sine(3 * 5120, 44100.0, 700.0, 9000.0);
    let encoded = sea_encode(&input, 44100, 1, EncoderSettings::default());
    let (head, chunks) = chunks_of(&encoded);
    assert_eq!(chunks.len(), 3);
    let whole = sea_decode(&encoded).samples;
    assert_eq!(whole.len(), 3 * 5120);

    let mut truncated = head.clone();
    truncated.extend_from_slice(&chunks[0]);
    let mut decoder = SeaDecoder::from_slice(&truncated).unwrap();
    let mut samples = Vec::new();
    assert_eq!(decoder.decode_frame(&mut samples), Ok(true));
    assert_eq!(samples.len(), 5120);
    assert_eq!(samples[..], whole[..5120]);
    assert_eq!(decoder.decode_frame(&mut samples), Ok(false));
    assert_eq!(decoder.decode_frame(&mut samples), Ok(false));
    assert_eq!(samples.len(), 5120);
    let same = sea_decode(&truncated);
    assert_eq!(same.samples, samples);
}

#[test]
fn stream_with_another_magic_word_is_refused() {
    let input = sine(100, 8000.0, 440.0, 1000.0);
    let mut encoded = sea_encode(&input, 8000, 1, EncoderSettings::default());
    assert!(SeaDecoder::from_slice(&encoded).is_ok());
    encoded[0] = b'X';
    assert_eq!(&encoded[..4], b"XEAC");
    assert_eq!(SeaDecoder::from_slice(&encoded).err(), Some(SeaError::InvalidFile));
    assert_eq!(SeaDecoder::from_slice(b"SE").err(), Some(SeaError::EndOfFile));
}

#[test]
fn encoding_twice_gives_the_same_bytes() {
    let input = noise(7, 6000);
    for settings in [
        EncoderSettings::default(),
        EncoderSettings { residual_bits: 4200, vbr: true, ..EncoderSettings::default() },
        EncoderSettings {
            scale_factor_bits: 2,
            scale_factor_frames: 7,
            residual_bits: 8000,
            frames_per_chunk: 100,
            vbr: false,
        },
    ] {
        let first = sea_encode(&input, 22050, 2, settings);
        let second = sea_encode(&input, 22050, 2, settings);
        assert_eq!(first, second);
        let a = sea_decode(&first);
        let b = sea_decode(&second);
        assert_eq!(a.samples, b.samples);
        assert_eq!(a.samples.len(), 6000);
    }
}

#[test]
fn every_chunk_decodes_on_its_own() {
    let input = noise(3, 2 * 1000 * 3 + 2 * 250);
    let settings = EncoderSettings {
        frames_per_chunk: 1000,
        residual_bits: 4400,
        vbr: true,
        ..EncoderSettings::default()
    };
    let encoded = sea_encode(&input, 48000, 2, settings);
    let whole = sea_decode(&encoded).samples;
    assert_eq!(whole.len(), input.len());
    let (mut head, chunks) = chunks_of(&encoded);
    assert_eq!(chunks.len(), 4);
    for (index, chunk) in chunks.iter().enumerate() {
        // A stream of this chunk alone: the header, with the frames of the
        // chunk as its total, and the bytes of the chunk.
        let frames: u32 = if index < 3 { 1000 } else { 250 };
        head[14..18].copy_from_slice(&frames.to_le_bytes());
        let mut alone = head.clone();
        alone.extend_from_slice(chunk);
        let samples = sea_decode(&alone).samples;
        let from = index * 2000;
        assert_eq!(samples[..], whole[from..from + 2 * frames as usize]);
    }
}

#[test]
fn whole_chunks_have_the_size_the_header_states() {
    for settings in [
        EncoderSettings { frames_per_chunk: 333, ..EncoderSettings::default() },
        EncoderSettings {
            frames_per_chunk: 1000,
            residual_bits: 3700,
            vbr: true,
            ..EncoderSettings::default()
        },
    ] {
        let input = noise(11, 4 * settings.frames_per_chunk as usize + 90);
        let encoded = sea_encode(&input, 44100, 1, settings);
        let chunk_size = u16::from_le_bytes([encoded[6], encoded[7]]) as usize;
        let (head, chunks) = chunks_of(&encoded);
        assert_eq!(head.len(), 22);
        assert_eq!(chunks.len(), 5);
        for chunk in &chunks[..4] {
            assert_eq!(chunk.len(), chunk_size);
        }
        assert!(chunks[4].len() <= chunk_size);
        assert!(chunks[4].len() < chunk_size);
    }
}

#[test]
fn decoder_ends_where_the_encoder_does() {
    // Decoding the chunks of a stream one after the other, each from its own
    // predictors, gives what the encoder reconstructed: the predictors at
    // the start of every chunk are those that decoding the chunk before
    // leaves.
    let input = noise(5, 3 * 400);
    let settings = EncoderSettings { frames_per_chunk: 400, ..EncoderSettings::default() };
    let encoded = sea_encode(&input, 44100, 1, settings);
    let (head, chunks) = chunks_of(&encoded);
    let decoder = SeaDecoder::from_slice(&head).unwrap();
    let header = decoder.get_header();
    assert_eq!(header.total_frames, 1200);
    let tab = SeaDequantTab::init(4);
    let mut last: Option<Vec<SeaLMS>> = None;
    for bytes in &chunks {
        let chunk = SeaChunk::from_slice(bytes, &header, Some(400)).ok().unwrap();
        if let Some(after) = &last {
            assert_eq!(&chunk.lms, after);
        }
        let (_, after) = chunk.decode(&tab);
        last = Some(after);
    }
    // And the encoder's predictors after the stream are the decoder's.
    let mut encoder = SeaEncoder::from_slice(1, 44100, Some(1200), settings, &input).unwrap();
    let mut sink = Vec::new();
    while encoder.encode_frame(&mut sink).unwrap() {}
    assert_eq!(sink, encoded);
    assert_eq!(encoder.file.cbr_encoder.as_ref().unwrap().get_lms(), last.as_ref().unwrap());
}

#[test]
fn chunks_handed_on_one_by_one_make_the_stream() {
    let input = noise(9, 2500);
    let settings = EncoderSettings { frames_per_chunk: 1000, ..EncoderSettings::default() };
    let whole = sea_encode(&input, 44100, 1, settings);
    let mut encoder = SeaEncoder::from_slice(1, 44100, Some(2500), settings, &input).unwrap();
    let mut pieces: Vec<Vec<u8>> = Vec::new();
    loop {
        let mut piece = Vec::new();
        let more = encoder.encode_frame(&mut piece).unwrap();
        pieces.push(piece);
        if !more {
            break;
        }
    }
    assert_eq!(pieces.len(), 3);
    assert_eq!(pieces.concat(), whole);
    // The decoder, fed the same bytes, hands out the samples chunk by chunk.
    let mut decoder = SeaDecoder::from_slice(&whole).unwrap();
    let mut samples = Vec::new();
    let mut sizes = Vec::new();
    while decoder.decode_frame(&mut samples).unwrap() {
        sizes.push(samples.len());
    }
    assert_eq!(sizes, vec![1000, 2000, 2500]);
    assert_eq!(samples, sea_decode(&whole).samples);
    assert_eq!(decoder.frames_read, 2500);
}

#[test]
fn encoder_states_follow_the_stream() {
    let input = noise(2, 250);
    let settings = EncoderSettings { frames_per_chunk: 100, ..EncoderSettings::default() };
    let mut encoder = SeaEncoder::from_slice(1, 8000, None, settings, &input).unwrap();
    assert_eq!(encoder.state, SeaEncoderState::Start);
    let mut out = Vec::new();
    assert_eq!(encoder.encode_frame(&mut out), Ok(true));
    assert_eq!(encoder.state, SeaEncoderState::WritingFrames);
    let chunk_size = u16::from_le_bytes([out[6], out[7]]) as usize;
    assert_eq!(out.len(), 22 + chunk_size);
    assert_eq!(encoder.file.header.chunk_size as usize, chunk_size);
    // Without a stated total the header states none.
    assert_eq!(&out[14..18], &[0, 0, 0, 0]);
    assert_eq!(encoder.encode_frame(&mut out), Ok(true));
    assert_eq!(out.len(), 22 + 2 * chunk_size);
    assert_eq!(encoder.encode_frame(&mut out), Ok(false));
    assert_eq!(encoder.state, SeaEncoderState::Finished);
    assert!(out.len() < 22 + 3 * chunk_size);
    let len = out.len();
    assert_eq!(encoder.encode_frame(&mut out), Err(SeaError::EncoderClosed));
    assert_eq!(out.len(), len);
}

#[test]
fn finalized_encoder_is_closed() {
    let input = noise(2, 250);
    let mut encoder =
        SeaEncoder::from_slice(1, 8000, None, EncoderSettings::default(), &input).unwrap();
    assert_eq!(encoder.finalize(), Ok(()));
    assert_eq!(encoder.state, SeaEncoderState::Finished);
    let mut out = Vec::new();
    assert_eq!(encoder.encode_frame(&mut out), Err(SeaError::EncoderClosed));
    assert!(out.is_empty());
}

#[test]
fn encoder_with_a_stated_total_stops_there() {
    let input = noise(4, 1000);
    let settings = EncoderSettings { frames_per_chunk: 100, ..EncoderSettings::default() };
    let mut encoder = SeaEncoder::from_slice(1, 8000, Some(250), settings, &input).unwrap();
    let mut out = Vec::new();
    assert_eq!(encoder.encode_frame(&mut out), Ok(true));
    assert_eq!(encoder.encode_frame(&mut out), Ok(true));
    assert_eq!(encoder.encode_frame(&mut out), Ok(false));
    assert_eq!(encoder.written_frames, 250);
    assert_eq!(encoder.data.len(), 750);
    assert_eq!(sea_decode(&out).samples.len(), 250);
}

#[test]
fn encoder_with_a_total_of_nothing_writes_its_header_first() {
    let input = noise(4, 150);
    let settings = EncoderSettings { frames_per_chunk: 100, ..EncoderSettings::default() };
    let mut encoder = SeaEncoder::from_slice(1, 8000, Some(0), settings, &input).unwrap();
    let mut out = Vec::new();
    assert_eq!(encoder.encode_frame(&mut out), Ok(true));
    // The header went out before the size of a chunk was known.
    assert_eq!(&out[6..8], &[0, 0]);
    assert_eq!(encoder.file.header.chunk_size as usize, out.len() - 22);
    assert_eq!(encoder.encode_frame(&mut out), Ok(false));
    assert_eq!(SeaDecoder::from_slice(&out).err(), Some(SeaError::InvalidFile));
    // An empty buffer gives the header alone.
    let mut encoder = SeaEncoder::from_slice(1, 8000, Some(0), settings, &[]).unwrap();
    let mut out = Vec::new();
    assert_eq!(encoder.encode_frame(&mut out), Ok(false));
    assert_eq!(out.len(), 22);
    assert_eq!(sea_encode(&[], 8000, 1, settings), out);
}

#[test]
fn samples_that_are_no_whole_frames_are_refused() {
    let input = noise(4, 203);
    let settings = EncoderSettings { frames_per_chunk: 50, ..EncoderSettings::default() };
    let mut encoder = SeaEncoder::from_slice(2, 8000, None, settings, &input).unwrap();
    let mut out = Vec::new();
    assert_eq!(encoder.encode_frame(&mut out), Ok(true));
    assert_eq!(encoder.encode_frame(&mut out), Ok(true));
    let len = out.len();
    assert_eq!(encoder.encode_frame(&mut out), Err(SeaError::EndOfFile));
    assert_eq!(out.len(), len);
    assert_eq!(encoder.data.len(), 3);
}

#[test]
fn encoder_refuses_settings_it_does_not_support() {
    let input = [0i16; 10];
    let bad = [
        EncoderSettings { scale_factor_bits: 7, ..EncoderSettings::default() },
        EncoderSettings { scale_factor_frames: 0, ..EncoderSettings::default() },
        EncoderSettings { residual_bits: 8500, ..EncoderSettings::default() },
        EncoderSettings { residual_bits: 500, ..EncoderSettings::default() },
        EncoderSettings { frames_per_chunk: 0, ..EncoderSettings::default() },
        EncoderSettings { residual_bits: 1800, vbr: true, ..EncoderSettings::default() },
        EncoderSettings { residual_bits: 7000, vbr: true, ..EncoderSettings::default() },
    ];
    for settings in bad {
        assert_eq!(
            SeaEncoder::from_slice(1, 8000, None, settings, &input).err(),
            Some(SeaError::InvalidSettings)
        );
    }
    assert_eq!(
        SeaEncoder::from_slice(0, 8000, None, EncoderSettings::default(), &input).err(),
        Some(SeaError::InvalidSettings)
    );
}

#[test]
fn chunk_that_is_too_large_for_the_header_is_refused() {
    // 65535 frames of eight bits do not fit the sixteen bits of the size.
    let input = vec![0i16; 65535];
    let settings = EncoderSettings {
        frames_per_chunk: 65535,
        residual_bits: 8000,
        scale_factor_bits: 2,
        scale_factor_frames: 255,
        vbr: false,
    };
    let mut encoder = SeaEncoder::from_slice(1, 8000, None, settings, &input).unwrap();
    let mut out = Vec::new();
    assert_eq!(encoder.encode_frame(&mut out), Err(SeaError::InvalidSettings));
    assert!(out.is_empty());
}

#[test]
fn last_chunk_that_is_larger_than_a_whole_one_is_refused() {
    // At 2.65 bits a sample a chunk of 5113 frames takes a byte more than
    // one of 5120: the last row, which is not full, gets the base width of
    // three bits.
    let input = vec![0i16; 5120 + 5113];
    let settings =
        EncoderSettings { residual_bits: 2650, vbr: true, ..EncoderSettings::default() };
    let mut encoder = SeaEncoder::from_slice(1, 8000, None, settings, &input).unwrap();
    let mut out = Vec::new();
    assert_eq!(encoder.encode_frame(&mut out), Ok(true));
    assert_eq!(out.len(), 22 + 1699);
    assert_eq!(encoder.encode_frame(&mut out), Err(SeaError::InvalidSettings));
    assert_eq!(out.len(), 22 + 1699);
}

#[test]
fn stream_that_ends_inside_a_chunk_is_refused() {
    let input = noise(6, 600);
    let settings = EncoderSettings { frames_per_chunk: 200, ..EncoderSettings::default() };
    let encoded = sea_encode(&input, 8000, 1, settings);
    let cut = &encoded[..encoded.len() - 10];
    let mut decoder = SeaDecoder::from_slice(cut).unwrap();
    let mut samples = Vec::new();
    assert_eq!(decoder.decode_frame(&mut samples), Ok(true));
    assert_eq!(decoder.decode_frame(&mut samples), Ok(true));
    assert_eq!(decoder.decode_frame(&mut samples), Err(SeaError::EndOfFile));
    assert_eq!(samples.len(), 400);
    // A chunk whose head is damaged.
    let mut damaged = encoded.clone();
    damaged[22 + 2] = 0;
    let mut decoder = SeaDecoder::from_slice(&damaged).unwrap();
    let mut samples = Vec::new();
    assert_eq!(decoder.decode_frame(&mut samples), Err(SeaError::InvalidFile));
    assert!(samples.is_empty());
}

#[test]
fn every_width_and_scale_width_round_trips() {
    let input = sine(900, 8000.0, 300.0, 15000.0);
    for bits in 1u32..=8 {
        for scale_factor_bits in 2u8..=6 {
            let settings = EncoderSettings {
                scale_factor_bits,
                scale_factor_frames: 16,
                residual_bits: bits * 1000 + 500 * (bits < 8) as u32,
                frames_per_chunk: 400,
                vbr: false,
            };
            let encoded = sea_encode(&input, 8000, 3, settings);
            // The header states the scale, the chunk its residual width.
            assert_eq!(&encoded[18..22], &[6, 0, 0, 0]);
            assert_eq!(&encoded[22..28], format!("s{}f016", scale_factor_bits).as_bytes());
            assert_eq!(&encoded[28..31], &[1, bits as u8, 0x5A]);
            let info = sea_decode(&encoded);
            assert_eq!(info.samples.len(), 900);
            assert_eq!(info.channels, 3);
        }
    }
}

#[test]
fn whole_buffers_are_encoded_or_refused() {
    let input = noise(8, 700);
    let settings = EncoderSettings { frames_per_chunk: 300, ..EncoderSettings::default() };
    assert_eq!(try_sea_encode(&input, 8000, 1, settings), Ok(sea_encode(&input, 8000, 1, settings)));
    assert_eq!(try_sea_encode(&input, 8000, 0, settings), Err(SeaError::InvalidSettings));
    assert_eq!(try_sea_encode(&input, 8000, 256, settings), Err(SeaError::InvalidSettings));
    assert_eq!(
        try_sea_encode(&input, 8000, 1, EncoderSettings { scale_factor_bits: 0, ..settings }),
        Err(SeaError::InvalidSettings)
    );
    // 700 samples are 233 whole frames of three channels and one sample
    // more, which no chunk takes.
    let odd = try_sea_encode(&input, 8000, 3, settings).ok().unwrap();
    assert_eq!(u32::from_le_bytes([odd[14], odd[15], odd[16], odd[17]]), 233);
    assert_eq!(sea_decode(&odd).samples.len(), 699);
    let vbr = EncoderSettings { residual_bits: 2650, vbr: true, ..EncoderSettings::default() };
    assert_eq!(try_sea_encode(&vec![0i16; 5120 + 5113], 8000, 1, vbr), Err(SeaError::InvalidSettings));
    assert!(try_sea_encode(&vec![0i16; 5120 + 5000], 8000, 1, vbr).is_ok());
}

#[test]
fn whole_streams_are_decoded_or_refused() {
    let input = noise(8, 700);
    let settings = EncoderSettings { frames_per_chunk: 300, ..EncoderSettings::default() };
    let encoded = sea_encode(&input, 8000, 2, settings);
    let info = try_sea_decode(&encoded).ok().unwrap();
    assert_eq!(info.samples, sea_decode(&encoded).samples);
    assert_eq!(info.sample_rate, 8000);
    assert_eq!(info.channels, 2);
    assert_eq!(try_sea_decode(b"XEAC").err(), Some(SeaError::InvalidFile));
    assert_eq!(try_sea_decode(b"").err(), Some(SeaError::EndOfFile));
    assert_eq!(try_sea_decode(&encoded[..encoded.len() - 1]).err(), Some(SeaError::EndOfFile));
    let mut damaged = encoded.clone();
    damaged[22] = 9;
    assert_eq!(try_sea_decode(&damaged).err(), Some(SeaError::InvalidFile));
    // A header alone is a stream without chunks.
    assert_eq!(try_sea_decode(&encoded[..22]).ok().unwrap().samples, Vec::<i16>::new());
}

#[test]
fn decoder_reads_on_from_a_cursor() {
    let input = noise(12, 500);
    let encoded = sea_encode(&input, 8000, 1, EncoderSettings::default());
    let mut with_front = vec![1u8, 2, 3];
    with_front.extend_from_slice(&encoded);
    let mut cursor = Cursor::from_slice(&with_front);
    let mut front = [0u8; 3];
    cursor.read_exact(&mut front).unwrap();
    let mut decoder = SeaDecoder::from_reader(cursor).unwrap();
    let mut samples = Vec::new();
    assert_eq!(decoder.decode_frame(&mut samples), Ok(true));
    assert_eq!(samples, sea_decode(&encoded).samples);
    assert_eq!(decoder.get_header().total_frames, 500);
}

#[test]
fn short_last_chunk_is_decoded_without_a_stated_total() {
    // Twenty samples, and no total: the one chunk is a short one.
    let input = vec![0i16; 20];
    let mut encoder =
        SeaEncoder::from_slice(1, 8000, None, EncoderSettings::default(), &input).unwrap();
    let mut stream = Vec::new();
    assert_eq!(encoder.encode_frame(&mut stream), Ok(false));
    let mut decoder = SeaDecoder::from_slice(&stream).unwrap();
    let mut samples = Vec::new();
    assert_eq!(decoder.decode_frame(&mut samples), Ok(true));
    // 20 residuals of three bits fill eight bytes, which hold 21.
    assert_eq!(samples.len(), 21);
    let stated = sea_decode(&sea_encode(&input, 8000, 1, EncoderSettings::default())).samples;
    assert_eq!(samples[..20], stated[..]);
    assert_eq!(decoder.decode_frame(&mut samples), Ok(false));
    assert_eq!(try_sea_decode(&stream).ok().unwrap().samples.len(), 21);

    // Two whole chunks and a short one, of two channels.
    let input = noise(21, 2 * (300 + 300 + 130));
    let settings = EncoderSettings { frames_per_chunk: 300, ..EncoderSettings::default() };
    let mut encoder = SeaEncoder::from_slice(2, 8000, None, settings, &input).unwrap();
    let mut stream = Vec::new();
    while encoder.encode_frame(&mut stream).unwrap() {}
    let stated = sea_decode(&sea_encode(&input, 8000, 2, settings)).samples;
    assert_eq!(stated.len(), input.len());
    let decoded = sea_decode(&stream).samples;
    assert!(decoded.len() >= input.len());
    assert!(decoded.len() < input.len() + 2 * 3);
    assert_eq!(decoded[..input.len()], stated[..]);

    // The same at a variable bitrate.
    let input = noise(24, 1000 + 1000 + 333);
    let settings = EncoderSettings {
        frames_per_chunk: 1000,
        residual_bits: 4100,
        vbr: true,
        ..EncoderSettings::default()
    };
    let mut encoder = SeaEncoder::from_slice(1, 8000, None, settings, &input).unwrap();
    let mut stream = Vec::new();
    while encoder.encode_frame(&mut stream).unwrap() {}
    let stated = sea_decode(&sea_encode(&input, 8000, 1, settings)).samples;
    let decoded = sea_decode(&stream).samples;
    assert!(decoded.len() >= input.len());
    assert!(decoded.len() < input.len() + 8);
    assert_eq!(decoded[..input.len()], stated[..]);
}

#[test]
fn short_last_chunk_decodes_on_its_own() {
    let input = noise(22, 400 + 400 + 170);
    let settings = EncoderSettings {
        frames_per_chunk: 400,
        residual_bits: 4000,
        ..EncoderSettings::default()
    };
    let encoded = sea_encode(&input, 48000, 1, settings);
    let whole = sea_decode(&encoded).samples;
    let (head, chunks) = chunks_of(&encoded);
    assert_eq!(chunks.len(), 3);
    // The header of the stream, as it is, and the last chunk alone.
    let mut alone = head.clone();
    alone.extend_from_slice(&chunks[2]);
    let samples = sea_decode(&alone).samples;
    assert_eq!(samples.len(), 170);
    assert_eq!(samples[..], whole[800..]);
}

#[test]
fn failed_call_hands_out_nothing() {
    // Three samples are no whole frames of two channels; the header, which
    // a stated total of nothing sends ahead of the first chunk, stays back.
    let input = [1i16, 2, 3];
    let mut encoder =
        SeaEncoder::from_slice(2, 8000, Some(0), EncoderSettings::default(), &input).unwrap();
    let mut out = Vec::new();
    assert_eq!(encoder.encode_frame(&mut out), Err(SeaError::EndOfFile));
    assert!(out.is_empty());
    assert_eq!(encoder.state, SeaEncoderState::Start);
    assert_eq!(encoder.data.len(), 3);
    // A chunk that the stream cannot take leaves the encoder where it was.
    let input = vec![0i16; 5120 + 5113];
    let settings =
        EncoderSettings { residual_bits: 2650, vbr: true, ..EncoderSettings::default() };
    let mut encoder = SeaEncoder::from_slice(1, 8000, None, settings, &input).unwrap();
    let mut out = Vec::new();
    assert_eq!(encoder.encode_frame(&mut out), Ok(true));
    let len = out.len();
    assert_eq!(encoder.encode_frame(&mut out), Err(SeaError::InvalidSettings));
    assert_eq!(encoder.encode_frame(&mut out), Err(SeaError::InvalidSettings));
    assert_eq!(out.len(), len);
    assert_eq!(encoder.data.len(), 5113);
    assert_eq!(encoder.state, SeaEncoderState::WritingFrames);
}

#[test]
fn header_announces_its_metadata() {
    let input = noise(23, 50);
    let encoded = sea_encode(&input, 8000, 1, EncoderSettings::default());
    assert_eq!(SeaFileHeader::metadata_len(&encoded[..22]), Ok(0));
    assert_eq!(SeaFileHeader::metadata_len(&encoded[..21]), Err(SeaError::EndOfFile));
    assert_eq!(SeaFileHeader::metadata_len(&encoded[..3]), Err(SeaError::EndOfFile));
    assert_eq!(SeaFileHeader::metadata_len(b"XEAC"), Err(SeaError::InvalidFile));
    let mut with_text = encoded[..22].to_vec();
    with_text[18] = 0x05;
    with_text[19] = 0x01;
    assert_eq!(SeaFileHeader::metadata_len(&with_text), Ok(261));
    let decoder = SeaDecoder::from_slice(&encoded).unwrap();
    assert_eq!(decoder.bytes_wanted(), decoder.get_header().chunk_size as usize);
    let mut decoder = decoder;
    let mut samples = Vec::new();
    assert_eq!(decoder.decode_frame(&mut samples), Ok(true));
    assert_eq!(decoder.bytes_wanted(), 0);
}

#[test]
fn stream_of_another_scale_states_it_in_the_header() {
    let input = noise(21, 1000);
    let settings = EncoderSettings {
        scale_factor_bits: 5,
        scale_factor_frames: 8,
        frames_per_chunk: 400,
        ..EncoderSettings::default()
    };
    let encoded = sea_encode(&input, 8000, 1, settings);
    assert_eq!(&encoded[18..22], &[6, 0, 0, 0]);
    assert_eq!(&encoded[22..28], b"s5f008");
    // A chunk of 400 frames: the head, the predictor, 50 scale indices of
    // five bits, and 400 residuals of three.
    let chunk_size = u16::from_le_bytes([encoded[6], encoded[7]]) as usize;
    assert_eq!(chunk_size, 3 + 16 + 32 + 150);
    assert_eq!(encoded.len(), 28 + 2 * 201 + (3 + 16 + 16 + 75));
    let decoder = SeaDecoder::from_slice(&encoded).unwrap();
    assert_eq!(decoder.get_header().metadata, "s5f008");
    assert_eq!(decoder.get_header().scale(), (5, 8));
    let info = sea_decode(&encoded);
    assert_eq!(info.samples.len(), 1000);
    // Under the default scale the stream has no metadata.
    let plain = sea_encode(&input, 8000, 1, EncoderSettings::default());
    assert_eq!(&plain[18..22], &[0, 0, 0, 0]);
    assert_eq!(&plain[22..25], &[1, 3, 0x5A]);
}
