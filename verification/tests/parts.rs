use sea_codec::codec::bits::{pack_fields, unpack_fields, BitReader, BitWriter};
use sea_codec::codec::chunk::{SeaChunk, SeaChunkType};
use sea_codec::codec::common::{
    clamp_i16, i16_from_le_bytes, push_i16_le, push_u16_le, push_u32_be, push_u32_le,
    read_max_or_zero, read_u16_le, read_u32_be, read_u32_le, read_u8, SeaError, SEAC_MAGIC,
};
use sea_codec::codec::dqt::SeaDequantTab;
use sea_codec::codec::encoder_base::{encode_slice, EncoderBase};
use sea_codec::codec::encoder_cbr::CbrEncoder;
use sea_codec::codec::encoder_vbr::VbrEncoder;
use sea_codec::codec::file::{scale_metadata, SeaFile, SeaFileHeader};
use sea_codec::codec::lms::SeaLMS;
use sea_codec::codec::vbr_budget::{base_width_of, VbrTarget};
use sea_codec::cursor::Cursor;
use sea_codec::encoder::EncoderSettings;
use sea_codec::resample::resample;

fn header(channels: u8, chunk_size: u16, metadata: &str) -> SeaFileHeader {
    SeaFileHeader {
        version: 1,
        channels,
        chunk_size,
        frames_per_chunk: 5120,
        sample_rate: 44100,
        total_frames: 8000,
        metadata: metadata.to_string(),
    }
}

#[test]
fn clamp_saturates_to_sixteen_bits() {
    assert_eq!(clamp_i16(0), 0);
    assert_eq!(clamp_i16(32767), 32767);
    assert_eq!(clamp_i16(32768), 32767);
    assert_eq!(clamp_i16(-32768), -32768);
    assert_eq!(clamp_i16(-32769), -32768);
    assert_eq!(clamp_i16(1_000_000), 32767);
    assert_eq!(clamp_i16(-1_000_000), -32768);
    assert_eq!(clamp_i16(-5), -5);
}

#[test]
fn integers_are_written_in_their_byte_order() {
    let mut out = Vec::new();
    push_u16_le(&mut out, 0x1234);
    push_u32_le(&mut out, 0xA1B2C3D4);
    push_u32_be(&mut out, 0xA1B2C3D4);
    push_i16_le(&mut out, -2);
    push_i16_le(&mut out, 258);
    assert_eq!(
        out,
        vec![0x34, 0x12, 0xD4, 0xC3, 0xB2, 0xA1, 0xA1, 0xB2, 0xC3, 0xD4, 0xFE, 0xFF, 0x02, 0x01]
    );
    assert_eq!(i16_from_le_bytes(0xFE, 0xFF), -2);
    assert_eq!(i16_from_le_bytes(0x02, 0x01), 258);
    assert_eq!(i16_from_le_bytes(0x00, 0x80), -32768);
    assert_eq!(i16_from_le_bytes(0xFF, 0x7F), 32767);
}

#[test]
fn integers_are_read_in_their_byte_order() {
    let bytes = [0x53u8, 0x45, 0x41, 0x43, 0x07, 0x34, 0x12, 0xD4, 0xC3, 0xB2, 0xA1, 0x09];
    let mut cursor = Cursor::from_slice(&bytes);
    assert_eq!(read_u32_be(&mut cursor), Ok(SEAC_MAGIC));
    assert_eq!(read_u8(&mut cursor), Ok(7));
    assert_eq!(read_u16_le(&mut cursor), Ok(0x1234));
    assert_eq!(read_u32_le(&mut cursor), Ok(0xA1B2C3D4));
    assert_eq!(cursor.remaining(), 1);
    assert_eq!(read_u16_le(&mut cursor), Err(SeaError::EndOfFile));
    assert_eq!(cursor.remaining(), 1);
    assert_eq!(read_u32_le(&mut cursor), Err(SeaError::EndOfFile));
    assert_eq!(read_u32_be(&mut cursor), Err(SeaError::EndOfFile));
    assert_eq!(read_u8(&mut cursor), Ok(9));
    assert_eq!(read_u8(&mut cursor), Err(SeaError::EndOfFile));
}

#[test]
fn cursor_reads_exactly_or_not_at_all() {
    let bytes = [1u8, 2, 3, 4, 5];
    let mut cursor = Cursor::from_slice(&bytes);
    let mut two = [0u8; 2];
    assert_eq!(cursor.read_exact(&mut two), Ok(()));
    assert_eq!(two, [1, 2]);
    let mut four = [9u8; 4];
    assert_eq!(cursor.read_exact(&mut four), Err(SeaError::EndOfFile));
    assert_eq!(four, [9, 9, 9, 9]);
    assert_eq!(cursor.remaining(), 3);
    assert_eq!(cursor.read(&mut four), Ok(3));
    assert_eq!(four, [3, 4, 5, 9]);
    assert_eq!(cursor.read(&mut four), Ok(0));
    let mut none = [0u8; 0];
    assert_eq!(cursor.read_exact(&mut none), Ok(()));
}

#[test]
fn cursor_reads_up_to_a_maximum() {
    let bytes = [1u8, 2, 3, 4, 5];
    let mut cursor = Cursor::from_slice(&bytes);
    assert_eq!(read_max_or_zero(&mut cursor, 3), Ok(vec![1, 2, 3]));
    assert_eq!(read_max_or_zero(&mut cursor, 3), Ok(vec![4, 5]));
    assert_eq!(read_max_or_zero(&mut cursor, 3), Ok(vec![]));
}

#[test]
fn bits_are_packed_most_significant_first() {
    let mut writer = BitWriter::new();
    writer.write(0b101, 3);
    writer.write(0b11, 2);
    assert_eq!(writer.finish(), vec![0b1011_1000]);

    let mut writer = BitWriter::new();
    writer.write(0xFF, 8);
    writer.write(0, 1);
    writer.write(1, 1);
    writer.write(0b1010_1010, 7);
    assert_eq!(writer.finish(), vec![0xFF, 0b0101_0101, 0b0000_0000]);

    let mut writer = BitWriter::new();
    writer.write(0b1111_0110, 4);
    writer.write_bit(true);
    writer.write(5, 0);
    assert_eq!(writer.finish(), vec![0b0110_1000]);

    assert_eq!(BitWriter::new().finish(), Vec::<u8>::new());
}

#[test]
fn bits_are_read_as_they_were_packed() {
    let bytes = [0b1011_1000u8, 0b0100_0001];
    let mut reader = BitReader::new(&bytes);
    assert_eq!(reader.read(3), Ok(0b101));
    assert_eq!(reader.read(2), Ok(0b11));
    assert_eq!(reader.read(0), Ok(0));
    assert_eq!(reader.read(8), Ok(0b0000_1000));
    assert_eq!(reader.read(4), Err(SeaError::EndOfFile));
    assert_eq!(reader.read(3), Ok(0b001));
    assert_eq!(reader.read(1), Err(SeaError::EndOfFile));
}

#[test]
fn fields_survive_packing() {
    let values = vec![1u8, 0, 7, 255, 3, 2, 1, 0, 100];
    let widths = vec![1u8, 1, 3, 8, 2, 2, 1, 5, 7];
    let bytes = pack_fields(&values, &widths);
    assert_eq!(bytes.len(), 4);
    assert_eq!(bytes, vec![0b1011_1111, 0b1111_1111, 0b0100_0001, 0b1001_0000]);
    assert_eq!(unpack_fields(&bytes, &widths), Ok(values));
    assert_eq!(unpack_fields(&bytes[..3], &widths), Err(SeaError::EndOfFile));
    // Only the low bits of a value go into its field.
    let bytes = pack_fields(&vec![0xFF, 0x0F], &vec![2, 3]);
    assert_eq!(bytes, vec![0b1111_1000]);
}

#[test]
fn predictor_predicts_the_weighted_sum_shifted() {
    let lms = SeaLMS {
        history: [1000, 2000, -3000, 4000],
        weights: [8192, -4096, 2048, 16384],
    };
    assert_eq!(lms.predict(), 7250);
    let lms = SeaLMS { history: [-1, -1, -1, -1], weights: [-8192; 4] };
    assert_eq!(lms.predict(), 4);
    // The shift rounds down, also below zero.
    let lms = SeaLMS { history: [1, 0, 0, 0], weights: [-1, 0, 0, 0] };
    assert_eq!(lms.predict(), -1);
    let lms = SeaLMS { history: [-32768; 4], weights: [-32768; 4] };
    assert_eq!(lms.predict(), 524288);
    let lms = SeaLMS { history: [-32768; 4], weights: [32767; 4] };
    assert_eq!(lms.predict(), -524272);
    assert_eq!(SeaLMS::new().predict(), 0);
}

#[test]
fn predictor_moves_its_weights_and_history() {
    let mut lms = SeaLMS {
        history: [1000, 2000, -3000, 4000],
        weights: [8192, -4096, 2048, 16384],
    };
    lms.update(-100, 77);
    assert_eq!(lms.history, [2000, -3000, 4000, 77]);
    assert_eq!(lms.weights, [8186, -4102, 2054, 16378]);
    lms.update(50000, -5);
    assert_eq!(lms.history, [-3000, 4000, 77, -5]);
    assert_eq!(lms.weights, [11311, -7227, 5179, 19503]);
    // A residual below 16 in size moves nothing.
    lms.update(15, 1);
    assert_eq!(lms.weights, [11311, -7227, 5179, 19503]);
    // The weights stay in 16 bits.
    let mut lms = SeaLMS { history: [5, 5, -5, -5], weights: [32767, -32768, 32767, -32768] };
    lms.update(32000, 1);
    assert_eq!(lms.weights, [32767, -30768, 30767, -32768]);
    assert_eq!(lms.history, [5, -5, -5, 1]);
}

#[test]
fn predictor_is_stored_in_sixteen_bytes() {
    let lms = SeaLMS { history: [1, -2, 258, -32768], weights: [32767, 0, -1, 4096] };
    let mut out = vec![0xAA];
    lms.serialize(&mut out);
    assert_eq!(
        out,
        vec![
            0xAA, 0x01, 0x00, 0xFE, 0xFF, 0x02, 0x01, 0x00, 0x80, 0xFF, 0x7F, 0x00, 0x00, 0xFF,
            0xFF, 0x00, 0x10
        ]
    );
    assert_eq!(SeaLMS::from_bytes(&out, 1), lms);
    let zeroed = SeaLMS::init(3);
    assert_eq!(zeroed.len(), 3);
    assert_eq!(zeroed[2], SeaLMS { history: [0; 4], weights: [0; 4] });
}

#[test]
fn tables_hold_the_deltas_of_every_code() {
    let tab = SeaDequantTab::init(4);
    assert_eq!(tab.scale_factor_bits(), 4);
    let row = |w: u8, s: u8| -> Vec<i32> {
        (0..(1u16 << w)).map(|code| tab.delta(w, s, code as u8)).collect()
    };
    assert_eq!(row(3, 0), vec![1, 3, 5, 7, -1, -3, -5, -7]);
    assert_eq!(row(3, 1), vec![5, 15, 27, 42, -5, -15, -27, -42]);
    assert_eq!(row(3, 15), vec![1536, 5120, 9216, 14336, -1536, -5120, -9216, -14336]);
    assert_eq!(row(2, 3), vec![48, 192, -48, -192]);
    assert_eq!(row(1, 0), vec![1, -1]);
    assert_eq!(row(1, 15), vec![4096, -4096]);
    assert_eq!(
        row(4, 7),
        vec![
            228, 760, 1368, 1976, 2584, 3192, 3800, 4560, -228, -760, -1368, -1976, -2584,
            -3192, -3800, -4560
        ]
    );
    assert_eq!(tab.delta(5, 9, 0), 237);
    assert_eq!(tab.delta(5, 9, 4), 2686);
    assert_eq!(tab.delta(5, 9, 15), 9796);
    assert_eq!(tab.delta(5, 9, 16), -237);
    assert_eq!(tab.delta(8, 15, 127), 32640);
    assert_eq!(tab.delta(8, 15, 255), -32640);
    let recips: Vec<i32> = (0..6).map(|s| tab.reciprocal_of(3, s)).collect();
    assert_eq!(recips, vec![65536, 10922, 3276, 1456, 789, 474]);
    assert_eq!(tab.reciprocal_of(8, 15), 512);
    assert_eq!(tab.reciprocal_of(1, 15), 16);
}

#[test]
fn tables_of_every_scale_width_end_at_the_same_step() {
    for sfb in 2u8..=6 {
        let tab = SeaDequantTab::init(sfb);
        let last = (1u8 << sfb) - 1;
        assert_eq!(tab.delta(1, 0, 0), 1);
        assert_eq!(tab.delta(1, last, 0), 4096);
        assert_eq!(tab.delta(8, last, 127), 32640);
        assert_eq!(tab.reciprocal_of(8, last), 512);
    }
    // A width without tables leaves them empty.
    let tab = SeaDequantTab::init(0);
    assert_eq!(tab.scale_factor_bits(), 0);
}

#[test]
fn slice_is_encoded_at_the_scale_with_the_least_error() {
    let tab = SeaDequantTab::init(4);
    let samples = [100i16, -200, 300, 0, 50, 1000, -1000, 20000, -20000, 7];
    let lms = SeaLMS::new();
    let first = encode_slice(&lms, &tab, 3, &samples, 0, 1, 10);
    assert_eq!(first.scale, 15);
    assert_eq!(first.codes, vec![0, 4, 0, 0, 0, 0, 4, 3, 7, 5]);
    assert_eq!(first.error, 63831088);
    assert_eq!(first.lms.history, [-1393, 14373, -15537, 1410]);
    assert_eq!(first.lms.weights, [-224, 416, 1568, -1376]);
    // The caller's predictor is untouched.
    assert_eq!(lms, SeaLMS::new());
    let next = [5i16, 6, 7, 8];
    let second = encode_slice(&first.lms, &tab, 3, &next, 0, 1, 4);
    assert_eq!(second.scale, 9);
    assert_eq!(second.codes, vec![2, 1, 4, 0]);
    assert_eq!(second.error, 184326);
    assert_eq!(second.lms.history, [86, -124, 254, 324]);
    assert_eq!(second.lms.weights, [-243, 487, 1445, -1079]);
}

#[test]
fn slice_takes_every_other_sample_of_an_interleaved_buffer() {
    let tab = SeaDequantTab::init(4);
    let mono = [100i16, -200, 300, 0, 50];
    let mut stereo = Vec::new();
    for &x in mono.iter() {
        stereo.push(999);
        stereo.push(x);
    }
    let alone = encode_slice(&SeaLMS::new(), &tab, 3, &mono, 0, 1, 5);
    let strided = encode_slice(&SeaLMS::new(), &tab, 3, &stereo, 1, 2, 5);
    assert_eq!(alone.codes, strided.codes);
    assert_eq!(alone.scale, strided.scale);
    assert_eq!(alone.error, strided.error);
    assert_eq!(alone.lms, strided.lms);
    // Silence is met by the smallest step, which is the first to have the
    // least error.
    let silence = encode_slice(&SeaLMS::new(), &tab, 3, &[0i16; 20], 0, 1, 20);
    assert_eq!(silence.scale, 0);
    assert_eq!(silence.error, 20);
    let nothing = encode_slice(&SeaLMS::new(), &tab, 3, &[], 0, 1, 0);
    assert_eq!(nothing.scale, 0);
    assert_eq!(nothing.codes, Vec::<u8>::new());
    assert_eq!(nothing.error, 0);
}

#[test]
fn chunk_encoder_works_row_by_row() {
    let tab = SeaDequantTab::init(4);
    let mut base = EncoderBase::new(2, 4);
    // Three frames of two channels, slices of two frames: two rows.
    let samples = [100i16, -7, -200, 8, 300, -9];
    let widths = vec![3u8, 2, 3, 2];
    let rows = base.get_residuals_for_chunk(&tab, &samples, 2, &widths);
    assert_eq!(rows.scale_factors.len(), 4);
    assert_eq!(rows.errors.len(), 4);
    assert_eq!(rows.residuals.len(), 6);
    let left = encode_slice(&SeaLMS::new(), &tab, 3, &samples, 0, 2, 2);
    let right = encode_slice(&SeaLMS::new(), &tab, 2, &samples, 1, 2, 2);
    let left_more = encode_slice(&left.lms, &tab, 3, &samples, 4, 2, 1);
    let right_more = encode_slice(&right.lms, &tab, 2, &samples, 5, 2, 1);
    assert_eq!(
        rows.scale_factors,
        vec![left.scale, right.scale, left_more.scale, right_more.scale]
    );
    assert_eq!(rows.errors, vec![left.error, right.error, left_more.error, right_more.error]);
    assert_eq!(
        rows.residuals,
        vec![
            left.codes[0],
            right.codes[0],
            left.codes[1],
            right.codes[1],
            left_more.codes[0],
            right_more.codes[0]
        ]
    );
    assert_eq!(base.lms, vec![left_more.lms, right_more.lms]);
}

#[test]
fn distribution_splits_the_slices_over_four_widths() {
    let target = EncoderSettings { residual_bits: 3400, vbr: true, ..EncoderSettings::default() }
        .vbr_target()
        .unwrap();
    assert_eq!(target, VbrTarget { num: 314880000, den: 102400000 });
    assert_eq!(VbrEncoder::interpolate_distribution(256, target), (3, [58, 140, 38, 20]));
    assert_eq!(base_width_of(target), 3);
    // In the transition zone the base is rounded down.
    let target = VbrTarget { num: 34, den: 10 };
    assert_eq!(VbrEncoder::interpolate_distribution(1000, target), (3, [100, 525, 250, 125]));
    // A half is rounded up, and the share of the base is clamped to nothing.
    let target = VbrTarget { num: 5, den: 2 };
    assert_eq!(VbrEncoder::interpolate_distribution(1000, target), (3, [775, 0, 150, 75]));
    assert_eq!(VbrEncoder::interpolate_distribution(1, target), (3, [1, 0, 0, 0]));
    assert_eq!(VbrEncoder::interpolate_distribution(2, target), (3, [1, 1, 0, 0]));
    assert_eq!(VbrEncoder::interpolate_distribution(0, target), (3, [0, 0, 0, 0]));
    let target = VbrTarget { num: 42, den: 10 };
    assert_eq!(VbrEncoder::interpolate_distribution(7, target), (4, [1, 4, 1, 1]));
    assert_eq!(base_width_of(VbrTarget { num: 2, den: 1 }), 2);
    assert_eq!(base_width_of(VbrTarget { num: 6, den: 1 }), 6);
    assert_eq!(base_width_of(VbrTarget { num: 29, den: 10 }), 3);
    assert_eq!(base_width_of(VbrTarget { num: 23, den: 10 }), 2);
}

#[test]
fn distribution_of_a_thousand_slices_meets_the_target() {
    for n in [1000usize, 1001, 1234, 4096] {
        let mut k = 2000u64;
        while k <= 6000 {
            let target = VbrTarget { num: k, den: 1000 };
            let (base, counts) = VbrEncoder::interpolate_distribution(n, target);
            assert_eq!(counts.iter().sum::<usize>(), n);
            let sum: f64 = counts
                .iter()
                .enumerate()
                .map(|(i, c)| (base as f64 - 1.0 + i as f64) * *c as f64)
                .sum();
            let mean = sum / n as f64;
            assert!((mean - k as f64 / 1000.0).abs() <= 0.05, "n {} target {}", n, k);
            k += 7;
        }
    }
}

#[test]
fn target_is_valid_between_two_and_six_bits() {
    assert!(VbrTarget { num: 2, den: 1 }.is_valid());
    assert!(VbrTarget { num: 6, den: 1 }.is_valid());
    assert!(!VbrTarget { num: 19, den: 10 }.is_valid());
    assert!(!VbrTarget { num: 61, den: 10 }.is_valid());
    assert!(!VbrTarget { num: 3, den: 0 }.is_valid());
}

#[test]
fn widths_go_by_the_rising_order_of_error() {
    let file_header = header(1, 0, "");
    let settings = EncoderSettings {
        residual_bits: 4525,
        scale_factor_frames: 10,
        vbr: true,
        ..EncoderSettings::default()
    };
    // 4.525 - 0.025 - 0.6 = 3.9: base 4.
    let encoder = VbrEncoder::new(&file_header, &settings);
    assert_eq!(encoder.vbr_target_bitrate, settings.vbr_target());
    let target = settings.vbr_target().unwrap();
    let (base, counts) = VbrEncoder::interpolate_distribution(7, target);
    assert_eq!(base, 4);
    assert_eq!(counts, [3, 2, 1, 1]);
    // Seven full slices and one that is not full.
    let errors = vec![50u64, 10, 40, 10, 70, 0, 60, 5];
    let widths = encoder.choose_residual_len_from_errors(75, &errors);
    // Rising order: 5 (0), 1 (10), 3 (10), 2 (40), 0 (50), 6 (60), 4 (70).
    assert_eq!(widths, vec![4, 3, 4, 3, 6, 3, 5, 4]);
}

#[test]
fn settings_are_checked() {
    let good = EncoderSettings::default();
    assert_eq!(
        good,
        EncoderSettings {
            scale_factor_bits: 4,
            scale_factor_frames: 20,
            residual_bits: 3000,
            frames_per_chunk: 5120,
            vbr: false,
        }
    );
    assert!(good.is_valid());
    assert!(good.basic_valid());
    assert!(!EncoderSettings { scale_factor_bits: 1, ..good }.is_valid());
    assert!(!EncoderSettings { scale_factor_bits: 7, ..good }.is_valid());
    assert!(EncoderSettings { scale_factor_bits: 2, ..good }.is_valid());
    assert!(EncoderSettings { scale_factor_bits: 6, ..good }.is_valid());
    assert!(!EncoderSettings { scale_factor_frames: 0, ..good }.is_valid());
    assert!(!EncoderSettings { frames_per_chunk: 0, ..good }.is_valid());
    assert!(!EncoderSettings { residual_bits: 999, ..good }.is_valid());
    assert!(!EncoderSettings { residual_bits: 8001, ..good }.is_valid());
    assert!(EncoderSettings { residual_bits: 8000, ..good }.is_valid());
    assert!(EncoderSettings { residual_bits: 1000, ..good }.is_valid());
    // With a variable bitrate the target, less the overhead, counts.
    assert!(!EncoderSettings { residual_bits: 2300, vbr: true, ..good }.is_valid());
    assert!(EncoderSettings { residual_bits: 2325, vbr: true, ..good }.is_valid());
    assert!(EncoderSettings { residual_bits: 6325, vbr: true, ..good }.is_valid());
    assert!(!EncoderSettings { residual_bits: 6326, vbr: true, ..good }.is_valid());
    assert_eq!(EncoderSettings { residual_bits: 2300, vbr: true, ..good }.vbr_target(), None);
    assert_eq!(
        SeaFile::new(header(1, 0, ""), &EncoderSettings { scale_factor_bits: 9, ..good }).err(),
        Some(SeaError::InvalidSettings)
    );
    assert_eq!(SeaFile::new(header(0, 0, ""), &good).err(), Some(SeaError::InvalidSettings));
    assert!(SeaFile::new(header(2, 0, ""), &good).is_ok());
    // The header of a stream in the making states the scale of the settings.
    let coarse = EncoderSettings { scale_factor_bits: 3, scale_factor_frames: 100, ..good };
    assert_eq!(SeaFile::new(header(2, 0, ""), &coarse).err(), Some(SeaError::InvalidSettings));
    assert_eq!(SeaFile::new(header(2, 0, "s3f100"), &good).err(), Some(SeaError::InvalidSettings));
    assert!(SeaFile::new(header(2, 0, "s3f100"), &coarse).is_ok());
    assert!(SeaFile::new(header(2, 0, "s4f020"), &good).is_ok());
}

#[test]
fn header_is_laid_out_field_by_field() {
    let h = SeaFileHeader {
        version: 1,
        channels: 2,
        chunk_size: 0x0A94,
        frames_per_chunk: 5120,
        sample_rate: 44100,
        total_frames: 0x01020304,
        metadata: "hé".to_string(),
    };
    let bytes = h.serialize();
    assert_eq!(
        bytes,
        vec![
            0x53, 0x45, 0x41, 0x43, 1, 2, 0x94, 0x0A, 0x00, 0x14, 0x44, 0xAC, 0x00, 0x00, 0x04,
            0x03, 0x02, 0x01, 3, 0, 0, 0, b'h', 0xC3, 0xA9
        ]
    );
    let mut with_more = bytes.clone();
    with_more.extend_from_slice(&[7, 8, 9]);
    let mut cursor = Cursor::from_slice(&with_more);
    let back = SeaFileHeader::from_reader(&mut cursor).unwrap();
    assert_eq!(back.version, 1);
    assert_eq!(back.channels, 2);
    assert_eq!(back.chunk_size, 0x0A94);
    assert_eq!(back.frames_per_chunk, 5120);
    assert_eq!(back.sample_rate, 44100);
    assert_eq!(back.total_frames, 0x01020304);
    assert_eq!(back.metadata, "hé");
    assert_eq!(cursor.remaining(), 3);
    assert!(back.validate());
    let copy = back.duplicate();
    assert_eq!(copy.metadata, "hé");
    assert_eq!(copy.chunk_size, 0x0A94);
}

#[test]
fn header_is_refused_when_it_cannot_be_decoded() {
    let good = header(1, 100, "abc").serialize();
    let parse = |bytes: &[u8]| {
        let mut cursor = Cursor::from_slice(bytes);
        SeaFileHeader::from_reader(&mut cursor).map(|h| h.metadata)
    };
    assert_eq!(parse(&good), Ok("abc".to_string()));
    // Another magic word.
    let mut bad = good.clone();
    bad[0] = b'X';
    assert_eq!(parse(&bad), Err(SeaError::InvalidFile));
    assert_eq!(parse(b"XEAC"), Err(SeaError::InvalidFile));
    assert_eq!(parse(b"seac"), Err(SeaError::InvalidFile));
    // Too short.
    assert_eq!(parse(b"SEA"), Err(SeaError::EndOfFile));
    assert_eq!(parse(b""), Err(SeaError::EndOfFile));
    assert_eq!(parse(&good[..21]), Err(SeaError::EndOfFile));
    assert_eq!(parse(&good[..24]), Err(SeaError::EndOfFile));
    // Metadata that is no text.
    let mut bad = good.clone();
    bad[23] = 0xFF;
    assert_eq!(parse(&bad), Err(SeaError::InvalidFile));
    // Counts that must not be zero.
    assert_eq!(parse(&header(0, 100, "").serialize()), Err(SeaError::InvalidFile));
    assert_eq!(parse(&header(1, 15, "").serialize()), Err(SeaError::InvalidFile));
    assert!(parse(&header(1, 16, "").serialize()).is_ok());
    let mut no_frames = header(1, 100, "");
    no_frames.frames_per_chunk = 0;
    assert!(!no_frames.validate());
    assert_eq!(parse(&no_frames.serialize()), Err(SeaError::InvalidFile));
    let mut no_rate = header(1, 100, "");
    no_rate.sample_rate = 0;
    assert_eq!(parse(&no_rate.serialize()), Err(SeaError::InvalidFile));
    // After a failure the reader stands behind the last field that was
    // read whole.
    let left_after = |bytes: &[u8]| {
        let mut cursor = Cursor::from_slice(bytes);
        assert!(SeaFileHeader::from_reader(&mut cursor).is_err());
        cursor.remaining()
    };
    assert_eq!(left_after(b"SEA"), 3);
    assert_eq!(left_after(b"XEAC and more"), 9);
    assert_eq!(left_after(&good[..9]), 1);
    assert_eq!(left_after(&good[..21]), 3);
    assert_eq!(left_after(&good[..24]), 2);
    let mut bad = good.clone();
    bad[23] = 0xFF;
    bad.push(7);
    assert_eq!(left_after(&bad), 1);
}

#[test]
fn chunk_is_laid_out_block_by_block() {
    let tab = SeaDequantTab::init(2);
    let lms = vec![SeaLMS { history: [1, 2, 3, 4], weights: [5, 6, 7, -8] }];
    let chunk = SeaChunk::new(
        &header(1, 0, "s2f002"),
        &lms,
        SeaChunkType::Vbr,
        2,
        2,
        3,
        vec![3, 0, 1],
        vec![2, 5, 3],
        vec![0b11, 0b01, 0b10101, 0b00001, 0b111],
    );
    assert_eq!(chunk.frames, 5);
    assert_eq!(chunk.channels, 1);
    let bytes = chunk.serialize();
    assert_eq!(
        bytes,
        vec![
            2, 3, 0x5A, // head
            1, 0, 2, 0, 3, 0, 4, 0, 5, 0, 6, 0, 7, 0, 0xF8, 0xFF, // predictor
            0b1100_0100, // scale indices 3, 0, 1
            0b0011_0100, // width codes 0, 3, 1
            0b1101_1010, 0b1000_0111, 0b1000_0000, // residuals
        ]
    );
    let file_header = header(1, 0, "s2f002");
    let back = SeaChunk::from_slice(&bytes, &file_header, Some(5)).ok().unwrap();
    assert_eq!(back.chunk_type, SeaChunkType::Vbr);
    assert_eq!(back.scale_factor_bits, 2);
    assert_eq!(back.scale_factor_frames, 2);
    assert_eq!(back.residual_size, 3);
    assert_eq!(back.frames, 5);
    assert_eq!(back.lms, lms);
    assert_eq!(back.scale_factors, vec![3, 0, 1]);
    assert_eq!(back.vbr_residual_sizes, vec![2, 5, 3]);
    assert_eq!(back.residuals, vec![0b11, 0b01, 0b10101, 0b00001, 0b111]);
    let (samples, after) = back.decode(&tab);
    assert_eq!(samples.len(), 5);
    assert_eq!(after.len(), 1);
    // The first sample: the prediction (1*5 + 2*6 + 3*7 - 4*8) >> 13 = 0
    // plus the delta of code 3 of width 2 at the last of four scales.
    assert_eq!(samples[0] as i32, tab.delta(2, 3, 3));
    assert_eq!(after[0].history[3], samples[4] as i32);
}

#[test]
fn chunk_is_refused_when_it_holds_no_chunk() {
    let file_header = header(1, 0, "");
    let lms = vec![SeaLMS::new()];
    let good = SeaChunk::new(
        &file_header,
        &lms,
        SeaChunkType::Cbr,
        4,
        20,
        3,
        vec![5],
        vec![3],
        vec![1, 2, 3, 4],
    )
    .serialize();
    assert_eq!(good.len(), 3 + 16 + 1 + 2);
    let parse = |bytes: &[u8], frames: usize| {
        SeaChunk::from_slice(bytes, &file_header, Some(frames)).map(|c| c.residuals).map_err(|e| e)
    };
    assert_eq!(parse(&good, 4).ok(), Some(vec![1, 2, 3, 4]));
    assert_eq!(parse(&good[..2], 4).err(), Some(SeaError::EndOfFile));
    assert_eq!(parse(&good[..18], 4).err(), Some(SeaError::EndOfFile));
    assert_eq!(parse(&good[..19], 4).err(), Some(SeaError::EndOfFile));
    assert_eq!(parse(&good[..21], 4).err(), Some(SeaError::EndOfFile));
    // The bytes are a chunk of four frames, and of five, the fifth in what
    // is left of the last byte: of six expected frames five are read.
    assert_eq!(parse(&good, 6).ok(), Some(vec![1, 2, 3, 4, 0]));
    assert_eq!(parse(&good, 5).ok(), Some(vec![1, 2, 3, 4, 0]));
    // They hold the first three frames of a chunk of three, but are no such
    // chunk, nor one of fewer frames.
    assert_eq!(parse(&good, 3).ok(), Some(vec![1, 2, 3]));
    // Bytes that are no chunk of any number of frames hold none of eight.
    assert_eq!(parse(&good[..21], 8).err(), Some(SeaError::EndOfFile));
    for (at, value) in [(0usize, 0u8), (0, 3), (2, 0), (2, 0x5B), (1, 0), (1, 9), (1, 0x43)] {
        let mut bad = good.clone();
        bad[at] = value;
        assert_eq!(parse(&bad, 4).err(), Some(SeaError::InvalidFile), "byte {} as {}", at, value);
    }
    // With a variable bitrate the base width lies between 2 and 6.
    let mut bad = good.clone();
    bad[0] = 2;
    bad[1] = 1;
    assert_eq!(parse(&bad, 4).err(), Some(SeaError::InvalidFile));
    bad[1] = 7;
    assert_eq!(parse(&bad, 4).err(), Some(SeaError::InvalidFile));
}

#[test]
fn constant_bitrate_gives_every_slice_the_same_width() {
    let tab = SeaDequantTab::init(4);
    let settings = EncoderSettings { residual_bits: 5999, ..EncoderSettings::default() };
    let mut encoder = CbrEncoder::new(&header(2, 0, ""), &settings);
    assert_eq!(encoder.residual_size, 5);
    assert_eq!(encoder.get_lms(), &vec![SeaLMS::new(), SeaLMS::new()]);
    let samples: Vec<i16> = (0..100).map(|i| (i * 37 % 301 - 150) as i16).collect();
    let encoded = encoder.encode(&samples, &tab);
    assert_eq!(encoded.residual_bits, vec![5; 6]);
    assert_eq!(encoded.scale_factors.len(), 6);
    assert_eq!(encoded.residuals.len(), 100);
    assert!(encoded.residuals.iter().all(|r| *r < 32));
    assert!(encoded.scale_factors.iter().all(|s| *s < 16));
    assert_ne!(encoder.get_lms(), &vec![SeaLMS::new(), SeaLMS::new()]);
}

#[test]
fn resample_hands_the_samples_back() {
    assert_eq!(resample(&[1, -2, 3], 44100, 44100, 1), vec![1, -2, 3]);
    assert_eq!(resample(&[], 8000, 8000, 2), Vec::<i16>::new());
}

#[test]
fn header_states_the_scale_in_its_metadata() {
    assert_eq!(scale_metadata(4, 20), "");
    assert_eq!(scale_metadata(2, 2), "s2f002");
    assert_eq!(scale_metadata(6, 255), "s6f255");
    assert_eq!(scale_metadata(4, 21), "s4f021");
    assert_eq!(scale_metadata(5, 20), "s5f020");
    assert_eq!(scale_metadata(3, 100), "s3f100");
    assert_eq!(header(1, 0, "").scale(), (4, 20));
    assert_eq!(header(1, 0, "s2f002").scale(), (2, 2));
    assert_eq!(header(1, 0, "s6f255").scale(), (6, 255));
    assert_eq!(header(1, 0, "s3f100, and a title").scale(), (3, 100));
    // Metadata that states no scale the codec supports states none.
    for text in ["a title", "s4f02", "s1f020", "s7f020", "s4f000", "s4f256", "s4f999", "S4f020", "s4F020", "s4f0a0", " s4f020"]
    {
        assert_eq!(header(1, 0, text).scale(), (4, 20), "{:?}", text);
    }
    // Every scale is read back from the text that states it.
    for bits in 2u8..=6 {
        for frames in 1u8..=255 {
            let text = scale_metadata(bits, frames);
            assert_eq!(header(1, 0, &text).scale(), (bits, frames));
        }
    }
}

#[test]
fn same_bytes_are_another_chunk_under_another_scale() {
    let lms = vec![SeaLMS::new()];
    let fine = header(1, 0, "s4f002");
    let bytes = SeaChunk::new(
        &fine,
        &lms,
        SeaChunkType::Cbr,
        4,
        2,
        3,
        vec![5, 9],
        vec![3, 3],
        vec![1, 2, 3, 4],
    )
    .serialize();
    assert_eq!(bytes.len(), 3 + 16 + 1 + 2);
    let back = SeaChunk::from_slice(&bytes, &fine, Some(4)).ok().unwrap();
    assert_eq!(back.scale_factors, vec![5, 9]);
    assert_eq!(back.scale_factor_frames, 2);
    // Under a header that states no scale the four frames are one slice.
    let plain = SeaChunk::from_slice(&bytes, &header(1, 0, ""), Some(4)).ok().unwrap();
    assert_eq!(plain.scale_factors, vec![5]);
    assert_eq!(plain.scale_factor_frames, 20);
    assert_eq!(plain.scale_factor_bits, 4);
}
