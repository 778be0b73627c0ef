use crate::codec::chunk::{
    chunk_frames, head_of, lemma_held_frames, next_chunk_frames, read_chunk,
};
use crate::codec::common::SeaError;
use crate::codec::file::{
    encoder_chunk, encoder_input, lemma_header_round_trip, next_chunk_len, parse_header, patched_size, refusal,
    size_ok, HeaderView,
};
use crate::codec::lms::SeaLMS;
use crate::codec::size::{chunk_samples_ok, encoded_len, lemma_encoded_len};
use crate::decoder::{lemma_decoder_rest, DecoderModel};
use crate::encoder::{
    lemma_encoded_chunk_decodes, lemma_step_progress, EncoderModel, EncoderSettings,
    SeaEncoderState,
};
use crate::{
    decodable, decoder_stream, decoding_of, encodable, encoder_stream, encoding_of, whole_decoder,
    whole_encoder,
};
use vstd::prelude::*;

verus! {

/// The bytes of a whole stream are the bytes that the first call for a
/// chunk hands out, followed by the bytes of the stream from the encoder
/// that the call leaves: handing the chunks on one at a time gives the
/// bytes that encoding in one go gives.
pub proof fn lemma_encoder_stream_unfolds(m: EncoderModel)
    requires
        m.step().result == Ok::<bool, SeaError>(true),
    ensures
        encoder_stream(m).0 == m.step().emitted + encoder_stream(m.step().next).0,
        encoder_stream(m).1 == encoder_stream(m.step().next).1,
{
    lemma_step_progress(m);
}

/// The samples of a whole stream are the samples of its first chunk,
/// decoded from the header and the bytes of that chunk alone, followed by
/// the samples of the rest of the stream.
pub proof fn lemma_decoder_stream_unfolds(m: DecoderModel)
    requires
        m.header.valid(),
        m.step().result == Ok::<bool, SeaError>(true),
    ensures
        decoder_stream(m).0 == m.step().emitted + decoder_stream(m.step().next).0,
        decoder_stream(m).1 == decoder_stream(m.step().next).1,
        m.step().emitted == read_chunk(
            m.next_bytes(),
            m.header.channels as int,
            m.header.frames_per_chunk as int,
            m.remaining_frames(),
            m.header.scale_bits(),
            m.header.slice_frames(),
        )->Ok_0.samples(),
{
    reveal(DecoderModel::step);
}

/// Encoding the same samples with the same settings gives the same
/// result, and decoding the same bytes gives the same result, whatever the
/// samples, the settings and the bytes are: what two runs of `try_sea_encode`
/// return on the same arguments is the same stream or the same failure,
/// and what two runs of `try_sea_decode` return on two such streams are the
/// same samples, sample rate and channels.
pub proof fn lemma_round_trip_deterministic(
    input_samples: Seq<i16>,
    sample_rate: u32,
    channels: u32,
    settings: EncoderSettings,
    first: Result<Seq<u8>, SeaError>,
    second: Result<Seq<u8>, SeaError>,
)
    requires
        first == encoding_of(input_samples, sample_rate, channels, settings),
        second == encoding_of(input_samples, sample_rate, channels, settings),
    ensures
        first == second,
        first is Ok ==> decoding_of(first->Ok_0) == decoding_of(second->Ok_0),
        first is Ok <==> encodable(input_samples, sample_rate, channels, settings),
{
}

/// Two encoders with the same settings, as many channels and frames to a
/// chunk, the same predictors and the same samples in their buffers, which
/// take as many samples for their next chunk, make the same chunk of them
/// and agree again after the call, whatever totals their headers state:
/// handing on chunk by chunk gives the chunks that encoding in one go gives.
pub proof fn lemma_same_chunk_either_way(a: EncoderModel, b: EncoderModel)
    requires
        a.settings == b.settings,
        a.lms == b.lms,
        a.data == b.data,
        a.header.channels == b.header.channels,
        a.header.frames_per_chunk == b.header.frames_per_chunk,
        a.planned_samples() == b.planned_samples(),
        a.planned_samples() > 0,
        a.step().result is Ok,
        b.step().result is Ok,
    ensures
        a.step().result == b.step().result,
        a.step().next.lms == b.step().next.lms,
        a.step().next.data == b.step().next.data,
        a.step().emitted == a.early_bytes() + a.late_bytes() + encoder_chunk(
            a.settings,
            a.lms,
            a.next_samples(),
        ).bytes(),
        b.step().emitted == b.early_bytes() + b.late_bytes() + encoder_chunk(
            a.settings,
            a.lms,
            a.next_samples(),
        ).bytes(),
{
    reveal(EncoderModel::step);
}

/// The predictors that a chunk stores at its start are those that decoding
/// the chunk before it leaves: after a chunk is decoded the decoder's
/// predictors are where the encoder's were when it had made that chunk,
/// and there the encoder starts the next.
pub proof fn lemma_seed_follows_decoding(
    settings: EncoderSettings,
    lms: Seq<SeaLMS>,
    samples: Seq<i16>,
    following: Seq<i16>,
)
    requires
        settings.wf(),
        chunk_samples_ok(lms, samples),
    ensures
        encoder_chunk(
            settings,
            encoder_input(settings, lms, samples).lms_after(),
            following,
        ).lms == encoder_chunk(settings, lms, samples).lms_after(),
{
    lemma_encoded_chunk_decodes(settings, lms, samples, Seq::<u8>::empty());
}

/// Whether the chunks of `left` frames that are still to come fit the
/// stream: every whole chunk has a size that the header can state, and a
/// last chunk that is not whole is no larger than a whole one that came
/// before it.
pub open spec fn tail_fits(settings: EncoderSettings, channels: int, left: int, started: bool) -> bool
    decreases left,
{
    let per = settings.frames_per_chunk as int;
    if left <= 0 || per <= 0 {
        true
    } else if left >= per {
        encoded_len(settings, channels, per) <= 65535 && tail_fits(
            settings,
            channels,
            left - per,
            true,
        )
    } else {
        encoded_len(settings, channels, left) <= 65535 && (started ==> encoded_len(
            settings,
            channels,
            left,
        ) <= encoded_len(settings, channels, per))
    }
}

/// An encoder that was told the number of frames of its stream, has made
/// whole chunks only so far, and has the samples of the other frames in
/// its buffer.
#[verifier::opaque]
pub open spec fn on_track(m: EncoderModel) -> bool {
    let left = m.header.total_frames - m.written_frames;
    &&& m.wf()
    &&& m.header.channels <= 255
    &&& m.header.frames_per_chunk == m.settings.frames_per_chunk
    &&& m.header.total_frames > 0
    &&& m.passed_total_frames == Some(m.header.total_frames)
    &&& m.data.len() == left * m.header.channels
    &&& m.state != SeaEncoderState::Finished
    &&& m.state == SeaEncoderState::Start ==> m.header.chunk_size == 0
    &&& m.state == SeaEncoderState::WritingFrames ==> m.header.chunk_size == encoded_len(
        m.settings,
        m.header.channels as int,
        m.settings.frames_per_chunk as int,
    )
    &&& tail_fits(
        m.settings,
        m.header.channels as int,
        left,
        m.state == SeaEncoderState::WritingFrames,
    )
}

/// The samples that an encoder on track takes next are those of the
/// planned frames: a whole chunk, or what is left of the stream.
#[verifier::rlimit(40)]
proof fn lemma_planned(m: EncoderModel)
    requires
        on_track(m),
    ensures
        m.planned_frames() == if m.header.total_frames - m.written_frames
            < m.header.frames_per_chunk {
            m.header.total_frames - m.written_frames
        } else {
            m.header.frames_per_chunk as int
        },
        0 <= m.planned_frames() <= m.header.frames_per_chunk,
        m.planned_samples() == m.planned_frames() * m.header.channels,
        m.planned_samples() % (m.header.channels as int) == 0,
        m.planned_samples() / (m.header.channels as int) == m.planned_frames(),
        m.planned_frames() == 0 <==> m.planned_samples() == 0,
        m.next_is_whole() <==> m.planned_frames() == m.header.frames_per_chunk,
        m.next_samples().len() == m.planned_samples(),
        m.planned_samples() <= m.data.len(),
        m.planned_frames() > 0 ==> chunk_samples_ok(m.lms, m.next_samples()),
        m.header.total_frames > 0,
        0 <= m.written_frames <= m.header.total_frames,
        m.data.len() == (m.header.total_frames - m.written_frames) * m.header.channels,
        m.settings.wf(),
        m.lms.len() == m.header.channels,
        m.state != SeaEncoderState::Finished,
        m.header.frames_per_chunk >= 1,
        1 <= m.header.channels <= 255,
{
    reveal(on_track);
    let channels = m.header.channels as int;
    let per = m.header.frames_per_chunk as int;
    let left = m.header.total_frames - m.written_frames;
    let planned = m.planned_frames();
    assert(planned * channels <= left * channels && 0 <= planned * channels && (planned >= 1
        ==> planned * channels >= 1) && (planned == 0 ==> planned * channels == 0) && (planned
        * channels == per * channels <==> planned == per)) by (nonlinear_arith)
        requires
            0 <= planned <= left,
            1 <= channels,
    ;
    vstd::arithmetic::div_mod::lemma_fundamental_div_mod_converse(
        planned * channels,
        channels,
        planned,
        0,
    );
}

/// An encoder on track makes its next chunk, which has the size that the
/// settings and its number of frames fix.
#[verifier::rlimit(40)]
proof fn lemma_no_refusal(m: EncoderModel)
    requires
        on_track(m),
        m.planned_frames() > 0,
    ensures
        refusal(m.settings, m.header, m.lms, m.next_samples()) is None,
        encoder_chunk(m.settings, m.lms, m.next_samples()).bytes().len() == encoded_len(
            m.settings,
            m.header.channels as int,
            m.planned_frames(),
        ),
        patched_size(m.settings, m.header, m.lms, m.next_samples()) <= 65535,
        m.next_is_whole() ==> patched_size(m.settings, m.header, m.lms, m.next_samples())
            == encoded_len(
            m.settings,
            m.header.channels as int,
            m.settings.frames_per_chunk as int,
        ),
{
    reveal(on_track);
    lemma_planned(m);
    let samples = m.next_samples();
    assert(chunk_samples_ok(m.lms, samples));
    lemma_encoded_len(m.settings, m.lms, samples);
    assert(size_ok(m.settings, m.header, m.lms, samples));
}

/// The predictors after a chunk are 16-bit values, one for each channel.
proof fn lemma_after_chunk_wf(m: EncoderModel)
    requires
        m.settings.wf(),
        chunk_samples_ok(m.lms, m.next_samples()),
    ensures
        m.after_chunk().lms.len() == m.lms.len(),
        crate::codec::lms::all_wf(m.after_chunk().lms),
{
    let inp = crate::codec::file::encoder_input(m.settings, m.lms, m.next_samples());
    crate::codec::size::lemma_encoder_chunk_wf(m.settings, m.lms, m.next_samples());
    crate::codec::encoder_base::lemma_input_grid(inp);
    crate::codec::layout::lemma_rows_count(inp.grid());
    crate::codec::encoder_base::lemma_lms_before(inp, inp.grid().rows());
}

/// An encoder on track is on track after a whole chunk.
#[verifier::rlimit(40)]
proof fn lemma_next_on_track(m: EncoderModel)
    requires
        on_track(m),
        m.next_is_whole(),
    ensures
        on_track(m.after_chunk()),
        m.after_chunk().data.len() < m.data.len(),
        m.after_chunk().state == SeaEncoderState::WritingFrames,
        m.after_chunk().written_frames == m.written_frames + m.header.frames_per_chunk,
        m.after_chunk().header == m.patched_header(),
        m.state == SeaEncoderState::WritingFrames ==> m.after_chunk().header == m.header,
{
    lemma_planned(m);
    reveal(on_track);
    lemma_no_refusal(m);
    lemma_after_chunk_wf(m);
    let next = m.after_chunk();
    let channels = m.header.channels as int;
    let per = m.header.frames_per_chunk as int;
    let left = m.header.total_frames - m.written_frames;
    assert(next.written_frames == m.written_frames + per);
    assert(next.data.len() == (left - per) * channels && per * channels >= 1)
        by (nonlinear_arith)
        requires
            next.data.len() == left * channels - per * channels,
            per >= 1,
            channels >= 1,
    ;
    assert(next.header.chunk_size == encoded_len(m.settings, channels, per));
    assert(next.wf());
    assert(tail_fits(m.settings, channels, left - per, true));
}

/// A call for a chunk on an encoder on track does not fail, and leaves the
/// encoder on track where the chunk was a whole one.
#[verifier::rlimit(40)]
proof fn lemma_step_on_track(m: EncoderModel)
    requires
        on_track(m),
    ensures
        m.step().result is Ok,
        m.step().result == Ok::<bool, SeaError>(true) ==> on_track(m.step().next)
            && m.step().next.data.len() < m.data.len() && m.step().next == m.after_chunk()
            && m.next_is_whole(),
        m.planned_frames() > 0 ==> m.step().result == Ok::<bool, SeaError>(m.next_is_whole()),
{
    lemma_planned(m);
    if m.planned_frames() > 0 {
        lemma_no_refusal(m);
        if m.next_is_whole() {
            lemma_next_on_track(m);
        }
    }
    reveal(EncoderModel::step);
}

/// An encoder whose chunks fit the stream makes every chunk of it: no call
/// fails.
pub proof fn lemma_stream_is_made(m: EncoderModel)
    requires
        on_track(m),
    ensures
        encoder_stream(m).1 is None,
    decreases m.data.len(),
{
    lemma_step_on_track(m);
    if m.step().result == Ok::<bool, SeaError>(true) {
        lemma_stream_is_made(m.step().next);
    }
}

/// Whether the chunks of a stream of `frames` frames fit it: a whole chunk
/// and the last chunk have sizes that the header can state, and the last
/// chunk, where it is not whole and not the only one, is no larger than a
/// whole one.
pub open spec fn stream_fits(settings: EncoderSettings, channels: int, frames: int) -> bool {
    tail_fits(settings, channels, frames, false)
}

/// The chunks of a stream fit it where a whole chunk, if there is one, and
/// the last chunk, if it is not whole, have sizes that the header can
/// state, and that last chunk is no larger than a whole one that comes
/// before it.
pub proof fn lemma_stream_fits(settings: EncoderSettings, channels: int, frames: int)
    requires
        settings.wf(),
        0 <= frames,
        frames >= settings.frames_per_chunk ==> encoded_len(
            settings,
            channels,
            settings.frames_per_chunk as int,
        ) <= 65535,
        frames % (settings.frames_per_chunk as int) > 0 ==> encoded_len(
            settings,
            channels,
            frames % (settings.frames_per_chunk as int),
        ) <= 65535,
        frames >= settings.frames_per_chunk && frames % (settings.frames_per_chunk as int) > 0
            ==> encoded_len(settings, channels, frames % (settings.frames_per_chunk as int))
            <= encoded_len(settings, channels, settings.frames_per_chunk as int),
    ensures
        stream_fits(settings, channels, frames),
{
    lemma_tail_fits(settings, channels, frames, frames, false);
}

/// The same for what is left of a stream of `frames` frames after whole
/// chunks.
proof fn lemma_tail_fits(
    settings: EncoderSettings,
    channels: int,
    frames: int,
    left: int,
    started: bool,
)
    requires
        settings.wf(),
        0 <= left <= frames,
        left % (settings.frames_per_chunk as int) == frames % (settings.frames_per_chunk as int),
        started ==> frames >= settings.frames_per_chunk,
        frames >= settings.frames_per_chunk ==> encoded_len(
            settings,
            channels,
            settings.frames_per_chunk as int,
        ) <= 65535,
        frames % (settings.frames_per_chunk as int) > 0 ==> encoded_len(
            settings,
            channels,
            frames % (settings.frames_per_chunk as int),
        ) <= 65535,
        frames >= settings.frames_per_chunk && frames % (settings.frames_per_chunk as int) > 0
            ==> encoded_len(settings, channels, frames % (settings.frames_per_chunk as int))
            <= encoded_len(settings, channels, settings.frames_per_chunk as int),
    ensures
        tail_fits(settings, channels, left, started),
    decreases left,
{
    let per = settings.frames_per_chunk as int;
    if left > 0 {
        if left >= per {
            vstd::arithmetic::div_mod::lemma_mod_sub_multiples_vanish(left, per);
            lemma_tail_fits(settings, channels, frames, left - per, true);
        } else {
            vstd::arithmetic::div_mod::lemma_small_mod(left as nat, per as nat);
        }
    }
}

/// At a constant bitrate a chunk of fewer frames has no more bytes.
pub proof fn lemma_cbr_len_grows(settings: EncoderSettings, channels: int, few: int, many: int)
    requires
        !settings.vbr,
        settings.wf(),
        1 <= channels,
        0 <= few <= many,
    ensures
        encoded_len(settings, channels, few) <= encoded_len(settings, channels, many),
{
    let sf = settings.scale_factor_frames as int;
    let sfb = settings.scale_factor_bits as int;
    let w = settings.cbr_width();
    let a = crate::codec::layout::Grid { channels, slice_frames: sf, frames: few };
    let b = crate::codec::layout::Grid { channels, slice_frames: sf, frames: many };
    vstd::arithmetic::div_mod::lemma_div_is_ordered(few + sf - 1, many + sf - 1, sf);
    crate::codec::layout::lemma_rows_count(a);
    crate::codec::layout::lemma_rows_count(b);
    assert(a.slices() * sfb <= b.slices() * sfb && a.samples() * w <= b.samples() * w)
        by (nonlinear_arith)
        requires
            a.slices() == a.rows() * channels,
            b.slices() == b.rows() * channels,
            a.samples() == few * channels,
            b.samples() == many * channels,
            0 <= a.rows() <= b.rows(),
            0 <= few <= many,
            1 <= channels,
            0 <= sfb,
            0 <= w,
    ;
    vstd::arithmetic::div_mod::lemma_div_is_ordered(a.slices() * sfb + 7, b.slices() * sfb + 7, 8);
    vstd::arithmetic::div_mod::lemma_div_is_ordered(a.samples() * w + 7, b.samples() * w + 7, 8);
}

/// At a constant bitrate the chunks of a stream fit it as soon as a whole
/// chunk has a size that the header can state.
pub proof fn lemma_cbr_stream_fits(
    settings: EncoderSettings,
    channels: int,
    frames: int,
    started: bool,
)
    requires
        !settings.vbr,
        settings.wf(),
        1 <= channels,
        encoded_len(settings, channels, settings.frames_per_chunk as int) <= 65535,
    ensures
        tail_fits(settings, channels, frames, started),
        stream_fits(settings, channels, frames),
    decreases frames,
{
    let per = settings.frames_per_chunk as int;
    if frames > 0 {
        if frames >= per {
            lemma_cbr_stream_fits(settings, channels, frames - per, true);
            lemma_cbr_stream_fits(settings, channels, frames - per, false);
        } else {
            lemma_cbr_len_grows(settings, channels, frames, per);
        }
    }
    if started {
        lemma_cbr_stream_fits_again(settings, channels, frames);
    }
}

/// The same for a stream that has not started yet.
proof fn lemma_cbr_stream_fits_again(settings: EncoderSettings, channels: int, frames: int)
    requires
        !settings.vbr,
        settings.wf(),
        1 <= channels,
        encoded_len(settings, channels, settings.frames_per_chunk as int) <= 65535,
    ensures
        tail_fits(settings, channels, frames, false),
    decreases frames, 0int,
{
    let per = settings.frames_per_chunk as int;
    if frames > 0 {
        if frames >= per {
            lemma_cbr_stream_fits(settings, channels, frames - per, true);
        } else {
            lemma_cbr_len_grows(settings, channels, frames, per);
        }
    }
}

/// Samples that are whole frames of 1 to 255 channels, with supported
/// settings and chunks that fit the stream, can be encoded.
#[verifier::rlimit(40)]
pub proof fn lemma_encodable(
    input_samples: Seq<i16>,
    sample_rate: u32,
    channels: u32,
    settings: EncoderSettings,
)
    requires
        1 <= channels <= 255,
        settings.wf(),
        input_samples.len() <= u32::MAX,
        input_samples.len() % (channels as nat) == 0,
        stream_fits(settings, channels as int, input_samples.len() as int / channels as int),
    ensures
        encodable(input_samples, sample_rate, channels, settings),
{
    let m = whole_encoder(input_samples, sample_rate, channels, settings);
    let frames = input_samples.len() as int / channels as int;
    vstd::arithmetic::div_mod::lemma_fundamental_div_mod(
        input_samples.len() as int,
        channels as int,
    );
    assert(0 <= frames <= input_samples.len() && frames * channels == input_samples.len())
        by (nonlinear_arith)
        requires
            input_samples.len() == channels * frames,
            1 <= channels,
    ;
    crate::codec::file::lemma_header_text(
        settings.scale_factor_bits as int,
        settings.scale_factor_frames as int,
    );
    assert forall|i: int| 0 <= i < m.lms.len() implies (#[trigger] m.lms[i]).wf() by {}
    if frames == 0 {
        reveal(EncoderModel::step);
        assert(input_samples.len() == 0) by (nonlinear_arith)
            requires
                frames * channels == input_samples.len(),
                frames == 0,
        ;
        assert(m.data.len() == 0);
        assert(0 <= m.planned_frames() * m.header.channels) by (nonlinear_arith)
            requires
                0 <= m.planned_frames(),
                0 <= m.header.channels,
        ;
        assert(m.planned_samples() == 0);
    } else {
        lemma_whole_encoder_on_track(input_samples, sample_rate, channels, settings);
        lemma_stream_is_made(m);
    }
}

/// A decoder whose unread bytes begin with a chunk that an encoder made,
/// of as many frames as the decoder expects and with the scale that the
/// header states, decodes that chunk, whether or not the header states a
/// total: the call returns `true`, hands out the
/// samples of the chunk and leaves unread what follows it. The size of
/// chunk of the header must cut the chunk off neither too early nor too
/// late.
#[verifier::rlimit(40)]
pub proof fn lemma_decode_step(
    d: DecoderModel,
    settings: EncoderSettings,
    lms: Seq<SeaLMS>,
    samples: Seq<i16>,
    rest: Seq<u8>,
)
    requires
        settings.wf(),
        chunk_samples_ok(lms, samples),
        samples.len() > 0,
        d.header.valid(),
        d.header.channels == lms.len(),
        d.header.scale_bits() == settings.scale_factor_bits,
        d.header.slice_frames() == settings.scale_factor_frames,
        !d.complete(),
        0 <= d.frames_read,
        d.frames_read + samples.len() as int / lms.len() as int <= usize::MAX,
        samples.len() as int / lms.len() as int == chunk_frames(
            d.header.frames_per_chunk as int,
            d.remaining_frames(),
        ),
        d.left == encoder_chunk(settings, lms, samples).bytes() + rest,
        encoder_chunk(settings, lms, samples).bytes().len() <= d.header.chunk_size,
        rest.len() > 0 ==> encoder_chunk(settings, lms, samples).bytes().len()
            == d.header.chunk_size,
    ensures
        d.step().result == Ok::<bool, SeaError>(true),
        d.step().emitted == encoder_chunk(settings, lms, samples).samples(),
        d.step().emitted.len() == samples.len(),
        d.step().next.left == rest,
        d.step().next.header == d.header,
        d.step().next.frames_read == d.frames_read + samples.len() as int / lms.len() as int,
        d.step().next.left.len() < d.left.len(),
{
    reveal(DecoderModel::step);
    let c = encoder_chunk(settings, lms, samples);
    let bytes = c.bytes();
    let frames = samples.len() as int / lms.len() as int;
    lemma_encoded_chunk_decodes(settings, lms, samples, Seq::<u8>::empty());
    assert(bytes + Seq::<u8>::empty() =~= bytes);
    crate::codec::size::lemma_encoder_chunk_wf(settings, lms, samples);
    crate::codec::chunk::lemma_chunk_len(c);
    let cut = next_chunk_len(d.left, d.header.chunk_size as int);
    assert(cut == bytes.len());
    assert(d.left.take(cut) =~= bytes);
    assert(d.left.skip(cut) =~= rest);
    crate::codec::size::lemma_encoder_chunk_plain(settings, lms, samples);
    crate::codec::chunk::lemma_is_chunk(c);
    vstd::arithmetic::div_mod::lemma_fundamental_div_mod(samples.len() as int, lms.len() as int);
    assert(frames >= 1) by (nonlinear_arith)
        requires
            frames == samples.len() as int / lms.len() as int,
            samples.len() == lms.len() * (samples.len() as int / lms.len() as int) + samples.len()
                as int % lms.len() as int,
            samples.len() as int % lms.len() as int == 0,
            samples.len() > 0,
            lms.len() >= 1,
    ;
    lemma_held_frames(bytes, head_of(c), lms.len() as int, frames, frames);
    assert(next_chunk_frames(
        bytes,
        lms.len() as int,
        frames,
        settings.scale_factor_bits as int,
        settings.scale_factor_frames as int,
    ) == frames);
    vstd::arithmetic::div_mod::lemma_fundamental_div_mod(samples.len() as int, lms.len() as int);
    assert(c.samples().len() == samples.len());
}

/// A call for a chunk on an encoder on track that has written its header
/// hands out the chunk, which is no larger than the size of chunk of the
/// header, and as large where more follows; with no frame left it hands
/// out nothing.
#[verifier::rlimit(40)]
proof fn lemma_later_emission(m: EncoderModel)
    requires
        on_track(m),
        m.state == SeaEncoderState::WritingFrames,
    ensures
        m.planned_frames() == 0 ==> encoder_stream(m).0 == Seq::<u8>::empty(),
        m.planned_frames() > 0 ==> encoder_stream(m).0 == encoder_chunk(
            m.settings,
            m.lms,
            m.next_samples(),
        ).bytes() + if m.next_is_whole() {
            encoder_stream(m.step().next).0
        } else {
            Seq::<u8>::empty()
        },
        m.planned_frames() > 0 ==> encoder_chunk(m.settings, m.lms, m.next_samples()).bytes().len()
            <= m.header.chunk_size,
        m.planned_frames() > 0 && m.next_is_whole() ==> encoder_chunk(
            m.settings,
            m.lms,
            m.next_samples(),
        ).bytes().len() == m.header.chunk_size,
        m.planned_frames() > 0 ==> m.planned_frames() == m.next_samples().len() as int
            / m.lms.len() as int,
{
    lemma_planned(m);
    lemma_step_on_track(m);
    if m.planned_frames() > 0 {
        lemma_no_refusal(m);
        reveal(on_track);
        assert(tail_fits(
            m.settings,
            m.header.channels as int,
            m.header.total_frames - m.written_frames,
            true,
        ));
    }
    reveal(EncoderModel::step);
    let c = encoder_chunk(m.settings, m.lms, m.next_samples()).bytes();
    if m.planned_frames() > 0 {
        assert(m.step().emitted =~= c);
        if !m.next_is_whole() {
            assert(c + Seq::<u8>::empty() =~= c);
        }
    } else {
        assert(m.step().emitted =~= Seq::<u8>::empty());
    }
}

/// A decoder that reads the chunks of an encoder on track, after its first,
/// decodes them all: no call fails, and it hands out as many samples as the
/// encoder had in its buffer.
#[verifier::rlimit(40)]
proof fn lemma_rest_decodes(m: EncoderModel, d: DecoderModel)
    requires
        on_track(m),
        m.state == SeaEncoderState::WritingFrames,
        d.header == m.header,
        d.header.valid(),
        d.frames_read == m.written_frames,
        d.left == encoder_stream(m).0,
    ensures
        decoder_stream(d).1 is None,
        decoder_stream(d).0.len() == m.data.len(),
    decreases m.data.len(),
{
    lemma_planned(m);
    lemma_step_on_track(m);
    let planned = m.planned_frames();
    if planned == 0 {
        lemma_later_emission(m);
        assert(d.complete());
        lemma_decoder_rest(d);
        assert(decoder_stream(d).0 =~= Seq::<i16>::empty() && decoder_stream(d).1 is None);
        assert(encoder_stream(m).0 =~= Seq::<u8>::empty());
        assert(m.data.len() == 0) by (nonlinear_arith)
            requires
                m.data.len() == (m.header.total_frames - m.written_frames) * m.header.channels,
                m.header.total_frames - m.written_frames == 0,
        ;
    } else {
        lemma_no_refusal(m);
        lemma_later_emission(m);
        let samples = m.next_samples();
        let c = encoder_chunk(m.settings, m.lms, samples);
        let next = m.step().next;
        let rest = if m.next_is_whole() {
            encoder_stream(next).0
        } else {
            Seq::<u8>::empty()
        };
        assert(m.wf()) by {
            reveal(on_track);
        }
        lemma_decode_step(d, m.settings, m.lms, samples, rest);
        let after = d.step().next;
        if m.next_is_whole() {
            lemma_next_on_track(m);
            lemma_rest_decodes(next, after);
            assert(decoder_stream(d).0 == d.step().emitted + decoder_stream(after).0);
            assert(next.data.len() + samples.len() == m.data.len());
        } else {
            assert(after.complete());
            lemma_decoder_rest(after);
            assert(decoder_stream(after).0 =~= Seq::<i16>::empty() && decoder_stream(
                after,
            ).1 is None);
            assert(decoder_stream(d).0 =~= d.step().emitted);
            assert(samples.len() == m.data.len()) by (nonlinear_arith)
                requires
                    samples.len() == planned * m.header.channels,
                    m.data.len() == (m.header.total_frames - m.written_frames)
                        * m.header.channels,
                    planned == m.header.total_frames - m.written_frames,
            ;
        }
    }
}

/// The first call for a chunk on an encoder on track hands out the header,
/// with the size of the chunk as the size of chunk, and the chunk.
#[verifier::rlimit(40)]
proof fn lemma_first_emission(m: EncoderModel)
    requires
        on_track(m),
        m.state == SeaEncoderState::Start,
        m.written_frames == 0,
    ensures
        m.planned_frames() > 0,
        m.step().emitted == m.patched_header().bytes() + encoder_chunk(
            m.settings,
            m.lms,
            m.next_samples(),
        ).bytes(),
        m.step().result == Ok::<bool, SeaError>(m.next_is_whole()),
        m.step().next.header == m.patched_header(),
        m.patched_header().chunk_size == encoder_chunk(
            m.settings,
            m.lms,
            m.next_samples(),
        ).bytes().len(),
        m.patched_header().chunk_size >= 19,
        m.step().next.state == if m.next_is_whole() {
            SeaEncoderState::WritingFrames
        } else {
            SeaEncoderState::Finished
        },
        m.step().next.written_frames == m.planned_frames(),
        m.step().next.data.len() + m.next_samples().len() == m.data.len(),
        encoder_stream(m).0 == m.step().emitted + if m.next_is_whole() {
            encoder_stream(m.step().next).0
        } else {
            Seq::<u8>::empty()
        },
        m.patched_header().valid() <==> m.header.sample_rate > 0,
        m.patched_header().total_frames == m.header.total_frames,
        m.patched_header().channels == m.header.channels,
        m.patched_header().frames_per_chunk == m.header.frames_per_chunk,
        m.patched_header().sample_rate == m.header.sample_rate,
        m.patched_header().metadata == m.header.metadata,
        vstd::utf8::encode_utf8(m.patched_header().metadata).len() <= u32::MAX,
        m.next_is_whole() ==> m.step().next == m.after_chunk(),
        m.next_samples().len() as int / m.lms.len() as int == m.planned_frames(),
        m.next_samples().len() == m.data.len() || m.next_is_whole(),
{
    lemma_planned(m);
    lemma_step_on_track(m);
    lemma_no_refusal(m);
    let samples = m.next_samples();
    let c = encoder_chunk(m.settings, m.lms, samples);
    crate::codec::size::lemma_encoder_chunk_wf(m.settings, m.lms, samples);
    crate::codec::chunk::lemma_chunk_len(c);
    reveal(on_track);
    reveal(EncoderModel::step);
    assert(m.step().emitted =~= m.patched_header().bytes() + c.bytes());
    if !m.next_is_whole() {
        assert(m.step().emitted + Seq::<u8>::empty() =~= m.step().emitted);
    }
}

/// The encoder that `sea_encode` starts from is on track where the samples
/// are whole frames and the chunks fit the stream.
#[verifier::rlimit(40)]
proof fn lemma_whole_encoder_on_track(
    input_samples: Seq<i16>,
    sample_rate: u32,
    channels: u32,
    settings: EncoderSettings,
)
    requires
        1 <= channels <= 255,
        settings.wf(),
        0 < input_samples.len() <= u32::MAX,
        input_samples.len() % (channels as nat) == 0,
        stream_fits(settings, channels as int, input_samples.len() as int / channels as int),
    ensures
        on_track(whole_encoder(input_samples, sample_rate, channels, settings)),
        whole_encoder(input_samples, sample_rate, channels, settings).header.total_frames
            == input_samples.len() as int / channels as int,
        whole_encoder(input_samples, sample_rate, channels, settings).state
            == SeaEncoderState::Start,
        whole_encoder(input_samples, sample_rate, channels, settings).written_frames == 0,
{
    let m = whole_encoder(input_samples, sample_rate, channels, settings);
    let frames = input_samples.len() as int / channels as int;
    vstd::arithmetic::div_mod::lemma_fundamental_div_mod(
        input_samples.len() as int,
        channels as int,
    );
    assert(1 <= frames <= input_samples.len() && frames * channels == input_samples.len())
        by (nonlinear_arith)
        requires
            input_samples.len() == channels * frames,
            1 <= channels,
            0 < input_samples.len(),
    ;
    crate::codec::file::lemma_header_text(
        settings.scale_factor_bits as int,
        settings.scale_factor_frames as int,
    );
    assert forall|i: int| 0 <= i < m.lms.len() implies (#[trigger] m.lms[i]).wf() by {}
    assert(m.wf());
    assert(tail_fits(settings, channels as int, frames, false));
    reveal(on_track);
}

/// The stream of an encoder on track that has written nothing yet, at a
/// sample rate above nothing, is decoded without a failure to as many
/// samples as the encoder has in its buffer, under the header of the
/// encoder with the size of the first chunk as the size of chunk.
#[verifier::rlimit(40)]
proof fn lemma_stream_decodes(m: EncoderModel)
    requires
        on_track(m),
        m.state == SeaEncoderState::Start,
        m.written_frames == 0,
        m.header.sample_rate > 0,
    ensures
        parse_header(encoder_stream(m).0) == Ok::<HeaderView, SeaError>(m.patched_header()),
        decoder_stream(whole_decoder(encoder_stream(m).0)).1 is None,
        decoder_stream(whole_decoder(encoder_stream(m).0)).0.len() == m.data.len(),
{
    lemma_stream_shape(m);
    let rest = if m.next_is_whole() {
        encoder_stream(m.step().next).0
    } else {
        Seq::<u8>::empty()
    };
    let body = encoder_chunk(m.settings, m.lms, m.next_samples()).bytes() + rest;
    lemma_whole_decoder(m.patched_header(), body);
    lemma_first_decode(m, whole_decoder(encoder_stream(m).0), rest);
}

/// The stream of an encoder on track that has written nothing yet is its
/// header, with the size of the first chunk as the size of chunk, the
/// first chunk, and the chunks that follow.
#[verifier::rlimit(40)]
proof fn lemma_stream_shape(m: EncoderModel)
    requires
        on_track(m),
        m.state == SeaEncoderState::Start,
        m.written_frames == 0,
        m.header.sample_rate > 0,
    ensures
        encoder_stream(m).0 == m.patched_header().bytes() + (encoder_chunk(
            m.settings,
            m.lms,
            m.next_samples(),
        ).bytes() + if m.next_is_whole() {
            encoder_stream(m.step().next).0
        } else {
            Seq::<u8>::empty()
        }),
        m.patched_header().valid(),
        vstd::utf8::encode_utf8(m.patched_header().metadata).len() <= u32::MAX,
{
    lemma_first_emission(m);
    let c = encoder_chunk(m.settings, m.lms, m.next_samples()).bytes();
    let h = m.patched_header().bytes();
    let rest = if m.next_is_whole() {
        encoder_stream(m.step().next).0
    } else {
        Seq::<u8>::empty()
    };
    assert((h + c) + rest =~= h + (c + rest));
}

/// The decoder of a stream that begins with a header that can be decoded
/// starts behind that header, with that header.
proof fn lemma_whole_decoder(header: HeaderView, body: Seq<u8>)
    requires
        header.valid(),
        vstd::utf8::encode_utf8(header.metadata).len() <= u32::MAX,
    ensures
        parse_header(header.bytes() + body) == Ok::<HeaderView, SeaError>(header),
        whole_decoder(header.bytes() + body) == (DecoderModel {
            header,
            left: body,
            frames_read: 0,
        }),
{
    lemma_header_round_trip(header, body);
    assert((header.bytes() + body).skip(header.bytes().len() as int) =~= body);
}

/// The decoder of the stream of an encoder on track decodes the first
/// chunk and then all others.
#[verifier::rlimit(40)]
proof fn lemma_first_decode(m: EncoderModel, d: DecoderModel, rest: Seq<u8>)
    requires
        on_track(m),
        m.state == SeaEncoderState::Start,
        m.written_frames == 0,
        m.header.sample_rate > 0,
        d.header == m.patched_header(),
        d.frames_read == 0,
        rest == if m.next_is_whole() {
            encoder_stream(m.step().next).0
        } else {
            Seq::<u8>::empty()
        },
        d.left == encoder_chunk(m.settings, m.lms, m.next_samples()).bytes() + rest,
    ensures
        decoder_stream(d).1 is None,
        decoder_stream(d).0.len() == m.data.len(),
{
    lemma_planned(m);
    lemma_first_emission(m);
    let samples = m.next_samples();
    let next = m.step().next;
    assert(m.wf()) by {
        reveal(on_track);
    }
    lemma_decode_step(d, m.settings, m.lms, samples, rest);
    let after = d.step().next;
    if m.next_is_whole() {
        lemma_next_on_track(m);
        lemma_rest_decodes(next, after);
        assert(decoder_stream(d).0 == d.step().emitted + decoder_stream(after).0);
    } else {
        assert(after.complete());
        lemma_decoder_rest(after);
        assert(decoder_stream(after).0 =~= Seq::<i16>::empty() && decoder_stream(after).1 is None);
        assert(decoder_stream(d).0 =~= d.step().emitted);
    }
}

/// What `sea_encode` makes of samples that it can encode, at a sample rate
/// above nothing, `sea_decode` can decode: the header that is read back
/// states the channels, the sample rate and the frames that went in, every
/// chunk is read back as it was made, and as many samples come out as went
/// in.
pub proof fn lemma_encoded_stream_decodes(
    input_samples: Seq<i16>,
    sample_rate: u32,
    channels: u32,
    settings: EncoderSettings,
)
    requires
        1 <= channels <= 255,
        settings.wf(),
        sample_rate > 0,
        0 < input_samples.len() <= u32::MAX,
        input_samples.len() % (channels as nat) == 0,
        stream_fits(settings, channels as int, input_samples.len() as int / channels as int),
    ensures
        decodable(
            encoder_stream(whole_encoder(input_samples, sample_rate, channels, settings)).0,
        ),
        parse_header(
            encoder_stream(whole_encoder(input_samples, sample_rate, channels, settings)).0,
        )->Ok_0.channels == channels,
        parse_header(
            encoder_stream(whole_encoder(input_samples, sample_rate, channels, settings)).0,
        )->Ok_0.sample_rate == sample_rate,
        parse_header(
            encoder_stream(whole_encoder(input_samples, sample_rate, channels, settings)).0,
        )->Ok_0.total_frames == input_samples.len() as int / channels as int,
        decoder_stream(
            whole_decoder(
                encoder_stream(whole_encoder(input_samples, sample_rate, channels, settings)).0,
            ),
        ).0.len() == input_samples.len(),
{
    let m = whole_encoder(input_samples, sample_rate, channels, settings);
    lemma_whole_encoder_on_track(input_samples, sample_rate, channels, settings);
    lemma_stream_decodes(m);
}

/// The number of bytes of the chunks of a stream of `frames` frames: for
/// every whole chunk and for a last chunk that is not whole, the bytes that
/// the settings and its frames fix.
pub open spec fn chunks_len(settings: EncoderSettings, channels: int, frames: int) -> int
    decreases frames,
{
    let per = settings.frames_per_chunk as int;
    if frames <= 0 || per <= 0 {
        0
    } else if frames >= per {
        encoded_len(settings, channels, per) + chunks_len(settings, channels, frames - per)
    } else {
        encoded_len(settings, channels, frames)
    }
}

/// The chunks that an encoder on track still makes have the bytes that the
/// frames still to come fix.
#[verifier::rlimit(40)]
proof fn lemma_rest_len(m: EncoderModel)
    requires
        on_track(m),
        m.state == SeaEncoderState::WritingFrames,
    ensures
        encoder_stream(m).0.len() == chunks_len(
            m.settings,
            m.header.channels as int,
            m.header.total_frames - m.written_frames,
        ),
    decreases m.data.len(),
{
    lemma_planned(m);
    lemma_later_emission(m);
    assert(m.header.frames_per_chunk == m.settings.frames_per_chunk) by {
        reveal(on_track);
    }
    if m.planned_frames() > 0 {
        lemma_no_refusal(m);
        if m.next_is_whole() {
            lemma_next_on_track(m);
            lemma_step_on_track(m);
            lemma_rest_len(m.step().next);
        }
    }
}

/// The stream of samples that are whole frames, with chunks that fit it,
/// has the 22 fixed bytes of the header, the text that states the scale of
/// the settings, and the bytes of its chunks: its length follows from the
/// settings, the number of channels and the number of frames alone.
#[verifier::rlimit(40)]
pub proof fn lemma_stream_len(
    input_samples: Seq<i16>,
    sample_rate: u32,
    channels: u32,
    settings: EncoderSettings,
)
    requires
        1 <= channels <= 255,
        settings.wf(),
        0 < input_samples.len() <= u32::MAX,
        input_samples.len() % (channels as nat) == 0,
        stream_fits(settings, channels as int, input_samples.len() as int / channels as int),
    ensures
        encoder_stream(whole_encoder(input_samples, sample_rate, channels, settings)).0.len() == 22
            + crate::codec::file::header_text(
            settings.scale_factor_bits as int,
            settings.scale_factor_frames as int,
        ).len() + chunks_len(
            settings,
            channels as int,
            input_samples.len() as int / channels as int,
        ),
{
    let m = whole_encoder(input_samples, sample_rate, channels, settings);
    lemma_whole_encoder_on_track(input_samples, sample_rate, channels, settings);
    lemma_planned(m);
    lemma_first_emission(m);
    lemma_no_refusal(m);
    let header = m.patched_header();
    crate::codec::file::lemma_header_bytes(header);
    crate::codec::file::lemma_header_text(
        settings.scale_factor_bits as int,
        settings.scale_factor_frames as int,
    );
    assert(header.bytes().len() == 22 + header.metadata.len());
    if m.next_is_whole() {
        lemma_next_on_track(m);
        lemma_rest_len(m.step().next);
    }
}

/// A decoder whose unread bytes are a short chunk that an encoder made,
/// of no more frames than the decoder expects, decodes that chunk, whether
/// or not the header states a total and wherever in the stream the decoder
/// was started: the call returns `true`, leaves no byte unread, and hands
/// out samples that begin with the samples of the chunk. At a variable
/// bitrate this is so where the first two blocks of the chunk that is read
/// end where those of the chunk that was made end.
#[verifier::rlimit(40)]
pub proof fn lemma_short_last_chunk_decodes(
    d: DecoderModel,
    settings: EncoderSettings,
    lms: Seq<SeaLMS>,
    samples: Seq<i16>,
)
    requires
        settings.wf(),
        chunk_samples_ok(lms, samples),
        samples.len() > 0,
        d.header.valid(),
        d.header.channels == lms.len(),
        d.header.scale_bits() == settings.scale_factor_bits,
        d.header.slice_frames() == settings.scale_factor_frames,
        !d.complete(),
        0 <= d.frames_read,
        samples.len() as int / lms.len() as int <= chunk_frames(
            d.header.frames_per_chunk as int,
            d.remaining_frames(),
        ),
        d.left == encoder_chunk(settings, lms, samples).bytes(),
        encoder_chunk(settings, lms, samples).bytes().len() <= d.header.chunk_size,
        settings.vbr ==> crate::codec::short_chunk::same_blocks(
            encoder_chunk(settings, lms, samples),
            crate::codec::chunk::held_frames(
                encoder_chunk(settings, lms, samples).bytes(),
                head_of(encoder_chunk(settings, lms, samples)),
                lms.len() as int,
                chunk_frames(d.header.frames_per_chunk as int, d.remaining_frames()),
            ),
        ),
    ensures
        d.step().result == Ok::<bool, SeaError>(true),
        d.step().next.left.len() == 0,
        samples.len() <= d.step().emitted.len(),
        d.step().emitted.take(samples.len() as int) == encoder_chunk(
            settings,
            lms,
            samples,
        ).samples(),
{
    let c = encoder_chunk(settings, lms, samples);
    crate::codec::size::lemma_encoder_chunk_wf(settings, lms, samples);
    crate::codec::chunk::lemma_chunk_len(c);
    crate::encoder::lemma_short_chunk_decodes(
        settings,
        lms,
        samples,
        chunk_frames(d.header.frames_per_chunk as int, d.remaining_frames()),
    );
    reveal(DecoderModel::step);
    let cut = next_chunk_len(d.left, d.header.chunk_size as int);
    assert(cut == d.left.len());
    assert(d.left.take(cut) =~= d.left);
    assert(d.left.skip(cut) =~= Seq::<u8>::empty());
}

/// The encoder that hands on chunk by chunk what `m` encodes in one go:
/// the same encoder, told no total of frames.
pub open spec fn untold(m: EncoderModel) -> EncoderModel {
    EncoderModel {
        header: HeaderView { total_frames: 0, ..m.header },
        passed_total_frames: None,
        ..m
    }
}

/// The bytes that an encoder hands out in its next `calls` calls.
pub open spec fn handed_on(m: EncoderModel, calls: nat) -> Seq<u8>
    decreases calls,
{
    if calls == 0 {
        Seq::empty()
    } else {
        m.step().emitted + handed_on(m.step().next, (calls - 1) as nat)
    }
}

/// The samples that a decoder hands out in its next `calls` calls.
pub open spec fn handed_out(d: DecoderModel, calls: nat) -> Seq<i16>
    decreases calls,
{
    if calls == 0 {
        Seq::empty()
    } else {
        d.step().emitted + handed_out(d.step().next, (calls - 1) as nat)
    }
}

/// A call of a decoder reads the next chunk and nothing behind it: two
/// decoders with the same header that have handed out as many frames and
/// have the same bytes of the next chunk before them hand out the same
/// samples, whatever follows those bytes.
pub proof fn lemma_decoder_reads_one_chunk(a: DecoderModel, b: DecoderModel)
    requires
        a.header == b.header,
        a.frames_read == b.frames_read,
        a.next_bytes() == b.next_bytes(),
        a.left.len() > 0,
        b.left.len() > 0,
    ensures
        a.step().emitted == b.step().emitted,
        a.step().result == b.step().result,
        a.step().next.frames_read == b.step().next.frames_read,
        a.step().next.header == b.step().next.header,
{
    reveal(DecoderModel::step);
}

/// Where an encoder on track makes a whole chunk, the encoder that was
/// told no total makes the same chunk, and the two agree again after it.
#[verifier::rlimit(40)]
proof fn lemma_untold_step(m: EncoderModel)
    requires
        on_track(m),
        m.next_is_whole(),
    ensures
        untold(m).step().result == Ok::<bool, SeaError>(true),
        untold(m).step().next == untold(m.after_chunk()),
        untold(m).patched_header() == (HeaderView { total_frames: 0, ..m.patched_header() }),
        untold(m).step().emitted == if m.state == SeaEncoderState::Start {
            untold(m).patched_header().bytes() + encoder_chunk(
                m.settings,
                m.lms,
                m.next_samples(),
            ).bytes()
        } else {
            encoder_chunk(m.settings, m.lms, m.next_samples()).bytes()
        },
{
    let u = untold(m);
    lemma_planned(m);
    lemma_no_refusal(m);
    reveal(on_track);
    assert(u.planned_frames() == m.planned_frames());
    assert(u.planned_samples() == m.planned_samples());
    assert(u.next_samples() == m.next_samples());
    assert(refusal(u.settings, u.header, u.lms, u.next_samples()) is None);
    assert(u.patched_header() == (HeaderView { total_frames: 0, ..m.patched_header() }));
    assert(u.after_chunk() == untold(m.after_chunk()));
    reveal(EncoderModel::step);
    let c = encoder_chunk(m.settings, m.lms, m.next_samples()).bytes();
    if m.state == SeaEncoderState::Start {
        assert(u.step().emitted =~= u.patched_header().bytes() + c);
    } else {
        assert(u.step().emitted =~= c);
    }
}

/// While whole chunks are made, a decoder of the chunks that are handed
/// on one by one and a decoder of the stream that is made in one go hand
/// out the same samples, call for call.
#[verifier::rlimit(60)]
proof fn lemma_pipe_decodes(
    m: EncoderModel,
    pipe: DecoderModel,
    whole: DecoderModel,
    calls: nat,
    more: Seq<u8>,
)
    requires
        on_track(m),
        m.state == SeaEncoderState::WritingFrames,
        m.header.valid(),
        calls * m.header.frames_per_chunk <= m.header.total_frames - m.written_frames,
        whole.header == m.header,
        whole.frames_read == m.written_frames,
        whole.left == encoder_stream(m).0,
        pipe.header == untold(m).header,
        pipe.frames_read == m.written_frames,
        pipe.left == handed_on(untold(m), calls) + more,
    ensures
        handed_out(pipe, calls) == handed_out(whole, calls),
        handed_out(whole, calls) == decoder_stream(whole).0.take(
            calls * (m.header.frames_per_chunk * m.header.channels),
        ),
        handed_out(whole, calls).len() == calls * (m.header.frames_per_chunk * m.header.channels),
        calls * (m.header.frames_per_chunk * m.header.channels) <= decoder_stream(whole).0.len(),
    decreases calls,
{
    let per = m.header.frames_per_chunk as int;
    let channels = m.header.channels as int;
    let size = per * channels;
    let left = m.header.total_frames - m.written_frames;
    lemma_planned(m);
    lemma_rest_decodes(m, whole);
    assert(0 <= calls * size <= m.data.len() && 0 <= size) by (nonlinear_arith)
        requires
            0 <= calls * per <= left,
            m.data.len() == left * channels,
            size == per * channels,
            1 <= channels,
            1 <= per,
    ;
    if calls == 0 {
        assert(decoder_stream(whole).0.take(0) =~= Seq::<i16>::empty());
    } else {
        let fewer = (calls - 1) as nat;
        assert(per <= left && fewer * per <= left - per && fewer * size + size == calls * size)
            by (nonlinear_arith)
            requires
                calls * per <= left,
                calls >= 1,
                fewer == calls - 1,
                per >= 1,
        ;
        assert(m.next_is_whole());
        lemma_no_refusal(m);
        lemma_later_emission(m);
        lemma_step_on_track(m);
        lemma_next_on_track(m);
        lemma_untold_step(m);
        let samples = m.next_samples();
        let c = encoder_chunk(m.settings, m.lms, samples).bytes();
        let next = m.step().next;
        assert(next == m.after_chunk());
        assert(m.wf() && m.header.frames_per_chunk == m.settings.frames_per_chunk) by {
            reveal(on_track);
        }
        let behind = handed_on(untold(next), fewer) + more;
        assert(pipe.left =~= c + behind);
        assert(behind.len() > 0 ==> c.len() == pipe.header.chunk_size);
        lemma_decode_step(pipe, m.settings, m.lms, samples, behind);
        lemma_decode_step(whole, m.settings, m.lms, samples, encoder_stream(next).0);
        let pipe_after = pipe.step().next;
        let whole_after = whole.step().next;
        lemma_pipe_decodes(next, pipe_after, whole_after, fewer, more);
        lemma_decoder_stream_unfolds(whole);
        let first = whole.step().emitted;
        let rest = decoder_stream(whole_after).0;
        assert(first.len() == size);
        assert((first + rest).take(calls * size) =~= first + rest.take(fewer * size));
    }
}

/// Handing the chunks on one by one and decoding them at the other end
/// gives the samples that encoding and decoding in one go gives.
///
/// An encoder that is told no total of frames hands out the header and a
/// first chunk, and then chunk after chunk. A decoder that reads what the
/// first `calls` calls of that encoder handed out, whatever else is behind
/// it, hands out in as many calls of its own the samples that `sea_decode`
/// gives first for the stream that `sea_encode` makes of the same samples,
/// as long as the chunks are whole ones.
#[verifier::rlimit(60)]
pub proof fn lemma_streaming_equivalence(
    input_samples: Seq<i16>,
    sample_rate: u32,
    channels: u32,
    settings: EncoderSettings,
    calls: nat,
    more: Seq<u8>,
)
    requires
        1 <= channels <= 255,
        settings.wf(),
        sample_rate > 0,
        0 < input_samples.len() <= u32::MAX,
        input_samples.len() % (channels as nat) == 0,
        stream_fits(settings, channels as int, input_samples.len() as int / channels as int),
        1 <= calls,
        calls * settings.frames_per_chunk <= input_samples.len() as int / channels as int,
    ensures
        parse_header(
            handed_on(
                crate::encoder::initial_encoder(
                    channels as u8,
                    sample_rate,
                    None,
                    settings,
                    input_samples,
                ),
                calls,
            ) + more,
        ) is Ok,
        handed_out(
            whole_decoder(
                handed_on(
                    crate::encoder::initial_encoder(
                        channels as u8,
                        sample_rate,
                        None,
                        settings,
                        input_samples,
                    ),
                    calls,
                ) + more,
            ),
            calls,
        ) == decoder_stream(
            whole_decoder(
                encoder_stream(whole_encoder(input_samples, sample_rate, channels, settings)).0,
            ),
        ).0.take(calls * (settings.frames_per_chunk * channels)),
        calls * (settings.frames_per_chunk * channels) <= input_samples.len(),
{
    let m = whole_encoder(input_samples, sample_rate, channels, settings);
    let u = crate::encoder::initial_encoder(
        channels as u8,
        sample_rate,
        None,
        settings,
        input_samples,
    );
    let per = settings.frames_per_chunk as int;
    let size = per * channels;
    let fewer = (calls - 1) as nat;
    lemma_whole_encoder_on_track(input_samples, sample_rate, channels, settings);
    assert(u == untold(m));
    lemma_planned(m);
    assert(m.header.frames_per_chunk == settings.frames_per_chunk && m.wf()) by {
        reveal(on_track);
    }
    assert(per <= m.header.total_frames && fewer * per <= m.header.total_frames - per && fewer
        * size + size == calls * size && calls * size <= input_samples.len()) by (nonlinear_arith)
        requires
            calls * per <= m.header.total_frames,
            m.data.len() == (m.header.total_frames - 0) * channels,
            m.data.len() == input_samples.len(),
            size == per * channels,
            calls >= 1,
            fewer == calls - 1,
            per >= 1,
            channels >= 1,
    ;
    assert(m.next_is_whole());
    lemma_first_emission(m);
    lemma_stream_shape(m);
    lemma_next_on_track(m);
    lemma_untold_step(m);
    let samples = m.next_samples();
    let c = encoder_chunk(m.settings, m.lms, samples).bytes();
    let next = m.step().next;
    let head = u.patched_header();
    let behind = handed_on(untold(next), fewer) + more;
    let pipe_bytes = handed_on(u, calls) + more;
    assert(pipe_bytes =~= head.bytes() + (c + behind));
    assert(head.valid());
    lemma_whole_decoder(head, c + behind);
    lemma_whole_decoder(m.patched_header(), c + encoder_stream(next).0);
    let pipe = whole_decoder(pipe_bytes);
    let whole = whole_decoder(encoder_stream(m).0);
    lemma_decode_step(pipe, settings, m.lms, samples, behind);
    lemma_decode_step(whole, settings, m.lms, samples, encoder_stream(next).0);
    lemma_pipe_decodes(next, pipe.step().next, whole.step().next, fewer, more);
    lemma_decoder_stream_unfolds(whole);
    let first = whole.step().emitted;
    let rest = decoder_stream(whole.step().next).0;
    assert(first.len() == size);
    assert((first + rest).take(calls * size) =~= first + rest.take(fewer * size));
}

} // verus!
