pub mod codec;
pub mod cursor;
pub mod decoder;
pub mod encoder;
pub mod resample;
pub mod stream;

use crate::codec::common::SeaError;
use crate::codec::file::{header_len, parse_header};
use crate::decoder::{lemma_decoder_progress, lemma_decoder_rest, DecoderModel, SeaDecoder};
use crate::encoder::{
    initial_encoder, lemma_step_progress, EncoderModel, EncoderSettings, SeaEncoder,
};
use vstd::prelude::*;

verus! {

/// The bytes that an encoder hands out from `m` on, call after call, until
/// a call returns `false` or fails; and whether it is a failure that ends
/// them.
pub open spec fn encoder_stream(m: EncoderModel) -> (Seq<u8>, Option<SeaError>)
    decreases m.data.len(),
{
    let s = m.step();
    match s.result {
        Ok(more) => if more && s.next.data.len() < m.data.len() {
            let rest = encoder_stream(s.next);
            (s.emitted + rest.0, rest.1)
        } else {
            (s.emitted, None)
        },
        Err(e) => (s.emitted, Some(e)),
    }
}

/// The samples that a decoder hands out from `m` on, call after call,
/// until a call returns `false` or fails; and whether it is a failure that
/// ends them.
pub open spec fn decoder_stream(m: DecoderModel) -> (Seq<i16>, Option<SeaError>)
    decreases m.left.len(),
{
    let s = m.step();
    match s.result {
        Ok(more) => if more && s.next.left.len() < m.left.len() {
            let rest = decoder_stream(s.next);
            (s.emitted + rest.0, rest.1)
        } else {
            (s.emitted, None)
        },
        Err(e) => (s.emitted, Some(e)),
    }
}

/// The encoder that `sea_encode` starts from.
pub open spec fn whole_encoder(
    input_samples: Seq<i16>,
    sample_rate: u32,
    channels: u32,
    settings: EncoderSettings,
) -> EncoderModel {
    initial_encoder(
        channels as u8,
        sample_rate,
        Some((input_samples.len() as int / channels as int) as u32),
        settings,
        input_samples,
    )
}

/// Whether `sea_encode` can encode the samples: there are 1 to 255
/// channels, the settings are supported, the number of frames fits 32 bits,
/// and no call for a chunk fails.
pub open spec fn encodable(
    input_samples: Seq<i16>,
    sample_rate: u32,
    channels: u32,
    settings: EncoderSettings,
) -> bool {
    &&& 1 <= channels <= 255
    &&& settings.wf()
    &&& input_samples.len() <= u32::MAX
    &&& encoder_stream(whole_encoder(input_samples, sample_rate, channels, settings)).1 is None
}

/// Encodes a whole buffer of interleaved samples: the file header and
/// every chunk, one after the other, as an encoder hands them out that is
/// told the number of frames.
#[verifier::rlimit(40)]
pub fn sea_encode(
    input_samples: &[i16],
    sample_rate: u32,
    channels: u32,
    settings: EncoderSettings,
) -> (sea_encoded: Vec<u8>)
    requires
        encodable(input_samples@, sample_rate, channels, settings),
    ensures
        sea_encoded@ == encoder_stream(
            whole_encoder(input_samples@, sample_rate, channels, settings),
        ).0,
{
    match try_sea_encode(input_samples, sample_rate, channels, settings) {
        Ok(sea_encoded) => sea_encoded,
        Err(_) => Vec::new(),
    }
}

/// Why `sea_encode` cannot encode the samples, if it cannot:
/// `InvalidSettings` when there are no channels or more than 255, the
/// settings are not supported or the number of samples does not fit 32
/// bits; otherwise the failure of the first call for a chunk that fails.
pub open spec fn encode_failure(
    input_samples: Seq<i16>,
    sample_rate: u32,
    channels: u32,
    settings: EncoderSettings,
) -> Option<SeaError> {
    if !(1 <= channels <= 255) || !settings.wf() || input_samples.len() > u32::MAX {
        Some(SeaError::InvalidSettings)
    } else {
        encoder_stream(whole_encoder(input_samples, sample_rate, channels, settings)).1
    }
}

/// What encoding the samples gives, whatever they are: the bytes of the
/// stream, or the reason why there is none. A function of the samples, the
/// sample rate, the number of channels and the settings, and of nothing
/// else.
pub open spec fn encoding_of(
    input_samples: Seq<i16>,
    sample_rate: u32,
    channels: u32,
    settings: EncoderSettings,
) -> Result<Seq<u8>, SeaError> {
    match encode_failure(input_samples, sample_rate, channels, settings) {
        Some(e) => Err(e),
        None => Ok(encoder_stream(whole_encoder(input_samples, sample_rate, channels, settings)).0),
    }
}

/// Encodes a whole buffer of interleaved samples as `sea_encode` does,
/// where that is possible, and says why where it is not.
#[verifier::rlimit(40)]
pub fn try_sea_encode(
    input_samples: &[i16],
    sample_rate: u32,
    channels: u32,
    settings: EncoderSettings,
) -> (r: Result<Vec<u8>, SeaError>)
    ensures
        r is Ok <==> encodable(input_samples@, sample_rate, channels, settings),
        r is Ok ==> r->Ok_0@ == encoder_stream(
            whole_encoder(input_samples@, sample_rate, channels, settings),
        ).0,
        r is Err ==> encode_failure(input_samples@, sample_rate, channels, settings) == Some(
            r->Err_0,
        ),
        match r {
            Ok(bytes) => encoding_of(input_samples@, sample_rate, channels, settings) == Ok::<
                Seq<u8>,
                SeaError,
            >(bytes@),
            Err(e) => encoding_of(input_samples@, sample_rate, channels, settings) == Err::<
                Seq<u8>,
                SeaError,
            >(e),
        },
{
    if channels < 1 || channels > 255 || input_samples.len() > u32::MAX as usize {
        return Err(SeaError::InvalidSettings);
    }
    let mut sea_encoded: Vec<u8> = Vec::new();
    let mut sea_encoder = match SeaEncoder::from_slice(
        channels as u8,
        sample_rate,
        Some(input_samples.len() as u32 / channels),
        settings,
        input_samples,
    ) {
        Ok(e) => e,
        Err(e) => { return Err(e); },
    };
    let ghost start = sea_encoder@;
    assert(sea_encoded@ + encoder_stream(start).0 =~= encoder_stream(start).0);
    loop
        invariant_except_break
            sea_encoder.wf(),
            encoder_stream(sea_encoder@).1 == encoder_stream(start).1,
            sea_encoded@ + encoder_stream(sea_encoder@).0 == encoder_stream(start).0,
        invariant
            start == whole_encoder(input_samples@, sample_rate, channels, settings),
            1 <= channels <= 255,
            settings.wf(),
            input_samples@.len() <= u32::MAX,
        ensures
            encoder_stream(start).1 is None,
            sea_encoded@ == encoder_stream(start).0,
        decreases sea_encoder@.data.len(),
    {
        let ghost before = sea_encoder@;
        let ghost written = sea_encoded@;
        let more = match sea_encoder.encode_frame(&mut sea_encoded) {
            Ok(m) => m,
            Err(e) => {
                assert(encoder_stream(before).1 == Some(e));
                return Err(e);
            },
        };
        proof {
            let s = before.step();
            if more {
                lemma_step_progress(before);
                assert(written + s.emitted + encoder_stream(s.next).0 =~= written + (s.emitted
                    + encoder_stream(s.next).0));
            } else {
                assert(written + s.emitted =~= written + encoder_stream(before).0);
            }
        }
        if !more {
            break ;
        }
    }
    let _ = sea_encoder.finalize();
    Ok(sea_encoded)
}

/// The samples of a decoded stream, with its sample rate and its number of
/// channels.
pub struct SeaDecodeInfo {
    pub samples: Vec<i16>,
    pub sample_rate: u32,
    pub channels: u32,
}

/// The decoder that `sea_decode` starts from, once the header is read.
pub open spec fn whole_decoder(encoded: Seq<u8>) -> DecoderModel {
    DecoderModel {
        header: parse_header(encoded)->Ok_0,
        left: encoded.skip(header_len(encoded)),
        frames_read: 0,
    }
}

/// Whether `sea_decode` can decode the bytes: they begin with a header
/// that can be decoded, and no call for a chunk fails.
pub open spec fn decodable(encoded: Seq<u8>) -> bool {
    &&& parse_header(encoded) is Ok
    &&& decoder_stream(whole_decoder(encoded)).1 is None
}

/// Why `sea_decode` cannot decode the bytes, if it cannot: the reason why
/// they begin with no header that can be decoded, or the failure of the
/// first call for a chunk that fails.
pub open spec fn decode_failure(encoded: Seq<u8>) -> Option<SeaError> {
    match parse_header(encoded) {
        Ok(_) => decoder_stream(whole_decoder(encoded)).1,
        Err(e) => Some(e),
    }
}

/// What decoding the bytes gives, whatever they are: the samples, the
/// sample rate and the number of channels, or the reason why there are
/// none. A function of the bytes, and of nothing else.
pub open spec fn decoding_of(encoded: Seq<u8>) -> Result<(Seq<i16>, u32, u32), SeaError> {
    match decode_failure(encoded) {
        Some(e) => Err(e),
        None => Ok(
            (
                decoder_stream(whole_decoder(encoded)).0,
                parse_header(encoded)->Ok_0.sample_rate,
                parse_header(encoded)->Ok_0.channels as u32,
            ),
        ),
    }
}

/// Decodes a whole stream as `sea_decode` does, where that is possible, and
/// says why where it is not.
#[verifier::rlimit(40)]
pub fn try_sea_decode(encoded: &[u8]) -> (r: Result<SeaDecodeInfo, SeaError>)
    ensures
        r is Ok <==> decodable(encoded@),
        r is Ok ==> r->Ok_0.samples@ == decoder_stream(whole_decoder(encoded@)).0 && r->Ok_0.sample_rate
            == parse_header(encoded@)->Ok_0.sample_rate && r->Ok_0.channels == parse_header(
            encoded@,
        )->Ok_0.channels,
        r is Err ==> decode_failure(encoded@) == Some(r->Err_0),
        match r {
            Ok(info) => decoding_of(encoded@) == Ok::<(Seq<i16>, u32, u32), SeaError>(
                (info.samples@, info.sample_rate, info.channels),
            ),
            Err(e) => decoding_of(encoded@) == Err::<(Seq<i16>, u32, u32), SeaError>(e),
        },
{
    let mut sea_decoded: Vec<i16> = Vec::new();
    let mut sea_decoder = match SeaDecoder::from_slice(encoded) {
        Ok(d) => d,
        Err(e) => {
            return Err(e);
        },
    };
    let ghost start = sea_decoder@;
    assert(start == whole_decoder(encoded@));
    assert(sea_decoded@ + decoder_stream(start).0 =~= decoder_stream(start).0);
    loop
        invariant_except_break
            sea_decoder.wf(),
            decoder_stream(sea_decoder@).1 == decoder_stream(start).1,
            sea_decoded@ + decoder_stream(sea_decoder@).0 == decoder_stream(start).0,
        invariant
            sea_decoder@.header == start.header,
            start == whole_decoder(encoded@),
            parse_header(encoded@) is Ok,
        ensures
            decoder_stream(start).1 is None,
            sea_decoded@ == decoder_stream(start).0,
            sea_decoder@.header == start.header,
        decreases sea_decoder@.left.len(),
    {
        let ghost before = sea_decoder@;
        let ghost written = sea_decoded@;
        proof {
            lemma_decoder_rest(before);
        }
        let more = match sea_decoder.decode_frame(&mut sea_decoded) {
            Ok(m) => m,
            Err(e) => {
                assert(decoder_stream(before).1 == Some(e));
                return Err(e);
            },
        };
        proof {
            let s = before.step();
            if more {
                lemma_decoder_progress(before);
                assert(written + s.emitted + decoder_stream(s.next).0 =~= written + (s.emitted
                    + decoder_stream(s.next).0));
            } else {
                assert(written + s.emitted =~= written + decoder_stream(before).0);
            }
        }
        if !more {
            break ;
        }
    }
    let header = sea_decoder.get_header();
    Ok(
        SeaDecodeInfo {
            samples: sea_decoded,
            sample_rate: header.sample_rate,
            channels: header.channels as u32,
        },
    )
}

/// Decodes a whole stream: the samples of every chunk, one after the
/// other, as a decoder hands them out.
#[verifier::rlimit(40)]
pub fn sea_decode(encoded: &[u8]) -> (info: SeaDecodeInfo)
    requires
        decodable(encoded@),
    ensures
        info.samples@ == decoder_stream(whole_decoder(encoded@)).0,
        info.sample_rate == parse_header(encoded@)->Ok_0.sample_rate,
        info.channels == parse_header(encoded@)->Ok_0.channels,
{
    match try_sea_decode(encoded) {
        Ok(info) => info,
        Err(_) => SeaDecodeInfo { samples: Vec::new(), sample_rate: 0, channels: 0 },
    }
}

} // verus!
