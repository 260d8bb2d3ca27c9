//! The state of the Wirehair fountain codecs around the calls into the C
//! library.
//!
//! Each operation comes in two halves. The first says which call is to be made,
//! and with which arguments; the second takes what the call returned.

use crate::common::decimal_string;
use std::sync::Arc;
use vstd::prelude::*;

verus! {

/// The version of the C library that this module is written for.
pub const WIREHAIR_VERSION: i32 = 2;

/// A codec of the C library, by its address. Address 0 is none.
#[derive(Debug, Clone, Copy, PartialEq, Eq, Structural)]
pub struct WirehairCodecRaw {
    pub address: usize,
}

/// What the C library answers.
#[derive(Debug, Clone, Copy, PartialEq, Eq, Structural)]
pub enum WirehairResult {
    Success,
    NeedMore,
    InvalidInput,
    BadDenseSeed,
    BadPeelSeed,
    BadInputSmallN,
    BadInputLargeN,
    ExtraInsufficient,
    Error,
    OutOfMemory,
    UnsupportedPlatform,
    Padding,
}

impl WirehairResult {
    /// The number that the C library uses for this answer.
    pub open spec fn number(self) -> u32 {
        match self {
            WirehairResult::Success => 0,
            WirehairResult::NeedMore => 1,
            WirehairResult::InvalidInput => 2,
            WirehairResult::BadDenseSeed => 3,
            WirehairResult::BadPeelSeed => 4,
            WirehairResult::BadInputSmallN => 5,
            WirehairResult::BadInputLargeN => 6,
            WirehairResult::ExtraInsufficient => 7,
            WirehairResult::Error => 8,
            WirehairResult::OutOfMemory => 9,
            WirehairResult::UnsupportedPlatform => 10,
            WirehairResult::Padding => 0x7fffffff,
        }
    }

    pub fn code(self) -> (r: u32)
        ensures
            r == self.number(),
    {
        match self {
            WirehairResult::Success => 0,
            WirehairResult::NeedMore => 1,
            WirehairResult::InvalidInput => 2,
            WirehairResult::BadDenseSeed => 3,
            WirehairResult::BadPeelSeed => 4,
            WirehairResult::BadInputSmallN => 5,
            WirehairResult::BadInputLargeN => 6,
            WirehairResult::ExtraInsufficient => 7,
            WirehairResult::Error => 8,
            WirehairResult::OutOfMemory => 9,
            WirehairResult::UnsupportedPlatform => 10,
            WirehairResult::Padding => 0x7fffffff,
        }
    }

    /// The answer that has the number `code`.
    pub fn from_code(code: u32) -> (r: Option<Self>)
        ensures
            match r {
                Some(w) => w.number() == code,
                None => forall|w: WirehairResult| #[trigger] w.number() != code,
            },
    {
        match code {
            0 => Some(WirehairResult::Success),
            1 => Some(WirehairResult::NeedMore),
            2 => Some(WirehairResult::InvalidInput),
            3 => Some(WirehairResult::BadDenseSeed),
            4 => Some(WirehairResult::BadPeelSeed),
            5 => Some(WirehairResult::BadInputSmallN),
            6 => Some(WirehairResult::BadInputLargeN),
            7 => Some(WirehairResult::ExtraInsufficient),
            8 => Some(WirehairResult::Error),
            9 => Some(WirehairResult::OutOfMemory),
            10 => Some(WirehairResult::UnsupportedPlatform),
            0x7fffffff => Some(WirehairResult::Padding),
            _ => None,
        }
    }

    /// `value`, unless this is an error.
    pub fn with<T>(self, value: T) -> (r: Result<T, Self>)
        ensures
            r == (if self is Success || self is NeedMore { Ok(value) } else { Err(self) }),
    {
        if self != WirehairResult::Success && self != WirehairResult::NeedMore {
            Err(self)
        } else {
            Ok(value)
        }
    }

    /// The answer in words.
    pub fn text(self) -> (r: String)
        ensures
            r@ == match self {
                WirehairResult::Success => "Success"@,
                WirehairResult::NeedMore => "NeedMore"@,
                WirehairResult::InvalidInput => "InvalidInput"@,
                _ => "Other("@ + crate::common::decimal(self.number() as nat) + ")"@,
            },
    {
        match self {
            WirehairResult::Success => "Success".to_owned(),
            WirehairResult::NeedMore => "NeedMore".to_owned(),
            WirehairResult::InvalidInput => "InvalidInput".to_owned(),
            _ => {
                let mut text = "Other(".to_owned();
                text.append(decimal_string(self.code() as u64).as_str());
                text.append(")");
                text
            },
        }
    }
}

/// The call that makes an encoder of a message of `message_bytes` bytes.
#[derive(Debug, Clone, Copy, PartialEq, Eq, Structural)]
pub struct EncoderCreate {
    pub message_bytes: u64,
    pub block_bytes: u32,
}

/// The call that writes block `block_id` into a buffer of `out_bytes` bytes.
#[derive(Debug, Clone, Copy, PartialEq, Eq, Structural)]
pub struct EncodeCall {
    pub raw: WirehairCodecRaw,
    pub block_id: u32,
    pub out_bytes: u32,
}

/// The call that makes a decoder for a message of `message_bytes` bytes.
#[derive(Debug, Clone, Copy, PartialEq, Eq, Structural)]
pub struct DecoderCreate {
    pub message_bytes: u64,
    pub block_bytes: u32,
}

/// The call that feeds block `block_id`, of `data_bytes` bytes, to a decoder.
#[derive(Debug, Clone, Copy, PartialEq, Eq, Structural)]
pub struct DecodeCall {
    pub raw: WirehairCodecRaw,
    pub block_id: u32,
    pub data_bytes: u32,
}

/// The call that writes the message into a buffer of `message_bytes` bytes.
#[derive(Debug, Clone, Copy, PartialEq, Eq, Structural)]
pub struct RecoverCall {
    pub raw: WirehairCodecRaw,
    pub message_bytes: u64,
}

/// The length of a buffer as the C library takes it: 32 bits.
fn length_argument(block: &[u8]) -> (r: u32)
    ensures
        r == block@.len() % 0x1_0000_0000,
{
    (block.len() as u64 % 0x1_0000_0000) as u32
}

pub struct EncoderView {
    pub raw: WirehairCodecRaw,
    pub message: Seq<u8>,
    pub block_bytes: u32,
}

/// The call that makes an encoder of the message.
pub open spec fn encoder_create(message: Seq<u8>, block_bytes: u32) -> EncoderCreate {
    EncoderCreate { message_bytes: message.len() as u64, block_bytes }
}

/// The call that writes block `id` into a buffer of `length` bytes. The C library
/// takes 32 bits of the length.
pub open spec fn encode_call(encoder: EncoderView, id: u32, length: nat) -> EncodeCall {
    EncodeCall { raw: encoder.raw, block_id: id, out_bytes: (length % 0x1_0000_0000) as u32 }
}

/// An encoder, which owns its codec, and shares the message that the codec reads
/// with its duplicates.
#[derive(Debug)]
pub struct WirehairEncoder {
    raw: WirehairCodecRaw,
    message: Arc<Vec<u8>>,
    pub block_bytes: u32,
}

impl View for WirehairEncoder {
    type V = EncoderView;

    closed spec fn view(&self) -> EncoderView {
        EncoderView { raw: self.raw, message: self.message@, block_bytes: self.block_bytes }
    }
}

impl WirehairEncoder {
    /// The call that makes the codec of `WirehairEncoder::new`.
    pub fn create(message: &[u8], block_bytes: u32) -> (r: EncoderCreate)
        ensures
            r == encoder_create(message@, block_bytes),
            r.message_bytes == message@.len(),
    {
        EncoderCreate { message_bytes: message.len() as u64, block_bytes }
    }

    /// The encoder of `message` whose codec is `raw`.
    pub fn new(message: Vec<u8>, block_bytes: u32, raw: WirehairCodecRaw) -> (r: Self)
        requires
            raw.address != 0,
        ensures
            r@ == (EncoderView { raw, message: message@, block_bytes }),
    {
        WirehairEncoder { raw, message: Arc::new(message), block_bytes }
    }

    pub fn raw(&self) -> (r: WirehairCodecRaw)
        ensures
            r == self@.raw,
    {
        self.raw
    }

    pub fn block_bytes(&self) -> (r: u32)
        ensures
            r == self@.block_bytes,
    {
        self.block_bytes
    }

    /// The message that the codec reads.
    pub fn message(&self) -> (r: &[u8])
        ensures
            r@ == self@.message,
    {
        self.message.as_slice()
    }

    /// The call that writes block `id` into `block`.
    pub fn encode(&self, id: u32, block: &[u8]) -> (r: EncodeCall)
        requires
            block@.len() >= self@.block_bytes,
        ensures
            r == encode_call(self@, id, block@.len()),
    {
        EncodeCall { raw: self.raw, block_id: id, out_bytes: length_argument(block) }
    }

    /// The number of bytes that were written, after the call of `encode`
    /// returned `result` and stored `out_len`.
    pub fn encoded(result: WirehairResult, out_len: u32) -> (r: Result<usize, WirehairResult>)
        ensures
            match r {
                Ok(n) => (result is Success || result is NeedMore) && n == out_len,
                Err(e) => e == result && !(result is Success) && !(result is NeedMore),
            },
    {
        result.with(out_len as usize)
    }

    /// The call that makes the codec of `duplicate`, on the same message.
    pub fn duplicate_call(&self) -> (r: EncoderCreate)
        ensures
            r == encoder_create(self@.message, self@.block_bytes),
            r.message_bytes == self@.message.len(),
    {
        Self::create(self.message.as_slice(), self.block_bytes)
    }

    /// A second encoder of the same message, with the codec `raw` of its own.
    pub fn duplicate(&self, raw: WirehairCodecRaw) -> (r: Self)
        ensures
            r@ == (EncoderView { raw, ..self@ }),
    {
        WirehairEncoder { raw, message: self.message.clone(), block_bytes: self.block_bytes }
    }

    /// Ends the encoder and gives up its codec, which is then to be freed.
    pub fn free(self) -> (r: WirehairCodecRaw)
        ensures
            r == self@.raw,
    {
        self.raw
    }
}

/// A decoder, which owns its codec.
#[derive(Debug)]
pub struct WirehairDecoder {
    raw: WirehairCodecRaw,
    pub message_bytes: u64,
    pub block_bytes: u32,
    need_more: bool,
}

pub struct DecoderView {
    pub raw: WirehairCodecRaw,
    pub message_bytes: u64,
    pub block_bytes: u32,
    pub need_more: bool,
}

/// The call that feeds `block` as block `id`, where more is needed.
pub open spec fn decode_call(decoder: DecoderView, id: u32, block: Seq<u8>) -> Option<DecodeCall> {
    if decoder.need_more {
        Some(
            (DecodeCall {
                raw: decoder.raw,
                block_id: id,
                data_bytes: (block.len() % 0x1_0000_0000) as u32,
            }),
        )
    } else {
        None
    }
}

/// The decoder after the C library answered `result` to a block.
pub open spec fn after_block(decoder: DecoderView, result: WirehairResult) -> DecoderView {
    DecoderView { need_more: result is NeedMore, ..decoder }
}

/// The call that writes the message into a buffer of `length` bytes.
pub open spec fn recover_call(decoder: DecoderView, length: nat) -> RecoverCall {
    RecoverCall { raw: decoder.raw, message_bytes: length as u64 }
}

/// The encoder that the decoder becomes.
pub open spec fn turned_encoder(decoder: DecoderView) -> EncoderView {
    EncoderView {
        raw: decoder.raw,
        message: Seq::empty(),
        block_bytes: decoder.block_bytes,
    }
}

/// What an operation that gives no value returns, after the C library answered
/// `result`.
pub open spec fn outcome(result: WirehairResult) -> Result<(), WirehairResult> {
    if result is Success || result is NeedMore {
        Ok(())
    } else {
        Err(result)
    }
}

impl View for WirehairDecoder {
    type V = DecoderView;

    closed spec fn view(&self) -> DecoderView {
        DecoderView {
            raw: self.raw,
            message_bytes: self.message_bytes,
            block_bytes: self.block_bytes,
            need_more: self.need_more,
        }
    }
}

impl WirehairDecoder {
    /// The call that makes the codec of `WirehairDecoder::new`.
    pub fn create(message_bytes: u64, block_bytes: u32) -> (r: DecoderCreate)
        ensures
            r == (DecoderCreate { message_bytes, block_bytes }),
    {
        DecoderCreate { message_bytes, block_bytes }
    }

    /// The decoder whose codec is `raw`.
    pub fn new(message_bytes: u64, block_bytes: u32, raw: WirehairCodecRaw) -> (r: Self)
        requires
            raw.address != 0,
        ensures
            r@ == (DecoderView { raw, message_bytes, block_bytes, need_more: true }),
    {
        WirehairDecoder { raw, message_bytes, block_bytes, need_more: true }
    }

    pub fn raw(&self) -> (r: WirehairCodecRaw)
        ensures
            r == self@.raw,
    {
        self.raw
    }

    pub fn message_bytes(&self) -> (r: u64)
        ensures
            r == self@.message_bytes,
    {
        self.message_bytes
    }

    pub fn block_bytes(&self) -> (r: u32)
        ensures
            r == self@.block_bytes,
    {
        self.block_bytes
    }

    /// Whether the decoder needs more blocks.
    pub fn need_more(&self) -> (r: bool)
        ensures
            r == self@.need_more,
    {
        self.need_more
    }

    /// The call that feeds `block` as block `id`. There is none once the decoder
    /// needs no more: then the message is at hand.
    pub fn decode(&self, id: u32, block: &[u8]) -> (r: Option<DecodeCall>)
        ensures
            r == decode_call(self@, id, block@),
    {
        if !self.need_more {
            return None;
        }
        Some(DecodeCall { raw: self.raw, block_id: id, data_bytes: length_argument(block) })
    }

    /// Whether the message is at hand, after the call of `decode` returned
    /// `result`.
    pub fn decoded(&mut self, result: WirehairResult) -> (r: Result<bool, WirehairResult>)
        requires
            old(self)@.need_more,
        ensures
            final(self)@ == after_block(old(self)@, result),
            r == (match result {
                WirehairResult::Success => Ok(true),
                WirehairResult::NeedMore => Ok(false),
                _ => Err(result),
            }),
    {
        self.need_more = result == WirehairResult::NeedMore;
        result.with(result == WirehairResult::Success)
    }

    /// The call that writes the message into `message`.
    pub fn recover(&self, message: &[u8]) -> (r: RecoverCall)
        requires
            message@.len() >= self@.message_bytes as usize,
        ensures
            r == recover_call(self@, message@.len()),
            r.message_bytes == message@.len(),
    {
        RecoverCall { raw: self.raw, message_bytes: message.len() as u64 }
    }

    /// Whether the message was written, after the call of `recover` returned
    /// `result`.
    pub fn recovered(result: WirehairResult) -> (r: Result<(), WirehairResult>)
        ensures
            r == outcome(result),
    {
        result.with(())
    }

    /// The encoder that this decoder becomes, after the call that turns its codec
    /// into an encoder returned `result`. Where it failed, nothing owns the codec
    /// any more: it comes back to be freed.
    pub fn into_encoder(self, result: WirehairResult) -> (r: (
        Result<WirehairEncoder, WirehairResult>,
        Option<WirehairCodecRaw>,
    ))
        ensures
            match r.0 {
                Ok(encoder) => {
                    &&& result is Success || result is NeedMore
                    &&& encoder@ == turned_encoder(self@)
                    &&& r.1 is None
                },
                Err(e) => {
                    &&& !(result is Success) && !(result is NeedMore)
                    &&& e == result
                    &&& r.1 == Some(self@.raw)
                },
            },
    {
        let encoder = WirehairEncoder {
            raw: self.raw,
            message: Arc::new(Vec::new()),
            block_bytes: self.block_bytes,
        };
        match result.with(encoder) {
            Ok(encoder) => (Ok(encoder), None),
            Err(e) => (Err(e), Some(self.raw)),
        }
    }

    /// Ends the decoder and gives up its codec, which is then to be freed.
    pub fn free(self) -> (r: WirehairCodecRaw)
        ensures
            r == self@.raw,
    {
        self.raw
    }
}

/// The numbers that the C library uses for its answers.
pub proof fn answers_have_these_numbers()
    ensures
        WirehairResult::Success.number() == 0,
        WirehairResult::NeedMore.number() == 1,
        WirehairResult::InvalidInput.number() == 2,
        WirehairResult::BadDenseSeed.number() == 3,
        WirehairResult::BadPeelSeed.number() == 4,
        WirehairResult::BadInputSmallN.number() == 5,
        WirehairResult::BadInputLargeN.number() == 6,
        WirehairResult::ExtraInsufficient.number() == 7,
        WirehairResult::Error.number() == 8,
        WirehairResult::OutOfMemory.number() == 9,
        WirehairResult::UnsupportedPlatform.number() == 10,
        WirehairResult::Padding.number() == 0x7fff_ffff,
        forall|a: WirehairResult, b: WirehairResult| #[trigger]
            a.number() == #[trigger] b.number() ==> a == b,
{
}

/// Each call goes to the codec of its encoder or decoder, is about the block that it
/// was asked for, and gives the length of the buffer that goes with it.
pub proof fn calls_are_about_their_codec_and_buffer(
    encoder: EncoderView,
    decoder: DecoderView,
    id: u32,
    buffer: Seq<u8>,
)
    requires
        buffer.len() <= u32::MAX,
    ensures
        encoder_create(buffer, encoder.block_bytes).message_bytes == buffer.len(),
        encoder_create(buffer, encoder.block_bytes).block_bytes == encoder.block_bytes,
        encode_call(encoder, id, buffer.len()).raw == encoder.raw,
        encode_call(encoder, id, buffer.len()).block_id == id,
        encode_call(encoder, id, buffer.len()).out_bytes == buffer.len(),
        decode_call(decoder, id, buffer) is Some <==> decoder.need_more,
        decode_call(decoder, id, buffer) matches Some(call) ==> call.raw == decoder.raw
            && call.block_id == id && call.data_bytes == buffer.len(),
        recover_call(decoder, buffer.len()).raw == decoder.raw,
        recover_call(decoder, buffer.len()).message_bytes == buffer.len(),
{
}

/// A decoder needs more exactly if that was the last answer, and stays the decoder
/// that it was; so does the encoder that it becomes. Only two answers are no errors.
pub proof fn last_answer_decides(decoder: DecoderView, result: WirehairResult)
    ensures
        after_block(decoder, result).need_more <==> result == WirehairResult::NeedMore,
        after_block(decoder, result).raw == decoder.raw,
        after_block(decoder, result).message_bytes == decoder.message_bytes,
        after_block(decoder, result).block_bytes == decoder.block_bytes,
        turned_encoder(decoder).raw == decoder.raw,
        turned_encoder(decoder).block_bytes == decoder.block_bytes,
        turned_encoder(decoder).message.len() == 0,
        outcome(result) is Ok <==> result == WirehairResult::Success || result
            == WirehairResult::NeedMore,
        outcome(result) matches Err(e) ==> e == result,
{
}

} // verus!
