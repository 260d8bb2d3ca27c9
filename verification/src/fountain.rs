//! What follows for the codecs where the C library is a fountain code.
//!
//! The calls themselves are made outside the library. Here they act on a model of
//! the memory in which the C library keeps its codecs, and what each of them
//! computes is a parameter of the laws.

#[allow(unused_imports)]
use crate::app::{is_recorded, put_begun, StateConfig, StateView, Timestamp};
#[allow(unused_imports)]
use crate::chunk::{
    after_fragment, fragment_call, generate_call, leaving_decoder, new_decoder, with_recover,
    with_upload, ChunkKey, StoreView,
};
#[allow(unused_imports)]
use crate::wirehair::{
    after_block, decode_call, encode_call, encoder_create, outcome, recover_call, turned_encoder,
    DecodeCall, DecoderCreate, DecoderView, EncodeCall, EncoderCreate, EncoderView, RecoverCall,
    WirehairCodecRaw, WirehairResult,
};
#[allow(unused_imports)]
use crate::hash::sha256_digest;
use vstd::prelude::*;

verus! {

/// Blocks with their numbers, in the order in which they are fed.
pub type Blocks = Seq<(u32, Seq<u8>)>;

/// What the C library computes.
pub struct Library {
    /// The block of that number of a message in blocks of that size.
    pub block: spec_fn(Seq<u8>, u32, u32) -> Seq<u8>,
    /// The answer of a decoder for a message and blocks of these sizes to the last
    /// of the blocks.
    pub answer: spec_fn(u64, u32, Blocks) -> WirehairResult,
    /// The message that such a decoder has of the blocks.
    pub message: spec_fn(u64, u32, Blocks) -> Seq<u8>,
    /// The answer of such a decoder that is asked for the message.
    pub recover: spec_fn(u64, u32, Blocks) -> WirehairResult,
    /// The answer of such a decoder that is to become an encoder.
    pub turn: spec_fn(u64, u32, Blocks) -> WirehairResult,
}

/// A codec in the memory of the C library.
pub enum Codec {
    Encoder { message: Seq<u8>, block_bytes: u32 },
    Decoder { message_bytes: u64, block_bytes: u32, fed: Blocks },
}

/// The memory of the C library.
pub type Memory = Map<WirehairCodecRaw, Codec>;

/// The blocks are those of the message.
pub open spec fn blocks_of(lib: Library, message: Seq<u8>, block_bytes: u32, blocks: Blocks) -> bool {
    forall|i: int|
        0 <= i < blocks.len() ==> (#[trigger] blocks[i]).1 == (lib.block)(
            message,
            block_bytes,
            blocks[i].0,
        )
}

/// The C library is a fountain code: a decoder that is fed blocks of one message
/// asks for more until it has that message. A message that can be cut into whole
/// blocks has only whole blocks.
pub open spec fn is_fountain_code(lib: Library) -> bool {
    &&& forall|m: Seq<u8>, b: u32, blocks: Blocks|
        m.len() <= u64::MAX && blocks.len() > 0 && blocks_of(lib, m, b, blocks) ==> {
            let answer = #[trigger] (lib.answer)(m.len() as u64, b, blocks);
            &&& answer is Success || answer is NeedMore
            &&& answer is Success ==> {
                &&& (lib.message)(m.len() as u64, b, blocks) == m
                &&& (lib.recover)(m.len() as u64, b, blocks) is Success
                &&& (lib.turn)(m.len() as u64, b, blocks) is Success
            }
        }
    &&& forall|m: Seq<u8>, b: u32, id: u32|
        {
            &&& (#[trigger] (lib.block)(m, b, id)).len() <= b
            &&& m.len() > 0 && b > 0 && m.len() % (b as nat) == 0 ==> (lib.block)(m, b, id).len()
                == b
        }
}

/// The memory after an encoder was made at `raw`.
pub open spec fn encoder_made(
    memory: Memory,
    raw: WirehairCodecRaw,
    message: Seq<u8>,
    call: EncoderCreate,
) -> Memory {
    memory.insert(
        raw,
        Codec::Encoder {
            message: message.take(call.message_bytes as int),
            block_bytes: call.block_bytes,
        },
    )
}

/// The memory after a decoder was made at `raw`.
pub open spec fn decoder_made(memory: Memory, raw: WirehairCodecRaw, call: DecoderCreate) -> Memory {
    memory.insert(
        raw,
        Codec::Decoder {
            message_bytes: call.message_bytes,
            block_bytes: call.block_bytes,
            fed: Seq::empty(),
        },
    )
}

/// The block that the call writes.
pub open spec fn written(lib: Library, memory: Memory, call: EncodeCall) -> Seq<u8> {
    match memory[call.raw] {
        Codec::Encoder { message, block_bytes } => (lib.block)(message, block_bytes, call.block_id),
        Codec::Decoder { .. } => Seq::empty(),
    }
}

/// The memory after the call fed the block.
pub open spec fn block_fed(memory: Memory, call: DecodeCall, block: Seq<u8>) -> Memory {
    match memory[call.raw] {
        Codec::Encoder { .. } => memory,
        Codec::Decoder { message_bytes, block_bytes, fed } => memory.insert(
            call.raw,
            Codec::Decoder {
                message_bytes,
                block_bytes,
                fed: fed.push((call.block_id, block.take(call.data_bytes as int))),
            },
        ),
    }
}

/// The answer to the block that was fed last to the decoder at `raw`.
pub open spec fn block_answer(lib: Library, memory: Memory, raw: WirehairCodecRaw) -> WirehairResult {
    match memory[raw] {
        Codec::Encoder { .. } => WirehairResult::InvalidInput,
        Codec::Decoder { message_bytes, block_bytes, fed } => (lib.answer)(
            message_bytes,
            block_bytes,
            fed,
        ),
    }
}

/// What the call writes, and answers.
pub open spec fn recovered(lib: Library, memory: Memory, call: RecoverCall) -> (
    Seq<u8>,
    WirehairResult,
) {
    match memory[call.raw] {
        Codec::Encoder { .. } => (Seq::empty(), WirehairResult::InvalidInput),
        Codec::Decoder { message_bytes, block_bytes, fed } => (
            (lib.message)(message_bytes, block_bytes, fed),
            (lib.recover)(message_bytes, block_bytes, fed),
        ),
    }
}

/// The memory after the decoder at `raw` became an encoder of the message that it
/// has, and the answer.
pub open spec fn turned(lib: Library, memory: Memory, raw: WirehairCodecRaw) -> (
    Memory,
    WirehairResult,
) {
    match memory[raw] {
        Codec::Encoder { .. } => (memory, WirehairResult::InvalidInput),
        Codec::Decoder { message_bytes, block_bytes, fed } => (
            memory.insert(
                raw,
                Codec::Encoder {
                    message: (lib.message)(message_bytes, block_bytes, fed),
                    block_bytes,
                },
            ),
            (lib.turn)(message_bytes, block_bytes, fed),
        ),
    }
}

/// The codec of the encoder encodes its message.
pub open spec fn encodes(memory: Memory, encoder: EncoderView) -> bool {
    memory.contains_key(encoder.raw) && memory[encoder.raw] == (Codec::Encoder {
        message: encoder.message,
        block_bytes: encoder.block_bytes,
    })
}

/// The codec of the decoder has been fed these blocks.
pub open spec fn decodes(memory: Memory, decoder: DecoderView, fed: Blocks) -> bool {
    memory.contains_key(decoder.raw) && memory[decoder.raw] == (Codec::Decoder {
        message_bytes: decoder.message_bytes,
        block_bytes: decoder.block_bytes,
        fed,
    })
}

/// A new encoder encodes its message.
pub proof fn new_encoder_encodes(
    memory: Memory,
    raw: WirehairCodecRaw,
    message: Seq<u8>,
    block_bytes: u32,
)
    requires
        message.len() <= u64::MAX,
    ensures
        encodes(
            encoder_made(memory, raw, message, encoder_create(message, block_bytes)),
            (EncoderView { raw, message, block_bytes }),
        ),
{
    assert(message.take(message.len() as int) =~= message);
}

/// A duplicate has the block size of its encoder and writes the same blocks, and
/// each of the two goes on doing so when the codec of the other is freed.
pub proof fn duplicate_writes_the_same_blocks(
    lib: Library,
    memory: Memory,
    encoder: EncoderView,
    raw: WirehairCodecRaw,
    id: u32,
    length: nat,
)
    requires
        encodes(memory, encoder),
        encoder.message.len() <= u64::MAX,
        !memory.contains_key(raw),
    ensures
        ({
            let duplicate = EncoderView { raw, ..encoder };
            let call = encoder_create(encoder.message, encoder.block_bytes);
            let after = encoder_made(memory, raw, encoder.message, call);
            let block = written(lib, memory, encode_call(encoder, id, length));
            &&& duplicate.block_bytes == encoder.block_bytes
            &&& encodes(after, encoder) && encodes(after, duplicate)
            &&& written(lib, after, encode_call(encoder, id, length)) == block
            &&& written(lib, after, encode_call(duplicate, id, length)) == block
            &&& written(lib, after.remove(encoder.raw), encode_call(duplicate, id, length)) == block
            &&& written(lib, after.remove(raw), encode_call(encoder, id, length)) == block
        }),
{
    new_encoder_encodes(memory, raw, encoder.message, encoder.block_bytes);
}

/// The memory and the decoder after the blocks were fed, one after the other. A
/// decoder that needs no more is fed no more.
pub open spec fn feeding(lib: Library, memory: Memory, decoder: DecoderView, blocks: Blocks) -> (
    Memory,
    DecoderView,
)
    decreases blocks.len(),
{
    if blocks.len() == 0 {
        (memory, decoder)
    } else {
        let (m, d) = feeding(lib, memory, decoder, blocks.drop_last());
        let (id, block) = blocks.last();
        match decode_call(d, id, block) {
            Some(call) => {
                let next = block_fed(m, call, block);
                (next, after_block(d, block_answer(lib, next, call.raw)))
            },
            None => (m, d),
        }
    }
}

proof fn lemma_answer(lib: Library, message: Seq<u8>, block_bytes: u32, blocks: Blocks)
    requires
        is_fountain_code(lib),
        message.len() <= u64::MAX,
        blocks.len() > 0,
        blocks_of(lib, message, block_bytes, blocks),
    ensures
        ({
            let n = message.len() as u64;
            let answer = (lib.answer)(n, block_bytes, blocks);
            &&& answer is Success || answer is NeedMore
            &&& answer is Success ==> {
                &&& (lib.message)(n, block_bytes, blocks) == message
                &&& (lib.recover)(n, block_bytes, blocks) is Success
                &&& (lib.turn)(n, block_bytes, blocks) is Success
            }
        }),
{
}

proof fn lemma_front(lib: Library, message: Seq<u8>, block_bytes: u32, blocks: Blocks)
    requires
        blocks_of(lib, message, block_bytes, blocks),
        blocks.len() > 0,
    ensures
        blocks_of(lib, message, block_bytes, blocks.drop_last()),
{
    let front = blocks.drop_last();
    assert forall|i: int| 0 <= i < front.len() implies (#[trigger] front[i]).1 == (lib.block)(
        message,
        block_bytes,
        front[i].0,
    ) by {
        assert(blocks[i].1 == (lib.block)(message, block_bytes, blocks[i].0));
    }
}

/// A decoder that needed all of the blocks was fed all of them, and the last
/// answer decides whether it needs more.
proof fn lemma_feeding(
    lib: Library,
    memory: Memory,
    decoder: DecoderView,
    message: Seq<u8>,
    blocks: Blocks,
)
    requires
        is_fountain_code(lib),
        blocks_of(lib, message, decoder.block_bytes, blocks),
        decodes(memory, decoder, Seq::empty()),
        decoder.need_more,
        blocks.len() > 0,
        feeding(lib, memory, decoder, blocks.drop_last()).1.need_more,
    ensures
        ({
            let (m, d) = feeding(lib, memory, decoder, blocks);
            &&& d == (DecoderView { need_more: d.need_more, ..decoder })
            &&& decodes(m, d, blocks)
            &&& d.need_more <==> (lib.answer)(
                decoder.message_bytes,
                decoder.block_bytes,
                blocks,
            ) is NeedMore
        }),
    decreases blocks.len(),
{
    let front = blocks.drop_last();
    let (m, d) = feeding(lib, memory, decoder, front);
    let (id, block) = blocks.last();
    lemma_front(lib, message, decoder.block_bytes, blocks);
    if front.len() > 0 {
        if !feeding(lib, memory, decoder, front.drop_last()).1.need_more {
            assert(feeding(lib, memory, decoder, front)
                == feeding(lib, memory, decoder, front.drop_last()));
        }
        lemma_feeding(lib, memory, decoder, message, front);
    } else {
        assert(front =~= Seq::empty());
    }
    assert(blocks[blocks.len() - 1].1 == (lib.block)(message, decoder.block_bytes, id));
    assert(block.len() <= u32::MAX);
    assert(block.take(block.len() as int) =~= block);
    assert(front.push((id, block)) =~= blocks);
    let call = decode_call(d, id, block)->0;
    assert(call.data_bytes == block.len());
    assert(d == decoder);
    assert(decodes(m, d, front));
    let next = block_fed(m, call, block);
    assert(decodes(next, d, blocks));
    assert(feeding(lib, memory, decoder, blocks) == (
        next,
        after_block(d, block_answer(lib, next, call.raw)),
    ));
}

/// The decoder was fed exactly the blocks, and the last of them was the first to
/// be enough.
pub open spec fn just_enough(
    lib: Library,
    memory: Memory,
    decoder: DecoderView,
    blocks: Blocks,
) -> bool {
    let front = blocks.drop_last();
    &&& blocks.len() > 0
    &&& feeding(lib, memory, decoder, front).1.need_more
    &&& !feeding(lib, memory, decoder, blocks).1.need_more
}

/// A decoder that is fed blocks of a message until they are enough recovers that
/// message.
pub proof fn recover_gives_the_message(
    lib: Library,
    memory: Memory,
    decoder: DecoderView,
    message: Seq<u8>,
    blocks: Blocks,
)
    requires
        is_fountain_code(lib),
        message.len() == decoder.message_bytes,
        blocks_of(lib, message, decoder.block_bytes, blocks),
        decodes(memory, decoder, Seq::empty()),
        decoder.need_more,
        just_enough(lib, memory, decoder, blocks),
    ensures
        ({
            let (m, d) = feeding(lib, memory, decoder, blocks);
            let (bytes, result) = recovered(lib, m, recover_call(d, message.len()));
            bytes == message && outcome(result) == Ok::<(), WirehairResult>(())
        }),
{
    lemma_feeding(lib, memory, decoder, message, blocks);
    lemma_answer(lib, message, decoder.block_bytes, blocks);
}

/// A decoder that is fed blocks of a message until they are enough becomes an
/// encoder of the same block size that writes the blocks of that message, also
/// those that were never fed.
pub proof fn turned_encoder_writes_the_same_blocks(
    lib: Library,
    memory: Memory,
    decoder: DecoderView,
    message: Seq<u8>,
    blocks: Blocks,
    id: u32,
    length: nat,
)
    requires
        is_fountain_code(lib),
        message.len() == decoder.message_bytes,
        blocks_of(lib, message, decoder.block_bytes, blocks),
        decodes(memory, decoder, Seq::empty()),
        decoder.need_more,
        just_enough(lib, memory, decoder, blocks),
    ensures
        ({
            let (m, d) = feeding(lib, memory, decoder, blocks);
            let (after, result) = turned(lib, m, d.raw);
            let encoder = turned_encoder(d);
            &&& result is Success
            &&& encoder.block_bytes == decoder.block_bytes
            &&& written(lib, after, encode_call(encoder, id, length)) == (lib.block)(
                message,
                decoder.block_bytes,
                id,
            )
        }),
{
    lemma_feeding(lib, memory, decoder, message, blocks);
    lemma_answer(lib, message, decoder.block_bytes, blocks);
}

/// The memory and the store after the fragments were fed to the recovery of the
/// chunk, one after the other.
pub open spec fn recovering(
    lib: Library,
    memory: Memory,
    s: StoreView,
    key: ChunkKey,
    fragments: Blocks,
) -> (Memory, StoreView)
    decreases fragments.len(),
{
    if fragments.len() == 0 {
        (memory, s)
    } else {
        let (m, t) = recovering(lib, memory, s, key, fragments.drop_last());
        let (index, fragment) = fragments.last();
        match fragment_call(t, key, index, fragment) {
            Some(call) => {
                let next = block_fed(m, call, fragment);
                (next, after_fragment(t, key, block_answer(lib, next, call.raw)))
            },
            None => (m, t),
        }
    }
}

/// Each of the fragments is what the uploading store generates for its number.
pub open spec fn generated(
    lib: Library,
    memory: Memory,
    uploader: StoreView,
    key: ChunkKey,
    fragments: Blocks,
) -> bool {
    forall|i: int|
        0 <= i < fragments.len() ==> (#[trigger] fragments[i]).1 == written(
            lib,
            memory,
            generate_call(uploader, key, fragments[i].0),
        )
}

/// As long as the recovery of a chunk goes on, it is its decoder that is fed.
proof fn lemma_recovering(
    lib: Library,
    memory: Memory,
    s: StoreView,
    key: ChunkKey,
    chunk: Seq<u8>,
    fragments: Blocks,
)
    requires
        is_fountain_code(lib),
        s.recovers.contains_key(key),
        s.recovers[key] matches Some(decoder) && decoder.need_more && decodes(
            memory,
            decoder,
            Seq::empty(),
        ) && decoder.message_bytes == chunk.len() && blocks_of(
            lib,
            chunk,
            decoder.block_bytes,
            fragments,
        ),
    ensures
        ({
            let (m, t) = recovering(lib, memory, s, key, fragments);
            let (n, d) = feeding(lib, memory, s.recovers[key]->0, fragments);
            &&& m == n
            &&& t.recovers.contains_key(key)
            &&& t.recovers[key] is Some <==> d.need_more
            &&& t.recovers[key] is Some ==> t == s && Some(d) == s.recovers[key]
        }),
    decreases fragments.len(),
{
    if fragments.len() > 0 {
        let decoder = s.recovers[key]->0;
        let front = fragments.drop_last();
        lemma_front(lib, chunk, decoder.block_bytes, fragments);
        lemma_recovering(lib, memory, s, key, chunk, front);
        if feeding(lib, memory, decoder, front).1.need_more {
            lemma_feeding(lib, memory, decoder, chunk, fragments);
            lemma_answer(lib, chunk, decoder.block_bytes, fragments);
        }
    }
}

/// The last of the fragments is the one that completes the chunk.
pub open spec fn completes(
    lib: Library,
    memory: Memory,
    s: StoreView,
    key: ChunkKey,
    fragments: Blocks,
) -> bool {
    &&& fragments.len() > 0
    &&& recovering(lib, memory, s, key, fragments.drop_last()).1.recovers[key] is Some
    &&& recovering(lib, memory, s, key, fragments).1.recovers[key] is None
}

/// A store that uploads `chunk` under `key`, with its codec.
pub open spec fn uploading(
    memory: Memory,
    s: StoreView,
    key: ChunkKey,
    chunk: Seq<u8>,
    raw: WirehairCodecRaw,
) -> (Memory, StoreView) {
    let block_bytes = s.fragment_size;
    (
        encoder_made(memory, raw, chunk, encoder_create(chunk, block_bytes)),
        with_upload(s, key, (EncoderView { raw, message: chunk, block_bytes })),
    )
}

/// A store that begins to recover the chunk of `key`, with its codec.
pub open spec fn recover_begun(
    memory: Memory,
    s: StoreView,
    key: ChunkKey,
    raw: WirehairCodecRaw,
) -> (Memory, StoreView) {
    let call = DecoderCreate {
        message_bytes: s.chunk_bytes() as u64,
        block_bytes: s.fragment_size,
    };
    (decoder_made(memory, raw, call), with_recover(s, key, Some(new_decoder(s, raw))))
}

proof fn lemma_completes(
    lib: Library,
    ours: (Memory, StoreView),
    theirs: (Memory, StoreView),
    key: ChunkKey,
    chunk: Seq<u8>,
    our_raw: WirehairCodecRaw,
    their_raw: WirehairCodecRaw,
    fragments: Blocks,
)
    requires
        is_fountain_code(lib),
        ours.1.fragment_size == theirs.1.fragment_size,
        ours.1.inner_k == theirs.1.inner_k,
        chunk.len() == theirs.1.chunk_bytes(),
        ({
            let (um, us) = uploading(theirs.0, theirs.1, key, chunk, their_raw);
            let (rm, rs) = recover_begun(ours.0, ours.1, key, our_raw);
            generated(lib, um, us, key, fragments) && completes(lib, rm, rs, key, fragments)
        }),
    ensures
        ({
            let (rm, rs) = recover_begun(ours.0, ours.1, key, our_raw);
            let front = recovering(lib, rm, rs, key, fragments.drop_last()).1;
            let decoder = new_decoder(ours.1, our_raw);
            &&& chunk.len() <= u64::MAX
            &&& decodes(rm, decoder, Seq::empty())
            &&& blocks_of(lib, chunk, decoder.block_bytes, fragments)
            &&& just_enough(lib, rm, decoder, fragments)
            &&& recovering(lib, rm, rs, key, fragments).0 == feeding(lib, rm, decoder, fragments).0
            &&& leaving_decoder(front, key) == feeding(lib, rm, decoder, fragments).1
            &&& decoder.message_bytes == chunk.len()
        }),
{
    let (um, us) = uploading(theirs.0, theirs.1, key, chunk, their_raw);
    let (rm, rs) = recover_begun(ours.0, ours.1, key, our_raw);
    let decoder = new_decoder(ours.1, our_raw);
    let (size, k) = (ours.1.fragment_size, ours.1.inner_k);
    assert(0 <= size * k <= u64::MAX) by (nonlinear_arith)
        requires
            0 <= size <= u32::MAX,
            0 <= k <= u32::MAX,
    ;
    new_encoder_encodes(theirs.0, their_raw, chunk, theirs.1.fragment_size);
    assert(blocks_of(lib, chunk, decoder.block_bytes, fragments)) by {
        assert forall|i: int| 0 <= i < fragments.len() implies (#[trigger] fragments[i]).1 == (
        lib.block)(chunk, decoder.block_bytes, fragments[i].0) by {
            assert(fragments[i].1 == written(lib, um, generate_call(us, key, fragments[i].0)));
        }
    }
    lemma_front(lib, chunk, decoder.block_bytes, fragments);
    lemma_recovering(lib, rm, rs, key, chunk, fragments.drop_last());
    lemma_recovering(lib, rm, rs, key, chunk, fragments);
    lemma_feeding(lib, rm, decoder, chunk, fragments);
}

/// A chunk that one store uploads is what another store recovers from its
/// fragments: with the fragment that completes it, the call writes that chunk.
pub proof fn recovered_chunk_is_the_uploaded_one(
    lib: Library,
    ours: (Memory, StoreView),
    theirs: (Memory, StoreView),
    key: ChunkKey,
    chunk: Seq<u8>,
    our_raw: WirehairCodecRaw,
    their_raw: WirehairCodecRaw,
    fragments: Blocks,
)
    requires
        is_fountain_code(lib),
        ours.1.fragment_size == theirs.1.fragment_size,
        ours.1.inner_k == theirs.1.inner_k,
        chunk.len() == theirs.1.chunk_bytes(),
        ({
            let (um, us) = uploading(theirs.0, theirs.1, key, chunk, their_raw);
            let (rm, rs) = recover_begun(ours.0, ours.1, key, our_raw);
            generated(lib, um, us, key, fragments) && completes(lib, rm, rs, key, fragments)
        }),
    ensures
        ({
            let (rm, rs) = recover_begun(ours.0, ours.1, key, our_raw);
            let front = recovering(lib, rm, rs, key, fragments.drop_last()).1;
            let memory = recovering(lib, rm, rs, key, fragments).0;
            let call = recover_call(leaving_decoder(front, key), ours.1.chunk_bytes() as nat);
            let (bytes, result) = recovered(lib, memory, call);
            bytes == chunk && outcome(result) == Ok::<(), WirehairResult>(())
        }),
{
    lemma_completes(lib, ours, theirs, key, chunk, our_raw, their_raw, fragments);
    let rm = recover_begun(ours.0, ours.1, key, our_raw).0;
    recover_gives_the_message(lib, rm, new_decoder(ours.1, our_raw), chunk, fragments);
}

/// A fragment that a store makes again from the fragments of a chunk is the one
/// that the uploading store generates for that index.
pub proof fn repaired_fragment_is_the_uploaded_one(
    lib: Library,
    ours: (Memory, StoreView),
    theirs: (Memory, StoreView),
    key: ChunkKey,
    chunk: Seq<u8>,
    our_raw: WirehairCodecRaw,
    their_raw: WirehairCodecRaw,
    fragments: Blocks,
    index: u32,
)
    requires
        is_fountain_code(lib),
        ours.1.fragment_size == theirs.1.fragment_size,
        ours.1.inner_k == theirs.1.inner_k,
        chunk.len() == theirs.1.chunk_bytes(),
        ({
            let (um, us) = uploading(theirs.0, theirs.1, key, chunk, their_raw);
            let (rm, rs) = recover_begun(ours.0, ours.1, key, our_raw);
            generated(lib, um, us, key, fragments) && completes(lib, rm, rs, key, fragments)
        }),
    ensures
        ({
            let (um, us) = uploading(theirs.0, theirs.1, key, chunk, their_raw);
            let (rm, rs) = recover_begun(ours.0, ours.1, key, our_raw);
            let front = recovering(lib, rm, rs, key, fragments.drop_last()).1;
            let memory = recovering(lib, rm, rs, key, fragments).0;
            let decoder = leaving_decoder(front, key);
            let (after, result) = turned(lib, memory, decoder.raw);
            let call = encode_call(
                turned_encoder(decoder),
                index,
                ours.1.fragment_size as nat,
            );
            &&& result is Success
            &&& written(lib, after, call) == written(lib, um, generate_call(us, key, index))
        }),
{
    lemma_completes(lib, ours, theirs, key, chunk, our_raw, their_raw, fragments);
    let rm = recover_begun(ours.0, ours.1, key, our_raw).0;
    turned_encoder_writes_the_same_blocks(
        lib,
        rm,
        new_decoder(ours.1, our_raw),
        chunk,
        fragments,
        index,
        ours.1.fragment_size as nat,
    );
    new_encoder_encodes(theirs.0, their_raw, chunk, theirs.1.fragment_size);
}

/// Once a chunk is complete, no fragment changes anything any more.
pub proof fn complete_chunk_takes_no_more(
    lib: Library,
    memory: Memory,
    s: StoreView,
    key: ChunkKey,
    fragments: Blocks,
)
    requires
        s.recovers[key] is None,
    ensures
        recovering(lib, memory, s, key, fragments) == (memory, s),
        forall|index: u32, fragment: Seq<u8>|
            (#[trigger] fragment_call(s, key, index, fragment)) is None,
    decreases fragments.len(),
{
    if fragments.len() > 0 {
        complete_chunk_takes_no_more(lib, memory, s, key, fragments.drop_last());
    }
}

/// What a decoder for a message and blocks of these sizes recovers from the
/// blocks, where the last of them is the first to be enough.
pub open spec fn decoded(
    lib: Library,
    raw: WirehairCodecRaw,
    message_bytes: u64,
    block_bytes: u32,
    blocks: Blocks,
) -> Option<Seq<u8>> {
    let call = DecoderCreate { message_bytes, block_bytes };
    let memory = decoder_made(Map::empty(), raw, call);
    let decoder = DecoderView { raw, message_bytes, block_bytes, need_more: true };
    if just_enough(lib, memory, decoder, blocks) {
        let (m, d) = feeding(lib, memory, decoder, blocks);
        Some(recovered(lib, m, recover_call(d, message_bytes as nat)).0)
    } else {
        None
    }
}

proof fn lemma_decoded(
    lib: Library,
    raw: WirehairCodecRaw,
    message: Seq<u8>,
    block_bytes: u32,
    blocks: Blocks,
)
    requires
        is_fountain_code(lib),
        message.len() <= u64::MAX,
        blocks_of(lib, message, block_bytes, blocks),
        decoded(lib, raw, message.len() as u64, block_bytes, blocks) is Some,
    ensures
        decoded(lib, raw, message.len() as u64, block_bytes, blocks) == Some(message),
{
    let message_bytes = message.len() as u64;
    let call = DecoderCreate { message_bytes, block_bytes };
    let memory = decoder_made(Map::empty(), raw, call);
    let decoder = DecoderView { raw, message_bytes, block_bytes, need_more: true };
    recover_gives_the_message(lib, memory, decoder, message, blocks);
}

/// `chunks` are decoded, each under its index, from fragments that were encoded
/// from the chunks of `object`.
pub open spec fn fetched(
    lib: Library,
    raw: WirehairCodecRaw,
    config: StateConfig,
    object: Seq<u8>,
    fragments: Seq<Blocks>,
    chunks: Blocks,
) -> bool {
    let (chunk_size, size) = (config.chunk_bytes() as u32, config.fragment_size);
    &&& fragments.len() == chunks.len()
    &&& forall|i: int|
        0 <= i < chunks.len() ==> {
            let (index, chunk) = #[trigger] chunks[i];
            &&& blocks_of(lib, (lib.block)(object, chunk_size, index), size, fragments[i])
            &&& decoded(lib, raw, chunk_size as u64, size, fragments[i]) == Some(chunk)
        }
}

/// What is got back in coded chunks is what was put: an object that is decoded
/// from chunks, each of them decoded from fragments, is the object whose chunks
/// and fragments were encoded, and its digest is the one that the put recorded.
pub proof fn what_is_put_in_chunks_is_got_back(
    lib: Library,
    raw: WirehairCodecRaw,
    s: StateView,
    id: int,
    object: Seq<u8>,
    now: Timestamp,
    fragments: Seq<Blocks>,
    chunks: Blocks,
    got: Seq<u8>,
)
    requires
        is_fountain_code(lib),
        0 <= id < s.benchmarks.len(),
        0 < s.config.chunk_bytes() <= u32::MAX,
        0 < s.config.outer_k,
        object.len() == s.config.object_bytes(),
        fetched(lib, raw, s.config, object, fragments, chunks),
        decoded(
            lib,
            raw,
            s.config.object_bytes() as u64,
            s.config.chunk_bytes() as u32,
            chunks,
        ) == Some(got),
    ensures
        got == object,
        is_recorded(put_begun(s, id, sha256_digest(object), now), id, got),
{
    let (chunk_size, size) = (s.config.chunk_bytes() as u32, s.config.fragment_size);
    let (c, k) = (chunk_size as int, s.config.outer_k as int);
    assert(c * k <= u64::MAX && c * k > 0) by (nonlinear_arith)
        requires
            0 < c <= u32::MAX,
            0 < k <= u32::MAX,
    ;
    assert((c * k) % c == 0) by (nonlinear_arith)
        requires
            c > 0,
    ;
    assert(blocks_of(lib, object, chunk_size, chunks)) by {
        assert forall|i: int| 0 <= i < chunks.len() implies (#[trigger] chunks[i]).1 == (lib.block)(
            object,
            chunk_size,
            chunks[i].0,
        ) by {
            let chunk = (lib.block)(object, chunk_size, chunks[i].0);
            assert(chunk.len() == chunk_size);
            lemma_decoded(lib, raw, chunk, size, fragments[i]);
        }
    }
    lemma_decoded(lib, raw, object, chunk_size, chunks);
}

} // verus!
