//! The chunks that a peer uploads or recovers, and the files of their fragments.

use crate::common::{decimal_string, hex_string};
#[allow(unused_imports)]
use crate::common::{decimal, hex};
use crate::hash::sha256;
#[allow(unused_imports)]
use crate::hash::sha256_digest;
use crate::sorted_map::SortedMap;
use crate::wirehair::{
    DecodeCall, DecoderCreate, EncodeCall, EncoderCreate, RecoverCall, WirehairCodecRaw,
    WirehairDecoder, WirehairEncoder, WirehairResult,
};
#[allow(unused_imports)]
use crate::wirehair::{
    after_block, decode_call, encode_call, recover_call, DecoderView, EncoderView,
};
use vstd::prelude::*;

verus! {

pub type ChunkKey = [u8; 32];

/// The file of a fragment: `name`, in the directory `dir`, below `root`.
#[derive(Debug)]
pub struct FragmentFile {
    pub root: String,
    pub dir: String,
    pub name: String,
}

/// `file` is that of fragment `index` of the chunk whose directory is `dir`.
pub open spec fn is_fragment_file(
    file: FragmentFile,
    root: Seq<char>,
    dir: Seq<char>,
    index: u32,
) -> bool {
    &&& file.root@ == root
    &&& file.dir@ == dir
    &&& file.name@ == decimal(index as nat)
}

#[verifier::ext_equal]
pub struct StoreView {
    pub path: Seq<char>,
    pub fragment_size: u32,
    pub inner_k: u32,
    pub upload_chunks: Map<ChunkKey, EncoderView>,
    pub recovers: Map<ChunkKey, Option<DecoderView>>,
}

/// The encoders of the chunks that are uploaded, and the decoders of those that
/// are recovered. A decoder leaves once its chunk is at hand.
pub struct Store {
    path: String,
    fragment_size: u32,
    inner_k: u32,
    upload_chunks: SortedMap<ChunkKey, WirehairEncoder>,
    recovers: SortedMap<ChunkKey, Option<WirehairDecoder>>,
}

spec fn cell_view(cell: Option<WirehairDecoder>) -> Option<DecoderView> {
    match cell {
        Some(decoder) => Some(decoder@),
        None => None,
    }
}

impl View for Store {
    type V = StoreView;

    closed spec fn view(&self) -> StoreView {
        StoreView {
            path: self.path@,
            fragment_size: self.fragment_size,
            inner_k: self.inner_k,
            upload_chunks: self.upload_chunks@.map_values(|e: WirehairEncoder| e@),
            recovers: self.recovers@.map_values(|c: Option<WirehairDecoder>| cell_view(c)),
        }
    }
}

impl StoreView {
    /// The bytes of a chunk.
    pub open spec fn chunk_bytes(self) -> int {
        self.fragment_size * self.inner_k
    }

    /// Every encoder makes fragments, and every decoder waits for more of them.
    pub open spec fn coherent(self) -> bool {
        &&& forall|k: ChunkKey| #[trigger]
            self.upload_chunks.contains_key(k) ==> self.upload_chunks[k].block_bytes
                == self.fragment_size
        &&& forall|k: ChunkKey| #[trigger]
            self.recovers.contains_key(k) ==> (self.recovers[k] matches Some(decoder) ==> {
                &&& decoder.block_bytes == self.fragment_size
                &&& decoder.message_bytes == self.chunk_bytes()
                &&& decoder.need_more
            })
    }
}

/// The store with the encoder of the chunk.
pub open spec fn with_upload(s: StoreView, key: ChunkKey, encoder: EncoderView) -> StoreView {
    StoreView { upload_chunks: s.upload_chunks.insert(key, encoder), ..s }
}

/// The store without an encoder of the chunk.
pub open spec fn without_upload(s: StoreView, key: ChunkKey) -> StoreView {
    StoreView { upload_chunks: s.upload_chunks.remove(key), ..s }
}

/// The store with the decoder of the chunk, or with none any more.
pub open spec fn with_recover(
    s: StoreView,
    key: ChunkKey,
    decoder: Option<DecoderView>,
) -> StoreView {
    StoreView { recovers: s.recovers.insert(key, decoder), ..s }
}

/// The store as if the chunk had never been recovered.
pub open spec fn without_recover(s: StoreView, key: ChunkKey) -> StoreView {
    StoreView { recovers: s.recovers.remove(key), ..s }
}

/// The call that makes fragment `index` of a chunk that is uploaded.
pub open spec fn generate_call(s: StoreView, key: ChunkKey, index: u32) -> EncodeCall {
    encode_call(s.upload_chunks[key], index, s.fragment_size as nat)
}

/// The decoder with which the recovery of a chunk starts.
pub open spec fn new_decoder(s: StoreView, raw: WirehairCodecRaw) -> DecoderView {
    DecoderView {
        raw,
        message_bytes: s.chunk_bytes() as u64,
        block_bytes: s.fragment_size,
        need_more: true,
    }
}

/// The call that feeds a fragment to the decoder of the chunk, where it is not
/// recovered yet.
pub open spec fn fragment_call(
    s: StoreView,
    key: ChunkKey,
    index: u32,
    fragment: Seq<u8>,
) -> Option<DecodeCall> {
    match s.recovers[key] {
        Some(decoder) => decode_call(decoder, index, fragment),
        None => None,
    }
}

/// The store after the C library answered `result` to a fragment: once no more
/// is needed, the decoder leaves.
pub open spec fn after_fragment(s: StoreView, key: ChunkKey, result: WirehairResult) -> StoreView {
    if result is Success {
        with_recover(s, key, None)
    } else {
        s
    }
}

/// The decoder that leaves.
pub open spec fn leaving_decoder(s: StoreView, key: ChunkKey) -> DecoderView {
    after_block(s.recovers[key]->0, WirehairResult::Success)
}

/// To finish an upload undoes its start.
pub proof fn finish_undoes_upload(s: StoreView, key: ChunkKey, encoder: EncoderView)
    requires
        !s.upload_chunks.contains_key(key),
    ensures
        without_upload(with_upload(s, key, encoder), key) == s,
{
    assert(without_upload(with_upload(s, key, encoder), key) =~= s);
}

/// To finish a recovery undoes its start, whatever became of the decoder.
pub proof fn finish_undoes_recover(
    s: StoreView,
    key: ChunkKey,
    decoder: Option<DecoderView>,
    later: Option<DecoderView>,
)
    requires
        !s.recovers.contains_key(key),
    ensures
        without_recover(with_recover(with_recover(s, key, decoder), key, later), key) == s,
{
    assert(without_recover(with_recover(with_recover(s, key, decoder), key, later), key) =~= s);
}

/// A fragment that is to be made by the call, in this buffer.
pub struct GenerateFragment {
    pub fragment: Vec<u8>,
    pub call: EncodeCall,
}

/// A chunk that is to be written by the call into this buffer. The codec is freed
/// after that.
pub struct RecoverChunk {
    pub decoder: WirehairDecoder,
    pub chunk: Vec<u8>,
    pub call: RecoverCall,
}

/// A decoder that is to become an encoder, which then makes block `index` in this
/// buffer.
pub struct EncodeAgain {
    pub decoder: WirehairDecoder,
    pub index: u32,
    pub fragment: Vec<u8>,
}

impl Store {
    #[verifier::type_invariant]
    spec fn well_formed(self) -> bool {
        self@.coherent()
    }

    /// A store below `path`, of chunks of `inner_k` fragments.
    pub fn new(path: String, fragment_size: u32, inner_k: u32) -> (r: Self)
        ensures
            r@ == (StoreView {
                path: path@,
                fragment_size,
                inner_k,
                upload_chunks: Map::empty(),
                recovers: Map::empty(),
            }),
    {
        let r = Store {
            path,
            fragment_size,
            inner_k,
            upload_chunks: SortedMap::new(),
            recovers: SortedMap::new(),
        };
        assert(r@ =~= (StoreView {
            path: path@,
            fragment_size,
            inner_k,
            upload_chunks: Map::empty(),
            recovers: Map::empty(),
        }));
        r
    }

    /// Whether the chunk is being uploaded.
    pub fn has_upload(&self, key: &ChunkKey) -> (r: bool)
        ensures
            r == self@.upload_chunks.contains_key(*key),
    {
        self.upload_chunks.contains_key(key)
    }

    /// Whether the chunk is being recovered, or was and is not finished.
    pub fn has_recover(&self, key: &ChunkKey) -> (r: bool)
        ensures
            r == self@.recovers.contains_key(*key),
    {
        self.recovers.contains_key(key)
    }

    /// The call that makes the codec for `upload_chunk`.
    pub fn upload_call(&self, chunk: &[u8]) -> (r: EncoderCreate)
        ensures
            r.message_bytes == chunk@.len(),
            r.block_bytes == self@.fragment_size,
    {
        WirehairEncoder::create(chunk, self.fragment_size)
    }

    /// Takes a chunk to be uploaded, with the codec `raw` for it. A codec that
    /// comes back is to be freed.
    pub fn upload_chunk(&mut self, chunk: Vec<u8>, raw: WirehairCodecRaw) -> (r: (
        ChunkKey,
        Option<WirehairCodecRaw>,
    ))
        requires
            raw.address != 0,
        ensures
            r.0@ == sha256_digest(chunk@),
            r.1 == (if old(self)@.upload_chunks.contains_key(r.0) {
                Some(old(self)@.upload_chunks[r.0].raw)
            } else {
                None
            }),
            final(self)@ == with_upload(
                old(self)@,
                r.0,
                (EncoderView { raw, message: chunk@, block_bytes: old(self)@.fragment_size }),
            ),
    {
        proof {
            use_type_invariant(&*self);
        }
        let key = sha256(chunk.as_slice());
        let encoder = WirehairEncoder::new(chunk, self.fragment_size, raw);
        let mut upload_chunks: SortedMap<ChunkKey, WirehairEncoder> = SortedMap::new();
        std::mem::swap(&mut self.upload_chunks, &mut upload_chunks);
        let replaced = upload_chunks.insert(key, encoder);
        let ghost after = StoreView {
            upload_chunks: old(self)@.upload_chunks.insert(key, encoder@),
            ..old(self)@
        };
        assert(upload_chunks@.map_values(|e: WirehairEncoder| e@) =~= after.upload_chunks);
        self.upload_chunks = upload_chunks;
        assert(self@ =~= after);
        match replaced {
            Some(encoder) => (key, Some(encoder.free())),
            None => (key, None),
        }
    }

    /// The call that makes fragment `index` of a chunk that is uploaded.
    pub fn generate_fragment(&self, key: &ChunkKey, index: u32) -> (r: GenerateFragment)
        requires
            self@.upload_chunks.contains_key(*key),
        ensures
            r.fragment@ == Seq::new(self@.fragment_size as nat, |i: int| 0u8),
            r.call == generate_call(self@, *key, index),
    {
        proof {
            use_type_invariant(self);
        }
        let fragment: Vec<u8> = vec![0u8; self.fragment_size as usize];
        assert(fragment@ =~= Seq::new(self@.fragment_size as nat, |i: int| 0u8));
        match self.upload_chunks.get(key) {
            Some(encoder) => {
                assert(self@.upload_chunks.contains_key(*key));
                let call = encoder.encode(index, fragment.as_slice());
                GenerateFragment { fragment, call }
            },
            None => {
                let raw = WirehairCodecRaw { address: 0 };
                let call = EncodeCall { raw, block_id: index, out_bytes: 0 };
                GenerateFragment { fragment, call }
            },
        }
    }

    /// Ends the upload of the chunk. A codec that comes back is to be freed.
    pub fn finish_upload(&mut self, key: &ChunkKey) -> (r: Option<WirehairCodecRaw>)
        ensures
            r == (if old(self)@.upload_chunks.contains_key(*key) {
                Some(old(self)@.upload_chunks[*key].raw)
            } else {
                None
            }),
            final(self)@ == without_upload(old(self)@, *key),
    {
        proof {
            use_type_invariant(&*self);
        }
        let mut upload_chunks: SortedMap<ChunkKey, WirehairEncoder> = SortedMap::new();
        std::mem::swap(&mut self.upload_chunks, &mut upload_chunks);
        let removed = upload_chunks.remove(key);
        let ghost after = StoreView {
            upload_chunks: old(self)@.upload_chunks.remove(*key),
            ..old(self)@
        };
        assert(upload_chunks@.map_values(|e: WirehairEncoder| e@) =~= after.upload_chunks);
        self.upload_chunks = upload_chunks;
        assert(self@ =~= after);
        match removed {
            Some(encoder) => Some(encoder.free()),
            None => None,
        }
    }

    /// The name of the directory of the chunk.
    fn chunk_dir(&self, key: &ChunkKey) -> (r: String)
        ensures
            r@ == hex(key@),
    {
        hex_string(key.as_slice())
    }

    /// The file that holds fragment `index` of the chunk.
    pub fn get_fragment(&self, key: &ChunkKey, index: u32) -> (r: FragmentFile)
        ensures
            is_fragment_file(r, self@.path, hex(key@), index),
    {
        FragmentFile {
            root: self.path.clone(),
            dir: self.chunk_dir(key),
            name: decimal_string(index as u64),
        }
    }

    /// The file, in a new directory, that fragment `index` of the chunk is
    /// written to.
    pub fn put_fragment(&self, key: &ChunkKey, index: u32, fragment: &Vec<u8>) -> (r: FragmentFile)
        requires
            fragment@.len() == self@.fragment_size,
        ensures
            is_fragment_file(r, self@.path, hex(key@), index),
    {
        self.get_fragment(key, index)
    }

    /// The call that makes the codec for `recover_chunk`, where one is needed.
    pub fn recover_call(&self, key: &ChunkKey) -> (r: Option<DecoderCreate>)
        ensures
            match r {
                Some(call) => {
                    &&& !self@.recovers.contains_key(*key)
                    &&& call.message_bytes == self@.chunk_bytes()
                    &&& call.block_bytes == self@.fragment_size
                },
                None => self@.recovers.contains_key(*key),
            },
    {
        if self.recovers.contains_key(key) {
            return None;
        }
        Some(WirehairDecoder::create(self.chunk_length(), self.fragment_size))
    }

    fn chunk_length(&self) -> (r: u64)
        ensures
            r == self@.chunk_bytes(),
    {
        assert(self.fragment_size * self.inner_k <= u64::MAX) by (nonlinear_arith)
            requires
                self.fragment_size <= u32::MAX,
                self.inner_k <= u32::MAX,
        ;
        self.fragment_size as u64 * self.inner_k as u64
    }

    /// Starts to recover the chunk, with the codec `raw` for it.
    pub fn recover_chunk(&mut self, key: &ChunkKey, raw: WirehairCodecRaw)
        requires
            !old(self)@.recovers.contains_key(*key),
            raw.address != 0,
        ensures
            final(self)@ == with_recover(
                old(self)@,
                *key,
                Some(new_decoder(old(self)@, raw)),
            ),
    {
        proof {
            use_type_invariant(&*self);
        }
        let decoder = WirehairDecoder::new(self.chunk_length(), self.fragment_size, raw);
        self.set_recover(*key, Some(decoder));
    }

    /// Replaces the decoder of the chunk.
    fn set_recover(&mut self, key: ChunkKey, cell: Option<WirehairDecoder>)
        requires
            cell matches Some(decoder) ==> {
                &&& decoder@.block_bytes == old(self)@.fragment_size
                &&& decoder@.message_bytes == old(self)@.chunk_bytes()
                &&& decoder@.need_more
            },
        ensures
            final(self)@ == with_recover(old(self)@, key, cell_view(cell)),
    {
        proof {
            use_type_invariant(&*self);
        }
        let mut recovers: SortedMap<ChunkKey, Option<WirehairDecoder>> = SortedMap::new();
        assert(recovers@.map_values(|c: Option<WirehairDecoder>| cell_view(c)) =~= Map::empty());
        assert(StoreView { recovers: Map::empty(), ..self@ }.coherent());
        std::mem::swap(&mut self.recovers, &mut recovers);
        let _ = recovers.insert(key, cell);
        let ghost after = StoreView {
            recovers: old(self)@.recovers.insert(key, cell_view(cell)),
            ..old(self)@
        };
        assert(recovers@.map_values(|c: Option<WirehairDecoder>| cell_view(c)) =~= after.recovers);
        self.recovers = recovers;
        assert(self@ =~= after);
    }

    /// Takes the chunk out of those that are recovered.
    fn take_recover(&mut self, key: &ChunkKey) -> (r: Option<WirehairDecoder>)
        ensures
            match r {
                Some(decoder) => old(self)@.recovers.contains_key(*key) && old(self)@.recovers[*key]
                    == Some(decoder@),
                None => old(self)@.recovers.contains_key(*key) ==> old(self)@.recovers[*key] is None,
            },
            final(self)@ == without_recover(old(self)@, *key),
    {
        proof {
            use_type_invariant(&*self);
        }
        let mut recovers: SortedMap<ChunkKey, Option<WirehairDecoder>> = SortedMap::new();
        assert(recovers@.map_values(|c: Option<WirehairDecoder>| cell_view(c)) =~= Map::empty());
        assert(StoreView { recovers: Map::empty(), ..self@ }.coherent());
        std::mem::swap(&mut self.recovers, &mut recovers);
        let removed = recovers.remove(key);
        let ghost after = StoreView {
            recovers: old(self)@.recovers.remove(*key),
            ..old(self)@
        };
        assert(recovers@.map_values(|c: Option<WirehairDecoder>| cell_view(c)) =~= after.recovers);
        self.recovers = recovers;
        assert(self@ =~= after);
        match removed {
            Some(cell) => cell,
            None => None,
        }
    }

    /// The call that feeds fragment `remote_index` to the decoder of the chunk.
    /// There is none where the chunk is recovered already.
    pub fn feed_call(&self, key: &ChunkKey, remote_index: u32, remote_fragment: &[u8]) -> (r: Option<
        DecodeCall,
    >)
        requires
            self@.recovers.contains_key(*key),
            remote_fragment@.len() == self@.fragment_size,
        ensures
            r == fragment_call(self@, *key, remote_index, remote_fragment@),
            r is Some <==> self@.recovers[*key] is Some,
    {
        proof {
            use_type_invariant(self);
        }
        match self.recovers.get(key) {
            Some(cell) => {
                assert(self@.recovers.contains_key(*key));
                match cell {
                    Some(decoder) => decoder.decode(remote_index, remote_fragment),
                    None => None,
                }
            },
            None => None,
        }
    }

    /// Takes what the call of `feed_call` returned. Once no more is needed, the
    /// decoder leaves.
    fn with_fragment(&mut self, key: &ChunkKey, result: WirehairResult) -> (r: Option<
        WirehairDecoder,
    >)
        requires
            old(self)@.recovers.contains_key(*key),
            old(self)@.recovers[*key] is Some,
            result is Success || result is NeedMore,
        ensures
            final(self)@ == after_fragment(old(self)@, *key, result),
            r is Some <==> result is Success,
            r matches Some(decoder) ==> {
                &&& decoder@ == leaving_decoder(old(self)@, *key)
                &&& decoder@.message_bytes == old(self)@.chunk_bytes()
            },
    {
        proof {
            use_type_invariant(&*self);
        }
        let ghost before = self@;
        assert(before.recovers.contains_key(*key));
        if let Some(mut decoder) = self.take_recover(key) {
            let done = decoder.decoded(result);
            if let Ok(true) = done {
                self.set_recover(*key, None);
                assert(self@ =~= (StoreView {
                    recovers: before.recovers.insert(*key, None),
                    ..before
                }));
                return Some(decoder);
            }
            assert(decoder@ == before.recovers[*key]->0);
            self.set_recover(*key, Some(decoder));
            assert(self@ =~= before);
        }
        None
    }

    /// Takes what the call of `feed_call` returned, in order to recover the chunk.
    pub fn recover_with_fragment(&mut self, key: &ChunkKey, result: WirehairResult) -> (r: Option<
        RecoverChunk,
    >)
        requires
            old(self)@.recovers.contains_key(*key),
            old(self)@.recovers[*key] is Some,
            old(self)@.chunk_bytes() <= u32::MAX,
            result is Success || result is NeedMore,
        ensures
            final(self)@ == after_fragment(old(self)@, *key, result),
            r is Some <==> result is Success,
            r matches Some(step) ==> {
                let length = old(self)@.chunk_bytes() as nat;
                &&& step.decoder@ == leaving_decoder(old(self)@, *key)
                &&& step.chunk@ == Seq::new(length, |i: int| 0u8)
                &&& step.call == recover_call(step.decoder@, length)
            },
    {
        match self.with_fragment(key, result) {
            Some(decoder) => {
                let chunk: Vec<u8> = vec![0u8; self.chunk_length() as usize];
                assert(chunk@ =~= Seq::new(old(self)@.chunk_bytes() as nat, |i: int| 0u8));
                let call = decoder.recover(chunk.as_slice());
                Some(RecoverChunk { decoder, chunk, call })
            },
            None => None,
        }
    }

    /// Takes what the call of `feed_call` returned, in order to make fragment
    /// `index` of the chunk.
    pub fn encode_with_fragment(
        &mut self,
        key: &ChunkKey,
        result: WirehairResult,
        index: u32,
    ) -> (r: Option<EncodeAgain>)
        requires
            old(self)@.recovers.contains_key(*key),
            old(self)@.recovers[*key] is Some,
            result is Success || result is NeedMore,
        ensures
            final(self)@ == after_fragment(old(self)@, *key, result),
            r is Some <==> result is Success,
            r matches Some(step) ==> {
                &&& step.decoder@ == leaving_decoder(old(self)@, *key)
                &&& step.index == index
                &&& step.fragment@ == Seq::new(old(self)@.fragment_size as nat, |i: int| 0u8)
            },
    {
        match self.with_fragment(key, result) {
            Some(decoder) => {
                let fragment: Vec<u8> = vec![0u8; self.fragment_size as usize];
                assert(fragment@ =~= Seq::new(old(self)@.fragment_size as nat, |i: int| 0u8));
                Some(EncodeAgain { decoder, index, fragment })
            },
            None => None,
        }
    }

    /// Ends the recovery of the chunk. A codec that comes back is to be freed.
    pub fn finish_recover(&mut self, key: &ChunkKey) -> (r: Option<WirehairCodecRaw>)
        ensures
            r == (if old(self)@.recovers.contains_key(*key) {
                match old(self)@.recovers[*key] {
                    Some(decoder) => Some(decoder.raw),
                    None => None,
                }
            } else {
                None
            }),
            final(self)@ == without_recover(old(self)@, *key),
    {
        match self.take_recover(key) {
            Some(decoder) => Some(decoder.free()),
            None => None,
        }
    }
}

/// Different fragments have files of their own: what is written to the file of one
/// does not change that of another.
pub proof fn fragments_do_not_share_files(
    one: FragmentFile,
    other: FragmentFile,
    root: Seq<char>,
    a: ChunkKey,
    i: u32,
    b: ChunkKey,
    j: u32,
)
    requires
        is_fragment_file(one, root, hex(a@), i),
        is_fragment_file(other, root, hex(b@), j),
        a != b || i != j,
    ensures
        one.root@ == root,
        other.root@ == root,
        one.dir@ != other.dir@ || one.name@ != other.name@,
{
    crate::app::fragments_have_files_of_their_own(a, i, b, j);
}

/// What happens to one chunk leaves every other chunk as it was, and uploads and
/// recoveries do not touch each other. What was put in is what is there.
pub proof fn chunks_do_not_disturb_each_other(
    s: StoreView,
    key: ChunkKey,
    other: ChunkKey,
    encoder: EncoderView,
    decoder: Option<DecoderView>,
    result: WirehairResult,
)
    requires
        key != other,
    ensures
        ({
            let (a, b) = (with_upload(s, key, encoder), without_upload(s, key));
            let (c, d) = (with_recover(s, key, decoder), without_recover(s, key));
            let e = after_fragment(s, key, result);
            &&& a.upload_chunks.contains_key(key) && a.upload_chunks[key] == encoder
            &&& !b.upload_chunks.contains_key(key)
            &&& c.recovers.contains_key(key) && c.recovers[key] == decoder
            &&& !d.recovers.contains_key(key)
            &&& result == WirehairResult::Success ==> e.recovers.contains_key(key)
                && e.recovers[key] is None
            &&& result != WirehairResult::Success ==> e == s
            &&& same_but_uploads(s, a) && same_but_uploads(s, b)
            &&& same_but_recoveries(s, c) && same_but_recoveries(s, d) && same_but_recoveries(s, e)
            &&& same_upload(s, a, other) && same_upload(s, b, other)
            &&& same_recovery(s, c, other) && same_recovery(s, d, other)
            &&& same_recovery(s, e, other)
        }),
{
}

/// The stores differ in nothing but uploads.
pub open spec fn same_but_uploads(s: StoreView, t: StoreView) -> bool {
    &&& t.path == s.path && t.fragment_size == s.fragment_size && t.inner_k == s.inner_k
    &&& t.recovers == s.recovers
}

/// The stores differ in nothing but recoveries.
pub open spec fn same_but_recoveries(s: StoreView, t: StoreView) -> bool {
    &&& t.path == s.path && t.fragment_size == s.fragment_size && t.inner_k == s.inner_k
    &&& t.upload_chunks == s.upload_chunks
}

/// The stores agree in the upload of the chunk.
pub open spec fn same_upload(s: StoreView, t: StoreView, key: ChunkKey) -> bool {
    &&& t.upload_chunks.contains_key(key) == s.upload_chunks.contains_key(key)
    &&& s.upload_chunks.contains_key(key) ==> t.upload_chunks[key] == s.upload_chunks[key]
}

/// The stores agree in the recovery of the chunk.
pub open spec fn same_recovery(s: StoreView, t: StoreView, key: ChunkKey) -> bool {
    &&& t.recovers.contains_key(key) == s.recovers.contains_key(key)
    &&& s.recovers.contains_key(key) ==> t.recovers[key] == s.recovers[key]
}

/// The recovery of a chunk starts with a decoder of its own codec, for a message of
/// as many bytes as `inner_k` fragments, in blocks of the size of a fragment. The
/// decoder that leaves is that one, and needs no more. A fragment is made by the
/// codec of its chunk, in a buffer of its size.
pub proof fn decoders_and_encoders_fit_the_chunks(
    s: StoreView,
    key: ChunkKey,
    raw: WirehairCodecRaw,
    index: u32,
    fragment: Seq<u8>,
)
    requires
        fragment.len() == s.fragment_size,
    ensures
        new_decoder(s, raw).raw == raw,
        new_decoder(s, raw).block_bytes == s.fragment_size,
        new_decoder(s, raw).message_bytes == s.inner_k * s.fragment_size,
        new_decoder(s, raw).need_more,
        generate_call(s, key, index).raw == s.upload_chunks[key].raw,
        generate_call(s, key, index).block_id == index,
        generate_call(s, key, index).out_bytes == s.fragment_size,
        s.recovers[key] is None ==> fragment_call(s, key, index, fragment) is None,
        s.recovers[key] matches Some(decoder) ==> {
            &&& leaving_decoder(s, key) == (DecoderView { need_more: false, ..decoder })
            &&& decoder.need_more ==> fragment_call(s, key, index, fragment) == Some(
                (DecodeCall {
                    raw: decoder.raw,
                    block_id: index,
                    data_bytes: s.fragment_size,
                }),
            )
        },
{
    let (f, k) = (s.fragment_size as int, s.inner_k as int);
    assert(f * k == k * f && 0 <= f * k <= u64::MAX) by (nonlinear_arith)
        requires
            0 <= f <= u32::MAX,
            0 <= k <= u32::MAX,
    ;
}

} // verus!
