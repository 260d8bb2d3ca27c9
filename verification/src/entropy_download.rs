//! Downloading a chunk from the peers that store its fragments.

use crate::app::{make_index_uri, parse_key, State};
#[allow(unused_imports)]
use crate::app::{is_key_text, route_index_uri, text_key, ChunkMember, StateView, UploadView};
use crate::chunk::{ChunkKey, FragmentFile};
use crate::common::{decimal_string, hex_string};
#[allow(unused_imports)]
use crate::app::key_text_round_trip;
#[allow(unused_imports)]
use crate::chunk::is_fragment_file;
#[allow(unused_imports)]
use crate::common::{decimal, hex};
#[allow(unused_imports)]
use crate::entropy_upload::{pushes, PushFragment};
#[allow(unused_imports)]
use crate::sorted_map::{ascending, every_entry_is_listed};
use crate::wirehair::{DecoderCreate, WirehairDecoder};
use vstd::prelude::*;

verus! {

/// What is to be done to download chunk `chunk_index` of its object: a decoder
/// for it, fed with the fragment of `indices[i]`, which is got from `uris[i]`,
/// in the order in which they come in.
pub struct DownloadChunk {
    pub chunk_index: u32,
    pub indices: Vec<u32>,
    pub uris: Vec<String>,
    pub decoder: DecoderCreate,
}

/// `r` downloads the chunk that was uploaded under `key`.
pub open spec fn downloads(r: DownloadChunk, s: StateView, key: ChunkKey) -> bool {
    let members = s.uploads[key].members;
    &&& r.chunk_index == s.uploads[key].chunk_index
    &&& r.indices@.len() == members.len()
    &&& r.uris@.len() == members.len()
    &&& forall|i: int|
        0 <= i < members.len() ==> (#[trigger] r.indices@[i]) == ascending(members)[i].1.index
    &&& forall|i: int|
        0 <= i < members.len() ==> (#[trigger] r.uris@[i])@ == route_index_uri(
            ascending(members)[i].1.peer.uri@,
            "/entropy/download/pull/"@,
            hex(key@),
            ascending(members)[i].1.index,
        )
    &&& r.decoder.message_bytes == s.config.chunk_bytes()
    &&& r.decoder.block_bytes == s.config.fragment_size
}

/// A fragment is asked of the peer that it was pushed to, under the key and the
/// index that it was pushed with, and fed to the decoder under the index that it
/// was encoded with.
pub proof fn fragment_is_asked_where_it_was_pushed(
    s: StateView,
    key: ChunkKey,
    member: ChunkMember,
    push: PushFragment,
    download: DownloadChunk,
    i: int,
)
    requires
        pushes(push, s.config, key, member),
        downloads(download, s, key),
        0 <= i < s.uploads[key].members.len(),
        ascending(s.uploads[key].members)[i].1 == member,
    ensures
        push.uri@ == route_index_uri(
            member.peer.uri@,
            "/entropy/upload/push/"@,
            hex(key@),
            push.index,
        ),
        download.uris@[i]@ == route_index_uri(
            member.peer.uri@,
            "/entropy/download/pull/"@,
            hex(key@),
            push.index,
        ),
        download.indices@[i] == push.index,
        is_key_text(hex(key@)),
        text_key(hex(key@)) == key,
{
    key_text_round_trip(key);
}

/// Every member of a chunk that was uploaded is asked for its fragment, once, and
/// nobody else is asked. The decoder takes blocks of the size of a fragment, for a
/// message of as many bytes as `inner_k` of them.
pub proof fn every_member_is_asked_for_its_fragment(
    s: StateView,
    key: ChunkKey,
    download: DownloadChunk,
    member: u32,
)
    requires
        s.is_finite(),
        s.uploads.contains_key(key),
        downloads(download, s, key),
        s.uploads[key].members.contains_key(member),
    ensures
        download.indices@.len() == s.uploads[key].members.len(),
        download.uris@.len() == s.uploads[key].members.len(),
        exists|i: int|
            0 <= i < download.uris@.len() && download.indices@[i]
                == s.uploads[key].members[member].index && (#[trigger] download.uris@[i])@
                == s.uploads[key].members[member].peer.uri@ + "/entropy/download/pull/"@ + hex(key@)
                + "/"@ + decimal(s.uploads[key].members[member].index as nat),
        download.chunk_index == s.uploads[key].chunk_index,
        download.decoder.block_bytes == s.config.fragment_size,
        download.decoder.message_bytes == s.config.inner_k * s.config.fragment_size,
{
    let members = s.uploads[key].members;
    every_entry_is_listed(members);
    s.config.sizes_are_multiples();
    let list = ascending(members);
    let i = choose|i: int| 0 <= i < list.len() && #[trigger] list[i] == (member, members[member]);
    assert(download.indices@[i] == list[i].1.index);
    assert(download.uris@[i]@ == route_index_uri(
        list[i].1.peer.uri@,
        "/entropy/download/pull/"@,
        hex(key@),
        list[i].1.index,
    ));
}

/// A fragment is read from the file that it was written to, for whatever reason
/// it is read.
pub proof fn fragment_is_read_from_where_it_was_written(
    written: FragmentFile,
    read: FragmentFile,
    root: Seq<char>,
    dir: Seq<char>,
    index: u32,
)
    requires
        is_fragment_file(written, root, dir, index),
        is_fragment_file(read, root, dir, index),
    ensures
        read.root@ == written.root@,
        read.dir@ == written.dir@,
        read.name@ == written.name@,
{
}

/// A chunk is fed to the decoder of its object under the index that it was
/// encoded with, whoever became its members in between.
pub proof fn chunk_is_downloaded_under_its_index(
    s: StateView,
    key: ChunkKey,
    chunk_index: u32,
    members: Map<u32, ChunkMember>,
    download: DownloadChunk,
)
    requires
        downloads(
            download,
            (StateView {
                uploads: s.uploads.insert(key, (UploadView { chunk_index, members })),
                ..s
            }),
            key,
        ),
    ensures
        download.chunk_index == chunk_index,
{
}

/// Starts the download of the chunk that was uploaded under `key`.
pub fn entropy_download_chunk(data: &State, key: &ChunkKey) -> (r: DownloadChunk)
    requires
        data@.uploads.contains_key(*key),
        data@.config.chunk_bytes() <= u32::MAX,
    ensures
        downloads(r, data@, *key),
{
    let hex_key = hex_string(key.as_slice());
    let mut indices: Vec<u32> = Vec::new();
    let mut uris: Vec<String> = Vec::new();
    let decoder = WirehairDecoder::create(
        data.config().chunk_size() as u64,
        data.config().fragment_size,
    );
    match data.upload(key) {
        Some(upload) => {
            let n = upload.members.len();
            let ghost members = upload.members@;
            let mut i: usize = 0;
            while i < n
                invariant
                    i <= n,
                    members == upload.members@,
                    n == members.len(),
                    hex_key@ == hex(key@),
                    indices@.len() == i,
                    uris@.len() == i,
                    forall|j: int|
                        0 <= j < i ==> (#[trigger] indices@[j]) == ascending(members)[j].1.index,
                    forall|j: int|
                        0 <= j < i ==> (#[trigger] uris@[j])@ == route_index_uri(
                            ascending(members)[j].1.peer.uri@,
                            "/entropy/download/pull/"@,
                            hex(key@),
                            ascending(members)[j].1.index,
                        ),
                decreases n - i,
            {
                let (_, member) = upload.members.entry(i);
                indices.push(member.index);
                uris.push(
                    make_index_uri(
                        member.peer.uri.as_str(),
                        "/entropy/download/pull/",
                        hex_key.as_str(),
                        member.index,
                    ),
                );
                i += 1;
            }
            DownloadChunk { chunk_index: upload.chunk_index, indices, uris, decoder }
        },
        None => DownloadChunk { chunk_index: 0, indices, uris, decoder },
    }
}

/// A fragment that is to be read from `file`, which is removed then, or not.
pub struct PullFragment {
    pub file: FragmentFile,
    pub remove: bool,
}

/// Whether this peer can serve fragment `index` of the chunk.
pub fn can_pull(data: &State, chunk_key: &str, index: u32) -> (r: bool)
    ensures
        r == (is_key_text(chunk_key@) && data@.chunks.contains_key(text_key(chunk_key@))
            && data@.chunks[text_key(chunk_key@)].index == index && data@.has_fragment(
            text_key(chunk_key@),
        )),
{
    if crate::app::read_key(chunk_key).is_none() {
        return false;
    }
    let key = parse_key(chunk_key);
    match data.chunk(&key) {
        Some(chunk) => chunk.index == index && data.has_fragment(&key),
        None => false,
    }
}

/// Serves fragment `index` of the chunk. Without repair the fragment is served
/// only once.
pub fn entropy_download_pull(data: &State, chunk_key: &str, index: u32) -> (r: PullFragment)
    requires
        is_key_text(chunk_key@),
        data@.chunks.contains_key(text_key(chunk_key@)),
        data@.chunks[text_key(chunk_key@)].index == index,
        data@.has_fragment(text_key(chunk_key@)),
    ensures
        is_fragment_file(r.file, data@.config.chunk_path@, chunk_key@, index),
        r.remove == !data@.config.repair,
{
    PullFragment {
        file: FragmentFile {
            root: data.config().chunk_path.clone(),
            dir: chunk_key.to_owned(),
            name: decimal_string(index as u64),
        },
        remove: !data.config().repair,
    }
}

} // verus!
