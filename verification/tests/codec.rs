use entropy::chunk::Store;
use entropy::common::hex_string;
use entropy::wirehair::{
    DecodeCall, DecoderCreate, EncodeCall, EncoderCreate, RecoverCall, WirehairCodecRaw,
    WirehairDecoder, WirehairEncoder, WirehairResult,
};
use sha2::{Digest, Sha256};

const RAW: WirehairCodecRaw = WirehairCodecRaw { address: 0x1000 };
const OTHER: WirehairCodecRaw = WirehairCodecRaw { address: 0x2000 };

#[test]
fn results_have_their_codes() {
    assert_eq!(WirehairResult::from_code(0), Some(WirehairResult::Success));
    assert_eq!(WirehairResult::from_code(0x7fffffff), Some(WirehairResult::Padding));
    assert_eq!(WirehairResult::from_code(11), None);
    for code in 0..=10 {
        assert_eq!(WirehairResult::from_code(code).unwrap().code(), code);
    }
}

#[test]
fn results_are_errors_but_for_two() {
    assert_eq!(WirehairResult::Success.with(1), Ok(1));
    assert_eq!(WirehairResult::NeedMore.with(2), Ok(2));
    assert_eq!(WirehairResult::OutOfMemory.with(3), Err(WirehairResult::OutOfMemory));
}

#[test]
fn results_in_words() {
    assert_eq!(WirehairResult::Success.text(), "Success");
    assert_eq!(WirehairResult::NeedMore.text(), "NeedMore");
    assert_eq!(WirehairResult::InvalidInput.text(), "InvalidInput");
    assert_eq!(WirehairResult::BadDenseSeed.text(), "Other(3)");
    assert_eq!(WirehairResult::Padding.text(), "Other(2147483647)");
}

#[test]
fn encoder_says_its_calls() {
    let message = vec![1, 2, 3, 4, 5];
    assert_eq!(
        WirehairEncoder::create(&message, 2),
        EncoderCreate { message_bytes: 5, block_bytes: 2 }
    );
    let encoder = WirehairEncoder::new(message, 2, RAW);
    assert_eq!(
        encoder.encode(9, &[0; 3]),
        EncodeCall { raw: RAW, block_id: 9, out_bytes: 3 }
    );
    assert_eq!(WirehairEncoder::encoded(WirehairResult::Success, 2), Ok(2));
    assert_eq!(
        WirehairEncoder::encoded(WirehairResult::Error, 2),
        Err(WirehairResult::Error)
    );
    assert_eq!(
        encoder.duplicate_call(),
        EncoderCreate { message_bytes: 5, block_bytes: 2 }
    );
    let copy = encoder.duplicate(OTHER);
    assert_eq!(copy.block_bytes, 2);
    assert_eq!(copy.block_bytes(), 2);
    assert_eq!(copy.message(), &[1, 2, 3, 4, 5]);
    // The two read one buffer.
    assert!(std::ptr::eq(copy.message(), encoder.message()));
    assert_eq!(copy.raw(), OTHER);
    assert_eq!(copy.encode(9, &[0; 3]).block_id, encoder.encode(9, &[0; 3]).block_id);
    assert_eq!(copy.free(), OTHER);
    assert_eq!(encoder.free(), RAW);
}

#[test]
fn decoder_takes_blocks_until_it_needs_no_more() {
    assert_eq!(
        WirehairDecoder::create(10, 5),
        DecoderCreate { message_bytes: 10, block_bytes: 5 }
    );
    let mut decoder = WirehairDecoder::new(10, 5, RAW);
    assert_eq!((decoder.message_bytes(), decoder.block_bytes()), (10, 5));
    assert!(decoder.need_more());
    assert_eq!(
        decoder.decode(4, &[0; 5]),
        Some(DecodeCall { raw: RAW, block_id: 4, data_bytes: 5 })
    );
    assert_eq!(decoder.decoded(WirehairResult::NeedMore), Ok(false));
    assert!(decoder.decode(5, &[0; 5]).is_some());
    assert_eq!(decoder.decoded(WirehairResult::Success), Ok(true));
    assert_eq!(decoder.decode(6, &[0; 5]), None);
    assert_eq!(
        decoder.recover(&[0; 10]),
        RecoverCall { raw: RAW, message_bytes: 10 }
    );
    assert_eq!(WirehairDecoder::recovered(WirehairResult::Success), Ok(()));
    assert_eq!(
        WirehairDecoder::recovered(WirehairResult::ExtraInsufficient),
        Err(WirehairResult::ExtraInsufficient)
    );
    assert_eq!(decoder.free(), RAW);
}

#[test]
fn decoder_that_failed_takes_no_more() {
    let mut decoder = WirehairDecoder::new(10, 5, RAW);
    assert_eq!(
        decoder.decoded(WirehairResult::InvalidInput),
        Err(WirehairResult::InvalidInput)
    );
    assert_eq!(decoder.decode(1, &[0; 5]), None);
}

#[test]
fn decoder_becomes_an_encoder() {
    let (encoder, freed) = WirehairDecoder::new(10, 5, RAW).into_encoder(WirehairResult::Success);
    let encoder = encoder.unwrap();
    assert_eq!(encoder.raw(), RAW);
    assert_eq!(encoder.block_bytes, 5);
    assert_eq!(freed, None);
    let (failed, freed) = WirehairDecoder::new(10, 5, RAW).into_encoder(WirehairResult::Error);
    assert_eq!(failed.unwrap_err(), WirehairResult::Error);
    assert_eq!(freed, Some(RAW));
}

fn store() -> Store {
    Store::new(String::from("/data"), 4, 3)
}

#[test]
fn chunk_is_uploaded_in_fragments() {
    let mut store = store();
    let chunk = vec![7; 12];
    assert_eq!(
        store.upload_call(&chunk),
        EncoderCreate { message_bytes: 12, block_bytes: 4 }
    );
    let (key, freed) = store.upload_chunk(chunk.clone(), RAW);
    let digest: [u8; 32] = Sha256::digest(&chunk).into();
    assert_eq!(key, digest);
    assert_eq!(freed, None);
    assert!(store.has_upload(&key));
    let step = store.generate_fragment(&key, 80);
    assert_eq!(step.fragment, vec![0; 4]);
    assert_eq!(step.call, EncodeCall { raw: RAW, block_id: 80, out_bytes: 4 });
    let (again, freed) = store.upload_chunk(chunk, OTHER);
    assert_eq!(again, key);
    assert_eq!(freed, Some(RAW));
    assert_eq!(store.finish_upload(&key), Some(OTHER));
    assert_eq!(store.finish_upload(&key), None);
    assert!(!store.has_upload(&key));
}

#[test]
fn fragments_have_files() {
    let store = store();
    let key = [0x1f; 32];
    let written = store.put_fragment(&key, 17, &vec![0; 4]);
    assert_eq!(written.root, "/data");
    assert_eq!(written.dir, hex_string(&key));
    assert_eq!(written.name, "17");
    let read = store.get_fragment(&key, 17);
    assert_eq!((read.root, read.dir, read.name), (written.root, written.dir, written.name));
}

#[test]
fn different_fragments_have_different_files() {
    let store = store();
    let a = store.get_fragment(&[1; 32], 1);
    assert_ne!(store.get_fragment(&[2; 32], 1).dir, a.dir);
    assert_ne!(store.get_fragment(&[1; 32], 11).name, a.name);
}

#[test]
fn chunk_is_recovered_once() {
    let mut store = store();
    let key = [9; 32];
    assert_eq!(
        store.recover_call(&key),
        Some(DecoderCreate { message_bytes: 12, block_bytes: 4 })
    );
    store.recover_chunk(&key, RAW);
    assert_eq!(store.recover_call(&key), None);
    assert_eq!(
        store.feed_call(&key, 5, &[0; 4]),
        Some(DecodeCall { raw: RAW, block_id: 5, data_bytes: 4 })
    );
    assert!(store.recover_with_fragment(&key, WirehairResult::NeedMore).is_none());
    assert!(store.feed_call(&key, 6, &[0; 4]).is_some());
    let step = store.recover_with_fragment(&key, WirehairResult::Success).unwrap();
    assert_eq!(step.chunk, vec![0; 12]);
    assert_eq!(step.call, RecoverCall { raw: RAW, message_bytes: 12 });
    assert_eq!(step.decoder.free(), RAW);
    assert_eq!(store.feed_call(&key, 7, &[0; 4]), None);
    assert!(store.has_recover(&key));
    assert_eq!(store.finish_recover(&key), None);
    assert!(!store.has_recover(&key));
}

#[test]
fn fragment_is_made_again() {
    let mut store = store();
    let key = [9; 32];
    store.recover_chunk(&key, RAW);
    assert!(store.encode_with_fragment(&key, WirehairResult::NeedMore, 3).is_none());
    let step = store.encode_with_fragment(&key, WirehairResult::Success, 3).unwrap();
    assert_eq!(step.index, 3);
    assert_eq!(step.fragment, vec![0; 4]);
    let (encoder, _) = step.decoder.into_encoder(WirehairResult::Success);
    let call = encoder.unwrap().encode(step.index, &step.fragment);
    assert_eq!(call, EncodeCall { raw: RAW, block_id: 3, out_bytes: 4 });
}

#[test]
fn unfinished_recovery_gives_its_codec_back() {
    let mut store = store();
    store.recover_chunk(&[1; 32], RAW);
    assert_eq!(store.finish_recover(&[1; 32]), Some(RAW));
    assert_eq!(store.finish_recover(&[1; 32]), None);
}
