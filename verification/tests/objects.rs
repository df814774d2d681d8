use git_rtc::flate::ParsedDeflate;
use git_rtc::hash::{sha1, HashBytes};
use git_rtc::loose::{
    file_to_stream, object_path, parse_seek_header, parse_stream_header, Error, StreamError,
};
use git_rtc::obj::{HashType, Kind, ID};
use git_rtc::source::{ByteCursor, ByteRead, SeekError, SeekFrom};
use git_rtc::store::{
    conclude, open_loose_object_seek, open_loose_object_stream, open_packed_object, read_to_end,
    resolve_clash, streams_equal, FindError, ObjectView, Publish, WriteError,
};
use git_rtc::text::{bytes_to_hex, to_decimal};
use git_rtc::zlib::{decode_zlib, Error as ZlibError};
use git_rtc::DeflateError;
use std::io::Write;

fn stored_block(last: bool, payload: &[u8]) -> Vec<u8> {
    let len = payload.len() as u16;
    let mut out = vec![if last { 1u8 } else { 0u8 }];
    out.extend_from_slice(&len.to_le_bytes());
    out.extend_from_slice(&(!len).to_le_bytes());
    out.extend_from_slice(payload);
    out
}

fn adler32(data: &[u8]) -> u32 {
    let (mut a, mut b) = (1u32, 0u32);
    for byte in data {
        a = (a + *byte as u32) % 65521;
        b = (b + a) % 65521;
    }
    (b << 16) | a
}

/// A zlib stream of stored blocks, one for each part.
fn stored_file(parts: &[&[u8]]) -> Vec<u8> {
    let mut file = vec![0x78, 0x01];
    let mut all = Vec::new();
    for (i, part) in parts.iter().enumerate() {
        file.extend(stored_block(i == parts.len() - 1, part));
        all.extend_from_slice(part);
    }
    file.extend_from_slice(&adler32(&all).to_be_bytes());
    file
}

fn compressed_file(raw: &[u8]) -> Vec<u8> {
    let mut encoder = flate2::write::ZlibEncoder::new(Vec::new(), flate2::Compression::best());
    encoder.write_all(raw).unwrap();
    encoder.finish().unwrap()
}

fn seeking_reader(data: Vec<u8>) -> git_rtc::SeekReadDeflate {
    match ParsedDeflate::parse(ByteCursor::new(data)) {
        Ok(parsed) => match parsed.into_reader() {
            Ok(reader) => reader,
            Err(_) => panic!("the stream is stored"),
        },
        Err(e) => panic!("scan failed: {:?}", e),
    }
}

fn id_text(id: &ID) -> String {
    match id {
        ID::SHA1(hash) => hash.to_string(),
    }
}

#[test]
fn header_of_a_blob() {
    let mut reader = ByteCursor::new(b"blob 5\0hello".to_vec());
    assert_eq!(parse_stream_header(&mut reader), Ok((Kind::Blob, 5, 7)));
    assert_eq!(read_to_end(&mut reader), b"hello".to_vec());
}

#[test]
fn header_of_each_kind() {
    let mut reader = ByteCursor::new(b"tree 0\0".to_vec());
    assert_eq!(parse_stream_header(&mut reader), Ok((Kind::Tree, 0, 7)));
    let mut reader = ByteCursor::new(b"commit 42\0abc".to_vec());
    assert_eq!(parse_stream_header(&mut reader), Ok((Kind::Commit, 42, 10)));
    let mut reader = ByteCursor::new(b"tag 12345\0x".to_vec());
    assert_eq!(parse_stream_header(&mut reader), Ok((Kind::Tag, 12345, 10)));
    assert_eq!(read_to_end(&mut reader), b"x".to_vec());
}

#[test]
fn header_with_unknown_kind() {
    let mut reader = ByteCursor::new(b"bogus 5\0hello".to_vec());
    assert_eq!(parse_stream_header(&mut reader), Err(Error::UnknownKind));
    // The bytes searched are gone from the reader.
    assert_eq!(read_to_end(&mut reader), b"hello".to_vec());
    let mut reader = ByteCursor::new(b"Blob 5\0".to_vec());
    assert_eq!(parse_stream_header(&mut reader), Err(Error::UnknownKind));
    let mut reader = ByteCursor::new(b" 5\0".to_vec());
    assert_eq!(parse_stream_header(&mut reader), Err(Error::UnknownKind));
}

#[test]
fn header_without_delimiter() {
    let mut reader = ByteCursor::new(b"blobblobblobblob".to_vec());
    assert_eq!(parse_stream_header(&mut reader), Err(Error::MissingDelimiter));
    // Ten bytes were searched.
    assert_eq!(read_to_end(&mut reader), b"obblob".to_vec());
}

#[test]
fn header_longer_than_the_limit() {
    // The zero byte is the eleventh byte: one too late.
    let mut reader = ByteCursor::new(b"blob 12345\0x".to_vec());
    assert_eq!(parse_stream_header(&mut reader), Err(Error::MissingDelimiter));
    let mut reader = ByteCursor::new(b"commit 100\0".to_vec());
    assert_eq!(parse_stream_header(&mut reader), Err(Error::MissingDelimiter));
    let mut reader = ByteCursor::new(b"blob 1234\0x".to_vec());
    assert_eq!(parse_stream_header(&mut reader), Ok((Kind::Blob, 1234, 10)));
}

#[test]
fn header_of_a_short_stream() {
    let mut reader = ByteCursor::new(b"blob".to_vec());
    assert_eq!(parse_stream_header(&mut reader), Err(Error::MissingDelimiter));
    let mut reader = ByteCursor::new(b"blob 5".to_vec());
    assert_eq!(parse_stream_header(&mut reader), Err(Error::MissingDelimiter));
    let mut reader = ByteCursor::new(Vec::new());
    assert_eq!(parse_stream_header(&mut reader), Err(Error::MissingDelimiter));
}

#[test]
fn header_with_malformed_length() {
    for text in [&b"blob x\0"[..], b"blob \0", b"blob 5 \0", b"blob -1\0", b"blob +\0", b"tag 1e3\0"] {
        let mut reader = ByteCursor::new(text.to_vec());
        assert_eq!(parse_stream_header(&mut reader), Err(Error::MalformedLength));
    }
}

#[test]
fn header_with_signed_or_padded_length() {
    let mut reader = ByteCursor::new(b"blob +5\0".to_vec());
    assert_eq!(parse_stream_header(&mut reader), Ok((Kind::Blob, 5, 8)));
    let mut reader = ByteCursor::new(b"blob -0\0".to_vec());
    assert_eq!(parse_stream_header(&mut reader), Ok((Kind::Blob, 0, 8)));
    let mut reader = ByteCursor::new(b"blob 007\0".to_vec());
    assert_eq!(parse_stream_header(&mut reader), Ok((Kind::Blob, 7, 9)));
}

#[test]
fn seek_header_numbers_positions_from_the_payload() {
    let mut data = stored_block(false, b"blob ");
    data.extend(stored_block(false, b"11\0he"));
    data.extend(stored_block(true, b"llo world"));
    let (kind, size, mut reader) = match parse_seek_header(seeking_reader(data)) {
        Ok(found) => found,
        Err(e) => panic!("no header: {:?}", e),
    };
    assert_eq!((kind, size), (Kind::Blob, 11));
    assert_eq!(reader.stream_position(), 8);
    assert_eq!(read_to_end(&mut reader), b"hello world".to_vec());
    // An absolute position counts from the payload; the answer from the stream.
    assert_eq!(reader.seek(SeekFrom::Start(6)), Ok(14));
    assert_eq!(read_to_end(&mut reader), b"world".to_vec());
    assert_eq!(reader.seek(SeekFrom::Start(0)), Ok(8));
    assert_eq!(reader.seek(SeekFrom::Current(2)), Ok(10));
    assert_eq!(read_to_end(&mut reader), b"llo world".to_vec());
    assert_eq!(reader.seek(SeekFrom::End(5)), Ok(14));
    assert_eq!(read_to_end(&mut reader), b"world".to_vec());
    assert_eq!(
        reader.seek(SeekFrom::Start(12)),
        Err(SeekError::Beyond { bound: 19, excess: 1 })
    );
    assert_eq!(
        reader.seek(SeekFrom::Start(u64::MAX)),
        Err(SeekError::Beyond { bound: 19, excess: u64::MAX - 11 })
    );
    assert_eq!(reader.into_inner().len(), 19);
}

#[test]
fn seek_header_with_unknown_kind() {
    let data = stored_block(true, b"bogus 5\0hello");
    assert_eq!(parse_seek_header(seeking_reader(data)).err(), Some(Error::UnknownKind));
}

#[test]
fn stream_of_a_compressed_file() {
    let file = compressed_file(b"blob 5\0hello");
    let (kind, size, mut reader) = match file_to_stream(&file) {
        Ok(found) => found,
        Err(e) => panic!("no stream: {:?}", e),
    };
    assert_eq!((kind, size), (Kind::Blob, 5));
    assert_eq!(read_to_end(&mut reader), b"hello".to_vec());
    assert_eq!(file_to_stream(&file[..file.len() - 3]).err(), Some(StreamError::Inflate));
    assert_eq!(
        file_to_stream(&compressed_file(b"bogus 5\0hello")).err(),
        Some(StreamError::Header(Error::UnknownKind))
    );
}

#[test]
fn decoding_changes_the_bytes() {
    let raw = b"tree 3\0abcabcabcabcabcabcabcabcabcabc".to_vec();
    let file = compressed_file(&raw);
    assert_ne!(file, raw);
    assert_eq!(decode_zlib(&file), Some(raw));
    assert_eq!(decode_zlib(b"no zlib stream"), None);
    assert_eq!(decode_zlib(&stored_file(&[b"ab", b"cd"])), Some(b"abcd".to_vec()));
}

#[test]
fn stored_file_opens_for_seeking() {
    let file = stored_file(&[b"blob 1", b"1\0hello", b" world"]);
    match open_loose_object_seek(Some(file)) {
        Ok(Some((kind, size, view))) => {
            assert_eq!((kind, size), (Kind::Blob, 11));
            match view {
                ObjectView::Seek(mut reader) => {
                    assert_eq!(reader.seek(SeekFrom::Start(6)), Ok(14));
                    assert_eq!(read_to_end(&mut reader), b"world".to_vec());
                }
                _ => panic!("stored blocks are read by seeking"),
            }
        }
        _ => panic!("the object is there"),
    }
}

#[test]
fn compressed_file_opens_as_a_stream() {
    let payload: Vec<u8> = (0..2000u32).map(|i| (i % 7) as u8).collect();
    let mut raw = b"blob 2000\0".to_vec();
    raw.extend_from_slice(&payload);
    let file = compressed_file(&raw);
    match open_loose_object_seek(Some(file.clone())) {
        Ok(Some((kind, size, view))) => {
            assert_eq!((kind, size), (Kind::Blob, 2000));
            assert!(matches!(view, ObjectView::Stream(_)));
            assert_eq!(view.into_bytes(), payload);
        }
        _ => panic!("the object is there"),
    }
    match open_loose_object_stream(Some(file)) {
        Ok(Some((kind, size, mut reader))) => {
            assert_eq!((kind, size), (Kind::Blob, 2000));
            assert_eq!(read_to_end(&mut reader), payload);
        }
        _ => panic!("the object is there"),
    }
}

#[test]
fn stored_block_before_a_huffman_block_opens_as_a_stream() {
    // A stored block that is not final, and then the blocks of a compressor.
    let rest = compressed_file(b"hello world, hello world, hello world");
    let mut file = vec![0x78, 0x01];
    file.extend(stored_block(false, b"blob 37\0"));
    file.extend_from_slice(&rest[2..rest.len() - 4]);
    let mut raw = b"blob 37\0".to_vec();
    raw.extend_from_slice(b"hello world, hello world, hello world");
    file.extend_from_slice(&adler32(&raw).to_be_bytes());
    match open_loose_object_seek(Some(file)) {
        Ok(Some((kind, size, view))) => {
            assert_eq!((kind, size), (Kind::Blob, 37));
            assert!(matches!(view, ObjectView::Stream(_)));
            assert_eq!(view.into_bytes(), b"hello world, hello world, hello world".to_vec());
        }
        _ => panic!("the object is there"),
    }
}

#[test]
fn missing_file_is_no_object() {
    assert!(matches!(open_loose_object_seek(None), Ok(None)));
    assert!(matches!(open_loose_object_stream(None), Ok(None)));
    assert!(open_packed_object(None).is_none());
}

#[test]
fn damaged_files_are_refused() {
    let open = |file: Vec<u8>| open_loose_object_seek(Some(file)).err();
    assert_eq!(open(vec![0x78, 0x9d, 1]), Some(FindError::Zlib(ZlibError::InvalidHeaderChecksum)));
    assert_eq!(open(vec![0x78]), Some(FindError::Zlib(ZlibError::UnexpectedEof)));
    assert_eq!(
        open(vec![0x78, 0x01, 1, 5, 0, 0, 0]),
        Some(FindError::Deflate(DeflateError::InvalidStoredLength { offset: 2, len: 5, nlen: 0 }))
    );
    assert_eq!(
        open(vec![0x78, 0x01, 7]),
        Some(FindError::Deflate(DeflateError::ReservedBlockType { offset: 2 }))
    );
    assert_eq!(
        open(stored_file(&[b"bogus 5\0hello"])),
        Some(FindError::Header(Error::UnknownKind))
    );
    assert_eq!(open(vec![0x78, 0x9c, 0x4b, 0xff]), Some(FindError::Inflate));
    assert_eq!(
        open_loose_object_stream(Some(vec![1, 2, 3])).err(),
        Some(FindError::Inflate)
    );
}

#[test]
fn packed_object_is_a_buffer() {
    match open_packed_object(Some((Kind::Tag, b"abc".to_vec()))) {
        Some((kind, size, view)) => {
            assert_eq!((kind, size), (Kind::Tag, 3));
            assert!(matches!(view, ObjectView::Buffer(_)));
            assert_eq!(view.into_bytes(), b"abc".to_vec());
        }
        None => panic!("the object was found"),
    }
}

#[test]
fn written_object_is_named_by_its_digest() {
    let mut handle = git_rtc::store::write(Kind::Blob, HashType::Sha1, 5, true);
    assert_eq!(handle.write(b"hel"), 3);
    handle.flush();
    assert_eq!(handle.write(b"lo"), 2);
    let staged = handle.end();
    assert_eq!(id_text(&staged.id), "b6fc4c620b67d95f953a5c1c1230aaab5db5a1b0");
    assert_eq!(decode_zlib(&staged.file), Some(b"blob 5\0hello".to_vec()));
    let empty = git_rtc::store::write(Kind::Blob, HashType::Sha1, 0, false).end();
    assert_eq!(id_text(&empty.id), "e69de29bb2d1d6434b8b29ae775ad8c2e48c5391");
}

#[test]
fn written_object_is_read_back() {
    let payload: Vec<u8> = (0..3000u32).map(|i| (i * i % 251) as u8).collect();
    for kind in [Kind::Blob, Kind::Tree, Kind::Tag] {
        for compression in [false, true] {
            let mut handle = git_rtc::store::write(kind, HashType::Sha1, payload.len() as u64, compression);
            handle.write(&payload[..1000]);
            handle.write(&payload[1000..]);
            let staged = handle.end();
            match open_loose_object_seek(Some(staged.file)) {
                Ok(Some((k, size, view))) => {
                    assert_eq!((k, size), (kind, 3000));
                    assert_eq!(matches!(view, ObjectView::Seek(_)), !compression);
                    assert_eq!(view.into_bytes(), payload);
                }
                _ => panic!("the object is there"),
            }
        }
    }
}

#[test]
fn stored_object_is_read_from_any_position() {
    let payload: Vec<u8> = (0..70000u32).map(|i| (i % 253) as u8).collect();
    let mut handle = git_rtc::store::write(Kind::Tag, HashType::Sha1, 70000, false);
    handle.write(&payload);
    let staged = handle.end();
    let mut reader = match open_loose_object_seek(Some(staged.file)) {
        Ok(Some((Kind::Tag, 70000, ObjectView::Seek(reader)))) => reader,
        _ => panic!("stored blocks are read by seeking"),
    };
    for k in [0usize, 1, 65527, 65528, 65529, 69999, 70000] {
        assert!(reader.seek(SeekFrom::Start(k as u64)).is_ok());
        assert_eq!(read_to_end(&mut reader), payload[k..].to_vec());
    }
}

#[test]
fn same_object_written_twice() {
    let first = git_rtc::store::write(Kind::Commit, HashType::Sha1, 0, true).end();
    let second = git_rtc::store::write(Kind::Commit, HashType::Sha1, 0, false).end();
    assert_eq!(first.id, second.id);
    assert_ne!(first.file, second.file);
    let id = second.id.clone();
    assert_eq!(conclude(second, Publish::Clashed { existing: first.file }), Ok(id));
}

#[test]
fn new_object_is_concluded_with_its_id() {
    let mut handle = git_rtc::store::write(Kind::Blob, HashType::Sha1, 3, true);
    handle.write(b"abc");
    let staged = handle.end();
    let id = staged.id.clone();
    assert_eq!(conclude(staged, Publish::Created), Ok(id));
}

#[test]
fn other_bytes_in_place_are_a_collision() {
    let mut handle = git_rtc::store::write(Kind::Blob, HashType::Sha1, 3, true);
    handle.write(b"abc");
    let staged = handle.end();
    let existing = compressed_file(b"blob 3\0abd");
    assert_eq!(conclude(staged, Publish::Clashed { existing }), Err(WriteError::Collision));
    assert_eq!(
        resolve_clash(&compressed_file(b"blob 3\0abc"), &compressed_file(b"blob 3\0ab")),
        Err(WriteError::Collision)
    );
    assert_eq!(
        resolve_clash(&compressed_file(b"blob 3\0abc"), &stored_file(&[b"blob 3", b"\0abc"])),
        Ok(())
    );
}

#[test]
fn unreadable_files_are_no_verdict() {
    let good = compressed_file(b"blob 3\0abc");
    assert_eq!(resolve_clash(b"junk", &good), Err(WriteError::ExistingUnreadable));
    assert_eq!(resolve_clash(&good, b"junk"), Err(WriteError::StagedUnreadable));
    assert_eq!(resolve_clash(b"junk", b"junk"), Err(WriteError::ExistingUnreadable));
}

#[test]
fn streams_in_different_portions_are_equal() {
    let payload: Vec<u8> = (0..10000u32).map(|i| (i % 241) as u8).collect();
    let mut data = Vec::new();
    for (i, part) in payload.chunks(777).enumerate() {
        data.extend(stored_block(i == payload.chunks(777).count() - 1, part));
    }
    let mut blocks = seeking_reader(data.clone());
    let mut whole = ByteCursor::new(payload.clone());
    assert!(streams_equal(&mut blocks, &mut whole));
    assert_eq!(blocks.read(&mut [0u8; 4]), 0);

    let mut blocks = seeking_reader(data.clone());
    let mut shorter = ByteCursor::new(payload[..9999].to_vec());
    assert!(!streams_equal(&mut blocks, &mut shorter));

    let mut changed = payload.clone();
    changed[5000] ^= 1;
    let mut blocks = seeking_reader(data);
    let mut other = ByteCursor::new(changed);
    assert!(!streams_equal(&mut other, &mut blocks));

    let mut none = ByteCursor::new(Vec::new());
    let mut nothing = ByteCursor::new(Vec::new());
    assert!(streams_equal(&mut none, &mut nothing));
    let mut none = ByteCursor::new(Vec::new());
    let mut some = ByteCursor::new(vec![0]);
    assert!(!streams_equal(&mut none, &mut some));
}

#[test]
fn loose_path_splits_the_id() {
    let id = ID::SHA1(sha1(b"blob 5\0hello"));
    let path = object_path(&id);
    assert_eq!(path.dir, "b6");
    assert_eq!(path.file, "fc4c620b67d95f953a5c1c1230aaab5db5a1b0");
    let low = ID::SHA1(HashBytes::new([0x0a; 20]));
    let path = object_path(&low);
    assert_eq!(path.dir, "0a");
    assert_eq!(path.file, "0a".repeat(19));
}

#[test]
fn digest_as_text() {
    let hash = sha1(b"");
    assert_eq!(hash.to_string(), "da39a3ee5e6b4b0d3255bfef95601890afd80709");
    assert_eq!(hash.to_string(), bytes_to_hex(hash.as_bytes()));
    assert_eq!(sha1(b"abc").to_string(), "a9993e364706816aba3e25717850c26c9cd0d89d");
    assert_eq!(HashBytes::new([0u8, 0x0f, 0xf0, 0xff]).to_string(), "000ff0ff");
    assert_eq!(bytes_to_hex(&[]), "");
}

#[test]
fn digest_from_text() {
    let text = "Da39A3ee5e6b4b0d3255bfef95601890afd80709";
    assert_eq!(HashBytes::<20>::from_hex(text), Some(sha1(b"")));
    assert_eq!(HashBytes::<2>::from_hex("0aF1"), Some(HashBytes::new([0x0a, 0xf1])));
    assert_eq!(HashBytes::<2>::from_hex("0af"), None);
    assert_eq!(HashBytes::<2>::from_hex("0af1aa"), None);
    assert_eq!(HashBytes::<2>::from_hex("0ag1"), None);
    assert_eq!(HashBytes::<2>::from_hex("\u{e9}a1"), None);
    assert_eq!(HashBytes::<0>::from_hex(""), Some(HashBytes::new([])));
}

#[test]
fn kinds_have_their_names() {
    assert_eq!(Kind::Blob.as_bytes(), b"blob".to_vec());
    assert_eq!(Kind::Tree.as_bytes(), b"tree".to_vec());
    assert_eq!(Kind::Commit.as_bytes(), b"commit".to_vec());
    assert_eq!(Kind::Tag.as_bytes(), b"tag".to_vec());
    for kind in [Kind::Blob, Kind::Tree, Kind::Commit, Kind::Tag] {
        assert_eq!(Kind::from_bytes(&kind.as_bytes()), Some(kind));
    }
    assert_eq!(Kind::from_bytes(b"bogus"), None);
    assert_eq!(Kind::from_bytes(b"blo"), None);
    assert_eq!(Kind::from_bytes(b"blobs"), None);
    assert_eq!(Kind::from_bytes(b"TAG"), None);
    assert_eq!(Kind::from_bytes(b""), None);
}

#[test]
fn numbers_in_decimal() {
    assert_eq!(to_decimal(0), b"0".to_vec());
    assert_eq!(to_decimal(7), b"7".to_vec());
    assert_eq!(to_decimal(10), b"10".to_vec());
    assert_eq!(to_decimal(12345), b"12345".to_vec());
    assert_eq!(to_decimal(u64::MAX), b"18446744073709551615".to_vec());
}

#[test]
fn lookup_asks_the_packs_for_what_is_not_loose() {
    assert!(matches!(git_rtc::store::lookup_loose(None), Ok(git_rtc::store::Probe::AskPacks)));
    match git_rtc::store::lookup_loose(Some(stored_file(&[b"tag 2\0ab"]))) {
        Ok(git_rtc::store::Probe::Found(kind, size, view)) => {
            assert_eq!((kind, size), (Kind::Tag, 2));
            assert_eq!(view.into_bytes(), b"ab".to_vec());
        }
        _ => panic!("the object is loose"),
    }
    assert_eq!(
        git_rtc::store::lookup_loose(Some(vec![0x78, 0x01, 6])).err(),
        Some(FindError::Deflate(DeflateError::ReservedBlockType { offset: 2 }))
    );
}

#[test]
fn errors_in_words() {
    assert_eq!(
        SeekError::Beyond { bound: 8, excess: 3 }.message(),
        "invalid seek to 8 + 3, which is beyond the end of the read-only file"
    );
    assert_eq!(
        SeekError::Before { deficit: 120 }.message(),
        "invalid seek to -120, which is before the start of the file"
    );
    assert_eq!(
        DeflateError::InvalidStoredLength { offset: 7, len: 5, nlen: 65531 }.message(),
        "invalid nlen 65531 for len 5 at offset 7"
    );
    assert_eq!(
        DeflateError::ReservedBlockType { offset: 1000 }.message(),
        "unexpected reserved BTYPE 11 at offset 1000"
    );
    assert_eq!(
        FindError::Deflate(DeflateError::Seek(SeekError::Before { deficit: 0 })).message(),
        "invalid seek to -0, which is before the start of the file"
    );
    assert_eq!(
        FindError::Zlib(ZlibError::DisallowedWindowBits { cinfo: 15 }).message(),
        "invalid window size 15"
    );
    assert_eq!(ZlibError::InvalidHeaderChecksum.message(), "invalid header checksum");
    assert_eq!(
        ZlibError::UnsupportedCompressionMethod.message(),
        "unsupported compression method"
    );
    assert_eq!(
        FindError::Header(Error::UnknownKind).message(),
        "object header with an unknown kind"
    );
    assert_eq!(StreamError::Inflate.message(), FindError::Inflate.message());
    assert_eq!(WriteError::Collision.message(), "two different objects have the same id");
    assert_eq!(git_rtc::text::to_decimal_string(u64::MAX), "18446744073709551615");
    assert_eq!(git_rtc::text::to_decimal_string(0), "0");
}

#[test]
fn index_lists_the_block_ends() {
    let mut data = vec![0u8; 3];
    data.extend(stored_block(false, b"abc"));
    data.extend(stored_block(false, b""));
    data.extend(stored_block(true, b"de"));
    let mut src = ByteCursor::new(data);
    src.set_position(3);
    let parsed = match ParsedDeflate::parse(src) {
        Ok(parsed) => parsed,
        Err(e) => panic!("scan failed: {:?}", e),
    };
    assert!(!parsed.stopped_early());
    let index = parsed.index();
    assert_eq!(index.len(), 3);
    assert_eq!(index.get(0), Some((11, 3)));
    assert_eq!(index.get(1), Some((16, 3)));
    assert_eq!(index.get(2), Some((23, 5)));
    assert_eq!(index.get(3), None);
    assert_eq!(index.total_len(), 5);
    assert_eq!(index.locate(0), 0);
    assert_eq!(index.locate(2), 0);
    assert_eq!(index.locate(3), 2);
    assert_eq!(index.locate(4), 2);
    assert_eq!(index.locate(5), 3);
    assert_eq!(index.locate(u64::MAX), 3);

    let mut open = stored_block(false, b"abc");
    open.push(0b101);
    let parsed = match ParsedDeflate::parse(ByteCursor::new(open)) {
        Ok(parsed) => parsed,
        Err(e) => panic!("scan failed: {:?}", e),
    };
    assert!(parsed.stopped_early());
    assert_eq!(parsed.index().len(), 1);
    assert_eq!(parsed.index().total_len(), 3);
}

#[test]
fn ids_are_equal_by_their_bytes() {
    let a = ID::SHA1(sha1(b"blob 0\0"));
    let b = ID::SHA1(HashBytes::new(*sha1(b"blob 0\0").as_bytes()));
    let c = ID::SHA1(sha1(b"blob 1\0x"));
    assert!(a == b);
    assert!(a != c);
    assert_eq!(a.to_string(), "e69de29bb2d1d6434b8b29ae775ad8c2e48c5391");
    assert_eq!(a.as_bytes(), &sha1(b"blob 0\0").as_bytes()[..]);
    assert!(HashBytes::new([1u8, 2]) == HashBytes::new([1u8, 2]));
    assert!(HashBytes::new([1u8, 2]) != HashBytes::new([1u8, 3]));
    assert!(HashBytes::<0>::new([]) == HashBytes::<0>::new([]));
}

#[test]
fn incompressible_object_is_read_back() {
    let mut state = 0x2545f4914f6cdd1du64;
    let payload: Vec<u8> = (0..70000)
        .map(|_| {
            state ^= state << 13;
            state ^= state >> 7;
            state ^= state << 17;
            (state >> 32) as u8
        })
        .collect();
    for compression in [false, true] {
        let mut handle = git_rtc::store::write(Kind::Tag, HashType::Sha1, 70000, compression);
        handle.write(&payload);
        let staged = handle.end();
        assert_eq!(
            decode_zlib(&staged.file).map(|raw| raw[10..].to_vec()),
            Some(payload.clone())
        );
        match open_loose_object_seek(Some(staged.file)) {
            Ok(Some((Kind::Tag, 70000, view))) => assert_eq!(view.into_bytes(), payload),
            _ => panic!("the object is there"),
        }
    }
}

#[test]
fn written_file_is_framed_for_both_levels() {
    for compression in [false, true] {
        for payload in [&b""[..], b"x", b"hello hello hello hello hello hello"] {
            let mut handle =
                git_rtc::store::write(Kind::Commit, HashType::Sha1, payload.len() as u64, compression);
            handle.write(payload);
            let staged = handle.end();
            let mut src = ByteCursor::new(staged.file.clone());
            assert!(git_rtc::ZlibHeader::parse(&mut src).is_ok());
            assert!(ParsedDeflate::parse(src).is_ok());
            assert_ne!(staged.file, payload.to_vec());
            match open_loose_object_seek(Some(staged.file)) {
                Ok(Some((Kind::Commit, len, view))) => {
                    assert_eq!(len, payload.len() as u64);
                    assert_eq!(view.into_bytes(), payload.to_vec());
                }
                _ => panic!("the object is there"),
            }
        }
    }
}

#[test]
fn header_is_written_as_it_is_read() {
    assert_eq!(git_rtc::loose::object_header(Kind::Blob, 5), b"blob 5\0".to_vec());
    assert_eq!(git_rtc::loose::object_header(Kind::Commit, 0), b"commit 0\0".to_vec());
    assert_eq!(git_rtc::loose::object_header(Kind::Tag, 12345), b"tag 12345\0".to_vec());
    assert_eq!(
        git_rtc::loose::object_header(Kind::Tree, u64::MAX),
        b"tree 18446744073709551615\0".to_vec()
    );
}

#[test]
fn object_with_a_long_header_is_not_found_again() {
    let payload = vec![7u8; 10000];
    let mut handle = git_rtc::store::write(Kind::Blob, HashType::Sha1, 10000, false);
    handle.write(&payload);
    let staged = handle.end();
    assert_eq!(
        open_loose_object_seek(Some(staged.file)).err(),
        Some(FindError::Header(Error::MissingDelimiter))
    );
}
