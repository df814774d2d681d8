use git_rtc::flate::{DeflateError, ParsedDeflate};
use git_rtc::source::{resolve_seek, ByteCursor, ByteRead, SeekError, SeekFrom};
use git_rtc::zlib::{Error, ZlibHeader};

fn stored_block(last: bool, payload: &[u8]) -> Vec<u8> {
    let len = payload.len() as u16;
    let mut out = vec![if last { 1u8 } else { 0u8 }];
    out.extend_from_slice(&len.to_le_bytes());
    out.extend_from_slice(&(!len).to_le_bytes());
    out.extend_from_slice(payload);
    out
}

fn read_all(reader: &mut impl ByteRead, chunk: usize) -> Vec<u8> {
    let mut out = Vec::new();
    let mut buf = vec![0u8; chunk];
    loop {
        let n = reader.read(&mut buf);
        if n == 0 {
            return out;
        }
        out.extend_from_slice(&buf[..n]);
    }
}

#[test]
fn zlib_header_default_compression_is_accepted() {
    let mut src = ByteCursor::new(vec![0x78, 0x9c, 0xff]);
    let header = ZlibHeader::parse(&mut src);
    assert_eq!(header, Ok(ZlibHeader { window_size: 32768, flevel: 2, dictid: None }));
    assert_eq!(src.stream_position(), 2);
}

#[test]
fn zlib_header_window_sizes() {
    let mut src = ByteCursor::new(vec![0x08, 0x1d]);
    assert_eq!(
        ZlibHeader::parse(&mut src),
        Ok(ZlibHeader { window_size: 256, flevel: 0, dictid: None })
    );
    let mut src = ByteCursor::new(vec![0x78, 0x01]);
    assert_eq!(
        ZlibHeader::parse(&mut src),
        Ok(ZlibHeader { window_size: 32768, flevel: 0, dictid: None })
    );
    let mut src = ByteCursor::new(vec![0x78, 0xda]);
    assert_eq!(
        ZlibHeader::parse(&mut src),
        Ok(ZlibHeader { window_size: 32768, flevel: 3, dictid: None })
    );
}

#[test]
fn zlib_header_bad_checksum_is_rejected() {
    let mut src = ByteCursor::new(vec![0x78, 0x9d]);
    assert_eq!(ZlibHeader::parse(&mut src), Err(Error::InvalidHeaderChecksum));
    assert_eq!(src.stream_position(), 2);
    let mut src = ByteCursor::new(vec![0x68, 0x9c]);
    assert_eq!(ZlibHeader::parse(&mut src), Err(Error::InvalidHeaderChecksum));
}

#[test]
fn zlib_header_other_method_is_rejected() {
    let mut src = ByteCursor::new(vec![0x79, 0x9c]);
    assert_eq!(ZlibHeader::parse(&mut src), Err(Error::UnsupportedCompressionMethod));
    // The method is looked at before the window size and the checksum.
    let mut src = ByteCursor::new(vec![0xf7, 0x00]);
    assert_eq!(ZlibHeader::parse(&mut src), Err(Error::UnsupportedCompressionMethod));
}

#[test]
fn zlib_header_large_window_is_rejected() {
    let mut src = ByteCursor::new(vec![0x88, 0x1c]);
    assert_eq!(ZlibHeader::parse(&mut src), Err(Error::DisallowedWindowBits { cinfo: 8 }));
}

#[test]
fn zlib_header_dictionary_is_consumed_and_rejected() {
    // 0x78 0xbb: method 8, window 7, dictionary flag, checksum a multiple of 31.
    assert_eq!((0x78usize * 256 + 0xbb) % 31, 0);
    let mut src = ByteCursor::new(vec![0x78, 0xbb, 1, 2, 3, 4, 5]);
    assert_eq!(ZlibHeader::parse(&mut src), Err(Error::UnsupportedZlibDict));
    assert_eq!(src.stream_position(), 6);
    let mut src = ByteCursor::new(vec![0x78, 0xbb, 1, 2]);
    assert_eq!(ZlibHeader::parse(&mut src), Err(Error::UnexpectedEof));
    assert_eq!(src.stream_position(), 4);
}

#[test]
fn zlib_header_short_source() {
    let mut src = ByteCursor::new(vec![0x78]);
    assert_eq!(ZlibHeader::parse(&mut src), Err(Error::UnexpectedEof));
    assert_eq!(src.stream_position(), 1);
    let mut src = ByteCursor::new(Vec::new());
    assert_eq!(ZlibHeader::parse(&mut src), Err(Error::UnexpectedEof));
}

#[test]
fn scan_indexes_stored_blocks() {
    let mut data = vec![0xaa, 0xbb];
    data.extend(stored_block(false, b"abc"));
    data.extend(stored_block(false, b""));
    data.extend(stored_block(true, b"defgh"));
    data.extend_from_slice(&[9, 9, 9, 9]);
    let mut src = ByteCursor::new(data);
    assert_eq!(src.seek(SeekFrom::Start(2)), Ok(2));
    let parsed = match ParsedDeflate::parse(src) {
        Ok(parsed) => parsed,
        Err(e) => panic!("scan failed: {:?}", e),
    };
    let mut reader = match parsed.into_reader() {
        Ok(reader) => reader,
        Err(_) => panic!("the stream is stored"),
    };
    assert_eq!(reader.len(), 8);
    assert_eq!(reader.stream_position(), 0);
    assert_eq!(read_all(&mut reader, 64), b"abcdefgh".to_vec());
    assert_eq!(reader.stream_position(), 8);
}

#[test]
fn reads_stop_at_block_ends() {
    let mut data = stored_block(false, b"abc");
    data.extend(stored_block(true, b"defgh"));
    let mut reader = match ParsedDeflate::parse(ByteCursor::new(data)) {
        Ok(parsed) => match parsed.into_reader() {
            Ok(reader) => reader,
            Err(_) => panic!("the stream is stored"),
        },
        Err(e) => panic!("scan failed: {:?}", e),
    };
    let mut buf = [0u8; 16];
    assert_eq!(reader.read(&mut buf), 3);
    assert_eq!(&buf[..3], b"abc");
    assert_eq!(reader.read(&mut buf[..2]), 2);
    assert_eq!(&buf[..2], b"de");
    assert_eq!(reader.read(&mut buf), 3);
    assert_eq!(&buf[..3], b"fgh");
    assert_eq!(reader.read(&mut buf), 0);
    assert_eq!(reader.read(&mut buf[..0]), 0);
}

#[test]
fn seek_then_read_matches_sequential_read() {
    let payloads: [&[u8]; 4] = [b"0123", b"", b"45678", b"9"];
    let mut data = Vec::new();
    for (i, p) in payloads.iter().enumerate() {
        data.extend(stored_block(i == payloads.len() - 1, p));
    }
    let all = b"0123456789".to_vec();
    for k in 0..=all.len() {
        for chunk in [1usize, 3, 64] {
            let mut reader = match ParsedDeflate::parse(ByteCursor::new(data.clone())) {
                Ok(parsed) => match parsed.into_reader() {
                    Ok(reader) => reader,
                    Err(_) => panic!("the stream is stored"),
                },
                Err(e) => panic!("scan failed: {:?}", e),
            };
            assert_eq!(reader.seek(SeekFrom::Start(k as u64)), Ok(k as u64));
            assert_eq!(reader.stream_position(), k as u64);
            assert_eq!(read_all(&mut reader, chunk), all[k..].to_vec());
        }
    }
}

#[test]
fn seek_on_block_boundary_and_mid_block() {
    let mut data = stored_block(false, b"abc");
    data.extend(stored_block(true, b"defgh"));
    let mut reader = match ParsedDeflate::parse(ByteCursor::new(data)) {
        Ok(parsed) => match parsed.into_reader() {
            Ok(reader) => reader,
            Err(_) => panic!("the stream is stored"),
        },
        Err(e) => panic!("scan failed: {:?}", e),
    };
    let mut buf = [0u8; 8];
    // Exactly on the boundary between the two blocks.
    assert_eq!(reader.seek(SeekFrom::Start(3)), Ok(3));
    assert_eq!(reader.read(&mut buf), 5);
    assert_eq!(&buf[..5], b"defgh");
    // In the middle of the first block, relative to the current position.
    assert_eq!(reader.seek(SeekFrom::Current(-7)), Ok(1));
    assert_eq!(reader.read(&mut buf), 2);
    assert_eq!(&buf[..2], b"bc");
    // Two bytes before the end.
    assert_eq!(reader.seek(SeekFrom::End(2)), Ok(6));
    assert_eq!(reader.read(&mut buf), 2);
    assert_eq!(&buf[..2], b"gh");
    // To the end itself, and to where the reader is already.
    assert_eq!(reader.seek(SeekFrom::End(0)), Ok(8));
    assert_eq!(reader.seek(SeekFrom::Current(0)), Ok(8));
    assert_eq!(reader.read(&mut buf), 0);
    reader.rewind();
    assert_eq!(reader.stream_position(), 0);
    assert_eq!(read_all(&mut reader, 2), b"abcdefgh".to_vec());
}

#[test]
fn seek_out_of_range_is_refused() {
    let data = stored_block(true, b"abcdefgh");
    let mut reader = match ParsedDeflate::parse(ByteCursor::new(data)) {
        Ok(parsed) => match parsed.into_reader() {
            Ok(reader) => reader,
            Err(_) => panic!("the stream is stored"),
        },
        Err(e) => panic!("scan failed: {:?}", e),
    };
    assert_eq!(reader.seek(SeekFrom::Start(3)), Ok(3));
    assert_eq!(
        reader.seek(SeekFrom::Start(11)),
        Err(SeekError::Beyond { bound: 8, excess: 3 })
    );
    assert_eq!(
        reader.seek(SeekFrom::Current(6)),
        Err(SeekError::Beyond { bound: 8, excess: 1 })
    );
    assert_eq!(reader.seek(SeekFrom::Current(-5)), Err(SeekError::Before { deficit: 2 }));
    assert_eq!(
        reader.seek(SeekFrom::End(-4)),
        Err(SeekError::Beyond { bound: 8, excess: 4 })
    );
    assert_eq!(reader.seek(SeekFrom::End(10)), Err(SeekError::Before { deficit: 2 }));
    assert_eq!(
        reader.seek(SeekFrom::Current(i64::MIN)),
        Err(SeekError::Before { deficit: (1u64 << 63) - 3 })
    );
    // A refused request leaves the reader where it was.
    assert_eq!(reader.stream_position(), 3);
    let mut buf = [0u8; 2];
    assert_eq!(reader.read(&mut buf), 2);
    assert_eq!(&buf, b"de");
}

#[test]
fn stored_length_mismatch_names_the_block() {
    let mut data = vec![0x78, 0x01];
    data.extend(stored_block(false, b"abc"));
    let bad = data.len();
    data.extend_from_slice(&[1, 5, 0, 0xfb, 0xff]);
    data.extend_from_slice(b"hello");
    let mut src = ByteCursor::new(data);
    assert_eq!(src.seek(SeekFrom::Start(2)), Ok(2));
    assert_eq!(
        ParsedDeflate::parse(src).err(),
        Some(DeflateError::InvalidStoredLength { offset: bad as u64, len: 5, nlen: 0xfffb })
    );
}

#[test]
fn reserved_block_type_names_the_block() {
    let mut data = stored_block(false, b"abcdef");
    let bad = data.len();
    data.push(0b110);
    data.extend_from_slice(&[0, 0, 0, 0]);
    assert_eq!(
        ParsedDeflate::parse(ByteCursor::new(data)).err(),
        Some(DeflateError::ReservedBlockType { offset: bad as u64 })
    );
    assert_eq!(
        ParsedDeflate::parse(ByteCursor::new(vec![0b111])).err(),
        Some(DeflateError::ReservedBlockType { offset: 0 })
    );
}

#[test]
fn scan_stops_before_a_huffman_block() {
    for first in [0b010u8, 0b100, 0b011, 0b101] {
        let mut data = stored_block(false, b"xy");
        let at = data.len();
        data.push(first);
        data.extend_from_slice(&[1, 2, 3]);
        let parsed = match ParsedDeflate::parse(ByteCursor::new(data.clone())) {
            Ok(parsed) => parsed,
            Err(e) => panic!("scan failed: {:?}", e),
        };
        match parsed.into_reader() {
            Ok(_) => panic!("a stream with a Huffman block has no seeking reader"),
            Err(src) => {
                assert_eq!(src.stream_position(), at as u64);
                assert_eq!(src.into_inner(), data);
            }
        }
    }
}

#[test]
fn scan_of_a_short_source_fails() {
    assert_eq!(
        ParsedDeflate::parse(ByteCursor::new(Vec::new())).err(),
        Some(DeflateError::UnexpectedEof)
    );
    assert_eq!(
        ParsedDeflate::parse(ByteCursor::new(vec![1, 3, 0])).err(),
        Some(DeflateError::UnexpectedEof)
    );
    // A block that is not final must be followed by another.
    assert_eq!(
        ParsedDeflate::parse(ByteCursor::new(stored_block(false, b"abc"))).err(),
        Some(DeflateError::UnexpectedEof)
    );
}

#[test]
fn payload_beyond_the_source_is_not_delivered() {
    let mut data = stored_block(true, b"abcdef");
    data.truncate(5 + 4);
    let mut reader = match ParsedDeflate::parse(ByteCursor::new(data)) {
        Ok(parsed) => match parsed.into_reader() {
            Ok(reader) => reader,
            Err(_) => panic!("the stream is stored"),
        },
        Err(e) => panic!("scan failed: {:?}", e),
    };
    assert_eq!(reader.len(), 6);
    assert_eq!(read_all(&mut reader, 3), b"abcd".to_vec());
    assert_eq!(reader.seek(SeekFrom::Start(6)), Ok(6));
    assert_eq!(read_all(&mut reader, 3), Vec::<u8>::new());
}

#[test]
fn cursor_reads_and_seeks() {
    let mut src = ByteCursor::new(b"abcdef".to_vec());
    let mut buf = [0u8; 4];
    assert_eq!(src.read(&mut buf), 4);
    assert_eq!(&buf, b"abcd");
    assert_eq!(src.read(&mut buf), 2);
    assert_eq!(&buf, b"efcd");
    assert_eq!(src.read(&mut buf), 0);
    assert_eq!(src.seek(SeekFrom::Start(100)), Ok(100));
    assert_eq!(src.read(&mut buf), 0);
    assert_eq!(src.seek(SeekFrom::End(6)), Ok(0));
    assert_eq!(src.seek(SeekFrom::End(7)), Err(SeekError::Before { deficit: 1 }));
    assert_eq!(src.seek(SeekFrom::Current(3)), Ok(3));
    let mut three = [0u8; 3];
    assert_eq!(src.read_exact(&mut three), Ok(()));
    assert_eq!(&three, b"def");
    src.rewind();
    assert_eq!(src.seek(SeekFrom::Current(4)), Ok(4));
    assert!(src.read_exact(&mut three).is_err());
    assert_eq!(src.stream_position(), 6);
    src.set_position(u64::MAX);
    assert_eq!(
        src.seek(SeekFrom::Current(5)),
        Err(SeekError::Beyond { bound: u64::MAX, excess: 5 })
    );
}

#[test]
fn seek_requests_resolve_by_their_targets() {
    assert_eq!(resolve_seek(SeekFrom::Start(7), 3, 10, 10), Ok(7));
    assert_eq!(resolve_seek(SeekFrom::Current(-3), 3, 10, 10), Ok(0));
    assert_eq!(resolve_seek(SeekFrom::End(10), 3, 10, 10), Ok(0));
    assert_eq!(resolve_seek(SeekFrom::End(-5), 3, 10, 20), Ok(15));
    assert_eq!(
        resolve_seek(SeekFrom::End(i64::MIN), 0, 0, 0),
        Err(SeekError::Beyond { bound: 0, excess: 1u64 << 63 })
    );
    assert_eq!(
        resolve_seek(SeekFrom::Start(u64::MAX), 0, 0, 0),
        Err(SeekError::Beyond { bound: 0, excess: u64::MAX })
    );
}

#[test]
fn reader_is_dirty_only_after_a_move() {
    let mut data = stored_block(false, b"abc");
    data.extend(stored_block(true, b"defgh"));
    let mut reader = match ParsedDeflate::parse(ByteCursor::new(data)) {
        Ok(parsed) => match parsed.into_reader() {
            Ok(reader) => reader,
            Err(_) => panic!("the stream is stored"),
        },
        Err(e) => panic!("scan failed: {:?}", e),
    };
    let mut buf = [0u8; 2];
    // A new reader has yet to find its first byte.
    assert!(reader.is_dirty());
    assert_eq!(reader.read(&mut buf), 2);
    assert!(!reader.is_dirty());
    // A seek to where the reader is leaves it clean, as does a refused one.
    assert_eq!(reader.seek(SeekFrom::Current(0)), Ok(2));
    assert_eq!(reader.seek(SeekFrom::Start(2)), Ok(2));
    assert!(reader.seek(SeekFrom::Start(9)).is_err());
    assert!(!reader.is_dirty());
    // A seek elsewhere marks it, and the next read cleans it.
    assert_eq!(reader.seek(SeekFrom::Start(5)), Ok(5));
    assert!(reader.is_dirty());
    assert_eq!(reader.seek(SeekFrom::Current(0)), Ok(5));
    assert!(reader.is_dirty());
    assert_eq!(reader.read(&mut buf), 2);
    assert_eq!(&buf, b"fg");
    assert!(!reader.is_dirty());
    // A rewind marks it, unless the reader is at position 0 already.
    reader.rewind();
    assert!(reader.is_dirty());
    assert_eq!(reader.read(&mut buf[..0]), 0);
    assert!(!reader.is_dirty());
    assert_eq!(reader.stream_position(), 0);
    reader.rewind();
    assert!(!reader.is_dirty());
    assert_eq!(reader.read(&mut buf), 2);
    assert_eq!(&buf, b"ab");
    // At the end of the last block nothing is read, and the reader is dirty.
    assert_eq!(reader.seek(SeekFrom::End(0)), Ok(8));
    assert_eq!(reader.read(&mut buf), 0);
    assert!(reader.is_dirty());
}
