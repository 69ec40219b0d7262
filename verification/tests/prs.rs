use ages_prs::Cmd;
use ages_prs::DecompressError;
use ages_prs::Encoder;
use ages_prs::Flavor;
use ages_prs::Legacy;
use ages_prs::Modern;
use ages_prs::PrsSink;
use ages_prs::compress;
use ages_prs::decompress;

const TEST_DATA: &[u8] = b"The PRS format interleaves command bits and payload bytes: every \
literal or pointer token is announced by one or more bits packed LSB-first \
into command bytes that are written ahead of the payload they select. Short \
pointers reach back at most 255 bytes and copy between two and five bytes; \
long pointers reach anywhere inside the 8191-byte window and copy up to the \
dialect's maximum length, spelling the length either in three spare offset \
bits or in one extended-length byte. The stream ends with a long-pointer \
prefix whose sixteen-bit offset is zero.";

fn corpus_times_100() -> Vec<u8> {
    let mut data = Vec::with_capacity(TEST_DATA.len() * 100);
    for _ in 0..100 {
        data.extend_from_slice(TEST_DATA);
    }
    data
}

#[test]
fn test_compress_decompress_legacy() {
    let data = corpus_times_100();
    let compressed = compress::<Legacy>(&data[..]);
    let decompressed = decompress::<Legacy>(&compressed[..]).unwrap();

    assert!(compressed.len() < data.len());
    assert!(decompressed == data);
}

#[test]
fn test_compress_decompress_modern() {
    let data = corpus_times_100();
    let compressed = compress::<Modern>(&data[..]);
    let decompressed = decompress::<Modern>(&compressed[..]).unwrap();

    assert!(compressed.len() < data.len());
    assert!(decompressed == data);
}

#[test]
fn test_empty_roundtrip() {
    assert_eq!(compress::<Modern>(b""), Vec::<u8>::new());
    assert_eq!(decompress::<Modern>(&[]).unwrap(), Vec::<u8>::new());
    assert_eq!(compress::<Legacy>(b""), Vec::<u8>::new());
    assert_eq!(decompress::<Legacy>(&[]).unwrap(), Vec::<u8>::new());
}

#[test]
fn test_single_literal() {
    let compressed = compress::<Modern>(b"A");
    // command byte with bit 0 set (literal), the byte 'A', then the EOF tail
    assert_eq!(compressed, vec![0x05, 0x41, 0x00, 0x00]);
    assert_eq!(compressed[0] & 1, 1);
    assert_eq!(decompress::<Modern>(&compressed).unwrap(), b"A".to_vec());
}

#[test]
fn test_short_pointer_run() {
    // literal 'A', then a short pointer (distance 1, length 4): command bits
    // 1, 0,0,1,0, then EOF bits 0,1 -> command byte 0x49; payloads are 'A',
    // the negated distance byte 0xFF, and the two zero EOF bytes.
    let compressed = compress::<Modern>(b"AAAAA");
    assert_eq!(compressed, vec![0x49, 0x41, 0xFF, 0x00, 0x00]);
    assert_eq!(decompress::<Modern>(&compressed).unwrap(), b"AAAAA".to_vec());
}

#[test]
fn test_hello_roundtrip() {
    let input = b"Hello Hello Hello ";
    let compressed = compress::<Modern>(input);
    assert!(compressed.len() < input.len());
    assert_eq!(decompress::<Modern>(&compressed).unwrap(), input.to_vec());
}

#[test]
fn test_repeated_pattern_shrinks() {
    // a repetition of a pattern, at least four times the pattern's length
    let mut data = Vec::new();
    for _ in 0..4 {
        data.extend_from_slice(b"abcdefgh");
    }
    let c_legacy = compress::<Legacy>(&data);
    let c_modern = compress::<Modern>(&data);
    assert!(c_legacy.len() < data.len());
    assert!(c_modern.len() < data.len());
    assert_eq!(decompress::<Legacy>(&c_legacy).unwrap(), data);
    assert_eq!(decompress::<Modern>(&c_modern).unwrap(), data);
}

#[test]
fn test_long_copy_roundtrip() {
    // forces copies longer than the 265-byte Modern maximum
    let data = vec![b'a'; 1000];
    for variant_output in [compress::<Legacy>(&data), compress::<Modern>(&data)] {
        assert!(variant_output.len() < data.len());
    }
    assert_eq!(decompress::<Legacy>(&compress::<Legacy>(&data)).unwrap(), data);
    assert_eq!(decompress::<Modern>(&compress::<Modern>(&data)).unwrap(), data);
}

#[test]
fn test_long_distance_roundtrip() {
    // a 300-byte period forces long pointers with distances past 255 and
    // exercises the extended-length byte at its largest values
    let mut data = Vec::new();
    for i in 0..600usize {
        data.push((i % 300 % 256) as u8);
    }
    for compressed in [compress::<Legacy>(&data), compress::<Modern>(&data)] {
        assert!(compressed.len() < data.len());
    }
    assert_eq!(decompress::<Legacy>(&compress::<Legacy>(&data)).unwrap(), data);
    assert_eq!(decompress::<Modern>(&compress::<Modern>(&data)).unwrap(), data);
}

#[test]
fn test_eof_sentinel_tail() {
    for input in [&b"A"[..], &b"AAAAA"[..], TEST_DATA] {
        for compressed in [compress::<Legacy>(input), compress::<Modern>(input)] {
            assert!(compressed.len() >= 3);
            assert_eq!(compressed[compressed.len() - 1], 0);
            assert_eq!(compressed[compressed.len() - 2], 0);
        }
    }
}

#[test]
fn test_handcrafted_eof_stream() {
    // command byte 0b00000010: bits 0,1 -> long-pointer prefix; the 16-bit
    // little-endian offset 0x0000 is the EOF sentinel
    assert_eq!(decompress::<Modern>(&[0x02, 0x00, 0x00]).unwrap(), Vec::<u8>::new());
    assert_eq!(decompress::<Legacy>(&[0x02, 0x00, 0x00]).unwrap(), Vec::<u8>::new());
    // trailing bytes after the sentinel are ignored
    assert_eq!(decompress::<Modern>(&[0x02, 0x00, 0x00, 0x41]).unwrap(), Vec::<u8>::new());
}

#[test]
fn test_invalid_pointer_rejected() {
    // long pointer with 16-bit value 1: length field 1 -> length 3, offset 0
    // -> distance 8192, but no bytes have been produced yet
    let r = decompress::<Modern>(&[0x02, 0x01, 0x00]);
    assert_eq!(
        r,
        Err(DecompressError::InvalidPointer { dist: 8192, len: 3, current_len: 0 })
    );
}

#[test]
fn test_unexpected_eof() {
    // a literal bit with no literal byte behind it
    assert_eq!(decompress::<Modern>(&[0x01]), Err(DecompressError::Eof));
    // a long-pointer prefix with a truncated offset
    assert_eq!(decompress::<Modern>(&[0x02, 0x01]), Err(DecompressError::Eof));
}

#[test]
fn test_wrong_dialect_differs() {
    // 40 bytes with period 20: the encoder emits a long pointer with an
    // extended-length byte, on which the two dialects disagree
    let data = b"0123456789abcdefghij0123456789abcdefghij".to_vec();
    let compressed = compress::<Legacy>(&data);
    let wrong = decompress::<Modern>(&compressed);
    assert!(wrong != Ok(data.clone()));
    let right = decompress::<Legacy>(&compressed);
    assert_eq!(right, Ok(data));
}

#[test]
fn test_streaming_equivalence() {
    let input = b"Hello Hello Hello ";
    for split in 0..=input.len() {
        let mut encoder = Encoder::new::<Modern>();
        encoder.feed(&input[..split]);
        encoder.feed(&input[split..]);
        assert_eq!(encoder.finish(), compress::<Modern>(input));
    }

    let data = corpus_times_100();
    let mut encoder = Encoder::new::<Legacy>();
    for chunk in data.chunks(97) {
        encoder.feed(chunk);
    }
    assert_eq!(encoder.finish(), compress::<Legacy>(&data));
}

#[test]
fn test_streaming_empty() {
    let encoder = Encoder::new::<Modern>();
    assert_eq!(encoder.finish(), Vec::<u8>::new());
    let mut encoder = Encoder::new::<Modern>();
    encoder.feed(b"");
    assert_eq!(encoder.finish(), Vec::<u8>::new());
}

#[test]
fn test_sink_literals_and_flush() {
    let mut sink = PrsSink::new::<Modern>(32);
    for _ in 0..9 {
        sink.consume(Cmd::Literal(b'x'));
    }
    // eight literal bits saturate the first command byte; the ninth opens a
    // second one, so everything before it can be flushed
    assert_eq!(sink.cmd_index, 9);
    let flushed = sink.take_flushable();
    assert_eq!(flushed[0], 0xFF);
    assert_eq!(flushed.len(), 9);
    assert_eq!(sink.cmd_index, 0);

    let rest = sink.finish();
    let mut whole = flushed;
    whole.extend_from_slice(&rest);
    assert_eq!(decompress::<Modern>(&whole).unwrap(), vec![b'x'; 9]);
}

#[test]
fn test_sink_short_pointer_encoding() {
    let mut sink = PrsSink::new::<Modern>(8);
    sink.consume(Cmd::Literal(b'A'));
    sink.consume(Cmd::Pointer(1, 4));
    let out = sink.finish();
    assert_eq!(out, vec![0x49, 0x41, 0xFF, 0x00, 0x00]);
}

#[test]
fn test_flavor_constants() {
    assert_eq!(<Legacy as Flavor>::min_long_copy_length(), 1);
    assert_eq!(<Modern as Flavor>::min_long_copy_length(), 10);
    assert_eq!(<Legacy as Flavor>::max_copy_length(), 256);
    assert_eq!(<Modern as Flavor>::max_copy_length(), 265);
    assert_eq!(<ages_prs::flavor::Legacy as Flavor>::min_long_copy_length(), 1);
    assert_eq!(<ages_prs::flavor::Modern as Flavor>::min_long_copy_length(), 10);
}

#[test]
fn test_into_inner_error_accessors() {
    let sink = vec![1u8, 2, 3];
    let failure = std::io::Error::new(std::io::ErrorKind::WriteZero, "failed to write");
    let err = ages_prs::IntoInnerError::new(sink, failure);
    assert_eq!(err.error().kind(), std::io::ErrorKind::WriteZero);
    assert_eq!(err.into_inner(), vec![1u8, 2, 3]);
}

#[test]
fn test_decoder_ctx_commands() {
    let stream = [0x49u8, 0x41, 0xFF, 0x00, 0x00];
    let mut ctx = ages_prs::Ctx::new(&stream, 10);
    assert_eq!(ctx.next_cmd(), Ok(Some(Cmd::Literal(0x41))));
    assert_eq!(ctx.next_cmd(), Ok(Some(Cmd::Pointer(1, 4))));
    assert_eq!(ctx.next_cmd(), Ok(None));
}
