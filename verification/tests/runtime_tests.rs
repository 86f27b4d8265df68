use inarybay::runtime::{ByteSource, ReadFailure, align_padding, read, read_delimited};
use inarybay::runtime::error::{ReadErrCtx, ReadError};
use inarybay::runtime::lowheap_error::ReadErrCtx as LowHeapReadErrCtx;

fn source(data: &[u8]) -> ByteSource {
    ByteSource::new(data.to_vec())
}

#[test]
fn read_fixed_length() {
    let mut s = source(b"hello world");
    assert_eq!(read(&mut s, 5), Ok(b"hello".to_vec()));
    assert_eq!(s.pos, 5);
    assert_eq!(read(&mut s, 6), Ok(b" world".to_vec()));
    assert_eq!(s.pos, 11);
}

#[test]
fn read_zero_reads_everything_left() {
    let mut s = source(b"abcdef");
    assert_eq!(read(&mut s, 2), Ok(b"ab".to_vec()));
    assert_eq!(read(&mut s, 0), Ok(b"cdef".to_vec()));
    assert_eq!(s.pos, 6);
    assert_eq!(read(&mut s, 0), Ok(vec![]));
}

#[test]
fn read_past_end_fails() {
    let mut s = source(b"abc");
    assert_eq!(read(&mut s, 4), Err(ReadFailure::UnexpectedEof));
    assert_eq!(s.pos, 3);
}

#[test]
fn read_delimited_two_byte_delimiter() {
    let mut s = source(b"1234567890\n\nhelo");
    assert_eq!(read_delimited(&mut s, b"\n\n"), b"1234567890".to_vec());
    assert_eq!(s.pos, 12);
    assert_eq!(read(&mut s, 4), Ok(b"helo".to_vec()));
}

#[test]
fn read_delimited_one_byte_delimiter() {
    let mut s = source(b"ab;cd;");
    assert_eq!(read_delimited(&mut s, b";"), b"ab".to_vec());
    assert_eq!(read_delimited(&mut s, b";"), b"cd".to_vec());
    assert_eq!(s.pos, 6);
}

#[test]
fn read_delimited_partial_match_is_data() {
    // The first byte of the delimiter followed by something else is data
    let mut s = source(b"a\nb\n\nc");
    assert_eq!(read_delimited(&mut s, b"\n\n"), b"a\nb".to_vec());
    assert_eq!(s.pos, 5);
}

#[test]
fn read_delimited_end_without_delimiter() {
    // No delimiter before the end: exactly the bytes read
    let mut s = source(b"abc");
    assert_eq!(read_delimited(&mut s, b"xy"), b"abc".to_vec());
    assert_eq!(s.pos, 3);
}

#[test]
fn read_delimited_one_byte_delimiter_absent_keeps_everything() {
    let mut s = source(b"abc");
    assert_eq!(read_delimited(&mut s, b";"), b"abc".to_vec());
    assert_eq!(s.pos, 3);
}

#[test]
fn read_delimited_first_byte_then_end() {
    // The first byte of the delimiter, then the data ends inside the rest
    let mut s = source(b"ab\n");
    assert_eq!(read_delimited(&mut s, b"\n\n"), b"ab\n".to_vec());
    assert_eq!(s.pos, 3);
}

#[test]
fn read_delimited_finds_first_occurrence() {
    // The delimiter [0, 1] first occurs at index 1
    let mut s = source(&[0u8, 0u8, 1u8]);
    assert_eq!(read_delimited(&mut s, &[0u8, 1u8]), vec![0u8]);
    assert_eq!(s.pos, 3);
}

#[test]
fn read_delimited_overlap_with_payload_ends_early() {
    // A payload [1] before the delimiter [1, 1]: the delimiter is found at 0
    let mut s = source(&[1u8, 1u8, 1u8]);
    assert_eq!(read_delimited(&mut s, &[1u8, 1u8]), Vec::<u8>::new());
    assert_eq!(s.pos, 2);
}

#[test]
fn delimited_round_trip_scenario() {
    let payload = b"1234567890".to_vec();
    let mut data = payload.clone();
    data.extend_from_slice(b"\n\n");
    data.extend_from_slice(b"rest");
    let mut s = source(&data);
    assert_eq!(read_delimited(&mut s, b"\n\n"), payload);
    assert_eq!(s.pos, 12);
}

#[test]
fn align_padding_values() {
    // One byte read, align to 4: next read at 4
    assert_eq!(align_padding(1, 0, 4), 3);
    // Five bytes read, align to 4: next read at 8
    assert_eq!(align_padding(5, 0, 4), 3);
    // Already aligned: no padding
    assert_eq!(align_padding(8, 0, 4), 0);
    // Shift 1, align 4: reads at 3, then 7
    assert_eq!(align_padding(0, 1, 4), 3);
    assert_eq!(align_padding(4, 1, 4), 3);
    assert_eq!(align_padding(3, 1, 4), 0);
    assert_eq!(align_padding(1, 1, 4), 2);
    assert_eq!(align_padding(usize::MAX, usize::MAX, usize::MAX), 0);
    assert_eq!(align_padding(7, 0, 1), 0);
}

#[test]
fn align_padding_is_minimal_and_aligned() {
    for alignment in 1usize..9 {
        for shift in 0usize..9 {
            for offset in 0usize..40 {
                let p = align_padding(offset, shift, alignment);
                assert!(p < alignment);
                assert_eq!((offset + p + shift) % alignment, 0);
                for k in 0..p {
                    assert_ne!((offset + k + shift) % alignment, 0);
                }
            }
        }
    }
}

#[test]
fn errorize_passes_ok_through() {
    let r: Result<u8, String> = Ok(3);
    match ReadErrCtx::errorize(r, "node_a") {
        Ok(v) => assert_eq!(v, 3),
        Err(_) => panic!("expected Ok"),
    }
}

#[test]
fn errorize_names_the_node() {
    let r: Result<u8, String> = Err("bad data".to_string());
    match ReadErrCtx::errorize(r, "node_a") {
        Ok(_) => panic!("expected Err"),
        Err(ReadError { node, inner }) => {
            assert_eq!(node, "node_a");
            assert_eq!(inner, "bad data");
        },
    }
}

#[test]
fn read_error_message() {
    let e = ReadError { node: "version_int", inner: "eof".to_string() };
    assert_eq!(e.message(), "Error reading in node version_int: eof");
}

#[test]
fn lowheap_errorize() {
    let r: Result<u8, String> = Err("x".to_string());
    assert_eq!(LowHeapReadErrCtx::errorize(r, "static text"), Err("static text"));
    let r: Result<u8, String> = Ok(9);
    assert_eq!(LowHeapReadErrCtx::errorize(r, "static text"), Ok(9));
}
