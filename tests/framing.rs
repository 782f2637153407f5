use chat::connection::framing::{encode_frame, FrameReader, MAX_FRAME_LEN};
use chat::FrameError;

#[test]
fn a_frame_is_its_length_then_its_bytes() {
    let framed = encode_frame(b"hi").unwrap();
    assert_eq!(framed, vec![0, 0, 0, 2, b'h', b'i']);
    let empty = encode_frame(b"").unwrap();
    assert_eq!(empty, vec![0, 0, 0, 0]);
    let long = vec![7u8; 300];
    let framed = encode_frame(&long).unwrap();
    assert_eq!(&framed[..4], &[0, 0, 1, 44]);
    assert_eq!(&framed[4..], &long[..]);
}

#[test]
fn the_longest_payload_is_accepted_and_one_more_byte_refused() {
    let max = vec![1u8; MAX_FRAME_LEN];
    let framed = encode_frame(&max).unwrap();
    assert_eq!(&framed[..4], &[0, 128, 0, 0]);
    assert_eq!(framed.len(), MAX_FRAME_LEN + 4);
    let over = vec![1u8; MAX_FRAME_LEN + 1];
    assert!(matches!(encode_frame(&over), Err(FrameError::Io(_))));
}

#[test]
fn decoding_an_encoded_frame_gives_it_back() {
    let mut reader = FrameReader::new();
    reader.push(&encode_frame(b"hello").unwrap());
    assert_eq!(reader.next_frame().unwrap().unwrap(), b"hello".to_vec());
    assert!(reader.next_frame().is_none());
}

#[test]
fn frames_survive_any_split_into_reads() {
    let payloads: Vec<Vec<u8>> = vec![b"one".to_vec(), Vec::new(), b"three!".to_vec()];
    let mut wire = Vec::new();
    for p in &payloads {
        wire.extend(encode_frame(p).unwrap());
    }
    for chunk in 1..=wire.len() {
        let mut reader = FrameReader::new();
        let mut got = Vec::new();
        for piece in wire.chunks(chunk) {
            reader.push(piece);
            while let Some(frame) = reader.next_frame() {
                got.push(frame.unwrap());
            }
        }
        assert_eq!(got, payloads);
    }
}

#[test]
fn an_incomplete_frame_waits_for_more() {
    let mut reader = FrameReader::new();
    reader.push(&[0, 0]);
    assert!(reader.next_frame().is_none());
    reader.push(&[0, 3, b'a', b'b']);
    assert!(reader.next_frame().is_none());
    reader.push(&[b'c', 0]);
    assert_eq!(reader.next_frame().unwrap().unwrap(), b"abc".to_vec());
    assert!(reader.next_frame().is_none());
}

#[test]
fn an_oversized_length_is_an_error() {
    let mut reader = FrameReader::new();
    reader.push(&[0, 128, 0, 1, 9, 9]);
    assert!(matches!(reader.next_frame(), Some(Err(FrameError::Io(_)))));
}

#[test]
fn an_io_error_converts_into_a_frame_error() {
    let e = std::io::Error::new(std::io::ErrorKind::Other, "gone");
    assert!(matches!(FrameError::from(e), FrameError::Io(_)));
}
