use bytes::BytesMut;
use raft_kv::codec::{FrameError, RaftCodec, MAX_FRAME_BYTES};

#[test]
fn frame_layout() {
    let mut codec = RaftCodec;
    let mut buffer = BytesMut::new();
    codec.encode(&[7, 8, 9], &mut buffer).unwrap();
    assert_eq!(&buffer[..], &[0, 0, 0, 3, 7, 8, 9]);
}

#[test]
fn length_is_big_endian() {
    let mut codec = RaftCodec;
    let mut buffer = BytesMut::new();
    codec.encode(&vec![1u8; 0x0001_0203], &mut buffer).unwrap();
    assert_eq!(&buffer[..4], &[0x00, 0x01, 0x02, 0x03]);
    let payload = codec.decode(&mut buffer).unwrap().unwrap();
    assert_eq!(payload, vec![1u8; 0x0001_0203]);
    assert!(buffer.is_empty());
}

#[test]
fn frames_come_back_in_order() {
    let mut codec = RaftCodec;
    let mut buffer = BytesMut::new();
    codec.encode(b"first", &mut buffer).unwrap();
    codec.encode(b"", &mut buffer).unwrap();
    codec.encode(b"third", &mut buffer).unwrap();
    assert_eq!(codec.decode(&mut buffer).unwrap(), Some(b"first".to_vec()));
    assert_eq!(codec.decode(&mut buffer).unwrap(), Some(Vec::new()));
    assert_eq!(codec.decode(&mut buffer).unwrap(), Some(b"third".to_vec()));
    assert_eq!(codec.decode(&mut buffer).unwrap(), None);
}

#[test]
fn partial_frames_are_kept() {
    let mut codec = RaftCodec;
    let mut whole = BytesMut::new();
    codec.encode(b"hello", &mut whole).unwrap();
    for cut in 0..whole.len() {
        let mut buffer = BytesMut::from(&whole[..cut]);
        assert_eq!(codec.decode(&mut buffer).unwrap(), None);
        assert_eq!(&buffer[..], &whole[..cut]);
        buffer.extend_from_slice(&whole[cut..]);
        assert_eq!(codec.decode(&mut buffer).unwrap(), Some(b"hello".to_vec()));
    }
}

#[test]
fn frames_of_ordinary_size_fit() {
    let codec = RaftCodec;
    let buffer = BytesMut::from(&[1u8, 2, 3][..]);
    assert!(codec.fits(&[7; 9], &buffer));
    assert!(codec.fits(&vec![0u8; MAX_FRAME_BYTES], &buffer));
    assert!(codec.fits(&vec![0u8; MAX_FRAME_BYTES + 1], &buffer), "no frame is appended");
    assert_eq!(&buffer[..], &[1, 2, 3]);
}

#[test]
fn oversize_payload_is_refused() {
    let mut codec = RaftCodec;
    let mut buffer = BytesMut::new();
    assert_eq!(
        codec.encode(&vec![0u8; MAX_FRAME_BYTES + 1], &mut buffer),
        Err(FrameError::TooLarge)
    );
    assert!(buffer.is_empty());
    assert!(codec.encode(&vec![0u8; MAX_FRAME_BYTES], &mut buffer).is_ok());
    assert_eq!(buffer.len(), 4 + 8 * 1024 * 1024);
}

#[test]
fn oversize_header_is_refused_at_once() {
    let mut codec = RaftCodec;
    let mut buffer = BytesMut::from(&[0x00u8, 0x80, 0x00, 0x01][..]);
    assert_eq!(codec.decode(&mut buffer), Err(FrameError::TooLarge));
    assert_eq!(&buffer[..], &[0x00, 0x80, 0x00, 0x01]);
    let mut limit = BytesMut::from(&[0x00u8, 0x80, 0x00, 0x00][..]);
    assert_eq!(codec.decode(&mut limit), Ok(None));
}
