use dataflow::rpc::{
    decode_frame, encode_frame, Decoded, FrameError, Received, RpcClient, RpcSendError,
    RpcServiceEndpoint, SendError, TryRecvError, DEFAULT_FRAME_CEILING,
};

#[test]
fn frame_has_a_big_endian_length() {
    let frame = encode_frame(&vec![7, 8, 9], DEFAULT_FRAME_CEILING).unwrap();
    assert_eq!(frame, vec![0, 0, 0, 3, 7, 8, 9]);
    let empty = encode_frame(&vec![], DEFAULT_FRAME_CEILING).unwrap();
    assert_eq!(empty, vec![0, 0, 0, 0]);
    let long = encode_frame(&vec![1u8; 0x01020304], usize::MAX).unwrap();
    assert_eq!(&long[..4], &[1, 2, 3, 4]);
    assert_eq!(long.len(), 4 + 0x01020304);
}

#[test]
fn frame_over_the_ceiling_is_refused() {
    assert_eq!(encode_frame(&vec![0u8; 11], 10), Err(FrameError::TooLarge));
    assert!(encode_frame(&vec![0u8; 10], 10).is_ok());
    assert_eq!(DEFAULT_FRAME_CEILING, 64 * 1024 * 1024);
}

#[test]
fn decode_takes_one_frame_off_the_buffer() {
    let mut buf = encode_frame(&vec![1, 2, 3], 100).unwrap();
    buf.extend(encode_frame(&vec![4], 100).unwrap());
    match decode_frame(&buf, 100) {
        Decoded::Frame { payload, consumed } => {
            assert_eq!(payload, vec![1, 2, 3]);
            assert_eq!(consumed, 7);
        }
        other => panic!("a whole frame is there: {:?}", other),
    }
    let rest = buf[7..].to_vec();
    match decode_frame(&rest, 100) {
        Decoded::Frame { payload, consumed } => {
            assert_eq!(payload, vec![4]);
            assert_eq!(consumed, 5);
        }
        other => panic!("a whole frame is there: {:?}", other),
    }
}

#[test]
fn decode_waits_for_the_rest_and_refuses_what_is_too_long() {
    assert!(matches!(decode_frame(&vec![0, 0], 100), Decoded::Incomplete));
    assert!(matches!(decode_frame(&vec![0, 0, 0, 2, 9], 100), Decoded::Incomplete));
    assert!(matches!(
        decode_frame(&vec![0, 0, 1, 0, 9], 100),
        Decoded::TooLarge { length: 256 }
    ));
    assert!(matches!(
        decode_frame(&vec![4, 0, 0, 1], DEFAULT_FRAME_CEILING),
        Decoded::TooLarge { length: 0x04000001 }
    ));
}

#[test]
fn client_is_poisoned_by_a_failure() {
    let mut c = RpcClient::new(true);
    assert!(c.is_local());
    assert!(!c.is_poisoned());
    assert_eq!(c.send(&vec![5]), Ok(vec![0, 0, 0, 1, 5]));
    assert_eq!(c.complete(Ok(vec![6])), Ok(vec![6]));
    assert!(!c.is_poisoned());
    assert_eq!(c.send(&vec![5, 5]), Ok(vec![0, 0, 0, 2, 5, 5]));
    assert_eq!(c.complete(Err(SendError::Io)), Err(SendError::Io));
    assert!(c.is_poisoned());
    assert_eq!(c.send(&vec![5]), Err(SendError::Poisoned));
}

#[test]
fn endpoint_is_poisoned_by_a_failure() {
    let mut e = RpcServiceEndpoint::new();
    assert_eq!(e.try_recv(Received::WouldBlock), Err(TryRecvError::Empty));
    assert_eq!(e.try_recv(Received::Message(vec![1])), Ok(vec![1]));
    assert_eq!(e.send(true, true), Err(RpcSendError::StillNeedsFlush));
    assert_eq!(e.flush(true), Ok(()));
    assert_eq!(e.send(true, false), Ok(()));
    assert_eq!(
        e.try_recv(Received::DeserializationError),
        Err(TryRecvError::DeserializationError)
    );
    assert!(e.is_poisoned());
    assert_eq!(e.try_recv(Received::Message(vec![1])), Err(TryRecvError::Disconnected));
    assert_eq!(e.send(true, false), Err(RpcSendError::Disconnected));
    assert_eq!(e.flush(true), Err(RpcSendError::Disconnected));

    let mut e = RpcServiceEndpoint::new();
    assert_eq!(e.send(false, false), Err(RpcSendError::SerializationError));
    assert!(e.is_poisoned());
    let mut e = RpcServiceEndpoint::new();
    assert_eq!(e.try_recv(Received::IoError), Err(TryRecvError::Disconnected));
    assert!(e.is_poisoned());
    let mut e = RpcServiceEndpoint::new();
    assert_eq!(e.flush(false), Err(RpcSendError::Disconnected));
    assert!(!e.may_receive());
}
