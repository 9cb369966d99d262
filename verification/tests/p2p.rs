use ztreamer::protocol::p2p::{
    Message, MessageDecoder, P2pStatus, CAPABILITY, FRAME_FLAG_MORE, MAX_MESSAGE_BYTES, SERVICE_ID,
    STREAM_KIND, STREAM_VERSION,
};

#[test]
fn v1_numbers_and_reassembly() {
    for number in 0..=23 {
        let message = Message::try_from(number).unwrap();
        assert_eq!(u16::from(message), number);
    }
    assert_eq!(
        Message::GetBlockRangeRequest.response(),
        Some(Message::GetBlockRangeResponse)
    );

    let mut decoder = MessageDecoder::default();
    assert!(decoder
        .push(Message::GetBlockRequest.into(), FRAME_FLAG_MORE, vec![1, 2])
        .unwrap()
        .is_none());
    assert_eq!(
        decoder
            .push(Message::GetBlockRequest.into(), 0, vec![3])
            .unwrap(),
        Some((Message::GetBlockRequest, vec![1, 2, 3]))
    );
    assert!(decoder
        .push(Message::GetBlockRequest.into(), 2, Vec::new())
        .is_err());
}

#[test]
fn stream_is_announced_by_fixed_numbers() {
    assert_eq!(SERVICE_ID, "zakura.ztreamer.v1");
    assert_eq!(CAPABILITY, 1 << 17);
    assert_eq!(STREAM_KIND, 65);
    assert_eq!(STREAM_VERSION, 1);
    assert_eq!(MAX_MESSAGE_BYTES, 4 * 1024 * 1024);
}

#[test]
fn only_requests_have_responses() {
    for number in 0..=23u16 {
        let response = Message::try_from(number).unwrap().response();
        if number <= 10 {
            assert_eq!(response.map(u16::from), Some(number + 11));
        } else {
            assert_eq!(response, None);
        }
    }
}

#[test]
fn unknown_numbers_and_flags_are_named() {
    assert_eq!(
        Message::try_from(24),
        Err("invalid message type 24".to_owned())
    );
    let mut decoder = MessageDecoder::default();
    assert_eq!(
        decoder.push(65_535, 0, Vec::new()),
        Err("invalid message type 65535".to_owned())
    );
    assert_eq!(
        decoder.push(65_535, 300, Vec::new()),
        Err("invalid frame flags 300".to_owned())
    );
}

#[test]
fn refused_frames_leave_the_message_alone() {
    let mut decoder = MessageDecoder::default();
    assert_eq!(decoder.push(10, FRAME_FLAG_MORE, vec![1]), Ok(None));
    assert_eq!(
        decoder.push(11, 0, vec![9]),
        Err("message type changed before the final frame".to_owned())
    );
    assert_eq!(
        decoder.push(10, 0, vec![0; MAX_MESSAGE_BYTES]),
        Err("message exceeds 4194304 bytes".to_owned())
    );
    assert_eq!(
        decoder.push(10, 0, vec![2]),
        Ok(Some((Message::PingRequest, vec![1, 2])))
    );
}

#[test]
fn largest_message_is_reassembled_from_frames() {
    let mut decoder = MessageDecoder::default();
    for _ in 0..3 {
        assert_eq!(
            decoder.push(21, FRAME_FLAG_MORE, vec![7; MAX_MESSAGE_BYTES / 4]),
            Ok(None)
        );
    }
    let (message, payload) = decoder
        .push(21, 0, vec![7; MAX_MESSAGE_BYTES / 4])
        .unwrap()
        .unwrap();
    assert_eq!(message, Message::PingResponse);
    assert_eq!(payload, vec![7; MAX_MESSAGE_BYTES]);
}

#[test]
fn status_holds_code_and_message() {
    let status = P2pStatus {
        code: 3,
        message: "bad".to_owned(),
    };
    assert_eq!(status.clone(), status);
}
