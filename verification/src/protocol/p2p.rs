//! Messages of the peer-to-peer protocol, and their reassembly from frames.
use vstd::prelude::*;
use vstd::string::StringExecFns;

use crate::bytes;
use crate::text;

verus! {

pub const SERVICE_ID: &'static str = "zakura.ztreamer.v1";

pub const CAPABILITY: u64 = 131_072;

pub const STREAM_KIND: u16 = 65;

pub const STREAM_VERSION: u16 = 1;

/// More frames of the same message follow.
pub const FRAME_FLAG_MORE: u16 = 1;

pub const MAX_MESSAGE_BYTES: usize = 4_194_304;

/// Each request is one protobuf message. Streaming methods emit one response
/// message per item followed by `StreamEnd`; failures emit `ErrorResponse`.
#[derive(Clone, Copy, Debug, PartialEq, Eq, Structural)]
pub enum Message {
    GetLatestBlockRequest,
    GetBlockRequest,
    GetBlockNullifiersRequest,
    GetBlockRangeRequest,
    GetBlockRangeNullifiersRequest,
    GetTransactionRequest,
    GetTreeStateRequest,
    GetLatestTreeStateRequest,
    GetSubtreeRootsRequest,
    GetLightdInfoRequest,
    PingRequest,
    GetLatestBlockResponse,
    GetBlockResponse,
    GetBlockNullifiersResponse,
    GetBlockRangeResponse,
    GetBlockRangeNullifiersResponse,
    GetTransactionResponse,
    GetTreeStateResponse,
    GetLatestTreeStateResponse,
    GetSubtreeRootsResponse,
    GetLightdInfoResponse,
    PingResponse,
    StreamEnd,
    ErrorResponse,
}

/// The number of a message on the wire.
pub open spec fn message_number(message: Message) -> u16 {
    match message {
        Message::GetLatestBlockRequest => 0,
        Message::GetBlockRequest => 1,
        Message::GetBlockNullifiersRequest => 2,
        Message::GetBlockRangeRequest => 3,
        Message::GetBlockRangeNullifiersRequest => 4,
        Message::GetTransactionRequest => 5,
        Message::GetTreeStateRequest => 6,
        Message::GetLatestTreeStateRequest => 7,
        Message::GetSubtreeRootsRequest => 8,
        Message::GetLightdInfoRequest => 9,
        Message::PingRequest => 10,
        Message::GetLatestBlockResponse => 11,
        Message::GetBlockResponse => 12,
        Message::GetBlockNullifiersResponse => 13,
        Message::GetBlockRangeResponse => 14,
        Message::GetBlockRangeNullifiersResponse => 15,
        Message::GetTransactionResponse => 16,
        Message::GetTreeStateResponse => 17,
        Message::GetLatestTreeStateResponse => 18,
        Message::GetSubtreeRootsResponse => 19,
        Message::GetLightdInfoResponse => 20,
        Message::PingResponse => 21,
        Message::StreamEnd => 22,
        Message::ErrorResponse => 23,
    }
}

/// The response that answers a request.
pub open spec fn response_to(message: Message) -> Option<Message> {
    match message {
        Message::GetLatestBlockRequest => Some(Message::GetLatestBlockResponse),
        Message::GetBlockRequest => Some(Message::GetBlockResponse),
        Message::GetBlockNullifiersRequest => Some(Message::GetBlockNullifiersResponse),
        Message::GetBlockRangeRequest => Some(Message::GetBlockRangeResponse),
        Message::GetBlockRangeNullifiersRequest => Some(Message::GetBlockRangeNullifiersResponse),
        Message::GetTransactionRequest => Some(Message::GetTransactionResponse),
        Message::GetTreeStateRequest => Some(Message::GetTreeStateResponse),
        Message::GetLatestTreeStateRequest => Some(Message::GetLatestTreeStateResponse),
        Message::GetSubtreeRootsRequest => Some(Message::GetSubtreeRootsResponse),
        Message::GetLightdInfoRequest => Some(Message::GetLightdInfoResponse),
        Message::PingRequest => Some(Message::PingResponse),
        _ => None,
    }
}

impl Message {
    /// The response that answers this request.
    pub fn response(self) -> (response: Option<Self>)
        ensures
            response == response_to(self),
    {
        match self {
            Message::GetLatestBlockRequest => Some(Message::GetLatestBlockResponse),
            Message::GetBlockRequest => Some(Message::GetBlockResponse),
            Message::GetBlockNullifiersRequest => Some(Message::GetBlockNullifiersResponse),
            Message::GetBlockRangeRequest => Some(Message::GetBlockRangeResponse),
            Message::GetBlockRangeNullifiersRequest => Some(
                Message::GetBlockRangeNullifiersResponse,
            ),
            Message::GetTransactionRequest => Some(Message::GetTransactionResponse),
            Message::GetTreeStateRequest => Some(Message::GetTreeStateResponse),
            Message::GetLatestTreeStateRequest => Some(Message::GetLatestTreeStateResponse),
            Message::GetSubtreeRootsRequest => Some(Message::GetSubtreeRootsResponse),
            Message::GetLightdInfoRequest => Some(Message::GetLightdInfoResponse),
            Message::PingRequest => Some(Message::PingResponse),
            _ => None,
        }
    }
}

impl From<Message> for u16 {
    fn from(message: Message) -> (number: u16) {
        match message {
            Message::GetLatestBlockRequest => 0,
            Message::GetBlockRequest => 1,
            Message::GetBlockNullifiersRequest => 2,
            Message::GetBlockRangeRequest => 3,
            Message::GetBlockRangeNullifiersRequest => 4,
            Message::GetTransactionRequest => 5,
            Message::GetTreeStateRequest => 6,
            Message::GetLatestTreeStateRequest => 7,
            Message::GetSubtreeRootsRequest => 8,
            Message::GetLightdInfoRequest => 9,
            Message::PingRequest => 10,
            Message::GetLatestBlockResponse => 11,
            Message::GetBlockResponse => 12,
            Message::GetBlockNullifiersResponse => 13,
            Message::GetBlockRangeResponse => 14,
            Message::GetBlockRangeNullifiersResponse => 15,
            Message::GetTransactionResponse => 16,
            Message::GetTreeStateResponse => 17,
            Message::GetLatestTreeStateResponse => 18,
            Message::GetSubtreeRootsResponse => 19,
            Message::GetLightdInfoResponse => 20,
            Message::PingResponse => 21,
            Message::StreamEnd => 22,
            Message::ErrorResponse => 23,
        }
    }
}

impl vstd::std_specs::convert::FromSpecImpl<Message> for u16 {
    open spec fn obeys_from_spec() -> bool {
        true
    }

    open spec fn from_spec(message: Message) -> u16 {
        message_number(message)
    }
}

impl TryFrom<u16> for Message {
    type Error = String;

    /// The message of a number, or what is wrong with the number.
    fn try_from(value: u16) -> (message: Result<Self, String>)
        ensures
            match message {
                Ok(message) => message_number(message) == value,
                Err(error) => value > 23 && error@ == "invalid message type "@ + text::decimal(
                    value as nat,
                ),
            },
    {
        let message = match value {
            0 => Message::GetLatestBlockRequest,
            1 => Message::GetBlockRequest,
            2 => Message::GetBlockNullifiersRequest,
            3 => Message::GetBlockRangeRequest,
            4 => Message::GetBlockRangeNullifiersRequest,
            5 => Message::GetTransactionRequest,
            6 => Message::GetTreeStateRequest,
            7 => Message::GetLatestTreeStateRequest,
            8 => Message::GetSubtreeRootsRequest,
            9 => Message::GetLightdInfoRequest,
            10 => Message::PingRequest,
            11 => Message::GetLatestBlockResponse,
            12 => Message::GetBlockResponse,
            13 => Message::GetBlockNullifiersResponse,
            14 => Message::GetBlockRangeResponse,
            15 => Message::GetBlockRangeNullifiersResponse,
            16 => Message::GetTransactionResponse,
            17 => Message::GetTreeStateResponse,
            18 => Message::GetLatestTreeStateResponse,
            19 => Message::GetSubtreeRootsResponse,
            20 => Message::GetLightdInfoResponse,
            21 => Message::PingResponse,
            22 => Message::StreamEnd,
            23 => Message::ErrorResponse,
            _ => {
                return Err(
                    String::from_str("invalid message type ").concat(
                        text::number_text(value as u64).as_str(),
                    ),
                );
            },
        };
        Ok(message)
    }
}

impl vstd::std_specs::convert::TryFromSpecImpl<u16> for Message {
    open spec fn obeys_try_from_spec() -> bool {
        false
    }

    open spec fn try_from_spec(value: u16) -> Result<Self, String> {
        arbitrary()
    }
}

/// Protobuf payload used by [`Message::ErrorResponse`].
#[derive(Clone, Debug, PartialEq, Eq)]
pub struct P2pStatus {
    pub code: i32,
    pub message: String,
}

/// Different messages have different numbers, and every number below 24 is that of a message.
pub proof fn law_numbers_name_messages(message: Message, other: Message, number: u16)
    ensures
        message_number(message) <= 23,
        message_number(message) == message_number(other) ==> message == other,
        number <= 23 ==> exists|named: Message| message_number(named) == number,
{
    let named = if number == 0 {
        Message::GetLatestBlockRequest
    } else if number == 1 {
        Message::GetBlockRequest
    } else if number == 2 {
        Message::GetBlockNullifiersRequest
    } else if number == 3 {
        Message::GetBlockRangeRequest
    } else if number == 4 {
        Message::GetBlockRangeNullifiersRequest
    } else if number == 5 {
        Message::GetTransactionRequest
    } else if number == 6 {
        Message::GetTreeStateRequest
    } else if number == 7 {
        Message::GetLatestTreeStateRequest
    } else if number == 8 {
        Message::GetSubtreeRootsRequest
    } else if number == 9 {
        Message::GetLightdInfoRequest
    } else if number == 10 {
        Message::PingRequest
    } else if number == 11 {
        Message::GetLatestBlockResponse
    } else if number == 12 {
        Message::GetBlockResponse
    } else if number == 13 {
        Message::GetBlockNullifiersResponse
    } else if number == 14 {
        Message::GetBlockRangeResponse
    } else if number == 15 {
        Message::GetBlockRangeNullifiersResponse
    } else if number == 16 {
        Message::GetTransactionResponse
    } else if number == 17 {
        Message::GetTreeStateResponse
    } else if number == 18 {
        Message::GetLatestTreeStateResponse
    } else if number == 19 {
        Message::GetSubtreeRootsResponse
    } else if number == 20 {
        Message::GetLightdInfoResponse
    } else if number == 21 {
        Message::PingResponse
    } else if number == 22 {
        Message::StreamEnd
    } else {
        Message::ErrorResponse
    };
    assert(number <= 23 ==> message_number(named) == number);
}

/// Exactly the requests are answered, each by the message eleven numbers on.
pub proof fn law_requests_are_answered(message: Message)
    ensures
        match response_to(message) {
            Some(response) => message_number(message) <= 10 && message_number(response)
                == message_number(message) + 11,
            None => message_number(message) >= 11,
        },
{
}

// ---------------------------------------------------------------------------
// Reassembly
// ---------------------------------------------------------------------------

/// What has come of a message whose last frame is still to come.
#[verifier::ext_equal]
pub struct PartialView {
    pub message: Message,
    pub payload: Seq<u8>,
}

/// Puts messages together from frames.
#[derive(Debug)]
pub struct MessageDecoder(Option<(Message, Vec<u8>)>);

impl View for MessageDecoder {
    type V = Option<PartialView>;

    closed spec fn view(&self) -> Option<PartialView> {
        match self.0 {
            None => None,
            Some((message, payload)) => Some(PartialView { message, payload: payload@ }),
        }
    }
}

/// Payload of a message whose last frame is still to come.
pub open spec fn partial_payload(partial: Option<PartialView>) -> Seq<u8> {
    match partial {
        None => Seq::empty(),
        Some(partial) => partial.payload,
    }
}

/// Why a frame is refused, if it is.
pub open spec fn frame_refusal(
    partial: Option<PartialView>,
    message_type: u16,
    flags: u16,
    len: nat,
) -> Option<Seq<char>> {
    if flags > FRAME_FLAG_MORE {
        Some("invalid frame flags "@ + text::decimal(flags as nat))
    } else if message_type > 23 {
        Some("invalid message type "@ + text::decimal(message_type as nat))
    } else if partial is Some && message_number(partial->Some_0.message) != message_type {
        Some("message type changed before the final frame"@)
    } else if partial_payload(partial).len() + len > MAX_MESSAGE_BYTES {
        Some("message exceeds 4194304 bytes"@)
    } else {
        None
    }
}

impl Default for MessageDecoder {
    fn default() -> (decoder: Self)
        ensures
            decoder@ is None,
            decoder.wf(),
    {
        MessageDecoder(None)
    }
}

impl MessageDecoder {
    /// What holds of every decoder.
    pub open spec fn wf(&self) -> bool {
        partial_payload(self@).len() <= MAX_MESSAGE_BYTES
    }

    /// Takes a frame: the message once its last frame has come.
    pub fn push(&mut self, message_type: u16, flags: u16, bytes: Vec<u8>) -> (pushed: Result<
        Option<(Message, Vec<u8>)>,
        String,
    >)
        requires
            old(self).wf(),
        ensures
            final(self).wf(),
            match frame_refusal(old(self)@, message_type, flags, bytes@.len()) {
                Some(error) => pushed is Err && pushed->Err_0@ == error && final(self)@ == old(
                    self,
                )@,
                None => {
                    let payload = partial_payload(old(self)@) + bytes@;
                    &&& pushed is Ok
                    &&& flags == 0 ==> final(self)@ is None && (pushed->Ok_0 matches Some(whole)
                        && message_number(whole.0) == message_type && whole.1@ == payload)
                    &&& flags != 0 ==> pushed->Ok_0 is None && (final(self)@ matches Some(partial)
                        && message_number(partial.message) == message_type && partial.payload
                        == payload)
                },
            },
    {
        if flags > FRAME_FLAG_MORE {
            return Err(
                String::from_str("invalid frame flags ").concat(
                    text::number_text(flags as u64).as_str(),
                ),
            );
        }
        let message = Message::try_from(message_type)?;
        proof {
            law_numbers_name_messages(message, message, message_type);
        }
        let current_len: usize = match &self.0 {
            None => 0,
            Some((current, payload)) => {
                proof {
                    law_numbers_name_messages(*current, message, message_type);
                }
                if *current != message {
                    return Err(
                        String::from_str("message type changed before the final frame"),
                    );
                }
                payload.len()
            },
        };
        if bytes.len() > MAX_MESSAGE_BYTES - current_len {
            return Err(String::from_str("message exceeds 4194304 bytes"));
        }
        let mut whole: Vec<u8> = match self.0.take() {
            None => Vec::new(),
            Some((_, payload)) => payload,
        };
        bytes::append(&mut whole, bytes.as_slice());
        if flags == 0 {
            Ok(Some((message, whole)))
        } else {
            self.0 = Some((message, whole));
            Ok(None)
        }
    }
}

/// What has come of a message once `frames` of it have come, all but the last.
pub open spec fn partial_after(message: Message, frames: Seq<Seq<u8>>) -> Option<PartialView> {
    if frames.len() == 0 {
        None
    } else {
        Some(PartialView { message, payload: frames.flatten() })
    }
}

/// A message that is sent in frames is put together again: no frame of it is refused, and each adds
/// its bytes behind those before it.
pub proof fn law_frames_are_reassembled(message: Message, frames: Seq<Seq<u8>>, i: int)
    requires
        0 <= i < frames.len(),
        frames.flatten().len() <= MAX_MESSAGE_BYTES,
    ensures
        ({
            let partial = partial_after(message, frames.take(i));
            let flags: u16 = if i + 1 == frames.len() {
                0
            } else {
                FRAME_FLAG_MORE
            };
            &&& frame_refusal(partial, message_number(message), flags, frames[i].len()) is None
            &&& partial_payload(partial) + frames[i] == frames.take(i + 1).flatten()
        }),
{
    bytes::lemma_flatten_split(frames, i + 1);
    frames.take(i).lemma_flatten_push(frames[i]);
    assert(frames.take(i + 1) =~= frames.take(i).push(frames[i]));
    assert(frames.take(i).len() == 0 ==> frames.take(i).flatten() =~= Seq::empty());
}

/// Messages keep their numbers on the wire.
pub proof fn law_messages_keep_their_numbers()
    ensures
        message_number(Message::GetLatestBlockRequest) == 0,
        message_number(Message::GetBlockRequest) == 1,
        message_number(Message::GetBlockNullifiersRequest) == 2,
        message_number(Message::GetBlockRangeRequest) == 3,
        message_number(Message::GetBlockRangeNullifiersRequest) == 4,
        message_number(Message::GetTransactionRequest) == 5,
        message_number(Message::GetTreeStateRequest) == 6,
        message_number(Message::GetLatestTreeStateRequest) == 7,
        message_number(Message::GetSubtreeRootsRequest) == 8,
        message_number(Message::GetLightdInfoRequest) == 9,
        message_number(Message::PingRequest) == 10,
        message_number(Message::GetLatestBlockResponse) == 11,
        message_number(Message::GetBlockResponse) == 12,
        message_number(Message::GetBlockNullifiersResponse) == 13,
        message_number(Message::GetBlockRangeResponse) == 14,
        message_number(Message::GetBlockRangeNullifiersResponse) == 15,
        message_number(Message::GetTransactionResponse) == 16,
        message_number(Message::GetTreeStateResponse) == 17,
        message_number(Message::GetLatestTreeStateResponse) == 18,
        message_number(Message::GetSubtreeRootsResponse) == 19,
        message_number(Message::GetLightdInfoResponse) == 20,
        message_number(Message::PingResponse) == 21,
        message_number(Message::StreamEnd) == 22,
        message_number(Message::ErrorResponse) == 23,
{
}

/// A frame is taken exactly where its flags are known, its number is that of a message, the same as
/// in the frames before it, and the message stays within 4 MiB; the first of these that fails is
/// told.
pub proof fn law_frames_are_taken_in_bounds(
    partial: Option<PartialView>,
    message_type: u16,
    flags: u16,
    len: nat,
)
    ensures
        ({
            let refusal = frame_refusal(partial, message_type, flags, len);
            let known = flags == 0 || flags == 1;
            let named = message_type < 24;
            let same = partial matches Some(begun) ==> message_number(begun.message)
                == message_type;
            let before: nat = match partial {
                None => 0,
                Some(begun) => begun.payload.len(),
            };
            let fits = before + len <= 4_194_304;
            &&& refusal is None <==> known && named && same && fits
            &&& !known ==> refusal == Some("invalid frame flags "@ + text::decimal(flags as nat))
            &&& known && !named ==> refusal == Some(
                "invalid message type "@ + text::decimal(message_type as nat),
            )
            &&& known && named && !same ==> refusal == Some(
                "message type changed before the final frame"@,
            )
            &&& known && named && same && !fits ==> refusal == Some(
                "message exceeds 4194304 bytes"@,
            )
        }),
{
}

/// What has come of a message is what its frames so far held, and nothing before the first.
pub proof fn law_payload_is_what_has_come(message: Message, payload: Seq<u8>)
    ensures
        partial_payload(None).len() == 0,
        partial_payload(Some(PartialView { message, payload })) == payload,
{
}

} // verus!
