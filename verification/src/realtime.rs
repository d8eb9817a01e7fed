//! Realtime (voice) conversations: what a start request becomes.

use vstd::prelude::*;
use crate::text::chars_eq;
use crate::text::chars_of;

verus! {

/// How the realtime media travels.
#[derive(Debug, Clone, PartialEq, Eq)]
pub enum RealtimeTransport {
    /// Media over a WebRTC call the host terminates; `sdp` is its offer.
    Webrtc { sdp: String },
    /// Audio as base64 PCM through core. Needs API key auth.
    Websocket,
    /// Attach the sideband to a call the host created itself.
    ExistingCall { call_id: String },
}

/// The transport as the conversation is started with it.
#[derive(Debug, Clone, PartialEq, Eq)]
pub enum ConversationStartTransport {
    Webrtc { sdp: String },
    Websocket,
    ExistingCall { call_id: String, sideband_base_url: Option<String> },
}

/// Whether the realtime model gets the thread's startup context: as asked,
/// else yes unless the host attaches to a call of its own.
pub fn include_startup_context(requested: Option<bool>, transport: Option<&RealtimeTransport>) -> (r: bool)
    ensures
        r == (match requested {
            Some(b) => b,
            None => !(transport matches Some(RealtimeTransport::ExistingCall { .. })),
        }),
{
    let attaches_existing_call = match transport {
        Some(RealtimeTransport::ExistingCall { .. }) => true,
        _ => false,
    };
    match requested {
        Some(b) => b,
        None => !attaches_existing_call,
    }
}

impl RealtimeTransport {
    /// The transport the conversation starts with; an existing call gets no
    /// sideband base URL of its own.
    pub fn into_start_transport(self) -> (r: ConversationStartTransport)
        ensures
            self matches RealtimeTransport::Webrtc { sdp } ==> (r matches ConversationStartTransport::Webrtc { sdp: s } && s@ == sdp@),
            self is Websocket ==> r is Websocket,
            self matches RealtimeTransport::ExistingCall { call_id } ==> (r matches ConversationStartTransport::ExistingCall { call_id: c, sideband_base_url: None } && c@ == call_id@),
    {
        match self {
            RealtimeTransport::Webrtc { sdp } => ConversationStartTransport::Webrtc { sdp },
            RealtimeTransport::Websocket => ConversationStartTransport::Websocket,
            RealtimeTransport::ExistingCall { call_id } => ConversationStartTransport::ExistingCall { call_id, sideband_base_url: None },
        }
    }
}

/// Who a text item of a realtime conversation comes from.
#[derive(Debug, Clone, Copy, PartialEq, Eq, Structural)]
pub enum ConversationTextRole {
    User,
    Developer,
    Assistant,
}

/// A role name that is none of `user`, `developer`, `assistant`.
#[derive(Debug, Clone, PartialEq, Eq)]
pub struct UnknownTextRole {
    pub role: String,
}

/// Parses `"user" | "developer" | "assistant"`.
pub fn parse_text_role(role: &str) -> (r: Result<ConversationTextRole, UnknownTextRole>)
    ensures
        role@ == "user"@ <==> r == Ok::<ConversationTextRole, UnknownTextRole>(ConversationTextRole::User),
        role@ == "developer"@ <==> r == Ok::<ConversationTextRole, UnknownTextRole>(ConversationTextRole::Developer),
        role@ == "assistant"@ <==> r == Ok::<ConversationTextRole, UnknownTextRole>(ConversationTextRole::Assistant),
        r matches Err(e) ==> e.role@ == role@,
{
    let v = chars_of(role);
    proof {
        reveal_strlit("user");
        reveal_strlit("developer");
        reveal_strlit("assistant");
        assert("user"@.len() != "developer"@.len());
        assert("user"@.len() != "assistant"@.len());
        assert("developer"@[0] != "assistant"@[0]);
    }
    if chars_eq(&v, &chars_of("user")) {
        Ok(ConversationTextRole::User)
    } else if chars_eq(&v, &chars_of("developer")) {
        Ok(ConversationTextRole::Developer)
    } else if chars_eq(&v, &chars_of("assistant")) {
        Ok(ConversationTextRole::Assistant)
    } else {
        Err(UnknownTextRole { role: role.to_owned() })
    }
}

} // verus!
