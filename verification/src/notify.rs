//! The notification dispatcher's topic and payload conventions.
//!
//! Every transition event becomes one or two broker publish operations. A
//! newly discovered device gets a retained discovery message on its config
//! topic and a fire-and-forget `connected` state message; a reconnect or a
//! disconnect gets one retained state message. Device identifiers are
//! sanitized before they enter a topic: the `:` delimiter is not valid in a
//! topic segment and is replaced by `_`.

use crate::state::Update;
use vstd::prelude::*;
use vstd::string::StrSliceExecFns;
use vstd::string::StringExecFns;

verus! {

/// A device identifier made safe for a topic segment: every `:` becomes
/// `_`; all other characters stay.
pub open spec fn sanitize_spec(id: Seq<char>) -> Seq<char> {
    id.map_values(
        |c: char|
            if c == ':' {
                '_'
            } else {
                c
            },
    )
}

/// Relies on std's `String::push`: appends exactly the given character.
#[verifier::external_body]
pub(crate) fn push_char(s: &mut String, c: char)
    ensures
        final(s)@ == old(s)@.push(c),
{
    s.push(c);
}

/// Replace every `:` in a device identifier with `_`.
pub fn sanitize_device_id(id: &str) -> (r: String)
    ensures
        r@ == sanitize_spec(id@),
{
    let n = id.unicode_len();
    let mut out = String::new();
    proof {
        assert(out@ =~= sanitize_spec(id@.take(0)));
    }
    let mut i: usize = 0;
    while i < n
        invariant
            i <= n,
            n == id@.len(),
            out@ == sanitize_spec(id@.take(i as int)),
        decreases n - i,
    {
        let c = id.get_char(i);
        if c == ':' {
            push_char(&mut out, '_');
        } else {
            push_char(&mut out, c);
        }
        proof {
            assert(out@ =~= sanitize_spec(id@.take(i as int + 1)));
        }
        i = i + 1;
    }
    proof {
        assert(id@.take(n as int) =~= id@);
    }
    out
}

/// Sanitization law: the function is idempotent — an already sanitized
/// identifier is left exactly as it is.
pub proof fn lemma_sanitize_idempotent(id: Seq<char>)
    ensures
        sanitize_spec(sanitize_spec(id)) == sanitize_spec(id),
{
    assert(sanitize_spec(sanitize_spec(id)) =~= sanitize_spec(id));
}

/// The retained discovery topic of a device.
pub open spec fn config_topic_spec(id: Seq<char>) -> Seq<char> {
    "homeassistant/device_tracker/wifi-"@ + id + "/config"@
}

/// The retained state topic of a device.
pub open spec fn state_topic_spec(id: Seq<char>) -> Seq<char> {
    "wifi-exporter/"@ + id + "/state"@
}

/// The state payload of a transition: `disconnected` for a disconnect,
/// `connected` for a reconnect or a discovery.
pub open spec fn state_payload_spec(u: Update) -> Seq<char> {
    match u {
        Update::Disconnected => "disconnected"@,
        _ => "connected"@,
    }
}

/// The retained discovery payload of a device: a structured description
/// whose name, state topic and stable unique identifier all derive from the
/// sanitized device identifier.
pub open spec fn discovery_payload_spec(id: Seq<char>) -> Seq<char> {
    "{\n                            \"state_topic\": \"wifi-exporter/"@ + id
        + "/state\",\n                            \"device\": {\n                                \"name\": \"Wifi device "@
        + id
        + "\",\n                                \"manufacturer\": \"Icewind\",\n                                \"model\": \"Wifi Tracker\",\n                                \"identifiers\": \""@
        + id
        + "\"\n                            },\n                            \"name\": \"Wifi device "@
        + id
        + "\",\n                            \"payload_home\": \"connected\",\n                            \"payload_not_home\": \"disconnected\",\n                            \"unique_id\": \"wifi-"@
        + id
        + "-connected\",\n                            \"icon\": \"mdi:wifi\",\n                            \"source_type\": \"router\"\n                         }"@
}

/// The discovery topic for a sanitized identifier.
pub fn config_topic(id: &str) -> (t: String)
    ensures
        t@ == config_topic_spec(id@),
{
    let mut t = String::from_str("homeassistant/device_tracker/wifi-");
    t.append(id);
    t.append("/config");
    t
}

/// The state topic for a sanitized identifier.
pub fn state_topic(id: &str) -> (t: String)
    ensures
        t@ == state_topic_spec(id@),
{
    let mut t = String::from_str("wifi-exporter/");
    t.append(id);
    t.append("/state");
    t
}

/// The state payload for a transition.
pub fn state_payload(update: &Update) -> (s: &'static str)
    ensures
        s@ == state_payload_spec(*update),
{
    match update {
        Update::Disconnected => "disconnected",
        _ => "connected",
    }
}

/// The discovery payload for a sanitized identifier.
pub fn discovery_payload(id: &str) -> (p: String)
    ensures
        p@ == discovery_payload_spec(id@),
{
    let mut p = String::from_str(
        "{\n                            \"state_topic\": \"wifi-exporter/",
    );
    p.append(id);
    p.append(
        "/state\",\n                            \"device\": {\n                                \"name\": \"Wifi device ",
    );
    p.append(id);
    p.append(
        "\",\n                                \"manufacturer\": \"Icewind\",\n                                \"model\": \"Wifi Tracker\",\n                                \"identifiers\": \"",
    );
    p.append(id);
    p.append(
        "\"\n                            },\n                            \"name\": \"Wifi device ",
    );
    p.append(id);
    p.append(
        "\",\n                            \"payload_home\": \"connected\",\n                            \"payload_not_home\": \"disconnected\",\n                            \"unique_id\": \"wifi-",
    );
    p.append(id);
    p.append(
        "-connected\",\n                            \"icon\": \"mdi:wifi\",\n                            \"source_type\": \"router\"\n                         }",
    );
    proof {
        assert(p@ =~= discovery_payload_spec(id@));
    }
    p
}

/// One broker publish operation planned for a transition event. Every
/// publish is retained; `awaited` says whether the dispatcher waits for the
/// acknowledgment or fires and forgets the publish.
pub struct Publication {
    pub topic: String,
    pub payload: String,
    pub retain: bool,
    pub awaited: bool,
}

/// The abstract content of one planned publish operation.
pub ghost struct PublicationView {
    pub topic: Seq<char>,
    pub payload: Seq<char>,
    pub retain: bool,
    pub awaited: bool,
}

impl View for Publication {
    type V = PublicationView;

    open spec fn view(&self) -> PublicationView {
        PublicationView {
            topic: self.topic@,
            payload: self.payload@,
            retain: self.retain,
            awaited: self.awaited,
        }
    }
}

/// The planned publish operations of a list, as abstract contents.
pub open spec fn pubs_view(pubs: Seq<Publication>) -> Seq<PublicationView> {
    pubs.map_values(|p: Publication| p@)
}

/// The publish operations one transition event turns into, in dispatch
/// order, with the device identifier sanitized. A discovery publishes the
/// retained config message and then a fire-and-forget `connected` state
/// message; a reconnect or a disconnect publishes one awaited state message.
pub open spec fn spec_publications(mac: Seq<char>, u: Update) -> Seq<PublicationView> {
    let id = sanitize_spec(mac);
    match u {
        Update::New => seq![
            PublicationView {
                topic: config_topic_spec(id),
                payload: discovery_payload_spec(id),
                retain: true,
                awaited: true,
            },
            PublicationView {
                topic: state_topic_spec(id),
                payload: state_payload_spec(u),
                retain: true,
                awaited: false,
            },
        ],
        Update::Connected => seq![
            PublicationView {
                topic: state_topic_spec(id),
                payload: state_payload_spec(u),
                retain: true,
                awaited: true,
            },
        ],
        Update::Disconnected => seq![
            PublicationView {
                topic: state_topic_spec(id),
                payload: state_payload_spec(u),
                retain: true,
                awaited: true,
            },
        ],
    }
}

/// Plan the broker publish operations for one transition event.
pub fn publications_for(mac: &str, update: &Update) -> (pubs: Vec<Publication>)
    ensures
        pubs_view(pubs@) == spec_publications(mac@, *update),
{
    let id = sanitize_device_id(mac);
    let mut pubs: Vec<Publication> = Vec::new();
    match update {
        Update::New => {
            pubs.push(
                Publication {
                    topic: config_topic(id.as_str()),
                    payload: discovery_payload(id.as_str()),
                    retain: true,
                    awaited: true,
                },
            );
            pubs.push(
                Publication {
                    topic: state_topic(id.as_str()),
                    payload: String::from_str(state_payload(update)),
                    retain: true,
                    awaited: false,
                },
            );
        },
        Update::Connected => {
            pubs.push(
                Publication {
                    topic: state_topic(id.as_str()),
                    payload: String::from_str(state_payload(update)),
                    retain: true,
                    awaited: true,
                },
            );
        },
        Update::Disconnected => {
            pubs.push(
                Publication {
                    topic: state_topic(id.as_str()),
                    payload: String::from_str(state_payload(update)),
                    retain: true,
                    awaited: true,
                },
            );
        },
    }
    proof {
        assert(pubs_view(pubs@) =~= spec_publications(mac@, *update));
    }
    pubs
}

} // verus!
