use vstd::prelude::*;
use crate::auth::AuthorizedReq;
use crate::directory::DirectoryStore;
use crate::error::FlockError;
use crate::subscription_table::{distinct_views, sorted_views, views_set};
use crate::target_info::{spec_parse_target, TargetInfo};
use crate::text::utf8_to_string;
use vstd::string::StringExecFns;
use vstd::utf8::{decode_utf8, valid_utf8};

verus! {

/// One primitive operation against the set-backed directory store.
#[derive(Debug, Clone, PartialEq, Eq)]
pub enum StoreCmd {
    SAdd { key: String, member: String },
    SRem { key: String, member: String },
    Del { key: String },
    SMembers { key: String },
}

/// One store reply, reduced to plain values at the transport edge.
#[derive(Debug)]
pub enum StoreReply {
    Integer(i64),
    Simple(String),
    Bulk(Vec<u8>),
    Array(Vec<StoreReply>),
    Nil,
    Failure,
}

/// The text a store reply carries, when it carries one.
pub open spec fn reply_text_of(r: StoreReply) -> Option<Seq<char>> {
    match r {
        StoreReply::Simple(s) => Some(s@),
        StoreReply::Bulk(b) => if valid_utf8(b@) {
            Some(decode_utf8(b@))
        } else {
            None
        },
        _ => None,
    }
}

/// The forward-index key of a topic.
pub fn topic_key(topic: &String) -> (r: String)
    ensures
        r@ == "topic:"@ + topic@,
{
    let mut s = String::from_str("topic:");
    s.append(topic.as_str());
    s
}

/// The reverse-index key of a target.
pub fn subscription_key(target_text: &String) -> (r: String)
    ensures
        r@ == "subscription:"@ + target_text@,
{
    let mut s = String::from_str("subscription:");
    s.append(target_text.as_str());
    s
}

/// The two set-adds a subscribe issues: the target into the topic's set and
/// the topic into the target's reverse set, kept in lockstep.
pub fn subscribe_commands(topic: &String, target: &TargetInfo) -> (r: Vec<StoreCmd>)
    ensures
        r@.len() == 2,
        (r@[0] matches StoreCmd::SAdd { key, member } && key@ == "topic:"@ + topic@ && member@
            == target.text()),
        (r@[1] matches StoreCmd::SAdd { key, member } && key@ == "subscription:"@ + target.text()
            && member@ == topic@),
{
    let text = target.to_text();
    let mut r: Vec<StoreCmd> = Vec::new();
    r.push(StoreCmd::SAdd { key: topic_key(topic), member: text.clone() });
    r.push(StoreCmd::SAdd { key: subscription_key(&text), member: topic.clone() });
    r
}

/// The two symmetric set-removals an unsubscribe issues.
pub fn unsubscribe_commands(topic: &String, target: &TargetInfo) -> (r: Vec<StoreCmd>)
    ensures
        r@.len() == 2,
        (r@[0] matches StoreCmd::SRem { key, member } && key@ == "topic:"@ + topic@ && member@
            == target.text()),
        (r@[1] matches StoreCmd::SRem { key, member } && key@ == "subscription:"@ + target.text()
            && member@ == topic@),
{
    let text = target.to_text();
    let mut r: Vec<StoreCmd> = Vec::new();
    r.push(StoreCmd::SRem { key: topic_key(topic), member: text.clone() });
    r.push(StoreCmd::SRem { key: subscription_key(&text), member: topic.clone() });
    r
}

/// How the replies to a pair of set mutations are judged: every successful
/// set operation answers with an integer, so anything else is a downstream
/// failure and the request reports 500.
pub fn store_reply_status(replies: &Vec<StoreReply>) -> (code: u16)
    ensures
        code == if forall|i: int| 0 <= i < replies@.len() ==> replies@[i] is Integer {
            200u16
        } else {
            500u16
        },
{
    let n = replies.len();
    let mut i: usize = 0;
    while i < n
        invariant
            i <= n,
            n == replies@.len(),
            forall|j: int| 0 <= j < i ==> replies@[j] is Integer,
        decreases n - i,
    {
        match replies[i] {
            StoreReply::Integer(_) => {},
            _ => {
                return 500;
            },
        }
        i += 1;
    }
    200
}

/// The set-removal that takes a target out of one topic read back from its
/// reverse index during a reset; a reply that carries no text is a
/// downstream failure for that entry.
pub fn remove_from_topic_command(target_text: &String, reply: &StoreReply) -> (r: Result<
    StoreCmd,
    FlockError,
>)
    ensures
        match reply_text_of(*reply) {
            Some(t) => (r matches Ok(c) && (c matches StoreCmd::SRem { key, member } && key@
                == "topic:"@ + t && member@ == target_text@)),
            None => (r matches Err(e) && e == FlockError::InternalError),
        },
{
    match reply {
        StoreReply::Simple(s) => {
            Ok(StoreCmd::SRem { key: topic_key(s), member: target_text.clone() })
        },
        StoreReply::Bulk(b) => {
            match utf8_to_string(b) {
                Some(s) => {
                    proof {
                        vstd::utf8::encode_utf8_decode_utf8(s@);
                    }
                    Ok(StoreCmd::SRem { key: topic_key(&s), member: target_text.clone() })
                },
                None => Err(FlockError::InternalError),
            }
        },
        _ => Err(FlockError::InternalError),
    }
}

/// A directory member parsed back into a target address; members that are
/// no `"host:port"` text are skipped by the fan-out.
pub fn target_from_reply(reply: &StoreReply) -> (r: Result<TargetInfo, FlockError>)
    ensures
        match reply_text_of(*reply) {
            Some(t) => match r {
                Ok(ti) => spec_parse_target(t) == Some((ti.host@, ti.port)),
                Err(e) => spec_parse_target(t) is None && e == FlockError::InternalError,
            },
            None => (r matches Err(e) && e == FlockError::InternalError),
        },
{
    match reply {
        StoreReply::Simple(s) => TargetInfo::from_str(s.as_str()),
        StoreReply::Bulk(b) => {
            match utf8_to_string(b) {
                Some(s) => {
                    proof {
                        vstd::utf8::encode_utf8_decode_utf8(s@);
                    }
                    TargetInfo::from_str(s.as_str())
                },
                None => Err(FlockError::InternalError),
            }
        },
        _ => Err(FlockError::InternalError),
    }
}

/// The gateway event endpoint a publish fans out to for one target.
pub fn event_url(target: &TargetInfo, topic: &String) -> (r: String)
    ensures
        r@ == "http://"@ + target.text() + "/api/v1/event/"@ + topic@,
{
    let mut s = String::from_str("http://");
    let text = target.to_text();
    s.append(text.as_str());
    s.append("/api/v1/event/");
    s.append(topic.as_str());
    s
}

/// The broker subscription endpoint a gateway calls for one topic.
pub fn subscription_url(base_url: &String, topic: &String) -> (r: String)
    ensures
        r@ == "http://"@ + base_url@ + "/api/v1/subscription/"@ + topic@,
{
    let mut s = String::from_str("http://");
    s.append(base_url.as_str());
    s.append("/api/v1/subscription/");
    s.append(topic.as_str());
    s
}

/// The broker reset endpoint a gateway calls at startup.
pub fn reset_url(base_url: &String) -> (r: String)
    ensures
        r@ == "http://"@ + base_url@ + "/api/v1/subscription"@,
{
    let mut s = String::from_str("http://");
    s.append(base_url.as_str());
    s.append("/api/v1/subscription");
    s
}

/// Records a subscription in the directory. Authentication already
/// happened: the `AuthorizedReq` witnesses it. Adding an existing member is
/// a success, so the model store always answers 200.
pub fn subscribe(
    _auth: &AuthorizedReq,
    store: &mut DirectoryStore,
    topic: &String,
    target: &TargetInfo,
) -> (code: u16)
    requires
        old(store).wf(),
    ensures
        final(store).wf(),
        code == 200,
        forall|b: Seq<char>| #[trigger]
            final(store).topic_targets(b) == if b == topic@ {
                old(store).topic_targets(b).insert(target.text())
            } else {
                old(store).topic_targets(b)
            },
        forall|b: Seq<char>| #[trigger]
            final(store).topic_recorded(b) == (old(store).topic_recorded(b) || b == topic@),
{
    let text = target.to_text();
    store.subscribe(&text, topic);
    200
}

/// Removes a subscription from the directory; the topic's key disappears
/// with its last member.
pub fn unsubscribe(
    _auth: &AuthorizedReq,
    store: &mut DirectoryStore,
    topic: &String,
    target: &TargetInfo,
) -> (code: u16)
    requires
        old(store).wf(),
    ensures
        final(store).wf(),
        code == 200,
        forall|b: Seq<char>| #[trigger]
            final(store).topic_targets(b) == if b == topic@ {
                old(store).topic_targets(b).remove(target.text())
            } else {
                old(store).topic_targets(b)
            },
        forall|b: Seq<char>| #[trigger]
            final(store).topic_recorded(b) == if b == topic@ {
                old(store).topic_targets(b).remove(target.text()) != Set::<Seq<char>>::empty()
            } else {
                old(store).topic_recorded(b)
            },
{
    let text = target.to_text();
    let _removed = store.unsubscribe(&text, topic);
    200
}

/// Drops every directory entry recorded for the target's address, however
/// stale: after a reset no topic lists the target. A missing reverse key is
/// a no-op reset, not an error.
pub fn reset(_auth: &AuthorizedReq, store: &mut DirectoryStore, target: &TargetInfo) -> (code:
    u16)
    requires
        old(store).wf(),
    ensures
        final(store).wf(),
        code == 200,
        forall|b: Seq<char>| !final(store).registered(target.text(), b),
        forall|b: Seq<char>| #[trigger]
            final(store).topic_targets(b) == old(store).topic_targets(b).remove(target.text()),
{
    let text = target.to_text();
    store.reset(&text);
    200
}

/// The fan-out plan of a publish: every target currently recorded for the
/// topic, each once. A topic with no key yields no outbound call at all,
/// and the publish still succeeds.
pub fn publish(_auth: &AuthorizedReq, store: &DirectoryStore, topic: &String) -> (targets: Vec<
    String,
>)
    requires
        store.wf(),
    ensures
        distinct_views(targets@),
        sorted_views(targets@),
        views_set(targets@) == store.topic_targets(topic@),
        !store.topic_recorded(topic@) ==> targets@.len() == 0,
{
    store.targets_for(topic)
}

} // verus!
