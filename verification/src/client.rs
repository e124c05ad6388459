use vstd::prelude::*;
use vstd::string::StringExecFns;

verus! {

/// What a publishing client reports: rejected credentials, or any other
/// failure collapsed into an internal error.
#[derive(Debug, Clone, Copy, PartialEq, Eq, Structural)]
pub enum TrafficControlClientError {
    Unauthorized,
    InternalError,
}

/// The broker's publish endpoint for a topic, under a caller-supplied base.
pub fn publish_url(base_url: &String, topic: &String) -> (r: String)
    ensures
        r@ == base_url@ + "/api/v1/event/"@ + topic@,
{
    let mut s = base_url.clone();
    s.append("/api/v1/event/");
    s.append(topic.as_str());
    s
}

/// How the client reads the broker's answer to a publish: no content means
/// delivered, a credential rejection is surfaced as such, anything else is
/// an internal error.
pub fn interpret_publish_status(code: u16) -> (r: Result<(), TrafficControlClientError>)
    ensures
        code == 204 ==> r is Ok,
        code == 401 ==> (r matches Err(e) && e == TrafficControlClientError::Unauthorized),
        code != 204 && code != 401 ==> (r matches Err(e) && e
            == TrafficControlClientError::InternalError),
{
    if code == 204 {
        Ok(())
    } else if code == 401 {
        Err(TrafficControlClientError::Unauthorized)
    } else {
        Err(TrafficControlClientError::InternalError)
    }
}

} // verus!
