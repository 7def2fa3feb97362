//! Planning a single HTTP request: which methods are sent, which of them
//! carry a body and a `Content-Type` header, and the answer to the others.
use std::time::Duration;
use ureq::Agent;
use vstd::prelude::*;

verus! {

/// Seconds after which a fetch made with the default settings gives up.
pub const DEFAULT_TIMEOUT_SECS: u64 = 5;

/// The status code with which a request by an unsupported method fails.
pub const METHOD_NOT_ALLOWED: u16 = 405;

/// An HTTP request method.
#[derive(Debug, Clone, Copy, PartialEq, Eq, Structural)]
pub enum HttpMethod {
    Get,
    Head,
    Post,
    Put,
    Delete,
    Connect,
    Options,
    Trace,
    Patch,
    /// Any extension method.
    Other,
}

/// What a request sends after its headers.
#[derive(Debug, PartialEq, Eq)]
pub enum Payload {
    /// A request of a method that carries no body.
    NoBody,
    /// A request of a method that carries a body, sent without one.
    Empty,
    /// A request that carries this text as its body.
    Text(String),
}

/// How a request is to be sent.
#[derive(Debug, PartialEq, Eq)]
pub struct RequestPlan {
    pub method: HttpMethod,
    /// The value of the `Content-Type` header, when one is sent.
    pub content_type: Option<String>,
    pub payload: Payload,
}

/// Methods whose requests carry a body.
pub open spec fn carries_body(method: HttpMethod) -> bool {
    method is Post || method is Put || method is Patch
}

/// Methods that are sent at all.
pub open spec fn is_supported(method: HttpMethod) -> bool {
    carries_body(method) || method is Get || method is Delete || method is Head || method is Options
}

/// The plan for a request by `method` with the optional `body` and
/// `content_type`; the status code 405 for a method that is not sent.
pub open spec fn spec_plan(method: HttpMethod, body: Option<String>, content_type: Option<String>) -> Result<
    RequestPlan,
    u16,
> {
    if carries_body(method) {
        Ok(
            RequestPlan {
                method,
                content_type,
                payload: match body {
                    Some(text) => Payload::Text(text),
                    None => Payload::Empty,
                },
            },
        )
    } else if is_supported(method) {
        Ok(RequestPlan { method, content_type: None, payload: Payload::NoBody })
    } else {
        Err(METHOD_NOT_ALLOWED)
    }
}

/// Plans a request: GET, DELETE, HEAD and OPTIONS are sent without body or
/// `Content-Type`; POST, PUT and PATCH send the body (an empty one when
/// there is none) and the `Content-Type` header when one is given; every
/// other method is refused with 405.
pub fn plan_request(method: HttpMethod, body: Option<String>, content_type: Option<String>) -> (plan:
    Result<RequestPlan, u16>)
    ensures
        plan == spec_plan(method, body, content_type),
{
    match method {
        HttpMethod::Get | HttpMethod::Delete | HttpMethod::Head | HttpMethod::Options => {
            Ok(RequestPlan { method, content_type: None, payload: Payload::NoBody })
        },
        HttpMethod::Post | HttpMethod::Put | HttpMethod::Patch => {
            let payload = match body {
                Some(text) => Payload::Text(text),
                None => Payload::Empty,
            };
            Ok(RequestPlan { method, content_type, payload })
        },
        _ => Err(METHOD_NOT_ALLOWED),
    }
}

/// Every supported method is planned, whatever the body and content type:
/// GET, DELETE, HEAD and OPTIONS are planned the same way for every body and
/// content type, with no body and no `Content-Type`; POST, PUT and PATCH
/// keep the content type and send the body, or an empty body when there is
/// none; CONNECT, TRACE and extension methods are refused with 405.
pub proof fn law_plan_request_by_method(method: HttpMethod, body: Option<String>, content_type: Option<String>)
    ensures
        (method is Get || method is Delete || method is Head || method is Options) ==> spec_plan(
            method,
            body,
            content_type,
        ) == Ok::<RequestPlan, u16>(RequestPlan { method, content_type: None, payload: Payload::NoBody }),
        (method is Post || method is Put || method is Patch) ==> spec_plan(method, body, content_type)
            == Ok::<RequestPlan, u16>(
            RequestPlan {
                method,
                content_type,
                payload: match body {
                    Some(text) => Payload::Text(text),
                    None => Payload::Empty,
                },
            },
        ),
        (method is Connect || method is Trace || method is Other) ==> spec_plan(method, body, content_type)
            == Err::<RequestPlan, u16>(405),
{
}

#[verifier::external_type_specification]
#[verifier::external_body]
pub struct ExAgent(Agent);

/// The whole seconds of an agent's global timeout, as its configuration
/// holds it (`agent.config().timeouts().global`); `None` when it has none.
pub uninterp spec fn agent_global_timeout_secs(agent: Agent) -> Option<u64>;

/// Whether every setting of an agent other than its global timeout is the
/// one `ureq` gives by default: its configuration is `Config::default()`
/// but for `timeouts.global`, and its connector and resolver are the
/// default ones.
pub uninterp spec fn agent_otherwise_default(agent: Agent) -> bool;

/// Builds a `ureq::Agent` through `Agent::config_builder`, with
/// `timeout_global` set to `seconds`, `build` and `new_agent`. Claimed: the
/// agent's configuration holds that global timeout, and everything else is
/// `ureq`'s default (`config_builder` starts from `Config::default()`,
/// `timeout_global` changes only `timeouts.global`, and `new_agent` hands
/// the configuration to `Agent::new_with_config`, which adds the default
/// connector and resolver).
#[verifier::external_body]
fn agent_with_global_timeout(seconds: u64) -> (agent: Agent)
    ensures
        agent_global_timeout_secs(agent) == Some(seconds),
        agent_otherwise_default(agent),
{
    Agent::config_builder().timeout_global(Some(Duration::from_secs(seconds))).build().new_agent()
}

/// The agent that fetches use by default: one connection pool, a global
/// timeout of `DEFAULT_TIMEOUT_SECS` seconds per request, and `ureq`'s
/// defaults for everything else.
pub fn default_agent() -> (agent: Agent)
    ensures
        agent_global_timeout_secs(agent) == Some(DEFAULT_TIMEOUT_SECS),
        agent_otherwise_default(agent),
{
    agent_with_global_timeout(DEFAULT_TIMEOUT_SECS)
}

} // verus!
