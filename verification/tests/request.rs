use scrape_rs::request::{default_agent, plan_request, HttpMethod, Payload, RequestPlan, DEFAULT_TIMEOUT_SECS, METHOD_NOT_ALLOWED};

#[test]
fn methods_without_body_drop_body_and_content_type() {
    for method in [HttpMethod::Get, HttpMethod::Delete, HttpMethod::Head, HttpMethod::Options] {
        assert_eq!(
            plan_request(method, Some("ignored".to_string()), Some("text/plain".to_string())),
            Ok(RequestPlan { method, content_type: None, payload: Payload::NoBody })
        );
    }
}

#[test]
fn methods_with_body_send_it_and_its_content_type() {
    for method in [HttpMethod::Post, HttpMethod::Put, HttpMethod::Patch] {
        assert_eq!(
            plan_request(method, Some("{}".to_string()), Some("application/json".to_string())),
            Ok(RequestPlan {
                method,
                content_type: Some("application/json".to_string()),
                payload: Payload::Text("{}".to_string()),
            })
        );
    }
}

#[test]
fn missing_body_is_sent_empty() {
    assert_eq!(
        plan_request(HttpMethod::Post, None, None),
        Ok(RequestPlan { method: HttpMethod::Post, content_type: None, payload: Payload::Empty })
    );
}

#[test]
fn other_methods_are_refused_with_405() {
    assert_eq!(METHOD_NOT_ALLOWED, 405);
    for method in [HttpMethod::Connect, HttpMethod::Trace, HttpMethod::Other] {
        assert_eq!(plan_request(method, None, None), Err(405));
    }
}

#[test]
fn default_agent_can_be_built() {
    assert_eq!(DEFAULT_TIMEOUT_SECS, 5);
    let agent = default_agent();
    let timeout = agent.config().timeouts().global;
    assert_eq!(timeout, Some(std::time::Duration::from_secs(5)));
}
