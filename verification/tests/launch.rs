use goro::ipc::{
    encode_request, encode_sent, is_ok, parse_request, parse_wait_reply, socket_label, Request,
    WaitReply,
};
use goro::launch::{
    detaches, hooks_step, install_line, is_yes, pad, parse_event, start, wait_step, worker_args,
    worker_error, HooksStep, Start, WaitStep, START_TIMEOUT_MS,
};
use goro::turns::TurnEvent;

#[test]
fn requests_reach_the_running_instance() {
    let received = |request: Request| parse_request(&encode_request(&request));
    assert_eq!(
        received(Request::Open(Some(b"/work/some repo".to_vec()))),
        Some(Request::Open(Some(b"/work/some repo".to_vec())))
    );
    assert_eq!(received(Request::Open(None)), Some(Request::Open(None)));
}

#[test]
fn every_request_reads_back() {
    for request in [
        Request::Wait(None),
        Request::Wait(Some(b"/w".to_vec())),
        Request::TurnRecorded(b"/w/a b".to_vec()),
    ] {
        assert_eq!(parse_request(&encode_request(&request)), Some(request));
    }
    assert_eq!(parse_request(b"sing\t/w\n"), None);
    assert_eq!(
        encode_request(&Request::Open(Some(b"/w".to_vec()))),
        b"open\t/w\n"
    );
}

#[test]
fn replies_are_read() {
    assert!(is_ok("ok\n"));
    assert!(!is_ok("no\n"));
    assert_eq!(
        parse_wait_reply(&encode_sent("# Review\n")),
        WaitReply::Sent("# Review\n".to_string())
    );
    assert_eq!(parse_wait_reply("cancelled\n"), WaitReply::Cancelled);
    assert_eq!(parse_wait_reply("what"), WaitReply::Unexpected);
}

#[test]
fn sockets_are_named_by_user() {
    assert_eq!(socket_label("goro", Some("me"), Some("you")), "goro-me.sock");
    assert_eq!(socket_label("goro", None, Some("you")), "goro-you.sock");
    assert_eq!(socket_label("goro", None, None), "goro-user.sock");
}

#[test]
fn waiting_starts_one_instance_and_ends() {
    let failed = || Err("refused".to_string());
    assert_eq!(wait_step(failed(), false, 0), WaitStep::Launch);
    assert_eq!(wait_step(failed(), true, 100), WaitStep::Retry);
    assert_eq!(
        wait_step(failed(), true, START_TIMEOUT_MS),
        WaitStep::Fail("Goro didn't start (refused)".to_string())
    );
    assert_eq!(
        wait_step(Ok(WaitReply::Sent("text".to_string())), false, 0),
        WaitStep::Print("text".to_string())
    );
    assert_eq!(
        wait_step(Ok(WaitReply::Cancelled), true, 0),
        WaitStep::Fail("the review was closed without being sent".to_string())
    );
    assert_eq!(
        wait_step(Ok(WaitReply::Unexpected), true, START_TIMEOUT_MS),
        WaitStep::Fail("Goro didn't start (unexpected reply)".to_string())
    );
}

#[test]
fn commands_decide_where_to_start() {
    assert_eq!(start(true, false, false), Start::Given);
    assert_eq!(start(false, true, false), Start::CurrentDirectory);
    assert_eq!(start(false, false, true), Start::CurrentDirectory);
    assert_eq!(start(false, false, false), Start::Detect);
    assert!(detaches(true, false, false, false));
    assert!(!detaches(true, false, false, true));
    assert!(!detaches(false, false, false, false));
}

#[test]
fn hook_events_and_workers() {
    assert_eq!(parse_event("prompt"), Some(TurnEvent::Start));
    assert_eq!(parse_event("stop"), Some(TurnEvent::End));
    assert_eq!(parse_event("other"), None);
    assert_eq!(
        worker_args("codex", "stop", 42),
        vec!["hook-worker", "codex", "stop", "42"]
    );
    assert_eq!(
        worker_error("codex", "stop", "no repository"),
        "hook-worker codex stop: no repository"
    );
}

#[test]
fn installing_asks_first() {
    assert_eq!(hooks_step(0, false, true), HooksStep::Nothing);
    assert_eq!(hooks_step(2, true, false), HooksStep::Apply);
    assert_eq!(hooks_step(2, false, true), HooksStep::Ask);
    assert_eq!(hooks_step(2, false, false), HooksStep::NeedsYes);
    assert!(is_yes(" y\n"));
    assert!(is_yes("yes"));
    assert!(!is_yes("no"));
    assert_eq!(pad("ab", 4), "ab  ");
    assert_eq!(pad("abcdef", 4), "abcdef");
    assert_eq!(
        install_line("goro hook codex prompt"),
        "  run `goro hook codex prompt` on UserPromptSubmit and `… stop` on Stop (existing hooks are kept)"
    );
}
