use simple_proxy::plan::{plan_http, HttpPlan};
use simple_proxy::session::{body_of, Body, CopyStage, ForwardStage, Outcome, TunnelStage};

fn forward_stages(body: Body, outcomes: &[Outcome]) -> Vec<ForwardStage> {
    let mut stages = vec![ForwardStage::Dial];
    for o in outcomes {
        stages.push(stages[stages.len() - 1].next(body, *o));
    }
    stages
}

fn copy_stages(outcomes: &[Outcome]) -> Vec<CopyStage> {
    let mut stages = vec![CopyStage::Read];
    for o in outcomes {
        stages.push(stages[stages.len() - 1].next(*o));
    }
    stages
}

#[test]
fn request_with_body() {
    assert_eq!(
        forward_stages(
            Body::Present,
            &[
                Outcome::Done,
                Outcome::Done,
                Outcome::Done,
                Outcome::Data(7),
                Outcome::Done,
                Outcome::Data(3),
                Outcome::Done,
                Outcome::Data(0),
                Outcome::Done,
            ],
        ),
        vec![
            ForwardStage::Dial,
            ForwardStage::SendHead,
            ForwardStage::SendBody,
            ForwardStage::ReadReply,
            ForwardStage::WriteReply(7),
            ForwardStage::ReadReply,
            ForwardStage::WriteReply(3),
            ForwardStage::ReadReply,
            ForwardStage::Finished,
            ForwardStage::Finished,
        ]
    );
}

#[test]
fn request_without_body() {
    assert_eq!(
        forward_stages(Body::Empty, &[Outcome::Done, Outcome::Done, Outcome::Failed]),
        vec![
            ForwardStage::Dial,
            ForwardStage::SendHead,
            ForwardStage::ReadReply,
            ForwardStage::Finished,
        ]
    );
}

#[test]
fn request_with_missing_body() {
    assert_eq!(
        forward_stages(Body::Missing, &[Outcome::Done, Outcome::Done, Outcome::Done]),
        vec![
            ForwardStage::Dial,
            ForwardStage::SendHead,
            ForwardStage::Overrun,
            ForwardStage::Overrun,
        ]
    );
}

#[test]
fn unreachable_target() {
    let stages = forward_stages(Body::Present, &[Outcome::Failed, Outcome::Done, Outcome::Done]);
    assert_eq!(
        stages,
        vec![
            ForwardStage::Dial,
            ForwardStage::Refuse,
            ForwardStage::Finished,
            ForwardStage::Finished,
        ]
    );
    assert_eq!(stages[1].answer(), Some("HTTP/1.1 502 Bad Gateway\r\n\r\n"));
    assert_eq!(stages[0].answer(), None);
}

#[test]
fn broken_writes() {
    let d = Outcome::Done;
    let f = Outcome::Failed;
    let last = |b: Body, os: &[Outcome]| forward_stages(b, os)[os.len()];
    assert_eq!(last(Body::Empty, &[d, f, d]), ForwardStage::Broken);
    assert_eq!(last(Body::Present, &[d, d, f]), ForwardStage::Broken);
    assert_eq!(last(Body::Empty, &[d, d, Outcome::Data(5), f]), ForwardStage::Broken);
}

#[test]
fn bodies() {
    for (data, expected) in [
        (b"GET http://h/ HTTP/1.0\r\n\r\n".to_vec(), Body::Empty),
        (b"GET http://h/ HTTP/1.0\r\n\r\nx".to_vec(), Body::Present),
        (b"GET http://h/\xff HTTP/1.0\r\n\r\nx".to_vec(), Body::Missing),
    ] {
        match plan_http(&data) {
            HttpPlan::Forward(_, f) => assert_eq!(body_of(&f), expected),
            other => panic!("{:?}", other),
        }
    }
}

#[test]
fn tunnel_opens() {
    let mut stage = TunnelStage::Dial;
    assert_eq!(stage.answer(), None);
    stage = stage.next(Outcome::Done);
    assert_eq!(stage, TunnelStage::Greet);
    assert_eq!(stage.answer(), Some("HTTP/1.1 200 Connection Established\r\n\r\n"));
    stage = stage.next(Outcome::Done);
    assert_eq!(stage, TunnelStage::FlushGreeting);
    stage = stage.next(Outcome::Done);
    assert_eq!(stage, TunnelStage::Relay);
    stage = stage.next(Outcome::Done);
    assert_eq!(stage, TunnelStage::Finished);
    assert_eq!(stage.next(Outcome::Failed), TunnelStage::Finished);
}

#[test]
fn tunnel_fails() {
    let refuse = TunnelStage::Dial.next(Outcome::Failed);
    assert_eq!(refuse, TunnelStage::Refuse);
    assert_eq!(refuse.answer(), Some("HTTP/1.1 502 Bad Gateway\r\n\r\n"));
    assert_eq!(refuse.next(Outcome::Failed), TunnelStage::Finished);
    for stage in [TunnelStage::Greet, TunnelStage::FlushGreeting, TunnelStage::Relay, TunnelStage::Broken] {
        assert_eq!(stage.next(Outcome::Failed), TunnelStage::Broken);
    }
}

#[test]
fn direction_copies_and_half_closes() {
    assert_eq!(
        copy_stages(&[
            Outcome::Data(9),
            Outcome::Done,
            Outcome::Failed,
            Outcome::Data(0),
            Outcome::Failed,
            Outcome::Data(1),
        ]),
        vec![
            CopyStage::Read,
            CopyStage::Write(9),
            CopyStage::Flush,
            CopyStage::Read,
            CopyStage::HalfClose,
            CopyStage::Finished,
            CopyStage::Finished,
        ]
    );
}

#[test]
fn direction_half_closes_after_failures() {
    assert_eq!(
        copy_stages(&[Outcome::Failed, Outcome::Done]),
        vec![CopyStage::Read, CopyStage::HalfClose, CopyStage::Finished]
    );
    assert_eq!(
        copy_stages(&[Outcome::Data(2), Outcome::Failed, Outcome::Done]),
        vec![CopyStage::Read, CopyStage::Write(2), CopyStage::HalfClose, CopyStage::Finished]
    );
}

/// Copies `chunks` through the stages of a direction: each read takes the next chunk, and each
/// write takes from the buffer as many bytes as the stage says.
fn copied(chunks: &[&[u8]]) -> Vec<u8> {
    let mut stage = CopyStage::Read;
    let mut rest = chunks.iter();
    let mut held: Vec<u8> = vec![];
    let mut written: Vec<u8> = vec![];
    while stage != CopyStage::Finished {
        let outcome = match stage {
            CopyStage::Read => {
                held = rest.next().map_or(vec![], |c| c.to_vec());
                Outcome::Data(held.len())
            }
            CopyStage::Write(n) => {
                written.extend_from_slice(&held[..n]);
                Outcome::Done
            }
            _ => Outcome::Done,
        };
        stage = stage.next(outcome);
    }
    written
}

/// Copies a reply that comes in `chunks` through the stages of a request without a body.
fn replied(chunks: &[&[u8]]) -> Vec<u8> {
    let mut stage = ForwardStage::Dial;
    let mut rest = chunks.iter();
    let mut held: Vec<u8> = vec![];
    let mut written: Vec<u8> = vec![];
    while stage != ForwardStage::Finished {
        let outcome = match stage {
            ForwardStage::ReadReply => {
                held = rest.next().map_or(vec![], |c| c.to_vec());
                Outcome::Data(held.len())
            }
            ForwardStage::WriteReply(n) => {
                written.extend_from_slice(&held[..n]);
                Outcome::Done
            }
            _ => Outcome::Done,
        };
        stage = stage.next(Body::Empty, outcome);
    }
    written
}

#[test]
fn every_byte_is_copied() {
    for chunks in [
        vec![],
        vec![&b"a"[..]],
        vec![&b"a"[..], &b"bc"[..], &b"d"[..]],
        vec![&b"HTTP/1.1 200 OK\r\n"[..], &b"\r\n"[..], &b"x"[..]],
    ] {
        let all = chunks.concat();
        assert_eq!(copied(&chunks), all);
        assert_eq!(replied(&chunks), all);
    }
}
