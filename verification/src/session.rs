//! The order in which a connection dials, writes, reads and closes.
//!
//! A stage says what to do next; what came of it leads to the next stage.

use crate::forward::Forward;
use crate::plan::{BAD_GATEWAY, ESTABLISHED};
use vstd::prelude::*;

verus! {

/// What came of the last thing done.
#[derive(Debug, Clone, Copy, PartialEq, Eq, Structural)]
pub enum Outcome {
    /// It was done.
    Done,
    /// So many bytes were read; none at the end of the stream.
    Data(usize),
    /// It failed.
    Failed,
}

/// What there is to send behind the head of a request.
#[derive(Debug, Clone, Copy, PartialEq, Eq, Structural)]
pub enum Body {
    /// The head claims more bytes than were received.
    Missing,
    /// Nothing.
    Empty,
    /// Something.
    Present,
}

/// What there is to send behind the head of `f`.
pub fn body_of(f: &Forward) -> (b: Body)
    ensures
        b == match f@.body {
            None => Body::Missing,
            Some(body) => if body.len() == 0 {
                Body::Empty
            } else {
                Body::Present
            },
        },
{
    match &f.body {
        None => Body::Missing,
        Some(body) => if body.len() == 0 {
            Body::Empty
        } else {
            Body::Present
        },
    }
}

/// The stages of sending a request on.
#[derive(Debug, Clone, Copy, PartialEq, Eq, Structural)]
pub enum ForwardStage {
    /// Dial the target.
    Dial,
    /// Tell the client that the target cannot be reached.
    Refuse,
    /// Write the head to the target.
    SendHead,
    /// Write the body to the target.
    SendBody,
    /// Read a part of the reply from the target.
    ReadReply,
    /// Write that part, of so many bytes, to the client.
    WriteReply(usize),
    /// Close.
    Finished,
    /// Close, and report the failure.
    Broken,
    /// Give up: there is no telling where the body begins.
    Overrun,
}

/// The stage behind `stage`, where `o` came of it and `body` is to be sent. A read that fails
/// ends the reply as its end does.
pub open spec fn after_forward(stage: ForwardStage, body: Body, o: Outcome) -> ForwardStage {
    match (stage, o) {
        (ForwardStage::Dial, Outcome::Failed) => ForwardStage::Refuse,
        (ForwardStage::Dial, _) => ForwardStage::SendHead,
        (ForwardStage::Refuse, _) => ForwardStage::Finished,
        (ForwardStage::SendHead, Outcome::Failed) => ForwardStage::Broken,
        (ForwardStage::SendHead, _) => match body {
            Body::Missing => ForwardStage::Overrun,
            Body::Empty => ForwardStage::ReadReply,
            Body::Present => ForwardStage::SendBody,
        },
        (ForwardStage::SendBody, Outcome::Failed) => ForwardStage::Broken,
        (ForwardStage::SendBody, _) => ForwardStage::ReadReply,
        (ForwardStage::ReadReply, Outcome::Data(n)) => if n > 0 {
            ForwardStage::WriteReply(n)
        } else {
            ForwardStage::Finished
        },
        (ForwardStage::ReadReply, _) => ForwardStage::Finished,
        (ForwardStage::WriteReply(_), Outcome::Failed) => ForwardStage::Broken,
        (ForwardStage::WriteReply(_), _) => ForwardStage::ReadReply,
        (ForwardStage::Finished, _) => ForwardStage::Finished,
        (ForwardStage::Broken, _) => ForwardStage::Broken,
        (ForwardStage::Overrun, _) => ForwardStage::Overrun,
    }
}

impl ForwardStage {
    /// The stage behind this one, where `o` came of it and `body` is to be sent.
    pub fn next(self, body: Body, o: Outcome) -> (stage: ForwardStage)
        ensures
            stage == after_forward(self, body, o),
    {
        let failed = matches!(o, Outcome::Failed);
        match self {
            ForwardStage::Dial => if failed {
                ForwardStage::Refuse
            } else {
                ForwardStage::SendHead
            },
            ForwardStage::Refuse | ForwardStage::Finished => ForwardStage::Finished,
            ForwardStage::SendHead => if failed {
                ForwardStage::Broken
            } else {
                match body {
                    Body::Missing => ForwardStage::Overrun,
                    Body::Empty => ForwardStage::ReadReply,
                    Body::Present => ForwardStage::SendBody,
                }
            },
            ForwardStage::SendBody | ForwardStage::WriteReply(_) => if failed {
                ForwardStage::Broken
            } else {
                ForwardStage::ReadReply
            },
            ForwardStage::ReadReply => match o {
                Outcome::Data(n) => if n > 0 {
                    ForwardStage::WriteReply(n)
                } else {
                    ForwardStage::Finished
                },
                _ => ForwardStage::Finished,
            },
            ForwardStage::Broken => ForwardStage::Broken,
            ForwardStage::Overrun => ForwardStage::Overrun,
        }
    }

    /// What the client is told at this stage.
    pub fn answer(self) -> (a: Option<&'static str>)
        ensures
            a == match self {
                ForwardStage::Refuse => Some(BAD_GATEWAY),
                _ => None,
            },
    {
        match self {
            ForwardStage::Refuse => Some(BAD_GATEWAY),
            _ => None,
        }
    }
}

/// The stages of opening a tunnel.
#[derive(Debug, Clone, Copy, PartialEq, Eq, Structural)]
pub enum TunnelStage {
    /// Dial the target.
    Dial,
    /// Tell the client that the target cannot be reached.
    Refuse,
    /// Tell the client that the tunnel is open.
    Greet,
    /// Flush what it was told.
    FlushGreeting,
    /// Copy in both directions until both have ended.
    Relay,
    /// Close.
    Finished,
    /// Close, and report the failure.
    Broken,
}

/// The stage behind `stage`, where `o` came of it.
pub open spec fn after_tunnel(stage: TunnelStage, o: Outcome) -> TunnelStage {
    match (stage, o) {
        (TunnelStage::Dial, Outcome::Failed) => TunnelStage::Refuse,
        (TunnelStage::Dial, _) => TunnelStage::Greet,
        (TunnelStage::Refuse, _) => TunnelStage::Finished,
        (TunnelStage::Greet, Outcome::Failed) => TunnelStage::Broken,
        (TunnelStage::Greet, _) => TunnelStage::FlushGreeting,
        (TunnelStage::FlushGreeting, Outcome::Failed) => TunnelStage::Broken,
        (TunnelStage::FlushGreeting, _) => TunnelStage::Relay,
        (TunnelStage::Relay, Outcome::Failed) => TunnelStage::Broken,
        (TunnelStage::Relay, _) => TunnelStage::Finished,
        (TunnelStage::Finished, _) => TunnelStage::Finished,
        (TunnelStage::Broken, _) => TunnelStage::Broken,
    }
}

impl TunnelStage {
    /// The stage behind this one, where `o` came of it.
    pub fn next(self, o: Outcome) -> (stage: TunnelStage)
        ensures
            stage == after_tunnel(self, o),
    {
        let failed = matches!(o, Outcome::Failed);
        match self {
            TunnelStage::Dial => if failed {
                TunnelStage::Refuse
            } else {
                TunnelStage::Greet
            },
            TunnelStage::Greet => if failed {
                TunnelStage::Broken
            } else {
                TunnelStage::FlushGreeting
            },
            TunnelStage::FlushGreeting => if failed {
                TunnelStage::Broken
            } else {
                TunnelStage::Relay
            },
            TunnelStage::Relay => if failed {
                TunnelStage::Broken
            } else {
                TunnelStage::Finished
            },
            TunnelStage::Refuse | TunnelStage::Finished => TunnelStage::Finished,
            TunnelStage::Broken => TunnelStage::Broken,
        }
    }

    /// What the client is told at this stage.
    pub fn answer(self) -> (a: Option<&'static str>)
        ensures
            a == match self {
                TunnelStage::Refuse => Some(BAD_GATEWAY),
                TunnelStage::Greet => Some(ESTABLISHED),
                _ => None,
            },
    {
        match self {
            TunnelStage::Refuse => Some(BAD_GATEWAY),
            TunnelStage::Greet => Some(ESTABLISHED),
            _ => None,
        }
    }
}

/// The stages of copying in one direction of a tunnel.
#[derive(Debug, Clone, Copy, PartialEq, Eq, Structural)]
pub enum CopyStage {
    /// Read from the one side.
    Read,
    /// Write what was read, of so many bytes, to the other side.
    Write(usize),
    /// Flush it.
    Flush,
    /// Tell the other side that nothing more will come, and leave its own direction open.
    HalfClose,
    /// Stop.
    Finished,
}

/// The stage behind `stage`, where `o` came of it. Whatever ends the copying ends it with a
/// half close.
pub open spec fn after_copy(stage: CopyStage, o: Outcome) -> CopyStage {
    match (stage, o) {
        (CopyStage::Read, Outcome::Data(n)) => if n > 0 {
            CopyStage::Write(n)
        } else {
            CopyStage::HalfClose
        },
        (CopyStage::Read, _) => CopyStage::HalfClose,
        (CopyStage::Write(_), Outcome::Failed) => CopyStage::HalfClose,
        (CopyStage::Write(_), _) => CopyStage::Flush,
        (CopyStage::Flush, _) => CopyStage::Read,
        (CopyStage::HalfClose, _) => CopyStage::Finished,
        (CopyStage::Finished, _) => CopyStage::Finished,
    }
}

impl CopyStage {
    /// The stage behind this one, where `o` came of it.
    pub fn next(self, o: Outcome) -> (stage: CopyStage)
        ensures
            stage == after_copy(self, o),
    {
        match self {
            CopyStage::Read => match o {
                Outcome::Data(n) => if n > 0 {
                    CopyStage::Write(n)
                } else {
                    CopyStage::HalfClose
                },
                _ => CopyStage::HalfClose,
            },
            CopyStage::Write(_) => if matches!(o, Outcome::Failed) {
                CopyStage::HalfClose
            } else {
                CopyStage::Flush
            },
            CopyStage::Flush => CopyStage::Read,
            CopyStage::HalfClose | CopyStage::Finished => CopyStage::Finished,
        }
    }
}

/// The stages that sending a request on goes through from `stage`, while `outcomes` come.
pub open spec fn forward_run(
    stage: ForwardStage,
    body: Body,
    outcomes: Seq<Outcome>,
) -> Seq<ForwardStage>
    decreases outcomes.len(),
{
    if outcomes.len() == 0 {
        seq![stage]
    } else {
        forward_run(stage, body, outcomes.drop_last()).push(
            after_forward(
                forward_run(stage, body, outcomes.drop_last()).last(),
                body,
                outcomes.last(),
            ),
        )
    }
}

/// The stages that one direction of a tunnel goes through, while `outcomes` come.
pub open spec fn copy_run(stage: CopyStage, outcomes: Seq<Outcome>) -> Seq<CopyStage>
    decreases outcomes.len(),
{
    if outcomes.len() == 0 {
        seq![stage]
    } else {
        copy_run(stage, outcomes.drop_last()).push(
            after_copy(copy_run(stage, outcomes.drop_last()).last(), outcomes.last()),
        )
    }
}

/// Each read that `outcomes` tell of gave as many bytes as they say; `chunks` holds them, with
/// an entry for each outcome.
pub open spec fn chunks_fit(outcomes: Seq<Outcome>, chunks: Seq<Seq<u8>>) -> bool {
    &&& chunks.len() >= outcomes.len()
    &&& forall|i: int|
        0 <= i < outcomes.len() ==> (#[trigger] outcomes[i] matches Outcome::Data(n)
            ==> chunks[i].len() == n)
}

/// The bytes of the reply in the buffer after `outcomes` came: those of the last read.
pub open spec fn reply_held(body: Body, outcomes: Seq<Outcome>, chunks: Seq<Seq<u8>>) -> Seq<u8>
    decreases outcomes.len(),
{
    if outcomes.len() == 0 {
        Seq::empty()
    } else {
        let before = outcomes.drop_last();
        let stage = forward_run(ForwardStage::Dial, body, before).last();
        match (stage, outcomes.last()) {
            (ForwardStage::ReadReply, Outcome::Data(_)) => chunks[outcomes.len() - 1],
            _ => reply_held(body, before, chunks),
        }
    }
}

/// The bytes of the reply that were read while `outcomes` came.
pub open spec fn reply_read(body: Body, outcomes: Seq<Outcome>, chunks: Seq<Seq<u8>>) -> Seq<u8>
    decreases outcomes.len(),
{
    if outcomes.len() == 0 {
        Seq::empty()
    } else {
        let before = outcomes.drop_last();
        let stage = forward_run(ForwardStage::Dial, body, before).last();
        match (stage, outcomes.last()) {
            (ForwardStage::ReadReply, Outcome::Data(_)) => reply_read(
                body,
                before,
                chunks,
            ) + chunks[outcomes.len() - 1],
            _ => reply_read(body, before, chunks),
        }
    }
}

/// The bytes of the reply that were written to the client while `outcomes` came, in writes that
/// were done: as many of those in the buffer as the stage says. What got through of a write that
/// failed is not counted.
pub open spec fn reply_written(body: Body, outcomes: Seq<Outcome>, chunks: Seq<Seq<u8>>) -> Seq<u8>
    decreases outcomes.len(),
{
    if outcomes.len() == 0 {
        Seq::empty()
    } else {
        let before = outcomes.drop_last();
        let stage = forward_run(ForwardStage::Dial, body, before).last();
        match (stage, outcomes.last()) {
            (ForwardStage::WriteReply(_), Outcome::Failed) => reply_written(
                body,
                before,
                chunks,
            ),
            (ForwardStage::WriteReply(n), _) => reply_written(
                body,
                before,
                chunks,
            ) + reply_held(body, before, chunks).subrange(0, n as int),
            _ => reply_written(body, before, chunks),
        }
    }
}

/// The bytes in the buffer of one direction of a tunnel after `outcomes` came: those of the last
/// read.
pub open spec fn copy_held(outcomes: Seq<Outcome>, chunks: Seq<Seq<u8>>) -> Seq<u8>
    decreases outcomes.len(),
{
    if outcomes.len() == 0 {
        Seq::empty()
    } else {
        let before = outcomes.drop_last();
        let stage = copy_run(CopyStage::Read, before).last();
        match (stage, outcomes.last()) {
            (CopyStage::Read, Outcome::Data(_)) => chunks[outcomes.len() - 1],
            _ => copy_held(before, chunks),
        }
    }
}

/// The bytes that one direction of a tunnel read while `outcomes` came.
pub open spec fn copy_read(outcomes: Seq<Outcome>, chunks: Seq<Seq<u8>>) -> Seq<u8>
    decreases outcomes.len(),
{
    if outcomes.len() == 0 {
        Seq::empty()
    } else {
        let before = outcomes.drop_last();
        let stage = copy_run(CopyStage::Read, before).last();
        match (stage, outcomes.last()) {
            (CopyStage::Read, Outcome::Data(_)) => copy_read(before, chunks)
                + chunks[outcomes.len() - 1],
            _ => copy_read(before, chunks),
        }
    }
}

/// The bytes that one direction of a tunnel wrote while `outcomes` came, in writes that were
/// done: as many of those in the buffer as the stage says. What got through of a write that
/// failed is not counted.
pub open spec fn copy_written(outcomes: Seq<Outcome>, chunks: Seq<Seq<u8>>) -> Seq<u8>
    decreases outcomes.len(),
{
    if outcomes.len() == 0 {
        Seq::empty()
    } else {
        let before = outcomes.drop_last();
        let stage = copy_run(CopyStage::Read, before).last();
        match (stage, outcomes.last()) {
            (CopyStage::Write(_), Outcome::Failed) => copy_written(before, chunks),
            (CopyStage::Write(n), _) => copy_written(before, chunks)
                + copy_held(before, chunks).subrange(0, n as int),
            _ => copy_written(before, chunks),
        }
    }
}

/// `run` goes on from its stage `i` as `outcomes` say.
spec fn steps_at(run: Seq<ForwardStage>, body: Body, outcomes: Seq<Outcome>, i: int) -> bool {
    run[i + 1] == after_forward(run[i], body, outcomes[i])
}

proof fn lemma_forward_run(body: Body, outcomes: Seq<Outcome>)
    ensures
        forward_run(ForwardStage::Dial, body, outcomes).len() == outcomes.len() + 1,
        forward_run(ForwardStage::Dial, body, outcomes)[0] is Dial,
        forall|i: int|
            0 <= i < outcomes.len() ==> #[trigger] steps_at(
                forward_run(ForwardStage::Dial, body, outcomes),
                body,
                outcomes,
                i,
            ),
    decreases outcomes.len(),
{
    if outcomes.len() > 0 {
        let before = outcomes.drop_last();
        let run = forward_run(ForwardStage::Dial, body, outcomes);
        let part = forward_run(ForwardStage::Dial, body, before);
        lemma_forward_run(body, before);
        assert forall|i: int| 0 <= i < outcomes.len() implies #[trigger] steps_at(
            run,
            body,
            outcomes,
            i,
        ) by {
            if i < before.len() {
                assert(steps_at(part, body, before, i));
            }
        }
    }
}

/// A target that cannot be reached is answered to the client, and then nothing more happens:
/// nothing is sent and nothing read. One that is reached is never answered so.
pub proof fn law_unreachable_target_is_answered(body: Body, outcomes: Seq<Outcome>)
    requires
        outcomes.len() > 0,
    ensures
        outcomes[0] is Failed ==> {
            let run = forward_run(ForwardStage::Dial, body, outcomes);
            &&& run[1] is Refuse
            &&& forall|i: int| 2 <= i < run.len() ==> #[trigger] run[i] is Finished
        },
        !(outcomes[0] is Failed) ==> {
            let run = forward_run(ForwardStage::Dial, body, outcomes);
            forall|i: int| 0 <= i < run.len() ==> !(#[trigger] run[i] is Refuse)
        },
    decreases outcomes.len(),
{
    lemma_forward_run(body, outcomes);
    let run = forward_run(ForwardStage::Dial, body, outcomes);
    assert(steps_at(run, body, outcomes, 0));
    if outcomes.len() > 1 {
        let before = outcomes.drop_last();
        let part = forward_run(ForwardStage::Dial, body, before);
        lemma_forward_run(body, before);
        law_unreachable_target_is_answered(body, before);
        let last = outcomes.len() as int;
        assert forall|i: int| 0 <= i < last implies run[i] == part[i] by {}
        assert(part[last - 1] == run[last - 1]);
    }
}

/// The dial, the head, the body and the answer for a target out of reach are each done at most
/// once; the head goes before the body, and both before the reply is read.
pub proof fn law_request_is_sent_once_and_in_order(body: Body, outcomes: Seq<Outcome>)
    ensures
        ({
            let run = forward_run(ForwardStage::Dial, body, outcomes);
            &&& forall|i: int, j: int|
                0 <= i < j < run.len() && (run[i] is Dial || run[i] is SendHead
                    || run[i] is SendBody || run[i] is Refuse) ==> #[trigger] run[i]
                    != #[trigger] run[j]
            &&& forall|j: int|
                0 <= j < run.len() && #[trigger] run[j] is SendBody ==> body is Present
                    && run.subrange(0, j).contains(ForwardStage::SendHead)
            &&& forall|j: int|
                0 <= j < run.len() && (#[trigger] run[j] is ReadReply || run[j] is WriteReply)
                    ==> run.subrange(0, j).contains(ForwardStage::SendHead) && (body is Present
                    ==> run.subrange(0, j).contains(ForwardStage::SendBody))
        }),
    decreases outcomes.len(),
{
    lemma_forward_run(body, outcomes);
    lemma_ranks(body, outcomes);
    let run = forward_run(ForwardStage::Dial, body, outcomes);
    assert forall|j: int| 0 <= j < run.len() implies (rank(#[trigger] run[j]) >= 2 && !(
    run[j] is Refuse) && rank(run[j]) <= 3 ==> run.subrange(0, j).contains(
        ForwardStage::SendHead,
    )) && (run[j] is SendBody ==> body is Present) && (rank(run[j]) == 3 && !(run[j] is Refuse)
        && body is Present ==> run.subrange(0, j).contains(ForwardStage::SendBody)) by {
        lemma_sent_before(body, outcomes, j);
    }
}

/// How far a request has come.
spec fn rank(stage: ForwardStage) -> int {
    match stage {
        ForwardStage::Dial => 0,
        ForwardStage::SendHead => 1,
        ForwardStage::SendBody => 2,
        ForwardStage::Refuse => 3,
        ForwardStage::ReadReply => 3,
        ForwardStage::WriteReply(_) => 3,
        _ => 4,
    }
}

proof fn lemma_ranks(body: Body, outcomes: Seq<Outcome>)
    ensures
        ({
            let run = forward_run(ForwardStage::Dial, body, outcomes);
            forall|i: int, j: int|
                0 <= i < j < run.len() ==> {
                    &&& rank(#[trigger] run[i]) <= rank(#[trigger] run[j])
                    &&& rank(run[i]) < 3 || run[i] is Refuse ==> rank(run[i]) < rank(run[j])
                }
        }),
    decreases outcomes.len(),
{
    if outcomes.len() > 0 {
        let before = outcomes.drop_last();
        let run = forward_run(ForwardStage::Dial, body, outcomes);
        let part = forward_run(ForwardStage::Dial, body, before);
        lemma_forward_run(body, before);
        lemma_ranks(body, before);
        let n = part.len() as int;
        assert forall|i: int, j: int| 0 <= i < j < run.len() implies rank(#[trigger] run[i])
            <= rank(#[trigger] run[j]) && (rank(run[i]) < 3 || run[i] is Refuse ==> rank(run[i])
            < rank(run[j])) by {
            assert(run[i] == part[i]);
            if j < n {
                assert(run[j] == part[j]);
            } else {
                assert(run[j] == after_forward(part[n - 1], body, outcomes.last()));
                if i < n - 1 {
                    assert(rank(part[i]) <= rank(part[n - 1]));
                }
            }
        }
    }
}

proof fn lemma_sent_before(body: Body, outcomes: Seq<Outcome>, j: int)
    requires
        0 <= j <= outcomes.len(),
    ensures
        ({
            let run = forward_run(ForwardStage::Dial, body, outcomes);
            &&& rank(run[j]) >= 2 && rank(run[j]) <= 3 && !(run[j] is Refuse) ==> run.subrange(
                0,
                j,
            ).contains(ForwardStage::SendHead)
            &&& run[j] is SendBody ==> body is Present
            &&& rank(run[j]) == 3 && !(run[j] is Refuse) && body is Present ==> run.subrange(
                0,
                j,
            ).contains(ForwardStage::SendBody)
        }),
    decreases j,
{
    lemma_forward_run(body, outcomes);
    let run = forward_run(ForwardStage::Dial, body, outcomes);
    if j > 0 {
        lemma_sent_before(body, outcomes, j - 1);
        assert(steps_at(run, body, outcomes, j - 1));
        let now = run.subrange(0, j);
        let earlier = run.subrange(0, j - 1);
        assert(now[j - 1] == run[j - 1]);
        assert(now =~= earlier.push(run[j - 1]));
        assert forall|s: ForwardStage| #[trigger] earlier.contains(s) implies now.contains(s) by {
            let k = choose|k: int| 0 <= k < earlier.len() && earlier[k] == s;
            assert(now[k] == s);
        }
    }
}

/// No write of a part of the reply in `run`, through which `outcomes` led, failed.
pub open spec fn reply_writes_succeed(run: Seq<ForwardStage>, outcomes: Seq<Outcome>) -> bool {
    forall|i: int|
        0 <= i < outcomes.len() && #[trigger] run[i] is WriteReply ==> !(outcomes[i] is Failed)
}

/// What is read of the reply is written to the client, byte for byte and in order. Nothing is
/// lost but the last part, and that only where writing it failed or is still to come. A reply
/// that was copied to its end was written whole.
pub proof fn law_reply_is_copied(body: Body, outcomes: Seq<Outcome>, chunks: Seq<Seq<u8>>)
    requires
        chunks_fit(outcomes, chunks),
    ensures
        ({
            let run = forward_run(ForwardStage::Dial, body, outcomes);
            let read = reply_read(body, outcomes, chunks);
            let written = reply_written(body, outcomes, chunks);
            &&& written.is_prefix_of(read)
            &&& read == written || read == written + reply_held(body, outcomes, chunks)
            &&& run.last() is Finished || run.last() is ReadReply ==> written == read
            &&& reply_writes_succeed(run, outcomes) && !(run.last() is WriteReply) ==> written
                == read
        }),
{
    lemma_reply_is_copied(body, outcomes, chunks);
    let written = reply_written(body, outcomes, chunks);
    let held = reply_held(body, outcomes, chunks);
    assert((written + held).subrange(0, written.len() as int) =~= written);
    assert(written.subrange(0, written.len() as int) =~= written);
}

proof fn lemma_reply_is_copied(body: Body, outcomes: Seq<Outcome>, chunks: Seq<Seq<u8>>)
    requires
        chunks_fit(outcomes, chunks),
    ensures
        ({
            let run = forward_run(ForwardStage::Dial, body, outcomes);
            let held = reply_held(body, outcomes, chunks);
            let read = reply_read(body, outcomes, chunks);
            let written = reply_written(body, outcomes, chunks);
            match run.last() {
                ForwardStage::WriteReply(n) => held.len() == n && read == written + held,
                ForwardStage::Broken => {
                    ||| read == written
                    ||| read == written + held && !reply_writes_succeed(run, outcomes)
                },
                _ => read == written,
            }
        }),
    decreases outcomes.len(),
{
    if outcomes.len() > 0 {
        let before = outcomes.drop_last();
        let run = forward_run(ForwardStage::Dial, body, outcomes);
        let part = forward_run(ForwardStage::Dial, body, before);
        lemma_forward_run(body, before);
        assert forall|i: int| 0 <= i < before.len() implies (#[trigger] before[
            i
        ] matches Outcome::Data(n) ==> chunks[i].len() == n) by {
            assert(before[i] == outcomes[i]);
        }
        lemma_reply_is_copied(body, before, chunks);
        let n = before.len() as int;
        let held = reply_held(body, before, chunks);
        let written = reply_written(body, before, chunks);
        assert(run[n] == part.last());
        assert(outcomes[n] == outcomes.last());
        assert(held.subrange(0, held.len() as int) =~= held);
        if reply_writes_succeed(run, outcomes) {
            assert forall|i: int|
                0 <= i < before.len() && #[trigger] part[i] is WriteReply implies !(
            before[i] is Failed) by {
                assert(run[i] == part[i]);
            }
        }
        if outcomes.last() matches Outcome::Data(0) {
            assert(written + chunks[n] =~= written);
        }
    }
}

proof fn lemma_copy_run(outcomes: Seq<Outcome>)
    ensures
        copy_run(CopyStage::Read, outcomes).len() == outcomes.len() + 1,
    decreases outcomes.len(),
{
    if outcomes.len() > 0 {
        lemma_copy_run(outcomes.drop_last());
    }
}

/// A tunnel relays only after the target was reached and the client was told so.
pub proof fn law_tunnel_greets_before_it_relays(stage: TunnelStage, o: Outcome)
    ensures
        after_tunnel(stage, o) is Relay ==> stage is FlushGreeting && !(o is Failed),
        after_tunnel(stage, o) is FlushGreeting ==> stage is Greet && !(o is Failed),
        after_tunnel(stage, o) is Greet ==> stage is Dial && !(o is Failed),
        after_tunnel(stage, o) is Refuse ==> stage is Dial && o is Failed,
{
}

/// No write of `run`, through which `outcomes` led, failed.
pub open spec fn copy_writes_succeed(run: Seq<CopyStage>, outcomes: Seq<Outcome>) -> bool {
    forall|i: int|
        0 <= i < outcomes.len() && #[trigger] run[i] is Write ==> !(outcomes[i] is Failed)
}

/// What one direction of a tunnel reads it writes to the other side, byte for byte and in order.
/// Nothing is lost but the last part, and that only where writing it failed or is still to
/// come.
pub proof fn law_direction_is_copied(outcomes: Seq<Outcome>, chunks: Seq<Seq<u8>>)
    requires
        chunks_fit(outcomes, chunks),
    ensures
        ({
            let run = copy_run(CopyStage::Read, outcomes);
            let read = copy_read(outcomes, chunks);
            let written = copy_written(outcomes, chunks);
            &&& written.is_prefix_of(read)
            &&& read == written || read == written + copy_held(outcomes, chunks)
            &&& run.last() is Read || run.last() is Flush ==> written == read
            &&& copy_writes_succeed(run, outcomes) && !(run.last() is Write) ==> written == read
        }),
{
    lemma_direction_is_copied(outcomes, chunks);
    let written = copy_written(outcomes, chunks);
    let held = copy_held(outcomes, chunks);
    assert((written + held).subrange(0, written.len() as int) =~= written);
    assert(written.subrange(0, written.len() as int) =~= written);
}

proof fn lemma_direction_is_copied(outcomes: Seq<Outcome>, chunks: Seq<Seq<u8>>)
    requires
        chunks_fit(outcomes, chunks),
    ensures
        ({
            let run = copy_run(CopyStage::Read, outcomes);
            let held = copy_held(outcomes, chunks);
            let read = copy_read(outcomes, chunks);
            let written = copy_written(outcomes, chunks);
            match run.last() {
                CopyStage::Write(n) => held.len() == n && read == written + held,
                CopyStage::HalfClose | CopyStage::Finished => {
                    ||| read == written
                    ||| read == written + held && !copy_writes_succeed(run, outcomes)
                },
                _ => read == written,
            }
        }),
    decreases outcomes.len(),
{
    if outcomes.len() > 0 {
        let before = outcomes.drop_last();
        let run = copy_run(CopyStage::Read, outcomes);
        let part = copy_run(CopyStage::Read, before);
        lemma_copy_run(before);
        assert forall|i: int| 0 <= i < before.len() implies (#[trigger] before[
            i
        ] matches Outcome::Data(n) ==> chunks[i].len() == n) by {
            assert(before[i] == outcomes[i]);
        }
        lemma_direction_is_copied(before, chunks);
        let n = before.len() as int;
        let held = copy_held(before, chunks);
        let written = copy_written(before, chunks);
        assert(run[n] == part.last());
        assert(outcomes[n] == outcomes.last());
        assert(held.subrange(0, held.len() as int) =~= held);
        if copy_writes_succeed(run, outcomes) {
            assert forall|i: int| 0 <= i < before.len() && #[trigger] part[i] is Write implies !(
            before[i] is Failed) by {
                assert(run[i] == part[i]);
            }
        }
        if outcomes.last() matches Outcome::Data(0) {
            assert(written + chunks[n] =~= written);
        }
    }
}

/// A direction of a tunnel that has stopped was half closed before, once, and neither reads nor
/// writes from then on.
pub proof fn law_direction_ends_in_half_close(outcomes: Seq<Outcome>)
    ensures
        ({
            let run = copy_run(CopyStage::Read, outcomes);
            &&& run.last() is Finished ==> run.contains(CopyStage::HalfClose)
            &&& forall|i: int, j: int|
                0 <= i < j < run.len() && #[trigger] run[i] is HalfClose ==> #[trigger] run[
                    j
                ] is Finished
        }),
    decreases outcomes.len(),
{
    if outcomes.len() > 0 {
        let before = outcomes.drop_last();
        let run = copy_run(CopyStage::Read, outcomes);
        let part = copy_run(CopyStage::Read, before);
        lemma_copy_run(before);
        law_direction_ends_in_half_close(before);
        let n = part.len() as int;
        assert(run[n] == after_copy(part[n - 1], outcomes.last()));
        if run.last() is Finished {
            if part.last() is HalfClose {
                assert(run[n - 1] == CopyStage::HalfClose);
            } else {
                let k = choose|k: int| 0 <= k < part.len() && part[k] == CopyStage::HalfClose;
                assert(run[k] == CopyStage::HalfClose);
            }
        }
        assert forall|i: int, j: int|
            0 <= i < j < run.len() && #[trigger] run[i] is HalfClose implies #[trigger] run[
            j
        ] is Finished by {
            assert(run[i] == part[i]);
            if j < n {
                assert(run[j] == part[j]);
            } else if i < n - 1 {
                assert(part[n - 1] is Finished);
            }
        }
    }
}

/// A direction of a tunnel stops only for a cause: its source ended or could not be read, or a
/// write to its target failed. What was read is written next, as much as was read; what was
/// written is flushed; and after that more is read, whatever came of the flush.
pub proof fn law_direction_goes_on_until_it_must_stop(stage: CopyStage, o: Outcome)
    ensures
        ({
            let next = after_copy(stage, o);
            &&& next is HalfClose <==> {
                ||| stage is Read && !(o matches Outcome::Data(n) && n > 0)
                ||| stage is Write && o is Failed
            }
            &&& forall|n: usize|
                next == CopyStage::Write(n) <==> stage is Read && o == Outcome::Data(n) && n > 0
            &&& next is Flush <==> stage is Write && !(o is Failed)
            &&& next is Read <==> stage is Flush
            &&& next is Finished <==> stage is HalfClose || stage is Finished
        }),
{
}

/// A request goes on until it must stop: a stage is come to just where what comes before it was
/// done. It is finished only where the reply ended or could no longer be read, or where the
/// client was told that the target cannot be reached; it is broken only where a write failed.
pub proof fn law_request_goes_on_until_it_must_stop(stage: ForwardStage, body: Body, o: Outcome)
    ensures
        ({
            let next = after_forward(stage, body, o);
            let done = !(o is Failed);
            &&& !(next is Dial)
            &&& next is Refuse <==> stage is Dial && !done
            &&& next is SendHead <==> stage is Dial && done
            &&& next is SendBody <==> stage is SendHead && done && body is Present
            &&& next is ReadReply <==> {
                ||| stage is SendHead && done && body is Empty
                ||| (stage is SendBody || stage is WriteReply) && done
            }
            &&& forall|n: usize|
                next == ForwardStage::WriteReply(n) <==> stage is ReadReply && o == Outcome::Data(n)
                    && n > 0
            &&& next is Finished <==> {
                ||| stage is Refuse || stage is Finished
                ||| stage is ReadReply && !(o matches Outcome::Data(n) && n > 0)
            }
            &&& next is Broken <==> {
                ||| stage is Broken
                ||| (stage is SendHead || stage is SendBody || stage is WriteReply) && !done
            }
            &&& next is Overrun <==> {
                ||| stage is Overrun
                ||| stage is SendHead && done && body is Missing
            }
        }),
{
}

/// A tunnel goes on until it must stop: the target is dialled, the client is told, that is
/// flushed, both directions are copied, and the tunnel is finished. It is broken just where one
/// of these failed, but for the dial, which is answered.
pub proof fn law_tunnel_goes_on_until_it_must_stop(stage: TunnelStage, o: Outcome)
    ensures
        ({
            let next = after_tunnel(stage, o);
            let done = !(o is Failed);
            &&& !(next is Dial)
            &&& next is Refuse <==> stage is Dial && !done
            &&& next is Greet <==> stage is Dial && done
            &&& next is FlushGreeting <==> stage is Greet && done
            &&& next is Relay <==> stage is FlushGreeting && done
            &&& next is Finished <==> {
                ||| stage is Refuse || stage is Finished
                ||| stage is Relay && done
            }
            &&& next is Broken <==> {
                ||| stage is Broken
                ||| (stage is Greet || stage is FlushGreeting || stage is Relay) && !done
            }
        }),
{
}

/// While a request is sent on, the client is told of a target out of reach and of nothing else.
pub proof fn law_request_answers(stage: ForwardStage, answer: Option<&'static str>)
    requires
        call_ensures(ForwardStage::answer, (stage,), answer),
    ensures
        answer is Some <==> stage is Refuse,
        answer matches Some(text) ==> text@ == "HTTP/1.1 502 Bad Gateway\r\n\r\n"@,
{
}

/// While a tunnel is opened, the client is told that it is open, or that its target is out of
/// reach, and nothing else.
pub proof fn law_tunnel_answers(stage: TunnelStage, answer: Option<&'static str>)
    requires
        call_ensures(TunnelStage::answer, (stage,), answer),
    ensures
        answer is Some <==> stage is Refuse || stage is Greet,
        stage is Refuse ==> (answer matches Some(text) && text@
            == "HTTP/1.1 502 Bad Gateway\r\n\r\n"@),
        stage is Greet ==> (answer matches Some(text) && text@
            == "HTTP/1.1 200 Connection Established\r\n\r\n"@),
{
}

/// A request has something to send behind its head just where its body is not empty, and its
/// body is missing just where there is none, not even an empty one.
pub proof fn law_body_of(f: &Forward, body: Body)
    requires
        call_ensures(body_of, (f,), body),
    ensures
        body is Missing <==> f.body is None,
        body is Present <==> (f.body matches Some(bytes) && bytes@.len() > 0),
        body is Empty <==> (f.body matches Some(bytes) && bytes@.len() == 0),
{
}

proof fn lemma_copy_step(outcomes: Seq<Outcome>, chunks: Seq<Seq<u8>>, k: int)
    requires
        0 <= k < outcomes.len(),
    ensures
        ({
            let before = outcomes.take(k);
            let now = outcomes.take(k + 1);
            let stage = copy_run(CopyStage::Read, before).last();
            &&& copy_run(CopyStage::Read, now).last() == after_copy(stage, outcomes[k])
            &&& copy_held(now, chunks) == if stage is Read && outcomes[k] is Data {
                chunks[k]
            } else {
                copy_held(before, chunks)
            }
            &&& copy_written(now, chunks) == if stage is Write && !(outcomes[k] is Failed) {
                copy_written(before, chunks) + copy_held(before, chunks).subrange(
                    0,
                    stage->Write_0 as int,
                )
            } else {
                copy_written(before, chunks)
            }
        }),
{
    let now = outcomes.take(k + 1);
    assert(now.drop_last() =~= outcomes.take(k));
    assert(now.last() == outcomes[k]);
}

proof fn lemma_stream_relayed(
    outcomes: Seq<Outcome>,
    chunks: Seq<Seq<u8>>,
    parts: Seq<Seq<u8>>,
    m: int,
)
    requires
        0 <= m <= parts.len(),
        outcomes.len() >= 3 * parts.len(),
        forall|i: int|
            0 <= i < parts.len() ==> {
                &&& #[trigger] parts[i].len() > 0
                &&& outcomes[3 * i] matches Outcome::Data(n) && n == parts[i].len()
                &&& chunks[3 * i] == parts[i]
                &&& !(outcomes[3 * i + 1] is Failed)
            },
    ensures
        copy_run(CopyStage::Read, outcomes.take(3 * m)).last() is Read,
        copy_written(outcomes.take(3 * m), chunks) == parts.take(m).flatten(),
    decreases m,
{
    if m == 0 {
        assert(parts.take(0) =~= Seq::<Seq<u8>>::empty());
        assert(outcomes.take(0).len() == 0);
    } else {
        lemma_stream_relayed(outcomes, chunks, parts, m - 1);
        let k = 3 * (m - 1);
        let part = parts[m - 1];
        lemma_copy_step(outcomes, chunks, k);
        lemma_copy_step(outcomes, chunks, k + 1);
        lemma_copy_step(outcomes, chunks, k + 2);
        assert(part.subrange(0, part.len() as int) =~= part);
        assert(parts.take(m) =~= parts.take(m - 1).push(part));
        parts.take(m - 1).lemma_flatten_push(part);
    }
}

/// A stream that comes in any number of parts, of any sizes, goes through a direction of a
/// tunnel whole: where each part can be written, all have been written, in their order, when the
/// direction has stopped at the end of the stream, or at a read that failed. What comes of the
/// flushes and of the half close does not matter.
pub proof fn law_whole_stream_is_relayed(
    outcomes: Seq<Outcome>,
    chunks: Seq<Seq<u8>>,
    parts: Seq<Seq<u8>>,
)
    requires
        outcomes.len() == 3 * parts.len() + 2,
        forall|i: int|
            0 <= i < parts.len() ==> {
                &&& #[trigger] parts[i].len() > 0
                &&& outcomes[3 * i] matches Outcome::Data(n) && n == parts[i].len()
                &&& chunks[3 * i] == parts[i]
                &&& !(outcomes[3 * i + 1] is Failed)
            },
        outcomes[3 * parts.len() as int] == Outcome::Data(0) || !(outcomes[3
            * parts.len() as int] is Data),
    ensures
        copy_run(CopyStage::Read, outcomes).last() is Finished,
        copy_written(outcomes, chunks) == parts.flatten(),
{
    let m = parts.len() as int;
    lemma_stream_relayed(outcomes, chunks, parts, m);
    lemma_copy_step(outcomes, chunks, 3 * m);
    lemma_copy_step(outcomes, chunks, 3 * m + 1);
    assert(outcomes.take(3 * m + 2) =~= outcomes);
    assert(parts.take(m) =~= parts);
}

proof fn lemma_reply_step(body: Body, outcomes: Seq<Outcome>, chunks: Seq<Seq<u8>>, k: int)
    requires
        0 <= k < outcomes.len(),
    ensures
        ({
            let before = outcomes.take(k);
            let now = outcomes.take(k + 1);
            let stage = forward_run(ForwardStage::Dial, body, before).last();
            &&& forward_run(ForwardStage::Dial, body, now).last() == after_forward(
                stage,
                body,
                outcomes[k],
            )
            &&& reply_held(body, now, chunks) == if stage is ReadReply && outcomes[k] is Data {
                chunks[k]
            } else {
                reply_held(body, before, chunks)
            }
            &&& reply_written(body, now, chunks) == if stage is WriteReply && !(
            outcomes[k] is Failed) {
                reply_written(body, before, chunks) + reply_held(body, before, chunks).subrange(
                    0,
                    stage->WriteReply_0 as int,
                )
            } else {
                reply_written(body, before, chunks)
            }
        }),
{
    let now = outcomes.take(k + 1);
    assert(now.drop_last() =~= outcomes.take(k));
    assert(now.last() == outcomes[k]);
}

proof fn lemma_reply_relayed(
    body: Body,
    outcomes: Seq<Outcome>,
    chunks: Seq<Seq<u8>>,
    parts: Seq<Seq<u8>>,
    sent: int,
    m: int,
)
    requires
        0 <= m <= parts.len(),
        body is Empty && sent == 2 || body is Present && sent == 3,
        outcomes.len() >= sent + 2 * parts.len(),
        forall|i: int| 0 <= i < sent ==> !(#[trigger] outcomes[i] is Failed),
        forall|i: int|
            0 <= i < parts.len() ==> {
                &&& #[trigger] parts[i].len() > 0
                &&& outcomes[sent + 2 * i] matches Outcome::Data(n) && n == parts[i].len()
                &&& chunks[sent + 2 * i] == parts[i]
                &&& !(outcomes[sent + 2 * i + 1] is Failed)
            },
    ensures
        forward_run(ForwardStage::Dial, body, outcomes.take(sent + 2 * m)).last() is ReadReply,
        reply_written(body, outcomes.take(sent + 2 * m), chunks) == parts.take(m).flatten(),
    decreases m,
{
    if m == 0 {
        assert(parts.take(0) =~= Seq::<Seq<u8>>::empty());
        assert(outcomes.take(0).len() == 0);
        lemma_reply_step(body, outcomes, chunks, 0);
        lemma_reply_step(body, outcomes, chunks, 1);
        if body is Present {
            lemma_reply_step(body, outcomes, chunks, 2);
        }
    } else {
        lemma_reply_relayed(body, outcomes, chunks, parts, sent, m - 1);
        let k = sent + 2 * (m - 1);
        let part = parts[m - 1];
        lemma_reply_step(body, outcomes, chunks, k);
        lemma_reply_step(body, outcomes, chunks, k + 1);
        assert(part.subrange(0, part.len() as int) =~= part);
        assert(parts.take(m) =~= parts.take(m - 1).push(part));
        parts.take(m - 1).lemma_flatten_push(part);
    }
}

/// A reply that comes in any number of parts, of any sizes, goes to the client whole: where the
/// target is reached, the request can be sent, and each part can be written, all have been
/// written, in their order, when the request is finished at the end of the reply, or at a read
/// that failed. The `sent` outcomes before the reply are those of the dial, the head and, where
/// there is one, the body.
pub proof fn law_whole_reply_is_relayed(
    body: Body,
    outcomes: Seq<Outcome>,
    chunks: Seq<Seq<u8>>,
    parts: Seq<Seq<u8>>,
    sent: int,
)
    requires
        body is Empty && sent == 2 || body is Present && sent == 3,
        outcomes.len() == sent + 2 * parts.len() + 1,
        forall|i: int| 0 <= i < sent ==> !(#[trigger] outcomes[i] is Failed),
        forall|i: int|
            0 <= i < parts.len() ==> {
                &&& #[trigger] parts[i].len() > 0
                &&& outcomes[sent + 2 * i] matches Outcome::Data(n) && n == parts[i].len()
                &&& chunks[sent + 2 * i] == parts[i]
                &&& !(outcomes[sent + 2 * i + 1] is Failed)
            },
        outcomes.last() == Outcome::Data(0) || !(outcomes.last() is Data),
    ensures
        forward_run(ForwardStage::Dial, body, outcomes).last() is Finished,
        reply_written(body, outcomes, chunks) == parts.flatten(),
{
    let m = parts.len() as int;
    lemma_reply_relayed(body, outcomes, chunks, parts, sent, m);
    lemma_reply_step(body, outcomes, chunks, sent + 2 * m);
    assert(outcomes.take(sent + 2 * m + 1) =~= outcomes);
    assert(parts.take(m) =~= parts);
}

} // verus!
