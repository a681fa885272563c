//! What a benchmark client does next.

use vstd::prelude::*;

use crate::client::{burst_size, check_size, ClientError, PRECISION, SMALLEST_TRANSACTION};

verus! {

/// How far a client has come.
#[derive(Clone, Copy, Debug, PartialEq, Eq, Structural)]
pub enum ClientStage {
    /// Nothing has been done.
    Start,
    /// A connection is being made.
    Connecting,
    /// The next tick is awaited.
    Waiting,
    /// A burst is being sent.
    Sending,
    /// There is nothing left to do.
    Ended,
}

/// What a client learns.
#[derive(Clone, Copy, Debug, PartialEq, Eq, Structural)]
pub enum ClientEvent {
    /// The client has been started.
    Begun,
    /// The connection has been made, or the transaction has been sent.
    Succeeded,
    /// The connection could not be made, or the transaction could not be sent.
    Failed,
    /// A tick has come, at which a burst is due or not.
    Ticked { active: bool },
    /// The burst has no further transaction.
    BurstOver,
}

/// What a client does.
#[derive(Clone, Copy, Debug, PartialEq, Eq, Structural)]
pub enum ClientAction {
    /// Connect to the node.
    Connect,
    /// Give up, since the client cannot run.
    Fail(ClientError),
    /// Give up, since the connection could not be made.
    FailConnect,
    /// Wait for the next tick.
    WaitForTick,
    /// Send the next transaction of the burst.
    SendNext,
    /// Stop, with success.
    Finish,
}

/// Whether the event can come at the stage.
pub open spec fn can_come(stage: ClientStage, event: ClientEvent) -> bool {
    match stage {
        ClientStage::Start => event is Begun,
        ClientStage::Connecting => event is Succeeded || event is Failed,
        ClientStage::Waiting => event is Ticked,
        ClientStage::Sending => event is Succeeded || event is Failed || event is BurstOver,
        ClientStage::Ended => false,
    }
}

/// What a client of the size and the rate does on an event that can come, and how far it has come
/// then. The size is checked before a connection is made, and the rate after. A transaction that
/// could not be sent ends the client with success.
pub open spec fn decided(stage: ClientStage, event: ClientEvent, size: usize, rate: u64) -> (
    ClientStage,
    ClientAction,
) {
    match stage {
        ClientStage::Start => if size < SMALLEST_TRANSACTION {
            (ClientStage::Ended, ClientAction::Fail(ClientError::TransactionTooSmall))
        } else {
            (ClientStage::Connecting, ClientAction::Connect)
        },
        ClientStage::Connecting => if event is Failed {
            (ClientStage::Ended, ClientAction::FailConnect)
        } else if rate < PRECISION {
            (ClientStage::Ended, ClientAction::Fail(ClientError::RateTooLow))
        } else {
            (ClientStage::Waiting, ClientAction::WaitForTick)
        },
        ClientStage::Waiting => if event == (ClientEvent::Ticked { active: true }) {
            (ClientStage::Sending, ClientAction::SendNext)
        } else {
            (ClientStage::Waiting, ClientAction::WaitForTick)
        },
        ClientStage::Sending => match event {
            ClientEvent::Succeeded => (ClientStage::Sending, ClientAction::SendNext),
            ClientEvent::BurstOver => (ClientStage::Waiting, ClientAction::WaitForTick),
            _ => (ClientStage::Ended, ClientAction::Finish),
        },
        ClientStage::Ended => (ClientStage::Ended, ClientAction::Finish),
    }
}

/// Decides what a client of the size and the rate does on the event, and how far it has come then.
pub fn next_action(stage: ClientStage, event: ClientEvent, size: usize, rate: u64) -> (next: (
    ClientStage,
    ClientAction,
))
    requires
        can_come(stage, event),
    ensures
        next == decided(stage, event, size, rate),
{
    match (stage, event) {
        (ClientStage::Start, _) => match check_size(size) {
            Err(error) => (ClientStage::Ended, ClientAction::Fail(error)),
            Ok(()) => (ClientStage::Connecting, ClientAction::Connect),
        },
        (ClientStage::Connecting, ClientEvent::Failed) => {
            (ClientStage::Ended, ClientAction::FailConnect)
        },
        (ClientStage::Connecting, _) => match burst_size(rate) {
            Err(error) => (ClientStage::Ended, ClientAction::Fail(error)),
            Ok(_) => (ClientStage::Waiting, ClientAction::WaitForTick),
        },
        (ClientStage::Waiting, ClientEvent::Ticked { active: true }) => {
            (ClientStage::Sending, ClientAction::SendNext)
        },
        (ClientStage::Waiting, _) => (ClientStage::Waiting, ClientAction::WaitForTick),
        (ClientStage::Sending, ClientEvent::Succeeded) => {
            (ClientStage::Sending, ClientAction::SendNext)
        },
        (ClientStage::Sending, ClientEvent::BurstOver) => {
            (ClientStage::Waiting, ClientAction::WaitForTick)
        },
        (_, _) => (ClientStage::Ended, ClientAction::Finish),
    }
}

/// How far a client has come after the events.
pub open spec fn stage_after(size: usize, rate: u64, events: Seq<ClientEvent>) -> ClientStage
    decreases events.len(),
{
    if events.len() == 0 {
        ClientStage::Start
    } else {
        decided(stage_after(size, rate, events.drop_last()), events.last(), size, rate).0
    }
}

/// What a client does on the last of the events.
pub open spec fn action_after(size: usize, rate: u64, events: Seq<ClientEvent>) -> ClientAction {
    decided(stage_after(size, rate, events.drop_last()), events.last(), size, rate).1
}

/// Whether the events can come one after the other.
pub open spec fn is_session(size: usize, rate: u64, events: Seq<ClientEvent>) -> bool
    decreases events.len(),
{
    events.len() > 0 ==> is_session(size, rate, events.drop_last()) && can_come(
        stage_after(size, rate, events.drop_last()),
        events.last(),
    )
}

/// What becomes of a client. Where transactions are too small, it fails before it tries to connect.
/// Else it connects; where that fails, it fails. Where the rate is too low, it fails once it is
/// connected, and sends nothing. Else it goes on until a transaction cannot be sent, and then it
/// stops at once, with success.
pub proof fn law_session(size: usize, rate: u64, events: Seq<ClientEvent>)
    requires
        is_session(size, rate, events),
        events.len() > 0,
    ensures
        ({
            let action = action_after(size, rate, events);
            let last = events.last();
            if size < 9 {
                &&& events.len() == 1
                &&& action == ClientAction::Fail(ClientError::TransactionTooSmall)
            } else if events.len() == 1 {
                action == ClientAction::Connect
            } else if events[1] is Failed {
                &&& events.len() == 2
                &&& action == ClientAction::FailConnect
            } else if rate < 20 {
                &&& events.len() == 2
                &&& action == ClientAction::Fail(ClientError::RateTooLow)
            } else {
                &&& forall|i: int| 0 <= i < events.len() - 1 ==> !(#[trigger] events[i] is Failed)
                &&& action == (if last is Failed {
                    ClientAction::Finish
                } else if events.len() == 2 || last is BurstOver || last == (ClientEvent::Ticked {
                    active: false,
                }) {
                    ClientAction::WaitForTick
                } else {
                    ClientAction::SendNext
                })
            }
        }),
    decreases events.len(),
{
    let init = events.drop_last();
    if init.len() > 0 {
        law_session(size, rate, init);
        lemma_stages(size, rate, init);
        assert(init.last() == events[events.len() - 2]);
        if init.len() > 1 {
            assert(init[1] == events[1]);
            assert forall|i: int| 0 <= i < events.len() - 1 implies !(#[trigger] events[i] is Failed) by {
                if i < init.len() - 1 {
                    assert(init[i] == events[i]);
                }
            }
        }
    }
}

/// How far a client has come shows in what it does.
proof fn lemma_stages(size: usize, rate: u64, events: Seq<ClientEvent>)
    requires
        is_session(size, rate, events),
        events.len() > 0,
    ensures
        stage_after(size, rate, events) == (match action_after(size, rate, events) {
            ClientAction::Connect => ClientStage::Connecting,
            ClientAction::WaitForTick => ClientStage::Waiting,
            ClientAction::SendNext => ClientStage::Sending,
            _ => ClientStage::Ended,
        }),
        events[0] is Begun,
    decreases events.len(),
{
    let init = events.drop_last();
    if init.len() > 0 {
        lemma_stages(size, rate, init);
        assert(init[0] == events[0]);
    }
}

} // verus!
