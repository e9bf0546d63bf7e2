//! Synchronous IPC endpoint rendezvous, as pure logic.
//!
//! This is the rendezvous state machine of a capacity-1 synchronous endpoint, in
//! which a thread blocked on IPC is parked on the endpoint rather than spinning. A
//! parked peer is just a flag here, and "wake the counterpart" is an effect flag
//! that the caller acts on.
//!
//! The model of an endpoint is its state, [`EndpointState`], and every operation
//! keeps it valid:
//!
//! 1. A sender is parked only while the slot is full.
//! 2. A receiver is parked only while the slot is empty.
//! 3. So a sender and a receiver are never parked at the same time.
//! 4. A received message is exactly the one most recently deposited: over any
//!    sequence of operations the messages taken are those deposited, in order
//!    ([`messages_are_conserved`]).
use vstd::prelude::*;

verus! {

/// A small inline IPC message: a tag plus four data words.
#[derive(Clone, Copy, Debug, PartialEq, Eq)]
pub struct Message {
    /// Message tag or method label.
    pub label: u64,
    /// Up to four inline data words.
    pub words: [u64; 4],
}

impl Message {
    /// Creates a message with the given label and data words.
    #[must_use]
    pub fn new(label: u64, words: [u64; 4]) -> (m: Self)
        ensures
            m == (Message { label, words }),
    {
        Message { label, words }
    }
}

/// The outcome of a non-blocking [`Endpoint::try_send`].
#[derive(Clone, Copy, Debug, PartialEq, Eq, Structural)]
pub enum SendOutcome {
    /// The message was deposited. `woke_receiver` is `true` if a receiver was
    /// parked and has now been released (the caller should wake it).
    Deposited {
        /// Whether a parked receiver was released by this deposit.
        woke_receiver: bool,
    },
    /// The endpoint already held an undelivered message; nothing was deposited.
    Full,
}

/// The outcome of a non-blocking [`Endpoint::try_recv`].
#[derive(Clone, Copy, Debug, PartialEq, Eq)]
pub enum RecvOutcome {
    /// A message was taken. `woke_sender` is `true` if a sender was parked and has
    /// now been released (the caller should wake it).
    Took {
        /// The message removed from the endpoint.
        message: Message,
        /// Whether a parked sender was released by this take.
        woke_sender: bool,
    },
    /// The endpoint had no message; nothing was taken.
    Empty,
}

/// The mathematical model of an [`Endpoint`].
pub struct EndpointState {
    /// The undelivered message, if there is one.
    pub slot: Option<Message>,
    /// A sender is parked.
    pub sender_parked: bool,
    /// A receiver is parked.
    pub receiver_parked: bool,
}

impl EndpointState {
    /// A sender is parked only on a full slot, a receiver only on an empty one.
    pub open spec fn valid(self) -> bool {
        &&& self.sender_parked ==> self.slot is Some
        &&& self.receiver_parked ==> self.slot is None
    }

    /// No message, no parked peers.
    pub open spec fn idle() -> Self {
        EndpointState { slot: None, sender_parked: false, receiver_parked: false }
    }

    /// The state after trying to send `message`.
    pub open spec fn after_send(self, message: Message) -> Self {
        if self.slot is Some {
            self
        } else {
            EndpointState {
                slot: Some(message),
                sender_parked: self.sender_parked,
                receiver_parked: false,
            }
        }
    }

    /// What a send of anything is answered in this state.
    pub open spec fn send_outcome(self) -> SendOutcome {
        if self.slot is Some {
            SendOutcome::Full
        } else {
            SendOutcome::Deposited { woke_receiver: self.receiver_parked }
        }
    }

    /// What a receive is answered in this state.
    pub open spec fn recv_outcome(self) -> RecvOutcome {
        match self.slot {
            Some(message) => RecvOutcome::Took { message, woke_sender: self.sender_parked },
            None => RecvOutcome::Empty,
        }
    }

    /// The state after trying to receive.
    pub open spec fn after_recv(self) -> Self {
        if self.slot is Some {
            EndpointState {
                slot: None,
                sender_parked: false,
                receiver_parked: self.receiver_parked,
            }
        } else {
            self
        }
    }

    /// The state after parking a sender, which an empty slot refuses.
    pub open spec fn after_park_sender(self) -> Self {
        EndpointState {
            slot: self.slot,
            sender_parked: self.sender_parked || self.slot is Some,
            receiver_parked: self.receiver_parked,
        }
    }

    /// The state after parking a receiver, which a full slot refuses.
    pub open spec fn after_park_receiver(self) -> Self {
        EndpointState {
            slot: self.slot,
            sender_parked: self.sender_parked,
            receiver_parked: self.receiver_parked || self.slot is None,
        }
    }

    /// The state after both parked flags have been cleared.
    pub open spec fn after_clear(self) -> Self {
        EndpointState { slot: self.slot, sender_parked: false, receiver_parked: false }
    }

    /// The state after a parked receiver has abandoned its wait.
    pub open spec fn after_cancel_receiver(self) -> Self {
        EndpointState {
            slot: self.slot,
            sender_parked: self.sender_parked,
            receiver_parked: false,
        }
    }
}

/// A capacity-1 synchronous IPC endpoint: at most one undelivered message, plus
/// the parked state of a sender and a receiver.
#[derive(Clone, Copy, Debug, PartialEq, Eq)]
pub struct Endpoint {
    slot: Option<Message>,
    sender_parked: bool,
    receiver_parked: bool,
}

impl View for Endpoint {
    type V = EndpointState;

    closed spec fn view(&self) -> EndpointState {
        EndpointState {
            slot: self.slot,
            sender_parked: self.sender_parked,
            receiver_parked: self.receiver_parked,
        }
    }
}

impl Endpoint {
    /// Creates a fresh, idle endpoint: no message, no parked peers.
    #[must_use]
    pub fn new() -> (ep: Self)
        ensures
            ep@ == EndpointState::idle(),
            ep@.valid(),
            ep@.slot is None && !ep@.sender_parked && !ep@.receiver_parked,
    {
        Endpoint { slot: None, sender_parked: false, receiver_parked: false }
    }

    /// Returns `true` if the endpoint currently holds an undelivered message.
    #[inline]
    #[must_use]
    pub fn is_loaded(&self) -> (b: bool)
        ensures
            b == (self@.slot is Some),
    {
        self.slot.is_some()
    }

    /// Returns `true` if a sender is parked on the endpoint.
    #[inline]
    #[must_use]
    pub fn sender_parked(&self) -> (b: bool)
        ensures
            b == self@.sender_parked,
    {
        self.sender_parked
    }

    /// Returns `true` if a receiver is parked on the endpoint.
    #[inline]
    #[must_use]
    pub fn receiver_parked(&self) -> (b: bool)
        ensures
            b == self@.receiver_parked,
    {
        self.receiver_parked
    }

    /// Tries to deposit `message` without blocking.
    ///
    /// Succeeds when the slot is empty, depositing the message and releasing any
    /// waiting receiver. Returns [`SendOutcome::Full`] and changes nothing when the
    /// slot already holds an undelivered message.
    pub fn try_send(&mut self, message: Message) -> (out: SendOutcome)
        ensures
            final(self)@ == old(self)@.after_send(message),
            old(self)@.slot is Some ==> final(self)@ == old(self)@,
            old(self)@.slot is None ==> final(self)@.slot == Some(message)
                && !final(self)@.receiver_parked,
            final(self)@.sender_parked == old(self)@.sender_parked,
            old(self)@.valid() ==> final(self)@.valid(),
            out == old(self)@.send_outcome(),
            out == (if old(self)@.slot is Some {
                SendOutcome::Full
            } else {
                SendOutcome::Deposited { woke_receiver: old(self)@.receiver_parked }
            }),
    {
        if self.slot.is_some() {
            return SendOutcome::Full;
        }
        self.slot = Some(message);
        let woke_receiver: bool = self.receiver_parked;
        self.receiver_parked = false;
        SendOutcome::Deposited { woke_receiver }
    }

    /// Tries to take the parked message without blocking.
    ///
    /// Succeeds when a message is present, draining the slot and releasing any
    /// waiting sender. Returns [`RecvOutcome::Empty`] and changes nothing when the
    /// slot is empty.
    pub fn try_recv(&mut self) -> (out: RecvOutcome)
        ensures
            final(self)@ == old(self)@.after_recv(),
            old(self)@.slot is None ==> final(self)@ == old(self)@,
            old(self)@.slot is Some ==> final(self)@.slot is None && !final(self)@.sender_parked,
            final(self)@.receiver_parked == old(self)@.receiver_parked,
            old(self)@.valid() ==> final(self)@.valid(),
            out == old(self)@.recv_outcome(),
            out == (match old(self)@.slot {
                Some(message) => RecvOutcome::Took {
                    message,
                    woke_sender: old(self)@.sender_parked,
                },
                None => RecvOutcome::Empty,
            }),
    {
        match self.slot.take() {
            Some(message) => {
                let woke_sender: bool = self.sender_parked;
                self.sender_parked = false;
                RecvOutcome::Took { message, woke_sender }
            },
            None => RecvOutcome::Empty,
        }
    }

    /// Records that a sender is parked, waiting for the slot to free.
    ///
    /// A no-op when the slot is empty, since an empty slot would have accepted the
    /// send. Returns `true` if a sender is now parked.
    pub fn park_sender(&mut self) -> (parked: bool)
        ensures
            final(self)@ == old(self)@.after_park_sender(),
            final(self)@.slot == old(self)@.slot,
            final(self)@.receiver_parked == old(self)@.receiver_parked,
            old(self)@.slot is Some ==> parked,
            old(self)@.slot is None ==> final(self)@ == old(self)@,
            old(self)@.valid() ==> final(self)@.valid(),
            parked == final(self)@.sender_parked,
    {
        if self.slot.is_some() {
            self.sender_parked = true;
        }
        self.sender_parked
    }

    /// Records that a receiver is parked, waiting for a message.
    ///
    /// A no-op when the slot is full, since a loaded slot would have satisfied the
    /// receive. Returns `true` if a receiver is now parked.
    pub fn park_receiver(&mut self) -> (parked: bool)
        ensures
            final(self)@ == old(self)@.after_park_receiver(),
            final(self)@.slot == old(self)@.slot,
            final(self)@.sender_parked == old(self)@.sender_parked,
            old(self)@.slot is None ==> parked,
            old(self)@.slot is Some ==> final(self)@ == old(self)@,
            old(self)@.valid() ==> final(self)@.valid(),
            parked == final(self)@.receiver_parked,
    {
        if self.slot.is_none() {
            self.receiver_parked = true;
        }
        self.receiver_parked
    }

    /// Clears both parked flags, returning whether a sender and a receiver were
    /// parked.
    ///
    /// Called when an endpoint's capability is revoked. The message slot is left
    /// untouched.
    pub fn clear_parked(&mut self) -> (had: (bool, bool))
        ensures
            final(self)@ == old(self)@.after_clear(),
            final(self)@.slot == old(self)@.slot,
            !final(self)@.sender_parked && !final(self)@.receiver_parked,
            final(self)@.valid(),
            had == (old(self)@.sender_parked, old(self)@.receiver_parked),
    {
        let had_sender: bool = self.sender_parked;
        let had_receiver: bool = self.receiver_parked;
        self.sender_parked = false;
        self.receiver_parked = false;
        (had_sender, had_receiver)
    }

    /// Clears the receiver's parked flag, returning whether a receiver was parked.
    ///
    /// Called when a receive times out and the receiver abandons its wait. The
    /// message slot and a parked sender are left untouched.
    pub fn cancel_receiver(&mut self) -> (had_receiver: bool)
        ensures
            final(self)@ == old(self)@.after_cancel_receiver(),
            final(self)@.slot == old(self)@.slot,
            final(self)@.sender_parked == old(self)@.sender_parked,
            !final(self)@.receiver_parked,
            old(self)@.valid() ==> final(self)@.valid(),
            had_receiver == old(self)@.receiver_parked,
    {
        let had_receiver: bool = self.receiver_parked;
        self.receiver_parked = false;
        had_receiver
    }
}

impl Default for Endpoint {
    fn default() -> (ep: Self)
        ensures
            ep@ == EndpointState::idle(),
            ep@.valid(),
            ep@.slot is None && !ep@.sender_parked && !ep@.receiver_parked,
    {
        Self::new()
    }
}

/// One operation on an endpoint.
pub enum EndpointOp {
    /// [`Endpoint::try_send`].
    Send(Message),
    /// [`Endpoint::try_recv`].
    Recv,
    /// [`Endpoint::park_sender`].
    ParkSender,
    /// [`Endpoint::park_receiver`].
    ParkReceiver,
    /// [`Endpoint::clear_parked`].
    ClearParked,
    /// [`Endpoint::cancel_receiver`].
    CancelReceiver,
}

impl EndpointState {
    /// The state after `op`.
    pub open spec fn after(self, op: EndpointOp) -> Self {
        match op {
            EndpointOp::Send(message) => self.after_send(message),
            EndpointOp::Recv => self.after_recv(),
            EndpointOp::ParkSender => self.after_park_sender(),
            EndpointOp::ParkReceiver => self.after_park_receiver(),
            EndpointOp::ClearParked => self.after_clear(),
            EndpointOp::CancelReceiver => self.after_cancel_receiver(),
        }
    }

    /// What `op` deposits: the message, if it is a send that the slot accepts.
    pub open spec fn deposited_by(self, op: EndpointOp) -> Seq<Message> {
        match op {
            EndpointOp::Send(message) if self.slot is None => seq![message],
            _ => Seq::empty(),
        }
    }

    /// What `op` takes: the message in the slot, if it is a receive.
    pub open spec fn taken_by(self, op: EndpointOp) -> Seq<Message> {
        match (op, self.slot) {
            (EndpointOp::Recv, Some(message)) => seq![message],
            _ => Seq::empty(),
        }
    }

    /// The state after all of `ops`.
    pub open spec fn after_all(self, ops: Seq<EndpointOp>) -> Self
        decreases ops.len(),
    {
        if ops.len() == 0 {
            self
        } else {
            self.after_all(ops.drop_last()).after(ops.last())
        }
    }

    /// The messages that `ops` deposit, in order.
    pub open spec fn deposited(self, ops: Seq<EndpointOp>) -> Seq<Message>
        decreases ops.len(),
    {
        if ops.len() == 0 {
            Seq::empty()
        } else {
            self.deposited(ops.drop_last()) + self.after_all(ops.drop_last()).deposited_by(
                ops.last(),
            )
        }
    }

    /// The messages that `ops` take, in order.
    pub open spec fn taken(self, ops: Seq<EndpointOp>) -> Seq<Message>
        decreases ops.len(),
    {
        if ops.len() == 0 {
            Seq::empty()
        } else {
            self.taken(ops.drop_last()) + self.after_all(ops.drop_last()).taken_by(ops.last())
        }
    }

    /// The undelivered message, as a sequence.
    pub open spec fn in_slot(self) -> Seq<Message> {
        match self.slot {
            Some(message) => seq![message],
            None => Seq::empty(),
        }
    }
}

/// A sender and a receiver are never parked at the same time.
pub proof fn never_both_parked(state: EndpointState)
    requires
        state.valid(),
    ensures
        !(state.sender_parked && state.receiver_parked),
{
}

/// Every operation keeps an endpoint valid, so every state that is reached from an
/// idle endpoint is.
pub proof fn operations_keep_endpoints_valid(state: EndpointState, ops: Seq<EndpointOp>)
    requires
        state.valid(),
    ensures
        state.after_all(ops).valid(),
    decreases ops.len(),
{
    if ops.len() > 0 {
        operations_keep_endpoints_valid(state, ops.drop_last());
    }
}

/// What is answered says what happened: a send is refused exactly on a full slot and a
/// receive exactly on an empty one, what is taken is what the slot held, and a peer is
/// reported woken exactly if it was parked and no longer is.
pub proof fn outcomes_report_what_happened(state: EndpointState, message: Message)
    requires
        state.valid(),
    ensures
        state.send_outcome() is Full <==> state.slot is Some,
        state.send_outcome() matches SendOutcome::Deposited { woke_receiver } ==> (woke_receiver
            <==> state.receiver_parked && !state.after(
            EndpointOp::Send(message),
        ).receiver_parked),
        state.recv_outcome() is Empty <==> state.slot is None,
        state.recv_outcome() matches RecvOutcome::Took { message: taken, woke_sender } ==> (
        state.slot == Some(taken) && (woke_sender <==> state.sender_parked && !state.after(
            EndpointOp::Recv,
        ).sender_parked)),
{
}

/// A refused operation changes nothing: a send into a full slot, a receive from an
/// empty one, and a park of a peer that need not wait leave the whole endpoint as it
/// was, the parked peers among it.
pub proof fn refused_operations_change_nothing(state: EndpointState, message: Message)
    ensures
        state.slot is Some ==> state.after(EndpointOp::Send(message)) == state,
        state.slot is None ==> state.after(EndpointOp::Recv) == state,
        state.slot is None ==> state.after(EndpointOp::ParkSender) == state,
        state.slot is Some ==> state.after(EndpointOp::ParkReceiver) == state,
{
}

/// Only a deposit fills the slot and only a take empties it; the parking operations
/// never touch a message.
pub proof fn only_sends_and_receives_move_messages(state: EndpointState, op: EndpointOp)
    ensures
        !(op is Send) && !(op is Recv) ==> state.after(op).slot == state.slot,
        op is Send ==> state.after(op).slot is Some && (state.slot is Some ==> state.after(op).slot
            == state.slot),
        op matches EndpointOp::Send(message) ==> (state.slot is None ==> state.after(op).slot
            == Some(message)),
        op is Recv ==> state.after(op).slot is None,
{
}

/// A parked peer is set free by what it waits for, by a cancellation, and by nothing
/// else: a sender by a take or a clear, a receiver by a deposit, a clear or its own
/// timeout. And only parking parks.
pub proof fn parked_peers_wait_for_their_event(state: EndpointState, op: EndpointOp)
    requires
        state.valid(),
    ensures
        state.sender_parked && !(op is Recv) && !(op is ClearParked) ==> state.after(
            op,
        ).sender_parked,
        state.sender_parked && (op is Recv || op is ClearParked) ==> !state.after(op).sender_parked,
        state.receiver_parked && !(op is Send) && !(op is ClearParked) && !(op is CancelReceiver)
            ==> state.after(op).receiver_parked,
        state.receiver_parked && (op is Send || op is ClearParked || op is CancelReceiver)
            ==> !state.after(op).receiver_parked,
        !state.sender_parked && state.after(op).sender_parked ==> op is ParkSender,
        !state.receiver_parked && state.after(op).receiver_parked ==> op is ParkReceiver,
        state.slot is Some ==> state.after(EndpointOp::ParkSender).sender_parked,
        state.slot is None ==> state.after(EndpointOp::ParkReceiver).receiver_parked,
{
}

/// No wakeup of a sender is lost: once a sender is parked it stays parked, and the
/// message stays in the slot, through any sequence of operations without a receive or
/// a clear. So the next receive takes that message and reports that it woke the sender.
pub proof fn a_parked_sender_is_woken_by_the_next_receive(
    state: EndpointState,
    ops: Seq<EndpointOp>,
)
    requires
        state.valid(),
        state.sender_parked,
        forall|i: int|
            0 <= i < ops.len() ==> !((#[trigger] ops[i]) is Recv) && !(ops[i] is ClearParked),
    ensures
        state.after_all(ops).sender_parked,
        state.after_all(ops).slot == state.slot,
        state.slot is Some,
        state.after_all(ops).recv_outcome() == (RecvOutcome::Took {
            message: state.slot.unwrap(),
            woke_sender: true,
        }),
        state.after_all(ops).taken_by(EndpointOp::Recv) == seq![state.slot.unwrap()],
        !state.after_all(ops).after(EndpointOp::Recv).sender_parked,
    decreases ops.len(),
{
    if ops.len() > 0 {
        let front = ops.drop_last();
        assert forall|i: int| 0 <= i < front.len() implies !((#[trigger] front[i]) is Recv) && !(
        front[i] is ClearParked) by {
            assert(ops[i] == front[i]);
        }
        a_parked_sender_is_woken_by_the_next_receive(state, front);
        operations_keep_endpoints_valid(state, front);
        assert(!(ops[ops.len() - 1] is Recv));
    }
}

/// No wakeup of a receiver is lost: once a receiver is parked it stays parked, and the
/// slot stays empty, through any sequence of operations without a send, a clear or a
/// timeout. So the next send is accepted and reports that it woke the receiver.
pub proof fn a_parked_receiver_is_woken_by_the_next_send(
    state: EndpointState,
    ops: Seq<EndpointOp>,
    message: Message,
)
    requires
        state.valid(),
        state.receiver_parked,
        forall|i: int|
            0 <= i < ops.len() ==> !((#[trigger] ops[i]) is Send) && !(ops[i] is ClearParked) && !(
            ops[i] is CancelReceiver),
    ensures
        state.after_all(ops).receiver_parked,
        state.after_all(ops).slot is None,
        state.after_all(ops).send_outcome() == (SendOutcome::Deposited { woke_receiver: true }),
        state.after_all(ops).deposited_by(EndpointOp::Send(message)) == seq![message],
        !state.after_all(ops).after(EndpointOp::Send(message)).receiver_parked,
        state.after_all(ops).after(EndpointOp::Send(message)).slot == Some(message),
    decreases ops.len(),
{
    if ops.len() > 0 {
        let front = ops.drop_last();
        assert forall|i: int| 0 <= i < front.len() implies !((#[trigger] front[i]) is Send) && !(
        front[i] is ClearParked) && !(front[i] is CancelReceiver) by {
            assert(ops[i] == front[i]);
        }
        a_parked_receiver_is_woken_by_the_next_send(state, front, message);
        operations_keep_endpoints_valid(state, front);
        assert(!(ops[ops.len() - 1] is Send));
    }
}

/// What the two parking invariants say: a sender waits only behind a message, a
/// receiver only for one, in every state that is reached from a fresh endpoint.
pub proof fn reachable_endpoints_park_the_right_peer(ops: Seq<EndpointOp>)
    ensures
        ({
            let state = EndpointState::idle().after_all(ops);
            &&& state.sender_parked ==> state.slot is Some
            &&& state.receiver_parked ==> state.slot is None
        }),
        EndpointState::idle().slot is None,
        !EndpointState::idle().sender_parked && !EndpointState::idle().receiver_parked,
{
    operations_keep_endpoints_valid(EndpointState::idle(), ops);
}

/// A deposit into an empty endpoint, then a take, returns exactly the deposited
/// message and leaves the endpoint empty.
pub proof fn deposit_then_take_returns_same_message(state: EndpointState, message: Message)
    requires
        state.slot is None,
    ensures
        state.deposited_by(EndpointOp::Send(message)) == seq![message],
        state.after_send(message).taken_by(EndpointOp::Recv) == seq![message],
        state.after_send(message).after_recv().slot is None,
{
}

/// Messages are neither lost, duplicated, reordered nor made up: over any sequence
/// of operations, what the slot held at first followed by the messages deposited is
/// the messages taken followed by what the slot holds at last.
pub proof fn messages_are_conserved(state: EndpointState, ops: Seq<EndpointOp>)
    ensures
        state.in_slot() + state.deposited(ops) == state.taken(ops) + state.after_all(ops).in_slot(),
    decreases ops.len(),
{
    if ops.len() > 0 {
        let front = ops.drop_last();
        let mid = state.after_all(front);
        let op = ops.last();
        messages_are_conserved(state, front);
        assert(mid.in_slot() + mid.deposited_by(op) =~= mid.taken_by(op) + mid.after(op).in_slot());
        assert(state.in_slot() + state.deposited(ops) =~= (state.in_slot() + state.deposited(front))
            + mid.deposited_by(op));
        assert((state.taken(front) + mid.in_slot()) + mid.deposited_by(op) =~= state.taken(front)
            + (mid.in_slot() + mid.deposited_by(op)));
        assert(state.taken(front) + (mid.taken_by(op) + mid.after(op).in_slot()) =~= state.taken(ops)
            + state.after_all(ops).in_slot());
    } else {
        assert(state.in_slot() + state.deposited(ops) =~= state.taken(ops) + state.after_all(
            ops,
        ).in_slot());
    }
}

} // verus!
