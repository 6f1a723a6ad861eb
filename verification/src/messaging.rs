//! Messages with senders and recipients, and the algorithms that exchange them.
use std::fmt::Debug;
use vstd::prelude::*;

verus! {

/// Message sent by a given source.
#[derive(Clone, Debug)]
pub struct SourcedMessage<M, N> {
    pub source: N,
    pub message: M,
}

/// Message destination can be either of the two:
///
/// 1) `All`: all nodes if sent to socket tasks, or all local algorithm instances if received from
/// socket tasks.
///
/// 2) `Node(i)`: node i or local algorithm instances with the node index i.
#[derive(Clone, Debug, PartialEq, Eq)]
pub enum Target<N> {
    All,
    Node(N),
}

impl<N> Target<N> {
    /// Returns a `TargetedMessage` with this target, and the given message.
    pub fn message<M>(self, message: M) -> (r: TargetedMessage<M, N>)
        ensures
            r == (TargetedMessage { target: self, message }),
    {
        TargetedMessage { target: self, message }
    }
}

/// Message with a designated target.
#[derive(Clone, Debug, PartialEq)]
pub struct TargetedMessage<M, N> {
    pub target: Target<N>,
    pub message: M,
}

impl<M, N> TargetedMessage<M, N> {
    /// Applies the given transformation of messages, preserving the target.
    pub fn map<T, F: Fn(M) -> T>(self, f: F) -> (r: TargetedMessage<T, N>)
        requires
            call_requires(f, (self.message,)),
        ensures
            r.target == self.target,
            call_ensures(f, (self.message,), r.message),
    {
        TargetedMessage { target: self.target, message: f(self.message) }
    }
}

/// A distributed algorithm that defines a message flow.
pub trait DistAlgorithm: Sized {
    /// Unique node identifier.
    type NodeUid: Debug + Clone + Ord + Eq;

    /// The input provided by the user.
    type Input;

    /// The output type. Some algorithms return an output exactly once, others return multiple
    /// times.
    type Output;

    /// The messages that need to be exchanged between the instances in the participating nodes.
    type Message: Debug;

    /// The errors that can occur during execution.
    type Error: Debug;

    /// The instance is in a state that its operations can leave it in.
    spec fn wf(&self) -> bool;

    /// The instance can take this input.
    spec fn admits_input(&self, input: Self::Input) -> bool;

    /// The instance can take this message.
    spec fn admits_message(&self, sender_id: Self::NodeUid, message: Self::Message) -> bool;

    /// The messages that need to be sent, in order.
    spec fn pending(&self) -> Seq<TargetedMessage<Self::Message, Self::NodeUid>>;

    /// The output that waits to be taken.
    spec fn pending_output(&self) -> Option<Self::Output>;

    /// The instance but for the messages that need to be sent.
    spec fn without_messages(&self) -> Self;

    /// The instance's own ID.
    spec fn id(&self) -> Self::NodeUid;

    /// Execution has completed.
    spec fn is_terminated(&self) -> bool;

    /// Handles an input provided by the user.
    fn input(&mut self, input: Self::Input) -> (r: Result<(), Self::Error>)
        requires
            old(self).wf(),
            old(self).admits_input(input),
        ensures
            final(self).wf(),
    ;

    /// Handles a message received from node `sender_id`.
    fn handle_message(&mut self, sender_id: &Self::NodeUid, message: Self::Message) -> (r: Result<
        (),
        Self::Error,
    >)
        requires
            old(self).wf(),
            old(self).admits_message(*sender_id, message),
        ensures
            final(self).wf(),
    ;

    /// Returns a message that needs to be sent to another node.
    fn next_message(&mut self) -> (r: Option<TargetedMessage<Self::Message, Self::NodeUid>>)
        requires
            old(self).wf(),
        ensures
            final(self).wf(),
            match r {
                Some(message) => old(self).pending().len() > 0 && message == old(self).pending()[0]
                    && final(self).pending() == old(self).pending().skip(1),
                None => old(self).pending().len() == 0 && final(self).pending()
                    == old(self).pending(),
            },
            final(self).without_messages() == old(self).without_messages(),
            final(self).pending_output() == old(self).pending_output(),
            final(self).id() == old(self).id(),
            final(self).is_terminated() == old(self).is_terminated(),
    ;

    /// Returns the algorithm's output.
    fn next_output(&mut self) -> (r: Option<Self::Output>)
        requires
            old(self).wf(),
        ensures
            final(self).wf(),
            r == old(self).pending_output(),
            final(self).pending_output() is None,
            final(self).pending() == old(self).pending(),
            final(self).id() == old(self).id(),
            final(self).is_terminated() == old(self).is_terminated(),
    ;

    /// Returns `true` if execution has completed and this instance can be dropped.
    fn terminated(&self) -> (r: bool)
        ensures
            r == self.is_terminated(),
    ;

    /// Returns this node's own ID.
    fn our_id(&self) -> (r: &Self::NodeUid)
        ensures
            *r == self.id(),
    ;

    /// Returns an iterator over the outgoing messages.
    fn message_iter(&mut self) -> (r: MessageIter<'_, Self>) where Self: Sized
        ensures
            *r.algorithm == *old(self),
            *final(self) == *final(r.algorithm),
    {
        MessageIter { algorithm: self }
    }
}

/// An iterator over a distributed algorithm's outgoing messages.
pub struct MessageIter<'a, D: DistAlgorithm> {
    pub algorithm: &'a mut D,
}

impl<'a, D: DistAlgorithm> MessageIter<'a, D> {
    /// Takes the next message off the algorithm's queue.
    pub fn next(&mut self) -> (r: Option<TargetedMessage<D::Message, D::NodeUid>>)
        requires
            old(self).algorithm.wf(),
        ensures
            final(self).algorithm.wf(),
            *final(final(self).algorithm) == *final(old(self).algorithm),
            match r {
                Some(message) => old(self).algorithm.pending().len() > 0 && message
                    == old(self).algorithm.pending()[0] && final(self).algorithm.pending()
                    == old(self).algorithm.pending().skip(1),
                None => old(self).algorithm.pending().len() == 0
                    && final(self).algorithm.pending() == old(self).algorithm.pending(),
            },
            final(self).algorithm.without_messages() == old(self).algorithm.without_messages(),
            final(self).algorithm.pending_output() == old(self).algorithm.pending_output(),
            final(self).algorithm.id() == old(self).algorithm.id(),
            final(self).algorithm.is_terminated() == old(self).algorithm.is_terminated(),
    {
        self.algorithm.next_message()
    }

    /// Takes all the messages off the algorithm's queue.
    pub fn collect(self) -> (r: Vec<TargetedMessage<D::Message, D::NodeUid>>)
        requires
            self.algorithm.wf(),
        ensures
            r@ == old(self.algorithm).pending(),
            final(self.algorithm).wf(),
            final(self.algorithm).pending().len() == 0,
            final(self.algorithm).without_messages() == old(self.algorithm).without_messages(),
            final(self.algorithm).pending_output() == old(self.algorithm).pending_output(),
            final(self.algorithm).id() == old(self.algorithm).id(),
            final(self.algorithm).is_terminated() == old(self.algorithm).is_terminated(),
    {
        let ghost start = *self.algorithm;
        let mut iter = self;
        let ghost end = *final(iter.algorithm);
        let mut messages: Vec<TargetedMessage<D::Message, D::NodeUid>> = Vec::new();
        assert(start.pending() =~= messages@ + start.pending());
        loop
            invariant
                iter.algorithm.wf(),
                *final(iter.algorithm) == end,
                start.pending() == messages@ + iter.algorithm.pending(),
                iter.algorithm.without_messages() == start.without_messages(),
                iter.algorithm.pending_output() == start.pending_output(),
                iter.algorithm.id() == start.id(),
                iter.algorithm.is_terminated() == start.is_terminated(),
            ensures
                iter.algorithm.pending().len() == 0,
            decreases iter.algorithm.pending().len(),
        {
            let ghost before = messages@;
            let ghost waiting = iter.algorithm.pending();
            match iter.next() {
                Some(message) => {
                    messages.push(message);
                    assert(before + waiting =~= messages@ + iter.algorithm.pending());
                },
                None => {
                    break;
                },
            }
        }
        assert(start.pending() =~= messages@);
        messages
    }
}

} // verus!
