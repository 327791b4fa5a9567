//! Trusted declarations for the worker pool and the result channel. The
//! `threadpool` crate runs the workers; a multi-producer channel from
//! `std::sync::mpsc` carries each partial result back to the orchestrator
//! in completion order.
//!
//! The channel endpoints are wrapped in [`PartSender`] and
//! [`PartReceiver`], which carry, as ghost state fixed when the pair is
//! created, the input sequence and mapping function the messages are
//! about. Sending demands that the message be a believable partial result
//! for that context ([`part_ok`]); receiving yields only such messages.
//! The receive contract is the one trusted step, and it rests on what
//! std's documentation states of mpsc: a receiver yields exactly the
//! values that senders of the same channel sent. Both raw endpoints stay
//! private to this module, the only way to obtain a sender for a given
//! receiver is [`part_channel`] or [`PartSender::dup`] — both of which
//! preserve the shared context — and the only way to send is
//! [`PartSender::send`], which requires the invariant.

use vstd::prelude::*;

use crate::model::part_ok;

verus! {

#[verifier::external_type_specification]
#[verifier::external_body]
pub struct ExThreadPool(threadpool::ThreadPool);

#[verifier::external_type_specification]
#[verifier::external_body]
#[verifier::reject_recursive_types(T)]
pub struct ExSender<T>(std::sync::mpsc::Sender<T>);

#[verifier::external_type_specification]
#[verifier::external_body]
#[verifier::reject_recursive_types(T)]
pub struct ExReceiver<T>(std::sync::mpsc::Receiver<T>);

/// Relies on threadpool::ThreadPool::new: a pool running `n` worker
/// threads. It panics when `n` is zero, so that is required away.
#[verifier::external_body]
pub(crate) fn pool_new(n: usize) -> threadpool::ThreadPool
    requires
        1 <= n,
{
    threadpool::ThreadPool::new(n)
}

/// Relies on threadpool::ThreadPool::execute: queues the job for one of
/// the pool's worker threads to call once.
#[verifier::external_body]
pub(crate) fn pool_execute<F>(pool: &threadpool::ThreadPool, job: F) where
    F: FnOnce() + Send + 'static,

    requires
        job.requires(()),
{
    pool.execute(job)
}

/// Relies on std::sync::mpsc::channel: an asynchronous channel, returned
/// as a connected sender/receiver pair.
#[verifier::external_body]
fn channel_new<M>() -> (std::sync::mpsc::Sender<M>, std::sync::mpsc::Receiver<M>) {
    std::sync::mpsc::channel()
}

/// Relies on std::sync::mpsc::Sender::clone: another sender feeding the
/// same receiver.
#[verifier::external_body]
fn sender_clone<M>(tx: &std::sync::mpsc::Sender<M>) -> std::sync::mpsc::Sender<M> {
    tx.clone()
}

/// Relies on std::mem::drop: consumes the orchestrator's own sender, so
/// that the channel closes once the last worker is done.
#[verifier::external_body]
fn drop_raw_sender<M>(tx: std::sync::mpsc::Sender<M>) {
    std::mem::drop(tx)
}

/// The sending half of a result channel, pinned to the input sequence and
/// mapping function its messages are about.
#[verifier::reject_recursive_types(R)]
pub struct PartSender<T, R, F: Fn(T) -> R> {
    tx: std::sync::mpsc::Sender<(usize, Vec<R>)>,
    ctx: Ghost<(Seq<T>, F)>,
}

/// The receiving half of a result channel, pinned to the same context as
/// its senders.
#[verifier::reject_recursive_types(R)]
pub struct PartReceiver<T, R, F: Fn(T) -> R> {
    rx: std::sync::mpsc::Receiver<(usize, Vec<R>)>,
    ctx: Ghost<(Seq<T>, F)>,
}

/// A result channel whose messages are pinned to `ctx`: its senders only
/// accept partial results believable for `ctx`, so its receiver only
/// yields such.
pub(crate) fn part_channel<T, R, F: Fn(T) -> R>(ctx: Ghost<(Seq<T>, F)>) -> (r: (
    PartSender<T, R, F>,
    PartReceiver<T, R, F>,
))
    ensures
        r.0.data() == ctx@.0,
        r.0.func() == ctx@.1,
        r.1.data() == ctx@.0,
        r.1.func() == ctx@.1,
{
    let (tx, rx) = channel_new::<(usize, Vec<R>)>();
    (PartSender { tx, ctx }, PartReceiver { rx, ctx })
}

impl<T, R, F: Fn(T) -> R> PartSender<T, R, F> {
    /// The input sequence this channel's messages are about.
    pub closed spec fn data(&self) -> Seq<T> {
        self.ctx@.0
    }

    /// The mapping function this channel's messages are about.
    pub closed spec fn func(&self) -> F {
        self.ctx@.1
    }

    /// Another sender for the same channel, carrying the same context.
    pub(crate) fn dup(&self) -> (r: Self)
        ensures
            r.data() == self.data(),
            r.func() == self.func(),
    {
        PartSender { tx: sender_clone(&self.tx), ctx: self.ctx }
    }

    /// Relies on std::sync::mpsc::Sender::send: delivers the value to the
    /// receiver, unless the receiver has disconnected, in which case the
    /// value is dropped. Only believable partial results may be sent.
    #[verifier::external_body]
    pub(crate) fn send(&self, m: (usize, Vec<R>))
        requires
            part_ok(self.data(), self.func(), m),
    {
        let _ = self.tx.send(m);
    }

    /// Consume this sender, so the channel closes once every worker's own
    /// sender is gone.
    pub(crate) fn discard(self) {
        let PartSender { tx, ctx: _ } = self;
        drop_raw_sender(tx);
    }
}

impl<T, R, F: Fn(T) -> R> PartReceiver<T, R, F> {
    /// The input sequence this channel's messages are about.
    pub closed spec fn data(&self) -> Seq<T> {
        self.ctx@.0
    }

    /// The mapping function this channel's messages are about.
    pub closed spec fn func(&self) -> F {
        self.ctx@.1
    }

    /// Relies on std::sync::mpsc::Receiver::recv: blocks for the next
    /// value, and returns `None` once every sender is gone and the channel
    /// is drained. A received value is one that a sender of this same
    /// channel sent — that is the documented mpsc guarantee — and every
    /// sender of this channel is a [`PartSender`] with this context, whose
    /// `send` demands [`part_ok`] of the message.
    #[verifier::external_body]
    pub(crate) fn recv(&self) -> (r: Option<(usize, Vec<R>)>)
        ensures
            r matches Some(m) ==> part_ok(self.data(), self.func(), m),
    {
        self.rx.recv().ok()
    }
}

} // verus!
