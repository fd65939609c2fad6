//! Trusted declarations for the queues the two engines communicate over.
//!
//! The sample channels are the bounded single-producer/single-consumer ring
//! buffers of the `ringbuf` crate; the command queues are `std`'s mpsc
//! channels.  The other endpoint of each queue runs on another worker, so
//! nothing can be promised about what a pop returns: the contracts below
//! state only what holds of every outcome, and the verified engines take
//! each popped value as it comes.  What *can* be stated of the producer
//! half alone is named: the capacity the queue was made with (constant for
//! its life) and how many elements this half has pushed so far — fewer
//! lifetime pushes than the capacity guarantee room, since the consumer
//! only ever removes elements.
use vstd::prelude::*;
use crate::clock::Sample;

verus! {

#[verifier::external_type_specification]
#[verifier::external_body]
#[verifier::reject_recursive_types(T)]
pub struct ExProducer<T>(ringbuf::Producer<T>);

#[verifier::external_type_specification]
#[verifier::external_body]
#[verifier::reject_recursive_types(T)]
pub struct ExConsumer<T>(ringbuf::Consumer<T>);

#[verifier::external_type_specification]
#[verifier::external_body]
#[verifier::reject_recursive_types(T)]
pub struct ExReceiver<T>(std::sync::mpsc::Receiver<T>);

/// How many elements the bounded mixed-audio queue behind this producer
/// half was created to hold.
pub uninterp spec fn audio_queue_capacity(producer: ringbuf::Producer<i64>) -> nat;

/// How many elements have been pushed into the mixed-audio queue through
/// this producer half since the queue was made.
pub uninterp spec fn audio_queue_pushed(producer: ringbuf::Producer<i64>) -> nat;

/// How many elements the bounded clocked sample queue behind this producer
/// half was created to hold.
pub uninterp spec fn clock_queue_capacity(producer: ringbuf::Producer<Sample>) -> nat;

/// Relies on ringbuf::RingBuffer::new and ringbuf::RingBuffer::split: makes
/// a bounded single-producer/single-consumer queue of mixed-audio samples
/// with exactly the given capacity and hands out its two halves; nothing has
/// been pushed yet.
#[verifier::external_body]
pub(crate) fn make_audio_channel(capacity: usize) -> (r: (
    ringbuf::Producer<i64>,
    ringbuf::Consumer<i64>,
))
    requires
        capacity < usize::MAX,
    ensures
        audio_queue_capacity(r.0) == capacity,
        audio_queue_pushed(r.0) == 0,
{
    ringbuf::RingBuffer::<i64>::new(capacity).split()
}

/// Relies on ringbuf::RingBuffer::new and ringbuf::RingBuffer::split: makes
/// a bounded single-producer/single-consumer queue of clocked sample events
/// with exactly the given capacity and hands out its two halves.
#[verifier::external_body]
pub(crate) fn make_clock_channel(capacity: usize) -> (r: (
    ringbuf::Producer<Sample>,
    ringbuf::Consumer<Sample>,
))
    requires
        capacity < usize::MAX,
    ensures
        clock_queue_capacity(r.0) == capacity,
{
    ringbuf::RingBuffer::<Sample>::new(capacity).split()
}

/// Relies on ringbuf::Producer::push: appends the element when the queue
/// has room, or returns it back unchanged when the queue is full.  The
/// queue's capacity is constant, and it is full only when the elements
/// pushed and not yet taken fill that capacity; the consumer half only
/// removes elements, so a producer that has pushed fewer elements than the
/// capacity in its whole life always finds room, whatever the consumer has
/// done meanwhile.
#[verifier::external_body]
pub(crate) fn audio_push(producer: &mut ringbuf::Producer<i64>, value: i64) -> (r: Result<
    (),
    i64,
>)
    ensures
        audio_queue_capacity(*final(producer)) == audio_queue_capacity(*old(producer)),
        r is Ok ==> audio_queue_pushed(*final(producer)) == audio_queue_pushed(*old(producer))
            + 1,
        r matches Err(v) ==> v == value && audio_queue_pushed(*final(producer))
            == audio_queue_pushed(*old(producer)),
        audio_queue_pushed(*old(producer)) < audio_queue_capacity(*old(producer)) ==> r is Ok,
{
    producer.push(value)
}

/// Relies on ringbuf::Producer::push: hands the element to the consumer
/// half, or returns it back unchanged when the queue is full.
#[verifier::external_body]
pub(crate) fn channel_push<T>(producer: &mut ringbuf::Producer<T>, value: T) -> (r: Result<
    (),
    T,
>)
    ensures
        r matches Err(v) ==> v == value,
{
    producer.push(value)
}

/// Relies on ringbuf::Consumer::pop: takes the oldest queued element, if the
/// queue currently holds one.  What comes out depends on the producer half,
/// which runs on another worker, so nothing is stated about the value.
#[verifier::external_body]
pub(crate) fn channel_pop<T>(consumer: &mut ringbuf::Consumer<T>) -> (r: Option<T>) {
    consumer.pop()
}

/// Relies on std::sync::mpsc::Receiver::try_recv: takes one pending command
/// without blocking; yields nothing when the queue is empty or the sender is
/// gone.
#[verifier::external_body]
pub(crate) fn poll_receiver<T>(receiver: &std::sync::mpsc::Receiver<T>) -> (r: Option<T>) {
    match receiver.try_recv() {
        Ok(message) => Some(message),
        Err(_) => None,
    }
}

} // verus!
