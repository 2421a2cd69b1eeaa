//! Single-producer, single-consumer event channel for live parameter
//! updates, over a lock-free ring buffer. The sending half lives on a
//! control thread and the receiving half on the audio thread, so what the
//! ring holds at any moment depends on both; the contracts here state what
//! holds whatever the other side did.

use vstd::prelude::*;

verus! {

#[verifier::external_type_specification]
#[verifier::external_body]
#[verifier::reject_recursive_types(T)]
pub struct ExProducer<T>(rtrb::Producer<T>);

#[verifier::external_type_specification]
#[verifier::external_body]
#[verifier::reject_recursive_types(T)]
pub struct ExConsumer<T>(rtrb::Consumer<T>);

/// `rtrb::RingBuffer::new`: a fresh ring of `capacity` slots, split into
/// its two halves. It allocates the slots with `Vec::with_capacity`, which
/// panics when they would take more than `isize::MAX` bytes, and the
/// ring's position arithmetic computes `2 * capacity` on every push; the
/// contract leaves out the capacities at which either would overflow.
#[verifier::external_body]
fn ring_buffer_new<T>(capacity: usize) -> (r: (rtrb::Producer<T>, rtrb::Consumer<T>))
    requires
        capacity * vstd::layout::size_of::<T>() <= isize::MAX,
        capacity <= usize::MAX / 2,
{
    rtrb::RingBuffer::new(capacity)
}

/// `rtrb::Producer::push`: writes `value` into a free slot, or hands it
/// back unchanged when the ring is full. Whether a slot is free depends on
/// how far the consumer has read, so the contract does not say which
/// outcome comes.
#[verifier::external_body]
fn producer_push<T>(producer: &mut rtrb::Producer<T>, value: T) -> (r: Result<(), T>)
    ensures
        r matches Err(v) ==> v == value,
{
    match producer.push(value) {
        Ok(()) => Ok(()),
        Err(rtrb::PushError::Full(v)) => Err(v),
    }
}

/// `rtrb::Producer::slots`: the number of free slots. The consumer may free
/// more at any time, so nothing is stated of the number.
#[verifier::external_body]
fn producer_slots<T>(producer: &rtrb::Producer<T>) -> usize {
    producer.slots()
}

/// `rtrb::Consumer::pop`: the oldest item not yet read, or nothing when the
/// ring is empty. What is in the ring depends on the producer's thread, so
/// nothing is stated of the result.
#[verifier::external_body]
fn consumer_pop<T>(consumer: &mut rtrb::Consumer<T>) -> Option<T> {
    consumer.pop().ok()
}

/// An event sent to a synthesizer on the audio thread; `T` is the sparse
/// parameter update it carries.
#[derive(Clone, Copy, Debug)]
pub enum SynthEvent<T> {
    /// Sparse parameter update with a linear ramp.
    SetTarget { target: T, transition_samples: u32 },
}

/// Sending half of the event channel.
#[verifier::reject_recursive_types(T)]
pub struct EventSender<T> {
    producer: rtrb::Producer<T>,
}

/// Receiving half of the event channel.
#[verifier::reject_recursive_types(T)]
pub struct EventReceiver<T> {
    consumer: rtrb::Consumer<T>,
}

impl<T> EventSender<T> {
    /// Try to send an event. Returns `Err(event)`, the event given back
    /// unchanged, if the ring is full.
    pub fn try_send(&mut self, event: T) -> (r: Result<(), T>)
        ensures
            r matches Err(v) ==> v == event,
    {
        producer_push(&mut self.producer, event)
    }

    /// The number of events that can be sent before the ring is full; the
    /// receiver may free more at any time.
    pub fn slots_free(&self) -> usize {
        producer_slots(&self.producer)
    }
}

impl<T> EventReceiver<T> {
    /// The oldest event not yet received, or `None` when none is pending.
    pub fn try_recv(&mut self) -> Option<T> {
        consumer_pop(&mut self.consumer)
    }
}

/// Paired sender/receiver with the given capacity in events. The capacity
/// is bounded by the memory its slots take and by the ring's position
/// arithmetic, which counts up to twice the capacity.
pub fn event_channel<T>(capacity: usize) -> (EventSender<T>, EventReceiver<T>)
    requires
        capacity * vstd::layout::size_of::<T>() <= isize::MAX,
        capacity <= usize::MAX / 2,
{
    let (producer, consumer) = ring_buffer_new(capacity);
    (EventSender { producer }, EventReceiver { consumer })
}

} // verus!
