//! A first-in first-out queue of frames, and the frame records it holds.

use std::collections::VecDeque;
use vstd::prelude::*;

verus! {

/// Frame bytes with a timestamp in milliseconds.
pub struct Frame {
    pub data: Vec<u8>,
    pub timestamp: u64,
}

impl Frame {
    pub fn new(data: Vec<u8>, timestamp: u64) -> (r: Self)
        ensures
            r.data@ == data@,
            r.timestamp == timestamp,
    {
        Frame { data, timestamp }
    }
}

/// A decoded video frame with a timestamp in milliseconds.
pub struct VideoFrame {
    pub data: Vec<u8>,
    pub timestamp: u64,
}

impl VideoFrame {
    pub fn new(data: Vec<u8>, timestamp: u64) -> (r: Self)
        ensures
            r.data@ == data@,
            r.timestamp == timestamp,
    {
        VideoFrame { data, timestamp }
    }
}

/// An encoded frame (graphics escape sequence) with a timestamp in milliseconds.
pub struct KittyFrame {
    pub data: Vec<u8>,
    pub timestamp: u64,
}

impl KittyFrame {
    pub fn new(data: Vec<u8>, timestamp: u64) -> (r: Self)
        ensures
            r.data@ == data@,
            r.timestamp == timestamp,
    {
        KittyFrame { data, timestamp }
    }
}

/// Frames waiting to be consumed, oldest first.
pub struct RingBuffer<T> {
    frames: VecDeque<T>,
}

impl<T> View for RingBuffer<T> {
    type V = Seq<T>;

    closed spec fn view(&self) -> Seq<T> {
        self.frames@
    }
}

impl<T> RingBuffer<T> {
    /// An empty queue.
    pub fn new() -> (r: Self)
        ensures
            r@ == Seq::<T>::empty(),
    {
        RingBuffer { frames: VecDeque::new() }
    }

    /// Adds a frame after all the others.
    pub fn push_frame(&mut self, frame: T)
        ensures
            final(self)@ == old(self)@.push(frame),
    {
        self.frames.push_back(frame);
    }

    /// Takes the oldest frame out, if there is one.
    pub fn get_frame(&mut self) -> (r: Option<T>)
        ensures
            old(self)@.len() == 0 ==> r is None && final(self)@ == old(self)@,
            old(self)@.len() > 0 ==> r == Some(old(self)@[0]) && final(self)@ == old(self)@.drop_first(),
    {
        self.frames.pop_front()
    }

    /// The number of frames waiting.
    pub fn len(&self) -> (r: usize)
        ensures
            r == self@.len(),
    {
        self.frames.len()
    }
}

} // verus!
