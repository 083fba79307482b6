//! The decisions of a buffer that folds the items waiting in a channel into
//! one. The buffer holds at most one item. Whoever drives it looks at the
//! channel, receives, runs the merge function and hands items on; the buffer
//! says what to do next.

use vstd::prelude::*;

verus! {

/// What the driver of a buffer does next.
#[derive(Debug)]
pub enum Step<T> {
    /// Nothing is held and nothing waits in the channel: wait for the
    /// channel.
    Wait,
    /// Nothing waits in the channel: hand this item on.
    Emit(T),
    /// An item waits in the channel: receive it and offer it to the buffer.
    Receive,
}

/// What became of an item that was offered to a buffer.
#[derive(Debug)]
pub enum Offer<T> {
    /// The buffer was empty and holds the item now.
    Held,
    /// The buffer held an item. It hands out that item and the offered one,
    /// in this order, for the merge function to fold the second into the
    /// first.
    Merge(T, T),
}

/// A buffer of at most one item in which received items are folded.
#[derive(Debug)]
pub struct MergeBuffer<T> {
    held: Option<T>,
}

impl<T> MergeBuffer<T> {
    /// The item that the buffer holds.
    pub closed spec fn held(&self) -> Option<T> {
        self.held
    }

    /// A buffer that holds nothing.
    pub fn new() -> (buffer: MergeBuffer<T>)
        ensures
            buffer.held() is None,
    {
        MergeBuffer { held: None }
    }

    /// Decides what to do next. While an item waits in the channel it is to
    /// be received. Once the channel is empty the held item is handed on, and
    /// with nothing held there is nothing to do but to wait.
    pub fn step(&mut self, channel_is_empty: bool) -> (step: Step<T>)
        ensures
            !channel_is_empty ==> step is Receive && final(self).held() == old(self).held(),
            channel_is_empty ==> final(self).held() is None && match old(self).held() {
                Some(item) => step == Step::Emit(item),
                None => step is Wait,
            },
    {
        if !channel_is_empty {
            return Step::Receive;
        }
        let mut held: Option<T> = None;
        std::mem::swap(&mut self.held, &mut held);
        match held {
            Some(item) => Step::Emit(item),
            None => Step::Wait,
        }
    }

    /// Takes a received item. An empty buffer keeps it. A buffer that holds
    /// an item hands out both, and holds nothing until `settle` is called.
    pub fn offer(&mut self, item: T) -> (offer: Offer<T>)
        ensures
            match old(self).held() {
                Some(held) => offer == Offer::Merge(held, item) && final(self).held() is None,
                None => offer is Held && final(self).held() == Some(item),
            },
    {
        let mut held: Option<T> = None;
        std::mem::swap(&mut self.held, &mut held);
        match held {
            Some(held) => Offer::Merge(held, item),
            None => {
                self.held = Some(item);
                Offer::Held
            },
        }
    }

    /// Takes back the two items that `offer` handed out, after the merge
    /// function ran on them. If it folded `item` into `held`, the buffer
    /// holds `held` again. If it refused, `held` is handed on and the buffer
    /// holds `item`.
    pub fn settle(&mut self, held: T, item: T, merged: bool) -> (emitted: Option<T>)
        ensures
            merged ==> emitted is None && final(self).held() == Some(held),
            !merged ==> emitted == Some(held) && final(self).held() == Some(item),
    {
        if merged {
            self.held = Some(held);
            None
        } else {
            self.held = Some(item);
            Some(held)
        }
    }
}

} // verus!
