//! Host-side input building.

use crate::text::{hex_lines, hex_lines_text};
use crate::wire::{frame, frame_words_from_bytes, WireError};
use vstd::prelude::*;

verus! {

/// Framed input words, built on the host and sent to the guest.
#[derive(Clone, Debug)]
pub struct Inputs {
    words: Vec<u32>,
}

impl View for Inputs {
    type V = Seq<u32>;

    /// The framed words collected so far.
    closed spec fn view(&self) -> Seq<u32> {
        self.words@
    }
}

impl Inputs {
    /// Creates an empty input builder.
    pub fn new() -> (inputs: Self)
        ensures
            inputs@ == Seq::<u32>::empty(),
    {
        Inputs { words: Vec::new() }
    }

    /// Appends raw bytes as a framed input payload.
    ///
    /// On error nothing is appended.
    pub fn push_bytes(&mut self, bytes: &[u8]) -> (res: Result<(), WireError>)
        ensures
            bytes@.len() <= u32::MAX ==> res is Ok && final(self)@ == old(self)@ + frame(bytes@),
            bytes@.len() > u32::MAX ==> res == Err::<(), WireError>(
                WireError::PayloadTooLarge { len: bytes@.len() as usize },
            ) && final(self)@ == old(self)@,
    {
        let mut words = match frame_words_from_bytes(bytes) {
            Ok(words) => words,
            Err(e) => return Err(e),
        };
        self.words.append(&mut words);
        Ok(())
    }

    /// The framed input words.
    pub fn words(&self) -> (words: &[u32])
        ensures
            words@ == self@,
    {
        self.words.as_slice()
    }

    /// The input words as text: eight lower-case hex digits per word, one word per line.
    pub fn hex_text(&self) -> (text: String)
        ensures
            text@ == hex_lines(self@),
    {
        hex_lines_text(self.words.as_slice())
    }
}

impl Default for Inputs {
    fn default() -> (inputs: Self)
        ensures
            inputs@ == Seq::<u32>::empty(),
    {
        Inputs::new()
    }
}

} // verus!
