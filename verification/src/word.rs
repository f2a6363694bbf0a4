//! A dictionary word held as text.

use vstd::prelude::*;
use vstd::string::StringSliceAdditionalSpecFns;
use vstd::utf8::encode_utf8;

verus! {

/// A word of text; its length and its bytes are those of its UTF-8 encoding.
#[derive(Clone, Debug)]
pub struct Word(pub String);

impl Word {
    /// The UTF-8 encoding of the word.
    pub open spec fn bytes(&self) -> Seq<u8> {
        encode_utf8(self.0@)
    }

    /// The word with the text `data`.
    pub fn new(data: String) -> (word: Word)
        ensures
            word.0 == data,
    {
        let tmp = data.clone();
        Word(tmp)
    }

    /// The number of bytes of the word's encoding.
    pub fn len(&self) -> (n: usize)
        ensures
            n == self.bytes().len(),
    {
        self.0.as_str().as_bytes().len()
    }

    /// The bytes of the word's encoding.
    pub fn as_bytes(&self) -> (bytes: &[u8])
        ensures
            bytes@ == self.bytes(),
    {
        self.0.as_str().as_bytes()
    }
}

impl Default for Word {
    /// The empty word.
    fn default() -> (word: Word)
        ensures
            word.0@ == Seq::<char>::empty(),
    {
        Word(String::new())
    }
}

} // verus!
