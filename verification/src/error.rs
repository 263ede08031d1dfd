use vstd::prelude::*;

verus! {

/// What can go wrong while reading a stream.
#[derive(Clone, Copy, Debug, PartialEq, Eq, Structural)]
pub enum BrotliError {
    /// A read or peek asked for more bits than the stream still holds.
    NotEnoughBits,
    /// Moving the position forward would leave the stream.
    IncreasePosError,
    /// Moving the position back would pass the start of the stream.
    DecreasePosError,
    /// The bits do not spell any code of the tree in use.
    HuffmanTreeNotMatch,
    /// The decoded code lengths do not fill the code space exactly, or do
    /// not fit the alphabet.
    CorruptHistogram,
}

impl BrotliError {
    /// The text that describes each error.
    pub open spec fn text(self) -> Seq<char> {
        match self {
            BrotliError::NotEnoughBits => "Not enough bits to read"@,
            BrotliError::IncreasePosError => "UpdatePosError"@,
            BrotliError::DecreasePosError => "DecreasePosError"@,
            BrotliError::HuffmanTreeNotMatch => "Huffman tree does not match the bit stream"@,
            BrotliError::CorruptHistogram => "Corrupted Huffman code histogram"@,
        }
    }

    /// A description of the error for people to read.
    pub fn message(&self) -> (r: String)
        ensures
            r@ == self.text(),
    {
        match self {
            BrotliError::NotEnoughBits => "Not enough bits to read".to_owned(),
            BrotliError::IncreasePosError => "UpdatePosError".to_owned(),
            BrotliError::DecreasePosError => "DecreasePosError".to_owned(),
            BrotliError::HuffmanTreeNotMatch => "Huffman tree does not match the bit stream"
                .to_owned(),
            BrotliError::CorruptHistogram => "Corrupted Huffman code histogram".to_owned(),
        }
    }
}

} // verus!
