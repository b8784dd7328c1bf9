//! Vocabulary metadata and special-token kinds.

use vstd::prelude::*;

verus! {

/// The compact on-disk subset of the vocabulary record.
#[derive(Clone, Copy, Debug, PartialEq, Eq, Structural)]
pub struct BinTokRxInfo {
    pub vocab_size: u32,
    pub tok_eos: u32,
}

/// An immutable vocabulary record: size plus the well-known token ids.
#[derive(Clone, Copy, Debug)]
pub struct TokRxInfo {
    pub vocab_size: u32,
    pub tok_eos: u32,
    pub tok_bos: Option<u32>,
    pub tok_pad: Option<u32>,
    pub tok_unk: Option<u32>,
    pub tok_end_of_turn: Option<u32>,
}

impl TokRxInfo {
    /// A record with only size and end-of-sentence set; the rest absent.
    pub fn new(vocab_size: u32, tok_eos: u32) -> (r: TokRxInfo)
        ensures
            r.vocab_size == vocab_size,
            r.tok_eos == tok_eos,
            r.tok_bos is None,
            r.tok_pad is None,
            r.tok_unk is None,
            r.tok_end_of_turn is None,
    {
        TokRxInfo {
            vocab_size,
            tok_eos,
            tok_bos: None,
            tok_pad: None,
            tok_unk: None,
            tok_end_of_turn: None,
        }
    }

    /// Reconstruct a full record from the on-disk subset: the optional
    /// token ids come back absent.
    pub fn from_bin(info: &BinTokRxInfo) -> (r: TokRxInfo)
        ensures
            r.vocab_size == info.vocab_size,
            r.tok_eos == info.tok_eos,
            r.tok_bos is None,
            r.tok_pad is None,
            r.tok_unk is None,
            r.tok_end_of_turn is None,
    {
        TokRxInfo {
            vocab_size: info.vocab_size,
            tok_eos: info.tok_eos,
            tok_bos: None,
            tok_pad: None,
            tok_unk: None,
            tok_end_of_turn: None,
        }
    }

    /// The on-disk subset of this record.
    pub fn to_bin(&self) -> (r: BinTokRxInfo)
        ensures
            r.vocab_size == self.vocab_size,
            r.tok_eos == self.tok_eos,
    {
        BinTokRxInfo { vocab_size: self.vocab_size, tok_eos: self.tok_eos }
    }
}

/// The special tokens a recognizer can be asked about.
#[derive(Clone, Copy, Debug, PartialEq, Eq, Hash, Structural)]
pub enum SpecialToken {
    Unknown,
    Padding,
    Separator,
    BeginningOfSentence,
    EndOfSentence,
    EndOfTurn,
}

} // verus!
