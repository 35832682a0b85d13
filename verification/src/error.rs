//! Errors reported while configuring, training or using the model.

use vstd::prelude::*;
use crate::pattern::regex_error_text;
use crate::text::{debug_text, decimal, push_str, str_debug, u32_text};
use crate::types::{TokenId, BASE_VOCAB_SIZE};

verus! {

/// Errors that can occur while constructing or running a [`crate::bpe::BPE`].
#[derive(Debug)]
pub enum BPEError {
    /// The caller supplied an invalid regex for splitting documents into chunks.
    InvalidSplitRegex(fancy_regex::Error),
    /// A special token attempted to reuse an id reserved for raw byte values.
    SpecialTokenIdOverlapsBaseVocab { token: String, token_id: TokenId },
    /// Two different special tokens were assigned the same token id.
    DuplicateSpecialTokenId { token_id: TokenId },
    /// A split regex failed while searching a document.
    RegexEvaluation(fancy_regex::Error),
    /// A chunk or pair count does not fit the `u32` counters.
    CountOverflow,
}

impl BPEError {
    /// Human-readable description of the error.
    pub fn message(&self) -> (r: String)
        ensures
            self matches BPEError::InvalidSplitRegex(_) ==> "invalid split regex: "@.is_prefix_of(r@),
            self matches BPEError::SpecialTokenIdOverlapsBaseVocab { token, token_id } ==>
                r@ == "special token "@ + str_debug(token@) + " uses reserved token id "@ + decimal(token_id as nat)
                    + "; special token ids must be >= "@ + decimal(BASE_VOCAB_SIZE as nat),
            self matches BPEError::DuplicateSpecialTokenId { token_id } ==>
                r@ == "special token id "@ + decimal(token_id as nat) + " is assigned more than once"@,
            self matches BPEError::RegexEvaluation(_) ==> "split regex evaluation failed: "@.is_prefix_of(r@),
            self matches BPEError::CountOverflow ==> r@ == "chunk or pair counts exceed the u32 range"@,
    {
        let mut s = String::new();
        match self {
            BPEError::InvalidSplitRegex(err) => {
                push_str(&mut s, "invalid split regex: ");
                let ghost head = s@;
                push_str(&mut s, regex_error_text(err).as_str());
                proof {
                    assert(s@.take(head.len() as int) =~= head);
                }
            },
            BPEError::SpecialTokenIdOverlapsBaseVocab { token, token_id } => {
                push_str(&mut s, "special token ");
                push_str(&mut s, debug_text(token.as_str()).as_str());
                push_str(&mut s, " uses reserved token id ");
                push_str(&mut s, u32_text(*token_id).as_str());
                push_str(&mut s, "; special token ids must be >= ");
                push_str(&mut s, u32_text(BASE_VOCAB_SIZE).as_str());
            },
            BPEError::DuplicateSpecialTokenId { token_id } => {
                push_str(&mut s, "special token id ");
                push_str(&mut s, u32_text(*token_id).as_str());
                push_str(&mut s, " is assigned more than once");
            },
            BPEError::RegexEvaluation(err) => {
                push_str(&mut s, "split regex evaluation failed: ");
                let ghost head = s@;
                push_str(&mut s, regex_error_text(err).as_str());
                proof {
                    assert(s@.take(head.len() as int) =~= head);
                }
            },
            BPEError::CountOverflow => {
                push_str(&mut s, "chunk or pair counts exceed the u32 range");
            },
        }
        s
    }
}

impl From<fancy_regex::Error> for BPEError {
    /// An invalid pattern reported by the regex engine.
    fn from(value: fancy_regex::Error) -> (r: Self) {
        BPEError::InvalidSplitRegex(value)
    }
}

impl vstd::std_specs::convert::FromSpecImpl<fancy_regex::Error> for BPEError {
    open spec fn obeys_from_spec() -> bool {
        true
    }

    open spec fn from_spec(v: fancy_regex::Error) -> BPEError {
        BPEError::InvalidSplitRegex(v)
    }
}

} // verus!
