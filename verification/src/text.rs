//! The text of the library's messages: how numbers are written in them.

use vstd::prelude::*;

verus! {

/// The character of one decimal digit.
pub open spec fn digit_char(d: nat) -> char {
    seq!['0', '1', '2', '3', '4', '5', '6', '7', '8', '9'][d as int]
}

/// `n` written in decimal, most significant digit first, without leading
/// zeros: how `{}` and `{:?}` write an unsigned integer.
pub open spec fn decimal(n: nat) -> Seq<char>
    decreases n,
{
    if n < 10 {
        seq![digit_char(n)]
    } else {
        decimal(n / 10).push(digit_char(n % 10))
    }
}

/// `true` when `phrase` occurs somewhere in `text`.
pub open spec fn contains_text(text: Seq<char>, phrase: Seq<char>) -> bool {
    exists|i: int| 0 <= i <= text.len() - phrase.len() && #[trigger] text.subrange(i, i + phrase.len()) == phrase
}

} // verus!
