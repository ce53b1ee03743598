//! The text of a token: the piece of the input that it covers.

use vstd::prelude::*;
use vstd::utf8::{encode_utf8, is_char_boundary};
use crate::chars::lemma_boundary_before;
use crate::grammar::Token;

verus! {

broadcast use vstd::utf8::group_utf8_lib;

/// The token covers a piece of `input`: it does not end before it starts, and both of
/// its ends are boundaries of characters.
pub open spec fn covers(token: Token, input: Seq<char>) -> bool {
    &&& token.start <= token.end
    &&& is_char_boundary(encode_utf8(input), token.start as int)
    &&& is_char_boundary(encode_utf8(input), token.end as int)
}

impl Token {
    /// The piece of `input` that the token covers, and `None` where it covers none.
    pub fn text<'a>(&self, input: &'a str) -> (text: Option<&'a str>)
        ensures
            match text {
                Some(piece) => covers(*self, input@) && encode_utf8(piece@) == encode_utf8(
                    input@,
                ).subrange(self.start as int, self.end as int),
                None => !covers(*self, input@),
            },
    {
        if self.start <= self.end && input.is_char_boundary(self.start) && input.is_char_boundary(
            self.end,
        ) {
            proof {
                lemma_boundary_before(encode_utf8(input@), self.start as int, self.end as int);
            }
            let (head, _) = input.split_at(self.end);
            let (_, piece) = head.split_at(self.start);
            assert(encode_utf8(piece@) =~= encode_utf8(input@).subrange(
                self.start as int,
                self.end as int,
            ));
            Some(piece)
        } else {
            None
        }
    }
}

} // verus!
