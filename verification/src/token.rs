//! Tokens: a kind, the text it covers and the position where that text begins.

use vstd::prelude::*;
use crate::pos::Pos;

verus! {

/// What a scan can fail with.
#[derive(Clone, Copy, Debug, PartialEq, Eq, Structural)]
pub enum ScanError {
    /// A forward read past the end of the source.
    EndOfInput,
    /// The source could not produce a character.
    DecodeError,
    /// A step back with nothing read since the last emission.
    BackBufferUnderflow,
    /// The consumer of the tokens is gone.
    ChannelClosed,
    /// A step back over a line break.
    LineBoundary,
    /// The state machine names no transition to start with.
    NoStartState,
}

/// A classified, positioned piece of the input.
#[derive(Debug)]
pub struct Token<T> {
    pub position: Pos,
    pub kind: T,
    pub text: String,
}

/// A token as contracts see it: its text is a sequence of characters.
pub struct TokenView<T> {
    pub position: Pos,
    pub kind: T,
    pub text: Seq<char>,
}

impl<T> View for Token<T> {
    type V = TokenView<T>;

    open spec fn view(&self) -> TokenView<T> {
        TokenView { position: self.position, kind: self.kind, text: self.text@ }
    }
}

/// The texts of `tokens`, joined in order.
pub open spec fn joined_text<T>(tokens: Seq<TokenView<T>>) -> Seq<char>
    decreases tokens.len(),
{
    if tokens.len() == 0 {
        Seq::empty()
    } else {
        joined_text(tokens.drop_last()) + tokens.last().text
    }
}

/// Appends one character to a string.
///
/// Wraps `String::push`, which appends the given character to the end of the
/// string and changes nothing else.
#[verifier::external_body]
pub(crate) fn push_char(s: &mut String, c: char)
    ensures
        final(s)@ == old(s)@.push(c),
{
    s.push(c)
}

/// The string that holds exactly the characters of `chars`, in order.
pub fn string_of(chars: &Vec<char>) -> (s: String)
    ensures
        s@ == chars@,
{
    let mut s = String::new();
    let mut i: usize = 0;
    while i < chars.len()
        invariant
            i <= chars.len(),
            s@ == chars@.take(i as int),
        decreases chars.len() - i,
    {
        push_char(&mut s, chars[i]);
        i += 1;
    }
    s
}

impl<T> Token<T> {
    /// A token of kind `kind` that covers `text` and begins at `position`.
    pub fn new(position: Pos, kind: T, text: &Vec<char>) -> (t: Token<T>)
        ensures
            t@ == (TokenView { position, kind, text: text@ }),
    {
        Token { position, kind, text: string_of(text) }
    }
}

} // verus!
