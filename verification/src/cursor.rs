//! The backtracking cursor as transitions see it: a mathematical model of its
//! state, what each operation does to that state, and the trait that offers
//! the operations.

use vstd::prelude::*;
use crate::pos::{lemma_advance, lemma_advance_all, Pos};
use crate::token::{joined_text, ScanError, TokenView};

verus! {

/// Everything a scan has done so far and has yet to do.
pub struct ScanState<T> {
    /// The characters that the source holds, from its start.
    pub input: Seq<char>,
    /// Whether the source fails to decode after `input`, rather than ending.
    pub broken: bool,
    /// How many characters have been pulled from the source.
    pub read: nat,
    /// Characters read and then stepped back over; the last one is replayed first.
    pub backbuf: Seq<char>,
    /// Characters read since the last emission.
    pub unemitted: Seq<char>,
    /// The current position.
    pub pos: Pos,
    /// The position where the unemitted characters begin.
    pub start: Pos,
    /// The tokens delivered so far, in the order of their emission.
    pub sent: Seq<TokenView<T>>,
    /// Whether the consumer still takes tokens.
    pub open: bool,
    /// How many of the delivered tokens the consumer has collected.
    pub taken: nat,
}

impl<T> ScanState<T> {
    /// The state of a scan of `input` before anything is read.
    pub open spec fn initial(input: Seq<char>, broken: bool) -> ScanState<T> {
        ScanState {
            input,
            broken,
            read: 0,
            backbuf: Seq::empty(),
            unemitted: Seq::empty(),
            pos: Pos::origin(),
            start: Pos::origin(),
            sent: Seq::empty(),
            open: true,
            taken: 0,
        }
    }

    /// What holds of every state that a scan can reach.
    pub open spec fn inv(self) -> bool {
        &&& self.read <= self.input.len() <= u64::MAX
        &&& self.start.wf()
        &&& self.start == Pos::origin().advance_all(self.input.take(self.start.offset as int))
        &&& self.pos == self.start.advance_all(self.unemitted)
        &&& self.start.offset + self.unemitted.len() + self.backbuf.len() == self.read
        &&& forall|i: int|
            0 <= i < self.unemitted.len() ==> self.unemitted[i] == self.input[self.start.offset
                + i]
        &&& forall|j: int|
            0 <= j < self.backbuf.len() ==> self.backbuf[j] == self.input[self.read - 1 - j]
        &&& joined_text(self.sent).len() <= self.start.offset
        &&& joined_text(self.sent) == self.input.take(joined_text(self.sent).len() as int)
        &&& self.open ==> joined_text(self.sent).len() == self.start.offset
        &&& self.taken <= self.sent.len()
        &&& forall|i: int|
            0 <= i < self.sent.len() ==> (#[trigger] self.sent[i]).position
                == Pos::origin().advance_all(joined_text(self.sent.take(i)))
    }

    /// The characters that forward reads will yield, in order.
    pub open spec fn ahead(self) -> Seq<char> {
        self.backbuf.reverse() + self.input.skip(self.read as int)
    }

    /// Whether a forward read yields a character.
    pub open spec fn can_next(self) -> bool {
        self.backbuf.len() > 0 || self.read < self.input.len()
    }

    /// The character that a forward read yields.
    pub open spec fn next_char(self) -> char {
        if self.backbuf.len() > 0 {
            self.backbuf.last()
        } else {
            self.input[self.read as int]
        }
    }

    /// What a forward read returns.
    pub open spec fn next_result(self) -> Result<char, ScanError> {
        if self.can_next() {
            Ok(self.next_char())
        } else if self.broken {
            Err(ScanError::DecodeError)
        } else {
            Err(ScanError::EndOfInput)
        }
    }

    /// The state after a forward read: a replayed character leaves the
    /// backtrack buffer, any other is pulled from the source; a failed read
    /// changes nothing.
    pub open spec fn after_next(self) -> ScanState<T> {
        if !self.can_next() {
            self
        } else if self.backbuf.len() > 0 {
            ScanState {
                backbuf: self.backbuf.drop_last(),
                unemitted: self.unemitted.push(self.next_char()),
                pos: self.pos.advance(self.next_char()),
                ..self
            }
        } else {
            ScanState {
                read: self.read + 1,
                unemitted: self.unemitted.push(self.next_char()),
                pos: self.pos.advance(self.next_char()),
                ..self
            }
        }
    }

    /// What a step back returns.
    pub open spec fn back_result(self) -> Result<(), ScanError> {
        if self.unemitted.len() == 0 {
            Err(ScanError::BackBufferUnderflow)
        } else if self.unemitted.last() == '\n' {
            Err(ScanError::LineBoundary)
        } else {
            Ok(())
        }
    }

    /// The state after a step back: the last unemitted character moves to the
    /// backtrack buffer; a refused step changes nothing.
    pub open spec fn after_back(self) -> ScanState<T> {
        if self.back_result().is_err() {
            self
        } else {
            ScanState {
                backbuf: self.backbuf.push(self.unemitted.last()),
                unemitted: self.unemitted.drop_last(),
                pos: self.pos.retreat(self.unemitted.last()),
                ..self
            }
        }
    }

    /// The token that an emission of `kind` builds.
    pub open spec fn pending_token(self, kind: T) -> TokenView<T> {
        TokenView { position: self.start, kind, text: self.unemitted }
    }

    /// The state after an emission of `kind`: the token is delivered if the
    /// consumer is still there, and the unemitted characters are dropped
    /// either way.
    pub open spec fn after_emit(self, kind: T) -> ScanState<T> {
        ScanState {
            unemitted: Seq::empty(),
            start: self.pos,
            sent: if self.open {
                self.sent.push(self.pending_token(kind))
            } else {
                self.sent
            },
            ..self
        }
    }

    /// The state after the consumer has gone.
    pub open spec fn after_cancel(self) -> ScanState<T> {
        ScanState { open: false, ..self }
    }

    /// The state after the consumer has collected every delivered token.
    pub open spec fn after_take(self) -> ScanState<T> {
        ScanState { taken: self.sent.len(), ..self }
    }

    /// The state after `n` forward reads.
    pub open spec fn after_nexts(self, n: nat) -> ScanState<T>
        decreases n,
    {
        if n == 0 {
            self
        } else {
            self.after_nexts((n - 1) as nat).after_next()
        }
    }

    /// The state after `n` steps back.
    pub open spec fn after_backs(self, n: nat) -> ScanState<T>
        decreases n,
    {
        if n == 0 {
            self
        } else {
            self.after_back().after_backs((n - 1) as nat)
        }
    }

    /// Whether two states differ at most in where the characters ahead are
    /// held: in the backtrack buffer or still in the source.
    pub open spec fn same_course(self, other: ScanState<T>) -> bool {
        &&& self.input == other.input
        &&& self.broken == other.broken
        &&& self.unemitted == other.unemitted
        &&& self.pos == other.pos
        &&& self.start == other.start
        &&& self.sent == other.sent
        &&& self.open == other.open
        &&& self.taken == other.taken
        &&& self.ahead() == other.ahead()
    }

    /// Whether `later` can follow `self` in one scan while the consumer
    /// collects nothing: the source is the same, the tokens delivered before
    /// are still there, the same and in the same order, a consumer that has
    /// gone stays gone, and nothing is delivered to it.
    pub open spec fn precedes(self, later: ScanState<T>) -> bool {
        &&& later.input == self.input
        &&& later.broken == self.broken
        &&& self.sent.len() <= later.sent.len()
        &&& later.sent.take(self.sent.len() as int) == self.sent
        &&& later.open ==> self.open
        &&& !self.open ==> later.sent == self.sent
        &&& later.taken == self.taken
    }
}

/// Moving forward over `a` and then over `b` is moving forward over both.
pub proof fn lemma_advance_all_concat(p: Pos, a: Seq<char>, b: Seq<char>)
    ensures
        p.advance_all(a + b) == p.advance_all(a).advance_all(b),
    decreases b.len(),
{
    if b.len() > 0 {
        assert((a + b).drop_last() =~= a + b.drop_last());
        lemma_advance_all_concat(p, a, b.drop_last());
    }
}

/// Before anything is read, a scan is in a reachable state.
pub proof fn lemma_initial_inv<T>(input: Seq<char>, broken: bool)
    requires
        input.len() <= u64::MAX,
    ensures
        ScanState::<T>::initial(input, broken).inv(),
{
    assert(input.take(0) =~= Seq::<char>::empty());
}

/// A forward read leads from a reachable state to a reachable state, and
/// takes back no token.
pub proof fn lemma_next_inv<T>(s: ScanState<T>)
    requires
        s.inv(),
    ensures
        s.after_next().inv(),
        s.precedes(s.after_next()),
{
    let t = s.after_next();
    assert(t.sent.take(s.sent.len() as int) =~= s.sent);
    if s.can_next() {
        assert(t.unemitted.drop_last() =~= s.unemitted);
        lemma_advance_all(s.start, s.unemitted);
    }
}

/// A step back leads from a reachable state to a reachable state, and takes
/// back no token.
pub proof fn lemma_back_inv<T>(s: ScanState<T>)
    requires
        s.inv(),
    ensures
        s.after_back().inv(),
        s.precedes(s.after_back()),
        s.back_result().is_ok() ==> s.pos.col > 0 && s.pos.wf(),
{
    let t = s.after_back();
    assert(t.sent.take(s.sent.len() as int) =~= s.sent);
    if s.back_result().is_ok() {
        let front = s.unemitted.drop_last();
        lemma_advance_all(s.start, front);
        lemma_advance(s.start.advance_all(front), s.unemitted.last());
    }
}

/// The text of some tokens and one more is the text of the former followed
/// by the text of the latter.
pub proof fn lemma_joined_text_push<T>(tokens: Seq<TokenView<T>>, t: TokenView<T>)
    ensures
        joined_text(tokens.push(t)) == joined_text(tokens) + t.text,
{
    assert(tokens.push(t).drop_last() =~= tokens);
}

/// An emission leads from a reachable state to a reachable state, and takes
/// back no token.
pub proof fn lemma_emit_inv<T>(s: ScanState<T>, kind: T)
    requires
        s.inv(),
    ensures
        s.after_emit(kind).inv(),
        s.precedes(s.after_emit(kind)),
{
    let t = s.after_emit(kind);
    let so = s.start.offset as int;
    assert(t.sent.take(s.sent.len() as int) =~= s.sent);
    lemma_advance_all(s.start, s.unemitted);
    assert(s.input.take(so + s.unemitted.len()) =~= s.input.take(so) + s.unemitted);
    lemma_advance_all_concat(Pos::origin(), s.input.take(so), s.unemitted);
    if s.open {
        lemma_joined_text_push(s.sent, s.pending_token(kind));
        assert forall|i: int| 0 <= i < t.sent.len() implies (#[trigger] t.sent[i]).position
            == Pos::origin().advance_all(joined_text(t.sent.take(i))) by {
            if i < s.sent.len() {
                assert(t.sent.take(i) =~= s.sent.take(i));
            }
        }
    }
}

/// The consumer's leaving leads from a reachable state to a reachable state,
/// and takes back no token.
pub proof fn lemma_cancel_inv<T>(s: ScanState<T>)
    requires
        s.inv(),
    ensures
        s.after_cancel().inv(),
        s.precedes(s.after_cancel()),
{
    assert(s.after_cancel().sent.take(s.sent.len() as int) =~= s.sent);
}

/// What can follow a state that can follow a first state can follow the first.
pub proof fn lemma_precedes_trans<T>(a: ScanState<T>, b: ScanState<T>, c: ScanState<T>)
    requires
        a.precedes(b),
        b.precedes(c),
    ensures
        a.precedes(c),
{
    assert(c.sent.take(a.sent.len() as int) =~= c.sent.take(b.sent.len() as int).take(
        a.sent.len() as int,
    ));
}

/// Every state can follow itself.
pub proof fn lemma_precedes_refl<T>(a: ScanState<T>)
    ensures
        a.precedes(a),
{
    assert(a.sent.take(a.sent.len() as int) =~= a.sent);
}


/// A forward read succeeds exactly where characters are ahead; it yields the
/// first of them and leaves the others ahead.
pub proof fn lemma_next_ahead<T>(s: ScanState<T>)
    requires
        s.inv(),
    ensures
        s.can_next() <==> s.ahead().len() > 0,
        s.can_next() ==> s.next_char() == s.ahead()[0],
        s.can_next() ==> s.after_next().ahead() == s.ahead().skip(1),
{
}

/// A step back puts the character stepped over ahead of the others.
pub proof fn lemma_back_ahead<T>(s: ScanState<T>)
    requires
        s.inv(),
        s.back_result().is_ok(),
    ensures
        s.after_back().ahead() == seq![s.unemitted.last()] + s.ahead(),
{
}

/// Forward reads, as many as characters are ahead or fewer, move those
/// characters in order to the unemitted ones and change nothing else.
pub proof fn lemma_after_nexts<T>(s: ScanState<T>, n: nat)
    requires
        s.inv(),
        n <= s.ahead().len(),
    ensures
        s.after_nexts(n).inv(),
        s.after_nexts(n).ahead() == s.ahead().skip(n as int),
        s.after_nexts(n).unemitted == s.unemitted + s.ahead().take(n as int),
        s.after_nexts(n).pos == s.pos.advance_all(s.ahead().take(n as int)),
        s.after_nexts(n).start == s.start,
        s.after_nexts(n).sent == s.sent,
        s.after_nexts(n).open == s.open,
        s.after_nexts(n).taken == s.taken,
        s.after_nexts(n).input == s.input,
        s.after_nexts(n).broken == s.broken,
    decreases n,
{
    if n > 0 {
        let a = s.ahead();
        let m = (n - 1) as nat;
        let t = s.after_nexts(m);
        lemma_after_nexts(s, m);
        lemma_next_ahead(t);
        lemma_next_inv(t);
        assert(a.take(n as int).drop_last() =~= a.take(m as int));
    }
}

/// A step back followed by a forward read restores the state: the read
/// yields the character stepped over, and the position is what it was.
pub proof fn lemma_back_then_next<T>(s: ScanState<T>)
    requires
        s.inv(),
        s.back_result().is_ok(),
    ensures
        s.after_back().next_result() == Ok::<char, ScanError>(s.unemitted.last()),
        s.after_back().after_next() == s,
        s.after_back().after_next().pos == s.pos,
{
    let front = s.unemitted.drop_last();
    lemma_advance_all(s.start, front);
    lemma_advance(s.start.advance_all(front), s.unemitted.last());
    let t = s.after_back();
    assert(t.backbuf.drop_last() =~= s.backbuf);
    assert(t.unemitted.push(s.unemitted.last()) =~= s.unemitted);
}

/// A successful forward read followed by a step back over a character that
/// is no line break leaves the position, the unemitted characters and the
/// characters ahead as they were.
pub proof fn lemma_next_then_back<T>(s: ScanState<T>)
    requires
        s.inv(),
        s.can_next(),
        s.next_char() != '\n',
    ensures
        s.after_next().back_result().is_ok(),
        s.after_next().after_back().same_course(s),
        s.after_next().after_back().inv(),
{
    let t = s.after_next();
    lemma_next_inv(s);
    lemma_back_inv(t);
    lemma_next_ahead(s);
    lemma_back_ahead(t);
    lemma_advance_all(s.start, s.unemitted);
    assert(t.unemitted.drop_last() =~= s.unemitted);
    assert(seq![s.next_char()] + s.ahead().skip(1) =~= s.ahead());
}

/// Steps back from two states that differ at most in where the characters
/// ahead are held lead to two such states, with the same outcome.
pub proof fn lemma_backs_same_course<T>(a: ScanState<T>, b: ScanState<T>, n: nat)
    requires
        a.inv(),
        b.inv(),
        a.same_course(b),
    ensures
        a.after_backs(n).same_course(b.after_backs(n)),
        a.after_backs(n).inv(),
        b.after_backs(n).inv(),
    decreases n,
{
    if n > 0 {
        lemma_back_inv(a);
        lemma_back_inv(b);
        if a.back_result().is_ok() {
            lemma_back_ahead(a);
            lemma_back_ahead(b);
        }
        lemma_backs_same_course(a.after_back(), b.after_back(), (n - 1) as nat);
    }
}

/// Forward reads over characters, none of them a line break, followed by as
/// many steps back return to the position started from, with the same
/// characters unemitted and the same characters ahead.
pub proof fn lemma_nexts_then_backs<T>(s: ScanState<T>, n: nat)
    requires
        s.inv(),
        n <= s.ahead().len(),
        forall|i: int| 0 <= i < n ==> s.ahead()[i] != '\n',
    ensures
        s.after_nexts(n).after_backs(n).pos == s.pos,
        s.after_nexts(n).after_backs(n).same_course(s),
    decreases n,
{
    if n > 0 {
        let m = (n - 1) as nat;
        let u = s.after_nexts(m);
        lemma_after_nexts(s, m);
        lemma_next_ahead(u);
        lemma_next_then_back(u);
        lemma_next_inv(u);
        lemma_back_inv(u.after_next());
        lemma_backs_same_course(u.after_next().after_back(), u, m);
        lemma_nexts_then_backs(s, m);
    }
}

/// The texts of the delivered tokens, joined in the order of delivery, are
/// the start of the input, with no character lost or repeated; while the
/// consumer is there they reach to where the unemitted characters begin, and
/// together with these and the characters ahead they are the whole input.
pub proof fn lemma_coverage<T>(s: ScanState<T>)
    requires
        s.inv(),
    ensures
        joined_text(s.sent) == s.input.take(joined_text(s.sent).len() as int),
        joined_text(s.sent).len() <= s.start.offset <= s.input.len(),
        s.open ==> joined_text(s.sent) == s.input.take(s.start.offset as int),
        s.open ==> joined_text(s.sent) + s.unemitted + s.ahead() == s.input,
        s.open && s.unemitted.len() == 0 && s.ahead().len() == 0 ==> joined_text(s.sent)
            == s.input,
{
}


/// Every delivered token is positioned where its text begins in the input:
/// at the position reached from the origin by moving forward over the texts
/// of the tokens delivered before it.
pub proof fn lemma_token_positions<T>(s: ScanState<T>, i: int)
    requires
        s.inv(),
        0 <= i < s.sent.len(),
    ensures
        s.sent[i].position == Pos::origin().advance_all(joined_text(s.sent.take(i))),
{
}

/// The capability that a transition works with: read forward, step back, emit.
pub trait Scanner<T> {
    /// The state of the scan.
    spec fn state(&self) -> ScanState<T>;

    /// Whether the scanner is in a usable condition.
    spec fn wf(&self) -> bool;

    /// A usable scanner is in a state that a scan can reach.
    proof fn lemma_wf(&self)
        requires
            self.wf(),
        ensures
            self.state().inv(),
    ;

    /// Reads the next character: the one last stepped back over, if any, else
    /// the next of the source. At the end of the source it fails with
    /// `EndOfInput`, or with `DecodeError` where the source is broken there.
    fn next(&mut self) -> (r: Result<char, ScanError>)
        requires
            old(self).wf(),
        ensures
            final(self).wf(),
            final(self).state() == old(self).state().after_next(),
            r == old(self).state().next_result(),
    ;

    /// Steps back over the character last read. Fails with
    /// `BackBufferUnderflow` if nothing was read since the last emission, and
    /// with `LineBoundary` if the character is a line break.
    fn back(&mut self) -> (r: Result<(), ScanError>)
        requires
            old(self).wf(),
        ensures
            final(self).wf(),
            final(self).state() == old(self).state().after_back(),
            r == old(self).state().back_result(),
    ;

    /// Emits the unemitted characters as one token of kind `kind`, positioned
    /// where they begin.
    fn emit(&mut self, kind: T)
        requires
            old(self).wf(),
        ensures
            final(self).wf(),
            final(self).state() == old(self).state().after_emit(kind),
    ;
}

} // verus!
