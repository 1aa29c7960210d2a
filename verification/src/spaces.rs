//! A small grammar for the engine: runs of blanks and runs of anything else.

use vstd::prelude::*;
use crate::cursor::{
    lemma_after_nexts, lemma_back_ahead, lemma_back_inv, lemma_coverage, lemma_emit_inv,
    lemma_next_ahead, lemma_next_inv, lemma_precedes_refl, lemma_precedes_trans, ScanState,
    Scanner,
};
use crate::engine::{scan_ends, settled, StateFn};
use crate::token::{joined_text, ScanError};

verus! {

/// The kinds of token that the grammar tells apart.
#[derive(Clone, Copy, Debug, PartialEq, Eq, Structural)]
pub enum SpaceTokenType {
    /// A run of characters that are not blanks.
    Token,
    /// A run of blanks.
    Space,
}

/// The grammar's transitions.
#[derive(Clone, Copy, Debug, PartialEq, Eq, Structural)]
pub enum SpaceState {
    /// Nothing is known of what comes next.
    Start,
    /// A run of blanks comes next.
    Space,
}

/// Whether `c` is a blank: a space, a line break or a tab.
pub open spec fn is_space(c: char) -> bool {
    c == ' ' || c == '\n' || c == '\t'
}

/// Where the run that begins at `from` ends: the first place at or after
/// `from` that holds no character, or one that is a blank where the run is of
/// other characters (`spaces` unset), or the reverse.
pub open spec fn run_end(a: Seq<char>, from: nat, spaces: bool) -> nat
    decreases a.len() - from,
{
    if from >= a.len() || is_space(a[from as int]) != spaces {
        from
    } else {
        run_end(a, from + 1, spaces)
    }
}

/// The kind of the token that a run makes.
pub open spec fn run_kind(spaces: bool) -> SpaceTokenType {
    if spaces {
        SpaceTokenType::Space
    } else {
        SpaceTokenType::Token
    }
}

/// The transition that follows a run.
pub open spec fn run_successor(spaces: bool) -> SpaceState {
    if spaces {
        SpaceState::Start
    } else {
        SpaceState::Space
    }
}

/// What scanning a run does to the state `s`, and what it returns. `any`
/// says whether a character of the run was read before.
///
/// The run is read to its end. Where a character of the other class follows,
/// it is read and stepped back over, the run is emitted if it holds a
/// character, and the successor is named; a run of other characters that a
/// line break follows fails there with `LineBoundary`, as no step leads back
/// over a line break. Where the source ends after the run, the run is emitted
/// if it holds a character and the scan ends; where the source is broken
/// there, the scan fails with `DecodeError` and nothing is emitted.
pub open spec fn run_outcome(s: ScanState<SpaceTokenType>, spaces: bool, any: bool) -> (
    ScanState<SpaceTokenType>,
    Result<Option<StateFn<SpaceState>>, ScanError>,
) {
    let a = s.ahead();
    let k = run_end(a, 0, spaces);
    let emits = any || k > 0;
    if k < a.len() {
        let t = s.after_nexts(k + 1);
        match t.back_result() {
            Err(e) => (t, Err(e)),
            Ok(()) => (
                if emits {
                    t.after_back().after_emit(run_kind(spaces))
                } else {
                    t.after_back()
                },
                Ok(Some(StateFn(run_successor(spaces)))),
            ),
        }
    } else {
        let t = s.after_nexts(k);
        if s.broken {
            (t, Err(ScanError::DecodeError))
        } else {
            (
                if emits {
                    t.after_emit(run_kind(spaces))
                } else {
                    t
                },
                Ok(None),
            )
        }
    }
}

/// What the transition `Start` does to the state `s`, and what it returns:
/// the first character decides of which class the run is; with no character
/// ahead the scan ends, or fails with `DecodeError` where the source is
/// broken.
pub open spec fn start_outcome(s: ScanState<SpaceTokenType>) -> (
    ScanState<SpaceTokenType>,
    Result<Option<StateFn<SpaceState>>, ScanError>,
) {
    if s.can_next() {
        run_outcome(s.after_next(), is_space(s.next_char()), true)
    } else if s.broken {
        (s, Err(ScanError::DecodeError))
    } else {
        (s, Ok(None))
    }
}

/// What the transition `state` does to the state `s`, and what it returns.
pub open spec fn step_outcome(state: SpaceState, s: ScanState<SpaceTokenType>) -> (
    ScanState<SpaceTokenType>,
    Result<Option<StateFn<SpaceState>>, ScanError>,
) {
    match state {
        SpaceState::Start => start_outcome(s),
        SpaceState::Space => run_outcome(s, true, false),
    }
}

/// The end of a run lies between its beginning and the end of the characters.
pub proof fn lemma_run_end_bounds(a: Seq<char>, from: nat, spaces: bool)
    requires
        from <= a.len(),
    ensures
        from <= run_end(a, from, spaces) <= a.len(),
    decreases a.len() - from,
{
    if !(from >= a.len() || is_space(a[from as int]) != spaces) {
        lemma_run_end_bounds(a, from + 1, spaces);
    }
}

/// Scanning a run leads from a reachable state to a reachable state and takes
/// back no token. Where it names a successor, no more characters are ahead
/// than before.
pub proof fn lemma_run_outcome(s: ScanState<SpaceTokenType>, spaces: bool, any: bool)
    requires
        s.inv(),
    ensures
        run_outcome(s, spaces, any).0.inv(),
        s.precedes(run_outcome(s, spaces, any).0),
        run_outcome(s, spaces, any).1 matches Ok(Some(next)) ==> next.0 == run_successor(spaces)
            && run_outcome(s, spaces, any).0.ahead().len() <= s.ahead().len(),
{
    let a = s.ahead();
    let k = run_end(a, 0, spaces);
    lemma_run_end_bounds(a, 0, spaces);
    lemma_precedes_refl(s);
    if k < a.len() {
        let t = s.after_nexts(k + 1);
        lemma_after_nexts(s, k + 1);
        lemma_back_inv(t);
        if t.back_result().is_ok() {
            let u = t.after_back();
            lemma_back_ahead(t);
            lemma_emit_inv(u, run_kind(spaces));
            lemma_precedes_trans(s, t, u);
            lemma_precedes_trans(s, u, u.after_emit(run_kind(spaces)));
        }
    } else {
        let t = s.after_nexts(k);
        lemma_after_nexts(s, k);
        lemma_emit_inv(t, run_kind(spaces));
        lemma_precedes_trans(s, t, t.after_emit(run_kind(spaces)));
    }
}

/// The transition `Start` leads from a reachable state to a reachable state
/// and takes back no token. Where it names a successor, fewer characters are
/// ahead than before.
pub proof fn lemma_start_outcome(s: ScanState<SpaceTokenType>)
    requires
        s.inv(),
    ensures
        start_outcome(s).0.inv(),
        s.precedes(start_outcome(s).0),
        start_outcome(s).1 matches Ok(Some(next)) ==> start_outcome(s).0.ahead().len()
            < s.ahead().len(),
{
    lemma_precedes_refl(s);
    if s.can_next() {
        lemma_next_inv(s);
        lemma_next_ahead(s);
        lemma_run_outcome(s.after_next(), is_space(s.next_char()), true);
        lemma_precedes_trans(
            s,
            s.after_next(),
            run_outcome(s.after_next(), is_space(s.next_char()), true).0,
        );
    }
}

/// A transition that begins with nothing unemitted and the consumer there
/// leaves nothing unemitted unless it fails, and nothing ahead where it ends
/// the scan; it never fails with `ChannelClosed`.
pub proof fn lemma_step_outcome(state: SpaceState, s: ScanState<SpaceTokenType>)
    requires
        s.inv(),
        s.open,
        s.unemitted.len() == 0,
    ensures
        step_outcome(state, s).0.inv(),
        step_outcome(state, s).0.open,
        step_outcome(state, s).0.input == s.input,
        step_outcome(state, s).1.is_ok() ==> step_outcome(state, s).0.unemitted.len() == 0,
        step_outcome(state, s).1 == Ok::<Option<StateFn<SpaceState>>, ScanError>(None)
            ==> step_outcome(state, s).0.ahead().len() == 0,
        step_outcome(state, s).1 != Err::<Option<StateFn<SpaceState>>, ScanError>(
            ScanError::ChannelClosed,
        ),
{
    match state {
        SpaceState::Start => {
            lemma_start_outcome(s);
            if s.can_next() {
                lemma_next_inv(s);
                lemma_run_shape(s.after_next(), is_space(s.next_char()), true);
            }
        },
        SpaceState::Space => {
            lemma_run_outcome(s, true, false);
            lemma_run_shape(s, true, false);
        },
    }
}

/// Scanning a run leaves the consumer and the input as they are; unless it
/// fails it leaves nothing unemitted, provided that the run holds a character
/// or nothing was unemitted before; and it leaves nothing ahead where it ends
/// the scan. It never fails with `ChannelClosed`.
pub proof fn lemma_run_shape(s: ScanState<SpaceTokenType>, spaces: bool, any: bool)
    requires
        s.inv(),
        any || s.unemitted.len() == 0,
    ensures
        run_outcome(s, spaces, any).0.open == s.open,
        run_outcome(s, spaces, any).0.input == s.input,
        run_outcome(s, spaces, any).1.is_ok() ==> run_outcome(s, spaces, any).0.unemitted.len()
            == 0,
        run_outcome(s, spaces, any).1 == Ok::<Option<StateFn<SpaceState>>, ScanError>(None)
            ==> run_outcome(s, spaces, any).0.ahead().len() == 0,
        run_outcome(s, spaces, any).1 != Err::<Option<StateFn<SpaceState>>, ScanError>(
            ScanError::ChannelClosed,
        ),
{
    let a = s.ahead();
    let k = run_end(a, 0, spaces);
    lemma_run_end_bounds(a, 0, spaces);
    if k < a.len() {
        lemma_after_nexts(s, k + 1);
    } else {
        lemma_after_nexts(s, k);
    }
}

/// A scan by this grammar that begins with nothing unemitted and the
/// consumer there, and ends without a failure, has delivered the whole
/// input: the texts of its tokens, joined in order, are the input.
pub proof fn lemma_complete_scan(
    state: SpaceState,
    before: ScanState<SpaceTokenType>,
    after: ScanState<SpaceTokenType>,
    r: Option<ScanError>,
    steps: nat,
)
    requires
        before.inv(),
        before.open,
        before.unemitted.len() == 0,
        scan_ends::<SpaceTokenType, StateMachine>(state, before, after, r, steps),
        r.is_none(),
    ensures
        joined_text(after.sent) == before.input,
    decreases steps,
{
    let (mid, result) = choose|
        mid: ScanState<SpaceTokenType>,
        result: Result<Option<StateFn<SpaceState>>, ScanError>,
    |
        #[trigger] <StateMachine as crate::engine::StateMachine<SpaceTokenType>>::promises(
            state,
            before,
            mid,
            result,
        ) && match result {
            Ok(Some(next)) => scan_ends::<SpaceTokenType, StateMachine>(
                next.0,
                mid,
                after,
                r,
                (steps - 1) as nat,
            ),
            Ok(None) => after == mid && r.is_none(),
            Err(e) => after == mid && r == settled(e),
        };
    lemma_step_outcome(state, before);
    match result {
        Ok(Some(next)) => {
            lemma_complete_scan(next.0, mid, after, r, (steps - 1) as nat);
        },
        Ok(None) => {
            lemma_coverage(mid);
        },
        Err(e) => {},
    }
}

/// Tells whether `c` is a blank.
pub fn is_space_char(c: char) -> (b: bool)
    ensures
        b == is_space(c),
{
    c == ' ' || c == '\n' || c == '\t'
}

/// Scans a run of blanks (`spaces` set) or of other characters to its end.
/// `any` says whether a character of the run was read before the call.
pub fn scan_run<L: Scanner<SpaceTokenType>>(l: &mut L, spaces: bool, any: bool) -> (r: Result<
    Option<StateFn<SpaceState>>,
    ScanError,
>)
    requires
        old(l).wf(),
    ensures
        final(l).wf(),
        final(l).state() == run_outcome(old(l).state(), spaces, any).0,
        r == run_outcome(old(l).state(), spaces, any).1,
{
    let ghost s = l.state();
    let ghost a = s.ahead();
    let ghost mut i: nat = 0;
    let mut seen = any;
    let kind = if spaces {
        SpaceTokenType::Space
    } else {
        SpaceTokenType::Token
    };
    let successor = if spaces {
        SpaceState::Start
    } else {
        SpaceState::Space
    };
    proof {
        l.lemma_wf();
    }
    loop
        invariant
            l.wf(),
            s == old(l).state(),
            s.inv(),
            a == s.ahead(),
            i <= a.len(),
            l.state() == s.after_nexts(i),
            run_end(a, i, spaces) == run_end(a, 0, spaces),
            seen == (any || i > 0),
            kind == run_kind(spaces),
            successor == run_successor(spaces),
        decreases a.len() - i,
    {
        proof {
            lemma_after_nexts(s, i);
            lemma_next_ahead(l.state());
        }
        match l.next() {
            Ok(c) => {
                if is_space_char(c) == spaces {
                    seen = true;
                    proof {
                        i = i + 1;
                    }
                } else {
                    match l.back() {
                        Err(e) => {
                            return Err(e);
                        },
                        Ok(()) => {},
                    }
                    if seen {
                        l.emit(kind);
                    }
                    return Ok(Some(StateFn(successor)));
                }
            },
            Err(e) => {
                match e {
                    ScanError::EndOfInput => {
                        if seen {
                            l.emit(kind);
                        }
                        return Ok(None);
                    },
                    _ => {
                        return Err(e);
                    },
                }
            },
        }
    }
}

/// The transition after a run of other characters: scans a run of blanks and
/// emits it as a `Space` token.
pub fn space_state<L: Scanner<SpaceTokenType>>(l: &mut L) -> (r: Result<
    Option<StateFn<SpaceState>>,
    ScanError,
>)
    requires
        old(l).wf(),
    ensures
        final(l).wf(),
        final(l).state() == run_outcome(old(l).state(), true, false).0,
        r == run_outcome(old(l).state(), true, false).1,
{
    scan_run(l, true, false)
}

/// The transition that a scan begins with and that follows a run of blanks:
/// reads one character and scans the run that it begins.
pub fn start_state<L: Scanner<SpaceTokenType>>(l: &mut L) -> (r: Result<
    Option<StateFn<SpaceState>>,
    ScanError,
>)
    requires
        old(l).wf(),
    ensures
        final(l).wf(),
        final(l).state() == start_outcome(old(l).state()).0,
        r == start_outcome(old(l).state()).1,
{
    match l.next() {
        Ok(c) => scan_run(l, is_space_char(c), true),
        Err(e) => match e {
            ScanError::EndOfInput => Ok(None),
            _ => Err(e),
        },
    }
}

/// The grammar of blanks and other characters, with the transition that it
/// starts with.
pub struct StateMachine(pub StateFn<SpaceState>);

impl StateMachine {
    /// The grammar, starting with `Start`.
    pub fn new() -> (m: StateMachine)
        ensures
            m.0 == StateFn(SpaceState::Start),
    {
        StateMachine(StateFn(SpaceState::Start))
    }
}

impl crate::engine::StateMachine<SpaceTokenType> for StateMachine {
    type State = SpaceState;

    open spec fn rank(state: SpaceState, ahead: nat) -> nat {
        match state {
            SpaceState::Start => 2 * ahead + 1,
            SpaceState::Space => 2 * ahead + 2,
        }
    }

    open spec fn starts_with(self, first: Result<Option<StateFn<SpaceState>>, ScanError>) -> bool {
        first == Ok::<Option<StateFn<SpaceState>>, ScanError>(Some(self.0))
    }

    fn start_state(self) -> (r: Result<Option<StateFn<SpaceState>>, ScanError>) {
        Ok(Some(self.0))
    }

    open spec fn promises(
        state: SpaceState,
        before: ScanState<SpaceTokenType>,
        after: ScanState<SpaceTokenType>,
        result: Result<Option<StateFn<SpaceState>>, ScanError>,
    ) -> bool {
        (after, result) == step_outcome(state, before)
    }

    fn step<L: Scanner<SpaceTokenType>>(state: SpaceState, l: &mut L) -> (r: Result<
        Option<StateFn<SpaceState>>,
        ScanError,
    >) {
        proof {
            l.lemma_wf();
            lemma_start_outcome(l.state());
            lemma_run_outcome(l.state(), true, false);
        }
        match state {
            SpaceState::Start => start_state(l),
            SpaceState::Space => space_state(l),
        }
    }
}

} // verus!
