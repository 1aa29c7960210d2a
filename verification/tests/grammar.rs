use lexscan::cursor::Scanner;
use lexscan::engine::{ReadScanner, StateFn, StateMachine};
use lexscan::pos::Pos;
use lexscan::spaces::{is_space_char, scan_run, space_state, start_state, SpaceState, SpaceTokenType};
use lexscan::token::{ScanError, Token};

type Blank = lexscan::spaces::StateMachine;

fn blanks(text: &str, broken: bool) -> ReadScanner<SpaceTokenType, Blank> {
    match ReadScanner::new(text.chars().collect(), broken, Blank::new()) {
        Ok(l) => l,
        Err(e) => panic!("construction failed: {:?}", e),
    }
}

fn shape<T: Copy>(tokens: &Vec<Token<T>>) -> Vec<(T, String, u64, u64)> {
    tokens.iter().map(|t| (t.kind, t.text.clone(), t.position.line, t.position.col)).collect()
}

#[derive(Clone, Copy, Debug, PartialEq)]
enum Kind {
    Integer,
    Operator,
}

#[derive(Clone, Copy)]
struct Begin;

struct Arithmetic;

impl StateMachine<Kind> for Arithmetic {
    type State = Begin;

    fn start_state(self) -> Result<Option<StateFn<Begin>>, ScanError> {
        Ok(Some(StateFn(Begin)))
    }

    fn step<L: Scanner<Kind>>(_state: Begin, l: &mut L) -> Result<Option<StateFn<Begin>>, ScanError> {
        let first = match l.next() {
            Ok(c) => c,
            Err(ScanError::EndOfInput) => return Ok(None),
            Err(e) => return Err(e),
        };
        if !first.is_ascii_digit() {
            l.emit(Kind::Operator);
            return Ok(Some(StateFn(Begin)));
        }
        loop {
            match l.next() {
                Ok(c) if c.is_ascii_digit() => {}
                Ok(_) => {
                    l.back()?;
                    break;
                }
                Err(ScanError::EndOfInput) => break,
                Err(e) => return Err(e),
            }
        }
        l.emit(Kind::Integer);
        Ok(Some(StateFn(Begin)))
    }
}

#[test]
fn digits_and_operators_are_split() {
    let mut l = match ReadScanner::new("12+3".chars().collect(), false, Arithmetic) {
        Ok(l) => l,
        Err(e) => panic!("construction failed: {:?}", e),
    };
    assert_eq!(l.run(), None);
    let tokens = l.take_tokens();
    assert_eq!(
        shape(&tokens),
        vec![
            (Kind::Integer, "12".to_string(), 0, 0),
            (Kind::Operator, "+".to_string(), 0, 2),
            (Kind::Integer, "3".to_string(), 0, 3),
        ]
    );
}

#[test]
fn blanks_then_word() {
    let mut l = blanks("  a", false);
    assert_eq!(l.run(), None);
    let tokens = l.take_tokens();
    assert_eq!(
        shape(&tokens),
        vec![
            (SpaceTokenType::Space, "  ".to_string(), 0, 0),
            (SpaceTokenType::Token, "a".to_string(), 0, 2),
        ]
    );
}

#[test]
fn decode_failure_after_three_characters() {
    let mut l = blanks("a b", true);
    assert_eq!(l.run(), Some(ScanError::DecodeError));
    let tokens = l.take_tokens();
    assert_eq!(
        shape(&tokens),
        vec![
            (SpaceTokenType::Token, "a".to_string(), 0, 0),
            (SpaceTokenType::Space, " ".to_string(), 0, 1),
        ]
    );
}

#[test]
fn run_on_empty_input_ends_without_tokens() {
    let mut l = blanks("", false);
    assert_eq!(l.run(), None);
    assert!(l.take_tokens().is_empty());
}

#[test]
fn run_on_empty_broken_source_fails() {
    let mut l = blanks("", true);
    assert_eq!(l.run(), Some(ScanError::DecodeError));
    assert!(l.take_tokens().is_empty());
}

#[test]
fn token_texts_join_to_the_input() {
    let text = "\n\tab  cd \t e+1 \n";
    let mut l = blanks(text, false);
    assert_eq!(l.run(), None);
    let tokens = l.take_tokens();
    let joined: String = tokens.iter().map(|t| t.text.clone()).collect();
    assert_eq!(joined, text);
    assert_eq!(tokens.len(), 7);
    assert_eq!(l.position(), Pos { offset: 16, line: 2, col: 0 });
}

#[test]
fn tokens_come_in_emission_order_with_positions() {
    let mut l = blanks("ab \n cd", false);
    assert_eq!(l.run(), None);
    let tokens = l.take_tokens();
    assert_eq!(
        shape(&tokens),
        vec![
            (SpaceTokenType::Token, "ab".to_string(), 0, 0),
            (SpaceTokenType::Space, " \n ".to_string(), 0, 2),
            (SpaceTokenType::Token, "cd".to_string(), 1, 1),
        ]
    );
    assert_eq!(tokens[2].position.offset, 5);
}

#[test]
fn leading_line_break_begins_a_run_of_blanks() {
    let mut l = blanks("\na", false);
    assert_eq!(l.run(), None);
    let tokens = l.take_tokens();
    assert_eq!(
        shape(&tokens),
        vec![
            (SpaceTokenType::Space, "\n".to_string(), 0, 0),
            (SpaceTokenType::Token, "a".to_string(), 1, 0),
        ]
    );
}

#[test]
fn word_before_line_break_fails_at_the_boundary() {
    let mut l = blanks("a b\nc", false);
    assert_eq!(l.run(), Some(ScanError::LineBoundary));
    let tokens = l.take_tokens();
    assert_eq!(
        shape(&tokens),
        vec![
            (SpaceTokenType::Token, "a".to_string(), 0, 0),
            (SpaceTokenType::Space, " ".to_string(), 0, 1),
        ]
    );
    assert_eq!(l.position(), Pos { offset: 4, line: 1, col: 0 });
}

#[test]
fn step_once_runs_one_transition() {
    let mut l = blanks("ab  c", false);
    assert_eq!(l.step_once(), Ok(true));
    let first = l.take_tokens();
    assert_eq!(shape(&first), vec![(SpaceTokenType::Token, "ab".to_string(), 0, 0)]);
    assert_eq!(l.step_once(), Ok(true));
    let second = l.take_tokens();
    assert_eq!(shape(&second), vec![(SpaceTokenType::Space, "  ".to_string(), 0, 2)]);
    assert_eq!(l.step_once(), Ok(false));
    let third = l.take_tokens();
    assert_eq!(shape(&third), vec![(SpaceTokenType::Token, "c".to_string(), 0, 4)]);
}

#[test]
fn run_after_cancel_stops_without_error() {
    let mut l = blanks("ab  c d", false);
    assert_eq!(l.step_once(), Ok(true));
    l.cancel();
    assert_eq!(l.run(), None);
    let tokens = l.take_tokens();
    assert_eq!(shape(&tokens), vec![(SpaceTokenType::Token, "ab".to_string(), 0, 0)]);
    assert_eq!(l.position(), Pos { offset: 2, line: 0, col: 2 });
}

#[test]
fn start_state_names_space_after_a_word() {
    let mut l = blanks("ab c", false);
    let r = start_state(&mut l);
    assert!(matches!(r, Ok(Some(StateFn(SpaceState::Space)))));
    assert_eq!(l.position(), Pos { offset: 2, line: 0, col: 2 });
    let tokens = l.take_tokens();
    assert_eq!(shape(&tokens), vec![(SpaceTokenType::Token, "ab".to_string(), 0, 0)]);
}

#[test]
fn start_state_scans_blanks_when_they_come_first() {
    let mut l = blanks(" \tx", false);
    let r = start_state(&mut l);
    assert!(matches!(r, Ok(Some(StateFn(SpaceState::Start)))));
    let tokens = l.take_tokens();
    assert_eq!(shape(&tokens), vec![(SpaceTokenType::Space, " \t".to_string(), 0, 0)]);
}

#[test]
fn start_state_at_end_ends_the_scan() {
    let mut l = blanks("", false);
    assert!(matches!(start_state(&mut l), Ok(None)));
    assert!(l.take_tokens().is_empty());
}

#[test]
fn space_state_names_start_after_blanks() {
    let mut l = blanks(" \n x", false);
    let r = space_state(&mut l);
    assert!(matches!(r, Ok(Some(StateFn(SpaceState::Start)))));
    assert_eq!(l.position(), Pos { offset: 3, line: 1, col: 1 });
    let tokens = l.take_tokens();
    assert_eq!(shape(&tokens), vec![(SpaceTokenType::Space, " \n ".to_string(), 0, 0)]);
}

#[test]
fn space_state_without_blanks_emits_nothing() {
    let mut l = blanks("x", false);
    let r = space_state(&mut l);
    assert!(matches!(r, Ok(Some(StateFn(SpaceState::Start)))));
    assert_eq!(l.position(), Pos { offset: 0, line: 0, col: 0 });
    assert!(l.take_tokens().is_empty());
    assert_eq!(l.next(), Ok('x'));
}

#[test]
fn space_state_at_end_emits_the_run() {
    let mut l = blanks("  ", false);
    assert!(matches!(space_state(&mut l), Ok(None)));
    let tokens = l.take_tokens();
    assert_eq!(shape(&tokens), vec![(SpaceTokenType::Space, "  ".to_string(), 0, 0)]);
}

#[test]
fn scan_run_on_broken_source_emits_nothing() {
    let mut l = blanks("ab", true);
    let r = scan_run(&mut l, false, false);
    assert!(matches!(r, Err(ScanError::DecodeError)));
    assert!(l.take_tokens().is_empty());
    assert_eq!(l.position(), Pos { offset: 2, line: 0, col: 2 });
}

#[test]
fn is_space_char_tells_blanks() {
    assert!(is_space_char(' '));
    assert!(is_space_char('\n'));
    assert!(is_space_char('\t'));
    assert!(!is_space_char('a'));
    assert!(!is_space_char('\r'));
}

#[test]
fn state_machine_starts_with_start() {
    let m = Blank::new();
    assert!(matches!(m.0, StateFn(SpaceState::Start)));
    assert!(matches!(m.start_state(), Ok(Some(StateFn(SpaceState::Start)))));
}

#[test]
fn digits_grammar_hands_on_a_decode_failure() {
    let mut l = match ReadScanner::new("7*".chars().collect(), true, Arithmetic) {
        Ok(l) => l,
        Err(e) => panic!("construction failed: {:?}", e),
    };
    assert_eq!(l.run(), Some(ScanError::DecodeError));
    let tokens = l.take_tokens();
    assert_eq!(
        shape(&tokens),
        vec![(Kind::Integer, "7".to_string(), 0, 0), (Kind::Operator, "*".to_string(), 0, 1)]
    );
}

#[test]
fn tokens_taken_in_turns_keep_their_order() {
    let mut l = blanks("a b c", false);
    let mut texts: Vec<String> = Vec::new();
    loop {
        let outcome = l.step_once();
        for t in l.take_tokens() {
            texts.push(t.text);
        }
        match outcome {
            Ok(true) => {}
            other => {
                assert_eq!(other, Ok(false));
                break;
            }
        }
    }
    assert_eq!(texts, vec!["a", " ", "b", " ", "c"]);
}
