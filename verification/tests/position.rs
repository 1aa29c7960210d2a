use lexscan::pos::Pos;

#[test]
fn pos_new_is_origin() {
    let p = Pos::new();
    assert_eq!(p, Pos { offset: 0, line: 0, col: 0 });
}

#[test]
fn pos_next_over_plain_character() {
    let mut p = Pos::new();
    p.next('a');
    assert_eq!(p, Pos { offset: 1, line: 0, col: 1 });
    p.next('\t');
    assert_eq!(p, Pos { offset: 2, line: 0, col: 2 });
}

#[test]
fn pos_next_over_line_break_resets_column() {
    let mut p = Pos::new();
    p.next('a');
    p.next('b');
    p.next('\n');
    assert_eq!(p, Pos { offset: 3, line: 1, col: 0 });
    p.next('c');
    assert_eq!(p, Pos { offset: 4, line: 1, col: 1 });
    p.next('\n');
    p.next('\n');
    assert_eq!(p, Pos { offset: 6, line: 3, col: 0 });
}

#[test]
fn pos_back_over_plain_character() {
    let mut p = Pos { offset: 7, line: 2, col: 3 };
    p.back('x');
    assert_eq!(p, Pos { offset: 6, line: 2, col: 2 });
}

#[test]
fn pos_round_trip_returns_to_start() {
    let origin = Pos { offset: 10, line: 4, col: 2 };
    let mut p = origin;
    let chars = ['a', ' ', '+', 'z', '\t'];
    for c in chars.iter() {
        p.next(*c);
    }
    assert_eq!(p, Pos { offset: 15, line: 4, col: 7 });
    for c in chars.iter().rev() {
        p.back(*c);
    }
    assert_eq!(p, origin);
}

#[test]
fn pos_clone_keeps_fields() {
    let p = Pos { offset: 3, line: 1, col: 1 };
    let q = p.clone();
    assert_eq!(p, q);
}
