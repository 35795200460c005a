use cube::solver::{is_move_available, start_search};
use cube::State;

fn face(name: &str) -> char {
    name.chars().next().unwrap()
}

fn opposite(c: char) -> char {
    match c {
        'U' => 'D',
        'D' => 'U',
        'L' => 'R',
        'R' => 'L',
        'F' => 'B',
        _ => 'F',
    }
}

#[test]
fn search_solves_scramble() {
    let scrambled = State::new_solved().apply_moves("R U R' F2 D2 L").unwrap();
    let solution = start_search(&scrambled, 7).unwrap();
    assert!(solution.len() <= 6);
    let undone = scrambled.apply_moves(&solution.join(" ")).unwrap();
    assert!(undone.is_solved0());
    for w in solution.windows(2) {
        let (p, c) = (face(&w[0]), face(&w[1]));
        assert_ne!(p, c);
        if opposite(p) == c {
            assert!(p < c);
        }
    }
}

#[test]
fn search_on_solved_state_is_empty() {
    let solution = start_search(&State::new_solved(), 3).unwrap();
    assert!(solution.is_empty());
}

#[test]
fn search_gives_shortest() {
    let scrambled = State::new_solved().apply_moves("R U").unwrap();
    assert_eq!(start_search(&scrambled, 5).unwrap(), vec![String::from("U'"), String::from("R'")]);
}

#[test]
fn search_respects_bound() {
    let scrambled = State::new_solved().apply_moves("R U F").unwrap();
    assert_eq!(start_search(&scrambled, 3), None);
    assert_eq!(start_search(&scrambled, 0), None);
    assert_eq!(start_search(&scrambled, 4).unwrap().len(), 3);
}

#[test]
fn move_availability() {
    let r = String::from("R");
    let l = String::from("L'");
    let d = String::from("D2");
    assert!(is_move_available(None, "U"));
    assert!(!is_move_available(Some(&r), "R2"));
    assert!(!is_move_available(Some(&r), "L"));
    assert!(is_move_available(Some(&l), "R'"));
    let u = String::from("U");
    assert!(is_move_available(Some(&d), "U"));
    assert!(!is_move_available(Some(&u), "D'"));
    assert!(is_move_available(Some(&d), "F"));
}
