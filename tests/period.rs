use cube::State;

#[test]
fn test_period() {
    let solved = State::new_solved();
    assert_eq!(solved.get_period(), 0);

    let r = solved.apply_moves("R").unwrap();
    assert_eq!(r.get_period(), 4);

    let rup = solved.apply_moves("R U'").unwrap();
    assert_eq!(rup.get_period(), 63);

    let ub = solved.apply_moves("M2 U M U2 M' U M2").unwrap();
    assert_eq!(ub.get_period(), 3);

    let oll17 = solved.apply_moves("R U R' U R' F R F' U2 R' F R F'").unwrap();
    assert_eq!(oll17.get_period(), 18);
}

fn power(s: &State, n: usize) -> State {
    let mut r = State::new_solved();
    for _ in 0..n {
        r = r.apply(s);
    }
    r
}

#[test]
fn period_is_least_power_to_identity() {
    let solved = State::new_solved();
    for text in ["R", "R U'", "M2 U M U2 M' U M2", "R U R' U R' F R F' U2 R' F R F'", "x y", "F2 B"] {
        let s = solved.apply_moves(text).unwrap();
        let n = s.get_period();
        assert!(n > 0);
        assert!(power(&s, n).is_solved0());
        for k in 1..n {
            assert!(!power(&s, k).is_solved0(), "{} repeated {} times", text, k);
        }
    }
}
