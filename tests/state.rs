use cube::{CubeError, State};

#[test]
fn identity_and_inverse_laws() {
    let solved = State::new_solved();
    for text in ["R", "R U R' F2 D2 L", "x y z", "M E S", "Uw Fw' Rw2"] {
        let s = solved.apply_moves(text).unwrap();
        assert_eq!(s.apply(&solved), s);
        assert_eq!(s.apply(&s.get_prime()), solved);
        assert_eq!(s.get_prime().apply(&s), solved);
        assert_eq!(s.get_prime().get_prime(), s);
    }
}

#[test]
fn composition_is_associative() {
    let solved = State::new_solved();
    let a = solved.apply_moves("R U").unwrap();
    let b = solved.apply_moves("F' x").unwrap();
    let c = solved.apply_moves("M2 D").unwrap();
    assert_eq!(a.apply(&b).apply(&c), a.apply(&b.apply(&c)));
}

#[test]
fn cycles_rebuild_the_state() {
    let solved = State::new_solved();
    for text in ["R U'", "R U R' U R' F R F' U2 R' F R F'", "y", "S"] {
        let s = solved.apply_moves(text).unwrap();
        assert_eq!(State::product_of_cycles(&s.get_cycles()), s);
    }
}

#[test]
fn apply_composes_left_to_right() {
    let solved = State::new_solved();
    let r = solved.apply_moves("R").unwrap();
    let u = solved.apply_moves("U").unwrap();
    assert_eq!(r.apply(&u), solved.apply_moves("R U").unwrap());
    assert_ne!(r.apply(&u), u.apply(&r));
    let p = r.apply(&u).get_p();
    let (rp, up) = (r.get_p(), u.get_p());
    for i in 0..54 {
        assert_eq!(p[i], up[rp[i] as usize]);
    }
}

#[test]
fn new_accepts_only_permutations() {
    let mut p = [0u8; 54];
    for (i, v) in p.iter_mut().enumerate() {
        *v = 53 - i as u8;
    }
    let s = State::new(Box::new(p)).unwrap();
    assert_eq!(s.get_p(), p);
    p[0] = p[1];
    assert_eq!(State::new(Box::new(p)), Err(CubeError::InvalidPermutation));
    p[0] = 54;
    assert_eq!(State::new(Box::new(p)), Err(CubeError::InvalidPermutation));
}

#[test]
fn unknown_move_is_reported() {
    let solved = State::new_solved();
    assert_eq!(solved.apply_moves("R Q U"), Err(CubeError::UnknownMove(String::from("Q"))));
    assert_eq!(solved.apply_moves("R U3 Q"), Err(CubeError::UnknownMove(String::from("U3"))));
    assert_eq!(solved.apply_moves("X"), Err(CubeError::UnknownMove(String::from("X"))));
    assert_eq!(solved.apply_moves("uw"), Err(CubeError::UnknownMove(String::from("uw"))));
}

#[test]
fn whitespace_separates_tokens() {
    let solved = State::new_solved();
    let a = solved.apply_moves("R U").unwrap();
    assert_eq!(solved.apply_moves("  R\tU\n").unwrap(), a);
    assert_eq!(solved.apply_moves("R\u{3000}U").unwrap(), a);
    assert_eq!(solved.apply_moves("").unwrap(), solved);
    assert_eq!(solved.apply_moves("   ").unwrap(), solved);
}

#[test]
fn move_by_name() {
    let r = State::get_move_by_name("R").unwrap();
    assert_eq!(State::get_move_by_name("R'").unwrap(), r.get_prime());
    assert_eq!(State::get_move_by_name("R2").unwrap(), r.apply(&r));
    assert_eq!(State::get_move_by_name("Lw"), State::get_move_by_name("l"));
    assert!(State::get_move_by_name("Lw").is_some());
    assert_eq!(State::get_move_by_name("R "), None);
    assert_eq!(State::get_move_by_name("Rw3"), None);
    assert_eq!(State::get_move_by_name(""), None);
}

#[test]
fn solved_checks() {
    let solved = State::new_solved();
    assert!(solved.is_solved0());
    assert!(solved.is_solved());
    let x = solved.apply_moves("x y").unwrap();
    assert!(!x.is_solved0());
    assert!(x.is_solved());
    let r = solved.apply_moves("R").unwrap();
    assert!(!r.is_solved0());
    assert!(!r.is_solved());
    assert_eq!(State::default(), solved);
}

#[test]
fn fixed_corner_and_edge_counts() {
    let solved = State::new_solved();
    assert_eq!(solved.count_solved0_corners(), 8);
    assert_eq!(solved.count_solved0_edges(), 12);
    let r = solved.apply_moves("R").unwrap();
    assert_eq!(r.count_solved0_corners(), 4);
    assert_eq!(r.count_solved0_edges(), 8);
}
