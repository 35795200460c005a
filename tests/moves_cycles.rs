use cube::moves::MOVES;
use cube::State;

#[test]
fn test_cycles() {
    let u = State::get_move(MOVES::U);

    assert_eq!(
        u.get_cycles(),
        vec![vec![0, 2, 8, 6], vec![1, 5, 7, 3], vec![9, 45, 36, 18], vec![10, 46, 37, 19], vec![11, 47, 38, 20]]
    );

    let f = State::get_move(MOVES::F);

    assert_eq!(
        f.get_cycles(),
        vec![vec![6, 18, 29, 53], vec![7, 21, 28, 50], vec![8, 24, 27, 47], vec![9, 11, 17, 15], vec![10, 14, 16, 12]]
    );

    let r = State::get_move(MOVES::R);

    assert_eq!(
        r.get_cycles(),
        vec![vec![2, 42, 29, 11], vec![5, 39, 32, 14], vec![8, 36, 35, 17], vec![18, 20, 26, 24], vec![19, 23, 25, 21]]
    );

    let d = State::get_move(MOVES::D);

    assert_eq!(
        d.get_cycles(),
        vec![vec![15, 24, 42, 51], vec![16, 25, 43, 52], vec![17, 26, 44, 53], vec![27, 29, 35, 33], vec![28, 32, 34, 30]]
    );

    let b = State::get_move(MOVES::B);

    assert_eq!(
        b.get_cycles(),
        vec![vec![0, 51, 35, 20], vec![1, 48, 34, 23], vec![2, 45, 33, 26], vec![36, 38, 44, 42], vec![37, 41, 43, 39]]
    );

    let l = State::get_move(MOVES::L);

    assert_eq!(
        l.get_cycles(),
        vec![vec![0, 9, 27, 44], vec![3, 12, 30, 41], vec![6, 15, 33, 38], vec![45, 47, 53, 51], vec![46, 50, 52, 48]]
    );
}

#[test]
fn solved_has_no_cycles() {
    assert_eq!(State::new_solved().get_cycles(), Vec::<Vec<u8>>::new());
}

#[test]
fn cycles_constructor() {
    let c = State::cycles(&vec![3, 7, 20]);
    let p = c.get_p();
    assert_eq!(p[3], 7);
    assert_eq!(p[7], 20);
    assert_eq!(p[20], 3);
    assert_eq!(p[0], 0);
    assert_eq!(c.get_cycles(), vec![vec![3, 7, 20]]);
    assert_eq!(State::cycles(&vec![]), State::new_solved());
    assert_eq!(State::cycles(&vec![5]), State::new_solved());
}

#[test]
fn product_of_cycles_rebuilds_u() {
    let u = State::product_of_cycles(&vec![
        vec![9, 45, 36, 18],
        vec![10, 46, 37, 19],
        vec![11, 47, 38, 20],
        vec![0, 2, 8, 6],
        vec![1, 5, 7, 3],
    ]);
    assert_eq!(u, State::get_move(MOVES::U));
}

#[test]
fn catalogue_variants() {
    let r = State::get_move(MOVES::R);
    assert_eq!(State::get_move(MOVES::R2), r.apply(&r));
    assert_eq!(State::get_move(MOVES::RPrime), r.get_prime());
    let moves = cube::moves::new();
    assert_eq!(*moves.get(MOVES::Uw.index()), State::get_move(MOVES::Uw));
    assert_eq!(MOVES::X.index(), 0);
    assert_eq!(MOVES::SPrime.index(), 53);
}

#[test]
fn wide_turns_are_face_and_slice() {
    let solved = State::new_solved();
    let uw = solved.apply_moves("Uw").unwrap();
    assert_eq!(uw, solved.apply_moves("U E'").unwrap());
    assert_eq!(solved.apply_moves("u").unwrap(), uw);
    assert_eq!(solved.apply_moves("r2").unwrap(), solved.apply_moves("R2 M2").unwrap());
}
