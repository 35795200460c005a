use cube::{Color, Face, State};

#[test]
fn test_scramble() {
    let moves = cube::moves::new();

    let solved = State::new_solved();
    let scramble = "U' F' D2 R U2 R' U2 F2 R D2 L2 D2 R' B U' L' B2 D2 B2 U2";
    let cb = solved.apply_arg_moves(&moves, scramble).unwrap();

    let w = Color::White;
    let g = Color::Green;
    let r = Color::Red;
    let y = Color::Yellow;
    let b = Color::Blue;
    let o = Color::Orange;

    assert_eq!(cb.get_face_colors(Face::Up), [o, b, y, y, w, b, w, r, g]);
    assert_eq!(cb.get_face_colors(Face::Front), [r, g, y, y, g, o, w, y, r]);
    assert_eq!(cb.get_face_colors(Face::Right), [r, o, o, w, r, o, b, w, o]);
    assert_eq!(cb.get_face_colors(Face::Down), [g, g, y, y, y, r, w, b, y]);
    assert_eq!(cb.get_face_colors(Face::Back), [b, r, w, g, b, g, g, w, b]);
    assert_eq!(cb.get_face_colors(Face::Left), [b, b, g, w, o, r, r, o, o]);
}

#[test]
fn test_checkered_pattern() {
    let moves = cube::moves::new();

    let solved = State::new_solved();
    let scramble = "M2 E2 S2";
    let cb = solved.apply_arg_moves(&moves, scramble).unwrap();

    let w = Color::White;
    let g = Color::Green;
    let r = Color::Red;
    let y = Color::Yellow;
    let b = Color::Blue;
    let o = Color::Orange;

    assert_eq!(cb.get_face_colors(Face::Up), [w, y, w, y, w, y, w, y, w]);
    assert_eq!(cb.get_face_colors(Face::Front), [g, b, g, b, g, b, g, b, g]);
    assert_eq!(cb.get_face_colors(Face::Right), [r, o, r, o, r, o, r, o, r]);
    assert_eq!(cb.get_face_colors(Face::Down), [y, w, y, w, y, w, y, w, y]);
    assert_eq!(cb.get_face_colors(Face::Back), [b, g, b, g, b, g, b, g, b]);
    assert_eq!(cb.get_face_colors(Face::Left), [o, r, o, r, o, r, o, r, o]);
}

#[test]
fn solved_faces_show_home_colours() {
    let s = State::new_solved();
    assert_eq!(s.get_face_colors(Face::Up), [Color::White; 9]);
    assert_eq!(s.get_face_colors(Face::Left), [Color::Orange; 9]);
}
