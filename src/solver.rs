//! A bounded iterative-deepening search for a sequence of face turns that
//! brings a state back to solved.

use vstd::prelude::*;
use crate::moves::{move_perm, MoveTable};
use crate::perm::{compose, identity_perm};
use crate::state::State;

verus! {

/// `c` is one of the face letters `U F R D B L`.
pub open spec fn is_face_letter(c: char) -> bool {
    c == 'U' || c == 'F' || c == 'R' || c == 'D' || c == 'B' || c == 'L'
}

/// The face across the cube from face `c`.
pub open spec fn opposite_face(c: char) -> char {
    if c == 'U' {
        'D'
    } else if c == 'D' {
        'U'
    } else if c == 'L' {
        'R'
    } else if c == 'R' {
        'L'
    } else if c == 'F' {
        'B'
    } else {
        'F'
    }
}

/// A turn of face `cur` may follow a turn of face `prev`: never the same
/// face twice in a row, and two opposite faces only in increasing letter
/// order.
pub open spec fn available(prev: Option<char>, cur: char) -> bool {
    match prev {
        None => true,
        Some(p) => p != cur && (opposite_face(p) == cur ==> (p as u32) < (cur as u32)),
    }
}

/// The face letter at position `f` of the order U, F, R, D, B, L.
pub open spec fn face_letter(f: int) -> char {
    if f == 0 {
        'U'
    } else if f == 1 {
        'F'
    } else if f == 2 {
        'R'
    } else if f == 3 {
        'D'
    } else if f == 4 {
        'B'
    } else {
        'L'
    }
}

/// The name of the face turn `t` of the search, in `0..18`: the six
/// quarter turns, then the six half turns, then the six inverse turns.
pub open spec fn turn_name(t: int) -> Seq<char> {
    let f = seq![face_letter(t % 6)];
    if t / 6 == 0 {
        f
    } else if t / 6 == 1 {
        f.push('2')
    } else {
        f.push('\'')
    }
}

/// The position in the catalogue of the face turn `t`.
pub open spec fn turn_index(t: int) -> int {
    3 * (3 + t % 6) + t / 6
}

/// Every turn of `ts` is a face turn that the pruning rule allows after the
/// one before it, the first after a turn of face `prev`.
pub open spec fn valid_turns(prev: Option<char>, ts: Seq<int>) -> bool
    decreases ts.len(),
{
    if ts.len() == 0 {
        true
    } else {
        &&& 0 <= ts[0] < 18
        &&& available(prev, face_letter(ts[0] % 6))
        &&& valid_turns(Some(face_letter(ts[0] % 6)), ts.drop_first())
    }
}

/// The state reached from `p` by the face turns `ts`.
pub open spec fn run_turns(p: Seq<u8>, ts: Seq<int>) -> Seq<u8>
    decreases ts.len(),
{
    if ts.len() == 0 {
        p
    } else {
        run_turns(compose(p, move_perm(turn_index(ts[0]))), ts.drop_first())
    }
}

/// `ts` is a valid sequence of `depth` face turns, after a turn of face
/// `prev`, that takes `p` to solved.
pub open spec fn solves(p: Seq<u8>, prev: Option<char>, ts: Seq<int>, depth: int) -> bool {
    &&& ts.len() == depth
    &&& valid_turns(prev, ts)
    &&& run_turns(p, ts) == identity_perm()
}

/// The names held by `v`.
pub open spec fn names_of(v: Seq<String>) -> Seq<Seq<char>> {
    v.map_values(|s: String| s@)
}

/// The face of the last move of `v`, if there is one.
pub open spec fn last_face(v: Seq<String>) -> Option<char> {
    if v.len() == 0 {
        None
    } else {
        Some(v.last()@[0])
    }
}

/// Every move of `v` has a name that starts with a face letter.
pub open spec fn face_history(v: Seq<String>) -> bool {
    forall|k: int| 0 <= k < v.len() ==> (#[trigger] v[k])@.len() > 0 && is_face_letter(v[k]@[0])
}

/// Whether `cur_move` may be played after `prev_move` (or first, when
/// there is none): the faces differ, and opposite faces come in increasing
/// letter order.
pub fn is_move_available(prev_move: Option<&String>, cur_move: &str) -> (r: bool)
    requires
        prev_move matches Some(p) ==> p@.len() > 0 && is_face_letter(p@[0]),
        cur_move@.len() > 0,
    ensures
        r == available(
            match prev_move {
                Some(p) => Some(p@[0]),
                None => None,
            },
            cur_move@[0],
        ),
{
    match prev_move {
        None => true,
        Some(p) => {
            let prev_face = p.as_str().get_char(0);
            let cur_face = cur_move.get_char(0);
            if prev_face == cur_face {
                return false;
            }
            let opposite = if prev_face == 'U' {
                'D'
            } else if prev_face == 'D' {
                'U'
            } else if prev_face == 'L' {
                'R'
            } else if prev_face == 'R' {
                'L'
            } else if prev_face == 'F' {
                'B'
            } else {
                'F'
            };
            if opposite == cur_face {
                return (prev_face as u32) < (cur_face as u32);
            }
            true
        },
    }
}

/// The name of the face turn `t`.
fn move_name(t: usize) -> (r: &'static str)
    requires
        t < 18,
    ensures
        r@ == turn_name(t as int),
{
    if t == 0 {
        proof {
            reveal_strlit("U");
        }
        "U"
    } else if t == 1 {
        proof {
            reveal_strlit("F");
        }
        "F"
    } else if t == 2 {
        proof {
            reveal_strlit("R");
        }
        "R"
    } else if t == 3 {
        proof {
            reveal_strlit("D");
        }
        "D"
    } else if t == 4 {
        proof {
            reveal_strlit("B");
        }
        "B"
    } else if t == 5 {
        proof {
            reveal_strlit("L");
        }
        "L"
    } else if t == 6 {
        proof {
            reveal_strlit("U2");
        }
        "U2"
    } else if t == 7 {
        proof {
            reveal_strlit("F2");
        }
        "F2"
    } else if t == 8 {
        proof {
            reveal_strlit("R2");
        }
        "R2"
    } else if t == 9 {
        proof {
            reveal_strlit("D2");
        }
        "D2"
    } else if t == 10 {
        proof {
            reveal_strlit("B2");
        }
        "B2"
    } else if t == 11 {
        proof {
            reveal_strlit("L2");
        }
        "L2"
    } else if t == 12 {
        proof {
            reveal_strlit("U'");
        }
        "U'"
    } else if t == 13 {
        proof {
            reveal_strlit("F'");
        }
        "F'"
    } else if t == 14 {
        proof {
            reveal_strlit("R'");
        }
        "R'"
    } else if t == 15 {
        proof {
            reveal_strlit("D'");
        }
        "D'"
    } else if t == 16 {
        proof {
            reveal_strlit("B'");
        }
        "B'"
    } else {
        proof {
            reveal_strlit("L'");
        }
        "L'"
    }
}

/// Looks for exactly `depth` more face turns that solve `state`, each
/// allowed after the last move of `solution`. On success the turns are
/// appended to `solution`; otherwise `solution` is left as it was.
fn depth_limited_search(
    moves: &MoveTable,
    state: &State,
    solution: &mut Vec<String>,
    depth: i32,
) -> (found: bool)
    requires
        moves.wf(),
        state.wf(),
        depth >= 0,
        face_history(old(solution)@),
    ensures
        found == exists|ts: Seq<int>| solves(state@, last_face(old(solution)@), ts, depth as int),
        found ==> exists|ts: Seq<int>|
            solves(state@, last_face(old(solution)@), ts, depth as int) && names_of(final(solution)@)
                == names_of(old(solution)@) + ts.map_values(|t: int| turn_name(t)),
        !found ==> final(solution)@ == old(solution)@,
        face_history(final(solution)@),
    decreases depth,
{
    let ghost prev = last_face(solution@);
    if depth == 0 {
        let solved = state.is_solved0();
        proof {
            let e = Seq::<int>::empty();
            if solved {
                assert(solves(state@, prev, e, 0));
                assert(names_of(solution@) + e.map_values(|t: int| turn_name(t)) =~= names_of(
                    solution@,
                ));
            }
        }
        return solved;
    }
    let ghost sol0 = solution@;
    let mut t: usize = 0;
    while t < 18
        invariant
            moves.wf(),
            state.wf(),
            depth > 0,
            solution@ == sol0,
            sol0 == old(solution)@,
            face_history(sol0),
            prev == last_face(sol0),
            t <= 18,
            forall|ts: Seq<int>|
                #![trigger solves(state@, prev, ts, depth as int)]
                solves(state@, prev, ts, depth as int) ==> ts[0] >= t,
        decreases 18 - t,
    {
        let name = move_name(t);
        let n = solution.len();
        let last = if n == 0 {
            None
        } else {
            Some(&solution[n - 1])
        };
        let ok = is_move_available(last, name);
        let ghost face = face_letter(t as int % 6);
        assert(name@[0] == face);
        if ok {
            solution.push(name.to_owned());
            proof {
                assert(solution@.last()@ == turn_name(t as int));
                assert forall|k: int| 0 <= k < solution@.len() implies (#[trigger] solution@[k])@.len()
                    > 0 && is_face_letter(solution@[k]@[0]) by {
                    if k < sol0.len() {
                        assert(solution@[k] == sol0[k]);
                    }
                }
            }
            let next = state.apply(moves.get(3 * (3 + t % 6) + t / 6));
            let ghost sol1 = solution@;
            if depth_limited_search(moves, &next, solution, depth - 1) {
                proof {
                    let ts1 = choose|ts1: Seq<int>|
                        #[trigger] solves(next@, last_face(sol1), ts1, depth - 1) && names_of(solution@)
                            == names_of(sol1) + ts1.map_values(|t: int| turn_name(t));
                    let ts = seq![t as int] + ts1;
                    assert(ts.drop_first() =~= ts1);
                    assert(solves(state@, prev, ts, depth as int));
                    assert(names_of(sol1) =~= names_of(sol0).push(turn_name(t as int)));
                    assert(ts.map_values(|t: int| turn_name(t)) =~= seq![turn_name(t as int)]
                        + ts1.map_values(|t: int| turn_name(t)));
                    assert(names_of(solution@) =~= names_of(sol0) + ts.map_values(
                        |t: int| turn_name(t),
                    ));
                }
                return true;
            }
            solution.pop();
            proof {
                assert(solution@ =~= sol0);
                assert forall|ts: Seq<int>| solves(state@, prev, ts, depth as int) implies ts[0]
                    >= t + 1 by {
                    if ts[0] == t {
                        assert(solves(next@, last_face(sol1), ts.drop_first(), depth - 1));
                    }
                }
            }
        } else {
            proof {
                assert forall|ts: Seq<int>| solves(state@, prev, ts, depth as int) implies ts[0]
                    >= t + 1 by {
                    if ts[0] == t {
                        assert(available(prev, face));
                    }
                }
            }
        }
        t = t + 1;
    }
    proof {
        assert forall|ts: Seq<int>| !solves(state@, prev, ts, depth as int) by {
            if solves(state@, prev, ts, depth as int) {
                assert(ts[0] < 18);
            }
        }
    }
    false
}

/// Searches by iterative deepening, over lengths `0..max_length`, for a
/// sequence of face turns that solves `state` under the pruning rule.
/// Returns the names of a shortest such sequence, or `None` when every
/// such sequence is at least `max_length` turns long. The state must have
/// been reached by face turns only: solved means equal to the identity.
pub fn start_search(state: &State, max_length: i32) -> (r: Option<Vec<String>>)
    requires
        state.wf(),
    ensures
        r is None <==> forall|ts: Seq<int>|
            #[trigger] solves(state@, None, ts, ts.len() as int) ==> ts.len() >= max_length,
        r matches Some(v) ==> exists|ts: Seq<int>|
            #[trigger] solves(state@, None, ts, ts.len() as int) && ts.len() < max_length && names_of(
                v@,
            ) == ts.map_values(|t: int| turn_name(t)) && forall|ts2: Seq<int>|
                #[trigger] solves(state@, None, ts2, ts2.len() as int) ==> ts2.len() >= ts.len(),
{
    let table = crate::moves::new();
    let mut solution: Vec<String> = Vec::new();
    let mut depth: i32 = 0;
    while depth < max_length
        invariant
            table.wf(),
            state.wf(),
            0 <= depth,
            depth <= max_length || depth == 0,
            solution@ == Seq::<String>::empty(),
            forall|ts: Seq<int>|
                #[trigger] solves(state@, None, ts, ts.len() as int) ==> ts.len() >= depth,
        decreases max_length - depth,
    {
        let ghost sol0 = solution@;
        assert(face_history(solution@));
        if depth_limited_search(&table, state, &mut solution, depth) {
            proof {
                let ts = choose|ts: Seq<int>|
                    #[trigger] solves(state@, last_face(sol0), ts, depth as int) && names_of(solution@)
                        == names_of(sol0) + ts.map_values(|t: int| turn_name(t));
                assert(names_of(sol0) =~= Seq::<Seq<char>>::empty());
                assert(names_of(solution@) =~= ts.map_values(|t: int| turn_name(t)));
                assert(solves(state@, None, ts, ts.len() as int));
            }
            return Some(solution);
        }
        proof {
            assert forall|ts: Seq<int>|
                #[trigger] solves(state@, None, ts, ts.len() as int) implies ts.len() >= depth + 1 by {
                if ts.len() == depth {
                    assert(solves(state@, last_face(sol0), ts, depth as int));
                }
            }
        }
        depth = depth + 1;
    }
    None
}

} // verus!
