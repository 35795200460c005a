//! The puzzle state: a permutation of the 54 facelet positions.

use vstd::prelude::*;
use crate::arith::{lcm, pow3};
use crate::laws::{law_period, power};
use crate::moves::{move_perm, MoveTable, MOVES};
use crate::notation::{
    apply_tokens, chars_of, lemma_apply_tokens_stops, parse_move, parse_token, split_tokens, split_ws,
};
use crate::perm::{
    compose, cycle_next, cycle_perm, identity_perm, inverse, is_perm, is_position_list,
    lemma_compose_perm, lemma_cycle_perm, lemma_inverse, lemma_perm_onto,
    preimage, product_of, NUM_P, in_cycles, is_cycle_decomposition, is_cycle_of,
    lemma_position_list_len, lemma_period_step, lcm_of_lengths, total_len, disjoint_lists, lemma_disjoint_total_len,
};

verus! {

/// One configuration of the puzzle, or the effect of one move: a bijection
/// on the 54 facelet positions.
///
/// The facelet that starts at position `i` is carried to position `p[i]`;
/// [`State::apply`] performs one state after another.
#[derive(Debug, Clone, Copy)]
pub struct State {
    p: [u8; NUM_P],
}

/// Why an operation on states was refused.
#[derive(Debug, Clone, PartialEq, Eq)]
pub enum CubeError {
    /// Raw values that are not a bijection on the 54 positions.
    InvalidPermutation,
    /// A move token that the catalogue does not know.
    UnknownMove(String),
}

/// The six sticker colours; face `k` of the solved puzzle has colour `k`.
#[derive(Debug, Clone, Copy, PartialEq, Eq, Structural)]
pub enum Color {
    White,
    Green,
    Red,
    Yellow,
    Blue,
    Orange,
}

/// The six faces, in the order of the facelet numbering.
#[derive(Debug, Clone, Copy, PartialEq, Eq, Structural)]
pub enum Face {
    Up,
    Front,
    Right,
    Down,
    Back,
    Left,
}

impl Face {
    /// The position of the face in the numbering.
    pub open spec fn spec_index(self) -> int {
        match self {
            Face::Up => 0,
            Face::Front => 1,
            Face::Right => 2,
            Face::Down => 3,
            Face::Back => 4,
            Face::Left => 5,
        }
    }

    fn index(&self) -> (r: usize)
        ensures
            r == self.spec_index(),
    {
        match self {
            Face::Up => 0,
            Face::Front => 1,
            Face::Right => 2,
            Face::Down => 3,
            Face::Back => 4,
            Face::Left => 5,
        }
    }
}

/// The colour of the solved puzzle at facelet position `pos`.
pub open spec fn home_color(pos: int) -> Color {
    let f = pos / 9;
    if f == 0 {
        Color::White
    } else if f == 1 {
        Color::Green
    } else if f == 2 {
        Color::Red
    } else if f == 3 {
        Color::Yellow
    } else if f == 4 {
        Color::Blue
    } else {
        Color::Orange
    }
}

fn home_color_of(pos: u8) -> (r: Color)
    ensures
        r == home_color(pos as int),
{
    let f = pos / 9;
    if f == 0 {
        Color::White
    } else if f == 1 {
        Color::Green
    } else if f == 2 {
        Color::Red
    } else if f == 3 {
        Color::Yellow
    } else if f == 4 {
        Color::Blue
    } else {
        Color::Orange
    }
}

/// Each of the first five faces shows one colour, read through `p`.
pub open spec fn is_solved_spec(p: Seq<u8>) -> bool {
    forall|f: int, j: int|
        0 <= f < 5 && 1 <= j < 9 ==> home_color(#[trigger] p[9 * f + j] as int) == home_color(
            p[9 * f] as int,
        )
}

/// How many of the positions `ps` are fixed by `p`.
pub open spec fn count_fixed(p: Seq<u8>, ps: Seq<usize>) -> int
    decreases ps.len(),
{
    if ps.len() == 0 {
        0
    } else {
        count_fixed(p, ps.drop_last()) + if p[ps.last() as int] as int == ps.last() as int {
            1int
        } else {
            0int
        }
    }
}

/// The corner facelets of the Up and Down faces.
pub open spec fn corner_positions() -> Seq<usize> {
    seq![0usize, 2, 6, 8, 27, 29, 33, 35]
}

/// The edge facelets of the Up and Down faces, and four of the middle
/// layers'.
pub open spec fn edge_positions() -> Seq<usize> {
    seq![1usize, 3, 5, 7, 12, 14, 39, 41, 28, 30, 32, 34]
}

impl View for State {
    type V = Seq<u8>;

    closed spec fn view(&self) -> Seq<u8> {
        self.p@
    }
}

impl State {
    /// The state is a bijection on the facelet positions.
    pub open spec fn wf(&self) -> bool {
        is_perm(self@)
    }

    /// The solved puzzle: white on top, green in front.
    pub fn new_solved() -> (r: State)
        ensures
            r@ == identity_perm(),
            r.wf(),
    {
        let mut p: [u8; NUM_P] = [0; NUM_P];
        let mut i: usize = 0;
        while i < NUM_P
            invariant
                i <= NUM_P,
                forall|j: int| 0 <= j < i ==> p@[j] as int == j,
            decreases NUM_P - i,
        {
            p[i] = i as u8;
            i = i + 1;
        }
        let r = State { p };
        assert(r@ =~= identity_perm());
        r
    }

    /// The 54 entries of the permutation.
    pub fn get_p(&self) -> (r: [u8; NUM_P])
        ensures
            r@ == self@,
    {
        self.p
    }

    /// True iff every facelet is at its home position. Only meaningful for
    /// states reached without whole-cube rotations or slice moves, which
    /// displace the centres.
    pub fn is_solved0(&self) -> (r: bool)
        ensures
            r == (self@ == identity_perm()),
    {
        let mut i: usize = 0;
        while i < NUM_P
            invariant
                i <= NUM_P,
                forall|j: int| 0 <= j < i ==> self@[j] as int == j,
            decreases NUM_P - i,
        {
            if self.p[i] as usize != i {
                assert(self@[i as int] != identity_perm()[i as int]);
                return false;
            }
            i = i + 1;
        }
        assert(self@ =~= identity_perm());
        true
    }

    /// Performs `self`, then `mv`. Neither argument changes.
    pub fn apply(&self, mv: &State) -> (r: State)
        requires
            self.wf(),
            mv.wf(),
        ensures
            r@ == compose(self@, mv@),
            r.wf(),
    {
        let mut p: [u8; NUM_P] = [0; NUM_P];
        let mut i: usize = 0;
        while i < NUM_P
            invariant
                i <= NUM_P,
                self.wf(),
                mv.wf(),
                forall|j: int| 0 <= j < i ==> p@[j] == mv@[self@[j] as int],
            decreases NUM_P - i,
        {
            p[i] = mv.p[self.p[i] as usize];
            i = i + 1;
        }
        let r = State { p };
        assert(r@ =~= compose(self@, mv@));
        proof {
            lemma_compose_perm(self@, mv@);
        }
        r
    }

    /// The move that undoes `self`.
    pub fn get_prime(&self) -> (r: State)
        requires
            self.wf(),
        ensures
            r@ == inverse(self@),
            r.wf(),
    {
        let mut p: [u8; NUM_P] = [0; NUM_P];
        let mut i: usize = 0;
        while i < NUM_P
            invariant
                i <= NUM_P,
                self.wf(),
                forall|j: int| 0 <= j < i ==> #[trigger] p@[self@[j] as int] as int == j,
            decreases NUM_P - i,
        {
            p[self.p[i] as usize] = i as u8;
            assert(forall|j: int| 0 <= j < i ==> self@[j] != self@[i as int]);
            i = i + 1;
        }
        proof {
            lemma_inverse(self@);
            lemma_perm_onto(self@);
            assert forall|v: int| 0 <= v < 54 implies p@[v] == inverse(self@)[v] by {
                let j = preimage(self@, v);
                assert(p@[self@[j] as int] as int == j);
            }
        }
        let r = State { p };
        assert(r@ =~= inverse(self@));
        r
    }

    /// The cyclic permutation over the distinct positions `cp`: each goes to
    /// the next, the last to the first, and every other position stays.
    pub fn cycles(cp: &Vec<u8>) -> (r: State)
        requires
            is_position_list(cp@),
        ensures
            r@ == cycle_perm(cp@),
            r.wf(),
    {
        let mut p = State::new_solved().p;
        let n = cp.len();
        if n > 0 {
            let first = cp[0];
            let last = cp[n - 1];
            let mut k: usize = 0;
            while k + 1 < n
                invariant
                    n == cp@.len(),
                    k < n,
                    is_position_list(cp@),
                    forall|m: int| 0 <= m < k ==> p@[#[trigger] cp@[m] as int] == cp@[m + 1],
                    forall|i: int|
                        0 <= i < 54 && !cp@.take(k as int).contains(i as u8) ==> #[trigger] p@[i]
                            == i as u8,
                decreases n - k,
            {
                proof {
                    assert forall|i: int|
                        0 <= i < 54 && !#[trigger] cp@.take(k + 1).contains(i as u8) implies !cp@.take(
                        k as int,
                    ).contains(i as u8) && i != cp@[k as int] by {
                        if cp@.take(k as int).contains(i as u8) {
                            let t = cp@.take(k as int);
                            let m = choose|m: int| 0 <= m < t.len() && t[m] == i as u8;
                            assert(cp@.take(k + 1)[m] == i as u8);
                        }
                        assert(cp@.take(k + 1)[k as int] == cp@[k as int]);
                    }
                    assert(forall|m: int| 0 <= m < k ==> cp@[m] != cp@[k as int]);
                }
                p[cp[k] as usize] = cp[k + 1];
                k = k + 1;
            }
            p[last as usize] = first;
            proof {
                assert(cp@.take(k as int) =~= cp@.drop_last());
                assert(forall|m: int| 0 <= m < k ==> cp@[m] != cp@[k as int]);
            }
        }
        proof {
            lemma_cycle_perm(cp@);
            assert forall|i: int| 0 <= i < 54 implies p@[i] == cycle_perm(cp@)[i] by {
                if cp@.contains(i as u8) {
                    let m = cp@.index_of(i as u8);
                    assert(cp@[m] as int == i);
                    assert(cycle_perm(cp@)[cp@[m] as int] == cycle_next(cp@, m));
                } else if n > 0 {
                    assert(!cp@.take(n - 1).contains(i as u8)) by {
                        if cp@.take(n - 1).contains(i as u8) {
                            let t = cp@.take(n - 1);
                            let m = choose|m: int| 0 <= m < t.len() && t[m] == i as u8;
                            assert(cp@[m] == i as u8);
                        }
                    }
                    assert(cp@[n - 1] != i as u8);
                }
            }
        }
        let r = State { p };
        assert(r@ =~= cycle_perm(cp@));
        r
    }

    /// The product of the cyclic permutations of `pcp`, performed in order.
    pub fn product_of_cycles(pcp: &Vec<Vec<u8>>) -> (r: State)
        requires
            forall|j: int| 0 <= j < pcp@.len() ==> is_position_list(#[trigger] pcp@[j]@),
        ensures
            r@ == product_of(pcp@.map_values(|c: Vec<u8>| c@)),
            r.wf(),
    {
        let ghost cs = pcp@.map_values(|c: Vec<u8>| c@);
        let mut st = State::new_solved();
        let mut k: usize = 0;
        while k < pcp.len()
            invariant
                k <= pcp@.len(),
                cs == pcp@.map_values(|c: Vec<u8>| c@),
                forall|j: int| 0 <= j < pcp@.len() ==> is_position_list(#[trigger] pcp@[j]@),
                st@ == product_of(cs.take(k as int)),
                st.wf(),
            decreases pcp@.len() - k,
        {
            let c = State::cycles(&pcp[k]);
            st = st.apply(&c);
            assert(cs.take(k + 1).drop_last() =~= cs.take(k as int));
            assert(cs.take(k + 1).last() == pcp@[k as int]@);
            k = k + 1;
        }
        assert(cs.take(k as int) =~= cs);
        st
    }

    /// The disjoint cycles of length two or more. Positions are scanned in
    /// increasing order; each cycle starts at the first position of it met
    /// and follows the permutation from there.
    pub fn get_cycles(&self) -> (r: Vec<Vec<u8>>)
        requires
            self.wf(),
        ensures
            is_cycle_decomposition(self@, r@.map_values(|c: Vec<u8>| c@)),
    {
        let ghost p = self@;
        let ghost mut cs: Seq<Seq<u8>> = Seq::empty();
        let mut used: [bool; NUM_P] = [false; NUM_P];
        let mut pcp: Vec<Vec<u8>> = Vec::new();
        let mut i: usize = 0;
        while i < NUM_P
            invariant
                i <= NUM_P,
                self.wf(),
                p == self@,
                cs == pcp@.map_values(|c: Vec<u8>| c@),
                forall|j: int| 0 <= j < cs.len() ==> is_cycle_of(p, #[trigger] cs[j]),
                forall|j1: int, j2: int|
                    0 <= j1 < j2 < cs.len() ==> #[trigger] cs[j1][0] < #[trigger] cs[j2][0],
                forall|j1: int, j2: int, x: u8|
                    0 <= j1 < cs.len() && 0 <= j2 < cs.len() && j1 != j2
                        && #[trigger] cs[j1].contains(x) ==> !#[trigger] cs[j2].contains(x),
                forall|j: int| 0 <= j < cs.len() ==> (#[trigger] cs[j][0] as int) < i,
                forall|x: int| 0 <= x < 54 ==> (#[trigger] used@[x] <==> in_cycles(cs, x as u8)),
                forall|x: int| 0 <= x < i ==> p[x] as int == x || #[trigger] used@[x],
            decreases NUM_P - i,
        {
            if i != self.p[i] as usize && !used[i] {
                used[i] = true;
                let mut cp: Vec<u8> = Vec::new();
                cp.push(i as u8);
                proof {
                    assert forall|x: int| 0 <= x < 54 implies (#[trigger] used@[x] <==> (in_cycles(
                        cs,
                        x as u8,
                    ) || cp@.contains(x as u8))) by {
                        if cp@.contains(x as u8) {
                            assert(cp@[0] == x as u8);
                        }
                        if x == i {
                            assert(cp@[0] == x as u8);
                        }
                    }
                }
                let mut v = self.p[i];
                while i != v as usize
                    invariant
                        i < NUM_P,
                        self.wf(),
                        p == self@,
                        p[i as int] as int != i,
                        cs == pcp@.map_values(|c: Vec<u8>| c@),
                        forall|j: int| 0 <= j < cs.len() ==> is_cycle_of(p, #[trigger] cs[j]),
                        forall|j: int| 0 <= j < cs.len() ==> (#[trigger] cs[j][0] as int) < i,
                        forall|x: int| 0 <= x < i ==> p[x] as int == x || #[trigger] used@[x],
                        1 <= cp@.len(),
                        cp@[0] as int == i,
                        is_position_list(cp@),
                        forall|k: int| 0 <= k < cp@.len() - 1 ==> p[#[trigger] cp@[k] as int] == cp@[k + 1],
                        v == p[cp@.last() as int],
                        forall|k: int| 0 <= k < cp@.len() ==> i <= #[trigger] cp@[k],
                        forall|k: int| 0 <= k < cp@.len() ==> !in_cycles(cs, #[trigger] cp@[k]),
                        forall|x: int|
                            0 <= x < 54 ==> (#[trigger] used@[x] <==> (in_cycles(cs, x as u8)
                                || cp@.contains(x as u8))),
                    decreases 54 - cp@.len(),
                {
                    proof {
                        let n = cp@.len();
                        let last = cp@.last();
                        // `v` is not on the cycle being built
                        assert forall|k: int| 0 <= k < n implies cp@[k] != v by {
                            if k > 0 && cp@[k] == v {
                                assert(p[cp@[k - 1] as int] == p[last as int]);
                                assert(cp@[k - 1] == last);
                            }
                        }
                        // nor on an earlier one
                        assert(!in_cycles(cs, v)) by {
                            if in_cycles(cs, v) {
                                let j = choose|j: int| 0 <= j < cs.len() && #[trigger] cs[j].contains(v);
                                let c = cs[j];
                                assert(is_cycle_of(p, c));
                                let m = choose|m: int| 0 <= m < c.len() && c[m] == v;
                                let pm = if m == 0 { c.len() - 1 } else { m - 1 };
                                assert(p[c[pm] as int] == cycle_next(c, pm));
                                assert(c[pm] == last);
                                assert(c.contains(last));
                                assert(in_cycles(cs, cp@[n - 1]));
                            }
                        }
                        assert(i <= v) by {
                            if (v as int) < i {
                                if p[v as int] == v {
                                    assert(p[v as int] == p[last as int]);
                                    assert(cp@[n - 1] == v);
                                } else {
                                    assert(used@[v as int]);
                                }
                            }
                        }
                    }
                    let ghost old_cp = cp@;
                    used[v as usize] = true;
                    cp.push(v);
                    v = self.p[v as usize];
                    proof {
                        lemma_position_list_len(cp@);
                        assert forall|x: u8| #[trigger] cp@.contains(x) == (old_cp.contains(x) || x
                            == cp@.last()) by {
                            if cp@.contains(x) {
                                let k = choose|k: int| 0 <= k < cp@.len() && cp@[k] == x;
                                if k < old_cp.len() {
                                    assert(old_cp[k] == x);
                                }
                            }
                            if old_cp.contains(x) {
                                let k = choose|k: int| 0 <= k < old_cp.len() && old_cp[k] == x;
                                assert(cp@[k] == x);
                            }
                        }
                    }
                }
                proof {
                    assert(is_cycle_of(p, cp@)) by {
                        assert(cp@.len() >= 2);
                    }
                    let ncs = cs.push(cp@);
                    assert forall|x: u8| in_cycles(ncs, x) == (in_cycles(cs, x) || cp@.contains(x)) by {
                        if cp@.contains(x) {
                            assert(ncs[cs.len() as int] == cp@);
                        }
                        if in_cycles(cs, x) {
                            let j = choose|j: int| 0 <= j < cs.len() && #[trigger] cs[j].contains(x);
                            assert(ncs[j] == cs[j]);
                        }
                    }
                    assert forall|j1: int, j2: int, x: u8|
                        0 <= j1 < ncs.len() && 0 <= j2 < ncs.len() && j1 != j2
                            && #[trigger] ncs[j1].contains(x) implies !#[trigger] ncs[j2].contains(x) by {
                        if j1 == cs.len() || j2 == cs.len() {
                            let c = if j1 == cs.len() { j2 } else { j1 };
                            if ncs[j1].contains(x) && ncs[j2].contains(x) {
                                assert(cs[c].contains(x));
                                assert(in_cycles(cs, x));
                                let k = choose|k: int| 0 <= k < cp@.len() && cp@[k] == x;
                                assert(!in_cycles(cs, cp@[k]));
                            }
                        }
                    }
                    cs = ncs;
                }
                pcp.push(cp);
                assert(cs =~= pcp@.map_values(|c: Vec<u8>| c@));
            }
            i = i + 1;
        }
        proof {
            assert forall|x: int| 0 <= x < 54 && #[trigger] p[x] as int != x implies in_cycles(
                cs,
                x as u8,
            ) by {
                assert(used@[x]);
            }
        }
        pcp
    }

    /// How many times the move must be repeated to come back to the solved
    /// state: the least common multiple of its cycle lengths, or 0 when it
    /// has no cycle.
    pub fn get_period(&self) -> (r: usize)
        requires
            self.wf(),
        ensures
            exists|cs: Seq<Seq<u8>>|
                is_cycle_decomposition(self@, cs) && r == lcm_of_lengths(cs),
            power(self@, r as nat) == identity_perm(),
            forall|k: nat| 0 < k < r ==> #[trigger] power(self@, k) != identity_perm(),
    {
        let pcp = self.get_cycles();
        let ghost cs = pcp@.map_values(|c: Vec<u8>| c@);
        if pcp.len() == 0 {
            assert(is_cycle_decomposition(self@, cs) && lcm_of_lengths(cs) == 0);
            proof {
                law_period(*self, cs);
            }
            return 0;
        }
        proof {
            reveal_with_fuel(pow3, 3);
            assert(cs.take(1).drop_last() =~= Seq::<Seq<u8>>::empty());
            assert(cs.take(1)[0] == cs[0]);
            assert(disjoint_lists(cs.take(1)));
            lemma_disjoint_total_len(cs.take(1));
            crate::arith::lemma_cube_le_pow3(cs[0].len());
            lemma_position_list_len(cs[0]);
            assert(total_len(cs.take(1).drop_last()) == 0);
            assert(total_len(cs.take(1)) == cs[0].len());
            assert(lcm_of_lengths(cs.take(1)) == cs[0].len());
        }
        let mut acc: usize = pcp[0].len();
        let mut k: usize = 1;
        while k < pcp.len()
            invariant
                1 <= k <= pcp@.len(),
                cs == pcp@.map_values(|c: Vec<u8>| c@),
                is_cycle_decomposition(self@, cs),
                acc == lcm_of_lengths(cs.take(k as int)),
                acc > 0,
                (acc as int) * (acc as int) * (acc as int) <= pow3(total_len(cs.take(k as int))) as int,
            decreases pcp@.len() - k,
        {
            let n = pcp[k].len();
            proof {
                lemma_period_step(self@, cs, k as int, acc as nat);
            }
            acc = lcm(acc, n);
            k = k + 1;
        }
        assert(cs.take(k as int) =~= cs);
        assert(is_cycle_decomposition(self@, cs) && acc == lcm_of_lengths(cs));
        proof {
            law_period(*self, cs);
        }
        acc
    }

    /// The move `name` of the catalogue.
    pub fn get_move(name: MOVES) -> (r: State)
        ensures
            r@ == move_perm(name.spec_index()),
            r.wf(),
    {
        let table = crate::moves::new();
        *table.get(name.index())
    }

    /// The move that `name` denotes, if it is a token of the notation.
    pub fn get_move_by_name(name: &str) -> (r: Option<State>)
        ensures
            parse_move(name@) >= 0 ==> r is Some && r->Some_0@ == move_perm(parse_move(name@))
                && r->Some_0.wf(),
            parse_move(name@) < 0 ==> r is None,
    {
        let cs = chars_of(name);
        assert(cs@.subrange(0, cs@.len() as int) =~= name@);
        match parse_token(&cs, 0, cs.len()) {
            Some(k) => {
                let table = crate::moves::new();
                Some(*table.get(k))
            },
            None => None,
        }
    }

    /// Performs the moves named by the whitespace-separated tokens of `mvs`,
    /// looked up in `moves`, in order. Fails on the first token that names no
    /// move, with nothing applied. `self` does not change.
    pub fn apply_arg_moves(&self, moves: &MoveTable, mvs: &str) -> (r: Result<State, CubeError>)
        requires
            self.wf(),
            moves.wf(),
        ensures
            match apply_tokens(self@, split_ws(mvs@)) {
                Ok(p) => r is Ok && r->Ok_0@ == p && r->Ok_0.wf(),
                Err(t) => r is Err && r->Err_0 is UnknownMove && r->Err_0->UnknownMove_0@ == t,
            },
    {
        let cs = chars_of(mvs);
        let toks = split_tokens(&cs);
        let ghost ts = split_ws(mvs@);
        let mut st = *self;
        let mut k: usize = 0;
        while k < toks.len()
            invariant
                cs@ == mvs@,
                ts == split_ws(mvs@),
                toks@.len() == ts.len(),
                forall|j: int|
                    #![trigger toks@[j]]
                    0 <= j < toks@.len() ==> toks@[j].0 < toks@[j].1 && toks@[j].1 <= cs@.len()
                        && cs@.subrange(toks@[j].0 as int, toks@[j].1 as int) == ts[j],
                k <= toks@.len(),
                moves.wf(),
                st.wf(),
                apply_tokens(self@, ts.take(k as int)) == Ok::<Seq<u8>, Seq<char>>(st@),
            decreases toks@.len() - k,
        {
            let (a, b) = toks[k];
            proof {
                assert(ts.take(k + 1).drop_last() =~= ts.take(k as int));
                assert(ts.take(k + 1).last() == ts[k as int]);
            }
            match parse_token(&cs, a, b) {
                Some(idx) => {
                    st = st.apply(moves.get(idx));
                },
                None => {
                    proof {
                        lemma_apply_tokens_stops(self@, ts, k + 1);
                    }
                    let t = mvs.substring_char(a, b).to_owned();
                    return Err(CubeError::UnknownMove(t));
                },
            }
            k = k + 1;
        }
        assert(ts.take(k as int) =~= ts);
        Ok(st)
    }

    /// Performs the named moves of `mvs` as [`State::apply_arg_moves`] does,
    /// with the full catalogue of moves.
    pub fn apply_moves(&self, mvs: &str) -> (r: Result<State, CubeError>)
        requires
            self.wf(),
        ensures
            match apply_tokens(self@, split_ws(mvs@)) {
                Ok(p) => r is Ok && r->Ok_0@ == p && r->Ok_0.wf(),
                Err(t) => r is Err && r->Err_0 is UnknownMove && r->Err_0->UnknownMove_0@ == t,
            },
    {
        let table = crate::moves::new();
        self.apply_arg_moves(&table, mvs)
    }

    /// Whether `p` is a bijection on `0..54`.
    fn is_valid_permutation(p: &[u8; NUM_P]) -> (r: bool)
        ensures
            r == is_perm(p@),
    {
        let mut seen: [bool; NUM_P] = [false; NUM_P];
        let mut i: usize = 0;
        while i < NUM_P
            invariant
                i <= NUM_P,
                forall|j: int| 0 <= j < i ==> (#[trigger] p@[j] as int) < 54,
                forall|j: int, k: int| 0 <= j < i && 0 <= k < i && j != k ==> #[trigger] p@[j] != #[trigger] p@[k],
                forall|v: int| 0 <= v < 54 ==> (#[trigger] seen@[v] <==> exists|j: int| 0 <= j < i && p@[j] as int == v),
            decreases NUM_P - i,
        {
            let v = p[i];
            if v as usize >= NUM_P {
                return false;
            }
            if seen[v as usize] {
                proof {
                    let j = choose|j: int| 0 <= j < i && p@[j] as int == v as int;
                    assert(p@[j] == p@[i as int]);
                }
                return false;
            }
            seen[v as usize] = true;
            proof {
                assert forall|w: int| 0 <= w < 54 implies (#[trigger] seen@[w] <==> exists|j: int| 0 <= j < i + 1 && p@[j] as int == w) by {
                    if w == v as int {
                        assert(p@[i as int] as int == w);
                    }
                    if exists|j: int| 0 <= j < i + 1 && p@[j] as int == w {
                        let j = choose|j: int| 0 <= j < i + 1 && p@[j] as int == w;
                        if j < i {
                            assert(exists|j: int| 0 <= j < i && p@[j] as int == w);
                        }
                    }
                }
            }
            i = i + 1;
        }
        true
    }

    /// The state with entries `p`, refused unless they are a bijection on
    /// the 54 positions.
    pub fn new(p: Box<[u8; NUM_P]>) -> (r: Result<State, CubeError>)
        ensures
            is_perm((*p)@) ==> r is Ok && r->Ok_0@ == (*p)@ && r->Ok_0.wf(),
            !is_perm((*p)@) ==> r is Err && r->Err_0 is InvalidPermutation,
    {
        let p = *p;
        if State::is_valid_permutation(&p) {
            Ok(State { p })
        } else {
            Err(CubeError::InvalidPermutation)
        }
    }

    /// True iff each of the faces Up, Front, Right, Down and Back shows a
    /// single colour (the Left face then does too). Unlike
    /// [`State::is_solved0`] it holds after whole-cube rotations.
    pub fn is_solved(&self) -> (r: bool)
        requires
            self.wf(),
        ensures
            r == is_solved_spec(self@),
    {
        let mut f: usize = 0;
        while f < 5
            invariant
                f <= 5,
                self.wf(),
                forall|g: int, j: int|
                    0 <= g < f && 1 <= j < 9 ==> home_color(#[trigger] self@[9 * g + j] as int)
                        == home_color(self@[9 * g] as int),
            decreases 5 - f,
        {
            let c = home_color_of(self.p[9 * f]);
            let mut j: usize = 1;
            while j < 9
                invariant
                    f < 5,
                    1 <= j <= 9,
                    self.wf(),
                    c == home_color(self@[9 * f as int] as int),
                    forall|g: int, k: int|
                        0 <= g < f && 1 <= k < 9 ==> home_color(#[trigger] self@[9 * g + k] as int)
                            == home_color(self@[9 * g] as int),
                    forall|k: int| 1 <= k < j ==> home_color(#[trigger] self@[9 * f + k] as int) == c,
                decreases 9 - j,
            {
                if home_color_of(self.p[9 * f + j]) != c {
                    assert(!(home_color(self@[9 * f + j] as int) == home_color(self@[9 * f as int] as int)));
                    return false;
                }
                j = j + 1;
            }
            f = f + 1;
        }
        true
    }

    /// How many of the positions `ps` the state fixes.
    fn count_fixed_at(&self, ps: &[usize]) -> (r: i32)
        requires
            self.wf(),
            ps@.len() <= 54,
            forall|k: int| 0 <= k < ps@.len() ==> #[trigger] ps@[k] < 54,
        ensures
            r == count_fixed(self@, ps@),
    {
        let mut count: i32 = 0;
        let mut k: usize = 0;
        while k < ps.len()
            invariant
                k <= ps@.len(),
                ps@.len() <= 54,
                forall|m: int| 0 <= m < ps@.len() ==> #[trigger] ps@[m] < 54,
                count == count_fixed(self@, ps@.take(k as int)),
                0 <= count <= k,
            decreases ps@.len() - k,
        {
            proof {
                assert(ps@.take(k + 1).drop_last() =~= ps@.take(k as int));
            }
            let i = ps[k];
            if self.p[i] as usize == i {
                count = count + 1;
            }
            k = k + 1;
        }
        assert(ps@.take(k as int) =~= ps@);
        count
    }

    /// How many corner facelets of the Up and Down faces are at home.
    pub fn count_solved0_corners(&self) -> (r: i32)
        requires
            self.wf(),
        ensures
            r == count_fixed(self@, corner_positions()),
    {
        let ps: [usize; 8] = [0, 2, 6, 8, 27, 29, 33, 35];
        assert(ps@ =~= corner_positions());
        self.count_fixed_at(&ps)
    }

    /// How many of the edge facelets listed by `edge_positions` are at home.
    pub fn count_solved0_edges(&self) -> (r: i32)
        requires
            self.wf(),
        ensures
            r == count_fixed(self@, edge_positions()),
    {
        let ps: [usize; 12] = [1, 3, 5, 7, 12, 14, 39, 41, 28, 30, 32, 34];
        assert(ps@ =~= edge_positions());
        self.count_fixed_at(&ps)
    }

    /// The nine colours shown on `face`, in reading order: the facelet at
    /// position `i` shows the home colour of the facelet that the state
    /// brought there.
    pub fn get_face_colors(&self, face: Face) -> (r: [Color; 9])
        requires
            self.wf(),
        ensures
            forall|i: int|
                0 <= i < 9 ==> #[trigger] r@[i] == home_color(
                    inverse(self@)[9 * face.spec_index() + i] as int,
                ),
    {
        let mut colors: [Color; 9] = [Color::White; 9];
        let start = face.index() * 9;
        let inv = self.get_prime();
        let mut i: usize = 0;
        while i < 9
            invariant
                i <= 9,
                start == 9 * face.spec_index(),
                start + 9 <= 54,
                inv@ == inverse(self@),
                inv.wf(),
                forall|k: int| 0 <= k < i ==> #[trigger] colors@[k] == home_color(inv@[start + k] as int),
            decreases 9 - i,
        {
            colors[i] = home_color_of(inv.p[start + i]);
            i = i + 1;
        }
        colors
    }
}

impl PartialEq for State {
    fn eq(&self, other: &State) -> (r: bool) {
        let mut i: usize = 0;
        while i < NUM_P
            invariant
                i <= NUM_P,
                forall|j: int| 0 <= j < i ==> self@[j] == other@[j],
            decreases NUM_P - i,
        {
            if self.p[i] != other.p[i] {
                return false;
            }
            i = i + 1;
        }
        assert(self@ =~= other@);
        true
    }
}

impl vstd::std_specs::cmp::PartialEqSpecImpl for State {
    open spec fn obeys_eq_spec() -> bool {
        true
    }

    open spec fn eq_spec(&self, other: &State) -> bool {
        self@ == other@
    }
}

impl Eq for State {
}

impl Default for State {
    fn default() -> (r: State)
        ensures
            r@ == identity_perm(),
            r.wf(),
    {
        State::new_solved()
    }
}

} // verus!
