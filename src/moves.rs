//! The catalogue of named moves, derived from the rotations `x`, `y` and
//! the face turn `U`.

use vstd::prelude::*;
use crate::perm::{compose, inverse, is_perm, product_of};
use crate::state::State;

verus! {

/// Every move of the catalogue: for each base move, the move itself, the
/// move done twice (`2`), and its inverse (`Prime`, written `'`).
#[derive(Debug, Clone, Copy, PartialEq, Eq)]
#[allow(non_camel_case_types, clippy::upper_case_acronyms)]
pub enum MOVES {
    /// `x`
    X,
    /// `x2`
    X2,
    /// `x'`
    XPrime,
    /// `y`
    Y,
    /// `y2`
    Y2,
    /// `y'`
    YPrime,
    /// `z`
    Z,
    /// `z2`
    Z2,
    /// `z'`
    ZPrime,
    /// `U`
    U,
    /// `U2`
    U2,
    /// `U'`
    UPrime,
    /// `F`
    F,
    /// `F2`
    F2,
    /// `F'`
    FPrime,
    /// `R`
    R,
    /// `R2`
    R2,
    /// `R'`
    RPrime,
    /// `D`
    D,
    /// `D2`
    D2,
    /// `D'`
    DPrime,
    /// `B`
    B,
    /// `B2`
    B2,
    /// `B'`
    BPrime,
    /// `L`
    L,
    /// `L2`
    L2,
    /// `L'`
    LPrime,
    /// `Uw`
    Uw,
    /// `Uw2`
    Uw2,
    /// `Uw'`
    UwPrime,
    /// `Fw`
    Fw,
    /// `Fw2`
    Fw2,
    /// `Fw'`
    FwPrime,
    /// `Rw`
    Rw,
    /// `Rw2`
    Rw2,
    /// `Rw'`
    RwPrime,
    /// `Dw`
    Dw,
    /// `Dw2`
    Dw2,
    /// `Dw'`
    DwPrime,
    /// `Bw`
    Bw,
    /// `Bw2`
    Bw2,
    /// `Bw'`
    BwPrime,
    /// `Lw`
    Lw,
    /// `Lw2`
    Lw2,
    /// `Lw'`
    LwPrime,
    /// `M`
    M,
    /// `M2`
    M2,
    /// `M'`
    MPrime,
    /// `E`
    E,
    /// `E2`
    E2,
    /// `E'`
    EPrime,
    /// `S`
    S,
    /// `S2`
    S2,
    /// `S'`
    SPrime,
}

impl MOVES {
    /// The position of the move in the catalogue.
    pub open spec fn spec_index(self) -> int {
        match self {
            MOVES::X => 0,
            MOVES::X2 => 1,
            MOVES::XPrime => 2,
            MOVES::Y => 3,
            MOVES::Y2 => 4,
            MOVES::YPrime => 5,
            MOVES::Z => 6,
            MOVES::Z2 => 7,
            MOVES::ZPrime => 8,
            MOVES::U => 9,
            MOVES::U2 => 10,
            MOVES::UPrime => 11,
            MOVES::F => 12,
            MOVES::F2 => 13,
            MOVES::FPrime => 14,
            MOVES::R => 15,
            MOVES::R2 => 16,
            MOVES::RPrime => 17,
            MOVES::D => 18,
            MOVES::D2 => 19,
            MOVES::DPrime => 20,
            MOVES::B => 21,
            MOVES::B2 => 22,
            MOVES::BPrime => 23,
            MOVES::L => 24,
            MOVES::L2 => 25,
            MOVES::LPrime => 26,
            MOVES::Uw => 27,
            MOVES::Uw2 => 28,
            MOVES::UwPrime => 29,
            MOVES::Fw => 30,
            MOVES::Fw2 => 31,
            MOVES::FwPrime => 32,
            MOVES::Rw => 33,
            MOVES::Rw2 => 34,
            MOVES::RwPrime => 35,
            MOVES::Dw => 36,
            MOVES::Dw2 => 37,
            MOVES::DwPrime => 38,
            MOVES::Bw => 39,
            MOVES::Bw2 => 40,
            MOVES::BwPrime => 41,
            MOVES::Lw => 42,
            MOVES::Lw2 => 43,
            MOVES::LwPrime => 44,
            MOVES::M => 45,
            MOVES::M2 => 46,
            MOVES::MPrime => 47,
            MOVES::E => 48,
            MOVES::E2 => 49,
            MOVES::EPrime => 50,
            MOVES::S => 51,
            MOVES::S2 => 52,
            MOVES::SPrime => 53,
        }
    }

    /// The position of the move in the catalogue.
    pub fn index(&self) -> (r: usize)
        ensures
            r == self.spec_index(),
            r < 54,
    {
        match self {
            MOVES::X => 0,
            MOVES::X2 => 1,
            MOVES::XPrime => 2,
            MOVES::Y => 3,
            MOVES::Y2 => 4,
            MOVES::YPrime => 5,
            MOVES::Z => 6,
            MOVES::Z2 => 7,
            MOVES::ZPrime => 8,
            MOVES::U => 9,
            MOVES::U2 => 10,
            MOVES::UPrime => 11,
            MOVES::F => 12,
            MOVES::F2 => 13,
            MOVES::FPrime => 14,
            MOVES::R => 15,
            MOVES::R2 => 16,
            MOVES::RPrime => 17,
            MOVES::D => 18,
            MOVES::D2 => 19,
            MOVES::DPrime => 20,
            MOVES::B => 21,
            MOVES::B2 => 22,
            MOVES::BPrime => 23,
            MOVES::L => 24,
            MOVES::L2 => 25,
            MOVES::LPrime => 26,
            MOVES::Uw => 27,
            MOVES::Uw2 => 28,
            MOVES::UwPrime => 29,
            MOVES::Fw => 30,
            MOVES::Fw2 => 31,
            MOVES::FwPrime => 32,
            MOVES::Rw => 33,
            MOVES::Rw2 => 34,
            MOVES::RwPrime => 35,
            MOVES::Dw => 36,
            MOVES::Dw2 => 37,
            MOVES::DwPrime => 38,
            MOVES::Bw => 39,
            MOVES::Bw2 => 40,
            MOVES::BwPrime => 41,
            MOVES::Lw => 42,
            MOVES::Lw2 => 43,
            MOVES::LwPrime => 44,
            MOVES::M => 45,
            MOVES::M2 => 46,
            MOVES::MPrime => 47,
            MOVES::E => 48,
            MOVES::E2 => 49,
            MOVES::EPrime => 50,
            MOVES::S => 51,
            MOVES::S2 => 52,
            MOVES::SPrime => 53,
        }
    }
}

/// The whole-cube rotation `x`, as cycles of facelets.
pub open spec fn x_cycles() -> Seq<Seq<u8>> {
    seq![
        seq![0u8, 44, 27, 9],
        seq![1u8, 43, 28, 10],
        seq![2u8, 42, 29, 11],
        seq![3u8, 41, 30, 12],
        seq![4u8, 40, 31, 13],
        seq![5u8, 39, 32, 14],
        seq![6u8, 38, 33, 15],
        seq![7u8, 37, 34, 16],
        seq![8u8, 36, 35, 17],
        seq![18u8, 20, 26, 24],
        seq![19u8, 23, 25, 21],
        seq![45u8, 51, 53, 47],
        seq![46u8, 48, 52, 50],
    ]
}

/// The whole-cube rotation `y`, as cycles of facelets.
pub open spec fn y_cycles() -> Seq<Seq<u8>> {
    seq![
        seq![0u8, 2, 8, 6],
        seq![1u8, 5, 7, 3],
        seq![9u8, 45, 36, 18],
        seq![10u8, 46, 37, 19],
        seq![11u8, 47, 38, 20],
        seq![12u8, 48, 39, 21],
        seq![13u8, 49, 40, 22],
        seq![14u8, 50, 41, 23],
        seq![15u8, 51, 42, 24],
        seq![16u8, 52, 43, 25],
        seq![17u8, 53, 44, 26],
        seq![27u8, 33, 35, 29],
        seq![28u8, 30, 34, 32],
    ]
}

/// The face turn `U`, as cycles of facelets.
pub open spec fn u_cycles() -> Seq<Seq<u8>> {
    seq![
        seq![9u8, 45, 36, 18],
        seq![10u8, 46, 37, 19],
        seq![11u8, 47, 38, 20],
        seq![0u8, 2, 8, 6],
        seq![1u8, 5, 7, 3],
    ]
}

/// The rotation `x`.
pub open spec fn x_perm() -> Seq<u8> {
    product_of(x_cycles())
}

/// The rotation `y`.
pub open spec fn y_perm() -> Seq<u8> {
    product_of(y_cycles())
}

/// The face turn `U`.
pub open spec fn u_perm() -> Seq<u8> {
    product_of(u_cycles())
}

/// `z = y y y x y`.
pub open spec fn z_perm() -> Seq<u8> {
    let (x, y) = (x_perm(), y_perm());
    compose(compose(compose(compose(y, y), y), x), y)
}

/// `D = x x U x x`.
pub open spec fn d_perm() -> Seq<u8> {
    let (x, u) = (x_perm(), u_perm());
    compose(compose(compose(compose(x, x), u), x), x)
}

/// `R = z z z U z`.
pub open spec fn r_perm() -> Seq<u8> {
    let (z, u) = (z_perm(), u_perm());
    compose(compose(compose(compose(z, z), z), u), z)
}

/// `L = z U z z z`.
pub open spec fn l_perm() -> Seq<u8> {
    let (z, u) = (z_perm(), u_perm());
    compose(compose(compose(compose(z, u), z), z), z)
}

/// `F = x U x x x`.
pub open spec fn f_perm() -> Seq<u8> {
    let (x, u) = (x_perm(), u_perm());
    compose(compose(compose(compose(x, u), x), x), x)
}

/// `B = x x x U x`.
pub open spec fn b_perm() -> Seq<u8> {
    let (x, u) = (x_perm(), u_perm());
    compose(compose(compose(compose(x, x), x), u), x)
}

/// `M = x x x R L L L`.
pub open spec fn m_perm() -> Seq<u8> {
    let (x, r, l) = (x_perm(), r_perm(), l_perm());
    compose(compose(compose(compose(compose(compose(x, x), x), r), l), l), l)
}

/// `E = y y y U D D D`.
pub open spec fn e_perm() -> Seq<u8> {
    let (y, u, d) = (y_perm(), u_perm(), d_perm());
    compose(compose(compose(compose(compose(compose(y, y), y), u), d), d), d)
}

/// `S = z F F F B`.
pub open spec fn s_perm() -> Seq<u8> {
    let (z, f, b) = (z_perm(), f_perm(), b_perm());
    compose(compose(compose(compose(z, f), f), f), b)
}

/// The base move at position `i` of the order x, y, z, U, F, R, D, B, L,
/// Uw, Fw, Rw, Dw, Bw, Lw, M, E, S. A wide turn is the face turn with the
/// adjacent slice: `Uw = U E E E`, `Fw = F S`, `Rw = R M M M`,
/// `Dw = D E`, `Bw = B S S S`, `Lw = L M`.
pub open spec fn base_perm(i: int) -> Seq<u8> {
    if i == 0 {
        x_perm()
    } else if i == 1 {
        y_perm()
    } else if i == 2 {
        z_perm()
    } else if i == 3 {
        u_perm()
    } else if i == 4 {
        f_perm()
    } else if i == 5 {
        r_perm()
    } else if i == 6 {
        d_perm()
    } else if i == 7 {
        b_perm()
    } else if i == 8 {
        l_perm()
    } else if i == 9 {
        compose(compose(compose(u_perm(), e_perm()), e_perm()), e_perm())
    } else if i == 10 {
        compose(f_perm(), s_perm())
    } else if i == 11 {
        compose(compose(compose(r_perm(), m_perm()), m_perm()), m_perm())
    } else if i == 12 {
        compose(d_perm(), e_perm())
    } else if i == 13 {
        compose(compose(compose(b_perm(), s_perm()), s_perm()), s_perm())
    } else if i == 14 {
        compose(l_perm(), m_perm())
    } else if i == 15 {
        m_perm()
    } else if i == 16 {
        e_perm()
    } else {
        s_perm()
    }
}

/// The move at position `k` of the catalogue: base move `k / 3`, itself,
/// doubled or inverted as `k % 3` is 0, 1 or 2.
pub open spec fn move_perm(k: int) -> Seq<u8> {
    let b = base_perm(k / 3);
    if k % 3 == 0 {
        b
    } else if k % 3 == 1 {
        compose(b, b)
    } else {
        inverse(b)
    }
}

/// The catalogue of moves, in the order of [`MOVES`].
pub struct MoveTable {
    table: Vec<State>,
}

impl View for MoveTable {
    type V = Seq<Seq<u8>>;

    closed spec fn view(&self) -> Seq<Seq<u8>> {
        self.table@.map_values(|s: State| s@)
    }
}

impl MoveTable {
    /// The table holds every move of the catalogue at its position.
    pub open spec fn wf(&self) -> bool {
        &&& self@.len() == 54
        &&& forall|k: int| 0 <= k < 54 ==> #[trigger] self@[k] == move_perm(k)
        &&& forall|k: int| 0 <= k < 54 ==> is_perm(#[trigger] self@[k])
    }

    /// The move at position `k`.
    pub fn get(&self, k: usize) -> (r: &State)
        requires
            self.wf(),
            k < 54,
        ensures
            r@ == move_perm(k as int),
            r.wf(),
    {
        assert(self@[k as int] == self.table@[k as int]@);
        &self.table[k]
    }
}

/// Appends base move `b`, its double and its inverse.
fn push_variants(table: &mut Vec<State>, b: &State)
    requires
        b.wf(),
        old(table)@.len() % 3 == 0,
        b@ == base_perm(old(table)@.len() as int / 3),
        forall|k: int| 0 <= k < old(table)@.len() ==> (#[trigger] old(table)@[k])@ == move_perm(k),
        forall|k: int| 0 <= k < old(table)@.len() ==> (#[trigger] old(table)@[k]).wf(),
    ensures
        final(table)@.len() == old(table)@.len() + 3,
        forall|k: int| 0 <= k < final(table)@.len() ==> (#[trigger] final(table)@[k])@ == move_perm(k),
        forall|k: int| 0 <= k < final(table)@.len() ==> (#[trigger] final(table)@[k]).wf(),
{
    let ghost n = table@.len();
    let b2 = b.apply(b);
    let bp = b.get_prime();
    table.push(*b);
    table.push(b2);
    table.push(bp);
    assert(n / 3 == (n + 1) / 3 && n / 3 == (n + 2) / 3);
}

/// Builds the catalogue of moves from the generators.
pub fn new() -> (r: MoveTable)
    ensures
        r.wf(),
{
    let xc: Vec<Vec<u8>> = vec![
        vec![0u8, 44, 27, 9],
        vec![1u8, 43, 28, 10],
        vec![2u8, 42, 29, 11],
        vec![3u8, 41, 30, 12],
        vec![4u8, 40, 31, 13],
        vec![5u8, 39, 32, 14],
        vec![6u8, 38, 33, 15],
        vec![7u8, 37, 34, 16],
        vec![8u8, 36, 35, 17],
        vec![18u8, 20, 26, 24],
        vec![19u8, 23, 25, 21],
        vec![45u8, 51, 53, 47],
        vec![46u8, 48, 52, 50],
        ];
    assert(xc@.map_values(|c: Vec<u8>| c@) =~= x_cycles());
    let x = State::product_of_cycles(&xc);
    let yc: Vec<Vec<u8>> = vec![
        vec![0u8, 2, 8, 6],
        vec![1u8, 5, 7, 3],
        vec![9u8, 45, 36, 18],
        vec![10u8, 46, 37, 19],
        vec![11u8, 47, 38, 20],
        vec![12u8, 48, 39, 21],
        vec![13u8, 49, 40, 22],
        vec![14u8, 50, 41, 23],
        vec![15u8, 51, 42, 24],
        vec![16u8, 52, 43, 25],
        vec![17u8, 53, 44, 26],
        vec![27u8, 33, 35, 29],
        vec![28u8, 30, 34, 32],
        ];
    assert(yc@.map_values(|c: Vec<u8>| c@) =~= y_cycles());
    let y = State::product_of_cycles(&yc);
    let uc: Vec<Vec<u8>> = vec![
        vec![9u8, 45, 36, 18],
        vec![10u8, 46, 37, 19],
        vec![11u8, 47, 38, 20],
        vec![0u8, 2, 8, 6],
        vec![1u8, 5, 7, 3],
        ];
    assert(uc@.map_values(|c: Vec<u8>| c@) =~= u_cycles());
    let u = State::product_of_cycles(&uc);
    assert(x@ == x_perm());
    assert(y@ == y_perm());
    assert(u@ == u_perm());
    let z = y.apply(&y).apply(&y).apply(&x).apply(&y);
    let d = x.apply(&x).apply(&u).apply(&x).apply(&x);
    let r = z.apply(&z).apply(&z).apply(&u).apply(&z);
    let l = z.apply(&u).apply(&z).apply(&z).apply(&z);
    let f = x.apply(&u).apply(&x).apply(&x).apply(&x);
    let b = x.apply(&x).apply(&x).apply(&u).apply(&x);
    let m = x.apply(&x).apply(&x).apply(&r).apply(&l).apply(&l).apply(&l);
    let e = y.apply(&y).apply(&y).apply(&u).apply(&d).apply(&d).apply(&d);
    let s = z.apply(&f).apply(&f).apply(&f).apply(&b);
    let uw = u.apply(&e).apply(&e).apply(&e);
    let fw = f.apply(&s);
    let rw = r.apply(&m).apply(&m).apply(&m);
    let dw = d.apply(&e);
    let bw = b.apply(&s).apply(&s).apply(&s);
    let lw = l.apply(&m);
    let mut table: Vec<State> = Vec::new();
    push_variants(&mut table, &x);
    push_variants(&mut table, &y);
    push_variants(&mut table, &z);
    push_variants(&mut table, &u);
    push_variants(&mut table, &f);
    push_variants(&mut table, &r);
    push_variants(&mut table, &d);
    push_variants(&mut table, &b);
    push_variants(&mut table, &l);
    push_variants(&mut table, &uw);
    push_variants(&mut table, &fw);
    push_variants(&mut table, &rw);
    push_variants(&mut table, &dw);
    push_variants(&mut table, &bw);
    push_variants(&mut table, &lw);
    push_variants(&mut table, &m);
    push_variants(&mut table, &e);
    push_variants(&mut table, &s);
    let r = MoveTable { table };
    assert forall|k: int| 0 <= k < 54 implies #[trigger] r@[k] == move_perm(k) && is_perm(r@[k]) by {
        assert(r.table@[k]@ == move_perm(k));
        assert(r.table@[k].wf());
    }
    r
}

} // verus!
