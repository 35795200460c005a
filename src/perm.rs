//! Permutations of the 54 facelet positions, as mathematical sequences.
//!
//! A permutation `p` sends position `i` to `p[i]`. Composing `a` then `b`
//! gives `i -> b[a[i]]`.

use vstd::prelude::*;
use vstd::set_lib::*;
use crate::arith::{lcm_spec, lemma_lcm_bound_step, pow3};

verus! {

/// The number of facelets of the puzzle.
pub const NUM_P: usize = 54;

/// `p` is a bijection on `0..54`.
pub open spec fn is_perm(p: Seq<u8>) -> bool {
    &&& p.len() == 54
    &&& forall|i: int| 0 <= i < 54 ==> (#[trigger] p[i] as int) < 54
    &&& forall|i: int, j: int|
        0 <= i < 54 && 0 <= j < 54 && i != j ==> #[trigger] p[i] != #[trigger] p[j]
}

/// The permutation that moves nothing.
pub open spec fn identity_perm() -> Seq<u8> {
    Seq::new(54, |i: int| i as u8)
}

/// Performing `a`, then `b`.
pub open spec fn compose(a: Seq<u8>, b: Seq<u8>) -> Seq<u8> {
    Seq::new(54, |i: int| b[a[i] as int])
}

/// The position that `p` sends to `v`.
pub open spec fn preimage(p: Seq<u8>, v: int) -> int {
    choose|i: int| 0 <= i < 54 && p[i] as int == v
}

/// The permutation that undoes `p`.
pub open spec fn inverse(p: Seq<u8>) -> Seq<u8> {
    Seq::new(54, |v: int| preimage(p, v) as u8)
}

/// Every position is the image of some position.
pub proof fn lemma_perm_onto(p: Seq<u8>)
    requires
        is_perm(p),
    ensures
        forall|v: int|
            0 <= v < 54 ==> 0 <= #[trigger] preimage(p, v) < 54 && p[preimage(p, v)] as int == v,
{
    let q = p.map_values(|x: u8| x as int);
    assert(q.no_duplicates()) by {
        assert forall|i: int, j: int| 0 <= i < q.len() && 0 <= j < q.len() && i != j implies q[i]
            != q[j] by {
            assert(p[i] != p[j]);
        }
    }
    q.unique_seq_to_set();
    lemma_int_range(0, 54);
    let r = set_int_range(0, 54);
    assert(q.to_set().subset_of(r)) by {
        assert forall|v: int| q.to_set().contains(v) implies r.contains(v) by {
            let i = choose|i: int| 0 <= i < q.len() && q[i] == v;
            assert(p[i] as int == v);
        }
    }
    lemma_subset_equality(q.to_set(), r);
    assert forall|v: int| 0 <= v < 54 implies 0 <= #[trigger] preimage(p, v) < 54 && p[preimage(
        p,
        v,
    )] as int == v by {
        assert(r.contains(v));
        assert(q.to_set().contains(v));
        let i = choose|i: int| 0 <= i < q.len() && q[i] == v;
        assert(p[i] as int == v);
    }
}

/// `inverse(p)` is a permutation that undoes `p` on both sides.
pub proof fn lemma_inverse(p: Seq<u8>)
    requires
        is_perm(p),
    ensures
        is_perm(inverse(p)),
        forall|i: int| 0 <= i < 54 ==> #[trigger] inverse(p)[p[i] as int] as int == i,
        forall|v: int| 0 <= v < 54 ==> #[trigger] p[inverse(p)[v] as int] as int == v,
{
    lemma_perm_onto(p);
    let q = inverse(p);
    assert forall|i: int| 0 <= i < 54 implies #[trigger] q[p[i] as int] as int == i by {
        let v = p[i] as int;
        let j = preimage(p, v);
        assert(p[j] as int == v);
        if j != i {
            assert(p[i] != p[j]);
        }
    }
}

/// Composing two permutations gives a permutation.
pub proof fn lemma_compose_perm(a: Seq<u8>, b: Seq<u8>)
    requires
        is_perm(a),
        is_perm(b),
    ensures
        is_perm(compose(a, b)),
{
    let c = compose(a, b);
    assert forall|i: int, j: int| 0 <= i < 54 && 0 <= j < 54 && i != j implies #[trigger] c[i]
        != #[trigger] c[j] by {
        assert(a[i] != a[j]);
    }
}

/// The identity is a permutation.
pub proof fn lemma_identity_perm()
    ensures
        is_perm(identity_perm()),
{
}

/// `c` lists distinct facelet positions.
pub open spec fn is_position_list(c: Seq<u8>) -> bool {
    &&& forall|k: int| 0 <= k < c.len() ==> (#[trigger] c[k] as int) < 54
    &&& c.no_duplicates()
}

/// The entry that follows index `k` of `c`, wrapping round at the end.
pub open spec fn cycle_next(c: Seq<u8>, k: int) -> u8 {
    if k + 1 < c.len() {
        c[k + 1]
    } else {
        c[0]
    }
}

/// The cyclic permutation that sends each listed position to the next one
/// and the last to the first; every other position stays.
pub open spec fn cycle_perm(c: Seq<u8>) -> Seq<u8> {
    Seq::new(
        54,
        |i: int|
            if c.contains(i as u8) {
                cycle_next(c, c.index_of(i as u8))
            } else {
                i as u8
            },
    )
}

/// The product of cyclic permutations, performed first to last.
pub open spec fn product_of(cs: Seq<Seq<u8>>) -> Seq<u8>
    decreases cs.len(),
{
    if cs.len() == 0 {
        identity_perm()
    } else {
        compose(product_of(cs.drop_last()), cycle_perm(cs.last()))
    }
}

/// What `cycle_perm` does to each position.
pub proof fn lemma_cycle_perm(c: Seq<u8>)
    requires
        is_position_list(c),
    ensures
        is_perm(cycle_perm(c)),
        forall|k: int| 0 <= k < c.len() ==> cycle_perm(c)[#[trigger] c[k] as int] == cycle_next(c, k),
        forall|i: int| 0 <= i < 54 && !c.contains(i as u8) ==> #[trigger] cycle_perm(c)[i] == i as u8,
{
    let q = cycle_perm(c);
    assert forall|k: int| 0 <= k < c.len() implies q[#[trigger] c[k] as int] == cycle_next(c, k) by {
        let i = c[k] as int;
        assert(c.contains(i as u8));
        let m = c.index_of(i as u8);
        assert(c[m] == c[k]);
    }
    assert forall|i: int| 0 <= i < 54 implies (#[trigger] q[i] as int) < 54 by {
        if c.contains(i as u8) {
            let m = c.index_of(i as u8);
            assert(c[m] == i as u8);
        }
    }
    assert forall|i: int, j: int| 0 <= i < 54 && 0 <= j < 54 && i != j implies #[trigger] q[i]
        != #[trigger] q[j] by {
        if c.contains(i as u8) && c.contains(j as u8) {
            let a = c.index_of(i as u8);
            let b = c.index_of(j as u8);
            assert(c[a] == i as u8 && c[b] == j as u8);
            assert(a != b);
        } else if c.contains(i as u8) {
            let a = c.index_of(i as u8);
            assert(c[a] == i as u8);
            if a + 1 < c.len() {
                assert(c[a + 1] != j as u8);
            } else {
                assert(c[0] != j as u8);
            }
        } else if c.contains(j as u8) {
            let b = c.index_of(j as u8);
            assert(c[b] == j as u8);
            if b + 1 < c.len() {
                assert(c[b + 1] != i as u8);
            } else {
                assert(c[0] != i as u8);
            }
        }
    }
}

/// `c` is a cycle of `p` of length at least two, listed from its smallest
/// position.
pub open spec fn is_cycle_of(p: Seq<u8>, c: Seq<u8>) -> bool {
    &&& c.len() >= 2
    &&& is_position_list(c)
    &&& forall|k: int| 0 <= k < c.len() ==> p[#[trigger] c[k] as int] == cycle_next(c, k)
    &&& forall|k: int| 0 <= k < c.len() ==> c[0] <= #[trigger] c[k]
}

/// Position `x` lies on one of the cycles `cs`.
pub open spec fn in_cycles(cs: Seq<Seq<u8>>, x: u8) -> bool {
    exists|j: int| 0 <= j < cs.len() && #[trigger] cs[j].contains(x)
}

/// `cs` is the decomposition of `p` into disjoint cycles of length at least
/// two, each listed from its smallest position, in increasing order of that
/// position, covering every position that `p` moves.
pub open spec fn is_cycle_decomposition(p: Seq<u8>, cs: Seq<Seq<u8>>) -> bool {
    &&& forall|j: int| 0 <= j < cs.len() ==> is_cycle_of(p, #[trigger] cs[j])
    &&& forall|j1: int, j2: int| 0 <= j1 < j2 < cs.len() ==> #[trigger] cs[j1][0] < #[trigger] cs[j2][0]
    &&& forall|j1: int, j2: int, x: u8|
        0 <= j1 < cs.len() && 0 <= j2 < cs.len() && j1 != j2 && #[trigger] cs[j1].contains(x)
            ==> !#[trigger] cs[j2].contains(x)
    &&& forall|i: int| 0 <= i < 54 && #[trigger] p[i] as int != i ==> in_cycles(cs, i as u8)
}

/// The least common multiple of the lengths of `cs`, or 0 when `cs` is
/// empty.
pub open spec fn lcm_of_lengths(cs: Seq<Seq<u8>>) -> nat
    decreases cs.len(),
{
    if cs.len() == 0 {
        0
    } else if cs.len() == 1 {
        cs[0].len()
    } else {
        lcm_spec(lcm_of_lengths(cs.drop_last()), cs.last().len())
    }
}

/// The sum of the lengths of `cs`.
pub open spec fn total_len(cs: Seq<Seq<u8>>) -> nat
    decreases cs.len(),
{
    if cs.len() == 0 {
        0
    } else {
        total_len(cs.drop_last()) + cs.last().len()
    }
}

/// The lists `cs`, one after the other.
pub open spec fn concat_all(cs: Seq<Seq<u8>>) -> Seq<u8>
    decreases cs.len(),
{
    if cs.len() == 0 {
        Seq::empty()
    } else {
        concat_all(cs.drop_last()) + cs.last()
    }
}

/// Position lists that share no position.
pub open spec fn disjoint_lists(cs: Seq<Seq<u8>>) -> bool {
    &&& forall|j: int| 0 <= j < cs.len() ==> is_position_list(#[trigger] cs[j])
    &&& forall|j1: int, j2: int, x: u8|
        0 <= j1 < cs.len() && 0 <= j2 < cs.len() && j1 != j2 && #[trigger] cs[j1].contains(x)
            ==> !#[trigger] cs[j2].contains(x)
}

/// Disjoint position lists, put one after the other, form a position list.
pub proof fn lemma_concat_all(cs: Seq<Seq<u8>>)
    requires
        disjoint_lists(cs),
    ensures
        is_position_list(concat_all(cs)),
        concat_all(cs).len() == total_len(cs),
        forall|x: u8| #[trigger] concat_all(cs).contains(x) ==> in_cycles(cs, x),
    decreases cs.len(),
{
    if cs.len() > 0 {
        let init = cs.drop_last();
        let n = cs.len() - 1;
        assert(disjoint_lists(init)) by {
            assert forall|j1: int, j2: int, x: u8|
                0 <= j1 < init.len() && 0 <= j2 < init.len() && j1 != j2 && #[trigger] init[j1].contains(x)
                    implies !#[trigger] init[j2].contains(x) by {
                assert(cs[j1].contains(x));
            }
        }
        lemma_concat_all(init);
        let a = concat_all(init);
        let b = cs.last();
        assert(is_position_list(b));
        let c = a + b;
        assert(c == concat_all(cs));
        assert forall|i: int, j: int| 0 <= i < c.len() && 0 <= j < c.len() && i != j implies c[i]
            != c[j] by {
            if i < a.len() && j >= a.len() {
                assert(a.contains(c[i]));
                assert(in_cycles(init, c[i]));
                let k = choose|k: int| 0 <= k < init.len() && #[trigger] init[k].contains(c[i]);
                assert(cs[k].contains(c[i]));
                assert(b[j - a.len()] == c[j]);
                if c[i] == c[j] {
                    assert(cs[n].contains(c[i]));
                }
            } else if j < a.len() && i >= a.len() {
                assert(a.contains(c[j]));
                assert(in_cycles(init, c[j]));
                let k = choose|k: int| 0 <= k < init.len() && #[trigger] init[k].contains(c[j]);
                assert(cs[k].contains(c[j]));
                assert(b[i - a.len()] == c[i]);
                if c[i] == c[j] {
                    assert(cs[n].contains(c[j]));
                }
            } else if i >= a.len() {
                assert(b[i - a.len()] != b[j - a.len()]);
            }
        }
        assert forall|k: int| 0 <= k < c.len() implies (#[trigger] c[k] as int) < 54 by {
            if k >= a.len() {
                assert(c[k] == b[k - a.len()]);
            }
        }
        assert forall|x: u8| #[trigger] c.contains(x) implies in_cycles(cs, x) by {
            let k = choose|k: int| 0 <= k < c.len() && c[k] == x;
            if k < a.len() {
                assert(a.contains(x));
                let j = choose|j: int| 0 <= j < init.len() && #[trigger] init[j].contains(x);
                assert(cs[j].contains(x));
            } else {
                assert(b[k - a.len()] == x);
                assert(cs[n].contains(x));
            }
        }
    }
}

/// Disjoint position lists hold at most 54 positions in all.
pub proof fn lemma_disjoint_total_len(cs: Seq<Seq<u8>>)
    requires
        disjoint_lists(cs),
    ensures
        total_len(cs) <= 54,
{
    lemma_concat_all(cs);
    lemma_position_list_len(concat_all(cs));
}

/// One step of a running least common multiple over the cycle lengths of a
/// decomposition: the next value is bounded as the running one was.
pub proof fn lemma_period_step(p: Seq<u8>, cs: Seq<Seq<u8>>, k: int, acc: nat)
    requires
        is_cycle_decomposition(p, cs),
        1 <= k < cs.len(),
        acc == lcm_of_lengths(cs.take(k)),
        acc > 0,
        (acc as int) * (acc as int) * (acc as int) <= pow3(total_len(cs.take(k))) as int,
    ensures
        lcm_of_lengths(cs.take(k + 1)) == lcm_spec(acc, cs[k].len()),
        cs[k].len() > 0,
        lcm_spec(acc, cs[k].len()) > 0,
        lcm_spec(acc, cs[k].len()) <= 387420489,
        ({
            let l = lcm_spec(acc, cs[k].len()) as int;
            l * l * l
        }) <= pow3(total_len(cs.take(k + 1))) as int,
{
    let t = cs.take(k + 1);
    assert(t.drop_last() =~= cs.take(k));
    assert(t.last() == cs[k]);
    assert(disjoint_lists(t)) by {
        assert forall|j1: int, j2: int, x: u8|
            0 <= j1 < t.len() && 0 <= j2 < t.len() && j1 != j2 && #[trigger] t[j1].contains(
                x,
            ) implies !#[trigger] t[j2].contains(x) by {
            assert(cs[j1].contains(x));
        }
        assert forall|j: int| 0 <= j < t.len() implies is_position_list(#[trigger] t[j]) by {
            assert(is_cycle_of(p, cs[j]));
        }
    }
    lemma_disjoint_total_len(t);
    assert(is_cycle_of(p, cs[k]));
    lemma_lcm_bound_step(acc, cs[k].len(), total_len(cs.take(k)));
}

/// Distinct positions are at most 54.
pub proof fn lemma_position_list_len(c: Seq<u8>)
    requires
        is_position_list(c),
    ensures
        c.len() <= 54,
{
    let q = c.map_values(|x: u8| x as int);
    assert(q.no_duplicates()) by {
        assert forall|i: int, j: int| 0 <= i < q.len() && 0 <= j < q.len() && i != j implies q[i]
            != q[j] by {
            assert(c[i] != c[j]);
        }
    }
    q.unique_seq_to_set();
    lemma_int_range(0, 54);
    let r = set_int_range(0, 54);
    assert(q.to_set().subset_of(r)) by {
        assert forall|v: int| q.to_set().contains(v) implies r.contains(v) by {
            let i = choose|i: int| 0 <= i < q.len() && q[i] == v;
            assert(c[i] as int == v);
        }
    }
    lemma_len_subset(q.to_set(), r);
}

} // verus!
