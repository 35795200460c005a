//! The algebraic laws of states, proved over their permutations.

use vstd::prelude::*;
use vstd::arithmetic::div_mod::{
    lemma_add_mod_noop, lemma_fundamental_div_mod, lemma_mod_multiples_basic, lemma_mod_self_0,
    lemma_small_mod,
};
use crate::arith::{lcm_spec, lemma_lcm_least, lemma_lcm_multiple};
use crate::perm::{
    compose, cycle_next, cycle_perm, identity_perm, in_cycles, inverse, is_cycle_decomposition,
    is_cycle_of, is_perm, lcm_of_lengths, lemma_compose_perm, lemma_cycle_perm, lemma_identity_perm,
    lemma_inverse, product_of,
};
use crate::state::State;

verus! {

/// `p` performed `n` times in a row; the identity when `n` is 0.
pub open spec fn power(p: Seq<u8>, n: nat) -> Seq<u8>
    decreases n,
{
    if n == 0 {
        identity_perm()
    } else {
        compose(power(p, (n - 1) as nat), p)
    }
}

/// Performing the identity after `s` changes nothing, and performing the
/// inverse of `s` after `s` gives the identity.
pub proof fn law_identity(s: State)
    requires
        s.wf(),
    ensures
        compose(s@, identity_perm()) == s@,
        compose(s@, inverse(s@)) == identity_perm(),
{
    lemma_inverse(s@);
    assert(compose(s@, identity_perm()) =~= s@);
    assert(compose(s@, inverse(s@)) =~= identity_perm());
}

/// Composition of states is associative.
pub proof fn law_associative(a: State, b: State, c: State)
    requires
        a.wf(),
        b.wf(),
        c.wf(),
    ensures
        compose(compose(a@, b@), c@) == compose(a@, compose(b@, c@)),
{
    assert(compose(compose(a@, b@), c@) =~= compose(a@, compose(b@, c@)));
}

/// Inverting twice gives back the state.
pub proof fn law_double_inverse(s: State)
    requires
        s.wf(),
    ensures
        inverse(inverse(s@)) == s@,
{
    let p = s@;
    let q = inverse(p);
    lemma_inverse(p);
    lemma_inverse(q);
    assert forall|i: int| 0 <= i < 54 implies inverse(q)[i] == p[i] by {
        let v = p[i] as int;
        assert(q[v] as int == i);
        assert(inverse(q)[q[v] as int] as int == v);
    }
    assert(inverse(q) =~= p);
}

/// Positions that `p` fixes stay fixed by every power of `p`.
proof fn lemma_power_fixed(p: Seq<u8>, x: int, k: nat)
    requires
        is_perm(p),
        0 <= x < 54,
        p[x] as int == x,
    ensures
        power(p, k)[x] as int == x,
    decreases k,
{
    if k > 0 {
        lemma_power_fixed(p, x, (k - 1) as nat);
    }
}

/// The `k`-th power of `p` moves each position of a cycle `k` steps along
/// it.
proof fn lemma_power_on_cycle(p: Seq<u8>, c: Seq<u8>, m: int, k: nat)
    requires
        is_perm(p),
        is_cycle_of(p, c),
        0 <= m < c.len(),
    ensures
        power(p, k)[c[m] as int] == c[(m + k) % (c.len() as int)],
    decreases k,
{
    let n = c.len() as int;
    if k == 0 {
        lemma_small_mod(m as nat, n as nat);
    } else {
        let k1 = (k - 1) as nat;
        lemma_power_on_cycle(p, c, m, k1);
        let j = (m + k1) % n;
        assert(0 <= j < n);
        assert(p[c[j] as int] == cycle_next(c, j));
        lemma_add_mod_noop(m + k1, 1, n);
        lemma_small_mod(1, n as nat);
        if j + 1 < n {
            lemma_small_mod((j + 1) as nat, n as nat);
        } else {
            lemma_mod_self_0(n);
        }
        assert(m + k1 + 1 == m + k);
    }
}

/// The `k`-th power of `p` is the identity exactly when `k` is a multiple
/// of every cycle length.
proof fn lemma_power_identity(p: Seq<u8>, cs: Seq<Seq<u8>>, k: nat)
    requires
        is_perm(p),
        is_cycle_decomposition(p, cs),
    ensures
        (power(p, k) == identity_perm()) <==> (forall|j: int|
            0 <= j < cs.len() ==> (k as int) % (#[trigger] cs[j].len() as int) == 0),
{
    if power(p, k) == identity_perm() {
        assert forall|j: int| 0 <= j < cs.len() implies (k as int) % (#[trigger] cs[j].len() as int)
            == 0 by {
            let c = cs[j];
            assert(is_cycle_of(p, c));
            lemma_power_on_cycle(p, c, 0, k);
            let r = (k as int) % (c.len() as int);
            assert(c[r] == c[0]);
        }
    }
    if forall|j: int| 0 <= j < cs.len() ==> (k as int) % (#[trigger] cs[j].len() as int) == 0 {
        assert forall|x: int| 0 <= x < 54 implies power(p, k)[x] == identity_perm()[x] by {
            if p[x] as int == x {
                lemma_power_fixed(p, x, k);
            } else {
                assert(in_cycles(cs, x as u8));
                let j = choose|j: int| 0 <= j < cs.len() && #[trigger] cs[j].contains(x as u8);
                let c = cs[j];
                assert(is_cycle_of(p, c));
                let m = choose|m: int| 0 <= m < c.len() && c[m] == x as u8;
                lemma_power_on_cycle(p, c, m, k);
                let n = c.len() as int;
                assert((k as int) % n == 0);
                lemma_add_mod_noop(m, k as int, n);
                lemma_small_mod(m as nat, n as nat);
            }
        }
        lemma_power_len(p, k);
        assert(power(p, k) =~= identity_perm());
    }
}

/// Powers of `p` have 54 entries.
proof fn lemma_power_len(p: Seq<u8>, k: nat)
    ensures
        power(p, k).len() == 54,
    decreases k,
{
    if k > 0 {
        lemma_power_len(p, (k - 1) as nat);
    }
}

/// A multiple of a multiple of `a` is a multiple of `a`.
proof fn lemma_divides_trans(a: int, b: int, c: int)
    requires
        a > 0,
        b > 0,
        b % a == 0,
        c % b == 0,
    ensures
        c % a == 0,
{
    lemma_fundamental_div_mod(b, a);
    lemma_fundamental_div_mod(c, b);
    let u = b / a;
    let w = c / b;
    assert(c == (u * w) * a) by (nonlinear_arith)
        requires
            b == a * u,
            c == b * w,
    ;
    lemma_mod_multiples_basic(u * w, a);
}

/// The least common multiple of the cycle lengths is a positive multiple of
/// each of them, and divides every common multiple of them.
proof fn lemma_lcm_of_lengths(cs: Seq<Seq<u8>>)
    requires
        cs.len() > 0,
        forall|j: int| 0 <= j < cs.len() ==> #[trigger] cs[j].len() >= 2,
    ensures
        lcm_of_lengths(cs) > 0,
        forall|j: int|
            0 <= j < cs.len() ==> (lcm_of_lengths(cs) as int) % (#[trigger] cs[j].len() as int) == 0,
        forall|m: int|
            (forall|j: int| 0 <= j < cs.len() ==> m % (#[trigger] cs[j].len() as int) == 0) ==> #[trigger] (m
                % (lcm_of_lengths(cs) as int)) == 0,
    decreases cs.len(),
{
    if cs.len() == 1 {
        lemma_mod_self_0(cs[0].len() as int);
    } else {
        let init = cs.drop_last();
        lemma_lcm_of_lengths(init);
        let a = lcm_of_lengths(init);
        let b = cs.last().len();
        lemma_lcm_multiple(a, b);
        let l = lcm_spec(a, b);
        assert forall|j: int| 0 <= j < cs.len() implies (l as int) % (#[trigger] cs[j].len() as int)
            == 0 by {
            if j < cs.len() - 1 {
                assert(init[j] == cs[j]);
                lemma_divides_trans(cs[j].len() as int, a as int, l as int);
            }
        }
        assert forall|m: int|
            (forall|j: int| 0 <= j < cs.len() ==> m % (#[trigger] cs[j].len() as int) == 0) implies #[trigger] (m
                % (l as int)) == 0 by {
            assert forall|j: int| 0 <= j < init.len() implies m % (#[trigger] init[j].len() as int) == 0 by {
                assert(init[j] == cs[j]);
            }
            assert(m % (a as int) == 0);
            assert(m % (b as int) == 0);
            lemma_lcm_least(a, b, m);
        }
    }
}

/// Rebuilding a state from its cycle decomposition, as a product of
/// cycles, gives back the state.
pub proof fn law_cycles_rebuild(s: State, cs: Seq<Seq<u8>>)
    requires
        s.wf(),
        is_cycle_decomposition(s@, cs),
    ensures
        product_of(cs) == s@,
{
    let p = s@;
    lemma_prefix_product(p, cs, cs.len() as int);
    assert(cs.take(cs.len() as int) =~= cs);
    assert forall|x: int| 0 <= x < 54 implies product_of(cs)[x] == p[x] by {
        if !in_cycles(cs, x as u8) {
            if p[x] as int != x {
                assert(in_cycles(cs, x as u8));
            }
        }
    }
    assert(product_of(cs) =~= p);
}

/// The product of the first `n` cycles of a decomposition of `p` agrees
/// with `p` on their positions and fixes every other one.
proof fn lemma_prefix_product(p: Seq<u8>, cs: Seq<Seq<u8>>, n: int)
    requires
        is_perm(p),
        is_cycle_decomposition(p, cs),
        0 <= n <= cs.len(),
    ensures
        is_perm(product_of(cs.take(n))),
        forall|x: int|
            0 <= x < 54 ==> #[trigger] product_of(cs.take(n))[x] == if in_cycles(cs.take(n), x as u8) {
                p[x]
            } else {
                x as u8
            },
    decreases n,
{
    let t = cs.take(n);
    if n == 0 {
        lemma_identity_perm();
        assert(t.len() == 0);
    } else {
        lemma_prefix_product(p, cs, n - 1);
        let t1 = cs.take(n - 1);
        assert(t.drop_last() =~= t1);
        let c = cs[n - 1];
        assert(t.last() == c);
        assert(is_cycle_of(p, c));
        lemma_cycle_perm(c);
        lemma_compose_perm(product_of(t1), cycle_perm(c));
        assert forall|x: int| 0 <= x < 54 implies #[trigger] product_of(t)[x] == if in_cycles(
            t,
            x as u8,
        ) {
            p[x]
        } else {
            x as u8
        } by {
            let q = product_of(t1);
            if in_cycles(t1, x as u8) {
                let j = choose|j: int| 0 <= j < t1.len() && #[trigger] t1[j].contains(x as u8);
                assert(t1[j] == cs[j]);
                let d = cs[j];
                assert(is_cycle_of(p, d));
                let m = choose|m: int| 0 <= m < d.len() && d[m] == x as u8;
                assert(p[d[m] as int] == cycle_next(d, m));
                let y = p[x];
                assert(d.contains(y)) by {
                    if m + 1 < d.len() {
                        assert(d[m + 1] == y);
                    } else {
                        assert(d[0] == y);
                    }
                }
                assert(!c.contains(y));
                assert(q[x] == y);
                assert(cycle_perm(c)[y as int] == y);
                assert(t[j] == d);
            } else if c.contains(x as u8) {
                assert(q[x] == x as u8);
                let m = choose|m: int| 0 <= m < c.len() && c[m] == x as u8;
                assert(cycle_perm(c)[c[m] as int] == cycle_next(c, m));
                assert(t[n - 1] == c);
            } else {
                assert(q[x] == x as u8);
                assert(cycle_perm(c)[x] == x as u8);
                if in_cycles(t, x as u8) {
                    let j = choose|j: int| 0 <= j < t.len() && #[trigger] t[j].contains(x as u8);
                    if j < n - 1 {
                        assert(t1[j] == t[j]);
                    }
                }
            }
        }
    }
}

/// Performing a state as many times as its period gives the identity, and
/// no smaller positive number of times does.
pub proof fn law_period(s: State, cs: Seq<Seq<u8>>)
    requires
        s.wf(),
        is_cycle_decomposition(s@, cs),
    ensures
        power(s@, lcm_of_lengths(cs)) == identity_perm(),
        forall|k: nat| 0 < k < lcm_of_lengths(cs) ==> #[trigger] power(s@, k) != identity_perm(),
{
    let p = s@;
    if cs.len() == 0 {
        assert(lcm_of_lengths(cs) == 0);
    } else {
        assert forall|j: int| 0 <= j < cs.len() implies #[trigger] cs[j].len() >= 2 by {
            assert(is_cycle_of(p, cs[j]));
        }
        lemma_lcm_of_lengths(cs);
        let l = lcm_of_lengths(cs);
        lemma_power_identity(p, cs, l);
        assert forall|k: nat| 0 < k < l implies #[trigger] power(p, k) != identity_perm() by {
            lemma_power_identity(p, cs, k);
            if power(p, k) == identity_perm() {
                assert((k as int) % (l as int) == 0);
                lemma_small_mod(k, l);
            }
        }
    }
}

} // verus!
