//! Move notation: a text is split at whitespace into tokens, and each token
//! names one move of the catalogue.

use vstd::prelude::*;
use crate::moves::move_perm;
use crate::perm::compose;

verus! {

/// `c` is a Unicode `White_Space` character.
pub open spec fn is_ws(c: char) -> bool {
    let v = c as u32;
    ||| 0x09 <= v <= 0x0d
    ||| v == 0x20
    ||| v == 0x85
    ||| v == 0xa0
    ||| v == 0x1680
    ||| 0x2000 <= v <= 0x200a
    ||| v == 0x2028
    ||| v == 0x2029
    ||| v == 0x202f
    ||| v == 0x205f
    ||| v == 0x3000
}

/// Whether `c` is whitespace.
pub fn is_whitespace(c: char) -> (r: bool)
    ensures
        r == is_ws(c),
{
    let v = c as u32;
    (0x09 <= v && v <= 0x0d) || v == 0x20 || v == 0x85 || v == 0xa0 || v == 0x1680 || (0x2000
        <= v && v <= 0x200a) || v == 0x2028 || v == 0x2029 || v == 0x202f || v == 0x205f || v
        == 0x3000
}

/// The maximal runs of non-whitespace characters of `s`, in order.
pub open spec fn split_ws(s: Seq<char>) -> Seq<Seq<char>>
    decreases s.len(),
{
    if s.len() == 0 {
        Seq::empty()
    } else {
        let init = s.drop_last();
        let c = s.last();
        let prev = split_ws(init);
        if is_ws(c) {
            prev
        } else if init.len() > 0 && !is_ws(init.last()) {
            prev.drop_last().push(prev.last().push(c))
        } else {
            prev.push(seq![c])
        }
    }
}

/// Performs the moves that `toks` name, in order, starting from `st`; or
/// the first token that names no move.
pub open spec fn apply_tokens(st: Seq<u8>, toks: Seq<Seq<char>>) -> Result<Seq<u8>, Seq<char>>
    decreases toks.len(),
{
    if toks.len() == 0 {
        Ok(st)
    } else {
        match apply_tokens(st, toks.drop_last()) {
            Err(t) => Err(t),
            Ok(p) => {
                let k = parse_move(toks.last());
                if k < 0 {
                    Err(toks.last())
                } else {
                    Ok(compose(p, move_perm(k)))
                }
            },
        }
    }
}

/// An unknown token stops the sequence: what follows it does not matter.
pub proof fn lemma_apply_tokens_stops(st: Seq<u8>, toks: Seq<Seq<char>>, j: int)
    requires
        0 <= j <= toks.len(),
        apply_tokens(st, toks.take(j)) is Err,
    ensures
        apply_tokens(st, toks) == apply_tokens(st, toks.take(j)),
    decreases toks.len(),
{
    if j < toks.len() {
        assert(toks.drop_last().take(j) =~= toks.take(j));
        lemma_apply_tokens_stops(st, toks.drop_last(), j);
    } else {
        assert(toks.take(j) =~= toks);
    }
}

/// The characters of `s`.
pub fn chars_of(s: &str) -> (r: Vec<char>)
    ensures
        r@ == s@,
{
    let mut r: Vec<char> = Vec::new();
    for c in it: s.chars()
        invariant
            r@ == it.seq().take(it.index() as int),
            it.seq() == s@,
    {
        r.push(c);
    }
    r
}

/// The tokens of `cs`, as ranges of positions: exactly the runs that
/// `split_ws` gives.
pub fn split_tokens(cs: &Vec<char>) -> (r: Vec<(usize, usize)>)
    ensures
        r@.len() == split_ws(cs@).len(),
        forall|k: int|
            #![trigger r@[k]]
            0 <= k < r@.len() ==> r@[k].0 < r@[k].1 && r@[k].1 <= cs@.len() && cs@.subrange(
                r@[k].0 as int,
                r@[k].1 as int,
            ) == split_ws(cs@)[k],
{
    let n = cs.len();
    let mut r: Vec<(usize, usize)> = Vec::new();
    let mut start: usize = 0;
    let mut in_tok = false;
    let mut i: usize = 0;
    while i < n
        invariant
            n == cs@.len(),
            i <= n,
            start <= i,
            in_tok ==> i > 0 && !is_ws(cs@[i - 1]) && start < i && split_ws(cs@.take(i as int)).len()
                == r@.len() + 1 && split_ws(cs@.take(i as int)).last() == cs@.subrange(
                start as int,
                i as int,
            ),
            !in_tok ==> (i == 0 || is_ws(cs@[i - 1])) && split_ws(cs@.take(i as int)).len()
                == r@.len(),
            forall|k: int|
                #![trigger r@[k]]
                0 <= k < r@.len() ==> r@[k].0 < r@[k].1 && r@[k].1 <= i && cs@.subrange(
                    r@[k].0 as int,
                    r@[k].1 as int,
                ) == split_ws(cs@.take(i as int))[k],
        decreases n - i,
    {
        let c = cs[i];
        let ghost t = split_ws(cs@.take(i as int));
        proof {
            assert(cs@.take(i + 1).drop_last() =~= cs@.take(i as int));
            assert(cs@.take(i + 1).last() == c);
            if i > 0 {
                assert(cs@.take(i as int).last() == cs@[i - 1]);
            }
        }
        let ghost t2 = split_ws(cs@.take(i + 1));
        let ghost r0 = r@;
        assert(forall|k: int| 0 <= k < r@.len() ==> t2[k] == t[k]);
        if is_whitespace(c) {
            assert(t2 == t);
            if in_tok {
                r.push((start, i));
                in_tok = false;
                assert(r@[r@.len() - 1] == (start, i));
                assert(t.len() == r0.len() + 1);
                assert(t2[r0.len() as int] == t.last());
            }
        } else if in_tok {
            proof {
                assert(cs@.subrange(start as int, i + 1) =~= t.last().push(c));
            }
        } else {
            proof {
                assert(cs@.subrange(i as int, i + 1) =~= seq![c]);
            }
            start = i;
            in_tok = true;
        }
        i = i + 1;
        proof {
            let t3 = split_ws(cs@.take(i as int));
            assert(t3 == t2);
            assert forall|k: int| 0 <= k < r@.len() implies #[trigger] r@[k].0 < r@[k].1 && r@[k].1 <= i
                && cs@.subrange(r@[k].0 as int, r@[k].1 as int) == t3[k] by {
                if k < r0.len() {
                    assert(r@[k] == r0[k]);
                    assert(r0[k].0 < r0[k].1 && r0[k].1 <= i - 1);
                    assert(cs@.subrange(r0[k].0 as int, r0[k].1 as int) == t[k]);
                    assert(t2[k] == t[k]);
                } else {
                    assert(k == r0.len());
                }
                assert(cs@.subrange(r@[k].0 as int, r@[k].1 as int) =~= t3[k]);
            }
        }
    }
    assert(cs@.take(n as int) =~= cs@);
    if in_tok {
        r.push((start, n));
    }
    r
}

/// The base move that a one-letter token names, by its position in the
/// catalogue's order of base moves (lower-case face letters name wide
/// turns), or -1.
pub open spec fn letter_base(c: char) -> int {
    if c == 'x' {
        0
    } else if c == 'y' {
        1
    } else if c == 'z' {
        2
    } else if c == 'U' {
        3
    } else if c == 'F' {
        4
    } else if c == 'R' {
        5
    } else if c == 'D' {
        6
    } else if c == 'B' {
        7
    } else if c == 'L' {
        8
    } else if c == 'u' {
        9
    } else if c == 'f' {
        10
    } else if c == 'r' {
        11
    } else if c == 'd' {
        12
    } else if c == 'b' {
        13
    } else if c == 'l' {
        14
    } else if c == 'M' {
        15
    } else if c == 'E' {
        16
    } else if c == 'S' {
        17
    } else {
        -1
    }
}

/// The wide turn that a face letter followed by `w` names, or -1.
pub open spec fn wide_base(c: char) -> int {
    if c == 'U' {
        9
    } else if c == 'F' {
        10
    } else if c == 'R' {
        11
    } else if c == 'D' {
        12
    } else if c == 'B' {
        13
    } else if c == 'L' {
        14
    } else {
        -1
    }
}

/// 0 for no suffix, 1 for `2`, 2 for `'`, or -1.
pub open spec fn suffix_kind(s: Seq<char>) -> int {
    if s.len() == 0 {
        0
    } else if s.len() == 1 && s[0] == '2' {
        1
    } else if s.len() == 1 && s[0] == '\'' {
        2
    } else {
        -1
    }
}

/// The position in the catalogue of the move that token `t` names, or -1.
pub open spec fn parse_move(t: Seq<char>) -> int {
    if t.len() >= 2 && t[1] == 'w' && wide_base(t[0]) >= 0 {
        if suffix_kind(t.skip(2)) >= 0 {
            3 * wide_base(t[0]) + suffix_kind(t.skip(2))
        } else {
            -1
        }
    } else if t.len() >= 1 && letter_base(t[0]) >= 0 {
        if suffix_kind(t.skip(1)) >= 0 {
            3 * letter_base(t[0]) + suffix_kind(t.skip(1))
        } else {
            -1
        }
    } else {
        -1
    }
}

fn letter_base_of(c: char) -> (r: i32)
    ensures
        r as int == letter_base(c),
{
    if c == 'x' {
        0
    } else if c == 'y' {
        1
    } else if c == 'z' {
        2
    } else if c == 'U' {
        3
    } else if c == 'F' {
        4
    } else if c == 'R' {
        5
    } else if c == 'D' {
        6
    } else if c == 'B' {
        7
    } else if c == 'L' {
        8
    } else if c == 'u' {
        9
    } else if c == 'f' {
        10
    } else if c == 'r' {
        11
    } else if c == 'd' {
        12
    } else if c == 'b' {
        13
    } else if c == 'l' {
        14
    } else if c == 'M' {
        15
    } else if c == 'E' {
        16
    } else if c == 'S' {
        17
    } else {
        -1
    }
}

fn wide_base_of(c: char) -> (r: i32)
    ensures
        r as int == wide_base(c),
{
    if c == 'U' {
        9
    } else if c == 'F' {
        10
    } else if c == 'R' {
        11
    } else if c == 'D' {
        12
    } else if c == 'B' {
        13
    } else if c == 'L' {
        14
    } else {
        -1
    }
}

fn suffix_kind_of(cs: &Vec<char>, a: usize, b: usize) -> (r: i32)
    requires
        a <= b <= cs@.len(),
    ensures
        r as int == suffix_kind(cs@.subrange(a as int, b as int)),
{
    if a == b {
        0
    } else if b - a == 1 && cs[a] == '2' {
        1
    } else if b - a == 1 && cs[a] == '\'' {
        2
    } else {
        -1
    }
}

/// The position in the catalogue of the move that the token at positions
/// `a..b` of `cs` names, if it names one.
pub fn parse_token(cs: &Vec<char>, a: usize, b: usize) -> (r: Option<usize>)
    requires
        a <= b <= cs@.len(),
    ensures
        parse_move(cs@.subrange(a as int, b as int)) < 54,
        match r {
            Some(k) => k as int == parse_move(cs@.subrange(a as int, b as int)),
            None => parse_move(cs@.subrange(a as int, b as int)) < 0,
        },
{
    let ghost t = cs@.subrange(a as int, b as int);
    if b - a >= 2 && cs[a + 1] == 'w' {
        let w = wide_base_of(cs[a]);
        if w >= 0 {
            assert(t.skip(2) =~= cs@.subrange(a + 2, b as int));
            let v = suffix_kind_of(cs, a + 2, b);
            if v >= 0 {
                return Some((3 * w + v) as usize);
            } else {
                return None;
            }
        }
    }
    if b - a >= 1 {
        let l = letter_base_of(cs[a]);
        if l >= 0 {
            assert(t.skip(1) =~= cs@.subrange(a + 1, b as int));
            let v = suffix_kind_of(cs, a + 1, b);
            if v >= 0 {
                return Some((3 * l + v) as usize);
            }
        }
    }
    None
}

} // verus!
