//! Lexicographic order on character sequences, and sorting by it.
//!
//! Comparing code points one by one orders strings exactly as comparing
//! their UTF-8 bytes does, which is how `String`'s `Ord` compares them.
use vstd::prelude::*;

verus! {

/// `a` comes strictly before `b` in code-point lexicographic order.
pub open spec fn lex_lt(a: Seq<char>, b: Seq<char>) -> bool
    decreases a.len(),
{
    if a.len() == 0 {
        b.len() > 0
    } else if b.len() == 0 {
        false
    } else if a[0] != b[0] {
        a[0] < b[0]
    } else {
        lex_lt(a.drop_first(), b.drop_first())
    }
}

/// The character sequences of a sequence of vectors.
pub open spec fn char_views(v: Seq<Vec<char>>) -> Seq<Seq<char>> {
    v.map_values(|x: Vec<char>| x@)
}

/// Each element comes strictly before every later one.
pub open spec fn strictly_sorted(s: Seq<Seq<char>>) -> bool {
    forall|i: int, j: int| 0 <= i < j < s.len() ==> lex_lt(#[trigger] s[i], #[trigger] s[j])
}

/// No element occurs twice.
pub open spec fn no_duplicates(s: Seq<Seq<char>>) -> bool {
    forall|i: int, j: int| 0 <= i < j < s.len() ==> #[trigger] s[i] != #[trigger] s[j]
}

pub proof fn lemma_lex_transitive(a: Seq<char>, b: Seq<char>, c: Seq<char>)
    requires
        lex_lt(a, b),
        lex_lt(b, c),
    ensures
        lex_lt(a, c),
    decreases a.len(),
{
    if a.len() > 0 && b.len() > 0 && c.len() > 0 {
        if a[0] == b[0] && b[0] == c[0] {
            lemma_lex_transitive(a.drop_first(), b.drop_first(), c.drop_first());
        }
    }
}

pub proof fn lemma_lex_total(a: Seq<char>, b: Seq<char>)
    requires
        a != b,
    ensures
        lex_lt(a, b) || lex_lt(b, a),
    decreases a.len(),
{
    if a.len() == 0 {
        assert(b.len() > 0) by {
            if b.len() == 0 {
                assert(a =~= b);
            }
        }
    } else if b.len() > 0 && a[0] == b[0] {
        if a.drop_first() == b.drop_first() {
            assert(a =~= seq![a[0]] + a.drop_first());
            assert(b =~= seq![b[0]] + b.drop_first());
        }
        lemma_lex_total(a.drop_first(), b.drop_first());
    }
}

/// Whether `a` comes strictly before `b`.
pub fn lex_less(a: &Vec<char>, b: &Vec<char>) -> (res: bool)
    ensures
        res == lex_lt(a@, b@),
{
    let mut i: usize = 0;
    assert(a@.skip(0) =~= a@);
    assert(b@.skip(0) =~= b@);
    while i < a.len() && i < b.len()
        invariant
            i <= a.len(),
            i <= b.len(),
            lex_lt(a@, b@) == lex_lt(a@.skip(i as int), b@.skip(i as int)),
        decreases a.len() - i,
    {
        if a[i] != b[i] {
            return a[i] < b[i];
        }
        assert(a@.skip(i as int).drop_first() =~= a@.skip(i + 1));
        assert(b@.skip(i as int).drop_first() =~= b@.skip(i + 1));
        i = i + 1;
    }
    i == a.len() && i < b.len()
}

/// The sequences of `v`, ordered; `v` must not hold one twice.
pub fn sort_strictly(v: Vec<Vec<char>>) -> (res: Vec<Vec<char>>)
    requires
        no_duplicates(char_views(v@)),
    ensures
        strictly_sorted(char_views(res@)),
        res@.len() == v@.len(),
        forall|x: Seq<char>| #[trigger] char_views(res@).contains(x) == char_views(v@).contains(x),
{
    let ghost vs = char_views(v@);
    let mut res: Vec<Vec<char>> = Vec::new();
    let mut k: usize = 0;
    let n = v.len();
    let mut v = v;
    while k < n
        invariant
            n == v.len(),
            vs == char_views(v@),
            no_duplicates(vs),
            k <= n,
            res@.len() == k,
            strictly_sorted(char_views(res@)),
            forall|x: Seq<char>|
                #[trigger] char_views(res@).contains(x) == vs.take(k as int).contains(x),
        decreases n - k,
    {
        let ghost rs = char_views(res@);
        let x = v[k].clone();
        assert(x@ == vs[k as int]);
        assert(!rs.contains(x@)) by {
            if rs.contains(x@) {
                let a = choose|a: int| 0 <= a < k && #[trigger] vs.take(k as int)[a] == x@;
                assert(vs.take(k as int)[a] == vs[a]);
            }
        }
        let mut pos: usize = 0;
        while pos < res.len() && !lex_less(&x, &res[pos])
            invariant
                pos <= res.len(),
                rs == char_views(res@),
                !rs.contains(x@),
                forall|a: int| 0 <= a < pos ==> lex_lt(#[trigger] rs[a], x@),
            decreases res.len() - pos,
        {
            proof {
                assert(rs[pos as int] != x@);
                lemma_lex_total(rs[pos as int], x@);
            }
            pos = pos + 1;
        }
        res.insert(pos, x);
        let ghost rs2 = char_views(res@);
        assert(rs2 =~= rs.insert(pos as int, x@));
        assert forall|a: int, b: int| 0 <= a < b < rs2.len() implies lex_lt(
            #[trigger] rs2[a],
            #[trigger] rs2[b],
        ) by {
            if b < pos {
            } else if b == pos {
            } else if a == pos {
                assert(lex_lt(x@, rs[pos as int]));
                if b - 1 > pos {
                    lemma_lex_transitive(x@, rs[pos as int], rs[b - 1]);
                }
            } else if a < pos {
                assert(lex_lt(x@, rs[pos as int]));
                lemma_lex_transitive(rs[a], x@, rs[pos as int]);
                if b - 1 > pos {
                    lemma_lex_transitive(rs[a], rs[pos as int], rs[b - 1]);
                }
            } else {
            }
        }
        assert(vs.take(k + 1) =~= vs.take(k as int).push(x@));
        assert forall|y: Seq<char>| rs2.contains(y) == vs.take(k + 1).contains(y) by {
            let t1 = vs.take(k as int);
            let t2 = vs.take(k + 1);
            if rs2.contains(y) {
                let a = choose|a: int| 0 <= a < rs2.len() && #[trigger] rs2[a] == y;
                if a == pos {
                    assert(t2[k as int] == y);
                } else {
                    if a < pos {
                        assert(rs[a] == y);
                    } else {
                        assert(rs[a - 1] == y);
                    }
                    assert(rs.contains(y));
                    assert(t1.contains(y));
                    let b = choose|b: int| 0 <= b < t1.len() && #[trigger] t1[b] == y;
                    assert(t2[b] == y);
                }
            }
            if t2.contains(y) {
                let b = choose|b: int| 0 <= b < t2.len() && #[trigger] t2[b] == y;
                if b == k {
                    assert(rs2[pos as int] == y);
                } else {
                    assert(t1[b] == y);
                    assert(t1.contains(y));
                    assert(rs.contains(y));
                    let a = choose|a: int| 0 <= a < rs.len() && #[trigger] rs[a] == y;
                    if a < pos {
                        assert(rs2[a] == y);
                    } else {
                        assert(rs2[a + 1] == y);
                    }
                }
            }
        }
        k = k + 1;
    }
    assert(vs.take(n as int) =~= vs);
    res
}

} // verus!
