use vstd::prelude::*;
use vstd::string::StrSliceExecFns;
use crate::stats::lemma_insert_multiset;

verus! {

/// Lexicographic order on character sequences, by code point.
pub open spec fn lex_le(a: Seq<char>, b: Seq<char>) -> bool
    decreases a.len(),
{
    if a.len() == 0 {
        true
    } else if b.len() == 0 {
        false
    } else if a[0] != b[0] {
        (a[0] as int) < (b[0] as int)
    } else {
        lex_le(a.drop_first(), b.drop_first())
    }
}

/// `s` is in lexicographic order.
pub open spec fn names_ascending(s: Seq<Seq<char>>) -> bool {
    forall|i: int, j: int| 0 <= i < j < s.len() ==> lex_le(s[i], s[j])
}

/// The views of a list of strings.
pub open spec fn names_view(v: Seq<String>) -> Seq<Seq<char>> {
    v.map_values(|s: String| s@)
}

pub proof fn lemma_lex_total(a: Seq<char>, b: Seq<char>)
    ensures
        lex_le(a, b) || lex_le(b, a),
    decreases a.len(),
{
    if a.len() > 0 && b.len() > 0 {
        if a[0] == b[0] {
            lemma_lex_total(a.drop_first(), b.drop_first());
        } else {
            assert((a[0] as int) != (b[0] as int));
        }
    }
}

pub proof fn lemma_lex_trans(a: Seq<char>, b: Seq<char>, c: Seq<char>)
    requires
        lex_le(a, b),
        lex_le(b, c),
    ensures
        lex_le(a, c),
    decreases a.len(),
{
    if a.len() > 0 && b.len() > 0 && c.len() > 0 && a[0] == b[0] && b[0] == c[0] {
        lemma_lex_trans(a.drop_first(), b.drop_first(), c.drop_first());
    }
}

/// Whether `a` comes no later than `b` in lexicographic order.
pub fn name_le(a: &str, b: &str) -> (r: bool)
    ensures
        r == lex_le(a@, b@),
{
    let na = a.unicode_len();
    let nb = b.unicode_len();
    let mut i: usize = 0;
    assert(a@.skip(0) =~= a@);
    assert(b@.skip(0) =~= b@);
    while i < na && i < nb
        invariant
            na == a@.len(),
            nb == b@.len(),
            i <= na,
            i <= nb,
            lex_le(a@, b@) == lex_le(a@.skip(i as int), b@.skip(i as int)),
        decreases na - i,
    {
        let ca = a.get_char(i);
        let cb = b.get_char(i);
        assert(a@.skip(i as int)[0] == ca);
        assert(b@.skip(i as int)[0] == cb);
        if ca != cb {
            return (ca as u32) < (cb as u32);
        }
        assert(a@.skip(i as int).drop_first() =~= a@.skip(i + 1));
        assert(b@.skip(i as int).drop_first() =~= b@.skip(i + 1));
        i = i + 1;
    }
    i == na
}

/// The strings of `v` in lexicographic order.
pub fn sort_names(v: &Vec<String>) -> (r: Vec<String>)
    ensures
        names_ascending(names_view(r@)),
        names_view(r@).to_multiset() == names_view(v@).to_multiset(),
{
    let n = v.len();
    let mut out: Vec<String> = Vec::new();
    let mut i: usize = 0;
    assert(names_view(out@) =~= names_view(v@).take(0));
    while i < n
        invariant
            n == v@.len(),
            i <= n,
            names_ascending(names_view(out@)),
            names_view(out@).to_multiset() == names_view(v@).take(i as int).to_multiset(),
        decreases n - i,
    {
        let x = v[i].clone();
        let mut pos: usize = 0;
        while pos < out.len() && !name_le(x.as_str(), out[pos].as_str())
            invariant
                pos <= out@.len(),
                forall|k: int| 0 <= k < pos ==> lex_le(out@[k]@, x@),
            decreases out@.len() - pos,
        {
            proof { lemma_lex_total(x@, out@[pos as int]@); }
            pos = pos + 1;
        }
        let ghost before = names_view(out@);
        out.insert(pos, x);
        proof {
            assert(names_view(out@) =~= before.insert(pos as int, x@));
            lemma_insert_multiset(before, pos as int, x@);
            assert(names_view(v@).take(i + 1) =~= names_view(v@).take(i as int).push(x@));
            names_view(v@).take(i as int).to_multiset_ensures();
            let w = names_view(out@);
            assert forall|a: int, b: int| 0 <= a < b < w.len() implies lex_le(w[a], w[b]) by {
                if b < pos {
                } else if b == pos {
                    assert(lex_le(before[a], x@));
                } else if a < pos {
                    assert(lex_le(before[a], x@));
                    assert(lex_le(x@, before[pos as int]));
                    assert(lex_le(before[pos as int], before[b - 1]) || pos == b - 1);
                    lemma_lex_trans(before[a], x@, before[pos as int]);
                    if pos < b - 1 {
                        lemma_lex_trans(before[a], before[pos as int], before[b - 1]);
                    }
                } else if a == pos {
                    assert(lex_le(x@, before[pos as int]));
                    if pos < b - 1 {
                        lemma_lex_trans(x@, before[pos as int], before[b - 1]);
                    }
                }
            }
        }
        i = i + 1;
    }
    assert(names_view(v@).take(n as int) =~= names_view(v@));
    out
}

} // verus!
