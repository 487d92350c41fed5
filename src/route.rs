use vstd::prelude::*;

verus! {

/// The route held by an optional vector of child indices.
pub open spec fn route_view(o: Option<Vec<usize>>) -> Option<Seq<usize>> {
    match o {
        Some(v) => Some(v@),
        None => None,
    }
}

/// Lexicographic order on routes, a route coming before its extensions.
/// This is the order in which a pre-order traversal meets the nodes they address.
pub open spec fn lex_le(a: Seq<usize>, b: Seq<usize>) -> bool
    decreases a.len(),
{
    a.len() == 0 || (b.len() > 0 && (a[0] < b[0] || (a[0] == b[0] && lex_le(
        a.drop_first(),
        b.drop_first(),
    ))))
}

/// Two routes that each come first before the other are equal.
pub proof fn lemma_lex_antisymmetric(a: Seq<usize>, b: Seq<usize>)
    requires
        lex_le(a, b),
        lex_le(b, a),
    ensures
        a == b,
    decreases a.len(),
{
    if a.len() == 0 {
        assert(b.len() == 0);
        assert(a =~= b);
    } else {
        lemma_lex_antisymmetric(a.drop_first(), b.drop_first());
        assert(a =~= seq![a[0]].add(a.drop_first()));
        assert(b =~= seq![b[0]].add(b.drop_first()));
    }
}

/// The order of two routes that start with a step each.
pub proof fn lemma_lex_cons(i: usize, a: Seq<usize>, j: usize, b: Seq<usize>)
    ensures
        lex_le(seq![i].add(a), seq![j].add(b)) <==> (i < j || (i == j && lex_le(a, b))),
{
    assert(seq![i].add(a).drop_first() =~= a);
    assert(seq![j].add(b).drop_first() =~= b);
}

} // verus!
