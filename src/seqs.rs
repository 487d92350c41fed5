use vstd::prelude::*;

verus! {

/// The value behind an optional reference.
pub open spec fn unref<A>(o: Option<&A>) -> Option<A> {
    match o {
        Some(x) => Some(*x),
        None => None,
    }
}

/// The values behind a sequence of references.
pub open spec fn unref_all<A>(s: Seq<&A>) -> Seq<A> {
    s.map_values(|x: &A| *x)
}

/// The items of `s` whose flag in `keep` is set, in their order.
pub open spec fn select<A>(s: Seq<A>, keep: Seq<bool>) -> Seq<A>
    decreases s.len(),
{
    if s.len() == 0 {
        Seq::empty()
    } else {
        let rest = select(s.drop_first(), keep.drop_first());
        if keep[0] {
            seq![s[0]].add(rest)
        } else {
            rest
        }
    }
}

/// Selecting from two sequences one after another.
pub proof fn lemma_select_concat<A>(a: Seq<A>, ka: Seq<bool>, b: Seq<A>, kb: Seq<bool>)
    requires
        a.len() == ka.len(),
    ensures
        select(a.add(b), ka.add(kb)) == select(a, ka).add(select(b, kb)),
    decreases a.len(),
{
    if a.len() == 0 {
        assert(a.add(b) =~= b);
        assert(ka.add(kb) =~= kb);
        assert(select(a, ka).add(select(b, kb)) =~= select(b, kb));
    } else {
        assert(a.add(b).drop_first() =~= a.drop_first().add(b));
        assert(ka.add(kb).drop_first() =~= ka.drop_first().add(kb));
        lemma_select_concat(a.drop_first(), ka.drop_first(), b, kb);
        assert(select(a.add(b), ka.add(kb)) =~= select(a, ka).add(select(b, kb)));
    }
}

/// The values behind two sequences of references one after another.
pub proof fn lemma_unref_all_concat<A>(a: Seq<&A>, b: Seq<&A>)
    ensures
        unref_all(a.add(b)) == unref_all(a).add(unref_all(b)),
{
    assert(unref_all(a.add(b)) =~= unref_all(a).add(unref_all(b)));
}

} // verus!
