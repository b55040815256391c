//! Candidate selection: the networks that are both visible and known.
use vstd::multiset::Multiset;
use vstd::prelude::*;

verus! {

broadcast use vstd::seq_lib::group_to_multiset_ensures;

/// The identifiers held by a list of strings.
pub open spec fn ids_view(v: Seq<String>) -> Seq<Seq<char>> {
    v.map_values(|s: String| s@)
}

/// How many times `x` occurs in `s`.
pub open spec fn occurrences(s: Seq<Seq<char>>, x: Seq<char>) -> nat {
    s.to_multiset().count(x)
}

/// `x` repeated `n` times.
pub open spec fn repeated(x: Seq<char>, n: nat) -> Seq<Seq<char>> {
    Seq::new(n, |i: int| x)
}

/// The candidates: each entry of `visible`, in its order, once for every
/// equal entry of `known`.
pub open spec fn select(visible: Seq<Seq<char>>, known: Seq<Seq<char>>) -> Seq<Seq<char>>
    decreases visible.len(),
{
    if visible.len() == 0 {
        seq![]
    } else {
        select(visible.drop_last(), known) + repeated(visible.last(), occurrences(known, visible.last()))
    }
}

proof fn lemma_repeated_occurrences(x: Seq<char>, n: nat, y: Seq<char>)
    ensures
        occurrences(repeated(x, n), y) == if x == y { n } else { 0 },
    decreases n,
{
    if n > 0 {
        lemma_repeated_occurrences(x, (n - 1) as nat, y);
        assert(repeated(x, n) =~= repeated(x, (n - 1) as nat).push(x));
    } else {
        assert(repeated(x, n) =~= Seq::<Seq<char>>::empty());
    }
}

/// Every candidate is both visible and known, and each identifier occurs
/// among the candidates as many times as the product of its occurrences in
/// the two lists; when either list is empty there are no candidates.
pub proof fn lemma_select_law(visible: Seq<Seq<char>>, known: Seq<Seq<char>>)
    ensures
        select(visible, seq![]) == Seq::<Seq<char>>::empty(),
        select(seq![], known) == Seq::<Seq<char>>::empty(),
        forall|x: Seq<char>|
            #[trigger] occurrences(select(visible, known), x) == occurrences(visible, x)
                * occurrences(known, x),
        forall|i: int|
            0 <= i < select(visible, known).len() ==> visible.contains(
                #[trigger] select(visible, known)[i],
            ) && known.contains(select(visible, known)[i]),
    decreases visible.len(),
{
    broadcast use vstd::seq_lib::lemma_multiset_commutative;
    broadcast use vstd::multiset::group_multiset_axioms;

    let r = select(visible, known);
    assert forall|x: Seq<char>|
        #[trigger] occurrences(r, x) == occurrences(visible, x) * occurrences(known, x)
        && (occurrences(r, x) > 0 ==> visible.contains(x) && known.contains(x)) by {
        if visible.len() == 0 {
            assert(visible.to_multiset() =~= Multiset::empty());
            assert(r.to_multiset() =~= Multiset::empty());
        } else {
            let rest = visible.drop_last();
            let y = visible.last();
            lemma_select_law(rest, known);
            lemma_repeated_occurrences(y, occurrences(known, y), x);
            assert(rest.push(y) =~= visible);
            assert(r == select(rest, known) + repeated(y, occurrences(known, y)));
            let a = occurrences(rest, x);
            let b = occurrences(known, x);
            assert(occurrences(r, x) == occurrences(select(rest, known), x) + occurrences(
                repeated(y, occurrences(known, y)),
                x,
            ));
            assert(occurrences(select(rest, known), x) == a * b);
            if x == y {
                assert(occurrences(visible, x) == a + 1);
                assert((a + 1) * b == a * b + b) by (nonlinear_arith);
                assert(occurrences(r, x) == occurrences(visible, x) * b);
            } else {
                assert(occurrences(visible, x) == a);
                assert(occurrences(r, x) == occurrences(visible, x) * b);
            }
        }
        let c = occurrences(visible, x);
        let b = occurrences(known, x);
        assert(c * b > 0 ==> c > 0 && b > 0) by (nonlinear_arith);
        assert(c > 0 ==> visible.contains(x));
        assert(b > 0 ==> known.contains(x));
    }
    assert forall|i: int| 0 <= i < r.len() implies visible.contains(#[trigger] r[i])
        && known.contains(r[i]) by {
        assert(r.contains(r[i]));
        assert(occurrences(r, r[i]) > 0);
    }
    let none: Seq<Seq<char>> = seq![];
    assert(none.to_multiset() =~= Multiset::empty());
    lemma_select_empty_known(visible);
}

proof fn lemma_select_empty_known(visible: Seq<Seq<char>>)
    ensures
        select(visible, seq![]) == Seq::<Seq<char>>::empty(),
    decreases visible.len(),
{
    let none: Seq<Seq<char>> = seq![];
    assert(none.to_multiset() =~= Multiset::empty());
    if visible.len() > 0 {
        lemma_select_empty_known(visible.drop_last());
        assert(repeated(visible.last(), 0) =~= none);
        assert(select(visible, none) =~= none);
    }
}

/// Returns, in the order of `l1`, each entry of `l1` once for every equal
/// entry of `l2`.
pub fn intersection(l1: &[String], l2: &[String]) -> (r: Vec<String>)
    ensures
        ids_view(r@) == select(ids_view(l1@), ids_view(l2@)),
{
    let ghost v = ids_view(l1@);
    let ghost k = ids_view(l2@);
    let mut inter: Vec<String> = Vec::new();
    let mut i: usize = 0;
    while i < l1.len()
        invariant
            i <= l1@.len(),
            v == ids_view(l1@),
            k == ids_view(l2@),
            ids_view(inter@) == select(v.take(i as int), k),
        decreases l1@.len() - i,
    {
        let e1 = &l1[i];
        let ghost before = ids_view(inter@);
        let mut j: usize = 0;
        while j < l2.len()
            invariant
                i < l1@.len(),
                j <= l2@.len(),
                e1 == l1@[i as int],
                v == ids_view(l1@),
                k == ids_view(l2@),
                before == select(v.take(i as int), k),
                ids_view(inter@) == before + repeated(e1@, occurrences(k.take(j as int), e1@)),
            decreases l2@.len() - j,
        {
            let e2 = &l2[j];
            proof {
                assert(k.take(j + 1) =~= k.take(j as int).push(k[j as int]));
                assert(k[j as int] == e2@);
            }
            if *e1 == *e2 {
                let ghost prev = inter@;
                inter.push(e1.clone());
                assert(ids_view(inter@) =~= ids_view(prev).push(e1@));
                assert(repeated(e1@, occurrences(k.take(j as int), e1@)).push(e1@) =~= repeated(
                    e1@,
                    occurrences(k.take(j as int), e1@) + 1,
                ));
                assert(occurrences(k.take(j + 1), e1@) == occurrences(k.take(j as int), e1@) + 1);
                assert(ids_view(inter@) =~= before + repeated(e1@, occurrences(k.take(j + 1), e1@)));
            } else {
                assert(ids_view(inter@) =~= before + repeated(e1@, occurrences(k.take(j + 1), e1@)));
            }
            j = j + 1;
        }
        proof {
            assert(k.take(j as int) =~= k);
            assert(v.take(i + 1).drop_last() =~= v.take(i as int));
        }
        i = i + 1;
    }
    proof {
        assert(v.take(i as int) =~= v);
    }
    inter
}

} // verus!
