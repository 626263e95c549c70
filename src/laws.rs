use crate::chain::Chain;
use crate::matrix::TransitionMatrix;
use crate::model::{
    lemma_mentions_after_record, lemma_weight_after_record, mentions, pairs_of, record, record_all,
    step_allowed, weight, Table,
};
use vstd::multiset::Multiset;
use vstd::prelude::*;

verus! {

/// After a list of pairs is recorded, the count of `b` under `a` is the
/// number of times the pair `(a, b)` occurs in the list.
pub proof fn law_count_is_occurrences<K>(pairs: Seq<(K, K)>, a: K, b: K)
    ensures
        weight(record_all(pairs), a, b) == pairs.to_multiset().count((a, b)),
    decreases pairs.len(),
{
    broadcast use vstd::seq_lib::group_to_multiset_ensures;

    if pairs.len() == 0 {
        assert(pairs.to_multiset() =~= Multiset::empty());
    } else {
        let init = pairs.drop_last();
        law_count_is_occurrences(init, a, b);
        lemma_weight_after_record(record_all(init), pairs.last().0, pairs.last().1, a, b);
        assert(init.push(pairs.last()) == pairs);
    }
}

/// A sequence of two or more tokens teaches at least one source token (the
/// one before last); a shorter sequence teaches nothing.
pub proof fn law_sources_need_two_tokens<K>(s: Seq<K>)
    ensures
        s.len() >= 2 ==> record_all(pairs_of(s)).contains_key(s[s.len() - 2]),
        s.len() < 2 ==> record_all(pairs_of(s)) == Table::<K>::empty(),
{
    let pairs = pairs_of(s);
    if s.len() < 2 {
        assert(pairs.len() == 0);
    } else {
        assert(pairs.last() == (s[s.len() - 2], s[s.len() - 1]));
    }
}

/// A chain learned from a token sequence has learned nothing, so that no
/// walk over it can start, exactly when the sequence has fewer than two
/// tokens.
pub proof fn law_walk_needs_two_tokens<K>(c: &Chain<K>, s: Seq<K>)
    requires
        c@ == record_all(pairs_of(s)),
    ensures
        c@ == Table::<K>::empty() <==> s.len() < 2,
{
    law_sources_need_two_tokens(s);
    if s.len() >= 2 {
        assert(!Table::<K>::empty().contains_key(s[s.len() - 2]));
    }
}

/// A token occurs in the table learned from `pairs` only if it is part of
/// one of the pairs.
proof fn lemma_mentioned_in_pairs<K>(pairs: Seq<(K, K)>, t: K)
    requires
        mentions(record_all(pairs), t),
    ensures
        exists|i: int| 0 <= i < pairs.len() && (#[trigger] pairs[i].0 == t || pairs[i].1 == t),
    decreases pairs.len(),
{
    if pairs.len() == 0 {
        assert(!record_all(pairs).contains_key(t));
    } else {
        let init = pairs.drop_last();
        let last = pairs.last();
        lemma_mentions_after_record(record_all(init), last.0, last.1, t);
        if mentions(record_all(init), t) {
            lemma_mentioned_in_pairs(init, t);
            let i = choose|i: int| 0 <= i < init.len() && (#[trigger] init[i].0 == t || init[i].1 == t);
            assert(pairs[i] == init[i]);
        } else {
            assert(pairs[pairs.len() - 1] == last);
        }
    }
}

/// A walk over the table learned from a token sequence only ever returns
/// tokens of that sequence.
pub proof fn law_steps_stay_in_input<K>(s: Seq<K>, cur: K, next: K)
    requires
        step_allowed(record_all(pairs_of(s)), cur, next),
    ensures
        s.contains(next),
{
    let m = record_all(pairs_of(s));
    if m.contains_key(cur) {
        assert(m.contains_key(cur) && m[cur].contains_key(next));
    }
    assert(mentions(m, next));
    lemma_mentioned_in_pairs(pairs_of(s), next);
    let i = choose|i: int| 0 <= i < pairs_of(s).len() && (#[trigger] pairs_of(s)[i].0 == next || pairs_of(s)[i].1 == next);
    if pairs_of(s)[i].0 == next {
        assert(s[i] == next);
    } else {
        assert(s[i + 1] == next);
    }
}

/// With the single pair `a -> b` learned, a walk alternates: from `a` it
/// must go to `b`, and `b`, having no successor, re-seeds to `a`.
pub proof fn law_single_pair_alternates<K>(a: K, b: K, next: K)
    requires
        a != b,
    ensures
        step_allowed(record(Table::<K>::empty(), a, b), a, next) ==> next == b,
        step_allowed(record(Table::<K>::empty(), a, b), b, next) ==> next == a,
{
}

/// Two walks made from one chain, with nothing recorded in between, sample
/// from the same source tokens with the same counts.
pub proof fn law_freeze_is_repeatable<K>(
    c: &Chain<K>,
    first: &TransitionMatrix<K>,
    second: &TransitionMatrix<K>,
)
    requires
        first.adjacency() == c@,
        second.adjacency() == c@,
    ensures
        first.adjacency().dom() == second.adjacency().dom(),
        forall|a: K, b: K|
            #[trigger] weight(first.adjacency(), a, b) == #[trigger] weight(second.adjacency(), a, b),
{
}

} // verus!
