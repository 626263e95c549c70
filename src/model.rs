use vstd::prelude::*;

verus! {

/// Counts of observed transitions: source token to successor token to count.
pub type Table<K> = Map<K, Map<K, nat>>;

/// The successors recorded under `a`, with their counts.
pub open spec fn successors<K>(m: Table<K>, a: K) -> Map<K, nat> {
    if m.contains_key(a) {
        m[a]
    } else {
        Map::empty()
    }
}

/// How often `b` was recorded after `a` (zero when never).
pub open spec fn weight<K>(m: Table<K>, a: K, b: K) -> nat {
    if successors(m, a).contains_key(b) {
        successors(m, a)[b]
    } else {
        0
    }
}

/// The table after one more observation of `b` following `a`.
pub open spec fn record<K>(m: Table<K>, a: K, b: K) -> Table<K> {
    m.insert(a, successors(m, a).insert(b, (weight(m, a, b) + 1) as nat))
}

/// The table built by recording each pair in order, starting from nothing.
pub open spec fn record_all<K>(pairs: Seq<(K, K)>) -> Table<K>
    decreases pairs.len(),
{
    if pairs.len() == 0 {
        Map::empty()
    } else {
        record(record_all(pairs.drop_last()), pairs.last().0, pairs.last().1)
    }
}

/// The consecutive pairs of a token sequence.
pub open spec fn pairs_of<K>(s: Seq<K>) -> Seq<(K, K)> {
    if s.len() == 0 {
        Seq::empty()
    } else {
        Seq::new((s.len() - 1) as nat, |i: int| (s[i], s[i + 1]))
    }
}

/// A token that occurs in the table, as a source or as a successor.
pub open spec fn mentions<K>(m: Table<K>, t: K) -> bool {
    m.contains_key(t) || exists|a: K| m.contains_key(a) && #[trigger] m[a].contains_key(t)
}

/// Every entry of the table holds at least one successor, each with a count of one or more.
pub open spec fn well_formed_table<K>(m: Table<K>) -> bool {
    forall|a: K|
        #[trigger] m.contains_key(a) ==> !m[a].is_empty() && forall|b: K|
            #[trigger] m[a].contains_key(b) ==> m[a][b] >= 1
}

/// What one step of a walk may return from position `cur`: a recorded
/// successor of `cur`, or, where `cur` has none, any source token.
pub open spec fn step_allowed<K>(m: Table<K>, cur: K, next: K) -> bool {
    if m.contains_key(cur) {
        m[cur].contains_key(next)
    } else {
        m.contains_key(next)
    }
}

/// The sum of the counts in a list of (successor index, count) entries.
pub open spec fn total_weight(row: Seq<(usize, u64)>) -> nat
    decreases row.len(),
{
    if row.len() == 0 {
        0
    } else {
        total_weight(row.drop_last()) + row.last().1 as nat
    }
}

/// Recording `(x, y)` adds one to the count of exactly that pair.
pub proof fn lemma_weight_after_record<K>(m: Table<K>, x: K, y: K, a: K, b: K)
    ensures
        weight(record(m, x, y), a, b) == if a == x && b == y {
            weight(m, a, b) + 1
        } else {
            weight(m, a, b)
        },
{
}

/// A token occurs in the table after recording `(x, y)` only if it occurred
/// before or is `x` or `y`.
pub proof fn lemma_mentions_after_record<K>(m: Table<K>, x: K, y: K, t: K)
    requires
        mentions(record(m, x, y), t),
    ensures
        mentions(m, t) || t == x || t == y,
{
    let r = record(m, x, y);
    if !r.contains_key(t) && t != y {
        let a = choose|a: K| r.contains_key(a) && #[trigger] r[a].contains_key(t);
        if a == x {
            let v = successors(m, x).insert(y, (weight(m, x, y) + 1) as nat);
            assert(r == m.insert(x, v));
            assert(r[x] == v);
            assert(v.contains_key(t));
            assert(successors(m, x).contains_key(t));
            assert(m.contains_key(x) && m[x].contains_key(t));
        } else {
            assert(m.contains_key(a) && m[a].contains_key(t));
        }
    }
}

/// The pairs of a prefix one longer end with the new pair.
pub proof fn lemma_pairs_of_extend<K>(s: Seq<K>, i: int)
    requires
        1 <= i < s.len(),
    ensures
        pairs_of(s.take(i + 1)) == pairs_of(s.take(i)).push((s[i - 1], s[i])),
{
    let long = s.take(i + 1);
    let short = s.take(i);
    assert(long.len() == i + 1 && short.len() == i);
    assert(pairs_of(long).len() == i);
    assert forall|j: int| 0 <= j < i implies pairs_of(long)[j] == pairs_of(short).push(
        (s[i - 1], s[i]),
    )[j] by {
        if j < i - 1 {
            assert(pairs_of(short)[j] == (short[j], short[j + 1]));
        }
    }
    assert(pairs_of(long) =~= pairs_of(short).push((s[i - 1], s[i])));
}

/// Replacing one entry of a list changes its total by the difference of the
/// two counts.
pub proof fn lemma_total_weight_update(row: Seq<(usize, u64)>, k: int, e: (usize, u64))
    requires
        0 <= k < row.len(),
    ensures
        total_weight(row.update(k, e)) + row[k].1 == total_weight(row) + e.1,
    decreases row.len(),
{
    let u = row.update(k, e);
    if k == row.len() - 1 {
        assert(u.drop_last() == row.drop_last());
    } else {
        lemma_total_weight_update(row.drop_last(), k, e);
        assert(u.drop_last() == row.drop_last().update(k, e));
    }
}

/// Each count of a list is at most the list's total.
pub proof fn lemma_entry_within_total(row: Seq<(usize, u64)>, k: int)
    requires
        0 <= k < row.len(),
    ensures
        row[k].1 <= total_weight(row),
    decreases row.len(),
{
    if k < row.len() - 1 {
        lemma_entry_within_total(row.drop_last(), k);
    }
}

} // verus!
