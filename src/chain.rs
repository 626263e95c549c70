use crate::model::{
    lemma_entry_within_total, lemma_pairs_of_extend, lemma_total_weight_update, mentions, pairs_of,
    record, record_all, successors, total_weight, weight, well_formed_table, Table,
};
use vstd::laws_eq::obeys_concrete_eq;
use vstd::prelude::*;

verus! {

/// A discrete-time Markov chain under construction: counts of which token
/// followed which.
///
/// Each distinct token is stored once in `tokens`; `rows[i]` lists the
/// successors of `tokens[i]` as (index into `tokens`, count) entries.
#[verifier::reject_recursive_types(K)]
pub struct Chain<K> {
    tokens: Vec<K>,
    rows: Vec<Vec<(usize, u64)>>,
    table: Ghost<Table<K>>,
    recorded: Ghost<nat>,
}

impl<K> View for Chain<K> {
    type V = Table<K>;

    closed spec fn view(&self) -> Table<K> {
        self.table@
    }
}

impl<K> Chain<K> {
    /// The stored tokens.
    pub closed spec fn token_seq(&self) -> Seq<K> {
        self.tokens@
    }

    /// The successor entries of the token at index `i`.
    pub closed spec fn row(&self, i: int) -> Seq<(usize, u64)> {
        self.rows@[i]@
    }

    /// The storage matches the table, except that some stored tokens may not
    /// occur in it yet.
    pub closed spec fn consistent(&self) -> bool {
        storage_consistent(self.tokens@, self.rows@, self.table@)
    }

    /// How many pairs have been recorded.
    pub closed spec fn recorded(&self) -> nat {
        self.recorded@
    }

    /// The chain's invariant: its storage matches its table, every stored
    /// token occurs in the table, and the counts under any one token sum to
    /// at most the number of pairs recorded, which fits in a `u64`.
    pub closed spec fn well_formed(&self) -> bool {
        &&& self.consistent()
        &&& self.recorded@ <= u64::MAX
        &&& forall|i: int|
            0 <= i < self.rows@.len() ==> total_weight(#[trigger] self.rows@[i]@) <= self.recorded@
        &&& forall|i: int| 0 <= i < self.tokens@.len() ==> mentions(self.table@, #[trigger] self.tokens@[i])
    }

    /// The number of stored tokens.
    pub fn token_count(&self) -> (r: usize)
        ensures
            r == self.token_seq().len(),
    {
        self.tokens.len()
    }

    /// Every source token of a well-formed chain has at least one successor,
    /// and every count is at least one.
    pub proof fn lemma_counts_positive(&self)
        requires
            self.well_formed(),
        ensures
            well_formed_table(self@),
    {
        assert forall|a: K| #[trigger] self@.contains_key(a) implies !self@[a].is_empty() && forall|
            b: K,
        | #[trigger] self@[a].contains_key(b) ==> self@[a][b] >= 1 by {
            let i = choose|i: int| 0 <= i < self.tokens@.len() && #[trigger] self.tokens@[i] == a;
            assert(self.rows@[i]@[0].0 < self.tokens@.len());
            assert(self@[a].contains_key(self.tokens@[self.rows@[i]@[0].0 as int]));
            assert forall|b: K| #[trigger] self@[a].contains_key(b) implies self@[a][b] >= 1 by {
                let k = choose|k: int|
                    0 <= k < self.rows@[i]@.len() && #[trigger] self.tokens@[self.rows@[i]@[k].0 as int]
                        == b;
                assert(self.rows@[i]@[k].1 >= 1);
            }
        }
    }

    /// The stored token at index `i`.
    pub fn token(&self, i: usize) -> (r: &K)
        requires
            i < self.token_seq().len(),
        ensures
            *r == self.token_seq()[i as int],
    {
        &self.tokens[i]
    }

    /// The successor entries of the token at index `i`, as (index, count).
    pub fn successors_at(&self, i: usize) -> (r: &Vec<(usize, u64)>)
        requires
            self.well_formed(),
            i < self.token_seq().len(),
        ensures
            r@ == self.row(i as int),
            total_weight(r@) <= self.recorded() <= u64::MAX,
            r@.len() > 0 <==> self@.contains_key(self.token_seq()[i as int]),
            forall|k: int|
                0 <= k < r@.len() ==> {
                    &&& (#[trigger] r@[k]).0 < self.token_seq().len()
                    &&& r@[k].1 >= 1
                    &&& self@.contains_key(self.token_seq()[i as int])
                    &&& self@[self.token_seq()[i as int]].contains_key(
                        self.token_seq()[r@[k].0 as int],
                    )
                },
    {
        &self.rows[i]
    }

    /// The indices of the tokens that have at least one successor.
    pub fn source_indices(&self) -> (r: Vec<usize>)
        requires
            self.well_formed(),
        ensures
            forall|j: int|
                0 <= j < r@.len() ==> #[trigger] r@[j] < self.token_seq().len() && self@.contains_key(
                    self.token_seq()[r@[j] as int],
                ),
            forall|a: K| #[trigger] self@.contains_key(a) ==> exists|j: int|
                0 <= j < r@.len() && self.token_seq()[#[trigger] r@[j] as int] == a,
            r@.len() == 0 <==> self@ == Table::<K>::empty(),
    {
        let mut r: Vec<usize> = Vec::new();
        let mut i: usize = 0;
        while i < self.rows.len()
            invariant
                self.well_formed(),
                i <= self.tokens@.len(),
                forall|j: int|
                    0 <= j < r@.len() ==> #[trigger] r@[j] < self.tokens@.len()
                        && self.table@.contains_key(self.tokens@[r@[j] as int]),
                forall|m: int|
                    0 <= m < i && self.table@.contains_key(#[trigger] self.tokens@[m]) ==> exists|
                        j: int,
                    | 0 <= j < r@.len() && #[trigger] r@[j] == m,
            decreases self.tokens@.len() - i,
        {
            let ghost r0 = r@;
            if self.rows[i].len() > 0 {
                r.push(i);
            }
            proof {
                assert forall|m: int|
                    0 <= m < i + 1 && self.table@.contains_key(#[trigger] self.tokens@[m]) implies exists|
                    j: int,
                | 0 <= j < r@.len() && #[trigger] r@[j] == m by {
                    if m < i {
                        let j = choose|j: int| 0 <= j < r0.len() && #[trigger] r0[j] == m;
                        assert(r@[j] == m);
                    } else {
                        assert(r@[r@.len() - 1] == m);
                    }
                }
            }
            i = i + 1;
        }
        proof {
            assert forall|a: K| #[trigger] self@.contains_key(a) implies exists|j: int|
                0 <= j < r@.len() && self.token_seq()[#[trigger] r@[j] as int] == a by {
                let m = choose|m: int| 0 <= m < self.tokens@.len() && #[trigger] self.tokens@[m] == a;
                let j = choose|j: int| 0 <= j < r@.len() && #[trigger] r@[j] == m;
                assert(self.token_seq()[r@[j] as int] == a);
            }
            if r@.len() == 0 {
                assert forall|a: K| !self@.contains_key(a) by {
                    if self@.contains_key(a) {
                        let j = choose|j: int| 0 <= j < r@.len() && self.token_seq()[#[trigger] r@[j] as int] == a;
                    }
                }
                assert(self@ =~= Table::<K>::empty());
            } else {
                assert(self@.contains_key(self.tokens@[r@[0] as int]));
            }
        }
        r
    }

    /// Creates an empty chain.
    pub fn new() -> (c: Chain<K>)
        ensures
            c.well_formed(),
            c@ == Table::<K>::empty(),
            c.recorded() == 0,
    {
        Chain { tokens: Vec::new(), rows: Vec::new(), table: Ghost(Map::empty()), recorded: Ghost(0) }
    }
}


/// The position of the entry for successor index `j` in `row`, if any.
fn find_entry(row: &Vec<(usize, u64)>, j: usize) -> (r: Option<usize>)
    ensures
        match r {
            Some(k) => k < row@.len() && row@[k as int].0 == j,
            None => forall|k: int| 0 <= k < row@.len() ==> (#[trigger] row@[k]).0 != j,
        },
{
    let mut k: usize = 0;
    while k < row.len()
        invariant
            k <= row@.len(),
            forall|m: int| 0 <= m < k ==> (#[trigger] row@[m]).0 != j,
        decreases row@.len() - k,
    {
        if row[k].0 == j {
            return Some(k);
        }
        k = k + 1;
    }
    None
}

/// Token and row storage matches `table`: tokens are distinct, every entry
/// names a stored token with a positive count equal to the table's, and the
/// tokens with entries are exactly the table's sources.
spec fn storage_consistent<K>(tokens: Seq<K>, rows: Seq<Vec<(usize, u64)>>, table: Table<K>) -> bool {
        let n = tokens.len();
        &&& rows.len() == n
        &&& forall|i: int, j: int|
            0 <= i < n && 0 <= j < n && i != j ==> tokens[i] != tokens[j]
        &&& forall|i: int, k: int|
            0 <= i < n && 0 <= k < rows[i]@.len() ==> {
                &&& (#[trigger] rows[i]@[k]).0 < n
                &&& rows[i]@[k].1 >= 1
                &&& table.contains_key(tokens[i])
                &&& table[tokens[i]].contains_key(tokens[rows[i]@[k].0 as int])
                &&& table[tokens[i]][tokens[rows[i]@[k].0 as int]]
                    == rows[i]@[k].1
            }
        &&& forall|i: int, k1: int, k2: int|
            0 <= i < n && 0 <= k1 < rows[i]@.len() && 0 <= k2 < rows[i]@.len() && k1
                != k2 ==> (#[trigger] rows[i]@[k1]).0 != (#[trigger] rows[i]@[k2]).0
        &&& forall|i: int|
            0 <= i < n ==> (table.contains_key(#[trigger] tokens[i]) <==> rows[i]@.len()
                > 0)
        &&& forall|a: K|
            #[trigger] table.contains_key(a) ==> exists|i: int|
                0 <= i < n && #[trigger] tokens[i] == a
        &&& forall|i: int, b: K|
            0 <= i < n && table.contains_key(tokens[i])
                && #[trigger] table[tokens[i]].contains_key(b) ==> exists|k: int|
                0 <= k < rows[i]@.len() && #[trigger] tokens[rows[i]@[k].0 as int]
                    == b
    }

/// Recording `(a, b)` in the table, with the entry for `b` in `a`'s row
/// incremented at position `kb` (or appended there), keeps the storage
/// matching the table.
proof fn lemma_record_storage<K>(
    tokens1: Seq<K>,
    rows1: Seq<Vec<(usize, u64)>>,
    rows2: Seq<Vec<(usize, u64)>>,
    t0: Table<K>,
    a: K,
    b: K,
    ia: int,
    ib: usize,
    kb: int,
)
    requires
        storage_consistent(tokens1, rows1, t0),
        0 <= ia < tokens1.len(),
        0 <= ib < tokens1.len(),
        tokens1[ia] == a,
        tokens1[ib as int] == b,
        rows2.len() == rows1.len(),
        forall|i: int| 0 <= i < rows1.len() && i != ia ==> #[trigger] rows2[i] == rows1[i],
        0 <= kb <= rows1[ia]@.len(),
        kb < rows1[ia]@.len() ==> rows1[ia]@[kb].0 == ib && rows1[ia]@[kb].1 < u64::MAX
            && rows2[ia]@ == rows1[ia]@.update(kb, (ib as usize, (rows1[ia]@[kb].1 + 1) as u64)),
        kb == rows1[ia]@.len() ==> rows2[ia]@ == rows1[ia]@.push((ib as usize, 1u64)) && forall|
            m: int,
        | 0 <= m < rows1[ia]@.len() ==> (#[trigger] rows1[ia]@[m]).0 != ib,
        forall|i: int|
            0 <= i < tokens1.len() ==> #[trigger] tokens1[i] == a || tokens1[i] == b || mentions(
                t0,
                tokens1[i],
            ),
    ensures
        storage_consistent(tokens1, rows2, record(t0, a, b)),
        forall|i: int| 0 <= i < tokens1.len() ==> mentions(record(t0, a, b), #[trigger] tokens1[i]),
{
    let n = tokens1.len();
    let t1 = record(t0, a, b);
    if kb == rows1[ia]@.len() && t0.contains_key(a) && t0[a].contains_key(b) {
        let m = choose|m: int| 0 <= m < rows1[ia]@.len() && #[trigger] tokens1[rows1[ia]@[m].0 as int] == b;
        assert(rows1[ia]@[m].0 == ib);
    }
        let v = successors(t0, a).insert(b, (weight(t0, a, b) + 1) as nat);
        assert(t1 == t0.insert(a, v));
        assert(t1[a] == v);
        assert(tokens1[ia as int] == a && tokens1[ib as int] == b);
        if kb < rows1[ia]@.len() {
            assert(rows2[ia]@[kb] == (ib as usize, (rows1[ia]@[kb].1 + 1) as u64));
        } else {
            assert(rows2[ia]@[kb] == (ib as usize, 1u64));
        }
        assert(0 <= kb < rows2[ia as int]@.len() && rows2[ia as int]@[kb].0 == ib);
        assert forall|i: int| 0 <= i < n && i != ia implies #[trigger] rows2[i] == rows1[i] by {}
        assert forall|i: int, k: int|
            0 <= i < n && 0 <= k < rows2[i]@.len() implies {
                &&& (#[trigger] rows2[i]@[k]).0 < n
                &&& rows2[i]@[k].1 >= 1
                &&& t1.contains_key(tokens1[i])
                &&& t1[tokens1[i]].contains_key(tokens1[rows2[i]@[k].0 as int])
                &&& t1[tokens1[i]][tokens1[rows2[i]@[k].0 as int]] == rows2[i]@[k].1
            } by {
            if i != ia {
                assert(rows2[i] == rows1[i]);
                assert(tokens1[i] != a);
            } else if rows2[i]@[k].0 != ib {
                assert(k < rows1[i]@.len());
                assert(rows2[i]@[k] == rows1[i]@[k]);
                assert(tokens1[rows2[i]@[k].0 as int] != b);
            }
        }
        assert forall|i: int, k1: int, k2: int|
            0 <= i < n && 0 <= k1 < rows2[i]@.len() && 0 <= k2 < rows2[i]@.len() && k1 != k2
            implies (#[trigger] rows2[i]@[k1]).0 != (#[trigger] rows2[i]@[k2]).0 by {
            if i != ia {
                assert(rows2[i] == rows1[i]);
            } else {
                if k1 < rows1[i]@.len() && k2 < rows1[i]@.len() {
                    assert(rows1[i]@[k1].0 == rows2[i]@[k1].0);
                    assert(rows1[i]@[k2].0 == rows2[i]@[k2].0);
                }
            }
        }
        assert forall|i: int| 0 <= i < n implies (t1.contains_key(#[trigger] tokens1[i])
            <==> rows2[i]@.len() > 0) by {
            if i != ia {
                assert(rows2[i] == rows1[i]);
                assert(tokens1[i] != a);
            }
        }
        assert forall|x: K| #[trigger] t1.contains_key(x) implies exists|i: int|
            0 <= i < n && #[trigger] tokens1[i] == x by {
            if x == a {
                assert(tokens1[ia as int] == x);
            }
        }
        assert forall|i: int, y: K|
            0 <= i < n && t1.contains_key(tokens1[i])
                && #[trigger] t1[tokens1[i]].contains_key(y) implies exists|k: int|
            0 <= k < rows2[i]@.len() && #[trigger] tokens1[rows2[i]@[k].0 as int] == y by {
            if i != ia {
                assert(rows2[i] == rows1[i]);
                assert(tokens1[i] != a);
                let k = choose|k: int| 0 <= k < rows1[i]@.len() && #[trigger] tokens1[rows1[i]@[k].0 as int] == y;
                assert(tokens1[rows2[i]@[k].0 as int] == y);
            } else if y == b {
                assert(tokens1[rows2[i]@[kb].0 as int] == y);
            } else {
                let k = choose|k: int| 0 <= k < rows1[i]@.len() && #[trigger] tokens1[rows1[i]@[k].0 as int] == y;
                assert(rows2[i]@[k] == rows1[i]@[k]);
                assert(tokens1[rows2[i]@[k].0 as int] == y);
            }
        }
        assert forall|i: int| 0 <= i < n implies mentions(t1, #[trigger] tokens1[i]) by {
            if tokens1[i] == a || tokens1[i] == b {
                assert(t1.contains_key(a) && t1[a].contains_key(b));
                assert(mentions(t1, a));
                assert(mentions(t1, b));
            } else {
                if !t0.contains_key(tokens1[i]) {
                    let x = choose|x: K| t0.contains_key(x) && #[trigger] t0[x].contains_key(tokens1[i]);
                    assert(t1.contains_key(x) && t1[x].contains_key(tokens1[i]));
                }
            }
        }
}

/// Adds one to the count of successor `next` in `row`, or adds `next` with a
/// count of one if it is absent. Returns the position of its entry.
fn increment(row: &mut Vec<(usize, u64)>, next: usize) -> (k: usize)
    requires
        forall|m: int|
            0 <= m < old(row)@.len() && (#[trigger] old(row)@[m]).0 == next ==> old(row)@[m].1 < u64::MAX,
    ensures
        k <= old(row)@.len(),
        k < old(row)@.len() ==> old(row)@[k as int].0 == next && final(row)@ == old(row)@.update(
            k as int,
            (next, (old(row)@[k as int].1 + 1) as u64),
        ),
        k == old(row)@.len() ==> final(row)@ == old(row)@.push((next, 1u64)) && forall|m: int|
            0 <= m < old(row)@.len() ==> (#[trigger] old(row)@[m]).0 != next,
{
    match find_entry(row, next) {
        Some(k) => {
            let w = row[k].1;
            row.set(k, (next, w + 1));
            k
        },
        None => {
            let k = row.len();
            row.push((next, 1));
            k
        },
    }
}

impl<K: PartialEq> Chain<K> {
    /// The index at which `t` is stored, if it is.
    fn find_token(&self, t: &K) -> (r: Option<usize>)
        requires
            obeys_concrete_eq::<K>(),
        ensures
            match r {
                Some(i) => i < self.tokens@.len() && self.tokens@[i as int] == *t,
                None => forall|i: int| 0 <= i < self.tokens@.len() ==> self.tokens@[i] != *t,
            },
    {
        let mut i: usize = 0;
        while i < self.tokens.len()
            invariant
                obeys_concrete_eq::<K>(),
                i <= self.tokens@.len(),
                forall|j: int| 0 <= j < i ==> self.tokens@[j] != *t,
            decreases self.tokens@.len() - i,
        {
            proof {
                reveal(obeys_concrete_eq);
            }
            if self.tokens[i] == *t {
                return Some(i);
            }
            i = i + 1;
        }
        None
    }

    /// How often `next` has been recorded after `current`.
    pub fn weight_of(&self, current: &K, next: &K) -> (r: u64)
        requires
            obeys_concrete_eq::<K>(),
            self.well_formed(),
        ensures
            r == weight(self@, *current, *next),
    {
        let ia = match self.find_token(current) {
            Some(i) => i,
            None => {
                proof {
                    if self@.contains_key(*current) {
                        let i = choose|i: int| 0 <= i < self.tokens@.len() && #[trigger] self.tokens@[i] == *current;
                    }
                }
                return 0;
            },
        };
        let ib = match self.find_token(next) {
            Some(i) => i,
            None => {
                proof {
                    if self@.contains_key(*current) && self@[*current].contains_key(*next) {
                        let k = choose|k: int| 0 <= k < self.rows@[ia as int]@.len() && #[trigger] self.tokens@[self.rows@[ia as int]@[k].0 as int] == *next;
                    }
                }
                return 0;
            },
        };
        match find_entry(&self.rows[ia], ib) {
            Some(k) => {
                proof {
                    assert(self.rows@[ia as int]@[k as int].0 == ib);
                }
                self.rows[ia][k].1
            },
            None => {
                proof {
                    if self@.contains_key(*current) && self@[*current].contains_key(*next) {
                        let k = choose|k: int| 0 <= k < self.rows@[ia as int]@.len() && #[trigger] self.tokens@[self.rows@[ia as int]@[k].0 as int] == *next;
                        assert(self.rows@[ia as int]@[k].0 == ib);
                    }
                }
                0
            },
        }
    }

    /// The index of `t`, storing it with no successors first if it is new.
    fn intern(&mut self, t: K) -> (i: usize)
        requires
            obeys_concrete_eq::<K>(),
            old(self).consistent(),
        ensures
            final(self).consistent(),
            final(self).table@ == old(self).table@,
            final(self).recorded == old(self).recorded,
            i < final(self).tokens@.len(),
            final(self).tokens@[i as int] == t,
            old(self).tokens@.contains(t) ==> final(self).tokens@ == old(self).tokens@
                && final(self).rows@ == old(self).rows@,
            !old(self).tokens@.contains(t) ==> final(self).tokens@ == old(self).tokens@.push(t)
                && final(self).rows@.drop_last() == old(self).rows@ && final(self).rows@.last()@.len()
                == 0,
    {
        match self.find_token(&t) {
            Some(i) => i,
            None => {
                let n = self.tokens.len();
                self.tokens.push(t);
                self.rows.push(Vec::new());
                proof {
                    assert(self.rows@.drop_last() == old(self).rows@);
                    assert forall|a: K| #[trigger] self.table@.contains_key(a) implies exists|i: int|
                        0 <= i < self.tokens@.len() && #[trigger] self.tokens@[i] == a by {
                        let i = choose|i: int| 0 <= i < old(self).tokens@.len() && #[trigger] old(self).tokens@[i] == a;
                        assert(self.tokens@[i] == a);
                    }
                    assert forall|i: int, b: K|
                        0 <= i < self.tokens@.len() && self.table@.contains_key(self.tokens@[i])
                            && #[trigger] self.table@[self.tokens@[i]].contains_key(b) implies exists|k: int|
                        0 <= k < self.rows@[i]@.len() && #[trigger] self.tokens@[self.rows@[i]@[k].0 as int] == b by {
                        if i < n {
                            let k = choose|k: int| 0 <= k < old(self).rows@[i]@.len() && #[trigger] old(self).tokens@[old(self).rows@[i]@[k].0 as int] == b;
                            assert(self.tokens@[self.rows@[i]@[k].0 as int] == b);
                        }
                    }
                }
                n
            },
        }
    }

    /// Records that `next` followed `current` once more.
    #[verifier::rlimit(100)]
    pub fn insert(&mut self, current: K, next: K)
        requires
            obeys_concrete_eq::<K>(),
            old(self).well_formed(),
            old(self).recorded() < u64::MAX,
        ensures
            final(self).well_formed(),
            final(self)@ == record(old(self)@, current, next),
            final(self).recorded() == old(self).recorded() + 1,
    {
        let ghost a = current;
        let ghost b = next;
        let ghost t0 = self.table@;
        let ghost rows0 = self.rows@;
        let ghost tokens0 = self.tokens@;
        let ia = self.intern(current);
        let ghost rows_mid = self.rows@;
        let ghost tokens_mid = self.tokens@;
        let ib = self.intern(next);
        let ghost tokens1 = self.tokens@;
        let ghost rows1 = self.rows@;
        let ghost n = self.tokens@.len();
        proof {
            assert forall|i: int| 0 <= i < n implies total_weight(#[trigger] rows1[i]@)
                <= old(self).recorded@ by {
                if i < rows0.len() {
                    assert(rows_mid[i] == rows0[i]);
                    assert(rows1[i] == rows0[i]);
                } else if i < rows_mid.len() {
                    assert(rows1[i] == rows_mid[i]);
                    assert(rows_mid[i]@.len() == 0);
                } else {
                    assert(rows1[i]@.len() == 0);
                }
            }
            assert forall|m: int|
                0 <= m < rows1[ia as int]@.len() && (#[trigger] rows1[ia as int]@[m]).0 == ib implies rows1[ia as int]@[m].1
                < u64::MAX by {
                lemma_entry_within_total(rows1[ia as int]@, m);
            }
        }
        let k = increment(&mut self.rows[ia], ib);
        let ghost kb = k as int;
        self.table = Ghost(record(t0, a, b));
        self.recorded = Ghost(self.recorded@ + 1);
        proof {
            let row1 = rows1[ia as int]@;
            let row2 = self.rows@[ia as int]@;
            if kb < row1.len() {
                lemma_total_weight_update(row1, kb, (ib as usize, (row1[kb].1 + 1) as u64));
            } else {
                assert(row2.drop_last() == row1);
            }
            assert(total_weight(row2) == total_weight(row1) + 1);
            assert forall|i: int| 0 <= i < n implies total_weight(#[trigger] self.rows@[i]@)
                <= self.recorded@ by {
                if i != ia {
                    assert(self.rows@[i] == rows1[i]);
                }
            }
            assert forall|i: int| 0 <= i < n implies #[trigger] tokens1[i] == a || tokens1[i] == b
                || mentions(t0, tokens1[i]) by {
                if i < tokens0.len() {
                    assert(tokens_mid[i] == tokens0[i]);
                    assert(tokens1[i] == tokens0[i]);
                } else if i < tokens_mid.len() {
                    assert(tokens1[i] == tokens_mid[i]);
                }
            }
            lemma_record_storage(tokens1, rows1, self.rows@, t0, a, b, ia as int, ib, kb);
            assert(self.tokens@ == tokens1);
            assert(self.consistent());
        }
    }

    /// Learns a chain from a token sequence: each token is recorded as
    /// following the one before it.
    pub fn from_sequence(tokens: &Vec<K>) -> (c: Chain<K>)
        where
            K: Copy,
        requires
            obeys_concrete_eq::<K>(),
            tokens@.len() <= u64::MAX,
        ensures
            c.well_formed(),
            c@ == record_all(pairs_of(tokens@)),
            c.recorded() == pairs_of(tokens@).len(),
    {
        let mut c = Chain::new();
        if tokens.len() == 0 {
            return c;
        }
        proof {
            assert(pairs_of(tokens@.take(1)) =~= Seq::empty());
        }
        let mut i: usize = 1;
        while i < tokens.len()
            invariant
                obeys_concrete_eq::<K>(),
                tokens@.len() <= u64::MAX,
                1 <= i <= tokens@.len(),
                c.well_formed(),
                c@ == record_all(pairs_of(tokens@.take(i as int))),
                c.recorded() == i - 1,
            decreases tokens@.len() - i,
        {
            let prev: K = tokens[i - 1];
            let cur: K = tokens[i];
            proof {
                lemma_pairs_of_extend(tokens@, i as int);
            }
            c.insert(prev, cur);
            proof {
                let q = pairs_of(tokens@.take(i as int));
                assert(q.push((prev, cur)).drop_last() == q);
            }
            i = i + 1;
        }
        proof {
            assert(tokens@.take(i as int) =~= tokens@);
        }
        c
    }
}

} // verus!
