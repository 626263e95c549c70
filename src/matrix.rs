use crate::chain::Chain;
use crate::model::{step_allowed, total_weight, Table};
use crate::random::{choose_uniform, choose_weighted_entry, new_rng};
use rand::rngs::ThreadRng;
use vstd::prelude::*;

verus! {

/// Why a walk over a chain could not be started or continued.
#[derive(Debug, Clone, Copy, PartialEq, Eq, Structural)]
pub enum ChainError {
    /// The chain has no token with a successor, so there is nowhere to start.
    EmptyModel,
    /// The counts of the current token's successors cannot be sampled from.
    /// A walk over a well-formed chain never meets this: its counts are all
    /// positive and their sum fits in a `u64`.
    MalformedWeight,
}

/// A walk over a learned chain that never ends.
///
/// Each step moves to a successor of the current token, drawn with
/// probability proportional to its count. From a token without successors
/// the walk starts over at a source token drawn uniformly.
#[verifier::reject_recursive_types(K)]
pub struct TransitionMatrix<'a, K> {
    rng: ThreadRng,
    chain: &'a Chain<K>,
    keys: Vec<usize>,
    current: usize,
}

impl<'a, K> TransitionMatrix<'a, K> {
    /// The counts that the walk samples from.
    pub closed spec fn adjacency(&self) -> Table<K> {
        self.chain@
    }

    /// The token that the walk stands on.
    pub closed spec fn position(&self) -> K {
        self.chain.token_seq()[self.current as int]
    }

    /// The walk's invariant: it stands on a stored token, and it can re-seed
    /// among the chain's source tokens, of which there is at least one.
    pub closed spec fn well_formed(&self) -> bool {
        &&& self.chain.well_formed()
        &&& self.current < self.chain.token_seq().len()
        &&& self.keys@.len() > 0
        &&& forall|j: int|
            0 <= j < self.keys@.len() ==> #[trigger] self.keys@[j] < self.chain.token_seq().len()
                && self.chain@.contains_key(self.chain.token_seq()[self.keys@[j] as int])
    }

    /// Moves to a source token drawn uniformly.
    fn init_state(&mut self)
        requires
            old(self).well_formed(),
        ensures
            final(self).well_formed(),
            final(self).adjacency() == old(self).adjacency(),
            final(self).adjacency().contains_key(final(self).position()),
            final(self).chain == old(self).chain,
            final(self).keys == old(self).keys,
    {
        match choose_uniform(&self.keys, &mut self.rng) {
            Some(k) => {
                self.current = k;
            },
            None => {},
        }
        proof {
            let j = choose|j: int| 0 <= j < self.keys@.len() && self.keys@[j] == self.current;
            assert(self.keys@[j] == self.current);
        }
    }

    /// Starts a walk over `chain` at a source token drawn uniformly; fails
    /// when the chain has no source token.
    fn new(chain: &'a Chain<K>) -> (r: Result<TransitionMatrix<'a, K>, ChainError>)
        requires
            chain.well_formed(),
        ensures
            r is Err <==> chain@ == Table::<K>::empty(),
            r matches Err(e) ==> e == ChainError::EmptyModel,
            r matches Ok(m) ==> m.well_formed() && m.adjacency() == chain@
                && chain@.contains_key(m.position()),
    {
        let keys = chain.source_indices();
        if keys.len() == 0 {
            return Err(ChainError::EmptyModel);
        }
        let first = keys[0];
        let mut mat = TransitionMatrix { rng: new_rng(), chain, keys, current: first };
        mat.init_state();
        Ok(mat)
    }

    /// Takes one step of the walk and returns the token it moved to.
    ///
    /// From a token with successors the result is one of them; from a token
    /// without, it is a source token. A step on a well-formed walk always
    /// succeeds.
    pub fn next(&mut self) -> (r: Result<&'a K, ChainError>)
        requires
            old(self).well_formed(),
        ensures
            final(self).well_formed(),
            final(self).adjacency() == old(self).adjacency(),
            r is Ok,
            r matches Ok(t) ==> step_allowed(old(self).adjacency(), old(self).position(), *t)
                && final(self).position() == *t,
    {
        let chain: &'a Chain<K> = self.chain;
        let row = chain.successors_at(self.current);
        if row.len() == 0 {
            self.init_state();
            return Ok(chain.token(self.current));
        }
        proof {
            lemma_total_weight_positive(row@);
        }
        match choose_weighted_entry(row, &mut self.rng) {
            Ok(entry) => {
                self.current = entry.0;
                proof {
                    let m = choose|m: int| 0 <= m < row@.len() && row@[m] == entry;
                    assert(row@[m] == entry);
                }
                Ok(chain.token(entry.0))
            },
            Err(_) => Err(ChainError::MalformedWeight),
        }
    }
}

/// A non-empty list whose counts are all positive has a positive sum.
proof fn lemma_total_weight_positive(row: Seq<(usize, u64)>)
    requires
        row.len() > 0,
        forall|m: int| 0 <= m < row.len() ==> (#[trigger] row[m]).1 >= 1,
    ensures
        total_weight(row) > 0,
{
    assert(row.last().1 >= 1);
}

impl<K> Chain<K> {
    /// Freezes the learned counts into a walk that starts at a source token
    /// drawn uniformly. Fails when nothing has been learned.
    pub fn transition_matrix(&self) -> (r: Result<TransitionMatrix<'_, K>, ChainError>)
        requires
            self.well_formed(),
        ensures
            r is Err <==> self@ == Table::<K>::empty(),
            r matches Err(e) ==> e == ChainError::EmptyModel,
            r matches Ok(m) ==> m.well_formed() && m.adjacency() == self@
                && self@.contains_key(m.position()),
    {
        TransitionMatrix::new(self)
    }
}

} // verus!
