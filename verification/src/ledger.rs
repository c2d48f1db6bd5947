//! The bookkeeping of an energy accounting ledger: a bounded history of
//! transactions, newest first, and lookup of the transactions an entity took
//! part in. Entities are identified by the 64-bit value of their id; the
//! measured quantities of a transaction travel along as its payload.
use vstd::prelude::*;

verus! {

/// Energy transaction types for conservation accounting.
#[derive(Clone, Copy, Debug, PartialEq, Eq, Structural)]
pub enum TransactionType {
    /// Energy entering the system
    Input,
    /// Energy leaving the system
    Output,
}

/// Record of a single energy transaction.
#[derive(Debug)]
pub struct EnergyTransaction<P> {
    /// Type of transaction
    pub transaction_type: TransactionType,
    /// Source of energy (None for inputs from outside the system)
    pub source: Option<u64>,
    /// Destination of energy (None for outputs to outside the system)
    pub destination: Option<u64>,
    /// The measured quantities (amount, time, rate, duration)
    pub payload: P,
}

/// Whether `entity` is the source or the destination of `t`.
pub open spec fn involves<P>(t: EnergyTransaction<P>, entity: u64) -> bool {
    t.source == Some(entity) || t.destination == Some(entity)
}

/// The history after recording `t`: `t` first, then the earlier records,
/// dropping the oldest one when the history would exceed `max_history`.
pub open spec fn recorded<T>(history: Seq<T>, t: T, max_history: nat) -> Seq<T> {
    let grown = seq![t] + history;
    if grown.len() > max_history {
        grown.drop_last()
    } else {
        grown
    }
}

/// History of transactions, newest first, holding at most `max_history`
/// records once it has been filled through `record_transaction`.
#[derive(Debug)]
pub struct TransactionHistory<P> {
    /// The transactions, newest first
    pub transactions: Vec<EnergyTransaction<P>>,
    /// Maximum number of transactions to store
    pub max_history: usize,
}

impl<P> TransactionHistory<P> {
    /// An empty history keeping at most `max_history` transactions.
    pub fn new(max_history: usize) -> (history: Self)
        ensures
            history.transactions@.len() == 0,
            history.max_history == max_history,
    {
        TransactionHistory { transactions: Vec::new(), max_history }
    }

    /// Record a new transaction in front of the earlier ones, dropping the
    /// oldest one when the history grows beyond its maximum.
    pub fn record_transaction(&mut self, transaction: EnergyTransaction<P>)
        ensures
            final(self).max_history == old(self).max_history,
            final(self).transactions@ == recorded(
                old(self).transactions@,
                transaction,
                old(self).max_history as nat,
            ),
    {
        let ghost before = self.transactions@;
        self.transactions.insert(0, transaction);
        assert(self.transactions@ == seq![transaction] + before);
        if self.transactions.len() > self.max_history {
            self.transactions.pop();
        }
    }

    /// Find transactions involving a specific entity, newest first.
    pub fn transactions_with_entity(&self, entity: u64) -> (found: Vec<&EnergyTransaction<P>>)
        ensures
            found@.map_values(|t: &EnergyTransaction<P>| *t) == self.transactions@.filter(
                |t: EnergyTransaction<P>| involves(t, entity),
            ),
    {
        let mut found: Vec<&EnergyTransaction<P>> = Vec::new();
        let n = self.transactions.len();
        let ghost pred = |t: EnergyTransaction<P>| involves(t, entity);
        for i in 0..n
            invariant
                n == self.transactions@.len(),
                pred == (|t: EnergyTransaction<P>| involves(t, entity)),
                found@.map_values(|t: &EnergyTransaction<P>| *t) == self.transactions@.take(
                    i as int,
                ).filter(pred),
        {
            let t = &self.transactions[i];
            let matches = match t.source {
                Some(s) => s == entity,
                None => false,
            } || match t.destination {
                Some(d) => d == entity,
                None => false,
            };
            proof {
                reveal_with_fuel(Seq::filter, 1);
                assert(self.transactions@.take(i + 1).drop_last() == self.transactions@.take(
                    i as int,
                ));
            }
            if matches {
                found.push(t);
            }
            assert(found@.map_values(|t: &EnergyTransaction<P>| *t) == self.transactions@.take(
                i + 1,
            ).filter(pred));
        }
        assert(self.transactions@.take(n as int) == self.transactions@);
        found
    }
}

/// A history that respects its bound keeps respecting it, and the newest
/// record comes first whenever anything is kept.
pub proof fn lemma_recorded_bounded<T>(history: Seq<T>, t: T, max_history: nat)
    requires
        history.len() <= max_history,
    ensures
        recorded(history, t, max_history).len() <= max_history,
        max_history > 0 ==> recorded(history, t, max_history)[0] == t,
        max_history > 0 ==> recorded(history, t, max_history).drop_first() == if history.len()
            < max_history {
            history
        } else {
            history.drop_last()
        },
{
    let grown = seq![t] + history;
    if max_history > 0 {
        assert(grown[0] == t);
        if grown.len() > max_history {
            assert(grown.drop_last().drop_first() =~= history.drop_last());
        } else {
            assert(grown.drop_first() =~= history);
        }
    }
}

/// An entity takes part in a transaction exactly when it is its source or its
/// destination, whatever the transaction's type: changing the type of a
/// transaction never changes who takes part in it.
pub proof fn lemma_involves_endpoints<P>(
    t: EnergyTransaction<P>,
    entity: u64,
    other_type: TransactionType,
)
    ensures
        t.source == Some(entity) ==> involves(t, entity),
        t.destination == Some(entity) ==> involves(t, entity),
        involves(t, entity) ==> t.source == Some(entity) || t.destination == Some(entity),
        involves(
            (EnergyTransaction {
                transaction_type: other_type,
                source: t.source,
                destination: t.destination,
                payload: t.payload,
            }),
            entity,
        ) == involves(t, entity),
{
}

/// A transaction just recorded in a history that keeps anything is the first
/// one found for each entity taking part in it.
pub proof fn lemma_recorded_found_first<P>(
    history: Seq<EnergyTransaction<P>>,
    t: EnergyTransaction<P>,
    max_history: nat,
    entity: u64,
)
    requires
        history.len() <= max_history,
        max_history > 0,
        t.source == Some(entity) || t.destination == Some(entity),
    ensures
        ({
            let found = recorded(history, t, max_history).filter(
                |x: EnergyTransaction<P>| involves(x, entity),
            );
            found.len() > 0 && found[0] == t
        }),
{
    let pred = |x: EnergyTransaction<P>| involves(x, entity);
    let r = recorded(history, t, max_history);
    lemma_recorded_bounded(history, t, max_history);
    assert(r == seq![t] + r.drop_first());
    Seq::filter_distributes_over_add(seq![t], r.drop_first(), pred);
    reveal_with_fuel(Seq::filter, 2);
    assert(seq![t].drop_last() =~= Seq::<EnergyTransaction<P>>::empty());
    assert(seq![t].filter(pred) == seq![t]);
}

} // verus!
