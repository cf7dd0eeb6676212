//! The session: the one connection and the registry of open transactions,
//! behind one exclusive-access discipline (`&mut self`).
//!
//! The session owns every resource: the connection of type `C` and each open
//! transaction of type `T`. Callers address a transaction only by its id; its
//! entry lives exactly as long as it is open. Running statements on these
//! resources is the driver's work: the session decides where a statement is
//! routed and hands out the resource to run it on.
use vstd::prelude::*;
use crate::error::Error;
use crate::registry::Registry;

verus! {

/// Relies on uuid's `Uuid::new_v4` (a random version-4 UUID), read out with
/// `Uuid::to_u128_le` as the 128-bit value that callers use as the id.
/// Nothing is promised of the value.
#[verifier::external_body]
fn new_transaction_id() -> (r: u128) {
    uuid::Uuid::new_v4().to_u128_le()
}

pub struct Session<C, T> {
    connection: Option<C>,
    transactions: Registry<T>,
}

impl<C, T> Session<C, T> {
    /// The registry's own invariant: every session that `new` made and
    /// the methods below kept satisfies it.
    pub closed spec fn wf(&self) -> bool {
        self.transactions.wf()
    }

    /// Whether a connection was established.
    pub closed spec fn connected(&self) -> bool {
        self.connection is Some
    }

    /// The open transactions, by id.
    pub closed spec fn open_transactions(&self) -> Map<u128, T> {
        self.transactions@
    }

    /// Every id this session ever handed out.
    pub closed spec fn issued_ids(&self) -> Set<u128> {
        self.transactions.issued()
    }

    /// Every open transaction's id is among those handed out.
    pub proof fn lemma_open_were_issued(&self)
        requires
            self.wf(),
        ensures
            forall|id: u128| #[trigger]
                self.open_transactions().contains_key(id) ==> self.issued_ids().contains(id),
    {
        self.transactions.lemma_wf_dom();
    }

    /// Whether an operation addressed to transaction `id` fails with
    /// `NotFound`: the session is connected and `id` is not open.
    pub open spec fn refuses(&self, id: u128) -> bool {
        self.connected() && !self.open_transactions().contains_key(id)
    }

    /// A session without a connection and without transactions.
    pub fn new() -> (r: Self)
        ensures
            r.wf(),
            !r.connected(),
            r.open_transactions() == Map::<u128, T>::empty(),
            r.issued_ids() == Set::<u128>::empty(),
    {
        Session { connection: None, transactions: Registry::new() }
    }

    /// Installs the established connection.
    pub fn connect(&mut self, connection: C)
        requires
            old(self).wf(),
        ensures
            final(self).wf(),
            final(self).connected(),
            final(self).open_transactions() == old(self).open_transactions(),
            final(self).issued_ids() == old(self).issued_ids(),
    {
        self.connection = Some(connection);
    }

    pub fn is_connected(&self) -> (r: bool)
        ensures
            r == self.connected(),
    {
        self.connection.is_some()
    }

    /// The connection, for statements outside any transaction.
    pub fn connection(&mut self) -> (r: Result<&mut C, Error>)
        requires
            old(self).wf(),
        ensures
            final(self).wf(),
            final(self).connected() == old(self).connected(),
            final(self).open_transactions() == old(self).open_transactions(),
            final(self).issued_ids() == old(self).issued_ids(),
            !old(self).connected() ==> r matches Err(Error::NotConnected),
            old(self).connected() ==> r is Ok,
    {
        match &mut self.connection {
            Some(c) => Ok(c),
            None => Err(Error::NotConnected),
        }
    }

    /// Stores an opened transaction under `id`, unless `id` was handed out
    /// before.
    pub fn register_transaction(&mut self, id: u128, transaction: T) -> (r: Result<u128, Error>)
        requires
            old(self).wf(),
        ensures
            final(self).wf(),
            final(self).connected() == old(self).connected(),
            !old(self).connected() ==> (r matches Err(Error::NotConnected)
                && final(self).open_transactions() == old(self).open_transactions()
                && final(self).issued_ids() == old(self).issued_ids()),
            old(self).connected() && old(self).issued_ids().contains(id) ==> (r matches Err(
                Error::DuplicateId,
            ) && final(self).open_transactions() == old(self).open_transactions()
                && final(self).issued_ids() == old(self).issued_ids()),
            old(self).connected() && !old(self).issued_ids().contains(id) ==> (r == Ok::<
                u128,
                Error,
            >(id) && !old(self).open_transactions().contains_key(id)
                && final(self).open_transactions() == old(self).open_transactions().insert(
                id,
                transaction,
            ) && final(self).issued_ids() == old(self).issued_ids().insert(id)),
    {
        proof {
            self.lemma_open_were_issued();
        }
        if self.connection.is_none() {
            return Err(Error::NotConnected);
        }
        match self.transactions.insert(id, transaction) {
            Ok(()) => Ok(id),
            Err(e) => Err(e),
        }
    }

    /// Stores an opened transaction under a freshly drawn id and returns the
    /// id. The id was never handed out before by this session.
    pub fn open_transaction(&mut self, transaction: T) -> (r: Result<u128, Error>)
        requires
            old(self).wf(),
        ensures
            final(self).wf(),
            final(self).connected() == old(self).connected(),
            !old(self).connected() ==> r matches Err(Error::NotConnected),
            old(self).connected() ==> (r is Ok || r matches Err(Error::DuplicateId)),
            r is Err ==> final(self).open_transactions() == old(self).open_transactions()
                && final(self).issued_ids() == old(self).issued_ids(),
            r matches Ok(id) ==> !old(self).issued_ids().contains(id)
                && !old(self).open_transactions().contains_key(id)
                && final(self).open_transactions() == old(self).open_transactions().insert(
                id,
                transaction,
            ) && final(self).issued_ids() == old(self).issued_ids().insert(id),
    {
        proof {
            self.lemma_open_were_issued();
        }
        let id = new_transaction_id();
        self.register_transaction(id, transaction)
    }

    /// The open transaction `id`, to run a statement on.
    pub fn transaction(&mut self, id: u128) -> (r: Result<&mut T, Error>)
        requires
            old(self).wf(),
        ensures
            final(self).wf(),
            final(self).connected() == old(self).connected(),
            final(self).issued_ids() == old(self).issued_ids(),
            !old(self).connected() ==> (r matches Err(Error::NotConnected)
                && final(self).open_transactions() == old(self).open_transactions()),
            old(self).refuses(id) ==> (r matches Err(Error::NotFound(_))
                && final(self).open_transactions() == old(self).open_transactions()),
            old(self).connected() && old(self).open_transactions().contains_key(id) ==> (r matches Ok(
                t,
            ) && *t == old(self).open_transactions()[id] && final(self).open_transactions()
                == old(self).open_transactions().insert(id, *final(t))),
    {
        if self.connection.is_none() {
            return Err(Error::NotConnected);
        }
        match self.transactions.get_mut(id) {
            Some(t) => Ok(t),
            None => Err(Error::NotFound("Transaction not found".to_owned())),
        }
    }

    /// Takes transaction `id` out of the session, to be committed or rolled
    /// back. Afterwards every operation on `id` fails with `NotFound`.
    pub fn close_transaction(&mut self, id: u128) -> (r: Result<T, Error>)
        requires
            old(self).wf(),
        ensures
            final(self).wf(),
            final(self).connected() == old(self).connected(),
            final(self).issued_ids() == old(self).issued_ids(),
            !old(self).connected() ==> (r matches Err(Error::NotConnected)
                && final(self).open_transactions() == old(self).open_transactions()),
            old(self).refuses(id) ==> (r matches Err(Error::NotFound(_))
                && final(self).open_transactions() == old(self).open_transactions()),
            old(self).connected() && old(self).open_transactions().contains_key(id) ==> (r
                == Ok::<T, Error>(old(self).open_transactions()[id])
                && final(self).open_transactions() == old(self).open_transactions().remove(id)),
            old(self).connected() ==> final(self).refuses(id),
    {
        if self.connection.is_none() {
            return Err(Error::NotConnected);
        }
        match self.transactions.remove(id) {
            Some(t) => Ok(t),
            None => Err(Error::NotFound("Transaction not found".to_owned())),
        }
    }

    /// Takes some open transaction out of the session, to finalise every
    /// open transaction one by one; `Ok(None)` once none is left.
    pub fn close_any_transaction(&mut self) -> (r: Result<Option<(u128, T)>, Error>)
        requires
            old(self).wf(),
        ensures
            final(self).wf(),
            final(self).connected() == old(self).connected(),
            final(self).issued_ids() == old(self).issued_ids(),
            !old(self).connected() ==> (r matches Err(Error::NotConnected)
                && final(self).open_transactions() == old(self).open_transactions()),
            old(self).connected() && old(self).open_transactions() == Map::<u128, T>::empty() ==> (
            r matches Ok(None) && final(self).open_transactions() == old(
                self,
            ).open_transactions()),
            old(self).connected() && old(self).open_transactions() != Map::<u128, T>::empty() ==> (
            r matches Ok(Some((id, t))) && old(self).open_transactions().contains_key(id) && t
                == old(self).open_transactions()[id] && final(self).open_transactions() == old(
                self,
            ).open_transactions().remove(id)),
    {
        if self.connection.is_none() {
            return Err(Error::NotConnected);
        }
        Ok(self.transactions.take_any())
    }

    /// Number of open transactions.
    pub fn open_count(&self) -> (r: usize)
        requires
            self.wf(),
        ensures
            r == self.open_transactions().len(),
            r == 0 <==> self.open_transactions() == Map::<u128, T>::empty(),
    {
        self.transactions.len()
    }
}

/// Two transactions opened one after the other on a session get different
/// ids: the first id is among those handed out when the second is drawn, and
/// a drawn id is accepted only if it was never handed out.
pub proof fn lemma_opened_ids_distinct<C, T>(
    s0: Session<C, T>,
    s1: Session<C, T>,
    first: u128,
    second: u128,
)
    requires
        s1.issued_ids() == s0.issued_ids().insert(first),
        !s1.issued_ids().contains(second),
    ensures
        first != second,
{
}

/// Once every open transaction was taken out, an operation addressed to any
/// id, one that was open before included, fails with `NotFound`.
pub proof fn lemma_drained_refuses_all<C, T>(s: Session<C, T>, id: u128)
    requires
        s.connected(),
        s.open_transactions() == Map::<u128, T>::empty(),
    ensures
        s.refuses(id),
{
}

/// A closed transaction never comes back: its id stays refused by every
/// later transaction-scoped operation, and registering it again fails, for
/// the id stays among those handed out.
pub proof fn lemma_closed_stays_closed<C, T>(
    closed: Session<C, T>,
    later: Session<C, T>,
    id: u128,
    other: u128,
    t: T,
)
    requires
        closed.refuses(id),
        closed.issued_ids().contains(id),
        later.connected() == closed.connected(),
        later.issued_ids() == closed.issued_ids().insert(other),
        later.open_transactions() == closed.open_transactions().insert(other, t),
        !closed.issued_ids().contains(other),
    ensures
        later.refuses(id),
        later.issued_ids().contains(id),
{
}

} // verus!
