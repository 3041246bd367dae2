//! The retained-byte budget of a World. Payloads and native scratch buffers
//! draw on the same budget.
use vstd::prelude::*;
use crate::ordered::OrdMap;
use crate::sums;
use crate::types::Error;

verus! {

/// Bytes held once, by a number of holders. Some of them have it on loan: they
/// are outside the World and give it back.
#[derive(Clone, Copy, Debug, PartialEq, Eq, Structural)]
pub struct Share {
    pub bytes: usize,
    pub holders: u64,
    pub lent: u64,
}

/// The bytes of all shares.
pub open spec fn total_bytes(shares: Map<u64, Share>) -> nat {
    sums::sum_over(shares, |share: Share| share.bytes as nat)
}

proof fn lemma_total_remove(shares: Map<u64, Share>, k: u64)
    requires
        shares.dom().finite(),
        shares.dom().contains(k),
    ensures
        total_bytes(shares) == shares[k].bytes + total_bytes(shares.remove(k)),
{
    sums::lemma_sum_remove(shares, |share: Share| share.bytes as nat, k);
}

proof fn lemma_total_insert(shares: Map<u64, Share>, k: u64, share: Share)
    requires
        shares.dom().finite(),
        !shares.dom().contains(k),
    ensures
        total_bytes(shares.insert(k, share)) == total_bytes(shares) + share.bytes,
{
    sums::lemma_sum_insert(shares, |share: Share| share.bytes as nat, k, share);
}

proof fn lemma_total_update(shares: Map<u64, Share>, k: u64, share: Share)
    requires
        shares.dom().finite(),
        shares.dom().contains(k),
    ensures
        total_bytes(shares.insert(k, share)) == total_bytes(shares) - shares[k].bytes + share.bytes,
{
    sums::lemma_sum_insert(shares, |share: Share| share.bytes as nat, k, share);
}

/// The bytes of all scratch buffers.
pub open spec fn scratch_bytes(scratch: Map<u64, usize>) -> nat {
    sums::sum_over(scratch, |bytes: usize| bytes as nat)
}

/// The contents of a budget: the shares of payloads, and the reservations of
/// scratch bytes. `owner` is the World whose budget it is.
#[verifier::ext_equal]
pub struct BudgetView {
    pub owner: u64,
    pub limit: usize,
    pub next: u64,
    pub shares: Map<u64, Share>,
    pub scratch: Map<u64, usize>,
}

impl BudgetView {
    pub open spec fn used(self) -> nat {
        total_bytes(self.shares) + scratch_bytes(self.scratch)
    }

    /// Whether a reservation is granted.
    pub open spec fn admits(self, bytes: usize) -> bool {
        self.used() + bytes <= self.limit && self.next < u64::MAX
    }

    /// Why a reservation is refused.
    pub open spec fn refusal(self, bytes: usize) -> Error {
        if self.used() + bytes > self.limit {
            Error::BudgetExceeded
        } else {
            Error::LimitExceeded
        }
    }

    /// After a payload was granted its bytes, which one holder has.
    pub open spec fn reserved(self, bytes: usize) -> BudgetView {
        BudgetView {
            next: (self.next + 1) as u64,
            shares: self.shares.insert(self.next, Share { bytes, holders: 1, lent: 0 }),
            ..self
        }
    }

    /// After scratch bytes were granted.
    pub open spec fn permitted(self, bytes: usize) -> BudgetView {
        BudgetView {
            next: (self.next + 1) as u64,
            scratch: self.scratch.insert(self.next, bytes),
            ..self
        }
    }

    /// The holders of a share that do not have it on loan.
    pub open spec fn inside(self, id: u64) -> int {
        if self.shares.dom().contains(id) {
            self.shares[id].holders - self.shares[id].lent
        } else {
            0
        }
    }

    /// Whether a share of this size is on loan.
    pub open spec fn lends(self, id: u64, bytes: usize) -> bool {
        self.shares.dom().contains(id) && self.shares[id].lent > 0 && self.shares[id].bytes == bytes
    }

    /// Whether a share can have one more holder.
    pub open spec fn roomy(self, id: u64) -> bool {
        self.shares.dom().contains(id) && self.shares[id].holders < u64::MAX
    }

    pub open spec fn with_share(self, id: u64, holders: int, lent: int) -> BudgetView {
        BudgetView {
            shares: self.shares.insert(
                id,
                Share {
                    bytes: self.shares[id].bytes,
                    holders: holders as u64,
                    lent: lent as u64,
                },
            ),
            ..self
        }
    }

    /// After one more holder of a share.
    pub open spec fn shared(self, id: u64) -> BudgetView {
        if self.roomy(id) {
            self.with_share(id, self.shares[id].holders + 1, self.shares[id].lent as int)
        } else {
            self
        }
    }

    /// After one more holder of a share that has it on loan.
    pub open spec fn shared_out(self, id: u64) -> BudgetView {
        if self.roomy(id) {
            self.with_share(id, self.shares[id].holders + 1, self.shares[id].lent + 1)
        } else {
            self
        }
    }

    /// After a holder let go: the last one frees the bytes.
    pub open spec fn released(self, id: u64) -> BudgetView {
        if self.inside(id) <= 0 {
            self
        } else if self.shares[id].holders <= 1 {
            BudgetView { shares: self.shares.remove(id), ..self }
        } else {
            self.with_share(id, self.shares[id].holders - 1, self.shares[id].lent as int)
        }
    }

    /// After a holder took a share out on loan.
    pub open spec fn lent(self, id: u64) -> BudgetView {
        if self.inside(id) <= 0 {
            self
        } else {
            self.with_share(id, self.shares[id].holders as int, self.shares[id].lent + 1)
        }
    }

    /// After a loan was given back: the last holder frees the bytes.
    pub open spec fn returned(self, id: u64) -> BudgetView {
        if !self.shares.dom().contains(id) || self.shares[id].lent == 0 {
            self
        } else if self.shares[id].holders <= 1 {
            BudgetView { shares: self.shares.remove(id), ..self }
        } else {
            self.with_share(id, self.shares[id].holders - 1, self.shares[id].lent - 1)
        }
    }
}

/// A reservation of scratch bytes, to be given back with `release`.
#[derive(Debug)]
pub struct NativeBufferPermit {
    owner: u64,
    id: u64,
    bytes: usize,
}

/// The budget: what is held, by whom how often, and how much that is.
pub struct NativeBufferBudget {
    owner: u64,
    limit: usize,
    used: usize,
    next: u64,
    shares: OrdMap<u64, Share>,
    scratch: OrdMap<u64, usize>,
}

impl View for NativeBufferBudget {
    type V = BudgetView;

    closed spec fn view(&self) -> BudgetView {
        BudgetView {
            owner: self.owner,
            limit: self.limit,
            next: self.next,
            shares: self.shares@,
            scratch: self.scratch@,
        }
    }
}

impl NativeBufferBudget {
    pub closed spec fn wf(self) -> bool {
        &&& self.shares.wf()
        &&& self.scratch.wf()
        &&& self.used == self@.used()
        &&& self.used <= self.limit
        &&& self@.tidy()
    }

    /// Retained bytes never exceed the budget.
    pub proof fn lemma_within_limit(self)
        requires
            self.wf(),
        ensures
            self@.used() <= self@.limit,
            self@.shares.dom().finite(),
            self@.tidy(),
    {
        self.shares.lemma_listing();
    }

    pub(crate) fn new(owner: u64, limit: usize) -> (r: Self)
        ensures
            r.wf(),
            r@ == (BudgetView {
                owner,
                limit,
                next: 1,
                shares: Map::empty(),
                scratch: Map::empty(),
            }),
    {
        let r = NativeBufferBudget {
            owner,
            limit,
            used: 0,
            next: 1,
            shares: OrdMap::new(),
            scratch: OrdMap::new(),
        };
        proof {
            sums::lemma_sum_empty::<Share>(|share: Share| share.bytes as nat);
            sums::lemma_sum_empty::<usize>(|bytes: usize| bytes as nat);
        }
        r
    }

    pub fn used(&self) -> (r: usize)
        requires
            self.wf(),
        ensures
            r == self@.used(),
    {
        self.used
    }

    fn refusal(&self, bytes: usize) -> (r: Option<Error>)
        requires
            self.wf(),
        ensures
            r is None <==> self@.admits(bytes),
            r matches Some(e) ==> e == self@.refusal(bytes),
    {
        if bytes > self.limit - self.used {
            Some(Error::BudgetExceeded)
        } else if self.next == u64::MAX {
            Some(Error::LimitExceeded)
        } else {
            None
        }
    }

    /// Reserves scratch bytes within the limit.
    pub fn reserve(&mut self, bytes: usize) -> (r: Result<NativeBufferPermit, Error>)
        requires
            old(self).wf(),
        ensures
            final(self).wf(),
            old(self)@.admits(bytes) ==> {
                &&& final(self)@ == old(self)@.permitted(bytes)
                &&& r matches Ok(permit)
                &&& permit.issuer() == old(self)@.owner
                &&& permit.share() == old(self)@.next
                &&& permit.size() == bytes
            },
            !old(self)@.admits(bytes) ==> final(self)@ == old(self)@ && r == Err::<
                NativeBufferPermit,
                Error,
            >(old(self)@.refusal(bytes)),
    {
        match self.refusal(bytes) {
            Some(e) => return Err(e),
            None => {},
        }
        let id = self.next;
        proof {
            self.scratch.lemma_listing();
            sums::lemma_sum_insert(self.scratch@, |bytes: usize| bytes as nat, id, bytes);
        }
        let _none = self.scratch.insert(id, bytes);
        self.used = self.used + bytes;
        self.next = id + 1;
        Ok(NativeBufferPermit { owner: self.owner, id, bytes })
    }

    /// Reserves the bytes of a payload for one holder and names the share.
    pub(crate) fn hold(&mut self, bytes: usize) -> (r: Result<u64, Error>)
        requires
            old(self).wf(),
        ensures
            final(self).wf(),
            old(self)@.admits(bytes) ==> final(self)@ == old(self)@.reserved(bytes) && r == Ok::<
                u64,
                Error,
            >(old(self)@.next),
            !old(self)@.admits(bytes) ==> final(self)@ == old(self)@ && r == Err::<u64, Error>(
                old(self)@.refusal(bytes),
            ),
    {
        match self.refusal(bytes) {
            Some(e) => return Err(e),
            None => {},
        }
        let id = self.next;
        proof {
            self.shares.lemma_listing();
            lemma_total_insert(self.shares@, id, Share { bytes, holders: 1, lent: 0 });
        }
        let _none = self.shares.insert(id, Share { bytes, holders: 1, lent: 0 });
        self.used = self.used + bytes;
        self.next = id + 1;
        Ok(id)
    }

    /// Another count of the holders of a share.
    fn recount(&mut self, id: u64, share: Share)
        requires
            old(self).wf(),
            old(self)@.shares.dom().contains(id),
            share.bytes == old(self)@.shares[id].bytes,
            1 <= share.holders,
            share.lent <= share.holders,
        ensures
            final(self).wf(),
            final(self)@ == (BudgetView {
                shares: old(self)@.shares.insert(id, share),
                ..old(self)@
            }),
    {
        proof {
            self.shares.lemma_listing();
            lemma_total_update(self.shares@, id, share);
        }
        let _prior = self.shares.insert(id, share);
    }

    fn drop_share(&mut self, id: u64)
        requires
            old(self).wf(),
            old(self)@.shares.dom().contains(id),
        ensures
            final(self).wf(),
            final(self)@ == (BudgetView { shares: old(self)@.shares.remove(id), ..old(self)@ }),
    {
        proof {
            self.shares.lemma_listing();
            lemma_total_remove(self.shares@, id);
        }
        match self.shares.remove(&id) {
            Some(share) => {
                self.used = self.used - share.bytes;
            },
            None => {},
        }
    }

    fn share_of(&self, id: u64) -> (r: Option<Share>)
        requires
            self.wf(),
        ensures
            r is Some <==> self@.shares.dom().contains(id),
            r matches Some(share) ==> share == self@.shares[id] && 1 <= share.holders && share.lent
                <= share.holders,
    {
        match self.shares.get(&id) {
            Some(share) => Some(*share),
            None => None,
        }
    }

    /// Whether a share of this size is on loan.
    pub(crate) fn lends(&self, id: u64, bytes: usize) -> (r: bool)
        requires
            self.wf(),
        ensures
            r == self@.lends(id, bytes),
    {
        match self.share_of(id) {
            Some(share) => share.lent > 0 && share.bytes == bytes,
            None => false,
        }
    }

    /// Whether a share can have one more holder.
    pub(crate) fn roomy(&self, id: u64) -> (r: bool)
        requires
            self.wf(),
        ensures
            r == self@.roomy(id),
    {
        match self.share_of(id) {
            Some(share) => share.holders < u64::MAX,
            None => false,
        }
    }

    /// One more holder of a share.
    pub(crate) fn share(&mut self, id: u64)
        requires
            old(self).wf(),
        ensures
            final(self).wf(),
            final(self)@ == old(self)@.shared(id),
    {
        match self.share_of(id) {
            Some(share) => {
                if share.holders < u64::MAX {
                    self.recount(id, Share { holders: share.holders + 1, ..share });
                }
            },
            None => {},
        }
    }

    /// One more holder of a share, which has it on loan.
    pub(crate) fn share_out(&mut self, id: u64)
        requires
            old(self).wf(),
        ensures
            final(self).wf(),
            final(self)@ == old(self)@.shared_out(id),
    {
        match self.share_of(id) {
            Some(share) => {
                if share.holders < u64::MAX {
                    self.recount(
                        id,
                        Share { holders: share.holders + 1, lent: share.lent + 1, ..share },
                    );
                }
            },
            None => {},
        }
    }

    /// A holder lets go of a share.
    pub(crate) fn let_go(&mut self, id: u64)
        requires
            old(self).wf(),
        ensures
            final(self).wf(),
            final(self)@ == old(self)@.released(id),
    {
        match self.share_of(id) {
            Some(share) => {
                if share.lent < share.holders {
                    if share.holders <= 1 {
                        self.drop_share(id);
                    } else {
                        self.recount(id, Share { holders: share.holders - 1, ..share });
                    }
                }
            },
            None => {},
        }
    }

    /// A holder takes a share out on loan.
    pub(crate) fn lend(&mut self, id: u64)
        requires
            old(self).wf(),
        ensures
            final(self).wf(),
            final(self)@ == old(self)@.lent(id),
    {
        match self.share_of(id) {
            Some(share) => {
                if share.lent < share.holders {
                    self.recount(id, Share { lent: share.lent + 1, ..share });
                }
            },
            None => {},
        }
    }

    /// A loan comes back.
    pub(crate) fn take_back(&mut self, id: u64)
        requires
            old(self).wf(),
        ensures
            final(self).wf(),
            final(self)@ == old(self)@.returned(id),
    {
        match self.share_of(id) {
            Some(share) => {
                if share.lent > 0 {
                    if share.holders <= 1 {
                        self.drop_share(id);
                    } else {
                        self.recount(
                            id,
                            Share { holders: share.holders - 1, lent: share.lent - 1, ..share },
                        );
                    }
                }
            },
            None => {},
        }
    }

    /// Gives a reservation back. One that another budget gave changes nothing.
    pub fn release(&mut self, permit: NativeBufferPermit)
        requires
            old(self).wf(),
        ensures
            final(self).wf(),
            final(self)@ == (if permit.issuer() == old(self)@.owner {
                BudgetView {
                    scratch: old(self)@.scratch.remove(permit.share()),
                    ..old(self)@
                }
            } else {
                old(self)@
            }),
    {
        if permit.owner != self.owner {
            return;
        }
        let ghost before = self.scratch@;
        proof {
            self.scratch.lemma_listing();
        }
        match self.scratch.remove(&permit.id) {
            Some(bytes) => {
                proof {
                    sums::lemma_sum_remove(before, |bytes: usize| bytes as nat, permit.id);
                }
                self.used = self.used - bytes;
            },
            None => {
                assert(before.remove(permit.id) =~= before);
            },
        }
    }
}

impl BudgetView {
    /// Whether a budget has the limit and the shares of another: they differ in
    /// scratch bytes alone.
    pub open spec fn serves(self, other: BudgetView) -> bool {
        self.owner == other.owner && self.limit == other.limit && self.shares == other.shares
    }

    /// Whether every share is held, no more of it is on loan than is held, and
    /// no number that is in use is given out again.
    pub open spec fn tidy(self) -> bool {
        &&& forall|k: u64| #[trigger]
            self.shares.dom().contains(k) ==> k < self.next && 1 <= self.shares[k].holders
                && self.shares[k].lent <= self.shares[k].holders
        &&& forall|k: u64| #[trigger] self.scratch.dom().contains(k) ==> k < self.next
    }
}

/// Whether a permit can grow under a budget.
pub open spec fn grows(budget: BudgetView, permit: NativeBufferPermit, additional: usize) -> bool {
    &&& permit.issuer() == budget.owner
    &&& budget.scratch.dom().contains(permit.share())
    &&& permit.size() + additional <= usize::MAX
    &&& budget.scratch[permit.share()] + additional <= usize::MAX
    &&& budget.used() + additional <= budget.limit
}

impl NativeBufferPermit {
    /// The World whose budget gave it.
    pub closed spec fn issuer(self) -> u64 {
        self.owner
    }

    pub closed spec fn share(self) -> u64 {
        self.id
    }

    pub closed spec fn size(self) -> usize {
        self.bytes
    }

    pub fn bytes(&self) -> (r: usize)
        ensures
            r == self.size(),
    {
        self.bytes
    }

    /// Grows the reservation, or leaves permit and budget as they were.
    pub fn try_grow(&mut self, budget: &mut NativeBufferBudget, additional: usize) -> (r: Result<
        (),
        Error,
    >)
        requires
            old(budget).wf(),
        ensures
            final(budget).wf(),
            final(self).issuer() == old(self).issuer(),
            final(self).share() == old(self).share(),
            additional == 0 ==> r is Ok && final(self).size() == old(self).size() && final(budget)@
                == old(budget)@,
            additional > 0 && grows(old(budget)@, *old(self), additional) ==> {
                &&& r is Ok
                &&& final(self).size() == old(self).size() + additional
                &&& final(budget)@ == (BudgetView {
                    scratch: old(budget)@.scratch.insert(
                        old(self).share(),
                        (old(budget)@.scratch[old(self).share()] + additional) as usize,
                    ),
                    ..old(budget)@
                })
            },
            additional > 0 && !grows(old(budget)@, *old(self), additional) ==> {
                &&& r == Err::<(), Error>(Error::BudgetExceeded)
                &&& final(self).size() == old(self).size()
                &&& final(budget)@ == old(budget)@
            },
    {
        if additional == 0 {
            return Ok(());
        }
        if self.owner != budget.owner {
            return Err(Error::BudgetExceeded);
        }
        let total = match self.bytes.checked_add(additional) {
            Some(total) => total,
            None => return Err(Error::BudgetExceeded),
        };
        if additional > budget.limit - budget.used {
            return Err(Error::BudgetExceeded);
        }
        let held: usize = match budget.scratch.get(&self.id) {
            Some(held) => *held,
            None => return Err(Error::BudgetExceeded),
        };
        let bytes = match held.checked_add(additional) {
            Some(bytes) => bytes,
            None => return Err(Error::BudgetExceeded),
        };
        proof {
            budget.scratch.lemma_listing();
            sums::lemma_sum_insert(
                budget.scratch@,
                |bytes: usize| bytes as nat,
                self.id,
                bytes,
            );
        }
        let _prior = budget.scratch.insert(self.id, bytes);
        budget.used = budget.used + additional;
        self.bytes = total;
        Ok(())
    }
}

/// Giving back a fresh reservation restores what was in use.
pub proof fn reserve_then_release(budget: BudgetView, bytes: usize)
    requires
        budget.shares.dom().finite(),
        budget.admits(bytes),
        !budget.shares.dom().contains(budget.next),
    ensures
        budget.reserved(bytes).used() == budget.used() + bytes,
        budget.reserved(bytes).released(budget.next).used() == budget.used(),
        budget.reserved(bytes).released(budget.next).shares == budget.shares,
        budget.reserved(bytes).lent(budget.next).returned(budget.next).shares == budget.shares,
        budget.reserved(bytes).lent(budget.next).used() == budget.used() + bytes,
{
    lemma_total_insert(budget.shares, budget.next, Share { bytes, holders: 1, lent: 0 });
    lemma_total_insert(budget.shares, budget.next, Share { bytes, holders: 1, lent: 1 });
    let out = budget.reserved(bytes).lent(budget.next);
    assert(out.shares =~= budget.shares.insert(
        budget.next,
        Share { bytes, holders: 1, lent: 1 },
    ));
    assert(budget.reserved(bytes).released(budget.next).shares =~= budget.shares);
    assert(out.returned(budget.next).shares =~= budget.shares);
}

/// However often a share is handed on, its bytes count once, and they stay
/// until the last holder lets go.
pub proof fn shared_bytes_count_once(budget: BudgetView, id: u64)
    requires
        budget.shares.dom().finite(),
        budget.tidy(),
        budget.roomy(id),
    ensures
        budget.shared(id).used() == budget.used(),
        budget.shared(id).released(id).shares == budget.shares,
        budget.shared_out(id).used() == budget.used(),
        budget.shared_out(id).returned(id).shares == budget.shares,
{
    lemma_total_update(budget.shares, id, budget.shared(id).shares[id]);
    lemma_total_update(budget.shares, id, budget.shared_out(id).shares[id]);
    assert(budget.shared(id).released(id).shares =~= budget.shares);
    assert(budget.shared_out(id).returned(id).shares =~= budget.shares);
}

/// Buffers and payloads count towards one limit: a permit takes its bytes from
/// what payloads may still retain, and giving it back restores them.
pub proof fn buffers_count_with_the_payloads(budget: BudgetView, bytes: usize)
    requires
        budget.shares.dom().finite(),
        budget.scratch.dom().finite(),
        budget.tidy(),
        budget.admits(bytes),
    ensures
        ({
            let held = budget.permitted(bytes);
            let back = BudgetView { scratch: held.scratch.remove(budget.next), ..held };
            &&& held.used() == budget.used() + bytes
            &&& held.used() <= budget.limit
            &&& held.shares == budget.shares
            &&& forall|more: usize| #[trigger]
                held.admits(more) ==> budget.used() + bytes + more <= budget.limit
            &&& back.used() == budget.used()
            &&& back.scratch == budget.scratch
        }),
{
    let f = |bytes: usize| bytes as nat;
    sums::lemma_sum_insert(budget.scratch, f, budget.next, bytes);
    assert(!budget.scratch.dom().contains(budget.next));
    let held = budget.permitted(bytes);
    assert(held.scratch.remove(budget.next) =~= budget.scratch);
}

/// A budget takes bytes in while they fit and its numbers last, and says which of
/// the two was short.
pub proof fn a_budget_takes_what_fits(budget: BudgetView, bytes: usize)
    ensures
        budget.admits(bytes) <==> budget.used() + bytes <= budget.limit && budget.next < u64::MAX,
        budget.used() + bytes > budget.limit ==> budget.refusal(bytes) == Error::BudgetExceeded,
        budget.used() + bytes <= budget.limit && budget.next == u64::MAX ==> budget.refusal(bytes)
            == Error::LimitExceeded,
{
}

} // verus!
