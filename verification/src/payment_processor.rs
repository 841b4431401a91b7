//! The lifecycle of a payment: `Pending`, then `Processing`, then `Completed`,
//! back to `Pending` for another attempt, or `Failed`; a `Pending` payment may
//! also be `Cancelled`.
//!
//! The processor does not carry a payment out. It decides what happens before
//! and after an attempt, and an [`ExecutionBackend`] makes the attempt.

use crate::types::{PaymentRequest, PaymentStatus, PaymentView};
use std::collections::hash_map::DefaultHasher;
use std::hash::{Hash, Hasher};
use vstd::prelude::*;
use vstd::std_specs::hash::DefaultHasherAdditionalSpecFns;

verus! {

/// How many times a failed payment is tried again before it is given up.
pub const MAX_RETRIES: u32 = 3;

/// Why the processor refused an operation, or how an attempt ended for good.
#[derive(Clone, Copy, Debug, PartialEq, Eq, Structural)]
pub enum PaymentError {
    /// A payment with this id is in flight or in the archive.
    DuplicateId,
    /// No payment with this id is in flight.
    NotFound,
    /// The payment is in a status that does not allow the operation.
    InvalidState,
    /// The attempt failed and no retry is left: the payment is now `Failed`.
    RetryExhausted,
}

impl PaymentError {
    /// The wording of each error.
    pub open spec fn text(self) -> Seq<char> {
        match self {
            PaymentError::DuplicateId => "Payment ID already exists"@,
            PaymentError::NotFound => "Payment not found"@,
            PaymentError::InvalidState => "Cannot cancel payment that is already processing"@,
            PaymentError::RetryExhausted => "Payment failed after maximum retries"@,
        }
    }

    /// The error in words.
    pub fn message(&self) -> (s: String)
        ensures
            s@ == self.text(),
    {
        match self {
            PaymentError::DuplicateId => "Payment ID already exists".to_owned(),
            PaymentError::NotFound => "Payment not found".to_owned(),
            PaymentError::InvalidState => "Cannot cancel payment that is already processing".to_owned(),
            PaymentError::RetryExhausted => "Payment failed after maximum retries".to_owned(),
        }
    }
}

/// A payment in flight, with the number of retries it has used.
pub struct PendingView {
    pub payment: PaymentView,
    pub retries: nat,
}

/// What a [`PaymentProcessor`] holds: the payments in flight, in the order in
/// which they were submitted, and the archive, in the order in which they ended.
pub struct ProcessorView {
    pub pending: Seq<PendingView>,
    pub archive: Seq<PaymentView>,
}

impl ProcessorView {
    /// The ids of the payments in flight.
    pub open spec fn pending_ids(self) -> Seq<Seq<char>> {
        Seq::new(self.pending.len(), |i: int| self.pending[i].payment.id)
    }

    /// The ids of the archived payments.
    pub open spec fn archive_ids(self) -> Seq<Seq<char>> {
        Seq::new(self.archive.len(), |i: int| self.archive[i].id)
    }

    pub open spec fn is_pending(self, id: Seq<char>) -> bool {
        self.pending_ids().contains(id)
    }

    pub open spec fn is_archived(self, id: Seq<char>) -> bool {
        self.archive_ids().contains(id)
    }

    /// Whether a payment with this id was ever accepted.
    pub open spec fn knows(self, id: Seq<char>) -> bool {
        self.is_pending(id) || self.is_archived(id)
    }

    /// Where the payment with this id stands among those in flight.
    pub open spec fn slot(self, id: Seq<char>) -> int {
        self.pending_ids().index_of(id)
    }

    /// The payment in flight with this id.
    pub open spec fn entry(self, id: Seq<char>) -> PendingView {
        self.pending[self.slot(id)]
    }

    /// The archived payment with this id.
    pub open spec fn archived(self, id: Seq<char>) -> PaymentView {
        self.archive[self.archive_ids().index_of(id)]
    }

    /// No id occurs twice, in flight and archive taken together; a payment in
    /// flight is `Pending` or `Processing` and has used at most
    /// [`MAX_RETRIES`] retries; an archived payment has a terminal status.
    pub open spec fn wf(self) -> bool {
        &&& forall|i: int, j: int|
            0 <= i < j < self.pending.len() ==> self.pending[i].payment.id
                != self.pending[j].payment.id
        &&& forall|i: int, j: int|
            0 <= i < j < self.archive.len() ==> self.archive[i].id != self.archive[j].id
        &&& forall|i: int, j: int|
            0 <= i < self.pending.len() && 0 <= j < self.archive.len()
                ==> self.pending[i].payment.id != self.archive[j].id
        &&& forall|i: int|
            0 <= i < self.pending.len() ==> {
                &&& self.pending[i].retries <= MAX_RETRIES
                &&& (self.pending[i].payment.status == PaymentStatus::Pending
                    || self.pending[i].payment.status == PaymentStatus::Processing)
            }
        &&& forall|i: int|
            0 <= i < self.archive.len() ==> (#[trigger] self.archive[i]).status.is_terminal()
    }

    /// The status of the payment with this id, in flight or archived.
    pub open spec fn status_of(self, id: Seq<char>) -> Option<PaymentStatus> {
        if self.is_pending(id) {
            Some(self.entry(id).payment.status)
        } else if self.is_archived(id) {
            Some(self.archived(id).status)
        } else {
            None
        }
    }

    /// The retries that the payment in flight with this id has used.
    pub open spec fn retries_of(self, id: Seq<char>) -> Option<nat> {
        if self.is_pending(id) {
            Some(self.entry(id).retries)
        } else {
            None
        }
    }

    /// The state after `payment` was accepted at time `now`: it is the last in
    /// flight, `Pending`, stamped with `now`, with no retry used.
    pub open spec fn submitted(self, payment: PaymentView, now: u64) -> ProcessorView {
        ProcessorView {
            pending: self.pending.push(
                PendingView {
                    payment: PaymentView {
                        timestamp: now,
                        status: PaymentStatus::Pending,
                        ..payment
                    },
                    retries: 0,
                },
            ),
            archive: self.archive,
        }
    }

    /// The state in which the payment in flight at `slot` has this status and
    /// this number of retries.
    pub open spec fn kept(self, slot: int, status: PaymentStatus, retries: nat) -> ProcessorView {
        ProcessorView {
            pending: self.pending.update(
                slot,
                PendingView { payment: self.pending[slot].payment.with_status(status), retries },
            ),
            archive: self.archive,
        }
    }

    /// The state in which the payment in flight at `slot` has left for the
    /// archive, as its last entry, with this status.
    pub open spec fn retired(self, slot: int, status: PaymentStatus) -> ProcessorView {
        ProcessorView {
            pending: self.pending.remove(slot),
            archive: self.archive.push(self.pending[slot].payment.with_status(status)),
        }
    }

    /// The state after an attempt on the payment has begun: the payment is
    /// `Processing`. Nothing changes where no payment with this id is in flight.
    pub open spec fn begun(self, id: Seq<char>) -> ProcessorView {
        if self.is_pending(id) {
            self.kept(self.slot(id), PaymentStatus::Processing, self.entry(id).retries)
        } else {
            self
        }
    }

    /// Whether an attempt on the payment is under way.
    pub open spec fn is_processing(self, id: Seq<char>) -> bool {
        self.is_pending(id) && self.entry(id).payment.status == PaymentStatus::Processing
    }

    /// The state after the attempt under way on the payment has ended.
    ///
    /// On success the payment is archived as `Completed`. On failure it goes
    /// back to `Pending` with one more retry used, if fewer than
    /// [`MAX_RETRIES`] were used, and is archived as `Failed` otherwise.
    /// Nothing changes where no attempt on the payment is under way.
    pub open spec fn settled(self, id: Seq<char>, success: bool) -> ProcessorView {
        if !self.is_processing(id) {
            self
        } else if success {
            self.retired(self.slot(id), PaymentStatus::Completed)
        } else if self.entry(id).retries < MAX_RETRIES {
            self.kept(self.slot(id), PaymentStatus::Pending, self.entry(id).retries + 1)
        } else {
            self.retired(self.slot(id), PaymentStatus::Failed)
        }
    }

    /// What the caller is told when the attempt under way on the payment ends.
    pub open spec fn settle_outcome(self, id: Seq<char>, success: bool) -> Result<
        (),
        PaymentError,
    > {
        if !self.is_pending(id) {
            Err(PaymentError::NotFound)
        } else if !self.is_processing(id) {
            Err(PaymentError::InvalidState)
        } else if success || self.entry(id).retries < MAX_RETRIES {
            Ok(())
        } else {
            Err(PaymentError::RetryExhausted)
        }
    }

    /// The state after one whole attempt on the payment, which ended as
    /// `success` says.
    pub open spec fn processed(self, id: Seq<char>, success: bool) -> ProcessorView {
        self.begun(id).settled(id, success)
    }

    /// What the caller is told after one whole attempt on the payment.
    pub open spec fn process_outcome(self, id: Seq<char>, success: bool) -> Result<
        (),
        PaymentError,
    > {
        self.begun(id).settle_outcome(id, success)
    }

    /// The state after the payment was cancelled: a `Pending` payment is
    /// archived as `Cancelled`, and nothing changes otherwise.
    pub open spec fn cancelled(self, id: Seq<char>) -> ProcessorView {
        if self.is_pending(id) && self.entry(id).payment.status == PaymentStatus::Pending {
            self.retired(self.slot(id), PaymentStatus::Cancelled)
        } else {
            self
        }
    }

    /// What the caller is told when it cancels the payment.
    pub open spec fn cancel_outcome(self, id: Seq<char>) -> Result<(), PaymentError> {
        if !self.is_pending(id) {
            Err(PaymentError::NotFound)
        } else if self.entry(id).payment.status == PaymentStatus::Pending {
            Ok(())
        } else {
            Err(PaymentError::InvalidState)
        }
    }

    /// In a well-formed state, a payment in flight is found at one slot only.
    pub proof fn lemma_slot(self, id: Seq<char>, i: int)
        requires
            self.wf(),
            0 <= i < self.pending.len(),
            self.pending[i].payment.id == id,
        ensures
            self.is_pending(id),
            !self.is_archived(id),
            self.slot(id) == i,
    {
        let ids = self.pending_ids();
        assert(ids[i] == id);
        let k = ids.index_of(id);
        assert(0 <= k < ids.len() && ids[k] == id);
        if k < i {
            assert(self.pending[k].payment.id != self.pending[i].payment.id);
        }
        if i < k {
            assert(self.pending[i].payment.id != self.pending[k].payment.id);
        }
        if self.is_archived(id) {
            let j = self.archive_ids().index_of(id);
            assert(self.archive_ids()[j] == id);
            assert(self.pending[i].payment.id != self.archive[j].id);
        }
    }

    /// In a well-formed state, an archived payment is found at one place only.
    pub proof fn lemma_archived(self, id: Seq<char>, j: int)
        requires
            self.wf(),
            0 <= j < self.archive.len(),
            self.archive[j].id == id,
        ensures
            self.is_archived(id),
            !self.is_pending(id),
            self.archive_ids().index_of(id) == j,
    {
        let ids = self.archive_ids();
        assert(ids[j] == id);
        let k = ids.index_of(id);
        assert(0 <= k < ids.len() && ids[k] == id);
        if k < j {
            assert(self.archive[k].id != self.archive[j].id);
        }
        if j < k {
            assert(self.archive[j].id != self.archive[k].id);
        }
        if self.is_pending(id) {
            let i = self.pending_ids().index_of(id);
            assert(self.pending_ids()[i] == id);
            assert(self.pending[i].payment.id != self.archive[j].id);
        }
    }

    /// What [`Self::kept`] changes: the status and the retries of one payment
    /// in flight, and nothing else.
    pub proof fn lemma_kept(self, slot: int, status: PaymentStatus, retries: nat)
        requires
            self.wf(),
            0 <= slot < self.pending.len(),
            status == PaymentStatus::Pending || status == PaymentStatus::Processing,
            retries <= MAX_RETRIES,
        ensures
            self.kept(slot, status, retries).wf(),
            self.kept(slot, status, retries).pending_ids() == self.pending_ids(),
            self.kept(slot, status, retries).archive == self.archive,
            self.kept(slot, status, retries).status_of(self.pending[slot].payment.id) == Some(
                status,
            ),
            self.kept(slot, status, retries).retries_of(self.pending[slot].payment.id) == Some(
                retries,
            ),
            forall|other: Seq<char>|
                other != self.pending[slot].payment.id ==> {
                    &&& #[trigger] self.kept(slot, status, retries).status_of(other)
                        == self.status_of(other)
                    &&& self.kept(slot, status, retries).retries_of(other) == self.retries_of(
                        other,
                    )
                },
    {
        let id = self.pending[slot].payment.id;
        let after = self.kept(slot, status, retries);
        assert(after.pending_ids() =~= self.pending_ids());
        assert(after.wf());
        after.lemma_slot(id, slot);
        assert forall|other: Seq<char>| other != id implies {
            &&& #[trigger] after.status_of(other) == self.status_of(other)
            &&& after.retries_of(other) == self.retries_of(other)
        } by {
            if self.is_pending(other) {
                let k = self.slot(other);
                assert(self.pending_ids()[k] == other);
                assert(k != slot);
                assert(after.pending[k] == self.pending[k]);
            }
        }
    }

    /// What [`Self::retired`] changes: one payment leaves for the archive with
    /// its new status, and nothing else changes.
    pub proof fn lemma_retired(self, slot: int, status: PaymentStatus)
        requires
            self.wf(),
            0 <= slot < self.pending.len(),
            status.is_terminal(),
        ensures
            self.retired(slot, status).wf(),
            !self.retired(slot, status).is_pending(self.pending[slot].payment.id),
            self.retired(slot, status).is_archived(self.pending[slot].payment.id),
            self.retired(slot, status).archived(self.pending[slot].payment.id)
                == self.pending[slot].payment.with_status(status),
            self.retired(slot, status).status_of(self.pending[slot].payment.id) == Some(status),
            forall|other: Seq<char>|
                other != self.pending[slot].payment.id ==> {
                    &&& #[trigger] self.retired(slot, status).status_of(other) == self.status_of(
                        other,
                    )
                    &&& self.retired(slot, status).retries_of(other) == self.retries_of(other)
                },
    {
        let id = self.pending[slot].payment.id;
        let after = self.retired(slot, status);
        assert forall|i: int| 0 <= i < after.pending.len() implies after.pending[i] == (if i
            < slot {
            self.pending[i]
        } else {
            self.pending[i + 1]
        }) by {}
        assert(after.wf());
        after.lemma_archived(id, self.archive.len() as int);
        assert forall|other: Seq<char>| other != id implies {
            &&& #[trigger] after.status_of(other) == self.status_of(other)
            &&& after.retries_of(other) == self.retries_of(other)
        } by {
            if self.is_pending(other) {
                let k = self.slot(other);
                assert(self.pending_ids()[k] == other);
                let moved = if k < slot {
                    k
                } else {
                    k - 1
                };
                after.lemma_slot(other, moved);
            } else if after.is_pending(other) {
                let m = after.slot(other);
                assert(after.pending_ids()[m] == other);
                let origin = if m < slot {
                    m
                } else {
                    m + 1
                };
                assert(self.pending_ids()[origin] == other);
            } else if self.is_archived(other) {
                let j = self.archive_ids().index_of(other);
                assert(self.archive_ids()[j] == other);
                after.lemma_archived(other, j);
            } else if after.is_archived(other) {
                let j = after.archive_ids().index_of(other);
                assert(after.archive_ids()[j] == other);
                assert(j < self.archive.len());
                assert(self.archive_ids()[j] == other);
            }
        }
    }

    /// An accepted payment is in flight, `Pending`, with no retry used, and no
    /// other payment is touched.
    pub proof fn lemma_submitted(self, payment: PaymentView, now: u64)
        requires
            self.wf(),
            !self.knows(payment.id),
        ensures
            self.submitted(payment, now).wf(),
            self.submitted(payment, now).status_of(payment.id) == Some(PaymentStatus::Pending),
            self.submitted(payment, now).retries_of(payment.id) == Some(0nat),
            forall|other: Seq<char>|
                other != payment.id ==> #[trigger] self.submitted(payment, now).status_of(other)
                    == self.status_of(other),
    {
        let after = self.submitted(payment, now);
        assert forall|i: int| 0 <= i < self.pending.len() implies self.pending[i].payment.id
            != payment.id by {
            assert(self.pending_ids()[i] == self.pending[i].payment.id);
        }
        assert forall|j: int| 0 <= j < self.archive.len() implies self.archive[j].id
            != payment.id by {
            assert(self.archive_ids()[j] == self.archive[j].id);
        }
        assert(after.wf());
        after.lemma_slot(payment.id, self.pending.len() as int);
        assert forall|other: Seq<char>| other != payment.id implies #[trigger] after.status_of(
            other,
        ) == self.status_of(other) by {
            if self.is_pending(other) {
                let k = self.slot(other);
                assert(self.pending_ids()[k] == other);
                after.lemma_slot(other, k);
            } else if after.is_pending(other) {
                let m = after.slot(other);
                assert(after.pending_ids()[m] == other);
                assert(self.pending_ids()[m] == other);
            } else {
                assert(after.archive_ids() =~= self.archive_ids());
            }
        }
    }

    /// One whole attempt on a `Pending` payment passes through `Processing`
    /// and ends in exactly one of three ways: `Completed` in the archive;
    /// `Pending` again with one more retry used; `Failed` in the archive. No
    /// other payment is touched.
    pub proof fn law_attempt_closure(self, id: Seq<char>, success: bool)
        requires
            self.wf(),
            self.status_of(id) == Some(PaymentStatus::Pending),
            self.is_pending(id),
        ensures
            self.begun(id).wf(),
            self.begun(id).status_of(id) == Some(PaymentStatus::Processing),
            self.processed(id, success).wf(),
            success ==> {
                &&& self.processed(id, success).status_of(id) == Some(PaymentStatus::Completed)
                &&& self.processed(id, success).is_archived(id)
                &&& self.process_outcome(id, success) == Ok::<(), PaymentError>(())
            },
            !success && self.entry(id).retries < MAX_RETRIES ==> {
                &&& self.processed(id, success).status_of(id) == Some(PaymentStatus::Pending)
                &&& self.processed(id, success).retries_of(id) == Some(self.entry(id).retries + 1)
                &&& self.process_outcome(id, success) == Ok::<(), PaymentError>(())
            },
            !success && self.entry(id).retries >= MAX_RETRIES ==> {
                &&& self.processed(id, success).status_of(id) == Some(PaymentStatus::Failed)
                &&& self.processed(id, success).is_archived(id)
                &&& self.process_outcome(id, success) == Err::<(), PaymentError>(
                    PaymentError::RetryExhausted,
                )
            },
            forall|other: Seq<char>|
                other != id ==> #[trigger] self.processed(id, success).status_of(other)
                    == self.status_of(other),
    {
        let slot = self.slot(id);
        assert(self.pending_ids()[slot] == id);
        let retries = self.entry(id).retries;
        self.lemma_kept(slot, PaymentStatus::Processing, retries);
        let mid = self.begun(id);
        mid.lemma_slot(id, slot);
        if success {
            mid.lemma_retired(slot, PaymentStatus::Completed);
        } else if retries < MAX_RETRIES {
            mid.lemma_kept(slot, PaymentStatus::Pending, retries + 1);
        } else {
            mid.lemma_retired(slot, PaymentStatus::Failed);
        }
        let after = self.processed(id, success);
        assert forall|other: Seq<char>| other != id implies #[trigger] after.status_of(other)
            == self.status_of(other) by {
            assert(mid.status_of(other) == self.status_of(other));
        }
    }

    /// The state after `n` whole attempts on the payment that all failed.
    pub open spec fn after_failures(self, id: Seq<char>, n: nat) -> ProcessorView
        decreases n,
    {
        if n == 0 {
            self
        } else {
            self.after_failures(id, (n - 1) as nat).processed(id, false)
        }
    }

    /// While fewer failed attempts were made than a payment has retries left,
    /// it is `Pending`, and each failure has used one retry.
    proof fn lemma_failures(self, id: Seq<char>, n: nat)
        requires
            self.wf(),
            self.is_pending(id),
            self.status_of(id) == Some(PaymentStatus::Pending),
            self.entry(id).retries + n <= MAX_RETRIES,
        ensures
            self.after_failures(id, n).wf(),
            self.after_failures(id, n).is_pending(id),
            self.after_failures(id, n).status_of(id) == Some(PaymentStatus::Pending),
            self.after_failures(id, n).retries_of(id) == Some(self.entry(id).retries + n),
            n > 0 ==> self.after_failures(id, (n - 1) as nat).process_outcome(id, false) == Ok::<
                (),
                PaymentError,
            >(()),
        decreases n,
    {
        if n > 0 {
            let before = self.after_failures(id, (n - 1) as nat);
            self.lemma_failures(id, (n - 1) as nat);
            before.law_attempt_closure(id, false);
        }
    }

    /// A payment whose every attempt fails is `Failed` after the fourth
    /// attempt, one first attempt and [`MAX_RETRIES`] retries, and not before:
    /// after each of the first three it is `Pending` and the caller was told
    /// of no error; the fourth ends in `RetryExhausted`.
    pub proof fn law_retry_bound(self, payment: PaymentView, now: u64)
        requires
            self.wf(),
            !self.knows(payment.id),
        ensures
            forall|n: nat|
                n <= 3 ==> #[trigger] self.submitted(payment, now).after_failures(
                    payment.id,
                    n,
                ).status_of(payment.id) == Some(PaymentStatus::Pending),
            forall|n: nat|
                n < 3 ==> #[trigger] self.submitted(payment, now).after_failures(
                    payment.id,
                    n,
                ).process_outcome(payment.id, false) == Ok::<(), PaymentError>(()),
            self.submitted(payment, now).after_failures(payment.id, 3).process_outcome(
                payment.id,
                false,
            ) == Err::<(), PaymentError>(PaymentError::RetryExhausted),
            self.submitted(payment, now).after_failures(payment.id, 4).status_of(payment.id)
                == Some(PaymentStatus::Failed),
    {
        let start = self.submitted(payment, now);
        let id = payment.id;
        self.lemma_submitted(payment, now);
        assert forall|n: nat| n <= 3 implies #[trigger] start.after_failures(id, n).status_of(id)
            == Some(PaymentStatus::Pending) by {
            start.lemma_failures(id, n);
        }
        assert forall|n: nat| n < 3 implies #[trigger] start.after_failures(
            id,
            n,
        ).process_outcome(id, false) == Ok::<(), PaymentError>(()) by {
            start.lemma_failures(id, n + 1);
            assert(start.after_failures(id, ((n + 1) - 1) as nat) == start.after_failures(id, n));
        }
        start.lemma_failures(id, 3);
        start.after_failures(id, 3).law_attempt_closure(id, false);
        assert(start.after_failures(id, 4) == start.after_failures(id, 3).processed(id, false));
    }
}

/// What carries a payment out.
pub trait ExecutionBackend {
    /// Makes one attempt at the payment and reports whether it succeeded.
    fn execute(&mut self, payment: &PaymentRequest) -> bool;
}

/// A backend whose every attempt ends in the same way.
pub struct FixedOutcome {
    pub success: bool,
}

impl ExecutionBackend for FixedOutcome {
    fn execute(&mut self, payment: &PaymentRequest) -> (done: bool)
        ensures
            done == old(self).success,
            final(self).success == old(self).success,
    {
        self.success
    }
}

/// What a hasher holds after it was fed a string: the name of what
/// `Hash::hash` of the standard library leaves in the hasher, for what the
/// hasher held before and the string. How a string is fed is not laid down;
/// that equal strings leave equal hashers is.
pub uninterp spec fn fed(before: Seq<Seq<u8>>, text: Seq<char>) -> Seq<Seq<u8>>;

/// `Hash::hash` of the standard library, for a string: feeds `text` to
/// `hasher`. The contract claims that what the hasher then holds depends on
/// what it held before and on the string alone, and no more.
#[verifier::external_body]
fn feed(hasher: &mut DefaultHasher, text: &String)
    ensures
        final(hasher)@ == fed(old(hasher)@, text@),
{
    text.hash(hasher);
}

/// The hash of the id of a payment: that of a hasher of the standard
/// library which was fed the id and nothing else.
pub open spec fn simulated_hash(id: Seq<char>) -> u64 {
    DefaultHasher::spec_finish(fed(Seq::empty(), id))
}

/// Whether the pretended attempt at the payment with this id succeeds: it
/// fails where the hash of the id is a multiple of ten.
pub open spec fn simulated_success(id: Seq<char>) -> bool {
    simulated_hash(id) % 10 != 0
}

/// Whether a pretended attempt succeeds, for the hash of the id of its
/// payment: nine hashes in ten succeed.
pub fn simulated_outcome(hash: u64) -> (success: bool)
    ensures
        success == (hash % 10 != 0),
{
    hash % 10 != 0
}

/// A backend that carries nothing out and pretends: whether an attempt
/// succeeds depends on a hash of the id of the payment alone, so that every
/// attempt at one payment ends in the same way.
pub struct SimulatedExecution;

impl ExecutionBackend for SimulatedExecution {
    fn execute(&mut self, payment: &PaymentRequest) -> (done: bool)
        ensures
            done == simulated_success(payment@.id),
    {
        let mut hasher = DefaultHasher::new();
        feed(&mut hasher, &payment.id);
        simulated_outcome(hasher.finish())
    }
}

/// A payment in flight.
struct PendingPayment {
    payment: PaymentRequest,
    retries: u32,
}

impl View for PendingPayment {
    type V = PendingView;

    closed spec fn view(&self) -> PendingView {
        PendingView { payment: self.payment@, retries: self.retries as nat }
    }
}

spec fn pending_views(s: Seq<PendingPayment>) -> Seq<PendingView> {
    Seq::new(s.len(), |i: int| s[i]@)
}

spec fn payment_views(s: Seq<PaymentRequest>) -> Seq<PaymentView> {
    Seq::new(s.len(), |i: int| s[i]@)
}

/// The payments in flight and the archive of those that ended.
pub struct PaymentProcessor {
    pending_payments: Vec<PendingPayment>,
    completed_payments: Vec<PaymentRequest>,
}

impl View for PaymentProcessor {
    type V = ProcessorView;

    closed spec fn view(&self) -> ProcessorView {
        ProcessorView {
            pending: pending_views(self.pending_payments@),
            archive: payment_views(self.completed_payments@),
        }
    }
}

impl PaymentProcessor {
    /// The invariant of the processor: that of its view.
    pub open spec fn wf(&self) -> bool {
        self@.wf()
    }

    /// A processor that holds no payment.
    pub fn new() -> (r: Self)
        ensures
            r.wf(),
            r@.pending.len() == 0,
            r@.archive.len() == 0,
    {
        PaymentProcessor { pending_payments: Vec::new(), completed_payments: Vec::new() }
    }

    fn find_pending(&self, id: &String) -> (r: Option<usize>)
        ensures
            match r {
                Some(i) => i < self@.pending.len() && self@.pending[i as int].payment.id == id@,
                None => !self@.is_pending(id@),
            },
    {
        let mut i: usize = 0;
        while i < self.pending_payments.len()
            invariant
                i <= self.pending_payments.len(),
                forall|j: int| 0 <= j < i ==> self.pending_payments[j].payment.id@ != id@,
            decreases self.pending_payments.len() - i,
        {
            if self.pending_payments[i].payment.id == *id {
                return Some(i);
            }
            i += 1;
        }
        assert(forall|j: int|
            0 <= j < self@.pending_ids().len() ==> self@.pending_ids()[j]
                == self.pending_payments[j].payment.id@);
        None
    }

    fn find_archived(&self, id: &String) -> (r: Option<usize>)
        ensures
            match r {
                Some(j) => j < self@.archive.len() && self@.archive[j as int].id == id@,
                None => !self@.is_archived(id@),
            },
    {
        let mut j: usize = 0;
        while j < self.completed_payments.len()
            invariant
                j <= self.completed_payments.len(),
                forall|k: int| 0 <= k < j ==> self.completed_payments[k].id@ != id@,
            decreases self.completed_payments.len() - j,
        {
            if self.completed_payments[j].id == *id {
                return Some(j);
            }
            j += 1;
        }
        assert(forall|k: int|
            0 <= k < self@.archive_ids().len() ==> self@.archive_ids()[k]
                == self.completed_payments[k].id@);
        None
    }

    /// Accepts `payment` at time `now`, unless a payment with its id was
    /// accepted before. The status and the timestamp that `payment` came with
    /// are not kept. Returns the id.
    pub fn submit_payment(&mut self, payment: PaymentRequest, now: u64) -> (r: Result<
        String,
        PaymentError,
    >)
        requires
            old(self).wf(),
        ensures
            final(self).wf(),
            old(self)@.knows(payment@.id) ==> r == Err::<String, PaymentError>(
                PaymentError::DuplicateId,
            ) && final(self)@ == old(self)@,
            !old(self)@.knows(payment@.id) ==> (r matches Ok(id) && id@ == payment@.id)
                && final(self)@ == old(self)@.submitted(payment@, now),
    {
        if let Some(i) = self.find_pending(&payment.id) {
            proof {
                self@.lemma_slot(payment@.id, i as int);
            }
            return Err(PaymentError::DuplicateId);
        }
        if let Some(j) = self.find_archived(&payment.id) {
            proof {
                self@.lemma_archived(payment@.id, j as int);
            }
            return Err(PaymentError::DuplicateId);
        }
        let id = payment.id.clone();
        let stamped = PaymentRequest {
            id: payment.id,
            provider_id: payment.provider_id,
            chain: payment.chain,
            amount: payment.amount,
            recipient: payment.recipient,
            metadata: payment.metadata,
            timestamp: now,
            status: PaymentStatus::Pending,
        };
        self.pending_payments.push(PendingPayment { payment: stamped, retries: 0 });
        proof {
            let before = old(self)@;
            let after = self@;
            assert(after.pending =~= before.submitted(payment@, now).pending);
            assert(after.archive =~= before.archive);
            assert forall|i: int| 0 <= i < before.pending.len() implies before.pending[i].payment.id
                != payment@.id by {
                assert(before.pending_ids()[i] == before.pending[i].payment.id);
            }
            assert forall|j: int| 0 <= j < before.archive.len() implies before.archive[j].id
                != payment@.id by {
                assert(before.archive_ids()[j] == before.archive[j].id);
            }
        }
        Ok(id)
    }

    /// The status of the payment with this id, in flight or archived.
    pub fn get_payment_status(&self, payment_id: &str) -> (r: Option<PaymentStatus>)
        requires
            self.wf(),
        ensures
            r == self@.status_of(payment_id@),
    {
        let key = payment_id.to_owned();
        match self.find_pending(&key) {
            Some(i) => {
                proof {
                    self@.lemma_slot(key@, i as int);
                }
                Some(self.pending_payments[i].payment.status)
            },
            None => match self.find_archived(&key) {
                Some(j) => {
                    proof {
                        self@.lemma_archived(key@, j as int);
                    }
                    Some(self.completed_payments[j].status)
                },
                None => None,
            },
        }
    }

    /// The retries that the payment in flight with this id has used.
    pub fn retry_count(&self, payment_id: &str) -> (r: Option<u32>)
        requires
            self.wf(),
        ensures
            match r {
                Some(n) => self@.retries_of(payment_id@) == Some(n as nat),
                None => self@.retries_of(payment_id@).is_none(),
            },
    {
        let key = payment_id.to_owned();
        match self.find_pending(&key) {
            Some(i) => {
                proof {
                    self@.lemma_slot(key@, i as int);
                }
                Some(self.pending_payments[i].retries)
            },
            None => None,
        }
    }

    /// Gives the payment in flight at `slot` this status and this number of
    /// retries.
    fn keep(&mut self, slot: usize, status: PaymentStatus, retries: u32)
        requires
            old(self).wf(),
            slot < old(self)@.pending.len(),
            status == PaymentStatus::Pending || status == PaymentStatus::Processing,
            retries <= MAX_RETRIES,
        ensures
            final(self).wf(),
            final(self)@ == old(self)@.kept(slot as int, status, retries as nat),
    {
        self.pending_payments[slot].payment.status = status;
        self.pending_payments[slot].retries = retries;
        proof {
            let before = old(self)@;
            let after = self@;
            assert(after.pending =~= before.kept(slot as int, status, retries as nat).pending);
            assert(after.archive =~= before.archive);
        }
    }

    /// Moves the payment in flight at `slot` to the archive, with this status.
    fn retire(&mut self, slot: usize, status: PaymentStatus)
        requires
            old(self).wf(),
            slot < old(self)@.pending.len(),
            status.is_terminal(),
        ensures
            final(self).wf(),
            final(self)@ == old(self)@.retired(slot as int, status),
    {
        let entry = self.pending_payments.remove(slot);
        let mut payment = entry.payment;
        payment.status = status;
        self.completed_payments.push(payment);
        proof {
            let before = old(self)@;
            let after = self@;
            let goal = before.retired(slot as int, status);
            assert(after.pending =~= goal.pending);
            assert(after.archive =~= goal.archive);
            assert forall|i: int| 0 <= i < goal.pending.len() implies goal.pending[i] == (if i
                < slot {
                before.pending[i]
            } else {
                before.pending[i + 1]
            }) by {}
        }
    }

    /// Ends a failed attempt on the payment in flight at `slot`: the payment
    /// goes back to `Pending` with one more retry used, or, with no retry
    /// left, to the archive as `Failed`.
    fn handle_payment_failure(&mut self, slot: usize) -> (r: Result<(), PaymentError>)
        requires
            old(self).wf(),
            slot < old(self)@.pending.len(),
            old(self)@.pending[slot as int].payment.status == PaymentStatus::Processing,
        ensures
            final(self).wf(),
            final(self)@ == old(self)@.settled(old(self)@.pending[slot as int].payment.id, false),
            r == old(self)@.settle_outcome(old(self)@.pending[slot as int].payment.id, false),
    {
        proof {
            self@.lemma_slot(self@.pending[slot as int].payment.id, slot as int);
        }
        let retries = self.pending_payments[slot].retries;
        if retries < MAX_RETRIES {
            self.keep(slot, PaymentStatus::Pending, retries + 1);
            Ok(())
        } else {
            self.retire(slot, PaymentStatus::Failed);
            Err(PaymentError::RetryExhausted)
        }
    }

    /// Ends the attempt under way on the payment in flight at `slot`.
    fn settle(&mut self, slot: usize, success: bool) -> (r: Result<(), PaymentError>)
        requires
            old(self).wf(),
            slot < old(self)@.pending.len(),
            old(self)@.pending[slot as int].payment.status == PaymentStatus::Processing,
        ensures
            final(self).wf(),
            final(self)@ == old(self)@.settled(old(self)@.pending[slot as int].payment.id, success),
            r == old(self)@.settle_outcome(old(self)@.pending[slot as int].payment.id, success),
    {
        if success {
            proof {
                self@.lemma_slot(self@.pending[slot as int].payment.id, slot as int);
            }
            self.retire(slot, PaymentStatus::Completed);
            Ok(())
        } else {
            self.handle_payment_failure(slot)
        }
    }

    /// Begins an attempt on the payment: it becomes `Processing`, and a copy
    /// of it is returned for the attempt. Fails with `NotFound`, changing
    /// nothing, where no payment with this id is in flight.
    pub fn begin_processing(&mut self, payment_id: &str) -> (r: Result<
        PaymentRequest,
        PaymentError,
    >)
        requires
            old(self).wf(),
        ensures
            final(self).wf(),
            final(self)@ == old(self)@.begun(payment_id@),
            match r {
                Ok(payment) => old(self)@.is_pending(payment_id@) && payment@ == final(self)@.entry(payment_id@).payment,
                Err(e) => !old(self)@.is_pending(payment_id@) && e == PaymentError::NotFound,
            },
    {
        let key = payment_id.to_owned();
        match self.find_pending(&key) {
            None => Err(PaymentError::NotFound),
            Some(slot) => {
                proof {
                    self@.lemma_slot(key@, slot as int);
                }
                let retries = self.pending_payments[slot].retries;
                self.keep(slot, PaymentStatus::Processing, retries);
                proof {
                    self@.lemma_slot(key@, slot as int);
                }
                Ok(self.pending_payments[slot].payment.clone())
            },
        }
    }

    /// Ends the attempt under way on the payment, which succeeded or failed as
    /// `success` says.
    ///
    /// Fails with `NotFound` where no payment with this id is in flight and
    /// with `InvalidState` where no attempt on it is under way; nothing
    /// changes then. A failed attempt that leaves a retry is no error. One
    /// that leaves none fails with `RetryExhausted`.
    pub fn complete_processing(&mut self, payment_id: &str, success: bool) -> (r: Result<
        (),
        PaymentError,
    >)
        requires
            old(self).wf(),
        ensures
            final(self).wf(),
            final(self)@ == old(self)@.settled(payment_id@, success),
            r == old(self)@.settle_outcome(payment_id@, success),
    {
        let key = payment_id.to_owned();
        match self.find_pending(&key) {
            None => Err(PaymentError::NotFound),
            Some(slot) => {
                proof {
                    self@.lemma_slot(key@, slot as int);
                }
                if self.pending_payments[slot].payment.status == PaymentStatus::Processing {
                    self.settle(slot, success)
                } else {
                    Err(PaymentError::InvalidState)
                }
            },
        }
    }

    /// Pretends to carry `payment` out, as [`SimulatedExecution`] does: the
    /// hash of the id of the payment decides, and nine hashes in ten succeed.
    pub fn execute_blockchain_transaction(&self, payment: &PaymentRequest) -> (done: bool)
        ensures
            done == simulated_success(payment@.id),
    {
        let mut backend = SimulatedExecution;
        backend.execute(payment)
    }

    /// Makes one whole attempt on the payment: begins it, has `backend` carry
    /// it out, and ends it as the backend reports.
    ///
    /// Fails with `NotFound`, changing nothing and leaving the backend alone,
    /// where no payment with this id is in flight. Otherwise the state and the
    /// result are those of an attempt that succeeded, or those of one that
    /// failed.
    pub fn process_payment<B: ExecutionBackend>(
        &mut self,
        payment_id: &str,
        backend: &mut B,
    ) -> (r: Result<(), PaymentError>)
        requires
            old(self).wf(),
        ensures
            final(self).wf(),
            exists|success: bool|
                final(self)@ == #[trigger] old(self)@.processed(payment_id@, success) && r == old(self)@.process_outcome(payment_id@, success),
            !old(self)@.is_pending(payment_id@) ==> *final(backend) == *old(backend),
    {
        let key = payment_id.to_owned();
        match self.find_pending(&key) {
            None => {
                assert(self@ == old(self)@.processed(payment_id@, true));
                Err(PaymentError::NotFound)
            },
            Some(slot) => {
                proof {
                    self@.lemma_slot(key@, slot as int);
                }
                let retries = self.pending_payments[slot].retries;
                self.keep(slot, PaymentStatus::Processing, retries);
                proof {
                    self@.lemma_slot(key@, slot as int);
                }
                let attempt = self.pending_payments[slot].payment.clone();
                let success = backend.execute(&attempt);
                let r = self.settle(slot, success);
                assert(self@ == old(self)@.processed(payment_id@, success));
                r
            },
        }
    }

    /// Cancels the payment: a `Pending` payment goes to the archive as
    /// `Cancelled`.
    ///
    /// Fails with `NotFound` where no payment with this id is in flight and
    /// with `InvalidState` where an attempt on it is under way; nothing
    /// changes then.
    pub fn cancel_payment(&mut self, payment_id: &str) -> (r: Result<(), PaymentError>)
        requires
            old(self).wf(),
        ensures
            final(self).wf(),
            final(self)@ == old(self)@.cancelled(payment_id@),
            r == old(self)@.cancel_outcome(payment_id@),
    {
        let key = payment_id.to_owned();
        match self.find_pending(&key) {
            None => Err(PaymentError::NotFound),
            Some(slot) => {
                proof {
                    self@.lemma_slot(key@, slot as int);
                }
                if self.pending_payments[slot].payment.status == PaymentStatus::Processing {
                    Err(PaymentError::InvalidState)
                } else {
                    self.retire(slot, PaymentStatus::Cancelled);
                    Ok(())
                }
            },
        }
    }

    /// The payments in flight, in the order in which they were submitted.
    pub fn list_pending_payments(&self) -> (r: Vec<&PaymentRequest>)
        ensures
            r.len() == self@.pending.len(),
            forall|i: int| 0 <= i < r.len() ==> r[i]@ == self@.pending[i].payment,
    {
        let mut r: Vec<&PaymentRequest> = Vec::new();
        let mut i: usize = 0;
        while i < self.pending_payments.len()
            invariant
                i <= self.pending_payments.len(),
                r.len() == i,
                forall|j: int| 0 <= j < i ==> r[j]@ == self.pending_payments[j].payment@,
            decreases self.pending_payments.len() - i,
        {
            r.push(&self.pending_payments[i].payment);
            i += 1;
        }
        r
    }
}

} // verus!
