use vstd::prelude::*;
use vstd::bytes::spec_u128_to_le_bytes;
use crate::error::ErrorCode;
use crate::types::nonce_le_bytes;
use crate::types::ComputationJob;
use crate::types::EncryptedRequest;
use crate::types::JobStatus;
use crate::types::ScoreResult;
use crate::types::ScoresProcessedEvent;
use crate::types::SignedComputationOutput;
use crate::types::RESULT_VERSION;

verus! {

/// The job held by the first entry of `jobs` that carries `offset`, if any.
/// Offsets are kept unique by the protocol invariant, so this is the one
/// job of the offset.
pub open spec fn job_for(jobs: Seq<ComputationJob>, offset: u64) -> Option<ComputationJob>
    decreases jobs.len(),
{
    if jobs.len() == 0 {
        None
    } else if jobs[0].offset == offset {
        Some(jobs[0])
    } else {
        job_for(jobs.drop_first(), offset)
    }
}

/// The offset names a job that is still awaiting its callback.
pub open spec fn pending_at(jobs: Seq<ComputationJob>, offset: u64) -> bool {
    match job_for(jobs, offset) {
        Some(job) => job.status == JobStatus::Pending,
        None => false,
    }
}

/// The pending job a successful submission records.
pub open spec fn submitted_job(
    offset: u64,
    ciphertext: [u8; 32],
    count: u8,
    pubkey: [u8; 32],
    nonce: u128,
    owner: [u8; 32],
) -> ComputationJob {
    ComputationJob {
        offset,
        status: JobStatus::Pending,
        request: EncryptedRequest {
            ciphertext,
            ephemeral_pubkey: pubkey,
            nonce,
            count,
            owner,
        },
    }
}

/// The result slot stored for `owner`, if any. Owners are kept unique by
/// the protocol invariant, so this is the one slot of the owner.
pub open spec fn result_for(results: Seq<ScoreResult>, owner: Seq<u8>) -> Option<ScoreResult>
    decreases results.len(),
{
    if results.len() == 0 {
        None
    } else if results[0].owner@ == owner {
        Some(results[0])
    } else {
        result_for(results.drop_first(), owner)
    }
}

/// Whether the callback's proof authenticates `output` as coming from the
/// configured cluster and answering the job named by `job_identity`. With
/// no cluster configured nothing authenticates.
pub open spec fn proof_accepted(
    cluster: Option<[u8; 32]>,
    job_identity: u64,
    output: SignedComputationOutput,
) -> bool {
    match cluster {
        Some(c) => output.proof.offset == job_identity && output.proof.cluster@ == c@,
        None => false,
    }
}

/// `job` moved to its completed state.
pub open spec fn completed(job: ComputationJob) -> ComputationJob {
    ComputationJob { status: JobStatus::Completed, ..job }
}

/// `job` moved to its aborted state.
pub open spec fn aborted(job: ComputationJob) -> ComputationJob {
    ComputationJob { status: JobStatus::Aborted, ..job }
}

/// No two jobs share an offset.
pub open spec fn jobs_unique(jobs: Seq<ComputationJob>) -> bool {
    forall|i: int, j: int|
        0 <= i < j < jobs.len() ==> jobs[i].offset != jobs[j].offset
}

/// Every recorded job holds a request whose count was validated.
pub open spec fn requests_valid(jobs: Seq<ComputationJob>) -> bool {
    forall|i: int| 0 <= i < jobs.len() ==> jobs[i].request.wf()
}

/// No two result slots share an owner.
pub open spec fn owners_unique(results: Seq<ScoreResult>) -> bool {
    forall|i: int, j: int|
        0 <= i < j < results.len() ==> results[i].owner@ != results[j].owner@
}

proof fn lemma_job_for_at(jobs: Seq<ComputationJob>, i: int)
    requires
        0 <= i < jobs.len(),
        forall|k: int| 0 <= k < i ==> jobs[k].offset != jobs[i].offset,
    ensures
        job_for(jobs, jobs[i].offset) == Some(jobs[i]),
    decreases i,
{
    if i > 0 {
        lemma_job_for_at(jobs.drop_first(), i - 1);
    }
}

proof fn lemma_job_for_none(jobs: Seq<ComputationJob>, offset: u64)
    requires
        forall|k: int| 0 <= k < jobs.len() ==> jobs[k].offset != offset,
    ensures
        job_for(jobs, offset) is None,
    decreases jobs.len(),
{
    if jobs.len() > 0 {
        lemma_job_for_none(jobs.drop_first(), offset);
    }
}

proof fn lemma_job_for_push(jobs: Seq<ComputationJob>, job: ComputationJob, offset: u64)
    ensures
        job_for(jobs.push(job), offset) == (match job_for(jobs, offset) {
            Some(found) => Some(found),
            None => if job.offset == offset {
                Some(job)
            } else {
                None::<ComputationJob>
            },
        }),
    decreases jobs.len(),
{
    let pushed = jobs.push(job);
    if jobs.len() == 0 {
        assert(pushed[0] == job);
        assert(pushed.drop_first() =~= Seq::<ComputationJob>::empty());
        if job.offset == offset {
            assert(job_for(pushed, offset) == Some(job));
        } else {
            assert(job_for(pushed, offset) == job_for(pushed.drop_first(), offset));
            assert(job_for(pushed, offset) is None);
        }
        assert(job_for(jobs, offset) is None);
    } else {
        assert(pushed[0] == jobs[0]);
        assert(pushed.drop_first() =~= jobs.drop_first().push(job));
        lemma_job_for_push(jobs.drop_first(), job, offset);
        if jobs[0].offset == offset {
            assert(job_for(pushed, offset) == Some(jobs[0]));
            assert(job_for(jobs, offset) == Some(jobs[0]));
        } else {
            assert(job_for(pushed, offset) == job_for(jobs.drop_first().push(job), offset));
            assert(job_for(jobs, offset) == job_for(jobs.drop_first(), offset));
        }
    }
}

proof fn lemma_job_for_update(jobs: Seq<ComputationJob>, i: int, job: ComputationJob)
    requires
        0 <= i < jobs.len(),
        job.offset == jobs[i].offset,
        forall|k: int| 0 <= k < i ==> jobs[k].offset != jobs[i].offset,
    ensures
        job_for(jobs.update(i, job), jobs[i].offset) == Some(job),
        forall|o: u64|
            o != jobs[i].offset ==> job_for(jobs.update(i, job), o) == job_for(jobs, o),
    decreases i,
{
    let updated = jobs.update(i, job);
    if i == 0 {
        assert(updated.drop_first() =~= jobs.drop_first());
    } else {
        assert(updated.drop_first() =~= jobs.drop_first().update(i - 1, job));
        lemma_job_for_update(jobs.drop_first(), i - 1, job);
        assert(jobs.drop_first()[i - 1] == jobs[i]);
        assert forall|o: u64| o != jobs[i].offset implies job_for(updated, o) == job_for(
            jobs,
            o,
        ) by {
            assert(updated[0] == jobs[0]);
            assert(job_for(jobs.drop_first().update(i - 1, job), o) == job_for(
                jobs.drop_first(),
                o,
            ));
            if jobs[0].offset != o {
                assert(job_for(updated, o) == job_for(updated.drop_first(), o));
                assert(job_for(jobs, o) == job_for(jobs.drop_first(), o));
            }
        }
    }
}

proof fn lemma_result_for_at(results: Seq<ScoreResult>, i: int)
    requires
        0 <= i < results.len(),
        forall|k: int| 0 <= k < i ==> results[k].owner@ != results[i].owner@,
    ensures
        result_for(results, results[i].owner@) == Some(results[i]),
    decreases i,
{
    if i > 0 {
        lemma_result_for_at(results.drop_first(), i - 1);
    }
}

proof fn lemma_result_for_none(results: Seq<ScoreResult>, owner: Seq<u8>)
    requires
        forall|k: int| 0 <= k < results.len() ==> results[k].owner@ != owner,
    ensures
        result_for(results, owner) is None,
    decreases results.len(),
{
    if results.len() > 0 {
        lemma_result_for_none(results.drop_first(), owner);
    }
}

proof fn lemma_result_for_push(results: Seq<ScoreResult>, slot: ScoreResult, owner: Seq<u8>)
    ensures
        result_for(results.push(slot), owner) == (match result_for(results, owner) {
            Some(found) => Some(found),
            None => if slot.owner@ == owner {
                Some(slot)
            } else {
                None::<ScoreResult>
            },
        }),
    decreases results.len(),
{
    let pushed = results.push(slot);
    if results.len() == 0 {
        assert(pushed[0] == slot);
        assert(pushed.drop_first() =~= Seq::<ScoreResult>::empty());
    } else {
        assert(pushed[0] == results[0]);
        assert(pushed.drop_first() =~= results.drop_first().push(slot));
        lemma_result_for_push(results.drop_first(), slot, owner);
    }
}

proof fn lemma_result_for_update(results: Seq<ScoreResult>, i: int, slot: ScoreResult)
    requires
        0 <= i < results.len(),
        slot.owner@ == results[i].owner@,
        forall|k: int| 0 <= k < i ==> results[k].owner@ != results[i].owner@,
    ensures
        result_for(results.update(i, slot), results[i].owner@) == Some(slot),
        forall|o: Seq<u8>|
            o != results[i].owner@ ==> result_for(results.update(i, slot), o) == result_for(
                results,
                o,
            ),
    decreases i,
{
    let updated = results.update(i, slot);
    if i == 0 {
        assert(updated.drop_first() =~= results.drop_first());
    } else {
        assert(updated.drop_first() =~= results.drop_first().update(i - 1, slot));
        lemma_result_for_update(results.drop_first(), i - 1, slot);
        assert(results.drop_first()[i - 1] == results[i]);
        assert forall|o: Seq<u8>| o != results[i].owner@ implies result_for(updated, o)
            == result_for(results, o) by {
            assert(updated[0] == results[0]);
            assert(result_for(results.drop_first().update(i - 1, slot), o) == result_for(
                results.drop_first(),
                o,
            ));
            if results[0].owner@ != o {
                assert(result_for(updated, o) == result_for(updated.drop_first(), o));
                assert(result_for(results, o) == result_for(results.drop_first(), o));
            }
        }
    }
}

/// Abstract value of the whole orchestration state: the configured cluster
/// identity, the jobs in submission order, the stored result slots, and the
/// notifications in emission order.
pub struct ProtocolView {
    pub cluster: Option<[u8; 32]>,
    pub jobs: Seq<ComputationJob>,
    pub results: Seq<ScoreResult>,
    pub events: Seq<ScoresProcessedEvent>,
}

/// The orchestration core. Submissions create pending jobs; verified
/// callbacks complete them and write the submitting owner's result slot;
/// rejected callbacks abort them. The result slots are written by no other
/// path.
pub struct ProtocolState {
    cluster: Option<[u8; 32]>,
    jobs: Vec<ComputationJob>,
    results: Vec<ScoreResult>,
    events: Vec<ScoresProcessedEvent>,
}

impl View for ProtocolState {
    type V = ProtocolView;

    closed spec fn view(&self) -> ProtocolView {
        ProtocolView {
            cluster: self.cluster,
            jobs: self.jobs@,
            results: self.results@,
            events: self.events@,
        }
    }
}

impl ProtocolState {
    /// Each offset identifies at most one job, every recorded request has a
    /// validated count, and each owner holds at most one result slot.
    pub open spec fn inv(self) -> bool {
        jobs_unique(self@.jobs) && requests_valid(self@.jobs) && owners_unique(self@.results)
    }

    /// A fresh core: no cluster configured, no jobs, no results, no events.
    pub fn new() -> (s: Self)
        ensures
            s.inv(),
            s@.cluster is None,
            s@.jobs == Seq::<ComputationJob>::empty(),
            s@.results == Seq::<ScoreResult>::empty(),
            s@.events == Seq::<ScoresProcessedEvent>::empty(),
    {
        let s = ProtocolState {
            cluster: None,
            jobs: Vec::new(),
            results: Vec::new(),
            events: Vec::new(),
        };
        proof {
            assert(s@.jobs =~= Seq::<ComputationJob>::empty());
            assert(s@.results =~= Seq::<ScoreResult>::empty());
            assert(s@.events =~= Seq::<ScoresProcessedEvent>::empty());
        }
        s
    }

    /// Configure the identity of the compute cluster that callbacks will be
    /// authenticated against. Until this is done every submission is
    /// rejected with `ClusterNotSet`. Touches nothing else.
    pub fn init_process_scores_comp_def(&mut self, cluster: [u8; 32])
        requires
            old(self).inv(),
        ensures
            final(self).inv(),
            final(self)@.cluster == Some(cluster),
            final(self)@.jobs == old(self)@.jobs,
            final(self)@.results == old(self)@.results,
            final(self)@.events == old(self)@.events,
    {
        self.cluster = Some(cluster);
    }

    /// Validate a submission and queue it for the cluster under the
    /// caller-chosen `computation_offset`.
    ///
    /// Succeeds if and only if the count lies in 1..=8, a cluster identity
    /// is configured, and the offset does not name a still-pending job; a
    /// fresh pending job holding the request is then recorded (replacing a
    /// terminal job of the same offset, so the offset again identifies one
    /// job) and every other offset is untouched. Each rejection names its
    /// cause and leaves the state exactly as it was. Results, events and
    /// the cluster identity are never touched; the ciphertext is never
    /// inspected.
    pub fn process_scores(
        &mut self,
        computation_offset: u64,
        encrypted_scores: [u8; 32],
        num_scores: u8,
        pubkey: [u8; 32],
        nonce: u128,
        owner: [u8; 32],
    ) -> (r: Result<(), ErrorCode>)
        requires
            old(self).inv(),
        ensures
            final(self).inv(),
            final(self)@.cluster == old(self)@.cluster,
            final(self)@.results == old(self)@.results,
            final(self)@.events == old(self)@.events,
            r is Ok <==> (1 <= num_scores <= 8 && old(self)@.cluster is Some && !pending_at(
                old(self)@.jobs,
                computation_offset,
            )),
            !(1 <= num_scores <= 8) ==> r == Err::<(), ErrorCode>(ErrorCode::InvalidScoreCount)
                && final(self)@ == old(self)@,
            1 <= num_scores <= 8 && old(self)@.cluster is None ==> r == Err::<(), ErrorCode>(
                ErrorCode::ClusterNotSet,
            ) && final(self)@ == old(self)@,
            1 <= num_scores <= 8 && old(self)@.cluster is Some && pending_at(
                old(self)@.jobs,
                computation_offset,
            ) ==> r == Err::<(), ErrorCode>(ErrorCode::DuplicateOffset) && final(self)@ == old(
                self,
            )@,
            r is Ok ==> job_for(final(self)@.jobs, computation_offset) == Some(
                submitted_job(
                    computation_offset,
                    encrypted_scores,
                    num_scores,
                    pubkey,
                    nonce,
                    owner,
                ),
            ),
            r is Ok ==> pending_at(final(self)@.jobs, computation_offset),
            r is Ok ==> forall|o: u64|
                o != computation_offset ==> job_for(final(self)@.jobs, o) == job_for(
                    old(self)@.jobs,
                    o,
                ),
            r is Ok ==> final(self)@.jobs.len() == old(self)@.jobs.len() + (if job_for(
                old(self)@.jobs,
                computation_offset,
            ) is Some {
                0int
            } else {
                1int
            }),
    {
        if !(num_scores >= 1 && num_scores <= 8) {
            return Err(ErrorCode::InvalidScoreCount);
        }
        if self.cluster.is_none() {
            return Err(ErrorCode::ClusterNotSet);
        }
        let job = ComputationJob {
            offset: computation_offset,
            status: JobStatus::Pending,
            request: EncryptedRequest {
                ciphertext: encrypted_scores,
                ephemeral_pubkey: pubkey,
                nonce,
                count: num_scores,
                owner,
            },
        };
        let ghost orig = self.jobs@;
        match self.find_job_index(computation_offset) {
            Some(i) => {
                if matches!(self.jobs[i].status, JobStatus::Pending) {
                    return Err(ErrorCode::DuplicateOffset);
                }
                proof {
                    lemma_job_for_update(orig, i as int, job);
                }
                self.jobs[i] = job;
                proof {
                    assert(self.jobs@ == orig.update(i as int, job));
                    assert forall|p: int, q: int|
                        0 <= p < q < self.jobs@.len() implies self.jobs@[p].offset
                        != self.jobs@[q].offset by {
                        assert(orig[p].offset != orig[q].offset);
                    }
                }
            },
            None => {
                proof {
                    assert forall|o: u64| #![trigger job_for(orig.push(job), o)] true implies
                        job_for(orig.push(job), o) == (match job_for(orig, o) {
                        Some(found) => Some(found),
                        None => if job.offset == o {
                            Some(job)
                        } else {
                            None::<ComputationJob>
                        },
                    }) by {
                        lemma_job_for_push(orig, job, o);
                    }
                }
                self.jobs.push(job);
                proof {
                    assert(self.jobs@ == orig.push(job));
                    assert forall|p: int, q: int|
                        0 <= p < q < self.jobs@.len() implies self.jobs@[p].offset
                        != self.jobs@[q].offset by {
                        if q < orig.len() {
                            assert(orig[p].offset != orig[q].offset);
                        } else {
                            assert(self.jobs@[q] == job);
                            assert(orig[p].offset != computation_offset);
                        }
                    }
                }
            },
        }
        Ok(())
    }

    /// Receive the cluster's signed output for the job named by
    /// `job_identity`, delivered at `timestamp`.
    ///
    /// A callback for an unknown or already-terminal job is rejected as
    /// `StaleCallback` and changes nothing, so a duplicate delivery after a
    /// verified one is a no-op: no result slot moves and no second event is
    /// emitted. For a pending job whose proof fails authentication the job
    /// becomes `Aborted`, no result slot and no event is touched, and
    /// `AbortedComputation` is returned. For a pending job whose proof
    /// authenticates the job becomes `Completed` exactly once, the slot of
    /// exactly the submitting owner is replaced by the output's first
    /// ciphertext with the output's nonce and this `timestamp`, every other
    /// owner's slot is untouched, and the one result-ready event is both
    /// appended and returned.
    pub fn process_scores_callback(
        &mut self,
        job_identity: u64,
        output: &SignedComputationOutput,
        timestamp: i64,
    ) -> (r: Result<ScoresProcessedEvent, ErrorCode>)
        requires
            old(self).inv(),
            output.wf(),
        ensures
            final(self).inv(),
            final(self)@.cluster == old(self)@.cluster,
            (match job_for(old(self)@.jobs, job_identity) {
                None => true,
                Some(job) => job.status.is_terminal(),
            }) ==> r == Err::<ScoresProcessedEvent, ErrorCode>(ErrorCode::StaleCallback)
                && final(self)@ == old(self)@,
            pending_at(old(self)@.jobs, job_identity) && !proof_accepted(
                old(self)@.cluster,
                job_identity,
                *output,
            ) ==> (r == Err::<ScoresProcessedEvent, ErrorCode>(ErrorCode::AbortedComputation)
                && final(self)@.results == old(self)@.results && final(self)@.events == old(
                self,
            )@.events && (job_for(old(self)@.jobs, job_identity) matches Some(job) && job_for(
                final(self)@.jobs,
                job_identity,
            ) == Some(aborted(job))) && (forall|o: u64|
                o != job_identity ==> job_for(final(self)@.jobs, o) == job_for(
                    old(self)@.jobs,
                    o,
                ))),
            pending_at(old(self)@.jobs, job_identity) && proof_accepted(
                old(self)@.cluster,
                job_identity,
                *output,
            ) ==> (job_for(old(self)@.jobs, job_identity) matches Some(job) && {
                &&& job_for(final(self)@.jobs, job_identity) == Some(completed(job))
                &&& forall|o: u64|
                    o != job_identity ==> job_for(final(self)@.jobs, o) == job_for(
                        old(self)@.jobs,
                        o,
                    )
                &&& r matches Ok(ev) && {
                    &&& ev.owner == job.request.owner
                    &&& ev.encrypted_result == output.ciphertexts@[0]
                    &&& ev.nonce@ == spec_u128_to_le_bytes(output.nonce)
                    &&& final(self)@.events == old(self)@.events.push(ev)
                }
                &&& result_for(final(self)@.results, job.request.owner@) matches Some(stored)
                    && {
                    &&& stored.owner == job.request.owner
                    &&& stored.encrypted_result == output.ciphertexts@[0]
                    &&& stored.nonce@ == spec_u128_to_le_bytes(output.nonce)
                    &&& stored.processed_at == timestamp
                    &&& stored.version == RESULT_VERSION
                }
                &&& forall|ow: Seq<u8>|
                    ow != job.request.owner@ ==> result_for(final(self)@.results, ow)
                        == result_for(old(self)@.results, ow)
            }),
    {
        let ghost orig = self.jobs@;
        let i = match self.find_job_index(job_identity) {
            None => {
                return Err(ErrorCode::StaleCallback);
            },
            Some(i) => i,
        };
        if !matches!(self.jobs[i].status, JobStatus::Pending) {
            return Err(ErrorCode::StaleCallback);
        }
        let accepted: bool = match &self.cluster {
            None => false,
            Some(c) => output.proof.offset == job_identity && bytes32_eq(
                &output.proof.cluster,
                c,
            ),
        };
        let job = self.jobs[i];
        if !accepted {
            let moved = ComputationJob { status: JobStatus::Aborted, ..job };
            proof {
                lemma_job_for_update(orig, i as int, moved);
            }
            self.jobs[i] = moved;
            proof {
                assert(self.jobs@ == orig.update(i as int, moved));
                assert forall|p: int, q: int|
                    0 <= p < q < self.jobs@.len() implies self.jobs@[p].offset
                    != self.jobs@[q].offset by {
                    assert(orig[p].offset != orig[q].offset);
                }
            }
            return Err(ErrorCode::AbortedComputation);
        }
        let moved = ComputationJob { status: JobStatus::Completed, ..job };
        proof {
            lemma_job_for_update(orig, i as int, moved);
        }
        self.jobs[i] = moved;
        proof {
            assert(self.jobs@ == orig.update(i as int, moved));
            assert forall|p: int, q: int|
                0 <= p < q < self.jobs@.len() implies self.jobs@[p].offset
                != self.jobs@[q].offset by {
                assert(orig[p].offset != orig[q].offset);
            }
        }
        let nonce_bytes = nonce_le_bytes(output.nonce);
        let encrypted_result = output.ciphertexts[0];
        let slot = ScoreResult {
            owner: job.request.owner,
            encrypted_result,
            nonce: nonce_bytes,
            processed_at: timestamp,
            version: RESULT_VERSION,
        };
        self.store_result(slot);
        let ev = ScoresProcessedEvent {
            encrypted_result,
            nonce: nonce_bytes,
            owner: job.request.owner,
        };
        self.events.push(ev);
        Ok(ev)
    }

    /// Overwrite the one result slot of `res.owner`, creating it on the
    /// owner's first verified result. Reached only from a successfully
    /// verified callback.
    fn store_result(&mut self, res: ScoreResult)
        requires
            old(self).inv(),
        ensures
            final(self).inv(),
            final(self)@.cluster == old(self)@.cluster,
            final(self)@.jobs == old(self)@.jobs,
            final(self)@.events == old(self)@.events,
            result_for(final(self)@.results, res.owner@) == Some(res),
            forall|ow: Seq<u8>|
                ow != res.owner@ ==> result_for(final(self)@.results, ow) == result_for(
                    old(self)@.results,
                    ow,
                ),
    {
        let ghost orig = self.results@;
        match self.find_result_index(&res.owner) {
            Some(i) => {
                proof {
                    lemma_result_for_update(orig, i as int, res);
                }
                self.results[i] = res;
                proof {
                    assert(self.results@ == orig.update(i as int, res));
                    assert forall|p: int, q: int|
                        0 <= p < q < self.results@.len() implies self.results@[p].owner@
                        != self.results@[q].owner@ by {
                        assert(orig[p].owner@ != orig[q].owner@);
                    }
                }
            },
            None => {
                proof {
                    assert forall|ow: Seq<u8>| #![trigger result_for(orig.push(res), ow)]
                        true implies result_for(orig.push(res), ow) == (match result_for(
                        orig,
                        ow,
                    ) {
                        Some(found) => Some(found),
                        None => if res.owner@ == ow {
                            Some(res)
                        } else {
                            None::<ScoreResult>
                        },
                    }) by {
                        lemma_result_for_push(orig, res, ow);
                    }
                }
                self.results.push(res);
                proof {
                    assert(self.results@ == orig.push(res));
                    assert forall|p: int, q: int|
                        0 <= p < q < self.results@.len() implies self.results@[p].owner@
                        != self.results@[q].owner@ by {
                        if q < orig.len() {
                            assert(orig[p].owner@ != orig[q].owner@);
                        } else {
                            assert(self.results@[q] == res);
                            assert(orig[p].owner@ != res.owner@);
                        }
                    }
                }
            },
        }
    }

    /// The latest stored result of `owner`, or `None` where no verified
    /// result has ever been stored for it.
    pub fn get(&self, owner: &[u8; 32]) -> (r: Option<ScoreResult>)
        ensures
            r == result_for(self@.results, owner@),
    {
        match self.find_result_index(owner) {
            Some(i) => Some(self.results[i]),
            None => None,
        }
    }

    /// The lifecycle state of the job named by `offset`, or `None` where
    /// the offset names no job.
    pub fn job_status(&self, offset: u64) -> (r: Option<JobStatus>)
        ensures
            r is None <==> job_for(self@.jobs, offset) is None,
            job_for(self@.jobs, offset) matches Some(job) ==> r == Some(job.status),
    {
        match self.find_job_index(offset) {
            Some(i) => Some(self.jobs[i].status),
            None => None,
        }
    }

    /// The request dispatched for the job named by `offset`, or `None`
    /// where the offset names no job. The queue's read side: a dispatcher
    /// packages this request and hands it to the cluster.
    pub fn job_request(&self, offset: u64) -> (r: Option<EncryptedRequest>)
        ensures
            r is None <==> job_for(self@.jobs, offset) is None,
            job_for(self@.jobs, offset) matches Some(job) ==> r == Some(job.request),
    {
        match self.find_job_index(offset) {
            Some(i) => Some(self.jobs[i].request),
            None => None,
        }
    }

    /// How many result-ready events have been emitted so far.
    pub fn event_count(&self) -> (n: usize)
        ensures
            n == self@.events.len(),
    {
        self.events.len()
    }

    /// The `i`-th emitted event, in emission order.
    pub fn event_at(&self, i: usize) -> (e: ScoresProcessedEvent)
        requires
            i < self@.events.len(),
        ensures
            e == self@.events[i as int],
    {
        self.events[i]
    }

    /// Whether a cluster identity is configured.
    pub fn cluster_is_set(&self) -> (b: bool)
        ensures
            b == (self@.cluster is Some),
    {
        self.cluster.is_some()
    }

    fn find_job_index(&self, offset: u64) -> (r: Option<usize>)
        ensures
            r is None ==> job_for(self@.jobs, offset) is None,
            r is None ==> forall|k: int|
                0 <= k < self@.jobs.len() ==> self@.jobs[k].offset != offset,
            r matches Some(i) ==> i < self@.jobs.len() && self@.jobs[i as int].offset == offset
                && (forall|k: int| 0 <= k < i ==> self@.jobs[k].offset != offset) && job_for(
                self@.jobs,
                offset,
            ) == Some(self@.jobs[i as int]),
    {
        let n = self.jobs.len();
        let mut k: usize = 0;
        while k < n
            invariant
                n == self.jobs@.len(),
                0 <= k <= n,
                forall|j: int| 0 <= j < k ==> self.jobs@[j].offset != offset,
            decreases n - k,
        {
            if self.jobs[k].offset == offset {
                proof {
                    lemma_job_for_at(self.jobs@, k as int);
                }
                return Some(k);
            }
            k = k + 1;
        }
        proof {
            lemma_job_for_none(self.jobs@, offset);
        }
        None
    }

    fn find_result_index(&self, owner: &[u8; 32]) -> (r: Option<usize>)
        ensures
            r is None ==> result_for(self@.results, owner@) is None,
            r is None ==> forall|k: int|
                0 <= k < self@.results.len() ==> self@.results[k].owner@ != owner@,
            r matches Some(i) ==> i < self@.results.len() && self@.results[i as int].owner@
                == owner@ && (forall|k: int|
                0 <= k < i ==> self@.results[k].owner@ != owner@) && result_for(
                self@.results,
                owner@,
            ) == Some(self@.results[i as int]),
    {
        let n = self.results.len();
        let mut k: usize = 0;
        while k < n
            invariant
                n == self.results@.len(),
                0 <= k <= n,
                forall|j: int| 0 <= j < k ==> self.results@[j].owner@ != owner@,
            decreases n - k,
        {
            if bytes32_eq(&self.results[k].owner, owner) {
                proof {
                    lemma_result_for_at(self.results@, k as int);
                }
                return Some(k);
            }
            k = k + 1;
        }
        proof {
            lemma_result_for_none(self.results@, owner@);
        }
        None
    }
}

fn bytes32_eq(a: &[u8; 32], b: &[u8; 32]) -> (r: bool)
    ensures
        r == (a@ == b@),
{
    let mut i: usize = 0;
    while i < 32
        invariant
            0 <= i <= 32,
            forall|j: int| 0 <= j < i ==> a@[j] == b@[j],
        decreases 32 - i,
    {
        if a[i] != b[i] {
            return false;
        }
        i = i + 1;
    }
    proof {
        assert(a@ =~= b@);
    }
    true
}

} // verus!
