use nahualli::error::ErrorCode;
use nahualli::protocol::ProtocolState;
use nahualli::types::ComputationProof;
use nahualli::types::JobStatus;
use nahualli::types::SignedComputationOutput;
use nahualli::types::RESULT_VERSION;

const CLUSTER: [u8; 32] = [0xAB; 32];
const OWNER: [u8; 32] = [9; 32];
const PUBKEY: [u8; 32] = [2; 32];
const CIPHERTEXT: [u8; 32] = [7; 32];

fn configured_state() -> ProtocolState {
    let mut s = ProtocolState::new();
    s.init_process_scores_comp_def(CLUSTER);
    s
}

fn output_for(offset: u64, nonce: u128, result: [u8; 32]) -> SignedComputationOutput {
    SignedComputationOutput {
        ciphertexts: vec![result],
        nonce,
        proof: ComputationProof { cluster: CLUSTER, offset },
    }
}

#[test]
fn fresh_state_is_empty() {
    let s = ProtocolState::new();
    assert!(!s.cluster_is_set());
    assert_eq!(s.job_status(0), None);
    assert_eq!(s.job_request(0), None);
    assert_eq!(s.get(&OWNER), None);
    assert_eq!(s.event_count(), 0);
}

#[test]
fn submission_records_the_dispatched_request() {
    let mut s = configured_state();
    assert_eq!(s.process_scores(7, CIPHERTEXT, 3, PUBKEY, 5, OWNER), Ok(()));
    let req = s.job_request(7).expect("job recorded");
    assert_eq!(req.ciphertext, CIPHERTEXT);
    assert_eq!(req.ephemeral_pubkey, PUBKEY);
    assert_eq!(req.nonce, 5);
    assert_eq!(req.count, 3);
    assert_eq!(req.owner, OWNER);
}

#[test]
fn submit_rejects_count_zero() {
    let mut s = configured_state();
    let r = s.process_scores(1, CIPHERTEXT, 0, PUBKEY, 5, OWNER);
    assert_eq!(r, Err(ErrorCode::InvalidScoreCount));
    assert_eq!(s.job_status(1), None);
}

#[test]
fn submit_rejects_count_above_eight() {
    let mut s = configured_state();
    for count in [9u8, 16, 255] {
        let r = s.process_scores(1, CIPHERTEXT, count, PUBKEY, 5, OWNER);
        assert_eq!(r, Err(ErrorCode::InvalidScoreCount));
    }
    assert_eq!(s.job_status(1), None);
}

#[test]
fn submit_accepts_bounds_of_count_range() {
    let mut s = configured_state();
    assert_eq!(s.process_scores(1, CIPHERTEXT, 1, PUBKEY, 5, OWNER), Ok(()));
    assert_eq!(s.process_scores(2, CIPHERTEXT, 8, PUBKEY, 5, OWNER), Ok(()));
    assert_eq!(s.job_status(1), Some(JobStatus::Pending));
    assert_eq!(s.job_status(2), Some(JobStatus::Pending));
}

#[test]
fn submit_requires_configured_cluster() {
    let mut s = ProtocolState::new();
    let r = s.process_scores(1, CIPHERTEXT, 3, PUBKEY, 5, OWNER);
    assert_eq!(r, Err(ErrorCode::ClusterNotSet));
    assert_eq!(s.job_status(1), None);
    assert!(!s.cluster_is_set());
}

#[test]
fn submit_rejects_pending_offset() {
    let mut s = configured_state();
    assert_eq!(s.process_scores(7, CIPHERTEXT, 3, PUBKEY, 5, OWNER), Ok(()));
    let r = s.process_scores(7, CIPHERTEXT, 3, PUBKEY, 6, OWNER);
    assert_eq!(r, Err(ErrorCode::DuplicateOffset));
    assert_eq!(s.job_status(7), Some(JobStatus::Pending));
}

#[test]
fn submit_allows_distinct_offsets() {
    let mut s = configured_state();
    assert_eq!(s.process_scores(7, CIPHERTEXT, 3, PUBKEY, 5, OWNER), Ok(()));
    assert_eq!(s.process_scores(8, CIPHERTEXT, 3, PUBKEY, 5, [1; 32]), Ok(()));
    assert_eq!(s.job_status(7), Some(JobStatus::Pending));
    assert_eq!(s.job_status(8), Some(JobStatus::Pending));
}

#[test]
fn submit_reuses_terminal_offset() {
    let mut s = configured_state();
    assert_eq!(s.process_scores(7, CIPHERTEXT, 3, PUBKEY, 5, OWNER), Ok(()));
    let forged = SignedComputationOutput {
        ciphertexts: vec![[4; 32]],
        nonce: 5,
        proof: ComputationProof { cluster: [0; 32], offset: 7 },
    };
    assert_eq!(
        s.process_scores_callback(7, &forged, 100),
        Err(ErrorCode::AbortedComputation)
    );
    assert_eq!(s.job_status(7), Some(JobStatus::Aborted));
    assert_eq!(s.process_scores(7, CIPHERTEXT, 3, PUBKEY, 6, OWNER), Ok(()));
    assert_eq!(s.job_status(7), Some(JobStatus::Pending));
}

#[test]
fn callback_rejects_forged_cluster_identity() {
    let mut s = configured_state();
    assert_eq!(s.process_scores(7, CIPHERTEXT, 3, PUBKEY, 5, OWNER), Ok(()));
    let forged = SignedComputationOutput {
        ciphertexts: vec![[4; 32]],
        nonce: 5,
        proof: ComputationProof { cluster: [0xCD; 32], offset: 7 },
    };
    let r = s.process_scores_callback(7, &forged, 100);
    assert_eq!(r, Err(ErrorCode::AbortedComputation));
    assert_eq!(s.job_status(7), Some(JobStatus::Aborted));
    assert_eq!(s.get(&OWNER), None);
    assert_eq!(s.event_count(), 0);
}

#[test]
fn callback_rejects_cross_job_replay() {
    let mut s = configured_state();
    assert_eq!(s.process_scores(7, CIPHERTEXT, 3, PUBKEY, 5, OWNER), Ok(()));
    let replayed = output_for(8, 5, [4; 32]);
    let r = s.process_scores_callback(7, &replayed, 100);
    assert_eq!(r, Err(ErrorCode::AbortedComputation));
    assert_eq!(s.job_status(7), Some(JobStatus::Aborted));
    assert_eq!(s.get(&OWNER), None);
    assert_eq!(s.event_count(), 0);
}

#[test]
fn callback_rejects_unknown_job() {
    let mut s = configured_state();
    let out = output_for(42, 5, [4; 32]);
    let r = s.process_scores_callback(42, &out, 100);
    assert_eq!(r, Err(ErrorCode::StaleCallback));
    assert_eq!(s.get(&OWNER), None);
    assert_eq!(s.event_count(), 0);
}

#[test]
fn callback_stores_result_for_submitting_owner() {
    let mut s = configured_state();
    assert_eq!(s.process_scores(7, CIPHERTEXT, 3, PUBKEY, 5, OWNER), Ok(()));
    let out = output_for(7, 77, [4; 32]);
    let r = s.process_scores_callback(7, &out, 1234).expect("verified callback");
    assert_eq!(s.job_status(7), Some(JobStatus::Completed));
    let stored = s.get(&OWNER).expect("result stored");
    assert_eq!(stored.owner, OWNER);
    assert_eq!(stored.encrypted_result, [4; 32]);
    assert_eq!(stored.nonce, 77u128.to_le_bytes());
    assert_eq!(stored.processed_at, 1234);
    assert_eq!(stored.version, RESULT_VERSION);
    assert_eq!(s.get(&[1; 32]), None);
    assert_eq!(s.event_count(), 1);
    assert_eq!(r.owner, OWNER);
    assert_eq!(r.encrypted_result, [4; 32]);
    assert_eq!(r.nonce, 77u128.to_le_bytes());
    assert_eq!(s.event_at(0), r);
}

#[test]
fn redelivered_callback_is_a_no_op() {
    let mut s = configured_state();
    assert_eq!(s.process_scores(7, CIPHERTEXT, 3, PUBKEY, 5, OWNER), Ok(()));
    let out = output_for(7, 77, [4; 32]);
    s.process_scores_callback(7, &out, 1234).expect("verified callback");
    let again = output_for(7, 99, [8; 32]);
    let r = s.process_scores_callback(7, &again, 9999);
    assert_eq!(r, Err(ErrorCode::StaleCallback));
    let stored = s.get(&OWNER).expect("result kept");
    assert_eq!(stored.encrypted_result, [4; 32]);
    assert_eq!(stored.nonce, 77u128.to_le_bytes());
    assert_eq!(stored.processed_at, 1234);
    assert_eq!(s.event_count(), 1);
}

#[test]
fn second_verified_result_replaces_the_first() {
    let mut s = configured_state();
    assert_eq!(s.process_scores(7, CIPHERTEXT, 3, PUBKEY, 5, OWNER), Ok(()));
    s.process_scores_callback(7, &output_for(7, 5, [4; 32]), 100).expect("first callback");
    assert_eq!(s.process_scores(8, CIPHERTEXT, 4, PUBKEY, 6, OWNER), Ok(()));
    s.process_scores_callback(8, &output_for(8, 6, [5; 32]), 200).expect("second callback");
    let stored = s.get(&OWNER).expect("result kept");
    assert_eq!(stored.encrypted_result, [5; 32]);
    assert_eq!(stored.nonce, 6u128.to_le_bytes());
    assert_eq!(stored.processed_at, 200);
    assert_eq!(s.event_count(), 2);
}

#[test]
fn aborted_callback_keeps_earlier_result() {
    let mut s = configured_state();
    assert_eq!(s.process_scores(7, CIPHERTEXT, 3, PUBKEY, 5, OWNER), Ok(()));
    s.process_scores_callback(7, &output_for(7, 5, [4; 32]), 100).expect("first callback");
    assert_eq!(s.process_scores(8, CIPHERTEXT, 3, PUBKEY, 6, OWNER), Ok(()));
    let forged = SignedComputationOutput {
        ciphertexts: vec![[6; 32]],
        nonce: 6,
        proof: ComputationProof { cluster: [0; 32], offset: 8 },
    };
    assert_eq!(
        s.process_scores_callback(8, &forged, 200),
        Err(ErrorCode::AbortedComputation)
    );
    let stored = s.get(&OWNER).expect("result kept");
    assert_eq!(stored.encrypted_result, [4; 32]);
    assert_eq!(stored.processed_at, 100);
    assert_eq!(s.event_count(), 1);
}
