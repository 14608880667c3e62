use nahualli::types::EncryptedRequest;
use nahualli::types::ScoreResult;
use nahualli::types::QUEUE_ARGS_BYTES;
use nahualli::types::RESULT_VERSION;
use nahualli::types::SCORE_RESULT_BYTES;

#[test]
fn queue_args_layout_is_pubkey_nonce_ciphertext_count() {
    let req = EncryptedRequest {
        ciphertext: [3; 32],
        ephemeral_pubkey: [1; 32],
        nonce: 0x99AA_BBCC_DDEE_FF00u128,
        count: 5,
        owner: [9; 32],
    };
    let args = req.queue_args();
    assert_eq!(args.len(), QUEUE_ARGS_BYTES);
    assert_eq!(&args[0..32], &[1; 32]);
    assert_eq!(&args[32..48], &0x99AA_BBCC_DDEE_FF00u128.to_le_bytes());
    assert_eq!(&args[48..80], &[3; 32]);
    assert_eq!(args[80], 5);
}

#[test]
fn score_result_layout_is_owner_result_nonce_stamp_version() {
    let res = ScoreResult {
        owner: [1; 32],
        encrypted_result: [2; 32],
        nonce: 0x1122_3344_5566_7788_99AA_BBCC_DDEE_FF00u128.to_le_bytes(),
        processed_at: 0x0102_0304_0506_0708,
        version: RESULT_VERSION,
    };
    let bytes = res.to_bytes();
    assert_eq!(bytes.len(), SCORE_RESULT_BYTES);
    assert_eq!(&bytes[0..32], &[1; 32]);
    assert_eq!(&bytes[32..64], &[2; 32]);
    assert_eq!(
        &bytes[64..80],
        &0x1122_3344_5566_7788_99AA_BBCC_DDEE_FF00u128.to_le_bytes()
    );
    assert_eq!(&bytes[80..88], &[8, 7, 6, 5, 4, 3, 2, 1]);
    assert_eq!(bytes[88], RESULT_VERSION);
}

#[test]
fn score_result_layout_keeps_negative_stamps() {
    let res = ScoreResult {
        owner: [0; 32],
        encrypted_result: [0; 32],
        nonce: [0; 16],
        processed_at: -1,
        version: RESULT_VERSION,
    };
    let bytes = res.to_bytes();
    assert_eq!(&bytes[80..88], &[0xFF; 8]);
}
