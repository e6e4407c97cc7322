use fileserve_core::auth::AuthManager;
use fileserve_core::upload::{ResumableUploadManager, UploadError};
use fileserve_core::{DEFAULT_CHUNK_SIZE, SESSION_TTL_SECS};

const NOW: u64 = 1_700_000_000;

#[test]
fn authenticate_and_validate_until_expiry() {
    let mut m = AuthManager::new();
    assert!(m.register_credential("admin", "admin123"));
    let token = m.authenticate("admin", "admin123", NOW).expect("good credentials");
    assert_eq!(token.len(), 64);
    assert!(m.is_valid_token(&token, NOW));
    assert!(m.is_valid_token(&token, NOW + SESSION_TTL_SECS - 1));
    // at the expiry instant and beyond the token is dead, and evicted
    assert!(!m.is_valid_token(&token, NOW + SESSION_TTL_SECS));
    assert!(m.get_session_info(&token).is_none());
}

#[test]
fn tokens_are_fresh_per_login() {
    let mut m = AuthManager::new();
    assert!(m.register_credential("admin", "admin123"));
    let t1 = m.authenticate("admin", "admin123", NOW).unwrap();
    let t2 = m.authenticate("admin", "admin123", NOW).unwrap();
    assert_ne!(t1, t2);
    assert!(m.is_valid_token(&t1, NOW));
    assert!(m.is_valid_token(&t2, NOW));
}

#[test]
fn authenticate_rejects_wrong_secret_and_unknown_user() {
    let mut m = AuthManager::new();
    assert!(m.register_credential("admin", "admin123"));
    assert!(m.authenticate("admin", "wrong", NOW).is_none());
    assert!(m.authenticate("nobody", "admin123", NOW).is_none());
}

#[test]
fn unissued_tokens_never_validate() {
    let mut m = AuthManager::new();
    assert!(m.register_credential("admin", "admin123"));
    let token = m.authenticate("admin", "admin123", NOW).unwrap();
    // a large sample of made-up tokens, none of them issued
    for i in 0..512u32 {
        let fake = format!("{:064x}", i);
        if fake != token {
            assert!(!m.is_valid_token(&fake, NOW));
        }
    }
    assert!(!m.is_valid_token("", NOW));
    assert!(!m.is_valid_token("session", NOW));
}

#[test]
fn session_info_and_logout() {
    let mut m = AuthManager::new();
    assert!(m.register_credential("u", "pw"));
    let token = m.authenticate("u", "pw", NOW).unwrap();
    let info = m.get_session_info(&token).expect("session stored");
    assert_eq!(info.username, "u");
    assert_eq!(info.created_at, NOW);
    assert_eq!(info.expires_at, NOW + SESSION_TTL_SECS);
    assert!(m.logout(&token));
    assert!(!m.logout(&token));
    assert!(!m.is_valid_token(&token, NOW));
}

#[test]
fn invalidate_token_removes_session() {
    let mut m = AuthManager::new();
    assert!(m.register_credential("u", "pw"));
    let token = m.authenticate("u", "pw", NOW).unwrap();
    assert!(m.invalidate_token(&token));
    assert!(!m.invalidate_token(&token));
}

#[test]
fn cleanup_drops_only_expired_sessions() {
    let mut m = AuthManager::new();
    assert!(m.register_credential("u", "pw"));
    let early = m.authenticate("u", "pw", NOW).unwrap();
    let late = m.authenticate("u", "pw", NOW + 3000).unwrap();
    m.cleanup_expired_sessions(NOW + SESSION_TTL_SECS + 10);
    assert!(m.get_session_info(&early).is_none());
    assert!(m.get_session_info(&late).is_some());
}

#[test]
fn register_is_idempotent_per_username() {
    let mut m = AuthManager::new();
    assert!(m.register_credential("u", "pw"));
    assert!(m.register_credential("u", "pw"));
    assert!(m.authenticate("u", "pw", NOW).is_some());
    // re-registering with a new secret replaces the old one
    assert!(m.register_credential("u", "other"));
    assert!(m.authenticate("u", "pw", NOW).is_none());
    assert!(m.authenticate("u", "other", NOW).is_some());
}

#[test]
fn stored_key_decides_derived_authentication() {
    let mut m = AuthManager::new();
    let salt: Vec<u8> = vec![7; 16];
    let key: Vec<u8> = (0..32u8).collect();
    m.store_credential("u", salt, key.clone());
    let token = m.authenticate_derived("u", &key, NOW).expect("matching key is owed a session");
    assert!(m.is_valid_token(&token, NOW));
    let wrong: Vec<u8> = (1..33u8).collect();
    assert!(m.authenticate_derived("u", &wrong, NOW).is_none());
    assert!(m.authenticate_derived("nobody", &key, NOW).is_none());
}

#[test]
fn finished_data_leaves_session_for_retry() {
    let mut m = ResumableUploadManager::new("/tmp/uploads");
    let id = m.create_session("e.bin", 4, NOW).unwrap();
    assert_eq!(m.finished_data(&id), Err(UploadError::IncompleteUpload));
    assert_eq!(m.upload_chunk(&id, &[4, 3, 2, 1], 0), Ok(4));
    assert_eq!(m.finished_data(&id).unwrap(), &vec![4, 3, 2, 1]);
    // looking at the bytes releases nothing: the session is still there
    assert!(m.get_session(&id).is_some());
    assert_eq!(m.complete_upload(&id).unwrap(), vec![4, 3, 2, 1]);
    assert_eq!(m.finished_data(&id), Err(UploadError::SessionNotFound));
}

#[test]
fn upload_single_chunk_roundtrip() {
    let mut m = ResumableUploadManager::new("/tmp/uploads");
    let id = m.create_session("a.bin", 10, NOW).expect("valid arguments");
    assert_eq!(id.len(), 32);
    let s = m.get_session(&id).expect("stored");
    assert_eq!(s.total_size, 10);
    assert_eq!(s.uploaded_size, 0);
    assert_eq!(s.chunk_size, DEFAULT_CHUNK_SIZE);
    assert_eq!(s.file_path, format!("/tmp/uploads/{}.partial", id));
    let bytes: Vec<u8> = (0..10u8).collect();
    assert_eq!(m.upload_chunk(&id, &bytes, 0), Ok(10));
    let data = m.complete_upload(&id).expect("fully covered");
    assert_eq!(data, bytes);
    assert!(m.get_session(&id).is_none());
    assert_eq!(m.complete_upload(&id), Err(UploadError::SessionNotFound));
}

#[test]
fn out_of_order_partition_reconstructs_concatenation() {
    let mut m = ResumableUploadManager::new("/tmp/uploads");
    let id = m.create_session("b.bin", 10, NOW).unwrap();
    // chunks arrive out of offset order but partition [0, 10)
    assert_eq!(m.upload_chunk(&id, &[5, 6, 7, 8, 9], 5), Ok(10));
    assert_eq!(m.upload_chunk(&id, &[0, 1, 2, 3, 4], 0), Ok(10));
    let data = m.complete_upload(&id).unwrap();
    assert_eq!(data, vec![0, 1, 2, 3, 4, 5, 6, 7, 8, 9]);
}

#[test]
fn incomplete_upload_is_refused_and_state_kept() {
    let mut m = ResumableUploadManager::new("/tmp/uploads");
    let id = m.create_session("c.bin", 10, NOW).unwrap();
    assert_eq!(m.upload_chunk(&id, &[1, 2, 3, 4, 5], 0), Ok(5));
    assert_eq!(m.complete_upload(&id), Err(UploadError::IncompleteUpload));
    let s = m.get_session(&id).expect("session kept for retry");
    assert_eq!(s.uploaded_size, 5);
    // a high-water mark at the end is not enough: [5,10) was never written
    assert_eq!(m.upload_chunk(&id, &[9], 9), Ok(10));
    assert_eq!(m.complete_upload(&id), Err(UploadError::IncompleteUpload));
    assert_eq!(m.upload_chunk(&id, &[5, 6, 7, 8], 5), Ok(10));
    assert_eq!(
        m.complete_upload(&id).unwrap(),
        vec![1, 2, 3, 4, 5, 5, 6, 7, 8, 9]
    );
}

#[test]
fn oversize_chunk_rejected_without_moving_high_water_mark() {
    let mut m = ResumableUploadManager::new("/tmp/uploads");
    let id = m.create_session("d.bin", 10, NOW).unwrap();
    assert_eq!(m.upload_chunk(&id, &[1, 2, 3], 0), Ok(3));
    assert_eq!(
        m.upload_chunk(&id, &[0; 8], 5),
        Err(UploadError::RangeExceedsTotal)
    );
    assert_eq!(m.get_session(&id).unwrap().uploaded_size, 3);
    assert_eq!(
        m.upload_chunk(&id, &[0], u64::MAX),
        Err(UploadError::RangeExceedsTotal)
    );
    assert_eq!(m.get_session(&id).unwrap().uploaded_size, 3);
}

#[test]
fn sessions_progress_independently() {
    let mut m = ResumableUploadManager::new("/tmp/uploads");
    let a = m.create_session("a.bin", 4, NOW).unwrap();
    let b = m.create_session("b.bin", 6, NOW).unwrap();
    assert_eq!(m.upload_chunk(&a, &[1, 2], 0), Ok(2));
    assert_eq!(m.get_session(&b).unwrap().uploaded_size, 0);
    assert_eq!(m.upload_chunk(&b, &[9, 9, 9], 0), Ok(3));
    assert_eq!(m.get_session(&a).unwrap().uploaded_size, 2);
    assert_eq!(m.upload_chunk(&a, &[3, 4], 2), Ok(4));
    assert_eq!(m.upload_chunk(&b, &[8, 8, 8], 3), Ok(6));
    assert_eq!(m.complete_upload(&a).unwrap(), vec![1, 2, 3, 4]);
    assert_eq!(m.complete_upload(&b).unwrap(), vec![9, 9, 9, 8, 8, 8]);
}

#[test]
fn create_session_rejects_bad_arguments() {
    let mut m = ResumableUploadManager::new("/tmp/uploads");
    assert_eq!(
        m.create_session("a.bin", 0, NOW),
        Err(UploadError::InvalidArgument)
    );
    assert_eq!(
        m.create_session("", 10, NOW),
        Err(UploadError::InvalidArgument)
    );
    assert_eq!(
        m.create_session("a/b.bin", 10, NOW),
        Err(UploadError::InvalidArgument)
    );
    assert_eq!(
        m.create_session("..", 10, NOW),
        Err(UploadError::InvalidArgument)
    );
    assert_eq!(
        m.upload_chunk("missing", &[1], 0),
        Err(UploadError::SessionNotFound)
    );
}

#[test]
fn sweep_reclaims_abandoned_sessions() {
    let mut m = ResumableUploadManager::new("/tmp/uploads");
    let stale = m.create_session("old.bin", 4, NOW).unwrap();
    let fresh = m.create_session("new.bin", 4, NOW + 900).unwrap();
    m.sweep(NOW + 1000, 200);
    assert!(m.get_session(&stale).is_none());
    assert!(m.get_session(&fresh).is_some());
}

#[test]
fn progress_percent_reports_share_of_total() {
    let mut m = ResumableUploadManager::new("/tmp/uploads");
    let id = m.create_session("p.bin", 10, NOW).unwrap();
    m.upload_chunk(&id, &[0; 5], 0).unwrap();
    assert_eq!(m.get_session(&id).unwrap().progress_percent(), 50);
}
