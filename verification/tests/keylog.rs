use tlscap::keylog::{Keylog, SecretLabel};
use tlscap::keylog_source::{FileSignature, KeylogRead, KeylogSource};
use tlscap::time::Duration;

fn read(text: &str, modified: u128) -> KeylogRead {
    KeylogRead {
        text: text.to_string(),
        signature: FileSignature {
            modified: Some(modified),
            len: Some(text.len() as u64),
        },
    }
}

fn signature_of(text: &str, modified: u128) -> FileSignature {
    FileSignature {
        modified: Some(modified),
        len: Some(text.len() as u64),
    }
}

#[test]
fn poll_reloads_after_the_interval_elapses() {
    let mut source = KeylogSource::open(
        Some(read("", 1)),
        Duration::from_millis(0),
        Duration::zero(),
    );
    let now = Duration::from_millis(1);
    assert!(source.poll(now));
    source.reload(now, Some(read("CLIENT_RANDOM aa bb\r\n", 2)));
    assert_eq!(source.current().entry_count(), 1);
}

#[test]
fn poll_does_not_reload_before_the_interval_elapses() {
    let source = KeylogSource::open(
        Some(read("", 1)),
        Duration::from_secs(3600),
        Duration::zero(),
    );
    assert!(!source.poll(Duration::from_millis(1)));
    assert!(!source.poll(Duration::from_secs(3599)));
    assert!(source.poll(Duration::from_secs(3600)));
    assert_eq!(source.current().entry_count(), 0);
}

#[test]
fn poll_after_miss_reloads_immediately_when_the_file_changed() {
    let mut source = KeylogSource::open(
        Some(read("", 1)),
        Duration::from_secs(3600),
        Duration::zero(),
    );
    let now = Duration::from_millis(20);
    let text = "CLIENT_RANDOM aa bb\r\n";
    assert!(source.poll_after_miss(signature_of(text, 2)));
    source.reload(now, Some(read(text, 2)));
    assert_eq!(source.current().entry_count(), 1);
    assert!(!source.poll_after_miss(signature_of(text, 2)));
}

#[test]
fn poll_after_miss_is_a_no_op_when_the_file_did_not_change() {
    let source = KeylogSource::open(
        Some(read("", 1)),
        Duration::from_secs(3600),
        Duration::zero(),
    );
    assert!(!source.poll_after_miss(signature_of("", 1)));
    assert_eq!(source.current().entry_count(), 0);
}

#[test]
fn a_transient_read_error_keeps_the_last_known_good_keylog() {
    let mut source = KeylogSource::open(
        Some(read("CLIENT_RANDOM aa bb\r\n", 1)),
        Duration::from_millis(0),
        Duration::zero(),
    );
    assert_eq!(source.current().entry_count(), 1);
    assert!(source.poll(Duration::zero()));
    source.reload(Duration::zero(), None);
    assert_eq!(
        source.current().entry_count(),
        1,
        "a failed reload must not clear out the last-known-good keylog"
    );
}

#[test]
fn open_tolerates_a_not_yet_existing_keylog_file() {
    let mut source = KeylogSource::open(None, Duration::from_millis(0), Duration::zero());
    assert_eq!(source.current().entry_count(), 0);
    let now = Duration::from_millis(5);
    assert!(source.poll(now));
    source.reload(now, Some(read("CLIENT_RANDOM aa bb\r\n", 1)));
    assert_eq!(
        source.current().entry_count(),
        1,
        "poll() must pick up the keylog once it's created, same as any other reload"
    );
}

#[test]
fn from_parsed_never_reloads() {
    let mut source = KeylogSource::from_parsed(Keylog::parse("CLIENT_RANDOM aa bb\r\n"));
    let text = "CLIENT_RANDOM cc dd\r\nCLIENT_RANDOM ee ff\r\n";
    assert!(!source.poll(Duration::from_secs(1_000_000)));
    assert!(!source.poll_after_miss(signature_of(text, 9)));
    assert!(!source.has_file());
    source.reload(Duration::from_secs(1), Some(read(text, 9)));
    assert_eq!(source.current().entry_count(), 1);
}

#[test]
fn secrets_are_found_by_random_and_label() {
    let keylog = Keylog::parse(
        "# a comment\n\
         CLIENT_RANDOM AAbb 0102\r\n\
         CLIENT_TRAFFIC_SECRET_0 aabb 03\n\
         SERVER_TRAFFIC_SECRET_0 aabb 04\n\
         CLIENT_HANDSHAKE_TRAFFIC_SECRET aabb 05\n\
         SERVER_HANDSHAKE_TRAFFIC_SECRET aabb 06\n\
         EXPORTER_SECRET aabb 07\n",
    );
    let random = [0xaa, 0xbb];
    assert_eq!(
        keylog.secret_for(&random, SecretLabel::ClientRandom),
        Some(&[1u8, 2][..])
    );
    assert_eq!(
        keylog.secret_for(&random, SecretLabel::ClientTrafficSecret0),
        Some(&[3u8][..])
    );
    assert_eq!(
        keylog.secret_for(&random, SecretLabel::ServerTrafficSecret0),
        Some(&[4u8][..])
    );
    assert_eq!(
        keylog.secret_for(&random, SecretLabel::ClientHandshakeTrafficSecret),
        Some(&[5u8][..])
    );
    assert_eq!(
        keylog.secret_for(&random, SecretLabel::ServerHandshakeTrafficSecret),
        Some(&[6u8][..])
    );
    assert_eq!(
        keylog.secret_for(&[0xaa], SecretLabel::ClientRandom),
        None
    );
    assert_eq!(keylog.entry_count(), 1);
}

#[test]
fn malformed_lines_are_passed_over_and_the_latest_secret_counts() {
    let keylog = Keylog::parse(
        "CLIENT_RANDOM aa\n\
         CLIENT_RANDOM aa b\n\
         CLIENT_RANDOM ag bb\n\
         CLIENT_RANDOM aa bb cc\n\
         client_random aa bb\n\
         CLIENT_RANDOM aa 01\n\
         CLIENT_RANDOM aa 02",
    );
    assert_eq!(keylog.entry_count(), 1);
    assert_eq!(
        keylog.secret_for(&[0xaa], SecretLabel::ClientRandom),
        Some(&[2u8][..])
    );
}
