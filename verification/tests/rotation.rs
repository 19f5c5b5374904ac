use tlscap::rotation::{chunk_suffix, RotateBy, Rotation};
use tlscap::time::Duration;

fn write(r: &mut Rotation, now: Duration) -> Option<u64> {
    assert!(r.has_room());
    let opened = if r.rotate_if_needed(now) {
        r.finish_current();
        Some(r.open_new(now))
    } else {
        None
    };
    r.note_written();
    opened
}

#[test]
fn writes_into_a_single_chunk_when_never_rotating() {
    let mut r = Rotation::new(RotateBy::Never);
    assert_eq!(write(&mut r, Duration::zero()), Some(1));
    assert_eq!(write(&mut r, Duration::from_secs(1_000_000)), None);
    assert_eq!(r.finish_current(), Some(2));
    assert_eq!(r.finish_current(), None);
}

#[test]
fn rotates_by_count() {
    let mut r = Rotation::new(RotateBy::Count(2));
    assert_eq!(write(&mut r, Duration::zero()), Some(1));
    assert_eq!(write(&mut r, Duration::zero()), None);
    assert_eq!(write(&mut r, Duration::zero()), Some(2));
    assert_eq!(r.finish_current(), Some(1));
}

#[test]
fn rotates_by_seconds() {
    let mut r = Rotation::new(RotateBy::Seconds(Duration::from_millis(10)));
    assert_eq!(write(&mut r, Duration::zero()), Some(1));
    assert_eq!(write(&mut r, Duration::from_millis(9)), None);
    assert_eq!(write(&mut r, Duration::from_millis(20)), Some(2));
}

#[test]
fn chunk_filename_matches_editcap_style_counter_and_timestamp() {
    let name = format!("naming{}", chunk_suffix(1, "20260709120000"));
    assert!(name.starts_with("naming_000001_"));
    assert!(name.ends_with(".gz"));
    assert_eq!(name, "naming_000001_20260709120000.gz");
    assert_eq!(chunk_suffix(1_234_567, "x"), "_1234567_x.gz");
}

#[test]
fn a_count_of_zero_gives_every_message_its_own_chunk() {
    let mut r = Rotation::new(RotateBy::Count(0));
    assert_eq!(write(&mut r, Duration::zero()), Some(1));
    assert_eq!(write(&mut r, Duration::zero()), Some(2));
    assert_eq!(write(&mut r, Duration::zero()), Some(3));
}

#[test]
fn a_count_cuts_the_messages_evenly() {
    for n in 1..5u64 {
        for k in 0..12u64 {
            let mut r = Rotation::new(RotateBy::Count(n));
            let mut chunks: Vec<Vec<u64>> = Vec::new();
            for i in 0..k {
                if let Some(counter) = write(&mut r, Duration::zero()) {
                    chunks.push(Vec::new());
                    assert_eq!(counter, chunks.len() as u64);
                }
                chunks.last_mut().unwrap().push(i);
            }
            assert_eq!(chunks.len() as u64, k.div_ceil(n));
            for (j, chunk) in chunks.iter().enumerate() {
                let from = j as u64 * n;
                let expected: Vec<u64> = (from..k.min(from + n)).collect();
                assert_eq!(*chunk, expected);
            }
        }
    }
}
