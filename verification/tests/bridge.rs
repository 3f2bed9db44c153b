use url_session::adapter::AdapterState;
use url_session::chunk::{chunk_payload, deliver_request, CHUNK_SIZE};
use url_session::delegate::RecordingDelegate;
use url_session::worker::{Intake, SubmissionError};

fn payload(len: usize) -> Vec<u8> {
    (0..len).map(|i| (i % 251) as u8).collect()
}

#[test]
fn chunk_count_is_ceiling_of_length() {
    for len in [0usize, 1, 999, 1000, 1001, 1999, 2000, 2500] {
        let p = payload(len);
        let chunks = chunk_payload(&p);
        let expected = (len + CHUNK_SIZE - 1) / CHUNK_SIZE;
        assert_eq!(chunks.len(), expected);
        for (k, c) in chunks.iter().enumerate() {
            if k + 1 < chunks.len() {
                assert_eq!(c.len(), CHUNK_SIZE);
            } else {
                assert!(1 <= c.len() && c.len() <= CHUNK_SIZE);
            }
        }
        assert_eq!(chunks.concat(), p);
    }
}

#[test]
fn delivery_of_2500_bytes_is_three_chunks_then_completion() {
    let p = payload(2500);
    let mut d = RecordingDelegate::new();
    deliver_request(Some(&p), &mut d);
    let sizes: Vec<usize> = d.chunks.iter().map(|c| c.len()).collect();
    assert_eq!(sizes, vec![1000, 1000, 500]);
    assert!(d.completed);
    assert_eq!(d.chunks.concat(), p);

    let chunks = chunk_payload(&p);
    let mut s: AdapterState<u32> = AdapterState::new();
    assert!(s.poll(7).is_none());
    for c in &chunks {
        s.on_data(c);
    }
    let woken = s.on_complete();
    assert_eq!(woken, Some(7));
    assert_eq!(s.poll(8), Some(p.clone()));
}

#[test]
fn exactly_one_chunk_for_a_full_chunk_payload() {
    let p = payload(1000);
    let mut d = RecordingDelegate::new();
    deliver_request(Some(&p), &mut d);
    assert_eq!(d.chunks.len(), 1);
    assert_eq!(d.chunks[0].len(), 1000);
    assert!(d.completed);
}

#[test]
fn empty_payload_yields_no_data_and_one_completion() {
    let p: Vec<u8> = Vec::new();
    let mut d = RecordingDelegate::new();
    deliver_request(Some(&p), &mut d);
    assert_eq!(d.chunks.len(), 0);
    assert!(d.completed);
}

#[test]
fn missing_source_yields_no_data_one_completion_empty_result() {
    let mut d = RecordingDelegate::new();
    deliver_request(None, &mut d);
    assert_eq!(d.chunks.len(), 0);
    assert!(d.completed);

    let mut s: AdapterState<u32> = AdapterState::new();
    deliver_request(None, &mut s);
    assert!(s.is_complete());
    assert_eq!(s.poll(1), Some(Vec::new()));
}

#[test]
fn completion_observed_once_after_all_data() {
    let p = payload(1500);
    let mut d = RecordingDelegate::new();
    assert!(!d.completed);
    deliver_request(Some(&p), &mut d);
    assert!(d.completed);
    assert_eq!(d.chunks.len(), 2);
    assert_eq!(d.chunks.concat(), p);
}

#[test]
fn poll_after_completion_resolves_immediately() {
    let mut s: AdapterState<u32> = AdapterState::new();
    s.on_data(&[1, 2, 3]);
    let woken = s.on_complete();
    assert_eq!(woken, None);
    assert_eq!(s.poll(1), Some(vec![1, 2, 3]));
    assert_eq!(s.poll(2), Some(vec![1, 2, 3]));
}

#[test]
fn poll_before_completion_suspends_and_is_woken_once() {
    let mut s: AdapterState<u32> = AdapterState::new();
    assert_eq!(s.poll(41), None);
    s.on_data(&[9u8; 10]);
    assert_eq!(s.poll(42), None);
    let woken = s.on_complete();
    assert_eq!(woken, Some(42));
    assert_eq!(s.poll(43), Some(vec![9u8; 10]));
}

#[test]
fn two_requests_are_serviced_in_submission_order() {
    let mut q: Intake<u8> = Intake::new();
    q.submit("first".to_string(), 1).unwrap();
    q.submit("second".to_string(), 2).unwrap();

    let (id1, handle1) = q.dequeue().unwrap();
    assert_eq!(id1, "first");
    assert_eq!(handle1, 1);
    let mut r1 = RecordingDelegate::new();
    deliver_request(Some(b"aa".as_slice()), &mut r1);
    assert!(r1.completed);

    let (id2, handle2) = q.dequeue().unwrap();
    assert_eq!(id2, "second");
    assert_eq!(handle2, 2);
    let mut r2 = RecordingDelegate::new();
    deliver_request(Some(b"bb".as_slice()), &mut r2);
    assert!(r2.completed);
}

#[test]
fn closed_intake_rejects_submission() {
    let mut q: Intake<u8> = Intake::new();
    q.close();
    assert!(!q.is_accepting());
    assert_eq!(q.submit("late".to_string(), 0), Err(SubmissionError));
    assert!(q.dequeue().is_none());
}

#[test]
fn pending_request_still_drains_after_close() {
    let mut q: Intake<u8> = Intake::new();
    q.submit("queued".to_string(), 9).unwrap();
    q.close();
    assert_eq!(q.pending_len(), 1);
    let (id, handle) = q.dequeue().unwrap();
    assert_eq!(id, "queued");
    assert_eq!(handle, 9);
    let bytes = [5u8; 1200];
    let mut d = RecordingDelegate::new();
    deliver_request(Some(bytes.as_slice()), &mut d);
    assert!(d.completed);
    assert_eq!(d.chunks.len(), 2);
    assert_eq!(d.chunks[0].len(), 1000);
    assert_eq!(d.chunks[1].len(), 200);
    assert!(q.dequeue().is_none());
}
