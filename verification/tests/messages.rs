use secure_aggregation::messages::{RecvType, SubAction, ClientError, classify, classify_parts, classify_broadcast, split_topic, bytes_eq, sub_task_step};

#[test]
fn single_empty_part_is_empty_bytes() {
    assert!(matches!(classify(vec![Vec::new()]), RecvType::bytes(b) if b.is_empty()));
    assert!(matches!(classify_parts(vec![Vec::new()]), RecvType::string(s) if s.is_empty()));
}

#[test]
fn text_parts_join() {
    let r = classify(vec![b"Hello, ".to_vec(), b"I'm A".to_vec()]);
    assert!(matches!(r, RecvType::string(s) if s == "Hello, I'm A"));
}

#[test]
fn binary_parts() {
    assert!(matches!(classify(vec![vec![0xff, 1]]), RecvType::bytes(b) if b == vec![0xff, 1]));
    let r = classify(vec![b"ok".to_vec(), vec![0xff]]);
    assert!(matches!(r, RecvType::matrix(m) if m == vec![b"ok".to_vec(), vec![0xff]]));
}

#[test]
fn broadcast_topic_is_checked() {
    let topic = b"IS".to_vec();
    let r = classify_broadcast(vec![b"IS".to_vec(), vec![0xfe, 0xff]], &topic);
    assert!(matches!(r, Ok(RecvType::bytes(b)) if b == vec![0xfe, 0xff]));
    assert!(classify_broadcast(vec![b"KE".to_vec(), vec![1]], &topic).is_err());
    assert!(matches!(classify_broadcast(vec![Vec::new()], &topic), Ok(RecvType::bytes(b)) if b.is_empty()));
}

#[test]
fn split_topic_parts() {
    let (t, m) = split_topic(vec![b"AG".to_vec(), vec![1, 0, 0, 0, 0, 0, 0, 0xff]]);
    assert_eq!(t, b"AG".to_vec());
    assert!(matches!(m, RecvType::bytes(b) if b == vec![1, 0, 0, 0, 0, 0, 0, 0xff]));
    let (t, m) = split_topic(vec![b"HS".to_vec(), Vec::new()]);
    assert_eq!(t, b"HS".to_vec());
    assert!(matches!(m, RecvType::bytes(b) if b.is_empty()));
}

#[test]
fn bytes_equality() {
    assert!(bytes_eq(&vec![1, 2, 3], &vec![1, 2, 3]));
    assert!(!bytes_eq(&vec![1, 2, 3], &vec![1, 2]));
    assert!(!bytes_eq(&vec![1, 2, 3], &vec![1, 2, 4]));
}

#[test]
fn subscriber_decisions() {
    let ec = b"EC".to_vec();
    let data = RecvType::matrix(vec![vec![2, 0, 0, 0, 0, 0, 0, 0, 5, 0, 0, 0, 0, 0, 0, 0], vec![0xff]]);
    assert!(matches!(sub_task_step(true, &ec, &data), SubAction::Skip));
    assert!(matches!(sub_task_step(false, &ec, &data), SubAction::Store(Some(w)) if w == vec![2, 5]));
    let ag = b"AG".to_vec();
    let bytes = RecvType::bytes(vec![1, 0, 0, 0, 0, 0, 0, 0]);
    assert!(matches!(sub_task_step(false, &ag, &bytes), SubAction::Fail(ClientError::UnexpectedRecv(_))));
    let is = b"IS".to_vec();
    assert!(matches!(sub_task_step(false, &is, &bytes), SubAction::Store(None)));
}
