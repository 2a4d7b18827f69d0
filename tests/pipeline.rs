use aws_sdk_dynamodb::operation::batch_write_item::BatchWriteItemError;
use aws_sdk_dynamodb::types::error::{
    InternalServerError, ProvisionedThroughputExceededException, RequestLimitExceeded,
    ResourceNotFoundException, ThrottlingException,
};
use batchflow::consumer::{
    self, contains_request, failure_for_class, join_body, process_messages, records_from_rows,
    Batch, ErrorClass, Item, PutRequest, QueueMessage, Record,
};
use batchflow::producer::{self, Message, PERMITS, SQS_BATCH_LIMIT};

fn record(n: usize) -> Record {
    Record::new(
        Item::new(format!("id-{n}"), "red".to_string(), n as i64),
        format!("msg-{n}"),
    )
}

fn records(count: usize) -> Vec<Record> {
    (0..count).map(record).collect()
}

fn request(n: usize) -> PutRequest {
    Item::new(format!("id-{n}"), "red".to_string(), n as i64).to_wr()
}

fn ids(v: &[String]) -> Vec<&str> {
    v.iter().map(|s| s.as_str()).collect()
}

#[test]
fn batch_records_cuts_full_windows_then_a_short_one() {
    let batches = consumer::Process::batch_records(records(60));
    let sizes: Vec<usize> = batches.iter().map(|b| b.records.len()).collect();
    assert_eq!(sizes, vec![25, 25, 10]);
    let all: Vec<String> = batches
        .iter()
        .flat_map(|b| b.records.iter().map(|r| r.message_id.clone()))
        .collect();
    let expected: Vec<String> = (0..60).map(|n| format!("msg-{n}")).collect();
    assert_eq!(all, expected);
}

#[test]
fn batch_records_of_nothing_is_no_batch() {
    assert!(consumer::Process::batch_records(Vec::new()).is_empty());
}

#[test]
fn batch_records_of_exactly_one_window() {
    let batches = consumer::Process::batch_records(records(25));
    assert_eq!(batches.len(), 1);
    assert_eq!(batches[0].records.len(), 25);
}

#[test]
fn consumer_partial_failure_returns_exactly_the_unprocessed() {
    let batches = consumer::Process::batch_records(records(25));
    assert_eq!(batches.len(), 1);
    let table = "items".to_string();
    let unprocessed = vec![
        ("other".to_string(), vec![request(1)]),
        (table.clone(), vec![request(3), request(7), request(20)]),
    ];
    let failed = consumer::Process::handle_output(&batches[0], &table, &unprocessed);
    assert_eq!(ids(&failed), vec!["msg-3", "msg-7", "msg-20"]);
    let mut process = consumer::Process::new(table);
    assert!(process.fold_result(Ok(failed)).is_none());
    assert_eq!(ids(&process.finish()), vec!["msg-3", "msg-7", "msg-20"]);
}

#[test]
fn handle_output_without_the_table_fails_nothing() {
    let batch = Batch::new(records(5));
    let table = "items".to_string();
    let unprocessed = vec![("other".to_string(), vec![request(1)])];
    assert!(consumer::Process::handle_output(&batch, &table, &unprocessed).is_empty());
    assert!(consumer::Process::handle_output(&batch, &table, &Vec::new()).is_empty());
}

#[test]
fn parial_failure_matches_by_content() {
    let batch = Batch::new(records(4));
    let changed = Item::new("id-2".to_string(), "blue".to_string(), 2).to_wr();
    let failed = batch.parial_failure(&[request(1), changed]);
    assert_eq!(ids(&failed), vec!["msg-1"]);
}

#[test]
fn to_wrs_gives_one_request_per_record() {
    let batch = Batch::new(records(3));
    let wrs = batch.to_wrs();
    assert_eq!(wrs.len(), 3);
    assert!(wrs[2].same_as(&request(2)));
    assert!(!wrs[2].same_as(&request(1)));
    assert!(contains_request(&wrs, &request(0)));
    assert!(!contains_request(&wrs, &request(3)));
}

#[test]
fn consumer_throttling_hands_back_the_whole_batch() {
    let batch = Batch::new(records(25));
    let err = BatchWriteItemError::ProvisionedThroughputExceededException(
        ProvisionedThroughputExceededException::builder().message("slow down").build(),
    );
    let failed = consumer::Process::handle_error(&batch, err).ok().unwrap();
    let expected: Vec<String> = (0..25).map(|n| format!("msg-{n}")).collect();
    assert_eq!(failed, expected);
}

#[test]
fn request_limit_and_server_errors_are_retryable() {
    let batch = Batch::new(records(2));
    let limit = BatchWriteItemError::RequestLimitExceeded(RequestLimitExceeded::builder().build());
    assert_eq!(consumer::Process::handle_error(&batch, limit).ok().unwrap().len(), 2);
    let server = BatchWriteItemError::InternalServerError(InternalServerError::builder().build());
    assert_eq!(consumer::Process::handle_error(&batch, server).ok().unwrap().len(), 2);
}

#[test]
fn other_errors_are_fatal() {
    let batch = Batch::new(records(2));
    let err = BatchWriteItemError::ResourceNotFoundException(
        ResourceNotFoundException::builder().build(),
    );
    let out = consumer::Process::handle_error(&batch, err);
    assert!(matches!(out, Err(BatchWriteItemError::ResourceNotFoundException(_))));
    assert!(failure_for_class(&batch, ErrorClass::Other).is_none());
    assert_eq!(failure_for_class(&batch, ErrorClass::RequestLimitExceeded).unwrap().len(), 2);
}

#[test]
fn fatal_error_stops_the_fold() {
    let mut process = consumer::Process::new("items".to_string());
    assert!(process.fold_result(Ok(vec!["a".to_string()])).is_none());
    let err = BatchWriteItemError::ResourceNotFoundException(
        ResourceNotFoundException::builder().build(),
    );
    assert!(process.fold_result(Err(err)).is_some());
    assert_eq!(ids(&process.finish()), vec!["a"]);
}

#[test]
fn folding_in_another_order_gathers_the_same_ids() {
    let outcomes = vec![
        vec!["a".to_string(), "b".to_string()],
        Vec::new(),
        vec!["c".to_string()],
    ];
    let mut forward = consumer::Process::new("t".to_string());
    for o in outcomes.iter() {
        assert!(forward.fold_result(Ok(o.clone())).is_none());
    }
    let mut backward = consumer::Process::new("t".to_string());
    for o in outcomes.iter().rev() {
        assert!(backward.fold_result(Ok(o.clone())).is_none());
    }
    let mut f = forward.finish();
    let mut b = backward.finish();
    f.sort();
    b.sort();
    assert_eq!(f, b);
}

#[test]
fn all_success_fails_nothing() {
    let mut process = consumer::Process::new("items".to_string());
    for batch in consumer::Process::batch_records(records(60)) {
        let out = consumer::Process::handle_output(&batch, &"items".to_string(), &Vec::new());
        assert!(process.fold_result(Ok(out)).is_none());
    }
    assert!(process.finish().is_empty());
}

fn message(n: usize, body: &str) -> QueueMessage {
    QueueMessage::new(format!("msg-{n}"), body.to_string())
}

#[test]
fn join_body_puts_newlines_between() {
    let messages = vec![message(0, "a,b,1"), message(1, "c,d,2")];
    assert_eq!(join_body(&messages), "a,b,1\nc,d,2");
    assert_eq!(join_body(&Vec::new()), "");
}

#[test]
fn malformed_row_is_dropped() {
    let mut messages = Vec::new();
    for n in 0..25 {
        if n == 12 {
            messages.push(message(n, "broken,row,not-a-number"));
        } else {
            messages.push(message(n, &format!("id-{n},red,{n}")));
        }
    }
    let recs = process_messages(&messages);
    assert_eq!(recs.len(), 24);
    assert!(recs.iter().all(|r| r.message_id != "msg-12"));
    assert_eq!(recs[12].message_id, "msg-13");
    assert_eq!(recs[12].item.id, "id-13");
    assert_eq!(recs[12].item.price, 13);
    let batches = consumer::Process::batch_records(recs);
    assert_eq!(batches.len(), 1);
    assert_eq!(batches[0].records.len(), 24);
}

#[test]
fn records_from_rows_pairs_by_index() {
    let messages = vec![message(0, ""), message(1, "")];
    let rows = vec![
        None,
        Some(("x".to_string(), "green".to_string(), -4)),
        Some(("y".to_string(), "green".to_string(), 5)),
    ];
    let recs = records_from_rows(&rows, &messages);
    assert_eq!(recs.len(), 1);
    assert_eq!(recs[0].message_id, "msg-1");
    assert_eq!(recs[0].item.price, -4);
}

#[test]
fn producer_happy_path() {
    let mut process = producer::Process::new("queue".to_string());
    let mut batches = Vec::new();
    for n in 0..25 {
        if let Some(b) = process.push_line(format!("line {n}")) {
            batches.push(b);
        }
    }
    if let Some(b) = process.finish_lines() {
        batches.push(b);
    }
    let sizes: Vec<usize> = batches.iter().map(|b| b.messages.len()).collect();
    assert_eq!(sizes, vec![10, 10, 5]);
    assert_eq!(batches[2].messages[4].body, "line 24");
    for b in batches {
        assert!(process.acquire());
        let sent = b.entries().len();
        let r: Result<(usize, usize), String> = Ok((sent, 0));
        assert!(process.fold_result(r).is_none());
    }
    assert_eq!(process.counts(), (25, 0));
}

#[test]
fn producer_with_no_lines_sends_nothing() {
    let mut process = producer::Process::new("queue".to_string());
    assert!(process.finish_lines().is_none());
}

#[test]
fn producer_transport_error_is_handed_back() {
    let mut process = producer::Process::new("queue".to_string());
    assert!(process.acquire());
    let r: Result<(usize, usize), String> = Err("down".to_string());
    assert_eq!(process.fold_result(r), Some("down".to_string()));
    assert_eq!(process.counts(), (0, 0));
}

#[test]
fn permits_bound_calls_in_flight() {
    let mut process = producer::Process::new("queue".to_string());
    for _ in 0..PERMITS {
        assert!(process.acquire());
    }
    assert!(!process.acquire());
    let r: Result<(usize, usize), String> = Ok((SQS_BATCH_LIMIT, 0));
    assert!(process.fold_result(r).is_none());
    assert!(process.acquire());
    assert!(!process.acquire());
}

#[test]
fn message_ids_are_fresh_uuids() {
    let a = Message::new("x".to_string());
    let b = Message::new("x".to_string());
    assert_eq!(a.id.len(), 36);
    assert_eq!(a.id.matches('-').count(), 4);
    for (i, c) in a.id.chars().enumerate() {
        if [8, 13, 18, 23].contains(&i) {
            assert_eq!(c, '-');
        } else {
            assert!(c.is_ascii_digit() || ('a'..='f').contains(&c));
        }
    }
    assert_eq!(a.id.chars().nth(14), Some('4'));
    assert!("89ab".contains(a.id.chars().nth(19).unwrap()));
    assert_ne!(a.id, b.id);
    assert_eq!(a.body, "x");
}

#[test]
fn entries_carry_id_and_body() {
    let m = Message::new("hello".to_string());
    let id = m.id.clone();
    let entries = producer::Batch::new(vec![m]).entries();
    assert_eq!(entries, vec![(id, "hello".to_string())]);
}

#[test]
fn throttling_exception_is_retryable() {
    let batch = Batch::new(records(3));
    let err = BatchWriteItemError::ThrottlingException(ThrottlingException::builder().build());
    let failed = consumer::Process::handle_error(&batch, err).ok().unwrap();
    assert_eq!(ids(&failed), vec!["msg-0", "msg-1", "msg-2"]);
    assert_eq!(failure_for_class(&batch, ErrorClass::Throttling).unwrap().len(), 3);
}
