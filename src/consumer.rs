use aws_sdk_dynamodb::operation::batch_write_item::BatchWriteItemError;
use vstd::prelude::*;
use vstd::string::StringExecFns;

use crate::batching::{
    chunk_vec, flatten, is_batching, lemma_flatten_push, lemma_fold_all_empty,
    lemma_fold_order_independent,
};

verus! {

/// The most write requests that one batch-write call of the store accepts.
pub const BATCH_SIZE: usize = 25;

/// The views of a sequence of strings.
pub open spec fn strs(v: Seq<String>) -> Seq<Seq<char>> {
    v.map_values(|s: String| s@)
}

/// A row of the store: its key, its colour and its price.
pub struct Item {
    pub id: String,
    pub colour: String,
    pub price: i64,
}

impl View for Item {
    type V = (Seq<char>, Seq<char>, i64);

    open spec fn view(&self) -> Self::V {
        (self.id@, self.colour@, self.price)
    }
}

/// The put request that writes one item: its attribute values.
pub struct PutRequest {
    pub id: String,
    pub colour: String,
    pub price: i64,
}

impl View for PutRequest {
    type V = (Seq<char>, Seq<char>, i64);

    open spec fn view(&self) -> Self::V {
        (self.id@, self.colour@, self.price)
    }
}

impl Item {
    pub fn new(id: String, colour: String, price: i64) -> (r: Item)
        ensures
            r@ == (id@, colour@, price),
    {
        Item { id, colour, price }
    }

    /// The put request that stores this item.
    pub fn to_wr(&self) -> (r: PutRequest)
        ensures
            r@ == self@,
    {
        PutRequest { id: self.id.clone(), colour: self.colour.clone(), price: self.price }
    }
}

impl PutRequest {
    /// Two requests are equal when they carry the same attribute values.
    pub fn same_as(&self, other: &PutRequest) -> (r: bool)
        ensures
            r == (self@ == other@),
    {
        self.id == other.id && self.colour == other.colour && self.price == other.price
    }
}

/// One decoded row, tagged with the id of the queue message it came from.
pub struct Record {
    pub item: Item,
    pub message_id: String,
}

impl View for Record {
    type V = ((Seq<char>, Seq<char>, i64), Seq<char>);

    open spec fn view(&self) -> Self::V {
        (self.item@, self.message_id@)
    }
}

impl Record {
    pub fn new(item: Item, message_id: String) -> (r: Record)
        ensures
            r@ == (item@, message_id@),
    {
        Record { item, message_id }
    }
}

pub open spec fn records_view(v: Seq<Record>) -> Seq<((Seq<char>, Seq<char>, i64), Seq<char>)> {
    v.map_values(|r: Record| r@)
}

pub open spec fn requests_view(v: Seq<PutRequest>) -> Seq<(Seq<char>, Seq<char>, i64)> {
    v.map_values(|w: PutRequest| w@)
}

/// The message ids of the records, in order.
pub open spec fn ids_of(recs: Seq<((Seq<char>, Seq<char>, i64), Seq<char>)>) -> Seq<Seq<char>> {
    recs.map_values(|r: ((Seq<char>, Seq<char>, i64), Seq<char>)| r.1)
}

/// The message ids, in order, of the records whose put request is among
/// the unprocessed requests `wrs` (matched by content).
pub open spec fn rejected_ids(
    recs: Seq<((Seq<char>, Seq<char>, i64), Seq<char>)>,
    wrs: Seq<(Seq<char>, Seq<char>, i64)>,
) -> Seq<Seq<char>>
    decreases recs.len(),
{
    if recs.len() == 0 {
        Seq::empty()
    } else {
        let p = rejected_ids(recs.drop_last(), wrs);
        if wrs.contains(recs.last().0) {
            p.push(recs.last().1)
        } else {
            p
        }
    }
}

/// Whether `wr` is among `wrs`, by content.
pub fn contains_request(wrs: &[PutRequest], wr: &PutRequest) -> (r: bool)
    ensures
        r == requests_view(wrs@).contains(wr@),
{
    let mut j: usize = 0;
    while j < wrs.len()
        invariant
            j <= wrs@.len(),
            forall|k: int| 0 <= k < j ==> wrs@[k]@ != wr@,
        decreases wrs.len() - j,
    {
        if wrs[j].same_as(wr) {
            assert(requests_view(wrs@)[j as int] == wr@);
            return true;
        }
        j += 1;
    }
    assert(!requests_view(wrs@).contains(wr@)) by {
        if requests_view(wrs@).contains(wr@) {
            let k = choose|k: int| 0 <= k < requests_view(wrs@).len() && requests_view(wrs@)[k] == wr@;
            assert(wrs@[k]@ == wr@);
        }
    }
    false
}

/// The records of one batch-write call, in input order.
pub struct Batch {
    pub records: Vec<Record>,
}

impl Batch {
    pub fn new(records: Vec<Record>) -> (r: Batch)
        ensures
            r.records@ == records@,
    {
        Batch { records }
    }


    /// One put request per record, in order.
    pub fn to_wrs(&self) -> (r: Vec<PutRequest>)
        ensures
            requests_view(r@) == records_view(self.records@).map_values(
                |x: ((Seq<char>, Seq<char>, i64), Seq<char>)| x.0,
            ),
    {
        let ghost recs = records_view(self.records@);
        let mut out: Vec<PutRequest> = Vec::new();
        let mut i: usize = 0;
        while i < self.records.len()
            invariant
                i <= self.records@.len(),
                recs == records_view(self.records@),
                requests_view(out@) == recs.take(i as int).map_values(
                    |x: ((Seq<char>, Seq<char>, i64), Seq<char>)| x.0,
                ),
            decreases self.records.len() - i,
        {
            let wr = self.records[i].item.to_wr();
            let ghost prev = out@;
            out.push(wr);
            proof {
                assert(recs[i as int] == self.records@[i as int]@);
                assert(requests_view(out@) =~= requests_view(prev).push(recs[i as int].0));
                assert(recs.take(i + 1) =~= recs.take(i as int).push(recs[i as int]));
                assert(requests_view(out@) =~= recs.take(i + 1).map_values(
                    |x: ((Seq<char>, Seq<char>, i64), Seq<char>)| x.0,
                ));
            }
            i += 1;
        }
        proof {
            assert(recs.take(i as int) =~= recs);
        }
        out
    }

    /// The message ids of the records whose put request came back
    /// unprocessed; a record matches a request of equal content.
    pub fn parial_failure(&self, wrs: &[PutRequest]) -> (r: Vec<String>)
        ensures
            strs(r@) == rejected_ids(records_view(self.records@), requests_view(wrs@)),
    {
        let ghost recs = records_view(self.records@);
        let ghost ws = requests_view(wrs@);
        let mut out: Vec<String> = Vec::new();
        let mut i: usize = 0;
        while i < self.records.len()
            invariant
                i <= self.records@.len(),
                recs == records_view(self.records@),
                ws == requests_view(wrs@),
                strs(out@) == rejected_ids(recs.take(i as int), ws),
            decreases self.records.len() - i,
        {
            let rec = &self.records[i];
            let wr = rec.item.to_wr();
            let hit = contains_request(wrs, &wr);
            proof {
                assert(recs.take(i + 1).drop_last() =~= recs.take(i as int));
                assert(recs.take(i + 1).last() == rec@);
            }
            if hit {
                out.push(rec.message_id.clone());
                proof {
                    assert(strs(out@) =~= rejected_ids(recs.take(i as int), ws).push(rec.message_id@));
                }
            }
            i += 1;
        }
        proof {
            assert(recs.take(i as int) =~= recs);
        }
        out
    }

    /// The message ids of all records of the batch, in order.
    pub fn full_failure(&self) -> (r: Vec<String>)
        ensures
            strs(r@) == ids_of(records_view(self.records@)),
    {
        let ghost recs = records_view(self.records@);
        let mut out: Vec<String> = Vec::new();
        let mut i: usize = 0;
        while i < self.records.len()
            invariant
                i <= self.records@.len(),
                recs == records_view(self.records@),
                strs(out@) == ids_of(recs.take(i as int)),
            decreases self.records.len() - i,
        {
            let ghost prev = out@;
            out.push(self.records[i].message_id.clone());
            proof {
                assert(recs[i as int] == self.records@[i as int]@);
                assert(strs(out@) =~= strs(prev).push(recs[i as int].1));
                assert(recs.take(i + 1) =~= recs.take(i as int).push(recs[i as int]));
                assert(strs(out@) =~= ids_of(recs.take(i + 1)));
            }
            i += 1;
        }
        proof {
            assert(recs.take(i as int) =~= recs);
        }
        out
    }
}

/// The error of the store's batch-write operation, carried through as it is.
#[verifier::external_type_specification]
#[verifier::external_body]
pub struct ExBatchWriteItemError(BatchWriteItemError);

/// What a failed batch-write call means for the batch, by the class of
/// its error.
#[derive(PartialEq, Eq, Structural, Clone, Copy, Debug)]
pub enum ErrorClass {
    InternalServerError,
    RequestLimitExceeded,
    ProvisionedThroughputExceeded,
    Throttling,
    Other,
}

/// A failure of this class is transient: the whole batch is handed back
/// for redelivery instead of failing the invocation.
pub open spec fn is_retryable(c: ErrorClass) -> bool {
    c != ErrorClass::Other
}

/// The class of a batch-write error, which its variant alone decides.
pub uninterp spec fn class_of(e: BatchWriteItemError) -> ErrorClass;

/// Relies on the variants of the store's `BatchWriteItemError`: server-side
/// errors and the three throttling errors named below are told apart from
/// all others.
#[verifier::external_body]
fn classify(err: &BatchWriteItemError) -> (r: ErrorClass)
    ensures
        r == class_of(*err),
{
    match err {
        BatchWriteItemError::InternalServerError(_) => ErrorClass::InternalServerError,
        BatchWriteItemError::RequestLimitExceeded(_) => ErrorClass::RequestLimitExceeded,
        BatchWriteItemError::ProvisionedThroughputExceededException(_) => {
            ErrorClass::ProvisionedThroughputExceeded
        },
        BatchWriteItemError::ThrottlingException(_) => ErrorClass::Throttling,
        _ => ErrorClass::Other,
    }
}

/// The message ids to hand back when the call for `batch` failed with an
/// error of class `class`: all of them for a transient class, none (the
/// invocation fails) otherwise.
pub fn failure_for_class(batch: &Batch, class: ErrorClass) -> (r: Option<Vec<String>>)
    ensures
        r is Some <==> is_retryable(class),
        r matches Some(v) ==> strs(v@) == ids_of(records_view(batch.records@)),
{
    match class {
        ErrorClass::Other => None,
        _ => Some(batch.full_failure()),
    }
}


pub open spec fn entries_view(e: Seq<(String, Vec<PutRequest>)>) -> Seq<
    (Seq<char>, Seq<(Seq<char>, Seq<char>, i64)>),
> {
    e.map_values(|x: (String, Vec<PutRequest>)| (x.0@, requests_view(x.1@)))
}

/// The unprocessed requests listed for `table`: those of its first entry.
pub open spec fn lookup(
    e: Seq<(Seq<char>, Seq<(Seq<char>, Seq<char>, i64)>)>,
    table: Seq<char>,
) -> Option<Seq<(Seq<char>, Seq<char>, i64)>>
    decreases e.len(),
{
    if e.len() == 0 {
        None
    } else if e[0].0 == table {
        Some(e[0].1)
    } else {
        lookup(e.skip(1), table)
    }
}



/// The state of one consumer invocation while batch outcomes come in.
pub struct Process {
    ddb_table: String,
    identifiers: Vec<String>,
    history: Ghost<Seq<Seq<Seq<char>>>>,
}

impl Process {
    pub fn new(ddb_table: String) -> (r: Process)
        ensures
            r.wf(),
            r.table() == ddb_table@,
            r.failed() == Seq::<Seq<char>>::empty(),
            r.outcomes() == Seq::<Seq<Seq<char>>>::empty(),
    {
        let r = Process { ddb_table, identifiers: Vec::new(), history: Ghost(Seq::empty()) };
        assert(strs(r.identifiers@) =~= Seq::<Seq<char>>::empty());
        r
    }

    /// The outcome of a failed batch-write call: every record of the batch for
    /// a transient error, else the error itself.
    pub fn handle_error(batch: &Batch, err: BatchWriteItemError) -> (r: Result<
        Vec<String>,
        BatchWriteItemError,
    >)
        ensures
            r is Ok <==> is_retryable(class_of(err)),
            r matches Ok(v) ==> strs(v@) == ids_of(records_view(batch.records@)),
            r matches Err(e) ==> e == err,
    {
        let class = classify(&err);
        match failure_for_class(batch, class) {
            Some(v) => Ok(v),
            None => Err(err),
        }
    }

    /// The message ids to hand back after a successful batch-write call whose
    /// unprocessed requests, per table, are `unprocessed`: those of the records
    /// whose request is listed for `table`, none if the table is not listed.
    pub fn handle_output(
        batch: &Batch,
        table: &String,
        unprocessed: &Vec<(String, Vec<PutRequest>)>,
    ) -> (r: Vec<String>)
        ensures
            strs(r@) == match lookup(entries_view(unprocessed@), table@) {
                Some(wrs) => rejected_ids(records_view(batch.records@), wrs),
                None => Seq::empty(),
            },
    {
        let ghost e = entries_view(unprocessed@);
        assert(e.skip(0) =~= e);
        let mut j: usize = 0;
        while j < unprocessed.len()
            invariant
                j <= unprocessed@.len(),
                e == entries_view(unprocessed@),
                lookup(e, table@) == lookup(e.skip(j as int), table@),
            decreases unprocessed.len() - j,
        {
            proof {
                assert(e.skip(j as int).skip(1) =~= e.skip(j + 1));
                assert(e.skip(j as int)[0] == e[j as int]);
            }
            if unprocessed[j].0 == *table {
                return batch.parial_failure(unprocessed[j].1.as_slice());
            }
            j += 1;
        }
        assert(lookup(e.skip(j as int), table@) == None::<Seq<(Seq<char>, Seq<char>, i64)>>);
        Vec::new()
    }

    /// Cuts the records into batches of at most `BATCH_SIZE`, in order.
    pub fn batch_records(records: Vec<Record>) -> (r: Vec<Batch>)
        ensures
            is_batching(r@.map_values(|b: Batch| b.records@), records@, BATCH_SIZE as nat),
    {
        let ghost s = records@;
        let mut rest = chunk_vec(records, BATCH_SIZE);
        let ghost all = rest@.map_values(|c: Vec<Record>| c@);
        let mut out: Vec<Batch> = Vec::new();
        while rest.len() > 0
            invariant
                out@.map_values(|b: Batch| b.records@) + rest@.map_values(|c: Vec<Record>| c@) == all,
            decreases rest.len(),
        {
            let ghost prev_out = out@;
            let ghost prev_rest = rest@;
            let c = rest.remove(0);
            out.push(Batch::new(c));
            proof {
                assert(out@.map_values(|b: Batch| b.records@) =~= prev_out.map_values(
                    |b: Batch| b.records@,
                ).push(c@));
                assert(prev_rest.map_values(|c: Vec<Record>| c@) =~= seq![c@] + rest@.map_values(
                    |c: Vec<Record>| c@,
                ));
                assert(out@.map_values(|b: Batch| b.records@) + rest@.map_values(|c: Vec<Record>| c@)
                    =~= all);
            }
        }
        assert(out@.map_values(|b: Batch| b.records@) =~= all);
        out
    }

    /// The table that the batches are written to.
    pub closed spec fn table(&self) -> Seq<char> {
        self.ddb_table@
    }

    pub fn ddb_table(&self) -> (r: &String)
        ensures
            r@ == self.table(),
    {
        &self.ddb_table
    }

    /// The successful batch outcomes taken in so far, in the order they came.
    pub closed spec fn outcomes(&self) -> Seq<Seq<Seq<char>>> {
        self.history@
    }

    /// The ids gathered are those of the outcomes taken in, in order.
    pub closed spec fn wf(&self) -> bool {
        strs(self.identifiers@) == flatten(self.history@)
    }

    /// The message ids gathered so far for redelivery.
    pub closed spec fn failed(&self) -> Seq<Seq<char>> {
        strs(self.identifiers@)
    }

    /// Takes in the outcome of one batch: its message ids to redeliver, or a
    /// fatal error, which is handed back so that the invocation stops.
    pub fn fold_result(&mut self, result: Result<Vec<String>, BatchWriteItemError>) -> (r: Option<
        BatchWriteItemError,
    >)
        requires
            old(self).wf(),
        ensures
            final(self).wf(),
            final(self).table() == old(self).table(),
            result matches Ok(v) ==> r is None && final(self).failed() == old(self).failed() + strs(
                v@,
            ) && final(self).outcomes() == old(self).outcomes().push(strs(v@)),
            result matches Err(e) ==> r == Some(e) && final(self).failed() == old(self).failed()
                && final(self).outcomes() == old(self).outcomes(),
    {
        match result {
            Ok(v) => {
                let mut v = v;
                let ghost added = v@;
                self.identifiers.append(&mut v);
                proof {
                    assert(strs(self.identifiers@) =~= strs(old(self).identifiers@) + strs(added));
                    lemma_flatten_push(self.history@, strs(added));
                }
                self.history = Ghost(self.history@.push(strs(added)));
                None
            },
            Err(e) => Some(e),
        }
    }

    /// The message ids to redeliver, once every batch has come in.
    pub fn finish(self) -> (r: Vec<String>)
        ensures
            strs(r@) == self.failed(),
    {
        self.identifiers
    }
}

/// One message delivered by the queue: its id and its body.
pub struct QueueMessage {
    pub message_id: String,
    pub body: String,
}

impl QueueMessage {
    pub fn new(message_id: String, body: String) -> (r: QueueMessage)
        ensures
            r.message_id@ == message_id@,
            r.body@ == body@,
    {
        QueueMessage { message_id, body }
    }
}

/// The bodies joined with a newline between each two.
pub open spec fn joined(bodies: Seq<Seq<char>>) -> Seq<char>
    decreases bodies.len(),
{
    if bodies.len() == 0 {
        Seq::empty()
    } else if bodies.len() == 1 {
        bodies[0]
    } else {
        joined(bodies.drop_last()) + seq!['\n'] + bodies.last()
    }
}

pub open spec fn bodies_of(m: Seq<QueueMessage>) -> Seq<Seq<char>> {
    m.map_values(|x: QueueMessage| x.body@)
}

pub open spec fn message_ids_of(m: Seq<QueueMessage>) -> Seq<Seq<char>> {
    m.map_values(|x: QueueMessage| x.message_id@)
}

/// The bodies of all messages, one after another, a newline between each two.
pub fn join_body(messages: &Vec<QueueMessage>) -> (r: String)
    ensures
        r@ == joined(bodies_of(messages@)),
{
    let ghost b = bodies_of(messages@);
    let mut out = String::new();
    let mut i: usize = 0;
    while i < messages.len()
        invariant
            i <= messages@.len(),
            b == bodies_of(messages@),
            out@ == joined(b.take(i as int)),
        decreases messages.len() - i,
    {
        proof {
            assert(b.take(i + 1).drop_last() =~= b.take(i as int));
            assert(b[i as int] == messages@[i as int].body@);
        }
        if i > 0 {
            let nl = "\n";
            proof {
                reveal_strlit("\n");
            }
            out.append(nl);
        } else {
            assert(out@ =~= Seq::<char>::empty());
        }
        out.append(messages[i].body.as_str());
        i += 1;
    }
    proof {
        assert(b.take(i as int) =~= b);
    }
    out
}

/// What the headerless CSV reader decodes from `data`: one entry per
/// record in order, the fields (id, colour, price) where they decode.
pub uninterp spec fn csv_rows(data: Seq<char>) -> Seq<Option<(Seq<char>, Seq<char>, i64)>>;

pub open spec fn rows_view(rows: Seq<Option<(String, String, i64)>>) -> Seq<
    Option<(Seq<char>, Seq<char>, i64)>,
> {
    rows.map_values(
        |x: Option<(String, String, i64)>|
            match x {
                Some(t) => Some((t.0@, t.1@, t.2)),
                None => None,
            },
    )
}

/// Relies on the csv crate's reader without headers, deserializing each
/// record into (text, text, 64-bit integer); a record that fails gives
/// `None`.
#[verifier::external_body]
fn decode_rows(data: &str) -> (r: Vec<Option<(String, String, i64)>>)
    ensures
        rows_view(r@) == csv_rows(data@),
{
    let mut rdr = csv::ReaderBuilder::new().has_headers(false).from_reader(data.as_bytes());
    rdr.deserialize::<(String, String, i64)>().map(|row| row.ok()).collect()
}

/// The records made of decoded rows: row `i`, where it decoded, becomes an
/// item tagged with the id of message `i`; rows that failed, or that have
/// no message of their index, give nothing.
pub open spec fn rows_to_records(
    rows: Seq<Option<(Seq<char>, Seq<char>, i64)>>,
    ids: Seq<Seq<char>>,
) -> Seq<((Seq<char>, Seq<char>, i64), Seq<char>)>
    decreases rows.len(),
{
    if rows.len() == 0 {
        Seq::empty()
    } else {
        let p = rows_to_records(rows.drop_last(), ids);
        let i = rows.len() - 1;
        match rows.last() {
            Some(t) => if i < ids.len() {
                p.push((t, ids[i]))
            } else {
                p
            },
            None => p,
        }
    }
}

/// Pairs decoded rows with the messages they came from.
pub fn records_from_rows(rows: &Vec<Option<(String, String, i64)>>, messages: &Vec<QueueMessage>) -> (r:
    Vec<Record>)
    ensures
        records_view(r@) == rows_to_records(rows_view(rows@), message_ids_of(messages@)),
{
    let ghost rv = rows_view(rows@);
    let ghost ids = message_ids_of(messages@);
    let mut out: Vec<Record> = Vec::new();
    let mut i: usize = 0;
    while i < rows.len()
        invariant
            i <= rows@.len(),
            rv == rows_view(rows@),
            ids == message_ids_of(messages@),
            records_view(out@) == rows_to_records(rv.take(i as int), ids),
        decreases rows.len() - i,
    {
        proof {
            assert(rv.take(i + 1).drop_last() =~= rv.take(i as int));
            assert(rv.take(i + 1).last() == rv[i as int]);
        }
        match &rows[i] {
            Some(t) => {
                if i < messages.len() {
                    let item = Item::new(t.0.clone(), t.1.clone(), t.2);
                    let rec = Record::new(item, messages[i].message_id.clone());
                    let ghost prev = out@;
                    out.push(rec);
                    proof {
                        assert(records_view(out@) =~= records_view(prev).push(rec@));
                    }
                }
            },
            None => {},
        }
        i += 1;
    }
    proof {
        assert(rv.take(i as int) =~= rv);
    }
    out
}

/// Decodes the bodies of the messages, joined line by line, into records
/// tagged with their message ids; rows that fail to decode are dropped.
pub fn process_messages(messages: &Vec<QueueMessage>) -> (r: Vec<Record>)
    ensures
        records_view(r@) == rows_to_records(
            csv_rows(joined(bodies_of(messages@))),
            message_ids_of(messages@),
        ),
{
    let data = join_body(messages);
    let rows = decode_rows(data.as_str());
    records_from_rows(&rows, messages)
}

/// The ids handed back by a run do not depend on the order in which the
/// batches complete: two runs that took in the same outcomes, in any order,
/// gather the same ids with the same multiplicity.
pub proof fn lemma_run_order_independent(p: &Process, q: &Process)
    requires
        p.wf(),
        q.wf(),
        p.outcomes().to_multiset() == q.outcomes().to_multiset(),
    ensures
        p.failed().to_multiset() == q.failed().to_multiset(),
{
    lemma_fold_order_independent(p.outcomes(), q.outcomes());
}

/// A run in which every batch succeeded in full hands back no id.
pub proof fn lemma_run_all_success(p: &Process)
    requires
        p.wf(),
        forall|i: int| 0 <= i < p.outcomes().len() ==> #[trigger] p.outcomes()[i].len() == 0,
    ensures
        p.failed() == Seq::<Seq<char>>::empty(),
{
    lemma_fold_all_empty(p.outcomes());
}

} // verus!
