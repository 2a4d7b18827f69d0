use vstd::prelude::*;

use crate::batching::{flatten, is_batching, lemma_flatten_push};

verus! {

/// The most remote send calls in flight at once.
pub const PERMITS: usize = 20;

/// The most entries that one batch-send call of the queue accepts.
pub const SQS_BATCH_LIMIT: usize = 10;

/// A lowercase hexadecimal digit.
pub open spec fn is_lower_hex(c: char) -> bool {
    ('0' <= c && c <= '9') || ('a' <= c && c <= 'f')
}

/// The hyphenated lowercase text of a random (version 4, RFC 4122 variant)
/// UUID: 36 characters, hyphens at 8, 13, 18 and 23, hexadecimal digits
/// elsewhere, the version digit `4` at 14 and a variant digit of 8 to b at 19.
pub open spec fn is_uuid_v4_text(s: Seq<char>) -> bool {
    &&& s.len() == 36
    &&& forall|i: int|
        0 <= i < 36 ==> if i == 8 || i == 13 || i == 18 || i == 23 {
            #[trigger] s[i] == '-'
        } else {
            is_lower_hex(s[i])
        }
    &&& s[14] == '4'
    &&& s[19] == '8' || s[19] == '9' || s[19] == 'a' || s[19] == 'b'
}

/// Relies on uuid's `Uuid::new_v4`, which sets the version and variant bits
/// of random bits, and its `Display`, the lowercase hyphenated form.
#[verifier::external_body]
fn new_message_id() -> (r: String)
    ensures
        is_uuid_v4_text(r@),
{
    uuid::Uuid::new_v4().to_string()
}

/// One line of the blob, to be sent as one queue entry under a fresh id.
pub struct Message {
    pub body: String,
    pub id: String,
}

impl Message {
    pub fn new(body: String) -> (r: Message)
        ensures
            r.body@ == body@,
            is_uuid_v4_text(r.id@),
    {
        Message { body, id: Self::id() }
    }

    /// A fresh random identifier.
    pub fn id() -> (r: String)
        ensures
            is_uuid_v4_text(r@),
    {
        new_message_id()
    }
}

pub open spec fn bodies(m: Seq<Message>) -> Seq<Seq<char>> {
    m.map_values(|x: Message| x.body@)
}

/// The messages of one batch-send call, in order.
pub struct Batch {
    pub messages: Vec<Message>,
}

impl Batch {
    pub fn new(messages: Vec<Message>) -> (r: Batch)
        ensures
            r.messages@ == messages@,
    {
        Batch { messages }
    }

    /// One entry per message, in order: its id and its body.
    pub fn entries(self) -> (r: Vec<(String, String)>)
        ensures
            r@.len() == self.messages@.len(),
            forall|i: int|
                0 <= i < r@.len() ==> #[trigger] r@[i].0@ == self.messages@[i].id@ && r@[i].1@
                    == self.messages@[i].body@,
    {
        let mut out: Vec<(String, String)> = Vec::new();
        let mut i: usize = 0;
        while i < self.messages.len()
            invariant
                i <= self.messages@.len(),
                out@.len() == i,
                forall|k: int|
                    0 <= k < i ==> #[trigger] out@[k].0@ == self.messages@[k].id@ && out@[k].1@
                        == self.messages@[k].body@,
            decreases self.messages.len() - i,
        {
            let m = &self.messages[i];
            let id = m.id.clone();
            let body = m.body.clone();
            let ghost prev = out@;
            out.push((id, body));
            assert(out@ == prev.push((id, body)));
            assert(out@[i as int].0@ == self.messages@[i as int].id@);
            i += 1;
        }
        out
    }
}

/// The state of one producer invocation: the lines not yet batched, the
/// permits of the send calls in flight, and the counts reported so far.
pub struct Process {
    provisional: Vec<Message>,
    in_flight: usize,
    successful: usize,
    failed: usize,
    queue_url: String,
    finished: bool,
    seen: Ghost<Seq<Message>>,
    sent: Ghost<Seq<Seq<Message>>>,
    reports: Ghost<Seq<(nat, nat)>>,
}

impl Process {
    /// The lines taken in so far, as messages.
    pub closed spec fn lines(&self) -> Seq<Message> {
        self.seen@
    }

    /// The batches handed out so far, in order.
    pub closed spec fn batches(&self) -> Seq<Seq<Message>> {
        self.sent@
    }

    /// The messages taken in and not yet handed out in a batch.
    pub closed spec fn pending(&self) -> Seq<Message> {
        self.provisional@
    }

    /// The number of send calls in flight.
    pub closed spec fn in_flight(&self) -> nat {
        self.in_flight as nat
    }

    pub closed spec fn totals(&self) -> (nat, nat) {
        (self.successful as nat, self.failed as nat)
    }

    pub closed spec fn url(&self) -> Seq<char> {
        self.queue_url@
    }

    /// The counts of the send calls taken in so far, in the order they came.
    pub closed spec fn outcomes(&self) -> Seq<(nat, nat)> {
        self.reports@
    }

    /// Whether the lines have run out.
    pub closed spec fn is_finished(&self) -> bool {
        self.finished
    }

    /// The batches handed out and the pending messages give back every
    /// line in order; each batch holds between one and a full batch of
    /// messages, and all are full but, once the lines have run out, the last;
    /// fewer pending messages than a batch holds, none once the lines have run
    /// out; no more calls in flight than there are permits.
    pub closed spec fn wf(&self) -> bool {
        &&& flatten(self.sent@) + self.provisional@ == self.seen@
        &&& self.provisional@.len() < SQS_BATCH_LIMIT
        &&& forall|i: int|
            0 <= i < self.sent@.len() ==> 0 < #[trigger] self.sent@[i].len() <= SQS_BATCH_LIMIT
        &&& !self.finished ==> forall|i: int|
            0 <= i < self.sent@.len() ==> #[trigger] self.sent@[i].len() == SQS_BATCH_LIMIT
        &&& self.finished ==> self.provisional@.len() == 0 && forall|i: int|
            0 <= i < self.sent@.len() - 1 ==> #[trigger] self.sent@[i].len() == SQS_BATCH_LIMIT
        &&& self.in_flight <= PERMITS
        &&& total(self.reports@) == (self.successful as nat, self.failed as nat)
    }

    pub fn new(queue_url: String) -> (r: Process)
        ensures
            r.wf(),
            r.url() == queue_url@,
            r.lines() == Seq::<Message>::empty(),
            r.batches() == Seq::<Seq<Message>>::empty(),
            r.pending() == Seq::<Message>::empty(),
            r.in_flight() == 0,
            r.totals() == (0nat, 0nat),
            r.outcomes() == Seq::<(nat, nat)>::empty(),
            !r.is_finished(),
    {
        let r = Process {
            provisional: Vec::new(),
            in_flight: 0,
            successful: 0,
            failed: 0,
            queue_url,
            finished: false,
            seen: Ghost(Seq::empty()),
            sent: Ghost(Seq::empty()),
            reports: Ghost(Seq::empty()),
        };
        assert(flatten(r.sent@) + r.provisional@ =~= r.seen@);
        r
    }

    pub fn queue_url(&self) -> (r: &String)
        ensures
            r@ == self.url(),
    {
        &self.queue_url
    }

    /// Takes out the pending messages as a batch.
    fn get_batch(&mut self) -> (r: Batch)
        ensures
            r.messages@ == old(self).provisional@,
            final(self).provisional@ == Seq::<Message>::empty(),
            final(self).in_flight == old(self).in_flight,
            final(self).successful == old(self).successful,
            final(self).failed == old(self).failed,
            final(self).queue_url == old(self).queue_url,
            final(self).finished == old(self).finished,
            final(self).seen == old(self).seen,
            final(self).sent == old(self).sent,
            final(self).reports == old(self).reports,
    {
        let mut taken: Vec<Message> = Vec::new();
        std::mem::swap(&mut taken, &mut self.provisional);
        Batch::new(taken)
    }

    /// Takes in one line; once a full batch of lines is pending, hands it
    /// out.
    pub fn push_line(&mut self, line: String) -> (r: Option<Batch>)
        requires
            old(self).wf(),
            !old(self).is_finished(),
        ensures
            final(self).wf(),
            !final(self).is_finished(),
            final(self).url() == old(self).url(),
            final(self).in_flight() == old(self).in_flight(),
            final(self).totals() == old(self).totals(),
            final(self).outcomes() == old(self).outcomes(),
            final(self).lines().len() == old(self).lines().len() + 1,
            final(self).lines().drop_last() == old(self).lines(),
            final(self).lines().last().body@ == line@,
            match r {
                Some(b) => old(self).pending().len() + 1 == SQS_BATCH_LIMIT && b.messages@
                    == old(self).pending().push(final(self).lines().last()) && final(self).batches()
                    == old(self).batches().push(b.messages@) && final(self).pending().len() == 0,
                None => old(self).pending().len() + 1 < SQS_BATCH_LIMIT && final(self).batches()
                    == old(self).batches() && final(self).pending() == old(self).pending().push(
                    final(self).lines().last(),
                ),
            },
    {
        let m = Message::new(line);
        let ghost gm = m;
        self.provisional.push(m);
        self.seen = Ghost(self.seen@.push(gm));
        assert(flatten(self.sent@) + self.provisional@ =~= self.seen@);
        if self.provisional.len() == SQS_BATCH_LIMIT {
            let b = self.get_batch();
            proof {
                lemma_flatten_push(self.sent@, b.messages@);
            }
            self.sent = Ghost(self.sent@.push(b.messages@));
            assert(flatten(self.sent@) + self.provisional@ =~= self.seen@);
            Some(b)
        } else {
            None
        }
    }

    /// Once the lines have run out: hands out the pending messages as a
    /// last, shorter batch, if there are any. After it the batches handed
    /// out cut the lines into windows of `SQS_BATCH_LIMIT`.
    pub fn finish_lines(&mut self) -> (r: Option<Batch>)
        requires
            old(self).wf(),
        ensures
            final(self).wf(),
            final(self).is_finished(),
            final(self).url() == old(self).url(),
            final(self).in_flight() == old(self).in_flight(),
            final(self).totals() == old(self).totals(),
            final(self).outcomes() == old(self).outcomes(),
            final(self).lines() == old(self).lines(),
            final(self).pending().len() == 0,
            r is Some <==> old(self).pending().len() > 0,
            r matches Some(b) ==> b.messages@ == old(self).pending(),
            is_batching(final(self).batches(), final(self).lines(), SQS_BATCH_LIMIT as nat),
    {
        self.finished = true;
        if self.provisional.len() > 0 {
            let b = self.get_batch();
            proof {
                lemma_flatten_push(self.sent@, b.messages@);
            }
            self.sent = Ghost(self.sent@.push(b.messages@));
            assert(flatten(self.sent@) =~= self.seen@);
            Some(b)
        } else {
            assert(flatten(self.sent@) =~= self.seen@);
            None
        }
    }

    /// Takes a permit for one send call, if one is free.
    pub fn acquire(&mut self) -> (r: bool)
        requires
            old(self).wf(),
        ensures
            final(self).wf(),
            r == (old(self).in_flight() < PERMITS),
            final(self).in_flight() == if r {
                old(self).in_flight() + 1
            } else {
                old(self).in_flight()
            },
            final(self).in_flight() <= PERMITS,
            final(self).url() == old(self).url(),
            final(self).totals() == old(self).totals(),
            final(self).outcomes() == old(self).outcomes(),
            final(self).lines() == old(self).lines(),
            final(self).batches() == old(self).batches(),
            final(self).pending() == old(self).pending(),
            final(self).is_finished() == old(self).is_finished(),
    {
        if self.in_flight < PERMITS {
            self.in_flight = self.in_flight + 1;
            true
        } else {
            false
        }
    }

    /// Gives back the permit of a send call that ended, however it ended,
    /// and takes in its outcome: the counts of accepted and rejected entries,
    /// or the transport error, which is handed back so that the run stops.
    pub fn fold_result<E>(&mut self, result: Result<(usize, usize), E>) -> (r: Option<E>)
        requires
            old(self).wf(),
            old(self).in_flight() > 0,
            result matches Ok(c) ==> old(self).totals().0 + c.0 <= usize::MAX && old(self).totals().1
                + c.1 <= usize::MAX,
        ensures
            final(self).wf(),
            final(self).in_flight() == old(self).in_flight() - 1,
            final(self).url() == old(self).url(),
            final(self).lines() == old(self).lines(),
            final(self).batches() == old(self).batches(),
            final(self).pending() == old(self).pending(),
            final(self).is_finished() == old(self).is_finished(),
            result matches Ok(c) ==> r is None && final(self).totals().0 == old(self).totals().0 + c.0
                && final(self).totals().1 == old(self).totals().1 + c.1 && final(self).outcomes()
                == old(self).outcomes().push((c.0 as nat, c.1 as nat)),
            result matches Err(e) ==> r == Some(e) && final(self).totals() == old(self).totals()
                && final(self).outcomes() == old(self).outcomes(),
    {
        self.in_flight = self.in_flight - 1;
        match result {
            Ok(c) => {
                self.successful = self.successful + c.0;
                self.failed = self.failed + c.1;
                proof {
                    let next = self.reports@.push((c.0 as nat, c.1 as nat));
                    assert(next.drop_last() =~= self.reports@);
                    self.reports@ = next;
                }
                None
            },
            Err(e) => Some(e),
        }
    }

    /// The entries accepted and rejected so far.
    pub fn counts(&self) -> (r: (usize, usize))
        ensures
            r.0 == self.totals().0,
            r.1 == self.totals().1,
    {
        (self.successful, self.failed)
    }
}

/// However many lines come in, a well-formed process never has more send
/// calls in flight than there are permits.
pub proof fn lemma_in_flight_bounded(p: &Process)
    requires
        p.wf(),
    ensures
        p.in_flight() <= PERMITS,
{
}

/// The accepted and rejected counts of a sequence of send outcomes, summed.
pub open spec fn total(outs: Seq<(nat, nat)>) -> (nat, nat)
    decreases outs.len(),
{
    if outs.len() == 0 {
        (0, 0)
    } else {
        let p = total(outs.drop_last());
        (p.0 + outs.last().0, p.1 + outs.last().1)
    }
}

proof fn lemma_total_append(a: Seq<(nat, nat)>, b: Seq<(nat, nat)>)
    ensures
        total(a + b).0 == total(a).0 + total(b).0,
        total(a + b).1 == total(a).1 + total(b).1,
    decreases b.len(),
{
    if b.len() == 0 {
        assert(a + b =~= a);
    } else {
        lemma_total_append(a, b.drop_last());
        assert((a + b).drop_last() =~= a + b.drop_last());
    }
}

/// Folding the counts of send outcomes does not depend on the order in
/// which they come in.
pub proof fn lemma_counts_order_independent(s: Seq<(nat, nat)>, t: Seq<(nat, nat)>)
    requires
        s.to_multiset() == t.to_multiset(),
    ensures
        total(s) == total(t),
    decreases s.len(),
{
    broadcast use vstd::seq_lib::group_to_multiset_ensures;
    broadcast use vstd::multiset::group_multiset_axioms;

    if s.len() == 0 {
        assert(s.to_multiset().len() == s.len());
        assert(t.to_multiset().len() == t.len());
        assert(s =~= t);
    } else {
        let x = s.last();
        let d = s.drop_last();
        assert(d.push(x) =~= s);
        assert(s.to_multiset().count(x) > 0);
        assert(t.contains(x));
        let j = choose|j: int| 0 <= j < t.len() && t[j] == x;
        let u = t.remove(j);
        assert(d.to_multiset() =~= s.to_multiset().remove(x));
        assert(u.to_multiset() =~= t.to_multiset().remove(x));
        lemma_counts_order_independent(d, u);
        let l = t.take(j);
        let r = t.skip(j + 1);
        assert(u =~= l + r);
        assert(t =~= (l + seq![x]) + r);
        lemma_total_append(l + seq![x], r);
        lemma_total_append(l, seq![x]);
        lemma_total_append(l, r);
        let one = seq![x];
        assert(one.drop_last() =~= Seq::<(nat, nat)>::empty());
        assert(one.len() == 1 && one.last() == x);
        assert(total(one.drop_last()) == total(Seq::<(nat, nat)>::empty()));
        assert(total(Seq::<(nat, nat)>::empty()) == (0nat, 0nat));
        assert(total(seq![x]).0 == x.0 && total(seq![x]).1 == x.1);
        assert(total(s).0 == total(d).0 + x.0 && total(s).1 == total(d).1 + x.1);
        assert(total(s).0 == total(t).0 && total(s).1 == total(t).1);
    }
}

/// The counts of a run do not depend on the order in which the batches
/// complete: two runs that took in the same outcomes, in any order, report
/// the same counts.
pub proof fn lemma_run_counts_order_independent(p: &Process, q: &Process)
    requires
        p.wf(),
        q.wf(),
        p.outcomes().to_multiset() == q.outcomes().to_multiset(),
    ensures
        p.totals() == q.totals(),
{
    lemma_counts_order_independent(p.outcomes(), q.outcomes());
}

} // verus!
