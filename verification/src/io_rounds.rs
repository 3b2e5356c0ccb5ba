//! A batch of requests that is carried out piece by piece, a round of submissions at a time.
use crate::error::KVError;
use crate::io_plan;
use crate::io_plan::{tag, Piece};
use vstd::prelude::*;
use vstd::string::*;

verus! {

/// Why a request failed.
#[derive(Debug, PartialEq, Eq)]
pub enum IoFailure {
    /// A piece could not be queued.
    Push(String),
    /// The round could not be submitted.
    Submit(String),
    /// A piece completed with this system error.
    Os(i32),
}

/// What a batch does. Each kind says in words of its own why a request failed.
#[derive(Debug, Clone, Copy, PartialEq, Eq, Structural)]
pub enum RoundWork {
    /// Writes.
    Write,
    /// Reads into memory of the caller.
    ReadInto,
    /// Reads into new memory.
    Read,
}

impl RoundWork {
    /// What is said where a piece could not be queued.
    pub open spec fn push_text(self) -> Seq<char> {
        match self {
            RoundWork::Write => "uring push: "@,
            RoundWork::ReadInto => "uring push read_into: "@,
            RoundWork::Read => "uring push read: "@,
        }
    }

    /// What is said where a round could not be submitted.
    pub open spec fn submit_text(self) -> Seq<char> {
        match self {
            RoundWork::Write => "uring submit: "@,
            RoundWork::ReadInto => "uring submit read_into: "@,
            RoundWork::Read => "uring submit read: "@,
        }
    }
}

/// The error that a failed request is answered with, unless it is one of the system.
pub fn failure_error(work: RoundWork, failure: &IoFailure) -> (r: Option<KVError>)
    ensures
        match *failure {
            IoFailure::Push(m) => r matches Some(KVError::Internal(e)) && e@ == work.push_text()
                + m@,
            IoFailure::Submit(m) => r matches Some(KVError::Internal(e)) && e@
                == work.submit_text() + m@,
            IoFailure::Os(_) => r is None,
        },
{
    match failure {
        IoFailure::Push(m) => {
            let mut out = match work {
                RoundWork::Write => "uring push: ".to_owned(),
                RoundWork::ReadInto => "uring push read_into: ".to_owned(),
                RoundWork::Read => "uring push read: ".to_owned(),
            };
            out.append(m.as_str());
            Some(KVError::Internal(out))
        },
        IoFailure::Submit(m) => {
            let mut out = match work {
                RoundWork::Write => "uring submit: ".to_owned(),
                RoundWork::ReadInto => "uring submit read_into: ".to_owned(),
                RoundWork::Read => "uring submit read: ".to_owned(),
            };
            out.append(m.as_str());
            Some(KVError::Internal(out))
        },
        IoFailure::Os(_) => None,
    }
}

/// One piece, with the request that it belongs to.
#[derive(Debug, Clone, Copy, PartialEq, Eq, Structural)]
pub struct Submission {
    pub io: usize,
    pub seq: usize,
    pub piece: Piece,
}

/// What the submitter does next.
#[derive(Debug, Clone, Copy, PartialEq, Eq, Structural)]
pub enum RoundStep {
    /// Queue this piece.
    Push(Submission),
    /// Submit the pieces queued in this round, of which there are so many, and take in their
    /// completions.
    Submit(usize),
    /// All pieces were dealt with.
    Done,
}

/// The pieces of the first `n` requests, those of requests that take part, in order.
pub open spec fn queue_of(plans: Seq<Seq<Piece>>, active: Seq<bool>, n: nat) -> Seq<Submission>
    decreases n,
{
    if n == 0 {
        Seq::empty()
    } else {
        let i = (n - 1) as nat;
        queue_of(plans, active, i) + (if active[i as int] {
            Seq::new(
                plans[i as int].len(),
                |s: int|
                    Submission { io: i as usize, seq: s as usize, piece: plans[i as int][s] },
            )
        } else {
            Seq::empty()
        })
    }
}

/// The plans of a list of requests.
pub open spec fn plan_views(plans: Seq<Vec<Piece>>) -> Seq<Seq<Piece>> {
    plans.map_values(|p: Vec<Piece>| p@)
}

/// A batch under way.
pub struct IoRounds {
    queue: Vec<Submission>,
    next: usize,
    round_end: usize,
    batch: usize,
    pushed: usize,
    active: Vec<bool>,
    failures: Vec<Option<IoFailure>>,
    transferred: Vec<usize>,
}

impl IoRounds {
    pub closed spec fn queue(&self) -> Seq<Submission> {
        self.queue@
    }

    /// The pieces dealt with so far.
    pub closed spec fn position(&self) -> nat {
        self.next as nat
    }

    /// Where the current round ends.
    pub closed spec fn round_end(&self) -> nat {
        self.round_end as nat
    }

    /// The pieces queued in the current round.
    pub closed spec fn pushed(&self) -> nat {
        self.pushed as nat
    }

    pub closed spec fn batch(&self) -> nat {
        self.batch as nat
    }

    /// The requests that take part.
    pub closed spec fn active(&self) -> Seq<bool> {
        self.active@
    }

    /// The failure of each request, if it has failed.
    pub closed spec fn failures(&self) -> Seq<Option<IoFailure>> {
        self.failures@
    }

    /// The bytes that each request has transferred.
    pub closed spec fn transferred(&self) -> Seq<usize> {
        self.transferred@
    }

    /// No round queues more pieces than the batch size, and every piece belongs to a request.
    pub open spec fn wf(&self) -> bool {
        &&& self.position() <= self.round_end() <= self.queue().len()
        &&& self.round_end() - self.position() + self.pushed() <= self.batch()
        &&& self.batch() > 0
        &&& self.active().len() == self.failures().len()
        &&& self.transferred().len() == self.failures().len()
        &&& forall|k: int|
            0 <= k < self.queue().len() ==> (#[trigger] self.queue()[k]).io < self.failures().len()
    }

    /// Where a round ends that opens after `from` pieces: it takes as many as make a batch, or
    /// all that are left.
    pub open spec fn round_from(&self, from: nat) -> nat {
        if from + self.batch() < self.queue().len() {
            from + self.batch()
        } else {
            self.queue().len()
        }
    }

    /// Where the round ends in which piece `k` is, if a round ends after `end` pieces and the
    /// next one opens there.
    pub open spec fn round_of(&self, end: nat, k: nat) -> nat
        decreases self.queue().len() - end,
    {
        if k < end || end >= self.queue().len() || self.batch() == 0 {
            end
        } else {
            self.round_of(self.round_from(end), k)
        }
    }

    /// Same requests and pieces.
    pub open spec fn same_work(&self, other: &IoRounds) -> bool {
        self.queue() == other.queue() && self.batch() == other.batch() && self.active()
            == other.active()
    }

    /// Starts a batch: the pieces of each request that takes part, request by request.
    pub fn new(plans: &Vec<Vec<Piece>>, active: Vec<bool>, queue_entries: u32) -> (r: IoRounds)
        requires
            plans@.len() == active@.len(),
        ensures
            r.wf(),
            r.queue() == queue_of(plan_views(plans@), active@, plans@.len()),
            r.batch() == (if queue_entries < 8 {
                4
            } else {
                queue_entries as int / 2
            }),
            r.active() == active@,
            r.position() == 0,
            r.round_end() == r.round_from(0),
            r.pushed() == 0,
            r.failures() == Seq::new(plans@.len(), |i: int| None::<IoFailure>),
            r.transferred() == Seq::new(plans@.len(), |i: int| 0usize),
    {
        let ghost views = plan_views(plans@);
        let mut queue: Vec<Submission> = Vec::new();
        let mut failures: Vec<Option<IoFailure>> = Vec::new();
        let mut transferred: Vec<usize> = Vec::new();
        let mut i: usize = 0;
        while i < plans.len()
            invariant
                i <= plans.len(),
                plans@.len() == active@.len(),
                views == plan_views(plans@),
                queue@ == queue_of(views, active@, i as nat),
                failures@ == Seq::new(i as nat, |k: int| None::<IoFailure>),
                transferred@ == Seq::new(i as nat, |k: int| 0usize),
                forall|k: int| 0 <= k < queue@.len() ==> (#[trigger] queue@[k]).io < i,
            decreases plans.len() - i,
        {
            let ghost before = queue@;
            if active[i] {
                let plan = &plans[i];
                proof {
                    assert(views[i as int] == plan@);
                }
                let mut s: usize = 0;
                while s < plan.len()
                    invariant
                        s <= plan.len(),
                        queue@ == before + Seq::new(
                            s as nat,
                            |k: int| Submission { io: i, seq: k as usize, piece: plan@[k] },
                        ),
                    decreases plan.len() - s,
                {
                    queue.push(Submission { io: i, seq: s, piece: plan[s] });
                    proof {
                        assert(queue@ =~= before + Seq::new(
                            (s + 1) as nat,
                            |k: int| Submission { io: i, seq: k as usize, piece: plan@[k] },
                        ));
                    }
                    s = s + 1;
                }
                proof {
                    assert(queue@ =~= queue_of(views, active@, (i + 1) as nat));
                }
            } else {
                proof {
                    assert(queue@ =~= queue_of(views, active@, (i + 1) as nat));
                }
            }
            failures.push(None);
            transferred.push(0);
            proof {
                assert(failures@ =~= Seq::new((i + 1) as nat, |k: int| None::<IoFailure>));
                assert(transferred@ =~= Seq::new((i + 1) as nat, |k: int| 0usize));
                assert forall|k: int| 0 <= k < queue@.len() implies (#[trigger] queue@[k]).io < i
                    + 1 by {
                    if k < before.len() {
                        assert(queue@[k] == before[k]);
                    }
                }
            }
            i = i + 1;
        }
        let batch: usize = io_plan::batch_size(queue_entries);
        let round_end: usize = if queue.len() < batch {
            queue.len()
        } else {
            batch
        };
        IoRounds { queue, next: 0, round_end, batch, pushed: 0, active, failures, transferred }
    }

    /// Decides what to do next. Pieces of a request that has failed are passed over.
    pub fn step(&mut self) -> (r: RoundStep)
        requires
            old(self).wf(),
        ensures
            final(self).wf(),
            final(self).same_work(old(self)),
            final(self).failures() == old(self).failures(),
            final(self).transferred() == old(self).transferred(),
            match r {
                RoundStep::Push(s) => {
                    &&& old(self).position() < final(self).position()
                    &&& s == old(self).queue()[final(self).position() - 1]
                    &&& old(self).failures()[s.io as int] is None
                    &&& forall|k: int|
                        old(self).position() <= k < final(self).position() - 1 ==> old(
                            self,
                        ).failures()[(#[trigger] old(self).queue()[k]).io as int] is Some
                    &&& final(self).pushed() == old(self).pushed() + 1
                    &&& old(self).pushed() > 0 ==> final(self).round_end() == old(self).round_end()
                    &&& final(self).round_end() == old(self).round_of(
                        old(self).round_end(),
                        (final(self).position() - 1) as nat,
                    )
                },
                RoundStep::Submit(n) => {
                    &&& n == old(self).pushed()
                    &&& n > 0
                    &&& final(self).pushed() == n
                    &&& final(self).round_end() == old(self).round_end()
                    &&& final(self).position() == final(self).round_end()
                    &&& forall|k: int|
                        old(self).position() <= k < final(self).position() ==> old(
                            self,
                        ).failures()[(#[trigger] old(self).queue()[k]).io as int] is Some
                },
                RoundStep::Done => {
                    &&& final(self).position() == final(self).queue().len()
                    &&& final(self).pushed() == 0
                    &&& old(self).pushed() == 0
                    &&& forall|k: int|
                        old(self).position() <= k < final(self).queue().len() ==> old(
                            self,
                        ).failures()[(#[trigger] old(self).queue()[k]).io as int] is Some
                },
            },
    {
        let ghost start = self.next as int;
        loop
            invariant
                self.wf(),
                self.same_work(old(self)),
                self.failures() == old(self).failures(),
                self.transferred() == old(self).transferred(),
                self.pushed() == old(self).pushed(),
                start == old(self).position(),
                start <= self.next,
                old(self).pushed() > 0 ==> self.round_end() == old(self).round_end(),
                forall|k: nat|
                    self.next <= k ==> #[trigger] old(self).round_of(old(self).round_end(), k)
                        == old(self).round_of(self.round_end(), k),
                forall|k: int|
                    start <= k < self.next ==> self.failures@[(#[trigger] self.queue@[k]).io as int]
                        is Some,
            decreases self.queue@.len() - self.next, self.queue@.len() - self.round_end,
        {
            if self.next < self.round_end {
                let s: Submission = self.queue[self.next];
                proof {
                    assert(self.queue()[self.next as int].io < self.failures().len());
                    assert(old(self).round_of(old(self).round_end(), self.next as nat)
                        == self.round_end());
                }
                if self.failures[s.io].is_none() {
                    self.next = self.next + 1;
                    self.pushed = self.pushed + 1;
                    return RoundStep::Push(s);
                }
                self.next = self.next + 1;
            } else if self.pushed > 0 {
                return RoundStep::Submit(self.pushed);
            } else if self.next < self.queue.len() {
                self.open_round();
            } else {
                return RoundStep::Done;
            }
        }
    }

    fn open_round(&mut self)
        requires
            old(self).wf(),
            old(self).position() == old(self).round_end(),
            old(self).round_end() < old(self).queue().len(),
        ensures
            final(self).wf(),
            final(self).same_work(old(self)),
            final(self).failures() == old(self).failures(),
            final(self).transferred() == old(self).transferred(),
            final(self).position() == old(self).position(),
            final(self).pushed() == 0,
            final(self).round_end() == old(self).round_from(old(self).position()),
    {
        let left: usize = self.queue.len() - self.next;
        self.round_end = if left < self.batch {
            self.queue.len()
        } else {
            self.next + self.batch
        };
        self.pushed = 0;
    }

    /// The piece handed out last could not be queued: its request has failed.
    pub fn push_failed(&mut self, io: usize, message: String)
        requires
            old(self).wf(),
            io < old(self).failures().len(),
            old(self).pushed() > 0,
        ensures
            final(self).wf(),
            final(self).same_work(old(self)),
            final(self).position() == old(self).position(),
            final(self).round_end() == old(self).round_end(),
            final(self).pushed() == old(self).pushed() - 1,
            final(self).failures() == old(self).failures().update(
                io as int,
                Some(IoFailure::Push(message)),
            ),
            final(self).transferred() == old(self).transferred(),
    {
        self.pushed = self.pushed - 1;
        self.failures.set(io, Some(IoFailure::Push(message)));
    }

    /// The round could not be submitted: every request that takes part and has not failed yet
    /// has failed now, and nothing more is submitted.
    pub fn submit_failed(&mut self, message: &String)
        requires
            old(self).wf(),
        ensures
            final(self).wf(),
            final(self).same_work(old(self)),
            final(self).position() == old(self).queue().len(),
            final(self).pushed() == 0,
            final(self).transferred() == old(self).transferred(),
            final(self).failures().len() == old(self).failures().len(),
            forall|i: int|
                0 <= i < old(self).failures().len() ==> {
                    if old(self).failures()[i] is None && old(self).active()[i] {
                        (#[trigger] final(self).failures()[i]) matches Some(IoFailure::Submit(m))
                            && m@ == message@
                    } else {
                        final(self).failures()[i] == old(self).failures()[i]
                    }
                },
    {
        let n: usize = self.failures.len();
        let mut i: usize = 0;
        while i < n
            invariant
                i <= n,
                n == self.failures@.len(),
                n == self.active@.len(),
                n == old(self).failures@.len(),
                self.queue@ == old(self).queue@,
                self.next == old(self).next,
                self.round_end == old(self).round_end,
                self.batch == old(self).batch,
                self.pushed == old(self).pushed,
                self.active@ == old(self).active@,
                self.transferred@ == old(self).transferred@,
                forall|k: int|
                    0 <= k < i ==> {
                        if old(self).failures@[k] is None && old(self).active@[k] {
                            (#[trigger] self.failures@[k]) matches Some(IoFailure::Submit(m)) && m@
                                == message@
                        } else {
                            self.failures@[k] == old(self).failures@[k]
                        }
                    },
                forall|k: int| i <= k < n ==> self.failures@[k] == old(self).failures@[k],
            decreases n - i,
        {
            if self.failures[i].is_none() && self.active[i] {
                self.failures.set(i, Some(IoFailure::Submit(message.clone())));
            }
            i = i + 1;
        }
        self.next = self.queue.len();
        self.round_end = self.queue.len();
        self.pushed = 0;
    }

    /// A piece completed: with the number of bytes transferred, or with a system error, given
    /// as its negative. A tag of no request is passed over.
    pub fn completed(&mut self, tag: u64, result: i32)
        requires
            old(self).wf(),
            result > i32::MIN,
            tag / 0x1_0000_0000 < old(self).failures().len() && result >= 0 ==> old(
                self,
            ).transferred()[(tag / 0x1_0000_0000) as int] + result <= usize::MAX,
        ensures
            final(self).wf(),
            final(self).same_work(old(self)),
            final(self).position() == old(self).position(),
            final(self).round_end() == old(self).round_end(),
            final(self).pushed() == old(self).pushed(),
            ({
                let i = (tag / 0x1_0000_0000) as int;
                if i >= old(self).failures().len() {
                    final(self).failures() == old(self).failures() && final(self).transferred()
                        == old(self).transferred()
                } else if result < 0 {
                    final(self).failures() == old(self).failures().update(
                        i,
                        Some(IoFailure::Os((-result) as i32)),
                    ) && final(self).transferred() == old(self).transferred()
                } else {
                    final(self).failures() == old(self).failures() && final(self).transferred()
                        == old(self).transferred().update(
                        i,
                        (old(self).transferred()[i] + result) as usize,
                    )
                }
            }),
    {
        let i: u64 = io_plan::decode_tag(tag);
        if i >= self.failures.len() as u64 {
            return;
        }
        let i: usize = i as usize;
        if result < 0 {
            self.failures.set(i, Some(IoFailure::Os(0 - result)));
        } else {
            let have: usize = self.transferred[i];
            self.transferred.set(i, have + result as usize);
        }
    }

    /// The round was submitted and its completions were taken in: the next one begins.
    pub fn round_done(&mut self)
        requires
            old(self).wf(),
            old(self).position() == old(self).round_end(),
        ensures
            final(self).wf(),
            final(self).same_work(old(self)),
            final(self).failures() == old(self).failures(),
            final(self).transferred() == old(self).transferred(),
            final(self).position() == old(self).position(),
            final(self).round_end() == old(self).round_from(old(self).position()),
            final(self).pushed() == 0,
    {
        self.pushed = 0;
        if self.next < self.queue.len() {
            self.open_round();
        }
    }

    /// Whether a request takes part and has not failed.
    pub fn succeeded(&self, io: usize) -> (r: bool)
        requires
            self.wf(),
            io < self.failures().len(),
        ensures
            r == (self.active()[io as int] && self.failures()[io as int] is None),
    {
        self.active[io] && self.failures[io].is_none()
    }

    /// The bytes of a file that a request has read: what was transferred, without the padding
    /// past the end of the file. `None` for a request that failed or does not take part.
    pub fn bytes_read(&self, io: usize, file_size: usize) -> (r: Option<usize>)
        requires
            self.wf(),
            io < self.failures().len(),
        ensures
            r == (if self.active()[io as int] && self.failures()[io as int] is None {
                Some(
                    if self.transferred()[io as int] < file_size {
                        self.transferred()[io as int]
                    } else {
                        file_size
                    },
                )
            } else {
                None
            }),
    {
        if self.active[io] && self.failures[io].is_none() {
            let n: usize = self.transferred[io];
            if n < file_size {
                Some(n)
            } else {
                Some(file_size)
            }
        } else {
            None
        }
    }

    /// The failure of a request, if it has failed.
    pub fn failure(&self, io: usize) -> (r: &Option<IoFailure>)
        requires
            self.wf(),
            io < self.failures().len(),
        ensures
            *r == self.failures()[io as int],
    {
        &self.failures[io]
    }
}

/// Every piece of every request that takes part is in the queue, under its own tag, and nothing
/// else is.
pub proof fn queue_is_complete(plans: Seq<Seq<Piece>>, active: Seq<bool>, n: nat)
    requires
        plans.len() == active.len(),
        n <= plans.len(),
        plans.len() <= u32::MAX,
        forall|i: int| 0 <= i < plans.len() ==> (#[trigger] plans[i]).len() <= u32::MAX,
    ensures
        forall|i: int, s: int|
            0 <= i < n && active[i] && 0 <= s < plans[i].len() ==> #[trigger] queue_of(
                plans,
                active,
                n,
            ).contains(submission(plans, i, s)),
        forall|k: int|
            0 <= k < queue_of(plans, active, n).len() ==> is_planned(
                plans,
                active,
                n,
                #[trigger] queue_of(plans, active, n)[k],
            ),
    decreases n,
{
    if n > 0 {
        let m = (n - 1) as nat;
        queue_is_complete(plans, active, m);
        let front = queue_of(plans, active, m);
        let whole = queue_of(plans, active, n);
        assert forall|i: int, s: int|
            0 <= i < n && active[i] && 0 <= s < plans[i].len() implies #[trigger] whole.contains(
            submission(plans, i, s),
        ) by {
            if i < m {
                assert(front.contains(submission(plans, i, s)));
                let k = choose|k: int| 0 <= k < front.len() && front[k] == submission(plans, i, s);
                assert(whole[k] == front[k]);
            } else {
                assert(whole[front.len() + s] == submission(plans, i, s));
            }
        }
        assert forall|k: int| 0 <= k < whole.len() implies is_planned(
            plans,
            active,
            n,
            #[trigger] whole[k],
        ) by {
            if k < front.len() {
                assert(whole[k] == front[k]);
                assert(is_planned(plans, active, m, front[k]));
            }
        }
    }
}

/// Piece `s` of request `i`.
pub open spec fn submission(plans: Seq<Seq<Piece>>, i: int, s: int) -> Submission {
    Submission { io: i as usize, seq: s as usize, piece: plans[i][s] }
}

/// The submission is a piece of one of the first `n` requests, which takes part.
pub open spec fn is_planned(plans: Seq<Seq<Piece>>, active: Seq<bool>, n: nat, x: Submission) -> bool {
    x.io < n && active[x.io as int] && x.seq < plans[x.io as int].len() && x == submission(
        plans,
        x.io as int,
        x.seq as int,
    )
}

} // verus!
