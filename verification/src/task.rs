//! Deferred, single-shot tasks and the blocking driver that forces them to
//! run. A task is pure data: the markers its body will emit, in order, and
//! the result it will yield on completion. Building one runs nothing; all
//! progress happens when a driver advances it step by step.

use vstd::prelude::*;

verus! {

/// Where a task stands in its life cycle: built but never advanced, advanced
/// at least once but not yet finished, or finished with its result handed out.
/// `Completed` is terminal: a completed task cannot be advanced again.
pub enum Status {
    Created,
    Running,
    Completed,
}

/// What one advancement step reports: the task either still has work left, or
/// it has just finished and yields its result.
pub enum Step<T> {
    Pending,
    Ready(T),
}

/// A deferred, single-shot unit of work.
///
/// A task is inert when built: nothing of its body runs until a driver
/// advances it. Each advancement emits the next of the body's markers into
/// the driver's log; once every marker is out the task completes and hands
/// its result out exactly once. Re-driving a completed task is a contract
/// violation (`advance` requires a task that is not completed), and
/// `run_to_completion` consumes its task, so driving the same task twice
/// through the driver is rejected at compile time.
pub struct Task<T> {
    events: Vec<u64>,
    emitted: usize,
    status: Status,
    result: Option<T>,
}

impl<T> Task<T> {
    /// The markers the task's body emits, in order, one per advancement step.
    pub closed spec fn events(self) -> Seq<u64> {
        self.events@
    }

    /// How many of the body's markers have been emitted so far.
    pub closed spec fn emitted(self) -> nat {
        self.emitted as nat
    }

    /// The task's life-cycle status.
    pub closed spec fn status(self) -> Status {
        self.status
    }

    /// The result the body yields on completion. Meaningful only while the
    /// task still holds it, that is, before completion.
    pub closed spec fn result(self) -> T {
        self.result.unwrap()
    }

    /// True of a task that was built and never advanced.
    pub open spec fn is_created(self) -> bool {
        self.status() is Created
    }

    /// True of a task that has finished and handed its result out.
    pub open spec fn is_completed(self) -> bool {
        self.status() is Completed
    }

    /// True while the task still holds the result its body will yield, that
    /// is, until the completing step surrenders it.
    pub closed spec fn holds_result(self) -> bool {
        self.result is Some
    }

    /// Internal consistency: the emission cursor stays inside the body's
    /// markers, a freshly created task has emitted nothing, and the result is
    /// held exactly until completion.
    pub open spec fn wf(self) -> bool {
        &&& self.emitted() <= self.events().len()
        &&& (self.is_created() ==> self.emitted() == 0)
        &&& (self.status() is Running ==> self.emitted() < self.events().len())
        &&& (self.is_completed() <==> !self.holds_result())
        &&& (self.is_completed() ==> self.emitted() == self.events().len())
    }

    /// How much driving the task can still absorb: the markers not yet
    /// emitted, plus the one completing step. Every advancement strictly
    /// shrinks it, which bounds the driver loops.
    pub open spec fn remaining(self) -> int {
        self.events().len() - self.emitted() + if self.is_completed() {
            0int
        } else {
            1int
        }
    }

    /// Builds a task from a description of its body: the markers it will emit,
    /// in order, and the result it will yield on completion. Nothing runs
    /// here: the task comes back inert, in the created state, and no marker
    /// reaches any log until a driver advances it.
    pub fn create(events: Vec<u64>, result: T) -> (t: Task<T>)
        ensures
            t.wf(),
            t.is_created(),
            t.events() == events@,
            t.result() == result,
            t.emitted() == 0,
    {
        Task { events, emitted: 0, status: Status::Created, result: Some(result) }
    }

    /// Advances the task by one step on behalf of a driver: emits the body's
    /// next marker into `log`, and reports whether the task has now finished.
    /// The task completes exactly when its last marker is out, and only the
    /// completing step surrenders the result.
    pub fn advance(&mut self, log: &mut Vec<u64>) -> (step: Step<T>)
        requires
            old(self).wf(),
            !old(self).is_completed(),
        ensures
            final(self).wf(),
            final(self).events() == old(self).events(),
            old(self).emitted() < old(self).events().len() ==> (
            final(self).emitted() == old(self).emitted() + 1 && final(log)@ == old(log)@.push(
                old(self).events()[old(self).emitted() as int],
            )),
            old(self).emitted() == old(self).events().len() ==> (final(self).emitted() == old(
                self,
            ).emitted() && final(log)@ == old(log)@),
            (step is Ready) <==> final(self).is_completed(),
            final(self).is_completed() <==> final(self).emitted() == final(self).events().len(),
            step matches Step::Ready(r) ==> r == old(self).result(),
            step is Pending ==> (final(self).status() is Running && final(self).result() == old(
                self,
            ).result()),
    {
        if self.emitted < self.events.len() {
            let e = self.events[self.emitted];
            log.push(e);
            self.emitted = self.emitted + 1;
        }
        if self.emitted == self.events.len() {
            self.status = Status::Completed;
            let r = self.result.take();
            Step::Ready(r.unwrap())
        } else {
            self.status = Status::Running;
            Step::Pending
        }
    }
}

/// The blocking driver: repeatedly advances `task` on the calling thread
/// until it completes, then returns its result. This is the single point
/// where deferred work is forced to run, so everything already in `log` when
/// the driver is called stays strictly before every marker of the task's
/// body. The task is consumed: it cannot be driven a second time. A body
/// that can fail yields a `Result` as its result value, and the driver hands
/// it back unchanged, so the failure propagates to the caller.
pub fn run_to_completion<T>(log: &mut Vec<u64>, task: Task<T>) -> (r: T)
    requires
        task.wf(),
        task.is_created(),
    ensures
        r == task.result(),
        final(log)@ == old(log)@ + task.events(),
{
    let mut t = task;
    proof {
        assert(log@ == old(log)@ + t.events().take(0)) by {
            assert(old(log)@ + t.events().take(0) =~= old(log)@);
        }
    }
    loop
        invariant
            t.wf(),
            !t.is_completed(),
            t.events() == task.events(),
            t.result() == task.result(),
            log@ == old(log)@ + t.events().take(t.emitted() as int),
        decreases t.remaining(),
    {
        let ghost k: nat = t.emitted();
        let ghost seen: Seq<u64> = log@;
        match t.advance(log) {
            Step::Ready(r) => {
                proof {
                    assert(log@ == old(log)@ + t.events()) by {
                        if k < t.events().len() {
                            lemma_take_one_more(t.events(), k as int);
                            assert(seen.push(t.events()[k as int]) =~= old(log)@ + t.events().take(
                                k as int,
                            ).push(t.events()[k as int]));
                        }
                        assert(t.events().take(t.events().len() as int) =~= t.events());
                    }
                }
                return r;
            },
            Step::Pending => {
                proof {
                    lemma_take_one_more(t.events(), k as int);
                    assert(seen.push(t.events()[k as int]) =~= old(log)@ + t.events().take(
                        k as int,
                    ).push(t.events()[k as int]));
                }
            },
        }
    }
}

/// Taking one element more of a sequence appends exactly that element.
pub(crate) proof fn lemma_take_one_more(s: Seq<u64>, k: int)
    requires
        0 <= k < s.len(),
    ensures
        s.take(k + 1) == s.take(k).push(s[k]),
{
    assert(s.take(k + 1) =~= s.take(k).push(s[k]));
}

} // verus!
