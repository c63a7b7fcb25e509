//! Partition of the dynamic nodes into sectors, and the lock-state machine that
//! decides which sector may be relaxed next while others are being relaxed.

use vstd::prelude::*;

verus! {

/// A job for a worker: relax sector `.0` over the positions `.1 .. .2` of the
/// dynamic-index list; or stop.
#[derive(PartialEq, Eq, Clone, Copy, Debug)]
pub enum Message {
    Do((usize, usize, usize)),
    Terminate,
}

/// How many neighbouring jobs must still report before a sector may run.
#[derive(PartialEq, Eq, Structural, Clone, Copy, Debug)]
pub enum Lock {
    Unlocked,
    Locked1,
    Locked2,
}

/// Why a schedule could not be made or advanced.
#[derive(PartialEq, Eq, Structural, Clone, Copy, Debug)]
pub enum ScheduleError {
    /// The grid is too small for sectors that are wider than the stencil's reach.
    NotBeneficial,
    /// A result came for a sector that had no job outstanding.
    ProtocolViolation,
}

impl Lock {
    pub open spec fn level(self) -> int {
        match self {
            Lock::Unlocked => 0,
            Lock::Locked1 => 1,
            Lock::Locked2 => 2,
        }
    }

    /// Adds one outstanding dependency.
    pub fn up(&mut self)
        requires
            *old(self) != Lock::Locked2,
        ensures
            final(self).level() == old(self).level() + 1,
    {
        match *self {
            Lock::Unlocked => *self = Lock::Locked1,
            Lock::Locked1 => *self = Lock::Locked2,
            Lock::Locked2 => {},
        }
    }
}

/// The largest number of sectors that are still wider than twice the row width.
pub open spec fn max_sections(len: int, width: int) -> int {
    len / (2 * width)
}

/// Whether splitting `len` dynamic positions of a grid `width` wide is pointless.
pub open spec fn not_beneficial(len: int, width: int) -> bool {
    max_sections(len, width) <= 1
}

/// The number of sectors for `workers` workers: the even part of
/// `min(2 * workers, max_sections)`.
pub open spec fn sector_count(len: int, width: int, workers: int) -> int {
    let m = max_sections(len, width);
    let c = if 2 * workers < m { 2 * workers } else { m };
    c - c % 2
}

/// The sector boundaries: `k * (len / count)` for each sector `k`, then `len`.
pub open spec fn bounds_spec(len: int, count: int) -> Seq<int> {
    Seq::new((count + 1) as nat, |k: int| if k == count { len } else { k * (len / count) })
}

/// Sector boundaries over `dynamic_len` positions for `workers` workers, or
/// `NotBeneficial` where at most one sector would fit.
pub fn sector_bounds(dynamic_len: usize, width: usize, workers: usize) -> (r: Result<
    Vec<usize>,
    ScheduleError,
>)
    requires
        width >= 1,
        workers >= 1,
    ensures
        r is Err <==> not_beneficial(dynamic_len as int, width as int),
        r is Err ==> r == Err::<Vec<usize>, ScheduleError>(ScheduleError::NotBeneficial),
        r matches Ok(b) ==> {
            &&& sector_count(dynamic_len as int, width as int, workers as int) >= 2
            &&& b@.map_values(|x: usize| x as int) == bounds_spec(
                dynamic_len as int,
                sector_count(dynamic_len as int, width as int, workers as int),
            )
        },
{
    let max: usize = if width > dynamic_len / 2 {
        0
    } else {
        dynamic_len / (2 * width)
    };
    assert(max as int == max_sections(dynamic_len as int, width as int)) by {
        if width > dynamic_len / 2 {
            assert(dynamic_len < 2 * width);
            assert(dynamic_len as int / (2 * width as int) == 0) by (nonlinear_arith)
                requires
                    0 <= dynamic_len < 2 * width,
            ;
        }
    }
    if max <= 1 {
        return Err(ScheduleError::NotBeneficial);
    }
    assert(max <= dynamic_len / 2) by (nonlinear_arith)
        requires
            width >= 1,
            max == dynamic_len as int / (2 * width as int),
    ;
    let c: usize = if workers < max && 2 * workers < max {
        2 * workers
    } else {
        max
    };
    let count: usize = c - c % 2;
    assert(count == sector_count(dynamic_len as int, width as int, workers as int));
    let sector_width: usize = dynamic_len / count;
    let mut b: Vec<usize> = Vec::new();
    let mut k: usize = 0;
    while k < count
        invariant
            2 <= count <= dynamic_len,
            sector_width == dynamic_len / count,
            k <= count,
            b@.len() == k,
            forall|j: int| 0 <= j < k ==> b@[j] as int == j * sector_width,
        decreases count - k,
    {
        assert(k * sector_width <= dynamic_len) by (nonlinear_arith)
            requires
                k < count,
                count >= 1,
                sector_width == dynamic_len / count,
        ;
        b.push(k * sector_width);
        k = k + 1;
    }
    b.push(dynamic_len);
    assert(b@.map_values(|x: usize| x as int) =~= bounds_spec(dynamic_len as int, count as int));
    Ok(b)
}

/// Number of neighbours of sector `i` with a job outstanding.
pub open spec fn running_neighbours(running: Seq<bool>, i: int) -> int {
    (if i > 0 && running[i - 1] {
        1int
    } else {
        0int
    }) + (if i + 1 < running.len() && running[i + 1] {
        1int
    } else {
        0int
    })
}

/// How many of the flags are set.
pub open spec fn count_set(s: Seq<bool>) -> int
    decreases s.len(),
{
    if s.len() == 0 {
        0
    } else {
        count_set(s.drop_last()) + if s.last() {
            1int
        } else {
            0int
        }
    }
}

/// The job that relaxes sector `n` over its own positions.
pub open spec fn job(bounds: Seq<usize>, n: int) -> Message {
    Message::Do((n as usize, bounds[n], bounds[n + 1]))
}

/// The jobs of the sectors below `n` that are running, in ascending order.
pub open spec fn running_jobs(bounds: Seq<usize>, running: Seq<bool>, n: int) -> Seq<Message>
    decreases n,
{
    if n <= 0 {
        Seq::<Message>::empty()
    } else {
        running_jobs(bounds, running, n - 1) + if running[n - 1] {
            seq![job(bounds, n - 1)]
        } else {
            Seq::<Message>::empty()
        }
    }
}

/// The jobs that a result of sector `s` hands out: the higher neighbour's, then
/// the lower one's, each where that neighbour waited for this result alone.
pub open spec fn released_jobs(bounds: Seq<usize>, locks: Seq<Lock>, s: int) -> Seq<Message> {
    (if s + 1 < locks.len() && locks[s + 1] == Lock::Locked1 {
        seq![job(bounds, s + 1)]
    } else {
        Seq::<Message>::empty()
    }) + (if s > 0 && locks[s - 1] == Lock::Locked1 {
        seq![job(bounds, s - 1)]
    } else {
        Seq::<Message>::empty()
    })
}

/// Which sectors have a job outstanding once the result of sector `s` is handled.
pub open spec fn running_after(running: Seq<bool>, locks: Seq<Lock>, s: int) -> Seq<bool> {
    Seq::new(
        running.len(),
        |i: int|
            if i == s {
                false
            } else if (i == s + 1 || i == s - 1) && locks[i] == Lock::Locked1 {
                true
            } else {
                running[i]
            },
    )
}

/// The lock-state machine of one concurrent solve: which sector has a job
/// outstanding, how many neighbouring jobs each idle sector still waits for,
/// and whether each sector's latest result was within the tolerance.
pub struct SectorSchedule {
    bounds: Vec<usize>,
    locks: Vec<Lock>,
    running: Vec<bool>,
    settled: Vec<bool>,
}

impl SectorSchedule {
    pub closed spec fn bounds_view(&self) -> Seq<usize> {
        self.bounds@
    }

    pub closed spec fn locks_view(&self) -> Seq<Lock> {
        self.locks@
    }

    pub closed spec fn running_view(&self) -> Seq<bool> {
        self.running@
    }

    pub closed spec fn settled_view(&self) -> Seq<bool> {
        self.settled@
    }

    pub open spec fn count(&self) -> int {
        self.running_view().len() as int
    }

    /// Each sector's lock counts exactly its neighbours with a job outstanding,
    /// and no two neighbouring sectors have a job outstanding at once.
    pub open spec fn wf(&self) -> bool {
        let n = self.count();
        &&& self.locks_view().len() == n
        &&& self.settled_view().len() == n
        &&& self.bounds_view().len() == n + 1
        &&& forall|i: int|
            0 <= i < n ==> #[trigger] self.locks_view()[i].level() == running_neighbours(
                self.running_view(),
                i,
            )
        &&& forall|i: int|
            0 <= i < n - 1 ==> !(#[trigger] self.running_view()[i] && self.running_view()[i
                + 1])
    }

    /// The schedule of a solve over `dynamic_len` positions of a grid `width`
    /// wide with `workers` workers: every even sector starts with a job, each
    /// odd one waits for its neighbours; no sector is settled yet.
    pub fn new(dynamic_len: usize, width: usize, workers: usize) -> (r: Result<
        SectorSchedule,
        ScheduleError,
    >)
        requires
            width >= 1,
            workers >= 1,
        ensures
            r is Err <==> not_beneficial(dynamic_len as int, width as int),
            r is Err ==> r == Err::<SectorSchedule, ScheduleError>(
                ScheduleError::NotBeneficial,
            ),
            r matches Ok(s) ==> {
                let c = sector_count(dynamic_len as int, width as int, workers as int);
                &&& s.wf()
                &&& s.count() == c
                &&& s.bounds_view().map_values(|x: usize| x as int) == bounds_spec(
                    dynamic_len as int,
                    c,
                )
                &&& forall|i: int| 0 <= i < c ==> s.running_view()[i] == (i % 2 == 0)
                &&& forall|i: int| 0 <= i < c ==> !s.settled_view()[i]
            },
    {
        let bounds = match sector_bounds(dynamic_len, width, workers) {
            Ok(b) => b,
            Err(e) => {
                return Err(e);
            },
        };
        let ghost c = sector_count(dynamic_len as int, width as int, workers as int);
        assert(bounds@.len() == c + 1) by {
            assert(bounds@.map_values(|x: usize| x as int).len() == c + 1);
        }
        let count: usize = bounds.len() - 1;
        assert(count % 2 == 0);
        let mut locks: Vec<Lock> = Vec::new();
        let mut running: Vec<bool> = Vec::new();
        let mut settled: Vec<bool> = Vec::new();
        let mut i: usize = 0;
        while i < count
            invariant
                count % 2 == 0,
                count >= 2,
                i <= count,
                locks@.len() == i,
                running@.len() == i,
                settled@.len() == i,
                forall|j: int| 0 <= j < i ==> running@[j] == (j % 2 == 0),
                forall|j: int| 0 <= j < i ==> !settled@[j],
                forall|j: int|
                    0 <= j < i ==> #[trigger] locks@[j].level() == (if j % 2 == 0 {
                        0int
                    } else if j + 1 == count {
                        1int
                    } else {
                        2int
                    }),
            decreases count - i,
        {
            if i % 2 == 0 {
                locks.push(Lock::Unlocked);
                running.push(true);
            } else if i + 1 == count {
                locks.push(Lock::Locked1);
                running.push(false);
            } else {
                locks.push(Lock::Locked2);
                running.push(false);
            }
            settled.push(false);
            i = i + 1;
        }
        let s = SectorSchedule { bounds, locks, running, settled };
        assert forall|j: int| 0 <= j < count implies #[trigger] s.locks_view()[j].level()
            == running_neighbours(s.running_view(), j) by {}
        Ok(s)
    }

    /// The jobs of the sectors that have one outstanding, in ascending sector
    /// order, each once.
    pub fn initial_jobs(&self) -> (jobs: Vec<Message>)
        requires
            self.wf(),
        ensures
            jobs@ == running_jobs(self.bounds_view(), self.running_view(), self.count()),
    {
        let mut jobs: Vec<Message> = Vec::new();
        let mut n: usize = 0;
        while n < self.running.len()
            invariant
                self.wf(),
                n <= self.count(),
                jobs@ == running_jobs(self.bounds_view(), self.running_view(), n as int),
            decreases self.count() - n,
        {
            if self.running[n] {
                jobs.push(Message::Do((n, self.bounds[n], self.bounds[n + 1])));
            }
            n = n + 1;
            assert(jobs@ =~= running_jobs(self.bounds_view(), self.running_view(), n as int));
        }
        jobs
    }

    /// The locks count the running neighbours, except that each of the sectors
    /// `p` and `q` (where they lie in range) still waits for one more result.
    spec fn consistent_except(&self, p: int, q: int) -> bool {
        let n = self.count();
        &&& self.locks@.len() == n
        &&& self.settled@.len() == n
        &&& self.bounds@.len() == n + 1
        &&& forall|i: int|
            0 <= i < n ==> #[trigger] self.locks@[i].level() == running_neighbours(self.running@, i)
                + (if i == p || i == q {
                1int
            } else {
                0int
            })
        &&& forall|i: int| 0 <= i < n - 1 ==> !(#[trigger] self.running@[i] && self.running@[i + 1])
    }

    /// Handles, for the sector `s` that has just reported, its neighbour `n`:
    /// one dependency of `n` clears, and `n` gets a job if none is left. An
    /// unlocked neighbour would be racing `s` on their shared boundary: that
    /// is a `ProtocolViolation`, which the lock invariant rules out.
    fn release(&mut self, s: usize, n: usize, other: Ghost<int>, jobs: &mut Vec<Message>) -> (r:
        Result<(), ScheduleError>)
        requires
            old(self).consistent_except(n as int, other@),
            n < old(self).count(),
            s < old(self).count(),
            n == s + 1 || n + 1 == s,
            other@ == -1 || other@ + 1 == s,
            other@ != n,
            !old(self).running@[s as int],
            !old(self).running@[n as int],
        ensures
            r is Ok,
            final(self).consistent_except(other@, -1),
            final(self).bounds@ == old(self).bounds@,
            final(self).settled@ == old(self).settled@,
            forall|j: int|
                0 <= j < old(self).count() && (n > s ==> j < s) && (n < s ==> j > s)
                    ==> final(self).locks@[j] == old(self).locks@[j],
            final(self).running@ == if old(self).locks@[n as int] == Lock::Locked1 {
                old(self).running@.update(n as int, true)
            } else {
                old(self).running@
            },
            final(jobs)@ == old(jobs)@ + if old(self).locks@[n as int] == Lock::Locked1 {
                seq![job(old(self).bounds@, n as int)]
            } else {
                Seq::<Message>::empty()
            },
    {
        let ghost count = self.count();
        let ghost r0 = self.running@;
        let ghost l0 = self.locks@;
        assert(l0[n as int].level() == running_neighbours(r0, n as int) + 1);
        match self.locks[n] {
            Lock::Unlocked => {
                return Err(ScheduleError::ProtocolViolation);
            },
            Lock::Locked2 => {
                self.locks.set(n, Lock::Locked1);
                assert(self.locks@[n as int].level() == running_neighbours(self.running@, n as int));
                assert forall|i: int| 0 <= i < count implies #[trigger] self.locks@[i].level()
                    == running_neighbours(self.running@, i) + (if i == other@ || i == -1 {
                    1int
                } else {
                    0int
                }) by {
                    if i != n {
                        assert(l0[i].level() == running_neighbours(r0, i) + (if i == n || i
                            == other@ {
                            1int
                        } else {
                            0int
                        }));
                    }
                }
            },
            Lock::Locked1 => {
                assert(running_neighbours(r0, n as int) == 0);
                self.locks.set(n, Lock::Unlocked);
                self.running.set(n, true);
                let ghost m: int = if n > s { n + 1 } else { n - 1 };
                let mut ls = self.locks[s];
                assert(ls.level() == running_neighbours(r0, s as int));
                ls.up();
                self.locks.set(s, ls);
                if n > s {
                    if n < self.locks.len() - 1 {
                        assert(l0[m].level() == running_neighbours(r0, m));
                        let mut lm = self.locks[n + 1];
                        lm.up();
                        self.locks.set(n + 1, lm);
                    }
                } else {
                    if n > 0 {
                        assert(l0[m].level() == running_neighbours(r0, m));
                        let mut lm = self.locks[n - 1];
                        lm.up();
                        self.locks.set(n - 1, lm);
                    }
                }
                jobs.push(Message::Do((n, self.bounds[n], self.bounds[n + 1])));
                assert forall|i: int| 0 <= i < count implies #[trigger] self.locks@[i].level()
                    == running_neighbours(self.running@, i) + (if i == other@ || i == -1 {
                    1int
                } else {
                    0int
                }) by {
                    if i != n && i != s && i != m {
                        assert(l0[i].level() == running_neighbours(r0, i) + (if i == n || i
                            == other@ {
                            1int
                        } else {
                            0int
                        }));
                    }
                }
                assert forall|i: int| 0 <= i < count - 1 implies !(#[trigger] self.running@[i]
                    && self.running@[i + 1]) by {
                    assert(!(r0[i] && r0[i + 1]));
                }
            },
        }
        Ok(())
    }

    /// Takes the result of the job of `sector`: records whether it was within
    /// the tolerance, and hands out a job to each neighbour whose last
    /// dependency this result clears (the higher neighbour first).
    pub fn on_result(&mut self, sector: usize, within_tolerance: bool) -> (r: Result<
        Vec<Message>,
        ScheduleError,
    >)
        requires
            old(self).wf(),
        ensures
            final(self).wf(),
            r is Err <==> !(sector < old(self).count() && old(self).running_view()[sector as int]),
            r is Err ==> r == Err::<Vec<Message>, ScheduleError>(ScheduleError::ProtocolViolation)
                && *final(self) == *old(self),
            r matches Ok(jobs) ==> {
                &&& jobs@ == released_jobs(old(self).bounds_view(), old(self).locks_view(), sector as int)
                &&& final(self).running_view() == running_after(
                    old(self).running_view(),
                    old(self).locks_view(),
                    sector as int,
                )
                &&& final(self).settled_view() == old(self).settled_view().update(
                    sector as int,
                    within_tolerance,
                )
                &&& final(self).bounds_view() == old(self).bounds_view()
            },
    {
        if sector >= self.running.len() || !self.running[sector] {
            return Err(ScheduleError::ProtocolViolation);
        }
        let ghost l0 = self.locks@;
        let ghost r0 = self.running@;
        let ghost count = self.count();
        self.settled.set(sector, within_tolerance);
        self.running.set(sector, false);
        let ghost below: int = if sector > 0 { sector - 1 } else { -1 };
        let ghost above: int = if sector + 1 < count { sector + 1 } else { -1 };
        assert(self.consistent_except(above, below)) by {
            assert forall|i: int| 0 <= i < count implies #[trigger] self.locks@[i].level()
                == running_neighbours(self.running@, i) + (if i == above || i == below {
                1int
            } else {
                0int
            }) by {
                assert(l0[i].level() == running_neighbours(r0, i));
                if i > 0 {
                    assert(!(r0[i - 1] && r0[i]));
                }
                if i + 1 < count {
                    assert(!(r0[i] && r0[i + 1]));
                }
            }
            assert forall|i: int| 0 <= i < count - 1 implies !(#[trigger] self.running@[i]
                && self.running@[i + 1]) by {
                assert(!(r0[i] && r0[i + 1]));
            }
        }
        assert(sector > 0 ==> !(r0[sector - 1] && r0[sector as int]));
        assert(sector + 1 < count ==> !(r0[sector as int] && r0[sector + 1]));
        let mut jobs: Vec<Message> = Vec::new();
        if sector + 1 < self.running.len() {
            if let Err(e) = self.release(sector, sector + 1, Ghost(below), &mut jobs) {
                return Err(e);
            }
        } else {
            assert(self.consistent_except(below, -1)) by {
                assert forall|i: int| 0 <= i < count implies #[trigger] self.locks@[i].level()
                    == running_neighbours(self.running@, i) + (if i == below || i == -1 {
                    1int
                } else {
                    0int
                }) by {
                    assert(self.locks@[i].level() == running_neighbours(self.running@, i) + (
                    if i == above || i == below {
                        1int
                    } else {
                        0int
                    }));
                }
            }
        }
        if sector > 0 {
            if let Err(e) = self.release(sector, sector - 1, Ghost(-1), &mut jobs) {
                return Err(e);
            }
        } else {
            assert(self.consistent_except(-1, -1)) by {
                assert forall|i: int| 0 <= i < count implies #[trigger] self.locks@[i].level()
                    == running_neighbours(self.running@, i) + (if i == -1 || i == -1 {
                    1int
                } else {
                    0int
                }) by {
                    assert(self.locks@[i].level() == running_neighbours(self.running@, i) + (
                    if i == below || i == -1 {
                        1int
                    } else {
                        0int
                    }));
                }
            }
        }
        assert(self.running@ =~= running_after(r0, l0, sector as int));
        assert(jobs@ =~= released_jobs(self.bounds@, l0, sector as int));
        assert forall|i: int| 0 <= i < count implies #[trigger] self.locks_view()[i].level()
            == running_neighbours(self.running_view(), i) by {
            assert(self.locks@[i].level() == running_neighbours(self.running@, i) + (if i == -1
                || i == -1 {
                1int
            } else {
                0int
            }));
        }
        Ok(jobs)
    }

    /// Whether every sector's latest result was within the tolerance.
    pub fn is_settled(&self) -> (r: bool)
        requires
            self.wf(),
        ensures
            r == forall|i: int| 0 <= i < self.count() ==> #[trigger] self.settled_view()[i],
    {
        let mut i: usize = 0;
        while i < self.settled.len()
            invariant
                self.wf(),
                i <= self.count(),
                forall|j: int| 0 <= j < i ==> #[trigger] self.settled_view()[j],
            decreases self.count() - i,
        {
            if !self.settled[i] {
                return false;
            }
            i = i + 1;
        }
        true
    }

    /// The number of sectors with a job outstanding.
    pub fn outstanding(&self) -> (r: usize)
        requires
            self.wf(),
        ensures
            r == count_set(self.running_view()),
    {
        let mut c: usize = 0;
        let mut i: usize = 0;
        while i < self.running.len()
            invariant
                i <= self.running@.len(),
                c <= i,
                c == count_set(self.running@.subrange(0, i as int)),
            decreases self.running@.len() - i,
        {
            assert(self.running@.subrange(0, i + 1).drop_last() =~= self.running@.subrange(
                0,
                i as int,
            ));
            if self.running[i] {
                c = c + 1;
            }
            i = i + 1;
        }
        assert(self.running@.subrange(0, i as int) =~= self.running@);
        c
    }

    /// The number of sectors.
    pub fn sector_count(&self) -> (r: usize)
        requires
            self.wf(),
        ensures
            r == self.count(),
    {
        self.running.len()
    }
}

/// A grid whose dynamic positions are fewer than twice its width is never
/// split into sectors, whatever the number of workers.
pub proof fn lemma_small_grid_not_beneficial(len: int, width: int)
    requires
        0 <= len < 2 * width,
    ensures
        not_beneficial(len, width),
{
    assert(len / (2 * width) == 0) by (nonlinear_arith)
        requires
            0 <= len < 2 * width,
    ;
}

/// In every state of a schedule, a sector with a job outstanding has no
/// neighbour with a job outstanding and is itself unlocked.
pub proof fn lemma_no_neighbouring_jobs(sch: &SectorSchedule, i: int)
    requires
        sch.wf(),
        0 <= i < sch.count(),
        sch.running_view()[i],
    ensures
        i > 0 ==> !sch.running_view()[i - 1],
        i + 1 < sch.count() ==> !sch.running_view()[i + 1],
        sch.locks_view()[i] == Lock::Unlocked,
{
    assert(i > 0 ==> !(sch.running_view()[i - 1] && sch.running_view()[i - 1 + 1]));
    assert(i + 1 < sch.count() ==> !(sch.running_view()[i] && sch.running_view()[i + 1]));
    assert(sch.locks_view()[i].level() == running_neighbours(sch.running_view(), i));
}

/// One result changes the schedule only by dispatch that the protocol allows:
/// the reporting sector stops, a sector gets a new job only if it is a
/// neighbour of the reporting sector that waited for this result alone, and
/// no sector with a job outstanding afterwards has a neighbour with one.
pub proof fn lemma_result_dispatch_safe(before: &SectorSchedule, after: &SectorSchedule, s: int)
    requires
        before.wf(),
        after.wf(),
        0 <= s < before.count(),
        before.running_view()[s],
        after.running_view() == running_after(before.running_view(), before.locks_view(), s),
    ensures
        !after.running_view()[s],
        forall|n: int|
            0 <= n < after.count() && #[trigger] after.running_view()[n]
                && !before.running_view()[n] ==> {
                &&& n == s - 1 || n == s + 1
                &&& before.locks_view()[n] == Lock::Locked1
            },
        forall|n: int|
            0 <= n < after.count() && #[trigger] after.running_view()[n] ==> {
                &&& n > 0 ==> !after.running_view()[n - 1]
                &&& n + 1 < after.count() ==> !after.running_view()[n + 1]
            },
{
    assert forall|n: int|
        0 <= n < after.count() && #[trigger] after.running_view()[n] implies {
        &&& n > 0 ==> !after.running_view()[n - 1]
        &&& n + 1 < after.count() ==> !after.running_view()[n + 1]
    } by {
        assert(n > 0 ==> !(after.running_view()[n - 1] && after.running_view()[n - 1 + 1]));
        assert(n + 1 < after.count() ==> !(after.running_view()[n] && after.running_view()[n
            + 1]));
    }
}

} // verus!
