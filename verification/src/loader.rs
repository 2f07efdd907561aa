//! Background loading: jobs and their results, the one request that may
//! still complete (a newer request or a cancel supersedes it), and a cache
//! of sessions bounded in count and in memory.
use crate::clipboard::{try_receive, Received};
use crate::history::{entry_views, opt_text, Entry, History};
use crate::resume::{Plan, Ready, Settings};
use crate::session::Session;
use std::sync::atomic::AtomicU64;
use std::sync::mpsc::{Receiver, Sender};
use std::sync::Arc;
use std::collections::VecDeque;
use vstd::prelude::*;

verus! {

#[verifier::external_type_specification]
#[verifier::external_body]
#[verifier::reject_recursive_types(T)]
pub struct ExSender<T>(Sender<T>);

/// What a background job produces.
#[derive(Clone, Copy, Debug, PartialEq, Eq, Structural)]
pub enum Target {
    History,
    OpenSession,
    ReloadSession,
    PrepareResume,
}

/// A background job.
pub enum Job {
    /// Load and merge these history files.
    History(Vec<String>),
    /// Find session `id` under `directory` and load it.
    OpenSession { directory: String, id: String, origin: Option<String> },
    /// Load this session file again.
    ReloadSession(String),
    /// Prepare a resume of a recorded session.
    PrepareResume { plan: Plan, settings: Settings, directory: String, session_path: Option<String> },
}

/// What a job produces.
pub open spec fn job_target(job: Job) -> Target {
    match job {
        Job::History(_) => Target::History,
        Job::OpenSession { .. } => Target::OpenSession,
        Job::ReloadSession(_) => Target::ReloadSession,
        Job::PrepareResume { .. } => Target::PrepareResume,
    }
}

impl Job {
    /// What this job produces.
    pub fn target(&self) -> (r: Target)
        ensures
            r == job_target(*self),
    {
        match self {
            Job::History(_) => Target::History,
            Job::OpenSession { .. } => Target::OpenSession,
            Job::ReloadSession(_) => Target::ReloadSession,
            Job::PrepareResume { .. } => Target::PrepareResume,
        }
    }
}

/// A finished job's result.
pub enum Loaded {
    Resume(Ready),
    History(History),
    Session { session: Session, cached: bool, origin: Option<String> },
}

/// News from the background reader.
pub enum Event {
    Progress { target: Target, message: String },
    Finished { target: Target, result: Result<Loaded, String> },
}

/// A job sent to the background reader, with its request number.
pub struct Request {
    pub id: u64,
    pub job: Job,
}

/// News from the background reader about request `id`.
pub struct Envelope {
    pub id: u64,
    pub event: Event,
}

/// What to do with a received envelope.
pub enum Step {
    /// Hand this event to the interface.
    Deliver(Event),
    /// A superseded request's news: look for more.
    Skip,
    /// Nothing (more) to hand over now.
    Idle,
}

/// The request number after `id` (wrapping, as `AtomicU64::fetch_add` does).
pub open spec fn next_id(id: u64) -> u64 {
    if id == u64::MAX {
        0
    } else {
        (id + 1) as u64
    }
}

/// Sends a request to the background reader (`Sender::send`); false when
/// the reader has stopped.
#[verifier::external_body]
fn send_request(requests: &Sender<Request>, request: Request) -> bool {
    requests.send(request).is_ok()
}

/// The background reader's handle: the latest request number, shared with
/// the reader so that it drops superseded work, and what is being loaded.
pub struct Loader {
    requests: Option<Sender<Request>>,
    events: Receiver<Envelope>,
    generation: Arc<AtomicU64>,
    current: u64,
    pending: Option<Target>,
}

impl Loader {
    /// The number of the latest request; only its news is handed over.
    pub closed spec fn request_id(&self) -> u64 {
        self.current
    }

    /// What is being loaded, if anything.
    pub closed spec fn waiting(&self) -> Option<Target> {
        self.pending
    }

    /// What is being loaded, if anything.
    pub fn pending(&self) -> (r: Option<Target>)
        ensures
            r == self.waiting(),
    {
        self.pending
    }

    /// Where requests are sent, while the reader is connected.
    pub closed spec fn sends_to(&self) -> Option<Sender<Request>> {
        self.requests
    }

    /// Where the reader's news comes from.
    pub closed spec fn hears_from(&self) -> Receiver<Envelope> {
        self.events
    }

    /// The request number shared with the reader.
    pub closed spec fn shares(&self) -> Arc<AtomicU64> {
        self.generation
    }

    /// A handle on a reader that takes requests from `requests`, sends news
    /// on `events` and reads the latest request number from `generation`.
    pub fn connect(requests: Sender<Request>, events: Receiver<Envelope>, generation: Arc<AtomicU64>) -> (r: Loader)
        ensures
            r.request_id() == 0,
            r.waiting() is None,
            r.sends_to() == Some(requests),
            r.hears_from() == events,
            r.shares() == generation,
    {
        generation.store(0, std::sync::atomic::Ordering::Relaxed);
        Loader { requests: Some(requests), events, generation, current: 0, pending: None }
    }

    /// Takes a new request number and shares it with the reader.
    fn advance(&mut self) -> (id: u64)
        ensures
            id == next_id(old(self).current),
            final(self).current == id,
            final(self).pending == old(self).pending,
            final(self).requests == old(self).requests,
            final(self).events == old(self).events,
            final(self).generation == old(self).generation,
    {
        let id = self.current.wrapping_add(1);
        self.current = id;
        self.generation.store(id, std::sync::atomic::Ordering::Relaxed);
        id
    }

    /// Starts a job; earlier requests can no longer complete.
    pub fn start(&mut self, job: Job) -> (r: Result<(), String>)
        ensures
            final(self).request_id() == next_id(old(self).request_id()),
            r is Ok ==> final(self).waiting() == Some(job_target(job)),
            r is Err ==> final(self).waiting() == old(self).waiting() && (r->Err_0@ == "Loader closed"@
                || r->Err_0@ == "Background loader stopped"@),
            final(self).sends_to() == old(self).sends_to(),
            final(self).hears_from() == old(self).hears_from(),
            final(self).shares() == old(self).shares(),
    {
        let id = self.advance();
        let target = job.target();
        match &self.requests {
            None => Err(String::from_str("Loader closed")),
            Some(requests) => {
                if !send_request(requests, Request { id, job }) {
                    return Err(String::from_str("Background loader stopped"));
                }
                self.pending = Some(target);
                Ok(())
            },
        }
    }

    /// Cancels the current request: its news is dropped.
    pub fn cancel(&mut self)
        ensures
            final(self).request_id() == next_id(old(self).request_id()),
            final(self).waiting() is None,
            final(self).sends_to() == old(self).sends_to(),
            final(self).hears_from() == old(self).hears_from(),
            final(self).shares() == old(self).shares(),
    {
        self.advance();
        self.pending = None;
    }

    /// What a receive means: news of the latest request is handed over (a
    /// finished job ends the wait); older news is skipped; a stopped reader
    /// fails the job being waited for.
    pub fn take(&mut self, received: Received<Envelope>) -> (r: Step)
        ensures
            took(*old(self), received, *final(self), r),
    {
        match received {
            Received::Item(envelope) => {
                if envelope.id == self.current {
                    if let Event::Finished { .. } = &envelope.event {
                        self.pending = None;
                    }
                    Step::Deliver(envelope.event)
                } else {
                    Step::Skip
                }
            },
            Received::Empty => Step::Idle,
            Received::Closed => match self.pending {
                Some(target) => {
                    self.pending = None;
                    Step::Deliver(
                        Event::Finished {
                            target,
                            result: Err(String::from_str("Background loader stopped")),
                        },
                    )
                },
                None => Step::Idle,
            },
        }
    }

    /// The next news of the latest request, skipping superseded news (at most
    /// `usize::MAX` envelopes per call).
    pub fn poll(&mut self) -> (r: Option<Event>)
        ensures
            final(self).request_id() == old(self).request_id(),
            r is None ==> final(self).waiting() == old(self).waiting(),
            r matches Some(e) ==> final(self).waiting() == if e is Finished {
                None
            } else {
                old(self).waiting()
            },
            final(self).sends_to() == old(self).sends_to(),
            final(self).hears_from() == old(self).hears_from(),
            final(self).shares() == old(self).shares(),
    {
        let ghost start = self.current;
        let ghost was = self.pending;
        let mut budget: usize = usize::MAX;
        while budget > 0
            invariant
                start == old(self).current,
                was == old(self).pending,
                self.current == start,
                self.pending == was,
                self.requests == old(self).requests,
                self.events == old(self).events,
                self.generation == old(self).generation,
            decreases budget,
        {
            let received = try_receive(&self.events);
            match self.take(received) {
                Step::Deliver(event) => {
                    return Some(event);
                },
                Step::Skip => {
                    budget = budget - 1;
                },
                Step::Idle => {
                    return None;
                },
            }
        }
        None
    }
}

/// What one receive does to the handle `a`, giving `b` and step `r` (the
/// contract of `Loader::take`): news numbered with the latest request is
/// handed over and a finished job ends the wait; other news is skipped; a
/// stopped reader fails the job being waited for.
pub open spec fn took(a: Loader, received: Received<Envelope>, b: Loader, r: Step) -> bool {
    &&& b.request_id() == a.request_id()
    &&& match received {
        Received::Item(envelope) => if envelope.id == a.request_id() {
            r == Step::Deliver(envelope.event) && b.waiting() == (
            if envelope.event is Finished {
                None
            } else {
                a.waiting()
            })
        } else {
            r is Skip && b.waiting() == a.waiting()
        },
        Received::Empty => r is Idle && b.waiting() == a.waiting(),
        Received::Closed => match a.waiting() {
            Some(t) => b.waiting() is None && r is Deliver && r->Deliver_0 is Finished
                && r->Deliver_0->Finished_target == t && r->Deliver_0->Finished_result is Err
                && r->Deliver_0->Finished_result->Err_0@ == "Background loader stopped"@,
            None => r is Idle && b.waiting() is None,
        },
    }
    &&& b.sends_to() == a.sends_to()
    &&& b.hears_from() == a.hears_from()
    &&& b.shares() == a.shares()
}

/// Which of the requests waiting for the reader (oldest first) to run: the
/// newest, as it supersedes the others.
pub fn newest_request(ids: &Vec<u64>) -> (r: Option<usize>)
    ensures
        r == if ids.len() == 0 {
            None
        } else {
            Some((ids.len() - 1) as usize)
        },
{
    if ids.len() == 0 {
        None
    } else {
        Some(ids.len() - 1)
    }
}

/// How the reader goes on with request `id` at a step of phase `phase`,
/// `latest` being the latest request number and `last` the phase of the
/// previous progress report with the milliseconds since it: an error
/// ("Loading cancelled") once a newer request or a cancel took over; else
/// whether to report progress now, which it does for the first report, a
/// new phase, or after 100 ms.
pub fn progress_step(latest: u64, id: u64, last: Option<(&str, u64)>, phase: &str) -> (r: Result<bool, String>)
    ensures
        r is Err <==> latest != id,
        r matches Err(e) ==> e@ == "Loading cancelled"@,
        r matches Ok(due) ==> due == match last {
            None => true,
            Some((p, ms)) => p@ != phase@ || ms >= 100,
        },
{
    if latest != id {
        return Err(String::from_str("Loading cancelled"));
    }
    match last {
        None => Ok(true),
        Some((p, ms)) => Ok(!crate::text::str_equals(p, phase) || ms >= 100),
    }
}

/// A progress report: the phase, the count so far, and how to cancel.
pub fn progress_message(phase: &str, count: usize) -> (r: String)
    ensures
        r@ == phase@ + " · "@ + crate::formatting::decimal(count as int) + " · Esc cancels"@,
{
    let mut text = crate::text::chars_of(phase);
    crate::text::extend_chars(&mut text, crate::text::chars_of(" · ").as_slice());
    crate::text::extend_chars(&mut text, crate::formatting::digits_of(count as u64).as_slice());
    crate::text::extend_chars(&mut text, crate::text::chars_of(" · Esc cancels").as_slice());
    crate::text::string_of(text.as_slice())
}

/// Whether `states` is a run of receives: each handle follows from the one
/// before by `took`, with the step in `steps`.
pub open spec fn run_of(states: Seq<Loader>, received: Seq<Received<Envelope>>, steps: Seq<Step>) -> bool {
    &&& states.len() == received.len() + 1
    &&& steps.len() == received.len()
    &&& forall|k: int| 0 <= k < received.len() ==> took(states[k], #[trigger] received[k], states[k + 1], steps[k])
}

proof fn lemma_run_keeps_number(states: Seq<Loader>, received: Seq<Received<Envelope>>, steps: Seq<Step>, k: int)
    requires
        run_of(states, received, steps),
        0 <= k <= received.len(),
    ensures
        states[k].request_id() == states[0].request_id(),
    decreases k,
{
    if k > 0 {
        lemma_run_keeps_number(states, received, steps, k - 1);
        assert(took(states[k - 1], received[k - 1], states[k], steps[k - 1]));
    }
}

/// Law: after `start` (or any step that made `states[0]` wait for request
/// number `n`), every later receive hands over only news numbered `n`, or
/// the failure of the job being waited for when the reader stops: news of
/// earlier requests never comes through.
pub proof fn lemma_only_latest_news_is_delivered(
    states: Seq<Loader>,
    received: Seq<Received<Envelope>>,
    steps: Seq<Step>,
)
    requires
        run_of(states, received, steps),
    ensures
        forall|k: int|
            0 <= k < steps.len() ==> #[trigger] states[k].request_id() == states[0].request_id(),
        forall|k: int|
            0 <= k < steps.len() && steps[k] is Deliver ==> match #[trigger] received[k] {
                Received::Item(envelope) => envelope.id == states[0].request_id() && steps[k] == Step::Deliver(
                    envelope.event,
                ),
                Received::Closed => steps[k]->Deliver_0 is Finished && steps[k]->Deliver_0->Finished_result is Err,
                Received::Empty => false,
            },
{
    assert forall|k: int| 0 <= k < steps.len() implies #[trigger] states[k].request_id()
        == states[0].request_id() by {
        lemma_run_keeps_number(states, received, steps, k);
    }
    assert forall|k: int| 0 <= k < steps.len() && steps[k] is Deliver implies match #[trigger] received[k] {
        Received::Item(envelope) => envelope.id == states[0].request_id() && steps[k] == Step::Deliver(
            envelope.event,
        ),
        Received::Closed => steps[k]->Deliver_0 is Finished && steps[k]->Deliver_0->Finished_result is Err,
        Received::Empty => false,
    } by {
        lemma_run_keeps_number(states, received, steps, k);
        assert(took(states[k], received[k], states[k + 1], steps[k]));
    }
}

/// Law: after `cancel`, which moved the request number past `last` and
/// ended the wait, receives hand nothing over while only news of requests
/// up to `last` arrives (numbers below the one that wraps): each is skipped
/// or finds nothing, and nothing is waited for.
pub proof fn lemma_cancelled_news_is_dropped(
    states: Seq<Loader>,
    received: Seq<Received<Envelope>>,
    steps: Seq<Step>,
    last: u64,
)
    requires
        run_of(states, received, steps),
        last < u64::MAX,
        states[0].request_id() == next_id(last),
        states[0].waiting() is None,
        forall|k: int| 0 <= k < received.len() ==> (#[trigger] received[k] matches Received::Item(e) ==> e.id <= last),
    ensures
        forall|k: int| 0 <= k < steps.len() ==> !(#[trigger] steps[k] is Deliver),
        forall|k: int| 0 <= k < states.len() ==> (#[trigger] states[k]).waiting() is None,
{
    lemma_cancel_run(states, received, steps, last, received.len() as int);
}

proof fn lemma_cancel_run(
    states: Seq<Loader>,
    received: Seq<Received<Envelope>>,
    steps: Seq<Step>,
    last: u64,
    n: int,
)
    requires
        run_of(states, received, steps),
        0 <= n <= received.len(),
        last < u64::MAX,
        states[0].request_id() == next_id(last),
        states[0].waiting() is None,
        forall|k: int| 0 <= k < received.len() ==> (#[trigger] received[k] matches Received::Item(e) ==> e.id <= last),
    ensures
        forall|k: int| 0 <= k < n ==> !(#[trigger] steps[k] is Deliver),
        forall|k: int| 0 <= k <= n ==> (#[trigger] states[k]).waiting() is None,
    decreases n,
{
    if n > 0 {
        lemma_cancel_run(states, received, steps, last, n - 1);
        lemma_run_keeps_number(states, received, steps, n - 1);
        assert(took(states[n - 1], received[n - 1], states[n], steps[n - 1]));
        assert(states[n - 1].waiting() is None);
    }
}

/// What a session file looked like on disk: its size and modification time
/// (nanoseconds from the Unix epoch, when the platform gives one).
#[derive(Clone, Copy, Debug, PartialEq, Eq, Structural)]
pub struct Stamp {
    pub size: u64,
    pub modified: Option<i128>,
}

/// A cached session, the file stamp it was read under, and its memory use.
pub struct Cached {
    pub path: String,
    pub stamp: Stamp,
    pub session: Session,
    pub bytes: usize,
}

/// The memory use recorded for cached sessions.
pub open spec fn total_bytes(cs: Seq<Cached>) -> int
    decreases cs.len(),
{
    if cs.len() == 0 {
        0
    } else {
        total_bytes(cs.drop_last()) + cs.last().bytes
    }
}

proof fn lemma_total_push(cs: Seq<Cached>, c: Cached)
    ensures
        total_bytes(cs.push(c)) == total_bytes(cs) + c.bytes,
{
    assert(cs.push(c).drop_last() =~= cs);
}

proof fn lemma_total_remove(cs: Seq<Cached>, i: int)
    requires
        0 <= i < cs.len(),
    ensures
        total_bytes(cs.remove(i)) == total_bytes(cs) - cs[i].bytes,
        total_bytes(cs) >= cs[i].bytes,
    decreases cs.len(),
{
    lemma_total_nonneg(cs.drop_last());
    if i < cs.len() - 1 {
        assert(cs.remove(i).drop_last() =~= cs.drop_last().remove(i));
        assert(cs.remove(i).last() == cs.last());
        lemma_total_remove(cs.drop_last(), i);
    } else {
        assert(cs.remove(i) =~= cs.drop_last());
    }
}

proof fn lemma_total_nonneg(cs: Seq<Cached>)
    ensures
        total_bytes(cs) >= 0,
    decreases cs.len(),
{
    if cs.len() > 0 {
        lemma_total_nonneg(cs.drop_last());
    }
}

/// The first cached session read from `path`.
pub open spec fn cached_at(cs: Seq<Cached>, path: Seq<char>, from: int) -> Option<int>
    decreases cs.len() - from,
{
    if from < 0 || from >= cs.len() {
        None
    } else if cs[from].path@ == path {
        Some(from)
    } else {
        cached_at(cs, path, from + 1)
    }
}

proof fn lemma_cached_at_bounds(cs: Seq<Cached>, path: Seq<char>, from: int)
    requires
        0 <= from,
    ensures
        match cached_at(cs, path, from) {
            Some(i) => from <= i < cs.len() && cs[i].path@ == path,
            None => forall|k: int| from <= k < cs.len() ==> #[trigger] cs[k].path@ != path,
        },
    decreases cs.len() - from,
{
    if from < cs.len() && cs[from].path@ != path {
        lemma_cached_at_bounds(cs, path, from + 1);
    }
}

/// No two cached sessions came from the same file.
pub open spec fn distinct_paths(cs: Seq<Cached>) -> bool {
    forall|i: int, j: int| 0 <= i < j < cs.len() ==> #[trigger] cs[i].path@ != #[trigger] cs[j].path@
}

/// Whether two texts are equal.
fn same_text(a: &str, b: &str) -> (r: bool)
    ensures
        r == (a@ == b@),
{
    let x = a.to_owned();
    let y = b.to_owned();
    x == y
}

/// The first location of session `id` under `directory` in `paths`, from
/// position `from` on.
spec fn location_in(paths: Seq<((String, String), String)>, directory: Seq<char>, id: Seq<char>, from: int) -> Option<
    Seq<char>,
>
    decreases paths.len() - from,
{
    if from < 0 || from >= paths.len() {
        None
    } else if paths[from].0.0@ == directory && paths[from].0.1@ == id {
        Some(paths[from].1@)
    } else {
        location_in(paths, directory, id, from + 1)
    }
}

/// Sessions read recently, least recently used first, with the files they
/// came from; bounded in count (`limit`) and in memory (`budget`).
pub struct SessionCache {
    entries: VecDeque<Cached>,
    paths: Vec<((String, String), String)>,
    bytes: usize,
    limit: usize,
    budget: usize,
}

/// How many session locations the cache remembers at most.
pub const PATH_LIMIT: usize = 128;

impl SessionCache {
    /// The cached sessions, least recently used first.
    pub closed spec fn sessions(&self) -> Seq<Cached> {
        self.entries@
    }

    /// The memory use of the cached sessions.
    pub closed spec fn used(&self) -> nat {
        self.bytes as nat
    }

    /// The most sessions kept.
    pub closed spec fn max_sessions(&self) -> nat {
        self.limit as nat
    }

    /// The most memory kept.
    pub closed spec fn max_bytes(&self) -> nat {
        self.budget as nat
    }

    /// The number of remembered session locations.
    pub closed spec fn locations(&self) -> nat {
        self.paths.len() as nat
    }

    /// Where the cache remembers session `id` under `directory`.
    pub closed spec fn location(&self, directory: Seq<char>, id: Seq<char>) -> Option<Seq<char>> {
        location_in(self.paths@, directory, id, 0)
    }

    /// The cache stays within its bounds, and its memory use is the sum of
    /// its sessions' sizes.
    pub open spec fn wf(&self) -> bool {
        &&& self.used() == total_bytes(self.sessions())
        &&& self.sessions().len() <= self.max_sessions()
        &&& self.used() <= self.max_bytes()
        &&& self.locations() <= PATH_LIMIT
        &&& distinct_paths(self.sessions())
    }

    /// An empty cache of at most `limit` sessions using at most `budget` bytes.
    pub fn new(limit: usize, budget: usize) -> (r: SessionCache)
        ensures
            r.wf(),
            r.sessions().len() == 0,
            r.max_sessions() == limit,
            r.max_bytes() == budget,
    {
        SessionCache { entries: VecDeque::new(), paths: Vec::new(), bytes: 0, limit, budget }
    }

    /// The number of cached sessions.
    pub fn len(&self) -> (r: usize)
        ensures
            r == self.sessions().len(),
    {
        self.entries.len()
    }

    /// The memory use of the cached sessions.
    pub fn bytes(&self) -> (r: usize)
        ensures
            r == self.used(),
    {
        self.bytes
    }

    /// Where session `id` under `directory` was found before, if remembered.
    pub fn known_path(&self, directory: &str, id: &str) -> (r: Option<String>)
        ensures
            match r {
                Some(p) => self.location(directory@, id@) == Some(p@),
                None => self.location(directory@, id@) is None,
            },
    {
        let mut i: usize = 0;
        while i < self.paths.len()
            invariant
                i <= self.paths.len(),
                location_in(self.paths@, directory@, id@, 0) == location_in(self.paths@, directory@, id@, i as int),
            decreases self.paths.len() - i,
        {
            let key = &self.paths[i].0;
            if same_text(key.0.as_str(), directory) && same_text(key.1.as_str(), id) {
                return Some(self.paths[i].1.clone());
            }
            i = i + 1;
        }
        None
    }

    /// Remembers where session `id` under `directory` is (forgetting all
    /// locations once the limit is reached).
    pub fn remember(&mut self, directory: String, id: String, path: String)
        requires
            old(self).wf(),
        ensures
            final(self).wf(),
            final(self).sessions() == old(self).sessions(),
            final(self).used() == old(self).used(),
            final(self).max_sessions() == old(self).max_sessions(),
            final(self).max_bytes() == old(self).max_bytes(),
            final(self).location(directory@, id@) == Some(path@),
            forall|d: Seq<char>, i: Seq<char>|
                (d, i) != (directory@, id@) ==> #[trigger] final(self).location(d, i) == if old(
                    self,
                ).locations() >= PATH_LIMIT {
                    None
                } else {
                    old(self).location(d, i)
                },
    {
        let ghost dv = directory@;
        let ghost iv = id@;
        let ghost pv = path@;
        if self.paths.len() >= PATH_LIMIT {
            self.paths = Vec::new();
            assert forall|d: Seq<char>, i: Seq<char>| #[trigger] self.location(d, i) is None by {}
        }
        let ghost before = *self;
        let mut i: usize = 0;
        while i < self.paths.len()
            invariant
                i <= self.paths.len(),
                self.paths.len() < PATH_LIMIT,
                old(self).wf(),
                self.entries == old(self).entries,
                self.bytes == old(self).bytes,
                self.limit == old(self).limit,
                self.budget == old(self).budget,
                *self == before,
                forall|d: Seq<char>, i: Seq<char>| #[trigger] before.location(d, i) == if old(self).locations()
                    >= PATH_LIMIT {
                    None
                } else {
                    old(self).location(d, i)
                },
                directory@ == dv && id@ == iv && path@ == pv,
                forall|k: int| 0 <= k < i ==> !(#[trigger] self.paths@[k].0.0@ == dv && self.paths@[k].0.1@ == iv),
            decreases self.paths.len() - i,
        {
            if same_text(self.paths[i].0.0.as_str(), directory.as_str()) && same_text(
                self.paths[i].0.1.as_str(),
                id.as_str(),
            ) {
                self.paths.set(i, ((directory, id), path));
                proof {
                    lemma_location_replaced(before, *self, i as int, dv, iv);
                }
                return;
            }
            i = i + 1;
        }
        self.paths.push(((directory, id), path));
        proof {
            lemma_location_pushed(before, *self, dv, iv);
        }
    }

    /// Takes the session cached from `path` out of the cache, giving back a
    /// copy when it may be reused: not `force`d, the file has a modification
    /// time and is unchanged (`now`); a reused session becomes the most
    /// recently used one.
    pub fn lookup(&mut self, path: &str, now: Stamp, force: bool) -> (r: Option<Session>)
        requires
            old(self).wf(),
        ensures
            final(self).wf(),
            final(self).max_sessions() == old(self).max_sessions(),
            final(self).max_bytes() == old(self).max_bytes(),
            looked_up(*old(self), path@, now, force, *final(self), r),
    {
        let ghost cs = self.entries@;
        proof {
            lemma_cached_at_bounds(cs, path@, 0);
        }
        let mut i: usize = 0;
        while i < self.entries.len()
            invariant
                i <= self.entries.len(),
                cs == self.entries@,
                cs == old(self).entries@,
                self.bytes == old(self).bytes,
                self.limit == old(self).limit,
                self.budget == old(self).budget,
                self.paths == old(self).paths,
                old(self).wf(),
                cached_at(cs, path@, 0) == cached_at(cs, path@, i as int),
            decreases self.entries.len() - i,
        {
            if same_text(self.entries[i].path.as_str(), path) {
                proof {
                    lemma_total_remove(cs, i as int);
                }
                let c = match self.entries.remove(i) {
                    Some(c) => c,
                    None => return None,
                };
                self.bytes = self.bytes - c.bytes;
                if !force && now.modified.is_some() && c.stamp == now {
                    let session = c.session.clone();
                    proof {
                        lemma_total_push(self.entries@, c);
                    }
                    self.bytes = self.bytes + c.bytes;
                    self.entries.push_back(c);
                    return Some(session);
                }
                proof {
                    let rest = self.entries@;
                    lemma_cached_at_bounds(rest, path@, 0);
                    if let Some(j) = cached_at(rest, path@, 0) {
                        if j < i {
                            assert(rest[j] == cs[j]);
                            assert(cs[j].path@ != cs[i as int].path@);
                        } else {
                            assert(rest[j] == cs[j + 1]);
                            assert(cs[i as int].path@ != cs[j + 1].path@);
                        }
                    }
                }
                return None;
            }
            i = i + 1;
        }
        None
    }

    /// Whether a session from `path` is cached.
    fn holds_path(&self, path: &str) -> (r: bool)
        ensures
            r == cached_at(self.sessions(), path@, 0) is Some,
    {
        let ghost cs = self.entries@;
        let mut i: usize = 0;
        while i < self.entries.len()
            invariant
                i <= self.entries.len(),
                cs == self.entries@,
                cached_at(cs, path@, 0) == cached_at(cs, path@, i as int),
            decreases self.entries.len() - i,
        {
            if same_text(self.entries[i].path.as_str(), path) {
                return true;
            }
            i = i + 1;
        }
        false
    }

    /// Caches a session read from `path`: only when the file did not change
    /// while it was read (`before`, `after`), has a modification time, fits
    /// the budget and is not cached already (reading a cached file takes it
    /// out first, see `lookup`); least recently used sessions leave to make
    /// room.
    pub fn store(&mut self, path: String, before: Stamp, after: Stamp, session: &Session, bytes: usize)
        requires
            old(self).wf(),
        ensures
            final(self).wf(),
            final(self).max_sessions() == old(self).max_sessions(),
            final(self).max_bytes() == old(self).max_bytes(),
            if before == after && after.modified is Some && bytes <= old(self).max_bytes()
                && old(self).max_sessions() > 0 && cached_at(old(self).sessions(), path@, 0) is None {
                &&& final(self).sessions().len() >= 1
                &&& final(self).sessions().last().path@ == path@
                &&& final(self).sessions().last().stamp == after
                &&& final(self).sessions().last().bytes == bytes
                &&& final(self).sessions().last().session.history@ == session.history@
                &&& final(self).sessions().drop_last().is_suffix_of(old(self).sessions())
            } else {
                final(self).sessions() == old(self).sessions()
            },
    {
        if !(before == after && after.modified.is_some() && bytes <= self.budget && self.limit > 0) {
            return;
        }
        if self.holds_path(path.as_str()) {
            return;
        }
        let ghost start = self.entries@;
        proof {
            lemma_cached_at_bounds(start, path@, 0);
        }
        assert(start.len() == self.entries.len());
        let mut dropped: usize = 0;
        while self.entries.len() > 0 && (self.entries.len() >= self.limit || self.bytes > self.budget
            - bytes)
            invariant
                self.wf(),
                bytes <= self.budget,
                self.limit > 0,
                self.limit == old(self).limit,
                self.budget == old(self).budget,
                dropped <= start.len(),
                start == old(self).entries@,
                start.len() <= usize::MAX,
                self.entries@ == start.skip(dropped as int),
                forall|k: int| 0 <= k < start.len() ==> #[trigger] start[k].path@ != path@,
            decreases self.entries.len(),
        {
            assert(self.entries@.len() == start.len() - dropped);
            proof {
                lemma_total_remove(self.entries@, 0);
                assert(start.skip(dropped as int).remove(0) =~= start.skip(dropped + 1));
            }
            let ghost was = self.entries@;
            assert(was.remove(0) =~= was.subrange(1, was.len() as int));
            if let Some(old_entry) = self.entries.pop_front() {
                self.bytes = self.bytes - old_entry.bytes;
            }
            dropped = dropped + 1;
        }
        let ghost pv = path@;
        let c = Cached { path, stamp: after, session: session.clone(), bytes };
        proof {
            lemma_total_push(self.entries@, c);
            assert forall|k: int| 0 <= k < self.entries@.len() implies #[trigger] self.entries@[k].path@ != pv by {
                assert(self.entries@[k] == start[k + dropped]);
            }
        }
        self.bytes = self.bytes + bytes;
        self.entries.push_back(c);
        assert(self.entries@.drop_last() =~= start.skip(dropped as int));
    }
}

/// Replacing the first location of `(d, id)` at `k` leaves every other
/// key's location as it was.
proof fn lemma_location_replaced(a: SessionCache, b: SessionCache, k: int, d: Seq<char>, id: Seq<char>)
    requires
        0 <= k < a.paths.len(),
        b.paths.len() == a.paths.len(),
        forall|j: int| 0 <= j < a.paths.len() && j != k ==> #[trigger] b.paths@[j] == a.paths@[j],
        b.paths@[k].0.0@ == d && b.paths@[k].0.1@ == id,
        a.paths@[k].0.0@ == d && a.paths@[k].0.1@ == id,
        forall|j: int| 0 <= j < k ==> !(#[trigger] a.paths@[j].0.0@ == d && a.paths@[j].0.1@ == id),
    ensures
        b.location(d, id) == Some(b.paths@[k].1@),
        forall|d2: Seq<char>, i2: Seq<char>| (d2, i2) != (d, id) ==> #[trigger] b.location(d2, i2) == a.location(d2, i2),
{
    assert forall|d2: Seq<char>, i2: Seq<char>| (d2, i2) != (d, id) implies #[trigger] b.location(d2, i2) == a.location(d2, i2) by {
        lemma_location_from_step(a, b, k, d, id, d2, i2, 0);
    }
    lemma_location_from_step(a, b, k, d, id, d, id, 0);
}

proof fn lemma_location_from_step(
    a: SessionCache,
    b: SessionCache,
    k: int,
    d: Seq<char>,
    id: Seq<char>,
    d2: Seq<char>,
    i2: Seq<char>,
    from: int,
)
    requires
        0 <= k < a.paths.len(),
        b.paths.len() == a.paths.len(),
        forall|j: int| 0 <= j < a.paths.len() && j != k ==> #[trigger] b.paths@[j] == a.paths@[j],
        b.paths@[k].0.0@ == d && b.paths@[k].0.1@ == id,
        a.paths@[k].0.0@ == d && a.paths@[k].0.1@ == id,
        forall|j: int| 0 <= j < k ==> !(#[trigger] a.paths@[j].0.0@ == d && a.paths@[j].0.1@ == id),
        0 <= from <= a.paths.len(),
    ensures
        from <= k ==> location_in(b.paths@, d, id, from) == Some(b.paths@[k].1@),
        (d2, i2) != (d, id) ==> location_in(b.paths@, d2, i2, from) == location_in(a.paths@, d2, i2, from),
    decreases a.paths.len() - from,
{
    if from < a.paths.len() {
        lemma_location_from_step(a, b, k, d, id, d2, i2, from + 1);
        if from != k {
            assert(b.paths@[from] == a.paths@[from]);
        }
    }
}

/// Adding a location for `(d, id)`, which had none, at the end leaves
/// every other key's location as it was.
proof fn lemma_location_pushed(a: SessionCache, b: SessionCache, d: Seq<char>, id: Seq<char>)
    requires
        b.paths@ == a.paths@.push(b.paths@[a.paths.len() as int]),
        b.paths@[a.paths.len() as int].0.0@ == d && b.paths@[a.paths.len() as int].0.1@ == id,
        forall|j: int| 0 <= j < a.paths.len() ==> !(#[trigger] a.paths@[j].0.0@ == d && a.paths@[j].0.1@ == id),
    ensures
        b.location(d, id) == Some(b.paths@[a.paths.len() as int].1@),
        forall|d2: Seq<char>, i2: Seq<char>| (d2, i2) != (d, id) ==> #[trigger] b.location(d2, i2) == a.location(d2, i2),
{
    assert forall|d2: Seq<char>, i2: Seq<char>| (d2, i2) != (d, id) implies #[trigger] b.location(d2, i2) == a.location(d2, i2) by {
        lemma_location_pushed_from(a, b, d, id, d2, i2, 0);
    }
    lemma_location_pushed_from(a, b, d, id, d, id, 0);
}

proof fn lemma_location_pushed_from(
    a: SessionCache,
    b: SessionCache,
    d: Seq<char>,
    id: Seq<char>,
    d2: Seq<char>,
    i2: Seq<char>,
    from: int,
)
    requires
        b.paths@ == a.paths@.push(b.paths@[a.paths.len() as int]),
        b.paths@[a.paths.len() as int].0.0@ == d && b.paths@[a.paths.len() as int].0.1@ == id,
        forall|j: int| 0 <= j < a.paths.len() ==> !(#[trigger] a.paths@[j].0.0@ == d && a.paths@[j].0.1@ == id),
        0 <= from <= a.paths.len(),
    ensures
        location_in(b.paths@, d, id, from) == Some(b.paths@[a.paths.len() as int].1@),
        (d2, i2) != (d, id) ==> location_in(b.paths@, d2, i2, from) == location_in(a.paths@, d2, i2, from),
    decreases a.paths.len() - from,
{
    if from < a.paths.len() {
        lemma_location_pushed_from(a, b, d, id, d2, i2, from + 1);
        assert(b.paths@[from] == a.paths@[from]);
    } else {
        assert(location_in(b.paths@, d2, i2, from + 1) is None);
    }
}

/// The capacity of a text's buffer (`String::capacity`), as the allocator
/// gave it; claimed: at least the text's length in characters, since a
/// `String`'s length in bytes is never more than its capacity and every
/// character takes at least one byte.
#[verifier::external_body]
fn text_capacity(s: &String) -> (r: usize)
    ensures
        r >= s@.len(),
{
    s.capacity()
}

/// The capacity of a record list's buffer (`Vec::capacity`), as the allocator gave it.
#[verifier::external_body]
fn entries_capacity(v: &Vec<Entry>) -> usize {
    v.capacity()
}

/// The size of a record (`std::mem::size_of::<Entry>`).
#[verifier::external_body]
fn entry_size() -> usize {
    std::mem::size_of::<Entry>()
}

/// The characters held by the texts of the first `n` records: text, role
/// What a lookup of `path` with the file's stamp `now` does to the cache
/// `a`, giving `b` and `r` (the contract of `SessionCache::lookup`): a
/// cached session is taken out, and given back and kept as the most
/// recently used one when not `force`d and the file is unchanged.
pub open spec fn looked_up(a: SessionCache, path: Seq<char>, now: Stamp, force: bool, b: SessionCache, r: Option<Session>) -> bool {
    &&& match cached_at(a.sessions(), path, 0) {
        None => r is None && b.sessions() == a.sessions(),
        Some(i) => {
            let c = a.sessions()[i];
            let rest = a.sessions().remove(i);
            if !force && now.modified is Some && c.stamp == now {
                r is Some && r->Some_0.history@ == c.session.history@ && r->Some_0.info@
                    == c.session.info@ && r->Some_0.id@ == c.session.id@ && r->Some_0.path@
                    == c.session.path@ && b.sessions() == rest.push(c)
            } else {
                r is None && b.sessions() == rest
            }
        },
    }
    &&& r is None ==> cached_at(b.sessions(), path, 0) is None
}

/// Law: a lookup gives a session back exactly when the path is cached, no
/// reload is forced, and the file has a modification time and the stamp it
/// had when it was cached; after a lookup that gives nothing back, the path
/// is no longer cached.
pub proof fn lemma_cache_hit_iff_unchanged(
    a: SessionCache,
    path: Seq<char>,
    now: Stamp,
    force: bool,
    b: SessionCache,
    r: Option<Session>,
)
    requires
        looked_up(a, path, now, force, b, r),
    ensures
        r is Some <==> (cached_at(a.sessions(), path, 0) matches Some(i) && !force && now.modified is Some
            && a.sessions()[i].stamp == now),
        r is None ==> cached_at(b.sessions(), path, 0) is None,
{
}

/// and tool summary.
pub open spec fn entries_chars(es: Seq<Entry>, n: int) -> nat
    decreases n,
{
    if n <= 0 {
        0
    } else {
        entries_chars(es, n - 1) + es[n - 1].text@.len() + es[n - 1].session_id@.len() + match es[n - 1].tool {
            Some(t) => t.summary@.len(),
            None => 0,
        }
    }
}

/// The characters held by a session's texts: its ID, its details and its
/// records' texts.
pub open spec fn held_chars(session: Session) -> nat {
    session.id@.len() + session.info@.len() + entries_chars(
        session.history.entries@,
        session.history.entries.len() as int,
    )
}

/// An estimate of a session's memory use: its buffers' capacities, summed
/// with saturation. The capacities are the allocator's; the estimate is at
/// least the characters the session's texts hold (or `usize::MAX`).
pub fn session_bytes(session: &Session) -> (r: usize)
    ensures
        r == usize::MAX || r >= held_chars(*session),
{
    let mut total = text_capacity(&session.id).saturating_add(text_capacity(&session.info));
    total = total.saturating_add(
        match entries_capacity(&session.history.entries).checked_mul(entry_size()) {
            Some(b) => b,
            None => usize::MAX,
        },
    );
    let ghost base = session.id@.len() + session.info@.len();
    let ghost es = session.history.entries@;
    let mut i: usize = 0;
    while i < session.history.entries.len()
        invariant
            i <= session.history.entries.len(),
            es == session.history.entries@,
            base == session.id@.len() + session.info@.len(),
            total == usize::MAX || total >= base + entries_chars(es, i as int),
        decreases session.history.entries.len() - i,
    {
        let e = &session.history.entries[i];
        total = total.saturating_add(text_capacity(&e.text));
        total = total.saturating_add(text_capacity(&e.session_id));
        match &e.tool {
            Some(t) => {
                total = total.saturating_add(text_capacity(&t.summary));
            },
            None => {},
        }
        i = i + 1;
    }
    total
}

} // verus!
