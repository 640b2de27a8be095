//! The result cache of one repository: its key, its records, and the decisions
//! that take a repository from resolving its remote state to a stored record.
use crate::ansi::{strip_color, stripped};
use vstd::prelude::*;

verus! {

#[verifier::external_type_specification]
#[verifier::external_body]
pub struct ExJsonValue(serde_json::Value);

/// `s` holds no `/`.
pub open spec fn no_slash(s: Seq<char>) -> bool {
    forall|i: int| 0 <= i < s.len() ==> #[trigger] s[i] != '/'
}

/// `s` is `user/repo`, possibly followed by further `/`-separated parts.
pub open spec fn splits_user_repo(s: Seq<char>, user: Seq<char>, repo: Seq<char>) -> bool {
    &&& no_slash(user)
    &&& no_slash(repo)
    &&& s.len() > user.len() + repo.len()
    &&& s.subrange(0, user.len() as int) == user
    &&& s[user.len() as int] == '/'
    &&& s.subrange(user.len() as int + 1, user.len() + 1 + repo.len() as int) == repo
    &&& (s.len() == user.len() + 1 + repo.len() || s[user.len() + 1 + repo.len() as int] == '/')
}

#[derive(Debug, Clone, Copy, PartialEq, Eq, Structural)]
pub enum SplitError {
    /// The part before the first `/` is empty.
    MissingUser,
    /// The text holds no `/`, or the part after the first `/` is empty.
    MissingRepo,
}

/// `s` is `user/repo` with both parts non-empty.
pub open spec fn has_user_repo(s: Seq<char>) -> bool {
    exists|user: Seq<char>, repo: Seq<char>|
        splits_user_repo(s, user, repo) && user.len() > 0 && repo.len() > 0
}

proof fn lemma_split_at_slashes(s: Seq<char>, user: Seq<char>, repo: Seq<char>, i: int, j: int)
    requires
        splits_user_repo(s, user, repo),
        0 <= i < j <= s.len(),
        forall|k: int| 0 <= k < i ==> s[k] != '/',
        s[i] == '/',
        forall|k: int| i < k < j ==> s[k] != '/',
        j < s.len() ==> s[j] == '/',
    ensures
        user.len() == i,
        user.len() + 1 + repo.len() == j,
{
    if user.len() < i {
        assert(s[user.len() as int] == '/');
    }
    if user.len() > i {
        assert(user[i] == s[i]);
    }
    let end: int = user.len() as int + 1 + repo.len() as int;
    if end < j {
        assert(s[end] == '/');
    }
    if end > j {
        assert(repo[j - i - 1] == s[j]);
    }
}

fn find_slash(s: &str, from: usize) -> (r: usize)
    requires
        from <= s@.len(),
    ensures
        from <= r <= s@.len(),
        forall|i: int| from <= i < r ==> s@[i] != '/',
        r < s@.len() ==> s@[r as int] == '/',
{
    let n = s.unicode_len();
    let mut i = from;
    while i < n && s.get_char(i) != '/'
        invariant
            n == s@.len(),
            from <= i <= n,
            forall|k: int| from <= k < i ==> s@[k] != '/',
        decreases n - i,
    {
        i = i + 1;
    }
    i
}

/// Splits `user/repo` into its two parts, which must not be empty; what
/// follows a second `/` is ignored.
pub fn split_user_repo(user_repo: &str) -> (r: Result<[String; 2], SplitError>)
    ensures
        r is Ok <==> has_user_repo(user_repo@),
        r matches Ok(parts) ==> splits_user_repo(user_repo@, parts@[0]@, parts@[1]@)
            && parts@[0]@.len() > 0 && parts@[1]@.len() > 0,
        no_slash(user_repo@) ==> r == Err::<[String; 2], SplitError>(SplitError::MissingRepo),
{
    let ghost s = user_repo@;
    let n = user_repo.unicode_len();
    let i = find_slash(user_repo, 0);
    if i >= n {
        proof {
            assert(no_slash(s));
            assert(!has_user_repo(s)) by {
                if has_user_repo(s) {
                    let (u, p) = choose|u: Seq<char>, p: Seq<char>|
                        splits_user_repo(s, u, p) && u.len() > 0 && p.len() > 0;
                    assert(s[u.len() as int] == '/');
                }
            }
        }
        return Err(SplitError::MissingRepo);
    }
    let j = find_slash(user_repo, i + 1);
    let user = user_repo.substring_char(0, i).to_owned();
    let repo = user_repo.substring_char(i + 1, j).to_owned();
    proof {
        assert(no_slash(user@)) by {
            assert forall|k: int| 0 <= k < user@.len() implies #[trigger] user@[k] != '/' by {
                assert(user@[k] == s[k]);
            }
        }
        assert(no_slash(repo@)) by {
            assert forall|k: int| 0 <= k < repo@.len() implies #[trigger] repo@[k] != '/' by {
                assert(repo@[k] == s[i + 1 + k]);
            }
        }
        assert(splits_user_repo(s, user@, repo@));
        if has_user_repo(s) {
            let (u, p) = choose|u: Seq<char>, p: Seq<char>|
                splits_user_repo(s, u, p) && u.len() > 0 && p.len() > 0;
            lemma_split_at_slashes(s, u, p, i as int, j as int);
        }
    }
    if i == 0 {
        return Err(SplitError::MissingUser);
    }
    if j == i + 1 {
        return Err(SplitError::MissingRepo);
    }
    let parts = [user, repo];
    proof {
        assert(parts@[0] == user);
        assert(parts@[1] == repo);
    }
    Ok(parts)
}

/// The default branch of a repository and the commit it points to.
#[derive(Debug, Clone)]
pub struct Api {
    pub branch: String,
    pub sha: String,
}

/// The key of a cached record: a repository in one remote state.
#[derive(Debug, Clone)]
pub struct CachedKey {
    pub user: String,
    pub repo: String,
    pub api: Api,
}

pub type KeyView = (Seq<char>, Seq<char>, Seq<char>, Seq<char>);

impl View for CachedKey {
    type V = KeyView;

    open spec fn view(&self) -> KeyView {
        (self.user@, self.repo@, self.api.branch@, self.api.sha@)
    }
}

/// When a record was first generated and when it was last stored, in unix
/// milliseconds.
#[derive(Debug, Clone, Copy, PartialEq, Eq, Structural)]
pub struct Timestamp {
    pub start: u64,
    pub end: u64,
}

/// The stand-in stored when generating a repository's results failed.
#[derive(Debug)]
pub struct ErrorEnvelope {
    pub user: String,
    pub repo: String,
    /// The failure's message without colour sequences.
    pub err: String,
}

/// The content of a record.
#[derive(Debug)]
pub enum Payload {
    /// The results of a repository as JSON.
    Json(serde_json::Value),
    Failure(ErrorEnvelope),
}

/// A cached record: its content and its timestamps (none for a record read
/// back without them).
#[derive(Debug)]
pub struct CachedValue {
    pub inner: Payload,
    pub timestamp: Option<Timestamp>,
}

/// `p` is the error record of `user/repo` for a failure with message `err`.
pub open spec fn is_failure(p: Payload, user: Seq<char>, repo: Seq<char>, err: Seq<char>) -> bool {
    match p {
        Payload::Failure(e) => e.user@ == user && e.repo@ == repo && e.err@ == stripped(err),
        _ => false,
    }
}

/// The timestamps of a record stored again at `now`: the start is kept, the
/// end moves to `now`; a record without timestamps starts at `now`.
pub open spec fn stamped(t: Option<Timestamp>, now: u64) -> Timestamp {
    match t {
        Some(t) => Timestamp { start: t.start, end: now },
        None => Timestamp { start: now, end: now },
    }
}

/// Relies on `os_checker_types::now`: the current unix time in milliseconds,
/// of which nothing is assumed.
#[verifier::external_body]
fn now() -> u64 {
    os_checker_types::now()
}

impl CachedValue {
    pub fn new(inner: serde_json::Value) -> (r: CachedValue)
        ensures
            r.inner == Payload::Json(inner),
            r.timestamp is None,
    {
        CachedValue { inner: Payload::Json(inner), timestamp: None }
    }

    /// The record for a failed generation of `user/repo`, stamped `now`.
    pub fn from_error(user: &str, repo: &str, err: &str, now: u64) -> (r: CachedValue)
        ensures
            is_failure(r.inner, user@, repo@, err@),
            r.timestamp == Some(Timestamp { start: now, end: now }),
    {
        let envelope = ErrorEnvelope {
            user: user.to_owned(),
            repo: repo.to_owned(),
            err: strip_color(err),
        };
        CachedValue { inner: Payload::Failure(envelope), timestamp: Some(Timestamp { start: now, end: now }) }
    }

    /// Moves the end timestamp to `now`, keeping the content and the start.
    pub fn update_timestamp_at(&mut self, now: u64)
        ensures
            final(self).inner == old(self).inner,
            final(self).timestamp == Some(stamped(old(self).timestamp, now)),
    {
        self.timestamp = match self.timestamp {
            Some(t) => Some(Timestamp { start: t.start, end: now }),
            None => Some(Timestamp { start: now, end: now }),
        };
    }

    /// Moves the end timestamp to the current time, keeping the content and
    /// the start.
    pub fn update_timestamp(&mut self)
        ensures
            final(self).inner == old(self).inner,
            final(self).timestamp matches Some(t) && (old(self).timestamp matches Some(o)
                ==> t.start == o.start) && (old(self).timestamp is None ==> t.start == t.end),
    {
        let t = now();
        self.update_timestamp_at(t);
    }
}

/// Why processing a repository stopped before a record was stored.
#[derive(Debug)]
pub enum CacheFault {
    /// The remote state could not be resolved.
    Remote(String),
    /// The cache could not be read.
    Read(String),
    /// The cache could not be written.
    Write(String),
}

/// Where the processing of a repository stands. Each step but the last two
/// asks for one piece of outside work.
#[derive(Debug)]
pub enum CacheStep {
    /// Resolve the remote state of the repository.
    Resolve,
    /// Look the key up in the cache.
    Load(CachedKey),
    /// Acquire the repository and generate its results.
    Generate(CachedKey),
    /// Write the record under the key.
    Store(CachedKey, CachedValue),
    /// The record was stored.
    Finish(CachedKey, CachedValue),
    /// Processing stopped.
    Abort(CacheFault),
}

/// What the outside work of a step gave.
#[derive(Debug)]
pub enum CacheEvent {
    Resolved(Result<Api, String>),
    Loaded(Result<Option<CachedValue>, String>),
    /// The results as JSON, or the message of the failure.
    Generated(Result<serde_json::Value, String>),
    Stored(Result<(), String>),
}

/// The processing of one repository.
#[derive(Debug)]
pub struct CacheRun {
    pub user: String,
    pub repo: String,
    /// Regenerate even when the cache holds a record.
    pub force: bool,
    pub step: CacheStep,
}

/// The step that follows `run.step` once its outside work gave `event` at time
/// `now`. An event that does not answer the step leaves it as it is.
pub open spec fn steps_to(run: CacheRun, event: CacheEvent, now: u64, next: CacheStep) -> bool {
    match run.step {
        CacheStep::Resolve => match event {
            CacheEvent::Resolved(Ok(api)) => {
                let key = CachedKey { user: run.user, repo: run.repo, api };
                if run.force {
                    next == CacheStep::Generate(key)
                } else {
                    next == CacheStep::Load(key)
                }
            },
            CacheEvent::Resolved(Err(e)) => next == CacheStep::Abort(CacheFault::Remote(e)),
            _ => next == run.step,
        },
        CacheStep::Load(key) => match event {
            CacheEvent::Loaded(Ok(Some(v))) => next == CacheStep::Store(
                key,
                CachedValue { inner: v.inner, timestamp: Some(stamped(v.timestamp, now)) },
            ),
            CacheEvent::Loaded(Ok(None)) => next == CacheStep::Generate(key),
            CacheEvent::Loaded(Err(e)) => next == CacheStep::Abort(CacheFault::Read(e)),
            _ => next == run.step,
        },
        CacheStep::Generate(key) => match event {
            CacheEvent::Generated(Ok(json)) => next == CacheStep::Store(
                key,
                CachedValue {
                    inner: Payload::Json(json),
                    timestamp: Some(Timestamp { start: now, end: now }),
                },
            ),
            CacheEvent::Generated(Err(msg)) => match next {
                CacheStep::Store(k, v) => k == key && v.timestamp == Some(
                    Timestamp { start: now, end: now },
                ) && is_failure(v.inner, key.user@, key.repo@, msg@),
                _ => false,
            },
            _ => next == run.step,
        },
        CacheStep::Store(key, v) => match event {
            CacheEvent::Stored(Ok(())) => next == CacheStep::Finish(key, v),
            CacheEvent::Stored(Err(e)) => next == CacheStep::Abort(CacheFault::Write(e)),
            _ => next == run.step,
        },
        _ => next == run.step,
    }
}

impl CacheRun {
    /// Starts processing `user/repo` at resolving its remote state.
    pub fn new(user_repo: &str, force: bool) -> (r: Result<CacheRun, SplitError>)
        ensures
            r is Ok <==> has_user_repo(user_repo@),
            r matches Ok(run) ==> splits_user_repo(user_repo@, run.user@, run.repo@)
                && run.user@.len() > 0 && run.repo@.len() > 0
                && run.force == force && run.step == CacheStep::Resolve,
    {
        let parts = split_user_repo(user_repo)?;
        let user = parts[0].clone();
        let repo = parts[1].clone();
        Ok(CacheRun { user, repo, force, step: CacheStep::Resolve })
    }

    /// Processing ended, with a stored record or a fault.
    pub fn is_done(&self) -> (r: bool)
        ensures
            r <==> (self.step is Finish || self.step is Abort),
    {
        match self.step {
            CacheStep::Finish(..) | CacheStep::Abort(_) => true,
            _ => false,
        }
    }

    /// Takes the outcome of the current step's outside work, received at
    /// `now`, and moves to the next step. A record read from the cache or
    /// generated is stamped before it is stored; a failed generation is
    /// stored as an error record.
    pub fn next(self, event: CacheEvent, now: u64) -> (r: CacheRun)
        ensures
            r.user == self.user,
            r.repo == self.repo,
            r.force == self.force,
            steps_to(self, event, now, r.step),
    {
        let CacheRun { user, repo, force, step } = self;
        let next = match step {
            CacheStep::Resolve => match event {
                CacheEvent::Resolved(Ok(api)) => {
                    let key = CachedKey { user: user.clone(), repo: repo.clone(), api };
                    if force {
                        CacheStep::Generate(key)
                    } else {
                        CacheStep::Load(key)
                    }
                },
                CacheEvent::Resolved(Err(e)) => CacheStep::Abort(CacheFault::Remote(e)),
                _ => CacheStep::Resolve,
            },
            CacheStep::Load(key) => match event {
                CacheEvent::Loaded(Ok(Some(v))) => {
                    let mut v = v;
                    v.update_timestamp_at(now);
                    CacheStep::Store(key, v)
                },
                CacheEvent::Loaded(Ok(None)) => CacheStep::Generate(key),
                CacheEvent::Loaded(Err(e)) => CacheStep::Abort(CacheFault::Read(e)),
                _ => CacheStep::Load(key),
            },
            CacheStep::Generate(key) => match event {
                CacheEvent::Generated(Ok(json)) => {
                    let v = CachedValue {
                        inner: Payload::Json(json),
                        timestamp: Some(Timestamp { start: now, end: now }),
                    };
                    CacheStep::Store(key, v)
                },
                CacheEvent::Generated(Err(msg)) => {
                    let v = CachedValue::from_error(
                        key.user.as_str(),
                        key.repo.as_str(),
                        msg.as_str(),
                        now,
                    );
                    CacheStep::Store(key, v)
                },
                _ => CacheStep::Generate(key),
            },
            CacheStep::Store(key, v) => match event {
                CacheEvent::Stored(Ok(())) => CacheStep::Finish(key, v),
                CacheEvent::Stored(Err(e)) => CacheStep::Abort(CacheFault::Write(e)),
                _ => CacheStep::Store(key, v),
            },
            other => other,
        };
        CacheRun { user, repo, force, step: next }
    }
}

/// The key a step works on.
pub open spec fn step_key(step: CacheStep) -> CachedKey {
    match step {
        CacheStep::Load(k) => k,
        CacheStep::Generate(k) => k,
        CacheStep::Store(k, _) => k,
        CacheStep::Finish(k, _) => k,
        _ => arbitrary(),
    }
}

/// The run as it stands at `step`.
pub open spec fn at_step(run: CacheRun, step: CacheStep) -> CacheRun {
    CacheRun { step, ..run }
}

/// Processing a repository again without forcing, while its remote state is
/// unchanged, reads back the record the previous run stored and stores it
/// again with the same content and start time; only its end time moves, to
/// the later time of the second run.
pub proof fn lemma_rerun_keeps_record(
    run: CacheRun,
    key: CachedKey,
    stored: CachedValue,
    now: u64,
    next: CacheStep,
)
    requires
        run.step == CacheStep::Load(key),
        stored.timestamp is Some,
        stored.timestamp->0.end < now,
        steps_to(run, CacheEvent::Loaded(Ok(Some(stored))), now, next),
    ensures
        next is Store,
        next->Store_0 == key,
        next->Store_1.inner == stored.inner,
        next->Store_1.timestamp is Some,
        next->Store_1.timestamp->0.start == stored.timestamp->0.start,
        next->Store_1.timestamp->0.end == now,
        next->Store_1.timestamp->0.end > stored.timestamp->0.end,
{
}

/// Two resolutions of a repository that differ in their commit give two
/// different keys, so storing a record under one leaves what is stored under
/// the other untouched.
pub proof fn lemma_commit_changes_key(
    run: CacheRun,
    a1: Api,
    a2: Api,
    t1: u64,
    t2: u64,
    s1: CacheStep,
    s2: CacheStep,
    store: Map<KeyView, CachedValue>,
    v: CachedValue,
)
    requires
        run.step == CacheStep::Resolve,
        a1.sha@ != a2.sha@,
        steps_to(run, CacheEvent::Resolved(Ok(a1)), t1, s1),
        steps_to(run, CacheEvent::Resolved(Ok(a2)), t2, s2),
    ensures
        s1 is Load || s1 is Generate,
        s2 is Load || s2 is Generate,
        step_key(s1)@ != step_key(s2)@,
        store.insert(step_key(s1)@, v).contains_key(step_key(s2)@) == store.contains_key(step_key(s2)@),
        store.contains_key(step_key(s2)@) ==> store.insert(step_key(s1)@, v)[step_key(s2)@] == store[step_key(s2)@],
{
}

/// Without forcing, a repository whose record the cache holds goes from
/// resolving to loading to storing to finished: it is never acquired or
/// regenerated.
pub proof fn lemma_hit_skips_generation(
    run: CacheRun,
    api: Api,
    found: CachedValue,
    t1: u64,
    t2: u64,
    t3: u64,
    s1: CacheStep,
    s2: CacheStep,
    s3: CacheStep,
)
    requires
        run.step == CacheStep::Resolve,
        !run.force,
        steps_to(run, CacheEvent::Resolved(Ok(api)), t1, s1),
        steps_to(at_step(run, s1), CacheEvent::Loaded(Ok(Some(found))), t2, s2),
        steps_to(at_step(run, s2), CacheEvent::Stored(Ok(())), t3, s3),
    ensures
        s1 is Load,
        s2 is Store,
        s3 is Finish,
        s3->Finish_1.inner == found.inner,
{
}

} // verus!
