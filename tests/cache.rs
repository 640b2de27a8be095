use os_checker_plugin_cargo::cache::{
    split_user_repo, Api, CacheEvent, CacheFault, CacheRun, CacheStep, CachedKey, CachedValue,
    Payload, SplitError, Timestamp,
};

fn api(branch: &str, sha: &str) -> Api {
    Api {
        branch: branch.to_owned(),
        sha: sha.to_owned(),
    }
}

fn json_record(start: u64, end: u64) -> CachedValue {
    let mut v = CachedValue::new(serde_json::Value::String("results".to_owned()));
    v.timestamp = Some(Timestamp { start, end });
    v
}

/// Stand-ins for the outside work, counting how often each is asked for.
#[derive(Default)]
struct Doubles {
    stored: Option<(CachedKey, CachedValue)>,
    resolves: usize,
    loads: usize,
    generations: usize,
    stores: usize,
}

impl Doubles {
    fn process(&mut self, user_repo: &str, force: bool, sha: &str, clock: &mut u64) -> CacheRun {
        let mut run = CacheRun::new(user_repo, force).unwrap();
        while !run.is_done() {
            *clock += 10;
            let event = match &run.step {
                CacheStep::Resolve => {
                    self.resolves += 1;
                    CacheEvent::Resolved(Ok(api("main", sha)))
                }
                CacheStep::Load(key) => {
                    self.loads += 1;
                    let hit = self.stored.as_ref().filter(|(k, _)| {
                        k.user == key.user && k.repo == key.repo && k.api.sha == key.api.sha
                    });
                    CacheEvent::Loaded(Ok(hit.map(|(_, v)| copy(v))))
                }
                CacheStep::Generate(_) => {
                    self.generations += 1;
                    CacheEvent::Generated(Ok(serde_json::Value::Bool(true)))
                }
                CacheStep::Store(key, value) => {
                    self.stores += 1;
                    self.stored = Some((key.clone(), copy(value)));
                    CacheEvent::Stored(Ok(()))
                }
                CacheStep::Finish(..) | CacheStep::Abort(_) => unreachable!(),
            };
            run = run.next(event, *clock);
        }
        run
    }
}

fn copy(v: &CachedValue) -> CachedValue {
    let inner = match &v.inner {
        Payload::Json(j) => Payload::Json(j.clone()),
        Payload::Failure(e) => Payload::Failure(os_checker_plugin_cargo::cache::ErrorEnvelope {
            user: e.user.clone(),
            repo: e.repo.clone(),
            err: e.err.clone(),
        }),
    };
    CachedValue {
        inner,
        timestamp: v.timestamp,
    }
}

fn finished(run: &CacheRun) -> (&CachedKey, &CachedValue) {
    match &run.step {
        CacheStep::Finish(k, v) => (k, v),
        other => panic!("not finished: {other:?}"),
    }
}

#[test]
fn splits_user_and_repo() {
    let parts = split_user_repo("os-checker/os-checker-test-suite").unwrap();
    assert_eq!(parts, ["os-checker".to_owned(), "os-checker-test-suite".to_owned()]);
    let parts = split_user_repo("a/b/c").unwrap();
    assert_eq!(parts, ["a".to_owned(), "b".to_owned()]);
    assert_eq!(split_user_repo("a/"), Err(SplitError::MissingRepo));
    assert_eq!(split_user_repo("a//b"), Err(SplitError::MissingRepo));
    assert_eq!(split_user_repo("/b"), Err(SplitError::MissingUser));
    assert_eq!(split_user_repo("no-slash"), Err(SplitError::MissingRepo));
    assert!(CacheRun::new("a/", false).is_err());
    assert!(CacheRun::new("", false).is_err());
}

#[test]
fn second_run_is_a_cache_hit() {
    let mut doubles = Doubles::default();
    let mut clock = 1000;
    let first = doubles.process("u/r", false, "abc", &mut clock);
    assert_eq!((doubles.loads, doubles.generations, doubles.stores), (1, 1, 1));
    let second = doubles.process("u/r", false, "abc", &mut clock);
    assert_eq!(doubles.resolves, 2);
    assert_eq!(doubles.loads, 2);
    assert_eq!(doubles.generations, 1);
    assert_eq!(doubles.stores, 2);

    let (k1, v1) = finished(&first);
    let (k2, v2) = finished(&second);
    assert_eq!(k1.api.sha, k2.api.sha);
    assert!(matches!((&v1.inner, &v2.inner), (Payload::Json(a), Payload::Json(b)) if a == b));
    let (t1, t2) = (v1.timestamp.unwrap(), v2.timestamp.unwrap());
    assert_eq!(t1.start, t2.start);
    assert!(t2.end > t1.end);
}

#[test]
fn forced_run_regenerates() {
    let mut doubles = Doubles::default();
    let mut clock = 0;
    doubles.process("u/r", false, "abc", &mut clock);
    doubles.process("u/r", true, "abc", &mut clock);
    assert_eq!(doubles.loads, 1);
    assert_eq!(doubles.generations, 2);
}

#[test]
fn new_commit_gets_a_new_key() {
    let run = CacheRun::new("u/r", false).unwrap();
    let a = run.next(CacheEvent::Resolved(Ok(api("main", "111"))), 1);
    let run = CacheRun::new("u/r", false).unwrap();
    let b = run.next(CacheEvent::Resolved(Ok(api("main", "222"))), 1);
    match (&a.step, &b.step) {
        (CacheStep::Load(ka), CacheStep::Load(kb)) => {
            assert_eq!((ka.user.as_str(), ka.repo.as_str()), ("u", "r"));
            assert_eq!(ka.api.sha, "111");
            assert_eq!(kb.api.sha, "222");
        }
        other => panic!("unexpected steps {other:?}"),
    }

    let mut doubles = Doubles::default();
    let mut clock = 0;
    doubles.process("u/r", false, "111", &mut clock);
    doubles.process("u/r", false, "222", &mut clock);
    assert_eq!(doubles.generations, 2);
}

#[test]
fn failed_generation_stores_an_error_record() {
    let run = CacheRun::new("user/repo", true).unwrap();
    let run = run.next(CacheEvent::Resolved(Ok(api("main", "abc"))), 5);
    assert!(matches!(run.step, CacheStep::Generate(_)));
    let run = run.next(
        CacheEvent::Generated(Err("\x1b[31mfail to clone repo\x1b[0m".to_owned())),
        50,
    );
    match &run.step {
        CacheStep::Store(key, value) => {
            assert_eq!(key.api.sha, "abc");
            assert_eq!(value.timestamp, Some(Timestamp { start: 50, end: 50 }));
            match &value.inner {
                Payload::Failure(e) => {
                    assert_eq!(e.user, "user");
                    assert_eq!(e.repo, "repo");
                    assert_eq!(e.err, "fail to clone repo");
                }
                other => panic!("not an error record: {other:?}"),
            }
        }
        other => panic!("unexpected step {other:?}"),
    }
    let run = run.next(CacheEvent::Stored(Ok(())), 60);
    assert!(run.is_done());
    assert!(matches!(run.step, CacheStep::Finish(..)));
}

#[test]
fn outside_failures_abort() {
    let run = CacheRun::new("u/r", false).unwrap();
    let run = run.next(CacheEvent::Resolved(Err("no network".to_owned())), 1);
    assert!(matches!(&run.step, CacheStep::Abort(CacheFault::Remote(m)) if m == "no network"));

    let run = CacheRun::new("u/r", false).unwrap();
    let run = run.next(CacheEvent::Resolved(Ok(api("main", "1"))), 1);
    let run = run.next(CacheEvent::Loaded(Err("corrupt".to_owned())), 2);
    assert!(matches!(&run.step, CacheStep::Abort(CacheFault::Read(_))));

    let run = CacheRun::new("u/r", false).unwrap();
    let run = run.next(CacheEvent::Resolved(Ok(api("main", "1"))), 1);
    let run = run.next(CacheEvent::Loaded(Ok(None)), 2);
    let run = run.next(CacheEvent::Generated(Ok(serde_json::Value::Null)), 3);
    let run = run.next(CacheEvent::Stored(Err("disk full".to_owned())), 4);
    assert!(matches!(&run.step, CacheStep::Abort(CacheFault::Write(_))));
    assert!(run.is_done());
}

#[test]
fn unanswered_step_stays() {
    let run = CacheRun::new("u/r", false).unwrap();
    let run = run.next(CacheEvent::Stored(Ok(())), 1);
    assert!(matches!(run.step, CacheStep::Resolve));
    assert!(!run.is_done());
}

#[test]
fn timestamps_move_forward() {
    let mut v = json_record(100, 200);
    v.update_timestamp_at(300);
    assert_eq!(v.timestamp, Some(Timestamp { start: 100, end: 300 }));
    let mut fresh = CachedValue::new(serde_json::Value::Null);
    fresh.update_timestamp_at(7);
    assert_eq!(fresh.timestamp, Some(Timestamp { start: 7, end: 7 }));
    let mut now = json_record(100, 200);
    now.update_timestamp();
    assert_eq!(now.timestamp.unwrap().start, 100);
}

#[test]
fn error_record_is_stripped() {
    let v = CachedValue::from_error("u", "r", "\x1b[32mbad\x1b[0m thing", 9);
    assert_eq!(v.timestamp, Some(Timestamp { start: 9, end: 9 }));
    assert!(matches!(&v.inner, Payload::Failure(e) if e.err == "bad thing" && e.user == "u" && e.repo == "r"));
}
