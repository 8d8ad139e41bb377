use kvs::cli::KvStoreSubCommand;
use kvs::engine::str_eq;
use kvs::pool::Context;
use kvs::pool::Sentinel;
use kvs::pool::ThreadPool;
use kvs::protocol::Request;
use kvs::Engine;
use kvs::ErrorKind;
use kvs::KvsEngine;
use kvs::KvStore;

#[test]
fn engine_names_round_trip() {
    assert_eq!(Engine::Kvs.as_str(), "kvs");
    assert_eq!(Engine::Sled.as_str(), "sled");
    assert_eq!(Engine::from_name("kvs").unwrap(), Engine::Kvs);
    assert_eq!(Engine::from_name("sled").unwrap(), Engine::Sled);
    assert_eq!(
        Engine::from_name("lsm").unwrap_err().kind(),
        ErrorKind::UnsupportedKvsEngineBackend
    );
    let parsed: Engine = "kvs".parse().unwrap();
    assert_eq!(parsed, Engine::Kvs);
}

#[test]
fn engine_names_fold_ascii_case() {
    assert_eq!(Engine::from_name("SLED").unwrap(), Engine::Sled);
    assert_eq!(Engine::from_name("Kvs").unwrap(), Engine::Kvs);
    assert_eq!(Engine::from_name("kVs").unwrap(), Engine::Kvs);
    let parsed: Engine = "SLED".parse().unwrap();
    assert_eq!(parsed, Engine::Sled);
    assert_eq!(
        Engine::from_name("kvs ").unwrap_err().kind(),
        ErrorKind::UnsupportedKvsEngineBackend
    );
}

#[test]
fn engine_compat_refuses_a_switched_backend() {
    assert_eq!(Engine::check_compat(None, Engine::Kvs).unwrap(), Engine::Kvs);
    assert_eq!(Engine::check_compat(Some(Engine::Kvs), Engine::Kvs).unwrap(), Engine::Kvs);
    assert_eq!(
        Engine::check_compat(Some(Engine::Sled), Engine::Kvs).unwrap_err().kind(),
        ErrorKind::MismatchedKvsEngineBackend
    );
}

#[test]
fn str_eq_compares_contents() {
    assert!(str_eq("abc", "abc"));
    assert!(!str_eq("abc", "abd"));
    assert!(!str_eq("abc", "ab"));
    assert!(str_eq("", ""));
}

#[test]
fn engine_trait_drives_the_store() {
    fn roundtrip<E: KvsEngine>(engine: &mut E) {
        engine.set("k".to_string(), "v".to_string()).unwrap();
        assert_eq!(engine.get("k".to_string()).unwrap(), Some("v".to_string()));
        engine.remove("k".to_string()).unwrap();
        assert_eq!(engine.get("k".to_string()).unwrap(), None);
    }
    let mut kv = KvStore::open(Vec::new()).unwrap();
    roundtrip(&mut kv);
}

#[test]
fn subcommands_turn_into_requests() {
    let put = KvStoreSubCommand::Put { key: "k".to_string(), value: "v".to_string() };
    assert_eq!(put.key(), "k");
    assert_eq!(put.to_request(), Request::Put { key: "k".to_string(), value: "v".to_string() });

    let get = KvStoreSubCommand::Get { key: "k".to_string() };
    assert_eq!(get.to_request(), Request::Get { key: "k".to_string() });

    let rm = KvStoreSubCommand::Rm { key: "k".to_string() };
    assert_eq!(rm.to_request(), Request::Remove { key: "k".to_string() });
}

#[test]
fn error_kinds_have_messages() {
    assert_eq!(ErrorKind::KeyNotFound.as_str(), "Key not found");
    assert_eq!(ErrorKind::CorruptedLog.as_str(), "Corrupted on-disk log");
    assert_eq!(kvs::Error::new(ErrorKind::ServerError).message(), "Remote server error");
}

#[test]
fn pool_join_waits_for_work_to_drain() {
    let mut pool = ThreadPool::new(4);
    assert!(pool.join());
    pool.exec();
    pool.exec();
    assert!(!pool.join());
    pool.job_started();
    pool.job_started();
    assert!(!pool.join());
    pool.job_finished();
    pool.job_finished();
    assert!(pool.join());
}

#[test]
fn sentinel_replaces_only_a_panicked_worker() {
    let mut ctx = Context::new(2);
    ctx.job_queued();
    ctx.job_started();

    // a worker dies mid-job: its sentinel is still armed and respawns
    let armed = Sentinel::new();
    assert!(armed.fire(&mut ctx));
    assert_eq!(ctx.workers(), 2);

    // a worker exits cleanly: its sentinel was disarmed, the pool shrinks
    let mut disarmed = Sentinel::new();
    disarmed.stop();
    assert!(!disarmed.fire(&mut ctx));
    assert_eq!(ctx.workers(), 1);
}

#[test]
fn context_reports_pending_work() {
    let mut ctx = Context::new(1);
    assert!(!ctx.has_work());
    assert!(ctx.join_notify_all());
    ctx.job_queued();
    assert!(ctx.has_work());
    ctx.job_started();
    assert!(ctx.has_work());
    ctx.job_finished();
    assert!(!ctx.has_work());
}

#[test]
fn reader_cache_drops_only_stale_generations() {
    let mut cache = kvs::readers::ReaderCache::new();
    cache.insert(0);
    cache.insert(1);
    cache.insert(3);
    cache.insert(7);
    assert!(cache.contains(3));
    assert!(!cache.contains(2));

    // after a merge at generation 3, handles below it are dropped
    cache.drop_stale(3);
    assert!(!cache.contains(0));
    assert!(!cache.contains(1));
    assert!(cache.contains(3));
    assert!(cache.contains(7));
}
