use randomx_pool::CapacityAction;
use randomx_pool::Registry;
use randomx_pool::RuntimeCfg;
use randomx_pool::Supervisor;
use randomx_pool::SupervisorPhase;
use randomx_pool::global_config_setter;
use randomx_pool::PuzzleType;
use randomx_pool::RXThreading;
use randomx_pool::RandomxCfg;

fn setup_cfg(num_cores: u32, threads_per_core: u32, difficulty: u32) -> RandomxCfg {
    RandomxCfg {
        num_cores,
        threads_per_core,
        keypair: String::new(),
        thread_model: RXThreading::SINGLE,
        puzzle: PuzzleType::ZEROS,
        difficulty,
        key_blockchain_uri: String::new(),
    }
}

fn spawn_worker(reg: &mut Registry, name: &str) {
    reg.register(name.to_string());
    reg.mark_up();
}

#[test]
fn startup_happy() {
    let app_cfg = setup_cfg(2, 1, 4);
    let runtime_cfg = RuntimeCfg::new(0, 0);
    let cfg = global_config_setter(&app_cfg, &runtime_cfg).unwrap();
    assert_eq!(cfg.max_workers, 2);
    assert_eq!(cfg.alloc_workers, 2);
    assert_eq!(cfg.difficulty, 4);

    let mut sup = Supervisor::new(cfg, 1);
    assert_eq!(sup.phase, SupervisorPhase::Spawning);
    sup.registry.register("w0".to_string());
    sup.registry.register("w1".to_string());
    // both workers still initializing their datasets
    assert!(!sup.ready());
    sup.registry.mark_up();
    assert!(!sup.ready());
    sup.registry.mark_up();
    assert!(sup.ready());
    let snap = sup.registry.snapshot();
    assert_eq!(snap.n_alloc, 2);
    assert_eq!(snap.up_counter, 2);
    sup.enter_running();
    assert_eq!(sup.phase, SupervisorPhase::Running);
}

#[test]
fn capacity_bound_and_disjointness() {
    let mut reg = Registry::new(4);
    spawn_worker(&mut reg, "a");
    spawn_worker(&mut reg, "b");
    spawn_worker(&mut reg, "c");
    spawn_worker(&mut reg, "d");
    reg.request_deallocations(2);
    assert!(reg.try_park(&"a".to_string()));
    assert!(reg.try_park(&"c".to_string()));
    // the two sets never exceed the capacity and never intersect
    assert!(reg.alloc_set.len() + reg.dealloc_set.len() <= 4);
    for name in reg.alloc_set.iter() {
        assert!(!reg.dealloc_set.contains(name));
    }
    assert_eq!(reg.alloc_set, vec!["b".to_string(), "d".to_string()]);
    assert_eq!(reg.dealloc_set, vec!["a".to_string(), "c".to_string()]);
}

#[test]
fn capacity_decrease_drains() {
    let mut reg = Registry::new(4);
    spawn_worker(&mut reg, "a");
    spawn_worker(&mut reg, "b");
    spawn_worker(&mut reg, "c");
    spawn_worker(&mut reg, "d");
    let before_dealloc = reg.dealloc_set.len();
    reg.request_deallocations(2);
    // exactly two park attempts succeed, then the counter is drained
    assert!(reg.try_park(&"b".to_string()));
    assert!(reg.try_park(&"d".to_string()));
    assert!(!reg.try_park(&"a".to_string()));
    assert_eq!(reg.dealloc_requests, 0);
    assert_eq!(reg.dealloc_set.len(), before_dealloc + 2);
    assert_eq!(reg.up_counter, 2);
}

#[test]
fn park_and_reactivate() {
    let app_cfg = setup_cfg(4, 1, 4);
    let runtime_cfg = RuntimeCfg::new(0, 0);
    let cfg = global_config_setter(&app_cfg, &runtime_cfg).unwrap();
    let mut sup = Supervisor::new(cfg, 1);
    for name in ["w0", "w1", "w2", "w3"] {
        spawn_worker(&mut sup.registry, name);
    }
    sup.enter_running();

    // operator raises deallocated_threads to 2
    let (action, taken) = sup.apply_capacity(2);
    assert_eq!(action, CapacityAction::Park { delta: 2 });
    assert!(taken.is_empty());
    assert!(sup.registry.try_park(&"w0".to_string()));
    assert!(sup.registry.try_park(&"w1".to_string()));
    assert_eq!(sup.registry.alloc_set.len(), 2);
    assert_eq!(sup.registry.dealloc_set.len(), 2);

    // operator lowers it back to 0: the same two identities come back,
    // in insertion order
    let (action, taken) = sup.apply_capacity(0);
    assert_eq!(action, CapacityAction::Reactivate { delta: 2 });
    assert_eq!(taken, vec!["w0".to_string(), "w1".to_string()]);
    for name in taken.iter() {
        sup.registry.register(name.clone());
        sup.registry.mark_up();
    }
    assert_eq!(sup.registry.alloc_set.len(), 4);
    assert_eq!(sup.registry.dealloc_set.len(), 0);
    assert!(sup.ready());
}

#[test]
fn capacity_equal_is_noop() {
    let app_cfg = setup_cfg(2, 2, 4);
    let runtime_cfg = RuntimeCfg::new(0, 0);
    let cfg = global_config_setter(&app_cfg, &runtime_cfg).unwrap();
    let mut sup = Supervisor::new(cfg, 1);
    spawn_worker(&mut sup.registry, "w0");
    let (action, taken) = sup.apply_capacity(0);
    assert_eq!(action, CapacityAction::NoChange);
    assert!(taken.is_empty());
    assert_eq!(sup.registry.dealloc_requests, 0);
}

#[test]
fn invalid_deallocation_ignored() {
    let app_cfg = setup_cfg(2, 1, 4);
    let runtime_cfg = RuntimeCfg::new(0, 0);
    let cfg = global_config_setter(&app_cfg, &runtime_cfg).unwrap();
    let mut sup = Supervisor::new(cfg, 1);
    spawn_worker(&mut sup.registry, "w0");
    spawn_worker(&mut sup.registry, "w1");
    // request exceeds the whole capacity: warned about and ignored
    let (action, taken) = sup.apply_capacity(3);
    assert_eq!(action, CapacityAction::Invalid);
    assert!(taken.is_empty());
    assert_eq!(sup.registry.alloc_set.len(), 2);
    assert_eq!(sup.registry.dealloc_set.len(), 0);
    assert_eq!(sup.registry.dealloc_requests, 0);
}

#[test]
fn invalid_deallocation_in_startup_config() {
    let app_cfg = setup_cfg(2, 1, 4);
    // deallocating more than the capacity at startup is ignored
    let runtime_cfg = RuntimeCfg::new(5, 0);
    let cfg = global_config_setter(&app_cfg, &runtime_cfg).unwrap();
    assert_eq!(cfg.max_workers, 2);
    assert_eq!(cfg.alloc_workers, 2);
}

#[test]
fn key_block_rotation() {
    let app_cfg = setup_cfg(2, 1, 4);
    let runtime_cfg = RuntimeCfg::new(0, 0);
    let cfg = global_config_setter(&app_cfg, &runtime_cfg).unwrap();
    let mut sup = Supervisor::new(cfg, 7);
    spawn_worker(&mut sup.registry, "epoch7_w0");
    spawn_worker(&mut sup.registry, "epoch7_w1");
    sup.enter_running();

    sup.start_rotation(8);
    assert!(sup.randomx_restart);
    assert_eq!(sup.current_keyblock, 8);
    assert_eq!(sup.phase, SupervisorPhase::Rotating);

    let respawn = sup.prepare_respawn();
    assert_eq!(respawn, 2);
    // readiness transiently zero, restart cleared before any respawn
    assert_eq!(sup.registry.up_counter, 0);
    assert!(!sup.randomx_restart);
    assert!(sup.registry.alloc_set.is_empty());

    // the new generation carries fresh identities
    spawn_worker(&mut sup.registry, "epoch8_w0");
    spawn_worker(&mut sup.registry, "epoch8_w1");
    assert!(sup.ready());
    assert_eq!(sup.registry.up_counter, 2);
}

#[test]
fn graceful_shutdown() {
    let app_cfg = setup_cfg(2, 1, 4);
    let runtime_cfg = RuntimeCfg::new(0, 0);
    let cfg = global_config_setter(&app_cfg, &runtime_cfg).unwrap();
    let mut sup = Supervisor::new(cfg, 1);
    spawn_worker(&mut sup.registry, "w0");
    sup.enter_running();

    assert!(!sup.on_signal(false));
    assert!(!sup.app_exit);

    assert!(sup.on_signal(true));
    assert!(sup.app_exit);
    assert_eq!(sup.phase, SupervisorPhase::Draining);

    // the flag is monotonic
    assert!(!sup.on_signal(false));
    assert!(sup.app_exit);
}

#[test]
fn validate_setup_config() {
    assert!(setup_cfg(2, 1, 4).validate());
    assert!(!setup_cfg(0, 1, 4).validate());
    assert!(!setup_cfg(2, 0, 4).validate());
    let mut cfg = setup_cfg(2, 1, 4);
    cfg.thread_model = RXThreading::MULTI;
    assert!(!cfg.validate());
}
