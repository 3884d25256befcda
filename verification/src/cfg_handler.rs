use vstd::prelude::*;

verus! {

/// Threading model for the hashing workers. Only `SINGLE` is supported.
#[derive(PartialEq, Eq, Structural, Clone, Copy, Debug)]
pub enum RXThreading {
    SINGLE,
    MULTI,
}

/// Setup configuration, read once at startup.
pub struct RandomxCfg {
    pub num_cores: u32,
    pub threads_per_core: u32,
    pub keypair: String,
    pub thread_model: RXThreading,
    pub puzzle: crate::puzzle::PuzzleType,
    pub difficulty: u32,
    pub key_blockchain_uri: String,
}

/// Derived process-wide configuration values.
pub struct GlobalConfig {
    pub max_workers: u32,
    pub alloc_workers: u32,
    pub difficulty: u32,
}

impl RandomxCfg {
    /// Startup validation: only the single thread model and the
    /// leading-zeros puzzle are supported, and the capacity must be
    /// at least one core with at least one thread per core.
    pub fn validate(&self) -> (r: bool)
        ensures
            r == (self.thread_model == RXThreading::SINGLE && self.num_cores >= 1
                && self.threads_per_core >= 1),
    {
        self.thread_model == RXThreading::SINGLE && self.num_cores >= 1
            && self.threads_per_core >= 1
    }
}

/// Runtime configuration, re-read on every control tick.
pub struct RuntimeCfg {
    pub deallocated_threads: u32,
    pub operator_update: i64,
}

impl RuntimeCfg {
    pub fn new(deallocated_threads: u32, operator_update: i64) -> (r: RuntimeCfg)
        ensures
            r.deallocated_threads == deallocated_threads,
            r.operator_update == operator_update,
    {
        RuntimeCfg { deallocated_threads, operator_update }
    }
}

/// Computes the process-wide worker capacity from the two configs:
/// `max_workers = num_cores * threads_per_core`, and
/// `alloc_workers = max_workers - deallocated_threads` unless the
/// requested deallocation exceeds the capacity, in which case the
/// request is ignored and every worker slot is allocated.
pub fn global_config_setter(app_cfg: &RandomxCfg, runtime_cfg: &RuntimeCfg) -> (r: Result<
    GlobalConfig,
    (),
>)
    requires
        app_cfg.num_cores * app_cfg.threads_per_core <= u32::MAX,
    ensures
        r is Ok,
        (r matches Ok(g) ==> {
            &&& g.max_workers == app_cfg.num_cores * app_cfg.threads_per_core
            &&& g.alloc_workers == if runtime_cfg.deallocated_threads <= g.max_workers {
                (g.max_workers - runtime_cfg.deallocated_threads) as u32
            } else {
                g.max_workers
            }
            &&& g.difficulty == app_cfg.difficulty
        }),
{
    let max_workers = app_cfg.num_cores * app_cfg.threads_per_core;
    let alloc_workers = if runtime_cfg.deallocated_threads <= max_workers {
        max_workers - runtime_cfg.deallocated_threads
    } else {
        max_workers
    };
    Ok(GlobalConfig { max_workers, alloc_workers, difficulty: app_cfg.difficulty })
}

} // verus!
