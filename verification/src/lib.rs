mod cfg_handler;
mod codec;
mod pow;
mod puzzle;
mod registry;
mod supervisor;

pub use cfg_handler::GlobalConfig;
pub use cfg_handler::RXThreading;
pub use cfg_handler::RandomxCfg;
pub use cfg_handler::RuntimeCfg;
pub use cfg_handler::global_config_setter;
pub use codec::parse_solution;
pub use codec::solution_json_bytes;
pub use codec::u64_to_dec;
pub use pow::ExitReason;
pub use pow::StepOutcome;
pub use pow::WorkerFlags;
pub use pow::WorkerState;
pub use pow::bytes_eq;
pub use pow::context_preimage;
pub use pow::exit_decision;
pub use pow::leading_zeros_bytes;
pub use pow::next_nonce_raw;
pub use pow::randomx_verifier;
pub use puzzle::PuzzleSolution;
pub use puzzle::PuzzleType;
pub use registry::Registry;
pub use registry::RegistrySnapshot;
pub use supervisor::CapacityAction;
pub use supervisor::Supervisor;
pub use supervisor::SupervisorPhase;
