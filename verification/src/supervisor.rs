use vstd::prelude::*;

use crate::cfg_handler::GlobalConfig;
use crate::registry::Registry;
use crate::registry::ids;

verus! {

/// The supervisor's control state.
#[derive(PartialEq, Eq, Structural, Clone, Copy, Debug)]
pub enum SupervisorPhase {
    Spawning,
    Running,
    Rotating,
    Draining,
}

/// What one capacity check of the runtime config calls for.
#[derive(PartialEq, Eq, Structural, Clone, Copy, Debug)]
pub enum CapacityAction {
    NoChange,
    Park { delta: u32 },
    Reactivate { delta: u32 },
    Invalid,
}

/// The capacity rule, from the operator-requested parked count and the
/// currently parked count: park the difference when more parking is
/// requested than present — unless the request exceeds the whole
/// capacity, which is invalid and ignored — and reactivate the
/// difference when less is requested.
pub open spec fn capacity_decision(max_workers: u32, requested: u32, parked: nat) -> CapacityAction {
    if requested > parked {
        if requested > max_workers {
            CapacityAction::Invalid
        } else {
            CapacityAction::Park { delta: (requested - parked) as u32 }
        }
    } else if requested < parked {
        CapacityAction::Reactivate { delta: (parked - requested) as u32 }
    } else {
        CapacityAction::NoChange
    }
}

/// The pool supervisor: owns the registry, the shared control flags,
/// and the derived configuration. The embedding program mirrors the
/// flag fields into its shared atomics and performs the spawning,
/// sleeping and I/O the decisions call for.
pub struct Supervisor {
    pub phase: SupervisorPhase,
    pub registry: Registry,
    pub randomx_restart: bool,
    pub app_exit: bool,
    pub current_keyblock: u64,
    pub config: GlobalConfig,
}

impl Supervisor {
    pub open spec fn wf(&self) -> bool {
        &&& self.registry.wf()
        &&& self.registry.max_workers == self.config.max_workers
    }

    /// A fresh supervisor, about to spawn the first worker generation.
    pub fn new(config: GlobalConfig, key_block: u64) -> (r: Supervisor)
        ensures
            r.wf(),
            r.phase == SupervisorPhase::Spawning,
            r.registry.alloc_ids() =~= Seq::<Seq<char>>::empty(),
            r.registry.dealloc_ids() =~= Seq::<Seq<char>>::empty(),
            r.registry.dealloc_requests == 0,
            r.registry.up_counter == 0,
            !r.randomx_restart,
            !r.app_exit,
            r.current_keyblock == key_block,
            r.config == config,
    {
        let registry = Registry::new(config.max_workers);
        Supervisor {
            phase: SupervisorPhase::Spawning,
            registry,
            randomx_restart: false,
            app_exit: false,
            current_keyblock: key_block,
            config,
        }
    }

    /// The readiness wait condition: every allocated worker has
    /// finished dataset initialization.
    pub fn ready(&self) -> (r: bool)
        requires
            self.wf(),
        ensures
            r == (self.registry.up_counter == self.registry.alloc_ids().len()),
    {
        self.registry.up_counter as usize == self.registry.alloc_set.len()
    }

    /// Leaves the readiness wait for the steady control loop.
    pub fn enter_running(&mut self)
        requires
            old(self).wf(),
            old(self).registry.up_counter == old(self).registry.alloc_ids().len(),
        ensures
            final(self).wf(),
            final(self).phase == SupervisorPhase::Running,
            final(self).registry == old(self).registry,
            final(self).randomx_restart == old(self).randomx_restart,
            final(self).app_exit == old(self).app_exit,
            final(self).current_keyblock == old(self).current_keyblock,
            final(self).config == old(self).config,
    {
        self.phase = SupervisorPhase::Running;
    }

    /// A changed key block starts a rotation: the restart flag goes up
    /// so that every running worker exits at its next poll.
    pub fn start_rotation(&mut self, new_key_block: u64)
        requires
            old(self).wf(),
        ensures
            final(self).wf(),
            final(self).phase == SupervisorPhase::Rotating,
            final(self).randomx_restart,
            final(self).current_keyblock == new_key_block,
            final(self).registry == old(self).registry,
            final(self).app_exit == old(self).app_exit,
            final(self).config == old(self).config,
    {
        self.phase = SupervisorPhase::Rotating;
        self.randomx_restart = true;
        self.current_keyblock = new_key_block;
    }

    /// The second half of a rotation, run once the old generation has
    /// been observed exiting: the exited identities leave the allocated
    /// set, the readiness counter is zeroed, and the restart flag is
    /// cleared — before any respawn, else the new generation would
    /// observe it and exit at once. Returns how many fresh workers to
    /// spawn under the new key block: as many as were allocated.
    pub fn prepare_respawn(&mut self) -> (respawn: usize)
        requires
            old(self).wf(),
            old(self).phase == SupervisorPhase::Rotating,
        ensures
            final(self).wf(),
            !final(self).randomx_restart,
            final(self).phase == SupervisorPhase::Spawning,
            final(self).registry.up_counter == 0,
            final(self).registry.alloc_ids() =~= Seq::<Seq<char>>::empty(),
            final(self).registry.dealloc_set == old(self).registry.dealloc_set,
            final(self).registry.dealloc_requests == old(self).registry.dealloc_requests,
            final(self).registry.max_workers == old(self).registry.max_workers,
            respawn == old(self).registry.alloc_ids().len(),
            final(self).app_exit == old(self).app_exit,
            final(self).current_keyblock == old(self).current_keyblock,
            final(self).config == old(self).config,
    {
        let respawn = self.registry.alloc_set.len();
        self.registry.alloc_set = Vec::new();
        self.registry.up_counter = 0;
        self.randomx_restart = false;
        self.phase = SupervisorPhase::Spawning;
        proof {
            assert(ids(self.registry.alloc_set@) =~= Seq::<Seq<char>>::empty());
        }
        respawn
    }

    /// One capacity check against the freshly re-read runtime config.
    /// A park request raises the pending-deallocation counter by the
    /// difference; a reactivation hands back the longest-parked
    /// identities for respawning; an over-capacity request changes
    /// nothing.
    pub fn apply_capacity(&mut self, requested: u32) -> (r: (CapacityAction, Vec<String>))
        requires
            old(self).wf(),
        ensures
            final(self).wf(),
            r.0 == capacity_decision(
                old(self).config.max_workers,
                requested,
                old(self).registry.dealloc_ids().len(),
            ),
            (r.0 == CapacityAction::Invalid || r.0 == CapacityAction::NoChange) ==> (
            final(self).registry == old(self).registry && r.1@.len() == 0),
            (r.0 matches CapacityAction::Park { delta } ==> {
                &&& final(self).registry.dealloc_requests == delta
                &&& final(self).registry.alloc_set == old(self).registry.alloc_set
                &&& final(self).registry.dealloc_set == old(self).registry.dealloc_set
                &&& final(self).registry.up_counter == old(self).registry.up_counter
                &&& r.1@.len() == 0
            }),
            (r.0 matches CapacityAction::Reactivate { delta } ==> {
                &&& ids(r.1@) =~= old(self).registry.dealloc_ids().take(delta as int)
                &&& final(self).registry.dealloc_ids() =~= old(self).registry.dealloc_ids().skip(
                    delta as int,
                )
                &&& final(self).registry.alloc_set == old(self).registry.alloc_set
                &&& final(self).registry.dealloc_requests == old(
                    self,
                ).registry.dealloc_requests
                &&& final(self).registry.up_counter == old(self).registry.up_counter
            }),
            final(self).registry.max_workers == old(self).registry.max_workers,
            final(self).phase == old(self).phase,
            final(self).randomx_restart == old(self).randomx_restart,
            final(self).app_exit == old(self).app_exit,
            final(self).current_keyblock == old(self).current_keyblock,
            final(self).config == old(self).config,
    {
        let parked = self.registry.dealloc_set.len();
        proof {
            assert(self.registry.dealloc_ids().len() == self.registry.dealloc_set@.len());
            assert(parked <= self.registry.max_workers);
        }
        if (requested as usize) > parked {
            if requested > self.config.max_workers {
                (CapacityAction::Invalid, Vec::new())
            } else {
                let delta = requested - (parked as u32);
                self.registry.request_deallocations(delta);
                (CapacityAction::Park { delta }, Vec::new())
            }
        } else if (requested as usize) < parked {
            let delta = parked - (requested as usize);
            let taken = self.registry.reactivate(delta);
            (CapacityAction::Reactivate { delta: delta as u32 }, taken)
        } else {
            (CapacityAction::NoChange, Vec::new())
        }
    }

    /// The shutdown check at the end of each tick: a pending signal
    /// latches `app_exit` — monotonically, it never goes down — and
    /// moves the supervisor to teardown.
    pub fn on_signal(&mut self, signal_pending: bool) -> (stop: bool)
        requires
            old(self).wf(),
        ensures
            final(self).wf(),
            final(self).app_exit == (old(self).app_exit || signal_pending),
            stop == signal_pending,
            signal_pending ==> final(self).phase == SupervisorPhase::Draining,
            !signal_pending ==> *final(self) == *old(self),
            final(self).registry == old(self).registry,
            final(self).randomx_restart == old(self).randomx_restart,
            final(self).current_keyblock == old(self).current_keyblock,
            final(self).config == old(self).config,
    {
        if signal_pending {
            self.app_exit = true;
            self.phase = SupervisorPhase::Draining;
            true
        } else {
            false
        }
    }
}

} // verus!
