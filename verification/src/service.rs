//! How the service is set up.
use vstd::prelude::*;

verus! {

/// With fewer stored slots than this a subscriber that reconnects may have missed some.
pub const RECOMMENDED_REPLAY_SLOTS: u64 = 150;

/// What the setup depends on.
#[derive(Debug, Clone, Copy, PartialEq, Eq, Structural)]
pub struct ServiceConfig {
    pub snapshot_plugin_channel_capacity: Option<usize>,
    pub unary_disabled: bool,
    pub replay_stored_slots: u64,
    pub geyser_dispatch_cpu_core: Option<usize>,
}

/// Which pipeline runs.
#[derive(Debug, Clone, Copy, PartialEq, Eq, Structural)]
pub enum Pipeline {
    /// The single loop.
    Loop,
    /// Two threads, the first of them on a core of its own.
    Threads { cpu_core: usize },
}

/// How the service is set up.
#[derive(Debug, Clone, Copy, PartialEq, Eq, Structural)]
pub struct ServicePlan {
    /// How many messages of a snapshot may wait, if there is one.
    pub snapshot_capacity: Option<usize>,
    /// Whether unary requests are answered.
    pub answers_unary: bool,
    /// The earliest slot that can be replayed as it is published first, if slots are stored.
    pub first_available_slot: Option<u64>,
    pub pipeline: Pipeline,
    /// Whether to warn that few slots are stored.
    pub warns_of_few_slots: bool,
}

impl ServiceConfig {
    /// How the service is set up: a snapshot is only sent once, before any reload; slots are
    /// replayed where any are stored, and none is available to begin with.
    pub open spec fn planned(self, is_reload: bool) -> ServicePlan {
        ServicePlan {
            snapshot_capacity: if is_reload {
                None
            } else {
                self.snapshot_plugin_channel_capacity
            },
            answers_unary: !self.unary_disabled,
            first_available_slot: if self.replay_stored_slots == 0 {
                None
            } else {
                Some(u64::MAX)
            },
            pipeline: match self.geyser_dispatch_cpu_core {
                Some(cpu_core) => Pipeline::Threads { cpu_core },
                None => Pipeline::Loop,
            },
            warns_of_few_slots: self.replay_stored_slots < RECOMMENDED_REPLAY_SLOTS,
        }
    }

    /// How the service is set up.
    pub fn plan(&self, is_reload: bool) -> (plan: ServicePlan)
        ensures
            plan == self.planned(is_reload),
    {
        ServicePlan {
            snapshot_capacity: if is_reload {
                None
            } else {
                self.snapshot_plugin_channel_capacity
            },
            answers_unary: !self.unary_disabled,
            first_available_slot: if self.replay_stored_slots == 0 {
                None
            } else {
                Some(u64::MAX)
            },
            pipeline: match self.geyser_dispatch_cpu_core {
                Some(cpu_core) => Pipeline::Threads { cpu_core },
                None => Pipeline::Loop,
            },
            warns_of_few_slots: self.replay_stored_slots < RECOMMENDED_REPLAY_SLOTS,
        }
    }
}

/// What a listener listens on.
#[derive(Debug, Clone, Copy, PartialEq, Eq, Structural)]
pub enum ListenerKind {
    Tcp,
    Unix,
}

/// Whether a listener encrypts: only over the network, and only with an identity to show.
pub fn encrypts(listener: ListenerKind, has_identity: bool) -> (encrypts: bool)
    ensures
        encrypts == (listener is Tcp && has_identity),
{
    match listener {
        ListenerKind::Tcp => has_identity,
        ListenerKind::Unix => false,
    }
}

/// Whether to warn that a listener does not encrypt although it was asked for.
pub fn ignores_tls(listener: ListenerKind, tls_configured: bool) -> (ignores: bool)
    ensures
        ignores == (listener is Unix && tls_configured),
{
    match listener {
        ListenerKind::Tcp => false,
        ListenerKind::Unix => tls_configured,
    }
}

} // verus!
