//! When a whole execution is replayed as one graph.
//!
//! An execution is recorded in two runs, a warmup and a capture, and replayed from
//! then on, as long as nothing changes that the recording depends on.

use crate::cuda_graph_op::same_dims;
use crate::device::{copy_ptrs, same_ptrs};
use crate::dims::DynMap;
use std::collections::HashMap;
use vstd::prelude::*;

verus! {

broadcast use vstd::std_specs::hash::group_hash_axioms;

/// What a recorded execution depends on.
#[derive(Debug)]
pub struct RuntimeReplaySignature {
    pub dyn_map: DynMap,
    pub cached_ptrs: HashMap<usize, u64>,
    pub force_zero_all: bool,
}

impl View for RuntimeReplaySignature {
    type V = (Map<char, usize>, Map<usize, u64>, bool);

    open spec fn view(&self) -> (Map<char, usize>, Map<usize, u64>, bool) {
        (self.dyn_map@, self.cached_ptrs@, self.force_zero_all)
    }
}

impl RuntimeReplaySignature {
    /// The dimensions are in order.
    pub open spec fn wf(&self) -> bool {
        self.dyn_map.wf()
    }

    /// The signature of an execution with these dimensions and pointers.
    pub fn new(dyn_map: &DynMap, cached_ptrs: &HashMap<usize, u64>, force_zero_all: bool) -> (r:
        RuntimeReplaySignature)
        requires
            dyn_map.wf(),
        ensures
            r.wf(),
            r@ == (dyn_map@, cached_ptrs@, force_zero_all),
    {
        RuntimeReplaySignature {
            dyn_map: dyn_map.duplicate(),
            cached_ptrs: copy_ptrs(cached_ptrs),
            force_zero_all,
        }
    }

    /// Whether two executions have the same signature.
    pub fn same(&self, other: &RuntimeReplaySignature) -> (r: bool)
        requires
            self.wf(),
            other.wf(),
        ensures
            r == (self@ == other@),
    {
        same_dims(&self.dyn_map, &other.dyn_map) && same_ptrs(
            &self.cached_ptrs,
            &other.cached_ptrs,
        ) && self.force_zero_all == other.force_zero_all
    }
}

/// How far the recording has come.
#[derive(Debug, Clone, Copy, PartialEq, Eq, Structural)]
pub enum RuntimeReplayState {
    Disabled,
    WarmupPending,
    CapturePending,
    Ready,
}

/// The recording and what is known of it.
#[derive(Debug)]
pub struct RuntimeReplayCache {
    pub state: RuntimeReplayState,
    /// What the execution at hand depends on.
    pub signature: Option<RuntimeReplaySignature>,
    /// Whether there is a recorded graph that can be launched.
    pub graph_exec: bool,
    /// The stream that the host operations were prepared on.
    pub prepared_capture_stream: Option<u64>,
    pub last_error: Option<String>,
}

/// What to do in an execution.
#[derive(Debug, Clone, Copy, PartialEq, Eq, Structural)]
pub enum ReplayAction {
    /// Execute the host operations one by one.
    Dispatch,
    /// Prepare the host operations for a capture, then execute them one by one.
    Warmup,
    /// Prepare the host operations and record them into a graph.
    Capture,
    /// Refresh the recorded graph and launch it.
    Replay,
    /// Execute the host operations one by one in place of a replay.
    Fallback,
}

/// The settings that an execution runs under.
#[derive(Debug, Clone, Copy, PartialEq, Eq, Structural)]
pub struct ReplaySettings {
    pub replay_enabled: bool,
    pub force_recapture: bool,
}

/// The state and whether there is a recorded graph, once the execution with a given
/// signature is announced.
pub open spec fn announced(
    state: RuntimeReplayState,
    graph_exec: bool,
    last: Option<(Map<char, usize>, Map<usize, u64>, bool)>,
    signature: (Map<char, usize>, Map<usize, u64>, bool),
    settings: ReplaySettings,
) -> (RuntimeReplayState, bool) {
    if !settings.replay_enabled {
        (RuntimeReplayState::Disabled, false)
    } else if last is Some && last != Some(signature) {
        (RuntimeReplayState::WarmupPending, false)
    } else if state == RuntimeReplayState::Disabled {
        (RuntimeReplayState::WarmupPending, graph_exec)
    } else if state == RuntimeReplayState::Ready && settings.force_recapture {
        (RuntimeReplayState::CapturePending, false)
    } else {
        (state, graph_exec)
    }
}

/// What is done in a state.
pub open spec fn action_in(state: RuntimeReplayState, graph_exec: bool) -> ReplayAction {
    match state {
        RuntimeReplayState::Disabled => ReplayAction::Dispatch,
        RuntimeReplayState::WarmupPending => ReplayAction::Warmup,
        RuntimeReplayState::CapturePending => ReplayAction::Capture,
        RuntimeReplayState::Ready => if graph_exec {
            ReplayAction::Replay
        } else {
            ReplayAction::Fallback
        },
    }
}

/// The name of an action that went through.
pub open spec fn mode_name(action: ReplayAction) -> Seq<char> {
    match action {
        ReplayAction::Dispatch => "dispatch"@,
        ReplayAction::Warmup => "warmup"@,
        ReplayAction::Capture => "capture"@,
        ReplayAction::Replay => "replay"@,
        ReplayAction::Fallback => "fallback"@,
    }
}

impl RuntimeReplayCache {
    /// The signature is in order, and there is one wherever a recording is under way.
    pub open spec fn wf(&self) -> bool {
        &&& self.signature matches Some(s) ==> s.wf()
        &&& self.state != RuntimeReplayState::Disabled ==> self.signature is Some
    }

    /// The signature of the last execution announced.
    pub open spec fn last_signature(&self) -> Option<(Map<char, usize>, Map<usize, u64>, bool)> {
        match self.signature {
            Some(s) => Some(s@),
            None => None,
        }
    }

    /// Nothing is recorded, nothing is known.
    pub open spec fn is_fresh(&self) -> bool {
        &&& self.state == RuntimeReplayState::Disabled
        &&& self.signature is None
        &&& !self.graph_exec
        &&& self.prepared_capture_stream is None
        &&& self.last_error is None
    }

    /// What becomes of the rest when an execution with this signature is announced: where
    /// replay is off, nothing is known any more; where the signature is new, the stream and
    /// the error of the one before are forgotten; and otherwise they stay.
    pub open spec fn notes_kept(
        self,
        after: RuntimeReplayCache,
        signature: (Map<char, usize>, Map<usize, u64>, bool),
        settings: ReplaySettings,
    ) -> bool {
        if !settings.replay_enabled {
            after.is_fresh()
        } else if self.last_signature() is Some && self.last_signature() != Some(signature) {
            after.prepared_capture_stream is None && after.last_error is None
        } else {
            after.prepared_capture_stream == self.prepared_capture_stream && after.last_error
                == self.last_error
        }
    }

    /// Nothing is recorded, nothing is known.
    pub fn new() -> (r: RuntimeReplayCache)
        ensures
            r.wf(),
            r.is_fresh(),
    {
        RuntimeReplayCache {
            state: RuntimeReplayState::Disabled,
            signature: None,
            graph_exec: false,
            prepared_capture_stream: None,
            last_error: None,
        }
    }

    /// Announce an execution: what to do in it. A recording that was made for another
    /// signature is dropped.
    pub fn announce(&mut self, signature: RuntimeReplaySignature, settings: ReplaySettings) -> (r:
        ReplayAction)
        requires
            old(self).wf(),
            signature.wf(),
        ensures
            final(self).wf(),
            ({
                let (state, graph_exec) = announced(
                    old(self).state,
                    old(self).graph_exec,
                    old(self).last_signature(),
                    signature@,
                    settings,
                );
                &&& r == action_in(state, graph_exec)
                &&& final(self).graph_exec == graph_exec
                &&& final(self).state == if r == ReplayAction::Fallback {
                    RuntimeReplayState::WarmupPending
                } else {
                    state
                }
            }),
            settings.replay_enabled ==> final(self).last_signature() == Some(signature@),
            old(self).notes_kept(*final(self), signature@, settings),
    {
        if !settings.replay_enabled {
            *self = RuntimeReplayCache::new();
            return ReplayAction::Dispatch;
        }
        if self.state == RuntimeReplayState::Disabled {
            self.state = RuntimeReplayState::WarmupPending;
        }
        let invalid = match &self.signature {
            Some(prev) => !prev.same(&signature),
            None => false,
        };
        if invalid {
            self.graph_exec = false;
            self.prepared_capture_stream = None;
            self.last_error = None;
            self.state = RuntimeReplayState::WarmupPending;
        }
        if settings.force_recapture && self.state == RuntimeReplayState::Ready {
            self.graph_exec = false;
            self.state = RuntimeReplayState::CapturePending;
        }
        self.signature = Some(signature);
        match self.state {
            RuntimeReplayState::Ready => {
                if self.graph_exec {
                    ReplayAction::Replay
                } else {
                    self.state = RuntimeReplayState::WarmupPending;
                    ReplayAction::Fallback
                }
            },
            RuntimeReplayState::CapturePending => ReplayAction::Capture,
            RuntimeReplayState::WarmupPending => ReplayAction::Warmup,
            RuntimeReplayState::Disabled => ReplayAction::Dispatch,
        }
    }

    /// The host operations were prepared for a capture on this stream.
    pub fn prepared_on(&mut self, stream: u64)
        requires
            old(self).wf(),
        ensures
            final(self).wf(),
            final(self).prepared_capture_stream == Some(stream),
            final(self).state == old(self).state,
            final(self).signature == old(self).signature,
            final(self).graph_exec == old(self).graph_exec,
            final(self).last_error == old(self).last_error,
    {
        self.prepared_capture_stream = Some(stream);
    }

    /// The warmup goes ahead: the next execution captures.
    pub fn warmed_up(&mut self)
        requires
            old(self).wf(),
            old(self).signature is Some,
        ensures
            final(self).wf(),
            final(self).state == RuntimeReplayState::CapturePending,
            final(self).signature == old(self).signature,
            final(self).graph_exec == old(self).graph_exec,
            final(self).prepared_capture_stream == old(self).prepared_capture_stream,
            final(self).last_error == old(self).last_error,
    {
        self.state = RuntimeReplayState::CapturePending;
    }

    /// Whether the capture may go ahead on this stream: the host operations must have
    /// been prepared on the same one.
    pub fn may_capture_on(&self, stream: u64) -> (r: bool)
        ensures
            r == (self.prepared_capture_stream == Some(stream)),
    {
        match self.prepared_capture_stream {
            Some(p) => p == stream,
            None => false,
        }
    }

    /// The capture went through: there is a graph to replay.
    pub fn captured(&mut self)
        requires
            old(self).wf(),
            old(self).signature is Some,
        ensures
            final(self).wf(),
            final(self).state == RuntimeReplayState::Ready,
            final(self).graph_exec,
            final(self).signature == old(self).signature,
            final(self).prepared_capture_stream == old(self).prepared_capture_stream,
            final(self).last_error == old(self).last_error,
    {
        self.graph_exec = true;
        self.state = RuntimeReplayState::Ready;
    }

    /// The capture failed: start over, without the graph.
    pub fn capture_failed(&mut self, error: String) -> (r: ReplayAction)
        requires
            old(self).wf(),
            old(self).signature is Some,
        ensures
            final(self).wf(),
            r == ReplayAction::Fallback,
            final(self).state == RuntimeReplayState::WarmupPending,
            !final(self).graph_exec,
            final(self).signature == old(self).signature,
            final(self).prepared_capture_stream == old(self).prepared_capture_stream,
            final(self).last_error == Some(error),
    {
        self.last_error = Some(error);
        self.graph_exec = false;
        self.state = RuntimeReplayState::WarmupPending;
        ReplayAction::Fallback
    }

    /// The replay failed, in the refresh or in the launch: start over.
    pub fn replay_failed(&mut self, error: String) -> (r: ReplayAction)
        requires
            old(self).wf(),
            old(self).signature is Some,
        ensures
            final(self).wf(),
            r == ReplayAction::Fallback,
            final(self).state == RuntimeReplayState::WarmupPending,
            final(self).graph_exec == old(self).graph_exec,
            final(self).signature == old(self).signature,
            final(self).prepared_capture_stream == old(self).prepared_capture_stream,
            final(self).last_error == Some(error),
    {
        self.last_error = Some(error);
        self.state = RuntimeReplayState::WarmupPending;
        ReplayAction::Fallback
    }
}

impl ReplayAction {
    /// Whether the host operations are executed one by one, on buffers that are zeroed
    /// first. A capture zeroes in its graph, and a replay repeats that.
    pub fn dispatches(self) -> (r: bool)
        ensures
            r == (self == ReplayAction::Dispatch || self == ReplayAction::Warmup || self
                == ReplayAction::Fallback),
    {
        match self {
            ReplayAction::Dispatch | ReplayAction::Warmup | ReplayAction::Fallback => true,
            ReplayAction::Capture | ReplayAction::Replay => false,
        }
    }

    /// The name under which the action is reported.
    pub fn name(self) -> (r: &'static str)
        ensures
            r@ == mode_name(self),
    {
        match self {
            ReplayAction::Dispatch => "dispatch",
            ReplayAction::Warmup => "warmup",
            ReplayAction::Capture => "capture",
            ReplayAction::Replay => "replay",
            ReplayAction::Fallback => "fallback",
        }
    }
}

/// A recorded graph is launched only for the signature that it was recorded under.
pub proof fn law_replay_only_under_same_signature(
    state: RuntimeReplayState,
    graph_exec: bool,
    last: Option<(Map<char, usize>, Map<usize, u64>, bool)>,
    signature: (Map<char, usize>, Map<usize, u64>, bool),
    settings: ReplaySettings,
)
    requires
        ({
            let (s, x) = announced(state, graph_exec, last, signature, settings);
            action_in(s, x) == ReplayAction::Replay
        }),
        state != RuntimeReplayState::Disabled ==> last is Some,
    ensures
        settings.replay_enabled,
        !settings.force_recapture,
        state == RuntimeReplayState::Ready,
        graph_exec,
        last == Some(signature),
{
}

/// Where replay is disabled, every execution dispatches its host operations, and no
/// recording is kept.
pub proof fn law_disabled_replay_dispatches(
    state: RuntimeReplayState,
    graph_exec: bool,
    last: Option<(Map<char, usize>, Map<usize, u64>, bool)>,
    signature: (Map<char, usize>, Map<usize, u64>, bool),
    force_recapture: bool,
)
    ensures
        ({
            let settings = ReplaySettings { replay_enabled: false, force_recapture };
            let (s, x) = announced(state, graph_exec, last, signature, settings);
            action_in(s, x) == ReplayAction::Dispatch && s == RuntimeReplayState::Disabled && !x
        }),
{
}

/// Executions under one signature warm up, capture, and replay from then on.
pub proof fn law_warmup_capture_replay(
    last: Option<(Map<char, usize>, Map<usize, u64>, bool)>,
    signature: (Map<char, usize>, Map<usize, u64>, bool),
)
    requires
        last is None,
    ensures
        ({
            let settings = ReplaySettings { replay_enabled: true, force_recapture: false };
            let first = announced(RuntimeReplayState::Disabled, false, last, signature, settings);
            let second = announced(
                RuntimeReplayState::CapturePending,
                false,
                Some(signature),
                signature,
                settings,
            );
            let third = announced(
                RuntimeReplayState::Ready,
                true,
                Some(signature),
                signature,
                settings,
            );
            &&& action_in(first.0, first.1) == ReplayAction::Warmup
            &&& action_in(second.0, second.1) == ReplayAction::Capture
            &&& action_in(third.0, third.1) == ReplayAction::Replay
            &&& third == (RuntimeReplayState::Ready, true)
        }),
{
}

/// Another signature drops the recording: the next execution warms up.
pub proof fn law_changed_signature_invalidates(
    state: RuntimeReplayState,
    graph_exec: bool,
    last: (Map<char, usize>, Map<usize, u64>, bool),
    signature: (Map<char, usize>, Map<usize, u64>, bool),
    force_recapture: bool,
)
    requires
        last != signature,
    ensures
        ({
            let settings = ReplaySettings { replay_enabled: true, force_recapture };
            let (s, x) = announced(state, graph_exec, Some(last), signature, settings);
            action_in(s, x) == ReplayAction::Warmup && !x
        }),
{
}

/// Where a new recording is forced, one that is there is made anew; and where there is none
/// to replay, the operations run one by one and the recording starts over.
pub proof fn law_forced_or_lost_recording(
    graph_exec: bool,
    signature: (Map<char, usize>, Map<usize, u64>, bool),
    force_recapture: bool,
)
    ensures
        ({
            let settings = ReplaySettings { replay_enabled: true, force_recapture };
            let ready = announced(
                RuntimeReplayState::Ready,
                graph_exec,
                Some(signature),
                signature,
                settings,
            );
            let pending = announced(
                RuntimeReplayState::WarmupPending,
                graph_exec,
                Some(signature),
                signature,
                settings,
            );
            let capture = announced(
                RuntimeReplayState::CapturePending,
                graph_exec,
                Some(signature),
                signature,
                settings,
            );
            &&& force_recapture ==> action_in(ready.0, ready.1) == ReplayAction::Capture && !ready.1
            &&& !force_recapture ==> action_in(ready.0, ready.1) == if graph_exec {
                ReplayAction::Replay
            } else {
                ReplayAction::Fallback
            }
            &&& action_in(pending.0, pending.1) == ReplayAction::Warmup
            &&& action_in(capture.0, capture.1) == ReplayAction::Capture
        }),
{
}

} // verus!
