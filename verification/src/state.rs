//! The persistent part of a network (dimensions and learned parameters),
//! and the conversions between it and a running network.
use crate::brain::{FastBrain, ZERO_BITS};
use vstd::prelude::*;

verus! {

/// Dimensions and learned parameters of a network, without its dynamic
/// (potentials, spikes, traces) and scratch buffers.
pub struct FastBrainState {
    pub num_inputs: usize,
    pub num_hidden: usize,
    pub num_outputs: usize,
    pub active_neurons: usize,
    pub decay: u32,
    pub thresholds: Vec<u32>,
    pub biases: Vec<u32>,
    pub synapse_weights: Vec<u32>,
    pub synapse_targets: Vec<u32>,
    pub neuron_offsets: Vec<u32>,
    pub stdp_tau_pre: u32,
    pub stdp_tau_post: u32,
    pub stdp_a_plus: u32,
    pub stdp_a_minus: u32,
}

impl FastBrainState {
    /// The state holds exactly the persistent part of `brain`.
    pub open spec fn captures(&self, brain: &FastBrain) -> bool {
        &&& self.num_inputs == brain.num_inputs
        &&& self.num_hidden == brain.num_hidden
        &&& self.num_outputs == brain.num_outputs
        &&& self.active_neurons == brain.active_neurons
        &&& self.decay == brain.decay
        &&& self.thresholds@ == brain.thresholds@
        &&& self.biases@ == brain.biases@
        &&& self.synapse_weights@ == brain.synapse_weights@
        &&& self.synapse_targets@ == brain.synapse_targets@
        &&& self.neuron_offsets@ == brain.neuron_offsets@
        &&& self.stdp_tau_pre == brain.stdp_tau_pre
        &&& self.stdp_tau_post == brain.stdp_tau_post
        &&& self.stdp_a_plus == brain.stdp_a_plus
        &&& self.stdp_a_minus == brain.stdp_a_minus
    }
}

impl FastBrain {
    /// `self` runs the persistent state `state`, starting from rest: every
    /// potential, scratch current and trace 0 and no spikes, one entry per
    /// active neuron.
    pub open spec fn restored_from(&self, state: &FastBrainState) -> bool {
        let n = state.active_neurons as int;
        &&& state.captures(self)
        &&& self.activations@ == Seq::new(n as nat, |i: int| ZERO_BITS)
        &&& self.last_spikes@ == Seq::new(n as nat, |i: int| false)
        &&& self.current_spikes@ == Seq::new(n as nat, |i: int| false)
        &&& self.inputs_accumulated@ == Seq::new(n as nat, |i: int| ZERO_BITS)
        &&& self.pre_traces@ == Seq::new(n as nat, |i: int| ZERO_BITS)
        &&& self.post_traces@ == Seq::new(n as nat, |i: int| ZERO_BITS)
    }

    /// Copies the persistent part of the network.
    pub fn to_state(&self) -> (state: FastBrainState)
        ensures
            state.captures(self),
    {
        FastBrainState {
            num_inputs: self.num_inputs,
            num_hidden: self.num_hidden,
            num_outputs: self.num_outputs,
            active_neurons: self.active_neurons,
            decay: self.decay,
            thresholds: self.thresholds.clone(),
            biases: self.biases.clone(),
            synapse_weights: self.synapse_weights.clone(),
            synapse_targets: self.synapse_targets.clone(),
            neuron_offsets: self.neuron_offsets.clone(),
            stdp_tau_pre: self.stdp_tau_pre,
            stdp_tau_post: self.stdp_tau_post,
            stdp_a_plus: self.stdp_a_plus,
            stdp_a_minus: self.stdp_a_minus,
        }
    }

    /// Rebuilds a network at rest from its persistent state, allocating the
    /// dynamic and scratch buffers for `state.active_neurons` neurons.
    pub fn from_state(state: FastBrainState) -> (brain: FastBrain)
        ensures
            brain.restored_from(&state),
    {
        let n = state.active_neurons;
        FastBrain {
            num_inputs: state.num_inputs,
            num_hidden: state.num_hidden,
            num_outputs: state.num_outputs,
            active_neurons: n,
            activations: zeros(n),
            thresholds: state.thresholds,
            biases: state.biases,
            decay: state.decay,
            last_spikes: falses(n),
            current_spikes: falses(n),
            inputs_accumulated: zeros(n),
            synapse_weights: state.synapse_weights,
            synapse_targets: state.synapse_targets,
            neuron_offsets: state.neuron_offsets,
            pre_traces: zeros(n),
            post_traces: zeros(n),
            stdp_tau_pre: state.stdp_tau_pre,
            stdp_tau_post: state.stdp_tau_post,
            stdp_a_plus: state.stdp_a_plus,
            stdp_a_minus: state.stdp_a_minus,
        }
    }
}

/// `n` zero bit patterns.
pub fn zeros(n: usize) -> (v: Vec<u32>)
    ensures
        v@ == Seq::new(n as nat, |i: int| ZERO_BITS),
{
    let mut v: Vec<u32> = Vec::with_capacity(n);
    let mut i: usize = 0;
    while i < n
        invariant
            0 <= i <= n,
            v@ == Seq::new(i as nat, |k: int| ZERO_BITS),
        decreases n - i,
    {
        v.push(ZERO_BITS);
        i += 1;
        assert(v@ =~= Seq::new(i as nat, |k: int| ZERO_BITS));
    }
    v
}

/// `n` times `false`.
pub fn falses(n: usize) -> (v: Vec<bool>)
    ensures
        v@ == Seq::new(n as nat, |i: int| false),
{
    let mut v: Vec<bool> = Vec::with_capacity(n);
    let mut i: usize = 0;
    while i < n
        invariant
            0 <= i <= n,
            v@ == Seq::new(i as nat, |k: int| false),
        decreases n - i,
    {
        v.push(false);
        i += 1;
        assert(v@ =~= Seq::new(i as nat, |k: int| false));
    }
    v
}

/// Saving a network and restoring it gives back the same learned network at
/// rest: dimensions, parameters and synapse rows are kept, a well-formed
/// network restores to a well-formed one, and saving the restored network
/// gives back the same state.
pub proof fn lemma_state_round_trip(brain: FastBrain, state: FastBrainState, restored: FastBrain)
    requires
        state.captures(&brain),
        restored.restored_from(&state),
    ensures
        restored.rows() == brain.rows(),
        restored.thresholds@ == brain.thresholds@,
        restored.biases@ == brain.biases@,
        restored.decay == brain.decay,
        brain.wf() ==> restored.wf(),
        state.captures(&restored),
{
}

} // verus!
