//! Host-side planning for the batched GPU evaluation: launch geometry and
//! the flat integer and bit-pattern arrays handed to the device kernels.
use crate::arena::PhantomReplayBuffer;
use crate::brain::FastBrain;
use vstd::prelude::*;

verus! {

/// Threads per block of every kernel launch.
pub const THREADS_PER_BLOCK: u32 = 256;

/// Number of entries in the dimension vector of the evaluation kernel.
pub const DIMS_LEN: usize = 10;

/// Blocks needed to give one thread to each of `num_clones * num_neurons`
/// neuron instances; the thread count is taken modulo 2^32, as the kernel
/// receives it.
pub fn batch_blocks(num_clones: usize, num_neurons: usize) -> (blocks: u32)
    requires
        num_clones * num_neurons <= usize::MAX,
        (#[verifier::truncate] ((num_clones * num_neurons) as u32)) + THREADS_PER_BLOCK <= u32::MAX,
    ensures
        blocks == ((#[verifier::truncate] ((num_clones * num_neurons) as u32)) + THREADS_PER_BLOCK - 1) / (THREADS_PER_BLOCK as int),
{
    let total_threads = #[verifier::truncate] ((num_clones * num_neurons) as u32);
    (total_threads + THREADS_PER_BLOCK - 1) / THREADS_PER_BLOCK
}

/// Blocks needed to give one thread to each clone.
pub fn clone_blocks(num_clones: usize) -> (blocks: usize)
    requires
        num_clones + THREADS_PER_BLOCK <= usize::MAX,
    ensures
        blocks == (num_clones + THREADS_PER_BLOCK - 1) / (THREADS_PER_BLOCK as int),
{
    let per_block = THREADS_PER_BLOCK as usize;
    (num_clones + per_block - 1) / per_block
}

/// The recorded history in chronological order: the slot of the oldest
/// frame and the number of frames.
pub fn replay_window(buffer: &PhantomReplayBuffer) -> (window: (usize, usize))
    ensures
        window.0 == buffer.oldest_slot(),
        window.1 == buffer.count,
{
    let oldest_idx = if buffer.count < buffer.capacity { 0 } else { buffer.write_idx };
    (oldest_idx, buffer.count)
}

/// Neuron or synapse ids as the device's signed 32-bit integers
/// (two's-complement reinterpretation of each id).
pub fn to_device_ids(ids: &Vec<u32>) -> (out: Vec<i32>)
    ensures
        out@.len() == ids@.len(),
        forall|k: int| 0 <= k < ids@.len() ==> #[trigger] out@[k] == ids@[k] as i32,
{
    let mut out: Vec<i32> = Vec::with_capacity(ids.len());
    let mut k: usize = 0;
    while k < ids.len()
        invariant
            0 <= k <= ids@.len(),
            out@.len() == k,
            forall|q: int| 0 <= q < k ==> #[trigger] out@[q] == ids@[q] as i32,
        decreases ids@.len() - k,
    {
        out.push(ids[k] as i32);
        k += 1;
    }
    out
}

/// The topology as one device array: the row offsets followed by the
/// synapse targets.
pub fn pack_topology(brain: &FastBrain) -> (data: Vec<i32>)
    ensures
        data@ == brain.neuron_offsets@.map_values(|x: u32| x as i32)
            + brain.synapse_targets@.map_values(|x: u32| x as i32),
{
    let mut data = to_device_ids(&brain.neuron_offsets);
    let mut targets = to_device_ids(&brain.synapse_targets);
    data.append(&mut targets);
    assert(data@ =~= brain.neuron_offsets@.map_values(|x: u32| x as i32)
        + brain.synapse_targets@.map_values(|x: u32| x as i32));
    data
}

/// The neuron parameters as one device array: thresholds followed by biases.
pub fn pack_neuron_params(brain: &FastBrain) -> (params: Vec<u32>)
    ensures
        params@ == brain.thresholds@ + brain.biases@,
{
    let mut params = brain.thresholds.clone();
    let mut biases = brain.biases.clone();
    assert(params@ =~= brain.thresholds@);
    assert(biases@ =~= brain.biases@);
    params.append(&mut biases);
    params
}

/// The dimension vector of the evaluation kernel: inputs, hidden, outputs,
/// neurons, clones, synapses, history length, oldest slot, capacity and the
/// leak factor's bit pattern, each as a signed 32-bit integer.
pub fn pack_dims(parent: &FastBrain, num_clones: usize, buffer: &PhantomReplayBuffer) -> (dims: Vec<i32>)
    ensures
        dims@ == seq![
            parent.num_inputs as i32,
            parent.num_hidden as i32,
            parent.num_outputs as i32,
            parent.active_neurons as i32,
            num_clones as i32,
            parent.synapse_weights@.len() as i32,
            buffer.count as i32,
            buffer.oldest_slot() as i32,
            buffer.capacity as i32,
            parent.decay as i32,
        ],
{
    let (oldest_idx, history_len) = replay_window(buffer);
    let mut dims: Vec<i32> = Vec::with_capacity(DIMS_LEN);
    dims.push(parent.num_inputs as i32);
    dims.push(parent.num_hidden as i32);
    dims.push(parent.num_outputs as i32);
    dims.push(parent.active_neurons as i32);
    dims.push(num_clones as i32);
    dims.push(parent.synapse_weights.len() as i32);
    dims.push(history_len as i32);
    dims.push(oldest_idx as i32);
    dims.push(buffer.capacity as i32);
    dims.push(parent.decay as i32);
    assert(dims@ =~= seq![
        parent.num_inputs as i32,
        parent.num_hidden as i32,
        parent.num_outputs as i32,
        parent.active_neurons as i32,
        num_clones as i32,
        parent.synapse_weights@.len() as i32,
        buffer.count as i32,
        buffer.oldest_slot() as i32,
        buffer.capacity as i32,
        parent.decay as i32,
    ]);
    dims
}

} // verus!
