use core_engine::arena::PhantomReplayBuffer;
use core_engine::brain::FastBrain;
use core_engine::genesis::generate_topology;
use core_engine::gpu::{batch_blocks, clone_blocks, pack_dims, pack_neuron_params, pack_topology, replay_window};
use core_engine::selection::{bits_gt, select_champion};
use core_engine::state::FastBrainState;
use core_engine::telemetry::TelemetryHub;

fn bits(values: &[f32]) -> Vec<u32> {
    values.iter().map(|v| v.to_bits()).collect()
}

fn small_brain() -> FastBrain {
    let layout = generate_topology(2, 3, 1);
    let weights: Vec<u32> = (0..layout.synapses.len()).map(|k| (k as f32 * 0.1).to_bits()).collect();
    FastBrain::with_synapses(2, 3, 1, layout, weights)
}

#[test]
fn telemetry_round_trip() {
    let hub = TelemetryHub::new();
    assert_eq!(hub.get_last_spikes(), 0);
    hub.record_spikes(0xdead_beef);
    assert_eq!(hub.get_last_spikes(), 0xdead_beef);
    let shared = hub.clone();
    shared.record_spikes(7);
    assert_eq!(hub.get_last_spikes(), 7);
}

#[test]
fn replay_buffer_wraps_around() {
    let mut buffer = PhantomReplayBuffer::new(2, 1, 3);
    assert_eq!(buffer.inputs.len(), 6);
    assert_eq!(buffer.actions.len(), 3);
    for i in 0..4 {
        let f = i as f32;
        buffer.add_frame(&bits(&[f, f + 0.5]), &bits(&[-f]), (f * 2.0).to_bits());
    }
    assert_eq!(buffer.count, 3);
    assert_eq!(buffer.write_idx, 1);
    assert_eq!(buffer.inputs, bits(&[3.0, 3.5, 1.0, 1.5, 2.0, 2.5]));
    assert_eq!(buffer.actions, bits(&[-3.0, -1.0, -2.0]));
    assert_eq!(buffer.rewards, bits(&[6.0, 2.0, 4.0]));
    assert_eq!(replay_window(&buffer), (1, 3));
}

#[test]
fn replay_buffer_ignores_mismatched_frames() {
    let mut buffer = PhantomReplayBuffer::new(2, 1, 3);
    buffer.add_frame(&bits(&[1.0]), &bits(&[1.0]), 0);
    buffer.add_frame(&bits(&[1.0, 2.0]), &bits(&[]), 0);
    assert_eq!(buffer.count, 0);
    assert_eq!(buffer.write_idx, 0);
    buffer.add_frame(&bits(&[1.0, 2.0]), &bits(&[3.0]), 4.0f32.to_bits());
    assert_eq!(buffer.count, 1);
    assert_eq!(buffer.write_idx, 1);
    assert_eq!(replay_window(&buffer), (0, 1));
}

#[test]
fn replay_buffer_reset_zeroes_everything() {
    let mut buffer = PhantomReplayBuffer::new(1, 1, 2);
    buffer.add_frame(&bits(&[1.0]), &bits(&[2.0]), 3.0f32.to_bits());
    buffer.reset();
    assert_eq!(buffer.count, 0);
    assert_eq!(buffer.write_idx, 0);
    assert!(buffer.inputs.iter().chain(&buffer.actions).chain(&buffer.rewards).all(|&v| v == 0));
    assert_eq!(buffer.capacity, 2);
}

#[test]
fn float_order_on_bit_patterns() {
    let values = [
        0.0f32, -0.0, 1.0, -1.0, 0.5, -0.5, 1e-40, -1e-40, f32::MAX, f32::MIN,
        f32::INFINITY, f32::NEG_INFINITY, f32::NAN, -f32::NAN, 3.25, -7.0, 1e-4,
    ];
    for &a in &values {
        for &b in &values {
            assert_eq!(bits_gt(a.to_bits(), b.to_bits()), a > b, "{} > {}", a, b);
        }
    }
}

fn reference_champion(scores: &[f32]) -> Option<usize> {
    scores
        .iter()
        .enumerate()
        .max_by(|a, b| a.1.partial_cmp(b.1).unwrap_or(std::cmp::Ordering::Equal))
        .map(|(i, _)| i)
}

#[test]
fn champion_matches_max_by() {
    let cases: Vec<Vec<f32>> = vec![
        vec![],
        vec![1.0],
        vec![1.0, 3.0, 3.0, 2.0],
        vec![f32::NAN, 1.0],
        vec![2.0, f32::NAN, 1.0],
        vec![-0.0, 0.0],
        vec![5.0, -1.0, f32::INFINITY, 4.0],
        vec![-3.0, -2.0, -2.5],
    ];
    for scores in cases {
        assert_eq!(select_champion(&bits(&scores)), reference_champion(&scores), "{:?}", scores);
    }
    assert_eq!(select_champion(&bits(&[1.0, 3.0, 3.0, 2.0])), Some(2));
}

#[test]
fn state_round_trip_keeps_learned_parameters() {
    let mut brain = small_brain();
    brain.activations[2] = 0.3f32.to_bits();
    brain.last_spikes[1] = true;
    let state: FastBrainState = brain.to_state();
    let restored = FastBrain::from_state(state);
    assert_eq!(restored.synapse_weights, brain.synapse_weights);
    assert_eq!(restored.synapse_targets, brain.synapse_targets);
    assert_eq!(restored.neuron_offsets, brain.neuron_offsets);
    assert_eq!(restored.thresholds, brain.thresholds);
    assert_eq!(restored.decay, brain.decay);
    assert!(restored.activations.iter().all(|&a| a == 0));
    assert!(restored.last_spikes.iter().all(|&s| !s));
    assert_eq!(restored.activations.len(), brain.active_neurons);
}

#[test]
fn gpu_plan_arrays() {
    let brain = small_brain();
    let mut buffer = PhantomReplayBuffer::new(2, 1, 2);
    for _ in 0..3 {
        buffer.add_frame(&bits(&[0.1, 0.2]), &bits(&[0.3]), 1.0f32.to_bits());
    }
    let dims = pack_dims(&brain, 5, &buffer);
    assert_eq!(
        dims,
        vec![2, 3, 1, 6, 5, brain.synapse_weights.len() as i32, 2, 1, 2, 0.85f32.to_bits() as i32]
    );
    let topology = pack_topology(&brain);
    assert_eq!(topology.len(), brain.neuron_offsets.len() + brain.synapse_targets.len());
    assert_eq!(topology[7], brain.synapse_targets[0] as i32);
    let params = pack_neuron_params(&brain);
    assert_eq!(params.len(), 12);
    assert_eq!(params[6..], brain.biases[..]);
    assert_eq!(clone_blocks(0), 0);
    assert_eq!(clone_blocks(256), 1);
    assert_eq!(clone_blocks(257), 2);
    assert_eq!(batch_blocks(3, 100), 2);
}

#[test]
fn replay_buffer_fills_slots_in_arrival_order() {
    let mut buffer = PhantomReplayBuffer::new(1, 1, 4);
    for i in 0..3 {
        buffer.add_frame(&bits(&[i as f32]), &bits(&[0.0]), 0);
        assert_eq!(buffer.write_idx, buffer.count);
    }
    assert_eq!(buffer.inputs[..3], bits(&[0.0, 1.0, 2.0])[..]);
    assert_eq!(replay_window(&buffer), (0, 3));
}
