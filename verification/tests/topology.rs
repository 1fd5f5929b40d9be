use core_engine::brain::{FastBrain, ONE_BITS};
use core_engine::genesis::{cutoff, generate_synapses, generate_topology, Layer};

fn weight_bits(draw: u32, layer: Layer) -> u32 {
    let unit = draw as f32 / 32767.0 * 2.0 - 1.0;
    let scale = match layer {
        Layer::InputToHidden => 0.5,
        Layer::HiddenToHidden => 0.2,
        Layer::HiddenToOutput => 0.8,
    };
    (unit * scale).to_bits()
}

fn new_brain(num_inputs: usize, num_hidden: usize, num_outputs: usize) -> FastBrain {
    let layout = generate_topology(num_inputs, num_hidden, num_outputs);
    let weights: Vec<u32> = layout.synapses.iter().map(|s| weight_bits(s.draw, s.layer)).collect();
    FastBrain::with_synapses(num_inputs, num_hidden, num_outputs, layout, weights)
}

/// The dense construction of the initial weights, step by step in single
/// precision, converted to CSR: (weights, targets, offsets).
fn dense_reference(num_inputs: usize, num_hidden: usize, num_outputs: usize) -> (Vec<f32>, Vec<u32>, Vec<u32>) {
    let n = num_inputs + num_hidden + num_outputs;
    let mut dense = vec![0.0f32; n * n];
    let mut seed: u32 = 42;
    let mut next_random = || {
        seed = seed.wrapping_mul(1103515245).wrapping_add(12345);
        ((seed / 65536) % 32768) as f32 / 32767.0 * 2.0 - 1.0
    };
    let hs = num_inputs;
    let he = num_inputs + num_hidden;
    for src in 0..num_inputs {
        for dst in hs..he {
            if next_random() > -0.2 {
                dense[src * n + dst] = next_random() * 0.5;
            }
        }
    }
    for src in hs..he {
        for dst in hs..he {
            if src != dst && next_random() > 0.6 {
                dense[src * n + dst] = next_random() * 0.2;
            }
        }
    }
    for src in hs..he {
        for dst in he..n {
            if next_random() > -0.4 {
                dense[src * n + dst] = next_random() * 0.8;
            }
        }
    }
    let mut weights = Vec::new();
    let mut targets = Vec::new();
    let mut offsets = vec![0u32];
    for src in 0..n {
        for dst in 0..n {
            let w = dense[src * n + dst];
            if w != 0.0 {
                weights.push(w);
                targets.push(dst as u32);
            }
        }
        offsets.push(weights.len() as u32);
    }
    (weights, targets, offsets)
}

fn find_synapse(brain: &FastBrain, src: usize, dst: u32) -> Option<usize> {
    let start = brain.neuron_offsets[src] as usize;
    let end = brain.neuron_offsets[src + 1] as usize;
    (start..end).find(|&idx| brain.synapse_targets[idx] == dst)
}

#[test]
fn test_dynamic_mutations() {
    let mut brain = new_brain(2, 2, 2);
    let orig_neurons = brain.active_neurons;

    brain.add_synapse(0, 3, 1.5f32.to_bits());
    let mut found = false;
    let start = brain.neuron_offsets[0] as usize;
    let end = brain.neuron_offsets[1] as usize;
    for idx in start..end {
        if brain.synapse_targets[idx] == 3 {
            assert_eq!(f32::from_bits(brain.synapse_weights[idx]), 1.5);
            found = true;
        }
    }
    assert!(found, "add_synapse failed to insert synapse!");

    let new_id = brain.add_hidden_neuron();
    assert_eq!(brain.active_neurons, orig_neurons + 1);
    assert_eq!(new_id, 4);

    let start = brain.neuron_offsets[0] as usize;
    let end = brain.neuron_offsets[1] as usize;
    let mut synapse_idx = None;
    for idx in start..end {
        if brain.synapse_targets[idx] == 3 {
            synapse_idx = Some(idx);
        }
    }
    if let Some(s_idx) = synapse_idx {
        let prev_synapses = brain.synapse_weights.len();
        brain.split_synapse(s_idx);
        assert_eq!(brain.synapse_weights.len(), prev_synapses + 1);
    }

    brain.add_synapse(1, 2, 1e-6f32.to_bits());
    let prev_len = brain.synapse_weights.len();
    brain.prune_synapses();
    assert!(brain.synapse_weights.len() < prev_len, "prune_synapses failed to prune weak synapse!");
}

#[test]
fn generated_topology_matches_dense_construction() {
    for &(ni, nh, no) in &[(24, 36, 4), (3, 5, 2), (1, 1, 1), (2, 2, 2), (0, 3, 1), (4, 0, 3), (5, 7, 0)] {
        let brain = new_brain(ni, nh, no);
        let (weights, targets, offsets) = dense_reference(ni, nh, no);
        let expected_bits: Vec<u32> = weights.iter().map(|w| w.to_bits()).collect();
        assert_eq!(brain.synapse_weights, expected_bits, "weights for {:?}", (ni, nh, no));
        assert_eq!(brain.synapse_targets, targets, "targets for {:?}", (ni, nh, no));
        assert_eq!(brain.neuron_offsets, offsets, "offsets for {:?}", (ni, nh, no));
    }
}

#[test]
fn connection_cutoffs_match_single_precision_decisions() {
    let unit = |k: u32| k as f32 / 32767.0 * 2.0 - 1.0;
    for k in 0..32768u32 {
        assert_eq!(unit(k) > -0.2, k >= cutoff(Layer::InputToHidden), "draw {}", k);
        assert_eq!(unit(k) > 0.6, k >= cutoff(Layer::HiddenToHidden), "draw {}", k);
        assert_eq!(unit(k) > -0.4, k >= cutoff(Layer::HiddenToOutput), "draw {}", k);
        for layer in [Layer::InputToHidden, Layer::HiddenToHidden, Layer::HiddenToOutput] {
            assert_ne!(f32::from_bits(weight_bits(k, layer)), 0.0);
        }
    }
}

#[test]
fn dynamic_sizing_dimensions() {
    let brain = new_brain(3, 5, 2);
    assert_eq!(brain.num_inputs, 3);
    assert_eq!(brain.num_hidden, 5);
    assert_eq!(brain.num_outputs, 2);
    assert_eq!(brain.active_neurons, 10);
    assert_eq!(brain.neuron_offsets.len(), 11);
    assert_eq!(brain.thresholds[0], 0);
    assert_eq!(brain.thresholds[3], ONE_BITS);
    assert_eq!(f32::from_bits(brain.decay), 0.85);
    assert_eq!(f32::from_bits(brain.stdp_tau_pre), 20.0);
    assert_eq!(f32::from_bits(brain.stdp_a_plus), 0.005);
    assert_eq!(f32::from_bits(brain.stdp_a_minus), 0.006);
}

#[test]
fn generation_is_layered() {
    let synapses = generate_synapses(4, 6, 3);
    for s in &synapses {
        match s.layer {
            Layer::InputToHidden => assert!(s.source < 4 && (4..10).contains(&s.target)),
            Layer::HiddenToHidden => {
                assert!((4..10).contains(&s.source) && (4..10).contains(&s.target) && s.source != s.target)
            }
            Layer::HiddenToOutput => assert!((4..10).contains(&s.source) && (10..13).contains(&s.target)),
        }
        assert!(s.draw < 32768);
    }
    let again = generate_synapses(4, 6, 3);
    assert_eq!(synapses.len(), again.len());
}

#[test]
fn add_synapse_overwrites_existing_connection() {
    let mut brain = new_brain(2, 2, 2);
    brain.add_synapse(0, 3, 0.25f32.to_bits());
    let len = brain.synapse_weights.len();
    brain.add_synapse(0, 3, (-0.75f32).to_bits());
    assert_eq!(brain.synapse_weights.len(), len);
    let idx = find_synapse(&brain, 0, 3).unwrap();
    assert_eq!(f32::from_bits(brain.synapse_weights[idx]), -0.75);
}

#[test]
fn add_synapse_appends_at_end_of_row_and_shifts_offsets() {
    let mut brain = new_brain(2, 2, 2);
    let before = brain.clone();
    brain.add_synapse(5, 0, 0.5f32.to_bits());
    let n = brain.active_neurons;
    assert_eq!(brain.neuron_offsets[n], before.neuron_offsets[n] + 1);
    assert_eq!(brain.neuron_offsets[5], before.neuron_offsets[5]);
    let last = brain.synapse_targets.len() - 1;
    assert_eq!(brain.synapse_targets[last], 0);
    assert_eq!(brain.synapse_weights[last], 0.5f32.to_bits());
}

#[test]
fn add_synapse_ignores_unknown_neurons() {
    let mut brain = new_brain(2, 2, 2);
    let before = brain.clone();
    brain.add_synapse(6, 0, ONE_BITS);
    brain.add_synapse(0, 6, ONE_BITS);
    assert_eq!(brain.synapse_weights, before.synapse_weights);
    assert_eq!(brain.synapse_targets, before.synapse_targets);
    assert_eq!(brain.neuron_offsets, before.neuron_offsets);
}

#[test]
fn add_hidden_neuron_renumbers_outputs() {
    let mut brain = new_brain(2, 2, 2);
    let before = brain.clone();
    let id = brain.add_hidden_neuron();
    assert_eq!(id, 4);
    assert_eq!(brain.num_hidden, 3);
    assert_eq!(brain.active_neurons, 7);
    assert_eq!(brain.thresholds[4], ONE_BITS);
    assert_eq!(brain.neuron_offsets.len(), 8);
    assert_eq!(brain.neuron_offsets[4], brain.neuron_offsets[5]);
    for (k, &t) in before.synapse_targets.iter().enumerate() {
        let expected = if t >= 4 { t + 1 } else { t };
        assert_eq!(brain.synapse_targets[k], expected);
    }
}

#[test]
fn split_synapse_routes_through_new_neuron() {
    let mut brain = new_brain(1, 1, 1);
    let idx = find_synapse(&brain, 1, 2).expect("hidden to output synapse");
    let w = brain.synapse_weights[idx];
    brain.split_synapse(idx);
    assert_eq!(brain.num_hidden, 2);
    assert_eq!(find_synapse(&brain, 1, 3), None);
    let to_new = find_synapse(&brain, 1, 2).expect("src -> C");
    assert_eq!(brain.synapse_weights[to_new], ONE_BITS);
    let from_new = find_synapse(&brain, 2, 3).expect("C -> dst");
    assert_eq!(brain.synapse_weights[from_new], w);
}

#[test]
fn split_synapse_out_of_range_is_ignored() {
    let mut brain = new_brain(2, 2, 2);
    let before = brain.clone();
    brain.split_synapse(brain.synapse_weights.len());
    assert_eq!(brain.active_neurons, before.active_neurons);
    assert_eq!(brain.synapse_weights, before.synapse_weights);
}

#[test]
fn prune_keeps_exactly_strong_weights() {
    let mut brain = new_brain(1, 0, 7);
    assert_eq!(brain.synapse_weights.len(), 0);
    let weights = [1e-4f32, 9.99e-5, -1e-4, f32::NAN, f32::INFINITY, -0.0, 0.5];
    for (i, w) in weights.iter().enumerate() {
        brain.add_synapse(i % 3, i + 1, w.to_bits());
    }
    let before = brain.clone();
    brain.prune_synapses();
    let mut kept = Vec::new();
    for j in 0..before.active_neurons {
        for idx in before.neuron_offsets[j] as usize..before.neuron_offsets[j + 1] as usize {
            let w = f32::from_bits(before.synapse_weights[idx]);
            if w.abs() >= 1e-4 {
                kept.push(before.synapse_weights[idx]);
            }
        }
    }
    assert_eq!(brain.synapse_weights, kept);
    assert_eq!(kept.len(), 4);
}

#[test]
fn last_spikes_bitmask() {
    let mut brain = new_brain(30, 30, 10);
    assert_eq!(brain.get_last_spikes(), 0);
    brain.last_spikes[0] = true;
    brain.last_spikes[5] = true;
    brain.last_spikes[63] = true;
    brain.last_spikes[64] = true;
    assert_eq!(brain.get_last_spikes(), (1u64 << 0) | (1u64 << 5) | (1u64 << 63));
    let mut small = new_brain(1, 1, 1);
    small.last_spikes[2] = true;
    assert_eq!(small.get_last_spikes(), 0b100);
}

#[test]
fn reset_activity_clears_dynamic_state() {
    let mut brain = new_brain(2, 2, 2);
    brain.activations[3] = 0.7f32.to_bits();
    brain.last_spikes[1] = true;
    let weights = brain.synapse_weights.clone();
    brain.reset_activity();
    assert!(brain.activations.iter().all(|&a| a == 0));
    assert!(brain.last_spikes.iter().all(|&s| !s));
    assert_eq!(brain.synapse_weights, weights);
}

#[test]
fn prune_twice_equals_prune_once() {
    let mut brain = new_brain(24, 36, 4);
    brain.add_synapse(0, 30, 1e-6f32.to_bits());
    brain.prune_synapses();
    let once = brain.clone();
    brain.prune_synapses();
    assert_eq!(brain.synapse_weights, once.synapse_weights);
    assert_eq!(brain.synapse_targets, once.synapse_targets);
    assert_eq!(brain.neuron_offsets, once.neuron_offsets);
}

#[test]
fn generated_rows_have_increasing_targets() {
    let brain = new_brain(24, 36, 4);
    for j in 0..brain.active_neurons {
        let row = &brain.synapse_targets[brain.neuron_offsets[j] as usize..brain.neuron_offsets[j + 1] as usize];
        assert!(row.windows(2).all(|w| w[0] < w[1]), "row {}", j);
    }
    assert_eq!(brain.neuron_offsets[60], brain.neuron_offsets[64]);
}
