//! The spiking network's state: struct-of-arrays neuron state and the
//! synapses in compressed sparse row (CSR) form, with the structural
//! mutations that keep the CSR layout consistent.
use crate::ieee::{
    denotes_nan, lemma_magnitude_strictly_increasing, lemma_nan_test, lemma_sign_bit_only, scaled_magnitude,
};
use vstd::prelude::*;

verus! {

/// Bit pattern of the single-precision value 0.0.
pub const ZERO_BITS: u32 = 0;
/// Bit pattern of the single-precision value 1.0.
pub const ONE_BITS: u32 = 0x3f80_0000;
/// Bit pattern of the single-precision value 0.85, the default leak factor.
pub const DEFAULT_DECAY_BITS: u32 = 0x3f59_999a;
/// Bit pattern of the single-precision value 20.0, the default trace time constant.
pub const DEFAULT_STDP_TAU_BITS: u32 = 0x41a0_0000;
/// Bit pattern of the single-precision value 0.005, the default potentiation rate.
pub const DEFAULT_STDP_A_PLUS_BITS: u32 = 0x3ba3_d70a;
/// Bit pattern of the single-precision value 0.006, the default depression rate.
pub const DEFAULT_STDP_A_MINUS_BITS: u32 = 0x3bc4_9ba6;

/// Bit pattern of the single-precision value 0.0001, the pruning threshold.
pub const PRUNE_THRESHOLD_BITS: u32 = 0x38d1_b717;
/// Bit pattern of positive infinity; larger magnitudes are NaNs.
pub const INFINITY_BITS: u32 = 0x7f80_0000;

/// One synapse as seen from its source neuron: (target neuron, weight bits).
pub type Synapse = (u32, u32);

/// A spiking neural network with a struct-of-arrays neuron layout and
/// CSR synapses. Neurons `0..num_inputs` are inputs, the next `num_hidden`
/// are hidden, the last `num_outputs` are outputs. The outgoing synapses of
/// neuron `j` are the entries `neuron_offsets[j] .. neuron_offsets[j + 1]`
/// of `synapse_targets` / `synapse_weights`.
#[derive(Clone, Debug)]
pub struct FastBrain {
    pub num_inputs: usize,
    pub num_hidden: usize,
    pub num_outputs: usize,
    /// inputs + hidden + outputs
    pub active_neurons: usize,
    /// Membrane potentials.
    pub activations: Vec<u32>,
    /// Firing thresholds.
    pub thresholds: Vec<u32>,
    /// Biases.
    pub biases: Vec<u32>,
    /// Leak factor applied to potentials each tick.
    pub decay: u32,
    /// Neurons that spiked on the last tick.
    pub last_spikes: Vec<bool>,
    /// Scratch: neurons spiking on the current tick.
    pub current_spikes: Vec<bool>,
    /// Scratch: input currents gathered on the current tick.
    pub inputs_accumulated: Vec<u32>,
    pub synapse_weights: Vec<u32>,
    pub synapse_targets: Vec<u32>,
    /// Row starts into the synapse arrays; `active_neurons + 1` entries.
    pub neuron_offsets: Vec<u32>,
    /// Pre-synaptic learning traces.
    pub pre_traces: Vec<u32>,
    /// Post-synaptic learning traces.
    pub post_traces: Vec<u32>,
    pub stdp_tau_pre: u32,
    pub stdp_tau_post: u32,
    pub stdp_a_plus: u32,
    pub stdp_a_minus: u32,
}

/// `offsets` and `targets` form a CSR adjacency over `n` neurons: `n + 1`
/// non-decreasing row starts from 0 to the synapse count, and every target
/// a neuron id.
pub open spec fn csr_wf(offsets: Seq<u32>, targets: Seq<u32>, n: int) -> bool {
    &&& offsets.len() == n + 1
    &&& offsets[0] == 0
    &&& forall|i: int, j: int| 0 <= i <= j <= n ==> offsets[i] <= offsets[j]
    &&& offsets[n] == targets.len()
    &&& forall|k: int| 0 <= k < targets.len() ==> targets[k] < n
}

/// Pairs targets with weights, synapse by synapse.
pub open spec fn zip_synapses(targets: Seq<u32>, weights: Seq<u32>) -> Seq<Synapse> {
    Seq::new(targets.len(), |k: int| (targets[k], weights[k]))
}

/// The rows of a CSR layout: row `j` lists the synapses leaving neuron `j`.
pub open spec fn csr_rows(offsets: Seq<u32>, syn: Seq<Synapse>, n: int) -> Seq<Seq<Synapse>> {
    Seq::new(n as nat, |j: int| syn.subrange(offsets[j] as int, offsets[j + 1] as int))
}

/// `k` is the first position in `row` whose target is `t`.
pub open spec fn is_first_target(row: Seq<Synapse>, t: u32, k: int) -> bool {
    &&& 0 <= k < row.len()
    &&& row[k].0 == t
    &&& forall|i: int| 0 <= i < k ==> row[i].0 != t
}

/// Connecting `src` to `dst` with weight `w`: the first synapse of `src`
/// that targets `dst` gets the weight; if there is none, the synapse is
/// appended to the end of `src`'s row; out-of-range ids change nothing.
pub open spec fn connect(rows: Seq<Seq<Synapse>>, src: int, dst: int, w: u32) -> Seq<Seq<Synapse>> {
    if 0 <= src < rows.len() && 0 <= dst < rows.len() {
        let r = rows[src];
        if exists|k: int| #[trigger] is_first_target(r, dst as u32, k) {
            let k = choose|k: int| #[trigger] is_first_target(r, dst as u32, k);
            rows.update(src, r.update(k, (dst as u32, w)))
        } else {
            rows.update(src, r.push((dst as u32, w)))
        }
    } else {
        rows
    }
}

/// Neuron ids at or after `at` move up by one to make room for a neuron at `at`.
pub open spec fn shift_id(t: u32, at: int) -> u32 {
    if t >= at { (t + 1) as u32 } else { t }
}

/// A row with its targets renumbered for a neuron inserted at `at`.
pub open spec fn shift_row(row: Seq<Synapse>, at: int) -> Seq<Synapse> {
    row.map_values(|s: Synapse| (shift_id(s.0, at), s.1))
}

/// The rows after inserting a neuron without synapses at index `at`: every
/// target is renumbered and the rows from `at` on move up by one.
pub open spec fn insert_neuron(rows: Seq<Seq<Synapse>>, at: int) -> Seq<Seq<Synapse>> {
    Seq::new(
        rows.len() + 1,
        |j: int|
            if j < at {
                shift_row(rows[j], at)
            } else if j == at {
                Seq::<Synapse>::empty()
            } else {
                shift_row(rows[j - 1], at)
            },
    )
}

/// The source neuron of synapse `idx`: the row whose range holds `idx`.
pub open spec fn source_of(offsets: Seq<u32>, idx: int) -> int {
    choose|j: int| #![trigger offsets[j]] 0 <= j < offsets.len() - 1 && offsets[j] <= idx < offsets[j + 1]
}

/// The rows after splitting synapse `k` of row `src`, `src -> t` with weight
/// `w`, through a new neuron inserted at `at`: the synapse is removed, the
/// neuron is inserted, `src` gains `src -> at` with weight 1.0 at the end of
/// its row and the new neuron's only synapse is `at -> t` with weight `w`
/// (ids renumbered for the insertion).
pub open spec fn split_rows(rows: Seq<Seq<Synapse>>, src: int, k: int, at: int) -> Seq<Seq<Synapse>> {
    let (t, w) = rows[src][k];
    let removed = rows.update(src, rows[src].remove(k));
    let grown = insert_neuron(removed, at);
    let new_src = if src >= at { src + 1 } else { src };
    grown.update(new_src, grown[new_src].push((at as u32, ONE_BITS))).update(
        at,
        seq![(shift_id(t, at), w)],
    )
}

/// The magnitude part of a single-precision bit pattern (sign bit cleared).
pub open spec fn magnitude_bits(w: u32) -> u32 {
    w % 0x8000_0000
}

/// The single-precision value `w` is not NaN and its absolute value is at
/// least 0.0001. (For non-NaN values the magnitude bits order exactly as
/// the absolute values do.)
pub open spec fn is_strong_weight(w: u32) -> bool {
    PRUNE_THRESHOLD_BITS <= magnitude_bits(w) <= INFINITY_BITS
}

/// The synapse's weight survives pruning.
pub open spec fn is_strong_synapse(s: Synapse) -> bool {
    is_strong_weight(s.1)
}

/// Every row keeps exactly its strong synapses, in order.
pub open spec fn prune_rows(rows: Seq<Seq<Synapse>>) -> Seq<Seq<Synapse>> {
    rows.map_values(|r: Seq<Synapse>| r.filter(|s: Synapse| is_strong_synapse(s)))
}

/// Bit `i` of `mask` is set.
pub open spec fn mask_bit(mask: u64, i: int) -> bool {
    (mask >> (i as u64)) & 1u64 == 1u64
}

/// Setting bit `i` of a mask sets that bit and keeps every other one.
proof fn lemma_set_mask_bit(mask: u64, i: u64, j: u64)
    requires
        i < 64,
        j < 64,
    ensures
        ((mask | (1u64 << i)) >> j) & 1u64 == 1u64 <==> (((mask >> j) & 1u64 == 1u64) || j == i),
{
    assert(((mask | (1u64 << i)) >> j) & 1u64 == 1u64 <==> (((mask >> j) & 1u64 == 1u64) || j == i))
        by (bit_vector)
        requires i < 64, j < 64;
}

/// Reading back a connection: after connecting `src` to `dst` with weight
/// `w`, the first synapse of `src` that targets `dst` carries `w`, and no
/// other neuron's synapses change.
pub proof fn lemma_connect_reads_back(rows: Seq<Seq<Synapse>>, src: int, dst: int, w: u32)
    requires
        0 <= src < rows.len(),
        0 <= dst < rows.len(),
        rows.len() <= u32::MAX,
    ensures
        exists|k: int| #[trigger] is_first_target(connect(rows, src, dst, w)[src], dst as u32, k)
            && connect(rows, src, dst, w)[src][k].1 == w,
        forall|j: int| 0 <= j < rows.len() && j != src ==> #[trigger] connect(rows, src, dst, w)[j] == rows[j],
{
    let r = rows[src];
    let t = dst as u32;
    let res = connect(rows, src, dst, w)[src];
    if exists|k: int| #[trigger] is_first_target(r, t, k) {
        let k = choose|k: int| #[trigger] is_first_target(r, t, k);
        assert(is_first_target(res, t, k));
    } else {
        let k = r.len() as int;
        assert forall|i: int| 0 <= i < k implies res[i].0 != t by {
            if r[i].0 == t {
                lemma_first_match(r, t, i);
            }
        }
        assert(is_first_target(res, t, k));
    }
}

/// Connecting the same pair twice is connecting it once with the second
/// weight: an existing connection is updated in place, never duplicated.
pub proof fn lemma_connect_last_write_wins(rows: Seq<Seq<Synapse>>, src: int, dst: int, w1: u32, w2: u32)
    requires
        rows.len() <= u32::MAX,
    ensures
        connect(connect(rows, src, dst, w1), src, dst, w2) == connect(rows, src, dst, w2),
{
    if 0 <= src < rows.len() && 0 <= dst < rows.len() {
        let r = rows[src];
        let t = dst as u32;
        let once = connect(rows, src, dst, w1);
        let r1 = once[src];
        if exists|k: int| #[trigger] is_first_target(r, t, k) {
            let k = choose|k: int| #[trigger] is_first_target(r, t, k);
            assert(is_first_target(r1, t, k));
            assert forall|k2: int| #[trigger] is_first_target(r1, t, k2) implies k2 == k by {
                if k2 < k { assert(r1[k2] == r[k2]); } else if k2 > k { assert(r1[k].0 == t); }
            }
            assert(r1.update(k, (t, w2)) =~= r.update(k, (t, w2)));
        } else {
            let k = r.len() as int;
            assert forall|i: int| 0 <= i < k implies r[i].0 != t by {
                if r[i].0 == t { lemma_first_match(r, t, i); }
            }
            assert(is_first_target(r1, t, k));
            assert forall|k2: int| #[trigger] is_first_target(r1, t, k2) implies k2 == k by {
                if k2 < k { assert(r1[k2] == r[k2]); } else if k2 > k { assert(r1[k].0 == t); }
            }
            assert(r1.update(k, (t, w2)) =~= r.push((t, w2)));
        }
        assert(connect(once, src, dst, w2) =~= connect(rows, src, dst, w2));
    }
}

/// A row with a synapse to `t` has a first such synapse.
proof fn lemma_first_match(row: Seq<Synapse>, t: u32, i: int)
    requires
        0 <= i < row.len(),
        row[i].0 == t,
    ensures
        exists|k: int| #[trigger] is_first_target(row, t, k),
    decreases i,
{
    if exists|q: int| 0 <= q < i && row[q].0 == t {
        let q = choose|q: int| 0 <= q < i && row[q].0 == t;
        lemma_first_match(row, t, q);
    } else {
        assert(is_first_target(row, t, i));
    }
}

/// A synapse survives pruning exactly when its weight is not NaN and the
/// absolute value it denotes is at least that of 0.0001; in particular a
/// weight and its negation are pruned alike.
pub proof fn lemma_prune_by_absolute_value(w: u32)
    ensures
        is_strong_weight(w) == (!denotes_nan(w) && scaled_magnitude(w) >= scaled_magnitude(PRUNE_THRESHOLD_BITS)),
        is_strong_weight(w) == is_strong_weight(w ^ 0x8000_0000),
{
    let m = w % 0x8000_0000;
    lemma_sign_bit_only(w);
    lemma_nan_test(w);
    if m < PRUNE_THRESHOLD_BITS {
        lemma_magnitude_strictly_increasing(m, PRUNE_THRESHOLD_BITS);
    } else if m > PRUNE_THRESHOLD_BITS {
        lemma_magnitude_strictly_increasing(PRUNE_THRESHOLD_BITS, m);
    }
    assert(scaled_magnitude(m) == scaled_magnitude(w));
    assert((w ^ 0x8000_0000) % 0x8000_0000 == w % 0x8000_0000) by (bit_vector);
}

/// Splitting synapse `k` of row `src` (`src -> t`, weight `w`) through a
/// neuron inserted at `at`: the new neuron's only synapse carries `w` to
/// `t`'s new id (`t + 1` when `t >= at`, `t` otherwise), the very neuron
/// that every other synapse into `t` is renumbered to point at.
pub proof fn lemma_split_feeds_same_neuron(rows: Seq<Seq<Synapse>>, src: int, k: int, at: int)
    requires
        0 <= src < rows.len(),
        0 <= k < rows[src].len(),
        0 <= at <= rows.len(),
        rows.len() < u32::MAX,
        rows[src][k].0 < rows.len(),
    ensures
        ({
            let t = rows[src][k].0;
            let w = rows[src][k].1;
            let r = split_rows(rows, src, k, at);
            &&& r[at].len() == 1
            &&& r[at][0].1 == w
            &&& r[at][0].0 as int == if t >= at { t + 1 } else { t as int }
            &&& forall|j: int, q: int|
                0 <= j < rows.len() && j != src && 0 <= q < rows[j].len() && (#[trigger] rows[j][q]).0 == t
                    ==> r[if j < at { j } else { j + 1 }][q].0 == r[at][0].0
        }),
{
    let t = rows[src][k].0;
    let r = split_rows(rows, src, k, at);
    let removed = rows.update(src, rows[src].remove(k));
    let grown = insert_neuron(removed, at);
    let new_src = if src >= at { src + 1 } else { src };
    assert(r[at] == seq![(shift_id(t, at), rows[src][k].1)]);
    assert forall|j: int, q: int|
        0 <= j < rows.len() && j != src && 0 <= q < rows[j].len() && (#[trigger] rows[j][q]).0 == t
            implies r[if j < at { j } else { j + 1 }][q].0 == r[at][0].0 by {
        let jj = if j < at { j } else { j + 1 };
        assert(jj != at && jj != new_src);
        assert(r[jj] == grown[jj]);
        assert(removed[j] == rows[j]);
        assert(grown[jj] == shift_row(rows[j], at));
    }
}

proof fn lemma_strong_filter_idempotent(row: Seq<Synapse>)
    ensures
        row.filter(|s: Synapse| is_strong_synapse(s)).filter(|s: Synapse| is_strong_synapse(s))
            == row.filter(|s: Synapse| is_strong_synapse(s)),
    decreases row.len(),
{
    let p = |s: Synapse| is_strong_synapse(s);
    reveal(Seq::filter);
    if row.len() > 0 {
        let rest = row.drop_last();
        lemma_strong_filter_idempotent(rest);
        let f = rest.filter(p);
        if p(row.last()) {
            assert(f.push(row.last()).drop_last() =~= f);
            assert(f.push(row.last()).last() == row.last());
        }
    }
}

/// Pruning is idempotent: pruning an already pruned network removes nothing.
pub proof fn lemma_prune_idempotent(rows: Seq<Seq<Synapse>>)
    ensures
        prune_rows(prune_rows(rows)) == prune_rows(rows),
{
    assert forall|j: int| 0 <= j < rows.len() implies #[trigger] prune_rows(prune_rows(rows))[j] == prune_rows(rows)[j] by {
        lemma_strong_filter_idempotent(rows[j]);
    }
    assert(prune_rows(prune_rows(rows)) =~= prune_rows(rows));
}

impl FastBrain {
    /// The network's invariant: consistent counts, one entry per neuron in
    /// every neuron array, and a well-formed CSR whose neuron ids fit `u32`.
    pub open spec fn wf(&self) -> bool {
        let n = self.active_neurons as int;
        &&& n == self.num_inputs + self.num_hidden + self.num_outputs
        &&& n < u32::MAX
        &&& self.activations.len() == n
        &&& self.thresholds.len() == n
        &&& self.biases.len() == n
        &&& self.last_spikes.len() == n
        &&& self.current_spikes.len() == n
        &&& self.inputs_accumulated.len() == n
        &&& self.pre_traces.len() == n
        &&& self.post_traces.len() == n
        &&& self.synapse_weights.len() == self.synapse_targets.len()
        &&& csr_wf(self.neuron_offsets@, self.synapse_targets@, n)
    }

    /// All synapses in CSR order.
    pub open spec fn synapses(&self) -> Seq<Synapse> {
        zip_synapses(self.synapse_targets@, self.synapse_weights@)
    }

    /// The synapses grouped by source neuron.
    pub open spec fn rows(&self) -> Seq<Seq<Synapse>> {
        csr_rows(self.neuron_offsets@, self.synapses(), self.active_neurons as int)
    }

    /// Everything but the synapse arrays and offsets is the same in both.
    pub open spec fn same_neurons(&self, other: &FastBrain) -> bool {
        &&& self.num_inputs == other.num_inputs
        &&& self.num_hidden == other.num_hidden
        &&& self.num_outputs == other.num_outputs
        &&& self.active_neurons == other.active_neurons
        &&& self.activations@ == other.activations@
        &&& self.thresholds@ == other.thresholds@
        &&& self.biases@ == other.biases@
        &&& self.decay == other.decay
        &&& self.last_spikes@ == other.last_spikes@
        &&& self.current_spikes@ == other.current_spikes@
        &&& self.inputs_accumulated@ == other.inputs_accumulated@
        &&& self.pre_traces@ == other.pre_traces@
        &&& self.post_traces@ == other.post_traces@
        &&& self.stdp_tau_pre == other.stdp_tau_pre
        &&& self.stdp_tau_post == other.stdp_tau_post
        &&& self.stdp_a_plus == other.stdp_a_plus
        &&& self.stdp_a_minus == other.stdp_a_minus
    }

    /// Connects `src` to `dst` with weight bits `weight`. An existing
    /// synapse `src -> dst` (the first, if several) has its weight replaced;
    /// otherwise the synapse is appended to `src`'s outgoing synapses.
    /// Nothing changes when either id is not an active neuron.
    pub fn add_synapse(&mut self, src: usize, dst: usize, weight: u32)
        requires
            old(self).wf(),
            old(self).synapse_weights.len() < u32::MAX,
        ensures
            final(self).wf(),
            final(self).same_neurons(old(self)),
            final(self).rows() == connect(old(self).rows(), src as int, dst as int, weight),
            final(self).synapse_weights.len() == old(self).synapse_weights.len() + if src < old(self).active_neurons
                && dst < old(self).active_neurons
                && !exists|k: int| #[trigger] is_first_target(old(self).rows()[src as int], dst as u32, k) {
                1int
            } else {
                0int
            },
    {
        if src >= self.active_neurons || dst >= self.active_neurons {
            return;
        }
        let ghost old_rows = self.rows();
        let n = self.active_neurons;
        let start = self.neuron_offsets[src] as usize;
        let end = self.neuron_offsets[src + 1] as usize;
        let ghost row = old_rows[src as int];
        assert(row =~= self.synapses().subrange(start as int, end as int));
        let mut idx = start;
        while idx < end
            invariant
                *self == *old(self),
                self.wf(),
                self.rows() == old_rows,
                old(self).synapse_weights.len() < u32::MAX,
                start <= idx <= end,
                end as int == self.neuron_offsets@[src + 1],
                start as int == self.neuron_offsets@[src as int],
                src < n == self.active_neurons,
                row == self.synapses().subrange(start as int, end as int),
                forall|i: int| 0 <= i < idx - start ==> row[i].0 != dst,
            decreases end - idx,
        {
            if self.synapse_targets[idx] as usize == dst {
                let ghost before = *self;
                self.synapse_weights.set(idx, weight);
                proof {
                    let k = idx - start;
                    assert(is_first_target(row, dst as u32, k));
                    assert forall|k2: int| #[trigger] is_first_target(row, dst as u32, k2) implies k2 == k by {
                        if k2 < k { } else if k2 > k { assert(row[k].0 == dst as u32); }
                    }
                    let new_rows = old_rows.update(src as int, row.update(k, (dst as u32, weight)));
                    assert forall|j: int| 0 <= j < n implies #[trigger] self.rows()[j] =~= new_rows[j] by {
                        if j == src as int {
                        } else {
                            assert(before.rows()[j] == old_rows[j]);
                            if j < src {
                                assert(self.neuron_offsets@[j + 1] <= start);
                            } else {
                                assert(self.neuron_offsets@[j] >= end);
                            }
                        }
                    }
                    assert(self.rows() =~= new_rows);
                }
                return;
            }
            idx += 1;
        }
        proof {
            assert(!exists|k: int| #[trigger] is_first_target(row, dst as u32, k));
        }
        let ghost before = *self;
        self.synapse_weights.insert(end, weight);
        self.synapse_targets.insert(end, dst as u32);
        let mut o = src + 1;
        while o <= n
            invariant
                src + 1 <= o <= n + 1,
                n == self.active_neurons,
                n < u32::MAX,
                self.neuron_offsets@.len() == n + 1,
                before.neuron_offsets@.len() == n + 1,
                self.same_neurons(&before),
                self.synapse_weights@ == before.synapse_weights@.insert(end as int, weight),
                self.synapse_targets@ == before.synapse_targets@.insert(end as int, dst as u32),
                before.synapse_weights.len() == before.synapse_targets.len(),
                before.synapse_targets.len() < u32::MAX,
                csr_wf(before.neuron_offsets@, before.synapse_targets@, n as int),
                forall|i: int| 0 <= i <= src ==> #[trigger] self.neuron_offsets@[i] == before.neuron_offsets@[i],
                forall|i: int| src + 1 <= i < o ==> #[trigger] self.neuron_offsets@[i] == before.neuron_offsets@[i] + 1,
                forall|i: int| o <= i <= n ==> #[trigger] self.neuron_offsets@[i] == before.neuron_offsets@[i],
            decreases n + 1 - o,
        {
            let v = self.neuron_offsets[o];
            assert(v <= before.neuron_offsets@[n as int]);
            self.neuron_offsets.set(o, v + 1);
            o += 1;
        }
        proof {
            let e = end as int;
            let syn0 = before.synapses();
            let syn1 = self.synapses();
            assert(syn1 =~= syn0.insert(e, (dst as u32, weight)));
            let new_rows = old_rows.update(src as int, row.push((dst as u32, weight)));
            assert forall|j: int| 0 <= j < n implies #[trigger] self.rows()[j] =~= new_rows[j] by {
                assert(before.rows()[j] == old_rows[j]);
                if j < src {
                    assert(before.neuron_offsets@[j + 1] <= e);
                } else if j > src {
                    assert(before.neuron_offsets@[j] >= e);
                }
            }
            assert(self.rows() =~= new_rows);
            assert forall|k: int| 0 <= k < self.synapse_targets@.len() implies self.synapse_targets@[k] < n by {
                if k < e { } else if k > e { assert(self.synapse_targets@[k] == before.synapse_targets@[k - 1]); }
            }
            assert forall|i: int, j: int| 0 <= i <= j <= n implies self.neuron_offsets@[i] <= self.neuron_offsets@[j] by {
                assert(before.neuron_offsets@[i] <= before.neuron_offsets@[j]);
                if i <= src && j > src {
                    assert(before.neuron_offsets@[i] <= before.neuron_offsets@[j]);
                }
            }
        }
    }

    /// Inserts a fresh hidden neuron after the existing hidden ones, at index
    /// `num_inputs + num_hidden`, and returns that index. The neuron starts
    /// with potential 0, threshold 1.0, bias 0, no spike, zero traces and no
    /// outgoing synapses; output neurons move up by one and every synapse
    /// that targeted them is renumbered.
    pub fn add_hidden_neuron(&mut self) -> (idx: usize)
        requires
            old(self).wf(),
            old(self).active_neurons + 1 < u32::MAX,
        ensures
            idx == old(self).num_inputs + old(self).num_hidden,
            final(self).wf(),
            final(self).num_inputs == old(self).num_inputs,
            final(self).num_hidden == old(self).num_hidden + 1,
            final(self).num_outputs == old(self).num_outputs,
            final(self).active_neurons == old(self).active_neurons + 1,
            final(self).activations@ == old(self).activations@.insert(idx as int, ZERO_BITS),
            final(self).thresholds@ == old(self).thresholds@.insert(idx as int, ONE_BITS),
            final(self).biases@ == old(self).biases@.insert(idx as int, ZERO_BITS),
            final(self).last_spikes@ == old(self).last_spikes@.insert(idx as int, false),
            final(self).current_spikes@ == old(self).current_spikes@.insert(idx as int, false),
            final(self).inputs_accumulated@ == old(self).inputs_accumulated@.insert(idx as int, ZERO_BITS),
            final(self).pre_traces@ == old(self).pre_traces@.insert(idx as int, ZERO_BITS),
            final(self).post_traces@ == old(self).post_traces@.insert(idx as int, ZERO_BITS),
            final(self).decay == old(self).decay,
            final(self).stdp_tau_pre == old(self).stdp_tau_pre,
            final(self).stdp_tau_post == old(self).stdp_tau_post,
            final(self).stdp_a_plus == old(self).stdp_a_plus,
            final(self).stdp_a_minus == old(self).stdp_a_minus,
            final(self).rows() == insert_neuron(old(self).rows(), idx as int),
            final(self).synapse_weights@ == old(self).synapse_weights@,
    {
        let at = self.num_inputs + self.num_hidden;
        self.activations.insert(at, ZERO_BITS);
        self.thresholds.insert(at, ONE_BITS);
        self.biases.insert(at, ZERO_BITS);
        self.last_spikes.insert(at, false);
        self.current_spikes.insert(at, false);
        self.inputs_accumulated.insert(at, ZERO_BITS);
        self.pre_traces.insert(at, ZERO_BITS);
        self.post_traces.insert(at, ZERO_BITS);
        self.num_hidden = self.num_hidden + 1;
        self.active_neurons = self.active_neurons + 1;
        let offset = self.neuron_offsets[at];
        self.neuron_offsets.insert(at, offset);
        let ghost mid = *self;
        let len = self.synapse_targets.len();
        let mut k: usize = 0;
        while k < len
            invariant
                0 <= k <= len,
                len == self.synapse_targets.len(),
                self.synapse_targets@.len() == mid.synapse_targets@.len(),
                mid.synapse_targets@ == old(self).synapse_targets@,
                old(self).wf(),
                at == old(self).num_inputs + old(self).num_hidden,
                forall|i: int| 0 <= i < k ==> #[trigger] self.synapse_targets@[i] == shift_id(mid.synapse_targets@[i], at as int),
                forall|i: int| k <= i < len ==> #[trigger] self.synapse_targets@[i] == mid.synapse_targets@[i],
                self.same_neurons(&mid),
                self.synapse_weights@ == mid.synapse_weights@,
                self.neuron_offsets@ == mid.neuron_offsets@,
            decreases len - k,
        {
            let t = self.synapse_targets[k];
            if t as usize >= at {
                self.synapse_targets.set(k, t + 1);
            }
            k += 1;
        }
        proof {
            let n = old(self).active_neurons as int;
            let a = at as int;
            let off0 = old(self).neuron_offsets@;
            let off1 = self.neuron_offsets@;
            assert(off1 =~= off0.insert(a, off0[a]));
            let syn0 = old(self).synapses();
            let syn1 = self.synapses();
            assert(syn1 =~= syn0.map_values(|s: Synapse| (shift_id(s.0, a), s.1)));
            let want = insert_neuron(old(self).rows(), a);
            assert forall|j: int| 0 <= j < n + 1 implies #[trigger] self.rows()[j] =~= want[j] by {
                if j < a {
                    assert(off1[j] == off0[j]);
                    assert(off1[j + 1] == off0[j + 1]);
                } else if j > a {
                    assert(off1[j] == off0[j - 1]);
                    assert(off1[j + 1] == off0[j]);
                    assert(off0[j - 1] <= off0[j]);
                }
            }
            assert(self.rows() =~= want);
            assert forall|i: int, j: int| 0 <= i <= j <= n + 1 implies off1[i] <= off1[j] by {
                let i0 = if i <= a { i } else { i - 1 };
                let j0 = if j <= a { j } else { j - 1 };
                assert(off1[i] == off0[i0]);
                assert(off1[j] == off0[j0]);
                assert(off0[i0] <= off0[j0]);
            }
        }
        at
    }

    /// Splits synapse `synapse_idx` (`src -> dst`, weight `w`) by a new
    /// hidden neuron `C` (see `add_hidden_neuron`): the synapse is removed,
    /// `src -> C` gets weight 1.0 and `C -> dst` gets weight `w`. An index
    /// past the last synapse changes nothing.
    pub fn split_synapse(&mut self, synapse_idx: usize)
        requires
            old(self).wf(),
            old(self).active_neurons + 1 < u32::MAX,
            old(self).synapse_weights.len() < u32::MAX,
        ensures
            final(self).wf(),
            synapse_idx >= old(self).synapse_weights.len() ==> *final(self) == *old(self),
            synapse_idx < old(self).synapse_weights.len() ==> {
                let at = old(self).num_inputs + old(self).num_hidden;
                let src = source_of(old(self).neuron_offsets@, synapse_idx as int);
                &&& final(self).num_inputs == old(self).num_inputs
                &&& final(self).num_hidden == old(self).num_hidden + 1
                &&& final(self).num_outputs == old(self).num_outputs
                &&& final(self).active_neurons == old(self).active_neurons + 1
                &&& final(self).activations@ == old(self).activations@.insert(at, ZERO_BITS)
                &&& final(self).thresholds@ == old(self).thresholds@.insert(at, ONE_BITS)
                &&& final(self).biases@ == old(self).biases@.insert(at, ZERO_BITS)
                &&& final(self).last_spikes@ == old(self).last_spikes@.insert(at, false)
                &&& final(self).current_spikes@ == old(self).current_spikes@.insert(at, false)
                &&& final(self).inputs_accumulated@ == old(self).inputs_accumulated@.insert(at, ZERO_BITS)
                &&& final(self).pre_traces@ == old(self).pre_traces@.insert(at, ZERO_BITS)
                &&& final(self).post_traces@ == old(self).post_traces@.insert(at, ZERO_BITS)
                &&& final(self).decay == old(self).decay
                &&& final(self).stdp_tau_pre == old(self).stdp_tau_pre
                &&& final(self).stdp_tau_post == old(self).stdp_tau_post
                &&& final(self).stdp_a_plus == old(self).stdp_a_plus
                &&& final(self).stdp_a_minus == old(self).stdp_a_minus
                &&& final(self).synapse_weights.len() == old(self).synapse_weights.len() + 1
                &&& final(self).rows() == split_rows(
                    old(self).rows(),
                    src,
                    synapse_idx - old(self).neuron_offsets@[src],
                    at as int,
                )
                &&& ({
                    let split = old(self).rows()[src][synapse_idx - old(self).neuron_offsets@[src]];
                    &&& final(self).rows()[at as int].len() == 1
                    &&& final(self).rows()[at as int][0].1 == split.1
                    &&& final(self).rows()[at as int][0].0 as int
                        == if split.0 >= at { split.0 + 1 } else { split.0 as int }
                })
            },
    {
        if synapse_idx >= self.synapse_weights.len() {
            return;
        }
        let n = self.active_neurons;
        let ghost off0 = self.neuron_offsets@;
        let ghost old_rows = self.rows();
        // Find the source neuron of the synapse.
        let mut src: usize = 0;
        let mut j: usize = 0;
        while j < n
            invariant
                *self == *old(self),
                self.wf(),
                n == self.active_neurons,
                synapse_idx < self.synapse_weights.len(),
                0 <= j <= n,
                off0 == self.neuron_offsets@,
                off0[j as int] <= synapse_idx,
            ensures
                j < n,
                src == j,
                off0[j as int] <= synapse_idx < off0[j + 1],
            decreases n - j,
        {
            if synapse_idx < self.neuron_offsets[j + 1] as usize {
                src = j;
                break;
            }
            j += 1;
        }
        proof {
            let c = source_of(off0, synapse_idx as int);
            assert(0 <= c < n && off0[c] <= synapse_idx < off0[c + 1]);
            if c < src {
                assert(off0[c + 1] <= off0[src as int]);
            } else if c > src {
                assert(off0[src + 1] <= off0[c]);
            }
            assert(c == src);
        }
        let ghost k = synapse_idx - off0[src as int];
        let ghost row = old_rows[src as int];
        let split_weight = self.synapse_weights[synapse_idx];
        let split_target = self.synapse_targets[synapse_idx];
        assert(row[k] == (split_target, split_weight));
        let ghost before = *self;
        self.synapse_weights.remove(synapse_idx);
        self.synapse_targets.remove(synapse_idx);
        let mut o = src + 1;
        while o <= n
            invariant
                src + 1 <= o <= n + 1,
                src < n,
                n == self.active_neurons,
                n < u32::MAX,
                self.neuron_offsets@.len() == n + 1,
                before.neuron_offsets@ == off0,
                self.same_neurons(&before),
                self.synapse_weights@ == before.synapse_weights@.remove(synapse_idx as int),
                self.synapse_targets@ == before.synapse_targets@.remove(synapse_idx as int),
                before.synapse_weights.len() == before.synapse_targets.len(),
                csr_wf(off0, before.synapse_targets@, n as int),
                off0[src as int] <= synapse_idx < off0[src + 1],
                forall|i: int| 0 <= i <= src ==> #[trigger] self.neuron_offsets@[i] == off0[i],
                forall|i: int| src + 1 <= i < o ==> #[trigger] self.neuron_offsets@[i] == off0[i] - 1,
                forall|i: int| o <= i <= n ==> #[trigger] self.neuron_offsets@[i] == off0[i],
            decreases n + 1 - o,
        {
            let v = self.neuron_offsets[o];
            assert(off0[src + 1] <= off0[o as int]);
            self.neuron_offsets.set(o, v - 1);
            o += 1;
        }
        let ghost removed_rows = old_rows.update(src as int, row.remove(k));
        proof {
            let e = synapse_idx as int;
            let syn0 = before.synapses();
            assert(self.synapses() =~= syn0.remove(e));
            assert forall|j2: int| 0 <= j2 < n implies #[trigger] self.rows()[j2] =~= removed_rows[j2] by {
                assert(before.rows()[j2] == old_rows[j2]);
                if j2 < src {
                    assert(off0[j2 + 1] <= off0[src as int]);
                } else if j2 > src {
                    assert(off0[j2] >= off0[src + 1]);
                }
            }
            assert(self.rows() =~= removed_rows);
            assert forall|q: int| 0 <= q < self.synapse_targets@.len() implies self.synapse_targets@[q] < n by {
                if q >= e { assert(self.synapse_targets@[q] == before.synapse_targets@[q + 1]); }
            }
            assert forall|i: int, j2: int| 0 <= i <= j2 <= n implies self.neuron_offsets@[i] <= self.neuron_offsets@[j2] by {
                assert(off0[i] <= off0[j2]);
                if i <= src && j2 > src {
                    assert(off0[i] <= off0[src as int]);
                    assert(off0[src + 1] <= off0[j2]);
                }
            }
        }
        let at = self.num_inputs + self.num_hidden;
        let adjusted_src = if src >= at { src + 1 } else { src };
        let adjusted_target = if split_target as usize >= at { split_target as usize + 1 } else { split_target as usize };
        let new_neuron = self.add_hidden_neuron();
        let ghost grown = insert_neuron(removed_rows, at as int);
        proof {
            assert forall|q: int| 0 <= q < grown[adjusted_src as int].len()
                implies #[trigger] grown[adjusted_src as int][q].0 != at as u32 by {}
            assert(!exists|q: int| #[trigger] is_first_target(grown[adjusted_src as int], at as u32, q));
        }
        self.add_synapse(adjusted_src, new_neuron, ONE_BITS);
        let ghost linked = grown.update(adjusted_src as int, grown[adjusted_src as int].push((at as u32, ONE_BITS)));
        proof {
            assert(linked[at as int].len() == 0);
            assert(!exists|q: int| #[trigger] is_first_target(linked[at as int], adjusted_target as u32, q));
        }
        self.add_synapse(new_neuron, adjusted_target, split_weight);
        proof {
            assert(shift_id(split_target, at as int) == adjusted_target as u32);
            assert(self.rows() =~= split_rows(old_rows, src as int, k, at as int));
            assert(split_target < n);
            lemma_split_feeds_same_neuron(old_rows, src as int, k, at as int);
        }
    }

    /// Removes every synapse whose weight is NaN or smaller than 0.0001 in
    /// absolute value, keeping the others in their order, and rebuilds the
    /// row offsets.
    pub fn prune_synapses(&mut self)
        requires
            old(self).wf(),
        ensures
            final(self).wf(),
            final(self).same_neurons(old(self)),
            final(self).rows() == prune_rows(old(self).rows()),
    {
        let n = self.active_neurons;
        let ghost rows = self.rows();
        let ghost pred = |s: Synapse| is_strong_synapse(s);
        let mut new_weights: Vec<u32> = Vec::with_capacity(self.synapse_weights.len());
        let mut new_targets: Vec<u32> = Vec::with_capacity(self.synapse_targets.len());
        let mut new_offsets: Vec<u32> = Vec::with_capacity(self.neuron_offsets.len());
        new_offsets.push(0);
        let mut j: usize = 0;
        while j < n
            invariant
                self.wf(),
                *self == *old(self),
                rows == self.rows(),
                pred == (|s: Synapse| is_strong_synapse(s)),
                n == self.active_neurons,
                0 <= j <= n,
                new_offsets@.len() == j + 1,
                new_offsets@[0] == 0,
                new_offsets@[j as int] == new_weights@.len(),
                new_weights@.len() == new_targets@.len(),
                new_weights@.len() <= self.neuron_offsets@[j as int],
                forall|a: int, b: int| 0 <= a <= b <= j ==> new_offsets@[a] <= new_offsets@[b],
                forall|q: int| 0 <= q < new_targets@.len() ==> new_targets@[q] < n,
                forall|r: int| 0 <= r < j ==>
                    #[trigger] zip_synapses(new_targets@, new_weights@).subrange(new_offsets@[r] as int, new_offsets@[r + 1] as int)
                        == rows[r].filter(pred),
            decreases n - j,
        {
            let start = self.neuron_offsets[j] as usize;
            let end = self.neuron_offsets[j + 1] as usize;
            let ghost base = zip_synapses(new_targets@, new_weights@);
            let ghost base_len = new_weights@.len();
            let ghost row = rows[j as int];
            assert(row =~= self.synapses().subrange(start as int, end as int));
            assert(row.take(0) =~= Seq::<Synapse>::empty());
            proof { reveal(Seq::filter); }
            assert(base =~= base + row.take(0).filter(pred));
            let mut idx = start;
            while idx < end
                invariant
                    self.wf(),
                    *self == *old(self),
                    rows == self.rows(),
                    pred == (|s: Synapse| is_strong_synapse(s)),
                    n == self.active_neurons,
                    j < n,
                    start == self.neuron_offsets@[j as int],
                    end == self.neuron_offsets@[j + 1],
                    start <= idx <= end,
                    row == rows[j as int],
                    row == self.synapses().subrange(start as int, end as int),
                    new_weights@.len() == new_targets@.len(),
                    base_len == base.len(),
                    base_len <= start,
                    new_weights@.len() <= base_len + (idx - start),
                    forall|q: int| 0 <= q < new_targets@.len() ==> new_targets@[q] < n,
                    zip_synapses(new_targets@, new_weights@) == base + row.take(idx - start).filter(pred),
                    base.len() <= new_weights@.len(),
                    forall|q: int| 0 <= q < base.len() ==> #[trigger] zip_synapses(new_targets@, new_weights@)[q] == base[q],
                decreases end - idx,
            {
                let w = self.synapse_weights[idx];
                let target = self.synapse_targets[idx];
                let ghost i = idx - start;
                proof {
                    reveal(Seq::filter);
                    assert(row.take(i + 1).drop_last() =~= row.take(i));
                    assert(row[i] == (target, w));
                    assert(row.take(i + 1).last() == row[i]);
                    assert(row.take(i + 1).filter(pred) == if pred(row[i]) {
                        row.take(i).filter(pred).push(row[i])
                    } else {
                        row.take(i).filter(pred)
                    });
                }
                let magnitude = w % 0x8000_0000;
                if PRUNE_THRESHOLD_BITS <= magnitude && magnitude <= INFINITY_BITS {
                    let ghost z0 = zip_synapses(new_targets@, new_weights@);
                    new_weights.push(w);
                    new_targets.push(target);
                    assert(is_strong_synapse(row[i]));
                    assert(pred(row[i]));
                    assert(zip_synapses(new_targets@, new_weights@) =~= z0.push((target, w)));
                    assert(row.take(i + 1).filter(pred) == row.take(i).filter(pred).push(row[i]));
                    assert(base + row.take(i).filter(pred).push(row[i]) =~= (base + row.take(i).filter(pred)).push(row[i]));
                    assert(zip_synapses(new_targets@, new_weights@) =~= base + row.take(i + 1).filter(pred));
                } else {
                    assert(!is_strong_synapse(row[i]));
                    assert(!pred(row[i]));
                    assert(row.take(i + 1).filter(pred) == row.take(i).filter(pred));
                }
                idx += 1;
            }
            proof {
                assert(row.take(end - start) =~= row);
            }
            let ghost prev_offsets = new_offsets@;
            new_offsets.push(new_weights.len() as u32);
            proof {
                let zs = zip_synapses(new_targets@, new_weights@);
                assert(zs.subrange(base_len as int, new_weights@.len() as int) =~= row.filter(pred));
                assert forall|r: int| 0 <= r < j + 1 implies
                    #[trigger] zs.subrange(new_offsets@[r] as int, new_offsets@[r + 1] as int) == rows[r].filter(pred) by {
                    if r < j {
                        assert(prev_offsets[r + 1] <= prev_offsets[j as int]);
                        assert(zs.subrange(new_offsets@[r] as int, new_offsets@[r + 1] as int)
                            =~= base.subrange(prev_offsets[r] as int, prev_offsets[r + 1] as int));
                    }
                }
                assert(self.neuron_offsets@[j as int] <= self.neuron_offsets@[j + 1]);
            }
            j += 1;
        }
        let ghost before = *self;
        self.synapse_weights = new_weights;
        self.synapse_targets = new_targets;
        self.neuron_offsets = new_offsets;
        proof {
            assert forall|r: int| 0 <= r < n implies #[trigger] self.rows()[r] == prune_rows(rows)[r] by {
                assert(zip_synapses(self.synapse_targets@, self.synapse_weights@) == self.synapses());
            }
            assert(self.rows() =~= prune_rows(rows));
        }
    }

    /// Packs the last spikes of the first 64 neurons into a bitmask: bit `i`
    /// is set exactly when neuron `i` exists and spiked on the last tick.
    pub fn get_last_spikes(&self) -> (mask: u64)
        requires
            self.active_neurons <= self.last_spikes.len() || 64 <= self.last_spikes.len(),
        ensures
            forall|i: int| 0 <= i < 64 ==>
                (#[trigger] mask_bit(mask, i) <==> (i < self.active_neurons && self.last_spikes@[i])),
    {
        let mut mask: u64 = 0;
        let limit: usize = if self.active_neurons < 64 { self.active_neurons } else { 64 };
        let mut i: usize = 0;
        proof {
            assert forall|j: int| 0 <= j < 64 implies !mask_bit(0u64, j) by {
                let jj = j as u64;
                assert((0u64 >> jj) & 1u64 == 0u64) by (bit_vector);
            }
        }
        while i < limit
            invariant
                0 <= i <= limit,
                limit <= 64,
                limit <= self.active_neurons,
                limit == self.active_neurons || limit == 64,
                limit <= self.last_spikes.len(),
                forall|j: int| 0 <= j < 64 ==>
                    (#[trigger] mask_bit(mask, j) <==> (j < i && self.last_spikes@[j])),
            decreases limit - i,
        {
            if self.last_spikes[i] {
                let ghost m0 = mask;
                mask = mask | (1u64 << i);
                proof {
                    assert forall|j: int| 0 <= j < 64 implies
                        (#[trigger] mask_bit(mask, j) <==> (mask_bit(m0, j) || j == i)) by {
                        lemma_set_mask_bit(m0, i as u64, j as u64);
                    }
                }
            }
            i += 1;
        }
        mask
    }

    /// Clears the dynamic state: every potential becomes 0 and no neuron has
    /// a last spike; everything else is kept.
    pub fn reset_activity(&mut self)
        ensures
            final(self).activations@.len() == old(self).activations@.len(),
            forall|i: int| 0 <= i < final(self).activations@.len() ==> final(self).activations@[i] == ZERO_BITS,
            final(self).last_spikes@.len() == old(self).last_spikes@.len(),
            forall|i: int| 0 <= i < final(self).last_spikes@.len() ==> !final(self).last_spikes@[i],
            final(self).num_inputs == old(self).num_inputs,
            final(self).num_hidden == old(self).num_hidden,
            final(self).num_outputs == old(self).num_outputs,
            final(self).active_neurons == old(self).active_neurons,
            final(self).thresholds@ == old(self).thresholds@,
            final(self).biases@ == old(self).biases@,
            final(self).decay == old(self).decay,
            final(self).current_spikes@ == old(self).current_spikes@,
            final(self).inputs_accumulated@ == old(self).inputs_accumulated@,
            final(self).synapse_weights@ == old(self).synapse_weights@,
            final(self).synapse_targets@ == old(self).synapse_targets@,
            final(self).neuron_offsets@ == old(self).neuron_offsets@,
            final(self).pre_traces@ == old(self).pre_traces@,
            final(self).post_traces@ == old(self).post_traces@,
            final(self).stdp_tau_pre == old(self).stdp_tau_pre,
            final(self).stdp_tau_post == old(self).stdp_tau_post,
            final(self).stdp_a_plus == old(self).stdp_a_plus,
            final(self).stdp_a_minus == old(self).stdp_a_minus,
    {
        let mut i: usize = 0;
        while i < self.activations.len()
            invariant
                0 <= i <= self.activations.len(),
                self.activations@.len() == old(self).activations@.len(),
                forall|k: int| 0 <= k < i ==> self.activations@[k] == ZERO_BITS,
                self.last_spikes@ == old(self).last_spikes@,
                self.num_inputs == old(self).num_inputs,
                self.num_hidden == old(self).num_hidden,
                self.num_outputs == old(self).num_outputs,
                self.active_neurons == old(self).active_neurons,
                self.thresholds@ == old(self).thresholds@,
                self.biases@ == old(self).biases@,
                self.decay == old(self).decay,
                self.current_spikes@ == old(self).current_spikes@,
                self.inputs_accumulated@ == old(self).inputs_accumulated@,
                self.synapse_weights@ == old(self).synapse_weights@,
                self.synapse_targets@ == old(self).synapse_targets@,
                self.neuron_offsets@ == old(self).neuron_offsets@,
                self.pre_traces@ == old(self).pre_traces@,
                self.post_traces@ == old(self).post_traces@,
                self.stdp_tau_pre == old(self).stdp_tau_pre,
                self.stdp_tau_post == old(self).stdp_tau_post,
                self.stdp_a_plus == old(self).stdp_a_plus,
                self.stdp_a_minus == old(self).stdp_a_minus,
            decreases self.activations.len() - i,
        {
            self.activations.set(i, ZERO_BITS);
            i += 1;
        }
        let mut i: usize = 0;
        while i < self.last_spikes.len()
            invariant
                0 <= i <= self.last_spikes.len(),
                self.last_spikes@.len() == old(self).last_spikes@.len(),
                forall|k: int| 0 <= k < i ==> !self.last_spikes@[k],
                self.activations@.len() == old(self).activations@.len(),
                forall|k: int| 0 <= k < self.activations@.len() ==> self.activations@[k] == ZERO_BITS,
                self.num_inputs == old(self).num_inputs,
                self.num_hidden == old(self).num_hidden,
                self.num_outputs == old(self).num_outputs,
                self.active_neurons == old(self).active_neurons,
                self.thresholds@ == old(self).thresholds@,
                self.biases@ == old(self).biases@,
                self.decay == old(self).decay,
                self.current_spikes@ == old(self).current_spikes@,
                self.inputs_accumulated@ == old(self).inputs_accumulated@,
                self.synapse_weights@ == old(self).synapse_weights@,
                self.synapse_targets@ == old(self).synapse_targets@,
                self.neuron_offsets@ == old(self).neuron_offsets@,
                self.pre_traces@ == old(self).pre_traces@,
                self.post_traces@ == old(self).post_traces@,
                self.stdp_tau_pre == old(self).stdp_tau_pre,
                self.stdp_tau_post == old(self).stdp_tau_post,
                self.stdp_a_plus == old(self).stdp_a_plus,
                self.stdp_a_minus == old(self).stdp_a_minus,
            decreases self.last_spikes.len() - i,
        {
            self.last_spikes.set(i, false);
            i += 1;
        }
    }

}

} // verus!
