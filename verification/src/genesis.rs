//! Deterministic generation of the initial synapse topology: a linear
//! congruential generator seeded with 42 decides, pair by pair, which
//! candidate synapses exist, and the chosen synapses are laid out in CSR
//! order.
use crate::brain::{
    csr_wf, FastBrain, DEFAULT_DECAY_BITS, DEFAULT_STDP_A_MINUS_BITS, DEFAULT_STDP_A_PLUS_BITS,
    DEFAULT_STDP_TAU_BITS, ONE_BITS, ZERO_BITS,
};
use crate::state::{falses, zeros};
use vstd::prelude::*;

verus! {

/// Seed of the generator.
pub const GENESIS_SEED: u32 = 42;
/// Multiplier of the linear congruential generator.
pub const LCG_MULTIPLIER: u32 = 1103515245;
/// Increment of the linear congruential generator.
pub const LCG_INCREMENT: u32 = 12345;

/// The three blocks of candidate synapses, in generation order.
#[derive(Clone, Copy, Debug, PartialEq, Eq)]
pub enum Layer {
    /// every input to every hidden neuron
    InputToHidden,
    /// every hidden neuron to every other hidden neuron
    HiddenToHidden,
    /// every hidden neuron to every output
    HiddenToOutput,
}

/// A synapse chosen by the generator. `draw` (below 32768) is the
/// generator output that fixes its weight: the weight is
/// `(draw / 32767 * 2 - 1) * scale` with the layer's scale (0.5, 0.2, 0.8).
#[derive(Clone, Copy, Debug)]
pub struct GeneratedSynapse {
    pub source: usize,
    pub target: usize,
    pub draw: u32,
    pub layer: Layer,
}

/// The generator's next state.
pub open spec fn lcg_next(s: u32) -> u32 {
    (((s as nat * LCG_MULTIPLIER as nat) % 0x1_0000_0000 + LCG_INCREMENT as nat) % 0x1_0000_0000) as u32
}

/// The 15-bit output taken from a generator state.
pub open spec fn draw_of(s: u32) -> u32 {
    (s / 65536) % 32768
}

/// The smallest draw that creates a candidate synapse of `layer`. A
/// candidate exists when the draw mapped to [-1, 1] in single precision,
/// `draw / 32767 * 2 - 1`, exceeds -0.2, 0.6 or -0.4 respectively; these
/// are the exact draws from which that comparison holds.
pub open spec fn connection_cutoff(layer: Layer) -> u32 {
    match layer {
        Layer::InputToHidden => 13107,
        Layer::HiddenToHidden => 26214,
        Layer::HiddenToOutput => 9831,
    }
}

/// Generator state and synapses chosen so far.
pub type GenState = (u32, Seq<GeneratedSynapse>);

/// Visiting the candidate `src -> dst`: a hidden self-pair is skipped
/// without drawing; otherwise one draw decides whether the synapse exists
/// and, if it does, a second draw fixes its weight.
pub open spec fn visit(st: GenState, src: int, dst: int, layer: Layer) -> GenState {
    if layer == Layer::HiddenToHidden && src == dst {
        st
    } else {
        let s1 = lcg_next(st.0);
        if draw_of(s1) >= connection_cutoff(layer) {
            let s2 = lcg_next(s1);
            (s2, st.1.push(GeneratedSynapse { source: src as usize, target: dst as usize, draw: draw_of(s2), layer }))
        } else {
            (s1, st.1)
        }
    }
}

/// Visiting `src -> dst_lo + c` for `c` in `0..count`, in order.
pub open spec fn visit_row(st: GenState, src: int, dst_lo: int, count: nat, layer: Layer) -> GenState
    decreases count,
{
    if count == 0 {
        st
    } else {
        visit(visit_row(st, src, dst_lo, (count - 1) as nat, layer), src, dst_lo + count - 1, layer)
    }
}

/// Visiting the rows `src_lo + r` for `r` in `0..rows`, each over the
/// targets `dst_lo .. dst_lo + cols`, row by row.
pub open spec fn visit_block(st: GenState, src_lo: int, rows: nat, dst_lo: int, cols: nat, layer: Layer) -> GenState
    decreases rows,
{
    if rows == 0 {
        st
    } else {
        visit_row(
            visit_block(st, src_lo, (rows - 1) as nat, dst_lo, cols, layer),
            src_lo + rows - 1,
            dst_lo,
            cols,
            layer,
        )
    }
}

/// All chosen synapses, in generation order: inputs to hidden, then hidden
/// to hidden, then hidden to outputs, from the seed 42.
pub open spec fn generation(num_inputs: nat, num_hidden: nat, num_outputs: nat) -> Seq<GeneratedSynapse> {
    let hidden = num_inputs as int;
    let outputs = (num_inputs + num_hidden) as int;
    let st1 = visit_block((GENESIS_SEED, Seq::empty()), 0, num_inputs, hidden, num_hidden, Layer::InputToHidden);
    let st2 = visit_block(st1, hidden, num_hidden, hidden, num_hidden, Layer::HiddenToHidden);
    let st3 = visit_block(st2, hidden, num_hidden, outputs, num_outputs, Layer::HiddenToOutput);
    st3.1
}

/// What visiting one row appends: at most one synapse per candidate, all
/// from `src` into the row's target range and of the row's layer (never a
/// self-synapse among hidden neurons), after the untouched earlier ones.
proof fn lemma_visit_row_bounds(st: GenState, src: int, dst_lo: int, count: nat, layer: Layer)
    requires
        0 <= src <= usize::MAX,
        0 <= dst_lo,
        dst_lo + count <= usize::MAX + 1,
    ensures
        ({
            let res = visit_row(st, src, dst_lo, count, layer).1;
            &&& st.1.len() <= res.len() <= st.1.len() + count
            &&& res.subrange(0, st.1.len() as int) == st.1
            &&& forall|k: int| st.1.len() <= k < res.len() ==> {
                &&& (#[trigger] res[k]).source == src
                &&& dst_lo <= res[k].target < dst_lo + count
                &&& res[k].layer == layer
                &&& (layer == Layer::HiddenToHidden ==> res[k].source != res[k].target)
            }
        }),
    decreases count,
{
    if count > 0 {
        lemma_visit_row_bounds(st, src, dst_lo, (count - 1) as nat, layer);
        let prev = visit_row(st, src, dst_lo, (count - 1) as nat, layer);
        let res = visit_row(st, src, dst_lo, count, layer).1;
        assert(res.subrange(0, st.1.len() as int) =~= st.1) by {
            assert(prev.1.subrange(0, st.1.len() as int) == st.1);
        }
        assert forall|k: int| st.1.len() <= k < res.len() implies {
            &&& (#[trigger] res[k]).source == src
            &&& dst_lo <= res[k].target < dst_lo + count
            &&& res[k].layer == layer
            &&& (layer == Layer::HiddenToHidden ==> res[k].source != res[k].target)
        } by {
            if k < prev.1.len() {
                assert(res[k] == prev.1[k]);
            }
        }
    }
}

/// What visiting a block appends: at most `rows * cols` synapses, all with
/// a source among the block's rows and a target among its columns.
proof fn lemma_visit_block_bounds(st: GenState, src_lo: int, rows: nat, dst_lo: int, cols: nat, layer: Layer)
    requires
        0 <= src_lo,
        src_lo + rows <= usize::MAX + 1,
        0 <= dst_lo,
        dst_lo + cols <= usize::MAX + 1,
    ensures
        ({
            let res = visit_block(st, src_lo, rows, dst_lo, cols, layer).1;
            &&& st.1.len() <= res.len() <= st.1.len() + rows * cols
            &&& res.subrange(0, st.1.len() as int) == st.1
            &&& forall|k: int| st.1.len() <= k < res.len() ==> {
                &&& src_lo <= (#[trigger] res[k]).source < src_lo + rows
                &&& dst_lo <= res[k].target < dst_lo + cols
                &&& res[k].layer == layer
                &&& (layer == Layer::HiddenToHidden ==> res[k].source != res[k].target)
            }
        }),
    decreases rows,
{
    if rows > 0 {
        let r1 = (rows - 1) as nat;
        lemma_visit_block_bounds(st, src_lo, r1, dst_lo, cols, layer);
        let prev = visit_block(st, src_lo, r1, dst_lo, cols, layer);
        lemma_visit_row_bounds(prev, src_lo + r1, dst_lo, cols, layer);
        let res = visit_block(st, src_lo, rows, dst_lo, cols, layer).1;
        assert(r1 * cols + cols == rows * cols) by (nonlinear_arith)
            requires r1 + 1 == rows;
        assert(res.subrange(0, st.1.len() as int) =~= st.1) by {
            assert(res.subrange(0, prev.1.len() as int) == prev.1);
            assert(prev.1.subrange(0, st.1.len() as int) == st.1);
        }
        assert forall|k: int| st.1.len() <= k < res.len() implies {
            &&& src_lo <= (#[trigger] res[k]).source < src_lo + rows
            &&& dst_lo <= res[k].target < dst_lo + cols
            &&& res[k].layer == layer
            &&& (layer == Layer::HiddenToHidden ==> res[k].source != res[k].target)
        } by {
            if k < prev.1.len() {
                assert(res.subrange(0, prev.1.len() as int) == prev.1);
                assert(res[k] == prev.1[k]);
            }
        }
    }
}

/// The generated network is layered: inputs only feed hidden neurons;
/// hidden neurons feed other hidden neurons (never themselves) or outputs;
/// outputs feed nothing and inputs are fed by nothing. There are at most as
/// many synapses as candidate pairs.
pub proof fn lemma_generation_layered(num_inputs: nat, num_hidden: nat, num_outputs: nat)
    requires
        num_inputs + num_hidden + num_outputs <= usize::MAX,
    ensures
        ({
            let g = generation(num_inputs, num_hidden, num_outputs);
            let hidden = num_inputs as int;
            let outputs = (num_inputs + num_hidden) as int;
            let n = (num_inputs + num_hidden + num_outputs) as int;
            &&& g.len() <= num_inputs * num_hidden + num_hidden * num_hidden + num_hidden * num_outputs
            &&& forall|k: int| 0 <= k < g.len() ==> {
                ||| ((#[trigger] g[k]).source < hidden && hidden <= g[k].target < outputs
                    && g[k].layer == Layer::InputToHidden)
                ||| (hidden <= g[k].source < outputs && hidden <= g[k].target < outputs
                    && g[k].source != g[k].target && g[k].layer == Layer::HiddenToHidden)
                ||| (hidden <= g[k].source < outputs && outputs <= g[k].target < n
                    && g[k].layer == Layer::HiddenToOutput)
            }
        }),
{
    let hidden = num_inputs as int;
    let outputs = (num_inputs + num_hidden) as int;
    let st0: GenState = (GENESIS_SEED, Seq::empty());
    let st1 = visit_block(st0, 0, num_inputs, hidden, num_hidden, Layer::InputToHidden);
    let st2 = visit_block(st1, hidden, num_hidden, hidden, num_hidden, Layer::HiddenToHidden);
    let st3 = visit_block(st2, hidden, num_hidden, outputs, num_outputs, Layer::HiddenToOutput);
    lemma_visit_block_bounds(st0, 0, num_inputs, hidden, num_hidden, Layer::InputToHidden);
    lemma_visit_block_bounds(st1, hidden, num_hidden, hidden, num_hidden, Layer::HiddenToHidden);
    lemma_visit_block_bounds(st2, hidden, num_hidden, outputs, num_outputs, Layer::HiddenToOutput);
    let g = st3.1;
    assert forall|k: int| 0 <= k < g.len() implies {
        ||| ((#[trigger] g[k]).source < hidden && hidden <= g[k].target < outputs
            && g[k].layer == Layer::InputToHidden)
        ||| (hidden <= g[k].source < outputs && hidden <= g[k].target < outputs
            && g[k].source != g[k].target && g[k].layer == Layer::HiddenToHidden)
        ||| (hidden <= g[k].source < outputs && outputs <= g[k].target < outputs + num_outputs
            && g[k].layer == Layer::HiddenToOutput)
    } by {
        if k < st1.1.len() {
            assert(g.subrange(0, st2.1.len() as int) == st2.1);
            assert(st2.1.subrange(0, st1.1.len() as int) == st1.1);
            assert(g[k] == st2.1[k]);
            assert(st2.1[k] == st1.1[k]);
        } else if k < st2.1.len() {
            assert(g.subrange(0, st2.1.len() as int) == st2.1);
            assert(g[k] == st2.1[k]);
        }
    }
}

/// Synapses sharing a source appear in strictly increasing target order.
pub open spec fn targets_increase_per_source(g: Seq<GeneratedSynapse>) -> bool {
    forall|a: int, b: int|
        0 <= a < b < g.len() && (#[trigger] g[a]).source == (#[trigger] g[b]).source ==> g[a].target < g[b].target
}

/// The synapses appended by visiting one row have strictly increasing targets.
proof fn lemma_visit_row_order(st: GenState, src: int, dst_lo: int, count: nat, layer: Layer)
    requires
        0 <= src <= usize::MAX,
        0 <= dst_lo,
        dst_lo + count <= usize::MAX + 1,
    ensures
        ({
            let res = visit_row(st, src, dst_lo, count, layer).1;
            forall|a: int, b: int| st.1.len() <= a < b < res.len() ==> (#[trigger] res[a]).target < (#[trigger] res[b]).target
        }),
    decreases count,
{
    if count > 0 {
        let c1 = (count - 1) as nat;
        lemma_visit_row_order(st, src, dst_lo, c1, layer);
        lemma_visit_row_bounds(st, src, dst_lo, c1, layer);
        let prev = visit_row(st, src, dst_lo, c1, layer).1;
        let res = visit_row(st, src, dst_lo, count, layer).1;
        assert forall|a: int, b: int| st.1.len() <= a < b < res.len() implies (#[trigger] res[a]).target < (#[trigger] res[b]).target by {
            assert(res[a] == prev[a]);
            if b < prev.len() {
                assert(res[b] == prev[b]);
            }
        }
    }
}

/// The synapses appended by visiting a block are in strictly increasing
/// (source, target) order.
proof fn lemma_visit_block_order(st: GenState, src_lo: int, rows: nat, dst_lo: int, cols: nat, layer: Layer)
    requires
        0 <= src_lo,
        src_lo + rows <= usize::MAX + 1,
        0 <= dst_lo,
        dst_lo + cols <= usize::MAX + 1,
    ensures
        ({
            let res = visit_block(st, src_lo, rows, dst_lo, cols, layer).1;
            forall|a: int, b: int| st.1.len() <= a < b < res.len() ==> {
                ||| (#[trigger] res[a]).source < (#[trigger] res[b]).source
                ||| (res[a].source == res[b].source && res[a].target < res[b].target)
            }
        }),
    decreases rows,
{
    if rows > 0 {
        let r1 = (rows - 1) as nat;
        lemma_visit_block_order(st, src_lo, r1, dst_lo, cols, layer);
        lemma_visit_block_bounds(st, src_lo, r1, dst_lo, cols, layer);
        let prev_st = visit_block(st, src_lo, r1, dst_lo, cols, layer);
        lemma_visit_row_order(prev_st, src_lo + r1, dst_lo, cols, layer);
        lemma_visit_row_bounds(prev_st, src_lo + r1, dst_lo, cols, layer);
        let prev = prev_st.1;
        let res = visit_block(st, src_lo, rows, dst_lo, cols, layer).1;
        assert forall|a: int, b: int| st.1.len() <= a < b < res.len() implies {
            ||| (#[trigger] res[a]).source < (#[trigger] res[b]).source
            ||| (res[a].source == res[b].source && res[a].target < res[b].target)
        } by {
            assert(res.subrange(0, prev.len() as int) == prev);
            if b < prev.len() {
                assert(res[a] == prev[a]);
                assert(res[b] == prev[b]);
            } else if a < prev.len() {
                assert(res[a] == prev[a]);
            }
        }
    }
}

/// In generation order, the synapses leaving any one neuron have strictly
/// increasing targets (no synapse is generated twice).
proof fn lemma_generation_order(num_inputs: nat, num_hidden: nat, num_outputs: nat)
    requires
        num_inputs + num_hidden + num_outputs <= usize::MAX,
    ensures
        targets_increase_per_source(generation(num_inputs, num_hidden, num_outputs)),
{
    let hidden = num_inputs as int;
    let outputs = (num_inputs + num_hidden) as int;
    let st0: GenState = (GENESIS_SEED, Seq::empty());
    let st1 = visit_block(st0, 0, num_inputs, hidden, num_hidden, Layer::InputToHidden);
    let st2 = visit_block(st1, hidden, num_hidden, hidden, num_hidden, Layer::HiddenToHidden);
    let st3 = visit_block(st2, hidden, num_hidden, outputs, num_outputs, Layer::HiddenToOutput);
    lemma_visit_block_bounds(st0, 0, num_inputs, hidden, num_hidden, Layer::InputToHidden);
    lemma_visit_block_bounds(st1, hidden, num_hidden, hidden, num_hidden, Layer::HiddenToHidden);
    lemma_visit_block_bounds(st2, hidden, num_hidden, outputs, num_outputs, Layer::HiddenToOutput);
    lemma_visit_block_order(st0, 0, num_inputs, hidden, num_hidden, Layer::InputToHidden);
    lemma_visit_block_order(st1, hidden, num_hidden, hidden, num_hidden, Layer::HiddenToHidden);
    lemma_visit_block_order(st2, hidden, num_hidden, outputs, num_outputs, Layer::HiddenToOutput);
    let g = st3.1;
    assert(g.subrange(0, st2.1.len() as int) == st2.1);
    assert(st2.1.subrange(0, st1.1.len() as int) == st1.1);
    assert forall|a: int, b: int|
        0 <= a < b < g.len() && (#[trigger] g[a]).source == (#[trigger] g[b]).source implies g[a].target < g[b].target by {
        if b < st1.1.len() {
            assert(g[a] == st2.1[a] && st2.1[a] == st1.1[a]);
            assert(g[b] == st2.1[b] && st2.1[b] == st1.1[b]);
        } else if b < st2.1.len() {
            assert(g[b] == st2.1[b]);
            assert(g[a] == st2.1[a]);
            if a < st1.1.len() {
                assert(st2.1[a] == st1.1[a]);
            }
        } else {
            if a < st1.1.len() {
                assert(g[a] == st2.1[a] && st2.1[a] == st1.1[a]);
            } else if a < st2.1.len() {
                assert(g[a] == st2.1[a]);
            }
        }
    }
}

/// Filtering by source keeps the order, so the kept targets increase.
proof fn lemma_filter_targets_increase(s: Seq<GeneratedSynapse>, j: int)
    requires
        targets_increase_per_source(s),
    ensures
        forall|a: int, b: int| 0 <= a < b < s.filter(from_source(j)).len() ==>
            (#[trigger] s.filter(from_source(j))[a]).target < (#[trigger] s.filter(from_source(j))[b]).target,
        forall|a: int| 0 <= a < s.filter(from_source(j)).len() ==> (#[trigger] s.filter(from_source(j))[a]).source == j,
    decreases s.len(),
{
    let p = from_source(j);
    reveal(Seq::filter);
    if s.len() > 0 {
        let rest = s.drop_last();
        assert(targets_increase_per_source(rest)) by {
            assert forall|a: int, b: int| 0 <= a < b < rest.len() && (#[trigger] rest[a]).source == (#[trigger] rest[b]).source
                implies rest[a].target < rest[b].target by {
                assert(rest[a] == s[a] && rest[b] == s[b]);
            }
        }
        lemma_filter_targets_increase(rest, j);
        let f = rest.filter(p);
        if p(s.last()) {
            let res = f.push(s.last());
            assert forall|a: int, b: int| 0 <= a < b < res.len() implies (#[trigger] res[a]).target < (#[trigger] res[b]).target by {
                if b == f.len() {
                    assert(res[a] == f[a]);
                    assert(f.contains(f[a]));
                    rest.lemma_filter_contains_rev(p, f[a]);
                    let i = choose|i: int| 0 <= i < rest.len() && rest[i] == f[a];
                    assert(s[i] == rest[i]);
                    assert(s[s.len() - 1] == s.last());
                    assert(s[i].source == s[s.len() - 1].source);
                }
            }
        }
    }
}

/// The generated topology is in canonical CSR form: within every row the
/// targets strictly increase, as when a dense weight matrix is read row by
/// row, so no connection appears twice.
pub proof fn lemma_generated_rows_sorted(num_inputs: nat, num_hidden: nat, num_outputs: nat, j: int)
    requires
        num_inputs + num_hidden + num_outputs <= usize::MAX,
    ensures
        ({
            let row = generation(num_inputs, num_hidden, num_outputs).filter(from_source(j));
            forall|a: int, b: int| 0 <= a < b < row.len() ==> (#[trigger] row[a]).target < (#[trigger] row[b]).target
        }),
{
    lemma_generation_order(num_inputs, num_hidden, num_outputs);
    lemma_filter_targets_increase(generation(num_inputs, num_hidden, num_outputs), j);
}

/// Advances the generator.
pub fn next_seed(seed: u32) -> (next: u32)
    ensures
        next == lcg_next(seed),
{
    seed.wrapping_mul(LCG_MULTIPLIER).wrapping_add(LCG_INCREMENT)
}

/// The 15-bit output of a generator state.
pub fn draw(seed: u32) -> (d: u32)
    ensures
        d == draw_of(seed),
        d < 32768,
{
    (seed / 65536) % 32768
}

/// The cutoff of `layer` (see `connection_cutoff`).
pub fn cutoff(layer: Layer) -> (c: u32)
    ensures
        c == connection_cutoff(layer),
{
    match layer {
        Layer::InputToHidden => 13107,
        Layer::HiddenToHidden => 26214,
        Layer::HiddenToOutput => 9831,
    }
}

/// Visits the block of candidate synapses `src_lo + r -> dst_lo + c`,
/// `r < rows`, `c < cols`, appending the chosen ones to `out`.
fn scan_block(
    seed: &mut u32,
    out: &mut Vec<GeneratedSynapse>,
    src_lo: usize,
    rows: usize,
    dst_lo: usize,
    cols: usize,
    layer: Layer,
)
    requires
        src_lo + rows <= usize::MAX,
        dst_lo + cols <= usize::MAX,
    ensures
        (*final(seed), final(out)@) == visit_block((*old(seed), old(out)@), src_lo as int, rows as nat, dst_lo as int, cols as nat, layer),
{
    let ghost init: GenState = (*seed, out@);
    let skip_self = match layer {
        Layer::HiddenToHidden => true,
        _ => false,
    };
    let c_off = cutoff(layer);
    let mut r: usize = 0;
    while r < rows
        invariant
            0 <= r <= rows,
            src_lo + rows <= usize::MAX,
            dst_lo + cols <= usize::MAX,
            skip_self == (layer == Layer::HiddenToHidden),
            c_off == connection_cutoff(layer),
            (*seed, out@) == visit_block(init, src_lo as int, r as nat, dst_lo as int, cols as nat, layer),
        decreases rows - r,
    {
        let src = src_lo + r;
        let ghost row_start: GenState = (*seed, out@);
        let mut c: usize = 0;
        while c < cols
            invariant
                0 <= c <= cols,
                r < rows,
                src == src_lo + r,
                src_lo + rows <= usize::MAX,
                dst_lo + cols <= usize::MAX,
                skip_self == (layer == Layer::HiddenToHidden),
                c_off == connection_cutoff(layer),
                row_start == visit_block(init, src_lo as int, r as nat, dst_lo as int, cols as nat, layer),
                (*seed, out@) == visit_row(row_start, src as int, dst_lo as int, c as nat, layer),
            decreases cols - c,
        {
            let dst = dst_lo + c;
            if !(skip_self && src == dst) {
                let s1 = next_seed(*seed);
                if draw(s1) >= c_off {
                    let s2 = next_seed(s1);
                    out.push(GeneratedSynapse { source: src, target: dst, draw: draw(s2), layer });
                    *seed = s2;
                } else {
                    *seed = s1;
                }
            }
            c += 1;
        }
        r += 1;
    }
}

/// Runs the generator over the three blocks of candidate synapses of a
/// network with the given dimensions and returns the chosen synapses in
/// generation order.
pub fn generate_synapses(num_inputs: usize, num_hidden: usize, num_outputs: usize) -> (synapses: Vec<GeneratedSynapse>)
    requires
        num_inputs + num_hidden + num_outputs <= usize::MAX,
    ensures
        synapses@ == generation(num_inputs as nat, num_hidden as nat, num_outputs as nat),
{
    let mut seed: u32 = GENESIS_SEED;
    let mut out: Vec<GeneratedSynapse> = Vec::new();
    let hidden = num_inputs;
    let outputs = num_inputs + num_hidden;
    scan_block(&mut seed, &mut out, 0, num_inputs, hidden, num_hidden, Layer::InputToHidden);
    scan_block(&mut seed, &mut out, hidden, num_hidden, hidden, num_hidden, Layer::HiddenToHidden);
    scan_block(&mut seed, &mut out, hidden, num_hidden, outputs, num_outputs, Layer::HiddenToOutput);
    out
}

/// Synapses laid out in CSR order: the synapses of neuron `j` are
/// `synapses[neuron_offsets[j] .. neuron_offsets[j + 1]]`.
pub struct SynapseLayout {
    pub neuron_offsets: Vec<u32>,
    pub synapses: Vec<GeneratedSynapse>,
}

/// Is the synapse's source `j`.
pub open spec fn from_source(j: int) -> spec_fn(GeneratedSynapse) -> bool {
    |g: GeneratedSynapse| g.source == j
}

impl SynapseLayout {
    /// A CSR layout over `n` neurons: `n + 1` non-decreasing offsets from 0
    /// to the synapse count, and every source and target a neuron id.
    pub open spec fn is_csr(&self, n: int) -> bool {
        let off = self.neuron_offsets@;
        &&& off.len() == n + 1
        &&& off[0] == 0
        &&& forall|i: int, j: int| 0 <= i <= j <= n ==> off[i] <= off[j]
        &&& off[n] == self.synapses@.len()
        &&& forall|k: int| 0 <= k < self.synapses@.len() ==> (#[trigger] self.synapses@[k]).target < n
        &&& forall|k: int| 0 <= k < self.synapses@.len() ==> (#[trigger] self.synapses@[k]).source < n
    }

    /// A CSR layout over `n` neurons whose rows hold, in order, the
    /// synapses of `all` leaving each neuron.
    pub open spec fn groups(&self, all: Seq<GeneratedSynapse>, n: int) -> bool {
        let off = self.neuron_offsets@;
        &&& self.is_csr(n)
        &&& self.synapses@.len() == all.len()
        &&& forall|j: int| 0 <= j < n ==>
            #[trigger] self.synapses@.subrange(off[j] as int, off[j + 1] as int) == all.filter(from_source(j))
    }
}

/// The number of synapses of `s` whose source is below `m`.
pub open spec fn count_below(s: Seq<GeneratedSynapse>, m: nat) -> nat
    decreases m,
{
    if m == 0 {
        0
    } else {
        count_below(s, (m - 1) as nat) + s.filter(from_source(m - 1)).len()
    }
}

proof fn lemma_count_below_push(s: Seq<GeneratedSynapse>, x: GeneratedSynapse, m: nat)
    ensures
        count_below(s.push(x), m) == count_below(s, m) + (if x.source < m { 1nat } else { 0nat }),
    decreases m,
{
    if m > 0 {
        lemma_count_below_push(s, x, (m - 1) as nat);
        reveal(Seq::filter);
        assert(s.push(x).drop_last() =~= s);
        let p = from_source(m - 1);
        assert(s.push(x).filter(p) == if p(x) { s.filter(p).push(x) } else { s.filter(p) });
    }
}

/// Every synapse with a source below `n` is counted exactly once.
proof fn lemma_count_below_all(s: Seq<GeneratedSynapse>, n: nat)
    requires
        forall|k: int| 0 <= k < s.len() ==> (#[trigger] s[k]).source < n,
    ensures
        count_below(s, n) == s.len(),
    decreases s.len(),
{
    if s.len() == 0 {
        lemma_count_below_empty(s, n);
    } else {
        let t = s.drop_last();
        lemma_count_below_all(t, n);
        assert(t.push(s.last()) =~= s);
        lemma_count_below_push(t, s.last(), n);
    }
}

proof fn lemma_count_below_empty(s: Seq<GeneratedSynapse>, m: nat)
    requires
        s.len() == 0,
    ensures
        count_below(s, m) == 0,
    decreases m,
{
    if m > 0 {
        lemma_count_below_empty(s, (m - 1) as nat);
        reveal(Seq::filter);
    }
}

proof fn lemma_count_below_monotone(s: Seq<GeneratedSynapse>, a: nat, b: nat)
    requires
        a <= b,
    ensures
        count_below(s, a) <= count_below(s, b),
    decreases b,
{
    if a < b {
        lemma_count_below_monotone(s, a, (b - 1) as nat);
    }
}

/// Groups `synapses` by source neuron, keeping their order within each
/// source, into a CSR layout over `n` neurons.
pub fn group_by_source(synapses: &Vec<GeneratedSynapse>, n: usize) -> (layout: SynapseLayout)
    requires
        synapses.len() <= u32::MAX,
        forall|k: int| 0 <= k < synapses.len() ==> (#[trigger] synapses@[k]).source < n,
        forall|k: int| 0 <= k < synapses.len() ==> (#[trigger] synapses@[k]).target < n,
    ensures
        layout.groups(synapses@, n as int),
{
    let len = synapses.len();
    let ghost s = synapses@;
    proof {
        lemma_count_below_all(s, n as nat);
    }
    let mut out: Vec<GeneratedSynapse> = Vec::new();
    let mut offsets: Vec<u32> = Vec::new();
    offsets.push(0);
    let mut j: usize = 0;
    while j < n
        invariant
            0 <= j <= n,
            len == s.len(),
            s == synapses@,
            len <= u32::MAX,
            count_below(s, n as nat) == len,
            forall|k: int| 0 <= k < len ==> (#[trigger] s[k]).source < n,
            forall|k: int| 0 <= k < len ==> (#[trigger] s[k]).target < n,
            offsets@.len() == j + 1,
            offsets@[0] == 0,
            offsets@[j as int] == out@.len(),
            out@.len() == count_below(s, j as nat),
            forall|a: int, b: int| 0 <= a <= b <= j ==> offsets@[a] <= offsets@[b],
            forall|k: int| 0 <= k < out@.len() ==> (#[trigger] out@[k]).target < n,
            forall|k: int| 0 <= k < out@.len() ==> (#[trigger] out@[k]).source < n,
            forall|r: int| 0 <= r < j ==>
                #[trigger] out@.subrange(offsets@[r] as int, offsets@[r + 1] as int) == s.filter(from_source(r)),
        decreases n - j,
    {
        let ghost base = out@;
        let ghost p = from_source(j as int);
        proof {
            reveal(Seq::filter);
            assert(s.take(0) =~= Seq::<GeneratedSynapse>::empty());
            assert(base =~= base + s.take(0).filter(p));
        }
        let mut i: usize = 0;
        while i < len
            invariant
                0 <= i <= len,
                j < n,
                len == s.len(),
                s == synapses@,
                p == from_source(j as int),
                forall|k: int| 0 <= k < len ==> (#[trigger] s[k]).source < n,
                forall|k: int| 0 <= k < len ==> (#[trigger] s[k]).target < n,
                out@ == base + s.take(i as int).filter(p),
                forall|k: int| 0 <= k < out@.len() ==> (#[trigger] out@[k]).target < n,
                forall|k: int| 0 <= k < out@.len() ==> (#[trigger] out@[k]).source < n,
            decreases len - i,
        {
            let g = synapses[i];
            proof {
                reveal(Seq::filter);
                assert(s.take(i + 1).drop_last() =~= s.take(i as int));
                assert(s.take(i + 1).last() == g);
                assert(s.take(i + 1).filter(p) == if p(g) {
                    s.take(i as int).filter(p).push(g)
                } else {
                    s.take(i as int).filter(p)
                });
            }
            if g.source == j {
                out.push(g);
                assert(base + s.take(i + 1).filter(p) =~= (base + s.take(i as int).filter(p)).push(g));
            }
            i += 1;
        }
        proof {
            assert(s.take(len as int) =~= s);
            lemma_count_below_monotone(s, (j + 1) as nat, n as nat);
            assert(out@.len() == count_below(s, (j + 1) as nat));
        }
        let ghost prev = offsets@;
        offsets.push(out.len() as u32);
        proof {
            assert(out@.subrange(base.len() as int, out@.len() as int) =~= s.filter(p));
            assert forall|r: int| 0 <= r < j + 1 implies
                #[trigger] out@.subrange(offsets@[r] as int, offsets@[r + 1] as int) == s.filter(from_source(r)) by {
                if r < j {
                    assert(prev[r + 1] <= prev[j as int]);
                    assert(out@.subrange(offsets@[r] as int, offsets@[r + 1] as int)
                        =~= base.subrange(prev[r] as int, prev[r + 1] as int));
                }
            }
        }
        j += 1;
    }
    SynapseLayout { neuron_offsets: offsets, synapses: out }
}

/// Generates the initial topology of a network with the given dimensions:
/// the chosen synapses (see `generation`) grouped by source neuron.
pub fn generate_topology(num_inputs: usize, num_hidden: usize, num_outputs: usize) -> (layout: SynapseLayout)
    requires
        num_inputs + num_hidden + num_outputs <= usize::MAX,
        num_inputs * num_hidden + num_hidden * num_hidden + num_hidden * num_outputs <= u32::MAX,
    ensures
        layout.groups(
            generation(num_inputs as nat, num_hidden as nat, num_outputs as nat),
            (num_inputs + num_hidden + num_outputs) as int,
        ),
{
    let n = num_inputs + num_hidden + num_outputs;
    let synapses = generate_synapses(num_inputs, num_hidden, num_outputs);
    proof {
        lemma_generation_layered(num_inputs as nat, num_hidden as nat, num_outputs as nat);
    }
    group_by_source(&synapses, n)
}

impl FastBrain {
    /// Assembles a network at rest from a synapse layout and one weight per
    /// synapse: inputs get threshold 0 and every other neuron threshold 1.0,
    /// potentials, biases and traces are 0, no neuron has spiked, the leak
    /// factor is 0.85 and the learning parameters are tau 20, rates 0.005 and
    /// 0.006.
    pub fn with_synapses(
        num_inputs: usize,
        num_hidden: usize,
        num_outputs: usize,
        layout: SynapseLayout,
        synapse_weights: Vec<u32>,
    ) -> (brain: FastBrain)
        requires
            num_inputs + num_hidden + num_outputs < u32::MAX,
            layout.is_csr((num_inputs + num_hidden + num_outputs) as int),
            synapse_weights.len() == layout.synapses.len(),
        ensures
            brain.wf(),
            brain.num_inputs == num_inputs,
            brain.num_hidden == num_hidden,
            brain.num_outputs == num_outputs,
            brain.active_neurons == num_inputs + num_hidden + num_outputs,
            forall|i: int| 0 <= i < brain.active_neurons ==>
                #[trigger] brain.thresholds@[i] == if i < num_inputs { ZERO_BITS } else { ONE_BITS },
            forall|i: int| 0 <= i < brain.active_neurons ==> {
                &&& #[trigger] brain.activations@[i] == ZERO_BITS
                &&& brain.biases@[i] == ZERO_BITS
                &&& brain.inputs_accumulated@[i] == ZERO_BITS
                &&& brain.pre_traces@[i] == ZERO_BITS
                &&& brain.post_traces@[i] == ZERO_BITS
                &&& !brain.last_spikes@[i]
                &&& !brain.current_spikes@[i]
            },
            brain.decay == DEFAULT_DECAY_BITS,
            brain.stdp_tau_pre == DEFAULT_STDP_TAU_BITS,
            brain.stdp_tau_post == DEFAULT_STDP_TAU_BITS,
            brain.stdp_a_plus == DEFAULT_STDP_A_PLUS_BITS,
            brain.stdp_a_minus == DEFAULT_STDP_A_MINUS_BITS,
            brain.neuron_offsets@ == layout.neuron_offsets@,
            brain.synapse_weights@ == synapse_weights@,
            brain.synapse_targets@.len() == layout.synapses@.len(),
            forall|k: int| 0 <= k < layout.synapses@.len() ==>
                #[trigger] brain.synapse_targets@[k] == layout.synapses@[k].target,
    {
        let n = num_inputs + num_hidden + num_outputs;
        let mut thresholds: Vec<u32> = Vec::with_capacity(n);
        let mut i: usize = 0;
        while i < n
            invariant
                0 <= i <= n,
                thresholds@.len() == i,
                forall|k: int| 0 <= k < i ==> #[trigger] thresholds@[k] == if k < num_inputs { ZERO_BITS } else { ONE_BITS },
            decreases n - i,
        {
            thresholds.push(if i < num_inputs { ZERO_BITS } else { ONE_BITS });
            i += 1;
        }
        let len = layout.synapses.len();
        let mut targets: Vec<u32> = Vec::with_capacity(len);
        let mut k: usize = 0;
        while k < len
            invariant
                0 <= k <= len,
                len == layout.synapses@.len(),
                n < u32::MAX,
                layout.is_csr(n as int),
                targets@.len() == k,
                forall|q: int| 0 <= q < k ==> #[trigger] targets@[q] == layout.synapses@[q].target,
            decreases len - k,
        {
            let t = layout.synapses[k].target;
            targets.push(t as u32);
            k += 1;
        }
        let brain = FastBrain {
            num_inputs,
            num_hidden,
            num_outputs,
            active_neurons: n,
            activations: zeros(n),
            thresholds,
            biases: zeros(n),
            decay: DEFAULT_DECAY_BITS,
            last_spikes: falses(n),
            current_spikes: falses(n),
            inputs_accumulated: zeros(n),
            synapse_weights,
            synapse_targets: targets,
            neuron_offsets: layout.neuron_offsets,
            pre_traces: zeros(n),
            post_traces: zeros(n),
            stdp_tau_pre: DEFAULT_STDP_TAU_BITS,
            stdp_tau_post: DEFAULT_STDP_TAU_BITS,
            stdp_a_plus: DEFAULT_STDP_A_PLUS_BITS,
            stdp_a_minus: DEFAULT_STDP_A_MINUS_BITS,
        };
        assert(csr_wf(brain.neuron_offsets@, brain.synapse_targets@, n as int));
        brain
    }
}

} // verus!
