//! A circular replay buffer of recorded frames (sensor inputs, actions and
//! reward), stored in flat pre-allocated arrays.
use vstd::prelude::*;

verus! {

/// Circular buffer of `capacity` frames. Frame slot `s` holds its inputs at
/// `inputs[s * num_inputs ..][.. num_inputs]`, its actions at
/// `actions[s * num_outputs ..][.. num_outputs]` and its reward at
/// `rewards[s]`. Values are single-precision bit patterns.
#[derive(Clone, Debug)]
pub struct PhantomReplayBuffer {
    pub inputs: Vec<u32>,
    pub actions: Vec<u32>,
    pub rewards: Vec<u32>,
    pub num_inputs: usize,
    pub num_outputs: usize,
    pub capacity: usize,
    /// Slot the next frame goes to.
    pub write_idx: usize,
    /// Number of frames held (at most `capacity`).
    pub count: usize,
}

/// `new` holds `old` with the `width` entries from `start` replaced by `part`.
pub open spec fn overwrites(new: Seq<u32>, old: Seq<u32>, start: int, width: int, part: Seq<u32>) -> bool {
    &&& new.len() == old.len()
    &&& part.len() == width
    &&& forall|k: int| 0 <= k < width ==> #[trigger] new[start + k] == part[k]
    &&& forall|k: int| 0 <= k < new.len() && !(start <= k < start + width) ==> #[trigger] new[k] == old[k]
}

/// A recorded frame: (inputs, actions, reward).
pub type Frame = (Seq<u32>, Seq<u32>, u32);

/// The last `cap` frames of `frames` (all of them when there are fewer).
pub open spec fn keep_recent(frames: Seq<Frame>, cap: nat) -> Seq<Frame> {
    if frames.len() > cap { frames.subrange(frames.len() - cap, frames.len() as int) } else { frames }
}

/// Keeping the recent frames after every new frame is the same as keeping
/// the recent frames of the whole history: a buffer fed frame by frame
/// holds the last `cap` frames ever recorded, oldest first.
pub proof fn lemma_keep_recent_push(frames: Seq<Frame>, f: Frame, cap: nat)
    requires
        cap > 0,
    ensures
        keep_recent(keep_recent(frames, cap).push(f), cap) == keep_recent(frames.push(f), cap),
{
    let k = keep_recent(frames, cap);
    if frames.len() > cap {
        assert(keep_recent(k.push(f), cap) =~= keep_recent(frames.push(f), cap));
    } else {
        assert(k == frames);
    }
}

proof fn lemma_mod_window(a: int, cap: int)
    requires
        0 <= a < 2 * cap,
        cap > 0,
    ensures
        a % cap == if a < cap { a } else { a - cap },
{
    if a < cap {
        assert(a % cap == a) by (nonlinear_arith)
            requires 0 <= a < cap;
    } else {
        assert(a % cap == a - cap) by (nonlinear_arith)
            requires cap <= a < 2 * cap;
    }
}

proof fn lemma_slots_disjoint(s: int, w: int, width: int)
    requires
        0 <= s,
        0 <= w,
        s != w,
        0 <= width,
    ensures
        s * width + width <= w * width || w * width + width <= s * width,
{
    if s < w {
        assert(s * width + width <= w * width) by (nonlinear_arith)
            requires s < w, 0 <= width;
    } else {
        assert(w * width + width <= s * width) by (nonlinear_arith)
            requires w < s, 0 <= width;
    }
}

impl PhantomReplayBuffer {
    /// The frame stored in `slot`.
    pub open spec fn frame_at(&self, slot: int) -> Frame {
        let ni = self.num_inputs as int;
        let no = self.num_outputs as int;
        (
            self.inputs@.subrange(slot * ni, slot * ni + ni),
            self.actions@.subrange(slot * no, slot * no + no),
            self.rewards@[slot],
        )
    }

    /// The frames held, from oldest to newest.
    pub open spec fn chronology(&self) -> Seq<Frame> {
        Seq::new(self.count as nat, |t: int| self.frame_at((self.oldest_slot() + t) % (self.capacity as int)))
    }

    /// Array sizes match the dimensions, the write slot is inside the
    /// buffer (0 when it has no slot), at most `capacity` frames are held,
    /// and until the buffer is full the next slot is the number of frames.
    pub open spec fn wf(&self) -> bool {
        &&& self.inputs.len() == self.capacity * self.num_inputs
        &&& self.actions.len() == self.capacity * self.num_outputs
        &&& self.rewards.len() == self.capacity
        &&& (self.capacity == 0 ==> self.write_idx == 0)
        &&& (self.capacity > 0 ==> self.write_idx < self.capacity)
        &&& self.count <= self.capacity
        &&& (self.count < self.capacity ==> self.write_idx == self.count)
    }

    /// Slot of the oldest frame held; frames sit in slots
    /// `oldest, oldest + 1, ...` (modulo `capacity`) from oldest to newest.
    pub open spec fn oldest_slot(&self) -> int {
        if self.count < self.capacity { 0 } else { self.write_idx as int }
    }

    /// An empty buffer of `capacity` zeroed frames.
    pub fn new(num_inputs: usize, num_outputs: usize, capacity: usize) -> (buffer: PhantomReplayBuffer)
        requires
            capacity * num_inputs <= usize::MAX,
            capacity * num_outputs <= usize::MAX,
        ensures
            buffer.wf(),
            buffer.num_inputs == num_inputs,
            buffer.num_outputs == num_outputs,
            buffer.capacity == capacity,
            buffer.write_idx == 0,
            buffer.count == 0,
            buffer.chronology() == Seq::<Frame>::empty(),
            forall|k: int| 0 <= k < buffer.inputs@.len() ==> buffer.inputs@[k] == 0,
            forall|k: int| 0 <= k < buffer.actions@.len() ==> buffer.actions@[k] == 0,
            forall|k: int| 0 <= k < buffer.rewards@.len() ==> buffer.rewards@[k] == 0,
    {
        PhantomReplayBuffer {
            inputs: zeroed(capacity * num_inputs),
            actions: zeroed(capacity * num_outputs),
            rewards: zeroed(capacity),
            num_inputs,
            num_outputs,
            capacity,
            write_idx: 0,
            count: 0,
        }
    }

    /// Records a frame in the next slot, overwriting the oldest frame once
    /// the buffer is full. A frame whose input or action length does not
    /// match the buffer's dimensions is ignored.
    pub fn add_frame(&mut self, input: &[u32], action: &[u32], reward: u32)
        requires
            old(self).wf(),
            input@.len() == old(self).num_inputs && action@.len() == old(self).num_outputs
                ==> old(self).capacity > 0,
        ensures
            final(self).wf(),
            final(self).num_inputs == old(self).num_inputs,
            final(self).num_outputs == old(self).num_outputs,
            final(self).capacity == old(self).capacity,
            !(input@.len() == old(self).num_inputs && action@.len() == old(self).num_outputs)
                ==> *final(self) == *old(self),
            input@.len() == old(self).num_inputs && action@.len() == old(self).num_outputs ==> {
                let slot = old(self).write_idx as int;
                &&& overwrites(final(self).inputs@, old(self).inputs@, slot * old(self).num_inputs, old(self).num_inputs as int, input@)
                &&& overwrites(final(self).actions@, old(self).actions@, slot * old(self).num_outputs, old(self).num_outputs as int, action@)
                &&& final(self).rewards@ == old(self).rewards@.update(slot, reward)
                &&& final(self).write_idx == (old(self).write_idx + 1) % (old(self).capacity as int)
                &&& final(self).count == if old(self).count < old(self).capacity { old(self).count + 1 } else { old(self).count as int }
                &&& final(self).chronology() == keep_recent(
                    old(self).chronology().push((input@, action@, reward)),
                    old(self).capacity as nat,
                )
            },
    {
        if input.len() != self.num_inputs || action.len() != self.num_outputs {
            return;
        }
        let idx = self.write_idx;
        let ni = self.num_inputs;
        let no = self.num_outputs;
        proof {
            let cap = self.capacity as int;
            assert((idx + 1) * ni <= cap * ni) by (nonlinear_arith)
                requires idx + 1 <= cap, 0 <= ni;
            assert((idx + 1) * no <= cap * no) by (nonlinear_arith)
                requires idx + 1 <= cap, 0 <= no;
            assert((idx + 1) * ni == idx * ni + ni) by (nonlinear_arith);
            assert((idx + 1) * no == idx * no + no) by (nonlinear_arith);
        }
        let input_start = idx * ni;
        copy_into(&mut self.inputs, input_start, input);
        let action_start = idx * no;
        copy_into(&mut self.actions, action_start, action);
        self.rewards.set(idx, reward);
        self.write_idx = (idx + 1) % self.capacity;
        if self.count < self.capacity {
            self.count = self.count + 1;
        }
        proof {
            let cap = self.capacity as int;
            let i = idx as int;
            if i + 1 < cap {
                assert((i + 1) % cap == i + 1) by (nonlinear_arith)
                    requires 0 <= i, i + 1 < cap;
            } else {
                assert((i + 1) % cap == 0) by (nonlinear_arith)
                    requires i + 1 == cap, cap > 0;
            }
            lemma_record_chronology(*old(self), *self, input@, action@, reward);
        }
    }

    /// Empties the buffer and zeroes every stored value.
    pub fn reset(&mut self)
        ensures
            final(self).num_inputs == old(self).num_inputs,
            final(self).num_outputs == old(self).num_outputs,
            final(self).capacity == old(self).capacity,
            final(self).inputs@.len() == old(self).inputs@.len(),
            final(self).actions@.len() == old(self).actions@.len(),
            final(self).rewards@.len() == old(self).rewards@.len(),
            forall|k: int| 0 <= k < final(self).inputs@.len() ==> final(self).inputs@[k] == 0,
            forall|k: int| 0 <= k < final(self).actions@.len() ==> final(self).actions@[k] == 0,
            forall|k: int| 0 <= k < final(self).rewards@.len() ==> final(self).rewards@[k] == 0,
            final(self).write_idx == 0,
            final(self).count == 0,
            final(self).chronology() == Seq::<Frame>::empty(),
            old(self).wf() ==> final(self).wf(),
    {
        fill_zero(&mut self.inputs);
        fill_zero(&mut self.actions);
        fill_zero(&mut self.rewards);
        self.write_idx = 0;
        self.count = 0;
    }
}

/// The chronological view after one recorded frame: the new frame is the
/// newest, and once the buffer is full the oldest frame drops out.
proof fn lemma_record_chronology(
    old: PhantomReplayBuffer,
    new: PhantomReplayBuffer,
    input: Seq<u32>,
    action: Seq<u32>,
    reward: u32,
)
    requires
        old.wf(),
        new.wf(),
        old.capacity > 0,
        new.num_inputs == old.num_inputs,
        new.num_outputs == old.num_outputs,
        new.capacity == old.capacity,
        overwrites(new.inputs@, old.inputs@, old.write_idx * old.num_inputs, old.num_inputs as int, input),
        overwrites(new.actions@, old.actions@, old.write_idx * old.num_outputs, old.num_outputs as int, action),
        new.rewards@ == old.rewards@.update(old.write_idx as int, reward),
        new.write_idx == (old.write_idx + 1) % (old.capacity as int),
        new.count == if old.count < old.capacity { old.count + 1 } else { old.count as int },
    ensures
        new.chronology() == keep_recent(old.chronology().push((input, action, reward)), old.capacity as nat),
{
    let cap = old.capacity as int;
    let w = old.write_idx as int;
    let ni = old.num_inputs as int;
    let no = old.num_outputs as int;
    let f: Frame = (input, action, reward);
    let want = keep_recent(old.chronology().push(f), cap as nat);
    assert(w * ni + ni <= cap * ni) by (nonlinear_arith)
        requires w < cap, 0 <= ni;
    assert(w * no + no <= cap * no) by (nonlinear_arith)
        requires w < cap, 0 <= no;
    // Slots other than the written one keep their frame.
    assert forall|slot: int| 0 <= slot < cap && slot != w implies #[trigger] new.frame_at(slot) == old.frame_at(slot) by {
        lemma_slots_disjoint(slot, w, ni);
        lemma_slots_disjoint(slot, w, no);
        assert(slot * ni + ni <= cap * ni) by (nonlinear_arith)
            requires slot < cap, 0 <= ni;
        assert(slot * no + no <= cap * no) by (nonlinear_arith)
            requires slot < cap, 0 <= no;
        assert(new.frame_at(slot).0 =~= old.frame_at(slot).0);
        assert(new.frame_at(slot).1 =~= old.frame_at(slot).1);
    }
    // The written slot holds the new frame.
    assert forall|k: int| 0 <= k < ni implies #[trigger] new.frame_at(w).0[k] == input[k] by {
        assert(new.inputs@[old.write_idx * old.num_inputs + k] == input[k]);
    }
    assert forall|k: int| 0 <= k < no implies #[trigger] new.frame_at(w).1[k] == action[k] by {
        assert(new.actions@[old.write_idx * old.num_outputs + k] == action[k]);
    }
    assert(new.frame_at(w).0 =~= input);
    assert(new.frame_at(w).1 =~= action);
    assert(new.frame_at(w) == f);
    if old.count < old.capacity {
        assert(w == old.count);
        assert(new.oldest_slot() == 0) by {
            if new.count == cap {
                lemma_mod_window(w + 1, cap);
            }
        }
        assert forall|t: int| 0 <= t < new.count implies #[trigger] new.chronology()[t] == want[t] by {
            lemma_mod_window(t, cap);
            if t < w {
                lemma_mod_window(0 + t, cap);
                assert(old.chronology()[t] == old.frame_at(t));
            }
        }
        assert(new.chronology() =~= want);
    } else {
        assert(old.oldest_slot() == w);
        lemma_mod_window(w + 1, cap);
        assert forall|t: int| 0 <= t < new.count implies #[trigger] new.chronology()[t] == want[t] by {
            let slot = (w + 1 + t) % cap;
            lemma_mod_window(w + 1 + t, cap);
            lemma_mod_window(new.write_idx + t, cap);
            assert((new.oldest_slot() + t) % cap == slot);
            if t < cap - 1 {
                lemma_mod_window(w + (t + 1), cap);
                assert(want[t] == old.chronology()[t + 1]);
                assert(old.chronology()[t + 1] == old.frame_at(slot));
                assert(slot != w);
            } else {
                assert(slot == w);
            }
        }
        assert(new.chronology() =~= want);
    }
}

/// `n` zeros.
fn zeroed(n: usize) -> (v: Vec<u32>)
    ensures
        v@.len() == n,
        forall|k: int| 0 <= k < n ==> v@[k] == 0,
{
    let mut v: Vec<u32> = Vec::with_capacity(n);
    let mut i: usize = 0;
    while i < n
        invariant
            0 <= i <= n,
            v@.len() == i,
            forall|k: int| 0 <= k < i ==> v@[k] == 0,
        decreases n - i,
    {
        v.push(0);
        i += 1;
    }
    v
}

/// Sets every entry of `v` to zero.
fn fill_zero(v: &mut Vec<u32>)
    ensures
        final(v)@.len() == old(v)@.len(),
        forall|k: int| 0 <= k < final(v)@.len() ==> final(v)@[k] == 0,
{
    let mut i: usize = 0;
    while i < v.len()
        invariant
            0 <= i <= v@.len(),
            v@.len() == old(v)@.len(),
            forall|k: int| 0 <= k < i ==> v@[k] == 0,
        decreases v@.len() - i,
    {
        v.set(i, 0);
        i += 1;
    }
}

/// Copies `part` into `dest` from index `start`.
fn copy_into(dest: &mut Vec<u32>, start: usize, part: &[u32])
    requires
        start + part@.len() <= old(dest)@.len(),
        old(dest)@.len() <= usize::MAX,
    ensures
        overwrites(final(dest)@, old(dest)@, start as int, part@.len() as int, part@),
{
    let mut k: usize = 0;
    while k < part.len()
        invariant
            0 <= k <= part@.len(),
            start + part@.len() <= dest@.len(),
            dest@.len() == old(dest)@.len(),
            old(dest)@.len() <= usize::MAX,
            forall|q: int| 0 <= q < k ==> #[trigger] dest@[start + q] == part@[q],
            forall|q: int| 0 <= q < dest@.len() && !(start <= q < start + k) ==> #[trigger] dest@[q] == old(dest)@[q],
        decreases part@.len() - k,
    {
        dest.set(start + k, part[k]);
        k += 1;
    }
}

} // verus!
