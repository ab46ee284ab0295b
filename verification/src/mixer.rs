//! Multi-source mixer.
//!
//! An `AudioBuffer` maps each source id to its own ring buffer, admitting
//! unknown sources automatically with one uniform configuration, and fans
//! the sources into one output stream: reads are gated on the slowest live
//! source while warming-up and idle sources are skipped.

use crate::audio::{AudioData, PeekState, RingBuffer, RingView};
use vstd::prelude::*;

verus! {

/// One admitted source: its id and its ring buffer.
pub struct RingEntry {
    pub id: u16,
    pub ring: RingBuffer,
}

/// Mathematical state of a mixer: the uniform ring configuration and the
/// admitted sources in admission order.
pub ghost struct MixerView {
    /// Ring capacity every admitted source gets.
    pub buf_len: u32,
    /// Jitter reserve every admitted source gets; also the straggler budget
    /// of the read gate.
    pub spare: u64,
    /// Idle threshold every admitted source gets, in milliseconds.
    pub idle_threshold: u32,
    /// Admitted sources in admission order: id and ring state.
    pub rings: Seq<(u16, RingView)>,
}

impl MixerView {
    /// The ring state a newly admitted source starts from.
    pub open spec fn fresh_ring(self) -> RingView {
        RingView {
            cells: Seq::new(self.buf_len as nat, |i: int| 0i16),
            next: 0,
            min: 0,
            max: 0,
            spare: self.spare,
            idle_threshold: self.idle_threshold,
            last_update: 0,
        }
    }

    /// Index of the source `id` among the admitted rings, or -1 if it has
    /// not been admitted yet.
    pub open spec fn ring_index_of(rings: Seq<(u16, RingView)>, id: u16) -> int
        decreases rings.len(),
    {
        if rings.len() == 0 {
            -1
        } else if rings[0].0 == id {
            0
        } else {
            let rest = Self::ring_index_of(rings.drop_first(), id);
            if rest < 0 {
                -1
            } else {
                rest + 1
            }
        }
    }

    /// What the availability sweep computes, ring by ring in admission
    /// order: whether some started source is behind (`Behind`), and the
    /// running minimum of the `Avail` counts, with 0 standing for "none
    /// reported yet".
    pub open spec fn gate_fold(
        rings: Seq<(u16, RingView)>,
        target_len: u64,
        now: u64,
    ) -> (bool, u64)
        decreases rings.len(),
    {
        if rings.len() == 0 {
            (false, 0u64)
        } else {
            let prev = Self::gate_fold(rings.drop_last(), target_len, now);
            match rings.last().1.peek_model(target_len, now) {
                PeekState::Behind => (true, prev.1),
                PeekState::Avail(v) => (
                    prev.0,
                    if prev.1 == 0 || v < prev.1 {
                        v
                    } else {
                        prev.1
                    },
                ),
                _ => prev,
            }
        }
    }

    /// The read gate holds the mixer back: some started source is behind
    /// and the slowest available source is still within the jitter budget,
    /// so the mixer waits rather than substitute silence.
    pub open spec fn blocked(self, target_len: u64, now: u64) -> bool {
        let g = Self::gate_fold(self.rings, target_len, now);
        g.0 && g.1 < self.spare
    }

    /// Some ring yields a read of `target_len` samples.
    pub open spec fn any_reads(rings: Seq<(u16, RingView)>, target_len: u64) -> bool {
        exists|i: int| 0 <= i < rings.len() && (#[trigger] rings[i]).1.can_read(target_len)
    }

    /// Sample `j` of the mixed output: the sum, over every ring that yields
    /// a read, of its `j`-th sample divided by the scaling divisor `s`.
    pub open spec fn mix_fold(rings: Seq<(u16, RingView)>, target_len: u64, j: int, s: int) -> int
        decreases rings.len(),
    {
        if rings.len() == 0 {
            0
        } else {
            Self::mix_fold(rings.drop_last(), target_len, j, s) + (
            if rings.last().1.can_read(target_len) {
                scale_spec(rings.last().1.read_seq(target_len)[j] as int, s)
            } else {
                0
            })
        }
    }

    /// State of the rings after a mixed read: every ring that yields is
    /// consumed, the others are untouched.
    pub open spec fn consume_all(
        rings: Seq<(u16, RingView)>,
        target_len: u64,
    ) -> Seq<(u16, RingView)> {
        Seq::new(
            rings.len(),
            |i: int|
                if rings[i].1.can_read(target_len) {
                    (rings[i].0, rings[i].1.consume_model(target_len))
                } else {
                    rings[i]
                },
        )
    }

    /// Structural well-formedness: every ring is well formed and carries
    /// the mixer's uniform configuration, and source ids are unique.
    pub open spec fn wf(self) -> bool {
        &&& (self.spare as int) < self.buf_len
        &&& forall|i: int|
            0 <= i < self.rings.len() ==> {
                &&& (#[trigger] self.rings[i]).1.wf()
                &&& self.rings[i].1.cells.len() == self.buf_len
                &&& self.rings[i].1.spare == self.spare
                &&& self.rings[i].1.idle_threshold == self.idle_threshold
            }
        &&& forall|i: int, j: int|
            0 <= i < j < self.rings.len() ==> (#[trigger] self.rings[i]).0 != (
            #[trigger] self.rings[j]).0
    }
}

/// Division of one sample by the scaling divisor, rounding toward zero as
/// machine division of samples does.
pub open spec fn scale_spec(v: int, s: int) -> int {
    if v >= 0 {
        v / s
    } else {
        -((-v) / s)
    }
}

/// A scaled sample is bounded by `32768 / s` in magnitude.
proof fn lemma_scale_bound(v: int, s: int)
    requires
        -32768 <= v <= 32767,
        1 <= s,
    ensures
        -(32768int / s) <= scale_spec(v, s) <= 32768int / s,
{
    if v >= 0 {
        vstd::arithmetic::div_mod::lemma_div_pos_is_pos(v, s);
        vstd::arithmetic::div_mod::lemma_div_is_ordered(v, 32768, s);
    } else {
        vstd::arithmetic::div_mod::lemma_div_pos_is_pos(-v, s);
        vstd::arithmetic::div_mod::lemma_div_is_ordered(-v, 32768, s);
    }
}

/// The mixed sum over `n` rings is bounded by `n * (32768 / s)` in
/// magnitude.
proof fn lemma_mix_fold_bound(rings: Seq<(u16, RingView)>, target_len: u64, j: int, s: int)
    requires
        1 <= s,
    ensures
        -(rings.len() * (32768int / s)) <= MixerView::mix_fold(rings, target_len, j, s) <= rings.len()
            * (32768int / s),
    decreases rings.len(),
{
    let q = 32768int / s;
    vstd::arithmetic::div_mod::lemma_div_pos_is_pos(32768, s);
    if rings.len() == 0 {
    } else {
        lemma_mix_fold_bound(rings.drop_last(), target_len, j, s);
        let v = rings.last().1.read_seq(target_len)[j] as int;
        lemma_scale_bound(v, s);
        assert((rings.len() - 1) * q + q == rings.len() * q) by (nonlinear_arith);
    }
}

/// With `n + 1` as the scaling divisor, the mixed sum over `n` rings fits
/// in a 16-bit sample: `n * (32768 / (n + 1)) <= 32767`.
proof fn lemma_mix_total_fits(n: int)
    requires
        0 <= n,
    ensures
        0 <= n * (32768int / (n + 1)) <= 32767,
{
    let s = n + 1;
    let q = 32768int / s;
    vstd::arithmetic::div_mod::lemma_div_pos_is_pos(32768, s);
    vstd::arithmetic::div_mod::lemma_fundamental_div_mod(32768, s);
    vstd::arithmetic::div_mod::lemma_mod_division_less_than_divisor(32768, s);
    assert(s * q <= 32768);
    assert(n * q == s * q - q) by (nonlinear_arith)
        requires
            s == n + 1,
    ;
    assert(n * q >= 0) by (nonlinear_arith)
        requires
            n >= 0 && q >= 0,
    ;
    if q == 0 {
        assert(n * q == 0) by (nonlinear_arith)
            requires
                q == 0,
        ;
    }
}

/// Extending the availability sweep by one ring folds that ring's peek
/// report into the running pair.
proof fn lemma_gate_fold_step(rings: Seq<(u16, RingView)>, target_len: u64, now: u64, k: int)
    requires
        0 <= k < rings.len(),
    ensures
        MixerView::gate_fold(rings.take(k + 1), target_len, now) == ({
            let prev = MixerView::gate_fold(rings.take(k), target_len, now);
            match rings[k].1.peek_model(target_len, now) {
                PeekState::Behind => (true, prev.1),
                PeekState::Avail(v) => (
                    prev.0,
                    if prev.1 == 0 || v < prev.1 {
                        v
                    } else {
                        prev.1
                    },
                ),
                _ => prev,
            }
        }),
{
    assert(rings.take(k + 1).drop_last() =~= rings.take(k));
    assert(rings.take(k + 1).last() == rings[k]);
}

/// Extending the mixing sweep by one ring adds that ring's scaled sample
/// when it yields and nothing when it does not.
proof fn lemma_mix_fold_step(rings: Seq<(u16, RingView)>, target_len: u64, j: int, s: int, k: int)
    requires
        0 <= k < rings.len(),
    ensures
        MixerView::mix_fold(rings.take(k + 1), target_len, j, s) == MixerView::mix_fold(
            rings.take(k),
            target_len,
            j,
            s,
        ) + (
        if rings[k].1.can_read(target_len) {
            scale_spec(rings[k].1.read_seq(target_len)[j] as int, s)
        } else {
            0
        }),
{
    assert(rings.take(k + 1).drop_last() =~= rings.take(k));
    assert(rings.take(k + 1).last() == rings[k]);
}

/// Extending the sweep by one ring makes a read available exactly when one
/// was available before or the new ring yields.
proof fn lemma_any_reads_step(rings: Seq<(u16, RingView)>, target_len: u64, k: int)
    requires
        0 <= k < rings.len(),
    ensures
        MixerView::any_reads(rings.take(k + 1), target_len) == (MixerView::any_reads(
            rings.take(k),
            target_len,
        ) || rings[k].1.can_read(target_len)),
{
    let a = rings.take(k + 1);
    let b = rings.take(k);
    assert(a[k] == rings[k]);
    if MixerView::any_reads(b, target_len) {
        let i = choose|i: int| 0 <= i < b.len() && (#[trigger] b[i]).1.can_read(target_len);
        assert(a[i] == b[i]);
        assert(MixerView::any_reads(a, target_len));
    }
    if rings[k].1.can_read(target_len) {
        assert(MixerView::any_reads(a, target_len));
    }
    if MixerView::any_reads(a, target_len) && !rings[k].1.can_read(target_len) {
        let i = choose|i: int| 0 <= i < a.len() && (#[trigger] a[i]).1.can_read(target_len);
        assert(i < k);
        assert(b[i] == a[i]);
        assert(MixerView::any_reads(b, target_len));
    }
}

/// Fan-in of all admitted sources: a mapping from source id to ring buffer
/// with uniform configuration, automatic admission on first store, and a
/// gated mixed read.
pub struct AudioBuffer {
    buf_len: u32,
    spare: u64,
    idle_threshold: u32,
    rings: Vec<RingEntry>,
}

impl View for AudioBuffer {
    type V = MixerView;

    closed spec fn view(&self) -> MixerView {
        MixerView {
            buf_len: self.buf_len,
            spare: self.spare,
            idle_threshold: self.idle_threshold,
            rings: Seq::new(
                self.rings@.len(),
                |i: int| (self.rings@[i].id, self.rings@[i].ring@),
            ),
        }
    }
}

impl AudioBuffer {
    /// A mixer with no admitted sources; every source admitted later gets a
    /// ring of `buf_len` cells with this `spare` and `idle_threshold`.
    pub fn new(buf_len: u32, spare: u64, idle_threshold: u32) -> (r: AudioBuffer)
        requires
            spare < buf_len,
        ensures
            r@.wf(),
            r@.buf_len == buf_len,
            r@.spare == spare,
            r@.idle_threshold == idle_threshold,
            r@.rings.len() == 0,
    {
        let r = AudioBuffer { buf_len, spare, idle_threshold, rings: Vec::new() };
        proof {
            assert(r@.rings =~= Seq::<(u16, RingView)>::empty());
        }
        r
    }

    /// Hand `data` to the ring of its source, admitting the source with a
    /// fresh ring first if it is unknown. The result and the ring's new
    /// state are exactly those of `RingBuffer::store_data` on that ring.
    pub fn store_data(&mut self, data: AudioData, now: u64) -> (r: Result<Option<()>, String>)
        requires
            old(self)@.wf(),
            data.pos >= 1,
            1 <= data.data.len() <= old(self)@.buf_len,
            data.pos + data.data.len() <= u64::MAX,
        ensures
            final(self)@.wf(),
            final(self)@.buf_len == old(self)@.buf_len,
            final(self)@.spare == old(self)@.spare,
            final(self)@.idle_threshold == old(self)@.idle_threshold,
            ({
                let rs = old(self)@.rings;
                let i = MixerView::ring_index_of(rs, data.client_id);
                let rs1 = if i >= 0 {
                    rs
                } else {
                    rs.push((data.client_id, old(self)@.fresh_ring()))
                };
                let k = if i >= 0 {
                    i
                } else {
                    rs.len() as int
                };
                let pre = rs1[k].1;
                let len = data.data@.len() as int;
                &&& pre.store_stale(data.pos, len) ==> {
                    &&& r == Ok::<Option<()>, String>(None)
                    &&& final(self)@.rings == rs1
                }
                &&& !pre.store_stale(data.pos, len) && pre.store_crosses(data.pos, len) ==> {
                    &&& r is Err
                    &&& final(self)@.rings == rs1
                }
                &&& !pre.store_stale(data.pos, len) && !pre.store_crosses(data.pos, len) ==> {
                    &&& r == Ok::<Option<()>, String>(Some(()))
                    &&& final(self)@.rings == rs1.update(
                        k,
                        (data.client_id, pre.store_model(data.pos, data.data@, now)),
                    )
                }
            }),
    {
        let ghost pre_view = self@;
        let mut idx: usize = 0;
        let n = self.rings.len();
        while idx < n && self.rings[idx].id != data.client_id
            invariant
                n == self.rings.len(),
                idx <= n,
                forall|i: int| 0 <= i < idx ==> (#[trigger] self.rings@[i]).id != data.client_id,
            decreases n - idx,
        {
            idx += 1;
        }
        proof {
            lemma_ring_index_of_matches(self@.rings, data.client_id, idx as int);
        }
        if idx == self.rings.len() {
            let ring = RingBuffer::new(self.buf_len, self.spare, self.idle_threshold);
            self.rings.push(RingEntry { id: data.client_id, ring });
            proof {
                assert(self@.rings =~= pre_view.rings.push(
                    (data.client_id, pre_view.fresh_ring()),
                ));
            }
        }
        let ghost rs1 = self@.rings;
        let ghost k = idx as int;
        let ghost pre = rs1[k].1;
        let ghost data_view = data.data@;
        let ghost pos = data.pos;
        let mut entry = self.rings.remove(idx);
        let res = entry.ring.store_data(data, now);
        self.rings.insert(idx, entry);
        proof {
            if !pre.store_stale(pos, data_view.len() as int) && !pre.store_crosses(
                pos,
                data_view.len() as int,
            ) {
                assert(self@.rings =~= rs1.update(
                    k,
                    (rs1[k].0, pre.store_model(pos, data_view, now)),
                ));
            } else {
                assert(self@.rings =~= rs1);
            }
        }
        res
    }
}

/// Divide one sample by the scaling divisor, rounding toward zero.
fn scale_sample(v: i16, s: u128) -> (r: i16)
    requires
        1 <= s,
    ensures
        r as int == scale_spec(v as int, s as int),
{
    if v >= 0 {
        let q = (v as u128) / s;
        proof {
            vstd::arithmetic::div_mod::lemma_div_pos_is_pos(v as int, s as int);
            vstd::arithmetic::div_mod::lemma_div_nonincreasing(v as int, s as int);
        }
        q as i16
    } else {
        let m = (-(v as i32)) as u128;
        let q = m / s;
        proof {
            vstd::arithmetic::div_mod::lemma_div_pos_is_pos(m as int, s as int);
            vstd::arithmetic::div_mod::lemma_div_nonincreasing(m as int, s as int);
        }
        (-(q as i32)) as i16
    }
}

impl AudioBuffer {
    /// Mix one window of `len` samples out of every source that is ready.
    ///
    /// With no sources admitted, or while a started source is behind and
    /// the slowest available source is within the jitter budget, nothing
    /// is consumed and `None` comes back. Otherwise every
    /// ring that can yield `len` samples is consumed, each of its samples
    /// is divided by one more than the number of sources and summed into
    /// the output, and the mix is returned — `None` if no ring yielded.
    #[verifier::loop_isolation(false)]
    pub fn get_next(&mut self, len: u32, now: u64) -> (r: Option<Vec<i16>>)
        requires
            old(self)@.wf(),
            old(self)@.spare + len < old(self)@.buf_len,
        ensures
            final(self)@.wf(),
            final(self)@.buf_len == old(self)@.buf_len,
            final(self)@.spare == old(self)@.spare,
            final(self)@.idle_threshold == old(self)@.idle_threshold,
            ({
                let m = old(self)@;
                let t = len as u64;
                &&& (m.rings.len() == 0 || m.blocked(t, now)) ==> {
                    &&& r is None
                    &&& final(self)@ == m
                }
                &&& m.rings.len() > 0 && !m.blocked(t, now) ==> {
                    &&& final(self)@.rings == MixerView::consume_all(m.rings, t)
                    &&& MixerView::any_reads(m.rings, t) ==> (r matches Some(v) && v@.len() == len
                        && (forall|j: int|
                        0 <= j < len ==> (#[trigger] v@[j]) as int == MixerView::mix_fold(
                            m.rings,
                            t,
                            j,
                            m.rings.len() as int + 1,
                        )))
                    &&& !MixerView::any_reads(m.rings, t) ==> r is None
                }
            }),
    {
        let ghost m = self@;
        let ghost t = len as u64;
        let n = self.rings.len();
        if n == 0 {
            return None;
        }
        let mut has_none = false;
        let mut min_avail: u64 = 0;
        let mut k: usize = 0;
        while k < n
            invariant
                k <= n,
                (has_none, min_avail) == MixerView::gate_fold(m.rings.take(k as int), t, now),
            decreases n - k,
        {
            proof {
                assert(self@.rings[k as int] == m.rings[k as int]);
                assert(self@.rings[k as int].1.wf());
            }
            let st = self.rings[k].ring.peek(len as u64, now);
            proof {
                lemma_gate_fold_step(m.rings, t, now, k as int);
            }
            match st {
                PeekState::Behind => {
                    has_none = true;
                },
                PeekState::Avail(v) => {
                    if min_avail == 0 || v < min_avail {
                        min_avail = v;
                    }
                },
                _ => {},
            }
            k += 1;
        }
        proof {
            assert(m.rings.take(n as int) =~= m.rings);
        }
        if has_none && min_avail < self.spare {
            return None;
        }
        let scaling: u128 = n as u128 + 1;
        let ghost q = 32768int / (scaling as int);
        let mut out: Vec<i16> = vec![0i16; len as usize];
        let mut some = false;
        let mut k: usize = 0;
        while k < n
            invariant
                k <= n,
                n == self.rings.len(),
                self.buf_len == m.buf_len,
                self.spare == m.spare,
                self.idle_threshold == m.idle_threshold,
                forall|i: int|
                    0 <= i < n ==> #[trigger] self@.rings[i] == (
                    if i < k {
                        MixerView::consume_all(m.rings, t)[i]
                    } else {
                        m.rings[i]
                    }),
                out@.len() == len,
                some == MixerView::any_reads(m.rings.take(k as int), t),
                forall|j: int|
                    0 <= j < len ==> (#[trigger] out@[j]) as int == MixerView::mix_fold(
                        m.rings.take(k as int),
                        t,
                        j,
                        scaling as int,
                    ),
            decreases n - k,
        {
            let ghost rings_pre = self@.rings;
            let mut entry = self.rings.remove(k);
            proof {
                assert(rings_pre[k as int] == m.rings[k as int]);
                assert(entry.ring@ == rings_pre[k as int].1);
                assert(entry.ring@.wf());
            }
            let got = entry.ring.get_next(len as u64);
            self.rings.insert(k, entry);
            proof {
                lemma_any_reads_step(m.rings, t, k as int);
                if m.rings[k as int].1.can_read(t) {
                    assert(self@.rings =~= rings_pre.update(
                        k as int,
                        (m.rings[k as int].0, m.rings[k as int].1.consume_model(t)),
                    ));
                } else {
                    assert(self@.rings =~= rings_pre);
                }
            }
            match got {
                Some(chunk) => {
                    some = true;
                    let mut j: usize = 0;
                    while j < len as usize
                        invariant
                            j <= len,
                            chunk@ == m.rings[k as int].1.read_seq(t),
                            out@.len() == len,
                            forall|jj: int|
                                0 <= jj < len ==> (#[trigger] out@[jj]) as int == (
                                if jj < j {
                                    MixerView::mix_fold(
                                        m.rings.take(k as int + 1),
                                        t,
                                        jj,
                                        scaling as int,
                                    )
                                } else {
                                    MixerView::mix_fold(m.rings.take(k as int), t, jj, scaling as int)
                                }),
                        decreases len - j,
                    {
                        let term = scale_sample(chunk[j], scaling);
                        let cur = out[j];
                        proof {
                            lemma_mix_fold_step(m.rings, t, j as int, scaling as int, k as int);
                            lemma_mix_fold_bound(m.rings.take(k as int), t, j as int, scaling as int);
                            lemma_scale_bound(chunk@[j as int] as int, scaling as int);
                            lemma_mix_total_fits(n as int);
                            assert((k as int) * q + q == (k as int + 1) * q) by (nonlinear_arith);
                            vstd::arithmetic::mul::lemma_mul_inequality(
                                k as int + 1,
                                n as int,
                                q,
                            );
                        }
                        out.set(j, cur + term);
                        j += 1;
                    }
                },
                None => {
                    proof {
                        assert forall|jj: int| 0 <= jj < len implies MixerView::mix_fold(
                            m.rings.take(k as int + 1),
                            t,
                            jj,
                            scaling as int,
                        ) == MixerView::mix_fold(m.rings.take(k as int), t, jj, scaling as int) by {
                            lemma_mix_fold_step(m.rings, t, jj, scaling as int, k as int);
                        }
                    }
                },
            }
            k += 1;
        }
        proof {
            assert(m.rings.take(n as int) =~= m.rings);
            assert(self@.rings =~= MixerView::consume_all(m.rings, t));
        }
        if some {
            Some(out)
        } else {
            None
        }
    }
}

/// A linear scan that stops at the first match computes `ring_index_of`:
/// scanning `idx` entries without a match and stopping there means the
/// first `idx` ids differ from `id`, and the entry at `idx`, if any and
/// matched, is the first occurrence.
proof fn lemma_ring_index_of_matches(rings: Seq<(u16, RingView)>, id: u16, idx: int)
    requires
        0 <= idx <= rings.len(),
        forall|i: int| 0 <= i < idx ==> (#[trigger] rings[i]).0 != id,
        idx < rings.len() ==> rings[idx].0 == id,
    ensures
        idx < rings.len() ==> MixerView::ring_index_of(rings, id) == idx,
        idx == rings.len() ==> MixerView::ring_index_of(rings, id) == -1,
    decreases idx,
{
    if rings.len() == 0 {
    } else if rings[0].0 == id {
        assert(idx == 0);
    } else {
        assert(idx >= 1);
        lemma_ring_index_of_matches(rings.drop_first(), id, idx - 1);
    }
}

} // verus!
