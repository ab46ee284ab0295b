//! Per-source jitter ring buffer.
//!
//! A ring buffer stores 16-bit samples addressed by their absolute position
//! in the source's stream, tolerating out-of-order arrival and gaps. A single
//! reader consumes contiguous windows; a jitter reserve (`spare`) delays the
//! first read, and an idle timer marks sources that stopped storing.

use vstd::prelude::*;

verus! {

/// One chunk of samples from one source. `pos` is the absolute index of
/// `data[0]` within the source's lifetime stream. Position 0 is reserved as
/// the "unset" sentinel, so a chunk's `pos` is always at least 1.
#[derive(Clone)]
pub struct AudioData {
    pub client_id: u16,
    pub pos: u64,
    pub data: Vec<i16>,
}

/// PCM device configuration: device name, channel count and nominal
/// sample rate. The device binding itself lives outside the library; this
/// carrier travels between its halves.
pub struct AudioConfig {
    pub devname: String,
    pub num_channels: u32,
    pub sample_rate: u32,
}

/// What a reader may learn about a ring buffer without consuming from it.
#[derive(Clone, Copy, PartialEq, Eq, Structural, Debug)]
pub enum PeekState {
    /// The source is still warming up: nothing stored yet, the jitter
    /// reserve is not yet covered, or the reader has not started and fewer
    /// than the requested samples are stored.
    Ignore,
    /// Nothing was stored for longer than the idle threshold: the source
    /// has gone silent and callers should not wait for it.
    Idle,
    /// The reader has started but fewer than the requested samples lie
    /// ahead of it: the source is momentarily behind.
    Behind,
    /// At least the requested number of samples is readable; the payload
    /// is the exact count ahead of the read cursor.
    Avail(u64),
}

/// Mathematical state of a ring buffer: the cell contents plus the cursors.
pub ghost struct RingView {
    /// Contents of the circular store; absolute position `p` lives in cell
    /// `p % len`.
    pub cells: Seq<i16>,
    /// Absolute position of the next sample the reader will consume;
    /// 0 means the reader has not started.
    pub next: u64,
    /// Lowest stored position while the reader has not started.
    pub min: u64,
    /// Highest stored position (inclusive); 0 means nothing stored yet.
    pub max: u64,
    /// Number of samples kept as jitter reserve before reading may start.
    pub spare: u64,
    /// Milliseconds without a store after which the buffer counts as idle.
    pub idle_threshold: u32,
    /// Clock value passed to the most recent successful store.
    pub last_update: u64,
}

impl RingView {
    /// Capacity of the circular store.
    pub open spec fn len(self) -> int {
        self.cells.len() as int
    }

    /// Structural well-formedness: every constructor establishes it and
    /// every operation preserves it.
    pub open spec fn wf(self) -> bool {
        &&& self.cells.len() >= 1
        &&& (self.spare as int) < self.len()
        &&& self.max < u64::MAX
        &&& (self.next == 0 && self.max == 0 ==> self.min == 0)
        &&& (self.next == 0 && self.max > 0 ==> 1 <= self.min && self.min <= self.max)
        &&& (self.next > 0 ==> self.max > 0 && self.next <= self.max + 1)
    }

    /// Position the next read would start at.
    pub open spec fn read_start(self) -> u64 {
        if self.next == 0 {
            self.min
        } else {
            self.next
        }
    }

    /// Number of stored positions at or ahead of the read cursor.
    pub open spec fn ready(self) -> int {
        self.max + 1 - self.read_start()
    }

    /// Milliseconds elapsed since the last successful store, by the caller's
    /// clock; a clock reading older than the last store counts as 0.
    pub open spec fn elapsed(self, now: u64) -> int {
        if now >= self.last_update {
            now - self.last_update
        } else {
            0
        }
    }

    /// The buffer went idle: no store for longer than the threshold.
    pub open spec fn is_idle(self, now: u64) -> bool {
        self.elapsed(now) > self.idle_threshold
    }

    /// The jitter reserve is not yet covered, so reading may not start.
    pub open spec fn warming_up(self) -> bool {
        self.next == 0 && self.min > 0 && self.ready() < self.spare
    }

    /// A read of `target_len` samples may proceed.
    pub open spec fn can_read(self, target_len: u64) -> bool {
        &&& self.max > 0
        &&& !self.warming_up()
        &&& self.ready() >= target_len
    }

    /// Offset of cell `j` within a run of cells that starts at the cell of
    /// absolute position `pos`: cell `j` holds the `cell_off`-th sample of a
    /// chunk written at `pos` whenever that offset is below the chunk length.
    pub open spec fn cell_off(pos: int, j: int, n: int) -> int {
        (j - pos) % n
    }

    /// A store of `data` at position `pos` is entirely behind the read
    /// cursor and is dropped without effect.
    pub open spec fn store_stale(self, pos: u64, len: int) -> bool {
        self.next > 0 && self.next >= pos + len
    }

    /// A store of `data` at position `pos` overlaps the stored maximum
    /// without replacing it wholly: a protocol violation that is rejected.
    pub open spec fn store_crosses(self, pos: u64, len: int) -> bool {
        self.max > 0 && pos <= self.max && pos + len > self.max
    }

    /// State after a successful store of `data` at position `pos`, with the
    /// caller's clock at `now`: the cells of positions `[pos, pos + len)`
    /// are overwritten, the stored maximum grows, and an overrun drags the
    /// unstarted-reader minimum (or the read cursor) forward so that the
    /// window fits in the buffer again.
    pub open spec fn store_model(self, pos: u64, data: Seq<i16>, now: u64) -> RingView {
        let n = self.len();
        let cells2 = Seq::new(
            self.cells.len(),
            |j: int|
                if RingView::cell_off(pos as int, j, n) < data.len() {
                    data[RingView::cell_off(pos as int, j, n)]
                } else {
                    self.cells[j]
                },
        );
        let max2 = if pos > self.max {
            (pos + data.len() - 1) as u64
        } else {
            self.max
        };
        let min2 = if self.next == 0 && self.min > 0 && max2 - self.min >= n {
            (max2 - n + 1) as u64
        } else {
            self.min
        };
        let min3 = if self.next == 0 && (min2 == 0 || min2 > pos) {
            pos
        } else {
            min2
        };
        let next2 = if self.next != 0 && max2 - self.next >= n {
            (max2 - n + 1) as u64
        } else {
            self.next
        };
        RingView {
            cells: cells2,
            next: next2,
            min: min3,
            max: max2,
            spare: self.spare,
            idle_threshold: self.idle_threshold,
            last_update: now,
        }
    }

    /// The `target_len` samples a read returns: the cells of positions
    /// `[read_start, read_start + target_len)`, in stream order.
    pub open spec fn read_seq(self, target_len: u64) -> Seq<i16> {
        Seq::new(
            target_len as nat,
            |i: int| self.cells[(self.read_start() + i) % self.len()],
        )
    }

    /// State after a successful read of `target_len` samples: the consumed
    /// cells are zeroed in place (so stale data never surfaces after a later
    /// wrap leaves them unwritten) and the read cursor advances past them.
    pub open spec fn consume_model(self, target_len: u64) -> RingView {
        let n = self.len();
        let start = self.read_start();
        RingView {
            cells: Seq::new(
                self.cells.len(),
                |j: int|
                    if RingView::cell_off(start as int, j, n) < target_len {
                        0i16
                    } else {
                        self.cells[j]
                    },
            ),
            next: (start + target_len) as u64,
            min: self.min,
            max: self.max,
            spare: self.spare,
            idle_threshold: self.idle_threshold,
            last_update: self.last_update,
        }
    }

    /// The reader window fits in the buffer: while the reader has not
    /// started, the stored span `[min, max]` spans less than one buffer
    /// length, and once it has, so does `[next, max]`.
    pub open spec fn window_inv(self) -> bool {
        &&& (self.next == 0 ==> self.max - self.min < self.len())
        &&& (self.next > 0 ==> self.max - self.next < self.len())
    }

    /// What `peek` reports for a window of `target_len` at clock `now`.
    pub open spec fn peek_model(self, target_len: u64, now: u64) -> PeekState {
        if self.max == 0 {
            PeekState::Ignore
        } else if self.is_idle(now) {
            PeekState::Idle
        } else if self.warming_up() {
            PeekState::Ignore
        } else if self.ready() < target_len {
            if self.next == 0 {
                PeekState::Ignore
            } else {
                PeekState::Behind
            }
        } else {
            PeekState::Avail(self.ready() as u64)
        }
    }
}

/// Cell `(pos + i) % n` is exactly the cell whose offset from `pos` is `i`:
/// writing a chunk sample by sample touches each offset below the chunk
/// length once and no other cell.
proof fn lemma_cell_off(pos: int, i: int, n: int)
    requires
        0 <= pos,
        0 <= i < n,
    ensures
        0 <= (pos + i) % n < n,
        RingView::cell_off(pos, (pos + i) % n, n) == i,
        forall|j: int|
            0 <= j < n && RingView::cell_off(pos, j, n) == i ==> j == (pos + i) % n,
{
    let r = (pos + i) % n;
    let p = pos % n;
    vstd::arithmetic::div_mod::lemma_mod_division_less_than_divisor(pos + i, n);
    vstd::arithmetic::div_mod::lemma_mod_division_less_than_divisor(pos, n);
    vstd::arithmetic::div_mod::lemma_small_mod(i as nat, n as nat);
    // (r - pos) % n == (r - p) % n == ((pos + i) - pos) % n == i % n == i
    vstd::arithmetic::div_mod::lemma_sub_mod_noop_right(r, pos, n);
    vstd::arithmetic::div_mod::lemma_sub_mod_noop(pos + i, pos, n);
    assert(RingView::cell_off(pos, r, n) == i);
    assert forall|j: int| 0 <= j < n && RingView::cell_off(pos, j, n) == i implies j == r by {
        // (j - p) % n and (r - p) % n agree, j - p and r - p both lie in
        // (-n, n), so a remainder can differ from its argument only by n;
        // j and r lying in [0, n) rules every case but j == r out.
        vstd::arithmetic::div_mod::lemma_sub_mod_noop_right(j, pos, n);
        assert((j - p) % n == i);
        assert((r - p) % n == i);
        lemma_small_diff_mod(j - p, n);
        lemma_small_diff_mod(r - p, n);
    }
}

/// Law: a fresh ring buffer satisfies the window invariant, so together
/// with the two preservation lemmas below, `spare < len` and
/// `next == 0 || max - next < len` hold in every reachable state.
pub proof fn lemma_new_window_inv(rb: RingView)
    requires
        rb.cells.len() >= 1,
        rb.next == 0,
        rb.min == 0,
        rb.max == 0,
    ensures
        rb.window_inv(),
{
}

/// Law: a successful store keeps the reader window within one buffer
/// length. The one family of inputs it does not cover: while the reader has
/// not started, a chunk stored strictly below `min` with `max - pos >= len`
/// re-seeds `min` at `pos` and stretches the span past a buffer length.
pub proof fn lemma_store_preserves_window_inv(rb: RingView, pos: u64, data: Seq<i16>, now: u64)
    requires
        rb.wf(),
        rb.window_inv(),
        pos >= 1,
        1 <= data.len() <= rb.cells.len(),
        pos + data.len() <= u64::MAX,
        !rb.store_stale(pos, data.len() as int),
        !rb.store_crosses(pos, data.len() as int),
        !(rb.next == 0 && rb.min > 0 && pos < rb.min && rb.max - pos >= rb.len()),
    ensures
        rb.store_model(pos, data, now).window_inv(),
{
}

/// Law: a successful read keeps the reader window within one buffer length.
pub proof fn lemma_get_next_preserves_window_inv(rb: RingView, target_len: u64)
    requires
        rb.wf(),
        rb.window_inv(),
        rb.can_read(target_len),
    ensures
        rb.consume_model(target_len).window_inv(),
{
}

/// Law: the read cursor never moves backwards, under stores as well as
/// reads, so positions once consumed stay behind it for good.
pub proof fn lemma_next_monotonic(rb: RingView, pos: u64, data: Seq<i16>, now: u64, target_len: u64)
    requires
        rb.wf(),
    ensures
        rb.store_model(pos, data, now).next >= rb.next,
        rb.can_read(target_len) ==> rb.consume_model(target_len).next >= rb.next,
        rb.next > 0 ==> rb.store_model(pos, data, now).next > 0,
{
}

/// Law: the positions a read consumes lie strictly behind the new cursor,
/// and any later `peek` reports availability only for the positions from
/// the cursor to the stored maximum — never for the consumed ones.
pub proof fn lemma_consumed_not_readable(rb: RingView, target_len: u64, later_len: u64, now: u64)
    requires
        rb.wf(),
        rb.can_read(target_len),
    ensures
        ({
            let rb2 = rb.consume_model(target_len);
            &&& rb2.next == rb.read_start() + target_len
            &&& (rb2.peek_model(later_len, now) matches PeekState::Avail(n) ==> n
                == rb2.max + 1 - rb2.next)
        }),
{
}

/// Law: while the reader has not started, a store that pushes the stored
/// maximum a full buffer length past `min` advances `min` to exactly
/// `max - len + 1`. The one family of inputs it does not cover: a chunk
/// stored strictly below the current `min`, which re-seeds `min` at its own
/// position instead.
pub proof fn lemma_store_overrun_sets_min(rb: RingView, pos: u64, data: Seq<i16>, now: u64)
    requires
        rb.wf(),
        rb.window_inv(),
        pos >= 1,
        1 <= data.len() <= rb.cells.len(),
        pos + data.len() <= u64::MAX,
        !rb.store_stale(pos, data.len() as int),
        !rb.store_crosses(pos, data.len() as int),
        rb.next == 0,
        rb.min > 0,
        pos >= rb.min,
    ensures
        ({
            let rb2 = rb.store_model(pos, data, now);
            rb2.max - rb.min >= rb.len() ==> rb2.min == rb2.max - rb.len() + 1
        }),
{
}

/// A value in `(-n, n)` either is its own remainder modulo `n` or becomes it
/// after one addition of `n`.
proof fn lemma_small_diff_mod(a: int, n: int)
    requires
        1 <= n,
        -n < a < n,
    ensures
        a % n == if a >= 0 {
            a
        } else {
            a + n
        },
{
    if a >= 0 {
        vstd::arithmetic::div_mod::lemma_small_mod(a as nat, n as nat);
    } else {
        vstd::arithmetic::div_mod::lemma_mod_add_multiples_vanish(a, n);
        vstd::arithmetic::div_mod::lemma_small_mod((a + n) as nat, n as nat);
    }
}

/// Per-source lossy jitter buffer: a circular sample store addressed by
/// absolute position, with a read cursor, a jitter reserve and an idle timer.
/// Wall-clock time enters only as explicit millisecond readings supplied by
/// the caller.
pub struct RingBuffer {
    buf: Vec<i16>,
    next: u64,
    min: u64,
    max: u64,
    spare: u64,
    idle_threshold: u32,
    last_update: u64,
}

impl View for RingBuffer {
    type V = RingView;

    closed spec fn view(&self) -> RingView {
        RingView {
            cells: self.buf@,
            next: self.next,
            min: self.min,
            max: self.max,
            spare: self.spare,
            idle_threshold: self.idle_threshold,
            last_update: self.last_update,
        }
    }
}

impl RingBuffer {
    /// A fresh buffer of `buf_len` zeroed cells; nothing stored, reader not
    /// started.
    pub fn new(buf_len: u32, spare: u64, idle_threshold: u32) -> (r: RingBuffer)
        requires
            spare < buf_len,
        ensures
            r@.wf(),
            r@.cells == Seq::new(buf_len as nat, |i: int| 0i16),
            r@.next == 0,
            r@.min == 0,
            r@.max == 0,
            r@.spare == spare,
            r@.idle_threshold == idle_threshold,
            r@.last_update == 0,
    {
        let buf = vec![0i16; buf_len as usize];
        proof {
            assert(buf@ =~= Seq::new(buf_len as nat, |i: int| 0i16));
        }
        RingBuffer {
            buf,
            next: 0,
            min: 0,
            max: 0,
            spare,
            idle_threshold,
            last_update: 0,
        }
    }

    /// Write `data.data` at absolute positions `[data.pos, data.pos + len)`,
    /// wrapping modulo the buffer length. A chunk entirely behind the read
    /// cursor is dropped (`Ok(None)`, no mutation); one that overlaps the
    /// stored maximum without replacing it wholly is rejected (`Err`, no
    /// mutation); otherwise the cells and cursors advance as `store_model`
    /// says and the idle timer restarts at `now` (`Ok(Some(()))`).
    #[verifier::loop_isolation(false)]
    pub fn store_data(&mut self, data: AudioData, now: u64) -> (r: Result<Option<()>, String>)
        requires
            old(self)@.wf(),
            data.pos >= 1,
            1 <= data.data.len() <= old(self)@.cells.len(),
            data.pos + data.data.len() <= u64::MAX,
        ensures
            final(self)@.wf(),
            old(self)@.store_stale(data.pos, data.data@.len() as int) ==> {
                &&& r == Ok::<Option<()>, String>(None)
                &&& final(self)@ == old(self)@
            },
            !old(self)@.store_stale(data.pos, data.data@.len() as int)
                && old(self)@.store_crosses(data.pos, data.data@.len() as int) ==> {
                &&& r is Err
                &&& final(self)@ == old(self)@
            },
            !old(self)@.store_stale(data.pos, data.data@.len() as int)
                && !old(self)@.store_crosses(data.pos, data.data@.len() as int) ==> {
                &&& r == Ok::<Option<()>, String>(Some(()))
                &&& final(self)@ == old(self)@.store_model(data.pos, data.data@, now)
            },
    {
        let ghost orig = self@;
        let len = data.data.len();
        if self.next > 0 && self.next >= data.pos + len as u64 {
            return Ok(None);
        }
        if self.max > 0 && data.pos <= self.max && data.pos + len as u64 > self.max {
            return Err("store crosses the stored maximum".to_string());
        }
        let buf_len = self.buf.len() as u64;
        let mut i: usize = 0;
        while i < len
            invariant
                i <= len,
                self.buf.len() == orig.cells.len(),
                self.next == orig.next,
                self.min == orig.min,
                self.max == orig.max,
                self.spare == orig.spare,
                self.idle_threshold == orig.idle_threshold,
                self.last_update == orig.last_update,
                forall|j: int|
                    0 <= j < orig.cells.len() ==> #[trigger] self.buf@[j] == (
                    if RingView::cell_off(data.pos as int, j, orig.len()) < i {
                        data.data@[RingView::cell_off(data.pos as int, j, orig.len())]
                    } else {
                        orig.cells[j]
                    }),
            decreases len - i,
        {
            let idx = ((data.pos + i as u64) % buf_len) as usize;
            proof {
                lemma_cell_off(data.pos as int, i as int, orig.len());
            }
            self.buf.set(idx, data.data[i]);
            i += 1;
        }
        if data.pos > self.max {
            self.max = data.pos + len as u64 - 1;
        }
        if self.next == 0 && self.min > 0 && self.max - self.min >= buf_len {
            self.min = self.max - buf_len + 1;
        }
        if self.next == 0 && (self.min == 0 || self.min > data.pos) {
            self.min = data.pos;
        }
        if self.next != 0 {
            proof {
                assert(self.max >= self.next);
            }
            if self.max - self.next >= buf_len {
                self.next = self.max - buf_len + 1;
            }
        }
        self.last_update = now;
        proof {
            assert(self@.cells =~= orig.store_model(data.pos, data.data@, now).cells);
            assert(self@ == orig.store_model(data.pos, data.data@, now));
        }
        Ok(Some(()))
    }

    /// Consume the next `target_len` samples if they are ready: the read
    /// starts at `min` on the first successful call and at `next` after,
    /// returns exactly the stored cells of those positions, zeroes them in
    /// place, and advances `next` past them. Returns `None`, changing
    /// nothing, when nothing is stored yet, the jitter reserve is not yet
    /// covered, or fewer than `target_len` samples lie ahead.
    #[verifier::loop_isolation(false)]
    pub fn get_next(&mut self, target_len: u64) -> (r: Option<Vec<i16>>)
        requires
            old(self)@.wf(),
            old(self)@.spare + target_len < old(self)@.cells.len(),
        ensures
            final(self)@.wf(),
            old(self)@.can_read(target_len) ==> {
                &&& r matches Some(v) && v@ == old(self)@.read_seq(target_len)
                &&& final(self)@ == old(self)@.consume_model(target_len)
            },
            !old(self)@.can_read(target_len) ==> {
                &&& r is None
                &&& final(self)@ == old(self)@
            },
    {
        if self.max == 0 {
            return None;
        }
        if self.next == 0 && self.min > 0 && self.max + 1 - self.min < self.spare {
            return None;
        }
        let ready = if self.next == 0 {
            self.max + 1 - self.min
        } else {
            self.max + 1 - self.next
        };
        if ready < target_len {
            return None;
        }
        let ghost orig = self@;
        let start = if self.next == 0 {
            self.min
        } else {
            self.next
        };
        let buf_len = self.buf.len() as u64;
        let mut result: Vec<i16> = Vec::new();
        let mut i: u64 = 0;
        while i < target_len
            invariant
                i <= target_len,
                result@.len() == i,
                self.buf.len() == orig.cells.len(),
                self.next == orig.next,
                self.min == orig.min,
                self.max == orig.max,
                self.spare == orig.spare,
                self.idle_threshold == orig.idle_threshold,
                self.last_update == orig.last_update,
                forall|k: int| 0 <= k < i ==> result@[k] == orig.read_seq(target_len)[k],
                forall|j: int|
                    0 <= j < orig.cells.len() ==> #[trigger] self.buf@[j] == (
                    if RingView::cell_off(start as int, j, orig.len()) < i {
                        0i16
                    } else {
                        orig.cells[j]
                    }),
            decreases target_len - i,
        {
            let idx = ((start + i) % buf_len) as usize;
            proof {
                lemma_cell_off(start as int, i as int, orig.len());
            }
            let sample = self.buf[idx];
            result.push(sample);
            self.buf.set(idx, 0i16);
            i += 1;
        }
        self.next = start + target_len;
        proof {
            assert(result@ =~= orig.read_seq(target_len));
            assert(self@.cells =~= orig.consume_model(target_len).cells);
            assert(self@ == orig.consume_model(target_len));
        }
        Some(result)
    }

    /// Report, without consuming anything, whether a read of `target_len`
    /// samples could proceed at clock `now`.
    pub fn peek(&self, target_len: u64, now: u64) -> (r: PeekState)
        requires
            self@.wf(),
        ensures
            r == self@.peek_model(target_len, now),
    {
        if self.max == 0 {
            return PeekState::Ignore;
        }
        let elapsed = if now >= self.last_update {
            now - self.last_update
        } else {
            0
        };
        if elapsed > self.idle_threshold as u64 {
            return PeekState::Idle;
        }
        if self.next == 0 && self.min > 0 && self.max + 1 - self.min < self.spare {
            return PeekState::Ignore;
        }
        let ready = if self.next == 0 {
            self.max + 1 - self.min
        } else {
            self.max + 1 - self.next
        };
        if ready < target_len {
            if self.next == 0 {
                PeekState::Ignore
            } else {
                PeekState::Behind
            }
        } else {
            PeekState::Avail(ready)
        }
    }
}

} // verus!
