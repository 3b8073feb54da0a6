//! Windowing: raw sample blocks of any size in, fixed-size overlapping
//! detection windows out.

use std::collections::VecDeque;
use vstd::prelude::*;

verus! {

/// One detection window: `window_size` consecutive samples, with the number
/// of samples from the start of the stream to the end of its last one (its
/// end time at the buffer's sample rate).
#[derive(Debug, Clone, PartialEq)]
pub struct Window<T> {
    pub samples: Vec<T>,
    pub end_sample: u64,
}

/// The windows that a stream of samples yields when windows of `w` samples
/// are cut every `h` samples, for as long as a whole window remains.
pub open spec fn windows_of<T>(stream: Seq<T>, w: nat, h: nat) -> Seq<Seq<T>>
    decreases stream.len(),
{
    if h == 0 || h > w || stream.len() < w {
        seq![]
    } else {
        seq![stream.take(w as int)] + windows_of(stream.skip(h as int), w, h)
    }
}

/// What remains of a stream once every whole window has been cut from it:
/// the samples that wait for the next block.
pub open spec fn leftover<T>(stream: Seq<T>, w: nat, h: nat) -> Seq<T>
    decreases stream.len(),
{
    if h == 0 || h > w || stream.len() < w {
        stream
    } else {
        leftover(stream.skip(h as int), w, h)
    }
}

/// The sample contents of a run of windows.
pub open spec fn window_contents<T>(windows: Seq<Window<T>>) -> Seq<Seq<T>> {
    windows.map_values(|win: Window<T>| win.samples@)
}

/// Abstract state of a [`WindowBuffer`]: its configuration, the samples it
/// holds that no window has used up yet, and how many samples have been
/// dropped from its front so far.
pub ghost struct BufferView<T> {
    pub window_size: nat,
    pub hop_size: nat,
    pub sample_rate: nat,
    pub pending: Seq<T>,
    pub consumed: nat,
}

impl<T> BufferView<T> {
    /// The hop is never zero and never longer than a window.
    pub open spec fn valid(self) -> bool {
        0 < self.hop_size <= self.window_size
    }

    /// The state after a block is pushed: the held samples followed by the
    /// block, less every whole window cut from them, and one hop more
    /// stepped past per window.
    pub open spec fn after_push(self, block: Seq<T>) -> BufferView<T> {
        let stream = self.pending + block;
        BufferView {
            window_size: self.window_size,
            hop_size: self.hop_size,
            sample_rate: self.sample_rate,
            pending: leftover(stream, self.window_size, self.hop_size),
            consumed: self.consumed + self.hop_size * windows_of(stream, self.window_size, self.hop_size).len(),
        }
    }

    /// The state is the one that `history`, every sample pushed since the
    /// buffer was made, leaves behind.
    pub open spec fn holds_history(self, history: Seq<T>) -> bool {
        &&& self.pending == leftover(history, self.window_size, self.hop_size)
        &&& self.consumed == self.hop_size * windows_of(history, self.window_size, self.hop_size).len()
    }
}

/// How many windows a stream of `len` samples yields.
pub open spec fn window_count(len: int, w: int, h: int) -> int {
    if len >= w {
        (len - w) / h + 1
    } else {
        0
    }
}

/// Accumulates arbitrary-sized raw sample blocks (as a capture backend
/// delivers them) into fixed-size, overlapping windows suitable for pitch
/// detection, every backend sharing this one windowing implementation.
pub struct WindowBuffer<T> {
    window_size: usize,
    hop_size: usize,
    sample_rate: usize,
    ring: VecDeque<T>,
    consumed: u64,
}

impl<T> View for WindowBuffer<T> {
    type V = BufferView<T>;

    closed spec fn view(&self) -> BufferView<T> {
        BufferView {
            window_size: self.window_size as nat,
            hop_size: self.hop_size as nat,
            sample_rate: self.sample_rate as nat,
            pending: self.ring@,
            consumed: self.consumed as nat,
        }
    }
}

impl<T> WindowBuffer<T> {
    /// How many samples are held, waiting for a window to complete.
    pub fn pending_len(&self) -> (n: usize)
        ensures
            n == self@.pending.len(),
    {
        self.ring.len()
    }

    /// The sample rate the buffer was made with, in samples per second.
    pub fn sample_rate(&self) -> (rate: usize)
        ensures
            rate == self@.sample_rate,
    {
        self.sample_rate
    }

    /// How many samples have been stepped past since the buffer was made.
    pub fn consumed_samples(&self) -> (n: u64)
        ensures
            n == self@.consumed,
    {
        self.consumed
    }

    /// A buffer cutting windows of `window_size` samples every `hop_size`
    /// samples. The hop must be neither zero nor longer than a window.
    pub fn new(window_size: usize, hop_size: usize, sample_rate: usize) -> (buf: Self)
        requires
            0 < hop_size <= window_size,
        ensures
            buf@.valid(),
            buf@ == (BufferView::<T> {
                window_size: window_size as nat,
                hop_size: hop_size as nat,
                sample_rate: sample_rate as nat,
                pending: Seq::empty(),
                consumed: 0,
            }),
    {
        WindowBuffer { window_size, hop_size, sample_rate, ring: VecDeque::new(), consumed: 0 }
    }

    /// Like [`WindowBuffer::new`], for a caller that has not checked the
    /// hop: `None` exactly when it is zero or longer than a window.
    pub fn try_new(window_size: usize, hop_size: usize, sample_rate: usize) -> (res: Option<Self>)
        ensures
            res is Some <==> 0 < hop_size <= window_size,
            res matches Some(buf) ==> buf@.valid() && buf@ == (BufferView::<T> {
                window_size: window_size as nat,
                hop_size: hop_size as nat,
                sample_rate: sample_rate as nat,
                pending: Seq::empty(),
                consumed: 0,
            }),
    {
        if hop_size > 0 && hop_size <= window_size {
            Some(WindowBuffer::new(window_size, hop_size, sample_rate))
        } else {
            None
        }
    }
}

/// Unfolds one step of [`windows_of`] and [`leftover`] on a stream that
/// still holds a whole window.
proof fn lemma_cut_one<T>(stream: Seq<T>, w: nat, h: nat)
    requires
        0 < h <= w,
        stream.len() >= w,
    ensures
        windows_of(stream, w, h) == seq![stream.take(w as int)] + windows_of(stream.skip(h as int), w, h),
        leftover(stream, w, h) == leftover(stream.skip(h as int), w, h),
{
}

/// Windows are hop-spaced slices of the stream: the `k`-th window is the
/// `window_size` samples that start `k * hop_size` samples in, there are
/// `(len - window_size) / hop_size + 1` of them once the stream holds a
/// whole window (none before), and what is left over is the stream minus the
/// samples that all those hops stepped past.
pub proof fn lemma_windows_are_hop_spaced_slices<T>(stream: Seq<T>, w: nat, h: nat)
    requires
        0 < h <= w,
    ensures
        windows_of(stream, w, h).len() == (if stream.len() >= w {
            (stream.len() - w) / (h as int) + 1
        } else {
            0
        }),
        forall|k: int| 0 <= k < windows_of(stream, w, h).len() ==> #[trigger] (k * h) + w <= stream.len(),
        forall|k: int|
            0 <= k < windows_of(stream, w, h).len() ==> #[trigger] windows_of(stream, w, h)[k]
                == stream.subrange(k * h, k * h + w),
        windows_of(stream, w, h).len() * h <= stream.len(),
        leftover(stream, w, h) == stream.skip((windows_of(stream, w, h).len() * h) as int),
    decreases stream.len(),
{
    if stream.len() >= w {
        let rest = stream.skip(h as int);
        lemma_windows_are_hop_spaced_slices(rest, w, h);
        let n = windows_of(stream, w, h);
        let m = windows_of(rest, w, h);
        assert(n == seq![stream.take(w as int)] + m);
        if rest.len() >= w {
            assert((stream.len() - w) / (h as int) == (rest.len() - w) / (h as int) + 1) by (nonlinear_arith)
                requires
                    rest.len() == stream.len() - h,
                    h > 0,
                    rest.len() >= w,
            ;
        } else {
            assert((stream.len() - w) / (h as int) == 0) by (nonlinear_arith)
                requires
                    stream.len() - h < w,
                    stream.len() >= w,
                    h > 0,
            ;
        }
        assert forall|k: int| 0 <= k < windows_of(stream, w, h).len() implies #[trigger] (k * h) + w <= stream.len()
            && windows_of(stream, w, h)[k] == stream.subrange(k * h, k * h + w) by {
            if k == 0 {
                assert(n[0] =~= stream.subrange(0, w as int));
            } else {
                assert(n[k] == m[k - 1]);
                assert((k - 1) * h + h == k * h) by (nonlinear_arith);
                assert((k - 1) * h + w <= rest.len());
                assert(m[k - 1] == rest.subrange((k - 1) * h, (k - 1) * h + w));
                assert(m[k - 1] =~= stream.subrange(k * h, k * h + w));
            }
        }
        assert(n.len() * h == m.len() * h + h) by (nonlinear_arith)
            requires
                n.len() == m.len() + 1,
        ;
        assert(leftover(stream, w, h) == rest.skip((m.len() * h) as int));
        assert(rest.skip((m.len() * h) as int) =~= stream.skip((n.len() * h) as int));
    } else {
        assert(windows_of(stream, w, h) =~= Seq::<Seq<T>>::empty());
        assert(stream.skip(0) =~= stream);
    }
}

/// Cutting windows does not depend on how the stream was split into blocks:
/// cutting `stream` and then what it left over followed by `more` yields the
/// same windows, in the same order, and leaves the same samples over, as
/// cutting `stream` and `more` joined.
pub proof fn lemma_block_boundaries_do_not_matter<T>(stream: Seq<T>, more: Seq<T>, w: nat, h: nat)
    requires
        0 < h <= w,
    ensures
        windows_of(stream + more, w, h) == windows_of(stream, w, h) + windows_of(
            leftover(stream, w, h) + more,
            w,
            h,
        ),
        leftover(stream + more, w, h) == leftover(leftover(stream, w, h) + more, w, h),
    decreases stream.len(),
{
    if stream.len() >= w {
        let rest = stream.skip(h as int);
        lemma_block_boundaries_do_not_matter(rest, more, w, h);
        assert((stream + more).take(w as int) =~= stream.take(w as int));
        assert((stream + more).skip(h as int) =~= rest + more);
        assert(windows_of(stream + more, w, h) =~= windows_of(stream, w, h) + windows_of(
            leftover(stream, w, h) + more,
            w,
            h,
        ));
    } else {
        assert(windows_of(stream, w, h) + windows_of(stream + more, w, h) =~= windows_of(stream + more, w, h));
    }
}

/// A new buffer holds the empty history.
pub proof fn lemma_new_buffer_holds_no_history<T>(v: BufferView<T>)
    requires
        v.valid(),
        v.pending == Seq::<T>::empty(),
        v.consumed == 0,
    ensures
        v.holds_history(Seq::<T>::empty()),
{
    assert(windows_of(Seq::<T>::empty(), v.window_size, v.hop_size) =~= Seq::<Seq<T>>::empty());
}

/// Every push is a stretch of one windowing of the whole history. Pushing
/// `block` onto a buffer that holds `history` leaves it holding the history
/// followed by the block; the windows the push returns are the whole
/// stream's windows after the first `n0 = window_count(history)` of them,
/// `window_count(stream) - n0` in all, the `j`-th being the `window_size`
/// samples of the stream from `(n0 + j) * hop_size` on; and its end sample
/// is the end of those samples, `(n0 + j) * hop_size + window_size`.
pub proof fn lemma_push_continues_the_history<T>(v: BufferView<T>, history: Seq<T>, block: Seq<T>)
    requires
        v.valid(),
        v.holds_history(history),
    ensures
        ({
            let w = v.window_size;
            let h = v.hop_size;
            let stream = history + block;
            let pushed = windows_of(v.pending + block, w, h);
            let n0 = window_count(history.len() as int, w as int, h as int);
            &&& v.after_push(block).holds_history(stream)
            &&& windows_of(history, w, h).len() == n0
            &&& pushed.len() == window_count(stream.len() as int, w as int, h as int) - n0
            &&& forall|j: int|
                0 <= j < pushed.len() ==> {
                    &&& (n0 + j) * h + w <= stream.len()
                    &&& #[trigger] pushed[j] == stream.subrange((n0 + j) * h, (n0 + j) * h + w)
                    &&& v.consumed + j * h + w == (n0 + j) * h + w
                }
        }),
{
    let w = v.window_size;
    let h = v.hop_size;
    let stream = history + block;
    lemma_block_boundaries_do_not_matter(history, block, w, h);
    lemma_windows_are_hop_spaced_slices(history, w, h);
    lemma_windows_are_hop_spaced_slices(stream, w, h);
    let n0 = windows_of(history, w, h).len() as int;
    let all = windows_of(stream, w, h);
    let pushed = windows_of(v.pending + block, w, h);
    assert(all == windows_of(history, w, h) + pushed);
    assert(h * all.len() == h * n0 + h * pushed.len()) by (nonlinear_arith)
        requires
            all.len() == n0 + pushed.len(),
    ;
    assert(v.after_push(block).holds_history(stream));
    assert forall|j: int| 0 <= j < pushed.len() implies {
        &&& (n0 + j) * h + w <= stream.len()
        &&& #[trigger] pushed[j] == stream.subrange((n0 + j) * h, (n0 + j) * h + w)
        &&& v.consumed + j * h + w == (n0 + j) * h + w
    } by {
        assert(pushed[j] == all[n0 + j]);
        assert((n0 + j) * h == n0 * h + j * h) by (nonlinear_arith);
        assert(h * n0 == n0 * h) by (nonlinear_arith);
    }
}

impl<T: Copy> WindowBuffer<T> {
    /// Pushes a block of raw samples and returns the windows it completes:
    /// none while not enough audio has accumulated, several when the block
    /// crosses several hop boundaries at once. The windows are those of the
    /// held samples followed by the block, cut every `hop_size` samples; what
    /// no window uses up stays held for the next block. Each window carries
    /// the count of stream samples up to the end of its last one.
    pub fn push(&mut self, samples: &[T]) -> (windows: Vec<Window<T>>)
        requires
            old(self)@.valid(),
            old(self)@.consumed + old(self)@.pending.len() + samples@.len() <= u64::MAX,
        ensures
            ({
                let w = old(self)@.window_size;
                let h = old(self)@.hop_size;
                let stream = old(self)@.pending + samples@;
                &&& 0 < h <= w
                &&& final(self)@.window_size == w
                &&& final(self)@.hop_size == h
                &&& final(self)@.sample_rate == old(self)@.sample_rate
                &&& final(self)@ == old(self)@.after_push(samples@)
                &&& final(self)@.pending == leftover(stream, w, h)
                &&& final(self)@.consumed == old(self)@.consumed + h * windows@.len()
                &&& window_contents(windows@) == windows_of(stream, w, h)
                &&& forall|i: int|
                    0 <= i < windows@.len() ==> (#[trigger] windows@[i]).end_sample == old(self)@.consumed + i
                        * h + w
            }),
    {
        let ghost c0: int = self.consumed as int;
        let ghost stream: Seq<T> = self.ring@ + samples@;
        let ghost w: nat = self.window_size as nat;
        let ghost h: nat = self.hop_size as nat;
        let mut i: usize = 0;
        while i < samples.len()
            invariant
                i <= samples@.len(),
                self.ring@ == old(self)@.pending + samples@.take(i as int),
                self.consumed == c0,
                self.window_size == w,
                self.hop_size == h,
                self.sample_rate == old(self)@.sample_rate,
                0 < h <= w,
                stream == old(self)@.pending + samples@,
            decreases samples@.len() - i,
        {
            self.ring.push_back(samples[i]);
            i = i + 1;
            assert(samples@.take(i as int) =~= samples@.take(i - 1).push(samples@[i - 1]));
        }
        assert(samples@.take(samples@.len() as int) =~= samples@);
        let mut windows: Vec<Window<T>> = Vec::new();
        assert(window_contents(windows@) =~= Seq::<Seq<T>>::empty());
        assert(windows_of(stream, w, h) =~= window_contents(windows@) + windows_of(self.ring@, w, h));
        while self.ring.len() >= self.window_size
            invariant
                self.window_size == w,
                self.hop_size == h,
                self.sample_rate == old(self)@.sample_rate,
                0 < h <= w,
                self.consumed + self.ring@.len() == c0 + stream.len(),
                c0 + stream.len() <= u64::MAX,
                self.consumed == c0 + h * windows@.len(),
                windows_of(stream, w, h) == window_contents(windows@) + windows_of(self.ring@, w, h),
                leftover(stream, w, h) == leftover(self.ring@, w, h),
                forall|k: int|
                    0 <= k < windows@.len() ==> (#[trigger] windows@[k]).end_sample == c0 + k * h + w,
            decreases self.ring@.len(),
        {
            let ghost before: Seq<T> = self.ring@;
            let ghost consumed_before: int = self.consumed as int;
            proof {
                lemma_cut_one(before, w, h);
            }
            let mut window_samples: Vec<T> = Vec::new();
            let mut j: usize = 0;
            while j < self.window_size
                invariant
                    self.ring@ == before,
                    self.consumed == consumed_before,
                    self.hop_size == h,
                    self.sample_rate == old(self)@.sample_rate,
                    self.window_size == w,
                    j <= w <= before.len(),
                    window_samples@ == before.take(j as int),
                decreases w - j,
            {
                window_samples.push(self.ring[j]);
                j = j + 1;
                assert(window_samples@ =~= before.take(j as int));
            }
            let end_sample: u64 = self.consumed + self.window_size as u64;
            let ghost prev_windows = windows@;
            windows.push(Window { samples: window_samples, end_sample });
            proof {
                assert(window_contents(windows@) =~= window_contents(prev_windows).push(before.take(w as int)));
                assert(windows_of(stream, w, h) =~= window_contents(windows@) + windows_of(before.skip(h as int), w, h));
                assert(end_sample == c0 + prev_windows.len() * h + w) by (nonlinear_arith)
                    requires
                        end_sample == self.consumed + w,
                        self.consumed == c0 + h * prev_windows.len(),
                ;
                assert forall|k: int| 0 <= k < windows@.len() implies (#[trigger] windows@[k]).end_sample == c0 + k
                    * h + w by {
                    if k < prev_windows.len() {
                        assert(windows@[k] == prev_windows[k]);
                    }
                }
            }
            let mut k: usize = 0;
            while k < self.hop_size
                invariant
                    self.hop_size == h,
                    self.window_size == w,
                    self.sample_rate == old(self)@.sample_rate,
                    self.consumed == consumed_before,
                    h <= before.len(),
                    k <= h,
                    self.ring@ == before.skip(k as int),
                decreases h - k,
            {
                self.ring.pop_front();
                k = k + 1;
                assert(self.ring@ =~= before.skip(k as int));
            }
            self.consumed = self.consumed + self.hop_size as u64;
            assert(self.consumed == c0 + h * windows@.len()) by (nonlinear_arith)
                requires
                    self.consumed == c0 + h * prev_windows.len() + h,
                    windows@.len() == prev_windows.len() + 1,
            ;
        }
        proof {
            assert(windows_of(self.ring@, w, h) =~= Seq::<Seq<T>>::empty());
            assert(window_contents(windows@) + Seq::<Seq<T>>::empty() =~= window_contents(windows@));
        }
        windows
    }
}

} // verus!
