//! The frame walker: the decisions of a walk along the saved-frame-pointer
//! chain (`[bp]` holds the caller's base pointer, `[bp + 8]` the return
//! address), and a model of the whole walk.
use vstd::prelude::*;

verus! {

/// Size in bytes of one saved word on the stack.
pub const WORD_SIZE: u64 = 8;

/// What a frame is, as values.
pub struct FrameView {
    pub base_pointer: u64,
    pub stack_pointer: u64,
    pub return_address: u64,
}

/// One activation record of the call chain.
#[derive(Clone, Copy, Debug)]
pub struct Frame {
    rbp: u64,
    rsp: u64,
    rip: u64,
}

impl View for Frame {
    type V = FrameView;

    closed spec fn view(&self) -> FrameView {
        FrameView { base_pointer: self.rbp, stack_pointer: self.rsp, return_address: self.rip }
    }
}

impl Frame {
    pub fn new(rbp: u64, rsp: u64, rip: u64) -> (r: Frame)
        ensures
            r@ == (FrameView { base_pointer: rbp, stack_pointer: rsp, return_address: rip }),
    {
        Frame { rbp: rbp, rsp: rsp, rip: rip }
    }

    /// The address inside the call instruction: the return address minus one.
    pub fn ip(&self) -> (r: u64)
        requires
            self@.return_address > 0,
        ensures
            r == self@.return_address - 1,
    {
        self.rip - 1
    }

    /// No table of symbol addresses is kept here, so there is no hint.
    pub fn symbol_address(&self) -> (r: u64)
        ensures
            r == 0,
    {
        0
    }

    pub fn base_pointer(&self) -> (r: u64)
        ensures
            r == self@.base_pointer,
    {
        self.rbp
    }

    pub fn stack_pointer(&self) -> (r: u64)
        ensures
            r == self@.stack_pointer,
    {
        self.rsp
    }

    pub fn return_address(&self) -> (r: u64)
        ensures
            r == self@.return_address,
    {
        self.rip
    }
}

/// What the walker does after the callback has seen a frame.
#[derive(PartialEq, Eq, Structural, Debug)]
pub enum WalkStep {
    /// The walk is over.
    Finished,
    /// Read the caller's saved base pointer and return address at these
    /// addresses, then continue with `caller_frame`.
    ReadCaller { saved_base_pointer_at: u64, return_address_at: u64 },
}

/// A frame that has no caller: a zero base pointer, or one so high that the
/// word of the return address cannot be addressed.
pub open spec fn is_last_frame(f: FrameView) -> bool {
    f.base_pointer == 0 || f.base_pointer > u64::MAX - WORD_SIZE
}

/// The caller of `f`, in a memory where `mem(a)` is the word at address `a`.
pub open spec fn caller_in(f: FrameView, mem: spec_fn(u64) -> u64) -> FrameView {
    FrameView {
        base_pointer: mem(f.base_pointer),
        stack_pointer: f.base_pointer,
        return_address: mem((f.base_pointer + WORD_SIZE) as u64),
    }
}

/// The frame `n` steps up the chain from `start`.
pub open spec fn nth_frame(start: FrameView, mem: spec_fn(u64) -> u64, n: nat) -> FrameView
    decreases n,
{
    if n == 0 {
        start
    } else {
        caller_in(nth_frame(start, mem, (n - 1) as nat), mem)
    }
}

/// How many frames a walk from `start` hands to the callback, where
/// `answers[i]` is what the callback returns on its `i`-th call. The walk is
/// followed for at most `answers.len()` calls.
pub open spec fn frames_reported(
    start: FrameView,
    mem: spec_fn(u64) -> u64,
    answers: Seq<bool>,
) -> nat
    decreases answers.len(),
{
    if answers.len() == 0 {
        0
    } else if !answers[0] || is_last_frame(start) {
        1
    } else {
        1 + frames_reported(caller_in(start, mem), mem, answers.drop_first())
    }
}

/// The frames a walk from `start` hands to the callback, in order, where
/// `answers[i]` is what the callback returns on its `i`-th call.
pub open spec fn frames_handed(
    start: FrameView,
    mem: spec_fn(u64) -> u64,
    answers: Seq<bool>,
) -> Seq<FrameView>
    decreases answers.len(),
{
    if answers.len() == 0 {
        seq![]
    } else if !answers[0] || is_last_frame(start) {
        seq![start]
    } else {
        seq![start] + frames_handed(caller_in(start, mem), mem, answers.drop_first())
    }
}

/// Decides, once the callback has answered `keep_going` for `frame`, whether
/// the walk ends or where the caller's frame is to be read.
pub fn next_step(frame: &Frame, keep_going: bool) -> (r: WalkStep)
    ensures
        r == (if !keep_going || is_last_frame(frame@) {
            WalkStep::Finished
        } else {
            WalkStep::ReadCaller {
                saved_base_pointer_at: frame@.base_pointer,
                return_address_at: (frame@.base_pointer + WORD_SIZE) as u64,
            }
        }),
{
    if !keep_going || frame.rbp == 0 || frame.rbp > u64::MAX - WORD_SIZE {
        WalkStep::Finished
    } else {
        WalkStep::ReadCaller {
            saved_base_pointer_at: frame.rbp,
            return_address_at: frame.rbp + WORD_SIZE,
        }
    }
}

/// The caller of `frame`, from the two words read at the addresses that
/// `next_step` gave. The frame itself is left as it was.
pub fn caller_frame(frame: &Frame, saved_base_pointer: u64, return_address: u64) -> (r: Frame)
    ensures
        r@ == (FrameView {
            base_pointer: saved_base_pointer,
            stack_pointer: frame@.base_pointer,
            return_address: return_address,
        }),
        forall|mem: spec_fn(u64) -> u64|
            saved_base_pointer == mem(frame@.base_pointer) && return_address == mem(
                (frame@.base_pointer + WORD_SIZE) as u64,
            ) ==> r@ == #[trigger] caller_in(frame@, mem),
{
    Frame { rbp: saved_base_pointer, rsp: frame.rbp, rip: return_address }
}

/// A walk whose chain reaches a zero base pointer after `n` steps, with a
/// callback that always continues, hands exactly `n + 1` frames to the
/// callback and then ends.
pub proof fn lemma_walk_reports_whole_chain(
    start: FrameView,
    mem: spec_fn(u64) -> u64,
    n: nat,
    answers: Seq<bool>,
)
    requires
        answers.len() > n,
        forall|i: int| 0 <= i < answers.len() ==> answers[i],
        forall|i: nat| i < n ==> !is_last_frame(#[trigger] nth_frame(start, mem, i)),
        nth_frame(start, mem, n).base_pointer == 0,
    ensures
        frames_reported(start, mem, answers) == n + 1,
    decreases n,
{
    if n > 0 {
        assert(!is_last_frame(nth_frame(start, mem, 0)));
        let next = caller_in(start, mem);
        assert forall|i: nat| i < n - 1 implies !is_last_frame(
            #[trigger] nth_frame(next, mem, i),
        ) by {
            lemma_nth_frame_shift(start, mem, i);
            assert(!is_last_frame(nth_frame(start, mem, i + 1)));
        }
        lemma_nth_frame_shift(start, mem, (n - 1) as nat);
        lemma_walk_reports_whole_chain(next, mem, (n - 1) as nat, answers.drop_first());
    }
}

/// A callback that returns false on its `k`-th call, with the chain going on
/// until then, is called exactly `k` times.
pub proof fn lemma_walk_stops_when_told(
    start: FrameView,
    mem: spec_fn(u64) -> u64,
    k: nat,
    answers: Seq<bool>,
)
    requires
        1 <= k <= answers.len(),
        !answers[k - 1],
        forall|i: int| 0 <= i < k - 1 ==> answers[i],
        forall|i: nat| i < k - 1 ==> !is_last_frame(#[trigger] nth_frame(start, mem, i)),
    ensures
        frames_reported(start, mem, answers) == k,
    decreases k,
{
    if k > 1 {
        assert(!is_last_frame(nth_frame(start, mem, 0)));
        let next = caller_in(start, mem);
        assert forall|i: nat| i < k - 2 implies !is_last_frame(
            #[trigger] nth_frame(next, mem, i),
        ) by {
            lemma_nth_frame_shift(start, mem, i);
            assert(!is_last_frame(nth_frame(start, mem, i + 1)));
        }
        lemma_walk_stops_when_told(next, mem, (k - 1) as nat, answers.drop_first());
    }
}

/// The callback's `i`-th call receives the frame `i` steps up the chain:
/// frames come innermost first, none skipped and none repeated, one per call.
pub proof fn lemma_walk_hands_chain_in_order(
    start: FrameView,
    mem: spec_fn(u64) -> u64,
    answers: Seq<bool>,
)
    ensures
        frames_handed(start, mem, answers).len() == frames_reported(start, mem, answers),
        forall|i: int|
            0 <= i < frames_handed(start, mem, answers).len() ==> #[trigger] frames_handed(
                start,
                mem,
                answers,
            )[i] == nth_frame(start, mem, i as nat),
    decreases answers.len(),
{
    if answers.len() > 0 && answers[0] && !is_last_frame(start) {
        let next = caller_in(start, mem);
        let rest = answers.drop_first();
        lemma_walk_hands_chain_in_order(next, mem, rest);
        let h = frames_handed(start, mem, answers);
        assert(h == seq![start] + frames_handed(next, mem, rest));
        assert forall|i: int| 0 <= i < h.len() implies #[trigger] h[i] == nth_frame(
            start,
            mem,
            i as nat,
        ) by {
            if i > 0 {
                assert(h[i] == frames_handed(next, mem, rest)[i - 1]);
                lemma_nth_frame_shift(start, mem, (i - 1) as nat);
                assert((i - 1) as nat + 1 == i as nat);
            }
        }
    }
}

proof fn lemma_nth_frame_shift(start: FrameView, mem: spec_fn(u64) -> u64, i: nat)
    ensures
        nth_frame(start, mem, i + 1) == nth_frame(caller_in(start, mem), mem, i),
    decreases i,
{
    assert(nth_frame(start, mem, i + 1) == caller_in(nth_frame(start, mem, i), mem));
    if i > 0 {
        lemma_nth_frame_shift(start, mem, (i - 1) as nat);
        assert(nth_frame(caller_in(start, mem), mem, i) == caller_in(
            nth_frame(caller_in(start, mem), mem, (i - 1) as nat),
            mem,
        ));
    } else {
        assert(nth_frame(start, mem, 0) == start);
    }
}

} // verus!
