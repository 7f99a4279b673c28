//! Reading frames that end with a newline, without keeping more than a limit.
use crate::bytes::{copy_range, put_bytes};
use vstd::prelude::*;

verus! {

pub const NEWLINE: u8 = 10;

pub const RETURN: u8 = 13;

/// The place of the first newline from a place on; the length where there is none.
pub open spec fn line_end(bytes: Seq<u8>, at: int) -> int
    decreases bytes.len() - at,
{
    if at < 0 || at >= bytes.len() {
        bytes.len() as int
    } else if bytes[at] == NEWLINE {
        at
    } else {
        line_end(bytes, at + 1)
    }
}

/// A frame without a carriage return at its end.
pub open spec fn without_return(frame: Seq<u8>) -> Seq<u8> {
    if frame.len() > 0 && frame.last() == RETURN {
        frame.drop_last()
    } else {
        frame
    }
}

/// What becomes of a frame when more bytes come in.
#[derive(Debug)]
pub enum FrameStep {
    /// The frame goes on.
    More,
    /// The frame is complete.
    Frame(Vec<u8>),
    /// The input has ended between frames.
    End,
    /// The frame is longer than allowed.
    TooLarge,
}

#[verifier::ext_equal]
pub enum StepView {
    More,
    Frame(Seq<u8>),
    End,
    TooLarge,
}

impl View for FrameStep {
    type V = StepView;

    open spec fn view(&self) -> StepView {
        match *self {
            FrameStep::More => StepView::More,
            FrameStep::Frame(frame) => StepView::Frame(frame@),
            FrameStep::End => StepView::End,
            FrameStep::TooLarge => StepView::TooLarge,
        }
    }
}

/// What becomes of a frame when bytes come in; none stand for the end of the input.
pub open spec fn fed(frame: Seq<u8>, maximum: nat, input: Seq<u8>) -> StepView {
    let end = line_end(input, 0);
    if input.len() == 0 {
        if frame.len() == 0 {
            StepView::End
        } else {
            StepView::Frame(frame)
        }
    } else if frame.len() + end > maximum {
        StepView::TooLarge
    } else if end < input.len() {
        StepView::Frame(without_return(frame + input.take(end)))
    } else {
        StepView::More
    }
}

/// How many of the bytes that came in belong to the frame and its newline.
pub open spec fn used(input: Seq<u8>) -> int {
    let end = line_end(input, 0);
    if end < input.len() {
        end + 1
    } else {
        end
    }
}

pub proof fn lemma_line_end(bytes: Seq<u8>, at: int)
    requires
        0 <= at <= bytes.len(),
    ensures
        at <= line_end(bytes, at) <= bytes.len(),
        forall|i: int| at <= i < line_end(bytes, at) ==> bytes[i] != NEWLINE,
        line_end(bytes, at) < bytes.len() ==> bytes[line_end(bytes, at)] == NEWLINE,
    decreases bytes.len() - at,
{
    if at < bytes.len() && bytes[at] != NEWLINE {
        lemma_line_end(bytes, at + 1);
    }
}

proof fn lemma_line_end_is(bytes: Seq<u8>, end: int)
    requires
        0 <= end <= bytes.len(),
        forall|i: int| 0 <= i < end ==> bytes[i] != NEWLINE,
        end < bytes.len() ==> bytes[end] == NEWLINE,
    ensures
        line_end(bytes, 0) == end,
{
    lemma_line_end(bytes, 0);
    let found = line_end(bytes, 0);
    if found < end {
        assert(bytes[found] == NEWLINE);
    }
    if end < found {
        assert(bytes[end] != NEWLINE);
    }
}

/// How the input is cut into pieces does not matter: a frame that goes on after one piece comes out
/// of the next as it would of both at once.
pub proof fn law_pieces_do_not_matter(
    frame: Seq<u8>,
    maximum: nat,
    first: Seq<u8>,
    second: Seq<u8>,
)
    requires
        fed(frame, maximum, first) == StepView::More,
        second.len() > 0,
    ensures
        fed(frame + first, maximum, second) == fed(frame, maximum, first + second),
        used(first + second) == first.len() + used(second),
{
    lemma_line_end(first, 0);
    lemma_line_end(second, 0);
    let both = first + second;
    let end = first.len() + line_end(second, 0);
    assert forall|i: int| 0 <= i < end implies both[i] != NEWLINE by {
        if i < first.len() {
            assert(both[i] == first[i]);
        } else {
            assert(both[i] == second[i - first.len()]);
        }
    }
    if end < both.len() {
        assert(both[end] == second[line_end(second, 0)]);
    }
    lemma_line_end_is(both, end);
    assert(frame + both.take(end) =~= frame + first + second.take(line_end(second, 0)));
}

/// A frame that is being read.
pub struct FrameReader {
    frame: Vec<u8>,
    maximum: usize,
}

impl FrameReader {
    pub closed spec fn held(&self) -> Seq<u8> {
        self.frame@
    }

    pub closed spec fn limit(&self) -> nat {
        self.maximum as nat
    }

    /// A reader at the start of a frame.
    pub fn new(maximum: usize) -> (reader: FrameReader)
        ensures
            reader.held() == Seq::<u8>::empty(),
            reader.limit() == maximum,
    {
        FrameReader { frame: Vec::new(), maximum }
    }

    /// Takes bytes in and says what becomes of the frame and how many bytes belong to it. After a
    /// frame, or its refusal, the reader is at the start of the next.
    pub fn feed(&mut self, input: &[u8]) -> (result: (FrameStep, usize))
        requires
            old(self).held().len() <= old(self).limit(),
        ensures
            result.0@ == fed(old(self).held(), old(self).limit(), input@),
            result.1 == used(input@),
            final(self).limit() == old(self).limit(),
            final(self).held() == if result.0 is More {
                old(self).held() + input@
            } else {
                Seq::<u8>::empty()
            },
            final(self).held().len() <= final(self).limit(),
    {
        let ghost before = self.frame@;
        if input.len() == 0 {
            let mut frame: Vec<u8> = Vec::new();
            std::mem::swap(&mut frame, &mut self.frame);
            return if frame.len() == 0 {
                (FrameStep::End, 0)
            } else {
                (FrameStep::Frame(frame), 0)
            };
        }
        let mut end: usize = 0;
        while end < input.len() && input[end] != NEWLINE
            invariant
                end <= input@.len(),
                line_end(input@, 0) == line_end(input@, end as int),
            decreases input@.len() - end,
        {
            end = end + 1;
        }
        assert(end == line_end(input@, 0));
        let consumed: usize = if end < input.len() {
            end + 1
        } else {
            end
        };
        if end > self.maximum - self.frame.len() {
            self.frame = Vec::new();
            return (FrameStep::TooLarge, consumed);
        }
        let piece = copy_range(input, 0, end);
        put_bytes(&mut self.frame, piece.as_slice());
        assert(input@.subrange(0, end as int) =~= input@.take(end as int));
        if end < input.len() {
            let mut frame: Vec<u8> = Vec::new();
            std::mem::swap(&mut frame, &mut self.frame);
            let ghost whole = frame@;
            assert(whole =~= before + input@.take(end as int));
            if frame.len() > 0 && frame[frame.len() - 1] == RETURN {
                let kept: usize = frame.len() - 1;
                frame.truncate(kept);
                assert(frame@ =~= whole.drop_last());
            }
            assert(frame@ == without_return(whole));
            return (FrameStep::Frame(frame), consumed);
        }
        assert(self.frame@ =~= before + input@);
        (FrameStep::More, consumed)
    }
}

/// A frame is what stands in front of the first newline, without a carriage return at its end. What comes
/// behind the newline is left for the next frame, and a frame that grows beyond the limit is refused.
pub proof fn law_frames_end_at_newlines(
    frame: Seq<u8>,
    maximum: nat,
    line: Seq<u8>,
    rest: Seq<u8>,
)
    requires
        forall|i: int| 0 <= i < line.len() ==> #[trigger] line[i] != 10,
    ensures
        ({
            let input = line + seq![10u8] + rest;
            let whole = frame + line;
            &&& used(input) == line.len() + 1
            &&& whole.len() > maximum ==> fed(frame, maximum, input) == StepView::TooLarge
            &&& whole.len() <= maximum && (whole.len() == 0 || whole.last() != 13) ==> fed(
                frame,
                maximum,
                input,
            ) == StepView::Frame(whole)
            &&& whole.len() <= maximum && whole.len() > 0 && whole.last() == 13 ==> fed(
                frame,
                maximum,
                input,
            ) == StepView::Frame(whole.drop_last())
        }),
        line.len() > 0 ==> used(line) == line.len() && fed(frame, maximum, line) == (
        if frame.len() + line.len() > maximum {
            StepView::TooLarge
        } else {
            StepView::More
        }),
{
    let input = line + seq![10u8] + rest;
    let whole = frame + line;
    let end = line_end(input, 0);
    lemma_line_end(input, 0);
    lemma_line_end(line, 0);
    assert(input[line.len() as int] == 10);
    if end < line.len() {
        assert(input[end] == line[end]);
    }
    assert(input.take(end) =~= line);
    if line_end(line, 0) < line.len() {
        assert(line[line_end(line, 0)] != 10);
    }
}

} // verus!
