//! Bounded, text-safe failure records.
use vstd::prelude::*;
use crate::operations::OperationId;
use crate::text;
use crate::text::{bounded, byte_len};
use crate::types::ActorRef;

verus! {

pub const HANDLER_MAX: usize = 128;

pub const EXCEPTION_MAX: usize = 128;

pub const FILE_MAX: usize = 256;

pub const FUNCTION_MAX: usize = 128;

pub const MAX_FRAMES: usize = 8;

#[derive(Clone, Copy, Debug, PartialEq, Eq, Structural)]
pub enum FailurePhase {
    Construction,
    Configure,
    Start,
    Handler,
    Stop,
    Supervisor,
}

/// One stack frame, with bounded texts.
#[derive(Clone, Debug, PartialEq, Eq)]
pub struct FailureFrame {
    file: String,
    line: u32,
    function: String,
    truncated: bool,
}

impl FailureFrame {
    pub closed spec fn file_text(self) -> Seq<char> {
        self.file@
    }

    pub closed spec fn line_number(self) -> u32 {
        self.line
    }

    pub closed spec fn function_text(self) -> Seq<char> {
        self.function@
    }

    pub closed spec fn cut(self) -> bool {
        self.truncated
    }

    pub fn new(file: &str, line: u32, function: &str) -> (r: Self)
        ensures
            text::utf8(r.file_text()) == text::bounded_bytes(text::utf8(file@), FILE_MAX as nat),
            r.line_number() == line,
            text::utf8(r.function_text()) == text::bounded_bytes(
                text::utf8(function@),
                FUNCTION_MAX as nat,
            ),
            r.cut() == (text::utf8(file@).len() > FILE_MAX || text::utf8(function@).len()
                > FUNCTION_MAX),
            r.cut() <==> text::utf8(file@).len() > 256 || text::utf8(function@).len() > 128,
            text::utf8(r.file_text()).len() <= 256,
            text::utf8(r.function_text()).len() <= 128,
    {
        FailureFrame {
            file: bounded(file, FILE_MAX),
            line,
            function: bounded(function, FUNCTION_MAX),
            truncated: byte_len(file) > FILE_MAX || byte_len(function) > FUNCTION_MAX,
        }
    }

    pub fn file(&self) -> (r: &str)
        ensures
            r@ == self.file_text(),
    {
        self.file.as_str()
    }

    pub fn line(&self) -> (r: u32)
        ensures
            r == self.line_number(),
    {
        self.line
    }

    pub fn function(&self) -> (r: &str)
        ensures
            r@ == self.function_text(),
    {
        self.function.as_str()
    }

    pub fn truncated(&self) -> (r: bool)
        ensures
            r == self.cut(),
    {
        self.truncated
    }
}

/// What failed, without message text, arguments or locals.
#[derive(Clone, Debug, PartialEq, Eq)]
pub struct FailureDetails {
    phase: FailurePhase,
    handler: String,
    exception_type: String,
    frames: Vec<FailureFrame>,
    truncated: bool,
}

pub open spec fn any_cut(frames: Seq<FailureFrame>) -> bool {
    exists|i: int| 0 <= i < frames.len() && (#[trigger] frames[i]).cut()
}

impl FailureDetails {
    pub closed spec fn failed_in(self) -> FailurePhase {
        self.phase
    }

    pub closed spec fn handler_text(self) -> Seq<char> {
        self.handler@
    }

    pub closed spec fn exception_text(self) -> Seq<char> {
        self.exception_type@
    }

    pub closed spec fn frame_list(self) -> Seq<FailureFrame> {
        self.frames@
    }

    pub closed spec fn cut(self) -> bool {
        self.truncated
    }

    /// Keeps at most `MAX_FRAMES` frames and bounded texts; `cut` says whether
    /// anything was left out.
    pub fn new(
        phase: FailurePhase,
        handler: &str,
        exception_type: &str,
        frames: Vec<FailureFrame>,
    ) -> (r: Self)
        ensures
            r.failed_in() == phase,
            text::utf8(r.handler_text()) == text::bounded_bytes(
                text::utf8(handler@),
                HANDLER_MAX as nat,
            ),
            text::utf8(r.exception_text()) == text::bounded_bytes(
                text::utf8(exception_type@),
                EXCEPTION_MAX as nat,
            ),
            r.frame_list() == (if frames@.len() <= MAX_FRAMES {
                frames@
            } else {
                frames@.take(MAX_FRAMES as int)
            }),
            r.cut() == (frames@.len() > MAX_FRAMES || any_cut(r.frame_list()) || text::utf8(
                handler@,
            ).len() > HANDLER_MAX || text::utf8(exception_type@).len() > EXCEPTION_MAX),
            text::utf8(r.handler_text()).len() <= 128,
            text::utf8(r.exception_text()).len() <= 128,
            frames@.len() <= 8 ==> r.frame_list() == frames@,
            frames@.len() > 8 ==> r.frame_list() == frames@.take(8),
            r.cut() <==> frames@.len() > 8 || text::utf8(handler@).len() > 128 || text::utf8(
                exception_type@,
            ).len() > 128 || (exists|i: int|
                0 <= i < r.frame_list().len() && (#[trigger] r.frame_list()[i]).cut()),
    {
        let frames_cut: bool = frames.len() > MAX_FRAMES;
        let text_cut: bool = byte_len(handler) > HANDLER_MAX || byte_len(exception_type)
            > EXCEPTION_MAX;
        let mut frames = frames;
        if frames_cut {
            frames.truncate(MAX_FRAMES);
        }
        let mut frame_text_cut: bool = false;
        let mut i: usize = 0;
        while i < frames.len()
            invariant
                i <= frames.len(),
                frame_text_cut == any_cut(frames@.take(i as int)),
            decreases frames.len() - i,
        {
            let ghost before = frames@.take(i as int);
            let ghost after = frames@.take(i + 1);
            proof {
                assert forall|j: int| 0 <= j < before.len() implies before[j] == after[j] by {}
                if any_cut(before) {
                    let j = choose|j: int| 0 <= j < before.len() && (#[trigger] before[j]).cut();
                    assert(after[j].cut());
                }
                assert(after[i as int] == frames@[i as int]);
                if any_cut(after) && !frames@[i as int].cut() {
                    let j = choose|j: int| 0 <= j < after.len() && (#[trigger] after[j]).cut();
                    assert(before[j].cut());
                }
            }
            frame_text_cut = frame_text_cut || frames[i].truncated;
            i += 1;
        }
        assert(frames@.take(i as int) =~= frames@);
        FailureDetails {
            phase,
            handler: bounded(handler, HANDLER_MAX),
            exception_type: bounded(exception_type, EXCEPTION_MAX),
            frames,
            truncated: frames_cut || frame_text_cut || text_cut,
        }
    }

    /// Also marks truncation that happened before this record was built.
    pub fn with_truncated(self, truncated: bool) -> (r: Self)
        ensures
            r.failed_in() == self.failed_in(),
            r.handler_text() == self.handler_text(),
            r.exception_text() == self.exception_text(),
            r.frame_list() == self.frame_list(),
            r.cut() == (self.cut() || truncated),
    {
        FailureDetails {
            phase: self.phase,
            handler: self.handler,
            exception_type: self.exception_type,
            frames: self.frames,
            truncated: self.truncated || truncated,
        }
    }

    pub fn phase(&self) -> (r: FailurePhase)
        ensures
            r == self.failed_in(),
    {
        self.phase
    }

    pub fn handler(&self) -> (r: &str)
        ensures
            r@ == self.handler_text(),
    {
        self.handler.as_str()
    }

    pub fn exception_type(&self) -> (r: &str)
        ensures
            r@ == self.exception_text(),
    {
        self.exception_type.as_str()
    }

    pub fn frames(&self) -> (r: &[FailureFrame])
        ensures
            r@ == self.frame_list(),
    {
        self.frames.as_slice()
    }

    pub fn truncated(&self) -> (r: bool)
        ensures
            r == self.cut(),
    {
        self.truncated
    }
}

/// What a failure does to its actor or World.
#[derive(Clone, Copy, Debug, PartialEq, Eq, Structural)]
pub enum FailureAction {
    StopActor,
    StopWorld,
    Continue,
}

#[derive(Clone, Debug, PartialEq, Eq)]
pub struct FailureRecord {
    pub sequence: u64,
    pub elapsed_ns: u64,
    pub actor: ActorRef,
    pub event_id: Option<u64>,
    pub schema: Option<u32>,
    pub operation: Option<OperationId>,
    pub details: FailureDetails,
    pub action: FailureAction,
}

/// Every text of a record fits its bound, and at most `MAX_FRAMES` frames stay.
pub proof fn failure_texts_are_bounded(chars: Seq<char>, kept: Seq<char>, max: nat)
    requires
        text::utf8(kept) == text::bounded_bytes(text::utf8(chars), max),
    ensures
        text::utf8(kept).len() <= max,
        text::utf8(chars).len() <= max ==> kept == chars,
{
    text::lemma_bounded_len(chars, max);
    text::lemma_utf8_injective(kept, chars);
}

} // verus!
