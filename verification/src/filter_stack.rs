//! Running a stack of response filters.
//!
//! The filters themselves are called by the caller: each pipeline here says
//! which filter is called next and with what, takes what the filter gave
//! back, and in the end says what comes out of the stack.

use vstd::prelude::*;

use crate::filter::{ContextAction, ResponseAction};
use crate::response::Data;

verus! {

/// What a filter stack asks its caller to do next.
pub enum FilterCall<'a> {
    /// Call `begin` on the filter at this index.
    Begin(usize),
    /// Call `write` on the filter at this index, with this content.
    Write(usize, Option<Data<'a>>),
    /// Call `end` on the filter at this index.
    End(usize),
    /// Nothing more: the result is ready.
    Done,
}

/// What writing a queue of filter results gives: the content of each `Next`
/// up to the first `SilentAbort`, or the message of the first `Abort` met
/// before it.
pub open spec fn queue_output<'a>(s: Seq<ResponseAction<'a>>) -> Result<Seq<u8>, String>
    decreases s.len(),
{
    if s.len() == 0 {
        Ok(Seq::empty())
    } else {
        match s[0] {
            ResponseAction::Next(Some(c)) => match queue_output(s.drop_first()) {
                Ok(rest) => Ok(c@ + rest),
                Err(e) => Err(e),
            },
            ResponseAction::Next(None) => queue_output(s.drop_first()),
            ResponseAction::SilentAbort => Ok(Seq::empty()),
            ResponseAction::Abort(e) => Err(e),
        }
    }
}

/// Append what a queue of filter results writes to `buffer`: the content of
/// each `Next` until a `SilentAbort`, or the message of an `Abort`.
pub fn write_actions<'a>(buffer: &mut Vec<u8>, queue: &[ResponseAction<'a>]) -> (r: Result<(), String>)
    ensures
        match queue_output(queue@) {
            Ok(out) => r is Ok && final(buffer)@ == old(buffer)@ + out,
            Err(e) => r == Err::<(), String>(e),
        },
{
    let ghost start = buffer@;
    let mut i: usize = 0;
    proof {
        assert(queue@.skip(0) =~= queue@);
        assert(start + Seq::<u8>::empty() =~= start);
    }
    while i < queue.len()
        invariant
            start == old(buffer)@,
            0 <= i <= queue@.len(),
            buffer@.len() >= start.len(),
            buffer@.take(start.len() as int) == start,
            queue_output(queue@) == match queue_output(queue@.skip(i as int)) {
                Ok(rest) => Ok(buffer@.skip(start.len() as int) + rest),
                Err(e) => Err::<Seq<u8>, String>(e),
            },
        decreases queue@.len() - i,
    {
        let ghost rest = queue@.skip(i as int);
        proof {
            assert(rest[0] == queue@[i as int]);
            assert(rest.drop_first() =~= queue@.skip(i + 1));
        }
        match &queue[i] {
            ResponseAction::Next(Some(content)) => {
                let ghost before = buffer@;
                let bytes = content.as_bytes();
                let mut j: usize = 0;
                while j < bytes.len()
                    invariant
                        0 <= j <= bytes@.len(),
                        buffer@ == before + bytes@.take(j as int),
                    decreases bytes@.len() - j,
                {
                    buffer.push(bytes[j]);
                    proof {
                        assert(bytes@.take(j + 1) =~= bytes@.take(j as int).push(bytes@[j as int]));
                    }
                    j = j + 1;
                }
                proof {
                    assert(bytes@.take(j as int) =~= bytes@);
                    assert(buffer@.take(start.len() as int) =~= start);
                    assert(buffer@.skip(start.len() as int) =~= before.skip(start.len() as int) + bytes@);
                    match queue_output(queue@.skip(i + 1)) {
                        Ok(r2) => {
                            assert(buffer@.skip(start.len() as int) + r2 =~= before.skip(start.len() as int) + (bytes@ + r2));
                        },
                        Err(_) => {},
                    }
                }
            },
            ResponseAction::Next(None) => {},
            ResponseAction::SilentAbort => {
                proof {
                    assert(queue_output(rest) == Ok::<Seq<u8>, String>(Seq::empty()));
                    assert(buffer@.skip(start.len() as int) + Seq::<u8>::empty() =~= buffer@.skip(start.len() as int));
                    assert(buffer@ =~= start + buffer@.skip(start.len() as int));
                    assert(queue_output(queue@) == Ok::<Seq<u8>, String>(buffer@.skip(start.len() as int)));
                }
                return Ok(());
            },
            ResponseAction::Abort(e) => {
                return Err(e.clone());
            },
        }
        i = i + 1;
    }
    proof {
        assert(queue@.skip(i as int) =~= Seq::<ResponseAction<'a>>::empty());
        assert(buffer@ =~= start + buffer@.skip(start.len() as int));
    }
    Ok(())
}

/// The abstract value of a queue pass.
pub ghost struct PassView<'a> {
    pub filter: usize,
    pub waiting: Seq<ResponseAction<'a>>,
    pub passed: Seq<ResponseAction<'a>>,
    pub error: Option<String>,
}

/// Go over the waiting results up to the next `Next`, dropping the others
/// and remembering the message of each `Abort` (the last one stays), and
/// take that `Next` off with its content. With no `Next` left, the waiting
/// results are all gone and there is no content.
pub open spec fn pass_next<'a>(p: PassView<'a>) -> (PassView<'a>, Option<Option<Data<'a>>>)
    decreases p.waiting.len(),
{
    if p.waiting.len() == 0 {
        (p, None)
    } else {
        let rest = PassView { waiting: p.waiting.drop_first(), ..p };
        match p.waiting[0] {
            ResponseAction::Next(c) => (rest, Some(c)),
            ResponseAction::SilentAbort => pass_next(rest),
            ResponseAction::Abort(e) => pass_next(PassView { error: Some(e), ..rest }),
        }
    }
}

/// A queue of filter results on its way through one filter's `write`: each
/// `Next` is written by the filter and what it gives back is kept, a
/// `SilentAbort` is dropped, and an `Abort` is dropped with its message kept
/// as the error of the pass.
pub struct QueuePass<'a> {
    /// The filter that the queue goes through.
    pub filter: usize,
    /// What is still to go through, in order.
    pub waiting: Vec<ResponseAction<'a>>,
    /// What the filter gave back so far, in order.
    pub passed: Vec<ResponseAction<'a>>,
    /// The message of the last `Abort` met so far.
    pub error: Option<String>,
}

impl<'a> View for QueuePass<'a> {
    type V = PassView<'a>;

    open spec fn view(&self) -> PassView<'a> {
        PassView { filter: self.filter, waiting: self.waiting@, passed: self.passed@, error: self.error }
    }
}

impl<'a> QueuePass<'a> {
    /// Start passing `queue` through the filter at index `filter`.
    pub fn new(filter: usize, queue: Vec<ResponseAction<'a>>) -> (r: QueuePass<'a>)
        ensures
            r@ == (PassView { filter, waiting: queue@, passed: Seq::empty(), error: None }),
    {
        QueuePass { filter, waiting: queue, passed: Vec::new(), error: None }
    }

    /// Take the content that the filter writes next, or `None` when nothing
    /// is left to write.
    pub fn next_content(&mut self) -> (r: Option<Option<Data<'a>>>)
        ensures
            (final(self)@, r) == pass_next(old(self)@),
    {
        while self.waiting.len() > 0
            invariant
                pass_next(self@) == pass_next(old(self)@),
            decreases self.waiting@.len(),
        {
            let ghost before = self@;
            let action = self.waiting.remove(0);
            proof {
                assert(self.waiting@ =~= before.waiting.drop_first());
            }
            match action {
                ResponseAction::Next(c) => {
                    return Some(c);
                },
                ResponseAction::SilentAbort => {},
                ResponseAction::Abort(e) => {
                    self.error = Some(e);
                },
            }
        }
        None
    }

    /// Keep what the filter gave back for the content it was handed last.
    pub fn give_back(&mut self, action: ResponseAction<'a>)
        ensures
            final(self)@ == (PassView { passed: old(self)@.passed.push(action), ..old(self)@ }),
    {
        self.passed.push(action);
    }
}

/// Where content stands on its way through a filter stack.
pub enum ContentStep<'a> {
    /// The filter at this index writes this content next.
    Write(usize, Option<Data<'a>>),
    /// What comes out of the stack.
    Finish(ResponseAction<'a>),
}

/// Start passing `content` through a stack of `filters` filters: the first
/// filter writes it, or, with no filters, it comes out as it is.
pub fn content_start<'a>(filters: usize, content: Data<'a>) -> (r: ContentStep<'a>)
    ensures
        r == if filters == 0 {
            ContentStep::Finish(ResponseAction::Next(Some(content)))
        } else {
            ContentStep::Write(0, Some(content))
        },
{
    if filters == 0 {
        ContentStep::Finish(ResponseAction::Next(Some(content)))
    } else {
        ContentStep::Write(0, Some(content))
    }
}

/// Go on with what the filter at index `filter` gave back: a `Next` goes to
/// the following filter, and after the last filter, or on anything but a
/// `Next`, it is what comes out.
pub fn content_step<'a>(filters: usize, filter: usize, action: ResponseAction<'a>) -> (r: ContentStep<'a>)
    requires
        filter < filters,
    ensures
        r == match action {
            ResponseAction::Next(c) => if filter + 1 < filters {
                ContentStep::Write((filter + 1) as usize, c)
            } else {
                ContentStep::Finish(action)
            },
            _ => ContentStep::Finish(action),
        },
{
    match action {
        ResponseAction::Next(c) => if filter + 1 < filters {
            ContentStep::Write(filter + 1, c)
        } else {
            ContentStep::Finish(ResponseAction::Next(c))
        },
        other => ContentStep::Finish(other),
    }
}

/// What a filter stack waits for.
#[derive(Clone, Copy, PartialEq, Eq, Debug)]
pub enum Stage {
    /// The result of a filter's `begin`.
    Begin,
    /// The result of a filter's `write`.
    Write,
    /// The result of a filter's `end`.
    End,
    /// Nothing: the result is ready.
    Done,
}

/// The abstract value of a header pipeline.
pub ghost struct HeaderView<'a> {
    pub filters: nat,
    pub current: nat,
    pub status: u16,
    pub queue: Seq<ResponseAction<'a>>,
    pub result: ResponseAction<'a>,
    pub pass: Option<PassView<'a>>,
    pub begun: Option<(u16, ResponseAction<'a>)>,
    pub stage: Stage,
}

/// Once a filter is done with: stop at the end of the stack or after an
/// abort, else queue the last result and call `begin` on the next filter.
pub open spec fn header_settle<'a>(s: HeaderView<'a>) -> (HeaderView<'a>, FilterCall<'a>) {
    if s.current >= s.filters || s.result is SilentAbort || s.result is Abort {
        (HeaderView { stage: Stage::Done, ..s }, FilterCall::Done)
    } else {
        (
            HeaderView {
                queue: s.queue.push(s.result),
                result: ResponseAction::Next(None),
                stage: Stage::Begin,
                ..s
            },
            FilterCall::Begin(s.current as usize),
        )
    }
}

/// Go on with the queue's pass through the current filter: hand it the next
/// content, or, when the pass is over, keep what it gave back, take the
/// status and result of its `begin` (an `Abort` if the pass met one) and
/// settle.
pub open spec fn header_drive<'a>(s: HeaderView<'a>) -> (HeaderView<'a>, FilterCall<'a>) {
    match (s.pass, s.begun) {
        (Some(p), Some((status, action))) => {
            let (p2, c) = pass_next(p);
            match c {
                Some(c) => (HeaderView { pass: Some(p2), stage: Stage::Write, ..s }, FilterCall::Write(s.current as usize, c)),
                None => header_settle(
                    HeaderView {
                        queue: p2.passed,
                        status,
                        result: match p2.error {
                            Some(e) => ResponseAction::Abort(e),
                            None => action,
                        },
                        current: s.current + 1,
                        pass: None,
                        begun: None,
                        ..s
                    },
                ),
            }
        },
        _ => (s, FilterCall::Done),
    }
}

/// Status and headers on their way through a filter stack. Before each
/// filter's `begin`, the result so far is queued; after it, the queue goes
/// through the filter's `write`. The first `Abort` or `SilentAbort` stops
/// the stack.
pub struct HeaderPipeline<'a> {
    /// The number of filters.
    pub filters: usize,
    /// The filter called now, or the number of filters done with.
    pub current: usize,
    /// The status so far.
    pub status: u16,
    /// The results queued so far.
    pub queue: Vec<ResponseAction<'a>>,
    /// The result so far.
    pub result: ResponseAction<'a>,
    /// The queue's pass through the current filter.
    pub pass: Option<QueuePass<'a>>,
    /// What the current filter's `begin` gave.
    pub begun: Option<(u16, ResponseAction<'a>)>,
    /// What the pipeline waits for.
    pub stage: Stage,
}

impl<'a> View for HeaderPipeline<'a> {
    type V = HeaderView<'a>;

    open spec fn view(&self) -> HeaderView<'a> {
        HeaderView {
            filters: self.filters as nat,
            current: self.current as nat,
            status: self.status,
            queue: self.queue@,
            result: self.result,
            pass: match self.pass {
                Some(p) => Some(p@),
                None => None,
            },
            begun: self.begun,
            stage: self.stage,
        }
    }
}

/// A header pipeline is consistent with its stage.
pub open spec fn header_wf<'a>(s: HeaderView<'a>) -> bool {
    &&& s.current <= s.filters
    &&& s.filters <= usize::MAX
    &&& match s.stage {
        Stage::Begin => s.current < s.filters && s.pass is None && s.begun is None,
        Stage::Write => s.current < s.filters && s.pass is Some && s.begun is Some,
        Stage::Done => s.pass is None && s.begun is None,
        Stage::End => false,
    }
}

impl<'a> HeaderPipeline<'a> {
    /// Start a pipeline of `filters` filters on `status`: the result so far
    /// is a `Next` without content.
    pub fn new(filters: usize, status: u16) -> (r: (HeaderPipeline<'a>, FilterCall<'a>))
        ensures
            header_wf(r.0@),
            (r.0@, r.1) == header_settle(
                HeaderView {
                    filters: filters as nat,
                    current: 0,
                    status,
                    queue: Seq::empty(),
                    result: ResponseAction::Next(None),
                    pass: None,
                    begun: None,
                    stage: Stage::Done,
                },
            ),
    {
        let mut p = HeaderPipeline {
            filters,
            current: 0,
            status,
            queue: Vec::new(),
            result: ResponseAction::Next(None),
            pass: None,
            begun: None,
            stage: Stage::Done,
        };
        proof {
            assert(p@.queue =~= Seq::<ResponseAction<'a>>::empty());
        }
        let call = p.settle();
        (p, call)
    }

    fn settle(&mut self) -> (r: FilterCall<'a>)
        requires
            old(self).current <= old(self).filters,
            old(self).pass is None,
            old(self).begun is None,
        ensures
            header_wf(final(self)@),
            (final(self)@, r) == header_settle(old(self)@),
    {
        let stop = self.current >= self.filters || match &self.result {
            ResponseAction::SilentAbort => true,
            ResponseAction::Abort(_) => true,
            ResponseAction::Next(_) => false,
        };
        if stop {
            self.stage = Stage::Done;
            FilterCall::Done
        } else {
            let mut result = ResponseAction::Next(None);
            std::mem::swap(&mut result, &mut self.result);
            self.queue.push(result);
            self.stage = Stage::Begin;
            FilterCall::Begin(self.current)
        }
    }

    fn drive(&mut self) -> (r: FilterCall<'a>)
        requires
            old(self).pass is Some,
            old(self).begun is Some,
            old(self).current < old(self).filters,
        ensures
            header_wf(final(self)@),
            (final(self)@, r) == header_drive(old(self)@),
    {
        let mut p = self.pass.take().unwrap();
        let c = p.next_content();
        match c {
            Some(c) => {
                self.pass = Some(p);
                self.stage = Stage::Write;
                FilterCall::Write(self.current, c)
            },
            None => {
                let (status, action) = self.begun.take().unwrap();
                self.queue = p.passed;
                self.status = status;
                self.result = match p.error {
                    Some(e) => ResponseAction::Abort(e),
                    None => action,
                };
                self.current = self.current + 1;
                self.settle()
            },
        }
    }

    /// Go on with the status and result that the current filter's `begin`
    /// gave: an `Abort` stops the stack; else the queue goes through the
    /// filter's `write`.
    pub fn begun(&mut self, status: u16, action: ResponseAction<'a>) -> (r: FilterCall<'a>)
        requires
            header_wf(old(self)@),
            old(self)@.stage is Begin,
        ensures
            header_wf(final(self)@),
            (final(self)@, r) == if action is Abort {
                header_settle(HeaderView { status, result: action, current: old(self)@.current + 1, ..old(self)@ })
            } else {
                header_drive(
                    HeaderView {
                        queue: Seq::empty(),
                        pass: Some(
                            PassView {
                                filter: old(self).current,
                                waiting: old(self)@.queue,
                                passed: Seq::empty(),
                                error: None,
                            },
                        ),
                        begun: Some((status, action)),
                        ..old(self)@
                    },
                )
            },
    {
        if let ResponseAction::Abort(_) = &action {
            self.status = status;
            self.result = action;
            self.current = self.current + 1;
            self.settle()
        } else {
            let mut queue = Vec::new();
            std::mem::swap(&mut queue, &mut self.queue);
            self.pass = Some(QueuePass::new(self.current, queue));
            self.begun = Some((status, action));
            proof {
                assert(self@.queue =~= Seq::<ResponseAction<'a>>::empty());
            }
            self.drive()
        }
    }

    /// Go on with what the current filter's `write` gave back for the
    /// content it was handed last.
    pub fn written(&mut self, action: ResponseAction<'a>) -> (r: FilterCall<'a>)
        requires
            header_wf(old(self)@),
            old(self)@.stage is Write,
        ensures
            header_wf(final(self)@),
            (final(self)@, r) == header_drive(
                HeaderView {
                    pass: Some(PassView { passed: old(self)@.pass.unwrap().passed.push(action), ..old(self)@.pass.unwrap() }),
                    ..old(self)@
                },
            ),
    {
        let mut p = self.pass.take().unwrap();
        p.give_back(action);
        self.pass = Some(p);
        self.drive()
    }

    /// What comes out of the stack: the error of an `Abort`, or the status
    /// and the queue with the last result at its end.
    pub fn finish(self) -> (r: Result<(u16, Vec<ResponseAction<'a>>), String>)
        requires
            self@.stage is Done,
        ensures
            match self@.result {
                ResponseAction::Abort(e) => r == Err::<(u16, Vec<ResponseAction<'a>>), String>(e),
                _ => r matches Ok((status, queue)) && status == self@.status && queue@ == self@.queue.push(self@.result),
            },
    {
        let mut queue = self.queue;
        match self.result {
            ResponseAction::Abort(e) => Err(e),
            other => {
                queue.push(other);
                Ok((self.status, queue))
            },
        }
    }
}

/// The abstract value of an end pipeline.
pub ghost struct EndView<'a> {
    pub filters: nat,
    pub outputs: Seq<ResponseAction<'a>>,
    pub current: nat,
    pub queue: Seq<ResponseAction<'a>>,
    pub pass: Option<PassView<'a>>,
    pub error: Option<String>,
    pub stage: Stage,
}

/// Whether the filter whose pass goes on gave an output from `end`. The
/// outputs are held last filter first and the one at the end of the list is
/// that of the filter with the lowest index, so the current filter gave one
/// exactly when it is among the last `outputs.len()` filters.
pub open spec fn end_output_due<'a>(s: EndView<'a>) -> bool {
    s.outputs.len() > 0 && s.current + s.outputs.len() >= s.filters
}

/// After the `end` calls: the queue goes through each filter's `write` in
/// turn, and after each filter's pass that filter's own output from `end`,
/// if it gave one, is queued, so it goes through the later filters only;
/// this goes on until a pass meets an `Abort` or every filter has had its
/// pass.
pub open spec fn end_advance<'a>(s: EndView<'a>) -> (EndView<'a>, FilterCall<'a>)
    decreases s.filters - s.current, if s.pass is None { 1int } else { 0int },
{
    if s.current >= s.filters {
        (EndView { pass: None, stage: Stage::Done, ..s }, FilterCall::Done)
    } else {
        match s.pass {
            None => end_advance(
                EndView {
                    queue: Seq::empty(),
                    pass: Some(PassView { filter: s.current as usize, waiting: s.queue, passed: Seq::empty(), error: None }),
                    ..s
                },
            ),
            Some(p) => {
                let (p2, c) = pass_next(p);
                match c {
                    Some(c) => (EndView { pass: Some(p2), stage: Stage::Write, ..s }, FilterCall::Write(s.current as usize, c)),
                    None => match p2.error {
                        Some(e) => (EndView { pass: None, error: Some(e), stage: Stage::Done, ..s }, FilterCall::Done),
                        None => end_advance(
                            EndView {
                                queue: if end_output_due(s) {
                                    p2.passed.push(s.outputs.last())
                                } else {
                                    p2.passed
                                },
                                outputs: if end_output_due(s) {
                                    s.outputs.drop_last()
                                } else {
                                    s.outputs
                                },
                                current: s.current + 1,
                                pass: None,
                                ..s
                            },
                        ),
                    },
                }
            },
        }
    }
}

/// The end pipeline once the `end` calls are over: the passes start at the
/// first filter with an empty queue.
pub open spec fn end_writes<'a>(s: EndView<'a>) -> (EndView<'a>, FilterCall<'a>) {
    end_advance(EndView { current: 0, queue: Seq::empty(), pass: None, ..s })
}

/// The end of a response on its way through a filter stack. First `end` is
/// called on the filters from the last one back, for as long as they give
/// `Next`; these results are the outputs, the last filter's first. Then the
/// queue, empty at first, goes through each filter's `write` in turn, and
/// after the pass of a filter its own output, if it gave one, is queued: what
/// a filter adds at its end goes through the filters after it, never through
/// its own `write`.
pub struct EndPipeline<'a> {
    /// The number of filters.
    pub filters: usize,
    /// The outputs not queued yet.
    pub outputs: Vec<ResponseAction<'a>>,
    /// The filter whose pass goes on, or the number of passes done.
    pub current: usize,
    /// The results queued so far.
    pub queue: Vec<ResponseAction<'a>>,
    /// The queue's pass through the current filter.
    pub pass: Option<QueuePass<'a>>,
    /// The message of the `Abort` that stopped the stack.
    pub error: Option<String>,
    /// What the pipeline waits for.
    pub stage: Stage,
}

impl<'a> View for EndPipeline<'a> {
    type V = EndView<'a>;

    open spec fn view(&self) -> EndView<'a> {
        EndView {
            filters: self.filters as nat,
            outputs: self.outputs@,
            current: self.current as nat,
            queue: self.queue@,
            pass: match self.pass {
                Some(p) => Some(p@),
                None => None,
            },
            error: self.error,
            stage: self.stage,
        }
    }
}

/// An end pipeline is consistent with its stage.
pub open spec fn end_wf<'a>(s: EndView<'a>) -> bool {
    &&& s.current <= s.filters
    &&& s.filters <= usize::MAX
    &&& match s.stage {
        Stage::End => s.outputs.len() < s.filters && s.pass is None && s.error is None,
        Stage::Write => s.current < s.filters && s.pass is Some && s.error is None,
        Stage::Done => s.pass is None,
        Stage::Begin => false,
    }
}

impl<'a> EndPipeline<'a> {
    /// Start a pipeline of `filters` filters: `end` is called on the last
    /// filter, or, with no filters, nothing comes out.
    pub fn new(filters: usize) -> (r: (EndPipeline<'a>, FilterCall<'a>))
        ensures
            end_wf(r.0@),
            r.0@.filters == filters,
            r.0@.outputs == Seq::<ResponseAction<'a>>::empty(),
            r.0@.current == 0,
            r.0@.queue == Seq::<ResponseAction<'a>>::empty(),
            r.0@.pass is None,
            r.0@.error is None,
            filters == 0 ==> r.0@.stage is Done && r.1 is Done,
            filters > 0 ==> r.0@.stage is End && r.1 == FilterCall::<'a>::End((filters - 1) as usize),
    {
        let p = EndPipeline {
            filters,
            outputs: Vec::new(),
            current: 0,
            queue: Vec::new(),
            pass: None,
            error: None,
            stage: if filters == 0 {
                Stage::Done
            } else {
                Stage::End
            },
        };
        proof {
            assert(p@.outputs =~= Seq::<ResponseAction<'a>>::empty());
            assert(p@.queue =~= Seq::<ResponseAction<'a>>::empty());
        }
        if filters == 0 {
            (p, FilterCall::Done)
        } else {
            (p, FilterCall::End(filters - 1))
        }
    }

    fn advance(&mut self) -> (r: FilterCall<'a>)
        requires
            old(self).current <= old(self).filters,
            old(self).error is None,
            old(self).pass is Some ==> old(self).current < old(self).filters,
        ensures
            end_wf(final(self)@),
            (final(self)@, r) == end_advance(old(self)@),
    {
        loop
            invariant
                self.current <= self.filters,
                self.error is None,
                self.pass is Some ==> self.current < self.filters,
                end_advance(self@) == end_advance(old(self)@),
            decreases self.filters - self.current, if self.pass is None { 1int } else { 0int },
        {
            if self.current >= self.filters {
                self.pass = None;
                self.stage = Stage::Done;
                return FilterCall::Done;
            }
            match self.pass.take() {
                None => {
                    let mut queue = Vec::new();
                    std::mem::swap(&mut queue, &mut self.queue);
                    self.pass = Some(QueuePass::new(self.current, queue));
                    proof {
                        assert(self@.queue =~= Seq::<ResponseAction<'a>>::empty());
                    }
                },
                Some(mut p) => {
                    let c = p.next_content();
                    match c {
                        Some(c) => {
                            self.pass = Some(p);
                            self.stage = Stage::Write;
                            return FilterCall::Write(self.current, c);
                        },
                        None => {
                            match p.error {
                                Some(e) => {
                                    self.error = Some(e);
                                    self.stage = Stage::Done;
                                    return FilterCall::Done;
                                },
                                None => {
                                    let mut queue = p.passed;
                                    if self.outputs.len() > 0 && self.outputs.len() >= self.filters
                                        - self.current {
                                        let o = self.outputs.pop().unwrap();
                                        queue.push(o);
                                    }
                                    self.queue = queue;
                                    self.current = self.current + 1;
                                },
                            }
                        },
                    }
                },
            }
        }
    }

    /// Go on with what the filter called last gave from `end`: a `Next` is
    /// kept as an output and `end` is called on the filter before, unless
    /// this was the first filter; anything else is dropped and ends the
    /// `end` calls. Then the passes begin.
    pub fn ended(&mut self, action: ResponseAction<'a>) -> (r: FilterCall<'a>)
        requires
            end_wf(old(self)@),
            old(self)@.stage is End,
        ensures
            end_wf(final(self)@),
            (final(self)@, r) == if action is Next {
                if old(self)@.outputs.len() + 1 < old(self)@.filters {
                    (
                        EndView { outputs: old(self)@.outputs.push(action), ..old(self)@ },
                        FilterCall::End((old(self)@.filters - old(self)@.outputs.len() - 2) as usize),
                    )
                } else {
                    end_writes(EndView { outputs: old(self)@.outputs.push(action), ..old(self)@ })
                }
            } else {
                end_writes(old(self)@)
            },
    {
        if let ResponseAction::Next(_) = &action {
            self.outputs.push(action);
            if self.outputs.len() < self.filters {
                return FilterCall::End(self.filters - self.outputs.len() - 1);
            }
        }
        self.current = 0;
        self.queue = Vec::new();
        proof {
            assert(self@.queue =~= Seq::<ResponseAction<'a>>::empty());
        }
        self.advance()
    }

    /// Go on with what the current filter's `write` gave back for the
    /// content it was handed last.
    pub fn written(&mut self, action: ResponseAction<'a>) -> (r: FilterCall<'a>)
        requires
            end_wf(old(self)@),
            old(self)@.stage is Write,
        ensures
            end_wf(final(self)@),
            (final(self)@, r) == end_advance(
                EndView {
                    pass: Some(PassView { passed: old(self)@.pass.unwrap().passed.push(action), ..old(self)@.pass.unwrap() }),
                    ..old(self)@
                },
            ),
    {
        let mut p = self.pass.take().unwrap();
        p.give_back(action);
        self.pass = Some(p);
        self.advance()
    }

    /// What comes out of the stack: the error of an `Abort` met in a pass,
    /// or the queue.
    pub fn finish(self) -> (r: Result<Vec<ResponseAction<'a>>, String>)
        requires
            self@.stage is Done,
        ensures
            match self@.error {
                Some(e) => r == Err::<Vec<ResponseAction<'a>>, String>(e),
                None => r matches Ok(queue) && queue@ == self@.queue,
            },
    {
        match self.error {
            Some(e) => Err(e),
            None => Ok(self.queue),
        }
    }
}

/// Where a request context stands on its way through the context filters.
#[derive(Clone, Copy, PartialEq, Eq, Debug)]
pub enum ContextStep {
    /// The filter at this index modifies the context next.
    Modify(usize),
    /// What the stack decided.
    Finish(ContextAction),
}

/// Start a request context's way through a stack of `filters` context
/// filters: the first filter modifies it, or, with no filters, it goes on.
pub fn context_start(filters: usize) -> (r: ContextStep)
    ensures
        r == if filters == 0 {
            ContextStep::Finish(ContextAction::Next)
        } else {
            ContextStep::Modify(0)
        },
{
    if filters == 0 {
        ContextStep::Finish(ContextAction::Next)
    } else {
        ContextStep::Modify(0)
    }
}

/// Go on with what the context filter at index `filter` decided: `Next`
/// goes to the following filter, and after the last filter, or on an
/// abort, it is what the stack decided.
pub fn context_step(filters: usize, filter: usize, action: ContextAction) -> (r: ContextStep)
    requires
        filter < filters,
    ensures
        r == if action is Next && filter + 1 < filters {
            ContextStep::Modify((filter + 1) as usize)
        } else {
            ContextStep::Finish(action)
        },
{
    match action {
        ContextAction::Next => if filter + 1 < filters {
            ContextStep::Modify(filter + 1)
        } else {
            ContextStep::Finish(action)
        },
        ContextAction::Abort(_) => ContextStep::Finish(action),
    }
}

/// The data in a queue of filter results, in order: the content of each
/// `Next` that has one. `SilentAbort`s and `Next`s without content give
/// nothing, and the first `Abort` is an error.
pub open spec fn queue_data<'a>(s: Seq<ResponseAction<'a>>) -> Result<Seq<Data<'a>>, String>
    decreases s.len(),
{
    if s.len() == 0 {
        Ok(Seq::empty())
    } else {
        match s[0] {
            ResponseAction::Next(Some(d)) => match queue_data(s.drop_first()) {
                Ok(rest) => Ok(seq![d] + rest),
                Err(e) => Err(e),
            },
            ResponseAction::Abort(e) => Err(e),
            _ => queue_data(s.drop_first()),
        }
    }
}

/// Take the data out of a queue of filter results, as `queue_data` says.
pub fn actions_data<'a>(queue: Vec<ResponseAction<'a>>) -> (r: Result<Vec<Data<'a>>, String>)
    ensures
        match queue_data(queue@) {
            Ok(d) => r matches Ok(v) && v@ == d,
            Err(e) => r == Err::<Vec<Data<'a>>, String>(e),
        },
{
    let ghost all = queue@;
    assert(all == queue@);
    let mut rest = queue;
    let mut out: Vec<Data<'a>> = Vec::new();
    proof {
        assert(Seq::<Data<'a>>::empty() + Seq::<Data<'a>>::empty() =~= Seq::<Data<'a>>::empty());
        match queue_data(all) {
            Ok(d) => {
                assert(out@ + d =~= d);
            },
            Err(_) => {},
        }
    }
    while rest.len() > 0
        invariant
            all == queue@,
            queue_data(all) == match queue_data(rest@) {
                Ok(d) => Ok(out@ + d),
                Err(e) => Err::<Seq<Data<'a>>, String>(e),
            },
        decreases rest@.len(),
    {
        let ghost before = rest@;
        let ghost done = out@;
        let action = rest.remove(0);
        proof {
            assert(rest@ =~= before.drop_first());
        }
        match action {
            ResponseAction::Next(Some(d)) => {
                out.push(d);
                proof {
                    match queue_data(rest@) {
                        Ok(tail) => {
                            assert(done + (seq![before[0]->Next_0->0] + tail) =~= out@ + tail);
                        },
                        Err(_) => {},
                    }
                }
            },
            ResponseAction::Abort(e) => {
                proof {
                    assert(queue_data(before) == Err::<Seq<Data<'a>>, String>(e));
                }
                return Err(e);
            },
            _ => {},
        }
    }
    proof {
        assert(queue_data(rest@) == Ok::<Seq<Data<'a>>, String>(Seq::empty()));
        assert(out@ + Seq::<Data<'a>>::empty() =~= out@);
    }
    Ok(out)
}

/// What content that went through the filters gives: its data, nothing
/// after a `SilentAbort`, or the error of an `Abort`.
pub fn content_data<'a>(action: ResponseAction<'a>) -> (r: Result<Option<Data<'a>>, String>)
    ensures
        r == match action {
            ResponseAction::Next(d) => Ok::<Option<Data<'a>>, String>(d),
            ResponseAction::SilentAbort => Ok(None),
            ResponseAction::Abort(e) => Err(e),
        },
{
    match action {
        ResponseAction::Next(d) => Ok(d),
        ResponseAction::SilentAbort => Ok(None),
        ResponseAction::Abort(e) => Err(e),
    }
}

} // verus!
