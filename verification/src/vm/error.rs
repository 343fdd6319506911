//! Errors raised while running a program, and their stack traces.
use vstd::prelude::*;

use crate::reporting::{newlines_before, Location, Locations, SourceView};
use crate::stdlib::NativeFunction;
use crate::text::{decimal, push_str, push_usize};
use crate::vm::operator::{BinaryOp, UnaryOp};
use crate::vm::value::{FunctionImpl, Value};
use crate::vm::CallFrame;

verus! {

#[derive(Debug)]
pub enum RuntimeError {
    RuntimeExit,
    RuntimeYield,

    RuntimeCompilationError(Vec<String>),

    ValueIsNotFunctionEvaluable(Value),

    IncorrectNumberOfFunctionArguments(FunctionImpl, u8),
    IncorrectNumberOfArguments(NativeFunction, u8, u8),
    IncorrectNumberOfArgumentsVariadicAtLeastOne(NativeFunction),

    ValueErrorIndexOutOfBounds(i64, usize),
    ValueErrorStepCannotBeZero,
    ValueErrorVariableNotDeclaredYet(String),
    ValueErrorValueMustBeNonNegative(i64),
    ValueErrorValueMustBePositive(i64),
    ValueErrorValueMustBeNonZero,
    ValueErrorValueMustBeNonEmpty,
    ValueErrorCannotUnpackLengthMustBeGreaterThan(usize, usize, Value), // expected, actual
    ValueErrorCannotUnpackLengthMustBeEqual(usize, usize, Value), // expected, actual
    ValueErrorCannotCollectIntoDict(Value),
    ValueErrorKeyNotPresent(Value),
    ValueErrorInvalidCharacterOrdinal(i64),
    ValueErrorInvalidFormatCharacter(Option<char>),
    ValueErrorNotAllArgumentsUsedInStringFormatting(Value),
    ValueErrorMissingRequiredArgumentInStringFormatting,
    ValueErrorEvalListMustHaveUnitLength(usize),
    /// A pattern (after escaping) that did not compile, and the compiler's message.
    ValueErrorCannotCompileRegex(String, String),

    TypeErrorUnaryOp(UnaryOp, Value),
    TypeErrorBinaryOp(BinaryOp, Value, Value),
    TypeErrorBinaryIs(Value, Value),
    TypeErrorCannotConvertToInt(Value),

    TypeErrorArgMustBeInt(Value),
    TypeErrorArgMustBeStr(Value),
    TypeErrorArgMustBeChar(Value),
    TypeErrorArgMustBeIterable(Value),
    TypeErrorArgMustBeIndexable(Value),
    TypeErrorArgMustBeSliceable(Value),
    TypeErrorArgMustBeDict(Value),
    TypeErrorArgMustBeFunction(Value),
    TypeErrorArgMustBeCmpOrKeyFunction(Value),
    /// A slice bound or step (named) that is neither an integer nor `nil`.
    TypeErrorSliceArgMustBeInt(String, Value),
}

/// A `RuntimeError` with a filled-in stack trace, and source location which caused the error.
#[derive(Debug)]
pub struct DetailRuntimeError {
    pub error: RuntimeError,
    pub target: Location,

    /// The stack trace elements, including a location (typically of the function call), and the function name itself
    pub stack: Vec<StackFrame>,
}

#[derive(Debug, Clone)]
pub enum StackFrame {
    Simple(usize, Location, String),
    Repeat(usize),
}

/// A stack frame with its function's name viewed as characters.
pub enum FrameView {
    Simple(usize, Location, Seq<char>),
    Repeat(usize),
}

impl StackFrame {
    pub open spec fn view(self) -> FrameView {
        match self {
            StackFrame::Simple(ip, loc, name) => FrameView::Simple(ip, loc, name@),
            StackFrame::Repeat(n) => FrameView::Repeat(n),
        }
    }
}

// ===== Stack traces, stated ===== //

/// Whether `f`'s code holds the instruction `ip`.
pub open spec fn encloses(f: FunctionImpl, ip: int) -> bool {
    f.head <= ip <= f.tail
}

/// How many instructions past its first one `f`'s code runs.
pub open spec fn span(f: FunctionImpl) -> int {
    f.tail - f.head
}

/// `fs[k]` is the owning function of `ip`: it encloses `ip`, no enclosing function is
/// shorter, and every enclosing function before it is longer.
pub open spec fn is_owner(ip: int, fs: Seq<FunctionImpl>, k: int) -> bool {
    &&& 0 <= k < fs.len()
    &&& encloses(fs[k], ip)
    &&& forall|j: int| 0 <= j < fs.len() && encloses(#[trigger] fs[j], ip) ==> span(fs[k]) <= span(fs[j])
    &&& forall|j: int| 0 <= j < k && encloses(#[trigger] fs[j], ip) ==> span(fs[j]) > span(fs[k])
}

/// The name of the owning function of `ip`, or `<script>` where no function encloses it.
pub open spec fn owner_name(ip: int, fs: Seq<FunctionImpl>) -> Seq<char> {
    if exists|k: int| is_owner(ip, fs, k) {
        fs[choose|k: int| is_owner(ip, fs, k)].signature()
    } else {
        "<script>"@
    }
}

/// There is at most one owning function.
pub proof fn lemma_owner_unique(ip: int, fs: Seq<FunctionImpl>, k1: int, k2: int)
    requires
        is_owner(ip, fs, k1),
        is_owner(ip, fs, k2),
    ensures
        k1 == k2,
{
    if k1 < k2 {
        assert(span(fs[k1]) > span(fs[k2]));
    } else if k2 < k1 {
        assert(span(fs[k2]) > span(fs[k1]));
    }
}

/// The calls on the stack, innermost first: for each frame called from an instruction, that
/// instruction and the instruction running inside the call (`ip` for the innermost).
pub open spec fn call_sites(ip: int, frames: Seq<CallFrame>) -> Seq<(int, int)>
    decreases frames.len(),
{
    if frames.len() == 0 {
        seq![]
    } else {
        let f = frames.last();
        if f.return_ip > 0 {
            seq![(f.return_ip - 1, ip)] + call_sites(f.return_ip - 1, frames.drop_last())
        } else {
            call_sites(ip, frames.drop_last())
        }
    }
}

/// Consecutive equal call sites, each with how many times it occurs in a row.
pub open spec fn runs(sites: Seq<(int, int)>) -> Seq<((int, int), nat)>
    decreases sites.len(),
{
    if sites.len() == 0 {
        seq![]
    } else {
        let rs = runs(sites.drop_last());
        if rs.len() > 0 && rs.last().0 == sites.last() {
            rs.update(rs.len() - 1, (sites.last(), rs.last().1 + 1))
        } else {
            rs.push((sites.last(), 1))
        }
    }
}

/// The trace of one run: the call site, then how many more times it repeated, if it did.
pub open spec fn run_frames(r: ((int, int), nat), locations: Seq<Location>, fs: Seq<FunctionImpl>) -> Seq<FrameView> {
    let ((frame_ip, prev_ip), k) = r;
    seq![FrameView::Simple(frame_ip as usize, locations[frame_ip], owner_name(prev_ip, fs))]
        + if k > 1 { seq![FrameView::Repeat((k - 1) as usize)] } else { seq![] }
}

/// The trace of a sequence of runs.
pub open spec fn trace(rs: Seq<((int, int), nat)>, locations: Seq<Location>, fs: Seq<FunctionImpl>) -> Seq<FrameView>
    decreases rs.len(),
{
    if rs.len() == 0 {
        seq![]
    } else {
        trace(rs.drop_last(), locations, fs) + run_frames(rs.last(), locations, fs)
    }
}

/// Every frame called from an instruction has a location.
pub open spec fn frames_located(frames: Seq<CallFrame>, locations: Seq<Location>) -> bool {
    forall|i: int| 0 <= i < frames.len() && #[trigger] frames[i].return_ip > 0 ==> frames[i].return_ip - 1 < locations.len()
}

// ===== Facts ===== //

proof fn lemma_runs_len(sites: Seq<(int, int)>)
    ensures
        runs(sites).len() <= sites.len(),
        sites.len() > 0 ==> runs(sites).len() > 0 && runs(sites).last().0 == sites.last(),
        forall|i: int| 0 <= i < runs(sites).len() ==> #[trigger] runs(sites)[i].1 >= 1,
        forall|i: int| 0 <= i < runs(sites).len() ==> #[trigger] runs(sites)[i].1 <= sites.len(),
    decreases sites.len(),
{
    if sites.len() > 0 {
        lemma_runs_len(sites.drop_last());
    }
}

proof fn lemma_call_sites_step(ip: int, frames: Seq<CallFrame>)
    requires
        frames.len() > 0,
    ensures
        call_sites(ip, frames) == if frames.last().return_ip > 0 {
            seq![(frames.last().return_ip - 1, ip)] + call_sites(frames.last().return_ip - 1, frames.drop_last())
        } else {
            call_sites(ip, frames.drop_last())
        },
{
}

proof fn lemma_call_sites_in_range(ip: int, frames: Seq<CallFrame>, locations: Seq<Location>)
    requires
        frames_located(frames, locations),
    ensures
        call_sites(ip, frames).len() <= frames.len(),
        forall|i: int| 0 <= i < call_sites(ip, frames).len() ==> 0 <= #[trigger] call_sites(ip, frames)[i].0 < locations.len(),
    decreases frames.len(),
{
    if frames.len() > 0 {
        let f = frames.last();
        assert(frames_located(frames.drop_last(), locations)) by {
            assert forall|i: int| 0 <= i < frames.drop_last().len() && #[trigger] frames.drop_last()[i].return_ip > 0 implies frames.drop_last()[i].return_ip - 1 < locations.len() by {
                assert(frames.drop_last()[i] == frames[i]);
            }
        }
        if f.return_ip > 0 {
            assert(frames[frames.len() - 1].return_ip > 0);
            lemma_call_sites_in_range(f.return_ip - 1, frames.drop_last(), locations);
        } else {
            lemma_call_sites_in_range(ip, frames.drop_last(), locations);
        }
    }
}


} // verus!

verus! {

/// The owning function for a given IP can be defined as the closest function which encloses the desired instruction
/// We annotate both head and tail of `FunctionImpl` to make this search easy
fn find_owning_function(ip: usize, functions: &Vec<FunctionImpl>) -> (r: String)
    ensures
        r@ == owner_name(ip as int, functions@),
{
    let ghost fs = functions@;
    let mut best: Option<usize> = None;
    let mut j: usize = 0;
    while j < functions.len()
        invariant
            j <= functions.len(),
            fs == functions@,
            best is None ==> forall|i: int| 0 <= i < j ==> !encloses(#[trigger] fs[i], ip as int),
            best matches Some(k) ==> {
                &&& k < j
                &&& encloses(fs[k as int], ip as int)
                &&& forall|i: int| 0 <= i < j && encloses(#[trigger] fs[i], ip as int) ==> span(fs[k as int]) <= span(fs[i])
                &&& forall|i: int| 0 <= i < k && encloses(#[trigger] fs[i], ip as int) ==> span(fs[i]) > span(fs[k as int])
            },
        decreases functions.len() - j,
    {
        let f = &functions[j];
        if f.head <= ip && ip <= f.tail {
            match best {
                None => {
                    best = Some(j);
                },
                Some(k) => {
                    if f.tail - f.head < functions[k].tail - functions[k].head {
                        best = Some(j);
                    }
                },
            }
        }
        j = j + 1;
    }
    match best {
        Some(k) => {
            proof {
                assert(is_owner(ip as int, fs, k as int));
                assert forall|k2: int| is_owner(ip as int, fs, k2) implies k2 == k by {
                    lemma_owner_unique(ip as int, fs, k as int, k2);
                }
            }
            functions[k].as_str()
        },
        None => {
            proof {
                assert(!exists|k: int| is_owner(ip as int, fs, k));
            }
            let mut r = String::new();
            push_str(&mut r, "<script>");
            r
        },
    }
}

impl RuntimeError {
    pub fn err<T>(self) -> (r: Result<T, Box<RuntimeError>>)
        ensures
            r matches Err(e) && *e == self,
    {
        Err(Box::new(self))
    }

    /// Attaches the location of instruction `ip`, and a stack trace of the calls in progress,
    /// to this error. Consecutive repeats of the same call are shown once, followed by how
    /// many more times it repeated.
    pub fn with_stacktrace(
        self,
        ip: usize,
        call_stack: &Vec<CallFrame>,
        functions: &Vec<FunctionImpl>,
        locations: &Locations,
    ) -> (r: DetailRuntimeError)
        requires
            ip < locations.len(),
            frames_located(call_stack@, locations@),
        ensures
            r.error == self,
            r.target == locations@[ip as int],
            r.stack@.len() == trace(runs(call_sites(ip as int, call_stack@)), locations@, functions@).len(),
            forall|i: int| 0 <= i < r.stack@.len() ==> (#[trigger] r.stack@[i]).view()
                == trace(runs(call_sites(ip as int, call_stack@)), locations@, functions@)[i],
    {
        // Top level stack frame refers to the code being executed
        let target: Location = locations[ip];
        let mut stack: Vec<StackFrame> = Vec::new();
        let mut prev_ip: usize = ip;
        let mut prev_frame: Option<(usize, usize)> = None;
        let mut prev_count: usize = 0;

        let ghost frames = call_stack@;
        let ghost locs = locations@;
        let ghost fs = functions@;
        let ghost all_sites = call_sites(ip as int, frames);
        let ghost mut done: Seq<(int, int)> = seq![];
        proof {
            lemma_call_sites_in_range(ip as int, frames, locs);
        }

        let mut j = call_stack.len();
        proof {
            assert(frames.take(j as int) =~= frames);
            assert(done + all_sites =~= all_sites);
        }
        while j > 0
            invariant
                j <= call_stack.len(),
                frames == call_stack@,
                locs == locations@,
                fs == functions@,
                frames_located(frames, locs),
                all_sites == call_sites(ip as int, frames),
                all_sites == done + call_sites(prev_ip as int, frames.take(j as int)),
                prev_ip < locs.len(),
                done.len() + j <= frames.len(),
                done.len() == 0 ==> prev_frame is None && prev_count == 0,
                done.len() > 0 ==> prev_frame == Some((done.last().0 as usize, done.last().1 as usize))
                    && 0 <= done.last().0 && 0 <= done.last().1 <= usize::MAX && done.last().0 == prev_ip
                    && runs(done).last().1 == prev_count + 1,
                ({
                    let rs = runs(done);
                    let open = if rs.len() > 0 {
                        trace(rs.drop_last(), locs, fs) + seq![
                            FrameView::Simple(rs.last().0.0 as usize, locs[rs.last().0.0], owner_name(rs.last().0.1, fs)),
                        ]
                    } else {
                        seq![]
                    };
                    &&& stack@.len() == open.len()
                    &&& forall|i: int| 0 <= i < stack@.len() ==> (#[trigger] stack@[i]).view() == open[i]
                }),
            decreases j,
        {
            let ghost frames_j = frames.take(j as int);
            proof {
                assert(frames_j.drop_last() =~= frames.take(j - 1));
                assert(frames_j.last() == frames[j - 1]);
                lemma_call_sites_step(prev_ip as int, frames_j);
            }
            let frame = &call_stack[j - 1];
            if frame.return_ip > 0 {
                // Each frame from the call stack refers to the owning function of the previous frame
                let frame_ip: usize = frame.return_ip - 1;
                let ghost site: (int, int) = (frame_ip as int, prev_ip as int);
                proof {
                    assert(frames[j - 1].return_ip > 0);
                    assert(frame_ip < locs.len());
                    lemma_runs_len(done);
                    lemma_runs_len(done.push(site));
                    assert(done.push(site).drop_last() =~= done);
                }
                let ghost rs = runs(done);
                let ghost rs2 = runs(done.push(site));

                if prev_frame == Some((frame_ip, prev_ip)) {
                    prev_count += 1;
                    proof {
                        assert(rs2 == rs.update(rs.len() - 1, (site, rs.last().1 + 1)));
                        assert(rs2.drop_last() =~= rs.drop_last());
                    }
                } else {
                    proof {
                        assert(rs.len() > 0 ==> rs.last().0 != site);
                        assert(rs2 == rs.push((site, 1)));
                        assert(rs2.drop_last() =~= rs);
                    }
                    if prev_count > 0 {
                        // Push a 'repeat' element
                        stack.push(StackFrame::Repeat(prev_count))
                    }
                    proof {
                        if rs.len() > 0 {
                            assert(trace(rs, locs, fs) == trace(rs.drop_last(), locs, fs) + run_frames(rs.last(), locs, fs));
                        }
                    }
                    prev_count = 0;
                }

                if prev_count == 0 {
                    let name = find_owning_function(prev_ip, functions);
                    stack.push(StackFrame::Simple(frame_ip, locations[frame_ip], name));
                }

                prev_frame = Some((frame_ip, prev_ip));
                prev_ip = frame_ip;
                proof {
                    done = done.push(site);
                    assert(all_sites =~= done + call_sites(prev_ip as int, frames.take(j - 1)));
                    let open2 = trace(rs2.drop_last(), locs, fs) + seq![
                        FrameView::Simple(rs2.last().0.0 as usize, locs[rs2.last().0.0], owner_name(rs2.last().0.1, fs)),
                    ];
                    assert(stack@.len() == open2.len());
                }
            } else {
                proof {
                    assert(all_sites =~= done + call_sites(prev_ip as int, frames.take(j - 1)));
                }
            }
            j = j - 1;
        }

        proof {
            assert(frames.take(0) =~= Seq::<CallFrame>::empty());
            assert(done =~= all_sites);
        }
        if prev_count > 0 {
            stack.push(StackFrame::Repeat(prev_count))
        }

        DetailRuntimeError { error: self, target, stack }
    }
}


/// The line of the trace that shows one stack frame.
pub open spec fn frame_line(f: FrameView, text: Seq<char>) -> Seq<char> {
    match f {
        FrameView::Simple(_, loc, site) => "  at: `"@ + site + "` (line "@ + decimal(
            (newlines_before(text, loc.start as int) + 1) as int,
        ) + ")\n"@,
        FrameView::Repeat(n) => "  ... above line repeated "@ + decimal(n as int) + " more time(s) ...\n"@,
    }
}

/// The lines that show a sequence of stack frames.
pub open spec fn frame_lines(fs: Seq<FrameView>, text: Seq<char>) -> Seq<char>
    decreases fs.len(),
{
    if fs.len() == 0 {
        seq![]
    } else {
        frame_lines(fs.drop_last(), text) + frame_line(fs.last(), text)
    }
}

impl DetailRuntimeError {
    pub open spec fn frames(&self) -> Seq<FrameView> {
        self.stack@.map_values(|f: StackFrame| f.view())
    }

    /// The location of the instruction that raised the error.
    pub fn location(&self) -> (r: Location)
        ensures
            r == self.target,
    {
        self.target
    }

    /// Appends one line per stack frame at the end of `text`.
    pub fn add_stack_trace_elements(&self, view: &SourceView, text: &mut String)
        requires
            view.text@.len() < usize::MAX,
        ensures
            final(text)@ == old(text)@ + frame_lines(self.frames(), view.text@),
    {
        let mut k: usize = 0;
        while k < self.stack.len()
            invariant
                k <= self.stack.len(),
                view.text@.len() < usize::MAX,
                text@ == old(text)@ + frame_lines(self.frames().take(k as int), view.text@),
            decreases self.stack.len() - k,
        {
            let ghost before = text@;
            match &self.stack[k] {
                StackFrame::Simple(_, loc, site) => {
                    push_str(text, "  at: `");
                    push_str(text, site.as_str());
                    push_str(text, "` (line ");
                    let line = view.lineno(*loc);
                    push_usize(text, line + 1);
                    push_str(text, ")\n");
                },
                StackFrame::Repeat(n) => {
                    push_str(text, "  ... above line repeated ");
                    push_usize(text, *n);
                    push_str(text, " more time(s) ...\n");
                },
            }
            proof {
                assert(self.frames().take(k + 1 as int).drop_last() =~= self.frames().take(k as int));
                assert(text@ =~= before + frame_line(self.frames()[k as int], view.text@));
            }
            k = k + 1;
        }
        proof {
            assert(self.frames().take(self.stack.len() as int) =~= self.frames());
        }
    }
}

} // verus!
