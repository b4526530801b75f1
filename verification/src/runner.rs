//! What the command-line driver reports, and the steps between reading a
//! source file and compiling or interpreting it that need no input or
//! output.
use vstd::prelude::*;
use crate::compile::{CompileErr, ErrView, err_text, same_error};
use crate::interp::{InterpErr, ErrV, interp_err_text};
use crate::lexer::{FileInfo, Span1, Span2, span1_to_span2, span2_of, span_fits};

verus! {

/// What goes wrong when running the compiler or the interpreter on a file.
#[derive(Debug, PartialEq, Eq)]
pub enum RunnerErr<Span> {
    FileOpen(String),
    Lex(String),
    Parse(String),
    CodeGen(CompileErr<Span>),
    Link(String),
    Interp(InterpErr),
    Run(String),
}

/// A driver error, its texts taken by their views.
pub enum RunnerErrV<Span> {
    FileOpen(Seq<char>),
    Lex(Seq<char>),
    Parse(Seq<char>),
    CodeGen(ErrView<Span>),
    Link(Seq<char>),
    Interp(ErrV),
    Run(Seq<char>),
}

impl<Span> View for RunnerErr<Span> {
    type V = RunnerErrV<Span>;

    open spec fn view(&self) -> RunnerErrV<Span> {
        match *self {
            RunnerErr::FileOpen(s) => RunnerErrV::FileOpen(s@),
            RunnerErr::Lex(s) => RunnerErrV::Lex(s@),
            RunnerErr::Parse(s) => RunnerErrV::Parse(s@),
            RunnerErr::CodeGen(e) => RunnerErrV::CodeGen(e@),
            RunnerErr::Link(s) => RunnerErrV::Link(s@),
            RunnerErr::Interp(e) => RunnerErrV::Interp(e@),
            RunnerErr::Run(s) => RunnerErrV::Run(s@),
        }
    }
}

/// The message of a driver error.
pub open spec fn runner_err_text(e: RunnerErrV<Span2>) -> Seq<char> {
    match e {
        RunnerErrV::FileOpen(s) => "Error reading file: "@ + s,
        RunnerErrV::Lex(s) => "Error lexing input: "@ + s,
        RunnerErrV::Parse(s) => "Error parsing input: "@ + s,
        RunnerErrV::CodeGen(ce) => "Error generating assembly: "@ + err_text(ce),
        RunnerErrV::Link(s) => "Error linking generated assembly with runtime: "@ + s,
        RunnerErrV::Interp(ie) => "Error in interpreter: "@ + interp_err_text(ie),
        RunnerErrV::Run(s) => "Error running your compiled output: "@ + s,
    }
}

fn prefixed(prefix: &str, s: &str) -> (r: String)
    ensures
        r@ == prefix@ + s@,
{
    let mut r = String::from_str(prefix);
    r.append(s);
    r
}

impl RunnerErr<Span2> {
    /// The message of the error.
    pub fn describe(&self) -> (s: String)
        ensures
            s@ == runner_err_text(self@),
    {
        match self {
            RunnerErr::FileOpen(s) => prefixed("Error reading file: ", s.as_str()),
            RunnerErr::Lex(s) => prefixed("Error lexing input: ", s.as_str()),
            RunnerErr::Parse(s) => prefixed("Error parsing input: ", s.as_str()),
            RunnerErr::CodeGen(ce) => prefixed("Error generating assembly: ", ce.describe().as_str()),
            RunnerErr::Link(s) => prefixed("Error linking generated assembly with runtime: ", s.as_str()),
            RunnerErr::Interp(ie) => prefixed("Error in interpreter: ", ie.describe().as_str()),
            RunnerErr::Run(s) => prefixed("Error running your compiled output: ", s.as_str()),
        }
    }
}

/// The driver's report of a checking or code-generation error: the same
/// error, located by line and column in the file.
pub fn locate_error(info: &FileInfo, e: &CompileErr<Span1>) -> (r: RunnerErr<Span2>)
    requires
        info.wf(),
        span_fits(*info, e.location()),
    ensures
        r matches RunnerErr::CodeGen(e2) && same_error(e@, e2@) && e2.location() == span2_of(*info, e.location()),
{
    let f = |s: &Span1| -> (t: Span2) requires info.wf(), span_fits(*info, *s) ensures t == span2_of(*info, *s) { span1_to_span2(info, *s) };
    let e2 = e.map_span(f);
    RunnerErr::CodeGen(e2)
}

} // verus!
