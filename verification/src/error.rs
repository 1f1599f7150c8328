//! The errors of the library: a kind, and the chain of contexts through which
//! the error passed on its way out.
use vstd::prelude::*;
use vstd::string::StringExecFns;

verus! {

/// What went wrong.
#[derive(Clone, Copy, Debug, PartialEq, Eq, Structural)]
pub enum ErrorKind {
    /// Two facts about the same value contradict each other.
    Unification,
    /// A dimension is symbolic, so a value cannot be computed yet.
    StreamTensor,
    /// The operator lacks the lowering that was asked of it.
    LoweringUnsupported,
    /// A patch refers to an outlet that the model does not hold.
    PatchApplication,
    /// An operator was handed tensors that do not fit it.
    Evaluation,
    /// An axis or ordering invariant of the graph is broken.
    InvariantViolation,
}

/// An error with the contexts it was wrapped in, innermost first.
#[derive(Debug)]
pub struct TractError {
    pub kind: ErrorKind,
    pub context: Vec<String>,
}

pub type TractResult<T> = Result<T, TractError>;

/// An error as contracts speak of it.
pub struct TractErrorView {
    pub kind: ErrorKind,
    pub context: Seq<Seq<char>>,
}

impl View for TractError {
    type V = TractErrorView;

    open spec fn view(&self) -> TractErrorView {
        TractErrorView { kind: self.kind, context: self.context.deep_view() }
    }
}

impl TractErrorView {
    /// The same error, one context further out.
    pub open spec fn chained(self, context: Seq<char>) -> TractErrorView {
        TractErrorView { kind: self.kind, context: self.context.push(context) }
    }
}

impl TractError {
    /// An error of the given kind, with one message.
    pub fn new(kind: ErrorKind, message: &str) -> (e: TractError)
        ensures
            e@ == (TractErrorView { kind, context: seq![message@] }),
    {
        let mut context: Vec<String> = Vec::new();
        context.push(String::from_str(message));
        let e = TractError { kind, context };
        assert(e.context.deep_view() =~= seq![message@]);
        e
    }

    /// Wraps the error in one more context. The kind stays.
    pub fn chain_err(self, context: String) -> (e: TractError)
        ensures
            e@ == self@.chained(context@),
    {
        let mut e = self;
        e.context.push(context);
        assert(e.context.deep_view() =~= self.context.deep_view().push(context@));
        e
    }

    pub fn kind(&self) -> (k: ErrorKind)
        ensures
            k == self.kind,
    {
        self.kind
    }
}

/// The contexts from the `k`-th on outwards, each followed by an arrow: the
/// outermost stands first.
pub open spec fn chain_text(context: Seq<Seq<char>>, k: nat) -> Seq<char>
    decreases context.len() - k,
{
    if k >= context.len() {
        Seq::empty()
    } else {
        chain_text(context, k + 1) + context[k as int] + " \u{2192} "@
    }
}

/// The name of a kind of error.
pub open spec fn kind_text(kind: ErrorKind) -> Seq<char> {
    match kind {
        ErrorKind::Unification => "unification error"@,
        ErrorKind::StreamTensor => "streaming dimension"@,
        ErrorKind::LoweringUnsupported => "lowering unsupported"@,
        ErrorKind::PatchApplication => "patch application failure"@,
        ErrorKind::Evaluation => "evaluation error"@,
        ErrorKind::InvariantViolation => "invariant violation"@,
    }
}

impl ErrorKind {
    /// The name of the kind.
    pub fn text(&self) -> (r: String)
        ensures
            r@ == kind_text(*self),
    {
        match self {
            ErrorKind::Unification => String::from_str("unification error"),
            ErrorKind::StreamTensor => String::from_str("streaming dimension"),
            ErrorKind::LoweringUnsupported => String::from_str("lowering unsupported"),
            ErrorKind::PatchApplication => String::from_str("patch application failure"),
            ErrorKind::Evaluation => String::from_str("evaluation error"),
            ErrorKind::InvariantViolation => String::from_str("invariant violation"),
        }
    }
}

impl TractError {
    /// The chain of causes as one line: the contexts from the outermost to
    /// the innermost, an arrow behind each, and then the kind of the error.
    pub fn message(&self) -> (r: String)
        ensures
            r@ == chain_text(self@.context, 0) + kind_text(self.kind),
    {
        let mut line = String::new();
        let mut k: usize = self.context.len();
        let ghost context = self.context.deep_view();
        assert(context == self@.context);
        while k > 0
            invariant
                k <= self.context@.len(),
                context == self.context.deep_view(),
                context.len() == self.context@.len(),
                line@ == chain_text(context, k as nat),
            decreases k,
        {
            k -= 1;
            assert(context[k as int] == self.context@[k as int]@);
            line.append(self.context[k].as_str());
            line.append(" \u{2192} ");
        }
        let kind = self.kind.text();
        line.append(kind.as_str());
        line
    }
}

} // verus!
