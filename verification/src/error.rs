//! The error and result types of this crate. Their names start with `Agc` to
//! keep them apart from those of `std`.

use vstd::prelude::*;
use vstd::string::StringExecFns;

verus! {

/// The kinds of error that this crate reports.
#[derive(Debug, Clone, Copy, PartialEq, Eq, Hash, Structural)]
pub enum AgcErrorKind {
    /// An index lies outside the sequence.
    OutOfBounds,
    /// Bounds that must come in a certain order do not.
    WrongOrder,
    /// A sequence that must be ordered is not.
    Unordered,
    /// Something that is to be added is there already.
    AlreadyExists,
    /// An edge would start and end in the same node.
    SameNode,
    /// Something that was looked for is not there.
    NotFound,
    /// Anything else.
    Other,
}

impl AgcErrorKind {
    /// The name of the kind, as it is written in the source.
    pub open spec fn name(self) -> Seq<char> {
        match self {
            AgcErrorKind::OutOfBounds => "OutOfBounds"@,
            AgcErrorKind::WrongOrder => "WrongOrder"@,
            AgcErrorKind::Unordered => "Unordered"@,
            AgcErrorKind::AlreadyExists => "AlreadyExists"@,
            AgcErrorKind::SameNode => "SameNode"@,
            AgcErrorKind::NotFound => "NotFound"@,
            AgcErrorKind::Other => "Other"@,
        }
    }

    /// The name of the kind as a string.
    pub fn to_string(&self) -> (text: String)
        ensures
            text@ == self.name(),
    {
        match self {
            AgcErrorKind::OutOfBounds => String::from_str("OutOfBounds"),
            AgcErrorKind::WrongOrder => String::from_str("WrongOrder"),
            AgcErrorKind::Unordered => String::from_str("Unordered"),
            AgcErrorKind::AlreadyExists => String::from_str("AlreadyExists"),
            AgcErrorKind::SameNode => String::from_str("SameNode"),
            AgcErrorKind::NotFound => String::from_str("NotFound"),
            AgcErrorKind::Other => String::from_str("Other"),
        }
    }
}

/// The error type of this crate: the kind of error that occurred and a short
/// description of what happened.
#[derive(Debug, PartialEq, Eq)]
pub struct AgcError {
    kind: AgcErrorKind,
    description: String,
}

/// The result type of this crate.
pub type AgcResult<T> = Result<T, AgcError>;

impl View for AgcError {
    type V = (AgcErrorKind, Seq<char>);

    closed spec fn view(&self) -> (AgcErrorKind, Seq<char>) {
        (self.kind, self.description@)
    }
}

impl AgcError {
    /// Create a new `AgcError` with the kind of error and a short description
    /// of what happened.
    pub fn new(kind: AgcErrorKind, description: &str) -> (error: Self)
        ensures
            error@ == (kind, description@),
    {
        AgcError { kind, description: String::from_str(description) }
    }

    /// The kind of error that occurred, for use in contracts.
    pub open spec fn spec_kind(&self) -> AgcErrorKind {
        self@.0
    }

    /// The kind of error that occurred.
    #[verifier::when_used_as_spec(spec_kind)]
    pub fn kind(&self) -> (kind: AgcErrorKind)
        ensures
            kind == self@.0,
    {
        self.kind
    }

    /// What happened, in words.
    pub fn description(&self) -> (description: &str)
        ensures
            description@ == self@.1,
    {
        self.description.as_str()
    }

    /// The kind and the description, with a colon between them.
    pub fn to_string(&self) -> (text: String)
        ensures
            text@ == self@.0.name() + ": "@ + self@.1,
    {
        let text = self.kind.to_string();
        let text = text.concat(": ");
        text.concat(self.description.as_str())
    }
}


/// `digits` is how `number` is written out.
pub open spec fn written(number: usize, digits: Seq<char>) -> bool {
    exists|text: String|
        text@ == digits
            && #[trigger] vstd::string::to_string_from_display_ensures::<usize>(&number, text)
}

/// `text` opens with `head`, names `number` and closes with `tail`.
pub open spec fn names_number(
    text: Seq<char>,
    head: Seq<char>,
    number: usize,
    tail: Seq<char>,
) -> bool {
    exists|digits: Seq<char>| #[trigger] written(number, digits) && text == head + digits + tail
}

/// `text` opens with `head`, names `first`, goes on with `between`, names
/// `second` and closes with `tail`.
pub open spec fn names_numbers(
    text: Seq<char>,
    head: Seq<char>,
    first: usize,
    between: Seq<char>,
    second: usize,
    tail: Seq<char>,
) -> bool {
    exists|a: Seq<char>, b: Seq<char>|
        #![trigger written(first, a), written(second, b)]
        written(first, a) && written(second, b) && text == head + a + between + b + tail
}

/// A description that opens with `head`, names `number` and closes with
/// `tail`.
pub(crate) fn describe_number(head: &str, number: usize, tail: &str) -> (text: String)
    ensures
        names_number(text@, head@, number, tail@),
{
    let digits = number.to_string();
    assert(written(number, digits@));
    let text = String::from_str(head);
    let text = text.concat(digits.as_str());
    text.concat(tail)
}

/// A description that opens with `head`, names `first`, goes on with
/// `between`, names `second` and closes with `tail`.
pub(crate) fn describe_numbers(
    head: &str,
    first: usize,
    between: &str,
    second: usize,
    tail: &str,
) -> (text: String)
    ensures
        names_numbers(text@, head@, first, between@, second, tail@),
{
    let a = first.to_string();
    let b = second.to_string();
    assert(written(first, a@));
    assert(written(second, b@));
    let text = String::from_str(head);
    let text = text.concat(a.as_str());
    let text = text.concat(between);
    let text = text.concat(b.as_str());
    text.concat(tail)
}

} // verus!
