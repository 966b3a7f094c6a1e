use vstd::prelude::*;

use super::stream::Stream;
use super::text::{decimal, push_decimal, push_spaces, spaces, utf8_len};

verus! {

/// What the parser was doing, or expected, where an error arose.
#[derive(Debug, Clone, Copy)]
pub enum ErrorContext {
    /// While parsing a function name.
    FunctionName,
    /// While parsing a function call.
    FunctionCall,
    /// While parsing a quoted string literal.
    StringLiteral,
    /// An opening parenthesis was expected.
    ExpectedOpenParen,
    /// A closing parenthesis was expected.
    ExpectedCloseParen,
    /// A quoted string was expected.
    ExpectedQuotedString,
    /// The name of a known function was expected.
    ExpectedKnownFunction,
    /// Arguments of the kinds declared for the function were expected.
    ExpectedDeclaredArguments,
}

impl ErrorContext {
    /// The text that names this context in an error report.
    pub open spec fn spec_description(self) -> Seq<char> {
        match self {
            ErrorContext::FunctionName => "Label(\"function name\")"@,
            ErrorContext::FunctionCall => "Label(\"function call\")"@,
            ErrorContext::StringLiteral => "Label(\"string literal\")"@,
            ErrorContext::ExpectedOpenParen => "Expected(CharLiteral('('))"@,
            ErrorContext::ExpectedCloseParen => "Expected(CharLiteral(')'))"@,
            ErrorContext::ExpectedQuotedString =>
                "Expected(Description(\"quoted string like \\\"value\\\"\"))"@,
            ErrorContext::ExpectedKnownFunction => "Expected(Description(\"known function\"))"@,
            ErrorContext::ExpectedDeclaredArguments =>
                "Expected(Description(\"arguments of the declared kinds\"))"@,
        }
    }

    /// The text that names this context in an error report.
    pub fn description(&self) -> (d: String)
        ensures
            d@ == self.spec_description(),
    {
        match self {
            ErrorContext::FunctionName => "Label(\"function name\")".to_owned(),
            ErrorContext::FunctionCall => "Label(\"function call\")".to_owned(),
            ErrorContext::StringLiteral => "Label(\"string literal\")".to_owned(),
            ErrorContext::ExpectedOpenParen => "Expected(CharLiteral('('))".to_owned(),
            ErrorContext::ExpectedCloseParen => "Expected(CharLiteral(')'))".to_owned(),
            ErrorContext::ExpectedQuotedString => {
                "Expected(Description(\"quoted string like \\\"value\\\"\"))".to_owned()
            },
            ErrorContext::ExpectedKnownFunction => {
                "Expected(Description(\"known function\"))".to_owned()
            },
            ErrorContext::ExpectedDeclaredArguments => {
                "Expected(Description(\"arguments of the declared kinds\"))".to_owned()
            },
        }
    }
}

/// One line per context, indented by two spaces, innermost first.
pub open spec fn context_lines(cs: Seq<ErrorContext>) -> Seq<char>
    decreases cs.len(),
{
    if cs.len() == 0 {
        Seq::empty()
    } else {
        context_lines(cs.drop_last()) + "  "@ + cs.last().spec_description() + "\n"@
    }
}

/// A parse error that remembers how far into the input it arose.
#[derive(Debug, Clone)]
pub struct FurthestError {
    /// The number of bytes (of the UTF-8 encoding) left unparsed where the error arose.
    pub remaining_len: usize,
    /// The text reported as the whole input.
    pub original: String,
    /// What the parser was doing, innermost first.
    pub context: Vec<ErrorContext>,
    /// Whether alternatives must no longer be tried.
    pub is_cut: bool,
}

impl FurthestError {
    /// An error at (character) position `pos` of `input`, with no context: it records
    /// the number of bytes from `pos` to the end, and the text `input` reports as whole.
    pub fn from_input(input: &Stream, pos: usize) -> (e: FurthestError)
        requires
            pos <= input@.len(),
        ensures
            e.remaining_len == utf8_len(input@.subrange(pos as int, input@.len() as int)),
            e.original@ == input.origin(),
            e.context@ == Seq::<ErrorContext>::empty(),
            !e.is_cut,
    {
        FurthestError {
            remaining_len: input.bytes_from(pos),
            original: input.origin_text(),
            context: Vec::new(),
            is_cut: false,
        }
    }

    /// Of two errors of alternatives: a cut error, else the one that arose further into
    /// the input (fewer bytes left), else `self`.
    pub open spec fn furthest_of(self, other: FurthestError) -> FurthestError {
        if self.is_cut {
            self
        } else if other.is_cut {
            other
        } else if other.remaining_len < self.remaining_len {
            other
        } else {
            self
        }
    }

    /// Chooses between two errors of alternatives: a cut error wins, else the one that
    /// arose further into the input, else `self`.
    pub fn or(self, other: FurthestError) -> (e: FurthestError)
        ensures
            e == self.furthest_of(other),
    {
        if self.is_cut {
            return self;
        }
        if other.is_cut {
            return other;
        }
        if other.remaining_len < self.remaining_len {
            other
        } else {
            self
        }
    }

    /// Marks the error so that alternatives are no longer tried.
    pub fn cut(self) -> (e: FurthestError)
        ensures
            e == (FurthestError { is_cut: true, ..self }),
    {
        let mut e = self;
        e.is_cut = true;
        e
    }

    /// Marks the error so that alternatives may be tried again.
    pub fn backtrack(self) -> (e: FurthestError)
        ensures
            e == (FurthestError { is_cut: false, ..self }),
    {
        let mut e = self;
        e.is_cut = false;
        e
    }

    /// The byte offset in the input where the error arose.
    pub open spec fn position(self) -> int {
        utf8_len(self.original@) - self.remaining_len
    }

    /// The report of the error: its byte offset, the input, a caret after as many spaces
    /// as that offset, and the contexts, if any.
    pub open spec fn spec_report(self) -> Seq<char> {
        "Parse error at position "@ + decimal(self.position() as nat) + ":\n"@ + self.original@
            + "\n"@ + spaces(self.position() as nat) + "^\n"@ + if self.context@.len() == 0 {
            Seq::empty()
        } else {
            "\nContext:\n"@ + context_lines(self.context@)
        }
    }

    /// The report of the error: its byte offset, the input, a caret after as many spaces
    /// as that offset, and the contexts, if any.
    pub fn report(&self) -> (r: String)
        requires
            self.remaining_len <= utf8_len(self.original@),
        ensures
            r@ == self.spec_report(),
    {
        let n = self.original.as_str().as_bytes().len();
        let pos = n - self.remaining_len;
        let mut r = "Parse error at position ".to_owned();
        push_decimal(&mut r, pos);
        r.append(":\n");
        r.append(self.original.as_str());
        r.append("\n");
        push_spaces(&mut r, pos);
        r.append("^\n");
        if self.context.len() > 0 {
            r.append("\nContext:\n");
            let ghost head = r@;
            let mut i: usize = 0;
            while i < self.context.len()
                invariant
                    i <= self.context@.len(),
                    r@ == head + context_lines(self.context@.subrange(0, i as int)),
                decreases self.context.len() - i,
            {
                r.append("  ");
                let d = self.context[i].description();
                r.append(d.as_str());
                r.append("\n");
                i = i + 1;
                assert(self.context@.subrange(0, i as int).drop_last() =~= self.context@.subrange(
                    0,
                    i - 1,
                ));
                assert(r@ =~= head + context_lines(self.context@.subrange(0, i as int)));
            }
            assert(self.context@.subrange(0, i as int) =~= self.context@);
        }
        r
    }

    /// Records what the parser was doing when the error arose.
    pub fn add_context(self, context: ErrorContext) -> (e: FurthestError)
        ensures
            e.remaining_len == self.remaining_len,
            e.original == self.original,
            e.context@ == self.context@.push(context),
            e.is_cut == self.is_cut,
    {
        let mut e = self;
        e.context.push(context);
        e
    }
}

} // verus!
