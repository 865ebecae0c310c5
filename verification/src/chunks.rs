//! Chunk syntax checking: matching bracket pairs over a persistent stack.

use vstd::prelude::*;
use crate::text::chars_of;

verus! {

/// Why a line could not be analyzed at all.
#[derive(Clone, Copy, Debug, PartialEq, Eq, Structural)]
pub enum ChunkError {
    InvalidCharacter,
}

#[verifier::external_type_specification]
#[verifier::external_body]
#[verifier::reject_recursive_types(A)]
pub struct ExImVector<A>(im::Vector<A>);

/// The characters a persistent vector holds, in order.
pub uninterp spec fn vector_chars(v: im::Vector<char>) -> Seq<char>;

/// Relies on `im::Vector::len`.
#[verifier::external_body]
pub(crate) fn stack_len(v: &im::Vector<char>) -> (r: usize)
    ensures
        r == vector_chars(*v).len(),
{
    v.len()
}

/// Relies on `im::Vector::last`: a view of the final element, if any.
#[verifier::external_body]
pub(crate) fn stack_last(v: &im::Vector<char>) -> (r: Option<char>)
    ensures
        match r {
            Option::Some(c) => vector_chars(*v).len() > 0 && c == vector_chars(*v).last(),
            Option::None => vector_chars(*v).len() == 0,
        },
{
    v.last().copied()
}

/// Relies on `im::Vector::push_back`: appends one element.
#[verifier::external_body]
pub(crate) fn stack_push(v: &mut im::Vector<char>, c: char)
    ensures
        vector_chars(*final(v)) == vector_chars(*old(v)).push(c),
{
    v.push_back(c)
}

/// Relies on `im::Vector::take`: the first `n` elements.
#[verifier::external_body]
pub(crate) fn stack_take(v: &im::Vector<char>, n: usize) -> (r: im::Vector<char>)
    requires
        n <= vector_chars(*v).len(),
    ensures
        vector_chars(r) == vector_chars(*v).take(n as int),
{
    v.take(n)
}

/// Relies on the vector's double-ended iterator: the elements in reverse
/// order.
#[verifier::external_body]
pub(crate) fn stack_reversed(v: im::Vector<char>) -> (r: im::Vector<char>)
    ensures
        vector_chars(r) == vector_chars(v).reverse(),
{
    v.into_iter().rev().collect()
}

/// The closing bracket matching an opening one.
pub open spec fn closing_of(c: char) -> Option<char> {
    if c == '(' {
        Some(')')
    } else if c == '[' {
        Some(']')
    } else if c == '{' {
        Some('}')
    } else if c == '<' {
        Some('>')
    } else {
        None
    }
}

pub open spec fn is_closing(c: char) -> bool {
    c == ')' || c == ']' || c == '}' || c == '>'
}

/// The matching closing bracket of an opening one.
pub fn get_closing(c: char) -> (r: Result<char, ChunkError>)
    ensures
        r == match closing_of(c) {
            Option::Some(cl) => Result::<char, ChunkError>::Ok(cl),
            Option::None => Result::<char, ChunkError>::Err(ChunkError::InvalidCharacter),
        },
{
    match c {
        '(' => Ok(')'),
        '[' => Ok(']'),
        '{' => Ok('}'),
        '<' => Ok('>'),
        _ => Err(ChunkError::InvalidCharacter),
    }
}

/// What analyzing a line against a stack of expected closers yields.
pub enum Outcome {
    Good,
    SyntaxError(char),
    Incomplete(Seq<char>),
    Invalid(char),
}

/// Walks the line: an opener pushes its closing bracket, a matching closer
/// pops it, a mismatched closer is a syntax error, anything else is invalid;
/// leftovers at the end mean an incomplete line, reported innermost first.
pub open spec fn analyze_spec(line: Seq<char>, stack: Seq<char>) -> Outcome
    decreases line.len(),
{
    if line.len() == 0 {
        if stack.len() == 0 {
            Outcome::Good
        } else {
            Outcome::Incomplete(stack.reverse())
        }
    } else {
        let c = line[0];
        match closing_of(c) {
            Option::Some(cl) => analyze_spec(line.drop_first(), stack.push(cl)),
            Option::None => {
                if is_closing(c) {
                    if stack.len() > 0 && stack.last() == c {
                        analyze_spec(line.drop_first(), stack.drop_last())
                    } else {
                        Outcome::SyntaxError(c)
                    }
                } else {
                    Outcome::Invalid(c)
                }
            },
        }
    }
}

/// A line's analysis: whether it is balanced, stops at a mismatched closer,
/// or ends with brackets still open.
#[derive(Debug)]
pub enum LineResult {
    Good,
    SyntaxError(char),
    Incomplete(im::Vector<char>),
}

impl LineResult {
    pub fn is_good(&self) -> (r: bool)
        ensures
            r == (self is Good),
    {
        match self {
            LineResult::Good => true,
            _ => false,
        }
    }

    pub fn is_syntax_error(&self) -> (r: bool)
        ensures
            r == (self is SyntaxError),
    {
        match self {
            LineResult::SyntaxError(_) => true,
            _ => false,
        }
    }

    pub fn is_incomplete(&self) -> (r: bool)
        ensures
            r == (self is Incomplete),
    {
        match self {
            LineResult::Incomplete(_) => true,
            _ => false,
        }
    }

    pub fn unwrap_syntax_error(self) -> (r: char)
        requires
            self is SyntaxError,
        ensures
            r == self->SyntaxError_0,
    {
        match self {
            LineResult::SyntaxError(c) => c,
            _ => unreached(),
        }
    }

    pub fn unwrap_incomplete(self) -> (r: im::Vector<char>)
        requires
            self is Incomplete,
        ensures
            r == self->Incomplete_0,
    {
        match self {
            LineResult::Incomplete(v) => v,
            _ => unreached(),
        }
    }
}

/// Analyzes one line of chunks starting from the given stack of expected
/// closing brackets.
pub fn analyze_line(line: &str, stack: im::Vector<char>) -> (r: Result<LineResult, ChunkError>)
    ensures
        match analyze_spec(line@, vector_chars(stack)) {
            Outcome::Good => r matches Result::Ok(lr) && lr is Good,
            Outcome::SyntaxError(c) => r matches Result::Ok(lr) && lr is SyntaxError
                && lr->SyntaxError_0 == c,
            Outcome::Incomplete(s) => r matches Result::Ok(lr) && lr is Incomplete && vector_chars(
                lr->Incomplete_0,
            ) == s,
            Outcome::Invalid(c) => r matches Result::Err(e) && e == ChunkError::InvalidCharacter,
        },
{
    let chars = chars_of(line);
    let ghost start = vector_chars(stack);
    let mut cur = stack;
    let mut i: usize = 0;
    proof {
        assert(chars@.skip(0) =~= chars@);
    }
    while i < chars.len()
        invariant
            chars@ == line@,
            i <= chars@.len(),
            analyze_spec(chars@.skip(i as int), vector_chars(cur)) == analyze_spec(line@, start),
            analyze_spec(line@, start) == analyze_spec(line@, vector_chars(stack)),
        decreases chars@.len() - i,
    {
        let ghost rest = chars@.skip(i as int);
        proof {
            assert(rest[0] == chars@[i as int]);
            assert(rest.drop_first() =~= chars@.skip(i + 1));
        }
        let c = chars[i];
        match get_closing(c) {
            Ok(cl) => {
                stack_push(&mut cur, cl);
            },
            Err(_) => {
                if c == ')' || c == ']' || c == '}' || c == '>' {
                    let top = stack_last(&cur);
                    let matches_top = match top {
                        Some(t) => t == c,
                        None => false,
                    };
                    if matches_top {
                        let n = stack_len(&cur);
                        let popped = stack_take(&cur, n - 1);
                        proof {
                            assert(vector_chars(popped) =~= vector_chars(cur).drop_last());
                        }
                        cur = popped;
                    } else {
                        return Ok(LineResult::SyntaxError(c));
                    }
                } else {
                    return Err(ChunkError::InvalidCharacter);
                }
            },
        }
        i = i + 1;
    }
    proof {
        assert(chars@.skip(chars@.len() as int) =~= Seq::<char>::empty());
    }
    if stack_len(&cur) == 0 {
        Ok(LineResult::Good)
    } else {
        Ok(LineResult::Incomplete(stack_reversed(cur)))
    }
}

} // verus!
