//! Syntax errors as text for a reader: what was expected, and where, shown on the source line.

use vstd::prelude::*;
use vstd::string::StringSliceAdditionalSpecFns;
use vstd::utf8::*;
use crate::failure::{Failure, SyntaxError};
use crate::text::{decimal, push_decimal, texts};

verus! {

/// The text that pest shows for an error with the given message at the given byte offset of
/// the input: the line and column, the line of the input, a mark under the column, and the
/// message.
pub uninterp spec fn diagnostic_text(input: Seq<char>, offset: int, message: Seq<char>) -> Seq<char>;

/// Makes a `pest::error::Error` of the `CustomError` variant with `Error::new_from_pos`, at
/// the `pest::Position` that `Position::new` gives for the input and the byte offset, and
/// hands back what its `Display` writes. The text depends on the input, the offset and the
/// message alone; that is all the contract claims of it. `Position::new` wants an offset on a
/// character boundary of the input.
#[verifier::external_body]
fn diagnostic(input: &str, offset: usize, message: &str) -> (text: String)
    requires
        is_char_boundary(input.spec_bytes(), offset as int),
    ensures
        text@ == diagnostic_text(input@, offset as int, message@),
{
    let position = pest::Position::new(input, offset).unwrap();
    let variant = pest::error::ErrorVariant::<()>::CustomError { message: message.to_string() };
    format!("{}", pest::error::Error::new_from_pos(variant, position))
}

/// The number of bytes that the first `count` characters take in UTF-8.
pub open spec fn bytes_before(input: Seq<char>, count: int) -> nat {
    encode_utf8(input.take(count)).len()
}

/// The bytes of some first characters of a text end on a character boundary of its bytes.
pub proof fn lemma_prefix_ends_on_boundary(input: Seq<char>, count: int)
    requires
        0 <= count <= input.len(),
    ensures
        is_char_boundary(encode_utf8(input), bytes_before(input, count) as int),
    decreases count,
{
    let bytes = encode_utf8(input);
    encode_utf8_valid_utf8(input);
    if count == 0 {
        assert(input.take(0) =~= Seq::empty());
    } else {
        let rest = input.drop_first();
        encode_utf8_first_scalar(input);
        encode_utf8_valid_utf8(rest);
        lemma_prefix_ends_on_boundary(rest, count - 1);
        assert(input.take(count).drop_first() =~= rest.take(count - 1));
        assert(input.take(count)[0] == input[0]);
        let head = encode_scalar(input[0] as u32);
        assert(pop_first_scalar(bytes) =~= encode_utf8(rest));
        assert(bytes_before(input, count) == head.len() + bytes_before(rest, count - 1));
        assert(head.len() >= 1);
        assert(bytes.len() == head.len() + encode_utf8(rest).len());
    }
}

/// The number of bytes that the first `count` characters of the input take.
fn byte_offset(input: &str, count: usize) -> (offset: usize)
    requires
        count <= input@.len(),
    ensures
        offset == bytes_before(input@, count as int),
        is_char_boundary(input.spec_bytes(), offset as int),
{
    proof {
        lemma_prefix_ends_on_boundary(input@, count as int);
    }
    let prefix = input.substring_char(0, count);
    assert(prefix@ =~= input@.take(count as int));
    prefix.as_bytes().len()
}

/// The texts with the separator between each two of them.
pub open spec fn joined(names: Seq<Seq<char>>, separator: Seq<char>) -> Seq<char>
    decreases names.len(),
{
    if names.len() == 0 {
        Seq::empty()
    } else if names.len() == 1 {
        names[0]
    } else {
        joined(names.drop_last(), separator) + separator + names.last()
    }
}

/// The names as an enumeration: `a`, `a or b`, `a, b, or c`.
pub open spec fn listing(names: Seq<Seq<char>>) -> Seq<char> {
    if names.len() == 0 {
        "nothing"@
    } else if names.len() == 1 {
        names[0]
    } else if names.len() == 2 {
        names[0] + " or "@ + names[1]
    } else {
        joined(names.drop_last(), ", "@) + ", or "@ + names.last()
    }
}

/// What a syntax error says: `expected`, and the names that were tried where it happened.
pub open spec fn message_text(expected: Seq<Seq<char>>) -> Seq<char> {
    "expected "@ + listing(expected)
}

/// A syntax error in one line: its line, its column, and its message.
pub open spec fn summary_text(failure: Failure) -> Seq<char> {
    "line "@ + decimal(failure.place.line) + ", column "@ + decimal(failure.place.column) + ": "@
        + message_text(failure.expected)
}

/// A syntax error as text for a reader: its message, shown on the line of the input at which
/// it happened where the error lies within the input, and alone where it does not.
pub open spec fn report_text(
    offset: nat,
    expected: Seq<Seq<char>>,
    input: Seq<char>,
) -> Seq<char> {
    if offset <= input.len() {
        diagnostic_text(input, bytes_before(input, offset as int) as int, message_text(expected))
    } else {
        message_text(expected)
    }
}

/// Appends the first `count` names with the separator between each two of them.
fn push_joined(out: &mut String, names: &Vec<String>, count: usize, separator: &str)
    requires
        count <= names.len(),
    ensures
        final(out)@ == old(out)@ + joined(texts(names@).take(count as int), separator@),
{
    let ghost all = texts(names@);
    let mut i: usize = 0;
    while i < count
        invariant
            i <= count <= names.len(),
            all == texts(names@),
            out@ == old(out)@ + joined(all.take(i as int), separator@),
        decreases count - i,
    {
        if i > 0 {
            out.append(separator);
        }
        out.append(names[i].as_str());
        proof {
            let upto = all.take(i + 1);
            assert(upto.drop_last() =~= all.take(i as int));
            assert(upto.last() == names@[i as int]@);
            assert(out@ =~= old(out)@ + joined(upto, separator@));
        }
        i += 1;
    }
}

impl SyntaxError {
    /// What the error says: `expected`, and the names that were tried where it happened, as an
    /// enumeration.
    pub fn message(&self) -> (text: String)
        ensures
            text@ == message_text(self@.expected),
    {
        let mut text = String::from_str("expected ");
        let ghost names = texts(self.expected@);
        let count = self.expected.len();
        if count == 0 {
            text.append("nothing");
        } else if count == 1 {
            text.append(self.expected[0].as_str());
        } else if count == 2 {
            text.append(self.expected[0].as_str());
            text.append(" or ");
            text.append(self.expected[1].as_str());
            assert(text@ =~= message_text(names));
        } else {
            push_joined(&mut text, &self.expected, count - 1, ", ");
            text.append(", or ");
            text.append(self.expected[count - 1].as_str());
            proof {
                assert(names.take(count - 1) =~= names.drop_last());
                assert(text@ =~= message_text(names));
            }
        }
        text
    }

    /// The error in one line: its line, its column, and what it says.
    pub fn summary(&self) -> (text: String)
        ensures
            text@ == summary_text(self@),
    {
        let mut text = String::from_str("line ");
        push_decimal(&mut text, self.position.line);
        text.append(", column ");
        push_decimal(&mut text, self.position.column);
        text.append(": ");
        let message = self.message();
        text.append(message.as_str());
        text
    }

    /// The error as text for a reader: its message, shown on the line of the input at which it
    /// happened. Meant for the input that was parsed; where the error lies beyond the end of
    /// `input`, the text is the message alone.
    pub fn report(&self, input: &str) -> (text: String)
        ensures
            text@ == report_text(self@.place.offset, self@.expected, input@),
    {
        let message = self.message();
        if self.position.offset <= input.unicode_len() {
            let offset = byte_offset(input, self.position.offset);
            diagnostic(input, offset, message.as_str())
        } else {
            message
        }
    }
}

} // verus!
