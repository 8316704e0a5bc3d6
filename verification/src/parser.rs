//! Fluent parser for AT response and command frames.
//!
//! A parse runs against one immutable byte buffer.  Each `expect_*` call
//! consumes the parser and returns its successor; once a step fails, every
//! later step is a no-op that keeps the failure position, so a whole chain
//! can be written without intermediate error plumbing.

use crate::builder::spec_at_prefix;
use crate::builder::spec_finished;
use crate::builder::spec_trimmed;
use crate::formatter::lemma_int_bytes_len;
use crate::formatter::lemma_int_bytes_shape;
use crate::formatter::lemma_int_round_trip;
use crate::formatter::spec_int_bytes;
use crate::formatter::spec_parse_int;
use crate::tuple_concat::TupleConcat;
use vstd::prelude::*;
use vstd::string::StringSliceAdditionalSpecFns;
use vstd::utf8::valid_utf8;

verus! {

/// First position at or after `i` that does not hold a space, or the end of
/// the buffer.
pub open spec fn spec_trim(buf: Seq<u8>, i: int) -> int
    recommends
        0 <= i <= buf.len(),
    decreases buf.len() - i,
    when 0 <= i <= buf.len()
{
    if i < buf.len() && buf[i] == 32 {
        spec_trim(buf, i + 1)
    } else {
        i
    }
}

/// Bytes an integer parameter may be written with: decimal digits and the
/// two sign characters.
pub open spec fn is_int_byte(b: u8) -> bool {
    48 <= b && b <= 57 || b == 45 || b == 43
}

/// First position at or after `i` whose byte cannot belong to an integer
/// parameter, or the end of the buffer.
pub open spec fn spec_int_end(buf: Seq<u8>, i: int) -> int
    recommends
        0 <= i <= buf.len(),
    decreases buf.len() - i,
    when 0 <= i <= buf.len()
{
    if i < buf.len() && is_int_byte(buf[i]) {
        spec_int_end(buf, i + 1)
    } else {
        i
    }
}

proof fn lemma_int_end_bounds(buf: Seq<u8>, i: int)
    requires
        0 <= i <= buf.len(),
    ensures
        i <= spec_int_end(buf, i) <= buf.len(),
    decreases buf.len() - i,
{
    if i < buf.len() && is_int_byte(buf[i]) {
        lemma_int_end_bounds(buf, i + 1);
    }
}

/// First position at or after `i` holding a double quote, or the end of the
/// buffer.
pub open spec fn spec_find_quote(buf: Seq<u8>, i: int) -> int
    recommends
        0 <= i <= buf.len(),
    decreases buf.len() - i,
    when 0 <= i <= buf.len()
{
    if i >= buf.len() {
        buf.len() as int
    } else if buf[i] == 34 {
        i
    } else {
        spec_find_quote(buf, i + 1)
    }
}

proof fn lemma_find_quote_bounds(buf: Seq<u8>, i: int)
    requires
        0 <= i <= buf.len(),
    ensures
        i <= spec_find_quote(buf, i) <= buf.len(),
        spec_find_quote(buf, i) < buf.len() ==> buf[spec_find_quote(buf, i)] == 34,
    decreases buf.len() - i,
{
    if i < buf.len() && buf[i] != 34 {
        lemma_find_quote_bounds(buf, i + 1);
    }
}

/// Position of the quote closing a string parameter started at or after `i`:
/// the second quote at or after `i`, or the end of the buffer when the
/// remaining bytes hold fewer than two quotes.
pub open spec fn spec_quote2(buf: Seq<u8>, i: int) -> int
    recommends
        0 <= i <= buf.len(),
{
    let q1 = spec_find_quote(buf, i);
    if q1 < buf.len() {
        spec_find_quote(buf, q1 + 1)
    } else {
        buf.len() as int
    }
}

/// Bytes that close an unquoted free-text value: the ASCII control range.
pub open spec fn is_control_byte(b: u8) -> bool {
    b < 32 || b == 127
}

/// First position at or after `i` holding a control byte, or the end of the
/// buffer.
pub open spec fn spec_raw_end(buf: Seq<u8>, i: int) -> int
    recommends
        0 <= i <= buf.len(),
    decreases buf.len() - i,
    when 0 <= i <= buf.len()
{
    if i < buf.len() && !is_control_byte(buf[i]) {
        spec_raw_end(buf, i + 1)
    } else {
        i
    }
}

/// One `expect_identifier` step: whether the literal matches at `i`, and the
/// cursor afterwards.  A match advances past the literal and any following
/// spaces; a mismatch still advances past the literal; a literal longer than
/// the remaining bytes leaves the cursor in place.
pub open spec fn spec_ident_step(buf: Seq<u8>, i: int, id: Seq<u8>) -> (bool, int)
    recommends
        0 <= i <= buf.len(),
{
    if buf.len() - i < id.len() {
        (false, i)
    } else if buf.subrange(i, i + id.len()) == id {
        (true, spec_trim(buf, i + id.len()))
    } else {
        (false, i + id.len())
    }
}

/// One `expect_int_parameter` step: success flag, the value (zero on
/// failure), and the cursor afterwards.  The scanned span runs over digits
/// and signs; an empty span fails in place; otherwise the span is decoded
/// after dropping one leading plus sign, an optional separator comma is
/// consumed, and on success trailing spaces are skipped.
pub open spec fn spec_int_step(buf: Seq<u8>, i: int) -> (bool, i32, int)
    recommends
        0 <= i <= buf.len(),
{
    let end = spec_int_end(buf, i);
    if end == i {
        (false, 0i32, i)
    } else {
        let raw = buf.subrange(i, end);
        let digits = if raw[0] == 43 {
            raw.drop_first()
        } else {
            raw
        };
        let ni = if end < buf.len() && buf[end] == 44 {
            end + 1
        } else {
            end
        };
        match spec_parse_int(digits) {
            Some(v) => (true, v, spec_trim(buf, ni)),
            None => (false, 0i32, ni),
        }
    }
}

/// One `expect_string_parameter` step: success flag, the captured bytes
/// (empty on failure), and the cursor afterwards.  The capture runs from the
/// byte after the cursor up to the closing quote; when no closing quote
/// remains the step fails in place; a capture that is not valid UTF-8 fails
/// with the cursor advanced past the closing quote.
pub open spec fn spec_string_step(buf: Seq<u8>, i: int) -> (bool, Seq<u8>, int)
    recommends
        0 <= i <= buf.len(),
{
    let q2 = spec_quote2(buf, i);
    if q2 >= buf.len() {
        (false, Seq::<u8>::empty(), i)
    } else {
        let capture = buf.subrange(i + 1, q2);
        let ni = if q2 + 1 < buf.len() && buf[q2 + 1] == 44 {
            q2 + 2
        } else {
            q2 + 1
        };
        if valid_utf8(capture) {
            (true, capture, spec_trim(buf, ni))
        } else {
            (false, Seq::<u8>::empty(), ni)
        }
    }
}

/// One `expect_raw_string` step: success flag, the captured bytes (empty on
/// failure), and the cursor afterwards.  The capture runs up to the first
/// control byte or the end of the buffer, where the cursor then stands.
pub open spec fn spec_raw_step(buf: Seq<u8>, i: int) -> (bool, Seq<u8>, int)
    recommends
        0 <= i <= buf.len(),
{
    let end = spec_raw_end(buf, i);
    let capture = buf.subrange(i, end);
    if valid_utf8(capture) {
        (true, capture, spec_trim(buf, end))
    } else {
        (false, Seq::<u8>::empty(), end)
    }
}

/// Relies on core::str::from_utf8: it accepts exactly the byte sequences
/// that vstd's `valid_utf8` admits, and the view of the returned text spans
/// exactly the given bytes.
#[verifier::external_body]
fn bytes_as_str<'b>(v: &'b [u8]) -> (r: Option<&'b str>)
    ensures
        r is Some <==> valid_utf8(v@),
        r matches Some(s) ==> s.spec_bytes() == v@,
{
    core::str::from_utf8(v).ok()
}

/// The empty text, with its view pinned down for use as a placeholder.
fn empty_str() -> (s: &'static str)
    ensures
        s.spec_bytes() == Seq::<u8>::empty(),
{
    let s = "";
    proof {
        reveal_strlit("");
        assert(s@ =~= Seq::<char>::empty());
        assert(s.spec_bytes() =~= Seq::<u8>::empty());
    }
    s
}

/// Error type for parsing.
///
/// The number is the cursor position up to which the buffer was parsed
/// successfully.
#[derive(Debug, Clone)]
pub struct ParseError(pub usize);

/// Parses one frame held in a borrowed byte buffer, collecting the extracted
/// values in a tuple that grows by one element per expected parameter.
#[must_use]
pub struct CommandParser<'a, D> {
    buffer: &'a [u8],
    buffer_index: usize,
    data_valid: bool,
    data: D,
}

impl<'a, D> CommandParser<'a, D> {
    /// The bytes being parsed.
    pub closed spec fn buf(&self) -> Seq<u8> {
        self.buffer@
    }

    /// The cursor: how far parsing has advanced.
    pub closed spec fn pos(&self) -> int {
        self.buffer_index as int
    }

    /// Whether every step so far succeeded.
    pub closed spec fn valid(&self) -> bool {
        self.data_valid
    }

    /// The values collected so far.
    pub closed spec fn vals(&self) -> D {
        self.data
    }

    /// The cursor never leaves the buffer.
    pub closed spec fn wf(&self) -> bool {
        self.buffer_index <= self.buffer@.len()
    }
}

impl<'a> CommandParser<'a, ()> {
    /// Starts parsing the frame held in `buffer`.
    pub fn parse(buffer: &'a [u8]) -> (r: CommandParser<'a, ()>)
        ensures
            r.wf(),
            r.buf() == buffer@,
            r.pos() == 0,
            r.valid(),
            r.vals() == (),
    {
        CommandParser { buffer, buffer_index: 0, data_valid: true, data: () }
    }
}

impl<'a, D> CommandParser<'a, D> {
    /// Expects the literal `identifier` at the cursor; a mismatch invalidates
    /// the chain.  Spaces after a matched literal are skipped.
    pub fn expect_identifier(self, identifier: &[u8]) -> (r: Self)
        requires
            self.wf(),
        ensures
            r.wf(),
            r.buf() == self.buf(),
            r.vals() == self.vals(),
            !self.valid() ==> !r.valid() && r.pos() == self.pos(),
            self.valid() ==> ({
                let (ok, ni) = spec_ident_step(self.buf(), self.pos(), identifier@);
                r.valid() == ok && r.pos() == ni
            }),
    {
        if !self.data_valid {
            return self;
        }
        let CommandParser { buffer, buffer_index, data_valid: _, data } = self;
        if buffer.len() - buffer_index < identifier.len() {
            return CommandParser { buffer, buffer_index, data_valid: false, data };
        }
        let mut k: usize = 0;
        let mut all_equal = true;
        proof {
            assert(buffer@.subrange(buffer_index as int, buffer_index as int) =~= identifier@
                .subrange(0, 0));
        }
        while k < identifier.len()
            invariant
                buffer@.len() <= usize::MAX,
                buffer_index + identifier@.len() <= buffer@.len(),
                k <= identifier@.len(),
                all_equal == (buffer@.subrange(
                    buffer_index as int,
                    buffer_index + k,
                ) == identifier@.subrange(0, k as int)),
            decreases identifier@.len() - k,
        {
            let same = buffer[buffer_index + k] == identifier[k];
            proof {
                assert(buffer@.subrange(buffer_index as int, buffer_index + k + 1).subrange(
                    0,
                    k as int,
                ) =~= buffer@.subrange(buffer_index as int, buffer_index + k));
                assert(identifier@.subrange(0, k as int + 1).subrange(0, k as int) =~= identifier@
                    .subrange(0, k as int));
                if all_equal && same {
                    assert(buffer@.subrange(buffer_index as int, buffer_index + k + 1)
                        =~= buffer@.subrange(buffer_index as int, buffer_index + k).push(
                        buffer@[buffer_index + k],
                    ));
                    assert(identifier@.subrange(0, k as int + 1) =~= identifier@.subrange(
                        0,
                        k as int,
                    ).push(identifier@[k as int]));
                } else if !same {
                    assert(buffer@.subrange(buffer_index as int, buffer_index + k + 1)[k as int]
                        != identifier@.subrange(0, k as int + 1)[k as int]);
                }
            }
            all_equal = all_equal && same;
            k += 1;
        }
        proof {
            assert(identifier@.subrange(0, identifier@.len() as int) =~= identifier@);
        }
        let next = CommandParser {
            buffer,
            buffer_index: buffer_index + identifier.len(),
            data_valid: all_equal,
            data,
        };
        next.trim_space()
    }

    /// Moves the cursor over a run of spaces, when the chain is still valid.
    fn trim_space(self) -> (r: Self)
        requires
            self.wf(),
        ensures
            r.wf(),
            r.buf() == self.buf(),
            r.vals() == self.vals(),
            r.valid() == self.valid(),
            self.valid() ==> r.pos() == spec_trim(self.buf(), self.pos()),
            !self.valid() ==> r.pos() == self.pos(),
    {
        if !self.data_valid {
            return self;
        }
        let CommandParser { buffer, mut buffer_index, data_valid, data } = self;
        let ghost p0 = buffer_index as int;
        while buffer_index < buffer.len() && buffer[buffer_index] == 32
            invariant
                p0 <= buffer_index as int <= buffer@.len(),
                spec_trim(buffer@, p0) == spec_trim(buffer@, buffer_index as int),
            decreases buffer@.len() - buffer_index,
        {
            buffer_index += 1;
        }
        CommandParser { buffer, buffer_index, data_valid, data }
    }

    /// Finds where the integer parameter at the cursor ends.
    fn find_end_of_int_parameter(&self) -> (r: usize)
        requires
            self.wf(),
        ensures
            r as int == spec_int_end(self.buf(), self.pos()),
    {
        let mut j = self.buffer_index;
        while j < self.buffer.len() && (self.buffer[j] >= 48 && self.buffer[j] <= 57
            || self.buffer[j] == 45 || self.buffer[j] == 43)
            invariant
                self.pos() <= j as int <= self.buf().len(),
                spec_int_end(self.buf(), self.pos()) == spec_int_end(self.buf(), j as int),
            decreases self.buf().len() - j,
        {
            j += 1;
        }
        j
    }

    /// Finds the quote closing the string parameter at the cursor, or the
    /// end of the data when fewer than two quotes remain.
    fn find_end_of_string_parameter(&self) -> (r: usize)
        requires
            self.wf(),
        ensures
            r as int == spec_quote2(self.buf(), self.pos()),
            self.pos() <= r as int <= self.buf().len(),
    {
        let q1 = self.find_quote(self.buffer_index);
        if q1 < self.buffer.len() {
            let q2 = self.find_quote(q1 + 1);
            proof {
                lemma_find_quote_bounds(self.buf(), q1 as int + 1);
            }
            q2
        } else {
            q1
        }
    }

    /// Finds the first quote at or after `from`.
    fn find_quote(&self, from: usize) -> (r: usize)
        requires
            self.wf(),
            from as int <= self.buf().len(),
        ensures
            r as int == spec_find_quote(self.buf(), from as int),
            from as int <= r as int <= self.buf().len(),
    {
        let mut j = from;
        while j < self.buffer.len() && self.buffer[j] != 34
            invariant
                from as int <= j as int <= self.buf().len(),
                spec_find_quote(self.buf(), from as int) == spec_find_quote(self.buf(), j as int),
            decreases self.buf().len() - j,
        {
            j += 1;
        }
        j
    }

    /// Finds the control byte ending the unquoted value at the cursor, or
    /// the end of the data.
    fn find_end_of_raw_string(&self) -> (r: usize)
        requires
            self.wf(),
        ensures
            r as int == spec_raw_end(self.buf(), self.pos()),
            self.pos() <= r as int <= self.buf().len(),
    {
        let mut j = self.buffer_index;
        while j < self.buffer.len() && !(self.buffer[j] < 32 || self.buffer[j] == 127)
            invariant
                self.pos() <= j as int <= self.buf().len(),
                spec_raw_end(self.buf(), self.pos()) == spec_raw_end(self.buf(), j as int),
            decreases self.buf().len() - j,
        {
            j += 1;
        }
        j
    }

    /// Expects an integer parameter at the cursor and appends its value to
    /// the collected data; an empty or undecodable span invalidates the
    /// chain, which then carries a placeholder zero.
    pub fn expect_int_parameter(self) -> (r: CommandParser<'a, D::Out>) where D: TupleConcat<i32>
        requires
            self.wf(),
        ensures
            r.wf(),
            r.buf() == self.buf(),
            !self.valid() ==> !r.valid() && r.pos() == self.pos() && r.vals() == self.vals()
                .spec_cat(0i32),
            self.valid() ==> ({
                let (ok, v, ni) = spec_int_step(self.buf(), self.pos());
                r.valid() == ok && r.pos() == ni && r.vals() == self.vals().spec_cat(v)
            }),
    {
        if !self.data_valid {
            let CommandParser { buffer, buffer_index, data_valid, data } = self;
            return CommandParser { buffer, buffer_index, data_valid, data: data.tup_cat(0) };
        }
        let parameter_end = self.find_end_of_int_parameter();
        proof {
            lemma_int_end_bounds(self.buf(), self.pos());
        }
        let CommandParser { buffer, buffer_index, data_valid, data } = self;
        if parameter_end == buffer_index {
            return CommandParser { buffer, buffer_index, data_valid: false, data: data.tup_cat(0) };
        }
        let plus = buffer[buffer_index] == 43;
        let int_slice: &[u8] = if plus {
            &buffer[(buffer_index + 1)..parameter_end]
        } else {
            &buffer[buffer_index..parameter_end]
        };
        proof {
            let raw = buffer@.subrange(buffer_index as int, parameter_end as int);
            assert(raw[0] == buffer@[buffer_index as int]);
            if plus {
                assert(raw.drop_first() =~= buffer@.subrange(
                    buffer_index as int + 1,
                    parameter_end as int,
                ));
            }
        }
        let parsed_int = crate::formatter::parse_int(int_slice);
        let has_comma = parameter_end < buffer.len() && buffer[parameter_end] == 44;
        let new_index = if has_comma {
            parameter_end + 1
        } else {
            parameter_end
        };
        match parsed_int {
            Some(v) => {
                let next = CommandParser {
                    buffer,
                    buffer_index: new_index,
                    data_valid,
                    data: data.tup_cat(v),
                };
                next.trim_space()
            },
            None => CommandParser {
                buffer,
                buffer_index: new_index,
                data_valid: false,
                data: data.tup_cat(0),
            },
        }
    }

    /// Expects a quoted string parameter at the cursor and appends the text
    /// between the quotes to the collected data; a missing closing quote, or
    /// a capture that is not valid text, invalidates the chain, which then
    /// carries an empty string.
    pub fn expect_string_parameter(self) -> (r: CommandParser<'a, D::Out>) where
        D: TupleConcat<&'a str>,

        requires
            self.wf(),
        ensures
            r.wf(),
            r.buf() == self.buf(),
            !self.valid() ==> !r.valid() && r.pos() == self.pos() && (exists|s: &'a str|
                r.vals() == self.vals().spec_cat(s) && s.spec_bytes() == Seq::<u8>::empty()),
            self.valid() ==> ({
                let (ok, cap, ni) = spec_string_step(self.buf(), self.pos());
                &&& r.valid() == ok
                &&& r.pos() == ni
                &&& exists|s: &'a str| r.vals() == self.vals().spec_cat(s) && s.spec_bytes() == cap
            }),
    {
        if !self.data_valid {
            let CommandParser { buffer, buffer_index, data_valid, data } = self;
            let s: &str = empty_str();
            let next = CommandParser { buffer, buffer_index, data_valid, data: data.tup_cat(s) };
            return next;
        }
        let q2 = self.find_end_of_string_parameter();
        proof {
            lemma_find_quote_bounds(self.buf(), self.pos());
            let q1 = spec_find_quote(self.buf(), self.pos());
            if q1 < self.buf().len() {
                lemma_find_quote_bounds(self.buf(), q1 + 1);
            }
        }
        let CommandParser { buffer, buffer_index, data_valid, data } = self;
        if q2 >= buffer.len() {
            let s: &str = empty_str();
            return CommandParser {
                buffer,
                buffer_index,
                data_valid: false,
                data: data.tup_cat(s),
            };
        }
        let string_slice: &[u8] = &buffer[(buffer_index + 1)..q2];
        let has_comma = q2 + 1 < buffer.len() && buffer[q2 + 1] == 44;
        let new_index = if has_comma {
            q2 + 2
        } else {
            q2 + 1
        };
        match bytes_as_str(string_slice) {
            Some(s) => {
                let next = CommandParser {
                    buffer,
                    buffer_index: new_index,
                    data_valid,
                    data: data.tup_cat(s),
                };
                next.trim_space()
            },
            None => {
                let s: &str = empty_str();
                CommandParser {
                    buffer,
                    buffer_index: new_index,
                    data_valid: false,
                    data: data.tup_cat(s),
                }
            },
        }
    }

    /// Expects unquoted free text at the cursor, running up to the first
    /// control byte or the end of the buffer, and appends it to the
    /// collected data; a capture that is not valid text invalidates the
    /// chain, which then carries an empty string.
    pub fn expect_raw_string(self) -> (r: CommandParser<'a, D::Out>) where
        D: TupleConcat<&'a str>,

        requires
            self.wf(),
        ensures
            r.wf(),
            r.buf() == self.buf(),
            !self.valid() ==> !r.valid() && r.pos() == self.pos() && (exists|s: &'a str|
                r.vals() == self.vals().spec_cat(s) && s.spec_bytes() == Seq::<u8>::empty()),
            self.valid() ==> ({
                let (ok, cap, ni) = spec_raw_step(self.buf(), self.pos());
                &&& r.valid() == ok
                &&& r.pos() == ni
                &&& exists|s: &'a str| r.vals() == self.vals().spec_cat(s) && s.spec_bytes() == cap
            }),
    {
        if !self.data_valid {
            let CommandParser { buffer, buffer_index, data_valid, data } = self;
            let s: &str = empty_str();
            let next = CommandParser { buffer, buffer_index, data_valid, data: data.tup_cat(s) };
            return next;
        }
        let end = self.find_end_of_raw_string();
        let CommandParser { buffer, buffer_index, data_valid, data } = self;
        let string_slice: &[u8] = &buffer[buffer_index..end];
        match bytes_as_str(string_slice) {
            Some(s) => {
                let next = CommandParser {
                    buffer,
                    buffer_index: end,
                    data_valid,
                    data: data.tup_cat(s),
                };
                next.trim_space()
            },
            None => {
                let s: &str = empty_str();
                CommandParser {
                    buffer,
                    buffer_index: end,
                    data_valid: false,
                    data: data.tup_cat(s),
                }
            },
        }
    }

    /// Ends the chain: the collected values when every step succeeded, else
    /// the cursor position at which parsing diverged.
    pub fn finish(self) -> (r: Result<D, ParseError>)
        requires
            self.wf(),
        ensures
            self.valid() ==> r == Ok::<D, ParseError>(self.vals()),
            !self.valid() ==> (r matches Err(e) && e.0 as int == self.pos()),
    {
        if self.data_valid {
            Ok(self.data)
        } else {
            Err(ParseError(self.buffer_index))
        }
    }
}


/// A parameter of a `Set` command, as the round-trip law states it.
pub enum ParamSpec {
    Int(i32),
    Text(Seq<u8>),
}

/// The bytes the builder lays out for `p`, its separator comma included.
pub open spec fn spec_param_bytes(p: ParamSpec) -> Seq<u8> {
    match p {
        ParamSpec::Int(v) => spec_int_bytes(v as int) + seq![44u8],
        ParamSpec::Text(s) => seq![34u8] + s + seq![34u8] + seq![44u8],
    }
}

/// The bytes the builder lays out for a parameter list.
pub open spec fn spec_params_bytes(ps: Seq<ParamSpec>) -> Seq<u8>
    decreases ps.len(),
{
    if ps.len() == 0 {
        Seq::empty()
    } else {
        spec_param_bytes(ps[0]) + spec_params_bytes(ps.drop_first())
    }
}

/// The parameter bytes as they stand in a finished frame: finishing drops
/// the trailing separator comma of the last parameter.
pub open spec fn spec_params_wire(ps: Seq<ParamSpec>) -> Seq<u8> {
    if ps.len() == 0 {
        Seq::empty()
    } else {
        spec_params_bytes(ps).drop_last()
    }
}

/// The opening of a set command: the optional `AT` prefix, the name, and the
/// `=` that introduces the parameters.
pub open spec fn spec_set_head(at_prefix: bool, name: Seq<u8>) -> Seq<u8> {
    (if at_prefix {
        spec_at_prefix()
    } else {
        Seq::<u8>::empty()
    }) + name + seq![61u8]
}

/// Everything a set-command builder has laid out before finishing.
pub open spec fn spec_set_content(at_prefix: bool, name: Seq<u8>, ps: Seq<ParamSpec>) -> Seq<u8> {
    spec_set_head(at_prefix, name) + spec_params_bytes(ps)
}

/// A parameter the round-trip law covers: text must be valid and free of
/// quote bytes, since quoting does not escape them.
pub open spec fn spec_param_ok(p: ParamSpec) -> bool {
    match p {
        ParamSpec::Int(_) => true,
        ParamSpec::Text(s) => valid_utf8(s) && (forall|t: int| 0 <= t < s.len() ==> s[t] != 34),
    }
}

/// A terminator the round-trip law covers: nonempty, and not opening with a
/// byte that the scan of a final parameter, a separator comma, or a space
/// skip would swallow.
pub open spec fn spec_term_ok(term: Seq<u8>) -> bool {
    &&& term.len() > 0
    &&& !is_int_byte(term[0])
    &&& term[0] != 44
    &&& term[0] != 32
}

/// The expected-parameter steps matching `ps` all succeed on `buf`, read
/// back exactly the values the parameters were built from, and leave the
/// cursor at `end`.
pub open spec fn spec_params_parse_back(
    buf: Seq<u8>,
    i: int,
    ps: Seq<ParamSpec>,
    end: int,
) -> bool
    decreases ps.len(),
{
    if ps.len() == 0 {
        i == end
    } else {
        match ps[0] {
            ParamSpec::Int(v) => {
                let (ok, val, ni) = spec_int_step(buf, i);
                ok && val == v && spec_params_parse_back(buf, ni, ps.drop_first(), end)
            },
            ParamSpec::Text(s) => {
                let (ok, cap, ni) = spec_string_step(buf, i);
                ok && cap == s && spec_params_parse_back(buf, ni, ps.drop_first(), end)
            },
        }
    }
}

proof fn lemma_int_end_of_span(buf: Seq<u8>, i: int, j: int)
    requires
        0 <= i <= j <= buf.len(),
        forall|t: int| i <= t < j ==> is_int_byte(#[trigger] buf[t]),
        j == buf.len() || !is_int_byte(buf[j]),
    ensures
        spec_int_end(buf, i) == j,
    decreases j - i,
{
    if i < j {
        lemma_int_end_of_span(buf, i + 1, j);
    }
}

proof fn lemma_find_quote_of_span(buf: Seq<u8>, i: int, j: int)
    requires
        0 <= i <= j < buf.len(),
        forall|t: int| i <= t < j ==> buf[t] != 34,
        buf[j] == 34,
    ensures
        spec_find_quote(buf, i) == j,
    decreases j - i,
{
    if i < j {
        lemma_find_quote_of_span(buf, i + 1, j);
    }
}

proof fn lemma_param_bytes_shape(p: ParamSpec)
    requires
        spec_param_ok(p),
    ensures
        spec_param_bytes(p).len() >= 2,
        spec_param_bytes(p)[0] != 32,
        spec_param_bytes(p)[0] != 44,
{
    match p {
        ParamSpec::Int(v) => {
            lemma_int_bytes_len(v);
            lemma_int_bytes_shape(v);
            assert(spec_param_bytes(p)[0] == spec_int_bytes(v as int)[0]);
        },
        ParamSpec::Text(s) => {
            assert(spec_param_bytes(p)[0] == 34);
        },
    }
}

proof fn lemma_params_bytes_last(ps: Seq<ParamSpec>)
    requires
        ps.len() > 0,
    ensures
        spec_params_bytes(ps).len() >= 2,
        spec_params_bytes(ps).last() == 44u8,
    decreases ps.len(),
{
    match ps[0] {
        ParamSpec::Int(v) => {
            lemma_int_bytes_len(v);
        },
        ParamSpec::Text(_) => {},
    }
    if ps.len() == 1 {
        assert(spec_params_bytes(ps.drop_first()) =~= Seq::<u8>::empty());
        assert(spec_params_bytes(ps) =~= spec_param_bytes(ps[0]));
        assert(spec_param_bytes(ps[0]).last() == 44u8);
    } else {
        lemma_params_bytes_last(ps.drop_first());
    }
}

proof fn lemma_int_step_rendered(buf: Seq<u8>, i: int, v: i32, j: int)
    requires
        0 <= i,
        j == i + spec_int_bytes(v as int).len(),
        j <= buf.len(),
        buf.subrange(i, j) == spec_int_bytes(v as int),
        j == buf.len() || !is_int_byte(buf[j]),
    ensures
        ({
            let (ok, val, ni) = spec_int_step(buf, i);
            &&& ok
            &&& val == v
            &&& ni == spec_trim(
                buf,
                if j < buf.len() && buf[j] == 44 {
                    j + 1
                } else {
                    j
                },
            )
        }),
{
    lemma_int_bytes_len(v);
    lemma_int_bytes_shape(v);
    assert forall|t: int| i <= t < j implies is_int_byte(#[trigger] buf[t]) by {
        assert(buf.subrange(i, j)[t - i] == buf[t]);
        assert(spec_int_bytes(v as int)[t - i] == buf[t]);
    }
    lemma_int_end_of_span(buf, i, j);
    let raw = buf.subrange(i, j);
    assert(raw[0] == spec_int_bytes(v as int)[0]);
    assert(raw[0] != 43);
    lemma_int_round_trip(v);
    assert(spec_parse_int(raw) == Some(v));
}

proof fn lemma_string_step_rendered(buf: Seq<u8>, i: int, s: Seq<u8>, j: int)
    requires
        0 <= i,
        valid_utf8(s),
        forall|t: int| 0 <= t < s.len() ==> s[t] != 34,
        j == i + s.len() + 2,
        j < buf.len(),
        buf.subrange(i, j) == seq![34u8] + s + seq![34u8],
    ensures
        ({
            let (ok, cap, ni) = spec_string_step(buf, i);
            &&& ok
            &&& cap == s
            &&& ni == spec_trim(
                buf,
                if buf[j] == 44 {
                    j + 1
                } else {
                    j
                },
            )
        }),
{
    let rendered = seq![34u8] + s + seq![34u8];
    assert(buf[i] == rendered[0]);
    assert(buf[i] == 34);
    assert(spec_find_quote(buf, i) == i);
    assert forall|t: int| i + 1 <= t < j - 1 implies buf[t] != 34 by {
        assert(buf.subrange(i, j)[t - i] == buf[t]);
        assert(rendered[t - i] == s[t - i - 1]);
    }
    assert(buf[j - 1] == rendered[j - 1 - i]);
    assert(buf[j - 1] == 34);
    lemma_find_quote_of_span(buf, i + 1, j - 1);
    assert(spec_quote2(buf, i) == j - 1);
    assert forall|t: int| 0 <= t < s.len() implies buf[i + 1 + t] == s[t] by {
        assert(buf.subrange(i, j)[t + 1] == buf[i + 1 + t]);
        assert(rendered[t + 1] == s[t]);
    }
    assert(buf.subrange(i + 1, j - 1) =~= s);
}

proof fn lemma_params_region_parse_back(buf: Seq<u8>, i: int, ps: Seq<ParamSpec>, term: Seq<u8>)
    requires
        forall|k: int| 0 <= k < ps.len() ==> spec_param_ok(#[trigger] ps[k]),
        spec_term_ok(term),
        0 <= i,
        i + spec_params_wire(ps).len() + term.len() == buf.len(),
        buf.subrange(i, i + spec_params_wire(ps).len()) == spec_params_wire(ps),
        buf.subrange(buf.len() - term.len(), buf.len() as int) == term,
    ensures
        spec_params_parse_back(buf, i, ps, buf.len() - term.len()),
    decreases ps.len(),
{
    let end = buf.len() - term.len();
    let wire = spec_params_wire(ps);
    if ps.len() == 0 {
        assert(i == end);
    } else {
        let p0 = ps[0];
        let rest = ps.drop_first();
        assert(spec_param_ok(p0));
        lemma_param_bytes_shape(p0);
        assert(buf[end] == term[0]) by {
            assert(buf.subrange(end, buf.len() as int)[0] == buf[end]);
        }
        if ps.len() == 1 {
            assert(spec_params_bytes(rest) =~= Seq::<u8>::empty());
            assert(spec_params_bytes(ps) =~= spec_param_bytes(p0));
            assert(wire =~= spec_param_bytes(p0).drop_last());
            match p0 {
                ParamSpec::Int(v) => {
                    assert(wire =~= spec_int_bytes(v as int));
                    let j = i + spec_int_bytes(v as int).len();
                    assert(j == end);
                    assert(buf.subrange(i, j) == spec_int_bytes(v as int));
                    assert(!is_int_byte(buf[j]));
                    lemma_int_step_rendered(buf, i, v, j);
                    assert(buf[j] != 44);
                    assert(spec_trim(buf, j) == j);
                    assert(spec_params_parse_back(buf, j, rest, end));
                },
                ParamSpec::Text(s) => {
                    assert(wire =~= seq![34u8] + s + seq![34u8]);
                    let j = i + s.len() + 2;
                    assert(j == end);
                    assert(j < buf.len());
                    assert(buf.subrange(i, j) == seq![34u8] + s + seq![34u8]);
                    lemma_string_step_rendered(buf, i, s, j);
                    assert(buf[j] != 44);
                    assert(spec_trim(buf, j) == j);
                    assert(spec_params_parse_back(buf, j, rest, end));
                },
            }
        } else {
            lemma_params_bytes_last(rest);
            assert(spec_params_bytes(ps) == spec_param_bytes(p0) + spec_params_bytes(rest));
            assert(wire =~= spec_param_bytes(p0) + spec_params_wire(rest));
            let mid = i + spec_param_bytes(p0).len();
            assert forall|t: int| i <= t < i + wire.len() implies buf[t] == wire[t - i] by {
                assert(buf.subrange(i, i + wire.len() as int)[t - i] == buf[t]);
            }
            assert(buf.subrange(mid, mid + spec_params_wire(rest).len() as int) =~= spec_params_wire(
                rest,
            ));
            lemma_param_bytes_shape(rest[0]);
            assert(spec_params_wire(rest)[0] == spec_param_bytes(rest[0])[0]) by {
                lemma_params_bytes_last(rest);
                assert(spec_params_bytes(rest)[0] == spec_param_bytes(rest[0])[0]);
            }
            assert(buf[mid] == spec_param_bytes(rest[0])[0]) by {
                assert(spec_params_wire(rest).len() > 0);
            }
            assert(buf[mid] != 32);
            assert(spec_trim(buf, mid) == mid);
            match p0 {
                ParamSpec::Int(v) => {
                    lemma_int_bytes_len(v);
                    let j = i + spec_int_bytes(v as int).len();
                    assert(spec_param_bytes(p0) =~= spec_int_bytes(v as int) + seq![44u8]);
                    assert(buf.subrange(i, j) =~= spec_int_bytes(v as int));
                    assert(buf[j] == 44);
                    assert(j < buf.len());
                    lemma_int_step_rendered(buf, i, v, j);
                    assert(j + 1 == mid);
                },
                ParamSpec::Text(s) => {
                    let j = i + s.len() + 2;
                    assert(spec_param_bytes(p0) =~= (seq![34u8] + s + seq![34u8]).push(44u8));
                    assert(buf.subrange(i, j) =~= seq![34u8] + s + seq![34u8]);
                    assert(buf[j] == 44);
                    assert(j < buf.len());
                    lemma_string_step_rendered(buf, i, s, j);
                    assert(j + 1 == mid);
                },
            }
            lemma_params_region_parse_back(buf, mid, rest, term);
        }
    }
}

/// Round-trip law: a set command built from these values into a buffer that
/// holds it parses back through the matching expected-token chain.  The head
/// identifier (prefix, name, `=`) matches; each expected parameter succeeds
/// and yields exactly the value it was built from; and the terminator
/// identifier closes the frame with the whole buffer consumed.
pub proof fn lemma_build_parse_round_trip(
    at_prefix: bool,
    name: Seq<u8>,
    ps: Seq<ParamSpec>,
    term: Seq<u8>,
    cap: int,
)
    requires
        forall|k: int| 0 <= k < ps.len() ==> spec_param_ok(#[trigger] ps[k]),
        spec_term_ok(term),
        spec_finished(spec_set_content(at_prefix, name, ps), term, cap).len() <= cap,
    ensures
        ({
            let buf = spec_finished(spec_set_content(at_prefix, name, ps), term, cap);
            let head = spec_set_head(at_prefix, name);
            let (ok0, i0) = spec_ident_step(buf, 0, head);
            &&& ok0
            &&& i0 == head.len()
            &&& spec_params_parse_back(buf, i0, ps, buf.len() - term.len())
            &&& ({
                let (okt, it) = spec_ident_step(buf, buf.len() - term.len(), term);
                okt && it == buf.len()
            })
        }),
{
    let content = spec_set_content(at_prefix, name, ps);
    let head = spec_set_head(at_prefix, name);
    let buf = spec_finished(content, term, cap);
    assert(content.len() <= cap) by {
        if content.len() > cap {
            assert(spec_trimmed(content, cap) == content);
        }
    }
    let wire = spec_params_wire(ps);
    assert(head.len() >= 1);
    if ps.len() == 0 {
        assert(content =~= head);
        assert(content.last() == 61u8) by {
            assert(head.last() == 61u8);
        }
        assert(spec_trimmed(content, cap) == content);
        assert(buf =~= head + wire + term);
    } else {
        lemma_params_bytes_last(ps);
        assert(content.last() == 44u8) by {
            assert(spec_params_bytes(ps).len() > 0);
        }
        assert(spec_trimmed(content, cap) == content.drop_last());
        assert(content.drop_last() =~= head + wire);
        assert(buf =~= head + wire + term);
    }
    let i0 = head.len() as int;
    let end = buf.len() - term.len();
    assert(end == i0 + wire.len());
    assert forall|t: int| 0 <= t < buf.len() implies buf[t] == (head + wire + term)[t] by {}
    assert(buf.subrange(0, i0) =~= head);
    assert(buf.subrange(i0, end) =~= wire);
    assert(buf.subrange(end, buf.len() as int) =~= term);
    // the head identifier matches and no space follows it
    assert(buf[i0] != 32) by {
        if ps.len() == 0 {
            assert(buf[i0] == term[0]);
        } else {
            lemma_params_bytes_last(ps);
            lemma_param_bytes_shape(ps[0]);
            assert(wire[0] == spec_param_bytes(ps[0])[0]) by {
                assert(spec_params_bytes(ps)[0] == spec_param_bytes(ps[0])[0]);
            }
            assert(buf[i0] == wire[0]);
        }
    }
    assert(spec_trim(buf, i0) == i0);
    assert(spec_ident_step(buf, 0, head) == (true, i0));
    lemma_params_region_parse_back(buf, i0, ps, term);
    // the terminator identifier consumes the rest
    assert(spec_trim(buf, buf.len() as int) == buf.len());
    assert(spec_ident_step(buf, end, term) == (true, buf.len() as int));
}

} // verus!
