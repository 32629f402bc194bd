//! The decoder: a one-pass recursive descent from bytes to a value tree.
//!
//! The parser consumes bytes left to right over a cursor and never backs
//! up.  Empty containers (`le`, `de`) are accepted; an integer or a byte
//! string whose input runs out before the rule completes is refused with
//! an end-of-input error.  Dictionary keys must be byte strings holding
//! valid UTF-8 text; a repeated key keeps its first position and takes the
//! last value (last write wins).  The integer rule is deliberately
//! permissive: leading zeros and `-0` are accepted on decode, though the
//! encoder never writes them.

use vstd::prelude::*;
use vstd::slice::slice_to_vec;
use vstd::string::StringExecFns;
use vstd::utf8::decode_utf8;
use vstd::utf8::valid_utf8;

use crate::bvalue::entries_view;
use crate::bvalue::lemma_entries_view;
use crate::bvalue::lemma_seq_view;
use crate::bvalue::seq_view;
use crate::bvalue::string_from_utf8;
use crate::bvalue::BValue;
use crate::bvalue::SpecValue;
use crate::bvalue::TOKEN_COLON;
use crate::bvalue::TOKEN_DICTIONARY;
use crate::bvalue::TOKEN_END;
use crate::bvalue::TOKEN_INTEGER;
use crate::bvalue::TOKEN_LIST;
use crate::decimal::all_digits;
use crate::decimal::digits_val;
use crate::decimal::int_body_val;
use crate::decimal::int_body_valid;
use crate::decimal::is_digit;
use crate::decimal::is_num;
use crate::decimal::parse_i64_decimal;
use crate::decimal::parse_usize_decimal;

verus! {

/// The rule that a parse failure violated; each variant keeps the exact
/// wording that the formatted message carries.
#[derive(PartialEq, Eq, Structural, Debug, Clone, Copy)]
pub enum ParseFault {
    /// The input ran out before a grammar rule completed.
    UnexpectedEndOfInput,
    /// A byte matched no expected token.
    UnexpectedCharacter,
    /// The body of an `i...e` term is not a base-10 signed 64-bit integer.
    MalformedInteger,
    /// The length prefix of a byte string does not fit the machine.
    LengthOverflow,
    /// The length prefix of a byte string is not followed by `:`.
    MissingLengthSeparator,
    /// A dictionary key position held a value that is not a byte string.
    KeyNotString,
    /// A dictionary key is not valid UTF-8 text.
    KeyNotUtf8,
}

/// The error taxonomy of the decoder, one category per grammar obligation.
#[derive(PartialEq, Eq, Structural, Debug, Clone, Copy)]
pub enum ParseErrorKind {
    UnexpectedEndOfInput,
    UnexpectedCharacter,
    MalformedInteger,
    MalformedLength,
    InvalidDictionaryKey,
}

impl ParseFault {
    /// The category of this fault.
    pub fn kind(self) -> (k: ParseErrorKind)
        ensures
            k == match self {
                ParseFault::UnexpectedEndOfInput => ParseErrorKind::UnexpectedEndOfInput,
                ParseFault::UnexpectedCharacter => ParseErrorKind::UnexpectedCharacter,
                ParseFault::MalformedInteger => ParseErrorKind::MalformedInteger,
                ParseFault::LengthOverflow => ParseErrorKind::MalformedLength,
                ParseFault::MissingLengthSeparator => ParseErrorKind::MalformedLength,
                ParseFault::KeyNotString => ParseErrorKind::InvalidDictionaryKey,
                ParseFault::KeyNotUtf8 => ParseErrorKind::InvalidDictionaryKey,
            },
    {
        match self {
            ParseFault::UnexpectedEndOfInput => ParseErrorKind::UnexpectedEndOfInput,
            ParseFault::UnexpectedCharacter => ParseErrorKind::UnexpectedCharacter,
            ParseFault::MalformedInteger => ParseErrorKind::MalformedInteger,
            ParseFault::LengthOverflow => ParseErrorKind::MalformedLength,
            ParseFault::MissingLengthSeparator => ParseErrorKind::MalformedLength,
            ParseFault::KeyNotString => ParseErrorKind::InvalidDictionaryKey,
            ParseFault::KeyNotUtf8 => ParseErrorKind::InvalidDictionaryKey,
        }
    }
}

/// The wording of each fault inside the formatted error message.
pub open spec fn spec_fault_text(f: ParseFault) -> Seq<char> {
    match f {
        ParseFault::UnexpectedEndOfInput => "premature end of input !"@,
        ParseFault::UnexpectedCharacter => "char not expected !"@,
        ParseFault::MalformedInteger => "integer malformed"@,
        ParseFault::LengthOverflow => "string size malformed"@,
        ParseFault::MissingLengthSeparator => "':' expected"@,
        ParseFault::KeyNotString => "dictionary key must be a string !"@,
        ParseFault::KeyNotUtf8 => "dictionary key is not a valid UTF8 string !"@,
    }
}

/// The unconsumed bytes shown beside an error: a window of at most 20
/// bytes starting at the failure position.
pub open spec fn excerpt(s: Seq<u8>, pos: int) -> Seq<u8>
    recommends
        0 <= pos <= s.len(),
{
    s.subrange(
        pos,
        if pos + 20 <= s.len() {
            pos + 20
        } else {
            s.len() as int
        },
    )
}

/// The formatted message of a parse failure: the fault's wording and the
/// upcoming window rendered as text, or a fixed notice when the window is
/// not valid UTF-8.
pub open spec fn spec_error_message(f: ParseFault, window: Seq<u8>) -> Seq<char> {
    if valid_utf8(window) {
        "Error: bcode could not be parsed: "@ + spec_fault_text(f) + " Precedes : "@ + decode_utf8(
            window,
        )
    } else {
        "can not display following bytes"@
    }
}

/// The smallest position at or after `pos` holding `target`, or the length
/// of the input when the byte never occurs.
pub open spec fn find_byte(s: Seq<u8>, pos: int, target: u8) -> int
    decreases s.len() - pos,
{
    if pos < 0 || pos >= s.len() {
        s.len() as int
    } else if s[pos] == target {
        pos
    } else {
        find_byte(s, pos + 1, target)
    }
}

/// The smallest position at or after `pos` holding a byte that is not an
/// ASCII digit, or the length of the input when the digits never end.
pub open spec fn find_non_digit(s: Seq<u8>, pos: int) -> int
    decreases s.len() - pos,
{
    if pos < 0 || pos >= s.len() {
        s.len() as int
    } else if !is_digit(s[pos]) {
        pos
    } else {
        find_non_digit(s, pos + 1)
    }
}

/// The target byte first occurs at `j`.
pub proof fn lemma_find_byte_at(s: Seq<u8>, pos: int, target: u8, j: int)
    requires
        0 <= pos <= j < s.len(),
        s[j] == target,
        forall|k: int| pos <= k < j ==> s[k] != target,
    ensures
        find_byte(s, pos, target) == j,
    decreases j - pos,
{
    if pos < j {
        lemma_find_byte_at(s, pos + 1, target, j);
    }
}

/// The search for a byte never lands before `pos` nor past the end.
pub proof fn lemma_find_byte_range(s: Seq<u8>, pos: int, target: u8)
    requires
        0 <= pos <= s.len(),
    ensures
        pos <= find_byte(s, pos, target) <= s.len(),
    decreases s.len() - pos,
{
    if pos < s.len() && s[pos] != target {
        lemma_find_byte_range(s, pos + 1, target);
    }
}

/// The first byte that is not a digit stands at `j`.
pub proof fn lemma_find_non_digit_at(s: Seq<u8>, pos: int, j: int)
    requires
        0 <= pos <= j < s.len(),
        !is_digit(s[j]),
        forall|k: int| pos <= k < j ==> is_digit(#[trigger] s[k]),
    ensures
        find_non_digit(s, pos) == j,
    decreases j - pos,
{
    if pos < j {
        lemma_find_non_digit_at(s, pos + 1, j);
    }
}

/// The search for a non-digit never lands before `pos` nor past the end.
pub proof fn lemma_find_non_digit_range(s: Seq<u8>, pos: int)
    requires
        0 <= pos <= s.len(),
    ensures
        pos <= find_non_digit(s, pos) <= s.len(),
    decreases s.len() - pos,
{
    if pos < s.len() && is_digit(s[pos]) {
        lemma_find_non_digit_range(s, pos + 1);
    }
}

/// Inserts into an association list: a present key keeps its position and
/// takes the new value; an absent key is appended.
pub open spec fn spec_insert(
    entries: Seq<(Seq<char>, SpecValue)>,
    key: Seq<char>,
    value: SpecValue,
) -> Seq<(Seq<char>, SpecValue)>
    decreases entries.len(),
{
    if entries.len() == 0 {
        seq![(key, value)]
    } else if entries[0].0 == key {
        seq![(key, value)] + entries.drop_first()
    } else {
        seq![entries[0]] + spec_insert(entries.drop_first(), key, value)
    }
}

/// The result of parsing one term at a position: the term's shape and the
/// position after it, or the fault and the position where the cursor stops.
pub open spec fn spec_parse_value(s: Seq<u8>, pos: int) -> Result<
    (SpecValue, int),
    (ParseFault, int),
>
    decreases s.len() - pos, 0int,
{
    if pos < 0 || pos >= s.len() {
        Err((ParseFault::UnexpectedEndOfInput, s.len() as int))
    } else if s[pos] == TOKEN_DICTIONARY {
        match spec_parse_entries(s, pos + 1, Seq::empty()) {
            Ok((entries, end)) => Ok((SpecValue::Dictionary(entries), end)),
            Err(e) => Err(e),
        }
    } else if s[pos] == TOKEN_INTEGER {
        spec_parse_integer(s, pos + 1)
    } else if s[pos] == TOKEN_LIST {
        match spec_parse_items(s, pos + 1, Seq::empty()) {
            Ok((items, end)) => Ok((SpecValue::List(items), end)),
            Err(e) => Err(e),
        }
    } else if is_digit(s[pos]) {
        spec_parse_bstring(s, pos)
    } else {
        Err((ParseFault::UnexpectedCharacter, pos + 1))
    }
}

/// Parses an integer term after its `i`: the bytes up to the next `e`
/// must be the decimal text of a signed 64-bit integer.
pub open spec fn spec_parse_integer(s: Seq<u8>, pos: int) -> Result<
    (SpecValue, int),
    (ParseFault, int),
> {
    let j = find_byte(s, pos, TOKEN_END);
    if j >= s.len() {
        Err((ParseFault::UnexpectedEndOfInput, s.len() as int))
    } else {
        let body = s.subrange(pos, j);
        if int_body_valid(body) {
            Ok((SpecValue::Integer(int_body_val(body)), j + 1))
        } else {
            Err((ParseFault::MalformedInteger, j + 1))
        }
    }
}

/// Parses a byte string from its first length digit: the digits, a `:`,
/// then exactly as many bytes as the digits denote.
pub open spec fn spec_parse_bstring(s: Seq<u8>, pos: int) -> Result<
    (SpecValue, int),
    (ParseFault, int),
> {
    let j = find_non_digit(s, pos);
    if j >= s.len() {
        Err((ParseFault::UnexpectedEndOfInput, s.len() as int))
    } else if s[j] != TOKEN_COLON {
        Err((ParseFault::MissingLengthSeparator, j + 1))
    } else {
        let n = digits_val(s.subrange(pos, j));
        if n > usize::MAX {
            Err((ParseFault::LengthOverflow, j + 1))
        } else if j + 1 + n > s.len() {
            Err((ParseFault::UnexpectedEndOfInput, j + 1))
        } else {
            Ok((SpecValue::String(s.subrange(j + 1, j + 1 + n)), j + 1 + n))
        }
    }
}

/// Parses list elements after the `l`, extending `acc`, until the closing
/// `e`.  A parsed element always moves the position forward, so the
/// impossible standstill is mapped to an end-of-input fault.
pub open spec fn spec_parse_items(s: Seq<u8>, pos: int, acc: Seq<SpecValue>) -> Result<
    (Seq<SpecValue>, int),
    (ParseFault, int),
>
    decreases s.len() - pos, 1int,
{
    if pos < 0 || pos >= s.len() {
        Err((ParseFault::UnexpectedEndOfInput, s.len() as int))
    } else if s[pos] == TOKEN_END {
        Ok((acc, pos + 1))
    } else {
        match spec_parse_value(s, pos) {
            Ok((v, end)) => if pos < end <= s.len() {
                spec_parse_items(s, end, acc.push(v))
            } else {
                Err((ParseFault::UnexpectedEndOfInput, s.len() as int))
            },
            Err(e) => Err(e),
        }
    }
}

/// Parses dictionary entries after the `d`, extending `acc`, until the
/// closing `e`: each entry is a byte-string key holding valid UTF-8 text,
/// then a value.
pub open spec fn spec_parse_entries(
    s: Seq<u8>,
    pos: int,
    acc: Seq<(Seq<char>, SpecValue)>,
) -> Result<(Seq<(Seq<char>, SpecValue)>, int), (ParseFault, int)>
    decreases s.len() - pos, 1int,
{
    if pos < 0 || pos >= s.len() {
        Err((ParseFault::UnexpectedEndOfInput, s.len() as int))
    } else if s[pos] == TOKEN_END {
        Ok((acc, pos + 1))
    } else {
        match spec_parse_value(s, pos) {
            Err(e) => Err(e),
            Ok((k, kend)) => if !(pos < kend <= s.len()) {
                Err((ParseFault::UnexpectedEndOfInput, s.len() as int))
            } else {
                match k {
                    SpecValue::String(kb) => if !valid_utf8(kb) {
                        Err((ParseFault::KeyNotUtf8, kend))
                    } else {
                        match spec_parse_value(s, kend) {
                            Err(e) => Err(e),
                            Ok((v, vend)) => if !(kend < vend <= s.len()) {
                                Err((ParseFault::UnexpectedEndOfInput, s.len() as int))
                            } else {
                                spec_parse_entries(
                                    s,
                                    vend,
                                    spec_insert(acc, decode_utf8(kb), v),
                                )
                            },
                        }
                    },
                    _ => Err((ParseFault::KeyNotString, kend)),
                }
            },
        }
    }
}

/// A cursor over an owned byte buffer; `parse` reads the next term from
/// the current position.
pub struct BDecoder {
    /// The bytes being parsed.
    pub input: Vec<u8>,
    /// The position of the next unread byte.
    pub pos: usize,
}

impl BDecoder {
    /// A decoder positioned at the start of a copy of the given bytes.
    pub fn new(to_parse: &Vec<u8>) -> (d: BDecoder)
        ensures
            d.input@ == to_parse@,
            d.pos == 0,
    {
        BDecoder { input: slice_to_vec(to_parse.as_slice()), pos: 0 }
    }

    /// Parses the next term.  On success the cursor stands after the term;
    /// on failure it stands where the fault was found, and the message
    /// names the violated rule and shows the unconsumed bytes.
    pub fn parse(&mut self) -> (r: Result<BValue, String>)
        ensures
            final(self).input@ == old(self).input@,
            match spec_parse_value(old(self).input@, old(self).pos as int) {
                Ok((sv, end)) => (r matches Ok(v) && v@ == sv && final(self).pos == end),
                Err((f, p)) => (r matches Err(m) && final(self).pos == p && m@
                    == spec_error_message(f, excerpt(old(self).input@, p))),
            },
    {
        if self.pos > self.input.len() {
            self.pos = self.input.len();
        }
        match self.parse_value() {
            Ok(v) => Ok(v),
            Err(f) => Err(self.parse_error(f)),
        }
    }

    /// Builds the formatted message for a fault found at the cursor.
    #[verifier::loop_isolation(false)]
    fn parse_error(&self, fault: ParseFault) -> (r: String)
        requires
            self.pos <= self.input@.len(),
        ensures
            r@ == spec_error_message(fault, excerpt(self.input@, self.pos as int)),
    {
        let limit: usize = if self.input.len() - self.pos < 20 {
            self.input.len() - self.pos
        } else {
            20
        };
        let mut window: Vec<u8> = Vec::new();
        let mut k: usize = 0;
        proof {
            assert(window@ =~= self.input@.subrange(self.pos as int, self.pos as int));
        }
        while k < limit
            invariant
                0 <= k <= limit,
                self.pos + limit <= self.input@.len(),
                window@ == self.input@.subrange(self.pos as int, self.pos as int + k as int),
            decreases limit - k,
        {
            window.push(self.input[self.pos + k]);
            k = k + 1;
            proof {
                assert(window@ =~= self.input@.subrange(
                    self.pos as int,
                    self.pos as int + k as int,
                ));
            }
        }
        proof {
            assert(window@ =~= excerpt(self.input@, self.pos as int));
        }
        match string_from_utf8(window) {
            Some(tail) => {
                let mut message = String::from_str("Error: bcode could not be parsed: ");
                message.append(fault_text(fault));
                message.append(" Precedes : ");
                message.append(tail.as_str());
                message
            },
            None => String::from_str("can not display following bytes"),
        }
    }

    /// Dispatches on the next byte: `d`, `i`, `l`, or a length digit.
    fn parse_value(&mut self) -> (r: Result<BValue, ParseFault>)
        requires
            old(self).pos <= old(self).input@.len(),
        ensures
            final(self).input@ == old(self).input@,
            final(self).pos <= final(self).input@.len(),
            r is Ok ==> old(self).pos < final(self).pos,
            match spec_parse_value(old(self).input@, old(self).pos as int) {
                Ok((sv, end)) => (r matches Ok(v) && v@ == sv && final(self).pos == end),
                Err((f, p)) => (r matches Err(g) && g == f && final(self).pos == p),
            },
        decreases self.input@.len() - self.pos, 0int,
    {
        if self.pos >= self.input.len() {
            self.pos = self.input.len();
            return Err(ParseFault::UnexpectedEndOfInput);
        }
        let b = self.input[self.pos];
        if b == TOKEN_DICTIONARY {
            self.pos = self.pos + 1;
            match self.parse_dictionary() {
                Ok(v) => Ok(v),
                Err(f) => Err(f),
            }
        } else if b == TOKEN_INTEGER {
            self.pos = self.pos + 1;
            self.parse_integer()
        } else if b == TOKEN_LIST {
            self.pos = self.pos + 1;
            match self.parse_list() {
                Ok(v) => Ok(v),
                Err(f) => Err(f),
            }
        } else if is_num(b) {
            self.parse_string()
        } else {
            self.pos = self.pos + 1;
            Err(ParseFault::UnexpectedCharacter)
        }
    }

    /// Reads an integer term after its `i`.
    #[verifier::loop_isolation(false)]
    fn parse_integer(&mut self) -> (r: Result<BValue, ParseFault>)
        requires
            old(self).pos <= old(self).input@.len(),
        ensures
            final(self).input@ == old(self).input@,
            final(self).pos <= final(self).input@.len(),
            r is Ok ==> old(self).pos < final(self).pos,
            match spec_parse_integer(old(self).input@, old(self).pos as int) {
                Ok((sv, end)) => (r matches Ok(v) && v@ == sv && final(self).pos == end),
                Err((f, p)) => (r matches Err(g) && g == f && final(self).pos == p),
            },
    {
        let ghost s0 = self.input@;
        let ghost p0 = self.pos as int;
        let mut body: Vec<u8> = Vec::new();
        proof {
            assert(body@ =~= s0.subrange(p0, p0));
        }
        while self.pos < self.input.len() && self.input[self.pos] != TOKEN_END
            invariant
                self.input@ == s0,
                0 <= p0 <= self.pos as int <= s0.len(),
                body@ == s0.subrange(p0, self.pos as int),
                find_byte(s0, p0, TOKEN_END) == find_byte(s0, self.pos as int, TOKEN_END),
            decreases s0.len() - self.pos,
        {
            body.push(self.input[self.pos]);
            self.pos = self.pos + 1;
            proof {
                assert(body@ =~= s0.subrange(p0, self.pos as int));
            }
        }
        if self.pos >= self.input.len() {
            return Err(ParseFault::UnexpectedEndOfInput);
        }
        self.pos = self.pos + 1;
        match parse_i64_decimal(&body) {
            Some(v) => Ok(BValue::Integer(v)),
            None => Err(ParseFault::MalformedInteger),
        }
    }

    /// Reads a byte string from its first length digit, on which the
    /// dispatch left the cursor standing.
    #[verifier::loop_isolation(false)]
    fn parse_string(&mut self) -> (r: Result<BValue, ParseFault>)
        requires
            old(self).pos < old(self).input@.len(),
            is_digit(old(self).input@[old(self).pos as int]),
        ensures
            final(self).input@ == old(self).input@,
            final(self).pos <= final(self).input@.len(),
            r is Ok ==> old(self).pos < final(self).pos,
            match spec_parse_bstring(old(self).input@, old(self).pos as int) {
                Ok((sv, end)) => (r matches Ok(v) && v@ == sv && final(self).pos == end),
                Err((f, p)) => (r matches Err(g) && g == f && final(self).pos == p),
            },
    {
        let ghost s0 = self.input@;
        let ghost p0 = self.pos as int;
        let mut digits: Vec<u8> = Vec::new();
        proof {
            assert(digits@ =~= s0.subrange(p0, p0));
        }
        while self.pos < self.input.len() && is_num(self.input[self.pos])
            invariant
                self.input@ == s0,
                0 <= p0 <= self.pos as int <= s0.len(),
                digits@ == s0.subrange(p0, self.pos as int),
                all_digits(digits@),
                find_non_digit(s0, p0) == find_non_digit(s0, self.pos as int),
            decreases s0.len() - self.pos,
        {
            digits.push(self.input[self.pos]);
            self.pos = self.pos + 1;
            proof {
                assert(digits@ =~= s0.subrange(p0, self.pos as int));
            }
        }
        if self.pos >= self.input.len() {
            return Err(ParseFault::UnexpectedEndOfInput);
        }
        let t = self.input[self.pos];
        self.pos = self.pos + 1;
        if t != TOKEN_COLON {
            return Err(ParseFault::MissingLengthSeparator);
        }
        match parse_usize_decimal(&digits) {
            None => Err(ParseFault::LengthOverflow),
            Some(n) => {
                if n > self.input.len() - self.pos {
                    return Err(ParseFault::UnexpectedEndOfInput);
                }
                let start = self.pos;
                let stop = start + n;
                let mut payload: Vec<u8> = Vec::new();
                proof {
                    assert(payload@ =~= s0.subrange(start as int, start as int));
                }
                while self.pos < stop
                    invariant
                        self.input@ == s0,
                        start as int + n as int <= s0.len(),
                        stop == start + n,
                        0 <= start as int <= self.pos as int <= start as int + n as int,
                        payload@ == s0.subrange(start as int, self.pos as int),
                        self.input@ == s0,
                    decreases start + n - self.pos,
                {
                    payload.push(self.input[self.pos]);
                    self.pos = self.pos + 1;
                    proof {
                        assert(payload@ =~= s0.subrange(start as int, self.pos as int));
                    }
                }
                Ok(BValue::String(payload))
            },
        }
    }

    /// Reads list elements after the `l`, to the closing `e`.
    #[verifier::loop_isolation(false)]
    fn parse_list(&mut self) -> (r: Result<BValue, ParseFault>)
        requires
            old(self).pos <= old(self).input@.len(),
        ensures
            final(self).input@ == old(self).input@,
            final(self).pos <= final(self).input@.len(),
            r is Ok ==> old(self).pos < final(self).pos,
            match spec_parse_items(old(self).input@, old(self).pos as int, Seq::empty()) {
                Ok((items, end)) => (r matches Ok(v) && v@ == SpecValue::List(items)
                    && final(self).pos == end),
                Err((f, p)) => (r matches Err(g) && g == f && final(self).pos == p),
            },
        decreases self.input@.len() - self.pos, 1int,
    {
        let ghost s0 = self.input@;
        let ghost p0 = self.pos as int;
        let mut res: Vec<BValue> = Vec::new();
        proof {
            assert(res@ =~= Seq::<BValue>::empty());
            assert(seq_view(res@) =~= Seq::<SpecValue>::empty());
        }
        while self.pos < self.input.len() && self.input[self.pos] != TOKEN_END
            invariant
                self.input@ == s0,
                0 <= p0 <= self.pos as int <= s0.len(),
                spec_parse_items(s0, p0, Seq::empty()) == spec_parse_items(
                    s0,
                    self.pos as int,
                    seq_view(res@),
                ),
            decreases s0.len() - self.pos,
        {
            let ghost res_before = res@;
            let ghost cur = self.pos as int;
            match self.parse_value() {
                Ok(v) => {
                    proof {
                        lemma_seq_view_push(res_before, v);
                    }
                    res.push(v);
                },
                Err(f) => {
                    return Err(f);
                },
            }
        }
        if self.pos >= self.input.len() {
            return Err(ParseFault::UnexpectedEndOfInput);
        }
        self.pos = self.pos + 1;
        Ok(BValue::List(res))
    }

    /// Reads dictionary entries after the `d`, to the closing `e`.
    #[verifier::loop_isolation(false)]
    fn parse_dictionary(&mut self) -> (r: Result<BValue, ParseFault>)
        requires
            old(self).pos <= old(self).input@.len(),
        ensures
            final(self).input@ == old(self).input@,
            final(self).pos <= final(self).input@.len(),
            r is Ok ==> old(self).pos < final(self).pos,
            match spec_parse_entries(old(self).input@, old(self).pos as int, Seq::empty()) {
                Ok((entries, end)) => (r matches Ok(v) && v@ == SpecValue::Dictionary(entries)
                    && final(self).pos == end),
                Err((f, p)) => (r matches Err(g) && g == f && final(self).pos == p),
            },
        decreases self.input@.len() - self.pos, 1int,
    {
        let ghost s0 = self.input@;
        let ghost p0 = self.pos as int;
        let mut res: Vec<(String, BValue)> = Vec::new();
        proof {
            assert(res@ =~= Seq::<(String, BValue)>::empty());
            assert(entries_view(res@) =~= Seq::<(Seq<char>, SpecValue)>::empty());
        }
        while self.pos < self.input.len() && self.input[self.pos] != TOKEN_END
            invariant
                self.input@ == s0,
                0 <= p0 <= self.pos as int <= s0.len(),
                spec_parse_entries(s0, p0, Seq::empty()) == spec_parse_entries(
                    s0,
                    self.pos as int,
                    entries_view(res@),
                ),
            decreases s0.len() - self.pos,
        {
            let ghost res_before = res@;
            let ghost cur = self.pos as int;
            let key_value = match self.parse_value() {
                Ok(v) => v,
                Err(f) => {
                    return Err(f);
                },
            };
            let key_bytes = match key_value {
                BValue::String(kb) => kb,
                _ => {
                    return Err(ParseFault::KeyNotString);
                },
            };
            let key = match string_from_utf8(key_bytes) {
                Some(k) => k,
                None => {
                    return Err(ParseFault::KeyNotUtf8);
                },
            };
            let value = match self.parse_value() {
                Ok(v) => v,
                Err(f) => {
                    return Err(f);
                },
            };
            insert_entry(&mut res, key, value);
        }
        if self.pos >= self.input.len() {
            return Err(ParseFault::UnexpectedEndOfInput);
        }
        self.pos = self.pos + 1;
        Ok(BValue::Dictionary(res))
    }
}

/// The wording of each fault.
fn fault_text(fault: ParseFault) -> (r: &'static str)
    ensures
        r@ == spec_fault_text(fault),
{
    match fault {
        ParseFault::UnexpectedEndOfInput => "premature end of input !",
        ParseFault::UnexpectedCharacter => "char not expected !",
        ParseFault::MalformedInteger => "integer malformed",
        ParseFault::LengthOverflow => "string size malformed",
        ParseFault::MissingLengthSeparator => "':' expected",
        ParseFault::KeyNotString => "dictionary key must be a string !",
        ParseFault::KeyNotUtf8 => "dictionary key is not a valid UTF8 string !",
    }
}

/// Inserts a decoded entry: a present key keeps its position and takes the
/// new value; an absent key is appended.
#[verifier::loop_isolation(false)]
fn insert_entry(entries: &mut Vec<(String, BValue)>, key: String, value: BValue)
    ensures
        entries_view(final(entries)@) == spec_insert(entries_view(old(entries)@), key@, value@),
{
    let ghost ev = entries_view(entries@);
    proof {
        lemma_entries_view(entries@);
    }
    let mut i: usize = 0;
    while i < entries.len()
        invariant
            0 <= i <= entries@.len(),
            entries@ == old(entries)@,
            ev == entries_view(entries@),
            ev.len() == entries@.len(),
            forall|k: int| 0 <= k < entries@.len() ==> #[trigger] ev[k] == (
                entries@[k].0@,
                entries@[k].1@,
            ),
            forall|k: int| 0 <= k < i ==> #[trigger] ev[k].0 != key@,
        decreases entries@.len() - i,
    {
        if entries[i].0 == key {
            proof {
                lemma_spec_insert_found(ev, key@, value@, i as int);
            }
            entries.set(i, (key, value));
            proof {
                lemma_entries_view_update(old(entries)@, i as int, (key, value));
            }
            return;
        }
        i = i + 1;
    }
    proof {
        lemma_spec_insert_missing(ev, key@, value@);
        lemma_entries_view_push(entries@, (key, value));
    }
    entries.push((key, value));
}

/// Appending an element and taking shapes commute.
pub proof fn lemma_seq_view_push(s: Seq<BValue>, x: BValue)
    ensures
        seq_view(s.push(x)) == seq_view(s).push(x@),
{
    lemma_seq_view(s);
    lemma_seq_view(s.push(x));
    assert(seq_view(s.push(x)) =~= seq_view(s).push(x@));
}

/// Appending an entry and taking shapes commute.
pub proof fn lemma_entries_view_push(s: Seq<(String, BValue)>, e: (String, BValue))
    ensures
        entries_view(s.push(e)) == entries_view(s).push((e.0@, e.1@)),
{
    lemma_entries_view(s);
    lemma_entries_view(s.push(e));
    assert(entries_view(s.push(e)) =~= entries_view(s).push((e.0@, e.1@)));
}

/// Updating an entry and taking shapes commute.
pub proof fn lemma_entries_view_update(s: Seq<(String, BValue)>, i: int, e: (String, BValue))
    requires
        0 <= i < s.len(),
    ensures
        entries_view(s.update(i, e)) == entries_view(s).update(i, (e.0@, e.1@)),
{
    lemma_entries_view(s);
    lemma_entries_view(s.update(i, e));
    assert(entries_view(s.update(i, e)) =~= entries_view(s).update(i, (e.0@, e.1@)));
}

/// When the key first occurs at position `i`, inserting replaces exactly
/// that entry.
pub proof fn lemma_spec_insert_found(
    entries: Seq<(Seq<char>, SpecValue)>,
    key: Seq<char>,
    value: SpecValue,
    i: int,
)
    requires
        0 <= i < entries.len(),
        entries[i].0 == key,
        forall|k: int| 0 <= k < i ==> #[trigger] entries[k].0 != key,
    ensures
        spec_insert(entries, key, value) == entries.update(i, (key, value)),
    decreases i,
{
    if i == 0 {
        assert(spec_insert(entries, key, value) =~= entries.update(0, (key, value)));
    } else {
        assert(entries[0].0 != key);
        lemma_spec_insert_found(entries.drop_first(), key, value, i - 1);
        assert(entries.drop_first()[i - 1].0 == key);
        assert(spec_insert(entries, key, value) =~= entries.update(i, (key, value)));
    }
}

/// When the key is absent, inserting appends the entry.
pub proof fn lemma_spec_insert_missing(
    entries: Seq<(Seq<char>, SpecValue)>,
    key: Seq<char>,
    value: SpecValue,
)
    requires
        forall|k: int| 0 <= k < entries.len() ==> #[trigger] entries[k].0 != key,
    ensures
        spec_insert(entries, key, value) == entries.push((key, value)),
    decreases entries.len(),
{
    if entries.len() == 0 {
        assert(spec_insert(entries, key, value) =~= entries.push((key, value)));
    } else {
        assert(entries[0].0 != key);
        lemma_spec_insert_missing(entries.drop_first(), key, value);
        assert(spec_insert(entries, key, value) =~= entries.push((key, value)));
    }
}

} // verus!
