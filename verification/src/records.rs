//! Reading destinations and orders from delimited text: one record on a
//! line, its fields separated by a comma and a space.

use crate::entities::{Destination, DestinationName, Order, Priority};
use vstd::prelude::*;
use vstd::string::StrSliceExecFns;

verus! {

/// The place of the first line feed of a text, or the length of the text if
/// it has none.
pub open spec fn line_end(text: Seq<char>) -> int
    decreases text.len(),
{
    if text.len() == 0 || text[0] == '\n' {
        0
    } else {
        1 + line_end(text.skip(1))
    }
}

/// A line without the carriage return at its end, if it ends in one.
pub open spec fn without_return(line: Seq<char>) -> Seq<char> {
    if line.len() > 0 && line.last() == '\r' {
        line.drop_last()
    } else {
        line
    }
}

/// The lines of a text. A line ends at a line feed, or at a carriage return
/// that a line feed follows; neither belongs to the line. What follows the
/// last line feed is a line if it is not empty.
pub open spec fn lines_of(text: Seq<char>) -> Seq<Seq<char>>
    decreases text.len(),
{
    if text.len() == 0 {
        Seq::empty()
    } else {
        let end = line_end(text);
        if 0 <= end < text.len() {
            seq![without_return(text.take(end))] + lines_of(text.skip(end + 1))
        } else {
            seq![text]
        }
    }
}

/// Whether a comma and a space stand at place `i` of a line.
pub open spec fn separator_at(line: Seq<char>, i: int) -> bool {
    0 <= i && i + 1 < line.len() && line[i] == ',' && line[i + 1] == ' '
}

/// The place of the first separator of a line, or the length of the line if
/// it has none.
pub open spec fn field_end(line: Seq<char>) -> int
    decreases line.len(),
{
    if line.len() < 2 {
        line.len() as int
    } else if separator_at(line, 0) {
        0
    } else {
        1 + field_end(line.skip(1))
    }
}

/// The fields of a line: what stands before, between and behind its
/// separators, taken from the left.
pub open spec fn fields_of(line: Seq<char>) -> Seq<Seq<char>>
    decreases line.len(),
{
    let end = field_end(line);
    if 0 <= end && end + 2 <= line.len() {
        seq![line.take(end)] + fields_of(line.skip(end + 2))
    } else {
        seq![line]
    }
}

/// The first line feed of a text stands where no line feed stands before.
pub proof fn lemma_line_end(text: Seq<char>, i: int)
    requires
        0 <= i <= text.len(),
        forall|k: int| 0 <= k < i ==> text[k] != '\n',
        i == text.len() || text[i] == '\n',
    ensures
        line_end(text) == i,
    decreases i,
{
    if i > 0 {
        let rest = text.skip(1);
        assert forall|k: int| 0 <= k < i - 1 implies rest[k] != '\n' by {
            assert(rest[k] == text[k + 1]);
        }
        lemma_line_end(rest, i - 1);
    }
}

/// The first separator of a line stands where no separator stands before.
pub proof fn lemma_field_end(line: Seq<char>, i: int)
    requires
        0 <= i <= line.len(),
        forall|k: int| 0 <= k < i ==> !separator_at(line, k),
        separator_at(line, i) || i == line.len(),
    ensures
        field_end(line) == i,
    decreases line.len(),
{
    if line.len() < 2 {
        if i < line.len() {
            assert(!separator_at(line, i));
        }
        if i == 1 && line.len() == 1 {
        }
    } else if separator_at(line, 0) {
    } else {
        let rest = line.skip(1);
        assert forall|k: int| 0 <= k < i - 1 implies !separator_at(rest, k) by {
            assert(!separator_at(line, k + 1));
            if k + 1 < rest.len() {
                assert(rest[k] == line[k + 1]);
                assert(rest[k + 1] == line[k + 2]);
            }
        }
        if i < line.len() {
            assert(rest[i - 1] == line[i]);
            assert(rest[i] == line[i + 1]);
            assert(separator_at(rest, i - 1));
        }
        lemma_field_end(rest, i - 1);
    }
}

/// A stretch of a text: the characters from `from` up to `to`.
pub struct Span {
    pub from: usize,
    pub to: usize,
}

impl Span {
    /// The characters of the stretch.
    pub open spec fn of(self, text: Seq<char>) -> Seq<char> {
        text.subrange(self.from as int, self.to as int)
    }

    /// The stretch lies within the stretch from `from` to `to`.
    pub open spec fn within(self, from: int, to: int) -> bool {
        from <= self.from <= self.to <= to
    }
}

/// The characters of each of the stretches of a text.
pub open spec fn pieces(spans: Seq<Span>, text: Seq<char>) -> Seq<Seq<char>> {
    spans.map_values(|span: Span| span.of(text))
}

/// The stretches of a text are the given pieces.
pub open spec fn spans_are(spans: Seq<Span>, text: Seq<char>, pieces: Seq<Seq<char>>) -> bool {
    &&& spans.len() == pieces.len()
    &&& forall|i: int|
        0 <= i < spans.len() ==> (#[trigger] spans[i]).within(0, text.len() as int) && spans[i].of(
            text,
        ) == pieces[i]
}

/// The characters of a text.
pub fn characters(text: &str) -> (chars: Vec<char>)
    ensures
        chars@ == text@,
{
    let mut chars: Vec<char> = Vec::new();
    for c in it: text.chars()
        invariant
            it.seq() == text@,
            chars@ == text@.take(it.index() as int),
    {
        assert(text@.take(it.index() + 1) == text@.take(it.index() as int).push(c));
        chars.push(c);
    }
    assert(text@.take(text@.len() as int) == text@);
    chars
}

/// The lines of a text, as stretches of it.
pub fn split_lines(chars: &Vec<char>) -> (lines: Vec<Span>)
    ensures
        spans_are(lines@, chars@, lines_of(chars@)),
{
    let ghost text = chars@;
    let mut lines: Vec<Span> = Vec::new();
    let mut start: usize = 0;
    proof {
        assert(text.skip(0) == text);
        assert(pieces(lines@, text) + lines_of(text) == lines_of(text));
    }
    while start < chars.len()
        invariant
            text == chars@,
            start <= chars.len(),
            forall|i: int|
                0 <= i < lines.len() ==> (#[trigger] lines[i]).within(0, text.len() as int),
            lines_of(text) == pieces(lines@, text) + lines_of(
                text.skip(start as int),
            ),
        decreases chars.len() - start,
    {
        let ghost rest = text.skip(start as int);
        let mut end: usize = start;
        while end < chars.len() && chars[end] != '\n'
            invariant
                text == chars@,
                start <= end <= chars.len(),
                forall|k: int| start <= k < end ==> text[k] != '\n',
            decreases chars.len() - end,
        {
            end += 1;
        }
        proof {
            assert forall|k: int| 0 <= k < end - start implies rest[k] != '\n' by {
                assert(rest[k] == text[start + k]);
            }
            if end < chars.len() {
                assert(rest[end - start] == text[end as int]);
            }
            lemma_line_end(rest, end - start);
        }
        let ghost done = pieces(lines@, text);
        if end == chars.len() {
            let span = Span { from: start, to: end };
            proof {
                assert(span.of(text) == rest);
                assert(lines_of(rest) == seq![rest]);
                assert(lines_of(text.skip(end as int)) == Seq::<Seq<char>>::empty());
                assert(pieces(lines@.push(span), text) == done.push(rest));
                assert(done + seq![rest] == done.push(rest) + Seq::<Seq<char>>::empty());
            }
            lines.push(span);
            start = end;
        } else {
            let to = if end > start && chars[end - 1] == '\r' {
                (end - 1) as usize
            } else {
                end
            };
            let span = Span { from: start, to };
            proof {
                let line = rest.take(end - start);
                assert(line == text.subrange(start as int, end as int));
                if end > start {
                    assert(line.last() == text[end - 1]);
                }
                assert(span.of(text) == without_return(line));
                assert(rest.skip(end - start + 1) == text.skip(end + 1));
                assert(pieces(lines@.push(span), text) == done.push(
                    span.of(text),
                ));
                assert(done + (seq![span.of(text)] + lines_of(text.skip(end + 1))) == done.push(
                    span.of(text),
                ) + lines_of(text.skip(end + 1)));
            }
            lines.push(span);
            start = end + 1;
        }
    }
    proof {
        let done = pieces(lines@, text);
        assert(lines_of(text.skip(start as int)) == Seq::<Seq<char>>::empty());
        assert(done + Seq::<Seq<char>>::empty() == done);
        assert forall|i: int| 0 <= i < lines@.len() implies lines@[i].of(text) == lines_of(
            text,
        )[i] by {
            assert(done[i] == lines@[i].of(text));
        }
    }
    lines
}

/// The fields of the line that is the stretch `line` of a text, as
/// stretches of the text.
pub fn split_fields(chars: &Vec<char>, line: &Span) -> (fields: Vec<Span>)
    requires
        line.within(0, chars.len() as int),
    ensures
        spans_are(fields@, chars@, fields_of(line.of(chars@))),
        fields.len() >= 1,
{
    let ghost text = chars@;
    let ghost whole = line.of(text);
    let mut fields: Vec<Span> = Vec::new();
    let mut start: usize = line.from;
    proof {
        assert(pieces(fields@, text) + fields_of(whole) == fields_of(whole));
    }
    loop
        invariant_except_break
            fields_of(whole) == pieces(fields@, text) + fields_of(
                text.subrange(start as int, line.to as int),
            ),
        invariant
            text == chars@,
            whole == line.of(text),
            line.within(0, chars.len() as int),
            line.from <= start <= line.to,
            forall|i: int|
                0 <= i < fields.len() ==> (#[trigger] fields[i]).within(0, text.len() as int),
        ensures
            fields.len() >= 1,
            fields_of(whole) == pieces(fields@, text),
        decreases line.to - start,
    {
        let ghost rest = text.subrange(start as int, line.to as int);
        let ghost done = pieces(fields@, text);
        let mut end: usize = start;
        while end < line.to && !(end + 1 < line.to && chars[end] == ',' && chars[end + 1] == ' ')
            invariant
                text == chars@,
                rest == text.subrange(start as int, line.to as int),
                line.within(0, chars.len() as int),
                start <= end <= line.to,
                forall|k: int| 0 <= k < end - start ==> !separator_at(rest, k),
            decreases line.to - end,
        {
            proof {
                if end + 1 < line.to {
                    assert(rest[end - start] == text[end as int]);
                    assert(rest[end - start + 1] == text[end + 1]);
                }
            }
            end += 1;
        }
        proof {
            if end < line.to {
                assert(rest[end - start] == text[end as int]);
                assert(rest[end - start + 1] == text[end + 1]);
                assert(separator_at(rest, end - start));
            }
            lemma_field_end(rest, end - start);
        }
        let span = Span { from: start, to: end };
        proof {
            assert(span.of(text) == rest.take(end - start));
            assert(pieces(fields@.push(span), text) == done.push(
                span.of(text),
            ));
        }
        fields.push(span);
        if end == line.to {
            proof {
                assert(rest.take(end - start) == rest);
                assert(fields_of(rest) == seq![rest]);
                assert(done + seq![rest] == done.push(rest));
            }
            break ;
        }
        proof {
            assert(rest.skip(end - start + 2) == text.subrange(end + 2, line.to as int));
            assert(done + (seq![span.of(text)] + fields_of(rest.skip(end - start + 2)))
                == done.push(span.of(text)) + fields_of(rest.skip(end - start + 2)));
        }
        start = end + 2;
    }
    proof {
        let done = pieces(fields@, text);
        assert forall|i: int| 0 <= i < fields@.len() implies fields@[i].of(text) == fields_of(
            whole,
        )[i] by {
            assert(done[i] == fields@[i].of(text));
        }
    }
    fields
}

/// Whether a character is a decimal digit.
pub open spec fn is_digit(c: char) -> bool {
    48 <= c as u32 <= 57
}

/// The value of a decimal digit.
pub open spec fn digit_value(c: char) -> nat {
    if is_digit(c) {
        (c as u32 - 48) as nat
    } else {
        0
    }
}

/// Whether every character is a decimal digit.
pub open spec fn all_digits(digits: Seq<char>) -> bool {
    forall|i: int| 0 <= i < digits.len() ==> is_digit(#[trigger] digits[i])
}

/// The number that decimal digits spell.
pub open spec fn decimal(digits: Seq<char>) -> nat
    decreases digits.len(),
{
    if digits.len() == 0 {
        0
    } else {
        decimal(digits.drop_last()) * 10 + digit_value(digits.last())
    }
}

/// The number that the characters spell, if they are decimal digits, at
/// least one, and the number is no more than `limit`.
pub open spec fn digits_within(digits: Seq<char>, limit: u64) -> Option<u64> {
    if digits.len() > 0 && all_digits(digits) && decimal(digits) <= limit {
        Some(decimal(digits) as u64)
    } else {
        None
    }
}

/// The unsigned number that a field spells: decimal digits, which a plus
/// sign may precede.
pub open spec fn unsigned_of(field: Seq<char>) -> Option<u64> {
    if field.len() > 0 && field[0] == '+' {
        digits_within(field.skip(1), u64::MAX)
    } else {
        digits_within(field, u64::MAX)
    }
}

/// The signed number that a field spells: decimal digits, which a plus or a
/// minus sign may precede.
pub open spec fn signed_of(field: Seq<char>) -> Option<i64> {
    if field.len() > 0 && field[0] == '-' {
        match digits_within(field.skip(1), 0x8000_0000_0000_0000) {
            Some(magnitude) => Some((-(magnitude as int)) as i64),
            None => None,
        }
    } else if field.len() > 0 && field[0] == '+' {
        match digits_within(field.skip(1), 0x7fff_ffff_ffff_ffff) {
            Some(magnitude) => Some(magnitude as i64),
            None => None,
        }
    } else {
        match digits_within(field, 0x7fff_ffff_ffff_ffff) {
            Some(magnitude) => Some(magnitude as i64),
            None => None,
        }
    }
}

/// The first digits of a number spell no more than all of them.
pub proof fn lemma_decimal_prefix(digits: Seq<char>, k: int)
    requires
        0 <= k <= digits.len(),
    ensures
        decimal(digits.take(k)) <= decimal(digits),
    decreases digits.len(),
{
    if k == digits.len() {
        assert(digits.take(k) == digits);
    } else {
        lemma_decimal_prefix(digits.drop_last(), k);
        assert(digits.drop_last().take(k) == digits.take(k));
    }
}

/// Reads the decimal digits of the stretch `span` of a text.
pub fn parse_digits(chars: &Vec<char>, span: &Span, limit: u64) -> (value: Option<u64>)
    requires
        span.within(0, chars.len() as int),
    ensures
        value == digits_within(span.of(chars@), limit),
{
    let ghost digits = span.of(chars@);
    if span.from == span.to {
        return None;
    }
    let mut value: u64 = 0;
    let mut i: usize = span.from;
    while i < span.to
        invariant
            span.within(0, chars.len() as int),
            digits == span.of(chars@),
            span.from <= i <= span.to,
            all_digits(digits.take(i - span.from)),
            value == decimal(digits.take(i - span.from)),
            value <= limit,
        decreases span.to - i,
    {
        let c = chars[i];
        let ghost k = i - span.from;
        assert(digits[k] == c);
        assert(digits.take(k + 1).drop_last() == digits.take(k));
        assert(digits.take(k + 1).last() == c);
        let code = c as u32;
        if code < 48 || code > 57 {
            assert(!is_digit(digits[k]));
            return None;
        }
        let digit: u64 = (code - 48) as u64;
        if digit > limit || value > (limit - digit) / 10 {
            proof {
                lemma_decimal_prefix(digits, k + 1);
            }
            return None;
        }
        value = value * 10 + digit;
        proof {
            assert forall|j: int| 0 <= j < k + 1 implies is_digit(
                #[trigger] digits.take(k + 1)[j],
            ) by {
                if j < k {
                    assert(digits.take(k)[j] == digits.take(k + 1)[j]);
                }
            }
        }
        i += 1;
    }
    assert(digits.take(span.to - span.from) == digits);
    Some(value)
}

/// Reads an unsigned number from the stretch `span` of a text.
pub fn parse_unsigned(chars: &Vec<char>, span: &Span) -> (value: Option<u64>)
    requires
        span.within(0, chars.len() as int),
    ensures
        value == unsigned_of(span.of(chars@)),
{
    let ghost field = span.of(chars@);
    if span.from < span.to && chars[span.from] == '+' {
        let digits = Span { from: span.from + 1, to: span.to };
        assert(field[0] == chars@[span.from as int]);
        assert(digits.of(chars@) == field.skip(1));
        parse_digits(chars, &digits, u64::MAX)
    } else {
        if span.from < span.to {
            assert(field[0] == chars@[span.from as int]);
        }
        parse_digits(chars, span, u64::MAX)
    }
}

/// Reads a signed number from the stretch `span` of a text.
pub fn parse_signed(chars: &Vec<char>, span: &Span) -> (value: Option<i64>)
    requires
        span.within(0, chars.len() as int),
    ensures
        value == signed_of(span.of(chars@)),
{
    let ghost field = span.of(chars@);
    if span.from < span.to {
        assert(field[0] == chars@[span.from as int]);
    }
    if span.from < span.to && chars[span.from] == '-' {
        let digits = Span { from: span.from + 1, to: span.to };
        assert(digits.of(chars@) == field.skip(1));
        match parse_digits(chars, &digits, 0x8000_0000_0000_0000) {
            Some(magnitude) => {
                if magnitude == 0x8000_0000_0000_0000 {
                    Some(i64::MIN)
                } else {
                    Some(-(magnitude as i64))
                }
            },
            None => None,
        }
    } else if span.from < span.to && chars[span.from] == '+' {
        let digits = Span { from: span.from + 1, to: span.to };
        assert(digits.of(chars@) == field.skip(1));
        match parse_digits(chars, &digits, 0x7fff_ffff_ffff_ffff) {
            Some(magnitude) => Some(magnitude as i64),
            None => None,
        }
    } else {
        match parse_digits(chars, span, 0x7fff_ffff_ffff_ffff) {
            Some(magnitude) => Some(magnitude as i64),
            None => None,
        }
    }
}

/// Why a text could not be read.
#[derive(Clone, Copy, Debug, PartialEq, Eq, Structural)]
pub enum RecordError {
    /// A line has fewer fields than a record
    MissingField,
    /// A field that holds a number does not spell one that fits
    InvalidNumber,
    /// A field that holds a priority does not spell one
    InvalidPriority,
}

/// What a line says of a destination: its name and its offsets.
pub struct DestinationRecord {
    pub name: Seq<char>,
    pub north_m: i64,
    pub east_m: i64,
}

/// What a line says of an order: its time, the name of its destination and
/// its priority.
pub struct OrderRecord {
    pub time: u64,
    pub destination: Seq<char>,
    pub priority: Priority,
}

/// The destination that a line holds: its name, its offset to the north
/// and its offset to the east. Further fields are not read.
pub open spec fn destination_on(line: Seq<char>) -> Result<DestinationRecord, RecordError> {
    let fields = fields_of(line);
    if fields.len() < 2 {
        Err(RecordError::MissingField)
    } else {
        match signed_of(fields[1]) {
            None => Err(RecordError::InvalidNumber),
            Some(north_m) => if fields.len() < 3 {
                Err(RecordError::MissingField)
            } else {
                match signed_of(fields[2]) {
                    None => Err(RecordError::InvalidNumber),
                    Some(east_m) => Ok(DestinationRecord { name: fields[0], north_m, east_m }),
                }
            },
        }
    }
}

/// The order that a line holds: its time, the name of its destination and
/// its priority. Further fields are not read.
pub open spec fn order_on(line: Seq<char>) -> Result<OrderRecord, RecordError> {
    let fields = fields_of(line);
    match unsigned_of(fields[0]) {
        None => Err(RecordError::InvalidNumber),
        Some(time) => if fields.len() < 3 {
            Err(RecordError::MissingField)
        } else {
            match Priority::named(fields[2]) {
                None => Err(RecordError::InvalidPriority),
                Some(priority) => Ok(OrderRecord { time, destination: fields[1], priority }),
            }
        },
    }
}

/// The destinations that lines hold, or what is wrong with the first line
/// that holds none.
pub open spec fn destinations_on(lines: Seq<Seq<char>>) -> Result<
    Seq<DestinationRecord>,
    RecordError,
>
    decreases lines.len(),
{
    if lines.len() == 0 {
        Ok(Seq::empty())
    } else {
        match destinations_on(lines.drop_last()) {
            Err(e) => Err(e),
            Ok(records) => match destination_on(lines.last()) {
                Err(e) => Err(e),
                Ok(record) => Ok(records.push(record)),
            },
        }
    }
}

/// The orders that lines hold, or what is wrong with the first line that
/// holds none.
pub open spec fn orders_on(lines: Seq<Seq<char>>) -> Result<Seq<OrderRecord>, RecordError>
    decreases lines.len(),
{
    if lines.len() == 0 {
        Ok(Seq::empty())
    } else {
        match orders_on(lines.drop_last()) {
            Err(e) => Err(e),
            Ok(records) => match order_on(lines.last()) {
                Err(e) => Err(e),
                Ok(record) => Ok(records.push(record)),
            },
        }
    }
}

/// What lines of text would say of the destinations.
pub open spec fn destination_records(list: Seq<Destination>) -> Seq<DestinationRecord> {
    list.map_values(|destination: Destination| destination.record())
}

/// What lines of text would say of the orders.
pub open spec fn order_records(list: Seq<Order>) -> Seq<OrderRecord> {
    list.map_values(|order: Order| order.record())
}

impl Destination {
    /// What a line of text would say of the destination.
    pub open spec fn record(self) -> DestinationRecord {
        DestinationRecord { name: self.name@, north_m: self.north_m, east_m: self.east_m }
    }

    /// Reads destinations from text: on each line a name, an offset to the
    /// north and an offset to the east in metres.
    pub fn from_csv(text: &str) -> (read: Result<Vec<Destination>, RecordError>)
        ensures
            match destinations_on(lines_of(text@)) {
                Ok(records) => read is Ok && destination_records(read->Ok_0@) == records,
                Err(e) => read == Err::<Vec<Destination>, RecordError>(e),
            },
    {
        let chars = characters(text);
        let lines = split_lines(&chars);
        let ghost all = lines_of(text@);
        let mut destinations: Vec<Destination> = Vec::new();
        let mut i: usize = 0;
        proof {
            assert(all.take(0).len() == 0);
            assert(destination_records(destinations@) == Seq::<DestinationRecord>::empty());
        }
        while i < lines.len()
            invariant
                i <= lines.len(),
                chars@ == text@,
                all == lines_of(text@),
                spans_are(lines@, chars@, all),
                destinations_on(all.take(i as int)) == Ok::<Seq<DestinationRecord>, RecordError>(
                    destination_records(destinations@),
                ),
            decreases lines.len() - i,
        {
            let ghost line = all[i as int];
            let ghost done = destination_records(destinations@);
            proof {
                assert(all.take(i + 1).drop_last() == all.take(i as int));
                assert(all.take(i + 1).last() == line);
                assert(lines@[i as int].of(chars@) == line);
                assert(all.take(all.len() as int) == all);
            }
            let fields = split_fields(&chars, &lines[i]);
            if fields.len() < 2 {
                proof {
                    lemma_first_fault_destinations(all, i as int);
                }
                return Err(RecordError::MissingField);
            }
            let north_m = match parse_signed(&chars, &fields[1]) {
                Some(n) => n,
                None => {
                    proof {
                        lemma_first_fault_destinations(all, i as int);
                    }
                    return Err(RecordError::InvalidNumber);
                },
            };
            if fields.len() < 3 {
                proof {
                    lemma_first_fault_destinations(all, i as int);
                }
                return Err(RecordError::MissingField);
            }
            let east_m = match parse_signed(&chars, &fields[2]) {
                Some(n) => n,
                None => {
                    proof {
                        lemma_first_fault_destinations(all, i as int);
                    }
                    return Err(RecordError::InvalidNumber);
                },
            };
            let name = DestinationName::from_str(
                text.substring_char(fields[0].from, fields[0].to),
            );
            let destination = Destination { name, north_m, east_m };
            proof {
                assert(destination_records(destinations@.push(destination)) == done.push(
                    destination.record(),
                ));
            }
            destinations.push(destination);
            i += 1;
        }
        assert(all.take(i as int) == all);
        Ok(destinations)
    }
}

/// A fault on a line behind faultless lines is the fault of the whole text.
pub proof fn lemma_first_fault_destinations(lines: Seq<Seq<char>>, i: int)
    requires
        0 <= i < lines.len(),
        destinations_on(lines.take(i)) is Ok,
        destination_on(lines[i]) is Err,
    ensures
        destinations_on(lines) == Err::<Seq<DestinationRecord>, RecordError>(
            destination_on(lines[i])->Err_0,
        ),
    decreases lines.len(),
{
    if i == lines.len() - 1 {
        assert(lines.drop_last() == lines.take(i));
    } else {
        assert(lines.drop_last().take(i) == lines.take(i));
        lemma_first_fault_destinations(lines.drop_last(), i);
    }
}

/// A fault on a line behind faultless lines is the fault of the whole text.
pub proof fn lemma_first_fault_orders(lines: Seq<Seq<char>>, i: int)
    requires
        0 <= i < lines.len(),
        orders_on(lines.take(i)) is Ok,
        order_on(lines[i]) is Err,
    ensures
        orders_on(lines) == Err::<Seq<OrderRecord>, RecordError>(order_on(lines[i])->Err_0),
    decreases lines.len(),
{
    if i == lines.len() - 1 {
        assert(lines.drop_last() == lines.take(i));
    } else {
        assert(lines.drop_last().take(i) == lines.take(i));
        lemma_first_fault_orders(lines.drop_last(), i);
    }
}

impl Order {
    /// What a line of text would say of the order.
    pub open spec fn record(self) -> OrderRecord {
        OrderRecord { time: self.time, destination: self.destination@, priority: self.priority }
    }

    /// Reads orders from text: on each line the time in seconds since
    /// midnight, the name of the destination and the priority.
    pub fn from_csv(text: &str) -> (read: Result<Vec<Order>, RecordError>)
        ensures
            match orders_on(lines_of(text@)) {
                Ok(records) => read is Ok && order_records(read->Ok_0@)
                    == records,
                Err(e) => read == Err::<Vec<Order>, RecordError>(e),
            },
    {
        let chars = characters(text);
        let lines = split_lines(&chars);
        let ghost all = lines_of(text@);
        let mut orders: Vec<Order> = Vec::new();
        let mut i: usize = 0;
        proof {
            assert(all.take(0).len() == 0);
            assert(order_records(orders@) == Seq::<OrderRecord>::empty());
        }
        while i < lines.len()
            invariant
                i <= lines.len(),
                chars@ == text@,
                all == lines_of(text@),
                spans_are(lines@, chars@, all),
                orders_on(all.take(i as int)) == Ok::<Seq<OrderRecord>, RecordError>(
                    order_records(orders@),
                ),
            decreases lines.len() - i,
        {
            let ghost line = all[i as int];
            let ghost done = order_records(orders@);
            proof {
                assert(all.take(i + 1).drop_last() == all.take(i as int));
                assert(all.take(i + 1).last() == line);
                assert(lines@[i as int].of(chars@) == line);
                assert(all.take(all.len() as int) == all);
            }
            let fields = split_fields(&chars, &lines[i]);
            let time = match parse_unsigned(&chars, &fields[0]) {
                Some(n) => n,
                None => {
                    proof {
                        lemma_first_fault_orders(all, i as int);
                    }
                    return Err(RecordError::InvalidNumber);
                },
            };
            if fields.len() < 3 {
                proof {
                    lemma_first_fault_orders(all, i as int);
                }
                return Err(RecordError::MissingField);
            }
            let priority = match Priority::try_from(
                text.substring_char(fields[2].from, fields[2].to),
            ) {
                Ok(priority) => priority,
                Err(_) => {
                    proof {
                        lemma_first_fault_orders(all, i as int);
                    }
                    return Err(RecordError::InvalidPriority);
                },
            };
            let destination = DestinationName::from_str(
                text.substring_char(fields[1].from, fields[1].to),
            );
            let order = Order { time, destination, priority };
            proof {
                assert(order_records(orders@.push(order)) == done.push(
                    order.record(),
                ));
            }
            orders.push(order);
            i += 1;
        }
        assert(all.take(i as int) == all);
        Ok(orders)
    }
}

} // verus!
