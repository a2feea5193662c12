//! What holds of the grammar for every text.

use crate::error::SyntaxError;
use crate::grammar::after_first_line;
use crate::grammar::block_of;
use crate::grammar::classify;
use crate::grammar::classify_flat;
use crate::grammar::close_all;
use crate::grammar::document_of;
use crate::grammar::first_line;
use crate::grammar::inline_entries;
use crate::grammar::inline_object_of;
use crate::grammar::inner;
use crate::grammar::is_blank;
use crate::grammar::is_braced;
use crate::grammar::is_quoted;
use crate::grammar::lemma_flat_rhs_shorter;
use crate::grammar::run;
use crate::grammar::value_of;
use crate::grammar::word_false;
use crate::grammar::word_true;
use crate::grammar::Frame;
use crate::grammar::Line;
use crate::number::all_digits;
use crate::number::decimal;
use crate::number::integer_of;
use crate::number::is_digit;
use crate::number::is_float_literal;
use crate::number::lemma_decimal_nonnegative;
use crate::number::lemma_float_starts_as_number;
use crate::number::unsigned_part;
use crate::parser::result_model;
use crate::query::find_from;
use crate::query::find_in;
use crate::text::is_space;
use crate::text::lemma_find;
use crate::text::lemma_find_is;
use crate::text::lemma_trim_is;
use crate::text::split_lines;
use crate::text::trim;
use crate::value::has_key;
use crate::value::insert;
use crate::value::lemma_insert_well_formed;
use crate::value::lookup;
use crate::value::well_formed;
use crate::value::well_formed_entries;
use crate::value::PklValue;
use crate::value::ValueModel;
use vstd::prelude::*;
use vstd::std_specs::cmp::PartialEqSpec;

verus! {

/// Whether every open block has well-formed entries.
pub open spec fn well_formed_frames(open: Seq<Frame>) -> bool {
    forall|i: int| 0 <= i < open.len() ==> well_formed_entries(#[trigger] open[i].entries)
}

/// Every value that a token writes is well formed.
pub proof fn lemma_value_well_formed(s: Seq<char>)
    ensures
        value_of(s) matches Ok(v) ==> well_formed(v),
    decreases s.len(), 0nat,
{
    if value_of(s) is Ok && value_of(s)->Ok_0 is Object {
        lemma_inline_well_formed(inner(s), Seq::empty());
    }
}

/// The assignments of an inline object keep well-formed entries well
/// formed.
pub proof fn lemma_inline_well_formed(content: Seq<char>, acc: Seq<(Seq<char>, ValueModel)>)
    requires
        well_formed_entries(acc),
    ensures
        inline_entries(content, acc) matches Ok(entries) ==> well_formed_entries(entries),
        inline_object_of(content) matches Ok(v) ==> v is Object,
    decreases content.len(), 1nat,
{
    if content.len() > 0 {
        match classify_flat(first_line(content)) {
            Line::Assign(key, rhs) => {
                lemma_flat_rhs_shorter(content);
                lemma_value_well_formed(rhs);
                if let Ok(v) = value_of(rhs) {
                    lemma_insert_well_formed(acc, key, v);
                    lemma_inline_well_formed(after_first_line(content), insert(acc, key, v));
                }
            },
            Line::Malformed => {},
            _ => {
                lemma_inline_well_formed(after_first_line(content), acc);
            },
        }
    }
}

/// Closing well-formed blocks gives well-formed entries.
pub proof fn lemma_close_all_well_formed(open: Seq<Frame>, current: Seq<(Seq<char>, ValueModel)>)
    requires
        well_formed_frames(open),
        well_formed_entries(current),
    ensures
        well_formed_entries(close_all(open, current)),
    decreases open.len(),
{
    if open.len() > 0 {
        let last = open.last();
        assert(well_formed_entries(open[open.len() - 1].entries));
        lemma_insert_well_formed(last.entries, last.key, ValueModel::Object(current));
        let rest = open.drop_last();
        assert forall|i: int| 0 <= i < rest.len() implies well_formed_entries(
            #[trigger] rest[i].entries,
        ) by {
            assert(rest[i] == open[i]);
        }
        lemma_close_all_well_formed(
            rest,
            insert(last.entries, last.key, ValueModel::Object(current)),
        );
    }
}

/// Reading on from well-formed blocks gives a well-formed object.
pub proof fn lemma_run_well_formed(
    lines: Seq<Seq<char>>,
    pos: int,
    open: Seq<Frame>,
    current: Seq<(Seq<char>, ValueModel)>,
)
    requires
        well_formed_frames(open),
        well_formed_entries(current),
    ensures
        run(lines, pos, open, current).0 matches Ok(v) ==> well_formed(v) && v is Object,
    decreases lines.len() - pos,
{
    if pos < 0 || pos >= lines.len() {
        lemma_close_all_well_formed(open, current);
    } else {
        match classify(lines[pos]) {
            Line::Blank => {
                lemma_run_well_formed(lines, pos + 1, open, current);
            },
            Line::Open(key) => {
                let next = open.push(Frame { entries: current, key });
                assert forall|i: int| 0 <= i < next.len() implies well_formed_entries(
                    #[trigger] next[i].entries,
                ) by {
                    if i < open.len() {
                        assert(next[i] == open[i]);
                    }
                }
                lemma_run_well_formed(lines, pos + 1, next, Seq::empty());
            },
            Line::Close => {
                if open.len() > 0 {
                    let last = open.last();
                    assert(well_formed_entries(open[open.len() - 1].entries));
                    lemma_insert_well_formed(last.entries, last.key, ValueModel::Object(current));
                    let rest = open.drop_last();
                    assert forall|i: int| 0 <= i < rest.len() implies well_formed_entries(
                        #[trigger] rest[i].entries,
                    ) by {
                        assert(rest[i] == open[i]);
                    }
                    lemma_run_well_formed(
                        lines,
                        pos + 1,
                        rest,
                        insert(last.entries, last.key, ValueModel::Object(current)),
                    );
                }
            },
            Line::Assign(key, rhs) => {
                lemma_value_well_formed(rhs);
                if let Ok(v) = value_of(rhs) {
                    lemma_insert_well_formed(current, key, v);
                    lemma_run_well_formed(lines, pos + 1, open, insert(current, key, v));
                }
            },
            Line::Malformed => {},
        }
    }
}

/// Every block that parses is a well-formed object.
pub proof fn lemma_block_well_formed(lines: Seq<Seq<char>>, pos: int)
    ensures
        block_of(lines, pos).0 matches Ok(v) ==> well_formed(v) && v is Object,
{
    lemma_run_well_formed(lines, pos, Seq::empty(), Seq::empty());
}

/// Parsing is a function of the text: two parses of one text fail with the
/// same error or give trees that stand for the same value, which `==`
/// finds equal.
pub proof fn lemma_parse_deterministic(
    text: Seq<char>,
    first: Result<PklValue, SyntaxError>,
    second: Result<PklValue, SyntaxError>,
)
    requires
        result_model(first) == document_of(text),
        result_model(second) == document_of(text),
    ensures
        result_model(first) == result_model(second),
        first is Ok <==> second is Ok,
        first is Ok ==> first->Ok_0@ == second->Ok_0@,
        first is Ok ==> first->Ok_0.eq_spec(&second->Ok_0),
{
}

/// Text between double quotes is a string that holds the text as it is,
/// whatever the text.
pub proof fn lemma_quoted_is_string(text: Seq<char>)
    ensures
        value_of(seq!['"'] + text + seq!['"']) == Ok::<ValueModel, SyntaxError>(
            ValueModel::String(text),
        ),
{
    let s = seq!['"'] + text + seq!['"'];
    assert(s[0] == '"');
    assert(s.last() == '"');
    assert(inner(s) =~= text);
}

/// Whether `key` can stand on the left of an assignment and come back as
/// it is: it is not empty, has no white space at its ends, no `=` and no
/// line feed in it, and does not start a comment.
pub open spec fn plain_key(key: Seq<char>) -> bool {
    &&& key.len() > 0
    &&& !is_space(key[0])
    &&& !is_space(key.last())
    &&& key[0] != '#'
    &&& forall|i: int| 0 <= i < key.len() ==> key[i] != '=' && key[i] != '\n'
}

/// Whether `token` can stand on the right of an assignment and come back
/// as it is: it is not empty, has no white space at its ends and no line
/// feed in it, and does not end in a brace.
pub open spec fn plain_token(token: Seq<char>) -> bool {
    &&& token.len() > 0
    &&& !is_space(token[0])
    &&& !is_space(token.last())
    &&& token.last() != '{'
    &&& token.last() != '}'
    &&& forall|i: int| 0 <= i < token.len() ==> token[i] != '\n'
}

/// A text of the one line `key = token` writes the object in which `key`
/// holds the value that the token writes, and fails as the token fails.
pub proof fn lemma_one_assignment(key: Seq<char>, token: Seq<char>)
    requires
        plain_key(key),
        plain_token(token),
    ensures
        document_of(key + seq![' ', '=', ' '] + token) == (match value_of(token) {
            Ok(v) => Ok::<ValueModel, SyntaxError>(ValueModel::Object(seq![(key, v)])),
            Err(e) => Err(e),
        }),
{
    let line = key + seq![' ', '=', ' '] + token;
    let n = line.len() as int;
    let k = key.len() as int;
    assert(n == k + token.len() + 3);
    assert forall|i: int| 0 <= i < n implies line[i] != '\n' by {
        if i < k {
            assert(line[i] == key[i]);
        } else if k + 3 <= i {
            assert(line[i] == token[i - k - 3]);
        }
    }
    lemma_find_is(line, '\n', n);
    assert(split_lines(line) =~= seq![line]);
    assert(line[0] == key[0]);
    assert(line[n - 1] == token.last());
    lemma_trim_is(line, 0, n);
    assert(line.subrange(0, n) =~= line);
    assert forall|i: int| 0 <= i < k + 1 implies line[i] != '=' by {
        if i < k {
            assert(line[i] == key[i]);
        }
    }
    assert(line[k + 1] == '=');
    lemma_find_is(line, '=', k + 1);
    let left = line.take(k + 1);
    assert(left =~= key + seq![' ']);
    assert(left[k] == ' ');
    lemma_trim_is(left, 0, k);
    assert(left.subrange(0, k) =~= key);
    let right = line.skip(k + 2);
    assert(right =~= seq![' '] + token);
    assert(right[0] == ' ');
    assert(right[1] == token[0]);
    assert(right[right.len() - 1] == token.last());
    lemma_trim_is(right, 1, right.len() as int);
    assert(right.subrange(1, right.len() as int) =~= token);
    assert(classify(line) == Line::Assign(key, token));
    let lines = seq![line];
    assert(lines[0] == line);
    if let Ok(v) = value_of(token) {
        assert(insert(Seq::empty(), key, v) =~= seq![(key, v)]);
        assert(run(lines, 1, Seq::empty(), seq![(key, v)]).0 == Ok::<ValueModel, SyntaxError>(
            ValueModel::Object(seq![(key, v)]),
        ));
        assert(run(lines, 0, Seq::empty(), Seq::empty()) == run(
            lines,
            1,
            Seq::empty(),
            seq![(key, v)],
        ));
    }
}

/// A text of the one line `key = "text"` writes the object in which `key`
/// holds the string `text`, quotes taken off, for every text of one line.
pub proof fn lemma_quoted_assignment(key: Seq<char>, text: Seq<char>)
    requires
        plain_key(key),
        forall|i: int| 0 <= i < text.len() ==> text[i] != '\n',
    ensures
        document_of(key + seq![' ', '=', ' '] + (seq!['"'] + text + seq!['"'])) == Ok::<
            ValueModel,
            SyntaxError,
        >(ValueModel::Object(seq![(key, ValueModel::String(text))])),
{
    let quoted = seq!['"'] + text + seq!['"'];
    assert(quoted[0] == '"');
    assert(quoted.last() == '"');
    assert forall|i: int| 0 <= i < quoted.len() implies quoted[i] != '\n' by {
        if 0 < i < quoted.len() - 1 {
            assert(quoted[i] == text[i - 1]);
        }
    }
    lemma_quoted_is_string(text);
    lemma_one_assignment(key, quoted);
}

/// A text of the one line `key = digits` writes the object in which `key`
/// holds the integer that the digits write, where that fits in sixty-four
/// bits.
pub proof fn lemma_integer_assignment(key: Seq<char>, digits: Seq<char>)
    requires
        plain_key(key),
        digits.len() > 0,
        all_digits(digits),
        decimal(digits) <= i64::MAX,
    ensures
        document_of(key + seq![' ', '=', ' '] + digits) == Ok::<ValueModel, SyntaxError>(
            ValueModel::Object(seq![(key, ValueModel::Integer(decimal(digits)))]),
        ),
{
    assert(is_digit(digits[0]));
    assert(is_digit(digits[digits.len() - 1]));
    assert forall|i: int| 0 <= i < digits.len() implies digits[i] != '\n' by {
        assert(is_digit(digits[i]));
    }
    lemma_digits_are_integer(digits);
    lemma_one_assignment(key, digits);
}

/// A line fails for want of an assignment exactly when, trimmed, it is not
/// blank, ends in no brace and holds no `=`.
pub proof fn lemma_malformed_iff(raw: Seq<char>)
    ensures
        classify(raw) is Malformed <==> {
            &&& !is_blank(trim(raw))
            &&& trim(raw).last() != '{'
            &&& trim(raw).last() != '}'
            &&& forall|i: int| 0 <= i < trim(raw).len() ==> trim(raw)[i] != '='
        },
        classify(raw) is Malformed ==> line_error(raw) == Some(SyntaxError::MissingAssignment),
{
    let t = trim(raw);
    lemma_find(t, '=');
    if forall|i: int| 0 <= i < t.len() ==> t[i] != '=' {
        lemma_find_is(t, '=', t.len() as int);
    }
}

/// A token of digits and nothing else, whose number fits in sixty-four
/// bits, is the integer that the digits write.
pub proof fn lemma_digits_are_integer(s: Seq<char>)
    requires
        s.len() > 0,
        all_digits(s),
        decimal(s) <= i64::MAX,
    ensures
        value_of(s) == Ok::<ValueModel, SyntaxError>(ValueModel::Integer(decimal(s))),
{
    assert(is_digit(s[0]));
    lemma_decimal_nonnegative(s);
}

/// A token of none of the five shapes is unsupported.
pub proof fn lemma_no_shape_is_unsupported(s: Seq<char>)
    requires
        !is_quoted(s),
        integer_of(s) is None,
        !is_float_literal(s),
        s != word_true(),
        s != word_false(),
        !is_braced(s),
    ensures
        value_of(s) == Err::<ValueModel, SyntaxError>(SyntaxError::UnsupportedValue),
{
}

/// A token that is no inline object is unsupported exactly when it is
/// none of the other shapes: not quoted, no integer, no floating-point
/// literal, and neither `true` nor `false`.
pub proof fn lemma_unsupported_iff(s: Seq<char>)
    requires
        !is_braced(s),
    ensures
        value_of(s) == Err::<ValueModel, SyntaxError>(SyntaxError::UnsupportedValue) <==> {
            &&& !is_quoted(s)
            &&& integer_of(s) is None
            &&& !is_float_literal(s)
            &&& s != word_true()
            &&& s != word_false()
        },
        value_of(s) is Err ==> value_of(s) == Err::<ValueModel, SyntaxError>(
            SyntaxError::UnsupportedValue,
        ),
{
}

/// A word is no number: a token that starts, after its sign if it has one,
/// with neither a digit nor the point is unsupported unless it is quoted,
/// an inline object, `true` or `false`. So `inf`, `infinity` and `nan` are
/// unsupported, in any case and with or without a sign.
pub proof fn lemma_word_is_unsupported(s: Seq<char>)
    requires
        unsigned_part(s).len() == 0 || !(is_digit(unsigned_part(s)[0]) || unsigned_part(s)[0]
            == '.'),
        !is_quoted(s),
        !is_braced(s),
        s != word_true(),
        s != word_false(),
    ensures
        value_of(s) == Err::<ValueModel, SyntaxError>(SyntaxError::UnsupportedValue),
{
    if is_float_literal(s) {
        lemma_float_starts_as_number(s);
    }
    if integer_of(s) is Some {
        assert(is_digit(unsigned_part(s)[0]));
    }
}

/// The error that a line gives by itself, if it gives one: it should
/// assign and holds no `=`, or the value that it assigns does not parse.
pub open spec fn line_error(raw: Seq<char>) -> Option<SyntaxError> {
    match classify(raw) {
        Line::Malformed => Some(SyntaxError::MissingAssignment),
        Line::Assign(key, rhs) => match value_of(rhs) {
            Ok(v) => None,
            Err(e) => Some(e),
        },
        _ => None,
    }
}

/// A line that fails ends the reading with its error, whatever was read
/// before it, and the position is the one after that line.
pub proof fn lemma_failing_line_fails(
    lines: Seq<Seq<char>>,
    pos: int,
    open: Seq<Frame>,
    current: Seq<(Seq<char>, ValueModel)>,
)
    requires
        0 <= pos < lines.len(),
        line_error(lines[pos]) is Some,
    ensures
        run(lines, pos, open, current) == (
            Err::<ValueModel, SyntaxError>(line_error(lines[pos])->0),
            pos + 1,
        ),
{
}

/// White space at the end of a line goes with the trimming.
pub proof fn lemma_trailing_space_is_trimmed(s: Seq<char>, c: char)
    requires
        is_space(c),
    ensures
        trim(s.push(c)) == trim(s),
    decreases s.len(),
{
    let longer = s.push(c);
    if s.len() == 0 {
        assert(longer.drop_first() =~= s);
    } else if is_space(s[0]) {
        assert(longer.drop_first() =~= s.drop_first().push(c));
        lemma_trailing_space_is_trimmed(s.drop_first(), c);
    } else {
        assert(longer.drop_last() =~= s);
    }
}

/// A carriage return at the end of a line changes nothing in what the line
/// says, so lines may end in a carriage return and a line feed.
pub proof fn lemma_carriage_return_is_trimmed(raw: Seq<char>)
    ensures
        classify(raw.push('\r')) == classify(raw),
        classify_flat(raw.push('\r')) == classify_flat(raw),
{
    lemma_trailing_space_is_trimmed(raw, '\r');
}

/// Lines that are all blank make an empty object, and all of them are
/// read.
pub proof fn lemma_blank_lines_are_empty(lines: Seq<Seq<char>>, pos: int)
    requires
        0 <= pos <= lines.len(),
        forall|i: int| pos <= i < lines.len() ==> classify(#[trigger] lines[i]) is Blank,
    ensures
        block_of(lines, pos) == (
            Ok::<ValueModel, SyntaxError>(ValueModel::Object(Seq::empty())),
            lines.len() as int,
        ),
    decreases lines.len() - pos,
{
    if pos < lines.len() {
        assert(classify(lines[pos]) is Blank);
        lemma_blank_lines_are_empty(lines, pos + 1);
    }
}

/// A text whose lines are all blank writes an empty object.
pub proof fn lemma_blank_text_is_empty(text: Seq<char>)
    requires
        forall|i: int|
            0 <= i < split_lines(text).len() ==> classify(#[trigger] split_lines(text)[i]) is Blank,
    ensures
        document_of(text) == Ok::<ValueModel, SyntaxError>(ValueModel::Object(Seq::empty())),
{
    lemma_blank_lines_are_empty(split_lines(text), 0);
}

/// Where a reading that starts at `pos`, with `depth` blocks open around
/// the one that it reads, ends when no line fails: after the closing line
/// that finds no block open around it, or at the end of the lines.
pub open spec fn stop_of(lines: Seq<Seq<char>>, pos: int, depth: nat) -> int
    decreases lines.len() - pos,
{
    if pos < 0 || pos >= lines.len() {
        pos
    } else {
        match classify(lines[pos]) {
            Line::Open(key) => stop_of(lines, pos + 1, depth + 1),
            Line::Close => {
                if depth == 0 {
                    pos + 1
                } else {
                    stop_of(lines, pos + 1, (depth - 1) as nat)
                }
            },
            _ => stop_of(lines, pos + 1, depth),
        }
    }
}

/// A reading ends after the line that it starts at, and not after the end
/// of the lines.
pub proof fn lemma_stop_of_bounds(lines: Seq<Seq<char>>, pos: int, depth: nat)
    requires
        0 <= pos <= lines.len(),
    ensures
        pos <= stop_of(lines, pos, depth) <= lines.len(),
        pos < lines.len() ==> pos < stop_of(lines, pos, depth),
    decreases lines.len() - pos,
{
    if pos < lines.len() {
        match classify(lines[pos]) {
            Line::Open(key) => {
                lemma_stop_of_bounds(lines, pos + 1, depth + 1);
            },
            Line::Close => {
                if depth > 0 {
                    lemma_stop_of_bounds(lines, pos + 1, (depth - 1) as nat);
                }
            },
            _ => {
                lemma_stop_of_bounds(lines, pos + 1, depth);
            },
        }
    }
}

/// A reading succeeds exactly when no line that it comes to fails, and it
/// then ends where the braces alone say that it ends.
pub proof fn lemma_reading_succeeds_iff(
    lines: Seq<Seq<char>>,
    pos: int,
    open: Seq<Frame>,
    current: Seq<(Seq<char>, ValueModel)>,
)
    requires
        0 <= pos,
    ensures
        run(lines, pos, open, current).0 is Ok <==> forall|j: int|
            pos <= j < stop_of(lines, pos, open.len()) && j < lines.len() ==> line_error(
                #[trigger] lines[j],
            ) is None,
        run(lines, pos, open, current).0 is Ok ==> run(lines, pos, open, current).1 == stop_of(
            lines,
            pos,
            open.len(),
        ),
    decreases lines.len() - pos,
{
    if pos < lines.len() {
        lemma_stop_of_bounds(lines, pos, open.len());
        match classify(lines[pos]) {
            Line::Blank => {
                lemma_reading_succeeds_iff(lines, pos + 1, open, current);
            },
            Line::Open(key) => {
                lemma_reading_succeeds_iff(
                    lines,
                    pos + 1,
                    open.push(Frame { entries: current, key }),
                    Seq::empty(),
                );
            },
            Line::Close => {
                if open.len() > 0 {
                    lemma_reading_succeeds_iff(
                        lines,
                        pos + 1,
                        open.drop_last(),
                        insert(open.last().entries, open.last().key, ValueModel::Object(current)),
                    );
                }
            },
            Line::Assign(key, rhs) => {
                if let Ok(v) = value_of(rhs) {
                    lemma_reading_succeeds_iff(lines, pos + 1, open, insert(current, key, v));
                }
            },
            Line::Malformed => {},
        }
    }
}

/// A reading fails with the error of the first failing line that it comes
/// to, and stops after that line.
pub proof fn lemma_first_failure_decides(
    lines: Seq<Seq<char>>,
    pos: int,
    open: Seq<Frame>,
    current: Seq<(Seq<char>, ValueModel)>,
    at: int,
)
    requires
        0 <= pos <= at < lines.len(),
        at < stop_of(lines, pos, open.len()),
        forall|j: int| pos <= j < at ==> line_error(#[trigger] lines[j]) is None,
        line_error(lines[at]) is Some,
    ensures
        run(lines, pos, open, current) == (
            Err::<ValueModel, SyntaxError>(line_error(lines[at])->0),
            at + 1,
        ),
    decreases at - pos,
{
    if pos < at {
        assert(line_error(lines[pos]) is None);
        match classify(lines[pos]) {
            Line::Blank => {
                lemma_first_failure_decides(lines, pos + 1, open, current, at);
            },
            Line::Open(key) => {
                lemma_first_failure_decides(
                    lines,
                    pos + 1,
                    open.push(Frame { entries: current, key }),
                    Seq::empty(),
                    at,
                );
            },
            Line::Close => {
                if open.len() > 0 {
                    lemma_first_failure_decides(
                        lines,
                        pos + 1,
                        open.drop_last(),
                        insert(open.last().entries, open.last().key, ValueModel::Object(current)),
                        at,
                    );
                }
            },
            Line::Assign(key, rhs) => {
                if let Ok(v) = value_of(rhs) {
                    lemma_first_failure_decides(lines, pos + 1, open, insert(current, key, v), at);
                }
            },
            Line::Malformed => {},
        }
    }
}

/// A reading never moves back, and it stops within the lines when it
/// starts within them.
pub proof fn lemma_run_position(
    lines: Seq<Seq<char>>,
    pos: int,
    open: Seq<Frame>,
    current: Seq<(Seq<char>, ValueModel)>,
)
    ensures
        pos <= run(lines, pos, open, current).1,
        0 <= pos <= lines.len() ==> run(lines, pos, open, current).1 <= lines.len(),
        0 <= pos < lines.len() ==> pos < run(lines, pos, open, current).1,
    decreases lines.len() - pos,
{
    if 0 <= pos < lines.len() {
        match classify(lines[pos]) {
            Line::Blank => {
                lemma_run_position(lines, pos + 1, open, current);
            },
            Line::Open(key) => {
                lemma_run_position(
                    lines,
                    pos + 1,
                    open.push(Frame { entries: current, key }),
                    Seq::empty(),
                );
            },
            Line::Close => {
                if open.len() > 0 {
                    lemma_run_position(
                        lines,
                        pos + 1,
                        open.drop_last(),
                        insert(open.last().entries, open.last().key, ValueModel::Object(current)),
                    );
                }
            },
            Line::Assign(key, rhs) => {
                if let Ok(v) = value_of(rhs) {
                    lemma_run_position(lines, pos + 1, open, insert(current, key, v));
                }
            },
            Line::Malformed => {},
        }
    }
}

/// Closing the blocks `outer + open` is closing `open` first and then
/// `outer` around what that gave.
pub proof fn lemma_close_all_split(
    outer: Seq<Frame>,
    open: Seq<Frame>,
    current: Seq<(Seq<char>, ValueModel)>,
)
    requires
        outer.len() > 0,
    ensures
        close_all(outer + open, current) == close_all(
            outer.drop_last(),
            insert(
                outer.last().entries,
                outer.last().key,
                ValueModel::Object(close_all(open, current)),
            ),
        ),
    decreases open.len(),
{
    if open.len() == 0 {
        assert(outer + open =~= outer);
    } else {
        let all = outer + open;
        assert(all.last() == open.last());
        assert(all.drop_last() =~= outer + open.drop_last());
        lemma_close_all_split(
            outer,
            open.drop_last(),
            insert(open.last().entries, open.last().key, ValueModel::Object(current)),
        );
    }
}

/// Blocks that are open around a reading take no part in it until it
/// ends: reading inside the blocks `outer` is reading without them and
/// then, where that gave an object, going on in the innermost of them with
/// that object under its key. Where it failed, the failure stands.
pub proof fn lemma_outer_blocks_wait(
    lines: Seq<Seq<char>>,
    pos: int,
    outer: Seq<Frame>,
    open: Seq<Frame>,
    current: Seq<(Seq<char>, ValueModel)>,
)
    requires
        0 <= pos,
        outer.len() > 0,
    ensures
        run(lines, pos, outer + open, current) == (match run(lines, pos, open, current).0 {
            Ok(inner) => run(
                lines,
                run(lines, pos, open, current).1,
                outer.drop_last(),
                insert(outer.last().entries, outer.last().key, inner),
            ),
            Err(e) => run(lines, pos, open, current),
        }),
    decreases lines.len() - pos,
{
    let all = outer + open;
    if pos >= lines.len() {
        lemma_close_all_split(outer, open, current);
    } else {
        match classify(lines[pos]) {
            Line::Blank => {
                lemma_outer_blocks_wait(lines, pos + 1, outer, open, current);
            },
            Line::Open(key) => {
                let frame = Frame { entries: current, key };
                assert(all.push(frame) =~= outer + open.push(frame));
                lemma_outer_blocks_wait(lines, pos + 1, outer, open.push(frame), Seq::empty());
            },
            Line::Close => {
                if open.len() == 0 {
                    assert(all =~= outer);
                } else {
                    assert(all.last() == open.last());
                    assert(all.drop_last() =~= outer + open.drop_last());
                    lemma_outer_blocks_wait(
                        lines,
                        pos + 1,
                        outer,
                        open.drop_last(),
                        insert(open.last().entries, open.last().key, ValueModel::Object(current)),
                    );
                }
            },
            Line::Assign(key, rhs) => {
                if let Ok(v) = value_of(rhs) {
                    lemma_outer_blocks_wait(lines, pos + 1, outer, open, insert(current, key, v));
                }
            },
            Line::Malformed => {},
        }
    }
}

/// A line that opens a block is read by descent: the block that starts on
/// the next line is read as a block of its own; where that fails, the
/// failure is the result; otherwise the object goes under the key of the
/// opening line, and the reading goes on after the block's last line.
pub proof fn lemma_open_line_descends(
    lines: Seq<Seq<char>>,
    pos: int,
    open: Seq<Frame>,
    current: Seq<(Seq<char>, ValueModel)>,
)
    requires
        0 <= pos < lines.len(),
        classify(lines[pos]) is Open,
    ensures
        run(lines, pos, open, current) == (match block_of(lines, pos + 1).0 {
            Ok(inner) => run(
                lines,
                block_of(lines, pos + 1).1,
                open,
                insert(current, classify(lines[pos])->Open_0, inner),
            ),
            Err(e) => block_of(lines, pos + 1),
        }),
{
    let key = classify(lines[pos])->Open_0;
    let outer = open.push(Frame { entries: current, key });
    assert(outer + Seq::<Frame>::empty() =~= outer);
    assert(outer.drop_last() =~= open);
    lemma_outer_blocks_wait(lines, pos + 1, outer, Seq::empty(), Seq::empty());
}

/// The position in `lines.insert(at, ..)` of the line that stands at `pos`
/// in `lines`.
pub open spec fn shifted(pos: int, at: int) -> int {
    if pos < at {
        pos
    } else {
        pos + 1
    }
}

/// A blank line changes nothing, wherever it stands: reading the lines
/// with a blank line put in among them gives what reading them without it
/// gives, from any state.
pub proof fn lemma_blank_line_changes_nothing(
    lines: Seq<Seq<char>>,
    at: int,
    blank: Seq<char>,
    pos: int,
    open: Seq<Frame>,
    current: Seq<(Seq<char>, ValueModel)>,
)
    requires
        0 <= at <= lines.len(),
        0 <= pos <= lines.len(),
        classify(blank) is Blank,
    ensures
        run(lines.insert(at, blank), shifted(pos, at), open, current).0 == run(
            lines,
            pos,
            open,
            current,
        ).0,
        pos <= at ==> run(lines.insert(at, blank), pos, open, current).0 == run(
            lines,
            pos,
            open,
            current,
        ).0,
    decreases lines.len() - pos,
{
    let longer = lines.insert(at, blank);
    if pos < lines.len() {
        assert(longer[shifted(pos, at)] == lines[pos]);
        match classify(lines[pos]) {
            Line::Blank => {
                lemma_blank_line_changes_nothing(lines, at, blank, pos + 1, open, current);
            },
            Line::Open(key) => {
                lemma_blank_line_changes_nothing(
                    lines,
                    at,
                    blank,
                    pos + 1,
                    open.push(Frame { entries: current, key }),
                    Seq::empty(),
                );
            },
            Line::Close => {
                if open.len() > 0 {
                    lemma_blank_line_changes_nothing(
                        lines,
                        at,
                        blank,
                        pos + 1,
                        open.drop_last(),
                        insert(open.last().entries, open.last().key, ValueModel::Object(current)),
                    );
                }
            },
            Line::Assign(key, rhs) => {
                if let Ok(v) = value_of(rhs) {
                    lemma_blank_line_changes_nothing(
                        lines,
                        at,
                        blank,
                        pos + 1,
                        open,
                        insert(current, key, v),
                    );
                }
            },
            Line::Malformed => {},
        }
    }
    if pos == at {
        assert(longer[pos] == blank);
        assert(run(longer, pos, open, current) == run(longer, pos + 1, open, current));
    } else if pos < at {
        assert(shifted(pos, at) == pos);
    }
}

/// A block reads the same with a blank line put in anywhere.
pub proof fn lemma_blank_line_is_no_op(lines: Seq<Seq<char>>, at: int, blank: Seq<char>)
    requires
        0 <= at <= lines.len(),
        classify(blank) is Blank,
    ensures
        block_of(lines.insert(at, blank), 0).0 == block_of(lines, 0).0,
{
    lemma_blank_line_changes_nothing(lines, at, blank, 0, Seq::empty(), Seq::empty());
}

/// Whether `key` is a key of `v` or of an object somewhere under the
/// entries of `v`.
pub open spec fn occurs(v: ValueModel, key: Seq<char>) -> bool
    decreases v,
{
    match v {
        ValueModel::Object(entries) => {
            ||| has_key(entries, key)
            ||| exists|i: int| 0 <= i < entries.len() && occurs(#[trigger] entries[i].1, key)
        },
        _ => false,
    }
}

/// Whether `found` is the value under `key` in `v` or in an object
/// somewhere under the entries of `v`.
pub open spec fn holds(v: ValueModel, key: Seq<char>, found: ValueModel) -> bool
    decreases v,
{
    match v {
        ValueModel::Object(entries) => {
            ||| lookup(entries, key) == Some(found)
            ||| exists|i: int| 0 <= i < entries.len() && holds(#[trigger] entries[i].1, key, found)
        },
        _ => false,
    }
}

/// The search finds a value exactly when the key occurs somewhere in the
/// tree, and what it finds is the value under that key in some object of
/// the tree.
pub proof fn lemma_find_meets_key(v: ValueModel, key: Seq<char>)
    ensures
        find_in(v, key) is Some <==> occurs(v, key),
        find_in(v, key) matches Some(found) ==> holds(v, key, found),
    decreases v, 0nat,
{
    match v {
        ValueModel::Object(entries) => {
            if !has_key(entries, key) {
                lemma_find_from_meets_key(entries, key, 0);
            }
        },
        _ => {},
    }
}

/// The search through the entries from `from` on finds a value exactly
/// when the key occurs under one of them, and what it finds is the value
/// under that key in some object under one of them.
pub proof fn lemma_find_from_meets_key(
    entries: Seq<(Seq<char>, ValueModel)>,
    key: Seq<char>,
    from: int,
)
    requires
        0 <= from,
    ensures
        find_from(entries, key, from) is Some <==> exists|i: int|
            from <= i < entries.len() && occurs(#[trigger] entries[i].1, key),
        find_from(entries, key, from) matches Some(found) ==> exists|i: int|
            from <= i < entries.len() && holds(#[trigger] entries[i].1, key, found),
    decreases entries, entries.len() - from,
{
    if from < entries.len() {
        lemma_find_meets_key(entries[from].1, key);
        lemma_find_from_meets_key(entries, key, from + 1);
        if find_in(entries[from].1, key) is None {
            assert forall|i: int|
                from <= i < entries.len() && occurs(
                    #[trigger] entries[i].1,
                    key,
                ) implies from + 1 <= i by {}
        }
    }
}

} // verus!
