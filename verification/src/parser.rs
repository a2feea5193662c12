//! The parser: from text to a value tree, as the grammar says.

use crate::error::SyntaxError;
use crate::grammar::after_first_line;
use crate::grammar::assignment;
use crate::grammar::block_of;
use crate::grammar::classify;
use crate::grammar::classify_flat;
use crate::grammar::document_of;
use crate::grammar::first_line;
use crate::grammar::inline_entries;
use crate::grammar::inline_object_of;
use crate::grammar::lemma_flat_rhs_shorter;
use crate::grammar::run;
use crate::grammar::value_of;
use crate::grammar::word_false;
use crate::grammar::word_true;
use crate::grammar::Line;
use crate::laws::lemma_block_well_formed;
use crate::laws::lemma_open_line_descends;
use crate::laws::lemma_run_position;
use crate::laws::lemma_inline_well_formed;
use crate::laws::lemma_value_well_formed;
use crate::number::is_float;
use crate::number::parse_integer;
use crate::text::find_char;
use crate::text::lemma_find;
use crate::text::lines_of;
use crate::text::lines_text;
use crate::text::string_of;
use crate::text::strip_trailing_chars;
use crate::text::to_chars;
use crate::text::trim_chars;
use crate::value::entries_model;
use crate::value::insert_entry;
use crate::value::lemma_object_view;
use crate::value::PklValue;
use crate::value::ValueModel;
use vstd::prelude::*;
use vstd::slice::slice_subrange;

verus! {

/// What a parse stands for: the model of the value, or the error.
pub open spec fn result_model(r: Result<PklValue, SyntaxError>) -> Result<ValueModel, SyntaxError> {
    match r {
        Ok(v) => Ok(v@),
        Err(e) => Err(e),
    }
}

/// What one line says, with the pieces of the line that it speaks of.
enum LineKind<'a> {
    Blank,
    Open(&'a [char]),
    Close,
    Assign(&'a [char], &'a [char]),
    Malformed,
}

impl<'a> LineKind<'a> {
    spec fn model(self) -> Line {
        match self {
            LineKind::Blank => Line::Blank,
            LineKind::Open(key) => Line::Open(key@),
            LineKind::Close => Line::Close,
            LineKind::Assign(key, rhs) => Line::Assign(key@, rhs@),
            LineKind::Malformed => Line::Malformed,
        }
    }
}

/// Reads a trimmed line as an assignment.
fn read_assignment<'a>(t: &'a [char]) -> (kind: LineKind<'a>)
    ensures
        kind.model() == assignment(t@),
{
    let k = find_char(t, '=');
    proof {
        lemma_find(t@, '=');
    }
    if k < t.len() {
        let key = trim_chars(slice_subrange(t, 0, k));
        let rhs = trim_chars(slice_subrange(t, k + 1, t.len()));
        LineKind::Assign(key, rhs)
    } else {
        LineKind::Malformed
    }
}

/// Says what a line of a block says.
fn read_line<'a>(raw: &'a [char]) -> (kind: LineKind<'a>)
    ensures
        kind.model() == classify(raw@),
{
    let t = trim_chars(raw);
    let n: usize = t.len();
    if n == 0 || t[0] == '#' {
        LineKind::Blank
    } else if t[n - 1] == '{' {
        LineKind::Open(trim_chars(strip_trailing_chars(t, '{')))
    } else if t[n - 1] == '}' {
        LineKind::Close
    } else {
        read_assignment(t)
    }
}

/// Says what a line of an inline object says.
fn read_flat_line<'a>(raw: &'a [char]) -> (kind: LineKind<'a>)
    ensures
        kind.model() == classify_flat(raw@),
{
    let t = trim_chars(raw);
    if t.len() == 0 || t[0] == '#' {
        LineKind::Blank
    } else {
        read_assignment(t)
    }
}

/// Whether `s` is the word `true`.
fn is_true(s: &[char]) -> (b: bool)
    ensures
        b == (s@ == word_true()),
{
    let b = s.len() == 4 && s[0] == 't' && s[1] == 'r' && s[2] == 'u' && s[3] == 'e';
    proof {
        if b {
            assert(s@ =~= word_true());
        } else if s@.len() == 4 {
            assert(word_true()[0] == 't' && word_true()[1] == 'r' && word_true()[2] == 'u'
                && word_true()[3] == 'e');
        }
    }
    b
}

/// Whether `s` is the word `false`.
fn is_false(s: &[char]) -> (b: bool)
    ensures
        b == (s@ == word_false()),
{
    let b = s.len() == 5 && s[0] == 'f' && s[1] == 'a' && s[2] == 'l' && s[3] == 's' && s[4]
        == 'e';
    proof {
        if b {
            assert(s@ =~= word_false());
        } else if s@.len() == 5 {
            assert(word_false()[0] == 'f' && word_false()[1] == 'a' && word_false()[2] == 'l'
                && word_false()[3] == 's' && word_false()[4] == 'e');
        }
    }
    b
}

/// The value that the characters of a token write.
pub fn parse_value_chars(s: &[char]) -> (out: Result<PklValue, SyntaxError>)
    ensures
        result_model(out) == value_of(s@),
        out matches Ok(v) ==> v.wf(),
    decreases s@.len(), 0nat,
{
    proof {
        lemma_value_well_formed(s@);
    }
    let n: usize = s.len();
    if n >= 2 && s[0] == '"' && s[n - 1] == '"' {
        return Ok(PklValue::String(string_of(slice_subrange(s, 1, n - 1))));
    }
    if let Some(number) = parse_integer(s) {
        return Ok(PklValue::Integer(number));
    }
    if is_float(s) {
        return Ok(PklValue::Float(string_of(s)));
    }
    if is_true(s) {
        return Ok(PklValue::Boolean(true));
    }
    if is_false(s) {
        return Ok(PklValue::Boolean(false));
    }
    if n >= 2 && s[0] == '{' && s[n - 1] == '}' {
        return parse_inline_chars(slice_subrange(s, 1, n - 1));
    }
    Err(SyntaxError::UnsupportedValue)
}

/// The object that the characters between the braces of an inline object
/// write.
pub fn parse_inline_chars(content: &[char]) -> (out: Result<PklValue, SyntaxError>)
    ensures
        result_model(out) == inline_object_of(content@),
        out matches Ok(v) ==> v.wf() && v is Object,
    decreases content@.len(), 1nat,
{
    proof {
        lemma_inline_well_formed(content@, Seq::empty());
    }
    let n: usize = content.len();
    let mut entries: Vec<(String, PklValue)> = Vec::new();
    let mut start: usize = 0;
    assert(content@.skip(0) =~= content@);
    assert(entries_model(entries@) =~= Seq::empty());
    while start < n
        invariant
            start <= n,
            n == content@.len(),
            inline_entries(content@, Seq::empty()) == inline_entries(
                content@.skip(start as int),
                entries_model(entries@),
            ),
        decreases n - start,
    {
        let rest = slice_subrange(content, start, n);
        assert(rest@ =~= content@.skip(start as int));
        let k = find_char(rest, '\n');
        proof {
            lemma_find(rest@, '\n');
            lemma_flat_rhs_shorter(rest@);
        }
        let line = slice_subrange(rest, 0, k);
        assert(line@ =~= first_line(rest@));
        match read_flat_line(line) {
            LineKind::Assign(key, rhs) => {
                match parse_value_chars(rhs) {
                    Ok(value) => {
                        insert_entry(&mut entries, string_of(key), value);
                    },
                    Err(e) => {
                        return Err(e);
                    },
                }
            },
            LineKind::Malformed => {
                return Err(SyntaxError::MissingAssignment);
            },
            _ => {},
        }
        if k < rest.len() {
            assert(after_first_line(rest@) =~= content@.skip(start + k + 1));
            start = start + k + 1;
        } else {
            assert(after_first_line(rest@) =~= content@.skip(n as int));
            start = n;
        }
    }
    proof {
        lemma_object_view(entries);
    }
    Ok(PklValue::Object(entries))
}

/// Reads the block that starts at line `*pos` and leaves `*pos` after the
/// last line that was read: after the line that closes the block, at the
/// end of the lines where nothing closes it, or after the line that
/// failed.
///
/// A line that opens a block is read by descent: the inner block is read
/// from the next line on, with the same position, and goes under the key
/// of the opening line.
pub fn parse_lines(lines: &[Vec<char>], pos: &mut usize) -> (out: Result<PklValue, SyntaxError>)
    ensures
        (result_model(out), *final(pos) as int) == block_of(lines_text(lines@), *old(pos) as int),
        out matches Ok(v) ==> v.wf() && v is Object,
    decreases lines@.len() - *old(pos),
{
    let n: usize = lines.len();
    let ghost text = lines_text(lines@);
    let ghost start = *pos as int;
    let mut entries: Vec<(String, PklValue)> = Vec::new();
    assert(entries_model(entries@) =~= Seq::empty());
    while *pos < n
        invariant
            n == lines@.len(),
            text == lines_text(lines@),
            start == *old(pos),
            start <= *pos,
            block_of(text, start) == run(
                text,
                *pos as int,
                Seq::empty(),
                entries_model(entries@),
            ),
        decreases n - *pos,
    {
        let at: usize = *pos;
        let kind = read_line(lines[at].as_slice());
        assert(text[at as int] == lines@[at as int]@);
        *pos = at + 1;
        match kind {
            LineKind::Blank => {},
            LineKind::Open(key) => {
                proof {
                    lemma_open_line_descends(
                        text,
                        at as int,
                        Seq::empty(),
                        entries_model(entries@),
                    );
                    lemma_run_position(text, at + 1, Seq::empty(), Seq::empty());
                }
                match parse_lines(lines, pos) {
                    Ok(inner) => {
                        insert_entry(&mut entries, string_of(key), inner);
                    },
                    Err(e) => {
                        return Err(e);
                    },
                }
            },
            LineKind::Close => {
                proof {
                    lemma_object_view(entries);
                    lemma_block_well_formed(text, start);
                }
                return Ok(PklValue::Object(entries));
            },
            LineKind::Assign(key, rhs) => {
                match parse_value_chars(rhs) {
                    Ok(value) => {
                        insert_entry(&mut entries, string_of(key), value);
                    },
                    Err(e) => {
                        return Err(e);
                    },
                }
            },
            LineKind::Malformed => {
                return Err(SyntaxError::MissingAssignment);
            },
        }
    }
    proof {
        lemma_object_view(entries);
        lemma_block_well_formed(text, start);
    }
    Ok(PklValue::Object(entries))
}

/// What a slice of lines holds: the characters of each line.
pub open spec fn strs_text(lines: Seq<&str>) -> Seq<Seq<char>> {
    Seq::new(lines.len(), |i: int| lines[i]@)
}

/// The characters of each line.
fn chars_of_lines(lines: &[&str]) -> (out: Vec<Vec<char>>)
    ensures
        lines_text(out@) == strs_text(lines@),
{
    let n: usize = lines.len();
    let mut out: Vec<Vec<char>> = Vec::new();
    let mut i: usize = 0;
    while i < n
        invariant
            i <= n,
            n == lines@.len(),
            out@.len() == i,
            forall|j: int| 0 <= j < i ==> out@[j]@ == lines@[j]@,
        decreases n - i,
    {
        out.push(to_chars(lines[i]));
        i += 1;
    }
    assert(lines_text(out@) =~= strs_text(lines@));
    out
}

/// Reads one value from a token. The token is taken as it is: white space
/// around it is not removed.
///
/// The shapes are tried in order: a quoted string, an integer, a decimal
/// floating-point literal, `true` or `false`, an inline object between
/// braces. A token of no such shape fails with
/// [`SyntaxError::UnsupportedValue`], and so do the words `inf`,
/// `infinity` and `nan`; a line inside an inline object that fails gives
/// that line's error.
pub fn parse_value(value: &str) -> (out: Result<PklValue, SyntaxError>)
    ensures
        result_model(out) == value_of(value@),
        out matches Ok(v) ==> v.wf(),
{
    let chars = to_chars(value);
    parse_value_chars(chars.as_slice())
}

/// Reads the inside of an inline object: every line that is neither empty
/// nor a comment must assign, and a brace at the end of a line opens or
/// closes nothing. The first line without `=` fails with
/// [`SyntaxError::MissingAssignment`].
pub fn parse_pkl_inner_object(content: &str) -> (out: Result<PklValue, SyntaxError>)
    ensures
        result_model(out) == inline_object_of(content@),
        out matches Ok(v) ==> v.wf() && v is Object,
{
    let chars = to_chars(content);
    parse_inline_chars(chars.as_slice())
}

/// Reads the block that starts at line `*pos` of `lines` and moves `*pos`
/// past the last line that was read: the line that closes the block, the
/// last line where nothing closes it, or the line that failed. A position
/// at or past the end gives an empty object and stays where it is.
pub fn parse_object(lines: &[&str], pos: &mut usize) -> (out: Result<PklValue, SyntaxError>)
    ensures
        (result_model(out), *final(pos) as int) == block_of(strs_text(lines@), *old(pos) as int),
        out matches Ok(v) ==> v.wf() && v is Object,
{
    let chars = chars_of_lines(lines);
    parse_lines(chars.as_slice(), pos)
}

/// Reads a whole text: its lines make up the outermost block.
pub fn parse_pkl_text(content: &str) -> (out: Result<PklValue, SyntaxError>)
    ensures
        result_model(out) == document_of(content@),
        out matches Ok(v) ==> v.wf() && v is Object,
{
    let chars = to_chars(content);
    let lines = lines_of(chars.as_slice());
    let mut pos: usize = 0;
    parse_lines(lines.as_slice(), &mut pos)
}

} // verus!
