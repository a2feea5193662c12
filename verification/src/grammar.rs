//! What text means: the grammar of lines, values and blocks, stated over
//! sequences of characters.

use crate::error::SyntaxError;
use crate::number::integer_of;
use crate::number::is_float_literal;
use crate::text::find;
use crate::text::lemma_find;
use crate::text::lemma_trim_len;
use crate::text::split_lines;
use crate::text::strip_trailing;
use crate::text::trim;
use crate::value::insert;
use crate::value::ValueModel;
use vstd::prelude::*;

verus! {

/// What one line says.
pub enum Line {
    /// Nothing: the line is empty or a comment.
    Blank,
    /// A block opens under this key.
    Open(Seq<char>),
    /// The current block closes.
    Close,
    /// The key on the left gets the value written on the right.
    Assign(Seq<char>, Seq<char>),
    /// The line should assign but holds no `=`.
    Malformed,
}

/// Whether a trimmed line says nothing: it is empty or starts with `#`.
pub open spec fn is_blank(t: Seq<char>) -> bool {
    t.len() == 0 || t[0] == '#'
}

/// A trimmed line read as an assignment: the key is what stands before the
/// first `=`, the value what stands after it, both trimmed.
pub open spec fn assignment(t: Seq<char>) -> Line {
    let k = find(t, '=');
    if 0 <= k < t.len() {
        Line::Assign(trim(t.take(k)), trim(t.skip(k + 1)))
    } else {
        Line::Malformed
    }
}

/// What a line of a block says. The line is trimmed first. A line that
/// ends in `{` opens a block under what stands before the braces; one that
/// ends in `}` closes the block; any other line that is not blank assigns.
pub open spec fn classify(raw: Seq<char>) -> Line {
    let t = trim(raw);
    if is_blank(t) {
        Line::Blank
    } else if t.last() == '{' {
        Line::Open(trim(strip_trailing(t, '{')))
    } else if t.last() == '}' {
        Line::Close
    } else {
        assignment(t)
    }
}

/// What a line of an inline object says: there a line that is not blank
/// always assigns, braces or not.
pub open spec fn classify_flat(raw: Seq<char>) -> Line {
    let t = trim(raw);
    if is_blank(t) {
        Line::Blank
    } else {
        assignment(t)
    }
}

/// Whether `s` stands between two double quotes: one quote alone is no
/// quoted text.
pub open spec fn is_quoted(s: Seq<char>) -> bool {
    s.len() >= 2 && s[0] == '"' && s.last() == '"'
}

/// Whether `s` stands between an opening and a closing brace.
pub open spec fn is_braced(s: Seq<char>) -> bool {
    s.len() >= 2 && s[0] == '{' && s.last() == '}'
}

/// `s` without its first and its last character.
pub open spec fn inner(s: Seq<char>) -> Seq<char> {
    s.subrange(1, s.len() - 1)
}

/// The word `true`.
pub open spec fn word_true() -> Seq<char> {
    seq!['t', 'r', 'u', 'e']
}

/// The word `false`.
pub open spec fn word_false() -> Seq<char> {
    seq!['f', 'a', 'l', 's', 'e']
}

/// The value that the token `s` writes. The shapes are tried in this
/// order and the first that fits decides: a quoted string, whose text is
/// what stands between the quotes, taken as it is; an integer; a decimal
/// number with a point or an exponent, or too large for an integer, as a
/// floating-point literal; `true` or `false`; an inline object between
/// braces. A token of no such shape is an error, and so are the words
/// `inf`, `infinity` and `nan`, which write no decimal number.
pub open spec fn value_of(s: Seq<char>) -> Result<ValueModel, SyntaxError>
    decreases s.len(), 0nat,
{
    if is_quoted(s) {
        Ok(ValueModel::String(inner(s)))
    } else if integer_of(s) is Some {
        Ok(ValueModel::Integer(integer_of(s)->0))
    } else if is_float_literal(s) {
        Ok(ValueModel::Float(s))
    } else if s == word_true() {
        Ok(ValueModel::Boolean(true))
    } else if s == word_false() {
        Ok(ValueModel::Boolean(false))
    } else if is_braced(s) {
        match inline_entries(inner(s), Seq::empty()) {
            Ok(entries) => Ok(ValueModel::Object(entries)),
            Err(e) => Err(e),
        }
    } else {
        Err(SyntaxError::UnsupportedValue)
    }
}

/// The first line of `content`: what stands before the first line feed.
pub open spec fn first_line(content: Seq<char>) -> Seq<char> {
    let k = find(content, '\n');
    if 0 <= k <= content.len() {
        content.take(k)
    } else {
        content
    }
}

/// What follows the first line of `content` and its line feed.
pub open spec fn after_first_line(content: Seq<char>) -> Seq<char> {
    let k = find(content, '\n');
    if 0 <= k < content.len() {
        content.skip(k + 1)
    } else {
        Seq::empty()
    }
}

/// The entries of an inline object: `acc` after the assignments on the
/// lines of `content` were made in order. The first line that fails ends
/// it with that line's error.
pub open spec fn inline_entries(
    content: Seq<char>,
    acc: Seq<(Seq<char>, ValueModel)>,
) -> Result<Seq<(Seq<char>, ValueModel)>, SyntaxError>
    decreases content.len(), 1nat,
{
    if content.len() == 0 {
        Ok(acc)
    } else {
        match classify_flat(first_line(content)) {
            Line::Assign(key, rhs) => {
                proof {
                    lemma_flat_rhs_shorter(content);
                }
                match value_of(rhs) {
                    Ok(v) => inline_entries(after_first_line(content), insert(acc, key, v)),
                    Err(e) => Err(e),
                }
            },
            Line::Malformed => Err(SyntaxError::MissingAssignment),
            _ => inline_entries(after_first_line(content), acc),
        }
    }
}

/// A block that is open while the one inside it is read: the entries that
/// it has so far, and the key under which the inner block will go.
pub struct Frame {
    pub entries: Seq<(Seq<char>, ValueModel)>,
    pub key: Seq<char>,
}

/// The entries of the outermost block once every block that is still open
/// is closed, innermost first: each goes into the block around it under
/// the key that it was opened with.
pub open spec fn close_all(
    open: Seq<Frame>,
    current: Seq<(Seq<char>, ValueModel)>,
) -> Seq<(Seq<char>, ValueModel)>
    decreases open.len(),
{
    if open.len() == 0 {
        current
    } else {
        close_all(
            open.drop_last(),
            insert(open.last().entries, open.last().key, ValueModel::Object(current)),
        )
    }
}

/// Reads a block line by line from `pos` on. `open` holds the blocks
/// around the one that is being read, outermost first, and `current` the
/// entries that this one has so far. The result is the outermost block, or
/// the error of the first line that fails, together with the position
/// after the last line that was read.
///
/// A closing line ends the innermost open block; when no block is open
/// around it, it ends the reading. The end of the lines closes every block
/// that is still open.
pub open spec fn run(
    lines: Seq<Seq<char>>,
    pos: int,
    open: Seq<Frame>,
    current: Seq<(Seq<char>, ValueModel)>,
) -> (Result<ValueModel, SyntaxError>, int)
    decreases lines.len() - pos,
{
    if pos < 0 || pos >= lines.len() {
        (Ok(ValueModel::Object(close_all(open, current))), pos)
    } else {
        match classify(lines[pos]) {
            Line::Blank => run(lines, pos + 1, open, current),
            Line::Open(key) => run(
                lines,
                pos + 1,
                open.push(Frame { entries: current, key }),
                Seq::empty(),
            ),
            Line::Close => {
                if open.len() == 0 {
                    (Ok(ValueModel::Object(current)), pos + 1)
                } else {
                    run(
                        lines,
                        pos + 1,
                        open.drop_last(),
                        insert(open.last().entries, open.last().key, ValueModel::Object(current)),
                    )
                }
            },
            Line::Assign(key, rhs) => match value_of(rhs) {
                Ok(v) => run(lines, pos + 1, open, insert(current, key, v)),
                Err(e) => (Err(e), pos + 1),
            },
            Line::Malformed => (Err(SyntaxError::MissingAssignment), pos + 1),
        }
    }
}

/// The block that starts at line `pos`, and the position after its last
/// line.
pub open spec fn block_of(lines: Seq<Seq<char>>, pos: int) -> (Result<ValueModel, SyntaxError>, int) {
    run(lines, pos, Seq::empty(), Seq::empty())
}

/// The value that a whole text writes: the block that its lines make up.
pub open spec fn document_of(text: Seq<char>) -> Result<ValueModel, SyntaxError> {
    block_of(split_lines(text), 0).0
}

/// The object that the lines of `content` write when every line assigns.
pub open spec fn inline_object_of(content: Seq<char>) -> Result<ValueModel, SyntaxError> {
    match inline_entries(content, Seq::empty()) {
        Ok(entries) => Ok(ValueModel::Object(entries)),
        Err(e) => Err(e),
    }
}

/// The right-hand side of an assignment is shorter than its line.
pub proof fn lemma_assignment_shorter(t: Seq<char>)
    ensures
        match assignment(t) {
            Line::Assign(key, rhs) => key.len() + rhs.len() < t.len(),
            Line::Malformed => true,
            _ => false,
        },
{
    lemma_find(t, '=');
    let k = find(t, '=');
    if 0 <= k < t.len() {
        lemma_trim_len(t.take(k));
        lemma_trim_len(t.skip(k + 1));
    }
}

/// The right-hand side of an assignment on the first line of a text is
/// shorter than the text.
pub proof fn lemma_flat_rhs_shorter(content: Seq<char>)
    ensures
        match classify_flat(first_line(content)) {
            Line::Assign(key, rhs) => rhs.len() < content.len(),
            _ => true,
        },
{
    lemma_find(content, '\n');
    let line = first_line(content);
    lemma_trim_len(line);
    if !is_blank(trim(line)) {
        lemma_assignment_shorter(trim(line));
    }
}

} // verus!
