//! Encoding of one named value into the text of a record.
//!
//! A value without line breaks becomes `name=value\n`. A value with one or
//! more line breaks becomes the block `name<<D\nvalue\nD\n`, where `D` is a
//! freshly generated delimiter.
use vstd::prelude::*;

verus! {

/// The character that makes a value take the block form: only a newline
/// does; every other character, `\r` included, passes through verbatim.
pub open spec fn is_line_break(c: char) -> bool {
    c == '\n'
}

pub open spec fn has_line_break(s: Seq<char>) -> bool {
    exists|i: int| 0 <= i < s.len() && is_line_break(#[trigger] s[i])
}

/// Returns whether `s` holds a line break.
pub fn contains_line_break(s: &str) -> (r: bool)
    ensures
        r == has_line_break(s@),
{
    let n = s.unicode_len();
    let mut i: usize = 0;
    while i < n
        invariant
            n == s@.len(),
            i <= n,
            forall|j: int| 0 <= j < i ==> !is_line_break(#[trigger] s@[j]),
        decreases n - i,
    {
        let c = s.get_char(i);
        if c == '\n' {
            return true;
        }
        i = i + 1;
    }
    false
}

/// Characters allowed in a record's name: ASCII letters, digits, `_` and `-`.
pub open spec fn is_name_char(c: char) -> bool {
    ('a' <= c && c <= 'z') || ('A' <= c && c <= 'Z') || ('0' <= c && c <= '9') || c == '_' || c
        == '-'
}

/// A name that a reader can tell apart from the markers `=` and `<<`.
pub open spec fn valid_name(name: Seq<char>) -> bool {
    &&& name.len() > 0
    &&& forall|i: int| 0 <= i < name.len() ==> is_name_char(#[trigger] name[i])
}

/// A delimiter closes a block on a line of its own, so it holds no line break.
pub open spec fn is_delimiter(d: Seq<char>) -> bool {
    d.len() > 0 && !has_line_break(d)
}

pub open spec fn is_lower_hex(c: char) -> bool {
    ('0' <= c && c <= '9') || ('a' <= c && c <= 'f')
}

/// The hyphenated text form of a UUID: 8-4-4-4-12 lowercase hex digits.
pub open spec fn is_hyphenated_uuid(s: Seq<char>) -> bool {
    &&& s.len() == 36
    &&& forall|i: int|
        0 <= i < 36 ==> if i == 8 || i == 13 || i == 18 || i == 23 {
            #[trigger] s[i] == '-'
        } else {
            is_lower_hex(s[i])
        }
}

/// `name=value\n`
pub open spec fn single_line_form(name: Seq<char>, value: Seq<char>) -> Seq<char> {
    name + seq!['='] + value + seq!['\n']
}

/// `name<<D\nvalue\nD\n`
pub open spec fn block_form(name: Seq<char>, value: Seq<char>, delimiter: Seq<char>) -> Seq<char> {
    name + seq!['<', '<'] + delimiter + seq!['\n'] + value + seq!['\n'] + delimiter + seq!['\n']
}

/// The record of `name` and `value`: the block form exactly when the value
/// holds a line break.
pub open spec fn record_form(name: Seq<char>, value: Seq<char>, delimiter: Seq<char>) -> Seq<
    char,
> {
    if has_line_break(value) {
        block_form(name, value, delimiter)
    } else {
        single_line_form(name, value)
    }
}

/// Relies on `uuid::Uuid::new_v4`, a random version-4 UUID, and on its
/// `Display`, which writes the lowercase hyphenated form.
/// It panics only where the system's random source fails.
#[verifier::external_body]
fn new_delimiter() -> (r: String)
    ensures
        is_hyphenated_uuid(r@),
{
    uuid::Uuid::new_v4().to_string()
}

/// The text of a UUID is a proper delimiter.
pub proof fn lemma_uuid_is_delimiter(s: Seq<char>)
    requires
        is_hyphenated_uuid(s),
    ensures
        is_delimiter(s),
{
    assert forall|i: int| 0 <= i < s.len() implies !is_line_break(#[trigger] s[i]) by {
        assert(i == 8 || i == 13 || i == 18 || i == 23 || is_lower_hex(s[i]));
    }
}

/// The single-line record `name=value\n`.
pub fn encode_single_line(name: &str, value: &str) -> (r: String)
    ensures
        r@ == single_line_form(name@, value@),
{
    let mut r = String::from_str(name);
    r.append("=");
    r.append(value);
    r.append("\n");
    proof {
        reveal_strlit("=");
        reveal_strlit("\n");
    }
    assert(r@ =~= single_line_form(name@, value@));
    r
}

/// The block record `name<<delimiter\nvalue\ndelimiter\n`.
pub fn encode_block(name: &str, value: &str, delimiter: &str) -> (r: String)
    ensures
        r@ == block_form(name@, value@, delimiter@),
{
    let mut r = String::from_str(name);
    r.append("<<");
    r.append(delimiter);
    r.append("\n");
    r.append(value);
    r.append("\n");
    r.append(delimiter);
    r.append("\n");
    proof {
        reveal_strlit("<<");
        reveal_strlit("\n");
    }
    assert(r@ =~= block_form(name@, value@, delimiter@));
    r
}

/// The record of `name` and `value`, closing a block with `delimiter` where
/// the value needs one.
pub fn encode_record(name: &str, value: &str, delimiter: &str) -> (r: String)
    ensures
        r@ == record_form(name@, value@, delimiter@),
{
    if contains_line_break(value) {
        encode_block(name, value, delimiter)
    } else {
        encode_single_line(name, value)
    }
}

/// The record of `name` and `value`. A delimiter is generated only where the
/// value takes the block form, and anew on every such call.
pub fn render_record(name: &str, value: &str) -> (r: String)
    ensures
        exists|d: Seq<char>|
            is_hyphenated_uuid(d) && r@ == #[trigger] record_form(name@, value@, d),
        !has_line_break(value@) ==> r@ == single_line_form(name@, value@),
{
    if contains_line_break(value) {
        let d = new_delimiter();
        let r = encode_record(name, value, d.as_str());
        r
    } else {
        let r = encode_single_line(name, value);
        proof {
            let w = Seq::new(
                36,
                |i: int|
                    if i == 8 || i == 13 || i == 18 || i == 23 {
                        '-'
                    } else {
                        '0'
                    },
            );
            assert(is_hyphenated_uuid(w));
            assert(r@ == record_form(name@, value@, w));
        }
        r
    }
}

/// The record of `name` and `value` in the block form, whatever the value
/// holds, closed by a freshly generated delimiter.
pub fn render_block(name: &str, value: &str) -> (r: String)
    ensures
        exists|d: Seq<char>| is_hyphenated_uuid(d) && r@ == #[trigger] block_form(name@, value@, d),
{
    let d = new_delimiter();
    encode_block(name, value, d.as_str())
}

} // verus!
