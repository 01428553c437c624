//! How a reader recovers records from their text, and the laws that say
//! every record, and every log of records, reads back as the names and
//! values that were encoded.
use vstd::prelude::*;
use crate::encode::{
    is_line_break,
    has_line_break,
    is_name_char,
    valid_name,
    is_delimiter,
    single_line_form,
    block_form,
    record_form,
};
use crate::channel::{RecordModel, record_text, log_text};

verus! {

/// Index of the first `c` in `s`, or `s.len()` where there is none.
pub open spec fn first_index_of(s: Seq<char>, c: char) -> int
    decreases s.len(),
{
    if s.len() == 0 {
        0
    } else if s[0] == c {
        0
    } else {
        1 + first_index_of(s.drop_first(), c)
    }
}

/// Index of the last `c` in `s`, or `-1` where there is none.
pub open spec fn last_index_of(s: Seq<char>, c: char) -> int
    decreases s.len(),
{
    if s.len() == 0 {
        -1
    } else if s.last() == c {
        s.len() - 1
    } else {
        last_index_of(s.drop_last(), c)
    }
}

proof fn lemma_first_index_bounds(s: Seq<char>, c: char)
    ensures
        0 <= first_index_of(s, c) <= s.len(),
    decreases s.len(),
{
    if s.len() > 0 && s[0] != c {
        lemma_first_index_bounds(s.drop_first(), c);
    }
}

proof fn lemma_first_index_skip(a: Seq<char>, b: Seq<char>, c: char)
    requires
        forall|i: int| 0 <= i < a.len() ==> a[i] != c,
    ensures
        first_index_of(a + b, c) == a.len() + first_index_of(b, c),
    decreases a.len(),
{
    if a.len() == 0 {
        assert(a + b =~= b);
    } else {
        assert((a + b)[0] == a[0]);
        let a2 = a.drop_first();
        assert((a + b).drop_first() =~= a2 + b);
        assert forall|i: int| 0 <= i < a2.len() implies a2[i] != c by {
            assert(a2[i] == a[i + 1]);
        }
        lemma_first_index_skip(a2, b, c);
    }
}

/// Whether a line that equals `d` and is ended by a line break starts at `q`.
pub open spec fn line_matches_at(s: Seq<char>, d: Seq<char>, q: int) -> bool {
    &&& 0 <= q
    &&& q == 0 || s[q - 1] == '\n'
    &&& q + d.len() < s.len()
    &&& s.subrange(q, q + d.len()) == d
    &&& s[q + d.len()] == '\n'
}

/// The start of the first line at or after `q` that equals `d`, or `-1`.
pub open spec fn find_line(s: Seq<char>, d: Seq<char>, q: int) -> int
    decreases s.len() - q,
{
    if q < 0 || q >= s.len() {
        -1
    } else if line_matches_at(s, d, q) {
        q
    } else {
        find_line(s, d, q + 1)
    }
}

proof fn lemma_find_line_matches(s: Seq<char>, d: Seq<char>, q: int)
    ensures
        find_line(s, d, q) >= 0 ==> line_matches_at(s, d, find_line(s, d, q)),
    decreases s.len() - q,
{
    if 0 <= q < s.len() && !line_matches_at(s, d, q) {
        lemma_find_line_matches(s, d, q + 1);
    }
}

/// No line of `value` is `d`, the last line included.
pub open spec fn no_line_is(value: Seq<char>, d: Seq<char>) -> bool {
    forall|q: int| 0 <= q <= value.len() ==> !#[trigger] line_matches_at(value + seq!['\n'], d, q)
}

/// Reads a whole log from its first line on: a header line holding `=`
/// before any `<<` is a single-line record; a header `name<<D` opens a block
/// that ends at the first later line equal to `D`.
pub open spec fn parse_log(t: Seq<char>) -> Option<Seq<(Seq<char>, Seq<char>)>>
    decreases t.len(),
    via parse_log_decreases
{
    if t.len() == 0 {
        Some(Seq::empty())
    } else {
        let h = first_index_of(t, '\n');
        let header = t.subrange(0, h);
        let rest = t.subrange(h + 1, t.len() as int);
        let e = first_index_of(header, '=');
        let m = first_index_of(header, '<');
        if h >= t.len() {
            None
        } else if e < m {
            match parse_log(rest) {
                Some(rs) => Some(seq![(header.subrange(0, e), header.subrange(e + 1, h))] + rs),
                None => None,
            }
        } else if m + 1 < h && header[m + 1] == '<' {
            let d = header.subrange(m + 2, h);
            let p = find_line(rest, d, 0);
            if p >= 1 {
                match parse_log(rest.subrange(p + d.len() + 1, rest.len() as int)) {
                    Some(rs) => Some(seq![(header.subrange(0, m), rest.subrange(0, p - 1))] + rs),
                    None => None,
                }
            } else {
                None
            }
        } else {
            None
        }
    }
}

#[via_fn]
proof fn parse_log_decreases(t: Seq<char>) {
    if t.len() > 0 {
        lemma_first_index_bounds(t, '\n');
        let h = first_index_of(t, '\n');
        if h < t.len() {
            let header = t.subrange(0, h);
            let rest = t.subrange(h + 1, t.len() as int);
            let m = first_index_of(header, '<');
            lemma_first_index_bounds(header, '<');
            if m + 1 < h {
                let d = header.subrange(m + 2, h);
                lemma_find_line_matches(rest, d, 0);
            }
        }
    }
}

/// Reads a single-line record `name=value\n`: the name runs up to the first
/// `=`, the value from there to the end of the line.
pub open spec fn parse_single_line(t: Seq<char>) -> Option<(Seq<char>, Seq<char>)> {
    if t.len() > 0 && t.last() == '\n' {
        let line = t.drop_last();
        let k = first_index_of(line, '=');
        if k < line.len() && !has_line_break(line) {
            Some((line.subrange(0, k), line.subrange(k + 1, line.len() as int)))
        } else {
            None
        }
    } else {
        None
    }
}

/// Reads a block record: the header line `name<<D`, then the value, then a
/// footer line equal to `D`. The value is what lies between the header line
/// and the footer line.
pub open spec fn parse_block(t: Seq<char>) -> Option<(Seq<char>, Seq<char>)> {
    if t.len() > 0 && t.last() == '\n' {
        let s = t.drop_last();
        let h = first_index_of(s, '\n');
        let f = last_index_of(s, '\n');
        let header = s.subrange(0, h);
        let k = first_index_of(header, '<');
        if h < f && k + 1 < header.len() && header[k + 1] == '<' && s.subrange(f + 1, s.len() as int)
            == header.subrange(k + 2, header.len() as int) {
            Some((header.subrange(0, k), s.subrange(h + 1, f)))
        } else {
            None
        }
    } else {
        None
    }
}

proof fn lemma_first_index_after(a: Seq<char>, c: char, b: Seq<char>)
    requires
        forall|i: int| 0 <= i < a.len() ==> a[i] != c,
    ensures
        first_index_of(a + seq![c] + b, c) == a.len(),
    decreases a.len(),
{
    let t = a + seq![c] + b;
    if a.len() == 0 {
        assert(t[0] == c);
    } else {
        assert(t[0] == a[0]);
        let a2 = a.drop_first();
        assert(t.drop_first() =~= a2 + seq![c] + b);
        assert forall|i: int| 0 <= i < a2.len() implies a2[i] != c by {
            assert(a2[i] == a[i + 1]);
        }
        lemma_first_index_after(a2, c, b);
    }
}

proof fn lemma_last_index_before(a: Seq<char>, c: char, b: Seq<char>)
    requires
        forall|i: int| 0 <= i < b.len() ==> b[i] != c,
    ensures
        last_index_of(a + seq![c] + b, c) == a.len(),
    decreases b.len(),
{
    let t = a + seq![c] + b;
    if b.len() == 0 {
        assert(t.last() == c);
    } else {
        assert(t.last() == b.last());
        let b2 = b.drop_last();
        assert(t.drop_last() =~= a + seq![c] + b2);
        assert forall|i: int| 0 <= i < b2.len() implies b2[i] != c by {
            assert(b2[i] == b[i]);
        }
        lemma_last_index_before(a, c, b2);
    }
}

/// A value without line breaks, written under a valid name, reads back as
/// that same name and value.
pub proof fn lemma_single_line_round_trip(name: Seq<char>, value: Seq<char>, delimiter: Seq<char>)
    requires
        valid_name(name),
        !has_line_break(value),
    ensures
        parse_single_line(record_form(name, value, delimiter)) == Some((name, value)),
{
    let t = single_line_form(name, value);
    let line = name + seq!['='] + value;
    assert(t.drop_last() =~= line);
    assert forall|i: int| 0 <= i < name.len() implies name[i] != '=' by {
        assert(is_name_char(name[i]));
    }
    lemma_first_index_after(name, '=', value);
    assert forall|i: int| 0 <= i < line.len() implies !is_line_break(#[trigger] line[i]) by {
        if i < name.len() {
            assert(line[i] == name[i]);
            assert(is_name_char(name[i]));
        } else if i > name.len() {
            assert(line[i] == value[i - name.len() - 1]);
        }
    }
    assert(line.subrange(0, name.len() as int) =~= name);
    assert(line.subrange(name.len() as int + 1, line.len() as int) =~= value);
}

/// A value with line breaks, written under a valid name and closed by a
/// delimiter, reads back as that same name and value, blank lines and
/// trailing line breaks included.
pub proof fn lemma_block_round_trip(name: Seq<char>, value: Seq<char>, delimiter: Seq<char>)
    requires
        valid_name(name),
        has_line_break(value),
        is_delimiter(delimiter),
    ensures
        parse_block(record_form(name, value, delimiter)) == Some((name, value)),
{
    let t = block_form(name, value, delimiter);
    let header = name + seq!['<', '<'] + delimiter;
    let s = t.drop_last();
    assert(s =~= header + seq!['\n'] + (value + seq!['\n'] + delimiter));
    assert(s =~= (header + seq!['\n'] + value) + seq!['\n'] + delimiter);
    assert forall|i: int| 0 <= i < header.len() implies header[i] != '\n' by {
        if i < name.len() {
            assert(header[i] == name[i]);
            assert(is_name_char(name[i]));
        } else if i >= name.len() + 2 {
            assert(header[i] == delimiter[i - name.len() - 2]);
            assert(!is_line_break(delimiter[i - name.len() - 2]));
        }
    }
    assert forall|i: int| 0 <= i < delimiter.len() implies delimiter[i] != '\n' by {
        assert(!is_line_break(delimiter[i]));
    }
    lemma_first_index_after(header, '\n', value + seq!['\n'] + delimiter);
    lemma_last_index_before(header + seq!['\n'] + value, '\n', delimiter);
    let h = header.len() as int;
    let f = h + 1 + value.len();
    assert(s.subrange(0, h) =~= header);
    assert(header =~= name + seq!['<'] + (seq!['<'] + delimiter));
    assert forall|i: int| 0 <= i < name.len() implies name[i] != '<' by {
        assert(is_name_char(name[i]));
    }
    lemma_first_index_after(name, '<', seq!['<'] + delimiter);
    assert(header.subrange(0, name.len() as int) =~= name);
    assert(header.subrange(name.len() as int + 2, header.len() as int) =~= delimiter);
    assert(s.subrange(f + 1, s.len() as int) =~= delimiter);
    assert(s.subrange(h + 1, f) =~= value);
}

proof fn lemma_find_footer(value: Seq<char>, d: Seq<char>, tail: Seq<char>, q: int)
    requires
        is_delimiter(d),
        no_line_is(value, d),
        0 <= q <= value.len() + 1,
    ensures
        find_line(value + seq!['\n'] + d + seq!['\n'] + tail, d, q) == value.len() + 1,
    decreases value.len() + 1 - q,
{
    let w = value + seq!['\n'];
    let s = w + d + seq!['\n'] + tail;
    let n = w.len() as int;
    if q == n {
        assert(s[n - 1] == '\n');
        assert(s.subrange(n, n + d.len()) =~= d);
        assert(s[n + d.len()] == '\n');
    } else {
        if line_matches_at(s, d, q) {
            if q + d.len() < n {
                assert(s.subrange(q, q + d.len()) =~= w.subrange(q, q + d.len()));
                assert(s[q + d.len()] == w[q + d.len()]);
                assert(q > 0 ==> s[q - 1] == w[q - 1]);
                assert(line_matches_at(w, d, q));
            } else {
                assert(s.subrange(q, q + d.len())[n - 1 - q] == s[n - 1]);
                assert(!is_line_break(d[n - 1 - q]));
            }
        }
        lemma_find_footer(value, d, tail, q + 1);
    }
}

/// Whether a record was written in the block form.
pub open spec fn is_block_record(r: RecordModel) -> bool {
    r.forced_block || has_line_break(r.value)
}

/// The records that a reader can recover: a valid name, a proper delimiter,
/// and, for a block, no line of the value equal to its delimiter (which a
/// freshly generated delimiter makes overwhelmingly likely).
pub open spec fn readable(r: RecordModel) -> bool {
    &&& valid_name(r.name)
    &&& is_delimiter(r.delimiter)
    &&& is_block_record(r) ==> no_line_is(r.value, r.delimiter)
}

proof fn lemma_read_one(r: RecordModel, tail: Seq<char>)
    requires
        readable(r),
    ensures
        parse_log(record_text(r) + tail) == match parse_log(tail) {
            Some(rs) => Some(seq![(r.name, r.value)] + rs),
            None => None,
        },
{
    let name = r.name;
    let value = r.value;
    let d = r.delimiter;
    assert forall|i: int| 0 <= i < name.len() implies name[i] != '\n' && name[i] != '='
        && name[i] != '<' by {
        assert(is_name_char(name[i]));
    }
    if is_block_record(r) {
        let header = name + seq!['<', '<'] + d;
        let rest = value + seq!['\n'] + d + seq!['\n'] + tail;
        let t = record_text(r) + tail;
        assert(record_text(r) == block_form(name, value, d));
        assert(t =~= header + (seq!['\n'] + rest));
        assert forall|i: int| 0 <= i < header.len() implies header[i] != '\n' by {
            if i >= name.len() + 2 {
                assert(header[i] == d[i - name.len() - 2]);
                assert(!is_line_break(d[i - name.len() - 2]));
            } else if i < name.len() {
                assert(header[i] == name[i]);
            }
        }
        lemma_first_index_skip(header, seq!['\n'] + rest, '\n');
        assert((seq!['\n'] + rest)[0] == '\n');
        let h = header.len() as int;
        assert(t.subrange(0, h) =~= header);
        assert(t.subrange(h + 1, t.len() as int) =~= rest);
        assert(header =~= name + (seq!['<', '<'] + d));
        lemma_first_index_skip(name, seq!['<', '<'] + d, '<');
        lemma_first_index_skip(name, seq!['<', '<'] + d, '=');
        assert((seq!['<', '<'] + d)[0] == '<');
        lemma_first_index_bounds(seq!['<', '<'] + d, '=');
        let m = name.len() as int;
        assert(first_index_of(header, '<') == m);
        assert(header[m + 1] == '<');
        assert(header.subrange(m + 2, h) =~= d);
        assert(header.subrange(0, m) =~= name);
        assert(first_index_of(header, '=') >= m);
        lemma_find_footer(value, d, tail, 0);
        let p = value.len() as int + 1;
        assert(rest.subrange(p + d.len() as int + 1, rest.len() as int) =~= tail);
        assert(rest.subrange(0, p - 1) =~= value);
    } else {
        let line = name + seq!['='] + value;
        let t = record_text(r) + tail;
        assert(record_text(r) == single_line_form(name, value));
        assert(t =~= line + (seq!['\n'] + tail));
        assert forall|i: int| 0 <= i < line.len() implies line[i] != '\n' by {
            if i > name.len() {
                assert(line[i] == value[i - name.len() - 1]);
                assert(!is_line_break(value[i - name.len() - 1]));
            } else if i < name.len() {
                assert(line[i] == name[i]);
            }
        }
        lemma_first_index_skip(line, seq!['\n'] + tail, '\n');
        assert((seq!['\n'] + tail)[0] == '\n');
        let h = line.len() as int;
        assert(t.subrange(0, h) =~= line);
        assert(t.subrange(h + 1, t.len() as int) =~= tail);
        assert(line =~= name + (seq!['='] + value));
        lemma_first_index_skip(name, seq!['='] + value, '=');
        lemma_first_index_skip(name, seq!['='] + value, '<');
        assert((seq!['='] + value)[0] == '=');
        let e = name.len() as int;
        assert(first_index_of(line, '=') == e);
        assert((seq!['='] + value)[0] != '<');
        assert((seq!['='] + value).drop_first() =~= value);
        lemma_first_index_bounds(value, '<');
        assert(first_index_of(line, '<') > e);
        assert(line.subrange(0, e) =~= name);
        assert(line.subrange(e + 1, h) =~= value);
    }
}

proof fn lemma_log_text_front(records: Seq<RecordModel>)
    requires
        records.len() > 0,
    ensures
        log_text(records) == record_text(records[0]) + log_text(records.drop_first()),
    decreases records.len(),
{
    if records.len() == 1 {
        assert(records.drop_last() =~= Seq::<RecordModel>::empty());
        assert(records.drop_first() =~= Seq::<RecordModel>::empty());
        assert(log_text(records) =~= record_text(records[0]) + log_text(records.drop_first()));
    } else {
        let init = records.drop_last();
        lemma_log_text_front(init);
        assert(init.drop_first() =~= records.drop_first().drop_last());
        assert(records.drop_first().last() == records.last());
        assert(log_text(records) =~= record_text(records[0]) + log_text(records.drop_first()));
    }
}

/// A log whose records are all readable reads back, from its first line to
/// its last, as exactly the names and values of its records, in the order
/// in which they were appended: no record is torn, merged or lost.
pub proof fn lemma_log_reads_back(records: Seq<RecordModel>)
    requires
        forall|i: int| 0 <= i < records.len() ==> readable(#[trigger] records[i]),
    ensures
        parse_log(log_text(records)) == Some(records.map_values(|r: RecordModel| (r.name, r.value))),
    decreases records.len(),
{
    if records.len() == 0 {
        assert(records.map_values(|r: RecordModel| (r.name, r.value)) =~= Seq::empty());
    } else {
        let rest = records.drop_first();
        assert forall|i: int| 0 <= i < rest.len() implies readable(#[trigger] rest[i]) by {
            assert(rest[i] == records[i + 1]);
        }
        lemma_log_reads_back(rest);
        lemma_log_text_front(records);
        assert(readable(records[0]));
        lemma_read_one(records[0], log_text(rest));
        assert(seq![(records[0].name, records[0].value)] + rest.map_values(
            |r: RecordModel| (r.name, r.value),
        ) =~= records.map_values(|r: RecordModel| (r.name, r.value)));
    }
}

} // verus!
