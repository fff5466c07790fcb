//! The sidecar: one line per slot, `<hexAddress>,<text>`, with the address
//! in uppercase hexadecimal and every line break of the text written as a
//! backslash followed by `n`.

use crate::error::Error;
use crate::record::{lemma_text_entries_push, text_entries, StringRecord, TextEntry};
use crate::text::{from_chars, to_chars};
use vstd::prelude::*;
use vstd::slice::slice_subrange;

verus! {

/// The digit for a value below sixteen.
pub open spec fn hex_digit(d: int) -> char {
    if d < 10 {
        (48 + d) as u8 as char
    } else {
        (55 + d) as u8 as char
    }
}

/// A number in uppercase hexadecimal, without prefix or leading zeros.
pub open spec fn hex_text(n: nat) -> Seq<char>
    decreases n,
{
    if n < 16 {
        seq![hex_digit(n as int)]
    } else {
        hex_text(n / 16).push(hex_digit((n % 16) as int))
    }
}

/// The value of a hexadecimal digit of either case.
pub open spec fn hex_digit_value(c: char) -> Option<int> {
    if '0' <= c <= '9' {
        Some(c as int - 48)
    } else if 'A' <= c <= 'F' {
        Some(c as int - 55)
    } else if 'a' <= c <= 'f' {
        Some(c as int - 87)
    } else {
        None
    }
}

/// Every character is a hexadecimal digit.
pub open spec fn all_hex(s: Seq<char>) -> bool {
    forall|i: int| 0 <= i < s.len() ==> hex_digit_value(#[trigger] s[i]) is Some
}

/// The number that a run of hexadecimal digits stands for.
pub open spec fn hex_number(s: Seq<char>) -> nat
    decreases s.len(),
{
    if s.len() == 0 {
        0
    } else {
        hex_number(s.drop_last()) * 16 + match hex_digit_value(s.last()) {
            Some(d) => d as nat,
            None => 0,
        }
    }
}

/// The address that `s` stands for: one or more hexadecimal digits of
/// either case, with a value that fits in 32 bits.
pub open spec fn spec_parse_address(s: Seq<char>) -> Option<u32> {
    if s.len() > 0 && all_hex(s) && hex_number(s) <= u32::MAX {
        Some(hex_number(s) as u32)
    } else {
        None
    }
}

/// The text with every line break written as a backslash followed by `n`.
pub open spec fn escaped(t: Seq<char>) -> Seq<char>
    decreases t.len(),
{
    if t.len() == 0 {
        Seq::empty()
    } else if t.last() == '\n' {
        escaped(t.drop_last()) + seq!['\\', 'n']
    } else {
        escaped(t.drop_last()).push(t.last())
    }
}

/// The text with every backslash followed by `n` read as a line break,
/// from left to right.
pub open spec fn unescaped(s: Seq<char>) -> Seq<char>
    decreases s.len(),
{
    if s.len() == 0 {
        Seq::empty()
    } else if s.len() >= 2 && s[0] == '\\' && s[1] == 'n' {
        seq!['\n'] + unescaped(s.subrange(2, s.len() as int))
    } else {
        seq![s[0]] + unescaped(s.subrange(1, s.len() as int))
    }
}

/// Number of characters before the first `c`, or the length where there is
/// none.
pub open spec fn position_of(s: Seq<char>, c: char) -> nat
    decreases s.len(),
{
    if s.len() == 0 || s[0] == c {
        0
    } else {
        1 + position_of(s.subrange(1, s.len() as int), c)
    }
}

/// `position_of` is the one place with no `c` before it and `c`, or the
/// end, at it.
pub proof fn lemma_position_of(s: Seq<char>, c: char, n: nat)
    requires
        n <= s.len(),
        forall|i: int| 0 <= i < n ==> s[i] != c,
        n == s.len() || s[n as int] == c,
    ensures
        position_of(s, c) == n,
    decreases s.len(),
{
    if n > 0 {
        let rest = s.subrange(1, s.len() as int);
        assert forall|i: int| 0 <= i < n - 1 implies rest[i] != c by {
            assert(rest[i] == s[i + 1]);
        }
        lemma_position_of(rest, c, (n - 1) as nat);
    }
}

/// The line of a record.
pub open spec fn record_line(e: TextEntry) -> Seq<char> {
    hex_text(e.address as nat) + seq![','] + escaped(e.text)
}

/// The sidecar of the records: their lines, each ended by a line break.
pub open spec fn sidecar_text(entries: Seq<TextEntry>) -> Seq<char>
    decreases entries.len(),
{
    if entries.len() == 0 {
        Seq::empty()
    } else {
        sidecar_text(entries.drop_last()) + record_line(entries.last()) + seq!['\n']
    }
}

/// The text ends in a carriage return.
pub open spec fn ends_in_cr(t: Seq<char>) -> bool {
    t.len() > 0 && t.last() == '\r'
}

/// A line without the carriage return that may end it.
pub open spec fn without_cr(line: Seq<char>) -> Seq<char> {
    if ends_in_cr(line) {
        line.drop_last()
    } else {
        line
    }
}

/// The lines of a text. A line ends at a line break, which is not part of
/// it, nor is a carriage return just before the break. What follows the last
/// break is a line too, unless it is empty.
pub open spec fn lines_of(s: Seq<char>) -> Seq<Seq<char>>
    decreases s.len(),
{
    if s.len() == 0 {
        Seq::empty()
    } else {
        let n = position_of(s, '\n');
        if n >= s.len() {
            seq![s]
        } else {
            seq![without_cr(s.subrange(0, n as int))] + lines_of(
                s.subrange(n as int + 1, s.len() as int),
            )
        }
    }
}

/// The record that line number `index` stands for: the address before the
/// first comma, the text after it. An error where there is no comma, or no
/// address before it.
pub open spec fn spec_parse_line(line: Seq<char>, index: usize) -> Result<TextEntry, Error> {
    let c = position_of(line, ',');
    if c >= line.len() {
        Err(Error::MissingSeparator { line: index })
    } else {
        match spec_parse_address(line.subrange(0, c as int)) {
            None => Err(Error::BadAddress { line: index }),
            Some(address) => Ok(
                TextEntry { address, text: unescaped(line.subrange(c as int + 1, line.len() as int)) },
            ),
        }
    }
}

/// The records of the lines, or the error of the first line that is not a
/// record.
pub open spec fn parsed_lines(lines: Seq<Seq<char>>) -> Result<Seq<TextEntry>, Error>
    decreases lines.len(),
{
    if lines.len() == 0 {
        Ok(Seq::empty())
    } else {
        match parsed_lines(lines.drop_last()) {
            Err(e) => Err(e),
            Ok(done) => match spec_parse_line(lines.last(), (lines.len() - 1) as usize) {
                Err(e) => Err(e),
                Ok(entry) => Ok(done.push(entry)),
            },
        }
    }
}

/// The records of a sidecar, in the order of its lines.
pub open spec fn spec_parse_sidecar(text: Seq<char>) -> Result<Seq<TextEntry>, Error> {
    parsed_lines(lines_of(text))
}

fn hex_digit_of(d: u8) -> (c: char)
    requires
        d < 16,
    ensures
        c == hex_digit(d as int),
{
    if d < 10 {
        (48 + d) as char
    } else {
        (55 + d) as char
    }
}

fn push_hex(out: &mut Vec<char>, n: u32)
    ensures
        final(out)@ == old(out)@ + hex_text(n as nat),
    decreases n,
{
    if n >= 16 {
        push_hex(out, n / 16);
    }
    out.push(hex_digit_of((n % 16) as u8));
    assert(out@ =~= old(out)@ + hex_text(n as nat));
}

fn digit_value_of(c: char) -> (r: Option<u8>)
    ensures
        match r {
            Some(d) => hex_digit_value(c) == Some(d as int) && d < 16,
            None => hex_digit_value(c) is None,
        },
{
    if '0' <= c && c <= '9' {
        Some((c as u32 - 48) as u8)
    } else if 'A' <= c && c <= 'F' {
        Some((c as u32 - 55) as u8)
    } else if 'a' <= c && c <= 'f' {
        Some((c as u32 - 87) as u8)
    } else {
        None
    }
}

/// The digits read so far never stand for more than all of them.
proof fn lemma_hex_number_grows(s: Seq<char>, n: int)
    requires
        0 <= n <= s.len(),
    ensures
        hex_number(s.subrange(0, n)) <= hex_number(s),
    decreases s.len() - n,
{
    if n < s.len() {
        assert(s.subrange(0, n + 1).drop_last() =~= s.subrange(0, n));
        lemma_hex_number_grows(s, n + 1);
    } else {
        assert(s.subrange(0, n) =~= s);
    }
}

fn parse_address_chars(s: &[char]) -> (r: Option<u32>)
    ensures
        r == spec_parse_address(s@),
{
    if s.len() == 0 {
        return None;
    }
    let mut acc: u64 = 0;
    let mut i: usize = 0;
    while i < s.len()
        invariant
            i <= s@.len(),
            all_hex(s@.subrange(0, i as int)),
            acc == hex_number(s@.subrange(0, i as int)),
            acc <= u32::MAX,
        decreases s@.len() - i,
    {
        let ghost upto = s@.subrange(0, i as int);
        let ghost next = s@.subrange(0, i + 1);
        proof {
            assert(next.drop_last() =~= upto);
            assert(next.last() == s@[i as int]);
        }
        match digit_value_of(s[i]) {
            None => {
                return None;
            },
            Some(d) => {
                acc = acc * 16 + d as u64;
                assert forall|j: int| 0 <= j < next.len() implies hex_digit_value(
                    #[trigger] next[j],
                ) is Some by {
                    if j < i {
                        assert(upto[j] == next[j]);
                    }
                }
                if acc > 0xFFFF_FFFF {
                    proof {
                        lemma_hex_number_grows(s@, i + 1);
                    }
                    return None;
                }
            },
        }
        i += 1;
    }
    assert(s@.subrange(0, i as int) =~= s@);
    Some(acc as u32)
}

fn find_char(s: &[char], c: char) -> (r: usize)
    ensures
        r == position_of(s@, c),
        r <= s@.len(),
{
    let mut i: usize = 0;
    while i < s.len() && s[i] != c
        invariant
            i <= s@.len(),
            forall|j: int| 0 <= j < i ==> s@[j] != c,
        decreases s@.len() - i,
    {
        i += 1;
    }
    proof {
        lemma_position_of(s@, c, i as nat);
    }
    i
}

fn escape_chars(t: &[char]) -> (r: Vec<char>)
    ensures
        r@ == escaped(t@),
{
    let mut out: Vec<char> = Vec::new();
    let mut i: usize = 0;
    while i < t.len()
        invariant
            i <= t@.len(),
            out@ == escaped(t@.subrange(0, i as int)),
        decreases t@.len() - i,
    {
        proof {
            assert(t@.subrange(0, i + 1).drop_last() =~= t@.subrange(0, i as int));
        }
        let ghost was = out@;
        if t[i] == '\n' {
            out.push('\\');
            out.push('n');
            assert(out@ =~= was + seq!['\\', 'n']);
        } else {
            out.push(t[i]);
        }
        i += 1;
    }
    assert(t@.subrange(0, i as int) =~= t@);
    out
}

fn unescape_chars(s: &[char]) -> (r: Vec<char>)
    ensures
        r@ == unescaped(s@),
{
    let mut out: Vec<char> = Vec::new();
    let mut i: usize = 0;
    assert(s@.subrange(0, s@.len() as int) =~= s@);
    while i < s.len()
        invariant
            i <= s@.len(),
            out@ + unescaped(s@.subrange(i as int, s@.len() as int)) == unescaped(s@),
        decreases s@.len() - i,
    {
        let ghost rest = s@.subrange(i as int, s@.len() as int);
        let ghost was = out@;
        if s[i] == '\\' && i + 1 < s.len() && s[i + 1] == 'n' {
            proof {
                assert(rest[0] == '\\' && rest[1] == 'n');
                assert(rest.subrange(2, rest.len() as int) =~= s@.subrange(i + 2, s@.len() as int));
            }
            out.push('\n');
            proof {
                assert(out@ + unescaped(s@.subrange(i + 2, s@.len() as int)) =~= was + unescaped(
                    rest,
                ));
            }
            i += 2;
        } else {
            proof {
                assert(rest[0] == s@[i as int]);
                if rest.len() >= 2 {
                    assert(rest[1] == s@[i + 1]);
                }
                assert(rest.subrange(1, rest.len() as int) =~= s@.subrange(i + 1, s@.len() as int));
            }
            out.push(s[i]);
            proof {
                assert(out@ + unescaped(s@.subrange(i + 1, s@.len() as int)) =~= was + unescaped(
                    rest,
                ));
            }
            i += 1;
        }
    }
    assert(unescaped(s@.subrange(i as int, s@.len() as int)) =~= Seq::<char>::empty());
    assert(out@ + Seq::<char>::empty() =~= out@);
    out
}

fn copy_chars(s: &[char]) -> (r: Vec<char>)
    ensures
        r@ == s@,
{
    let mut out: Vec<char> = Vec::new();
    let mut i: usize = 0;
    while i < s.len()
        invariant
            i <= s@.len(),
            out@ == s@.subrange(0, i as int),
        decreases s@.len() - i,
    {
        out.push(s[i]);
        assert(s@.subrange(0, i as int).push(s@[i as int]) =~= s@.subrange(0, i + 1));
        i += 1;
    }
    assert(s@.subrange(0, i as int) =~= s@);
    out
}

fn split_lines(s: &[char]) -> (r: Vec<Vec<char>>)
    ensures
        r@.len() == lines_of(s@).len(),
        forall|k: int| 0 <= k < r@.len() ==> (#[trigger] r@[k])@ == lines_of(s@)[k],
{
    let mut out: Vec<Vec<char>> = Vec::new();
    let ghost mut done: Seq<Seq<char>> = Seq::empty();
    let mut p: usize = 0;
    assert(s@.subrange(0, s@.len() as int) =~= s@);
    while p < s.len()
        invariant
            p <= s@.len(),
            done + lines_of(s@.subrange(p as int, s@.len() as int)) == lines_of(s@),
            out@.len() == done.len(),
            forall|k: int| 0 <= k < out@.len() ==> (#[trigger] out@[k])@ == done[k],
        decreases s@.len() - p,
    {
        let rest = slice_subrange(s, p, s.len());
        let n = find_char(rest, '\n');
        if n >= rest.len() {
            let line = copy_chars(rest);
            proof {
                assert(lines_of(rest@) =~= seq![rest@]);
                assert(lines_of(s@.subrange(s@.len() as int, s@.len() as int)) =~= Seq::<
                    Seq<char>,
                >::empty());
                done = done.push(rest@);
                assert(done =~= lines_of(s@));
                assert(done + Seq::<Seq<char>>::empty() =~= done);
            }
            out.push(line);
            p = s.len();
        } else {
            let stop = if n > 0 && rest[n - 1] == '\r' {
                n - 1
            } else {
                n
            };
            let line = copy_chars(slice_subrange(rest, 0, stop));
            proof {
                let whole = rest@.subrange(0, n as int);
                assert(line@ =~= without_cr(whole));
                assert(rest@.subrange(n + 1, rest@.len() as int) =~= s@.subrange(
                    p + n + 1,
                    s@.len() as int,
                ));
                let was = done;
                done = done.push(line@);
                assert(done + lines_of(s@.subrange(p + n + 1, s@.len() as int)) =~= was + lines_of(
                    rest@,
                ));
            }
            out.push(line);
            p = p + n + 1;
        }
    }
    proof {
        assert(lines_of(s@.subrange(p as int, s@.len() as int)) =~= Seq::<Seq<char>>::empty());
        assert(done + Seq::<Seq<char>>::empty() =~= done);
    }
    out
}

fn parse_line_chars(line: &[char], index: usize) -> (r: Result<StringRecord, Error>)
    ensures
        match r {
            Ok(rec) => spec_parse_line(line@, index) == Ok::<TextEntry, Error>(rec@),
            Err(e) => spec_parse_line(line@, index) == Err::<TextEntry, Error>(e),
        },
{
    let c = find_char(line, ',');
    if c >= line.len() {
        return Err(Error::MissingSeparator { line: index });
    }
    match parse_address_chars(slice_subrange(line, 0, c)) {
        None => Err(Error::BadAddress { line: index }),
        Some(address) => {
            let text = unescape_chars(slice_subrange(line, c + 1, line.len()));
            Ok(StringRecord { address, text: from_chars(text.as_slice()) })
        },
    }
}

/// The first `n` lines failing means all the lines fail, with that error.
proof fn lemma_parsed_lines_error_stays(lines: Seq<Seq<char>>, n: int)
    requires
        0 <= n <= lines.len(),
        parsed_lines(lines.subrange(0, n)) is Err,
    ensures
        parsed_lines(lines) == parsed_lines(lines.subrange(0, n)),
    decreases lines.len() - n,
{
    if n < lines.len() {
        assert(lines.subrange(0, n + 1).drop_last() =~= lines.subrange(0, n));
        lemma_parsed_lines_error_stays(lines, n + 1);
    } else {
        assert(lines.subrange(0, n) =~= lines);
    }
}

/// An address in uppercase hexadecimal, as the sidecar has it.
pub fn format_address(address: u32) -> (r: String)
    ensures
        r@ == hex_text(address as nat),
{
    let mut out: Vec<char> = Vec::new();
    push_hex(&mut out, address);
    assert(Seq::<char>::empty() + hex_text(address as nat) =~= hex_text(address as nat));
    from_chars(out.as_slice())
}

/// Reads an address of the sidecar.
pub fn parse_address(text: &str) -> (r: Option<u32>)
    ensures
        r == spec_parse_address(text@),
{
    let chars = to_chars(text);
    parse_address_chars(chars.as_slice())
}

/// Writes every line break as a backslash followed by `n`.
pub fn escape_line_breaks(text: &str) -> (r: String)
    ensures
        r@ == escaped(text@),
{
    let chars = to_chars(text);
    let out = escape_chars(chars.as_slice());
    from_chars(out.as_slice())
}

/// Reads every backslash followed by `n` as a line break.
pub fn unescape_line_breaks(text: &str) -> (r: String)
    ensures
        r@ == unescaped(text@),
{
    let chars = to_chars(text);
    let out = unescape_chars(chars.as_slice());
    from_chars(out.as_slice())
}

/// The sidecar line of a record, without the line break that ends it.
pub fn format_record(record: &StringRecord) -> (r: String)
    ensures
        r@ == record_line(record@),
{
    let mut out: Vec<char> = Vec::new();
    push_hex(&mut out, record.address);
    out.push(',');
    let chars = to_chars(record.text.as_str());
    let mut text = escape_chars(chars.as_slice());
    out.append(&mut text);
    assert(out@ =~= record_line(record@));
    from_chars(out.as_slice())
}

/// Reads line number `index` of a sidecar.
pub fn parse_record(line: &str, index: usize) -> (r: Result<StringRecord, Error>)
    ensures
        match r {
            Ok(rec) => spec_parse_line(line@, index) == Ok::<TextEntry, Error>(rec@),
            Err(e) => spec_parse_line(line@, index) == Err::<TextEntry, Error>(e),
        },
{
    let chars = to_chars(line);
    parse_line_chars(chars.as_slice(), index)
}

/// The sidecar of the records: one line each, in their order.
pub fn serialize(records: &Vec<StringRecord>) -> (r: String)
    ensures
        r@ == sidecar_text(text_entries(records@)),
{
    let mut out: Vec<char> = Vec::new();
    let mut i: usize = 0;
    assert(text_entries(records@.subrange(0, 0)) =~= Seq::<TextEntry>::empty());
    while i < records.len()
        invariant
            i <= records@.len(),
            out@ == sidecar_text(text_entries(records@.subrange(0, i as int))),
        decreases records@.len() - i,
    {
        let ghost upto = text_entries(records@.subrange(0, i as int));
        let ghost next = text_entries(records@.subrange(0, i + 1));
        proof {
            assert(next.drop_last() =~= upto);
            assert(next.last() == records@[i as int]@);
        }
        let ghost was = out@;
        push_hex(&mut out, records[i].address);
        out.push(',');
        let chars = to_chars(records[i].text.as_str());
        let mut text = escape_chars(chars.as_slice());
        out.append(&mut text);
        out.push('\n');
        assert(out@ =~= was + record_line(records@[i as int]@) + seq!['\n']);
        i += 1;
    }
    assert(records@.subrange(0, i as int) =~= records@);
    from_chars(out.as_slice())
}

/// Reads a sidecar: the records of its lines in order, or the error of the
/// first line that is not a record.
pub fn parse_sidecar(text: &str) -> (r: Result<Vec<StringRecord>, Error>)
    ensures
        match r {
            Ok(v) => spec_parse_sidecar(text@) == Ok::<Seq<TextEntry>, Error>(text_entries(v@)),
            Err(e) => spec_parse_sidecar(text@) == Err::<Seq<TextEntry>, Error>(e),
        },
{
    let chars = to_chars(text);
    let lines = split_lines(chars.as_slice());
    let ghost all = lines_of(text@);
    let mut out: Vec<StringRecord> = Vec::new();
    let mut i: usize = 0;
    assert(text_entries(out@) =~= Seq::<TextEntry>::empty());
    while i < lines.len()
        invariant
            all == lines_of(text@),
            lines@.len() == all.len(),
            forall|k: int| 0 <= k < lines@.len() ==> (#[trigger] lines@[k])@ == all[k],
            i <= lines@.len(),
            parsed_lines(all.subrange(0, i as int)) == Ok::<Seq<TextEntry>, Error>(
                text_entries(out@),
            ),
        decreases lines@.len() - i,
    {
        proof {
            assert(all.subrange(0, i + 1).drop_last() =~= all.subrange(0, i as int));
            assert(all.subrange(0, i + 1).last() == all[i as int]);
        }
        match parse_line_chars(lines[i].as_slice(), i) {
            Err(e) => {
                proof {
                    lemma_parsed_lines_error_stays(all, i + 1);
                }
                return Err(e);
            },
            Ok(rec) => {
                proof {
                    lemma_text_entries_push(out@, rec);
                }
                out.push(rec);
            },
        }
        i += 1;
    }
    assert(all.subrange(0, i as int) =~= all);
    Ok(out)
}

/// The text holds no backslash followed by `n`.
pub open spec fn free_of_escapes(t: Seq<char>) -> bool {
    forall|i: int| 0 <= i && i + 1 < t.len() ==> !(#[trigger] t[i] == '\\' && t[i + 1] == 'n')
}

/// A text that the sidecar gives back as it was: it has no backslash
/// followed by `n`, which would be read as a line break, and does not end in
/// a carriage return, which would be taken for part of the line's end.
pub open spec fn sidecar_safe(t: Seq<char>) -> bool {
    free_of_escapes(t) && !ends_in_cr(t)
}

/// Whether the text is one that the sidecar gives back as it was.
pub fn is_sidecar_safe(text: &str) -> (r: bool)
    ensures
        r == sidecar_safe(text@),
{
    let chars = to_chars(text);
    let n = chars.len();
    if n == 0 {
        return true;
    }
    if chars[n - 1] == '\r' {
        return false;
    }
    let mut i: usize = 0;
    while i < n - 1
        invariant
            0 < n == chars@.len(),
            i <= n - 1,
            chars@ == text@,
            forall|j: int| 0 <= j < i ==> !(#[trigger] chars@[j] == '\\' && chars@[j + 1] == 'n'),
        decreases n - i,
    {
        if chars[i] == '\\' && chars[i + 1] == 'n' {
            return false;
        }
        i += 1;
    }
    true
}

/// Escaping goes character by character from the front as well.
pub proof fn lemma_escaped_front(c: char, t: Seq<char>)
    ensures
        escaped(seq![c] + t) == if c == '\n' {
            seq!['\\', 'n'] + escaped(t)
        } else {
            seq![c] + escaped(t)
        },
    decreases t.len(),
{
    let whole = seq![c] + t;
    if t.len() == 0 {
        assert(whole.drop_last() =~= Seq::<char>::empty());
        assert(whole.last() == c);
        assert(escaped(whole.drop_last()) =~= Seq::<char>::empty());
        if c == '\n' {
            assert(escaped(whole) =~= seq!['\\', 'n'] + escaped(t));
        } else {
            assert(escaped(whole) =~= seq![c] + escaped(t));
        }
    } else {
        lemma_escaped_front(c, t.drop_last());
        assert(whole.drop_last() =~= seq![c] + t.drop_last());
        assert(whole.last() == t.last());
        if c == '\n' {
            assert(escaped(whole) =~= seq!['\\', 'n'] + escaped(t));
        } else {
            assert(escaped(whole) =~= seq![c] + escaped(t));
        }
    }
}

/// An escaped text holds no line break, and ends in a carriage return only
/// where the text does.
pub proof fn lemma_escaped_has_no_line_break(t: Seq<char>)
    ensures
        forall|i: int| 0 <= i < escaped(t).len() ==> escaped(t)[i] != '\n',
        ends_in_cr(escaped(t)) == ends_in_cr(t),
    decreases t.len(),
{
    if t.len() > 0 {
        lemma_escaped_has_no_line_break(t.drop_last());
    }
}

/// Reading an escaped text gives the text back, if it holds no backslash
/// followed by `n`.
pub proof fn lemma_unescaped_escaped(t: Seq<char>)
    requires
        free_of_escapes(t),
    ensures
        unescaped(escaped(t)) == t,
    decreases t.len(),
{
    if t.len() == 0 {
        assert(unescaped(escaped(t)) =~= t);
    } else {
        let c = t[0];
        let rest = t.subrange(1, t.len() as int);
        assert(t =~= seq![c] + rest);
        assert forall|i: int| 0 <= i && i + 1 < rest.len() implies !(#[trigger] rest[i] == '\\'
            && rest[i + 1] == 'n') by {
            assert(rest[i] == t[i + 1] && rest[i + 1] == t[i + 2]);
            assert(!(t[i + 1] == '\\' && t[i + 2] == 'n'));
        }
        lemma_unescaped_escaped(rest);
        lemma_escaped_front(c, rest);
        let e = escaped(t);
        if c == '\n' {
            assert(e =~= seq!['\\', 'n'] + escaped(rest));
            assert(e[0] == '\\' && e[1] == 'n');
            assert(e.subrange(2, e.len() as int) =~= escaped(rest));
            assert(unescaped(e) =~= seq!['\n'] + rest);
        } else {
            assert(e =~= seq![c] + escaped(rest));
            assert(e[0] == c);
            if e.len() >= 2 && c == '\\' {
                let d = rest[0];
                let tail = rest.subrange(1, rest.len() as int);
                assert(rest =~= seq![d] + tail);
                lemma_escaped_front(d, tail);
                assert(e[1] == escaped(rest)[0]);
                assert(!(t[0] == '\\' && t[1] == 'n'));
                assert(d == t[1]);
                assert(e[1] != 'n');
            }
            assert(e.subrange(1, e.len() as int) =~= escaped(rest));
            assert(unescaped(e) =~= seq![c] + rest);
        }
    }
}

/// A digit stands for the value it was made from, and is neither a comma
/// nor a line break.
pub proof fn lemma_hex_digit(d: int)
    requires
        0 <= d < 16,
    ensures
        hex_digit_value(hex_digit(d)) == Some(d),
        hex_digit(d) != ',',
        hex_digit(d) != '\n',
{
}

/// An address as it is written is read back as itself. It is made of
/// digits only.
pub proof fn lemma_hex_text(n: nat)
    ensures
        hex_text(n).len() > 0,
        all_hex(hex_text(n)),
        hex_number(hex_text(n)) == n,
        forall|i: int| 0 <= i < hex_text(n).len() ==> hex_text(n)[i] != ',' && hex_text(n)[i] != '\n',
    decreases n,
{
    if n < 16 {
        lemma_hex_digit(n as int);
        let s = hex_text(n);
        assert(s.drop_last() =~= Seq::<char>::empty());
        assert(hex_number(s.drop_last()) == 0);
    } else {
        lemma_hex_text(n / 16);
        lemma_hex_digit((n % 16) as int);
        let head = hex_text(n / 16);
        let s = hex_text(n);
        assert(s.drop_last() =~= head);
        assert(s.last() == hex_digit((n % 16) as int));
        assert forall|i: int| 0 <= i < s.len() implies hex_digit_value(#[trigger] s[i]) is Some
            && s[i] != ',' && s[i] != '\n' by {
            if i < head.len() {
                assert(s[i] == head[i]);
            }
        }
    }
}

/// The line of a record is read back as the record, if its text holds no
/// backslash followed by `n`.
pub proof fn lemma_parse_record_line(e: TextEntry, index: usize)
    requires
        free_of_escapes(e.text),
    ensures
        spec_parse_line(record_line(e), index) == Ok::<TextEntry, Error>(e),
{
    let hex = hex_text(e.address as nat);
    let line = record_line(e);
    lemma_hex_text(e.address as nat);
    assert forall|i: int| 0 <= i < hex.len() implies line[i] != ',' by {
        assert(line[i] == hex[i]);
    }
    assert(line[hex.len() as int] == ',');
    lemma_position_of(line, ',', hex.len());
    assert(line.subrange(0, hex.len() as int) =~= hex);
    assert(line.subrange(hex.len() as int + 1, line.len() as int) =~= escaped(e.text));
    lemma_unescaped_escaped(e.text);
}

/// The lines of the records, one for each.
pub open spec fn record_lines(entries: Seq<TextEntry>) -> Seq<Seq<char>> {
    Seq::new(entries.len(), |k: int| record_line(entries[k]))
}

/// The sidecar of the records is the line of the first, a line break, and
/// the sidecar of the others.
pub proof fn lemma_sidecar_text_front(entries: Seq<TextEntry>)
    requires
        entries.len() > 0,
    ensures
        sidecar_text(entries) == record_line(entries[0]) + seq!['\n'] + sidecar_text(
            entries.subrange(1, entries.len() as int),
        ),
    decreases entries.len(),
{
    let rest = entries.subrange(1, entries.len() as int);
    if entries.len() == 1 {
        assert(entries.drop_last() =~= Seq::<TextEntry>::empty());
        assert(rest =~= Seq::<TextEntry>::empty());
        assert(sidecar_text(entries) =~= record_line(entries[0]) + seq!['\n'] + sidecar_text(rest));
    } else {
        let head = entries.drop_last();
        lemma_sidecar_text_front(head);
        assert(head.subrange(1, head.len() as int) =~= rest.drop_last());
        assert(rest.last() == entries.last());
        assert(head[0] == entries[0]);
        assert(sidecar_text(entries) =~= record_line(entries[0]) + seq!['\n'] + sidecar_text(rest));
    }
}

/// The lines of a sidecar are the lines of its records, if no text ends in a
/// carriage return.
pub proof fn lemma_lines_of_sidecar_text(entries: Seq<TextEntry>)
    requires
        forall|k: int| 0 <= k < entries.len() ==> !ends_in_cr((#[trigger] entries[k]).text),
    ensures
        lines_of(sidecar_text(entries)) == record_lines(entries),
    decreases entries.len(),
{
    if entries.len() == 0 {
        assert(lines_of(sidecar_text(entries)) =~= record_lines(entries));
    } else {
        let rest = entries.subrange(1, entries.len() as int);
        let e = entries[0];
        let line = record_line(e);
        let text = sidecar_text(entries);
        lemma_sidecar_text_front(entries);
        assert forall|k: int| 0 <= k < rest.len() implies !ends_in_cr((#[trigger] rest[k]).text) by {
            assert(rest[k] == entries[k + 1]);
        }
        lemma_lines_of_sidecar_text(rest);
        let hex = hex_text(e.address as nat);
        lemma_hex_text(e.address as nat);
        lemma_escaped_has_no_line_break(e.text);
        assert forall|i: int| 0 <= i < line.len() implies text[i] != '\n' by {
            assert(text[i] == line[i]);
            if i < hex.len() {
                assert(line[i] == hex[i]);
            } else if i == hex.len() {
            } else {
                assert(line[i] == escaped(e.text)[i - hex.len() - 1]);
            }
        }
        assert(text[line.len() as int] == '\n');
        lemma_position_of(text, '\n', line.len());
        assert(text.subrange(0, line.len() as int) =~= line);
        assert(text.subrange(line.len() as int + 1, text.len() as int) =~= sidecar_text(rest));
        if escaped(e.text).len() > 0 {
            assert(line.last() == escaped(e.text).last());
        } else {
            assert(line.last() == ',');
        }
        assert(!ends_in_cr(line));
        assert(lines_of(text) =~= seq![line] + record_lines(rest));
        assert forall|k: int| 0 <= k < entries.len() implies (seq![line] + record_lines(rest))[k]
            == record_lines(entries)[k] by {
            if k > 0 {
                assert(rest[k - 1] == entries[k]);
            }
        }
        assert(seq![line] + record_lines(rest) =~= record_lines(entries));
    }
}

/// The lines of the records are read back as the records, if no text holds
/// a backslash followed by `n`.
pub proof fn lemma_parsed_record_lines(entries: Seq<TextEntry>)
    requires
        forall|k: int| 0 <= k < entries.len() ==> free_of_escapes((#[trigger] entries[k]).text),
    ensures
        parsed_lines(record_lines(entries)) == Ok::<Seq<TextEntry>, Error>(entries),
    decreases entries.len(),
{
    let lines = record_lines(entries);
    if entries.len() == 0 {
        assert(entries =~= Seq::<TextEntry>::empty());
    } else {
        let head = entries.drop_last();
        let last = entries.last();
        assert forall|k: int| 0 <= k < head.len() implies free_of_escapes((#[trigger] head[k]).text) by {
            assert(head[k] == entries[k]);
        }
        lemma_parsed_record_lines(head);
        assert(lines.drop_last() =~= record_lines(head));
        assert(lines.last() == record_line(last));
        assert(entries[entries.len() - 1] == last);
        lemma_parse_record_line(last, (lines.len() - 1) as usize);
        assert(head.push(last) =~= entries);
    }
}

/// A sidecar that is written and read back gives the records it was written
/// from, if every text is one that the sidecar gives back as it was.
pub proof fn lemma_sidecar_round_trip(entries: Seq<TextEntry>)
    requires
        forall|k: int| 0 <= k < entries.len() ==> sidecar_safe((#[trigger] entries[k]).text),
    ensures
        spec_parse_sidecar(sidecar_text(entries)) == Ok::<Seq<TextEntry>, Error>(entries),
{
    lemma_lines_of_sidecar_text(entries);
    lemma_parsed_record_lines(entries);
}

} // verus!
