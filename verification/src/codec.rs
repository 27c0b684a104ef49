//! The result codec: a JSON rendering of the final result, written and read
//! by this library, with a proof that reading back what was written yields
//! the same result (and so re-serializing yields the same bytes).
//!
//! The document has a fixed shape: `{"metadata":{"started":"TS","ended":
//! "TS"},"tasks":{"0":{"stdout":"S"},...}}`, where each `TS` is an
//! RFC3339-style UTC timestamp with nanosecond precision and each task key
//! is the task's id; ids are dense `0..N` in order, matching the registry.

use crate::multiplexer::MultiplexerResult;
use crate::multiplexer::MultiplexerResultDataTask;
use crate::multiplexer::MultiplexerResultMetadata;
use crate::multiplexer::Timestamp;
use crate::text::all_digits;
use crate::text::char_to_digit;
use crate::text::dec_digits;
use crate::text::dec_value;
use crate::text::digit_char;
use crate::text::digit_val;
use crate::text::is_digit;
use crate::text::pad_digits;
use crate::text::pow10;
use crate::text::u64_to_padded_string;
use crate::text::u64_to_string;
use vstd::prelude::*;

verus! {

/// The lowercase hex digit for a value below sixteen.
pub open spec fn hex_char(d: nat) -> char {
    if d < 10 {
        digit_char(d)
    } else {
        ((('a' as u8) + ((d - 10) as u8)) as char)
    }
}

/// The numeric value of a lowercase hex digit.
pub open spec fn hex_val(c: char) -> int {
    if is_digit(c) {
        digit_val(c)
    } else {
        c as int - 'a' as int + 10
    }
}

/// A lowercase hex digit.
pub open spec fn is_hex(c: char) -> bool {
    is_digit(c) || ('a' <= c <= 'f')
}

fn hex_to_char(d: u32) -> (c: char)
    requires
        d < 16,
    ensures
        c == hex_char(d as nat),
{
    match d {
        0 => '0',
        1 => '1',
        2 => '2',
        3 => '3',
        4 => '4',
        5 => '5',
        6 => '6',
        7 => '7',
        8 => '8',
        9 => '9',
        10 => 'a',
        11 => 'b',
        12 => 'c',
        13 => 'd',
        14 => 'e',
        _ => 'f',
    }
}

fn char_to_hex(c: char) -> (d: Option<u32>)
    ensures
        d is Some <==> is_hex(c),
        d is Some ==> d->0 == hex_val(c) && d->0 < 16,
{
    match c {
        '0' => Some(0),
        '1' => Some(1),
        '2' => Some(2),
        '3' => Some(3),
        '4' => Some(4),
        '5' => Some(5),
        '6' => Some(6),
        '7' => Some(7),
        '8' => Some(8),
        '9' => Some(9),
        'a' => Some(10),
        'b' => Some(11),
        'c' => Some(12),
        'd' => Some(13),
        'e' => Some(14),
        'f' => Some(15),
        _ => None,
    }
}

/// How one character is written inside a JSON string: the quote, the
/// backslash and the common control characters get two-character escapes,
/// any other control character a `\u00XX` escape, everything else stands
/// as itself.
pub open spec fn esc_char(c: char) -> Seq<char> {
    if c == '"' {
        seq!['\\', '"']
    } else if c == '\\' {
        seq!['\\', '\\']
    } else if c == '\n' {
        seq!['\\', 'n']
    } else if c == '\r' {
        seq!['\\', 'r']
    } else if c == '\t' {
        seq!['\\', 't']
    } else if (c as u32) < 0x20 {
        seq!['\\', 'u', '0', '0', hex_char((c as nat) / 16), hex_char((c as nat) % 16)]
    } else {
        seq![c]
    }
}

/// A whole string, escaped.
pub open spec fn esc_str(s: Seq<char>) -> Seq<char>
    decreases s.len(),
{
    if s.len() == 0 {
        Seq::empty()
    } else {
        esc_str(s.drop_last()) + esc_char(s.last())
    }
}

/// Appends the escaped form of `s` to `out`.
fn escape_into(out: &mut String, s: &str)
    ensures
        final(out)@ == old(out)@ + esc_str(s@),
{
    let n = s.unicode_len();
    let mut i: usize = 0;
    proof {
        assert(old(out)@ + esc_str(s@.take(0)) =~= old(out)@);
    }
    while i < n
        invariant
            i <= n,
            n == s@.len(),
            out@ == old(out)@ + esc_str(s@.take(i as int)),
        decreases n - i,
    {
        let c = s.get_char(i);
        proof {
            assert(s@.take(i as int + 1).drop_last() =~= s@.take(i as int));
            assert(s@.take(i as int + 1).last() == s@[i as int]);
        }
        let ghost prev = out@;
        if c == '"' {
            out.push('\\');
            out.push('"');
        } else if c == '\\' {
            out.push('\\');
            out.push('\\');
        } else if c == '\n' {
            out.push('\\');
            out.push('n');
        } else if c == '\r' {
            out.push('\\');
            out.push('r');
        } else if c == '\t' {
            out.push('\\');
            out.push('t');
        } else if (c as u32) < 0x20 {
            let code = c as u32;
            out.push('\\');
            out.push('u');
            out.push('0');
            out.push('0');
            out.push(hex_to_char(code / 16));
            out.push(hex_to_char(code % 16));
        } else {
            out.push(c);
        }
        proof {
            assert(out@ =~= prev + esc_char(s@[i as int]));
            assert(out@ =~= old(out)@ + esc_str(s@.take(i as int + 1)));
        }
        i += 1;
    }
    proof {
        assert(s@.take(n as int) =~= s@);
    }
}

/// A timestamp as RFC3339-style text with nanosecond precision, fixed
/// width, UTC designator `Z`.
pub open spec fn ts_text(t: Timestamp) -> Seq<char> {
    pad_digits(t.year as nat, 4) + seq!['-'] + pad_digits(t.month as nat, 2) + seq!['-']
        + pad_digits(t.day as nat, 2) + seq!['T'] + pad_digits(t.hour as nat, 2) + seq![':']
        + pad_digits(t.minute as nat, 2) + seq![':'] + pad_digits(t.second as nat, 2) + seq!['.']
        + pad_digits(t.nanos as nat, 9) + seq!['Z']
}

proof fn lemma_pad_digits_len(n: nat, w: nat)
    ensures
        pad_digits(n, w).len() == w,
    decreases w,
{
    if w > 0 {
        lemma_pad_digits_len(n / 10, (w - 1) as nat);
    }
}

/// The fixed width of a rendered timestamp.
proof fn lemma_ts_text_len(t: Timestamp)
    ensures
        ts_text(t).len() == 30,
{
    lemma_pad_digits_len(t.year as nat, 4);
    lemma_pad_digits_len(t.month as nat, 2);
    lemma_pad_digits_len(t.day as nat, 2);
    lemma_pad_digits_len(t.hour as nat, 2);
    lemma_pad_digits_len(t.minute as nat, 2);
    lemma_pad_digits_len(t.second as nat, 2);
    lemma_pad_digits_len(t.nanos as nat, 9);
}

/// Appends the rendered timestamp to `out`.
fn ts_into(out: &mut String, t: &Timestamp)
    ensures
        final(out)@ == old(out)@ + ts_text(*t),
{
    let part = u64_to_padded_string(t.year as u64, 4);
    out.append(part.as_str());
    out.push('-');
    let part = u64_to_padded_string(t.month as u64, 2);
    out.append(part.as_str());
    out.push('-');
    let part = u64_to_padded_string(t.day as u64, 2);
    out.append(part.as_str());
    out.push('T');
    let part = u64_to_padded_string(t.hour as u64, 2);
    out.append(part.as_str());
    out.push(':');
    let part = u64_to_padded_string(t.minute as u64, 2);
    out.append(part.as_str());
    out.push(':');
    let part = u64_to_padded_string(t.second as u64, 2);
    out.append(part.as_str());
    out.push('.');
    let part = u64_to_padded_string(t.nanos as u64, 9);
    out.append(part.as_str());
    out.push('Z');
    proof {
        assert(out@ =~= old(out)@ + ts_text(*t));
    }
}

/// One task's entry in the tasks object: its id as the key, its stdout as
/// the single field.
pub open spec fn entry_text(id: nat, stdout: Seq<char>) -> Seq<char> {
    seq!['"'] + dec_digits(id) + "\":{\"stdout\":\""@ + esc_str(stdout) + seq!['"', '}']
}

/// The text contributed by entries `k` and later: each entry but the first
/// is preceded by a comma.
pub open spec fn tasks_tail_text(stdouts: Seq<Seq<char>>, k: int) -> Seq<char>
    decreases stdouts.len() - k,
{
    if k < 0 || k >= stdouts.len() {
        Seq::empty()
    } else {
        (if k > 0 {
            seq![',']
        } else {
            Seq::empty()
        }) + entry_text(k as nat, stdouts[k]) + tasks_tail_text(stdouts, k + 1)
    }
}

/// The body of the tasks object: every entry, in id order.
pub open spec fn tasks_text(stdouts: Seq<Seq<char>>) -> Seq<char> {
    tasks_tail_text(stdouts, 0)
}

/// The whole document.
pub open spec fn json_text(started: Timestamp, ended: Timestamp, stdouts: Seq<Seq<char>>) -> Seq<
    char,
> {
    "{\"metadata\":{\"started\":\""@ + ts_text(started) + "\",\"ended\":\""@ + ts_text(ended)
        + "\"},\"tasks\":{"@ + tasks_text(stdouts) + seq!['}', '}']
}

/// The stdout views of a result's task entries, in id order.
pub open spec fn result_stdouts(m: MultiplexerResult) -> Seq<Seq<char>> {
    m.tasks@.map_values(|t: MultiplexerResultDataTask| t.stdout@)
}

/// Serializes the result. The rendering is total: any timestamps and any
/// stdout contents serialize.
pub fn to_json(m: &MultiplexerResult) -> (r: String)
    ensures
        r@ == json_text(m.metadata.started, m.metadata.ended, result_stdouts(*m)),
{
    let ghost stdouts = result_stdouts(*m);
    let mut out = String::from_str("{\"metadata\":{\"started\":\"");
    ts_into(&mut out, &m.metadata.started);
    out.append("\",\"ended\":\"");
    ts_into(&mut out, &m.metadata.ended);
    out.append("\"},\"tasks\":{");
    let ghost base = out@;
    let n = m.tasks.len();
    let mut k: usize = 0;
    proof {
        assert(base + tasks_text(stdouts) =~= out@ + tasks_tail_text(stdouts, 0));
    }
    while k < n
        invariant
            k <= n,
            n == stdouts.len(),
            n == m.tasks@.len(),
            stdouts == result_stdouts(*m),
            base + tasks_text(stdouts) == out@ + tasks_tail_text(stdouts, k as int),
        decreases n - k,
    {
        let ghost prev = out@;
        if k > 0 {
            out.push(',');
        }
        out.push('"');
        let digits = u64_to_string(k as u64);
        out.append(digits.as_str());
        out.append("\":{\"stdout\":\"");
        escape_into(&mut out, m.tasks[k].stdout.as_str());
        out.push('"');
        out.push('}');
        proof {
            let sep: Seq<char> = if k > 0 {
                seq![',']
            } else {
                Seq::empty()
            };
            assert(stdouts[k as int] == m.tasks@[k as int].stdout@);
            assert(out@ =~= prev + (sep + entry_text(k as nat, stdouts[k as int])));
        }
        k += 1;
    }
    proof {
        assert(tasks_tail_text(stdouts, n as int) =~= Seq::<char>::empty());
        assert(out@ =~= base + tasks_text(stdouts));
    }
    out.push('}');
    out.push('}');
    proof {
        assert(out@ =~= json_text(m.metadata.started, m.metadata.ended, stdouts));
    }
    out
}

/// A literal match at position `i`: the position just past it, when the text
/// carries exactly `lit` there.
pub open spec fn lit_at(s: Seq<char>, i: int, lit: Seq<char>) -> Option<int> {
    if 0 <= i && i + lit.len() <= s.len() && s.subrange(i, i + lit.len()) == lit {
        Some(i + lit.len())
    } else {
        None
    }
}

/// Scans a JSON string body from position `i` up to its closing quote,
/// undoing the escapes this codec writes: the unescaped content and the
/// position just past the closing quote.
pub open spec fn jstr_at(s: Seq<char>, i: int) -> Option<(Seq<char>, int)>
    decreases s.len() - i,
{
    if i < 0 || i >= s.len() {
        None
    } else if s[i] == '"' {
        Some((Seq::empty(), i + 1))
    } else if s[i] == '\\' {
        if i + 1 >= s.len() {
            None
        } else {
            let e = s[i + 1];
            if e == '"' || e == '\\' || e == 'n' || e == 'r' || e == 't' {
                let c = if e == '"' {
                    '"'
                } else if e == '\\' {
                    '\\'
                } else if e == 'n' {
                    '\n'
                } else if e == 'r' {
                    '\r'
                } else {
                    '\t'
                };
                match jstr_at(s, i + 2) {
                    Some(p) => Some((seq![c] + p.0, p.1)),
                    None => None,
                }
            } else if e == 'u' {
                if i + 6 <= s.len() && s[i + 2] == '0' && s[i + 3] == '0' && is_hex(s[i + 4])
                    && is_hex(s[i + 5]) {
                    let v = hex_val(s[i + 4]) * 16 + hex_val(s[i + 5]);
                    match jstr_at(s, i + 6) {
                        Some(p) => Some((seq![(v as char)] + p.0, p.1)),
                        None => None,
                    }
                } else {
                    None
                }
            } else {
                None
            }
        }
    } else {
        match jstr_at(s, i + 1) {
            Some(p) => Some((seq![s[i]] + p.0, p.1)),
            None => None,
        }
    }
}

/// A successful string scan always moves forward and stays inside the text.
pub proof fn lemma_jstr_at_pos(s: Seq<char>, i: int)
    ensures
        match jstr_at(s, i) {
            Some(p) => i < p.1 <= s.len(),
            None => true,
        },
    decreases s.len() - i,
{
    if 0 <= i && i < s.len() {
        if s[i] == '"' {
        } else if s[i] == '\\' {
            if i + 1 < s.len() {
                lemma_jstr_at_pos(s, i + 2);
                if i + 6 <= s.len() {
                    lemma_jstr_at_pos(s, i + 6);
                }
            }
        } else {
            lemma_jstr_at_pos(s, i + 1);
        }
    }
}

/// A timestamp at position `i`: thirty characters in this codec's fixed
/// RFC3339-style shape, with the calendar fields in range.
pub open spec fn ts_at(s: Seq<char>, i: int) -> Option<(Timestamp, int)> {
    if 0 <= i && i + 30 <= s.len() && all_digits(s.subrange(i, i + 4)) && s[i + 4] == '-'
        && all_digits(s.subrange(i + 5, i + 7)) && s[i + 7] == '-' && all_digits(
        s.subrange(i + 8, i + 10),
    ) && s[i + 10] == 'T' && all_digits(s.subrange(i + 11, i + 13)) && s[i + 13] == ':'
        && all_digits(s.subrange(i + 14, i + 16)) && s[i + 16] == ':' && all_digits(
        s.subrange(i + 17, i + 19),
    ) && s[i + 19] == '.' && all_digits(s.subrange(i + 20, i + 29)) && s[i + 29] == 'Z' {
        let year = dec_value(s.subrange(i, i + 4));
        let month = dec_value(s.subrange(i + 5, i + 7));
        let day = dec_value(s.subrange(i + 8, i + 10));
        let hour = dec_value(s.subrange(i + 11, i + 13));
        let minute = dec_value(s.subrange(i + 14, i + 16));
        let second = dec_value(s.subrange(i + 17, i + 19));
        let nanos = dec_value(s.subrange(i + 20, i + 29));
        if 1 <= month <= 12 && 1 <= day <= 31 && hour < 24 && minute < 60 && second < 60 {
            Some(
                (
                    Timestamp {
                        year: year as u16,
                        month: month as u8,
                        day: day as u8,
                        hour: hour as u8,
                        minute: minute as u8,
                        second: second as u8,
                        nanos: nanos as u32,
                    },
                    i + 30,
                ),
            )
        } else {
            None
        }
    } else {
        None
    }
}

/// One task entry at position `i`: its key must be exactly the decimal
/// digits of the expected id (ids are dense and in order), its value an
/// object with the single `stdout` string.
pub open spec fn entry_at(s: Seq<char>, i: int, id: nat) -> Option<(Seq<char>, int)> {
    if !(0 <= i && i < s.len() && s[i] == '"') {
        None
    } else {
        match lit_at(s, i + 1, dec_digits(id)) {
            None => None,
            Some(j) => match lit_at(s, j, "\":{\"stdout\":\""@) {
                None => None,
                Some(j2) => match jstr_at(s, j2) {
                    None => None,
                    Some(p) => if p.1 < s.len() && s[p.1] == '}' {
                        Some((p.0, p.1 + 1))
                    } else {
                        None
                    },
                },
            },
        }
    }
}

/// A successful entry parse always moves forward and stays inside the text.
pub proof fn lemma_entry_at_pos(s: Seq<char>, i: int, id: nat)
    ensures
        match entry_at(s, i, id) {
            Some(p) => i < p.1 <= s.len(),
            None => true,
        },
{
    if 0 <= i && i < s.len() && s[i] == '"' {
        if let Some(j) = lit_at(s, i + 1, dec_digits(id)) {
            if let Some(j2) = lit_at(s, j, "\":{\"stdout\":\""@) {
                lemma_jstr_at_pos(s, j2);
            }
        }
    }
}

/// The entries of the tasks object from position `i` on, expecting dense
/// ids from `id` up: the stdout contents in order and the position just past
/// the object's closing brace.
pub open spec fn tasks_at(s: Seq<char>, i: int, id: nat) -> Option<(Seq<Seq<char>>, int)>
    decreases s.len() - i,
    via tasks_at_dec
{
    match entry_at(s, i, id) {
        None => None,
        Some(p) => {
            if p.1 < s.len() && s[p.1] == ',' {
                match tasks_at(s, p.1 + 1, id + 1) {
                    None => None,
                    Some(q) => Some((seq![p.0] + q.0, q.1)),
                }
            } else if p.1 < s.len() && s[p.1] == '}' {
                Some((seq![p.0], p.1 + 1))
            } else {
                None
            }
        },
    }
}

#[via_fn]
proof fn tasks_at_dec(s: Seq<char>, i: int, id: nat) {
    lemma_entry_at_pos(s, i, id);
}

/// The whole document: both timestamps and the dense task entries, with
/// nothing before or after.
pub open spec fn result_at(s: Seq<char>) -> Option<(Timestamp, Timestamp, Seq<Seq<char>>)> {
    match lit_at(s, 0, "{\"metadata\":{\"started\":\""@) {
        None => None,
        Some(i0) => match ts_at(s, i0) {
            None => None,
            Some(p1) => match lit_at(s, p1.1, "\",\"ended\":\""@) {
                None => None,
                Some(i2) => match ts_at(s, i2) {
                    None => None,
                    Some(p3) => match lit_at(s, p3.1, "\"},\"tasks\":{"@) {
                        None => None,
                        Some(i4) => {
                            if i4 < s.len() && s[i4] == '}' {
                                if i4 + 2 == s.len() && s[i4 + 1] == '}' {
                                    Some((p1.0, p3.0, Seq::empty()))
                                } else {
                                    None
                                }
                            } else {
                                match tasks_at(s, i4, 0) {
                                    None => None,
                                    Some(p5) => {
                                        if p5.1 + 1 == s.len() && s[p5.1] == '}' {
                                            Some((p1.0, p3.0, p5.0))
                                        } else {
                                            None
                                        }
                                    },
                                }
                            }
                        },
                    },
                },
            },
        },
    }
}

/// Matches `lit` at position `i`.
fn expect_lit(s: &str, i: usize, lit: &str) -> (r: Option<usize>)
    requires
        i <= s@.len(),
    ensures
        match r {
            Some(j) => lit_at(s@, i as int, lit@) == Some(j as int) && j <= s@.len(),
            None => lit_at(s@, i as int, lit@) is None,
        },
{
    let n = s.unicode_len();
    let m = lit.unicode_len();
    if m > n - i {
        proof {
            assert(i + lit@.len() > s@.len());
        }
        return None;
    }
    let mut k: usize = 0;
    while k < m
        invariant
            k <= m,
            m == lit@.len(),
            n == s@.len(),
            i + m <= n,
            forall|j: int| 0 <= j < k ==> s@[i + j] == lit@[j],
        decreases m - k,
    {
        if s.get_char(i + k) != lit.get_char(k) {
            proof {
                assert(s@.subrange(i as int, i as int + lit@.len())[k as int] != lit@[k as int]);
            }
            return None;
        }
        k += 1;
    }
    proof {
        assert(s@.subrange(i as int, i as int + lit@.len()) =~= lit@);
    }
    Some(i + m)
}

/// Scans a JSON string body from position `i`, undoing this codec's
/// escapes.
fn parse_string(s: &str, i: usize) -> (r: Option<(String, usize)>)
    requires
        i <= s@.len(),
    ensures
        match r {
            Some(p) => jstr_at(s@, i as int) == Some((p.0@, p.1 as int)) && p.1 <= s@.len(),
            None => jstr_at(s@, i as int) is None,
        },
{
    let n = s.unicode_len();
    let mut acc = String::new();
    let mut j: usize = i;
    loop
        invariant
            i <= j <= n,
            n == s@.len(),
            jstr_at(s@, i as int) == (match jstr_at(s@, j as int) {
                Some(p) => Some((acc@ + p.0, p.1)),
                None => None::<(Seq<char>, int)>,
            }),
        decreases n - j,
    {
        if j >= n {
            return None;
        }
        let c = s.get_char(j);
        if c == '"' {
            proof {
                assert(acc@ + Seq::<char>::empty() =~= acc@);
            }
            return Some((acc, j + 1));
        }
        let ghost prev = acc@;
        if c == '\\' {
            if j + 1 >= n {
                return None;
            }
            let e = s.get_char(j + 1);
            if e == '"' || e == '\\' || e == 'n' || e == 'r' || e == 't' {
                let d = if e == '"' {
                    '"'
                } else if e == '\\' {
                    '\\'
                } else if e == 'n' {
                    '\n'
                } else if e == 'r' {
                    '\r'
                } else {
                    '\t'
                };
                acc.push(d);
                proof {
                    if let Some(p) = jstr_at(s@, j as int + 2) {
                        assert(acc@ + p.0 =~= prev + (seq![d] + p.0));
                    }
                }
                j += 2;
            } else if e == 'u' {
                if 6 > n - j {
                    return None;
                }
                if s.get_char(j + 2) != '0' || s.get_char(j + 3) != '0' {
                    return None;
                }
                let h1 = match char_to_hex(s.get_char(j + 4)) {
                    Some(h) => h,
                    None => {
                        return None;
                    },
                };
                let h2 = match char_to_hex(s.get_char(j + 5)) {
                    Some(h) => h,
                    None => {
                        return None;
                    },
                };
                let v: u32 = h1 * 16 + h2;
                let d = (v as u8) as char;
                proof {
                    assert(d == ((hex_val(s@[j as int + 4]) * 16 + hex_val(s@[j as int + 5]))
                        as char));
                }
                acc.push(d);
                proof {
                    if let Some(p) = jstr_at(s@, j as int + 6) {
                        assert(acc@ + p.0 =~= prev + (seq![d] + p.0));
                    }
                }
                j += 6;
            } else {
                return None;
            }
        } else {
            acc.push(c);
            proof {
                if let Some(p) = jstr_at(s@, j as int + 1) {
                    assert(acc@ + p.0 =~= prev + (seq![c] + p.0));
                }
            }
            j += 1;
        }
    }
}

proof fn lemma_pow10_small()
    ensures
        pow10(0) == 1,
        pow10(1) == 10,
        pow10(2) == 100,
        pow10(4) == 10000,
        pow10(8) == 100000000,
        pow10(9) == 1000000000,
{
    assert(pow10(0) == 1);
    assert(pow10(1) == 10);
    assert(pow10(2) == 100);
    assert(pow10(3) == 1000);
    assert(pow10(4) == 10000);
    assert(pow10(5) == 100000);
    assert(pow10(6) == 1000000);
    assert(pow10(7) == 10000000);
    assert(pow10(8) == 100000000);
    assert(pow10(9) == 1000000000);
}

/// Reads exactly `w` decimal digits starting at `i`.
fn read_digits(s: &str, i: usize, w: usize) -> (r: Option<u32>)
    requires
        i <= s@.len(),
        w <= 9,
    ensures
        r is Some <==> (i + w <= s@.len() && all_digits(
            s@.subrange(i as int, i as int + w),
        )),
        r is Some ==> r->0 == dec_value(s@.subrange(i as int, i as int + w)),
{
    let n = s.unicode_len();
    if w > n - i {
        proof {
            assert(i + w > s@.len());
        }
        return None;
    }
    let mut acc: u32 = 0;
    let mut k: usize = 0;
    proof {
        lemma_pow10_small();
        assert(s@.subrange(i as int, i as int) =~= Seq::<char>::empty());
    }
    while k < w
        invariant
            k <= w <= 9,
            i + w <= n,
            n == s@.len(),
            all_digits(s@.subrange(i as int, i as int + k)),
            acc == dec_value(s@.subrange(i as int, i as int + k)),
            acc < pow10(k as nat),
            pow10(9) == 1000000000,
        decreases w - k,
    {
        let c = s.get_char(i + k);
        proof {
            let sub = s@.subrange(i as int, i as int + k + 1);
            assert(sub.drop_last() =~= s@.subrange(i as int, i as int + k));
            assert(sub.last() == s@[i as int + k]);
        }
        match char_to_digit(c) {
            None => {
                proof {
                    assert(!all_digits(s@.subrange(i as int, i as int + w))) by {
                        assert(s@.subrange(i as int, i as int + w)[k as int] == s@[i as int
                            + k]);
                    }
                }
                return None;
            },
            Some(d) => {
                proof {
                    assert(pow10((k + 1) as nat) == 10 * pow10(k as nat));
                    assert(pow10(k as nat) <= pow10(8)) by {
                        lemma_pow10_increases(k as nat, 8);
                    }
                    assert(all_digits(s@.subrange(i as int, i as int + k + 1))) by {
                        let sub = s@.subrange(i as int, i as int + k + 1);
                        assert(forall|j: int|
                            0 <= j < k ==> sub[j] == #[trigger] s@.subrange(
                                i as int,
                                i as int + k,
                            )[j]);
                    }
                }
                acc = acc * 10 + (d as u32);
                k += 1;
            },
        }
    }
    proof {
        assert(s@.subrange(i as int, i as int + k) =~= s@.subrange(i as int, i as int + w));
    }
    Some(acc)
}

proof fn lemma_pow10_increases(a: nat, b: nat)
    requires
        a <= b,
    ensures
        pow10(a) <= pow10(b),
    decreases b,
{
    if a < b {
        lemma_pow10_increases(a, (b - 1) as nat);
        assert(pow10(b) == 10 * pow10((b - 1) as nat));
    }
}

/// Parses a timestamp at position `i`.
fn parse_ts(s: &str, i: usize) -> (r: Option<(Timestamp, usize)>)
    requires
        i <= s@.len(),
    ensures
        match r {
            Some(p) => ts_at(s@, i as int) == Some((p.0, p.1 as int)) && p.1 <= s@.len(),
            None => ts_at(s@, i as int) is None,
        },
{
    let n = s.unicode_len();
    if 30 > n - i {
        return None;
    }
    let year = match read_digits(s, i, 4) {
        Some(v) => v,
        None => {
            return None;
        },
    };
    if s.get_char(i + 4) != '-' {
        return None;
    }
    let month = match read_digits(s, i + 5, 2) {
        Some(v) => v,
        None => {
            return None;
        },
    };
    if s.get_char(i + 7) != '-' {
        return None;
    }
    let day = match read_digits(s, i + 8, 2) {
        Some(v) => v,
        None => {
            return None;
        },
    };
    if s.get_char(i + 10) != 'T' {
        return None;
    }
    let hour = match read_digits(s, i + 11, 2) {
        Some(v) => v,
        None => {
            return None;
        },
    };
    if s.get_char(i + 13) != ':' {
        return None;
    }
    let minute = match read_digits(s, i + 14, 2) {
        Some(v) => v,
        None => {
            return None;
        },
    };
    if s.get_char(i + 16) != ':' {
        return None;
    }
    let second = match read_digits(s, i + 17, 2) {
        Some(v) => v,
        None => {
            return None;
        },
    };
    if s.get_char(i + 19) != '.' {
        return None;
    }
    let nanos = match read_digits(s, i + 20, 9) {
        Some(v) => v,
        None => {
            return None;
        },
    };
    if s.get_char(i + 29) != 'Z' {
        return None;
    }
    if !(1 <= month && month <= 12 && 1 <= day && day <= 31 && hour < 24 && minute < 60 && second
        < 60) {
        return None;
    }
    proof {
        lemma_pow10_small();
    }
    Some(
        (
            Timestamp {
                year: year as u16,
                month: month as u8,
                day: day as u8,
                hour: hour as u8,
                minute: minute as u8,
                second: second as u8,
                nanos,
            },
            i + 30,
        ),
    )
}

/// Parses one task entry at position `i`, whose key must be exactly `id`.
fn parse_entry(s: &str, i: usize, id: usize) -> (r: Option<(String, usize)>)
    requires
        i <= s@.len(),
    ensures
        match r {
            Some(p) => entry_at(s@, i as int, id as nat) == Some((p.0@, p.1 as int)) && p.1
                <= s@.len(),
            None => entry_at(s@, i as int, id as nat) is None,
        },
{
    let n = s.unicode_len();
    if i >= n {
        return None;
    }
    if s.get_char(i) != '"' {
        return None;
    }
    let digits = u64_to_string(id as u64);
    let j = match expect_lit(s, i + 1, digits.as_str()) {
        Some(j) => j,
        None => {
            return None;
        },
    };
    let j2 = match expect_lit(s, j, "\":{\"stdout\":\"") {
        Some(j2) => j2,
        None => {
            return None;
        },
    };
    let (content, j3) = match parse_string(s, j2) {
        Some(p) => p,
        None => {
            return None;
        },
    };
    if j3 >= n {
        return None;
    }
    if s.get_char(j3) != '}' {
        return None;
    }
    Some((content, j3 + 1))
}

/// Parses the tasks object's entries from position `i`, expecting dense
/// ids from zero.
fn parse_tasks(s: &str, i: usize) -> (r: Option<(Vec<String>, usize)>)
    requires
        i <= s@.len(),
    ensures
        match r {
            Some(p) => tasks_at(s@, i as int, 0) == Some(
                (p.0@.map_values(|x: String| x@), p.1 as int),
            ) && p.1 <= s@.len(),
            None => tasks_at(s@, i as int, 0) is None,
        },
{
    let n = s.unicode_len();
    let mut acc: Vec<String> = Vec::new();
    let mut j: usize = i;
    let mut id: usize = 0;
    loop
        invariant
            i <= j <= n,
            n == s@.len(),
            id <= j,
            tasks_at(s@, i as int, 0) == (match tasks_at(s@, j as int, id as nat) {
                Some(p) => Some(
                    (acc@.map_values(|x: String| x@) + p.0, p.1),
                ),
                None => None::<(Seq<Seq<char>>, int)>,
            }),
        decreases n - j,
    {
        let (content, j2) = match parse_entry(s, j, id) {
            Some(p) => p,
            None => {
                return None;
            },
        };
        proof {
            lemma_entry_at_pos(s@, j as int, id as nat);
        }
        let ghost prev = acc@;
        acc.push(content);
        if j2 < n {
            let c = s.get_char(j2);
            if c == ',' {
                proof {
                    if let Some(q) = tasks_at(s@, j2 as int + 1, (id + 1) as nat) {
                        assert(acc@.map_values(|x: String| x@) + q.0 =~= prev.map_values(
                            |x: String| x@,
                        ) + (seq![content@] + q.0));
                    }
                }
                j = j2 + 1;
                id = id + 1;
            } else if c == '}' {
                proof {
                    assert(acc@.map_values(|x: String| x@) =~= prev.map_values(|x: String| x@)
                        + seq![content@]);
                    assert(acc@.map_values(|x: String| x@) + Seq::<Seq<char>>::empty()
                        =~= acc@.map_values(|x: String| x@));
                }
                return Some((acc, j2 + 1));
            } else {
                return None;
            }
        } else {
            return None;
        }
    }
}

/// Deserializes a document this codec wrote: the result, exactly when the
/// text carries the fixed shape with valid timestamps and dense ids.
pub fn from_json(s: &str) -> (r: Option<MultiplexerResult>)
    ensures
        match r {
            Some(m) => result_at(s@) == Some(
                (m.metadata.started, m.metadata.ended, result_stdouts(m)),
            ),
            None => result_at(s@) is None,
        },
{
    let n = s.unicode_len();
    let i0 = match expect_lit(s, 0, "{\"metadata\":{\"started\":\"") {
        Some(j) => j,
        None => {
            return None;
        },
    };
    let (started, i1) = match parse_ts(s, i0) {
        Some(p) => p,
        None => {
            return None;
        },
    };
    let i2 = match expect_lit(s, i1, "\",\"ended\":\"") {
        Some(j) => j,
        None => {
            return None;
        },
    };
    let (ended, i3) = match parse_ts(s, i2) {
        Some(p) => p,
        None => {
            return None;
        },
    };
    let i4 = match expect_lit(s, i3, "\"},\"tasks\":{") {
        Some(j) => j,
        None => {
            return None;
        },
    };
    let metadata = MultiplexerResultMetadata { started, ended };
    if i4 < n && s.get_char(i4) == '}' {
        if n - i4 == 2 && s.get_char(i4 + 1) == '}' {
            let m = MultiplexerResult { metadata, tasks: Vec::new() };
            proof {
                assert(result_stdouts(m) =~= Seq::<Seq<char>>::empty());
            }
            return Some(m);
        }
        return None;
    }
    let (contents, i5) = match parse_tasks(s, i4) {
        Some(p) => p,
        None => {
            return None;
        },
    };
    if !(i5 < n && s.get_char(i5) == '}' && i5 + 1 == n) {
        return None;
    }
    let mut tasks: Vec<MultiplexerResultDataTask> = Vec::new();
    let ghost content_views = contents@.map_values(|x: String| x@);
    let mut rest = contents;
    while rest.len() > 0
        invariant
            tasks@.len() + rest@.len() == content_views.len(),
            forall|k: int|
                0 <= k < tasks@.len() ==> (#[trigger] tasks@[k]).stdout@ == content_views[k],
            forall|k: int|
                0 <= k < rest@.len() ==> (#[trigger] rest@[k])@ == content_views[tasks@.len()
                    + k],
        decreases rest@.len(),
    {
        let stdout = rest.remove(0);
        tasks.push(MultiplexerResultDataTask { stdout });
    }
    let m = MultiplexerResult { metadata, tasks };
    proof {
        assert(result_stdouts(m) =~= content_views);
    }
    Some(m)
}

proof fn lemma_index_of_window(s: Seq<char>, i: int, w: Seq<char>, k: int)
    requires
        0 <= i,
        i + w.len() <= s.len(),
        s.subrange(i, i + w.len()) == w,
        0 <= k < w.len(),
    ensures
        s[i + k] == w[k],
{
    assert(s.subrange(i, i + w.len())[k] == s[i + k]);
}

proof fn lemma_subrange_of_window(s: Seq<char>, i: int, w: Seq<char>, a: int, b: int)
    requires
        0 <= i,
        i + w.len() <= s.len(),
        s.subrange(i, i + w.len()) == w,
        0 <= a <= b <= w.len(),
    ensures
        s.subrange(i + a, i + b) == w.subrange(a, b),
{
    assert(s.subrange(i + a, i + b) =~= w.subrange(a, b)) by {
        assert(forall|j: int|
            0 <= j < w.len() ==> #[trigger] s.subrange(i, i + w.len())[j] == s[i + j]);
        assert(forall|j: int|
            0 <= j < b - a ==> #[trigger] s.subrange(i + a, i + b)[j] == s[i + a + j]);
        assert(forall|j: int| 0 <= j < b - a ==> #[trigger] w.subrange(a, b)[j] == w[a + j]);
    }
}

proof fn lemma_esc_str_first(s: Seq<char>)
    requires
        s.len() > 0,
    ensures
        esc_str(s) == esc_char(s[0]) + esc_str(s.drop_first()),
    decreases s.len(),
{
    if s.len() == 1 {
        assert(esc_str(s.drop_last()) =~= Seq::<char>::empty());
        assert(s.drop_first() =~= Seq::<char>::empty());
        assert(esc_str(s) =~= esc_char(s[0]) + esc_str(s.drop_first()));
    } else {
        lemma_esc_str_first(s.drop_last());
        assert(s.drop_last()[0] == s[0]);
        assert(s.drop_first().drop_last() =~= s.drop_last().drop_first());
        assert(s.drop_first().last() == s.last());
        assert(esc_str(s.drop_first()) == esc_str(s.drop_first().drop_last()) + esc_char(
            s.drop_first().last(),
        ));
        assert(esc_str(s) =~= esc_char(s[0]) + esc_str(s.drop_first()));
    }
}

proof fn lemma_hex_roundtrip(d: nat)
    requires
        d < 16,
    ensures
        is_hex(hex_char(d)),
        hex_val(hex_char(d)) == d,
{
}

proof fn lemma_jstr_step(s: Seq<char>, i: int, c: char, rest: Seq<char>, end: int)
    requires
        0 <= i,
        i + esc_char(c).len() <= s.len(),
        s.subrange(i, i + esc_char(c).len()) == esc_char(c),
        jstr_at(s, i + esc_char(c).len()) == Some((rest, end)),
    ensures
        jstr_at(s, i) == Some((seq![c] + rest, end)),
{
    let ec = esc_char(c);
    if c == '"' {
        lemma_index_of_window(s, i, ec, 0);
        lemma_index_of_window(s, i, ec, 1);
        assert(s[i] == '\\' && s[i + 1] == '"');
    } else if c == '\\' {
        lemma_index_of_window(s, i, ec, 0);
        lemma_index_of_window(s, i, ec, 1);
        assert(s[i] == '\\' && s[i + 1] == '\\');
    } else if c == '\n' {
        lemma_index_of_window(s, i, ec, 0);
        lemma_index_of_window(s, i, ec, 1);
        assert(s[i] == '\\' && s[i + 1] == 'n');
    } else if c == '\r' {
        lemma_index_of_window(s, i, ec, 0);
        lemma_index_of_window(s, i, ec, 1);
        assert(s[i] == '\\' && s[i + 1] == 'r');
    } else if c == '\t' {
        lemma_index_of_window(s, i, ec, 0);
        lemma_index_of_window(s, i, ec, 1);
        assert(s[i] == '\\' && s[i + 1] == 't');
    } else if (c as u32) < 0x20 {
        lemma_index_of_window(s, i, ec, 0);
        lemma_index_of_window(s, i, ec, 1);
        lemma_index_of_window(s, i, ec, 2);
        lemma_index_of_window(s, i, ec, 3);
        lemma_index_of_window(s, i, ec, 4);
        lemma_index_of_window(s, i, ec, 5);
        assert((c as nat) < 0x20);
        assert(s[i] == '\\' && s[i + 1] == 'u' && s[i + 2] == '0' && s[i + 3] == '0');
        assert(s[i + 4] == hex_char((c as nat) / 16));
        assert(s[i + 5] == hex_char((c as nat) % 16));
        lemma_hex_roundtrip((c as nat) / 16);
        lemma_hex_roundtrip((c as nat) % 16);
        let v = hex_val(s[i + 4]) * 16 + hex_val(s[i + 5]);
        assert(v == ((c as nat) / 16) * 16 + ((c as nat) % 16));
        assert(v == c as int);
        assert((v as char) == c);
    } else {
        lemma_index_of_window(s, i, ec, 0);
        assert(s[i] == c);
        assert(c != '"' && c != '\\');
    }
}

proof fn lemma_jstr_inverts(s: Seq<char>, i: int, orig: Seq<char>)
    requires
        0 <= i,
        i + esc_str(orig).len() + 1 <= s.len(),
        s.subrange(i, i + esc_str(orig).len() + 1) == esc_str(orig) + seq!['"'],
    ensures
        jstr_at(s, i) == Some((orig, i + esc_str(orig).len() + 1)),
    decreases orig.len(),
{
    let whole = esc_str(orig) + seq!['"'];
    let end = i + esc_str(orig).len() + 1;
    if orig.len() == 0 {
        assert(esc_str(orig).len() == 0);
        lemma_index_of_window(s, i, whole, 0);
        assert(whole[0] == '"');
        assert(s[i] == '"');
        assert(jstr_at(s, i) == Some((Seq::<char>::empty(), i + 1)));
        assert(orig =~= Seq::<char>::empty());
    } else {
        let c = orig[0];
        let ec = esc_char(c);
        let rest = orig.drop_first();
        lemma_esc_str_first(orig);
        assert(esc_str(orig) == ec + esc_str(rest));
        let i2 = i + ec.len();
        lemma_subrange_of_window(s, i, whole, ec.len() as int, whole.len() as int);
        assert(s.subrange(i2, end) == whole.subrange(ec.len() as int, whole.len() as int));
        assert(whole.subrange(ec.len() as int, whole.len() as int) =~= esc_str(rest)
            + seq!['"']);
        lemma_jstr_inverts(s, i2, rest);
        assert(jstr_at(s, i2) == Some((rest, end)));
        lemma_subrange_of_window(s, i, whole, 0, ec.len() as int);
        assert(whole.subrange(0, ec.len() as int) =~= ec);
        lemma_jstr_step(s, i, c, rest, end);
        assert(seq![c] + rest =~= orig);
    }
}

proof fn lemma_ts_inverts(s: Seq<char>, i: int, t: Timestamp)
    requires
        t.valid(),
        0 <= i,
        i + 30 <= s.len(),
        s.subrange(i, i + 30) == ts_text(t),
    ensures
        ts_at(s, i) == Some((t, i + 30)),
{
    lemma_pow10_small();
    lemma_ts_text_len(t);
    let w = ts_text(t);
    lemma_subrange_of_window(s, i, w, 0, 4);
    lemma_subrange_of_window(s, i, w, 5, 7);
    lemma_subrange_of_window(s, i, w, 8, 10);
    lemma_subrange_of_window(s, i, w, 11, 13);
    lemma_subrange_of_window(s, i, w, 14, 16);
    lemma_subrange_of_window(s, i, w, 17, 19);
    lemma_subrange_of_window(s, i, w, 20, 29);
    lemma_index_of_window(s, i, w, 4);
    lemma_index_of_window(s, i, w, 7);
    lemma_index_of_window(s, i, w, 10);
    lemma_index_of_window(s, i, w, 13);
    lemma_index_of_window(s, i, w, 16);
    lemma_index_of_window(s, i, w, 19);
    lemma_index_of_window(s, i, w, 29);
    lemma_pad_digits_len(t.year as nat, 4);
    lemma_pad_digits_len(t.month as nat, 2);
    lemma_pad_digits_len(t.day as nat, 2);
    lemma_pad_digits_len(t.hour as nat, 2);
    lemma_pad_digits_len(t.minute as nat, 2);
    lemma_pad_digits_len(t.second as nat, 2);
    lemma_pad_digits_len(t.nanos as nat, 9);
    assert(w.subrange(0, 4) =~= pad_digits(t.year as nat, 4));
    assert(w.subrange(5, 7) =~= pad_digits(t.month as nat, 2));
    assert(w.subrange(8, 10) =~= pad_digits(t.day as nat, 2));
    assert(w.subrange(11, 13) =~= pad_digits(t.hour as nat, 2));
    assert(w.subrange(14, 16) =~= pad_digits(t.minute as nat, 2));
    assert(w.subrange(17, 19) =~= pad_digits(t.second as nat, 2));
    assert(w.subrange(20, 29) =~= pad_digits(t.nanos as nat, 9));
    assert(w[4] == '-' && w[7] == '-' && w[10] == 'T' && w[13] == ':' && w[16] == ':' && w[19]
        == '.' && w[29] == 'Z');
    crate::text::lemma_pad_digits_value(t.year as nat, 4);
    crate::text::lemma_pad_digits_value(t.month as nat, 2);
    crate::text::lemma_pad_digits_value(t.day as nat, 2);
    crate::text::lemma_pad_digits_value(t.hour as nat, 2);
    crate::text::lemma_pad_digits_value(t.minute as nat, 2);
    crate::text::lemma_pad_digits_value(t.second as nat, 2);
    crate::text::lemma_pad_digits_value(t.nanos as nat, 9);
    assert(dec_value(s.subrange(i, i + 4)) == t.year as int);
    assert(dec_value(s.subrange(i + 5, i + 7)) == t.month as int);
    assert(dec_value(s.subrange(i + 8, i + 10)) == t.day as int);
    assert(dec_value(s.subrange(i + 11, i + 13)) == t.hour as int);
    assert(dec_value(s.subrange(i + 14, i + 16)) == t.minute as int);
    assert(dec_value(s.subrange(i + 17, i + 19)) == t.second as int);
    assert(dec_value(s.subrange(i + 20, i + 29)) == t.nanos as int);
    assert(ts_at(s, i) == Some((t, i + 30)));
}

proof fn lemma_entry_at_inverts(s: Seq<char>, i: int, id: nat, stdout: Seq<char>)
    requires
        0 <= i,
        i + entry_text(id, stdout).len() <= s.len(),
        s.subrange(i, i + entry_text(id, stdout).len()) == entry_text(id, stdout),
    ensures
        entry_at(s, i, id) == Some((stdout, i + entry_text(id, stdout).len())),
{
    let whole = entry_text(id, stdout);
    let end = i + whole.len();
    let dd = dec_digits(id);
    let lit = "\":{\"stdout\":\""@;
    let es = esc_str(stdout);
    lemma_index_of_window(s, i, whole, 0);
    assert(whole[0] == '"');
    assert(s[i] == '"');
    let a1 = 1 + dd.len() as int;
    let a2 = a1 + lit.len();
    let a3 = a2 + es.len() + 1;
    lemma_subrange_of_window(s, i, whole, 1, a1);
    assert(whole.subrange(1, a1) =~= dd);
    assert(lit_at(s, i + 1, dd) == Some(i + a1));
    lemma_subrange_of_window(s, i, whole, a1, a2);
    assert(whole.subrange(a1, a2) =~= lit);
    assert(lit_at(s, i + a1, lit) == Some(i + a2));
    lemma_subrange_of_window(s, i, whole, a2, a3);
    assert(whole.subrange(a2, a3) =~= es + seq!['"']);
    lemma_jstr_inverts(s, i + a2, stdout);
    assert(jstr_at(s, i + a2) == Some((stdout, i + a3)));
    lemma_index_of_window(s, i, whole, a3);
    assert(whole[a3] == '}');
    assert(i + a3 + 1 == end);
    assert(entry_at(s, i, id) == Some((stdout, end)));
}

proof fn lemma_tasks_at_inverts(s: Seq<char>, i: int, stdouts: Seq<Seq<char>>, k: int)
    requires
        0 <= k < stdouts.len(),
        0 <= i,
        i + entry_text(k as nat, stdouts[k]).len() + tasks_tail_text(stdouts, k + 1).len() + 1
            <= s.len(),
        s.subrange(
            i,
            i + entry_text(k as nat, stdouts[k]).len() + tasks_tail_text(stdouts, k + 1).len()
                + 1,
        ) == entry_text(k as nat, stdouts[k]) + tasks_tail_text(stdouts, k + 1) + seq!['}'],
    ensures
        tasks_at(s, i, k as nat) == Some(
            (
                stdouts.skip(k),
                i + entry_text(k as nat, stdouts[k]).len() + tasks_tail_text(stdouts, k + 1).len()
                    + 1,
            ),
        ),
    decreases stdouts.len() - k,
{
    let et = entry_text(k as nat, stdouts[k]);
    let tail = tasks_tail_text(stdouts, k + 1);
    let whole = et + tail + seq!['}'];
    let end = i + whole.len();
    lemma_subrange_of_window(s, i, whole, 0, et.len() as int);
    assert(whole.subrange(0, et.len() as int) =~= et);
    lemma_entry_at_inverts(s, i, k as nat, stdouts[k]);
    let j = i + et.len();
    assert(entry_at(s, i, k as nat) == Some((stdouts[k], j)));
    if k + 1 < stdouts.len() {
        let et2 = entry_text((k + 1) as nat, stdouts[k + 1]);
        let tail2 = tasks_tail_text(stdouts, k + 2);
        assert(tail == seq![','] + et2 + tail2);
        lemma_index_of_window(s, i, whole, et.len() as int);
        assert(whole[et.len() as int] == ',');
        assert(s[j] == ',');
        lemma_subrange_of_window(s, i, whole, et.len() as int + 1, whole.len() as int);
        assert(whole.subrange(et.len() as int + 1, whole.len() as int) =~= et2 + tail2 + seq!['}']);
        lemma_tasks_at_inverts(s, j + 1, stdouts, k + 1);
        assert(tasks_at(s, j + 1, (k + 1) as nat) == Some((stdouts.skip(k + 1), end)));
        assert(seq![stdouts[k]] + stdouts.skip(k + 1) =~= stdouts.skip(k));
        assert(tasks_at(s, i, k as nat) == Some((stdouts.skip(k), end)));
    } else {
        assert(tail =~= Seq::<char>::empty());
        lemma_index_of_window(s, i, whole, et.len() as int);
        assert(whole[et.len() as int] == '}');
        assert(s[j] == '}');
        assert(j + 1 == end);
        assert(seq![stdouts[k]] =~= stdouts.skip(k));
        assert(tasks_at(s, i, k as nat) == Some((stdouts.skip(k), end)));
    }
}


proof fn lemma_concat_split(x: Seq<char>, y: Seq<char>)
    ensures
        (x + y).subrange(0, x.len() as int) == x,
        (x + y).subrange(x.len() as int, (x + y).len() as int) == y,
{
    assert((x + y).subrange(0, x.len() as int) =~= x);
    assert((x + y).subrange(x.len() as int, (x + y).len() as int) =~= y);
}

proof fn lemma_json_header(started: Timestamp, ended: Timestamp, stdouts: Seq<Seq<char>>)
    requires
        started.valid(),
        ended.valid(),
    ensures
        ({
            let s = json_text(started, ended, stdouts);
            let i0 = "{\"metadata\":{\"started\":\""@.len() as int;
            let i1 = i0 + 30;
            let i2 = i1 + "\",\"ended\":\""@.len();
            let i3 = i2 + 30;
            let i4 = i3 + "\"},\"tasks\":{"@.len();
            &&& lit_at(s, 0, "{\"metadata\":{\"started\":\""@) == Some(i0)
            &&& ts_at(s, i0) == Some((started, i1))
            &&& lit_at(s, i1, "\",\"ended\":\""@) == Some(i2)
            &&& ts_at(s, i2) == Some((ended, i3))
            &&& lit_at(s, i3, "\"},\"tasks\":{"@) == Some(i4)
            &&& s.len() == i4 + tasks_text(stdouts).len() + 2
        }),
{
    let s = json_text(started, ended, stdouts);
    let lit0 = "{\"metadata\":{\"started\":\""@;
    let lit1 = "\",\"ended\":\""@;
    let lit2 = "\"},\"tasks\":{"@;
    let ts1 = ts_text(started);
    let ts2 = ts_text(ended);
    let tt = tasks_text(stdouts);
    let braces = seq!['}', '}'];
    lemma_ts_text_len(started);
    lemma_ts_text_len(ended);
    let p2 = lit0 + ts1;
    let p3 = p2 + lit1;
    let p4 = p3 + ts2;
    let p5 = p4 + lit2;
    let p6 = p5 + tt;
    assert(s == p6 + braces);
    let i0 = lit0.len() as int;
    let i1 = i0 + 30;
    let i2 = i1 + lit1.len();
    let i3 = i2 + 30;
    let i4 = i3 + lit2.len();
    // peel the document apart, outermost concatenation first
    lemma_concat_split(p6, braces);
    lemma_subrange_of_window(s, 0, p6, 0, i4);
    lemma_concat_split(p5, tt);
    assert(s.subrange(0, i4) == p5);
    lemma_subrange_of_window(s, 0, p5, 0, i3);
    lemma_concat_split(p4, lit2);
    assert(s.subrange(0, i3) == p4);
    lemma_subrange_of_window(s, 0, p4, 0, i2);
    lemma_concat_split(p3, ts2);
    assert(s.subrange(0, i2) == p3);
    lemma_subrange_of_window(s, 0, p3, 0, i1);
    lemma_concat_split(p2, lit1);
    assert(s.subrange(0, i1) == p2);
    lemma_subrange_of_window(s, 0, p2, 0, i0);
    lemma_concat_split(lit0, ts1);
    assert(s.subrange(0, i0) == lit0);
    // the header: both literals and both timestamps
    assert(lit_at(s, 0, lit0) == Some(i0));
    lemma_subrange_of_window(s, 0, p2, i0, i1);
    assert(s.subrange(i0, i1) == ts1);
    lemma_ts_inverts(s, i0, started);
    lemma_subrange_of_window(s, 0, p3, i1, i2);
    assert(s.subrange(i1, i2) == lit1);
    assert(lit_at(s, i1, lit1) == Some(i2));
    lemma_subrange_of_window(s, 0, p4, i2, i3);
    assert(s.subrange(i2, i3) == ts2);
    lemma_ts_inverts(s, i2, ended);
    lemma_subrange_of_window(s, 0, p5, i3, i4);
    assert(s.subrange(i3, i4) == lit2);
    assert(lit_at(s, i3, lit2) == Some(i4));
}

proof fn lemma_json_tail(started: Timestamp, ended: Timestamp, stdouts: Seq<Seq<char>>)
    ensures
        ({
            let s = json_text(started, ended, stdouts);
            let i4 = "{\"metadata\":{\"started\":\""@.len() as int + 30 + "\",\"ended\":\""@.len()
                + 30 + "\"},\"tasks\":{"@.len();
            let i6 = i4 + tasks_text(stdouts).len();
            &&& s.len() == i6 + 2
            &&& s[i6] == '}'
            &&& s[i6 + 1] == '}'
            &&& (stdouts.len() > 0 ==> s[i4] == '"' && s.subrange(i4, i6 + 1) == tasks_text(
                stdouts,
            ) + seq!['}'])
        }),
{
    let s = json_text(started, ended, stdouts);
    let lit0 = "{\"metadata\":{\"started\":\""@;
    let lit1 = "\",\"ended\":\""@;
    let lit2 = "\"},\"tasks\":{"@;
    let ts1 = ts_text(started);
    let ts2 = ts_text(ended);
    let tt = tasks_text(stdouts);
    let braces = seq!['}', '}'];
    lemma_ts_text_len(started);
    lemma_ts_text_len(ended);
    let p6 = lit0 + ts1 + lit1 + ts2 + lit2 + tt;
    assert(s == p6 + braces);
    let i4 = lit0.len() as int + 30 + lit1.len() + 30 + lit2.len();
    let i6 = i4 + tt.len();
    lemma_concat_split(p6, braces);
    assert(s.subrange(i6, s.len() as int) == braces);
    lemma_index_of_window(s, i6, braces, 0);
    lemma_index_of_window(s, i6, braces, 1);
    assert(s[i6] == '}' && s[i6 + 1] == '}');
    if stdouts.len() > 0 {
        assert(s.subrange(0, i6) == p6);
        lemma_subrange_of_window(s, 0, p6, i4, i6);
        assert(p6.subrange(i4, i6) =~= tt);
        assert(s.subrange(i4, i6) == tt);
        assert(tt == entry_text(0, stdouts[0]) + tasks_tail_text(stdouts, 1));
        lemma_index_of_window(s, i4, tt, 0);
        assert(tt[0] == entry_text(0, stdouts[0])[0]);
        assert(entry_text(0, stdouts[0])[0] == '"');
        assert(s[i4] == '"');
        assert(s.subrange(i4, i6 + 1) =~= tt + seq!['}']) by {
            assert(forall|q: int|
                0 <= q < i6 + 1 - i4 ==> #[trigger] s.subrange(i4, i6 + 1)[q] == s[i4 + q]);
            assert(forall|q: int|
                0 <= q < tt.len() ==> #[trigger] s.subrange(i4, i6)[q] == s[i4 + q]);
        }
    }
}

proof fn lemma_result_at_compose(
    s: Seq<char>,
    started: Timestamp,
    ended: Timestamp,
    stdouts: Seq<Seq<char>>,
    i0: int,
    i2: int,
    i4: int,
    i6: int,
)
    requires
        lit_at(s, 0, "{\"metadata\":{\"started\":\""@) == Some(i0),
        ts_at(s, i0) == Some((started, i0 + 30)),
        lit_at(s, i0 + 30, "\",\"ended\":\""@) == Some(i2),
        ts_at(s, i2) == Some((ended, i2 + 30)),
        lit_at(s, i2 + 30, "\"},\"tasks\":{"@) == Some(i4),
        s.len() == i6 + 2,
        i4 <= i6,
        s[i6] == '}',
        s[i6 + 1] == '}',
        stdouts.len() == 0 ==> i4 == i6,
        stdouts.len() > 0 ==> s[i4] == '"' && tasks_at(s, i4, 0) == Some((stdouts, i6 + 1)),
    ensures
        result_at(s) == Some((started, ended, stdouts)),
{
    if stdouts.len() == 0 {
        assert(stdouts =~= Seq::<Seq<char>>::empty());
    }
}

/// Round trip: a document written by this codec reads back as exactly the
/// values it was written from, for any valid timestamps and any stdout
/// contents — so re-serializing what was read yields the same text,
/// character for character.
#[verifier::rlimit(100)]
pub proof fn lemma_json_round_trip(started: Timestamp, ended: Timestamp, stdouts: Seq<Seq<char>>)
    requires
        started.valid(),
        ended.valid(),
    ensures
        result_at(json_text(started, ended, stdouts)) == Some((started, ended, stdouts)),
{
    let s = json_text(started, ended, stdouts);
    let tt = tasks_text(stdouts);
    let i0 = "{\"metadata\":{\"started\":\""@.len() as int;
    let i1 = i0 + 30;
    let i2 = i1 + "\",\"ended\":\""@.len();
    let i3 = i2 + 30;
    let i4 = i3 + "\"},\"tasks\":{"@.len();
    let i6 = i4 + tt.len();
    lemma_json_header(started, ended, stdouts);
    lemma_json_tail(started, ended, stdouts);
    if stdouts.len() == 0 {
        assert(tt =~= Seq::<char>::empty());
        assert(i4 == i6);
    } else {
        let et0 = entry_text(0, stdouts[0]);
        let tail1 = tasks_tail_text(stdouts, 1);
        assert(tt == et0 + tail1);
        let i5 = i6 + 1;
        assert(s.subrange(i4, i5) == et0 + tail1 + seq!['}']) by {
            assert(tt + seq!['}'] =~= et0 + tail1 + seq!['}']);
        }
        lemma_tasks_at_inverts(s, i4, stdouts, 0);
        assert(stdouts.skip(0) =~= stdouts);
        assert(tasks_at(s, i4, 0) == Some((stdouts, i5)));
    }
    lemma_result_at_compose(s, started, ended, stdouts, i0, i2, i4, i6);
}

} // verus!
