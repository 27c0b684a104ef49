//! Verified text utilities shared by the dashboard renderer, the argument
//! helpers and the result codec: decimal formatting and parsing, whitespace
//! splitting, and trimming.

use vstd::prelude::*;

verus! {

/// Relies on `String::push`: appends the given character to the end of the
/// string.
pub assume_specification[ String::push ](s: &mut String, ch: char)
    ensures
        final(s)@ == old(s)@.push(ch),
;

/// ASCII whitespace.
pub open spec fn is_space(c: char) -> bool {
    c == ' ' || c == '\t' || c == '\n' || c == '\r'
}

/// ASCII decimal digit.
pub open spec fn is_digit(c: char) -> bool {
    '0' <= c <= '9'
}

/// The digit character for a value below ten.
pub open spec fn digit_char(d: nat) -> char {
    (('0' as u8) + (d as u8)) as char
}

/// The numeric value of a digit character.
pub open spec fn digit_val(c: char) -> int {
    c as int - '0' as int
}

/// The decimal digits of `n`, most significant first, with no leading zero
/// (a single `'0'` for zero).
pub open spec fn dec_digits(n: nat) -> Seq<char>
    decreases n,
{
    if n < 10 {
        seq![digit_char(n)]
    } else {
        dec_digits(n / 10).push(digit_char(n % 10))
    }
}

/// Exactly `w` decimal digits of `n`, most significant first, zero-padded;
/// the `w` least significant digits when `n` does not fit.
pub open spec fn pad_digits(n: nat, w: nat) -> Seq<char>
    decreases w,
{
    if w == 0 {
        Seq::empty()
    } else {
        pad_digits(n / 10, (w - 1) as nat).push(digit_char(n % 10))
    }
}

/// The value of a digit string, most significant digit first.
pub open spec fn dec_value(s: Seq<char>) -> int
    decreases s.len(),
{
    if s.len() == 0 {
        0
    } else {
        dec_value(s.drop_last()) * 10 + digit_val(s.last())
    }
}

/// Every character is an ASCII decimal digit.
pub open spec fn all_digits(s: Seq<char>) -> bool {
    forall|i: int| 0 <= i < s.len() ==> is_digit(#[trigger] s[i])
}

/// Ten to the `w`.
pub open spec fn pow10(w: nat) -> nat
    decreases w,
{
    if w == 0 {
        1
    } else {
        10 * pow10((w - 1) as nat)
    }
}

/// Fixed-width rendering is inverted by taking the decimal value, for every
/// value that fits the width; and it consists of digits only.
pub proof fn lemma_pad_digits_value(n: nat, w: nat)
    requires
        n < pow10(w),
    ensures
        pad_digits(n, w).len() == w,
        all_digits(pad_digits(n, w)),
        dec_value(pad_digits(n, w)) == n,
    decreases w,
{
    if w == 0 {
    } else {
        assert(n / 10 < pow10((w - 1) as nat)) by {
            assert(pow10(w) == 10 * pow10((w - 1) as nat));
        }
        lemma_pad_digits_value(n / 10, (w - 1) as nat);
        let s = pad_digits(n, w);
        assert(s.drop_last() =~= pad_digits(n / 10, (w - 1) as nat));
        assert(digit_val(digit_char(n % 10)) == n % 10);
    }
}

/// The digit character for a digit value.
pub fn digit_to_char(d: u64) -> (c: char)
    requires
        d < 10,
    ensures
        c == digit_char(d as nat),
{
    match d {
        0 => '0',
        1 => '1',
        2 => '2',
        3 => '3',
        4 => '4',
        5 => '5',
        6 => '6',
        7 => '7',
        8 => '8',
        _ => '9',
    }
}

/// Renders `n` in decimal, no padding.
pub fn u64_to_string(n: u64) -> (r: String)
    ensures
        r@ == dec_digits(n as nat),
    decreases n,
{
    if n < 10 {
        let mut s = String::new();
        s.push(digit_to_char(n));
        s
    } else {
        let mut s = u64_to_string(n / 10);
        s.push(digit_to_char(n % 10));
        s
    }
}

/// Renders `n` in decimal, zero-padded to exactly `w` digits.
pub fn u64_to_padded_string(n: u64, w: usize) -> (r: String)
    ensures
        r@ == pad_digits(n as nat, w as nat),
    decreases w,
{
    if w == 0 {
        String::new()
    } else {
        let mut s = u64_to_padded_string(n / 10, w - 1);
        s.push(digit_to_char(n % 10));
        s
    }
}

/// Renders a signed exit code in decimal, with a leading minus sign when it
/// is negative.
pub open spec fn int_digits(n: int) -> Seq<char> {
    if n < 0 {
        seq!['-'] + dec_digits((-n) as nat)
    } else {
        dec_digits(n as nat)
    }
}

/// Renders a signed exit code in decimal.
pub fn i32_to_string(v: i32) -> (r: String)
    ensures
        r@ == int_digits(v as int),
{
    let wide: i64 = v as i64;
    if wide < 0 {
        let mut s = String::new();
        s.push('-');
        let mag: u64 = (-wide) as u64;
        let digits = u64_to_string(mag);
        s.append(digits.as_str());
        assert(s@ =~= int_digits(v as int));
        s
    } else {
        u64_to_string(wide as u64)
    }
}

/// The numeric value of a digit character.
pub fn char_to_digit(c: char) -> (d: Option<u8>)
    ensures
        d is Some <==> is_digit(c),
        d is Some ==> d->0 == digit_val(c),
{
    match c {
        '0' => Some(0),
        '1' => Some(1),
        '2' => Some(2),
        '3' => Some(3),
        '4' => Some(4),
        '5' => Some(5),
        '6' => Some(6),
        '7' => Some(7),
        '8' => Some(8),
        '9' => Some(9),
        _ => None,
    }
}

/// Splitting on runs of whitespace, carrying the token built so far:
/// whitespace ends the current token (if any), anything else extends it.
pub open spec fn split_ws_from(s: Seq<char>, cur: Seq<char>) -> Seq<Seq<char>>
    decreases s.len(),
{
    if s.len() == 0 {
        if cur.len() == 0 {
            Seq::empty()
        } else {
            seq![cur]
        }
    } else if is_space(s[0]) {
        if cur.len() == 0 {
            split_ws_from(s.drop_first(), Seq::empty())
        } else {
            seq![cur] + split_ws_from(s.drop_first(), Seq::empty())
        }
    } else {
        split_ws_from(s.drop_first(), cur.push(s[0]))
    }
}

/// The maximal whitespace-free tokens of `s`, in order.
pub open spec fn split_ws(s: Seq<char>) -> Seq<Seq<char>> {
    split_ws_from(s, Seq::empty())
}

/// Whether the character at position `i` is ASCII whitespace.
fn is_space_at(s: &str, i: usize) -> (r: bool)
    requires
        i < s@.len(),
    ensures
        r == is_space(s@[i as int]),
{
    let c = s.get_char(i);
    c == ' ' || c == '\t' || c == '\n' || c == '\r'
}

/// Splits `s` into its maximal whitespace-free tokens, in order.
pub fn split_whitespace(s: &str) -> (r: Vec<String>)
    ensures
        r@.map_values(|t: String| t@) == split_ws(s@),
{
    let n = s.unicode_len();
    let mut out: Vec<String> = Vec::new();
    let mut cur = String::new();
    let mut i: usize = 0;
    proof {
        assert(s@.skip(0) =~= s@);
        assert(cur@ =~= Seq::<char>::empty());
        assert(out@.map_values(|t: String| t@) + split_ws_from(s@.skip(0), cur@) =~~= split_ws(
            s@,
        ));
    }
    while i < n
        invariant
            i <= n,
            n == s@.len(),
            split_ws(s@) == out@.map_values(|t: String| t@) + split_ws_from(
                s@.skip(i as int),
                cur@,
            ),
        decreases n - i,
    {
        proof {
            assert(s@.skip(i as int).drop_first() =~= s@.skip(i as int + 1));
            assert(s@.skip(i as int)[0] == s@[i as int]);
        }
        let ghost prev_out = out@;
        let ghost prev_cur = cur@;
        let sp = is_space_at(s, i);
        if sp {
            if !cur.as_str().is_empty() {
                out.push(cur);
                cur = String::new();
            }
        } else {
            let c = s.get_char(i);
            cur.push(c);
        }
        i += 1;
        proof {
            let tail = s@.skip(i as int);
            if sp {
                if prev_cur.len() == 0 {
                    assert(prev_cur =~= Seq::<char>::empty());
                    assert(cur@ == prev_cur);
                    assert(split_ws_from(s@.skip(i as int - 1), prev_cur) == split_ws_from(
                        tail,
                        cur@,
                    ));
                } else {
                    assert(cur@ =~= Seq::<char>::empty());
                    assert(split_ws_from(s@.skip(i as int - 1), prev_cur) == seq![prev_cur]
                        + split_ws_from(tail, cur@));
                    assert(out@.map_values(|t: String| t@) =~= prev_out.map_values(
                        |t: String| t@,
                    ).push(prev_cur));
                    assert(prev_out.map_values(|t: String| t@) + (seq![prev_cur]
                        + split_ws_from(tail, cur@)) =~~= out@.map_values(|t: String| t@)
                        + split_ws_from(tail, cur@));
                }
            } else {
                assert(cur@ == prev_cur.push(s@[i as int - 1]));
                assert(split_ws_from(s@.skip(i as int - 1), prev_cur) == split_ws_from(
                    tail,
                    cur@,
                ));
            }
        }
    }
    proof {
        assert(s@.skip(n as int) =~= Seq::<char>::empty());
    }
    if !cur.as_str().is_empty() {
        let ghost prev_out = out@;
        let ghost prev_cur = cur@;
        out.push(cur);
        proof {
            assert(out@.map_values(|t: String| t@) =~= prev_out.map_values(
                |t: String| t@,
            ).push(prev_cur));
            assert(prev_out.map_values(|t: String| t@) + seq![prev_cur] =~~= out@.map_values(
                |t: String| t@,
            ));
        }
    } else {
        proof {
            assert(cur@ =~= Seq::<char>::empty());
            assert(out@.map_values(|t: String| t@) + split_ws_from(Seq::empty(), cur@)
                =~~= out@.map_values(|t: String| t@));
        }
    }
    out
}

/// `s` with leading whitespace removed.
pub open spec fn trim_start_spec(s: Seq<char>) -> Seq<char>
    decreases s.len(),
{
    if s.len() > 0 && is_space(s[0]) {
        trim_start_spec(s.drop_first())
    } else {
        s
    }
}

/// `s` with trailing whitespace removed.
pub open spec fn trim_end_spec(s: Seq<char>) -> Seq<char>
    decreases s.len(),
{
    if s.len() > 0 && is_space(s.last()) {
        trim_end_spec(s.drop_last())
    } else {
        s
    }
}

/// `s` with leading and trailing whitespace removed.
pub open spec fn trim_spec(s: Seq<char>) -> Seq<char> {
    trim_end_spec(trim_start_spec(s))
}

proof fn lemma_trim_start_skip(s: Seq<char>, a: int)
    requires
        0 <= a <= s.len(),
        forall|j: int| 0 <= j < a ==> is_space(#[trigger] s[j]),
        a == s.len() || !is_space(s[a]),
    ensures
        trim_start_spec(s) == s.skip(a),
    decreases a,
{
    if a == 0 {
        assert(s.skip(0) =~= s);
    } else {
        lemma_trim_start_skip(s.drop_first(), a - 1);
        assert(s.drop_first().skip(a - 1) =~= s.skip(a));
    }
}

proof fn lemma_trim_end_take(s: Seq<char>, b: int)
    requires
        0 <= b <= s.len(),
        forall|j: int| b <= j < s.len() ==> is_space(#[trigger] s[j]),
        b == 0 || !is_space(s[b - 1]),
    ensures
        trim_end_spec(s) == s.take(b),
    decreases s.len(),
{
    if b == s.len() {
        assert(s.take(b) =~= s);
    } else {
        lemma_trim_end_take(s.drop_last(), b);
        assert(s.drop_last().take(b) =~= s.take(b));
    }
}

/// Removes leading and trailing ASCII whitespace.
pub fn trim(s: &str) -> (r: &str)
    ensures
        r@ == trim_spec(s@),
{
    let n = s.unicode_len();
    let mut a: usize = 0;
    while a < n && is_space_at(s, a)
        invariant
            a <= n,
            n == s@.len(),
            forall|j: int| 0 <= j < a ==> is_space(#[trigger] s@[j]),
        decreases n - a,
    {
        a += 1;
    }
    let mut b: usize = n;
    while b > a && is_space_at(s, b - 1)
        invariant
            a <= b <= n,
            n == s@.len(),
            forall|j: int| b <= j < n ==> is_space(#[trigger] s@[j]),
        decreases b,
    {
        b -= 1;
    }
    proof {
        lemma_trim_start_skip(s@, a as int);
        let t = s@.skip(a as int);
        if b == a {
            lemma_trim_end_take(t, 0);
        } else {
            assert(!is_space(t[b - a - 1]));
            lemma_trim_end_take(t, b - a);
        }
        assert(t.take(b - a) =~= s@.subrange(a as int, b as int));
    }
    s.substring_char(a, b)
}

proof fn lemma_dec_value_nonneg(s: Seq<char>)
    requires
        all_digits(s),
    ensures
        dec_value(s) >= 0,
    decreases s.len(),
{
    if s.len() > 0 {
        assert(all_digits(s.drop_last())) by {
            assert(forall|i: int|
                0 <= i < s.len() - 1 ==> #[trigger] s.drop_last()[i] == s[i]);
        }
        lemma_dec_value_nonneg(s.drop_last());
    }
}

proof fn lemma_dec_value_prefix_le(s: Seq<char>, i: int)
    requires
        all_digits(s),
        0 <= i <= s.len(),
    ensures
        dec_value(s.take(i)) <= dec_value(s),
    decreases s.len() - i,
{
    if i == s.len() {
        assert(s.take(i) =~= s);
    } else {
        assert(all_digits(s.take(i))) by {
            assert(forall|j: int| 0 <= j < i ==> #[trigger] s.take(i)[j] == s[j]);
        }
        lemma_dec_value_nonneg(s.take(i));
        assert(s.take(i + 1).drop_last() =~= s.take(i));
        assert(dec_value(s.take(i + 1)) == dec_value(s.take(i)) * 10 + digit_val(s[i]));
        lemma_dec_value_prefix_le(s, i + 1);
    }
}

/// Parses a decimal digit string. Returns the value exactly when the whole
/// input is one or more digits and the value fits a `usize`.
pub fn parse_usize(s: &str) -> (r: Option<usize>)
    ensures
        r is Some <==> (s@.len() > 0 && all_digits(s@) && dec_value(s@) <= usize::MAX),
        r is Some ==> r->0 == dec_value(s@),
{
    let n = s.unicode_len();
    if n == 0 {
        return None;
    }
    let mut acc: usize = 0;
    let mut i: usize = 0;
    while i < n
        invariant
            i <= n,
            n == s@.len(),
            all_digits(s@.take(i as int)),
            acc == dec_value(s@.take(i as int)),
        decreases n - i,
    {
        let c = s.get_char(i);
        proof {
            assert(s@.take(i as int + 1).drop_last() =~= s@.take(i as int));
            assert(s@.take(i as int + 1).last() == s@[i as int]);
        }
        match char_to_digit(c) {
            None => {
                assert(!all_digits(s@)) by {
                    assert(!is_digit(s@[i as int]));
                }
                return None;
            },
            Some(d) => {
                proof {
                    assert(all_digits(s@.take(i as int + 1))) by {
                        assert(forall|j: int|
                            0 <= j < i ==> #[trigger] s@.take(i as int + 1)[j] == s@.take(
                                i as int,
                            )[j]);
                    }
                }
                match acc.checked_mul(10) {
                    None => {
                        proof {
                            assert(dec_value(s@.take(i as int + 1)) > usize::MAX);
                            if all_digits(s@) {
                                lemma_dec_value_prefix_le(s@, i as int + 1);
                            }
                        }
                        return None;
                    },
                    Some(t) => {
                        match t.checked_add(d as usize) {
                            None => {
                                proof {
                                    assert(dec_value(s@.take(i as int + 1)) > usize::MAX);
                                    if all_digits(s@) {
                                        lemma_dec_value_prefix_le(s@, i as int + 1);
                                    }
                                }
                                return None;
                            },
                            Some(v) => {
                                acc = v;
                            },
                        }
                    },
                }
            },
        }
        i += 1;
    }
    proof {
        assert(s@.take(n as int) =~= s@);
        lemma_dec_value_nonneg(s@);
    }
    Some(acc)
}

} // verus!
