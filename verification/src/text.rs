//! Verified helpers for character sequences: comparison, splitting,
//! decimal parsing and decimal formatting.

use vstd::prelude::*;

verus! {

/// Whether `c` is a decimal digit.
pub open spec fn is_digit(c: char) -> bool {
    '0' <= c && c <= '9'
}

/// Numeric value of a decimal digit.
pub open spec fn digit_value(c: char) -> nat {
    (c as u32 - '0' as u32) as nat
}

/// Whether every character of `s` is a decimal digit.
pub open spec fn all_digits(s: Seq<char>) -> bool {
    forall|i: int| 0 <= i < s.len() ==> is_digit(#[trigger] s[i])
}

/// Value of a digit string, most significant digit first.
pub open spec fn digits_value(s: Seq<char>) -> nat
    decreases s.len(),
{
    if s.len() == 0 {
        0
    } else {
        digits_value(s.drop_last()) * 10 + digit_value(s.last())
    }
}

/// What `str::parse::<u32>` returns: an optional leading `+`, then at
/// least one digit, and a value that fits.
pub open spec fn parse_u32_s(s: Seq<char>) -> Option<u32> {
    let digits = if s.len() > 0 && s[0] == '+' {
        s.drop_first()
    } else {
        s
    };
    if digits.len() == 0 || !all_digits(digits) {
        None
    } else if digits_value(digits) > u32::MAX {
        None
    } else {
        Some(digits_value(digits) as u32)
    }
}

/// What `str::parse::<i32>` returns: an optional sign, then at least one
/// digit, and a value that fits.
pub open spec fn parse_i32_s(s: Seq<char>) -> Option<i32> {
    if s.len() > 0 && s[0] == '-' {
        let digits = s.drop_first();
        if digits.len() == 0 || !all_digits(digits) {
            None
        } else if digits_value(digits) > 0x8000_0000 {
            None
        } else {
            Some((0 - digits_value(digits)) as i32)
        }
    } else {
        let digits = if s.len() > 0 && s[0] == '+' {
            s.drop_first()
        } else {
            s
        };
        if digits.len() == 0 || !all_digits(digits) {
            None
        } else if digits_value(digits) > i32::MAX {
            None
        } else {
            Some(digits_value(digits) as i32)
        }
    }
}

/// Alias used by contracts that speak about `MAINPID` values.
pub open spec fn parse_i32(s: Seq<char>) -> Option<i32> {
    parse_i32_s(s)
}

/// A longer digit string never has a smaller value.
proof fn lemma_digits_value_prefix(s: Seq<char>, n: int)
    requires
        0 <= n <= s.len(),
    ensures
        digits_value(s.subrange(0, n)) <= digits_value(s),
    decreases s.len() - n,
{
    if n < s.len() {
        lemma_digits_value_prefix(s, n + 1);
        assert(s.subrange(0, n + 1).drop_last() =~= s.subrange(0, n));
        assert(digits_value(s.subrange(0, n)) <= digits_value(s.subrange(0, n + 1)));
    } else {
        assert(s.subrange(0, n) =~= s);
    }
}

/// Compare two string slices character by character.
pub fn str_eq(a: &str, b: &str) -> (r: bool)
    ensures
        r == (a@ == b@),
{
    let a_len = a.unicode_len();
    let b_len = b.unicode_len();
    if a_len != b_len {
        assert(a@ != b@);
        return false;
    }
    let mut i: usize = 0;
    while i < a_len
        invariant
            a_len == a@.len(),
            b_len == b@.len(),
            a_len == b_len,
            0 <= i <= a_len,
            forall|j: int| 0 <= j < i ==> a@[j] == b@[j],
        decreases a_len - i,
    {
        if a.get_char(i) != b.get_char(i) {
            assert(a@ != b@);
            return false;
        }
        i += 1;
    }
    assert(a@ =~= b@);
    true
}

/// Strict lexicographic order on character sequences, by code point.
pub open spec fn str_lt(a: Seq<char>, b: Seq<char>) -> bool
    decreases a.len(),
{
    if b.len() == 0 {
        false
    } else if a.len() == 0 {
        true
    } else if a[0] != b[0] {
        a[0] < b[0]
    } else {
        str_lt(a.drop_first(), b.drop_first())
    }
}

/// The order is total: two unequal sequences compare one way or the other.
pub proof fn lemma_str_lt_total(a: Seq<char>, b: Seq<char>)
    ensures
        str_lt(a, b) || str_lt(b, a) || a == b,
    decreases a.len(),
{
    if a.len() != 0 && b.len() != 0 && a[0] == b[0] {
        lemma_str_lt_total(a.drop_first(), b.drop_first());
        if a.drop_first() == b.drop_first() {
            assert forall|i: int| 0 <= i < a.len() implies a[i] == b[i] by {
                if i > 0 {
                    assert(a[i] == a.drop_first()[i - 1]);
                    assert(b[i] == b.drop_first()[i - 1]);
                }
            }
            assert(a =~= b);
        }
    }
}

/// The order is irreflexive and asymmetric.
pub proof fn lemma_str_lt_asymmetric(a: Seq<char>, b: Seq<char>)
    ensures
        !(str_lt(a, b) && str_lt(b, a)),
        !str_lt(a, a),
    decreases a.len(),
{
    if a.len() != 0 && b.len() != 0 && a[0] == b[0] {
        lemma_str_lt_asymmetric(a.drop_first(), b.drop_first());
    }
    if a.len() != 0 {
        lemma_str_lt_asymmetric(a.drop_first(), a.drop_first());
    }
}

/// The order is transitive.
pub proof fn lemma_str_lt_transitive(a: Seq<char>, b: Seq<char>, c: Seq<char>)
    requires
        str_lt(a, b),
        str_lt(b, c),
    ensures
        str_lt(a, c),
    decreases a.len(),
{
    if c.len() != 0 && a.len() != 0 {
        if a[0] == b[0] && b[0] == c[0] {
            lemma_str_lt_transitive(a.drop_first(), b.drop_first(), c.drop_first());
        }
    }
}

/// Decide the lexicographic order on two string slices.
pub fn str_lt_exec(a: &str, b: &str) -> (r: bool)
    ensures
        r == str_lt(a@, b@),
{
    let a_len = a.unicode_len();
    let b_len = b.unicode_len();
    let mut i: usize = 0;
    proof {
        assert(a@.skip(0) =~= a@);
        assert(b@.skip(0) =~= b@);
    }
    loop
        invariant
            a_len == a@.len(),
            b_len == b@.len(),
            0 <= i <= a_len,
            0 <= i <= b_len,
            forall|j: int| 0 <= j < i ==> a@[j] == b@[j],
            str_lt(a@, b@) == str_lt(a@.skip(i as int), b@.skip(i as int)),
        decreases a_len - i,
    {
        if i == b_len {
            assert(b@.skip(i as int).len() == 0);
            return false;
        }
        if i == a_len {
            assert(a@.skip(i as int).len() == 0);
            return true;
        }
        let ca = a.get_char(i);
        let cb = b.get_char(i);
        if ca != cb {
            assert(a@.skip(i as int)[0] == ca && b@.skip(i as int)[0] == cb);
            return ca < cb;
        }
        proof {
            assert(a@.skip(i as int).drop_first() =~= a@.skip(i + 1));
            assert(b@.skip(i as int).drop_first() =~= b@.skip(i + 1));
        }
        i += 1;
    }
}

/// Parse a `u32` the way `str::parse` does.
pub fn parse_u32_exec(s: &str) -> (r: Option<u32>)
    ensures
        r == parse_u32_s(s@),
{
    let len = s.unicode_len();
    let ghost digits: Seq<char> = if s@.len() > 0 && s@[0] == '+' {
        s@.drop_first()
    } else {
        s@
    };
    let mut i: usize = 0;
    if len > 0 && s.get_char(0) == '+' {
        i = 1;
    }
    if i == len {
        proof {
            assert(digits.len() == 0);
        }
        return None;
    }
    let start: usize = i;
    let mut acc: u32 = 0;
    while i < len
        invariant
            len == s@.len(),
            start <= i <= len,
            start == if s@.len() > 0 && s@[0] == '+' { 1int } else { 0int },
            digits == s@.skip(start as int),
            start < len,
            forall|j: int| start <= j < i ==> is_digit(#[trigger] s@[j]),
            acc == digits_value(s@.subrange(start as int, i as int)),
        decreases len - i,
    {
        let c = s.get_char(i);
        proof {
            let pd = if s@.len() > 0 && s@[0] == '+' { s@.drop_first() } else { s@ };
            assert(pd =~= digits);
        }
        if c < '0' || c > '9' {
            proof {
                assert(digits[i - start] == s@[i as int]);
                assert(!is_digit(digits[i - start]));
            }
            return None;
        }
        let d: u32 = (c as u32) - ('0' as u32);
        assert(d == digit_value(s@[i as int]) && d <= 9);
        proof {
            assert(s@.subrange(start as int, i + 1).drop_last() =~= s@.subrange(
                start as int,
                i as int,
            ));
        }
        if acc > (u32::MAX - d) / 10 {
            proof {
                let full = s@.subrange(start as int, i + 1);
                assert(full.last() == s@[i as int]);
                assert(digits_value(full) == acc * 10 + d);
                assert(acc * 10 + d > u32::MAX) by (nonlinear_arith)
                    requires
                        acc > (u32::MAX - d) / 10,
                        d < 10,
                ;
                lemma_digits_value_prefix(digits, i + 1 - start);
                assert(digits.subrange(0, i + 1 - start) =~= full);
                assert(digits_value(digits) > u32::MAX);
            }
            return None;
        }
        acc = acc * 10 + d;
        i += 1;
    }
    proof {
        assert(s@.subrange(start as int, len as int) =~= digits);
        let pd = if s@.len() > 0 && s@[0] == '+' { s@.drop_first() } else { s@ };
        assert(pd =~= digits);
        assert forall|k: int| 0 <= k < digits.len() implies is_digit(#[trigger] digits[k]) by {
            assert(digits[k] == s@[start + k]);
        }
    }
    Some(acc)
}

/// Parse an `i32` the way `str::parse` does.
pub fn parse_i32_exec(s: &str) -> (r: Option<i32>)
    ensures
        r == parse_i32_s(s@),
{
    let len = s.unicode_len();
    if len > 0 && s.get_char(0) == '-' {
        let ghost digits = s@.drop_first();
        let rest = s.substring_char(1, len);
        assert(rest@ =~= digits);
        match parse_u32_magnitude(rest) {
            None => None,
            Some(v) => {
                if v > 0x8000_0000u32 {
                    None
                } else if v == 0x8000_0000u32 {
                    Some(i32::MIN)
                } else {
                    Some(0i32 - (v as i32))
                }
            },
        }
    } else {
        let ghost digits: Seq<char> = if s@.len() > 0 && s@[0] == '+' {
            s@.drop_first()
        } else {
            s@
        };
        let rest = if len > 0 && s.get_char(0) == '+' {
            s.substring_char(1, len)
        } else {
            s.substring_char(0, len)
        };
        proof {
            assert(rest@ =~= digits);
        }
        match parse_u32_magnitude(rest) {
            None => None,
            Some(v) => {
                if v > i32::MAX as u32 {
                    None
                } else {
                    Some(v as i32)
                }
            },
        }
    }
}

/// Parse a bare digit string into its value, refusing values above `u32::MAX`.
fn parse_u32_magnitude(s: &str) -> (r: Option<u32>)
    ensures
        match r {
            Some(v) => s@.len() > 0 && all_digits(s@) && digits_value(s@) == v,
            None => s@.len() == 0 || !all_digits(s@) || digits_value(s@) > u32::MAX,
        },
{
    let len = s.unicode_len();
    if len == 0 {
        return None;
    }
    let mut acc: u32 = 0;
    let mut i: usize = 0;
    while i < len
        invariant
            len == s@.len(),
            0 <= i <= len,
            forall|j: int| 0 <= j < i ==> is_digit(#[trigger] s@[j]),
            acc == digits_value(s@.subrange(0, i as int)),
        decreases len - i,
    {
        let c = s.get_char(i);
        if c < '0' || c > '9' {
            return None;
        }
        let d: u32 = (c as u32) - ('0' as u32);
        assert(d == digit_value(s@[i as int]) && d <= 9);
        proof {
            assert(s@.subrange(0, i + 1).drop_last() =~= s@.subrange(0, i as int));
        }
        if acc > (u32::MAX - d) / 10 {
            proof {
                let full = s@.subrange(0, i + 1);
                assert(digits_value(full) == acc * 10 + d);
                lemma_digits_value_prefix(s@, i + 1);
                assert(s@.subrange(0, i + 1) =~= full);
            }
            return None;
        }
        acc = acc * 10 + d;
        i += 1;
    }
    assert(s@.subrange(0, len as int) =~= s@);
    Some(acc)
}

/// Decimal digit sequence of a value, most significant digit first.
pub open spec fn dec_digits(v: nat) -> Seq<char>
    decreases v,
{
    if v < 10 {
        seq![digit_char(v)]
    } else {
        dec_digits(v / 10) + seq![digit_char(v % 10)]
    }
}

/// The digit character for a value below ten.
pub open spec fn digit_char(v: nat) -> char {
    if v == 0 {
        '0'
    } else if v == 1 {
        '1'
    } else if v == 2 {
        '2'
    } else if v == 3 {
        '3'
    } else if v == 4 {
        '4'
    } else if v == 5 {
        '5'
    } else if v == 6 {
        '6'
    } else if v == 7 {
        '7'
    } else if v == 8 {
        '8'
    } else {
        '9'
    }
}

/// Append the textual form of a digit to a string.
fn append_digit(out: &mut String, d: u32)
    requires
        d < 10,
    ensures
        final(out)@ == old(out)@ + seq![digit_char(d as nat)],
{
    let piece = match d {
        0 => "0",
        1 => "1",
        2 => "2",
        3 => "3",
        4 => "4",
        5 => "5",
        6 => "6",
        7 => "7",
        8 => "8",
        _ => "9",
    };
    proof {
        reveal_strlit("0");
        reveal_strlit("1");
        reveal_strlit("2");
        reveal_strlit("3");
        reveal_strlit("4");
        reveal_strlit("5");
        reveal_strlit("6");
        reveal_strlit("7");
        reveal_strlit("8");
        reveal_strlit("9");
        assert(piece@ =~= seq![digit_char(d as nat)]);
    }
    out.append(piece);
}

/// Format a value in decimal.
pub fn u32_to_string(v: u32) -> (r: String)
    ensures
        r@ == dec_digits(v as nat),
{
    let mut out = String::new();
    append_u32(&mut out, v);
    out
}

/// Append the decimal form of a value to a string.
pub fn append_u32(out: &mut String, v: u32)
    ensures
        final(out)@ == old(out)@ + dec_digits(v as nat),
    decreases v,
{
    if v < 10 {
        append_digit(out, v);
    } else {
        append_u32(out, v / 10);
        append_digit(out, v % 10);
        proof {
            assert(old(out)@ + dec_digits((v / 10) as nat) + seq![digit_char((v % 10) as nat)]
                =~= old(out)@ + dec_digits(v as nat));
        }
    }
}

/// The digits of a value parse back to the value.
pub proof fn lemma_dec_digits_roundtrip(v: nat)
    ensures
        all_digits(dec_digits(v)),
        digits_value(dec_digits(v)) == v,
        dec_digits(v).len() >= 1,
        dec_digits(v)[0] != '+',
    decreases v,
{
    if v < 10 {
        let s = dec_digits(v);
        assert(s =~= seq![digit_char(v)]);
        assert(s.drop_last() =~= Seq::<char>::empty());
        assert(digits_value(s.drop_last()) == 0);
        assert(s.last() == digit_char(v));
        assert(digit_value(digit_char(v)) == v);
    } else {
        lemma_dec_digits_roundtrip(v / 10);
        let s = dec_digits(v);
        assert(s.drop_last() =~= dec_digits(v / 10));
        assert(s.last() == digit_char(v % 10));
        assert(digit_value(digit_char(v % 10)) == v % 10);
        assert(forall|i: int| 0 <= i < s.len() - 1 ==> s[i] == dec_digits(v / 10)[i]);
        assert(all_digits(s));
    }
}

/// Pieces of `s` between occurrences of `sep`, with `cur` the piece
/// begun so far.
pub open spec fn split_rec(s: Seq<char>, sep: char, cur: Seq<char>) -> Seq<Seq<char>>
    decreases s.len(),
{
    if s.len() == 0 {
        seq![cur]
    } else if s[0] == sep {
        seq![cur] + split_rec(s.drop_first(), sep, seq![])
    } else {
        split_rec(s.drop_first(), sep, cur.push(s[0]))
    }
}

/// What `str::split(sep)` yields: the pieces between separators,
/// empty pieces included.
pub open spec fn spec_split(s: Seq<char>, sep: char) -> Seq<Seq<char>> {
    split_rec(s, sep, Seq::empty())
}

/// Splitting yields at least one piece.
pub proof fn lemma_split_rec_len(s: Seq<char>, sep: char, cur: Seq<char>)
    ensures
        split_rec(s, sep, cur).len() >= 1,
    decreases s.len(),
{
    if s.len() != 0 {
        if s[0] == sep {
            lemma_split_rec_len(s.drop_first(), sep, Seq::empty());
        } else {
            lemma_split_rec_len(s.drop_first(), sep, cur.push(s[0]));
        }
    }
}

/// Split a string at every occurrence of `sep`.
pub fn split_on(s: &str, sep: char) -> (r: Vec<String>)
    ensures
        r.deep_view() == spec_split(s@, sep),
        r.len() >= 1,
{
    let len = s.unicode_len();
    let mut r: Vec<String> = Vec::new();
    let mut start: usize = 0;
    let mut i: usize = 0;
    proof {
        assert(s@.skip(0) =~= s@);
        assert(s@.subrange(0, 0) =~= Seq::<char>::empty());
        assert(r.deep_view() =~= Seq::<Seq<char>>::empty());
    }
    while i < len
        invariant
            len == s@.len(),
            0 <= start <= i <= len,
            spec_split(s@, sep) == r.deep_view() + split_rec(
                s@.skip(i as int),
                sep,
                s@.subrange(start as int, i as int),
            ),
        decreases len - i,
    {
        let c = s.get_char(i);
        proof {
            assert(s@.skip(i as int)[0] == s@[i as int]);
            assert(s@.skip(i as int).drop_first() =~= s@.skip(i + 1));
        }
        if c == sep {
            let piece = s.substring_char(start, i).to_owned();
            proof {
                assert(piece@ =~= s@.subrange(start as int, i as int));
                assert(s@.subrange(i + 1, i + 1) =~= Seq::<char>::empty());
            }
            let ghost old_r = r.deep_view();
            r.push(piece);
            proof {
                assert(r.deep_view() =~= old_r.push(piece@));
                assert(old_r.push(piece@) =~= old_r + seq![s@.subrange(start as int, i as int)]);
            }
            start = i + 1;
        } else {
            proof {
                assert(s@.subrange(start as int, i as int).push(s@[i as int]) =~= s@.subrange(
                    start as int,
                    i + 1,
                ));
            }
        }
        i += 1;
    }
    let piece = s.substring_char(start, len).to_owned();
    proof {
        assert(piece@ =~= s@.subrange(start as int, len as int));
        assert(s@.skip(len as int).len() == 0);
    }
    let ghost old_r = r.deep_view();
    r.push(piece);
    proof {
        assert(r.deep_view() =~= old_r.push(piece@));
        assert(old_r.push(piece@) =~= old_r + seq![s@.subrange(start as int, len as int)]);
    }
    r
}

/// Whether `c` has the White_Space property `str::split_whitespace`
/// splits at.
pub open spec fn is_space(c: char) -> bool {
    ||| c == ' '
    ||| c == '\t'
    ||| c == '\n'
    ||| c == '\r'
    ||| c == '\u{b}'
    ||| c == '\u{c}'
    ||| c == '\u{85}'
    ||| c == '\u{a0}'
    ||| c == '\u{1680}'
    ||| ('\u{2000}' <= c && c <= '\u{200a}')
    ||| c == '\u{2028}'
    ||| c == '\u{2029}'
    ||| c == '\u{202f}'
    ||| c == '\u{205f}'
    ||| c == '\u{3000}'
}

/// Decide the White_Space property.
pub fn is_space_exec(c: char) -> (r: bool)
    ensures
        r == is_space(c),
{
    c == ' ' || c == '\t' || c == '\n' || c == '\r' || c == '\u{b}' || c == '\u{c}' || c
        == '\u{85}' || c == '\u{a0}' || c == '\u{1680}' || ('\u{2000}' <= c && c <= '\u{200a}')
        || c == '\u{2028}' || c == '\u{2029}' || c == '\u{202f}' || c == '\u{205f}' || c
        == '\u{3000}'
}

/// Pieces of `s` between whitespace runs, empty pieces included.
pub open spec fn split_ws_rec(s: Seq<char>, cur: Seq<char>) -> Seq<Seq<char>>
    decreases s.len(),
{
    if s.len() == 0 {
        seq![cur]
    } else if is_space(s[0]) {
        seq![cur] + split_ws_rec(s.drop_first(), seq![])
    } else {
        split_ws_rec(s.drop_first(), cur.push(s[0]))
    }
}

/// What `str::split_whitespace` yields: the non-empty pieces between
/// whitespace runs.
pub open spec fn spec_fields(s: Seq<char>) -> Seq<Seq<char>> {
    split_ws_rec(s, Seq::empty()).filter(|p: Seq<char>| p.len() > 0)
}

/// Split a string at whitespace, dropping empty pieces.
pub fn fields(s: &str) -> (r: Vec<String>)
    ensures
        r.deep_view() == spec_fields(s@),
{
    broadcast use vstd::seq_lib::group_filter_ensures;

    let ghost pred = |p: Seq<char>| p.len() > 0;
    let len = s.unicode_len();
    let mut r: Vec<String> = Vec::new();
    let mut start: usize = 0;
    let mut i: usize = 0;
    proof {
        assert(s@.skip(0) =~= s@);
        assert(s@.subrange(0, 0) =~= Seq::<char>::empty());
        assert(r.deep_view() =~= Seq::<Seq<char>>::empty());
    }
    while i < len
        invariant
            len == s@.len(),
            0 <= start <= i <= len,
            spec_fields(s@) == r.deep_view() + split_ws_rec(
                s@.skip(i as int),
                s@.subrange(start as int, i as int),
            ).filter(|p: Seq<char>| p.len() > 0),
        decreases len - i,
    {
        let c = s.get_char(i);
        proof {
            assert(s@.skip(i as int)[0] == s@[i as int]);
            assert(s@.skip(i as int).drop_first() =~= s@.skip(i + 1));
        }
        if is_space_exec(c) {
            let ghost cur = s@.subrange(start as int, i as int);
            let ghost rest = split_ws_rec(s@.skip(i + 1), Seq::empty());
            proof {
                reveal_with_fuel(Seq::<Seq<char>>::filter, 2);
                Seq::filter_distributes_over_add(seq![cur], rest, |p: Seq<char>| p.len() > 0);
                assert(Seq::<Seq<char>>::empty().filter(|p: Seq<char>| p.len() > 0) =~= Seq::<
                    Seq<char>,
                >::empty());
                assert(seq![cur].drop_last() =~= Seq::<Seq<char>>::empty());
                assert(seq![cur].filter(|p: Seq<char>| p.len() > 0) =~= if cur.len() > 0 {
                    seq![cur]
                } else {
                    Seq::<Seq<char>>::empty()
                });
                assert(s@.subrange(i + 1, i + 1) =~= Seq::<char>::empty());
            }
            if start < i {
                let piece = s.substring_char(start, i).to_owned();
                proof {
                    assert(piece@ =~= cur);
                }
                let ghost old_r = r.deep_view();
                r.push(piece);
                proof {
                    assert(r.deep_view() =~= old_r.push(piece@));
                    assert(old_r.push(piece@) =~= old_r + seq![cur]);
                }
            } else {
                proof {
                    assert(cur.len() == 0);
                    assert(r.deep_view() + (Seq::<Seq<char>>::empty() + rest.filter(
                        |p: Seq<char>| p.len() > 0,
                    )) =~= r.deep_view() + rest.filter(|p: Seq<char>| p.len() > 0));
                }
            }
            start = i + 1;
        } else {
            proof {
                assert(s@.subrange(start as int, i as int).push(s@[i as int]) =~= s@.subrange(
                    start as int,
                    i + 1,
                ));
            }
        }
        i += 1;
    }
    let ghost cur = s@.subrange(start as int, len as int);
    proof {
        reveal_with_fuel(Seq::<Seq<char>>::filter, 2);
        assert(s@.skip(len as int).len() == 0);
        assert(split_ws_rec(s@.skip(len as int), cur) =~= seq![cur]);
        assert(Seq::<Seq<char>>::empty().filter(|p: Seq<char>| p.len() > 0) =~= Seq::<
            Seq<char>,
        >::empty());
        assert(seq![cur].drop_last() =~= Seq::<Seq<char>>::empty());
        assert(seq![cur].filter(|p: Seq<char>| p.len() > 0) =~= if cur.len() > 0 {
            seq![cur]
        } else {
            Seq::<Seq<char>>::empty()
        });
    }
    if start < len {
        let piece = s.substring_char(start, len).to_owned();
        proof {
            assert(piece@ =~= cur);
        }
        let ghost old_r = r.deep_view();
        r.push(piece);
        proof {
            assert(r.deep_view() =~= old_r.push(piece@));
            assert(old_r.push(piece@) =~= old_r + seq![cur]);
        }
    } else {
        proof {
            assert(r.deep_view() + Seq::<Seq<char>>::empty() =~= r.deep_view());
        }
    }
    r
}

/// No character of `s` is the separator.
pub open spec fn no_sep(s: Seq<char>, sep: char) -> bool {
    forall|i: int| 0 <= i < s.len() ==> s[i] != sep
}

/// Splitting a separator-free piece yields it whole, appended to what
/// was begun.
pub proof fn lemma_split_rec_no_sep(s: Seq<char>, sep: char, cur: Seq<char>)
    requires
        no_sep(s, sep),
    ensures
        split_rec(s, sep, cur) == seq![cur + s],
    decreases s.len(),
{
    if s.len() == 0 {
        assert(cur + s =~= cur);
    } else {
        assert(no_sep(s.drop_first(), sep)) by {
            assert forall|i: int|
                0 <= i < s.drop_first().len() implies s.drop_first()[i] != sep by {
                assert(s.drop_first()[i] == s[i + 1]);
            }
        }
        lemma_split_rec_no_sep(s.drop_first(), sep, cur.push(s[0]));
        assert(cur.push(s[0]) + s.drop_first() =~= cur + s);
    }
}

/// Splitting around one separator cuts exactly there when the front
/// piece is separator-free.
pub proof fn lemma_split_rec_cut(x: Seq<char>, y: Seq<char>, sep: char, cur: Seq<char>)
    requires
        no_sep(x, sep),
    ensures
        split_rec(x + seq![sep] + y, sep, cur) == seq![cur + x] + split_rec(y, sep, Seq::empty()),
    decreases x.len(),
{
    let s = x + seq![sep] + y;
    if x.len() == 0 {
        assert(s[0] == sep);
        assert(s.drop_first() =~= y);
        assert(cur + x =~= cur);
    } else {
        assert(s[0] == x[0]);
        assert(no_sep(x.drop_first(), sep)) by {
            assert forall|i: int|
                0 <= i < x.drop_first().len() implies x.drop_first()[i] != sep by {
                assert(x.drop_first()[i] == x[i + 1]);
            }
        }
        lemma_split_rec_cut(x.drop_first(), y, sep, cur.push(x[0]));
        assert(s.drop_first() =~= x.drop_first() + seq![sep] + y);
        assert(cur.push(x[0]) + x.drop_first() =~= cur + x);
    }
}

} // verus!
