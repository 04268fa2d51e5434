//! Student identifiers ("ucids"): two ASCII letters followed by a decimal number,
//! such as `"jd042"`, and the integer key that the table stores for each of them.
use vstd::prelude::*;

verus! {

/// An ASCII letter of either case.
pub open spec fn is_ascii_letter(c: char) -> bool {
    ('a' <= c && c <= 'z') || ('A' <= c && c <= 'Z')
}

/// Position of an ASCII letter in the alphabet, ignoring case (`a` and `A` are 0).
pub open spec fn letter_value(c: char) -> int {
    if 'a' <= c && c <= 'z' {
        c as int - 'a' as int
    } else {
        c as int - 'A' as int
    }
}

pub open spec fn is_ascii_digit(c: char) -> bool {
    '0' <= c && c <= '9'
}

pub open spec fn all_digits(s: Seq<char>) -> bool {
    forall|i: int| 0 <= i < s.len() ==> #[trigger] is_ascii_digit(s[i])
}

/// The number that a string of decimal digits denotes.
pub open spec fn digits_value(s: Seq<char>) -> nat
    decreases s.len(),
{
    if s.len() == 0 {
        0
    } else {
        digits_value(s.drop_last()) * 10 + (s.last() as nat - '0' as nat) as nat
    }
}

/// The digits of a decimal numeral, without the one `+` sign it may start with.
pub open spec fn unsigned_digits(s: Seq<char>) -> Seq<char> {
    if s.len() > 0 && s[0] == '+' {
        s.drop_first()
    } else {
        s
    }
}

/// `s` is a decimal numeral that denotes a `u32`: an optional `+`, then at least one digit.
pub open spec fn is_u32_numeral(s: Seq<char>) -> bool {
    &&& unsigned_digits(s).len() > 0
    &&& all_digits(unsigned_digits(s))
    &&& digits_value(unsigned_digits(s)) <= u32::MAX
}

/// The number that the text after the two initials denotes.
pub open spec fn serial_value(s: Seq<char>) -> nat {
    digits_value(unsigned_digits(s.skip(2)))
}

/// The key of a ucid: both initials read as one base-26 number, times 26000, plus the serial.
pub open spec fn ucid_value(s: Seq<char>) -> int {
    (letter_value(s[0]) * 26 + letter_value(s[1])) * 26000 + serial_value(s)
}

/// `s` is a ucid whose key fits in a `u32`.
pub open spec fn is_ucid(s: Seq<char>) -> bool {
    &&& s.len() >= 2
    &&& is_ascii_letter(s[0])
    &&& is_ascii_letter(s[1])
    &&& is_u32_numeral(s.skip(2))
    &&& ucid_value(s) <= u32::MAX
}

/// The key of a ucid as the `u32` that the table stores.
pub open spec fn ucid_key(s: Seq<char>) -> u32 {
    ucid_value(s) as u32
}

/// A prefix of a digit string denotes at most what the whole string denotes.
pub proof fn lemma_digits_value_prefix(s: Seq<char>, k: int)
    requires
        all_digits(s),
        0 <= k <= s.len(),
    ensures
        digits_value(s.take(k)) <= digits_value(s),
    decreases s.len() - k,
{
    if k < s.len() {
        lemma_digits_value_prefix(s, k + 1);
        let t = s.take(k + 1);
        assert(t.drop_last() =~= s.take(k));
        assert(is_ascii_digit(s[k]));
    } else {
        assert(s.take(k) =~= s);
    }
}

/// A ucid in its usual form: two lowercase letters and a three-digit serial, like `ab123`.
pub open spec fn is_short_ucid(s: Seq<char>) -> bool {
    &&& s.len() == 5
    &&& 'a' <= s[0] && s[0] <= 'z'
    &&& 'a' <= s[1] && s[1] <= 'z'
    &&& is_ascii_digit(s[2])
    &&& is_ascii_digit(s[3])
    &&& is_ascii_digit(s[4])
}

/// A short ucid is a ucid, and its key is `(first * 26 + second) * 26000` plus its
/// three-digit serial.
proof fn lemma_short_ucid_value(s: Seq<char>)
    requires
        is_short_ucid(s),
    ensures
        is_ucid(s),
        ucid_value(s) == (letter_value(s[0]) * 26 + letter_value(s[1])) * 26000 + (s[2] as int
            - 48) * 100 + (s[3] as int - 48) * 10 + (s[4] as int - 48),
{
    let d = s.skip(2);
    assert(unsigned_digits(d) == d);
    assert(all_digits(d)) by {
        assert forall|i: int| 0 <= i < d.len() implies #[trigger] is_ascii_digit(d[i]) by {
            assert(d[i] == s[i + 2]);
        }
    }
    let d1 = d.drop_last().drop_last();
    assert(d1.len() == 1);
    assert(d1.last() == s[2]);
    assert(d1.drop_last() =~= Seq::<char>::empty());
    assert(digits_value(d1.drop_last()) == 0);
    assert(d.drop_last().last() == s[3]);
    assert(d.last() == s[4]);
    assert(digits_value(d1) == s[2] as int - 48);
    assert(digits_value(d.drop_last()) == (s[2] as int - 48) * 10 + (s[3] as int - 48));
    assert(digits_value(d) == ((s[2] as int - 48) * 10 + (s[3] as int - 48)) * 10 + (s[4] as int
        - 48));
    assert(serial_value(s) <= 999);
}

/// Distinct short ucids have distinct keys, and every key of a short ucid is at most
/// 17550999 (that of `zz999`).
pub proof fn lemma_short_ucids_distinct_keys(s1: Seq<char>, s2: Seq<char>)
    requires
        is_short_ucid(s1),
        is_short_ucid(s2),
        s1 != s2,
    ensures
        is_ucid(s1),
        is_ucid(s2),
        ucid_value(s1) != ucid_value(s2),
        ucid_value(s1) <= 17550999,
        ucid_value(s2) <= 17550999,
{
    lemma_short_ucid_value(s1);
    lemma_short_ucid_value(s2);
    let (a1, b1) = (letter_value(s1[0]), letter_value(s1[1]));
    let (a2, b2) = (letter_value(s2[0]), letter_value(s2[1]));
    let n1 = (s1[2] as int - 48) * 100 + (s1[3] as int - 48) * 10 + (s1[4] as int - 48);
    let n2 = (s2[2] as int - 48) * 100 + (s2[3] as int - 48) * 10 + (s2[4] as int - 48);
    if ucid_value(s1) == ucid_value(s2) {
        assert(a1 * 26 + b1 == a2 * 26 + b2 && n1 == n2) by (nonlinear_arith)
            requires
                0 <= n1 < 26000,
                0 <= n2 < 26000,
                (a1 * 26 + b1) * 26000 + n1 == (a2 * 26 + b2) * 26000 + n2,
        ;
        assert(a1 == a2 && b1 == b2) by (nonlinear_arith)
            requires
                0 <= b1 < 26,
                0 <= b2 < 26,
                a1 * 26 + b1 == a2 * 26 + b2,
        ;
        let (x0, x1, x2) = (s1[2] as int - 48, s1[3] as int - 48, s1[4] as int - 48);
        let (y0, y1, y2) = (s2[2] as int - 48, s2[3] as int - 48, s2[4] as int - 48);
        assert(x0 == y0 && x1 == y1 && x2 == y2) by (nonlinear_arith)
            requires
                0 <= x0 < 10,
                0 <= x1 < 10,
                0 <= x2 < 10,
                0 <= y0 < 10,
                0 <= y1 < 10,
                0 <= y2 < 10,
                x0 * 100 + x1 * 10 + x2 == y0 * 100 + y1 * 10 + y2,
        ;
        assert(s1 =~= s2);
    }
}

/// Reads an ASCII letter of either case as its position in the alphabet.
fn letter_index(c: char) -> (r: u32)
    requires
        is_ascii_letter(c),
    ensures
        r == letter_value(c),
        r < 26,
{
    if 'a' <= c && c <= 'z' {
        (c as u32) - ('a' as u32)
    } else {
        (c as u32) - ('A' as u32)
    }
}

/// The key of a ucid: `(first * 26 + second) * 26000 + serial`, where the initials
/// count from 0 in the alphabet (either case) and the serial is the decimal number
/// after them, which may carry one leading `+`.
pub fn ucid_to_int(ucid: &str) -> (r: u32)
    requires
        is_ucid(ucid@),
    ensures
        r == ucid_value(ucid@),
{
    let len = ucid.unicode_len();
    let first = letter_index(ucid.get_char(0));
    let second = letter_index(ucid.get_char(1));
    let ghost tail = ucid@.skip(2);
    let mut start: usize = 2;
    if len > 2 && ucid.get_char(2) == '+' {
        start = 3;
    }
    let ghost digits = unsigned_digits(tail);
    assert(digits =~= ucid@.skip(start as int));
    let mut serial: u32 = 0;
    let mut j: usize = start;
    while j < len
        invariant
            len == ucid@.len(),
            start <= j <= len,
            digits =~= ucid@.skip(start as int),
            all_digits(digits),
            digits_value(digits) <= u32::MAX,
            serial == digits_value(digits.take(j - start)),
        decreases len - j,
    {
        let c = ucid.get_char(j);
        let ghost k: int = j - start;
        assert(c == digits[k]);
        assert(is_ascii_digit(digits[k]));
        proof {
            lemma_digits_value_prefix(digits, k + 1);
            assert(digits.take(k + 1).drop_last() =~= digits.take(k));
        }
        serial = serial * 10 + ((c as u32) - ('0' as u32));
        j = j + 1;
    }
    assert(digits.take(len - start) =~= digits);
    (first * 26 + second) * 26 * 10 * 10 * 10 + serial
}

} // verus!
