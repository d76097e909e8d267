use vstd::prelude::*;
use vstd::string::StringExecFns;

verus! {

/// Whether two texts hold the same characters.
pub fn text_eq(a: &str, b: &str) -> (same: bool)
    ensures
        same == (a@ == b@),
{
    let left = a.to_owned();
    let right = b.to_owned();
    left == right
}

/// Whether `a` comes before `b` in the order of texts: by the first character in which they
/// differ, and a text before every longer text that begins with it.
pub open spec fn comes_before(a: Seq<char>, b: Seq<char>) -> bool
    decreases a.len(),
{
    if b.len() == 0 {
        false
    } else if a.len() == 0 {
        true
    } else if a[0] == b[0] {
        comes_before(a.skip(1), b.skip(1))
    } else {
        a[0] < b[0]
    }
}

/// No text comes before itself.
pub proof fn lemma_order_irreflexive(a: Seq<char>)
    ensures
        !comes_before(a, a),
    decreases a.len(),
{
    if a.len() > 0 {
        lemma_order_irreflexive(a.skip(1));
    }
}

/// Of two texts that differ, one comes before the other, and not both.
pub proof fn lemma_order_total(a: Seq<char>, b: Seq<char>)
    ensures
        a != b ==> comes_before(a, b) || comes_before(b, a),
        !(comes_before(a, b) && comes_before(b, a)),
    decreases a.len(),
{
    if a.len() > 0 && b.len() > 0 {
        if a[0] == b[0] {
            lemma_order_total(a.skip(1), b.skip(1));
            if a.skip(1) == b.skip(1) {
                assert(a =~= seq![a[0]] + a.skip(1));
                assert(b =~= seq![b[0]] + b.skip(1));
            }
        }
    } else if a.len() == 0 && b.len() == 0 {
        assert(a =~= b);
    }
}

/// What comes before a text comes before all that the text comes before.
pub proof fn lemma_order_transitive(a: Seq<char>, b: Seq<char>, c: Seq<char>)
    requires
        comes_before(a, b),
        comes_before(b, c),
    ensures
        comes_before(a, c),
    decreases a.len(),
{
    if a.len() > 0 && b.len() > 0 && c.len() > 0 {
        if a[0] == b[0] && b[0] == c[0] {
            lemma_order_transitive(a.skip(1), b.skip(1), c.skip(1));
        }
    }
}

/// Whether `a` comes before `b` in the order of texts.
pub fn text_before(a: &str, b: &str) -> (before: bool)
    ensures
        before == comes_before(a@, b@),
{
    let m = a.unicode_len();
    let n = b.unicode_len();
    let mut i: usize = 0;
    assert(a@.skip(0) =~= a@ && b@.skip(0) =~= b@);
    while i < m && i < n
        invariant
            m == a@.len(),
            n == b@.len(),
            i <= m,
            i <= n,
            comes_before(a@, b@) == comes_before(a@.skip(i as int), b@.skip(i as int)),
        decreases m - i,
    {
        let x = a.get_char(i);
        let y = b.get_char(i);
        proof {
            let left = a@.skip(i as int);
            let right = b@.skip(i as int);
            assert(left[0] == x && right[0] == y);
            assert(left.skip(1) =~= a@.skip(i + 1));
            assert(right.skip(1) =~= b@.skip(i + 1));
        }
        if x != y {
            return x < y;
        }
        i = i + 1;
    }
    i < n
}

/// The position of the first occurrence of `c` in `s`, or the length of `s` where there is none.
pub open spec fn position_of(s: Seq<char>, c: char) -> int
    decreases s.len(),
{
    if s.len() == 0 || s[0] == c {
        0
    } else {
        1 + position_of(s.skip(1), c)
    }
}

pub proof fn lemma_position_of(s: Seq<char>, c: char)
    ensures
        0 <= position_of(s, c) <= s.len(),
        forall|i: int| 0 <= i < position_of(s, c) ==> s[i] != c,
        position_of(s, c) < s.len() ==> s[position_of(s, c)] == c,
    decreases s.len(),
{
    if s.len() == 0 || s[0] == c {
    } else {
        lemma_position_of(s.skip(1), c);
        let p = position_of(s.skip(1), c);
        assert forall|i: int| 0 <= i < 1 + p implies s[i] != c by {
            if i > 0 {
                assert(s.skip(1)[i - 1] == s[i]);
            }
        }
        if 1 + p < s.len() {
            assert(s.skip(1)[p] == s[1 + p]);
        }
    }
}

/// If no character before `p` is `c`, and `p` is the end of `s` or holds `c`, then `p` is
/// the position of `c` in `s`.
pub proof fn lemma_position_of_is(s: Seq<char>, c: char, p: int)
    requires
        0 <= p <= s.len(),
        forall|i: int| 0 <= i < p ==> s[i] != c,
        p < s.len() ==> s[p] == c,
    ensures
        position_of(s, c) == p,
    decreases s.len(),
{
    if s.len() == 0 || s[0] == c {
    } else {
        assert forall|i: int| 0 <= i < p - 1 implies s.skip(1)[i] != c by {
            assert(s.skip(1)[i] == s[i + 1]);
        }
        lemma_position_of_is(s.skip(1), c, p - 1);
    }
}

/// Counts the characters of `s` before the first occurrence of `c`; with none, all of them.
pub fn find_char(s: &str, c: char) -> (at: usize)
    ensures
        at == position_of(s@, c),
{
    let len = s.unicode_len();
    let mut i: usize = 0;
    while i < len
        invariant
            len == s@.len(),
            i <= len,
            forall|j: int| 0 <= j < i ==> s@[j] != c,
        decreases len - i,
    {
        if s.get_char(i) == c {
            proof {
                lemma_position_of_is(s@, c, i as int);
            }
            return i;
        }
        i = i + 1;
    }
    proof {
        lemma_position_of_is(s@, c, i as int);
    }
    i
}

/// `String::push`: the character comes behind the text.
#[verifier::external_body]
fn push_char(text: &mut String, c: char)
    ensures
        final(text)@ == old(text)@.push(c),
{
    text.push(c)
}

/// The text that holds the one character.
pub(crate) fn char_text(c: char) -> (text: String)
    ensures
        text@ == seq![c],
{
    let mut text = String::new();
    push_char(&mut text, c);
    assert(text@ =~= seq![c]);
    text
}

/// Whether `c` is one of the ten decimal digits.
pub open spec fn is_digit(c: char) -> bool {
    48 <= c as u32 <= 57
}

/// Whether `s` holds decimal digits and nothing else.
pub open spec fn all_digits(s: Seq<char>) -> bool {
    forall|i: int| 0 <= i < s.len() ==> is_digit(#[trigger] s[i])
}

/// The number that the decimal digits `s` write.
pub open spec fn digits_value(s: Seq<char>) -> nat
    decreases s.len(),
{
    if s.len() == 0 {
        0
    } else {
        digits_value(s.drop_last()) * 10 + (s.last() as u32 - 48) as nat
    }
}

/// The number that a run of at least one digit writes.
pub open spec fn unsigned_value(s: Seq<char>) -> Option<int> {
    if s.len() > 0 && all_digits(s) {
        Some(digits_value(s) as int)
    } else {
        None
    }
}

/// The integer that `s` writes in decimal: digits, with `+` before them if one likes, or,
/// for a signed kind, with `-`.
pub open spec fn decimal_value(s: Seq<char>, signed: bool) -> Option<int> {
    if s.len() > 0 && s[0] == '+' {
        unsigned_value(s.skip(1))
    } else if signed && s.len() > 0 && s[0] == '-' {
        match unsigned_value(s.skip(1)) {
            Some(v) => Some(-v),
            None => None,
        }
    } else {
        unsigned_value(s)
    }
}

/// The integer that `s` writes, if it writes one between `min` and `max`. A kind whose
/// least value is zero takes no `-`.
pub open spec fn integer_in(s: Seq<char>, min: int, max: int) -> Option<int> {
    match decimal_value(s, min < 0) {
        Some(v) => if min <= v <= max {
            Some(v)
        } else {
            None
        },
        None => None,
    }
}

/// Reads the digits of `text` from `from` on.
fn parse_digits(text: &str, from: usize, len: usize) -> (r: Option<u128>)
    requires
        len == text@.len(),
        from <= len,
    ensures
        match r {
            Some(v) => unsigned_value(text@.skip(from as int)) matches Some(w) && w == v && v
                <= 0x1_0000_0000_0000_0000,
            None => match unsigned_value(text@.skip(from as int)) {
                Some(w) => w > 0x1_0000_0000_0000_0000,
                None => true,
            },
        },
{
    let ghost digits = text@.skip(from as int);
    if from == len {
        return None;
    }
    let mut value: u128 = 0;
    let mut over = false;
    let mut i: usize = from;
    while i < len
        invariant
            len == text@.len(),
            from <= i <= len,
            digits == text@.skip(from as int),
            all_digits(digits.subrange(0, i - from)),
            value <= 0x1_0000_0000_0000_0000,
            !over ==> value == digits_value(digits.subrange(0, i - from)),
            over ==> digits_value(digits.subrange(0, i - from)) > 0x1_0000_0000_0000_0000,
        decreases len - i,
    {
        let c = text.get_char(i);
        let code = c as u32;
        let ghost before = digits.subrange(0, i - from);
        let ghost now = digits.subrange(0, i + 1 - from);
        assert(now.drop_last() =~= before);
        assert(now.last() == c);
        if code < 48 || code > 57 {
            assert(!is_digit(digits[i - from]));
            return None;
        }
        assert forall|j: int| 0 <= j < now.len() implies is_digit(#[trigger] now[j]) by {
            if j < before.len() {
                assert(now[j] == before[j]);
            }
        }
        let digit = (code - 48) as u128;
        if !over {
            let next = value * 10 + digit;
            if next > 0x1_0000_0000_0000_0000 {
                over = true;
            } else {
                value = next;
            }
        }
        i = i + 1;
    }
    assert(digits.subrange(0, len - from) =~= digits);
    if over {
        None
    } else {
        Some(value)
    }
}

/// Reads a decimal integer between `min` and `max`.
pub fn parse_integer(text: &str, min: i128, max: i128) -> (r: Option<i128>)
    requires
        -0x1_0000_0000_0000_0000 <= min <= 0 <= max <= 0x1_0000_0000_0000_0000,
    ensures
        match r {
            Some(v) => integer_in(text@, min as int, max as int) == Some(v as int),
            None => integer_in(text@, min as int, max as int) is None,
        },
{
    let len = text.unicode_len();
    if len == 0 {
        return None;
    }
    let first = text.get_char(0);
    let negative = min < 0 && first == '-';
    let from: usize = if first == '+' || negative {
        1
    } else {
        0
    };
    assert(text@.skip(0) =~= text@);
    match parse_digits(text, from, len) {
        Some(v) => {
            let value: i128 = if negative {
                -(v as i128)
            } else {
                v as i128
            };
            if min <= value && value <= max {
                Some(value)
            } else {
                None
            }
        },
        None => None,
    }
}

/// The character for a digit.
pub open spec fn digit_char(d: int) -> char {
    if d == 0 {
        '0'
    } else if d == 1 {
        '1'
    } else if d == 2 {
        '2'
    } else if d == 3 {
        '3'
    } else if d == 4 {
        '4'
    } else if d == 5 {
        '5'
    } else if d == 6 {
        '6'
    } else if d == 7 {
        '7'
    } else if d == 8 {
        '8'
    } else {
        '9'
    }
}

/// The decimal digits of `n`, without leading zeros.
pub open spec fn decimal(n: nat) -> Seq<char>
    decreases n,
{
    if n < 10 {
        seq![digit_char(n as int)]
    } else {
        decimal(n / 10).push(digit_char((n % 10) as int))
    }
}

/// An integer as text: its decimal digits, behind `-` where it is negative.
pub open spec fn integer_text(v: int) -> Seq<char> {
    if v < 0 {
        seq!['-'] + decimal((-v) as nat)
    } else {
        decimal(v as nat)
    }
}

/// The digits of a number write that number.
pub proof fn lemma_decimal_reads_back(n: nat)
    ensures
        decimal(n).len() > 0,
        all_digits(decimal(n)),
        digits_value(decimal(n)) == n,
    decreases n,
{
    if n < 10 {
        let s = decimal(n);
        assert(s.drop_last() =~= Seq::<char>::empty());
        assert(digits_value(s.drop_last()) == 0);
        assert(s.last() == digit_char(n as int));
    } else {
        lemma_decimal_reads_back(n / 10);
        let s = decimal(n);
        assert(s.drop_last() =~= decimal(n / 10));
        assert(s.last() == digit_char((n % 10) as int));
        assert forall|i: int| 0 <= i < s.len() implies is_digit(#[trigger] s[i]) by {
            if i < s.len() - 1 {
                assert(s[i] == decimal(n / 10)[i]);
            }
        }
    }
}

/// An integer that is written out and read again is the same integer, for every kind that
/// holds it.
pub proof fn lemma_integer_text_reads_back(v: int, min: int, max: int)
    requires
        min <= v <= max,
        min <= 0,
    ensures
        integer_in(integer_text(v), min, max) == Some(v),
{
    if v < 0 {
        lemma_decimal_reads_back((-v) as nat);
        let s = integer_text(v);
        assert(s.skip(1) =~= decimal((-v) as nat));
        assert(s[0] == '-');
    } else {
        lemma_decimal_reads_back(v as nat);
        let s = integer_text(v);
        assert(is_digit(s[0]));
    }
}

fn digit_text(d: u8) -> (text: &'static str)
    requires
        d < 10,
    ensures
        text@ == seq![digit_char(d as int)],
{
    proof {
        reveal_strlit("0");
        reveal_strlit("1");
        reveal_strlit("2");
        reveal_strlit("3");
        reveal_strlit("4");
        reveal_strlit("5");
        reveal_strlit("6");
        reveal_strlit("7");
        reveal_strlit("8");
        reveal_strlit("9");
    }
    let text = match d {
        0 => "0",
        1 => "1",
        2 => "2",
        3 => "3",
        4 => "4",
        5 => "5",
        6 => "6",
        7 => "7",
        8 => "8",
        _ => "9",
    };
    assert(text@ =~= seq![digit_char(d as int)]);
    text
}

/// Writes an integer in decimal.
pub fn format_integer(v: i128) -> (text: String)
    requires
        -0x1_0000_0000_0000_0000 <= v <= 0x1_0000_0000_0000_0000,
    ensures
        text@ == integer_text(v as int),
{
    let magnitude: u128 = if v < 0 {
        (-v) as u128
    } else {
        v as u128
    };
    let mut rest: u128 = magnitude / 10;
    let mut digits = digit_text((magnitude % 10) as u8).to_owned();
    // `digits` holds the low end of the number; `rest` is what is still to be written.
    while rest > 0
        invariant
            decimal(magnitude as nat) == if rest == 0 {
                digits@
            } else {
                decimal(rest as nat) + digits@
            },
            digits@.len() > 0,
        decreases rest,
    {
        let mut longer = digit_text((rest % 10) as u8).to_owned();
        longer.append(digits.as_str());
        proof {
            let d = seq![digit_char((rest % 10) as int)];
            if rest < 10 {
                assert(decimal(rest as nat) =~= d);
            } else {
                assert(decimal(rest as nat) =~= decimal((rest / 10) as nat) + d);
                assert(decimal(rest as nat) + digits@ =~= decimal((rest / 10) as nat) + (d
                    + digits@));
            }
        }
        digits = longer;
        rest = rest / 10;
    }
    if v < 0 {
        proof {
            reveal_strlit("-");
        }
        let mut text = "-".to_owned();
        text.append(digits.as_str());
        assert(text@ =~= seq!['-'] + decimal(magnitude as nat));
        text
    } else {
        digits
    }
}

/// The part of `s` before its first space; all of `s` where it holds none.
pub open spec fn first_word(s: Seq<char>) -> Seq<char> {
    s.subrange(0, position_of(s, ' '))
}

/// The part of `s` behind its first space; nothing where it holds none.
pub open spec fn after_first_word(s: Seq<char>) -> Seq<char> {
    if position_of(s, ' ') < s.len() {
        s.subrange(position_of(s, ' ') + 1, s.len() as int)
    } else {
        Seq::empty()
    }
}

/// Splits a text at its first space.
pub fn split_word(text: &str) -> (parts: (String, String))
    ensures
        parts.0@ == first_word(text@),
        parts.1@ == after_first_word(text@),
{
    let len = text.unicode_len();
    let at = find_char(text, ' ');
    proof {
        lemma_position_of(text@, ' ');
    }
    let first = text.substring_char(0, at).to_owned();
    let rest = if at < len {
        text.substring_char(at + 1, len).to_owned()
    } else {
        String::new()
    };
    (first, rest)
}

} // verus!
