//! Text as sequences of characters: numbers, flags and hexadecimal digits.

use vstd::prelude::*;

verus! {

/// `String::push` of the standard library appends one character.
pub assume_specification[ String::push ](s: &mut String, c: char)
    ensures
        final(s)@ == old(s)@.push(c),
;

/// The characters of a text.
pub fn chars_of(s: &str) -> (v: Vec<char>)
    ensures
        v@ == s@,
{
    let mut v: Vec<char> = Vec::new();
    for c in it: s.chars()
        invariant
            it.seq() == s@,
            v@ == s@.take(it.index()),
    {
        v.push(c);
        assert(v@ =~= s@.take(it.index() + 1));
    }
    assert(s@.take(s@.len() as int) =~= s@);
    v
}

/// The text of characters `from` up to `to`.
pub fn text_of(v: &Vec<char>, from: usize, to: usize) -> (s: String)
    requires
        from <= to <= v@.len(),
    ensures
        s@ == v@.subrange(from as int, to as int),
{
    let mut s = String::new();
    let mut i: usize = from;
    assert(s@ =~= v@.subrange(from as int, from as int));
    while i < to
        invariant
            from <= i <= to <= v@.len(),
            s@ == v@.subrange(from as int, i as int),
        decreases to - i,
    {
        s.push(v[i]);
        assert(s@ =~= v@.subrange(from as int, i + 1));
        i += 1;
    }
    s
}

/// Whether two texts are the same.
pub fn same_text(a: &str, b: &str) -> (same: bool)
    ensures
        same == (a@ == b@),
{
    let x = chars_of(a);
    let y = chars_of(b);
    if x.len() != y.len() {
        return false;
    }
    let mut i: usize = 0;
    while i < x.len()
        invariant
            x@ == a@,
            y@ == b@,
            x@.len() == y@.len(),
            i <= x@.len(),
            forall|j: int| 0 <= j < i ==> x@[j] == y@[j],
        decreases x@.len() - i,
    {
        if x[i] != y[i] {
            return false;
        }
        i += 1;
    }
    assert(a@ =~= b@);
    true
}

/// The character of a decimal digit.
pub open spec fn digit_char(d: nat) -> char {
    (('0' as u32) + d) as char
}

/// A number in decimal digits, without leading zeros.
pub open spec fn decimal(n: nat) -> Seq<char>
    decreases n,
{
    if n < 10 {
        seq![digit_char(n)]
    } else {
        decimal(n / 10).push(digit_char(n % 10))
    }
}

/// A number in decimal digits, with a sign in front where it is negative.
pub open spec fn signed_decimal(n: int) -> Seq<char> {
    if n < 0 {
        seq!['-'] + decimal((-n) as nat)
    } else {
        decimal(n as nat)
    }
}

/// Whether a character is a decimal digit.
pub open spec fn is_digit(c: char) -> bool {
    '0' <= c <= '9'
}

/// The value of some digits.
pub open spec fn digits_value(s: Seq<char>) -> nat
    decreases s.len(),
{
    if s.len() == 0 {
        0
    } else {
        digits_value(s.drop_last()) * 10 + ((s.last() as u32) - ('0' as u32)) as nat
    }
}

/// Whether a text is a row of digits, at least one.
pub open spec fn all_digits(s: Seq<char>) -> bool {
    s.len() > 0 && forall|i: int| 0 <= i < s.len() ==> is_digit(#[trigger] s[i])
}

/// The number that a text of digits stands for, with an optional plus sign, if
/// it is at most `max`.
pub open spec fn unsigned_value(s: Seq<char>, max: nat) -> Option<nat> {
    let digits = if s.len() > 0 && s[0] == '+' {
        s.skip(1)
    } else {
        s
    };
    if all_digits(digits) && digits_value(digits) <= max {
        Some(digits_value(digits))
    } else {
        None
    }
}

/// The number that a text of digits stands for, with an optional sign, if it
/// lies within the range of `i32`.
pub open spec fn i32_value(s: Seq<char>) -> Option<i32> {
    let neg = s.len() > 0 && s[0] == '-';
    let digits = if s.len() > 0 && (s[0] == '+' || s[0] == '-') {
        s.skip(1)
    } else {
        s
    };
    let n = if neg {
        -(digits_value(digits) as int)
    } else {
        digits_value(digits) as int
    };
    if all_digits(digits) && i32::MIN <= n <= i32::MAX {
        Some(n as i32)
    } else {
        None
    }
}

/// The flag that a text stands for.
pub open spec fn bool_value(s: Seq<char>) -> Option<bool> {
    if s == "true"@ {
        Some(true)
    } else if s == "false"@ {
        Some(false)
    } else {
        None
    }
}

/// The text of a flag.
pub open spec fn bool_text(b: bool) -> Seq<char> {
    if b {
        "true"@
    } else {
        "false"@
    }
}

proof fn lemma_digit(d: nat)
    requires
        d < 10,
    ensures
        is_digit(digit_char(d)),
        (digit_char(d) as u32) - ('0' as u32) == d,
{
}

/// The digits of a number are digits, and their value is the number.
pub proof fn lemma_decimal(n: nat)
    ensures
        all_digits(decimal(n)),
        digits_value(decimal(n)) == n,
    decreases n,
{
    if n < 10 {
        lemma_digit(n);
        assert(decimal(n).drop_last() =~= seq![]);
        assert(digits_value(seq![]) == 0);
    } else {
        lemma_decimal(n / 10);
        lemma_digit(n % 10);
        assert(decimal(n).drop_last() =~= decimal(n / 10));
    }
}

/// Reading a written number gives the number back.
pub proof fn lemma_unsigned_round_trip(n: nat, max: nat)
    requires
        n <= max,
    ensures
        unsigned_value(decimal(n), max) == Some(n),
{
    lemma_decimal(n);
    assert(is_digit(decimal(n)[0]));
}

/// Reading a written signed number gives the number back.
pub proof fn lemma_i32_round_trip(n: i32)
    ensures
        i32_value(signed_decimal(n as int)) == Some(n),
{
    if n < 0 {
        lemma_decimal((-n) as nat);
        assert(signed_decimal(n as int).skip(1) =~= decimal((-n) as nat));
    } else {
        lemma_decimal(n as nat);
        assert(is_digit(decimal(n as nat)[0]));
    }
}

/// Reading a written flag gives the flag back.
pub proof fn lemma_bool_round_trip(b: bool)
    ensures
        bool_value(bool_text(b)) == Some(b),
{
    reveal_strlit("true");
    reveal_strlit("false");
    assert("true"@.len() != "false"@.len());
}

fn push_digits(s: &mut String, n: u64)
    ensures
        final(s)@ == old(s)@ + decimal(n as nat),
    decreases n,
{
    let ghost before = s@;
    if n >= 10 {
        push_digits(s, n / 10);
    }
    let d: u8 = 48 + (n % 10) as u8;
    s.push(d as char);
    assert(s@ =~= before + decimal(n as nat));
}

/// A number in decimal digits.
pub fn unsigned_text(n: u64) -> (s: String)
    ensures
        s@ == decimal(n as nat),
{
    let mut s = String::new();
    push_digits(&mut s, n);
    assert(s@ =~= decimal(n as nat));
    s
}

/// A signed number in decimal digits.
pub fn signed_text(n: i32) -> (s: String)
    ensures
        s@ == signed_decimal(n as int),
{
    let mut s = String::new();
    if n < 0 {
        s.push('-');
        push_digits(&mut s, (-(n as i64)) as u64);
    } else {
        push_digits(&mut s, n as u64);
    }
    assert(s@ =~= signed_decimal(n as int));
    s
}

/// The text of a flag.
pub fn flag_text(b: bool) -> (s: String)
    ensures
        s@ == bool_text(b),
{
    if b {
        "true".to_string()
    } else {
        "false".to_string()
    }
}

/// The flag that a text stands for.
pub fn parse_flag(s: &str) -> (r: Option<bool>)
    ensures
        r == bool_value(s@),
{
    if same_text(s, "true") {
        Some(true)
    } else if same_text(s, "false") {
        Some(false)
    } else {
        None
    }
}

proof fn lemma_value_grows(s: Seq<char>, n: int)
    requires
        0 <= n <= s.len(),
    ensures
        digits_value(s.take(n)) <= digits_value(s),
    decreases s.len() - n,
{
    if n < s.len() {
        lemma_value_grows(s, n + 1);
        assert(s.take(n + 1).drop_last() =~= s.take(n));
    } else {
        assert(s.take(n) =~= s);
    }
}

fn parse_digits(v: &Vec<char>, from: usize, max: u64) -> (r: Option<u64>)
    requires
        from <= v@.len(),
    ensures
        ({
            let d = v@.skip(from as int);
            match r {
                Some(n) => all_digits(d) && digits_value(d) == n && n <= max,
                None => !all_digits(d) || digits_value(d) > max,
            }
        }),
{
    let ghost d = v@.skip(from as int);
    if from == v.len() {
        return None;
    }
    let mut n: u64 = 0;
    let mut i: usize = from;
    assert(d.take(0) =~= seq![]);
    while i < v.len()
        invariant
            from <= i <= v@.len(),
            d == v@.skip(from as int),
            n <= max,
            n == digits_value(d.take(i - from)),
            forall|j: int| 0 <= j < i - from ==> is_digit(#[trigger] d[j]),
        decreases v@.len() - i,
    {
        let c = v[i];
        let ghost k = i - from;
        assert(d[k] == c);
        if c < '0' || c > '9' {
            return None;
        }
        let x: u64 = (c as u32 - 48) as u64;
        proof {
            assert(d.take(k + 1).drop_last() =~= d.take(k));
            lemma_value_grows(d, k + 1);
        }
        if n > max / 10 {
            return None;
        }
        let tens = n * 10;
        if x > max - tens {
            return None;
        }
        n = tens + x;
        i += 1;
    }
    assert(d.take(d.len() as int) =~= d);
    Some(n)
}

/// The number that a text of digits stands for.
pub fn parse_unsigned(s: &str, max: u64) -> (r: Option<u64>)
    ensures
        match r {
            Some(n) => unsigned_value(s@, max as nat) == Some(n as nat),
            None => unsigned_value(s@, max as nat) is None,
        },
{
    let v = chars_of(s);
    let from: usize = if v.len() > 0 && v[0] == '+' {
        1
    } else {
        0
    };
    assert(v@.skip(0) =~= v@);
    parse_digits(&v, from, max)
}

/// The number that a signed text of digits stands for.
pub fn parse_i32(s: &str) -> (r: Option<i32>)
    ensures
        r == i32_value(s@),
{
    let v = chars_of(s);
    assert(v@.skip(0) =~= v@);
    if v.len() > 0 && v[0] == '-' {
        match parse_digits(&v, 1, 2147483648) {
            Some(n) => Some((-(n as i64)) as i32),
            None => None,
        }
    } else {
        let from: usize = if v.len() > 0 && v[0] == '+' {
            1
        } else {
            0
        };
        match parse_digits(&v, from, 2147483647) {
            Some(n) => Some(n as i32),
            None => None,
        }
    }
}

/// The character of a hexadecimal digit.
pub open spec fn hex_char(d: int) -> char {
    if d < 10 {
        (48 + d) as char
    } else {
        (87 + d) as char
    }
}

/// The two hexadecimal digits of a byte.
pub open spec fn hex_byte(b: u8) -> Seq<char> {
    seq![hex_char(b as int / 16), hex_char(b as int % 16)]
}

/// The hexadecimal digits of some bytes.
pub open spec fn hex_text(bytes: Seq<u8>) -> Seq<char>
    decreases bytes.len(),
{
    if bytes.len() == 0 {
        seq![]
    } else {
        hex_text(bytes.drop_last()) + hex_byte(bytes.last())
    }
}

fn hex_digit(d: u8) -> (c: char)
    requires
        d < 16,
    ensures
        c == hex_char(d as int),
{
    if d < 10 {
        (48 + d) as char
    } else {
        (87 + d) as char
    }
}

/// Appends the two hexadecimal digits of a byte.
pub fn push_hex(s: &mut String, b: u8)
    ensures
        final(s)@ == old(s)@ + hex_byte(b),
{
    let ghost before = s@;
    s.push(hex_digit(b / 16));
    s.push(hex_digit(b % 16));
    assert(s@ =~= before + hex_byte(b));
}

/// A character in lower case, as far as ASCII goes.
pub open spec fn ascii_lower(c: char) -> char {
    if 'A' <= c <= 'Z' {
        ((c as u32) + 32) as char
    } else {
        c
    }
}

/// Whether one text comes before another or is the same, character by character.
pub open spec fn text_le(a: Seq<char>, b: Seq<char>) -> bool
    decreases a.len(),
{
    if a.len() == 0 {
        true
    } else if b.len() == 0 {
        false
    } else if a[0] != b[0] {
        a[0] < b[0]
    } else {
        text_le(a.skip(1), b.skip(1))
    }
}

/// The order of texts is total, and texts that come before each other are the same.
pub proof fn lemma_text_order(a: Seq<char>, b: Seq<char>)
    ensures
        text_le(a, b) || text_le(b, a),
        text_le(a, b) && text_le(b, a) ==> a == b,
        text_le(a, a),
    decreases a.len(),
{
    if a.len() > 0 {
        lemma_text_order(a.skip(1), a.skip(1));
        if b.len() > 0 {
            lemma_text_order(a.skip(1), b.skip(1));
            if a[0] == b[0] && a.skip(1) == b.skip(1) {
                assert(a =~= seq![a[0]] + a.skip(1));
                assert(b =~= seq![b[0]] + b.skip(1));
            }
        }
    } else if b.len() == 0 {
        assert(a =~= b);
    }
}

/// The order of texts is transitive.
pub proof fn lemma_text_transitive(a: Seq<char>, b: Seq<char>, c: Seq<char>)
    requires
        text_le(a, b),
        text_le(b, c),
    ensures
        text_le(a, c),
    decreases a.len(),
{
    if a.len() > 0 && b.len() > 0 && c.len() > 0 && a[0] == b[0] && b[0] == c[0] {
        lemma_text_transitive(a.skip(1), b.skip(1), c.skip(1));
    }
}

/// Whether one text comes before another or is the same.
pub fn text_not_after(a: &str, b: &str) -> (r: bool)
    ensures
        r == text_le(a@, b@),
{
    let x = chars_of(a);
    let y = chars_of(b);
    let mut i: usize = 0;
    assert(x@.skip(0) =~= x@);
    assert(y@.skip(0) =~= y@);
    while i < x.len()
        invariant
            i <= x@.len(),
            i <= y@.len(),
            x@ == a@,
            y@ == b@,
            text_le(a@, b@) == text_le(x@.skip(i as int), y@.skip(i as int)),
        decreases x@.len() - i,
    {
        if i >= y.len() {
            return false;
        }
        if x[i] != y[i] {
            return x[i] < y[i];
        }
        assert(x@.skip(i as int).skip(1) =~= x@.skip(i + 1));
        assert(y@.skip(i as int).skip(1) =~= y@.skip(i + 1));
        i += 1;
    }
    true
}

} // verus!
