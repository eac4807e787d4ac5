//! Text: how numbers are written and read, and what counts as blank.

use vstd::prelude::*;
use vstd::string::StringExecFns;

verus! {

/// `String::push` of std: the character goes to the end of the string.
pub assume_specification[ String::push ](s: &mut String, c: char)
    ensures
        final(s)@ == old(s)@.push(c),
;

/// The characters of a string, in order.
pub fn chars_of(s: &str) -> (chars: Vec<char>)
    ensures
        chars@ == s@,
{
    let mut chars: Vec<char> = Vec::new();
    for c in it: s.chars()
        invariant
            chars@ == it.seq().take(it.index() as int),
            it.seq() == s@,
    {
        chars.push(c);
    }
    assert(s@.take(s@.len() as int) =~= s@);
    chars
}

/// The string made of the given characters.
pub fn string_of(chars: &[char]) -> (s: String)
    ensures
        s@ == chars@,
{
    let mut s = String::new();
    let mut i: usize = 0;
    while i < chars.len()
        invariant
            i <= chars.len(),
            s@ == chars@.take(i as int),
        decreases chars.len() - i,
    {
        s.push(chars[i]);
        i = i + 1;
        assert(chars@.take(i as int) =~= chars@.take(i - 1).push(chars@[i - 1]));
    }
    assert(chars@.take(chars@.len() as int) =~= chars@);
    s
}

/// The character of one digit, with lower-case letters above nine.
pub open spec fn digit_char(d: int) -> char {
    if d < 10 {
        (48 + d) as char
    } else {
        (87 + d) as char
    }
}

/// `n` written in `radix`, without leading zeros.
pub open spec fn digits(n: int, radix: int) -> Seq<char>
    decreases n,
{
    if n < radix || radix < 2 {
        seq![digit_char(n)]
    } else {
        proof {
            assert(0 <= n / radix < n) by (nonlinear_arith)
                requires
                    n >= radix,
                    radix >= 2,
            ;
        }
        digits(n / radix, radix).push(digit_char(n % radix))
    }
}

/// `s` with zeros in front, at least `width` characters long.
pub open spec fn zero_padded(s: Seq<char>, width: int) -> Seq<char> {
    if s.len() >= width {
        s
    } else {
        Seq::new((width - s.len()) as nat, |i: int| '0') + s
    }
}

/// `n` in decimal.
pub open spec fn decimal(n: int) -> Seq<char> {
    digits(n, 10)
}

/// `n` in hexadecimal.
pub open spec fn hex(n: int) -> Seq<char> {
    digits(n, 16)
}

/// `n` in hexadecimal, at least sixteen digits.
pub open spec fn hex16(n: int) -> Seq<char> {
    zero_padded(hex(n), 16)
}

fn digit_to_char(d: u64) -> (c: char)
    requires
        d < 36,
    ensures
        c == digit_char(d as int),
{
    if d < 10 {
        (48u8 + d as u8) as char
    } else {
        (87u8 + d as u8) as char
    }
}

/// `n` written in `radix`.
pub fn digits_string(n: u64, radix: u64) -> (s: String)
    requires
        2 <= radix <= 36,
    ensures
        s@ == digits(n as int, radix as int),
    decreases n,
{
    if n < radix {
        let mut s = String::new();
        s.push(digit_to_char(n));
        assert(s@ =~= seq![digit_char(n as int)]);
        s
    } else {
        proof {
            assert(n / radix < n) by (nonlinear_arith)
                requires
                    n >= radix,
                    radix >= 2,
            ;
        }
        let mut s = digits_string(n / radix, radix);
        s.push(digit_to_char(n % radix));
        s
    }
}

/// `n` in decimal.
pub fn decimal_string(n: u64) -> (s: String)
    ensures
        s@ == decimal(n as int),
{
    digits_string(n, 10)
}

/// `n` in hexadecimal, with lower-case letters.
pub fn hex_string(n: u64) -> (s: String)
    ensures
        s@ == hex(n as int),
{
    digits_string(n, 16)
}

/// `s` with zeros in front, at least `width` characters long.
pub fn pad_zeros(s: &str, width: usize) -> (padded: String)
    ensures
        padded@ == zero_padded(s@, width as int),
{
    let length: usize = chars_of(s).len();
    let mut padded = String::new();
    let mut i: usize = length;
    while i < width
        invariant
            length <= i,
            length < width ==> i <= width,
            length >= width ==> i == length,
            padded@ =~= Seq::new((i - length) as nat, |j: int| '0'),
        decreases width - i,
    {
        padded.push('0');
        i = i + 1;
    }
    padded.append(s);
    padded
}

/// `n` in hexadecimal, at least sixteen digits.
pub fn hex16_string(n: u64) -> (s: String)
    ensures
        s@ == hex16(n as int),
{
    pad_zeros(&hex_string(n), 16)
}

/// The capital of a lower-case ASCII letter; any other character as it is.
pub open spec fn upper_char(c: char) -> char {
    if 'a' <= c && c <= 'z' {
        (c as int - 32) as char
    } else {
        c
    }
}

/// `s` with its lower-case ASCII letters as capitals.
pub open spec fn upper(s: Seq<char>) -> Seq<char> {
    Seq::new(s.len(), |i: int| upper_char(s[i]))
}

fn to_upper_char(c: char) -> (u: char)
    ensures
        u == upper_char(c),
{
    if 'a' <= c && c <= 'z' {
        (c as u8 - 32) as char
    } else {
        c
    }
}

/// `s` with its lower-case ASCII letters as capitals.
pub fn upper_string(s: &str) -> (u: String)
    ensures
        u@ == upper(s@),
{
    let chars = chars_of(s);
    let mut u = String::new();
    let mut i: usize = 0;
    while i < chars.len()
        invariant
            i <= chars@.len(),
            chars@ == s@,
            u@ =~= upper(chars@.take(i as int)),
        decreases chars@.len() - i,
    {
        u.push(to_upper_char(chars[i]));
        i = i + 1;
    }
    assert(chars@.take(chars@.len() as int) =~= chars@);
    u
}

/// The lower-case form of an ASCII capital; any other character as it is.
pub open spec fn lower_char(c: char) -> char {
    if 'A' <= c && c <= 'Z' {
        (c as int + 32) as char
    } else {
        c
    }
}

/// Whether two texts are the same but for the case of ASCII letters.
pub open spec fn same_ignoring_case(a: Seq<char>, b: Seq<char>) -> bool {
    &&& a.len() == b.len()
    &&& forall|i: int| 0 <= i < a.len() ==> lower_char(#[trigger] a[i]) == lower_char(b[i])
}

fn to_lower_char(c: char) -> (l: char)
    ensures
        l == lower_char(c),
{
    if 'A' <= c && c <= 'Z' {
        (c as u8 + 32) as char
    } else {
        c
    }
}

/// Whether two texts are the same but for the case of ASCII letters.
pub fn eq_ignoring_case(a: &[char], b: &[char]) -> (same: bool)
    ensures
        same == same_ignoring_case(a@, b@),
{
    if a.len() != b.len() {
        return false;
    }
    let mut i: usize = 0;
    while i < a.len()
        invariant
            i <= a@.len(),
            a@.len() == b@.len(),
            forall|k: int| 0 <= k < i ==> lower_char(#[trigger] a@[k]) == lower_char(b@[k]),
        decreases a@.len() - i,
    {
        if to_lower_char(a[i]) != to_lower_char(b[i]) {
            assert(lower_char(a@[i as int]) != lower_char(b@[i as int]));
            return false;
        }
        i = i + 1;
    }
    true
}

/// Whether two texts are the same.
pub fn same_chars(a: &[char], b: &[char]) -> (same: bool)
    ensures
        same == (a@ == b@),
{
    if a.len() != b.len() {
        return false;
    }
    let mut i: usize = 0;
    while i < a.len()
        invariant
            i <= a@.len(),
            a@.len() == b@.len(),
            forall|k: int| 0 <= k < i ==> #[trigger] a@[k] == b@[k],
        decreases a@.len() - i,
    {
        if a[i] != b[i] {
            return false;
        }
        i = i + 1;
    }
    assert(a@ =~= b@);
    true
}

/// Whether two texts are the same.
pub fn same_text(a: &str, b: &str) -> (same: bool)
    ensures
        same == (a@ == b@),
{
    same_chars(&chars_of(a), &chars_of(b))
}

/// Whether a character is blank: the White_Space property of Unicode.
pub open spec fn is_blank(c: char) -> bool {
    let n = c as int;
    ||| 0x09 <= n <= 0x0d
    ||| n == 0x20
    ||| n == 0x85
    ||| n == 0xa0
    ||| n == 0x1680
    ||| 0x2000 <= n <= 0x200a
    ||| n == 0x2028
    ||| n == 0x2029
    ||| n == 0x202f
    ||| n == 0x205f
    ||| n == 0x3000
}

/// Whether a character is blank.
pub fn blank(c: char) -> (b: bool)
    ensures
        b == is_blank(c),
{
    let n: u32 = c as u32;
    (0x09 <= n && n <= 0x0d) || n == 0x20 || n == 0x85 || n == 0xa0 || n == 0x1680 || (0x2000 <= n
        && n <= 0x200a) || n == 0x2028 || n == 0x2029 || n == 0x202f || n == 0x205f || n == 0x3000
}

/// `s` without the blanks in front.
pub open spec fn trimmed_start(s: Seq<char>) -> Seq<char>
    decreases s.len(),
{
    if s.len() > 0 && is_blank(s[0]) {
        trimmed_start(s.skip(1))
    } else {
        s
    }
}

/// `s` without the blanks at the end.
pub open spec fn trimmed_end(s: Seq<char>) -> Seq<char>
    decreases s.len(),
{
    if s.len() > 0 && is_blank(s.last()) {
        trimmed_end(s.drop_last())
    } else {
        s
    }
}

/// `s` without the blanks in front and at the end.
pub open spec fn trimmed(s: Seq<char>) -> Seq<char> {
    trimmed_end(trimmed_start(s))
}

/// `s` without the blanks in front and at the end.
pub fn trim(s: &[char]) -> (t: Vec<char>)
    ensures
        t@ == trimmed(s@),
{
    let mut low: usize = 0;
    assert(s@.skip(0) =~= s@);
    while low < s.len() && blank(s[low])
        invariant
            low <= s@.len(),
            trimmed_start(s@.skip(low as int)) == trimmed_start(s@),
        decreases s@.len() - low,
    {
        assert(s@.skip(low as int).skip(1) =~= s@.skip(low + 1));
        low = low + 1;
    }
    let ghost rest = s@.skip(low as int);
    assert(trimmed_start(s@) == rest);
    let mut high: usize = s.len();
    assert(s@.subrange(low as int, high as int) =~= rest);
    while high > low && blank(s[high - 1])
        invariant
            low <= high <= s@.len(),
            trimmed_end(s@.subrange(low as int, high as int)) == trimmed_end(rest),
        decreases high - low,
    {
        assert(s@.subrange(low as int, high as int).drop_last() =~= s@.subrange(
            low as int,
            high - 1,
        ));
        high = high - 1;
    }
    copy_range(s, low, high)
}

/// The characters from `low` to before `high`.
pub fn copy_range(s: &[char], low: usize, high: usize) -> (t: Vec<char>)
    requires
        low <= high <= s@.len(),
    ensures
        t@ == s@.subrange(low as int, high as int),
{
    let mut t: Vec<char> = Vec::new();
    let mut i: usize = low;
    while i < high
        invariant
            low <= i <= high <= s@.len(),
            t@ =~= s@.subrange(low as int, i as int),
        decreases high - i,
    {
        t.push(s[i]);
        i = i + 1;
    }
    t
}

/// The first position from `from` on at which `c` stands, or the end.
pub open spec fn position_of(s: Seq<char>, c: char, from: int) -> int
    decreases s.len() - from,
{
    if from >= s.len() {
        s.len() as int
    } else if s[from] == c {
        from
    } else {
        position_of(s, c, from + 1)
    }
}

/// [`position_of`] finds the first occurrence.
pub proof fn lemma_position_of(s: Seq<char>, c: char, from: int)
    requires
        0 <= from <= s.len(),
    ensures
        from <= position_of(s, c, from) <= s.len(),
        position_of(s, c, from) < s.len() ==> s[position_of(s, c, from)] == c,
        forall|k: int| from <= k < position_of(s, c, from) ==> #[trigger] s[k] != c,
    decreases s.len() - from,
{
    if from < s.len() && s[from] != c {
        lemma_position_of(s, c, from + 1);
    }
}

/// The first position from `from` on at which `c` stands, or the end.
pub fn find_char(s: &[char], c: char, from: usize) -> (i: usize)
    requires
        from <= s@.len(),
    ensures
        i == position_of(s@, c, from as int),
        from <= i <= s@.len(),
{
    let mut i: usize = from;
    while i < s.len() && s[i] != c
        invariant
            from <= i <= s@.len(),
            position_of(s@, c, i as int) == position_of(s@, c, from as int),
        decreases s@.len() - i,
    {
        i = i + 1;
    }
    i
}

/// The parts of `s` before and behind the first `c`, if there is one.
pub open spec fn split_at_first(s: Seq<char>, c: char) -> Option<(Seq<char>, Seq<char>)> {
    let i = position_of(s, c, 0);
    if i < s.len() {
        Some((s.take(i), s.skip(i + 1)))
    } else {
        None
    }
}

/// What stands before the first of a character, and what stands behind it.
pub proof fn law_split_at_first(before: Seq<char>, c: char, behind: Seq<char>)
    requires
        forall|i: int| 0 <= i < before.len() ==> #[trigger] before[i] != c,
    ensures
        split_at_first(before + seq![c] + behind, c) == Some((before, behind)),
{
    let s = before + seq![c] + behind;
    lemma_position_of(s, c, 0);
    let n = before.len() as int;
    assert(s[n] == c);
    let p = position_of(s, c, 0);
    if p < n {
        assert(s[p] == before[p]);
    }
    assert(p == n);
    assert(s.take(n) =~= before);
    assert(s.skip(n + 1) =~= behind);
}

/// The parts of `s` before and behind the first `c`, if there is one.
pub fn split_once(s: &[char], c: char) -> (parts: Option<(Vec<char>, Vec<char>)>)
    ensures
        parts is Some <==> split_at_first(s@, c) is Some,
        parts matches Some(p) ==> split_at_first(s@, c) == Some((p.0@, p.1@)),
{
    let i = find_char(s, c, 0);
    if i == s.len() {
        return None;
    }
    let before = copy_range(s, 0, i);
    let behind = copy_range(s, i + 1, s.len());
    assert(before@ =~= s@.take(i as int));
    assert(behind@ =~= s@.skip(i + 1));
    Some((before, behind))
}

/// Whether `s` begins with `prefix`.
pub open spec fn begins_with(s: Seq<char>, prefix: Seq<char>) -> bool {
    prefix.len() <= s.len() && s.take(prefix.len() as int) == prefix
}

/// Whether `s` begins with `prefix`.
pub fn starts_with(s: &[char], prefix: &[char]) -> (b: bool)
    ensures
        b == begins_with(s@, prefix@),
{
    if s.len() < prefix.len() {
        return false;
    }
    let mut i: usize = 0;
    while i < prefix.len()
        invariant
            i <= prefix@.len() <= s@.len(),
            forall|k: int| 0 <= k < i ==> #[trigger] s@[k] == prefix@[k],
        decreases prefix@.len() - i,
    {
        if s[i] != prefix[i] {
            assert(s@.take(prefix@.len() as int)[i as int] != prefix@[i as int]);
            return false;
        }
        i = i + 1;
    }
    assert(s@.take(prefix@.len() as int) =~= prefix@);
    true
}

/// What follows `prefix`, if `s` begins with it.
pub fn strip_prefix(s: &[char], prefix: &str) -> (rest: Option<Vec<char>>)
    ensures
        rest is Some <==> begins_with(s@, prefix@),
        rest matches Some(r) ==> r@ == s@.skip(prefix@.len() as int),
{
    let p = chars_of(prefix);
    if starts_with(s, &p) {
        let r = copy_range(s, p.len(), s.len());
        assert(r@ =~= s@.skip(prefix@.len() as int));
        Some(r)
    } else {
        None
    }
}

/// The value of a digit in `radix`, with letters of either case above nine.
pub open spec fn digit_value(c: char, radix: int) -> Option<int> {
    let n = c as int;
    let v = if 48 <= n <= 57 {
        n - 48
    } else if 97 <= n <= 122 {
        n - 87
    } else if 65 <= n <= 90 {
        n - 55
    } else {
        -1
    };
    if 0 <= v < radix {
        Some(v)
    } else {
        None
    }
}

/// The number that a run of digits stands for, if it is one.
pub open spec fn digits_value(s: Seq<char>, radix: int) -> Option<int>
    decreases s.len(),
{
    if s.len() == 0 {
        Some(0)
    } else {
        match (digits_value(s.drop_last(), radix), digit_value(s.last(), radix)) {
            (Some(head), Some(d)) => Some(head * radix + d),
            _ => None,
        }
    }
}

/// The number that a text stands for: an optional plus sign, then at least one
/// digit and nothing else.
pub open spec fn number_in(s: Seq<char>, radix: int) -> Option<int> {
    let body = if s.len() > 0 && s[0] == '+' {
        s.skip(1)
    } else {
        s
    };
    if body.len() == 0 {
        None
    } else {
        digits_value(body, radix)
    }
}

/// The number that a text stands for, if it is at most `max`.
pub open spec fn number_up_to(s: Seq<char>, radix: int, max: int) -> Option<int> {
    match number_in(s, radix) {
        Some(n) => if n <= max {
            Some(n)
        } else {
            None
        },
        None => None,
    }
}

/// Digits stand for numbers from zero up.
pub proof fn lemma_digits_value_nonnegative(s: Seq<char>, radix: int)
    requires
        radix >= 2,
    ensures
        digits_value(s, radix) matches Some(n) ==> n >= 0,
    decreases s.len(),
{
    if s.len() > 0 {
        lemma_digits_value_nonnegative(s.drop_last(), radix);
        if let Some(head) = digits_value(s.drop_last(), radix) {
            assert(head * radix >= 0) by (nonlinear_arith)
                requires
                    head >= 0,
                    radix >= 2,
            ;
        }
    }
}

/// More digits never make a number smaller, and never mend one that is none.
pub proof fn lemma_digits_value_grows(s: Seq<char>, radix: int, n: int)
    requires
        radix >= 2,
        0 <= n <= s.len(),
    ensures
        digits_value(s.take(n), radix) is None ==> digits_value(s, radix) is None,
        digits_value(s.take(n), radix) matches Some(a) ==> (digits_value(s, radix) matches Some(b)
            ==> a <= b),
    decreases s.len(),
{
    if n < s.len() {
        let rest = s.drop_last();
        lemma_digits_value_grows(rest, radix, n);
        assert(rest.take(n) =~= s.take(n));
        lemma_digits_value_nonnegative(rest, radix);
        if let Some(head) = digits_value(rest, radix) {
            assert(head * radix >= head) by (nonlinear_arith)
                requires
                    head >= 0,
                    radix >= 2,
            ;
        }
    } else {
        assert(s.take(n) =~= s);
    }
}

fn value_of_digit(c: char, radix: u64) -> (v: Option<u64>)
    requires
        2 <= radix <= 36,
    ensures
        v is Some <==> digit_value(c, radix as int) is Some,
        v matches Some(d) ==> digit_value(c, radix as int) == Some(d as int),
{
    let n: u64 = c as u64;
    let v: u64 = if 48 <= n && n <= 57 {
        n - 48
    } else if 97 <= n && n <= 122 {
        n - 87
    } else if 65 <= n && n <= 90 {
        n - 55
    } else {
        return None;
    };
    if v < radix {
        Some(v)
    } else {
        None
    }
}

/// Read a number written in `radix`: an optional plus sign, then digits only.
pub fn parse_number(s: &[char], radix: u64) -> (n: Option<u64>)
    requires
        2 <= radix <= 36,
    ensures
        n is Some <==> number_up_to(s@, radix as int, u64::MAX as int) is Some,
        n matches Some(v) ==> number_up_to(s@, radix as int, u64::MAX as int) == Some(v as int),
{
    let start: usize = if s.len() > 0 && s[0] == '+' {
        1
    } else {
        0
    };
    let ghost body = if start == 1 {
        s@.skip(1)
    } else {
        s@
    };
    if start == s.len() {
        assert(body.len() == 0);
        return None;
    }
    let mut n: u64 = 0;
    let mut i: usize = start;
    assert(body.take(0) =~= Seq::empty());
    while i < s.len()
        invariant
            2 <= radix <= 36,
            start <= i <= s@.len(),
            start <= 1,
            body == (if start == 1 {
                s@.skip(1)
            } else {
                s@
            }),
            body.len() > 0,
            start == 1 <==> s@.len() > 0 && s@[0] == '+',
            digits_value(body.take(i - start), radix as int) == Some(n as int),
        decreases s@.len() - i,
    {
        let ghost k = i - start;
        proof {
            assert(body.take(k + 1).drop_last() =~= body.take(k));
            assert(body.take(k + 1).last() == s@[i as int]);
            lemma_digits_value_grows(body, radix as int, k + 1);
            lemma_digits_value_nonnegative(body, radix as int);
        }
        let d: u64 = match value_of_digit(s[i], radix) {
            Some(d) => d,
            None => {
                return None;
            },
        };
        match n.checked_mul(radix) {
            Some(scaled) => {
                match scaled.checked_add(d) {
                    Some(sum) => {
                        n = sum;
                    },
                    None => {
                        return None;
                    },
                }
            },
            None => {
                return None;
            },
        }
        i = i + 1;
    }
    assert(body.take(body.len() as int) =~= body);
    Some(n)
}

/// Read a number written in `radix` that is a `usize`.
pub fn parse_size_number(s: &[char], radix: u64) -> (n: Option<usize>)
    requires
        2 <= radix <= 36,
    ensures
        n is Some <==> number_up_to(s@, radix as int, usize::MAX as int) is Some,
        n matches Some(v) ==> number_up_to(s@, radix as int, usize::MAX as int) == Some(v as int),
{
    match parse_number(s, radix) {
        Some(v) => if v <= usize::MAX as u64 {
            Some(v as usize)
        } else {
            None
        },
        None => None,
    }
}

/// A written number reads back as itself.
pub proof fn law_digits_read_back(n: int, radix: int)
    requires
        0 <= n,
        2 <= radix <= 36,
    ensures
        digits_value(digits(n, radix), radix) == Some(n),
        digits(n, radix).len() > 0,
    decreases n,
{
    if n < radix {
        let s = seq![digit_char(n)];
        assert(s.drop_last() =~= Seq::empty());
        assert(digits_value(s.drop_last(), radix) == Some(0int));
        assert(0 * radix == 0) by (nonlinear_arith);
        assert(digit_value(digit_char(n), radix) == Some(n));
    } else {
        assert(0 <= n / radix < n) by (nonlinear_arith)
            requires
                n >= radix,
                radix >= 2,
        ;
        law_digits_read_back(n / radix, radix);
        let s = digits(n, radix);
        assert(s.drop_last() =~= digits(n / radix, radix));
        vstd::arithmetic::div_mod::lemma_fundamental_div_mod(n, radix);
        vstd::arithmetic::div_mod::lemma_mod_bound(n, radix);
        assert((n / radix) * radix == radix * (n / radix)) by (nonlinear_arith);
        assert(digit_value(digit_char(n % radix), radix) == Some(n % radix));
    }
}

/// Zeros in front do not change what digits stand for.
pub proof fn lemma_zeros_in_front(s: Seq<char>, zeros: nat, radix: int)
    requires
        2 <= radix <= 36,
    ensures
        digits_value(Seq::new(zeros, |i: int| '0') + s, radix) == digits_value(s, radix),
    decreases s.len(), zeros,
{
    let front = Seq::new(zeros, |i: int| '0');
    let all = front + s;
    if s.len() > 0 {
        lemma_zeros_in_front(s.drop_last(), zeros, radix);
        assert(all.drop_last() =~= front + s.drop_last());
        assert(all.last() == s.last());
    } else if zeros > 0 {
        lemma_zeros_in_front(s, (zeros - 1) as nat, radix);
        assert(all.drop_last() =~= Seq::new((zeros - 1) as nat, |i: int| '0') + s);
        assert(all.last() == '0');
        assert(digit_value('0', radix) == Some(0int));
        assert(0 * radix == 0) by (nonlinear_arith);
    } else {
        assert(all =~= s);
    }
}

/// How many hexadecimal digits a number takes at most.
proof fn lemma_hex_length(n: int, width: nat)
    requires
        0 <= n < vstd::arithmetic::power::pow(16, width),
        1 <= width,
    ensures
        digits(n, 16).len() <= width,
    decreases width,
{
    reveal(vstd::arithmetic::power::pow);
    if n >= 16 {
        if width == 1 {
            assert(vstd::arithmetic::power::pow(16, 0) == 1);
        } else {
            lemma_hex_length(n / 16, (width - 1) as nat);
        }
    }
}

/// A word in hexadecimal has sixteen digits, and reads back as itself.
pub proof fn law_hex16_reads_back(n: u64)
    ensures
        hex16(n as int).len() == 16,
        digits_value(hex16(n as int), 16) == Some(n as int),
{
    assert(vstd::arithmetic::power::pow(16, 16) == 0x1_0000_0000_0000_0000) by {
        reveal_with_fuel(vstd::arithmetic::power::pow, 17);
    }
    lemma_hex_length(n as int, 16);
    law_digits_read_back(n as int, 16);
    let s = hex(n as int);
    if s.len() < 16 {
        lemma_zeros_in_front(s, (16 - s.len()) as nat, 16);
    }
}

/// Whether `part` stands in `s` at `at`.
pub open spec fn stands_at(s: Seq<char>, part: Seq<char>, at: int) -> bool {
    0 <= at && at + part.len() <= s.len() && s.subrange(at, at + part.len()) == part
}

/// Whether `part` stands somewhere in `s`.
pub open spec fn holds_text(s: Seq<char>, part: Seq<char>) -> bool {
    exists|at: int| #[trigger] stands_at(s, part, at)
}

/// Whether `part` stands somewhere in `s`.
pub fn contains_text(s: &str, part: &str) -> (b: bool)
    ensures
        b == holds_text(s@, part@),
{
    let chars = chars_of(s);
    let wanted = chars_of(part);
    let total: usize = chars.len();
    let width: usize = wanted.len();
    if width > total {
        return false;
    }
    let last: usize = total - width;
    let mut at: usize = 0;
    loop
        invariant
            chars@ == s@,
            wanted@ == part@,
            at <= last,
            total == chars@.len(),
            width == wanted@.len(),
            last == total - width,
            forall|k: int| 0 <= k < at ==> !#[trigger] stands_at(s@, part@, k),
        decreases last - at,
    {
        let here = copy_range(&chars, at, at + width);
        if same_chars(&here, &wanted) {
            assert(stands_at(s@, part@, at as int));
            return true;
        }
        assert(!stands_at(s@, part@, at as int));
        if at == last {
            assert forall|k: int| !#[trigger] stands_at(s@, part@, k) by {}
            return false;
        }
        at = at + 1;
    }
}

/// The text of an optional string.
pub open spec fn optional(s: Option<String>) -> Option<Seq<char>> {
    match s {
        Some(t) => Some(t@),
        None => None,
    }
}

/// A copy of an optional string.
pub fn copy_optional(s: &Option<String>) -> (c: Option<String>)
    ensures
        c == *s,
{
    match s {
        Some(t) => Some(t.clone()),
        None => None,
    }
}

/// Whether `a` comes before `b` in the order of their characters.
pub open spec fn sorts_before(a: Seq<char>, b: Seq<char>) -> bool
    decreases a.len(),
{
    if b.len() == 0 {
        false
    } else if a.len() == 0 {
        true
    } else if a[0] == b[0] {
        sorts_before(a.skip(1), b.skip(1))
    } else {
        a[0] < b[0]
    }
}

/// Whether `a` comes before `b` in the order of their characters.
pub fn is_before(a: &str, b: &str) -> (before: bool)
    ensures
        before == sorts_before(a@, b@),
{
    let x = chars_of(a);
    let y = chars_of(b);
    let mut i: usize = 0;
    assert(a@.skip(0) =~= a@);
    assert(b@.skip(0) =~= b@);
    while i < x.len() && i < y.len() && x[i] == y[i]
        invariant
            x@ == a@,
            y@ == b@,
            i <= x@.len(),
            i <= y@.len(),
            sorts_before(a@.skip(i as int), b@.skip(i as int)) == sorts_before(a@, b@),
        decreases x@.len() - i,
    {
        assert(a@.skip(i as int).skip(1) =~= a@.skip(i + 1));
        assert(b@.skip(i as int).skip(1) =~= b@.skip(i + 1));
        i = i + 1;
    }
    if i == y.len() {
        false
    } else if i == x.len() {
        true
    } else {
        x[i] < y[i]
    }
}

/// Of two different texts one comes before the other, and not both.
pub proof fn lemma_sorts_before_total(a: Seq<char>, b: Seq<char>)
    ensures
        a != b ==> sorts_before(a, b) || sorts_before(b, a),
        !(sorts_before(a, b) && sorts_before(b, a)),
        !sorts_before(a, a),
    decreases a.len(),
{
    if a.len() > 0 && b.len() > 0 && a[0] == b[0] {
        lemma_sorts_before_total(a.skip(1), b.skip(1));
        if a.skip(1) == b.skip(1) {
            assert(a =~= seq![a[0]] + a.skip(1));
            assert(b =~= seq![b[0]] + b.skip(1));
        }
    }
    if a.len() == 0 && b.len() == 0 {
        assert(a =~= b);
    }
    if a.len() > 0 {
        lemma_sorts_before_total(a.skip(1), a.skip(1));
    }
}

/// The order of texts is transitive.
pub proof fn lemma_sorts_before_transitive(a: Seq<char>, b: Seq<char>, c: Seq<char>)
    requires
        sorts_before(a, b),
        sorts_before(b, c),
    ensures
        sorts_before(a, c),
    decreases a.len(),
{
    if a.len() > 0 && a[0] == b[0] && b[0] == c[0] {
        lemma_sorts_before_transitive(a.skip(1), b.skip(1), c.skip(1));
    }
}

/// The texts that a list of character lists holds.
pub open spec fn texts(lists: Seq<Vec<char>>) -> Seq<Seq<char>> {
    Seq::new(lists.len(), |i: int| lists[i]@)
}

/// `s` without a carriage return at the end.
pub open spec fn without_return(s: Seq<char>) -> Seq<char> {
    if s.len() > 0 && s.last() == '\r' {
        s.drop_last()
    } else {
        s
    }
}

/// The lines of a text. A line ends at a line feed, with or without a carriage
/// return before it; the last line needs no end.
pub open spec fn lines_of(s: Seq<char>) -> Seq<Seq<char>>
    decreases s.len(),
{
    if s.len() == 0 {
        Seq::empty()
    } else {
        let i = position_of(s, '\n', 0);
        if i >= s.len() || i < 0 {
            seq![s]
        } else {
            seq![without_return(s.take(i))] + lines_of(s.skip(i + 1))
        }
    }
}

/// Where a character stands in what is left of a text.
proof fn lemma_position_in_rest(s: Seq<char>, c: char, from: int, k: int)
    requires
        0 <= from <= s.len(),
        0 <= k <= s.len() - from,
    ensures
        position_of(s.skip(from), c, k) == position_of(s, c, from + k) - from,
    decreases s.len() - from - k,
{
    if k < s.len() - from && s[from + k] != c {
        lemma_position_in_rest(s, c, from, k + 1);
    }
}

/// The lines of a text.
pub fn split_lines(s: &[char]) -> (lines: Vec<Vec<char>>)
    ensures
        texts(lines@) == lines_of(s@),
{
    let mut lines: Vec<Vec<char>> = Vec::new();
    let mut at: usize = 0;
    assert(s@.skip(0) =~= s@);
    assert(texts(lines@) + lines_of(s@) =~= lines_of(s@));
    while at < s.len()
        invariant
            at <= s@.len(),
            texts(lines@) + lines_of(s@.skip(at as int)) == lines_of(s@),
        decreases s@.len() - at,
    {
        let ghost rest = s@.skip(at as int);
        let ghost lines0 = lines@;
        let end = find_char(s, '\n', at);
        proof {
            lemma_position_in_rest(s@, '\n', at as int, 0);
            lemma_position_of(s@, '\n', at as int);
        }
        if end == s.len() {
            let line = copy_range(s, at, end);
            assert(line@ =~= rest);
            lines.push(line);
            at = end;
            proof {
                assert(lines_of(rest) =~= seq![rest]);
                assert(texts(lines@) =~= texts(lines0) + seq![rest]);
                assert(s@.skip(at as int).len() == 0);
                assert(lines_of(s@.skip(at as int)) =~= Seq::empty());
                assert(texts(lines@) + lines_of(s@.skip(at as int)) =~= texts(lines@));
            }
        } else {
            let stop: usize = if end > at && s[end - 1] == '\r' {
                end - 1
            } else {
                end
            };
            let line = copy_range(s, at, stop);
            let ghost head = without_return(rest.take(end - at));
            assert(line@ =~= head);
            lines.push(line);
            proof {
                assert(rest.skip(end - at + 1) =~= s@.skip(end + 1));
                assert(lines_of(rest) == seq![head] + lines_of(s@.skip(end + 1)));
                assert(texts(lines@) =~= texts(lines0) + seq![head]);
                assert(texts(lines@) + lines_of(s@.skip(end + 1)) =~= texts(lines0) + (seq![head]
                    + lines_of(s@.skip(end + 1))));
            }
            at = end + 1;
        }
    }
    assert(s@.skip(at as int).len() == 0);
    assert(texts(lines@) + Seq::<Seq<char>>::empty() =~= texts(lines@));
    lines
}

/// Where the run of characters ends that are blank, or are not, from `from` on.
pub open spec fn run_end(s: Seq<char>, blanks: bool, from: int) -> int
    decreases s.len() - from,
{
    if from >= s.len() {
        s.len() as int
    } else if is_blank(s[from]) == blanks {
        run_end(s, blanks, from + 1)
    } else {
        from
    }
}

/// A run ends within the text.
proof fn lemma_run_end(s: Seq<char>, blanks: bool, from: int)
    requires
        0 <= from <= s.len(),
    ensures
        from <= run_end(s, blanks, from) <= s.len(),
        from < s.len() && is_blank(s[from]) == blanks ==> from < run_end(s, blanks, from),
        run_end(s, blanks, from) < s.len() ==> is_blank(s[run_end(s, blanks, from)]) != blanks,
    decreases s.len() - from,
{
    if from < s.len() && is_blank(s[from]) == blanks {
        lemma_run_end(s, blanks, from + 1);
    }
}

fn find_run_end(s: &[char], blanks: bool, from: usize) -> (i: usize)
    requires
        from <= s@.len(),
    ensures
        i == run_end(s@, blanks, from as int),
        from <= i <= s@.len(),
{
    let mut i: usize = from;
    while i < s.len() && blank(s[i]) == blanks
        invariant
            from <= i <= s@.len(),
            run_end(s@, blanks, i as int) == run_end(s@, blanks, from as int),
        decreases s@.len() - i,
    {
        i = i + 1;
    }
    i
}

/// The words of `s` from `from` on: the longest runs without blanks.
pub open spec fn words_from(s: Seq<char>, from: int) -> Seq<Seq<char>>
    decreases s.len() - from,
{
    let start = run_end(s, true, from);
    let end = run_end(s, false, start);
    if 0 <= from <= start < end <= s.len() {
        seq![s.subrange(start, end)] + words_from(s, end)
    } else {
        Seq::empty()
    }
}

/// The first word of a text: what stands between the blanks in front of it and the first
/// blank behind it.
pub proof fn lemma_first_word(s: Seq<char>, start: int, end: int)
    requires
        0 <= start < end <= s.len(),
        forall|i: int| 0 <= i < start ==> is_blank(#[trigger] s[i]),
        forall|i: int| start <= i < end ==> !is_blank(#[trigger] s[i]),
        end < s.len() ==> is_blank(s[end]),
    ensures
        words_from(s, 0).len() > 0,
        words_from(s, 0)[0] == s.subrange(start, end),
{
    lemma_run_is(s, true, 0, start);
    lemma_run_is(s, false, start, end);
    assert(words_from(s, 0) == seq![s.subrange(start, end)] + words_from(s, end));
}

proof fn lemma_run_is(s: Seq<char>, blanks: bool, from: int, end: int)
    requires
        0 <= from <= end <= s.len(),
        forall|i: int| from <= i < end ==> is_blank(#[trigger] s[i]) == blanks,
        end < s.len() ==> is_blank(s[end]) != blanks,
    ensures
        run_end(s, blanks, from) == end,
    decreases end - from,
{
    if from < end {
        assert(is_blank(s[from]) == blanks);
        lemma_run_is(s, blanks, from + 1, end);
    }
}

/// The words of a text.
pub fn split_words(s: &[char]) -> (words: Vec<Vec<char>>)
    ensures
        texts(words@) == words_from(s@, 0),
{
    let mut words: Vec<Vec<char>> = Vec::new();
    let mut at: usize = 0;
    assert(texts(words@) + words_from(s@, 0) =~= words_from(s@, 0));
    loop
        invariant
            at <= s@.len(),
            texts(words@) + words_from(s@, at as int) == words_from(s@, 0),
        decreases s@.len() - at,
    {
        let start = find_run_end(s, true, at);
        let end = find_run_end(s, false, start);
        proof {
            lemma_run_end(s@, true, at as int);
            lemma_run_end(s@, false, start as int);
        }
        if start == end {
            assert(words_from(s@, at as int) =~= Seq::empty());
            assert(texts(words@) + words_from(s@, at as int) =~= texts(words@));
            return words;
        }
        let ghost words0 = words@;
        let word = copy_range(s, start, end);
        words.push(word);
        proof {
            assert(texts(words@) =~= texts(words0) + seq![word@]);
            assert(texts(words@) + words_from(s@, end as int) =~= texts(words0) + (seq![word@]
                + words_from(s@, end as int)));
        }
        at = end;
    }
}

/// A text without blanks at its ends is its own trimmed form.
pub proof fn lemma_trimmed_whole(s: Seq<char>)
    requires
        s.len() > 0,
        !is_blank(s[0]),
        !is_blank(s.last()),
    ensures
        trimmed(s) == s,
{
}

/// Decimal notation is made of decimal digits.
pub proof fn lemma_decimal_digits(n: int)
    requires
        n >= 0,
    ensures
        decimal(n).len() > 0,
        forall|i: int| 0 <= i < decimal(n).len() ==> 48 <= #[trigger] decimal(n)[i] as int <= 57,
    decreases n,
{
    if n >= 10 {
        lemma_decimal_digits(n / 10);
        let head = decimal(n / 10);
        assert(decimal(n) =~= head.push(digit_char(n % 10)));
        assert forall|i: int| 0 <= i < decimal(n).len() implies 48 <= #[trigger] decimal(
            n,
        )[i] as int <= 57 by {
            if i < head.len() {
                assert(decimal(n)[i] == head[i]);
            }
        }
    }
}

/// Hexadecimal notation is made of decimal digits and the letters from `a` to `f`.
pub proof fn lemma_hex_digits(n: int)
    requires
        n >= 0,
    ensures
        hex(n).len() > 0,
        forall|i: int|
            0 <= i < hex(n).len() ==> 48 <= #[trigger] hex(n)[i] as int <= 57 || 97 <= hex(
                n,
            )[i] as int <= 102,
    decreases n,
{
    if n >= 16 {
        lemma_hex_digits(n / 16);
        let head = hex(n / 16);
        assert(hex(n) =~= head.push(digit_char(n % 16)));
        assert forall|i: int| 0 <= i < hex(n).len() implies 48 <= #[trigger] hex(n)[i] as int <= 57
            || 97 <= hex(n)[i] as int <= 102 by {
            if i < head.len() {
                assert(hex(n)[i] == head[i]);
            }
        }
    }
}

/// So is a word in hexadecimal.
pub proof fn lemma_hex16_digits(n: u64)
    ensures
        forall|i: int|
            0 <= i < hex16(n as int).len() ==> 48 <= #[trigger] hex16(n as int)[i] as int <= 57
                || 97 <= hex16(n as int)[i] as int <= 102,
{
    lemma_hex_digits(n as int);
    let s = hex(n as int);
    let all = hex16(n as int);
    assert forall|i: int| 0 <= i < all.len() implies 48 <= #[trigger] all[i] as int <= 57 || 97
        <= all[i] as int <= 102 by {
        if s.len() < 16 && i >= 16 - s.len() {
            assert(all[i] == s[i - (16 - s.len())]);
        } else if s.len() >= 16 {
            assert(all[i] == s[i]);
        }
    }
}

/// A text without blanks in front is trimmed as its beginning is, if only blanks follow.
pub proof fn lemma_trimmed_before_blanks(s: Seq<char>, tail: Seq<char>)
    requires
        s.len() > 0,
        !is_blank(s[0]),
        !is_blank(s.last()),
        forall|i: int| 0 <= i < tail.len() ==> is_blank(#[trigger] tail[i]),
    ensures
        trimmed(s + tail) == s,
    decreases tail.len(),
{
    let all = s + tail;
    assert(trimmed_start(all) == all);
    if tail.len() > 0 {
        lemma_trimmed_before_blanks(s, tail.drop_last());
        assert(is_blank(tail[tail.len() - 1]));
        assert(all.last() == tail.last());
        assert(all.drop_last() =~= s + tail.drop_last());
        assert(trimmed_start(all.drop_last()) == all.drop_last());
    } else {
        assert(all =~= s);
    }
}

/// A number that is written in decimal on a line of its own reads back as itself.
pub proof fn law_number_on_a_line_reads_back(n: int, max: int)
    requires
        0 <= n <= max,
    ensures
        number_up_to(trimmed(decimal(n) + "\n"@), 10, max) == Some(n),
        number_up_to(decimal(n), 10, max) == Some(n),
{
    reveal_strlit("\n");
    lemma_decimal_digits(n);
    law_digits_read_back(n, 10);
    let s = decimal(n);
    assert(48 <= s[0] as int <= 57);
    assert(48 <= s[s.len() - 1] as int <= 57);
    lemma_trimmed_before_blanks(s, "\n"@);
}

/// Where in `order`, from `at` on, the text `i` belongs: before the first one
/// that it comes before.
pub open spec fn place_of(names: Seq<Seq<char>>, order: Seq<int>, i: int, at: int) -> int
    decreases order.len() - at,
{
    if at >= order.len() {
        order.len() as int
    } else if sorts_before(names[i], names[order[at]]) {
        at
    } else {
        place_of(names, order, i, at + 1)
    }
}

/// The positions of the first `n` texts in the order of the texts; equal texts
/// keep theirs.
pub open spec fn order_of(names: Seq<Seq<char>>, n: int) -> Seq<int>
    decreases n,
{
    if n <= 0 {
        Seq::empty()
    } else {
        let rest = order_of(names, n - 1);
        rest.insert(place_of(names, rest, n - 1, 0), n - 1)
    }
}

/// The texts that a list of strings holds.
pub open spec fn string_texts(names: Seq<String>) -> Seq<Seq<char>> {
    Seq::new(names.len(), |i: int| names[i]@)
}

/// Whether no text in `order` comes before one that stands earlier.
pub open spec fn in_order(names: Seq<Seq<char>>, order: Seq<int>) -> bool {
    forall|a: int, b: int|
        0 <= a < b < order.len() ==> !sorts_before(names[#[trigger] order[b]], names[#[trigger] order[a]])
}

/// Texts before the place do not come after, and the one at it does.
proof fn lemma_place_of(names: Seq<Seq<char>>, order: Seq<int>, i: int, at: int)
    requires
        0 <= at <= order.len(),
    ensures
        at <= place_of(names, order, i, at) <= order.len(),
        place_of(names, order, i, at) < order.len() ==> sorts_before(
            names[i],
            names[order[place_of(names, order, i, at)]],
        ),
        forall|k: int|
            at <= k < place_of(names, order, i, at) ==> !sorts_before(
                names[i],
                names[#[trigger] order[k]],
            ),
    decreases order.len() - at,
{
    if at < order.len() && !sorts_before(names[i], names[order[at]]) {
        lemma_place_of(names, order, i, at + 1);
    }
}

/// The order holds every position once, and the texts in it ascend.
pub proof fn law_order_is_sorted(names: Seq<Seq<char>>, n: int)
    requires
        0 <= n <= names.len(),
    ensures
        order_of(names, n).len() == n,
        forall|k: int| 0 <= k < n ==> 0 <= #[trigger] order_of(names, n)[k] < n,
        order_of(names, n).no_duplicates(),
        in_order(names, order_of(names, n)),
    decreases n,
{
    if n > 0 {
        law_order_is_sorted(names, n - 1);
        let rest = order_of(names, n - 1);
        let p = place_of(names, rest, n - 1, 0);
        lemma_place_of(names, rest, n - 1, 0);
        let order = order_of(names, n);
        assert(order =~= rest.insert(p, n - 1));
        assert forall|k: int| 0 <= k < n implies 0 <= #[trigger] order[k] < n by {
            if k < p {
                assert(order[k] == rest[k]);
            } else if k > p {
                assert(order[k] == rest[k - 1]);
            }
        }
        assert forall|a: int, b: int| 0 <= a < b < order.len() implies !sorts_before(
            names[#[trigger] order[b]],
            names[#[trigger] order[a]],
        ) && order[a] != order[b] by {
            lemma_sorts_before_total(names[order[a]], names[order[b]]);
            let ra = if a < p {
                a
            } else {
                a - 1
            };
            let rb = if b < p {
                b
            } else {
                b - 1
            };
            if a != p && b != p {
                assert(order[a] == rest[ra]);
                assert(order[b] == rest[rb]);
            } else if b == p {
                assert(order[a] == rest[a]);
            } else {
                assert(order[b] == rest[b - 1]);
                let next = names[rest[p]];
                if b - 1 > p {
                    assert(!sorts_before(names[rest[b - 1]], names[rest[p]]));
                    if sorts_before(names[order[b]], names[order[a]]) {
                        lemma_sorts_before_transitive(names[order[b]], names[order[a]], next);
                    }
                }
            }
        }
        assert forall|a: int, b: int| 0 <= a < order.len() && 0 <= b < order.len() && a != b implies order[a]
            != order[b] by {
            if a < b {
                assert(order[a] != order[b]);
            } else {
                assert(order[b] != order[a]);
            }
        }
    }
}

/// The positions of the texts in the order of the texts.
pub fn sorted_order(names: &[String]) -> (order: Vec<usize>)
    ensures
        order@.len() == names@.len(),
        forall|k: int|
            0 <= k < order@.len() ==> #[trigger] order@[k] == order_of(
                string_texts(names@),
                names@.len() as int,
            )[k],
        forall|k: int| 0 <= k < order@.len() ==> #[trigger] order@[k] < names@.len(),
{
    let ghost all = string_texts(names@);
    let mut order: Vec<usize> = Vec::new();
    let mut i: usize = 0;
    while i < names.len()
        invariant
            i <= names@.len(),
            all == string_texts(names@),
            order@.len() == i,
            order_of(all, i as int).len() == i,
            forall|k: int| 0 <= k < i ==> #[trigger] order@[k] == order_of(all, i as int)[k],
            forall|k: int| 0 <= k < i ==> #[trigger] order@[k] < i,
        decreases names@.len() - i,
    {
        let ghost rest = order_of(all, i as int);
        let ghost before = order@;
        let mut at: usize = 0;
        while at < order.len() && !is_before(&names[i], &names[order[at]])
            invariant
                i < names@.len(),
                at <= order@.len(),
                order@ == before,
                before.len() == i,
                rest.len() == i,
                all == string_texts(names@),
                forall|k: int| 0 <= k < i ==> #[trigger] before[k] == rest[k],
                forall|k: int| 0 <= k < i ==> #[trigger] before[k] < i,
                place_of(all, rest, i as int, at as int) == place_of(all, rest, i as int, 0),
            decreases order@.len() - at,
        {
            assert(before[at as int] == rest[at as int]);
            at = at + 1;
        }
        proof {
            if at < before.len() {
                assert(before[at as int] == rest[at as int]);
            }
            law_order_is_sorted(all, i + 1);
            assert(place_of(all, rest, i as int, 0) == at);
            assert(order_of(all, i + 1) =~= rest.insert(at as int, i as int));
        }
        order.insert(at, i);
        proof {
            assert forall|k: int| 0 <= k < i + 1 implies #[trigger] order@[k] == order_of(
                all,
                i + 1,
            )[k] && order@[k] < i + 1 by {
                if k < at {
                    assert(order@[k] == before[k]);
                } else if k > at {
                    assert(order@[k] == before[k - 1]);
                }
            }
        }
        i = i + 1;
    }
    order
}

/// `n` blanks.
pub open spec fn blanks(n: int) -> Seq<char> {
    Seq::new(
        if n > 0 {
            n as nat
        } else {
            0
        },
        |i: int| ' ',
    )
}

/// `s` with blanks behind it up to `width` characters.
pub open spec fn left_aligned(s: Seq<char>, width: int) -> Seq<char> {
    s + blanks(width - s.len())
}

/// `s` with blanks in front of it up to `width` characters.
pub open spec fn right_aligned(s: Seq<char>, width: int) -> Seq<char> {
    blanks(width - s.len()) + s
}

fn blanks_string(n: usize) -> (s: String)
    ensures
        s@ == blanks(n as int),
{
    let mut s = String::new();
    let mut i: usize = 0;
    while i < n
        invariant
            i <= n,
            s@ == blanks(i as int),
        decreases n - i,
    {
        s.push(' ');
        i = i + 1;
        assert(s@ =~= blanks(i as int));
    }
    s
}

/// `s` with blanks behind it up to `width` characters.
pub fn align_left(s: &str, width: usize) -> (t: String)
    ensures
        t@ == left_aligned(s@, width as int),
{
    let len: usize = chars_of(s).len();
    let mut t = String::new();
    t.append(s);
    if len < width {
        t.append(&blanks_string(width - len));
    }
    assert(t@ =~= left_aligned(s@, width as int));
    t
}

/// `s` with blanks in front of it up to `width` characters.
pub fn align_right(s: &str, width: usize) -> (t: String)
    ensures
        t@ == right_aligned(s@, width as int),
{
    let len: usize = chars_of(s).len();
    let mut t = String::new();
    if len < width {
        t.append(&blanks_string(width - len));
    }
    t.append(s);
    assert(t@ =~= right_aligned(s@, width as int));
    t
}

/// The texts in order, with a comma and a blank between them.
pub open spec fn joined(parts: Seq<Seq<char>>) -> Seq<char>
    decreases parts.len(),
{
    if parts.len() == 0 {
        Seq::empty()
    } else if parts.len() == 1 {
        parts[0]
    } else {
        joined(parts.drop_last()) + ", "@ + parts.last()
    }
}

/// The texts in order, with a comma and a blank between them.
pub fn join(parts: &[String]) -> (s: String)
    ensures
        s@ == joined(string_texts(parts@)),
{
    let ghost all = string_texts(parts@);
    let mut s = String::new();
    let mut i: usize = 0;
    assert(all.take(0) =~= Seq::empty());
    while i < parts.len()
        invariant
            i <= parts@.len(),
            all == string_texts(parts@),
            s@ == joined(all.take(i as int)),
        decreases parts@.len() - i,
    {
        assert(all.take(i + 1).drop_last() =~= all.take(i as int));
        assert(all.take(i + 1).last() == parts@[i as int]@);
        let ghost before = s@;
        if i > 0 {
            s.append(", ");
        }
        s.append(&parts[i]);
        proof {
            if i == 0 {
                assert(s@ =~= parts@[0]@);
                assert(all.take(1)[0] == parts@[0]@);
            } else {
                assert(s@ =~= before + ", "@ + parts@[i as int]@);
            }
        }
        i = i + 1;
    }
    assert(all.take(all.len() as int) =~= all);
    s
}

/// A part of a text stands in it.
pub proof fn lemma_holds_part(front: Seq<char>, part: Seq<char>, behind: Seq<char>)
    ensures
        holds_text(front + part + behind, part),
{
    let s = front + part + behind;
    let at = front.len() as int;
    assert(s.subrange(at, at + part.len()) =~= part);
    assert(stands_at(s, part, at));
}

/// What stands in a part of a text stands in the text.
pub proof fn lemma_holds_within(front: Seq<char>, s: Seq<char>, behind: Seq<char>, part: Seq<char>)
    requires
        holds_text(s, part),
    ensures
        holds_text(front + s + behind, part),
{
    let at = choose|at: int| #[trigger] stands_at(s, part, at);
    let whole = front + s + behind;
    assert(whole.subrange(front.len() + at, front.len() + at + part.len()) =~= s.subrange(
        at,
        at + part.len(),
    ));
    assert(stands_at(whole, part, front.len() + at));
}

/// Each text stands among the joined ones.
pub proof fn law_joined_texts_are_held(parts: Seq<Seq<char>>, i: int)
    requires
        0 <= i < parts.len(),
    ensures
        holds_text(joined(parts), parts[i]),
    decreases parts.len(),
{
    let none = Seq::<char>::empty();
    if parts.len() == 1 {
        lemma_holds_part(none, parts[0], none);
        assert(none + parts[0] + none =~= joined(parts));
    } else {
        let front = joined(parts.drop_last());
        if i == parts.len() - 1 {
            lemma_holds_part(front + ", "@, parts[i], none);
            assert(front + ", "@ + parts[i] + none =~= joined(parts));
        } else {
            law_joined_texts_are_held(parts.drop_last(), i);
            let behind = ", "@ + parts.last();
            lemma_holds_within(none, front, behind, parts[i]);
            assert(none + front + behind =~= joined(parts));
        }
    }
}

/// An aligned text is at least as long as asked for, is itself at the side it is aligned
/// to, and is blank everywhere else.
pub proof fn law_aligned_texts(s: Seq<char>, width: int)
    ensures
        left_aligned(s, width).len() >= width,
        left_aligned(s, width).len() == width || left_aligned(s, width) == s,
        left_aligned(s, width).take(s.len() as int) == s,
        forall|i: int|
            s.len() <= i < left_aligned(s, width).len() ==> #[trigger] left_aligned(s, width)[i]
                == ' ',
        right_aligned(s, width).len() == left_aligned(s, width).len(),
        right_aligned(s, width).skip(right_aligned(s, width).len() - s.len()) == s,
        forall|i: int|
            0 <= i < right_aligned(s, width).len() - s.len() ==> #[trigger] right_aligned(
                s,
                width,
            )[i] == ' ',
{
    assert(left_aligned(s, width).take(s.len() as int) =~= s);
    assert(right_aligned(s, width).skip(right_aligned(s, width).len() - s.len()) =~= s);
    if s.len() >= width {
        assert(left_aligned(s, width) =~= s);
    }
}

/// How many blanks stand in front of a text.
proof fn lemma_trimmed_start(s: Seq<char>) -> (low: int)
    ensures
        0 <= low <= s.len(),
        trimmed_start(s) == s.skip(low),
        forall|i: int| 0 <= i < low ==> is_blank(#[trigger] s[i]),
        low < s.len() ==> !is_blank(s[low]),
    decreases s.len(),
{
    if s.len() > 0 && is_blank(s[0]) {
        let low = lemma_trimmed_start(s.skip(1));
        assert(s.skip(1).skip(low) =~= s.skip(low + 1));
        assert forall|i: int| 0 <= i < low + 1 implies is_blank(#[trigger] s[i]) by {
            if i > 0 {
                assert(is_blank(s.skip(1)[i - 1]));
            }
        }
        low + 1
    } else {
        assert(s.skip(0) =~= s);
        0
    }
}

/// Where the blanks at the end of a text begin.
proof fn lemma_trimmed_end(s: Seq<char>) -> (high: int)
    ensures
        0 <= high <= s.len(),
        trimmed_end(s) == s.take(high),
        forall|i: int| high <= i < s.len() ==> is_blank(#[trigger] s[i]),
        0 < high ==> !is_blank(s[high - 1]),
    decreases s.len(),
{
    if s.len() > 0 && is_blank(s.last()) {
        let high = lemma_trimmed_end(s.drop_last());
        assert(s.drop_last().take(high) =~= s.take(high));
        assert forall|i: int| high <= i < s.len() implies is_blank(#[trigger] s[i]) by {
            if i < s.len() - 1 {
                assert(is_blank(s.drop_last()[i]));
            }
        }
        high
    } else {
        assert(s.take(s.len() as int) =~= s);
        s.len() as int
    }
}

/// Trimming takes blanks away at both ends until none is left there, and nothing else:
/// what is left stands between two places, outside which all is blank.
pub proof fn law_only_blanks_are_trimmed(s: Seq<char>) -> (ends: (int, int))
    ensures
        0 <= ends.0 <= ends.1 <= s.len(),
        trimmed(s) == s.subrange(ends.0, ends.1),
        forall|i: int| 0 <= i < ends.0 ==> is_blank(#[trigger] s[i]),
        forall|i: int| ends.1 <= i < s.len() ==> is_blank(#[trigger] s[i]),
        ends.0 < ends.1 ==> !is_blank(s[ends.0]) && !is_blank(s[ends.1 - 1]),
{
    let low = lemma_trimmed_start(s);
    let rest = s.skip(low);
    let high = lemma_trimmed_end(rest);
    assert(rest.take(high) =~= s.subrange(low, low + high));
    assert forall|i: int| low + high <= i < s.len() implies is_blank(#[trigger] s[i]) by {
        assert(is_blank(rest[i - low]));
    }
    assert(high > 0 ==> rest[high - 1] == s[low + high - 1]);
    (low, low + high)
}

/// A line feed ends a line, and the lines of what stands behind it follow.
pub proof fn law_lines_follow_each_other(line: Seq<char>, rest: Seq<char>)
    requires
        !line.contains('\n'),
    ensures
        lines_of(line + seq!['\n'] + rest) == seq![without_return(line)] + lines_of(rest),
        line.len() > 0 ==> lines_of(line) == seq![line],
{
    let s = line + seq!['\n'] + rest;
    lemma_position_of(s, '\n', 0);
    let i = position_of(s, '\n', 0);
    assert(s[line.len() as int] == '\n');
    if i < line.len() {
        assert(line[i] == '\n');
    }
    assert(s.take(i) =~= line);
    assert(s.skip(i + 1) =~= rest);
    lemma_position_of(line, '\n', 0);
    let k = position_of(line, '\n', 0);
    if k < line.len() {
        assert(line[k] == '\n');
    }
}

proof fn lemma_run_end_behind(front: Seq<char>, s: Seq<char>, blanks: bool, from: int)
    requires
        0 <= from <= s.len(),
    ensures
        run_end(front + s, blanks, front.len() + from) == front.len() + run_end(s, blanks, from),
    decreases s.len() - from,
{
    if from < s.len() {
        assert((front + s)[front.len() + from] == s[from]);
        if is_blank(s[from]) == blanks {
            lemma_run_end_behind(front, s, blanks, from + 1);
        }
    }
}

proof fn lemma_words_behind(front: Seq<char>, s: Seq<char>, from: int)
    requires
        0 <= from <= s.len(),
    ensures
        words_from(front + s, front.len() + from) == words_from(s, from),
    decreases s.len() - from,
{
    let whole = front + s;
    let n = front.len() as int;
    let start = run_end(s, true, from);
    lemma_run_end(s, true, from);
    lemma_run_end_behind(front, s, true, from);
    let end = run_end(s, false, start);
    lemma_run_end(s, false, start);
    lemma_run_end_behind(front, s, false, start);
    if start < end {
        lemma_words_behind(front, s, end);
        assert(whole.subrange(n + start, n + end) =~= s.subrange(start, end));
    }
}

/// A blank ends a word, and the words of what stands behind it follow. Blanks in front
/// of a text count for nothing.
pub proof fn law_words_follow_each_other(word: Seq<char>, gap: char, rest: Seq<char>)
    requires
        is_blank(gap),
        forall|i: int| 0 <= i < word.len() ==> !is_blank(#[trigger] word[i]),
    ensures
        word.len() > 0 ==> words_from(word + seq![gap] + rest, 0) == seq![word] + words_from(
            rest,
            0,
        ),
        word.len() > 0 ==> words_from(word, 0) == seq![word],
        words_from(seq![gap] + rest, 0) == words_from(rest, 0),
{
    let none = Seq::<char>::empty();
    let tail = seq![gap] + rest;
    lemma_words_behind(seq![gap], rest, 0);
    assert(tail[0] == gap);
    assert(run_end(tail, true, 0) == run_end(tail, true, 1));
    lemma_run_end_behind(seq![gap], rest, true, 0);
    lemma_run_end(rest, true, 0);
    let start = run_end(rest, true, 0);
    lemma_run_end(rest, false, start);
    lemma_run_end_behind(seq![gap], rest, false, start);
    assert(words_from(tail, 0) == words_from(tail, 1));
    if word.len() > 0 {
        let s = word + seq![gap] + rest;
        assert(s =~= word + tail);
        let n = word.len() as int;
        assert(s[0] == word[0]);
        assert forall|i: int| 0 <= i < n implies is_blank(#[trigger] s[i]) == false by {
            assert(s[i] == word[i]);
        }
        assert(s[n] == gap);
        lemma_run_is(s, true, 0, 0);
        lemma_run_is(s, false, 0, n);
        assert(s.subrange(0, n) =~= word);
        lemma_words_behind(word, tail, 0);
        lemma_run_is(word, true, 0, 0);
        lemma_run_is(word, false, 0, n);
        assert(word.subrange(0, n) =~= word);
        lemma_run_is(word, true, n, n);
        lemma_run_is(word, false, n, n);
        assert(words_from(word, n) =~= Seq::empty());
        assert(words_from(word, 0) =~= seq![word]);
    }
}

/// A text holds itself.
pub proof fn lemma_holds_itself(s: Seq<char>)
    ensures
        holds_text(s, s),
{
    assert(s.subrange(0, s.len() as int) =~= s);
    assert(stands_at(s, s, 0));
}

/// Two texts one behind the other hold what either holds.
pub proof fn lemma_text_grows(s: Seq<char>, more: Seq<char>)
    ensures
        forall|part: Seq<char>| #[trigger] holds_text(s, part) ==> holds_text(s + more, part),
        forall|part: Seq<char>| #[trigger] holds_text(more, part) ==> holds_text(s + more, part),
        holds_text(s + more, s),
        holds_text(s + more, more),
{
    let none = Seq::<char>::empty();
    assert(none + s + more =~= s + more);
    assert(s + more + none =~= s + more);
    assert forall|part: Seq<char>| #[trigger] holds_text(s, part) implies holds_text(
        s + more,
        part,
    ) by {
        lemma_holds_within(none, s, more, part);
    }
    assert forall|part: Seq<char>| #[trigger] holds_text(more, part) implies holds_text(
        s + more,
        part,
    ) by {
        lemma_holds_within(s, more, none, part);
    }
    lemma_holds_itself(s);
    lemma_holds_itself(more);
}

/// What was added to a text in two or three pieces stands in it.
pub proof fn lemma_holds_pieces(s: Seq<char>, a: Seq<char>, b: Seq<char>, c: Seq<char>)
    ensures
        holds_text(s + a + b, a + b),
        holds_text(s + a + b + c, a + b + c),
{
    let at = s.len() as int;
    assert(holds_text(s + a + b, a + b)) by {
        assert((s + a + b).subrange(at, at + (a + b).len()) =~= a + b);
        assert(stands_at(s + a + b, a + b, at));
    }
    assert(holds_text(s + a + b + c, a + b + c)) by {
        assert((s + a + b + c).subrange(at, at + (a + b + c).len()) =~= a + b + c);
        assert(stands_at(s + a + b + c, a + b + c, at));
    }
}

/// Capitals are the same letters: nothing changes but the case, and no lower-case letter
/// is left.
pub proof fn law_capitals_are_the_same_letters(s: Seq<char>)
    ensures
        same_ignoring_case(upper(s), s),
        forall|i: int|
            0 <= i < s.len() ==> !('a' <= #[trigger] upper(s)[i] && upper(s)[i] <= 'z'),
        upper(upper(s)) == upper(s),
{
    assert(upper(upper(s)) =~= upper(s));
}

/// A plus sign in front of a number changes nothing, but it is no number by itself, and
/// neither is nothing at all.
pub proof fn law_plus_sign_changes_nothing(s: Seq<char>, radix: int)
    ensures
        s.len() > 0 && s[0] != '+' ==> number_in(seq!['+'] + s, radix) == number_in(s, radix),
        number_in(seq!['+'], radix) is None,
        number_in(Seq::empty(), radix) is None,
{
    assert((seq!['+'] + s).skip(1) =~= s);
    assert(seq!['+'].skip(1) =~= Seq::<char>::empty());
}

/// The letters of a number may be capitals.
pub proof fn law_case_of_digits_does_not_matter(s: Seq<char>, radix: int)
    requires
        radix <= 36,
    ensures
        digits_value(upper(s), radix) == digits_value(s, radix),
    decreases s.len(),
{
    if s.len() > 0 {
        law_case_of_digits_does_not_matter(s.drop_last(), radix);
        assert(upper(s).drop_last() =~= upper(s.drop_last()));
        assert(upper(s).last() == upper_char(s.last()));
    }
}

/// Only digits below the radix make up a number.
pub proof fn law_numbers_are_made_of_digits(s: Seq<char>, radix: int, i: int)
    requires
        digits_value(s, radix) is Some,
        0 <= i < s.len(),
    ensures
        digit_value(s[i], radix) matches Some(d) && 0 <= d < radix,
    decreases s.len(),
{
    if i < s.len() - 1 {
        law_numbers_are_made_of_digits(s.drop_last(), radix, i);
        assert(s.drop_last()[i] == s[i]);
    }
}

/// The first difference decides which of two texts comes first, the lower character
/// before the higher; what another begins with comes before it.
pub proof fn law_first_difference_decides(
    common: Seq<char>,
    x: char,
    y: char,
    one: Seq<char>,
    two: Seq<char>,
)
    ensures
        x < y ==> sorts_before(common + seq![x] + one, common + seq![y] + two),
        x > y ==> !sorts_before(common + seq![x] + one, common + seq![y] + two),
        sorts_before(common, common + seq![y] + two),
        !sorts_before(common + seq![y] + two, common),
        !sorts_before(common, common),
    decreases common.len(),
{
    let a = common + seq![x] + one;
    let b = common + seq![y] + two;
    if common.len() > 0 {
        let rest = common.skip(1);
        law_first_difference_decides(rest, x, y, one, two);
        assert(a.skip(1) =~= rest + seq![x] + one);
        assert(b.skip(1) =~= rest + seq![y] + two);
        assert(a[0] == common[0] && b[0] == common[0]);
    } else {
        assert(a[0] == x && b[0] == y);
    }
}

/// A number below a million has at most six decimal digits.
pub proof fn lemma_six_digits(n: int)
    requires
        0 <= n < 1_000_000,
    ensures
        decimal(n).len() <= 6,
{
    reveal_with_fuel(digits, 7);
}

/// A number other than zero is written without a zero in front.
pub proof fn lemma_no_zero_in_front(n: int, radix: int)
    requires
        0 < n,
        2 <= radix <= 36,
    ensures
        digits(n, radix).len() > 0,
        digits(n, radix)[0] != '0',
    decreases n,
{
    if n >= radix {
        assert(0 < n / radix < n) by (nonlinear_arith)
            requires
                n >= radix,
                radix >= 2,
        ;
        lemma_no_zero_in_front(n / radix, radix);
    }
}

/// Which characters are blank: the white space of Unicode.
pub proof fn law_white_space_is_blank(c: char)
    ensures
        is_blank(c) <==> c == ' ' || ('\t' <= c && c <= '\r') || c == '\u{85}' || c == '\u{a0}' || c
            == '\u{1680}' || ('\u{2000}' <= c && c <= '\u{200a}') || c == '\u{2028}' || c
            == '\u{2029}' || c == '\u{202f}' || c == '\u{205f}' || c == '\u{3000}',
{
}

} // verus!
