//! Text: decimal and hexadecimal numbers, comparison, searching and
//! replacing, over the characters of a string.

use vstd::prelude::*;

verus! {

/// `String::push` of std appends one character at the end.
pub assume_specification[ String::push ](s: &mut String, c: char)
    ensures
        final(s)@ == old(s)@.push(c),
;

/// The decimal digit `d`, for `d` below ten.
pub open spec fn digit(d: int) -> char {
    (d + 48) as char
}

/// The decimal digits of `n`, without leading zeros.
pub open spec fn decimal(n: nat) -> Seq<char>
    decreases n,
{
    if n < 10 {
        seq![digit(n as int)]
    } else {
        decimal(n / 10).push(digit((n % 10) as int))
    }
}

/// The decimal digits of `n`, with a minus sign in front where it is negative.
pub open spec fn signed_decimal(n: int) -> Seq<char> {
    if n < 0 {
        seq!['-'] + decimal((-n) as nat)
    } else {
        decimal(n as nat)
    }
}

/// The hexadecimal digit `d`, in lower case, for `d` below sixteen.
pub open spec fn hex_digit(d: int) -> char {
    if d < 10 {
        (d + 48) as char
    } else {
        (d + 87) as char
    }
}

/// Two lower-case hexadecimal digits for each byte.
pub open spec fn hex(bytes: Seq<u8>) -> Seq<char> {
    Seq::new(
        2 * bytes.len(),
        |i: int|
            if i % 2 == 0 {
                hex_digit(bytes[i / 2] as int / 16)
            } else {
                hex_digit(bytes[i / 2] as int % 16)
            },
    )
}

/// Appends `n` in decimal.
pub fn push_decimal(out: &mut String, n: u64)
    ensures
        final(out)@ == old(out)@ + decimal(n as nat),
    decreases n,
{
    if n >= 10 {
        push_decimal(out, n / 10);
    }
    let d: u8 = (n % 10) as u8;
    let c: char = (48 + d) as char;
    out.push(c);
    proof {
        if n < 10 {
            assert(out@ =~= old(out)@ + decimal(n as nat));
        } else {
            assert(out@ =~= old(out)@ + decimal((n / 10) as nat).push(digit((n % 10) as int)));
        }
    }
}

/// `n` in decimal.
pub fn decimal_text(n: u64) -> (out: String)
    ensures
        out@ == decimal(n as nat),
{
    let mut out = String::new();
    push_decimal(&mut out, n);
    proof {
        assert(Seq::<char>::empty() + decimal(n as nat) =~= decimal(n as nat));
    }
    out
}

/// Appends `n` in decimal, signed.
pub fn push_signed(out: &mut String, n: i32)
    ensures
        final(out)@ == old(out)@ + signed_decimal(n as int),
{
    let wide: i64 = n as i64;
    if wide < 0 {
        out.push('-');
        push_decimal(out, (-wide) as u64);
        proof {
            assert(out@ =~= old(out)@ + signed_decimal(n as int));
        }
    } else {
        push_decimal(out, wide as u64);
    }
}

/// The hexadecimal digit `d`.
fn hex_char(d: u8) -> (c: char)
    requires
        d < 16,
    ensures
        c == hex_digit(d as int),
{
    if d < 10 {
        (48 + d) as char
    } else {
        (87 + d) as char
    }
}

/// Every byte as two lower-case hexadecimal digits.
pub fn hex_text(bytes: &[u8]) -> (out: String)
    ensures
        out@ == hex(bytes@),
{
    let mut out = String::new();
    let mut i: usize = 0;
    while i < bytes.len()
        invariant
            i <= bytes@.len(),
            out@ == hex(bytes@.take(i as int)),
        decreases bytes.len() - i,
    {
        let ghost before = out@;
        out.push(hex_char(bytes[i] / 16));
        out.push(hex_char(bytes[i] % 16));
        proof {
            let now = bytes@.take(i + 1);
            assert(before.len() == 2 * i);
            assert forall|k: int| 0 <= k < 2 * (i + 1) implies out@[k] == hex(now)[k] by {
                if k < 2 * i {
                    assert(out@[k] == before[k]);
                    assert(now[k / 2] == bytes@.take(i as int)[k / 2]);
                } else {
                    assert(k / 2 == i);
                }
            }
            assert(out@ =~= hex(now));
        }
        i = i + 1;
    }
    proof {
        assert(bytes@.take(bytes@.len() as int) =~= bytes@);
    }
    out
}

/// Whether two texts hold the same characters.
pub fn same_text(a: &str, b: &str) -> (r: bool)
    ensures
        r == (a@ == b@),
{
    let left = a.to_owned();
    let right = b.to_owned();
    left == right
}

/// The characters of `s`, in order.
pub fn characters(s: &str) -> (out: Vec<char>)
    ensures
        out@ == s@,
{
    let mut out: Vec<char> = Vec::new();
    for c in iter: s.chars()
        invariant
            iter.seq() == s@,
            out@ == s@.take(iter.index()),
    {
        out.push(c);
        proof {
            assert(s@.take(iter.index() + 1) =~= s@.take(iter.index()).push(s@[iter.index()]));
        }
    }
    proof {
        assert(s@.take(s@.len() as int) =~= s@);
    }
    out
}

/// The text made of `characters`.
pub fn text_of(characters: &[char]) -> (out: String)
    ensures
        out@ == characters@,
{
    let mut out = String::new();
    let mut i: usize = 0;
    while i < characters.len()
        invariant
            i <= characters@.len(),
            out@ == characters@.take(i as int),
        decreases characters.len() - i,
    {
        out.push(characters[i]);
        proof {
            assert(characters@.take(i + 1) =~= characters@.take(i as int).push(characters@[i as int]));
        }
        i = i + 1;
    }
    proof {
        assert(characters@.take(characters@.len() as int) =~= characters@);
    }
    out
}

/// Whether `c` has the Unicode property White_Space.
pub open spec fn is_space(c: char) -> bool {
    let n = c as int;
    ||| 9 <= n <= 13
    ||| n == 32
    ||| n == 0x85
    ||| n == 0xa0
    ||| n == 0x1680
    ||| 0x2000 <= n <= 0x200a
    ||| n == 0x2028
    ||| n == 0x2029
    ||| n == 0x202f
    ||| n == 0x205f
    ||| n == 0x3000
}

/// Whether `c` is white space.
pub fn space(c: char) -> (r: bool)
    ensures
        r == is_space(c),
{
    let n: u32 = c as u32;
    (9 <= n && n <= 13) || n == 32 || n == 0x85 || n == 0xa0 || n == 0x1680 || (0x2000 <= n && n
        <= 0x200a) || n == 0x2028 || n == 0x2029 || n == 0x202f || n == 0x205f || n == 0x3000
}

/// `s` without the white space it starts with.
pub open spec fn trim_start(s: Seq<char>) -> Seq<char>
    decreases s.len(),
{
    if s.len() > 0 && is_space(s[0]) {
        trim_start(s.drop_first())
    } else {
        s
    }
}

/// `s` without the white space it ends with.
pub open spec fn trim_end(s: Seq<char>) -> Seq<char>
    decreases s.len(),
{
    if s.len() > 0 && is_space(s.last()) {
        trim_end(s.drop_last())
    } else {
        s
    }
}

/// `s` without the white space around it.
pub open spec fn trimmed(s: Seq<char>) -> Seq<char> {
    trim_end(trim_start(s))
}

/// The characters of `s` without the white space around them.
pub fn trim(s: &[char]) -> (out: &[char])
    ensures
        out@ == trimmed(s@),
{
    let mut from: usize = 0;
    proof {
        assert(s@.skip(0) =~= s@);
    }
    while from < s.len() && space(s[from])
        invariant
            from <= s@.len(),
            trim_start(s@.skip(from as int)) == trim_start(s@),
        decreases s.len() - from,
    {
        proof {
            assert(s@.skip(from as int).drop_first() =~= s@.skip(from + 1));
        }
        from = from + 1;
    }
    let mut to: usize = s.len();
    proof {
        assert(trim_start(s@) == s@.skip(from as int));
        assert(s@.subrange(from as int, to as int) =~= s@.skip(from as int));
    }
    while to > from && space(s[to - 1])
        invariant
            from <= to <= s@.len(),
            trim_end(s@.subrange(from as int, to as int)) == trim_end(s@.skip(from as int)),
        decreases to,
    {
        proof {
            assert(s@.subrange(from as int, to as int).drop_last() =~= s@.subrange(
                from as int,
                to - 1,
            ));
        }
        to = to - 1;
    }
    &s[from..to]
}

/// What the digit `c` is worth in base `radix`, a base up to sixteen.
pub open spec fn digit_value(c: char, radix: int) -> Option<int> {
    let n = c as int;
    let value = if 48 <= n <= 57 {
        n - 48
    } else if 97 <= n <= 102 {
        n - 87
    } else if 65 <= n <= 70 {
        n - 55
    } else {
        radix
    };
    if value < radix {
        Some(value)
    } else {
        None
    }
}

/// What `digits` are worth in base `radix`; `None` where one is no digit.
pub open spec fn digits_value(digits: Seq<char>, radix: int) -> Option<int>
    decreases digits.len(),
{
    if digits.len() == 0 {
        Some(0int)
    } else {
        match (digits_value(digits.drop_last(), radix), digit_value(digits.last(), radix)) {
            (Some(high), Some(low)) => Some(high * radix + low),
            _ => None,
        }
    }
}

/// The digits of a number as std reads one: an optional plus sign in front.
pub open spec fn unsigned_digits(s: Seq<char>) -> Seq<char> {
    if s.len() > 0 && s[0] == '+' {
        s.drop_first()
    } else {
        s
    }
}

/// The unsigned number that `s` spells in base `radix`: at least one digit,
/// nothing else but a leading plus sign, and at most `max`.
pub open spec fn number(s: Seq<char>, radix: int, max: int) -> Option<int> {
    let digits = unsigned_digits(s);
    match digits_value(digits, radix) {
        Some(value) => if digits.len() > 0 && value <= max {
            Some(value)
        } else {
            None
        },
        None => None,
    }
}

proof fn lemma_digits_value_grows(digits: Seq<char>, k: int, radix: int)
    requires
        0 <= k <= digits.len(),
        radix >= 1,
    ensures
        digits_value(digits, radix) is Some ==> digits_value(digits.take(k), radix) is Some
            && 0 <= digits_value(digits.take(k), radix)->0 <= digits_value(digits, radix)->0,
    decreases digits.len(),
{
    if k == digits.len() {
        assert(digits.take(k) =~= digits);
        if digits.len() > 0 {
            lemma_digits_value_grows(digits.drop_last(), k - 1, radix);
            if digits_value(digits, radix) is Some {
                let high = digits_value(digits.drop_last(), radix)->0;
                assert(digits.drop_last().take(k - 1) =~= digits.drop_last());
                assert(high * radix >= 0) by (nonlinear_arith)
                    requires
                        high >= 0,
                        radix >= 1,
                ;
            }
        }
    } else {
        lemma_digits_value_grows(digits.drop_last(), k, radix);
        assert(digits.drop_last().take(k) =~= digits.take(k));
        if digits_value(digits, radix) is Some {
            let high = digits_value(digits.drop_last(), radix)->0;
            assert(high * radix >= high) by (nonlinear_arith)
                requires
                    high >= 0,
                    radix >= 1,
            ;
        }
    }
}

/// The digit `c` in base `radix`.
fn digit_of(c: char, radix: usize) -> (r: Option<usize>)
    requires
        radix <= 16,
    ensures
        r is Some <==> digit_value(c, radix as int) is Some,
        r is Some ==> r->0 == digit_value(c, radix as int)->0,
{
    let n: u32 = c as u32;
    let value: usize = if 48 <= n && n <= 57 {
        (n - 48) as usize
    } else if 97 <= n && n <= 102 {
        (n - 87) as usize
    } else if 65 <= n && n <= 70 {
        (n - 55) as usize
    } else {
        radix
    };
    if value < radix {
        Some(value)
    } else {
        None
    }
}

/// The hexadecimal digit `c`.
pub fn hex_value(c: char) -> (r: Option<u8>)
    ensures
        r is Some <==> digit_value(c, 16) is Some,
        r is Some ==> r->0 == digit_value(c, 16)->0 && r->0 < 16,
{
    match digit_of(c, 16) {
        Some(value) => Some(value as u8),
        None => None,
    }
}

/// Reads an unsigned number in base `radix`, as std's integer parsing does.
pub fn parse_usize(s: &[char], radix: usize) -> (r: Option<usize>)
    requires
        2 <= radix <= 16,
    ensures
        r is Some <==> number(s@, radix as int, usize::MAX as int) is Some,
        r is Some ==> r->0 == number(s@, radix as int, usize::MAX as int)->0,
{
    let start: usize = if s.len() > 0 && s[0] == '+' {
        1
    } else {
        0
    };
    if start >= s.len() {
        return None;
    }
    let ghost digits = unsigned_digits(s@);
    assert(digits =~= s@.skip(start as int));
    let mut value: usize = 0;
    let mut i: usize = start;
    while i < s.len()
        invariant
            start <= i <= s@.len(),
            start <= 1,
            2 <= radix <= 16,
            digits == s@.skip(start as int),
            digits == unsigned_digits(s@),
            digits_value(digits.take(i - start), radix as int) == Some(value as int),
        decreases s.len() - i,
    {
        let ghost k = i - start;
        proof {
            assert(digits.take(k + 1).drop_last() =~= digits.take(k));
            assert(digits.take(k + 1).last() == s@[i as int]);
            lemma_digits_value_grows(digits, k + 1, radix as int);
        }
        let low: usize = match digit_of(s[i], radix) {
            Some(low) => low,
            None => {
                return None;
            },
        };
        match value.checked_mul(radix) {
            Some(high) => {
                match high.checked_add(low) {
                    Some(sum) => {
                        value = sum;
                    },
                    None => {
                        return None;
                    },
                }
            },
            None => {
                return None;
            },
        }
        i = i + 1;
    }
    proof {
        assert(digits.take(digits.len() as int) =~= digits);
    }
    Some(value)
}

/// The index of the first `c` in `s`; the length of `s` where there is none.
pub open spec fn position(s: Seq<char>, c: char) -> int
    decreases s.len(),
{
    if s.len() == 0 || s[0] == c {
        0
    } else {
        1 + position(s.drop_first(), c)
    }
}

/// Where the first `c` stands in `s`; the length of `s` where it does not.
pub fn find(s: &[char], c: char) -> (r: usize)
    ensures
        r == position(s@, c),
        r <= s@.len(),
        r < s@.len() ==> s@[r as int] == c,
        forall|i: int| 0 <= i < r ==> s@[i] != c,
{
    let mut i: usize = 0;
    proof {
        assert(s@.skip(0) =~= s@);
    }
    while i < s.len() && s[i] != c
        invariant
            i <= s@.len(),
            position(s@, c) == i + position(s@.skip(i as int), c),
            forall|j: int| 0 <= j < i ==> s@[j] != c,
        decreases s@.len() - i,
    {
        proof {
            assert(s@.skip(i as int).drop_first() =~= s@.skip(i + 1));
        }
        i = i + 1;
    }
    i
}

/// What stands before and after the first `c` in `s`.
pub open spec fn split_once(s: Seq<char>, c: char) -> Option<(Seq<char>, Seq<char>)> {
    let at = position(s, c);
    if 0 <= at < s.len() {
        Some((s.take(at), s.skip(at + 1)))
    } else {
        None
    }
}

/// What follows `prefix` in `s`, where `s` starts with it.
pub open spec fn after_prefix(s: Seq<char>, prefix: Seq<char>) -> Option<Seq<char>> {
    if prefix.is_prefix_of(s) {
        Some(s.skip(prefix.len() as int))
    } else {
        None
    }
}

/// Strips `prefix` from `s`.
pub fn strip_prefix<'a>(s: &'a [char], prefix: &str) -> (r: Option<&'a [char]>)
    ensures
        r is Some <==> after_prefix(s@, prefix@) is Some,
        r is Some ==> (r->0)@ == after_prefix(s@, prefix@)->0,
{
    let wanted = characters(prefix);
    if s.len() < wanted.len() {
        return None;
    }
    let mut i: usize = 0;
    while i < wanted.len()
        invariant
            wanted@ == prefix@,
            i <= wanted@.len() <= s@.len(),
            forall|j: int| 0 <= j < i ==> wanted@[j] == s@[j],
        decreases wanted@.len() - i,
    {
        if s[i] != wanted[i] {
            assert(s@.subrange(0, wanted@.len() as int)[i as int] == s@[i as int]);
            return None;
        }
        i = i + 1;
    }
    let rest = &s[i..s.len()];
    proof {
        assert(wanted@ =~= s@.take(i as int));
        assert(rest@ =~= s@.skip(i as int));
    }
    Some(rest)
}

/// The first word of `s`: what stands before the next white space, once the
/// white space in front is gone. Empty where there is no word.
pub open spec fn first_word(s: Seq<char>) -> Seq<char> {
    word_prefix(trim_start(s))
}

/// `s` up to its first white space.
pub open spec fn word_prefix(s: Seq<char>) -> Seq<char>
    decreases s.len(),
{
    if s.len() == 0 || is_space(s[0]) {
        Seq::empty()
    } else {
        seq![s[0]] + word_prefix(s.drop_first())
    }
}

proof fn lemma_word_prefix(s: Seq<char>, k: int)
    requires
        0 <= k <= s.len(),
        forall|i: int| 0 <= i < k ==> !is_space(#[trigger] s[i]),
        k < s.len() ==> is_space(s[k]),
    ensures
        word_prefix(s) == s.take(k),
    decreases s.len(),
{
    if k > 0 {
        assert forall|i: int| 0 <= i < k - 1 implies !is_space(#[trigger] s.drop_first()[i]) by {
            assert(s.drop_first()[i] == s[i + 1]);
        }
        lemma_word_prefix(s.drop_first(), k - 1);
        assert(s.take(k) =~= seq![s[0]] + s.drop_first().take(k - 1));
    } else {
        assert(s.take(0) =~= Seq::<char>::empty());
    }
}

/// The first word of `s`.
pub fn word(s: &[char]) -> (r: &[char])
    ensures
        r@ == first_word(s@),
{
    let mut from: usize = 0;
    proof {
        assert(s@.skip(0) =~= s@);
    }
    while from < s.len() && space(s[from])
        invariant
            from <= s@.len(),
            trim_start(s@.skip(from as int)) == trim_start(s@),
        decreases s.len() - from,
    {
        proof {
            assert(s@.skip(from as int).drop_first() =~= s@.skip(from + 1));
        }
        from = from + 1;
    }
    let mut to: usize = from;
    while to < s.len() && !space(s[to])
        invariant
            from <= to <= s@.len(),
            forall|i: int| from <= i < to ==> !is_space(#[trigger] s@[i]),
        decreases s.len() - to,
    {
        to = to + 1;
    }
    proof {
        let rest = s@.skip(from as int);
        assert forall|i: int| 0 <= i < to - from implies !is_space(#[trigger] rest[i]) by {
            assert(rest[i] == s@[from + i]);
        }
        lemma_word_prefix(rest, to - from);
        assert(rest.take(to - from) =~= s@.subrange(from as int, to as int));
    }
    &s[from..to]
}

/// The lines of `s` as std counts them: each ends at a line feed, with a
/// carriage return in front of it left out; the last may go without one.
pub open spec fn lines(s: Seq<char>) -> Seq<Seq<char>>
    decreases s.len(),
{
    if s.len() == 0 {
        Seq::empty()
    } else {
        let at = position(s, '\n');
        if 0 <= at < s.len() {
            seq![without_return(s.take(at))] + lines(s.skip(at + 1))
        } else {
            seq![s]
        }
    }
}

/// A line without the carriage return it ends with.
pub open spec fn without_return(line: Seq<char>) -> Seq<char> {
    if line.len() > 0 && line.last() == '\r' {
        line.drop_last()
    } else {
        line
    }
}

/// The views of a list of character lists.
pub open spec fn views(v: Seq<Vec<char>>) -> Seq<Seq<char>> {
    Seq::new(v.len(), |i: int| v[i]@)
}

/// A copy of the characters.
pub fn copied(s: &[char]) -> (r: Vec<char>)
    ensures
        r@ == s@,
{
    let mut r: Vec<char> = Vec::new();
    let mut i: usize = 0;
    while i < s.len()
        invariant
            i <= s@.len(),
            r@ == s@.take(i as int),
        decreases s@.len() - i,
    {
        r.push(s[i]);
        proof {
            assert(s@.take(i + 1) =~= s@.take(i as int).push(s@[i as int]));
        }
        i = i + 1;
    }
    proof {
        assert(s@.take(s@.len() as int) =~= s@);
    }
    r
}

/// The lines of `s`.
pub fn lines_of(s: &[char]) -> (r: Vec<Vec<char>>)
    ensures
        views(r@) == lines(s@),
{
    let mut r: Vec<Vec<char>> = Vec::new();
    let mut from: usize = 0;
    proof {
        assert(s@.skip(0) =~= s@);
        assert(views(r@) + lines(s@) =~= lines(s@));
    }
    while from < s.len()
        invariant
            from <= s@.len(),
            views(r@) + lines(s@.skip(from as int)) == lines(s@),
        decreases s@.len() - from,
    {
        let ghost before = views(r@);
        let ghost left = s@.skip(from as int);
        let rest = &s[from..s.len()];
        proof {
            assert(rest@ =~= left);
        }
        let at: usize = find(rest, '\n');
        if at < rest.len() {
            let mut end: usize = at;
            if end > 0 && rest[end - 1] == '\r' {
                end = end - 1;
            }
            let line = copied(&rest[0..end]);
            proof {
                assert(rest@.take(end as int) =~= without_return(rest@.take(at as int)));
                assert(left.skip(at + 1) =~= s@.skip(from + at + 1));
                assert(line@ =~= without_return(left.take(at as int)));
                let next = lines(left.skip(at + 1));
                assert(before.push(line@) + next =~= before + (seq![line@] + next));
            }
            r.push(line);
            proof {
                assert(views(r@) =~= before.push(r@.last()@));
            }
            from = from + at + 1;
        } else {
            let line = copied(rest);
            r.push(line);
            proof {
                assert(views(r@) =~= before + seq![left]);
                assert(s@.skip(s@.len() as int).len() == 0);
                assert(views(r@) + lines(s@.skip(s@.len() as int)) =~= views(r@));
            }
            from = s.len();
        }
    }
    proof {
        assert(s@.skip(from as int).len() == 0);
        assert(views(r@) + lines(s@.skip(from as int)) =~= views(r@));
    }
    r
}

/// `s` with every occurrence of `from`, which is not empty, replaced by `to`:
/// the occurrences are found from left to right and do not overlap.
pub open spec fn replaced(s: Seq<char>, from: Seq<char>, to: Seq<char>) -> Seq<char>
    decreases s.len(),
{
    if s.len() == 0 || from.len() == 0 {
        s
    } else if from.is_prefix_of(s) {
        to + replaced(s.skip(from.len() as int), from, to)
    } else {
        seq![s[0]] + replaced(s.drop_first(), from, to)
    }
}

/// `s` with every occurrence of `from` replaced by `to`.
pub fn replace(s: &str, from: &str, to: &str) -> (r: String)
    requires
        from@.len() > 0,
    ensures
        r@ == replaced(s@, from@, to@),
{
    let all = characters(s);
    let width: usize = characters(from).len();
    let mut out = String::new();
    let mut i: usize = 0;
    proof {
        assert(all@.skip(0) =~= all@);
        assert(Seq::<char>::empty() + replaced(s@, from@, to@) =~= replaced(s@, from@, to@));
    }
    while i < all.len()
        invariant
            all@ == s@,
            width == from@.len(),
            width > 0,
            i <= all@.len(),
            out@ + replaced(all@.skip(i as int), from@, to@) == replaced(s@, from@, to@),
        decreases all@.len() - i,
    {
        let ghost left = all@.skip(i as int);
        let ghost before = out@;
        let rest = &all.as_slice()[i..all.len()];
        proof {
            assert(rest@ =~= left);
        }
        if strip_prefix(rest, from).is_some() {
            out.append(to);
            proof {
                assert(left.skip(width as int) =~= all@.skip(i + width));
                let next = replaced(left.skip(width as int), from@, to@);
                assert(before + (to@ + next) =~= (before + to@) + next);
            }
            i = i + width;
        } else {
            out.push(all[i]);
            proof {
                assert(left.drop_first() =~= all@.skip(i + 1));
                let next = replaced(left.drop_first(), from@, to@);
                assert(before + (seq![left[0]] + next) =~= before.push(left[0]) + next);
            }
            i = i + 1;
        }
    }
    proof {
        assert(all@.skip(i as int).len() == 0);
        assert(out@ + replaced(all@.skip(i as int), from@, to@) =~= out@);
    }
    out
}

/// The view of an optional text.
pub open spec fn optional_view(s: Option<String>) -> Option<Seq<char>> {
    match s {
        Some(s) => Some(s@),
        None => None,
    }
}

/// The views of a list of texts.
pub open spec fn texts(v: Seq<String>) -> Seq<Seq<char>> {
    Seq::new(v.len(), |i: int| v[i]@)
}

/// The parts with `separator` between them.
pub open spec fn joined(parts: Seq<Seq<char>>, separator: Seq<char>) -> Seq<char>
    decreases parts.len(),
{
    if parts.len() == 0 {
        Seq::empty()
    } else if parts.len() == 1 {
        parts[0]
    } else {
        joined(parts.drop_last(), separator) + separator + parts.last()
    }
}

/// Joins the parts with `separator` between them.
pub fn join(parts: &Vec<String>, separator: &str) -> (r: String)
    ensures
        r@ == joined(texts(parts@), separator@),
{
    let mut out = String::new();
    let ghost all = texts(parts@);
    let mut i: usize = 0;
    while i < parts.len()
        invariant
            i <= parts@.len(),
            all == texts(parts@),
            out@ == joined(all.take(i as int), separator@),
        decreases parts@.len() - i,
    {
        let ghost before = out@;
        proof {
            assert(all.take(i + 1).drop_last() =~= all.take(i as int));
            assert(all.take(i + 1).last() == parts@[i as int]@);
        }
        if i > 0 {
            out.append(separator);
        }
        out.append(parts[i].as_str());
        proof {
            if i == 0 {
                assert(out@ =~= parts@[0]@);
            }
        }
        i = i + 1;
    }
    proof {
        assert(all.take(all.len() as int) =~= all);
    }
    out
}

/// A copy of the texts.
pub fn copied_texts(v: &Vec<String>) -> (r: Vec<String>)
    ensures
        r@ == v@,
{
    let mut r: Vec<String> = Vec::new();
    let mut i: usize = 0;
    while i < v.len()
        invariant
            i <= v@.len(),
            r@ == v@.take(i as int),
        decreases v@.len() - i,
    {
        r.push(v[i].clone());
        proof {
            assert(v@.take(i + 1) =~= v@.take(i as int).push(v@[i as int]));
        }
        i = i + 1;
    }
    proof {
        assert(v@.take(v@.len() as int) =~= v@);
    }
    r
}

/// How std's `Debug` shows a character: in single quotes, and escaped where
/// it does not print.
pub uninterp spec fn char_debug(c: char) -> Seq<char>;

/// std's `Debug` for `char`, whose text is [`char_debug`].
#[verifier::external_body]
pub(crate) fn debug_char(c: char) -> (r: String)
    ensures
        r@ == char_debug(c),
{
    format!("{c:?}")
}

/// How std's `Debug` shows a text: in double quotes, and escaped where it does
/// not print.
pub uninterp spec fn text_debug(s: Seq<char>) -> Seq<char>;

/// std's `Debug` for `str`, whose text is [`text_debug`].
#[verifier::external_body]
pub(crate) fn debug_text(s: &str) -> (r: String)
    ensures
        r@ == text_debug(s@),
{
    format!("{s:?}")
}

/// A number in decimal is made of digits only.
pub proof fn lemma_decimal_digits(n: nat)
    ensures
        decimal(n).len() > 0,
        forall|i: int| 0 <= i < decimal(n).len() ==> '0' <= #[trigger] decimal(n)[i] <= '9',
        !decimal(n).contains('{'),
    decreases n,
{
    if n >= 10 {
        lemma_decimal_digits(n / 10);
    }
    assert forall|i: int| 0 <= i < decimal(n).len() implies '0' <= #[trigger] decimal(n)[i]
        <= '9' by {
        if n >= 10 && i < decimal(n).len() - 1 {
            assert(decimal(n)[i] == decimal(n / 10)[i]);
        }
    }
}

proof fn lemma_decimal_value(n: nat)
    ensures
        digits_value(decimal(n), 10) == Some(n as int),
        n > 0 ==> decimal(n)[0] != '0',
    decreases n,
{
    lemma_decimal_digits(n);
    if n >= 10 {
        lemma_decimal_value(n / 10);
        lemma_decimal_digits(n / 10);
        assert(decimal(n).drop_last() =~= decimal(n / 10));
        assert(decimal(n)[0] == decimal(n / 10)[0]);
    } else {
        assert(decimal(n).drop_last() =~= Seq::<char>::empty());
        reveal_with_fuel(digits_value, 2);
    }
}

/// A number written in decimal is read back as that number, where it is not
/// too large. It is written with digits only, without a zero in front.
pub proof fn law_a_number_reads_back(n: nat, max: int)
    ensures
        number(decimal(n), 10, max) == if n <= max {
            Some(n as int)
        } else {
            None
        },
        forall|i: int| 0 <= i < decimal(n).len() ==> '0' <= #[trigger] decimal(n)[i] <= '9',
        n > 0 ==> decimal(n)[0] != '0',
        signed_decimal(n as int) == decimal(n),
        n > 0 ==> signed_decimal(-(n as int)) == seq!['-'] + decimal(n),
{
    lemma_decimal_digits(n);
    lemma_decimal_value(n);
}

/// What is no number is not read as one: a number has a digit, and nothing but
/// digits after a plus sign at most.
pub proof fn law_only_digits_are_a_number(s: Seq<char>, radix: int, max: int, i: int)
    requires
        2 <= radix <= 16,
        number(s, radix, max) is Some,
        0 <= i < s.len(),
    ensures
        s.len() > 0,
        0 <= number(s, radix, max)->0 <= max,
        s == seq!['+'] + s.drop_first() ==> s.len() > 1,
        s[i] == '+' && i == 0 || '0' <= s[i] <= '9' || radix > 10 && ('a' <= s[i] <= 'f' || 'A'
            <= s[i] <= 'F'),
{
    let digits = unsigned_digits(s);
    lemma_all_digits(digits, radix);
    lemma_digits_value_grows(digits, 0, radix);
    if s[0] == '+' {
        if i > 0 {
            assert(digits[i - 1] == s[i]);
        }
    }
}

proof fn lemma_all_digits(digits: Seq<char>, radix: int)
    requires
        digits_value(digits, radix) is Some,
    ensures
        forall|i: int|
            0 <= i < digits.len() ==> digit_value(#[trigger] digits[i], radix) is Some,
    decreases digits.len(),
{
    if digits.len() > 0 {
        lemma_all_digits(digits.drop_last(), radix);
        assert forall|i: int| 0 <= i < digits.len() implies digit_value(
            #[trigger] digits[i],
            radix,
        ) is Some by {
            if i < digits.len() - 1 {
                assert(digits.drop_last()[i] == digits[i]);
            }
        }
    }
}

/// A byte in hexadecimal is two digits in lower case, the high one first, that
/// are read back as the byte.
pub proof fn law_hex_reads_back(bytes: Seq<u8>, i: int)
    requires
        0 <= i < bytes.len(),
    ensures
        hex(bytes).len() == 2 * bytes.len(),
        digits_value(hex(bytes).subrange(2 * i, 2 * i + 2), 16) == Some(bytes[i] as int),
        forall|k: int|
            0 <= k < hex(bytes).len() ==> '0' <= #[trigger] hex(bytes)[k] <= '9' || 'a'
                <= hex(bytes)[k] <= 'f',
{
    let pair = hex(bytes).subrange(2 * i, 2 * i + 2);
    assert((2 * i) / 2 == i && (2 * i + 1) / 2 == i && (2 * i) % 2 == 0 && (2 * i + 1) % 2 == 1);
    assert(pair[0] == hex_digit(bytes[i] as int / 16));
    assert(pair[1] == hex_digit(bytes[i] as int % 16));
    assert(pair.drop_last().drop_last() =~= Seq::<char>::empty());
    reveal_with_fuel(digits_value, 3);
    assert(digit_value(pair[0], 16) == Some(bytes[i] as int / 16));
    assert(digit_value(pair[1], 16) == Some(bytes[i] as int % 16));
    assert(pair.drop_last().last() == pair[0]);
    assert(pair.last() == pair[1]);
}

/// White space is what a line is laid out with, and no visible character is.
pub proof fn law_visible_characters_are_no_space(c: char)
    ensures
        c == ' ' || c == '\t' || c == '\n' || c == '\r' ==> is_space(c),
        '!' <= c <= '~' ==> !is_space(c),
{
}

proof fn lemma_trim_start(s: Seq<char>) -> (k: int)
    ensures
        0 <= k <= s.len(),
        trim_start(s) == s.skip(k),
        forall|i: int| 0 <= i < k ==> is_space(#[trigger] s[i]),
        k < s.len() ==> !is_space(s[k]),
    decreases s.len(),
{
    if s.len() > 0 && is_space(s[0]) {
        let k = lemma_trim_start(s.drop_first());
        assert(s.drop_first().skip(k) =~= s.skip(k + 1));
        assert forall|i: int| 0 <= i < k + 1 implies is_space(#[trigger] s[i]) by {
            if i > 0 {
                assert(s.drop_first()[i - 1] == s[i]);
            }
        }
        k + 1
    } else {
        assert(s.skip(0) =~= s);
        0
    }
}

proof fn lemma_trim_end(s: Seq<char>) -> (k: int)
    ensures
        0 <= k <= s.len(),
        trim_end(s) == s.take(k),
        forall|i: int| k <= i < s.len() ==> is_space(#[trigger] s[i]),
        k > 0 ==> !is_space(s[k - 1]),
    decreases s.len(),
{
    if s.len() > 0 && is_space(s.last()) {
        let k = lemma_trim_end(s.drop_last());
        assert(s.drop_last().take(k) =~= s.take(k));
        assert forall|i: int| k <= i < s.len() implies is_space(#[trigger] s[i]) by {
            if i < s.len() - 1 {
                assert(s.drop_last()[i] == s[i]);
            }
        }
        k
    } else {
        assert(s.take(s.len() as int) =~= s);
        s.len() as int
    }
}

/// A trimmed text is the text without white space around it: only white space
/// is taken away, and none is left at either end.
pub proof fn law_trimming_takes_the_white_space_around(s: Seq<char>) -> (ends: (int, int))
    ensures
        0 <= ends.0 <= ends.1 <= s.len(),
        trimmed(s) == s.subrange(ends.0, ends.1),
        forall|i: int| 0 <= i < ends.0 || ends.1 <= i < s.len() ==> is_space(#[trigger] s[i]),
        trimmed(s).len() > 0 ==> !is_space(trimmed(s)[0]) && !is_space(trimmed(s).last()),
{
    let from = lemma_trim_start(s);
    let rest = s.skip(from);
    let k = lemma_trim_end(rest);
    assert(rest.take(k) =~= s.subrange(from, from + k));
    assert forall|i: int| 0 <= i < from || from + k <= i < s.len() implies is_space(
        #[trigger] s[i],
    ) by {
        if i >= from + k {
            assert(rest[i - from] == s[i]);
        }
    }
    (from, from + k)
}

proof fn lemma_position(s: Seq<char>, c: char)
    ensures
        0 <= position(s, c) <= s.len(),
        position(s, c) < s.len() ==> s[position(s, c)] == c,
        forall|i: int| 0 <= i < position(s, c) ==> s[i] != c,
        position(s, c) == s.len() <==> !s.contains(c),
    decreases s.len(),
{
    if s.len() > 0 && s[0] != c {
        let rest = s.drop_first();
        lemma_position(rest, c);
        assert forall|i: int| 0 <= i < position(s, c) implies s[i] != c by {
            if i > 0 {
                assert(rest[i - 1] == s[i]);
            }
        }
    }
    if position(s, c) == s.len() && s.contains(c) {
        let i = choose|i: int| 0 <= i < s.len() && s[i] == c;
        assert(s[i] != c);
    }
}

/// A text is split at the first of a character: what is before it and what is
/// after it make up the text, and it is in no text that is not split.
pub proof fn law_a_split_parts_at_the_first(s: Seq<char>, c: char)
    ensures
        split_once(s, c) is Some <==> s.contains(c),
        split_once(s, c) matches Some((first, second)) ==> s == first + seq![c] + second
            && !first.contains(c),
{
    lemma_position(s, c);
    if let Some((first, second)) = split_once(s, c) {
        assert(s =~= first + seq![c] + second);
        if first.contains(c) {
            let i = choose|i: int| 0 <= i < first.len() && first[i] == c;
            assert(s[i] == c);
        }
    }
}

/// What is behind a prefix is what was put behind it.
pub proof fn law_a_prefix_comes_off(s: Seq<char>, prefix: Seq<char>, rest: Seq<char>)
    ensures
        after_prefix(prefix + rest, prefix) == Some(rest),
        after_prefix(s, prefix) matches Some(behind) ==> s == prefix + behind,
{
    assert((prefix + rest).skip(prefix.len() as int) =~= rest);
    assert(prefix.is_prefix_of(prefix + rest)) by {
        assert((prefix + rest).subrange(0, prefix.len() as int) =~= prefix);
    }
    if let Some(behind) = after_prefix(s, prefix) {
        assert(s =~= prefix + behind);
    }
}

/// The first word of a text stands behind white space only, has none in it and
/// ends at the end of the text or before white space.
pub proof fn law_a_word_has_no_space(s: Seq<char>) -> (ends: (int, int))
    ensures
        0 <= ends.0 <= ends.1 <= s.len(),
        first_word(s) == s.subrange(ends.0, ends.1),
        forall|i: int| 0 <= i < ends.0 ==> is_space(#[trigger] s[i]),
        forall|i: int| ends.0 <= i < ends.1 ==> !is_space(#[trigger] s[i]),
        ends.1 < s.len() ==> is_space(s[ends.1]),
        first_word(s).len() == 0 ==> ends.0 == s.len(),
{
    let from = lemma_trim_start(s);
    let rest = s.skip(from);
    let len = lemma_word_ends(rest);
    assert(rest.take(len) =~= s.subrange(from, from + len));
    assert forall|i: int| from <= i < from + len implies !is_space(#[trigger] s[i]) by {
        assert(rest[i - from] == s[i]);
    }
    (from, from + len)
}

proof fn lemma_word_ends(s: Seq<char>) -> (k: int)
    ensures
        0 <= k <= s.len(),
        word_prefix(s) == s.take(k),
        forall|i: int| 0 <= i < k ==> !is_space(#[trigger] s[i]),
        k < s.len() ==> is_space(s[k]),
    decreases s.len(),
{
    if s.len() == 0 || is_space(s[0]) {
        assert(s.take(0) =~= Seq::<char>::empty());
        0
    } else {
        let rest = s.drop_first();
        let k = lemma_word_ends(rest);
        assert(seq![s[0]] + rest.take(k) =~= s.take(k + 1));
        assert forall|i: int| 0 <= i < k + 1 implies !is_space(#[trigger] s[i]) by {
            if i > 0 {
                assert(rest[i - 1] == s[i]);
            }
        }
        k + 1
    }
}

/// A text is parted into its lines: a line that ends with a line feed, with a
/// carriage return before it or without, comes before the lines of the rest,
/// and what has no line feed is one line.
pub proof fn law_lines_are_parted_at_line_feeds(line: Seq<char>, rest: Seq<char>)
    requires
        !line.contains('\n'),
        !line.contains('\r'),
    ensures
        lines(line + seq!['\n'] + rest) == seq![line] + lines(rest),
        lines(line + seq!['\r', '\n'] + rest) == seq![line] + lines(rest),
        line.len() > 0 ==> lines(line) == seq![line],
        lines(Seq::empty()) == Seq::<Seq<char>>::empty(),
{
    let plain = line + seq!['\n'] + rest;
    lemma_position(plain, '\n');
    let n = line.len() as int;
    assert(plain[n] == '\n');
    if position(plain, '\n') < n {
        assert(line[position(plain, '\n')] == plain[position(plain, '\n')]);
    }
    assert(plain.take(n) =~= line);
    assert(plain.skip(n + 1) =~= rest);
    if line.len() > 0 && line.last() == '\r' {
        assert(line[n - 1] == '\r');
    }
    let dos = line + seq!['\r', '\n'] + rest;
    lemma_position(dos, '\n');
    assert(dos[n + 1] == '\n');
    assert(dos[n] == '\r');
    if position(dos, '\n') < n {
        assert(line[position(dos, '\n')] == dos[position(dos, '\n')]);
    }
    assert(dos.take(n + 1).drop_last() =~= line);
    assert(dos.skip(n + 2) =~= rest);
    lemma_position(line, '\n');
}

/// Joining two lists of texts puts the separator between them and once only.
pub proof fn law_joining_separates(a: Seq<Seq<char>>, b: Seq<Seq<char>>, separator: Seq<char>)
    requires
        a.len() > 0,
        b.len() > 0,
    ensures
        joined(a + b, separator) == joined(a, separator) + separator + joined(b, separator),
        a.len() == 1 ==> joined(a, separator) == a[0],
        joined(Seq::empty(), separator) == Seq::<char>::empty(),
    decreases b.len(),
{
    if b.len() == 1 {
        assert((a + b).drop_last() =~= a);
    } else {
        assert((a + b).drop_last() =~= a + b.drop_last());
        law_joining_separates(a, b.drop_last(), separator);
        assert(joined(a + b, separator) =~= joined(a, separator) + separator + joined(
            b,
            separator,
        ));
    }
}

/// The texts of strings are those of each, in their order.
pub proof fn law_texts_are_those_of_the_strings(v: Seq<String>, i: int)
    requires
        0 <= i < v.len(),
    ensures
        texts(v).len() == v.len(),
        texts(v)[i] == v[i]@,
        optional_view(Some(v[i])) == Some(v[i]@),
        optional_view(None) is None,
{
}

/// What does not occur in a text is not replaced in it.
pub proof fn law_what_does_not_occur_is_not_replaced(
    s: Seq<char>,
    from: Seq<char>,
    to: Seq<char>,
)
    requires
        forall|k: int| 0 <= k <= s.len() ==> !from.is_prefix_of(#[trigger] s.skip(k)),
    ensures
        replaced(s, from, to) == s,
    decreases s.len(),
{
    if s.len() > 0 {
        let rest = s.drop_first();
        assert(s.skip(0) =~= s);
        assert forall|k: int| 0 <= k <= rest.len() implies !from.is_prefix_of(
            #[trigger] rest.skip(k),
        ) by {
            assert(rest.skip(k) =~= s.skip(k + 1));
        }
        law_what_does_not_occur_is_not_replaced(rest, from, to);
        assert(seq![s[0]] + rest =~= s);
    }
}

/// A text without the character that another begins with has nothing of it to
/// replace.
pub proof fn law_nothing_is_replaced_without_its_start(
    s: Seq<char>,
    from: Seq<char>,
    to: Seq<char>,
)
    requires
        from.len() > 0,
        !s.contains(from[0]),
    ensures
        replaced(s, from, to) == s,
{
    assert forall|k: int| 0 <= k <= s.len() implies !from.is_prefix_of(#[trigger] s.skip(k)) by {
        if from.is_prefix_of(s.skip(k)) {
            assert(s.skip(k)[0] == from[0]);
            assert(s[k] == from[0]);
        }
    }
    law_what_does_not_occur_is_not_replaced(s, from, to);
}

/// An occurrence is replaced where it stands, and what is before it and behind
/// it stays.
pub proof fn law_an_occurrence_is_replaced(
    before: Seq<char>,
    after: Seq<char>,
    from: Seq<char>,
    to: Seq<char>,
)
    requires
        from.len() > 0,
        !before.contains(from[0]),
    ensures
        replaced(before + from + after, from, to) == before + to + replaced(after, from, to),
    decreases before.len(),
{
    let s = before + from + after;
    if before.len() == 0 {
        assert(s =~= from + after);
        assert(from.is_prefix_of(s)) by {
            assert(s.subrange(0, from.len() as int) =~= from);
        }
        assert(s.skip(from.len() as int) =~= after);
        assert(before + to =~= to);
    } else {
        assert(s[0] == before[0]);
        assert(before.contains(before[0]));
        assert(!from.is_prefix_of(s)) by {
            if from.is_prefix_of(s) {
                assert(s[0] == from[0]);
            }
        }
        let rest = before.drop_first();
        assert forall|i: int| 0 <= i < rest.len() implies rest[i] != from[0] by {
            assert(before.contains(before[i + 1]));
        }
        law_an_occurrence_is_replaced(rest, after, from, to);
        assert(s.drop_first() =~= rest + from + after);
        assert(seq![before[0]] + (rest + to + replaced(after, from, to)) =~= before + to
            + replaced(after, from, to));
    }
}

/// A text in which another could only begin where a third stands that differs
/// from it has nothing to replace.
pub proof fn lemma_other_text_stays(
    before: Seq<char>,
    middle: Seq<char>,
    after: Seq<char>,
    from: Seq<char>,
    to: Seq<char>,
)
    requires
        from.len() > 1,
        from.len() == middle.len(),
        !before.contains(from[0]),
        !after.contains(from[0]),
        exists|i: int| 0 <= i < from.len() && from[i] != middle[i],
        forall|i: int| 0 < i < middle.len() ==> middle[i] != from[0],
    ensures
        replaced(before + middle + after, from, to) == before + middle + after,
{
    let s = before + middle + after;
    assert forall|k: int| 0 <= k <= s.len() implies !from.is_prefix_of(#[trigger] s.skip(k)) by {
        if from.is_prefix_of(s.skip(k)) {
            assert(s.skip(k)[0] == from[0]);
            assert(s[k] == from[0]);
            if k < before.len() {
                assert(before.contains(before[k]));
            } else if k == before.len() {
                let i = choose|i: int| 0 <= i < from.len() && from[i] != middle[i];
                assert(s.skip(k)[i] == from[i]);
                assert(s.skip(k)[i] == middle[i]);
            } else if k < before.len() + middle.len() {
                assert(middle[k - before.len()] == s[k]);
            } else {
                assert(after.contains(after[k - before.len() - middle.len()]));
            }
        }
    }
    law_what_does_not_occur_is_not_replaced(s, from, to);
}

/// A hexadecimal digit counts the same in upper case as in lower case, and a
/// digit is worth less than the base it is read in.
pub proof fn law_digits_count_in_either_case(c: char, d: char, radix: int)
    requires
        'a' <= c <= 'f',
        d as int == c as int - 32,
        2 <= radix <= 16,
    ensures
        digit_value(d, 16) == digit_value(c, 16),
        digit_value(c, 16) == Some(c as int - 'a' as int + 10),
        forall|e: char|
            (#[trigger] digit_value(e, radix)) matches Some(v) ==> 0 <= v < radix && (v < 10 ==> e
                as int == '0' as int + v),
        forall|e: char|
            '0' <= e <= '9' && e as int - '0' as int >= radix ==> (#[trigger] digit_value(
                e,
                radix,
            )) is None,
{
}

/// What has a character put between them is split there, where the first part
/// does not hold it.
pub proof fn law_what_is_put_apart_is_split(first: Seq<char>, c: char, second: Seq<char>)
    requires
        !first.contains(c),
    ensures
        split_once(first + seq![c] + second, c) == Some((first, second)),
{
    let whole = first + seq![c] + second;
    let n = first.len() as int;
    law_a_split_parts_at_the_first(whole, c);
    assert(whole[n] == c);
    let (a, b) = split_once(whole, c)->0;
    if a.len() < n {
        assert(whole[a.len() as int] == c);
        assert(first[a.len() as int] == c);
    } else if a.len() > n {
        assert(a[n] == whole[n]);
    }
    assert(a =~= first);
    assert(whole.skip(n + 1) =~= second);
    assert(whole.skip(n + 1) =~= b);
}

/// One digit more counts for itself, and what stands in front of it for the base
/// times as much. A plus sign in front counts for nothing, and nothing is no
/// number.
pub proof fn law_digits_count_by_their_place(s: Seq<char>, d: char, radix: int, max: int)
    requires
        2 <= radix <= 16,
    ensures
        digits_value(s, radix) is Some && digit_value(d, radix) is Some ==> digits_value(
            s.push(d),
            radix,
        ) == Some(digits_value(s, radix)->0 * radix + digit_value(d, radix)->0),
        digit_value(d, radix) is None ==> digits_value(s.push(d), radix) is None,
        s.len() > 0 && s[0] != '+' ==> number(seq!['+'] + s, radix, max) == number(s, radix, max),
        s.len() > 0 && s[0] != '+' ==> (number(s, radix, max) is Some <==> digits_value(
            s,
            radix,
        ) is Some && digits_value(s, radix)->0 <= max),
        s.len() > 0 && s[0] != '+' && number(s, radix, max) is Some ==> number(s, radix, max)
            == digits_value(s, radix),
        number(Seq::empty(), radix, max) is None,
        number(seq!['+'], radix, max) is None,
{
    assert(s.push(d).drop_last() =~= s);
    assert((seq!['+'] + s).drop_first() =~= s);
    assert(seq!['+'].drop_first() =~= Seq::<char>::empty());
}

/// White space is what Unicode says it is, no more and no less.
pub proof fn law_white_space_is_that_of_unicode(c: char)
    ensures
        is_space(c) <==> {
            ||| '\t' <= c <= '\r'
            ||| c == ' '
            ||| c == '\u{85}'
            ||| c == '\u{a0}'
            ||| c == '\u{1680}'
            ||| '\u{2000}' <= c <= '\u{200a}'
            ||| c == '\u{2028}'
            ||| c == '\u{2029}'
            ||| c == '\u{202f}'
            ||| c == '\u{205f}'
            ||| c == '\u{3000}'
        },
{
}

} // verus!
