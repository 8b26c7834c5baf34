//! Where the parser of log directives cuts a text.
//!
//! It parts the text at its commas, and reads each piece without the white
//! space around it, but cuts the piece with that white space, at the places it
//! counted without: each cut is off by the bytes of the white space in front.
//! A piece is `target[span{field}]=level`, most of which may be left out.

use crate::text;
use vstd::prelude::*;

verus! {

/// How many bytes a character takes in UTF-8.
pub open spec fn width(c: char) -> int {
    let n = c as int;
    if n < 0x80 {
        1
    } else if n < 0x800 {
        2
    } else if n < 0x10000 {
        3
    } else {
        4
    }
}

/// How many bytes a character takes in UTF-8.
fn char_width(c: char) -> (r: u128)
    ensures
        r == width(c),
{
    let n: u32 = c as u32;
    if n < 0x80 {
        1
    } else if n < 0x800 {
        2
    } else if n < 0x10000 {
        3
    } else {
        4
    }
}

/// How many bytes the characters from one to before another take.
pub open spec fn bytes_in(s: Seq<char>, from: int, to: int) -> int
    decreases to - from,
{
    if from >= to {
        0
    } else {
        bytes_in(s, from, to - 1) + width(s[to - 1])
    }
}

/// Whether a number of bytes ends with a character.
pub open spec fn is_boundary(s: Seq<char>, n: int) -> bool {
    exists|k: int| 0 <= k <= s.len() && #[trigger] bytes_in(s, 0, k) == n
}

/// The first character from `at` on that is not white space.
pub open spec fn first_visible(s: Seq<char>, at: int) -> int
    decreases s.len() - at,
{
    if at < s.len() && text::is_space(s[at]) {
        first_visible(s, at + 1)
    } else {
        at
    }
}

/// The first of two characters from `at` on; the end where there is neither.
pub open spec fn first_of(s: Seq<char>, at: int, a: char, b: char) -> int
    decreases s.len() - at,
{
    if at >= s.len() {
        s.len() as int
    } else if s[at] == a || s[at] == b {
        at
    } else {
        first_of(s, at + 1, a, b)
    }
}

/// Where the parser takes a character to stand: at as many bytes as come
/// before it without the white space in front.
pub open spec fn place(piece: Seq<char>, at: int) -> int {
    bytes_in(piece, first_visible(piece, 0), at)
}

/// Whether a cut where a character is taken to stand falls inside one.
pub open spec fn splits_at(piece: Seq<char>, at: int) -> bool {
    !is_boundary(piece, place(piece, at))
}

/// Whether a cut a byte after falls inside a character.
pub open spec fn splits_after(piece: Seq<char>, at: int) -> bool {
    !is_boundary(piece, place(piece, at) + 1)
}

/// Where a piece is to end so that its level, which may begin with the `=` at
/// `at`, is not cut off inside a character.
pub open spec fn level_stop(piece: Seq<char>, at: int) -> Option<int> {
    if at < piece.len() && piece[at] == '=' && splits_after(piece, at) {
        Some(at)
    } else {
        None
    }
}

/// Where a piece is to end so that its span, which begins with the `[` at
/// `open`, and what follows are not cut inside a character.
pub open spec fn span_stop(piece: Seq<char>, open: int) -> Option<int> {
    let before = if open == first_visible(piece, 0) {
        0
    } else {
        open
    };
    let close = first_of(piece, open + 1, ']', '{');
    if close >= piece.len() {
        None
    } else if splits_after(piece, open) || splits_at(piece, close) {
        Some(before)
    } else if piece[close] == ']' {
        level_stop(piece, close + 1)
    } else {
        let end = first_of(piece, close + 1, '}', '}');
        if end >= piece.len() {
            None
        } else if splits_after(piece, close) || splits_at(piece, end) {
            Some(before)
        } else if end + 1 < piece.len() && piece[end + 1] == ']' {
            level_stop(piece, end + 2)
        } else {
            None
        }
    }
}

/// Where a piece that the parser would cut inside a character is to end so
/// that it is not: before the part whose cut does so, and then refused only
/// where the parser refuses the piece before it comes to that cut. `None`
/// where no cut falls inside a character.
pub open spec fn piece_stop(piece: Seq<char>) -> Option<int> {
    let mark = first_of(piece, first_visible(piece, 0), '=', '[');
    if mark >= piece.len() {
        None
    } else if splits_at(piece, mark) {
        Some(mark)
    } else if piece[mark] == '=' {
        level_stop(piece, mark)
    } else {
        span_stop(piece, mark)
    }
}

/// Where directives that the parser would cut inside a character are to end
/// so that they are not; `None` where no cut falls inside a character.
pub open spec fn first_stop(directives: Seq<char>) -> Option<int>
    decreases directives.len(),
{
    let comma = first_of(directives, 0, ',', ',');
    if comma < 0 {
        None
    } else {
        match piece_stop(directives.take(comma)) {
            Some(stop) => Some(stop),
            None => if comma >= directives.len() {
                None
            } else {
                match first_stop(directives.skip(comma + 1)) {
                    Some(stop) => Some(comma + 1 + stop),
                    None => None,
                }
            },
        }
    }
}

proof fn lemma_first_of(s: Seq<char>, at: int, a: char, b: char)
    requires
        0 <= at <= s.len(),
    ensures
        at <= first_of(s, at, a, b) <= s.len(),
        first_of(s, at, a, b) < s.len() ==> s[first_of(s, at, a, b)] == a || s[first_of(
            s,
            at,
            a,
            b,
        )] == b,
    decreases s.len() - at,
{
    if at < s.len() && s[at] != a && s[at] != b {
        lemma_first_of(s, at + 1, a, b);
    }
}

proof fn lemma_first_visible(s: Seq<char>, at: int)
    requires
        0 <= at <= s.len(),
    ensures
        at <= first_visible(s, at) <= s.len(),
    decreases s.len() - at,
{
    if at < s.len() && text::is_space(s[at]) {
        lemma_first_visible(s, at + 1);
    }
}

/// What comes first in a text comes first in a beginning of it that holds it.
proof fn lemma_first_of_take(s: Seq<char>, at: int, a: char, b: char, k: int)
    requires
        0 <= at <= k <= s.len(),
    ensures
        first_of(s.take(k), at, a, b) == if first_of(s, at, a, b) < k {
            first_of(s, at, a, b)
        } else {
            k
        },
    decreases s.len() - at,
{
    lemma_first_of(s, at, a, b);
    if at < k && s[at] != a && s[at] != b {
        lemma_first_of_take(s, at + 1, a, b, k);
    }
}

proof fn lemma_first_visible_take(s: Seq<char>, at: int, k: int)
    requires
        0 <= at <= k <= s.len(),
        first_visible(s, at) <= k,
    ensures
        first_visible(s.take(k), at) == first_visible(s, at),
    decreases s.len() - at,
{
    if at < s.len() && text::is_space(s[at]) {
        lemma_first_visible(s, at + 1);
        lemma_first_visible_take(s, at + 1, k);
    }
}

proof fn lemma_bytes_take(s: Seq<char>, from: int, to: int, k: int)
    requires
        0 <= from,
        to <= k <= s.len(),
    ensures
        bytes_in(s.take(k), from, to) == bytes_in(s, from, to),
    decreases to - from,
{
    if from < to {
        lemma_bytes_take(s, from, to - 1, k);
    }
}

/// More characters take more bytes.
proof fn lemma_bytes_grow(s: Seq<char>, from: int, to: int, more: int)
    requires
        0 <= from <= to <= more,
    ensures
        0 <= bytes_in(s, from, to),
        bytes_in(s, from, to) + (more - to) <= bytes_in(s, from, more),
    decreases more - from,
{
    if from < to {
        lemma_bytes_grow(s, from, to - 1, to - 1);
    }
    if to < more {
        lemma_bytes_grow(s, from, to, more - 1);
    }
}

/// Fewer characters in front leave fewer bytes.
proof fn lemma_bytes_behind(s: Seq<char>, from: int, to: int)
    requires
        0 <= from <= to,
    ensures
        bytes_in(s, from, to) <= bytes_in(s, 0, to),
    decreases to - from,
{
    lemma_bytes_grow(s, 0, 0, to);
    if from < to {
        lemma_bytes_behind(s, from, to - 1);
    }
}

/// A beginning of a text has the boundaries that the text has in it.
proof fn lemma_boundary_take(s: Seq<char>, n: int, k: int)
    requires
        0 <= k <= s.len(),
        is_boundary(s, n),
        n <= bytes_in(s, 0, k),
    ensures
        is_boundary(s.take(k), n),
{
    let j = choose|j: int| 0 <= j <= s.len() && #[trigger] bytes_in(s, 0, j) == n;
    if j > k {
        lemma_bytes_grow(s, 0, k, j);
    }
    lemma_bytes_take(s, 0, j, k);
    assert(bytes_in(s.take(k), 0, j) == n);
}

/// A cut at a character of a beginning of a piece that holds it falls where it
/// does in the piece.
proof fn lemma_cut_take(s: Seq<char>, at: int, k: int)
    requires
        0 <= first_visible(s, 0) <= at < k <= s.len(),
    ensures
        first_visible(s.take(k), 0) == first_visible(s, 0),
        !splits_at(s, at) ==> !splits_at(s.take(k), at),
        !splits_after(s, at) ==> !splits_after(s.take(k), at),
{
    let f = first_visible(s, 0);
    lemma_first_visible_take(s, 0, k);
    lemma_bytes_take(s, f, at, k);
    lemma_bytes_behind(s, f, at);
    lemma_bytes_grow(s, 0, at, k);
    if !splits_at(s, at) {
        lemma_boundary_take(s, place(s, at), k);
    }
    if !splits_after(s, at) {
        lemma_boundary_take(s, place(s, at) + 1, k);
    }
}

/// A piece that is cut inside a character is not, once it ends where it is to.
proof fn lemma_piece_stop(s: Seq<char>)
    ensures
        piece_stop(s) matches Some(k) ==> 0 <= k <= s.len() && piece_stop(s.take(k)) is None,
{
    let f = first_visible(s, 0);
    lemma_first_visible(s, 0);
    let mark = first_of(s, f, '=', '[');
    lemma_first_of(s, f, '=', '[');
    if let Some(k) = piece_stop(s) {
        let t = s.take(k);
        if k == mark || k == 0 {
            if f <= k {
                lemma_first_visible_take(s, 0, k);
                lemma_first_of_take(s, f, '=', '[', k);
            }
            lemma_first_visible(t, 0);
            lemma_first_of(t, first_visible(t, 0), '=', '[');
        } else {
            let close = first_of(s, mark + 1, ']', '{');
            lemma_first_of(s, mark + 1, ']', '{');
            if close < s.len() {
                lemma_first_of(s, close + 1, '}', '}');
            }
            assert(close < k);
            lemma_first_of_take(s, f, '=', '[', k);
            lemma_first_of_take(s, mark + 1, ']', '{', k);
            lemma_cut_take(s, mark, k);
            lemma_cut_take(s, close, k);
            assert(t[close] == s[close]);
            if s[close] != ']' {
                let end = first_of(s, close + 1, '}', '}');
                lemma_first_of_take(s, close + 1, '}', '}', k);
                lemma_cut_take(s, end, k);
                assert(t[end + 1] == s[end + 1]);
            }
        }
    }
}

/// Directives that are cut inside a character are not, once they end where
/// they are to.
pub proof fn lemma_first_stop(s: Seq<char>)
    ensures
        first_stop(s) matches Some(n) ==> 0 <= n <= s.len() && first_stop(s.take(n)) is None,
    decreases s.len(),
{
    let comma = first_of(s, 0, ',', ',');
    lemma_first_of(s, 0, ',', ',');
    if let Some(n) = first_stop(s) {
        let t = s.take(n);
        let piece = s.take(comma);
        lemma_piece_stop(piece);
        if piece_stop(piece) is Some {
            lemma_first_of_take(s, 0, ',', ',', n);
            assert(t.take(n) =~= piece.take(n));
        } else {
            let rest = s.skip(comma + 1);
            lemma_first_stop(rest);
            lemma_first_of_take(s, 0, ',', ',', n);
            assert(t.take(comma) =~= piece);
            assert(t.skip(comma + 1) =~= rest.take(n - comma - 1));
        }
    }
}

/// The first character that is not white space.
fn visible(s: &[char]) -> (r: usize)
    ensures
        r == first_visible(s@, 0),
        r <= s@.len(),
{
    let mut at: usize = 0;
    while at < s.len() && text::space(s[at])
        invariant
            at <= s@.len(),
            first_visible(s@, at as int) == first_visible(s@, 0),
        decreases s@.len() - at,
    {
        at = at + 1;
    }
    at
}

/// The first of two characters from `at` on.
fn find_first(s: &[char], at: usize, a: char, b: char) -> (r: usize)
    requires
        at <= s@.len(),
    ensures
        r == first_of(s@, at as int, a, b),
        at <= r <= s@.len(),
{
    let mut i: usize = at;
    while i < s.len() && s[i] != a && s[i] != b
        invariant
            at <= i <= s@.len(),
            first_of(s@, i as int, a, b) == first_of(s@, at as int, a, b),
        decreases s@.len() - i,
    {
        i = i + 1;
    }
    i
}

/// How many bytes the characters from one to before another take.
fn count_bytes(s: &[char], from: usize, to: usize) -> (r: u128)
    requires
        from <= to <= s@.len(),
    ensures
        r == bytes_in(s@, from as int, to as int),
        r <= 4 * (to - from),
{
    let mut i: usize = from;
    let mut n: u128 = 0;
    while i < to
        invariant
            from <= i <= to <= s@.len(),
            n == bytes_in(s@, from as int, i as int),
            n <= 4 * (i - from),
        decreases to - i,
    {
        n = n + char_width(s[i]);
        i = i + 1;
    }
    n
}

/// Whether a number of bytes ends with a character.
fn boundary(s: &[char], n: u128) -> (r: bool)
    ensures
        r == is_boundary(s@, n as int),
{
    let mut i: usize = 0;
    let mut passed: u128 = 0;
    while i < s.len() && passed < n
        invariant
            i <= s@.len(),
            passed == bytes_in(s@, 0, i as int),
            passed <= 4 * i,
            forall|k: int| 0 <= k < i ==> #[trigger] bytes_in(s@, 0, k) < n,
        decreases s@.len() - i,
    {
        passed = passed + char_width(s[i]);
        i = i + 1;
    }
    proof {
        assert forall|k: int| i < k <= s@.len() implies #[trigger] bytes_in(s@, 0, k) > passed by {
            lemma_bytes_grow(s@, 0, i as int, k);
        }
        if is_boundary(s@, n as int) {
            let k = choose|k: int| 0 <= k <= s@.len() && #[trigger] bytes_in(s@, 0, k) == n;
            assert(k >= i);
        }
    }
    passed == n
}

/// Whether a cut where a character is taken to stand, or a byte after, falls
/// inside a character.
fn cut_splits(piece: &[char], at: usize, after: bool) -> (r: bool)
    requires
        first_visible(piece@, 0) <= at <= piece@.len(),
    ensures
        r == if after {
            splits_after(piece@, at as int)
        } else {
            splits_at(piece@, at as int)
        },
{
    let n = count_bytes(piece, visible(piece), at);
    if after {
        !boundary(piece, n + 1)
    } else {
        !boundary(piece, n)
    }
}

fn stop_of_level(piece: &[char], at: usize) -> (r: Option<usize>)
    requires
        first_visible(piece@, 0) <= at,
    ensures
        match r {
            Some(stop) => level_stop(piece@, at as int) == Some(stop as int),
            None => level_stop(piece@, at as int) is None,
        },
{
    if at < piece.len() && piece[at] == '=' && cut_splits(piece, at, true) {
        Some(at)
    } else {
        None
    }
}

fn stop_of_span(piece: &[char], open: usize) -> (r: Option<usize>)
    requires
        first_visible(piece@, 0) <= open < piece@.len(),
    ensures
        match r {
            Some(stop) => span_stop(piece@, open as int) == Some(stop as int),
            None => span_stop(piece@, open as int) is None,
        },
{
    let before: usize = if open == visible(piece) {
        0
    } else {
        open
    };
    let len: usize = piece.len();
    let close = find_first(piece, open + 1, ']', '{');
    if close >= len {
        return None;
    }
    if cut_splits(piece, open, true) || cut_splits(piece, close, false) {
        return Some(before);
    }
    if piece[close] == ']' {
        return stop_of_level(piece, close + 1);
    }
    let end = find_first(piece, close + 1, '}', '}');
    if end >= len {
        return None;
    }
    if cut_splits(piece, close, true) || cut_splits(piece, end, false) {
        return Some(before);
    }
    if end + 1 < len && piece[end + 1] == ']' {
        stop_of_level(piece, end + 2)
    } else {
        None
    }
}

fn stop_of_piece(piece: &[char]) -> (r: Option<usize>)
    ensures
        match r {
            Some(stop) => piece_stop(piece@) == Some(stop as int) && stop <= piece@.len(),
            None => piece_stop(piece@) is None,
        },
{
    proof {
        lemma_piece_stop(piece@);
    }
    let mark = find_first(piece, visible(piece), '=', '[');
    if mark >= piece.len() {
        return None;
    }
    if cut_splits(piece, mark, false) {
        return Some(mark);
    }
    if piece[mark] == '=' {
        stop_of_level(piece, mark)
    } else {
        stop_of_span(piece, mark)
    }
}

/// Where directives that the parser would cut inside a character are to end
/// so that they are not; `None` where no cut falls inside a character.
pub fn stop(directives: &[char]) -> (r: Option<usize>)
    ensures
        match r {
            Some(stop) => first_stop(directives@) == Some(stop as int) && stop
                <= directives@.len(),
            None => first_stop(directives@) is None,
        },
{
    let mut from: usize = 0;
    proof {
        assert(directives@.skip(0) =~= directives@);
    }
    loop
        invariant
            from <= directives@.len(),
            first_stop(directives@) == match first_stop(directives@.skip(from as int)) {
                Some(stop) => Some(from + stop),
                None => None,
            },
        decreases directives@.len() - from,
    {
        let rest = &directives[from..directives.len()];
        proof {
            assert(rest@ =~= directives@.skip(from as int));
        }
        let comma = find_first(rest, 0, ',', ',');
        let piece = &rest[0..comma];
        proof {
            assert(piece@ =~= rest@.take(comma as int));
        }
        if let Some(stop) = stop_of_piece(piece) {
            return Some(from + stop);
        }
        if comma >= rest.len() {
            return None;
        }
        proof {
            assert(rest@.skip(comma + 1) =~= directives@.skip(from + comma + 1));
        }
        from = from + comma + 1;
    }
}

/// A character is as wide as the bytes that UTF-8 spells it in.
pub proof fn law_a_character_is_as_wide_as_its_bytes(c: char)
    ensures
        width(c) == vstd::utf8::encode_utf8(seq![c]).len(),
        c <= '\u{7f}' <==> width(c) == 1,
{
    let s = seq![c];
    assert(s.drop_first() =~= Seq::<char>::empty());
    assert(vstd::utf8::encode_utf8(s.drop_first()).len() == 0);
    vstd::utf8::char_is_scalar(c);
}

proof fn lemma_ascii_bytes(s: Seq<char>, from: int, to: int)
    requires
        0 <= from <= to <= s.len(),
        forall|i: int| 0 <= i < s.len() ==> #[trigger] s[i] <= '\u{7f}',
    ensures
        bytes_in(s, from, to) == to - from,
    decreases to - from,
{
    if from < to {
        lemma_ascii_bytes(s, from, to - 1);
        assert(s[to - 1] <= '\u{7f}');
    }
}

proof fn lemma_ascii_boundary(piece: Seq<char>, at: int)
    requires
        forall|i: int| 0 <= i < piece.len() ==> #[trigger] piece[i] <= '\u{7f}',
        0 <= first_visible(piece, 0) <= at < piece.len(),
    ensures
        !splits_at(piece, at),
        !splits_after(piece, at),
{
    let seen = first_visible(piece, 0);
    lemma_ascii_bytes(piece, seen, at);
    lemma_ascii_bytes(piece, 0, at - seen);
    lemma_ascii_bytes(piece, 0, at - seen + 1);
    assert(bytes_in(piece, 0, at - seen) == at - seen);
    assert(bytes_in(piece, 0, at - seen + 1) == at - seen + 1);
}

proof fn lemma_ascii_piece(piece: Seq<char>)
    requires
        forall|i: int| 0 <= i < piece.len() ==> #[trigger] piece[i] <= '\u{7f}',
    ensures
        piece_stop(piece) is None,
{
    lemma_first_visible(piece, 0);
    let seen = first_visible(piece, 0);
    lemma_first_of(piece, seen, '=', '[');
    let mark = first_of(piece, seen, '=', '[');
    if mark < piece.len() {
        lemma_ascii_boundary(piece, mark);
        lemma_first_of(piece, mark + 1, ']', '{');
        let close = first_of(piece, mark + 1, ']', '{');
        if close < piece.len() {
            lemma_ascii_boundary(piece, close);
            if close + 1 < piece.len() {
                lemma_ascii_boundary(piece, close + 1);
            }
            lemma_first_of(piece, close + 1, '}', '}');
            let end = first_of(piece, close + 1, '}', '}');
            if end < piece.len() {
                lemma_ascii_boundary(piece, end);
                if end + 2 < piece.len() {
                    lemma_ascii_boundary(piece, end + 2);
                }
            }
        }
    }
}

/// Directives in ASCII have no place where they cannot be cut.
pub proof fn law_ascii_directives_can_be_cut(s: Seq<char>)
    requires
        forall|i: int| 0 <= i < s.len() ==> #[trigger] s[i] <= '\u{7f}',
    ensures
        first_stop(s) is None,
    decreases s.len(),
{
    lemma_first_of(s, 0, ',', ',');
    let comma = first_of(s, 0, ',', ',');
    let piece = s.take(comma);
    assert forall|i: int| 0 <= i < piece.len() implies #[trigger] piece[i] <= '\u{7f}' by {
        assert(piece[i] == s[i]);
    }
    lemma_ascii_piece(piece);
    if comma < s.len() {
        let rest = s.skip(comma + 1);
        assert forall|i: int| 0 <= i < rest.len() implies #[trigger] rest[i] <= '\u{7f}' by {
            assert(rest[i] == s[comma + 1 + i]);
        }
        law_ascii_directives_can_be_cut(rest);
    }
}

/// A directive that starts with white space and a character that is not ASCII
/// cannot be cut at its level.
pub proof fn law_space_before_another_character_stops(c: char, level: Seq<char>)
    requires
        c > '\u{7f}',
        !text::is_space(c),
        !level.contains(','),
    ensures
        first_stop(seq![' ', c, '='] + level) == Some(2int),
{
    let s = seq![' ', c, '='] + level;
    assert forall|i: int| 0 <= i < s.len() implies s[i] != ',' by {
        if i >= 3 {
            assert(s[i] == level[i - 3]);
            assert(level.contains(level[i - 3]));
        }
    }
    lemma_first_of(s, 0, ',', ',');
    let comma = first_of(s, 0, ',', ',');
    assert(comma == s.len());
    let piece = s.take(comma);
    assert(piece =~= s);
    reveal_with_fuel(first_visible, 3);
    assert(first_visible(piece, 0) == 1);
    reveal_with_fuel(first_of, 3);
    assert(first_of(piece, 1, '=', '[') == 2);
    reveal_with_fuel(bytes_in, 3);
    let n = place(piece, 2);
    assert(n == width(c));
    assert(bytes_in(piece, 0, 0) == 0);
    assert(bytes_in(piece, 0, 1) == 1);
    assert(bytes_in(piece, 0, 2) == 1 + width(c));
    assert forall|k: int| 0 <= k <= piece.len() implies #[trigger] bytes_in(piece, 0, k) != n by {
        if k >= 2 {
            lemma_bytes_grow(piece, 0, 2, k);
        }
    }
    assert(splits_at(piece, 2));
}

/// White space of two bytes before a level stops at the level, and before a
/// span that does not end it stops nothing.
pub proof fn law_wide_space_stops_a_level(level: Seq<char>)
    requires
        !level.contains(','),
        !level.contains(']'),
        !level.contains('{'),
    ensures
        first_stop(seq!['\u{a0}', '='] + level) == Some(1int),
        first_stop(seq!['\u{a0}', '['] + level) is None,
{
    lemma_wide_space('=', level);
    lemma_wide_space('[', level);
    let span = seq!['\u{a0}', '['] + level;
    lemma_first_of(span, 2, ']', '{');
    let close = first_of(span, 2, ']', '{');
    if close < span.len() {
        assert(level[close - 2] == span[close]);
    }
    let piece = seq!['\u{a0}', '='] + level;
    reveal_with_fuel(bytes_in, 3);
    assert(place(piece, 1) == 0);
    assert(bytes_in(piece, 0, 0) == 0);
    assert(!splits_at(piece, 1));
    assert(!splits_at(span, 1)) by {
        assert(place(span, 1) == 0);
        assert(bytes_in(span, 0, 0) == 0);
    }
    assert(splits_after(piece, 1)) by {
        assert forall|k: int| 0 <= k <= piece.len() implies #[trigger] bytes_in(piece, 0, k)
            != 1 by {
            if k >= 1 {
                assert(bytes_in(piece, 0, 1) == 2);
                lemma_bytes_grow(piece, 0, 1, k);
            }
        }
    }
}

proof fn lemma_wide_space(mark: char, level: Seq<char>)
    requires
        mark == '=' || mark == '[',
        !level.contains(','),
    ensures
        ({
            let s = seq!['\u{a0}', mark] + level;
            &&& first_of(s, 0, ',', ',') == s.len()
            &&& s.take(s.len() as int) == s
            &&& first_visible(s, 0) == 1
            &&& first_of(s, 1, '=', '[') == 1
        }),
{
    let s = seq!['\u{a0}', mark] + level;
    assert forall|i: int| 0 <= i < s.len() implies s[i] != ',' by {
        if i >= 2 {
            assert(s[i] == level[i - 2]);
            assert(level.contains(level[i - 2]));
        }
    }
    lemma_first_of(s, 0, ',', ',');
    assert(s.take(s.len() as int) =~= s);
    reveal_with_fuel(first_visible, 3);
    assert(text::is_space(s[0]) && !text::is_space(s[1]));
}

} // verus!
