//! Text: trimming, splitting, comparing, and numbers in decimal.

use vstd::prelude::*;

verus! {

/// `String::push` of the standard library appends the given character to the
/// end of the string.
pub assume_specification[ String::push ](s: &mut String, c: char)
    ensures
        final(s)@ == old(s)@.push(c),
;

/// The characters of `s`.
pub fn chars_of(s: &str) -> (chars: Vec<char>)
    ensures
        chars@ == s@,
{
    let mut chars: Vec<char> = Vec::new();
    for c in it: s.chars()
        invariant
            it.seq() == s@,
            chars@ == s@.take(it.index() as int),
    {
        chars.push(c);
    }
    assert(chars@ =~= s@);
    chars
}

/// The string of the characters of `chars` from `from` to `to`.
pub fn string_between(chars: &Vec<char>, from: usize, to: usize) -> (s: String)
    requires
        from <= to <= chars@.len(),
    ensures
        s@ == chars@.subrange(from as int, to as int),
{
    let mut s = String::new();
    let mut k: usize = from;
    while k < to
        invariant
            from <= k <= to <= chars@.len(),
            s@ == chars@.subrange(from as int, k as int),
        decreases to - k,
    {
        s.push(chars[k]);
        assert(s@ =~= chars@.subrange(from as int, k + 1));
        k = k + 1;
    }
    s
}

/// Whether two strings are the same.
pub fn same(a: &str, b: &str) -> (r: bool)
    ensures
        r == (a@ == b@),
{
    let x = a.as_bytes();
    let y = b.as_bytes();
    proof {
        vstd::utf8::encode_utf8_decode_utf8(a@);
        vstd::utf8::encode_utf8_decode_utf8(b@);
    }
    if x.len() != y.len() {
        return false;
    }
    let mut k: usize = 0;
    while k < x.len()
        invariant
            k <= x@.len() == y@.len(),
            x@ == vstd::utf8::encode_utf8(a@),
            y@ == vstd::utf8::encode_utf8(b@),
            forall|j: int| 0 <= j < k ==> x@[j] == y@[j],
        decreases x@.len() - k,
    {
        if x[k] != y[k] {
            return false;
        }
        k = k + 1;
    }
    assert(x@ =~= y@);
    true
}

/// Whether `s` holds nothing.
pub fn is_empty(s: &str) -> (r: bool)
    ensures
        r == (s@.len() == 0),
{
    let r = same(s, "");
    proof {
        reveal_strlit("");
        assert(""@ =~= Seq::empty());
        assert(s@.len() == 0 ==> s@ =~= ""@);
    }
    r
}

/// `a`, then `b`.
pub fn join2(a: &str, b: &str) -> (s: String)
    ensures
        s@ == a@ + b@,
{
    let mut s = a.to_owned();
    s.append(b);
    s
}

/// `a`, then `b`, then `c`.
pub fn join3(a: &str, b: &str, c: &str) -> (s: String)
    ensures
        s@ == a@ + b@ + c@,
{
    let mut s = join2(a, b);
    s.append(c);
    s
}

// ---------------------------------------------------------------------------
// Trimming and splitting
// ---------------------------------------------------------------------------

/// Whether `c` has the Unicode property White_Space.
pub open spec fn is_white(c: char) -> bool {
    let u = c as u32;
    ||| 9 <= u <= 13
    ||| u == 0x20
    ||| u == 0x85
    ||| u == 0xA0
    ||| u == 0x1680
    ||| 0x2000 <= u <= 0x200A
    ||| u == 0x2028
    ||| u == 0x2029
    ||| u == 0x202F
    ||| u == 0x205F
    ||| u == 0x3000
}

/// `s` without the white space in front.
pub open spec fn trimmed_start(s: Seq<char>) -> Seq<char>
    decreases s.len(),
{
    if s.len() > 0 && is_white(s[0]) {
        trimmed_start(s.drop_first())
    } else {
        s
    }
}

/// `s` without the white space at its end.
pub open spec fn trimmed_end(s: Seq<char>) -> Seq<char>
    decreases s.len(),
{
    if s.len() > 0 && is_white(s.last()) {
        trimmed_end(s.drop_last())
    } else {
        s
    }
}

/// `s` without the white space at either end.
pub open spec fn trimmed(s: Seq<char>) -> Seq<char> {
    trimmed_end(trimmed_start(s))
}

/// Whether `c` has the Unicode property White_Space.
fn white(c: char) -> (r: bool)
    ensures
        r == is_white(c),
{
    let u: u32 = c as u32;
    (9 <= u && u <= 13) || u == 0x20 || u == 0x85 || u == 0xA0 || u == 0x1680 || (0x2000 <= u && u
        <= 0x200A) || u == 0x2028 || u == 0x2029 || u == 0x202F || u == 0x205F || u == 0x3000
}

/// Remove the white space at both ends of `s`.
pub fn trim(s: &str) -> (r: String)
    ensures
        r@ == trimmed(s@),
{
    let chars = chars_of(s);
    let n: usize = chars.len();
    let mut from: usize = 0;
    assert(s@.subrange(0, n as int) =~= s@);
    while from < n && white(chars[from])
        invariant
            from <= n == chars@.len(),
            chars@ == s@,
            trimmed_start(s@) == trimmed_start(s@.subrange(from as int, n as int)),
        decreases n - from,
    {
        assert(s@.subrange(from as int, n as int).drop_first() =~= s@.subrange(from + 1, n as int));
        from = from + 1;
    }
    let mut to: usize = n;
    while from < to && white(chars[to - 1])
        invariant
            from <= to <= n == chars@.len(),
            chars@ == s@,
            trimmed_end(s@.subrange(from as int, n as int)) == trimmed_end(
                s@.subrange(from as int, to as int),
            ),
        decreases to - from,
    {
        assert(s@.subrange(from as int, to as int).drop_last() =~= s@.subrange(
            from as int,
            to - 1,
        ));
        to = to - 1;
    }
    string_between(&chars, from, to)
}

/// The pieces of `s` between the separators: always one more than there are
/// separators.
pub open spec fn pieces(s: Seq<char>, separator: char) -> Seq<Seq<char>>
    decreases s.len(),
{
    if s.len() == 0 {
        seq![Seq::empty()]
    } else {
        let before = pieces(s.drop_last(), separator);
        if s.last() == separator {
            before.push(Seq::empty())
        } else {
            before.drop_last().push(before.last().push(s.last()))
        }
    }
}

/// There is always a piece.
pub proof fn lemma_pieces_not_empty(s: Seq<char>, separator: char)
    ensures
        pieces(s, separator).len() >= 1,
    decreases s.len(),
{
    if s.len() > 0 {
        lemma_pieces_not_empty(s.drop_last(), separator);
    }
}

/// The texts that strings hold.
pub open spec fn texts(strings: Seq<String>) -> Seq<Seq<char>> {
    Seq::new(strings.len(), |k: int| strings[k]@)
}

/// Split `s` at every `separator`.
pub fn split(s: &str, separator: char) -> (r: Vec<String>)
    ensures
        texts(r@) == pieces(s@, separator),
{
    let chars = chars_of(s);
    let mut done: Vec<String> = Vec::new();
    let mut current = String::new();
    let mut k: usize = 0;
    proof {
        assert(s@.take(0) =~= Seq::empty());
        assert(texts(done@).push(current@) =~= pieces(s@.take(0), separator));
    }
    while k < chars.len()
        invariant
            k <= chars@.len(),
            chars@ == s@,
            texts(done@).push(current@) == pieces(s@.take(k as int), separator),
        decreases chars@.len() - k,
    {
        let c = chars[k];
        let ghost before = texts(done@).push(current@);
        proof {
            let next = s@.take(k + 1);
            assert(next.drop_last() =~= s@.take(k as int));
            assert(next.last() == c);
            assert(before.drop_last() =~= texts(done@));
        }
        if c == separator {
            done.push(current);
            current = String::new();
            assert(texts(done@).push(current@) =~= before.push(Seq::empty()));
        } else {
            current.push(c);
        }
        k = k + 1;
    }
    assert(s@.take(k as int) =~= s@);
    let ghost before = texts(done@).push(current@);
    done.push(current);
    assert(texts(done@) =~= before);
    done
}

// ---------------------------------------------------------------------------
// Numbers in decimal
// ---------------------------------------------------------------------------

/// The decimal digit `d`.
pub open spec fn digit(d: nat) -> char {
    if d == 0 {
        '0'
    } else if d == 1 {
        '1'
    } else if d == 2 {
        '2'
    } else if d == 3 {
        '3'
    } else if d == 4 {
        '4'
    } else if d == 5 {
        '5'
    } else if d == 6 {
        '6'
    } else if d == 7 {
        '7'
    } else if d == 8 {
        '8'
    } else {
        '9'
    }
}

/// `n` in decimal, without leading zeros.
pub open spec fn decimal_of(n: nat) -> Seq<char>
    decreases n,
{
    if n < 10 {
        seq![digit(n)]
    } else {
        decimal_of(n / 10).push(digit(n % 10))
    }
}

/// The decimal digit `d`.
fn digit_char(d: u64) -> (c: char)
    requires
        d < 10,
    ensures
        c == digit(d as nat),
{
    match d {
        0 => '0',
        1 => '1',
        2 => '2',
        3 => '3',
        4 => '4',
        5 => '5',
        6 => '6',
        7 => '7',
        8 => '8',
        _ => '9',
    }
}

/// `n` in decimal.
pub fn decimal(n: u64) -> (s: String)
    ensures
        s@ == decimal_of(n as nat),
    decreases n,
{
    if n < 10 {
        let mut s = String::new();
        s.push(digit_char(n));
        assert(s@ =~= decimal_of(n as nat));
        s
    } else {
        let mut s = decimal(n / 10);
        s.push(digit_char(n % 10));
        s
    }
}

/// The value of a decimal digit.
pub open spec fn digit_value(c: char) -> Option<nat> {
    let u = c as u32;
    if 48 <= u <= 57 {
        Some((u - 48) as nat)
    } else {
        None
    }
}

/// The number that a run of decimal digits spells; nothing where `s` is empty or
/// holds anything else.
pub open spec fn digits_value(s: Seq<char>) -> Option<nat>
    decreases s.len(),
{
    if s.len() == 0 {
        None
    } else {
        match (digit_value(s.last()), digits_value(s.drop_last())) {
            (Some(d), Some(high)) => Some(10 * high + d),
            (Some(d), None) => if s.len() == 1 {
                Some(d)
            } else {
                None
            },
            _ => None,
        }
    }
}

/// The integer that `s` spells: decimal digits behind an optional sign.
pub open spec fn integer_value(s: Seq<char>) -> Option<int> {
    if s.len() > 0 && s[0] == '-' {
        match digits_value(s.drop_first()) {
            Some(v) => Some(-(v as int)),
            None => None,
        }
    } else {
        match digits_value(if s.len() > 0 && s[0] == '+' {
            s.drop_first()
        } else {
            s
        }) {
            Some(v) => Some(v as int),
            None => None,
        }
    }
}

/// A longer run of digits spells no smaller number.
proof fn lemma_digits_grow(s: Seq<char>, k: int)
    requires
        0 < k <= s.len(),
    ensures
        digits_value(s) matches Some(v) ==> digits_value(s.take(k)) matches Some(w) && w <= v,
    decreases s.len(),
{
    if k == s.len() {
        assert(s.take(k) =~= s);
    } else {
        lemma_digits_grow(s.drop_last(), k);
        assert(s.drop_last().take(k) =~= s.take(k));
    }
}

/// Read a signed 64-bit integer in decimal, as `str::parse` does.
pub fn parse_i64(s: &str) -> (r: Option<i64>)
    ensures
        match (r, integer_value(s@)) {
            (Some(n), Some(v)) => n == v,
            (None, Some(v)) => v < i64::MIN || v > i64::MAX,
            (None, None) => true,
            (Some(_), None) => false,
        },
{
    let chars = chars_of(s);
    let n: usize = chars.len();
    let negative: bool = n > 0 && chars[0] == '-';
    let from: usize = if n > 0 && (chars[0] == '-' || chars[0] == '+') {
        1
    } else {
        0
    };
    let ghost digits = s@.subrange(from as int, n as int);
    proof {
        if from == 1 {
            assert(digits =~= s@.drop_first());
        } else {
            assert(digits =~= s@);
        }
    }
    if from == n {
        return None;
    }
    let limit: u64 = 9223372036854775808;
    let mut value: u64 = 0;
    let mut k: usize = from;
    while k < n
        invariant
            from <= k <= n == chars@.len(),
            from < n,
            chars@ == s@,
            digits == s@.subrange(from as int, n as int),
            integer_value(s@) == (match digits_value(digits) {
                Some(v) => Some(
                    if negative {
                        -(v as int)
                    } else {
                        v as int
                    },
                ),
                None => None,
            }),
            limit == 9223372036854775808,
            value <= limit,
            k == from ==> value == 0,
            k > from ==> digits_value(digits.take(k - from)) == Some(value as nat),
        decreases n - k,
    {
        let u: u32 = chars[k] as u32;
        let ghost read = digits.take(k + 1 - from);
        proof {
            assert(read.drop_last() =~= digits.take(k - from));
            assert(read.last() == chars@[k as int]);
            lemma_digits_grow(digits, k + 1 - from);
        }
        if u < 48 || u > 57 {
            return None;
        }
        let d: u64 = (u - 48) as u64;
        if value > (limit - d) / 10 {
            return None;
        }
        value = 10 * value + d;
        k = k + 1;
    }
    assert(digits.take(n - from) =~= digits);
    if negative {
        if value == limit {
            Some(i64::MIN)
        } else {
            Some(-(value as i64))
        }
    } else if value == limit {
        None
    } else {
        Some(value as i64)
    }
}

// ---------------------------------------------------------------------------
// Laws
// ---------------------------------------------------------------------------

/// White space is what Unicode lists as such: the controls from tab to carriage
/// return, the space, next line, the no-break space, the Ogham space mark, the eleven
/// spaces from en quad to hair space, the line and the paragraph separator, and the
/// narrow no-break, medium mathematical and ideographic spaces.
pub proof fn law_white_space(c: char)
    ensures
        is_white(c) <==> c == '\u{9}' || c == '\u{a}' || c == '\u{b}' || c == '\u{c}' || c
            == '\u{d}' || c == ' ' || c == '\u{85}' || c == '\u{a0}' || c == '\u{1680}' || c
            == '\u{2000}' || c == '\u{2001}' || c == '\u{2002}' || c == '\u{2003}' || c
            == '\u{2004}' || c == '\u{2005}' || c == '\u{2006}' || c == '\u{2007}' || c
            == '\u{2008}' || c == '\u{2009}' || c == '\u{200a}' || c == '\u{2028}' || c
            == '\u{2029}' || c == '\u{202f}' || c == '\u{205f}' || c == '\u{3000}',
{
}

/// Trimming takes what is white off either end and nothing more: what is taken from
/// the front and from the back is all white, and what is left neither begins nor ends
/// in white space.
pub proof fn law_trimmed(s: Seq<char>)
    ensures
        exists|a: int, b: int|
            {
                &&& 0 <= a <= b <= s.len()
                &&& trimmed(s) == #[trigger] s.subrange(a, b)
                &&& forall|k: int| 0 <= k < a || b <= k < s.len() ==> is_white(#[trigger] s[k])
                &&& a < b ==> !is_white(s[a]) && !is_white(s[b - 1])
            },
{
    let a = lemma_trimmed_start(s);
    let t = trimmed_start(s);
    let n = lemma_trimmed_end(t);
    let b = a + n;
    assert(trimmed(s) =~= s.subrange(a, b));
    assert forall|k: int| 0 <= k < a || b <= k < s.len() implies is_white(#[trigger] s[k]) by {
        if b <= k {
            assert(s[k] == t[k - a]);
        }
    }
    if a < b {
        assert(s[a] == t[0]);
        assert(s[b - 1] == t[n - 1]);
    }
}

/// How much white space is in front.
proof fn lemma_trimmed_start(s: Seq<char>) -> (a: int)
    ensures
        0 <= a <= s.len(),
        trimmed_start(s) == s.skip(a),
        forall|k: int| 0 <= k < a ==> is_white(#[trigger] s[k]),
        a < s.len() ==> !is_white(s[a]),
    decreases s.len(),
{
    if s.len() > 0 && is_white(s[0]) {
        let rest = s.drop_first();
        let b = lemma_trimmed_start(rest);
        assert(rest.skip(b) =~= s.skip(b + 1));
        assert forall|k: int| 0 <= k < b + 1 implies is_white(#[trigger] s[k]) by {
            if k > 0 {
                assert(s[k] == rest[k - 1]);
            }
        }
        b + 1
    } else {
        assert(s.skip(0) =~= s);
        0
    }
}

/// How much is left in front of the white space at the end.
proof fn lemma_trimmed_end(s: Seq<char>) -> (n: int)
    ensures
        0 <= n <= s.len(),
        trimmed_end(s) == s.take(n),
        forall|k: int| n <= k < s.len() ==> is_white(#[trigger] s[k]),
        n > 0 ==> !is_white(s[n - 1]),
    decreases s.len(),
{
    if s.len() > 0 && is_white(s.last()) {
        let rest = s.drop_last();
        let n = lemma_trimmed_end(rest);
        assert(rest.take(n) =~= s.take(n));
        assert forall|k: int| n <= k < s.len() implies is_white(#[trigger] s[k]) by {
            if k < rest.len() {
                assert(s[k] == rest[k]);
            }
        }
        n
    } else {
        assert(s.take(s.len() as int) =~= s);
        s.len() as int
    }
}

/// Texts one behind the other, with a separator between each two.
pub open spec fn joined(parts: Seq<Seq<char>>, separator: char) -> Seq<char>
    decreases parts.len(),
{
    if parts.len() == 0 {
        Seq::empty()
    } else if parts.len() == 1 {
        parts[0]
    } else {
        joined(parts.drop_last(), separator).push(separator) + parts.last()
    }
}

/// Splitting undoes joining: the pieces of a text, joined again, are the text, and no
/// piece holds the separator.
pub proof fn law_pieces_join_again(s: Seq<char>, separator: char)
    ensures
        pieces(s, separator).len() > 0,
        joined(pieces(s, separator), separator) == s,
        forall|k: int|
            0 <= k < pieces(s, separator).len() ==> !(#[trigger] pieces(s, separator)[k]).contains(
                separator,
            ),
    decreases s.len(),
{
    let all = pieces(s, separator);
    if s.len() > 0 {
        let rest = s.drop_last();
        let before = pieces(rest, separator);
        law_pieces_join_again(rest, separator);
        assert(s =~= rest.push(s.last()));
        if s.last() == separator {
            assert(all.drop_last() =~= before);
            assert(joined(all, separator) =~= s);
        } else {
            let grown = before.last().push(s.last());
            assert(all.drop_last() =~= before.drop_last());
            assert(joined(all, separator) =~= joined(before, separator).push(s.last()));
            assert(!grown.contains(separator)) by {
                if grown.contains(separator) {
                    let j = choose|j: int| 0 <= j < grown.len() && grown[j] == separator;
                    assert(before.last()[j] == separator);
                    assert(before[before.len() - 1].contains(separator));
                }
            }
        }
    } else {
        assert(joined(all, separator) =~= s);
    }
}

/// A text splits in one way only: parts without the separator are what their joining
/// splits into.
pub proof fn law_joined_splits_again(parts: Seq<Seq<char>>, separator: char)
    requires
        parts.len() > 0,
        forall|k: int| 0 <= k < parts.len() ==> !(#[trigger] parts[k]).contains(separator),
    ensures
        pieces(joined(parts, separator), separator) == parts,
    decreases parts.len(),
{
    let last = parts.last();
    assert(parts[parts.len() - 1] == last);
    if parts.len() == 1 {
        lemma_pieces_append(Seq::empty(), last, separator);
        assert(Seq::<char>::empty() + last =~= last);
        assert(pieces(Seq::empty(), separator).last() + last =~= last);
        assert(pieces(last, separator) =~= parts);
    } else {
        let before = parts.drop_last();
        assert forall|k: int| 0 <= k < before.len() implies !(#[trigger] before[k]).contains(
            separator,
        ) by {
            assert(before[k] == parts[k]);
        }
        law_joined_splits_again(before, separator);
        let head = joined(before, separator).push(separator);
        assert(head.drop_last() =~= joined(before, separator));
        lemma_pieces_append(head, last, separator);
        assert(Seq::<char>::empty() + last =~= last);
        assert(pieces(head, separator).drop_last() =~= before);
        assert(pieces(head + last, separator) =~= parts);
    }
}

/// Text without a separator goes on with the last piece.
proof fn lemma_pieces_append(s: Seq<char>, t: Seq<char>, separator: char)
    requires
        !t.contains(separator),
    ensures
        pieces(s + t, separator) == pieces(s, separator).drop_last().push(
            pieces(s, separator).last() + t,
        ),
    decreases t.len(),
{
    lemma_pieces_not_empty(s, separator);
    if t.len() == 0 {
        assert(s + t =~= s);
        assert(pieces(s, separator).last() + t =~= pieces(s, separator).last());
        assert(pieces(s, separator).drop_last().push(pieces(s, separator).last())
            =~= pieces(s, separator));
    } else {
        let u = t.drop_last();
        assert(!u.contains(separator)) by {
            if u.contains(separator) {
                let j = choose|j: int| 0 <= j < u.len() && u[j] == separator;
                assert(t[j] == separator);
            }
        }
        lemma_pieces_append(s, u, separator);
        assert((s + t).drop_last() =~= s + u);
        assert(t.last() != separator) by {
            assert(t[t.len() - 1] == t.last());
        }
        let before = pieces(s + u, separator);
        assert(before.drop_last() =~= pieces(s, separator).drop_last());
        assert(before.last().push(t.last()) =~= pieces(s, separator).last() + t);
    }
}

/// A number in decimal is spelled in the digits from 0 to 9 alone, without a zero in
/// front, and reads back as itself.
pub proof fn law_decimal_reads_back(n: nat)
    ensures
        digits_value(decimal_of(n)) == Some(n),
        integer_value(decimal_of(n)) == Some(n as int),
        decimal_of(n).len() > 0,
        forall|k: int|
            0 <= k < decimal_of(n).len() ==> '0' <= #[trigger] decimal_of(n)[k] && decimal_of(n)[k]
                <= '9',
        n > 0 ==> decimal_of(n)[0] != '0',
        n == 0 ==> decimal_of(n) == seq!['0'],
    decreases n,
{
    let s = decimal_of(n);
    assert(digits_value(Seq::<char>::empty()) is None);
    if n >= 10 {
        law_decimal_reads_back(n / 10);
        let high = decimal_of(n / 10);
        assert(s.last() == digit(n % 10));
        assert(n == 10 * (n / 10) + n % 10);
        assert(s.drop_last() =~= high);
        assert(s[0] == high[0]);
        assert forall|k: int| 0 <= k < s.len() implies '0' <= #[trigger] s[k] && s[k] <= '9' by {
            if k < high.len() {
                assert(s[k] == high[k]);
            }
        }
    } else {
        assert(s.drop_last() =~= Seq::empty());
    }
    assert('0' <= s[0] && s[0] <= '9');
}

/// The digits are the ten characters from 0 to 9.
proof fn lemma_digit(c: char)
    ensures
        digit_value(c) is Some <==> '0' <= c && c <= '9',
{
}

/// The number before a digit counts ten times as much with the digit behind it, and a
/// digit alone is the number of its place behind `0`. Anything but a digit spells no
/// number, wherever it stands.
pub proof fn law_digits_are_decimal(s: Seq<char>, c: char)
    ensures
        '0' <= c && c <= '9' ==> digits_value(seq![c]) == Some((c as int - 48) as nat),
        '0' <= c && c <= '9' && digits_value(s) is Some ==> digits_value(s.push(c)) == Some(
            (10 * digits_value(s)->0 + (c as int - 48)) as nat,
        ),
        digits_value(s) is Some <==> s.len() > 0 && forall|k: int|
            0 <= k < s.len() ==> '0' <= #[trigger] s[k] && s[k] <= '9',
    decreases s.len(),
{
    assert(digits_value(Seq::<char>::empty()) is None);
    assert(seq![c].drop_last() =~= Seq::empty());
    assert(seq![c].last() == c);
    assert(s.push(c).drop_last() =~= s);
    if s.len() > 0 {
        let rest = s.drop_last();
        law_digits_are_decimal(rest, c);
        assert(s[s.len() - 1] == s.last());
        if rest.len() == 0 {
            assert(rest =~= Seq::empty());
        }
        if rest.len() > 0 && digits_value(rest) is None {
            let k = choose|k: int|
                0 <= k < rest.len() && !('0' <= #[trigger] rest[k] && rest[k] <= '9');
            assert(s[k] == rest[k]);
        }
        if digits_value(s) is Some {
            assert forall|k: int| 0 <= k < s.len() implies '0' <= #[trigger] s[k] && s[k] <= '9' by {
                if k < rest.len() {
                    assert(digits_value(rest) is Some);
                    assert('0' <= rest[k] && rest[k] <= '9');
                    assert(s[k] == rest[k]);
                } else {
                    lemma_digit(s.last());
                    assert(s[k] == s.last());
                }
            }
        }
    }
}

/// A sign in front of digits: a minus negates what they spell, a plus changes nothing.
/// There is one sign at most, and a sign alone is no number.
pub proof fn law_signs(s: Seq<char>)
    ensures
        integer_value(seq!['-'] + s) == (match digits_value(s) {
            Some(v) => Some(0 - v),
            None => None::<int>,
        }),
        integer_value(seq!['+'] + s) == (match digits_value(s) {
            Some(v) => Some(v as int),
            None => None::<int>,
        }),
        digits_value(s) is Some ==> integer_value(s) == Some(digits_value(s)->0 as int),
        integer_value(s) is Some ==> digits_value(s) is Some || (s.len() > 1 && (s[0] == '-' || s[0]
            == '+') && digits_value(s.skip(1)) is Some),
{
    assert((seq!['-'] + s).drop_first() =~= s);
    assert((seq!['+'] + s).drop_first() =~= s);
    if digits_value(s) is Some {
        law_digits_are_decimal(s, '0');
        assert('0' <= s[0] && s[0] <= '9');
    }
    if s.len() > 0 {
        assert(s.drop_first() =~= s.skip(1));
    }
}

} // verus!
