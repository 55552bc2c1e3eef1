//! Character-level utilities shared by the record codec: searching, escaping,
//! decimal digits, boolean literals, and conversions between `String` and
//! `Vec<char>`.
//!
//! Values stored in a record may contain any character, including the two
//! characters the line format reserves (`\n` as the line terminator and `\`
//! as the escape lead-in), so values are written through [`escape`] and read
//! back through [`unescape`], which invert one another.

use vstd::prelude::*;

verus! {

// ---------------------------------------------------------------------------
// First occurrence of a character
// ---------------------------------------------------------------------------

/// Index of the first occurrence of `c` in `s`, or `None` when absent.
pub open spec fn first_idx(s: Seq<char>, c: char) -> Option<int>
    decreases s.len(),
{
    if s.len() == 0 {
        None
    } else if s[0] == c {
        Some(0int)
    } else {
        match first_idx(s.drop_first(), c) {
            Some(i) => Some(i + 1),
            None => None,
        }
    }
}

pub proof fn lemma_first_idx_found(s: Seq<char>, c: char)
    requires
        first_idx(s, c) is Some,
    ensures
        0 <= first_idx(s, c)->Some_0 < s.len(),
        s[first_idx(s, c)->Some_0] == c,
        forall|k: int| 0 <= k < first_idx(s, c)->Some_0 ==> s[k] != c,
    decreases s.len(),
{
    if s.len() > 0 && s[0] != c {
        lemma_first_idx_found(s.drop_first(), c);
        let j = first_idx(s.drop_first(), c)->Some_0;
        assert(s.drop_first()[j] == s[j + 1]);
        assert(forall|k: int| 1 <= k < j + 1 ==> s[k] == s.drop_first()[k - 1]);
    }
}

pub proof fn lemma_first_idx_is(s: Seq<char>, c: char, i: int)
    requires
        0 <= i < s.len(),
        s[i] == c,
        forall|k: int| 0 <= k < i ==> s[k] != c,
    ensures
        first_idx(s, c) == Some(i),
    decreases i,
{
    if i > 0 {
        lemma_first_idx_is(s.drop_first(), c, i - 1);
    }
}

pub proof fn lemma_first_idx_none(s: Seq<char>, c: char)
    requires
        forall|k: int| 0 <= k < s.len() ==> s[k] != c,
    ensures
        first_idx(s, c) is None,
    decreases s.len(),
{
    if s.len() > 0 {
        lemma_first_idx_none(s.drop_first(), c);
    }
}

pub proof fn lemma_first_idx_none_inv(s: Seq<char>, c: char)
    requires
        first_idx(s, c) is None,
    ensures
        forall|k: int| 0 <= k < s.len() ==> s[k] != c,
    decreases s.len(),
{
    if s.len() > 0 {
        lemma_first_idx_none_inv(s.drop_first(), c);
        assert(forall|k: int| 1 <= k < s.len() ==> s[k] == s.drop_first()[k - 1]);
    }
}

/// Search `v` for `c`, starting at `start`.
pub fn find_char_from(v: &Vec<char>, start: usize, c: char) -> (r: Option<usize>)
    requires
        start <= v@.len(),
    ensures
        match r {
            Some(i) => {
                &&& start <= i < v@.len()
                &&& first_idx(v@.skip(start as int), c) == Some(i - start)
            },
            None => first_idx(v@.skip(start as int), c) is None,
        },
{
    let mut i: usize = start;
    while i < v.len()
        invariant
            start <= i <= v@.len(),
            forall|k: int| start <= k < i ==> v@[k] != c,
        decreases v@.len() - i,
    {
        if v[i] == c {
            proof {
                assert(forall|k: int|
                    0 <= k < i - start ==> v@.skip(start as int)[k] == v@[start + k]);
                lemma_first_idx_is(v@.skip(start as int), c, i - start);
            }
            return Some(i);
        }
        i += 1;
    }
    proof {
        assert(forall|k: int|
            0 <= k < v@.skip(start as int).len() ==> v@.skip(start as int)[k] == v@[start + k]);
        lemma_first_idx_none(v@.skip(start as int), c);
    }
    None
}

/// Copy of `v[a..b]`.
pub fn subvec(v: &Vec<char>, a: usize, b: usize) -> (r: Vec<char>)
    requires
        a <= b <= v@.len(),
    ensures
        r@ == v@.subrange(a as int, b as int),
{
    let mut r: Vec<char> = Vec::new();
    let mut i: usize = a;
    while i < b
        invariant
            a <= i <= b <= v@.len(),
            r@ =~= v@.subrange(a as int, i as int),
        decreases b - i,
    {
        r.push(v[i]);
        i += 1;
    }
    proof {
        assert(r@ =~= v@.subrange(a as int, b as int));
    }
    r
}

// ---------------------------------------------------------------------------
// Escaping
// ---------------------------------------------------------------------------

/// How a single character is written inside a record value: the escape
/// lead-in and the line terminator are written as two-character escapes,
/// everything else stands for itself.
pub open spec fn escape_char(c: char) -> Seq<char> {
    if c == '\\' {
        seq!['\\', '\\']
    } else if c == '\n' {
        seq!['\\', 'n']
    } else {
        seq![c]
    }
}

/// The escaped form of a value.
pub open spec fn escape(s: Seq<char>) -> Seq<char>
    decreases s.len(),
{
    if s.len() == 0 {
        Seq::empty()
    } else {
        escape_char(s[0]) + escape(s.drop_first())
    }
}

pub proof fn lemma_escape_concat(a: Seq<char>, b: Seq<char>)
    ensures
        escape(a + b) == escape(a) + escape(b),
    decreases a.len(),
{
    if a.len() == 0 {
        assert(a + b =~= b);
        assert(escape(a) + escape(b) =~= escape(b));
    } else {
        assert((a + b).drop_first() =~= a.drop_first() + b);
        lemma_escape_concat(a.drop_first(), b);
        assert(escape(a + b) =~= escape(a) + escape(b));
    }
}

/// An escaped value never contains a line terminator.
pub proof fn lemma_escape_no_newline(s: Seq<char>)
    ensures
        forall|i: int| 0 <= i < escape(s).len() ==> escape(s)[i] != '\n',
    decreases s.len(),
{
    if s.len() > 0 {
        lemma_escape_no_newline(s.drop_first());
        let e0 = escape_char(s[0]);
        let rest = escape(s.drop_first());
        assert(escape(s) == e0 + rest);
        assert forall|i: int| 0 <= i < escape(s).len() implies escape(s)[i] != '\n' by {
            if i < e0.len() {
                assert(escape(s)[i] == e0[i]);
            } else {
                assert(escape(s)[i] == rest[i - e0.len()]);
            }
        }
    }
}

/// Inverse of [`escape`]; `None` when the text is not a valid escaped value.
pub open spec fn unescape(s: Seq<char>) -> Option<Seq<char>>
    decreases s.len(),
{
    if s.len() == 0 {
        Some(Seq::empty())
    } else if s[0] == '\\' {
        if s.len() == 1 {
            None
        } else if s[1] == '\\' {
            match unescape(s.skip(2)) {
                Some(t) => Some(seq!['\\'] + t),
                None => None,
            }
        } else if s[1] == 'n' {
            match unescape(s.skip(2)) {
                Some(t) => Some(seq!['\n'] + t),
                None => None,
            }
        } else {
            None
        }
    } else {
        match unescape(s.drop_first()) {
            Some(t) => Some(seq![s[0]] + t),
            None => None,
        }
    }
}

/// Escaping a value and reading it back yields the value unchanged.
pub proof fn lemma_unescape_escape(s: Seq<char>)
    ensures
        unescape(escape(s)) == Some(s),
    decreases s.len(),
{
    if s.len() > 0 {
        lemma_unescape_escape(s.drop_first());
        let e = escape(s);
        if s[0] == '\\' {
            assert(e.skip(2) =~= escape(s.drop_first()));
            assert(seq!['\\'] + s.drop_first() =~= s);
        } else if s[0] == '\n' {
            assert(e.skip(2) =~= escape(s.drop_first()));
            assert(seq!['\n'] + s.drop_first() =~= s);
        } else {
            assert(e.drop_first() =~= escape(s.drop_first()));
            assert(seq![s[0]] + s.drop_first() =~= s);
        }
    }
}

/// Append the escaped form of `s` to `out`.
pub fn push_escaped(out: &mut Vec<char>, s: &str)
    ensures
        final(out)@ == old(out)@ + escape(s@),
{
    let n = s.unicode_len();
    let mut i: usize = 0;
    while i < n
        invariant
            n == s@.len(),
            i <= n,
            out@ == old(out)@ + escape(s@.take(i as int)),
        decreases n - i,
    {
        let c = s.get_char(i);
        proof {
            assert(s@.take(i + 1) =~= s@.take(i as int) + seq![c]);
            lemma_escape_concat(s@.take(i as int), seq![c]);
            assert(seq![c].drop_first() =~= Seq::<char>::empty());
            assert(escape(seq![c]) == escape_char(c) + escape(Seq::<char>::empty()));
            assert(escape_char(c) + escape(Seq::<char>::empty()) =~= escape_char(c));
        }
        if c == '\\' {
            out.push('\\');
            out.push('\\');
        } else if c == '\n' {
            out.push('\\');
            out.push('n');
        } else {
            out.push(c);
        }
        proof {
            assert(out@ =~= old(out)@ + escape(s@.take(i + 1)));
        }
        i += 1;
    }
    proof {
        assert(s@.take(n as int) =~= s@);
    }
}

/// Read an escaped value back; `None` when the text is not a valid escaped
/// value.
pub fn unescape_chars(v: &Vec<char>) -> (r: Option<Vec<char>>)
    ensures
        match r {
            Some(t) => unescape(v@) == Some(t@),
            None => unescape(v@) is None,
        },
{
    let mut out: Vec<char> = Vec::new();
    let mut i: usize = 0;
    proof {
        assert(v@.skip(0) =~= v@);
    }
    while i < v.len()
        invariant
            i <= v@.len(),
            unescape(v@) is Some <==> unescape(v@.skip(i as int)) is Some,
            unescape(v@) is Some ==> unescape(v@)->Some_0 == out@ + unescape(
                v@.skip(i as int),
            )->Some_0,
        decreases v@.len() - i,
    {
        let ghost pre = out@;
        let c = v[i];
        proof {
            assert(v@.skip(i as int)[0] == c);
        }
        if c == '\\' {
            if i + 1 == v.len() {
                proof {
                    assert(v@.skip(i as int).len() == 1);
                }
                return None;
            }
            let d = v[i + 1];
            proof {
                assert(v@.skip(i as int)[1] == d);
                assert(v@.skip(i as int).skip(2) =~= v@.skip(i + 2));
            }
            if d == '\\' {
                out.push('\\');
            } else if d == 'n' {
                out.push('\n');
            } else {
                return None;
            }
            proof {
                let rep: char = if d == '\\' {
                    '\\'
                } else {
                    '\n'
                };
                assert(out@ =~= pre.push(rep));
                if unescape(v@.skip(i + 2)) is Some {
                    let t = unescape(v@.skip(i + 2))->Some_0;
                    assert(unescape(v@.skip(i as int)) == Some(seq![rep] + t));
                    assert(pre + (seq![rep] + t) =~= out@ + t);
                }
            }
            i += 2;
        } else {
            out.push(c);
            proof {
                assert(v@.skip(i as int).drop_first() =~= v@.skip(i + 1));
                assert(out@ =~= pre.push(c));
                if unescape(v@.skip(i + 1)) is Some {
                    let t = unescape(v@.skip(i + 1))->Some_0;
                    assert(unescape(v@.skip(i as int)) == Some(seq![c] + t));
                    assert(pre + (seq![c] + t) =~= out@ + t);
                }
            }
            i += 1;
        }
    }
    proof {
        assert(v@.skip(i as int) =~= Seq::<char>::empty());
        assert(unescape(Seq::<char>::empty()) == Some(Seq::<char>::empty()));
        assert(out@ + Seq::<char>::empty() =~= out@);
    }
    Some(out)
}

// ---------------------------------------------------------------------------
// Decimal numbers
// ---------------------------------------------------------------------------

/// The character for one decimal digit.
pub open spec fn spec_digit_char(d: int) -> char {
    if d == 0 {
        '0'
    } else if d == 1 {
        '1'
    } else if d == 2 {
        '2'
    } else if d == 3 {
        '3'
    } else if d == 4 {
        '4'
    } else if d == 5 {
        '5'
    } else if d == 6 {
        '6'
    } else if d == 7 {
        '7'
    } else if d == 8 {
        '8'
    } else {
        '9'
    }
}

/// The value of one decimal digit character, `None` for any other character.
pub open spec fn digit_of(c: char) -> Option<int> {
    if c == '0' {
        Some(0int)
    } else if c == '1' {
        Some(1int)
    } else if c == '2' {
        Some(2int)
    } else if c == '3' {
        Some(3int)
    } else if c == '4' {
        Some(4int)
    } else if c == '5' {
        Some(5int)
    } else if c == '6' {
        Some(6int)
    } else if c == '7' {
        Some(7int)
    } else if c == '8' {
        Some(8int)
    } else if c == '9' {
        Some(9int)
    } else {
        None
    }
}

/// The usual decimal rendering of a number, most significant digit first,
/// without leading zeros (a single `0` for zero).
pub open spec fn u32_digits(n: nat) -> Seq<char>
    decreases n,
{
    if n < 10 {
        seq![spec_digit_char(n as int)]
    } else {
        u32_digits(n / 10) + seq![spec_digit_char((n % 10) as int)]
    }
}

/// Value of a digit string, `None` when any character is not a digit.
/// The empty string has value zero; callers reject it separately.
pub open spec fn dec_val(s: Seq<char>) -> Option<nat>
    decreases s.len(),
{
    if s.len() == 0 {
        Some(0nat)
    } else {
        match (dec_val(s.drop_last()), digit_of(s.last())) {
            (Some(v), Some(d)) => Some((v * 10 + d) as nat),
            _ => None,
        }
    }
}

/// What a decimal field holds: a nonempty digit string whose value fits.
pub open spec fn parse_u32(s: Seq<char>) -> Option<u32> {
    if s.len() == 0 {
        None
    } else {
        match dec_val(s) {
            Some(v) => if v <= u32::MAX { Some(v as u32) } else { None },
            None => None,
        }
    }
}

/// The digit characters and digit values invert one another.
pub proof fn lemma_digit_char_of(d: int)
    requires
        0 <= d < 10,
    ensures
        digit_of(spec_digit_char(d)) == Some(d),
{
    if d == 0 {
        assert(digit_of('0') == Some(0int));
    } else if d == 1 {
        assert(digit_of('1') == Some(1int));
    } else if d == 2 {
        assert(digit_of('2') == Some(2int));
    } else if d == 3 {
        assert(digit_of('3') == Some(3int));
    } else if d == 4 {
        assert(digit_of('4') == Some(4int));
    } else if d == 5 {
        assert(digit_of('5') == Some(5int));
    } else if d == 6 {
        assert(digit_of('6') == Some(6int));
    } else if d == 7 {
        assert(digit_of('7') == Some(7int));
    } else if d == 8 {
        assert(digit_of('8') == Some(8int));
    } else {
        assert(digit_of('9') == Some(9int));
    }
}

pub proof fn lemma_digits_val(n: nat)
    ensures
        dec_val(u32_digits(n)) == Some(n),
    decreases n,
{
    if n < 10 {
        let s = u32_digits(n);
        lemma_digit_char_of(n as int);
        assert(s.drop_last() =~= Seq::<char>::empty());
        assert(s.last() == spec_digit_char(n as int));
        assert(dec_val(Seq::<char>::empty()) == Some(0nat));
    } else {
        lemma_digits_val(n / 10);
        lemma_digit_char_of((n % 10) as int);
        let s = u32_digits(n);
        assert(s.drop_last() =~= u32_digits(n / 10));
        assert(s.last() == spec_digit_char((n % 10) as int));
        assert(n / 10 * 10 + n % 10 == n) by {
            vstd::arithmetic::div_mod::lemma_fundamental_div_mod(n as int, 10);
        }
    }
}

/// Every character of a decimal rendering is a digit; in particular, none is
/// a line terminator.
pub proof fn lemma_digits_are_digits(n: nat)
    ensures
        forall|i: int| 0 <= i < u32_digits(n).len() ==> digit_of(u32_digits(n)[i]) is Some,
    decreases n,
{
    if n >= 10 {
        lemma_digits_are_digits(n / 10);
    }
}

pub proof fn lemma_digits_parse(n: nat)
    requires
        n <= u32::MAX,
    ensures
        parse_u32(u32_digits(n)) == Some(n as u32),
{
    lemma_digits_val(n);
    assert(u32_digits(n).len() > 0) by {
        if n >= 10 {
            assert(u32_digits(n) == u32_digits(n / 10) + seq![spec_digit_char((n % 10) as int)]);
        }
    }
}

/// When the whole string is a valid digit string, the value of any prefix is
/// no larger than the value of the whole.
pub proof fn lemma_dec_val_prefix(s: Seq<char>, i: int)
    requires
        0 <= i <= s.len(),
        dec_val(s) is Some,
    ensures
        dec_val(s.take(i)) is Some,
        dec_val(s.take(i))->Some_0 <= dec_val(s)->Some_0,
    decreases s.len() - i,
{
    if i < s.len() {
        lemma_dec_val_prefix(s, i + 1);
        assert(s.take(i + 1).drop_last() =~= s.take(i));
        assert(s.take(i + 1).last() == s[i]);
    } else {
        assert(s.take(i) =~= s);
    }
}

/// Append the decimal rendering of `n` to `out`.
pub fn push_digits(out: &mut Vec<char>, n: u32)
    ensures
        final(out)@ == old(out)@ + u32_digits(n as nat),
    decreases n,
{
    if n < 10 {
        out.push(digit_char(n));
        proof {
            assert(out@ =~= old(out)@ + u32_digits(n as nat));
        }
    } else {
        push_digits(out, n / 10);
        out.push(digit_char(n % 10));
        proof {
            assert(out@ =~= old(out)@ + u32_digits(n as nat));
        }
    }
}

/// The character for digit `d`.
pub fn digit_char(d: u32) -> (c: char)
    requires
        d < 10,
    ensures
        c == spec_digit_char(d as int),
{
    if d == 0 {
        '0'
    } else if d == 1 {
        '1'
    } else if d == 2 {
        '2'
    } else if d == 3 {
        '3'
    } else if d == 4 {
        '4'
    } else if d == 5 {
        '5'
    } else if d == 6 {
        '6'
    } else if d == 7 {
        '7'
    } else if d == 8 {
        '8'
    } else {
        '9'
    }
}

/// The value of a digit character.
pub fn digit_value(c: char) -> (r: Option<u32>)
    ensures
        match r {
            Some(d) => digit_of(c) == Some(d as int) && d < 10,
            None => digit_of(c) is None,
        },
{
    if c == '0' {
        Some(0)
    } else if c == '1' {
        Some(1)
    } else if c == '2' {
        Some(2)
    } else if c == '3' {
        Some(3)
    } else if c == '4' {
        Some(4)
    } else if c == '5' {
        Some(5)
    } else if c == '6' {
        Some(6)
    } else if c == '7' {
        Some(7)
    } else if c == '8' {
        Some(8)
    } else if c == '9' {
        Some(9)
    } else {
        None
    }
}

/// Read a decimal field.
pub fn parse_u32_chars(v: &Vec<char>) -> (r: Option<u32>)
    ensures
        r == parse_u32(v@),
{
    if v.len() == 0 {
        return None;
    }
    let mut acc: u32 = 0;
    let mut i: usize = 0;
    while i < v.len()
        invariant
            i <= v@.len(),
            dec_val(v@.take(i as int)) == Some(acc as nat),
        decreases v@.len() - i,
    {
        proof {
            assert(v@.take(i + 1).drop_last() =~= v@.take(i as int));
            assert(v@.take(i + 1).last() == v@[i as int]);
        }
        match digit_value(v[i]) {
            None => {
                proof {
                    lemma_dec_val_none(v@, i as int);
                }
                return None;
            },
            Some(d) => {
                if acc <= (u32::MAX - d) / 10 {
                    acc = acc * 10 + d;
                } else {
                    proof {
                        assert(acc as nat * 10 + d as nat > u32::MAX);
                        if dec_val(v@) is Some {
                            lemma_dec_val_prefix(v@, i + 1);
                        }
                    }
                    return None;
                }
            },
        }
        i += 1;
    }
    proof {
        assert(v@.take(v@.len() as int) =~= v@);
    }
    Some(acc)
}

/// A non-digit character anywhere makes the whole string invalid.
proof fn lemma_dec_val_none(s: Seq<char>, i: int)
    requires
        0 <= i < s.len(),
        digit_of(s[i]) is None,
    ensures
        dec_val(s) is None,
    decreases s.len(),
{
    if i < s.len() - 1 {
        lemma_dec_val_none(s.drop_last(), i);
    }
}

// ---------------------------------------------------------------------------
// Boolean literals
// ---------------------------------------------------------------------------

/// How a boolean field is written.
pub open spec fn bool_chars(b: bool) -> Seq<char> {
    if b {
        seq!['t', 'r', 'u', 'e']
    } else {
        seq!['f', 'a', 'l', 's', 'e']
    }
}

/// What a boolean field holds.
pub open spec fn parse_bool(s: Seq<char>) -> Option<bool> {
    if s == bool_chars(true) {
        Some(true)
    } else if s == bool_chars(false) {
        Some(false)
    } else {
        None
    }
}

pub proof fn lemma_bool_round_trip(b: bool)
    ensures
        parse_bool(bool_chars(b)) == Some(b),
{
    assert(bool_chars(false) != bool_chars(true));
}

/// Append the rendering of `b` to `out`.
pub fn push_bool(out: &mut Vec<char>, b: bool)
    ensures
        final(out)@ == old(out)@ + bool_chars(b),
{
    if b {
        out.push('t');
        out.push('r');
        out.push('u');
        out.push('e');
    } else {
        out.push('f');
        out.push('a');
        out.push('l');
        out.push('s');
        out.push('e');
    }
    proof {
        assert(out@ =~= old(out)@ + bool_chars(b));
    }
}

/// Read a boolean field.
pub fn parse_bool_chars(v: &Vec<char>) -> (r: Option<bool>)
    ensures
        r == parse_bool(v@),
{
    if v.len() == 4 && v[0] == 't' && v[1] == 'r' && v[2] == 'u' && v[3] == 'e' {
        proof {
            assert(v@ =~= bool_chars(true));
        }
        Some(true)
    } else if v.len() == 5 && v[0] == 'f' && v[1] == 'a' && v[2] == 'l' && v[3] == 's'
        && v[4] == 'e' {
        proof {
            assert(v@ =~= bool_chars(false));
        }
        Some(false)
    } else {
        proof {
            if v@ == bool_chars(true) {
                assert(v@[0] == 't' && v@[1] == 'r' && v@[2] == 'u' && v@[3] == 'e');
            }
            if v@ == bool_chars(false) {
                assert(v@[0] == 'f' && v@[1] == 'a' && v@[2] == 'l' && v@[3] == 's' && v@[4]
                    == 'e');
            }
        }
        None
    }
}

// ---------------------------------------------------------------------------
// String conversions
// ---------------------------------------------------------------------------

/// Relies on alloc's `String::push`: appends the given character to the end
/// of the string.
pub assume_specification[ String::push ](s: &mut String, c: char)
    ensures
        final(s)@ == old(s)@.push(c),
;

/// Build a `String` holding exactly the characters of `v`.
pub fn chars_to_string(v: &Vec<char>) -> (s: String)
    ensures
        s@ == v@,
{
    let mut s = String::new();
    let mut i: usize = 0;
    while i < v.len()
        invariant
            i <= v@.len(),
            s@ =~= v@.take(i as int),
        decreases v@.len() - i,
    {
        s.push(v[i]);
        i += 1;
    }
    proof {
        assert(v@.take(v@.len() as int) =~= v@);
    }
    s
}

/// Collect the characters of `s` into a vector.
pub fn str_to_chars(s: &str) -> (v: Vec<char>)
    ensures
        v@ == s@,
{
    let n = s.unicode_len();
    let mut v: Vec<char> = Vec::new();
    let mut i: usize = 0;
    while i < n
        invariant
            n == s@.len(),
            i <= n,
            v@ =~= s@.take(i as int),
        decreases n - i,
    {
        v.push(s.get_char(i));
        i += 1;
    }
    proof {
        assert(s@.take(n as int) =~= s@);
    }
    v
}

} // verus!
