//! Decimal numbers, field splitting and number syntax on character sequences.
//!
//! These are the textual building blocks of the bucket storage records: the
//! decimal form of unsigned integers, the grammar that `str::parse` accepts for
//! unsigned integers and for floating-point numbers, and splitting on a
//! separator character.

use vstd::prelude::*;
use vstd::string::*;

verus! {

/// An ASCII decimal digit.
pub open spec fn is_digit(c: char) -> bool {
    '0' <= c && c <= '9'
}

/// The value of a decimal digit.
pub open spec fn digit_value(c: char) -> nat {
    (c as int - '0' as int) as nat
}

/// The decimal digit for a value below ten.
pub open spec fn digit_char(d: nat) -> char
    recommends
        d < 10,
{
    (d + '0' as int) as char
}

/// Every character is a decimal digit.
pub open spec fn all_digits(s: Seq<char>) -> bool {
    forall|i: int| 0 <= i < s.len() ==> is_digit(#[trigger] s[i])
}

/// The number that a string of decimal digits denotes (most significant first).
pub open spec fn decimal_value(s: Seq<char>) -> nat
    decreases s.len(),
{
    if s.len() == 0 {
        0
    } else {
        decimal_value(s.drop_last()) * 10 + digit_value(s.last())
    }
}

/// The shortest decimal form of a natural number, as `Display` writes it.
pub open spec fn decimal_text(n: nat) -> Seq<char>
    decreases n,
{
    if n < 10 {
        seq![digit_char(n)]
    } else {
        decimal_text(n / 10).push(digit_char(n % 10))
    }
}

/// The digits of an unsigned number: the text without one leading `+`.
pub open spec fn unsigned_digits(s: Seq<char>) -> Seq<char> {
    if s.len() > 0 && s[0] == '+' {
        s.drop_first()
    } else {
        s
    }
}

/// What parsing `s` as an unsigned integer no larger than `max` gives: an
/// optional `+`, then one or more decimal digits whose value fits.
pub open spec fn parse_unsigned(s: Seq<char>, max: nat) -> Option<nat> {
    let d = unsigned_digits(s);
    if d.len() > 0 && all_digits(d) && decimal_value(d) <= max {
        Some(decimal_value(d))
    } else {
        None
    }
}

/// A prefix of a digit string never denotes more than the whole string.
pub proof fn lemma_decimal_prefix_le(s: Seq<char>, k: int)
    requires
        all_digits(s),
        0 <= k <= s.len(),
    ensures
        decimal_value(s.take(k)) <= decimal_value(s),
    decreases s.len(),
{
    if k < s.len() {
        assert(s.drop_last().take(k) =~= s.take(k));
        lemma_decimal_prefix_le(s.drop_last(), k);
    } else {
        assert(s.take(k) =~= s);
    }
}

/// The decimal text of a number consists of digits and reads back as the number.
pub proof fn lemma_decimal_text(n: nat)
    ensures
        decimal_text(n).len() > 0,
        all_digits(decimal_text(n)),
        decimal_value(decimal_text(n)) == n,
    decreases n,
{
    if n < 10 {
        assert(decimal_text(n).drop_last() =~= Seq::<char>::empty());
        assert(digit_value(digit_char(n)) == n);
        assert(decimal_value(decimal_text(n)) == decimal_value(Seq::<char>::empty()) * 10 + n);
    } else {
        lemma_decimal_text(n / 10);
        let t = decimal_text(n);
        assert(t.drop_last() =~= decimal_text(n / 10));
        assert(n == (n / 10) * 10 + n % 10) by (nonlinear_arith);
        assert(digit_value(digit_char(n % 10)) == n % 10);
        assert(t.last() == digit_char(n % 10));
    }
}

/// The one-character text of a decimal digit.
fn digit_str(d: u64) -> (s: &'static str)
    requires
        d < 10,
    ensures
        s@ == seq![digit_char(d as nat)],
{
    proof {
        reveal_strlit("0");
        reveal_strlit("1");
        reveal_strlit("2");
        reveal_strlit("3");
        reveal_strlit("4");
        reveal_strlit("5");
        reveal_strlit("6");
        reveal_strlit("7");
        reveal_strlit("8");
        reveal_strlit("9");
    }
    if d == 0 {
        "0"
    } else if d == 1 {
        "1"
    } else if d == 2 {
        "2"
    } else if d == 3 {
        "3"
    } else if d == 4 {
        "4"
    } else if d == 5 {
        "5"
    } else if d == 6 {
        "6"
    } else if d == 7 {
        "7"
    } else if d == 8 {
        "8"
    } else {
        "9"
    }
}

/// Writes `n` in decimal, without leading zeros.
pub fn decimal_string(n: u64) -> (s: String)
    ensures
        s@ == decimal_text(n as nat),
    decreases n,
{
    if n < 10 {
        String::from_str(digit_str(n))
    } else {
        let mut s = decimal_string(n / 10);
        s.append(digit_str(n % 10));
        s
    }
}

/// Parses an unsigned decimal integer no larger than `u64::MAX`, as
/// `str::parse::<u64>` does.
pub fn parse_u64(s: &str) -> (r: Option<u64>)
    ensures
        match r {
            Some(v) => parse_unsigned(s@, u64::MAX as nat) == Some(v as nat),
            None => parse_unsigned(s@, u64::MAX as nat) is None,
        },
{
    let n = s.unicode_len();
    let mut i: usize = 0;
    if n > 0 && s.get_char(0) == '+' {
        i = 1;
    }
    let start = i;
    proof {
        assert(unsigned_digits(s@) =~= s@.subrange(start as int, n as int));
    }
    if start == n {
        return None;
    }
    let mut value: u64 = 0;
    while i < n
        invariant
            start <= i <= n,
            n == s@.len(),
            unsigned_digits(s@) =~= s@.subrange(start as int, n as int),
            all_digits(s@.subrange(start as int, i as int)),
            value as nat == decimal_value(s@.subrange(start as int, i as int)),
        decreases n - i,
    {
        let c = s.get_char(i);
        let ghost d = s@.subrange(start as int, n as int);
        if !('0' <= c && c <= '9') {
            proof {
                assert(d[i - start] == c);
            }
            return None;
        }
        let dv = (c as u32 - '0' as u32) as u64;
        let ghost prefix = s@.subrange(start as int, i as int + 1);
        proof {
            assert(prefix.drop_last() =~= s@.subrange(start as int, i as int));
            assert(prefix.last() == c);
        }
        match value.checked_mul(10) {
            Some(m) => match m.checked_add(dv) {
                Some(v) => {
                    value = v;
                },
                None => {
                    proof {
                        if all_digits(d) {
                            assert(d.take(i - start + 1) =~= prefix);
                            lemma_decimal_prefix_le(d, i - start + 1);
                        }
                    }
                    return None;
                },
            },
            None => {
                proof {
                    if all_digits(d) {
                        assert(d.take(i - start + 1) =~= prefix);
                        lemma_decimal_prefix_le(d, i - start + 1);
                    }
                }
                return None;
            },
        }
        i = i + 1;
    }
    Some(value)
}

/// Parses an unsigned decimal integer no larger than `u32::MAX`, as
/// `str::parse::<u32>` does.
pub fn parse_u32(s: &str) -> (r: Option<u32>)
    ensures
        match r {
            Some(v) => parse_unsigned(s@, u32::MAX as nat) == Some(v as nat),
            None => parse_unsigned(s@, u32::MAX as nat) is None,
        },
{
    match parse_u64(s) {
        Some(v) => {
            if v <= u32::MAX as u64 {
                Some(v as u32)
            } else {
                None
            }
        },
        None => None,
    }
}

/// The fields of `s` between occurrences of `sep`, as `str::split` yields them:
/// one more field than there are separators, empty fields included.
pub open spec fn split_on(s: Seq<char>, sep: char) -> Seq<Seq<char>>
    decreases s.len(),
{
    if s.len() == 0 {
        seq![Seq::<char>::empty()]
    } else {
        let prev = split_on(s.drop_last(), sep);
        if s.last() == sep {
            prev.push(Seq::<char>::empty())
        } else {
            prev.update(prev.len() - 1, prev.last().push(s.last()))
        }
    }
}

/// Splitting always yields at least one field.
pub proof fn lemma_split_nonempty(s: Seq<char>, sep: char)
    ensures
        split_on(s, sep).len() >= 1,
    decreases s.len(),
{
    if s.len() > 0 {
        lemma_split_nonempty(s.drop_last(), sep);
    }
}

/// Text without the separator extends the last field.
pub proof fn lemma_split_extend(x: Seq<char>, y: Seq<char>, sep: char)
    requires
        !y.contains(sep),
    ensures
        split_on(x + y, sep) == split_on(x, sep).update(
            split_on(x, sep).len() - 1,
            split_on(x, sep).last() + y,
        ),
    decreases y.len(),
{
    lemma_split_nonempty(x, sep);
    if y.len() == 0 {
        assert(x + y =~= x);
        assert(split_on(x, sep).last() + y =~= split_on(x, sep).last());
        assert(split_on(x, sep).update(split_on(x, sep).len() - 1, split_on(x, sep).last())
            =~= split_on(x, sep));
    } else {
        let y0 = y.drop_last();
        assert(!y0.contains(sep)) by {
            if y0.contains(sep) {
                let k = choose|k: int| 0 <= k < y0.len() && y0[k] == sep;
                assert(y[k] == sep);
            }
        }
        lemma_split_extend(x, y0, sep);
        assert((x + y).drop_last() =~= x + y0);
        assert((x + y).last() == y.last());
        assert(y.last() != sep) by {
            assert(y[y.len() - 1] == y.last());
        }
        assert(split_on(x, sep).last() + y =~= (split_on(x, sep).last() + y0).push(y.last()));
        assert(split_on(x + y, sep) =~= split_on(x, sep).update(
            split_on(x, sep).len() - 1,
            split_on(x, sep).last() + y,
        ));
    }
}

/// A separator starts a new, empty field.
pub proof fn lemma_split_sep(x: Seq<char>, sep: char)
    ensures
        split_on(x.push(sep), sep) == split_on(x, sep).push(Seq::<char>::empty()),
{
    assert(x.push(sep).drop_last() =~= x);
}

/// Three separator-free fields joined by the separator split back into themselves.
pub proof fn lemma_split_three(a: Seq<char>, b: Seq<char>, c: Seq<char>, sep: char)
    requires
        !a.contains(sep),
        !b.contains(sep),
        !c.contains(sep),
    ensures
        split_on(a + seq![sep] + b + seq![sep] + c, sep) == seq![a, b, c],
{
    let e = Seq::<char>::empty();
    lemma_split_extend(e, a, sep);
    assert(e + a =~= a);
    assert(split_on(e, sep) =~= seq![e]);
    assert(split_on(a, sep) =~= seq![a]);
    lemma_split_sep(a, sep);
    assert(a + seq![sep] =~= a.push(sep));
    lemma_split_extend(a + seq![sep], b, sep);
    assert(split_on(a + seq![sep] + b, sep) =~= seq![a, b]);
    lemma_split_sep(a + seq![sep] + b, sep);
    assert(a + seq![sep] + b + seq![sep] =~= (a + seq![sep] + b).push(sep));
    lemma_split_extend(a + seq![sep] + b + seq![sep], c, sep);
    assert(split_on(a + seq![sep] + b + seq![sep] + c, sep) =~= seq![a, b, c]);
}

/// A separator followed by separator-free text adds that text as a new last field.
pub proof fn lemma_split_append_field(x: Seq<char>, c: Seq<char>, sep: char)
    requires
        !c.contains(sep),
    ensures
        split_on(x + seq![sep] + c, sep) == split_on(x, sep).push(c),
{
    lemma_split_sep(x, sep);
    assert(x + seq![sep] =~= x.push(sep));
    lemma_split_extend(x + seq![sep], c, sep);
    assert(Seq::<char>::empty() + c =~= c);
    assert(split_on(x + seq![sep] + c, sep) =~= split_on(x, sep).push(c));
}

/// The texts of a list of strings.
pub open spec fn texts(v: Seq<String>) -> Seq<Seq<char>> {
    v.map_values(|p: String| p@)
}

/// Splits `s` at every occurrence of `sep`, as `str::split` does.
pub fn split_fields(s: &str, sep: char) -> (parts: Vec<String>)
    ensures
        texts(parts@) == split_on(s@, sep),
{
    let n = s.unicode_len();
    let mut parts: Vec<String> = Vec::new();
    let mut start: usize = 0;
    let mut i: usize = 0;
    proof {
        assert(s@.take(0) =~= Seq::<char>::empty());
        assert(texts(parts@).push(s@.subrange(0, 0)) =~= split_on(s@.take(0), sep));
    }
    while i < n
        invariant
            n == s@.len(),
            start <= i <= n,
            texts(parts@).push(s@.subrange(start as int, i as int)) == split_on(s@.take(i as int), sep),
        decreases n - i,
    {
        let c = s.get_char(i);
        proof {
            assert(s@.take(i + 1).drop_last() =~= s@.take(i as int));
            assert(s@.take(i + 1).last() == c);
        }
        if c == sep {
            let field = String::from_str(s.substring_char(start, i));
            let ghost before = parts@;
            let ghost text = field@;
            parts.push(field);
            start = i + 1;
            proof {
                assert(texts(parts@) =~= texts(before).push(text));
                assert(s@.subrange(start as int, i + 1) =~= Seq::<char>::empty());
            }
        }
        i = i + 1;
        proof {
            if c != sep {
                assert(s@.subrange(start as int, i as int) =~= s@.subrange(start as int, i - 1).push(c));
            }
        }
    }
    let last = String::from_str(s.substring_char(start, n));
    let ghost before = parts@;
    let ghost text = last@;
    parts.push(last);
    proof {
        assert(texts(parts@) =~= texts(before).push(text));
        assert(s@.take(n as int) =~= s@);
    }
    parts
}

/// A sign character.
pub open spec fn is_sign(c: char) -> bool {
    c == '+' || c == '-'
}

/// The text without one leading sign.
pub open spec fn strip_sign(s: Seq<char>) -> Seq<char> {
    if s.len() > 0 && is_sign(s[0]) {
        s.drop_first()
    } else {
        s
    }
}

/// The ASCII lower-case form of a character; other characters are kept.
pub open spec fn ascii_lower(c: char) -> char {
    if 'A' <= c && c <= 'Z' {
        ((c as int) + 32) as char
    } else {
        c
    }
}

/// `s` equals the lower-case `word` once its ASCII letters are lowered.
pub open spec fn lower_equals(s: Seq<char>, word: Seq<char>) -> bool {
    s.len() == word.len() && forall|i: int| 0 <= i < s.len() ==> ascii_lower(#[trigger] s[i]) == word[i]
}

/// The exponent marker of a floating-point number.
pub open spec fn is_exp_marker(c: char) -> bool {
    c == 'e' || c == 'E'
}

/// Digits with at most one decimal point, and at least one digit.
pub open spec fn is_mantissa(m: Seq<char>) -> bool {
    &&& forall|i: int| 0 <= i < m.len() ==> is_digit(#[trigger] m[i]) || m[i] == '.'
    &&& forall|i: int, j: int| 0 <= i < j < m.len() ==> !(#[trigger] m[i] == '.' && #[trigger] m[j] == '.')
    &&& exists|i: int| 0 <= i < m.len() && is_digit(#[trigger] m[i])
}

/// An optional sign, then one or more digits.
pub open spec fn is_exponent(x: Seq<char>) -> bool {
    strip_sign(x).len() > 0 && all_digits(strip_sign(x))
}

/// A mantissa, optionally followed by an exponent marker and an exponent.
pub open spec fn is_number(b: Seq<char>) -> bool {
    exists|i: int|
        0 <= i <= b.len() && is_mantissa(#[trigger] b.take(i)) && (i == b.len() || (is_exp_marker(b[i])
            && is_exponent(b.skip(i + 1))))
}

/// The texts that `str::parse::<f64>` accepts: an optional sign, then `inf`,
/// `infinity`, `nan` (in any ASCII case) or a decimal number with an optional
/// exponent. No other character, and no surrounding space, is allowed.
pub open spec fn is_float_literal(s: Seq<char>) -> bool {
    let b = strip_sign(s);
    lower_equals(b, "inf"@) || lower_equals(b, "infinity"@) || lower_equals(b, "nan"@) || is_number(b)
}

fn lower_char(c: char) -> (r: char)
    ensures
        r == ascii_lower(c),
{
    if 'A' <= c && c <= 'Z' {
        ((c as u8) + 32) as char
    } else {
        c
    }
}

/// Whether `s`, with its ASCII letters lowered, equals the lower-case `word`.
fn matches_word(s: &str, word: &str) -> (r: bool)
    ensures
        r == lower_equals(s@, word@),
{
    let n = s.unicode_len();
    if n != word.unicode_len() {
        return false;
    }
    let mut i: usize = 0;
    while i < n
        invariant
            n == s@.len() == word@.len(),
            i <= n,
            forall|k: int| 0 <= k < i ==> ascii_lower(#[trigger] s@[k]) == word@[k],
        decreases n - i,
    {
        if lower_char(s.get_char(i)) != word.get_char(i) {
            return false;
        }
        i = i + 1;
    }
    true
}

/// Whether the characters of `s` in `[from, to)` form a mantissa.
fn check_mantissa(s: &str, from: usize, to: usize) -> (r: bool)
    requires
        from <= to <= s@.len(),
    ensures
        r == is_mantissa(s@.subrange(from as int, to as int)),
{
    let ghost m = s@.subrange(from as int, to as int);
    let mut i = from;
    let mut dot_at: Option<usize> = None;
    let mut digit_seen = false;
    while i < to
        invariant
            from <= i <= to <= s@.len(),
            m == s@.subrange(from as int, to as int),
            forall|k: int| 0 <= k < i - from ==> is_digit(#[trigger] m[k]) || m[k] == '.',
            match dot_at {
                Some(d) => from <= d < i && m[d - from] == '.' && forall|k: int|
                    0 <= k < i - from && k != d - from ==> #[trigger] m[k] != '.',
                None => forall|k: int| 0 <= k < i - from ==> #[trigger] m[k] != '.',
            },
            digit_seen == exists|k: int| 0 <= k < i - from && is_digit(#[trigger] m[k]),
        decreases to - i,
    {
        let c = s.get_char(i);
        assert(m[i - from] == c);
        if c == '.' {
            if let Some(d) = dot_at {
                assert(!(m[d - from] == '.' && m[i - from] == '.') == false);
                return false;
            }
            dot_at = Some(i);
        } else if '0' <= c && c <= '9' {
            digit_seen = true;
        } else {
            return false;
        }
        i = i + 1;
    }
    proof {
        assert forall|a: int, b: int| 0 <= a < b < m.len() implies !(#[trigger] m[a] == '.' && #[trigger] m[b] == '.') by {
            match dot_at {
                Some(d) => {},
                None => {},
            }
        }
    }
    digit_seen
}

/// Whether the characters of `s` in `[from, s.len())` form an exponent.
fn check_exponent(s: &str, from: usize) -> (r: bool)
    requires
        from <= s@.len(),
    ensures
        r == is_exponent(s@.subrange(from as int, s@.len() as int)),
{
    let n = s.unicode_len();
    let ghost x = s@.subrange(from as int, n as int);
    let mut i = from;
    if i < n && (s.get_char(i) == '+' || s.get_char(i) == '-') {
        i = i + 1;
    }
    let start = i;
    proof {
        assert(strip_sign(x) =~= s@.subrange(start as int, n as int));
    }
    if start == n {
        return false;
    }
    while i < n
        invariant
            start <= i <= n == s@.len(),
            x == s@.subrange(from as int, n as int),
            strip_sign(x) == s@.subrange(start as int, n as int),
            forall|k: int| start <= k < i ==> is_digit(#[trigger] s@[k]),
        decreases n - i,
    {
        let c = s.get_char(i);
        if !('0' <= c && c <= '9') {
            assert(strip_sign(x)[i - start] == c);
            return false;
        }
        i = i + 1;
    }
    proof {
        assert forall|k: int| 0 <= k < strip_sign(x).len() implies is_digit(#[trigger] strip_sign(x)[k]) by {
            assert(strip_sign(x)[k] == s@[start + k]);
        }
    }
    true
}

/// Whether `b` is a decimal number with an optional exponent.
fn check_number(b: &str) -> (r: bool)
    ensures
        r == is_number(b@),
{
    let n = b.unicode_len();
    let mut i: usize = 0;
    let mut found = false;
    while i < n && !found
        invariant
            i <= n == b@.len(),
            forall|k: int| 0 <= k < i ==> !is_exp_marker(#[trigger] b@[k]),
            found ==> i < n && is_exp_marker(b@[i as int]),
        decreases n - i + (if found { 0int } else { 1int }),
    {
        let c = b.get_char(i);
        if c == 'e' || c == 'E' {
            found = true;
        } else {
            i = i + 1;
        }
    }
    let ghost s = b@;
    let mantissa_ok = check_mantissa(b, 0, i);
    proof {
        assert(s.subrange(0, i as int) =~= s.take(i as int));
    }
    let r = if i == n {
        mantissa_ok
    } else {
        mantissa_ok && check_exponent(b, i + 1)
    };
    proof {
        if i < n {
            assert(s.subrange(i + 1, n as int) =~= s.skip(i + 1));
        }
        if r {
            assert(is_mantissa(s.take(i as int)));
        } else {
            assert forall|j: int| 0 <= j <= s.len() && is_mantissa(#[trigger] s.take(j)) implies !(j == s.len()
                || (is_exp_marker(s[j]) && is_exponent(s.skip(j + 1)))) by {
                if j < i {
                    assert(!is_exp_marker(s[j]));
                } else if j > i {
                    assert(s.take(j)[i as int] == s[i as int]);
                    assert(is_digit(s.take(j)[i as int]) || s.take(j)[i as int] == '.');
                }
            }
        }
    }
    r
}

/// Whether `s` is text that `str::parse::<f64>` accepts.
pub fn is_float_text(s: &str) -> (r: bool)
    ensures
        r == is_float_literal(s@),
{
    let n = s.unicode_len();
    let from: usize = if n > 0 && (s.get_char(0) == '+' || s.get_char(0) == '-') {
        1
    } else {
        0
    };
    let b = s.substring_char(from, n);
    proof {
        assert(b@ =~= strip_sign(s@));
    }
    matches_word(b, "inf") || matches_word(b, "infinity") || matches_word(b, "nan") || check_number(b)
}

/// Text that `str::parse::<f64>` accepts holds no `:`.
pub proof fn lemma_float_literal_no_colon(t: Seq<char>)
    requires
        is_float_literal(t),
    ensures
        !t.contains(':'),
{
    reveal_strlit("inf");
    reveal_strlit("infinity");
    reveal_strlit("nan");
    if t.contains(':') {
        let k = choose|k: int| 0 <= k < t.len() && t[k] == ':';
        let b = strip_sign(t);
        let j: int = if t.len() > 0 && is_sign(t[0]) { k - 1 } else { k };
        assert(0 <= j < b.len() && b[j] == ':');
        assert(ascii_lower(b[j]) == ':');
        assert(!lower_equals(b, "inf"@));
        assert(!lower_equals(b, "infinity"@));
        assert(!lower_equals(b, "nan"@));
        assert forall|i: int| 0 <= i <= b.len() && is_mantissa(#[trigger] b.take(i)) implies !(i == b.len() || (
        is_exp_marker(b[i]) && is_exponent(b.skip(i + 1)))) by {
            if j < i {
                assert(b.take(i)[j] == ':');
            } else if j > i {
                let x = b.skip(i + 1);
                assert(x[j - i - 1] == ':');
                if j - i - 1 == 0 {
                    assert(strip_sign(x)[0] == ':');
                } else if x.len() > 0 && is_sign(x[0]) {
                    assert(strip_sign(x)[j - i - 2] == ':');
                } else {
                    assert(strip_sign(x)[j - i - 1] == ':');
                }
            }
        }
    }
}

/// Decimal text holds no `:`.
pub proof fn lemma_decimal_text_no_colon(n: nat)
    ensures
        !decimal_text(n).contains(':'),
{
    lemma_decimal_text(n);
    if decimal_text(n).contains(':') {
        let k = choose|k: int| 0 <= k < decimal_text(n).len() && decimal_text(n)[k] == ':';
        assert(is_digit(decimal_text(n)[k]));
    }
}

/// Parsing the decimal text of a number that fits gives the number back.
pub proof fn lemma_parse_decimal_text(n: nat, max: nat)
    requires
        n <= max,
    ensures
        parse_unsigned(decimal_text(n), max) == Some(n),
{
    lemma_decimal_text(n);
    assert(is_digit(decimal_text(n)[0]));
    assert(unsigned_digits(decimal_text(n)) == decimal_text(n));
}

} // verus!
