//! Characters, strings and decimal integer text: the helpers that the lexer,
//! the renderer and the error messages build on, with the specification of
//! integer parsing and printing and the proof that they are inverses.
use vstd::prelude::*;
use vstd::string::*;

verus! {

/// Whether `c` is an ASCII decimal digit.
pub open spec fn is_digit(c: char) -> bool {
    '0' <= c && c <= '9'
}

/// The numeric value of an ASCII decimal digit.
pub open spec fn digit_val(c: char) -> int {
    c as int - '0' as int
}

/// The ASCII decimal digit with value `d`.
pub open spec fn digit_char(d: int) -> char {
    if d == 0 {
        '0'
    } else if d == 1 {
        '1'
    } else if d == 2 {
        '2'
    } else if d == 3 {
        '3'
    } else if d == 4 {
        '4'
    } else if d == 5 {
        '5'
    } else if d == 6 {
        '6'
    } else if d == 7 {
        '7'
    } else if d == 8 {
        '8'
    } else {
        '9'
    }
}

/// Whether every character of `s` is an ASCII decimal digit.
pub open spec fn all_digits(s: Seq<char>) -> bool {
    forall|i: int| 0 <= i < s.len() ==> is_digit(#[trigger] s[i])
}

/// The number that the digit string `s` denotes, most significant digit first.
pub open spec fn digits_value(s: Seq<char>) -> int
    decreases s.len(),
{
    if s.len() == 0 {
        0
    } else {
        digits_value(s.drop_last()) * 10 + digit_val(s.last())
    }
}

/// Whether `s` is decimal integer text: an optional sign and then at least
/// one digit, digits only. This is the shape that `i64` parsing accepts.
pub open spec fn is_int_text(s: Seq<char>) -> bool {
    let d = if s.len() > 0 && (s[0] == '+' || s[0] == '-') {
        s.skip(1)
    } else {
        s
    };
    d.len() > 0 && all_digits(d)
}

/// The signed value that integer text `s` denotes.
pub open spec fn int_text_value(s: Seq<char>) -> int {
    if s.len() > 0 && s[0] == '-' {
        -digits_value(s.skip(1))
    } else if s.len() > 0 && s[0] == '+' {
        digits_value(s.skip(1))
    } else {
        digits_value(s)
    }
}

/// What parsing `s` as an `i64` yields: its value when `s` is integer text
/// whose value fits, and nothing otherwise.
pub open spec fn spec_parse_int(s: Seq<char>) -> Option<i64> {
    if is_int_text(s) && i64::MIN <= int_text_value(s) <= i64::MAX {
        Some(int_text_value(s) as i64)
    } else {
        None
    }
}

/// The decimal text of `n >= 0`, most significant digit first, no sign and no
/// leading zeros.
pub open spec fn nat_text(n: int) -> Seq<char>
    decreases n,
{
    if n < 10 {
        seq![digit_char(n)]
    } else {
        nat_text(n / 10).push(digit_char(n % 10))
    }
}

/// The decimal text of the integer `n`: a minus sign for negative values,
/// then the digits of its magnitude.
pub open spec fn int_text(n: int) -> Seq<char> {
    if n < 0 {
        seq!['-'] + nat_text(-n)
    } else {
        nat_text(n)
    }
}

/// The exact set of characters with the Unicode `White_Space` property.
pub open spec fn char_is_whitespace(c: char) -> bool {
    ||| c == ' '
    ||| c == '\u{9}'
    ||| c == '\u{A}'
    ||| c == '\u{B}'
    ||| c == '\u{C}'
    ||| c == '\u{D}'
    ||| c == '\u{85}'
    ||| c == '\u{A0}'
    ||| c == '\u{1680}'
    ||| ('\u{2000}' <= c && c <= '\u{200A}')
    ||| c == '\u{2028}'
    ||| c == '\u{2029}'
    ||| c == '\u{202F}'
    ||| c == '\u{205F}'
    ||| c == '\u{3000}'
}

/// Relies on `char::is_whitespace`, which returns whether the character has
/// the Unicode `White_Space` property; those are exactly the characters that
/// `char_is_whitespace` lists.
#[verifier::external_body]
pub(crate) fn is_whitespace(c: char) -> (r: bool)
    ensures
        r == char_is_whitespace(c),
{
    c.is_whitespace()
}

/// Relies on `String::push`, which appends the given character to the end of
/// the string.
#[verifier::external_body]
pub(crate) fn push_char(s: &mut String, c: char)
    ensures
        final(s)@ == old(s)@.push(c),
{
    s.push(c);
}

/// Builds the string whose characters are exactly `v`.
pub fn string_from_chars(v: &Vec<char>) -> (s: String)
    ensures
        s@ == v@,
{
    let mut s = String::new();
    let mut i: usize = 0;
    while i < v.len()
        invariant
            i <= v.len(),
            s@ =~= v@.take(i as int),
        decreases v.len() - i,
    {
        push_char(&mut s, v[i]);
        proof {
            assert(s@ =~= v@.take(i + 1 as int));
        }
        i += 1;
    }
    proof {
        assert(v@.take(v@.len() as int) =~= v@);
    }
    s
}

/// The characters of `s`, as a vector.
pub fn str_chars(s: &str) -> (v: Vec<char>)
    ensures
        v@ == s@,
{
    let n = s.unicode_len();
    let mut v: Vec<char> = Vec::new();
    let mut i: usize = 0;
    while i < n
        invariant
            i <= n,
            n == s@.len(),
            v@ =~= s@.take(i as int),
        decreases n - i,
    {
        v.push(s.get_char(i));
        proof {
            assert(v@ =~= s@.take(i + 1 as int));
        }
        i += 1;
    }
    proof {
        assert(s@.take(s@.len() as int) =~= s@);
    }
    v
}

/// Whether the two strings hold the same characters.
pub fn str_eq(a: &str, b: &str) -> (r: bool)
    ensures
        r == (a@ == b@),
{
    let na = a.unicode_len();
    let nb = b.unicode_len();
    if na != nb {
        return false;
    }
    let mut i: usize = 0;
    while i < na
        invariant
            i <= na,
            na == a@.len(),
            na == b@.len(),
            forall|j: int| 0 <= j < i ==> a@[j] == b@[j],
        decreases na - i,
    {
        if a.get_char(i) != b.get_char(i) {
            return false;
        }
        i += 1;
    }
    proof {
        assert(a@ =~= b@);
    }
    true
}

/// The concatenation of two string slices.
pub fn concat2(a: &str, b: &str) -> (r: String)
    ensures
        r@ == a@ + b@,
{
    let mut s = String::from_str(a);
    s.append(b);
    s
}

/// The concatenation of three string slices.
pub fn concat3(a: &str, b: &str, c: &str) -> (r: String)
    ensures
        r@ == a@ + b@ + c@,
{
    let mut s = String::from_str(a);
    s.append(b);
    s.append(c);
    s
}

/// A digit string denotes a nonnegative number.
pub proof fn lemma_digits_value_nonneg(s: Seq<char>)
    requires
        all_digits(s),
    ensures
        digits_value(s) >= 0,
    decreases s.len(),
{
    if s.len() > 0 {
        assert(all_digits(s.drop_last())) by {
            assert(forall|i: int|
                0 <= i < s.drop_last().len() ==> #[trigger] s.drop_last()[i] == s[i]);
        }
        lemma_digits_value_nonneg(s.drop_last());
    }
}

/// Dropping trailing digits can only shrink the denoted number.
pub proof fn lemma_digits_value_prefix_le(s: Seq<char>, k: int)
    requires
        all_digits(s),
        0 <= k <= s.len(),
    ensures
        digits_value(s.take(k)) <= digits_value(s),
    decreases s.len() - k,
{
    if k < s.len() {
        lemma_digits_value_prefix_le(s, k + 1);
        assert(s.take(k + 1).drop_last() =~= s.take(k));
        assert(all_digits(s.take(k))) by {
            assert(forall|i: int| 0 <= i < k ==> #[trigger] s.take(k)[i] == s[i]);
        }
        lemma_digits_value_nonneg(s.take(k));
        assert(digits_value(s.take(k + 1)) == digits_value(s.take(k)) * 10 + digit_val(s[k]));
    } else {
        assert(s.take(k) =~= s);
    }
}

/// Parses decimal integer text into an `i64`, exactly as `spec_parse_int`
/// describes: the value when the text is well-formed and fits, and nothing
/// otherwise.
pub fn parse_int(v: &Vec<char>) -> (r: Option<i64>)
    ensures
        r == spec_parse_int(v@),
{
    let n = v.len();
    if n == 0 {
        return None;
    }
    let c0 = v[0];
    let negative = c0 == '-';
    let start: usize = if c0 == '-' || c0 == '+' {
        1
    } else {
        0
    };
    let ghost d = v@.skip(start as int);
    if n == start {
        return None;
    }
    // Accumulate the magnitude as a nonpositive number, so that `i64::MIN`
    // is reachable without overflow.
    let mut acc: i64 = 0;
    let mut j: usize = start;
    while j < n
        invariant
            start <= j <= n,
            n == v@.len(),
            d == v@.skip(start as int),
            start == 0 || start == 1,
            start == 1 <==> (v@[0] == '+' || v@[0] == '-'),
            acc <= 0,
            forall|i: int| start <= i < j ==> is_digit(#[trigger] v@[i]),
            acc as int == -digits_value(v@.subrange(start as int, j as int)),
        decreases n - j,
    {
        let c = v[j];
        if c < '0' || c > '9' {
            proof {
                assert(d[j - start] == c);
                assert(!is_int_text(v@));
            }
            return None;
        }
        let dv: i64 = (c as u32 as i64) - ('0' as u32 as i64);
        proof {
            assert(v@.subrange(start as int, j + 1 as int).drop_last() =~= v@.subrange(
                start as int,
                j as int,
            ));
            assert(v@.subrange(start as int, j + 1 as int).last() == c);
            assert(digits_value(v@.subrange(start as int, j + 1 as int)) == digits_value(
                v@.subrange(start as int, j as int),
            ) * 10 + digit_val(c));
        }
        let next = match acc.checked_mul(10) {
            Some(m) => m.checked_sub(dv),
            None => None,
        };
        match next {
            Some(m) => {
                acc = m;
            },
            None => {
                proof {
                    // The magnitude of the prefix already exceeds the `i64`
                    // range, so the whole text is out of range too.
                    assert(digits_value(v@.subrange(start as int, j + 1 as int)) > i64::MAX + 1);
                    if is_int_text(v@) {
                        assert(all_digits(d)) by {
                            if start == 1 {
                                assert(v@.skip(1) =~= d);
                            } else {
                                assert(v@ =~= d);
                            }
                        }
                        lemma_digits_value_prefix_le(d, j + 1 - start);
                        assert(d.take(j + 1 - start) =~= v@.subrange(start as int, j + 1 as int));
                        assert(digits_value(d) > i64::MAX + 1);
                        if start == 1 {
                            assert(v@.skip(1) =~= d);
                        } else {
                            assert(v@ =~= d);
                        }
                        assert(int_text_value(v@) > i64::MAX || int_text_value(v@) < i64::MIN);
                    }
                }
                return None;
            },
        }
        j += 1;
    }
    proof {
        assert(v@.subrange(start as int, n as int) =~= d);
        assert(forall|i: int| 0 <= i < d.len() ==> #[trigger] d[i] == v@[start + i]);
        assert(all_digits(d));
        assert(is_int_text(v@)) by {
            if start == 1 {
                assert(v@.skip(1) =~= d);
            } else {
                assert(v@ =~= d);
            }
        }
        if start == 1 {
            assert(v@.skip(1) =~= d);
        } else {
            assert(v@ =~= d);
        }
        assert(acc as int == -digits_value(d));
    }
    if negative {
        proof {
            assert(int_text_value(v@) == acc as int);
        }
        Some(acc)
    } else {
        if acc == i64::MIN {
            proof {
                assert(int_text_value(v@) == -(acc as int));
                assert(int_text_value(v@) > i64::MAX);
            }
            return None;
        }
        proof {
            assert(int_text_value(v@) == -(acc as int));
        }
        Some(-acc)
    }
}

/// The decimal text of `n >= 0` holds only digits, and at least one.
pub proof fn lemma_nat_text_digits(n: int)
    requires
        n >= 0,
    ensures
        all_digits(nat_text(n)),
        nat_text(n).len() >= 1,
    decreases n,
{
    if n < 10 {
        assert(is_digit(digit_char(n)));
        assert(nat_text(n) =~= seq![digit_char(n)]);
    } else {
        lemma_nat_text_digits(n / 10);
        assert(is_digit(digit_char(n % 10)));
        assert(forall|i: int|
            0 <= i < nat_text(n).len() ==> is_digit(#[trigger] nat_text(n)[i])) by {
            assert(forall|i: int|
                0 <= i < nat_text(n / 10).len() ==> #[trigger] nat_text(n)[i] == nat_text(
                    n / 10,
                )[i]);
            assert(nat_text(n).last() == digit_char(n % 10));
        }
    }
}

/// Printing a nonnegative number and reading the digits back is the identity.
pub proof fn lemma_nat_text_value(n: int)
    requires
        n >= 0,
    ensures
        digits_value(nat_text(n)) == n,
    decreases n,
{
    if n < 10 {
        assert(nat_text(n) =~= seq![digit_char(n)]);
        assert(nat_text(n).drop_last() =~= Seq::<char>::empty());
        assert(digits_value(Seq::<char>::empty()) == 0);
        assert(digits_value(nat_text(n)) == digits_value(nat_text(n).drop_last()) * 10 + digit_val(
            nat_text(n).last(),
        ));
        assert(digit_val(digit_char(n)) == n);
    } else {
        lemma_nat_text_value(n / 10);
        assert(nat_text(n) == nat_text(n / 10).push(digit_char(n % 10)));
        assert(nat_text(n).drop_last() =~= nat_text(n / 10));
        assert(nat_text(n).last() == digit_char(n % 10));
        assert(digits_value(nat_text(n)) == digits_value(nat_text(n).drop_last()) * 10 + digit_val(
            nat_text(n).last(),
        ));
        assert(digit_val(digit_char(n % 10)) == n % 10);
    }
}

/// Printing an `i64` and parsing the text back is the identity.
pub proof fn lemma_parse_int_text(n: i64)
    ensures
        spec_parse_int(int_text(n as int)) == Some(n),
{
    if n < 0 {
        lemma_nat_text_digits(-(n as int));
        lemma_nat_text_value(-(n as int));
        let s = int_text(n as int);
        assert(s[0] == '-');
        assert(s.skip(1) =~= nat_text(-(n as int)));
        assert(int_text_value(s) == n as int);
        assert(is_int_text(s));
    } else {
        lemma_nat_text_digits(n as int);
        lemma_nat_text_value(n as int);
        let s = int_text(n as int);
        assert(is_digit(s[0]));
        assert(int_text_value(s) == n as int);
        assert(is_int_text(s));
    }
}

/// Prints an integer in decimal, exactly as `int_text` describes.
pub fn int_string(n: i64) -> (r: String)
    ensures
        r@ == int_text(n as int),
{
    let wide: i128 = n as i128;
    let mag: u64 = if wide < 0 {
        (-wide) as u64
    } else {
        wide as u64
    };
    let mut v: Vec<char> = Vec::new();
    let mut m: u64 = mag;
    while m >= 10
        invariant
            nat_text(mag as int) =~= nat_text(m as int) + v@,
        decreases m,
    {
        let d = m % 10;
        let c = digit_char_exec(d);
        let ghost old_v = v@;
        v.insert(0, c);
        proof {
            assert(v@ =~= seq![digit_char((m % 10) as int)] + old_v);
            assert(nat_text(m as int) == nat_text((m as int) / 10).push(
                digit_char((m as int) % 10),
            ));
            assert(nat_text((m as int) / 10).push(digit_char((m as int) % 10)) + old_v =~= nat_text(
                (m as int) / 10,
            ) + (seq![digit_char((m as int) % 10)] + old_v));
        }
        m = m / 10;
    }
    let c = digit_char_exec(m);
    let ghost old_v = v@;
    v.insert(0, c);
    proof {
        assert(nat_text(m as int) =~= seq![digit_char(m as int)]);
        assert(v@ =~= nat_text(m as int) + old_v);
    }
    if n < 0 {
        v.insert(0, '-');
        proof {
            assert(v@ =~= seq!['-'] + nat_text(mag as int));
        }
    }
    string_from_chars(&v)
}

/// The ASCII decimal digit with value `d`.
fn digit_char_exec(d: u64) -> (c: char)
    requires
        d < 10,
    ensures
        c == digit_char(d as int),
{
    if d == 0 {
        '0'
    } else if d == 1 {
        '1'
    } else if d == 2 {
        '2'
    } else if d == 3 {
        '3'
    } else if d == 4 {
        '4'
    } else if d == 5 {
        '5'
    } else if d == 6 {
        '6'
    } else if d == 7 {
        '7'
    } else if d == 8 {
        '8'
    } else {
        '9'
    }
}

} // verus!
