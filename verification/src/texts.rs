//! What holds of numbers written as text, of texts that are cut, trimmed, compared and parsed,
//! and of keys in their canonical form.
use crate::key::{canonical, key_fault, KeyError, KeyView};
use crate::text;
use crate::text::{
    all_digits, byte_len, comes_before, decimal, digit, digits_value, fields, hex, hex_digits,
    is_blank, is_digit, is_first_index, is_white_space, padded_decimal, parse_unsigned,
    signed_decimal, trimmed, without_leading_space, without_trailing_space,
};
use vstd::arithmetic::power::{lemma_pow0, pow};
use vstd::prelude::*;

verus! {

/// The number that a digit stands for: `0` to `9`, then `a` to `f`.
pub open spec fn digit_value(c: char) -> nat {
    if '0' <= c <= '9' {
        (c as nat - '0' as nat) as nat
    } else {
        (c as nat - 'a' as nat + 10) as nat
    }
}

/// The number that hexadecimal digits stand for.
pub open spec fn hex_value(s: Seq<char>) -> nat
    decreases s.len(),
{
    if s.len() == 0 {
        0
    } else {
        16 * hex_value(s.drop_last()) + digit_value(s.last())
    }
}

/// A digit stands for its number, and is `0` to `9` or `a` to `f`.
pub proof fn digit_stands_for_its_number(d: nat)
    requires
        d < 16,
    ensures
        digit_value(digit(d)) == d,
        d < 10 ==> '0' <= digit(d) <= '9',
        d >= 10 ==> 'a' <= digit(d) <= 'f',
{
}

/// A number in decimal reads back and begins with no zero, but for zero itself.
pub proof fn decimal_begins_with_no_zero(n: nat)
    ensures
        digits_value(decimal(n)) == n,
        all_digits(decimal(n)),
        n > 0 ==> decimal(n)[0] != '0',
        n == 0 ==> decimal(n).len() == 1,
    decreases n,
{
    text::lemma_decimal_value(n);
    if n >= 10 {
        decimal_begins_with_no_zero(n / 10);
        text::lemma_decimal_value(n / 10);
    }
}

/// A negative number has a sign before its digits, another has none.
pub proof fn sign_comes_first(n: int)
    ensures
        n < 0 ==> signed_decimal(n)[0] == '-' && digits_value(signed_decimal(n).skip(1)) == -n
            && all_digits(signed_decimal(n).skip(1)),
        n >= 0 ==> digits_value(signed_decimal(n)) == n && all_digits(signed_decimal(n)),
{
    if n < 0 {
        text::lemma_decimal_value((-n) as nat);
        assert(signed_decimal(n).skip(1) =~= decimal((-n) as nat));
    } else {
        text::lemma_decimal_value(n as nat);
    }
}

/// A number in hexadecimal has as many digits as asked for, and reads back where it fits.
pub proof fn hex_reads_back(n: nat, width: nat)
    requires
        n < pow(16, width),
    ensures
        hex(n, width).len() == width,
        hex_value(hex(n, width)) == n,
    decreases width,
{
    lemma_pow0(16);
    if width > 0 {
        let w = (width - 1) as nat;
        reveal(pow);
        assert(n / 16 < pow(16, w)) by (nonlinear_arith)
            requires
                n < 16 * pow(16, w),
        ;
        hex_reads_back(n / 16, w);
        assert(hex(n, width).drop_last() =~= hex(n / 16, w));
        digit_stands_for_its_number(n % 16);
    }
}

/// A number in hexadecimal without leading zeros reads back.
pub proof fn hex_digits_read_back(n: nat)
    ensures
        hex_value(hex_digits(n)) == n,
        n > 0 ==> hex_digits(n)[0] != '0',
        n == 0 ==> hex_digits(n).len() == 1,
    decreases n,
{
    digit_stands_for_its_number(n % 16);
    if n >= 16 {
        hex_digits_read_back(n / 16);
        assert(hex_digits(n).drop_last() =~= hex_digits(n / 16));
        lemma_hex_digits_len(n / 16);
        assert(hex_digits(n)[0] == hex_digits(n / 16)[0]);
    } else {
        assert(hex_digits(n).drop_last() =~= Seq::<char>::empty());
        assert(hex_value(hex_digits(n).drop_last()) == 0);
    }
}

proof fn lemma_hex_digits_len(n: nat)
    ensures
        hex_digits(n).len() >= 1,
{
    if n >= 16 {
        assert(hex_digits(n).len() == hex_digits(n / 16).len() + 1);
    }
}

proof fn lemma_zeros_in_front(z: nat, d: Seq<char>)
    ensures
        digits_value(Seq::new(z, |i: int| '0') + d) == digits_value(d),
    decreases d.len(), z,
{
    let zeros = Seq::new(z, |i: int| '0');
    let s = zeros + d;
    if d.len() > 0 {
        lemma_zeros_in_front(z, d.drop_last());
        assert(s.drop_last() =~= zeros + d.drop_last());
        assert(s.last() == d.last());
    } else if z > 0 {
        let y = (z - 1) as nat;
        lemma_zeros_in_front(y, d);
        assert(s.drop_last() =~= Seq::new(y, |i: int| '0') + d);
        assert(s.last() == '0');
    } else {
        assert(s =~= d);
    }
}

/// Padding makes a number as wide as asked for and changes neither its value nor a wider one.
pub proof fn padding_keeps_the_number(n: nat, width: nat)
    ensures
        padded_decimal(n, width).len() >= width,
        padded_decimal(n, width).len() == width || padded_decimal(n, width) == decimal(n),
        all_digits(padded_decimal(n, width)),
        digits_value(padded_decimal(n, width)) == n,
{
    text::lemma_decimal_value(n);
    let d = decimal(n);
    if d.len() < width {
        lemma_zeros_in_front((width - d.len()) as nat, d);
    }
}

proof fn lemma_leading(s: Seq<char>) -> (n: nat)
    ensures
        n <= s.len(),
        is_blank(s.take(n as int)),
        without_leading_space(s) == s.skip(n as int),
        n < s.len() ==> !is_white_space(s[n as int]),
    decreases s.len(),
{
    if s.len() > 0 && is_white_space(s[0]) {
        let m = lemma_leading(s.skip(1));
        assert(s.skip(1).skip(m as int) =~= s.skip(m as int + 1));
        assert forall|i: int| 0 <= i < m + 1 implies is_white_space(#[trigger] s.take(m as int + 1)[i]) by {
            if i > 0 {
                assert(s.skip(1).take(m as int)[i - 1] == s[i]);
            }
        }
        m + 1
    } else {
        assert(s.skip(0) =~= s);
        0
    }
}

proof fn lemma_trailing(s: Seq<char>) -> (n: nat)
    ensures
        n <= s.len(),
        is_blank(s.skip(n as int)),
        without_trailing_space(s) == s.take(n as int),
        n > 0 ==> !is_white_space(s[n - 1]),
    decreases s.len(),
{
    if s.len() > 0 && is_white_space(s.last()) {
        let m = lemma_trailing(s.drop_last());
        assert(s.drop_last().take(m as int) =~= s.take(m as int));
        assert forall|i: int| 0 <= i < s.len() - m implies is_white_space(
            #[trigger] s.skip(m as int)[i],
        ) by {
            if i < s.len() - m - 1 {
                assert(s.drop_last().skip(m as int)[i] == s[m + i]);
            }
        }
        m
    } else {
        assert(s.take(s.len() as int) =~= s);
        s.len()
    }
}

/// Trimming takes off white space at both ends, all of it and nothing else: `a` is where the
/// trimmed text begins and `b` where it ends.
pub proof fn trimming_takes_off_only_space(s: Seq<char>) -> (r: (nat, nat))
    ensures
        ({
            let (a, b) = r;
            &&& a <= b <= s.len()
            &&& trimmed(s) == s.subrange(a as int, b as int)
            &&& is_blank(s.take(a as int))
            &&& is_blank(s.skip(b as int))
            &&& a < b ==> !is_white_space(s[a as int]) && !is_white_space(s[b - 1])
        }),
        is_blank(s) ==> trimmed(s).len() == 0,
        s.len() > 0 && !is_white_space(s[0]) && !is_white_space(s.last()) ==> trimmed(s) == s,
{
    let a = lemma_leading(s);
    let t = s.skip(a as int);
    let n = lemma_trailing(t);
    let b = a + n;
    assert(t.take(n as int) =~= s.subrange(a as int, b as int));
    assert forall|i: int| 0 <= i < s.len() - b implies is_white_space(
        #[trigger] s.skip(b as int)[i],
    ) by {
        assert(t.skip(n as int)[i] == s[b + i]);
    }
    if n > 0 {
        assert(t[0] == s[a as int]);
        assert(t[n - 1] == s[b - 1]);
    }
    if is_blank(s) {
        if a < s.len() {
            assert(is_white_space(s[a as int]));
        }
    }
    if s.len() > 0 && !is_white_space(s[0]) && !is_white_space(s.last()) {
        if a > 0 {
            assert(is_white_space(s.take(a as int)[0]));
        }
        assert(a == 0);
        if b < s.len() {
            assert(is_white_space(s.skip(b as int)[s.len() - b - 1]));
        }
        assert(s.subrange(0, s.len() as int) =~= s);
    }
    (a, b)
}

/// A number is parsed where it is written in digits, with or without a plus sign, and does not
/// exceed the limit; what else stands there is no number.
pub proof fn numbers_are_parsed(s: Seq<char>, n: nat, max: nat)
    ensures
        parse_unsigned(decimal(n), max) == if n <= max {
            Some(n)
        } else {
            None
        },
        s.len() > 0 && all_digits(s) ==> parse_unsigned(s, max) == parse_unsigned(seq!['+'] + s, max),
        s.len() > 0 && all_digits(s) && digits_value(s) <= max ==> parse_unsigned(s, max) == Some(
            digits_value(s),
        ),
        parse_unsigned(s, max) matches Some(v) ==> v <= max && s.len() > 0,
        s.len() > 0 && !is_digit(s[0]) && s[0] != '+' ==> parse_unsigned(s, max) is None,
        s.len() > 0 && !is_digit(s.last()) ==> parse_unsigned(s, max) is None,
        forall|i: int|
            0 < i < s.len() && !is_digit(#[trigger] s[i]) ==> parse_unsigned(s, max) is None,
{
    text::lemma_decimal_value(n);
    assert(is_digit(decimal(n)[0]));
    if s.len() > 0 && all_digits(s) {
        assert((seq!['+'] + s).skip(1) =~= s);
        assert(is_digit(s[0]));
    }
    assert forall|i: int| 0 < i < s.len() && !is_digit(#[trigger] s[i]) implies parse_unsigned(
        s,
        max,
    ) is None by {
        assert(s.skip(1)[i - 1] == s[i]);
    }
    if s.len() > 1 && !is_digit(s.last()) {
        assert(!is_digit(s[s.len() - 1]));
    }
}

/// Texts are ordered by their first difference, and a text comes before those that go on after
/// it.
pub proof fn texts_are_ordered_by_their_first_difference(
    common: Seq<char>,
    a: Seq<char>,
    b: Seq<char>,
    x: char,
    y: char,
)
    ensures
        comes_before(common + seq![x] + a, common + seq![y] + b) == (x < y || x == y
            && comes_before(a, b)),
        comes_before(common, common + seq![x] + a),
        !comes_before(common + seq![x] + a, common),
    decreases common.len(),
{
    let p = common + seq![x] + a;
    let q = common + seq![y] + b;
    if common.len() == 0 {
        assert(p.skip(1) =~= a);
        assert(q.skip(1) =~= b);
    } else {
        let c = common.skip(1);
        texts_are_ordered_by_their_first_difference(c, a, b, x, y);
        assert(p.skip(1) =~= c + seq![x] + a);
        assert(q.skip(1) =~= c + seq![y] + b);
    }
}

/// A text without a separator is one field, and a separator parts the fields before it from those
/// after it.
pub proof fn separators_part_the_fields(a: Seq<char>, b: Seq<char>, c: char)
    ensures
        fields(a + seq![c] + b, c) == fields(a, c) + fields(b, c),
        !a.contains(c) ==> fields(a, c) == seq![a],
        fields(a, c).len() >= 1,
    decreases b.len(), a.len(),
{
    lemma_fields(a, c);
    lemma_fields(b, c);
    let s = a + seq![c] + b;
    if b.len() == 0 {
        assert(s.drop_last() =~= a);
        assert(b =~= Seq::empty());
        assert(fields(s, c) =~= fields(a, c) + fields(b, c));
    } else {
        let d = b.drop_last();
        separators_part_the_fields(a, d, c);
        lemma_fields(d, c);
        assert(s.drop_last() =~= a + seq![c] + d);
        assert(s.last() == b.last());
        let f = fields(a, c) + fields(d, c);
        assert(f.last() == fields(d, c).last());
        assert(f.drop_last() =~= fields(a, c) + fields(d, c).drop_last());
        assert(fields(s, c) =~= fields(a, c) + fields(b, c));
    }
}

proof fn lemma_fields(a: Seq<char>, c: char)
    ensures
        fields(a, c).len() >= 1,
        !a.contains(c) ==> fields(a, c) == seq![a],
    decreases a.len(),
{
    if a.len() > 0 {
        let d = a.drop_last();
        lemma_fields(d, c);
        if !a.contains(c) {
            assert(a[a.len() - 1] == a.last());
            assert(!d.contains(c)) by {
                if d.contains(c) {
                    let i = choose|i: int| 0 <= i < d.len() && d[i] == c;
                    assert(a[i] == c);
                }
            }
            assert(seq![d].drop_last().push(seq![d].last().push(a.last())) =~= seq![a]) by {
                assert(d.push(a.last()) =~= a);
            }
        }
    }
}

/// A key is told by its first colon: before it stands the length of the namespace, in bytes,
/// which what follows must have.
pub proof fn key_is_told_by_its_first_colon(length: Seq<char>, rest: Seq<char>, max: nat)
    requires
        !length.contains(':'),
    ensures
        key_fault(length, max) == Some(KeyError::NoSeparator),
        key_fault(length + seq![':'] + rest, max) == match parse_unsigned(length, max) {
            None => Some(KeyError::BadLength),
            Some(n) => if n <= byte_len(rest) {
                None
            } else {
                Some(KeyError::LengthExceedsKey)
            },
        },
{
    let s = length + seq![':'] + rest;
    let at = length.len() as int;
    assert(s[at] == ':');
    assert forall|k: int| 0 <= k < at implies #[trigger] s[k] != ':' by {
        assert(length[k] == s[k]);
    }
    assert(is_first_index(s, ':', at));
    let i = choose|i: int| is_first_index(s, ':', i);
    assert(i == at) by {
        if i < at {
            assert(s[i] != ':');
        }
        if at < i {
            assert(s[at] != ':');
        }
    }
    assert(s.take(at) =~= length);
    assert(s.skip(at + 1) =~= rest);
    assert forall|k: int| 0 <= k < length.len() implies #[trigger] length[k] != ':' by {
        assert(length.contains(length[k]));
    }
}

/// The canonical form of a key is accepted.
pub proof fn canonical_form_is_accepted(k: KeyView, max: nat)
    requires
        byte_len(k.namespace) <= max,
    ensures
        key_fault(canonical(k), max) is None,
{
    let length = decimal(byte_len(k.namespace));
    text::lemma_decimal_value(byte_len(k.namespace));
    assert(!length.contains(':')) by {
        if length.contains(':') {
            let i = choose|i: int| 0 <= i < length.len() && length[i] == ':';
            assert(is_digit(length[i]));
        }
    }
    let rest = k.namespace + k.object_key;
    key_is_told_by_its_first_colon(length, rest, max);
    assert(canonical(k) =~= length + seq![':'] + rest);
    numbers_are_parsed(length, byte_len(k.namespace), max);
    text::lemma_encode_append(k.namespace, k.object_key);
}

} // verus!
