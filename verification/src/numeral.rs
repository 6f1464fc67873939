//! Decimal and hexadecimal numerals: formatting and parsing.

use vstd::prelude::*;

verus! {

/// The character of a digit value below 16 (lower-case for 10 to 15).
pub open spec fn digit_char(d: nat) -> char {
    if d < 10 {
        (d + 48) as char
    } else {
        (d + 87) as char
    }
}

/// The decimal digits of `n`, most significant first, without leading zeros.
pub open spec fn dec_digits(n: nat) -> Seq<char>
    decreases n,
{
    if n < 10 {
        seq![digit_char(n)]
    } else {
        dec_digits(n / 10).push(digit_char(n % 10))
    }
}

/// The lower-case hexadecimal digits of `n`, without leading zeros.
pub open spec fn hex_digits(n: nat) -> Seq<char>
    decreases n,
{
    if n < 16 {
        seq![digit_char(n)]
    } else {
        hex_digits(n / 16).push(digit_char(n % 16))
    }
}

/// `n` in decimal, with a leading `-` when negative.
pub open spec fn dec_int(n: int) -> Seq<char> {
    if n < 0 {
        seq!['-'] + dec_digits((-n) as nat)
    } else {
        dec_digits(n as nat)
    }
}

/// `n` in lower-case hexadecimal, padded with zeros to at least four digits.
pub open spec fn hex4(n: nat) -> Seq<char> {
    let h = hex_digits(n);
    if h.len() < 4 {
        Seq::new((4 - h.len()) as nat, |i: int| '0') + h
    } else {
        h
    }
}

pub open spec fn is_digit(c: char) -> bool {
    '0' <= c <= '9'
}

pub open spec fn all_digits(s: Seq<char>) -> bool {
    forall|i: int| 0 <= i < s.len() ==> is_digit(#[trigger] s[i])
}

/// The value of a string of decimal digits.
pub open spec fn digits_value(s: Seq<char>) -> nat
    decreases s.len(),
{
    if s.len() == 0 {
        0
    } else {
        digits_value(s.drop_last()) * 10 + (s.last() as nat - 48) as nat
    }
}

/// The integer that `s` writes: an optional sign, then one or more decimal
/// digits, and nothing else.
pub open spec fn int_value(s: Seq<char>) -> Option<int> {
    if s.len() > 0 && (s[0] == '+' || s[0] == '-') {
        let d = s.drop_first();
        if d.len() > 0 && all_digits(d) {
            Some(if s[0] == '-' { -digits_value(d) } else { digits_value(d) as int })
        } else {
            None
        }
    } else if s.len() > 0 && all_digits(s) {
        Some(digits_value(s) as int)
    } else {
        None
    }
}

/// What `str::parse::<i64>` gives: the value written, where it fits.
pub open spec fn parse_i64_value(s: Seq<char>) -> Option<i64> {
    match int_value(s) {
        Some(v) => if i64::MIN <= v <= i64::MAX {
            Some(v as i64)
        } else {
            None
        },
        None => None,
    }
}

/// What `str::parse::<u8>` gives: an optional `+`, then one or more decimal
/// digits whose value is at most 255.
pub open spec fn parse_u8_value(s: Seq<char>) -> Option<u8> {
    let d = if s.len() > 0 && s[0] == '+' {
        s.drop_first()
    } else {
        s
    };
    if d.len() > 0 && all_digits(d) && digits_value(d) <= 255 {
        Some(digits_value(d) as u8)
    } else {
        None
    }
}

/// Calls `String::push`. Trusted: the contract claims that afterwards the
/// string holds its old characters followed by `c`.
#[verifier::external_body]
pub fn push_char(s: &mut String, c: char)
    ensures
        final(s)@ == old(s)@.push(c),
{
    s.push(c);
}

pub fn exec_digit_char(d: u64) -> (c: char)
    requires
        d < 16,
    ensures
        c == digit_char(d as nat),
{
    let b = d as u8;
    if b < 10 {
        (b + 48) as char
    } else {
        (b + 87) as char
    }
}

pub open spec fn radix_digits(n: nat, hex: bool) -> Seq<char> {
    if hex {
        hex_digits(n)
    } else {
        dec_digits(n)
    }
}

/// Appends the digits of `n` in base 10 or 16.
fn push_radix(out: &mut String, n: u64, hex: bool)
    ensures
        final(out)@ == old(out)@ + (if hex {
            hex_digits(n as nat)
        } else {
            dec_digits(n as nat)
        }),
{
    let base: u64 = if hex { 16 } else { 10 };
    // least significant digit first
    let mut rev: Vec<char> = Vec::new();
    rev.push(exec_digit_char(n % base));
    let mut rest: u64 = n / base;
    let ghost acc: Seq<char> = seq![digit_char((n % base) as nat)];
    proof {
        assert(acc =~= rev@.reverse());
    }
    while rest > 0
        invariant
            base == (if hex { 16u64 } else { 10u64 }),
            acc =~= rev@.reverse(),
            radix_digits(n as nat, hex) == (if rest == 0 {
                Seq::<char>::empty()
            } else {
                radix_digits(rest as nat, hex)
            }) + acc,
        decreases rest,
    {
        let d = exec_digit_char(rest % base);
        let ghost old_acc = acc;
        let ghost r = rest as nat;
        proof {
            if hex {
                assert(hex_digits(r) == (if r / 16 == 0 {
                    Seq::<char>::empty()
                } else {
                    hex_digits(r / 16)
                }) + seq![d]);
            } else {
                assert(dec_digits(r) == (if r / 10 == 0 {
                    Seq::<char>::empty()
                } else {
                    dec_digits(r / 10)
                }) + seq![d]);
            }
            acc = seq![d] + acc;
        }
        rev.push(d);
        rest = rest / base;
        proof {
            assert(acc =~= rev@.reverse());
            let front = if rest == 0 {
                Seq::<char>::empty()
            } else {
                radix_digits(rest as nat, hex)
            };
            assert(radix_digits(r, hex) == front + seq![d]);
            assert(front + seq![d] + old_acc =~= front + acc);
        }
    }
    proof {
        assert(radix_digits(n as nat, hex) =~= acc);
    }
    let mut i = rev.len();
    let ghost start = out@;
    while i > 0
        invariant
            i <= rev.len(),
            out@ =~= start + rev@.reverse().take((rev.len() - i) as int),
        decreases i,
    {
        i = i - 1;
        push_char(out, rev[i]);
        proof {
            assert(rev@.reverse().take((rev.len() - i) as int) =~= rev@.reverse().take(
                (rev.len() - i - 1) as int,
            ).push(rev@[i as int]));
        }
    }
    proof {
        assert(rev@.reverse().take(rev.len() as int) =~= rev@.reverse());
    }
}

/// Appends `n` in decimal.
pub fn push_unsigned(out: &mut String, n: u64)
    ensures
        final(out)@ == old(out)@ + dec_digits(n as nat),
{
    push_radix(out, n, false);
}

/// Appends `v` in decimal, with a leading `-` when negative.
pub fn push_signed(out: &mut String, v: i64)
    ensures
        final(out)@ == old(out)@ + dec_int(v as int),
{
    if v < 0 {
        push_char(out, '-');
        let m: u64 = if v == i64::MIN {
            9223372036854775808u64
        } else {
            (-v) as u64
        };
        push_radix(out, m, false);
        proof {
            assert(out@ =~= old(out)@ + dec_int(v as int));
        }
    } else {
        push_radix(out, v as u64, false);
    }
}

/// Appends `n` in lower-case hexadecimal, padded to at least four digits.
pub fn push_hex4(out: &mut String, n: u64)
    ensures
        final(out)@ == old(out)@ + hex4(n as nat),
{
    let mut digits = String::new();
    push_radix(&mut digits, n, true);
    let len = digits.as_str().unicode_len();
    let mut pad: usize = len;
    let ghost start = out@;
    while pad < 4
        invariant
            len <= pad <= 4 || (len > 4 && pad == len),
            len == hex_digits(n as nat).len(),
            out@ =~= start + Seq::new((pad - len) as nat, |i: int| '0'),
        decreases 4 - pad,
    {
        push_char(out, '0');
        pad = pad + 1;
    }
    out.append(digits.as_str());
    proof {
        if len >= 4 {
            assert(Seq::new((pad - len) as nat, |i: int| '0') =~= Seq::<char>::empty());
        }
    }
}

pub proof fn lemma_digits_value_prefix(s: Seq<char>, k: int)
    requires
        all_digits(s),
        0 <= k <= s.len(),
    ensures
        digits_value(s.take(k)) <= digits_value(s),
    decreases s.len(),
{
    if k < s.len() {
        let t = s.drop_last();
        assert(all_digits(t)) by {
            assert forall|i: int| 0 <= i < t.len() implies is_digit(#[trigger] t[i]) by {
                assert(t[i] == s[i]);
            }
        }
        lemma_digits_value_prefix(t, k);
        assert(t.take(k) =~= s.take(k));
    } else {
        assert(s.take(k) =~= s);
    }
}

/// Reads the decimal digits of `s[from..]`. `None` when one of them is not
/// a digit or their value exceeds `limit`; otherwise their value.
fn digits_up_to(s: &Vec<char>, from: usize, limit: u64) -> (r: Option<u64>)
    requires
        from <= s.len(),
        limit >= 9,
    ensures
        match r {
            Some(v) => all_digits(s@.skip(from as int)) && v == digits_value(s@.skip(from as int))
                && v <= limit,
            None => !all_digits(s@.skip(from as int)) || digits_value(s@.skip(from as int))
                > limit,
        },
{
    let mut mag: u64 = 0;
    let mut i = from;
    let ghost d = s@.skip(from as int);
    proof {
        assert(s@.subrange(from as int, from as int) =~= Seq::<char>::empty());
    }
    while i < s.len()
        invariant
            from <= i <= s.len(),
            d == s@.skip(from as int),
            all_digits(s@.subrange(from as int, i as int)),
            mag == digits_value(s@.subrange(from as int, i as int)),
            mag <= limit,
            limit >= 9,
        decreases s.len() - i,
    {
        let c = s[i];
        let ghost pre = s@.subrange(from as int, i as int);
        let ghost next = s@.subrange(from as int, i + 1);
        proof {
            assert(next.drop_last() =~= pre);
            assert(d.take(i + 1 - from) =~= next);
        }
        if !('0' <= c && c <= '9') {
            proof {
                assert(d[i - from] == c);
            }
            return None;
        }
        let dv = (c as u32 - 48) as u64;
        if mag > (limit - dv) / 10 {
            proof {
                assert(all_digits(next)) by {
                    assert forall|k: int| 0 <= k < next.len() implies is_digit(#[trigger] next[k]) by {
                        if k < pre.len() {
                            assert(next[k] == pre[k]);
                        }
                    }
                }
                assert(digits_value(next) == mag * 10 + dv);
                if all_digits(d) {
                    lemma_digits_value_prefix(d, i + 1 - from);
                }
            }
            return None;
        }
        mag = mag * 10 + dv;
        i = i + 1;
        proof {
            assert(all_digits(next)) by {
                assert forall|k: int| 0 <= k < next.len() implies is_digit(#[trigger] next[k]) by {
                    if k < pre.len() {
                        assert(next[k] == pre[k]);
                    }
                }
            }
        }
    }
    proof {
        assert(s@.subrange(from as int, i as int) =~= d);
    }
    Some(mag)
}

/// `str::parse::<i64>` on the characters of `s`.
pub fn parse_i64(s: &Vec<char>) -> (r: Option<i64>)
    ensures
        r == parse_i64_value(s@),
{
    let n = s.len();
    let signed = n > 0 && (s[0] == '-' || s[0] == '+');
    let start: usize = if signed {
        1
    } else {
        0
    };
    if start == n {
        return None;
    }
    let negative = signed && s[0] == '-';
    proof {
        if signed {
            assert(s@.drop_first() =~= s@.skip(1));
        } else {
            assert(s@ =~= s@.skip(0));
        }
    }
    match digits_up_to(s, start, 9223372036854775808u64) {
        None => None,
        Some(m) => {
            if negative {
                if m == 9223372036854775808u64 {
                    Some(i64::MIN)
                } else {
                    Some(-(m as i64))
                }
            } else if m > 9223372036854775807u64 {
                None
            } else {
                Some(m as i64)
            }
        },
    }
}

/// `str::parse::<u8>` on the characters of `s`.
pub fn parse_u8(s: &Vec<char>) -> (r: Option<u8>)
    ensures
        r == parse_u8_value(s@),
{
    let n = s.len();
    let start: usize = if n > 0 && s[0] == '+' {
        1
    } else {
        0
    };
    proof {
        if start == 1 {
            assert(s@.drop_first() =~= s@.skip(1));
        } else {
            assert(s@ =~= s@.skip(0));
        }
    }
    if start == n {
        return None;
    }
    match digits_up_to(s, start, 255) {
        None => None,
        Some(m) => Some(m as u8),
    }
}

pub proof fn lemma_dec_digits(n: nat)
    ensures
        dec_digits(n).len() > 0,
        all_digits(dec_digits(n)),
        digits_value(dec_digits(n)) == n,
    decreases n,
{
    let c = digit_char(n % 10);
    assert(c as nat == n % 10 + 48);
    if n >= 10 {
        lemma_dec_digits(n / 10);
        let s = dec_digits(n);
        assert(s.drop_last() =~= dec_digits(n / 10));
        assert forall|i: int| 0 <= i < s.len() implies is_digit(#[trigger] s[i]) by {
            if i < s.len() - 1 {
                assert(s[i] == dec_digits(n / 10)[i]);
            }
        }
        assert(s.last() == c);
        assert(digits_value(s) == digits_value(dec_digits(n / 10)) * 10 + (c as nat - 48) as nat);
        assert((n / 10) * 10 + n % 10 == n);
    } else {
        let s = dec_digits(n);
        assert(s.drop_last() =~= Seq::<char>::empty());
        assert(s.last() == c);
        assert(digits_value(s) == digits_value(s.drop_last()) * 10 + (c as nat - 48) as nat);
        assert(digits_value(Seq::<char>::empty()) == 0);
    }
}

/// Writing an `i64` in decimal and parsing it back gives the same value.
pub proof fn lemma_parse_dec_i64(v: i64)
    ensures
        parse_i64_value(dec_int(v as int)) == Some(v),
{
    let s = dec_int(v as int);
    if v < 0 {
        lemma_dec_digits((-v) as nat);
        assert(s.drop_first() =~= dec_digits((-v) as nat));
    } else {
        lemma_dec_digits(v as nat);
        assert(is_digit(s[0]));
    }
}

/// Writing a `u8` in decimal and parsing it back gives the same value.
pub proof fn lemma_parse_dec_u8(v: u8)
    ensures
        parse_u8_value(dec_digits(v as nat)) == Some(v),
{
    lemma_dec_digits(v as nat);
    assert(is_digit(dec_digits(v as nat)[0]));
}

/// Digit characters: `0`..`9` for values below ten, then `a`..`f`.
pub proof fn law_digit_chars(d: nat)
    ensures
        d < 10 ==> digit_char(d) as int == '0' as int + d,
        10 <= d < 16 ==> digit_char(d) as int == 'a' as int + (d - 10),
{
}

/// Decimal notation: a digit added on the right multiplies the value by ten
/// and adds the digit's value.
pub proof fn law_decimal_notation(s: Seq<char>, c: char)
    requires
        is_digit(c),
    ensures
        digits_value(Seq::<char>::empty()) == 0,
        digits_value(s.push(c)) == 10 * digits_value(s) + (c as int - '0' as int),
{
    assert(s.push(c).drop_last() =~= s);
}

/// The decimal text of `n` is its digits, with no leading zero, whose value
/// is `n`; a negative number is `-` then the digits of its magnitude.
pub proof fn law_decimal_text(n: nat, v: int)
    ensures
        dec_digits(n).len() > 0,
        all_digits(dec_digits(n)),
        digits_value(dec_digits(n)) == n,
        n > 0 ==> dec_digits(n)[0] != '0',
        v < 0 ==> dec_int(v) == seq!['-'] + dec_digits((-v) as nat),
        v >= 0 ==> dec_int(v) == dec_digits(v as nat),
    decreases n,
{
    lemma_dec_digits(n);
    if n >= 10 {
        law_decimal_text(n / 10, 0);
        assert(dec_digits(n)[0] == dec_digits(n / 10)[0]);
    } else if n > 0 {
        assert(digit_char(n) as int == 48 + n);
    }
}

/// The trap positions: for values below 0x10000, exactly four lower-case
/// hexadecimal digits, most significant first.
pub proof fn law_hex4(n: nat)
    requires
        n < 0x10000,
    ensures
        hex4(n) == seq![
            digit_char(n / 0x1000),
            digit_char((n / 0x100) % 16),
            digit_char((n / 16) % 16),
            digit_char(n % 16),
        ],
{
    let h = hex_digits(n);
    let want = seq![
        digit_char(n / 0x1000),
        digit_char((n / 0x100) % 16),
        digit_char((n / 16) % 16),
        digit_char(n % 16),
    ];
    assert(digit_char(0) == '0');
    if n < 16 {
        assert(h =~= seq![digit_char(n)]);
        assert(hex4(n) =~= want);
    } else if n < 0x100 {
        assert(hex_digits(n / 16) =~= seq![digit_char(n / 16)]);
        assert(h =~= seq![digit_char(n / 16), digit_char(n % 16)]);
        assert(hex4(n) =~= want);
    } else if n < 0x1000 {
        assert(hex_digits(n / 256) =~= seq![digit_char(n / 256)]);
        assert(n / 16 / 16 == n / 256);
        assert(hex_digits(n / 16) =~= seq![digit_char(n / 256), digit_char((n / 16) % 16)]);
        assert(h =~= seq![digit_char(n / 256), digit_char((n / 16) % 16), digit_char(n % 16)]);
        assert(hex4(n) =~= want);
    } else {
        assert(n / 16 / 16 == n / 256);
        assert(n / 256 / 16 == n / 4096);
        assert((n / 256) % 16 == (n / 0x100) % 16);
        assert(hex_digits(n / 4096) =~= seq![digit_char(n / 4096)]);
        assert(hex_digits(n / 256) =~= seq![digit_char(n / 4096), digit_char((n / 256) % 16)]);
        assert(hex_digits(n / 16) =~= seq![
            digit_char(n / 4096),
            digit_char((n / 256) % 16),
            digit_char((n / 16) % 16),
        ]);
        assert(h =~= want);
        assert(hex4(n) =~= want);
    }
}

/// The integers that parse: an optional sign, then one or more decimal
/// digits; their value is the digits' value, negated after `-`.
pub proof fn law_int_value(d: Seq<char>, s: Seq<char>)
    requires
        d.len() > 0,
        all_digits(d),
    ensures
        int_value(d) == Some(digits_value(d) as int),
        int_value(seq!['+'] + d) == Some(digits_value(d) as int),
        int_value(seq!['-'] + d) == Some(-digits_value(d)),
        int_value(s) is Some ==> s.len() > 0 && (all_digits(s) || ((s[0] == '+' || s[0] == '-')
            && s.len() > 1 && all_digits(s.drop_first()))),
        s.len() > 0 && !is_digit(s[0]) && s[0] != '+' && s[0] != '-' ==> int_value(s) is None,
{
    assert((seq!['+'] + d).drop_first() =~= d);
    assert((seq!['-'] + d).drop_first() =~= d);
    assert(is_digit(d[0]));
}

} // verus!
