//! Character-level helpers shared by the parser and the printer: Unicode
//! whitespace, trimming, decimal numbers, and the conversions between `str`
//! and character vectors.

use vstd::prelude::*;

verus! {

/// Unicode `White_Space`, the property that `char::is_whitespace` tests.
pub open spec fn is_ws(c: char) -> bool {
    let v = c as u32;
    ||| 0x09 <= v <= 0x0d
    ||| v == 0x20
    ||| v == 0x85
    ||| v == 0xa0
    ||| v == 0x1680
    ||| 0x2000 <= v <= 0x200a
    ||| v == 0x2028
    ||| v == 0x2029
    ||| v == 0x202f
    ||| v == 0x205f
    ||| v == 0x3000
}

/// Whether `c` is a Unicode whitespace character.
pub fn is_whitespace(c: char) -> (r: bool)
    ensures
        r == is_ws(c),
{
    let v = c as u32;
    (0x09 <= v && v <= 0x0d) || v == 0x20 || v == 0x85 || v == 0xa0 || v == 0x1680 || (0x2000
        <= v && v <= 0x200a) || v == 0x2028 || v == 0x2029 || v == 0x202f || v == 0x205f || v
        == 0x3000
}

} // verus!

verus! {

/// The characters of `s`, in order.
pub fn chars_of(s: &str) -> (v: Vec<char>)
    ensures
        v@ == s@,
{
    broadcast use vstd::string::axiom_spec_iter;

    let mut v: Vec<char> = Vec::new();
    for c in it: s.chars()
        invariant
            v@ == it.seq().take(it.index() as int),
    {
        v.push(c);
        assert(v@ == it.seq().take(it.index() as int + 1));
    }
    assert(v@ == s@);
    v
}

} // verus!

verus! {

/// The characters of `v` as a `String`.
///
/// Trusted: collects through std's `FromIterator<char>` for `String`; the
/// contract claims that the string holds exactly the characters of `v`, in
/// order.
#[verifier::external_body]
pub(crate) fn string_of(v: &Vec<char>) -> (s: String)
    ensures
        s@ == v@,
{
    v.iter().collect()
}

/// Appends the characters of `s` to `out`.
pub fn push_str(out: &mut Vec<char>, s: &str)
    ensures
        final(out)@ == old(out)@ + s@,
{
    let cs = chars_of(s);
    push_range(out, &cs, 0, cs.len());
    assert(cs@.subrange(0, cs@.len() as int) =~= cs@);
}

/// Appends `chars[lo..hi]` to `out`.
pub fn push_range(out: &mut Vec<char>, chars: &Vec<char>, lo: usize, hi: usize)
    requires
        lo <= hi <= chars@.len(),
    ensures
        final(out)@ == old(out)@ + chars@.subrange(lo as int, hi as int),
{
    let ghost start = out@;
    let mut i = lo;
    while i < hi
        invariant
            lo <= i <= hi <= chars@.len(),
            out@ == start + chars@.subrange(lo as int, i as int),
        decreases hi - i,
    {
        out.push(chars[i]);
        i = i + 1;
        assert(out@ =~= start + chars@.subrange(lo as int, i as int));
    }
}

/// `n` space characters.
pub open spec fn spaces(n: nat) -> Seq<char> {
    Seq::new(n, |k: int| ' ')
}

/// Appends `n` spaces to `out`.
pub fn push_spaces(out: &mut Vec<char>, n: usize)
    ensures
        final(out)@ == old(out)@ + spaces(n as nat),
{
    let ghost start = out@;
    let mut i: usize = 0;
    while i < n
        invariant
            i <= n,
            out@ == start + spaces(i as nat),
        decreases n - i,
    {
        out.push(' ');
        i = i + 1;
        assert(out@ =~= start + spaces(i as nat));
    }
}

/// `s` without its trailing whitespace, as `str::trim_end` gives it.
pub open spec fn trim_end(s: Seq<char>) -> Seq<char>
    decreases s.len(),
{
    if s.len() > 0 && is_ws(s.last()) {
        trim_end(s.drop_last())
    } else {
        s
    }
}

/// `s` without its leading whitespace, as `str::trim_start` gives it.
pub open spec fn trim_start(s: Seq<char>) -> Seq<char>
    decreases s.len(),
{
    if s.len() > 0 && is_ws(s[0]) {
        trim_start(s.drop_first())
    } else {
        s
    }
}

/// The end of `chars[lo..hi]` once its trailing whitespace is cut off.
pub fn trim_end_at(chars: &Vec<char>, lo: usize, hi: usize) -> (e: usize)
    requires
        lo <= hi <= chars@.len(),
    ensures
        lo <= e <= hi,
        chars@.subrange(lo as int, e as int) == trim_end(chars@.subrange(lo as int, hi as int)),
{
    let mut e = hi;
    while e > lo && is_whitespace(chars[e - 1])
        invariant
            lo <= e <= hi <= chars@.len(),
            trim_end(chars@.subrange(lo as int, hi as int)) == trim_end(
                chars@.subrange(lo as int, e as int),
            ),
        decreases e,
    {
        assert(chars@.subrange(lo as int, e as int).drop_last() =~= chars@.subrange(
            lo as int,
            e - 1,
        ));
        e = e - 1;
    }
    e
}

/// The start of `chars[lo..hi]` once its leading whitespace is cut off.
pub fn trim_start_at(chars: &Vec<char>, lo: usize, hi: usize) -> (b: usize)
    requires
        lo <= hi <= chars@.len(),
    ensures
        lo <= b <= hi,
        chars@.subrange(b as int, hi as int) == trim_start(chars@.subrange(lo as int, hi as int)),
{
    let mut b = lo;
    while b < hi && is_whitespace(chars[b])
        invariant
            lo <= b <= hi <= chars@.len(),
            trim_start(chars@.subrange(lo as int, hi as int)) == trim_start(
                chars@.subrange(b as int, hi as int),
            ),
        decreases hi - b,
    {
        assert(chars@.subrange(b as int, hi as int).drop_first() =~= chars@.subrange(
            b + 1,
            hi as int,
        ));
        b = b + 1;
    }
    b
}

} // verus!

verus! {

/// The character that writes the decimal digit `d`.
pub open spec fn digit_char(d: nat) -> char {
    if d == 0 {
        '0'
    } else if d == 1 {
        '1'
    } else if d == 2 {
        '2'
    } else if d == 3 {
        '3'
    } else if d == 4 {
        '4'
    } else if d == 5 {
        '5'
    } else if d == 6 {
        '6'
    } else if d == 7 {
        '7'
    } else if d == 8 {
        '8'
    } else {
        '9'
    }
}

/// `n` written in decimal, without leading zeros, as `{}` formats it.
pub open spec fn decimal(n: nat) -> Seq<char>
    decreases n,
{
    if n < 10 {
        seq![digit_char(n)]
    } else {
        decimal(n / 10).push(digit_char(n % 10))
    }
}

/// Whether `c` is one of the ASCII digits `0` to `9`.
pub open spec fn is_digit(c: char) -> bool {
    0x30 <= c as u32 <= 0x39
}

/// The value of the ASCII digit `c`.
pub open spec fn digit_value(c: char) -> nat {
    (c as u32 - 0x30) as nat
}

/// Whether every character of `s` is an ASCII digit.
pub open spec fn all_digits(s: Seq<char>) -> bool {
    forall|i: int| 0 <= i < s.len() ==> is_digit(#[trigger] s[i])
}

/// The number that the digits `s` write in decimal.
pub open spec fn digits_value(s: Seq<char>) -> nat
    decreases s.len(),
{
    if s.len() == 0 {
        0
    } else {
        digits_value(s.drop_last()) * 10 + digit_value(s.last())
    }
}

/// The digits of `s` if `s` has the shape that Rust's `FromStr` for unsigned
/// integers accepts: an optional `+`, then one or more ASCII digits.
pub open spec fn unsigned_digits(s: Seq<char>) -> Option<Seq<char>> {
    let d = if s.len() > 0 && s[0] == '+' {
        s.drop_first()
    } else {
        s
    };
    if d.len() > 0 && all_digits(d) {
        Some(d)
    } else {
        None
    }
}

/// What `s.parse()` gives for an unsigned integer type whose largest value is
/// `max`: the number that `s` writes, if `s` has the accepted shape and the
/// number is at most `max`.
pub open spec fn parse_unsigned(s: Seq<char>, max: nat) -> Option<nat> {
    match unsigned_digits(s) {
        Some(d) => if digits_value(d) <= max {
            Some(digits_value(d))
        } else {
            None
        },
        None => None,
    }
}

/// The character of the digit `d`.
pub fn digit_char_of(d: u128) -> (c: char)
    requires
        d < 10,
    ensures
        c == digit_char(d as nat),
{
    if d == 0 {
        '0'
    } else if d == 1 {
        '1'
    } else if d == 2 {
        '2'
    } else if d == 3 {
        '3'
    } else if d == 4 {
        '4'
    } else if d == 5 {
        '5'
    } else if d == 6 {
        '6'
    } else if d == 7 {
        '7'
    } else if d == 8 {
        '8'
    } else {
        '9'
    }
}

/// Appends `n` in decimal to `out`.
pub fn push_decimal(out: &mut Vec<char>, n: u128)
    ensures
        final(out)@ == old(out)@ + decimal(n as nat),
    decreases n,
{
    if n >= 10 {
        push_decimal(out, n / 10);
    }
    let c = digit_char_of(n % 10);
    out.push(c);
    assert(out@ =~= old(out)@ + decimal(n as nat));
}

/// A number's value is at least the value of any prefix of its digits.
pub proof fn lemma_digits_value_prefix(s: Seq<char>, k: int)
    requires
        0 <= k <= s.len(),
        all_digits(s),
    ensures
        digits_value(s.take(k)) <= digits_value(s),
    decreases s.len(),
{
    if k < s.len() {
        assert(all_digits(s.drop_last()));
        assert(s.drop_last().take(k) =~= s.take(k));
        lemma_digits_value_prefix(s.drop_last(), k);
    } else {
        assert(s.take(k) =~= s);
    }
}

/// What `chars[lo..hi].parse()` gives for an unsigned integer type whose
/// largest value is `max`.
pub fn parse_unsigned_at(chars: &Vec<char>, lo: usize, hi: usize, max: u64) -> (r: Option<u64>)
    requires
        lo <= hi <= chars@.len(),
    ensures
        match r {
            Some(v) => parse_unsigned(chars@.subrange(lo as int, hi as int), max as nat) == Some(
                v as nat,
            ),
            None => parse_unsigned(chars@.subrange(lo as int, hi as int), max as nat) is None,
        },
{
    let ghost s = chars@.subrange(lo as int, hi as int);
    let mut start = lo;
    if lo < hi && chars[lo] == '+' {
        start = lo + 1;
    }
    let ghost d = chars@.subrange(start as int, hi as int);
    assert(unsigned_digits(s) == (if d.len() > 0 && all_digits(d) {
        Some(d)
    } else {
        None::<Seq<char>>
    })) by {
        if lo < hi && chars[lo as int] == '+' {
            assert(s.drop_first() =~= d);
        } else {
            assert(s =~= d);
        }
    }
    if start == hi {
        return None;
    }
    let mut v: u64 = 0;
    let mut i = start;
    while i < hi
        invariant
            start <= i <= hi <= chars@.len(),
            d == chars@.subrange(start as int, hi as int),
            d.len() > 0,
            unsigned_digits(s) == (if all_digits(d) {
                Some(d)
            } else {
                None::<Seq<char>>
            }),
            s == chars@.subrange(lo as int, hi as int),
            all_digits(d.take(i - start)),
            v as nat == digits_value(d.take(i - start)),
            v <= max,
        decreases hi - i,
    {
        let c = chars[i];
        let cv = c as u32;
        if cv < 0x30 || cv > 0x39 {
            assert(d[i - start] == c);
            return None;
        }
        let nv: u128 = (v as u128) * 10 + ((cv - 0x30) as u128);
        assert(d.take(i - start + 1).drop_last() =~= d.take(i - start));
        assert(all_digits(d.take(i - start + 1))) by {
            assert forall|j: int| 0 <= j < i - start + 1 implies is_digit(
                #[trigger] d.take(i - start + 1)[j],
            ) by {
                if j < i - start {
                    assert(d.take(i - start + 1)[j] == d.take(i - start)[j]);
                }
            }
        }
        assert(nv as nat == digits_value(d.take(i - start + 1)));
        if nv > max as u128 {
            proof {
                if all_digits(d) {
                    lemma_digits_value_prefix(d, (i - start + 1) as int);
                }
            }
            return None;
        }
        v = nv as u64;
        i = i + 1;
    }
    assert(d.take(i - start) =~= d);
    Some(v)
}

} // verus!

verus! {

/// A name for what `format!("{:?}", s)` makes of the string `s`: `s` between
/// double quotes, with the characters that `str`'s `Debug` escapes written as
/// escapes.
pub uninterp spec fn debug_quoted(s: Seq<char>) -> Seq<char>;

/// Whether every character of `s` is printable ASCII (space to `~`) other
/// than `"` and `\`: characters that `str`'s `Debug` writes as they are.
pub open spec fn plain_ascii(s: Seq<char>) -> bool {
    forall|i: int|
        0 <= i < s.len() ==> 0x20 <= #[trigger] s[i] as u32 <= 0x7e && s[i] != '"' && s[i] != '\\'
}

/// The string `s` as `format!("{:?}", ..)` writes it.
///
/// Trusted: formats through std's `Debug` for `str` (`format!("{:?}", ..)`);
/// the contract claims that the result is `debug_quoted` of the same
/// characters, and that a string of plain printable ASCII comes out between
/// double quotes as it is. The escaping of other characters is left unsaid.
#[verifier::external_body]
pub(crate) fn debug_quote(s: &Vec<char>) -> (q: Vec<char>)
    ensures
        q@ == debug_quoted(s@),
        plain_ascii(s@) ==> q@ == seq!['"'] + s@ + seq!['"'],
{
    let text: String = s.iter().collect();
    format!("{:?}", text).chars().collect()
}

} // verus!

verus! {

/// Appends all of `v` to `out`.
pub fn push_all(out: &mut Vec<char>, v: &Vec<char>)
    ensures
        final(out)@ == old(out)@ + v@,
{
    push_range(out, v, 0, v.len());
    assert(v@.subrange(0, v@.len() as int) =~= v@);
}

/// A copy of `chars[lo..hi]`.
pub fn copy_range(chars: &Vec<char>, lo: usize, hi: usize) -> (v: Vec<char>)
    requires
        lo <= hi <= chars@.len(),
    ensures
        v@ == chars@.subrange(lo as int, hi as int),
{
    let mut v: Vec<char> = Vec::new();
    push_range(&mut v, chars, lo, hi);
    v
}

} // verus!

verus! {

/// The digit written for `d` reads back as `d`.
proof fn lemma_digit_char_value(d: nat)
    requires
        d < 10,
    ensures
        is_digit(digit_char(d)),
        digit_value(digit_char(d)) == d,
{
    assert('0' as u32 == 0x30 && '1' as u32 == 0x31 && '2' as u32 == 0x32 && '3' as u32 == 0x33
        && '4' as u32 == 0x34 && '5' as u32 == 0x35 && '6' as u32 == 0x36 && '7' as u32 == 0x37
        && '8' as u32 == 0x38 && '9' as u32 == 0x39);
}

/// The digits that `decimal` writes read back as the number written.
proof fn lemma_decimal_digits(n: nat)
    ensures
        decimal(n).len() > 0,
        all_digits(decimal(n)),
        digits_value(decimal(n)) == n,
    decreases n,
{
    lemma_digit_char_value(n % 10);
    if n < 10 {
        lemma_digit_char_value(n);
        let s = decimal(n);
        assert(s.drop_last() =~= Seq::<char>::empty());
        assert(digits_value(s.drop_last()) == 0);
        assert(s.last() == digit_char(n));
        assert(digits_value(s) == digits_value(s.drop_last()) * 10 + digit_value(s.last()));
    } else {
        lemma_decimal_digits(n / 10);
        let s = decimal(n);
        assert(n == (n / 10) * 10 + n % 10);
        assert(s.last() == digit_char(n % 10));
        assert(digits_value(s) == digits_value(s.drop_last()) * 10 + digit_value(s.last()));
        assert(s.drop_last() == decimal(n / 10));
        assert forall|i: int| 0 <= i < s.len() implies is_digit(#[trigger] s[i]) by {
            if i < s.len() - 1 {
                assert(s[i] == decimal(n / 10)[i]);
            }
        }
    }
}

/// Reading a number is the inverse of writing it: the decimal digits of `v`,
/// with or without a leading `+`, read as `v` when `v` is at most `max`, and
/// as nothing when it is larger.
pub proof fn law_numbers_read_back(v: nat, max: nat)
    ensures
        parse_unsigned(decimal(v), max) == (if v <= max {
            Some(v)
        } else {
            None::<nat>
        }),
        parse_unsigned(seq!['+'] + decimal(v), max) == (if v <= max {
            Some(v)
        } else {
            None::<nat>
        }),
{
    lemma_decimal_digits(v);
    let d = decimal(v);
    assert(is_digit(d[0]));
    assert((seq!['+'] + d).drop_first() =~= d);
}

} // verus!

verus! {

/// Trimming the end cuts off exactly the trailing whitespace: what is left is
/// a prefix of `s` that is empty or ends with a character other than
/// whitespace, and everything cut off is whitespace. Trimming the start
/// likewise cuts off exactly the leading whitespace.
pub proof fn law_trims_cut_only_whitespace(s: Seq<char>)
    ensures
        exists|k: int|
            0 <= k <= s.len() && #[trigger] s.take(k) == trim_end(s) && (k == 0 || !is_ws(
                s[k - 1],
            )) && forall|j: int| k <= j < s.len() ==> is_ws(#[trigger] s[j]),
        exists|k: int|
            0 <= k <= s.len() && #[trigger] s.skip(k) == trim_start(s) && (k == s.len() || !is_ws(
                s[k],
            )) && forall|j: int| 0 <= j < k ==> is_ws(#[trigger] s[j]),
    decreases s.len(),
{
    if s.len() == 0 {
        assert(s.take(0) =~= s);
        assert(s.skip(0) =~= s);
    } else {
        law_trims_cut_only_whitespace(s.drop_last());
        law_trims_cut_only_whitespace(s.drop_first());
        if is_ws(s.last()) {
            let d = s.drop_last();
            let k = choose|k: int|
                0 <= k <= d.len() && #[trigger] d.take(k) == trim_end(d) && (k == 0 || !is_ws(
                    d[k - 1],
                )) && forall|j: int| k <= j < d.len() ==> is_ws(#[trigger] d[j]);
            assert(s.take(k) =~= d.take(k));
            assert(forall|j: int| k <= j < s.len() ==> is_ws(#[trigger] s[j])) by {
                assert forall|j: int| k <= j < s.len() implies is_ws(#[trigger] s[j]) by {
                    if j < d.len() {
                        assert(s[j] == d[j]);
                    }
                }
            }
            if k > 0 {
                assert(s[k - 1] == d[k - 1]);
            }
        } else {
            assert(s.take(s.len() as int) =~= s);
        }
        if is_ws(s[0]) {
            let d = s.drop_first();
            let k = choose|k: int|
                0 <= k <= d.len() && #[trigger] d.skip(k) == trim_start(d) && (k == d.len()
                    || !is_ws(d[k])) && forall|j: int| 0 <= j < k ==> is_ws(#[trigger] d[j]);
            assert(s.skip(k + 1) =~= d.skip(k));
            assert forall|j: int| 0 <= j < k + 1 implies is_ws(#[trigger] s[j]) by {
                if j > 0 {
                    assert(s[j] == d[j - 1]);
                }
            }
            if k < d.len() {
                assert(s[k + 1] == d[k]);
            }
        } else {
            assert(s.skip(0) =~= s);
        }
    }
}

} // verus!
