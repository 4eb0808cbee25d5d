//! Character-level text helpers shared by the parsers: string building,
//! number formatting, whitespace trimming, ASCII case folding, searching and
//! `FromStr`-compatible number parsing. Texts are modelled by their `Seq<char>`
//! views.
use vstd::prelude::*;
use vstd::utf8::{decode_utf8, valid_utf8};

verus! {

/// `String::push`: appends one character.
#[verifier::external_body]
pub(crate) fn push_char(s: &mut String, c: char)
    ensures
        final(s)@ == old(s)@.push(c),
{
    s.push(c);
}

/// The characters of `s`, collected into a vector.
pub fn chars_of(s: &str) -> (r: Vec<char>)
    ensures
        r@ == s@,
{
    let n = s.unicode_len();
    let mut out: Vec<char> = Vec::new();
    let mut i: usize = 0;
    while i < n
        invariant
            n == s@.len(),
            i <= n,
            out@ == s@.take(i as int),
        decreases n - i,
    {
        out.push(s.get_char(i));
        i = i + 1;
        assert(out@ =~= s@.take(i as int));
    }
    assert(out@ =~= s@);
    out
}

/// A string made of the given characters.
pub fn string_of(cs: &[char]) -> (r: String)
    ensures
        r@ == cs@,
{
    let mut out = String::new();
    let mut i: usize = 0;
    while i < cs.len()
        invariant
            i <= cs.len(),
            out@ == cs@.take(i as int),
        decreases cs.len() - i,
    {
        push_char(&mut out, cs[i]);
        i = i + 1;
        assert(out@ =~= cs@.take(i as int));
    }
    assert(out@ =~= cs@);
    out
}

/// A string made of the characters `cs[from..to]`.
pub fn string_of_range(cs: &[char], from: usize, to: usize) -> (r: String)
    requires
        from <= to <= cs@.len(),
    ensures
        r@ == cs@.subrange(from as int, to as int),
{
    let mut out = String::new();
    let mut i: usize = from;
    while i < to
        invariant
            from <= i <= to <= cs@.len(),
            out@ == cs@.subrange(from as int, i as int),
        decreases to - i,
    {
        push_char(&mut out, cs[i]);
        i = i + 1;
        assert(out@ =~= cs@.subrange(from as int, i as int));
    }
    out
}

/// The character for a digit value below 16.
pub open spec fn digit_char(d: int, upper: bool) -> char {
    if d < 10 {
        (48 + d) as char
    } else if upper {
        (55 + d) as char
    } else {
        (87 + d) as char
    }
}

/// Digits of `n` in base `radix`, most significant first, without leading
/// zeros (`0` is the single digit `0`).
pub open spec fn spec_digits(n: nat, radix: nat, upper: bool) -> Seq<char>
    decreases n,
{
    if radix < 2 || n < radix {
        seq![digit_char(n as int, upper)]
    } else {
        proof {
            assert(n / radix < n) by (nonlinear_arith)
                requires
                    radix >= 2,
                    n >= radix,
            ;
        }
        spec_digits(n / radix, radix, upper).push(digit_char((n % radix) as int, upper))
    }
}

/// The decimal rendering of `n`, as `{}` formats it.
pub open spec fn spec_decimal(n: nat) -> Seq<char> {
    spec_digits(n, 10, false)
}

/// Left-pad with `0` up to `width` characters, as `{:0width$}` does.
pub open spec fn pad_zeros(s: Seq<char>, width: nat) -> Seq<char> {
    if s.len() < width {
        Seq::new((width - s.len()) as nat, |i: int| '0') + s
    } else {
        s
    }
}

pub fn digit(d: u64, upper: bool) -> (c: char)
    requires
        d < 16,
    ensures
        c == digit_char(d as int, upper),
{
    if d < 10 {
        ((48 + d) as u8) as char
    } else if upper {
        ((55 + d) as u8) as char
    } else {
        ((87 + d) as u8) as char
    }
}

fn fmt_radix(n: u64, radix: u64, upper: bool) -> (r: String)
    requires
        2 <= radix <= 16,
    ensures
        r@ == spec_digits(n as nat, radix as nat, upper),
    decreases n,
{
    if n < radix {
        let mut s = String::new();
        push_char(&mut s, digit(n, upper));
        s
    } else {
        assert(n / radix < n) by (nonlinear_arith)
            requires
                radix >= 2,
                n >= radix,
        ;
        let mut s = fmt_radix(n / radix, radix, upper);
        push_char(&mut s, digit(n % radix, upper));
        s
    }
}

/// Decimal rendering of `n`.
pub fn fmt_decimal(n: u64) -> (r: String)
    ensures
        r@ == spec_decimal(n as nat),
{
    fmt_radix(n, 10, false)
}

/// Lower-case hexadecimal rendering of `n`, zero-padded to `width` digits.
pub fn fmt_hex_lower(n: u64, width: usize) -> (r: String)
    ensures
        r@ == pad_zeros(spec_digits(n as nat, 16, false), width as nat),
{
    let digits = fmt_radix(n, 16, false);
    let len = digits.unicode_len();
    if len < width {
        let mut out = String::new();
        let mut i: usize = 0;
        while i < width - len
            invariant
                len == digits@.len(),
                len < width,
                i <= width - len,
                out@ == Seq::new(i as nat, |k: int| '0'),
            decreases width - len - i,
        {
            push_char(&mut out, '0');
            i = i + 1;
            assert(out@ =~= Seq::new(i as nat, |k: int| '0'));
        }
        out.append(digits.as_str());
        out
    } else {
        digits
    }
}

/// `char::is_whitespace`: the Unicode `White_Space` property.
pub open spec fn is_ws(c: char) -> bool {
    let u = c as u32;
    (9 <= u && u <= 13) || u == 32 || u == 0x85 || u == 0xA0 || u == 0x1680 || (0x2000 <= u && u
        <= 0x200A) || u == 0x2028 || u == 0x2029 || u == 0x202F || u == 0x205F || u == 0x3000
}

pub fn is_whitespace(c: char) -> (r: bool)
    ensures
        r == is_ws(c),
{
    let u = c as u32;
    (9 <= u && u <= 13) || u == 32 || u == 0x85 || u == 0xA0 || u == 0x1680 || (0x2000 <= u && u
        <= 0x200A) || u == 0x2028 || u == 0x2029 || u == 0x202F || u == 0x205F || u == 0x3000
}

/// `str::trim_start`.
pub open spec fn trim_start(s: Seq<char>) -> Seq<char>
    decreases s.len(),
{
    if s.len() > 0 && is_ws(s[0]) {
        trim_start(s.skip(1))
    } else {
        s
    }
}

/// `str::trim_end`.
pub open spec fn trim_end(s: Seq<char>) -> Seq<char>
    decreases s.len(),
{
    if s.len() > 0 && is_ws(s.last()) {
        trim_end(s.drop_last())
    } else {
        s
    }
}

/// `str::trim`.
pub open spec fn trim(s: Seq<char>) -> Seq<char> {
    trim_end(trim_start(s))
}

/// The position just after the leading whitespace of `cs[from..to]`.
pub fn skip_ws(cs: &[char], from: usize, to: usize) -> (r: usize)
    requires
        from <= to <= cs@.len(),
    ensures
        from <= r <= to,
        trim_start(cs@.subrange(from as int, to as int)) == cs@.subrange(r as int, to as int),
{
    let mut a = from;
    while a < to && is_whitespace(cs[a])
        invariant
            from <= a <= to <= cs@.len(),
            trim_start(cs@.subrange(from as int, to as int)) == trim_start(cs@.subrange(a as int, to as int)),
        decreases to - a,
    {
        assert(cs@.subrange(a as int, to as int).skip(1) =~= cs@.subrange(a + 1, to as int));
        a = a + 1;
    }
    a
}

/// The bounds of `trim(cs[from..to])`.
pub fn trim_in(cs: &[char], from: usize, to: usize) -> (r: (usize, usize))
    requires
        from <= to <= cs@.len(),
    ensures
        from <= r.0 <= r.1 <= to,
        trim(cs@.subrange(from as int, to as int)) == cs@.subrange(r.0 as int, r.1 as int),
{
    let a = skip_ws(cs, from, to);
    let mut b = to;
    while b > a && is_whitespace(cs[b - 1])
        invariant
            from <= a <= b <= to <= cs@.len(),
            trim_end(cs@.subrange(a as int, to as int)) == trim_end(cs@.subrange(a as int, b as int)),
        decreases b - a,
    {
        assert(cs@.subrange(a as int, b as int).drop_last() =~= cs@.subrange(a as int, b - 1));
        b = b - 1;
    }
    (a, b)
}

/// The first position of `c` in `s`.
pub open spec fn index_of(s: Seq<char>, c: char) -> Option<int>
    decreases s.len(),
{
    if s.len() == 0 {
        None
    } else if s[0] == c {
        Some(0)
    } else {
        match index_of(s.skip(1), c) {
            Some(i) => Some(i + 1),
            None => None,
        }
    }
}

pub open spec fn shift(o: Option<int>, d: int) -> Option<int> {
    match o {
        Some(i) => Some(i + d),
        None => None,
    }
}

/// `index_of` finds the first occurrence, or reports that there is none.
pub proof fn lemma_index_of(s: Seq<char>, c: char)
    ensures
        match index_of(s, c) {
            Some(i) => 0 <= i < s.len() && s[i] == c && forall|k: int| 0 <= k < i ==> s[k] != c,
            None => forall|k: int| 0 <= k < s.len() ==> s[k] != c,
        },
    decreases s.len(),
{
    if s.len() > 0 && s[0] != c {
        lemma_index_of(s.skip(1), c);
        match index_of(s.skip(1), c) {
            Some(i) => {
                assert forall|k: int| 0 <= k < i + 1 implies s[k] != c by {
                    if k > 0 {
                        assert(s[k] == s.skip(1)[k - 1]);
                    }
                }
            },
            None => {
                assert forall|k: int| 0 <= k < s.len() implies s[k] != c by {
                    if k > 0 {
                        assert(s[k] == s.skip(1)[k - 1]);
                    }
                }
            },
        }
    }
}

/// The first position of `c` in `cs[from..to]`, as an absolute index.
pub fn index_in(cs: &[char], from: usize, to: usize, c: char) -> (r: Option<usize>)
    requires
        from <= to <= cs@.len(),
    ensures
        match index_of(cs@.subrange(from as int, to as int), c) {
            None => r is None,
            Some(i) => r matches Some(x) && x == from + i,
        },
        r matches Some(i) ==> from <= i < to && cs@[i as int] == c,
{
    proof {
        lemma_index_of(cs@.subrange(from as int, to as int), c);
    }
    let mut i = from;
    while i < to
        invariant
            from <= i <= to <= cs@.len(),
            index_of(cs@.subrange(from as int, to as int), c) == shift(
                index_of(cs@.subrange(i as int, to as int), c),
                i - from,
            ),
        decreases to - i,
    {
        assert(cs@.subrange(i as int, to as int).skip(1) =~= cs@.subrange(i + 1, to as int));
        if cs[i] == c {
            return Some(i);
        }
        i = i + 1;
    }
    None
}

/// Whether `s` starts with `p`.
pub open spec fn starts_with(s: Seq<char>, p: Seq<char>) -> bool {
    p.len() <= s.len() && s.take(p.len() as int) == p
}

/// Whether `cs[from..to]` starts with `p`.
pub fn starts_with_in(cs: &[char], from: usize, to: usize, p: &[char]) -> (r: bool)
    requires
        from <= to <= cs@.len(),
    ensures
        r == starts_with(cs@.subrange(from as int, to as int), p@),
{
    if p.len() > to - from {
        return false;
    }
    let mut k: usize = 0;
    while k < p.len()
        invariant
            p@.len() <= to - from,
            from <= to <= cs@.len(),
            k <= p@.len(),
            forall|j: int| 0 <= j < k ==> cs@[from + j] == p@[j],
        decreases p.len() - k,
    {
        if cs[from + k] != p[k] {
            assert(cs@.subrange(from as int, to as int).take(p@.len() as int)[k as int] != p@[k as int]);
            return false;
        }
        k = k + 1;
    }
    assert(cs@.subrange(from as int, to as int).take(p@.len() as int) =~= p@);
    true
}

/// The first position where `p` occurs in `s` (`str::find` with a string
/// pattern).
pub open spec fn find_sub(s: Seq<char>, p: Seq<char>) -> Option<int>
    decreases s.len(),
{
    if starts_with(s, p) {
        Some(0)
    } else if s.len() == 0 {
        None
    } else {
        shift(find_sub(s.skip(1), p), 1)
    }
}

/// The first position of `p` in `cs[from..to]`, as an absolute index.
pub fn find_in(cs: &[char], from: usize, to: usize, p: &[char]) -> (r: Option<usize>)
    requires
        from <= to <= cs@.len(),
    ensures
        match find_sub(cs@.subrange(from as int, to as int), p@) {
            None => r is None,
            Some(i) => r matches Some(x) && x == from + i,
        },
{
    let mut i = from;
    while i < to
        invariant
            from <= i <= to <= cs@.len(),
            find_sub(cs@.subrange(from as int, to as int), p@) == shift(
                find_sub(cs@.subrange(i as int, to as int), p@),
                i - from,
            ),
        decreases to - i,
    {
        if starts_with_in(cs, i, to, p) {
            return Some(i);
        }
        assert(cs@.subrange(i as int, to as int).skip(1) =~= cs@.subrange(i + 1, to as int));
        i = i + 1;
    }
    if starts_with_in(cs, to, to, p) {
        Some(to)
    } else {
        None
    }
}

/// ASCII lower-casing of one character (`char::to_ascii_lowercase`).
pub open spec fn lower_char(c: char) -> char {
    if 'A' <= c && c <= 'Z' {
        ((c as u32) + 32) as char
    } else {
        c
    }
}

/// `str::to_ascii_lowercase`.
pub open spec fn ascii_lower(s: Seq<char>) -> Seq<char> {
    Seq::new(s.len(), |i: int| lower_char(s[i]))
}

pub fn to_lower(c: char) -> (r: char)
    ensures
        r == lower_char(c),
{
    if 'A' <= c && c <= 'Z' {
        ((c as u8) + 32) as char
    } else {
        c
    }
}

/// ASCII lower-casing of `cs[from..to]`.
pub fn lower_range(cs: &[char], from: usize, to: usize) -> (r: Vec<char>)
    requires
        from <= to <= cs@.len(),
    ensures
        r@ == ascii_lower(cs@.subrange(from as int, to as int)),
{
    let mut out: Vec<char> = Vec::new();
    let mut i = from;
    while i < to
        invariant
            from <= i <= to <= cs@.len(),
            out@ == ascii_lower(cs@.subrange(from as int, i as int)),
        decreases to - i,
    {
        out.push(to_lower(cs[i]));
        i = i + 1;
        assert(out@ =~= ascii_lower(cs@.subrange(from as int, i as int)));
    }
    out
}

/// Whether two character slices are equal.
pub fn chars_eq(a: &[char], b: &[char]) -> (r: bool)
    ensures
        r == (a@ == b@),
{
    if a.len() != b.len() {
        return false;
    }
    let mut i: usize = 0;
    while i < a.len()
        invariant
            a@.len() == b@.len(),
            i <= a@.len(),
            forall|k: int| 0 <= k < i ==> a@[k] == b@[k],
        decreases a.len() - i,
    {
        if a[i] != b[i] {
            return false;
        }
        i = i + 1;
    }
    assert(a@ =~= b@);
    true
}

/// Whether two strings are equal.
pub fn str_eq(a: &str, b: &str) -> (r: bool)
    ensures
        r == (a@ == b@),
{
    let x = chars_of(a);
    let y = chars_of(b);
    chars_eq(x.as_slice(), y.as_slice())
}

/// The value of a digit in base `radix` (10 or 16; both letter cases).
pub open spec fn digit_value(c: char, radix: nat) -> Option<nat> {
    if '0' <= c && c <= '9' {
        Some((c as u32 - 48) as nat)
    } else if radix == 16 && 'a' <= c && c <= 'f' {
        Some((c as u32 - 87) as nat)
    } else if radix == 16 && 'A' <= c && c <= 'F' {
        Some((c as u32 - 55) as nat)
    } else {
        None
    }
}

/// Whether every character of `d` is a digit in base `radix`.
pub open spec fn all_digits(d: Seq<char>, radix: nat) -> bool {
    forall|k: int| 0 <= k < d.len() ==> (#[trigger] digit_value(d[k], radix)) is Some
}

/// The number a digit string denotes.
pub open spec fn digits_value(d: Seq<char>, radix: nat) -> nat
    decreases d.len(),
{
    if d.len() == 0 {
        0
    } else {
        digits_value(d.drop_last(), radix) * radix + digit_value(d.last(), radix).unwrap()
    }
}

/// `FromStr` for an unsigned integer type whose largest value is `max`
/// (`from_str_radix` for radix 16): an optional `+`, then at least one digit,
/// and the value must not exceed `max`.
pub open spec fn parse_uint(s: Seq<char>, radix: nat, max: nat) -> Option<nat> {
    let d = if s.len() > 0 && s[0] == '+' {
        s.skip(1)
    } else {
        s
    };
    if d.len() == 0 || !all_digits(d, radix) || digits_value(d, radix) > max {
        None
    } else {
        Some(digits_value(d, radix))
    }
}

proof fn lemma_digits_value_monotone(d: Seq<char>, radix: nat, i: int)
    requires
        0 <= i <= d.len(),
        radix >= 1,
        all_digits(d, radix),
    ensures
        digits_value(d.take(i), radix) <= digits_value(d, radix),
    decreases d.len() - i,
{
    if i < d.len() {
        lemma_digits_value_monotone(d, radix, i + 1);
        let t = d.take(i + 1);
        assert(t.drop_last() =~= d.take(i));
        let v = digits_value(d.take(i), radix);
        assert(digit_value(t.last(), radix) is Some) by {
            assert(t.last() == d[i]);
        }
        assert(v * radix >= v) by (nonlinear_arith)
            requires
                radix >= 1,
        ;
    } else {
        assert(d.take(i) =~= d);
    }
}

/// Parse `cs[from..to]` as an unsigned number in base `radix`, at most `max`.
pub fn parse_uint_in(cs: &[char], from: usize, to: usize, radix: u64, max: u64) -> (r: Option<u64>)
    requires
        from <= to <= cs@.len(),
        radix == 10 || radix == 16,
    ensures
        match parse_uint(cs@.subrange(from as int, to as int), radix as nat, max as nat) {
            None => r is None,
            Some(v) => r == Some(v as u64),
        },
{
    let ghost s = cs@.subrange(from as int, to as int);
    let start = if from < to && cs[from] == '+' {
        from + 1
    } else {
        from
    };
    let ghost d = cs@.subrange(start as int, to as int);
    assert(d =~= (if s.len() > 0 && s[0] == '+' { s.skip(1) } else { s }));
    if start == to {
        return None;
    }
    let mut acc: u128 = 0;
    let mut i = start;
    while i < to
        invariant
            start <= i <= to <= cs@.len(),
            radix == 10 || radix == 16,
            d == cs@.subrange(start as int, to as int),
            s == cs@.subrange(from as int, to as int),
            d == (if s.len() > 0 && s[0] == '+' { s.skip(1) } else { s }),
            all_digits(d.take(i - start), radix as nat),
            acc as nat == digits_value(d.take(i - start), radix as nat),
            acc <= max,
        decreases to - i,
    {
        let c = cs[i];
        let dv: u128 = if '0' <= c && c <= '9' {
            (c as u32 - 48) as u128
        } else if radix == 16 && 'a' <= c && c <= 'f' {
            (c as u32 - 87) as u128
        } else if radix == 16 && 'A' <= c && c <= 'F' {
            (c as u32 - 55) as u128
        } else {
            assert(d[i - start] == c);
            assert(!all_digits(d, radix as nat));
            return None;
        };
        assert(digit_value(c, radix as nat) == Some(dv as nat));
        let ghost t = d.take(i + 1 - start);
        assert(t.drop_last() =~= d.take(i - start));
        assert(t.last() == c);
        assert(acc * (radix as u128) + dv <= 0xffff_ffff_ffff_ffff * 16 + 15) by (nonlinear_arith)
            requires
                acc <= 0xffff_ffff_ffff_ffff,
                radix <= 16,
                dv <= 15,
        ;
        let next = acc * (radix as u128) + dv;
        assert(forall|k: int| 0 <= k < t.len() ==> (#[trigger] digit_value(t[k], radix as nat)) is Some) by {
            assert forall|k: int| 0 <= k < t.len() implies (#[trigger] digit_value(t[k], radix as nat)) is Some by {
                if k < t.len() - 1 {
                    assert(t[k] == d.take(i - start)[k]);
                }
            }
        }
        if next > max as u128 {
            proof {
                // a longer digit string is never smaller; if the rest is not
                // all digits the answer is None anyway
                if all_digits(d, radix as nat) {
                    lemma_digits_value_monotone(d, radix as nat, i + 1 - start);
                }
            }
            return None;
        }
        acc = next;
        i = i + 1;
    }
    assert(d.take(i - start) =~= d);
    Some(acc as u64)
}

/// What `String::from_utf8_lossy` makes of a byte string: the decoding,
/// with each invalid sequence replaced by U+FFFD.
pub uninterp spec fn utf8_lossy(b: Seq<u8>) -> Seq<char>;

/// `String::from_utf8_lossy(..).into_owned()`. Valid UTF-8 decodes exactly;
/// how invalid sequences are replaced is left to the name.
#[verifier::external_body]
pub(crate) fn decode_lossy(b: &[u8]) -> (r: String)
    ensures
        r@ == utf8_lossy(b@),
        valid_utf8(b@) ==> r@ == decode_utf8(b@),
{
    String::from_utf8_lossy(b).into_owned()
}

/// `std::str::from_utf8`, copied into a `String`: succeeds exactly on valid
/// UTF-8, with the decoded characters.
#[verifier::external_body]
pub(crate) fn decode_utf8_exact(b: &[u8]) -> (r: Option<String>)
    ensures
        r is Some <==> valid_utf8(b@),
        r matches Some(s) ==> s@ == decode_utf8(b@),
{
    match std::str::from_utf8(b) {
        Ok(s) => Some(s.to_string()),
        Err(_) => None,
    }
}

/// The first position of a whitespace character.
pub open spec fn index_ws(s: Seq<char>) -> Option<int>
    decreases s.len(),
{
    if s.len() == 0 {
        None
    } else if is_ws(s[0]) {
        Some(0)
    } else {
        shift(index_ws(s.skip(1)), 1)
    }
}

/// `index_ws` finds the first whitespace character, or reports that there
/// is none.
pub proof fn lemma_index_ws(s: Seq<char>)
    ensures
        match index_ws(s) {
            Some(i) => 0 <= i < s.len() && is_ws(s[i]) && forall|k: int| 0 <= k < i ==> !is_ws(s[k]),
            None => forall|k: int| 0 <= k < s.len() ==> !is_ws(s[k]),
        },
    decreases s.len(),
{
    if s.len() > 0 && !is_ws(s[0]) {
        lemma_index_ws(s.skip(1));
        assert forall|k: int| 0 < k < s.len() implies s[k] == s.skip(1)[k - 1] by {}
    }
}

/// The `n`-th whitespace-separated word (`split_whitespace().nth(n)`).
pub open spec fn nth_word(s: Seq<char>, n: nat) -> Option<Seq<char>>
    decreases s.len(),
{
    if s.len() == 0 {
        None
    } else if is_ws(s[0]) {
        nth_word(s.skip(1), n)
    } else {
        let e = match index_ws(s) {
            Some(e) => e,
            None => s.len() as int,
        };
        proof {
            lemma_index_ws(s);
        }
        if n == 0 {
            Some(s.take(e))
        } else {
            nth_word(s.skip(e), (n - 1) as nat)
        }
    }
}

/// The first position of a whitespace character in `cs[from..to]`, or `to`.
pub fn ws_in(cs: &[char], from: usize, to: usize) -> (r: usize)
    requires
        from <= to <= cs@.len(),
    ensures
        from <= r <= to,
        match index_ws(cs@.subrange(from as int, to as int)) {
            Some(i) => r == from + i,
            None => r == to,
        },
{
    let mut i = from;
    while i < to
        invariant
            from <= i <= to <= cs@.len(),
            index_ws(cs@.subrange(from as int, to as int)) == shift(
                index_ws(cs@.subrange(i as int, to as int)),
                i - from,
            ),
        decreases to - i,
    {
        assert(cs@.subrange(i as int, to as int).skip(1) =~= cs@.subrange(i + 1, to as int));
        if is_whitespace(cs[i]) {
            return i;
        }
        i = i + 1;
    }
    i
}

/// The bounds of the `n`-th word of `cs[from..to]`.
pub fn nth_word_in(cs: &[char], from: usize, to: usize, n: usize) -> (r: Option<(usize, usize)>)
    requires
        from <= to <= cs@.len(),
    ensures
        match nth_word(cs@.subrange(from as int, to as int), n as nat) {
            None => r is None,
            Some(w) => r matches Some((a, b)) && from <= a <= b <= to && cs@.subrange(a as int, b as int) == w,
        },
{
    let mut i = from;
    let mut k = n;
    while i < to
        invariant
            from <= i <= to <= cs@.len(),
            nth_word(cs@.subrange(from as int, to as int), n as nat) == nth_word(
                cs@.subrange(i as int, to as int),
                k as nat,
            ),
        decreases to - i,
    {
        let ghost rem = cs@.subrange(i as int, to as int);
        if is_whitespace(cs[i]) {
            assert(rem.skip(1) =~= cs@.subrange(i + 1, to as int));
            i = i + 1;
        } else {
            let e = ws_in(cs, i, to);
            proof {
                lemma_index_ws(rem);
                if e == to {
                    assert(index_ws(rem) is None);
                }
            }
            assert(rem.take(e - i) =~= cs@.subrange(i as int, e as int));
            assert(rem.skip(e - i) =~= cs@.subrange(e as int, to as int));
            if k == 0 {
                return Some((i, e));
            }
            k = k - 1;
            i = e;
        }
    }
    None
}

/// `find_sub` finds the first occurrence of the pattern.
pub proof fn lemma_find_sub(s: Seq<char>, p: Seq<char>)
    ensures
        match find_sub(s, p) {
            Some(i) => 0 <= i && i + p.len() <= s.len() && s.subrange(i, i + p.len()) == p,
            None => true,
        },
    decreases s.len(),
{
    if starts_with(s, p) {
        assert(s.subrange(0, p.len() as int) =~= s.take(p.len() as int));
    } else if s.len() > 0 {
        lemma_find_sub(s.skip(1), p);
        match find_sub(s.skip(1), p) {
            Some(i) => {
                assert(s.subrange(i + 1, i + 1 + p.len()) =~= s.skip(1).subrange(i, i + p.len()));
            },
            None => {},
        }
    }
}

/// An optional string as plain characters.
pub open spec fn opt_view(o: Option<String>) -> Option<Seq<char>> {
    match o {
        Some(s) => Some(s@),
        None => None,
    }
}

/// A result whose error is a message, with the message as plain characters.
pub open spec fn res_view<T>(r: Result<T, String>) -> Result<T, Seq<char>> {
    match r {
        Ok(v) => Ok(v),
        Err(e) => Err(e@),
    }
}

/// Octal rendering of `n`, as `{:o}` formats it.
pub fn fmt_octal(n: u64) -> (r: String)
    ensures
        r@ == spec_digits(n as nat, 8, false),
{
    fmt_radix(n, 8, false)
}

/// Whether `cs[from..to]` is the literal `lit`.
pub fn range_is(cs: &[char], from: usize, to: usize, lit: &str) -> (r: bool)
    requires
        from <= to <= cs@.len(),
    ensures
        r == (cs@.subrange(from as int, to as int) == lit@),
{
    let p = chars_of(lit);
    if p.len() != to - from {
        return false;
    }
    let b = starts_with_in(cs, from, to, p.as_slice());
    assert(cs@.subrange(from as int, to as int).take(p@.len() as int) =~= cs@.subrange(
        from as int,
        to as int,
    ));
    b
}

/// Whether `cs` is the literal `lit`.
pub fn is_lit(cs: &[char], lit: &str) -> (r: bool)
    ensures
        r == (cs@ == lit@),
{
    assert(cs@.subrange(0, cs@.len() as int) =~= cs@);
    range_is(cs, 0, cs.len(), lit)
}

/// What `{:?}` prints for a string: the text between double quotes, each
/// character escaped as `char::escape_debug` does.
pub uninterp spec fn debug_quoted(s: Seq<char>) -> Seq<char>;

/// `format!("{:?}", s)`, the `Debug` rendering of a string slice.
#[verifier::external_body]
pub(crate) fn quote_debug(s: &str) -> (r: String)
    ensures
        r@ == debug_quoted(s@),
{
    format!("{:?}", s)
}

/// The order of `str`'s `Ord`: lexicographic by code point, a proper prefix
/// first.
pub open spec fn str_le(a: Seq<char>, b: Seq<char>) -> bool
    decreases a.len(),
{
    if a.len() == 0 {
        true
    } else if b.len() == 0 {
        false
    } else if a[0] != b[0] {
        a[0] < b[0]
    } else {
        str_le(a.skip(1), b.skip(1))
    }
}

/// `str_le` as a relation.
pub open spec fn str_order() -> spec_fn(Seq<char>, Seq<char>) -> bool {
    |a: Seq<char>, b: Seq<char>| str_le(a, b)
}

proof fn lemma_str_le_reflexive(a: Seq<char>)
    ensures
        str_le(a, a),
    decreases a.len(),
{
    if a.len() > 0 {
        lemma_str_le_reflexive(a.skip(1));
    }
}

proof fn lemma_str_le_antisymmetric(a: Seq<char>, b: Seq<char>)
    requires
        str_le(a, b),
        str_le(b, a),
    ensures
        a == b,
    decreases a.len(),
{
    if a.len() == 0 {
        assert(b.len() == 0);
        assert(a =~= b);
    } else {
        assert(a[0] == b[0]);
        lemma_str_le_antisymmetric(a.skip(1), b.skip(1));
        assert(a =~= seq![a[0]] + a.skip(1));
        assert(b =~= seq![b[0]] + b.skip(1));
    }
}

proof fn lemma_str_le_transitive(a: Seq<char>, b: Seq<char>, c: Seq<char>)
    requires
        str_le(a, b),
        str_le(b, c),
    ensures
        str_le(a, c),
    decreases a.len(),
{
    if a.len() > 0 && b.len() > 0 && c.len() > 0 && a[0] == b[0] && b[0] == c[0] {
        lemma_str_le_transitive(a.skip(1), b.skip(1), c.skip(1));
    }
}

proof fn lemma_str_le_total(a: Seq<char>, b: Seq<char>)
    ensures
        str_le(a, b) || str_le(b, a),
    decreases a.len(),
{
    if a.len() > 0 && b.len() > 0 {
        if a[0] == b[0] {
            lemma_str_le_total(a.skip(1), b.skip(1));
        }
    }
}

/// `str_le` is a total order.
pub proof fn lemma_str_order_total()
    ensures
        vstd::relations::total_ordering(str_order()),
{
    let r = str_order();
    assert forall|x: Seq<char>| #[trigger] r(x, x) by {
        lemma_str_le_reflexive(x);
    }
    assert forall|x: Seq<char>, y: Seq<char>| #[trigger] r(x, y) && #[trigger] r(y, x) implies x == y by {
        lemma_str_le_antisymmetric(x, y);
    }
    assert forall|x: Seq<char>, y: Seq<char>, z: Seq<char>| #[trigger] r(x, y) && #[trigger] r(
        y,
        z,
    ) implies r(x, z) by {
        lemma_str_le_transitive(x, y, z);
    }
    assert forall|x: Seq<char>, y: Seq<char>| #[trigger] r(x, y) || #[trigger] r(y, x) by {
        lemma_str_le_total(x, y);
    }
}

/// Whether `a` comes no later than `b` in `str` order.
pub fn str_le_exec(a: &str, b: &str) -> (r: bool)
    ensures
        r == str_le(a@, b@),
{
    let x = chars_of(a);
    let y = chars_of(b);
    let mut i: usize = 0;
    assert(x@.skip(0) =~= x@);
    assert(y@.skip(0) =~= y@);
    while i < x.len() && i < y.len() && x[i] == y[i]
        invariant
            i <= x@.len(),
            i <= y@.len(),
            str_le(a@, b@) == str_le(x@.skip(i as int), y@.skip(i as int)),
            x@ == a@,
            y@ == b@,
        decreases x.len() - i,
    {
        assert(x@.skip(i as int).skip(1) =~= x@.skip(i + 1));
        assert(y@.skip(i as int).skip(1) =~= y@.skip(i + 1));
        i = i + 1;
    }
    if i == x.len() {
        true
    } else if i == y.len() {
        false
    } else {
        x[i] < y[i]
    }
}

} // verus!
