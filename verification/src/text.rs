//! Character-level text handling shared by the parsers and SQL builders:
//! decimal rendering and parsing of integers, whitespace trimming, splitting,
//! suffix tests and SQL quoting, all stated over character sequences.
use vstd::prelude::*;

verus! {

/// The characters of a string slice, in order.
pub fn chars_of(s: &str) -> (v: Vec<char>)
    ensures
        v@ == s@,
{
    let mut v: Vec<char> = Vec::new();
    for c in it: s.chars()
        invariant
            it.seq() == s@,
            v@ == it.seq().take(it.index()),
    {
        proof {
            assert(it.seq().take(it.index() + 1) =~= v@.push(c));
        }
        v.push(c);
    }
    proof {
        assert(v@ =~= s@);
    }
    v
}

/// `String::push`: appends one character to a string.
#[verifier::external_body]
fn push_char(s: &mut String, c: char)
    ensures
        final(s)@ == old(s)@.push(c),
{
    s.push(c);
}

/// Builds a string from its characters.
pub fn string_from_chars(v: &Vec<char>) -> (s: String)
    ensures
        s@ == v@,
{
    let mut s = String::new();
    let n = v.len();
    let mut i: usize = 0;
    while i < n
        invariant
            n == v@.len(),
            i <= n,
            s@ == v@.take(i as int),
        decreases n - i,
    {
        proof {
            assert(v@.take(i as int + 1) =~= v@.take(i as int).push(v@[i as int]));
        }
        push_char(&mut s, v[i]);
        i = i + 1;
    }
    proof {
        assert(v@.take(n as int) =~= v@);
    }
    s
}


/// Appends the characters of a string slice.
pub fn push_str(out: &mut Vec<char>, s: &str)
    ensures
        final(out)@ == old(out)@ + s@,
{
    let mut cs = chars_of(s);
    out.append(&mut cs);
}

/// Appends a copy of a character sequence.
pub fn push_chars(out: &mut Vec<char>, s: &Vec<char>)
    ensures
        final(out)@ == old(out)@ + s@,
{
    let n = s.len();
    let mut i: usize = 0;
    let ghost o = out@;
    while i < n
        invariant
            n == s@.len(),
            i <= n,
            out@ == o + s@.take(i as int),
        decreases n - i,
    {
        proof {
            assert(s@.take(i as int + 1) =~= s@.take(i as int).push(s@[i as int]));
        }
        out.push(s[i]);
        i = i + 1;
    }
    proof {
        assert(s@.take(n as int) =~= s@);
    }
}

/// A copy of the characters `v[lo..hi]`.
pub fn slice_chars(v: &Vec<char>, lo: usize, hi: usize) -> (r: Vec<char>)
    requires
        lo <= hi <= v@.len(),
    ensures
        r@ == v@.subrange(lo as int, hi as int),
{
    let mut r: Vec<char> = Vec::new();
    let mut i: usize = lo;
    while i < hi
        invariant
            lo <= i <= hi,
            hi <= v@.len(),
            r@ == v@.subrange(lo as int, i as int),
        decreases hi - i,
    {
        proof {
            assert(v@.subrange(lo as int, i as int + 1) =~= v@.subrange(lo as int, i as int).push(
                v@[i as int],
            ));
        }
        r.push(v[i]);
        i = i + 1;
    }
    r
}

/// Character-sequence equality.
pub fn chars_eq(a: &Vec<char>, b: &Vec<char>) -> (r: bool)
    ensures
        r == (a@ == b@),
{
    if a.len() != b.len() {
        return false;
    }
    let n = a.len();
    let mut i: usize = 0;
    while i < n
        invariant
            n == a@.len(),
            n == b@.len(),
            i <= n,
            forall|k: int| 0 <= k < i ==> a@[k] == b@[k],
        decreases n - i,
    {
        if a[i] != b[i] {
            return false;
        }
        i = i + 1;
    }
    proof {
        assert(a@ =~= b@);
    }
    true
}

/// Equality of a character sequence with a string slice.
pub fn chars_eq_str(a: &Vec<char>, b: &str) -> (r: bool)
    ensures
        r == (a@ == b@),
{
    let bc = chars_of(b);
    chars_eq(a, &bc)
}

// ---------------------------------------------------------------------------
// Decimal numbers
// ---------------------------------------------------------------------------

/// The ASCII digit for `d < 10`.
pub open spec fn digit_char(d: nat) -> char {
    seq!['0', '1', '2', '3', '4', '5', '6', '7', '8', '9'][d as int]
}

/// The decimal rendering of a natural number, without leading zeros.
pub open spec fn decimal_digits(n: nat) -> Seq<char>
    decreases n,
{
    if n < 10 {
        seq![digit_char(n)]
    } else {
        decimal_digits(n / 10).push(digit_char(n % 10))
    }
}

/// The decimal rendering of an integer, with a leading `-` when negative.
pub open spec fn int_text(i: int) -> Seq<char> {
    if i < 0 {
        seq!['-'] + decimal_digits((-i) as nat)
    } else {
        decimal_digits(i as nat)
    }
}

fn digit_of(d: u128) -> (c: char)
    requires
        d < 10,
    ensures
        c == digit_char(d as nat),
{
    match d {
        0 => '0',
        1 => '1',
        2 => '2',
        3 => '3',
        4 => '4',
        5 => '5',
        6 => '6',
        7 => '7',
        8 => '8',
        _ => '9',
    }
}

/// Appends the decimal rendering of `n`.
pub fn push_decimal(out: &mut Vec<char>, n: u128)
    ensures
        final(out)@ == old(out)@ + decimal_digits(n as nat),
    decreases n,
{
    if n >= 10 {
        push_decimal(out, n / 10);
    }
    out.push(digit_of(n % 10));
    proof {
        assert(old(out)@ + decimal_digits(n as nat) =~= (if n >= 10 {
            old(out)@ + decimal_digits((n / 10) as nat)
        } else {
            old(out)@
        }).push(digit_char((n % 10) as nat)));
    }
}

/// Appends the decimal rendering of a signed 64-bit integer.
pub fn push_i64(out: &mut Vec<char>, i: i64)
    ensures
        final(out)@ == old(out)@ + int_text(i as int),
{
    if i < 0 {
        out.push('-');
        let m: u128 = (0i128 - i as i128) as u128;
        push_decimal(out, m);
        proof {
            assert(old(out)@ + int_text(i as int) =~= old(out)@.push('-') + decimal_digits(
                m as nat,
            ));
        }
    } else {
        push_decimal(out, i as u128);
    }
}

/// The decimal rendering of an unsigned 128-bit integer.
pub fn u128_to_text(n: u128) -> (s: String)
    ensures
        s@ == decimal_digits(n as nat),
{
    let mut out: Vec<char> = Vec::new();
    push_decimal(&mut out, n);
    proof {
        assert(out@ =~= decimal_digits(n as nat));
    }
    string_from_chars(&out)
}

/// The decimal rendering of a signed 64-bit integer.
pub fn i64_to_text(i: i64) -> (s: String)
    ensures
        s@ == int_text(i as int),
{
    let mut out: Vec<char> = Vec::new();
    push_i64(&mut out, i);
    proof {
        assert(out@ =~= int_text(i as int));
    }
    string_from_chars(&out)
}

/// `c` is one of `0` to `9`.
pub open spec fn is_ascii_digit(c: char) -> bool {
    '0' <= c && c <= '9'
}

/// The value of a digit character.
pub open spec fn digit_value(c: char) -> nat {
    ((c as int) - ('0' as int)) as nat
}

/// The value of a string of decimal digits (most significant first).
pub open spec fn digits_value(s: Seq<char>) -> nat
    decreases s.len(),
{
    if s.len() == 0 {
        0
    } else {
        digits_value(s.drop_last()) * 10 + digit_value(s.last())
    }
}

/// Every character is a decimal digit.
pub open spec fn all_digits(s: Seq<char>) -> bool {
    forall|i: int| 0 <= i < s.len() ==> is_ascii_digit(#[trigger] s[i])
}

/// The value of the non-empty all-digit text `s`, when it is at most `cap`.
pub open spec fn bounded_digits(s: Seq<char>, cap: nat) -> Option<nat> {
    if s.len() > 0 && all_digits(s) && digits_value(s) <= cap {
        Some(digits_value(s))
    } else {
        None
    }
}

proof fn lemma_digits_value_grows(s: Seq<char>, c: char)
    requires
        is_ascii_digit(c),
    ensures
        digits_value(s.push(c)) == digits_value(s) * 10 + digit_value(c),
        digits_value(s.push(c)) >= digits_value(s),
{
    assert(s.push(c).drop_last() =~= s);
}

/// Reads the digits `v[start..]` as a decimal number no larger than `cap`.
pub fn scan_digits(v: &Vec<char>, start: usize, cap: u128) -> (r: Option<u128>)
    requires
        start <= v@.len(),
    ensures
        match bounded_digits(v@.skip(start as int), cap as nat) {
            Some(n) => r == Some(n as u128),
            None => r.is_none(),
        },
{
    let ghost body = v@.skip(start as int);
    let n = v.len();
    if start >= n {
        return None;
    }
    let mut acc: Option<u128> = Some(0);
    let mut i: usize = start;
    proof {
        assert(body.take(0) =~= Seq::<char>::empty());
    }
    while i < n
        invariant
            start <= i <= n,
            n == v@.len(),
            body == v@.skip(start as int),
            all_digits(body.take(i - start)),
            match acc {
                Some(a) => a as nat == digits_value(body.take(i - start)),
                None => digits_value(body.take(i - start)) > u128::MAX,
            },
        decreases n - i,
    {
        let c = v[i];
        if !('0' <= c && c <= '9') {
            proof {
                assert(body[i - start] == c);
                assert(!all_digits(body));
            }
            return None;
        }
        let d: u128 = ((c as u32) - ('0' as u32)) as u128;
        let ghost pre = body.take(i - start);
        proof {
            assert(body.take(i - start + 1) =~= pre.push(c));
            lemma_digits_value_grows(pre, c);
        }
        acc = match acc {
            Some(a) => match a.checked_mul(10) {
                Some(b) => b.checked_add(d),
                None => None,
            },
            None => None,
        };
        i = i + 1;
    }
    proof {
        assert(body.take(n - start) =~= body);
    }
    match acc {
        Some(a) => {
            if a <= cap {
                Some(a)
            } else {
                None
            }
        },
        None => None,
    }
}

/// Rust's decimal parse of a signed integer in `[-2^(bits-1), 2^(bits-1))`:
/// an optional `+` or `-` followed by at least one digit, nothing else.
pub open spec fn parse_signed_spec(s: Seq<char>, half: nat) -> Option<int> {
    if s.len() == 0 {
        None
    } else if s[0] == '-' {
        match bounded_digits(s.skip(1), half) {
            Some(v) => Some(-v),
            None => None,
        }
    } else if s[0] == '+' {
        match bounded_digits(s.skip(1), (half - 1) as nat) {
            Some(v) => Some(v as int),
            None => None,
        }
    } else {
        match bounded_digits(s, (half - 1) as nat) {
            Some(v) => Some(v as int),
            None => None,
        }
    }
}

/// `str::parse::<i32>` on the text `s`.
pub open spec fn parse_i32_spec(s: Seq<char>) -> Option<i32> {
    match parse_signed_spec(s, 0x8000_0000) {
        Some(v) => Some(v as i32),
        None => None,
    }
}

/// `str::parse::<i64>` on the text `s`.
pub open spec fn parse_i64_spec(s: Seq<char>) -> Option<i64> {
    match parse_signed_spec(s, 0x8000_0000_0000_0000) {
        Some(v) => Some(v as i64),
        None => None,
    }
}

fn parse_signed(v: &Vec<char>, half: u128) -> (r: Option<i128>)
    requires
        1 <= half <= 0x8000_0000_0000_0000,
    ensures
        match parse_signed_spec(v@, half as nat) {
            Some(x) => r == Some(x as i128),
            None => r.is_none(),
        },
{
    if v.len() == 0 {
        return None;
    }
    if v[0] == '-' {
        match scan_digits(v, 1, half) {
            Some(m) => Some(0i128 - m as i128),
            None => None,
        }
    } else if v[0] == '+' {
        match scan_digits(v, 1, half - 1) {
            Some(m) => Some(m as i128),
            None => None,
        }
    } else {
        proof {
            assert(v@.skip(0) =~= v@);
        }
        match scan_digits(v, 0, half - 1) {
            Some(m) => Some(m as i128),
            None => None,
        }
    }
}

/// Decimal parse of a 32-bit signed integer, as `str::parse::<i32>` does it.
pub fn parse_i32(v: &Vec<char>) -> (r: Option<i32>)
    ensures
        r == parse_i32_spec(v@),
{
    match parse_signed(v, 0x8000_0000) {
        Some(x) => Some(x as i32),
        None => None,
    }
}

/// Decimal parse of a 64-bit signed integer, as `str::parse::<i64>` does it.
pub fn parse_i64(v: &Vec<char>) -> (r: Option<i64>)
    ensures
        r == parse_i64_spec(v@),
{
    match parse_signed(v, 0x8000_0000_0000_0000) {
        Some(x) => Some(x as i64),
        None => None,
    }
}

/// `u128::from_str_radix(s, 10)`: an optional `+` followed by at least one
/// digit, with a value that fits in 128 bits.
pub open spec fn parse_u128_spec(s: Seq<char>) -> Option<u128> {
    let body = if s.len() > 0 && s[0] == '+' {
        s.skip(1)
    } else {
        s
    };
    match bounded_digits(body, u128::MAX as nat) {
        Some(v) => Some(v as u128),
        None => None,
    }
}

/// Decimal parse of an unsigned 128-bit integer, as `u128::from_str_radix`
/// with radix 10 does it.
pub fn parse_u128(v: &Vec<char>) -> (r: Option<u128>)
    ensures
        r == parse_u128_spec(v@),
{
    if v.len() > 0 && v[0] == '+' {
        scan_digits(v, 1, u128::MAX)
    } else {
        proof {
            assert(v@.skip(0) =~= v@);
        }
        scan_digits(v, 0, u128::MAX)
    }
}

// ---------------------------------------------------------------------------
// Whitespace, splitting and suffixes
// ---------------------------------------------------------------------------

/// Unicode `White_Space`, the property that `char::is_whitespace` tests.
pub open spec fn is_white_space(c: char) -> bool {
    let u = c as u32;
    (0x09 <= u && u <= 0x0D) || u == 0x20 || u == 0x85 || u == 0xA0 || u == 0x1680 || (0x2000 <= u
        && u <= 0x200A) || u == 0x2028 || u == 0x2029 || u == 0x202F || u == 0x205F || u == 0x3000
}

/// Tests for Unicode `White_Space`.
pub fn white_space(c: char) -> (r: bool)
    ensures
        r == is_white_space(c),
{
    let u = c as u32;
    (0x09 <= u && u <= 0x0D) || u == 0x20 || u == 0x85 || u == 0xA0 || u == 0x1680 || (0x2000 <= u
        && u <= 0x200A) || u == 0x2028 || u == 0x2029 || u == 0x202F || u == 0x205F || u == 0x3000
}

/// `s` without its leading white space.
pub open spec fn trim_start_spec(s: Seq<char>) -> Seq<char>
    decreases s.len(),
{
    if s.len() > 0 && is_white_space(s[0]) {
        trim_start_spec(s.skip(1))
    } else {
        s
    }
}

/// `s` without its trailing white space.
pub open spec fn trim_end_spec(s: Seq<char>) -> Seq<char>
    decreases s.len(),
{
    if s.len() > 0 && is_white_space(s.last()) {
        trim_end_spec(s.drop_last())
    } else {
        s
    }
}

/// `str::trim`: `s` without leading and trailing white space.
pub open spec fn trim_spec(s: Seq<char>) -> Seq<char> {
    trim_end_spec(trim_start_spec(s))
}

/// `str::trim` on a character sequence.
pub fn trim_chars(v: &Vec<char>) -> (r: Vec<char>)
    ensures
        r@ == trim_spec(v@),
{
    let n = v.len();
    let mut lo: usize = 0;
    proof {
        assert(v@.skip(0) =~= v@);
    }
    while lo < n && white_space(v[lo])
        invariant
            lo <= n,
            n == v@.len(),
            trim_start_spec(v@) == trim_start_spec(v@.skip(lo as int)),
        decreases n - lo,
    {
        proof {
            assert(v@.skip(lo as int).skip(1) =~= v@.skip(lo as int + 1));
        }
        lo = lo + 1;
    }
    proof {
        assert(trim_start_spec(v@.skip(lo as int)) == v@.skip(lo as int));
        assert(v@.skip(lo as int) =~= v@.subrange(lo as int, n as int));
    }
    let mut hi: usize = n;
    while hi > lo && white_space(v[hi - 1])
        invariant
            lo <= hi <= n,
            n == v@.len(),
            trim_spec(v@) == trim_end_spec(v@.subrange(lo as int, hi as int)),
        decreases hi,
    {
        proof {
            assert(v@.subrange(lo as int, hi as int).drop_last() =~= v@.subrange(
                lo as int,
                hi - 1,
            ));
        }
        hi = hi - 1;
    }
    slice_chars(v, lo, hi)
}

/// `s` ends with `suffix`.
pub open spec fn ends_with_spec(s: Seq<char>, suffix: Seq<char>) -> bool {
    s.len() >= suffix.len() && s.skip(s.len() - suffix.len()) == suffix
}

/// Tests whether `v` ends with `suffix`.
pub fn ends_with(v: &Vec<char>, suffix: &Vec<char>) -> (r: bool)
    ensures
        r == ends_with_spec(v@, suffix@),
{
    let n = v.len();
    let m = suffix.len();
    if n < m {
        return false;
    }
    let tail = slice_chars(v, n - m, n);
    proof {
        assert(v@.subrange(n - m, n as int) =~= v@.skip(n - m));
    }
    chars_eq(&tail, suffix)
}

/// `str::trim_end_matches` with a non-empty text pattern: `s` with every
/// trailing repetition of `pat` removed.
pub open spec fn trim_end_matches_spec(s: Seq<char>, pat: Seq<char>) -> Seq<char>
    decreases s.len(),
{
    if pat.len() > 0 && ends_with_spec(s, pat) {
        trim_end_matches_spec(s.take(s.len() - pat.len()), pat)
    } else {
        s
    }
}

/// `str::trim_end_matches` with a non-empty text pattern.
pub fn trim_end_matches(v: &Vec<char>, pat: &Vec<char>) -> (r: Vec<char>)
    ensures
        r@ == trim_end_matches_spec(v@, pat@),
{
    let mut cur = slice_chars(v, 0, v.len());
    proof {
        assert(cur@ =~= v@);
    }
    if pat.len() == 0 {
        return cur;
    }
    while ends_with(&cur, pat)
        invariant
            pat@.len() > 0,
            trim_end_matches_spec(v@, pat@) == trim_end_matches_spec(cur@, pat@),
        decreases cur@.len(),
    {
        let k = cur.len() - pat.len();
        let next = slice_chars(&cur, 0, k);
        proof {
            assert(cur@.subrange(0, k as int) =~= cur@.take(k as int));
        }
        cur = next;
    }
    cur
}

/// `str::split` on one character: the pieces between the separators, in
/// order; text without a separator is one piece.
pub open spec fn split_spec(s: Seq<char>, sep: char) -> Seq<Seq<char>>
    decreases s.len(),
{
    if s.len() == 0 {
        seq![Seq::empty()]
    } else {
        let prev = split_spec(s.drop_last(), sep);
        if s.last() == sep {
            prev.push(Seq::empty())
        } else {
            prev.update(prev.len() - 1, prev.last().push(s.last()))
        }
    }
}

pub(crate) proof fn lemma_split_nonempty(s: Seq<char>, sep: char)
    ensures
        split_spec(s, sep).len() >= 1,
    decreases s.len(),
{
    if s.len() > 0 {
        lemma_split_nonempty(s.drop_last(), sep);
    }
}

/// The views of a list of character vectors.
pub open spec fn seqs_view(v: Seq<Vec<char>>) -> Seq<Seq<char>> {
    v.map_values(|x: Vec<char>| x@)
}

/// `str::split` on one character.
pub fn split_chars(v: &Vec<char>, sep: char) -> (r: Vec<Vec<char>>)
    ensures
        seqs_view(r@) == split_spec(v@, sep),
{
    let mut pieces: Vec<Vec<char>> = Vec::new();
    let mut cur: Vec<char> = Vec::new();
    let n = v.len();
    let mut i: usize = 0;
    proof {
        assert(v@.take(0) =~= Seq::<char>::empty());
        assert(seqs_view(pieces@).push(cur@) =~= split_spec(v@.take(0), sep));
    }
    while i < n
        invariant
            i <= n,
            n == v@.len(),
            seqs_view(pieces@).push(cur@) == split_spec(v@.take(i as int), sep),
        decreases n - i,
    {
        let c = v[i];
        let ghost pre = v@.take(i as int);
        proof {
            assert(v@.take(i as int + 1).drop_last() =~= pre);
            lemma_split_nonempty(pre, sep);
        }
        if c == sep {
            let done = cur;
            proof {
                assert(seqs_view(pieces@.push(done)) =~= seqs_view(pieces@).push(done@));
            }
            pieces.push(done);
            cur = Vec::new();
            proof {
                assert(seqs_view(pieces@).push(cur@) =~= split_spec(v@.take(i as int + 1), sep));
            }
        } else {
            let ghost old_cur = cur@;
            cur.push(c);
            proof {
                assert(seqs_view(pieces@).push(cur@) =~= split_spec(v@.take(i as int + 1), sep));
            }
        }
        i = i + 1;
    }
    proof {
        assert(v@.take(n as int) =~= v@);
        assert(seqs_view(pieces@.push(cur)) =~= seqs_view(pieces@).push(cur@));
    }
    pieces.push(cur);
    pieces
}

// ---------------------------------------------------------------------------
// SQL quoting
// ---------------------------------------------------------------------------

/// `s` with every `q` doubled: the body of a SQL literal or identifier quoted
/// with `q`.
pub open spec fn double_char(s: Seq<char>, q: char) -> Seq<char>
    decreases s.len(),
{
    if s.len() == 0 {
        Seq::empty()
    } else {
        let prev = double_char(s.drop_last(), q);
        if s.last() == q {
            prev.push(q).push(q)
        } else {
            prev.push(s.last())
        }
    }
}

/// Appends `s` with every `q` doubled.
pub fn push_doubled(out: &mut Vec<char>, s: &Vec<char>, q: char)
    ensures
        final(out)@ == old(out)@ + double_char(s@, q),
{
    let n = s.len();
    let mut i: usize = 0;
    let ghost o = out@;
    proof {
        assert(s@.take(0) =~= Seq::<char>::empty());
        assert(o + double_char(Seq::<char>::empty(), q) =~= o);
    }
    while i < n
        invariant
            n == s@.len(),
            i <= n,
            out@ == o + double_char(s@.take(i as int), q),
        decreases n - i,
    {
        let c = s[i];
        proof {
            assert(s@.take(i as int + 1).drop_last() =~= s@.take(i as int));
        }
        out.push(c);
        if c == q {
            out.push(q);
        }
        proof {
            assert(out@ =~= o + double_char(s@.take(i as int + 1), q));
        }
        i = i + 1;
    }
    proof {
        assert(s@.take(n as int) =~= s@);
    }
}

// ---------------------------------------------------------------------------
// Replacing and joining
// ---------------------------------------------------------------------------

/// `str::replace` with a non-empty pattern: every occurrence of `pat`,
/// found from the left without overlapping, replaced by `with`.
pub open spec fn replace_spec(s: Seq<char>, pat: Seq<char>, with: Seq<char>) -> Seq<char>
    decreases s.len(),
{
    if s.len() == 0 || pat.len() == 0 {
        s
    } else if pat.len() <= s.len() && s.take(pat.len() as int) == pat {
        with + replace_spec(s.skip(pat.len() as int), pat, with)
    } else {
        seq![s[0]] + replace_spec(s.skip(1), pat, with)
    }
}

/// Replaces every occurrence of `pat` (non-empty) in `s` by `with`.
pub fn replace_chars(s: &Vec<char>, pat: &Vec<char>, with: &Vec<char>) -> (r: Vec<char>)
    ensures
        r@ == replace_spec(s@, pat@, with@),
{
    let n = s.len();
    let m = pat.len();
    let mut out: Vec<char> = Vec::new();
    if m == 0 {
        push_chars(&mut out, s);
        proof {
            assert(out@ =~= s@);
        }
        return out;
    }
    let mut i: usize = 0;
    proof {
        assert(s@.skip(0) =~= s@);
        assert(out@ + replace_spec(s@.skip(0), pat@, with@) =~= replace_spec(s@, pat@, with@));
    }
    while i < n
        invariant
            n == s@.len(),
            m == pat@.len(),
            m > 0,
            i <= n,
            out@ + replace_spec(s@.skip(i as int), pat@, with@) == replace_spec(s@, pat@, with@),
        decreases n - i,
    {
        let ghost rest = s@.skip(i as int);
        let mut matched = false;
        if m <= n - i {
            let mut j: usize = 0;
            while j < m && s[i + j] == pat[j]
                invariant
                    n == s@.len(),
                    m == pat@.len(),
                    i + m <= n,
                    j <= m,
                    forall|k: int| 0 <= k < j ==> s@[i + k] == pat@[k],
                decreases m - j,
            {
                j = j + 1;
            }
            matched = j == m;
            proof {
                if matched {
                    assert(rest.take(m as int) =~= pat@);
                } else {
                    assert(rest.take(m as int) != pat@) by {
                        let k = j as int;
                        assert(rest.take(m as int)[k] == s@[i + k]);
                    }
                }
            }
        }
        if matched {
            proof {
                assert(rest.skip(m as int) =~= s@.skip(i + m));
                assert(out@ + with@ + replace_spec(s@.skip(i + m), pat@, with@) =~= out@ + replace_spec(rest, pat@, with@));
            }
            push_chars(&mut out, with);
            i = i + m;
        } else {
            proof {
                assert(rest.skip(1) =~= s@.skip(i + 1));
                assert(rest[0] == s@[i as int]);
                assert(out@.push(s@[i as int]) + replace_spec(s@.skip(i + 1), pat@, with@) =~= out@ + replace_spec(rest, pat@, with@));
            }
            out.push(s[i]);
            i = i + 1;
        }
    }
    proof {
        assert(s@.skip(n as int) =~= Seq::<char>::empty());
        assert(out@ =~= out@ + replace_spec(s@.skip(n as int), pat@, with@));
    }
    out
}

/// The pieces joined with `sep` between them, as `[T]::join` does it.
pub open spec fn join_spec(parts: Seq<Seq<char>>, sep: Seq<char>) -> Seq<char>
    decreases parts.len(),
{
    if parts.len() == 0 {
        Seq::empty()
    } else if parts.len() == 1 {
        parts[0]
    } else {
        join_spec(parts.drop_last(), sep) + sep + parts.last()
    }
}

/// Joins the pieces with `sep` between them.
pub fn join_chars(parts: &Vec<Vec<char>>, sep: &str) -> (r: Vec<char>)
    ensures
        r@ == join_spec(seqs_view(parts@), sep@),
{
    let n = parts.len();
    let mut out: Vec<char> = Vec::new();
    let mut i: usize = 0;
    let ghost pv = seqs_view(parts@);
    while i < n
        invariant
            n == parts@.len(),
            pv == seqs_view(parts@),
            i <= n,
            out@ == join_spec(pv.take(i as int), sep@),
        decreases n - i,
    {
        proof {
            assert(pv.take(i + 1).drop_last() =~= pv.take(i as int));
            assert(pv.take(i + 1).last() == parts@[i as int]@);
        }
        if i > 0 {
            push_str(&mut out, sep);
        }
        push_chars(&mut out, &parts[i]);
        proof {
            if i == 0 {
                assert(out@ =~= join_spec(pv.take(1), sep@));
            }
        }
        i = i + 1;
    }
    proof {
        assert(pv.take(n as int) =~= pv);
    }
    out
}

} // verus!
