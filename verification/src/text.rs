use vstd::prelude::*;

verus! {

/// The pieces of `s` between occurrences of `sep`, as `str::split` yields them
/// (an empty input gives one empty piece).
pub open spec fn split_on(s: Seq<char>, sep: char) -> Seq<Seq<char>>
    decreases s.len(),
{
    if s.len() == 0 {
        seq![Seq::<char>::empty()]
    } else {
        let prev = split_on(s.drop_last(), sep);
        if s.last() == sep {
            prev.push(Seq::<char>::empty())
        } else {
            prev.update(prev.len() - 1, prev.last().push(s.last()))
        }
    }
}

pub proof fn lemma_split_on_nonempty(s: Seq<char>, sep: char)
    ensures
        split_on(s, sep).len() >= 1,
    decreases s.len(),
{
    if s.len() > 0 {
        lemma_split_on_nonempty(s.drop_last(), sep);
    }
}

pub open spec fn is_ascii_alpha(c: char) -> bool {
    ('a' <= c && c <= 'z') || ('A' <= c && c <= 'Z')
}

pub open spec fn is_ascii_digit(c: char) -> bool {
    '0' <= c && c <= '9'
}

pub open spec fn is_ascii_alnum(c: char) -> bool {
    is_ascii_alpha(c) || is_ascii_digit(c)
}

pub open spec fn is_ascii_hex(c: char) -> bool {
    is_ascii_digit(c) || ('a' <= c && c <= 'f') || ('A' <= c && c <= 'F')
}

pub open spec fn is_lower_hex(c: char) -> bool {
    is_ascii_digit(c) || ('a' <= c && c <= 'f')
}

pub fn ascii_alpha(c: char) -> (b: bool)
    ensures
        b == is_ascii_alpha(c),
{
    ('a' <= c && c <= 'z') || ('A' <= c && c <= 'Z')
}

pub fn ascii_digit(c: char) -> (b: bool)
    ensures
        b == is_ascii_digit(c),
{
    '0' <= c && c <= '9'
}

pub fn ascii_alnum(c: char) -> (b: bool)
    ensures
        b == is_ascii_alnum(c),
{
    ascii_alpha(c) || ascii_digit(c)
}

pub fn ascii_hex(c: char) -> (b: bool)
    ensures
        b == is_ascii_hex(c),
{
    ascii_digit(c) || ('a' <= c && c <= 'f') || ('A' <= c && c <= 'F')
}

pub fn lower_hex(c: char) -> (b: bool)
    ensures
        b == is_lower_hex(c),
{
    ascii_digit(c) || ('a' <= c && c <= 'f')
}

/// Collects the characters of `s` into a vector.
pub fn chars_of(s: &str) -> (v: Vec<char>)
    ensures
        v@ == s@,
{
    let mut v: Vec<char> = Vec::new();
    for c in it: s.chars()
        invariant
            v@ == it.seq().take(it.index() as int),
    {
        v.push(c);
    }
    v
}

/// The character views of a sequence of character vectors.
pub open spec fn views(v: Seq<Vec<char>>) -> Seq<Seq<char>> {
    v.map_values(|x: Vec<char>| x@)
}

/// Splits a character sequence at every `sep`.
pub fn split_chars(s: &Vec<char>, sep: char) -> (r: Vec<Vec<char>>)
    ensures
        views(r@) == split_on(s@, sep),
{
    let mut done: Vec<Vec<char>> = Vec::new();
    let mut cur: Vec<char> = Vec::new();
    let mut i: usize = 0;
    while i < s.len()
        invariant
            i <= s.len(),
            views(done@).push(cur@) == split_on(s@.take(i as int), sep),
        decreases s.len() - i,
    {
        let c = s[i];
        proof {
            assert(s@.take(i + 1).drop_last() == s@.take(i as int));
            lemma_split_on_nonempty(s@.take(i as int), sep);
        }
        if c == sep {
            let ghost before = views(done@);
            let finished = cur;
            let ghost fin = finished@;
            done.push(finished);
            cur = Vec::new();
            assert(views(done@) =~= before.push(fin));
            assert(views(done@) == split_on(s@.take(i as int), sep));
        } else {
            cur.push(c);
            proof {
                let prev = split_on(s@.take(i as int), sep);
                assert(views(done@).push(cur@) =~= prev.update(prev.len() - 1, prev.last().push(c)));
            }
        }
        i = i + 1;
    }
    let ghost before = views(done@);
    let ghost last = cur@;
    done.push(cur);
    assert(views(done@) =~= before.push(last));
    assert(s@.take(s.len() as int) == s@);
    done
}

/// Builds a `String` from a character vector (`String::from_iter`).
#[verifier::external_body]
pub(crate) fn string_from_chars(v: &[char]) -> (s: String)
    ensures
        s@ == v@,
{
    v.iter().collect()
}

/// Equality of two strings by their characters.
pub fn str_eq(a: &str, b: &str) -> (r: bool)
    ensures
        r == (a@ == b@),
{
    let x = chars_of(a);
    let y = chars_of(b);
    if x.len() != y.len() {
        return false;
    }
    let mut i: usize = 0;
    while i < x.len()
        invariant
            x@ == a@,
            y@ == b@,
            x.len() == y.len(),
            i <= x.len(),
            forall|j: int| 0 <= j < i ==> x@[j] == y@[j],
        decreases x.len() - i,
    {
        if x[i] != y[i] {
            return false;
        }
        i = i + 1;
    }
    assert(x@ =~= y@);
    true
}

/// Whether `s` contains the character `c`.
pub fn contains_char(s: &str, c: char) -> (r: bool)
    ensures
        r == s@.contains(c),
{
    let v = chars_of(s);
    let mut i: usize = 0;
    while i < v.len()
        invariant
            v@ == s@,
            i <= v.len(),
            forall|j: int| 0 <= j < i ==> v@[j] != c,
        decreases v.len() - i,
    {
        if v[i] == c {
            return true;
        }
        i = i + 1;
    }
    false
}


/// The decimal digit character of `d` (`0 <= d < 10`).
pub open spec fn digit_char(d: nat) -> char {
    (48 + d) as char
}

/// The decimal representation of `n`, without leading zeros.
pub open spec fn decimal(n: nat) -> Seq<char>
    decreases n,
{
    if n < 10 {
        seq![digit_char(n)]
    } else {
        decimal(n / 10).push(digit_char(n % 10))
    }
}

fn push_decimal(n: u64, out: &mut Vec<char>)
    ensures
        final(out)@ == old(out)@ + decimal(n as nat),
    decreases n,
{
    if n >= 10 {
        push_decimal(n / 10, out);
    }
    let d: u8 = (n % 10) as u8;
    let c = (48u8 + d) as char;
    assert(c == digit_char((n % 10) as nat));
    out.push(c);
    proof {
        if n >= 10 {
            assert(decimal(n as nat) == decimal((n / 10) as nat).push(digit_char((n % 10) as nat)));
        }
    }
}

/// `n` written in decimal.
pub fn decimal_string(n: u64) -> (s: String)
    ensures
        s@ == decimal(n as nat),
{
    let mut v: Vec<char> = Vec::new();
    push_decimal(n, &mut v);
    assert(v@ =~= decimal(n as nat));
    string_from_chars(v.as_slice())
}


/// A character with the Unicode `White_Space` property (what `char::is_whitespace`
/// and `str::trim` go by).
pub open spec fn is_white(c: char) -> bool {
    ||| ('\u{9}' <= c && c <= '\u{d}')
    ||| c == ' '
    ||| c == '\u{85}'
    ||| c == '\u{a0}'
    ||| c == '\u{1680}'
    ||| ('\u{2000}' <= c && c <= '\u{200a}')
    ||| c == '\u{2028}'
    ||| c == '\u{2029}'
    ||| c == '\u{202f}'
    ||| c == '\u{205f}'
    ||| c == '\u{3000}'
}

/// Whether `c` is white space.
pub fn white(c: char) -> (r: bool)
    ensures
        r == is_white(c),
{
    ('\u{9}' <= c && c <= '\u{d}') || c == ' ' || c == '\u{85}' || c == '\u{a0}' || c == '\u{1680}'
        || ('\u{2000}' <= c && c <= '\u{200a}') || c == '\u{2028}' || c == '\u{2029}' || c == '\u{202f}'
        || c == '\u{205f}' || c == '\u{3000}'
}

/// Nothing but white space (empty after `trim`).
pub open spec fn is_blank(s: Seq<char>) -> bool {
    forall|i: int| 0 <= i < s.len() ==> is_white(#[trigger] s[i])
}

/// Whether `s` is empty after trimming white space.
pub fn blank(s: &str) -> (r: bool)
    ensures
        r == is_blank(s@),
{
    let v = chars_of(s);
    let mut i: usize = 0;
    while i < v.len()
        invariant
            v@ == s@,
            i <= v@.len(),
            forall|j: int| 0 <= j < i ==> is_white(#[trigger] v@[j]),
        decreases v.len() - i,
    {
        if !white(v[i]) {
            assert(!is_white(s@[i as int]));
            return false;
        }
        i = i + 1;
    }
    true
}


/// `s` padded on the left with zeros to at least `width` characters.
pub open spec fn zero_pad(s: Seq<char>, width: nat) -> Seq<char> {
    if s.len() >= width {
        s
    } else {
        Seq::new((width - s.len()) as nat, |i: int| '0') + s
    }
}

/// The civil date (year, month, day) of a day count since 1970-01-01 (proleptic
/// Gregorian calendar).
pub open spec fn civil_from_days(days: int) -> (int, int, int) {
    let z = days + 719468;
    let era = z / 146097;
    let doe = z - era * 146097;
    let yoe = (doe - doe / 1460 + doe / 36524 - doe / 146096) / 365;
    let doy = doe - (365 * yoe + yoe / 4 - yoe / 100);
    let mp = (5 * doy + 2) / 153;
    let d = doy - (153 * mp + 2) / 5 + 1;
    let m = if mp < 10 { mp + 3 } else { mp - 9 };
    let y = yoe + era * 400 + if m <= 2 { 1int } else { 0int };
    (y, m, d)
}

/// `secs` seconds after the Unix epoch written as `YYYY-MM-DD HH:MM:SS` (UTC), the
/// text of SQLite's `datetime('now')`.
pub open spec fn datetime_text(secs: nat) -> Seq<char> {
    let (y, m, d) = civil_from_days((secs / 86400) as int);
    let t = secs % 86400;
    zero_pad(decimal(y as nat), 4) + seq!['-'] + zero_pad(decimal(m as nat), 2) + seq!['-'] + zero_pad(
        decimal(d as nat),
        2,
    ) + seq![' '] + zero_pad(decimal((t / 3600) as nat), 2) + seq![':'] + zero_pad(
        decimal(((t % 3600) / 60) as nat),
        2,
    ) + seq![':'] + zero_pad(decimal((t % 60) as nat), 2)
}

fn padded(n: u64, width: usize) -> (r: Vec<char>)
    ensures
        r@ == zero_pad(decimal(n as nat), width as nat),
{
    let mut digits: Vec<char> = Vec::new();
    push_decimal(n, &mut digits);
    let ghost ds = decimal(n as nat);
    assert(digits@ =~= ds);
    let mut v: Vec<char> = Vec::new();
    let mut k: usize = digits.len();
    while k < width
        invariant
            digits@ == ds,
            digits@.len() <= k <= (if width > digits@.len() { width as int } else { digits@.len() as int }),
            v@ == Seq::new((k - digits@.len()) as nat, |i: int| '0'),
        decreases width - k,
    {
        v.push('0');
        assert(v@ =~= Seq::new((k + 1 - digits@.len()) as nat, |i: int| '0'));
        k = k + 1;
    }
    let mut i: usize = 0;
    let ghost zeros = v@;
    while i < digits.len()
        invariant
            digits@ == ds,
            i <= digits@.len(),
            v@ == zeros + ds.take(i as int),
        decreases digits.len() - i,
    {
        v.push(digits[i]);
        assert(v@ =~= zeros + ds.take(i + 1));
        i = i + 1;
    }
    assert(ds.take(ds.len() as int) =~= ds);
    assert(v@ =~= zero_pad(ds, width as nat));
    v
}

/// `secs` seconds after the Unix epoch as `YYYY-MM-DD HH:MM:SS` (UTC).
pub fn datetime_string(secs: u64) -> (r: String)
    ensures
        r@ == datetime_text(secs as nat),
{
    let days: u64 = secs / 86400;
    let z: u64 = days + 719468;
    let era: u64 = z / 146097;
    let doe: u64 = z - era * 146097;
    let yoe: u64 = (doe - doe / 1460 + doe / 36524 - doe / 146096) / 365;
    let doy: u64 = doe - (365 * yoe + yoe / 4 - yoe / 100);
    let mp: u64 = (5 * doy + 2) / 153;
    let d: u64 = doy - (153 * mp + 2) / 5 + 1;
    let m: u64 = if mp < 10 { mp + 3 } else { mp - 9 };
    let y: u64 = yoe + era * 400 + if m <= 2 { 1 } else { 0 };
    let t: u64 = secs % 86400;
    let mut out: Vec<char> = padded(y, 4);
    out.push('-');
    let mut part = padded(m, 2);
    out.append(&mut part);
    out.push('-');
    let mut part = padded(d, 2);
    out.append(&mut part);
    out.push(' ');
    let mut part = padded(t / 3600, 2);
    out.append(&mut part);
    out.push(':');
    let mut part = padded((t % 3600) / 60, 2);
    out.append(&mut part);
    out.push(':');
    let mut part = padded(t % 60, 2);
    out.append(&mut part);
    assert(out@ =~= datetime_text(secs as nat));
    string_from_chars(out.as_slice())
}


/// A copy of a list of strings.
pub fn copy_strings(v: &Vec<String>) -> (r: Vec<String>)
    ensures
        r@.len() == v@.len(),
        forall|i: int| 0 <= i < v@.len() ==> #[trigger] r@[i] == v@[i],
{
    let mut out: Vec<String> = Vec::new();
    let mut i: usize = 0;
    while i < v.len()
        invariant
            i <= v@.len(),
            out@.len() == i,
            forall|j: int| 0 <= j < i ==> #[trigger] out@[j] == v@[j],
        decreases v.len() - i,
    {
        out.push(v[i].clone());
        i = i + 1;
    }
    out
}


/// The characters `c[a..b]` as a string.
pub fn chars_between(c: &Vec<char>, a: usize, b: usize) -> (r: String)
    requires
        a <= b <= c@.len(),
    ensures
        r@ == c@.subrange(a as int, b as int),
{
    let mut out: Vec<char> = Vec::new();
    let mut i = a;
    while i < b
        invariant
            a <= i <= b <= c@.len(),
            out@ == c@.subrange(a as int, i as int),
        decreases b - i,
    {
        out.push(c[i]);
        assert(out@ =~= c@.subrange(a as int, i + 1));
        i = i + 1;
    }
    string_from_chars(out.as_slice())
}

} // verus!
