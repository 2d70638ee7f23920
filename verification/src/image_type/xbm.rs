//! Reading the XBM format: two `#define` lines give the width and the
//! height, and after the first `{` come the image bytes in hexadecimal,
//! each with its bits in reverse order.
use vstd::prelude::*;
use crate::image::{reverse_byte, push_all};

verus! {

/// Whether `c` has the Unicode `White_Space` property.
pub open spec fn is_space(c: char) -> bool {
    let v = c as u32;
    (9 <= v <= 13) || v == 32 || v == 0x85 || v == 0xA0 || v == 0x1680
        || (0x2000 <= v <= 0x200A) || v == 0x2028 || v == 0x2029 || v == 0x202F
        || v == 0x205F || v == 0x3000
}

/// An ASCII digit or letter.
pub open spec fn ascii_alphanumeric(c: char) -> bool {
    let v = c as u32;
    (48 <= v <= 57) || (65 <= v <= 90) || (97 <= v <= 122)
}

/// Whether `c` is alphabetic or numeric in Unicode (`char::is_alphanumeric`).
pub uninterp spec fn alphanumeric(c: char) -> bool;

/// Whether `c` belongs to a word of the image data: an alphanumeric
/// character, which for ASCII is a digit or a letter.
pub open spec fn is_word_char(c: char) -> bool {
    if (c as u32) < 128 {
        ascii_alphanumeric(c)
    } else {
        alphanumeric(c)
    }
}

/// `s` without its leading white space.
pub open spec fn trim_start(s: Seq<char>) -> Seq<char>
    decreases s.len(),
{
    if s.len() > 0 && is_space(s[0]) {
        trim_start(s.drop_first())
    } else {
        s
    }
}

/// `s` without its trailing white space.
pub open spec fn trim_end(s: Seq<char>) -> Seq<char>
    decreases s.len(),
{
    if s.len() > 0 && is_space(s.last()) {
        trim_end(s.drop_last())
    } else {
        s
    }
}

/// `s` without white space at either end.
pub open spec fn trim(s: Seq<char>) -> Seq<char> {
    trim_end(trim_start(s))
}

/// The index of the first `c` in `s`, or the length of `s` where there is none.
pub open spec fn find_char(s: Seq<char>, c: char) -> int
    decreases s.len(),
{
    if s.len() == 0 {
        0
    } else if s[0] == c {
        0
    } else {
        1 + find_char(s.drop_first(), c)
    }
}

/// The parts of `s` before and after its first `c`, if it has one.
pub open spec fn split_once(s: Seq<char>, c: char) -> Option<(Seq<char>, Seq<char>)> {
    let i = find_char(s, c);
    if i < s.len() {
        Some((s.subrange(0, i), s.subrange(i + 1, s.len() as int)))
    } else {
        None
    }
}

/// The first line of `s` and what follows it: a line ends at a line feed,
/// which a carriage return may precede; the last line needs no ending.
pub open spec fn next_line(s: Seq<char>) -> Option<(Seq<char>, Seq<char>)> {
    if s.len() == 0 {
        None
    } else {
        match split_once(s, '\n') {
            Some((line, rest)) => Some((
                if line.len() > 0 && line.last() == '\r' { line.drop_last() } else { line },
                rest,
            )),
            None => Some((s, Seq::empty())),
        }
    }
}

/// The word that starts the dimension lines of an XBM file.
pub open spec fn define_word() -> Seq<char> {
    seq!['#', 'd', 'e', 'f', 'i', 'n', 'e']
}

/// Whether `s` begins with `p`.
pub open spec fn starts_with(s: Seq<char>, p: Seq<char>) -> bool {
    p.len() <= s.len() && s.subrange(0, p.len() as int) == p
}

/// The characters after the last white space of `t`.
pub open spec fn last_run(t: Seq<char>) -> Seq<char>
    decreases t.len(),
{
    if t.len() == 0 {
        t
    } else if is_space(t.last()) {
        Seq::empty()
    } else {
        last_run(t.drop_last()).push(t.last())
    }
}

/// The last of the words that white space separates in `s`.
pub open spec fn last_word(s: Seq<char>) -> Option<Seq<char>> {
    let t = trim_end(s);
    if t.len() == 0 {
        None
    } else {
        Some(last_run(t))
    }
}

/// The value of a digit in base 16 (or 10), where `c` is one.
pub open spec fn digit_value(c: char, radix: nat) -> Option<nat> {
    let v = c as u32;
    if 48 <= v <= 57 && v - 48 < radix {
        Some((v - 48) as nat)
    } else if radix == 16 && 97 <= v <= 102 {
        Some((v - 87) as nat)
    } else if radix == 16 && 65 <= v <= 70 {
        Some((v - 55) as nat)
    } else {
        None
    }
}

/// The value of the digits `d` in base `radix`, if they all are digits.
pub open spec fn digits_value(d: Seq<char>, radix: nat) -> Option<nat>
    decreases d.len(),
{
    if d.len() == 0 {
        Some(0)
    } else {
        match (digits_value(d.drop_last(), radix), digit_value(d.last(), radix)) {
            (Some(a), Some(b)) => Some(a * radix + b),
            _ => None,
        }
    }
}

/// An unsigned number in base `radix` no greater than `max`, as the
/// standard library reads it: an optional `+`, then at least one digit.
pub open spec fn parse_unsigned(s: Seq<char>, radix: nat, max: nat) -> Option<nat> {
    let d = if s.len() > 0 && s[0] == '+' { s.drop_first() } else { s };
    if d.len() == 0 {
        None
    } else {
        match digits_value(d, radix) {
            Some(v) => if v <= max { Some(v) } else { None },
            None => None,
        }
    }
}

/// What can go wrong in reading an XBM file.
#[derive(Clone, Copy, Debug, PartialEq, Eq, Structural)]
pub enum XbmFault {
    /// No `{` opens the image data.
    NoBrace,
    /// No line gives the width.
    NoWidth,
    /// No line gives the height.
    NoHeight,
    /// A dimension line does not start with `#define`.
    NotDefine,
    /// A dimension line has no word.
    NoWord,
    /// A dimension is not a decimal number that fits in `usize`.
    BadNumber,
    /// A byte is not a hexadecimal number below 256.
    BadByte,
}

/// The value of a dimension line.
pub open spec fn read_dimension(line: Seq<char>) -> Result<nat, XbmFault> {
    if !starts_with(line, define_word()) {
        Err(XbmFault::NotDefine)
    } else {
        match last_word(trim(line)) {
            None => Err(XbmFault::NoWord),
            Some(w) => match parse_unsigned(w, 10, usize::MAX as nat) {
                None => Err(XbmFault::BadNumber),
                Some(v) => Ok(v),
            },
        }
    }
}

/// The state of reading the image bytes: the bytes so far, a byte that is
/// no number, or a word that has no `x` (which the reader cannot take).
pub enum ByteScan {
    Bytes(Seq<u8>),
    Bad,
    Stuck,
}

/// Reads one word of the image data: the hexadecimal number after its first `x`.
pub open spec fn read_token(acc: ByteScan, tok: Seq<char>) -> ByteScan {
    match acc {
        ByteScan::Bytes(b) => if tok.len() == 0 {
            acc
        } else {
            match split_once(trim(tok), 'x') {
                None => ByteScan::Stuck,
                Some((_, digits)) => match parse_unsigned(digits, 16, 255) {
                    None => ByteScan::Bad,
                    Some(v) => ByteScan::Bytes(b.push(reverse_byte(v as u8))),
                },
            }
        },
        _ => acc,
    }
}

/// One step of reading the image data: a word character extends the word
/// under way, any other character ends it.
pub open spec fn scan_step(st: (ByteScan, Seq<char>), c: char) -> (ByteScan, Seq<char>) {
    if is_word_char(c) {
        (st.0, st.1.push(c))
    } else {
        (read_token(st.0, st.1), Seq::empty())
    }
}

/// Reading the image data `t` from the state `st`.
pub open spec fn scan_from(st: (ByteScan, Seq<char>), t: Seq<char>) -> (ByteScan, Seq<char>)
    decreases t.len(),
{
    if t.len() == 0 {
        st
    } else {
        scan_step(scan_from(st, t.drop_last()), t.last())
    }
}

/// The image data read so far, and the word under way: words are the runs
/// of alphanumeric characters.
pub open spec fn scan_bytes(s: Seq<char>) -> (ByteScan, Seq<char>) {
    scan_from((ByteScan::Bytes(Seq::empty()), Seq::empty()), s)
}

/// The image data of `s`.
pub open spec fn read_bytes(s: Seq<char>) -> ByteScan {
    read_token(scan_bytes(s).0, scan_bytes(s).1)
}

/// What reading an XBM file gives: an image, a fault, or nothing at all,
/// where a word of the image data has no `x`.
pub enum XbmRead {
    Image(nat, nat, Seq<u8>),
    Fault(XbmFault),
    Stuck,
}

/// Reads an XBM file: its width, height and image bytes.
pub open spec fn read_xbm(input: Seq<char>) -> XbmRead {
    match split_once(input, '{') {
        None => XbmRead::Fault(XbmFault::NoBrace),
        Some((dims, data)) => match next_line(dims) {
            None => XbmRead::Fault(XbmFault::NoWidth),
            Some((line1, rest)) => match read_dimension(line1) {
                Err(e) => XbmRead::Fault(e),
                Ok(w) => match next_line(rest) {
                    None => XbmRead::Fault(XbmFault::NoHeight),
                    Some((line2, _)) => match read_dimension(line2) {
                        Err(e) => XbmRead::Fault(e),
                        Ok(h) => match read_bytes(trim(data)) {
                            ByteScan::Bytes(b) => XbmRead::Image(w, h, b),
                            ByteScan::Bad => XbmRead::Fault(XbmFault::BadByte),
                            ByteScan::Stuck => XbmRead::Stuck,
                        },
                    },
                },
            },
        },
    }
}

/// `char::is_alphanumeric`: whether `c` has the Unicode property
/// Alphabetic or Numeric. Claimed of it: the result is `alphanumeric(c)`, a
/// function of `c` alone; what that is for a character beyond ASCII is not
/// stated (it takes the Unicode tables).
#[verifier::external_body]
fn is_alphanumeric(c: char) -> (r: bool)
    ensures
        r == alphanumeric(c),
{
    c.is_alphanumeric()
}

/// Whether `c` belongs to a word of the image data (see `is_word_char`).
fn word_char(c: char) -> (r: bool)
    ensures
        r == is_word_char(c),
{
    let v = c as u32;
    if v < 128 {
        (48 <= v && v <= 57) || (65 <= v && v <= 90) || (97 <= v && v <= 122)
    } else {
        is_alphanumeric(c)
    }
}

/// The characters of `s`.
fn chars_of(s: &str) -> (r: Vec<char>)
    ensures
        r@ == s@,
{
    let mut out: Vec<char> = Vec::new();
    push_all(&mut out, s);
    assert(out@ =~= s@);
    out
}

/// Whether `c` is white space (`char::is_whitespace`).
pub fn is_whitespace(c: char) -> (r: bool)
    ensures
        r == is_space(c),
{
    let v = c as u32;
    (9 <= v && v <= 13) || v == 32 || v == 0x85 || v == 0xA0 || v == 0x1680
        || (0x2000 <= v && v <= 0x200A) || v == 0x2028 || v == 0x2029 || v == 0x202F
        || v == 0x205F || v == 0x3000
}

/// The bounds of `s[lo..hi]` without white space at either end.
fn trim_range(s: &Vec<char>, lo: usize, hi: usize) -> (r: (usize, usize))
    requires
        lo <= hi <= s@.len(),
    ensures
        lo <= r.0 <= r.1 <= hi,
        s@.subrange(r.0 as int, r.1 as int) == trim(s@.subrange(lo as int, hi as int)),
{
    let mut a = lo;
    while a < hi && is_whitespace(s[a])
        invariant
            lo <= a <= hi <= s@.len(),
            trim_start(s@.subrange(lo as int, hi as int)) == trim_start(s@.subrange(a as int, hi as int)),
        decreases hi - a,
    {
        assert(s@.subrange(a as int, hi as int).drop_first() =~= s@.subrange(a + 1, hi as int));
        a = a + 1;
    }
    let mut b = hi;
    while b > a && is_whitespace(s[b - 1])
        invariant
            lo <= a <= b <= hi <= s@.len(),
            trim_start(s@.subrange(lo as int, hi as int)) == s@.subrange(a as int, hi as int),
            trim(s@.subrange(lo as int, hi as int)) == trim_end(s@.subrange(a as int, b as int)),
        decreases b - a,
    {
        assert(s@.subrange(a as int, b as int).drop_last() =~= s@.subrange(a as int, b - 1));
        b = b - 1;
    }
    (a, b)
}

proof fn lemma_find_char(s: Seq<char>, c: char, m: int)
    requires
        0 <= m <= s.len(),
        forall|k: int| 0 <= k < m ==> s[k] != c,
        m == s.len() || s[m] == c,
    ensures
        find_char(s, c) == m,
    decreases m,
{
    if m > 0 {
        assert forall|k: int| 0 <= k < m - 1 implies s.drop_first()[k] != c by {
            assert(s.drop_first()[k] == s[k + 1]);
        }
        lemma_find_char(s.drop_first(), c, m - 1);
    }
}

/// The index of the first `c` in `s[lo..hi]`, or `hi` where there is none.
fn find_in(s: &Vec<char>, lo: usize, hi: usize, c: char) -> (r: usize)
    requires
        lo <= hi <= s@.len(),
    ensures
        lo <= r <= hi,
        r - lo == find_char(s@.subrange(lo as int, hi as int), c),
{
    let mut i = lo;
    while i < hi && s[i] != c
        invariant
            lo <= i <= hi <= s@.len(),
            forall|k: int| lo <= k < i ==> s@[k] != c,
        decreases hi - i,
    {
        i = i + 1;
    }
    proof {
        lemma_find_char(s@.subrange(lo as int, hi as int), c, i - lo);
    }
    i
}

/// The value of the digit `c` in base `radix`.
fn digit_of(c: char, radix: usize) -> (r: Option<usize>)
    requires
        radix == 10 || radix == 16,
    ensures
        match digit_value(c, radix as nat) {
            Some(v) => r == Some(v as usize),
            None => r is None,
        },
{
    let v = c as u32;
    if 48 <= v && v <= 57 && ((v - 48) as usize) < radix {
        Some((v - 48) as usize)
    } else if radix == 16 && 97 <= v && v <= 102 {
        Some((v - 87) as usize)
    } else if radix == 16 && 65 <= v && v <= 70 {
        Some((v - 55) as usize)
    } else {
        None
    }
}

/// A prefix of a number's digits is a number no greater than it.
proof fn lemma_digits_prefix(s: Seq<char>, k: int, radix: nat)
    requires
        0 <= k <= s.len(),
        radix >= 1,
        digits_value(s, radix) is Some,
    ensures
        digits_value(s.subrange(0, k), radix) is Some,
        digits_value(s.subrange(0, k), radix)->0 <= digits_value(s, radix)->0,
    decreases s.len() - k,
{
    if k == s.len() {
        assert(s.subrange(0, k) =~= s);
    } else {
        let t = s.drop_last();
        let a = digits_value(t, radix)->0;
        let b = digit_value(s.last(), radix)->0;
        assert(a <= a * radix + b) by (nonlinear_arith)
            requires radix >= 1;
        lemma_digits_prefix(t, k, radix);
        assert(t.subrange(0, k) =~= s.subrange(0, k));
    }
}

/// Reads `s[a..b]` as an unsigned number in base `radix` no greater than `max`.
fn parse_range(s: &Vec<char>, a: usize, b: usize, radix: usize, max: usize) -> (r: Option<usize>)
    requires
        a <= b <= s@.len(),
        radix == 10 || radix == 16,
    ensures
        match parse_unsigned(s@.subrange(a as int, b as int), radix as nat, max as nat) {
            Some(v) => r == Some(v as usize),
            None => r is None,
        },
{
    let ghost whole = s@.subrange(a as int, b as int);
    let d0 = if a < b && s[a] == '+' { a + 1 } else { a };
    let ghost d = if whole.len() > 0 && whole[0] == '+' { whole.drop_first() } else { whole };
    assert(d =~= s@.subrange(d0 as int, b as int));
    if d0 == b {
        return None;
    }
    let mut acc: usize = 0;
    let mut i = d0;
    assert(s@.subrange(d0 as int, d0 as int) =~= Seq::<char>::empty());
    while i < b
        invariant
            d0 <= i <= b <= s@.len(),
            radix == 10 || radix == 16,
            whole == s@.subrange(a as int, b as int),
            d == (if whole.len() > 0 && whole[0] == '+' { whole.drop_first() } else { whole }),
            d.len() > 0,
            d == s@.subrange(d0 as int, b as int),
            digits_value(s@.subrange(d0 as int, i as int), radix as nat) == Some(acc as nat),
            acc <= max,
        decreases b - i,
    {
        let ghost pre = s@.subrange(d0 as int, i + 1);
        assert(pre.drop_last() =~= s@.subrange(d0 as int, i as int));
        assert(pre.last() == s@[i as int]);
        let dv = match digit_of(s[i], radix) {
            Some(v) => v,
            None => {
                proof {
                    if digits_value(d, radix as nat) is Some {
                        lemma_digits_prefix(d, i + 1 - d0, radix as nat);
                        assert(d.subrange(0, i + 1 - d0) =~= pre);
                    }
                }
                return None;
            }
        };
        if dv > max || acc > (max - dv) / radix {
            proof {
                if digits_value(d, radix as nat) is Some {
                    lemma_digits_prefix(d, i + 1 - d0, radix as nat);
                    assert(d.subrange(0, i + 1 - d0) =~= pre);
                    if dv <= max {
                        assert(acc * radix + dv > max) by (nonlinear_arith)
                            requires acc > ((max - dv) as usize) / radix, radix >= 1, dv <= max;
                    }
                }
            }
            return None;
        }
        assert(acc * radix + dv <= max) by (nonlinear_arith)
            requires acc <= ((max - dv) as usize) / radix, radix >= 1, dv <= max;
        acc = acc * radix + dv;
        i = i + 1;
    }
    Some(acc)
}

/// The bounds of the first line of `s[lo..hi]` and of what follows it.
fn next_line_range(s: &Vec<char>, lo: usize, hi: usize) -> (r: Option<((usize, usize), (usize, usize))>)
    requires
        lo <= hi <= s@.len(),
    ensures
        match next_line(s@.subrange(lo as int, hi as int)) {
            None => r is None,
            Some((line, rest)) => r matches Some(((a, b), (c, d))) && lo <= a <= b <= hi
                && lo <= c <= d <= hi && s@.subrange(a as int, b as int) == line
                && s@.subrange(c as int, d as int) == rest,
        },
{
    if lo == hi {
        return None;
    }
    let ghost t = s@.subrange(lo as int, hi as int);
    let j = find_in(s, lo, hi, '\n');
    if j < hi {
        let ghost i = j - lo;
        assert(t.subrange(0, i) =~= s@.subrange(lo as int, j as int));
        assert(t.subrange(i + 1, t.len() as int) =~= s@.subrange(j + 1, hi as int));
        let e = if j > lo && s[j - 1] == '\r' { j - 1 } else { j };
        if j > lo {
            assert(s@.subrange(lo as int, j as int).drop_last() =~= s@.subrange(lo as int, j - 1));
        }
        Some(((lo, e), (j + 1, hi)))
    } else {
        assert(s@.subrange(hi as int, hi as int) =~= Seq::<char>::empty());
        Some(((lo, hi), (hi, hi)))
    }
}

/// Whether `s[lo..hi]` starts with `#define`.
fn starts_with_define(s: &Vec<char>, lo: usize, hi: usize) -> (r: bool)
    requires
        lo <= hi <= s@.len(),
    ensures
        r == starts_with(s@.subrange(lo as int, hi as int), define_word()),
{
    let p = ['#', 'd', 'e', 'f', 'i', 'n', 'e'];
    assert(p@ =~= define_word());
    if hi - lo < 7 {
        return false;
    }
    let mut i: usize = 0;
    while i < 7
        invariant
            lo + 7 <= hi <= s@.len(),
            p@ == define_word(),
            i <= 7,
            forall|k: int| 0 <= k < i ==> s@[lo + k] == p@[k],
        decreases 7 - i,
    {
        if s[lo + i] != p[i] {
            assert(s@.subrange(lo as int, hi as int).subrange(0, 7)[i as int] == s@[lo + i]);
            return false;
        }
        i = i + 1;
    }
    assert(s@.subrange(lo as int, hi as int).subrange(0, 7) =~= define_word());
    true
}

/// Reads a dimension line, `s[lo..hi]`.
fn read_dimension_range(s: &Vec<char>, lo: usize, hi: usize) -> (r: Result<usize, XbmFault>)
    requires
        lo <= hi <= s@.len(),
    ensures
        match read_dimension(s@.subrange(lo as int, hi as int)) {
            Ok(v) => r == Ok::<usize, XbmFault>(v as usize),
            Err(e) => r == Err::<usize, XbmFault>(e),
        },
{
    if !starts_with_define(s, lo, hi) {
        return Err(XbmFault::NotDefine);
    }
    let (a, b) = trim_range(s, lo, hi);
    let mut e = b;
    while e > a && is_whitespace(s[e - 1])
        invariant
            a <= e <= b <= s@.len(),
            trim_end(s@.subrange(a as int, b as int)) == trim_end(s@.subrange(a as int, e as int)),
        decreases e - a,
    {
        assert(s@.subrange(a as int, e as int).drop_last() =~= s@.subrange(a as int, e - 1));
        e = e - 1;
    }
    if e == a {
        return Err(XbmFault::NoWord);
    }
    let mut k = e;
    assert(s@.subrange(e as int, e as int) =~= Seq::<char>::empty());
    while k > a && !is_whitespace(s[k - 1])
        invariant
            a <= k <= e <= b <= s@.len(),
            last_run(s@.subrange(a as int, e as int))
                == last_run(s@.subrange(a as int, k as int)) + s@.subrange(k as int, e as int),
        decreases k - a,
    {
        assert(s@.subrange(a as int, k as int).drop_last() =~= s@.subrange(a as int, k - 1));
        assert(s@.subrange(k - 1, e as int) =~= seq![s@[k - 1]] + s@.subrange(k as int, e as int));
        assert(last_run(s@.subrange(a as int, k - 1)).push(s@[k - 1]) + s@.subrange(k as int, e as int)
            =~= last_run(s@.subrange(a as int, k - 1)) + s@.subrange(k - 1, e as int));
        k = k - 1;
    }
    assert(last_run(s@.subrange(a as int, k as int)) + s@.subrange(k as int, e as int)
        =~= s@.subrange(k as int, e as int));
    match parse_range(s, k, e, 10, usize::MAX) {
        None => Err(XbmFault::BadNumber),
        Some(v) => Ok(v),
    }
}

/// Reads the word `s[a..b]`: nothing where it has no `x`, `Some(None)` where
/// what follows its first `x` is no hexadecimal number below 256.
fn read_word(s: &Vec<char>, a: usize, b: usize) -> (r: Option<Option<u8>>)
    requires
        a <= b <= s@.len(),
    ensures
        match split_once(trim(s@.subrange(a as int, b as int)), 'x') {
            None => r is None,
            Some((_, digits)) => match parse_unsigned(digits, 16, 255) {
                None => r == Some(None::<u8>),
                Some(v) => r == Some(Some(v as u8)),
            },
        },
{
    let (ta, tb) = trim_range(s, a, b);
    let x = find_in(s, ta, tb, 'x');
    if x == tb {
        return None;
    }
    let ghost t = s@.subrange(ta as int, tb as int);
    assert(t.subrange(x - ta + 1, t.len() as int) =~= s@.subrange(x + 1, tb as int));
    match parse_range(s, x + 1, tb, 16, 255) {
        None => Some(None),
        Some(v) => Some(Some(v as u8)),
    }
}

/// The bits of `b` in reverse order (`u8::reverse_bits`).
pub fn reverse_bits(b: u8) -> (r: u8)
    ensures
        r == reverse_byte(b),
{
    ((b & 1) << 7) | ((b & 2) << 5) | ((b & 4) << 3) | ((b & 8) << 1)
        | ((b & 16) >> 1) | ((b & 32) >> 3) | ((b & 64) >> 5) | ((b & 128) >> 7)
}

/// The state of the byte reader: 0 while it reads, 1 after a bad byte,
/// 2 after a word without `x`.
spec fn scan_state(status: u8, acc: Seq<u8>) -> ByteScan {
    if status == 0 {
        ByteScan::Bytes(acc)
    } else if status == 1 {
        ByteScan::Bad
    } else {
        ByteScan::Stuck
    }
}

/// Takes the word `s[a..b]` into the byte reader.
fn take_word(s: &Vec<char>, a: usize, b: usize, status: &mut u8, acc: &mut Vec<u8>)
    requires
        a <= b <= s@.len(),
    ensures
        scan_state(*final(status), final(acc)@)
            == read_token(scan_state(*old(status), old(acc)@), s@.subrange(a as int, b as int)),
{
    if *status != 0 || a == b {
        return;
    }
    match read_word(s, a, b) {
        None => {
            *status = 2;
        }
        Some(None) => {
            *status = 1;
        }
        Some(Some(v)) => {
            acc.push(reverse_bits(v));
        }
    }
}

/// What the byte reader gives.
pub enum ByteRead {
    Bytes(Vec<u8>),
    Bad,
    Stuck,
}

/// Reads the image data `s[lo..hi]`.
fn read_bytes_range(s: &Vec<char>, lo: usize, hi: usize) -> (r: ByteRead)
    requires
        lo <= hi <= s@.len(),
    ensures
        match read_bytes(s@.subrange(lo as int, hi as int)) {
            ByteScan::Bytes(b) => r matches ByteRead::Bytes(v) && v@ == b,
            ByteScan::Bad => r is Bad,
            ByteScan::Stuck => r is Stuck,
        },
{
    let mut status: u8 = 0;
    let mut acc: Vec<u8> = Vec::new();
    let mut tstart = lo;
    let mut i = lo;
    assert(s@.subrange(lo as int, lo as int) =~= Seq::<char>::empty());
    while i < hi
        invariant
            lo <= tstart <= i <= hi <= s@.len(),
            scan_bytes(s@.subrange(lo as int, i as int))
                == (scan_state(status, acc@), s@.subrange(tstart as int, i as int)),
        decreases hi - i,
    {
        let ghost pre = s@.subrange(lo as int, i + 1);
        assert(pre.drop_last() =~= s@.subrange(lo as int, i as int));
        assert(pre.last() == s@[i as int]);
        if word_char(s[i]) {
            assert(s@.subrange(tstart as int, i as int).push(s@[i as int]) =~= s@.subrange(tstart as int, i + 1));
        } else {
            take_word(s, tstart, i, &mut status, &mut acc);
            tstart = i + 1;
            assert(s@.subrange(tstart as int, i + 1) =~= Seq::<char>::empty());
        }
        i = i + 1;
    }
    take_word(s, tstart, hi, &mut status, &mut acc);
    if status == 0 {
        ByteRead::Bytes(acc)
    } else if status == 1 {
        ByteRead::Bad
    } else {
        ByteRead::Stuck
    }
}

/// What reading an XBM file gives.
pub enum XbmOutcome {
    Image(usize, usize, Vec<u8>),
    Fault(XbmFault),
    Stuck,
}

impl XbmOutcome {
    /// The outcome as a mathematical value.
    pub open spec fn spec_read(&self) -> XbmRead {
        match self {
            XbmOutcome::Image(w, h, b) => XbmRead::Image(*w as nat, *h as nat, b@),
            XbmOutcome::Fault(f) => XbmRead::Fault(*f),
            XbmOutcome::Stuck => XbmRead::Stuck,
        }
    }
}

/// Reads an XBM file.
pub fn scan_xbm(input: &str) -> (r: XbmOutcome)
    ensures
        r.spec_read() == read_xbm(input@),
{
    let s = chars_of(input);
    let n = s.len();
    assert(s@.subrange(0, n as int) =~= input@);
    let brace = find_in(&s, 0, n, '{');
    if brace == n {
        return XbmOutcome::Fault(XbmFault::NoBrace);
    }
    assert(input@.subrange(0, brace as int) =~= s@.subrange(0, brace as int));
    let (line1, rest) = match next_line_range(&s, 0, brace) {
        None => {
            return XbmOutcome::Fault(XbmFault::NoWidth);
        }
        Some(p) => p,
    };
    let w = match read_dimension_range(&s, line1.0, line1.1) {
        Err(e) => {
            return XbmOutcome::Fault(e);
        }
        Ok(v) => v,
    };
    let line2 = match next_line_range(&s, rest.0, rest.1) {
        None => {
            return XbmOutcome::Fault(XbmFault::NoHeight);
        }
        Some(p) => p.0,
    };
    let h = match read_dimension_range(&s, line2.0, line2.1) {
        Err(e) => {
            return XbmOutcome::Fault(e);
        }
        Ok(v) => v,
    };
    let (da, db) = trim_range(&s, brace + 1, n);
    match read_bytes_range(&s, da, db) {
        ByteRead::Bytes(v) => XbmOutcome::Image(w, h, v),
        ByteRead::Bad => XbmOutcome::Fault(XbmFault::BadByte),
        ByteRead::Stuck => XbmOutcome::Stuck,
    }
}

/// Reading `a + t` is reading `a`, then `t`.
pub proof fn lemma_scan_concat(st: (ByteScan, Seq<char>), a: Seq<char>, t: Seq<char>)
    ensures
        scan_from(st, a + t) == scan_from(scan_from(st, a), t),
    decreases t.len(),
{
    if t.len() == 0 {
        assert(a + t =~= a);
    } else {
        assert((a + t).drop_last() =~= a + t.drop_last());
        assert((a + t).last() == t.last());
        lemma_scan_concat(st, a, t.drop_last());
    }
}

/// Characters that end words change nothing between words.
pub proof fn lemma_scan_separators(st: (ByteScan, Seq<char>), t: Seq<char>)
    requires
        st.1.len() == 0,
        forall|i: int| 0 <= i < t.len() ==> !is_word_char(#[trigger] t[i]),
    ensures
        scan_from(st, t) == st,
    decreases t.len(),
{
    if t.len() > 0 {
        lemma_scan_separators(st, t.drop_last());
        assert(!is_word_char(t[t.len() - 1]));
        assert(st.1 =~= Seq::<char>::empty());
    }
}

/// Word characters extend the word under way.
pub proof fn lemma_scan_word(st: (ByteScan, Seq<char>), t: Seq<char>)
    requires
        forall|i: int| 0 <= i < t.len() ==> is_word_char(#[trigger] t[i]),
    ensures
        scan_from(st, t) == (st.0, st.1 + t),
    decreases t.len(),
{
    if t.len() == 0 {
        assert(st.1 + t =~= st.1);
    } else {
        lemma_scan_word(st, t.drop_last());
        assert(is_word_char(t[t.len() - 1]));
        assert((st.1 + t.drop_last()).push(t.last()) =~= st.1 + t);
    }
}

/// A text whose ends are not white space is its own trim.
pub proof fn lemma_trim_plain(s: Seq<char>)
    requires
        s.len() > 0,
        !is_space(s[0]),
        !is_space(s.last()),
    ensures
        trim(s) == s,
{
}

/// The first `c` in `p + [c] + q`, where `p` holds none, ends `p`.
pub proof fn lemma_find_first(p: Seq<char>, c: char, q: Seq<char>)
    requires
        forall|i: int| 0 <= i < p.len() ==> p[i] != c,
    ensures
        find_char(p + seq![c] + q, c) == p.len(),
        split_once(p + seq![c] + q, c) == Some((p, q)),
{
    let s = p + seq![c] + q;
    assert forall|k: int| 0 <= k < p.len() implies s[k] != c by {
        assert(s[k] == p[k]);
    }
    lemma_find_char(s, c, p.len() as int);
    assert(s.subrange(0, p.len() as int) =~= p);
    assert(s.subrange(p.len() as int + 1, s.len() as int) =~= q);
}

/// The last word of `x + " " + d`, where `d` holds no white space, is `d`.
pub proof fn lemma_last_run(x: Seq<char>, d: Seq<char>)
    requires
        forall|i: int| 0 <= i < d.len() ==> !is_space(#[trigger] d[i]),
    ensures
        last_run(x + seq![' '] + d) == d,
    decreases d.len(),
{
    let s = x + seq![' '] + d;
    if d.len() == 0 {
        assert(s.last() == ' ');
        assert(d =~= Seq::<char>::empty());
    } else {
        assert(s.drop_last() =~= x + seq![' '] + d.drop_last());
        lemma_last_run(x, d.drop_last());
        assert(s.last() == d.last());
        assert(!is_space(d[d.len() - 1]));
        assert(d.drop_last().push(d.last()) =~= d);
    }
}

/// A hexadecimal digit reads as its value.
pub proof fn lemma_hex_digit(d: int)
    requires
        0 <= d < 16,
    ensures
        digit_value(crate::image::hex_digit(d), 16) == Some(d as nat),
        is_word_char(crate::image::hex_digit(d)),
        crate::image::hex_digit(d) != '+',
        crate::image::hex_digit(d) != 'x',
        !is_space(crate::image::hex_digit(d)),
{
}

/// The hexadecimal digits 0-9 and a-f, by value.
pub open spec fn lower_hex_digits() -> Seq<char> {
    seq!['0', '1', '2', '3', '4', '5', '6', '7', '8', '9', 'a', 'b', 'c', 'd', 'e', 'f']
}

/// The hexadecimal digits 0-9 and A-F, by value.
pub open spec fn upper_hex_digits() -> Seq<char> {
    seq!['0', '1', '2', '3', '4', '5', '6', '7', '8', '9', 'A', 'B', 'C', 'D', 'E', 'F']
}

/// The digits of base 16 are 0-9 and the letters a-f in either case (as
/// `char::to_digit(16)` has them): a character has value `d` exactly when it
/// is the lower- or upper-case hexadecimal digit of `d`. In base 10 the
/// digits are 0-9.
pub proof fn lemma_hex_digits_read(c: char, d: nat)
    ensures
        digit_value(c, 16) == Some(d) <==> (d < 16 && (c == lower_hex_digits()[d as int] || c == upper_hex_digits()[d as int])),
        digit_value(c, 10) == Some(d) <==> (d < 10 && c == lower_hex_digits()[d as int]),
{
    let v = c as u32;
    if d < 16 {
        assert(lower_hex_digits()[d as int] as u32 == if d < 10 { 48 + d } else { 87 + d });
        assert(upper_hex_digits()[d as int] as u32 == if d < 10 { 48 + d } else { 55 + d });
    }
}

/// Every byte, written as two hexadecimal digits in lower or upper case
/// (or mixed), reads back as that byte.
pub proof fn lemma_hex_byte_any_case(v: u8, hi_upper: bool, lo_upper: bool)
    ensures
        parse_unsigned(seq![
            if hi_upper { upper_hex_digits()[(v / 16) as int] } else { lower_hex_digits()[(v / 16) as int] },
            if lo_upper { upper_hex_digits()[(v % 16) as int] } else { lower_hex_digits()[(v % 16) as int] }], 16, 255)
            == Some(v as nat),
{
    let a = if hi_upper { upper_hex_digits()[(v / 16) as int] } else { lower_hex_digits()[(v / 16) as int] };
    let b = if lo_upper { upper_hex_digits()[(v % 16) as int] } else { lower_hex_digits()[(v % 16) as int] };
    lemma_hex_digits_read(a, (v / 16) as nat);
    lemma_hex_digits_read(b, (v % 16) as nat);
    let d = seq![a, b];
    assert(d.drop_last() =~= seq![a]);
    assert(seq![a].drop_last() =~= Seq::<char>::empty());
    assert(seq![a].last() == a);
    assert(d.last() == b);
    assert(a != '+');
    assert(digits_value(Seq::<char>::empty(), 16) == Some(0nat));
    assert(digits_value(seq![a], 16) == Some((v / 16) as nat));
    assert(digits_value(d, 16) == Some(v as nat));
}

/// Two hexadecimal digits read as the number they make.
pub proof fn lemma_hex_byte(v: u8)
    ensures
        parse_unsigned(seq![crate::image::hex_digit((v / 16) as int), crate::image::hex_digit((v % 16) as int)], 16, 255)
            == Some(v as nat),
{
    let a = crate::image::hex_digit((v / 16) as int);
    let b = crate::image::hex_digit((v % 16) as int);
    let d = seq![a, b];
    lemma_hex_digit((v / 16) as int);
    lemma_hex_digit((v % 16) as int);
    assert(d.drop_last() =~= seq![a]);
    assert(seq![a].drop_last() =~= Seq::<char>::empty());
    assert(seq![a].last() == a);
    assert(d.last() == b);
    assert(digits_value(Seq::<char>::empty(), 16) == Some(0nat));
    assert(digits_value(seq![a], 16) == Some((v / 16) as nat));
    assert(digits_value(d, 16) == Some(v as nat));
}

/// The decimal digits of `n` read as `n`.
pub proof fn lemma_decimal(n: nat)
    ensures
        crate::image::decimal(n).len() >= 1,
        digits_value(crate::image::decimal(n), 10) == Some(n),
        crate::image::decimal(n)[0] != '+',
        forall|i: int| 0 <= i < crate::image::decimal(n).len() ==> {
            let c = #[trigger] crate::image::decimal(n)[i];
            48 <= (c as u32) <= 57
        },
    decreases n,
{
    let d = crate::image::decimal(n);
    if n >= 10 {
        lemma_decimal(n / 10);
        let p = crate::image::decimal(n / 10);
        assert(d == p.push(crate::image::dec_digit((n % 10) as int)));
        assert(d.drop_last() =~= p);
        assert(d.last() == crate::image::dec_digit((n % 10) as int));
        assert(digit_value(d.last(), 10) == Some((n % 10) as nat));
        assert(digits_value(d, 10) == Some((n / 10) * 10 + n % 10));
        assert forall|i: int| 0 <= i < d.len() implies {
            let c = #[trigger] d[i];
            48 <= (c as u32) <= 57
        } by {
            if i < p.len() {
                assert(d[i] == p[i]);
            }
        }
    } else {
        assert(d.drop_last() =~= Seq::<char>::empty());
        assert(d.last() == crate::image::dec_digit(n as int));
        assert(digits_value(Seq::<char>::empty(), 10) == Some(0nat));
    }
}

/// The bits of a byte reversed twice are the byte.
pub proof fn lemma_reverse_twice(b: u8)
    ensures
        crate::image::reverse_byte(crate::image::reverse_byte(b)) == b,
{
    assert(crate::image::reverse_byte(crate::image::reverse_byte(b)) == b) by (bit_vector);
}

} // verus!
