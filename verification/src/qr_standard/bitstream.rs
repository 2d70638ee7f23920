use vstd::prelude::*;
use vstd::string::StringSliceAdditionalSpecFns;
use vstd::string::StringExecFns;
use crate::image::push_char;
use vstd::utf8::encode_utf8;
use super::badstream::Badstream;
use super::tables::{spec_cc_bits, spec_version_class, cc_indicator_bit_size, version_to_class,
    spec_alphanum_value, alphanum_value, lemma_cc_bits, alphanum_set, lemma_alphanum_value, lemma_alphanum_set_distinct, CC_INDICATOR_BITS, DATA_CODEWORDS, data_codewords};

verus! {

/// The character sets that QR data can be written in.
///
/// Every numeric character is also alphanumeric, and every alphanumeric
/// character is also ASCII; the smaller the set, the fewer bits each
/// character takes.
#[derive(Clone, Copy, Debug, PartialEq, Eq, Structural, Hash, PartialOrd)]
pub enum Mode {
    /// Base-10 digits, three to 10 bits.
    Numeric,
    /// Digits, capital letters and nine symbols, two to 11 bits.
    AlphaNum,
    /// Bytes, one to 8 bits.
    ASCII,
    /// Not implemented: one kanji in 13 bits.
    Kanji,
}

impl Mode {
    /// The position of the mode in the order of inclusion: numeric, then
    /// alphanumeric, then ASCII (and kanji apart).
    pub open spec fn rank(self) -> int {
        match self {
            Mode::Numeric => 0,
            Mode::AlphaNum => 1,
            Mode::ASCII => 2,
            Mode::Kanji => 3,
        }
    }

    /// The index of one of the three ASCII subsets: ASCII 0, alphanumeric 1,
    /// numeric 2.
    pub open spec fn spec_index(self) -> int {
        match self {
            Mode::ASCII => 0,
            Mode::AlphaNum => 1,
            _ => 2,
        }
    }

    /// The position of the mode among the modes that can be chosen.
    pub fn index(self) -> (r: usize)
        requires
            self != Mode::Kanji,
        ensures
            r == self.spec_index(),
    {
        match self {
            Mode::ASCII => 0,
            Mode::AlphaNum => 1,
            Mode::Numeric => 2,
            Mode::Kanji => 2,
        }
    }
}

/// A piece of an encoded message.
#[derive(Clone, Copy, Debug, PartialEq, Eq, Structural)]
pub enum Token {
    /// The mode indicator and the character count indicator of a segment.
    ModeAndCount(Mode, u16),
    /// One character (or group of characters): bit length and value.
    Character(usize, u16),
    /// An Extended Channel Interpretation marker with its designator.
    EciChange(u32),
    /// The bit sequence `0000`.
    Terminator,
}

/// The lowest `width` bits of `value`, highest first, one per stream byte.
pub open spec fn value_bits(value: u32, width: nat) -> Seq<u8> {
    Seq::new(width, |i: int| ((value >> ((width - 1 - i) as u32)) & 1u32) as u8)
}

/// The 4-bit mode indicator of a mode.
pub open spec fn mode_indicator(mode: Mode) -> u32 {
    match mode {
        Mode::Numeric => 1,
        Mode::AlphaNum => 2,
        Mode::ASCII => 4,
        Mode::Kanji => 8,
    }
}

/// The bits of an ECI designator: 8, 16 or 24 bits, led by `0`, `10` or
/// `110`.
pub open spec fn eci_bits(designator: u32) -> Seq<u8> {
    if designator <= 0x7F {
        value_bits(designator, 8)
    } else if designator <= 0x3FFF {
        value_bits(0x8000u32 | designator, 16)
    } else {
        value_bits(0xC00000u32 | designator, 24)
    }
}

/// A token can be written: an ECI designator below one million, a
/// character of at most 16 bits.
pub open spec fn token_valid(t: Token) -> bool {
    match t {
        Token::EciChange(d) => d <= 999999,
        Token::Character(width, _) => width <= 16,
        _ => true,
    }
}

/// The bits of a token in a symbol of version `version`.
pub open spec fn token_bits(t: Token, version: int) -> Seq<u8> {
    match t {
        Token::EciChange(d) => value_bits(7, 4) + eci_bits(d),
        Token::ModeAndCount(mode, count) => value_bits(mode_indicator(mode), 4)
            + value_bits(count as u32, spec_cc_bits(spec_version_class(version), mode) as nat),
        Token::Character(width, value) => value_bits(value as u32, width as nat),
        Token::Terminator => value_bits(0, 4),
    }
}

/// Appends the lowest `width` bits of `value`, highest first.
fn push_value(value: u32, width: usize, stream: &mut Badstream)
    requires
        width <= 32,
    ensures
        final(stream)@ == old(stream)@ + value_bits(value, width as nat),
{
    let ghost start = stream@;
    let mut k = width;
    while k > 0
        invariant
            k <= width,
            width <= 32,
            stream@ == start + value_bits(value, width as nat).subrange(0, (width - k) as int),
        decreases k,
    {
        k = k - 1;
        let bit = ((value >> (k as u32)) & 1) as u8;
        stream.push(bit);
        proof {
            assert(stream@ =~= start + value_bits(value, width as nat).subrange(0, (width - k) as int));
        }
    }
    assert(value_bits(value, width as nat).subrange(0, width as int) =~= value_bits(value, width as nat));
}

/// Writes a token as bits.
fn push_token_to_badstream(stream: &mut Badstream, token: Token, version: u32)
    requires
        token_valid(token),
        token is ModeAndCount ==> 1 <= version <= 40,
    ensures
        final(stream)@ == old(stream)@ + token_bits(token, version as int),
{
    let ghost start = stream@;
    match token {
        Token::EciChange(mode) => {
            push_value(7, 4, stream);
            if mode <= 0x7F {
                push_value(mode, 8, stream);
            } else if mode <= 0x3FFF {
                push_value(0x8000 | mode, 16, stream);
            } else {
                push_value(0xC00000 | mode, 24, stream);
            }
        },
        Token::ModeAndCount(mode, count) => {
            let indicator: u32 = match mode {
                Mode::Numeric => 1,
                Mode::AlphaNum => 2,
                Mode::ASCII => 4,
                Mode::Kanji => 8,
            };
            push_value(indicator, 4, stream);
            let class = version_to_class(version);
            let width = cc_indicator_bit_size(class, mode);
            proof { lemma_cc_bits(class as int, mode); }
            push_value(count as u32, width, stream);
        },
        Token::Character(width, address) => {
            push_value(address as u32, width, stream);
        },
        Token::Terminator => {
            push_value(0, 4, stream);
        },
    }
    assert(stream@ =~= start + token_bits(token, version as int));
}

/// The bits of a sequence of tokens.
pub open spec fn tokens_bits(ts: Seq<Token>, version: int) -> Seq<u8>
    decreases ts.len(),
{
    if ts.len() == 0 {
        Seq::empty()
    } else {
        tokens_bits(ts.drop_last(), version) + token_bits(ts.last(), version)
    }
}

/// Every token of the sequence can be written in a symbol of `version`.
pub open spec fn tokens_valid(ts: Seq<Token>, version: int) -> bool {
    forall|i: int| 0 <= i < ts.len() ==> token_valid(#[trigger] ts[i])
        && (ts[i] is ModeAndCount ==> 1 <= version <= 40)
}

/// Writes a sequence of tokens as one stream of bits.
pub fn tokens_to_badstream(stream: Vec<Token>, version: u32) -> (r: Badstream)
    requires
        tokens_valid(stream@, version as int),
    ensures
        r@ == tokens_bits(stream@, version as int),
{
    let mut output: Badstream = Vec::new();
    let mut i: usize = 0;
    while i < stream.len()
        invariant
            tokens_valid(stream@, version as int),
            i <= stream@.len(),
            output@ == tokens_bits(stream@.subrange(0, i as int), version as int),
        decreases stream@.len() - i,
    {
        push_token_to_badstream(&mut output, stream[i], version);
        proof {
            assert(stream@.subrange(0, i + 1).drop_last() =~= stream@.subrange(0, i as int));
        }
        i = i + 1;
    }
    assert(stream@.subrange(0, i as int) =~= stream@);
    output
}

/// The tokens of an ASCII segment made of the bytes `bytes`.
pub open spec fn ascii_tokens(bytes: Seq<u8>) -> Seq<Token> {
    seq![Token::ModeAndCount(Mode::ASCII, bytes.len() as u16)]
        + bytes.map_values(|b: u8| Token::Character(8, b as u16))
}

/// Encodes a string byte by byte.
fn string_to_ascii(input: &str) -> (r: Vec<Token>)
    ensures
        r@ == ascii_tokens(encode_utf8(input@)),
{
    let bytes = input.as_bytes();
    let ghost b = encode_utf8(input@);
    let mut output: Vec<Token> = Vec::new();
    output.push(Token::ModeAndCount(Mode::ASCII, bytes.len() as u16));
    let mut i: usize = 0;
    assert(output@ =~= seq![Token::ModeAndCount(Mode::ASCII, b.len() as u16)]
        + b.subrange(0, 0).map_values(|x: u8| Token::Character(8, x as u16)));
    while i < bytes.len()
        invariant
            bytes@ == b,
            i <= b.len(),
            output@ == seq![Token::ModeAndCount(Mode::ASCII, b.len() as u16)]
                + b.subrange(0, i as int).map_values(|x: u8| Token::Character(8, x as u16)),
        decreases b.len() - i,
    {
        output.push(Token::Character(8, bytes[i] as u16));
        proof {
            assert(output@ =~= seq![Token::ModeAndCount(Mode::ASCII, b.len() as u16)]
                + b.subrange(0, i + 1).map_values(|x: u8| Token::Character(8, x as u16)));
        }
        i = i + 1;
    }
    assert(b.subrange(0, i as int) =~= b);
    output
}

/// A decimal digit.
pub open spec fn is_digit(c: char) -> bool {
    '0' <= c <= '9'
}

/// The value of a decimal digit.
pub open spec fn digit_value(c: char) -> int {
    c as int - '0' as int
}

/// The character tokens of the digits of `s` from position `i` on: groups
/// of three digits in 10 bits, a last group of two in 7 bits or of one in
/// 4 bits.
pub open spec fn numeric_from(s: Seq<char>, i: int) -> Seq<Token>
    decreases s.len() - i,
{
    if i < 0 || i >= s.len() {
        Seq::empty()
    } else if i + 3 <= s.len() {
        seq![Token::Character(10, (digit_value(s[i]) * 100 + digit_value(s[i + 1]) * 10 + digit_value(s[i + 2])) as u16)]
            + numeric_from(s, i + 3)
    } else if i + 2 == s.len() {
        seq![Token::Character(7, (digit_value(s[i]) * 10 + digit_value(s[i + 1])) as u16)]
    } else {
        seq![Token::Character(4, digit_value(s[i]) as u16)]
    }
}

/// The tokens of a numeric segment.
pub open spec fn numeric_tokens(s: Seq<char>) -> Seq<Token> {
    seq![Token::ModeAndCount(Mode::Numeric, s.len() as u16)] + numeric_from(s, 0)
}

proof fn lemma_numeric_from(s: Seq<char>, i: int)
    requires
        0 <= i <= s.len(),
    ensures
        numeric_from(s, i).len() == (s.len() - i + 2) / 3,
        forall|k: int| 0 <= k && i + 3 * k + 3 <= s.len() ==> #[trigger] numeric_from(s, i)[k]
            == Token::Character(10, ((s[i + 3 * k] as int - 48) * 100 + (s[i + 3 * k + 1] as int - 48) * 10
                + (s[i + 3 * k + 2] as int - 48)) as u16),
        (s.len() - i) % 3 == 2 ==> numeric_from(s, i)[(s.len() - i) / 3]
            == Token::Character(7, ((s[s.len() - 2] as int - 48) * 10 + (s[s.len() - 1] as int - 48)) as u16),
        (s.len() - i) % 3 == 1 ==> numeric_from(s, i)[(s.len() - i) / 3]
            == Token::Character(4, (s[s.len() - 1] as int - 48) as u16),
    decreases s.len() - i,
{
    assert('0' as int == 48);
    if i + 3 <= s.len() {
        lemma_numeric_from(s, i + 3);
        let rest = numeric_from(s, i + 3);
        assert forall|k: int| 0 <= k && i + 3 * k + 3 <= s.len() implies #[trigger] numeric_from(s, i)[k]
            == Token::Character(10, ((s[i + 3 * k] as int - 48) * 100 + (s[i + 3 * k + 1] as int - 48) * 10
                + (s[i + 3 * k + 2] as int - 48)) as u16) by {
            if k > 0 {
                assert(numeric_from(s, i)[k] == rest[k - 1]);
                assert(i + 3 + 3 * (k - 1) == i + 3 * k);
            }
        }
        if (s.len() - i) % 3 != 0 {
            assert(numeric_from(s, i)[(s.len() - i) / 3] == rest[(s.len() - i - 3) / 3]);
        }
    }
}

/// Numeric segments hold the digits in order: a mode and count token, then
/// each full group of three digits as the three-digit decimal number they
/// write (most significant first) in 10 bits, and a last group of two digits
/// in 7 bits or of one in 4.
pub proof fn lemma_numeric_groups(s: Seq<char>)
    ensures
        numeric_tokens(s).len() == 1 + (s.len() + 2) / 3,
        numeric_tokens(s)[0] == Token::ModeAndCount(Mode::Numeric, s.len() as u16),
        forall|k: int| 0 <= k && 3 * k + 3 <= s.len() ==> #[trigger] numeric_tokens(s)[1 + k]
            == Token::Character(10, ((s[3 * k] as int - 48) * 100 + (s[3 * k + 1] as int - 48) * 10
                + (s[3 * k + 2] as int - 48)) as u16),
        s.len() % 3 == 2 ==> numeric_tokens(s)[(1 + s.len() / 3) as int]
            == Token::Character(7, ((s[s.len() - 2] as int - 48) * 10 + (s[s.len() - 1] as int - 48)) as u16),
        s.len() % 3 == 1 ==> numeric_tokens(s)[(1 + s.len() / 3) as int]
            == Token::Character(4, (s[s.len() - 1] as int - 48) as u16),
{
    lemma_numeric_from(s, 0);
    let f = numeric_from(s, 0);
    assert forall|k: int| 0 <= k && 3 * k + 3 <= s.len() implies #[trigger] numeric_tokens(s)[1 + k]
        == Token::Character(10, ((s[3 * k] as int - 48) * 100 + (s[3 * k + 1] as int - 48) * 10
            + (s[3 * k + 2] as int - 48)) as u16) by {
        assert(numeric_tokens(s)[1 + k] == f[k]);
        assert(0 + 3 * k == 3 * k);
    }
    if s.len() % 3 != 0 {
        assert(numeric_tokens(s)[(1 + s.len() / 3) as int] == f[(s.len() / 3) as int]);
    }
}

/// Encodes a string of decimal digits, three digits in 10 bits.
fn string_to_numeric(input: &str) -> (r: Vec<Token>)
    requires
        forall|i: int| 0 <= i < input@.len() ==> is_digit(#[trigger] input@[i]),
    ensures
        r@ == numeric_tokens(input@),
{
    broadcast use vstd::string::is_ascii_spec_bytes;
    proof { assert(vstd::string::is_ascii(input)); }
    let bytes = input.as_bytes();
    let ghost s = input@;
    let n = bytes.len();
    let mut output: Vec<Token> = Vec::new();
    output.push(Token::ModeAndCount(Mode::Numeric, n as u16));
    let mut i: usize = 0;
    while i < n
        invariant
            n == s.len(),
            bytes@.len() == s.len(),
            forall|k: int| 0 <= k < s.len() ==> #[trigger] bytes@[k] == s[k] as u8,
            forall|k: int| 0 <= k < s.len() ==> is_digit(#[trigger] s[k]),
            i <= n,
            output@ + numeric_from(s, i as int) == numeric_tokens(s),
        decreases n - i,
    {
        let ghost before = output@;
        let d0 = (bytes[i] - 48) as u16;
        proof { assert(d0 == digit_value(s[i as int])); }
        if n - i >= 3 {
            let d1 = (bytes[i + 1] - 48) as u16;
            let d2 = (bytes[i + 2] - 48) as u16;
            proof {
                assert(d1 == digit_value(s[i + 1]));
                assert(d2 == digit_value(s[i + 2]));
            }
            output.push(Token::Character(10, d0 * 100 + d1 * 10 + d2));
            proof { assert(output@ + numeric_from(s, i + 3) =~= before + numeric_from(s, i as int)); }
            i = i + 3;
        } else if n - i == 2 {
            let d1 = (bytes[i + 1] - 48) as u16;
            proof { assert(d1 == digit_value(s[i + 1])); }
            output.push(Token::Character(7, d0 * 10 + d1));
            proof { assert(output@ + numeric_from(s, n as int) =~= before + numeric_from(s, i as int)); }
            i = n;
        } else {
            output.push(Token::Character(4, d0));
            proof { assert(output@ + numeric_from(s, n as int) =~= before + numeric_from(s, i as int)); }
            i = n;
        }
    }
    assert(output@ =~= output@ + numeric_from(s, i as int));
    output
}

/// A character of the alphanumeric set.
pub open spec fn is_alphanum(c: char) -> bool {
    spec_alphanum_value(c) is Some
}

/// The character tokens of the alphanumeric characters of `s` from position
/// `i` on: pairs in 11 bits, a last single character in 6 bits.
pub open spec fn alphanum_from(s: Seq<char>, i: int) -> Seq<Token>
    decreases s.len() - i,
{
    if i < 0 || i >= s.len() {
        Seq::empty()
    } else if i + 2 <= s.len() {
        seq![Token::Character(11, (spec_alphanum_value(s[i])->0 * 45 + spec_alphanum_value(s[i + 1])->0) as u16)]
            + alphanum_from(s, i + 2)
    } else {
        seq![Token::Character(6, spec_alphanum_value(s[i])->0 as u16)]
    }
}

proof fn lemma_alphanum_from(s: Seq<char>, i: int)
    requires
        0 <= i <= s.len(),
        forall|j: int| 0 <= j < s.len() ==> alphanum_set().contains(#[trigger] s[j]),
    ensures
        alphanum_from(s, i).len() == (s.len() - i + 1) / 2,
        forall|k: int, a: int, b: int| #![trigger alphanum_from(s, i)[k], alphanum_set()[a], alphanum_set()[b]] 0 <= k && i + 2 * k + 2 <= s.len() && 0 <= a < 45 && 0 <= b < 45
            && alphanum_set()[a] == s[i + 2 * k] && alphanum_set()[b] == s[i + 2 * k + 1]
            ==> alphanum_from(s, i)[k] == Token::Character(11, (45 * a + b) as u16),
        forall|a: int| (s.len() - i) % 2 == 1 && 0 <= a < 45 && #[trigger] alphanum_set()[a] == s[s.len() - 1]
            ==> alphanum_from(s, i)[(s.len() - i) / 2] == Token::Character(6, a as u16),
    decreases s.len() - i,
{
    if i < s.len() {
        lemma_alphanum_value(s[i]);
        if i + 1 < s.len() {
            lemma_alphanum_value(s[i + 1]);
        }
    }
    if i + 2 <= s.len() {
        lemma_alphanum_from(s, i + 2);
        let rest = alphanum_from(s, i + 2);
        assert forall|k: int, a: int, b: int| #![trigger alphanum_from(s, i)[k], alphanum_set()[a], alphanum_set()[b]] 0 <= k && i + 2 * k + 2 <= s.len() && 0 <= a < 45 && 0 <= b < 45
            && alphanum_set()[a] == s[i + 2 * k] && alphanum_set()[b] == s[i + 2 * k + 1]
            implies alphanum_from(s, i)[k] == Token::Character(11, (45 * a + b) as u16) by {
            if k > 0 {
                assert(alphanum_from(s, i)[k] == rest[k - 1]);
                assert(i + 2 + 2 * (k - 1) == i + 2 * k);
            } else {
                let va = spec_alphanum_value(s[i])->0;
                let vb = spec_alphanum_value(s[i + 1])->0;
                lemma_alphanum_set_distinct(a, va);
                lemma_alphanum_set_distinct(b, vb);
            }
        }
        if (s.len() - i) % 2 == 1 {
            assert(alphanum_from(s, i)[(s.len() - i) / 2] == rest[(s.len() - i - 2) / 2]);
        }
    } else if i + 1 == s.len() {
        assert forall|a: int| (s.len() - i) % 2 == 1 && 0 <= a < 45 && #[trigger] alphanum_set()[a] == s[s.len() - 1]
            implies alphanum_from(s, i)[(s.len() - i) / 2] == Token::Character(6, a as u16) by {
            lemma_alphanum_set_distinct(a, spec_alphanum_value(s[i])->0);
        }
    }
}

/// Alphanumeric segments hold the characters in order: a mode and count
/// token, then each pair of characters as 45 times the first's place in the
/// alphanumeric set plus the second's, in 11 bits, and a last single
/// character as its place, in 6 bits.
pub proof fn lemma_alphanum_pairs(s: Seq<char>)
    requires
        forall|j: int| 0 <= j < s.len() ==> alphanum_set().contains(#[trigger] s[j]),
    ensures
        alphanum_tokens(s).len() == 1 + (s.len() + 1) / 2,
        alphanum_tokens(s)[0] == Token::ModeAndCount(Mode::AlphaNum, s.len() as u16),
        forall|k: int, a: int, b: int| #![trigger alphanum_tokens(s)[1 + k], alphanum_set()[a], alphanum_set()[b]] 0 <= k && 2 * k + 2 <= s.len() && 0 <= a < 45 && 0 <= b < 45
            && alphanum_set()[a] == s[2 * k] && alphanum_set()[b] == s[2 * k + 1]
            ==> alphanum_tokens(s)[1 + k] == Token::Character(11, (45 * a + b) as u16),
        forall|a: int| s.len() % 2 == 1 && 0 <= a < 45 && #[trigger] alphanum_set()[a] == s[s.len() - 1]
            ==> alphanum_tokens(s)[(1 + s.len() / 2) as int] == Token::Character(6, a as u16),
{
    lemma_alphanum_from(s, 0);
    let f = alphanum_from(s, 0);
    assert forall|k: int, a: int, b: int| #![trigger alphanum_tokens(s)[1 + k], alphanum_set()[a], alphanum_set()[b]] 0 <= k && 2 * k + 2 <= s.len() && 0 <= a < 45 && 0 <= b < 45
        && alphanum_set()[a] == s[2 * k] && alphanum_set()[b] == s[2 * k + 1]
        implies alphanum_tokens(s)[1 + k] == Token::Character(11, (45 * a + b) as u16) by {
        assert(alphanum_tokens(s)[1 + k] == f[k]);
        assert(0 + 2 * k == 2 * k);
        assert(f[k] == Token::Character(11, (45 * a + b) as u16));
    }
    if s.len() % 2 == 1 {
        assert(alphanum_tokens(s)[(1 + s.len() / 2) as int] == f[(s.len() / 2) as int]);
    }
}

/// The tokens of an alphanumeric segment; its count is the byte length.
pub open spec fn alphanum_tokens(s: Seq<char>) -> Seq<Token> {
    seq![Token::ModeAndCount(Mode::AlphaNum, s.len() as u16)] + alphanum_from(s, 0)
}

/// Encodes a string of alphanumeric characters, two in 11 bits.
fn string_to_alphanum(input: &str) -> (r: Vec<Token>)
    requires
        forall|i: int| 0 <= i < input@.len() ==> is_alphanum(#[trigger] input@[i]),
    ensures
        r@ == alphanum_tokens(input@),
{
    broadcast use vstd::string::is_ascii_spec_bytes;
    proof {
        assert forall|i: int| 0 <= i < input@.len() implies '\0' <= #[trigger] input@[i] <= '\u{7f}' by {
            assert(is_alphanum(input@[i]));
        }
        assert(vstd::string::is_ascii(input));
    }
    let bytes = input.as_bytes();
    let ghost s = input@;
    let n = bytes.len();
    let mut output: Vec<Token> = Vec::new();
    output.push(Token::ModeAndCount(Mode::AlphaNum, n as u16));
    let mut i: usize = 0;
    while i < n
        invariant
            n == s.len(),
            bytes@.len() == s.len(),
            forall|k: int| 0 <= k < s.len() ==> #[trigger] bytes@[k] == s[k] as u8,
            forall|k: int| 0 <= k < s.len() ==> is_alphanum(#[trigger] s[k]),
            i <= n,
            output@ + alphanum_from(s, i as int) == alphanum_tokens(s),
        decreases n - i,
    {
        let ghost before = output@;
        let c0 = bytes[i] as char;
        proof { assert(c0 == s[i as int]); }
        let v0 = match alphanum_value(c0) { Some(v) => v, None => 0 };
        if n - i >= 2 {
            let c1 = bytes[i + 1] as char;
            proof { assert(c1 == s[i + 1]); }
            let v1 = match alphanum_value(c1) { Some(v) => v, None => 0 };
            output.push(Token::Character(11, v0 * 45 + v1));
            proof { assert(output@ + alphanum_from(s, i + 2) =~= before + alphanum_from(s, i as int)); }
            i = i + 2;
        } else {
            output.push(Token::Character(6, v0));
            proof { assert(output@ + alphanum_from(s, n as int) =~= before + alphanum_from(s, i as int)); }
            i = n;
        }
    }
    assert(output@ =~= output@ + alphanum_from(s, i as int));
    output
}

/// A segment of text can be written in its mode: numeric segments hold
/// only digits, alphanumeric ones only alphanumeric characters, and kanji
/// is not supported.
pub open spec fn segment_valid(mode: Mode, s: Seq<char>) -> bool {
    match mode {
        Mode::Numeric => forall|i: int| 0 <= i < s.len() ==> is_digit(#[trigger] s[i]),
        Mode::AlphaNum => forall|i: int| 0 <= i < s.len() ==> is_alphanum(#[trigger] s[i]),
        Mode::ASCII => true,
        Mode::Kanji => false,
    }
}

/// The tokens of a segment of text in a mode.
pub open spec fn segment_tokens(mode: Mode, s: Seq<char>) -> Seq<Token> {
    match mode {
        Mode::Numeric => numeric_tokens(s),
        Mode::AlphaNum => alphanum_tokens(s),
        _ => ascii_tokens(encode_utf8(s)),
    }
}

/// The tokens of the first `n` segments.
pub open spec fn segments_tokens(input: Seq<(Mode, Seq<char>)>, n: int) -> Seq<Token>
    decreases n,
{
    if n <= 0 {
        Seq::empty()
    } else {
        segments_tokens(input, n - 1) + segment_tokens(input[n - 1].0, input[n - 1].1)
    }
}

/// The modes and characters of a sequence of segments.
pub open spec fn segs_view(segs: Seq<(Mode, String)>) -> Seq<(Mode, Seq<char>)> {
    segs.map_values(|seg: (Mode, String)| (seg.0, seg.1@))
}

/// The tokens of a message: an ECI marker if asked for, the segments, and
/// the terminator.
pub open spec fn spec_token_stream(input: Seq<(Mode, Seq<char>)>, eci: Option<u32>) -> Seq<Token> {
    (match eci {
        Some(c) => seq![Token::EciChange(c)],
        None => Seq::empty(),
    }) + segments_tokens(input, input.len() as int) + seq![Token::Terminator]
}

/// Turns the segments of a message into tokens.
pub fn make_token_stream(input: Vec<(Mode, String)>, eci: Option<u32>) -> (r: Vec<Token>)
    requires
        forall|i: int| 0 <= i < input@.len() ==> segment_valid(#[trigger] input@[i].0, input@[i].1@),
    ensures
        r@ == spec_token_stream(segs_view(input@), eci),
{
    let ghost segs = segs_view(input@);
    let mut stream: Vec<Token> = Vec::new();
    match eci {
        Some(char_set) => stream.push(Token::EciChange(char_set)),
        None => {},
    }
    let ghost head = stream@;
    assert(head == (match eci {
        Some(c) => seq![Token::EciChange(c)],
        None => Seq::<Token>::empty(),
    }));
    let mut i: usize = 0;
    while i < input.len()
        invariant
            forall|k: int| 0 <= k < input@.len() ==> segment_valid(#[trigger] input@[k].0, input@[k].1@),
            i <= input@.len(),
            segs == segs_view(input@),
            stream@ == head + segments_tokens(segs, i as int),
        decreases input@.len() - i,
    {
        let mode = input[i].0;
        let data = input[i].1.as_str();
        assert(segment_valid(input@[i as int].0, input@[i as int].1@));
        let mut tokens = match mode {
            Mode::Numeric => string_to_numeric(data),
            Mode::AlphaNum => string_to_alphanum(data),
            _ => string_to_ascii(data),
        };
        stream.append(&mut tokens);
        proof {
            assert(segs[i as int] == (mode, data@));
            assert(stream@ =~= head + segments_tokens(segs, i + 1));
        }
        i = i + 1;
    }
    stream.push(Token::Terminator);
    stream
}

/// The bits a token always takes (all but the character count indicator).
pub open spec fn token_fixed_bits(t: Token) -> int {
    match t {
        Token::EciChange(d) => if d <= 0x7F { 12 } else if d <= 0x3FFF { 20 } else { 28 },
        Token::ModeAndCount(..) => 4,
        Token::Character(width, _) => width as int,
        Token::Terminator => 4,
    }
}

/// The bits the first `n` tokens always take.
pub open spec fn fixed_bits(ts: Seq<Token>, n: int) -> int
    decreases n,
{
    if n <= 0 {
        0
    } else {
        fixed_bits(ts, n - 1) + token_fixed_bits(ts[n - 1])
    }
}

/// The number of character count indicators of the mode in column `m`
/// (numeric, alphanumeric, ASCII, kanji) among the first `n` tokens.
pub open spec fn mode_count(ts: Seq<Token>, n: int, m: int) -> int
    decreases n,
{
    if n <= 0 {
        0
    } else {
        mode_count(ts, n - 1, m) + (match ts[n - 1] {
            Token::ModeAndCount(mode, _) => if mode.rank() == m { 1int } else { 0int },
            _ => 0int,
        })
    }
}

proof fn lemma_counts_grow(ts: Seq<Token>, a: int, b: int)
    requires
        0 <= a <= b,
    ensures
        fixed_bits(ts, a) <= fixed_bits(ts, b),
        forall|m: int| mode_count(ts, a, m) <= #[trigger] mode_count(ts, b, m),
        forall|m: int| 0 <= #[trigger] mode_count(ts, a, m) <= a,
    decreases b - a,
{
    if a < b {
        lemma_counts_grow(ts, a, b - 1);
        let t = ts[b - 1];
        assert(fixed_bits(ts, b) == fixed_bits(ts, b - 1) + token_fixed_bits(t));
        match t {
            Token::Character(w, _) => assert(token_fixed_bits(t) == w),
            _ => {},
        }
        assert forall|m: int| mode_count(ts, a, m) <= #[trigger] mode_count(ts, b, m) by {
            assert(mode_count(ts, a, m) <= mode_count(ts, b - 1, m));
            assert(mode_count(ts, b - 1, m) <= mode_count(ts, b, m));
        }
    } else {
        assert forall|m: int| 0 <= #[trigger] mode_count(ts, a, m) <= a by {
            lemma_mode_count_bound(ts, a, m);
        }
    }
}

proof fn lemma_mode_count_bound(ts: Seq<Token>, n: int, m: int)
    requires
        0 <= n,
    ensures
        0 <= mode_count(ts, n, m) <= n,
    decreases n,
{
    if n > 0 {
        lemma_mode_count_bound(ts, n - 1, m);
    }
}

/// The bits a sequence of tokens always takes, and how many character count
/// indicators of each mode it has.
pub fn bit_overhead_template(data: &Vec<Token>) -> (r: (usize, [usize; 4]))
    requires
        forall|i: int| 0 <= i < data@.len() ==> token_valid(#[trigger] data@[i]),
        fixed_bits(data@, data@.len() as int) <= usize::MAX,
    ensures
        r.0 == fixed_bits(data@, data@.len() as int),
        forall|m: int| 0 <= m < 4 ==> #[trigger] r.1@[m] == mode_count(data@, data@.len() as int, m),
{
    let ghost ts = data@;
    let mut bit_sum: usize = 0;
    let mut numeric: usize = 0;
    let mut alphanum: usize = 0;
    let mut ascii: usize = 0;
    let mut kanji: usize = 0;
    let mut i: usize = 0;
    while i < data.len()
        invariant
            ts == data@,
            forall|k: int| 0 <= k < ts.len() ==> token_valid(#[trigger] ts[k]),
            fixed_bits(ts, ts.len() as int) <= usize::MAX,
            i <= ts.len(),
            bit_sum == fixed_bits(ts, i as int),
            numeric == mode_count(ts, i as int, 0),
            alphanum == mode_count(ts, i as int, 1),
            ascii == mode_count(ts, i as int, 2),
            kanji == mode_count(ts, i as int, 3),
        decreases ts.len() - i,
    {
        proof {
            lemma_counts_grow(ts, i + 1, ts.len() as int);
            lemma_mode_count_bound(ts, i as int, 0);
            lemma_mode_count_bound(ts, i as int, 1);
            lemma_mode_count_bound(ts, i as int, 2);
            lemma_mode_count_bound(ts, i as int, 3);
        }
        match data[i] {
            Token::EciChange(mode) => {
                bit_sum = bit_sum + if mode <= 0x7F { 12 } else if mode <= 0x3FFF { 20 } else { 28 };
            },
            Token::ModeAndCount(mode, _) => {
                bit_sum = bit_sum + 4;
                match mode {
                    Mode::Numeric => { numeric = numeric + 1; },
                    Mode::AlphaNum => { alphanum = alphanum + 1; },
                    Mode::ASCII => { ascii = ascii + 1; },
                    Mode::Kanji => { kanji = kanji + 1; },
                }
            },
            Token::Character(length, _) => {
                bit_sum = bit_sum + length;
            },
            Token::Terminator => {
                bit_sum = bit_sum + 4;
            },
        }
        i = i + 1;
    }
    let counts = [numeric, alphanum, ascii, kanji];
    assert(counts@[0] == numeric && counts@[1] == alphanum && counts@[2] == ascii && counts@[3] == kanji);
    (bit_sum, counts)
}

/// The width of a character count indicator in a size class, by column.
pub open spec fn cc_column(class: int, m: int) -> int {
    CC_INDICATOR_BITS@[class * 4 + m] as int
}

/// The total bits of a message whose tokens always take `fixed` bits and
/// hold `counts` character count indicators of each mode, in a symbol of
/// size class `class`.
pub open spec fn overhead_total(fixed: int, counts: Seq<usize>, class: int) -> int {
    fixed + cc_column(class, 0) * counts[0] + cc_column(class, 1) * counts[1]
        + cc_column(class, 2) * counts[2] + cc_column(class, 3) * counts[3]
}

/// The total bits of a message in a symbol of version `version`, from its
/// overhead template.
pub fn compute_bit_overhead(overhead: (usize, [usize; 4]), version: u32) -> (r: usize)
    requires
        1 <= version <= 40,
        overhead_total(overhead.0 as int, overhead.1@, spec_version_class(version as int)) <= usize::MAX,
    ensures
        r == overhead_total(overhead.0 as int, overhead.1@, spec_version_class(version as int)),
{
    let class = version_to_class(version) as usize;
    let (mut sum, indicators) = overhead;
    let ghost total = overhead_total(overhead.0 as int, overhead.1@, class as int);
    let mut m: usize = 0;
    while m < 4
        invariant
            class < 3,
            indicators@ == overhead.1@,
            total == overhead_total(overhead.0 as int, overhead.1@, class as int),
            total <= usize::MAX,
            m <= 4,
            sum == overhead.0 + (if m > 0 { cc_column(class as int, 0) * indicators@[0] } else { 0 })
                + (if m > 1 { cc_column(class as int, 1) * indicators@[1] } else { 0 })
                + (if m > 2 { cc_column(class as int, 2) * indicators@[2] } else { 0 })
                + (if m > 3 { cc_column(class as int, 3) * indicators@[3] } else { 0 }),
        decreases 4 - m,
    {
        let width = CC_INDICATOR_BITS[class * 4 + m];
        proof {
            assert(0 <= cc_column(class as int, 0) * indicators@[0]) by (nonlinear_arith);
            assert(0 <= cc_column(class as int, 1) * indicators@[1]) by (nonlinear_arith);
            assert(0 <= cc_column(class as int, 2) * indicators@[2]) by (nonlinear_arith);
            assert(0 <= cc_column(class as int, 3) * indicators@[3]) by (nonlinear_arith);
            assert(width == cc_column(class as int, m as int));
        }
        sum = sum + width * indicators[m];
        m = m + 1;
    }
    sum
}

/// The message fits a symbol whose data capacity is `capacity` codewords:
/// exactly, or with at least a whole codeword to spare.
pub open spec fn fits(capacity: int, bits: int) -> bool {
    8 * capacity >= bits && (8 * capacity - bits == 0 || 8 * capacity - bits > 7)
}

/// The smallest version from `v` to 40 whose capacity at `level` fits a
/// message with the given overhead template.
pub open spec fn smallest_fit(fixed: int, counts: Seq<usize>, level: int, v: int) -> Option<int>
    decreases 41 - v,
{
    if v < 1 || v > 40 {
        None
    } else if fits(data_codewords(level, v), overhead_total(fixed, counts, spec_version_class(v))) {
        Some(v)
    } else {
        smallest_fit(fixed, counts, level, v + 1)
    }
}

/// A version found by `smallest_fit` from `v` lies between `v` and 40.
pub proof fn lemma_smallest_fit_range(fixed: int, counts: Seq<usize>, level: int, v: int)
    ensures
        smallest_fit(fixed, counts, level, v) matches Some(r) ==> v <= r <= 40 && r >= 1,
    decreases 41 - v,
{
    if 1 <= v <= 40 && !fits(data_codewords(level, v), overhead_total(fixed, counts, spec_version_class(v))) {
        lemma_smallest_fit_range(fixed, counts, level, v + 1);
    }
}

/// The letter of an error correction level: L, M, Q or H.
pub open spec fn level_letter(level: int) -> char {
    if level == 0 {
        'L'
    } else if level == 1 {
        'M'
    } else if level == 2 {
        'Q'
    } else {
        'H'
    }
}

/// The message that no version of a level fits the data.
pub open spec fn no_fit_text(level: int) -> Seq<char> {
    "no qr code of level "@ + seq![level_letter(level)] + " fits this message"@
}

/// The letter of a level, L, M, Q or H, as `level_letter` gives it.
fn letter_of_level(level: u8) -> (r: char)
    ensures
        r == level_letter(level as int),
{
    if level == 0 {
        'L'
    } else if level == 1 {
        'M'
    } else if level == 2 {
        'Q'
    } else {
        'H'
    }
}

/// The message that no version fits, for the level with letter `letter`.
fn no_fit_message(letter: char) -> (r: String)
    ensures
        r@ == "no qr code of level "@ + seq![letter] + " fits this message"@,
{
    let mut msg = String::from_str("no qr code of level ");
    push_char(&mut msg, letter);
    msg.append(" fits this message");
    msg
}

/// The smallest QR version whose capacity at `level` holds the tokens, with
/// either no bit or at least a whole codeword to spare.
pub fn find_best_version(data: &Vec<Token>, level: u8) -> (r: Result<u32, String>)
    requires
        level <= 3,
        forall|i: int| 0 <= i < data@.len() ==> token_valid(#[trigger] data@[i]),
        fixed_bits(data@, data@.len() as int) <= usize::MAX,
        forall|m: int| 0 <= m < 4 ==> #[trigger] mode_count(data@, data@.len() as int, m) * 16
            <= usize::MAX / 8,
        fixed_bits(data@, data@.len() as int) <= usize::MAX / 2,
    ensures
        r matches Ok(v) ==> smallest_fit(fixed_bits(data@, data@.len() as int),
            seq![mode_count(data@, data@.len() as int, 0) as usize, mode_count(data@, data@.len() as int, 1) as usize,
                mode_count(data@, data@.len() as int, 2) as usize, mode_count(data@, data@.len() as int, 3) as usize],
            level as int, 1) == Some(v as int),
        r is Err ==> smallest_fit(fixed_bits(data@, data@.len() as int),
            seq![mode_count(data@, data@.len() as int, 0) as usize, mode_count(data@, data@.len() as int, 1) as usize,
                mode_count(data@, data@.len() as int, 2) as usize, mode_count(data@, data@.len() as int, 3) as usize],
            level as int, 1) is None,
        r matches Err(msg) ==> msg@ == no_fit_text(level as int),
{
    let overhead = bit_overhead_template(data);
    let ghost fixed = overhead.0 as int;
    let ghost counts = overhead.1@;
    proof {
        assert(counts =~= seq![mode_count(data@, data@.len() as int, 0) as usize, mode_count(data@, data@.len() as int, 1) as usize,
            mode_count(data@, data@.len() as int, 2) as usize, mode_count(data@, data@.len() as int, 3) as usize]);
    }
    let mut version: u32 = 1;
    while version <= 40
        invariant
            1 <= version <= 41,
            level <= 3,
            fixed == overhead.0,
            counts == overhead.1@,
            fixed == fixed_bits(data@, data@.len() as int),
            counts == seq![mode_count(data@, data@.len() as int, 0) as usize, mode_count(data@, data@.len() as int, 1) as usize,
                mode_count(data@, data@.len() as int, 2) as usize, mode_count(data@, data@.len() as int, 3) as usize],
            fixed <= usize::MAX / 2,
            forall|m: int| 0 <= m < 4 ==> #[trigger] counts[m] * 16 <= usize::MAX / 8,
            smallest_fit(fixed, counts, level as int, version as int) == smallest_fit(fixed, counts, level as int, 1),
        decreases 41 - version,
    {
        let ghost class = spec_version_class(version as int);
        proof {
            assert(counts[0] * 16 <= usize::MAX / 8);
            assert(counts[1] * 16 <= usize::MAX / 8);
            assert(counts[2] * 16 <= usize::MAX / 8);
            assert(counts[3] * 16 <= usize::MAX / 8);
            assert(forall|m: int| 0 <= m < 4 ==> cc_column(class, m) <= 16);
            assert(cc_column(class, 0) * counts[0] <= 16 * counts[0]) by (nonlinear_arith)
                requires cc_column(class, 0) <= 16;
            assert(cc_column(class, 1) * counts[1] <= 16 * counts[1]) by (nonlinear_arith)
                requires cc_column(class, 1) <= 16;
            assert(cc_column(class, 2) * counts[2] <= 16 * counts[2]) by (nonlinear_arith)
                requires cc_column(class, 2) <= 16;
            assert(cc_column(class, 3) * counts[3] <= 16 * counts[3]) by (nonlinear_arith)
                requires cc_column(class, 3) <= 16;
        }
        let needed = compute_bit_overhead(overhead, version);
        let capacity = 8 * DATA_CODEWORDS[level as usize * 40 + version as usize - 1];
        if capacity >= needed {
            let diff = capacity - needed;
            if diff == 0 || diff > 7 {
                proof {
                    assert(fits(data_codewords(level as int, version as int), needed as int));
                    assert(smallest_fit(fixed, counts, level as int, version as int) == Some(version as int));
                }
                return Ok(version);
            }
        }
        proof {
            assert(!fits(data_codewords(level as int, version as int), needed as int));
        }
        version = version + 1;
    }
    proof {
        assert(smallest_fit(fixed, counts, level as int, 41) is None);
    }
    Err(no_fit_message(letter_of_level(level)))
}

/// The smallest of the three text modes that a character belongs to.
pub open spec fn spec_char_status(x: char) -> Option<Mode> {
    if is_digit(x) {
        Some(Mode::Numeric)
    } else if is_alphanum(x) {
        Some(Mode::AlphaNum)
    } else if (x as u32) < 128 {
        Some(Mode::ASCII)
    } else {
        None
    }
}

/// The smallest mode subset of an ASCII character; nothing for any other
/// character.
pub fn char_status(x: char) -> (r: Option<Mode>)
    ensures
        r == spec_char_status(x),
{
    if '0' <= x && x <= '9' {
        Some(Mode::Numeric)
    } else if alphanum_value(x).is_some() {
        Some(Mode::AlphaNum)
    } else if (x as u32) < 128 {
        Some(Mode::ASCII)
    } else {
        None
    }
}

/// The bits of the first `n` tokens in a symbol of size class `class`, as
/// the overhead template counts them.
pub open spec fn counted_bits(ts: Seq<Token>, n: int, class: int) -> int {
    fixed_bits(ts, n) + cc_column(class, 0) * mode_count(ts, n, 0) + cc_column(class, 1) * mode_count(ts, n, 1)
        + cc_column(class, 2) * mode_count(ts, n, 2) + cc_column(class, 3) * mode_count(ts, n, 3)
}

proof fn lemma_counted_prefix(ts: Seq<Token>, version: int, n: int)
    requires
        1 <= version <= 40,
        0 <= n <= ts.len(),
        forall|i: int| 0 <= i < ts.len() ==> token_valid(#[trigger] ts[i]),
    ensures
        tokens_bits(ts.subrange(0, n), version).len() == counted_bits(ts, n, spec_version_class(version)),
    decreases n,
{
    let class = spec_version_class(version);
    if n > 0 {
        lemma_counted_prefix(ts, version, n - 1);
        assert(ts.subrange(0, n).drop_last() =~= ts.subrange(0, n - 1));
        let t = ts[n - 1];
        assert(ts.subrange(0, n).last() == t);
        let a = mode_count(ts, n - 1, 0);
        let b = mode_count(ts, n - 1, 1);
        let c = mode_count(ts, n - 1, 2);
        let d = mode_count(ts, n - 1, 3);
        let (c0, c1, c2, c3) = (cc_column(class, 0), cc_column(class, 1), cc_column(class, 2), cc_column(class, 3));
        match t {
            Token::ModeAndCount(mode, count) => {
                lemma_cc_bits(class, mode);
                assert(spec_cc_bits(class, mode) == cc_column(class, mode.rank()));
                assert(c0 * (a + 1) == c0 * a + c0 && c1 * (b + 1) == c1 * b + c1
                    && c2 * (c + 1) == c2 * c + c2 && c3 * (d + 1) == c3 * d + c3) by (nonlinear_arith);
            },
            _ => {},
        }
    } else {
        assert(ts.subrange(0, 0) =~= Seq::<Token>::empty());
    }
}

/// The overhead template of a sequence of tokens gives the number of bits
/// the tokens take in a symbol of any version.
pub proof fn lemma_template_counts_bits(ts: Seq<Token>, version: int)
    requires
        1 <= version <= 40,
        forall|i: int| 0 <= i < ts.len() ==> token_valid(#[trigger] ts[i]),
        ts.len() <= usize::MAX,
    ensures
        tokens_bits(ts, version).len() == overhead_total(fixed_bits(ts, ts.len() as int),
            seq![mode_count(ts, ts.len() as int, 0) as usize, mode_count(ts, ts.len() as int, 1) as usize,
                mode_count(ts, ts.len() as int, 2) as usize, mode_count(ts, ts.len() as int, 3) as usize],
            spec_version_class(version)),
{
    lemma_counted_prefix(ts, version, ts.len() as int);
    assert(ts.subrange(0, ts.len() as int) =~= ts);
    lemma_mode_count_bound(ts, ts.len() as int, 0);
    lemma_mode_count_bound(ts, ts.len() as int, 1);
    lemma_mode_count_bound(ts, ts.len() as int, 2);
    lemma_mode_count_bound(ts, ts.len() as int, 3);
}

/// Every token of the sequence can be written.
pub open spec fn all_valid(ts: Seq<Token>) -> bool {
    forall|i: int| 0 <= i < ts.len() ==> token_valid(#[trigger] ts[i])
}

proof fn lemma_all_valid_concat(a: Seq<Token>, b: Seq<Token>)
    requires
        all_valid(a),
        all_valid(b),
    ensures
        all_valid(a + b),
{
    assert forall|i: int| 0 <= i < (a + b).len() implies token_valid(#[trigger] (a + b)[i]) by {
        if i < a.len() {
            assert((a + b)[i] == a[i]);
        } else {
            assert((a + b)[i] == b[i - a.len()]);
        }
    }
}

proof fn lemma_numeric_valid(s: Seq<char>, i: int)
    ensures
        all_valid(numeric_from(s, i)),
    decreases s.len() - i,
{
    if !(i < 0 || i >= s.len()) && i + 3 <= s.len() {
        lemma_numeric_valid(s, i + 3);
        let t = seq![Token::Character(10, (digit_value(s[i]) * 100 + digit_value(s[i + 1]) * 10 + digit_value(s[i + 2])) as u16)];
        lemma_all_valid_concat(t, numeric_from(s, i + 3));
    }
}

proof fn lemma_alphanum_valid(s: Seq<char>, i: int)
    ensures
        all_valid(alphanum_from(s, i)),
    decreases s.len() - i,
{
    if !(i < 0 || i >= s.len()) && i + 2 <= s.len() {
        lemma_alphanum_valid(s, i + 2);
        let t = seq![Token::Character(11, (spec_alphanum_value(s[i])->0 * 45 + spec_alphanum_value(s[i + 1])->0) as u16)];
        lemma_all_valid_concat(t, alphanum_from(s, i + 2));
    }
}

proof fn lemma_segments_valid(segs: Seq<(Mode, Seq<char>)>, n: int)
    ensures
        all_valid(segments_tokens(segs, n)),
    decreases n,
{
    if n > 0 {
        lemma_segments_valid(segs, n - 1);
        let (mode, s) = segs[n - 1];
        let head = seq![Token::ModeAndCount(mode, s.len() as u16)];
        match mode {
            Mode::Numeric => {
                lemma_numeric_valid(s, 0);
                lemma_all_valid_concat(head, numeric_from(s, 0));
            },
            Mode::AlphaNum => {
                lemma_alphanum_valid(s, 0);
                lemma_all_valid_concat(head, alphanum_from(s, 0));
            },
            _ => {},
        }
        lemma_all_valid_concat(segments_tokens(segs, n - 1), segment_tokens(mode, s));
    }
}

/// Every token of a message can be written, given an ECI designator below
/// one million.
pub proof fn lemma_token_stream_valid(segs: Seq<(Mode, Seq<char>)>, eci: Option<u32>)
    requires
        eci matches Some(c) ==> c <= 999999,
    ensures
        all_valid(spec_token_stream(segs, eci)),
{
    lemma_segments_valid(segs, segs.len() as int);
    let head: Seq<Token> = match eci {
        Some(c) => seq![Token::EciChange(c)],
        None => Seq::empty(),
    };
    lemma_all_valid_concat(head, segments_tokens(segs, segs.len() as int));
    lemma_all_valid_concat(head + segments_tokens(segs, segs.len() as int), seq![Token::Terminator]);
}

} // verus!
