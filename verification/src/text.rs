//! Text as bytes: numbers in decimal and hexadecimal, words, and the check for UTF-8.
use vstd::prelude::*;
use vstd::string::*;

verus! {

/// The bytes of a text.
pub open spec fn utf8(s: &str) -> Seq<u8> {
    s.spec_bytes()
}

/// An ASCII text has as many bytes as characters.
pub proof fn lemma_ascii_len(s: &str)
    requires
        vstd::utf8::is_ascii_chars(s@),
    ensures
        utf8(s).len() == s@.len(),
{
    vstd::utf8::is_ascii_chars_encode_utf8(s@);
}

/// The decimal digits of `n`, without leading zeros.
pub open spec fn dec(n: nat) -> Seq<u8>
    decreases n,
{
    if n < 10 {
        seq![(48 + n) as u8]
    } else {
        dec(n / 10).push((48 + n % 10) as u8)
    }
}

/// The digit of value `d` in lower-case hexadecimal.
pub open spec fn hex_digit(d: int) -> u8 {
    if d < 10 {
        (48 + d) as u8
    } else {
        (87 + d) as u8
    }
}

/// The hexadecimal digits of `n`, without leading zeros.
pub open spec fn hex(n: nat) -> Seq<u8>
    decreases n,
{
    if n < 16 {
        seq![hex_digit(n as int)]
    } else {
        hex(n / 16).push(hex_digit((n % 16) as int))
    }
}

/// `s` with zeros in front up to `width` characters.
pub open spec fn zero_padded(s: Seq<u8>, width: nat) -> Seq<u8> {
    if s.len() >= width {
        s
    } else {
        Seq::new((width - s.len()) as nat, |i: int| 48u8) + s
    }
}

/// `0x` and the hexadecimal digits of `n`.
pub open spec fn hex_prefixed(n: nat) -> Seq<u8> {
    seq![48u8, 120u8] + hex(n)
}

/// `0x` and sixteen hexadecimal digits of `n`.
pub open spec fn hex_word(n: nat) -> Seq<u8> {
    seq![48u8, 120u8] + zero_padded(hex(n), 16)
}

/// Appends the bytes of `s`.
pub fn push_bytes(out: &mut Vec<u8>, s: &[u8])
    ensures
        final(out)@ == old(out)@ + s@,
{
    let mut i: usize = 0;
    while i < s.len()
        invariant
            i <= s@.len(),
            out@ == old(out)@ + s@.subrange(0, i as int),
        decreases s@.len() - i,
    {
        out.push(s[i]);
        assert(out@ =~= old(out)@ + s@.subrange(0, i + 1));
        i += 1;
    }
    assert(s@.subrange(0, s@.len() as int) =~= s@);
}

/// Appends the text `s`.
pub fn push_str(out: &mut Vec<u8>, s: &str)
    ensures
        final(out)@ == old(out)@ + utf8(s),
{
    push_bytes(out, s.as_bytes());
}

/// Appends `n` in decimal.
pub fn push_dec(out: &mut Vec<u8>, n: u64)
    ensures
        final(out)@ == old(out)@ + dec(n as nat),
    decreases n,
{
    if n < 10 {
        out.push(48 + n as u8);
        assert(out@ =~= old(out)@ + dec(n as nat));
    } else {
        push_dec(out, n / 10);
        out.push(48 + (n % 10) as u8);
        assert(out@ =~= old(out)@ + dec(n as nat));
    }
}

/// Appends the hexadecimal digits of `n`.
pub fn push_hex_digits(out: &mut Vec<u8>, n: u64)
    ensures
        final(out)@ == old(out)@ + hex(n as nat),
    decreases n,
{
    if n >= 16 {
        push_hex_digits(out, n / 16);
    }
    let d: u8 = (n % 16) as u8;
    out.push(if d < 10 {
        48 + d
    } else {
        87 + d
    });
    assert(out@ =~= old(out)@ + hex(n as nat));
}

/// Appends `n` in hexadecimal with the prefix `0x`.
pub fn push_hex(out: &mut Vec<u8>, n: u64)
    ensures
        final(out)@ == old(out)@ + hex_prefixed(n as nat),
{
    out.push(48);
    out.push(120);
    push_hex_digits(out, n);
    assert(out@ =~= old(out)@ + hex_prefixed(n as nat));
}

/// Appends `digits` with zeros in front up to `width` characters.
fn push_padded(out: &mut Vec<u8>, digits: &Vec<u8>, width: usize)
    ensures
        final(out)@ == old(out)@ + zero_padded(digits@, width as nat),
{
    let n: usize = digits.len();
    let mut i: usize = n;
    while i < width
        invariant
            n == digits@.len(),
            n <= i,
            i <= width || i == n,
            out@ == old(out)@ + Seq::new((i - n) as nat, |j: int| 48u8),
        decreases width - i,
    {
        out.push(48);
        i += 1;
        assert(out@ =~= old(out)@ + Seq::new((i - n) as nat, |j: int| 48u8));
    }
    push_bytes(out, digits.as_slice());
    assert(out@ =~= old(out)@ + zero_padded(digits@, width as nat));
}

/// Appends `n` in decimal with at least six digits.
pub fn push_dec6(out: &mut Vec<u8>, n: u64)
    ensures
        final(out)@ == old(out)@ + zero_padded(dec(n as nat), 6),
{
    let mut digits: Vec<u8> = Vec::new();
    push_dec(&mut digits, n);
    assert(digits@ =~= dec(n as nat));
    push_padded(out, &digits, 6);
}

/// Appends `0x` and sixteen hexadecimal digits of `n`.
pub fn push_hex_word(out: &mut Vec<u8>, n: u64)
    ensures
        final(out)@ == old(out)@ + hex_word(n as nat),
{
    let mut digits: Vec<u8> = Vec::new();
    push_hex_digits(&mut digits, n);
    assert(digits@ =~= hex(n as nat));
    out.push(48);
    out.push(120);
    push_padded(out, &digits, 16);
    assert(out@ =~= old(out)@ + hex_word(n as nat));
}

/// Whether the two byte strings are the same.
pub fn bytes_eq(a: &[u8], b: &[u8]) -> (r: bool)
    ensures
        r == (a@ == b@),
{
    if a.len() != b.len() {
        return false;
    }
    let mut i: usize = 0;
    while i < a.len()
        invariant
            i <= a@.len(),
            a@.len() == b@.len(),
            forall|j: int| 0 <= j < i ==> a@[j] == b@[j],
        decreases a@.len() - i,
    {
        if a[i] != b[i] {
            return false;
        }
        i += 1;
    }
    assert(a@ =~= b@);
    true
}

/// Whether the bytes are the text `s`.
pub fn is_text(a: &[u8], s: &str) -> (r: bool)
    ensures
        r == (a@ == utf8(s)),
{
    bytes_eq(a, s.as_bytes())
}

/// A copy of the bytes.
pub fn copy_bytes(a: &[u8]) -> (r: Vec<u8>)
    ensures
        r@ == a@,
{
    let mut r: Vec<u8> = Vec::new();
    push_bytes(&mut r, a);
    assert(r@ =~= a@);
    r
}

/// The bytes as text, if they are well-formed UTF-8.
///
/// Calls `core::str::from_utf8`, which succeeds on exactly the well-formed UTF-8 byte strings and
/// then returns the same bytes.
#[verifier::external_body]
pub(crate) fn from_utf8(a: &[u8]) -> (r: Option<&str>)
    ensures
        r is Some == vstd::utf8::valid_utf8(a@),
        r matches Some(s) ==> utf8(s) == a@,
{
    core::str::from_utf8(a).ok()
}

/// Whether the bytes are well-formed UTF-8.
pub fn is_utf8(a: &[u8]) -> (r: bool)
    ensures
        r == vstd::utf8::valid_utf8(a@),
{
    from_utf8(a).is_some()
}

/// The text that `String::from_utf8_lossy` makes of the bytes.
pub uninterp spec fn lossy(bytes: Seq<u8>) -> Seq<char>;

/// The bytes as text; what is not well-formed UTF-8 is replaced.
///
/// Calls `String::from_utf8_lossy`. Its result depends on the bytes alone, and well-formed UTF-8
/// comes back as it is. Where the replacement characters stand is left unsaid.
#[verifier::external_body]
pub(crate) fn from_utf8_lossy(bytes: &Vec<u8>) -> (r: String)
    ensures
        r@ == lossy(bytes@),
        vstd::utf8::valid_utf8(bytes@) ==> r@ == vstd::utf8::decode_utf8(bytes@),
{
    String::from_utf8_lossy(bytes).into_owned()
}

/// The bytes with what is not well-formed UTF-8 replaced.
pub open spec fn lossy_bytes(bytes: Seq<u8>) -> Seq<u8> {
    vstd::utf8::encode_utf8(lossy(bytes))
}

/// The bytes with what is not well-formed UTF-8 replaced; well-formed bytes come back as they are.
pub fn replace_invalid(bytes: &Vec<u8>) -> (r: Vec<u8>)
    ensures
        r@ == lossy_bytes(bytes@),
        vstd::utf8::valid_utf8(bytes@) ==> r@ == bytes@,
{
    let s: String = from_utf8_lossy(bytes);
    proof {
        if vstd::utf8::valid_utf8(bytes@) {
            vstd::utf8::decode_utf8_encode_utf8(bytes@);
        }
    }
    copy_bytes(s.as_str().as_bytes())
}

/// The bytes if they are well-formed UTF-8, else `fallback`.
pub open spec fn utf8_or(a: Seq<u8>, fallback: Seq<u8>) -> Seq<u8> {
    if vstd::utf8::valid_utf8(a) {
        a
    } else {
        fallback
    }
}

/// Number of bytes of the white-space character at `i`; zero if there is none.
pub open spec fn space_len(s: Seq<u8>, i: int) -> int {
    let c = s[i];
    if 9 <= c <= 13 || c == 32 {
        1
    } else if c == 0xC2 && i + 1 < s.len() && (s[i + 1] == 0x85 || s[i + 1] == 0xA0) {
        2
    } else if i + 2 < s.len() && wide_space(c, s[i + 1], s[i + 2]) {
        3
    } else {
        0
    }
}

/// The three bytes are a white-space character.
pub open spec fn wide_space(a: u8, b: u8, c: u8) -> bool {
    ||| a == 0xE1 && b == 0x9A && c == 0x80
    ||| a == 0xE2 && b == 0x80 && (0x80 <= c <= 0x8A || c == 0xA8 || c == 0xA9 || c == 0xAF)
    ||| a == 0xE2 && b == 0x81 && c == 0x9F
    ||| a == 0xE3 && b == 0x80 && c == 0x80
}

/// The word, if it is not empty.
pub open spec fn word_or_none(word: Seq<u8>) -> Seq<Seq<u8>> {
    if word.len() == 0 {
        Seq::empty()
    } else {
        seq![word]
    }
}

/// The words of `s` from position `i` on, if the word so far is `word`.
pub open spec fn words_from(s: Seq<u8>, i: int, word: Seq<u8>) -> Seq<Seq<u8>>
    decreases
            if i < s.len() {
                s.len() - i
            } else {
                0
            },
{
    if i >= s.len() {
        word_or_none(word)
    } else if space_len(s, i) > 0 {
        word_or_none(word) + words_from(s, i + space_len(s, i), Seq::empty())
    } else {
        words_from(s, i + 1, word.push(s[i]))
    }
}

/// The words of the text `s`: its longest runs without white space, in order.
pub open spec fn words(s: Seq<u8>) -> Seq<Seq<u8>> {
    words_from(s, 0, Seq::empty())
}

/// The words with one space between each two.
pub open spec fn joined(ws: Seq<Seq<u8>>) -> Seq<u8>
    decreases ws.len(),
{
    if ws.len() == 0 {
        Seq::empty()
    } else if ws.len() == 1 {
        ws[0]
    } else {
        joined(ws.drop_last()).push(32) + ws.last()
    }
}

/// The contents of the byte strings of a list.
pub open spec fn contents(v: Seq<Vec<u8>>) -> Seq<Seq<u8>> {
    v.map_values(|w: Vec<u8>| w@)
}

/// Number of bytes of the white-space character at `i`; zero if there is none.
fn space_at(s: &[u8], i: usize) -> (r: usize)
    requires
        i < s@.len(),
    ensures
        r == space_len(s@, i as int),
        i + r <= s@.len(),
{
    let n: usize = s.len();
    let c: u8 = s[i];
    if c >= 9 && c <= 13 || c == 32 {
        return 1;
    }
    if n - i < 2 {
        return 0;
    }
    let d: u8 = s[i + 1];
    if c == 0xC2 && (d == 0x85 || d == 0xA0) {
        return 2;
    }
    if n - i < 3 {
        return 0;
    }
    let e: u8 = s[i + 2];
    let wide: bool = if c == 0xE1 {
        d == 0x9A && e == 0x80
    } else if c == 0xE2 {
        d == 0x80 && (e >= 0x80 && e <= 0x8A || e == 0xA8 || e == 0xA9 || e == 0xAF) || d == 0x81
            && e == 0x9F
    } else {
        c == 0xE3 && d == 0x80 && e == 0x80
    };
    if wide {
        3
    } else {
        0
    }
}

/// Adds the word to the list, if it is not empty.
fn push_word(r: &mut Vec<Vec<u8>>, word: Vec<u8>)
    ensures
        contents(final(r)@) == contents(old(r)@) + word_or_none(word@),
{
    let ghost before = contents(r@);
    let ghost w = word@;
    if word.len() > 0 {
        r.push(word);
    }
    assert(contents(r@) =~= before + word_or_none(w));
}

/// Splits the text `s` at white space.
pub fn split_words(s: &[u8]) -> (r: Vec<Vec<u8>>)
    ensures
        contents(r@) == words(s@),
{
    let mut r: Vec<Vec<u8>> = Vec::new();
    let mut word: Vec<u8> = Vec::new();
    let mut i: usize = 0;
    assert(contents(r@) + words(s@) =~= words(s@));
    while i < s.len()
        invariant
            i <= s@.len(),
            contents(r@) + words_from(s@, i as int, word@) == words(s@),
        decreases s@.len() - i,
    {
        let n: usize = space_at(s, i);
        let ghost r0 = contents(r@);
        let ghost w0 = word@;
        if n > 0 {
            push_word(&mut r, word);
            word = Vec::new();
            assert(contents(r@) + words_from(s@, i + n, word@) =~= r0 + words_from(s@, i as int, w0));
            i += n;
        } else {
            word.push(s[i]);
            i += 1;
        }
    }
    push_word(&mut r, word);
    r
}

/// Joins the words from index `from` on with one space between each two.
pub fn join_words(ws: &Vec<Vec<u8>>, from: usize) -> (r: Vec<u8>)
    requires
        from <= ws@.len(),
    ensures
        r@ == joined(contents(ws@).subrange(from as int, ws@.len() as int)),
{
    let mut r: Vec<u8> = Vec::new();
    let ghost all = contents(ws@);
    let mut i: usize = from;
    assert(all.subrange(from as int, from as int).len() == 0);
    while i < ws.len()
        invariant
            from <= i <= ws@.len(),
            all == contents(ws@),
            r@ == joined(all.subrange(from as int, i as int)),
        decreases ws@.len() - i,
    {
        let ghost before = all.subrange(from as int, i as int);
        let ghost next = all.subrange(from as int, i + 1);
        let ghost r0 = r@;
        assert(next.drop_last() =~= before);
        assert(next.last() == ws@[i as int]@);
        if i > from {
            r.push(32);
        }
        push_bytes(&mut r, ws[i].as_slice());
        proof {
            if i == from {
                assert(next.len() == 1);
                assert(next[0] == ws@[i as int]@);
                assert(r@ =~= next[0]);
            } else {
                assert(r@ =~= joined(before).push(32) + next.last());
            }
        }
        i += 1;
    }
    r
}

/// The bytes of an ASCII text are its characters.
pub proof fn lemma_ascii_bytes(s: &str)
    requires
        vstd::utf8::is_ascii_chars(s@),
    ensures
        utf8(s).len() == s@.len(),
        forall|i: int| 0 <= i < s@.len() ==> #[trigger] utf8(s)[i] == s@[i] as u8,
{
    vstd::utf8::is_ascii_chars_encode_utf8(s@);
}

/// The number that the digits mean, highest digit first.
pub open spec fn valued(digits: Seq<u8>, base: int) -> int
    decreases digits.len(),
{
    if digits.len() == 0 {
        0
    } else {
        let c = digits.last() as int;
        base * valued(digits.drop_last(), base) + (if c >= 97 {
            c - 87
        } else {
            c - 48
        })
    }
}

/// The decimal digits of a number mean that number, and the first one is not zero unless it is alone.
pub proof fn law_dec_value(n: nat)
    ensures
        dec(n).len() > 0,
        valued(dec(n), 10) == n,
        forall|i: int| 0 <= i < dec(n).len() ==> 48 <= #[trigger] dec(n)[i] <= 57,
        dec(n).len() > 1 ==> dec(n)[0] != 48,
        n == 0 ==> dec(n) == seq![48u8],
        n > 0 ==> dec(n)[0] != 48,
    decreases n,
{
    if n >= 10 {
        law_dec_value(n / 10);
        assert(dec(n).drop_last() =~= dec(n / 10));
    } else {
        assert(dec(n).drop_last().len() == 0);
        assert(valued(dec(n).drop_last(), 10) == 0);
    }
}

/// The hexadecimal digits of a number mean that number; they are lower case.
pub proof fn law_hex_value(n: nat)
    ensures
        hex(n).len() > 0,
        valued(hex(n), 16) == n,
        forall|i: int|
            0 <= i < hex(n).len() ==> 48 <= #[trigger] hex(n)[i] <= 57 || 97 <= hex(n)[i] <= 102,
        n > 0 ==> hex(n)[0] != 48,
    decreases n,
{
    if n >= 16 {
        law_hex_value(n / 16);
        assert(hex(n).drop_last() =~= hex(n / 16));
    } else {
        assert(hex(n).drop_last().len() == 0);
        assert(valued(hex(n).drop_last(), 16) == 0);
    }
}

/// Padding puts zeros in front up to the width, and no more; the digits stand at the end.
pub proof fn law_padding(s: Seq<u8>, width: nat)
    ensures
        s.len() >= width ==> zero_padded(s, width) == s,
        s.len() < width ==> zero_padded(s, width).len() == width,
        zero_padded(s, width).skip(zero_padded(s, width).len() - s.len()) == s,
        forall|i: int|
            0 <= i < zero_padded(s, width).len() - s.len() ==> #[trigger] zero_padded(s, width)[i]
                == 48,
{
    let r = zero_padded(s, width);
    assert(r.skip(r.len() - s.len()) =~= s);
}

/// Hexadecimal numbers start with `0x`; a word has sixteen digits, and leading zeros mean nothing.
pub proof fn law_hex_prefix(n: nat)
    requires
        n <= u64::MAX,
    ensures
        hex_prefixed(n)[0] == 48,
        hex_prefixed(n)[1] == 120,
        valued(hex_prefixed(n).skip(2), 16) == n,
        hex_word(n).len() == 18,
        hex_word(n)[0] == 48,
        hex_word(n)[1] == 120,
        valued(hex_word(n).skip(2), 16) == n,
{
    law_hex_value(n);
    assert(hex_prefixed(n).skip(2) =~= hex(n));
    assert(vstd::arithmetic::power::pow(16, 16) == 0x1_0000_0000_0000_0000) by {
        reveal_with_fuel(vstd::arithmetic::power::pow, 17);
    }
    lemma_hex_len(n, 16);
    assert(hex_word(n).skip(2) =~= zero_padded(hex(n), 16));
    lemma_zeros_mean_nothing(hex(n), (16 - hex(n).len()) as nat, 16);
}

/// A number below a power of sixteen has no more digits than the power says.
proof fn lemma_hex_len(n: nat, digits: nat)
    requires
        digits > 0,
        n < vstd::arithmetic::power::pow(16, digits),
    ensures
        hex(n).len() <= digits,
    decreases digits,
{
    reveal(vstd::arithmetic::power::pow);
    if n >= 16 {
        assert(vstd::arithmetic::power::pow(16, digits) == 16 * vstd::arithmetic::power::pow(
            16,
            (digits - 1) as nat,
        ));
        if digits == 1 {
            assert(vstd::arithmetic::power::pow(16, 0) == 1);
        }
        lemma_hex_len(n / 16, (digits - 1) as nat);
    }
}

/// Zeros in front do not change the number.
proof fn lemma_zeros_mean_nothing(s: Seq<u8>, zeros: nat, base: int)
    ensures
        valued(Seq::new(zeros, |i: int| 48u8) + s, base) == valued(s, base),
    decreases s.len(), zeros,
{
    let front = Seq::new(zeros, |i: int| 48u8);
    let t = front + s;
    if s.len() > 0 {
        assert(t.drop_last() =~= front + s.drop_last());
        lemma_zeros_mean_nothing(s.drop_last(), zeros, base);
    } else if zeros > 0 {
        let less = (zeros - 1) as nat;
        assert(t.drop_last() =~= Seq::new(less, |i: int| 48u8) + s);
        lemma_zeros_mean_nothing(s, less, base);
        assert(base * 0 == 0);
    }
}

/// A number below a power of ten has no more digits than the power says.
pub proof fn lemma_dec_len(n: nat, digits: nat)
    requires
        digits > 0,
        digits == 6 ==> n < 1_000_000,
        digits == 5 ==> n < 100_000,
        digits == 4 ==> n < 10_000,
        digits == 3 ==> n < 1_000,
        digits == 2 ==> n < 100,
        digits == 1 ==> n < 10,
        digits <= 6,
    ensures
        dec(n).len() <= digits,
    decreases digits,
{
    if n >= 10 {
        lemma_dec_len(n / 10, (digits - 1) as nat);
    }
}

/// Padding does not change the number.
pub proof fn lemma_padded_value(s: Seq<u8>, width: nat, base: int)
    ensures
        valued(zero_padded(s, width), base) == valued(s, base),
{
    if s.len() < width {
        lemma_zeros_mean_nothing(s, (width - s.len()) as nat, base);
    }
}

/// The bytes hold no white space, and none that could begin a white-space character.
pub open spec fn plain(w: Seq<u8>) -> bool {
    forall|i: int|
        0 <= i < w.len() ==> !(9 <= #[trigger] w[i] <= 13) && w[i] != 32 && w[i] != 0xC2 && w[i]
            != 0xE1 && w[i] != 0xE2 && w[i] != 0xE3
}

/// The words of bytes that follow others are theirs.
proof fn lemma_words_shift(s: Seq<u8>, b: Seq<u8>, k: int, i: int, word: Seq<u8>)
    requires
        0 <= k,
        0 <= i,
        s.len() == k + b.len(),
        forall|j: int| 0 <= j < b.len() ==> #[trigger] b[j] == s[k + j],
    ensures
        words_from(s, k + i, word) == words_from(b, i, word),
    decreases
            if i < b.len() {
                b.len() - i
            } else {
                0
            },
{
    if i < b.len() {
        assert(b[i] == s[k + i]);
        if i + 1 < b.len() {
            assert(b[i + 1] == s[k + (i + 1)]);
        }
        if i + 2 < b.len() {
            assert(b[i + 2] == s[k + (i + 2)]);
        }
        let n = space_len(b, i);
        assert(space_len(s, k + i) == n);
        if n > 0 {
            lemma_words_shift(s, b, k, i + n, Seq::empty());
        } else {
            lemma_words_shift(s, b, k, i + 1, word.push(b[i]));
        }
    }
}

/// An ASCII white-space character parts the words before it from those behind it.
proof fn lemma_words_part(a: Seq<u8>, c: u8, b: Seq<u8>, i: int, word: Seq<u8>)
    requires
        9 <= c <= 13 || c == 32,
        0 <= i <= a.len(),
    ensures
        words_from(a.push(c) + b, i, word) == words_from(a, i, word) + words(b),
    decreases a.len() - i,
{
    let s = a.push(c) + b;
    if i == a.len() {
        assert(s[i] == c);
        lemma_words_shift(s, b, a.len() as int + 1, 0, Seq::empty());
    } else {
        assert(s[i] == a[i]);
        if i + 1 < a.len() {
            assert(s[i + 1] == a[i + 1]);
        } else {
            assert(s[i + 1] == c);
        }
        if i + 2 < a.len() {
            assert(s[i + 2] == a[i + 2]);
        } else if i + 2 == a.len() {
            assert(s[i + 2] == c);
        }
        let n = space_len(a, i);
        assert(space_len(s, i) == n);
        if n > 0 {
            assert(i + n <= a.len());
            lemma_words_part(a, c, b, i + n, Seq::empty());
            assert(words_from(s, i, word) =~= words_from(a, i, word) + words(b));
        } else {
            lemma_words_part(a, c, b, i + 1, word.push(a[i]));
        }
    }
}

/// White space parts words: a tab, a line end or a space stands in no word, and what is before it and
/// behind it is split by itself.
pub proof fn law_space_parts_words(a: Seq<u8>, c: u8, b: Seq<u8>)
    requires
        9 <= c <= 13 || c == 32,
    ensures
        words(a.push(c) + b) == words(a) + words(b),
{
    lemma_words_part(a, c, b, 0, Seq::empty());
}

/// The words of plain bytes.
proof fn lemma_plain_word(w: Seq<u8>, i: int)
    requires
        plain(w),
        0 <= i <= w.len(),
    ensures
        words_from(w, i, w.take(i)) == word_or_none(w),
    decreases w.len() - i,
{
    if i == w.len() {
        assert(w.take(i) =~= w);
    } else {
        assert(space_len(w, i) == 0);
        assert(w.take(i).push(w[i]) =~= w.take(i + 1));
        lemma_plain_word(w, i + 1);
    }
}

/// Bytes without white space are one word; no bytes are none.
pub proof fn law_one_word(w: Seq<u8>)
    requires
        plain(w),
    ensures
        w.len() > 0 ==> words(w) == seq![w],
        w.len() == 0 ==> words(w) == Seq::<Seq<u8>>::empty(),
{
    assert(w.take(0) =~= Seq::<u8>::empty());
    lemma_plain_word(w, 0);
}

/// A wider white-space character parts words too.
pub proof fn law_wide_space_parts_words(a: Seq<u8>, sep: Seq<u8>, b: Seq<u8>)
    requires
        plain(a),
        ({
            ||| sep == seq![0xC2u8, 0x85u8]
            ||| sep == seq![0xC2u8, 0xA0u8]
            ||| sep == seq![0xE1u8, 0x9Au8, 0x80u8]
            ||| sep.len() == 3 && sep[0] == 0xE2 && sep[1] == 0x80 && (0x80 <= sep[2] <= 0x8A
                || sep[2] == 0xA8 || sep[2] == 0xA9 || sep[2] == 0xAF)
            ||| sep == seq![0xE2u8, 0x81u8, 0x9Fu8]
            ||| sep == seq![0xE3u8, 0x80u8, 0x80u8]
        }),
    ensures
        words(a + sep + b) == words(a) + words(b),
{
    let s = a + sep + b;
    let k = (a.len() + sep.len()) as int;
    assert(sep.len() == 2 || sep.len() == 3);
    assert(s[a.len() as int] == sep[0]);
    assert(s[a.len() as int + 1] == sep[1]);
    if sep.len() == 3 {
        assert(s[a.len() as int + 2] == sep[2]);
    }
    assert(space_len(s, a.len() as int) == sep.len());
    lemma_words_shift(s, b, k, 0, Seq::empty());
    lemma_plain_before(a, s, 0);
    law_one_word(a);
    assert(a.take(0) =~= Seq::<u8>::empty());
    assert(words_from(s, a.len() as int, a) == word_or_none(a) + words(b));
    assert(word_or_none(a) == words(a));
}

/// Plain bytes at the start of a text gather in the first word.
proof fn lemma_plain_before(a: Seq<u8>, s: Seq<u8>, i: int)
    requires
        plain(a),
        0 <= i <= a.len() < s.len(),
        forall|j: int| 0 <= j < a.len() ==> #[trigger] s[j] == a[j],
    ensures
        words_from(s, i, a.take(i)) == words_from(s, a.len() as int, a),
    decreases a.len() - i,
{
    if i == a.len() {
        assert(a.take(i) =~= a);
    } else {
        assert(s[i] == a[i]);
        assert(space_len(s, i) == 0);
        assert(a.take(i).push(s[i]) =~= a.take(i + 1));
        lemma_plain_before(a, s, i + 1);
    }
}

/// Joining puts one space between words and nothing at the ends.
pub proof fn law_join(ws: Seq<Seq<u8>>, w: Seq<u8>)
    ensures
        joined(Seq::empty()) == Seq::<u8>::empty(),
        joined(seq![w]) == w,
        ws.len() > 0 ==> joined(ws.push(w)) == joined(ws) + seq![32u8] + w,
{
    assert(ws.push(w).drop_last() =~= ws);
    if ws.len() > 0 {
        assert(joined(ws).push(32) + w =~= joined(ws) + seq![32u8] + w);
    }
}

/// Splitting takes joining back.
pub proof fn law_split_undoes_join(ws: Seq<Seq<u8>>)
    requires
        forall|i: int| 0 <= i < ws.len() ==> (#[trigger] ws[i]).len() > 0 && plain(ws[i]),
    ensures
        words(joined(ws)) == ws,
    decreases ws.len(),
{
    if ws.len() == 0 {
        law_one_word(Seq::empty());
        assert(ws =~= Seq::<Seq<u8>>::empty());
    } else if ws.len() == 1 {
        law_one_word(ws[0]);
        assert(ws =~= seq![ws[0]]);
    } else {
        let front = ws.drop_last();
        assert forall|i: int| 0 <= i < front.len() implies (#[trigger] front[i]).len() > 0 && plain(
            front[i],
        ) by {
            assert(front[i] == ws[i]);
        }
        law_split_undoes_join(front);
        law_one_word(ws.last());
        law_space_parts_words(joined(front), 32, ws.last());
        assert(ws =~= front + seq![ws.last()]);
    }
}

} // verus!
