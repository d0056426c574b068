//! Text helpers: building strings, decimal numerals, UTF-8.

use vstd::prelude::*;
use vstd::string::*;
use vstd::utf8::*;

verus! {

/// `String::push` appends one character.
pub assume_specification[ std::string::String::push ](s: &mut std::string::String, c: char)
    ensures
        final(s)@ == old(s)@.push(c),
;

/// The text of the error that `String::from_utf8` gives for a byte sequence that
/// is not UTF-8.
pub uninterp spec fn utf8_fault(bytes: Seq<u8>) -> Seq<char>;

/// `String::from_utf8`: the text that the bytes encode, or the error's text. It
/// succeeds on valid UTF-8 and on nothing else.
#[verifier::external_body]
pub(crate) fn text_of_bytes(bytes: Vec<u8>) -> (r: Result<String, String>)
    ensures
        match r {
            Ok(s) => valid_utf8(bytes@) && s@ == decode_utf8(bytes@),
            Err(why) => !valid_utf8(bytes@) && why@ == utf8_fault(bytes@),
        },
{
    match String::from_utf8(bytes) {
        Ok(s) => Ok(s),
        Err(e) => Err(e.to_string()),
    }
}

/// The character of a decimal digit.
pub open spec fn digit_char(d: nat) -> char {
    if d == 0 {
        '0'
    } else if d == 1 {
        '1'
    } else if d == 2 {
        '2'
    } else if d == 3 {
        '3'
    } else if d == 4 {
        '4'
    } else if d == 5 {
        '5'
    } else if d == 6 {
        '6'
    } else if d == 7 {
        '7'
    } else if d == 8 {
        '8'
    } else {
        '9'
    }
}

/// The decimal numeral of a natural number, without leading zeroes.
pub open spec fn decimal(n: nat) -> Seq<char>
    decreases n,
{
    if n < 10 {
        seq![digit_char(n)]
    } else {
        decimal(n / 10).push(digit_char(n % 10))
    }
}

fn digit(d: u64) -> (c: char)
    requires
        d < 10,
    ensures
        c == digit_char(d as nat),
{
    if d == 0 {
        '0'
    } else if d == 1 {
        '1'
    } else if d == 2 {
        '2'
    } else if d == 3 {
        '3'
    } else if d == 4 {
        '4'
    } else if d == 5 {
        '5'
    } else if d == 6 {
        '6'
    } else if d == 7 {
        '7'
    } else if d == 8 {
        '8'
    } else {
        '9'
    }
}

/// The numeral of `n`.
pub fn numeral(n: u64) -> (s: String)
    ensures
        s@ == decimal(n as nat),
    decreases n,
{
    if n < 10 {
        let mut s = String::new();
        s.push(digit(n));
        proof {
            assert(s@ =~= seq![digit_char(n as nat)]);
        }
        s
    } else {
        let mut s = numeral(n / 10);
        s.push(digit(n % 10));
        s
    }
}

/// The numeral of a signed integer: a minus sign before a negative one.
pub open spec fn signed_decimal(n: int) -> Seq<char> {
    if n < 0 {
        seq!['-'] + decimal((-n) as nat)
    } else {
        decimal(n as nat)
    }
}

/// The numeral of `n`, with its sign.
pub fn signed_numeral(n: i64) -> (s: String)
    ensures
        s@ == signed_decimal(n as int),
{
    if n < 0 {
        let mut s = String::new();
        s.push('-');
        let m: i128 = -(n as i128);
        let digits = numeral(m as u64);
        s.append(digits.as_str());
        proof {
            assert(seq!['-'] =~= Seq::<char>::empty().push('-'));
        }
        s
    } else {
        numeral(n as u64)
    }
}

/// Two pieces joined.
pub fn join2(a: &str, b: &str) -> (s: String)
    ensures
        s@ == a@ + b@,
{
    let mut s = a.to_owned();
    s.append(b);
    s
}

/// Three pieces joined.
pub fn join3(a: &str, b: &str, c: &str) -> (s: String)
    ensures
        s@ == a@ + b@ + c@,
{
    let mut s = join2(a, b);
    s.append(c);
    s
}

/// The characters of `s`.
pub fn chars_of(s: &str) -> (v: Vec<char>)
    ensures
        v@ == s@,
{
    let mut v: Vec<char> = Vec::new();
    let n: usize = s.unicode_len();
    let mut it = s.chars();
    let mut i: usize = 0;
    while i < n
        invariant
            i <= n,
            n == s@.len(),
            vstd::std_specs::iter::IteratorSpec::remaining(&it) == s@.skip(i as int),
            v@ == s@.take(i as int),
        decreases n - i,
    {
        if let Some(c) = it.next() {
            v.push(c);
            proof {
                assert(s@.skip(i as int).drop_first() =~= s@.skip(i + 1));
                assert(s@.take(i + 1) =~= s@.take(i as int).push(s@[i as int]));
            }
        }
        i += 1;
    }
    proof {
        assert(s@.take(n as int) =~= s@);
    }
    v
}

/// The text of a range of characters.
pub fn text_of(chars: &[char], start: usize, end: usize) -> (s: String)
    requires
        start <= end <= chars@.len(),
    ensures
        s@ == chars@.subrange(start as int, end as int),
{
    let mut s = String::new();
    let mut i: usize = start;
    while i < end
        invariant
            start <= i <= end <= chars@.len(),
            s@ == chars@.subrange(start as int, i as int),
        decreases end - i,
    {
        s.push(chars[i]);
        proof {
            assert(chars@.subrange(start as int, i + 1) =~= chars@.subrange(
                start as int,
                i as int,
            ).push(chars@[i as int]));
        }
        i += 1;
    }
    s
}

/// The number of bytes of a character in UTF-8.
pub open spec fn width_of(c: char) -> nat {
    encode_scalar(c as u32).len()
}

/// The number of bytes of `c` in UTF-8.
pub fn width(c: char) -> (n: usize)
    ensures
        n == width_of(c),
        1 <= n <= 4,
{
    proof {
        char_is_scalar(c);
    }
    let u: u32 = c as u32;
    if u < 0x80 {
        1
    } else if u < 0x800 {
        2
    } else if u < 0x10000 {
        3
    } else {
        4
    }
}

/// The encoding of a concatenation is the concatenation of the encodings.
pub proof fn lemma_encode_concat(a: Seq<char>, b: Seq<char>)
    ensures
        encode_utf8(a + b) == encode_utf8(a) + encode_utf8(b),
    decreases a.len(),
{
    if a.len() == 0 {
        assert(a + b =~= b);
        assert(encode_utf8(a) + encode_utf8(b) =~= encode_utf8(b));
    } else {
        lemma_encode_concat(a.drop_first(), b);
        assert((a + b).drop_first() =~= a.drop_first() + b);
        assert((a + b)[0] == a[0]);
        assert(encode_utf8(a + b) =~= encode_utf8(a) + encode_utf8(b));
    }
}

/// One more character adds its own bytes.
pub proof fn lemma_encode_push(a: Seq<char>, c: char)
    ensures
        encode_utf8(a.push(c)) == encode_utf8(a) + encode_scalar(c as u32),
        encode_utf8(a.push(c)).len() == encode_utf8(a).len() + width_of(c),
{
    assert(a.push(c) =~= a + seq![c]);
    lemma_encode_concat(a, seq![c]);
    assert(seq![c].drop_first() =~= Seq::<char>::empty());
    assert(encode_utf8(seq![c]) =~= encode_scalar(c as u32)) by {
        assert(encode_utf8(Seq::<char>::empty()) =~= Seq::<u8>::empty());
    }
}

/// A prefix encodes to no more bytes than the whole.
pub proof fn lemma_encode_prefix(a: Seq<char>, i: int)
    requires
        0 <= i <= a.len(),
    ensures
        encode_utf8(a.take(i)).len() <= encode_utf8(a).len(),
{
    assert(a =~= a.take(i) + a.skip(i));
    lemma_encode_concat(a.take(i), a.skip(i));
}

/// The byte offset of the character at index `i`.
pub open spec fn offset(chars: Seq<char>, i: int) -> nat {
    encode_utf8(chars.take(i)).len()
}

/// Offsets rise by the width of the character in between.
pub proof fn lemma_offset_step(chars: Seq<char>, i: int)
    requires
        0 <= i < chars.len(),
    ensures
        offset(chars, i + 1) == offset(chars, i) + width_of(chars[i]),
        width_of(chars[i]) >= 1,
{
    assert(chars.take(i + 1) =~= chars.take(i).push(chars[i]));
    lemma_encode_push(chars.take(i), chars[i]);
    char_is_scalar(chars[i]);
}

/// Offsets rise with the index.
pub proof fn lemma_offset_rises(chars: Seq<char>, i: int, j: int)
    requires
        0 <= i <= j <= chars.len(),
    ensures
        offset(chars, j) >= offset(chars, i) + (j - i),
        offset(chars, j) <= encode_utf8(chars).len(),
    decreases j - i,
{
    lemma_encode_prefix(chars, j);
    if i < j {
        lemma_offset_rises(chars, i, j - 1);
        lemma_offset_step(chars, j - 1);
    }
}

/// The first offset is 0 and the last is the length in bytes.
pub proof fn lemma_offset_ends(chars: Seq<char>)
    ensures
        offset(chars, 0) == 0,
        offset(chars, chars.len() as int) == encode_utf8(chars).len(),
{
    assert(chars.take(0) =~= Seq::<char>::empty());
    assert(chars.take(chars.len() as int) =~= chars);
}

/// The bytes between two offsets are the encoding of the characters in between.
pub proof fn lemma_offset_slice(chars: Seq<char>, i: int, j: int)
    requires
        0 <= i <= j <= chars.len(),
    ensures
        offset(chars, i) <= offset(chars, j) <= encode_utf8(chars).len(),
        encode_utf8(chars).subrange(offset(chars, i) as int, offset(chars, j) as int)
            == encode_utf8(chars.subrange(i, j)),
{
    lemma_offset_rises(chars, i, j);
    let a = chars.take(i);
    let b = chars.subrange(i, j);
    let c = chars.skip(j);
    assert(chars.take(j) =~= a + b);
    lemma_encode_concat(a, b);
    assert(chars =~= chars.take(j) + c);
    lemma_encode_concat(chars.take(j), c);
    assert(encode_utf8(chars).subrange(offset(chars, i) as int, offset(chars, j) as int)
        =~= encode_utf8(b));
}

/// White space in the sense of Unicode.
pub open spec fn white(c: char) -> bool {
    let u = c as u32;
    ||| 0x09 <= u <= 0x0d
    ||| u == 0x20
    ||| u == 0x85
    ||| u == 0xa0
    ||| u == 0x1680
    ||| 0x2000 <= u <= 0x200a
    ||| u == 0x2028
    ||| u == 0x2029
    ||| u == 0x202f
    ||| u == 0x205f
    ||| u == 0x3000
}

/// Whether `c` is white space.
pub fn is_white(c: char) -> (r: bool)
    ensures
        r == white(c),
{
    let u: u32 = c as u32;
    (0x09 <= u && u <= 0x0d) || u == 0x20 || u == 0x85 || u == 0xa0 || u == 0x1680 || (0x2000 <= u
        && u <= 0x200a) || u == 0x2028 || u == 0x2029 || u == 0x202f || u == 0x205f || u == 0x3000
}

/// A letter A to Z in lower case; every other character as it is.
pub open spec fn lower(c: char) -> char {
    if 'A' <= c <= 'Z' {
        ((c as u32) + 32) as char
    } else {
        c
    }
}

/// The text with the letters A to Z in lower case.
pub open spec fn lower_text(s: Seq<char>) -> Seq<char> {
    s.map_values(|c: char| lower(c))
}

fn to_lower(c: char) -> (r: char)
    ensures
        r == lower(c),
{
    if 'A' <= c && c <= 'Z' {
        let u: u8 = c as u8;
        (u + 32) as char
    } else {
        c
    }
}

/// The text with the letters A to Z in lower case.
pub fn lowered(s: &str) -> (r: String)
    ensures
        r@ == lower_text(s@),
{
    let chars: Vec<char> = chars_of(s);
    let mut r = String::new();
    let mut i: usize = 0;
    while i < chars.len()
        invariant
            i <= chars@.len(),
            chars@ == s@,
            r@ == lower_text(s@.take(i as int)),
        decreases chars@.len() - i,
    {
        r.push(to_lower(chars[i]));
        proof {
            assert(lower_text(s@.take(i + 1)) =~= lower_text(s@.take(i as int)).push(
                lower(s@[i as int]),
            ));
        }
        i += 1;
    }
    proof {
        assert(s@.take(i as int) =~= s@);
    }
    r
}

/// Whether two texts are equal.
pub fn same_text(a: &str, b: &str) -> (r: bool)
    ensures
        r == (a@ == b@),
{
    a.to_owned() == b.to_owned()
}

/// What a run of texts holds.
pub open spec fn texts(strings: Seq<String>) -> Seq<Seq<char>> {
    strings.map_values(|s: String| s@)
}

/// `n` times the same character.
pub open spec fn repeated(c: char, n: int) -> Seq<char> {
    if n <= 0 {
        Seq::empty()
    } else {
        Seq::new(n as nat, |i: int| c)
    }
}

/// Appends `n` times the same character.
pub fn push_many(out: &mut String, c: char, n: usize)
    ensures
        final(out)@ == old(out)@ + repeated(c, n as int),
{
    let ghost was = out@;
    let mut i: usize = 0;
    proof {
        assert(was + repeated(c, 0) =~= was);
    }
    while i < n
        invariant
            i <= n,
            out@ == was + repeated(c, i as int),
        decreases n - i,
    {
        out.push(c);
        proof {
            assert(was + repeated(c, i + 1) =~= (was + repeated(c, i as int)).push(c));
        }
        i += 1;
    }
}

/// Nothing but white space.
pub open spec fn all_white(s: Seq<char>) -> bool {
    forall|i: int| 0 <= i < s.len() ==> white(#[trigger] s[i])
}

/// The first index from `i` on that is not white space, or the length.
pub open spec fn word_start(s: Seq<char>, i: int) -> int
    decreases s.len() - i,
{
    if i < 0 || i >= s.len() || !white(s[i]) {
        i
    } else {
        word_start(s, i + 1)
    }
}

/// The first index from `i` on that is white space, or the length.
pub open spec fn word_end(s: Seq<char>, i: int) -> int
    decreases s.len() - i,
{
    if i < 0 || i >= s.len() || white(s[i]) {
        i
    } else {
        word_end(s, i + 1)
    }
}

/// The index behind the last character up to `n` that is not white space.
pub open spec fn trim_end(s: Seq<char>, n: int) -> int
    decreases n,
{
    if n <= 0 || !white(s[n - 1]) {
        n
    } else {
        trim_end(s, n - 1)
    }
}

/// The text without white space at either end.
pub open spec fn trimmed(s: Seq<char>) -> Seq<char> {
    let start = word_start(s, 0);
    let end = trim_end(s, s.len() as int);
    if start < end {
        s.subrange(start, end)
    } else {
        Seq::empty()
    }
}

/// The first index from `i` on that is not white space, or the length.
pub fn skip_white(chars: &[char], i: usize) -> (k: usize)
    requires
        i <= chars@.len(),
    ensures
        k == word_start(chars@, i as int),
        i <= k <= chars@.len(),
        forall|j: int| i <= j < k ==> white(#[trigger] chars@[j]),
        k < chars@.len() ==> !white(chars@[k as int]),
{
    let mut k: usize = i;
    while k < chars.len() && is_white(chars[k])
        invariant
            i <= k <= chars@.len(),
            word_start(chars@, i as int) == word_start(chars@, k as int),
            forall|j: int| i <= j < k ==> white(#[trigger] chars@[j]),
        decreases chars@.len() - k,
    {
        k += 1;
    }
    k
}

/// The first index from `i` on that is white space, or the length.
pub fn skip_word(chars: &[char], i: usize) -> (k: usize)
    requires
        i <= chars@.len(),
    ensures
        k == word_end(chars@, i as int),
        i <= k <= chars@.len(),
{
    let mut k: usize = i;
    while k < chars.len() && !is_white(chars[k])
        invariant
            i <= k <= chars@.len(),
            word_end(chars@, i as int) == word_end(chars@, k as int),
        decreases chars@.len() - k,
    {
        k += 1;
    }
    k
}

/// The text without white space at either end.
pub fn trim(s: &str) -> (t: String)
    ensures
        t@ == trimmed(s@),
        t@.len() == 0 <==> all_white(s@),
{
    let chars: Vec<char> = chars_of(s);
    let start: usize = skip_white(chars.as_slice(), 0);
    let mut end: usize = chars.len();
    while end > 0 && is_white(chars[end - 1])
        invariant
            end <= chars@.len(),
            trim_end(chars@, chars@.len() as int) == trim_end(chars@, end as int),
            forall|j: int| end <= j < chars@.len() ==> white(#[trigger] chars@[j]),
        decreases end,
    {
        end -= 1;
    }
    if start < end {
        proof {
            assert(!white(chars@[start as int]));
        }
        text_of(chars.as_slice(), start, end)
    } else {
        proof {
            assert forall|j: int| 0 <= j < s@.len() implies white(#[trigger] s@[j]) by {
                if j >= start {
                    assert(j >= end);
                    assert(white(chars@[j]));
                }
            }
            assert(trimmed(s@) =~= Seq::<char>::empty());
        }
        String::new()
    }
}

/// Whether there is nothing but white space.
pub fn is_all_white(s: &str) -> (r: bool)
    ensures
        r == all_white(s@),
{
    let chars: Vec<char> = chars_of(s);
    skip_white(chars.as_slice(), 0) == chars.len()
}

/// A character between single quotes, with escapes, as `{:?}` prints it.
pub uninterp spec fn debug_char(c: char) -> Seq<char>;

/// A text between double quotes, with escapes, as `{:?}` prints it.
pub uninterp spec fn debug_text(s: Seq<char>) -> Seq<char>;

/// The `Debug` form of a character.
#[verifier::external_body]
pub(crate) fn quoted_char(c: char) -> (s: String)
    ensures
        s@ == debug_char(c),
{
    format!("{:?}", c)
}

/// The `Debug` form of a text.
#[verifier::external_body]
pub(crate) fn quoted_str(t: &str) -> (s: String)
    ensures
        s@ == debug_text(t@),
{
    format!("{:?}", t)
}

} // verus!
