use vstd::prelude::*;

use crate::error::Error;
use crate::text::{ascii_upper, chars_of, decimal, is_space, is_space_char, push_decimal};

verus! {

// ---------------------------------------------------------------------------
// The IDA-style text format
// ---------------------------------------------------------------------------

/// The number of leading characters of `s` up to the first white space.
pub open spec fn word_len(s: Seq<char>) -> nat
    decreases s.len(),
{
    if s.len() == 0 || is_space(s[0]) {
        0
    } else {
        1 + word_len(s.drop_first())
    }
}

/// A word is never longer than the text it starts.
pub proof fn lemma_word_len_bound(s: Seq<char>)
    ensures
        word_len(s) <= s.len(),
        s.len() > 0 && !is_space(s[0]) ==> word_len(s) >= 1,
    decreases s.len(),
{
    if s.len() > 0 && !is_space(s[0]) {
        lemma_word_len_bound(s.drop_first());
    }
}

/// The white-space separated words of `s`, in order: what
/// `str::split_whitespace` yields.
pub open spec fn words(s: Seq<char>) -> Seq<Seq<char>>
    decreases s.len(),
{
    if s.len() == 0 {
        seq![]
    } else if is_space(s[0]) {
        words(s.drop_first())
    } else {
        let n = word_len(s);
        proof {
            lemma_word_len_bound(s);
        }
        seq![s.take(n as int)] + words(s.skip(n as int))
    }
}

/// The value of a hexadecimal digit (either case), if `c` is one.
pub open spec fn hex_digit(c: char) -> Option<nat> {
    let u = c as u32;
    if 48 <= u <= 57 {
        Some((u - 48) as nat)
    } else if 97 <= u <= 102 {
        Some((u - 87) as nat)
    } else if 65 <= u <= 70 {
        Some((u - 55) as nat)
    } else {
        None
    }
}

/// The number that the hexadecimal digits `d` denote, if all are digits.
pub open spec fn hex_value(d: Seq<char>) -> Option<nat>
    decreases d.len(),
{
    if d.len() == 0 {
        Some(0)
    } else {
        match (hex_value(d.drop_last()), hex_digit(d.last())) {
            (Some(v), Some(x)) => Some(v * 16 + x),
            _ => None,
        }
    }
}

/// The byte that `u8::from_str_radix(t, 16)` reads from `t`: an optional
/// `+`, then one or more hexadecimal digits whose value fits in a byte.
pub open spec fn hex_byte(t: Seq<char>) -> Option<u8> {
    let digits = if t.len() > 0 && t[0] == '+' {
        t.drop_first()
    } else {
        t
    };
    if digits.len() == 0 {
        None
    } else {
        match hex_value(digits) {
            Some(v) => if v <= 255 {
                Some(v as u8)
            } else {
                None
            },
            None => None,
        }
    }
}

/// What one word of an IDA pattern stands for: `?` and `??` for any byte,
/// a hexadecimal number for that byte; `None` when the word is neither.
pub open spec fn word_byte(t: Seq<char>) -> Option<Option<u8>> {
    if t == seq!['?'] || t == seq!['?', '?'] {
        Some(None)
    } else {
        match hex_byte(t) {
            Some(b) => Some(Some(b)),
            None => None,
        }
    }
}

/// The pattern bytes that a list of words stands for, or the first word
/// that stands for none.
pub open spec fn parse_words(ws: Seq<Seq<char>>) -> Result<Seq<Option<u8>>, Seq<char>>
    decreases ws.len(),
{
    if ws.len() == 0 {
        Ok(seq![])
    } else {
        match word_byte(ws[0]) {
            None => Err(ws[0]),
            Some(b) => match parse_words(ws.drop_first()) {
                Ok(rest) => Ok(seq![b] + rest),
                Err(t) => Err(t),
            },
        }
    }
}

/// The pattern bytes of an IDA-style text, or its first malformed word.
pub open spec fn ida_bytes(s: Seq<char>) -> Result<Seq<Option<u8>>, Seq<char>> {
    parse_words(words(s))
}

/// The message of the error for the malformed word `t`.
pub open spec fn bad_word_message(t: Seq<char>) -> Seq<char> {
    "bu ne hex mi: "@ + t
}

/// The message of the error for a text without words.
pub open spec fn empty_pattern_message() -> Seq<char> {
    "bos pattern mi olur amk"@
}

spec fn prepend_bytes(
    done: Seq<Option<u8>>,
    rest: Result<Seq<Option<u8>>, Seq<char>>,
) -> Result<Seq<Option<u8>>, Seq<char>> {
    match rest {
        Ok(r) => Ok(done + r),
        Err(t) => Err(t),
    }
}

/// The word of `s` that starts at `i` and ends at `j` is the first word of
/// `s.skip(i)`.
proof fn lemma_word_at(s: Seq<char>, i: int, j: int)
    requires
        0 <= i < j <= s.len(),
        forall|k: int| i <= k < j ==> !is_space(#[trigger] s[k]),
        j == s.len() || is_space(s[j]),
    ensures
        words(s.skip(i)) == seq![s.subrange(i, j)] + words(s.skip(j)),
{
    lemma_word_len_skip(s, i, j);
    assert(s.skip(i).take(j - i) =~= s.subrange(i, j));
    assert(s.skip(i).skip(j - i) =~= s.skip(j));
}

proof fn lemma_word_len_skip(s: Seq<char>, i: int, j: int)
    requires
        0 <= i <= j <= s.len(),
        forall|k: int| i <= k < j ==> !is_space(#[trigger] s[k]),
        j == s.len() || is_space(s[j]),
    ensures
        word_len(s.skip(i)) == j - i,
    decreases j - i,
{
    if i < j {
        assert(s.skip(i).drop_first() =~= s.skip(i + 1));
        lemma_word_len_skip(s, i + 1, j);
    } else {
        if j < s.len() {
            assert(s.skip(i)[0] == s[j]);
        }
    }
}

fn hex_digit_value(c: char) -> (r: Option<u8>)
    ensures
        r matches Some(d) ==> hex_digit(c) == Some(d as nat),
        r is None ==> hex_digit(c) is None,
{
    let u = c as u32;
    if 48 <= u && u <= 57 {
        Some((u - 48) as u8)
    } else if 97 <= u && u <= 102 {
        Some((u - 87) as u8)
    } else if 65 <= u && u <= 70 {
        Some((u - 55) as u8)
    } else {
        None
    }
}

/// What the word `chars[i..j]` stands for.
fn word_value(chars: &Vec<char>, i: usize, j: usize) -> (r: Option<Option<u8>>)
    requires
        i < j <= chars@.len(),
    ensures
        r == word_byte(chars@.subrange(i as int, j as int)),
{
    let ghost t = chars@.subrange(i as int, j as int);
    if j - i == 1 && chars[i] == '?' {
        assert(t =~= seq!['?']);
        return Some(None);
    }
    if j - i == 2 && chars[i] == '?' && chars[i + 1] == '?' {
        assert(t =~= seq!['?', '?']);
        return Some(None);
    }
    assert(t != seq!['?']) by {
        if t == seq!['?'] {
            assert(t.len() == 1 && t[0] == chars@[i as int]);
        }
    }
    assert(t != seq!['?', '?']) by {
        if t == seq!['?', '?'] {
            assert(t.len() == 2 && t[0] == chars@[i as int] && t[1] == chars@[i + 1]);
        }
    }
    let start = if chars[i] == '+' {
        i + 1
    } else {
        i
    };
    let ghost digits = chars@.subrange(start as int, j as int);
    assert(digits =~= (if t.len() > 0 && t[0] == '+' {
        t.drop_first()
    } else {
        t
    }));
    if start == j {
        return None;
    }
    let mut v: u32 = 0;
    let mut big = false;
    let mut k = start;
    assert(chars@.subrange(start as int, start as int) =~= Seq::<char>::empty());
    while k < j
        invariant
            i <= start < j <= chars@.len(),
            start <= k <= j,
            digits == chars@.subrange(start as int, j as int),
            t == chars@.subrange(i as int, j as int),
            t != seq!['?'],
            t != seq!['?', '?'],
            digits == (if t.len() > 0 && t[0] == '+' {
                t.drop_first()
            } else {
                t
            }),
            hex_value(chars@.subrange(start as int, k as int)) is Some,
            !big ==> v <= 255 && hex_value(chars@.subrange(start as int, k as int)) == Some(
                v as nat,
            ),
            big ==> hex_value(chars@.subrange(start as int, k as int))->0 > 255,
        decreases j - k,
    {
        let ghost before = chars@.subrange(start as int, k as int);
        let ghost after = chars@.subrange(start as int, k + 1);
        assert(after.drop_last() =~= before);
        assert(after.last() == chars@[k as int]);
        match hex_digit_value(chars[k]) {
            None => {
                assert(hex_value(digits) is None) by {
                    lemma_hex_value_prefix_none(chars@, start as int, k + 1, j as int);
                }
                return None;
            },
            Some(d) => {
                if !big {
                    v = v * 16 + d as u32;
                    if v > 255 {
                        big = true;
                    }
                }
            },
        }
        k += 1;
    }
    if big {
        None
    } else {
        Some(Some(v as u8))
    }
}

/// Once a prefix of a text is not a number, neither is the whole text.
proof fn lemma_hex_value_prefix_none(s: Seq<char>, start: int, k: int, j: int)
    requires
        0 <= start <= k <= j <= s.len(),
        hex_value(s.subrange(start, k)) is None,
    ensures
        hex_value(s.subrange(start, j)) is None,
    decreases j - k,
{
    if k < j {
        assert(s.subrange(start, k + 1).drop_last() =~= s.subrange(start, k));
        lemma_hex_value_prefix_none(s, start, k + 1, j);
    }
}

/// The pattern of a code-style byte string and mask: position `i` is the
/// byte `b[i]` where the mask has `x`, any byte elsewhere.  It has as many
/// positions as the mask has characters (or the bytes, if fewer).
pub open spec fn code_pattern(b: Seq<u8>, mask: Seq<char>) -> Seq<Option<u8>> {
    let n = if b.len() < mask.len() {
        b.len()
    } else {
        mask.len()
    };
    Seq::new(
        n,
        |i: int|
            if mask[i] == 'x' {
                Some(b[i])
            } else {
                None
            },
    )
}

/// The pattern that matches exactly the bytes `b`.
pub open spec fn exact_pattern(b: Seq<u8>) -> Seq<Option<u8>> {
    Seq::new(b.len(), |i: int| Some(b[i]))
}

/// Whether the pattern position `p` accepts the byte `b`.
pub open spec fn accepts(p: Option<u8>, b: u8) -> bool {
    match p {
        Some(x) => x == b,
        None => true,
    }
}

/// Whether the pattern `p` matches `data` starting at `offset`: the
/// pattern fits in the data there, and each position accepts its byte.
pub open spec fn matches_at(p: Seq<Option<u8>>, data: Seq<u8>, offset: int) -> bool {
    &&& 0 <= offset
    &&& offset + p.len() <= data.len()
    &&& forall|i: int| 0 <= i < p.len() ==> accepts(#[trigger] p[i], data[offset + i])
}

/// The first fixed byte of a pattern, if it has one.
pub open spec fn first_fixed(p: Seq<Option<u8>>) -> Option<u8>
    decreases p.len(),
{
    if p.len() == 0 {
        None
    } else {
        match p[0] {
            Some(b) => Some(b),
            None => first_fixed(p.drop_first()),
        }
    }
}

/// The message of the error for byte and mask strings of different lengths.
pub open spec fn mask_mismatch_message() -> Seq<char> {
    "bytes ile mask uyusmuyor"@
}

/// The text that describes a pattern made from a code-style string of `n`
/// bytes.
pub open spec fn code_text(n: nat) -> Seq<char> {
    "code-style ("@ + decimal(n) + " bytes)"@
}

/// The text that describes a pattern made from `n` raw bytes.
pub open spec fn raw_text(n: nat) -> Seq<char> {
    "raw ("@ + decimal(n) + " bytes)"@
}

// ---------------------------------------------------------------------------
// Patterns
// ---------------------------------------------------------------------------

/// A byte pattern: a sequence of positions, each either a fixed byte or a
/// wildcard that any byte fills, together with a short text that says where
/// the pattern came from.
#[derive(Debug)]
pub struct Pattern {
    bytes: Vec<Option<u8>>,
    original: String,
}

impl Clone for Pattern {
    /// A copy with the same positions and the same describing text.
    fn clone(&self) -> (p: Self)
        ensures
            p@ == self@,
            p.text() == self.text(),
    {
        let mut bytes: Vec<Option<u8>> = Vec::new();
        let mut i: usize = 0;
        while i < self.bytes.len()
            invariant
                i <= self.bytes@.len(),
                bytes@ == self.bytes@.take(i as int),
            decreases self.bytes@.len() - i,
        {
            bytes.push(self.bytes[i]);
            assert(bytes@ =~= self.bytes@.take(i + 1));
            i += 1;
        }
        assert(bytes@ =~= self.bytes@);
        Pattern { bytes, original: self.original.clone() }
    }
}

impl View for Pattern {
    type V = Seq<Option<u8>>;

    closed spec fn view(&self) -> Seq<Option<u8>> {
        self.bytes@
    }
}

impl Pattern {
    /// The text that describes the pattern.
    pub closed spec fn text(&self) -> Seq<char> {
        self.original@
    }

    /// Parses an IDA-style pattern such as `48 8B 05 ? ? ? ?`: words
    /// separated by white space, each `?` or `??` for any byte, or a
    /// hexadecimal byte (an optional `+`, then digits of either case).
    pub fn from_ida(pattern: &str) -> (r: Result<Pattern, Error>)
        ensures
            r is Ok <==> (ida_bytes(pattern@) is Ok && ida_bytes(pattern@)->Ok_0.len() > 0),
            r matches Ok(p) ==> p@ == ida_bytes(pattern@)->Ok_0 && p.text() == pattern@,
            ida_bytes(pattern@) matches Err(t) ==> (r matches Err(Error::InvalidPattern(m))
                && m@ == bad_word_message(t)),
            ida_bytes(pattern@) matches Ok(b) && b.len() == 0 ==> (r matches Err(
                Error::InvalidPattern(m),
            ) && m@ == empty_pattern_message()),
    {
        let original = String::from_str(pattern);
        let chars = chars_of(pattern);
        let n = chars.len();
        let mut bytes: Vec<Option<u8>> = Vec::new();
        let mut i: usize = 0;
        assert(chars@.skip(0) =~= chars@);
        assert(prepend_bytes(bytes@, parse_words(words(chars@.skip(0)))) =~= ida_bytes(
            pattern@,
        )) by {
            match parse_words(words(chars@)) {
                Ok(r) => {
                    assert(bytes@ + r =~= r);
                },
                Err(_) => {},
            }
        }
        while i < n
            invariant
                chars@ == pattern@,
                n == chars@.len(),
                i <= n,
                original@ == pattern@,
                ida_bytes(pattern@) == prepend_bytes(bytes@, parse_words(words(chars@.skip(i as int)))),
            decreases n - i,
        {
            if is_space_char(chars[i]) {
                assert(chars@.skip(i as int).drop_first() =~= chars@.skip(i + 1));
                i += 1;
            } else {
                let mut j = i + 1;
                while j < n && !is_space_char(chars[j])
                    invariant
                        i < j <= n,
                        n == chars@.len(),
                        forall|k: int| i <= k < j ==> !is_space(#[trigger] chars@[k]),
                    decreases n - j,
                {
                    j += 1;
                }
                proof {
                    lemma_word_at(chars@, i as int, j as int);
                }
                let ghost word = chars@.subrange(i as int, j as int);
                let ghost rest = words(chars@.skip(j as int));
                assert((seq![word] + rest)[0] == word);
                assert((seq![word] + rest).drop_first() =~= rest);
                match word_value(&chars, i, j) {
                    None => {
                        let mut msg = String::from_str("bu ne hex mi: ");
                        msg.append(pattern.substring_char(i, j));
                        return Err(Error::InvalidPattern(msg));
                    },
                    Some(b) => {
                        let ghost old_bytes = bytes@;
                        bytes.push(b);
                        assert(prepend_bytes(old_bytes, parse_words(seq![word] + rest))
                            =~= prepend_bytes(bytes@, parse_words(rest))) by {
                            match parse_words(rest) {
                                Ok(r) => {
                                    assert(old_bytes + (seq![b] + r) =~= bytes@ + r);
                                },
                                Err(_) => {},
                            }
                        }
                    },
                }
                i = j;
            }
        }
        assert(chars@.skip(i as int) =~= Seq::<char>::empty());
        assert(bytes@ + Seq::<Option<u8>>::empty() =~= bytes@);
        if bytes.len() == 0 {
            return Err(Error::InvalidPattern(String::from_str("bos pattern mi olur amk")));
        }
        Ok(Pattern { bytes, original })
    }

    /// Builds a pattern from a byte string and a mask of the same length in
    /// bytes: where the mask has `x` the byte must match, elsewhere any
    /// byte does.
    pub fn from_code(bytes: &[u8], mask: &str) -> (r: Result<Pattern, Error>)
        ensures
            r is Err <==> bytes@.len() != vstd::utf8::encode_utf8(mask@).len(),
            r matches Err(e) ==> (e matches Error::InvalidPattern(m) && m@
                == mask_mismatch_message()),
            r matches Ok(p) ==> p@ == code_pattern(bytes@, mask@) && p.text() == code_text(
                bytes@.len(),
            ),
            r matches Ok(p) ==> p@.len() == (if bytes@.len() < mask@.len() {
                bytes@.len()
            } else {
                mask@.len()
            }) && forall|i: int|
                0 <= i < p@.len() ==> #[trigger] p@[i] == (if mask@[i] == 'x' {
                    Some(bytes@[i])
                } else {
                    None
                }),
    {
        let mask_bytes = mask.as_bytes();
        if bytes.len() != mask_bytes.len() {
            return Err(Error::InvalidPattern(String::from_str("bytes ile mask uyusmuyor")));
        }
        let mut original = String::from_str("code-style (");
        push_decimal(&mut original, bytes.len());
        original.append(" bytes)");
        let m = chars_of(mask);
        let n = if bytes.len() < m.len() {
            bytes.len()
        } else {
            m.len()
        };
        let mut out: Vec<Option<u8>> = Vec::new();
        let mut i: usize = 0;
        while i < n
            invariant
                n <= bytes@.len(),
                n <= m@.len(),
                m@ == mask@,
                n == code_pattern(bytes@, mask@).len(),
                i <= n,
                out@ == code_pattern(bytes@, mask@).take(i as int),
            decreases n - i,
        {
            if m[i] == 'x' {
                out.push(Some(bytes[i]));
            } else {
                out.push(None);
            }
            assert(out@ =~= code_pattern(bytes@, mask@).take(i + 1));
            i += 1;
        }
        assert(out@ =~= code_pattern(bytes@, mask@));
        Ok(Pattern { bytes: out, original })
    }

    /// Builds the pattern that matches exactly `bytes`.
    pub fn from_bytes(bytes: &[u8]) -> (p: Pattern)
        ensures
            p@ == exact_pattern(bytes@),
            p.text() == raw_text(bytes@.len()),
    {
        let mut original = String::from_str("raw (");
        push_decimal(&mut original, bytes.len());
        original.append(" bytes)");
        let mut out: Vec<Option<u8>> = Vec::new();
        let mut i: usize = 0;
        while i < bytes.len()
            invariant
                i <= bytes@.len(),
                out@ == exact_pattern(bytes@).take(i as int),
            decreases bytes@.len() - i,
        {
            out.push(Some(bytes[i]));
            assert(out@ =~= exact_pattern(bytes@).take(i + 1));
            i += 1;
        }
        assert(out@ =~= exact_pattern(bytes@));
        Pattern { bytes: out, original }
    }

    /// The number of positions.
    pub fn len(&self) -> (n: usize)
        ensures
            n == self@.len(),
    {
        self.bytes.len()
    }

    /// Whether the pattern has no positions.
    pub fn is_empty(&self) -> (b: bool)
        ensures
            b == (self@.len() == 0),
    {
        self.bytes.len() == 0
    }

    /// Whether the pattern matches `data` starting at `offset`.
    pub fn matches(&self, data: &[u8], offset: usize) -> (b: bool)
        requires
            offset + self@.len() <= usize::MAX,
        ensures
            b == matches_at(self@, data@, offset as int),
    {
        if offset + self.bytes.len() > data.len() {
            return false;
        }
        let mut i: usize = 0;
        while i < self.bytes.len()
            invariant
                offset + self@.len() <= data@.len(),
                offset + self@.len() <= usize::MAX,
                i <= self@.len(),
                forall|k: int| 0 <= k < i ==> accepts(#[trigger] self@[k], data@[offset + k]),
            decreases self@.len() - i,
        {
            match self.bytes[i] {
                Some(b) => {
                    if data[offset + i] != b {
                        assert(!accepts(self@[i as int], data@[offset + i]));
                        return false;
                    }
                },
                None => {},
            }
            i += 1;
        }
        true
    }

    /// The first fixed byte of the pattern, if it has one.
    pub fn first_byte(&self) -> (r: Option<u8>)
        ensures
            r == first_fixed(self@),
            r matches Some(b) ==> exists|i: int|
                0 <= i < self@.len() && self@[i] == Some(b) && forall|j: int|
                    0 <= j < i ==> #[trigger] self@[j] is None,
            r is None ==> forall|i: int| 0 <= i < self@.len() ==> #[trigger] self@[i] is None,
    {
        let mut i: usize = 0;
        assert(self@.skip(0) =~= self@);
        while i < self.bytes.len()
            invariant
                i <= self@.len(),
                forall|j: int| 0 <= j < i ==> #[trigger] self@[j] is None,
                first_fixed(self@) == first_fixed(self@.skip(i as int)),
            decreases self@.len() - i,
        {
            assert(self@.skip(i as int)[0] == self@[i as int]);
            if let Some(b) = self.bytes[i] {
                assert(self@[i as int] == Some(b));
                return Some(b);
            }
            assert(self@.skip(i as int).drop_first() =~= self@.skip(i + 1));
            i += 1;
        }
        assert(self@.skip(i as int) =~= Seq::<Option<u8>>::empty());
        None
    }

    /// The text that describes the pattern: the IDA-style text it was
    /// parsed from, or a note on how many bytes it was built from.
    pub fn as_str(&self) -> (s: &str)
        ensures
            s@ == self.text(),
    {
        self.original.as_str()
    }
}

} // verus!

verus! {

// ---------------------------------------------------------------------------
// Laws of patterns
// ---------------------------------------------------------------------------

/// A code-style pattern whose mask is all `x` and as long as its bytes is
/// the pattern of exactly those bytes.
pub proof fn law_full_mask_is_exact(b: Seq<u8>, mask: Seq<char>)
    requires
        mask.len() == b.len(),
        forall|i: int| 0 <= i < mask.len() ==> #[trigger] mask[i] == 'x',
    ensures
        code_pattern(b, mask) == exact_pattern(b),
{
    assert(code_pattern(b, mask) =~= exact_pattern(b));
}

/// The pattern of exactly the bytes `b` matches `data` at `offset` if and
/// only if the bytes of `data` there are `b`.
pub proof fn law_exact_pattern_matches_iff_equal(b: Seq<u8>, data: Seq<u8>, offset: int)
    requires
        0 <= offset,
    ensures
        matches_at(exact_pattern(b), data, offset) <==> (offset + b.len() <= data.len()
            && data.subrange(offset, offset + b.len()) == b),
{
    let p = exact_pattern(b);
    if matches_at(p, data, offset) {
        assert forall|i: int| 0 <= i < b.len() implies data.subrange(offset, offset + b.len())[i]
            == b[i] by {
            assert(accepts(p[i], data[offset + i]));
        }
        assert(data.subrange(offset, offset + b.len()) =~= b);
    }
    if offset + b.len() <= data.len() && data.subrange(offset, offset + b.len()) == b {
        assert forall|i: int| 0 <= i < p.len() implies accepts(#[trigger] p[i], data[offset + i]) by {
            assert(data.subrange(offset, offset + b.len())[i] == data[offset + i]);
        }
    }
}

/// A pattern of wildcards only matches wherever it fits.
pub proof fn law_wildcards_match_where_they_fit(p: Seq<Option<u8>>, data: Seq<u8>, offset: int)
    requires
        0 <= offset,
        forall|i: int| 0 <= i < p.len() ==> #[trigger] p[i] is None,
    ensures
        matches_at(p, data, offset) <==> offset + p.len() <= data.len(),
{
}

/// Where a pattern matches, each of its fixed bytes is in the data at its
/// position.
pub proof fn law_fixed_byte_in_match(p: Seq<Option<u8>>, data: Seq<u8>, offset: int, i: int)
    requires
        matches_at(p, data, offset),
        0 <= i < p.len(),
        p[i] is Some,
    ensures
        data[offset + i] == p[i]->Some_0,
{
    assert(accepts(p[i], data[offset + i]));
}

/// The first fixed byte of a pattern is at the first position that is not
/// a wildcard.
pub proof fn law_first_fixed_is_first_non_wildcard(p: Seq<Option<u8>>)
    ensures
        forall|i: int|
            0 <= i < p.len() && #[trigger] p[i] is Some && (forall|j: int|
                0 <= j < i ==> p[j] is None) ==> first_fixed(p) == p[i],
        (forall|i: int| 0 <= i < p.len() ==> #[trigger] p[i] is None) ==> first_fixed(p) is None,
    decreases p.len(),
{
    if p.len() > 0 {
        law_first_fixed_is_first_non_wildcard(p.drop_first());
        assert forall|i: int|
            0 <= i < p.len() && #[trigger] p[i] is Some && (forall|j: int|
                0 <= j < i ==> p[j] is None) implies first_fixed(p) == p[i] by {
            if i > 0 {
                assert(p[0] is None);
                assert(p.drop_first()[i - 1] == p[i]);
                assert forall|j: int| 0 <= j < i - 1 implies p.drop_first()[j] is None by {
                    assert(p.drop_first()[j] == p[j + 1]);
                }
            }
        }
        if forall|i: int| 0 <= i < p.len() ==> #[trigger] p[i] is None {
            assert(p[0] is None);
            assert forall|i: int| 0 <= i < p.drop_first().len() implies #[trigger] p.drop_first()[i] is None by {
                assert(p.drop_first()[i] == p[i + 1]);
            }
        }
    }
}

/// The first fixed byte of the pattern of raw bytes is the first byte.
pub proof fn law_exact_first_fixed(b: Seq<u8>)
    ensures
        first_fixed(exact_pattern(b)) == (if b.len() > 0 {
            Some(b[0])
        } else {
            None
        }),
{
}

/// The first fixed byte of a code-style pattern is the byte at the first
/// `x` of the mask, if the mask has one within the pattern.
pub proof fn law_code_first_fixed(b: Seq<u8>, mask: Seq<char>, i: int)
    requires
        0 <= i < code_pattern(b, mask).len(),
        mask[i] == 'x',
        forall|j: int| 0 <= j < i ==> #[trigger] mask[j] != 'x',
    ensures
        first_fixed(code_pattern(b, mask)) == Some(b[i]),
{
    let p = code_pattern(b, mask);
    law_first_fixed_is_first_non_wildcard(p);
    assert(p[i] is Some);
    assert forall|j: int| 0 <= j < i implies p[j] is None by {
        assert(mask[j] != 'x');
    }
}

/// Matching at an offset is matching at the start of the data from that
/// offset on.
pub proof fn law_matches_shift(p: Seq<Option<u8>>, data: Seq<u8>, offset: int)
    requires
        0 <= offset <= data.len(),
    ensures
        matches_at(p, data, offset) == matches_at(p, data.skip(offset), 0),
{
    if offset + p.len() <= data.len() {
        assert forall|i: int| 0 <= i < p.len() implies accepts(#[trigger] p[i], data[offset + i])
            == accepts(p[i], data.skip(offset)[0 + i]) by {
            assert(data.skip(offset)[0 + i] == data[offset + i]);
        }
    }
}

/// Appending bytes to the data never removes a match.
pub proof fn law_matches_extend(p: Seq<Option<u8>>, data: Seq<u8>, extra: Seq<u8>, offset: int)
    requires
        matches_at(p, data, offset),
    ensures
        matches_at(p, data + extra, offset),
{
    assert forall|i: int| 0 <= i < p.len() implies accepts(#[trigger] p[i], (data + extra)[offset + i]) by {
        assert(accepts(p[i], data[offset + i]));
        assert((data + extra)[offset + i] == data[offset + i]);
    }
}

// ---------------------------------------------------------------------------
// Patterns as IDA-style text
// ---------------------------------------------------------------------------

/// The upper-case hexadecimal digit for a value below sixteen.
pub open spec fn hex_char(d: nat) -> char {
    if d < 10 {
        (48 + d) as char
    } else {
        (55 + d) as char
    }
}

/// The IDA word for one pattern position: `?` for any byte, two upper-case
/// hexadecimal digits for a fixed byte.
pub open spec fn ida_word(x: Option<u8>) -> Seq<char> {
    match x {
        None => seq!['?'],
        Some(b) => seq![hex_char((b / 16) as nat), hex_char((b % 16) as nat)],
    }
}

/// The IDA-style text of a pattern: its words separated by single spaces.
pub open spec fn ida_text(p: Seq<Option<u8>>) -> Seq<char>
    decreases p.len(),
{
    if p.len() == 0 {
        seq![]
    } else if p.len() == 1 {
        ida_word(p[0])
    } else {
        ida_word(p[0]) + seq![' '] + ida_text(p.drop_first())
    }
}

proof fn lemma_hex_char(d: nat)
    requires
        d < 16,
    ensures
        hex_digit(hex_char(d)) == Some(d),
        !is_space(hex_char(d)),
        hex_char(d) != '?',
        hex_char(d) != '+',
{
}

proof fn lemma_word_byte_of_ida_word(x: Option<u8>)
    ensures
        word_byte(ida_word(x)) == Some(x),
        ida_word(x).len() >= 1,
        forall|k: int| 0 <= k < ida_word(x).len() ==> !is_space(#[trigger] ida_word(x)[k]),
{
    match x {
        None => {},
        Some(b) => {
            let hi = (b / 16) as nat;
            let lo = (b % 16) as nat;
            lemma_hex_char(hi);
            lemma_hex_char(lo);
            let t = ida_word(x);
            assert(t != seq!['?']) by {
                if t == seq!['?'] {
                    assert(t.len() == 1);
                }
            }
            assert(t != seq!['?', '?']) by {
                if t == seq!['?', '?'] {
                    assert(t[0] == '?');
                }
            }
            assert(t.drop_last() =~= seq![hex_char(hi)]);
            assert(t.drop_last().drop_last() =~= Seq::<char>::empty());
            assert(hex_value(t.drop_last().drop_last()) == Some(0nat));
            assert(t.drop_last().last() == hex_char(hi));
            assert(hex_value(t.drop_last()) == Some(hi));
            assert(hex_value(t) == Some(hi * 16 + lo));
            assert(hi * 16 + lo == b);
        },
    }
}

proof fn lemma_words_of_word(w: Seq<char>)
    requires
        w.len() >= 1,
        forall|k: int| 0 <= k < w.len() ==> !is_space(#[trigger] w[k]),
    ensures
        words(w) == seq![w],
{
    lemma_word_at(w, 0, w.len() as int);
    assert(w.skip(0) =~= w);
    assert(w.subrange(0, w.len() as int) =~= w);
    assert(w.skip(w.len() as int) =~= Seq::<char>::empty());
    assert(seq![w] + Seq::<Seq<char>>::empty() =~= seq![w]);
}

proof fn lemma_words_of_ida_text(p: Seq<Option<u8>>)
    requires
        p.len() >= 1,
    ensures
        words(ida_text(p)) == Seq::new(p.len(), |i: int| ida_word(p[i])),
    decreases p.len(),
{
    let w = ida_word(p[0]);
    lemma_word_byte_of_ida_word(p[0]);
    if p.len() == 1 {
        lemma_words_of_word(w);
        assert(seq![w] =~= Seq::new(p.len(), |i: int| ida_word(p[i])));
    } else {
        let rest = ida_text(p.drop_first());
        let s = w + seq![' '] + rest;
        assert(ida_text(p) == s);
        assert forall|k: int| 0 <= k < w.len() implies !is_space(#[trigger] s[k]) by {
            assert(s[k] == w[k]);
        }
        assert(s[w.len() as int] == ' ');
        lemma_word_at(s, 0, w.len() as int);
        assert(s.skip(0) =~= s);
        assert(s.subrange(0, w.len() as int) =~= w);
        let after = s.skip(w.len() as int);
        assert(after[0] == ' ');
        assert(after.drop_first() =~= rest);
        lemma_words_of_ida_text(p.drop_first());
        assert(seq![w] + Seq::new(p.drop_first().len(), |i: int| ida_word(p.drop_first()[i]))
            =~= Seq::new(p.len(), |i: int| ida_word(p[i])));
    }
}

proof fn lemma_parse_ida_words(p: Seq<Option<u8>>)
    ensures
        parse_words(Seq::new(p.len(), |i: int| ida_word(p[i]))) == Ok::<
            Seq<Option<u8>>,
            Seq<char>,
        >(p),
    decreases p.len(),
{
    let ws = Seq::new(p.len(), |i: int| ida_word(p[i]));
    if p.len() == 0 {
        assert(p =~= Seq::<Option<u8>>::empty());
    } else {
        lemma_word_byte_of_ida_word(p[0]);
        lemma_parse_ida_words(p.drop_first());
        assert(ws.drop_first() =~= Seq::new(p.drop_first().len(), |i: int| ida_word(p.drop_first()[i])));
        assert(seq![p[0]] + p.drop_first() =~= p);
    }
}

/// Writing a non-empty pattern as IDA-style text and parsing that text
/// gives the pattern back: any pattern, from code-style bytes and a mask or
/// from raw bytes, has an IDA text that describes it.
pub proof fn law_ida_text_round_trip(p: Seq<Option<u8>>)
    requires
        p.len() >= 1,
    ensures
        ida_bytes(ida_text(p)) == Ok::<Seq<Option<u8>>, Seq<char>>(p),
{
    lemma_words_of_ida_text(p);
    lemma_parse_ida_words(p);
}

/// Each position of a parsed IDA pattern is what the word at the same
/// place stands for, so the pattern has one position per word of the text.
pub proof fn law_ida_positions_are_words(s: Seq<char>)
    requires
        ida_bytes(s) is Ok,
    ensures
        ida_bytes(s)->Ok_0.len() == words(s).len(),
        forall|i: int|
            0 <= i < words(s).len() ==> word_byte(#[trigger] words(s)[i]) == Some(
                ida_bytes(s)->Ok_0[i],
            ),
{
    lemma_parse_words_positions(words(s));
}

proof fn lemma_parse_words_positions(ws: Seq<Seq<char>>)
    requires
        parse_words(ws) is Ok,
    ensures
        parse_words(ws)->Ok_0.len() == ws.len(),
        forall|i: int| 0 <= i < ws.len() ==> word_byte(#[trigger] ws[i]) == Some(parse_words(ws)->Ok_0[i]),
    decreases ws.len(),
{
    if ws.len() > 0 {
        lemma_parse_words_positions(ws.drop_first());
        let b = word_byte(ws[0])->Some_0;
        let rest = parse_words(ws.drop_first())->Ok_0;
        assert(parse_words(ws)->Ok_0 == seq![b] + rest);
        assert forall|i: int| 0 <= i < ws.len() implies word_byte(#[trigger] ws[i]) == Some(
            parse_words(ws)->Ok_0[i],
        ) by {
            if i > 0 {
                assert(ws[i] == ws.drop_first()[i - 1]);
            }
        }
    }
}

/// When the byte string and the mask have the same length, a code-style
/// pattern has exactly one position per mask character, whatever the mask
/// holds: position `i` is the byte `b[i]` where the mask has `x`, and any
/// byte wherever else, trailing wildcards included.
pub proof fn law_code_pattern_positions(b: Seq<u8>, mask: Seq<char>)
    requires
        b.len() == mask.len(),
    ensures
        code_pattern(b, mask).len() == mask.len(),
        forall|i: int|
            0 <= i < mask.len() ==> (#[trigger] code_pattern(b, mask)[i] is Some <==> mask[i]
                == 'x'),
        forall|i: int|
            0 <= i < mask.len() && mask[i] == 'x' ==> #[trigger] code_pattern(b, mask)[i] == Some(
                b[i],
            ),
{
}

/// A pattern only matches where all its positions fit in the data: a
/// code-style pattern with wildcards at its end does not match a shorter
/// stretch of data.
pub proof fn law_match_needs_room(p: Seq<Option<u8>>, data: Seq<u8>, offset: int)
    requires
        matches_at(p, data, offset),
    ensures
        offset + p.len() <= data.len(),
{
}

/// The values of the hexadecimal digits: `0`-`9` are 0 to 9, and both `a`-`f`
/// and `A`-`F` are 10 to 15; no other character is a digit.
pub proof fn law_hex_digit_values(c: char)
    ensures
        48 <= c as u32 <= 57 ==> hex_digit(c) == Some((c as u32 - 48) as nat),
        97 <= c as u32 <= 102 ==> hex_digit(c) == Some((c as u32 - 87) as nat),
        65 <= c as u32 <= 70 ==> hex_digit(c) == Some((c as u32 - 55) as nat),
        !(48 <= c as u32 <= 57 || 97 <= c as u32 <= 102 || 65 <= c as u32 <= 70) ==> hex_digit(c)
            is None,
{
}

proof fn lemma_hex_digit_upper(c: char)
    ensures
        hex_digit(ascii_upper(c)) == hex_digit(c),
{
    let u = c as u32;
    if 97 <= u <= 122 {
        assert((((u - 32) as char) as u32) == u - 32);
    }
}

proof fn lemma_hex_value_upper(d: Seq<char>)
    ensures
        hex_value(d.map_values(|c: char| ascii_upper(c))) == hex_value(d),
    decreases d.len(),
{
    let up = d.map_values(|c: char| ascii_upper(c));
    if d.len() > 0 {
        assert(up.drop_last() =~= d.drop_last().map_values(|c: char| ascii_upper(c)));
        lemma_hex_value_upper(d.drop_last());
        lemma_hex_digit_upper(d.last());
        assert(up.last() == ascii_upper(d.last()));
    }
}

/// Hexadecimal words are read without regard to case: a word and its
/// ASCII upper-case form stand for the same byte, so `ca` and `CA` are
/// both 0xCA.
pub proof fn law_hex_word_case_insensitive(t: Seq<char>)
    ensures
        hex_byte(t.map_values(|c: char| ascii_upper(c))) == hex_byte(t),
        word_byte(t.map_values(|c: char| ascii_upper(c))) == word_byte(t),
{
    let up = t.map_values(|c: char| ascii_upper(c));
    if t.len() > 0 {
        assert(up[0] == ascii_upper(t[0]));
        if t[0] != '+' {
            let u = t[0] as u32;
            if 97 <= u <= 122 {
                assert((((u - 32) as char) as u32) == u - 32);
            }
        }
        assert(up.drop_first() =~= t.drop_first().map_values(|c: char| ascii_upper(c)));
        lemma_hex_value_upper(t.drop_first());
    }
    lemma_hex_value_upper(t);
    if t.len() >= 1 {
        lemma_upper_is_question(t[0]);
    }
    if t.len() >= 2 {
        lemma_upper_is_question(t[1]);
        assert(up[1] == ascii_upper(t[1]));
    }
    if t == seq!['?'] {
        assert(up =~= seq!['?']);
    }
    if up == seq!['?'] {
        assert(t =~= seq!['?']);
    }
    if t == seq!['?', '?'] {
        assert(up =~= seq!['?', '?']);
    }
    if up == seq!['?', '?'] {
        assert(t =~= seq!['?', '?']);
    }
}

proof fn lemma_upper_is_question(c: char)
    ensures
        ascii_upper(c) == '?' <==> c == '?',
        ascii_upper(c) == '+' <==> c == '+',
{
    let u = c as u32;
    if 97 <= u <= 122 {
        assert((((u - 32) as char) as u32) == u - 32);
    }
}

} // verus!
