use vstd::prelude::*;
use vstd::string::StringSliceAdditionalSpecFns;
use vstd::utf8::*;

verus! {

/// Index of the first occurrence of `sep` in `s`, or `s.len()` when there is none.
pub open spec fn first_sep(s: Seq<u8>, sep: u8) -> int
    decreases s.len(),
{
    if s.len() == 0 {
        0
    } else if s[0] == sep {
        0
    } else {
        1 + first_sep(s.drop_first(), sep)
    }
}

/// The pieces of `s` between occurrences of `sep`, as `str::split` yields
/// them: one more piece than there are separators, empty pieces included.
pub open spec fn split_on(s: Seq<u8>, sep: u8) -> Seq<Seq<u8>>
    decreases s.len(),
{
    let k = first_sep(s, sep);
    if 0 <= k < s.len() {
        seq![s.take(k)] + split_on(s.skip(k + 1), sep)
    } else {
        seq![s]
    }
}

/// `word` occurs somewhere in `s` as a contiguous run of bytes.
pub open spec fn contains_bytes(s: Seq<u8>, word: Seq<u8>) -> bool {
    exists|i: int| 0 <= i && i + word.len() <= s.len() && #[trigger] s.subrange(i, i + word.len()) == word
}

/// `first_sep` is the first index holding the separator.
pub proof fn lemma_first_sep_is(s: Seq<u8>, sep: u8, k: int)
    requires
        0 <= k <= s.len(),
        forall|j: int| 0 <= j < k ==> s[j] != sep,
        k == s.len() || s[k] == sep,
    ensures
        first_sep(s, sep) == k,
    decreases s.len(),
{
    if s.len() > 0 && s[0] != sep {
        lemma_first_sep_is(s.drop_first(), sep, k - 1);
    }
}

/// `first_sep` lies within the text, has no separator before it, and points
/// at one when it is not the end.
pub proof fn lemma_first_sep_bounds(s: Seq<u8>, sep: u8)
    ensures
        0 <= first_sep(s, sep) <= s.len(),
        forall|j: int| 0 <= j < first_sep(s, sep) ==> s[j] != sep,
        first_sep(s, sep) < s.len() ==> s[first_sep(s, sep)] == sep,
    decreases s.len(),
{
    if s.len() > 0 && s[0] != sep {
        lemma_first_sep_bounds(s.drop_first(), sep);
        assert forall|j: int| 0 <= j < first_sep(s, sep) implies s[j] != sep by {
            if j > 0 {
                assert(s[j] == s.drop_first()[j - 1]);
            }
        }
    }
}

/// The pieces joined back together, with `sep` between neighbours.
pub open spec fn join_with(pieces: Seq<Seq<u8>>, sep: u8) -> Seq<u8>
    decreases pieces.len(),
{
    if pieces.len() <= 1 {
        if pieces.len() == 1 { pieces[0] } else { Seq::empty() }
    } else {
        pieces[0] + seq![sep] + join_with(pieces.drop_first(), sep)
    }
}

/// Law: splitting loses nothing and cuts at every separator. The pieces hold
/// no separator, and joining them with the separator gives the text back.
pub proof fn law_split_rejoins(s: Seq<u8>, sep: u8)
    ensures
        join_with(split_on(s, sep), sep) == s,
        forall|i: int| 0 <= i < split_on(s, sep).len() ==> !(#[trigger] split_on(s, sep)[i]).contains(sep),
    decreases s.len(),
{
    lemma_first_sep_bounds(s, sep);
    let k = first_sep(s, sep);
    if k < s.len() {
        let rest = s.skip(k + 1);
        law_split_rejoins(rest, sep);
        let pieces = split_on(s, sep);
        assert(pieces == seq![s.take(k)] + split_on(rest, sep));
        assert(pieces.drop_first() =~= split_on(rest, sep));
        assert(split_on(rest, sep).len() >= 1) by {
            reveal_with_fuel(split_on, 1);
        }
        assert(s =~= s.take(k) + seq![sep] + rest);
        assert forall|i: int| 0 <= i < pieces.len() implies !(#[trigger] pieces[i]).contains(sep) by {
            if i == 0 {
                if s.take(k).contains(sep) {
                    let j = choose|j: int| 0 <= j < s.take(k).len() && s.take(k)[j] == sep;
                    assert(s[j] == sep);
                }
            } else {
                assert(pieces[i] == split_on(rest, sep)[i - 1]);
            }
        }
    } else {
        assert forall|i: int| 0 <= i < split_on(s, sep).len() implies !(#[trigger] split_on(s, sep)[i]).contains(sep) by {
            if s.contains(sep) {
                let j = choose|j: int| 0 <= j < s.len() && s[j] == sep;
                assert(s[j] != sep);
            }
        }
    }
}

/// The UTF-8 encoding of a concatenation is the concatenation of the encodings.
pub proof fn lemma_encode_utf8_concat(a: Seq<char>, b: Seq<char>)
    ensures
        encode_utf8(a + b) == encode_utf8(a) + encode_utf8(b),
    decreases a.len(),
{
    if a.len() == 0 {
        assert(a + b =~= b);
    } else {
        lemma_encode_utf8_concat(a.drop_first(), b);
        assert((a + b).drop_first() =~= a.drop_first() + b);
        assert((a + b)[0] == a[0]);
    }
}

/// Two texts are equal exactly when their encodings are.
pub proof fn lemma_encode_utf8_injective(a: Seq<char>, b: Seq<char>)
    ensures
        encode_utf8(a) == encode_utf8(b) <==> a == b,
{
    encode_utf8_decode_utf8(a);
    encode_utf8_decode_utf8(b);
}

/// In a valid encoding, a position holding a single-byte character (or the end)
/// is a character boundary.
pub proof fn lemma_ascii_boundary(b: Seq<u8>, i: int)
    requires
        valid_utf8(b),
        0 <= i <= b.len(),
        i == b.len() || !is_continuation_byte(b[i]),
    ensures
        is_char_boundary(b, i),
{
    if i == b.len() {
        is_char_boundary_start_end_of_seq(b);
    } else {
        is_char_boundary_iff_not_is_continuation_byte(b, i);
    }
}

/// Right after a leading single-byte character there is a character boundary.
pub proof fn lemma_boundary_after_ascii_head(b: Seq<u8>)
    requires
        valid_utf8(b),
        b.len() >= 1,
        b[0] < 0x80,
    ensures
        is_char_boundary(b, 1),
{
    reveal_with_fuel(is_char_boundary, 2);
    reveal_with_fuel(valid_utf8, 2);
    assert(length_of_first_scalar(b) == 1);
}

/// Splits `text` at every byte `sep` (a single-byte character), as
/// `str::split` with that character does.
pub fn split_text<'a>(text: &'a str, sep: u8) -> (parts: Vec<&'a str>)
    requires
        sep < 0x80,
    ensures
        parts.len() == split_on(text.spec_bytes(), sep).len(),
        forall|i: int| 0 <= i < parts.len() ==> #[trigger] parts[i].spec_bytes() == split_on(text.spec_bytes(), sep)[i],
{
    let mut parts: Vec<&'a str> = Vec::new();
    let mut rest: &'a str = text;
    let ghost mut done: Seq<Seq<u8>> = seq![];
    loop
        invariant
            sep < 0x80,
            parts.len() == done.len(),
            forall|i: int| 0 <= i < parts.len() ==> #[trigger] parts[i].spec_bytes() == done[i],
            split_on(text.spec_bytes(), sep) == done + split_on(rest.spec_bytes(), sep),
        decreases rest.spec_bytes().len(),
    {
        let bytes = rest.as_bytes();
        let n = bytes.len();
        let mut k: usize = 0;
        while k < n && bytes[k] != sep
            invariant
                k <= n,
                n == bytes@.len(),
                forall|j: int| 0 <= j < k ==> bytes@[j] != sep,
            decreases n - k,
        {
            k = k + 1;
        }
        let ghost rb = rest.spec_bytes();
        proof {
            lemma_first_sep_is(rb, sep, k as int);
            encode_utf8_valid_utf8(rest@);
        }
        if k == n {
            proof {
                assert(split_on(rb, sep) == seq![rb]);
                done = done.push(rb);
                assert(split_on(text.spec_bytes(), sep) =~= done);
            }
            parts.push(rest);
            return parts;
        }
        proof {
            lemma_ascii_boundary(rb, k as int);
        }
        let (piece, tail) = rest.split_at(k);
        proof {
            encode_utf8_valid_utf8(tail@);
            assert(tail.spec_bytes()[0] == sep);
            lemma_boundary_after_ascii_head(tail.spec_bytes());
        }
        let (_, after) = tail.split_at(1);
        proof {
            assert(piece.spec_bytes() =~= rb.take(k as int));
            assert(after.spec_bytes() =~= rb.skip(k + 1));
            assert(split_on(rb, sep) == seq![rb.take(k as int)] + split_on(rb.skip(k + 1), sep));
            assert(done + split_on(rb, sep) =~= done.push(piece.spec_bytes()) + split_on(after.spec_bytes(), sep));
            done = done.push(piece.spec_bytes());
        }
        parts.push(piece);
        rest = after;
    }
}

/// Whether `word` occurs in `hay` as a contiguous run of bytes.
pub fn bytes_contain(hay: &[u8], word: &[u8]) -> (found: bool)
    ensures
        found == contains_bytes(hay@, word@),
{
    let n = hay.len();
    let m = word.len();
    if m > n {
        assert(!contains_bytes(hay@, word@));
        return false;
    }
    let mut i: usize = 0;
    while i <= n - m
        invariant
            m <= n,
            n == hay@.len(),
            m == word@.len(),
            i <= n - m + 1,
            forall|p: int| 0 <= p < i ==> #[trigger] hay@.subrange(p, p + m) != word@,
        decreases n - m + 1 - i,
    {
        let mut j: usize = 0;
        while j < m && hay[i + j] == word[j]
            invariant
                m <= n,
                i <= n - m,
                n == hay@.len(),
                m == word@.len(),
                j <= m,
                forall|q: int| 0 <= q < j ==> hay@[i + q] == word@[q],
            decreases m - j,
        {
            j = j + 1;
        }
        if j == m {
            assert(hay@.subrange(i as int, i + m) =~= word@);
            return true;
        }
        assert(hay@.subrange(i as int, i + m)[j as int] != word@[j as int]);
        i = i + 1;
    }
    proof {
        assert forall|p: int| 0 <= p && p + word@.len() <= hay@.len() implies #[trigger] hay@.subrange(p, p + word@.len()) != word@ by {
            assert(p < i);
        }
    }
    false
}

/// The characters with Unicode's White_Space property, which `char::is_whitespace`
/// and therefore `str::trim` treat as whitespace.
pub open spec fn is_white_space(c: char) -> bool {
    ||| '\u{9}' <= c <= '\u{d}'
    ||| c == ' ' || c == '\u{85}' || c == '\u{a0}' || c == '\u{1680}'
    ||| '\u{2000}' <= c <= '\u{200a}'
    ||| c == '\u{2028}' || c == '\u{2029}' || c == '\u{202f}' || c == '\u{205f}' || c == '\u{3000}'
}

/// How many whitespace characters the text starts with.
pub open spec fn leading_white(text: Seq<char>) -> int
    decreases text.len(),
{
    if text.len() == 0 {
        0
    } else if is_white_space(text[0]) {
        1 + leading_white(text.drop_first())
    } else {
        0
    }
}

/// How many whitespace characters the text ends with.
pub open spec fn trailing_white(text: Seq<char>) -> int
    decreases text.len(),
{
    if text.len() == 0 {
        0
    } else if is_white_space(text.last()) {
        1 + trailing_white(text.drop_last())
    } else {
        0
    }
}

/// The text without its leading and trailing whitespace.
pub open spec fn trimmed(text: Seq<char>) -> Seq<char> {
    if leading_white(text) >= text.len() {
        Seq::empty()
    } else {
        text.subrange(leading_white(text), text.len() - trailing_white(text))
    }
}

proof fn lemma_leading_white(c: Seq<char>)
    ensures
        0 <= leading_white(c) <= c.len(),
        forall|j: int| 0 <= j < leading_white(c) ==> is_white_space(#[trigger] c[j]),
        leading_white(c) < c.len() ==> !is_white_space(c[leading_white(c)]),
    decreases c.len(),
{
    if c.len() > 0 && is_white_space(c[0]) {
        let r = c.drop_first();
        lemma_leading_white(r);
        assert forall|j: int| 0 <= j < leading_white(c) implies is_white_space(#[trigger] c[j]) by {
            if j > 0 {
                assert(c[j] == r[j - 1]);
            }
        }
        if leading_white(c) < c.len() {
            assert(c[leading_white(c)] == r[leading_white(r)]);
        }
    }
}

proof fn lemma_trailing_white(c: Seq<char>)
    ensures
        0 <= trailing_white(c) <= c.len(),
        forall|j: int| c.len() - trailing_white(c) <= j < c.len() ==> is_white_space(#[trigger] c[j]),
        trailing_white(c) < c.len() ==> !is_white_space(c[c.len() - 1 - trailing_white(c)]),
    decreases c.len(),
{
    if c.len() > 0 && is_white_space(c.last()) {
        let r = c.drop_last();
        lemma_trailing_white(r);
        assert forall|j: int| c.len() - trailing_white(c) <= j < c.len() implies is_white_space(#[trigger] c[j]) by {
            if j < c.len() - 1 {
                assert(c[j] == r[j]);
            }
        }
        if trailing_white(c) < c.len() {
            assert(c[c.len() - 1 - trailing_white(c)] == r[r.len() - 1 - trailing_white(r)]);
        }
    }
}

/// Law: trimming keeps one contiguous run of the text and drops only
/// whitespace around it: everything before and after the run is whitespace,
/// and the run neither starts nor ends with whitespace.
pub proof fn law_trim_drops_only_outer_whitespace(c: Seq<char>)
    ensures
        exists|a: int, b: int|
            0 <= a <= b <= c.len() && #[trigger] c.subrange(a, b) == trimmed(c) && (forall|j: int|
                0 <= j < a ==> is_white_space(#[trigger] c[j])) && (forall|j: int|
                b <= j < c.len() ==> is_white_space(#[trigger] c[j])) && (a < b ==> !is_white_space(c[a])
                && !is_white_space(c[b - 1])),
{
    lemma_leading_white(c);
    lemma_trailing_white(c);
    let a = leading_white(c);
    let t = trailing_white(c);
    if a >= c.len() {
        assert(c.subrange(c.len() as int, c.len() as int) =~= trimmed(c));
        assert(forall|j: int| 0 <= j < c.len() ==> is_white_space(#[trigger] c[j]));
    } else {
        if a >= c.len() - t {
            assert(is_white_space(c[a]));
        }
        let b = c.len() - t;
        assert(c.subrange(a, b) == trimmed(c));
        assert(!is_white_space(c[b - 1]));
    }
}

/// Calls `str::trim`. Claimed, as its documentation states: the text with its
/// leading and trailing whitespace (Unicode's White_Space property) removed.
#[verifier::external_body]
pub(crate) fn trim_text(text: &str) -> (r: &str)
    ensures
        r@ == trimmed(text@),
{
    text.trim()
}

} // verus!
