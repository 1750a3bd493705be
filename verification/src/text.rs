//! Text: characters, tokens, decimal numbers.

use vstd::prelude::*;
use vstd::utf8::{decode_utf8, valid_utf8};

verus! {

/// The characters with the Unicode `White_Space` property.
pub open spec fn is_white_space(c: char) -> bool {
    let u = c as u32;
    ||| 0x9 <= u <= 0xD
    ||| u == 0x20
    ||| u == 0x85
    ||| u == 0xA0
    ||| u == 0x1680
    ||| 0x2000 <= u <= 0x200A
    ||| u == 0x2028
    ||| u == 0x2029
    ||| u == 0x202F
    ||| u == 0x205F
    ||| u == 0x3000
}

/// What separates the fields of a track line: white space and commas.
pub open spec fn is_separator(c: char) -> bool {
    is_white_space(c) || c == ','
}

/// `i` is the least index at which `p` holds.
pub open spec fn is_first<A>(s: Seq<A>, p: spec_fn(A) -> bool, i: int) -> bool {
    &&& 0 <= i < s.len()
    &&& p(s[i])
    &&& forall|j: int| 0 <= j < i ==> !p(#[trigger] s[j])
}

/// The least index at which `p` holds, if there is one.
pub open spec fn first_index<A>(s: Seq<A>, p: spec_fn(A) -> bool) -> Option<int> {
    if exists|i: int| is_first(s, p, i) {
        Some(choose|i: int| is_first(s, p, i))
    } else {
        None
    }
}

/// `first_index` is the index that `is_first` describes.
pub proof fn lemma_first_index_is<A>(s: Seq<A>, p: spec_fn(A) -> bool, i: int)
    requires
        is_first(s, p, i),
    ensures
        first_index(s, p) == Some(i),
{
    let k = choose|k: int| is_first(s, p, k);
    assert(is_first(s, p, k));
    if k < i {
        assert(!p(s[k]));
    } else if i < k {
        assert(!p(s[i]));
    }
}

/// There is no first index where `p` holds nowhere.
pub proof fn lemma_first_index_none<A>(s: Seq<A>, p: spec_fn(A) -> bool)
    requires
        forall|j: int| 0 <= j < s.len() ==> !p(#[trigger] s[j]),
    ensures
        first_index(s, p) is None,
{
    if exists|i: int| is_first(s, p, i) {
        let k = choose|k: int| is_first(s, p, k);
        assert(!p(s[k]));
    }
}

/// Where `first_index` finds nothing, `p` holds nowhere.
pub proof fn lemma_first_index_complete<A>(s: Seq<A>, p: spec_fn(A) -> bool, i: int)
    requires
        0 <= i < s.len(),
        p(s[i]),
    ensures
        first_index(s, p) is Some,
        is_first(s, p, first_index(s, p)->0),
        first_index(s, p)->0 <= i,
    decreases i,
{
    if exists|j: int| 0 <= j < i && p(#[trigger] s[j]) {
        let j = choose|j: int| 0 <= j < i && p(#[trigger] s[j]);
        lemma_first_index_complete(s, p, j);
    } else {
        assert(is_first(s, p, i));
        lemma_first_index_is(s, p, i);
    }
}

/// The test for a separator.
pub open spec fn separator() -> spec_fn(char) -> bool {
    |c: char| is_separator(c)
}

/// The test for the character `c`.
pub open spec fn is_char(c: char) -> spec_fn(char) -> bool {
    |x: char| x == c
}

/// The characters '0' to '9'.
pub open spec fn is_digit(c: char) -> bool {
    '0' <= c && c <= '9'
}

/// The number that a string of decimal digits writes.
pub open spec fn decimal(s: Seq<char>) -> nat
    decreases s.len(),
{
    if s.len() == 0 {
        0
    } else {
        10 * decimal(s.drop_last()) + (s.last() as u32 - '0' as u32) as nat
    }
}

/// `s` without one leading '+'.
pub open spec fn unsigned_part(s: Seq<char>) -> Seq<char> {
    if s.len() > 0 && s[0] == '+' {
        s.skip(1)
    } else {
        s
    }
}

/// The `u32` that `s` writes in decimal: an optional '+', then one or more digits,
/// with a value that fits.
pub open spec fn u32_of(s: Seq<char>) -> Option<u32> {
    let d = unsigned_part(s);
    if d.len() > 0 && (forall|i: int| 0 <= i < d.len() ==> is_digit(#[trigger] d[i])) && decimal(d)
        <= u32::MAX {
        Some(decimal(d) as u32)
    } else {
        None
    }
}

/// `p` is a prefix of `s`.
pub open spec fn starts_with(s: Seq<char>, p: Seq<char>) -> bool {
    p.len() <= s.len() && s.take(p.len() as int) == p
}

/// `p` occurs at index `i` of `s`.
pub open spec fn occurs_at(s: Seq<char>, p: Seq<char>, i: int) -> bool {
    0 <= i && i + p.len() <= s.len() && s.subrange(i, i + p.len()) == p
}

/// `p` occurs in `s`.
pub open spec fn contains(s: Seq<char>, p: Seq<char>) -> bool {
    exists|i: int| occurs_at(s, p, i)
}

/// `a` and `b` are the same but for the case of an ASCII letter.
pub open spec fn same_letter(a: char, b: char) -> bool {
    ||| a == b
    ||| 'A' <= a && a <= 'Z' && b as u32 == a as u32 + 32
    ||| 'A' <= b && b <= 'Z' && a as u32 == b as u32 + 32
}

/// `a` and `b` are the same but for the case of ASCII letters.
pub open spec fn same_letters(a: Seq<char>, b: Seq<char>) -> bool {
    a.len() == b.len() && forall|i: int| 0 <= i < a.len() ==> same_letter(#[trigger] a[i], b[i])
}

/// The characters of `s`, in order.
pub fn chars_of(s: &str) -> (r: Vec<char>)
    ensures
        r@ == s@,
{
    let mut v: Vec<char> = Vec::new();
    for c in it: s.chars()
        invariant
            v@ == it.seq().take(it.index()),
            it.seq() == s@,
    {
        v.push(c);
    }
    v
}

/// Whether `c` is white space.
pub fn white_space(c: char) -> (r: bool)
    ensures
        r == is_white_space(c),
{
    let u: u32 = c as u32;
    (0x9 <= u && u <= 0xD) || u == 0x20 || u == 0x85 || u == 0xA0 || u == 0x1680 || (0x2000 <= u
        && u <= 0x200A) || u == 0x2028 || u == 0x2029 || u == 0x202F || u == 0x205F || u == 0x3000
}

/// Whether the characters are those of `text`.
pub fn is_text(chars: &[char], text: &str) -> (r: bool)
    ensures
        r == (chars@ == text@),
{
    let t: Vec<char> = chars_of(text);
    if chars.len() != t.len() {
        return false;
    }
    let mut i: usize = 0;
    while i < t.len()
        invariant
            i <= t.len(),
            t@ == text@,
            chars@.len() == t@.len(),
            forall|j: int| 0 <= j < i ==> chars@[j] == t@[j],
        decreases t.len() - i,
    {
        if chars[i] != t[i] {
            return false;
        }
        i += 1;
    }
    assert(chars@ =~= t@);
    true
}

/// Whether the two texts are the same but for the case of ASCII letters.
pub fn eq_ignore_ascii_case(a: &str, b: &str) -> (r: bool)
    ensures
        r == same_letters(a@, b@),
{
    let x: Vec<char> = chars_of(a);
    let y: Vec<char> = chars_of(b);
    if x.len() != y.len() {
        return false;
    }
    let mut i: usize = 0;
    while i < x.len()
        invariant
            i <= x.len(),
            x@ == a@,
            y@ == b@,
            x@.len() == y@.len(),
            forall|j: int| 0 <= j < i ==> same_letter(#[trigger] x@[j], y@[j]),
        decreases x.len() - i,
    {
        let p: char = x[i];
        let q: char = y[i];
        let same: bool = p == q || (p >= 'A' && p <= 'Z' && q as u32 == p as u32 + 32) || (q >= 'A'
            && q <= 'Z' && p as u32 == q as u32 + 32);
        if !same {
            assert(!same_letter(x@[i as int], y@[i as int]));
            return false;
        }
        i += 1;
    }
    true
}

/// Whether the characters begin with those of `text`.
pub fn begins_with(chars: &[char], text: &str) -> (r: bool)
    ensures
        r == starts_with(chars@, text@),
{
    let n: usize = chars_of(text).len();
    if chars.len() < n {
        false
    } else {
        is_text(vstd::slice::slice_subrange(chars, 0, n), text)
    }
}

/// Whether `text` occurs among the characters.
pub fn has_text(chars: &[char], text: &str) -> (r: bool)
    ensures
        r == contains(chars@, text@),
{
    let n: usize = chars_of(text).len();
    if chars.len() < n {
        return false;
    }
    let last: usize = chars.len() - n;
    let mut i: usize = 0;
    loop
        invariant
            n == text@.len(),
            chars@.len() == last + n,
            last + n <= usize::MAX,
            i <= last,
            forall|j: int| 0 <= j < i ==> !occurs_at(chars@, text@, j),
        decreases last - i,
    {
        if is_text(vstd::slice::slice_subrange(chars, i, i + n), text) {
            assert(occurs_at(chars@, text@, i as int));
            return true;
        }
        if i == last {
            return false;
        }
        i += 1;
    }
}

/// The least index whose character is `c`, if there is one.
pub fn find_char(chars: &[char], c: char) -> (r: Option<usize>)
    ensures
        match r {
            Some(i) => first_index(chars@, is_char(c)) == Some(i as int) && i < chars@.len(),
            None => first_index(chars@, is_char(c)) is None,
        },
{
    let mut i: usize = 0;
    while i < chars.len()
        invariant
            i <= chars.len(),
            forall|j: int| 0 <= j < i ==> !is_char(c)(#[trigger] chars@[j]),
        decreases chars.len() - i,
    {
        if chars[i] == c {
            proof {
                assert(is_first(chars@, is_char(c), i as int));
                lemma_first_index_is(chars@, is_char(c), i as int);
            }
            return Some(i);
        }
        i += 1;
    }
    proof {
        lemma_first_index_none(chars@, is_char(c));
    }
    None
}

/// The least index of a separator, if there is one.
pub fn find_separator(chars: &[char]) -> (r: Option<usize>)
    ensures
        match r {
            Some(i) => first_index(chars@, separator()) == Some(i as int) && i < chars@.len(),
            None => first_index(chars@, separator()) is None,
        },
{
    let mut i: usize = 0;
    while i < chars.len()
        invariant
            i <= chars.len(),
            forall|j: int| 0 <= j < i ==> !separator()(#[trigger] chars@[j]),
        decreases chars.len() - i,
    {
        if white_space(chars[i]) || chars[i] == ',' {
            proof {
                assert(is_first(chars@, separator(), i as int));
                lemma_first_index_is(chars@, separator(), i as int);
            }
            return Some(i);
        }
        i += 1;
    }
    proof {
        lemma_first_index_none(chars@, separator());
    }
    None
}

proof fn lemma_decimal_prefix_bound(s: Seq<char>, i: int)
    requires
        0 <= i <= s.len(),
        forall|j: int| 0 <= j < s.len() ==> is_digit(#[trigger] s[j]),
    ensures
        decimal(s.take(i)) <= decimal(s),
    decreases s.len() - i,
{
    if i == s.len() {
        assert(s.take(i) =~= s);
    } else {
        lemma_decimal_prefix_bound(s, i + 1);
        assert(s.take(i + 1).drop_last() =~= s.take(i));
        assert(is_digit(s[i]));
    }
}

/// The `u32` that the characters write in decimal, if they do.
pub fn parse_u32(chars: &[char]) -> (r: Option<u32>)
    ensures
        r == u32_of(chars@),
{
    let start: usize = if chars.len() > 0 && chars[0] == '+' {
        1
    } else {
        0
    };
    let digits: &[char] = vstd::slice::slice_subrange(chars, start, chars.len());
    assert(digits@ =~= unsigned_part(chars@));
    if digits.len() == 0 {
        return None;
    }
    let mut value: u64 = 0;
    let mut i: usize = 0;
    let mut fits: bool = true;
    while i < digits.len()
        invariant
            i <= digits.len(),
            digits@ == unsigned_part(chars@),
            forall|j: int| 0 <= j < i ==> is_digit(#[trigger] digits@[j]),
            fits ==> value == decimal(digits@.take(i as int)) && value <= u32::MAX,
            !fits ==> exists|k: int| 0 <= k <= i && #[trigger] decimal(digits@.take(k)) > u32::MAX,
        decreases digits.len() - i,
    {
        let c: char = digits[i];
        if !(c >= '0' && c <= '9') {
            assert(!is_digit(digits@[i as int]));
            return None;
        }
        assert(digits@.take(i + 1).drop_last() =~= digits@.take(i as int));
        if fits {
            let d: u64 = (c as u32 - '0' as u32) as u64;
            value = 10 * value + d;
            if value > 0xFFFF_FFFF {
                fits = false;
                assert(decimal(digits@.take(i + 1)) > u32::MAX);
            }
        }
        i += 1;
    }
    assert(digits@.take(i as int) =~= digits@);
    if fits {
        Some(value as u32)
    } else {
        proof {
            let k = choose|k: int| 0 <= k <= i && #[trigger] decimal(digits@.take(k)) > u32::MAX;
            lemma_decimal_prefix_bound(digits@, k);
        }
        None
    }
}

/// The text that a byte string stands for, each malformed part of it replaced by
/// U+FFFD.
pub uninterp spec fn utf8_lossy(bytes: Seq<u8>) -> Seq<char>;

/// `String::from_utf8_lossy`: the text of the bytes, which is the decoded text where
/// they are valid UTF-8.  Where they are not, nothing is claimed of the text but that
/// the bytes alone decide it.
#[verifier::external_body]
pub(crate) fn decode_lossy(bytes: &[u8]) -> (r: String)
    ensures
        r@ == utf8_lossy(bytes@),
        valid_utf8(bytes@) ==> r@ == decode_utf8(bytes@),
{
    String::from_utf8_lossy(bytes).into_owned()
}

/// The text in lower case.
pub uninterp spec fn lowercase(s: Seq<char>) -> Seq<char>;

/// All characters are ASCII characters.
pub open spec fn is_ascii_text(s: Seq<char>) -> bool {
    forall|i: int| 0 <= i < s.len() ==> (#[trigger] s[i] as u32) < 128
}

/// The text with 'a' to 'z' in the place of 'A' to 'Z'.
pub open spec fn lower_letters(s: Seq<char>) -> Seq<char> {
    s.map_values(
        |c: char|
            if 'A' <= c && c <= 'Z' {
                (c as u32 + 32) as char
            } else {
                c
            },
    )
}

/// `str::to_lowercase`: the text in lower case, by the Unicode case mappings.  Of a text of
/// ASCII characters, the letters 'A' to 'Z' are mapped and the others kept.  Of other text,
/// nothing is claimed but that the text alone decides the result.
#[verifier::external_body]
pub(crate) fn to_lowercase(s: &str) -> (r: String)
    ensures
        r@ == lowercase(s@),
        is_ascii_text(s@) ==> r@ == lower_letters(s@),
{
    s.to_lowercase()
}

/// Fields are separated by white space and commas, and by nothing else.
pub proof fn law_separators(c: char)
    ensures
        is_separator(c) <==> {
            ||| c == ','
            ||| 0x9 <= c as u32 <= 0xD
            ||| c as u32 == 0x20
            ||| c as u32 == 0x85
            ||| c as u32 == 0xA0
            ||| c as u32 == 0x1680
            ||| 0x2000 <= c as u32 <= 0x200A
            ||| c as u32 == 0x2028
            ||| c as u32 == 0x2029
            ||| c as u32 == 0x202F
            ||| c as u32 == 0x205F
            ||| c as u32 == 0x3000
        },
        separator()(c) == is_separator(c),
{
}

proof fn lemma_decimal_push(s: Seq<char>, c: char)
    ensures
        decimal(s.push(c)) == 10 * decimal(s) + (c as u32 - '0' as u32) as nat,
{
    assert(s.push(c).drop_last() =~= s);
}

/// How a number is read, character by character: no text and a lone '+' are no number; a
/// digit is its value; and one more character multiplies by ten and adds its value where it
/// is a digit and the result fits, and else makes it no number.
pub proof fn law_numbers_grow_by_digits(s: Seq<char>, c: char)
    requires
        s.len() > 0,
        s != seq!['+'],
    ensures
        u32_of(Seq::empty()) is None,
        u32_of(seq!['+']) is None,
        u32_of(seq![c]) == (if 48 <= c as u32 <= 57 {
            Some((c as u32 - 48) as u32)
        } else {
            None
        }),
        u32_of(seq!['+', c]) == u32_of(seq![c]),
        u32_of(s.push(c)) == (match u32_of(s) {
            Some(n) => if 48 <= c as u32 <= 57 && 10 * n + (c as u32 - 48) <= 0xFFFF_FFFF {
                Some((10 * n + (c as u32 - 48)) as u32)
            } else {
                None
            },
            None => None,
        }),
{
    reveal_with_fuel(decimal, 3);
    let e = Seq::<char>::empty();
    assert(unsigned_part(seq!['+']) =~= e);
    let one = seq![c];
    let signed = seq!['+', c];
    assert(signed.skip(1) =~= one);
    assert(one.drop_last() =~= e);
    assert(one.last() == c);
    if c == '+' {
        assert(unsigned_part(one) =~= e);
        assert(one[0] == '+');
        assert(!is_digit(one[0]));
    } else {
        assert(unsigned_part(one) == one);
        if !is_digit(c) {
            assert(!is_digit(one[0]));
        }
    }
    let d = unsigned_part(s);
    let t = s.push(c);
    assert(t[0] == s[0]);
    assert(unsigned_part(t) =~= d.push(c));
    if s[0] == '+' && s.len() == 1 {
        assert(s =~= seq!['+']);
    }
    assert(d.len() > 0);
    lemma_decimal_push(d, c);
    assert forall|i: int| 0 <= i < d.len() implies d.push(c)[i] == d[i] by {}
    assert(d.push(c)[d.len() as int] == c);
    if forall|i: int| 0 <= i < d.push(c).len() ==> is_digit(#[trigger] d.push(c)[i]) {
        assert(is_digit(c));
        assert forall|i: int| 0 <= i < d.len() implies is_digit(#[trigger] d[i]) by {
            assert(is_digit(d.push(c)[i]));
        }
    } else if is_digit(c) && (forall|i: int| 0 <= i < d.len() ==> is_digit(#[trigger] d[i])) {
        assert forall|i: int| 0 <= i < d.push(c).len() implies is_digit(
            #[trigger] d.push(c)[i],
        ) by {
            if i < d.len() {
                assert(is_digit(d[i]));
            }
        }
    }
}

/// Two characters are the same letter where they are equal, or differ by the case of one of
/// the 26 letters alone.
pub proof fn law_same_letter(a: char, b: char)
    ensures
        same_letter(a, b) == ((if 65 <= a as u32 <= 90 {
            a as u32 + 32
        } else {
            a as int
        }) == (if 65 <= b as u32 <= 90 {
            b as u32 + 32
        } else {
            b as int
        })),
{
}

/// A text starts with `p` where the rest behind `p` makes up the text, and contains `p`
/// where `p` is made up by what stands ahead of it and behind it.
pub proof fn law_parts_of_text(a: Seq<char>, p: Seq<char>, b: Seq<char>, s: Seq<char>)
    ensures
        starts_with(p + b, p),
        starts_with(s, p) ==> s == p + s.skip(p.len() as int),
        contains(a + p + b, p),
        contains(s, p) ==> exists|x: Seq<char>, y: Seq<char>| s == #[trigger] (x + p + y),
{
    assert((p + b).take(p.len() as int) =~= p);
    if starts_with(s, p) {
        assert(s =~= p + s.skip(p.len() as int));
    }
    assert((a + p + b).subrange(a.len() as int, (a.len() + p.len()) as int) =~= p);
    assert(occurs_at(a + p + b, p, a.len() as int));
    if contains(s, p) {
        let i = choose|i: int| occurs_at(s, p, i);
        let x = s.take(i);
        let y = s.skip(i + p.len());
        assert(s =~= x + p + y);
    }
}

/// The first index is where the property holds and holds nowhere ahead; there is none
/// where it holds nowhere.
pub proof fn law_first_index<A>(s: Seq<A>, p: spec_fn(A) -> bool, k: int)
    requires
        0 <= k < s.len(),
    ensures
        first_index(s, p) matches Some(i) ==> 0 <= i < s.len() && p(s[i]) && (k < i ==> !p(s[k])),
        first_index(s, p) is None ==> !p(s[k]),
{
    if first_index(s, p) is Some {
        let i = choose|i: int| is_first(s, p, i);
        assert(is_first(s, p, i));
    }
    if p(s[k]) {
        lemma_first_index_complete(s, p, k);
    }
}

/// The letters 'A' to 'Z' go to 'a' to 'z', letter by letter, and every other character
/// stays as it is; ASCII characters are those below 128.
pub proof fn law_lower_letters(s: Seq<char>, i: int, c: char, d: char)
    requires
        0 <= i < s.len(),
        s[i] == c,
        lower_letters(s)[i] == d,
    ensures
        lower_letters(s).len() == s.len(),
        65 <= c as u32 <= 90 ==> d as u32 == c as u32 + 32,
        c as u32 <= 64 || 91 <= c as u32 ==> d == c,
        is_ascii_text(s) ==> c as u32 <= 127,
        is_ascii_text(s.subrange(i, i + 1)) <==> c as u32 <= 127,
{
    let t = s.subrange(i, i + 1);
    assert(t[0] == c);
    if is_ascii_text(s) {
        assert(s[i] as u32 == c as u32);
    }
}

} // verus!
