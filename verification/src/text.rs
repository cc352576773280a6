//! Characters and substrings.
use vstd::prelude::*;

verus! {

/// Chinese characters: the unified ideographs, their extension A, and the compatibility
/// ideographs.
pub open spec fn is_chinese(c: char) -> bool {
    ||| 0x4E00 <= c as u32 <= 0x9FFF
    ||| 0x3400 <= c as u32 <= 0x4DBF
    ||| 0xF900 <= c as u32 <= 0xFAFF
}

/// Whether a character is Chinese.
pub fn is_chinese_char(c: char) -> (r: bool)
    ensures
        r == is_chinese(c),
{
    let code: u32 = c as u32;
    (code >= 0x4E00 && code <= 0x9FFF) || (code >= 0x3400 && code <= 0x4DBF) || (code >= 0xF900
        && code <= 0xFAFF)
}

/// Punctuation: the ASCII marks and their full-width forms, the middle dot, dashes, quotation
/// marks and dots of general use, and the Chinese marks. Symbols such as `+`, `$` or `~` are none.
pub open spec fn is_punctuation(c: char) -> bool {
    ||| 0x21 <= c as u32 <= 0x23
    ||| 0x25 <= c as u32 <= 0x2A
    ||| 0x2C <= c as u32 <= 0x2F
    ||| 0x3A <= c as u32 <= 0x3B
    ||| 0x3F <= c as u32 <= 0x40
    ||| 0x5B <= c as u32 <= 0x5D
    ||| c as u32 == 0x5F
    ||| c as u32 == 0x7B
    ||| c as u32 == 0x7D
    ||| c as u32 == 0xB7
    ||| 0x2010 <= c as u32 <= 0x2027
    ||| 0x2030 <= c as u32 <= 0x2043
    ||| 0x2045 <= c as u32 <= 0x2051
    ||| 0x2053 <= c as u32 <= 0x205E
    ||| 0x3001 <= c as u32 <= 0x3003
    ||| 0x3008 <= c as u32 <= 0x3011
    ||| 0x3014 <= c as u32 <= 0x301F
    ||| 0xFF01 <= c as u32 <= 0xFF03
    ||| 0xFF05 <= c as u32 <= 0xFF0A
    ||| 0xFF0C <= c as u32 <= 0xFF0F
    ||| 0xFF1A <= c as u32 <= 0xFF1B
    ||| 0xFF1F <= c as u32 <= 0xFF20
    ||| 0xFF3B <= c as u32 <= 0xFF3D
    ||| c as u32 == 0xFF3F
    ||| c as u32 == 0xFF5B
    ||| c as u32 == 0xFF5D
    ||| 0xFF5F <= c as u32 <= 0xFF65
}

/// Whether a character is punctuation.
pub fn is_punctuation_char(c: char) -> (r: bool)
    ensures
        r == is_punctuation(c),
{
    let code: u32 = c as u32;
    (code >= 0x21 && code <= 0x23)
        || (code >= 0x25 && code <= 0x2A)
        || (code >= 0x2C && code <= 0x2F)
        || (code >= 0x3A && code <= 0x3B)
        || (code >= 0x3F && code <= 0x40)
        || (code >= 0x5B && code <= 0x5D)
        || code == 0x5F
        || code == 0x7B
        || code == 0x7D
        || code == 0xB7
        || (code >= 0x2010 && code <= 0x2027)
        || (code >= 0x2030 && code <= 0x2043)
        || (code >= 0x2045 && code <= 0x2051)
        || (code >= 0x2053 && code <= 0x205E)
        || (code >= 0x3001 && code <= 0x3003)
        || (code >= 0x3008 && code <= 0x3011)
        || (code >= 0x3014 && code <= 0x301F)
        || (code >= 0xFF01 && code <= 0xFF03)
        || (code >= 0xFF05 && code <= 0xFF0A)
        || (code >= 0xFF0C && code <= 0xFF0F)
        || (code >= 0xFF1A && code <= 0xFF1B)
        || (code >= 0xFF1F && code <= 0xFF20)
        || (code >= 0xFF3B && code <= 0xFF3D)
        || code == 0xFF3F
        || code == 0xFF5B
        || code == 0xFF5D
        || (code >= 0xFF5F && code <= 0xFF65)
}

/// The number of characters of a text that are not punctuation.
pub open spec fn word_chars(text: Seq<char>) -> nat {
    text.filter(|c: char| !is_punctuation(c)).len()
}

/// The characters of a text.
pub fn chars_of(text: &str) -> (chars: Vec<char>)
    ensures
        chars@ == text@,
{
    let mut chars: Vec<char> = Vec::new();
    for c in it: text.chars()
        invariant
            it.seq() == text@,
            chars@ == text@.take(it.index()),
    {
        chars.push(c);
        assert(text@.take(it.index() + 1) =~= text@.take(it.index()).push(c));
    }
    assert(text@.take(text@.len() as int) =~= text@);
    chars
}

/// Count the characters of a text that are not punctuation.
pub fn count_word_chars(text: &str) -> (n: usize)
    ensures
        n == word_chars(text@),
{
    let chars = chars_of(text);
    let ghost keep = |c: char| !is_punctuation(c);
    let mut n: usize = 0;
    for i in 0..chars.len()
        invariant
            keep == (|c: char| !is_punctuation(c)),
            n == chars@.take(i as int).filter(keep).len(),
            n <= i,
    {
        proof {
            reveal(Seq::filter);
            assert(chars@.take(i + 1).drop_last() =~= chars@.take(i as int));
        }
        if !is_punctuation_char(chars[i]) {
            n = n + 1;
        }
    }
    assert(chars@.take(chars@.len() as int) =~= chars@);
    n
}

/// The number of Chinese characters of a text.
pub open spec fn chinese_chars(text: Seq<char>) -> nat {
    text.filter(|c: char| is_chinese(c)).len()
}

/// Count the Chinese characters of a text.
pub fn count_chinese(text: &str) -> (n: usize)
    ensures
        n == chinese_chars(text@),
        n <= text@.len(),
{
    let chars = chars_of(text);
    let ghost keep = |c: char| is_chinese(c);
    let mut n: usize = 0;
    for i in 0..chars.len()
        invariant
            keep == (|c: char| is_chinese(c)),
            n == chars@.take(i as int).filter(keep).len(),
            n <= i,
    {
        proof {
            reveal(Seq::filter);
            assert(chars@.take(i + 1).drop_last() =~= chars@.take(i as int));
        }
        if is_chinese_char(chars[i]) {
            n = n + 1;
        }
    }
    assert(chars@.take(chars@.len() as int) =~= chars@);
    n
}

/// Whether all characters of a text are Chinese.
pub fn all_chinese(text: &str) -> (r: bool)
    ensures
        r == (forall|i: int| 0 <= i < text@.len() ==> is_chinese(#[trigger] text@[i])),
{
    let chars = chars_of(text);
    for i in 0..chars.len()
        invariant
            chars@ == text@,
            forall|j: int| 0 <= j < i ==> is_chinese(#[trigger] text@[j]),
    {
        if !is_chinese_char(chars[i]) {
            assert(!is_chinese(text@[i as int]));
            return false;
        }
    }
    true
}

/// `part` stands in `text` from character `at` on.
pub open spec fn stands_at(text: Seq<char>, part: Seq<char>, at: int) -> bool {
    0 <= at && at + part.len() <= text.len() && text.subrange(at, at + part.len()) == part
}

/// `part` stands somewhere in `text`.
pub open spec fn contains(text: Seq<char>, part: Seq<char>) -> bool {
    exists|at: int| stands_at(text, part, at)
}

/// `text` begins with `part`.
pub open spec fn starts_with(text: Seq<char>, part: Seq<char>) -> bool {
    stands_at(text, part, 0)
}

/// `text` ends with `part`.
pub open spec fn ends_with(text: Seq<char>, part: Seq<char>) -> bool {
    stands_at(text, part, text.len() - part.len())
}

/// Whether `part` stands in `text` from character `at` on.
fn matches_at(text: &Vec<char>, part: &Vec<char>, at: usize) -> (r: bool)
    requires
        at + part.len() <= text.len(),
    ensures
        r == stands_at(text@, part@, at as int),
{
    for i in 0..part.len()
        invariant
            at + part.len() <= text.len(),
            forall|j: int| 0 <= j < i ==> text[at + j] == part[j],
    {
        if text[at + i] != part[i] {
            assert(text@.subrange(at as int, at + part.len())[i as int] != part@[i as int]);
            return false;
        }
    }
    assert(text@.subrange(at as int, at + part.len()) =~= part@);
    true
}

/// Whether `part` stands somewhere in `text`.
pub fn contains_text(text: &str, part: &str) -> (r: bool)
    ensures
        r == contains(text@, part@),
{
    let t: Vec<char> = chars_of(text);
    let p: Vec<char> = chars_of(part);
    if p.len() > t.len() {
        return false;
    }
    let last: usize = t.len() - p.len();
    let mut at: usize = 0;
    loop
        invariant
            t@ == text@,
            p@ == part@,
            last + p.len() == t.len(),
            at <= last,
            forall|k: int| 0 <= k < at ==> !#[trigger] stands_at(text@, part@, k),
        decreases last - at,
    {
        if matches_at(&t, &p, at) {
            return true;
        }
        if at == last {
            assert forall|k: int| !#[trigger] stands_at(text@, part@, k) by {}
            return false;
        }
        at = at + 1;
    }
}

/// Whether `text` begins with `part`.
pub fn starts_with_text(text: &str, part: &str) -> (r: bool)
    ensures
        r == starts_with(text@, part@),
{
    let t: Vec<char> = chars_of(text);
    let p: Vec<char> = chars_of(part);
    p.len() <= t.len() && matches_at(&t, &p, 0)
}

/// Whether `text` ends with `part`.
pub fn ends_with_text(text: &str, part: &str) -> (r: bool)
    ensures
        r == ends_with(text@, part@),
{
    let t: Vec<char> = chars_of(text);
    let p: Vec<char> = chars_of(part);
    p.len() <= t.len() && matches_at(&t, &p, t.len() - p.len())
}

// ---------------------------------------------------------------------------
// Laws
// ---------------------------------------------------------------------------

/// Chinese characters are those from U+4E00 to U+9FFF, from U+3400 to U+4DBF and from U+F900 to
/// U+FAFF, and none of them is punctuation.
pub proof fn law_chinese_characters(c: char)
    ensures
        is_chinese(c) <==> '\u{4E00}' <= c <= '\u{9FFF}' || '\u{3400}' <= c <= '\u{4DBF}'
            || '\u{F900}' <= c <= '\u{FAFF}',
        is_chinese(c) ==> !is_punctuation(c),
{
}

/// Which characters are punctuation: of the ASCII characters those that are neither letters, digits,
/// blanks nor symbols; of their full-width forms the same ones; all Chinese marks, brackets, dashes
/// and quotation marks; and no letter of any kind.
pub proof fn law_punctuation(c: char)
    ensures
        c <= '\u{7F}' ==> (is_punctuation(c) <==> seq![
            '!', '"', '#', '%', '&', '\'', '(', ')', '*', ',', '-', '.', '/', ':', ';', '?', '@',
            '[', '\\', ']', '_', '{', '}',
        ].contains(c)),
        '\u{80}' <= c < '\u{2010}' ==> (is_punctuation(c) <==> c == '\u{B7}'),
        '\u{2010}' <= c <= '\u{2027}' ==> is_punctuation(c),
        '\u{2028}' <= c < '\u{2030}' ==> !is_punctuation(c),
        '\u{2030}' <= c <= '\u{205E}' ==> (is_punctuation(c) <==> c != '\u{2044}' && c
            != '\u{2052}'),
        '\u{205F}' <= c < '\u{3001}' ==> !is_punctuation(c),
        seq![
            '、', '。', '〃', '〈', '〉', '《', '》', '「', '」', '『', '』', '【', '】', '〔',
            '〕', '〖', '〗', '〘', '〙', '〚', '〛', '〜', '〝', '〞', '〟',
        ].contains(c) <==> ('\u{3001}' <= c <= '\u{3020}' && is_punctuation(c)),
        '\u{3021}' <= c < '\u{FF01}' ==> !is_punctuation(c),
        '\u{FF01}' <= c <= '\u{FF5E}' ==> (is_punctuation(c) <==> is_punctuation(
            (c as u32 - 0xFEE0) as char,
        )),
        '\u{FF5F}' <= c <= '\u{FF65}' ==> is_punctuation(c),
        '\u{FF66}' <= c ==> !is_punctuation(c),
{
    let ascii = seq![
        '!', '"', '#', '%', '&', '\'', '(', ')', '*', ',', '-', '.', '/', ':', ';', '?', '@', '[',
        '\\', ']', '_', '{', '}',
    ];
    let marks = seq![
        '、', '。', '〃', '〈', '〉', '《', '》', '「', '」', '『', '』', '【', '】', '〔', '〕',
        '〖', '〗', '〘', '〙', '〚', '〛', '〜', '〝', '〞', '〟',
    ];
    if c <= '\u{7F}' && is_punctuation(c) {
        let code = c as int;
        let i = if code <= 0x23 {
            code - 0x21
        } else if code <= 0x2A {
            code - 0x22
        } else if code <= 0x2F {
            code - 0x23
        } else if code <= 0x3B {
            code - 0x2D
        } else if code <= 0x40 {
            code - 0x30
        } else if code <= 0x5D {
            code - 0x4A
        } else if code == 0x5F {
            20
        } else if code == 0x7B {
            21
        } else {
            22
        };
        assert(ascii[i] == c);
    }
    if '\u{3001}' <= c <= '\u{3020}' && is_punctuation(c) {
        let code = c as int;
        let i = if code <= 0x3003 {
            code - 0x3001
        } else if code <= 0x3011 {
            code - 0x3005
        } else {
            code - 0x3007
        };
        assert(marks[i] == c);
    }
}

/// Characters are counted one by one: one more character counts for one where it is of the kind,
/// and for nothing where it is not.
pub proof fn law_counts_of_one_more(text: Seq<char>, c: char)
    ensures
        word_chars(Seq::empty()) == 0,
        chinese_chars(Seq::empty()) == 0,
        is_punctuation(c) ==> word_chars(text.push(c)) == word_chars(text),
        !is_punctuation(c) ==> word_chars(text.push(c)) == word_chars(text) + 1,
        is_chinese(c) ==> chinese_chars(text.push(c)) == chinese_chars(text) + 1,
        !is_chinese(c) ==> chinese_chars(text.push(c)) == chinese_chars(text),
{
    reveal(Seq::filter);
    assert(text.push(c).drop_last() =~= text);
}

/// A text contains a part if and only if it is something, the part, and something else; it begins
/// with the part where there is nothing before it, and it ends with the part where there is nothing
/// behind it.
pub proof fn law_parts_of_a_text(text: Seq<char>, part: Seq<char>)
    ensures
        contains(text, part) <==> exists|before: Seq<char>, after: Seq<char>|
            text == #[trigger] (before + part + after),
        starts_with(text, part) <==> exists|after: Seq<char>| text == #[trigger] (part + after),
        ends_with(text, part) <==> exists|before: Seq<char>| text == #[trigger] (before + part),
{
    let (n, k) = (text.len() as int, part.len() as int);
    if contains(text, part) {
        let at = choose|at: int| stands_at(text, part, at);
        assert(text =~= text.subrange(0, at) + part + text.subrange(at + k, n)) by {
            assert(text =~= text.subrange(0, at) + text.subrange(at, at + k) + text.subrange(
                at + k,
                n,
            ));
        }
    }
    if exists|before: Seq<char>, after: Seq<char>| text == #[trigger] (before + part + after) {
        let (before, after) = choose|before: Seq<char>, after: Seq<char>|
            text == #[trigger] (before + part + after);
        let at = before.len() as int;
        assert(text.subrange(at, at + k) =~= part);
        assert(stands_at(text, part, at));
    }
    if starts_with(text, part) {
        assert(text =~= text.subrange(0, k) + text.subrange(k, n));
        assert(text == part + text.subrange(k, n));
    }
    if exists|after: Seq<char>| text == #[trigger] (part + after) {
        assert(text.subrange(0, k) =~= part);
    }
    if ends_with(text, part) {
        assert(text =~= text.subrange(0, n - k) + text.subrange(n - k, n));
        assert(text == text.subrange(0, n - k) + part);
    }
    if exists|before: Seq<char>| text == #[trigger] (before + part) {
        assert(text.subrange(n - k, n) =~= part);
    }
}

} // verus!
