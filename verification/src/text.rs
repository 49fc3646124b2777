//! Characters and strings: what the standard library decides about them, and
//! the splitting of a line into words.

use vstd::prelude::*;

verus! {

/// Whether `char::is_alphanumeric` holds of `c`: Unicode classes it as
/// alphabetic or numeric.
pub uninterp spec fn is_alphanumeric(c: char) -> bool;

/// Whether `char::is_whitespace` holds of `c`: it has the Unicode property
/// White_Space.
pub uninterp spec fn is_whitespace(c: char) -> bool;

/// What `str::to_lowercase` gives for the text `cs`.
pub uninterp spec fn lowercase(cs: Seq<char>) -> Seq<char>;

/// The value of a decimal digit.
pub open spec fn digit_value(c: char) -> Option<nat> {
    if 48 <= c as u32 <= 57 {
        Some((c as u32 - 48) as nat)
    } else {
        None
    }
}

/// The number that the decimal digits `cs` write, where `cs` holds at least
/// one character and nothing but digits.
pub open spec fn digits_value(cs: Seq<char>) -> Option<nat>
    decreases cs.len(),
{
    if cs.len() == 0 {
        None
    } else if cs.len() == 1 {
        digit_value(cs[0])
    } else {
        match (digits_value(cs.drop_last()), digit_value(cs.last())) {
            (Some(v), Some(d)) => Some(10 * v + d),
            _ => None,
        }
    }
}

/// The byte that the text `cs` writes: an optional plus sign, then decimal
/// digits, for a value of at most 255.
pub open spec fn decimal_u8(cs: Seq<char>) -> Option<u8> {
    let digits = if cs.len() > 0 && cs[0] == '+' {
        cs.drop_first()
    } else {
        cs
    };
    match digits_value(digits) {
        Some(v) => if v <= 255 {
            Some(v as u8)
        } else {
            None
        },
        None => None,
    }
}

/// Whether `c` is an ASCII character.
pub open spec fn is_ascii_char(c: char) -> bool {
    (c as u32) < 128
}

/// Every character of `cs` is an ASCII character.
pub open spec fn all_ascii(cs: Seq<char>) -> bool {
    forall|i: int| 0 <= i < cs.len() ==> is_ascii_char(#[trigger] cs[i])
}

/// The small letter of an ASCII capital; any other character as it is.
pub open spec fn ascii_lower(c: char) -> char {
    if 65 <= c as u32 <= 90 {
        ((c as u32 + 32) as u8) as char
    } else {
        c
    }
}

/// The text `cs` in lower case: an ASCII text letter by letter, any other
/// text as `str::to_lowercase` gives it.
pub open spec fn lowered(cs: Seq<char>) -> Seq<char> {
    if all_ascii(cs) {
        Seq::new(cs.len(), |i: int| ascii_lower(cs[i]))
    } else {
        lowercase(cs)
    }
}

/// Whether `c` can stand in a name: among the ASCII characters the letters
/// and the digits, beyond them what `char::is_alphanumeric` accepts.
pub open spec fn is_letter(c: char) -> bool {
    if is_ascii_char(c) {
        48 <= c as u32 <= 57 || 65 <= c as u32 <= 90 || 97 <= c as u32 <= 122
    } else {
        is_alphanumeric(c)
    }
}

/// Whether `c` is blank: among the ASCII characters the space and the
/// controls from tab to carriage return, beyond them what
/// `char::is_whitespace` accepts.
pub open spec fn is_blank(c: char) -> bool {
    if is_ascii_char(c) {
        c as u32 == 32 || 9 <= c as u32 <= 13
    } else {
        is_whitespace(c)
    }
}

/// `char::is_alphanumeric`. The result is what that function gives for `c`;
/// nothing else is claimed of it.
#[verifier::external_body]
pub(crate) fn char_is_alphanumeric(c: char) -> (r: bool)
    ensures
        r == is_alphanumeric(c),
{
    c.is_alphanumeric()
}

/// `char::is_whitespace`. The result is what that function gives for `c`;
/// nothing else is claimed of it.
#[verifier::external_body]
pub(crate) fn char_is_whitespace(c: char) -> (r: bool)
    ensures
        r == is_whitespace(c),
{
    c.is_whitespace()
}

/// `str::to_lowercase`. The result is what that function gives for `s`;
/// nothing else is claimed of it, not even its length.
#[verifier::external_body]
pub(crate) fn str_to_lowercase(s: &str) -> (r: String)
    ensures
        r@ == lowercase(s@),
{
    s.to_lowercase()
}

/// `str::parse::<u8>`, with an error turned into `None`: the text is read
/// as an optional plus sign followed by decimal digits and nothing else, and
/// it is an error where there is no digit, where another character occurs or
/// where the value is above 255.
#[verifier::external_body]
pub(crate) fn parse_u8(s: &str) -> (r: Option<u8>)
    ensures
        r == decimal_u8(s@),
{
    s.parse::<u8>().ok()
}

/// The text `s` in lower case.
pub fn lower(s: &str) -> (r: String)
    ensures
        r@ == lowered(s@),
{
    let chars = chars_of(s);
    let mut out = String::new();
    let mut i: usize = 0;
    while i < chars.len()
        invariant
            i <= chars.len(),
            chars@ == s@,
            all_ascii(chars@.take(i as int)),
            out@ == Seq::new(i as nat, |k: int| ascii_lower(chars[k])),
        decreases chars.len() - i,
    {
        let c = chars[i];
        let n = c as u32;
        if n >= 128 {
            proof {
                assert(!is_ascii_char(s@[i as int]));
            }
            return str_to_lowercase(s);
        }
        let small: char = if 65 <= n && n <= 90 {
            ((n + 32) as u8) as char
        } else {
            c
        };
        push_char(&mut out, small);
        i += 1;
        proof {
            assert(out@ =~= Seq::new(i as nat, |k: int| ascii_lower(chars[k])));
            assert forall|k: int| 0 <= k < i implies is_ascii_char(
                #[trigger] chars@.take(i as int)[k],
            ) by {
                if k < i - 1 {
                    assert(chars@.take(i - 1)[k] == chars@.take(i as int)[k]);
                }
            }
        }
    }
    assert(chars@.take(i as int) =~= s@);
    assert(out@ =~= Seq::new(s@.len(), |k: int| ascii_lower(s@[k])));
    out
}

/// Whether `c` can stand in a name.
pub fn letter(c: char) -> (r: bool)
    ensures
        r == is_letter(c),
{
    let n = c as u32;
    if n < 128 {
        (48 <= n && n <= 57) || (65 <= n && n <= 90) || (97 <= n && n <= 122)
    } else {
        char_is_alphanumeric(c)
    }
}

/// Whether `c` is blank.
pub fn blank(c: char) -> (r: bool)
    ensures
        r == is_blank(c),
{
    let n = c as u32;
    if n < 128 {
        n == 32 || (9 <= n && n <= 13)
    } else {
        char_is_whitespace(c)
    }
}

/// `String::push`: the character is appended to the end of the string.
#[verifier::external_body]
pub(crate) fn push_char(s: &mut String, c: char)
    ensures
        final(s)@ == old(s)@.push(c),
{
    s.push(c)
}

/// The characters of `s`, in order.
pub fn chars_of(s: &str) -> (r: Vec<char>)
    ensures
        r@ == s@,
{
    let mut out: Vec<char> = Vec::new();
    for c in it: s.chars()
        invariant
            it.seq() == s@,
            out.len() == it.index(),
            forall|i: int| 0 <= i < out.len() ==> out[i] == it.seq()[i],
    {
        out.push(c);
    }
    assert(out@ =~= s@);
    out
}

/// A character of the input together with whether it is blank.
pub type Marked = (char, bool);

/// The characters `cs`, each with whether it is blank.
pub open spec fn marked(cs: Seq<char>) -> Seq<Marked> {
    Seq::new(cs.len(), |i: int| (cs[i], is_blank(cs[i])))
}

/// The characters of `ms` from `from` up to `to`, without their marks.
pub open spec fn slice_text(ms: Seq<Marked>, from: int, to: int) -> Seq<char> {
    Seq::new((to - from) as nat, |i: int| ms[from + i].0)
}

/// The first position from `pos` on that holds no blank, or the length.
pub open spec fn skip_blanks(ms: Seq<Marked>, pos: int) -> int
    decreases ms.len() - pos,
{
    if 0 <= pos < ms.len() && ms[pos].1 {
        skip_blanks(ms, pos + 1)
    } else {
        pos
    }
}

/// The first position from `pos` on that holds a blank, or the length.
pub open spec fn skip_word(ms: Seq<Marked>, pos: int) -> int
    decreases ms.len() - pos,
{
    if 0 <= pos < ms.len() && !ms[pos].1 {
        skip_word(ms, pos + 1)
    } else {
        pos
    }
}

/// Where the blanks that end at `end` begin, not before `floor`.
pub open spec fn drop_blanks(ms: Seq<Marked>, end: int, floor: int) -> int
    decreases end,
{
    if floor < end <= ms.len() && 0 < end && ms[end - 1].1 {
        drop_blanks(ms, end - 1, floor)
    } else {
        end
    }
}

/// The characters of `ms` without the blanks that lead and those that trail.
pub open spec fn trimmed(ms: Seq<Marked>) -> Seq<char> {
    let start = skip_blanks(ms, 0);
    slice_text(ms, start, drop_blanks(ms, ms.len() as int, start))
}

/// A run of characters without a blank ends inside the input, and after its
/// first character where there is one.
pub proof fn lemma_skip_word(ms: Seq<Marked>, pos: int)
    requires
        0 <= pos <= ms.len(),
    ensures
        pos <= skip_word(ms, pos) <= ms.len(),
        pos < ms.len() && !ms[pos].1 ==> pos < skip_word(ms, pos),
    decreases ms.len() - pos,
{
    if pos < ms.len() && !ms[pos].1 {
        lemma_skip_word(ms, pos + 1);
    }
}

/// The words of `ms` from `pos` on: the maximal runs of characters that are
/// not blank, in order.
pub open spec fn words(ms: Seq<Marked>, pos: int) -> Seq<Seq<char>>
    decreases ms.len() - pos,
    via words_terminates
{
    if pos < 0 || pos >= ms.len() {
        Seq::empty()
    } else if ms[pos].1 {
        words(ms, pos + 1)
    } else {
        seq![slice_text(ms, pos, skip_word(ms, pos))] + words(ms, skip_word(ms, pos))
    }
}

#[via_fn]
proof fn words_terminates(ms: Seq<Marked>, pos: int) {
    if 0 <= pos < ms.len() {
        lemma_skip_word(ms, pos);
    }
}

/// The texts of a sequence of strings, in order.
pub open spec fn texts(ss: Seq<String>) -> Seq<Seq<char>> {
    Seq::new(ss.len(), |i: int| ss[i]@)
}

/// The characters of `input`, each marked blank or not.
pub fn mark_blanks(input: &str) -> (r: Vec<Marked>)
    ensures
        r@ == marked(input@),
{
    let chars = chars_of(input);
    let mut out: Vec<Marked> = Vec::new();
    let mut i: usize = 0;
    while i < chars.len()
        invariant
            i <= chars.len(),
            chars@ == input@,
            out.len() == i,
            forall|k: int| 0 <= k < i ==> (#[trigger] out[k]) == (chars[k], is_blank(chars[k])),
        decreases chars.len() - i,
    {
        let c = chars[i];
        let flag = blank(c);
        out.push((c, flag));
        i += 1;
    }
    assert(out@ =~= marked(input@));
    out
}

/// The characters of `chars` from `from` up to `to`, as a string.
fn collect(chars: &Vec<Marked>, from: usize, to: usize) -> (r: String)
    requires
        from <= to <= chars.len(),
    ensures
        r@ == slice_text(chars@, from as int, to as int),
{
    let mut out = String::new();
    let mut i: usize = from;
    while i < to
        invariant
            from <= i <= to <= chars.len(),
            out@ == slice_text(chars@, from as int, i as int),
        decreases to - i,
    {
        push_char(&mut out, chars[i].0);
        i += 1;
        assert(out@ =~= slice_text(chars@, from as int, i as int));
    }
    out
}

/// The text of `chars` without leading and trailing blanks.
pub fn trim_marked(chars: &Vec<Marked>) -> (r: String)
    ensures
        r@ == trimmed(chars@),
{
    let n = chars.len();
    let mut start: usize = 0;
    while start < n && chars[start].1
        invariant
            start <= n,
            n == chars.len(),
            skip_blanks(chars@, start as int) == skip_blanks(chars@, 0),
        decreases n - start,
    {
        start += 1;
    }
    let mut end: usize = n;
    while end > start && chars[end - 1].1
        invariant
            start <= end <= n,
            n == chars.len(),
            drop_blanks(chars@, end as int, start as int) == drop_blanks(
                chars@,
                n as int,
                start as int,
            ),
        decreases end,
    {
        end -= 1;
    }
    collect(chars, start, end)
}

/// The words of `chars`: the maximal runs of characters that are not blank.
pub fn split_words(chars: &Vec<Marked>) -> (r: Vec<String>)
    ensures
        texts(r@) == words(chars@, 0),
{
    let ghost ms = chars@;
    let n = chars.len();
    let mut out: Vec<String> = Vec::new();
    let mut pos: usize = 0;
    assert(texts(out@) + words(ms, 0) =~= words(ms, 0));
    while pos < n
        invariant
            pos <= n,
            n == chars.len(),
            ms == chars@,
            words(ms, 0) == texts(out@) + words(ms, pos as int),
        decreases n - pos,
    {
        if chars[pos].1 {
            pos += 1;
        } else {
            let start = pos;
            proof {
                lemma_skip_word(ms, start as int);
            }
            while pos < n && !chars[pos].1
                invariant
                    start <= pos <= n,
                    n == chars.len(),
                    ms == chars@,
                    skip_word(ms, pos as int) == skip_word(ms, start as int),
                decreases n - pos,
            {
                pos += 1;
            }
            let ghost before = texts(out@);
            let word = collect(chars, start, pos);
            out.push(word);
            proof {
                let w = slice_text(ms, start as int, pos as int);
                assert(texts(out@) =~= before.push(w));
                assert(before + (seq![w] + words(ms, pos as int)) =~= before.push(w) + words(
                    ms,
                    pos as int,
                ));
            }
        }
    }
    assert(texts(out@) + Seq::<Seq<char>>::empty() =~= texts(out@));
    out
}

/// `a` comes before `b`, or is `b`, in the order of strings: at the first
/// place where they differ `a` has the lower character, or `a` ends there.
pub open spec fn lex_le(a: Seq<char>, b: Seq<char>) -> bool
    decreases a.len(),
{
    if a.len() == 0 {
        true
    } else if b.len() == 0 {
        false
    } else if a[0] != b[0] {
        (a[0] as u32) < (b[0] as u32)
    } else {
        lex_le(a.drop_first(), b.drop_first())
    }
}

/// Each member of `ss` comes before those after it, or equals them.
pub open spec fn ascending(ss: Seq<Seq<char>>) -> bool {
    forall|i: int, j: int| 0 <= i < j < ss.len() ==> lex_le(ss[i], ss[j])
}

/// The sort of a slice of strings (`sort` on `Vec<String>`): the strings
/// are the same as before, each as often, in ascending order; strings are
/// ordered character by character by code point, a prefix first.
#[verifier::external_body]
pub(crate) fn sort_strings(v: &mut Vec<String>)
    ensures
        texts(final(v)@).to_multiset() == texts(old(v)@).to_multiset(),
        ascending(texts(final(v)@)),
{
    v.sort()
}

} // verus!
