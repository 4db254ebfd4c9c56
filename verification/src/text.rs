//! Text as sequences of characters: the string operations the rest of the
//! crate is written with, each with an exact meaning over `Seq<char>`.

use vstd::prelude::*;
use vstd::slice::slice_subrange;

verus! {

// ---------------------------------------------------------------------------
// Between strings and characters
// ---------------------------------------------------------------------------

/// `String::push` appends one character to the end of the string.
pub assume_specification[ String::push ](s: &mut String, c: char)
    ensures
        final(s)@ == old(s)@.push(c),
;

/// The characters of a string, in order.
pub fn chars_of(s: &str) -> (r: Vec<char>)
    ensures
        r@ == s@,
{
    let mut out: Vec<char> = Vec::new();
    for c in it: s.chars()
        invariant
            out@ == it.seq().take(it.index() as int),
            it.seq() == s@,
    {
        out.push(c);
    }
    out
}

/// The string made of the characters `s`.
pub fn string_of(s: &[char]) -> (r: String)
    ensures
        r@ == s@,
{
    let mut out = String::new();
    let mut i: usize = 0;
    while i < s.len()
        invariant
            i <= s@.len(),
            out@ == s@.take(i as int),
        decreases s@.len() - i,
    {
        out.push(s[i]);
        i += 1;
        assert(s@.take(i as int) =~= s@.take(i - 1).push(s@[i - 1]));
    }
    assert(s@.take(i as int) =~= s@);
    out
}

/// What a list of character slices holds.
pub open spec fn slices(v: Seq<&[char]>) -> Seq<Seq<char>> {
    v.map_values(|p: &[char]| p@)
}

/// What a list of strings holds.
pub open spec fn strings(v: Seq<String>) -> Seq<Seq<char>> {
    v.map_values(|s: String| s@)
}

/// What an optional string holds.
pub open spec fn string_opt(s: Option<String>) -> Option<Seq<char>> {
    match s {
        Some(t) => Some(t@),
        None => None,
    }
}

pub fn is_empty(s: &str) -> (r: bool)
    ensures
        r == (s@.len() == 0),
{
    chars_of(s).len() == 0
}

/// A copy of an optional string.
pub fn clone_opt(s: &Option<String>) -> (r: Option<String>)
    ensures
        string_opt(r) == string_opt(*s),
{
    match s {
        Some(t) => Some(t.clone()),
        None => None,
    }
}

/// Whether two character slices hold the same characters.
pub fn same_chars(a: &[char], b: &[char]) -> (r: bool)
    ensures
        r == (a@ == b@),
{
    if a.len() != b.len() {
        return false;
    }
    let mut i: usize = 0;
    while i < a.len()
        invariant
            i <= a@.len(),
            a@.len() == b@.len(),
            forall|j: int| 0 <= j < i ==> a@[j] == b@[j],
        decreases a@.len() - i,
    {
        if a[i] != b[i] {
            return false;
        }
        i += 1;
    }
    assert(a@ =~= b@);
    true
}

/// Whether the characters `a` spell the string `b`.
pub fn spells(a: &[char], b: &str) -> (r: bool)
    ensures
        r == (a@ == b@),
{
    let b = chars_of(b);
    same_chars(a, b.as_slice())
}

/// Whether two strings hold the same characters.
pub fn same_text(a: &str, b: &str) -> (r: bool)
    ensures
        r == (a@ == b@),
{
    let a = chars_of(a);
    spells(a.as_slice(), b)
}

// ---------------------------------------------------------------------------
// Character classes
// ---------------------------------------------------------------------------

/// The characters with the Unicode `White_Space` property.
pub open spec fn is_space(c: char) -> bool {
    ||| '\u{9}' <= c <= '\u{d}'
    ||| c == ' '
    ||| c == '\u{85}'
    ||| c == '\u{a0}'
    ||| c == '\u{1680}'
    ||| '\u{2000}' <= c <= '\u{200a}'
    ||| c == '\u{2028}'
    ||| c == '\u{2029}'
    ||| c == '\u{202f}'
    ||| c == '\u{205f}'
    ||| c == '\u{3000}'
}

pub open spec fn is_digit(c: char) -> bool {
    '0' <= c <= '9'
}

pub open spec fn is_upper(c: char) -> bool {
    'A' <= c <= 'Z'
}

pub open spec fn is_lower(c: char) -> bool {
    'a' <= c <= 'z'
}

/// An ASCII letter.
pub open spec fn is_letter(c: char) -> bool {
    is_upper(c) || is_lower(c)
}

/// Whether `c` has the Unicode `White_Space` property.
pub fn whitespace(c: char) -> (r: bool)
    ensures
        r == is_space(c),
{
    ('\u{9}' <= c && c <= '\u{d}') || c == ' ' || c == '\u{85}' || c == '\u{a0}' || c == '\u{1680}'
        || ('\u{2000}' <= c && c <= '\u{200a}') || c == '\u{2028}' || c == '\u{2029}' || c
        == '\u{202f}' || c == '\u{205f}' || c == '\u{3000}'
}

pub fn ascii_digit(c: char) -> (r: bool)
    ensures
        r == is_digit(c),
{
    '0' <= c && c <= '9'
}

pub fn ascii_upper(c: char) -> (r: bool)
    ensures
        r == is_upper(c),
{
    'A' <= c && c <= 'Z'
}

pub fn ascii_letter(c: char) -> (r: bool)
    ensures
        r == is_letter(c),
{
    ('A' <= c && c <= 'Z') || ('a' <= c && c <= 'z')
}

/// Whether `c` has the Unicode `Alphabetic` property.
pub uninterp spec fn alphabetic_property(c: char) -> bool;

/// `char::is_alphabetic`: whether the character has the Unicode `Alphabetic`
/// property, which of the ASCII characters the letters have.
#[verifier::external_body]
fn is_alphabetic(c: char) -> (r: bool)
    ensures
        r == alphabetic_property(c),
        c as u32 <= 127 ==> r == is_letter(c),
{
    c.is_alphabetic()
}

/// Some character of `s` is alphabetic.
pub open spec fn any_alphabetic(s: Seq<char>) -> bool {
    exists|i: int| 0 <= i < s.len() && alphabetic_property(#[trigger] s[i])
}

/// Every character of `s` is an ASCII character.
pub open spec fn all_ascii(s: Seq<char>) -> bool {
    forall|i: int| 0 <= i < s.len() ==> #[trigger] s[i] as u32 <= 127
}

/// Some character of `s` is an ASCII letter.
pub open spec fn any_letter(s: Seq<char>) -> bool {
    exists|i: int| 0 <= i < s.len() && is_letter(#[trigger] s[i])
}

pub fn has_alphabetic(s: &[char]) -> (r: bool)
    ensures
        r == any_alphabetic(s@),
        all_ascii(s@) ==> r == any_letter(s@),
{
    let mut i: usize = 0;
    while i < s.len()
        invariant
            i <= s@.len(),
            forall|j: int| 0 <= j < i ==> !alphabetic_property(#[trigger] s@[j]),
            forall|j: int| 0 <= j < i && s@[j] as u32 <= 127 ==> !is_letter(#[trigger] s@[j]),
        decreases s@.len() - i,
    {
        if is_alphabetic(s[i]) {
            return true;
        }
        i += 1;
    }
    false
}

/// Every character of `s` is an ASCII letter.
pub open spec fn all_letters(s: Seq<char>) -> bool {
    forall|i: int| 0 <= i < s.len() ==> is_letter(#[trigger] s[i])
}

pub fn only_letters(s: &[char]) -> (r: bool)
    ensures
        r == all_letters(s@),
{
    let mut i: usize = 0;
    while i < s.len()
        invariant
            i <= s@.len(),
            forall|j: int| 0 <= j < i ==> is_letter(#[trigger] s@[j]),
        decreases s@.len() - i,
    {
        if !ascii_letter(s[i]) {
            return false;
        }
        i += 1;
    }
    true
}

/// `c` with an ASCII capital made small.
pub open spec fn lower_char(c: char) -> char {
    if is_upper(c) {
        ((c as u32) + 32) as char
    } else {
        c
    }
}

/// `c` with a small ASCII letter made a capital.
pub open spec fn upper_char(c: char) -> char {
    if is_lower(c) {
        ((c as u32) - 32) as char
    } else {
        c
    }
}

/// `s` with every ASCII capital made small.
pub open spec fn lowered(s: Seq<char>) -> Seq<char> {
    s.map_values(|c: char| lower_char(c))
}

/// `s` with every small ASCII letter made a capital.
pub open spec fn raised(s: Seq<char>) -> Seq<char> {
    s.map_values(|c: char| upper_char(c))
}

pub fn ascii_lowercase(s: &[char]) -> (r: Vec<char>)
    ensures
        r@ == lowered(s@),
{
    let mut out: Vec<char> = Vec::new();
    let mut i: usize = 0;
    while i < s.len()
        invariant
            i <= s@.len(),
            out@ == lowered(s@.take(i as int)),
        decreases s@.len() - i,
    {
        let c = s[i];
        let l = if ascii_upper(c) {
            (c as u8 + 32) as char
        } else {
            c
        };
        out.push(l);
        i += 1;
        assert(lowered(s@.take(i as int)) =~= lowered(s@.take(i - 1)).push(l));
    }
    assert(s@.take(i as int) =~= s@);
    out
}

pub fn ascii_uppercase(s: &[char]) -> (r: Vec<char>)
    ensures
        r@ == raised(s@),
{
    let mut out: Vec<char> = Vec::new();
    let mut i: usize = 0;
    while i < s.len()
        invariant
            i <= s@.len(),
            out@ == raised(s@.take(i as int)),
        decreases s@.len() - i,
    {
        let c = s[i];
        let u = if 'a' <= c && c <= 'z' {
            (c as u8 - 32) as char
        } else {
            c
        };
        out.push(u);
        i += 1;
        assert(raised(s@.take(i as int)) =~= raised(s@.take(i - 1)).push(u));
    }
    assert(s@.take(i as int) =~= s@);
    out
}

// ---------------------------------------------------------------------------
// Searching
// ---------------------------------------------------------------------------

/// `pat` stands in `s` at position `i`.
pub open spec fn occurs_at(s: Seq<char>, pat: Seq<char>, i: int) -> bool {
    &&& 0 <= i
    &&& i + pat.len() <= s.len()
    &&& s.subrange(i, i + pat.len()) == pat
}

/// The first position from `from` on at which `pat` stands in `s`.
pub open spec fn position_from(s: Seq<char>, pat: Seq<char>, from: int) -> Option<int>
    decreases s.len() + 1 - from,
{
    if from + pat.len() > s.len() {
        None
    } else if occurs_at(s, pat, from) {
        Some(from)
    } else {
        position_from(s, pat, from + 1)
    }
}

/// The first position at which `pat` stands in `s`.
pub open spec fn position_of(s: Seq<char>, pat: Seq<char>) -> Option<int> {
    position_from(s, pat, 0)
}

/// The last position before `end` at which `pat` stands in `s`.
pub open spec fn last_position_before(s: Seq<char>, pat: Seq<char>, end: int) -> Option<int>
    decreases end,
{
    if end <= 0 {
        None
    } else if occurs_at(s, pat, end - 1) {
        Some(end - 1)
    } else {
        last_position_before(s, pat, end - 1)
    }
}

/// The last position at which `pat` stands in `s`.
pub open spec fn last_position_of(s: Seq<char>, pat: Seq<char>) -> Option<int> {
    last_position_before(s, pat, s.len() as int + 1)
}

/// `pat` stands somewhere in `s`.
pub open spec fn has(s: Seq<char>, pat: Seq<char>) -> bool {
    position_of(s, pat) is Some
}

pub open spec fn begins(s: Seq<char>, pat: Seq<char>) -> bool {
    occurs_at(s, pat, 0)
}

pub open spec fn ends(s: Seq<char>, pat: Seq<char>) -> bool {
    occurs_at(s, pat, s.len() - pat.len())
}

/// A found position is the first: `pat` stands there and nowhere earlier. When
/// none is found, `pat` stands nowhere.
pub proof fn position_from_is_first(s: Seq<char>, pat: Seq<char>, from: int)
    requires
        0 <= from,
    ensures
        match position_from(s, pat, from) {
            Some(i) => {
                &&& from <= i
                &&& occurs_at(s, pat, i)
                &&& forall|j: int| from <= j < i ==> !occurs_at(s, pat, j)
            },
            None => forall|j: int| from <= j ==> !occurs_at(s, pat, j),
        },
    decreases s.len() + 1 - from,
{
    if from + pat.len() <= s.len() && !occurs_at(s, pat, from) {
        position_from_is_first(s, pat, from + 1);
    }
}

/// Where `pat` stands, and nowhere earlier, it is found.
pub proof fn first_position_is_found(s: Seq<char>, pat: Seq<char>, i: int)
    requires
        occurs_at(s, pat, i),
        forall|j: int| 0 <= j < i ==> !occurs_at(s, pat, j),
    ensures
        position_of(s, pat) == Some(i),
{
    position_from_is_first(s, pat, 0);
}

/// What is found in the front of a text is found in the text.
pub proof fn front_is_searched_first(a: Seq<char>, b: Seq<char>, pat: Seq<char>)
    ensures
        position_of(a, pat) matches Some(i) ==> position_of(a + b, pat) == Some(i),
{
    position_from_is_first(a, pat, 0);
    if let Some(i) = position_of(a, pat) {
        let s = a + b;
        let n = pat.len() as int;
        assert(s.subrange(i, i + n) =~= a.subrange(i, i + n));
        assert forall|j: int| 0 <= j < i implies !occurs_at(s, pat, j) by {
            assert(s.subrange(j, j + n) =~= a.subrange(j, j + n));
            assert(!occurs_at(a, pat, j));
        }
        first_position_is_found(s, pat, i);
    }
}

/// A line feed followed by two characters that are none.
pub open spec fn opens_a_line(pat: Seq<char>) -> bool {
    pat.len() == 3 && pat[0] == '\n' && pat[1] != '\n' && pat[2] != '\n'
}

/// Where `b` starts a new line and `a` does not hold `pat`, `pat` is looked for
/// in `b`.
pub proof fn search_passes_to_the_next_line(a: Seq<char>, b: Seq<char>, pat: Seq<char>)
    requires
        opens_a_line(pat),
        b.len() > 0,
        b[0] == '\n',
        !(has(a, pat)),
    ensures
        position_of(a + b, pat) == (match position_of(b, pat) {
            Some(k) => Some(a.len() + k),
            None => None,
        }),
{
    let s = a + b;
    let n = a.len() as int;
    position_from_is_first(a, pat, 0);
    position_from_is_first(b, pat, 0);
    position_from_is_first(s, pat, 0);
    assert forall|j: int| 0 <= j < n implies !occurs_at(s, pat, j) by {
        if occurs_at(s, pat, j) {
            let w = s.subrange(j, j + 3);
            assert(w[0] == pat[0] && w[1] == pat[1] && w[2] == pat[2]);
            if j + 3 <= n {
                assert(w =~= a.subrange(j, j + 3));
                assert(occurs_at(a, pat, j));
            } else if j + 2 == n {
                assert(w[2] == b[0]);
            } else {
                assert(w[1] == b[0]);
            }
        }
    }
    assert forall|j: int| n <= j implies occurs_at(s, pat, j) == occurs_at(b, pat, j - n) by {
        if j + 3 <= s.len() {
            assert(s.subrange(j, j + 3) =~= b.subrange(j - n, j - n + 3));
        }
    }
    match position_of(b, pat) {
        Some(k) => {
            assert(occurs_at(s, pat, n + k));
            assert forall|j: int| 0 <= j < n + k implies !occurs_at(s, pat, j) by {
                if j >= n {
                    assert(!occurs_at(b, pat, j - n));
                }
            }
            first_position_is_found(s, pat, n + k);
        },
        None => {
            if let Some(p) = position_of(s, pat) {
                assert(!occurs_at(b, pat, p - n));
            }
        },
    }
}

/// A found last position is the last: `pat` stands there and nowhere later.
pub proof fn last_position_is_last(s: Seq<char>, pat: Seq<char>, end: int)
    ensures
        match last_position_before(s, pat, end) {
            Some(i) => {
                &&& 0 <= i < end
                &&& occurs_at(s, pat, i)
                &&& forall|j: int| i < j < end ==> !occurs_at(s, pat, j)
            },
            None => forall|j: int| j < end ==> !occurs_at(s, pat, j),
        },
    decreases end,
{
    if end > 0 && !occurs_at(s, pat, end - 1) {
        last_position_is_last(s, pat, end - 1);
    }
}

fn stands_at(s: &[char], pat: &[char], i: usize) -> (r: bool)
    ensures
        r == occurs_at(s@, pat@, i as int),
{
    if i > s.len() || pat.len() > s.len() - i {
        return false;
    }
    let mut k: usize = 0;
    while k < pat.len()
        invariant
            k <= pat@.len(),
            i + pat@.len() <= s@.len() <= usize::MAX,
            forall|j: int| 0 <= j < k ==> s@[i + j] == pat@[j],
        decreases pat@.len() - k,
    {
        if s[i + k] != pat[k] {
            assert(s@.subrange(i as int, i + pat@.len())[k as int] != pat@[k as int]);
            return false;
        }
        k += 1;
    }
    assert(s@.subrange(i as int, i + pat@.len()) =~= pat@);
    true
}

/// The first position at which `pat` stands in `s`.
pub fn find(s: &[char], pat: &str) -> (r: Option<usize>)
    ensures
        match r {
            Some(i) => position_of(s@, pat@) == Some(i as int) && i + pat@.len() <= s@.len(),
            None => position_of(s@, pat@) is None,
        },
{
    let p = chars_of(pat);
    if p.len() > s.len() {
        return None;
    }
    let last: usize = s.len() - p.len();
    let mut i: usize = 0;
    while i <= last
        invariant
            p@ == pat@,
            last == s@.len() - pat@.len(),
            i <= last + 1,
            position_of(s@, pat@) == position_from(s@, pat@, i as int),
        decreases last + 1 - i,
    {
        if stands_at(s, p.as_slice(), i) {
            return Some(i);
        }
        if i == last {
            assert(position_from(s@, pat@, i + 1) is None);
            return None;
        }
        i += 1;
    }
    None
}

/// The last position at which `pat` stands in `s`.
pub fn rfind(s: &[char], pat: &str) -> (r: Option<usize>)
    ensures
        match r {
            Some(i) => last_position_of(s@, pat@) == Some(i as int) && i + pat@.len() <= s@.len(),
            None => last_position_of(s@, pat@) is None,
        },
{
    let p = chars_of(pat);
    let mut i: usize = s.len();
    loop
        invariant
            p@ == pat@,
            i <= s@.len(),
            last_position_of(s@, pat@) == last_position_before(s@, pat@, i + 1),
        decreases i,
    {
        if stands_at(s, p.as_slice(), i) {
            return Some(i);
        }
        if i == 0 {
            assert(last_position_before(s@, pat@, 0) is None);
            return None;
        }
        i -= 1;
    }
}

pub fn contains(s: &[char], pat: &str) -> (r: bool)
    ensures
        r == has(s@, pat@),
{
    find(s, pat).is_some()
}

pub fn starts_with(s: &[char], pat: &str) -> (r: bool)
    ensures
        r == begins(s@, pat@),
{
    let pat = chars_of(pat);
    stands_at(s, pat.as_slice(), 0)
}

pub fn ends_with(s: &[char], pat: &str) -> (r: bool)
    ensures
        r == ends(s@, pat@),
{
    let pat = chars_of(pat);
    if pat.len() > s.len() {
        return false;
    }
    stands_at(s, pat.as_slice(), s.len() - pat.len())
}

// ---------------------------------------------------------------------------
// Cutting
// ---------------------------------------------------------------------------

/// The parts of `s` before and after the first `pat`.
pub open spec fn cut(s: Seq<char>, pat: Seq<char>) -> Option<(Seq<char>, Seq<char>)> {
    match position_of(s, pat) {
        Some(i) => Some((s.subrange(0, i), s.subrange(i + pat.len(), s.len() as int))),
        None => None,
    }
}

/// `s` up to the first `pat`, or the whole of it.
pub open spec fn before(s: Seq<char>, pat: Seq<char>) -> Seq<char> {
    match cut(s, pat) {
        Some((head, _)) => head,
        None => s,
    }
}

/// `s` after the last `pat`, or the whole of it.
pub open spec fn after_last(s: Seq<char>, pat: Seq<char>) -> Seq<char> {
    match last_position_of(s, pat) {
        Some(i) => s.subrange(i + pat.len(), s.len() as int),
        None => s,
    }
}

/// What follows `pat` when `s` begins with it.
pub open spec fn stripped(s: Seq<char>, pat: Seq<char>) -> Option<Seq<char>> {
    if begins(s, pat) {
        Some(s.subrange(pat.len() as int, s.len() as int))
    } else {
        None
    }
}

/// The pieces of `s` between one `sep` and the next. An empty separator
/// separates nothing.
pub open spec fn split_on(s: Seq<char>, sep: Seq<char>) -> Seq<Seq<char>>
    decreases s.len(),
{
    match cut(s, sep) {
        Some((head, tail)) if tail.len() < s.len() => seq![head] + split_on(tail, sep),
        _ => seq![s],
    }
}

/// A text is split at each separator on its own.
pub proof fn splitting_goes_piece_by_piece(a: Seq<char>, sep: Seq<char>, z: Seq<char>)
    requires
        opens_a_line(sep),
    ensures
        split_on(a + sep + z, sep) == split_on(a, sep) + split_on(z, sep),
    decreases a.len(),
{
    let s = a + sep + z;
    position_from_is_first(a, sep, 0);
    match position_of(a, sep) {
        Some(p) => {
            assert(s =~= a + (sep + z));
            front_is_searched_first(a, sep + z, sep);
            let rest = a.subrange(p + 3, a.len() as int);
            splitting_goes_piece_by_piece(rest, sep, z);
            assert(s.subrange(0, p) =~= a.subrange(0, p));
            assert(s.subrange(p + 3, s.len() as int) =~= rest + sep + z);
            assert(split_on(s, sep) == seq![a.subrange(0, p)] + split_on(rest + sep + z, sep));
            assert(split_on(a, sep) == seq![a.subrange(0, p)] + split_on(rest, sep));
            assert(split_on(s, sep) =~= split_on(a, sep) + split_on(z, sep));
        },
        None => {
            let b = sep + z;
            assert(b[0] == '\n');
            assert(b.subrange(0, 3) =~= sep);
            first_position_is_found(b, sep, 0);
            search_passes_to_the_next_line(a, b, sep);
            assert(s =~= a + b);
            assert(position_of(s, sep) == Some(a.len() as int));
            assert(s.subrange(0, a.len() as int) =~= a);
            assert(s.subrange(a.len() as int + 3, s.len() as int) =~= z);
            assert(split_on(s, sep) == seq![a] + split_on(z, sep));
            assert(split_on(a, sep) == seq![a]);
        },
    }
}

/// `s` without its final carriage return, if it has one.
pub open spec fn without_cr(s: Seq<char>) -> Seq<char> {
    if s.len() > 0 && s.last() == '\r' {
        s.drop_last()
    } else {
        s
    }
}

/// The lines of `s`: each ends with a line feed, or with a carriage return and
/// a line feed, which are not part of it; the last one may end with neither.
pub open spec fn lines_of(s: Seq<char>) -> Seq<Seq<char>>
    decreases s.len(),
{
    if s.len() == 0 {
        seq![]
    } else {
        match cut(s, seq!['\n']) {
            Some((head, tail)) if tail.len() < s.len() => seq![without_cr(head)] + lines_of(tail),
            _ => seq![s],
        }
    }
}

/// `s` with every `pat` replaced by `with`, from the left. An empty pattern
/// replaces nothing.
pub open spec fn replaced(s: Seq<char>, pat: Seq<char>, with: Seq<char>) -> Seq<char>
    decreases s.len(),
{
    match cut(s, pat) {
        Some((head, tail)) if tail.len() < s.len() => head + with + replaced(tail, pat, with),
        _ => s,
    }
}

pub fn split_once<'a>(s: &'a [char], pat: &str) -> (r: Option<(&'a [char], &'a [char])>)
    ensures
        match r {
            Some((a, b)) => cut(s@, pat@) == Some((a@, b@)) && a@.len() + pat@.len() + b@.len()
                == s@.len(),
            None => cut(s@, pat@) is None,
        },
{
    match find(s, pat) {
        Some(i) => {
            let n = chars_of(pat).len();
            proof {
                position_from_is_first(s@, pat@, 0);
            }
            let end: usize = s.len();
            Some((slice_subrange(s, 0, i), slice_subrange(s, i + n, end)))
        },
        None => None,
    }
}

/// `s` up to the first `pat`, or the whole of it.
pub fn head<'a>(s: &'a [char], pat: &str) -> (r: &'a [char])
    ensures
        r@ == before(s@, pat@),
{
    match split_once(s, pat) {
        Some((a, _)) => a,
        None => s,
    }
}

/// `s` after the last `pat`, or the whole of it.
pub fn tail<'a>(s: &'a [char], pat: &str) -> (r: &'a [char])
    ensures
        r@ == after_last(s@, pat@),
{
    match rfind(s, pat) {
        Some(i) => {
            let n = chars_of(pat).len();
            let end: usize = s.len();
            slice_subrange(s, i + n, end)
        },
        None => s,
    }
}

pub fn strip_prefix<'a>(s: &'a [char], pat: &str) -> (r: Option<&'a [char]>)
    ensures
        match r {
            Some(t) => stripped(s@, pat@) == Some(t@),
            None => stripped(s@, pat@) is None,
        },
{
    if starts_with(s, pat) {
        let n = chars_of(pat).len();
        Some(slice_subrange(s, n, s.len()))
    } else {
        None
    }
}

pub fn split<'a>(s: &'a [char], sep: &str) -> (r: Vec<&'a [char]>)
    ensures
        slices(r@) == split_on(s@, sep@),
        r@.len() > 0,
{
    let mut out: Vec<&'a [char]> = Vec::new();
    let mut rest: &'a [char] = s;
    assert(slices(out@) + split_on(rest@, sep@) =~= split_on(s@, sep@));
    loop
        invariant
            slices(out@) + split_on(rest@, sep@) == split_on(s@, sep@),
        decreases rest@.len(),
    {
        let ghost done = out@;
        match split_once(rest, sep) {
            Some((a, b)) if b.len() < rest.len() => {
                assert(split_on(rest@, sep@) == seq![a@] + split_on(b@, sep@));
                out.push(a);
                assert(slices(out@) =~= slices(done).push(a@));
                assert(slices(out@) + split_on(b@, sep@) =~= slices(done) + (seq![a@] + split_on(
                    b@,
                    sep@,
                )));
                rest = b;
            },
            _ => {
                out.push(rest);
                assert(slices(out@) =~= slices(done) + seq![rest@]);
                return out;
            },
        }
    }
}

fn chop_cr<'a>(s: &'a [char]) -> (r: &'a [char])
    ensures
        r@ == without_cr(s@),
{
    if s.len() > 0 && s[s.len() - 1] == '\r' {
        slice_subrange(s, 0, s.len() - 1)
    } else {
        s
    }
}

pub fn lines<'a>(s: &'a [char]) -> (r: Vec<&'a [char]>)
    ensures
        slices(r@) == lines_of(s@),
{
    proof {
        reveal_strlit("\n");
        assert("\n"@ =~= seq!['\n']);
    }
    let mut out: Vec<&'a [char]> = Vec::new();
    let mut rest: &'a [char] = s;
    assert(slices(out@) + lines_of(rest@) =~= lines_of(s@));
    while rest.len() > 0
        invariant
            "\n"@ == seq!['\n'],
            slices(out@) + lines_of(rest@) == lines_of(s@),
        decreases rest@.len(),
    {
        let ghost done = out@;
        match split_once(rest, "\n") {
            Some((a, b)) if b.len() < rest.len() => {
                assert(lines_of(rest@) == seq![without_cr(a@)] + lines_of(b@));
                let line = chop_cr(a);
                out.push(line);
                assert(slices(out@) =~= slices(done).push(line@));
                assert(slices(out@) + lines_of(b@) =~= slices(done) + (seq![line@] + lines_of(b@)));
                rest = b;
            },
            _ => {
                out.push(rest);
                assert(slices(out@) =~= slices(done) + seq![rest@]);
                return out;
            },
        }
    }
    assert(slices(out@) + lines_of(rest@) =~= slices(out@));
    out
}

fn push_all(out: &mut Vec<char>, s: &[char])
    ensures
        final(out)@ == old(out)@ + s@,
{
    let mut i: usize = 0;
    while i < s.len()
        invariant
            i <= s@.len(),
            out@ == old(out)@ + s@.take(i as int),
        decreases s@.len() - i,
    {
        out.push(s[i]);
        i += 1;
        assert(s@.take(i as int) =~= s@.take(i - 1).push(s@[i - 1]));
    }
    assert(s@.take(i as int) =~= s@);
}

pub fn replace(s: &[char], pat: &str, with: &str) -> (r: Vec<char>)
    ensures
        r@ == replaced(s@, pat@, with@),
{
    let filler = chars_of(with);
    let mut out: Vec<char> = Vec::new();
    let mut rest: &[char] = s;
    assert(out@ + replaced(rest@, pat@, with@) =~= replaced(s@, pat@, with@));
    loop
        invariant
            filler@ == with@,
            out@ + replaced(rest@, pat@, with@) == replaced(s@, pat@, with@),
        decreases rest@.len(),
    {
        let ghost done = out@;
        match split_once(rest, pat) {
            Some((a, b)) if b.len() < rest.len() => {
                assert(replaced(rest@, pat@, with@) == a@ + with@ + replaced(b@, pat@, with@));
                push_all(&mut out, a);
                push_all(&mut out, filler.as_slice());
                assert(out@ + replaced(b@, pat@, with@) =~= done + (a@ + with@ + replaced(
                    b@,
                    pat@,
                    with@,
                )));
                rest = b;
            },
            _ => {
                push_all(&mut out, rest);
                return out;
            },
        }
    }
}

/// The characters of `a` followed by those of `b`.
pub fn glue(a: &[char], b: &[char]) -> (r: Vec<char>)
    ensures
        r@ == a@ + b@,
{
    let mut out: Vec<char> = Vec::new();
    push_all(&mut out, a);
    push_all(&mut out, b);
    assert(out@ =~= a@ + b@);
    out
}

// ---------------------------------------------------------------------------
// Trimming
// ---------------------------------------------------------------------------

/// `s` without its leading white space.
pub open spec fn trimmed_start(s: Seq<char>) -> Seq<char>
    decreases s.len(),
{
    if s.len() > 0 && is_space(s[0]) {
        trimmed_start(s.subrange(1, s.len() as int))
    } else {
        s
    }
}

/// `s` without its trailing white space.
pub open spec fn trimmed_end(s: Seq<char>) -> Seq<char>
    decreases s.len(),
{
    if s.len() > 0 && is_space(s.last()) {
        trimmed_end(s.subrange(0, s.len() - 1))
    } else {
        s
    }
}

/// `s` without the white space at either end.
pub open spec fn trimmed(s: Seq<char>) -> Seq<char> {
    trimmed_end(trimmed_start(s))
}

/// `s` without its leading `c`s.
pub open spec fn unled(s: Seq<char>, c: char) -> Seq<char>
    decreases s.len(),
{
    if s.len() > 0 && s[0] == c {
        unled(s.subrange(1, s.len() as int), c)
    } else {
        s
    }
}

/// `s` without its trailing `c`s.
pub open spec fn untrailed(s: Seq<char>, c: char) -> Seq<char>
    decreases s.len(),
{
    if s.len() > 0 && s.last() == c {
        untrailed(s.subrange(0, s.len() - 1), c)
    } else {
        s
    }
}

pub fn trim_start<'a>(s: &'a [char]) -> (r: &'a [char])
    ensures
        r@ == trimmed_start(s@),
{
    let mut rest: &'a [char] = s;
    while rest.len() > 0 && whitespace(rest[0])
        invariant
            trimmed_start(rest@) == trimmed_start(s@),
        decreases rest@.len(),
    {
        rest = slice_subrange(rest, 1, rest.len());
    }
    rest
}

pub fn trim_end<'a>(s: &'a [char]) -> (r: &'a [char])
    ensures
        r@ == trimmed_end(s@),
{
    let mut rest: &'a [char] = s;
    while rest.len() > 0 && whitespace(rest[rest.len() - 1])
        invariant
            trimmed_end(rest@) == trimmed_end(s@),
        decreases rest@.len(),
    {
        rest = slice_subrange(rest, 0, rest.len() - 1);
    }
    rest
}

pub fn trim<'a>(s: &'a [char]) -> (r: &'a [char])
    ensures
        r@ == trimmed(s@),
{
    trim_end(trim_start(s))
}

pub fn trim_char_start<'a>(s: &'a [char], c: char) -> (r: &'a [char])
    ensures
        r@ == unled(s@, c),
{
    let mut rest: &'a [char] = s;
    while rest.len() > 0 && rest[0] == c
        invariant
            unled(rest@, c) == unled(s@, c),
        decreases rest@.len(),
    {
        rest = slice_subrange(rest, 1, rest.len());
    }
    rest
}

pub fn trim_char<'a>(s: &'a [char], c: char) -> (r: &'a [char])
    ensures
        r@ == untrailed(unled(s@, c), c),
{
    let from = trim_char_start(s, c);
    let mut rest: &'a [char] = from;
    while rest.len() > 0 && rest[rest.len() - 1] == c
        invariant
            untrailed(rest@, c) == untrailed(from@, c),
        decreases rest@.len(),
    {
        rest = slice_subrange(rest, 0, rest.len() - 1);
    }
    rest
}

/// The length of the run of `s` before the first white space.
pub open spec fn word_len(s: Seq<char>) -> nat
    decreases s.len(),
{
    if s.len() == 0 || is_space(s[0]) {
        0
    } else {
        1 + word_len(s.subrange(1, s.len() as int))
    }
}

/// The words of `s`: its longest runs without white space.
pub open spec fn words_of(s: Seq<char>) -> Seq<Seq<char>>
    decreases s.len(),
{
    let t = trimmed_start(s);
    let n = word_len(t) as int;
    if t.len() == 0 || n <= 0 || n > t.len() || t.len() > s.len() {
        seq![]
    } else {
        seq![t.subrange(0, n)] + words_of(t.subrange(n, t.len() as int))
    }
}

proof fn trimmed_start_no_longer(s: Seq<char>)
    ensures
        trimmed_start(s).len() <= s.len(),
        trimmed_start(s).len() > 0 ==> !is_space(trimmed_start(s)[0]),
    decreases s.len(),
{
    if s.len() > 0 && is_space(s[0]) {
        trimmed_start_no_longer(s.subrange(1, s.len() as int));
    }
}

fn first_word_len(s: &[char]) -> (r: usize)
    ensures
        r == word_len(s@),
        r <= s@.len(),
{
    let mut i: usize = 0;
    assert(s@.subrange(0, s@.len() as int) =~= s@);
    while i < s.len() && !whitespace(s[i])
        invariant
            i <= s@.len(),
            word_len(s@) == i + word_len(s@.subrange(i as int, s@.len() as int)),
        decreases s@.len() - i,
    {
        assert(s@.subrange(i as int, s@.len() as int).subrange(1, s@.len() - i) =~= s@.subrange(
            i + 1,
            s@.len() as int,
        ));
        i += 1;
    }
    i
}

pub fn split_whitespace<'a>(s: &'a [char]) -> (r: Vec<&'a [char]>)
    ensures
        slices(r@) == words_of(s@),
{
    let mut out: Vec<&'a [char]> = Vec::new();
    let mut rest: &'a [char] = s;
    assert(slices(out@) + words_of(rest@) =~= words_of(s@));
    loop
        invariant
            slices(out@) + words_of(rest@) == words_of(s@),
        decreases rest@.len(),
    {
        let ghost done = out@;
        let t = trim_start(rest);
        proof {
            trimmed_start_no_longer(rest@);
        }
        let n = first_word_len(t);
        if t.len() == 0 || n == 0 {
            assert(slices(out@) + words_of(rest@) =~= slices(out@));
            return out;
        }
        let word = slice_subrange(t, 0, n);
        let next = slice_subrange(t, n, t.len());
        assert(words_of(rest@) == seq![word@] + words_of(next@));
        out.push(word);
        assert(slices(out@) =~= slices(done).push(word@));
        assert(slices(out@) + words_of(next@) =~= slices(done) + (seq![word@] + words_of(next@)));
        rest = next;
    }
}

// ---------------------------------------------------------------------------
// Numbers
// ---------------------------------------------------------------------------

/// The digits of `s`, with everything else left out.
pub open spec fn digits_in(s: Seq<char>) -> Seq<char>
    decreases s.len(),
{
    if s.len() == 0 {
        seq![]
    } else if is_digit(s.last()) {
        digits_in(s.drop_last()).push(s.last())
    } else {
        digits_in(s.drop_last())
    }
}

/// How many digits `s` begins with.
pub open spec fn leading_digits(s: Seq<char>) -> nat
    decreases s.len(),
{
    if s.len() == 0 || !is_digit(s[0]) {
        0
    } else {
        1 + leading_digits(s.subrange(1, s.len() as int))
    }
}

pub open spec fn all_digits(s: Seq<char>) -> bool {
    forall|i: int| 0 <= i < s.len() ==> is_digit(#[trigger] s[i])
}

/// The number that a run of digits writes in base ten.
pub open spec fn number(s: Seq<char>) -> nat
    decreases s.len(),
{
    if s.len() == 0 {
        0
    } else {
        number(s.drop_last()) * 10 + ((s.last() as u32) - ('0' as u32)) as nat
    }
}

/// A run of one or more digits as a number no larger than `max`.
pub open spec fn bounded(s: Seq<char>, max: nat) -> Option<nat> {
    if s.len() > 0 && all_digits(s) && number(s) <= max {
        Some(number(s))
    } else {
        None
    }
}

/// A number without a minus sign: an optional `+`, then digits.
pub open spec fn unsigned(s: Seq<char>, max: nat) -> Option<nat> {
    if s.len() > 0 && s[0] == '+' {
        bounded(s.subrange(1, s.len() as int), max)
    } else {
        bounded(s, max)
    }
}

/// A number with an optional sign, between `-max - 1` and `max`.
pub open spec fn signed(s: Seq<char>, max: nat) -> Option<int> {
    if s.len() > 0 && s[0] == '-' {
        match bounded(s.subrange(1, s.len() as int), max + 1) {
            Some(n) => Some(-(n as int)),
            None => None,
        }
    } else {
        match unsigned(s, max) {
            Some(n) => Some(n as int),
            None => None,
        }
    }
}

pub fn keep_digits(s: &[char]) -> (r: Vec<char>)
    ensures
        r@ == digits_in(s@),
{
    let mut out: Vec<char> = Vec::new();
    let mut i: usize = 0;
    while i < s.len()
        invariant
            i <= s@.len(),
            out@ == digits_in(s@.take(i as int)),
        decreases s@.len() - i,
    {
        assert(s@.take(i + 1).drop_last() =~= s@.take(i as int));
        if ascii_digit(s[i]) {
            out.push(s[i]);
        }
        i += 1;
    }
    assert(s@.take(i as int) =~= s@);
    out
}

pub fn take_digits<'a>(s: &'a [char]) -> (r: &'a [char])
    ensures
        r@ == s@.subrange(0, leading_digits(s@) as int),
        leading_digits(s@) <= s@.len(),
{
    let mut i: usize = 0;
    assert(s@.subrange(0, s@.len() as int) =~= s@);
    while i < s.len() && ascii_digit(s[i])
        invariant
            i <= s@.len(),
            leading_digits(s@) == i + leading_digits(s@.subrange(i as int, s@.len() as int)),
        decreases s@.len() - i,
    {
        assert(s@.subrange(i as int, s@.len() as int).subrange(1, s@.len() - i) =~= s@.subrange(
            i + 1,
            s@.len() as int,
        ));
        i += 1;
    }
    slice_subrange(s, 0, i)
}

/// A longer run of digits never writes a smaller number.
proof fn number_grows(s: Seq<char>, n: int)
    requires
        0 <= n <= s.len(),
        all_digits(s),
    ensures
        number(s.take(n)) <= number(s),
    decreases s.len(),
{
    if n == s.len() {
        assert(s.take(n) =~= s);
    } else {
        number_grows(s.drop_last(), n);
        assert(s.drop_last().take(n) =~= s.take(n));
    }
}

pub fn parse_digits(s: &[char], max: u64) -> (r: Option<u64>)
    ensures
        match r {
            Some(n) => bounded(s@, max as nat) == Some(n as nat),
            None => bounded(s@, max as nat) is None,
        },
{
    if s.len() == 0 {
        return None;
    }
    let mut n: u64 = 0;
    let mut i: usize = 0;
    while i < s.len()
        invariant
            i <= s@.len(),
            n <= max,
            all_digits(s@.take(i as int)),
            n == number(s@.take(i as int)),
        decreases s@.len() - i,
    {
        let c = s[i];
        if !ascii_digit(c) {
            return None;
        }
        let wide: u128 = (n as u128) * 10 + ((c as u8 - 48) as u128);
        assert(s@.take(i + 1).drop_last() =~= s@.take(i as int));
        assert(number(s@.take(i + 1)) == wide);
        if wide > max as u128 {
            proof {
                if all_digits(s@) {
                    number_grows(s@, i + 1);
                }
            }
            return None;
        }
        n = wide as u64;
        i += 1;
    }
    assert(s@.take(i as int) =~= s@);
    Some(n)
}

pub fn parse_unsigned(s: &[char], max: u64) -> (r: Option<u64>)
    ensures
        match r {
            Some(n) => unsigned(s@, max as nat) == Some(n as nat),
            None => unsigned(s@, max as nat) is None,
        },
{
    if s.len() > 0 && s[0] == '+' {
        parse_digits(slice_subrange(s, 1, s.len()), max)
    } else {
        parse_digits(s, max)
    }
}

pub fn parse_u32(s: &[char]) -> (r: Option<u32>)
    ensures
        match r {
            Some(n) => unsigned(s@, u32::MAX as nat) == Some(n as nat),
            None => unsigned(s@, u32::MAX as nat) is None,
        },
{
    match parse_unsigned(s, u32::MAX as u64) {
        Some(n) => Some(n as u32),
        None => None,
    }
}

pub fn parse_u8(s: &[char]) -> (r: Option<u8>)
    ensures
        match r {
            Some(n) => unsigned(s@, u8::MAX as nat) == Some(n as nat),
            None => unsigned(s@, u8::MAX as nat) is None,
        },
{
    match parse_unsigned(s, u8::MAX as u64) {
        Some(n) => Some(n as u8),
        None => None,
    }
}

pub fn parse_i32(s: &[char]) -> (r: Option<i32>)
    ensures
        match r {
            Some(n) => signed(s@, i32::MAX as nat) == Some(n as int),
            None => signed(s@, i32::MAX as nat) is None,
        },
{
    if s.len() > 0 && s[0] == '-' {
        match parse_digits(slice_subrange(s, 1, s.len()), 2147483648) {
            Some(n) => Some((-(n as i64)) as i32),
            None => None,
        }
    } else {
        match parse_unsigned(s, i32::MAX as u64) {
            Some(n) => Some(n as i32),
            None => None,
        }
    }
}

pub open spec fn digit_char(d: nat) -> char {
    (('0' as u32) + d) as char
}

/// `n` written in base ten.
pub open spec fn decimal(n: nat) -> Seq<char>
    decreases n,
{
    if n < 10 {
        seq![digit_char(n)]
    } else {
        decimal(n / 10).push(digit_char(n % 10))
    }
}

/// A number written out is a run of digits that reads back as the number.
pub proof fn decimals_read_back(n: nat)
    ensures
        decimal(n).len() > 0,
        all_digits(decimal(n)),
        number(decimal(n)) == n,
    decreases n,
{
    if n < 10 {
        reveal_with_fuel(number, 2);
        assert(decimal(n).drop_last() =~= seq![]);
    } else {
        decimals_read_back(n / 10);
        let d = decimal(n);
        assert(d.drop_last() =~= decimal(n / 10));
        assert(d.last() == digit_char(n % 10));
    }
}

/// `n` written in base ten, with a minus sign when it is negative.
pub open spec fn decimal_int(n: int) -> Seq<char> {
    if n < 0 {
        seq!['-'] + decimal((-n) as nat)
    } else {
        decimal(n as nat)
    }
}

pub fn decimal_text(n: u64) -> (r: String)
    ensures
        r@ == decimal(n as nat),
    decreases n,
{
    let mut out = if n < 10 {
        String::new()
    } else {
        decimal_text(n / 10)
    };
    let d: u8 = (n % 10) as u8;
    out.push((48 + d) as char);
    assert(out@ =~= decimal(n as nat));
    out
}

pub fn decimal_int_text(n: i64) -> (r: String)
    ensures
        r@ == decimal_int(n as int),
{
    if n < 0 {
        let mut out = String::new();
        out.push('-');
        let magnitude: u64 = (-(n as i128)) as u64;
        let digits = decimal_text(magnitude);
        out.append(digits.as_str());
        assert(out@ =~= decimal_int(n as int));
        out
    } else {
        decimal_text(n as u64)
    }
}

pub fn append_number(s: &mut String, n: u64)
    ensures
        final(s)@ == old(s)@ + decimal(n as nat),
{
    let digits = decimal_text(n);
    s.append(digits.as_str());
}

pub fn append_int(s: &mut String, n: i64)
    ensures
        final(s)@ == old(s)@ + decimal_int(n as int),
{
    let digits = decimal_int_text(n);
    s.append(digits.as_str());
}

// ---------------------------------------------------------------------------
// Joining
// ---------------------------------------------------------------------------

/// The parts one after the other, with `sep` between each and the next.
pub open spec fn joined(parts: Seq<Seq<char>>, sep: Seq<char>) -> Seq<char>
    decreases parts.len(),
{
    if parts.len() == 0 {
        seq![]
    } else if parts.len() == 1 {
        parts[0]
    } else {
        joined(parts.drop_last(), sep) + sep + parts.last()
    }
}

pub fn join(parts: &Vec<String>, sep: &str) -> (r: String)
    ensures
        r@ == joined(strings(parts@), sep@),
{
    let mut out = String::new();
    let mut i: usize = 0;
    let ghost all = strings(parts@);
    while i < parts.len()
        invariant
            i <= parts@.len(),
            all == strings(parts@),
            out@ == joined(all.take(i as int), sep@),
        decreases parts@.len() - i,
    {
        assert(all.take(i + 1).drop_last() =~= all.take(i as int));
        if i > 0 {
            out.append(sep);
        }
        out.append(parts[i].as_str());
        i += 1;
        assert(out@ =~= joined(all.take(i as int), sep@));
    }
    assert(all.take(i as int) =~= all);
    out
}

// ---------------------------------------------------------------------------
// Quoting
// ---------------------------------------------------------------------------

/// A text in double quotes with what needs it escaped, as the `Debug` of `str`
/// writes it.
pub uninterp spec fn debug_quoted(s: Seq<char>) -> Seq<char>;

/// The `Debug` of `str`: the text in double quotes, with what needs it escaped.
/// Which characters need it is left to std.
#[verifier::external_body]
pub(crate) fn debug_text(s: &str) -> (r: String)
    ensures
        r@ == debug_quoted(s@),
{
    format!("{s:?}")
}

// ---------------------------------------------------------------------------
// How texts, numbers and lists relate
// ---------------------------------------------------------------------------

/// White space is tab to carriage return, the space, the next-line control, the
/// no-break space, the Ogham space mark, the spaces from en quad to hair space,
/// the line and the paragraph separator, the narrow no-break space, the medium
/// mathematical space and the ideographic space, by their code points.
pub proof fn white_space_by_code_point(c: char)
    ensures
        is_space(c) <==> {
            let n = c as u32;
            ||| 9 <= n <= 13
            ||| n == 32
            ||| n == 133
            ||| n == 160
            ||| n == 5760
            ||| 8192 <= n <= 8202
            ||| 8232 <= n <= 8233
            ||| n == 8239
            ||| n == 8287
            ||| n == 12288
        },
{
}

/// A further digit makes a number ten times what it was, and the digit more, in
/// the way it is written as in the way it is read.
pub proof fn digits_count_tenfold(n: nat, d: nat, s: Seq<char>)
    requires
        d < 10,
    ensures
        n > 0 ==> decimal(10 * n + d) == decimal(n).push((48 + d) as char),
        decimal(d) == seq![(48 + d) as char],
        number(s.push((48 + d) as char)) == 10 * number(s) + d,
{
    let c = (48 + d) as char;
    assert(c as u32 == 48 + d);
    assert(s.push(c).drop_last() =~= s);
    if n > 0 {
        let m = 10 * n + d;
        assert(m / 10 == n && m % 10 == d);
        assert(decimal(m) =~= decimal(n).push(c));
    }
}

/// What is read as a number is one or more digits, behind a plus or not, that
/// write a number no larger than the limit; with a minus in front, a number may
/// be one larger.
pub proof fn only_digits_are_numbers(s: Seq<char>, max: nat)
    ensures
        unsigned(s, max) matches Some(n) ==> n <= max && s.len() > 0 && (forall|i: int|
            0 < i < s.len() ==> is_digit(#[trigger] s[i])) && (is_digit(s[0]) || (s[0] == '+'
            && s.len() > 1)),
        signed(s, max) matches Some(n) ==> -(max + 1) <= n <= max && s.len() > 0 && (forall|i: int|
            0 < i < s.len() ==> is_digit(#[trigger] s[i])) && (is_digit(s[0]) || ((s[0] == '+'
            || s[0] == '-') && s.len() > 1)),
{
    if s.len() > 0 {
        let rest = s.subrange(1, s.len() as int);
        assert forall|i: int| 0 < i < s.len() && all_digits(rest) implies is_digit(
            #[trigger] s[i],
        ) by {
            assert(rest[i - 1] == s[i]);
        }
    }
}

/// Every number that the limits allow is read from the way it is written, and no
/// number beyond them.
pub proof fn numbers_read_back_within_limits(n: int, max: nat)
    ensures
        0 <= n <= max ==> unsigned(decimal_int(n), max) == Some(n as nat),
        n > max ==> unsigned(decimal_int(n), max) is None,
        n < 0 ==> unsigned(decimal_int(n), max) is None,
        -(max + 1) <= n <= max ==> signed(decimal_int(n), max) == Some(n),
        n > max || n < -(max + 1) ==> signed(decimal_int(n), max) is None,
        0 <= n <= max ==> unsigned(seq!['+'] + decimal_int(n), max) == Some(n as nat),
{
    let size = (if n < 0 {
        -n
    } else {
        n
    }) as nat;
    let d = decimal(size);
    decimals_read_back(size);
    assert(is_digit(d[0]));
    if n < 0 {
        let t = seq!['-'] + d;
        assert(t[0] == '-');
        assert(t.subrange(1, t.len() as int) =~= d);
        assert(!all_digits(t)) by {
            assert(!is_digit(t[0]));
        }
    } else {
        let t = seq!['+'] + d;
        assert(t[0] == '+');
        assert(t.subrange(1, t.len() as int) =~= d);
    }
}

/// One part is joined to nothing, and a further part stands behind a separator.
pub proof fn parts_are_joined_by_the_separator(
    parts: Seq<Seq<char>>,
    part: Seq<char>,
    sep: Seq<char>,
)
    ensures
        joined(seq![part], sep) == part,
        parts.len() > 0 ==> joined(parts.push(part), sep) == joined(parts, sep) + sep + part,
{
    if parts.len() > 0 {
        assert(parts.push(part).drop_last() =~= parts);
    }
}

} // verus!
