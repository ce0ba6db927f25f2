//! Character-level helpers on strings: searching, trimming, slicing and
//! building, and decimal rendering of numbers.

use vstd::prelude::*;
use vstd::string::StringSliceAdditionalSpecFns;

verus! {

/// `String::push` of the standard library: appends one character.
pub assume_specification[ std::string::String::push ](s: &mut std::string::String, c: char)
    ensures
        final(s)@ == old(s)@.push(c),
;

/// Whether a character has the Unicode `White_Space` property: the
/// controls from tab to carriage return, the space, next line, the
/// no-break space, the Ogham space mark, the spaces from en quad to hair
/// space, the line and paragraph separators, the narrow no-break space,
/// the medium mathematical space and the ideographic space.
pub open spec fn white_space(c: char) -> bool {
    let n = c as u32;
    ||| 0x0009 <= n <= 0x000D
    ||| n == 0x0020
    ||| n == 0x0085
    ||| n == 0x00A0
    ||| n == 0x1680
    ||| 0x2000 <= n <= 0x200A
    ||| n == 0x2028
    ||| n == 0x2029
    ||| n == 0x202F
    ||| n == 0x205F
    ||| n == 0x3000
}

/// `char::is_whitespace` of the standard library: true exactly of the
/// characters with the `White_Space` property.
pub assume_specification[ char::is_whitespace ](c: char) -> (b: bool)
    ensures
        b == white_space(c),
;

/// The upper-case form of a text under the Unicode case mapping.
pub uninterp spec fn uppercase(s: Seq<char>) -> Seq<char>;

/// `str::to_uppercase` of the standard library; the mapping is only named.
pub assume_specification[ str::to_uppercase ](s: &str) -> (r: std::string::String)
    ensures
        r@ == uppercase(s@),
;

/// Whether two string slices hold the same text. The UTF-8 bytes are
/// compared; equal bytes spell equal texts and the other way round.
pub fn str_eq(a: &str, b: &str) -> (r: bool)
    ensures
        r == (a@ == b@),
{
    let x = a.as_bytes();
    let y = b.as_bytes();
    proof {
        vstd::utf8::encode_utf8_decode_utf8(a@);
        vstd::utf8::encode_utf8_decode_utf8(b@);
    }
    if x.len() != y.len() {
        return false;
    }
    let mut i: usize = 0;
    while i < x.len()
        invariant
            i <= x.len() == y.len(),
            x@ == a.spec_bytes(),
            y@ == b.spec_bytes(),
            forall|j: int| 0 <= j < i ==> x@[j] == y@[j],
        decreases x.len() - i,
    {
        if x[i] != y[i] {
            return false;
        }
        i = i + 1;
    }
    assert(x@ =~= y@);
    true
}

/// Whether `needle` occurs in `hay` as a run of consecutive characters.
pub open spec fn is_substring(needle: Seq<char>, hay: Seq<char>) -> bool {
    exists|i: int|
        0 <= i && i + needle.len() <= hay.len() && #[trigger] hay.subrange(
            i,
            i + needle.len(),
        ) == needle
}

/// Whether `needle` stands in `hay` at position `at`.
fn stands_at(hay: &Vec<char>, needle: &Vec<char>, at: usize) -> (r: bool)
    requires
        at + needle.len() <= hay.len(),
    ensures
        r == (hay@.subrange(at as int, at + needle.len()) == needle@),
{
    let mut j: usize = 0;
    while j < needle.len()
        invariant
            j <= needle.len(),
            at + needle.len() <= hay.len(),
            forall|k: int| 0 <= k < j ==> hay@[at + k] == needle@[k],
        decreases needle.len() - j,
    {
        if hay[at + j] != needle[j] {
            assert(hay@.subrange(at as int, at + needle.len())[j as int] != needle@[j as int]);
            return false;
        }
        j = j + 1;
    }
    assert(hay@.subrange(at as int, at + needle.len()) =~= needle@);
    true
}

/// Whether `needle` occurs in `hay`.
pub fn contains_chars(hay: &Vec<char>, needle: &Vec<char>) -> (r: bool)
    ensures
        r == is_substring(needle@, hay@),
{
    if needle.len() > hay.len() {
        return false;
    }
    let last = hay.len() - needle.len();
    let mut i: usize = 0;
    loop
        invariant
            i <= last,
            last == hay.len() - needle.len(),
            forall|k: int|
                0 <= k < i ==> #[trigger] hay@.subrange(k, k + needle.len()) != needle@,
        decreases last - i,
    {
        if stands_at(hay, needle, i) {
            return true;
        }
        if i == last {
            return false;
        }
        i = i + 1;
    }
}

/// Whether the text `needle` occurs in the text `hay`.
pub fn str_contains(hay: &str, needle: &str) -> (r: bool)
    ensures
        r == is_substring(needle@, hay@),
{
    contains_chars(&chars_of(hay), &chars_of(needle))
}

/// The texts of a sequence of strings.
pub open spec fn views(v: Seq<String>) -> Seq<Seq<char>> {
    Seq::new(v.len(), |i: int| v[i]@)
}

/// Position of the first `c` at or after `from`; the length if there is none.
pub open spec fn find_char(s: Seq<char>, c: char, from: int) -> int
    decreases s.len() - from,
{
    if from < 0 || from >= s.len() {
        s.len() as int
    } else if s[from] == c {
        from
    } else {
        find_char(s, c, from + 1)
    }
}

/// Position of the first whitespace at or after `from`; the length if there
/// is none.
pub open spec fn find_space(s: Seq<char>, from: int) -> int
    decreases s.len() - from,
{
    if from < 0 || from >= s.len() {
        s.len() as int
    } else if white_space(s[from]) {
        from
    } else {
        find_space(s, from + 1)
    }
}

/// Position of the first character at or after `from` that is no
/// whitespace; the length if there is none.
pub open spec fn skip_space(s: Seq<char>, from: int) -> int
    decreases s.len() - from,
{
    if from < 0 || from >= s.len() {
        s.len() as int
    } else if !white_space(s[from]) {
        from
    } else {
        skip_space(s, from + 1)
    }
}

/// End of the text once trailing whitespace before `end` is dropped.
pub open spec fn trim_end(s: Seq<char>, end: int) -> int
    decreases end,
{
    if end <= 0 || end > s.len() {
        0
    } else if !white_space(s[end - 1]) {
        end
    } else {
        trim_end(s, end - 1)
    }
}

/// The text without leading and trailing whitespace.
pub open spec fn trimmed(s: Seq<char>) -> Seq<char> {
    let a = skip_space(s, 0);
    let b = trim_end(s, s.len() as int);
    if a < b {
        s.subrange(a, b)
    } else {
        Seq::empty()
    }
}

pub proof fn lemma_find_char(s: Seq<char>, c: char, from: int)
    requires
        0 <= from <= s.len(),
    ensures
        from <= find_char(s, c, from) <= s.len(),
        find_char(s, c, from) < s.len() ==> s[find_char(s, c, from)] == c,
        forall|j: int| from <= j < find_char(s, c, from) ==> s[j] != c,
    decreases s.len() - from,
{
    if from < s.len() && s[from] != c {
        lemma_find_char(s, c, from + 1);
    }
}

pub proof fn lemma_find_space(s: Seq<char>, from: int)
    requires
        0 <= from <= s.len(),
    ensures
        from <= find_space(s, from) <= s.len(),
        find_space(s, from) < s.len() ==> white_space(s[find_space(s, from)]),
        forall|j: int| from <= j < find_space(s, from) ==> !white_space(s[j]),
    decreases s.len() - from,
{
    if from < s.len() && !white_space(s[from]) {
        lemma_find_space(s, from + 1);
    }
}

pub proof fn lemma_skip_space(s: Seq<char>, from: int)
    requires
        0 <= from <= s.len(),
    ensures
        from <= skip_space(s, from) <= s.len(),
        skip_space(s, from) < s.len() ==> !white_space(s[skip_space(s, from)]),
        forall|j: int| from <= j < skip_space(s, from) ==> white_space(s[j]),
    decreases s.len() - from,
{
    if from < s.len() && white_space(s[from]) {
        lemma_skip_space(s, from + 1);
    }
}

pub proof fn lemma_trim_end(s: Seq<char>, end: int)
    requires
        0 <= end <= s.len(),
    ensures
        0 <= trim_end(s, end) <= end,
        trim_end(s, end) > 0 ==> !white_space(s[trim_end(s, end) - 1]),
        forall|j: int| trim_end(s, end) <= j < end ==> white_space(s[j]),
    decreases end,
{
    if end > 0 && white_space(s[end - 1]) {
        lemma_trim_end(s, end - 1);
    }
}

/// A trimmed text is a stretch of the text between whitespace: it neither
/// starts nor ends with whitespace, and what was cut off at either end is
/// whitespace only.
pub proof fn lemma_trimmed(s: Seq<char>)
    ensures
        trimmed(s).len() > 0 ==> !white_space(trimmed(s).first()) && !white_space(
            trimmed(s).last(),
        ),
        exists|a: int, b: int|
            0 <= a <= b <= s.len() && trimmed(s) == #[trigger] s.subrange(a, b) && (forall|j: int|
                0 <= j < a ==> white_space(s[j])) && (forall|j: int|
                b <= j < s.len() ==> white_space(s[j])),
{
    let a = skip_space(s, 0);
    let b = trim_end(s, s.len() as int);
    lemma_skip_space(s, 0);
    lemma_trim_end(s, s.len() as int);
    if a < b {
        assert(trimmed(s) == s.subrange(a, b));
        assert(trimmed(s).first() == s[a]);
        assert(trimmed(s).last() == s[b - 1]);
    } else {
        // Nothing but whitespace: every position lies before `a` or from `b` on.
        assert(trimmed(s) =~= s.subrange(a, a));
        assert forall|j: int| a <= j < s.len() implies white_space(s[j]) by {
            assert(b <= j);
        }
    }
}

/// The characters of a string, in order.
pub fn chars_of(s: &str) -> (v: Vec<char>)
    ensures
        v@ == s@,
{
    let mut v: Vec<char> = Vec::new();
    for c in it: s.chars()
        invariant
            it.seq() == s@,
            v@ == s@.take(it.index()),
    {
        v.push(c);
        assert(v@ =~= s@.take(it.index() + 1));
    }
    assert(v@ =~= s@);
    v
}

/// The string made of the characters `from..to` of `chars`.
pub fn string_of(chars: &Vec<char>, from: usize, to: usize) -> (r: String)
    requires
        from <= to <= chars.len(),
    ensures
        r@ == chars@.subrange(from as int, to as int),
{
    let mut r = String::new();
    let mut i: usize = from;
    while i < to
        invariant
            from <= i <= to <= chars.len(),
            r@ == chars@.subrange(from as int, i as int),
        decreases to - i,
    {
        r.push(chars[i]);
        i = i + 1;
        assert(r@ =~= chars@.subrange(from as int, i as int));
    }
    r
}

/// Finds the first `c` at or after `from`.
pub fn find_char_from(chars: &Vec<char>, c: char, from: usize) -> (r: usize)
    requires
        from <= chars.len(),
    ensures
        r == find_char(chars@, c, from as int),
        from <= r <= chars.len(),
{
    let mut i: usize = from;
    while i < chars.len() && chars[i] != c
        invariant
            from <= i <= chars.len(),
            find_char(chars@, c, from as int) == find_char(chars@, c, i as int),
        decreases chars.len() - i,
    {
        i = i + 1;
    }
    i
}

/// Finds the first whitespace at or after `from`.
pub fn find_space_from(chars: &Vec<char>, from: usize) -> (r: usize)
    requires
        from <= chars.len(),
    ensures
        r == find_space(chars@, from as int),
        from <= r <= chars.len(),
{
    let mut i: usize = from;
    while i < chars.len() && !chars[i].is_whitespace()
        invariant
            from <= i <= chars.len(),
            find_space(chars@, from as int) == find_space(chars@, i as int),
        decreases chars.len() - i,
    {
        i = i + 1;
    }
    i
}

/// Finds the first character at or after `from` that is no whitespace.
pub fn skip_space_from(chars: &Vec<char>, from: usize) -> (r: usize)
    requires
        from <= chars.len(),
    ensures
        r == skip_space(chars@, from as int),
        from <= r <= chars.len(),
{
    let mut i: usize = from;
    while i < chars.len() && chars[i].is_whitespace()
        invariant
            from <= i <= chars.len(),
            skip_space(chars@, from as int) == skip_space(chars@, i as int),
        decreases chars.len() - i,
    {
        i = i + 1;
    }
    i
}

/// Drops trailing whitespace before `end`.
pub fn trim_end_at(chars: &Vec<char>, end: usize) -> (r: usize)
    requires
        end <= chars.len(),
    ensures
        r == trim_end(chars@, end as int),
        r <= end,
{
    let mut i: usize = end;
    while i > 0 && chars[i - 1].is_whitespace()
        invariant
            i <= end <= chars.len(),
            trim_end(chars@, end as int) == trim_end(chars@, i as int),
        decreases i,
    {
        i = i - 1;
    }
    i
}

/// The characters of `s` without leading and trailing whitespace.
pub fn trim_chars(s: &str) -> (v: Vec<char>)
    ensures
        v@ == trimmed(s@),
{
    let chars = chars_of(s);
    let a = skip_space_from(&chars, 0);
    let b = trim_end_at(&chars, chars.len());
    let mut v: Vec<char> = Vec::new();
    if a < b {
        let mut i: usize = a;
        while i < b
            invariant
                a <= i <= b <= chars.len(),
                v@ == chars@.subrange(a as int, i as int),
            decreases b - i,
        {
            v.push(chars[i]);
            i = i + 1;
            assert(v@ =~= chars@.subrange(a as int, i as int));
        }
    }
    v
}

/// The pieces of a text from position `from` on: what stands between the
/// occurrences of `sep`. A text without `sep` is one piece.
pub open spec fn pieces(s: Seq<char>, sep: char, from: int) -> Seq<Seq<char>>
    decreases s.len() - from,
{
    if from < 0 || from > s.len() {
        Seq::empty()
    } else {
        let at = find_char(s, sep, from);
        proof {
            lemma_find_char(s, sep, from);
        }
        if at >= s.len() {
            seq![s.subrange(from, s.len() as int)]
        } else {
            seq![s.subrange(from, at)] + pieces(s, sep, at + 1)
        }
    }
}

/// Splits a text at every `sep`.
pub fn split_on(s: &str, sep: char) -> (r: Vec<String>)
    ensures
        views(r@) == pieces(s@, sep, 0),
{
    let chars = chars_of(s);
    let mut r: Vec<String> = Vec::new();
    let mut from: usize = 0;
    loop
        invariant
            from <= chars.len(),
            chars@ == s@,
            views(r@) + pieces(chars@, sep, from as int) == pieces(chars@, sep, 0),
        decreases chars.len() - from,
    {
        let at = find_char_from(&chars, sep, from);
        let ghost before = views(r@);
        r.push(string_of(&chars, from, at));
        assert(views(r@) =~= before + seq![chars@.subrange(from as int, at as int)]);
        if at >= chars.len() {
            assert(views(r@) =~= pieces(chars@, sep, 0));
            return r;
        }
        proof {
            lemma_find_char(chars@, sep, from as int);
            assert(views(r@) + pieces(chars@, sep, at + 1) =~= before + pieces(
                chars@,
                sep,
                from as int,
            ));
        }
        from = at + 1;
    }
}

/// Searching in a text after a prefix is searching in the rest.
pub proof fn lemma_find_char_after(a: Seq<char>, b: Seq<char>, c: char, from: int)
    requires
        0 <= from <= b.len(),
    ensures
        find_char(a + b, c, a.len() + from) == a.len() + find_char(b, c, from),
    decreases b.len() - from,
{
    let s = a + b;
    if from < b.len() {
        assert(s[a.len() + from] == b[from]);
        if b[from] != c {
            lemma_find_char_after(a, b, c, from + 1);
        }
    }
}

/// The pieces of a text after a prefix are the pieces of the rest.
pub proof fn lemma_pieces_after(a: Seq<char>, b: Seq<char>, sep: char, from: int)
    requires
        0 <= from <= b.len(),
    ensures
        pieces(a + b, sep, a.len() + from) == pieces(b, sep, from),
    decreases b.len() - from,
{
    let s = a + b;
    lemma_find_char_after(a, b, sep, from);
    lemma_find_char(b, sep, from);
    let at = find_char(b, sep, from);
    if at >= b.len() {
        assert(s.subrange(a.len() + from, s.len() as int) =~= b.subrange(from, b.len() as int));
    } else {
        assert(s.subrange(a.len() + from, a.len() + at) =~= b.subrange(from, at));
        lemma_pieces_after(a, b, sep, at + 1);
    }
}

/// A text that begins with a line and the separator has the line as its
/// first piece, and after it the pieces of what follows.
pub proof fn lemma_first_piece(line: Seq<char>, sep: char, rest: Seq<char>)
    requires
        !line.contains(sep),
    ensures
        pieces(line.push(sep) + rest, sep, 0) == seq![line] + pieces(rest, sep, 0),
{
    let a = line.push(sep);
    let s = a + rest;
    lemma_find_char(s, sep, 0);
    let at = find_char(s, sep, 0);
    assert(s[line.len() as int] == sep);
    if at < line.len() {
        assert(s[at] == line[at]);
        assert(line.contains(line[at]));
    }
    assert(at == line.len());
    assert(s.subrange(0, at) =~= line);
    lemma_pieces_after(a, rest, sep, 0);
}

/// The decimal digits of a number.
pub open spec fn decimal_text(n: nat) -> Seq<char>
    decreases n,
{
    if n < 10 {
        seq![digit_char(n)]
    } else {
        decimal_text(n / 10).push(digit_char(n % 10))
    }
}

/// The character of a digit.
pub open spec fn digit_char(d: nat) -> char {
    if d == 0 {
        '0'
    } else if d == 1 {
        '1'
    } else if d == 2 {
        '2'
    } else if d == 3 {
        '3'
    } else if d == 4 {
        '4'
    } else if d == 5 {
        '5'
    } else if d == 6 {
        '6'
    } else if d == 7 {
        '7'
    } else if d == 8 {
        '8'
    } else {
        '9'
    }
}

fn digit_to_char(d: u64) -> (c: char)
    requires
        d < 10,
    ensures
        c == digit_char(d as nat),
{
    if d == 0 {
        '0'
    } else if d == 1 {
        '1'
    } else if d == 2 {
        '2'
    } else if d == 3 {
        '3'
    } else if d == 4 {
        '4'
    } else if d == 5 {
        '5'
    } else if d == 6 {
        '6'
    } else if d == 7 {
        '7'
    } else if d == 8 {
        '8'
    } else {
        '9'
    }
}

/// Appends the decimal digits of `n` to `out`.
pub fn push_decimal(out: &mut String, n: u64)
    ensures
        final(out)@ == old(out)@ + decimal_text(n as nat),
    decreases n,
{
    if n >= 10 {
        push_decimal(out, n / 10);
    }
    out.push(digit_to_char(n % 10));
    proof {
        if n < 10 {
            assert(final(out)@ =~= old(out)@ + seq![digit_char(n as nat)]);
        } else {
            assert(final(out)@ =~= old(out)@ + decimal_text(n as nat / 10).push(
                digit_char(n as nat % 10),
            ));
        }
    }
}

/// Appends `s` to `out`.
pub fn push_text(out: &mut String, s: &str)
    ensures
        final(out)@ == old(out)@ + s@,
{
    for c in it: s.chars()
        invariant
            it.seq() == s@,
            out@ == old(out)@ + s@.take(it.index()),
    {
        out.push(c);
        assert(out@ =~= old(out)@ + s@.take(it.index() + 1));
    }
    assert(s@.take(s@.len() as int) =~= s@);
}

} // verus!
