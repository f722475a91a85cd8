//! Text as a sequence of characters: trimming, searching, joining, and the
//! decimal and hexadecimal forms of numbers.
use vstd::prelude::*;

verus! {

// ---------------------------------------------------------------------------
// Standard library functions
// ---------------------------------------------------------------------------

/// `String::push` puts one character behind the text.
pub assume_specification[ String::push ](s: &mut String, c: char)
    ensures
        final(s)@ == old(s)@.push(c),
;

/// The upper-case form that `str::to_uppercase` gives a text.
pub uninterp spec fn uppercase_of(s: Seq<char>) -> Seq<char>;

/// The lower-case form that `str::to_lowercase` gives a text.
pub uninterp spec fn lowercase_of(s: Seq<char>) -> Seq<char>;

/// One ASCII letter in upper case; any other character as it is.
pub open spec fn ascii_upper(c: char) -> char {
    if 'a' <= c && c <= 'z' {
        (c as u32 - 32) as char
    } else {
        c
    }
}

/// One ASCII letter in lower case; any other character as it is.
pub open spec fn ascii_lower(c: char) -> char {
    if 'A' <= c && c <= 'Z' {
        (c as u32 + 32) as char
    } else {
        c
    }
}

/// A text with its ASCII letters in upper case.
pub open spec fn raised(s: Seq<char>) -> Seq<char> {
    Seq::new(s.len(), |i: int| ascii_upper(s[i]))
}

/// A text with its ASCII letters in lower case.
pub open spec fn lowered(s: Seq<char>) -> Seq<char> {
    Seq::new(s.len(), |i: int| ascii_lower(s[i]))
}

/// `str::to_uppercase`: the result depends on the text alone, and on a text of
/// ASCII characters it raises the letters `a` to `z` and nothing else.
#[verifier::external_body]
pub(crate) fn to_uppercase(s: &str) -> (r: String)
    ensures
        r@ == uppercase_of(s@),
        vstd::utf8::is_ascii_chars(s@) ==> r@ == raised(s@),
{
    s.to_uppercase()
}

/// `str::to_lowercase`: the result depends on the text alone, and on a text of
/// ASCII characters it lowers the letters `A` to `Z` and nothing else.
#[verifier::external_body]
pub(crate) fn to_lowercase(s: &str) -> (r: String)
    ensures
        r@ == lowercase_of(s@),
        vstd::utf8::is_ascii_chars(s@) ==> r@ == lowered(s@),
{
    s.to_lowercase()
}

// ---------------------------------------------------------------------------
// Characters and strings
// ---------------------------------------------------------------------------

/// The characters of a text, in order.
pub fn chars_of(s: &str) -> (v: Vec<char>)
    ensures
        v@ == s@,
{
    let mut v: Vec<char> = Vec::new();
    for c in it: s.chars()
        invariant
            v@ == it.seq().take(it.index()),
            it.seq() == s@,
    {
        v.push(c);
    }
    v
}

/// The text made of the characters `v[from..to]`.
pub fn string_of(v: &Vec<char>, from: usize, to: usize) -> (s: String)
    requires
        from <= to <= v@.len(),
    ensures
        s@ == v@.subrange(from as int, to as int),
{
    let mut s = String::new();
    let mut i: usize = from;
    while i < to
        invariant
            from <= i <= to <= v@.len(),
            s@ == v@.subrange(from as int, i as int),
        decreases to - i,
    {
        s.push(v[i]);
        i = i + 1;
        assert(v@.subrange(from as int, i as int) == v@.subrange(from as int, i - 1).push(
            v@[i - 1],
        ));
    }
    s
}

/// Whether two texts hold the same characters.
pub fn same_text(a: &str, b: &str) -> (r: bool)
    ensures
        r == (a@ == b@),
{
    let x = chars_of(a);
    let y = chars_of(b);
    if x.len() != y.len() {
        return false;
    }
    let mut i: usize = 0;
    while i < x.len()
        invariant
            i <= x@.len(),
            x@.len() == y@.len(),
            forall|j: int| 0 <= j < i ==> x@[j] == y@[j],
            x@ == a@,
            y@ == b@,
        decreases x@.len() - i,
    {
        if x[i] != y[i] {
            return false;
        }
        i = i + 1;
    }
    assert(x@ =~= y@);
    true
}

/// The texts `a` and `b`, one behind the other.
pub fn join2(a: &str, b: &str) -> (r: String)
    ensures
        r@ == a@ + b@,
{
    let mut r = String::new();
    r.append(a);
    r.append(b);
    assert(r@ =~= a@ + b@);
    r
}

// ---------------------------------------------------------------------------
// Blanks
// ---------------------------------------------------------------------------

/// The characters with the Unicode property `White_Space`.
pub open spec fn is_whitespace(c: char) -> bool {
    ||| '\u{9}' <= c <= '\u{d}'
    ||| c == ' '
    ||| c == '\u{85}'
    ||| c == '\u{a0}'
    ||| c == '\u{1680}'
    ||| '\u{2000}' <= c <= '\u{200a}'
    ||| c == '\u{2028}'
    ||| c == '\u{2029}'
    ||| c == '\u{202f}'
    ||| c == '\u{205f}'
    ||| c == '\u{3000}'
}

/// Whether `c` is a blank.
pub fn whitespace(c: char) -> (r: bool)
    ensures
        r == is_whitespace(c),
{
    ('\u{9}' <= c && c <= '\u{d}') || c == ' ' || c == '\u{85}' || c == '\u{a0}' || c == '\u{1680}'
        || ('\u{2000}' <= c && c <= '\u{200a}') || c == '\u{2028}' || c == '\u{2029}' || c
        == '\u{202f}' || c == '\u{205f}' || c == '\u{3000}'
}

/// What is stripped from the ends of a text.
#[derive(Clone, Copy, PartialEq, Eq, Structural, Debug)]
pub enum Fringe {
    /// Blanks.
    Blanks,
    /// Double quotes.
    Quotes,
}

impl Fringe {
    /// Whether `c` belongs to the fringe.
    pub open spec fn has(self, c: char) -> bool {
        match self {
            Fringe::Blanks => is_whitespace(c),
            Fringe::Quotes => c == '"',
        }
    }

    fn holds(self, c: char) -> (r: bool)
        ensures
            r == self.has(c),
    {
        match self {
            Fringe::Blanks => whitespace(c),
            Fringe::Quotes => c == '"',
        }
    }
}

/// `s` without the fringe at its front.
pub open spec fn strip_start(s: Seq<char>, fringe: Fringe) -> Seq<char>
    decreases s.len(),
{
    if s.len() > 0 && fringe.has(s.first()) {
        strip_start(s.drop_first(), fringe)
    } else {
        s
    }
}

/// `s` without the fringe at its end.
pub open spec fn strip_end(s: Seq<char>, fringe: Fringe) -> Seq<char>
    decreases s.len(),
{
    if s.len() > 0 && fringe.has(s.last()) {
        strip_end(s.drop_last(), fringe)
    } else {
        s
    }
}

/// `s` without the fringe at its two ends.
pub open spec fn strip(s: Seq<char>, fringe: Fringe) -> Seq<char> {
    strip_end(strip_start(s, fringe), fringe)
}

/// `s` without the blanks at its two ends.
pub open spec fn trim(s: Seq<char>) -> Seq<char> {
    strip(s, Fringe::Blanks)
}

/// Whether `s` consists of blanks.
pub open spec fn all_blanks(s: Seq<char>) -> bool {
    forall|i: int| 0 <= i < s.len() ==> is_whitespace(#[trigger] s[i])
}

proof fn lemma_strip_start_blanks(front: Seq<char>, s: Seq<char>)
    requires
        all_blanks(front),
    ensures
        strip_start(front + s, Fringe::Blanks) == strip_start(s, Fringe::Blanks),
    decreases front.len(),
{
    if front.len() == 0 {
        assert(front + s =~= s);
    } else {
        assert(is_whitespace(front[0]));
        assert((front + s).drop_first() =~= front.drop_first() + s);
        lemma_strip_start_blanks(front.drop_first(), s);
    }
}

proof fn lemma_strip_end_blanks(s: Seq<char>, back: Seq<char>)
    requires
        all_blanks(back),
    ensures
        strip_end(s + back, Fringe::Blanks) == strip_end(s, Fringe::Blanks),
    decreases back.len(),
{
    if back.len() == 0 {
        assert(s + back =~= s);
    } else {
        assert(is_whitespace(back[back.len() - 1]));
        assert((s + back).drop_last() =~= s + back.drop_last());
        lemma_strip_end_blanks(s, back.drop_last());
    }
}

proof fn lemma_strip_start_before(s: Seq<char>, back: Seq<char>)
    requires
        all_blanks(back),
    ensures
        strip_end(strip_start(s + back, Fringe::Blanks), Fringe::Blanks) == trim(s),
    decreases s.len(),
{
    if s.len() == 0 {
        lemma_strip_start_blanks(back, s);
        assert(s + back =~= back + s);
    } else if is_whitespace(s.first()) {
        assert((s + back).drop_first() =~= s.drop_first() + back);
        lemma_strip_start_before(s.drop_first(), back);
    } else {
        lemma_strip_end_blanks(s, back);
    }
}

/// Blanks around a text are trimmed away, however many there are.
pub proof fn law_trim_ignores_outer_blanks(front: Seq<char>, s: Seq<char>, back: Seq<char>)
    requires
        all_blanks(front),
        all_blanks(back),
    ensures
        trim(front + s + back) == trim(s),
{
    assert(front + s + back =~= front + (s + back));
    lemma_strip_start_blanks(front, s + back);
    lemma_strip_start_before(s, back);
}

proof fn lemma_trim_raised(s: Seq<char>)
    ensures
        trim(raised(s)) == raised(trim(s)),
{
    lemma_strip_start_raised(s);
    lemma_strip_end_raised(strip_start(s, Fringe::Blanks));
}

proof fn lemma_strip_start_raised(s: Seq<char>)
    ensures
        strip_start(raised(s), Fringe::Blanks) == raised(strip_start(s, Fringe::Blanks)),
    decreases s.len(),
{
    if s.len() > 0 && is_whitespace(s.first()) {
        assert(raised(s).drop_first() =~= raised(s.drop_first()));
        lemma_strip_start_raised(s.drop_first());
    }
}

proof fn lemma_strip_end_raised(s: Seq<char>)
    ensures
        strip_end(raised(s), Fringe::Blanks) == raised(strip_end(s, Fringe::Blanks)),
    decreases s.len(),
{
    if s.len() > 0 && is_whitespace(s.last()) {
        assert(raised(s).drop_last() =~= raised(s.drop_last()));
        lemma_strip_end_raised(s.drop_last());
    }
}

/// Texts that differ in the case of ASCII letters alone still do so once they
/// are trimmed.
pub proof fn law_trim_ignores_case(a: Seq<char>, b: Seq<char>)
    requires
        raised(a) == raised(b),
    ensures
        raised(trim(a)) == raised(trim(b)),
{
    lemma_trim_raised(a);
    lemma_trim_raised(b);
}

/// What is left of an ASCII text once it is trimmed is ASCII text.
pub proof fn lemma_trim_is_ascii(s: Seq<char>)
    requires
        vstd::utf8::is_ascii_chars(s),
    ensures
        vstd::utf8::is_ascii_chars(trim(s)),
{
    lemma_strip_start_is_ascii(s);
    lemma_strip_end_is_ascii(strip_start(s, Fringe::Blanks));
}

proof fn lemma_strip_start_is_ascii(s: Seq<char>)
    requires
        vstd::utf8::is_ascii_chars(s),
    ensures
        vstd::utf8::is_ascii_chars(strip_start(s, Fringe::Blanks)),
    decreases s.len(),
{
    if s.len() > 0 && is_whitespace(s.first()) {
        lemma_strip_start_is_ascii(s.drop_first());
    }
}

proof fn lemma_strip_end_is_ascii(s: Seq<char>)
    requires
        vstd::utf8::is_ascii_chars(s),
    ensures
        vstd::utf8::is_ascii_chars(strip_end(s, Fringe::Blanks)),
    decreases s.len(),
{
    if s.len() > 0 && is_whitespace(s.last()) {
        lemma_strip_end_is_ascii(s.drop_last());
    }
}

/// Where the text behind the fringe at the front of `v` begins.
fn front_end(v: &Vec<char>, fringe: Fringe) -> (i: usize)
    ensures
        i <= v@.len(),
        strip_start(v@, fringe) == v@.skip(i as int),
{
    let mut i: usize = 0;
    assert(v@.skip(0) =~= v@);
    while i < v.len() && fringe.holds(v[i])
        invariant
            i <= v@.len(),
            strip_start(v@, fringe) == strip_start(v@.skip(i as int), fringe),
        decreases v@.len() - i,
    {
        assert(v@.skip(i as int).drop_first() =~= v@.skip(i + 1));
        i = i + 1;
    }
    i
}

/// Strips the fringe from the two ends of a text.
pub fn strip_text(s: &str, fringe: Fringe) -> (r: String)
    ensures
        r@ == strip(s@, fringe),
{
    let v = chars_of(s);
    let from = front_end(&v, fringe);
    let mut to: usize = v.len();
    assert(v@.subrange(from as int, to as int) =~= v@.skip(from as int));
    while from < to && fringe.holds(v[to - 1])
        invariant
            from <= to <= v@.len(),
            strip(s@, fringe) == strip_end(v@.subrange(from as int, to as int), fringe),
        decreases to,
    {
        assert(v@.subrange(from as int, to as int).drop_last() =~= v@.subrange(
            from as int,
            to - 1,
        ));
        to = to - 1;
    }
    string_of(&v, from, to)
}

/// The number of characters in front of the first blank of `s`.
pub open spec fn word_len(s: Seq<char>) -> nat
    decreases s.len(),
{
    if s.len() == 0 || is_whitespace(s.first()) {
        0
    } else {
        1 + word_len(s.drop_first())
    }
}

/// The first word of a text: what stands in front of the first blank behind
/// the leading blanks. A text of blanks has none.
pub open spec fn word_at_front(s: Seq<char>) -> Option<Seq<char>> {
    let rest = strip_start(s, Fringe::Blanks);
    if rest.len() == 0 {
        None
    } else {
        Some(rest.take(word_len(rest) as int))
    }
}

/// The first word of a text, if it has one.
pub fn first_word(s: &str) -> (r: Option<String>)
    ensures
        match r {
            Some(word) => word_at_front(s@) == Some(word@),
            None => word_at_front(s@) is None,
        },
{
    let v = chars_of(s);
    let from = front_end(&v, Fringe::Blanks);
    if from == v.len() {
        return None;
    }
    let ghost rest = v@.skip(from as int);
    let mut to: usize = from;
    assert(rest.skip(0) =~= rest);
    while to < v.len() && !whitespace(v[to])
        invariant
            from <= to <= v@.len(),
            rest == v@.skip(from as int),
            word_len(rest) == (to - from) + word_len(rest.skip(to - from)),
        decreases v@.len() - to,
    {
        assert(rest.skip(to - from).drop_first() =~= rest.skip(to + 1 - from));
        to = to + 1;
    }
    assert(v@.subrange(from as int, to as int) =~= rest.take(to - from));
    Some(string_of(&v, from, to))
}

// ---------------------------------------------------------------------------
// Searching
// ---------------------------------------------------------------------------

/// Whether `pattern` stands in `s` at position `i`.
pub open spec fn stands_at(s: Seq<char>, pattern: Seq<char>, i: int) -> bool {
    &&& 0 <= i
    &&& i + pattern.len() <= s.len()
    &&& s.subrange(i, i + pattern.len()) == pattern
}

/// Where `pattern` first stands in `s`, from position `i` on.
pub open spec fn find_from(s: Seq<char>, pattern: Seq<char>, i: int) -> Option<int>
    decreases s.len() - i,
{
    if i + pattern.len() > s.len() {
        None
    } else if stands_at(s, pattern, i) {
        Some(i)
    } else {
        proof {
            assert(i == s.len() ==> s.subrange(i, i + pattern.len()) =~= pattern);
        }
        find_from(s, pattern, i + 1)
    }
}

/// Where `pattern` first stands in `s`.
pub open spec fn find(s: Seq<char>, pattern: Seq<char>) -> Option<int> {
    find_from(s, pattern, 0)
}

/// A pattern is found at the first position where it stands.
pub proof fn lemma_found_at(s: Seq<char>, pattern: Seq<char>, i: int, at: int)
    requires
        0 <= i <= at,
        stands_at(s, pattern, at),
        forall|j: int| i <= j < at ==> !stands_at(s, pattern, j),
    ensures
        find_from(s, pattern, i) == Some(at),
    decreases at - i,
{
    if i < at {
        lemma_found_at(s, pattern, i + 1, at);
    }
}

/// A pattern that stands nowhere is not found.
pub proof fn lemma_not_found(s: Seq<char>, pattern: Seq<char>, i: int)
    requires
        0 <= i,
        forall|j: int| i <= j ==> !stands_at(s, pattern, j),
    ensures
        find_from(s, pattern, i) is None,
    decreases s.len() - i,
{
    if i + pattern.len() <= s.len() {
        assert(i == s.len() ==> s.subrange(i, i + pattern.len()) =~= pattern);
        assert(!stands_at(s, pattern, i));
        lemma_not_found(s, pattern, i + 1);
    }
}

/// Whether `pattern` stands in `s` at position `i`.
pub fn matches_at(s: &Vec<char>, pattern: &Vec<char>, i: usize) -> (r: bool)
    ensures
        r == stands_at(s@, pattern@, i as int),
{
    let n: usize = s.len();
    if i > n || pattern.len() > n - i {
        return false;
    }
    let mut k: usize = 0;
    while k < pattern.len()
        invariant
            k <= pattern@.len(),
            i + pattern@.len() <= n == s@.len(),
            forall|j: int| 0 <= j < k ==> s@[i + j] == pattern@[j],
        decreases pattern@.len() - k,
    {
        if s[i + k] != pattern[k] {
            assert(s@.subrange(i as int, i + pattern@.len())[k as int] != pattern@[k as int]);
            return false;
        }
        k = k + 1;
    }
    assert(s@.subrange(i as int, i + pattern@.len()) =~= pattern@);
    true
}

/// Where `pattern` first stands in `s`, if it stands there at all.
pub fn find_text(s: &Vec<char>, pattern: &Vec<char>) -> (r: Option<usize>)
    ensures
        match r {
            Some(i) => find(s@, pattern@) == Some(i as int) && i + pattern@.len() <= s@.len(),
            None => find(s@, pattern@) is None,
        },
{
    if pattern.len() > s.len() {
        return None;
    }
    let last: usize = s.len() - pattern.len();
    let mut i: usize = 0;
    loop
        invariant
            pattern@.len() <= s@.len(),
            last == s@.len() - pattern@.len(),
            i <= last,
            find(s@, pattern@) == find_from(s@, pattern@, i as int),
        decreases last - i,
    {
        if matches_at(s, pattern, i) {
            return Some(i);
        }
        if i == last {
            assert(find_from(s@, pattern@, i + 1) is None);
            return None;
        }
        i = i + 1;
    }
}

/// `s` without `pattern` at its front, as often as it stands there.
pub open spec fn strip_prefixes(s: Seq<char>, pattern: Seq<char>) -> Seq<char>
    decreases s.len(),
{
    if pattern.len() > 0 && stands_at(s, pattern, 0) {
        strip_prefixes(s.skip(pattern.len() as int), pattern)
    } else {
        s
    }
}

/// Takes `pattern` off the front of a text until it no longer stands there.
pub fn strip_prefixes_text(s: &str, pattern: &str) -> (r: String)
    ensures
        r@ == strip_prefixes(s@, pattern@),
{
    let v = chars_of(s);
    let p = chars_of(pattern);
    let n: usize = v.len();
    let mut from: usize = 0;
    assert(v@.skip(0) =~= v@);
    if p.len() > 0 {
        while matches_at(&v, &p, from)
            invariant
                p@ == pattern@,
                v@ == s@,
                p@.len() > 0,
                from <= n == v@.len(),
                strip_prefixes(s@, pattern@) == strip_prefixes(v@.skip(from as int), pattern@),
            ensures
                p@.len() > 0,
                from <= v@.len(),
                strip_prefixes(s@, pattern@) == strip_prefixes(v@.skip(from as int), pattern@),
                !stands_at(v@, p@, from as int),
            decreases v@.len() - from,
        {
            proof {
                let rest = v@.skip(from as int);
                assert(rest.subrange(0, p@.len() as int) =~= v@.subrange(
                    from as int,
                    from + p@.len(),
                ));
                assert(rest.skip(p@.len() as int) =~= v@.skip(from + p@.len()));
            }
            from = from + p.len();
        }
        proof {
            let rest = v@.skip(from as int);
            if stands_at(rest, p@, 0) {
                assert(rest.subrange(0, p@.len() as int) =~= v@.subrange(
                    from as int,
                    from + p@.len(),
                ));
            }
        }
    }
    assert(v@.subrange(from as int, v@.len() as int) =~= v@.skip(from as int));
    string_of(&v, from, v.len())
}

/// `s` with `to` written for every `from`.
pub open spec fn replaced(s: Seq<char>, from: char, to: char) -> Seq<char> {
    Seq::new(s.len(), |i: int| if s[i] == from { to } else { s[i] })
}

/// Writes `to` for every `from` in a text.
pub fn replace_char(s: &str, from: char, to: char) -> (r: String)
    ensures
        r@ == replaced(s@, from, to),
{
    let v = chars_of(s);
    let mut r = String::new();
    let mut i: usize = 0;
    while i < v.len()
        invariant
            i <= v@.len(),
            r@ == replaced(v@, from, to).take(i as int),
        decreases v@.len() - i,
    {
        if v[i] == from {
            r.push(to);
        } else {
            r.push(v[i]);
        }
        i = i + 1;
        assert(r@ =~= replaced(v@, from, to).take(i as int));
    }
    assert(r@ =~= replaced(s@, from, to));
    r
}

// ---------------------------------------------------------------------------
// Numbers
// ---------------------------------------------------------------------------

/// The decimal digit of `d`.
pub open spec fn digit_char(d: nat) -> char {
    (48 + d) as char
}

/// The decimal form of `n`, without leading zeros.
pub open spec fn decimal(n: nat) -> Seq<char>
    decreases n,
{
    if n < 10 {
        seq![digit_char(n)]
    } else {
        decimal(n / 10).push(digit_char(n % 10))
    }
}

/// Writes a number in decimal.
pub fn decimal_text(n: u64) -> (r: String)
    ensures
        r@ == decimal(n as nat),
    decreases n,
{
    if n < 10 {
        let mut r = String::new();
        r.push((48 + n as u8) as char);
        assert(r@ =~= seq![digit_char(n as nat)]);
        r
    } else {
        let mut r = decimal_text(n / 10);
        r.push((48 + (n % 10) as u8) as char);
        r
    }
}

/// Whether `c` is a decimal digit.
pub open spec fn is_digit(c: char) -> bool {
    '0' <= c <= '9'
}

/// The number that a sequence of decimal digits stands for.
pub open spec fn digits_value(s: Seq<char>) -> nat
    decreases s.len(),
{
    if s.len() == 0 {
        0
    } else {
        10 * digits_value(s.drop_last()) + (s.last() as nat - 48) as nat
    }
}

/// Whether `s` consists of decimal digits.
pub open spec fn all_digits(s: Seq<char>) -> bool {
    forall|i: int| 0 <= i < s.len() ==> is_digit(#[trigger] s[i])
}

/// The text behind a plus sign at the front, if there is one.
pub open spec fn behind_plus(s: Seq<char>) -> Seq<char> {
    if s.len() > 0 && s.first() == '+' {
        s.drop_first()
    } else {
        s
    }
}

/// A whole number as it is read from text: digits, at least one, that a plus
/// sign may precede, with a value of at most 64 bits.
pub open spec fn whole_number(s: Seq<char>) -> Option<u64> {
    let digits = behind_plus(s);
    if digits.len() > 0 && all_digits(digits) && digits_value(digits) <= u64::MAX {
        Some(digits_value(digits) as u64)
    } else {
        None
    }
}

proof fn lemma_digits_value_grows(s: Seq<char>, i: int)
    requires
        0 <= i <= s.len(),
    ensures
        digits_value(s.take(i)) <= digits_value(s),
    decreases s.len(),
{
    if i == s.len() {
        assert(s.take(i) =~= s);
    } else {
        lemma_digits_value_grows(s.drop_last(), i);
        assert(s.drop_last().take(i) =~= s.take(i));
    }
}

/// Reads a whole number.
pub fn parse_whole_number(s: &str) -> (r: Option<u64>)
    ensures
        r == whole_number(s@),
{
    let v = chars_of(s);
    let from: usize = if v.len() > 0 && v[0] == '+' { 1 } else { 0 };
    let ghost digits = v@.skip(from as int);
    assert(digits =~= behind_plus(s@));
    if from == v.len() {
        return None;
    }
    let mut value: u64 = 0;
    let mut i: usize = from;
    assert(digits.take(0).len() == 0);
    while i < v.len()
        invariant
            from <= i <= v@.len(),
            from < v@.len(),
            digits == v@.skip(from as int),
            digits == behind_plus(s@),
            forall|j: int| 0 <= j < i - from ==> is_digit(#[trigger] digits[j]),
            value == digits_value(digits.take(i - from)),
        decreases v@.len() - i,
    {
        let c = v[i];
        assert(digits[i - from] == c);
        if !('0' <= c && c <= '9') {
            assert(!is_digit(digits[i - from]));
            return None;
        }
        let d: u64 = c as u64 - 48;
        proof {
            let longer = digits.take(i + 1 - from);
            assert(longer.drop_last() =~= digits.take(i - from));
            lemma_digits_value_grows(digits, i + 1 - from);
        }
        if value > (u64::MAX - d) / 10 {
            return None;
        }
        value = value * 10 + d;
        i = i + 1;
    }
    assert(digits.take(i - from) =~= digits);
    Some(value)
}

/// The decimal form of a number consists of digits, at least one.
pub proof fn lemma_decimal(n: nat)
    ensures
        decimal(n).len() > 0,
        all_digits(decimal(n)),
        digits_value(decimal(n)) == n,
    decreases n,
{
    if n < 10 {
        reveal_with_fuel(digits_value, 2);
        assert(decimal(n).last() as nat == 48 + n);
    } else {
        lemma_decimal(n / 10);
        assert(decimal(n).drop_last() =~= decimal(n / 10));
        assert(decimal(n).last() as nat == 48 + n % 10);
    }
}

/// The decimal form of a number reads back as that number.
pub proof fn law_decimal_reads_back(n: u64)
    ensures
        whole_number(decimal(n as nat)) == Some(n),
{
    lemma_decimal(n as nat);
    let s = decimal(n as nat);
    assert(is_digit(s[0]));
    assert(behind_plus(s) == s);
}

/// Different numbers have different decimal forms.
pub proof fn law_decimal_is_injective(m: nat, n: nat)
    requires
        decimal(m) == decimal(n),
    ensures
        m == n,
{
    lemma_decimal(m);
    lemma_decimal(n);
}

/// The lower-case hexadecimal digit of `d`.
pub open spec fn hex_char(d: nat) -> char {
    if d < 10 {
        (48 + d) as char
    } else {
        (87 + d) as char
    }
}

/// The hexadecimal form of a sequence of bytes, two lower-case digits each.
pub open spec fn hex(bytes: Seq<u8>) -> Seq<char> {
    Seq::new(
        2 * bytes.len(),
        |i: int|
            if i % 2 == 0 {
                hex_char((bytes[i / 2] / 16) as nat)
            } else {
                hex_char((bytes[i / 2] % 16) as nat)
            },
    )
}

/// The hexadecimal form of bytes is ASCII text.
pub proof fn lemma_hex_is_ascii(bytes: Seq<u8>)
    ensures
        vstd::utf8::is_ascii_chars(hex(bytes)),
{
}

fn hex_digit(d: u8) -> (c: char)
    requires
        d < 16,
    ensures
        c == hex_char(d as nat),
{
    if d < 10 {
        (48 + d) as char
    } else {
        (87 + d) as char
    }
}

/// Writes bytes in hexadecimal.
pub fn hex_text(bytes: &Vec<u8>) -> (r: String)
    ensures
        r@ == hex(bytes@),
{
    let mut r = String::new();
    let mut i: usize = 0;
    while i < bytes.len()
        invariant
            i <= bytes@.len(),
            r@ == hex(bytes@.take(i as int)),
        decreases bytes@.len() - i,
    {
        r.push(hex_digit(bytes[i] / 16));
        r.push(hex_digit(bytes[i] % 16));
        i = i + 1;
        assert(r@ =~= hex(bytes@.take(i as int)));
    }
    assert(bytes@.take(i as int) =~= bytes@);
    r
}

// ---------------------------------------------------------------------------
// Order
// ---------------------------------------------------------------------------

/// Whether `a` stands in front of `b` in the order of their characters.
pub open spec fn precedes(a: Seq<char>, b: Seq<char>) -> bool
    decreases a.len(),
{
    if b.len() == 0 {
        false
    } else if a.len() == 0 {
        true
    } else if a.first() != b.first() {
        a.first() < b.first()
    } else {
        precedes(a.drop_first(), b.drop_first())
    }
}

/// Of two different texts one stands in front of the other, and not the other
/// way round.
pub proof fn lemma_precedes_total(a: Seq<char>, b: Seq<char>)
    ensures
        !(precedes(a, b) && precedes(b, a)),
        precedes(a, b) || precedes(b, a) || a == b,
        a == b ==> !precedes(a, b),
    decreases a.len(),
{
    if a.len() > 0 && b.len() > 0 && a.first() == b.first() {
        lemma_precedes_total(a.drop_first(), b.drop_first());
        if a.drop_first() == b.drop_first() {
            assert(a =~= seq![a.first()] + a.drop_first());
            assert(b =~= seq![b.first()] + b.drop_first());
        }
    } else if a.len() == 0 && b.len() == 0 {
        assert(a =~= b);
    }
}

/// What stands in front of a text stands in front of all behind it.
pub proof fn lemma_precedes_transitive(a: Seq<char>, b: Seq<char>, c: Seq<char>)
    requires
        precedes(a, b),
        precedes(b, c),
    ensures
        precedes(a, c),
    decreases a.len(),
{
    if a.len() > 0 && a.first() == b.first() && b.first() == c.first() {
        lemma_precedes_transitive(a.drop_first(), b.drop_first(), c.drop_first());
    }
}

/// Whether `a` stands in front of `b`.
pub fn text_precedes(a: &str, b: &str) -> (r: bool)
    ensures
        r == precedes(a@, b@),
{
    let x = chars_of(a);
    let y = chars_of(b);
    let mut i: usize = 0;
    assert(x@.skip(0) =~= x@);
    assert(y@.skip(0) =~= y@);
    while i < x.len() && i < y.len() && x[i] == y[i]
        invariant
            i <= x@.len(),
            i <= y@.len(),
            precedes(a@, b@) == precedes(x@.skip(i as int), y@.skip(i as int)),
        decreases x@.len() - i,
    {
        assert(x@.skip(i as int).drop_first() =~= x@.skip(i + 1));
        assert(y@.skip(i as int).drop_first() =~= y@.skip(i + 1));
        i = i + 1;
    }
    if i >= y.len() {
        false
    } else if i >= x.len() {
        true
    } else {
        x[i] < y[i]
    }
}

// ---------------------------------------------------------------------------
// Laws
// ---------------------------------------------------------------------------


/// Raising and lowering move the code of a letter by 32, and leave all other
/// characters and the length of the text alone.
pub proof fn law_case_moves_letters_by_32(s: Seq<char>)
    ensures
        raised(s).len() == s.len(),
        lowered(s).len() == s.len(),
        forall|i: int|
            #![trigger s[i]]
            0 <= i < s.len() ==> raised(s)[i] as u32 == (if 97 <= s[i] as u32 <= 122 {
                s[i] as u32 - 32
            } else {
                s[i] as int
            }),
        forall|i: int|
            #![trigger s[i]]
            0 <= i < s.len() ==> lowered(s)[i] as u32 == (if 65 <= s[i] as u32 <= 90 {
                s[i] as u32 + 32
            } else {
                s[i] as int
            }),
{
}

/// The blanks, by their codes.
pub proof fn law_blanks_by_code(c: char)
    ensures
        is_whitespace(c) <==> {
            let code = c as u32;
            ||| 9 <= code <= 13
            ||| code == 32 || code == 133 || code == 160 || code == 5760
            ||| 8192 <= code <= 8202
            ||| code == 8232 || code == 8233 || code == 8239 || code == 8287 || code == 12288
        },
{
}

proof fn lemma_strip_start_parts(s: Seq<char>, fringe: Fringe) -> (from: int)
    ensures
        0 <= from <= s.len(),
        strip_start(s, fringe) == s.skip(from),
        forall|k: int| 0 <= k < from ==> fringe.has(#[trigger] s[k]),
        from < s.len() ==> !fringe.has(s[from]),
    decreases s.len(),
{
    if s.len() > 0 && fringe.has(s.first()) {
        let rest = s.drop_first();
        let inner = lemma_strip_start_parts(rest, fringe);
        assert(rest.skip(inner) =~= s.skip(inner + 1));
        assert forall|k: int| 0 <= k < inner + 1 implies fringe.has(#[trigger] s[k]) by {
            if k > 0 {
                assert(rest[k - 1] == s[k]);
            }
        }
        if inner < rest.len() {
            assert(rest[inner] == s[inner + 1]);
        }
        inner + 1
    } else {
        assert(s.skip(0) =~= s);
        0
    }
}

proof fn lemma_strip_end_parts(s: Seq<char>, fringe: Fringe) -> (to: int)
    ensures
        0 <= to <= s.len(),
        strip_end(s, fringe) == s.take(to),
        forall|k: int| to <= k < s.len() ==> fringe.has(#[trigger] s[k]),
        to > 0 ==> !fringe.has(s[to - 1]),
    decreases s.len(),
{
    if s.len() > 0 && fringe.has(s.last()) {
        let rest = s.drop_last();
        let to = lemma_strip_end_parts(rest, fringe);
        assert(rest.take(to) =~= s.take(to));
        assert forall|k: int| to <= k < s.len() implies fringe.has(#[trigger] s[k]) by {
            if k < rest.len() {
                assert(rest[k] == s[k]);
            }
        }
        to
    } else {
        assert(s.take(s.len() as int) =~= s);
        s.len() as int
    }
}

/// Whether `c` is taken off the ends of a text: a blank, or a double quote.
pub open spec fn fringed(fringe: Fringe, c: char) -> bool {
    (fringe is Blanks && is_whitespace(c)) || (fringe is Quotes && c == '"')
}

/// What is stripped off a text are fringe characters at its two ends; what is
/// left does not begin or end in one.
pub proof fn law_strip_takes_the_fringe_only(s: Seq<char>, fringe: Fringe)
    ensures
        exists|from: int, to: int|
            {
                &&& 0 <= from <= to <= s.len()
                &&& strip(s, fringe) == #[trigger] s.subrange(from, to)
                &&& forall|k: int| 0 <= k < from ==> fringed(fringe, #[trigger] s[k])
                &&& forall|k: int| to <= k < s.len() ==> fringed(fringe, #[trigger] s[k])
            },
        strip(s, fringe).len() > 0 ==> !fringed(fringe, strip(s, fringe).first()) && !fringed(
            fringe,
            strip(s, fringe).last(),
        ),
{
    let from = lemma_strip_start_parts(s, fringe);
    let rest = s.skip(from);
    let n = lemma_strip_end_parts(rest, fringe);
    assert(rest.take(n) =~= s.subrange(from, from + n));
    assert forall|k: int| from + n <= k < s.len() implies fringed(fringe, #[trigger] s[k]) by {
        assert(rest[k - from] == s[k]);
    }
    if n > 0 {
        let left = strip(s, fringe);
        assert(left.first() == s[from]);
        assert(left.last() == rest[n - 1]);
    }
}

/// Trimming takes blanks off, as stripping takes off the fringe.
pub proof fn law_trim_takes_blanks_only(s: Seq<char>)
    ensures
        trim(s) == strip(s, Fringe::Blanks),
{
}

proof fn lemma_word_len(s: Seq<char>)
    ensures
        word_len(s) <= s.len(),
        forall|i: int| 0 <= i < word_len(s) ==> !is_whitespace(#[trigger] s[i]),
        word_len(s) < s.len() ==> is_whitespace(s[word_len(s) as int]),
    decreases s.len(),
{
    if s.len() > 0 && !is_whitespace(s.first()) {
        let rest = s.drop_first();
        lemma_word_len(rest);
        assert forall|i: int| 0 <= i < word_len(s) implies !is_whitespace(#[trigger] s[i]) by {
            if i > 0 {
                assert(rest[i - 1] == s[i]);
            }
        }
        if word_len(s) < s.len() {
            assert(rest[word_len(rest) as int] == s[word_len(s) as int]);
        }
    }
}

/// Blanks in front of a word, and a blank behind it with anything that follows,
/// are left out: the first word is the word.
pub proof fn law_first_word_stands_alone(front: Seq<char>, word: Seq<char>, back: Seq<char>)
    requires
        all_blanks(front),
        forall|i: int| 0 <= i < word.len() ==> !is_whitespace(#[trigger] word[i]),
        back.len() > 0 ==> is_whitespace(back.first()),
    ensures
        word.len() > 0 ==> word_at_front(front + word + back) == Some(word),
        word_at_front(front) is None,
{
    let s = front + word + back;
    assert(s =~= front + (word + back));
    lemma_strip_start_blanks(front, word + back);
    lemma_strip_start_blanks(front, Seq::empty());
    assert(front + Seq::<char>::empty() =~= front);
    if word.len() > 0 {
        let rest = word + back;
        assert(!is_whitespace(word[0]));
        assert(rest.first() == word[0]);
        lemma_word_len(rest);
        let n = word_len(rest) as int;
        if n < word.len() {
            assert(rest[n] == word[n]);
        } else if n > word.len() {
            assert(rest[word.len() as int] == back.first());
        }
        assert(rest.take(n) =~= word);
    }
}

proof fn lemma_find_from(s: Seq<char>, pattern: Seq<char>, i: int)
    requires
        0 <= i,
    ensures
        match find_from(s, pattern, i) {
            Some(at) => i <= at && stands_at(s, pattern, at) && forall|j: int|
                i <= j < at ==> !#[trigger] stands_at(s, pattern, j),
            None => forall|j: int| i <= j ==> !#[trigger] stands_at(s, pattern, j),
        },
    decreases s.len() - i,
{
    if i + pattern.len() <= s.len() && !stands_at(s, pattern, i) {
        assert(i == s.len() ==> s.subrange(i, i + pattern.len()) =~= pattern);
        lemma_find_from(s, pattern, i + 1);
    }
}

/// A pattern is found where it first occurs, and not found if it does not occur
/// at all.
pub proof fn law_find_gives_the_first_place(front: Seq<char>, pattern: Seq<char>, back: Seq<char>)
    ensures
        match find(front + pattern + back, pattern) {
            Some(at) => {
                let s = front + pattern + back;
                &&& 0 <= at <= front.len()
                &&& s.subrange(at, at + pattern.len()) == pattern
                &&& forall|j: int|
                    0 <= j < at ==> #[trigger] s.subrange(j, j + pattern.len()) != pattern
            },
            None => false,
        },
{
    let s = front + pattern + back;
    lemma_find_from(s, pattern, 0);
    assert(s.subrange(front.len() as int, (front.len() + pattern.len()) as int) =~= pattern);
    assert(stands_at(s, pattern, front.len() as int));
    assert(find(s, pattern) is Some);
    let at = find(s, pattern).unwrap();
    assert forall|j: int| 0 <= j < at implies #[trigger] s.subrange(j, j + pattern.len())
        != pattern by {
        assert(!stands_at(s, pattern, j));
    }
}

/// What is found occurs.
pub proof fn law_what_is_found_occurs(s: Seq<char>, pattern: Seq<char>)
    ensures
        find(s, pattern) matches Some(at) ==> 0 <= at && at + pattern.len() <= s.len()
            && s.subrange(at, at + pattern.len()) == pattern,
{
    lemma_find_from(s, pattern, 0);
}

/// A pattern at the front of a text is taken off, again and again; a text that
/// does not begin with it is left as it is.
pub proof fn law_strip_prefixes_step(s: Seq<char>, pattern: Seq<char>)
    requires
        pattern.len() > 0,
    ensures
        strip_prefixes(pattern + s, pattern) == strip_prefixes(s, pattern),
        !pattern.is_prefix_of(s) ==> strip_prefixes(s, pattern) == s,
{
    let whole = pattern + s;
    assert(whole.subrange(0, pattern.len() as int) =~= pattern);
    assert(whole.skip(pattern.len() as int) =~= s);
    if stands_at(s, pattern, 0) {
        assert(pattern =~= s.subrange(0, pattern.len() as int));
        assert(pattern.is_prefix_of(s));
    }
}

/// Replacing keeps the length of a text, changes the characters asked for, and
/// no others.
pub proof fn law_replaced_changes_one_character(s: Seq<char>, from: char, to: char)
    ensures
        replaced(s, from, to).len() == s.len(),
        forall|i: int|
            #![trigger s[i]]
            0 <= i < s.len() ==> (s[i] == from ==> replaced(s, from, to)[i] == to) && (s[i] != from
                ==> replaced(s, from, to)[i] == s[i]),
{
}

/// The last digit of a number is its remainder by ten, the digits in front of it
/// are those of the quotient, and a number below ten has one digit.
pub proof fn law_decimal_digit_by_digit(n: nat)
    ensures
        n < 10 ==> decimal(n).len() == 1,
        n >= 10 ==> decimal(n).drop_last() == decimal(n / 10),
        decimal(n).len() > 0,
        decimal(n).last() as int == 48 + n % 10,
{
    if n >= 10 {
        assert(decimal(n).drop_last() =~= decimal(n / 10));
    }
}

/// Reading goes digit by digit: a further digit makes ten times as much and adds
/// its value, as long as the number fits in 64 bits.
pub proof fn law_reading_goes_digit_by_digit(s: Seq<char>, c: char)
    requires
        48 <= c as u32 <= 57,
    ensures
        whole_number(seq![c]) == Some((c as u32 - 48) as u64),
        whole_number(s) matches Some(v) ==> whole_number(s.push(c)) == (if 10 * v + (c as u32 - 48)
            <= u64::MAX {
            Some((10 * v + (c as u32 - 48)) as u64)
        } else {
            None
        }),
{
    reveal_with_fuel(digits_value, 2);
    let one = seq![c];
    assert(one.drop_last() =~= Seq::empty());
    assert(behind_plus(one) == one);
    let digits = behind_plus(s);
    if whole_number(s) is Some {
        let longer = behind_plus(s.push(c));
        assert(longer =~= digits.push(c));
        assert(longer.drop_last() =~= digits);
        assert forall|i: int| 0 <= i < longer.len() implies is_digit(#[trigger] longer[i]) by {
            if i < digits.len() {
                assert(longer[i] == digits[i]);
            }
        }
    }
}

/// A plus sign in front of a number changes nothing. A text that holds anything
/// but digits behind it is no number, and neither is a text without digits.
pub proof fn law_only_digits_are_numbers(s: Seq<char>)
    ensures
        s.len() > 0 && s.first() != '+' ==> whole_number(seq!['+'] + s) == whole_number(s),
        whole_number(Seq::empty()) is None,
        whole_number(seq!['+']) is None,
        (exists|i: int|
            0 <= i < s.len() && !(48 <= (#[trigger] s[i]) as u32 <= 57) && (i > 0 || s[i] != '+'))
            ==> whole_number(s) is None,
{
    assert((seq!['+'] + s).drop_first() =~= s);
    assert(behind_plus(seq!['+']).len() == 0);
    if exists|i: int|
        0 <= i < s.len() && !(48 <= (#[trigger] s[i]) as u32 <= 57) && (i > 0 || s[i] != '+') {
        let i = choose|i: int|
            0 <= i < s.len() && !(48 <= (#[trigger] s[i]) as u32 <= 57) && (i > 0 || s[i] != '+');
        let digits = behind_plus(s);
        if s.first() == '+' {
            assert(i > 0);
            assert(digits[i - 1] == s[i]);
        } else {
            assert(digits[i] == s[i]);
        }
    }
}

/// The hexadecimal form of bytes has two digits for each: the first has the code
/// of the upper four bits, the second that of the lower four, as a digit or as a
/// letter from `a` on.
pub proof fn law_hex_has_two_digits_for_each_byte(bytes: Seq<u8>, i: int)
    requires
        0 <= i < bytes.len(),
    ensures
        hex(bytes).len() == 2 * bytes.len(),
        hex(bytes)[2 * i] as u32 == (if bytes[i] < 160 {
            48 + bytes[i] / 16
        } else {
            87 + bytes[i] / 16
        }),
        hex(bytes)[2 * i + 1] as u32 == (if bytes[i] % 16 < 10 {
            48 + bytes[i] % 16
        } else {
            87 + bytes[i] % 16
        }),
{
    assert((2 * i) / 2 == i && (2 * i) % 2 == 0);
    assert((2 * i + 1) / 2 == i && (2 * i + 1) % 2 == 1);
}

proof fn lemma_precedes_behind(front: Seq<char>, a: Seq<char>, b: Seq<char>)
    ensures
        precedes(front + a, front + b) == precedes(a, b),
    decreases front.len(),
{
    if front.len() == 0 {
        assert(front + a =~= a);
        assert(front + b =~= b);
    } else {
        assert((front + a).drop_first() =~= front.drop_first() + a);
        assert((front + b).drop_first() =~= front.drop_first() + b);
        lemma_precedes_behind(front.drop_first(), a, b);
    }
}

/// Behind a common front the first character that differs decides, by its code;
/// and a text stands in front of every longer text that begins with it.
pub proof fn law_first_difference_decides(
    front: Seq<char>,
    x: char,
    y: char,
    a: Seq<char>,
    b: Seq<char>,
)
    ensures
        x != y ==> (precedes(front.push(x) + a, front.push(y) + b) <==> (x as u32) < (y as u32)),
        precedes(front, front.push(y) + b),
        !precedes(front.push(y) + b, front),
        !precedes(front, front),
{
    let left = seq![x] + a;
    let right = seq![y] + b;
    assert(front.push(x) + a =~= front + left);
    assert(front.push(y) + b =~= front + right);
    lemma_precedes_behind(front, left, right);
    let none = Seq::<char>::empty();
    assert(front + none =~= front);
    lemma_precedes_behind(front, none, right);
    lemma_precedes_behind(front, right, none);
    lemma_precedes_behind(front, none, none);
}

/// Texts are the same if they have the same characters, and what is written in
/// decimal reads back.
pub proof fn law_texts_and_numbers(
    a: &str,
    b: &str,
    same: bool,
    n: u64,
    written: String,
    text: &str,
    read: Option<u64>,
)
    requires
        call_ensures(same_text, (a, b), same),
        call_ensures(decimal_text, (n,), written),
        text@ == written@,
        call_ensures(parse_whole_number, (text,), read),
    ensures
        same <==> a@.len() == b@.len() && forall|i: int|
            0 <= i < a@.len() ==> #[trigger] a@[i] == b@[i],
        read == Some(n),
{
    law_decimal_reads_back(n);
    if a@.len() == b@.len() && (forall|i: int| 0 <= i < a@.len() ==> #[trigger] a@[i] == b@[i]) {
        assert(a@ =~= b@);
    }
}

}
