//! Text: letter case, blanks, substrings and decimal numbers.

use vstd::prelude::*;
use vstd::string::*;

use crate::order::{KeyOrder, SortKey};

verus! {

/// `String::push` puts one character at the end of the string.
pub assume_specification[ String::push ](s: &mut String, c: char)
    ensures
        final(s)@ == old(s)@.push(c),
;

/// The characters with the Unicode property White_Space.
pub open spec fn is_blank(c: char) -> bool {
    let u = c as u32;
    ||| 0x09 <= u <= 0x0d
    ||| u == 0x20
    ||| u == 0x85
    ||| u == 0xa0
    ||| u == 0x1680
    ||| 0x2000 <= u <= 0x200a
    ||| u == 0x2028
    ||| u == 0x2029
    ||| u == 0x202f
    ||| u == 0x205f
    ||| u == 0x3000
}

/// Every character of `s` is blank.
pub open spec fn all_blank(s: Seq<char>) -> bool {
    forall|i: int| 0 <= i < s.len() ==> is_blank(#[trigger] s[i])
}

/// `s` without the blanks at its two ends.
pub open spec fn trimmed(s: Seq<char>) -> Seq<char>
    decreases s.len(),
{
    if s.len() > 0 && is_blank(s[0]) {
        trimmed(s.drop_first())
    } else if s.len() > 0 && is_blank(s.last()) {
        trimmed(s.drop_last())
    } else {
        s
    }
}

/// The ASCII capital letters become small letters, all else stays.
pub open spec fn lower_char(c: char) -> char {
    if 'A' <= c && c <= 'Z' {
        ((c as u8 + 32) as u8) as char
    } else {
        c
    }
}

pub open spec fn lower(s: Seq<char>) -> Seq<char> {
    s.map_values(|c: char| lower_char(c))
}

/// `needle` occurs in `hay` at position `at`.
pub open spec fn occurs_at(hay: Seq<char>, needle: Seq<char>, at: int) -> bool {
    &&& 0 <= at
    &&& at + needle.len() <= hay.len()
    &&& hay.subrange(at, at + needle.len()) == needle
}

/// `needle` is a substring of `hay`.
pub open spec fn has_substring(hay: Seq<char>, needle: Seq<char>) -> bool {
    exists|at: int| occurs_at(hay, needle, at)
}

pub open spec fn digit(d: int) -> char {
    ((d + 48) as u32) as char
}

/// `n` in decimal digits, without leading zeros.
pub open spec fn decimal(n: nat) -> Seq<char>
    decreases n,
{
    if n < 10 {
        seq![digit(n as int)]
    } else {
        decimal(n / 10).push(digit((n % 10) as int))
    }
}

/// `n` in decimal digits, with a minus sign in front where it is negative.
pub open spec fn signed_decimal(n: int) -> Seq<char> {
    if n < 0 {
        seq!['-'] + decimal((-n) as nat)
    } else {
        decimal(n as nat)
    }
}

/// The characters of a string.
pub fn chars_of(s: &str) -> (r: Vec<char>)
    ensures
        r@ == s@,
{
    let mut r: Vec<char> = Vec::new();
    for c in it: s.chars()
        invariant
            it.seq() == s@,
            r@ == s@.take(it.index()),
    {
        r.push(c);
        assert(r@ =~= s@.take(it.index() + 1));
    }
    assert(s@.take(s@.len() as int) =~= s@);
    r
}

pub fn blank_char(c: char) -> (r: bool)
    ensures
        r == is_blank(c),
{
    let u: u32 = c as u32;
    (0x09 <= u && u <= 0x0d) || u == 0x20 || u == 0x85 || u == 0xa0 || u == 0x1680 || (0x2000 <= u
        && u <= 0x200a) || u == 0x2028 || u == 0x2029 || u == 0x202f || u == 0x205f || u == 0x3000
}

/// Nothing is left after trimming exactly where all was blank.
pub proof fn trimmed_is_empty_iff_blank(s: Seq<char>)
    ensures
        trimmed(s).len() == 0 <==> all_blank(s),
    decreases s.len(),
{
    if s.len() > 0 && is_blank(s[0]) {
        let t = s.drop_first();
        trimmed_is_empty_iff_blank(t);
        if all_blank(t) {
            assert forall|i: int| 0 <= i < s.len() implies is_blank(#[trigger] s[i]) by {
                if i > 0 {
                    assert(s[i] == t[i - 1]);
                }
            }
        }
        if all_blank(s) {
            assert forall|i: int| 0 <= i < t.len() implies is_blank(#[trigger] t[i]) by {
                assert(t[i] == s[i + 1]);
            }
        }
    } else if s.len() > 0 && is_blank(s.last()) {
        let t = s.drop_last();
        trimmed_is_empty_iff_blank(t);
        if all_blank(t) {
            assert(t.len() > 0 ==> t[0] == s[0]);
            assert(t.len() == 0 ==> s[0] == s.last());
        }
    } else if s.len() > 0 {
        assert(!is_blank(s[0]));
    }
}

proof fn lemma_lower_keeps_blanks(c: char)
    ensures
        is_blank(lower_char(c)) == is_blank(c),
{
    if 'A' <= c && c <= 'Z' {
        assert(c as u8 == c as u32);
        assert(lower_char(c) as u32 == c as u32 + 32);
    }
}

/// Trimming goes by blanks alone: texts that differ in letter case only are
/// trimmed alike.
pub proof fn trimming_ignores_case(a: Seq<char>, b: Seq<char>)
    requires
        lower(a) == lower(b),
    ensures
        lower(trimmed(a)) == lower(trimmed(b)),
    decreases a.len(),
{
    assert(lower(a).len() == a.len() && lower(b).len() == b.len());
    assert forall|i: int| 0 <= i < a.len() implies is_blank(#[trigger] a[i]) == is_blank(b[i]) by {
        assert(lower(a)[i] == lower_char(a[i]));
        assert(lower(b)[i] == lower_char(b[i]));
        lemma_lower_keeps_blanks(a[i]);
        lemma_lower_keeps_blanks(b[i]);
    }
    if a.len() > 0 && is_blank(a[0]) {
        assert(lower(a.drop_first()) =~= lower(a).drop_first());
        assert(lower(b.drop_first()) =~= lower(b).drop_first());
        trimming_ignores_case(a.drop_first(), b.drop_first());
    } else if a.len() > 0 && is_blank(a.last()) {
        assert(is_blank(a[a.len() - 1]) == is_blank(b[a.len() - 1]));
        assert(lower(a.drop_last()) =~= lower(a).drop_last());
        assert(lower(b.drop_last()) =~= lower(b).drop_last());
        trimming_ignores_case(a.drop_last(), b.drop_last());
    } else if a.len() > 0 {
        assert(is_blank(a[a.len() - 1]) == is_blank(b[a.len() - 1]));
    }
}

/// The characters of `s` without the blanks at its two ends.
pub fn trim_chars(s: &Vec<char>) -> (r: Vec<char>)
    ensures
        r@ == trimmed(s@),
{
    let mut lo: usize = 0;
    let mut hi: usize = s.len();
    assert(s@.subrange(0, s@.len() as int) =~= s@);
    while lo < hi && blank_char(s[lo])
        invariant
            0 <= lo <= hi == s.len(),
            trimmed(s@.subrange(lo as int, hi as int)) == trimmed(s@),
        decreases hi - lo,
    {
        assert(s@.subrange(lo as int, hi as int).drop_first() =~= s@.subrange(
            lo + 1,
            hi as int,
        ));
        lo = lo + 1;
    }
    while lo < hi && blank_char(s[hi - 1])
        invariant
            0 <= lo <= hi <= s.len(),
            lo < hi ==> !is_blank(s@[lo as int]),
            trimmed(s@.subrange(lo as int, hi as int)) == trimmed(s@),
        decreases hi - lo,
    {
        assert(s@.subrange(lo as int, hi as int).drop_last() =~= s@.subrange(lo as int, hi - 1));
        hi = hi - 1;
    }
    let mut r: Vec<char> = Vec::new();
    let mut i: usize = lo;
    while i < hi
        invariant
            lo <= i <= hi <= s.len(),
            r@ == s@.subrange(lo as int, i as int),
        decreases hi - i,
    {
        r.push(s[i]);
        i = i + 1;
        assert(r@ =~= s@.subrange(lo as int, i as int));
    }
    r
}

/// Whether the text is empty once trimmed.
pub fn is_blank_text(s: &str) -> (r: bool)
    ensures
        r == all_blank(s@),
{
    let trimmed_chars: Vec<char> = trim_chars(&chars_of(s));
    proof {
        trimmed_is_empty_iff_blank(s@);
    }
    trimmed_chars.len() == 0
}

pub fn lower_one(c: char) -> (r: char)
    ensures
        r == lower_char(c),
{
    if 'A' <= c && c <= 'Z' {
        ((c as u8) + 32) as char
    } else {
        c
    }
}

/// The characters of `s` with its ASCII capitals made small.
pub fn lower_chars(s: &Vec<char>) -> (r: Vec<char>)
    ensures
        r@ == lower(s@),
{
    let mut r: Vec<char> = Vec::new();
    let mut i: usize = 0;
    while i < s.len()
        invariant
            i <= s.len(),
            r@ == lower(s@.take(i as int)),
        decreases s.len() - i,
    {
        r.push(lower_one(s[i]));
        i = i + 1;
        assert(r@ =~= lower(s@.take(i as int)));
    }
    assert(s@.take(i as int) =~= s@);
    r
}

fn occurs_here(hay: &Vec<char>, needle: &Vec<char>, at: usize) -> (r: bool)
    requires
        at + needle.len() <= hay.len(),
    ensures
        r == occurs_at(hay@, needle@, at as int),
{
    let mut i: usize = 0;
    while i < needle.len()
        invariant
            at + needle.len() <= hay.len(),
            i <= needle.len(),
            forall|k: int| 0 <= k < i ==> hay@[at + k] == #[trigger] needle@[k],
        decreases needle.len() - i,
    {
        if hay[at + i] != needle[i] {
            assert(hay@.subrange(at as int, at + needle.len())[i as int] != needle@[i as int]);
            return false;
        }
        i = i + 1;
    }
    assert(hay@.subrange(at as int, at + needle.len()) =~= needle@);
    true
}

/// Whether `needle` is a substring of `hay`.
pub fn contains_chars(hay: &Vec<char>, needle: &Vec<char>) -> (r: bool)
    ensures
        r == has_substring(hay@, needle@),
{
    if needle.len() > hay.len() {
        return false;
    }
    let last: usize = hay.len() - needle.len();
    let mut at: usize = 0;
    while at <= last
        invariant
            last == hay.len() - needle.len(),
            at <= last + 1,
            forall|k: int| 0 <= k < at ==> !occurs_at(hay@, needle@, k),
        decreases last + 1 - at,
    {
        if occurs_here(hay, needle, at) {
            return true;
        }
        if at == last {
            assert forall|k: int| !occurs_at(hay@, needle@, k) by {}
            return false;
        }
        at = at + 1;
    }
    false
}

/// A string of the given characters.
pub fn string_of(s: &Vec<char>) -> (r: String)
    ensures
        r@ == s@,
{
    let mut r: String = String::new();
    let mut i: usize = 0;
    while i < s.len()
        invariant
            i <= s.len(),
            r@ == s@.take(i as int),
        decreases s.len() - i,
    {
        r.push(s[i]);
        i = i + 1;
        assert(r@ =~= s@.take(i as int));
    }
    assert(s@.take(i as int) =~= s@);
    r
}

/// `n` in decimal digits.
pub fn decimal_chars(n: u64) -> (r: Vec<char>)
    ensures
        r@ == decimal(n as nat),
    decreases n,
{
    let last: char = ((n % 10) as u8 + 48) as char;
    if n < 10 {
        let mut r: Vec<char> = Vec::new();
        r.push(last);
        assert(r@ =~= decimal(n as nat));
        r
    } else {
        let mut r: Vec<char> = decimal_chars(n / 10);
        r.push(last);
        r
    }
}

/// `n` in decimal digits.
pub fn decimal_string(n: u64) -> (r: String)
    ensures
        r@ == decimal(n as nat),
{
    let digits: Vec<char> = decimal_chars(n);
    string_of(&digits)
}

/// `n` in decimal digits, with its sign where it is negative.
pub fn signed_decimal_string(n: i64) -> (r: String)
    ensures
        r@ == signed_decimal(n as int),
{
    if n < 0 {
        let magnitude: u64 = (-(n as i128)) as u64;
        let digits: Vec<char> = decimal_chars(magnitude);
        let rest: String = string_of(&digits);
        let mut r: String = String::new();
        r.push('-');
        r.append(rest.as_str());
        assert(r@ =~= signed_decimal(n as int));
        r
    } else {
        decimal_string(n as u64)
    }
}

/// The lexicographic order of two strings by code points.
pub open spec fn chars_le(a: Seq<char>, b: Seq<char>) -> bool
    decreases a.len(),
{
    if a.len() == 0 {
        true
    } else if b.len() == 0 {
        false
    } else if a[0] == b[0] {
        chars_le(a.drop_first(), b.drop_first())
    } else {
        a[0] < b[0]
    }
}

/// A name as it takes part in alphabetical order: without regard to the case
/// of ASCII letters.
pub struct NameKey {
    pub folded: Vec<char>,
}

impl NameKey {
    pub fn new(name: &str) -> (r: Self)
        ensures
            r@ == lower(name@),
    {
        let chars: Vec<char> = chars_of(name);
        NameKey { folded: lower_chars(&chars) }
    }
}

proof fn lemma_chars_le_total(a: Seq<char>, b: Seq<char>)
    ensures
        chars_le(a, b) || chars_le(b, a),
    decreases a.len(),
{
    if a.len() > 0 && b.len() > 0 && a[0] == b[0] {
        lemma_chars_le_total(a.drop_first(), b.drop_first());
    }
}

proof fn lemma_chars_le_transitive(a: Seq<char>, b: Seq<char>, c: Seq<char>)
    requires
        chars_le(a, b),
        chars_le(b, c),
    ensures
        chars_le(a, c),
    decreases a.len(),
{
    if a.len() > 0 && b.len() > 0 && c.len() > 0 && a[0] == b[0] && b[0] == c[0] {
        lemma_chars_le_transitive(a.drop_first(), b.drop_first(), c.drop_first());
    }
}

fn char_below(a: char, b: char) -> (r: bool)
    ensures
        r == (a < b),
{
    (a as u32) < (b as u32)
}

impl KeyOrder for Seq<char> {
    open spec fn le(self, other: Self) -> bool {
        chars_le(self, other)
    }

    proof fn le_total(a: Self, b: Self) {
        lemma_chars_le_total(a, b);
    }

    proof fn le_transitive(a: Self, b: Self, c: Self) {
        lemma_chars_le_transitive(a, b, c);
    }
}

impl View for NameKey {
    type V = Seq<char>;

    open spec fn view(&self) -> Seq<char> {
        self.folded@
    }
}

impl SortKey<Seq<char>> for NameKey {
    fn not_after(&self, other: &Self) -> (r: bool) {
        let a: &Vec<char> = &self.folded;
        let b: &Vec<char> = &other.folded;
        let mut i: usize = 0;
        assert(a@.skip(0) =~= a@);
        assert(b@.skip(0) =~= b@);
        while i < a.len() && i < b.len()
            invariant
                a@ == self.folded@,
                b@ == other.folded@,
                i <= a.len(),
                i <= b.len(),
                chars_le(a@, b@) == chars_le(a@.skip(i as int), b@.skip(i as int)),
            decreases a.len() - i,
        {
            if a[i] != b[i] {
                assert(a@.skip(i as int)[0] == a@[i as int]);
                assert(b@.skip(i as int)[0] == b@[i as int]);
                return char_below(a[i], b[i]);
            }
            assert(a@.skip(i as int).drop_first() =~= a@.skip(i + 1));
            assert(b@.skip(i as int).drop_first() =~= b@.skip(i + 1));
            i = i + 1;
        }
        i == a.len()
    }
}

// ---- what holds of texts ---------------------------------------------------

/// Which characters are blank: the ASCII ones are the space and those from tab
/// to carriage return; beyond ASCII, the spaces and line separators of
/// Unicode.
pub proof fn blank_characters(c: char)
    ensures
        (c as u32) < 0x80 ==> (is_blank(c) <==> c == ' ' || '\t' <= c <= '\r'),
        (c as u32) >= 0x80 ==> (is_blank(c) <==> c as u32 == 0x85 || c as u32 == 0xa0 || c as u32
            == 0x1680 || 0x2000 <= c as u32 <= 0x200a || 0x2028 <= c as u32 <= 0x2029 || c as u32
            == 0x202f || c as u32 == 0x205f || c as u32 == 0x3000),
{
}

/// A text is blank where both its parts are; a single character where it is
/// blank itself.
pub proof fn blank_texts(a: Seq<char>, b: Seq<char>, c: char)
    ensures
        all_blank(Seq::<char>::empty()),
        all_blank(seq![c]) == is_blank(c),
        all_blank(a + b) == (all_blank(a) && all_blank(b)),
{
    assert(seq![c][0] == c);
    if all_blank(a + b) {
        assert forall|i: int| 0 <= i < a.len() implies is_blank(#[trigger] a[i]) by {
            assert((a + b)[i] == a[i]);
        }
        assert forall|i: int| 0 <= i < b.len() implies is_blank(#[trigger] b[i]) by {
            assert((a + b)[a.len() + i] == b[i]);
        }
    }
}

/// Trimming cuts blanks off both ends and nothing else: what is left stands
/// between blanks, and neither begins nor ends with one.
pub proof fn trimming_cuts_blanks_off_both_ends(s: Seq<char>) -> (ends: (int, int))
    ensures
        0 <= ends.0 <= ends.1 <= s.len(),
        trimmed(s) == s.subrange(ends.0, ends.1),
        forall|i: int| 0 <= i < ends.0 ==> is_blank(#[trigger] s[i]),
        forall|i: int| ends.1 <= i < s.len() ==> is_blank(#[trigger] s[i]),
        ends.0 < ends.1 ==> !is_blank(s[ends.0]) && !is_blank(s[ends.1 - 1]),
    decreases s.len(),
{
    if s.len() > 0 && is_blank(s[0]) {
        let t = s.drop_first();
        let (lo, hi) = trimming_cuts_blanks_off_both_ends(t);
        assert(t.subrange(lo, hi) =~= s.subrange(lo + 1, hi + 1));
        assert forall|i: int| 0 <= i < lo + 1 implies is_blank(#[trigger] s[i]) by {
            if i > 0 {
                assert(t[i - 1] == s[i]);
            }
        }
        assert forall|i: int| hi + 1 <= i < s.len() implies is_blank(#[trigger] s[i]) by {
            assert(t[i - 1] == s[i]);
        }
        (lo + 1, hi + 1)
    } else if s.len() > 0 && is_blank(s.last()) {
        let t = s.drop_last();
        let (lo, hi) = trimming_cuts_blanks_off_both_ends(t);
        assert(t.subrange(lo, hi) =~= s.subrange(lo, hi));
        assert forall|i: int| 0 <= i < lo implies is_blank(#[trigger] s[i]) by {
            assert(t[i] == s[i]);
        }
        assert forall|i: int| hi <= i < s.len() implies is_blank(#[trigger] s[i]) by {
            if i < t.len() {
                assert(t[i] == s[i]);
            }
        }
        (lo, hi)
    } else {
        assert(s.subrange(0, s.len() as int) =~= s);
        (0, s.len() as int)
    }
}

/// The letters A to Z become a to z, at the same place; every other character
/// stays as it is.
pub proof fn lowering_changes_capitals_only(s: Seq<char>, i: int)
    requires
        0 <= i < s.len(),
    ensures
        lower(s).len() == s.len(),
        0x41 <= s[i] as u32 <= 0x5a ==> lower(s)[i] as u32 == s[i] as u32 + 0x20,
        !(0x41 <= s[i] as u32 <= 0x5a) ==> lower(s)[i] == s[i],
{
    let c = s[i];
    assert(lower(s)[i] == lower_char(c));
    if 'A' <= c && c <= 'Z' {
        assert(c as u8 == c as u32);
        assert(lower_char(c) as u32 == c as u32 + 32);
    }
}

/// A text occurs in every text that holds it, whatever stands before it and
/// behind it.
pub proof fn text_occurs_between_any_others(a: Seq<char>, q: Seq<char>, b: Seq<char>)
    ensures
        has_substring(a + q + b, q),
{
    assert((a + q + b).subrange(a.len() as int, (a.len() + q.len()) as int) =~= q);
    assert(occurs_at(a + q + b, q, a.len() as int));
}

/// Where a text occurs in another, that other one is some text, then it, then
/// some text.
pub proof fn substring_stands_between_two_texts(hay: Seq<char>, q: Seq<char>) -> (sides: (
    Seq<char>,
    Seq<char>,
))
    requires
        has_substring(hay, q),
    ensures
        hay == sides.0 + q + sides.1,
{
    let at = choose|at: int| occurs_at(hay, q, at);
    let a = hay.take(at);
    let b = hay.skip(at + q.len());
    assert(hay =~= a + hay.subrange(at, at + q.len()) + b);
    (a, b)
}

/// The number that a text of digits stands for.
pub open spec fn value_of_digits(s: Seq<char>) -> int
    decreases s.len(),
{
    if s.len() == 0 {
        0
    } else {
        10 * value_of_digits(s.drop_last()) + (s.last() as u32 - 0x30)
    }
}

/// A number in decimal is made of the digits 0 to 9, reads back as the number,
/// and has no leading zero but in 0 itself.
pub proof fn decimal_reads_back(n: nat)
    ensures
        decimal(n).len() > 0,
        value_of_digits(decimal(n)) == n,
        forall|i: int|
            0 <= i < decimal(n).len() ==> 0x30 <= (#[trigger] decimal(n)[i]) as u32 <= 0x39,
        n > 0 ==> decimal(n)[0] != '0',
        n == 0 ==> decimal(n) == seq!['0'],
    decreases n,
{
    if n < 10 {
        let s = seq![digit(n as int)];
        assert(s.drop_last() =~= Seq::empty());
        assert(value_of_digits(Seq::<char>::empty()) == 0);
        assert(value_of_digits(s) == n);
    } else {
        decimal_reads_back(n / 10);
        let head = decimal(n / 10);
        assert(decimal(n).drop_last() =~= head);
        assert(decimal(n)[0] == head[0]);
        assert forall|i: int| 0 <= i < decimal(n).len() implies 0x30 <= (
        #[trigger] decimal(n)[i]) as u32 <= 0x39 by {
            if i < head.len() {
                assert(decimal(n)[i] == head[i]);
            }
        }
    }
}

/// A negative number has a minus sign and then its size; any other has no sign.
pub proof fn signed_decimal_reads_back(n: int)
    ensures
        n >= 0 ==> value_of_digits(signed_decimal(n)) == n && signed_decimal(n)[0] != '-',
        n < 0 ==> signed_decimal(n).len() > 1 && signed_decimal(n)[0] == '-' && value_of_digits(
            signed_decimal(n).drop_first(),
        ) == -n && signed_decimal(n)[1] != '0',
{
    if n < 0 {
        decimal_reads_back((-n) as nat);
        assert(signed_decimal(n).drop_first() =~= decimal((-n) as nat));
    } else {
        decimal_reads_back(n as nat);
        assert(0x30 <= decimal(n as nat)[0] as u32);
    }
}

/// Two numbers with the same digits are the same.
pub proof fn decimals_tell_numbers_apart(m: nat, n: nat)
    requires
        decimal(m) == decimal(n),
    ensures
        m == n,
{
    decimal_reads_back(m);
    decimal_reads_back(n);
}

/// Of two texts, the one with the smaller character at the first difference
/// comes first; where there is none, the shorter one does.
pub proof fn order_goes_by_the_first_difference(a: Seq<char>, b: Seq<char>, k: int)
    requires
        0 <= k <= a.len(),
        k <= b.len(),
        forall|i: int| 0 <= i < k ==> #[trigger] a[i] == b[i],
    ensures
        k < a.len() && k < b.len() && a[k] != b[k] ==> chars_le(a, b) == (a[k] < b[k]),
        k == a.len() ==> chars_le(a, b),
        k < a.len() && k == b.len() ==> !chars_le(a, b),
    decreases k,
{
    if k > 0 {
        let x = a.drop_first();
        let y = b.drop_first();
        assert(a[0] == b[0]);
        assert forall|i: int| 0 <= i < k - 1 implies #[trigger] x[i] == y[i] by {
            assert(a[i + 1] == b[i + 1]);
        }
        order_goes_by_the_first_difference(x, y, k - 1);
    }
}

} // verus!
