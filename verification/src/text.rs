//! Reading and writing the names things go by.
//!
//! Bones, clips, rooms, files and switches are all found by name in this game,
//! and every one of those names is read character by character here, with what
//! the reading means stated as a function of the characters.
use vstd::prelude::*;
use vstd::utf8::char_u32_cast;

verus! {

// ---------------------------------------------------------------------------
// Prefixes, trimming and parts
// ---------------------------------------------------------------------------

/// Where `a` and `b` first differ at or after `i`, or where the shorter of
/// them runs out.
pub open spec fn shared_from(a: Seq<char>, b: Seq<char>, i: int) -> int
    decreases a.len() - i,
{
    if 0 <= i && i < a.len() && i < b.len() && a[i] == b[i] {
        shared_from(a, b, i + 1)
    } else {
        i
    }
}

/// The length of the longest common prefix of two names.
pub open spec fn shared_prefix(a: Seq<char>, b: Seq<char>) -> int {
    shared_from(a, b, 0)
}

/// Separators a name's loose ends are trimmed of.
pub open spec fn is_separator(c: char) -> bool {
    c == '_' || c == '-' || c == ' '
}

/// What `char::is_whitespace` accepts: the characters with Unicode's
/// `White_Space` property.
pub open spec fn is_space(c: char) -> bool {
    ||| ('\u{9}' <= c && c <= '\u{d}')
    ||| c == ' '
    ||| c == '\u{85}'
    ||| c == '\u{a0}'
    ||| c == '\u{1680}'
    ||| ('\u{2000}' <= c && c <= '\u{200a}')
    ||| c == '\u{2028}'
    ||| c == '\u{2029}'
    ||| c == '\u{202f}'
    ||| c == '\u{205f}'
    ||| c == '\u{3000}'
}

/// Which characters a trim takes off the ends of a string.
#[derive(Clone, Copy, PartialEq, Eq, Debug, Structural)]
pub enum Loose {
    /// `_`, `-` and spaces, as a file name's ends are trimmed of.
    Separators,
    /// Whitespace, as `str::trim` takes off.
    Whitespace,
}

/// Whether a trim of kind `k` takes `c` off the ends.
pub open spec fn is_loose(k: Loose, c: char) -> bool {
    match k {
        Loose::Separators => is_separator(c),
        Loose::Whitespace => is_space(c),
    }
}

/// The first position at or after `i` that a trim of kind `k` keeps.
pub open spec fn lead_end(k: Loose, s: Seq<char>, i: int) -> int
    decreases s.len() - i,
{
    if 0 <= i && i < s.len() && is_loose(k, s[i]) {
        lead_end(k, s, i + 1)
    } else {
        i
    }
}

/// Where a run of loose characters ending at `j` begins, not going below `lo`.
pub open spec fn tail_end(k: Loose, s: Seq<char>, lo: int, j: int) -> int
    decreases j - lo,
{
    if lo < j && j <= s.len() && is_loose(k, s[j - 1]) {
        tail_end(k, s, lo, j - 1)
    } else {
        j
    }
}

/// `s` with the loose characters of kind `k` taken off both ends.
pub open spec fn trimmed_by(k: Loose, s: Seq<char>) -> Seq<char> {
    let lo = lead_end(k, s, 0);
    s.subrange(lo, tail_end(k, s, lo, s.len() as int))
}

/// `s` with separators taken off both ends.
pub open spec fn trimmed(s: Seq<char>) -> Seq<char> {
    trimmed_by(Loose::Separators, s)
}

/// `part` occurs in `whole` starting at `i`.
pub open spec fn occurs_at(whole: Seq<char>, part: Seq<char>, i: int) -> bool {
    0 <= i && i + part.len() <= whole.len() && whole.subrange(i, i + part.len()) == part
}

/// `part` occurs somewhere in `whole`.
pub open spec fn has_part(whole: Seq<char>, part: Seq<char>) -> bool {
    exists|i: int| occurs_at(whole, part, i)
}

/// `whole` ends with `part`.
pub open spec fn ends_with(whole: Seq<char>, part: Seq<char>) -> bool {
    part.len() <= whole.len() && whole.subrange(whole.len() - part.len(), whole.len() as int) == part
}

proof fn lemma_shared_from_bound(a: Seq<char>, b: Seq<char>, i: int)
    requires
        0 <= i <= a.len(),
        i <= b.len(),
    ensures
        i <= shared_from(a, b, i) <= a.len(),
        shared_from(a, b, i) <= b.len(),
    decreases a.len() - i,
{
    if i < a.len() && i < b.len() && a[i] == b[i] {
        lemma_shared_from_bound(a, b, i + 1);
    }
}

/// Two names share no more than either has.
pub proof fn lemma_shared_prefix_bound(a: Seq<char>, b: Seq<char>)
    ensures
        0 <= shared_prefix(a, b) <= a.len(),
        shared_prefix(a, b) <= b.len(),
{
    lemma_shared_from_bound(a, b, 0);
}

/// How many leading characters two names have in common.
pub fn shared_prefix_len(a: &str, b: &str) -> (n: usize)
    ensures
        n == shared_prefix(a@, b@),
        n <= a@.len(),
        n <= b@.len(),
{
    let la = a.unicode_len();
    let lb = b.unicode_len();
    let mut i: usize = 0;
    proof {
        lemma_shared_from_bound(a@, b@, 0);
    }
    while i < la && i < lb && a.get_char(i) == b.get_char(i)
        invariant
            la == a@.len(),
            lb == b@.len(),
            i <= la,
            i <= lb,
            shared_from(a@, b@, i as int) == shared_prefix(a@, b@),
        decreases la - i,
    {
        i += 1;
    }
    i
}

proof fn lemma_lead_end_bound(k: Loose, s: Seq<char>, i: int)
    requires
        0 <= i <= s.len(),
    ensures
        i <= lead_end(k, s, i) <= s.len(),
    decreases s.len() - i,
{
    if i < s.len() && is_loose(k, s[i]) {
        lemma_lead_end_bound(k, s, i + 1);
    }
}

proof fn lemma_tail_end_bound(k: Loose, s: Seq<char>, lo: int, j: int)
    requires
        0 <= lo <= j <= s.len(),
    ensures
        lo <= tail_end(k, s, lo, j) <= j,
    decreases j - lo,
{
    if lo < j && is_loose(k, s[j - 1]) {
        lemma_tail_end_bound(k, s, lo, j - 1);
    }
}

/// A string with the loose characters of kind `k` trimmed off both ends.
pub fn trim_by(k: Loose, s: &str) -> (t: &str)
    ensures
        t@ == trimmed_by(k, s@),
{
    let len = s.unicode_len();
    let mut lo: usize = 0;
    proof {
        lemma_lead_end_bound(k, s@, 0);
    }
    while lo < len && loose(k, s.get_char(lo))
        invariant
            len == s@.len(),
            lo <= len,
            lead_end(k, s@, lo as int) == lead_end(k, s@, 0),
        decreases len - lo,
    {
        lo += 1;
    }
    let mut hi: usize = len;
    proof {
        lemma_tail_end_bound(k, s@, lo as int, len as int);
    }
    while hi > lo && loose(k, s.get_char(hi - 1))
        invariant
            len == s@.len(),
            lo <= hi <= len,
            lo == lead_end(k, s@, 0),
            tail_end(k, s@, lo as int, hi as int) == tail_end(k, s@, lo as int, len as int),
        decreases hi - lo,
    {
        hi -= 1;
    }
    s.substring_char(lo, hi)
}

/// A name with separators (`_`, `-` and spaces) trimmed off both ends.
pub fn trim_separators(s: &str) -> (t: &str)
    ensures
        t@ == trimmed(s@),
{
    trim_by(Loose::Separators, s)
}

/// A string with whitespace trimmed off both ends, as `str::trim` does.
pub fn trim_space(s: &str) -> (t: &str)
    ensures
        t@ == trimmed_by(Loose::Whitespace, s@),
{
    trim_by(Loose::Whitespace, s)
}

/// Whether a trim of kind `k` takes `c` off the ends.
pub fn loose(k: Loose, c: char) -> (b: bool)
    ensures
        b == is_loose(k, c),
{
    match k {
        Loose::Separators => c == '_' || c == '-' || c == ' ',
        Loose::Whitespace => space(c),
    }
}

/// Whether a character is whitespace.
pub fn space(c: char) -> (b: bool)
    ensures
        b == is_space(c),
{
    ('\u{9}' <= c && c <= '\u{d}') || c == ' ' || c == '\u{85}' || c == '\u{a0}' || c == '\u{1680}'
        || ('\u{2000}' <= c && c <= '\u{200a}') || c == '\u{2028}' || c == '\u{2029}' || c
        == '\u{202f}' || c == '\u{205f}' || c == '\u{3000}'
}

/// Whether two names are the same, character for character.
pub fn same(a: &str, b: &str) -> (r: bool)
    ensures
        r == (a@ == b@),
{
    let la = a.unicode_len();
    if la != b.unicode_len() {
        return false;
    }
    let mut i: usize = 0;
    while i < la
        invariant
            la == a@.len(),
            la == b@.len(),
            i <= la,
            forall|j: int| 0 <= j < i ==> a@[j] == b@[j],
        decreases la - i,
    {
        if a.get_char(i) != b.get_char(i) {
            return false;
        }
        i += 1;
    }
    proof {
        assert(a@ =~= b@);
    }
    true
}

/// The place of the first of `names` that is exactly `name`.
pub fn position_of(names: &Vec<String>, name: &str) -> (found: Option<usize>)
    ensures
        match found {
            Some(k) => k < names@.len() && names@[k as int]@ == name@ && forall|j: int|
                0 <= j < k ==> (#[trigger] names@[j])@ != name@,
            None => forall|j: int| 0 <= j < names@.len() ==> (#[trigger] names@[j])@ != name@,
        },
{
    let mut k: usize = 0;
    while k < names.len()
        invariant
            k <= names@.len(),
            forall|j: int| 0 <= j < k ==> (#[trigger] names@[j])@ != name@,
        decreases names@.len() - k,
    {
        if same(names[k].as_str(), name) {
            return Some(k);
        }
        k += 1;
    }
    None
}

/// Whether `part` occurs at `i` in `whole`, checked character by character.
fn matches_at(whole: &str, part: &str, i: usize) -> (b: bool)
    requires
        i as int + part@.len() <= whole@.len(),
    ensures
        b == occurs_at(whole@, part@, i as int),
{
    let n = part.unicode_len();
    let lw = whole.unicode_len();
    let mut k: usize = 0;
    while k < n
        invariant
            n == part@.len(),
            lw == whole@.len(),
            i as int + n <= whole@.len(),
            k <= n,
            forall|j: int| 0 <= j < k ==> whole@[i + j] == part@[j],
        decreases n - k,
    {
        if whole.get_char(i + k) != part.get_char(k) {
            proof {
                assert(whole@.subrange(i as int, i + n)[k as int] != part@[k as int]);
            }
            return false;
        }
        k += 1;
    }
    proof {
        assert(whole@.subrange(i as int, i + n) =~= part@);
    }
    true
}

/// Whether `part` occurs anywhere in `whole`.
pub fn contains_part(whole: &str, part: &str) -> (b: bool)
    ensures
        b == has_part(whole@, part@),
{
    let lw = whole.unicode_len();
    let lp = part.unicode_len();
    if lp > lw {
        proof {
            assert forall|i: int| !occurs_at(whole@, part@, i) by {}
        }
        return false;
    }
    if lp == 0 {
        proof {
            assert(whole@.subrange(0, 0) =~= part@);
            assert(occurs_at(whole@, part@, 0));
        }
        return true;
    }
    let mut i: usize = 0;
    while i <= lw - lp
        invariant
            lw == whole@.len(),
            lp == part@.len(),
            0 < lp <= lw,
            i <= lw - lp + 1,
            forall|j: int| 0 <= j < i ==> !#[trigger] occurs_at(whole@, part@, j),
        decreases lw - lp + 1 - i,
    {
        if matches_at(whole, part, i) {
            return true;
        }
        i += 1;
    }
    proof {
        assert forall|j: int| !#[trigger] occurs_at(whole@, part@, j) by {
            if 0 <= j < i {
            }
        }
    }
    false
}

/// Whether `whole` ends with `part`.
pub fn ends_with_part(whole: &str, part: &str) -> (b: bool)
    ensures
        b == ends_with(whole@, part@),
{
    let lw = whole.unicode_len();
    let lp = part.unicode_len();
    if lp > lw {
        return false;
    }
    let b = matches_at(whole, part, lw - lp);
    b
}

/// The first name in a list that contains `part`.
pub fn first_containing(names: &Vec<String>, part: &str) -> (found: Option<usize>)
    ensures
        found matches Some(k) ==> k < names@.len() && has_part(names@[k as int]@, part@)
            && forall|j: int| 0 <= j < k ==> !has_part(#[trigger] names@[j]@, part@),
        found is None ==> forall|j: int| 0 <= j < names@.len() ==> !has_part(#[trigger] names@[j]@, part@),
{
    let mut k: usize = 0;
    while k < names.len()
        invariant
            k <= names@.len(),
            forall|j: int| 0 <= j < k ==> !has_part(#[trigger] names@[j]@, part@),
        decreases names@.len() - k,
    {
        if contains_part(names[k].as_str(), part) {
            return Some(k);
        }
        k += 1;
    }
    None
}

// ---------------------------------------------------------------------------
// Case
// ---------------------------------------------------------------------------

/// The lowercase form of a string, as the standard library's
/// `str::to_lowercase` gives it under the Unicode rules.
pub uninterp spec fn lowercase(s: Seq<char>) -> Seq<char>;

/// `str::to_lowercase`.
///
/// Trusted to return the standard library's lowercase form of `s`, named
/// [`lowercase`], and to be empty exactly when `s` is: the standard library
/// documents each character's lowercase mapping as one or more characters.
/// Which characters those are is not stated here.
#[verifier::external_body]
pub(crate) fn to_lowercase(s: &str) -> (r: String)
    ensures
        r@ == lowercase(s@),
        (r@.len() == 0) == (s@.len() == 0),
{
    s.to_lowercase()
}

/// An ASCII capital made small; every other character left alone.
pub open spec fn ascii_lower(c: char) -> char {
    if 'A' <= c && c <= 'Z' {
        ((c as u32) + 32) as char
    } else {
        c
    }
}

/// One character made small the ASCII way.
pub fn ascii_lower_char(c: char) -> (r: char)
    ensures
        r == ascii_lower(c),
{
    if 'A' <= c && c <= 'Z' {
        ((c as u8) + 32) as char
    } else {
        c
    }
}

/// Two names equal once ASCII capitals are made small.
pub open spec fn same_ignoring_ascii_case(a: Seq<char>, b: Seq<char>) -> bool {
    a.len() == b.len() && forall|i: int| 0 <= i < a.len() ==> ascii_lower(#[trigger] a[i]) == ascii_lower(b[i])
}

/// Whether two names match regardless of ASCII case.
pub fn eq_ignore_ascii_case(a: &str, b: &str) -> (r: bool)
    ensures
        r == same_ignoring_ascii_case(a@, b@),
{
    let la = a.unicode_len();
    let lb = b.unicode_len();
    if la != lb {
        return false;
    }
    let mut i: usize = 0;
    while i < la
        invariant
            la == a@.len(),
            lb == b@.len(),
            la == lb,
            i <= la,
            forall|j: int| 0 <= j < i ==> ascii_lower(#[trigger] a@[j]) == ascii_lower(b@[j]),
        decreases la - i,
    {
        if ascii_lower_char(a.get_char(i)) != ascii_lower_char(b.get_char(i)) {
            return false;
        }
        i += 1;
    }
    true
}

// ---------------------------------------------------------------------------
// Order
// ---------------------------------------------------------------------------

/// Dictionary order on names, character by character.
pub open spec fn lex_lt(a: Seq<char>, b: Seq<char>) -> bool
    decreases a.len(),
{
    if a.len() == 0 {
        b.len() > 0
    } else if b.len() == 0 {
        false
    } else if a[0] != b[0] {
        (a[0] as u32) < (b[0] as u32)
    } else {
        lex_lt(a.drop_first(), b.drop_first())
    }
}

/// Dictionary order never runs both ways.
pub proof fn lemma_lex_asymmetric(a: Seq<char>, b: Seq<char>)
    ensures
        !(lex_lt(a, b) && lex_lt(b, a)),
    decreases a.len(),
{
    if a.len() > 0 && b.len() > 0 && a[0] == b[0] {
        lemma_lex_asymmetric(a.drop_first(), b.drop_first());
    }
}

/// Comparing from position `i` on decides the same as from the start, while
/// everything before `i` is equal.
proof fn lemma_lex_skip(a: Seq<char>, b: Seq<char>, i: int)
    requires
        0 <= i <= a.len(),
        i <= b.len(),
        forall|j: int| 0 <= j < i ==> a[j] == b[j],
    ensures
        lex_lt(a, b) == lex_lt(a.skip(i), b.skip(i)),
    decreases i,
{
    if i > 0 {
        assert(a.drop_first().skip(i - 1) =~= a.skip(i));
        assert(b.drop_first().skip(i - 1) =~= b.skip(i));
        lemma_lex_skip(a.drop_first(), b.drop_first(), i - 1);
    } else {
        assert(a.skip(0) =~= a);
        assert(b.skip(0) =~= b);
    }
}

/// Dictionary order is transitive.
pub proof fn lemma_lex_transitive(a: Seq<char>, b: Seq<char>, c: Seq<char>)
    requires
        lex_lt(a, b),
        lex_lt(b, c),
    ensures
        lex_lt(a, c),
    decreases a.len(),
{
    if a.len() > 0 && a[0] == b[0] && b[0] == c[0] {
        lemma_lex_transitive(a.drop_first(), b.drop_first(), c.drop_first());
    }
}

/// Two names neither of which comes before the other are the same name.
pub proof fn lemma_lex_trichotomy(a: Seq<char>, b: Seq<char>)
    requires
        !lex_lt(a, b),
        !lex_lt(b, a),
    ensures
        a == b,
    decreases a.len(),
{
    if a.len() > 0 && b.len() > 0 {
        if a[0] == b[0] {
            lemma_lex_trichotomy(a.drop_first(), b.drop_first());
            assert(a =~= seq![a[0]] + a.drop_first());
            assert(b =~= seq![b[0]] + b.drop_first());
        } else {
            char_u32_cast(a[0], a[0] as u32);
            char_u32_cast(b[0], b[0] as u32);
        }
    } else {
        assert(a.len() == 0 && b.len() == 0);
        assert(a =~= b);
    }
}

/// Whether `a` comes strictly before `b` in dictionary order.
pub fn lex_less(a: &str, b: &str) -> (r: bool)
    ensures
        r == lex_lt(a@, b@),
{
    let la = a.unicode_len();
    let lb = b.unicode_len();
    let mut i: usize = 0;
    while i < la && i < lb && a.get_char(i) == b.get_char(i)
        invariant
            la == a@.len(),
            lb == b@.len(),
            i <= la,
            i <= lb,
            forall|j: int| 0 <= j < i ==> a@[j] == b@[j],
        decreases la - i,
    {
        i += 1;
    }
    proof {
        lemma_lex_skip(a@, b@, i as int);
    }
    if i == la {
        i < lb
    } else if i == lb {
        false
    } else {
        (a.get_char(i) as u32) < (b.get_char(i) as u32)
    }
}

// ---------------------------------------------------------------------------
// Numbers
// ---------------------------------------------------------------------------

/// The digit character for `d`.
pub open spec fn digit_char(d: int) -> char {
    if d == 0 {
        '0'
    } else if d == 1 {
        '1'
    } else if d == 2 {
        '2'
    } else if d == 3 {
        '3'
    } else if d == 4 {
        '4'
    } else if d == 5 {
        '5'
    } else if d == 6 {
        '6'
    } else if d == 7 {
        '7'
    } else if d == 8 {
        '8'
    } else {
        '9'
    }
}

/// The value of a digit character, if it is one.
pub open spec fn digit_value(c: char) -> int {
    (c as u32) - ('0' as u32)
}

pub open spec fn is_digit(c: char) -> bool {
    '0' <= c && c <= '9'
}

/// `n` written in decimal, with no leading zeros.
pub open spec fn decimal(n: nat) -> Seq<char>
    decreases n,
{
    if n < 10 {
        seq![digit_char(n as int)]
    } else {
        decimal(n / 10).push(digit_char((n % 10) as int))
    }
}

/// The value of a run of decimal digits.
pub open spec fn digits_value(s: Seq<char>) -> int
    decreases s.len(),
{
    if s.len() == 0 {
        0
    } else {
        digits_value(s.drop_last()) * 10 + digit_value(s.last())
    }
}

/// A number's text without the one `+` it may start with.
pub open spec fn unsigned_body(s: Seq<char>) -> Seq<char> {
    if s.len() > 0 && s[0] == '+' {
        s.drop_first()
    } else {
        s
    }
}

/// What `str::parse::<u32>` accepts: an optional `+`, then at least one
/// decimal digit and nothing else, worth no more than `u32::MAX`.
pub open spec fn u32_text(s: Seq<char>) -> Option<u32> {
    let body = unsigned_body(s);
    if body.len() > 0 && (forall|i: int| 0 <= i < body.len() ==> is_digit(#[trigger] body[i])) && digits_value(body)
        <= u32::MAX {
        Some(digits_value(body) as u32)
    } else {
        None
    }
}

/// The character for a digit.
pub fn digit(d: u64) -> (c: char)
    requires
        d < 10,
    ensures
        c == digit_char(d as int),
{
    if d == 0 {
        '0'
    } else if d == 1 {
        '1'
    } else if d == 2 {
        '2'
    } else if d == 3 {
        '3'
    } else if d == 4 {
        '4'
    } else if d == 5 {
        '5'
    } else if d == 6 {
        '6'
    } else if d == 7 {
        '7'
    } else if d == 8 {
        '8'
    } else {
        '9'
    }
}

/// `String::push`.
///
/// Trusted to append `c` to the end of `s`, as the standard library documents.
#[verifier::external_body]
pub(crate) fn push_char(s: &mut String, c: char)
    ensures
        final(s)@ == old(s)@.push(c),
{
    s.push(c)
}

/// Appends `n` in decimal to `s`.
pub fn push_decimal(s: &mut String, n: u64)
    ensures
        final(s)@ == old(s)@ + decimal(n as nat),
    decreases n,
{
    if n < 10 {
        push_char(s, digit(n));
        proof {
            assert(decimal(n as nat) == seq![digit_char(n as int)]);
        }
    } else {
        let ghost before = s@;
        push_decimal(s, n / 10);
        push_char(s, digit(n % 10));
        proof {
            assert(decimal(n as nat) == decimal((n / 10) as nat).push(digit_char((n % 10) as int)));
            assert(s@ =~= before + decimal(n as nat));
        }
    }
}

/// `n` in decimal.
pub fn decimal_text(n: u64) -> (s: String)
    ensures
        s@ == decimal(n as nat),
{
    let mut s = String::new();
    push_decimal(&mut s, n);
    proof {
        assert(s@ =~= decimal(n as nat));
    }
    s
}

/// `n` in decimal, with zeros in front to make it at least `width` long.
pub open spec fn zero_padded(n: nat, width: nat) -> Seq<char> {
    let d = decimal(n);
    if d.len() < width {
        Seq::new((width - d.len()) as nat, |_i: int| '0') + d
    } else {
        d
    }
}

proof fn lemma_decimal_nonempty(n: nat)
    ensures
        decimal(n).len() >= 1,
    decreases n,
{
    if n >= 10 {
        lemma_decimal_nonempty(n / 10);
    }
}

/// `n` in decimal, padded with leading zeros to at least `width` characters.
pub fn push_zero_padded(s: &mut String, n: u64, width: usize)
    ensures
        final(s)@ == old(s)@ + zero_padded(n as nat, width as nat),
{
    let digits = decimal_text(n);
    let len = digits.as_str().unicode_len();
    let ghost before = s@;
    let mut k: usize = len;
    while k < width
        invariant
            len == decimal(n as nat).len(),
            len <= k,
            k <= width || k == len,
            s@ == before + Seq::new((k - len) as nat, |_i: int| '0'),
        decreases width - k,
    {
        push_char(s, '0');
        proof {
            assert(s@ =~= before + Seq::new((k + 1 - len) as nat, |_i: int| '0'));
        }
        k += 1;
    }
    s.append(digits.as_str());
    proof {
        if len < width {
            assert(k == width);
        } else {
            assert(k == len);
            assert(Seq::new(0nat, |_i: int| '0') =~= Seq::<char>::empty());
        }
        assert(s@ =~= before + zero_padded(n as nat, width as nat));
    }
}

proof fn lemma_digits_step(s: Seq<char>, i: int)
    requires
        0 <= i < s.len(),
    ensures
        digits_value(s.take(i + 1)) == digits_value(s.take(i)) * 10 + digit_value(s[i]),
{
    assert(s.take(i + 1).drop_last() =~= s.take(i));
}

/// Reads an unsigned 32-bit number the way `str::parse::<u32>` does: an
/// optional `+`, then one or more decimal digits, with nothing else and
/// nothing too big.
pub fn parse_u32(s: &str) -> (r: Option<u32>)
    ensures
        r == u32_text(s@),
{
    let len = s.unicode_len();
    let ghost body = unsigned_body(s@);
    let start: usize = if len > 0 && s.get_char(0) == '+' {
        1
    } else {
        0
    };
    proof {
        assert(body =~= s@.skip(start as int));
    }
    if start == len {
        return None;
    }
    let mut value: u64 = 0;
    let mut i: usize = start;
    while i < len
        invariant
            len == s@.len(),
            start <= i <= len,
            body == unsigned_body(s@),
            body =~= s@.skip(start as int),
            forall|j: int| 0 <= j < i - start ==> is_digit(#[trigger] body[j]),
            value == digits_value(body.take(i - start)),
            value <= u32::MAX,
        decreases len - i,
    {
        let c = s.get_char(i);
        if !('0' <= c && c <= '9') {
            proof {
                assert(!is_digit(body[i - start]));
                assert(u32_text(s@) is None);
            }
            return None;
        }
        proof {
            lemma_digits_step(body, i - start);
        }
        let d = (c as u32 - '0' as u32) as u64;
        let next = value * 10 + d;
        if next > 4294967295 {
            proof {
                if forall|j: int| 0 <= j < body.len() ==> is_digit(#[trigger] body[j]) {
                    lemma_digits_grow(body, i - start + 1);
                }
                assert(u32_text(s@) is None);
            }
            return None;
        }
        value = next;
        i += 1;
    }
    proof {
        assert(body.take(len - start) =~= body);
    }
    Some(value as u32)
}

/// A longer run of digits is never worth less than its prefix.
proof fn lemma_digits_grow(s: Seq<char>, k: int)
    requires
        0 <= k <= s.len(),
        forall|j: int| 0 <= j < s.len() ==> is_digit(#[trigger] s[j]),
    ensures
        digits_value(s) >= digits_value(s.take(k)),
        digits_value(s.take(k)) >= 0,
    decreases s.len() - k,
{
    if k < s.len() {
        lemma_digits_grow(s, k + 1);
        lemma_digits_step(s, k);
        lemma_digits_nonneg(s.take(k));
        assert(digit_value(s[k]) >= 0);
        assert(digits_value(s.take(k)) * 10 >= digits_value(s.take(k))) by (nonlinear_arith)
            requires
                digits_value(s.take(k)) >= 0,
        ;
    } else {
        assert(s.take(k) =~= s);
        lemma_digits_nonneg(s);
    }
}

proof fn lemma_digits_nonneg(s: Seq<char>)
    requires
        forall|j: int| 0 <= j < s.len() ==> is_digit(#[trigger] s[j]),
    ensures
        digits_value(s) >= 0,
    decreases s.len(),
{
    if s.len() > 0 {
        lemma_digits_nonneg(s.drop_last());
        assert(is_digit(s[s.len() - 1]));
    }
}

// ---------------------------------------------------------------------------
// Cutting
// ---------------------------------------------------------------------------

/// Where `c` first occurs in `s` at or after `i`.
pub open spec fn first_from(s: Seq<char>, c: char, i: int) -> Option<int>
    decreases s.len() - i,
{
    if i < 0 || i >= s.len() {
        None
    } else if s[i] == c {
        Some(i)
    } else {
        first_from(s, c, i + 1)
    }
}

/// Where `c` last occurs in `s` before `j`.
pub open spec fn last_before(s: Seq<char>, c: char, j: int) -> Option<int>
    decreases j,
{
    if j <= 0 || j > s.len() {
        None
    } else if s[j - 1] == c {
        Some(j - 1)
    } else {
        last_before(s, c, j - 1)
    }
}

/// `s` split around the first `c` in it, as `str::split_once` does.
pub open spec fn split_first(s: Seq<char>, c: char) -> Option<(Seq<char>, Seq<char>)> {
    match first_from(s, c, 0) {
        Some(k) => Some((s.take(k), s.skip(k + 1))),
        None => None,
    }
}

/// `s` split around the last `c` in it, as `str::rsplit_once` does.
pub open spec fn split_last(s: Seq<char>, c: char) -> Option<(Seq<char>, Seq<char>)> {
    match last_before(s, c, s.len() as int) {
        Some(k) => Some((s.take(k), s.skip(k + 1))),
        None => None,
    }
}

proof fn lemma_first_from_bound(s: Seq<char>, c: char, i: int)
    requires
        0 <= i,
    ensures
        first_from(s, c, i) matches Some(k) ==> i <= k < s.len() && s[k] == c,
    decreases s.len() - i,
{
    if i < s.len() && s[i] != c {
        lemma_first_from_bound(s, c, i + 1);
    }
}

proof fn lemma_last_before_bound(s: Seq<char>, c: char, j: int)
    requires
        j <= s.len(),
    ensures
        last_before(s, c, j) matches Some(k) ==> 0 <= k < j && s[k] == c,
    decreases j,
{
    if j > 0 && s[j - 1] != c {
        last_before_step(s, c, j);
        lemma_last_before_bound(s, c, j - 1);
    }
}

proof fn last_before_step(s: Seq<char>, c: char, j: int)
    requires
        0 < j <= s.len(),
        s[j - 1] != c,
    ensures
        last_before(s, c, j) == last_before(s, c, j - 1),
{
}

/// Split a string around the first `c` in it.
pub fn split_once_at<'a>(s: &'a str, c: char) -> (r: Option<(&'a str, &'a str)>)
    ensures
        match r {
            Some((a, b)) => split_first(s@, c) == Some((a@, b@)),
            None => split_first(s@, c) is None,
        },
{
    let len = s.unicode_len();
    let mut i: usize = 0;
    proof {
        lemma_first_from_bound(s@, c, 0);
    }
    while i < len
        invariant
            len == s@.len(),
            i <= len,
            first_from(s@, c, i as int) == first_from(s@, c, 0),
        decreases len - i,
    {
        if s.get_char(i) == c {
            let a = s.substring_char(0, i);
            let b = s.substring_char(i + 1, len);
            proof {
                assert(a@ =~= s@.take(i as int));
                assert(b@ =~= s@.skip(i + 1));
            }
            return Some((a, b));
        }
        i += 1;
    }
    None
}

/// Split a string around the last `c` in it.
pub fn rsplit_once_at<'a>(s: &'a str, c: char) -> (r: Option<(&'a str, &'a str)>)
    ensures
        match r {
            Some((a, b)) => split_last(s@, c) == Some((a@, b@)),
            None => split_last(s@, c) is None,
        },
{
    let len = s.unicode_len();
    let mut j: usize = len;
    proof {
        lemma_last_before_bound(s@, c, len as int);
    }
    while j > 0
        invariant
            len == s@.len(),
            j <= len,
            last_before(s@, c, j as int) == last_before(s@, c, len as int),
        decreases j,
    {
        if s.get_char(j - 1) == c {
            let a = s.substring_char(0, j - 1);
            let b = s.substring_char(j, len);
            proof {
                assert(a@ =~= s@.take(j - 1));
                assert(b@ =~= s@.skip(j as int));
            }
            return Some((a, b));
        }
        proof {
            last_before_step(s@, c, j as int);
        }
        j -= 1;
    }
    None
}

/// `s` without `p` in front, when it starts with `p`.
pub open spec fn without_prefix(s: Seq<char>, p: Seq<char>) -> Option<Seq<char>> {
    if p.len() <= s.len() && s.take(p.len() as int) == p {
        Some(s.skip(p.len() as int))
    } else {
        None
    }
}

/// `s` without `p` at the end, when it ends with `p`.
pub open spec fn without_suffix(s: Seq<char>, p: Seq<char>) -> Option<Seq<char>> {
    if ends_with(s, p) {
        Some(s.take(s.len() - p.len()))
    } else {
        None
    }
}

/// A string without `p` in front, as `str::strip_prefix` gives it.
pub fn strip_prefix_of<'a>(s: &'a str, p: &str) -> (r: Option<&'a str>)
    ensures
        match r {
            Some(t) => without_prefix(s@, p@) == Some(t@),
            None => without_prefix(s@, p@) is None,
        },
{
    let ls = s.unicode_len();
    let lp = p.unicode_len();
    if lp > ls {
        return None;
    }
    if matches_at(s, p, 0) {
        proof {
            assert(s@.subrange(0, lp as int) =~= s@.take(lp as int));
        }
        let t = s.substring_char(lp, ls);
        proof {
            assert(t@ =~= s@.skip(lp as int));
        }
        Some(t)
    } else {
        proof {
            assert(s@.subrange(0, lp as int) =~= s@.take(lp as int));
        }
        None
    }
}

/// A string without `p` at the end, as `str::strip_suffix` gives it.
pub fn strip_suffix_of<'a>(s: &'a str, p: &str) -> (r: Option<&'a str>)
    ensures
        match r {
            Some(t) => without_suffix(s@, p@) == Some(t@),
            None => without_suffix(s@, p@) is None,
        },
{
    let ls = s.unicode_len();
    let lp = p.unicode_len();
    if ends_with_part(s, p) {
        let t = s.substring_char(0, ls - lp);
        proof {
            assert(t@ =~= s@.take(ls - lp));
        }
        Some(t)
    } else {
        None
    }
}

// ---------------------------------------------------------------------------
// Lists of names
// ---------------------------------------------------------------------------

/// Every name in `s` comes no later than every name after it.
pub open spec fn names_in_order(s: Seq<Seq<char>>) -> bool {
    forall|i: int, j: int| 0 <= i < j < s.len() ==> !lex_lt(#[trigger] s[j], #[trigger] s[i])
}

/// Names as characters.
pub open spec fn name_views(s: Seq<String>) -> Seq<Seq<char>> {
    s.map_values(|n: String| n@)
}

proof fn lemma_insert_to_multiset<A>(s: Seq<A>, p: int, x: A)
    requires
        0 <= p <= s.len(),
    ensures
        s.insert(p, x).to_multiset() =~= s.to_multiset().insert(x),
{
    broadcast use vstd::seq_lib::group_to_multiset_ensures;

    let t = s.insert(p, x);
    assert(t.remove(p) =~= s);
    assert(t[p] == x);
    assert(t.contains(x));
}

/// The same names in dictionary order.
pub fn sorted_names(names: Vec<String>) -> (sorted: Vec<String>)
    ensures
        names_in_order(name_views(sorted@)),
        name_views(sorted@).to_multiset() =~= name_views(names@).to_multiset(),
{
    broadcast use vstd::seq_lib::group_to_multiset_ensures;

    let mut sorted: Vec<String> = Vec::new();
    let mut i: usize = 0;
    proof {
        assert(name_views(names@.take(0)) =~= Seq::empty());
        assert(name_views(sorted@) =~= Seq::empty());
    }
    while i < names.len()
        invariant
            i <= names@.len(),
            names_in_order(name_views(sorted@)),
            name_views(sorted@).to_multiset() =~= name_views(names@.take(i as int)).to_multiset(),
        decreases names@.len() - i,
    {
        let item = names[i].clone();
        let mut p: usize = 0;
        while p < sorted.len() && !lex_less(item.as_str(), sorted[p].as_str())
            invariant
                p <= sorted@.len(),
                forall|q: int| 0 <= q < p ==> !lex_lt(item@, (#[trigger] sorted@[q])@),
            decreases sorted@.len() - p,
        {
            p += 1;
        }
        let ghost before = sorted@;
        let ghost seen = item@;
        assert(seen == name_views(names@)[i as int]);
        sorted.insert(p, item);
        proof {
            let v = name_views(before);
            assert(name_views(sorted@) =~= v.insert(p as int, seen));
            assert forall|a: int, b: int| 0 <= a < b < name_views(sorted@).len() implies !lex_lt(
                #[trigger] name_views(sorted@)[b],
                #[trigger] name_views(sorted@)[a],
            ) by {
                let w = name_views(sorted@);
                if b < p {
                    assert(w[a] == v[a] && w[b] == v[b]);
                } else if b == p {
                    assert(w[a] == v[a]);
                    assert(!lex_lt(seen, before[a]@));
                } else if a == p {
                    assert(w[b] == v[b - 1]);
                    assert(lex_lt(seen, v[p as int]));
                    if b - 1 > p {
                        assert(!lex_lt(v[b - 1], v[p as int]));
                    }
                    if lex_lt(v[b - 1], seen) {
                        lemma_lex_transitive(v[b - 1], seen, v[p as int]);
                        lemma_lex_asymmetric(v[b - 1], v[p as int]);
                    }
                } else if a < p {
                    assert(w[a] == v[a] && w[b] == v[b - 1]);
                } else {
                    assert(w[a] == v[a - 1] && w[b] == v[b - 1]);
                }
            }
            lemma_insert_to_multiset(v, p as int, seen);
            assert(name_views(names@.take(i + 1)) =~= name_views(names@.take(i as int)).push(seen));
            vstd::seq_lib::to_multiset_build(name_views(names@.take(i as int)), seen);
        }
        i += 1;
    }
    proof {
        assert(names@.take(names@.len() as int) =~= names@);
    }
    sorted
}

/// Names one after another, with `sep` between each two.
pub open spec fn joined(names: Seq<Seq<char>>, sep: Seq<char>) -> Seq<char>
    decreases names.len(),
{
    if names.len() == 0 {
        Seq::empty()
    } else if names.len() == 1 {
        names[0]
    } else {
        joined(names.drop_last(), sep) + sep + names.last()
    }
}

/// Names one after another, with `sep` between each two, as `join` gives
/// them.
pub fn join(names: &Vec<String>, sep: &str) -> (s: String)
    ensures
        s@ == joined(name_views(names@), sep@),
{
    let mut s = String::new();
    let mut i: usize = 0;
    proof {
        assert(s@ =~= joined(name_views(names@.take(0)), sep@));
    }
    while i < names.len()
        invariant
            i <= names@.len(),
            s@ == joined(name_views(names@.take(i as int)), sep@),
        decreases names@.len() - i,
    {
        let ghost before = s@;
        let ghost prior = name_views(names@.take(i as int));
        let ghost now = name_views(names@.take(i + 1));
        proof {
            assert(now.drop_last() =~= prior);
            assert(now.last() == names@[i as int]@);
            assert(now.len() == i + 1);
        }
        if i > 0 {
            s.append(sep);
        }
        s.append(names[i].as_str());
        proof {
            if i == 0 {
                assert(before =~= Seq::<char>::empty());
                assert(s@ =~= now[0]);
            } else {
                assert(s@ =~= before + sep@ + names@[i as int]@);
            }
        }
        i += 1;
    }
    proof {
        assert(names@.take(names@.len() as int) =~= names@);
    }
    s
}

proof fn lemma_digit_char_value(d: int)
    requires
        0 <= d < 10,
    ensures
        digit_value(digit_char(d)) == d,
        is_digit(digit_char(d)),
{
}

/// A number written in decimal reads back as itself.
pub proof fn lemma_decimal_value(n: nat)
    ensures
        digits_value(decimal(n)) == n,
    decreases n,
{
    if n < 10 {
        lemma_digit_char_value(n as int);
        let d = decimal(n);
        assert(d.drop_last() =~= Seq::<char>::empty());
        assert(digits_value(d) == digits_value(d.drop_last()) * 10 + digit_value(d.last()));
    } else {
        lemma_decimal_value(n / 10);
        lemma_digit_char_value((n % 10) as int);
        let d = decimal(n);
        assert(d.drop_last() =~= decimal(n / 10));
        assert(d.last() == digit_char((n % 10) as int));
        assert(digits_value(d) == digits_value(d.drop_last()) * 10 + digit_value(d.last()));
        assert((n / 10) * 10 + n % 10 == n);
    }
}

proof fn lemma_leading_zeros(k: nat, d: Seq<char>)
    ensures
        digits_value(Seq::new(k, |_i: int| '0') + d) == digits_value(d),
    decreases d.len(), k,
{
    let z = Seq::new(k, |_i: int| '0');
    if d.len() == 0 {
        assert(z + d =~= z);
        if k > 0 {
            assert(z.drop_last() =~= Seq::new((k - 1) as nat, |_i: int| '0'));
            lemma_leading_zeros((k - 1) as nat, d);
            assert(Seq::new((k - 1) as nat, |_i: int| '0') + d =~= Seq::new((k - 1) as nat, |_i: int| '0'));
        }
    } else {
        assert((z + d).drop_last() =~= z + d.drop_last());
        lemma_leading_zeros(k, d.drop_last());
    }
}

/// Zero-padding keeps numbers apart: two numbers padded to the same width
/// are written differently.
pub proof fn lemma_zero_padded_injective(a: nat, b: nat, width: nat)
    requires
        a != b,
    ensures
        zero_padded(a, width) != zero_padded(b, width),
{
    lemma_zero_padded_value(a, width);
    lemma_zero_padded_value(b, width);
}

proof fn lemma_zero_padded_value(n: nat, width: nat)
    ensures
        digits_value(zero_padded(n, width)) == n,
{
    lemma_decimal_value(n);
    let d = decimal(n);
    if d.len() < width {
        lemma_leading_zeros((width - d.len()) as nat, d);
    }
}

/// A number written in decimal is one or more digits.
pub proof fn lemma_decimal_digits(n: nat)
    ensures
        decimal(n).len() >= 1,
        forall|i: int| 0 <= i < decimal(n).len() ==> is_digit(#[trigger] decimal(n)[i]),
    decreases n,
{
    if n < 10 {
        lemma_digit_char_value(n as int);
    } else {
        lemma_decimal_digits(n / 10);
        lemma_digit_char_value((n % 10) as int);
        let d = decimal(n);
        assert forall|i: int| 0 <= i < d.len() implies is_digit(#[trigger] d[i]) by {
            if i < d.len() - 1 {
                assert(d[i] == decimal(n / 10)[i]);
            }
        }
    }
}

/// A number written in decimal is read back as itself.
pub proof fn lemma_decimal_reads_back(n: u32)
    ensures
        u32_text(decimal(n as nat)) == Some(n),
{
    lemma_decimal_digits(n as nat);
    lemma_decimal_value(n as nat);
    let d = decimal(n as nat);
    assert(is_digit(d[0]));
    assert(unsigned_body(d) == d);
}

} // verus!
