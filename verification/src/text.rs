//! Character-sequence toolkit shared by the parsers.
//!
//! Every function here works on `Seq<char>` models: text is a sequence of
//! Unicode scalar values, exactly what `str::chars` yields.
use vstd::prelude::*;

verus! {

// ─────────────────────────────────────────────────────────────────────────────
// Character classes
// ─────────────────────────────────────────────────────────────────────────────

/// Unicode `White_Space` (the set `char::is_whitespace` accepts).
pub open spec fn is_ws(c: char) -> bool {
    let u = c as u32;
    ||| (9 <= u && u <= 13)
    ||| u == 32
    ||| u == 0x85
    ||| u == 0xA0
    ||| u == 0x1680
    ||| (0x2000 <= u && u <= 0x200A)
    ||| u == 0x2028
    ||| u == 0x2029
    ||| u == 0x202F
    ||| u == 0x205F
    ||| u == 0x3000
}

pub open spec fn is_ascii_upper(c: char) -> bool {
    'A' <= c && c <= 'Z'
}

pub open spec fn is_ascii_lower(c: char) -> bool {
    'a' <= c && c <= 'z'
}

pub open spec fn is_ascii_digit(c: char) -> bool {
    '0' <= c && c <= '9'
}

pub open spec fn is_ascii_alpha(c: char) -> bool {
    is_ascii_upper(c) || is_ascii_lower(c)
}

pub open spec fn is_ascii_alnum(c: char) -> bool {
    is_ascii_alpha(c) || is_ascii_digit(c)
}

/// ASCII lowercase mapping (`char::to_ascii_lowercase`).
pub open spec fn lower_char(c: char) -> char {
    if is_ascii_upper(c) {
        ((c as u32) + 32) as char
    } else {
        c
    }
}

/// ASCII uppercase mapping (`char::to_ascii_uppercase`).
pub open spec fn upper_char(c: char) -> char {
    if is_ascii_lower(c) {
        ((c as u32) - 32) as char
    } else {
        c
    }
}

pub fn is_ws_char(c: char) -> (b: bool)
    ensures
        b == is_ws(c),
{
    let u = c as u32;
    (9 <= u && u <= 13) || u == 32 || u == 0x85 || u == 0xA0 || u == 0x1680 || (0x2000 <= u
        && u <= 0x200A) || u == 0x2028 || u == 0x2029 || u == 0x202F || u == 0x205F || u == 0x3000
}

pub fn is_ascii_digit_char(c: char) -> (b: bool)
    ensures
        b == is_ascii_digit(c),
{
    '0' <= c && c <= '9'
}

pub fn is_ascii_alpha_char(c: char) -> (b: bool)
    ensures
        b == is_ascii_alpha(c),
{
    ('A' <= c && c <= 'Z') || ('a' <= c && c <= 'z')
}

pub fn is_ascii_alnum_char(c: char) -> (b: bool)
    ensures
        b == is_ascii_alnum(c),
{
    is_ascii_alpha_char(c) || is_ascii_digit_char(c)
}

pub fn lower_of(c: char) -> (r: char)
    ensures
        r == lower_char(c),
{
    if 'A' <= c && c <= 'Z' {
        let u = (c as u32) + 32;
        let b = u as u8;
        b as char
    } else {
        c
    }
}

pub fn upper_of(c: char) -> (r: char)
    ensures
        r == upper_char(c),
{
    if 'a' <= c && c <= 'z' {
        let u = (c as u32) - 32;
        let b = u as u8;
        b as char
    } else {
        c
    }
}

// ─────────────────────────────────────────────────────────────────────────────
// Conversions between `str`/`String` and character vectors
// ─────────────────────────────────────────────────────────────────────────────

/// The characters of `s`, in order.
pub fn chars_of(s: &str) -> (v: Vec<char>)
    ensures
        v@ == s@,
{
    let mut v: Vec<char> = Vec::new();
    for c in it: s.chars()
        invariant
            v@ == it.seq().take(it.index() as int),
            it.seq() == s@,
    {
        v.push(c);
    }
    v
}

/// Appends `c` to `s` (`String::push`).
#[verifier::external_body]
fn push_char(s: &mut String, c: char)
    ensures
        final(s)@ == old(s)@.push(c),
{
    s.push(c);
}

/// A `String` holding exactly the characters of `v`.
pub fn string_of(v: &[char]) -> (s: String)
    ensures
        s@ == v@,
{
    let mut s = String::new();
    let mut i: usize = 0;
    while i < v.len()
        invariant
            i <= v@.len(),
            s@ == v@.take(i as int),
        decreases v@.len() - i,
    {
        push_char(&mut s, v[i]);
        assert(v@.take(i + 1) =~= v@.take(i as int).push(v@[i as int]));
        i = i + 1;
    }
    assert(v@.take(v@.len() as int) =~= v@);
    s
}

/// `v@.subrange(i, j)` as a new vector.
pub fn slice_of(v: &[char], i: usize, j: usize) -> (r: Vec<char>)
    requires
        i <= j <= v@.len(),
    ensures
        r@ == v@.subrange(i as int, j as int),
{
    let mut r: Vec<char> = Vec::new();
    let mut k = i;
    while k < j
        invariant
            i <= k <= j <= v@.len(),
            r@ == v@.subrange(i as int, k as int),
        decreases j - k,
    {
        r.push(v[k]);
        assert(v@.subrange(i as int, k + 1) =~= v@.subrange(i as int, k as int).push(v@[k as int]));
        k = k + 1;
    }
    r
}

/// `a ++ b`.
pub fn concat(a: &[char], b: &[char]) -> (r: Vec<char>)
    ensures
        r@ == a@ + b@,
{
    let mut r: Vec<char> = Vec::new();
    let mut k: usize = 0;
    while k < a.len()
        invariant
            k <= a@.len(),
            r@ == a@.take(k as int),
        decreases a@.len() - k,
    {
        r.push(a[k]);
        assert(a@.take(k + 1) =~= a@.take(k as int).push(a@[k as int]));
        k = k + 1;
    }
    assert(a@.take(a@.len() as int) =~= a@);
    let mut m: usize = 0;
    while m < b.len()
        invariant
            m <= b@.len(),
            r@ == a@ + b@.take(m as int),
        decreases b@.len() - m,
    {
        r.push(b[m]);
        assert(a@ + b@.take(m + 1) =~= (a@ + b@.take(m as int)).push(b@[m as int]));
        m = m + 1;
    }
    assert(b@.take(b@.len() as int) =~= b@);
    r
}

/// Appends `b` to `a` in place.
pub fn append(a: &mut Vec<char>, b: &[char])
    ensures
        final(a)@ == old(a)@ + b@,
{
    let mut m: usize = 0;
    while m < b.len()
        invariant
            m <= b@.len(),
            a@ == old(a)@ + b@.take(m as int),
        decreases b@.len() - m,
    {
        a.push(b[m]);
        assert(old(a)@ + b@.take(m + 1) =~= (old(a)@ + b@.take(m as int)).push(b@[m as int]));
        m = m + 1;
    }
    assert(b@.take(b@.len() as int) =~= b@);
}

/// Element-wise equality of two character sequences.
pub fn eq(a: &[char], b: &[char]) -> (r: bool)
    ensures
        r == (a@ == b@),
{
    if a.len() != b.len() {
        return false;
    }
    let mut k: usize = 0;
    while k < a.len()
        invariant
            a@.len() == b@.len(),
            k <= a@.len(),
            forall|t: int| 0 <= t < k ==> a@[t] == b@[t],
        decreases a@.len() - k,
    {
        if a[k] != b[k] {
            return false;
        }
        k = k + 1;
    }
    assert(a@ =~= b@);
    true
}

// ─────────────────────────────────────────────────────────────────────────────
// Case mapping
// ─────────────────────────────────────────────────────────────────────────────

/// ASCII lowercase of every character (`str::to_ascii_lowercase`).
pub open spec fn lower(s: Seq<char>) -> Seq<char> {
    s.map_values(|c: char| lower_char(c))
}

/// ASCII uppercase of every character (`str::to_ascii_uppercase`).
pub open spec fn upper(s: Seq<char>) -> Seq<char> {
    s.map_values(|c: char| upper_char(c))
}

pub fn to_lower(v: &[char]) -> (r: Vec<char>)
    ensures
        r@ == lower(v@),
{
    let mut r: Vec<char> = Vec::new();
    let mut k: usize = 0;
    while k < v.len()
        invariant
            k <= v@.len(),
            r@ == lower(v@.take(k as int)),
        decreases v@.len() - k,
    {
        r.push(lower_of(v[k]));
        assert(lower(v@.take(k + 1)) =~= lower(v@.take(k as int)).push(lower_char(v@[k as int])));
        k = k + 1;
    }
    assert(v@.take(v@.len() as int) =~= v@);
    r
}

/// `char::to_lowercase` as far as comparisons with ASCII text can tell:
/// ASCII capitals become small letters and the Kelvin sign (U+212A) becomes
/// `k`. Every other character lowercases to characters that are not ASCII,
/// except `İ` (U+0130), whose lowercase `i` is followed by a combining dot, so
/// it matches no ASCII keyword that goes on after the `i`.
pub open spec fn fold_char(c: char) -> char {
    if c == '\u{212A}' {
        'k'
    } else {
        lower_char(c)
    }
}

/// Every character folded (see [`fold_char`]).
pub open spec fn fold(s: Seq<char>) -> Seq<char> {
    s.map_values(|c: char| fold_char(c))
}

pub fn to_fold(v: &[char]) -> (r: Vec<char>)
    ensures
        r@ == fold(v@),
{
    let mut r: Vec<char> = Vec::new();
    let mut k: usize = 0;
    while k < v.len()
        invariant
            k <= v@.len(),
            r@ == fold(v@.take(k as int)),
        decreases v@.len() - k,
    {
        let c = if v[k] == '\u{212A}' {
            'k'
        } else {
            lower_of(v[k])
        };
        r.push(c);
        assert(fold(v@.take(k + 1)) =~= fold(v@.take(k as int)).push(fold_char(v@[k as int])));
        k = k + 1;
    }
    assert(v@.take(v@.len() as int) =~= v@);
    r
}

pub fn to_upper(v: &[char]) -> (r: Vec<char>)
    ensures
        r@ == upper(v@),
{
    let mut r: Vec<char> = Vec::new();
    let mut k: usize = 0;
    while k < v.len()
        invariant
            k <= v@.len(),
            r@ == upper(v@.take(k as int)),
        decreases v@.len() - k,
    {
        r.push(upper_of(v[k]));
        assert(upper(v@.take(k + 1)) =~= upper(v@.take(k as int)).push(upper_char(v@[k as int])));
        k = k + 1;
    }
    assert(v@.take(v@.len() as int) =~= v@);
    r
}

// ─────────────────────────────────────────────────────────────────────────────
// Trimming
// ─────────────────────────────────────────────────────────────────────────────

/// Index of the first non-whitespace character at or after `i` (or `s.len()`).
pub open spec fn skip_ws(s: Seq<char>, i: int) -> int
    decreases s.len() - i,
{
    if 0 <= i < s.len() && is_ws(s[i]) {
        skip_ws(s, i + 1)
    } else {
        i
    }
}

/// End of the text once trailing whitespace before `j` is dropped.
pub open spec fn back_ws(s: Seq<char>, j: int) -> int
    decreases j,
{
    if 0 < j <= s.len() && is_ws(s[j - 1]) {
        back_ws(s, j - 1)
    } else {
        j
    }
}

/// `str::trim_start`.
pub open spec fn trim_start(s: Seq<char>) -> Seq<char> {
    s.skip(skip_ws(s, 0))
}

/// `str::trim_end`.
pub open spec fn trim_end(s: Seq<char>) -> Seq<char> {
    s.take(back_ws(s, s.len() as int))
}

/// `str::trim`.
pub open spec fn trim(s: Seq<char>) -> Seq<char> {
    trim_end(trim_start(s))
}

pub proof fn lemma_skip_ws_bounds(s: Seq<char>, i: int)
    requires
        0 <= i <= s.len(),
    ensures
        i <= skip_ws(s, i) <= s.len(),
        skip_ws(s, i) < s.len() ==> !is_ws(s[skip_ws(s, i)]),
        forall|k: int| i <= k < skip_ws(s, i) ==> is_ws(s[k]),
    decreases s.len() - i,
{
    if i < s.len() && is_ws(s[i]) {
        lemma_skip_ws_bounds(s, i + 1);
    }
}

pub proof fn lemma_back_ws_bounds(s: Seq<char>, j: int)
    requires
        0 <= j <= s.len(),
    ensures
        0 <= back_ws(s, j) <= j,
        back_ws(s, j) > 0 ==> !is_ws(s[back_ws(s, j) - 1]),
        forall|k: int| back_ws(s, j) <= k < j ==> is_ws(s[k]),
    decreases j,
{
    if 0 < j && is_ws(s[j - 1]) {
        lemma_back_ws_bounds(s, j - 1);
    }
}

/// The first index at or after `i` that is not whitespace.
pub fn skip_ws_exec(v: &[char], i: usize) -> (r: usize)
    requires
        i <= v@.len(),
    ensures
        r == skip_ws(v@, i as int),
        i <= r <= v@.len(),
{
    let mut k = i;
    while k < v.len() && is_ws_char(v[k])
        invariant
            i <= k <= v@.len(),
            skip_ws(v@, k as int) == skip_ws(v@, i as int),
        decreases v@.len() - k,
    {
        k = k + 1;
    }
    k
}

/// Trailing-whitespace boundary before `j`.
pub fn back_ws_exec(v: &[char], j: usize) -> (r: usize)
    requires
        j <= v@.len(),
    ensures
        r == back_ws(v@, j as int),
        r <= j,
{
    let mut k = j;
    while k > 0 && is_ws_char(v[k - 1])
        invariant
            k <= j <= v@.len(),
            back_ws(v@, k as int) == back_ws(v@, j as int),
        decreases k,
    {
        k = k - 1;
    }
    k
}

pub fn trim_start_of(v: &[char]) -> (r: Vec<char>)
    ensures
        r@ == trim_start(v@),
{
    let i = skip_ws_exec(v, 0);
    slice_of(v, i, v.len())
}

pub fn trim_end_of(v: &[char]) -> (r: Vec<char>)
    ensures
        r@ == trim_end(v@),
{
    let j = back_ws_exec(v, v.len());
    slice_of(v, 0, j)
}

pub fn trim_of(v: &[char]) -> (r: Vec<char>)
    ensures
        r@ == trim(v@),
{
    let t = trim_start_of(v);
    trim_end_of(&t)
}

// ─────────────────────────────────────────────────────────────────────────────
// Prefixes, suffixes and search
// ─────────────────────────────────────────────────────────────────────────────

pub open spec fn starts_with(s: Seq<char>, p: Seq<char>) -> bool {
    p.len() <= s.len() && s.take(p.len() as int) == p
}

pub open spec fn ends_with(s: Seq<char>, p: Seq<char>) -> bool {
    p.len() <= s.len() && s.skip(s.len() - p.len()) == p
}

/// `p` occurs in `s` starting at index `i`.
pub open spec fn occurs_at(s: Seq<char>, p: Seq<char>, i: int) -> bool {
    0 <= i && i + p.len() <= s.len() && s.subrange(i, i + p.len()) == p
}

/// First index `>= i` at which `p` occurs in `s`.
pub open spec fn find_from(s: Seq<char>, p: Seq<char>, i: int) -> Option<int>
    decreases s.len() + 1 - i,
{
    if i < 0 || i + p.len() > s.len() {
        None
    } else if occurs_at(s, p, i) {
        Some(i)
    } else {
        find_from(s, p, i + 1)
    }
}

/// `str::find` with a string pattern.
pub open spec fn find(s: Seq<char>, p: Seq<char>) -> Option<int> {
    find_from(s, p, 0)
}

/// `str::contains` with a string pattern.
pub open spec fn contains(s: Seq<char>, p: Seq<char>) -> bool {
    find(s, p) is Some
}

/// First index of `c` at or after `i`.
pub open spec fn find_char_from(s: Seq<char>, c: char, i: int) -> Option<int>
    decreases s.len() - i,
{
    if i < 0 || i >= s.len() {
        None
    } else if s[i] == c {
        Some(i)
    } else {
        find_char_from(s, c, i + 1)
    }
}

/// `str::find` with a character pattern.
pub open spec fn find_char(s: Seq<char>, c: char) -> Option<int> {
    find_char_from(s, c, 0)
}

/// Last index of `c` strictly before `j`.
pub open spec fn rfind_char_before(s: Seq<char>, c: char, j: int) -> Option<int>
    decreases j,
{
    if j <= 0 || j > s.len() {
        None
    } else if s[j - 1] == c {
        Some(j - 1)
    } else {
        rfind_char_before(s, c, j - 1)
    }
}

/// `str::rfind` with a character pattern.
pub open spec fn rfind_char(s: Seq<char>, c: char) -> Option<int> {
    rfind_char_before(s, c, s.len() as int)
}

pub proof fn lemma_find_from_props(s: Seq<char>, p: Seq<char>, i: int)
    requires
        0 <= i,
    ensures
        find_from(s, p, i) matches Some(k) ==> i <= k && occurs_at(s, p, k) && k + p.len()
            <= s.len(),
        forall|k: int|
            i <= k && occurs_at(s, p, k) ==> (find_from(s, p, i) matches Some(f) && f <= k),
    decreases s.len() + 1 - i,
{
    if i + p.len() > s.len() {
    } else if occurs_at(s, p, i) {
    } else {
        lemma_find_from_props(s, p, i + 1);
    }
}

pub proof fn lemma_find_char_from_props(s: Seq<char>, c: char, i: int)
    requires
        0 <= i,
    ensures
        find_char_from(s, c, i) matches Some(k) ==> i <= k < s.len() && s[k] == c && forall|
            t: int,
        | i <= t < k ==> s[t] != c,
        find_char_from(s, c, i) is None ==> forall|t: int| i <= t < s.len() ==> s[t] != c,
    decreases s.len() - i,
{
    if i >= s.len() {
    } else if s[i] == c {
    } else {
        lemma_find_char_from_props(s, c, i + 1);
    }
}

pub proof fn lemma_rfind_char_props(s: Seq<char>, c: char, j: int)
    requires
        j <= s.len(),
    ensures
        rfind_char_before(s, c, j) matches Some(k) ==> 0 <= k < j && s[k] == c && forall|
            t: int,
        | k < t < j ==> s[t] != c,
        rfind_char_before(s, c, j) is None ==> forall|t: int| 0 <= t < j ==> s[t] != c,
    decreases j,
{
    if j <= 0 {
    } else if s[j - 1] == c {
    } else {
        lemma_rfind_char_props(s, c, j - 1);
    }
}

/// Whether `p` occurs in `v` at index `i`.
pub fn occurs_at_exec(v: &[char], p: &[char], i: usize) -> (r: bool)
    ensures
        r == occurs_at(v@, p@, i as int),
{
    if p.len() > v.len() || i > v.len() - p.len() {
        return false;
    }
    let mut k: usize = 0;
    while k < p.len()
        invariant
            i + p@.len() <= v@.len(),
            v@.len() <= usize::MAX,
            k <= p@.len(),
            forall|t: int| 0 <= t < k ==> v@[i + t] == p@[t],
        decreases p@.len() - k,
    {
        if v[i + k] != p[k] {
            assert(v@.subrange(i as int, i + p@.len())[k as int] != p@[k as int]);
            return false;
        }
        k = k + 1;
    }
    assert(v@.subrange(i as int, i + p@.len()) =~= p@);
    true
}

pub fn starts_with_exec(v: &[char], p: &[char]) -> (r: bool)
    ensures
        r == starts_with(v@, p@),
{
    let r = occurs_at_exec(v, p, 0);
    proof {
        if p@.len() <= v@.len() {
            assert(v@.take(p@.len() as int) =~= v@.subrange(0, p@.len() as int));
        }
    }
    r
}

pub fn ends_with_exec(v: &[char], p: &[char]) -> (r: bool)
    ensures
        r == ends_with(v@, p@),
{
    if p.len() > v.len() {
        return false;
    }
    let r = occurs_at_exec(v, p, v.len() - p.len());
    proof {
        assert(v@.skip(v@.len() - p@.len()) =~= v@.subrange(
            v@.len() - p@.len(),
            v@.len() - p@.len() + p@.len(),
        ));
    }
    r
}

/// `find_from` on executable values.
pub fn find_from_exec(v: &[char], p: &[char], i: usize) -> (r: Option<usize>)
    ensures
        r matches Some(k) ==> find_from(v@, p@, i as int) == Some(k as int),
        r is None ==> find_from(v@, p@, i as int) is None,
{
    if p.len() > v.len() {
        return None;
    }
    let last = v.len() - p.len();
    if i > last {
        return None;
    }
    let mut k = i;
    loop
        invariant
            p@.len() <= v@.len(),
            last == v@.len() - p@.len(),
            i <= k <= last,
            find_from(v@, p@, k as int) == find_from(v@, p@, i as int),
        decreases last - k,
    {
        if occurs_at_exec(v, p, k) {
            return Some(k);
        }
        if k == last {
            assert(find_from(v@, p@, k + 1) is None);
            return None;
        }
        k = k + 1;
    }
}

pub fn find_exec(v: &[char], p: &[char]) -> (r: Option<usize>)
    ensures
        r matches Some(k) ==> find(v@, p@) == Some(k as int),
        r is None ==> find(v@, p@) is None,
{
    find_from_exec(v, p, 0)
}

pub fn contains_exec(v: &[char], p: &[char]) -> (r: bool)
    ensures
        r == contains(v@, p@),
{
    find_exec(v, p).is_some()
}

pub fn find_char_from_exec(v: &[char], c: char, i: usize) -> (r: Option<usize>)
    ensures
        r matches Some(k) ==> find_char_from(v@, c, i as int) == Some(k as int),
        r is None ==> find_char_from(v@, c, i as int) is None,
{
    let mut k = i;
    while k < v.len()
        invariant
            i <= k,
            find_char_from(v@, c, k as int) == find_char_from(v@, c, i as int),
        decreases v@.len() - k,
    {
        if v[k] == c {
            return Some(k);
        }
        k = k + 1;
    }
    None
}

pub fn find_char_exec(v: &[char], c: char) -> (r: Option<usize>)
    ensures
        r matches Some(k) ==> find_char(v@, c) == Some(k as int),
        r is None ==> find_char(v@, c) is None,
{
    find_char_from_exec(v, c, 0)
}

pub fn contains_char_exec(v: &[char], c: char) -> (r: bool)
    ensures
        r == (find_char(v@, c) is Some),
{
    find_char_exec(v, c).is_some()
}

pub fn rfind_char_exec(v: &[char], c: char) -> (r: Option<usize>)
    ensures
        r matches Some(k) ==> rfind_char(v@, c) == Some(k as int),
        r is None ==> rfind_char(v@, c) is None,
{
    let mut j = v.len();
    while j > 0
        invariant
            j <= v@.len(),
            rfind_char_before(v@, c, j as int) == rfind_char(v@, c),
        decreases j,
    {
        if v[j - 1] == c {
            return Some(j - 1);
        }
        j = j - 1;
    }
    None
}

// ─────────────────────────────────────────────────────────────────────────────
// Splitting
// ─────────────────────────────────────────────────────────────────────────────

/// End of the run of non-whitespace characters that starts at `i`.
pub open spec fn word_end(s: Seq<char>, i: int) -> int
    decreases s.len() - i,
{
    if 0 <= i < s.len() && !is_ws(s[i]) {
        word_end(s, i + 1)
    } else {
        i
    }
}

/// `str::split_whitespace`, reading from index `i`.
pub open spec fn words_from(s: Seq<char>, i: int) -> Seq<Seq<char>>
    decreases s.len() - i,
{
    if i < 0 || i > s.len() {
        seq![]
    } else {
        let st = skip_ws(s, i);
        if st >= s.len() || st < i {
            seq![]
        } else {
            let en = word_end(s, st);
            if en <= st || en > s.len() {
                seq![]
            } else {
                seq![s.subrange(st, en)] + words_from(s, en)
            }
        }
    }
}

/// `str::split_whitespace`.
pub open spec fn words(s: Seq<char>) -> Seq<Seq<char>> {
    words_from(s, 0)
}

pub proof fn lemma_word_end_bounds(s: Seq<char>, i: int)
    requires
        0 <= i <= s.len(),
    ensures
        i <= word_end(s, i) <= s.len(),
        word_end(s, i) < s.len() ==> is_ws(s[word_end(s, i)]),
        forall|k: int| i <= k < word_end(s, i) ==> !is_ws(s[k]),
    decreases s.len() - i,
{
    if i < s.len() && !is_ws(s[i]) {
        lemma_word_end_bounds(s, i + 1);
    }
}

pub fn word_end_exec(v: &[char], i: usize) -> (r: usize)
    requires
        i <= v@.len(),
    ensures
        r == word_end(v@, i as int),
        i <= r <= v@.len(),
{
    let mut k = i;
    while k < v.len() && !is_ws_char(v[k])
        invariant
            i <= k <= v@.len(),
            word_end(v@, k as int) == word_end(v@, i as int),
        decreases v@.len() - k,
    {
        k = k + 1;
    }
    k
}

/// `str::split_whitespace` on a character vector.
pub fn split_ws(v: &[char]) -> (r: Vec<Vec<char>>)
    ensures
        r.deep_view() == words(v@),
{
    let mut r: Vec<Vec<char>> = Vec::new();
    let mut i: usize = 0;
    while i < v.len()
        invariant
            i <= v@.len(),
            r.deep_view() + words_from(v@, i as int) == words(v@),
        decreases v@.len() - i,
    {
        let st = skip_ws_exec(v, i);
        if st >= v.len() {
            proof {
                assert(words_from(v@, i as int) =~= seq![]);
                assert(words_from(v@, v@.len() as int) =~= seq![]);
            }
            i = v.len();
        } else {
            let en = word_end_exec(v, st);
            proof {
                lemma_skip_ws_bounds(v@, i as int);
                assert(!is_ws(v@[st as int]));
                lemma_word_end_bounds(v@, st + 1);
                assert(en > st);
            }
            let w = slice_of(v, st, en);
            let ghost old_r = r.deep_view();
            assert(w.deep_view() =~= w@);
            r.push(w);
            proof {
                assert(r.deep_view() =~= old_r.push(v@.subrange(st as int, en as int)));
                assert(words_from(v@, i as int) == seq![v@.subrange(st as int, en as int)]
                    + words_from(v@, en as int));
                assert(old_r + words_from(v@, i as int) =~= r.deep_view() + words_from(
                    v@,
                    en as int,
                ));
            }
            i = en;
        }
    }
    proof {
        if i == v@.len() {
            assert(words_from(v@, i as int) =~= seq![]);
        }
        assert(r.deep_view() + seq![] =~= r.deep_view());
    }
    r
}


/// `str::split` with a character separator, reading the piece that starts at `i`.
pub open spec fn split_from(s: Seq<char>, c: char, i: int) -> Seq<Seq<char>>
    decreases s.len() + 1 - i,
{
    if i < 0 || i > s.len() {
        seq![]
    } else {
        match find_char_from(s, c, i) {
            Some(j) => if i <= j < s.len() {
                seq![s.subrange(i, j)] + split_from(s, c, j + 1)
            } else {
                seq![]
            },
            None => seq![s.subrange(i, s.len() as int)],
        }
    }
}

/// `str::split(c)`: every piece between separators, empty ones included.
pub open spec fn split(s: Seq<char>, c: char) -> Seq<Seq<char>> {
    split_from(s, c, 0)
}

pub fn split_char(v: &[char], c: char) -> (r: Vec<Vec<char>>)
    ensures
        r.deep_view() == split(v@, c),
{
    let mut r: Vec<Vec<char>> = Vec::new();
    let mut i: usize = 0;
    let n = v.len();
    loop
        invariant
            i <= v@.len(),
            n == v@.len(),
            r.deep_view() + split_from(v@, c, i as int) == split(v@, c),
        decreases v@.len() + 1 - i,
    {
        let ghost old_r = r.deep_view();
        match find_char_from_exec(v, c, i) {
            Some(j) => {
                proof {
                    lemma_find_char_from_props(v@, c, i as int);
                }
                assert(i <= j < v@.len());
                let w = slice_of(v, i, j);
                assert(w.deep_view() =~= w@);
                r.push(w);
                proof {
                    assert(r.deep_view() =~= old_r.push(v@.subrange(i as int, j as int)));
                    assert(old_r + split_from(v@, c, i as int) =~= r.deep_view() + split_from(
                        v@,
                        c,
                        j + 1,
                    ));
                }
                i = j + 1;
            },
            None => {
                let w = slice_of(v, i, v.len());
                assert(w.deep_view() =~= w@);
                r.push(w);
                proof {
                    assert(r.deep_view() =~= old_r.push(v@.subrange(i as int, v@.len() as int)));
                    assert(old_r + split_from(v@, c, i as int) =~= r.deep_view());
                }
                return r;
            },
        }
    }
}

/// End of the line that starts at `i`: the next `\n` or the end of the text.
pub open spec fn line_end(s: Seq<char>, i: int) -> int {
    match find_char_from(s, '\n', i) {
        Some(j) => j,
        None => s.len() as int,
    }
}

/// The text of one line: a `\r` right before its `\n` is not part of it.
pub open spec fn line_text(s: Seq<char>, i: int, j: int) -> Seq<char> {
    let raw = s.subrange(i, j);
    if j < s.len() && raw.len() > 0 && raw.last() == '\r' {
        raw.drop_last()
    } else {
        raw
    }
}

/// `str::lines`, reading from index `i`.
pub open spec fn lines_from(s: Seq<char>, i: int) -> Seq<Seq<char>>
    decreases s.len() + 1 - i,
{
    if i < 0 || i >= s.len() {
        seq![]
    } else {
        let j = line_end(s, i);
        if j < i || j > s.len() {
            seq![]
        } else {
            seq![line_text(s, i, j)] + lines_from(s, j + 1)
        }
    }
}

/// `str::lines`: split at `\n` (dropping a `\r` before it); a final line
/// ending adds no empty line.
pub open spec fn lines(s: Seq<char>) -> Seq<Seq<char>> {
    lines_from(s, 0)
}

pub fn lines_of(v: &[char]) -> (r: Vec<Vec<char>>)
    ensures
        r.deep_view() == lines(v@),
{
    let mut r: Vec<Vec<char>> = Vec::new();
    let mut i: usize = 0;
    while i < v.len()
        invariant
            i <= v@.len(),
            r.deep_view() + lines_from(v@, i as int) == lines(v@),
        decreases v@.len() - i,
    {
        let ghost old_r = r.deep_view();
        let j = match find_char_from_exec(v, '\n', i) {
            Some(j) => j,
            None => v.len(),
        };
        proof {
            lemma_find_char_from_props(v@, '\n', i as int);
        }
        let mut w = slice_of(v, i, j);
        if j < v.len() && w.len() > 0 && w[w.len() - 1] == '\r' {
            w.pop();
        }
        assert(w@ =~= line_text(v@, i as int, j as int));
        assert(w.deep_view() =~= w@);
        r.push(w);
        proof {
            assert(r.deep_view() =~= old_r.push(line_text(v@, i as int, j as int)));
            assert(old_r + lines_from(v@, i as int) =~= r.deep_view() + lines_from(v@, j + 1));
        }
        if j == v.len() {
            proof {
                assert(lines_from(v@, j + 1) =~= seq![]);
                assert(lines_from(v@, v@.len() as int) =~= seq![]);
            }
            i = j;
        } else {
            i = j + 1;
        }
    }
    proof {
        assert(lines_from(v@, i as int) =~= seq![]);
        assert(r.deep_view() + seq![] =~= r.deep_view());
    }
    r
}

/// `parts` joined with `sep` in between (`[&str]::join`).
pub open spec fn join(parts: Seq<Seq<char>>, sep: Seq<char>) -> Seq<char>
    decreases parts.len(),
{
    if parts.len() == 0 {
        seq![]
    } else if parts.len() == 1 {
        parts[0]
    } else {
        join(parts.drop_last(), sep) + sep + parts.last()
    }
}

pub fn join_exec(parts: &[Vec<char>], sep: &[char]) -> (r: Vec<char>)
    ensures
        r@ == join(parts.deep_view(), sep@),
{
    let mut r: Vec<char> = Vec::new();
    let mut k: usize = 0;
    while k < parts.len()
        invariant
            k <= parts@.len(),
            r@ == join(parts.deep_view().take(k as int), sep@),
        decreases parts@.len() - k,
    {
        let ghost pv = parts.deep_view();
        proof {
            assert(pv.take(k + 1).drop_last() =~= pv.take(k as int));
            assert(pv[k as int] == parts@[k as int]@);
        }
        if k > 0 {
            append(&mut r, sep);
        }
        append(&mut r, &parts[k]);
        proof {
            if k == 0 {
                assert(r@ =~= pv.take(1)[0]);
            } else {
                assert(r@ =~= join(pv.take(k as int), sep@) + sep@ + pv.take(k + 1).last());
            }
        }
        k = k + 1;
    }
    assert(parts.deep_view().take(parts@.len() as int) =~= parts.deep_view());
    r
}

// ─────────────────────────────────────────────────────────────────────────────
// Numbers
// ─────────────────────────────────────────────────────────────────────────────

pub open spec fn digit_char(d: nat) -> char
    recommends
        d < 10,
{
    ((d + 48) as u32) as char
}

/// Decimal representation of `n` without leading zeros (`u64::to_string`).
pub open spec fn decimal(n: nat) -> Seq<char>
    decreases n,
{
    if n < 10 {
        seq![digit_char(n)]
    } else {
        decimal(n / 10).push(digit_char(n % 10))
    }
}

pub fn decimal_exec(n: u64) -> (r: Vec<char>)
    ensures
        r@ == decimal(n as nat),
    decreases n,
{
    let d = (n % 10) as u8;
    let c = (d + 48) as char;
    if n < 10 {
        vec![c]
    } else {
        let mut r = decimal_exec(n / 10);
        r.push(c);
        r
    }
}

/// Value of a digit in the given radix (`char::to_digit`).
pub open spec fn digit_value(c: char, radix: nat) -> Option<nat> {
    let u = c as u32;
    let v: int = if 48 <= u && u <= 57 {
        u - 48
    } else if 97 <= u && u <= 122 {
        u - 97 + 10
    } else if 65 <= u && u <= 90 {
        u - 65 + 10
    } else {
        99
    };
    if v < radix {
        Some(v as nat)
    } else {
        None
    }
}

pub open spec fn all_digits(s: Seq<char>, radix: nat) -> bool {
    forall|i: int| 0 <= i < s.len() ==> digit_value(#[trigger] s[i], radix) is Some
}

/// Positional value of a run of digits.
pub open spec fn digits_value(s: Seq<char>, radix: nat) -> nat
    decreases s.len(),
{
    if s.len() == 0 {
        0
    } else {
        digits_value(s.drop_last(), radix) * radix + match digit_value(s.last(), radix) {
            Some(d) => d,
            None => 0,
        }
    }
}

/// Unsigned integer parsing as `FromStr`/`from_str_radix` do it: an optional
/// `+`, then one or more digits, and a value no larger than `max`.
pub open spec fn unsigned_digits(s: Seq<char>) -> Seq<char> {
    if s.len() > 0 && s[0] == '+' {
        s.drop_first()
    } else {
        s
    }
}

pub open spec fn parse_unsigned(s: Seq<char>, radix: nat, max: nat) -> Option<nat> {
    let d = unsigned_digits(s);
    if d.len() > 0 && all_digits(d, radix) && digits_value(d, radix) <= max {
        Some(digits_value(d, radix))
    } else {
        None
    }
}

proof fn lemma_digits_value_mono(s: Seq<char>, radix: nat, i: int)
    requires
        0 <= i <= s.len(),
        radix >= 1,
    ensures
        digits_value(s.take(i), radix) <= digits_value(s, radix),
    decreases s.len() - i,
{
    if i < s.len() {
        lemma_digits_value_mono(s, radix, i + 1);
        assert(s.take(i + 1).drop_last() =~= s.take(i));
        let a = digits_value(s.take(i), radix);
        assert(a * radix >= a) by (nonlinear_arith)
            requires
                radix >= 1,
        ;
    } else {
        assert(s.take(i) =~= s);
    }
}

fn digit_value_exec(c: char, radix: u32) -> (r: Option<u32>)
    requires
        radix <= 36,
    ensures
        r matches Some(d) ==> digit_value(c, radix as nat) == Some(d as nat),
        r is None ==> digit_value(c, radix as nat) is None,
{
    let u = c as u32;
    let v: u32 = if 48 <= u && u <= 57 {
        u - 48
    } else if 97 <= u && u <= 122 {
        u - 97 + 10
    } else if 65 <= u && u <= 90 {
        u - 65 + 10
    } else {
        99
    };
    if v < radix {
        Some(v)
    } else {
        None
    }
}

/// Parses an unsigned integer in `radix` no larger than `max`.
pub fn parse_unsigned_exec(v: &[char], radix: u32, max: u64) -> (r: Option<u64>)
    requires
        2 <= radix <= 36,
    ensures
        r matches Some(n) ==> parse_unsigned(v@, radix as nat, max as nat) == Some(n as nat),
        r is None ==> parse_unsigned(v@, radix as nat, max as nat) is None,
{
    let start: usize = if v.len() > 0 && v[0] == '+' {
        1
    } else {
        0
    };
    let ghost d = unsigned_digits(v@);
    assert(d =~= v@.skip(start as int));
    if start >= v.len() {
        return None;
    }
    let mut acc: u64 = 0;
    let mut over = false;
    let mut k = start;
    while k < v.len()
        invariant
            start <= k <= v@.len(),
            start < v@.len(),
            d =~= v@.skip(start as int),
            d == unsigned_digits(v@),
            2 <= radix <= 36,
            all_digits(v@.subrange(start as int, k as int), radix as nat),
            !over ==> acc as nat == digits_value(v@.subrange(start as int, k as int), radix as nat),
            !over ==> acc <= max,
            over ==> digits_value(v@.subrange(start as int, k as int), radix as nat) > max,
        decreases v@.len() - k,
    {
        let ghost pre = v@.subrange(start as int, k as int);
        let ghost nxt = v@.subrange(start as int, k + 1);
        assert(nxt.drop_last() =~= pre);
        match digit_value_exec(v[k], radix) {
            None => {
                proof {
                    assert(d[k - start] == v@[k as int]);
                    assert(!all_digits(d, radix as nat));

                }
                return None;
            },
            Some(dv) => {
                assert(all_digits(nxt, radix as nat)) by {
                    assert forall|t: int| 0 <= t < nxt.len() implies digit_value(
                        #[trigger] nxt[t],
                        radix as nat,
                    ) is Some by {
                        if t < pre.len() {
                            assert(nxt[t] == pre[t]);
                        }
                    }
                }
                if !over {
                    assert((acc as u128) * (radix as u128) + (dv as u128) < 0x1_0000_0000_0000_0000_0000_0000_0000_0000) by (nonlinear_arith)
                        requires
                            acc <= 0xffff_ffff_ffff_ffff,
                            radix <= 36,
                            dv < 36,
                    ;
                    let big = (acc as u128) * (radix as u128) + (dv as u128);
                    assert(big == digits_value(nxt, radix as nat));
                    if big > max as u128 {
                        over = true;
                    } else {
                        acc = big as u64;
                    }
                } else {
                    proof {
                        let a = digits_value(pre, radix as nat);
                        assert(a * radix >= a) by (nonlinear_arith)
                            requires
                                radix >= 1,
                        ;
                    }
                }
                k = k + 1;
            },
        }
    }
    assert(v@.subrange(start as int, v@.len() as int) =~= d);
    if over {
        None
    } else {
        Some(acc)
    }
}

// ─────────────────────────────────────────────────────────────────────────────
// Reading back what was written
// ─────────────────────────────────────────────────────────────────────────────

/// `decimal(n)` is a non-empty run of ASCII digits whose value is `n`.
pub proof fn lemma_decimal_digits(n: nat)
    ensures
        decimal(n).len() > 0,
        forall|k: int| 0 <= k < decimal(n).len() ==> is_ascii_digit(#[trigger] decimal(n)[k]),
        forall|k: int| 0 <= k < decimal(n).len() ==> !is_ws(#[trigger] decimal(n)[k]),
        all_digits(decimal(n), 10),
        digits_value(decimal(n), 10) == n,
    decreases n,
{
    let d = decimal(n);
    if n < 10 {
        assert(d[0] == digit_char(n));
        assert(digit_char(n) as u32 == n + 48);
        assert(d.drop_last() =~= Seq::<char>::empty());
        assert(d.last() == d[0]);
        assert(digit_value(d[0], 10) == Some(n));
        assert(digits_value(d.drop_last(), 10) == 0);
    } else {
        lemma_decimal_digits(n / 10);
        let q = decimal(n / 10);
        let c = digit_char(n % 10);
        assert(c as u32 == n % 10 + 48);
        assert(d == q.push(c));
        assert(d.drop_last() =~= q);
        assert(d.last() == c);
        assert(digit_value(c, 10) == Some(n % 10));
        assert((n / 10) * 10 + n % 10 == n) by (nonlinear_arith);
        assert(digits_value(d, 10) == digits_value(q, 10) * 10 + n % 10);
        assert forall|k: int| 0 <= k < d.len() implies is_ascii_digit(#[trigger] d[k]) && !is_ws(d[k]) by {
            if k < q.len() {
                assert(d[k] == q[k]);
            }
        }
        assert forall|k: int| 0 <= k < d.len() implies digit_value(#[trigger] d[k], 10) is Some by {
            if k < q.len() {
                assert(d[k] == q[k]);
                assert(digit_value(q[k], 10) is Some);
            }
        }
    }
}

/// Parsing the decimal representation of `n` gives `n` back.
pub proof fn lemma_parse_decimal(n: nat, max: nat)
    requires
        n <= max,
    ensures
        parse_unsigned(decimal(n), 10, max) == Some(n),
{
    lemma_decimal_digits(n);
    assert(is_ascii_digit(decimal(n)[0]));
    assert(unsigned_digits(decimal(n)) == decimal(n));
}

proof fn lemma_skip_ws_shift(p: Seq<char>, s: Seq<char>, i: int)
    requires
        0 <= i <= s.len(),
    ensures
        skip_ws(p + s, p.len() + i) == p.len() + skip_ws(s, i),
    decreases s.len() - i,
{
    if i < s.len() {
        assert((p + s)[p.len() + i] == s[i]);
        if is_ws(s[i]) {
            lemma_skip_ws_shift(p, s, i + 1);
        }
    }
}

proof fn lemma_word_end_shift(p: Seq<char>, s: Seq<char>, i: int)
    requires
        0 <= i <= s.len(),
    ensures
        word_end(p + s, p.len() + i) == p.len() + word_end(s, i),
    decreases s.len() - i,
{
    if i < s.len() {
        assert((p + s)[p.len() + i] == s[i]);
        if !is_ws(s[i]) {
            lemma_word_end_shift(p, s, i + 1);
        }
    }
}

/// The words of a text after a prefix do not depend on the prefix.
proof fn lemma_words_from_shift(p: Seq<char>, s: Seq<char>, i: int)
    requires
        0 <= i <= s.len(),
    ensures
        words_from(p + s, p.len() + i) == words_from(s, i),
    decreases s.len() - i,
{
    lemma_skip_ws_shift(p, s, i);
    lemma_skip_ws_bounds(s, i);
    let st = skip_ws(s, i);
    if st < s.len() {
        lemma_word_end_shift(p, s, st);
        lemma_word_end_bounds(s, st);
        let en = word_end(s, st);
        assert(word_end(s, st) == word_end(s, st + 1));
        lemma_word_end_bounds(s, st + 1);
        assert((p + s).subrange(p.len() + st, p.len() + en) =~= s.subrange(st, en));
        lemma_words_from_shift(p, s, en);
    }
}

proof fn lemma_word_end_run(s: Seq<char>, i: int, j: int)
    requires
        0 <= i <= j <= s.len(),
        forall|k: int| i <= k < j ==> !is_ws(#[trigger] s[k]),
        j == s.len() || is_ws(s[j]),
    ensures
        word_end(s, i) == j,
    decreases j - i,
{
    if i < j {
        lemma_word_end_run(s, i + 1, j);
    }
}

/// A leading word that ends at whitespace (or at the end) is the first word.
pub proof fn lemma_words_cons(w: Seq<char>, rest: Seq<char>)
    requires
        w.len() > 0,
        forall|k: int| 0 <= k < w.len() ==> !is_ws(#[trigger] w[k]),
        rest.len() == 0 || is_ws(rest[0]),
    ensures
        words(w + rest) == seq![w] + words(rest),
{
    let s = w + rest;
    assert(s[0] == w[0]);
    assert(skip_ws(s, 0) == 0);
    assert forall|k: int| 0 <= k < w.len() implies !is_ws(#[trigger] s[k]) by {
        assert(s[k] == w[k]);
    }
    if rest.len() > 0 {
        assert(s[w.len() as int] == rest[0]);
    }
    lemma_word_end_run(s, 0, w.len() as int);
    assert(s.subrange(0, w.len() as int) =~= w);
    lemma_words_from_shift(w, rest, 0);
}

/// Leading whitespace separates no word.
pub proof fn lemma_words_skip_leading_ws(s: Seq<char>)
    requires
        s.len() > 0,
        is_ws(s[0]),
    ensures
        words(s) == words(s.drop_first()),
{
    lemma_skip_ws_bounds(s, 1);
    assert(skip_ws(s, 0) == skip_ws(s, 1));
    assert(words_from(s, 0) == words_from(s, 1));
    let p = seq![s[0]];
    assert(s =~= p + s.drop_first());
    lemma_words_from_shift(p, s.drop_first(), 0);
}

/// Text that starts and ends with a non-whitespace character is its own trim.
pub proof fn lemma_trim_noop(s: Seq<char>)
    requires
        s.len() > 0,
        !is_ws(s[0]),
        !is_ws(s[s.len() - 1]),
    ensures
        trim(s) == s,
{
    assert(skip_ws(s, 0) == 0);
    assert(trim_start(s) =~= s);
    assert(back_ws(s, s.len() as int) == s.len());
    assert(trim_end(s) =~= s);
}

/// One leading space is trimmed off text that otherwise needs no trimming.
pub proof fn lemma_trim_after_space(s: Seq<char>)
    requires
        s.len() > 0,
        !is_ws(s[0]),
        !is_ws(s[s.len() - 1]),
    ensures
        trim(seq![' '] + s) == s,
{
    let t = seq![' '] + s;
    assert(t[1] == s[0]);
    assert(skip_ws(t, 1) == 1);
    assert(skip_ws(t, 0) == 1);
    assert(trim_start(t) =~= s);
    lemma_trim_noop(s);
}

/// `join` taken apart from the front.
pub proof fn lemma_join_front(parts: Seq<Seq<char>>, sep: Seq<char>)
    requires
        parts.len() >= 2,
    ensures
        join(parts, sep) == parts[0] + sep + join(parts.drop_first(), sep),
    decreases parts.len(),
{
    let dl = parts.drop_last();
    let df = parts.drop_first();
    if parts.len() == 2 {
        assert(dl =~= seq![parts[0]]);
        assert(df =~= seq![parts[1]]);
        assert(join(dl, sep) == parts[0]);
    } else {
        lemma_join_front(dl, sep);
        assert(df.drop_last() =~= dl.drop_first());
        assert(df.last() == parts.last());
        assert(join(df, sep) == join(df.drop_last(), sep) + sep + df.last());
        assert(join(parts, sep) =~= parts[0] + sep + join(df, sep));
    }
}

proof fn lemma_find_char_from_shift(p: Seq<char>, s: Seq<char>, c: char, i: int)
    requires
        0 <= i,
    ensures
        find_char_from(p + s, c, p.len() + i) == (match find_char_from(s, c, i) {
            Some(j) => Some(p.len() + j),
            None => None::<int>,
        }),
    decreases s.len() - i,
{
    if i < s.len() {
        assert((p + s)[p.len() + i] == s[i]);
        if s[i] != c {
            lemma_find_char_from_shift(p, s, c, i + 1);
        }
    }
}

/// The lines of a text after a prefix do not depend on the prefix.
proof fn lemma_lines_from_shift(p: Seq<char>, s: Seq<char>, i: int)
    requires
        0 <= i,
    ensures
        lines_from(p + s, p.len() + i) == lines_from(s, i),
    decreases s.len() + 1 - i,
{
    if i < s.len() {
        lemma_find_char_from_shift(p, s, '\n', i);
        lemma_find_char_from_props(s, '\n', i);
        let j = line_end(s, i);
        assert((p + s).subrange(p.len() + i, p.len() + j) =~= s.subrange(i, j));
        assert(line_text(p + s, p.len() + i, p.len() + j) == line_text(s, i, j));
        lemma_lines_from_shift(p, s, j + 1);
    }
}

/// No line of `lines(s)` holds a line feed.
pub proof fn lemma_lines_no_newline(s: Seq<char>, i: int)
    requires
        0 <= i,
    ensures
        forall|k: int, t: int|
            0 <= k < lines_from(s, i).len() && 0 <= t < lines_from(s, i)[k].len() ==> (#[trigger] lines_from(s, i)[k][t]) != '\n',
    decreases s.len() + 1 - i,
{
    if i < s.len() {
        lemma_find_char_from_props(s, '\n', i);
        let j = line_end(s, i);
        let lt = line_text(s, i, j);
        assert forall|t: int| 0 <= t < lt.len() implies lt[t] != '\n' by {
            assert(lt[t] == s[i + t]);
        }
        lemma_lines_no_newline(s, j + 1);
        let rest = lines_from(s, j + 1);
        assert(lines_from(s, i) == seq![lt] + rest);
        assert forall|k: int, t: int|
            0 <= k < lines_from(s, i).len() && 0 <= t < lines_from(s, i)[k].len() implies (#[trigger] lines_from(s, i)[k][t]) != '\n' by {
            if k == 0 {
                assert(lines_from(s, i)[k] == lt);
            } else {
                assert(lines_from(s, i)[k] == rest[k - 1]);
            }
        }
    }
}

/// Joining lines that hold no line feed with `\n` (and an optional final
/// `\n`) gives back, at its place, every line that does not end in `\r`
/// (an empty last line only when the final `\n` is there), and as many lines
/// as were joined when the last one is not empty or the final `\n` is there.
pub proof fn lemma_lines_of_join(parts: Seq<Seq<char>>, tail: Seq<char>, k: int)
    requires
        tail == Seq::<char>::empty() || tail == seq!['\n'],
        forall|a: int, t: int| 0 <= a < parts.len() && 0 <= t < parts[a].len() ==> (#[trigger] parts[a][t]) != '\n',
        0 <= k < parts.len(),
        parts[k].len() > 0 || k + 1 < parts.len() || tail.len() > 0,
        parts[k].len() > 0 ==> parts[k].last() != '\r',
    ensures
        lines(join(parts, seq!['\n']) + tail).len() > k,
        lines(join(parts, seq!['\n']) + tail)[k] == parts[k],
        (parts.last().len() > 0 || tail.len() > 0) ==> lines(join(parts, seq!['\n']) + tail).len() == parts.len(),
    decreases parts.len(),
{
    if parts.last().len() > 0 || tail.len() > 0 {
        lemma_lines_of_join_len(parts, tail);
    }
    let nl = seq!['\n'];
    let p0 = parts[0];
    if parts.len() == 1 {
        let s = p0 + tail;
        assert(join(parts, nl) == p0);
        assert forall|t: int| 0 <= t < p0.len() implies s[t] != '\n' by {
            assert(s[t] == p0[t]);
            assert(parts[0][t] != '\n');
        }
        lemma_find_char_from_props(s, '\n', 0);
        if tail.len() == 0 {
            assert(s =~= p0);
            assert(line_end(s, 0) == s.len());
            assert(s.subrange(0, s.len() as int) =~= p0);
        } else {
            assert(s[p0.len() as int] == '\n');
            assert(line_end(s, 0) == p0.len());
            assert(s.subrange(0, p0.len() as int) =~= p0);
        }
    } else {
        let rest = parts.drop_first();
        lemma_join_front(parts, nl);
        let s = join(parts, nl) + tail;
        let pre = p0 + nl;
        assert(s =~= pre + (join(rest, nl) + tail));
        assert forall|t: int| 0 <= t < p0.len() implies s[t] != '\n' by {
            assert(s[t] == p0[t]);
            assert(parts[0][t] != '\n');
        }
        assert(s[p0.len() as int] == '\n');
        lemma_find_char_from_props(s, '\n', 0);
        assert(line_end(s, 0) == p0.len());
        lemma_lines_from_shift(pre, join(rest, nl) + tail, 0);
        assert(lines(s) == seq![line_text(s, 0, p0.len() as int)] + lines(join(rest, nl) + tail));
        if k == 0 {
            assert(s.subrange(0, p0.len() as int) =~= p0);
        } else {
            assert forall|a: int, t: int| 0 <= a < rest.len() && 0 <= t < rest[a].len() implies (#[trigger] rest[a][t]) != '\n' by {
                assert(rest[a] == parts[a + 1]);
            }
            lemma_lines_of_join(rest, tail, k - 1);
        }
    }
}

/// Joining lines that hold no line feed with `\n` (and an optional final
/// `\n`) gives as many lines as were joined, when the last one is not empty
/// or the final `\n` is there.
pub proof fn lemma_lines_of_join_len(parts: Seq<Seq<char>>, tail: Seq<char>)
    requires
        tail == Seq::<char>::empty() || tail == seq!['\n'],
        forall|a: int, t: int| 0 <= a < parts.len() && 0 <= t < parts[a].len() ==> (#[trigger] parts[a][t]) != '\n',
        parts.len() > 0,
        parts.last().len() > 0 || tail.len() > 0,
    ensures
        lines(join(parts, seq!['\n']) + tail).len() == parts.len(),
    decreases parts.len(),
{
    let nl = seq!['\n'];
    let p0 = parts[0];
    if parts.len() == 1 {
        let s = p0 + tail;
        assert(join(parts, nl) == p0);
        assert forall|t: int| 0 <= t < p0.len() implies s[t] != '\n' by {
            assert(s[t] == p0[t]);
            assert(parts[0][t] != '\n');
        }
        lemma_find_char_from_props(s, '\n', 0);
        if tail.len() == 0 {
            assert(line_end(s, 0) == s.len());
        } else {
            assert(s[p0.len() as int] == '\n');
            assert(line_end(s, 0) == p0.len());
        }
        assert(lines_from(s, line_end(s, 0) + 1) =~= seq![]);
    } else {
        let rest = parts.drop_first();
        lemma_join_front(parts, nl);
        let s = join(parts, nl) + tail;
        let pre = p0 + nl;
        assert(s =~= pre + (join(rest, nl) + tail));
        assert forall|t: int| 0 <= t < p0.len() implies s[t] != '\n' by {
            assert(s[t] == p0[t]);
            assert(parts[0][t] != '\n');
        }
        assert(s[p0.len() as int] == '\n');
        lemma_find_char_from_props(s, '\n', 0);
        assert(line_end(s, 0) == p0.len());
        lemma_lines_from_shift(pre, join(rest, nl) + tail, 0);
        assert(lines(s) == seq![line_text(s, 0, p0.len() as int)] + lines(join(rest, nl) + tail));
        assert forall|a: int, t: int| 0 <= a < rest.len() && 0 <= t < rest[a].len() implies (#[trigger] rest[a][t]) != '\n' by {
            assert(rest[a] == parts[a + 1]);
        }
        assert(rest.last() == parts.last());
        lemma_lines_of_join_len(rest, tail);
    }
}

/// When `s` does not end in a line feed, its last line is not empty.
pub proof fn lemma_lines_last_nonempty(s: Seq<char>, i: int)
    requires
        0 <= i,
        !ends_with(s, seq!['\n']),
    ensures
        lines_from(s, i).len() > 0 ==> lines_from(s, i).last().len() > 0,
    decreases s.len() + 1 - i,
{
    if i < s.len() {
        lemma_find_char_from_props(s, '\n', i);
        let j = line_end(s, i);
        let rest = lines_from(s, j + 1);
        assert(lines_from(s, i) == seq![line_text(s, i, j)] + rest);
        if j + 1 < s.len() {
            lemma_find_char_from_props(s, '\n', j + 1);
            assert(rest.len() > 0);
            lemma_lines_last_nonempty(s, j + 1);
            assert(lines_from(s, i).last() == rest.last());
        } else {
            assert(rest =~= seq![]);
            if j == s.len() - 1 {
                assert(s.skip(s.len() - 1) =~= seq!['\n']);
            }
            assert(j == s.len());
            assert(line_text(s, i, j) == s.subrange(i, j));
        }
    }
}

} // verus!
