//! Text primitives over characters: whitespace, trimming, splitting, joining,
//! searching and decimal numbers. Every contract speaks of the character
//! sequence `s@` of a string.
use vstd::prelude::*;

verus! {

/// `String::push` appends the character to the end of the string.
pub assume_specification[ String::push ](s: &mut String, c: char)
    ensures
        final(s)@ == old(s)@.push(c),
;

/// Characters with the Unicode White_Space property.
pub open spec fn white(c: char) -> bool {
    ||| '\u{9}' <= c <= '\u{d}'
    ||| c == ' '
    ||| c == '\u{85}'
    ||| c == '\u{a0}'
    ||| c == '\u{1680}'
    ||| '\u{2000}' <= c <= '\u{200a}'
    ||| c == '\u{2028}'
    ||| c == '\u{2029}'
    ||| c == '\u{202f}'
    ||| c == '\u{205f}'
    ||| c == '\u{3000}'
}

/// Whether `c` has the Unicode White_Space property.
pub fn is_white(c: char) -> (r: bool)
    ensures
        r == white(c),
{
    (c >= '\u{9}' && c <= '\u{d}') || c == ' ' || c == '\u{85}' || c == '\u{a0}' || c == '\u{1680}'
        || (c >= '\u{2000}' && c <= '\u{200a}') || c == '\u{2028}' || c == '\u{2029}' || c
        == '\u{202f}' || c == '\u{205f}' || c == '\u{3000}'
}

/// The characters of a string.
pub fn chars_of(s: &str) -> (r: Vec<char>)
    ensures
        r@ == s@,
{
    let mut out: Vec<char> = Vec::new();
    for c in it: s.chars()
        invariant
            out@ == it.seq().take(it.index()),
            it.seq() == s@,
    {
        out.push(c);
        assert(it.seq().take(it.index() + 1) =~= it.seq().take(it.index()).push(c));
    }
    out
}

/// The string with the given characters.
pub fn string_of(chars: &[char]) -> (r: String)
    ensures
        r@ == chars@,
{
    let mut out = String::new();
    let mut i: usize = 0;
    while i < chars.len()
        invariant
            i <= chars.len(),
            out@ == chars@.take(i as int),
        decreases chars.len() - i,
    {
        out.push(chars[i]);
        i += 1;
        assert(chars@.take(i as int) =~= chars@.take(i - 1).push(chars@[i - 1]));
    }
    assert(chars@.take(i as int) =~= chars@);
    out
}

/// The character sequences of a list of strings.
pub open spec fn views(v: Seq<String>) -> Seq<Seq<char>> {
    Seq::new(v.len(), |i: int| v[i]@)
}

/// The contents of a borrowed text that may be missing.
pub open spec fn opt_str(s: Option<&str>) -> Option<Seq<char>> {
    match s {
        Some(t) => Some(t@),
        None => None,
    }
}

/// The contents of a text that may be missing.
pub open spec fn opt(s: Option<String>) -> Option<Seq<char>> {
    match s {
        Some(t) => Some(t@),
        None => None,
    }
}

/// Views of a list with one more string at the end.
pub proof fn lemma_views_push(v: Seq<String>, s: String)
    ensures
        views(v.push(s)) == views(v).push(s@),
{
    assert(views(v.push(s)) =~= views(v).push(s@));
}

/// Whether two strings hold the same characters.
pub fn same_text(a: &str, b: &str) -> (r: bool)
    ensures
        r == (a@ == b@),
{
    let x = chars_of(a);
    let y = chars_of(b);
    same_chars(&x, &y)
}

/// Whether two character slices are equal.
pub fn same_chars(x: &[char], y: &[char]) -> (r: bool)
    ensures
        r == (x@ == y@),
{
    if x.len() != y.len() {
        return false;
    }
    let mut i: usize = 0;
    while i < x.len()
        invariant
            x.len() == y.len(),
            i <= x.len(),
            forall|k: int| 0 <= k < i ==> x@[k] == y@[k],
        decreases x.len() - i,
    {
        if x[i] != y[i] {
            assert(x@[i as int] != y@[i as int]);
            return false;
        }
        i += 1;
    }
    assert(x@ =~= y@);
    true
}

// ---------------------------------------------------------------------
// Trimming

/// `s` without its longest prefix of characters in `f`.
pub open spec fn drop_front(s: Seq<char>, f: spec_fn(char) -> bool) -> Seq<char>
    decreases s.len(),
{
    if s.len() > 0 && f(s[0]) {
        drop_front(s.drop_first(), f)
    } else {
        s
    }
}

/// `s` without its longest suffix of characters in `f`.
pub open spec fn drop_back(s: Seq<char>, f: spec_fn(char) -> bool) -> Seq<char>
    decreases s.len(),
{
    if s.len() > 0 && f(s.last()) {
        drop_back(s.drop_last(), f)
    } else {
        s
    }
}

/// The class of whitespace characters.
pub open spec fn ws() -> spec_fn(char) -> bool {
    |c: char| white(c)
}

/// `s` without leading and trailing whitespace.
pub open spec fn trimmed(s: Seq<char>) -> Seq<char> {
    drop_back(drop_front(s, ws()), ws())
}

/// Dropping a known class prefix does not change what is left.
pub proof fn lemma_drop_front_skip(s: Seq<char>, f: spec_fn(char) -> bool, n: int)
    requires
        0 <= n <= s.len(),
        forall|k: int| 0 <= k < n ==> f(#[trigger] s[k]),
        n < s.len() ==> !f(s[n]),
    ensures
        drop_front(s, f) == s.skip(n),
    decreases n,
{
    if n > 0 {
        assert forall|k: int| 0 <= k < n - 1 implies f(#[trigger] s.drop_first()[k]) by {
            assert(s.drop_first()[k] == s[k + 1]);
        }
        lemma_drop_front_skip(s.drop_first(), f, n - 1);
        assert(s.drop_first().skip(n - 1) =~= s.skip(n));
    } else {
        assert(s.skip(0) =~= s);
    }
}

/// Dropping a known class suffix does not change what is left.
pub proof fn lemma_drop_back_take(s: Seq<char>, f: spec_fn(char) -> bool, n: int)
    requires
        0 <= n <= s.len(),
        forall|k: int| n <= k < s.len() ==> f(#[trigger] s[k]),
        n > 0 ==> !f(s[n - 1]),
    ensures
        drop_back(s, f) == s.take(n),
    decreases s.len() - n,
{
    if n < s.len() {
        assert forall|k: int| n <= k < s.len() - 1 implies f(#[trigger] s.drop_last()[k]) by {
            assert(s.drop_last()[k] == s[k]);
        }
        lemma_drop_back_take(s.drop_last(), f, n);
        assert(s.drop_last().take(n) =~= s.take(n));
    } else {
        assert(s.take(n) =~= s);
    }
}

/// The bounds `[lo, hi)` of `chars` without surrounding whitespace.
fn trim_bounds(chars: &[char]) -> (r: (usize, usize))
    ensures
        r.0 <= r.1 <= chars.len(),
        trimmed(chars@) == chars@.subrange(r.0 as int, r.1 as int),
{
    let mut lo: usize = 0;
    while lo < chars.len() && is_white(chars[lo])
        invariant
            lo <= chars.len(),
            forall|k: int| 0 <= k < lo ==> white(#[trigger] chars@[k]),
        decreases chars.len() - lo,
    {
        lo += 1;
    }
    proof {
        lemma_drop_front_skip(chars@, ws(), lo as int);
    }
    let mut hi: usize = chars.len();
    while hi > lo && is_white(chars[hi - 1])
        invariant
            lo <= hi <= chars.len(),
            forall|k: int| hi <= k < chars.len() ==> white(#[trigger] chars@[k]),
        decreases hi,
    {
        hi -= 1;
    }
    proof {
        let rest = chars@.skip(lo as int);
        assert forall|k: int| hi - lo <= k < rest.len() implies ws()(#[trigger] rest[k]) by {
            assert(rest[k] == chars@[k + lo]);
        }
        lemma_drop_back_take(rest, ws(), hi - lo);
        assert(rest.take(hi - lo) =~= chars@.subrange(lo as int, hi as int));
    }
    (lo, hi)
}

/// `s` without leading and trailing whitespace.
pub fn trim(s: &str) -> (r: String)
    ensures
        r@ == trimmed(s@),
{
    let chars = chars_of(s);
    let (lo, hi) = trim_bounds(&chars);
    string_of(slice_of(&chars, lo, hi))
}

/// The sub-slice `[lo, hi)`.
pub fn slice_of<T>(s: &[T], lo: usize, hi: usize) -> (r: &[T])
    requires
        lo <= hi <= s.len(),
    ensures
        r@ == s@.subrange(lo as int, hi as int),
{
    vstd::slice::slice_subrange(s, lo, hi)
}

// ---------------------------------------------------------------------
// Words

/// The maximal runs of non-whitespace characters of `s`, in order.
pub open spec fn split_ws(s: Seq<char>) -> Seq<Seq<char>>
    decreases s.len(),
{
    if s.len() == 0 {
        Seq::empty()
    } else {
        let init = s.drop_last();
        let c = s.last();
        let head = split_ws(init);
        if white(c) {
            head
        } else if init.len() == 0 || white(init.last()) {
            head.push(seq![c])
        } else {
            head.drop_last().push(head.last().push(c))
        }
    }
}

/// The maximal runs of non-whitespace characters of `s`, in order.
pub fn split_whitespace(s: &str) -> (r: Vec<String>)
    ensures
        views(r@) == split_ws(s@),
{
    let chars = chars_of(s);
    let mut out: Vec<String> = Vec::new();
    let mut cur = String::new();
    let mut open: bool = false;
    let mut i: usize = 0;
    assert(views(out@) =~= Seq::<Seq<char>>::empty());
    while i < chars.len()
        invariant
            i <= chars.len(),
            chars@ == s@,
            open == (i > 0 && !white(chars@[i - 1])),
            !open ==> views(out@) == split_ws(chars@.take(i as int)) && cur@.len() == 0,
            open ==> views(out@).push(cur@) == split_ws(chars@.take(i as int)),
        decreases chars.len() - i,
    {
        let c = chars[i];
        let ghost before = chars@.take(i as int);
        let ghost after = chars@.take(i + 1);
        proof {
            assert(after.drop_last() =~= before);
            assert(after.last() == c);
            if i > 0 {
                assert(before.last() == chars@[i - 1]);
            }
        }
        if is_white(c) {
            if open {
                let ghost held = out@;
                let mut full = String::new();
                core::mem::swap(&mut full, &mut cur);
                proof {
                    lemma_views_push(held, full);
                }
                out.push(full);
                open = false;
            }
        } else {
            let ghost held = cur@;
            cur.push(c);
            if open {
                proof {
                    let head = split_ws(before);
                    assert(head.drop_last() =~= views(out@));
                    assert(head.last() == held);
                }
            } else {
                assert(cur@ =~= seq![c]);
                open = true;
            }
        }
        i += 1;
    }
    assert(chars@.take(i as int) =~= chars@);
    if open {
        proof {
            lemma_views_push(out@, cur);
        }
        out.push(cur);
    }
    out
}

/// `words` with `sep` between neighbours.
pub open spec fn join(words: Seq<Seq<char>>, sep: Seq<char>) -> Seq<char>
    decreases words.len(),
{
    if words.len() == 0 {
        Seq::empty()
    } else if words.len() == 1 {
        words[0]
    } else {
        join(words.drop_last(), sep) + sep + words.last()
    }
}

/// `words` with `sep` between neighbours.
pub fn join_words(words: &[String], sep: &str) -> (r: String)
    ensures
        r@ == join(views(words@), sep@),
{
    let mut out = String::new();
    let mut i: usize = 0;
    assert(out@ =~= join(views(words@).take(0), sep@));
    while i < words.len()
        invariant
            i <= words.len(),
            out@ == join(views(words@).take(i as int), sep@),
        decreases words.len() - i,
    {
        let ghost all = views(words@);
        proof {
            assert(all.take(i + 1).drop_last() =~= all.take(i as int));
            assert(all.take(i + 1).last() == words@[i as int]@);
        }
        if i > 0 {
            out.append(sep);
        }
        out.append(words[i].as_str());
        proof {
            if i == 0 {
                assert(all.take(0) =~= Seq::empty());
                assert(out@ =~= words@[0]@);
            }
        }
        i += 1;
    }
    assert(views(words@).take(i as int) =~= views(words@));
    out
}

// ---------------------------------------------------------------------
// Decimal numbers

/// An ASCII digit.
pub open spec fn digit(c: char) -> bool {
    '0' <= c <= '9'
}

/// The value of an ASCII digit.
pub open spec fn digit_value(c: char) -> int {
    c as int - '0' as int
}

/// The digit with the given value.
pub open spec fn digit_char(n: int) -> char {
    ('0' as int + n) as char
}

/// The decimal numeral of `n`.
pub open spec fn decimal(n: nat) -> Seq<char>
    decreases n,
{
    if n < 10 {
        seq![digit_char(n as int)]
    } else {
        decimal(n / 10).push(digit_char((n % 10) as int))
    }
}

/// The value of a numeral.
pub open spec fn numeral_value(s: Seq<char>) -> int
    decreases s.len(),
{
    if s.len() == 0 {
        0
    } else {
        10 * numeral_value(s.drop_last()) + digit_value(s.last())
    }
}

/// Every character is an ASCII digit.
pub open spec fn all_digits(s: Seq<char>) -> bool {
    forall|k: int| 0 <= k < s.len() ==> digit(#[trigger] s[k])
}

/// Reading a decimal numeral back gives the number that was written.
pub proof fn law_decimal_reads_back(n: nat)
    ensures
        decimal(n).len() > 0,
        all_digits(decimal(n)),
        numeral_value(decimal(n)) == n,
    decreases n,
{
    if n < 10 {
        let s = decimal(n);
        assert(s.drop_last() =~= Seq::<char>::empty());
        assert(numeral_value(s.drop_last()) == 0);
        assert(s.last() == digit_char(n as int));
    } else {
        law_decimal_reads_back(n / 10);
        let s = decimal(n);
        assert(s.drop_last() =~= decimal(n / 10));
        assert(s.last() == digit_char((n % 10) as int));
    }
}

/// The digit character of a value below ten.
fn digit_of(n: u64) -> (r: char)
    requires
        n < 10,
    ensures
        r == digit_char(n as int),
{
    ((n as u8) + 48u8) as char
}

/// The decimal numeral of `n`.
pub fn decimal_of(n: u64) -> (r: String)
    ensures
        r@ == decimal(n as nat),
    decreases n,
{
    if n < 10 {
        let mut out = String::new();
        out.push(digit_of(n));
        assert(out@ =~= decimal(n as nat));
        out
    } else {
        let mut out = decimal_of(n / 10);
        out.push(digit_of(n % 10));
        out
    }
}

/// Whether `c` is an ASCII digit.
pub fn is_digit(c: char) -> (r: bool)
    ensures
        r == digit(c),
{
    c >= '0' && c <= '9'
}

/// A longer numeral is worth at least as much as its prefix.
proof fn lemma_numeral_prefix(s: Seq<char>, n: int)
    requires
        all_digits(s),
        0 <= n <= s.len(),
    ensures
        0 <= numeral_value(s.take(n)) <= numeral_value(s),
    decreases s.len() - n,
{
    if n == s.len() {
        assert(s.take(n) =~= s);
        lemma_numeral_nonneg(s);
    } else {
        lemma_numeral_prefix(s, n + 1);
        let t = s.take(n + 1);
        assert(t.drop_last() =~= s.take(n));
        assert(t.last() == s[n]);
        assert forall|k: int| 0 <= k < n implies digit(#[trigger] s.take(n)[k]) by {
            assert(s.take(n)[k] == s[k]);
        }
        lemma_numeral_nonneg(s.take(n));
    }
}

proof fn lemma_numeral_nonneg(s: Seq<char>)
    requires
        all_digits(s),
    ensures
        numeral_value(s) >= 0,
    decreases s.len(),
{
    if s.len() > 0 {
        assert forall|k: int| 0 <= k < s.len() - 1 implies digit(#[trigger] s.drop_last()[k]) by {
            assert(s.drop_last()[k] == s[k]);
        }
        lemma_numeral_nonneg(s.drop_last());
    }
}

/// The value of a run of digits, if it is not empty and fits.
pub fn parse_digits(s: &[char]) -> (r: Option<u64>)
    requires
        all_digits(s@),
    ensures
        r is None <==> s@.len() == 0 || numeral_value(s@) > u64::MAX,
        r matches Some(n) ==> n == numeral_value(s@),
{
    if s.len() == 0 {
        return None;
    }
    let mut n: u64 = 0;
    let mut i: usize = 0;
    assert(s@.take(0) =~= Seq::<char>::empty());
    while i < s.len()
        invariant
            i <= s.len(),
            all_digits(s@),
            n == numeral_value(s@.take(i as int)),
            s@.len() > 0,
        decreases s.len() - i,
    {
        let d: u64 = (s[i] as u32 - 48) as u64;
        proof {
            let t = s@.take(i + 1);
            assert(t.drop_last() =~= s@.take(i as int));
            assert(t.last() == s@[i as int]);
            lemma_numeral_prefix(s@, i + 1);
        }
        if n > u64::MAX / 10 {
            return None;
        }
        let tens: u64 = n * 10;
        if tens > u64::MAX - d {
            return None;
        }
        n = tens + d;
        i += 1;
    }
    assert(s@.take(i as int) =~= s@);
    Some(n)
}

/// The value of a numeral with an optional sign, if it is one.
pub open spec fn signed_value(s: Seq<char>) -> Option<int> {
    let signed = s.len() > 0 && (s[0] == '-' || s[0] == '+');
    let run = if signed {
        s.skip(1)
    } else {
        s
    };
    if run.len() == 0 || !all_digits(run) {
        None
    } else if signed && s[0] == '-' {
        Some(-numeral_value(run))
    } else {
        Some(numeral_value(run))
    }
}

/// The value of a numeral with an optional sign, if it is one and fits.
pub fn parse_i32(s: &str) -> (r: Option<i32>)
    ensures
        match signed_value(s@) {
            Some(v) => if i32::MIN <= v <= i32::MAX {
                r == Some(v as i32)
            } else {
                r is None
            },
            None => r is None,
        },
{
    let chars = chars_of(s);
    let n: usize = chars.len();
    let signed: bool = n > 0 && (chars[0] == '-' || chars[0] == '+');
    let from: usize = if signed {
        1
    } else {
        0
    };
    let run = slice_of(&chars, from, n);
    proof {
        if signed {
            assert(run@ =~= s@.skip(1));
        } else {
            assert(run@ =~= s@);
        }
    }
    let mut i: usize = 0;
    while i < run.len()
        invariant
            i <= run@.len(),
            signed == (s@.len() > 0 && (s@[0] == '-' || s@[0] == '+')),
            run@ == if signed {
                s@.skip(1)
            } else {
                s@
            },
            forall|k: int| 0 <= k < i ==> digit(#[trigger] run@[k]),
        decreases run@.len() - i,
    {
        if !is_digit(run[i]) {
            assert(!digit(run@[i as int]));
            return None;
        }
        i += 1;
    }
    match parse_digits(run) {
        Some(v) => {
            if signed && chars[0] == '-' {
                if v <= 0x8000_0000 {
                    Some((-(v as i64)) as i32)
                } else {
                    None
                }
            } else if v <= 0x7fff_ffff {
                Some(v as i32)
            } else {
                None
            }
        },
        None => {
            proof {
                if run@.len() > 0 {
                    lemma_numeral_nonneg(run@);
                }
            }
            None
        },
    }
}

// ---------------------------------------------------------------------
// Searching

/// `pat` stands in `s` at position `i`.
pub open spec fn occurs_at(s: Seq<char>, pat: Seq<char>, i: int) -> bool {
    0 <= i && i + pat.len() <= s.len() && s.subrange(i, i + pat.len()) == pat
}

/// `i` is the first position of `pat` in `s`.
pub open spec fn first_at(s: Seq<char>, pat: Seq<char>, i: int) -> bool {
    occurs_at(s, pat, i) && forall|j: int| 0 <= j < i ==> !#[trigger] occurs_at(s, pat, j)
}

/// `i` is the last position of `pat` in `s`.
pub open spec fn last_at(s: Seq<char>, pat: Seq<char>, i: int) -> bool {
    occurs_at(s, pat, i) && forall|j: int| i < j ==> !#[trigger] occurs_at(s, pat, j)
}

/// `pat` does not stand anywhere in `s`.
pub open spec fn occurs_nowhere(s: Seq<char>, pat: Seq<char>) -> bool {
    forall|j: int| !#[trigger] occurs_at(s, pat, j)
}

/// Whether `pat` stands in `s` at position `i`.
pub fn matches_at(s: &[char], pat: &[char], i: usize) -> (r: bool)
    ensures
        r == occurs_at(s@, pat@, i as int),
{
    if i > s.len() || pat.len() > s.len() - i {
        return false;
    }
    same_chars(slice_of(s, i, i + pat.len()), pat)
}

/// The first position of `pat` in `s`.
pub fn find(s: &[char], pat: &[char]) -> (r: Option<usize>)
    ensures
        match r {
            Some(i) => first_at(s@, pat@, i as int),
            None => occurs_nowhere(s@, pat@),
        },
{
    let mut i: usize = 0;
    while i < s.len()
        invariant
            i <= s.len(),
            forall|j: int| 0 <= j < i ==> !#[trigger] occurs_at(s@, pat@, j),
        decreases s.len() - i,
    {
        if matches_at(s, pat, i) {
            return Some(i);
        }
        i += 1;
    }
    if matches_at(s, pat, i) {
        Some(i)
    } else {
        None
    }
}

/// The last position of `pat` in `s`.
pub fn rfind(s: &[char], pat: &[char]) -> (r: Option<usize>)
    ensures
        match r {
            Some(i) => last_at(s@, pat@, i as int),
            None => occurs_nowhere(s@, pat@),
        },
{
    let mut i: usize = s.len();
    if matches_at(s, pat, i) {
        return Some(i);
    }
    while i > 0
        invariant
            i <= s.len(),
            forall|j: int| i <= j ==> !#[trigger] occurs_at(s@, pat@, j),
        decreases i,
    {
        i -= 1;
        if matches_at(s, pat, i) {
            return Some(i);
        }
    }
    None
}

/// `s` begins with `pat`.
pub open spec fn has_prefix(s: Seq<char>, pat: Seq<char>) -> bool {
    occurs_at(s, pat, 0)
}

// ---------------------------------------------------------------------
// ASCII case

/// The ASCII lower-case form of a character.
pub open spec fn ascii_lower(c: char) -> char {
    if 'A' <= c <= 'Z' {
        (c as int + 32) as char
    } else {
        c
    }
}

/// Equality up to ASCII case.
pub open spec fn same_ascii_fold(a: Seq<char>, b: Seq<char>) -> bool {
    &&& a.len() == b.len()
    &&& forall|k: int| 0 <= k < a.len() ==> #[trigger] ascii_lower(a[k]) == ascii_lower(b[k])
}

/// The lower-case form of a text: what `str::to_lowercase` gives.
pub uninterp spec fn lowercase(s: Seq<char>) -> Seq<char>;

/// A text of ASCII characters.
pub open spec fn ascii(s: Seq<char>) -> bool {
    forall|k: int| 0 <= k < s.len() ==> (#[trigger] s[k] as int) < 128
}

/// `str::to_lowercase`: a function of the text alone, which on ASCII text maps
/// each capital letter to its small one and leaves the rest.
#[verifier::external_body]
pub(crate) fn to_lowercase(s: &str) -> (r: String)
    ensures
        r@ == lowercase(s@),
        ascii(s@) ==> r@ == Seq::new(s@.len(), |k: int| ascii_lower(s@[k])),
{
    s.to_lowercase()
}

/// The ASCII lower-case form of a character.
fn lower(c: char) -> (r: char)
    ensures
        r == ascii_lower(c),
{
    if c >= 'A' && c <= 'Z' {
        ((c as u8) + 32u8) as char
    } else {
        c
    }
}

/// Whether two strings are equal up to ASCII case.
pub fn eq_ignore_ascii_case(a: &str, b: &str) -> (r: bool)
    ensures
        r == same_ascii_fold(a@, b@),
{
    let x = chars_of(a);
    let y = chars_of(b);
    if x.len() != y.len() {
        return false;
    }
    let mut i: usize = 0;
    while i < x.len()
        invariant
            x.len() == y.len(),
            i <= x.len(),
            x@ == a@,
            y@ == b@,
            forall|k: int| 0 <= k < i ==> #[trigger] ascii_lower(x@[k]) == ascii_lower(y@[k]),
        decreases x.len() - i,
    {
        if lower(x[i]) != lower(y[i]) {
            assert(ascii_lower(a@[i as int]) != ascii_lower(b@[i as int]));
            return false;
        }
        i += 1;
    }
    true
}

// ---------------------------------------------------------------------
// Order

/// `a` comes before `b` in the order of their characters.
pub open spec fn comes_before(a: Seq<char>, b: Seq<char>) -> bool
    decreases a.len(),
{
    if b.len() == 0 {
        false
    } else if a.len() == 0 {
        true
    } else if a[0] != b[0] {
        a[0] < b[0]
    } else {
        comes_before(a.drop_first(), b.drop_first())
    }
}

/// The order of texts is strict and total.
pub proof fn lemma_order_total(a: Seq<char>, b: Seq<char>)
    ensures
        !(comes_before(a, b) && comes_before(b, a)),
        a == b ==> !comes_before(a, b),
        comes_before(a, b) || comes_before(b, a) || a == b,
    decreases a.len(),
{
    if a.len() > 0 && b.len() > 0 && a[0] == b[0] {
        lemma_order_total(a.drop_first(), b.drop_first());
        if a.drop_first() == b.drop_first() {
            assert(a =~= seq![a[0]] + a.drop_first());
            assert(b =~= seq![b[0]] + b.drop_first());
        }
    } else if a.len() == 0 && b.len() == 0 {
        assert(a =~= b);
    }
}

/// The order of texts is transitive.
pub proof fn lemma_order_transitive(a: Seq<char>, b: Seq<char>, c: Seq<char>)
    requires
        comes_before(a, b),
        comes_before(b, c),
    ensures
        comes_before(a, c),
    decreases a.len(),
{
    if a.len() > 0 && b.len() > 0 && c.len() > 0 && a[0] == b[0] && b[0] == c[0] {
        lemma_order_transitive(a.drop_first(), b.drop_first(), c.drop_first());
    }
}

/// Whether `a` comes before `b`.
pub fn is_before(a: &str, b: &str) -> (r: bool)
    ensures
        r == comes_before(a@, b@),
{
    let x = chars_of(a);
    let y = chars_of(b);
    let mut i: usize = 0;
    assert(x@.skip(0) =~= x@ && y@.skip(0) =~= y@);
    while i < x.len() && i < y.len()
        invariant
            i <= x@.len(),
            i <= y@.len(),
            comes_before(x@, y@) == comes_before(x@.skip(i as int), y@.skip(i as int)),
            x@ == a@,
            y@ == b@,
        decreases x@.len() - i,
    {
        proof {
            assert(x@.skip(i as int).drop_first() =~= x@.skip(i + 1));
            assert(y@.skip(i as int).drop_first() =~= y@.skip(i + 1));
        }
        if x[i] != y[i] {
            return x[i] < y[i];
        }
        i += 1;
    }
    i < y.len()
}

/// The texts are in order, none occurs twice.
pub open spec fn in_order(v: Seq<Seq<char>>) -> bool {
    forall|i: int, j: int| 0 <= i < j < v.len() ==> comes_before(#[trigger] v[i], #[trigger] v[j])
}

/// Put a text into an ordered list, unless it is there.
pub fn insert_in_order(v: &mut Vec<String>, s: &str)
    requires
        in_order(views(old(v)@)),
    ensures
        in_order(views(final(v)@)),
        forall|t: Seq<char>| #[trigger]
            views(final(v)@).contains(t) <==> views(old(v)@).contains(t) || t == s@,
{
    let ghost before = views(v@);
    let mut i: usize = 0;
    while i < v.len() && is_before(v[i].as_str(), s)
        invariant
            views(v@) == before,
            i <= v@.len(),
            forall|k: int| 0 <= k < i ==> comes_before(#[trigger] before[k], s@),
        decreases v@.len() - i,
    {
        assert(before[i as int] == v@[i as int]@);
        i += 1;
    }
    if i < v.len() && same_text(v[i].as_str(), s) {
        assert(before[i as int] == s@);
        return;
    }
    let ghost held = v@;
    v.insert(i, s.to_owned());
    proof {
        let now = views(v@);
        assert(now =~= before.insert(i as int, s@));
        if i < held.len() {
            assert(before[i as int] == held[i as int]@);
            lemma_order_total(before[i as int], s@);
        }
        assert forall|a: int, b: int| 0 <= a < b < now.len() implies comes_before(
            #[trigger] now[a],
            #[trigger] now[b],
        ) by {
            if b < i {
                assert(comes_before(before[a], before[b]));
            } else if a < i && b == i {
                assert(comes_before(before[a], s@));
            } else if a < i {
                assert(comes_before(before[a], before[b - 1]));
            } else if a == i {
                if b - 1 > i {
                    assert(comes_before(before[i as int], before[b - 1]));
                    lemma_order_transitive(s@, before[i as int], before[b - 1]);
                }
            } else {
                assert(comes_before(before[a - 1], before[b - 1]));
            }
        }
        assert forall|t: Seq<char>| #[trigger] now.contains(t) <==> before.contains(t) || t == s@ by {
            if now.contains(t) {
                let k = choose|k: int| 0 <= k < now.len() && now[k] == t;
                if k < i {
                    assert(before[k] == t);
                } else if k > i {
                    assert(before[k - 1] == t);
                }
            }
            if before.contains(t) {
                let k = choose|k: int| 0 <= k < before.len() && before[k] == t;
                if k < i {
                    assert(now[k] == t);
                } else {
                    assert(now[k + 1] == t);
                }
            }
            assert(now[i as int] == s@);
        }
    }
}

// ---------------------------------------------------------------------
// Length in bytes

/// The length of the UTF-8 form of `s`.
pub open spec fn bytes(s: Seq<char>) -> nat {
    vstd::utf8::encode_utf8(s).len()
}

/// The length of the UTF-8 form of `s`.
pub fn byte_len(s: &str) -> (r: usize)
    ensures
        r == bytes(s@),
{
    s.as_bytes().len()
}

/// The UTF-8 forms of joined texts follow one another.
pub proof fn lemma_bytes_concat(a: Seq<char>, b: Seq<char>)
    ensures
        bytes(a + b) == bytes(a) + bytes(b),
    decreases a.len(),
{
    if a.len() == 0 {
        assert(a + b =~= b);
    } else {
        assert((a + b).drop_first() =~= a.drop_first() + b);
        lemma_bytes_concat(a.drop_first(), b);
    }
}

/// A line break takes one byte.
pub proof fn lemma_newline_bytes()
    ensures
        bytes("\n"@) == 1,
{
    reveal_strlit("\n");
    vstd::utf8::is_ascii_chars_encode_utf8("\n"@);
}

// ---------------------------------------------------------------------
// What the primitives are

/// The whitespace characters, by their code points.
pub proof fn law_white(c: char)
    ensures
        white(c) <==> {
            let n = c as int;
            9 <= n <= 13 || n == 0x20 || n == 0x85 || n == 0xa0 || n == 0x1680 || 0x2000 <= n
                <= 0x200a || n == 0x2028 || n == 0x2029 || n == 0x202f || n == 0x205f || n == 0x3000
        },
        digit(c) <==> 48 <= c as int <= 57,
        digit(c) ==> digit_value(c) == c as int - 48,
{
}

/// Trimming takes off all whitespace at both ends and nothing else.
pub proof fn law_trimmed(s: Seq<char>, lo: int, hi: int)
    requires
        0 <= lo <= hi <= s.len(),
        forall|k: int| 0 <= k < lo ==> white(#[trigger] s[k]),
        forall|k: int| hi <= k < s.len() ==> white(#[trigger] s[k]),
        lo < hi ==> !white(s[lo]) && !white(s[hi - 1]),
    ensures
        trimmed(s) == s.subrange(lo, hi),
        trimmed(s).len() == 0 <==> forall|k: int| 0 <= k < s.len() ==> white(#[trigger] s[k]),
{
    if lo < hi {
        lemma_drop_front_skip(s, ws(), lo);
        let rest = s.skip(lo);
        assert forall|k: int| hi - lo <= k < rest.len() implies ws()(#[trigger] rest[k]) by {
            assert(rest[k] == s[lo + k]);
        }
        assert(rest[hi - lo - 1] == s[hi - 1]);
        lemma_drop_back_take(rest, ws(), hi - lo);
        assert(rest.take(hi - lo) =~= s.subrange(lo, hi));
        assert(!white(s[lo]));
    } else {
        assert forall|k: int| 0 <= k < s.len() implies ws()(#[trigger] s[k]) by {}
        lemma_drop_front_skip(s, ws(), s.len() as int);
        assert(s.skip(s.len() as int).len() == 0);
        assert(trimmed(s) =~= s.subrange(lo, hi));
    }
}

/// Whitespace parts words: the words of two texts with whitespace between them
/// are the words of the one and then those of the other. A text without any
/// whitespace is one word, and an empty one has none.
pub proof fn law_split_ws(a: Seq<char>, c: char, b: Seq<char>)
    requires
        white(c),
    ensures
        split_ws(a.push(c) + b) == split_ws(a) + split_ws(b),
        a.len() == 0 ==> split_ws(a).len() == 0,
        a.len() > 0 && (forall|k: int| 0 <= k < a.len() ==> !white(#[trigger] a[k])) ==> split_ws(a)
            == seq![a],
    decreases a.len() + b.len(),
{
    if a.len() > 0 && (forall|k: int| 0 <= k < a.len() ==> !white(#[trigger] a[k])) {
        lemma_one_word(a);
    }
    let s = a.push(c) + b;
    if b.len() == 0 {
        assert(s =~= a.push(c));
        assert(s.drop_last() =~= a);
        assert(split_ws(s) =~= split_ws(a) + split_ws(b));
    } else {
        let init = b.drop_last();
        law_split_ws(a, c, init);
        assert(s.drop_last() =~= a.push(c) + init);
        assert(s.last() == b.last());
        if init.len() == 0 {
            assert(s.drop_last() =~= a.push(c));
            assert(s.drop_last().last() == c);
        } else {
            assert(s.drop_last().last() == init.last());
        }
        let (x, y) = (split_ws(a), split_ws(init));
        if white(b.last()) {
        } else if init.len() == 0 || white(init.last()) {
            assert(split_ws(s) =~= x + split_ws(b));
        } else {
            lemma_open_word(init);
            assert((x + y).drop_last() =~= x + y.drop_last());
            assert(split_ws(s) =~= x + split_ws(b));
        }
    }
}

/// A text that does not end in whitespace has a last word.
proof fn lemma_open_word(s: Seq<char>)
    requires
        s.len() > 0,
        !white(s.last()),
    ensures
        split_ws(s).len() > 0,
{
}

proof fn lemma_one_word(s: Seq<char>)
    requires
        s.len() > 0,
        forall|k: int| 0 <= k < s.len() ==> !white(#[trigger] s[k]),
    ensures
        split_ws(s) == seq![s],
    decreases s.len(),
{
    let init = s.drop_last();
    assert(!white(s[s.len() - 1]));
    if init.len() == 0 {
        assert(split_ws(init).len() == 0);
        assert(s =~= seq![s.last()]);
        assert(split_ws(s) =~= seq![s]);
    } else {
        assert forall|k: int| 0 <= k < init.len() implies !white(#[trigger] init[k]) by {
            assert(init[k] == s[k]);
        }
        lemma_one_word(init);
        assert(!white(init[init.len() - 1]));
        assert(init.push(s.last()) =~= s);
        assert(split_ws(s) =~= seq![s]);
    }
}

/// Joining puts the separator between neighbours and nowhere else.
pub proof fn law_join(a: Seq<Seq<char>>, b: Seq<Seq<char>>, sep: Seq<char>)
    requires
        a.len() > 0,
        b.len() > 0,
    ensures
        join(a + b, sep) == join(a, sep) + sep + join(b, sep),
        a.len() == 1 ==> join(a, sep) == a[0],
        join(Seq::empty(), sep).len() == 0,
    decreases b.len(),
{
    let all = a + b;
    if b.len() == 1 {
        assert(all.drop_last() =~= a);
        assert(join(all, sep) =~= join(a, sep) + sep + join(b, sep));
    } else {
        law_join(a, b.drop_last(), sep);
        assert(all.drop_last() =~= a + b.drop_last());
        assert(join(all, sep) =~= join(a, sep) + sep + join(b, sep));
    }
}

/// Words that were joined by spaces are the words of the joined text.
pub proof fn law_joined_words_split_again(words: Seq<Seq<char>>)
    requires
        forall|i: int| 0 <= i < words.len() ==> (#[trigger] words[i]).len() > 0,
        forall|i: int, k: int|
            0 <= i < words.len() && 0 <= k < words[i].len() ==> !white(#[trigger] words[i][k]),
    ensures
        split_ws(join(words, " "@)) == words,
    decreases words.len(),
{
    reveal_strlit(" ");
    assert(" "@ =~= seq![' ']);
    if words.len() == 0 {
        assert(split_ws(join(words, " "@)) =~= words);
    } else {
        let last = words.last();
        assert forall|k: int| 0 <= k < last.len() implies !white(#[trigger] last[k]) by {
            assert(!white(words[words.len() - 1][k]));
        }
        assert(words[words.len() - 1].len() > 0);
        lemma_one_word(last);
        if words.len() == 1 {
            assert(words =~= seq![last]);
        } else {
            let init = words.drop_last();
            assert forall|i: int| 0 <= i < init.len() implies (#[trigger] init[i]).len() > 0 by {
                assert(words[i].len() > 0);
            }
            assert forall|i: int, k: int|
                0 <= i < init.len() && 0 <= k < init[i].len() implies !white(
                #[trigger] init[i][k],
            ) by {
                assert(!white(words[i][k]));
            }
            law_joined_words_split_again(init);
            let head = join(init, " "@);
            law_split_ws(head, ' ', last);
            assert(head.push(' ') + last =~= head + " "@ + last);
            assert(split_ws(join(words, " "@)) =~= words);
        }
    }
}

/// A numeral has no leading zero but that of zero itself, and its value is that
/// of its digits in the decimal system.
pub proof fn law_numerals(n: nat, s: Seq<char>, c: char)
    ensures
        n > 0 ==> decimal(n)[0] != '0',
        decimal(0) == seq!['0'],
        numeral_value(s.push(c)) == 10 * numeral_value(s) + (c as int - 48),
        numeral_value(Seq::empty()) == 0,
    decreases n,
{
    assert(s.push(c).drop_last() =~= s);
    assert(decimal(0) =~= seq!['0']);
    if n >= 10 {
        law_numerals(n / 10, s, c);
        law_decimal_reads_back(n / 10);
    } else if n > 0 {
        let d = decimal(n)[0];
        assert(d as int == 48 + n);
    }
}

/// A signed numeral: one sign at most, then digits.
pub proof fn law_signed_value(run: Seq<char>)
    requires
        all_digits(run),
        run.len() > 0,
    ensures
        signed_value(run) == Some(numeral_value(run)),
        signed_value(seq!['-'] + run) == Some(-numeral_value(run)),
        signed_value(seq!['+'] + run) == Some(numeral_value(run)),
        signed_value(Seq::empty()) is None,
        signed_value(seq!['-', '-'] + run) is None,
{
    assert(digit(run[0]));
    assert((seq!['-'] + run).skip(1) =~= run);
    assert((seq!['+'] + run).skip(1) =~= run);
    let twice = (seq!['-', '-'] + run).skip(1);
    assert(twice[0] == '-');
    assert(!digit(twice[0]));
}

/// A text stands at a place exactly when all of its characters stand there.
pub proof fn law_occurs_at(s: Seq<char>, pat: Seq<char>, i: int)
    ensures
        occurs_at(s, pat, i) <==> 0 <= i && i + pat.len() <= s.len() && forall|k: int|
            0 <= k < pat.len() ==> s[i + k] == #[trigger] pat[k],
        has_prefix(s, pat) <==> occurs_at(s, pat, 0),
{
    if 0 <= i && i + pat.len() <= s.len() {
        let part = s.subrange(i, i + pat.len());
        if part == pat {
            assert forall|k: int| 0 <= k < pat.len() implies s[i + k] == #[trigger] pat[k] by {
                assert(part[k] == s[i + k]);
            }
        }
        if forall|k: int| 0 <= k < pat.len() ==> s[i + k] == #[trigger] pat[k] {
            assert(part =~= pat);
        }
    }
}

/// Texts that differ in the case of ASCII letters only are the same up to case.
pub proof fn law_ascii_fold(a: Seq<char>, b: Seq<char>)
    ensures
        same_ascii_fold(a, b) <==> a.len() == b.len() && forall|k: int|
            0 <= k < a.len() ==> (#[trigger] a[k] == b[k] || (65 <= a[k] as int <= 90 && b[k] as int
                == a[k] as int + 32) || (65 <= b[k] as int <= 90 && a[k] as int == b[k] as int + 32)),
{
    if same_ascii_fold(a, b) {
        assert forall|k: int| 0 <= k < a.len() implies (#[trigger] a[k] == b[k] || (65
            <= a[k] as int <= 90 && b[k] as int == a[k] as int + 32) || (65 <= b[k] as int <= 90
            && a[k] as int == b[k] as int + 32)) by {
            assert(ascii_lower(a[k]) == ascii_lower(b[k]));
        }
    }
    if a.len() == b.len() && forall|k: int|
        0 <= k < a.len() ==> (#[trigger] a[k] == b[k] || (65 <= a[k] as int <= 90 && b[k] as int
            == a[k] as int + 32) || (65 <= b[k] as int <= 90 && a[k] as int == b[k] as int + 32)) {
        assert forall|k: int| 0 <= k < a.len() implies #[trigger] ascii_lower(a[k]) == ascii_lower(
            b[k],
        ) by {
            assert(a[k] == b[k] || (65 <= a[k] as int <= 90 && b[k] as int == a[k] as int + 32) || (
            65 <= b[k] as int <= 90 && a[k] as int == b[k] as int + 32));
        }
    }
}

/// One text comes before another one when it is a beginning of it, or has the
/// lesser character where they first differ.
pub proof fn law_order(a: Seq<char>, b: Seq<char>, n: int)
    requires
        0 <= n <= a.len(),
        n <= b.len(),
        forall|k: int| 0 <= k < n ==> #[trigger] a[k] == b[k],
        n < a.len() && n < b.len() ==> a[n] != b[n],
    ensures
        comes_before(a, b) <==> n < b.len() && (n == a.len() || a[n] < b[n]),
    decreases n,
{
    if n > 0 {
        assert(a[0] == b[0]);
        let (x, y) = (a.drop_first(), b.drop_first());
        assert forall|k: int| 0 <= k < n - 1 implies #[trigger] x[k] == y[k] by {
            assert(a[k + 1] == b[k + 1]);
        }
        law_order(x, y, n - 1);
    }
}

/// The contents of a list of texts are the contents of each, in order.
pub proof fn law_views(v: Seq<String>, i: int)
    requires
        0 <= i < v.len(),
    ensures
        views(v).len() == v.len(),
        views(v)[i] == v[i]@,
{
}

/// A pattern stands at its first position, and nowhere before it.
pub proof fn law_first_at(s: Seq<char>, pat: Seq<char>, i: int, j: int)
    requires
        first_at(s, pat, i),
        0 <= j <= s.len() - pat.len(),
        s.subrange(j, j + pat.len()) == pat,
    ensures
        0 <= i <= j,
        s.subrange(i, i + pat.len()) == pat,
{
    assert(occurs_at(s, pat, j));
}

/// The ten digits, and the twenty-six letters that have a lower case in ASCII.
pub proof fn law_ascii_characters(n: int, c: char)
    requires
        0 <= n <= 9,
    ensures
        digit_char(n) as int == 48 + n,
        65 <= c as int <= 90 ==> ascii_lower(c) as int == c as int + 32,
        !(65 <= c as int <= 90) ==> ascii_lower(c) == c,
{
}

} // verus!
