//! Text as vectors of characters: trimming, splitting, comparing.

use vstd::prelude::*;

verus! {

/// The characters with the Unicode property `White_Space`.
pub open spec fn is_space(c: char) -> bool {
    ||| '\u{9}' <= c <= '\u{d}'
    ||| c == ' '
    ||| c == '\u{85}'
    ||| c == '\u{a0}'
    ||| c == '\u{1680}'
    ||| '\u{2000}' <= c <= '\u{200a}'
    ||| c == '\u{2028}'
    ||| c == '\u{2029}'
    ||| c == '\u{202f}'
    ||| c == '\u{205f}'
    ||| c == '\u{3000}'
}

/// `s` without leading white space.
pub open spec fn trim_start(s: Seq<char>) -> Seq<char>
    decreases s.len(),
{
    if s.len() > 0 && is_space(s[0]) {
        trim_start(s.drop_first())
    } else {
        s
    }
}

/// `s` without trailing white space.
pub open spec fn trim_end(s: Seq<char>) -> Seq<char>
    decreases s.len(),
{
    if s.len() > 0 && is_space(s.last()) {
        trim_end(s.drop_last())
    } else {
        s
    }
}

/// `s` without white space at either end.
pub open spec fn trim(s: Seq<char>) -> Seq<char> {
    trim_end(trim_start(s))
}

/// The position of the first `c` in `s`, or the length of `s`.
pub open spec fn find(s: Seq<char>, c: char) -> nat
    decreases s.len(),
{
    if s.len() == 0 || s[0] == c {
        0
    } else {
        1 + find(s.drop_first(), c)
    }
}

/// What stands before and after the first `c`.
pub open spec fn split_once(s: Seq<char>, c: char) -> Option<(Seq<char>, Seq<char>)> {
    let i = find(s, c) as int;
    if i < s.len() {
        Some((s.subrange(0, i), s.subrange(i + 1, s.len() as int)))
    } else {
        None
    }
}

/// The pieces of `s` between line feeds.
pub open spec fn lines(s: Seq<char>) -> Seq<Seq<char>>
    decreases s.len(),
{
    match split_once(s, '\n') {
        Some((a, b)) => if b.len() < s.len() {
            seq![a] + lines(b)
        } else {
            seq![]
        },
        None => seq![s],
    }
}

/// How many characters at the start of `s` are not white space.
pub open spec fn word_len(s: Seq<char>) -> nat
    decreases s.len(),
{
    if s.len() == 0 || is_space(s[0]) {
        0
    } else {
        1 + word_len(s.drop_first())
    }
}

/// The runs of `s` that white space separates.
pub open spec fn words(s: Seq<char>) -> Seq<Seq<char>>
    decreases s.len(),
{
    if s.len() == 0 {
        seq![]
    } else if is_space(s[0]) {
        words(s.drop_first())
    } else {
        let n = word_len(s) as int;
        if 0 < n <= s.len() {
            seq![s.subrange(0, n)] + words(s.subrange(n, s.len() as int))
        } else {
            seq![]
        }
    }
}

/// An ASCII capital as its small letter; any other character as it is.
pub open spec fn ascii_lower(c: char) -> char {
    if 'A' <= c <= 'Z' {
        ((c as u32 + 32) as u32) as char
    } else {
        c
    }
}

/// Equal but for the case of ASCII letters.
pub open spec fn same_ignoring_case(a: Seq<char>, b: Seq<char>) -> bool {
    a.len() == b.len() && forall|i: int|
        0 <= i < a.len() ==> ascii_lower(#[trigger] a[i]) == ascii_lower(b[i])
}

pub open spec fn is_digit(c: char) -> bool {
    '0' <= c <= '9'
}

/// How many digits stand at the start of `s`.
pub open spec fn digit_len(s: Seq<char>) -> nat
    decreases s.len(),
{
    if s.len() == 0 || !is_digit(s[0]) {
        0
    } else {
        1 + digit_len(s.drop_first())
    }
}

/// The number that a string of digits writes.
pub open spec fn decimal(s: Seq<char>) -> nat
    decreases s.len(),
{
    if s.len() == 0 {
        0
    } else {
        decimal(s.drop_last()) * 10 + (s.last() as nat - '0' as nat) as nat
    }
}

/// An unsigned 32-bit integer: an optional `+`, then digits only.
pub open spec fn parse_u32(s: Seq<char>) -> Option<u32> {
    let d = if s.len() > 0 && s[0] == '+' {
        s.drop_first()
    } else {
        s
    };
    if d.len() > 0 && digit_len(d) == d.len() && decimal(d) <= u32::MAX {
        Some(decimal(d) as u32)
    } else {
        None
    }
}

pub fn char_is_space(c: char) -> (r: bool)
    ensures
        r == is_space(c),
{
    ('\u{9}' <= c && c <= '\u{d}') || c == ' ' || c == '\u{85}' || c == '\u{a0}' || c == '\u{1680}' || (
    '\u{2000}' <= c && c <= '\u{200a}') || c == '\u{2028}' || c == '\u{2029}' || c == '\u{202f}' || c
        == '\u{205f}' || c == '\u{3000}'
}

/// The characters of `s` from `from` up to `to`.
pub fn slice(s: &Vec<char>, from: usize, to: usize) -> (r: Vec<char>)
    requires
        from <= to <= s.len(),
    ensures
        r@ == s@.subrange(from as int, to as int),
{
    let mut r: Vec<char> = Vec::new();
    let mut i: usize = from;
    while i < to
        invariant
            from <= i <= to <= s.len(),
            r@ == s@.subrange(from as int, i as int),
        decreases to - i,
    {
        r.push(s[i]);
        assert(r@ =~= s@.subrange(from as int, i + 1));
        i = i + 1;
    }
    r
}

/// `String::push` of the standard library: the string afterwards is the string
/// before with `ch` appended.
pub assume_specification[ String::push ](s: &mut String, ch: char)
    ensures
        final(s)@ == old(s)@.push(ch),
;

/// The string with the characters `v`.
pub fn to_text(v: &Vec<char>) -> (r: String)
    ensures
        r@ == v@,
{
    let mut r: String = String::new();
    let mut i: usize = 0;
    assert(r@ =~= v@.subrange(0, 0));
    while i < v.len()
        invariant
            i <= v.len(),
            r@ == v@.subrange(0, i as int),
        decreases v.len() - i,
    {
        r.push(v[i]);
        assert(r@ =~= v@.subrange(0, i + 1));
        i = i + 1;
    }
    assert(v@.subrange(0, v.len() as int) =~= v@);
    r
}

/// The characters of a string.
pub fn to_chars(s: &str) -> (r: Vec<char>)
    ensures
        r@ == s@,
{
    let mut r: Vec<char> = Vec::new();
    for c in it: s.chars()
        invariant
            r@ == s@.subrange(0, it.index() as int),
            it.seq() == s@,
    {
        r.push(c);
        assert(r@ =~= s@.subrange(0, it.index() + 1));
    }
    assert(r@ =~= s@);
    r
}

pub fn trimmed(s: &Vec<char>) -> (r: Vec<char>)
    ensures
        r@ == trim(s@),
{
    let n: usize = s.len();
    let mut a: usize = 0;
    assert(s@.subrange(0, n as int) =~= s@);
    while a < n && char_is_space(s[a])
        invariant
            a <= n,
            n == s.len(),
            trim_start(s@) == trim_start(s@.subrange(a as int, n as int)),
        decreases n - a,
    {
        assert(s@.subrange(a as int, n as int).drop_first() =~= s@.subrange(a + 1, n as int));
        a = a + 1;
    }
    assert(trim_start(s@) == s@.subrange(a as int, n as int));
    let mut b: usize = n;
    while b > a && char_is_space(s[b - 1])
        invariant
            a <= b <= n,
            n == s.len(),
            trim(s@) == trim_end(s@.subrange(a as int, b as int)),
        decreases b,
    {
        assert(s@.subrange(a as int, b as int).drop_last() =~= s@.subrange(a as int, b - 1));
        b = b - 1;
    }
    slice(s, a, b)
}

proof fn lemma_find_len(s: Seq<char>, c: char)
    ensures
        find(s, c) <= s.len(),
    decreases s.len(),
{
    if s.len() > 0 && s[0] != c {
        lemma_find_len(s.drop_first(), c);
    }
}

/// The position of the first `c` at or after `from`, or the length.
fn position(s: &Vec<char>, from: usize, c: char) -> (r: usize)
    requires
        from <= s.len(),
    ensures
        r == from + find(s@.subrange(from as int, s.len() as int), c),
        from <= r <= s.len(),
{
    let n: usize = s.len();
    let mut i: usize = from;
    while i < n && s[i] != c
        invariant
            from <= i <= n,
            n == s.len(),
            i + find(s@.subrange(i as int, n as int), c) == from + find(s@.subrange(from as int, n as int), c),
        decreases n - i,
    {
        assert(s@.subrange(i as int, n as int).drop_first() =~= s@.subrange(i + 1, n as int));
        i = i + 1;
    }
    i
}

pub fn split_at(s: &Vec<char>, c: char) -> (r: Option<(Vec<char>, Vec<char>)>)
    ensures
        match r {
            Some((a, b)) => split_once(s@, c) == Some((a@, b@)),
            None => split_once(s@, c) is None,
        },
{
    assert(s@.subrange(0, s.len() as int) =~= s@);
    let i: usize = position(s, 0, c);
    if i < s.len() {
        Some((slice(s, 0, i), slice(s, i + 1, s.len())))
    } else {
        None
    }
}

/// The view of a vector of texts.
pub open spec fn texts(v: Seq<Vec<char>>) -> Seq<Seq<char>> {
    v.map_values(|w: Vec<char>| w@)
}

pub fn all_lines(s: &Vec<char>) -> (r: Vec<Vec<char>>)
    ensures
        texts(r@) == lines(s@),
{
    let n: usize = s.len();
    let mut r: Vec<Vec<char>> = Vec::new();
    let mut a: usize = 0;
    assert(s@.subrange(0, n as int) =~= s@);
    assert(texts(r@) + lines(s@) =~= lines(s@));
    loop
        invariant_except_break
            texts(r@) + lines(s@.subrange(a as int, n as int)) == lines(s@),
        invariant
            a <= n,
            n == s.len(),
        ensures
            texts(r@) == lines(s@),
        decreases n - a,
    {
        let ghost rest = s@.subrange(a as int, n as int);
        let i: usize = position(s, a, '\n');
        let ghost old_r = r@;
        r.push(slice(s, a, i));
        assert(texts(r@) =~= texts(old_r) + seq![s@.subrange(a as int, i as int)]);
        if i < n {
            proof {
                let k = i - a;
                assert(rest.subrange(0, k) =~= s@.subrange(a as int, i as int));
                assert(rest.subrange(k + 1, rest.len() as int) =~= s@.subrange(i + 1, n as int));
                let tail = lines(s@.subrange(i + 1, n as int));
                assert(lines(rest) == seq![s@.subrange(a as int, i as int)] + tail);
                assert(texts(r@) + tail =~= texts(old_r) + lines(rest));
            }
            a = i + 1;
        } else {
            proof {
                assert(rest =~= s@.subrange(a as int, i as int));
                assert(lines(rest) == seq![rest]);
            }
            break;
        }
    }
    r
}

proof fn lemma_word_len(s: Seq<char>)
    ensures
        word_len(s) <= s.len(),
    decreases s.len(),
{
    if s.len() > 0 && !is_space(s[0]) {
        lemma_word_len(s.drop_first());
    }
}

pub fn all_words(s: &Vec<char>) -> (r: Vec<Vec<char>>)
    ensures
        texts(r@) == words(s@),
{
    let n: usize = s.len();
    let mut r: Vec<Vec<char>> = Vec::new();
    let mut a: usize = 0;
    assert(s@.subrange(0, n as int) =~= s@);
    assert(texts(r@) + words(s@) =~= words(s@));
    while a < n
        invariant
            a <= n,
            n == s.len(),
            texts(r@) + words(s@.subrange(a as int, n as int)) == words(s@),
        decreases n - a,
    {
        let ghost rest = s@.subrange(a as int, n as int);
        if char_is_space(s[a]) {
            assert(rest.drop_first() =~= s@.subrange(a + 1, n as int));
            a = a + 1;
        } else {
            let mut b: usize = a + 1;
            assert(rest.drop_first() =~= s@.subrange(a + 1, n as int));
            while b < n && !char_is_space(s[b])
                invariant
                    a < b <= n,
                    n == s.len(),
                    word_len(rest) == b - a + word_len(s@.subrange(b as int, n as int)),
                decreases n - b,
            {
                assert(s@.subrange(b as int, n as int).drop_first() =~= s@.subrange(b + 1, n as int));
                b = b + 1;
            }
            let ghost old_r = r@;
            r.push(slice(s, a, b));
            proof {
                let k = b - a;
                assert(texts(r@) =~= texts(old_r) + seq![s@.subrange(a as int, b as int)]);
                assert(rest.subrange(0, k) =~= s@.subrange(a as int, b as int));
                assert(rest.subrange(k, rest.len() as int) =~= s@.subrange(b as int, n as int));
                let tail = words(s@.subrange(b as int, n as int));
                assert(texts(r@) + tail =~= texts(old_r) + words(rest));
            }
            a = b;
        }
    }
    assert(s@.subrange(n as int, n as int) =~= Seq::<char>::empty());
    assert(texts(r@) + Seq::<Seq<char>>::empty() =~= texts(r@));
    r
}

/// Whether `s` is exactly the word `w`.
pub fn is_word(s: &Vec<char>, w: &str) -> (r: bool)
    ensures
        r == (s@ == w@),
{
    let t: Vec<char> = to_chars(w);
    if s.len() != t.len() {
        return false;
    }
    let mut i: usize = 0;
    while i < s.len()
        invariant
            i <= s.len(),
            s.len() == t.len(),
            t@ == w@,
            forall|j: int| 0 <= j < i ==> s[j] == t[j],
        decreases s.len() - i,
    {
        if s[i] != t[i] {
            return false;
        }
        i = i + 1;
    }
    assert(s@ =~= t@);
    true
}

fn lower(c: char) -> (r: char)
    ensures
        r == ascii_lower(c),
{
    if 'A' <= c && c <= 'Z' {
        ((c as u8) + 32) as char
    } else {
        c
    }
}

/// Whether `s` is the word `w`, the case of ASCII letters aside.
pub fn is_word_any_case(s: &Vec<char>, w: &str) -> (r: bool)
    ensures
        r == same_ignoring_case(s@, w@),
{
    let t: Vec<char> = to_chars(w);
    if s.len() != t.len() {
        return false;
    }
    let mut i: usize = 0;
    while i < s.len()
        invariant
            i <= s.len(),
            s.len() == t.len(),
            t@ == w@,
            forall|j: int| 0 <= j < i ==> ascii_lower(#[trigger] s@[j]) == ascii_lower(t@[j]),
        decreases s.len() - i,
    {
        if lower(s[i]) != lower(t[i]) {
            assert(ascii_lower(s@[i as int]) != ascii_lower(t@[i as int]));
            return false;
        }
        i = i + 1;
    }
    true
}

pub fn char_is_digit(c: char) -> (r: bool)
    ensures
        r == is_digit(c),
{
    '0' <= c && c <= '9'
}

/// The end of the run of digits that starts at `from`.
pub fn digits_end(s: &Vec<char>, from: usize) -> (r: usize)
    requires
        from <= s.len(),
    ensures
        from <= r <= s.len(),
        r == from + digit_len(s@.subrange(from as int, s.len() as int)),
        forall|i: int| from <= i < r ==> is_digit(#[trigger] s@[i]),
{
    let n: usize = s.len();
    let mut i: usize = from;
    while i < n && char_is_digit(s[i])
        invariant
            from <= i <= n,
            n == s.len(),
            i + digit_len(s@.subrange(i as int, n as int)) == from + digit_len(
                s@.subrange(from as int, n as int),
            ),
            forall|j: int| from <= j < i ==> is_digit(#[trigger] s@[j]),
        decreases n - i,
    {
        assert(s@.subrange(i as int, n as int).drop_first() =~= s@.subrange(i + 1, n as int));
        i = i + 1;
    }
    i
}

/// The value of a digit.
pub fn digit_value(c: char) -> (r: u32)
    requires
        is_digit(c),
    ensures
        r == c as nat - '0' as nat,
        r <= 9,
{
    c as u32 - '0' as u32
}

proof fn lemma_decimal_grows(s: Seq<char>, i: int)
    requires
        0 <= i <= s.len(),
        forall|j: int| 0 <= j < s.len() ==> is_digit(#[trigger] s[j]),
    ensures
        decimal(s.subrange(0, i)) <= decimal(s),
    decreases s.len(),
{
    if i == s.len() {
        assert(s.subrange(0, i) =~= s);
    } else {
        lemma_decimal_grows(s.drop_last(), i);
        assert(s.drop_last().subrange(0, i) =~= s.subrange(0, i));
    }
}

pub fn number_u32(s: &Vec<char>) -> (r: Option<u32>)
    ensures
        r == parse_u32(s@),
{
    let n: usize = s.len();
    let from: usize = if n > 0 && s[0] == '+' {
        1
    } else {
        0
    };
    let ghost d = s@.subrange(from as int, n as int);
    assert(from == 1 ==> d =~= s@.drop_first());
    assert(from == 0 ==> d =~= s@);
    let end: usize = digits_end(s, from);
    if from == n || end != n {
        return None;
    }
    let mut v: u64 = 0;
    let mut i: usize = from;
    assert(d.subrange(0, 0) =~= Seq::<char>::empty());
    while i < n
        invariant
            from <= i <= n,
            n == s.len(),
            d == s@.subrange(from as int, n as int),
            forall|j: int| from <= j < n ==> is_digit(#[trigger] s@[j]),
            v == decimal(d.subrange(0, i - from)),
            v <= u32::MAX,
            d == if s@.len() > 0 && s@[0] == '+' { s@.drop_first() } else { s@ },
            d.len() > 0,
        decreases n - i,
    {
        proof {
            let t = d.subrange(0, i - from + 1);
            assert(t.drop_last() =~= d.subrange(0, i - from));
            assert(t.last() == s@[i as int]);
        }
        v = v * 10 + digit_value(s[i]) as u64;
        i = i + 1;
        if v > u32::MAX as u64 {
            proof {
                assert forall|j: int| 0 <= j < d.len() implies is_digit(#[trigger] d[j]) by {
                    assert(d[j] == s@[from + j]);
                }
                lemma_decimal_grows(d, i - from);
            }
            return None;
        }
    }
    assert(d.subrange(0, n - from) =~= d);
    Some(v as u32)
}

} // verus!
