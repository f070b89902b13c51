//! Text primitives: whitespace, trimming, splitting, decimal numbers.
//!
//! Every function works on sequences of `char`, the view of a `str`.

use vstd::prelude::*;
use vstd::slice::slice_subrange;

verus! {

/// Appends a character: `String::push` adds its argument at the end.
pub assume_specification[ String::push ](s: &mut String, c: char)
    ensures
        final(s)@ == old(s)@.push(c),
;

/// The characters of a string.
pub fn chars(s: &str) -> (r: Vec<char>)
    ensures
        r@ == s@,
{
    let mut r: Vec<char> = Vec::new();
    for c in it: s.chars()
        invariant
            it.seq() == s@,
            r@ == s@.take(it.index() as int),
    {
        r.push(c);
        assert(s@.take(it.index() as int + 1) =~= s@.take(it.index() as int).push(c));
    }
    assert(s@.take(s@.len() as int) =~= s@);
    r
}

/// The string made of the given characters.
pub fn text(cs: &[char]) -> (r: String)
    ensures
        r@ == cs@,
{
    let mut r: String = String::new();
    let mut i: usize = 0;
    while i < cs.len()
        invariant
            i <= cs@.len(),
            r@ == cs@.take(i as int),
        decreases cs@.len() - i,
    {
        r.push(cs[i]);
        assert(cs@.take(i as int + 1) =~= cs@.take(i as int).push(cs@[i as int]));
        i = i + 1;
    }
    assert(cs@.take(cs@.len() as int) =~= cs@);
    r
}

/// Whether two character slices are the same text.
pub fn same(a: &[char], b: &[char]) -> (r: bool)
    ensures
        r == (a@ == b@),
{
    if a.len() != b.len() {
        return false;
    }
    let mut i: usize = 0;
    while i < a.len()
        invariant
            a@.len() == b@.len(),
            i <= a@.len(),
            forall|j: int| 0 <= j < i ==> a@[j] == b@[j],
        decreases a@.len() - i,
    {
        if a[i] != b[i] {
            return false;
        }
        i = i + 1;
    }
    assert(a@ =~= b@);
    true
}

/// Whether two strings are the same text.
pub fn same_str(a: &str, b: &str) -> (r: bool)
    ensures
        r == (a@ == b@),
{
    same(chars(a).as_slice(), chars(b).as_slice())
}

/// The view of an optional text.
pub open spec fn opt_text(s: Option<&str>) -> Option<Seq<char>> {
    match s {
        Some(t) => Some(t@),
        None => None,
    }
}

/// The view of an optional string.
pub open spec fn opt_string(s: Option<String>) -> Option<Seq<char>> {
    match s {
        Some(t) => Some(t@),
        None => None,
    }
}

/// Whether `s` begins with `prefix`.
pub fn starts_with(s: &[char], prefix: &[char]) -> (r: bool)
    ensures
        r == prefix@.is_prefix_of(s@),
{
    if s.len() < prefix.len() {
        return false;
    }
    let r: bool = same(slice_subrange(s, 0, prefix.len()), prefix);
    r
}

/// The characters with the Unicode property White_Space.
pub open spec fn is_space(c: char) -> bool {
    let u = c as u32;
    ||| 0x09 <= u <= 0x0D
    ||| u == 0x20
    ||| u == 0x85
    ||| u == 0xA0
    ||| u == 0x1680
    ||| 0x2000 <= u <= 0x200A
    ||| u == 0x2028
    ||| u == 0x2029
    ||| u == 0x202F
    ||| u == 0x205F
    ||| u == 0x3000
}

/// Whether a character is white space.
pub fn space(c: char) -> (r: bool)
    ensures
        r == is_space(c),
{
    let u: u32 = c as u32;
    (0x09 <= u && u <= 0x0D) || u == 0x20 || u == 0x85 || u == 0xA0 || u == 0x1680 || (0x2000 <= u
        && u <= 0x200A) || u == 0x2028 || u == 0x2029 || u == 0x202F || u == 0x205F || u == 0x3000
}

/// `s` without its leading white space.
pub open spec fn trim_start(s: Seq<char>) -> Seq<char>
    decreases s.len(),
{
    if s.len() > 0 && is_space(s[0]) {
        trim_start(s.drop_first())
    } else {
        s
    }
}

/// `s` without its trailing white space.
pub open spec fn trim_end(s: Seq<char>) -> Seq<char>
    decreases s.len(),
{
    if s.len() > 0 && is_space(s.last()) {
        trim_end(s.drop_last())
    } else {
        s
    }
}

/// `s` without white space at either end.
pub open spec fn trimmed(s: Seq<char>) -> Seq<char> {
    trim_end(trim_start(s))
}

/// The part of `s` without white space at either end.
pub fn trim(s: &[char]) -> (r: &[char])
    ensures
        r@ == trimmed(s@),
{
    let n: usize = s.len();
    let mut a: usize = 0;
    assert(s@.skip(0) =~= s@);
    while a < n && space(s[a])
        invariant
            n == s@.len(),
            a <= n,
            trim_start(s@) == trim_start(s@.skip(a as int)),
        decreases n - a,
    {
        assert(s@.skip(a as int).drop_first() =~= s@.skip(a as int + 1));
        a = a + 1;
    }
    let mut b: usize = n;
    let ghost t = trim_start(s@);
    assert(t =~= s@.subrange(a as int, b as int));
    while b > a && space(s[b - 1])
        invariant
            n == s@.len(),
            a <= b <= n,
            trim_end(t) == trim_end(s@.subrange(a as int, b as int)),
        decreases b,
    {
        assert(s@.subrange(a as int, b as int).drop_last() =~= s@.subrange(a as int, b as int - 1));
        b = b - 1;
    }
    slice_subrange(s, a, b)
}

/// `s` without its trailing run of `c`.
pub open spec fn without_trailing(s: Seq<char>, c: char) -> Seq<char>
    decreases s.len(),
{
    if s.len() > 0 && s.last() == c {
        without_trailing(s.drop_last(), c)
    } else {
        s
    }
}

/// The part of `s` before its trailing run of `c`.
pub fn trim_end_char(s: &[char], c: char) -> (r: &[char])
    ensures
        r@ == without_trailing(s@, c),
{
    let mut b: usize = s.len();
    assert(s@.take(b as int) =~= s@);
    while b > 0 && s[b - 1] == c
        invariant
            b <= s@.len(),
            without_trailing(s@, c) == without_trailing(s@.take(b as int), c),
        decreases b,
    {
        assert(s@.take(b as int).drop_last() =~= s@.take(b as int - 1));
        b = b - 1;
    }
    assert(s@.subrange(0, b as int) =~= s@.take(b as int));
    slice_subrange(s, 0, b)
}

/// The position of the first `c` in `s`, if there is one.
pub open spec fn first_at(s: Seq<char>, c: char) -> Option<int>
    decreases s.len(),
{
    if s.len() == 0 {
        None
    } else if s[0] == c {
        Some(0int)
    } else {
        match first_at(s.drop_first(), c) {
            Some(i) => Some(i + 1),
            None => None,
        }
    }
}

/// What `first_at` finds is the first occurrence.
pub proof fn lemma_first_at(s: Seq<char>, c: char)
    ensures
        match first_at(s, c) {
            Some(i) => 0 <= i < s.len() && s[i] == c && forall|j: int| 0 <= j < i ==> s[j] != c,
            None => forall|j: int| 0 <= j < s.len() ==> s[j] != c,
        },
    decreases s.len(),
{
    if s.len() > 0 && s[0] != c {
        let t = s.drop_first();
        lemma_first_at(t, c);
        assert forall|j: int| 0 <= j < s.len() && (first_at(t, c) matches Some(i) ==> j < i + 1)
            implies s[j] != c by {
            if j > 0 {
                assert(s[j] == t[j - 1]);
            }
        }
    }
}

/// The position of the first `c` in `s`.
pub fn find(s: &[char], c: char) -> (r: Option<usize>)
    ensures
        match first_at(s@, c) {
            Some(i) => r == Some(i as usize) && 0 <= i < s@.len(),
            None => r is None,
        },
{
    proof {
        lemma_first_at(s@, c);
    }
    let mut i: usize = 0;
    while i < s.len()
        invariant
            i <= s@.len(),
            forall|j: int| 0 <= j < i ==> s@[j] != c,
            match first_at(s@, c) {
                Some(k) => 0 <= k < s@.len() && s@[k] == c && forall|j: int|
                    0 <= j < k ==> s@[j] != c,
                None => forall|j: int| 0 <= j < s@.len() ==> s@[j] != c,
            },
        decreases s@.len() - i,
    {
        if s[i] == c {
            return Some(i);
        }
        i = i + 1;
    }
    None
}

/// The pieces of `s` between the separators: one more than there are separators.
pub open spec fn split(s: Seq<char>, sep: char) -> Seq<Seq<char>>
    decreases s.len(),
{
    if s.len() == 0 {
        seq![Seq::<char>::empty()]
    } else {
        let p = split(s.drop_last(), sep);
        if s.last() == sep {
            p.push(Seq::empty())
        } else {
            p.drop_last().push(p.last().push(s.last()))
        }
    }
}

/// The pieces put back together, with `sep` between them.
pub open spec fn joined(ps: Seq<Seq<char>>, sep: char) -> Seq<char>
    decreases ps.len(),
{
    if ps.len() == 0 {
        Seq::empty()
    } else if ps.len() == 1 {
        ps[0]
    } else {
        joined(ps.drop_last(), sep).push(sep) + ps.last()
    }
}

/// A text without a separator is one piece.
pub proof fn lemma_split_single(s: Seq<char>, sep: char)
    requires
        forall|i: int| 0 <= i < s.len() ==> #[trigger] s[i] != sep,
    ensures
        split(s, sep) == seq![s],
    decreases s.len(),
{
    if s.len() > 0 {
        let t = s.drop_last();
        assert(forall|i: int| 0 <= i < t.len() ==> t[i] == #[trigger] s[i]);
        lemma_split_single(t, sep);
        assert(t.push(s.last()) =~= s);
        assert(seq![t].drop_last() =~= Seq::empty());
        assert(s.last() == s[s.len() - 1]);
        assert(split(s, sep) =~= seq![s]);
    } else {
        assert(s =~= Seq::empty());
    }
}

/// Splitting loses nothing: the pieces hold no separator, and joining them gives the text back.
pub proof fn law_split_joined(s: Seq<char>, sep: char)
    ensures
        split(s, sep).len() >= 1,
        joined(split(s, sep), sep) == s,
        forall|i: int|
            0 <= i < split(s, sep).len() ==> !(#[trigger] split(s, sep)[i]).contains(sep),
    decreases s.len(),
{
    if s.len() > 0 {
        let t = s.drop_last();
        let c = s.last();
        law_split_joined(t, sep);
        let p = split(t, sep);
        let q = split(s, sep);
        assert(s =~= t.push(c));
        if c == sep {
            assert(q.drop_last() =~= p);
            assert(joined(q, sep) =~= s);
        } else {
            assert(q.drop_last() =~= p.drop_last());
            assert(q.last() == p.last().push(c));
            assert(joined(q, sep) =~= s);
            assert(!p[p.len() - 1].contains(sep));
            assert forall|i: int| 0 <= i < q.len() implies !(#[trigger] q[i]).contains(sep) by {
                if i < q.len() - 1 {
                    assert(q[i] == p[i]);
                } else {
                    assert forall|k: int| 0 <= k < q[i].len() implies q[i][k] != sep by {
                        if k < q[i].len() - 1 {
                            assert(q[i][k] == p.last()[k]);
                        }
                    }
                }
            }
        }
    }
}

/// The views of a list of character lists.
pub open spec fn views(v: Seq<Vec<char>>) -> Seq<Seq<char>> {
    v.map_values(|p: Vec<char>| p@)
}

/// The pieces of `s` between the separators.
pub fn pieces(s: &[char], sep: char) -> (r: Vec<Vec<char>>)
    ensures
        views(r@) == split(s@, sep),
        r@.len() >= 1,
{
    let mut done: Vec<Vec<char>> = Vec::new();
    let mut cur: Vec<char> = Vec::new();
    let mut i: usize = 0;
    proof {
        assert(views(done@).push(cur@) =~= seq![Seq::<char>::empty()]);
        assert(s@.take(0) =~= Seq::<char>::empty());
    }
    while i < s.len()
        invariant
            i <= s@.len(),
            split(s@.take(i as int), sep) == views(done@).push(cur@),
        decreases s@.len() - i,
    {
        let c: char = s[i];
        let ghost before = views(done@).push(cur@);
        proof {
            assert(s@.take(i as int + 1).drop_last() =~= s@.take(i as int));
            assert(s@.take(i as int + 1).last() == c);
            assert(before.drop_last() =~= views(done@));
        }
        if c == sep {
            done.push(cur);
            cur = Vec::new();
            proof {
                assert(views(done@) =~= before);
            }
        } else {
            cur.push(c);
        }
        i = i + 1;
    }
    proof {
        assert(s@.take(s@.len() as int) =~= s@);
    }
    let ghost before = views(done@).push(cur@);
    done.push(cur);
    proof {
        assert(views(done@) =~= before);
    }
    done
}

/// The maximal runs of `s` that hold no white space.
pub open spec fn words(s: Seq<char>) -> Seq<Seq<char>>
    decreases s.len(),
{
    if s.len() == 0 {
        Seq::empty()
    } else {
        let p = words(s.drop_last());
        if is_space(s.last()) {
            p
        } else if s.len() == 1 || is_space(s[s.len() - 2]) {
            p.push(seq![s.last()])
        } else {
            p.drop_last().push(p.last().push(s.last()))
        }
    }
}

/// The maximal runs of `s` that hold no white space.
pub fn split_words(s: &[char]) -> (r: Vec<Vec<char>>)
    ensures
        views(r@) == words(s@),
{
    let mut done: Vec<Vec<char>> = Vec::new();
    let mut cur: Vec<char> = Vec::new();
    let mut i: usize = 0;
    proof {
        assert(s@.take(0) =~= Seq::<char>::empty());
        assert(views(done@) =~= Seq::empty());
    }
    while i < s.len()
        invariant
            i <= s@.len(),
            cur@.len() > 0 <==> (i > 0 && !is_space(s@[i - 1])),
            words(s@.take(i as int)) == (if cur@.len() > 0 {
                views(done@).push(cur@)
            } else {
                views(done@)
            }),
        decreases s@.len() - i,
    {
        let c: char = s[i];
        let ghost before = views(done@).push(cur@);
        proof {
            let t = s@.take(i as int + 1);
            assert(t.drop_last() =~= s@.take(i as int));
            assert(t.last() == c);
            assert(i > 0 ==> t[t.len() - 2] == s@[i - 1]);
            assert(before.drop_last() =~= views(done@));
        }
        if space(c) {
            if cur.len() > 0 {
                done.push(cur);
                cur = Vec::new();
                proof {
                    assert(views(done@) =~= before);
                }
            }
        } else {
            let ghost was = cur@;
            cur.push(c);
            proof {
                if was.len() == 0 {
                    assert(cur@ =~= seq![c]);
                }
            }
        }
        i = i + 1;
    }
    proof {
        assert(s@.take(s@.len() as int) =~= s@);
    }
    if cur.len() > 0 {
        let ghost before = views(done@).push(cur@);
        done.push(cur);
        proof {
            assert(views(done@) =~= before);
        }
    }
    done
}

/// Whether a character is an ASCII decimal digit.
pub open spec fn is_digit(c: char) -> bool {
    '0' <= c <= '9'
}

/// The number that a run of decimal digits denotes.
pub open spec fn digits_value(s: Seq<char>) -> nat
    decreases s.len(),
{
    if s.len() == 0 {
        0
    } else {
        digits_value(s.drop_last()) * 10 + (s.last() as nat - '0' as nat) as nat
    }
}

/// Whether a text is made of decimal digits, at least one.
pub open spec fn all_digits(s: Seq<char>) -> bool {
    s.len() > 0 && forall|i: int| 0 <= i < s.len() ==> is_digit(#[trigger] s[i])
}

/// A text without one leading `+`.
pub open spec fn unsigned_part(s: Seq<char>) -> Seq<char> {
    if s.len() > 0 && s[0] == '+' {
        s.drop_first()
    } else {
        s
    }
}

/// The number of at most `max` that a text denotes: an optional `+`, then digits alone.
pub open spec fn decimal_number(s: Seq<char>, max: nat) -> Option<nat> {
    let d = unsigned_part(s);
    if all_digits(d) && digits_value(d) <= max {
        Some(digits_value(d))
    } else {
        None
    }
}

/// More digits never denote a smaller number.
proof fn lemma_digits_value_grows(s: Seq<char>, i: int)
    requires
        0 <= i <= s.len(),
    ensures
        digits_value(s.take(i)) <= digits_value(s),
    decreases s.len() - i,
{
    if i < s.len() {
        assert(s.take(i + 1).drop_last() =~= s.take(i));
        lemma_digits_value_grows(s, i + 1);
    } else {
        assert(s.take(i) =~= s);
    }
}

/// Reads a decimal number of at most `max`.
pub fn parse_decimal(s: &[char], max: u64) -> (r: Option<u64>)
    ensures
        match decimal_number(s@, max as nat) {
            Some(n) => r == Some(n as u64) && n <= max,
            None => r is None,
        },
{
    let start: usize = if s.len() > 0 && s[0] == '+' {
        1
    } else {
        0
    };
    let d: &[char] = slice_subrange(s, start, s.len());
    assert(d@ =~= unsigned_part(s@));
    if d.len() == 0 {
        return None;
    }
    let mut i: usize = 0;
    let mut v: u64 = 0;
    proof {
        assert(d@.take(0) =~= Seq::<char>::empty());
    }
    while i < d.len()
        invariant
            d@ == unsigned_part(s@),
            0 < d@.len(),
            i <= d@.len(),
            forall|j: int| 0 <= j < i ==> is_digit(#[trigger] d@[j]),
            v == digits_value(d@.take(i as int)),
            v <= max,
        decreases d@.len() - i,
    {
        let c: char = d[i];
        if c < '0' || c > '9' {
            return None;
        }
        let k: u64 = (c as u32 - '0' as u32) as u64;
        proof {
            assert(d@.take(i as int + 1).drop_last() =~= d@.take(i as int));
            lemma_digits_value_grows(d@, i as int + 1);
        }
        if v > (max / 10) {
            assert(v * 10 > max) by (nonlinear_arith)
                requires
                    v > max / 10,
            ;
            return None;
        }
        assert(v * 10 <= max) by (nonlinear_arith)
            requires
                v <= max / 10,
        ;
        if max - v * 10 < k {
            return None;
        }
        v = v * 10 + k;
        i = i + 1;
    }
    proof {
        assert(d@.take(d@.len() as int) =~= d@);
    }
    Some(v)
}

/// The decimal digit of a number below ten.
pub open spec fn digit_char(n: nat) -> char {
    (n + '0' as nat) as char
}

/// The decimal digits of a number, without leading zeros.
pub open spec fn decimal(n: nat) -> Seq<char>
    decreases n,
{
    if n < 10 {
        seq![digit_char(n)]
    } else {
        decimal(n / 10).push(digit_char(n % 10))
    }
}

/// Writing a number in decimal and reading it gives the number back.
pub proof fn law_decimal_round_trip(n: nat, max: nat)
    requires
        n <= max,
    ensures
        decimal_number(decimal(n), max) == Some(n),
{
    lemma_decimal_digits(n);
    assert(is_digit(decimal(n)[0]));
}

/// What is written for a number is digits, and they denote the number.
pub proof fn lemma_decimal_digits(n: nat)
    ensures
        all_digits(decimal(n)),
        digits_value(decimal(n)) == n,
    decreases n,
{
    if n < 10 {
        assert(decimal(n).drop_last() =~= Seq::<char>::empty());
        assert(digits_value(decimal(n).drop_last()) == 0);
    } else {
        lemma_decimal_digits(n / 10);
        assert(decimal(n).drop_last() =~= decimal(n / 10));
    }
}

/// Appends a number in decimal.
pub fn push_decimal(out: &mut String, n: u64)
    ensures
        final(out)@ == old(out)@ + decimal(n as nat),
    decreases n,
{
    if n >= 10 {
        push_decimal(out, n / 10);
    }
    let d: u8 = (n % 10) as u8 + 48;
    let c: char = d as char;
    assert(c == digit_char(n as nat % 10));
    out.push(c);
    assert(out@ =~= old(out)@ + decimal(n as nat));
}

/// The ASCII lower-case form of a character.
pub open spec fn lower(c: char) -> char {
    if 'A' <= c <= 'Z' {
        (c as u32 + 32) as char
    } else {
        c
    }
}

/// The ASCII lower-case form of a text.
pub open spec fn lowered(s: Seq<char>) -> Seq<char> {
    s.map_values(|c: char| lower(c))
}

/// The ASCII lower-case form of a character.
pub fn lower_char(c: char) -> (r: char)
    ensures
        r == lower(c),
{
    if 'A' <= c && c <= 'Z' {
        let u: u8 = c as u8 + 32;
        u as char
    } else {
        c
    }
}

/// The ASCII lower-case form of a text.
pub fn to_lower(s: &[char]) -> (r: Vec<char>)
    ensures
        r@ == lowered(s@),
{
    let mut r: Vec<char> = Vec::new();
    let mut i: usize = 0;
    while i < s.len()
        invariant
            i <= s@.len(),
            r@ == lowered(s@.take(i as int)),
        decreases s@.len() - i,
    {
        r.push(lower_char(s[i]));
        assert(lowered(s@.take(i as int + 1)) =~= lowered(s@.take(i as int)).push(
            lower(s@[i as int]),
        ));
        i = i + 1;
    }
    assert(s@.take(s@.len() as int) =~= s@);
    r
}

/// Whether `needle` stands somewhere in `s`.
pub open spec fn holds(s: Seq<char>, needle: Seq<char>) -> bool {
    exists|i: int|
        0 <= i <= s.len() - needle.len() && #[trigger] s.subrange(i, i + needle.len()) == needle
}

/// Whether `needle` stands somewhere in `s`.
pub fn contains(s: &[char], needle: &[char]) -> (r: bool)
    ensures
        r == holds(s@, needle@),
{
    if s.len() < needle.len() {
        return false;
    }
    let mut i: usize = 0;
    let n: usize = s.len();
    let last: usize = n - needle.len();
    while i <= last
        invariant
            n == s@.len(),
            last == n - needle@.len(),
            i <= last,
            forall|j: int| 0 <= j < i ==> #[trigger] s@.subrange(j, j + needle@.len()) != needle@,
        decreases last - i,
    {
        if same(slice_subrange(s, i, i + needle.len()), needle) {
            return true;
        }
        if i == last {
            return false;
        }
        i = i + 1;
    }
    false
}

/// Which characters are white space: in ASCII the space and the five control characters from the
/// tab to the carriage return, in the rest of Latin-1 the next-line character and the no-break
/// space, and beyond only Ogham's space, the general spaces and separators, and the ideographic
/// space.
pub proof fn law_white_space(c: char)
    ensures
        (c as u32) < 0x80 ==> (is_space(c) <==> c == ' ' || '\t' <= c <= '\r'),
        0x80 <= (c as u32) < 0x100 ==> (is_space(c) <==> c == '\u{85}' || c == '\u{a0}'),
        (c as u32) >= 0x100 ==> (is_space(c) <==> c == '\u{1680}' || '\u{2000}' <= c <= '\u{200a}'
            || c == '\u{2028}' || c == '\u{2029}' || c == '\u{202f}' || c == '\u{205f}' || c
            == '\u{3000}'),
{
}

/// The runs of a character: a number of copies of it.
pub open spec fn repeated(c: char, n: nat) -> Seq<char> {
    Seq::new(n, |i: int| c)
}

/// Taking a trailing run off takes off that run and nothing else: what is left does not end with
/// the character, and the run put back gives the text.
pub proof fn law_trailing_run(s: Seq<char>, c: char)
    ensures
        ({
            let r = without_trailing(s, c);
            &&& r.len() <= s.len()
            &&& s == r + repeated(c, (s.len() - r.len()) as nat)
            &&& r.len() > 0 ==> r.last() != c
        }),
    decreases s.len(),
{
    if s.len() > 0 && s.last() == c {
        let t = s.drop_last();
        law_trailing_run(t, c);
        let r = without_trailing(t, c);
        let k = (t.len() - r.len()) as nat;
        assert(s =~= t.push(c));
        assert(s =~= r + repeated(c, k + 1));
    } else {
        assert(s =~= s + repeated(c, 0));
    }
}

/// A text that ends with another character, and a run behind it: without the run it is the text.
pub proof fn law_run_is_taken_off(s: Seq<char>, c: char, n: nat)
    requires
        s.len() > 0 ==> s.last() != c,
    ensures
        without_trailing(s + repeated(c, n), c) == s,
    decreases n,
{
    let t = s + repeated(c, n);
    if n > 0 {
        law_run_is_taken_off(s, c, (n - 1) as nat);
        assert(t.last() == c);
        assert(t.drop_last() =~= s + repeated(c, (n - 1) as nat));
    } else {
        assert(t =~= s);
    }
}

/// Whether every character of a text is white space.
pub open spec fn blank(s: Seq<char>) -> bool {
    forall|i: int| 0 <= i < s.len() ==> is_space(#[trigger] s[i])
}

/// Trimming takes off the white space at both ends and nothing else: a text that neither begins nor
/// ends with white space is what is left of it between any white space.
pub proof fn law_trimmed(a: Seq<char>, s: Seq<char>, b: Seq<char>)
    requires
        blank(a),
        blank(b),
        s.len() > 0 ==> !is_space(s[0]) && !is_space(s.last()),
    ensures
        trimmed(a + s + b) == s,
{
    lemma_trim_start(a, s + b);
    assert(a + s + b =~= a + (s + b));
    if s.len() > 0 {
        assert((s + b)[0] == s[0]);
        assert(trim_start(s + b) == s + b);
        lemma_trim_end(s, b);
    } else {
        assert(s + b =~= b);
        lemma_trim_start(b, s);
        assert(b + s =~= b);
        assert(trim_start(s) == s);
    }
}

proof fn lemma_trim_start(a: Seq<char>, s: Seq<char>)
    requires
        blank(a),
    ensures
        trim_start(a + s) == trim_start(s),
    decreases a.len(),
{
    if a.len() > 0 {
        assert(is_space(a[0]));
        assert((a + s)[0] == a[0]);
        assert((a + s).drop_first() =~= a.drop_first() + s);
        assert forall|i: int| 0 <= i < a.drop_first().len() implies is_space(
            #[trigger] a.drop_first()[i],
        ) by {
            assert(is_space(a[i + 1]));
        }
        lemma_trim_start(a.drop_first(), s);
    } else {
        assert(a + s =~= s);
    }
}

proof fn lemma_trim_end(s: Seq<char>, b: Seq<char>)
    requires
        blank(b),
        s.len() > 0,
        !is_space(s.last()),
    ensures
        trim_end(s + b) == s,
    decreases b.len(),
{
    if b.len() > 0 {
        assert(is_space(b[b.len() - 1]));
        assert((s + b).drop_last() =~= s + b.drop_last());
        assert forall|i: int| 0 <= i < b.drop_last().len() implies is_space(
            #[trigger] b.drop_last()[i],
        ) by {
            assert(is_space(b[i]));
        }
        lemma_trim_end(s, b.drop_last());
    } else {
        assert(s + b =~= s);
    }
}

/// Joining and splitting are inverse: pieces that hold no separator come back, in their order.
pub proof fn law_joined_split(ps: Seq<Seq<char>>, sep: char)
    requires
        ps.len() > 0,
        forall|i: int| 0 <= i < ps.len() ==> !(#[trigger] ps[i]).contains(sep),
    ensures
        split(joined(ps, sep), sep) == ps,
    decreases ps.len(),
{
    if ps.len() == 1 {
        assert(!ps[0].contains(sep));
        assert forall|i: int| 0 <= i < ps[0].len() implies #[trigger] ps[0][i] != sep by {
            assert(ps[0].contains(ps[0][i]));
        }
        lemma_split_single(ps[0], sep);
        assert(seq![ps[0]] =~= ps);
    } else {
        let p = ps.drop_last();
        assert forall|i: int| 0 <= i < p.len() implies !(#[trigger] p[i]).contains(sep) by {
            assert(p[i] == ps[i]);
        }
        law_joined_split(p, sep);
        let a = joined(p, sep);
        assert(!ps[ps.len() - 1].contains(sep));
        lemma_split_append(a, ps.last(), sep);
        assert(ps =~= p.push(ps.last()));
    }
}

/// A separator and a text without one add one piece.
proof fn lemma_split_append(a: Seq<char>, b: Seq<char>, sep: char)
    requires
        !b.contains(sep),
    ensures
        split(a.push(sep) + b, sep) == split(a, sep).push(b),
    decreases b.len(),
{
    let s = a.push(sep) + b;
    law_split_joined(a, sep);
    if b.len() == 0 {
        assert(s =~= a.push(sep));
        assert(s.drop_last() =~= a);
        assert(b =~= Seq::empty());
    } else {
        let t = b.drop_last();
        assert forall|x: char| t.contains(x) implies b.contains(x) by {
            let j = choose|j: int| 0 <= j < t.len() && t[j] == x;
            assert(b[j] == x);
        }
        lemma_split_append(a, t, sep);
        assert(s.drop_last() =~= a.push(sep) + t);
        assert(s.last() == b.last());
        assert(b.contains(b.last()));
        let q = split(a, sep).push(t);
        assert(q.drop_last() =~= split(a, sep));
        assert(t.push(b.last()) =~= b);
    }
}

/// The words of a text: none in white space, one in a text without white space, and those of two
/// texts, one after the other, in the two texts with white space between them.
pub proof fn law_words(a: Seq<char>, gap: Seq<char>, b: Seq<char>)
    ensures
        blank(a) ==> words(a).len() == 0,
        a.len() > 0 && (forall|i: int| 0 <= i < a.len() ==> !is_space(#[trigger] a[i])) ==> words(a)
            == seq![a],
        gap.len() > 0 && blank(gap) ==> words(a + gap + b) == words(a) + words(b),
{
    if blank(a) {
        lemma_words_blank(a);
    }
    if a.len() > 0 && (forall|i: int| 0 <= i < a.len() ==> !is_space(#[trigger] a[i])) {
        lemma_words_single(a);
    }
    if gap.len() > 0 && blank(gap) {
        lemma_words_gap(a, gap);
        lemma_words_add(a + gap, b);
    }
}

proof fn lemma_words_blank(a: Seq<char>)
    requires
        blank(a),
    ensures
        words(a).len() == 0,
    decreases a.len(),
{
    if a.len() > 0 {
        let t = a.drop_last();
        assert forall|i: int| 0 <= i < t.len() implies is_space(#[trigger] t[i]) by {
            assert(is_space(a[i]));
        }
        lemma_words_blank(t);
        assert(is_space(a[a.len() - 1]));
    }
}

proof fn lemma_words_single(a: Seq<char>)
    requires
        a.len() > 0,
        forall|i: int| 0 <= i < a.len() ==> !is_space(#[trigger] a[i]),
    ensures
        words(a) == seq![a],
    decreases a.len(),
{
    let t = a.drop_last();
    assert(!is_space(a[a.len() - 1]));
    if t.len() > 0 {
        assert forall|i: int| 0 <= i < t.len() implies !is_space(#[trigger] t[i]) by {
            assert(!is_space(a[i]));
        }
        lemma_words_single(t);
        assert(!is_space(a[a.len() - 2]));
        assert(seq![t].drop_last() =~= Seq::empty());
        assert(t.push(a.last()) =~= a);
        assert(words(a) =~= seq![a]);
    } else {
        assert(words(t) =~= Seq::empty());
        assert(a =~= seq![a.last()]);
        assert(words(a) == words(t).push(seq![a.last()]));
        assert(words(a) =~= seq![a]);
    }
}

proof fn lemma_words_gap(a: Seq<char>, gap: Seq<char>)
    requires
        blank(gap),
    ensures
        words(a + gap) == words(a),
    decreases gap.len(),
{
    if gap.len() > 0 {
        let g = gap.drop_last();
        assert forall|i: int| 0 <= i < g.len() implies is_space(#[trigger] g[i]) by {
            assert(is_space(gap[i]));
        }
        lemma_words_gap(a, g);
        assert((a + gap).drop_last() =~= a + g);
        assert(is_space(gap[gap.len() - 1]));
    } else {
        assert(a + gap =~= a);
    }
}

proof fn lemma_words_add(a: Seq<char>, b: Seq<char>)
    requires
        a.len() > 0,
        is_space(a.last()),
    ensures
        words(a + b) == words(a) + words(b),
        b.len() > 0 && !is_space(b.last()) ==> words(b).len() > 0,
    decreases b.len(),
{
    if b.len() == 0 {
        assert(a + b =~= a);
        assert(words(a) + words(b) =~= words(a));
    } else {
        let t = b.drop_last();
        let s = a + b;
        lemma_words_add(a, t);
        assert(s.drop_last() =~= a + t);
        assert(s.last() == b.last());
        if b.len() == 1 {
            assert(s[s.len() - 2] == a.last());
        } else {
            assert(s[s.len() - 2] == b[b.len() - 2]);
            assert(t.last() == b[b.len() - 2]);
        }
        assert(words(s) =~= words(a) + words(b));
    }
}

/// A number is read digit by digit: a digit more makes it ten times as large, and the digit more; a
/// digit alone is its distance from `0`.
pub proof fn law_decimal_digit(s: Seq<char>, d: char, max: nat)
    requires
        '0' <= d <= '9',
    ensures
        decimal_number(seq![d], 9) == Some((d as nat - '0' as nat) as nat),
        match decimal_number(s, max) {
            Some(n) => decimal_number(s.push(d), 10 * max + 9) == Some(
                10 * n + (d as nat - '0' as nat) as nat,
            ),
            None => true,
        },
{
    let one = seq![d];
    assert(unsigned_part(one) =~= one);
    assert(one.drop_last() =~= Seq::<char>::empty());
    assert(digits_value(one.drop_last()) == 0);
    if decimal_number(s, max) is Some {
        let u = unsigned_part(s);
        assert(unsigned_part(s.push(d)) =~= u.push(d));
        assert(u.push(d).drop_last() =~= u);
        assert forall|i: int| 0 <= i < u.push(d).len() implies is_digit(
            #[trigger] u.push(d)[i],
        ) by {
            if i < u.len() {
                assert(is_digit(u[i]));
            }
        }
    }
}

/// Only numbers are read: what is read holds at least one digit and, but for a plus sign in front,
/// digits alone; and it is not above the bound.
pub proof fn law_decimal_is_a_number(s: Seq<char>, max: nat)
    ensures
        decimal_number(s, max) matches Some(n) ==> {
            &&& n <= max
            &&& s.len() > 0
            &&& '0' <= s.last() <= '9'
            &&& forall|i: int|
                0 <= i < s.len() ==> '0' <= #[trigger] s[i] <= '9' || (i == 0 && s[0] == '+')
        },
        s.len() > 0 && s[0] != '+' ==> decimal_number(seq!['+'] + s, max) == decimal_number(s, max),
{
    let u = unsigned_part(s);
    if decimal_number(s, max) is Some {
        assert(is_digit(u[u.len() - 1]));
        assert forall|i: int| 0 <= i < s.len() implies '0' <= #[trigger] s[i] <= '9' || (i == 0
            && s[0] == '+') by {
            if s[0] == '+' {
                if i > 0 {
                    assert(is_digit(u[i - 1]));
                }
            } else {
                assert(is_digit(u[i]));
            }
        }
    }
    assert((seq!['+'] + s).drop_first() =~= s);
}

/// Leading zeros do not count.
pub proof fn law_leading_zero(s: Seq<char>, max: nat)
    requires
        all_digits(s),
    ensures
        decimal_number(seq!['0'] + s, max) == decimal_number(s, max),
{
    assert(is_digit(s[0]));
    lemma_leading_zero(s);
    let z = seq!['0'] + s;
    assert forall|i: int| 0 <= i < z.len() implies is_digit(#[trigger] z[i]) by {
        if i > 0 {
            assert(is_digit(s[i - 1]));
        }
    }
}

proof fn lemma_leading_zero(s: Seq<char>)
    ensures
        digits_value(seq!['0'] + s) == digits_value(s),
    decreases s.len(),
{
    let z = seq!['0'] + s;
    if s.len() > 0 {
        lemma_leading_zero(s.drop_last());
        assert(z.drop_last() =~= seq!['0'] + s.drop_last());
    } else {
        assert(z.drop_last() =~= Seq::<char>::empty());
        assert(digits_value(z.drop_last()) == 0);
    }
}

/// Lower case: every capital letter of ASCII becomes its small one, and nothing else changes, so
/// that texts which differ in case alone become the same.
pub proof fn law_lowered(s: Seq<char>)
    ensures
        lowered(s).len() == s.len(),
        forall|i: int|
            0 <= i < s.len() ==> (#[trigger] lowered(s)[i]) as u32 == s[i] as u32 + (if 'A'
                <= s[i] <= 'Z' {
                32int
            } else {
                0
            }),
        lowered(lowered(s)) == lowered(s),
{
    assert(lowered(lowered(s)) =~= lowered(s));
}

/// A text stands in another exactly where the other is made of it and something before and behind.
pub proof fn law_holds(a: Seq<char>, needle: Seq<char>, b: Seq<char>)
    ensures
        holds(a + needle + b, needle),
{
    let s = a + needle + b;
    let i = a.len() as int;
    assert(s.subrange(i, i + needle.len()) =~= needle);
}

/// Where a text stands in another, the other is made of it and something before and behind.
pub proof fn law_holds_only(s: Seq<char>, needle: Seq<char>)
    requires
        holds(s, needle),
    ensures
        exists|i: int|
            0 <= i && i + needle.len() <= s.len() && #[trigger] s.take(i) + needle + s.skip(
                i + needle.len(),
            ) == s,
{
    let i = choose|i: int|
        0 <= i <= s.len() - needle.len() && #[trigger] s.subrange(i, i + needle.len()) == needle;
    assert(s.take(i) + needle + s.skip(i + needle.len()) =~= s);
}

/// Trimming brings in no character.
pub proof fn lemma_trimmed_within(s: Seq<char>, c: char)
    requires
        !s.contains(c),
    ensures
        !trimmed(s).contains(c),
{
    lemma_trim_start_within(s, c);
    lemma_trim_end_within(trim_start(s), c);
}

proof fn lemma_trim_start_within(s: Seq<char>, c: char)
    requires
        !s.contains(c),
    ensures
        !trim_start(s).contains(c),
    decreases s.len(),
{
    if s.len() > 0 && is_space(s[0]) {
        let t = s.drop_first();
        assert(forall|i: int| 0 <= i < t.len() ==> #[trigger] t[i] == s[i + 1]);
        lemma_trim_start_within(t, c);
    }
}

proof fn lemma_trim_end_within(s: Seq<char>, c: char)
    requires
        !s.contains(c),
    ensures
        !trim_end(s).contains(c),
    decreases s.len(),
{
    if s.len() > 0 && is_space(s.last()) {
        let t = s.drop_last();
        assert(forall|i: int| 0 <= i < t.len() ==> #[trigger] t[i] == s[i]);
        lemma_trim_end_within(t, c);
    }
}

/// Five pieces that are joined.
pub proof fn lemma_joined_five(
    a: Seq<char>,
    b: Seq<char>,
    c: Seq<char>,
    d: Seq<char>,
    e: Seq<char>,
    sep: char,
)
    ensures
        joined(seq![a, b, c, d, e], sep) == a + seq![sep] + b + seq![sep] + c + seq![sep] + d
            + seq![sep] + e,
{
    let p5 = seq![a, b, c, d, e];
    let p4 = p5.drop_last();
    let p3 = p4.drop_last();
    let p2 = p3.drop_last();
    let p1 = p2.drop_last();
    assert(joined(p1, sep) == a);
    assert(joined(p2, sep) =~= a + seq![sep] + b);
    assert(joined(p3, sep) =~= a + seq![sep] + b + seq![sep] + c);
    assert(joined(p4, sep) =~= a + seq![sep] + b + seq![sep] + c + seq![sep] + d);
    assert(joined(p5, sep) =~= a + seq![sep] + b + seq![sep] + c + seq![sep] + d + seq![sep] + e);
}

/// The pieces of two texts with a separator between them are those of the first and then those of
/// the second.
pub proof fn law_split_in_two(a: Seq<char>, b: Seq<char>, sep: char)
    ensures
        split(a + seq![sep] + b, sep) == split(a, sep) + split(b, sep),
{
    let p = split(a, sep);
    let q = split(b, sep);
    law_split_joined(a, sep);
    law_split_joined(b, sep);
    lemma_joined_in_two(p, q, sep);
    assert forall|i: int| 0 <= i < (p + q).len() implies !(#[trigger] (p + q)[i]).contains(sep) by {
        if i < p.len() {
            assert((p + q)[i] == p[i]);
        } else {
            assert((p + q)[i] == q[i - p.len()]);
        }
    }
    law_joined_split(p + q, sep);
}

proof fn lemma_joined_in_two(p: Seq<Seq<char>>, q: Seq<Seq<char>>, sep: char)
    requires
        p.len() > 0,
        q.len() > 0,
    ensures
        joined(p + q, sep) == joined(p, sep) + seq![sep] + joined(q, sep),
    decreases q.len(),
{
    assert((p + q).drop_last() =~= p + q.drop_last());
    assert((p + q).last() == q.last());
    if q.len() == 1 {
        assert(p + q.drop_last() =~= p);
        assert(joined(p + q, sep) =~= joined(p, sep) + seq![sep] + joined(q, sep));
    } else {
        lemma_joined_in_two(p, q.drop_last(), sep);
        assert(joined(p + q, sep) =~= joined(p, sep) + seq![sep] + joined(q, sep));
    }
}

/// The views of pieces are those of each of them, in their order.
pub proof fn law_views(v: Seq<Vec<char>>, i: int)
    requires
        0 <= i < v.len(),
    ensures
        views(v).len() == v.len(),
        views(v)[i] == v[i]@,
{
}

/// The view of an optional text is that of the text, where there is one.
pub proof fn law_optional_text(s: &str, t: String)
    ensures
        opt_text(Some(s)) == Some(s@),
        opt_text(None) is None,
        opt_string(Some(t)) == Some(t@),
        opt_string(None) is None,
{
}

/// A number is written with its digits alone: without leading zeros, but for zero itself, which is
/// one digit.
pub proof fn law_no_leading_zero(n: nat)
    ensures
        decimal(n).len() > 0,
        n > 0 ==> decimal(n)[0] != '0',
        n < 10 ==> decimal(n).len() == 1,
        n >= 10 ==> decimal(n).len() == decimal(n / 10).len() + 1,
        forall|i: int| 0 <= i < decimal(n).len() ==> '0' <= #[trigger] decimal(n)[i] <= '9',
    decreases n,
{
    lemma_decimal_digits(n);
    assert forall|i: int| 0 <= i < decimal(n).len() implies '0' <= #[trigger] decimal(n)[i]
        <= '9' by {
        assert(is_digit(decimal(n)[i]));
    }
    if n >= 10 {
        law_no_leading_zero(n / 10);
        assert(decimal(n)[0] == decimal(n / 10)[0]);
    }
}

} // verus!
