//! Character-sequence primitives shared by the TL schema parser:
//! whitespace, trimming, searching and splitting, all stated over `Seq<char>`.

use vstd::prelude::*;

verus! {

/// Unicode `White_Space` code points, the set that `char::is_whitespace` tests.
pub open spec fn is_ws(c: char) -> bool {
    let n = c as u32;
    ||| 0x09 <= n <= 0x0D
    ||| n == 0x20
    ||| n == 0x85
    ||| n == 0xA0
    ||| n == 0x1680
    ||| 0x2000 <= n <= 0x200A
    ||| n == 0x2028
    ||| n == 0x2029
    ||| n == 0x202F
    ||| n == 0x205F
    ||| n == 0x3000
}

/// Whether `c` is a Unicode whitespace character.
pub fn is_whitespace(c: char) -> (r: bool)
    ensures
        r == is_ws(c),
{
    let n = c as u32;
    (0x09 <= n && n <= 0x0D) || n == 0x20 || n == 0x85 || n == 0xA0 || n == 0x1680 || (0x2000
        <= n && n <= 0x200A) || n == 0x2028 || n == 0x2029 || n == 0x202F || n == 0x205F || n
        == 0x3000
}

/// `s` without its leading whitespace.
pub open spec fn trim_start(s: Seq<char>) -> Seq<char> {
    s.subrange(first_index(s, non_ws_pred()), s.len() as int)
}

/// `s` without its trailing whitespace.
pub open spec fn trim_end(s: Seq<char>) -> Seq<char>
    decreases s.len(),
{
    if s.len() > 0 && is_ws(s.last()) {
        trim_end(s.drop_last())
    } else {
        s
    }
}

/// `s` without leading and trailing whitespace.
pub open spec fn trim(s: Seq<char>) -> Seq<char> {
    trim_end(trim_start(s))
}

/// Dropping `k` trailing whitespace characters does not change `trim_end`.
proof fn lemma_trim_end_skip(s: Seq<char>, k: int)
    requires
        0 <= k <= s.len(),
        forall|j: int| k <= j < s.len() ==> is_ws(#[trigger] s[j]),
    ensures
        trim_end(s) == trim_end(s.subrange(0, k)),
    decreases s.len() - k,
{
    if k < s.len() {
        assert(s.drop_last().subrange(0, k) =~= s.subrange(0, k));
        lemma_trim_end_skip(s.drop_last(), k);
    } else {
        assert(s.subrange(0, k) =~= s);
    }
}

/// The slice `s` without its leading whitespace.
pub fn trim_start_slice(s: &[char]) -> (r: &[char])
    ensures
        r@ == trim_start(s@),
{
    let n = s.len();
    let mut a: usize = 0;
    while a < n && is_whitespace(s[a])
        invariant
            a <= n,
            n == s@.len(),
            forall|j: int| 0 <= j < a ==> !non_ws_pred()(#[trigger] s@[j]),
        decreases n - a,
    {
        a = a + 1;
    }
    proof {
        lemma_first_index(s@, non_ws_pred());
    }
    vstd::slice::slice_subrange(s, a, n)
}

/// The slice `s` without leading and trailing whitespace.
pub fn trim_slice(s: &[char]) -> (r: &[char])
    ensures
        r@ == trim(s@),
{
    let t = trim_start_slice(s);
    let m = t.len();
    let mut b: usize = m;
    while b > 0 && is_whitespace(t[b - 1])
        invariant
            b <= m,
            m == t@.len(),
            forall|j: int| b <= j < m ==> is_ws(#[trigger] t@[j]),
        decreases b,
    {
        b = b - 1;
    }
    proof {
        lemma_trim_end_skip(t@, b as int);
    }
    vstd::slice::slice_subrange(t, 0, b)
}

/// The index of the first element of `s` that satisfies `p`, or the length of
/// `s` where none does.
pub open spec fn first_index(s: Seq<char>, p: spec_fn(char) -> bool) -> int
    decreases s.len(),
{
    if s.len() == 0 {
        0
    } else if p(s[0]) {
        0
    } else {
        1 + first_index(s.drop_first(), p)
    }
}

/// What `first_index` is: the first position where `p` holds.
pub proof fn lemma_first_index(s: Seq<char>, p: spec_fn(char) -> bool)
    ensures
        0 <= first_index(s, p) <= s.len(),
        forall|j: int| 0 <= j < first_index(s, p) ==> !p(#[trigger] s[j]),
        first_index(s, p) < s.len() ==> p(s[first_index(s, p)]),
    decreases s.len(),
{
    if s.len() > 0 && !p(s[0]) {
        lemma_first_index(s.drop_first(), p);
        assert forall|j: int| 0 <= j < first_index(s, p) implies !p(#[trigger] s[j]) by {
            if j > 0 {
                assert(s[j] == s.drop_first()[j - 1]);
            }
        }
    }
}

/// The predicate "equals `c`".
pub open spec fn is_char(c: char) -> spec_fn(char) -> bool {
    |x: char| x == c
}

/// The predicate "is whitespace".
pub open spec fn ws_pred() -> spec_fn(char) -> bool {
    |x: char| is_ws(x)
}

/// The predicate "is not whitespace".
pub open spec fn non_ws_pred() -> spec_fn(char) -> bool {
    |x: char| !is_ws(x)
}

/// The position of the first `c` in `s`, or the length of `s` where there is none.
pub fn position_of(s: &[char], c: char) -> (r: usize)
    ensures
        r as int == first_index(s@, is_char(c)),
{
    let n = s.len();
    let mut i: usize = 0;
    while i < n && s[i] != c
        invariant
            i <= n,
            n == s@.len(),
            forall|j: int| 0 <= j < i ==> !is_char(c)(#[trigger] s@[j]),
        decreases n - i,
    {
        i = i + 1;
    }
    proof {
        lemma_first_index(s@, is_char(c));
    }
    i
}

/// The position of the first whitespace character in `s`, or the length of
/// `s` where there is none.
pub fn position_of_ws(s: &[char]) -> (r: usize)
    ensures
        r as int == first_index(s@, ws_pred()),
{
    let n = s.len();
    let mut i: usize = 0;
    while i < n && !is_whitespace(s[i])
        invariant
            i <= n,
            n == s@.len(),
            forall|j: int| 0 <= j < i ==> !ws_pred()(#[trigger] s@[j]),
        decreases n - i,
    {
        i = i + 1;
    }
    proof {
        lemma_first_index(s@, ws_pred());
    }
    i
}

/// `s` cut at every `c`: the pieces between the separators, in order, as
/// `str::split` with a `char` pattern gives them. There is always at least one piece.
pub open spec fn split(s: Seq<char>, c: char) -> Seq<Seq<char>>
    decreases s.len(),
{
    let i = first_index(s, is_char(c));
    if i < s.len() {
        proof {
            lemma_first_index(s, is_char(c));
        }
        seq![s.subrange(0, i)] + split(s.subrange(i + 1, s.len() as int), c)
    } else {
        seq![s]
    }
}

/// The views of a sequence of slices.
pub open spec fn views(v: Seq<&[char]>) -> Seq<Seq<char>> {
    Seq::new(v.len(), |i: int| v[i]@)
}

/// `s` cut at every `c`.
pub fn split_slice<'a>(s: &'a [char], c: char) -> (r: Vec<&'a [char]>)
    ensures
        views(r@) == split(s@, c),
        r@.len() >= 1,
{
    let mut pieces: Vec<&'a [char]> = Vec::new();
    let mut rest: &'a [char] = s;
    loop
        invariant
            views(pieces@) + split(rest@, c) == split(s@, c),
        decreases rest@.len(),
    {
        let i = position_of(rest, c);
        proof {
            lemma_first_index(rest@, is_char(c));
        }
        if i < rest.len() {
            let piece = vstd::slice::slice_subrange(rest, 0, i);
            let next = vstd::slice::slice_subrange(rest, i + 1, rest.len());
            let ghost old_pieces = pieces@;
            pieces.push(piece);
            assert(views(pieces@) =~= views(old_pieces) + seq![piece@]);
            assert(split(rest@, c) == seq![piece@] + split(next@, c));
            assert(views(pieces@) + split(next@, c) =~= views(old_pieces) + split(rest@, c));
            rest = next;
        } else {
            let ghost old_pieces = pieces@;
            pieces.push(rest);
            assert(views(pieces@) =~= views(old_pieces) + seq![rest@]);
            return pieces;
        }
    }
}


/// The whitespace-separated words of `s`, in order, as `str::split_whitespace`
/// gives them.
pub open spec fn tokens(s: Seq<char>) -> Seq<Seq<char>>
    decreases s.len(),
{
    let t = trim_start(s);
    if t.len() == 0 {
        seq![]
    } else {
        proof {
            lemma_first_index(s, non_ws_pred());
            lemma_first_index(t, ws_pred());
        }
        let k = first_index(t, ws_pred());
        seq![t.subrange(0, k)] + tokens(t.subrange(k, t.len() as int))
    }
}

/// The whitespace-separated words of `s`.
pub fn tokens_of<'a>(s: &'a [char]) -> (r: Vec<&'a [char]>)
    ensures
        views(r@) == tokens(s@),
{
    let mut words: Vec<&'a [char]> = Vec::new();
    let mut rest: &'a [char] = s;
    loop
        invariant
            views(words@) + tokens(rest@) == tokens(s@),
        decreases rest@.len(),
    {
        let t = trim_start_slice(rest);
        proof {
            lemma_first_index(rest@, non_ws_pred());
        }
        if t.len() == 0 {
            assert(views(words@) + tokens(rest@) =~= views(words@));
            return words;
        }
        let k = position_of_ws(t);
        proof {
            lemma_first_index(t@, ws_pred());
        }
        let word = vstd::slice::slice_subrange(t, 0, k);
        let next = vstd::slice::slice_subrange(t, k, t.len());
        let ghost old_words = words@;
        words.push(word);
        assert(views(words@) =~= views(old_words) + seq![word@]);
        assert(tokens(rest@) == seq![word@] + tokens(next@));
        assert(views(words@) + tokens(next@) =~= views(old_words) + tokens(rest@));
        rest = next;
    }
}

/// Whether `s` begins with `p`.
pub open spec fn starts_with(s: Seq<char>, p: Seq<char>) -> bool {
    p.len() <= s.len() && s.subrange(0, p.len() as int) == p
}

/// Whether `s` ends with `p`.
pub open spec fn ends_with(s: Seq<char>, p: Seq<char>) -> bool {
    p.len() <= s.len() && s.subrange(s.len() - p.len(), s.len() as int) == p
}

/// Whether `s` begins with `p`.
pub fn has_prefix(s: &[char], p: &[char]) -> (r: bool)
    ensures
        r == starts_with(s@, p@),
{
    if p.len() > s.len() {
        return false;
    }
    let mut i: usize = 0;
    while i < p.len()
        invariant
            i <= p@.len() <= s@.len(),
            forall|j: int| 0 <= j < i ==> s@[j] == p@[j],
        decreases p@.len() - i,
    {
        if s[i] != p[i] {
            assert(s@.subrange(0, p@.len() as int)[i as int] != p@[i as int]);
            return false;
        }
        i = i + 1;
    }
    assert(s@.subrange(0, p@.len() as int) =~= p@);
    true
}

/// Whether `s` ends with `p`.
pub fn has_suffix(s: &[char], p: &[char]) -> (r: bool)
    ensures
        r == ends_with(s@, p@),
{
    if p.len() > s.len() {
        return false;
    }
    let n = s.len();
    let m = p.len();
    let off = n - m;
    let mut i: usize = 0;
    while i < m
        invariant
            i <= m,
            m == p@.len(),
            n == s@.len(),
            off + m == n,
            forall|j: int| 0 <= j < i ==> s@[off + j] == p@[j],
        decreases m - i,
    {
        if s[off + i] != p[i] {
            assert(s@.subrange(off as int, s@.len() as int)[i as int] != p@[i as int]);
            return false;
        }
        i = i + 1;
    }
    assert(s@.subrange(off as int, s@.len() as int) =~= p@);
    true
}

/// Whether the slices hold the same characters.
pub fn same_chars(a: &[char], b: &[char]) -> (r: bool)
    ensures
        r == (a@ == b@),
{
    if a.len() != b.len() {
        return false;
    }
    let r = has_prefix(a, b);
    proof {
        if r {
            assert(a@ =~= a@.subrange(0, b@.len() as int));
        } else if a@ == b@ {
            assert(a@.subrange(0, b@.len() as int) =~= b@);
        }
    }
    r
}


/// The characters of `s`, in order.
pub fn chars_of(s: &str) -> (r: Vec<char>)
    ensures
        r@ == s@,
{
    let mut v: Vec<char> = Vec::new();
    for c in it: s.chars()
        invariant
            v@ == it.seq().take(it.index() as int),
    {
        v.push(c);
    }
    v
}


/// Appends `c` to `s`: `String::push`, which the standard library documents as
/// appending the given char to the end of the string.
#[verifier::external_body]
fn push_char(s: &mut String, c: char)
    ensures
        final(s)@ == old(s)@.push(c),
{
    s.push(c);
}

/// Appends the characters of `t` to `s`.
pub fn push_chars(s: &mut String, t: &[char])
    ensures
        final(s)@ == old(s)@ + t@,
{
    let n = t.len();
    let mut i: usize = 0;
    while i < n
        invariant
            i <= n,
            n == t@.len(),
            s@ == old(s)@ + t@.take(i as int),
        decreases n - i,
    {
        push_char(s, t[i]);
        assert(t@.take(i + 1) =~= t@.take(i as int).push(t@[i as int]));
        i = i + 1;
    }
    assert(t@.take(n as int) =~= t@);
}

/// A new string holding the characters of `t`.
pub fn string_of(t: &[char]) -> (r: String)
    ensures
        r@ == t@,
{
    let mut s = String::new();
    push_chars(&mut s, t);
    assert(s@ =~= t@);
    s
}

/// The value of `c` as a digit in base `radix` (at most 36), as
/// `char::to_digit` gives it: `0`-`9`, then `a`-`z` or `A`-`Z` for ten upward.
pub open spec fn digit_value(c: char, radix: nat) -> Option<nat> {
    let n = c as u32;
    let v: int = if 0x30 <= n <= 0x39 {
        n - 0x30
    } else if 0x61 <= n <= 0x7A {
        n - 0x61 + 10
    } else if 0x41 <= n <= 0x5A {
        n - 0x41 + 10
    } else {
        36
    };
    if v < radix {
        Some(v as nat)
    } else {
        None
    }
}

/// Whether every character of `s` is a digit in base `radix`.
pub open spec fn all_digits(s: Seq<char>, radix: nat) -> bool {
    forall|i: int| 0 <= i < s.len() ==> (#[trigger] digit_value(s[i], radix)) is Some
}

/// The number that the digits `s` denote in base `radix`.
pub open spec fn digits_value(s: Seq<char>, radix: nat) -> nat
    decreases s.len(),
{
    if s.len() == 0 {
        0
    } else {
        digits_value(s.drop_last(), radix) * radix + digit_value(s.last(), radix).unwrap()
    }
}

/// The value of `s` read as an unsigned 32-bit number in base `radix`, as
/// `u32::from_str_radix` reads it: an optional leading `+`, then at least one
/// digit, and a value below 2^32; `None` for any other text.
pub open spec fn parse_u32(s: Seq<char>, radix: nat) -> Option<u32> {
    let digits = if s.len() > 0 && s[0] == '+' {
        s.drop_first()
    } else {
        s
    };
    if digits.len() > 0 && all_digits(digits, radix) && digits_value(digits, radix)
        <= u32::MAX {
        Some(digits_value(digits, radix) as u32)
    } else {
        None
    }
}

proof fn lemma_digits_value_grows(s: Seq<char>, radix: nat, k: int)
    requires
        0 <= k <= s.len(),
        radix >= 1,
        all_digits(s, radix),
    ensures
        digits_value(s.take(k), radix) <= digits_value(s, radix),
    decreases s.len() - k,
{
    if k < s.len() {
        assert(s.drop_last().take(k) =~= s.take(k));
        assert(all_digits(s.drop_last(), radix)) by {
            assert forall|i: int| 0 <= i < s.drop_last().len() implies (#[trigger] digit_value(
                s.drop_last()[i],
                radix,
            )) is Some by {
                assert(s.drop_last()[i] == s[i]);
            }
        }
        lemma_digits_value_grows(s.drop_last(), radix, k);
        let a = digits_value(s.drop_last(), radix);
        assert(a * radix >= a) by (nonlinear_arith)
            requires
                radix >= 1,
        ;
    } else {
        assert(s.take(k) =~= s);
    }
}

/// The digit value of `c` in base `radix`.
fn digit_of(c: char, radix: u32) -> (r: Option<u32>)
    requires
        radix <= 36,
    ensures
        match r {
            Some(v) => digit_value(c, radix as nat) == Some(v as nat),
            None => digit_value(c, radix as nat) is None,
        },
{
    let n = c as u32;
    let v: u32 = if 0x30 <= n && n <= 0x39 {
        n - 0x30
    } else if 0x61 <= n && n <= 0x7A {
        n - 0x61 + 10
    } else if 0x41 <= n && n <= 0x5A {
        n - 0x41 + 10
    } else {
        36
    };
    if v < radix {
        Some(v)
    } else {
        None
    }
}

/// Reads `s` as an unsigned 32-bit number in base `radix`.
pub fn parse_u32_radix(s: &[char], radix: u32) -> (r: Option<u32>)
    requires
        2 <= radix <= 36,
    ensures
        r == parse_u32(s@, radix as nat),
{
    let digits = if s.len() > 0 && s[0] == '+' {
        vstd::slice::slice_subrange(s, 1, s.len())
    } else {
        s
    };
    assert(digits@ == (if s@.len() > 0 && s@[0] == '+' {
        s@.drop_first()
    } else {
        s@
    }));
    let n = digits.len();
    if n == 0 {
        return None;
    }
    let mut acc: u64 = 0;
    let mut i: usize = 0;
    while i < n
        invariant
            i <= n,
            n == digits@.len(),
            n > 0,
            digits@ == (if s@.len() > 0 && s@[0] == '+' {
                s@.drop_first()
            } else {
                s@
            }),
            2 <= radix <= 36,
            acc <= u32::MAX,
            all_digits(digits@.take(i as int), radix as nat),
            acc == digits_value(digits@.take(i as int), radix as nat),
        decreases n - i,
    {
        let d = digit_of(digits[i], radix);
        let ghost pre = digits@.take(i as int);
        let ghost cur = digits@.take(i + 1);
        assert(cur.drop_last() =~= pre);
        assert(cur.last() == digits@[i as int]);
        match d {
            None => {
                assert(!all_digits(digits@, radix as nat)) by {
                    assert(digit_value(digits@[i as int], radix as nat) is None);
                }
                return None;
            },
            Some(v) => {
                assert(acc * (radix as u64) <= 0xffff_ffff * 36) by (nonlinear_arith)
                    requires
                        acc <= 0xffff_ffff,
                        radix <= 36,
                ;
                let next: u64 = acc * (radix as u64) + (v as u64);
                assert(all_digits(cur, radix as nat)) by {
                    assert forall|j: int| 0 <= j < cur.len() implies (#[trigger] digit_value(
                        cur[j],
                        radix as nat,
                    )) is Some by {
                        if j < i {
                            assert(cur[j] == pre[j]);
                        }
                    }
                }
                assert(next == digits_value(cur, radix as nat));
                if next > 0xffff_ffff {
                    proof {
                        if all_digits(digits@, radix as nat) {
                            lemma_digits_value_grows(digits@, radix as nat, i + 1);
                        }
                    }
                    return None;
                }
                acc = next;
            },
        }
        i = i + 1;
    }
    assert(digits@.take(n as int) =~= digits@);
    Some(acc as u32)
}

/// The decimal digit character for `d`.
pub open spec fn digit_char(d: nat) -> char {
    if d == 0 {
        '0'
    } else if d == 1 {
        '1'
    } else if d == 2 {
        '2'
    } else if d == 3 {
        '3'
    } else if d == 4 {
        '4'
    } else if d == 5 {
        '5'
    } else if d == 6 {
        '6'
    } else if d == 7 {
        '7'
    } else if d == 8 {
        '8'
    } else {
        '9'
    }
}

/// The decimal notation of `n`, without leading zeros, as `Display` writes an
/// unsigned integer.
pub open spec fn decimal(n: nat) -> Seq<char>
    decreases n,
{
    if n < 10 {
        seq![digit_char(n)]
    } else {
        decimal(n / 10).push(digit_char(n % 10))
    }
}

/// Appends the decimal notation of `n` to `s`.
pub fn push_decimal(s: &mut String, n: u32)
    ensures
        final(s)@ == old(s)@ + decimal(n as nat),
    decreases n,
{
    if n >= 10 {
        push_decimal(s, n / 10);
    }
    let d = n % 10;
    let c = if d == 0 {
        '0'
    } else if d == 1 {
        '1'
    } else if d == 2 {
        '2'
    } else if d == 3 {
        '3'
    } else if d == 4 {
        '4'
    } else if d == 5 {
        '5'
    } else if d == 6 {
        '6'
    } else if d == 7 {
        '7'
    } else if d == 8 {
        '8'
    } else {
        '9'
    };
    push_char(s, c);
    proof {
        if n >= 10 {
            assert(final(s)@ =~= old(s)@ + decimal(n as nat));
        } else {
            assert(final(s)@ =~= old(s)@ + decimal(n as nat));
        }
    }
}


/// Splitting at `c` a text that starts with a piece free of `c` yields that
/// piece first, then the pieces of the rest.
pub proof fn lemma_split_after_piece(a: Seq<char>, c: char, b: Seq<char>)
    requires
        !a.contains(c),
    ensures
        split(a + seq![c] + b, c) == seq![a] + split(b, c),
{
    let s = a + seq![c] + b;
    lemma_first_index(s, is_char(c));
    let i = first_index(s, is_char(c));
    assert(s[a.len() as int] == c);
    if i < a.len() {
        assert(s[i] == a[i]);
    }
    assert(i == a.len());
    assert(s.subrange(0, i) =~= a);
    assert(s.subrange(i + 1, s.len() as int) =~= b);
}


/// A text that starts and ends with non-whitespace is its own trim.
pub proof fn lemma_trim_of_solid(s: Seq<char>)
    requires
        s.len() > 0,
        !is_ws(s[0]),
        !is_ws(s.last()),
    ensures
        trim(s) == s,
{
    lemma_first_index(s, non_ws_pred());
    assert(first_index(s, non_ws_pred()) == 0);
    assert(s.subrange(0, s.len() as int) =~= s);
}

/// Trimming ignores whitespace around a text that starts and ends with
/// non-whitespace.
pub proof fn lemma_trim_padded(pre: Seq<char>, s: Seq<char>, post: Seq<char>)
    requires
        s.len() > 0,
        !is_ws(s[0]),
        !is_ws(s.last()),
        forall|i: int| 0 <= i < pre.len() ==> is_ws(#[trigger] pre[i]),
        forall|i: int| 0 <= i < post.len() ==> is_ws(#[trigger] post[i]),
    ensures
        trim(pre + s + post) == s,
{
    let all = pre + s + post;
    lemma_first_index(all, non_ws_pred());
    let k = first_index(all, non_ws_pred());
    assert(all[pre.len() as int] == s[0]);
    if k < pre.len() {
        assert(all[k] == pre[k]);
    }
    assert(k == pre.len());
    let rest = all.subrange(k, all.len() as int);
    assert(rest =~= s + post);
    lemma_trim_end_skip(rest, s.len() as int);
    assert(rest.subrange(0, s.len() as int) =~= s);
    lemma_trim_of_solid(s);
    assert(trim_start(s) == s) by {
        lemma_first_index(s, non_ws_pred());
        assert(s.subrange(0, s.len() as int) =~= s);
    }
}

/// A text free of `c` is a single piece.
pub proof fn lemma_split_single(s: Seq<char>, c: char)
    requires
        !s.contains(c),
    ensures
        split(s, c) == seq![s],
{
    lemma_first_index(s, is_char(c));
    if first_index(s, is_char(c)) < s.len() {
        assert(s[first_index(s, is_char(c))] == c);
    }
}


/// Whether every character of `s` is whitespace.
pub open spec fn all_ws(s: Seq<char>) -> bool {
    forall|i: int| 0 <= i < s.len() ==> is_ws(#[trigger] s[i])
}

/// Splitting at `c` a text that has a `c` in it gives the pieces before it,
/// then the pieces after it.
pub proof fn lemma_split_concat(x: Seq<char>, c: char, y: Seq<char>)
    ensures
        split(x + seq![c] + y, c) == split(x, c) + split(y, c),
    decreases x.len(),
{
    lemma_first_index(x, is_char(c));
    let k = first_index(x, is_char(c));
    if k < x.len() {
        let x0 = x.subrange(0, k);
        let x1 = x.subrange(k + 1, x.len() as int);
        assert(!x0.contains(c)) by {
            if x0.contains(c) {
                let i = choose|i: int| 0 <= i < x0.len() && x0[i] == c;
                assert(x[i] == x0[i]);
            }
        }
        assert(x =~= x0 + seq![c] + x1);
        lemma_split_after_piece(x0, c, x1);
        lemma_split_concat(x1, c, y);
        assert(x + seq![c] + y =~= x0 + seq![c] + (x1 + seq![c] + y));
        lemma_split_after_piece(x0, c, x1 + seq![c] + y);
        assert(split(x + seq![c] + y, c) =~= split(x, c) + split(y, c));
    } else {
        assert(!x.contains(c)) by {
            if x.contains(c) {
                let i = choose|i: int| 0 <= i < x.len() && x[i] == c;
            }
        }
        lemma_split_single(x, c);
        lemma_split_after_piece(x, c, y);
    }
}

/// Splitting at `c` a text that opens with a piece `w` free of `c` puts `w`
/// in front of the first piece.
pub proof fn lemma_split_prefix(w: Seq<char>, m: Seq<char>, c: char)
    requires
        !w.contains(c),
    ensures
        split(w + m, c) == seq![w + split(m, c)[0]] + split(m, c).drop_first(),
{
    lemma_first_index(m, is_char(c));
    let k = first_index(m, is_char(c));
    if k < m.len() {
        let m0 = m.subrange(0, k);
        let m1 = m.subrange(k + 1, m.len() as int);
        assert(!m0.contains(c)) by {
            if m0.contains(c) {
                let i = choose|i: int| 0 <= i < m0.len() && m0[i] == c;
                assert(m[i] == m0[i]);
            }
        }
        assert(m =~= m0 + seq![c] + m1);
        lemma_split_after_piece(m0, c, m1);
        assert(!(w + m0).contains(c)) by {
            if (w + m0).contains(c) {
                let i = choose|i: int| 0 <= i < (w + m0).len() && (w + m0)[i] == c;
                if i < w.len() {
                    assert(w[i] == (w + m0)[i]);
                } else {
                    assert(m0[i - w.len()] == (w + m0)[i]);
                }
            }
        }
        assert(w + m =~= (w + m0) + seq![c] + m1);
        lemma_split_after_piece(w + m0, c, m1);
        assert(split(w + m, c) =~= seq![w + split(m, c)[0]] + split(m, c).drop_first());
    } else {
        assert(!m.contains(c)) by {
            if m.contains(c) {
                let i = choose|i: int| 0 <= i < m.len() && m[i] == c;
            }
        }
        lemma_split_single(m, c);
        assert(!(w + m).contains(c)) by {
            if (w + m).contains(c) {
                let i = choose|i: int| 0 <= i < (w + m).len() && (w + m)[i] == c;
                if i < w.len() {
                    assert(w[i] == (w + m)[i]);
                } else {
                    assert(m[i - w.len()] == (w + m)[i]);
                }
            }
        }
        lemma_split_single(w + m, c);
        assert(split(w + m, c) =~= seq![w + split(m, c)[0]] + split(m, c).drop_first());
    }
}

/// Whitespace in front of a text does not change its trim.
pub proof fn lemma_trim_ws_prefix(w: Seq<char>, x: Seq<char>)
    requires
        all_ws(w),
    ensures
        trim(w + x) == trim(x),
{
    let s = w + x;
    lemma_first_index(s, non_ws_pred());
    lemma_first_index(x, non_ws_pred());
    let k = first_index(x, non_ws_pred());
    let ks = first_index(s, non_ws_pred());
    if ks < w.len() {
        assert(s[ks] == w[ks]);
    } else if ks < w.len() + k {
        assert(s[ks] == x[ks - w.len()]);
    }
    if k < x.len() {
        assert(s[w.len() + k] == x[k]);
    }
    assert(ks == w.len() + k);
    assert(s.subrange(ks, s.len() as int) =~= x.subrange(k, x.len() as int));
}


proof fn lemma_digit_char_value(d: nat)
    requires
        d < 10,
    ensures
        digit_value(digit_char(d), 10) == Some(d),
{
}

/// `decimal(n)` is the base-10 numeral of `n`: it is made of decimal digits,
/// and the number they denote is `n`.
pub proof fn law_decimal_reads_back(n: nat)
    ensures
        decimal(n).len() > 0,
        all_digits(decimal(n), 10),
        digits_value(decimal(n), 10) == n,
    decreases n,
{
    if n < 10 {
        lemma_digit_char_value(n);
        let s = decimal(n);
        assert(s.drop_last() =~= Seq::<char>::empty());
        assert(s.last() == digit_char(n));
        assert(digits_value(Seq::<char>::empty(), 10) == 0);
        assert(digits_value(s, 10) == digits_value(s.drop_last(), 10) * 10 + digit_value(
            s.last(),
            10,
        ).unwrap());
    } else {
        law_decimal_reads_back(n / 10);
        lemma_digit_char_value(n % 10);
        let p = decimal(n / 10);
        let s = p.push(digit_char(n % 10));
        assert(s.drop_last() =~= p);
        assert(all_digits(s, 10)) by {
            assert forall|i: int| 0 <= i < s.len() implies (#[trigger] digit_value(s[i], 10)) is Some by {
                if i < p.len() {
                    assert(s[i] == p[i]);
                }
            }
        }
        assert(s.last() == digit_char(n % 10));
        assert(digits_value(s, 10) == digits_value(p, 10) * 10 + digit_value(
            s.last(),
            10,
        ).unwrap());
        assert(digits_value(p, 10) == n / 10);
        assert(decimal(n) == s);
        assert((n / 10) * 10 + n % 10 == n) by (nonlinear_arith);
    }
}

/// Reading the decimal numeral of a 32-bit number gives the number back.
pub proof fn law_decimal_parses_back(n: u32)
    ensures
        parse_u32(decimal(n as nat), 10) == Some(n),
{
    law_decimal_reads_back(n as nat);
    let s = decimal(n as nat);
    if s.len() > 0 && s[0] == '+' {
        assert(digit_value(s[0], 10) is Some);
    }
}

} // verus!
