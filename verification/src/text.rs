//! Character-level text utilities shared by the whole crate.
//!
//! Contracts speak about `Seq<char>` views; executable code moves between
//! `&str`, `String` and `Vec<char>` so that every transformation is verified
//! character by character.

use vstd::prelude::*;

verus! {

use vstd::string::StrSliceExecFns;

/// Relies on `String::push`: appends the given character to the end of the
/// string.
#[verifier::external_body]
pub fn push_char(s: &mut String, c: char)
    ensures
        final(s)@ == old(s)@.push(c),
{
    s.push(c);
}

/// The characters of `s`, in order, as a vector.
pub fn str_to_chars(s: &str) -> (r: Vec<char>)
    ensures
        r@ == s@,
{
    let n: usize = s.unicode_len();
    let mut out: Vec<char> = Vec::new();
    for i in 0..n
        invariant
            n == s@.len(),
            out@ =~= s@.take(i as int),
    {
        out.push(s.get_char(i));
        proof {
            assert(out@ =~= s@.take(i + 1));
        }
    }
    proof {
        assert(out@ =~= s@);
    }
    out
}

/// A string holding exactly the characters of `v`, in order.
pub fn chars_to_string(v: &Vec<char>) -> (r: String)
    ensures
        r@ == v@,
{
    let mut out = String::new();
    let n: usize = v.len();
    for i in 0..n
        invariant
            n == v@.len(),
            out@ =~= v@.take(i as int),
    {
        push_char(&mut out, v[i]);
        proof {
            assert(out@ =~= v@.take(i + 1));
        }
    }
    proof {
        assert(out@ =~= v@);
    }
    out
}

/// An element-for-element copy of a character vector.
pub fn copy_chars(v: &Vec<char>) -> (r: Vec<char>)
    ensures
        r@ == v@,
{
    let n: usize = v.len();
    let mut out: Vec<char> = Vec::new();
    for i in 0..n
        invariant
            n == v@.len(),
            out@ =~= v@.take(i as int),
    {
        out.push(v[i]);
        proof {
            assert(out@ =~= v@.take(i + 1));
        }
    }
    proof {
        assert(out@ =~= v@);
    }
    out
}

/// ASCII lower-casing of a single character; other characters are unchanged.
pub open spec fn lower_char(c: char) -> char {
    if 'A' as u32 <= c as u32 && c as u32 <= 'Z' as u32 {
        (((c as u32) + 32) as u8) as char
    } else {
        c
    }
}

/// ASCII upper-casing of a single character; other characters are unchanged.
pub open spec fn upper_char(c: char) -> char {
    if 'a' as u32 <= c as u32 && c as u32 <= 'z' as u32 {
        (((c as u32) - 32) as u8) as char
    } else {
        c
    }
}

pub fn ascii_lower(c: char) -> (r: char)
    ensures
        r == lower_char(c),
{
    let u: u32 = c as u32;
    if 65 <= u && u <= 90 {
        ((u + 32) as u8) as char
    } else {
        c
    }
}

pub fn ascii_upper(c: char) -> (r: char)
    ensures
        r == upper_char(c),
{
    let u: u32 = c as u32;
    if 97 <= u && u <= 122 {
        ((u - 32) as u8) as char
    } else {
        c
    }
}

/// The decimal digit character for `d` (which must be below ten).
pub open spec fn digit_char(d: nat) -> char {
    ((48 + d) as u8) as char
}

/// The decimal text of `n`, without sign or leading zeros (a single `'0'`
/// for zero).
pub open spec fn dec_digits(n: nat) -> Seq<char>
    decreases n,
{
    if n < 10 {
        seq![digit_char(n)]
    } else {
        dec_digits(n / 10).push(digit_char(n % 10))
    }
}

/// Writes `n` in decimal.
pub fn u64_to_dec_chars(n: u64) -> (r: Vec<char>)
    ensures
        r@ == dec_digits(n as nat),
    decreases n,
{
    if n < 10 {
        let d: u8 = (48 + (n as u8));
        let mut v: Vec<char> = Vec::new();
        v.push(d as char);
        proof {
            assert(v@ =~= dec_digits(n as nat));
        }
        v
    } else {
        let mut v = u64_to_dec_chars(n / 10);
        let d: u8 = (48 + ((n % 10) as u8));
        v.push(d as char);
        proof {
            assert(v@ =~= dec_digits(n as nat));
        }
        v
    }
}

/// The ASCII letters.
pub open spec fn is_ascii_letter(c: char) -> bool {
    ('a' as u32 <= c as u32 && c as u32 <= 'z' as u32) || ('A' as u32 <= c as u32 && c as u32
        <= 'Z' as u32)
}

/// The ASCII characters with the Unicode `White_Space` property: space and
/// the controls tab through carriage return.
pub open spec fn is_ascii_ws(c: char) -> bool {
    c == ' ' || (9 <= c as u32 && c as u32 <= 13)
}

/// What `char::is_alphabetic` returns for a character; the result depends on
/// the character alone.
pub uninterp spec fn is_alphabetic_of(c: char) -> bool;

/// Relies on `char::is_alphabetic`: true exactly for characters with the
/// Unicode `Alphabetic` property; among ASCII characters those are the
/// letters.
#[verifier::external_body]
pub fn char_is_alphabetic(c: char) -> (r: bool)
    ensures
        r == is_alphabetic_of(c),
        is_ascii_letter(c) ==> r,
        (c as u32) < 128 && !is_ascii_letter(c) ==> !r,
{
    c.is_alphabetic()
}

/// What `char::is_whitespace` returns for a character; the result depends on
/// the character alone.
pub uninterp spec fn is_whitespace_of(c: char) -> bool;

/// Relies on `char::is_whitespace`: true exactly for characters with the
/// Unicode `White_Space` property; among ASCII characters those are space
/// and the controls tab through carriage return.
#[verifier::external_body]
pub fn char_is_whitespace(c: char) -> (r: bool)
    ensures
        r == is_whitespace_of(c),
        is_ascii_ws(c) ==> r,
        (c as u32) < 128 && !is_ascii_ws(c) ==> !r,
{
    c.is_whitespace()
}

/// `s` without its trailing whitespace.
pub open spec fn trim_end_spec(s: Seq<char>) -> Seq<char>
    decreases s.len(),
{
    if s.len() == 0 {
        s
    } else if is_whitespace_of(s.last()) {
        trim_end_spec(s.drop_last())
    } else {
        s
    }
}

/// `s` without its leading whitespace.
pub open spec fn trim_start_spec(s: Seq<char>) -> Seq<char>
    decreases s.len(),
{
    if s.len() == 0 {
        s
    } else if is_whitespace_of(s[0]) {
        trim_start_spec(s.drop_first())
    } else {
        s
    }
}

/// `s` without leading and trailing whitespace, as `str::trim` computes it.
pub open spec fn trim_spec(s: Seq<char>) -> Seq<char> {
    trim_start_spec(trim_end_spec(s))
}

/// Removes trailing whitespace characters from `v`.
pub fn trim_end_chars(v: &mut Vec<char>)
    ensures
        final(v)@ == trim_end_spec(old(v)@),
{
    loop
        invariant
            trim_end_spec(v@) == trim_end_spec(old(v)@),
        decreases v@.len(),
    {
        let n: usize = v.len();
        if n == 0 {
            return ;
        }
        let last: char = v[n - 1];
        if char_is_whitespace(last) {
            proof {
                assert(v@.last() == last);
            }
            v.pop();
        } else {
            return ;
        }
    }
}

/// The number of whitespace characters at the start of `v`.
fn ws_prefix_len(v: &Vec<char>) -> (i: usize)
    ensures
        i <= v@.len(),
        trim_start_spec(v@.skip(i as int)) == trim_start_spec(v@),
        i == v@.len() || !is_whitespace_of(v@[i as int]),
{
    let mut i: usize = 0;
    let n: usize = v.len();
    proof {
        assert(v@.skip(0) =~= v@);
    }
    loop
        invariant
            i <= n,
            n == v@.len(),
            trim_start_spec(v@.skip(i as int)) == trim_start_spec(v@),
        decreases n - i,
    {
        proof {
            assert(v@.skip(i as int).len() == n - i);
        }
        if i == n {
            return i;
        }
        let c: char = v[i];
        proof {
            assert(v@.skip(i as int)[0] == v@[i as int]);
            assert(v@.skip(i as int).drop_first() =~= v@.skip(i + 1));
        }
        if char_is_whitespace(c) {
            i = i + 1;
        } else {
            return i;
        }
    }
}

/// Removes leading whitespace characters from `v`.
pub fn trim_start_chars(v: &mut Vec<char>)
    ensures
        final(v)@ == trim_start_spec(old(v)@),
{
    let i: usize = ws_prefix_len(v);
    let n: usize = v.len();
    let mut out: Vec<char> = Vec::new();
    let mut j: usize = i;
    while j < n
        invariant
            i <= j <= n,
            n == v@.len(),
            v@ == old(v)@,
            out@ =~= v@.subrange(i as int, j as int),
        decreases n - j,
    {
        out.push(v[j]);
        j = j + 1;
    }
    proof {
        assert(out@ =~= v@.skip(i as int));
        lemma_trim_start_no_ws(v@.skip(i as int));
    }
    *v = out;
}

/// If `s` is empty or starts with a non-whitespace character, trimming its
/// start changes nothing.
proof fn lemma_trim_start_no_ws(s: Seq<char>)
    requires
        s.len() == 0 || !is_whitespace_of(s[0]),
    ensures
        trim_start_spec(s) == s,
{
}

/// Removes leading and trailing whitespace, as `str::trim` does.
pub fn trim_chars(v: Vec<char>) -> (r: Vec<char>)
    ensures
        r@ == trim_spec(v@),
{
    let mut r = v;
    trim_end_chars(&mut r);
    trim_start_chars(&mut r);
    r
}

/// Compares two strings lexicographically by code point.
pub fn str_le(a: &str, b: &str) -> (r: bool)
    ensures
        r == lex_le(a@, b@),
{
    let av: Vec<char> = str_to_chars(a);
    let bv: Vec<char> = str_to_chars(b);
    chars_le(&av, &bv)
}

/// `lex_le` is reflexive.
pub proof fn lemma_lex_le_refl(a: Seq<char>)
    ensures
        lex_le(a, a),
    decreases a.len(),
{
    if a.len() > 0 {
        lemma_lex_le_refl(a.drop_first());
    }
}

/// Lexicographic order on character sequences by code point.
pub open spec fn lex_le(a: Seq<char>, b: Seq<char>) -> bool
    decreases a.len(),
{
    if a.len() == 0 {
        true
    } else if b.len() == 0 {
        false
    } else if (a[0] as u32) < (b[0] as u32) {
        true
    } else if (a[0] as u32) > (b[0] as u32) {
        false
    } else {
        lex_le(a.drop_first(), b.drop_first())
    }
}

/// `lex_le` is total: one direction always holds.
pub proof fn lemma_lex_le_total(a: Seq<char>, b: Seq<char>)
    ensures
        lex_le(a, b) || lex_le(b, a),
    decreases a.len(),
{
    if a.len() == 0 || b.len() == 0 {
    } else if (a[0] as u32) == (b[0] as u32) {
        lemma_lex_le_total(a.drop_first(), b.drop_first());
    }
}

/// `lex_le` is transitive.
pub proof fn lemma_lex_le_trans(a: Seq<char>, b: Seq<char>, c: Seq<char>)
    requires
        lex_le(a, b),
        lex_le(b, c),
    ensures
        lex_le(a, c),
    decreases a.len(),
{
    if a.len() == 0 {
    } else if b.len() == 0 || c.len() == 0 {
    } else {
        if (a[0] as u32) == (b[0] as u32) && (b[0] as u32) == (c[0] as u32) {
            lemma_lex_le_trans(a.drop_first(), b.drop_first(), c.drop_first());
        }
    }
}

/// Characters with the same code point are the same character.
pub proof fn lemma_char_inj(c1: char, c2: char)
    requires
        c1 as u32 == c2 as u32,
    ensures
        c1 == c2,
{
    assert(c1 as int == c2 as int);
}

/// `lex_le` both ways means the sequences are equal.
pub proof fn lemma_lex_le_antisym(a: Seq<char>, b: Seq<char>)
    requires
        lex_le(a, b),
        lex_le(b, a),
    ensures
        a == b,
    decreases a.len(),
{
    if a.len() == 0 {
        if b.len() == 0 {
            assert(a =~= b);
        }
    } else {
        assert(b.len() != 0);
        lemma_lex_le_antisym(a.drop_first(), b.drop_first());
        assert((a[0] as u32) == (b[0] as u32));
        lemma_char_inj(a[0], b[0]);
        assert(a =~= seq![a[0]] + a.drop_first());
        assert(b =~= seq![b[0]] + b.drop_first());
    }
}

/// Character-for-character string equality.
pub fn str_eq(a: &str, b: &str) -> (r: bool)
    ensures
        r == (a@ == b@),
{
    let na: usize = a.unicode_len();
    let nb: usize = b.unicode_len();
    if na != nb {
        proof {
            assert(a@.len() != b@.len());
        }
        return false;
    }
    for i in 0..na
        invariant
            na == a@.len(),
            na == b@.len(),
            forall|j: int| 0 <= j < i ==> a@[j] == b@[j],
    {
        let ca: char = a.get_char(i);
        let cb: char = b.get_char(i);
        if ca != cb {
            return false;
        }
    }
    proof {
        assert(a@ =~= b@);
    }
    true
}

/// Compares two character vectors lexicographically.
pub fn chars_le(a: &Vec<char>, b: &Vec<char>) -> (r: bool)
    ensures
        r == lex_le(a@, b@),
{
    let mut i: usize = 0;
    let na: usize = a.len();
    let nb: usize = b.len();
    proof {
        assert(a@.skip(0) =~= a@);
        assert(b@.skip(0) =~= b@);
    }
    loop
        invariant
            i <= na,
            i <= nb,
            na == a@.len(),
            nb == b@.len(),
            lex_le(a@, b@) == lex_le(a@.skip(i as int), b@.skip(i as int)),
        decreases na - i,
    {
        proof {
            assert(a@.skip(i as int).len() == na - i);
            assert(b@.skip(i as int).len() == nb - i);
        }
        if i == na {
            return true;
        }
        if i == nb {
            return false;
        }
        let ca: u32 = a[i] as u32;
        let cb: u32 = b[i] as u32;
        proof {
            assert(a@.skip(i as int)[0] == a@[i as int]);
            assert(b@.skip(i as int)[0] == b@[i as int]);
            assert(a@.skip(i as int).drop_first() =~= a@.skip(i + 1));
            assert(b@.skip(i as int).drop_first() =~= b@.skip(i + 1));
        }
        if ca < cb {
            return true;
        }
        if ca > cb {
            return false;
        }
        i = i + 1;
    }
}

/// The length of the prefix of `s` before the first occurrence of `c`
/// (all of `s` when `c` does not occur).
pub open spec fn until_char(s: Seq<char>, c: char) -> int
    decreases s.len(),
{
    if s.len() == 0 || s[0] == c {
        0
    } else {
        1 + until_char(s.drop_first(), c)
    }
}

/// `until_char` stays within the sequence and sees no `c` before its stop.
pub proof fn lemma_until_char_bounds(s: Seq<char>, c: char)
    ensures
        0 <= until_char(s, c) <= s.len(),
        until_char(s, c) < s.len() ==> s[until_char(s, c)] == c,
        forall|j: int| 0 <= j < until_char(s, c) ==> #[trigger] s[j] != c,
    decreases s.len(),
{
    if s.len() > 0 && s[0] != c {
        lemma_until_char_bounds(s.drop_first(), c);
        assert forall|j: int| 0 <= j < until_char(s, c) implies #[trigger] s[j] != c by {
            if j >= 1 {
                assert(s.drop_first()[j - 1] == s[j]);
            }
        }
    }
}

/// A scan that saw no `c` up to `k` and `c` (or the end) at `k` determines
/// `until_char`.
pub proof fn lemma_until_char(s: Seq<char>, c: char, k: int)
    requires
        0 <= k <= s.len(),
        forall|j: int| 0 <= j < k ==> #[trigger] s[j] != c,
        k == s.len() || s[k] == c,
    ensures
        until_char(s, c) == k,
    decreases k,
{
    if k > 0 {
        lemma_until_char(s.drop_first(), c, k - 1);
    }
}

/// `s` split on `c`: the pieces between the separators, in order, empty
/// pieces included.  A text without the separator is one piece.
pub open spec fn split_on(s: Seq<char>, c: char) -> Seq<Seq<char>>
    decreases s.len(),
    via split_on_decreases
{
    let k = until_char(s, c);
    if k == s.len() {
        seq![s]
    } else {
        seq![s.take(k)] + split_on(s.skip(k + 1), c)
    }
}

#[via_fn]
proof fn split_on_decreases(s: Seq<char>, c: char) {
    lemma_until_char_bounds(s, c);
}

/// The end of the run of characters other than `sep` starting at `from`.
fn scan_until(cs: &Vec<char>, from: usize, sep: char) -> (r: usize)
    requires
        from <= cs@.len(),
    ensures
        from <= r <= cs@.len(),
        until_char(cs@.skip(from as int), sep) == r - from,
        r == cs@.len() || cs@[r as int] == sep,
{
    let n: usize = cs.len();
    let mut r: usize = from;
    loop
        invariant
            from <= r <= n,
            n == cs@.len(),
            forall|j: int| from <= j < r ==> #[trigger] cs@[j] != sep,
        decreases n - r,
    {
        if r == n || cs[r] == sep {
            proof {
                let sk = cs@.skip(from as int);
                assert(forall|j: int| 0 <= j < sk.len() ==> #[trigger] sk[j] == cs@[from + j]);
                lemma_until_char(sk, sep, r - from);
            }
            return r;
        }
        r = r + 1;
    }
}

/// The views of a piece list.
pub open spec fn piece_views(r: Seq<String>) -> Seq<Seq<char>> {
    Seq::new(r.len(), |i: int| r[i]@)
}

/// The length and elements of a piece list's views.
pub proof fn lemma_piece_views(s: Seq<String>)
    ensures
        piece_views(s).len() == s.len(),
        forall|i: int| 0 <= i < s.len() ==> #[trigger] piece_views(s)[i] == s[i]@,
{
}

/// Pushing a piece pushes its view.
pub proof fn lemma_piece_views_push(s: Seq<String>, x: String)
    ensures
        piece_views(s.push(x)) == piece_views(s).push(x@),
{
    lemma_piece_views(s);
    lemma_piece_views(s.push(x));
    assert(piece_views(s.push(x)) =~= piece_views(s).push(x@));
}

/// Splits the characters from `from` on into pieces separated by `sep`.
fn split_from(cs: &Vec<char>, from: usize, sep: char) -> (r: Vec<String>)
    requires
        from <= cs@.len(),
    ensures
        piece_views(r@) == split_on(cs@.skip(from as int), sep),
    decreases cs@.len() - from,
{
    let n: usize = cs.len();
    let stop: usize = scan_until(cs, from, sep);
    let mut piece: Vec<char> = Vec::new();
    let mut i: usize = from;
    while i < stop
        invariant
            from <= i <= stop <= n,
            n == cs@.len(),
            piece@ =~= cs@.subrange(from as int, i as int),
        decreases stop - i,
    {
        piece.push(cs[i]);
        i = i + 1;
    }
    let piece_str: String = chars_to_string(&piece);
    proof {
        assert(piece_str@ =~= cs@.skip(from as int).take((stop - from) as int));
        lemma_until_char_bounds(cs@.skip(from as int), sep);
    }
    if stop == n {
        let mut out: Vec<String> = Vec::new();
        out.push(piece_str);
        proof {
            assert(cs@.skip(from as int).take((stop - from) as int) =~= cs@.skip(from as int));
            assert(piece_views(out@) =~= split_on(cs@.skip(from as int), sep));
        }
        out
    } else {
        let rest: Vec<String> = split_from(cs, stop + 1, sep);
        let mut out: Vec<String> = Vec::new();
        out.push(piece_str);
        let mut rest_mut: Vec<String> = rest;
        out.append(&mut rest_mut);
        proof {
            assert(cs@.skip(from as int).skip((stop - from) + 1) =~= cs@.skip((stop + 1) as int));
            assert(piece_views(out@) =~= split_on(cs@.skip(from as int), sep));
        }
        out
    }
}

/// Splits a text on a separator character, empty pieces included.
pub fn split_text(s: &str, sep: char) -> (r: Vec<String>)
    ensures
        piece_views(r@) == split_on(s@, sep),
{
    let cs: Vec<char> = str_to_chars(s);
    proof {
        assert(cs@.skip(0) =~= cs@);
    }
    split_from(&cs, 0, sep)
}

} // verus!
