//! Character-level text utilities: conversion between `String` and
//! `Vec<char>`, splitting, joining, substring search and replacement, and
//! decimal-digit handling. Everything here works over views as `Seq<char>`.

use vstd::prelude::*;

verus! {

use vstd::std_specs::iter::IteratorSpec;

/// Relies on String::push: appends the character to the end of the string.
#[verifier::external_body]
pub(crate) fn push_char(s: &mut String, c: char)
    ensures
        final(s)@ == old(s)@.push(c),
{
    s.push(c);
}

/// The characters of a string, as a vector.
pub fn to_chars(s: &str) -> (r: Vec<char>)
    ensures
        r@ == s@,
{
    broadcast use vstd::string::axiom_spec_iter, vstd::string::next_postcondition;

    let mut it = s.chars();
    let mut r: Vec<char> = Vec::new();
    let mut done = false;
    while !done
        invariant
            r@ + it.remaining() == s@,
            done ==> it.remaining().len() == 0,
        decreases s@.len() - r@.len() + 1 - (if done { 1int } else { 0 }),
    {
        match it.next() {
            Some(c) => { r.push(c); },
            None => { done = true; },
        }
    }
    assert(r@ =~= s@);
    r
}

/// The views of a sequence of character vectors.
pub open spec fn char_views(r: Seq<Vec<char>>) -> Seq<Seq<char>> {
    r.map_values(|v: Vec<char>| v@)
}

/// The views of a sequence of strings.
pub open spec fn str_views(r: Seq<String>) -> Seq<Seq<char>> {
    r.map_values(|s: String| s@)
}

/// A copy of the given character vector.
pub fn copy_chars(v: &Vec<char>) -> (r: Vec<char>)
    ensures
        r@ == v@,
{
    let mut r: Vec<char> = Vec::new();
    let mut i: usize = 0;
    while i < v.len()
        invariant
            0 <= i <= v@.len(),
            r@ == v@.take(i as int),
        decreases v@.len() - i,
    {
        r.push(v[i]);
        assert(v@.take(i as int).push(v@[i as int]) =~= v@.take(i + 1int));
        i = i + 1;
    }
    assert(v@.take(v@.len() as int) =~= v@);
    r
}

/// Appends the characters of `src` to `dst`.
pub fn append_chars(dst: &mut Vec<char>, src: &Vec<char>)
    ensures
        final(dst)@ == old(dst)@ + src@,
{
    let mut i: usize = 0;
    while i < src.len()
        invariant
            0 <= i <= src@.len(),
            dst@ == old(dst)@ + src@.take(i as int),
        decreases src@.len() - i,
    {
        dst.push(src[i]);
        assert(old(dst)@ + src@.take(i as int).push(src@[i as int]) =~= old(dst)@ + src@.take(
            i + 1int,
        ));
        i = i + 1;
    }
    assert(old(dst)@ + src@.take(src@.len() as int) =~= old(dst)@ + src@);
}

/// The first `end` characters of the vector.
pub fn prefix_chars(v: &Vec<char>, end: usize) -> (r: Vec<char>)
    requires
        end <= v@.len(),
    ensures
        r@ == v@.take(end as int),
{
    let mut r: Vec<char> = Vec::new();
    let mut i: usize = 0;
    while i < end
        invariant
            end <= v@.len(),
            0 <= i <= end,
            r@.len() == i,
            forall|j: int| 0 <= j < i ==> r@[j] == v@[j],
        decreases end - i,
    {
        r.push(v[i]);
        i = i + 1;
    }
    assert(r@ =~= v@.take(end as int));
    r
}

/// The characters of the vector from `start` on.
pub fn suffix_chars(v: &Vec<char>, start: usize) -> (r: Vec<char>)
    requires
        start <= v@.len(),
    ensures
        r@ == v@.skip(start as int),
{
    let mut r: Vec<char> = Vec::new();
    let mut i: usize = start;
    while i < v.len()
        invariant
            start <= i <= v@.len(),
            r@.len() == i - start,
            forall|j: int| 0 <= j < i - start ==> r@[j] == v@[start + j],
        decreases v@.len() - i,
    {
        r.push(v[i]);
        i = i + 1;
    }
    assert(r@ =~= v@.skip(start as int));
    r
}

/// Appends copies of the strings in `src` to `dst`.
pub fn append_strings(dst: &mut Vec<String>, src: &Vec<String>)
    ensures
        final(dst)@ == old(dst)@ + src@,
{
    let mut i: usize = 0;
    while i < src.len()
        invariant
            0 <= i <= src@.len(),
            dst@ == old(dst)@ + src@.take(i as int),
        decreases src@.len() - i,
    {
        dst.push(src[i].clone());
        assert(old(dst)@ + src@.take(i as int).push(src@[i as int]) =~= old(dst)@ + src@.take(
            i + 1int,
        ));
        i = i + 1;
    }
    assert(old(dst)@ + src@.take(src@.len() as int) =~= old(dst)@ + src@);
}

/// Whether two character vectors hold the same characters.
pub fn chars_eq(a: &Vec<char>, b: &Vec<char>) -> (r: bool)
    ensures
        r == (a@ == b@),
{
    if a.len() != b.len() {
        return false;
    }
    let mut i: usize = 0;
    while i < a.len()
        invariant
            a@.len() == b@.len(),
            0 <= i <= a@.len(),
            forall|j: int| 0 <= j < i ==> a@[j] == b@[j],
        decreases a@.len() - i,
    {
        if a[i] != b[i] {
            return false;
        }
        i = i + 1;
    }
    assert(a@ =~= b@);
    true
}

/// Whether the character occurs in the sequence.
pub open spec fn has_char(s: Seq<char>, c: char) -> bool {
    exists|i: int| 0 <= i < s.len() && s[i] == c
}

/// Whether the character occurs in the vector.
pub fn contains_char(v: &Vec<char>, c: char) -> (r: bool)
    ensures
        r == has_char(v@, c),
{
    let mut i: usize = 0;
    while i < v.len()
        invariant
            0 <= i <= v@.len(),
            forall|j: int| 0 <= j < i ==> v@[j] != c,
        decreases v@.len() - i,
    {
        if v[i] == c {
            return true;
        }
        i = i + 1;
    }
    false
}

/// Whether `needle` occurs in `hay` starting at offset `k`.
pub open spec fn matches_at(hay: Seq<char>, needle: Seq<char>, k: int) -> bool {
    0 <= k && k + needle.len() <= hay.len() && hay.subrange(k, k + needle.len()) == needle
}

/// Whether `needle` occurs anywhere in `hay` as a contiguous substring.
pub open spec fn spec_contains_sub(hay: Seq<char>, needle: Seq<char>) -> bool {
    exists|k: int| matches_at(hay, needle, k)
}

fn match_at(hay: &Vec<char>, needle: &Vec<char>, k: usize) -> (r: bool)
    requires
        k + needle@.len() <= hay@.len(),
    ensures
        r == matches_at(hay@, needle@, k as int),
{
    let hlen = hay.len();
    let mut j: usize = 0;
    while j < needle.len()
        invariant
            k + needle@.len() <= hay@.len(),
            hlen == hay@.len(),
            0 <= j <= needle@.len(),
            forall|t: int| 0 <= t < j ==> hay@[k + t] == needle@[t],
        decreases needle@.len() - j,
    {
        if hay[k + j] != needle[j] {
            assert(hay@.subrange(k as int, k + needle@.len())[j as int] == hay@[k + j]);
            return false;
        }
        j = j + 1;
    }
    assert(hay@.subrange(k as int, k + needle@.len()) =~= needle@);
    true
}

/// Whether `needle` occurs anywhere in `hay`.
pub fn contains_sub(hay: &Vec<char>, needle: &Vec<char>) -> (r: bool)
    ensures
        r == spec_contains_sub(hay@, needle@),
{
    if needle.len() > hay.len() {
        return false;
    }
    if needle.len() == 0 {
        assert(hay@.subrange(0, 0) =~= needle@);
        assert(matches_at(hay@, needle@, 0));
        return true;
    }
    let end = hay.len() - needle.len();
    let mut k: usize = 0;
    while k <= end
        invariant
            1 <= needle@.len() <= hay@.len(),
            end == hay@.len() - needle@.len(),
            end < usize::MAX,
            0 <= k <= end + 1,
            forall|t: int| 0 <= t < k ==> !matches_at(hay@, needle@, t),
        decreases end + 1 - k,
    {
        if match_at(hay, needle, k) {
            return true;
        }
        k = k + 1;
    }
    false
}

/// `s` with every non-overlapping occurrence of `pat`, found left to right,
/// replaced by `repl`.
pub open spec fn spec_replace_all(s: Seq<char>, pat: Seq<char>, repl: Seq<char>) -> Seq<char>
    decreases s.len(),
{
    if pat.len() == 0 || s.len() < pat.len() {
        s
    } else if s.take(pat.len() as int) == pat {
        repl + spec_replace_all(s.skip(pat.len() as int), pat, repl)
    } else {
        seq![s[0]] + spec_replace_all(s.skip(1), pat, repl)
    }
}

/// Replaces every occurrence of `pat` in `s` by `repl`, left to right,
/// without rescanning replaced text.
pub fn replace_all(s: &Vec<char>, pat: &Vec<char>, repl: &Vec<char>) -> (r: Vec<char>)
    requires
        pat@.len() >= 1,
    ensures
        r@ == spec_replace_all(s@, pat@, repl@),
{
    let mut out: Vec<char> = Vec::new();
    let mut i: usize = 0;
    proof {
        assert(s@.skip(0) =~= s@);
        assert(Seq::<char>::empty() + spec_replace_all(s@, pat@, repl@) =~= spec_replace_all(
            s@,
            pat@,
            repl@,
        ));
    }
    while i < s.len()
        invariant
            pat@.len() >= 1,
            0 <= i <= s@.len(),
            spec_replace_all(s@, pat@, repl@) == out@ + spec_replace_all(
                s@.skip(i as int),
                pat@,
                repl@,
            ),
        decreases s@.len() - i,
    {
        if pat.len() <= s.len() - i && match_at(s, pat, i) {
            proof {
                assert(s@.skip(i as int).take(pat@.len() as int) =~= s@.subrange(
                    i as int,
                    i + pat@.len(),
                ));
                assert(s@.skip(i as int).skip(pat@.len() as int) =~= s@.skip(i + pat@.len()));
                assert(out@ + (repl@ + spec_replace_all(s@.skip(i + pat@.len()), pat@, repl@))
                    =~= (out@ + repl@) + spec_replace_all(s@.skip(i + pat@.len()), pat@, repl@));
            }
            append_chars(&mut out, repl);
            i = i + pat.len();
        } else {
            proof {
                assert(s@.skip(i as int).skip(1) =~= s@.skip(i + 1int));
                if i + pat@.len() <= s@.len() {
                    assert(s@.skip(i as int).take(pat@.len() as int) =~= s@.subrange(
                        i as int,
                        i + pat@.len(),
                    ));
                    assert(spec_replace_all(s@.skip(i as int), pat@, repl@) == seq![s@[i as int]]
                        + spec_replace_all(s@.skip(i + 1int), pat@, repl@));
                } else {
                    assert(s@.skip(i as int).len() < pat@.len());
                    assert(s@.skip(i + 1int).len() < pat@.len());
                    assert(spec_replace_all(s@.skip(i as int), pat@, repl@) == s@.skip(i as int));
                    assert(spec_replace_all(s@.skip(i + 1int), pat@, repl@) == s@.skip(i + 1int));
                    assert(s@.skip(i as int) =~= seq![s@[i as int]] + s@.skip(i + 1int));
                }
                assert(out@ + (seq![s@[i as int]] + spec_replace_all(s@.skip(i + 1int), pat@, repl@))
                    =~= out@.push(s@[i as int]) + spec_replace_all(s@.skip(i + 1int), pat@, repl@));
            }
            out.push(s[i]);
            i = i + 1;
        }
    }
    proof {
        assert(s@.skip(s@.len() as int).len() == 0);
        assert(out@ + spec_replace_all(s@.skip(s@.len() as int), pat@, repl@) =~= out@);
    }
    out
}

/// Helper for `spec_split`: the pieces of `s`, with `cur` the piece read so
/// far.
pub open spec fn spec_split_acc(s: Seq<char>, sep: char, cur: Seq<char>) -> Seq<Seq<char>>
    decreases s.len(),
{
    if s.len() == 0 {
        seq![cur]
    } else if s[0] == sep {
        seq![cur] + spec_split_acc(s.skip(1), sep, Seq::empty())
    } else {
        spec_split_acc(s.skip(1), sep, cur.push(s[0]))
    }
}

/// The pieces of `s` between occurrences of `sep`, in order; empty pieces
/// are kept, and a `s` without `sep` yields the single piece `s`.
pub open spec fn spec_split(s: Seq<char>, sep: char) -> Seq<Seq<char>> {
    spec_split_acc(s, sep, Seq::empty())
}

/// Splits `s` on `sep`, keeping empty pieces.
pub fn split_chars(s: &Vec<char>, sep: char) -> (r: Vec<Vec<char>>)
    ensures
        char_views(r@) == spec_split(s@, sep),
{
    let mut r: Vec<Vec<char>> = Vec::new();
    let mut cur: Vec<char> = Vec::new();
    let mut i: usize = 0;
    proof {
        assert(s@.skip(0) =~= s@);
        assert(char_views(Seq::empty()) + spec_split_acc(s@, sep, Seq::empty()) =~= spec_split(
            s@,
            sep,
        ));
    }
    while i < s.len()
        invariant
            0 <= i <= s@.len(),
            char_views(r@) + spec_split_acc(s@.skip(i as int), sep, cur@) == spec_split(s@, sep),
        decreases s@.len() - i,
    {
        proof {
            assert(s@.skip(i as int)[0] == s@[i as int]);
            assert(s@.skip(i as int).skip(1) =~= s@.skip(i + 1int));
        }
        if s[i] == sep {
            proof {
                assert(char_views(r@.push(cur)) =~= char_views(r@) + seq![cur@]);
                assert((char_views(r@) + seq![cur@]) + spec_split_acc(
                    s@.skip(i + 1int),
                    sep,
                    Seq::empty(),
                ) =~= char_views(r@) + (seq![cur@] + spec_split_acc(
                    s@.skip(i + 1int),
                    sep,
                    Seq::empty(),
                )));
            }
            r.push(cur);
            cur = Vec::new();
        } else {
            cur.push(s[i]);
        }
        i = i + 1;
    }
    proof {
        assert(s@.skip(s@.len() as int).len() == 0);
        assert(char_views(r@.push(cur)) =~= char_views(r@) + seq![cur@]);
    }
    r.push(cur);
    r
}

/// Splits `s` on `sep` into strings, keeping empty pieces.
pub fn split_string(s: &str, sep: char) -> (r: Vec<String>)
    ensures
        str_views(r@) == spec_split(s@, sep),
{
    let c = to_chars(s);
    let parts = split_chars(&c, sep);
    let mut r: Vec<String> = Vec::new();
    let mut i: usize = 0;
    while i < parts.len()
        invariant
            0 <= i <= parts@.len(),
            r@.len() == i,
            forall|j: int| 0 <= j < i ==> r@[j]@ == parts@[j]@,
        decreases parts@.len() - i,
    {
        r.push(string_of(&parts[i]));
        i = i + 1;
    }
    assert(str_views(r@) =~= char_views(parts@));
    r
}

/// The pieces joined with `sep` between each adjacent pair.
pub open spec fn spec_join(ls: Seq<Seq<char>>, sep: char) -> Seq<char>
    decreases ls.len(),
{
    if ls.len() == 0 {
        Seq::empty()
    } else if ls.len() == 1 {
        ls[0]
    } else {
        ls[0] + seq![sep] + spec_join(ls.drop_first(), sep)
    }
}

/// Appending one more piece extends the join by a separator and the piece.
pub proof fn lemma_join_push(ls: Seq<Seq<char>>, x: Seq<char>, sep: char)
    ensures
        spec_join(ls.push(x), sep) == if ls.len() == 0 {
            x
        } else {
            spec_join(ls, sep) + seq![sep] + x
        },
    decreases ls.len(),
{
    if ls.len() == 0 {
        assert(ls.push(x)[0] == x);
    } else if ls.len() == 1 {
        assert(ls.push(x).drop_first() =~= seq![x]);
        assert(ls.push(x)[0] == ls[0]);
        assert(seq![x][0] == x);
        assert(spec_join(seq![x], sep) == x);
        assert(spec_join(ls.push(x), sep) == ls[0] + seq![sep] + x);
    } else {
        assert(ls.push(x).drop_first() =~= ls.drop_first().push(x));
        lemma_join_push(ls.drop_first(), x, sep);
        assert(ls.push(x)[0] == ls[0]);
        assert((ls[0] + seq![sep] + (spec_join(ls.drop_first(), sep) + seq![sep] + x)) =~= ((ls[0]
            + seq![sep] + spec_join(ls.drop_first(), sep)) + seq![sep] + x));
    }
}

/// Joins the pieces with `sep`.
pub fn join_chars(ls: &Vec<Vec<char>>, sep: char) -> (r: Vec<char>)
    ensures
        r@ == spec_join(char_views(ls@), sep),
{
    let mut r: Vec<char> = Vec::new();
    if ls.len() == 0 {
        return r;
    }
    append_chars(&mut r, &ls[0]);
    let mut i: usize = 1;
    proof {
        assert(char_views(ls@).take(1) =~= seq![ls@[0]@]);
        assert(spec_join(char_views(ls@).take(1), sep) == ls@[0]@);
    }
    while i < ls.len()
        invariant
            1 <= i <= ls@.len(),
            r@ == spec_join(char_views(ls@).take(i as int), sep),
        decreases ls@.len() - i,
    {
        proof {
            assert(char_views(ls@).take(i + 1int) =~= char_views(ls@).take(i as int).push(
                ls@[i as int]@,
            ));
            lemma_join_push(char_views(ls@).take(i as int), ls@[i as int]@, sep);
        }
        r.push(sep);
        append_chars(&mut r, &ls[i]);
        proof {
            assert(spec_join(char_views(ls@).take(i as int), sep).push(sep) + ls@[i as int]@
                =~= spec_join(char_views(ls@).take(i as int), sep) + seq![sep] + ls@[i as int]@);
        }
        i = i + 1;
    }
    proof {
        assert(char_views(ls@).take(ls@.len() as int) =~= char_views(ls@));
    }
    r
}

/// Whether the character is an ASCII decimal digit.
pub open spec fn is_digit(c: char) -> bool {
    c == '0' || c == '1' || c == '2' || c == '3' || c == '4' || c == '5' || c == '6' || c == '7'
        || c == '8' || c == '9'
}

/// The numeric value of a digit character; zero on any other character.
pub open spec fn digit_of(c: char) -> nat {
    if c == '1' {
        1
    } else if c == '2' {
        2
    } else if c == '3' {
        3
    } else if c == '4' {
        4
    } else if c == '5' {
        5
    } else if c == '6' {
        6
    } else if c == '7' {
        7
    } else if c == '8' {
        8
    } else if c == '9' {
        9
    } else {
        0
    }
}

/// The digit character for a value below ten; `'0'` otherwise.
pub open spec fn char_of_digit(d: nat) -> char {
    if d == 1 {
        '1'
    } else if d == 2 {
        '2'
    } else if d == 3 {
        '3'
    } else if d == 4 {
        '4'
    } else if d == 5 {
        '5'
    } else if d == 6 {
        '6'
    } else if d == 7 {
        '7'
    } else if d == 8 {
        '8'
    } else if d == 9 {
        '9'
    } else {
        '0'
    }
}

/// Whether the character is an ASCII decimal digit.
pub fn is_digit_char(c: char) -> (r: bool)
    ensures
        r == is_digit(c),
{
    match c {
        '0' | '1' | '2' | '3' | '4' | '5' | '6' | '7' | '8' | '9' => true,
        _ => false,
    }
}

/// Whether every character of the sequence is an ASCII digit; vacuously true
/// of the empty sequence.
pub open spec fn all_digits(s: Seq<char>) -> bool {
    forall|i: int| 0 <= i < s.len() ==> is_digit(s[i])
}

/// Whether every character of the vector is an ASCII digit.
pub fn all_digits_chars(v: &Vec<char>) -> (r: bool)
    ensures
        r == all_digits(v@),
{
    let mut i: usize = 0;
    while i < v.len()
        invariant
            0 <= i <= v@.len(),
            forall|j: int| 0 <= j < i ==> is_digit(v@[j]),
        decreases v@.len() - i,
    {
        if !is_digit_char(v[i]) {
            return false;
        }
        i = i + 1;
    }
    true
}

/// The length of the maximal run of ASCII digits at the end of `s`.
pub open spec fn trailing_digits(s: Seq<char>) -> nat
    decreases s.len(),
{
    if s.len() == 0 {
        0
    } else if is_digit(s.last()) {
        trailing_digits(s.drop_last()) + 1
    } else {
        0
    }
}

/// The trailing digit run is never longer than the sequence.
pub proof fn lemma_trailing_le(s: Seq<char>)
    ensures
        trailing_digits(s) <= s.len(),
    decreases s.len(),
{
    if s.len() > 0 && is_digit(s.last()) {
        lemma_trailing_le(s.drop_last());
    }
}

/// The length of the maximal run of ASCII digits at the end of the vector.
pub fn trailing_digit_run(v: &Vec<char>) -> (r: usize)
    ensures
        r == trailing_digits(v@),
{
    let n = v.len();
    let mut t: usize = 0;
    proof {
        assert(v@.take(n as int) =~= v@);
    }
    while t < n && is_digit_char(v[n - 1 - t])
        invariant
            0 <= t <= n,
            n == v@.len(),
            trailing_digits(v@) == t + trailing_digits(v@.take(n - t as int)),
        decreases n - t,
    {
        proof {
            let pre = v@.take(n - t as int);
            assert(pre.last() == v@[n - 1 - t as int]);
            assert(pre.drop_last() =~= v@.take(n - (t + 1int)));
        }
        t = t + 1;
    }
    proof {
        let pre = v@.take(n - t as int);
        if t < n {
            assert(pre.last() == v@[n - 1 - t as int]);
            assert(trailing_digits(pre) == 0);
        } else {
            assert(pre.len() == 0);
        }
    }
    t
}

/// The count of `'0'` characters at the front of `s`.
pub open spec fn leading_zeros(s: Seq<char>) -> nat
    decreases s.len(),
{
    if s.len() > 0 && s[0] == '0' {
        leading_zeros(s.skip(1)) + 1
    } else {
        0
    }
}

/// The count of `'0'` characters at the front of the vector.
pub fn leading_zero_count(v: &Vec<char>) -> (r: usize)
    ensures
        r == leading_zeros(v@),
{
    let n = v.len();
    let mut t: usize = 0;
    proof {
        assert(v@.skip(0) =~= v@);
    }
    while t < n && v[t] == '0'
        invariant
            0 <= t <= n,
            n == v@.len(),
            leading_zeros(v@) == t + leading_zeros(v@.skip(t as int)),
        decreases n - t,
    {
        proof {
            assert(v@.skip(t as int)[0] == v@[t as int]);
            assert(v@.skip(t as int).skip(1) =~= v@.skip(t + 1int));
        }
        t = t + 1;
    }
    proof {
        if t < n {
            assert(v@.skip(t as int)[0] == v@[t as int]);
        }
        assert(leading_zeros(v@.skip(t as int)) == 0);
    }
    t
}

/// The non-negative integer denoted by a sequence of digit characters, most
/// significant first.
pub open spec fn digits_val(s: Seq<char>) -> nat
    decreases s.len(),
{
    if s.len() == 0 {
        0
    } else {
        digits_val(s.drop_last()) * 10 + digit_of(s.last())
    }
}

/// A prefix of a digit string never denotes more than the whole string.
pub proof fn lemma_digits_val_prefix(s: Seq<char>, j: int)
    requires
        0 <= j <= s.len(),
    ensures
        digits_val(s.take(j)) <= digits_val(s),
    decreases s.len() - j,
{
    if j < s.len() {
        lemma_digits_val_prefix(s, j + 1);
        let p = s.take(j + 1);
        assert(p.drop_last() =~= s.take(j));
        assert(digits_val(p) == digits_val(s.take(j)) * 10 + digit_of(p.last()));
        assert(digits_val(s.take(j)) * 10 >= digits_val(s.take(j)));
    } else {
        assert(s.take(j) =~= s);
    }
}

/// The digit value of a vector of digit characters, or `None` where that
/// value exceeds `i64::MAX`.
pub fn parse_digits_capped(v: &Vec<char>) -> (r: Option<u64>)
    ensures
        match r {
            Some(n) => n == digits_val(v@) && digits_val(v@) <= i64::MAX,
            None => digits_val(v@) > i64::MAX,
        },
{
    let mut val: u64 = 0;
    let mut i: usize = 0;
    proof {
        assert(v@.take(0).len() == 0);
    }
    while i < v.len()
        invariant
            0 <= i <= v@.len(),
            val == digits_val(v@.take(i as int)),
            val <= i64::MAX,
        decreases v@.len() - i,
    {
        proof {
            assert(v@.take(i + 1int).drop_last() =~= v@.take(i as int));
            assert(v@.take(i + 1int).last() == v@[i as int]);
        }
        let d: u64 = digit_value(v[i]);
        let next: u128 = (val as u128) * 10 + (d as u128);
        if next > i64::MAX as u128 {
            proof {
                lemma_digits_val_prefix(v@, i + 1);
            }
            return None;
        }
        val = next as u64;
        i = i + 1;
    }
    proof {
        assert(v@.take(v@.len() as int) =~= v@);
    }
    Some(val)
}

/// The numeric value of a digit character; zero on any other character.
pub fn digit_value(c: char) -> (r: u64)
    ensures
        r == digit_of(c),
        r <= 9,
{
    match c {
        '1' => 1,
        '2' => 2,
        '3' => 3,
        '4' => 4,
        '5' => 5,
        '6' => 6,
        '7' => 7,
        '8' => 8,
        '9' => 9,
        _ => 0,
    }
}

/// The decimal digit characters of `n`, most significant first, without
/// leading zeros (the single digit `'0'` for zero).
pub open spec fn spec_dec(n: nat) -> Seq<char>
    decreases n,
{
    if n < 10 {
        seq![char_of_digit(n)]
    } else {
        spec_dec(n / 10).push(char_of_digit(n % 10))
    }
}

/// The decimal digit characters of `n`, most significant first.
pub fn format_val(n: u128) -> (r: Vec<char>)
    ensures
        r@ == spec_dec(n as nat),
    decreases n,
{
    if n < 10 {
        let mut r: Vec<char> = Vec::new();
        r.push(digit_char(n));
        assert(r@ =~= seq![char_of_digit(n as nat)]);
        r
    } else {
        let mut r = format_val(n / 10);
        r.push(digit_char(n % 10));
        r
    }
}

fn digit_char(d: u128) -> (c: char)
    requires
        d < 10,
    ensures
        c == char_of_digit(d as nat),
{
    match d {
        0 => '0',
        1 => '1',
        2 => '2',
        3 => '3',
        4 => '4',
        5 => '5',
        6 => '6',
        7 => '7',
        8 => '8',
        _ => '9',
    }
}

/// A run of `k` zero characters.
pub open spec fn zero_run(k: nat) -> Seq<char> {
    Seq::new(k, |i: int| '0')
}

/// Appends `k` zero characters to `dst`.
pub fn append_zeros(dst: &mut Vec<char>, k: usize)
    ensures
        final(dst)@ == old(dst)@ + zero_run(k as nat),
{
    let mut i: usize = 0;
    while i < k
        invariant
            0 <= i <= k,
            dst@ == old(dst)@ + zero_run(i as nat),
        decreases k - i,
    {
        dst.push('0');
        assert((old(dst)@ + zero_run(i as nat)).push('0') =~= old(dst)@ + zero_run((i + 1) as nat));
        i = i + 1;
    }
}

/// The string holding exactly the given characters.
pub fn string_of(v: &Vec<char>) -> (r: String)
    ensures
        r@ == v@,
{
    let mut r = String::new();
    let mut i: usize = 0;
    while i < v.len()
        invariant
            0 <= i <= v@.len(),
            r@ == v@.take(i as int),
        decreases v@.len() - i,
    {
        push_char(&mut r, v[i]);
        assert(v@.take(i as int).push(v@[i as int]) =~= v@.take(i + 1int));
        i = i + 1;
    }
    assert(v@.take(v@.len() as int) =~= v@);
    r
}

} // verus!
