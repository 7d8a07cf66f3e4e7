//! The mutation strategies: each is a pure function of a label sequence, a
//! word and a root domain, yielding zero or more candidate hostnames.

use vstd::prelude::*;

verus! {

use crate::chartext::{
    char_views, str_views, spec_join, spec_contains_sub, spec_replace_all, all_digits,
    trailing_digits, leading_zeros, digits_val, spec_dec, zero_run, to_chars, string_of,
    copy_chars, append_chars, chars_eq, join_chars, contains_sub, replace_all, all_digits_chars,
    trailing_digit_run, leading_zero_count, parse_digits_capped, format_val, append_zeros,
    prefix_chars, suffix_chars, append_strings,
};

/// The four pairwise join operations that the additive strategies apply to a
/// word and an existing label.
#[derive(Clone, Copy, Debug)]
pub enum Combiner {
    /// `word-label`
    Dash,
    /// `label-word`
    RDash,
    /// `wordlabel`
    Concat,
    /// `labelword`
    RConcat,
}

/// The characters of the label that `c` makes from `w` and `l`.
pub open spec fn combine_spec(c: Combiner, w: Seq<char>, l: Seq<char>) -> Seq<char> {
    match c {
        Combiner::Dash => w + seq!['-'] + l,
        Combiner::RDash => l + seq!['-'] + w,
        Combiner::Concat => w + l,
        Combiner::RConcat => l + w,
    }
}

/// The hostname formed by the labels, a dot, and the root domain.
pub open spec fn line_of(ls: Seq<Seq<char>>, root: Seq<char>) -> Seq<char> {
    spec_join(ls, '.') + seq!['.'] + root
}

/// `word-label`: the word, a hyphen, then the label.
pub fn dash(left: &str, right: &str) -> (r: String)
    ensures
        r@ == left@ + seq!['-'] + right@,
{
    let l = to_chars(left);
    let rr = to_chars(right);
    let mut v = combine_chars(Combiner::Dash, &l, &rr);
    string_of(&v)
}

/// `label-word`: `dash` with its arguments swapped.
pub fn rdash(left: &str, right: &str) -> (r: String)
    ensures
        r@ == right@ + seq!['-'] + left@,
{
    dash(right, left)
}

/// `wordlabel`: the two parts run together.
pub fn concat(left: &str, right: &str) -> (r: String)
    ensures
        r@ == left@ + right@,
{
    let l = to_chars(left);
    let rr = to_chars(right);
    let mut v = combine_chars(Combiner::Concat, &l, &rr);
    string_of(&v)
}

/// `labelword`: `concat` with its arguments swapped.
pub fn rconcat(left: &str, right: &str) -> (r: String)
    ensures
        r@ == right@ + left@,
{
    concat(right, left)
}

/// The label that `c` makes from `w` and `l`.
pub fn combine_chars(c: Combiner, w: &Vec<char>, l: &Vec<char>) -> (r: Vec<char>)
    ensures
        r@ == combine_spec(c, w@, l@),
{
    let mut v: Vec<char> = Vec::new();
    match c {
        Combiner::Dash => {
            append_chars(&mut v, w);
            v.push('-');
            append_chars(&mut v, l);
            assert((w@ + seq!['-']) + l@ =~= (w@.push('-')) + l@);
        },
        Combiner::RDash => {
            append_chars(&mut v, l);
            v.push('-');
            append_chars(&mut v, w);
            assert((l@ + seq!['-']) + w@ =~= (l@.push('-')) + w@);
        },
        Combiner::Concat => {
            append_chars(&mut v, w);
            append_chars(&mut v, l);
        },
        Combiner::RConcat => {
            append_chars(&mut v, l);
            append_chars(&mut v, w);
        },
    }
    v
}

/// The labels of a subdomain, as character vectors.
pub fn to_char_labels(labels: &Vec<String>) -> (r: Vec<Vec<char>>)
    ensures
        char_views(r@) == str_views(labels@),
{
    let mut r: Vec<Vec<char>> = Vec::new();
    let mut i: usize = 0;
    while i < labels.len()
        invariant
            0 <= i <= labels@.len(),
            r@.len() == i,
            forall|j: int| 0 <= j < i ==> r@[j]@ == labels@[j]@,
        decreases labels@.len() - i,
    {
        r.push(to_chars(labels[i].as_str()));
        i = i + 1;
    }
    assert(char_views(r@) =~= str_views(labels@));
    r
}

fn emit_line(labels_c: &Vec<Vec<char>>, root_c: &Vec<char>) -> (r: String)
    ensures
        r@ == line_of(char_views(labels_c@), root_c@),
{
    let mut v = join_chars(labels_c, '.');
    v.push('.');
    append_chars(&mut v, root_c);
    assert(spec_join(char_views(labels_c@), '.').push('.') + root_c@ =~= spec_join(
        char_views(labels_c@),
        '.',
    ) + seq!['.'] + root_c@);
    string_of(&v)
}

fn with_update(labels_c: &Vec<Vec<char>>, at: usize, newlab: &Vec<char>) -> (r: Vec<Vec<char>>)
    requires
        at < labels_c@.len(),
    ensures
        char_views(r@) == char_views(labels_c@).update(at as int, newlab@),
{
    let mut r: Vec<Vec<char>> = Vec::new();
    let mut j: usize = 0;
    while j < labels_c.len()
        invariant
            at < labels_c@.len(),
            0 <= j <= labels_c@.len(),
            r@.len() == j,
            forall|t: int|
                0 <= t < j ==> r@[t]@ == if t == at {
                    newlab@
                } else {
                    labels_c@[t]@
                },
        decreases labels_c@.len() - j,
    {
        if j == at {
            r.push(copy_chars(newlab));
        } else {
            r.push(copy_chars(&labels_c[j]));
        }
        j = j + 1;
    }
    assert(char_views(r@) =~= char_views(labels_c@).update(at as int, newlab@));
    r
}

fn with_insert(labels_c: &Vec<Vec<char>>, at: usize, word_c: &Vec<char>) -> (r: Vec<Vec<char>>)
    requires
        at <= labels_c@.len(),
    ensures
        char_views(r@) == char_views(labels_c@).insert(at as int, word_c@),
{
    let mut r: Vec<Vec<char>> = Vec::new();
    let mut j: usize = 0;
    while j < at
        invariant
            at <= labels_c@.len(),
            0 <= j <= at,
            r@.len() == j,
            forall|t: int| 0 <= t < j ==> r@[t]@ == labels_c@[t]@,
        decreases at - j,
    {
        r.push(copy_chars(&labels_c[j]));
        j = j + 1;
    }
    r.push(copy_chars(word_c));
    let mut k: usize = at;
    while k < labels_c.len()
        invariant
            at <= labels_c@.len(),
            at <= k <= labels_c@.len(),
            r@.len() == k + 1,
            forall|t: int| 0 <= t < at ==> r@[t]@ == labels_c@[t]@,
            r@[at as int]@ == word_c@,
            forall|t: int| at < t <= k ==> r@[t]@ == labels_c@[t - 1]@,
        decreases labels_c@.len() - k,
    {
        r.push(copy_chars(&labels_c[k]));
        k = k + 1;
    }
    assert(char_views(r@) =~= char_views(labels_c@).insert(at as int, word_c@));
    r
}

/// The candidates that an additive strategy yields from the label indices
/// `i` onward: one per index whose label differs from the word.
pub open spec fn perm_from(
    ls: Seq<Seq<char>>,
    w: Seq<char>,
    root: Seq<char>,
    c: Combiner,
    i: int,
) -> Seq<Seq<char>>
    decreases ls.len() - i,
{
    if i < 0 || i >= ls.len() {
        Seq::empty()
    } else {
        (if ls[i] != w {
            seq![line_of(ls.update(i, combine_spec(c, w, ls[i])), root)]
        } else {
            Seq::empty()
        }) + perm_from(ls, w, root, c, i + 1)
    }
}

/// The candidates of an additive strategy: for each label index whose label
/// differs from the word, the hostname with that one label replaced by the
/// combination of word and label.
pub open spec fn perm_spec(ls: Seq<Seq<char>>, w: Seq<char>, root: Seq<char>, c: Combiner) -> Seq<
    Seq<char>,
> {
    perm_from(ls, w, root, c, 0)
}

/// Applies an additive strategy (dash, reverse dash, concat, reverse concat)
/// to every label index in turn; indices whose label equals the word yield
/// nothing.
pub fn perm(labels: &Vec<String>, word: &str, root: &str, c: Combiner) -> (r: Vec<String>)
    ensures
        str_views(r@) == perm_spec(str_views(labels@), word@, root@, c),
{
    let ghost ls = str_views(labels@);
    let labels_c = to_char_labels(labels);
    let word_c = to_chars(word);
    let root_c = to_chars(root);
    let mut out: Vec<String> = Vec::new();
    let mut i: usize = 0;
    proof {
        assert(str_views(out@) + perm_from(ls, word@, root@, c, 0) =~= perm_spec(
            ls,
            word@,
            root@,
            c,
        ));
    }
    while i < labels_c.len()
        invariant
            ls == char_views(labels_c@),
            word_c@ == word@,
            root_c@ == root@,
            0 <= i <= ls.len(),
            str_views(out@) + perm_from(ls, word@, root@, c, i as int) == perm_spec(
                ls,
                word@,
                root@,
                c,
            ),
        decreases ls.len() - i,
    {
        proof {
            assert(ls[i as int] == labels_c@[i as int]@);
        }
        if !chars_eq(&labels_c[i], &word_c) {
            let nl = combine_chars(c, &word_c, &labels_c[i]);
            let upd = with_update(&labels_c, i, &nl);
            let line = emit_line(&upd, &root_c);
            proof {
                assert(str_views(out@.push(line)) =~= str_views(out@) + seq![line@]);
                assert((str_views(out@) + seq![line@]) + perm_from(ls, word@, root@, c, i + 1)
                    =~= str_views(out@) + (seq![line@] + perm_from(ls, word@, root@, c, i + 1)));
            }
            out.push(line);
        }
        i = i + 1;
    }
    proof {
        assert(str_views(out@) + Seq::<Seq<char>>::empty() =~= str_views(out@));
    }
    out
}

/// The candidates of positional insertion: nothing when the word already is
/// a label; otherwise one hostname per insertion position.
pub open spec fn insert_spec(ls: Seq<Seq<char>>, w: Seq<char>, root: Seq<char>) -> Seq<Seq<char>> {
    if ls.contains(w) {
        Seq::empty()
    } else {
        Seq::new(ls.len() + 1, |k: int| line_of(ls.insert(k, w), root))
    }
}

/// Inserts the word at every position of the label sequence, one candidate
/// per position; yields nothing when the word already is a label.
pub fn insert_all_indexes(labels: &Vec<String>, word: &str, root: &str) -> (r: Vec<String>)
    ensures
        str_views(r@) == insert_spec(str_views(labels@), word@, root@),
{
    let ghost ls = str_views(labels@);
    let labels_c = to_char_labels(labels);
    let word_c = to_chars(word);
    let root_c = to_chars(root);
    let mut i: usize = 0;
    while i < labels_c.len()
        invariant
            ls == char_views(labels_c@),
            ls == str_views(labels@),
            word_c@ == word@,
            0 <= i <= ls.len(),
            forall|j: int| 0 <= j < i ==> ls[j] != word@,
        decreases ls.len() - i,
    {
        proof {
            assert(ls[i as int] == labels_c@[i as int]@);
        }
        if chars_eq(&labels_c[i], &word_c) {
            assert(ls.contains(word@));
            let none: Vec<String> = Vec::new();
            assert(str_views(none@) =~= Seq::<Seq<char>>::empty());
            return none;
        }
        i = i + 1;
    }
    assert(!ls.contains(word@));
    let mut out: Vec<String> = Vec::new();
    let mut k: usize = 0;
    while k < labels_c.len()
        invariant
            ls == char_views(labels_c@),
            word_c@ == word@,
            root_c@ == root@,
            !ls.contains(word@),
            0 <= k <= ls.len(),
            out@.len() == k,
            forall|j: int| 0 <= j < k ==> out@[j]@ == line_of(ls.insert(j, word@), root@),
        decreases ls.len() - k,
    {
        let ins = with_insert(&labels_c, k, &word_c);
        let line = emit_line(&ins, &root_c);
        out.push(line);
        k = k + 1;
    }
    let last = with_insert(&labels_c, k, &word_c);
    let line = emit_line(&last, &root_c);
    out.push(line);
    assert(str_views(out@) =~= insert_spec(ls, word@, root@));
    out
}

/// The candidates of substring replacement from the label indices `i`
/// onward: one per label that contains the word as a substring, with every
/// occurrence in that one label replaced.
pub open spec fn replace_from(
    ls: Seq<Seq<char>>,
    w: Seq<char>,
    rp: Seq<char>,
    root: Seq<char>,
    i: int,
) -> Seq<Seq<char>>
    decreases ls.len() - i,
{
    if i < 0 || i >= ls.len() {
        Seq::empty()
    } else {
        (if spec_contains_sub(ls[i], w) {
            seq![line_of(ls.update(i, spec_replace_all(ls[i], w, rp)), root)]
        } else {
            Seq::empty()
        }) + replace_from(ls, w, rp, root, i + 1)
    }
}

/// The candidates of substring replacement: nothing when the subdomain is a
/// single label equal to the word, or when the replacement already is a
/// label; otherwise one candidate per label containing the word.
pub open spec fn replace_spec(ls: Seq<Seq<char>>, w: Seq<char>, rp: Seq<char>, root: Seq<char>) -> Seq<
    Seq<char>,
> {
    if ls.len() == 1 && ls[0] == w {
        Seq::empty()
    } else if ls.contains(rp) {
        Seq::empty()
    } else {
        replace_from(ls, w, rp, root, 0)
    }
}

/// Replaces, label by label, every occurrence of `word` inside one label by
/// `word_replaced`, holding the other labels fixed; guarded as
/// `replace_spec` states.
pub fn replace_word_with_word(
    labels: &Vec<String>,
    word: &str,
    word_replaced: &str,
    root: &str,
) -> (r: Vec<String>)
    requires
        word@.len() >= 1,
    ensures
        str_views(r@) == replace_spec(str_views(labels@), word@, word_replaced@, root@),
{
    let ghost ls = str_views(labels@);
    let labels_c = to_char_labels(labels);
    let word_c = to_chars(word);
    let rep_c = to_chars(word_replaced);
    let root_c = to_chars(root);
    if labels_c.len() == 1 && chars_eq(&labels_c[0], &word_c) {
        assert(ls[0] == word@);
        let none: Vec<String> = Vec::new();
        assert(str_views(none@) =~= Seq::<Seq<char>>::empty());
        return none;
    }
    let mut i: usize = 0;
    while i < labels_c.len()
        invariant
            ls == char_views(labels_c@),
            ls == str_views(labels@),
            word_c@ == word@,
            rep_c@ == word_replaced@,
            !(ls.len() == 1 && ls[0] == word@),
            0 <= i <= ls.len(),
            forall|j: int| 0 <= j < i ==> ls[j] != word_replaced@,
        decreases ls.len() - i,
    {
        proof {
            assert(ls[i as int] == labels_c@[i as int]@);
        }
        if chars_eq(&labels_c[i], &rep_c) {
            assert(ls.contains(word_replaced@));
            let none: Vec<String> = Vec::new();
            assert(str_views(none@) =~= Seq::<Seq<char>>::empty());
            return none;
        }
        i = i + 1;
    }
    assert(!ls.contains(word_replaced@));
    let mut out: Vec<String> = Vec::new();
    let mut k: usize = 0;
    proof {
        assert(str_views(out@) + replace_from(ls, word@, word_replaced@, root@, 0) =~= replace_from(
            ls,
            word@,
            word_replaced@,
            root@,
            0,
        ));
    }
    while k < labels_c.len()
        invariant
            ls == char_views(labels_c@),
            word_c@ == word@,
            rep_c@ == word_replaced@,
            root_c@ == root@,
            word@.len() >= 1,
            0 <= k <= ls.len(),
            str_views(out@) + replace_from(ls, word@, word_replaced@, root@, k as int)
                == replace_from(ls, word@, word_replaced@, root@, 0),
        decreases ls.len() - k,
    {
        proof {
            assert(ls[k as int] == labels_c@[k as int]@);
        }
        if contains_sub(&labels_c[k], &word_c) {
            let nl = replace_all(&labels_c[k], &word_c, &rep_c);
            let upd = with_update(&labels_c, k, &nl);
            let line = emit_line(&upd, &root_c);
            proof {
                assert(str_views(out@.push(line)) =~= str_views(out@) + seq![line@]);
                assert((str_views(out@) + seq![line@]) + replace_from(
                    ls,
                    word@,
                    word_replaced@,
                    root@,
                    k + 1,
                ) =~= str_views(out@) + (seq![line@] + replace_from(
                    ls,
                    word@,
                    word_replaced@,
                    root@,
                    k + 1,
                )));
            }
            out.push(line);
        }
        k = k + 1;
    }
    proof {
        assert(str_views(out@) + Seq::<Seq<char>>::empty() =~= str_views(out@));
    }
    out
}

/// Whether the numeric shift by `n` applies to the label: it must end in a
/// digit run whose value fits a 64-bit signed integer and stays non-negative
/// after the shift.
pub open spec fn shift_ok(lab: Seq<char>, n: int) -> bool {
    let t = trailing_digits(lab);
    let run = lab.skip(lab.len() - t);
    t > 0 && digits_val(run) <= i64::MAX && digits_val(run) + n >= 0
}

/// The label with its trailing digit run replaced by the shifted value,
/// left-padded with the run's leading zeros unless the whole label is
/// digits.
pub open spec fn shifted_label(lab: Seq<char>, n: int) -> Seq<char> {
    let t = trailing_digits(lab);
    let run = lab.skip(lab.len() - t);
    let z = if all_digits(lab) {
        0
    } else {
        leading_zeros(run)
    };
    lab.take(lab.len() - t) + zero_run(z) + spec_dec((digits_val(run) + n) as nat)
}

/// The candidates of one numeric-shift pass at offset `n`, from the label
/// indices `i` onward.
pub open spec fn shift_pass(ls: Seq<Seq<char>>, n: int, root: Seq<char>, i: int) -> Seq<Seq<char>>
    decreases ls.len() - i,
{
    if i < 0 || i >= ls.len() {
        Seq::empty()
    } else {
        (if shift_ok(ls[i], n) {
            seq![line_of(ls.update(i, shifted_label(ls[i], n)), root)]
        } else {
            Seq::empty()
        }) + shift_pass(ls, n, root, i + 1)
    }
}

/// The numeric-shift candidates for the offsets `n` through `range`,
/// skipping offset zero.
pub open spec fn shifts_from(ls: Seq<Seq<char>>, range: int, root: Seq<char>, n: int) -> Seq<
    Seq<char>,
>
    decreases range + 1 - n,
{
    if n > range {
        Seq::empty()
    } else {
        (if n == 0 {
            Seq::empty()
        } else {
            shift_pass(ls, n, root, 0)
        }) + shifts_from(ls, range, root, n + 1)
    }
}

/// All numeric-shift candidates: offsets `-range` through `range` excluding
/// zero, outer over offsets, inner over label indices.
pub open spec fn numshift_spec(ls: Seq<Seq<char>>, range: int, root: Seq<char>) -> Seq<Seq<char>> {
    shifts_from(ls, range, root, -range)
}

fn shift_pass_exec(labels_c: &Vec<Vec<char>>, n: i128, root_c: &Vec<char>) -> (r: Vec<String>)
    requires
        -(i64::MAX as i128) <= n <= i64::MAX as i128,
    ensures
        str_views(r@) == shift_pass(char_views(labels_c@), n as int, root_c@, 0),
{
    let ghost ls = char_views(labels_c@);
    let mut out: Vec<String> = Vec::new();
    let mut i: usize = 0;
    proof {
        assert(str_views(out@) + shift_pass(ls, n as int, root_c@, 0) =~= shift_pass(
            ls,
            n as int,
            root_c@,
            0,
        ));
    }
    while i < labels_c.len()
        invariant
            ls == char_views(labels_c@),
            -(i64::MAX as i128) <= n <= i64::MAX as i128,
            0 <= i <= ls.len(),
            str_views(out@) + shift_pass(ls, n as int, root_c@, i as int) == shift_pass(
                ls,
                n as int,
                root_c@,
                0,
            ),
        decreases ls.len() - i,
    {
        proof {
            assert(ls[i as int] == labels_c@[i as int]@);
        }
        let lab = &labels_c[i];
        let t = trailing_digit_run(lab);
        proof {
            crate::chartext::lemma_trailing_le(lab@);
        }
        if t > 0 {
            let run = suffix_chars(lab, lab.len() - t);
            match parse_digits_capped(&run) {
                Some(v) => {
                    let shifted: i128 = v as i128 + n;
                    if shifted >= 0 {
                        let z: usize = if all_digits_chars(lab) {
                            0
                        } else {
                            leading_zero_count(&run)
                        };
                        let mut nl = prefix_chars(lab, lab.len() - t);
                        append_zeros(&mut nl, z);
                        let dec = format_val(shifted as u128);
                        append_chars(&mut nl, &dec);
                        proof {
                            assert(shift_ok(ls[i as int], n as int));
                            assert((shifted as u128) as nat == (digits_val(run@) + n) as nat);
                            assert(nl@ == shifted_label(ls[i as int], n as int));
                        }
                        let upd = with_update(&labels_c, i, &nl);
                        let line = emit_line(&upd, &root_c);
                        proof {
                            assert(str_views(out@.push(line)) =~= str_views(out@) + seq![line@]);
                            assert((str_views(out@) + seq![line@]) + shift_pass(
                                ls,
                                n as int,
                                root_c@,
                                i + 1,
                            ) =~= str_views(out@) + (seq![line@] + shift_pass(
                                ls,
                                n as int,
                                root_c@,
                                i + 1,
                            )));
                        }
                        out.push(line);
                    } else {
                        assert(!shift_ok(ls[i as int], n as int));
                    }
                },
                None => {
                    assert(!shift_ok(ls[i as int], n as int));
                },
            }
        } else {
            assert(!shift_ok(ls[i as int], n as int));
        }
        i = i + 1;
    }
    proof {
        assert(str_views(out@) + Seq::<Seq<char>>::empty() =~= str_views(out@));
    }
    out
}

/// Shifts the trailing digit run of each label by every offset in
/// `[-num_range, num_range]` except zero, one candidate per (offset, label)
/// pair that applies.
pub fn modify_numbers(labels: &Vec<String>, num_range: i64, root: &str) -> (r: Vec<String>)
    requires
        num_range >= 0,
    ensures
        str_views(r@) == numshift_spec(str_views(labels@), num_range as int, root@),
{
    let ghost ls = str_views(labels@);
    let labels_c = to_char_labels(labels);
    let root_c = to_chars(root);
    let range: i128 = num_range as i128;
    let mut out: Vec<String> = Vec::new();
    let mut n: i128 = -range;
    proof {
        assert(str_views(out@) + shifts_from(ls, range as int, root_c@, n as int) =~= shifts_from(
            ls,
            range as int,
            root_c@,
            n as int,
        ));
    }
    while n <= range
        invariant
            ls == char_views(labels_c@),
            ls == str_views(labels@),
            root_c@ == root@,
            range == num_range as int,
            num_range >= 0,
            -range <= n <= range + 1,
            str_views(out@) + shifts_from(ls, range as int, root_c@, n as int) == numshift_spec(
                ls,
                range as int,
                root@,
            ),
        decreases range + 1 - n,
    {
        if n != 0 {
            let pass = shift_pass_exec(&labels_c, n, &root_c);
            proof {
                assert((str_views(out@) + str_views(pass@)) + shifts_from(
                    ls,
                    range as int,
                    root_c@,
                    n + 1,
                ) =~= str_views(out@) + (str_views(pass@) + shifts_from(
                    ls,
                    range as int,
                    root_c@,
                    n + 1,
                )));
                assert(str_views(out@ + pass@) =~= str_views(out@) + str_views(pass@));
            }
            append_strings(&mut out, &pass);
        } else {
            proof {
                assert(Seq::<Seq<char>>::empty() + shifts_from(ls, range as int, root_c@, n + 1)
                    =~= shifts_from(ls, range as int, root_c@, n + 1));
            }
        }
        n = n + 1;
    }
    proof {
        assert(str_views(out@) + Seq::<Seq<char>>::empty() =~= str_views(out@));
    }
    out
}

/// The word prepended as the sole label directly under the root.
pub fn insert_top(word: &str, root: &str) -> (r: String)
    ensures
        r@ == word@ + seq!['.'] + root@,
{
    let word_c = to_chars(word);
    let root_c = to_chars(root);
    let mut v = copy_chars(&word_c);
    v.push('.');
    append_chars(&mut v, &root_c);
    assert(word@.push('.') + root@ =~= word@ + seq!['.'] + root@);
    string_of(&v)
}

} // verus!
