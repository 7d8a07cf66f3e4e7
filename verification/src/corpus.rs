//! The word-corpus builder: derives a deduplicated set of candidate words
//! from the subdomain labels of the input domains and/or a seed wordlist.

use vstd::prelude::*;

verus! {

use crate::chartext::{
    str_views, char_views, spec_split, spec_join, all_digits, trailing_digits, has_char,
    to_chars, string_of, split_chars, join_chars, contains_char, all_digits_chars,
    trailing_digit_run, prefix_chars, lemma_trailing_le,
};
use crate::domain::{DomainEntry, EntryView, entry_views};

/// The denumbered form of a token: the token with its maximal trailing run
/// of ASCII digits removed — unless the token is entirely digits, in which
/// case it is not denumbered at all.
pub open spec fn spec_denum(s: Seq<char>) -> Seq<char> {
    if s.len() > 0 && all_digits(s) {
        s
    } else {
        s.take(s.len() - trailing_digits(s))
    }
}

/// Removes the maximal trailing run of ASCII digits from the word; a word
/// without one, or one made entirely of digits, is returned unchanged.
pub fn remove_numbers(word: &str) -> (r: String)
    ensures
        r@ == spec_denum(word@),
{
    let v = to_chars(word);
    if v.len() > 0 && all_digits_chars(&v) {
        return word.to_owned();
    }
    let t = trailing_digit_run(&v);
    proof {
        lemma_trailing_le(v@);
    }
    let p = prefix_chars(&v, v.len() - t);
    string_of(&p)
}

/// Adds a word to a deduplicated word list: a word already present leaves
/// the list unchanged, a new word goes at the end.
pub open spec fn ins_word(acc: Seq<Seq<char>>, w: Seq<char>) -> Seq<Seq<char>> {
    if acc.contains(w) {
        acc
    } else {
        acc.push(w)
    }
}

/// Whether the word list holds the given word.
pub fn contains_string(v: &Vec<String>, w: &String) -> (r: bool)
    ensures
        r == str_views(v@).contains(w@),
{
    let mut i: usize = 0;
    while i < v.len()
        invariant
            0 <= i <= v@.len(),
            forall|j: int| 0 <= j < i ==> str_views(v@)[j] != w@,
        decreases v@.len() - i,
    {
        proof {
            assert(str_views(v@)[i as int] == v@[i as int]@);
        }
        if v[i].eq(w) {
            assert(str_views(v@).contains(w@));
            return true;
        }
        i = i + 1;
    }
    false
}

/// Inserts a word into the deduplicated word list.
pub fn insert_word(acc: &mut Vec<String>, w: String)
    ensures
        str_views(final(acc)@) == ins_word(str_views(old(acc)@), w@),
{
    if !contains_string(acc, &w) {
        let ghost before = str_views(acc@);
        acc.push(w);
        assert(str_views(acc@) =~= before.push(w@));
    }
}

/// Whether a hyphen piece takes part in corpus derivation: long enough and
/// not entirely digits.
pub open spec fn piece_ok(p: Seq<char>, wl: nat) -> bool {
    p.len() >= wl && !all_digits(p)
}

/// The corpus additions of one hyphen piece: the denumbered piece where it
/// is still long enough, and in wide generation the raw piece too.
pub open spec fn add_piece(acc: Seq<Seq<char>>, p: Seq<char>, wl: nat, multi: bool) -> Seq<
    Seq<char>,
> {
    if piece_ok(p, wl) {
        let d = spec_denum(p);
        let acc1 = if d.len() >= wl {
            ins_word(acc, d)
        } else {
            acc
        };
        if multi {
            ins_word(acc1, p)
        } else {
            acc1
        }
    } else {
        acc
    }
}

/// Folds `add_piece` over the pieces from index `i` on.
pub open spec fn pieces_from(
    acc: Seq<Seq<char>>,
    ps: Seq<Seq<char>>,
    i: int,
    wl: nat,
    multi: bool,
) -> Seq<Seq<char>>
    decreases ps.len() - i,
{
    if i < 0 || i >= ps.len() {
        acc
    } else {
        pieces_from(add_piece(acc, ps[i], wl, multi), ps, i + 1, wl, multi)
    }
}

/// The pieces from index `i` on that pass the piece filter, in order.
pub open spec fn kept_from(ps: Seq<Seq<char>>, i: int, wl: nat) -> Seq<Seq<char>>
    decreases ps.len() - i,
{
    if i < 0 || i >= ps.len() {
        Seq::empty()
    } else {
        (if piece_ok(ps[i], wl) {
            seq![ps[i]]
        } else {
            Seq::empty()
        }) + kept_from(ps, i + 1, wl)
    }
}

/// The corpus additions of one subdomain label.
pub open spec fn add_label(acc: Seq<Seq<char>>, lab: Seq<char>, wl: nat, multi: bool) -> Seq<
    Seq<char>,
> {
    if all_digits(lab) {
        acc
    } else if has_char(lab, '-') {
        let ps = spec_split(lab, '-');
        let acc1 = pieces_from(acc, ps, 0, wl, multi);
        if multi {
            ins_word(acc1, spec_join(kept_from(ps, 0, wl), '-'))
        } else {
            acc1
        }
    } else {
        if spec_denum(lab).len() >= wl {
            let acc1 = ins_word(acc, spec_denum(lab));
            if multi {
                ins_word(acc1, lab)
            } else {
                acc1
            }
        } else {
            acc
        }
    }
}

/// Folds `add_label` over the labels from index `i` on.
pub open spec fn labels_from(
    acc: Seq<Seq<char>>,
    labs: Seq<Seq<char>>,
    i: int,
    wl: nat,
    multi: bool,
) -> Seq<Seq<char>>
    decreases labs.len() - i,
{
    if i < 0 || i >= labs.len() {
        acc
    } else {
        labels_from(add_label(acc, labs[i], wl, multi), labs, i + 1, wl, multi)
    }
}

/// The corpus additions of one domain entry: nothing for a line holding an
/// underscore or for one without a subdomain; otherwise the additions of
/// every label of its subdomain.
pub open spec fn add_entry(acc: Seq<Seq<char>>, e: EntryView, wl: nat, multi: bool) -> Seq<
    Seq<char>,
> {
    if has_char(e.line, '_') {
        acc
    } else {
        match e.sub {
            None => acc,
            Some(sub) => labels_from(acc, spec_split(sub, '.'), 0, wl, multi),
        }
    }
}

/// Folds `add_entry` over the entries from index `i` on.
pub open spec fn entries_from(
    acc: Seq<Seq<char>>,
    es: Seq<EntryView>,
    i: int,
    wl: nat,
    multi: bool,
) -> Seq<Seq<char>>
    decreases es.len() - i,
{
    if i < 0 || i >= es.len() {
        acc
    } else {
        entries_from(add_entry(acc, es[i], wl, multi), es, i + 1, wl, multi)
    }
}

/// Seeds the word list with the wordlist lines from index `i` on.
pub open spec fn seed_from(acc: Seq<Seq<char>>, lines: Seq<Seq<char>>, i: int) -> Seq<Seq<char>>
    decreases lines.len() - i,
{
    if i < 0 || i >= lines.len() {
        acc
    } else {
        seed_from(ins_word(acc, lines[i]), lines, i + 1)
    }
}

/// The derived corpus: the wordlist lines, then the label-derived words of
/// every entry, deduplicated in insertion order.
pub open spec fn corpus_spec(
    es: Seq<EntryView>,
    wl_lines: Seq<Seq<char>>,
    wl: nat,
    multi: bool,
) -> Seq<Seq<char>> {
    entries_from(seed_from(Seq::empty(), wl_lines, 0), es, 0, wl, multi)
}

fn add_label_exec(acc: &mut Vec<String>, lab_c: &Vec<char>, word_len: usize, multi: bool)
    ensures
        str_views(final(acc)@) == add_label(str_views(old(acc)@), lab_c@, word_len as nat, multi),
{
    let ghost a0 = str_views(acc@);
    if all_digits_chars(lab_c) {
        return ;
    }
    if contains_char(lab_c, '-') {
        let ps = split_chars(lab_c, '-');
        let ghost psv = char_views(ps@);
        let mut kept: Vec<Vec<char>> = Vec::new();
        let mut i: usize = 0;
        while i < ps.len()
            invariant
                psv == char_views(ps@),
                0 <= i <= psv.len(),
                word_len as nat <= usize::MAX,
                pieces_from(a0, psv, 0, word_len as nat, multi) == pieces_from(
                    str_views(acc@),
                    psv,
                    i as int,
                    word_len as nat,
                    multi,
                ),
                kept_from(psv, 0, word_len as nat) == char_views(kept@) + kept_from(
                    psv,
                    i as int,
                    word_len as nat,
                ),
            decreases psv.len() - i,
        {
            proof {
                assert(psv[i as int] == ps@[i as int]@);
            }
            let p = &ps[i];
            let ghost before = str_views(acc@);
            if p.len() >= word_len && !all_digits_chars(p) {
                proof {
                    lemma_trailing_le(p@);
                }
                let t = trailing_digit_run(p);
                let d = prefix_chars(p, p.len() - t);
                if d.len() >= word_len {
                    insert_word(acc, string_of(&d));
                }
                if multi {
                    insert_word(acc, string_of(p));
                }
                proof {
                    assert(str_views(acc@) == add_piece(before, psv[i as int], word_len as nat, multi));
                    assert(char_views(kept@.push(*p)) =~= char_views(kept@) + seq![p@]);
                    assert((char_views(kept@) + seq![p@]) + kept_from(psv, i + 1, word_len as nat)
                        =~= char_views(kept@) + (seq![p@] + kept_from(psv, i + 1, word_len as nat)));
                }
                let cp = crate::chartext::copy_chars(p);
                kept.push(cp);
            } else {
                proof {
                    assert(str_views(acc@) == add_piece(before, psv[i as int], word_len as nat, multi));
                    assert(char_views(kept@) + (Seq::<Seq<char>>::empty() + kept_from(
                        psv,
                        i + 1,
                        word_len as nat,
                    )) =~= char_views(kept@) + kept_from(psv, i + 1, word_len as nat));
                }
            }
            i = i + 1;
        }
        if multi {
            proof {
                assert(char_views(kept@) + Seq::<Seq<char>>::empty() =~= char_views(kept@));
                assert(char_views(kept@) == kept_from(psv, 0, word_len as nat));
            }
            let joined = join_chars(&kept, '-');
            insert_word(acc, string_of(&joined));
        }
    } else {
        proof {
            lemma_trailing_le(lab_c@);
        }
        let t = trailing_digit_run(lab_c);
        let d = prefix_chars(lab_c, lab_c.len() - t);
        if d.len() >= word_len {
            insert_word(acc, string_of(&d));
            if multi {
                insert_word(acc, string_of(lab_c));
            }
        }
    }
}

fn add_entry_exec(acc: &mut Vec<String>, entry: &DomainEntry, word_len: usize, multi: bool)
    ensures
        str_views(final(acc)@) == add_entry(str_views(old(acc)@), entry@, word_len as nat, multi),
{
    let ghost a0 = str_views(acc@);
    let line_c = to_chars(entry.line.as_str());
    if contains_char(&line_c, '_') {
        return ;
    }
    match &entry.sub {
        None => {},
        Some(sub) => {
            let sub_c = to_chars(sub.as_str());
            let labs = split_chars(&sub_c, '.');
            let ghost lv = char_views(labs@);
            let mut i: usize = 0;
            while i < labs.len()
                invariant
                    lv == char_views(labs@),
                    0 <= i <= lv.len(),
                    word_len as nat <= usize::MAX,
                    labels_from(a0, lv, 0, word_len as nat, multi) == labels_from(
                        str_views(acc@),
                        lv,
                        i as int,
                        word_len as nat,
                        multi,
                    ),
                decreases lv.len() - i,
            {
                proof {
                    assert(lv[i as int] == labs@[i as int]@);
                }
                add_label_exec(acc, &labs[i], word_len, multi);
                i = i + 1;
            }
        },
    }
}

/// Builds the derived word corpus: seeds it with every wordlist line, then,
/// for each domain entry without an underscore whose decomposition yields a
/// subdomain, adds the words derived from each of its labels. The result is
/// deduplicated, in first-insertion order.
pub fn generate_wordlist(
    entries: &Vec<DomainEntry>,
    wordlist: &Vec<String>,
    word_len: usize,
    multi: bool,
) -> (r: Vec<String>)
    ensures
        str_views(r@) == corpus_spec(
            entry_views(entries@),
            str_views(wordlist@),
            word_len as nat,
            multi,
        ),
{
    let ghost wlv = str_views(wordlist@);
    let ghost esv = entry_views(entries@);
    let mut acc: Vec<String> = Vec::new();
    let mut i: usize = 0;
    proof {
        assert(str_views(acc@) =~= Seq::<Seq<char>>::empty());
    }
    while i < wordlist.len()
        invariant
            wlv == str_views(wordlist@),
            0 <= i <= wlv.len(),
            seed_from(Seq::empty(), wlv, 0) == seed_from(str_views(acc@), wlv, i as int),
        decreases wlv.len() - i,
    {
        proof {
            assert(wlv[i as int] == wordlist@[i as int]@);
        }
        insert_word(&mut acc, wordlist[i].clone());
        i = i + 1;
    }
    let mut e: usize = 0;
    while e < entries.len()
        invariant
            esv == entry_views(entries@),
            0 <= e <= esv.len(),
            word_len as nat <= usize::MAX,
            entries_from(seed_from(Seq::empty(), str_views(wordlist@), 0), esv, 0, word_len as nat, multi)
                == entries_from(str_views(acc@), esv, e as int, word_len as nat, multi),
        decreases esv.len() - e,
    {
        proof {
            assert(esv[e as int] == entries@[e as int]@);
        }
        add_entry_exec(&mut acc, &entries[e], word_len, multi);
        e = e + 1;
    }
    acc
}

/// Deduplicates the wordlist lines alone, for the narrow generation kind.
pub fn dedup_words(wordlist: &Vec<String>) -> (r: Vec<String>)
    ensures
        str_views(r@) == seed_from(Seq::empty(), str_views(wordlist@), 0),
{
    let ghost wlv = str_views(wordlist@);
    let mut acc: Vec<String> = Vec::new();
    let mut i: usize = 0;
    proof {
        assert(str_views(acc@) =~= Seq::<Seq<char>>::empty());
    }
    while i < wordlist.len()
        invariant
            wlv == str_views(wordlist@),
            0 <= i <= wlv.len(),
            seed_from(Seq::empty(), wlv, 0) == seed_from(str_views(acc@), wlv, i as int),
        decreases wlv.len() - i,
    {
        proof {
            assert(wlv[i as int] == wordlist@[i as int]@);
        }
        insert_word(&mut acc, wordlist[i].clone());
        i = i + 1;
    }
    acc
}

} // verus!
