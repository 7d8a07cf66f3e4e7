//! The orchestrator: mode parsing, corpus selection by generation kind, and
//! the full run over every (domain, word, strategy) combination, producing
//! the output lines in order.

use vstd::prelude::*;

verus! {

use crate::chartext::{
    str_views, char_views, spec_split, all_digits, digits_val, has_char, spec_contains_sub,
    to_chars, split_string, contains_char, chars_eq, all_digits_chars, parse_digits_capped,
    suffix_chars, copy_chars, append_strings, contains_sub,
};
use crate::corpus::{corpus_spec, seed_from, generate_wordlist, dedup_words};
use crate::domain::{DomainEntry, EntryView, entry_views, wf_entries, wf_entry};
use crate::mutate::{
    Combiner, perm_spec, insert_spec, replace_spec, numshift_spec, perm, insert_all_indexes,
    insert_top, replace_word_with_word, modify_numbers,
};

/// The configuration surface of a run, as an external argument parser fills
/// it in; absent values stand for the documented defaults.
pub struct Args {
    /// Path of the newline-delimited domains file.
    pub domain_file_path: Option<String>,
    /// Path of the newline-delimited seed wordlist.
    pub wordlist: Option<String>,
    /// The word-generation kind: narrow, middle or wide.
    pub word_mode: Option<String>,
    /// The minimum length of a generated word.
    pub min_word_len: Option<usize>,
    /// The comma-separated list of enabled strategy numbers.
    pub modes: Option<String>,
    /// The range of the numeric-shift strategy.
    pub number: Option<i64>,
}

/// How the corpus is generated: from the wordlist alone, from the domains
/// too, or from the domains with raw forms kept as well.
pub enum GenKind {
    /// Only the seed wordlist.
    Narrow,
    /// Words derived from the domains, denumbered forms only.
    Middle,
    /// Words derived from the domains, raw forms kept too.
    Wide,
}

/// A fatal configuration error: a mode token that is not an integer from
/// one through seven.
#[derive(Debug)]
pub struct ModeError {
    /// The zero-based index of the offending token.
    pub index: usize,
}

/// The token without one optional leading plus sign.
pub open spec fn token_core(t: Seq<char>) -> Seq<char> {
    if t.len() > 0 && t[0] == '+' {
        t.skip(1)
    } else {
        t
    }
}

/// Whether a mode token denotes an integer from one through seven.
pub open spec fn token_valid(t: Seq<char>) -> bool {
    let c = token_core(t);
    c.len() > 0 && all_digits(c) && 1 <= digits_val(c) <= 7
}

/// Whether every comma-separated token of the mode specification is valid.
pub open spec fn modes_valid(s: Seq<char>) -> bool {
    forall|i: int|
        0 <= i < spec_split(s, ',').len() ==> token_valid(#[trigger] spec_split(s, ',')[i])
}

/// Whether some token of the mode specification names strategy `k + 1`.
pub open spec fn flag_set(s: Seq<char>, k: int) -> bool {
    exists|i: int|
        0 <= i < spec_split(s, ',').len() && digits_val(token_core(#[trigger] spec_split(s, ',')[i]))
            == k + 1
}

/// The seven strategy flags parsed from a mode specification.
pub struct ModeSet {
    /// One flag per strategy, in strategy order.
    pub flags: Vec<bool>,
}

impl ModeSet {
    /// A well-formed set holds exactly seven flags.
    pub open spec fn wf(&self) -> bool {
        self.flags@.len() == 7
    }

    /// Whether strategy `k + 1` is enabled.
    pub fn enabled(&self, k: usize) -> (r: bool)
        requires
            self.wf(),
            k < 7,
        ensures
            r == self.flags@[k as int],
    {
        self.flags[k]
    }
}

/// Parses the comma-separated mode specification into the seven strategy
/// flags; any token that does not denote an integer from one through seven
/// is a fatal configuration error.
pub fn parse_modes(modes: &str) -> (r: Result<ModeSet, ModeError>)
    ensures
        match r {
            Ok(m) => m.wf() && modes_valid(modes@) && forall|k: int|
                0 <= k < 7 ==> m.flags@[k] == flag_set(modes@, k),
            Err(_) => !modes_valid(modes@),
        },
{
    let mc = to_chars(modes);
    let toks = crate::chartext::split_chars(&mc, ',');
    let ghost tv = char_views(toks@);
    proof {
        assert(tv == spec_split(modes@, ','));
    }
    let mut flags: Vec<bool> = Vec::new();
    flags.push(false);
    flags.push(false);
    flags.push(false);
    flags.push(false);
    flags.push(false);
    flags.push(false);
    flags.push(false);
    let mut i: usize = 0;
    while i < toks.len()
        invariant
            tv == char_views(toks@),
            tv == spec_split(modes@, ','),
            0 <= i <= tv.len(),
            flags@.len() == 7,
            forall|j: int| 0 <= j < i ==> token_valid(#[trigger] tv[j]),
            forall|k: int|
                0 <= k < 7 ==> flags@[k] == exists|j: int|
                    0 <= j < i && digits_val(token_core(#[trigger] tv[j])) == k + 1,
        decreases tv.len() - i,
    {
        proof {
            assert(tv[i as int] == toks@[i as int]@);
        }
        let tok = &toks[i];
        let core: Vec<char> = if tok.len() > 0 && tok[0] == '+' {
            suffix_chars(tok, 1)
        } else {
            copy_chars(tok)
        };
        proof {
            assert(core@ == token_core(tv[i as int]));
        }
        if core.len() == 0 || !all_digits_chars(&core) {
            assert(!token_valid(tv[i as int]));
            return Err(ModeError { index: i });
        }
        match parse_digits_capped(&core) {
            Some(v) => {
                if 1 <= v && v <= 7 {
                    let ghost before = flags@;
                    let idx = (v - 1) as usize;
                    flags.set(idx, true);
                    proof {
                        assert forall|k: int| 0 <= k < 7 implies flags@[k] == exists|j: int|
                            0 <= j <= i && digits_val(token_core(#[trigger] tv[j])) == k + 1 by {
                            if k == idx {
                                assert(digits_val(token_core(tv[i as int])) == k + 1);
                            } else {
                                assert(flags@[k] == before[k]);
                            }
                        }
                    }
                } else {
                    assert(!token_valid(tv[i as int]));
                    return Err(ModeError { index: i });
                }
            },
            None => {
                assert(digits_val(core@) > i64::MAX);
                assert(!token_valid(tv[i as int]));
                return Err(ModeError { index: i });
            },
        }
        i = i + 1;
    }
    proof {
        assert forall|k: int| 0 <= k < 7 implies flags@[k] == flag_set(modes@, k) by {
            if flags@[k] {
                assert(flag_set(modes@, k));
            } else {
                if flag_set(modes@, k) {
                    let j = choose|j: int|
                        0 <= j < tv.len() && digits_val(token_core(tv[j])) == k + 1;
                    assert(false);
                }
            }
        }
    }
    Ok(ModeSet { flags })
}

/// The corpus that the given generation kind produces.
pub open spec fn corpus_for(
    es: Seq<EntryView>,
    wl_lines: Seq<Seq<char>>,
    wl: nat,
    kind: GenKind,
) -> Seq<Seq<char>> {
    match kind {
        GenKind::Narrow => seed_from(Seq::empty(), wl_lines, 0),
        GenKind::Middle => corpus_spec(es, wl_lines, wl, false),
        GenKind::Wide => corpus_spec(es, wl_lines, wl, true),
    }
}

/// Builds the working corpus for the given generation kind: the wordlist
/// alone for narrow, the domain-derived corpus otherwise, with raw forms
/// kept for wide.
pub fn build_corpus(
    entries: &Vec<DomainEntry>,
    wordlist: &Vec<String>,
    word_len: usize,
    kind: GenKind,
) -> (r: Vec<String>)
    ensures
        str_views(r@) == corpus_for(
            entry_views(entries@),
            str_views(wordlist@),
            word_len as nat,
            kind,
        ),
{
    match kind {
        GenKind::Narrow => dedup_words(wordlist),
        GenKind::Middle => generate_wordlist(entries, wordlist, word_len, false),
        GenKind::Wide => generate_wordlist(entries, wordlist, word_len, true),
    }
}

/// The candidates that substring replacement yields for one word, trying
/// every other corpus word as the replacement, from corpus index `j` on.
pub open spec fn strat6_from(
    ls: Seq<Seq<char>>,
    w: Seq<char>,
    ws: Seq<Seq<char>>,
    root: Seq<char>,
    j: int,
) -> Seq<Seq<char>>
    decreases ws.len() - j,
{
    if j < 0 || j >= ws.len() {
        Seq::empty()
    } else {
        (if ws[j] != w {
            replace_spec(ls, w, ws[j], root)
        } else {
            Seq::empty()
        }) + strat6_from(ls, w, ws, root, j + 1)
    }
}

/// The substring-replacement candidates for one word: nothing unless the
/// word is longer than one character and occurs in the dotted subdomain.
pub open spec fn strat6_lines(
    ls: Seq<Seq<char>>,
    sub: Seq<char>,
    w: Seq<char>,
    ws: Seq<Seq<char>>,
    root: Seq<char>,
) -> Seq<Seq<char>> {
    if w.len() > 1 && spec_contains_sub(sub, w) {
        strat6_from(ls, w, ws, root, 0)
    } else {
        Seq::empty()
    }
}

/// The candidates of the enabled strategies one through six for one
/// (subdomain, word) pair, in strategy order.
pub open spec fn word_lines(
    ls: Seq<Seq<char>>,
    sub: Seq<char>,
    w: Seq<char>,
    ws: Seq<Seq<char>>,
    fl: Seq<bool>,
    root: Seq<char>,
) -> Seq<Seq<char>> {
    (if fl[0] {
        perm_spec(ls, w, root, Combiner::Dash)
    } else {
        Seq::empty()
    }) + (if fl[1] {
        perm_spec(ls, w, root, Combiner::RDash)
    } else {
        Seq::empty()
    }) + (if fl[2] {
        perm_spec(ls, w, root, Combiner::Concat)
    } else {
        Seq::empty()
    }) + (if fl[3] {
        perm_spec(ls, w, root, Combiner::RConcat)
    } else {
        Seq::empty()
    }) + (if fl[4] {
        insert_spec(ls, w, root)
    } else {
        Seq::empty()
    }) + (if fl[5] {
        strat6_lines(ls, sub, w, ws, root)
    } else {
        Seq::empty()
    })
}

/// The candidates of the word loop from corpus index `j` on.
pub open spec fn words_from(
    ls: Seq<Seq<char>>,
    sub: Seq<char>,
    ws: Seq<Seq<char>>,
    fl: Seq<bool>,
    root: Seq<char>,
    j: int,
) -> Seq<Seq<char>>
    decreases ws.len() - j,
{
    if j < 0 || j >= ws.len() {
        Seq::empty()
    } else {
        word_lines(ls, sub, ws[j], ws, fl, root) + words_from(ls, sub, ws, fl, root, j + 1)
    }
}

/// The output lines of one entry: nothing for an underscore line; otherwise
/// the echoed line, then, where a subdomain exists, the word-loop
/// candidates and the numeric-shift candidates.
pub open spec fn entry_lines(
    e: EntryView,
    ws: Seq<Seq<char>>,
    fl: Seq<bool>,
    range: int,
    root: Seq<char>,
) -> Seq<Seq<char>> {
    if has_char(e.line, '_') {
        Seq::empty()
    } else {
        seq![e.line] + match e.sub {
            None => Seq::empty(),
            Some(sub) => words_from(spec_split(sub, '.'), sub, ws, fl, root, 0) + (if fl[6] {
                numshift_spec(spec_split(sub, '.'), range, root)
            } else {
                Seq::empty()
            }),
        }
    }
}

/// The output lines of the entries from index `i` on.
pub open spec fn domain_lines_from(
    es: Seq<EntryView>,
    ws: Seq<Seq<char>>,
    fl: Seq<bool>,
    range: int,
    root: Seq<char>,
    i: int,
) -> Seq<Seq<char>>
    decreases es.len() - i,
{
    if i < 0 || i >= es.len() {
        Seq::empty()
    } else {
        entry_lines(es[i], ws, fl, range, root) + domain_lines_from(es, ws, fl, range, root, i + 1)
    }
}

/// Whether an entry freezes the root: it is not skipped and has a
/// subdomain.
pub open spec fn qualifies(e: EntryView) -> bool {
    !has_char(e.line, '_') && e.sub is Some
}

/// The root of the first qualifying entry from index `i` on; empty when
/// none qualifies.
pub open spec fn frozen_from(es: Seq<EntryView>, i: int) -> Seq<char>
    decreases es.len() - i,
{
    if i < 0 || i >= es.len() {
        Seq::empty()
    } else if qualifies(es[i]) {
        es[i].root->0
    } else {
        frozen_from(es, i + 1)
    }
}

/// The frozen root domain: that of the first entry that is not skipped and
/// has a subdomain, empty when no entry qualifies.
pub open spec fn frozen_root(es: Seq<EntryView>) -> Seq<char> {
    frozen_from(es, 0)
}

/// The top-level-insertion lines for the corpus words from index `j` on.
pub open spec fn top_from(ws: Seq<Seq<char>>, root: Seq<char>, j: int) -> Seq<Seq<char>>
    decreases ws.len() - j,
{
    if j < 0 || j >= ws.len() {
        Seq::empty()
    } else {
        seq![ws[j] + seq!['.'] + root] + top_from(ws, root, j + 1)
    }
}

/// The whole output: the per-entry lines with the frozen root, then one
/// top-level-insertion line per corpus word.
pub open spec fn run_spec(
    es: Seq<EntryView>,
    ws: Seq<Seq<char>>,
    fl: Seq<bool>,
    range: int,
) -> Seq<Seq<char>> {
    domain_lines_from(es, ws, fl, range, frozen_root(es), 0) + top_from(ws, frozen_root(es), 0)
}

fn strat6_exec(
    labels: &Vec<String>,
    word: &String,
    corpus: &Vec<String>,
    root: &String,
) -> (r: Vec<String>)
    requires
        word@.len() > 1,
    ensures
        str_views(r@) == strat6_from(
            str_views(labels@),
            word@,
            str_views(corpus@),
            root@,
            0,
        ),
{
    let ghost ls = str_views(labels@);
    let ghost ws = str_views(corpus@);
    let word_c = to_chars(word.as_str());
    let mut out: Vec<String> = Vec::new();
    let mut j: usize = 0;
    proof {
        assert(str_views(out@) + strat6_from(ls, word@, ws, root@, 0) =~= strat6_from(
            ls,
            word@,
            ws,
            root@,
            0,
        ));
    }
    while j < corpus.len()
        invariant
            ls == str_views(labels@),
            ws == str_views(corpus@),
            word_c@ == word@,
            word@.len() > 1,
            0 <= j <= ws.len(),
            str_views(out@) + strat6_from(ls, word@, ws, root@, j as int) == strat6_from(
                ls,
                word@,
                ws,
                root@,
                0,
            ),
        decreases ws.len() - j,
    {
        proof {
            assert(ws[j as int] == corpus@[j as int]@);
        }
        let other_c = to_chars(corpus[j].as_str());
        if !chars_eq(&other_c, &word_c) {
            let lines = replace_word_with_word(
                labels,
                word.as_str(),
                corpus[j].as_str(),
                root.as_str(),
            );
            proof {
                assert(str_views(out@ + lines@) =~= str_views(out@) + str_views(lines@));
                assert((str_views(out@) + str_views(lines@)) + strat6_from(
                    ls,
                    word@,
                    ws,
                    root@,
                    j + 1,
                ) =~= str_views(out@) + (str_views(lines@) + strat6_from(
                    ls,
                    word@,
                    ws,
                    root@,
                    j + 1,
                )));
            }
            append_strings(&mut out, &lines);
        } else {
            proof {
                assert(Seq::<Seq<char>>::empty() + strat6_from(ls, word@, ws, root@, j + 1)
                    =~= strat6_from(ls, word@, ws, root@, j + 1));
            }
        }
        j = j + 1;
    }
    proof {
        assert(str_views(out@) + Seq::<Seq<char>>::empty() =~= str_views(out@));
    }
    out
}

fn lines_for_word(
    labels: &Vec<String>,
    sub: &String,
    word: &String,
    corpus: &Vec<String>,
    modes: &ModeSet,
    root: &String,
) -> (r: Vec<String>)
    requires
        modes.wf(),
    ensures
        str_views(r@) == word_lines(
            str_views(labels@),
            sub@,
            word@,
            str_views(corpus@),
            modes.flags@,
            root@,
        ),
{
    let ghost ls = str_views(labels@);
    let ghost ws = str_views(corpus@);
    let ghost fl = modes.flags@;
    let mut out: Vec<String> = Vec::new();
    proof {
        assert(str_views(out@) =~= Seq::<Seq<char>>::empty());
    }
    let ghost a0 = if fl[0] {
        perm_spec(ls, word@, root@, Combiner::Dash)
    } else {
        Seq::empty()
    };
    if modes.enabled(0) {
        let lines = perm(labels, word.as_str(), root.as_str(), Combiner::Dash);
        proof {
            assert(str_views(out@ + lines@) =~= str_views(out@) + str_views(lines@));
        }
        append_strings(&mut out, &lines);
    }
    proof {
        assert(str_views(out@) =~= a0);
    }
    let ghost a1 = a0 + if fl[1] {
        perm_spec(ls, word@, root@, Combiner::RDash)
    } else {
        Seq::empty()
    };
    if modes.enabled(1) {
        let lines = perm(labels, word.as_str(), root.as_str(), Combiner::RDash);
        proof {
            assert(str_views(out@ + lines@) =~= str_views(out@) + str_views(lines@));
        }
        append_strings(&mut out, &lines);
    }
    proof {
        assert(str_views(out@) =~= a1);
    }
    let ghost a2 = a1 + if fl[2] {
        perm_spec(ls, word@, root@, Combiner::Concat)
    } else {
        Seq::empty()
    };
    if modes.enabled(2) {
        let lines = perm(labels, word.as_str(), root.as_str(), Combiner::Concat);
        proof {
            assert(str_views(out@ + lines@) =~= str_views(out@) + str_views(lines@));
        }
        append_strings(&mut out, &lines);
    }
    proof {
        assert(str_views(out@) =~= a2);
    }
    let ghost a3 = a2 + if fl[3] {
        perm_spec(ls, word@, root@, Combiner::RConcat)
    } else {
        Seq::empty()
    };
    if modes.enabled(3) {
        let lines = perm(labels, word.as_str(), root.as_str(), Combiner::RConcat);
        proof {
            assert(str_views(out@ + lines@) =~= str_views(out@) + str_views(lines@));
        }
        append_strings(&mut out, &lines);
    }
    proof {
        assert(str_views(out@) =~= a3);
    }
    let ghost a4 = a3 + if fl[4] {
        insert_spec(ls, word@, root@)
    } else {
        Seq::empty()
    };
    if modes.enabled(4) {
        let lines = insert_all_indexes(labels, word.as_str(), root.as_str());
        proof {
            assert(str_views(out@ + lines@) =~= str_views(out@) + str_views(lines@));
        }
        append_strings(&mut out, &lines);
    }
    proof {
        assert(str_views(out@) =~= a4);
    }
    let ghost a5 = a4 + if fl[5] {
        strat6_lines(ls, sub@, word@, ws, root@)
    } else {
        Seq::empty()
    };
    if modes.enabled(5) {
        let word_c = to_chars(word.as_str());
        let sub_c = to_chars(sub.as_str());
        if word_c.len() > 1 && contains_sub(&sub_c, &word_c) {
            let lines = strat6_exec(labels, word, corpus, root);
            proof {
                assert(str_views(out@ + lines@) =~= str_views(out@) + str_views(lines@));
            }
            append_strings(&mut out, &lines);
        } else {
            proof {
                assert(strat6_lines(ls, sub@, word@, ws, root@) =~= Seq::<Seq<char>>::empty());
                assert(a4 + Seq::<Seq<char>>::empty() =~= a4);
            }
        }
    }
    proof {
        assert(str_views(out@) =~= a5);
        assert(a5 == word_lines(ls, sub@, word@, ws, fl, root@));
    }
    out
}

fn entry_lines_exec(
    entry: &DomainEntry,
    corpus: &Vec<String>,
    modes: &ModeSet,
    num_range: i64,
    root: &String,
) -> (r: Vec<String>)
    requires
        modes.wf(),
        num_range >= 0,
    ensures
        str_views(r@) == entry_lines(
            entry@,
            str_views(corpus@),
            modes.flags@,
            num_range as int,
            root@,
        ),
{
    let ghost ws = str_views(corpus@);
    let ghost fl = modes.flags@;
    let line_c = to_chars(entry.line.as_str());
    if contains_char(&line_c, '_') {
        let none: Vec<String> = Vec::new();
        assert(str_views(none@) =~= Seq::<Seq<char>>::empty());
        return none;
    }
    let mut out: Vec<String> = Vec::new();
    out.push(entry.line.clone());
    proof {
        assert(str_views(out@) =~= seq![entry@.line]);
    }
    match &entry.sub {
        None => {
            proof {
                assert(seq![entry@.line] + Seq::<Seq<char>>::empty() =~= seq![entry@.line]);
            }
        },
        Some(sub) => {
            let labels = split_string(sub.as_str(), '.');
            let ghost ls = spec_split(sub@, '.');
            proof {
                assert(str_views(labels@) == ls);
            }
            let mut j: usize = 0;
            proof {
                assert(str_views(out@) + words_from(ls, sub@, ws, fl, root@, 0) =~= seq![
                    entry@.line,
                ] + words_from(ls, sub@, ws, fl, root@, 0));
            }
            while j < corpus.len()
                invariant
                    modes.wf(),
                    fl == modes.flags@,
                    ws == str_views(corpus@),
                    ls == str_views(labels@),
                    0 <= j <= ws.len(),
                    str_views(out@) + words_from(ls, sub@, ws, fl, root@, j as int) == seq![
                        entry@.line,
                    ] + words_from(ls, sub@, ws, fl, root@, 0),
                decreases ws.len() - j,
            {
                proof {
                    assert(ws[j as int] == corpus@[j as int]@);
                }
                let lines = lines_for_word(&labels, sub, &corpus[j], corpus, modes, root);
                proof {
                    assert(str_views(out@ + lines@) =~= str_views(out@) + str_views(lines@));
                    assert((str_views(out@) + str_views(lines@)) + words_from(
                        ls,
                        sub@,
                        ws,
                        fl,
                        root@,
                        j + 1,
                    ) =~= str_views(out@) + (str_views(lines@) + words_from(
                        ls,
                        sub@,
                        ws,
                        fl,
                        root@,
                        j + 1,
                    )));
                }
                append_strings(&mut out, &lines);
                j = j + 1;
            }
            proof {
                assert(str_views(out@) + Seq::<Seq<char>>::empty() =~= str_views(out@));
            }
            if modes.enabled(6) {
                let lines = modify_numbers(&labels, num_range, root.as_str());
                proof {
                    assert(str_views(out@ + lines@) =~= str_views(out@) + str_views(lines@));
                }
                append_strings(&mut out, &lines);
            }
            proof {
                assert(seq![entry@.line] + (words_from(ls, sub@, ws, fl, root@, 0) + (if fl[6] {
                    numshift_spec(ls, num_range as int, root@)
                } else {
                    Seq::<Seq<char>>::empty()
                })) =~= (seq![entry@.line] + words_from(ls, sub@, ws, fl, root@, 0)) + (if fl[6] {
                    numshift_spec(ls, num_range as int, root@)
                } else {
                    Seq::<Seq<char>>::empty()
                }));
                if !fl[6] {
                    assert(str_views(out@) + Seq::<Seq<char>>::empty() =~= str_views(out@));
                }
            }
        },
    }
    out
}

/// Runs the orchestrator: echoes each accepted domain line, applies the
/// enabled strategies for every (domain, word) pair using the frozen root,
/// and ends with one top-level-insertion line per corpus word.
pub fn run(
    entries: &Vec<DomainEntry>,
    corpus: &Vec<String>,
    modes: &ModeSet,
    num_range: i64,
) -> (r: Vec<String>)
    requires
        wf_entries(entry_views(entries@)),
        modes.wf(),
        num_range >= 0,
    ensures
        str_views(r@) == run_spec(
            entry_views(entries@),
            str_views(corpus@),
            modes.flags@,
            num_range as int,
        ),
{
    let ghost esv = entry_views(entries@);
    let ghost ws = str_views(corpus@);
    let ghost fl = modes.flags@;
    let ghost root0 = frozen_root(esv);
    let mut root_s = String::new();
    let mut out: Vec<String> = Vec::new();
    let mut i: usize = 0;
    proof {
        assert(str_views(out@) + domain_lines_from(esv, ws, fl, num_range as int, root0, 0)
            =~= domain_lines_from(esv, ws, fl, num_range as int, root0, 0));
    }
    while i < entries.len()
        invariant
            wf_entries(esv),
            esv == entry_views(entries@),
            ws == str_views(corpus@),
            fl == modes.flags@,
            modes.wf(),
            num_range >= 0,
            root0 == frozen_root(esv),
            0 <= i <= esv.len(),
            root_s@.len() == 0 ==> frozen_from(esv, i as int) == root0,
            root_s@.len() > 0 ==> root_s@ == root0,
            str_views(out@) + domain_lines_from(esv, ws, fl, num_range as int, root0, i as int)
                == domain_lines_from(esv, ws, fl, num_range as int, root0, 0),
        decreases esv.len() - i,
    {
        proof {
            assert(esv[i as int] == entries@[i as int]@);
            assert(wf_entry(esv[i as int]));
        }
        let entry = &entries[i];
        let line_c = to_chars(entry.line.as_str());
        let skip_line = contains_char(&line_c, '_');
        if !skip_line {
            match &entry.sub {
                Some(_) => {
                    if root_s.as_str().is_empty() {
                        assert(qualifies(esv[i as int]));
                        assert(root0 == esv[i as int].root->0);
                        match &entry.root {
                            Some(rt) => {
                                root_s = rt.clone();
                            },
                            None => {
                                proof {
                                    assert(false);
                                }
                            },
                        }
                    }
                },
                None => {},
            }
        }
        proof {
            if root_s@.len() == 0 {
                assert(!qualifies(esv[i as int]));
                assert(frozen_from(esv, i + 1) == root0);
            }
        }
        let lines = entry_lines_exec(entry, corpus, modes, num_range, &root_s);
        proof {
            if qualifies(esv[i as int]) {
                assert(root_s@ == root0);
            } else {
                assert(entry_lines(esv[i as int], ws, fl, num_range as int, root_s@)
                    =~= entry_lines(esv[i as int], ws, fl, num_range as int, root0));
            }
            assert(str_views(out@ + lines@) =~= str_views(out@) + str_views(lines@));
            assert((str_views(out@) + str_views(lines@)) + domain_lines_from(
                esv,
                ws,
                fl,
                num_range as int,
                root0,
                i + 1,
            ) =~= str_views(out@) + (str_views(lines@) + domain_lines_from(
                esv,
                ws,
                fl,
                num_range as int,
                root0,
                i + 1,
            )));
        }
        append_strings(&mut out, &lines);
        i = i + 1;
    }
    proof {
        assert(str_views(out@) + Seq::<Seq<char>>::empty() =~= str_views(out@));
        if root_s@.len() == 0 {
            assert(frozen_from(esv, esv.len() as int) == root0);
            assert(root0 =~= root_s@);
        }
        assert(root_s@ == root0);
    }
    let mut j: usize = 0;
    proof {
        assert(str_views(out@) + top_from(ws, root0, 0) =~= str_views(out@) + top_from(
            ws,
            root0,
            0,
        ));
    }
    let ghost dpart = str_views(out@);
    while j < corpus.len()
        invariant
            ws == str_views(corpus@),
            root_s@ == root0,
            0 <= j <= ws.len(),
            str_views(out@) + top_from(ws, root0, j as int) == dpart + top_from(ws, root0, 0),
        decreases ws.len() - j,
    {
        proof {
            assert(ws[j as int] == corpus@[j as int]@);
        }
        let line = insert_top(corpus[j].as_str(), root_s.as_str());
        proof {
            assert(str_views(out@.push(line)) =~= str_views(out@) + seq![line@]);
            assert((str_views(out@) + seq![line@]) + top_from(ws, root0, j + 1) =~= str_views(out@)
                + (seq![line@] + top_from(ws, root0, j + 1)));
        }
        out.push(line);
        j = j + 1;
    }
    proof {
        assert(str_views(out@) + Seq::<Seq<char>>::empty() =~= str_views(out@));
        assert(str_views(out@) == dpart + top_from(ws, root0, 0));
        assert(dpart == domain_lines_from(esv, ws, fl, num_range as int, root0, 0));
    }
    out
}

} // verus!
