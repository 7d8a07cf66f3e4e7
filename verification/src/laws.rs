//! Stated laws of the library, each proved from the specifications that the
//! executable functions are verified against.

use vstd::prelude::*;

verus! {

use crate::chartext::{spec_join, has_char, spec_split};
use crate::corpus::corpus_spec;
use crate::domain::EntryView;
use crate::mutate::{
    Combiner, combine_spec, line_of, perm_from, perm_spec, insert_spec, replace_spec, shift_pass,
    shifts_from, numshift_spec,
};
use crate::engine::{
    strat6_from, strat6_lines, word_lines, words_from, entry_lines, domain_lines_from,
    frozen_root, top_from, run_spec,
};

/// Whether `x` ends in the suffix `suf`.
pub open spec fn ends_with(x: Seq<char>, suf: Seq<char>) -> bool {
    x.len() >= suf.len() && x.skip(x.len() - suf.len()) == suf
}

/// Corpus determinism: the corpus is a function of its inputs alone, so two
/// builds over the same domains and wordlist yield the same word set.
pub proof fn lemma_corpus_deterministic(
    es: Seq<EntryView>,
    wl: Seq<Seq<char>>,
    wlen: nat,
    multi: bool,
    a: Seq<Seq<char>>,
    b: Seq<Seq<char>>,
)
    requires
        a == corpus_spec(es, wl, wlen, multi),
        b == corpus_spec(es, wl, wlen, multi),
    ensures
        a.to_set() == b.to_set(),
{
}

/// Every candidate of an additive strategy comes from a label index whose
/// label differs from the word: an index whose label equals the word
/// contributes nothing.
pub proof fn lemma_additive_members(
    ls: Seq<Seq<char>>,
    w: Seq<char>,
    root: Seq<char>,
    c: Combiner,
    i: int,
)
    requires
        0 <= i,
    ensures
        forall|t: int|
            0 <= t < perm_from(ls, w, root, c, i).len() ==> exists|k: int|
                i <= k < ls.len() && ls[k] != w && #[trigger] perm_from(ls, w, root, c, i)[t]
                    == line_of(ls.update(k, combine_spec(c, w, ls[k])), root),
    decreases ls.len() - i,
{
    if i < ls.len() {
        lemma_additive_members(ls, w, root, c, i + 1);
        let rest = perm_from(ls, w, root, c, i + 1);
        let whole = perm_from(ls, w, root, c, i);
        if ls[i] != w {
            assert forall|t: int| 0 <= t < whole.len() implies exists|k: int|
                i <= k < ls.len() && ls[k] != w && #[trigger] whole[t] == line_of(
                    ls.update(k, combine_spec(c, w, ls[k])),
                    root,
                ) by {
                if t == 0 {
                    assert(whole[0] == line_of(ls.update(i, combine_spec(c, w, ls[i])), root));
                } else {
                    assert(whole[t] == rest[t - 1]);
                }
            }
        } else {
            assert forall|t: int| 0 <= t < whole.len() implies exists|k: int|
                i <= k < ls.len() && ls[k] != w && #[trigger] whole[t] == line_of(
                    ls.update(k, combine_spec(c, w, ls[k])),
                    root,
                ) by {
                assert(whole[t] == rest[t]);
            }
        }
    }
}

/// When every label equals the word, the additive strategies emit nothing.
pub proof fn lemma_additive_noop(ls: Seq<Seq<char>>, w: Seq<char>, root: Seq<char>, c: Combiner)
    requires
        forall|k: int| 0 <= k < ls.len() ==> ls[k] == w,
    ensures
        perm_spec(ls, w, root, c) == Seq::<Seq<char>>::empty(),
{
    lemma_additive_members(ls, w, root, c, 0);
    let whole = perm_from(ls, w, root, c, 0);
    if whole.len() > 0 {
        let first = whole[0];
        assert(exists|k: int|
            0 <= k < ls.len() && ls[k] != w && perm_from(ls, w, root, c, 0)[0] == line_of(
                ls.update(k, combine_spec(c, w, ls[k])),
                root,
            ));
        assert(false);
    }
    assert(whole =~= Seq::<Seq<char>>::empty());
}

/// Positional insertion emits nothing when the word already is a label, and
/// exactly one candidate per insertion position otherwise.
pub proof fn lemma_positional_insert_count(ls: Seq<Seq<char>>, w: Seq<char>, root: Seq<char>)
    ensures
        ls.contains(w) ==> insert_spec(ls, w, root) == Seq::<Seq<char>>::empty(),
        !ls.contains(w) ==> insert_spec(ls, w, root).len() == ls.len() + 1,
{
}

/// The guards of substring replacement: a word of one character or less
/// never triggers it, nor does a replacement already present among the
/// labels, nor a single-label subdomain exactly equal to the word.
pub proof fn lemma_substring_replace_guards(
    ls: Seq<Seq<char>>,
    sub: Seq<char>,
    w: Seq<char>,
    rp: Seq<char>,
    ws: Seq<Seq<char>>,
    root: Seq<char>,
)
    ensures
        w.len() <= 1 ==> strat6_lines(ls, sub, w, ws, root) == Seq::<Seq<char>>::empty(),
        ls.contains(rp) ==> replace_spec(ls, w, rp, root) == Seq::<Seq<char>>::empty(),
        ls.len() == 1 && ls[0] == w ==> replace_spec(ls, w, rp, root) == Seq::<Seq<char>>::empty(),
{
}

proof fn lemma_line_suffix(ls: Seq<Seq<char>>, root: Seq<char>)
    ensures
        ends_with(line_of(ls, root), seq!['.'] + root),
{
    let x = line_of(ls, root);
    let j = spec_join(ls, '.');
    assert(x.skip(j.len() as int) =~= seq!['.'] + root);
}

proof fn lemma_perm_suffix(ls: Seq<Seq<char>>, w: Seq<char>, root: Seq<char>, c: Combiner, i: int)
    ensures
        forall|t: int|
            0 <= t < perm_from(ls, w, root, c, i).len() ==> ends_with(
                #[trigger] perm_from(ls, w, root, c, i)[t],
                seq!['.'] + root,
            ),
    decreases ls.len() - i,
{
    if 0 <= i < ls.len() {
        lemma_perm_suffix(ls, w, root, c, i + 1);
        let rest = perm_from(ls, w, root, c, i + 1);
        let whole = perm_from(ls, w, root, c, i);
        assert forall|t: int| 0 <= t < whole.len() implies ends_with(
            whole[t],
            seq!['.'] + root,
        ) by {
            if ls[i] != w && t == 0 {
                lemma_line_suffix(ls.update(i, combine_spec(c, w, ls[i])), root);
            } else if ls[i] != w {
                assert(whole[t] == rest[t - 1]);
            } else {
                assert(whole[t] == rest[t]);
            }
        }
    }
}

proof fn lemma_insert_suffix(ls: Seq<Seq<char>>, w: Seq<char>, root: Seq<char>)
    ensures
        forall|t: int|
            0 <= t < insert_spec(ls, w, root).len() ==> ends_with(
                #[trigger] insert_spec(ls, w, root)[t],
                seq!['.'] + root,
            ),
{
    if !ls.contains(w) {
        assert forall|t: int| 0 <= t < insert_spec(ls, w, root).len() implies ends_with(
            insert_spec(ls, w, root)[t],
            seq!['.'] + root,
        ) by {
            lemma_line_suffix(ls.insert(t, w), root);
        }
    }
}

proof fn lemma_replace_from_suffix(
    ls: Seq<Seq<char>>,
    w: Seq<char>,
    rp: Seq<char>,
    root: Seq<char>,
    i: int,
)
    ensures
        forall|t: int|
            0 <= t < crate::mutate::replace_from(ls, w, rp, root, i).len() ==> ends_with(
                #[trigger] crate::mutate::replace_from(ls, w, rp, root, i)[t],
                seq!['.'] + root,
            ),
    decreases ls.len() - i,
{
    if 0 <= i < ls.len() {
        lemma_replace_from_suffix(ls, w, rp, root, i + 1);
        let rest = crate::mutate::replace_from(ls, w, rp, root, i + 1);
        let whole = crate::mutate::replace_from(ls, w, rp, root, i);
        assert forall|t: int| 0 <= t < whole.len() implies ends_with(
            whole[t],
            seq!['.'] + root,
        ) by {
            if crate::chartext::spec_contains_sub(ls[i], w) && t == 0 {
                lemma_line_suffix(
                    ls.update(i, crate::chartext::spec_replace_all(ls[i], w, rp)),
                    root,
                );
            } else if crate::chartext::spec_contains_sub(ls[i], w) {
                assert(whole[t] == rest[t - 1]);
            } else {
                assert(whole[t] == rest[t]);
            }
        }
    }
}

proof fn lemma_replace_suffix(ls: Seq<Seq<char>>, w: Seq<char>, rp: Seq<char>, root: Seq<char>)
    ensures
        forall|t: int|
            0 <= t < replace_spec(ls, w, rp, root).len() ==> ends_with(
                #[trigger] replace_spec(ls, w, rp, root)[t],
                seq!['.'] + root,
            ),
{
    lemma_replace_from_suffix(ls, w, rp, root, 0);
}

proof fn lemma_shift_pass_suffix(ls: Seq<Seq<char>>, n: int, root: Seq<char>, i: int)
    ensures
        forall|t: int|
            0 <= t < shift_pass(ls, n, root, i).len() ==> ends_with(
                #[trigger] shift_pass(ls, n, root, i)[t],
                seq!['.'] + root,
            ),
    decreases ls.len() - i,
{
    if 0 <= i < ls.len() {
        lemma_shift_pass_suffix(ls, n, root, i + 1);
        let rest = shift_pass(ls, n, root, i + 1);
        let whole = shift_pass(ls, n, root, i);
        assert forall|t: int| 0 <= t < whole.len() implies ends_with(
            whole[t],
            seq!['.'] + root,
        ) by {
            if crate::mutate::shift_ok(ls[i], n) && t == 0 {
                lemma_line_suffix(ls.update(i, crate::mutate::shifted_label(ls[i], n)), root);
            } else if crate::mutate::shift_ok(ls[i], n) {
                assert(whole[t] == rest[t - 1]);
            } else {
                assert(whole[t] == rest[t]);
            }
        }
    }
}

proof fn lemma_shifts_suffix(ls: Seq<Seq<char>>, range: int, root: Seq<char>, n: int)
    ensures
        forall|t: int|
            0 <= t < shifts_from(ls, range, root, n).len() ==> ends_with(
                #[trigger] shifts_from(ls, range, root, n)[t],
                seq!['.'] + root,
            ),
    decreases range + 1 - n,
{
    if n <= range {
        lemma_shifts_suffix(ls, range, root, n + 1);
        let head: Seq<Seq<char>> = if n == 0 {
            Seq::empty()
        } else {
            shift_pass(ls, n, root, 0)
        };
        let rest = shifts_from(ls, range, root, n + 1);
        let whole = shifts_from(ls, range, root, n);
        lemma_shift_pass_suffix(ls, n, root, 0);
        assert forall|t: int| 0 <= t < whole.len() implies ends_with(
            whole[t],
            seq!['.'] + root,
        ) by {
            if t < head.len() {
                assert(whole[t] == head[t]);
            } else {
                assert(whole[t] == rest[t - head.len()]);
            }
        }
    }
}

proof fn lemma_strat6_suffix(
    ls: Seq<Seq<char>>,
    w: Seq<char>,
    ws: Seq<Seq<char>>,
    root: Seq<char>,
    j: int,
)
    ensures
        forall|t: int|
            0 <= t < strat6_from(ls, w, ws, root, j).len() ==> ends_with(
                #[trigger] strat6_from(ls, w, ws, root, j)[t],
                seq!['.'] + root,
            ),
    decreases ws.len() - j,
{
    if 0 <= j < ws.len() {
        lemma_strat6_suffix(ls, w, ws, root, j + 1);
        let head: Seq<Seq<char>> = if ws[j] != w {
            replace_spec(ls, w, ws[j], root)
        } else {
            Seq::empty()
        };
        let rest = strat6_from(ls, w, ws, root, j + 1);
        let whole = strat6_from(ls, w, ws, root, j);
        lemma_replace_suffix(ls, w, ws[j], root);
        assert forall|t: int| 0 <= t < whole.len() implies ends_with(
            whole[t],
            seq!['.'] + root,
        ) by {
            if t < head.len() {
                assert(whole[t] == head[t]);
            } else {
                assert(whole[t] == rest[t - head.len()]);
            }
        }
    }
}

#[verifier::rlimit(50)]
proof fn lemma_word_lines_suffix(
    ls: Seq<Seq<char>>,
    sub: Seq<char>,
    w: Seq<char>,
    ws: Seq<Seq<char>>,
    fl: Seq<bool>,
    root: Seq<char>,
)
    ensures
        forall|t: int|
            0 <= t < word_lines(ls, sub, w, ws, fl, root).len() ==> ends_with(
                #[trigger] word_lines(ls, sub, w, ws, fl, root)[t],
                seq!['.'] + root,
            ),
{
    lemma_perm_suffix(ls, w, root, Combiner::Dash, 0);
    lemma_perm_suffix(ls, w, root, Combiner::RDash, 0);
    lemma_perm_suffix(ls, w, root, Combiner::Concat, 0);
    lemma_perm_suffix(ls, w, root, Combiner::RConcat, 0);
    lemma_insert_suffix(ls, w, root);
    lemma_strat6_suffix(ls, w, ws, root, 0);
    let a0: Seq<Seq<char>> = if fl[0] {
        perm_spec(ls, w, root, Combiner::Dash)
    } else {
        Seq::empty()
    };
    let a1: Seq<Seq<char>> = if fl[1] {
        perm_spec(ls, w, root, Combiner::RDash)
    } else {
        Seq::empty()
    };
    let a2: Seq<Seq<char>> = if fl[2] {
        perm_spec(ls, w, root, Combiner::Concat)
    } else {
        Seq::empty()
    };
    let a3: Seq<Seq<char>> = if fl[3] {
        perm_spec(ls, w, root, Combiner::RConcat)
    } else {
        Seq::empty()
    };
    let a4: Seq<Seq<char>> = if fl[4] {
        insert_spec(ls, w, root)
    } else {
        Seq::empty()
    };
    let a5: Seq<Seq<char>> = if fl[5] {
        strat6_lines(ls, sub, w, ws, root)
    } else {
        Seq::empty()
    };
    let whole = word_lines(ls, sub, w, ws, fl, root);
    assert forall|t: int| 0 <= t < whole.len() implies ends_with(whole[t], seq!['.'] + root) by {
        let b0 = a0.len() as int;
        let b1 = b0 + a1.len();
        let b2 = b1 + a2.len();
        let b3 = b2 + a3.len();
        let b4 = b3 + a4.len();
        if t < b0 {
            assert(whole[t] == a0[t]);
        } else if t < b1 {
            assert(whole[t] == a1[t - b0]);
        } else if t < b2 {
            assert(whole[t] == a2[t - b1]);
        } else if t < b3 {
            assert(whole[t] == a3[t - b2]);
        } else if t < b4 {
            assert(whole[t] == a4[t - b3]);
        } else {
            assert(whole[t] == a5[t - b4]);
        }
    }
}

proof fn lemma_words_from_suffix(
    ls: Seq<Seq<char>>,
    sub: Seq<char>,
    ws: Seq<Seq<char>>,
    fl: Seq<bool>,
    root: Seq<char>,
    j: int,
)
    ensures
        forall|t: int|
            0 <= t < words_from(ls, sub, ws, fl, root, j).len() ==> ends_with(
                #[trigger] words_from(ls, sub, ws, fl, root, j)[t],
                seq!['.'] + root,
            ),
    decreases ws.len() - j,
{
    if 0 <= j < ws.len() {
        lemma_words_from_suffix(ls, sub, ws, fl, root, j + 1);
        lemma_word_lines_suffix(ls, sub, ws[j], ws, fl, root);
        let head = word_lines(ls, sub, ws[j], ws, fl, root);
        let rest = words_from(ls, sub, ws, fl, root, j + 1);
        let whole = words_from(ls, sub, ws, fl, root, j);
        assert forall|t: int| 0 <= t < whole.len() implies ends_with(
            whole[t],
            seq!['.'] + root,
        ) by {
            if t < head.len() {
                assert(whole[t] == head[t]);
            } else {
                assert(whole[t] == rest[t - head.len()]);
            }
        }
    }
}

proof fn lemma_entry_lines_suffix(
    e: EntryView,
    ws: Seq<Seq<char>>,
    fl: Seq<bool>,
    range: int,
    root: Seq<char>,
)
    ensures
        forall|t: int|
            0 <= t < entry_lines(e, ws, fl, range, root).len() ==> entry_lines(
                e,
                ws,
                fl,
                range,
                root,
            )[t] == e.line || ends_with(
                #[trigger] entry_lines(e, ws, fl, range, root)[t],
                seq!['.'] + root,
            ),
{
    let whole = entry_lines(e, ws, fl, range, root);
    if !has_char(e.line, '_') {
        match e.sub {
            None => {
                assert forall|t: int| 0 <= t < whole.len() implies whole[t] == e.line || ends_with(
                    whole[t],
                    seq!['.'] + root,
                ) by {
                    assert(whole[t] == e.line);
                }
            },
            Some(sub) => {
                let ls = spec_split(sub, '.');
                lemma_words_from_suffix(ls, sub, ws, fl, root, 0);
                lemma_shifts_suffix(ls, range, root, -range);
                let wpart = words_from(ls, sub, ws, fl, root, 0);
                let npart: Seq<Seq<char>> = if fl[6] {
                    numshift_spec(ls, range, root)
                } else {
                    Seq::empty()
                };
                assert forall|t: int| 0 <= t < whole.len() implies whole[t] == e.line || ends_with(
                    whole[t],
                    seq!['.'] + root,
                ) by {
                    if t == 0 {
                        assert(whole[0] == e.line);
                    } else if t <= wpart.len() {
                        assert(whole[t] == (seq![e.line] + (wpart + npart))[t]);
                        assert(whole[t] == wpart[t - 1]);
                    } else {
                        assert(whole[t] == npart[t - 1 - wpart.len()]);
                    }
                }
            },
        }
    }
}

proof fn lemma_domain_lines_suffix(
    es: Seq<EntryView>,
    ws: Seq<Seq<char>>,
    fl: Seq<bool>,
    range: int,
    root: Seq<char>,
    i: int,
)
    ensures
        forall|t: int|
            0 <= t < domain_lines_from(es, ws, fl, range, root, i).len() ==> (exists|k: int|
                0 <= k < es.len() && domain_lines_from(es, ws, fl, range, root, i)[t] == es[k].line)
                || ends_with(
                #[trigger] domain_lines_from(es, ws, fl, range, root, i)[t],
                seq!['.'] + root,
            ),
    decreases es.len() - i,
{
    if 0 <= i < es.len() {
        lemma_domain_lines_suffix(es, ws, fl, range, root, i + 1);
        lemma_entry_lines_suffix(es[i], ws, fl, range, root);
        let head = entry_lines(es[i], ws, fl, range, root);
        let rest = domain_lines_from(es, ws, fl, range, root, i + 1);
        let whole = domain_lines_from(es, ws, fl, range, root, i);
        assert forall|t: int| 0 <= t < whole.len() implies (exists|k: int|
            0 <= k < es.len() && whole[t] == es[k].line) || ends_with(
            whole[t],
            seq!['.'] + root,
        ) by {
            if t < head.len() {
                assert(whole[t] == head[t]);
                if head[t] == es[i].line {
                    assert(0 <= i < es.len() && whole[t] == es[i].line);
                }
            } else {
                assert(whole[t] == rest[t - head.len()]);
            }
        }
    }
}

proof fn lemma_top_from_shape(ws: Seq<Seq<char>>, root: Seq<char>, j: int)
    requires
        0 <= j <= ws.len(),
    ensures
        top_from(ws, root, j).len() == ws.len() - j,
        forall|t: int|
            0 <= t < ws.len() - j ==> #[trigger] top_from(ws, root, j)[t] == ws[j + t] + seq!['.']
                + root,
    decreases ws.len() - j,
{
    if j < ws.len() {
        lemma_top_from_shape(ws, root, j + 1);
        let whole = top_from(ws, root, j);
        let rest = top_from(ws, root, j + 1);
        assert forall|t: int| 0 <= t < ws.len() - j implies whole[t] == ws[j + t] + seq!['.']
            + root by {
            if t > 0 {
                assert(whole[t] == rest[t - 1]);
            }
        }
    }
}

/// Root freezing: every output line is either an echoed input line or a
/// candidate that ends in a dot followed by the frozen root — the root of
/// the first accepted domain that has a subdomain. No later domain's root
/// appears.
pub proof fn lemma_root_frozen(es: Seq<EntryView>, ws: Seq<Seq<char>>, fl: Seq<bool>, range: int)
    ensures
        forall|t: int|
            0 <= t < run_spec(es, ws, fl, range).len() ==> (exists|k: int|
                0 <= k < es.len() && run_spec(es, ws, fl, range)[t] == es[k].line) || ends_with(
                #[trigger] run_spec(es, ws, fl, range)[t],
                seq!['.'] + frozen_root(es),
            ),
{
    let root = frozen_root(es);
    let dpart = domain_lines_from(es, ws, fl, range, root, 0);
    let tpart = top_from(ws, root, 0);
    lemma_domain_lines_suffix(es, ws, fl, range, root, 0);
    lemma_top_from_shape(ws, root, 0);
    let whole = run_spec(es, ws, fl, range);
    assert forall|t: int| 0 <= t < whole.len() implies (exists|k: int|
        0 <= k < es.len() && whole[t] == es[k].line) || ends_with(
        whole[t],
        seq!['.'] + root,
    ) by {
        if t < dpart.len() {
            assert(whole[t] == dpart[t]);
        } else {
            assert(whole[t] == tpart[t - dpart.len()]);
            let x = ws[t - dpart.len()] + seq!['.'] + root;
            assert(x.skip(x.len() - (seq!['.'] + root).len()) =~= seq!['.'] + root);
        }
    }
}

/// Top-level insertion: the final lines of a run, after the per-domain
/// candidates, are exactly one `word.root` line per corpus word, in corpus
/// order, under the frozen root.
pub proof fn lemma_top_level_insertion(
    es: Seq<EntryView>,
    ws: Seq<Seq<char>>,
    fl: Seq<bool>,
    range: int,
)
    ensures
        run_spec(es, ws, fl, range).len() == domain_lines_from(
            es,
            ws,
            fl,
            range,
            frozen_root(es),
            0,
        ).len() + ws.len(),
        forall|j: int|
            0 <= j < ws.len() ==> run_spec(es, ws, fl, range)[domain_lines_from(
                es,
                ws,
                fl,
                range,
                frozen_root(es),
                0,
            ).len() + j] == #[trigger] ws[j] + seq!['.'] + frozen_root(es),
{
    lemma_top_from_shape(ws, frozen_root(es), 0);
}

} // verus!
