use subperm::corpus::{generate_wordlist, remove_numbers, dedup_words};
use subperm::domain::DomainEntry;
use subperm::engine::{build_corpus, parse_modes, run, GenKind};
use subperm::mutate::{
    dash, insert_all_indexes, insert_top, modify_numbers, perm, rconcat, rdash,
    replace_word_with_word, Combiner,
};

fn s(x: &str) -> String {
    x.to_string()
}

fn entry(line: &str, sub: Option<&str>, root: Option<&str>) -> DomainEntry {
    DomainEntry {
        line: s(line),
        sub: sub.map(|x| s(x)),
        root: root.map(|x| s(x)),
    }
}

#[test]
fn combiners_join_word_and_label() {
    assert_eq!(dash("stage", "www"), "stage-www");
    assert_eq!(rdash("stage", "www"), "www-stage");
    assert_eq!(subperm::mutate::concat("stage", "www"), "stagewww");
    assert_eq!(rconcat("stage", "www"), "wwwstage");
}

#[test]
fn additive_strategy_emits_one_candidate_per_label() {
    let labels = vec![s("www"), s("api")];
    let out = perm(&labels, "dev", "example.com", Combiner::Dash);
    assert_eq!(out, vec![s("dev-www.api.example.com"), s("www.dev-api.example.com")]);
    let out = perm(&labels, "dev", "example.com", Combiner::RConcat);
    assert_eq!(out, vec![s("wwwdev.api.example.com"), s("www.apidev.example.com")]);
}

#[test]
fn additive_strategy_skips_label_equal_to_word() {
    let labels = vec![s("www"), s("api")];
    let out = perm(&labels, "www", "example.com", Combiner::Dash);
    assert_eq!(out, vec![s("www.www-api.example.com")]);
    let single = vec![s("www")];
    let out = perm(&single, "www", "example.com", Combiner::Concat);
    assert!(out.is_empty());
}

#[test]
fn positional_insert_emits_three_candidates() {
    let labels = vec![s("www"), s("api")];
    let out = insert_all_indexes(&labels, "stage", "example.com");
    assert_eq!(
        out,
        vec![
            s("stage.www.api.example.com"),
            s("www.stage.api.example.com"),
            s("www.api.stage.example.com"),
        ]
    );
}

#[test]
fn positional_insert_emits_nothing_for_existing_label() {
    let labels = vec![s("www"), s("api")];
    let out = insert_all_indexes(&labels, "www", "example.com");
    assert!(out.is_empty());
}

#[test]
fn top_level_insertion_prepends_word_under_root() {
    assert_eq!(insert_top("dev", "example.com"), "dev.example.com");
}

#[test]
fn substring_replace_replaces_all_occurrences_in_one_label() {
    let labels = vec![s("devapi"), s("www")];
    let out = replace_word_with_word(&labels, "api", "stage", "example.com");
    assert_eq!(out, vec![s("devstage.www.example.com")]);
    let doubled = vec![s("apiapi")];
    let out = replace_word_with_word(&doubled, "api", "x", "example.com");
    assert_eq!(out, vec![s("xx.example.com")]);
}

#[test]
fn substring_replace_guards_hold() {
    // a single-label subdomain exactly equal to the word never triggers it
    let single = vec![s("api")];
    let out = replace_word_with_word(&single, "api", "stage", "example.com");
    assert!(out.is_empty());
    // a replacement word already present among the labels never triggers it
    let labels = vec![s("devapi"), s("stage")];
    let out = replace_word_with_word(&labels, "api", "stage", "example.com");
    assert!(out.is_empty());
}

#[test]
fn numeric_shift_keeps_leading_zeros_of_the_run() {
    let labels = vec![s("web01")];
    let out = modify_numbers(&labels, 1, "example.com");
    assert_eq!(out, vec![s("web00.example.com"), s("web02.example.com")]);
}

#[test]
fn numeric_shift_without_padding() {
    let labels = vec![s("item9")];
    let out = modify_numbers(&labels, 1, "example.com");
    assert_eq!(out, vec![s("item8.example.com"), s("item10.example.com")]);
}

#[test]
fn numeric_shift_drops_padding_for_all_digit_labels() {
    let labels = vec![s("007")];
    let out = modify_numbers(&labels, 1, "example.com");
    assert_eq!(out, vec![s("6.example.com"), s("8.example.com")]);
}

#[test]
fn numeric_shift_skips_labels_without_digits() {
    let labels = vec![s("dev-api")];
    let out = modify_numbers(&labels, 3, "example.com");
    assert!(out.is_empty());
}

#[test]
fn numeric_shift_never_goes_negative() {
    // offsets -2 and -1 would take the value below zero and are dropped;
    // the run "0" counts one leading zero, so the results keep the padding
    let labels = vec![s("web0")];
    let out = modify_numbers(&labels, 2, "example.com");
    assert_eq!(out, vec![s("web01.example.com"), s("web02.example.com")]);
}

#[test]
fn remove_numbers_strips_trailing_digits_only() {
    assert_eq!(remove_numbers("web01"), "web");
    assert_eq!(remove_numbers("abc"), "abc");
    // a token made entirely of digits is not denumbered at all
    assert_eq!(remove_numbers("123"), "123");
    assert_eq!(remove_numbers("a1b2"), "a1b");
}

#[test]
fn wordlist_derivation_from_hyphenated_label() {
    let entries = vec![entry("dev-api.example.com", Some("dev-api"), Some("example.com"))];
    let wl: Vec<String> = Vec::new();
    let narrow = build_corpus(&entries, &wl, 1, GenKind::Narrow);
    assert!(narrow.is_empty());
    let mut middle = generate_wordlist(&entries, &wl, 1, false);
    middle.sort();
    assert_eq!(middle, vec![s("api"), s("dev")]);
    let mut wide = generate_wordlist(&entries, &wl, 1, true);
    wide.sort();
    assert_eq!(wide, vec![s("api"), s("dev"), s("dev-api")]);
}

#[test]
fn wordlist_derivation_skips_digit_pieces_and_rebuilds_joined_token() {
    let entries = vec![entry("dev-01-api.example.com", Some("dev-01-api"), Some("example.com"))];
    let wl: Vec<String> = Vec::new();
    let mut wide = generate_wordlist(&entries, &wl, 1, true);
    wide.sort();
    // "01" is all digits: dropped from pieces and from the rebuilt token
    assert_eq!(wide, vec![s("api"), s("dev"), s("dev-api")]);
}

#[test]
fn wordlist_derivation_denumbers_plain_labels() {
    let entries = vec![entry("web01.example.com", Some("web01"), Some("example.com"))];
    let wl: Vec<String> = Vec::new();
    let mut middle = generate_wordlist(&entries, &wl, 1, false);
    middle.sort();
    assert_eq!(middle, vec![s("web")]);
    let mut wide = generate_wordlist(&entries, &wl, 1, true);
    wide.sort();
    assert_eq!(wide, vec![s("web"), s("web01")]);
}

#[test]
fn wordlist_derivation_applies_minimum_length() {
    let entries = vec![entry("ab-xyz.example.com", Some("ab-xyz"), Some("example.com"))];
    let wl: Vec<String> = Vec::new();
    let mut middle = generate_wordlist(&entries, &wl, 3, false);
    middle.sort();
    assert_eq!(middle, vec![s("xyz")]);
}

#[test]
fn wordlist_derivation_skips_underscore_lines_and_all_digit_labels() {
    let entries = vec![
        entry("dev_x.example.com", Some("dev_x"), Some("example.com")),
        entry("123.example.com", Some("123"), Some("example.com")),
    ];
    let wl: Vec<String> = Vec::new();
    let out = generate_wordlist(&entries, &wl, 1, true);
    assert!(out.is_empty());
}

#[test]
fn corpus_is_deterministic_as_a_set() {
    let entries = vec![
        entry("dev-api.example.com", Some("dev-api"), Some("example.com")),
        entry("web01.stage.example.com", Some("web01.stage"), Some("example.com")),
    ];
    let wl = vec![s("seed"), s("seed"), s("dev")];
    let mut a = generate_wordlist(&entries, &wl, 1, true);
    let mut b = generate_wordlist(&entries, &wl, 1, true);
    a.sort();
    b.sort();
    assert_eq!(a, b);
    let mut w = a.clone();
    w.dedup();
    assert_eq!(a, w, "corpus holds no duplicates");
}

#[test]
fn wordlist_seed_is_deduplicated() {
    let wl = vec![s("dev"), s("stage"), s("dev")];
    assert_eq!(dedup_words(&wl), vec![s("dev"), s("stage")]);
}

#[test]
fn parse_modes_sets_the_named_flags() {
    let m = parse_modes("1,3,7").unwrap();
    assert_eq!(m.flags, vec![true, false, true, false, false, false, true]);
    let m = parse_modes("1,2,3,4,5,6,7").unwrap();
    assert_eq!(m.flags, vec![true; 7]);
}

#[test]
fn parse_modes_accepts_leading_zeros_and_plus() {
    let m = parse_modes("07,+2").unwrap();
    assert_eq!(m.flags, vec![false, true, false, false, false, false, true]);
}

#[test]
fn parse_modes_rejects_bad_tokens() {
    assert!(parse_modes("0").is_err());
    assert!(parse_modes("8").is_err());
    assert!(parse_modes("x").is_err());
    assert!(parse_modes("").is_err());
    assert!(parse_modes("1,,2").is_err());
    assert!(parse_modes("99999999999999999999").is_err());
}

#[test]
fn run_freezes_the_first_root() {
    let entries = vec![
        entry("a.example.com", Some("a"), Some("example.com")),
        entry("b.other.org", Some("b"), Some("other.org")),
    ];
    let corpus = vec![s("dev")];
    let modes = parse_modes("1").unwrap();
    let out = run(&entries, &corpus, &modes, 3);
    assert_eq!(
        out,
        vec![
            s("a.example.com"),
            s("dev-a.example.com"),
            s("b.other.org"),
            s("dev-b.example.com"),
            s("dev.example.com"),
        ]
    );
    for line in &out {
        assert!(!line.ends_with(".other.org") || line == "b.other.org");
    }
}

#[test]
fn run_emits_top_level_candidates_last() {
    let entries = vec![entry("www.example.com", Some("www"), Some("example.com"))];
    let corpus = vec![s("dev"), s("stage")];
    let modes = parse_modes("5").unwrap();
    let out = run(&entries, &corpus, &modes, 3);
    let n = out.len();
    assert_eq!(out[n - 2], "dev.example.com");
    assert_eq!(out[n - 1], "stage.example.com");
}

#[test]
fn run_minimal_narrow_case_echoes_only() {
    let entries = vec![entry("dev-api.example.com", Some("dev-api"), Some("example.com"))];
    let wl: Vec<String> = Vec::new();
    let corpus = build_corpus(&entries, &wl, 1, GenKind::Narrow);
    let modes = parse_modes("1,2,3,4,5,6,7").unwrap();
    let out = run(&entries, &corpus, &modes, 3);
    assert_eq!(out, vec![s("dev-api.example.com")]);
}

#[test]
fn run_skips_underscore_lines_entirely() {
    let entries = vec![
        entry("x_y.example.com", Some("x_y"), Some("example.com")),
        entry("www.example.com", Some("www"), Some("example.com")),
    ];
    let corpus: Vec<String> = Vec::new();
    let modes = parse_modes("1").unwrap();
    let out = run(&entries, &corpus, &modes, 3);
    assert_eq!(out, vec![s("www.example.com")]);
}

#[test]
fn run_short_word_never_triggers_substring_replace() {
    let entries = vec![entry("abc.example.com", Some("abc"), Some("example.com"))];
    let corpus = vec![s("a"), s("x")];
    let modes = parse_modes("6").unwrap();
    let out = run(&entries, &corpus, &modes, 3);
    assert_eq!(
        out,
        vec![s("abc.example.com"), s("a.example.com"), s("x.example.com")]
    );
}

#[test]
fn run_substring_replace_uses_other_corpus_words() {
    let entries = vec![entry("devapi.example.com", Some("devapi"), Some("example.com"))];
    let corpus = vec![s("api"), s("stage")];
    let modes = parse_modes("6").unwrap();
    let out = run(&entries, &corpus, &modes, 3);
    assert_eq!(
        out,
        vec![
            s("devapi.example.com"),
            s("devstage.example.com"),
            s("api.example.com"),
            s("stage.example.com"),
        ]
    );
}

#[test]
fn run_applies_numeric_shift_once_per_domain() {
    let entries = vec![entry("web1.example.com", Some("web1"), Some("example.com"))];
    let corpus: Vec<String> = Vec::new();
    let modes = parse_modes("7").unwrap();
    let out = run(&entries, &corpus, &modes, 1);
    assert_eq!(
        out,
        vec![s("web1.example.com"), s("web0.example.com"), s("web2.example.com")]
    );
}

#[test]
fn run_without_any_subdomain_echoes_and_inserts_top_with_empty_root() {
    let entries = vec![entry("example.com", None, None)];
    let corpus = vec![s("dev")];
    let modes = parse_modes("1,2,3,4,5,6,7").unwrap();
    let out = run(&entries, &corpus, &modes, 3);
    assert_eq!(out, vec![s("example.com"), s("dev.")]);
}
