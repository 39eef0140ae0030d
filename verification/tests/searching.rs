use rustdoc_seeker::acceptor::{Acceptor, Intersection, Lifted, Prefix, StartsWith, Subsequence, Union};
use rustdoc_seeker::decoder::{decode, IndexItem, Package, SearchIndex};
use rustdoc_seeker::pattern::{EditDistance, PatternError, RegexAcceptor};
use rustdoc_seeker::seeker::KeyRange;
use rustdoc_seeker::{DocItem, RustDoc, RustDocSeeker, TypeItem};

fn doc(ty: u32, name: &str, path: &str) -> DocItem {
    DocItem::new(TypeItem::new(ty, name.to_string()), None, path.to_string(), String::new())
}

fn seeker_of(names: &[&str]) -> RustDocSeeker {
    RustDoc::new(names.iter().map(|n| doc(5, n, "pkg")).collect()).build()
}

fn names(found: &[&DocItem]) -> Vec<String> {
    found.iter().map(|d| d.name.name.clone()).collect()
}

fn sample() -> RustDocSeeker {
    seeker_of(&[
        "spawn",
        "spawns",
        "spwn",
        "spawning",
        "join",
        "try_join",
        "try_join_all",
        "dedup",
        "dedup_by",
        "io",
        "",
    ])
}

fn run<A: Acceptor>(acc: &A, key: &[u8]) -> bool {
    let mut state = acc.start();
    for b in key {
        state = acc.accept(&state, *b);
    }
    acc.is_match(&state)
}

fn async_std() -> RustDocSeeker {
    let item = |name: &str, path: &str, desc: &str| IndexItem {
        ty: 23,
        name: name.to_string(),
        path: path.to_string(),
        desc: desc.to_string(),
        parent_idx: None,
        search_type: None,
    };
    let package = Package {
        name: "async_std".to_string(),
        index: SearchIndex {
            doc: "Async version of the Rust standard library".to_string(),
            items: vec![
                item("main", "async_std", "Enables an async main function."),
                item("test", "", "Enables an async test function."),
            ],
            paths: vec![],
        },
    };
    decode(&vec![package]).unwrap().build()
}

#[test]
fn index_groups_entries_by_key() {
    let set = RustDoc::new(vec![
        doc(5, "spawn", "b"),
        doc(14, "spawn", "a"),
        doc(5, "spawn", "a"),
        doc(5, "spawns", "a"),
        doc(5, "join", "a"),
        doc(5, "spa", "a"),
    ]);
    let seeker = set.build();
    let listed: Vec<(&str, &str)> =
        seeker.items().iter().map(|d| (d.name.name.as_str(), d.path.as_str())).collect();
    assert_eq!(
        listed,
        vec![("join", "a"), ("spa", "a"), ("spawn", "a"), ("spawn", "b"), ("spawn", "a"), ("spawns", "a")]
    );
    assert_eq!(
        seeker.key_ranges(),
        &vec![
            KeyRange { start: 0, end: 1, shared: 0, next: 4 },
            KeyRange { start: 1, end: 2, shared: 0, next: 4 },
            KeyRange { start: 2, end: 5, shared: 3, next: 4 },
            KeyRange { start: 5, end: 6, shared: 5, next: 4 },
        ]
    );
}

#[test]
fn rows_know_where_a_walk_may_skip_to() {
    let seeker = seeker_of(&["a", "ab", "abc", "abd", "abde", "ac", "b", "ba", "bab", "c"]);
    assert_eq!(
        seeker.key_ranges(),
        &vec![
            KeyRange { start: 0, end: 1, shared: 0, next: 10 },
            KeyRange { start: 1, end: 2, shared: 1, next: 6 },
            KeyRange { start: 2, end: 3, shared: 2, next: 5 },
            KeyRange { start: 3, end: 4, shared: 2, next: 5 },
            KeyRange { start: 4, end: 5, shared: 3, next: 5 },
            KeyRange { start: 5, end: 6, shared: 1, next: 6 },
            KeyRange { start: 6, end: 7, shared: 0, next: 10 },
            KeyRange { start: 7, end: 8, shared: 1, next: 9 },
            KeyRange { start: 8, end: 9, shared: 2, next: 9 },
            KeyRange { start: 9, end: 10, shared: 0, next: 10 },
        ]
    );
    let single = seeker_of(&["only"]);
    assert_eq!(single.key_ranges(), &vec![KeyRange { start: 0, end: 1, shared: 0, next: 1 }]);
}

fn expect_like_reading_every_key<A: Acceptor>(seeker: &RustDocSeeker, acc: &A, what: &str) {
    let expected: Vec<&DocItem> =
        seeker.items().iter().filter(|d| run(acc, d.name.name.as_bytes())).collect();
    assert_eq!(seeker.search(acc), expected, "{}", what);
}

#[test]
fn search_agrees_with_reading_every_key() {
    let mut keys: Vec<String> = Vec::new();
    let mut seed: u32 = 12345;
    for _ in 0..400 {
        let mut key = String::new();
        seed = seed.wrapping_mul(1103515245).wrapping_add(12345);
        let len = (seed >> 16) % 7;
        for _ in 0..len {
            seed = seed.wrapping_mul(1103515245).wrapping_add(12345);
            key.push(['a', 'b', 'c', '\u{e9}'][((seed >> 16) % 4) as usize]);
        }
        keys.push(key);
    }
    let entries: Vec<DocItem> = keys
        .iter()
        .enumerate()
        .map(|(i, k)| doc(if i % 3 == 0 { 5 } else { 14 }, k, if i % 2 == 0 { "p" } else { "q" }))
        .collect();
    let seeker = RustDoc::new(entries).build();
    for text in ["", "a", "b", "ab", "abc", "ca", "cc", "bca", "\u{e9}", "a\u{e9}", "abcabc", "d"] {
        expect_like_reading_every_key(&seeker, &Prefix::new(text), text);
        expect_like_reading_every_key(&seeker, &Subsequence::new(text), text);
        expect_like_reading_every_key(&seeker, &StartsWith::new(Prefix::new(text)), text);
        for distance in 0..3 {
            let lev = EditDistance::new(text, distance).unwrap();
            expect_like_reading_every_key(&seeker, &lev, text);
            expect_like_reading_every_key(&seeker, &StartsWith::new(lev), text);
        }
        for other in ["b", "ac", "\u{e9}c"] {
            let both = Intersection::new(Prefix::new(text), Subsequence::new(other));
            expect_like_reading_every_key(&seeker, &both, text);
            let either = Union::new(Prefix::new(text), EditDistance::new(other, 1).unwrap());
            expect_like_reading_every_key(&seeker, &either, text);
        }
    }
    for pattern in ["", "a", "a.*", ".*a", "ab|ba", "(a|b)+", "[ab]c?", "a..", "b.*c", "\u{e9}+", "c{2,3}", "z"] {
        let re = RegexAcceptor::new(pattern).unwrap();
        expect_like_reading_every_key(&seeker, &re, pattern);
        let both = Intersection::new(RegexAcceptor::new(pattern).unwrap(), Prefix::new("a"));
        expect_like_reading_every_key(&seeker, &both, pattern);
        expect_like_reading_every_key(&seeker, &StartsWith::new(re), pattern);
    }
}

#[test]
fn building_twice_gives_the_same_index() {
    let entries = vec![doc(5, "b", "x"), doc(5, "a", "y"), doc(5, "b", "w"), doc(6, "a", "y")];
    let mut reversed = entries.clone();
    reversed.reverse();
    let one = RustDoc::new(entries).build();
    let two = RustDoc::new(reversed).build();
    assert_eq!(one.items(), two.items());
    assert_eq!(one.key_ranges(), two.key_ranges());
    assert_eq!(one, two);
}

#[test]
fn prefix_search_finds_the_keys_that_begin_with_it() {
    let seeker = sample();
    assert_eq!(names(&seeker.search_prefix("spaw")), vec!["spawn", "spawning", "spawns"]);
    assert_eq!(names(&seeker.search_prefix("try_join")), vec!["try_join", "try_join_all"]);
    assert_eq!(names(&seeker.search_prefix("try_join_all_")), Vec::<String>::new());
    assert_eq!(names(&seeker.search_prefix("x")), Vec::<String>::new());
    assert_eq!(names(&seeker.search_prefix("io")), vec!["io"]);
}

#[test]
fn empty_prefix_finds_everything() {
    let seeker = sample();
    let all = seeker.search_prefix("");
    assert_eq!(all.len(), 11);
    let listed: Vec<&DocItem> = seeker.items().iter().collect();
    assert_eq!(all, listed);
    assert_eq!(all[0].name.name, "");
}

#[test]
fn prefix_search_agrees_with_starts_with_for_every_key() {
    let seeker = sample();
    for p in ["", "s", "sp", "spa", "spw", "d", "dedup", "dedup_", "j", "t", "z", "spawning!"] {
        let found = names(&seeker.search_prefix(p));
        let expected: Vec<String> = seeker
            .items()
            .iter()
            .filter(|d| d.name.name.starts_with(p))
            .map(|d| d.name.name.clone())
            .collect();
        assert_eq!(found, expected, "prefix {:?}", p);
    }
}

#[test]
fn subsequence_search_finds_try_join_all_but_not_join() {
    let seeker = sample();
    assert_eq!(names(&seeker.search_subsequence("try_join")), vec!["try_join", "try_join_all"]);
    assert_eq!(names(&seeker.search_subsequence("tjl")), vec!["try_join_all"]);
    assert_eq!(names(&seeker.search_subsequence("sn")), vec!["spawn", "spawning", "spawns", "spwn"]);
    assert_eq!(names(&seeker.search_subsequence("ns")), vec!["spawns"]);
    assert_eq!(seeker.search_subsequence("").len(), 11);
}

#[test]
fn edit_distance_search_stays_within_the_bound() {
    let seeker = sample();
    let found = names(&seeker.search_edist("spawn", 1).unwrap());
    assert_eq!(found, vec!["spawn", "spawns", "spwn"]);
    assert_eq!(names(&seeker.search_edist("spawn", 0).unwrap()), vec!["spawn"]);
    let three = names(&seeker.search_edist("spawn", 3).unwrap());
    assert_eq!(three, vec!["spawn", "spawning", "spawns", "spwn"]);
    assert_eq!(names(&seeker.search_edist("dedap", 1).unwrap()), vec!["dedup"]);
}

#[test]
fn edit_distance_counts_characters_not_bytes() {
    let seeker = seeker_of(&["caf\u{e9}", "cafe", "caf", "cafes\u{e9}"]);
    assert_eq!(names(&seeker.search_edist("cafe", 1).unwrap()), vec!["caf", "cafe", "caf\u{e9}"]);
}

#[test]
fn edit_distance_beyond_the_ceiling_fails() {
    let seeker = sample();
    let text = "the quick brown fox jumps over the lazy dog and keeps on running";
    let r = seeker.search_edist(text, 40);
    assert_eq!(r, Err(PatternError::InvalidDistance { text: text.to_string(), distance: 40 }));
    assert!(matches!(EditDistance::new(text, 40), Err(PatternError::InvalidDistance { .. })));
}

#[test]
fn greatest_edit_distance_is_refused() {
    let seeker = sample();
    assert_eq!(
        seeker.search_edist("a", u32::MAX),
        Err(PatternError::InvalidDistance { text: "a".to_string(), distance: u32::MAX })
    );
    assert_eq!(
        EditDistance::new("", u32::MAX).err(),
        Some(PatternError::InvalidDistance { text: String::new(), distance: u32::MAX })
    );
    assert_eq!(seeker.search_edist("", 0).map(|found| names(&found)), Ok(vec![String::new()]));
}

#[test]
fn regex_search_matches_whole_keys() {
    let seeker = sample();
    assert_eq!(names(&seeker.search_regex("dedup.*").unwrap()), vec!["dedup", "dedup_by"]);
    assert_eq!(names(&seeker.search_regex(".*io.*").unwrap()), vec!["io"]);
    assert_eq!(names(&seeker.search_regex("spawn").unwrap()), vec!["spawn"]);
    assert_eq!(names(&seeker.search_regex("sp.?wns?").unwrap()), vec!["spawn", "spawns", "spwn"]);
    assert_eq!(names(&seeker.search_regex("(try_)?join").unwrap()), vec!["join", "try_join"]);
    assert_eq!(names(&seeker.search_regex("").unwrap()), vec![""]);
    assert_eq!(names(&seeker.search_regex("[0-9]+").unwrap()), Vec::<String>::new());
}

#[test]
fn regex_that_does_not_compile_fails() {
    let seeker = sample();
    assert_eq!(
        seeker.search_regex("(unclosed"),
        Err(PatternError::InvalidRegex { pattern: "(unclosed".to_string() })
    );
    assert_eq!(
        seeker.search_regex("^anchored$"),
        Err(PatternError::InvalidRegex { pattern: "^anchored$".to_string() })
    );
    assert!(matches!(RegexAcceptor::new("a{"), Err(PatternError::InvalidRegex { .. })));
}

#[test]
fn compiled_results_become_acceptors() {
    let re = RegexAcceptor::from_compiled(fst_regex::Regex::new("ab*"), "ab*").unwrap();
    assert!(run(&re, b"abbb"));
    assert!(!run(&re, b"ba"));
    let bad = RegexAcceptor::from_compiled(fst_regex::Regex::new("("), "(");
    assert!(matches!(bad, Err(PatternError::InvalidRegex { pattern }) if pattern == "("));
    let lev = EditDistance::from_built(fst_levenshtein::Levenshtein::new("ab", 1), "ab", 1).unwrap();
    assert!(run(&lev, b"abc"));
    assert!(!run(&lev, b"abcd"));
}

#[test]
fn regex_acceptor_walks_its_table() {
    let re = RegexAcceptor::new("ab+c").unwrap();
    let s0 = re.start();
    assert_eq!(s0, Some(0));
    assert!(re.can_match(&s0));
    assert!(!re.is_match(&s0));
    let s1 = re.accept(&s0, b'a');
    assert!(s1.is_some());
    assert_ne!(s1, s0);
    let dead = re.accept(&s0, b'x');
    assert_eq!(dead, None);
    assert!(!re.can_match(&dead));
    assert!(!re.is_match(&dead));
    assert_eq!(re.accept(&dead, b'a'), None);
    assert!(run(&re, b"abbbc"));
    assert!(!run(&re, b"ac"));
    assert!(!run(&re, b"abcc"));
}

#[test]
fn edit_distance_acceptor_walks_its_table() {
    let lev = EditDistance::new("spawn", 1).unwrap();
    let s0 = lev.start();
    assert_eq!(s0, Some(0));
    assert!(lev.can_match(&s0));
    assert!(!lev.is_match(&s0));
    assert!(run(&lev, b"spawn"));
    assert!(run(&lev, b"spawns"));
    assert!(run(&lev, b"spwn"));
    assert!(run(&lev, b"sqawn"));
    assert!(!run(&lev, b"spawning"));
    assert!(!run(&lev, b"sp"));
    let mut state = s0;
    for b in b"zzz" {
        state = lev.accept(&state, *b);
    }
    assert_eq!(state, None);
    assert!(!lev.can_match(&state));
}

#[test]
fn union_finds_what_either_finds() {
    let seeker = sample();
    let a = names(&seeker.search(&Subsequence::new("join")));
    let b = names(&seeker.search(&Prefix::new("spawn")));
    let both = names(&seeker.search(&Union::new(Subsequence::new("join"), Prefix::new("spawn"))));
    assert_eq!(a, vec!["join", "try_join", "try_join_all"]);
    assert_eq!(b, vec!["spawn", "spawning", "spawns"]);
    assert_eq!(both, vec!["join", "spawn", "spawning", "spawns", "try_join", "try_join_all"]);
    let with_regex = Union::new(Subsequence::new("try_join"), RegexAcceptor::new(".*io.*").unwrap());
    assert_eq!(names(&seeker.search(&with_regex)), vec!["io", "try_join", "try_join_all"]);
}

#[test]
fn intersection_finds_what_both_find() {
    let seeker = sample();
    let acc = Intersection::new(Prefix::new("sp"), Subsequence::new("wn"));
    assert_eq!(names(&seeker.search(&acc)), vec!["spawn", "spawning", "spawns", "spwn"]);
    let acc = Intersection::new(Prefix::new("spa"), EditDistance::new("spawn", 1).unwrap());
    assert_eq!(names(&seeker.search(&acc)), vec!["spawn", "spawns"]);
    let none = Intersection::new(Prefix::new("join"), Prefix::new("try"));
    assert_eq!(seeker.search(&none).len(), 0);
}

#[test]
fn union_and_intersection_agree_with_the_two_searches() {
    let seeker = sample();
    let patterns = ["", "s", "sp", "join", "n", "_", "dedup", "zz"];
    for p in patterns {
        for q in patterns {
            let a = names(&seeker.search(&Prefix::new(p)));
            let b = names(&seeker.search(&Subsequence::new(q)));
            let all: Vec<String> = seeker.items().iter().map(|d| d.name.name.clone()).collect();
            let either: Vec<String> =
                all.iter().filter(|n| a.contains(n) || b.contains(n)).cloned().collect();
            let each: Vec<String> =
                all.iter().filter(|n| a.contains(n) && b.contains(n)).cloned().collect();
            let u = Union::new(Prefix::new(p), Subsequence::new(q));
            let i = Intersection::new(Prefix::new(p), Subsequence::new(q));
            assert_eq!(names(&seeker.search(&u)), either, "union of {:?} and {:?}", p, q);
            assert_eq!(names(&seeker.search(&i)), each, "intersection of {:?} and {:?}", p, q);
        }
    }
}

#[test]
fn starts_with_lifts_to_longer_keys() {
    let seeker = sample();
    let exact = EditDistance::new("spawn", 1).unwrap();
    assert_eq!(names(&seeker.search(&exact)), vec!["spawn", "spawns", "spwn"]);
    let lifted = StartsWith::new(EditDistance::new("spawn", 1).unwrap());
    assert_eq!(names(&seeker.search(&lifted)), vec!["spawn", "spawning", "spawns", "spwn"]);
    let lifted = StartsWith::new(RegexAcceptor::new("try_j").unwrap());
    assert_eq!(names(&seeker.search(&lifted)), vec!["try_join", "try_join_all"]);
    let lifted = StartsWith::new(Intersection::new(Subsequence::new("dd"), Subsequence::new("e")));
    assert_eq!(names(&seeker.search(&lifted)), vec!["dedup", "dedup_by"]);
    let everything = StartsWith::new(Prefix::new(""));
    assert_eq!(seeker.search(&everything).len(), 11);
}

#[test]
fn starts_with_states_stop_at_the_first_match() {
    let acc = StartsWith::new(Prefix::new("ab"));
    let s0 = acc.start();
    assert_eq!(s0, Lifted::Running(Some(0)));
    let s1 = acc.accept(&s0, b'a');
    assert_eq!(s1, Lifted::Running(Some(1)));
    let s2 = acc.accept(&s1, b'b');
    assert_eq!(s2, Lifted::Done);
    assert!(acc.is_match(&s2));
    assert_eq!(acc.accept(&s2, b'z'), Lifted::Done);
    let dead = acc.accept(&s0, b'z');
    assert_eq!(dead, Lifted::Running(None));
    assert!(!acc.can_match(&dead));
    assert!(!acc.is_match(&dead));
    assert_eq!(StartsWith::new(Prefix::new("")).start(), Lifted::Done);
}

#[test]
fn prefix_and_subsequence_states_count_matched_bytes() {
    let p = Prefix::new("ab");
    assert_eq!(p.text, b"ab".to_vec());
    assert_eq!(p.start(), Some(0));
    assert_eq!(p.accept(&Some(0), b'a'), Some(1));
    assert_eq!(p.accept(&Some(1), b'b'), Some(2));
    assert_eq!(p.accept(&Some(2), b'x'), Some(2));
    assert_eq!(p.accept(&Some(1), b'x'), None);
    assert_eq!(p.accept(&None, b'a'), None);
    assert!(p.is_match(&Some(2)));
    assert!(!p.is_match(&Some(1)));
    assert!(!p.can_match(&None));
    let s = Subsequence::new("ab");
    assert_eq!(s.start(), 0);
    assert_eq!(s.accept(&0, b'b'), 0);
    assert_eq!(s.accept(&0, b'a'), 1);
    assert_eq!(s.accept(&1, b'a'), 1);
    assert_eq!(s.accept(&1, b'b'), 2);
    assert_eq!(s.accept(&2, b'b'), 2);
    assert!(s.is_match(&2));
    assert!(!s.is_match(&1));
    assert!(s.can_match(&0));
    let u = Union::new(Prefix::new("a"), Subsequence::new("b"));
    assert_eq!(u.start(), (Some(0), 0));
    assert_eq!(u.accept(&(Some(0), 0), b'b'), (None, 1));
    assert!(u.is_match(&(None, 1)));
    assert!(u.can_match(&(None, 1)));
    let i = Intersection::new(Prefix::new("a"), Subsequence::new("b"));
    assert_eq!(i.accept(&(Some(0), 0), b'b'), (None, 1));
    assert!(!i.is_match(&(None, 1)));
    assert!(!i.can_match(&(None, 1)));
    assert!(i.is_match(&(Some(1), 1)));
}

#[test]
fn search_yields_all_entries_of_a_key_in_their_order() {
    let set = RustDoc::new(vec![
        doc(5, "read", "std::io"),
        doc(5, "read", "std::fs"),
        doc(11, "read", "std::io"),
        doc(5, "ready", "std::task"),
        doc(5, "write", "std::io"),
    ]);
    let seeker = set.build();
    let found = seeker.search(&RegexAcceptor::new("read").unwrap());
    let listed: Vec<(u64, &str)> =
        found.iter().map(|d| (d.name.kind.rank_number(), d.path.as_str())).collect();
    assert_eq!(listed, vec![(5, "std::fs"), (5, "std::io"), (11, "std::io")]);
    let found = seeker.search_prefix("read");
    assert_eq!(found.len(), 4);
    assert_eq!(found[3].name.name, "ready");
}

#[test]
fn search_resumes_from_shared_prefixes() {
    let seeker = seeker_of(&["a", "ab", "abc", "abd", "abde", "ac", "b", "ba", "bab", "c"]);
    assert_eq!(names(&seeker.search(&RegexAcceptor::new("ab.*").unwrap())), vec!["ab", "abc", "abd", "abde"]);
    assert_eq!(names(&seeker.search(&RegexAcceptor::new("ab.").unwrap())), vec!["abc", "abd"]);
    assert_eq!(names(&seeker.search(&RegexAcceptor::new("b|abde|c").unwrap())), vec!["abde", "b", "c"]);
    assert_eq!(names(&seeker.search(&RegexAcceptor::new(".a.*").unwrap())), vec!["ba", "bab"]);
    assert_eq!(names(&seeker.search_subsequence("b")), vec!["ab", "abc", "abd", "abde", "b", "ba", "bab"]);
    assert_eq!(names(&seeker.search_edist("ab", 1).unwrap()), vec!["a", "ab", "abc", "abd", "ac", "b", "bab"]);
}

#[test]
fn search_handles_names_beyond_ascii() {
    let seeker = seeker_of(&["na\u{ef}ve", "naive", "\u{4e2d}\u{6587}", "\u{4e2d}", "z"]);
    let all: Vec<String> = seeker.items().iter().map(|d| d.name.name.clone()).collect();
    assert_eq!(all, vec!["naive", "na\u{ef}ve", "z", "\u{4e2d}", "\u{4e2d}\u{6587}"]);
    assert_eq!(names(&seeker.search_prefix("\u{4e2d}")), vec!["\u{4e2d}", "\u{4e2d}\u{6587}"]);
    assert_eq!(names(&seeker.search_prefix("na")), vec!["naive", "na\u{ef}ve"]);
    assert_eq!(names(&seeker.search_regex("na.ve").unwrap()), vec!["naive", "na\u{ef}ve"]);
    assert_eq!(names(&seeker.search_subsequence("\u{ef}e")), vec!["na\u{ef}ve"]);
}

#[test]
fn empty_index_answers_every_search_with_nothing() {
    let seeker = RustDoc::new(vec![]).build();
    assert_eq!(seeker.items().len(), 0);
    assert_eq!(seeker.key_ranges().len(), 0);
    assert_eq!(seeker.search_prefix("").len(), 0);
    assert_eq!(seeker.search_prefix("a").len(), 0);
    assert_eq!(seeker.search_subsequence("a").len(), 0);
    assert_eq!(seeker.search_regex(".*"), Ok(vec![]));
    assert_eq!(seeker.search_edist("spawn", 2), Ok(vec![]));
    assert_eq!(seeker.search(&Union::new(Prefix::new(""), Subsequence::new(""))).len(), 0);
    assert_eq!(seeker.search(&StartsWith::new(Prefix::new(""))).len(), 0);
    assert!(seeker.search_regex("(").is_err());
}

#[test]
fn async_std_index_answers_prefix_and_subsequence() {
    let seeker = async_std();
    let found = seeker.search_prefix("ma");
    assert_eq!(found.len(), 1);
    assert_eq!(found[0].name.name, "main");
    assert_eq!(found[0].path, "async_std");
    assert_eq!(found[0].desc, "Enables an async main function.");
    let found = seeker.search_subsequence("tst");
    assert_eq!(found.len(), 1);
    assert_eq!(found[0].name.name, "test");
    assert_eq!(found[0].path, "async_std");
    assert_eq!(found[0].desc, "Enables an async test function.");
}
