use regex_dfa::pipeline::full_pipeline;

fn reachable_states(d: &regex_dfa::dfa::DFA) -> usize {
    let mut seen = vec![d.start];
    let mut i = 0;
    while i < seen.len() {
        if let Some(row) = d.transitions.get(&seen[i]) {
            for (_, t) in row {
                if !seen.contains(t) {
                    seen.push(*t);
                }
            }
        }
        i += 1;
    }
    seen.len()
}

fn check(pattern: &str, accept: &[&str], reject: &[&str]) {
    let out = full_pipeline(pattern).unwrap();
    for w in accept {
        assert!(out.mindfa.accepts(w), "{} should accept {:?}", pattern, w);
        assert!(out.dfa.accepts(w), "{} should accept {:?}", pattern, w);
    }
    for w in reject {
        assert!(!out.mindfa.accepts(w), "{} should reject {:?}", pattern, w);
        assert!(!out.dfa.accepts(w), "{} should reject {:?}", pattern, w);
    }
}

#[test]
fn pipeline_atom_a() {
    let out = full_pipeline("a").unwrap();
    let m = out.mindfa;
    assert!(m.accepts("a"), "Should accept {:?}", "a");
    for r in ["", "b", "aa"] {
        assert!(!m.accepts(r), "Should reject {:?}", r);
    }
}

#[test]
fn pipeline_union() {
    let out = full_pipeline("a+b").unwrap();
    let m = out.mindfa;
    for a in ["a", "b"] {
        assert!(m.accepts(a), "Should accept {:?}", a);
    }
    for r in ["", "ab", "ba"] {
        assert!(!m.accepts(r), "Should reject {:?}", r);
    }
}

#[test]
fn pipeline_concat() {
    let out = full_pipeline("ab").unwrap();
    let m = out.mindfa;
    assert!(m.accepts("ab"), "Should accept {:?}", "ab");
    for r in ["", "a", "b", "aba"] {
        assert!(!m.accepts(r), "Should reject {:?}", r);
    }
}

#[test]
fn pipeline_star() {
    let out = full_pipeline("a*").unwrap();
    let m = out.mindfa;
    for a in ["", "a", "aa"] {
        assert!(m.accepts(a), "Should accept {:?}", a);
    }
    for r in ["b", "ab"] {
        assert!(!m.accepts(r), "Should reject {:?}", r);
    }
}

#[test]
fn end_to_end_scenarios() {
    check("a", &["a"], &["", "b", "aa"]);
    check("a+b", &["a", "b"], &["", "ab", "ba"]);
    check("ab", &["ab"], &["", "a", "b", "aba"]);
    check("a*", &["", "a", "aa", "aaa"], &["b", "ab"]);
    check("(a+b)*c", &["c", "ac", "bc", "abac", "bbbbc"], &["", "a", "cc", "cab"]);
}

#[test]
fn minimizing_star_pattern_keeps_behaviour_and_does_not_grow() {
    let out = full_pipeline("(a+b)*c").unwrap();
    for w in ["c", "ac", "bc", "abac", "bbbbc", "", "a", "cc", "cab"] {
        assert_eq!(out.mindfa.accepts(w), out.dfa.accepts(w), "{:?}", w);
    }
    assert!(reachable_states(&out.mindfa) <= reachable_states(&out.dfa));
    assert_eq!(reachable_states(&out.mindfa), 2);
}

#[test]
fn pipeline_reports_bad_input() {
    assert_eq!(full_pipeline("a#").err().unwrap(), "Unexpected character in regex: #");
    assert_eq!(full_pipeline("(a").err().unwrap(), "Parse error: UnexpectedEnd");
    assert_eq!(full_pipeline("a)").err().unwrap(), "Parse error: UnexpectedToken(RParen)");
}
