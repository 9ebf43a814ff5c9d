use kosbook::rules::{to_regex_template, EngineError, RuleSpec, RuleSpecContainer, RulesEngine, StorageAction, StorageSpec};
use kosbook::structure::Content;
use kosbook::substitute::join;

fn step(action: StorageAction, replace: &str, variable: &str, key: &str) -> StorageSpec {
    StorageSpec {
        action,
        replace: replace.to_string(),
        variable: variable.to_string(),
        key: key.to_string(),
    }
}

fn rule(name: &str, regex: &str, replace: &str, storage: Vec<StorageSpec>) -> RuleSpec {
    RuleSpec {
        name: name.to_string(),
        regex: regex.to_string(),
        replace: replace.to_string(),
        storage,
    }
}

fn content(chunks: &[&str]) -> Content {
    Content { chunks: chunks.iter().map(|c| c.to_string()).collect() }
}

fn names_rule() -> RuleSpec {
    rule(
        "names",
        r"@(\w+)",
        "",
        vec![step(StorageAction::StoreMapSingle, "\\1", "names", "\\1")],
    )
}

fn vector_of(engine: &RulesEngine, name: &str) -> Vec<String> {
    engine.variables().get(&name.to_string()).unwrap().vector.clone()
}

fn single_of(engine: &RulesEngine, name: &str) -> String {
    engine.variables().get(&name.to_string()).unwrap().single.clone()
}

fn map_single_of(engine: &RulesEngine, name: &str) -> Vec<(String, String)> {
    engine.variables().get(&name.to_string()).unwrap().map_single.clone()
}

fn map_vector_of(engine: &RulesEngine, name: &str) -> Vec<(String, Vec<String>)> {
    engine.variables().get(&name.to_string()).unwrap().map_vector.clone()
}

fn pair(k: &str, v: &str) -> (String, String) {
    (k.to_string(), v.to_string())
}

#[test]
fn mentions_are_stored_by_key_and_removed() {
    let mut engine = RulesEngine::new();
    let mut c = content(&["hi @bob and @alice"]);
    engine.apply_rule(&names_rule(), &mut c).unwrap();
    assert_eq!(c.chunks, vec!["hi  and ".to_string()]);
    assert_eq!(map_single_of(&engine, "names"), vec![pair("bob", "bob"), pair("alice", "alice")]);
}

#[test]
fn keyed_placeholder_resolves_stored_value() {
    let mut engine = RulesEngine::new();
    let mut c = content(&["hi @bob and @alice", "Author: {{names.bob}}"]);
    engine.apply_rule(&names_rule(), &mut c).unwrap();
    engine.substitute_vars(&mut c).unwrap();
    assert_eq!(c.chunks[1], "Author: bob");
}

#[test]
fn keyed_placeholder_with_unknown_key_fails() {
    let mut engine = RulesEngine::new();
    let mut c = content(&["hi @bob and @alice", "Author: {{names.carol}}"]);
    engine.apply_rule(&names_rule(), &mut c).unwrap();
    match engine.substitute_vars(&mut c) {
        Err(EngineError::UndefinedKey { name, key }) => {
            assert_eq!(name, "names");
            assert_eq!(key, "carol");
        },
        other => panic!("unexpected {:?}", other),
    }
}

#[test]
fn plain_placeholder_joins_list_with_blank_line() {
    let mut engine = RulesEngine::new();
    let r = rule("tags", r"#(\w+)", "", vec![step(StorageAction::StoreVector, "$1", "tags", "k")]);
    let mut c = content(&["#a #b", "{{tags}}"]);
    engine.apply_rule(&r, &mut c).unwrap();
    assert_eq!(vector_of(&engine, "tags"), vec!["a".to_string(), "b".to_string()]);
    engine.substitute_vars(&mut c).unwrap();
    assert_eq!(c.chunks[1], "a\n\nb");
}

#[test]
fn list_gets_one_entry_per_match_in_order() {
    let mut engine = RulesEngine::new();
    let r = rule("nums", r"n(\d)", "", vec![step(StorageAction::StoreVector, "$1", "nums", "k")]);
    let mut c = content(&["n3 n1 n2"]);
    engine.apply_rule(&r, &mut c).unwrap();
    assert_eq!(vector_of(&engine, "nums"), vec!["3".to_string(), "1".to_string(), "2".to_string()]);
}

#[test]
fn keyed_list_gets_one_entry_per_match_under_its_key() {
    let mut engine = RulesEngine::new();
    let r = rule(
        "pairs",
        r"(\w+)=(\w+)",
        "",
        vec![step(StorageAction::StoreMapVector, "$2", "pairs", "$1")],
    );
    let mut c = content(&["a=1 b=2 a=3"]);
    engine.apply_rule(&r, &mut c).unwrap();
    assert_eq!(
        map_vector_of(&engine, "pairs"),
        vec![
            ("a".to_string(), vec!["1".to_string(), "3".to_string()]),
            ("b".to_string(), vec!["2".to_string()]),
        ]
    );
}

#[test]
fn scalar_keeps_last_match() {
    let mut engine = RulesEngine::new();
    let r = rule("last", r"v(\d)", "", vec![step(StorageAction::StoreSingle, "$1", "last", "k")]);
    let mut c = content(&["v1 v2", "v3 v4"]);
    engine.apply_rule(&r, &mut c).unwrap();
    assert_eq!(single_of(&engine, "last"), "4");
}

#[test]
fn keyed_scalar_keeps_last_match_per_key() {
    let mut engine = RulesEngine::new();
    let r = rule(
        "pairs",
        r"(\w+)=(\w+)",
        "",
        vec![step(StorageAction::StoreMapSingle, "$2", "pairs", "$1")],
    );
    let mut c = content(&["a=1 b=2 a=3"]);
    engine.apply_rule(&r, &mut c).unwrap();
    assert_eq!(map_single_of(&engine, "pairs"), vec![pair("a", "3"), pair("b", "2")]);
}

#[test]
fn capture_ignores_replacement() {
    let storage = || vec![step(StorageAction::StoreVector, "$1", "w", "k")];
    let mut e1 = RulesEngine::new();
    let mut e2 = RulesEngine::new();
    let mut c1 = content(&["x1 x2 x3"]);
    let mut c2 = content(&["x1 x2 x3"]);
    e1.apply_rule(&rule("r", r"x(\d)", "", storage()), &mut c1).unwrap();
    e2.apply_rule(&rule("r", r"x(\d)", "X", storage()), &mut c2).unwrap();
    assert_eq!(vector_of(&e1, "w"), vector_of(&e2, "w"));
    assert_eq!(c1.chunks[0], "  ");
    assert_eq!(c2.chunks[0], "X X X");
}

#[test]
fn replacement_expands_groups() {
    let mut engine = RulesEngine::new();
    let r = rule("swap", r"(\w+)-(\w+)", "$2-$1", vec![]);
    let mut c = content(&["ab-cd ef-gh"]);
    engine.apply_rule(&r, &mut c).unwrap();
    assert_eq!(c.chunks[0], "cd-ab gh-ef");
}

#[test]
fn validation_rejects_bad_pattern() {
    match RuleSpecContainer::from_rules(vec![rule("bad", "(", "", vec![])]) {
        Err(EngineError::InvalidPattern { rule, pattern }) => {
            assert_eq!(rule, "bad");
            assert_eq!(pattern, "(");
        },
        other => panic!("unexpected {:?}", other.err()),
    }
}

#[test]
fn validation_rejects_variable_with_space_or_hyphen() {
    for v in ["bad name", "bad-name"] {
        let r = rule("r", "a", "", vec![step(StorageAction::StoreSingle, "", v, "k")]);
        match RuleSpecContainer::from_rules(vec![r]) {
            Err(EngineError::InvalidVariableName { rule, variable }) => {
                assert_eq!(rule, "r");
                assert_eq!(variable, v);
            },
            other => panic!("unexpected {:?}", other.err()),
        }
    }
}

#[test]
fn validation_accepts_good_rules() {
    let r = rule("r", r"a(\w)", "", vec![step(StorageAction::StoreSingle, "", "good_Name1", "k")]);
    let c = RuleSpecContainer::from_rules(vec![r]).unwrap();
    assert!(RuleSpecContainer::validate_rules(&c).is_ok());
    assert_eq!(c.rules().len(), 1);
}

#[test]
fn invalid_captured_key_fails() {
    let mut engine = RulesEngine::new();
    let r = rule("k", r"<(.+?)>", "", vec![step(StorageAction::StoreMapSingle, "v", "m", "$1")]);
    let mut c = content(&["<ok> <not ok>"]);
    match engine.apply_rule(&r, &mut c) {
        Err(EngineError::InvalidCapturedKey { rule, key }) => {
            assert_eq!(rule, "k");
            assert_eq!(key, "not ok");
        },
        other => panic!("unexpected {:?}", other),
    }
    assert_eq!(map_single_of(&engine, "m"), vec![pair("ok", "v")]);
}

#[test]
fn apply_rule_reports_bad_pattern() {
    let mut engine = RulesEngine::new();
    let mut c = content(&["text"]);
    assert!(matches!(
        engine.apply_rule(&rule("bad", "[", "", vec![]), &mut c),
        Err(EngineError::InvalidPattern { .. })
    ));
    assert_eq!(c.chunks[0], "text");
}

#[test]
fn rules_apply_in_order_on_earlier_output() {
    let r1 = rule("one", "a", "b", vec![]);
    let r2 = rule("two", "(b+)", "[$1]", vec![step(StorageAction::StoreVector, "$1", "bs", "k")]);
    let rules = RuleSpecContainer::from_rules(vec![r1, r2]).unwrap();
    let mut engine = RulesEngine::new();
    let mut c = content(&["aab", "xa"]);
    engine.apply_rules(&rules, &mut c).unwrap();
    assert_eq!(c.chunks, vec!["[bbb]".to_string(), "x[b]".to_string()]);
    assert_eq!(vector_of(&engine, "bs"), vec!["bbb".to_string(), "b".to_string()]);
}

#[test]
fn undefined_variable_fails() {
    let engine = RulesEngine::new();
    let mut c = content(&["{{ nothing }}"]);
    match engine.substitute_vars(&mut c) {
        Err(EngineError::UndefinedVariable { name }) => assert_eq!(name, "nothing"),
        other => panic!("unexpected {:?}", other),
    }
}

#[test]
fn undefined_variable_in_keyed_placeholder_fails() {
    let engine = RulesEngine::new();
    let mut c = content(&["{{nothing.here}}"]);
    assert!(matches!(engine.substitute_vars(&mut c), Err(EngineError::UndefinedVariable { .. })));
}

#[test]
fn empty_variable_fails() {
    let mut engine = RulesEngine::new();
    let r = rule("e", "E", "", vec![step(StorageAction::StoreSingle, "", "empty", "k")]);
    let mut c = content(&["E", "{{empty}}"]);
    engine.apply_rule(&r, &mut c).unwrap();
    match engine.substitute_vars(&mut c) {
        Err(EngineError::EmptyVariable { name }) => assert_eq!(name, "empty"),
        other => panic!("unexpected {:?}", other),
    }
}

#[test]
fn self_referencing_value_hits_limit() {
    let mut engine = RulesEngine::new();
    let r = rule("loop", "L", "", vec![step(StorageAction::StoreSingle, "{{x}}", "x", "k")]);
    let mut c = content(&["L", "{{x}}"]);
    engine.apply_rule(&r, &mut c).unwrap();
    assert!(matches!(engine.substitute_vars(&mut c), Err(EngineError::SubstitutionLimitExceeded)));
}

#[test]
fn plain_placeholder_precedence_and_whitespace() {
    let mut engine = RulesEngine::new();
    let r = rule(
        "both",
        r"(\w+)=(\w+)",
        "",
        vec![
            step(StorageAction::StoreVector, "$2", "v", "k"),
            step(StorageAction::StoreSingle, "$2", "v", "k"),
        ],
    );
    let mut c = content(&["a=1 b=2", "[{{  v }}]"]);
    engine.apply_rule(&r, &mut c).unwrap();
    engine.substitute_vars(&mut c).unwrap();
    assert_eq!(c.chunks[1], "[2]");
}

#[test]
fn plain_placeholder_renders_keyed_maps_in_key_order() {
    let mut engine = RulesEngine::new();
    let r = rule(
        "maps",
        r"(\w+)=(\w+)",
        "",
        vec![
            step(StorageAction::StoreMapSingle, "$2", "ms", "$1"),
            step(StorageAction::StoreMapVector, "$2", "mv", "$1"),
        ],
    );
    let mut c = content(&["z=1 a=2 z=3", "{{ms}}|{{mv}}"]);
    engine.apply_rule(&r, &mut c).unwrap();
    engine.substitute_vars(&mut c).unwrap();
    assert_eq!(c.chunks[1], "a: 2\n\nz: 3|a: 2\n\nz: 1 3");
}

#[test]
fn keyed_list_placeholder_joins_with_blank_line() {
    let mut engine = RulesEngine::new();
    let r = rule(
        "pairs",
        r"(\w+)=(\w+)",
        "",
        vec![step(StorageAction::StoreMapVector, "$2", "p", "$1")],
    );
    let mut c = content(&["a=1 a=2", "{{ p.a }}"]);
    engine.apply_rule(&r, &mut c).unwrap();
    engine.substitute_vars(&mut c).unwrap();
    assert_eq!(c.chunks[1], "1\n\n2");
}

#[test]
fn keyed_placeholders_resolve_before_plain_ones() {
    let mut engine = RulesEngine::new();
    let r = rule(
        "defs",
        r"(\w+):(\w+)",
        "",
        vec![
            step(StorageAction::StoreSingle, "{{m.$1}}", "s", "k"),
            step(StorageAction::StoreMapSingle, "$2", "m", "$1"),
        ],
    );
    let mut c = content(&["a:b", "{{s}}"]);
    engine.apply_rule(&r, &mut c).unwrap();
    engine.substitute_vars(&mut c).unwrap();
    assert_eq!(c.chunks[1], "{{m.a}}");
}

#[test]
fn substitution_twice_changes_nothing() {
    let mut engine = RulesEngine::new();
    let mut c = content(&["hi @bob", "By {{names.bob}} and {{ names }}"]);
    engine.apply_rule(&names_rule(), &mut c).unwrap();
    engine.substitute_vars(&mut c).unwrap();
    let once = c.chunks.clone();
    assert_eq!(once[1], "By bob and bob: bob");
    engine.substitute_vars(&mut c).unwrap();
    assert_eq!(c.chunks, once);
}

#[test]
fn join_uses_separator_between_parts() {
    let parts = vec!["a".to_string(), "b".to_string(), "c".to_string()];
    assert_eq!(join(&parts, ", "), "a, b, c");
    assert_eq!(join(&Vec::new(), ", "), "");
}

#[test]
fn action_names() {
    assert_eq!(StorageAction::from_name(&"store_single".to_string()), Some(StorageAction::StoreSingle));
    assert_eq!(StorageAction::from_name(&"store_vector".to_string()), Some(StorageAction::StoreVector));
    assert_eq!(StorageAction::from_name(&"store_map_single".to_string()), Some(StorageAction::StoreMapSingle));
    assert_eq!(StorageAction::from_name(&"store_map_vector".to_string()), Some(StorageAction::StoreMapVector));
    assert_eq!(StorageAction::from_name(&"StoreSingle".to_string()), None);
}

#[test]
fn map_contents_render_as_lines() {
    let engine = RulesEngine::new();
    let m = vec![pair("b", "2"), pair("a", "1")];
    assert_eq!(engine.construct_map_content(&m), "a: 1\n\nb: 2");
    let m2 = vec![pair("a", "1"), pair("b", "2")];
    assert_eq!(engine.construct_map_content(&m2), "a: 1\n\nb: 2");
    let mv = vec![
        ("t".to_string(), vec!["x".to_string(), "y".to_string()]),
        ("a".to_string(), vec!["z".to_string()]),
    ];
    assert_eq!(engine.construct_mapv_content(&mv), "a: z\n\nt: x y");
    let mixed = vec![pair("ab", "1"), pair("B", "2"), pair("a", "3"), pair("_", "4")];
    assert_eq!(engine.construct_map_content(&mixed), "B: 2\n\n_: 4\n\na: 3\n\nab: 1");
    assert_eq!(engine.construct_map_content(&Vec::new()), "");
}

#[test]
fn identifiers() {
    assert!(kosbook::rules::is_identifier_str("a_B9"));
    assert!(!kosbook::rules::is_identifier_str(""));
    assert!(!kosbook::rules::is_identifier_str("a b"));
    assert!(!kosbook::rules::is_identifier_str("a-b"));
    assert!(!kosbook::rules::is_identifier_str("é"));
}

#[test]
fn resolving_directly() {
    let mut engine = RulesEngine::new();
    assert!(engine.variables().get(&"names".to_string()).is_none());
    let mut c = content(&["@bob"]);
    engine.apply_rule(&names_rule(), &mut c).unwrap();
    assert_eq!(engine.resolve_keyed(&"names".to_string(), &"bob".to_string()).unwrap(), "bob");
    assert_eq!(engine.resolve_plain(&"names".to_string()).unwrap(), "bob: bob");
    assert!(matches!(
        engine.resolve_plain(&"nobody".to_string()),
        Err(EngineError::UndefinedVariable { .. })
    ));
}

#[test]
fn backreferences_become_regex_group_references() {
    assert_eq!(to_regex_template("\\1"), "${1}");
    assert_eq!(to_regex_template("a\\12b\\x\\"), "a${12}b\\x\\");
    assert_eq!(to_regex_template("$name"), "$name");
    assert_eq!(to_regex_template(""), "");
}

#[test]
fn regex_style_group_references_still_work() {
    let mut engine = RulesEngine::new();
    let r = rule("r", r"@(?<who>\w+)", "<$who>", vec![step(StorageAction::StoreVector, "${who}", "w", "k")]);
    let mut c = content(&["@bob"]);
    engine.apply_rule(&r, &mut c).unwrap();
    assert_eq!(c.chunks[0], "<bob>");
    assert_eq!(vector_of(&engine, "w"), vec!["bob".to_string()]);
}

#[test]
fn backreference_replacement_rewrites_chunk() {
    let mut engine = RulesEngine::new();
    let r = rule("swap", r"(\w+)-(\w+)", "\\2+\\1", vec![]);
    let mut c = content(&["ab-cd"]);
    engine.apply_rule(&r, &mut c).unwrap();
    assert_eq!(c.chunks[0], "cd+ab");
}

#[test]
fn chunk_without_match_is_unchanged() {
    let mut engine = RulesEngine::new();
    let mut c = content(&["nothing here", "hi @bob"]);
    engine.apply_rule(&names_rule(), &mut c).unwrap();
    assert_eq!(c.chunks[0], "nothing here");
    assert_eq!(c.chunks[1], "hi ");
}

#[test]
fn failed_rule_leaves_later_chunks_as_they_were() {
    let mut engine = RulesEngine::new();
    let r = rule("k", r"<(.+?)>", "X", vec![step(StorageAction::StoreMapSingle, "v", "m", "\\1")]);
    let mut c = content(&["<a>", "<b c>", "<d>"]);
    assert!(matches!(engine.apply_rule(&r, &mut c), Err(EngineError::InvalidCapturedKey { .. })));
    assert_eq!(c.chunks, vec!["X".to_string(), "<b c>".to_string(), "<d>".to_string()]);
}

#[test]
fn list_collects_matches_of_every_chunk_in_document_order() {
    let mut engine = RulesEngine::new();
    let r = rule("nums", r"n(\d)", "", vec![step(StorageAction::StoreVector, "\\1", "nums", "k")]);
    let mut c = content(&["n3 n1", "none", "n2"]);
    engine.apply_rule(&r, &mut c).unwrap();
    assert_eq!(vector_of(&engine, "nums"), vec!["3".to_string(), "1".to_string(), "2".to_string()]);
    assert_eq!(c.chunks[1], "none");
}
