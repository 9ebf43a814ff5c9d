//! Rules: a pattern, a plan for storing what its matches capture, and a
//! replacement for every match; their validation and their application to
//! the chunks of a document.

use vstd::prelude::*;
use vstd::string::*;
use crate::pattern::{Pattern, compiles, match_count, expansion, replaced_all};
use crate::store::{VariableStore, StoreView, store_in};
use crate::store::{replace_at, push_deep};
use crate::structure::Content;

verus! {

/// Where an expanded value goes in its variable's slot.
#[derive(Clone, Copy, PartialEq, Eq, Structural, Debug)]
pub enum StorageAction {
    /// Overwrite the scalar.
    StoreSingle,
    /// Append to the list.
    StoreVector,
    /// Bind the expanded key to the value in the keyed scalar map.
    StoreMapSingle,
    /// Append the value to the list under the expanded key.
    StoreMapVector,
}

/// The action that a rule file names `name`.
pub open spec fn action_named(name: Seq<char>) -> Option<StorageAction> {
    if name == "store_single"@ {
        Some(StorageAction::StoreSingle)
    } else if name == "store_vector"@ {
        Some(StorageAction::StoreVector)
    } else if name == "store_map_single"@ {
        Some(StorageAction::StoreMapSingle)
    } else if name == "store_map_vector"@ {
        Some(StorageAction::StoreMapVector)
    } else {
        None
    }
}

impl StorageAction {
    /// The action named `name` in a rule file.
    pub fn from_name(name: &String) -> (r: Option<StorageAction>)
        ensures
            r == action_named(name@),
    {
        if *name == String::from_str("store_single") {
            Some(StorageAction::StoreSingle)
        } else if *name == String::from_str("store_vector") {
            Some(StorageAction::StoreVector)
        } else if *name == String::from_str("store_map_single") {
            Some(StorageAction::StoreMapSingle)
        } else if *name == String::from_str("store_map_vector") {
            Some(StorageAction::StoreMapVector)
        } else {
            None
        }
    }
}

/// One storage step of a rule: `replace` and `key` are templates expanded
/// against each match.
pub struct StorageSpec {
    pub action: StorageAction,
    pub replace: String,
    pub variable: String,
    pub key: String,
}

/// A rule: every match of `regex` is stored as `storage` says, then
/// replaced by the expansion of `replace`.
pub struct RuleSpec {
    pub name: String,
    pub regex: String,
    pub replace: String,
    pub storage: Vec<StorageSpec>,
}

/// What went wrong, as mathematical values.
pub enum Failure {
    InvalidPattern(Seq<char>, Seq<char>),
    InvalidVariableName(Seq<char>, Seq<char>),
    InvalidCapturedKey(Seq<char>, Seq<char>),
    UndefinedVariable(Seq<char>),
    UndefinedKey(Seq<char>, Seq<char>),
    EmptyVariable(Seq<char>),
    SubstitutionLimitExceeded,
}

/// The errors of loading rules, applying them, and substituting variables.
#[derive(Debug)]
pub enum EngineError {
    /// A rule's pattern does not compile: the rule's name and the pattern.
    InvalidPattern { rule: String, pattern: String },
    /// A storage variable is not an identifier: the rule's name and the name.
    InvalidVariableName { rule: String, variable: String },
    /// A key expanded from a match is not an identifier: the rule's name and the key.
    InvalidCapturedKey { rule: String, key: String },
    /// A placeholder names a variable that was never written.
    UndefinedVariable { name: String },
    /// A keyed placeholder names a key that neither keyed map holds.
    UndefinedKey { name: String, key: String },
    /// A plain placeholder names a variable whose every shape is empty.
    EmptyVariable { name: String },
    /// A chunk still held placeholders after the most substitutions allowed.
    SubstitutionLimitExceeded,
}

impl View for EngineError {
    type V = Failure;

    open spec fn view(&self) -> Failure {
        match self {
            EngineError::InvalidPattern { rule, pattern } => Failure::InvalidPattern(rule@, pattern@),
            EngineError::InvalidVariableName { rule, variable } => Failure::InvalidVariableName(
                rule@,
                variable@,
            ),
            EngineError::InvalidCapturedKey { rule, key } => Failure::InvalidCapturedKey(rule@, key@),
            EngineError::UndefinedVariable { name } => Failure::UndefinedVariable(name@),
            EngineError::UndefinedKey { name, key } => Failure::UndefinedKey(name@, key@),
            EngineError::EmptyVariable { name } => Failure::EmptyVariable(name@),
            EngineError::SubstitutionLimitExceeded => Failure::SubstitutionLimitExceeded,
        }
    }
}

pub open spec fn is_ident_char(c: char) -> bool {
    ('a' <= c && c <= 'z') || ('A' <= c && c <= 'Z') || ('0' <= c && c <= '9') || c == '_'
}

/// A name made of one or more ASCII letters, digits and underscores.
pub open spec fn is_identifier(s: Seq<char>) -> bool {
    s.len() > 0 && forall|i: int| 0 <= i < s.len() ==> is_ident_char(#[trigger] s[i])
}

/// Tells whether `s` is an identifier.
pub fn is_identifier_str(s: &str) -> (r: bool)
    ensures
        r == is_identifier(s@),
{
    let n = s.unicode_len();
    if n == 0 {
        return false;
    }
    let mut i: usize = 0;
    while i < n
        invariant
            n == s@.len(),
            i <= n,
            forall|j: int| 0 <= j < i ==> is_ident_char(#[trigger] s@[j]),
        decreases n - i,
    {
        let c = s.get_char(i);
        if !(('a' <= c && c <= 'z') || ('A' <= c && c <= 'Z') || ('0' <= c && c <= '9') || c == '_') {
            assert(!is_ident_char(s@[i as int]));
            return false;
        }
        i = i + 1;
    }
    true
}

/// The first of the first `n` storage variables of `rule` that is not an
/// identifier.
pub open spec fn bad_variable(rule: RuleSpec, n: nat) -> Option<Seq<char>>
    decreases n,
{
    if n == 0 {
        None
    } else {
        match bad_variable(rule, (n - 1) as nat) {
            Some(v) => Some(v),
            None => if !is_identifier(rule.storage@[n - 1].variable@) {
                Some(rule.storage@[n - 1].variable@)
            } else {
                None
            },
        }
    }
}

/// What is wrong with a rule, if anything: its pattern first, then its
/// storage variables in order.
pub open spec fn rule_problem(rule: RuleSpec) -> Option<Failure> {
    if !compiles(rule.regex@) {
        Some(Failure::InvalidPattern(rule.name@, rule.regex@))
    } else {
        match bad_variable(rule, rule.storage.len() as nat) {
            Some(v) => Some(Failure::InvalidVariableName(rule.name@, v)),
            None => None,
        }
    }
}

/// The first problem among the first `n` rules.
pub open spec fn rules_problem(rules: Seq<RuleSpec>, n: nat) -> Option<Failure>
    decreases n,
{
    if n == 0 {
        None
    } else {
        match rules_problem(rules, (n - 1) as nat) {
            Some(f) => Some(f),
            None => rule_problem(rules[n - 1]),
        }
    }
}

pub(crate) proof fn lemma_bad_variable_sticks(rule: RuleSpec, n: nat, m: nat)
    requires
        n <= m,
        bad_variable(rule, n) is Some,
    ensures
        bad_variable(rule, m) == bad_variable(rule, n),
    decreases m - n,
{
    if n < m {
        lemma_bad_variable_sticks(rule, n, (m - 1) as nat);
    }
}

pub(crate) proof fn lemma_rules_problem_sticks(rules: Seq<RuleSpec>, n: nat, m: nat)
    requires
        n <= m,
        rules_problem(rules, n) is Some,
    ensures
        rules_problem(rules, m) == rules_problem(rules, n),
    decreases m - n,
{
    if n < m {
        lemma_rules_problem_sticks(rules, n, (m - 1) as nat);
    }
}

/// A validated, ordered list of rules.
pub struct RuleSpecContainer {
    rules: Vec<RuleSpec>,
}

impl RuleSpecContainer {
    pub closed spec fn view(&self) -> Seq<RuleSpec> {
        self.rules@
    }

    /// Every rule's pattern compiles and every storage variable is an identifier.
    pub open spec fn wf(&self) -> bool {
        rules_problem(self.view(), self.view().len()) is None
    }

    /// Checks every rule in order and reports the first problem.
    pub fn validate_rules(rsc: &RuleSpecContainer) -> (r: Result<(), EngineError>)
        ensures
            r is Ok <==> rules_problem(rsc.view(), rsc.view().len()) is None,
            r matches Err(e) ==> Some(e@) == rules_problem(rsc.view(), rsc.view().len()),
    {
        check_rules(&rsc.rules)
    }

    /// Validates `rules` and wraps them, or reports the first problem.
    pub fn from_rules(rules: Vec<RuleSpec>) -> (r: Result<RuleSpecContainer, EngineError>)
        ensures
            r is Ok <==> rules_problem(rules@, rules@.len()) is None,
            r matches Ok(c) ==> c.view() == rules@ && c.wf(),
            r matches Err(e) ==> Some(e@) == rules_problem(rules@, rules@.len()),
    {
        match check_rules(&rules) {
            Ok(()) => Ok(RuleSpecContainer { rules }),
            Err(e) => Err(e),
        }
    }

    /// The rules, in order.
    pub fn rules(&self) -> (r: &Vec<RuleSpec>)
        ensures
            r@ == self.view(),
    {
        &self.rules
    }
}

fn check_rules(rules: &Vec<RuleSpec>) -> (r: Result<(), EngineError>)
    ensures
        r is Ok <==> rules_problem(rules@, rules@.len()) is None,
        r matches Err(e) ==> Some(e@) == rules_problem(rules@, rules@.len()),
{
    let mut i: usize = 0;
    while i < rules.len()
        invariant
            i <= rules.len(),
            rules_problem(rules@, i as nat) is None,
        decreases rules.len() - i,
    {
        let rule = &rules[i];
        assert(rule == rules@[i as int]);
        if Pattern::compile(rule.regex.as_str()).is_none() {
            proof {
                lemma_rules_problem_sticks(rules@, (i + 1) as nat, rules@.len());
            }
            return Err(EngineError::InvalidPattern { rule: rule.name.clone(), pattern: rule.regex.clone() });
        }
        let mut s: usize = 0;
        while s < rule.storage.len()
            invariant
                i < rules.len(),
                *rule == rules@[i as int],
                rules_problem(rules@, i as nat) is None,
                compiles(rule.regex@),
                s <= rule.storage.len(),
                bad_variable(*rule, s as nat) is None,
            decreases rule.storage.len() - s,
        {
            if !is_identifier_str(rule.storage[s].variable.as_str()) {
                proof {
                    lemma_bad_variable_sticks(*rule, (s + 1) as nat, rule.storage.len() as nat);
                    lemma_rules_problem_sticks(rules@, (i + 1) as nat, rules@.len());
                }
                return Err(
                    EngineError::InvalidVariableName {
                        rule: rule.name.clone(),
                        variable: rule.storage[s].variable.clone(),
                    },
                );
            }
            s = s + 1;
        }
        assert(rules_problem(rules@, (i + 1) as nat) is None);
        i = i + 1;
    }
    Ok(())
}

pub open spec fn is_digit(c: char) -> bool {
    '0' <= c && c <= '9'
}

/// The end of the run of digits that starts at `k`.
pub open spec fn digits_end(t: Seq<char>, k: int) -> int
    decreases t.len() - k,
{
    if 0 <= k < t.len() && is_digit(t[k]) {
        digits_end(t, k + 1)
    } else {
        k
    }
}

/// A rule template from position `i` on, in the regex crate's syntax: each
/// back-reference `\N` (a backslash and a run of digits) becomes `${N}`;
/// everything else is kept.
pub open spec fn template_from(t: Seq<char>, i: int) -> Seq<char>
    decreases t.len() - i,
{
    if i < 0 || i >= t.len() {
        Seq::empty()
    } else if t[i] == '\\' && i + 1 < t.len() && is_digit(t[i + 1]) {
        if i + 1 < digits_end(t, i + 1) <= t.len() {
            "${"@ + t.subrange(i + 1, digits_end(t, i + 1)) + "}"@ + template_from(t, digits_end(t, i + 1))
        } else {
            Seq::empty()
        }
    } else {
        seq![t[i]] + template_from(t, i + 1)
    }
}

/// A rule template in the regex crate's syntax.
pub open spec fn regex_template(t: Seq<char>) -> Seq<char> {
    template_from(t, 0)
}

proof fn lemma_digits_end(t: Seq<char>, k: int)
    requires
        0 <= k,
    ensures
        k <= digits_end(t, k) <= if k <= t.len() { t.len() as int } else { k },
        k < t.len() && is_digit(t[k]) ==> digits_end(t, k) > k,
    decreases t.len() - k,
{
    if 0 <= k < t.len() && is_digit(t[k]) {
        lemma_digits_end(t, k + 1);
    }
}

/// Rewrites the back-references `\N` of a rule template as `${N}`.
pub fn to_regex_template(t: &str) -> (r: String)
    ensures
        r@ == regex_template(t@),
{
    let n = t.unicode_len();
    let mut r = String::new();
    let mut i: usize = 0;
    while i < n
        invariant
            n == t@.len(),
            i <= n,
            r@ + template_from(t@, i as int) == regex_template(t@),
        decreases n - i,
    {
        let c = t.get_char(i);
        if c == '\\' && i + 1 < n && '0' <= t.get_char(i + 1) && t.get_char(i + 1) <= '9' {
            let mut j: usize = i + 1;
            while j < n && '0' <= t.get_char(j) && t.get_char(j) <= '9'
                invariant
                    n == t@.len(),
                    i + 1 <= j <= n,
                    digits_end(t@, j as int) == digits_end(t@, (i + 1) as int),
                decreases n - j,
            {
                j = j + 1;
            }
            proof {
                lemma_digits_end(t@, (i + 1) as int);
            }
            assert(digits_end(t@, j as int) == j);
            let ghost before = r@;
            r.append("${");
            r.append(t.substring_char(i + 1, j));
            r.append("}");
            assert(r@ + template_from(t@, j as int) =~= before + template_from(t@, i as int));
            i = j;
        } else {
            let ghost before = r@;
            r.append(t.substring_char(i, i + 1));
            assert(t@.subrange(i as int, i + 1) =~= seq![t@[i as int]]);
            assert(r@ + template_from(t@, i + 1) =~= before + template_from(t@, i as int));
            i = i + 1;
        }
    }
    assert(r@ =~= r@ + template_from(t@, n as int));
    r
}

/// The key template of storage step `s` expanded against match `m`.
pub open spec fn key_of(rule: RuleSpec, text: Seq<char>, m: int, s: int) -> Seq<char> {
    expansion(rule.regex@, text, m, regex_template(rule.storage@[s].key@))
}

/// The value template of storage step `s` expanded against match `m`.
pub open spec fn value_of(rule: RuleSpec, text: Seq<char>, m: int, s: int) -> Seq<char> {
    expansion(rule.regex@, text, m, regex_template(rule.storage@[s].replace@))
}

/// `t` holds, for each of the first `n` storage steps, its key template and
/// then its value template.
pub open spec fn templates_ok(t: Seq<Seq<char>>, storage: Seq<StorageSpec>, n: int) -> bool {
    &&& t.len() == 2 * n
    &&& forall|j: int| 0 <= j < n ==> t[2 * j] == regex_template(#[trigger] storage[j].key@)
    &&& forall|j: int| 0 <= j < n ==> t[2 * j + 1] == regex_template(#[trigger] storage[j].replace@)
}

/// A store, and the failure that stopped the work that produced it, if any.
pub type Outcome = (StoreView, Option<Failure>);

/// The first `s` storage steps of `rule` for match `m` of `text`.
pub open spec fn capture_match(st: StoreView, rule: RuleSpec, text: Seq<char>, m: int, s: nat) -> Outcome
    decreases s,
{
    if s == 0 {
        (st, None)
    } else {
        let p = capture_match(st, rule, text, m, (s - 1) as nat);
        let key = key_of(rule, text, m, s - 1);
        let sp = rule.storage@[s - 1];
        if p.1 is Some {
            p
        } else if !is_identifier(key) {
            (p.0, Some(Failure::InvalidCapturedKey(rule.name@, key)))
        } else {
            (store_in(p.0, sp.variable@, sp.action, key, value_of(rule, text, m, s - 1)), None)
        }
    }
}

/// Every storage step of `rule` for the first `m` matches of `text`.
pub open spec fn capture_matches(st: StoreView, rule: RuleSpec, text: Seq<char>, m: nat) -> Outcome
    decreases m,
{
    if m == 0 {
        (st, None)
    } else {
        let p = capture_matches(st, rule, text, (m - 1) as nat);
        if p.1 is Some {
            p
        } else {
            capture_match(p.0, rule, text, m - 1, rule.storage.len() as nat)
        }
    }
}

/// The capture step of `rule` over all of `text`.
pub open spec fn capture_chunk(st: StoreView, rule: RuleSpec, text: Seq<char>) -> Outcome {
    capture_matches(st, rule, text, match_count(rule.regex@, text))
}

/// The capture step of `rule` over the first `c` chunks.
pub open spec fn capture_chunks(st: StoreView, rule: RuleSpec, chunks: Seq<Seq<char>>, c: nat) -> Outcome
    decreases c,
{
    if c == 0 {
        (st, None)
    } else {
        let p = capture_chunks(st, rule, chunks, (c - 1) as nat);
        if p.1 is Some {
            p
        } else {
            capture_chunk(p.0, rule, chunks[c - 1])
        }
    }
}

/// The chunks with every match of `rule` replaced.
pub open spec fn rewrite(rule: RuleSpec, chunks: Seq<Seq<char>>) -> Seq<Seq<char>> {
    chunks.map_values(|t: Seq<char>| replaced_all(rule.regex@, t, regex_template(rule.replace@)))
}

/// Rule application stopped in chunk `c`: the capture of the chunks before
/// it succeeded and theirs were rewritten; the capture of chunk `c` failed,
/// and it and the chunks after it are as they were.
pub open spec fn stopped_in_chunk(
    st: StoreView,
    rule: RuleSpec,
    before: Seq<Seq<char>>,
    after: Seq<Seq<char>>,
    c: int,
) -> bool {
    &&& 0 <= c < before.len()
    &&& after.len() == before.len()
    &&& capture_chunks(st, rule, before, c as nat).1 is None
    &&& capture_chunks(st, rule, before, (c + 1) as nat).1 is Some
    &&& forall|j: int|
        0 <= j < c ==> #[trigger] after[j] == replaced_all(rule.regex@, before[j], regex_template(rule.replace@))
    &&& forall|j: int| c <= j < before.len() ==> #[trigger] after[j] == before[j]
}

/// What a failed application of `rule` leaves of the chunks `before`: all of
/// them where the pattern does not compile, else the chunks as they stand
/// when the capture of one chunk failed.
pub open spec fn failed_rule_content(st: StoreView, rule: RuleSpec, before: Seq<Seq<char>>, after: Seq<Seq<char>>) -> bool {
    if !compiles(rule.regex@) {
        after == before
    } else {
        exists|c: int| stopped_in_chunk(st, rule, before, after, c)
    }
}

/// Applies a sequence of rules, from `rules[0]` to `rules[n - 1]`: the
/// store, the chunks, and the failure that stopped the run, if any (the
/// chunks are meaningful only where there is none).
pub open spec fn apply_all(st: StoreView, rules: Seq<RuleSpec>, chunks: Seq<Seq<char>>, n: nat) -> (
    StoreView,
    Seq<Seq<char>>,
    Option<Failure>,
)
    decreases n,
{
    if n == 0 {
        (st, chunks, None)
    } else {
        let p = apply_all(st, rules, chunks, (n - 1) as nat);
        let rule = rules[n - 1];
        if p.2 is Some {
            p
        } else if !compiles(rule.regex@) {
            (p.0, p.1, Some(Failure::InvalidPattern(rule.name@, rule.regex@)))
        } else {
            let o = capture_chunks(p.0, rule, p.1, p.1.len());
            (o.0, rewrite(rule, p.1), o.1)
        }
    }
}

proof fn lemma_match_error_sticks(st: StoreView, rule: RuleSpec, text: Seq<char>, m: int, a: nat, b: nat)
    requires
        a <= b,
        capture_match(st, rule, text, m, a).1 is Some,
    ensures
        capture_match(st, rule, text, m, b) == capture_match(st, rule, text, m, a),
    decreases b - a,
{
    if a < b {
        lemma_match_error_sticks(st, rule, text, m, a, (b - 1) as nat);
    }
}

proof fn lemma_matches_error_sticks(st: StoreView, rule: RuleSpec, text: Seq<char>, a: nat, b: nat)
    requires
        a <= b,
        capture_matches(st, rule, text, a).1 is Some,
    ensures
        capture_matches(st, rule, text, b) == capture_matches(st, rule, text, a),
    decreases b - a,
{
    if a < b {
        lemma_matches_error_sticks(st, rule, text, a, (b - 1) as nat);
    }
}

proof fn lemma_chunks_error_sticks(st: StoreView, rule: RuleSpec, chunks: Seq<Seq<char>>, a: nat, b: nat)
    requires
        a <= b,
        capture_chunks(st, rule, chunks, a).1 is Some,
    ensures
        capture_chunks(st, rule, chunks, b) == capture_chunks(st, rule, chunks, a),
    decreases b - a,
{
    if a < b {
        lemma_chunks_error_sticks(st, rule, chunks, a, (b - 1) as nat);
    }
}

proof fn lemma_apply_all_error_sticks(st: StoreView, rules: Seq<RuleSpec>, chunks: Seq<Seq<char>>, a: nat, b: nat)
    requires
        a <= b,
        apply_all(st, rules, chunks, a).2 is Some,
    ensures
        apply_all(st, rules, chunks, b) == apply_all(st, rules, chunks, a),
    decreases b - a,
{
    if a < b {
        lemma_apply_all_error_sticks(st, rules, chunks, a, (b - 1) as nat);
    }
}

/// Runs rules over content, keeping the variables that their matches store.
pub struct RulesEngine {
    pub(crate) variables: VariableStore,
}

impl RulesEngine {
    pub closed spec fn view(&self) -> StoreView {
        self.variables.view()
    }

    pub closed spec fn wf(&self) -> bool {
        self.variables.wf()
    }

    pub(crate) proof fn lemma_store(&self)
        ensures
            self.view() == self.variables.view(),
            self.wf() == self.variables.wf(),
    {
    }

    /// An engine with no variables.
    pub fn new() -> (r: RulesEngine)
        ensures
            r.wf(),
            r.view() == Seq::<(Seq<char>, crate::store::SlotView)>::empty(),
    {
        RulesEngine { variables: VariableStore::new() }
    }

    /// The variables stored so far.
    pub fn variables(&self) -> (r: &VariableStore)
        ensures
            r.view() == self.view(),
            self.wf() ==> r.wf(),
    {
        &self.variables
    }

    /// Applies one rule to every chunk: for each chunk, every match is first
    /// stored as the rule's storage plan says, then every match is replaced.
    /// Stores made before a failure are kept.
    pub fn apply_rule(&mut self, rule: &RuleSpec, content: &mut Content) -> (r: Result<(), EngineError>)
        requires
            old(self).wf(),
        ensures
            final(self).wf(),
            final(content)@.len() == old(content)@.len(),
            !compiles(rule.regex@) ==> {
                &&& r matches Err(e) && e@ == Failure::InvalidPattern(rule.name@, rule.regex@)
                &&& final(self).view() == old(self).view()
                &&& final(content)@ == old(content)@
            },
            compiles(rule.regex@) ==> {
                let o = capture_chunks(old(self).view(), *rule, old(content)@, old(content)@.len());
                &&& final(self).view() == o.0
                &&& r is Ok <==> o.1 is None
                &&& r matches Err(e) ==> o.1 == Some(e@)
                &&& r is Ok ==> final(content)@ == rewrite(*rule, old(content)@)
                &&& r is Ok ==> forall|c: int|
                    0 <= c < old(content)@.len() && match_count(rule.regex@, old(content)@[c]) == 0
                        ==> #[trigger] final(content)@[c] == old(content)@[c]
            },
            r is Err ==> failed_rule_content(old(self).view(), *rule, old(content)@, final(content)@),
    {
        let pat = match Pattern::compile(rule.regex.as_str()) {
            Some(p) => p,
            None => {
                return Err(EngineError::InvalidPattern { rule: rule.name.clone(), pattern: rule.regex.clone() });
            },
        };
        let n = rule.storage.len();
        let mut templates: Vec<String> = Vec::new();
        let mut s: usize = 0;
        while s < n
            invariant
                n == rule.storage.len(),
                s <= n,
                templates_ok(templates.deep_view(), rule.storage@, s as int),
            decreases n - s,
        {
            push_deep(&mut templates, to_regex_template(rule.storage[s].key.as_str()));
            push_deep(&mut templates, to_regex_template(rule.storage[s].replace.as_str()));
            s = s + 1;
        }
        let replacement = to_regex_template(rule.replace.as_str());
        let ghost st0 = self.view();
        let ghost chunks0 = content@;
        let mut c: usize = 0;
        while c < content.chunks.len()
            invariant
                self.wf(),
                pat@ == rule.regex@,
                replacement@ == regex_template(rule.replace@),
                compiles(rule.regex@),
                chunks0 == old(content)@,
                st0 == old(self).view(),
                n == rule.storage.len(),
                templates_ok(templates.deep_view(), rule.storage@, n as int),
                content@.len() == chunks0.len(),
                c <= chunks0.len(),
                forall|j: int| c <= j < chunks0.len() ==> #[trigger] content@[j] == chunks0[j],
                forall|j: int| 0 <= j < c ==> #[trigger] content@[j] == replaced_all(rule.regex@, chunks0[j], regex_template(rule.replace@)),
                forall|j: int|
                    0 <= j < c && match_count(rule.regex@, chunks0[j]) == 0 ==> #[trigger] content@[j] == chunks0[j],
                (self.view(), None::<Failure>) == capture_chunks(st0, *rule, chunks0, c as nat),
            decreases chunks0.len() - c,
        {
            let ghost text = chunks0[c as int];
            assert(content@[c as int] == content.chunks@[c as int]@);
            assert(content.chunks[c as int]@ == text);
            let rows = pat.expand_matches(content.chunks[c].as_str(), &templates);
            let ghost base = self.view();
            let mut m: usize = 0;
            while m < rows.len()
                invariant
                    self.wf(),
                    pat@ == rule.regex@,
                    n == rule.storage.len(),
                    c < chunks0.len(),
                    chunks0 == old(content)@,
                    st0 == old(self).view(),
                    compiles(rule.regex@),
                    content@.len() == chunks0.len(),
                    forall|j: int| c <= j < chunks0.len() ==> #[trigger] content@[j] == chunks0[j],
                    forall|j: int| 0 <= j < c ==> #[trigger] content@[j] == replaced_all(rule.regex@, chunks0[j], regex_template(rule.replace@)),
                    forall|j: int|
                        0 <= j < c && match_count(rule.regex@, chunks0[j]) == 0 ==> #[trigger] content@[j] == chunks0[j],
                    text == chunks0[c as int],
                    (base, None::<Failure>) == capture_chunks(st0, *rule, chunks0, c as nat),
                    rows.len() == match_count(rule.regex@, text),
                    forall|i: int| 0 <= i < rows.len() ==> #[trigger] rows[i].len() == templates.len(),
                    forall|i: int, j: int|
                        0 <= i < rows.len() && 0 <= j < templates.len() ==> #[trigger] rows[i][j]@
                            == expansion(rule.regex@, text, i, templates[j]@),
                    templates_ok(templates.deep_view(), rule.storage@, n as int),
                    m <= rows.len(),
                    (self.view(), None::<Failure>) == capture_matches(base, *rule, text, m as nat),
                decreases rows.len() - m,
            {
                let ghost before = self.view();
                let mut s: usize = 0;
                while s < n
                    invariant
                        self.wf(),
                        n == rule.storage.len(),
                        c < chunks0.len(),
                        chunks0 == old(content)@,
                        st0 == old(self).view(),
                        compiles(rule.regex@),
                        content@.len() == chunks0.len(),
                        forall|j: int| c <= j < chunks0.len() ==> #[trigger] content@[j] == chunks0[j],
                        forall|j: int|
                            0 <= j < c ==> #[trigger] content@[j] == replaced_all(
                                rule.regex@,
                                chunks0[j],
                                regex_template(rule.replace@),
                            ),
                        text == chunks0[c as int],
                        (base, None::<Failure>) == capture_chunks(st0, *rule, chunks0, c as nat),
                        m < rows.len(),
                        rows.len() == match_count(rule.regex@, text),
                        (before, None::<Failure>) == capture_matches(base, *rule, text, m as nat),
                        rows[m as int].len() == templates.len(),
                        forall|i: int, j: int|
                            0 <= i < rows.len() && 0 <= j < templates.len() ==> #[trigger] rows[i][j]@
                                == expansion(rule.regex@, text, i, templates[j]@),
                        templates_ok(templates.deep_view(), rule.storage@, n as int),
                        s <= n,
                        (self.view(), None::<Failure>) == capture_match(before, *rule, text, m as int, s as nat),
                    decreases n - s,
                {
                    assert(templates.deep_view()[2 * s as int] == regex_template(rule.storage@[s as int].key@));
                    assert(templates.deep_view()[2 * s + 1] == regex_template(rule.storage@[s as int].replace@));
                    let key = rows[m][2 * s].clone();
                    assert(key@ == key_of(*rule, text, m as int, s as int));
                    if !is_identifier_str(key.as_str()) {
                        proof {
                            let bad = (self.view(), Some(Failure::InvalidCapturedKey(rule.name@, key@)));
                            assert(capture_match(before, *rule, text, m as int, (s + 1) as nat) == bad);
                            lemma_match_error_sticks(before, *rule, text, m as int, (s + 1) as nat, n as nat);
                            lemma_matches_error_sticks(base, *rule, text, (m + 1) as nat, rows.len() as nat);
                            assert(capture_chunks(st0, *rule, chunks0, (c + 1) as nat) == capture_matches(
                                base,
                                *rule,
                                text,
                                rows.len() as nat,
                            ));
                            lemma_chunks_error_sticks(st0, *rule, chunks0, (c + 1) as nat, chunks0.len());
                            assert(stopped_in_chunk(st0, *rule, chunks0, content@, c as int));
                        }
                        return Err(EngineError::InvalidCapturedKey { rule: rule.name.clone(), key });
                    }
                    let value = rows[m][2 * s + 1].clone();
                    assert(value@ == value_of(*rule, text, m as int, s as int));
                    let sp = &rule.storage[s];
                    self.variables.store(&sp.variable, sp.action, key, value);
                    s = s + 1;
                }
                m = m + 1;
            }
            assert(capture_chunks(st0, *rule, chunks0, (c + 1) as nat) == capture_matches(
                base,
                *rule,
                text,
                rows.len() as nat,
            ));
            let replaced = pat.replace_all(content.chunks[c].as_str(), replacement.as_str());
            replace_at(&mut content.chunks, c, replaced);
            c = c + 1;
        }
        assert(content@ =~= rewrite(*rule, chunks0));
        Ok(())
    }

    /// Applies the rules in their order, each to the content that the one
    /// before it left; stops at the first failure.
    pub fn apply_rules(&mut self, rules: &RuleSpecContainer, content: &mut Content) -> (r: Result<
        (),
        EngineError,
    >)
        requires
            old(self).wf(),
        ensures
            final(self).wf(),
            final(content)@.len() == old(content)@.len(),
            ({
                let o = apply_all(old(self).view(), rules.view(), old(content)@, rules.view().len());
                &&& final(self).view() == o.0
                &&& r is Ok <==> o.2 is None
                &&& r matches Err(e) ==> o.2 == Some(e@)
                &&& r is Ok ==> final(content)@ == o.1
            }),
            r is Err ==> exists|j: int|
                0 <= j < rules.view().len() && #[trigger] apply_all(
                    old(self).view(),
                    rules.view(),
                    old(content)@,
                    j as nat,
                ).2 is None && apply_all(old(self).view(), rules.view(), old(content)@, (j + 1) as nat).2 is Some
                    && failed_rule_content(
                    apply_all(old(self).view(), rules.view(), old(content)@, j as nat).0,
                    rules.view()[j],
                    apply_all(old(self).view(), rules.view(), old(content)@, j as nat).1,
                    final(content)@,
                ),
    {
        let ghost st0 = self.view();
        let ghost chunks0 = content@;
        let mut i: usize = 0;
        while i < rules.rules.len()
            invariant
                self.wf(),
                i <= rules.view().len(),
                rules.rules@ == rules.view(),
                content@.len() == chunks0.len(),
                (self.view(), content@, None::<Failure>) == apply_all(st0, rules.view(), chunks0, i as nat),
                st0 == old(self).view(),
                chunks0 == old(content)@,
            decreases rules.view().len() - i,
        {
            let ghost cur = content@;
            let ghost cur_store = self.view();
            let res = self.apply_rule(&rules.rules[i], content);
            assert(rewrite(rules.view()[i as int], cur).len() == cur.len());
            match res {
                Ok(()) => {},
                Err(e) => {
                    proof {
                        lemma_apply_all_error_sticks(st0, rules.view(), chunks0, (i + 1) as nat, rules.view().len());
                        assert(failed_rule_content(cur_store, rules.view()[i as int], cur, content@));
                        assert(apply_all(st0, rules.view(), chunks0, i as nat).2 is None);
                    }
                    return Err(e);
                },
            }
            i = i + 1;
        }
        Ok(())
    }
}

} // verus!
