//! Properties that relate several operations of the engine.

use vstd::prelude::*;
use crate::pattern::first_groups;
use crate::pattern::{match_count, compiles};
use crate::rules::{RuleSpec, StorageAction, is_identifier, rules_problem, rule_problem, bad_variable, capture_match, capture_matches, capture_chunk, capture_chunks, key_of, value_of};
use crate::store::{StoreView, SlotView, store_wf, slot_wf, slot_of, store_entry, list_at, lookup, has_key, index_of};
use crate::order::{distinct_keys, lemma_sort_ignores_order};
use crate::substitute::{render_map, render_map_lists};
use crate::store::{lemma_store_in, lemma_store_entry_wf, lemma_assign};
use crate::substitute::{
    KEYED_PLACEHOLDER,
    PLAIN_PLACEHOLDER,
    keyed_pass,
    plain_pass,
    substitute_chunk,
    substitute_chunks,
};

verus! {

/// Two rules that differ at most in their replacement.
pub open spec fn same_but_replacement(r1: RuleSpec, r2: RuleSpec) -> bool {
    &&& r1.name@ == r2.name@
    &&& r1.regex@ == r2.regex@
    &&& r1.storage@ == r2.storage@
}

proof fn lemma_match_ignores_replacement(st: StoreView, r1: RuleSpec, r2: RuleSpec, text: Seq<char>, m: int, s: nat)
    requires
        same_but_replacement(r1, r2),
    ensures
        capture_match(st, r1, text, m, s) == capture_match(st, r2, text, m, s),
    decreases s,
{
    if s > 0 {
        lemma_match_ignores_replacement(st, r1, r2, text, m, (s - 1) as nat);
    }
}

proof fn lemma_matches_ignore_replacement(st: StoreView, r1: RuleSpec, r2: RuleSpec, text: Seq<char>, m: nat)
    requires
        same_but_replacement(r1, r2),
    ensures
        capture_matches(st, r1, text, m) == capture_matches(st, r2, text, m),
    decreases m,
{
    if m > 0 {
        lemma_matches_ignore_replacement(st, r1, r2, text, (m - 1) as nat);
        let p = capture_matches(st, r1, text, (m - 1) as nat);
        lemma_match_ignores_replacement(p.0, r1, r2, text, m - 1, r1.storage.len() as nat);
    }
}

/// The capture step does not depend on the rule's replacement: two rules
/// that differ only there store the same variables, and fail alike, on the
/// same chunks.
pub proof fn lemma_capture_ignores_replacement(st: StoreView, r1: RuleSpec, r2: RuleSpec, chunks: Seq<Seq<char>>, n: nat)
    requires
        same_but_replacement(r1, r2),
    ensures
        capture_chunks(st, r1, chunks, n) == capture_chunks(st, r2, chunks, n),
    decreases n,
{
    if n > 0 {
        lemma_capture_ignores_replacement(st, r1, r2, chunks, (n - 1) as nat);
        let p = capture_chunks(st, r1, chunks, (n - 1) as nat);
        lemma_matches_ignore_replacement(
            p.0,
            r1,
            r2,
            chunks[n - 1],
            crate::pattern::match_count(r1.regex@, chunks[n - 1]),
        );
    }
}

/// A chunk in which no placeholder matches.
pub open spec fn resolved(text: Seq<char>) -> bool {
    first_groups(KEYED_PLACEHOLDER@, text) is None && first_groups(PLAIN_PLACEHOLDER@, text) is None
}

/// Substitution leaves content without placeholders as it is, whatever the
/// variables: running it again on already resolved content changes nothing.
pub proof fn lemma_substitution_fixes_resolved(st: StoreView, chunks: Seq<Seq<char>>, n: nat)
    requires
        n <= chunks.len(),
        forall|i: int| 0 <= i < chunks.len() ==> resolved(#[trigger] chunks[i]),
    ensures
        substitute_chunks(st, chunks, n) == Ok::<Seq<Seq<char>>, crate::rules::Failure>(chunks.take(n as int)),
    decreases n,
{
    if n > 0 {
        lemma_substitution_fixes_resolved(st, chunks, (n - 1) as nat);
        assert(resolved(chunks[n - 1]));
        assert(substitute_chunk(st, chunks[n - 1]) == Ok::<Seq<char>, crate::rules::Failure>(chunks[n - 1]));
        assert(chunks.take(n as int) =~= chunks.take(n - 1).push(chunks[n - 1]));
    } else {
        assert(chunks.take(0) =~= Seq::<Seq<char>>::empty());
    }
}

/// The plain pass ends only where no plain placeholder is left.
pub proof fn lemma_plain_pass_leaves_none(st: StoreView, text: Seq<char>, fuel: nat)
    ensures
        plain_pass(st, text, fuel) matches Ok(t) ==> first_groups(PLAIN_PLACEHOLDER@, t) is None,
    decreases fuel,
{
    if fuel > 0 {
        match first_groups(PLAIN_PLACEHOLDER@, text) {
            None => {},
            Some(g) => {
                match crate::substitute::resolve_plain(st, crate::substitute::group(g, 1)) {
                    Err(e) => {},
                    Ok(v) => {
                        lemma_plain_pass_leaves_none(
                            st,
                            crate::pattern::replaced_first(PLAIN_PLACEHOLDER@, text, v),
                            (fuel - 1) as nat,
                        );
                    },
                }
            },
        }
    }
}

/// Storage step `s` writes variable `v`, and no other step of `rule` writes
/// the same shape of `v`.
pub open spec fn only_step_on(rule: RuleSpec, s: int, v: Seq<char>) -> bool {
    &&& 0 <= s < rule.storage.len()
    &&& rule.storage@[s].variable@ == v
    &&& forall|j: int|
        0 <= j < rule.storage.len() && j != s && #[trigger] rule.storage@[j].variable@ == v
            ==> rule.storage@[j].action != rule.storage@[s].action
}

/// Two slots agree on the shape that `action` writes.
pub open spec fn same_shape(x: SlotView, y: SlotView, action: StorageAction) -> bool {
    match action {
        StorageAction::StoreSingle => x.single == y.single,
        StorageAction::StoreVector => x.vector == y.vector,
        StorageAction::StoreMapSingle => x.map_single == y.map_single,
        StorageAction::StoreMapVector => x.map_vector == y.map_vector,
    }
}

/// A slot after storage step `s` has run for the first `m` matches.
pub open spec fn slot_after(slot: SlotView, rule: RuleSpec, text: Seq<char>, s: int, m: nat) -> SlotView
    decreases m,
{
    if m == 0 {
        slot
    } else {
        store_entry(
            slot_after(slot, rule, text, s, (m - 1) as nat),
            rule.storage@[s].action,
            key_of(rule, text, m - 1, s),
            value_of(rule, text, m - 1, s),
        )
    }
}

proof fn lemma_slot_of_wf(st: StoreView, v: Seq<char>)
    requires
        store_wf(st),
    ensures
        slot_wf(slot_of(st, v)),
{
    if has_key(st, v) {
        let i = index_of(st, v);
        assert(slot_wf(st[i].1));
    }
}

proof fn lemma_entry_keeps_other_shape(x: SlotView, b: StorageAction, a: StorageAction, key: Seq<char>, value: Seq<char>)
    requires
        a != b,
    ensures
        same_shape(store_entry(x, b, key, value), x, a),
{
}

proof fn lemma_entry_respects_shape(x: SlotView, y: SlotView, a: StorageAction, key: Seq<char>, value: Seq<char>)
    requires
        same_shape(x, y, a),
    ensures
        same_shape(store_entry(x, a, key, value), store_entry(y, a, key, value), a),
{
}

proof fn lemma_match_on_slot(st: StoreView, rule: RuleSpec, text: Seq<char>, m: int, t: nat, v: Seq<char>, s: int)
    requires
        store_wf(st),
        only_step_on(rule, s, v),
        t <= rule.storage.len(),
    ensures
        store_wf(capture_match(st, rule, text, m, t).0),
        capture_match(st, rule, text, m, t).1 is None ==> same_shape(
            slot_of(capture_match(st, rule, text, m, t).0, v),
            if t > s {
                store_entry(slot_of(st, v), rule.storage@[s].action, key_of(rule, text, m, s), value_of(rule, text, m, s))
            } else {
                slot_of(st, v)
            },
            rule.storage@[s].action,
        ),
    decreases t,
{
    if t > 0 {
        lemma_match_on_slot(st, rule, text, m, (t - 1) as nat, v, s);
        let p = capture_match(st, rule, text, m, (t - 1) as nat);
        let sp = rule.storage@[t - 1];
        let a = rule.storage@[s].action;
        let key = key_of(rule, text, m, t - 1);
        let value = value_of(rule, text, m, t - 1);
        lemma_store_in(p.0, sp.variable@, sp.action, key, value);
        if p.1 is None && is_identifier(key) && sp.variable@ == v {
            if t - 1 == s {
                lemma_entry_respects_shape(slot_of(p.0, v), slot_of(st, v), a, key, value);
            } else {
                assert(sp.action != a);
                lemma_entry_keeps_other_shape(slot_of(p.0, v), sp.action, a, key, value);
            }
        }
    }
}

proof fn lemma_matches_on_slot(st: StoreView, rule: RuleSpec, text: Seq<char>, m: nat, v: Seq<char>, s: int)
    requires
        store_wf(st),
        only_step_on(rule, s, v),
    ensures
        store_wf(capture_matches(st, rule, text, m).0),
        capture_matches(st, rule, text, m).1 is None ==> same_shape(
            slot_of(capture_matches(st, rule, text, m).0, v),
            slot_after(slot_of(st, v), rule, text, s, m),
            rule.storage@[s].action,
        ),
    decreases m,
{
    if m > 0 {
        lemma_matches_on_slot(st, rule, text, (m - 1) as nat, v, s);
        let p = capture_matches(st, rule, text, (m - 1) as nat);
        lemma_match_on_slot(p.0, rule, text, m - 1, rule.storage.len() as nat, v, s);
        if p.1 is None {
            lemma_entry_respects_shape(
                slot_of(p.0, v),
                slot_after(slot_of(st, v), rule, text, s, (m - 1) as nat),
                rule.storage@[s].action,
                key_of(rule, text, m - 1, s),
                value_of(rule, text, m - 1, s),
            );
        }
    }
}

proof fn lemma_slot_after_wf(slot: SlotView, rule: RuleSpec, text: Seq<char>, s: int, m: nat)
    requires
        slot_wf(slot),
    ensures
        slot_wf(slot_after(slot, rule, text, s, m)),
    decreases m,
{
    if m > 0 {
        lemma_slot_after_wf(slot, rule, text, s, (m - 1) as nat);
        lemma_store_entry_wf(
            slot_after(slot, rule, text, s, (m - 1) as nat),
            rule.storage@[s].action,
            key_of(rule, text, m - 1, s),
            value_of(rule, text, m - 1, s),
        );
    }
}

proof fn lemma_list_after(slot: SlotView, rule: RuleSpec, text: Seq<char>, s: int, m: nat)
    requires
        rule.storage@[s].action == StorageAction::StoreVector,
    ensures
        slot_after(slot, rule, text, s, m).vector == slot.vector + Seq::new(m, |i: int| value_of(rule, text, i, s)),
    decreases m,
{
    if m > 0 {
        lemma_list_after(slot, rule, text, s, (m - 1) as nat);
        assert(slot.vector + Seq::new(m, |i: int| value_of(rule, text, i, s)) =~= (slot.vector + Seq::new(
            (m - 1) as nat,
            |i: int| value_of(rule, text, i, s),
        )).push(value_of(rule, text, m - 1, s)));
    } else {
        assert(slot.vector + Seq::new(0, |i: int| value_of(rule, text, i, s)) =~= slot.vector);
    }
}

/// A list step appends one entry per match, in match order: where step `s`
/// appends to the list of `v`, no other step of `rule` does, and the capture
/// of `text` succeeds, the list grows by the value of each of the k matches.
pub proof fn lemma_list_collects_every_match(st: StoreView, rule: RuleSpec, text: Seq<char>, v: Seq<char>, s: int)
    requires
        store_wf(st),
        only_step_on(rule, s, v),
        rule.storage@[s].action == StorageAction::StoreVector,
        capture_chunk(st, rule, text).1 is None,
    ensures
        slot_of(capture_chunk(st, rule, text).0, v).vector == slot_of(st, v).vector + Seq::new(
            match_count(rule.regex@, text),
            |i: int| value_of(rule, text, i, s),
        ),
{
    lemma_matches_on_slot(st, rule, text, match_count(rule.regex@, text), v, s);
    lemma_list_after(slot_of(st, v), rule, text, s, match_count(rule.regex@, text));
}

/// A scalar step keeps the value of the last match: where step `s` sets the
/// scalar of `v`, no other step of `rule` does, and the capture of `text`
/// succeeds with at least one match, the scalar is the last match's value.
pub proof fn lemma_scalar_keeps_last_match(st: StoreView, rule: RuleSpec, text: Seq<char>, v: Seq<char>, s: int)
    requires
        store_wf(st),
        only_step_on(rule, s, v),
        rule.storage@[s].action == StorageAction::StoreSingle,
        capture_chunk(st, rule, text).1 is None,
        match_count(rule.regex@, text) > 0,
    ensures
        slot_of(capture_chunk(st, rule, text).0, v).single == value_of(
            rule,
            text,
            match_count(rule.regex@, text) - 1,
            s,
        ),
{
    lemma_matches_on_slot(st, rule, text, match_count(rule.regex@, text), v, s);
}

/// The values of the first `m` matches whose expanded key for step `s` is `key`.
pub open spec fn values_for_key(rule: RuleSpec, text: Seq<char>, s: int, key: Seq<char>, m: nat) -> Seq<Seq<char>>
    decreases m,
{
    if m == 0 {
        Seq::empty()
    } else if key_of(rule, text, m - 1, s) == key {
        values_for_key(rule, text, s, key, (m - 1) as nat).push(value_of(rule, text, m - 1, s))
    } else {
        values_for_key(rule, text, s, key, (m - 1) as nat)
    }
}

/// The value of the last of the first `m` matches whose expanded key for
/// step `s` is `key`; `before` where there is none.
pub open spec fn last_for_key(
    rule: RuleSpec,
    text: Seq<char>,
    s: int,
    key: Seq<char>,
    m: nat,
    before: Option<Seq<char>>,
) -> Option<Seq<char>>
    decreases m,
{
    if m == 0 {
        before
    } else if key_of(rule, text, m - 1, s) == key {
        Some(value_of(rule, text, m - 1, s))
    } else {
        last_for_key(rule, text, s, key, (m - 1) as nat, before)
    }
}

proof fn lemma_keyed_list_after(slot: SlotView, rule: RuleSpec, text: Seq<char>, s: int, key: Seq<char>, m: nat)
    requires
        slot_wf(slot),
        rule.storage@[s].action == StorageAction::StoreMapVector,
    ensures
        list_at(slot_after(slot, rule, text, s, m).map_vector, key) == list_at(slot.map_vector, key)
            + values_for_key(rule, text, s, key, m),
    decreases m,
{
    if m > 0 {
        lemma_keyed_list_after(slot, rule, text, s, key, (m - 1) as nat);
        let prev = slot_after(slot, rule, text, s, (m - 1) as nat);
        lemma_slot_after_wf(slot, rule, text, s, (m - 1) as nat);
        let k = key_of(rule, text, m - 1, s);
        let val = value_of(rule, text, m - 1, s);
        lemma_assign(prev.map_vector, k, list_at(prev.map_vector, k).push(val));
        if k == key {
            assert(list_at(slot.map_vector, key) + values_for_key(rule, text, s, key, m) =~= (list_at(
                slot.map_vector,
                key,
            ) + values_for_key(rule, text, s, key, (m - 1) as nat)).push(val));
        }
    } else {
        assert(list_at(slot.map_vector, key) + values_for_key(rule, text, s, key, 0) =~= list_at(
            slot.map_vector,
            key,
        ));
    }
}

proof fn lemma_keyed_scalar_after(slot: SlotView, rule: RuleSpec, text: Seq<char>, s: int, key: Seq<char>, m: nat)
    requires
        slot_wf(slot),
        rule.storage@[s].action == StorageAction::StoreMapSingle,
    ensures
        lookup(slot_after(slot, rule, text, s, m).map_single, key) == last_for_key(
            rule,
            text,
            s,
            key,
            m,
            lookup(slot.map_single, key),
        ),
    decreases m,
{
    if m > 0 {
        lemma_keyed_scalar_after(slot, rule, text, s, key, (m - 1) as nat);
        let prev = slot_after(slot, rule, text, s, (m - 1) as nat);
        lemma_slot_after_wf(slot, rule, text, s, (m - 1) as nat);
        lemma_assign(prev.map_single, key_of(rule, text, m - 1, s), value_of(rule, text, m - 1, s));
    }
}

/// A keyed list step appends, under each key, one entry per match that
/// produced that key, in match order (where no other step of `rule` appends
/// to the keyed lists of `v`, and the capture of `text` succeeds).
pub proof fn lemma_keyed_list_collects_every_match(
    st: StoreView,
    rule: RuleSpec,
    text: Seq<char>,
    v: Seq<char>,
    s: int,
    key: Seq<char>,
)
    requires
        store_wf(st),
        only_step_on(rule, s, v),
        rule.storage@[s].action == StorageAction::StoreMapVector,
        capture_chunk(st, rule, text).1 is None,
    ensures
        list_at(slot_of(capture_chunk(st, rule, text).0, v).map_vector, key) == list_at(
            slot_of(st, v).map_vector,
            key,
        ) + values_for_key(rule, text, s, key, match_count(rule.regex@, text)),
{
    lemma_matches_on_slot(st, rule, text, match_count(rule.regex@, text), v, s);
    lemma_slot_of_wf(st, v);
    lemma_keyed_list_after(slot_of(st, v), rule, text, s, key, match_count(rule.regex@, text));
}

/// A keyed scalar step keeps, under each key, the value of the last match
/// that produced that key (where no other step of `rule` sets the keyed
/// scalars of `v`, and the capture of `text` succeeds).
pub proof fn lemma_keyed_scalar_keeps_last_match(
    st: StoreView,
    rule: RuleSpec,
    text: Seq<char>,
    v: Seq<char>,
    s: int,
    key: Seq<char>,
)
    requires
        store_wf(st),
        only_step_on(rule, s, v),
        rule.storage@[s].action == StorageAction::StoreMapSingle,
        capture_chunk(st, rule, text).1 is None,
    ensures
        lookup(slot_of(capture_chunk(st, rule, text).0, v).map_single, key) == last_for_key(
            rule,
            text,
            s,
            key,
            match_count(rule.regex@, text),
            lookup(slot_of(st, v).map_single, key),
        ),
{
    lemma_matches_on_slot(st, rule, text, match_count(rule.regex@, text), v, s);
    lemma_slot_of_wf(st, v);
    lemma_keyed_scalar_after(slot_of(st, v), rule, text, s, key, match_count(rule.regex@, text));
}

/// Validation turns down a rule list in which some rule's pattern does not
/// compile, or some storage variable holds a space or a hyphen.
pub proof fn lemma_validation_rejects(rules: Seq<RuleSpec>, i: int, s: int, c: int)
    requires
        0 <= i < rules.len(),
        !compiles(rules[i].regex@) || (0 <= s < rules[i].storage.len() && 0 <= c < rules[i].storage@[s].variable@.len()
            && (rules[i].storage@[s].variable@[c] == ' ' || rules[i].storage@[s].variable@[c] == '-')),
    ensures
        rules_problem(rules, rules.len()) is Some,
{
    let rule = rules[i];
    if compiles(rule.regex@) {
        let var = rule.storage@[s].variable@;
        assert(!is_identifier(var)) by {
            assert(!crate::rules::is_ident_char(var[c]));
        }
        if bad_variable(rule, s as nat) is None {
            assert(bad_variable(rule, (s + 1) as nat) is Some);
        } else {
            crate::rules::lemma_bad_variable_sticks(rule, s as nat, (s + 1) as nat);
        }
        crate::rules::lemma_bad_variable_sticks(rule, (s + 1) as nat, rule.storage.len() as nat);
    }
    assert(rule_problem(rule) is Some);
    if rules_problem(rules, i as nat) is Some {
        crate::rules::lemma_rules_problem_sticks(rules, i as nat, (i + 1) as nat);
    }
    assert(rules_problem(rules, (i + 1) as nat) is Some);
    crate::rules::lemma_rules_problem_sticks(rules, (i + 1) as nat, rules.len());
}

/// Keyed maps render the same whatever order their entries were stored in:
/// two entry lists without a repeated key that hold the same entries render
/// alike, as keyed scalar maps and as keyed list maps.
pub proof fn lemma_rendering_ignores_entry_order(
    m1: Seq<(Seq<char>, Seq<char>)>,
    m2: Seq<(Seq<char>, Seq<char>)>,
    l1: Seq<(Seq<char>, Seq<Seq<char>>)>,
    l2: Seq<(Seq<char>, Seq<Seq<char>>)>,
)
    requires
        distinct_keys(m1),
        distinct_keys(m2),
        forall|x: (Seq<char>, Seq<char>)| m1.contains(x) <==> m2.contains(x),
        distinct_keys(l1),
        distinct_keys(l2),
        forall|x: (Seq<char>, Seq<Seq<char>>)| l1.contains(x) <==> l2.contains(x),
    ensures
        render_map(m1) == render_map(m2),
        render_map_lists(l1) == render_map_lists(l2),
{
    lemma_sort_ignores_order(m1, m2);
    lemma_sort_ignores_order(l1, l2);
}

/// A slot after storage step `s` has run over every match of the first `c`
/// chunks, in document order.
pub open spec fn slot_after_chunks(slot: SlotView, rule: RuleSpec, chunks: Seq<Seq<char>>, s: int, c: nat) -> SlotView
    decreases c,
{
    if c == 0 {
        slot
    } else {
        slot_after(
            slot_after_chunks(slot, rule, chunks, s, (c - 1) as nat),
            rule,
            chunks[c - 1],
            s,
            match_count(rule.regex@, chunks[c - 1]),
        )
    }
}

proof fn lemma_slot_after_respects(x: SlotView, y: SlotView, rule: RuleSpec, text: Seq<char>, s: int, m: nat)
    requires
        same_shape(x, y, rule.storage@[s].action),
    ensures
        same_shape(slot_after(x, rule, text, s, m), slot_after(y, rule, text, s, m), rule.storage@[s].action),
    decreases m,
{
    if m > 0 {
        lemma_slot_after_respects(x, y, rule, text, s, (m - 1) as nat);
        lemma_entry_respects_shape(
            slot_after(x, rule, text, s, (m - 1) as nat),
            slot_after(y, rule, text, s, (m - 1) as nat),
            rule.storage@[s].action,
            key_of(rule, text, m - 1, s),
            value_of(rule, text, m - 1, s),
        );
    }
}

proof fn lemma_chunks_on_slot(st: StoreView, rule: RuleSpec, chunks: Seq<Seq<char>>, c: nat, v: Seq<char>, s: int)
    requires
        store_wf(st),
        only_step_on(rule, s, v),
    ensures
        store_wf(capture_chunks(st, rule, chunks, c).0),
        capture_chunks(st, rule, chunks, c).1 is None ==> same_shape(
            slot_of(capture_chunks(st, rule, chunks, c).0, v),
            slot_after_chunks(slot_of(st, v), rule, chunks, s, c),
            rule.storage@[s].action,
        ),
    decreases c,
{
    if c > 0 {
        lemma_chunks_on_slot(st, rule, chunks, (c - 1) as nat, v, s);
        let p = capture_chunks(st, rule, chunks, (c - 1) as nat);
        let k = match_count(rule.regex@, chunks[c - 1]);
        lemma_matches_on_slot(p.0, rule, chunks[c - 1], k, v, s);
        if p.1 is None {
            lemma_slot_after_respects(
                slot_of(p.0, v),
                slot_after_chunks(slot_of(st, v), rule, chunks, s, (c - 1) as nat),
                rule,
                chunks[c - 1],
                s,
                k,
            );
        }
    }
}

/// The values of step `s` for every match of the first `c` chunks, in
/// document order.
pub open spec fn values_in_chunks(rule: RuleSpec, chunks: Seq<Seq<char>>, s: int, c: nat) -> Seq<Seq<char>>
    decreases c,
{
    if c == 0 {
        Seq::empty()
    } else {
        values_in_chunks(rule, chunks, s, (c - 1) as nat) + Seq::new(
            match_count(rule.regex@, chunks[c - 1]),
            |i: int| value_of(rule, chunks[c - 1], i, s),
        )
    }
}

/// The value of step `s` for the last match of the first `c` chunks;
/// `before` where none of them has a match.
pub open spec fn last_value_in_chunks(rule: RuleSpec, chunks: Seq<Seq<char>>, s: int, c: nat, before: Seq<char>) -> Seq<char>
    decreases c,
{
    if c == 0 {
        before
    } else if match_count(rule.regex@, chunks[c - 1]) > 0 {
        value_of(rule, chunks[c - 1], match_count(rule.regex@, chunks[c - 1]) - 1, s)
    } else {
        last_value_in_chunks(rule, chunks, s, (c - 1) as nat, before)
    }
}

/// The values of step `s` for the matches of the first `c` chunks whose
/// expanded key is `key`, in document order.
pub open spec fn key_values_in_chunks(rule: RuleSpec, chunks: Seq<Seq<char>>, s: int, key: Seq<char>, c: nat) -> Seq<Seq<char>>
    decreases c,
{
    if c == 0 {
        Seq::empty()
    } else {
        key_values_in_chunks(rule, chunks, s, key, (c - 1) as nat) + values_for_key(
            rule,
            chunks[c - 1],
            s,
            key,
            match_count(rule.regex@, chunks[c - 1]),
        )
    }
}

/// The value of step `s` for the last match of the first `c` chunks whose
/// expanded key is `key`; `before` where there is none.
pub open spec fn last_key_value_in_chunks(
    rule: RuleSpec,
    chunks: Seq<Seq<char>>,
    s: int,
    key: Seq<char>,
    c: nat,
    before: Option<Seq<char>>,
) -> Option<Seq<char>>
    decreases c,
{
    if c == 0 {
        before
    } else {
        last_for_key(
            rule,
            chunks[c - 1],
            s,
            key,
            match_count(rule.regex@, chunks[c - 1]),
            last_key_value_in_chunks(rule, chunks, s, key, (c - 1) as nat, before),
        )
    }
}

proof fn lemma_chunks_slot_wf(slot: SlotView, rule: RuleSpec, chunks: Seq<Seq<char>>, s: int, c: nat)
    requires
        slot_wf(slot),
    ensures
        slot_wf(slot_after_chunks(slot, rule, chunks, s, c)),
    decreases c,
{
    if c > 0 {
        lemma_chunks_slot_wf(slot, rule, chunks, s, (c - 1) as nat);
        lemma_slot_after_wf(
            slot_after_chunks(slot, rule, chunks, s, (c - 1) as nat),
            rule,
            chunks[c - 1],
            s,
            match_count(rule.regex@, chunks[c - 1]),
        );
    }
}

proof fn lemma_shapes_over_chunks(slot: SlotView, rule: RuleSpec, chunks: Seq<Seq<char>>, s: int, key: Seq<char>, c: nat)
    requires
        slot_wf(slot),
    ensures
        rule.storage@[s].action == StorageAction::StoreVector ==> slot_after_chunks(slot, rule, chunks, s, c).vector
            == slot.vector + values_in_chunks(rule, chunks, s, c),
        rule.storage@[s].action == StorageAction::StoreSingle ==> slot_after_chunks(slot, rule, chunks, s, c).single
            == last_value_in_chunks(rule, chunks, s, c, slot.single),
        rule.storage@[s].action == StorageAction::StoreMapVector ==> list_at(
            slot_after_chunks(slot, rule, chunks, s, c).map_vector,
            key,
        ) == list_at(slot.map_vector, key) + key_values_in_chunks(rule, chunks, s, key, c),
        rule.storage@[s].action == StorageAction::StoreMapSingle ==> lookup(
            slot_after_chunks(slot, rule, chunks, s, c).map_single,
            key,
        ) == last_key_value_in_chunks(rule, chunks, s, key, c, lookup(slot.map_single, key)),
    decreases c,
{
    if c > 0 {
        lemma_shapes_over_chunks(slot, rule, chunks, s, key, (c - 1) as nat);
        let prev = slot_after_chunks(slot, rule, chunks, s, (c - 1) as nat);
        let text = chunks[c - 1];
        let k = match_count(rule.regex@, text);
        lemma_chunks_slot_wf(slot, rule, chunks, s, (c - 1) as nat);
        let a = rule.storage@[s].action;
        if a == StorageAction::StoreVector {
            lemma_list_after(prev, rule, text, s, k);
            assert(slot.vector + values_in_chunks(rule, chunks, s, c) =~= slot.vector + values_in_chunks(
                rule,
                chunks,
                s,
                (c - 1) as nat,
            ) + Seq::new(k, |i: int| value_of(rule, text, i, s)));
        } else if a == StorageAction::StoreSingle {
            if k > 0 {
                assert(slot_after(prev, rule, text, s, k).single == value_of(rule, text, k - 1, s));
            } else {
                assert(slot_after(prev, rule, text, s, k) == prev);
            }
        } else if a == StorageAction::StoreMapVector {
            lemma_keyed_list_after(prev, rule, text, s, key, k);
            assert(list_at(slot.map_vector, key) + key_values_in_chunks(rule, chunks, s, key, c) =~= list_at(
                slot.map_vector,
                key,
            ) + key_values_in_chunks(rule, chunks, s, key, (c - 1) as nat) + values_for_key(rule, text, s, key, k));
        } else {
            lemma_keyed_scalar_after(prev, rule, text, s, key, k);
        }
    }
}

/// Over a whole application of `rule` to `chunks` (what `apply_rule`
/// stores), where step `s` writes `v`, no other step writes the same shape
/// of `v`, and every capture succeeds: a list step appends one entry per
/// match in document order; a scalar step keeps the last match's value; a
/// keyed list step appends, under each key, one entry per match with that
/// key; a keyed scalar step keeps, under each key, the last such match's
/// value.
pub proof fn lemma_rule_storage_over_chunks(
    st: StoreView,
    rule: RuleSpec,
    chunks: Seq<Seq<char>>,
    v: Seq<char>,
    s: int,
    key: Seq<char>,
)
    requires
        store_wf(st),
        only_step_on(rule, s, v),
        capture_chunks(st, rule, chunks, chunks.len()).1 is None,
    ensures
        ({
            let after = slot_of(capture_chunks(st, rule, chunks, chunks.len()).0, v);
            let before = slot_of(st, v);
            let n = chunks.len();
            &&& rule.storage@[s].action == StorageAction::StoreVector ==> after.vector == before.vector
                + values_in_chunks(rule, chunks, s, n)
            &&& rule.storage@[s].action == StorageAction::StoreSingle ==> after.single == last_value_in_chunks(
                rule,
                chunks,
                s,
                n,
                before.single,
            )
            &&& rule.storage@[s].action == StorageAction::StoreMapVector ==> list_at(after.map_vector, key)
                == list_at(before.map_vector, key) + key_values_in_chunks(rule, chunks, s, key, n)
            &&& rule.storage@[s].action == StorageAction::StoreMapSingle ==> lookup(after.map_single, key)
                == last_key_value_in_chunks(rule, chunks, s, key, n, lookup(before.map_single, key))
        }),
{
    lemma_chunks_on_slot(st, rule, chunks, chunks.len(), v, s);
    lemma_slot_of_wf(st, v);
    lemma_shapes_over_chunks(slot_of(st, v), rule, chunks, s, key, chunks.len());
}

} // verus!
