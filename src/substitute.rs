//! Placeholder expansion: `{{ name.key }}` and then `{{ name }}` are resolved
//! against the variable store, one at a time, leftmost first, until none is
//! left in a chunk.

use vstd::prelude::*;
use vstd::string::*;
use crate::pattern::{Pattern, compiles, first_groups, replaced_first};
use crate::store::{StoreView, has_key, lookup, slot_of, find_key, push_deep, replace_at};
use crate::structure::Content;
use crate::rules::{RulesEngine, EngineError, Failure};
use crate::order::{sort_by_key, key_order, picked, lemma_sort_len};

verus! {

/// Text joined with `sep` between consecutive parts.
pub open spec fn join_with(parts: Seq<Seq<char>>, sep: Seq<char>) -> Seq<char>
    decreases parts.len(),
{
    if parts.len() == 0 {
        Seq::empty()
    } else if parts.len() == 1 {
        parts[0]
    } else {
        join_with(parts.drop_last(), sep) + sep + parts.last()
    }
}

/// Parts separated by a blank line.
pub open spec fn blank_join(parts: Seq<Seq<char>>) -> Seq<char> {
    join_with(parts, "\n\n"@)
}

/// A keyed scalar map as `key: value` lines, in lexicographic key order,
/// blank-line separated.
pub open spec fn render_map(m: Seq<(Seq<char>, Seq<char>)>) -> Seq<char> {
    blank_join(sort_by_key(m).map_values(|e: (Seq<char>, Seq<char>)| map_line(e)))
}

/// One line of a rendered keyed scalar map.
pub open spec fn map_line(e: (Seq<char>, Seq<char>)) -> Seq<char> {
    e.0 + ": "@ + e.1
}

/// One line of a rendered keyed list map.
pub open spec fn list_line(e: (Seq<char>, Seq<Seq<char>>)) -> Seq<char> {
    e.0 + ": "@ + join_with(e.1, " "@)
}

/// A keyed list map as `key: v1 v2 ...` lines, in lexicographic key order,
/// blank-line separated.
pub open spec fn render_map_lists(m: Seq<(Seq<char>, Seq<Seq<char>>)>) -> Seq<char> {
    blank_join(sort_by_key(m).map_values(|e: (Seq<char>, Seq<Seq<char>>)| list_line(e)))
}

/// Group `i` of a match, empty where there is no such group.
pub open spec fn group(g: Seq<Seq<char>>, i: int) -> Seq<char> {
    if 0 <= i < g.len() {
        g[i]
    } else {
        Seq::empty()
    }
}

/// What `{{ name.key }}` stands for: the keyed scalar, else the keyed list.
pub open spec fn resolve_keyed(st: StoreView, name: Seq<char>, key: Seq<char>) -> Result<Seq<char>, Failure> {
    if !has_key(st, name) {
        Err(Failure::UndefinedVariable(name))
    } else {
        let slot = slot_of(st, name);
        match lookup(slot.map_single, key) {
            Some(v) => Ok(v),
            None => match lookup(slot.map_vector, key) {
                Some(l) => Ok(blank_join(l)),
                None => Err(Failure::UndefinedKey(name, key)),
            },
        }
    }
}

/// What `{{ name }}` stands for: the scalar, else the list, else the keyed
/// scalar map, else the keyed list map, the first that is not empty.
pub open spec fn resolve_plain(st: StoreView, name: Seq<char>) -> Result<Seq<char>, Failure> {
    if !has_key(st, name) {
        Err(Failure::UndefinedVariable(name))
    } else {
        let slot = slot_of(st, name);
        if slot.single.len() > 0 {
            Ok(slot.single)
        } else if slot.vector.len() > 0 {
            Ok(blank_join(slot.vector))
        } else if slot.map_single.len() > 0 {
            Ok(render_map(slot.map_single))
        } else if slot.map_vector.len() > 0 {
            Ok(render_map_lists(slot.map_vector))
        } else {
            Err(Failure::EmptyVariable(name))
        }
    }
}

/// The pattern of a keyed placeholder.
pub const KEYED_PLACEHOLDER: &'static str = "\\{\\{\\s*([_0-9a-zA-Z]+)\\.([_0-9a-zA-Z]+)\\s*\\}\\}";

/// The pattern of a plain placeholder.
pub const PLAIN_PLACEHOLDER: &'static str = "\\{\\{\\s*([_0-9a-zA-Z]+)\\s*\\}\\}";

/// The most placeholders that one pass may resolve in one chunk.
pub const SUBSTITUTION_LIMIT: usize = 10000;

/// The keyed pass over `text`, with at most `fuel` more substitutions.
pub open spec fn keyed_pass(st: StoreView, text: Seq<char>, fuel: nat) -> Result<Seq<char>, Failure>
    decreases fuel,
{
    match first_groups(KEYED_PLACEHOLDER@, text) {
        None => Ok(text),
        Some(g) => if fuel == 0 {
            Err(Failure::SubstitutionLimitExceeded)
        } else {
            match resolve_keyed(st, group(g, 1), group(g, 2)) {
                Err(e) => Err(e),
                Ok(v) => keyed_pass(st, replaced_first(KEYED_PLACEHOLDER@, text, v), (fuel - 1) as nat),
            }
        },
    }
}

/// The plain pass over `text`, with at most `fuel` more substitutions.
pub open spec fn plain_pass(st: StoreView, text: Seq<char>, fuel: nat) -> Result<Seq<char>, Failure>
    decreases fuel,
{
    match first_groups(PLAIN_PLACEHOLDER@, text) {
        None => Ok(text),
        Some(g) => if fuel == 0 {
            Err(Failure::SubstitutionLimitExceeded)
        } else {
            match resolve_plain(st, group(g, 1)) {
                Err(e) => Err(e),
                Ok(v) => plain_pass(st, replaced_first(PLAIN_PLACEHOLDER@, text, v), (fuel - 1) as nat),
            }
        },
    }
}

/// Both passes over one chunk.
pub open spec fn substitute_chunk(st: StoreView, text: Seq<char>) -> Result<Seq<char>, Failure> {
    match keyed_pass(st, text, SUBSTITUTION_LIMIT as nat) {
        Err(e) => Err(e),
        Ok(t) => plain_pass(st, t, SUBSTITUTION_LIMIT as nat),
    }
}

/// Both passes over the first `n` chunks, stopping at the first failure.
pub open spec fn substitute_chunks(st: StoreView, chunks: Seq<Seq<char>>, n: nat) -> Result<Seq<Seq<char>>, Failure>
    decreases n,
{
    if n == 0 {
        Ok(Seq::empty())
    } else {
        match substitute_chunks(st, chunks, (n - 1) as nat) {
            Err(e) => Err(e),
            Ok(done) => match substitute_chunk(st, chunks[n - 1]) {
                Err(e) => Err(e),
                Ok(t) => Ok(done.push(t)),
            },
        }
    }
}

proof fn lemma_join_step(parts: Seq<Seq<char>>, sep: Seq<char>, i: int)
    requires
        1 <= i < parts.len(),
    ensures
        join_with(parts.take(i + 1), sep) == join_with(parts.take(i), sep) + sep + parts[i],
{
    assert(parts.take(i + 1).drop_last() =~= parts.take(i));
}

/// The parts joined with `sep` between consecutive ones.
pub fn join(parts: &Vec<String>, sep: &str) -> (r: String)
    ensures
        r@ == join_with(parts.deep_view(), sep@),
{
    let ghost d = parts.deep_view();
    if parts.len() == 0 {
        return String::new();
    }
    let mut r = parts[0].clone();
    assert(d.take(1).drop_last().len() == 0);
    assert(join_with(d.take(1), sep@) == d[0]);
    let mut i: usize = 1;
    while i < parts.len()
        invariant
            1 <= i <= parts.len(),
            d == parts.deep_view(),
            r@ == join_with(d.take(i as int), sep@),
        decreases parts.len() - i,
    {
        proof {
            lemma_join_step(d, sep@, i as int);
        }
        r.append(sep);
        r.append(parts[i].as_str());
        i = i + 1;
    }
    assert(d.take(parts.len() as int) =~= d);
    r
}

impl RulesEngine {
    /// A keyed scalar map rendered as `render_map` says.
    pub fn construct_map_content(&self, m: &Vec<(String, String)>) -> (r: String)
        ensures
            r@ == render_map(m.deep_view()),
    {
        let ghost d = m.deep_view();
        let o = key_order(m);
        let ghost sorted = picked(d, o@);
        proof {
            lemma_sort_len(d);
        }
        let mut lines: Vec<String> = Vec::new();
        let mut j: usize = 0;
        while j < o.len()
            invariant
                j <= o.len(),
                d == m.deep_view(),
                sorted == picked(d, o@),
                forall|i: int| 0 <= i < o.len() ==> o[i] < m.len(),
                lines.deep_view() =~= sorted.take(j as int).map_values(|e: (Seq<char>, Seq<char>)| map_line(e)),
            decreases o.len() - j,
        {
            let i = o[j];
            assert(sorted[j as int] == d[i as int]);
            assert(d[i as int] == (m[i as int].0@, m[i as int].1@));
            let mut line = m[i].0.clone();
            line.append(": ");
            line.append(m[i].1.as_str());
            assert(line@ == map_line(sorted[j as int]));
            push_deep(&mut lines, line);
            assert(sorted.take(j + 1).map_values(|e: (Seq<char>, Seq<char>)| map_line(e)) =~= sorted.take(
                j as int,
            ).map_values(|e: (Seq<char>, Seq<char>)| map_line(e)).push(map_line(sorted[j as int])));
            j = j + 1;
        }
        assert(sorted.take(o.len() as int) =~= sorted);
        join(&lines, "\n\n")
    }

    /// A keyed list map rendered as `render_map_lists` says.
    pub fn construct_mapv_content(&self, m: &Vec<(String, Vec<String>)>) -> (r: String)
        ensures
            r@ == render_map_lists(m.deep_view()),
    {
        let ghost d = m.deep_view();
        let o = key_order(m);
        let ghost sorted = picked(d, o@);
        let mut lines: Vec<String> = Vec::new();
        let mut j: usize = 0;
        while j < o.len()
            invariant
                j <= o.len(),
                d == m.deep_view(),
                sorted == picked(d, o@),
                forall|i: int| 0 <= i < o.len() ==> o[i] < m.len(),
                lines.deep_view() =~= sorted.take(j as int).map_values(
                    |e: (Seq<char>, Seq<Seq<char>>)| list_line(e),
                ),
            decreases o.len() - j,
        {
            let i = o[j];
            assert(sorted[j as int] == d[i as int]);
            assert(d[i as int] == (m[i as int].0@, m[i as int].1.deep_view()));
            let mut line = m[i].0.clone();
            line.append(": ");
            let values = join(&m[i].1, " ");
            line.append(values.as_str());
            assert(line@ == list_line(sorted[j as int]));
            push_deep(&mut lines, line);
            assert(sorted.take(j + 1).map_values(|e: (Seq<char>, Seq<Seq<char>>)| list_line(e)) =~= sorted.take(
                j as int,
            ).map_values(|e: (Seq<char>, Seq<Seq<char>>)| list_line(e)).push(list_line(sorted[j as int])));
            j = j + 1;
        }
        assert(sorted.take(o.len() as int) =~= sorted);
        join(&lines, "\n\n")
    }

    /// The text for `{{ name.key }}`.
    pub fn resolve_keyed(&self, name: &String, key: &String) -> (r: Result<String, EngineError>)
        requires
            self.wf(),
        ensures
            r matches Ok(v) ==> resolve_keyed(self.view(), name@, key@) == Ok::<Seq<char>, Failure>(v@),
            r matches Err(e) ==> resolve_keyed(self.view(), name@, key@) == Err::<Seq<char>, Failure>(e@),
    {
        proof {
            self.lemma_store();
        }
        let slot = match self.variables.get(name) {
            Some(s) => s,
            None => {
                return Err(EngineError::UndefinedVariable { name: name.clone() });
            },
        };
        match find_key(&slot.map_single, key) {
            Some(i) => {
                return Ok(slot.map_single[i].1.clone());
            },
            None => {},
        }
        match find_key(&slot.map_vector, key) {
            Some(i) => Ok(join(&slot.map_vector[i].1, "\n\n")),
            None => Err(EngineError::UndefinedKey { name: name.clone(), key: key.clone() }),
        }
    }

    /// The text for `{{ name }}`.
    pub fn resolve_plain(&self, name: &String) -> (r: Result<String, EngineError>)
        requires
            self.wf(),
        ensures
            r matches Ok(v) ==> resolve_plain(self.view(), name@) == Ok::<Seq<char>, Failure>(v@),
            r matches Err(e) ==> resolve_plain(self.view(), name@) == Err::<Seq<char>, Failure>(e@),
    {
        proof {
            self.lemma_store();
        }
        let slot = match self.variables.get(name) {
            Some(s) => s,
            None => {
                return Err(EngineError::UndefinedVariable { name: name.clone() });
            },
        };
        if slot.single.unicode_len() > 0 {
            Ok(slot.single.clone())
        } else if slot.vector.len() > 0 {
            Ok(join(&slot.vector, "\n\n"))
        } else if slot.map_single.len() > 0 {
            Ok(self.construct_map_content(&slot.map_single))
        } else if slot.map_vector.len() > 0 {
            Ok(self.construct_mapv_content(&slot.map_vector))
        } else {
            Err(EngineError::EmptyVariable { name: name.clone() })
        }
    }

    /// Resolves keyed placeholders in `text`, leftmost first, until none is left.
    fn keyed_pass_exec(&self, pat: &Pattern, text: String) -> (r: Result<String, EngineError>)
        requires
            self.wf(),
            pat@ == KEYED_PLACEHOLDER@,
        ensures
            r matches Ok(t) ==> keyed_pass(self.view(), text@, SUBSTITUTION_LIMIT as nat) == Ok::<Seq<char>, Failure>(t@),
            r matches Err(e) ==> keyed_pass(self.view(), text@, SUBSTITUTION_LIMIT as nat) == Err::<Seq<char>, Failure>(e@),
    {
        let mut t = text;
        let mut steps: usize = 0;
        loop
            invariant
                self.wf(),
                pat@ == KEYED_PLACEHOLDER@,
                steps <= SUBSTITUTION_LIMIT,
                keyed_pass(self.view(), t@, (SUBSTITUTION_LIMIT - steps) as nat) == keyed_pass(
                    self.view(),
                    text@,
                    SUBSTITUTION_LIMIT as nat,
                ),
            decreases SUBSTITUTION_LIMIT - steps,
        {
            match pat.first_captures(t.as_str()) {
                None => {
                    return Ok(t);
                },
                Some(g) => {
                    if steps == SUBSTITUTION_LIMIT {
                        return Err(EngineError::SubstitutionLimitExceeded);
                    }
                    let name = group_at(&g, 1);
                    let key = group_at(&g, 2);
                    let v = match self.resolve_keyed(&name, &key) {
                        Ok(v) => v,
                        Err(e) => {
                            return Err(e);
                        },
                    };
                    t = pat.replace_first(t.as_str(), v.as_str());
                    steps = steps + 1;
                },
            }
        }
    }

    /// Resolves plain placeholders in `text`, leftmost first, until none is left.
    fn plain_pass_exec(&self, pat: &Pattern, text: String) -> (r: Result<String, EngineError>)
        requires
            self.wf(),
            pat@ == PLAIN_PLACEHOLDER@,
        ensures
            r matches Ok(t) ==> plain_pass(self.view(), text@, SUBSTITUTION_LIMIT as nat) == Ok::<Seq<char>, Failure>(t@),
            r matches Err(e) ==> plain_pass(self.view(), text@, SUBSTITUTION_LIMIT as nat) == Err::<Seq<char>, Failure>(e@),
    {
        let mut t = text;
        let mut steps: usize = 0;
        loop
            invariant
                self.wf(),
                pat@ == PLAIN_PLACEHOLDER@,
                steps <= SUBSTITUTION_LIMIT,
                plain_pass(self.view(), t@, (SUBSTITUTION_LIMIT - steps) as nat) == plain_pass(
                    self.view(),
                    text@,
                    SUBSTITUTION_LIMIT as nat,
                ),
            decreases SUBSTITUTION_LIMIT - steps,
        {
            match pat.first_captures(t.as_str()) {
                None => {
                    return Ok(t);
                },
                Some(g) => {
                    if steps == SUBSTITUTION_LIMIT {
                        return Err(EngineError::SubstitutionLimitExceeded);
                    }
                    let name = group_at(&g, 1);
                    let v = match self.resolve_plain(&name) {
                        Ok(v) => v,
                        Err(e) => {
                            return Err(e);
                        },
                    };
                    t = pat.replace_first(t.as_str(), v.as_str());
                    steps = steps + 1;
                },
            }
        }
    }

    /// Expands every placeholder of every chunk: first the keyed ones, then
    /// the plain ones, each leftmost first and rescanning after each
    /// substitution; stops at the first failure.
    pub fn substitute_vars(&self, content: &mut Content) -> (r: Result<(), EngineError>)
        requires
            self.wf(),
        ensures
            final(content)@.len() == old(content)@.len(),
            !(compiles(KEYED_PLACEHOLDER@) && compiles(PLAIN_PLACEHOLDER@)) ==> r is Err && final(content)@
                == old(content)@,
            compiles(KEYED_PLACEHOLDER@) && compiles(PLAIN_PLACEHOLDER@) ==> {
                let o = substitute_chunks(self.view(), old(content)@, old(content)@.len());
                &&& r is Ok <==> o is Ok
                &&& r is Ok ==> o == Ok::<Seq<Seq<char>>, Failure>(final(content)@)
                &&& r matches Err(e) ==> o == Err::<Seq<Seq<char>>, Failure>(e@)
            },
    {
        let keyed = match Pattern::compile(KEYED_PLACEHOLDER) {
            Some(p) => p,
            None => {
                return Err(
                    EngineError::InvalidPattern {
                        rule: String::from_str("placeholder"),
                        pattern: String::from_str(KEYED_PLACEHOLDER),
                    },
                );
            },
        };
        let plain = match Pattern::compile(PLAIN_PLACEHOLDER) {
            Some(p) => p,
            None => {
                return Err(
                    EngineError::InvalidPattern {
                        rule: String::from_str("placeholder"),
                        pattern: String::from_str(PLAIN_PLACEHOLDER),
                    },
                );
            },
        };
        let ghost chunks0 = content@;
        assert(content@.take(0) =~= Seq::<Seq<char>>::empty());
        let mut c: usize = 0;
        while c < content.chunks.len()
            invariant
                self.wf(),
                keyed@ == KEYED_PLACEHOLDER@,
                plain@ == PLAIN_PLACEHOLDER@,
                compiles(KEYED_PLACEHOLDER@) && compiles(PLAIN_PLACEHOLDER@),
                chunks0 == old(content)@,
                content@.len() == chunks0.len(),
                c <= chunks0.len(),
                forall|j: int| c <= j < chunks0.len() ==> #[trigger] content@[j] == chunks0[j],
                substitute_chunks(self.view(), chunks0, c as nat) == Ok::<Seq<Seq<char>>, Failure>(
                    content@.take(c as int),
                ),
            decreases chunks0.len() - c,
        {
            assert(content@[c as int] == content.chunks@[c as int]@);
            let text = content.chunks[c].clone();
            let t = match self.keyed_pass_exec(&keyed, text) {
                Ok(t) => t,
                Err(e) => {
                    proof {
                        lemma_substitute_error_sticks(self.view(), chunks0, (c + 1) as nat, chunks0.len());
                    }
                    return Err(e);
                },
            };
            let t = match self.plain_pass_exec(&plain, t) {
                Ok(t) => t,
                Err(e) => {
                    proof {
                        lemma_substitute_error_sticks(self.view(), chunks0, (c + 1) as nat, chunks0.len());
                    }
                    return Err(e);
                },
            };
            let ghost before = content@;
            replace_at(&mut content.chunks, c, t);
            assert(content@.take(c + 1) =~= before.take(c as int).push(t@));
            c = c + 1;
        }
        assert(content@.take(chunks0.len() as int) =~= content@);
        Ok(())
    }
}

fn group_at(g: &Vec<String>, i: usize) -> (r: String)
    ensures
        r@ == group(g.deep_view(), i as int),
{
    if i < g.len() {
        g[i].clone()
    } else {
        String::new()
    }
}

proof fn lemma_substitute_error_sticks(st: StoreView, chunks: Seq<Seq<char>>, a: nat, b: nat)
    requires
        a <= b,
        substitute_chunks(st, chunks, a) is Err,
    ensures
        substitute_chunks(st, chunks, b) == substitute_chunks(st, chunks, a),
    decreases b - a,
{
    if a < b {
        lemma_substitute_error_sticks(st, chunks, a, (b - 1) as nat);
    }
}

} // verus!
