//! The variable store: for each variable name a slot that holds a scalar, a
//! list, a keyed scalar map and a keyed list map, each filled independently.
//! Keyed maps keep their keys in first-insertion order; rendering puts them
//! in key order.

use vstd::prelude::*;
use crate::rules::StorageAction;

verus! {

/// Whether `k` is a key of the association sequence `e`.
pub open spec fn has_key<V>(e: Seq<(Seq<char>, V)>, k: Seq<char>) -> bool {
    exists|i: int| 0 <= i < e.len() && #[trigger] e[i].0 == k
}

/// The position of key `k` in `e` (meaningful where `has_key(e, k)`).
pub open spec fn index_of<V>(e: Seq<(Seq<char>, V)>, k: Seq<char>) -> int {
    choose|i: int| 0 <= i < e.len() && #[trigger] e[i].0 == k
}

/// No key occurs twice.
pub open spec fn keys_unique<V>(e: Seq<(Seq<char>, V)>) -> bool {
    forall|i: int, j: int| 0 <= i < j < e.len() ==> #[trigger] e[i].0 != #[trigger] e[j].0
}

/// The value stored under `k`.
pub open spec fn lookup<V>(e: Seq<(Seq<char>, V)>, k: Seq<char>) -> Option<V> {
    if has_key(e, k) {
        Some(e[index_of(e, k)].1)
    } else {
        None
    }
}

/// `e` with `k` bound to `v`: in place where `k` is present, else appended.
pub open spec fn assign<V>(e: Seq<(Seq<char>, V)>, k: Seq<char>, v: V) -> Seq<(Seq<char>, V)> {
    if has_key(e, k) {
        e.update(index_of(e, k), (k, v))
    } else {
        e.push((k, v))
    }
}

pub proof fn lemma_index_of_unique<V>(e: Seq<(Seq<char>, V)>, i: int)
    requires
        keys_unique(e),
        0 <= i < e.len(),
    ensures
        has_key(e, e[i].0),
        index_of(e, e[i].0) == i,
{
    let k = e[i].0;
    assert(e[i].0 == k);
    let j = index_of(e, k);
    if j < i {
        assert(e[j].0 != e[i].0);
    } else if i < j {
        assert(e[i].0 != e[j].0);
    }
}

pub proof fn lemma_assign<V>(e: Seq<(Seq<char>, V)>, k: Seq<char>, v: V)
    requires
        keys_unique(e),
    ensures
        keys_unique(assign(e, k, v)),
        lookup(assign(e, k, v), k) == Some(v),
        forall|k2: Seq<char>| k2 != k ==> lookup(assign(e, k, v), k2) == lookup(e, k2),
{
    let a = assign(e, k, v);
    if has_key(e, k) {
        let i = index_of(e, k);
        assert(a[i].0 == k);
        lemma_index_of_unique(a, i);
        assert forall|k2: Seq<char>| k2 != k implies lookup(a, k2) == lookup(e, k2) by {
            if has_key(e, k2) {
                let j = index_of(e, k2);
                assert(a[j].0 == k2);
                lemma_index_of_unique(a, j);
            }
            if has_key(a, k2) {
                let j = index_of(a, k2);
                assert(e[j].0 == k2);
            }
        }
    } else {
        let i = e.len() as int;
        assert(a[i].0 == k);
        lemma_index_of_unique(a, i);
        assert forall|k2: Seq<char>| k2 != k implies lookup(a, k2) == lookup(e, k2) by {
            if has_key(e, k2) {
                let j = index_of(e, k2);
                assert(a[j].0 == k2);
                lemma_index_of_unique(e, j);
                lemma_index_of_unique(a, j);
            }
            if has_key(a, k2) {
                let j = index_of(a, k2);
                assert(e[j].0 == k2);
            }
        }
    }
}

/// Finds the position of `k` among the keys of `e`.
pub fn find_key<V: DeepView>(e: &Vec<(String, V)>, k: &String) -> (r: Option<usize>)
    requires
        keys_unique(e.deep_view()),
    ensures
        r is Some <==> has_key(e.deep_view(), k@),
        r matches Some(i) ==> i < e.len() && i == index_of(e.deep_view(), k@),
{
    let ghost d = e.deep_view();
    let mut i: usize = 0;
    while i < e.len()
        invariant
            i <= e.len(),
            d == e.deep_view(),
            keys_unique(d),
            forall|j: int| 0 <= j < i ==> d[j].0 != k@,
        decreases e.len() - i,
    {
        assert(d[i as int].0 == e[i as int].0@);
        if e[i].0 == *k {
            proof {
                lemma_index_of_unique(d, i as int);
            }
            return Some(i);
        }
        i = i + 1;
    }
    None
}

/// Puts `x` at position `i` of `v` and hands back what stood there.
pub(crate) fn replace_at<T: DeepView>(v: &mut Vec<T>, i: usize, x: T) -> (r: T)
    requires
        i < old(v).len(),
    ensures
        r == old(v)@[i as int],
        final(v)@ == old(v)@.update(i as int, x),
        final(v).deep_view() == old(v).deep_view().update(i as int, x.deep_view()),
{
    let r = v.remove(i);
    v.insert(i, x);
    assert(v@ =~= old(v)@.update(i as int, x));
    assert(v.deep_view() =~= old(v).deep_view().update(i as int, x.deep_view()));
    r
}

/// Appends `x` to `v`, with what that does to the deep view.
pub(crate) fn push_deep<T: DeepView>(v: &mut Vec<T>, x: T)
    ensures
        final(v)@ == old(v)@.push(x),
        final(v).deep_view() == old(v).deep_view().push(x.deep_view()),
{
    v.push(x);
    assert(v.deep_view() =~= old(v).deep_view().push(x.deep_view()));
}

/// What a slot holds, as mathematical values.
pub struct SlotView {
    pub single: Seq<char>,
    pub vector: Seq<Seq<char>>,
    pub map_single: Seq<(Seq<char>, Seq<char>)>,
    pub map_vector: Seq<(Seq<char>, Seq<Seq<char>>)>,
}

/// The values held under one variable name.
pub struct VarSlot {
    pub single: String,
    pub vector: Vec<String>,
    pub map_single: Vec<(String, String)>,
    pub map_vector: Vec<(String, Vec<String>)>,
}

impl DeepView for VarSlot {
    type V = SlotView;

    open spec fn deep_view(&self) -> SlotView {
        SlotView {
            single: self.single@,
            vector: self.vector.deep_view(),
            map_single: self.map_single.deep_view(),
            map_vector: self.map_vector.deep_view(),
        }
    }
}

impl VarSlot {
    pub fn empty() -> (r: VarSlot)
        ensures
            r.deep_view() == empty_slot(),
    {
        let r = VarSlot {
            single: String::new(),
            vector: Vec::new(),
            map_single: Vec::new(),
            map_vector: Vec::new(),
        };
        assert(r.vector.deep_view() =~= Seq::<Seq<char>>::empty());
        assert(r.map_single.deep_view() =~= Seq::<(Seq<char>, Seq<char>)>::empty());
        assert(r.map_vector.deep_view() =~= Seq::<(Seq<char>, Seq<Seq<char>>)>::empty());
        r
    }

    /// Performs one storage action on this slot.
    pub fn store(&mut self, action: StorageAction, key: String, value: String)
        requires
            slot_wf(old(self).deep_view()),
        ensures
            slot_wf(final(self).deep_view()),
            final(self).deep_view() == store_entry(old(self).deep_view(), action, key@, value@),
    {
        let ghost s0 = self.deep_view();
        match action {
            StorageAction::StoreSingle => {
                self.single = value;
            },
            StorageAction::StoreVector => {
                push_deep(&mut self.vector, value);
            },
            StorageAction::StoreMapSingle => {
                proof {
                    lemma_assign(s0.map_single, key@, value@);
                }
                match find_key(&self.map_single, &key) {
                    Some(i) => {
                        replace_at(&mut self.map_single, i, (key, value));
                    },
                    None => {
                        push_deep(&mut self.map_single, (key, value));
                    },
                }
            },
            StorageAction::StoreMapVector => {
                match find_key(&self.map_vector, &key) {
                    Some(i) => {
                        let (k, mut l) = replace_at(&mut self.map_vector, i, (String::new(), Vec::new()));
                        let ghost l0 = l.deep_view();
                        push_deep(&mut l, value);
                        proof {
                            lemma_assign(s0.map_vector, key@, l0.push(value@));
                        }
                        replace_at(&mut self.map_vector, i, (k, l));
                        assert(self.map_vector.deep_view() =~= s0.map_vector.update(i as int, (key@, l0.push(value@))));
                    },
                    None => {
                        let mut l: Vec<String> = Vec::new();
                        push_deep(&mut l, value);
                        assert(l.deep_view() =~= Seq::<Seq<char>>::empty().push(value@));
                        proof {
                            lemma_assign(s0.map_vector, key@, Seq::<Seq<char>>::empty().push(value@));
                        }
                        push_deep(&mut self.map_vector, (key, l));
                    },
                }
            },
        }
        assert(self.deep_view() =~= store_entry(s0, action, key@, value@));
    }
}

pub open spec fn empty_slot() -> SlotView {
    SlotView {
        single: Seq::empty(),
        vector: Seq::empty(),
        map_single: Seq::empty(),
        map_vector: Seq::empty(),
    }
}

pub open spec fn slot_wf(s: SlotView) -> bool {
    keys_unique(s.map_single) && keys_unique(s.map_vector)
}

/// The list stored under `key` in a keyed list map, empty where absent.
pub open spec fn list_at(m: Seq<(Seq<char>, Seq<Seq<char>>)>, key: Seq<char>) -> Seq<Seq<char>> {
    match lookup(m, key) {
        Some(l) => l,
        None => Seq::empty(),
    }
}

/// A slot after one storage action with the given key and value.
pub open spec fn store_entry(s: SlotView, action: StorageAction, key: Seq<char>, value: Seq<char>) -> SlotView {
    match action {
        StorageAction::StoreSingle => SlotView { single: value, ..s },
        StorageAction::StoreVector => SlotView { vector: s.vector.push(value), ..s },
        StorageAction::StoreMapSingle => SlotView { map_single: assign(s.map_single, key, value), ..s },
        StorageAction::StoreMapVector => SlotView {
            map_vector: assign(s.map_vector, key, list_at(s.map_vector, key).push(value)),
            ..s
        },
    }
}

/// The whole store as an association sequence from names to slots.
pub type StoreView = Seq<(Seq<char>, SlotView)>;

/// The slot of `name`, empty where the variable was never written.
pub open spec fn slot_of(st: StoreView, name: Seq<char>) -> SlotView {
    match lookup(st, name) {
        Some(s) => s,
        None => empty_slot(),
    }
}

/// The store after one storage action on variable `name`.
pub open spec fn store_in(
    st: StoreView,
    name: Seq<char>,
    action: StorageAction,
    key: Seq<char>,
    value: Seq<char>,
) -> StoreView {
    assign(st, name, store_entry(slot_of(st, name), action, key, value))
}

pub open spec fn store_wf(st: StoreView) -> bool {
    &&& keys_unique(st)
    &&& forall|i: int| 0 <= i < st.len() ==> slot_wf(#[trigger] st[i].1)
}

pub proof fn lemma_store_entry_wf(s: SlotView, action: StorageAction, key: Seq<char>, value: Seq<char>)
    requires
        slot_wf(s),
    ensures
        slot_wf(store_entry(s, action, key, value)),
{
    lemma_assign(s.map_single, key, value);
    lemma_assign(s.map_vector, key, list_at(s.map_vector, key).push(value));
}

/// One storage action changes the slot of its own variable as
/// `store_entry` says, and no other slot.
pub proof fn lemma_store_in(st: StoreView, name: Seq<char>, action: StorageAction, key: Seq<char>, value: Seq<char>)
    requires
        store_wf(st),
    ensures
        store_wf(store_in(st, name, action, key, value)),
        slot_of(store_in(st, name, action, key, value), name) == store_entry(slot_of(st, name), action, key, value),
        forall|other: Seq<char>|
            other != name ==> slot_of(store_in(st, name, action, key, value), other) == slot_of(st, other),
{
    let ns = store_entry(slot_of(st, name), action, key, value);
    lemma_assign(st, name, ns);
    if has_key(st, name) {
        let i = index_of(st, name);
        assert(slot_wf(st[i].1));
    }
    lemma_store_entry_wf(slot_of(st, name), action, key, value);
    let a = assign(st, name, ns);
    assert forall|j: int| 0 <= j < a.len() implies slot_wf(#[trigger] a[j].1) by {
        if a[j].0 != name {
            if has_key(st, name) {
                assert(a[j] == st[j]);
            } else {
                assert(a[j] == st[j]);
            }
        } else {
            lemma_index_of_unique(a, j);
        }
    }
}

/// Variables by name, each slot created on its first write.
pub struct VariableStore {
    entries: Vec<(String, VarSlot)>,
}

impl VariableStore {
    pub closed spec fn view(&self) -> StoreView {
        self.entries.deep_view()
    }

    pub open spec fn wf(&self) -> bool {
        store_wf(self.view())
    }

    pub fn new() -> (r: VariableStore)
        ensures
            r.view() == Seq::<(Seq<char>, SlotView)>::empty(),
            r.wf(),
    {
        let r = VariableStore { entries: Vec::new() };
        assert(r.view() =~= Seq::<(Seq<char>, SlotView)>::empty());
        r
    }

    /// The slot of `name`, if the variable was ever written.
    pub fn get(&self, name: &String) -> (r: Option<&VarSlot>)
        requires
            self.wf(),
        ensures
            r is Some <==> has_key(self.view(), name@),
            r matches Some(s) ==> s.deep_view() == slot_of(self.view(), name@) && slot_wf(s.deep_view()),
    {
        match find_key(&self.entries, name) {
            Some(i) => Some(&self.entries[i].1),
            None => None,
        }
    }

    /// Performs one storage action on variable `name`, creating its slot
    /// where it has none.
    pub fn store(&mut self, name: &String, action: StorageAction, key: String, value: String)
        requires
            old(self).wf(),
        ensures
            final(self).wf(),
            final(self).view() == store_in(old(self).view(), name@, action, key@, value@),
    {
        let ghost st = self.view();
        let (n, mut slot, i) = match find_key(&self.entries, name) {
            Some(i) => {
                let (n, s) = replace_at(&mut self.entries, i, (String::new(), VarSlot::empty()));
                assert(st[i as int].1 == s.deep_view());
                assert(st[i as int].0 == name@);
                (n, s, i)
            },
            None => (name.clone(), VarSlot::empty(), self.entries.len()),
        };
        assert(slot_wf(slot.deep_view()));
        assert(slot.deep_view() == slot_of(st, name@));
        slot.store(action, key, value);
        let ghost ns = slot.deep_view();
        proof {
            lemma_assign(st, name@, ns);
        }
        if i < self.entries.len() {
            replace_at(&mut self.entries, i, (n, slot));
            assert(self.entries.deep_view() =~= st.update(i as int, (name@, ns)));
        } else {
            push_deep(&mut self.entries, (n, slot));
        }
        assert(self.view() == assign(st, name@, ns));
        assert forall|j: int| 0 <= j < self.view().len() implies slot_wf(#[trigger] self.view()[j].1) by {
            if j != i {
                assert(self.view()[j] == st[j]);
            }
        }
    }
}

} // verus!
