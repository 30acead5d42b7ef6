//! What a language front-end records about one file for the resolution pass.
use vstd::prelude::*;

use crate::text::str_eq;

verus! {

/// The source languages the analyzer reads.
#[derive(Debug, Clone, Copy, PartialEq, Eq, Structural)]
pub enum Language {
    Python,
    Rust,
    Cpp,
    TypeScript,
    JavaScript,
}

/// A call site waiting for resolution: who calls, what name, on which
/// receiver, from inside which class.
#[derive(Debug)]
pub struct PendingCall {
    pub caller_id: String,
    pub callee_name: String,
    pub object: Option<String>,
    pub in_class: Option<String>,
}

impl Clone for PendingCall {
    fn clone(&self) -> (r: PendingCall)
        ensures
            r == *self,
    {
        PendingCall {
            caller_id: self.caller_id.clone(),
            callee_name: self.callee_name.clone(),
            object: match &self.object {
                Some(o) => Some(o.clone()),
                None => None,
            },
            in_class: match &self.in_class {
                Some(c) => Some(c.clone()),
                None => None,
            },
        }
    }
}

/// The first index of an entry with key `k`, or -1.
pub open spec fn find_key(entries: Seq<(Seq<char>, Seq<char>)>, k: Seq<char>) -> int
    decreases entries.len(),
{
    if entries.len() == 0 {
        -1
    } else if find_key(entries.drop_last(), k) >= 0 {
        find_key(entries.drop_last(), k)
    } else if entries.last().0 == k {
        entries.len() - 1
    } else {
        -1
    }
}

/// The value stored under `k`.
pub open spec fn lookup(entries: Seq<(Seq<char>, Seq<char>)>, k: Seq<char>) -> Option<Seq<char>> {
    if find_key(entries, k) >= 0 {
        Some(entries[find_key(entries, k)].1)
    } else {
        None
    }
}

/// Storing `v` under `k`: the entry for `k` is replaced in place, or a new
/// entry is appended.
pub open spec fn store(entries: Seq<(Seq<char>, Seq<char>)>, k: Seq<char>, v: Seq<char>) -> Seq<(Seq<char>, Seq<char>)> {
    if find_key(entries, k) >= 0 {
        entries.update(find_key(entries, k), (k, v))
    } else {
        entries.push((k, v))
    }
}

/// A map from strings to strings that keeps its keys in insertion order.
#[derive(Debug, Default)]
pub struct StrMap {
    pub entries: Vec<(String, String)>,
}

impl View for StrMap {
    type V = Seq<(Seq<char>, Seq<char>)>;

    open spec fn view(&self) -> Seq<(Seq<char>, Seq<char>)> {
        self.entries@.map_values(|e: (String, String)| (e.0@, e.1@))
    }
}

proof fn lemma_find_key_bounds(entries: Seq<(Seq<char>, Seq<char>)>, k: Seq<char>)
    ensures
        -1 <= find_key(entries, k) < entries.len(),
        find_key(entries, k) >= 0 ==> entries[find_key(entries, k)].0 == k,
        find_key(entries, k) < 0 ==> forall|i: int| 0 <= i < entries.len() ==> #[trigger] entries[i].0 != k,
        find_key(entries, k) >= 0 ==> forall|i: int| 0 <= i < find_key(entries, k) ==> #[trigger] entries[i].0 != k,
    decreases entries.len(),
{
    if entries.len() > 0 {
        lemma_find_key_bounds(entries.drop_last(), k);
        let p = entries.drop_last();
        assert forall|i: int| 0 <= i < p.len() implies p[i] == entries[i] by {}
    }
}

proof fn lemma_find_key_is_first(entries: Seq<(Seq<char>, Seq<char>)>, k: Seq<char>, i: int)
    requires
        0 <= i < entries.len(),
        entries[i].0 == k,
        forall|j: int| 0 <= j < i ==> #[trigger] entries[j].0 != k,
    ensures
        find_key(entries, k) == i,
{
    lemma_find_key_bounds(entries, k);
}

impl StrMap {
    pub fn new() -> (m: StrMap)
        ensures
            m@ == Seq::<(Seq<char>, Seq<char>)>::empty(),
    {
        let m = StrMap { entries: Vec::new() };
        assert(m@ =~= Seq::<(Seq<char>, Seq<char>)>::empty());
        m
    }

    /// The index of the entry with key `k`.
    fn position(&self, k: &str) -> (r: Option<usize>)
        ensures
            r matches Some(i) ==> find_key(self@, k@) == i,
            r is None ==> find_key(self@, k@) == -1,
    {
        proof { lemma_find_key_bounds(self@, k@); }
        let mut i: usize = 0;
        while i < self.entries.len()
            invariant
                i <= self@.len(),
                self@.len() == self.entries@.len(),
                forall|j: int| 0 <= j < i ==> #[trigger] self@[j].0 != k@,
            decreases self@.len() - i,
        {
            if str_eq(self.entries[i].0.as_str(), k) {
                proof { lemma_find_key_is_first(self@, k@, i as int); }
                return Some(i);
            }
            i = i + 1;
        }
        None
    }

    /// The value stored under `k`, if any.
    pub fn get(&self, k: &str) -> (r: Option<&String>)
        ensures
            r is Some <==> lookup(self@, k@) is Some,
            r matches Some(v) ==> lookup(self@, k@) == Some(v@),
    {
        proof { lemma_find_key_bounds(self@, k@); }
        match self.position(k) {
            Some(i) => Some(&self.entries[i].1),
            None => None,
        }
    }

    /// Whether some value is stored under `k`.
    pub fn contains_key(&self, k: &str) -> (r: bool)
        ensures
            r == (lookup(self@, k@) is Some),
    {
        self.position(k).is_some()
    }

    /// Stores `v` under `k`, replacing a previous value.
    pub fn insert(&mut self, k: String, v: String)
        ensures
            final(self)@ == store(old(self)@, k@, v@),
    {
        proof { lemma_find_key_bounds(self@, k@); }
        match self.position(k.as_str()) {
            Some(i) => {
                let ghost kv = (k@, v@);
                self.entries.set(i, (k, v));
                assert(self@ =~= old(self)@.update(i as int, kv));
            },
            None => {
                let ghost kv = (k@, v@);
                self.entries.push((k, v));
                assert(self@ =~= old(self)@.push(kv));
            },
        }
    }

    /// The number of entries.
    pub fn len(&self) -> (n: usize)
        ensures
            n == self@.len(),
    {
        self.entries.len()
    }
}

/// A map from pairs of strings (an owner and a key) to strings, as the
/// "per function / per class" tables use it.
#[derive(Debug, Default)]
pub struct PairMap {
    pub entries: Vec<(String, String, String)>,
}

impl View for PairMap {
    type V = Seq<(Seq<char>, Seq<char>, Seq<char>)>;

    open spec fn view(&self) -> Seq<(Seq<char>, Seq<char>, Seq<char>)> {
        self.entries@.map_values(|e: (String, String, String)| (e.0@, e.1@, e.2@))
    }
}

/// The first index of an entry for (`owner`, `k`), or -1.
pub open spec fn find_pair(entries: Seq<(Seq<char>, Seq<char>, Seq<char>)>, owner: Seq<char>, k: Seq<char>) -> int
    decreases entries.len(),
{
    if entries.len() == 0 {
        -1
    } else if find_pair(entries.drop_last(), owner, k) >= 0 {
        find_pair(entries.drop_last(), owner, k)
    } else if entries.last().0 == owner && entries.last().1 == k {
        entries.len() - 1
    } else {
        -1
    }
}

/// The value stored for (`owner`, `k`).
pub open spec fn lookup_pair(entries: Seq<(Seq<char>, Seq<char>, Seq<char>)>, owner: Seq<char>, k: Seq<char>) -> Option<Seq<char>> {
    if find_pair(entries, owner, k) >= 0 {
        Some(entries[find_pair(entries, owner, k)].2)
    } else {
        None
    }
}

/// Storing `v` for (`owner`, `k`), in place or appended.
pub open spec fn store_pair(entries: Seq<(Seq<char>, Seq<char>, Seq<char>)>, owner: Seq<char>, k: Seq<char>, v: Seq<char>) -> Seq<(Seq<char>, Seq<char>, Seq<char>)> {
    if find_pair(entries, owner, k) >= 0 {
        entries.update(find_pair(entries, owner, k), (owner, k, v))
    } else {
        entries.push((owner, k, v))
    }
}

proof fn lemma_find_pair_bounds(entries: Seq<(Seq<char>, Seq<char>, Seq<char>)>, owner: Seq<char>, k: Seq<char>)
    ensures
        -1 <= find_pair(entries, owner, k) < entries.len(),
        find_pair(entries, owner, k) >= 0 ==> entries[find_pair(entries, owner, k)].0 == owner
            && entries[find_pair(entries, owner, k)].1 == k,
        find_pair(entries, owner, k) < 0 ==> forall|i: int| 0 <= i < entries.len() ==> !(#[trigger] entries[i].0 == owner && entries[i].1 == k),
        find_pair(entries, owner, k) >= 0 ==> forall|i: int| 0 <= i < find_pair(entries, owner, k) ==> !(#[trigger] entries[i].0 == owner && entries[i].1 == k),
    decreases entries.len(),
{
    if entries.len() > 0 {
        lemma_find_pair_bounds(entries.drop_last(), owner, k);
        let p = entries.drop_last();
        assert forall|i: int| 0 <= i < p.len() implies p[i] == entries[i] by {}
    }
}

proof fn lemma_find_pair_is_first(entries: Seq<(Seq<char>, Seq<char>, Seq<char>)>, owner: Seq<char>, k: Seq<char>, i: int)
    requires
        0 <= i < entries.len(),
        entries[i].0 == owner && entries[i].1 == k,
        forall|j: int| 0 <= j < i ==> !(#[trigger] entries[j].0 == owner && entries[j].1 == k),
    ensures
        find_pair(entries, owner, k) == i,
{
    lemma_find_pair_bounds(entries, owner, k);
}

impl PairMap {
    pub fn new() -> (m: PairMap)
        ensures
            m@ == Seq::<(Seq<char>, Seq<char>, Seq<char>)>::empty(),
    {
        let m = PairMap { entries: Vec::new() };
        assert(m@ =~= Seq::<(Seq<char>, Seq<char>, Seq<char>)>::empty());
        m
    }

    fn position(&self, owner: &str, k: &str) -> (r: Option<usize>)
        ensures
            r matches Some(i) ==> find_pair(self@, owner@, k@) == i,
            r is None ==> find_pair(self@, owner@, k@) == -1,
    {
        proof { lemma_find_pair_bounds(self@, owner@, k@); }
        let mut i: usize = 0;
        while i < self.entries.len()
            invariant
                i <= self@.len(),
                self@.len() == self.entries@.len(),
                forall|j: int| 0 <= j < i ==> !(#[trigger] self@[j].0 == owner@ && self@[j].1 == k@),
            decreases self@.len() - i,
        {
            if str_eq(self.entries[i].0.as_str(), owner) && str_eq(self.entries[i].1.as_str(), k) {
                proof { lemma_find_pair_is_first(self@, owner@, k@, i as int); }
                return Some(i);
            }
            i = i + 1;
        }
        None
    }

    /// The value stored for (`owner`, `k`), if any.
    pub fn get(&self, owner: &str, k: &str) -> (r: Option<&String>)
        ensures
            r is Some <==> lookup_pair(self@, owner@, k@) is Some,
            r matches Some(v) ==> lookup_pair(self@, owner@, k@) == Some(v@),
    {
        proof { lemma_find_pair_bounds(self@, owner@, k@); }
        match self.position(owner, k) {
            Some(i) => Some(&self.entries[i].2),
            None => None,
        }
    }

    /// Stores `v` for (`owner`, `k`), replacing a previous value.
    pub fn insert(&mut self, owner: String, k: String, v: String)
        ensures
            final(self)@ == store_pair(old(self)@, owner@, k@, v@),
    {
        proof { lemma_find_pair_bounds(self@, owner@, k@); }
        match self.position(owner.as_str(), k.as_str()) {
            Some(i) => {
                let ghost kv = (owner@, k@, v@);
                self.entries.set(i, (owner, k, v));
                assert(self@ =~= old(self)@.update(i as int, kv));
            },
            None => {
                let ghost kv = (owner@, k@, v@);
                self.entries.push((owner, k, v));
                assert(self@ =~= old(self)@.push(kv));
            },
        }
    }
}

/// What a front-end gathered from one file: its module id, its imports and
/// aliases, and the relations that the resolution pass turns into edges.
#[derive(Debug, Default)]
pub struct ParseContext {
    pub module_id: String,
    pub file: String,
    pub imports: StrMap,
    pub alias_map: StrMap,
    pub pending_calls: Vec<PendingCall>,
    pub pending_inherits: Vec<(String, String)>,
    pub pending_uses_type: Vec<(String, String)>,
    pub local_var_types: PairMap,
    pub class_fields: PairMap,
    /// Rust `mod foo;` declarations: (parent module id, module name).
    pub pending_mods: Vec<(String, String)>,
}

/// A call site by its strings: caller, callee, receiver, enclosing class.
pub type CallView = (Seq<char>, Seq<char>, Option<Seq<char>>, Option<Seq<char>>);

pub open spec fn opt_str(o: Option<String>) -> Option<Seq<char>> {
    match o {
        Some(s) => Some(s@),
        None => None,
    }
}

pub open spec fn opt_ref_str(o: Option<&str>) -> Option<Seq<char>> {
    match o {
        Some(s) => Some(s@),
        None => None,
    }
}

pub open spec fn call_view(c: PendingCall) -> CallView {
    (c.caller_id@, c.callee_name@, opt_str(c.object), opt_str(c.in_class))
}

pub open spec fn calls_view(cs: Seq<PendingCall>) -> Seq<CallView> {
    cs.map_values(|c: PendingCall| call_view(c))
}

/// The id pairs of a list of string pairs.
pub open spec fn pairs_view(v: Seq<(String, String)>) -> Seq<(Seq<char>, Seq<char>)> {
    v.map_values(|e: (String, String)| (e.0@, e.1@))
}

/// A context only grew: same module and file, and each pending list was
/// extended at its end.
pub open spec fn ctx_grown(old: ParseContext, new: ParseContext) -> bool {
    &&& new.module_id@ == old.module_id@
    &&& new.file@ == old.file@
    &&& old.pending_calls@.len() <= new.pending_calls@.len()
    &&& calls_view(new.pending_calls@).subrange(0, old.pending_calls@.len() as int) == calls_view(old.pending_calls@)
    &&& old.pending_inherits@.len() <= new.pending_inherits@.len()
    &&& pairs_view(new.pending_inherits@).subrange(0, old.pending_inherits@.len() as int) == pairs_view(old.pending_inherits@)
    &&& old.pending_uses_type@.len() <= new.pending_uses_type@.len()
    &&& pairs_view(new.pending_uses_type@).subrange(0, old.pending_uses_type@.len() as int) == pairs_view(old.pending_uses_type@)
    &&& old.pending_mods@.len() <= new.pending_mods@.len()
    &&& pairs_view(new.pending_mods@).subrange(0, old.pending_mods@.len() as int) == pairs_view(old.pending_mods@)
}

/// Growth of contexts composes.
pub proof fn lemma_ctx_grown_trans(a: ParseContext, b: ParseContext, c: ParseContext)
    requires
        ctx_grown(a, b),
        ctx_grown(b, c),
    ensures
        ctx_grown(a, c),
{
    assert(calls_view(c.pending_calls@).subrange(0, a.pending_calls@.len() as int) =~= calls_view(b.pending_calls@).subrange(0, a.pending_calls@.len() as int));
    assert(pairs_view(c.pending_inherits@).subrange(0, a.pending_inherits@.len() as int) =~= pairs_view(b.pending_inherits@).subrange(0, a.pending_inherits@.len() as int));
    assert(pairs_view(c.pending_uses_type@).subrange(0, a.pending_uses_type@.len() as int) =~= pairs_view(b.pending_uses_type@).subrange(0, a.pending_uses_type@.len() as int));
    assert(pairs_view(c.pending_mods@).subrange(0, a.pending_mods@.len() as int) =~= pairs_view(b.pending_mods@).subrange(0, a.pending_mods@.len() as int));
}

/// Every context has grown from itself.
pub proof fn lemma_ctx_grown_refl(a: ParseContext)
    ensures
        ctx_grown(a, a),
{
    assert(calls_view(a.pending_calls@).subrange(0, a.pending_calls@.len() as int) =~= calls_view(a.pending_calls@));
    assert(pairs_view(a.pending_inherits@).subrange(0, a.pending_inherits@.len() as int) =~= pairs_view(a.pending_inherits@));
    assert(pairs_view(a.pending_uses_type@).subrange(0, a.pending_uses_type@.len() as int) =~= pairs_view(a.pending_uses_type@));
    assert(pairs_view(a.pending_mods@).subrange(0, a.pending_mods@.len() as int) =~= pairs_view(a.pending_mods@));
}

} // verus!

verus! {

/// Storing each (key, value) pair in turn.
pub open spec fn store_all(entries: Seq<(Seq<char>, Seq<char>)>, kvs: Seq<(Seq<char>, Seq<char>)>) -> Seq<(Seq<char>, Seq<char>)>
    decreases kvs.len(),
{
    if kvs.len() == 0 {
        entries
    } else {
        store(store_all(entries, kvs.drop_last()), kvs.last().0, kvs.last().1)
    }
}

/// Storing one more pair after a sequence of them.
pub proof fn lemma_store_all_push(entries: Seq<(Seq<char>, Seq<char>)>, kvs: Seq<(Seq<char>, Seq<char>)>, k: Seq<char>, v: Seq<char>)
    ensures
        store_all(entries, kvs.push((k, v))) == store(store_all(entries, kvs), k, v),
{
    assert(kvs.push((k, v)).drop_last() =~= kvs);
}

} // verus!

verus! {

/// A typed name: (whether it is a class field, owner id, name, type name). A
/// field is recorded per class, another name per function.
pub type Binding = (bool, Seq<char>, Seq<char>, Seq<char>);

/// Storing each (owner, key, value) triple in turn.
pub open spec fn store_pairs(entries: Seq<(Seq<char>, Seq<char>, Seq<char>)>, kvs: Seq<(Seq<char>, Seq<char>, Seq<char>)>) -> Seq<(Seq<char>, Seq<char>, Seq<char>)>
    decreases kvs.len(),
{
    if kvs.len() == 0 {
        entries
    } else {
        store_pair(store_pairs(entries, kvs.drop_last()), kvs.last().0, kvs.last().1, kvs.last().2)
    }
}

/// The class fields among the bindings, as (class, field, type).
pub open spec fn field_bindings(bs: Seq<Binding>) -> Seq<(Seq<char>, Seq<char>, Seq<char>)>
    decreases bs.len(),
{
    if bs.len() == 0 {
        Seq::empty()
    } else {
        field_bindings(bs.drop_last()) + if bs.last().0 { seq![(bs.last().1, bs.last().2, bs.last().3)] } else { Seq::empty() }
    }
}

/// The other bindings, as (function, name, type).
pub open spec fn local_bindings(bs: Seq<Binding>) -> Seq<(Seq<char>, Seq<char>, Seq<char>)>
    decreases bs.len(),
{
    if bs.len() == 0 {
        Seq::empty()
    } else {
        local_bindings(bs.drop_last()) + if !bs.last().0 { seq![(bs.last().1, bs.last().2, bs.last().3)] } else { Seq::empty() }
    }
}

/// The type uses the bindings record: (owner, type).
pub open spec fn binding_uses(bs: Seq<Binding>) -> Seq<(Seq<char>, Seq<char>)> {
    bs.map_values(|b: Binding| (b.1, b.3))
}

/// The context changed exactly by recording the bindings in order: each in
/// its table and as a type use of its owner.
pub open spec fn bindings_applied(old: ParseContext, new: ParseContext, bs: Seq<Binding>) -> bool {
    &&& new.class_fields@ == store_pairs(old.class_fields@, field_bindings(bs))
    &&& new.local_var_types@ == store_pairs(old.local_var_types@, local_bindings(bs))
    &&& pairs_view(new.pending_uses_type@) == pairs_view(old.pending_uses_type@) + binding_uses(bs)
    &&& new.module_id == old.module_id
    &&& new.file == old.file
    &&& new.imports == old.imports
    &&& new.alias_map == old.alias_map
    &&& new.pending_calls == old.pending_calls
    &&& new.pending_inherits == old.pending_inherits
    &&& new.pending_mods == old.pending_mods
}

pub proof fn lemma_bindings_refl(c: ParseContext)
    ensures
        bindings_applied(c, c, Seq::empty()),
{
    assert(pairs_view(c.pending_uses_type@) + binding_uses(Seq::empty()) =~= pairs_view(c.pending_uses_type@));
}

proof fn lemma_store_pairs_concat(e: Seq<(Seq<char>, Seq<char>, Seq<char>)>, x: Seq<(Seq<char>, Seq<char>, Seq<char>)>, y: Seq<(Seq<char>, Seq<char>, Seq<char>)>)
    ensures
        store_pairs(e, x + y) == store_pairs(store_pairs(e, x), y),
    decreases y.len(),
{
    if y.len() == 0 {
        assert(x + y =~= x);
    } else {
        assert((x + y).drop_last() =~= x + y.drop_last());
        lemma_store_pairs_concat(e, x, y.drop_last());
    }
}

proof fn lemma_field_bindings_concat(x: Seq<Binding>, y: Seq<Binding>)
    ensures
        field_bindings(x + y) == field_bindings(x) + field_bindings(y),
        local_bindings(x + y) == local_bindings(x) + local_bindings(y),
    decreases y.len(),
{
    if y.len() == 0 {
        assert(x + y =~= x);
        assert(field_bindings(x) + field_bindings(y) =~= field_bindings(x));
        assert(local_bindings(x) + local_bindings(y) =~= local_bindings(x));
    } else {
        assert((x + y).drop_last() =~= x + y.drop_last());
        lemma_field_bindings_concat(x, y.drop_last());
        assert(field_bindings(x + y) =~= field_bindings(x) + field_bindings(y));
        assert(local_bindings(x + y) =~= local_bindings(x) + local_bindings(y));
    }
}

pub proof fn lemma_bindings_trans(a: ParseContext, b: ParseContext, c: ParseContext, x: Seq<Binding>, y: Seq<Binding>)
    requires
        bindings_applied(a, b, x),
        bindings_applied(b, c, y),
    ensures
        bindings_applied(a, c, x + y),
{
    lemma_field_bindings_concat(x, y);
    lemma_store_pairs_concat(a.class_fields@, field_bindings(x), field_bindings(y));
    lemma_store_pairs_concat(a.local_var_types@, local_bindings(x), local_bindings(y));
    assert(binding_uses(x + y) =~= binding_uses(x) + binding_uses(y));
    assert(pairs_view(a.pending_uses_type@) + binding_uses(x) + binding_uses(y) =~= pairs_view(a.pending_uses_type@) + (binding_uses(x) + binding_uses(y)));
}

pub proof fn lemma_bindings_grown(a: ParseContext, b: ParseContext, x: Seq<Binding>)
    requires
        bindings_applied(a, b, x),
    ensures
        ctx_grown(a, b),
{
    let n = a.pending_uses_type@.len();
    assert(pairs_view(b.pending_uses_type@).len() == b.pending_uses_type@.len());
    assert(pairs_view(a.pending_uses_type@).len() == n);
    assert(pairs_view(b.pending_uses_type@).subrange(0, n as int) =~= pairs_view(a.pending_uses_type@));
    lemma_ctx_grown_refl(a);
    assert(calls_view(b.pending_calls@) == calls_view(a.pending_calls@));
    assert(pairs_view(b.pending_inherits@) == pairs_view(a.pending_inherits@));
    assert(pairs_view(b.pending_mods@) == pairs_view(a.pending_mods@));
}

/// Records one binding: in the class-field table when `is_field`, else in
/// the local-variable table, and as a type use of its owner.
pub fn apply_binding(ctx: &mut ParseContext, is_field: bool, owner: String, name: String, ty: String)
    ensures
        bindings_applied(*old(ctx), *final(ctx), seq![(is_field, owner@, name@, ty@)]),
{
    let ghost b: Binding = (is_field, owner@, name@, ty@);
    if is_field {
        ctx.class_fields.insert(owner.clone(), name, ty.clone());
    } else {
        ctx.local_var_types.insert(owner.clone(), name, ty.clone());
    }
    ctx.pending_uses_type.push((owner, ty));
    proof {
        reveal_with_fuel(field_bindings, 2);
        reveal_with_fuel(local_bindings, 2);
        reveal_with_fuel(store_pairs, 2);
        assert(seq![b].drop_last() =~= Seq::<Binding>::empty());
        assert(field_bindings(seq![b]) =~= if is_field { seq![(b.1, b.2, b.3)] } else { Seq::empty() });
        assert(local_bindings(seq![b]) =~= if !is_field { seq![(b.1, b.2, b.3)] } else { Seq::empty() });
        assert(pairs_view(ctx.pending_uses_type@) =~= pairs_view(old(ctx).pending_uses_type@) + binding_uses(seq![b]));
    }
}

} // verus!

verus! {

/// What a lookup finds after a store: the stored value under the stored key,
/// what was there before under any other key.
pub proof fn lemma_lookup_store(e: Seq<(Seq<char>, Seq<char>)>, k: Seq<char>, v: Seq<char>, k2: Seq<char>)
    ensures
        lookup(store(e, k, v), k2) == if k2 == k { Some(v) } else { lookup(e, k2) },
{
    lemma_find_key_bounds(e, k);
    lemma_find_key_bounds(e, k2);
    let s = store(e, k, v);
    let i = find_key(e, k);
    lemma_find_key_bounds(s, k2);
    if k2 == k {
        if i >= 0 {
            lemma_find_key_is_first(s, k, i);
        } else {
            lemma_find_key_is_first(s, k, e.len() as int);
        }
    } else {
        let j = find_key(e, k2);
        if j >= 0 {
            assert(j != i);
            assert forall|x: int| 0 <= x < j implies #[trigger] s[x].0 != k2 by {
                if x != i {
                    assert(s[x] == e[x]);
                }
            }
            lemma_find_key_is_first(s, k2, j);
        } else {
            if find_key(s, k2) >= 0 {
                let x = find_key(s, k2);
                if x != i && x < e.len() {
                    assert(s[x] == e[x]);
                }
            }
        }
    }
}

/// After storing pairs with distinct keys into an empty table, each key
/// finds its own value.
pub proof fn lemma_lookup_store_all_distinct(kvs: Seq<(Seq<char>, Seq<char>)>, i: int)
    requires
        0 <= i < kvs.len(),
        forall|a: int, b: int| 0 <= a < kvs.len() && 0 <= b < kvs.len() && a != b ==> #[trigger] kvs[a].0 != #[trigger] kvs[b].0,
    ensures
        lookup(store_all(Seq::empty(), kvs), kvs[i].0) == Some(kvs[i].1),
    decreases kvs.len(),
{
    let last = kvs.len() - 1;
    lemma_lookup_store(store_all(Seq::empty(), kvs.drop_last()), kvs[last].0, kvs[last].1, kvs[i].0);
    if i < last {
        assert(kvs[i].0 != kvs[last].0);
        let d = kvs.drop_last();
        assert forall|a: int, b: int| 0 <= a < d.len() && 0 <= b < d.len() && a != b implies #[trigger] d[a].0 != #[trigger] d[b].0 by {
            assert(d[a] == kvs[a] && d[b] == kvs[b]);
        }
        lemma_lookup_store_all_distinct(d, i);
        assert(d[i] == kvs[i]);
    }
}

} // verus!
