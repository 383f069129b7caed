use crate::bindings::{
    distinct_names, lemma_bindings_at, lemma_bindings_dom, lemma_bindings_len, lemma_bindings_push,
    lemma_bindings_update, position_of_name,
};
use crate::expr::{
    bindings_term, duplicate_bindings, free_of_nul, Atomic, Binding, Expression, Term,
};
use crate::key::{
    lawful_key, lemma_clone_same_key, lemma_is_same_key_decides, lemma_same_key_reflexive,
    lemma_same_key_same_symbol, lemma_same_key_transitive, lemma_symbol_is_symbol_name,
    ExpressionMapKey,
};
use crate::laws::{lemma_inserted_well_formed, lemma_same_keys_hold_alike};
use vstd::prelude::*;
use vstd::std_specs::cmp::PartialEqSpecImpl;

verus! {

/// Whether an index holds a key that is the same as `key`.
pub open spec fn holds<K: ExpressionMapKey>(index: Seq<K>, key: &K) -> bool {
    exists|i: int| 0 <= i < index.len() && (#[trigger] index[i]).same_key(key)
}

/// Whether each key of `inner` is held by `outer`.
pub open spec fn covers_spec<K: ExpressionMapKey>(outer: Seq<K>, inner: Seq<K>) -> bool {
    forall|i: int| 0 <= i < inner.len() ==> holds(outer, #[trigger] &inner[i])
}

/// The names of the symbols that the first `count` keys of an index stand for.
pub open spec fn covered<K: ExpressionMapKey>(keys: Seq<K>, count: int) -> Set<Seq<char>> {
    Set::new(|name: Seq<char>| exists|i: int| 0 <= i < count && (#[trigger] keys[i]).symbol_name() == name)
}

/// Whether two indexes of one length hold, place by place, the same keys.
pub open spec fn same_keys<K: ExpressionMapKey>(a: Seq<K>, b: Seq<K>) -> bool {
    &&& a.len() == b.len()
    &&& forall|i: int| 0 <= i < a.len() ==> (#[trigger] a[i]).same_key(&b[i])
}

/// The bindings that a list of entries gives when they are inserted in order.
pub open spec fn collected_bindings<K: ExpressionMapKey>(entries: Seq<(K, Expression)>) -> Map<
    Seq<char>,
    Term,
>
    decreases entries.len(),
{
    if entries.len() == 0 {
        Map::empty()
    } else {
        collected_bindings(entries.drop_last()).insert(
            entries.last().0.symbol_name(),
            entries.last().1@,
        )
    }
}

/// The index that a list of entries gives when they are inserted in order: each key where
/// it first occurs.
pub open spec fn collected_keys<K: ExpressionMapKey>(entries: Seq<(K, Expression)>) -> Seq<K>
    decreases entries.len(),
{
    if entries.len() == 0 {
        Seq::empty()
    } else {
        let front = collected_keys(entries.drop_last());
        if holds(front, &entries.last().0) {
            front
        } else {
            front.push(entries.last().0)
        }
    }
}

/// Whether some entry of a list has a key that is the same as `key`.
pub open spec fn keyed<K: ExpressionMapKey>(list: Seq<(K, Expression)>, key: &K) -> bool {
    exists|j: int| 0 <= j < list.len() && (#[trigger] list[j]).0.same_key(key)
}

/// The names of the symbols that the keys of the first `count` entries of a list stand for.
pub open spec fn entry_names<K: ExpressionMapKey>(list: Seq<(K, Expression)>, count: int) -> Set<
    Seq<char>,
> {
    Set::new(
        |name: Seq<char>| exists|j: int| 0 <= j < count && (#[trigger] list[j]).0.symbol_name() == name,
    )
}

/// The term of an expression that may be absent.
pub open spec fn term_of(found: Option<Expression>) -> Option<Term> {
    match found {
        Some(value) => Some(value@),
        None => None,
    }
}

/// Where a key that is the same as `key` stands in an index, if any does.
fn position_of<K: ExpressionMapKey>(index: &Vec<K>, key: &K) -> (found: Option<usize>)
    ensures
        found matches Some(at) ==> at < index@.len(),
        lawful_key::<K>() ==> (found matches Some(at) ==> index@[at as int].same_key(key)),
        lawful_key::<K>() ==> (found is None ==> !holds(index@, key)),
{
    let mut at: usize = 0;
    while at < index.len()
        invariant
            at <= index@.len(),
            lawful_key::<K>() ==> forall|i: int|
                0 <= i < at ==> !(#[trigger] index@[i]).same_key(key),
        decreases index@.len() - at,
    {
        let same = index[at].is_same_key(key);
        proof {
            if lawful_key::<K>() {
                lemma_is_same_key_decides(&index@[at as int], key, same);
            }
        }
        if same {
            return Some(at);
        }
        at += 1;
    }
    None
}

/// Whether each key of `inner` is held by `outer`.
fn covers<K: ExpressionMapKey>(outer: &Vec<K>, inner: &Vec<K>) -> (all: bool)
    ensures
        lawful_key::<K>() ==> all == covers_spec(outer@, inner@),
{
    let mut at: usize = 0;
    while at < inner.len()
        invariant
            at <= inner@.len(),
            lawful_key::<K>() ==> forall|i: int| 0 <= i < at ==> holds(outer@, #[trigger] &inner@[i]),
        decreases inner@.len() - at,
    {
        match position_of(outer, &inner[at]) {
            Some(held) => {
                assert(lawful_key::<K>() ==> outer@[held as int].same_key(&inner@[at as int]));
            },
            None => {
                return false;
            },
        }
        at += 1;
    }
    true
}

/// A substitution table: symbols, addressed by keys of type `K`, and the expression that
/// replaces each. The table keeps an index of the keys that were inserted beside the
/// bindings themselves, which go by the keys' symbol names.
///
/// With a lawful key type every table is in lock-step (`well_formed`): the functions that
/// make or change a table say so of their result, and `get`, `len` and `entries` say so of
/// the table that they read.
#[derive(Debug)]
pub struct ExpressionMap<K> where K: ExpressionMapKey {
    basic: Vec<Binding>,
    table: Vec<K>,
}

impl<K: ExpressionMapKey> ExpressionMap<K> {
    /// The keys of the index, in the order in which they were first inserted.
    pub closed spec fn keys(&self) -> Seq<K> {
        self.table@
    }

    /// The bindings: for each bound symbol's name, the term that replaces the symbol.
    pub closed spec fn bindings(&self) -> Map<Seq<char>, Term> {
        bindings_term(self.basic@)
    }

    /// Whether the index holds a key that is the same as `key`.
    pub open spec fn has_key(&self, key: &K) -> bool {
        holds(self.keys(), key)
    }

    /// Whether some key of the index stands for the symbol `name`.
    pub open spec fn indexes(&self, name: Seq<char>) -> bool {
        exists|i: int| 0 <= i < self.keys().len() && (#[trigger] self.keys()[i]).symbol_name() == name
    }

    /// The index and the bindings in lock-step: no key stands in the index twice, and a
    /// symbol is bound exactly if a key of the index stands for it. The name of no bound
    /// symbol holds a NUL character.
    pub open spec fn well_formed(&self) -> bool {
        &&& forall|i: int, j: int|
            0 <= i < j < self.keys().len() ==> !(#[trigger] self.keys()[i]).same_key(
                #[trigger] &self.keys()[j],
            )
        &&& self.bindings().dom().finite()
        &&& forall|name: Seq<char>| self.bindings().dom().contains(name) <==> self.indexes(name)
        &&& forall|name: Seq<char>| self.bindings().dom().contains(name) ==> free_of_nul(name)
    }

    #[verifier::type_invariant]
    spec fn inv(&self) -> bool {
        lawful_key::<K>() ==> self.well_formed() && distinct_names(self.basic@)
    }

    /// The term that `key` is bound to, if the index holds the key.
    pub open spec fn lookup(&self, key: &K) -> Option<Term> {
        if self.has_key(key) {
            Some(self.bindings()[key.symbol_name()])
        } else {
            None
        }
    }

    /// The term that one pass of the whole table over `target` yields.
    pub open spec fn substitution(&self, target: Term) -> Term {
        Term::Substitution(Box::new(target), self.bindings())
    }

    /// Whether `after` is this table with `value` inserted under `key`: the symbol of `key`
    /// is bound to `value`, whatever it was bound to before, and `key` has joined the
    /// index unless the index held it already.
    pub open spec fn inserts(&self, key: &K, value: Term, after: &Self) -> bool {
        &&& after.bindings() == self.bindings().insert(key.symbol_name(), value)
        &&& after.keys() == if self.has_key(key) {
            self.keys()
        } else {
            self.keys().push(*key)
        }
    }

    /// An empty table.
    pub fn new() -> (made: Self)
        ensures
            made.keys() == Seq::<K>::empty(),
            made.bindings() == Map::<Seq<char>, Term>::empty(),
            made.well_formed(),
    {
        Self::default()
    }

    /// Binds the symbol of `key` to `value`. A binding that the symbol had is replaced.
    /// The name of the symbol holds no NUL character.
    pub fn insert<V: Atomic>(&mut self, key: K, value: V)
        requires
            free_of_nul(key.symbol_name()),
        ensures
            lawful_key::<K>() ==> final(self).well_formed(),
            lawful_key::<K>() ==> old(self).inserts(&key, value.lifted(), final(self)),
    {
        self.insert_expression(key, value.lift());
    }

    fn insert_expression(&mut self, key: K, value: Expression)
        requires
            lawful_key::<K>() ==> free_of_nul(key.symbol_name()),
        ensures
            lawful_key::<K>() ==> final(self).well_formed(),
            lawful_key::<K>() ==> old(self).inserts(&key, value@, final(self)),
    {
        let mut taken = ExpressionMap { basic: Vec::new(), table: Vec::new() };
        std::mem::swap(self, &mut taken);
        proof {
            use_type_invariant(&taken);
        }
        let ghost before = taken;
        let ExpressionMap { mut basic, mut table } = taken;
        let name = key.symbol();
        proof {
            if lawful_key::<K>() {
                lemma_symbol_is_symbol_name(&key, name);
            }
        }
        let binding = Binding { name, value };
        proof {
            lemma_bindings_push(basic@, binding);
            lemma_bindings_dom(basic@);
        }
        match position_of_name(&basic, &binding.name) {
            Some(at) => {
                proof {
                    if lawful_key::<K>() {
                        lemma_bindings_update(basic@, at as int, binding);
                    }
                }
                basic.set(at, binding);
            },
            None => {
                basic.push(binding);
            },
        }
        if position_of(&table, &key).is_none() {
            table.push(key);
        }
        proof {
            lemma_bindings_dom(basic@);
            if lawful_key::<K>() {
                let after = ExpressionMap { basic, table };
                lemma_inserted_well_formed(before, key, value@, after);
            }
        }
        *self = ExpressionMap { basic, table };
    }

    /// The expression that `key` is bound to, if the index holds the key.
    pub fn get(&self, key: &K) -> (found: Option<Expression>)
        ensures
            lawful_key::<K>() ==> self.well_formed(),
            lawful_key::<K>() ==> term_of(found) == self.lookup(key),
    {
        proof {
            use_type_invariant(self);
        }
        match position_of(&self.table, key) {
            Some(held) => {
                let name = key.symbol();
                proof {
                    if lawful_key::<K>() {
                        lemma_symbol_is_symbol_name(key, name);
                        lemma_bindings_dom(self.basic@);
                        lemma_same_key_same_symbol(&self.keys()[held as int], key);
                        assert(self.keys()[held as int].symbol_name() == name@);
                        assert(self.indexes(name@));
                    }
                }
                match position_of_name(&self.basic, &name) {
                    Some(at) => {
                        proof {
                            if lawful_key::<K>() {
                                lemma_bindings_at(self.basic@, at as int);
                            }
                        }
                        Some(self.basic[at].value.clone())
                    },
                    None => None,
                }
            },
            None => None,
        }
    }

    /// Whether the index holds a key that is the same as `key`. The bindings are not asked.
    pub fn contains_key(&self, key: &K) -> (found: bool)
        ensures
            lawful_key::<K>() ==> found == self.has_key(key),
    {
        match position_of(&self.table, key) {
            Some(held) => {
                assert(lawful_key::<K>() ==> self.keys()[held as int].same_key(key));
                true
            },
            None => false,
        }
    }

    /// One pass of the whole table over `expr`: every bound symbol is replaced at once,
    /// and what replaces it is not itself searched again.
    pub fn eval_once(&self, expr: &Expression) -> (out: Expression)
        ensures
            out@ == self.substitution(expr@),
    {
        expr.substituted(duplicate_bindings(&self.basic))
    }

    /// What `key` is bound to, after one pass of the whole table over it.
    pub fn eval_key(&self, key: &K) -> (out: Option<Expression>)
        ensures
            lawful_key::<K>() ==> term_of(out) == match self.lookup(key) {
                Some(value) => Some(self.substitution(value)),
                None => None,
            },
    {
        match self.get(key) {
            Some(value) => Some(self.eval_once(&value)),
            None => None,
        }
    }

    /// Whether no symbol is bound. Symbols are told apart as `len` tells them.
    pub fn is_empty(&self) -> (empty: bool)
        ensures
            lawful_key::<K>() ==> empty == (self.bindings().dom().len() == 0),
    {
        self.len() == 0
    }

    /// The number of bound symbols. Symbols are counted by their names as texts, character
    /// by character: keys named `a` and ` a` bind two symbols here, whatever the engine
    /// reads from the two names.
    pub fn len(&self) -> (count: u64)
        ensures
            lawful_key::<K>() ==> self.well_formed(),
            lawful_key::<K>() ==> count == self.bindings().dom().len(),
    {
        proof {
            use_type_invariant(self);
            if lawful_key::<K>() {
                lemma_bindings_len(self.basic@);
            }
        }
        self.basic.len() as u64
    }

    /// Whether `list` holds the table's entries in index order: for each key of the
    /// index a key that is the same, with the term that the key is bound to.
    pub open spec fn lists(&self, list: Seq<(K, Expression)>) -> bool {
        &&& list.len() == self.keys().len()
        &&& forall|i: int|
            0 <= i < list.len() ==> {
                &&& self.keys()[i].same_key(&(#[trigger] list[i]).0)
                &&& list[i].1@ == self.bindings()[self.keys()[i].symbol_name()]
            }
    }

    /// Whether `list` holds the table's entries in some order: each entry has a key of
    /// the index with the term that the key is bound to, and each key of the index has an
    /// entry. An entry may stand in the list more than once.
    pub open spec fn lists_in_any_order(&self, list: Seq<(K, Expression)>) -> bool {
        &&& forall|j: int|
            0 <= j < list.len() ==> {
                &&& self.has_key(&(#[trigger] list[j]).0)
                &&& list[j].1@ == self.bindings()[list[j].0.symbol_name()]
            }
        &&& forall|i: int|
            0 <= i < self.keys().len() ==> keyed(list, #[trigger] &self.keys()[i])
    }

    /// The table's entries in index order: a clone of each key, with the expression that
    /// the key is bound to.
    pub fn entries(&self) -> (list: Vec<(K, Expression)>)
        ensures
            lawful_key::<K>() ==> self.well_formed(),
            lawful_key::<K>() ==> self.lists(list@),
    {
        proof {
            use_type_invariant(self);
        }
        let mut list: Vec<(K, Expression)> = Vec::new();
        let mut at: usize = 0;
        while at < self.table.len()
            invariant
                at <= self.table@.len(),
                lawful_key::<K>() ==> self.well_formed(),
                lawful_key::<K>() ==> list@.len() == at,
                lawful_key::<K>() ==> forall|i: int|
                    0 <= i < at ==> {
                        &&& self.keys()[i].same_key(&(#[trigger] list@[i]).0)
                        &&& list@[i].1@ == self.bindings()[self.keys()[i].symbol_name()]
                    },
            decreases self.table@.len() - at,
        {
            let key = &self.table[at];
            proof {
                if lawful_key::<K>() {
                    lemma_same_key_reflexive(key);
                    assert(self.keys()[at as int].same_key(key));
                }
            }
            match self.get(key) {
                Some(value) => {
                    let twin = key.clone();
                    proof {
                        if lawful_key::<K>() {
                            lemma_clone_same_key(key, &twin);
                        }
                    }
                    list.push((twin, value));
                },
                None => {},
            }
            at += 1;
        }
        list
    }

    /// The table that a list of entries gives: a clone of each is inserted, in order.
    pub fn from_entries(entries: &Vec<(K, Expression)>) -> (made: Self)
        requires
            forall|i: int| 0 <= i < entries@.len() ==> free_of_nul((#[trigger] entries@[i]).0.symbol_name()),
        ensures
            lawful_key::<K>() ==> made.well_formed(),
            lawful_key::<K>() ==> made.bindings() == collected_bindings(entries@),
            lawful_key::<K>() ==> same_keys(collected_keys(entries@), made.keys()),
    {
        let mut made = Self::new();
        let mut at: usize = 0;
        while at < entries.len()
            invariant
                at <= entries@.len(),
                forall|i: int|
                    0 <= i < entries@.len() ==> free_of_nul((#[trigger] entries@[i]).0.symbol_name()),
                lawful_key::<K>() ==> made.well_formed(),
                lawful_key::<K>() ==> made.bindings() == collected_bindings(entries@.take(at as int)),
                lawful_key::<K>() ==> same_keys(collected_keys(entries@.take(at as int)), made.keys()),
            decreases entries@.len() - at,
        {
            let key = entries[at].0.clone();
            let value = entries[at].1.clone();
            let ghost before = made;
            proof {
                if lawful_key::<K>() {
                    lemma_clone_same_key(&entries@[at as int].0, &key);
                }
            }
            made.insert_expression(key, value);
            proof {
                if lawful_key::<K>() {
                    let front = entries@.take(at as int);
                    let longer = entries@.take(at + 1);
                    assert(longer.drop_last() =~= front);
                    assert(longer.last() == entries@[at as int]);
                    lemma_clone_same_key(&entries@[at as int].0, &key);
                    lemma_same_keys_hold_alike(
                        collected_keys(front),
                        before.keys(),
                        &entries@[at as int].0,
                        &key,
                    );
                }
            }
            at += 1;
        }
        proof {
            assert(entries@.take(at as int) =~= entries@);
        }
        made
    }
}

impl<K: ExpressionMapKey> Default for ExpressionMap<K> {
    fn default() -> (made: Self)
        ensures
            made.keys() == Seq::<K>::empty(),
            made.bindings() == Map::<Seq<char>, Term>::empty(),
            made.well_formed(),
    {
        ExpressionMap { basic: Vec::new(), table: Vec::new() }
    }
}

impl<K: ExpressionMapKey> Clone for ExpressionMap<K> {
    /// A table of its own with the same bindings, made by inserting, for each key of the
    /// index in turn, a clone of the key with what the key is bound to.
    fn clone(&self) -> (copy: Self)
        ensures
            lawful_key::<K>() ==> copy.well_formed(),
            lawful_key::<K>() ==> copy.bindings() == self.bindings(),
            lawful_key::<K>() ==> same_keys(self.keys(), copy.keys()),
    {
        proof {
            use_type_invariant(self);
        }
        let mut copy = Self::new();
        let mut at: usize = 0;
        while at < self.table.len()
            invariant
                at <= self.table@.len(),
                lawful_key::<K>() ==> self.well_formed(),
                lawful_key::<K>() ==> copy.well_formed(),
                lawful_key::<K>() ==> same_keys(self.keys().take(at as int), copy.keys()),
                lawful_key::<K>() ==> copy.bindings() == self.bindings().restrict(
                    covered(self.keys(), at as int),
                ),
            decreases self.table@.len() - at,
        {
            let key = &self.table[at];
            let ghost before = copy;
            proof {
                if lawful_key::<K>() {
                    lemma_same_key_reflexive(key);
                    assert(self.keys()[at as int].same_key(key));
                    assert(self.indexes(key.symbol_name()));
                }
            }
            match self.get(key) {
                Some(value) => {
                    let twin = key.clone();
                    proof {
                        if lawful_key::<K>() {
                            lemma_clone_same_key(key, &twin);
                        }
                    }
                    copy.insert_expression(twin, value);
                    proof {
                        if lawful_key::<K>() {
                            if before.has_key(&twin) {
                                let i = choose|i: int|
                                    0 <= i < before.keys().len() && (#[trigger] before.keys()[i]).same_key(
                                        &twin,
                                    );
                                assert(self.keys().take(at as int)[i].same_key(&before.keys()[i]));
                                lemma_same_key_transitive(&self.keys()[i], &before.keys()[i], &twin);
                                lemma_same_key_transitive(&self.keys()[i], &twin, key);
                                assert(self.keys()[i].same_key(&self.keys()[at as int]));
                            }
                            assert(copy.keys() == before.keys().push(twin));
                            assert(self.keys().take(at + 1) =~= self.keys().take(at as int).push(*key));
                            assert(same_keys(self.keys().take(at + 1), copy.keys())) by {
                                assert forall|i: int| 0 <= i < at + 1 implies (#[trigger] self.keys().take(
                                    at + 1,
                                )[i]).same_key(&copy.keys()[i]) by {
                                    if i < at {
                                        assert(self.keys().take(at as int)[i].same_key(&before.keys()[i]));
                                    }
                                }
                            }
                            assert(copy.bindings() =~= self.bindings().restrict(
                                covered(self.keys(), at + 1),
                            )) by {
                                assert(covered(self.keys(), at + 1) =~= covered(
                                    self.keys(),
                                    at as int,
                                ).insert(key.symbol_name()));
                            }
                        }
                    }
                },
                None => {},
            }
            at += 1;
        }
        proof {
            if lawful_key::<K>() {
                assert(self.keys().take(at as int) =~= self.keys());
                assert(copy.bindings() =~= self.bindings()) by {
                    assert forall|name: Seq<char>| self.bindings().dom().contains(name) implies covered(
                        self.keys(),
                        at as int,
                    ).contains(name) by {
                        assert(self.indexes(name));
                    }
                }
            }
        }
        copy
    }
}

impl<K: ExpressionMapKey> PartialEq for ExpressionMap<K> {
    /// Whether the two indexes hold the same keys. What the keys are bound to is not
    /// compared.
    fn eq(&self, other: &Self) -> (equal: bool) {
        let equal = covers(&other.table, &self.table) && covers(&self.table, &other.table);
        proof {
            if lawful_key::<K>() {
                if equal {
                    assert forall|key: K| self.has_key(&key) <==> other.has_key(&key) by {
                        if self.has_key(&key) {
                            let i = choose|i: int|
                                0 <= i < self.keys().len() && (#[trigger] self.keys()[i]).same_key(&key);
                            let j = choose|j: int|
                                0 <= j < other.keys().len() && (#[trigger] other.keys()[j]).same_key(
                                    &self.keys()[i],
                                );
                            lemma_same_key_transitive(&other.keys()[j], &self.keys()[i], &key);
                        }
                        if other.has_key(&key) {
                            let i = choose|i: int|
                                0 <= i < other.keys().len() && (#[trigger] other.keys()[i]).same_key(&key);
                            let j = choose|j: int|
                                0 <= j < self.keys().len() && (#[trigger] self.keys()[j]).same_key(
                                    &other.keys()[i],
                                );
                            lemma_same_key_transitive(&self.keys()[j], &other.keys()[i], &key);
                        }
                    }
                } else {
                    if !covers_spec(other.keys(), self.keys()) {
                        let i = choose|i: int|
                            0 <= i < self.keys().len() && !other.has_key(#[trigger] &self.keys()[i]);
                        lemma_same_key_reflexive(&self.keys()[i]);
                        assert(self.has_key(&self.keys()[i]));
                    } else {
                        let i = choose|i: int|
                            0 <= i < other.keys().len() && !self.has_key(#[trigger] &other.keys()[i]);
                        lemma_same_key_reflexive(&other.keys()[i]);
                        assert(other.has_key(&other.keys()[i]));
                    }
                }
            }
        }
        equal
    }
}

impl<K: ExpressionMapKey> PartialEqSpecImpl for ExpressionMap<K> {
    open spec fn obeys_eq_spec() -> bool {
        lawful_key::<K>()
    }

    open spec fn eq_spec(&self, other: &Self) -> bool {
        forall|key: K| self.has_key(&key) <==> other.has_key(&key)
    }
}

impl Expression {
    /// This expression after one pass of the whole table `subs` over it.
    pub fn subs<K: ExpressionMapKey>(&self, subs: &ExpressionMap<K>) -> (out: Self)
        ensures
            out@ == subs.substitution(self@),
    {
        subs.eval_once(self)
    }
}

} // verus!
