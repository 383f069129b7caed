use crate::expr::{free_of_nul, Expression, Term};
use crate::key::{
    lawful_key, lemma_same_key_reflexive, lemma_same_key_same_symbol, lemma_same_key_symmetric,
    lemma_same_key_transitive, ExpressionMapKey,
};
use crate::map::{
    collected_bindings, collected_keys, covered, entry_names, holds, keyed, same_keys,
    ExpressionMap,
};
use vstd::prelude::*;

verus! {

/// Inserting into a table that is in lock-step leaves it in lock-step.
pub proof fn lemma_inserted_well_formed<K: ExpressionMapKey>(
    before: ExpressionMap<K>,
    key: K,
    value: Term,
    after: ExpressionMap<K>,
)
    requires
        lawful_key::<K>(),
        before.well_formed(),
        free_of_nul(key.symbol_name()),
        before.inserts(&key, value, &after),
    ensures
        after.well_formed(),
{
    assert forall|i: int, j: int| 0 <= i < j < after.keys().len() implies !(#[trigger] after.keys()[i]).same_key(
        #[trigger] &after.keys()[j],
    ) by {
        if !before.has_key(&key) && j == before.keys().len() {
            assert(!before.keys()[i].same_key(&key));
        }
        if !before.has_key(&key) {
            assert(after.keys() == before.keys().push(key));
        }
    }
    assert forall|name: Seq<char>| after.bindings().dom().contains(name) <==> after.indexes(
        name,
    ) by {
        if after.indexes(name) {
            let i = choose|i: int|
                0 <= i < after.keys().len() && (#[trigger] after.keys()[i]).symbol_name() == name;
            if i < before.keys().len() {
                assert(before.keys()[i].symbol_name() == name);
                assert(before.indexes(name));
            }
        }
        if after.bindings().dom().contains(name) {
            if name == key.symbol_name() {
                if before.has_key(&key) {
                    let i = choose|i: int|
                        0 <= i < before.keys().len() && (#[trigger] before.keys()[i]).same_key(&key);
                    lemma_same_key_same_symbol(&before.keys()[i], &key);
                    assert(after.keys()[i].symbol_name() == name);
                } else {
                    assert(after.keys()[before.keys().len() as int].symbol_name() == name);
                }
            } else {
                assert(before.indexes(name));
                let i = choose|i: int|
                    0 <= i < before.keys().len() && (#[trigger] before.keys()[i]).symbol_name() == name;
                assert(after.keys()[i].symbol_name() == name);
            }
        }
    }
}

/// Indexes that hold, place by place, the same keys hold a key or lack it together.
pub proof fn lemma_same_keys_hold_alike<K: ExpressionMapKey>(a: Seq<K>, b: Seq<K>, x: &K, y: &K)
    requires
        lawful_key::<K>(),
        same_keys(a, b),
        x.same_key(y),
    ensures
        holds(a, x) == holds(b, y),
{
    lemma_same_key_symmetric(x, y);
    if holds(a, x) {
        let i = choose|i: int| 0 <= i < a.len() && (#[trigger] a[i]).same_key(x);
        assert(a[i].same_key(&b[i]));
        lemma_same_key_symmetric(&a[i], &b[i]);
        lemma_same_key_transitive(&b[i], &a[i], x);
        lemma_same_key_transitive(&b[i], x, y);
    }
    if holds(b, y) {
        let i = choose|i: int| 0 <= i < b.len() && (#[trigger] b[i]).same_key(y);
        assert(a[i].same_key(&b[i]));
        lemma_same_key_transitive(&a[i], &b[i], y);
        lemma_same_key_transitive(&a[i], y, x);
    }
}

/// A clone of a table substitutes as the table does: one pass of the clone over an
/// expression asks the engine for what one pass of the table asks, and a key is bound
/// in the clone to what it is bound to in the table.
pub proof fn lemma_clone_substitutes_alike<K: ExpressionMapKey>(
    table: ExpressionMap<K>,
    copy: ExpressionMap<K>,
    expr: Expression,
    key: K,
)
    requires
        lawful_key::<K>(),
        cloned(table, copy),
    ensures
        copy.substitution(expr@) == table.substitution(expr@),
        copy.lookup(&key) == table.lookup(&key),
{
    if copy == table {
        assert forall|i: int| 0 <= i < table.keys().len() implies (#[trigger] table.keys()[i]).same_key(
            &copy.keys()[i],
        ) by {
            lemma_same_key_reflexive(&table.keys()[i]);
        }
    }
    lemma_same_key_reflexive(&key);
    lemma_same_keys_hold_alike(table.keys(), copy.keys(), &key, &key);
}

/// A table goes by the symbols that its keys stand for, whatever the type of the keys.
/// Two tables with the same bindings, over key types of their own, have the same bindings
/// again after an insertion under keys that stand for one symbol; from then on they hold
/// as many bindings, substitute alike, and give the inserted value back under those keys.
pub proof fn lemma_keys_act_by_their_symbols<A: ExpressionMapKey, B: ExpressionMapKey>(
    left: ExpressionMap<A>,
    right: ExpressionMap<B>,
    a: A,
    b: B,
    value: Term,
    left_after: ExpressionMap<A>,
    right_after: ExpressionMap<B>,
    target: Term,
)
    requires
        lawful_key::<A>(),
        lawful_key::<B>(),
        left.bindings() == right.bindings(),
        a.symbol_name() == b.symbol_name(),
        left.inserts(&a, value, &left_after),
        right.inserts(&b, value, &right_after),
    ensures
        left_after.bindings() == right_after.bindings(),
        left_after.bindings().dom().len() == right_after.bindings().dom().len(),
        left_after.substitution(target) == right_after.substitution(target),
        left_after.lookup(&a) == Some(value),
        right_after.lookup(&b) == Some(value),
{
    lemma_same_key_reflexive(&a);
    lemma_same_key_reflexive(&b);
    if left.has_key(&a) {
        let i = choose|i: int| 0 <= i < left.keys().len() && (#[trigger] left.keys()[i]).same_key(&a);
        assert(left_after.keys()[i].same_key(&a));
    } else {
        assert(left_after.keys()[left.keys().len() as int].same_key(&a));
    }
    if right.has_key(&b) {
        let i = choose|i: int| 0 <= i < right.keys().len() && (#[trigger] right.keys()[i]).same_key(&b);
        assert(right_after.keys()[i].same_key(&b));
    } else {
        assert(right_after.keys()[right.keys().len() as int].same_key(&b));
    }
}

/// The entries of a table that is in lock-step give, inserted in order, the table's
/// own bindings, and an index that holds place by place the same keys.
pub proof fn lemma_entries_rebuild<K: ExpressionMapKey>(
    table: ExpressionMap<K>,
    list: Seq<(K, Expression)>,
)
    requires
        lawful_key::<K>(),
        table.well_formed(),
        table.lists(list),
    ensures
        collected_bindings(list) == table.bindings(),
        same_keys(table.keys(), collected_keys(list)),
{
    lemma_entries_rebuild_up_to(table, list, list.len() as int);
    assert(list.take(list.len() as int) =~= list);
    assert(table.keys().take(list.len() as int) =~= table.keys());
    assert(collected_bindings(list) =~= table.bindings()) by {
        assert forall|name: Seq<char>| table.bindings().dom().contains(name) implies covered(
            table.keys(),
            list.len() as int,
        ).contains(name) by {
            assert(table.indexes(name));
        }
    }
}

proof fn lemma_entries_rebuild_up_to<K: ExpressionMapKey>(
    table: ExpressionMap<K>,
    list: Seq<(K, Expression)>,
    count: int,
)
    requires
        lawful_key::<K>(),
        table.well_formed(),
        table.lists(list),
        0 <= count <= list.len(),
    ensures
        collected_bindings(list.take(count)) == table.bindings().restrict(
            covered(table.keys(), count),
        ),
        same_keys(table.keys().take(count), collected_keys(list.take(count))),
    decreases count,
{
    if count == 0 {
        assert(collected_bindings(list.take(count)) =~= table.bindings().restrict(
            covered(table.keys(), count),
        ));
    } else {
        let at = count - 1;
        lemma_entries_rebuild_up_to(table, list, at);
        let front = list.take(at);
        let longer = list.take(count);
        assert(longer.drop_last() =~= front);
        assert(longer.last() == list[at]);
        let key = list[at].0;
        assert(table.keys()[at].same_key(&key));
        lemma_same_key_same_symbol(&table.keys()[at], &key);
        if holds(collected_keys(front), &key) {
            let i = choose|i: int|
                0 <= i < collected_keys(front).len() && (#[trigger] collected_keys(front)[i]).same_key(
                    &key,
                );
            assert(table.keys().take(at)[i].same_key(&collected_keys(front)[i]));
            lemma_same_key_transitive(&table.keys()[i], &collected_keys(front)[i], &key);
            lemma_same_key_symmetric(&table.keys()[at], &key);
            lemma_same_key_transitive(&table.keys()[i], &key, &table.keys()[at]);
        }
        assert(collected_keys(longer) == collected_keys(front).push(key));
        assert(table.keys().take(count) =~= table.keys().take(at).push(table.keys()[at]));
        assert(same_keys(table.keys().take(count), collected_keys(longer))) by {
            assert forall|i: int| 0 <= i < count implies (#[trigger] table.keys().take(count)[i]).same_key(
                &collected_keys(longer)[i],
            ) by {
                if i < at {
                    assert(table.keys().take(at)[i].same_key(&collected_keys(front)[i]));
                }
            }
        }
        assert(table.indexes(table.keys()[at].symbol_name()));
        assert(covered(table.keys(), count) =~= covered(table.keys(), at).insert(
            table.keys()[at].symbol_name(),
        ));
        assert(collected_bindings(longer) =~= table.bindings().restrict(
            covered(table.keys(), count),
        ));
    }
}

/// The index that a list of entries gives holds a key exactly if some entry has it.
pub proof fn lemma_collected_keys_hold<K: ExpressionMapKey>(list: Seq<(K, Expression)>, key: &K)
    requires
        lawful_key::<K>(),
    ensures
        holds(collected_keys(list), key) == keyed(list, key),
    decreases list.len(),
{
    if list.len() > 0 {
        let front = list.drop_last();
        let last = list.last().0;
        lemma_collected_keys_hold(front, key);
        lemma_collected_keys_hold(front, &last);
        let index = collected_keys(list);
        if holds(index, key) {
            let i = choose|i: int| 0 <= i < index.len() && (#[trigger] index[i]).same_key(key);
            if i < collected_keys(front).len() {
                assert(collected_keys(front)[i].same_key(key));
                let j = choose|j: int| 0 <= j < front.len() && (#[trigger] front[j]).0.same_key(key);
                assert(list[j].0.same_key(key));
            } else {
                assert(list[list.len() - 1].0.same_key(key));
            }
        }
        if keyed(list, key) {
            let j = choose|j: int| 0 <= j < list.len() && (#[trigger] list[j]).0.same_key(key);
            if j < front.len() {
                assert(front[j].0.same_key(key));
                let i = choose|i: int|
                    0 <= i < collected_keys(front).len() && (#[trigger] collected_keys(front)[i]).same_key(
                        key,
                    );
                assert(index[i].same_key(key));
            } else if holds(collected_keys(front), &last) {
                let i = choose|i: int|
                    0 <= i < collected_keys(front).len() && (#[trigger] collected_keys(front)[i]).same_key(
                        &last,
                    );
                lemma_same_key_transitive(&index[i], &last, key);
            } else {
                assert(index[index.len() - 1].same_key(key));
            }
        }
    }
}

proof fn lemma_entries_bind_up_to<K: ExpressionMapKey>(
    table: ExpressionMap<K>,
    list: Seq<(K, Expression)>,
    count: int,
)
    requires
        lawful_key::<K>(),
        table.well_formed(),
        table.lists_in_any_order(list),
        0 <= count <= list.len(),
    ensures
        collected_bindings(list.take(count)) == table.bindings().restrict(entry_names(list, count)),
    decreases count,
{
    if count == 0 {
        assert(collected_bindings(list.take(count)) =~= table.bindings().restrict(
            entry_names(list, count),
        ));
    } else {
        let at = count - 1;
        lemma_entries_bind_up_to(table, list, at);
        let longer = list.take(count);
        assert(longer.drop_last() =~= list.take(at));
        assert(longer.last() == list[at]);
        let key = list[at].0;
        assert(table.has_key(&key));
        let i = choose|i: int| 0 <= i < table.keys().len() && (#[trigger] table.keys()[i]).same_key(&key);
        lemma_same_key_same_symbol(&table.keys()[i], &key);
        assert(table.indexes(key.symbol_name()));
        assert(entry_names(list, count) =~= entry_names(list, at).insert(key.symbol_name()));
        assert(collected_bindings(longer) =~= table.bindings().restrict(entry_names(list, count)));
    }
}

/// The entries of a table in lock-step, in any order, give back the table's own bindings
/// when they are inserted, and an index that holds the keys that the table's index holds.
pub proof fn lemma_entries_rebuild_in_any_order<K: ExpressionMapKey>(
    table: ExpressionMap<K>,
    list: Seq<(K, Expression)>,
    key: K,
)
    requires
        lawful_key::<K>(),
        table.well_formed(),
        table.lists_in_any_order(list),
    ensures
        collected_bindings(list) == table.bindings(),
        holds(collected_keys(list), &key) == table.has_key(&key),
{
    lemma_entries_bind_up_to(table, list, list.len() as int);
    assert(list.take(list.len() as int) =~= list);
    assert(collected_bindings(list) =~= table.bindings()) by {
        assert forall|name: Seq<char>| table.bindings().dom().contains(name) implies entry_names(
            list,
            list.len() as int,
        ).contains(name) by {
            assert(table.indexes(name));
            let i = choose|i: int|
                0 <= i < table.keys().len() && (#[trigger] table.keys()[i]).symbol_name() == name;
            assert(keyed(list, &table.keys()[i]));
            let j = choose|j: int|
                0 <= j < list.len() && (#[trigger] list[j]).0.same_key(&table.keys()[i]);
            lemma_same_key_same_symbol(&list[j].0, &table.keys()[i]);
        }
    }
    lemma_collected_keys_hold(list, &key);
    if keyed(list, &key) {
        let j = choose|j: int| 0 <= j < list.len() && (#[trigger] list[j]).0.same_key(&key);
        assert(table.has_key(&list[j].0));
        let i = choose|i: int|
            0 <= i < table.keys().len() && (#[trigger] table.keys()[i]).same_key(&list[j].0);
        lemma_same_key_transitive(&table.keys()[i], &list[j].0, &key);
    }
    if table.has_key(&key) {
        let i = choose|i: int| 0 <= i < table.keys().len() && (#[trigger] table.keys()[i]).same_key(&key);
        assert(keyed(list, &table.keys()[i]));
        let j = choose|j: int| 0 <= j < list.len() && (#[trigger] list[j]).0.same_key(&table.keys()[i]);
        lemma_same_key_transitive(&list[j].0, &table.keys()[i], &key);
    }
}

/// The entries of a table in index order are its entries in some order.
pub proof fn lemma_lists_in_order<K: ExpressionMapKey>(
    table: ExpressionMap<K>,
    list: Seq<(K, Expression)>,
)
    requires
        lawful_key::<K>(),
        table.lists(list),
    ensures
        table.lists_in_any_order(list),
{
    assert forall|j: int| 0 <= j < list.len() implies {
        &&& table.has_key(&(#[trigger] list[j]).0)
        &&& list[j].1@ == table.bindings()[list[j].0.symbol_name()]
    } by {
        assert(table.keys()[j].same_key(&list[j].0));
        lemma_same_key_same_symbol(&table.keys()[j], &list[j].0);
    }
    assert forall|i: int| 0 <= i < table.keys().len() implies keyed(
        list,
        #[trigger] &table.keys()[i],
    ) by {
        assert(table.keys()[i].same_key(&list[i].0));
        lemma_same_key_symmetric(&table.keys()[i], &list[i].0);
    }
}

/// A table that is rebuilt from the entries of a table in lock-step, in whatever order
/// they come, binds, counts and substitutes as that table does, holds the same keys, and
/// gives under every key what that table gives.
pub proof fn lemma_rebuilt_table_alike<K: ExpressionMapKey>(
    table: ExpressionMap<K>,
    list: Seq<(K, Expression)>,
    rebuilt: ExpressionMap<K>,
    key: K,
    target: Term,
)
    requires
        lawful_key::<K>(),
        table.well_formed(),
        table.lists_in_any_order(list),
        rebuilt.bindings() == collected_bindings(list),
        same_keys(collected_keys(list), rebuilt.keys()),
    ensures
        rebuilt.bindings() == table.bindings(),
        rebuilt.bindings().dom().len() == table.bindings().dom().len(),
        rebuilt.has_key(&key) == table.has_key(&key),
        rebuilt.lookup(&key) == table.lookup(&key),
        rebuilt.substitution(target) == table.substitution(target),
{
    lemma_entries_rebuild_in_any_order(table, list, key);
    lemma_same_key_reflexive(&key);
    lemma_same_keys_hold_alike(collected_keys(list), rebuilt.keys(), &key, &key);
}

/// The first `count` keys of an index stand for at most `count` symbols, and for exactly
/// `count` where no two of them stand for one symbol.
proof fn lemma_covered_size<K: ExpressionMapKey>(keys: Seq<K>, count: int)
    requires
        0 <= count <= keys.len(),
    ensures
        covered(keys, count).finite(),
        covered(keys, count).len() <= count,
        (forall|i: int, j: int|
            0 <= i < j < count ==> (#[trigger] keys[i]).symbol_name() != (#[trigger] keys[j]).symbol_name())
            ==> covered(keys, count).len() == count,
    decreases count,
{
    if count == 0 {
        assert(covered(keys, count) =~= Set::empty());
    } else {
        lemma_covered_size(keys, count - 1);
        assert(covered(keys, count) =~= covered(keys, count - 1).insert(
            keys[count - 1].symbol_name(),
        ));
        if forall|i: int, j: int|
            0 <= i < j < count ==> (#[trigger] keys[i]).symbol_name() != (#[trigger] keys[j]).symbol_name() {
            if covered(keys, count - 1).contains(keys[count - 1].symbol_name()) {
                let i = choose|i: int|
                    0 <= i < count - 1 && (#[trigger] keys[i]).symbol_name() == keys[count
                        - 1].symbol_name();
                assert(keys[i].symbol_name() != keys[count - 1].symbol_name());
            }
        }
    }
}

/// A table in lock-step holds no more bindings than its index holds keys: keys that
/// stand for one symbol share one binding. Where no two keys of the index stand for one
/// symbol, there are as many bindings as keys.
pub proof fn lemma_bindings_within_index<K: ExpressionMapKey>(table: ExpressionMap<K>)
    requires
        table.well_formed(),
    ensures
        table.bindings().dom().len() <= table.keys().len(),
        (forall|i: int, j: int|
            0 <= i < j < table.keys().len() ==> (#[trigger] table.keys()[i]).symbol_name()
                != (#[trigger] table.keys()[j]).symbol_name()) ==> table.bindings().dom().len()
            == table.keys().len(),
{
    let count = table.keys().len() as int;
    lemma_covered_size(table.keys(), count);
    assert(table.bindings().dom() =~= covered(table.keys(), count)) by {
        assert forall|name: Seq<char>| table.bindings().dom().contains(name) <==> covered(
            table.keys(),
            count,
        ).contains(name) by {
            if table.bindings().dom().contains(name) {
                assert(table.indexes(name));
            }
            if covered(table.keys(), count).contains(name) {
                assert(table.indexes(name));
            }
        }
    }
}

} // verus!
