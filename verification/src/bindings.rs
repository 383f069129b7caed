use crate::expr::{bindings_term, Binding};
use vstd::prelude::*;

verus! {

/// Whether no name occurs twice in a list of bindings.
pub(crate) open spec fn distinct_names(list: Seq<Binding>) -> bool {
    forall|i: int, j: int| 0 <= i < j < list.len() ==> (#[trigger] list[i]).name@ != (#[trigger] list[j]).name@
}

/// Whether some binding of a list has the name `name`.
pub(crate) open spec fn names(list: Seq<Binding>, name: Seq<char>) -> bool {
    exists|i: int| 0 <= i < list.len() && (#[trigger] list[i]).name@ == name
}

/// A list without a name twice is still one without its last binding.
pub(crate) proof fn lemma_distinct_front(list: Seq<Binding>)
    requires
        distinct_names(list),
        list.len() > 0,
    ensures
        distinct_names(list.drop_last()),
{
    let front = list.drop_last();
    assert forall|i: int, j: int| 0 <= i < j < front.len() implies (#[trigger] front[i]).name@
        != (#[trigger] front[j]).name@ by {
        assert(list[i].name@ != list[j].name@);
    }
}

/// A list binds exactly the names of its bindings, and finitely many.
pub(crate) proof fn lemma_bindings_dom(list: Seq<Binding>)
    ensures
        bindings_term(list).dom().finite(),
        forall|name: Seq<char>| bindings_term(list).dom().contains(name) <==> names(list, name),
    decreases list.len(),
{
    if list.len() > 0 {
        let front = list.drop_last();
        lemma_bindings_dom(front);
        assert forall|name: Seq<char>| bindings_term(list).dom().contains(name) <==> names(
            list,
            name,
        ) by {
            if names(front, name) {
                let i = choose|i: int| 0 <= i < front.len() && (#[trigger] front[i]).name@ == name;
                assert(list[i].name@ == name);
            }
            if names(list, name) {
                let i = choose|i: int| 0 <= i < list.len() && (#[trigger] list[i]).name@ == name;
                if i < front.len() {
                    assert(front[i].name@ == name);
                }
            }
        }
    }
}

/// A list without a name twice binds as many names as it has bindings.
pub(crate) proof fn lemma_bindings_len(list: Seq<Binding>)
    requires
        distinct_names(list),
    ensures
        bindings_term(list).dom().finite(),
        bindings_term(list).dom().len() == list.len(),
    decreases list.len(),
{
    lemma_bindings_dom(list);
    if list.len() > 0 {
        let front = list.drop_last();
        lemma_distinct_front(list);
        lemma_bindings_len(front);
        lemma_bindings_dom(front);
        if names(front, list.last().name@) {
            let i = choose|i: int| 0 <= i < front.len() && (#[trigger] front[i]).name@ == list.last().name@;
            assert(list[i].name@ != list[list.len() - 1].name@);
        }
    }
}

/// In a list without a name twice, each name is bound to the value of its own binding.
pub(crate) proof fn lemma_bindings_at(list: Seq<Binding>, at: int)
    requires
        distinct_names(list),
        0 <= at < list.len(),
    ensures
        bindings_term(list).dom().contains(list[at].name@),
        bindings_term(list)[list[at].name@] == list[at].value@,
    decreases list.len(),
{
    let front = list.drop_last();
    if at < list.len() - 1 {
        lemma_distinct_front(list);
        lemma_bindings_at(front, at);
        assert(list[at].name@ != list[list.len() - 1].name@);
        assert(front[at] == list[at]);
    }
}

/// A binding pushed onto a list binds its name, over whatever the list bound it to.
pub(crate) proof fn lemma_bindings_push(list: Seq<Binding>, binding: Binding)
    ensures
        bindings_term(list.push(binding)) == bindings_term(list).insert(
            binding.name@,
            binding.value@,
        ),
        distinct_names(list) && !names(list, binding.name@) ==> distinct_names(list.push(binding)),
{
    assert(list.push(binding).drop_last() =~= list);
    if distinct_names(list) && !names(list, binding.name@) {
        let longer = list.push(binding);
        assert forall|i: int, j: int| 0 <= i < j < longer.len() implies (#[trigger] longer[i]).name@
            != (#[trigger] longer[j]).name@ by {
            if j < list.len() {
                assert(list[i].name@ != list[j].name@);
            } else {
                assert(list[i].name@ != binding.name@);
            }
        }
    }
}

/// A binding put in the place of one of the same name binds the name anew, and no name
/// comes to stand twice.
pub(crate) proof fn lemma_bindings_update(list: Seq<Binding>, at: int, binding: Binding)
    requires
        distinct_names(list),
        0 <= at < list.len(),
        list[at].name@ == binding.name@,
    ensures
        bindings_term(list.update(at, binding)) == bindings_term(list).insert(
            binding.name@,
            binding.value@,
        ),
        distinct_names(list.update(at, binding)),
    decreases list.len(),
{
    let changed = list.update(at, binding);
    let front = list.drop_last();
    assert forall|i: int, j: int| 0 <= i < j < changed.len() implies (#[trigger] changed[i]).name@
        != (#[trigger] changed[j]).name@ by {
        assert(list[i].name@ != list[j].name@);
    }
    if at == list.len() - 1 {
        assert(changed.drop_last() =~= front);
        assert(bindings_term(changed) =~= bindings_term(list).insert(binding.name@, binding.value@));
    } else {
        lemma_distinct_front(list);
        lemma_bindings_update(front, at, binding);
        assert(changed.drop_last() =~= front.update(at, binding));
        assert(changed.last() == list.last());
        assert(list[at].name@ != list[list.len() - 1].name@);
        assert(bindings_term(changed) =~= bindings_term(list).insert(binding.name@, binding.value@));
    }
}

/// Where the binding of `name` stands in a list, if the list binds the name.
pub(crate) fn position_of_name(list: &Vec<Binding>, name: &String) -> (found: Option<usize>)
    ensures
        found matches Some(at) ==> at < list@.len() && list@[at as int].name@ == name@,
        found is None ==> !names(list@, name@),
{
    let mut at: usize = 0;
    while at < list.len()
        invariant
            at <= list@.len(),
            forall|i: int| 0 <= i < at ==> (#[trigger] list@[i]).name@ != name@,
        decreases list@.len() - at,
    {
        if list[at].name == *name {
            return Some(at);
        }
        at += 1;
    }
    None
}

} // verus!
