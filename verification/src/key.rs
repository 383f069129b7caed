use std::hash::Hash;
use vstd::prelude::*;

verus! {

/// `==` on two string slices, `str`'s `PartialEq::eq`: whether the two hold the same
/// characters in the same order.
pub assume_specification[ <str as PartialEq>::eq ](a: &str, b: &str) -> (same: bool)
    ensures
        same == (a@ == b@),
;

/// A key that addresses one entry of a substitution table. A key stands for a symbol, by
/// the name that `to_string` returns, and is told from other keys by its own equality.
///
/// A key type need only say `to_string`. A table reads a key through `symbol` and
/// `is_same_key`, and what is proved of a table is proved over `symbol_name` and
/// `same_key`, which say what those two methods return. A key type that is verified
/// states both outright, as `String` and `&str` do below.
pub trait ExpressionMapKey: Clone + PartialEq + Eq + Hash {
    /// The name of the symbol that this key stands for: the text that `symbol` returns.
    open spec fn symbol_name(&self) -> Seq<char> {
        (choose|text: String| #[trigger] call_ensures(Self::symbol, (self,), text))@
    }

    /// Whether two keys are one and the same entry of a table's index: whether
    /// `is_same_key` does not tell them apart.
    open spec fn same_key(&self, other: &Self) -> bool {
        !call_ensures(Self::is_same_key, (self, other), false)
    }

    /// The name of the symbol that this key stands for.
    fn to_string(&self) -> String;

    /// The name of the symbol that this key stands for, as a table reads it: what
    /// `to_string` returns.
    fn symbol(&self) -> String {
        self.to_string()
    }

    /// Whether this key and `other` are one and the same entry of a table's index, by
    /// the key type's own equality.
    fn is_same_key(&self, other: &Self) -> bool {
        self == other
    }
}

/// What a table needs of its key type. The two methods that a table reads a key through
/// are functions: `symbol` returns `symbol_name`, and `is_same_key` decides `same_key`.
/// `same_key` is an equivalence, keys that are the same stand for one symbol, and a clone
/// of a key is the same key.
#[verifier::opaque]
pub open spec fn lawful_key<K: ExpressionMapKey>() -> bool {
    &&& forall|a: K, text: String| #[trigger]
        call_ensures(K::symbol, (&a,), text) ==> text@ == a.symbol_name()
    &&& forall|a: K, b: K, same: bool| #[trigger]
        call_ensures(K::is_same_key, (&a, &b), same) ==> same == a.same_key(&b)
    &&& forall|a: K| #[trigger] a.same_key(&a)
    &&& forall|a: K, b: K| #[trigger] a.same_key(&b) ==> b.same_key(&a)
    &&& forall|a: K, b: K, c: K|
        #[trigger] a.same_key(&b) && #[trigger] b.same_key(&c) ==> a.same_key(&c)
    &&& forall|a: K, b: K| #[trigger] a.same_key(&b) ==> a.symbol_name() == b.symbol_name()
    &&& forall|a: K, b: K| #[trigger] cloned(a, b) ==> a.same_key(&b)
}

/// An owned string stands for the symbol that it spells.
impl ExpressionMapKey for String {
    open spec fn symbol_name(&self) -> Seq<char> {
        self@
    }

    open spec fn same_key(&self, other: &Self) -> bool {
        self@ == other@
    }

    fn to_string(&self) -> String {
        self.clone()
    }

    fn symbol(&self) -> (name: String)
        ensures
            name@ == self@,
    {
        self.clone()
    }

    fn is_same_key(&self, other: &Self) -> (same: bool)
        ensures
            same == (self@ == other@),
    {
        *self == *other
    }
}

/// A string slice stands for the symbol that it spells.
impl<'a> ExpressionMapKey for &'a str {
    open spec fn symbol_name(&self) -> Seq<char> {
        self@
    }

    open spec fn same_key(&self, other: &Self) -> bool {
        self@ == other@
    }

    fn to_string(&self) -> String {
        (*self).to_owned()
    }

    fn symbol(&self) -> (name: String)
        ensures
            name@ == self@,
    {
        (*self).to_owned()
    }

    fn is_same_key(&self, other: &Self) -> (same: bool)
        ensures
            same == (self@ == other@),
    {
        **self == **other
    }
}

/// Owned strings are lawful keys.
pub proof fn lemma_string_keys_lawful()
    ensures
        lawful_key::<String>(),
{
    reveal(lawful_key);
}

/// String slices are lawful keys.
pub proof fn lemma_str_keys_lawful<'a>()
    ensures
        lawful_key::<&'a str>(),
{
    reveal(lawful_key);
}

/// Of a lawful key, `symbol` returns the name of the key's symbol.
pub proof fn lemma_symbol_is_symbol_name<K: ExpressionMapKey>(a: &K, text: String)
    requires
        lawful_key::<K>(),
        call_ensures(K::symbol, (a,), text),
    ensures
        text@ == a.symbol_name(),
{
    reveal(lawful_key);
}

/// Of lawful keys, `is_same_key` says whether the two are the same key.
pub proof fn lemma_is_same_key_decides<K: ExpressionMapKey>(a: &K, b: &K, same: bool)
    requires
        lawful_key::<K>(),
        call_ensures(K::is_same_key, (a, b), same),
    ensures
        same == a.same_key(b),
{
    reveal(lawful_key);
}

/// A lawful key is the same key as itself.
pub proof fn lemma_same_key_reflexive<K: ExpressionMapKey>(a: &K)
    requires
        lawful_key::<K>(),
    ensures
        a.same_key(a),
{
    reveal(lawful_key);
}

/// With lawful keys, `same_key` holds both ways or neither.
pub proof fn lemma_same_key_symmetric<K: ExpressionMapKey>(a: &K, b: &K)
    requires
        lawful_key::<K>(),
    ensures
        a.same_key(b) == b.same_key(a),
{
    reveal(lawful_key);
}

/// With lawful keys, a key that is the same as a second, which is the same as a third,
/// is the same as the third.
pub proof fn lemma_same_key_transitive<K: ExpressionMapKey>(a: &K, b: &K, c: &K)
    requires
        lawful_key::<K>(),
        a.same_key(b),
        b.same_key(c),
    ensures
        a.same_key(c),
{
    reveal(lawful_key);
}

/// Lawful keys that are the same stand for one symbol.
pub proof fn lemma_same_key_same_symbol<K: ExpressionMapKey>(a: &K, b: &K)
    requires
        lawful_key::<K>(),
        a.same_key(b),
    ensures
        a.symbol_name() == b.symbol_name(),
{
    reveal(lawful_key);
}

/// The clone of a lawful key is the same key, and stands for the same symbol.
pub proof fn lemma_clone_same_key<K: ExpressionMapKey>(a: &K, b: &K)
    requires
        lawful_key::<K>(),
        cloned(*a, *b),
    ensures
        a.same_key(b),
        b.same_key(a),
        a.symbol_name() == b.symbol_name(),
{
    reveal(lawful_key);
}

} // verus!
