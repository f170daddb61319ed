use vstd::prelude::*;
use vstd::string::StrSliceExecFns;

verus! {

/// The two kinds of unit that can be stored.
#[derive(Clone, Copy, Debug, PartialEq, Eq, Structural)]
pub enum StoredItemTypes {
    Item,
    Fluid,
}

/// The identity of a stored unit, as the contracts see it: a name and a variant number.
pub type UnitKey = (Seq<char>, int);

/// Lexicographic order on character sequences.
pub open spec fn chars_lt(a: Seq<char>, b: Seq<char>) -> bool
    decreases a.len(),
{
    if b.len() == 0 {
        false
    } else if a.len() == 0 {
        true
    } else if a[0] != b[0] {
        a[0] < b[0]
    } else {
        chars_lt(a.drop_first(), b.drop_first())
    }
}

/// The order of unit identities: by name, then by variant.
pub open spec fn key_lt(a: UnitKey, b: UnitKey) -> bool {
    chars_lt(a.0, b.0) || (a.0 == b.0 && a.1 < b.1)
}

/// The order of character sequences is a strict total order.
pub proof fn lemma_chars_lt_order(a: Seq<char>, b: Seq<char>, c: Seq<char>)
    ensures
        !chars_lt(a, a),
        chars_lt(a, b) && chars_lt(b, c) ==> chars_lt(a, c),
        a != b ==> chars_lt(a, b) || chars_lt(b, a),
    decreases a.len(),
{
    if a.len() > 0 {
        lemma_chars_lt_order(a.drop_first(), b.drop_first(), c.drop_first());
        if a != b && b.len() > 0 && a[0] == b[0] {
            if a.drop_first() == b.drop_first() {
                assert(a =~= seq![a[0]] + a.drop_first());
                assert(b =~= seq![b[0]] + b.drop_first());
            }
        }
    } else {
        if b.len() == 0 {
            assert(a =~= b);
        }
    }
}

/// The order of unit identities is a strict total order.
pub proof fn lemma_key_lt_order(a: UnitKey, b: UnitKey, c: UnitKey)
    ensures
        !key_lt(a, a),
        key_lt(a, b) && key_lt(b, c) ==> key_lt(a, c),
        a != b ==> key_lt(a, b) || key_lt(b, a),
{
    lemma_chars_lt_order(a.0, b.0, c.0);
    lemma_chars_lt_order(b.0, a.0, c.0);
    lemma_chars_lt_order(a.0, c.0, b.0);
    lemma_chars_lt_order(b.0, c.0, a.0);
    lemma_chars_lt_order(c.0, a.0, b.0);
}

/// Whether `a` comes before `b` in lexicographic order.
pub fn str_lt(a: &str, b: &str) -> (r: bool)
    ensures
        r == chars_lt(a@, b@),
{
    let la = a.unicode_len();
    let lb = b.unicode_len();
    let mut i: usize = 0;
    proof {
        assert(a@.skip(0) =~= a@);
        assert(b@.skip(0) =~= b@);
    }
    while i < la && i < lb
        invariant
            la == a@.len(),
            lb == b@.len(),
            i <= la,
            i <= lb,
            chars_lt(a@, b@) == chars_lt(a@.skip(i as int), b@.skip(i as int)),
        decreases la - i,
    {
        let ca = a.get_char(i);
        let cb = b.get_char(i);
        if ca != cb {
            return ca < cb;
        }
        proof {
            assert(a@.skip(i as int).drop_first() =~= a@.skip(i + 1));
            assert(b@.skip(i as int).drop_first() =~= b@.skip(i + 1));
        }
        i = i + 1;
    }
    i < lb
}

/// What a value must offer to be stored in a cell or a grid: a stable
/// identity and an executable test of identity.
pub trait StoredItemType: Sized {
    /// The identity of this unit.
    spec fn unit_key(&self) -> UnitKey;

    /// The kind of unit this type stands for.
    fn stored_type() -> StoredItemTypes;

    /// Whether this unit comes before `other` in the order of identities.
    fn precedes(&self, other: &Self) -> (r: bool)
        ensures
            r == key_lt(self.unit_key(), other.unit_key()),
    ;

    /// Whether two units have the same identity.
    fn same_unit(&self, other: &Self) -> (r: bool)
        ensures
            r == (self.unit_key() == other.unit_key()),
    ;
}

} // verus!
