//! Sums over the numbers that a map holds.

use crate::progress::sum_of;
use vstd::prelude::*;

verus! {

/// The sum of the numbers that a finite map holds.
pub open spec fn map_total(m: Map<Seq<char>, u64>) -> nat
    decreases m.dom().len(),
    when m.dom().finite()
{
    if m.dom().len() == 0 {
        0
    } else {
        let k = m.dom().choose();
        m[k] as nat + map_total(m.remove(k))
    }
}

/// Any key may be taken out first.
pub proof fn lemma_total_without(m: Map<Seq<char>, u64>, k: Seq<char>)
    requires
        m.dom().finite(),
        m.dom().contains(k),
    ensures
        map_total(m) == m[k] as nat + map_total(m.remove(k)),
    decreases m.dom().len(),
{
    assert(m.dom().len() > 0);
    let c = m.dom().choose();
    assert(m.dom().contains(c));
    assert(m.remove(c).dom() == m.dom().remove(c));
    assert(m.remove(k).dom() == m.dom().remove(k));
    if c != k {
        lemma_total_without(m.remove(c), k);
        lemma_total_without(m.remove(k), c);
        assert(m.remove(c).remove(k) == m.remove(k).remove(c));
    }
}

/// Setting a key replaces what it contributes.
pub proof fn lemma_total_insert(m: Map<Seq<char>, u64>, k: Seq<char>, v: u64)
    requires
        m.dom().finite(),
    ensures
        map_total(m.insert(k, v)) == v as nat + map_total(m.remove(k)),
{
    lemma_total_without(m.insert(k, v), k);
    assert(m.insert(k, v).remove(k) == m.remove(k));
}

/// A map sums to what the list of its entries sums to.
pub proof fn lemma_total_of_entries(
    m: Map<Seq<char>, u64>,
    keys: Seq<Seq<char>>,
    values: Seq<u64>,
)
    requires
        keys.len() == values.len(),
        keys.no_duplicates(),
        keys.to_set() == m.dom(),
        forall|i: int| 0 <= i < keys.len() ==> m[#[trigger] keys[i]] == values[i],
    ensures
        m.dom().finite(),
        map_total(m) == sum_of(values),
    decreases keys.len(),
{
    vstd::seq_lib::seq_to_set_is_finite(keys);
    if keys.len() == 0 {
        assert(m.dom() == Set::<Seq<char>>::empty());
    } else {
        let k = keys.last();
        let rest = keys.drop_last();
        assert(keys.contains(k));
        assert(m.dom().contains(k));
        assert forall|x: Seq<char>| rest.to_set().contains(x) == m.remove(k).dom().contains(x) by {
            if rest.contains(x) {
                let i = choose|i: int| 0 <= i < rest.len() && rest[i] == x;
                assert(keys[i] == x);
                assert(keys.to_set().contains(x));
            }
            if m.dom().contains(x) && x != k {
                assert(keys.contains(x));
                let i = choose|i: int| 0 <= i < keys.len() && keys[i] == x;
                assert(rest[i] == x);
            }
        }
        assert(rest.to_set() =~= m.remove(k).dom());
        assert forall|i: int| 0 <= i < rest.len() implies m.remove(k)[#[trigger] rest[i]]
            == values.drop_last()[i] by {
            assert(rest[i] == keys[i]);
        }
        lemma_total_of_entries(m.remove(k), rest, values.drop_last());
        lemma_total_without(m, k);
        assert(m[keys[keys.len() - 1]] == values[keys.len() - 1]);
    }
}

/// An empty map sums to nothing, and a key that is new adds its number, whatever it is.
pub proof fn law_a_new_key_adds_its_number(m: Map<Seq<char>, u64>, k: Seq<char>, v: u64)
    requires
        m.dom().finite(),
        !m.dom().contains(k),
    ensures
        map_total(m.insert(k, v)) == map_total(m) + v,
        map_total(Map::empty()) == 0,
{
    lemma_total_insert(m, k, v);
    assert(m.remove(k) =~= m);
}

} // verus!
