//! Counting the slots of a fixed table that are taken.
use vstd::prelude::*;

verus! {

/// How many entries of a table are taken.
pub open spec fn occupied<T>(table: Seq<Option<T>>) -> nat
    decreases table.len(),
{
    if table.len() == 0 {
        0
    } else {
        occupied(table.drop_last()) + if table.last() is Some {
            1nat
        } else {
            0
        }
    }
}

/// Emptying a taken slot leaves one fewer taken.
pub proof fn lemma_vacated<T>(table: Seq<Option<T>>, slot: int)
    requires
        0 <= slot < table.len(),
        table[slot] is Some,
    ensures
        occupied(table.update(slot, None)) + 1 == occupied(table),
    decreases table.len(),
{
    let after = table.update(slot, None);
    if slot == table.len() - 1 {
        assert(after.drop_last() =~= table.drop_last());
    } else {
        lemma_vacated(table.drop_last(), slot);
        assert(after.drop_last() =~= table.drop_last().update(slot, None));
    }
}

/// A table nothing is taken of holds only vacancies.
pub proof fn lemma_none_occupied<T>(table: Seq<Option<T>>)
    ensures
        occupied(table) == 0 <==> (forall|i: int|
            0 <= i < table.len() ==> #[trigger] table[i] is None),
    decreases table.len(),
{
    if table.len() > 0 {
        lemma_none_occupied(table.drop_last());
        assert(table.last() == table[table.len() - 1]);
        assert(forall|i: int|
            0 <= i < table.len() - 1 ==> #[trigger] table[i] == table.drop_last()[i]);
        assert forall|i: int|
            0 <= i < table.len() - 1 && table[i] is None implies #[trigger] table.drop_last()[i] is None by {}
    }
}

} // verus!
