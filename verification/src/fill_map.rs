//! The fills of one call, summed by order id.

use std::collections::HashMap;
use vstd::prelude::*;
use vstd::std_specs::hash::*;
use crate::book_model::FillView;
use crate::fill::{fill_views, lists, OrderMatch};
use crate::matching::{merge_fits, merged, merged_all, merges_fit};

verus! {

/// One entry per order id: the fills in the order in which their ids first
/// came, and the place of each id among them.
pub struct FillMap {
    fills: Vec<OrderMatch>,
    places: HashMap<u64, usize>,
}

impl View for FillMap {
    type V = Map<u64, FillView>;

    closed spec fn view(&self) -> Map<u64, FillView> {
        Map::new(
            |id: u64| self.places@.contains_key(id),
            |id: u64| self.fills@[self.places@[id] as int]@,
        )
    }
}

impl FillMap {
    /// Every id has its place, and every place its id.
    pub closed spec fn wf(&self) -> bool {
        &&& forall|id: u64| #[trigger]
            self.places@.contains_key(id) ==> self.places@[id] < self.fills@.len()
                && self.fills@[self.places@[id] as int].order == id
        &&& forall|i: int|
            0 <= i < self.fills@.len() ==> self.places@.contains_key(
                (#[trigger] self.fills@[i]).order,
            ) && self.places@[self.fills@[i].order] == i
    }

    /// A map without entries.
    pub fn new() -> (r: FillMap)
        ensures
            r.wf(),
            r@ == Map::<u64, FillView>::empty(),
            r@.dom().finite(),
    {
        let r = FillMap { fills: Vec::new(), places: HashMap::new() };
        assert(r@ =~= Map::<u64, FillView>::empty());
        r
    }

    /// A map has finitely many entries: as many as there are fills.
    proof fn lemma_finite(&self)
        requires
            self.wf(),
        ensures
            self@.dom().finite(),
            self@.dom().len() == self.fills@.len(),
    {
        broadcast use group_hash_axioms;

        assert(self@.dom() =~= self.places@.dom());
        let ids = self.fills@.map_values(|f: OrderMatch| f.order);
        assert(ids.no_duplicates()) by {
            assert forall|i: int, j: int| 0 <= i < ids.len() && 0 <= j < ids.len() && i
                != j implies ids[i] != ids[j] by {
                assert(self.places@[self.fills@[i].order] == i);
                assert(self.places@[self.fills@[j].order] == j);
            }
        }
        assert(ids.to_set() =~= self@.dom()) by {
            assert forall|id: u64| self@.dom().contains(id) implies ids.to_set().contains(
                id,
            ) by {
                assert(ids[self.places@[id] as int] == id);
            }
            assert forall|id: u64| ids.to_set().contains(id) implies self@.dom().contains(
                id,
            ) by {
                let i = choose|i: int| 0 <= i < ids.len() && ids[i] == id;
                assert(self.places@.contains_key(self.fills@[i].order));
            }
        }
        ids.unique_seq_to_set();
    }

    /// Adds one fill to the entry of its order: quantity to quantity and
    /// cost to cost. An order without an entry gets the fill as its entry.
    pub fn add_order_match_to_map(&mut self, order_match: &OrderMatch)
        requires
            old(self).wf(),
            merge_fits(old(self)@, order_match@),
        ensures
            final(self).wf(),
            final(self)@ == merged(old(self)@, order_match@),
            final(self)@.dom().finite(),
    {
        broadcast use group_hash_axioms;

        match self.places.get(&order_match.order) {
            Some(place) => {
                let i: usize = *place;
                let entry = self.fills[i];
                let quantity = entry.quantity.checked_add(order_match.quantity).unwrap();
                let cost = entry.cost.checked_add(order_match.cost).unwrap();
                self.fills.set(i, OrderMatch { order: order_match.order, quantity, cost });
                assert(self@ =~= merged(old(self)@, order_match@));
            },
            None => {
                let i: usize = self.fills.len();
                self.fills.push(*order_match);
                self.places.insert(order_match.order, i);
                assert(self@ =~= merged(old(self)@, order_match@));
            },
        }
        proof {
            self.lemma_finite();
        }
    }

    /// Adds the first `count` of `fills`, first to last.
    pub fn add_order_matches(&mut self, fills: &Vec<OrderMatch>, count: usize)
        requires
            old(self).wf(),
            count <= fills@.len(),
            merges_fit(old(self)@, fill_views(fills@).subrange(0, count as int)),
        ensures
            final(self).wf(),
            final(self)@ == merged_all(old(self)@, fill_views(fills@).subrange(0, count as int)),
            final(self)@.dom().finite(),
    {
        let ghost all = fill_views(fills@).subrange(0, count as int);
        assert(all.subrange(0, count as int) =~= all);
        let mut i: usize = 0;
        while i < count
            invariant
                i <= count <= fills@.len(),
                self.wf(),
                all == fill_views(fills@).subrange(0, count as int),
                merges_fit(self@, all.subrange(i as int, count as int)),
                merged_all(self@, all.subrange(i as int, count as int)) == merged_all(
                    old(self)@,
                    all,
                ),
            decreases count - i,
        {
            proof {
                let rest = all.subrange(i as int, count as int);
                assert(rest[0] == fills@[i as int]@);
                assert(rest.drop_first() =~= all.subrange(i as int + 1, count as int));
            }
            self.add_order_match_to_map(&fills[i]);
            i = i + 1;
        }
        proof {
            self.lemma_finite();
        }
    }

    /// The entries, each id once.
    pub fn into_fills(self) -> (r: Vec<OrderMatch>)
        requires
            self.wf(),
        ensures
            lists(r@, self@),
            r@.len() == self@.dom().len(),
    {
        proof {
            self.lemma_finite();
        }
        self.fills
    }
}

} // verus!
