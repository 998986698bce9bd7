//! Who took part: the accounts behind a list of picks.

use sp_std::collections::btree_set::BTreeSet;
use vstd::prelude::*;

use super::{get_or, Pallet, Pick};

verus! {

broadcast use {vstd::std_specs::btree::group_btree_axioms, vstd::laws_cmp::group_laws_cmp};

/// The accounts behind the picks `ids` that exist in `picks`, each once, in
/// the order of their first pick.
pub open spec fn accounts_of(picks: Map<u32, Pick>, ids: Seq<u32>) -> Seq<u64>
    decreases ids.len(),
{
    if ids.len() == 0 {
        seq![]
    } else {
        let earlier = accounts_of(picks, ids.drop_last());
        let id = ids.last();
        if picks.contains_key(id) && !earlier.contains(picks[id].account) {
            earlier.push(picks[id].account)
        } else {
            earlier
        }
    }
}

/// Whether one of the picks `ids` exists in `picks` and was made by `who`.
pub open spec fn picked_by(picks: Map<u32, Pick>, ids: Seq<u32>, who: u64) -> bool {
    exists|i: int| 0 <= i < ids.len() && picks.contains_key(ids[i]) && #[trigger] picks[ids[i]].account == who
}

/// The accounts behind a list of picks name each account once, name exactly
/// the accounts that made one of the picks, and are no more than the picks.
pub proof fn lemma_accounts_of(picks: Map<u32, Pick>, ids: Seq<u32>)
    ensures
        accounts_of(picks, ids).no_duplicates(),
        accounts_of(picks, ids).len() <= ids.len(),
        forall|who: u64| #[trigger] accounts_of(picks, ids).contains(who) <==> picked_by(picks, ids, who),
    decreases ids.len(),
{
    if ids.len() > 0 {
        let prefix = ids.drop_last();
        lemma_accounts_of(picks, prefix);
        let earlier = accounts_of(picks, prefix);
        let id = ids.last();
        assert forall|who: u64| #[trigger] accounts_of(picks, ids).contains(who) <==> picked_by(picks, ids, who) by {
            if picked_by(picks, prefix, who) {
                let i = choose|i: int| 0 <= i < prefix.len() && picks.contains_key(prefix[i]) && #[trigger] picks[prefix[i]].account == who;
                assert(ids[i] == prefix[i]);
            }
            if picked_by(picks, ids, who) {
                let i = choose|i: int| 0 <= i < ids.len() && picks.contains_key(ids[i]) && #[trigger] picks[ids[i]].account == who;
                if i < prefix.len() {
                    assert(prefix[i] == ids[i]);
                    assert(picked_by(picks, prefix, who));
                }
            }
            if picks.contains_key(id) && !earlier.contains(picks[id].account) {
                let grown = earlier.push(picks[id].account);
                if grown.contains(who) && who != picks[id].account {
                    let k = choose|k: int| 0 <= k < grown.len() && #[trigger] grown[k] == who;
                    assert(earlier[k] == who);
                }
                if earlier.contains(who) {
                    let k = choose|k: int| 0 <= k < earlier.len() && #[trigger] earlier[k] == who;
                    assert(grown[k] == who);
                }
                assert(grown[earlier.len() as int] == picks[id].account);
                assert(picks[ids[ids.len() - 1]].account == picks[id].account);
            } else if picks.contains_key(id) && who == picks[id].account {
                assert(picks[ids[ids.len() - 1]].account == who);
            }
        }
    }
}

impl Pallet {
    /// The accounts behind the picks `pick_ids`, each once, in the order of
    /// their first pick; ids of no pick are skipped.
    pub fn get_accounts_from_pick_ids(&self, pick_ids: Vec<u32>) -> (r: Vec<u64>)
        ensures
            r@ == accounts_of(self@.picks, pick_ids@),
    {
        let mut account_set: BTreeSet<u64> = BTreeSet::new();
        let mut accounts: Vec<u64> = Vec::new();
        let n = pick_ids.len();
        let mut i: usize = 0;
        while i < n
            invariant
                0 <= i <= n,
                n == pick_ids.len(),
                accounts@ == accounts_of(self@.picks, pick_ids@.take(i as int)),
                account_set@ == accounts@.to_set(),
            decreases n - i,
        {
            let id = pick_ids[i];
            assert(pick_ids@.take(i + 1).drop_last() =~= pick_ids@.take(i as int));
            match self.picks.get(&id) {
                Some(pick) => {
                    if !account_set.contains(&pick.account) {
                        account_set.insert(pick.account);
                        let ghost before = accounts@;
                        accounts.push(pick.account);
                        proof {
                            before.lemma_push_to_set_commute(pick.account);
                        }
                    }
                },
                None => {},
            }
            i = i + 1;
        }
        assert(pick_ids@.take(n as int) =~= pick_ids@);
        accounts
    }

    /// The accounts that picked `pixel_id` in round `index`, each once, in
    /// the order of their first pick.
    pub fn get_accounts_picked_pixel(&self, index: u32, pixel_id: u16) -> (r: Vec<u64>)
        ensures
            r@ == accounts_of(self@.picks, get_or(self@.pixel_picks, (index, pixel_id), seq![])),
    {
        let pick_ids = self.pixel_picks(&index, &pixel_id);
        self.get_accounts_from_pick_ids(pick_ids)
    }

    /// The accounts that picked sub-pixel `sub_pixel_id` of `pixel_id` in
    /// round `index`, each once, in the order of their first pick.
    pub fn get_accounts_picked_subpixel(&self, index: u32, pixel_id: u16, sub_pixel_id: u8) -> (r: Vec<u64>)
        ensures
            r@ == accounts_of(
                self@.picks,
                get_or(self@.sub_pixel_picks, ((index, pixel_id), sub_pixel_id), seq![]),
            ),
    {
        let pick_ids = self.sub_pixel_picks(&(index, pixel_id), &sub_pixel_id);
        self.get_accounts_from_pick_ids(pick_ids)
    }
}

} // verus!
