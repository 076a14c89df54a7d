//! The titles and groups that a new collection starts with.

use vstd::prelude::*;

use crate::dto::{NewCriteriaGroup, NewCriterion, NewTitle, NewTitleCriteria};
use crate::error::{DbError, Fault};
use crate::model::{criterion_ids, group_at, group_ids, title_at, title_ids, criterion_at, BASELINE};
use crate::store::record::Record;
use crate::store::Store;
use vstd::string::StringExecFns;

verus! {

/// A title to start with, and the names of the groups it is rated under.
pub struct SeedEntry {
    pub name: &'static str,
    pub groups: &'static [&'static str],
}

/// A group to start with, and the names of its criteria.
pub struct SeedCriteria {
    pub name: &'static str,
    pub sub_criteria: &'static [&'static str],
}

/// Describes a title to start with.
pub fn e(name: &'static str, groups: &'static [&'static str]) -> (entry: SeedEntry)
    ensures
        entry.name == name,
        entry.groups == groups,
{
    SeedEntry { name, groups }
}

/// Describes a group to start with.
pub fn c(name: &'static str, sub_criteria: &'static [&'static str]) -> (group: SeedCriteria)
    ensures
        group.name == name,
        group.sub_criteria == sub_criteria,
{
    SeedCriteria { name, sub_criteria }
}

/// The groups that a new collection starts with.
pub fn default_criteria() -> (groups: Vec<SeedCriteria>)
    ensures
        groups@.len() == 11,
{
    let mut groups: Vec<SeedCriteria> = Vec::new();
    groups.push(
        c(
            "General",
            &["Gameplay", "Replaybility", "Difficulty", "Story", "World Building", "Writing/Voice Acting", "Graphics", "Art Style", "UI/UX", "Sound Effects", "Music"],
        ),
    );
    groups.push(c("arpg", &["General"]));
    groups.push(c("Action Adventure", &["General"]));
    groups.push(c("jrpg", &["General"]));
    groups.push(c("mmo", &["General"]));
    groups.push(c("Platformer", &["General"]));
    groups.push(c("Open World", &["General"]));
    groups.push(c("Tactics", &["General"]));
    groups.push(c("rts", &["General"]));
    groups.push(c("Third Person Shooter", &["General"]));
    groups.push(c("roguelike", &["General"]));
    groups
}

/// The titles that a new collection starts with.
pub fn entries() -> (titles: Vec<SeedEntry>)
    ensures
        titles@.len() == 66,
{
    let mut titles: Vec<SeedEntry> = Vec::new();
    titles.push(e("Legend of Zelda", &["Action Adventure", "arpg"]));
    titles.push(
        e(
            "Legend of Zelda 2: The Adventure of Link",
            &["Action Adventure", "arpg", "Platformer"],
        ),
    );
    titles.push(e("Legend of Zelda: A Link to the Past", &["Action Adventure", "arpg"]));
    titles.push(e("Legend of Zelda: Link's Awakening", &["Action Adventure", "arpg"]));
    titles.push(e("Legend of Zelda: Ocarina of Time", &["Action Adventure", "arpg", "Open World"]));
    titles.push(e("Legend of Zelda: Majora's Mask", &["Action Adventure", "arpg", "Open World"]));
    titles.push(e("Legend of Zelda: Oracle of Seasons", &["Action Adventure", "arpg"]));
    titles.push(e("Legend of Zelda: Oracle of Ages", &["Action Adventure", "arpg"]));
    titles.push(e("Legend of Zelda: Four Swords", &["Action Adventure", "arpg"]));
    titles.push(e("Legend of Zelda: The Wind Waker", &["Action Adventure", "arpg", "Open World"]));
    titles.push(e("Legend of Zelda: The Minish Cap", &["Action Adventure", "arpg"]));
    titles.push(
        e(
            "Legend of Zelda: Twilight Princess",
            &["Action Adventure", "arpg", "Open World"],
        ),
    );
    titles.push(e("Legend of Zelda: Phantom Hourglass", &["Action Adventure", "arpg"]));
    titles.push(e("Legend of Zelda: Spirit Tracks", &["Action Adventure", "arpg"]));
    titles.push(e("Legend of Zelda: Skyward Sword", &["Action Adventure", "arpg"]));
    titles.push(e("Legend of Zelda: A Link Between Worlds", &["Action Adventure", "arpg"]));
    titles.push(
        e(
            "Legend of Zelda: Breath of the Wild",
            &["Action Adventure", "arpg", "Open World"],
        ),
    );
    titles.push(
        e(
            "Legend of Zelda: Tears of the Kingdom",
            &["Action Adventure", "arpg", "Open World"],
        ),
    );
    titles.push(e("Legend of Zelda: Echoes of Wisdom", &["Action Adventure", "arpg"]));
    titles.push(e("Final Fantasy", &["jrpg"]));
    titles.push(e("Final Fantasy II", &["jrpg"]));
    titles.push(e("Final Fantasy III", &["jrpg"]));
    titles.push(e("Final Fantasy IV", &["jrpg"]));
    titles.push(e("Final Fantasy IV: The After Years", &["jrpg"]));
    titles.push(e("Final Fantasy V", &["jrpg"]));
    titles.push(e("Final Fantasy VI", &["jrpg"]));
    titles.push(e("Final Fantasy VII", &["jrpg"]));
    titles.push(e("Final Fantasy VII Remake", &["arpg"]));
    titles.push(e("Final Fantasy VIII", &["jrpg"]));
    titles.push(e("Final Fantasy IX", &["jrpg"]));
    titles.push(e("Final Fantasy X", &["jrpg"]));
    titles.push(e("Final Fantasy X-2", &["jrpg"]));
    titles.push(e("Final Fantasy XI: Online", &["jrpg", "mmo"]));
    titles.push(e("Final Fantasy XII", &["jrpg"]));
    titles.push(e("Final Fantasy XIII", &["jrpg"]));
    titles.push(e("Final Fantasy XIV: A Realm Reborn", &["jrpg", "mmo"]));
    titles.push(e("Final Fantasy XV", &["arpg"]));
    titles.push(e("Final Fantasy XVI", &["arpg"]));
    titles.push(e("Final Fantasy Tactics", &["Tactics"]));
    titles.push(e("Final Fantasy Tactics Advance", &["Tactics"]));
    titles.push(e("Final Fantasy Tactics A2: Grimoire of the Rift", &["Tactics"]));
    titles.push(e("Final Fantasy Tactics XII: Revenant Wings", &["rts"]));
    titles.push(e("Dirge of Cerberus: Final Fantasy VII", &["Third Person Shooter"]));
    titles.push(e("Crisis Core: Final Fantasy VII", &["arpg"]));
    titles.push(e("Mystery Dungeon: Every Buddy!", &["roguelike"]));
    titles.push(e("Final Fantasy Crystal Chronicles", &["arpg"]));
    titles.push(e("Final Fantasy Mystic Quest", &["jrpg"]));
    titles.push(e("Breath of Fire", &["jrpg"]));
    titles.push(e("Breath of Fire II", &["jrpg"]));
    titles.push(e("Breath of Fire III", &["jrpg"]));
    titles.push(e("Breath of Fire IV", &["jrpg"]));
    titles.push(e("Dragon Quest", &["jrpg"]));
    titles.push(e("Dragon Quest II", &["jrpg"]));
    titles.push(e("Dragon Quest III", &["jrpg"]));
    titles.push(e("Dragon Quest IV", &["jrpg"]));
    titles.push(e("Dragon Quest V", &["jrpg"]));
    titles.push(e("Dragon Quest VI", &["jrpg"]));
    titles.push(e("Dragon Quest VII", &["jrpg"]));
    titles.push(e("Dragon Quest VIII", &["jrpg"]));
    titles.push(e("Dragon Quest IX", &["jrpg"]));
    titles.push(e("Dragon Quest XI", &["jrpg", "mmo"]));
    titles.push(e("Diablo", &["arpg"]));
    titles.push(e("Diablo 2", &["arpg"]));
    titles.push(e("Diablo 3", &["arpg"]));
    titles.push(e("Diablo 4", &["arpg"]));
    titles.push(e("Path of Exile 2", &["arpg"]));
    titles
}

/// The number of criteria that the groups of a seed list bring.
pub open spec fn criteria_count(groups: Seq<SeedCriteria>) -> nat
    decreases groups.len(),
{
    if groups.len() == 0 {
        0
    } else {
        criteria_count(groups.drop_last()) + groups.last().sub_criteria@.len()
    }
}

/// Counting one group more adds its criteria, and no part of a list counts more than the
/// whole.
pub proof fn lemma_criteria_count_step(groups: Seq<SeedCriteria>, i: int)
    requires
        0 <= i < groups.len(),
    ensures
        criteria_count(groups.take(i + 1)) == criteria_count(groups.take(i))
            + groups[i].sub_criteria@.len(),
        criteria_count(groups.take(i + 1)) <= criteria_count(groups),
    decreases groups.len() - i,
{
    assert(groups.take(i + 1).drop_last() =~= groups.take(i));
    if i + 1 < groups.len() {
        lemma_criteria_count_step(groups, i + 1);
    } else {
        assert(groups.take(i + 1) =~= groups);
    }
}

/// Whether the ids of a table run from 1 upwards in table order.
pub open spec fn counted(ids: Seq<int>) -> bool {
    forall|k: int| 0 <= k < ids.len() ==> #[trigger] ids[k] == k + 1
}

/// In a table whose ids run from 1 upwards the next id is the number of rows plus one.
pub proof fn lemma_next_of_counted(ids: Seq<int>, n: int)
    requires
        counted(ids),
        crate::model::is_next_id(ids, n),
    ensures
        n == ids.len() + 1,
{
    if ids.len() > 0 {
        assert(ids[ids.len() - 1] < n);
    }
    if n != 1 {
        let k = choose|k: int| 0 <= k < ids.len() && #[trigger] ids[k] == n - 1;
        assert(ids[k] == k + 1);
    }
}

/// Builds the store that a new collection starts with: the groups of `criteria` with their
/// criteria, then the titles of `entries`, each rated from the baseline under those of its
/// groups that exist. Ids are given in list order, from 1. The collection is built whole or
/// not at all; it is not built only where a list is too long for the ids.
pub fn seeded(criteria: &Vec<SeedCriteria>, entries: &Vec<SeedEntry>) -> (outcome: Result<
    Store,
    DbError,
>)
    ensures
        match outcome {
            Ok(store) => {
                &&& store.wf()
                &&& store@.matches.len() == 0
                &&& store@.groups.len() == criteria@.len()
                &&& forall|k: int|
                    0 <= k < criteria@.len() ==> (#[trigger] store@.groups[k]).id == k + 1
                        && store@.groups[k].name@ == criteria@[k].name@
                &&& store@.criteria.len() == criteria_count(criteria@)
                &&& store@.titles.len() == entries@.len()
                &&& forall|k: int|
                    0 <= k < entries@.len() ==> (#[trigger] store@.titles[k]).id == k + 1
                        && store@.titles[k].name@ == entries@[k].name@
                &&& forall|k: int|
                    0 <= k < store@.ratings.len() ==> (#[trigger] store@.ratings[k]).elo
                        == BASELINE
            },
            Err(e) => e == DbError::PersistenceFailure(Fault::OutOfRange) && (criteria@.len()
                >= i32::MAX || entries@.len() >= i32::MAX || criteria_count(criteria@)
                >= i32::MAX),
        },
{
    let mut store = Store::new();
    let mut i: usize = 0;
    assert(criteria@.take(0).len() == 0);
    while i < criteria.len()
        invariant
            i <= criteria@.len(),
            store.wf(),
            store@.matches.len() == 0,
            store@.titles.len() == 0,
            store@.ratings.len() == 0,
            store@.groups.len() == i,
            counted(group_ids(store@.groups)),
            counted(criterion_ids(store@.criteria)),
            forall|k: int|
                0 <= k < i ==> (#[trigger] store@.groups[k]).name@ == criteria@[k].name@,
            store@.criteria.len() == criteria_count(criteria@.take(i as int)),
        decreases criteria@.len() - i,
    {
        let seed = &criteria[i];
        let request = NewCriteriaGroup { name: String::from_str(seed.name) };
        let ghost before = store@;
        let group: i32 = match request.save(&mut store) {
            Ok(id) => id as i32,
            Err(e) => {
                proof {
                    let k = choose|k: int| #[trigger] group_at(before.groups, k, i32::MAX as int);
                    assert(group_ids(before.groups)[k] == k + 1);
                }
                return Err(e);
            },
        };
        proof {
            lemma_next_of_counted(group_ids(before.groups), group as int);
            lemma_criteria_count_step(criteria@, i as int);
            assert(group_at(store@.groups, i as int, group as int));
            assert forall|k: int| 0 <= k < store@.groups.len() implies #[trigger] group_ids(
                store@.groups,
            )[k] == k + 1 by {
                if k < i {
                    assert(group_ids(before.groups)[k] == k + 1);
                }
            }
        }
        let mut j: usize = 0;
        while j < seed.sub_criteria.len()
            invariant
                i < criteria@.len(),
                *seed == criteria@[i as int],
                j <= seed.sub_criteria@.len(),
                store.wf(),
                store@.matches.len() == 0,
                store@.titles.len() == 0,
                store@.ratings.len() == 0,
                store@.groups.len() == i + 1,
                group_at(store@.groups, i as int, group as int),
                counted(group_ids(store@.groups)),
                counted(criterion_ids(store@.criteria)),
                forall|k: int|
                    0 <= k < i + 1 ==> (#[trigger] store@.groups[k]).name@ == criteria@[k].name@,
                store@.criteria.len() == criteria_count(criteria@.take(i as int)) + j,
                criteria_count(criteria@.take(i as int)) + seed.sub_criteria@.len()
                    <= criteria_count(criteria@),
            decreases seed.sub_criteria@.len() - j,
        {
            let request = NewCriterion { group, name: String::from_str(seed.sub_criteria[j]) };
            let ghost before = store@;
            match request.save(&mut store) {
                Ok(_) => {
                    proof {
                        let id = choose|id: i32|
                            #![trigger crate::model::is_next_id(criterion_ids(before.criteria), id as int)]
                            crate::model::is_next_id(criterion_ids(before.criteria), id as int)
                                && store@ == (crate::model::Ledger {
                                criteria: before.criteria.push(
                                    crate::model::CriterionRow { id, group, name: request.name },
                                ),
                                ..before
                            });
                        lemma_next_of_counted(criterion_ids(before.criteria), id as int);
                        assert forall|k: int| 0 <= k < store@.criteria.len() implies
                            #[trigger] criterion_ids(store@.criteria)[k] == k + 1 by {
                            if k < before.criteria.len() {
                                assert(criterion_ids(before.criteria)[k] == k + 1);
                            }
                        }
                    }
                },
                Err(e) => {
                    proof {
                        assert(before.has_group(group as int));
                        let k = choose|k: int| #[trigger] criterion_at(
                            before.criteria,
                            k,
                            i32::MAX as int,
                        );
                        assert(criterion_ids(before.criteria)[k] == k + 1);
                    }
                    return Err(e);
                },
            }
            j = j + 1;
        }
        i = i + 1;
    }
    proof {
        assert(criteria@.take(i as int) =~= criteria@);
        assert forall|k: int| 0 <= k < criteria@.len() implies (#[trigger] store@.groups[k]).id
            == k + 1 by {
            assert(group_ids(store@.groups)[k] == k + 1);
        }
    }
    let mut t: usize = 0;
    while t < entries.len()
        invariant
            t <= entries@.len(),
            store.wf(),
            store@.matches.len() == 0,
            store@.groups.len() == criteria@.len(),
            forall|k: int|
                0 <= k < criteria@.len() ==> (#[trigger] store@.groups[k]).id == k + 1
                    && store@.groups[k].name@ == criteria@[k].name@,
            store@.criteria.len() == criteria_count(criteria@),
            store@.titles.len() == t,
            counted(title_ids(store@.titles)),
            forall|k: int| 0 <= k < t ==> (#[trigger] store@.titles[k]).name@ == entries@[k].name@,
            forall|k: int|
                0 <= k < store@.ratings.len() ==> (#[trigger] store@.ratings[k]).elo == BASELINE,
        decreases entries@.len() - t,
    {
        let seed = &entries[t];
        let request = NewTitle { name: String::from_str(seed.name) };
        let ghost before = store@;
        let title: i32 = match request.save(&mut store) {
            Ok(id) => id as i32,
            Err(e) => {
                proof {
                    let k = choose|k: int| #[trigger] title_at(before.titles, k, i32::MAX as int);
                    assert(title_ids(before.titles)[k] == k + 1);
                }
                return Err(e);
            },
        };
        proof {
            lemma_next_of_counted(title_ids(before.titles), title as int);
            assert forall|k: int| 0 <= k < store@.titles.len() implies #[trigger] title_ids(
                store@.titles,
            )[k] == k + 1 by {
                if k < t {
                    assert(title_ids(before.titles)[k] == k + 1);
                }
            }
            assert forall|k: int| 0 <= k < criteria@.len() implies (#[trigger] store@.groups[k]).id
                == k + 1 && store@.groups[k].name@ == criteria@[k].name@ by {
                assert(before.groups[k].id == k + 1);
            }
        }
        let mut j: usize = 0;
        while j < seed.groups.len()
            invariant
                t < entries@.len(),
                *seed == entries@[t as int],
                j <= seed.groups@.len(),
                store.wf(),
                store@.matches.len() == 0,
                store@.groups.len() == criteria@.len(),
                forall|k: int|
                    0 <= k < criteria@.len() ==> (#[trigger] store@.groups[k]).id == k + 1
                        && store@.groups[k].name@ == criteria@[k].name@,
                store@.criteria.len() == criteria_count(criteria@),
                store@.titles.len() == t + 1,
                counted(title_ids(store@.titles)),
                forall|k: int|
                    0 <= k < t + 1 ==> (#[trigger] store@.titles[k]).name@ == entries@[k].name@,
                forall|k: int|
                    0 <= k < store@.ratings.len() ==> (#[trigger] store@.ratings[k]).elo
                        == BASELINE,
            decreases seed.groups@.len() - j,
        {
            match store.group_named(seed.groups[j]) {
                Some(g) => {
                    let request = NewTitleCriteria { title, criteria: g };
                    let ghost before = store@;
                    match request.save(&mut store) {
                        Ok(_) => {
                            proof {
                                assert forall|k: int| 0 <= k < criteria@.len() implies (
                                #[trigger] store@.groups[k]).id == k + 1 && store@.groups[k].name@
                                    == criteria@[k].name@ by {
                                    assert(before.groups[k].id == k + 1);
                                }
                                assert forall|k: int| 0 <= k < t + 1 implies (
                                #[trigger] store@.titles[k]).name@ == entries@[k].name@ by {
                                    assert(before.titles[k].name@ == entries@[k].name@);
                                }
                                assert forall|k: int| 0 <= k < store@.ratings.len() implies (
                                #[trigger] store@.ratings[k]).elo == BASELINE by {
                                    if k < before.ratings.len() {
                                        assert(before.ratings[k].elo == BASELINE);
                                    }
                                }
                            }
                        },
                        Err(_) => {},
                    }
                },
                None => {},
            }
            j = j + 1;
        }
        t = t + 1;
    }
    proof {
        assert forall|k: int| 0 <= k < entries@.len() implies (#[trigger] store@.titles[k]).id
            == k + 1 by {
            assert(title_ids(store@.titles)[k] == k + 1);
        }
    }
    Ok(store)
}

} // verus!
