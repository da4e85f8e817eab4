//! Frontier types, and the keys of frontier mappings.
use std::collections::HashSet;

use vstd::prelude::*;

use crate::keyed::{KeyMap, MapKey};
use crate::optimizer::data_loader::DataId;
use crate::optimizer::fronts::sets_view;
use crate::utils::programs::{copy_set, ProgramIdx};

verus! {

broadcast use vstd::std_specs::hash::group_hash_axioms;

/// Which Pareto fronts candidates are selected from.
#[derive(Debug, Clone, Copy, PartialEq, Eq, Structural)]
pub enum FrontierType {
    /// One front for each validation example.
    Instance,
    /// One front for each named objective.
    Objective,
    /// One front for each validation example and for each objective.
    Hybrid,
    /// One front for each pair of an example and an objective.
    Cartesian,
}

impl Default for FrontierType {
    fn default() -> (t: FrontierType)
        ensures
            t == FrontierType::Instance,
    {
        FrontierType::Instance
    }
}

impl FrontierType {
    /// Whether the fronts are made of objective scores.
    pub open spec fn needs_objectives(self) -> bool {
        !(self is Instance)
    }

    /// The name of the variant.
    pub open spec fn name_spec(self) -> Seq<char> {
        match self {
            FrontierType::Instance => "Instance"@,
            FrontierType::Objective => "Objective"@,
            FrontierType::Hybrid => "Hybrid"@,
            FrontierType::Cartesian => "Cartesian"@,
        }
    }

    /// The name of the variant.
    pub fn name(&self) -> (s: &'static str)
        ensures
            s@ == self.name_spec(),
    {
        match self {
            FrontierType::Instance => "Instance",
            FrontierType::Objective => "Objective",
            FrontierType::Hybrid => "Hybrid",
            FrontierType::Cartesian => "Cartesian",
        }
    }
}

/// The view of a [`FrontierKey`].
pub enum FrontierKeyView<V> {
    /// A validation example.
    Instance { val_id: V },
    /// An objective.
    Objective { name: Seq<char> },
    /// A validation example and an objective.
    Cartesian { val_id: V, objective: Seq<char> },
}

/// A key of a frontier mapping.
#[derive(Debug, Clone, PartialEq, Eq, Hash)]
pub enum FrontierKey<Id: DataId> {
    /// A validation example.
    Instance { val_id: Id },
    /// An objective.
    Objective { name: String },
    /// A validation example and an objective.
    Cartesian { val_id: Id, objective: String },
}

impl<Id: DataId> View for FrontierKey<Id> {
    type V = FrontierKeyView<Id::V>;

    open spec fn view(&self) -> FrontierKeyView<Id::V> {
        match *self {
            FrontierKey::Instance { val_id } => FrontierKeyView::Instance { val_id: val_id@ },
            FrontierKey::Objective { name } => FrontierKeyView::Objective { name: name@ },
            FrontierKey::Cartesian { val_id, objective } => FrontierKeyView::Cartesian {
                val_id: val_id@,
                objective: objective@,
            },
        }
    }
}

impl<Id: DataId> MapKey for FrontierKey<Id> {
    fn same(&self, other: &Self) -> (b: bool) {
        match (self, other) {
            (
                FrontierKey::Instance { val_id: a },
                FrontierKey::Instance { val_id: b },
            ) => a.same(b),
            (FrontierKey::Objective { name: a }, FrontierKey::Objective { name: b }) => a.same(b),
            (
                FrontierKey::Cartesian { val_id: a, objective: x },
                FrontierKey::Cartesian { val_id: b, objective: y },
            ) => a.same(b) && x.same(y),
            _ => false,
        }
    }

    fn duplicate(&self) -> (r: Self) {
        match self {
            FrontierKey::Instance { val_id } => FrontierKey::Instance {
                val_id: val_id.duplicate(),
            },
            FrontierKey::Objective { name } => FrontierKey::Objective { name: name.duplicate() },
            FrontierKey::Cartesian { val_id, objective } => FrontierKey::Cartesian {
                val_id: val_id.duplicate(),
                objective: objective.duplicate(),
            },
        }
    }
}

/// The fronts on the validation examples as a frontier mapping.
pub open spec fn instance_part<V>(sets: Map<V, Set<usize>>) -> Map<
    FrontierKeyView<V>,
    Set<usize>,
> {
    Map::new(
        |k: FrontierKeyView<V>| k is Instance && sets.dom().contains(k->Instance_val_id),
        |k: FrontierKeyView<V>| sets[k->Instance_val_id],
    )
}

/// The fronts on the objectives as a frontier mapping.
pub open spec fn objective_part<V>(sets: Map<Seq<char>, Set<usize>>) -> Map<
    FrontierKeyView<V>,
    Set<usize>,
> {
    Map::new(
        |k: FrontierKeyView<V>| k is Objective && sets.dom().contains(k->Objective_name),
        |k: FrontierKeyView<V>| sets[k->Objective_name],
    )
}

/// The fronts on pairs of example and objective as a frontier mapping.
pub open spec fn cartesian_part<V>(sets: Map<(V, Seq<char>), Set<usize>>) -> Map<
    FrontierKeyView<V>,
    Set<usize>,
> {
    Map::new(
        |k: FrontierKeyView<V>|
            k is Cartesian && sets.dom().contains((k->Cartesian_val_id, k->Cartesian_objective)),
        |k: FrontierKeyView<V>| sets[(k->Cartesian_val_id, k->Cartesian_objective)],
    )
}

/// Add the fronts on the validation examples.
pub(crate) fn add_instance_fronts<Id: DataId>(
    sets: &KeyMap<Id, HashSet<ProgramIdx>>,
    mapping: &mut KeyMap<FrontierKey<Id>, HashSet<ProgramIdx>>,
)
    requires
        sets.wf(),
        old(mapping).wf(),
    ensures
        final(mapping).wf(),
        sets_view(*final(mapping)) == sets_view(*old(mapping)).union_prefer_right(
            instance_part(sets_view(*sets)),
        ),
{
    let ghost base = sets_view(*mapping);
    let ghost all = sets_view(*sets);
    let n: usize = sets.len();
    let mut i: usize = 0;
    while i < n
        invariant
            sets.wf(),
            mapping.wf(),
            all == sets_view(*sets),
            n == sets.key_seq().len(),
            i <= n,
            forall|k: FrontierKeyView<Id::V>| #[trigger]
                sets_view(*mapping).dom().contains(k) <==> base.dom().contains(k) || (
                instance_part(all).dom().contains(k) && sets.key_seq().take(i as int).contains(
                    k->Instance_val_id,
                )),
            forall|k: FrontierKeyView<Id::V>| #[trigger]
                sets_view(*mapping).dom().contains(k) ==> sets_view(*mapping)[k] == if instance_part(
                    all,
                ).dom().contains(k) && sets.key_seq().take(i as int).contains(k->Instance_val_id) {
                    instance_part(all)[k]
                } else {
                    base[k]
                },
        decreases n - i,
    {
        let ghost before = sets_view(*mapping);
        let ghost id = sets.key_seq()[i as int];
        proof {
            sets.lemma_entry(i as int);
            let t0 = sets.key_seq().take(i as int);
            let t1 = sets.key_seq().take(i + 1);
            assert(t1 =~= t0.push(id));
            assert forall|x: Id::V| t1.contains(x) <==> t0.contains(x) || x == id by {
                if t0.contains(x) {
                    let q = choose|q: int| 0 <= q < t0.len() && t0[q] == x;
                    assert(t1[q] == x);
                }
                if x == id {
                    assert(t1[i as int] == x);
                }
            }
        }
        let set = copy_set(sets.value_at(i));
        let key = FrontierKey::Instance { val_id: sets.key_at(i).duplicate() };
        let ghost kv = key@;
        let ghost sv = set@;
        mapping.insert(key, set);
        assert(sets_view(*mapping) =~= before.insert(kv, sv));
        assert(sv == all[id]);
        i += 1;
    }
    proof {
        assert(sets.key_seq().take(n as int) =~= sets.key_seq());
        assert(sets_view(*mapping) =~= base.union_prefer_right(instance_part(all)));
    }
}

/// Add the fronts on the objectives.
pub(crate) fn add_objective_fronts<Id: DataId>(
    sets: &KeyMap<String, HashSet<ProgramIdx>>,
    mapping: &mut KeyMap<FrontierKey<Id>, HashSet<ProgramIdx>>,
)
    requires
        sets.wf(),
        old(mapping).wf(),
    ensures
        final(mapping).wf(),
        sets_view(*final(mapping)) == sets_view(*old(mapping)).union_prefer_right(
            objective_part(sets_view(*sets)),
        ),
{
    let ghost base = sets_view(*mapping);
    let ghost all = sets_view(*sets);
    let n: usize = sets.len();
    let mut i: usize = 0;
    while i < n
        invariant
            sets.wf(),
            mapping.wf(),
            all == sets_view(*sets),
            n == sets.key_seq().len(),
            i <= n,
            forall|k: FrontierKeyView<Id::V>| #[trigger]
                sets_view(*mapping).dom().contains(k) <==> base.dom().contains(k) || (
                objective_part(all).dom().contains(k) && sets.key_seq().take(i as int).contains(
                    k->Objective_name,
                )),
            forall|k: FrontierKeyView<Id::V>| #[trigger]
                sets_view(*mapping).dom().contains(k) ==> sets_view(*mapping)[k] == if objective_part(
                    all,
                ).dom().contains(k) && sets.key_seq().take(i as int).contains(k->Objective_name) {
                    objective_part(all)[k]
                } else {
                    base[k]
                },
        decreases n - i,
    {
        let ghost before = sets_view(*mapping);
        let ghost id = sets.key_seq()[i as int];
        proof {
            sets.lemma_entry(i as int);
            let t0 = sets.key_seq().take(i as int);
            let t1 = sets.key_seq().take(i + 1);
            assert(t1 =~= t0.push(id));
            assert forall|x: Seq<char>| t1.contains(x) <==> t0.contains(x) || x == id by {
                if t0.contains(x) {
                    let q = choose|q: int| 0 <= q < t0.len() && t0[q] == x;
                    assert(t1[q] == x);
                }
                if x == id {
                    assert(t1[i as int] == x);
                }
            }
        }
        let set = copy_set(sets.value_at(i));
        let key = FrontierKey::Objective { name: sets.key_at(i).duplicate() };
        let ghost kv = key@;
        let ghost sv = set@;
        mapping.insert(key, set);
        assert(sets_view(*mapping) =~= before.insert(kv, sv));
        assert(sv == all[id]);
        i += 1;
    }
    proof {
        assert(sets.key_seq().take(n as int) =~= sets.key_seq());
        assert(sets_view(*mapping) =~= base.union_prefer_right(objective_part(all)));
    }
}

/// Add the fronts on the pairs of example and objective.
pub(crate) fn add_cartesian_fronts<Id: DataId>(
    sets: &KeyMap<(Id, String), HashSet<ProgramIdx>>,
    mapping: &mut KeyMap<FrontierKey<Id>, HashSet<ProgramIdx>>,
)
    requires
        sets.wf(),
        old(mapping).wf(),
    ensures
        final(mapping).wf(),
        sets_view(*final(mapping)) == sets_view(*old(mapping)).union_prefer_right(
            cartesian_part(sets_view(*sets)),
        ),
{
    let ghost base = sets_view(*mapping);
    let ghost all = sets_view(*sets);
    let n: usize = sets.len();
    let mut i: usize = 0;
    while i < n
        invariant
            sets.wf(),
            mapping.wf(),
            all == sets_view(*sets),
            n == sets.key_seq().len(),
            i <= n,
            forall|k: FrontierKeyView<Id::V>| #[trigger]
                sets_view(*mapping).dom().contains(k) <==> base.dom().contains(k) || (
                cartesian_part(all).dom().contains(k) && sets.key_seq().take(i as int).contains(
                    (k->Cartesian_val_id, k->Cartesian_objective),
                )),
            forall|k: FrontierKeyView<Id::V>| #[trigger]
                sets_view(*mapping).dom().contains(k) ==> sets_view(*mapping)[k] == if cartesian_part(
                    all,
                ).dom().contains(k) && sets.key_seq().take(i as int).contains((k->Cartesian_val_id, k->Cartesian_objective)) {
                    cartesian_part(all)[k]
                } else {
                    base[k]
                },
        decreases n - i,
    {
        let ghost before = sets_view(*mapping);
        let ghost id = sets.key_seq()[i as int];
        proof {
            sets.lemma_entry(i as int);
            let t0 = sets.key_seq().take(i as int);
            let t1 = sets.key_seq().take(i + 1);
            assert(t1 =~= t0.push(id));
            assert forall|x: (Id::V, Seq<char>)| t1.contains(x) <==> t0.contains(x) || x == id by {
                if t0.contains(x) {
                    let q = choose|q: int| 0 <= q < t0.len() && t0[q] == x;
                    assert(t1[q] == x);
                }
                if x == id {
                    assert(t1[i as int] == x);
                }
            }
        }
        let set = copy_set(sets.value_at(i));
        let key = FrontierKey::Cartesian {
            val_id: sets.key_at(i).0.duplicate(),
            objective: sets.key_at(i).1.duplicate(),
        };
        let ghost kv = key@;
        let ghost sv = set@;
        mapping.insert(key, set);
        assert(sets_view(*mapping) =~= before.insert(kv, sv));
        assert(sv == all[id]);
        i += 1;
    }
    proof {
        assert(sets.key_seq().take(n as int) =~= sets.key_seq());
        assert(sets_view(*mapping) =~= base.union_prefer_right(cartesian_part(all)));
    }
}

} // verus!
