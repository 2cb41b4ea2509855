//! Laws of the types: those that several contracts declare are shared, and nothing else changes.

use crate::contract;
use crate::contract::{DraftView, StructView};
use crate::expansion;
use crate::expansion::ContractView;
use crate::order;
use crate::tokens;
use vstd::prelude::*;

verus! {

proof fn lemma_declared_finite(contracts: Seq<ContractView>) -> (all: Set<Seq<char>>)
    ensures
        all.finite(),
        forall|i: int, name: Seq<char>|
            0 <= i < contracts.len() && #[trigger] contracts[i].1.has(name) ==> all.contains(name),
    decreases contracts.len(),
{
    if contracts.len() == 0 {
        Set::empty()
    } else {
        let rest = contracts.drop_last();
        let structs = contracts.last().1.structs;
        let listed = structs.map_values(|s: StructView| s.name);
        let of_rest = lemma_declared_finite(rest);
        let all = of_rest.union(listed.to_set());
        assert forall|i: int, name: Seq<char>|
            0 <= i < contracts.len() && #[trigger] contracts[i].1.has(name) implies all.contains(name) by {
            if i < rest.len() {
                assert(rest[i].1.has(name));
            } else {
                contract::lemma_find_some(structs, name);
                let k = choose|k: int| 0 <= k < structs.len() && (#[trigger] structs[k]).name == name;
                assert(listed[k] == name);
            }
        }
        all
    }
}

/// There are finitely many shared types.
pub proof fn law_shared_types_are_finite(contracts: Seq<ContractView>)
    ensures
        expansion::shared_names(contracts).finite(),
{
    let all = lemma_declared_finite(contracts);
    assert(expansion::shared_names(contracts).subset_of(all));
    vstd::set_lib::lemma_set_subset_finite(all, expansion::shared_names(contracts));
}

/// `code` is the definition of the type by the first contract that declares it.
pub open spec fn is_first_definition(
    contracts: Seq<ContractView>,
    name: Seq<char>,
    code: Seq<tokens::Tree>,
) -> bool {
    exists|i: int|
        {
            &&& 0 <= i < contracts.len()
            &&& #[trigger] contracts[i].1.definition(name) == Some(code)
            &&& forall|j: int| 0 <= j < i ==> !(#[trigger] contracts[j].1.has(name))
        }
}

/// Every type that two contracts or more declare stands exactly once among the shared types, as
/// the first of these contracts defines it, and nothing else stands there.
pub proof fn law_shared_types_stand_once(contracts: Seq<ContractView>)
    ensures
        ({
            let listed = order::listing(expansion::shared_names(contracts));
            let shared = expansion::expansion(contracts).shared_types;
            &&& listed.no_duplicates()
            &&& listed.to_set() == expansion::shared_names(contracts)
            &&& shared.len() == listed.len()
            &&& forall|k: int|
                0 <= k < listed.len() ==> is_first_definition(
                    contracts,
                    #[trigger] listed[k],
                    shared[k],
                )
        }),
{
    law_shared_types_are_finite(contracts);
    let names = expansion::shared_names(contracts);
    order::law_listing(names);
    let listed = order::listing(names);
    let shared = expansion::expansion(contracts).shared_types;
    assert forall|i: int, j: int| 0 <= i < listed.len() && 0 <= j < listed.len() && i != j implies listed[i]
        != listed[j] by {
        order::law_before_irreflexive(listed[i]);
        if i < j {
            assert(order::before(listed[i], listed[j]));
        } else {
            assert(order::before(listed[j], listed[i]));
        }
    }
    assert forall|k: int| 0 <= k < listed.len() implies is_first_definition(
        contracts,
        #[trigger] listed[k],
        shared[k],
    ) by {
        assert(listed.to_set().contains(listed[k]));
        let i = lemma_first(contracts, listed[k]);
        assert(shared[k] == expansion::first_definition(contracts, listed[k]));
    }
}

/// Where a type is declared, the first contract that declares it.
pub proof fn lemma_first(contracts: Seq<ContractView>, name: Seq<char>) -> (i: int)
    requires
        exists|i: int| 0 <= i < contracts.len() && #[trigger] contracts[i].1.has(name),
    ensures
        0 <= i < contracts.len(),
        contracts[i].1.definition(name) == Some(expansion::first_definition(contracts, name)),
        forall|j: int| 0 <= j < i ==> !(#[trigger] contracts[j].1.has(name)),
    decreases contracts.len(),
{
    if contracts[0].1.has(name) {
        0
    } else {
        let rest = contracts.drop_first();
        let k = choose|k: int| 0 <= k < contracts.len() && #[trigger] contracts[k].1.has(name);
        assert(rest[k - 1].1.has(name));
        let i = lemma_first(rest, name);
        assert forall|j: int| 0 <= j < i + 1 implies !(#[trigger] contracts[j].1.has(name)) by {
            if j > 0 {
                assert(!rest[j - 1].1.has(name));
            }
        }
        i + 1
    }
}

/// After an expansion no contract declares a shared type. Every other type is declared as before.
pub proof fn law_shared_types_leave_contracts(contracts: Seq<ContractView>, i: int, name: Seq<char>)
    requires
        0 <= i < contracts.len(),
    ensures
        expansion::expansion(contracts).contracts[i].1.definition(name) == (if expansion::is_shared(
            contracts,
            name,
        ) {
            None
        } else {
            contracts[i].1.definition(name)
        }),
{
    contract::lemma_find_without(
        contracts[i].1.structs,
        expansion::shared_names(contracts),
        name,
    );
}

/// No type is lost: whatever a contract declared, it still declares, or it is marked as one that
/// lost a type and the type stands among the shared types.
pub proof fn law_no_type_is_lost(contracts: Seq<ContractView>, i: int, name: Seq<char>)
    requires
        0 <= i < contracts.len(),
        contracts[i].1.has(name),
    ensures
        ({
            let result = expansion::expansion(contracts);
            ||| result.contracts[i].1.definition(name) == contracts[i].1.definition(name)
            ||| {
                &&& result.dirty.contains(i)
                &&& result.shared_types.contains(expansion::first_definition(contracts, name))
            }
        }),
{
    law_shared_types_leave_contracts(contracts, i, name);
    if expansion::is_shared(contracts, name) {
        law_shared_types_are_finite(contracts);
        let names = expansion::shared_names(contracts);
        order::law_listing(names);
        let listed = order::listing(names);
        assert(listed.to_set().contains(name));
        let k = choose|k: int| 0 <= k < listed.len() && listed[k] == name;
        assert(expansion::expansion(contracts).shared_types[k] == expansion::first_definition(
            contracts,
            name,
        ));
    }
}

/// A contract that shares no type comes out of an expansion as it went in, and gets no import.
pub proof fn law_other_contracts_are_untouched(contracts: Seq<ContractView>, i: int, single_file: bool)
    requires
        0 <= i < contracts.len(),
        forall|name: Seq<char>| #[trigger]
            contracts[i].1.has(name) ==> !expansion::is_shared(contracts, name),
    ensures
        expansion::expansion(contracts).contracts[i] == contracts[i],
        expansion::expansion(contracts).with_import(tokens::shared_import(single_file)).contracts[i]
            == contracts[i],
{
    let shared = expansion::shared_names(contracts);
    assert forall|name: Seq<char>| contract::find(contracts[i].1.structs, name) is Some implies !#[trigger] shared.contains(
        name,
    ) by {
        assert(contracts[i].1.has(name));
    }
    lemma_without_shared(contracts[i].1.structs, expansion::shared_names(contracts));
}

proof fn lemma_without_shared(structs: Seq<StructView>, names: Set<Seq<char>>)
    requires
        forall|name: Seq<char>| contract::find(structs, name) is Some ==> !#[trigger] names.contains(name),
    ensures
        contract::without(structs, names) == structs,
    decreases structs.len(),
{
    if structs.len() > 0 {
        let rest = structs.drop_last();
        let last = structs.last();
        assert forall|name: Seq<char>| contract::find(rest, name) is Some implies !#[trigger] names.contains(
            name,
        ) by {
            contract::lemma_find_some(rest, name);
            contract::lemma_find_some(structs, name);
            let k = choose|k: int| 0 <= k < rest.len() && (#[trigger] rest[k]).name == name;
            assert(structs[k].name == name);
        }
        contract::lemma_find_some(structs, last.name);
        assert(structs[structs.len() - 1].name == last.name);
        lemma_without_shared(rest, names);
        assert(structs =~= rest.push(last));
    }
}

proof fn lemma_nothing_shared(contracts: Seq<ContractView>)
    requires
        forall|name: Seq<char>| !#[trigger] expansion::is_shared(contracts, name),
    ensures
        expansion::expansion(contracts).contracts == contracts,
        expansion::expansion(contracts).dirty == Set::<int>::empty(),
        expansion::expansion(contracts).shared_types == Seq::<Seq<tokens::Tree>>::empty(),
{
    let result = expansion::expansion(contracts);
    assert forall|i: int| 0 <= i < contracts.len() implies #[trigger] result.contracts[i] == contracts[i] by {
        law_other_contracts_are_untouched(contracts, i, true);
    }
    assert(result.contracts =~= contracts);
    assert(result.dirty =~= Set::<int>::empty());
    assert(expansion::shared_names(contracts) =~= Set::<Seq<char>>::empty());
    order::law_listing(Set::<Seq<char>>::empty());
    let listed = order::listing(Set::<Seq<char>>::empty());
    if listed.len() > 0 {
        assert(listed.to_set().contains(listed[0]));
    }
    assert(result.shared_types =~= Seq::<Seq<tokens::Tree>>::empty());
}

/// Of one contract, or none, nothing is shared: the contracts stay as they are, and there is no
/// module for shared types.
pub proof fn law_single_contract_shares_nothing(contracts: Seq<ContractView>)
    requires
        contracts.len() <= 1,
    ensures
        expansion::expansion(contracts).contracts == contracts,
        expansion::expansion(contracts).dirty == Set::<int>::empty(),
        expansion::expansion(contracts).shared_types == Seq::<Seq<tokens::Tree>>::empty(),
        expansion::expansion(contracts).inplace() == tokens::joined(
            contracts.map_values(|c: ContractView| c.0.tokens()),
        ),
{
    lemma_nothing_shared(contracts);
    let result = expansion::expansion(contracts);
    assert(result.with_import(tokens::shared_import(true)).contracts =~= contracts);
    assert(result.inplace() =~= tokens::joined(contracts.map_values(|c: ContractView| c.0.tokens())));
}

/// To expand what was expanded changes nothing more.
pub proof fn law_expanding_again_changes_nothing(contracts: Seq<ContractView>)
    ensures
        ({
            let once = expansion::expansion(contracts).contracts;
            let again = expansion::expansion(once);
            &&& again.contracts == once
            &&& again.dirty == Set::<int>::empty()
            &&& again.shared_types == Seq::<Seq<tokens::Tree>>::empty()
        }),
{
    let once = expansion::expansion(contracts).contracts;
    assert forall|name: Seq<char>| !#[trigger] expansion::is_shared(once, name) by {
        if expansion::is_shared(once, name) {
            let (i, j) = choose|i: int, j: int|
                0 <= i < j < once.len() && #[trigger] once[i].1.has(name)
                    && #[trigger] once[j].1.has(name);
            law_shared_types_leave_contracts(contracts, i, name);
            law_shared_types_leave_contracts(contracts, j, name);
            assert(contracts[i].1.has(name) && contracts[j].1.has(name));
        }
    }
    lemma_nothing_shared(once);
}

/// There are shared types if and only if a contract lost one.
pub proof fn law_sharing_marks_contracts(contracts: Seq<ContractView>)
    ensures
        expansion::expansion(contracts).shared_types.len() > 0 <==> exists|i: int| #[trigger]
            expansion::expansion(contracts).dirty.contains(i),
{
    law_shared_types_are_finite(contracts);
    let names = expansion::shared_names(contracts);
    order::law_listing(names);
    let listed = order::listing(names);
    let result = expansion::expansion(contracts);
    assert(result.shared_types.len() == listed.len());
    if listed.len() > 0 {
        assert(listed.to_set().contains(listed[0]));
        assert(expansion::is_shared(contracts, listed[0]));
        let (i, j) = choose|i: int, j: int|
            0 <= i < j < contracts.len() && #[trigger] contracts[i].1.has(listed[0])
                && #[trigger] contracts[j].1.has(listed[0]);
        assert(result.dirty.contains(i));
    }
    if exists|i: int| #[trigger] result.dirty.contains(i) {
        let i = choose|i: int| #[trigger] result.dirty.contains(i);
        let name = choose|name: Seq<char>|
            expansion::is_shared(contracts, name) && #[trigger] contracts[i].1.has(name);
        assert(listed.to_set().contains(name));
        assert(listed.contains(name));
    }
}

/// An expansion keeps the contracts in number, order and name.
pub proof fn law_contracts_keep_their_names(contracts: Seq<ContractView>)
    ensures
        expansion::expansion(contracts).contracts.len() == contracts.len(),
        forall|i: int|
            0 <= i < contracts.len() ==> (#[trigger] expansion::expansion(
                contracts,
            ).contracts[i]).1.contract_name == contracts[i].1.contract_name,
{
}

/// The bindings hold the contracts by their names, and nothing else.
pub proof fn law_bindings_hold_all_names(contracts: Seq<ContractView>, rustfmt: bool, name: Seq<char>)
    ensures
        expansion::by_name(contracts, rustfmt).dom().contains(name) <==> exists|i: int|
            0 <= i < contracts.len() && (#[trigger] contracts[i]).1.contract_name == name,
    decreases contracts.len(),
{
    if contracts.len() > 0 {
        let rest = contracts.drop_last();
        let n = contracts.len() - 1;
        law_bindings_hold_all_names(rest, rustfmt, name);
        assert(contracts[n] == contracts.last());
        if exists|i: int| 0 <= i < contracts.len() && (#[trigger] contracts[i]).1.contract_name == name {
            let i = choose|i: int|
                0 <= i < contracts.len() && (#[trigger] contracts[i]).1.contract_name == name;
            assert(i == n || rest[i].1.contract_name == name);
        }
        if exists|i: int| 0 <= i < rest.len() && (#[trigger] rest[i]).1.contract_name == name {
            let i = choose|i: int| 0 <= i < rest.len() && (#[trigger] rest[i]).1.contract_name == name;
            assert(contracts[i].1.contract_name == name);
        }
    }
}

/// Of several contracts of one name the bindings hold the last.
pub proof fn law_last_contract_of_a_name_stays(contracts: Seq<ContractView>, rustfmt: bool, i: int)
    requires
        0 <= i < contracts.len(),
        forall|j: int|
            i < j < contracts.len() ==> (#[trigger] contracts[j]).1.contract_name
                != contracts[i].1.contract_name,
    ensures
        expansion::by_name(contracts, rustfmt)[contracts[i].1.contract_name] == (DraftView {
            tokens: contracts[i].0.tokens(),
            rustfmt,
            name: contracts[i].1.contract_name,
        }),
    decreases contracts.len(),
{
    let rest = contracts.drop_last();
    let n = contracts.len() - 1;
    if i < n {
        assert(contracts[n].1.contract_name != contracts[i].1.contract_name);
        assert(rest[i] == contracts[i]);
        law_last_contract_of_a_name_stays(rest, rustfmt, i);
    }
}

/// No two structs have the same name.
pub open spec fn structs_apart(structs: Seq<StructView>) -> bool {
    forall|i: int, j: int|
        0 <= i < j < structs.len() ==> (#[trigger] structs[i]).name != (#[trigger] structs[j]).name
}

/// The structs of a contract have names apart from the start, and keep them apart whatever is
/// removed and added.
pub proof fn law_structs_stay_apart(structs: Seq<StructView>, names: Set<Seq<char>>, more: StructView)
    requires
        structs_apart(structs),
    ensures
        structs_apart(Seq::empty()),
        structs_apart(contract::without(structs, names)),
        structs_apart(contract::without(structs, set![more.name]).push(more)),
{
    lemma_without_apart(structs, names);
    let rest = contract::without(structs, set![more.name]);
    lemma_without_apart(structs, set![more.name]);
    contract::lemma_find_without(structs, set![more.name], more.name);
    contract::lemma_find_some(rest, more.name);
    let all = rest.push(more);
    assert forall|i: int, j: int| 0 <= i < j < all.len() implies (#[trigger] all[i]).name != (
    #[trigger] all[j]).name by {
        assert(all[i] == rest[i]);
        if j < rest.len() {
            assert(rest[i].name != rest[j].name);
        }
    }
}

proof fn lemma_without_apart(structs: Seq<StructView>, names: Set<Seq<char>>)
    requires
        structs_apart(structs),
    ensures
        structs_apart(contract::without(structs, names)),
    decreases structs.len(),
{
    if structs.len() > 0 {
        let rest = structs.drop_last();
        let last = structs.last();
        assert(structs[structs.len() - 1] == last);
        assert forall|i: int, j: int| 0 <= i < j < rest.len() implies (#[trigger] rest[i]).name != (
        #[trigger] rest[j]).name by {
            assert(structs[i].name != structs[j].name);
        }
        lemma_without_apart(rest, names);
        if !names.contains(last.name) {
            let left = contract::without(rest, names);
            let all = left.push(last);
            contract::lemma_find_without(rest, names, last.name);
            contract::lemma_find_some(rest, last.name);
            contract::lemma_find_some(left, last.name);
            if contract::find(rest, last.name) is Some {
                let k = choose|k: int| 0 <= k < rest.len() && (#[trigger] rest[k]).name == last.name;
                assert(structs[k].name != structs[structs.len() - 1].name);
            }
            assert forall|i: int, j: int| 0 <= i < j < all.len() implies (#[trigger] all[i]).name != (
            #[trigger] all[j]).name by {
                assert(all[i] == left[i]);
                if j < left.len() {
                    assert(left[i].name != left[j].name);
                }
            }
        }
    }
}

} // verus!
