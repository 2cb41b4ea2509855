//! Laws of growth: a contract that is added makes a single file longer, though types move.

use crate::bindings;
use crate::bindings::{BindingsView, InnerView};
use crate::contract;
use crate::contract::{ExpandedView, StructView};
use crate::disk;
use crate::disk::Disk;
use crate::expansion;
use crate::expansion::ContractView;
use crate::laws::changes;
use crate::laws::files;
use crate::laws::types;
use crate::order;
use crate::tokens;
use crate::tokens::{Delimiter, Tree};
use vstd::prelude::*;

verus! {

/// The sum over a finite set of names.
spec fn sum(names: Set<Seq<char>>, f: spec_fn(Seq<char>) -> nat) -> nat
    decreases names.len(),
    when names.finite()
{
    if names.len() == 0 {
        0
    } else {
        let name = names.choose();
        f(name) + sum(names.remove(name), f)
    }
}

proof fn lemma_sum_remove(names: Set<Seq<char>>, f: spec_fn(Seq<char>) -> nat, name: Seq<char>)
    requires
        names.finite(),
        names.contains(name),
    ensures
        sum(names, f) == f(name) + sum(names.remove(name), f),
    decreases names.len(),
{
    let first = names.choose();
    assert(names.len() > 0);
    if first != name {
        lemma_sum_remove(names.remove(first), f, name);
        lemma_sum_remove(names.remove(name), f, first);
        assert(names.remove(first).remove(name) =~= names.remove(name).remove(first));
    }
}

proof fn lemma_sum_union(a: Set<Seq<char>>, b: Set<Seq<char>>, f: spec_fn(Seq<char>) -> nat)
    requires
        a.finite(),
        b.finite(),
        a.disjoint(b),
    ensures
        sum(a.union(b), f) == sum(a, f) + sum(b, f),
    decreases a.len(),
{
    if a.len() == 0 {
        assert(a.union(b) =~= b);
    } else {
        let name = a.choose();
        lemma_sum_remove(a.union(b), f, name);
        assert(a.union(b).remove(name) =~= a.remove(name).union(b));
        lemma_sum_union(a.remove(name), b, f);
    }
}

/// Sums of functions that are equal on the names.
proof fn lemma_sum_same(
    names: Set<Seq<char>>,
    f: spec_fn(Seq<char>) -> nat,
    g: spec_fn(Seq<char>) -> nat,
)
    requires
        names.finite(),
        forall|name: Seq<char>| names.contains(name) ==> #[trigger] f(name) == g(name),
    ensures
        sum(names, f) == sum(names, g),
    decreases names.len(),
{
    if names.len() > 0 {
        lemma_sum_same(names.remove(names.choose()), f, g);
    }
}

/// What a function loses name by name, it loses in all.
proof fn lemma_sum_loss(
    names: Set<Seq<char>>,
    f: spec_fn(Seq<char>) -> nat,
    g: spec_fn(Seq<char>) -> nat,
    loss: spec_fn(Seq<char>) -> nat,
)
    requires
        names.finite(),
        forall|name: Seq<char>| names.contains(name) ==> #[trigger] f(name) <= g(name) + loss(name),
    ensures
        sum(names, f) <= sum(names, g) + sum(names, loss),
    decreases names.len(),
{
    if names.len() > 0 {
        let name = names.choose();
        assert(f(name) <= g(name) + loss(name));
        lemma_sum_loss(names.remove(name), f, g, loss);
    }
}

/// Parts of a set that do not overlap have no greater sum than the set.
proof fn lemma_sum_parts(
    names: Set<Seq<char>>,
    parts: spec_fn(Seq<char>) -> Set<Seq<char>>,
    whole: Set<Seq<char>>,
    f: spec_fn(Seq<char>) -> nat,
)
    requires
        names.finite(),
        whole.finite(),
        forall|a: Seq<char>| names.contains(a) ==> (#[trigger] parts(a)).subset_of(whole),
        forall|a: Seq<char>, b: Seq<char>|
            names.contains(a) && names.contains(b) && a != b ==> (#[trigger] parts(a)).disjoint(
                #[trigger] parts(b),
            ),
    ensures
        sum(names, |a: Seq<char>| sum(parts(a), f)) <= sum(whole, f),
    decreases names.len(),
{
    if names.len() > 0 {
        let name = names.choose();
        let part = parts(name);
        let rest = whole.difference(part);
        assert(part.subset_of(whole));
        vstd::set_lib::lemma_set_subset_finite(whole, part);
        vstd::set_lib::lemma_set_subset_finite(whole, rest);
        lemma_sum_union(part, rest, f);
        assert(part.union(rest) =~= whole);
        assert forall|a: Seq<char>| names.remove(name).contains(a) implies (
        #[trigger] parts(a)).subset_of(rest) by {
            assert(parts(a).subset_of(whole));
            assert(parts(a).disjoint(parts(name)));
        }
        lemma_sum_parts(names.remove(name), parts, rest, f);
    }
}

/// Whether the code ends in a punctuation character that forms one operator with the next.
pub open spec fn ends_joint(code: Seq<Tree>) -> bool {
    code.len() > 0 && (code.last() matches Tree::Mark(_, joint) && joint)
}

/// The length of code in source text, with the gap behind it.
spec fn weight(code: Seq<Tree>) -> nat {
    tokens::source_text(code).len() + tokens::gap(code).len()
}

proof fn lemma_weight(a: Seq<Tree>, b: Seq<Tree>)
    ensures
        weight(a + b) == weight(a) + weight(b),
{
    if b.len() == 0 {
        assert(a + b =~= a);
    } else {
        tokens::lemma_source_text(a, b);
        assert((a + b).last() == b.last());
    }
}

/// The length of braces around code.
proof fn lemma_braces(body: Seq<Tree>)
    ensures
        tokens::tree_text(Tree::Group(Delimiter::Brace, body)).len() == weight(body) + 3 + (if ends_joint(
            body,
        ) {
            1nat
        } else {
            0nat
        }),
{
}

/// The length of a module in source text.
proof fn lemma_module_length(name: Seq<Tree>, body: Seq<Tree>)
    ensures
        tokens::source_text(tokens::public_module(name, body)).len() == weight(
            seq![Tree::Word("pub"@), Tree::Word("mod"@)] + name,
        ) + tokens::tree_text(Tree::Group(Delimiter::Brace, body)).len(),
{
    let code = tokens::public_module(name, body);
    let front = seq![Tree::Word("pub"@), Tree::Word("mod"@)] + name;
    assert(code.drop_last() =~= front);
}

/// What stands before the braces of a contract's module.
spec fn front(expanded: ExpandedView) -> Seq<Tree> {
    seq![Tree::Word("pub"@), Tree::Word("use"@)] + expanded.module + tokens::glob_end()
        + tokens::allow_attribute() + (seq![Tree::Word("pub"@), Tree::Word("mod"@)] + expanded.module)
}

proof fn lemma_contract_length(expanded: ExpandedView)
    ensures
        tokens::source_text(expanded.tokens()).len() == weight(front(expanded)) + weight(expanded.body())
            + 3 + (if ends_joint(expanded.body()) {
            1nat
        } else {
            0nat
        }),
{
    let group = Tree::Group(Delimiter::Brace, expanded.body());
    assert(expanded.tokens().drop_last() =~= front(expanded));
    assert(expanded.tokens().last() == group);
    lemma_braces(expanded.body());
}

/// The names of structs.
spec fn names_of(structs: Seq<StructView>) -> Set<Seq<char>> {
    Set::new(|name: Seq<char>| contract::find(structs, name) is Some)
}

proof fn lemma_names_of(structs: Seq<StructView>)
    ensures
        names_of(structs).finite(),
{
    let listed = structs.map_values(|s: StructView| s.name);
    assert forall|name: Seq<char>| names_of(structs).contains(name) implies listed.to_set().contains(name) by {
        contract::lemma_find_some(structs, name);
        let k = choose|k: int| 0 <= k < structs.len() && (#[trigger] structs[k]).name == name;
        assert(listed[k] == name);
    }
    vstd::set_lib::lemma_set_subset_finite(listed.to_set(), names_of(structs));
}

/// The weight of the definition that structs hold of a type.
spec fn held(structs: Seq<StructView>) -> spec_fn(Seq<char>) -> nat {
    |name: Seq<char>| weight(contract::find(structs, name)->0)
}

/// With a name taken once, the last struct is found by its name, and the others without it.
proof fn lemma_find_last(structs: Seq<StructView>, name: Seq<char>)
    requires
        structs.len() > 0,
        types::structs_apart(structs),
    ensures
        contract::find(structs, name) == (if name == structs.last().name {
            Some(structs.last().definition)
        } else {
            contract::find(structs.drop_last(), name)
        }),
        contract::find(structs.drop_last(), structs.last().name) is None,
    decreases structs.len(),
{
    let rest = structs.drop_last();
    let last = structs.last();
    contract::lemma_find_some(rest, last.name);
    if contract::find(rest, last.name) is Some {
        let k = choose|k: int| 0 <= k < rest.len() && (#[trigger] rest[k]).name == last.name;
        assert(structs[k].name != structs[structs.len() - 1].name);
    }
    if structs.len() == 1 {
        assert(structs.drop_first() =~= Seq::<StructView>::empty());
    } else {
        let tail = structs.drop_first();
        assert(tail.drop_last() =~= rest.drop_first());
        assert forall|i: int, j: int| 0 <= i < j < tail.len() implies (#[trigger] tail[i]).name != (
        #[trigger] tail[j]).name by {
            assert(structs[i + 1].name != structs[j + 1].name);
        }
        lemma_find_last(tail, name);
        assert(structs[0].name != structs[structs.len() - 1].name);
        assert(rest[0] == structs[0]);
    }
}

/// The definitions that are left weigh as much as those of the names that are left.
proof fn lemma_definitions_weight(structs: Seq<StructView>, gone: Set<Seq<char>>)
    requires
        types::structs_apart(structs),
    ensures
        weight(contract::definitions(contract::without(structs, gone))) == sum(
            names_of(structs).difference(gone),
            held(structs),
        ),
    decreases structs.len(),
{
    let left = contract::without(structs, gone);
    lemma_names_of(structs);
    let names = names_of(structs).difference(gone);
    vstd::set_lib::lemma_set_subset_finite(names_of(structs), names);
    if structs.len() == 0 {
        assert(names =~= Set::<Seq<char>>::empty());
        assert(left.map_values(|s: StructView| s.definition) =~= Seq::<Seq<Tree>>::empty());
        assert(contract::definitions(left) =~= Seq::<Tree>::empty());
        assert(weight(Seq::<Tree>::empty()) == 0);
    } else {
        let rest = structs.drop_last();
        let last = structs.last();
        assert forall|i: int, j: int| 0 <= i < j < rest.len() implies (#[trigger] rest[i]).name != (
        #[trigger] rest[j]).name by {
            assert(structs[i].name != structs[j].name);
        }
        lemma_definitions_weight(rest, gone);
        lemma_names_of(rest);
        let fewer = names_of(rest).difference(gone);
        vstd::set_lib::lemma_set_subset_finite(names_of(rest), fewer);
        assert forall|name: Seq<char>| fewer.contains(name) implies #[trigger] held(rest)(name) == held(
            structs,
        )(name) by {
            lemma_find_last(structs, name);
        }
        lemma_sum_same(fewer, held(rest), held(structs));
        lemma_find_last(structs, last.name);
        if gone.contains(last.name) {
            assert forall|name: Seq<char>| names.contains(name) == fewer.contains(name) by {
                lemma_find_last(structs, name);
            }
            assert(names =~= fewer);
        } else {
            lemma_sum_remove(names, held(structs), last.name);
            assert forall|name: Seq<char>| names.remove(last.name).contains(name) == fewer.contains(
                name,
            ) by {
                lemma_find_last(structs, name);
            }
            assert(names.remove(last.name) =~= fewer);
            lemma_definitions_push(contract::without(rest, gone), last);
        }
    }
}

proof fn lemma_definitions_push(structs: Seq<StructView>, last: StructView)
    ensures
        contract::definitions(structs.push(last)) == contract::definitions(structs) + last.definition,
        weight(contract::definitions(structs.push(last))) == weight(contract::definitions(structs))
            + weight(last.definition),
{
    let codes = structs.push(last).map_values(|s: StructView| s.definition);
    assert(codes.drop_last() =~= structs.map_values(|s: StructView| s.definition));
    assert(codes.last() == last.definition);
    lemma_weight(contract::definitions(structs), last.definition);
}

/// Where more names are taken away, and none of their definitions ends in a joined character, code
/// that ended in one still does.
proof fn lemma_end_kept(
    base: Seq<Tree>,
    structs: Seq<StructView>,
    gone: Set<Seq<char>>,
    more: Set<Seq<char>>,
)
    requires
        gone.subset_of(more),
        forall|k: int|
            0 <= k < structs.len() && more.contains((#[trigger] structs[k]).name) && !gone.contains(
                structs[k].name,
            ) ==> !ends_joint(structs[k].definition),
        ends_joint(base + contract::definitions(contract::without(structs, gone))),
    ensures
        ends_joint(base + contract::definitions(contract::without(structs, more))),
    decreases structs.len(),
{
    if structs.len() > 0 {
        let rest = structs.drop_last();
        let last = structs.last();
        assert(structs[structs.len() - 1] == last);
        assert forall|k: int|
            0 <= k < rest.len() && more.contains((#[trigger] rest[k]).name) && !gone.contains(
                rest[k].name,
            ) implies !ends_joint(rest[k].definition) by {
            assert(structs[k] == rest[k]);
        }
        let a = contract::without(rest, gone);
        let b = contract::without(rest, more);
        lemma_definitions_push(a, last);
        lemma_definitions_push(b, last);
        let before = base + contract::definitions(a);
        let after = base + contract::definitions(b);
        assert(base + (contract::definitions(a) + last.definition) =~= before + last.definition);
        assert(base + (contract::definitions(b) + last.definition) =~= after + last.definition);
        if gone.contains(last.name) {
            lemma_end_kept(base, rest, gone, more);
        } else if last.definition.len() == 0 {
            assert(before + last.definition =~= before);
            assert(after + last.definition =~= after);
            lemma_end_kept(base, rest, gone, more);
        } else {
            assert((before + last.definition).last() == last.definition.last());
            assert((after + last.definition).last() == last.definition.last());
        }
    }
}

/// Whether two contracts declare a type of the same name.
pub open spec fn have_common_type(a: ContractView, b: ContractView) -> bool {
    exists|name: Seq<char>| #[trigger] a.1.has(name) && b.1.has(name)
}

/// Whether the code of a contract defines the structs that it declares, each once, and nothing else
/// in their place.
pub open spec fn defines_its_structs(contract: ContractView) -> bool {
    &&& types::structs_apart(contract.1.structs)
    &&& contract.0.abi_structs == contract::definitions(contract.1.structs)
}

/// The types that are shared once a contract is added, and were not before.
spec fn newly_shared(contracts: Seq<ContractView>, added: ContractView) -> Set<Seq<char>> {
    expansion::shared_names(contracts.push(added)).difference(expansion::shared_names(contracts))
}

/// The weight of the definition that a type has among the shared types.
spec fn moved(contracts: Seq<ContractView>) -> spec_fn(Seq<char>) -> nat {
    |name: Seq<char>| weight(expansion::first_definition(contracts, name))
}

/// The types that a contract loses to the shared types once another is added.
spec fn lost(contracts: Seq<ContractView>, added: ContractView, i: int) -> Set<Seq<char>> {
    names_of(contracts[i].1.structs).intersect(newly_shared(contracts, added))
}

proof fn lemma_shared_before(contracts: Seq<ContractView>, added: ContractView)
    ensures
        expansion::shared_names(contracts).subset_of(expansion::shared_names(contracts.push(added))),
{
    let all = contracts.push(added);
    assert forall|name: Seq<char>| expansion::shared_names(contracts).contains(name) implies expansion::shared_names(
        all,
    ).contains(name) by {
        let (i, j) = choose|i: int, j: int|
            0 <= i < j < contracts.len() && #[trigger] contracts[i].1.has(name)
                && #[trigger] contracts[j].1.has(name);
        assert(all[i].1.has(name) && all[j].1.has(name));
    }
}

/// A type that is newly shared is declared by the added contract and by one other, whose definition
/// moves.
proof fn lemma_newly_shared(contracts: Seq<ContractView>, added: ContractView, i: int, name: Seq<char>)
    requires
        0 <= i < contracts.len(),
        contracts[i].1.has(name),
        newly_shared(contracts, added).contains(name),
    ensures
        added.1.has(name),
        forall|j: int| 0 <= j < contracts.len() && #[trigger] contracts[j].1.has(name) ==> j == i,
        contracts[i].1.definition(name) == Some(
            expansion::first_definition(contracts.push(added), name),
        ),
{
    let all = contracts.push(added);
    let (k, l) = choose|k: int, l: int|
        0 <= k < l < all.len() && #[trigger] all[k].1.has(name) && #[trigger] all[l].1.has(name);
    if l < contracts.len() {
        assert(contracts[k].1.has(name) && contracts[l].1.has(name));
        assert(expansion::is_shared(contracts, name));
    }
    assert(all[l] == added);
    assert forall|j: int| 0 <= j < contracts.len() && #[trigger] contracts[j].1.has(name) implies j == i by {
        if j < i || i < j {
            assert(contracts[i].1.has(name) && contracts[j].1.has(name));
            assert(expansion::is_shared(contracts, name));
        }
    }
    assert(all[i].1.has(name));
    let first = types::lemma_first(all, name);
    if first < contracts.len() {
        assert(contracts[first].1.has(name));
    } else {
        assert(!all[i].1.has(name));
    }
}

proof fn lemma_without_same(structs: Seq<StructView>, a: Set<Seq<char>>, b: Set<Seq<char>>)
    requires
        forall|k: int|
            0 <= k < structs.len() ==> a.contains((#[trigger] structs[k]).name) == b.contains(
                structs[k].name,
            ),
    ensures
        contract::without(structs, a) == contract::without(structs, b),
    decreases structs.len(),
{
    if structs.len() > 0 {
        let rest = structs.drop_last();
        assert(structs[structs.len() - 1] == structs.last());
        assert forall|k: int| 0 <= k < rest.len() implies a.contains((#[trigger] rest[k]).name)
            == b.contains(rest[k].name) by {
            assert(structs[k] == rest[k]);
        }
        lemma_without_same(rest, a, b);
    }
}

/// What comes before the structs in the body of a contract.
spec fn base(expanded: ExpandedView) -> Seq<Tree> {
    expanded.imports + expanded.contract + expanded.errors + expanded.events + expanded.call_structs
}

proof fn lemma_base_with_import(expanded: ExpandedView, import: Seq<Tree>)
    ensures
        weight(base(expanded.with_import(import))) == weight(base(expanded)) + weight(import),
{
    let more = expanded.with_import(import);
    let rest = expanded.contract + expanded.errors + expanded.events + expanded.call_structs;
    assert(base(expanded) =~= expanded.imports + rest);
    assert(base(more) =~= (expanded.imports + import) + rest);
    lemma_weight(expanded.imports, rest);
    lemma_weight(expanded.imports + import, rest);
    lemma_weight(expanded.imports, import);
}

/// The code of a contract as it is written to a single file.
spec fn written_code(contracts: Seq<ContractView>, i: int) -> Seq<Tree> {
    expansion::expansion(contracts).with_import(tokens::shared_import(true)).contracts[i].0.tokens()
}

/// A contract gets shorter by no more than the definitions that it loses to the shared types.
proof fn lemma_contract_change(contracts: Seq<ContractView>, added: ContractView, i: int)
    requires
        0 <= i < contracts.len(),
        have_common_type(contracts[i], added) ==> defines_its_structs(contracts[i]),
        forall|k: int|
            0 <= k < contracts[i].1.structs.len() && added.1.has(
                (#[trigger] contracts[i].1.structs[k]).name,
            ) ==> !ends_joint(contracts[i].1.structs[k].definition),
    ensures
        lost(contracts, added, i).finite(),
        tokens::source_text(written_code(contracts, i)).len() <= tokens::source_text(
            written_code(contracts.push(added), i),
        ).len() + sum(lost(contracts, added, i), moved(contracts.push(added))),
{
    let all = contracts.push(added);
    let structs = contracts[i].1.structs;
    let code = contracts[i].0;
    let before = expansion::shared_names(contracts);
    let after = expansion::shared_names(all);
    let part = lost(contracts, added, i);
    let import = tokens::shared_import(true);
    assert(all[i] == contracts[i]);
    lemma_names_of(structs);
    vstd::set_lib::lemma_set_subset_finite(names_of(structs), part);
    lemma_shared_before(contracts, added);
    assert(expansion::loses_type(contracts, i) ==> expansion::loses_type(all, i)) by {
        if expansion::loses_type(contracts, i) {
            let name = choose|name: Seq<char>|
                expansion::is_shared(contracts, name) && #[trigger] contracts[i].1.has(name);
            assert(before.contains(name));
            assert(after.contains(name));
            assert(all[i].1.has(name));
        }
    }
    if part.len() == 0 {
        assert forall|name: Seq<char>| #[trigger] contracts[i].1.has(name) implies before.contains(name)
            == after.contains(name) by {
            if after.contains(name) && !before.contains(name) {
                assert(part.contains(name));
            }
        }
        assert forall|k: int| 0 <= k < structs.len() implies before.contains(
            (#[trigger] structs[k]).name,
        ) == after.contains(structs[k].name) by {
            contract::lemma_find_some(structs, structs[k].name);
            assert(contracts[i].1.has(structs[k].name));
        }
        lemma_without_same(structs, before, after);
        assert(expansion::loses_type(all, i) ==> expansion::loses_type(contracts, i)) by {
            if expansion::loses_type(all, i) {
                let name = choose|name: Seq<char>|
                    expansion::is_shared(all, name) && #[trigger] all[i].1.has(name);
                assert(after.contains(name));
                assert(contracts[i].1.has(name));
                assert(before.contains(name));
            }
        }
        assert(written_code(contracts, i) == written_code(all, i));
    } else {
        let some = part.choose();
        assert(part.contains(some));
        assert(contracts[i].1.has(some));
        lemma_newly_shared(contracts, added, i, some);
        assert(have_common_type(contracts[i], added));
        assert(all[i].1.has(some) && expansion::is_shared(all, some));
        assert(expansion::loses_type(all, i));
        let left = names_of(structs).difference(after);
        vstd::set_lib::lemma_set_subset_finite(names_of(structs), left);
        lemma_definitions_weight(structs, after);
        assert forall|name: Seq<char>| part.contains(name) implies #[trigger] held(structs)(name)
            == moved(all)(name) by {
            assert(contracts[i].1.has(name));
            lemma_newly_shared(contracts, added, i, name);
        }
        lemma_sum_same(part, held(structs), moved(all));
        lemma_sum_union(left, part, held(structs));
        let base_after = base(code.with_import(import));
        let after_view = ExpandedView {
            abi_structs: contract::definitions(contract::without(structs, after)),
            ..code.with_import(import)
        };
        assert(written_code(all, i) == after_view.tokens());
        assert(after_view.body() =~= base_after + after_view.abi_structs);
        lemma_weight(base_after, after_view.abi_structs);
        lemma_contract_length(after_view);
        if expansion::loses_type(contracts, i) {
            let before_view = ExpandedView {
                abi_structs: contract::definitions(contract::without(structs, before)),
                ..code.with_import(import)
            };
            assert(written_code(contracts, i) == before_view.tokens());
            assert(before_view.body() =~= base_after + before_view.abi_structs);
            lemma_weight(base_after, before_view.abi_structs);
            lemma_contract_length(before_view);
            lemma_definitions_weight(structs, before);
            assert(names_of(structs).difference(before) =~= left.union(part));
            if ends_joint(before_view.body()) {
                assert forall|k: int|
                    0 <= k < structs.len() && after.contains((#[trigger] structs[k]).name)
                        && !before.contains(structs[k].name) implies !ends_joint(
                    structs[k].definition,
                ) by {
                    contract::lemma_find_some(structs, structs[k].name);
                    assert(contracts[i].1.has(structs[k].name));
                    lemma_newly_shared(contracts, added, i, structs[k].name);
                }
                lemma_end_kept(base_after, structs, before, after);
            }
            assert(front(before_view) == front(after_view));
        } else {
            assert(written_code(contracts, i) == code.tokens());
            assert(code.body() =~= base(code) + code.abi_structs);
            lemma_weight(base(code), code.abi_structs);
            lemma_contract_length(code);
            lemma_base_with_import(code, import);
            assert(import.last() == Tree::Mark(';', false));
            assert(weight(import) >= 1);
            contract::lemma_without_nothing(structs);
            lemma_definitions_weight(structs, Set::empty());
            assert forall|name: Seq<char>| names_of(structs).contains(name) implies left.union(
                part,
            ).contains(name) by {
                assert(contracts[i].1.has(name));
                if before.contains(name) {
                    assert(expansion::is_shared(contracts, name));
                    assert(expansion::loses_type(contracts, i));
                }
            }
            assert(names_of(structs).difference(Set::empty()) =~= left.union(part));
            assert(front(code) == front(after_view));
        }
    }
}

/// Definitions in a row weigh as much as all of them.
proof fn lemma_joined_weight(list: Seq<Seq<char>>, contracts: Seq<ContractView>)
    requires
        order::ascending(list),
    ensures
        list.to_set().finite(),
        weight(
            tokens::joined(
                list.map_values(|name: Seq<char>| expansion::first_definition(contracts, name)),
            ),
        ) == sum(list.to_set(), moved(contracts)),
    decreases list.len(),
{
    let codes = list.map_values(|name: Seq<char>| expansion::first_definition(contracts, name));
    if list.len() == 0 {
        assert(list.to_set() =~= Set::<Seq<char>>::empty());
        assert(tokens::joined(codes) =~= Seq::<Tree>::empty());
        assert(weight(Seq::<Tree>::empty()) == 0);
    } else {
        let rest = list.drop_last();
        let last = list.last();
        lemma_joined_weight(rest, contracts);
        files::lemma_without_last(list);
        assert(list[list.len() - 1] == last);
        assert(list.contains(last));
        assert(list.to_set().contains(last));
        lemma_sum_remove(list.to_set(), moved(contracts), last);
        assert(codes.drop_last() =~= rest.map_values(
            |name: Seq<char>| expansion::first_definition(contracts, name),
        ));
        lemma_weight(tokens::joined(codes.drop_last()), codes.last());
    }
}

/// The length of the shared types in a single file.
spec fn shared_length(contracts: Seq<ContractView>) -> nat {
    let shared = expansion::expansion(contracts).shared_types;
    if shared.len() == 0 {
        0
    } else {
        tokens::source_text(tokens::shared_module(shared)).len()
    }
}

/// The shared types get longer by the definitions that move there, but for one character.
proof fn lemma_shared_change(contracts: Seq<ContractView>, added: ContractView)
    ensures
        newly_shared(contracts, added).finite(),
        shared_length(contracts) + sum(
            newly_shared(contracts, added),
            moved(contracts.push(added)),
        ) <= shared_length(contracts.push(added)) + 1,
{
    let all = contracts.push(added);
    let before = expansion::shared_names(contracts);
    let after = expansion::shared_names(all);
    let new = newly_shared(contracts, added);
    types::law_shared_types_are_finite(contracts);
    types::law_shared_types_are_finite(all);
    vstd::set_lib::lemma_set_subset_finite(after, new);
    lemma_shared_before(contracts, added);
    order::law_listing(before);
    order::law_listing(after);
    lemma_joined_weight(order::listing(before), contracts);
    lemma_joined_weight(order::listing(after), all);
    lemma_sum_union(before, new, moved(all));
    assert(before.union(new) =~= after);
    assert forall|name: Seq<char>| before.contains(name) implies #[trigger] moved(contracts)(name)
        == moved(all)(name) by {
        let (i, j) = choose|i: int, j: int|
            0 <= i < j < contracts.len() && #[trigger] contracts[i].1.has(name)
                && #[trigger] contracts[j].1.has(name);
        changes::lemma_first_definition_kept(contracts, added, name);
    }
    lemma_sum_same(before, moved(contracts), moved(all));
    let old = expansion::expansion(contracts).shared_types;
    let fresh = expansion::expansion(all).shared_types;
    let name = seq![Tree::Word("__shared_types"@)];
    lemma_module_length(name, tokens::joined(old));
    lemma_module_length(name, tokens::joined(fresh));
    lemma_braces(tokens::joined(old));
    lemma_braces(tokens::joined(fresh));
    if order::listing(before).len() == 0 {
        assert(before =~= Set::<Seq<char>>::empty());
    }
    if order::listing(after).len() == 0 {
        assert(after =~= Set::<Seq<char>>::empty());
        assert(new =~= Set::<Seq<char>>::empty());
        assert(before =~= Set::<Seq<char>>::empty());
        if order::listing(before).len() > 0 {
            assert(before.contains(order::listing(before)[0]));
        }
    }
}

/// Texts in a row are as long as all of them.
proof fn lemma_row_length(list: Seq<Seq<char>>, texts: Map<Seq<char>, Seq<char>>)
    requires
        order::ascending(list),
    ensures
        list.to_set().finite(),
        bindings::in_a_row(list.map_values(|c: Seq<char>| texts[c])).len() == sum(
            list.to_set(),
            |c: Seq<char>| texts[c].len(),
        ),
    decreases list.len(),
{
    let all = list.map_values(|c: Seq<char>| texts[c]);
    if list.len() == 0 {
        assert(list.to_set() =~= Set::<Seq<char>>::empty());
    } else {
        let rest = list.drop_last();
        let last = list.last();
        lemma_row_length(rest, texts);
        files::lemma_without_last(list);
        assert(list[list.len() - 1] == last);
        assert(list.contains(last));
        assert(list.to_set().contains(last));
        lemma_sum_remove(list.to_set(), |c: Seq<char>| texts[c].len(), last);
        assert(all.drop_last() =~= rest.map_values(|c: Seq<char>| texts[c]));
    }
}

/// The last contract of that name is the one at `i`.
spec fn is_last_of(contracts: Seq<ContractView>, name: Seq<char>, i: int) -> bool {
    &&& 0 <= i < contracts.len()
    &&& contracts[i].1.contract_name == name
    &&& forall|j: int| i < j < contracts.len() ==> (#[trigger] contracts[j]).1.contract_name != name
}

spec fn last_of(contracts: Seq<ContractView>, name: Seq<char>) -> int {
    choose|i: int| is_last_of(contracts, name, i)
}

proof fn lemma_last_of(contracts: Seq<ContractView>, name: Seq<char>)
    requires
        exists|i: int| 0 <= i < contracts.len() && (#[trigger] contracts[i]).1.contract_name == name,
    ensures
        is_last_of(contracts, name, last_of(contracts, name)),
    decreases contracts.len(),
{
    let rest = contracts.drop_last();
    let n = contracts.len() - 1;
    if contracts[n].1.contract_name == name {
        assert(is_last_of(contracts, name, n));
    } else {
        let i = choose|i: int|
            0 <= i < contracts.len() && (#[trigger] contracts[i]).1.contract_name == name;
        assert(rest[i].1.contract_name == name);
        lemma_last_of(rest, name);
        let k = last_of(rest, name);
        assert forall|j: int| k < j < contracts.len() implies (#[trigger] contracts[j]).1.contract_name
            != name by {
            if j < n {
                assert(rest[j].1.contract_name != name);
            }
        }
        assert(is_last_of(contracts, name, k));
    }
}

/// The source text of a contract that is not formatted.
proof fn lemma_unformatted_source<F: Fn(&String) -> Option<String>>(
    format: F,
    contracts: Seq<ContractView>,
    inner: InnerView,
    i: int,
)
    requires
        inner.renders(
            format,
            (BindingsView { expansion: expansion::expansion(contracts), rustfmt: false }).drafts(true),
        ),
        0 <= i < contracts.len(),
        is_last_of(contracts, contracts[i].1.contract_name, i),
    ensures
        inner.sources[contracts[i].1.contract_name] == tokens::source_text(written_code(contracts, i)),
{
    let imported = expansion::expansion(contracts).with_import(tokens::shared_import(true)).contracts;
    let name = contracts[i].1.contract_name;
    assert(imported[i].1.contract_name == name);
    assert forall|j: int| i < j < imported.len() implies (#[trigger] imported[j]).1.contract_name
        != imported[i].1.contract_name by {
        assert(contracts[j].1.contract_name != name);
    }
    types::law_last_contract_of_a_name_stays(imported, false, i);
    types::law_bindings_hold_all_names(imported, false, name);
    assert(inner.sources.dom().contains(name));
}

/// Where a contract with a name of its own was added since the bindings were written unformatted to
/// a single file, the check fails, though types that it shares with other contracts move. The code
/// of these contracts defines their structs, and no definition that moves ends in a character that
/// is joined to the next.
pub proof fn law_added_contract_is_detected_in_unformatted_file<F: Fn(&String) -> Option<String>>(
    format: F,
    contracts: Seq<ContractView>,
    added: ContractView,
    written: InnerView,
    fresh: InnerView,
    is_crate: bool,
    disk: Disk,
)
    requires
        written.renders(
            format,
            (BindingsView { expansion: expansion::expansion(contracts), rustfmt: false }).drafts(true),
        ),
        fresh.renders(
            format,
            (BindingsView {
                expansion: expansion::expansion(contracts.push(added)),
                rustfmt: false,
            }).drafts(true),
        ),
        forall|i: int|
            0 <= i < contracts.len() ==> (#[trigger] contracts[i]).1.contract_name
                != added.1.contract_name,
        forall|i: int|
            0 <= i < contracts.len() && have_common_type(#[trigger] contracts[i], added)
                ==> defines_its_structs(contracts[i]),
        forall|i: int, k: int|
            0 <= i < contracts.len() && 0 <= k < contracts[i].1.structs.len() && added.1.has(
                (#[trigger] contracts[i].1.structs[k]).name,
            ) ==> !ends_joint(contracts[i].1.structs[k].definition),
        disk::checked_all(disk, written.expected_files(is_crate, true)) is Ok,
    ensures
        written.super_contents(is_crate, true).len() < fresh.super_contents(is_crate, true).len(),
        disk::checked_all(disk, fresh.expected_files(is_crate, true)) is Err,
{
    let all = contracts.push(added);
    let name = added.1.contract_name;
    let n = contracts.len() as int;
    let new = newly_shared(contracts, added);
    let weights = moved(all);
    changes::lemma_rendered_names(format, contracts, false, true, written);
    changes::lemma_rendered_names(format, all, false, true, fresh);
    let few = written.sources.dom();
    let many = fresh.sources.dom();
    assert(all[n] == added);
    assert forall|c: Seq<char>| many.contains(c) == few.insert(name).contains(c) by {
        if many.contains(c) {
            let i = choose|i: int| 0 <= i < all.len() && (#[trigger] all[i]).1.contract_name == c;
            assert(i == n || contracts[i].1.contract_name == c);
        }
        if few.contains(c) {
            let i = choose|i: int|
                0 <= i < contracts.len() && (#[trigger] contracts[i]).1.contract_name == c;
            assert(all[i].1.contract_name == c);
        }
        if c == name {
            assert(all[n].1.contract_name == c);
        }
    }
    assert(many =~= few.insert(name));
    assert(!few.contains(name));
    let old_length = |c: Seq<char>| written.sources[c].len();
    let new_length = |c: Seq<char>| fresh.sources[c].len();
    let parts = |c: Seq<char>| lost(contracts, added, last_of(contracts, c));
    let loss = |c: Seq<char>| sum(parts(c), weights);
    lemma_shared_change(contracts, added);
    assert forall|c: Seq<char>| few.contains(c) implies #[trigger] old_length(c) <= new_length(c) + loss(
        c,
    ) by {
        lemma_last_of(contracts, c);
        let i = last_of(contracts, c);
        lemma_contract_change(contracts, added, i);
        lemma_unformatted_source(format, contracts, written, i);
        assert forall|j: int| i < j < all.len() implies (#[trigger] all[j]).1.contract_name != c by {
            if j < n {
                assert(contracts[j].1.contract_name != c);
            }
        }
        assert(all[i] == contracts[i]);
        assert(is_last_of(all, c, i));
        lemma_unformatted_source(format, all, fresh, i);
    }
    lemma_sum_loss(few, old_length, new_length, loss);
    assert forall|c: Seq<char>| few.contains(c) implies (#[trigger] parts(c)).subset_of(new) by {}
    assert forall|c: Seq<char>, d: Seq<char>|
        few.contains(c) && few.contains(d) && c != d implies (#[trigger] parts(c)).disjoint(
        #[trigger] parts(d),
    ) by {
        lemma_last_of(contracts, c);
        lemma_last_of(contracts, d);
        let i = last_of(contracts, c);
        let j = last_of(contracts, d);
        assert forall|t: Seq<char>| !(#[trigger] parts(c).contains(t) && parts(d).contains(t)) by {
            if parts(c).contains(t) && parts(d).contains(t) {
                assert(contracts[i].1.has(t) && contracts[j].1.has(t));
                lemma_newly_shared(contracts, added, i, t);
            }
        }
    }
    lemma_sum_parts(few, parts, new, weights);
    assert(sum(few, loss) == sum(few, |a: Seq<char>| sum(parts(a), weights))) by {
        lemma_sum_same(few, loss, |a: Seq<char>| sum(parts(a), weights));
    }
    lemma_sum_remove(many, new_length, name);
    assert(many.remove(name) =~= few);
    assert(is_last_of(all, name, n));
    lemma_unformatted_source(format, all, fresh, n);
    let imported = expansion::expansion(all).with_import(tokens::shared_import(true)).contracts;
    lemma_contract_length(imported[n].0);
    assert(new_length(name) >= 3);
    order::law_listing(few);
    order::law_listing(many);
    lemma_row_length(written.contracts(), written.sources);
    lemma_row_length(fresh.contracts(), fresh.sources);
    lemma_sum_same(few, old_length, |c: Seq<char>| written.sources[c].len());
    lemma_sum_same(many, new_length, |c: Seq<char>| fresh.sources[c].len());
    assert(written.all_sources().len() == shared_length(contracts) + sum(few, old_length));
    assert(fresh.all_sources().len() == shared_length(all) + sum(many, new_length));
    assert(written.all_sources().len() < fresh.all_sources().len());
    files::law_changed_single_file_is_detected(disk, written, fresh, is_crate);
}

} // verus!
