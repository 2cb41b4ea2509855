//! Laws of sharing: what an expansion makes of its contracts, told from the structs that they
//! declare.

use crate::bindings::BindingsView;
use crate::contract;
use crate::contract::{DraftView, StructView};
use crate::expansion;
use crate::expansion::ContractView;
use crate::laws::types;
use crate::order;
use crate::tokens;
use crate::tokens::{Delimiter, Tree};
use vstd::prelude::*;

verus! {

/// Whether one of the structs of a contract has that name.
pub open spec fn declares(contract: ContractView, name: Seq<char>) -> bool {
    exists|k: int|
        0 <= k < contract.1.structs.len() && (#[trigger] contract.1.structs[k]).name == name
}

/// Whether a contract other than the one at `i` declares the type.
pub open spec fn declared_elsewhere(contracts: Seq<ContractView>, i: int, name: Seq<char>) -> bool {
    exists|j: int| 0 <= j < contracts.len() && j != i && declares(#[trigger] contracts[j], name)
}

/// Whether two contracts declare the type.
pub open spec fn is_common(contracts: Seq<ContractView>, name: Seq<char>) -> bool {
    exists|i: int, j: int|
        0 <= i < j < contracts.len() && declares(#[trigger] contracts[i], name) && declares(
            #[trigger] contracts[j],
            name,
        )
}

/// Whether the contract at `i` declares a type that another one declares too.
pub open spec fn gives_up_a_type(contracts: Seq<ContractView>, i: int) -> bool {
    exists|k: int|
        0 <= k < contracts[i].1.structs.len() && declared_elsewhere(
            contracts,
            i,
            (#[trigger] contracts[i].1.structs[k]).name,
        )
}

/// The structs of the contract at `i` that no other contract declares, in their order.
pub open spec fn own_structs(contracts: Seq<ContractView>, i: int) -> Seq<StructView> {
    contracts[i].1.structs.filter(|s: StructView| !declared_elsewhere(contracts, i, s.name))
}

/// The code of structs, one behind the other.
pub open spec fn code_of(structs: Seq<StructView>) -> Seq<Tree> {
    structs.map_values(|s: StructView| s.definition).flatten()
}

proof fn lemma_declares(contract: ContractView, name: Seq<char>)
    ensures
        declares(contract, name) == contract.1.has(name),
{
    contract::lemma_find_some(contract.1.structs, name);
}

proof fn lemma_common(contracts: Seq<ContractView>, name: Seq<char>)
    ensures
        is_common(contracts, name) == expansion::is_shared(contracts, name),
{
    assert forall|i: int| 0 <= i < contracts.len() implies declares(#[trigger] contracts[i], name)
        == contracts[i].1.has(name) by {
        lemma_declares(contracts[i], name);
    }
    if is_common(contracts, name) {
        let (i, j) = choose|i: int, j: int|
            0 <= i < j < contracts.len() && declares(#[trigger] contracts[i], name) && declares(
                #[trigger] contracts[j],
                name,
            );
        assert(contracts[i].1.has(name) && contracts[j].1.has(name));
    }
    if expansion::is_shared(contracts, name) {
        let (i, j) = choose|i: int, j: int|
            0 <= i < j < contracts.len() && #[trigger] contracts[i].1.has(name)
                && #[trigger] contracts[j].1.has(name);
        assert(declares(contracts[i], name) && declares(contracts[j], name));
    }
}

proof fn lemma_elsewhere(contracts: Seq<ContractView>, i: int, name: Seq<char>)
    requires
        0 <= i < contracts.len(),
        declares(contracts[i], name),
    ensures
        declared_elsewhere(contracts, i, name) == expansion::is_shared(contracts, name),
{
    lemma_common(contracts, name);
    if declared_elsewhere(contracts, i, name) {
        let j = choose|j: int|
            0 <= j < contracts.len() && j != i && declares(#[trigger] contracts[j], name);
        if i < j {
            assert(declares(contracts[i], name) && declares(contracts[j], name));
        } else {
            assert(declares(contracts[j], name) && declares(contracts[i], name));
        }
    }
    if is_common(contracts, name) {
        let (a, b) = choose|a: int, b: int|
            0 <= a < b < contracts.len() && declares(#[trigger] contracts[a], name) && declares(
                #[trigger] contracts[b],
                name,
            );
        if a == i {
            assert(declares(contracts[b], name));
        } else {
            assert(declares(contracts[a], name));
        }
    }
}

proof fn lemma_without_is_filter(
    structs: Seq<StructView>,
    names: Set<Seq<char>>,
    keep: spec_fn(StructView) -> bool,
)
    requires
        forall|k: int|
            0 <= k < structs.len() ==> keep(#[trigger] structs[k]) == !names.contains(structs[k].name),
    ensures
        contract::without(structs, names) == structs.filter(keep),
    decreases structs.len(),
{
    reveal(Seq::filter);
    if structs.len() > 0 {
        let rest = structs.drop_last();
        assert(structs[structs.len() - 1] == structs.last());
        assert forall|k: int| 0 <= k < rest.len() implies keep(#[trigger] rest[k]) == !names.contains(
            rest[k].name,
        ) by {
            assert(structs[k] == rest[k]);
        }
        lemma_without_is_filter(rest, names, keep);
    }
}

proof fn lemma_joined_is_flatten(codes: Seq<Seq<Tree>>)
    ensures
        tokens::joined(codes) == codes.flatten(),
    decreases codes.len(),
{
    codes.lemma_flatten_and_flatten_alt_are_equivalent();
    if codes.len() > 0 {
        lemma_joined_is_flatten(codes.drop_last());
        codes.drop_last().lemma_flatten_and_flatten_alt_are_equivalent();
    }
}

proof fn lemma_definitions_are_code(structs: Seq<StructView>)
    ensures
        contract::definitions(structs) == code_of(structs),
{
    lemma_joined_is_flatten(structs.map_values(|s: StructView| s.definition));
}

/// An expansion keeps every contract, with its name and those of its structs that no other contract
/// declares. Where it had others, the code of its structs is that of the ones that it keeps, in
/// their order, and the contract is marked. All other code stays, and where it had none, all code.
pub proof fn law_expansion_of_a_contract(contracts: Seq<ContractView>, i: int)
    requires
        0 <= i < contracts.len(),
    ensures
        ({
            let result = expansion::expansion(contracts);
            let before = contracts[i];
            let after = result.contracts[i];
            &&& result.contracts.len() == contracts.len()
            &&& after.1.contract_name == before.1.contract_name
            &&& after.1.structs == own_structs(contracts, i)
            &&& after.0.module == before.0.module
            &&& after.0.imports == before.0.imports
            &&& after.0.contract == before.0.contract
            &&& after.0.events == before.0.events
            &&& after.0.errors == before.0.errors
            &&& after.0.call_structs == before.0.call_structs
            &&& after.0.abi_structs == (if gives_up_a_type(contracts, i) {
                code_of(own_structs(contracts, i))
            } else {
                before.0.abi_structs
            })
            &&& result.dirty.contains(i) == gives_up_a_type(contracts, i)
        }),
{
    let structs = contracts[i].1.structs;
    let shared = expansion::shared_names(contracts);
    let keep = |s: StructView| !declared_elsewhere(contracts, i, s.name);
    assert forall|k: int| 0 <= k < structs.len() implies keep(#[trigger] structs[k]) == !shared.contains(
        structs[k].name,
    ) by {
        assert(declares(contracts[i], structs[k].name));
        lemma_elsewhere(contracts, i, structs[k].name);
    }
    lemma_without_is_filter(structs, shared, keep);
    lemma_definitions_are_code(own_structs(contracts, i));
    assert(gives_up_a_type(contracts, i) == expansion::loses_type(contracts, i)) by {
        if gives_up_a_type(contracts, i) {
            let k = choose|k: int|
                0 <= k < structs.len() && declared_elsewhere(
                    contracts,
                    i,
                    (#[trigger] contracts[i].1.structs[k]).name,
                );
            assert(!keep(structs[k]));
            lemma_declares(contracts[i], structs[k].name);
            assert(contracts[i].1.has(structs[k].name));
        }
        if expansion::loses_type(contracts, i) {
            let name = choose|name: Seq<char>|
                expansion::is_shared(contracts, name) && #[trigger] contracts[i].1.has(name);
            lemma_declares(contracts[i], name);
            let k = choose|k: int|
                0 <= k < structs.len() && (#[trigger] contracts[i].1.structs[k]).name == name;
            lemma_elsewhere(contracts, i, name);
            assert(declared_elsewhere(contracts, i, contracts[i].1.structs[k].name));
        }
    }
}

/// Where the code given for a contract is that of its structs, the code that comes out is that of
/// the structs that no other contract declares: no shared type is defined there.
pub proof fn law_struct_code_holds_own_structs(contracts: Seq<ContractView>, i: int)
    requires
        0 <= i < contracts.len(),
        contracts[i].0.abi_structs == code_of(contracts[i].1.structs),
    ensures
        expansion::expansion(contracts).contracts[i].0.abi_structs == code_of(
            own_structs(contracts, i),
        ),
{
    law_expansion_of_a_contract(contracts, i);
    if !gives_up_a_type(contracts, i) {
        let structs = contracts[i].1.structs;
        let keep = |s: StructView| !declared_elsewhere(contracts, i, s.name);
        assert forall|k: int| 0 <= k < structs.len() implies keep(#[trigger] structs[k]) by {
            assert(contracts[i].1.structs[k] == structs[k]);
        }
        lemma_filter_keeps_all(structs, keep);
    }
}

proof fn lemma_filter_keeps_all(structs: Seq<StructView>, keep: spec_fn(StructView) -> bool)
    requires
        forall|k: int| 0 <= k < structs.len() ==> keep(#[trigger] structs[k]),
    ensures
        structs.filter(keep) == structs,
    decreases structs.len(),
{
    reveal(Seq::filter);
    if structs.len() > 0 {
        let rest = structs.drop_last();
        assert(keep(structs[structs.len() - 1]));
        assert forall|k: int| 0 <= k < rest.len() implies keep(#[trigger] rest[k]) by {
            assert(structs[k] == rest[k]);
        }
        lemma_filter_keeps_all(rest, keep);
        assert(structs =~= rest.push(structs.last()));
    }
}

/// `code` is what the first contract that declares the type defines it as.
pub open spec fn is_defined_first(
    contracts: Seq<ContractView>,
    name: Seq<char>,
    code: Seq<Tree>,
) -> bool {
    exists|i: int, k: int|
        {
            &&& 0 <= i < contracts.len()
            &&& 0 <= k < contracts[i].1.structs.len()
            &&& (#[trigger] contracts[i].1.structs[k]) == StructView { name, definition: code }
            &&& forall|l: int| 0 <= l < k ==> (#[trigger] contracts[i].1.structs[l]).name != name
            &&& forall|j: int| 0 <= j < i ==> !declares(#[trigger] contracts[j], name)
        }
}

/// `names` are the types that two contracts or more declare, each once, sorted, and `codes` are
/// what their first contracts define them as.
pub open spec fn lists_common_types(
    contracts: Seq<ContractView>,
    names: Seq<Seq<char>>,
    codes: Seq<Seq<Tree>>,
) -> bool {
    &&& forall|a: int, b: int|
        0 <= a < b < names.len() ==> order::before(#[trigger] names[a], #[trigger] names[b])
    &&& forall|name: Seq<char>| #[trigger] names.contains(name) <==> is_common(contracts, name)
    &&& codes.len() == names.len()
    &&& forall|k: int|
        0 <= k < names.len() ==> is_defined_first(contracts, #[trigger] names[k], codes[k])
}

proof fn lemma_found_first(structs: Seq<StructView>, name: Seq<char>) -> (k: int)
    requires
        contract::find(structs, name) is Some,
    ensures
        0 <= k < structs.len(),
        structs[k] == (StructView { name, definition: contract::find(structs, name)->0 }),
        forall|l: int| 0 <= l < k ==> (#[trigger] structs[l]).name != name,
    decreases structs.len(),
{
    if structs[0].name == name {
        0
    } else {
        let rest = structs.drop_first();
        let k = lemma_found_first(rest, name);
        assert(rest[k] == structs[k + 1]);
        assert forall|l: int| 0 <= l < k + 1 implies (#[trigger] structs[l]).name != name by {
            if l > 0 {
                assert(rest[l - 1] == structs[l]);
            }
        }
        k + 1
    }
}

/// The shared types of an expansion are the definitions of the types that two contracts or more
/// declare, sorted by name, each once, by the first contract that declares it.
pub proof fn law_shared_types_are_the_common_types(contracts: Seq<ContractView>) -> (names: Seq<
    Seq<char>,
>)
    ensures
        lists_common_types(contracts, names, expansion::expansion(contracts).shared_types),
{
    let names = order::listing(expansion::shared_names(contracts));
    let codes = expansion::expansion(contracts).shared_types;
    types::law_shared_types_are_finite(contracts);
    order::law_listing(expansion::shared_names(contracts));
    types::law_shared_types_stand_once(contracts);
    assert forall|name: Seq<char>| #[trigger] names.contains(name) <==> is_common(contracts, name) by {
        lemma_common(contracts, name);
        assert(names.to_set().contains(name) == names.contains(name));
        assert(expansion::shared_names(contracts).contains(name) == expansion::is_shared(
            contracts,
            name,
        ));
    }
    assert forall|k: int| 0 <= k < names.len() implies is_defined_first(
        contracts,
        #[trigger] names[k],
        codes[k],
    ) by {
        let name = names[k];
        assert(types::is_first_definition(contracts, name, codes[k]));
        let i = choose|i: int|
            {
                &&& 0 <= i < contracts.len()
                &&& #[trigger] contracts[i].1.definition(name) == Some(codes[k])
                &&& forall|j: int| 0 <= j < i ==> !(#[trigger] contracts[j].1.has(name))
            };
        let l = lemma_found_first(contracts[i].1.structs, name);
        assert forall|j: int| 0 <= j < i implies !declares(#[trigger] contracts[j], name) by {
            lemma_declares(contracts[j], name);
            assert(!contracts[j].1.has(name));
        }
        assert(contracts[i].1.structs[l] == StructView { name, definition: codes[k] });
    }
    names
}

/// `pub use super::__shared_types::*;` or `pub use super::super::shared_types::*;`
pub open spec fn import_of_shared_types(single_file: bool) -> Seq<Tree> {
    if single_file {
        seq![
            Tree::Word("pub"@),
            Tree::Word("use"@),
            Tree::Word("super"@),
            Tree::Mark(':', true),
            Tree::Mark(':', false),
            Tree::Word("__shared_types"@),
            Tree::Mark(':', true),
            Tree::Mark(':', false),
            Tree::Mark('*', false),
            Tree::Mark(';', false),
        ]
    } else {
        seq![
            Tree::Word("pub"@),
            Tree::Word("use"@),
            Tree::Word("super"@),
            Tree::Mark(':', true),
            Tree::Mark(':', false),
            Tree::Word("super"@),
            Tree::Mark(':', true),
            Tree::Mark(':', false),
            Tree::Word("shared_types"@),
            Tree::Mark(':', true),
            Tree::Mark(':', false),
            Tree::Mark('*', false),
            Tree::Mark(';', false),
        ]
    }
}

/// What stands in the module of the contract at `i`: its imports, with that of the shared types
/// where it gave one up, the contract, errors, events and calls, and its structs.
pub open spec fn module_body(contracts: Seq<ContractView>, i: int, single_file: bool) -> Seq<Tree> {
    let code = contracts[i].0;
    let import = import_of_shared_types(single_file);
    if gives_up_a_type(contracts, i) {
        code.imports + import + code.contract + code.errors + code.events + code.call_structs + code_of(
            own_structs(contracts, i),
        )
    } else {
        code.imports + code.contract + code.errors + code.events + code.call_structs
            + code.abi_structs
    }
}

/// `pub use module::*; #[allow(..)] pub mod module { body }`
pub open spec fn module_code(module: Seq<Tree>, body: Seq<Tree>) -> Seq<Tree> {
    let lints = seq![
        Tree::Word("clippy"@),
        Tree::Mark(':', true),
        Tree::Mark(':', false),
        Tree::Word("too_many_arguments"@),
        Tree::Mark(',', false),
        Tree::Word("non_camel_case_types"@),
    ];
    let allow = seq![Tree::Word("allow"@), Tree::Group(Delimiter::Parenthesis, lints)];
    seq![Tree::Word("pub"@), Tree::Word("use"@)] + module + seq![
        Tree::Mark(':', true),
        Tree::Mark(':', false),
        Tree::Mark('*', false),
        Tree::Mark(';', false),
        Tree::Mark('#', false),
        Tree::Group(Delimiter::Bracket, allow),
        Tree::Word("pub"@),
        Tree::Word("mod"@),
    ] + module + seq![Tree::Group(Delimiter::Brace, body)]
}

/// `pub mod __shared_types { .. }` around all definitions.
pub open spec fn shared_module_code(codes: Seq<Seq<Tree>>) -> Seq<Tree> {
    seq![
        Tree::Word("pub"@),
        Tree::Word("mod"@),
        Tree::Word("__shared_types"@),
        Tree::Group(Delimiter::Brace, codes.flatten()),
    ]
}

proof fn lemma_written(contracts: Seq<ContractView>, i: int, single_file: bool)
    requires
        0 <= i < contracts.len(),
    ensures
        ({
            let written = expansion::expansion(contracts).with_import(
                tokens::shared_import(single_file),
            ).contracts;
            &&& written.len() == contracts.len()
            &&& written[i].1.contract_name == contracts[i].1.contract_name
            &&& written[i].0.tokens() == module_code(
                contracts[i].0.module,
                module_body(contracts, i, single_file),
            )
        }),
{
    law_expansion_of_a_contract(contracts, i);
    let written = expansion::expansion(contracts).with_import(
        tokens::shared_import(single_file),
    ).contracts;
    assert(tokens::shared_import(single_file) =~= import_of_shared_types(single_file));
    assert(written[i].0.body() =~= module_body(contracts, i, single_file));
    law_code_of_a_contract(written[i].0);
    assert(written[i].0.body() == written[i].0.imports + written[i].0.contract + written[i].0.errors
        + written[i].0.events + written[i].0.call_structs + written[i].0.abi_structs);
    assert(written[i].0.tokens() =~= module_code(
        contracts[i].0.module,
        module_body(contracts, i, single_file),
    ));
}

proof fn lemma_shared_module(codes: Seq<Seq<Tree>>)
    ensures
        tokens::shared_module(codes) == shared_module_code(codes),
{
    lemma_joined_is_flatten(codes);
    assert(tokens::shared_module(codes) =~= shared_module_code(codes));
}

/// The stream of all contracts begins, where two of them declare a type of the same name, with the
/// module `__shared_types` around the definitions of all such types. What follows is the code of
/// all contracts in their order.
pub proof fn law_stream_of_all_contracts(contracts: Seq<ContractView>) -> (listed: (
    Seq<Seq<char>>,
    Seq<Seq<Tree>>,
))
    ensures
        lists_common_types(contracts, listed.0, listed.1),
        expansion::expansion(contracts).inplace() == (if listed.1.len() == 0 {
            Seq::<Tree>::empty()
        } else {
            shared_module_code(listed.1)
        }) + Seq::new(
            contracts.len(),
            |i: int| module_code(contracts[i].0.module, module_body(contracts, i, true)),
        ).flatten(),
{
    let result = expansion::expansion(contracts);
    let names = law_shared_types_are_the_common_types(contracts);
    let codes = result.shared_types;
    lemma_shared_module(codes);
    let all = Seq::new(
        contracts.len(),
        |i: int| module_code(contracts[i].0.module, module_body(contracts, i, true)),
    );
    let written = result.with_import(tokens::shared_import(true)).code();
    assert forall|i: int| 0 <= i < contracts.len() implies #[trigger] written[i] == all[i] by {
        lemma_written(contracts, i, true);
    }
    assert(written =~= all);
    lemma_joined_is_flatten(written);
    (names, codes)
}

/// The bindings hold, for every name that a contract has, the code of the last contract of that
/// name, and nothing else.
pub proof fn law_bindings_hold_the_code_of_contracts(
    contracts: Seq<ContractView>,
    rustfmt: bool,
    single_file: bool,
)
    ensures
        ({
            let bindings = (BindingsView {
                expansion: expansion::expansion(contracts),
                rustfmt,
            }).drafts(single_file).bindings;
            &&& forall|name: Seq<char>| #[trigger]
                bindings.dom().contains(name) <==> exists|i: int|
                    0 <= i < contracts.len() && (#[trigger] contracts[i]).1.contract_name == name
            &&& forall|i: int|
                0 <= i < contracts.len() && (forall|j: int|
                    i < j < contracts.len() ==> (#[trigger] contracts[j]).1.contract_name
                        != contracts[i].1.contract_name)
                    ==> bindings[(#[trigger] contracts[i]).1.contract_name] == (DraftView {
                    tokens: module_code(
                        contracts[i].0.module,
                        module_body(contracts, i, single_file),
                    ),
                    rustfmt,
                    name: contracts[i].1.contract_name,
                })
        }),
{
    let bindings = (BindingsView { expansion: expansion::expansion(contracts), rustfmt }).drafts(
        single_file,
    ).bindings;
    let written = expansion::expansion(contracts).with_import(
        tokens::shared_import(single_file),
    ).contracts;
    assert forall|i: int| 0 <= i < contracts.len() implies (#[trigger] written[i]).1.contract_name
        == contracts[i].1.contract_name by {
        lemma_written(contracts, i, single_file);
    }
    if contracts.len() > 0 {
        lemma_written(contracts, 0, single_file);
    }
    assert forall|name: Seq<char>| #[trigger] bindings.dom().contains(name) <==> exists|i: int|
        0 <= i < contracts.len() && (#[trigger] contracts[i]).1.contract_name == name by {
        types::law_bindings_hold_all_names(written, rustfmt, name);
        if exists|i: int| 0 <= i < written.len() && (#[trigger] written[i]).1.contract_name == name {
            let i = choose|i: int|
                0 <= i < written.len() && (#[trigger] written[i]).1.contract_name == name;
            assert(contracts[i].1.contract_name == name);
        }
        if exists|i: int| 0 <= i < contracts.len() && (#[trigger] contracts[i]).1.contract_name == name {
            let i = choose|i: int|
                0 <= i < contracts.len() && (#[trigger] contracts[i]).1.contract_name == name;
            assert(written[i].1.contract_name == name);
        }
    }
    assert forall|i: int|
        0 <= i < contracts.len() && (forall|j: int|
            i < j < contracts.len() ==> (#[trigger] contracts[j]).1.contract_name
                != contracts[i].1.contract_name) implies bindings[(
    #[trigger] contracts[i]).1.contract_name] == (DraftView {
        tokens: module_code(contracts[i].0.module, module_body(contracts, i, single_file)),
        rustfmt,
        name: contracts[i].1.contract_name,
    }) by {
        lemma_written(contracts, i, single_file);
        assert forall|j: int| i < j < written.len() implies (#[trigger] written[j]).1.contract_name
            != written[i].1.contract_name by {
            assert(contracts[j].1.contract_name != contracts[i].1.contract_name);
        }
        types::law_last_contract_of_a_name_stays(written, rustfmt, i);
    }
}

/// The shared types are written where two contracts declare a type of the same name, and only
/// there. In many files their definitions stand one behind the other with nothing around them, in a
/// single file in the module `__shared_types`.
pub proof fn law_place_of_the_shared_types(
    contracts: Seq<ContractView>,
    rustfmt: bool,
    single_file: bool,
) -> (listed: (Seq<Seq<char>>, Seq<Seq<Tree>>))
    ensures
        lists_common_types(contracts, listed.0, listed.1),
        (BindingsView { expansion: expansion::expansion(contracts), rustfmt }).drafts(
            single_file,
        ).shared_types == (if listed.1.len() == 0 {
            None
        } else {
            Some(
                DraftView {
                    tokens: if single_file {
                        shared_module_code(listed.1)
                    } else {
                        listed.1.flatten()
                    },
                    rustfmt,
                    name: "shared_types"@,
                },
            )
        }),
{
    let names = law_shared_types_are_the_common_types(contracts);
    let codes = expansion::expansion(contracts).shared_types;
    lemma_shared_module(codes);
    lemma_joined_is_flatten(codes);
    (names, codes)
}

/// Structs that are taken away by name are gone, and all others stay in their order.
pub proof fn law_removed_structs(structs: Seq<StructView>, names: Set<Seq<char>>)
    ensures
        contract::without(structs, names) == structs.filter(
            |s: StructView| !names.contains(s.name),
        ),
{
    lemma_without_is_filter(structs, names, |s: StructView| !names.contains(s.name));
}

/// A type is found where a struct has its name, and it is the first such struct that defines it.
pub proof fn law_found_struct(structs: Seq<StructView>, name: Seq<char>, code: Seq<Tree>)
    ensures
        contract::find(structs, name) == Some(code) <==> exists|k: int|
            {
                &&& 0 <= k < structs.len()
                &&& (#[trigger] structs[k]) == StructView { name, definition: code }
                &&& forall|l: int| 0 <= l < k ==> (#[trigger] structs[l]).name != name
            },
        contract::find(structs, name) is None <==> forall|k: int|
            0 <= k < structs.len() ==> (#[trigger] structs[k]).name != name,
{
    contract::lemma_find_some(structs, name);
    if contract::find(structs, name) is Some {
        let k = lemma_found_first(structs, name);
        assert(structs[k].name == name);
        if exists|m: int|
            {
                &&& 0 <= m < structs.len()
                &&& (#[trigger] structs[m]) == StructView { name, definition: code }
                &&& forall|l: int| 0 <= l < m ==> (#[trigger] structs[l]).name != name
            } {
            let m = choose|m: int|
                {
                    &&& 0 <= m < structs.len()
                    &&& (#[trigger] structs[m]) == StructView { name, definition: code }
                    &&& forall|l: int| 0 <= l < m ==> (#[trigger] structs[l]).name != name
                };
            if k < m {
                assert(structs[k].name != name);
            }
            if m < k {
                assert(structs[m].name != name);
            }
        }
    }
}

/// The code of structs, and of streams, is one behind the other.
pub proof fn law_code_in_a_row(structs: Seq<StructView>, codes: Seq<Seq<Tree>>)
    ensures
        contract::definitions(structs) == code_of(structs),
        tokens::joined(codes) == codes.flatten(),
{
    lemma_definitions_are_code(structs);
    lemma_joined_is_flatten(codes);
}

/// The code of a contract: its module around imports, contract, errors, events, calls and structs.
pub proof fn law_code_of_a_contract(expanded: contract::ExpandedView)
    ensures
        expanded.tokens() == module_code(
            expanded.module,
            expanded.imports + expanded.contract + expanded.errors + expanded.events
                + expanded.call_structs + expanded.abi_structs,
        ),
{
    let lints = seq![Tree::Word("clippy"@)] + tokens::path_separator() + seq![
        Tree::Word("too_many_arguments"@),
        Tree::Mark(',', false),
        Tree::Word("non_camel_case_types"@),
    ];
    assert(lints =~= seq![
        Tree::Word("clippy"@),
        Tree::Mark(':', true),
        Tree::Mark(':', false),
        Tree::Word("too_many_arguments"@),
        Tree::Mark(',', false),
        Tree::Word("non_camel_case_types"@),
    ]);
    assert(expanded.tokens() =~= module_code(
        expanded.module,
        expanded.imports + expanded.contract + expanded.errors + expanded.events
            + expanded.call_structs + expanded.abi_structs,
    ));
}

} // verus!
