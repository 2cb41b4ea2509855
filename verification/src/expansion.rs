//! Many contracts at once: types that several of them declare are moved to one shared place.

use crate::contract::{
    Abigen, Context, ContextView, ContractBindings, DraftView, ExpandedContract, ExpandedView,
};
use crate::order;
use crate::order::NameMap;
use crate::series;
use crate::tokens;
use crate::tokens::Tree;
use proc_macro2::TokenStream;
use std::collections::HashSet;
use vstd::prelude::*;

verus! {

broadcast use vstd::std_specs::hash::group_hash_axioms;

/// A contract as contracts of functions speak of it: its code, and what is known of it.
pub type ContractView = (ExpandedView, ContextView);

/// The views of contracts.
pub open spec fn views(contracts: Seq<(ExpandedContract, Context)>) -> Seq<ContractView> {
    contracts.map_values(|c: (ExpandedContract, Context)| (c.0@, c.1@))
}

/// Whether two contracts or more declare a type of that name.
pub open spec fn is_shared(contracts: Seq<ContractView>, name: Seq<char>) -> bool {
    exists|i: int, j: int|
        0 <= i < j < contracts.len() && #[trigger] contracts[i].1.has(name)
            && #[trigger] contracts[j].1.has(name)
}

/// The names of all types that two contracts or more declare.
pub open spec fn shared_names(contracts: Seq<ContractView>) -> Set<Seq<char>> {
    Set::new(|name: Seq<char>| is_shared(contracts, name))
}

/// Whether a contract declares a type that another one declares too.
pub open spec fn loses_type(contracts: Seq<ContractView>, i: int) -> bool {
    exists|name: Seq<char>| is_shared(contracts, name) && #[trigger] contracts[i].1.has(name)
}

/// The definition that the first contract gives of a type.
pub open spec fn first_definition(contracts: Seq<ContractView>, name: Seq<char>) -> Seq<Tree>
    decreases contracts.len(),
{
    if contracts.len() == 0 {
        Seq::empty()
    } else {
        match contracts[0].1.definition(name) {
            Some(code) => code,
            None => first_definition(contracts.drop_first(), name),
        }
    }
}

/// A contract that no longer declares the shared types. Its structs are defined anew where it
/// lost one.
pub open spec fn settled(contracts: Seq<ContractView>, i: int) -> ContractView {
    let context = contracts[i].1.without(shared_names(contracts));
    if loses_type(contracts, i) {
        (
            ExpandedView {
                abi_structs: crate::contract::definitions(context.structs),
                ..contracts[i].0
            },
            context,
        )
    } else {
        (contracts[i].0, context)
    }
}

/// The outcome of an expansion.
pub struct ExpansionView {
    pub contracts: Seq<ContractView>,
    /// The contracts that lost a type.
    pub dirty: Set<int>,
    /// The definitions of the shared types.
    pub shared_types: Seq<Seq<Tree>>,
}

impl ExpansionView {
    /// The contracts that lost a type get one more import.
    pub open spec fn with_import(self, import: Seq<Tree>) -> ExpansionView {
        ExpansionView {
            contracts: Seq::new(
                self.contracts.len(),
                |i: int|
                    if self.dirty.contains(i) {
                        (self.contracts[i].0.with_import(import), self.contracts[i].1)
                    } else {
                        self.contracts[i]
                    },
            ),
            ..self
        }
    }

    /// The code of all contracts, one after the other.
    pub open spec fn code(self) -> Seq<Seq<Tree>> {
        self.contracts.map_values(|c: ContractView| c.0.tokens())
    }

    /// Everything in one stream: the shared types, if there are any, then the contracts.
    pub open spec fn inplace(self) -> Seq<Tree> {
        let shared = if self.shared_types.len() == 0 {
            Seq::empty()
        } else {
            tokens::shared_module(self.shared_types)
        };
        shared + tokens::joined(self.with_import(tokens::shared_import(true)).code())
    }

    /// The bindings of all contracts by the name of the contract. The last of several contracts
    /// of one name stays.
    pub open spec fn bindings(self, rustfmt: bool) -> Map<Seq<char>, DraftView> {
        by_name(self.contracts, rustfmt)
    }

    /// The shared types as they go to one place, if there are any.
    pub open spec fn shared_draft(self, single_file: bool, rustfmt: bool) -> Option<DraftView> {
        if self.shared_types.len() == 0 {
            None
        } else {
            Some(
                DraftView {
                    tokens: if single_file {
                        tokens::shared_module(self.shared_types)
                    } else {
                        tokens::joined(self.shared_types)
                    },
                    rustfmt,
                    name: "shared_types"@,
                },
            )
        }
    }

    /// What is written of the expansion.
    pub open spec fn drafts(self, single_file: bool, rustfmt: bool) -> DraftsView {
        DraftsView {
            bindings: self.with_import(tokens::shared_import(single_file)).bindings(rustfmt),
            shared_types: self.shared_draft(single_file, rustfmt),
        }
    }
}

/// The bindings of contracts by the name of the contract.
pub open spec fn by_name(contracts: Seq<ContractView>, rustfmt: bool) -> Map<Seq<char>, DraftView>
    decreases contracts.len(),
{
    if contracts.len() == 0 {
        Map::empty()
    } else {
        let last = contracts.last();
        let name = last.1.contract_name;
        by_name(contracts.drop_last(), rustfmt).insert(
            name,
            DraftView { tokens: last.0.tokens(), rustfmt, name },
        )
    }
}

/// All contracts without the types that they share, and the shared types once each, in the order
/// of their names.
pub open spec fn expansion(contracts: Seq<ContractView>) -> ExpansionView {
    ExpansionView {
        contracts: Seq::new(contracts.len(), |i: int| settled(contracts, i)),
        dirty: Set::new(|i: int| 0 <= i < contracts.len() && loses_type(contracts, i)),
        shared_types: order::listing(shared_names(contracts)).map_values(
            |name: Seq<char>| first_definition(contracts, name),
        ),
    }
}

/// The expanded contracts of many orders.
pub struct MultiExpansion {
    contracts: Vec<(ExpandedContract, Context)>,
}

impl View for MultiExpansion {
    type V = Seq<ContractView>;

    closed spec fn view(&self) -> Seq<ContractView> {
        views(self.contracts@)
    }
}

/// What is known of an expansion before it is written out.
pub struct MultiExpansionResult {
    contracts: Vec<(ExpandedContract, Context)>,
    /// The places of the contracts that lost a type.
    dirty_contracts: HashSet<usize>,
    /// The definitions of all types that several contracts share.
    shared_types: Vec<TokenStream>,
}

impl View for MultiExpansionResult {
    type V = ExpansionView;

    closed spec fn view(&self) -> ExpansionView {
        ExpansionView {
            contracts: views(self.contracts@),
            dirty: Set::new(
                |i: int|
                    0 <= i < self.contracts@.len() && self.dirty_contracts@.contains(i as usize),
            ),
            shared_types: tokens::all_trees(self.shared_types@),
        }
    }
}

/// The code of all bindings, and where it belongs.
pub struct BindingDrafts {
    pub(crate) bindings: NameMap<ContractBindings>,
    pub(crate) shared_types: Option<ContractBindings>,
}

pub struct DraftsView {
    pub bindings: Map<Seq<char>, DraftView>,
    pub shared_types: Option<DraftView>,
}

impl View for BindingDrafts {
    type V = DraftsView;

    open(crate) spec fn view(&self) -> DraftsView {
        DraftsView {
            bindings: self.bindings@.map_values(|b: ContractBindings| b@),
            shared_types: match self.shared_types {
                Some(shared) => Some(shared@),
                None => None,
            },
        }
    }
}

impl BindingDrafts {
    pub open(crate) spec fn wf(&self) -> bool {
        self.bindings.wf()
    }
}

impl MultiExpansionResult {
    /// Adds the import `shared` to every contract that lost a type.
    fn add_shared_import_path(&mut self, shared: TokenStream)
        ensures
            final(self)@ == old(self)@.with_import(tokens::trees(shared)),
    {
        let ghost before = self@;
        let ghost dirty = self.dirty_contracts@;
        let ghost wanted = before.with_import(tokens::trees(shared));
        let mut i: usize = 0;
        while i < self.contracts.len()
            invariant
                i <= self.contracts@.len(),
                self.contracts@.len() == before.contracts.len(),
                dirty == self.dirty_contracts@,
                self.dirty_contracts == old(self).dirty_contracts,
                self.shared_types == old(self).shared_types,
                before == old(self)@,
                wanted == before.with_import(tokens::trees(shared)),
                forall|j: int|
                    i <= j < before.contracts.len() ==> #[trigger] views(self.contracts@)[j]
                        == before.contracts[j],
                forall|j: int|
                    0 <= j < i ==> #[trigger] views(self.contracts@)[j] == wanted.contracts[j],
            decreases self.contracts@.len() - i,
        {
            let ghost held = self.contracts@;
            assert(views(self.contracts@)[i as int] == before.contracts[i as int]);
            if self.dirty_contracts.contains(&i) {
                tokens::push_stream(&mut self.contracts[i].0.imports, &shared);
            }
            assert forall|j: int| 0 <= j < before.contracts.len() && j != i implies #[trigger] views(
                self.contracts@,
            )[j] == views(held)[j] by {
                assert(self.contracts@[j] == held[j]);
            }
            assert(views(self.contracts@)[i as int] == wanted.contracts[i as int]);
            i += 1;
        }
        assert(self@.contracts =~= wanted.contracts);
        assert(self@.dirty =~= wanted.dirty);
    }

    /// Adds the import of the shared types to every contract that lost one. In a single file they
    /// stand in the module `__shared_types`, otherwise in the file `shared_types.rs`.
    fn set_shared_import_path(&mut self, single_file: bool)
        ensures
            final(self)@ == old(self)@.with_import(tokens::shared_import(single_file)),
    {
        self.add_shared_import_path(tokens::shared_import_tokens(single_file));
    }

    /// Expands all contracts into a single stream.
    pub fn expand_inplace(self) -> (stream: TokenStream)
        ensures
            tokens::trees(stream) == self@.inplace(),
    {
        let mut this = self;
        let mut stream = TokenStream::new();
        this.add_shared_import_path(tokens::shared_import_tokens(true));
        if !this.shared_types.is_empty() {
            tokens::push_shared_module(&mut stream, &this.shared_types);
        }
        let ghost shared = tokens::trees(stream);
        let ghost code = this@.code();
        let ghost contracts = this@.contracts;
        let mut contracts_left = this.contracts;
        let ghost mut n: int = 0;
        assert(code.take(0) =~= Seq::<Seq<Tree>>::empty());
        while contracts_left.len() > 0
            invariant
                0 <= n <= contracts.len(),
                n + contracts_left@.len() == contracts.len(),
                code == contracts.map_values(|c: ContractView| c.0.tokens()),
                forall|j: int|
                    0 <= j < contracts_left@.len() ==> #[trigger] views(contracts_left@)[j]
                        == contracts[n + j],
                tokens::trees(stream) == shared + tokens::joined(code.take(n)),
            decreases contracts_left@.len(),
        {
            let ghost held = contracts_left@;
            assert(views(held)[0] == contracts[n]);
            let (expanded, _context) = contracts_left.remove(0);
            tokens::push_stream(&mut stream, &expanded.into_tokens());
            proof {
                assert(code.take(n + 1).drop_last() =~= code.take(n));
                assert(code.take(n + 1).last() == contracts[n].0.tokens());
                assert forall|j: int| 0 <= j < contracts_left@.len() implies #[trigger] views(
                    contracts_left@,
                )[j] == contracts[n + 1 + j] by {
                    assert(contracts_left@[j] == held[j + 1]);
                    assert(views(held)[j + 1] == contracts[n + (j + 1)]);
                }
                n = n + 1;
            }
        }
        assert(code.take(n) =~= code);
        stream
    }

    /// The bindings of all contracts and the shared types, as they are written to one file or to
    /// many.
    pub fn into_bindings(self, single_file: bool, rustfmt: bool) -> (drafts: BindingDrafts)
        ensures
            drafts.wf(),
            drafts@ == self@.drafts(single_file, rustfmt),
    {
        let mut this = self;
        this.set_shared_import_path(single_file);
        let ghost contracts = this@.contracts;
        let MultiExpansionResult { contracts: mut contracts_left, dirty_contracts: _, shared_types } = this;
        let mut bindings: NameMap<ContractBindings> = NameMap::new();
        let ghost mut n: int = 0;
        assert(contracts.take(0) =~= Seq::<ContractView>::empty());
        assert(bindings@.map_values(|b: ContractBindings| b@) =~= Map::<Seq<char>, DraftView>::empty());
        while contracts_left.len() > 0
            invariant
                0 <= n <= contracts.len(),
                n + contracts_left@.len() == contracts.len(),
                forall|j: int|
                    0 <= j < contracts_left@.len() ==> #[trigger] views(contracts_left@)[j]
                        == contracts[n + j],
                bindings.wf(),
                bindings@.map_values(|b: ContractBindings| b@) == by_name(contracts.take(n), rustfmt),
            decreases contracts_left@.len(),
        {
            let ghost held = contracts_left@;
            let ghost map = bindings@;
            assert(views(held)[0] == contracts[n]);
            let (expanded, context) = contracts_left.remove(0);
            let name = context.contract_name().clone();
            let binding = ContractBindings { tokens: expanded.into_tokens(), rustfmt, name: name.clone() };
            let ghost draft = binding@;
            bindings.insert(name, binding);
            proof {
                assert(contracts.take(n + 1).drop_last() =~= contracts.take(n));
                assert(contracts.take(n + 1).last() == contracts[n]);
                assert(bindings@.map_values(|b: ContractBindings| b@) =~= map.map_values(
                    |b: ContractBindings| b@,
                ).insert(name@, draft));
                assert forall|j: int| 0 <= j < contracts_left@.len() implies #[trigger] views(
                    contracts_left@,
                )[j] == contracts[n + 1 + j] by {
                    assert(contracts_left@[j] == held[j + 1]);
                    assert(views(held)[j + 1] == contracts[n + (j + 1)]);
                }
                n = n + 1;
            }
        }
        assert(contracts.take(n) =~= contracts);
        let shared_types = if !shared_types.is_empty() {
            let mut tokens = TokenStream::new();
            if single_file {
                tokens::push_shared_module(&mut tokens, &shared_types);
            } else {
                tokens::push_stream(&mut tokens, &tokens::join(&shared_types));
            }
            Some(ContractBindings { tokens, rustfmt, name: "shared_types".to_owned() })
        } else {
            None
        };
        BindingDrafts { bindings, shared_types }
    }

    /// The number of contracts.
    pub fn len(&self) -> (n: usize)
        ensures
            n == self@.contracts.len(),
    {
        self.contracts.len()
    }
}

/// Whether one of the first `n` structs has that name.
spec fn has_among(context: ContextView, n: int, name: Seq<char>) -> bool {
    exists|p: int| 0 <= p < n && (#[trigger] context.structs[p]).name == name
}

/// Whether contract `i` was seen to declare the type, where the first `idx` contracts and `n`
/// structs of the next were looked at.
spec fn seen(contracts: Seq<ContractView>, idx: int, n: int, i: int, name: Seq<char>) -> bool {
    ||| 0 <= i < idx && contracts[i].1.has(name)
    ||| i == idx && has_among(contracts[idx].1, n, name)
}

/// `list` holds, in ascending order, the places of the contracts that were seen to declare the
/// type.
spec fn holders(contracts: Seq<ContractView>, idx: int, n: int, name: Seq<char>, list: Seq<usize>) -> bool {
    &&& list.len() > 0
    &&& forall|a: int, b: int| 0 <= a < b < list.len() ==> #[trigger] list[a] < #[trigger] list[b]
    &&& forall|a: int| 0 <= a < list.len() ==> seen(contracts, idx, n, #[trigger] list[a] as int, name)
    &&& forall|i: int| seen(contracts, idx, n, i, name) ==> exists|a: int| 0 <= a < list.len() && #[trigger] list[a] == i
}

/// The map holds the types that were seen, each with the contracts that declare it.
spec fn conflict_map(contracts: Seq<ContractView>, idx: int, n: int, map: Map<Seq<char>, Vec<usize>>) -> bool {
    forall|name: Seq<char>|
        {
            &&& #[trigger] map.dom().contains(name) <==> exists|i: int| seen(contracts, idx, n, i, name)
            &&& map.dom().contains(name) ==> holders(contracts, idx, n, name, map[name]@)
        }
}

/// One more struct was looked at: contract `idx` declares the type `name`.
proof fn lemma_one_more(
    contracts: Seq<ContractView>,
    idx: int,
    n: int,
    map: Map<Seq<char>, Vec<usize>>,
    list: Vec<usize>,
)
    requires
        0 <= idx < contracts.len(),
        idx <= usize::MAX,
        0 <= n < contracts[idx].1.structs.len(),
        conflict_map(contracts, idx, n, map),
        ({
            let name = contracts[idx].1.structs[n].name;
            if map.dom().contains(name) {
                if map[name]@.last() == idx {
                    list@ == map[name]@
                } else {
                    list@ == map[name]@.push(idx as usize)
                }
            } else {
                list@ == seq![idx as usize]
            }
        }),
    ensures
        conflict_map(contracts, idx, n + 1, map.insert(contracts[idx].1.structs[n].name, list)),
{
    let context = contracts[idx].1;
    let m = n + 1;
    let name = context.structs[n].name;
    let after = map.insert(name, list);
    assert forall|other: Seq<char>, i: int| #[trigger] seen(contracts, idx, m, i, other) == (seen(
        contracts,
        idx,
        n,
        i,
        other,
    ) || (i == idx && other == name)) by {
        if has_among(context, n, other) {
            let p = choose|p: int| 0 <= p < n && (#[trigger] context.structs[p]).name == other;
            assert(0 <= p < m && context.structs[p].name == other);
        }
        if other == name {
            assert(context.structs[n].name == other);
        }
        if has_among(context, m, other) {
            let p = choose|p: int| 0 <= p < m && (#[trigger] context.structs[p]).name == other;
            assert(p == n || (0 <= p < n && context.structs[p].name == other));
        }
    }
    assert forall|other: Seq<char>|
        {
            &&& #[trigger] after.dom().contains(other) <==> exists|i: int|
                seen(contracts, idx, m, i, other)
            &&& after.dom().contains(other) ==> holders(contracts, idx, m, other, after[other]@)
        } by {
        if other == name {
            assert(seen(contracts, idx, m, idx, name));
            let new = after[name]@;
            if map.dom().contains(name) {
                let old = map[name]@;
                assert(holders(contracts, idx, n, name, old));
                assert forall|a: int| 0 <= a < old.len() implies #[trigger] old[a] <= idx by {
                    assert(seen(contracts, idx, n, old[a] as int, name));
                }
                if old.last() != idx {
                    assert forall|a: int| 0 <= a < old.len() implies #[trigger] old[a] < idx by {
                        if a < old.len() - 1 {
                            assert(old[a] < old[old.len() - 1]);
                        }
                    }
                }
                assert forall|i: int| seen(contracts, idx, m, i, name) implies exists|a: int|
                    0 <= a < new.len() && #[trigger] new[a] == i by {
                    if i == idx {
                        assert(new[new.len() - 1] == i);
                    } else {
                        assert(seen(contracts, idx, n, i, name));
                        let a = choose|a: int| 0 <= a < old.len() && #[trigger] old[a] == i;
                        assert(new[a] == i);
                    }
                }
                assert forall|a: int| 0 <= a < new.len() implies seen(
                    contracts,
                    idx,
                    m,
                    #[trigger] new[a] as int,
                    name,
                ) by {
                    if a < old.len() {
                        assert(seen(contracts, idx, n, old[a] as int, name));
                    }
                }
            } else {
                assert forall|i: int| seen(contracts, idx, m, i, name) implies exists|a: int|
                    0 <= a < new.len() && #[trigger] new[a] == i by {
                    assert(!seen(contracts, idx, n, i, name));
                    assert(new[0] == i);
                }
            }
        } else {
            assert(map.dom().contains(other) == after.dom().contains(other));
            if exists|i: int| seen(contracts, idx, m, i, other) {
                let i = choose|i: int| seen(contracts, idx, m, i, other);
                assert(seen(contracts, idx, n, i, other));
            }
            if exists|i: int| seen(contracts, idx, n, i, other) {
                let i = choose|i: int| seen(contracts, idx, n, i, other);
                assert(seen(contracts, idx, m, i, other));
            }
            if map.dom().contains(other) {
                let list = map[other]@;
                assert(holders(contracts, idx, n, other, list));
                assert forall|i: int| seen(contracts, idx, m, i, other) implies exists|a: int|
                    0 <= a < list.len() && #[trigger] list[a] == i by {
                    assert(seen(contracts, idx, n, i, other));
                }
                assert forall|a: int| 0 <= a < list.len() implies seen(
                    contracts,
                    idx,
                    m,
                    #[trigger] list[a] as int,
                    other,
                ) by {
                    assert(seen(contracts, idx, n, list[a] as int, other));
                }
            }
        }
    }
}

/// All structs of contract `idx` were looked at: the next contract's turn has come.
proof fn lemma_next_contract(contracts: Seq<ContractView>, idx: int, map: Map<Seq<char>, Vec<usize>>)
    requires
        0 <= idx < contracts.len(),
        conflict_map(contracts, idx, contracts[idx].1.structs.len() as int, map),
    ensures
        conflict_map(contracts, idx + 1, 0, map),
{
    let n = contracts[idx].1.structs.len() as int;
    let next = idx + 1;
    assert forall|name: Seq<char>, i: int|
        #![trigger seen(contracts, idx, n, i, name)]
        #![trigger seen(contracts, next, 0, i, name)]
        seen(contracts, idx, n, i, name) == seen(contracts, next, 0, i, name) by {
        crate::contract::lemma_find_some(contracts[idx].1.structs, name);
    }
    assert forall|name: Seq<char>|
        {
            &&& #[trigger] map.dom().contains(name) <==> exists|i: int| seen(contracts, next, 0, i, name)
            &&& map.dom().contains(name) ==> holders(contracts, next, 0, name, map[name]@)
        } by {
        if exists|i: int| seen(contracts, idx, n, i, name) {
            let i = choose|i: int| seen(contracts, idx, n, i, name);
            assert(seen(contracts, next, 0, i, name));
        }
        if exists|i: int| seen(contracts, next, 0, i, name) {
            let i = choose|i: int| seen(contracts, next, 0, i, name);
            assert(seen(contracts, idx, n, i, name));
        }
        if map.dom().contains(name) {
            let list = map[name]@;
            assert(holders(contracts, idx, n, name, list));
            assert forall|a: int| 0 <= a < list.len() implies seen(
                contracts,
                next,
                0,
                #[trigger] list[a] as int,
                name,
            ) by {
                assert(seen(contracts, idx, n, list[a] as int, name));
            }
        }
    }
}

/// The types of all contracts, each with the places of the contracts that declare it.
fn find_conflicts(contracts: &Vec<(ExpandedContract, Context)>) -> (conflicts: NameMap<Vec<usize>>)
    ensures
        conflicts.wf(),
        conflict_map(views(contracts@), contracts@.len() as int, 0, conflicts@),
{
    let ghost all = views(contracts@);
    let mut conflicts: NameMap<Vec<usize>> = NameMap::new();
    let mut idx: usize = 0;
    while idx < contracts.len()
        invariant
            idx <= contracts@.len(),
            all == views(contracts@),
            conflicts.wf(),
            conflict_map(all, idx as int, 0, conflicts@),
        decreases contracts@.len() - idx,
    {
        let context = &contracts[idx].1;
        let mut n: usize = 0;
        while n < context.struct_count()
            invariant
                idx < contracts@.len(),
                all == views(contracts@),
                context@ == all[idx as int].1,
                n <= context@.structs.len(),
                conflicts.wf(),
                conflict_map(all, idx as int, n as int, conflicts@),
            decreases context@.structs.len() - n,
        {
            let name = context.struct_name(n);
            let ghost map = conflicts@;
            proof {
                if map.dom().contains(name@) {
                    assert(holders(all, idx as int, n as int, name@, map[name@]@));
                }
            }
            let known = match conflicts.get_mut(name.as_str()) {
                Some(list) => {
                    if list[list.len() - 1] != idx {
                        list.push(idx);
                    }
                    true
                },
                None => false,
            };
            if !known {
                let mut list: Vec<usize> = Vec::new();
                list.push(idx);
                conflicts.insert(name.clone(), list);
            }
            proof {
                let list = conflicts@[name@];
                assert(conflicts@ == map.insert(name@, list));
                lemma_one_more(all, idx as int, n as int, map, list);
            }
            n += 1;
        }
        proof {
            lemma_next_contract(all, idx as int, conflicts@);
        }
        idx += 1;
    }
    conflicts
}

/// Once all contracts were looked at, those that were seen to declare a type are those that have
/// it, and a type is shared where there are two of them.
proof fn lemma_conflicts(contracts: Seq<ContractView>, map: Map<Seq<char>, Vec<usize>>, name: Seq<char>)
    requires
        conflict_map(contracts, contracts.len() as int, 0, map),
    ensures
        is_shared(contracts, name) ==> map.dom().contains(name),
        map.dom().contains(name) ==> {
            let list = map[name]@;
            &&& list.len() > 0
            &&& is_shared(contracts, name) <==> list.len() > 1
            &&& forall|a: int|
                0 <= a < list.len() ==> #[trigger] list[a] < contracts.len()
                    && contracts[list[a] as int].1.has(name)
            &&& forall|a: int, b: int| 0 <= a < b < list.len() ==> #[trigger] list[a] < #[trigger] list[b]
            &&& forall|i: int|
                0 <= i < contracts.len() && #[trigger] contracts[i].1.has(name) ==> exists|a: int|
                    0 <= a < list.len() && #[trigger] list[a] == i
            &&& contracts[list[0] as int].1.definition(name) == Some(first_definition(contracts, name))
        },
{
    let len = contracts.len() as int;
    assert forall|i: int| 0 <= i < len && contracts[i].1.has(name) implies #[trigger] seen(
        contracts,
        len,
        0,
        i,
        name,
    ) by {}
    if is_shared(contracts, name) {
        let (i, j) = choose|i: int, j: int|
            0 <= i < j < contracts.len() && #[trigger] contracts[i].1.has(name)
                && #[trigger] contracts[j].1.has(name);
        assert(seen(contracts, len, 0, i, name));
    }
    if map.dom().contains(name) {
        let list = map[name]@;
        assert(holders(contracts, len, 0, name, list));
        assert forall|a: int| 0 <= a < list.len() implies #[trigger] list[a] < contracts.len()
            && contracts[list[a] as int].1.has(name) by {
            assert(seen(contracts, len, 0, list[a] as int, name));
        }
        assert forall|i: int| 0 <= i < len && #[trigger] contracts[i].1.has(name) implies exists|a: int|
            0 <= a < list.len() && #[trigger] list[a] == i by {
            assert(seen(contracts, len, 0, i, name));
        }
        if is_shared(contracts, name) {
            let (i, j) = choose|i: int, j: int|
                0 <= i < j < contracts.len() && #[trigger] contracts[i].1.has(name)
                    && #[trigger] contracts[j].1.has(name);
            let a = choose|a: int| 0 <= a < list.len() && #[trigger] list[a] == i;
            let b = choose|b: int| 0 <= b < list.len() && #[trigger] list[b] == j;
            assert(a != b);
        }
        if list.len() > 1 {
            assert(list[0] < list[1]);
            assert(contracts[list[0] as int].1.has(name) && contracts[list[1] as int].1.has(name));
        }
        assert forall|i: int| 0 <= i < list[0] implies !(#[trigger] contracts[i].1.has(name)) by {
            if contracts[i].1.has(name) {
                let a = choose|a: int| 0 <= a < list.len() && #[trigger] list[a] == i;
                if a > 0 {
                    assert(list[0] < list[a]);
                }
            }
        }
        lemma_first_definition(contracts, list[0] as int, name);
    }
}

proof fn lemma_first_definition(contracts: Seq<ContractView>, k: int, name: Seq<char>)
    requires
        0 <= k < contracts.len(),
        contracts[k].1.has(name),
        forall|i: int| 0 <= i < k ==> !(#[trigger] contracts[i].1.has(name)),
    ensures
        contracts[k].1.definition(name) == Some(first_definition(contracts, name)),
    decreases contracts.len(),
{
    if k > 0 {
        assert(!contracts[0].1.has(name));
        let rest = contracts.drop_first();
        assert forall|i: int| 0 <= i < k - 1 implies !(#[trigger] rest[i].1.has(name)) by {
            assert(!contracts[i + 1].1.has(name));
        }
        lemma_first_definition(rest, k - 1, name);
    }
}

/// The types `gone` were moved out of all contracts, and nothing else has changed yet.
spec fn moved(
    contracts: Seq<ContractView>,
    gone: Set<Seq<char>>,
    now: Seq<ContractView>,
    dirty: Set<usize>,
) -> bool {
    &&& now.len() == contracts.len()
    &&& forall|i: int|
        0 <= i < now.len() ==> (#[trigger] now[i]).0 == contracts[i].0 && now[i].1
            == contracts[i].1.without(gone)
    &&& forall|i: usize|
        #[trigger] dirty.contains(i) <==> i < contracts.len() && exists|name: Seq<char>|
            gone.contains(name) && #[trigger] contracts[i as int].1.has(name)
}

impl MultiExpansion {
    /// The expansion of the given contracts.
    pub fn new(contracts: Vec<(ExpandedContract, Context)>) -> (multi: Self)
        ensures
            multi@ == views(contracts@),
    {
        MultiExpansion { contracts }
    }

    /// Expands all orders with `expand`, up to the first that fails.
    pub fn from_abigen<E, F: Fn(&Abigen) -> Result<(ExpandedContract, Context), E>>(
        abigens: Vec<Abigen>,
        expand: F,
    ) -> (multi: Result<Self, E>)
        requires
            forall|i: int|
                0 <= i < abigens@.len() ==> call_requires(expand, (&#[trigger] abigens@[i],)),
        ensures
            match multi {
                Ok(multi) => exists|contracts: Seq<(ExpandedContract, Context)>|
                    {
                        &&& #[trigger] series::all_done::<Abigen, (ExpandedContract, Context), E, F>(
                            expand,
                            abigens@,
                            contracts,
                        )
                        &&& multi@ == views(contracts)
                    },
                Err(error) => series::failed::<Abigen, (ExpandedContract, Context), E, F>(
                    expand,
                    abigens@,
                    error,
                ),
            },
    {
        match series::each(&abigens, &expand) {
            Ok(contracts) => Ok(Self::new(contracts)),
            Err(error) => Err(error),
        }
    }

    /// Expands all contracts into a single stream. Types that several contracts declare are
    /// moved to a module `__shared_types`, if there are any.
    pub fn expand_inplace(self) -> (stream: TokenStream)
        ensures
            tokens::trees(stream) == expansion(self@).inplace(),
    {
        self.expand().expand_inplace()
    }

    /// Moves the type `name` out of the contracts in `list`.
    fn move_out(
        expansions: &mut Vec<(ExpandedContract, Context)>,
        dirty: &mut HashSet<usize>,
        name: &String,
        list: &Vec<usize>,
        Ghost(contracts): Ghost<Seq<ContractView>>,
        Ghost(gone): Ghost<Set<Seq<char>>>,
    )
        requires
            moved(contracts, gone, views(old(expansions)@), old(dirty)@),
            forall|a: int|
                0 <= a < list@.len() ==> #[trigger] list@[a] < contracts.len()
                    && contracts[list@[a] as int].1.has(name@),
            forall|i: int|
                0 <= i < contracts.len() && #[trigger] contracts[i].1.has(name@) ==> exists|a: int|
                    0 <= a < list@.len() && #[trigger] list@[a] == i,
        ensures
            moved(contracts, gone.insert(name@), views(final(expansions)@), final(dirty)@),
    {
        let ghost more = gone.insert(name@);
        assert forall|i: int| 0 <= i < expansions@.len() implies (#[trigger] expansions@[i]).0@
            == contracts[i].0 && expansions@[i].1@ == contracts[i].1.without(gone) by {
            assert(views(expansions@)[i] == (expansions@[i].0@, expansions@[i].1@));
        }
        let mut j: usize = 0;
        while j < list.len()
            invariant
                j <= list@.len(),
                more == gone.insert(name@),
                expansions@.len() == contracts.len(),
                forall|a: int|
                    0 <= a < list@.len() ==> #[trigger] list@[a] < contracts.len()
                        && contracts[list@[a] as int].1.has(name@),
                forall|i: int|
                    0 <= i < expansions@.len() ==> (#[trigger] expansions@[i]).0@ == contracts[i].0,
                forall|i: int|
                    0 <= i < expansions@.len() ==> (#[trigger] expansions@[i]).1@ == contracts[i].1.without(
                        if exists|a: int| 0 <= a < j && #[trigger] list@[a] == i {
                            more
                        } else {
                            gone
                        },
                    ),
                forall|i: usize|
                    #[trigger] dirty@.contains(i) <==> {
                        ||| i < contracts.len() && exists|n: Seq<char>|
                            gone.contains(n) && #[trigger] contracts[i as int].1.has(n)
                        ||| exists|a: int| 0 <= a < j && #[trigger] list@[a] == i
                    },
            decreases list@.len() - j,
        {
            let place = list[j];
            let ghost held = expansions@;
            expansions[place].1.remove_struct(name.as_str());
            dirty.insert(place);
            proof {
                let structs = contracts[place as int].1.structs;
                assert(gone.union(set![name@]) =~= more);
                assert(more.union(set![name@]) =~= more);
                crate::contract::lemma_without_twice(structs, gone, set![name@]);
                crate::contract::lemma_without_twice(structs, more, set![name@]);
                assert forall|i: int| 0 <= i < expansions@.len() implies (
                #[trigger] expansions@[i]).1@ == contracts[i].1.without(
                    if exists|a: int| 0 <= a < j + 1 && #[trigger] list@[a] == i {
                        more
                    } else {
                        gone
                    },
                ) by {
                    if i == place {
                        assert(list@[j as int] == i);
                    } else {
                        assert(expansions@[i] == held[i]);
                        if exists|a: int| 0 <= a < j + 1 && #[trigger] list@[a] == i {
                            let a = choose|a: int| 0 <= a < j + 1 && #[trigger] list@[a] == i;
                            assert(0 <= a < j && list@[a] == i);
                        }
                    }
                }
                assert forall|i: usize| #[trigger] dirty@.contains(i) <==> {
                    ||| i < contracts.len() && exists|n: Seq<char>|
                        gone.contains(n) && #[trigger] contracts[i as int].1.has(n)
                    ||| exists|a: int| 0 <= a < j + 1 && #[trigger] list@[a] == i
                } by {
                    if i == place {
                        assert(list@[j as int] == i);
                    }
                    if exists|a: int| 0 <= a < j + 1 && #[trigger] list@[a] == i {
                        let a = choose|a: int| 0 <= a < j + 1 && #[trigger] list@[a] == i;
                        assert(a == j || (0 <= a < j && list@[a] == i));
                    }
                }
            }
            j += 1;
        }
        proof {
            let now = views(expansions@);
            assert forall|i: int| 0 <= i < now.len() implies (#[trigger] now[i]).0 == contracts[i].0
                && now[i].1 == contracts[i].1.without(more) by {
                assert(expansions@[i].0@ == contracts[i].0);
                if !contracts[i].1.has(name@) {
                    crate::contract::lemma_without_absent(contracts[i].1.structs, gone, name@);
                }
            }
            assert forall|i: usize| #[trigger] dirty@.contains(i) <==> i < contracts.len() && exists|
                n: Seq<char>,
            |
                more.contains(n) && #[trigger] contracts[i as int].1.has(n) by {
                if exists|a: int| 0 <= a < list@.len() && #[trigger] list@[a] == i {
                    assert(contracts[i as int].1.has(name@) && more.contains(name@));
                }
                if i < contracts.len() && exists|n: Seq<char>|
                    more.contains(n) && #[trigger] contracts[i as int].1.has(n) {
                    let n = choose|n: Seq<char>|
                        more.contains(n) && #[trigger] contracts[i as int].1.has(n);
                    if n == name@ {
                        let a = choose|a: int| 0 <= a < list@.len() && #[trigger] list@[a] == i;
                        assert(list@[a] == i);
                    } else {
                        assert(gone.contains(n));
                    }
                }
                if i < contracts.len() && exists|n: Seq<char>|
                    gone.contains(n) && #[trigger] contracts[i as int].1.has(n) {
                    let n = choose|n: Seq<char>|
                        gone.contains(n) && #[trigger] contracts[i as int].1.has(n);
                    assert(more.contains(n));
                }
            }
        }
    }

    /// Moves every type that several contracts declare to the shared types. They are listed in
    /// the order of their names, each as the first contract defines it.
    pub fn expand(self) -> (result: MultiExpansionResult)
        ensures
            result@ == expansion(self@),
    {
        let ghost all = self@;
        let mut expansions = self.contracts;
        let mut shared_types: Vec<TokenStream> = Vec::new();
        let mut dirty_contracts: HashSet<usize> = HashSet::new();
        let ghost mut gone: Set<Seq<char>> = Set::empty();
        let ghost mut out: Seq<Seq<char>> = Seq::empty();
        proof {
            assert forall|i: int| 0 <= i < all.len() implies (#[trigger] views(expansions@)[i]).0
                == all[i].0 && views(expansions@)[i].1 == all[i].1.without(gone) by {
                crate::contract::lemma_without_nothing(all[i].1.structs);
            }
            assert(moved(all, gone, views(expansions@), dirty_contracts@));
            assert(out.to_set() =~= gone);
            assert(tokens::all_trees(shared_types@) =~= out.map_values(
                |name: Seq<char>| first_definition(all, name),
            ));
        }
        if expansions.len() > 1 {
            let conflicts = find_conflicts(&expansions);
            let count = conflicts.len();
            let ghost names = order::listing(conflicts@.dom());
            let mut k: usize = 0;
            while k < count
                invariant
                    k <= count,
                    count == names.len(),
                    conflicts.wf(),
                    names == order::listing(conflicts@.dom()),
                    order::ascending(names),
                    names.to_set() == conflicts@.dom(),
                    conflict_map(all, all.len() as int, 0, conflicts@),
                    moved(all, gone, views(expansions@), dirty_contracts@),
                    forall|n: Seq<char>|
                        #[trigger] gone.contains(n) <==> is_shared(all, n) && exists|m: int|
                            0 <= m < k && #[trigger] names[m] == n,
                    order::ascending(out),
                    out.to_set() == gone,
                    tokens::all_trees(shared_types@) == out.map_values(
                        |name: Seq<char>| first_definition(all, name),
                    ),
                decreases count - k,
            {
                let name = conflicts.key(k);
                let list = conflicts.value(k);
                proof {
                    lemma_conflicts(all, conflicts@, name@);
                    if gone.contains(name@) {
                        let m = choose|m: int| 0 <= m < k && #[trigger] names[m] == name@;
                        assert(order::before(names[m], names[k as int]));
                        order::law_before_irreflexive(name@);
                    }
                }
                if list.len() > 1 {
                    let ghost held = shared_types@;
                    proof {
                        let first = list@[0] as int;
                        assert(views(expansions@)[first].1 == all[first].1.without(gone));
                        crate::contract::lemma_find_without(all[first].1.structs, gone, name@);
                    }
                    match expansions[list[0]].1.struct_definition(name.as_str()) {
                        Some(definition) => {
                            shared_types.push(definition);
                        },
                        None => {
                            assert(false);
                        },
                    }
                    Self::move_out(
                        &mut expansions,
                        &mut dirty_contracts,
                        name,
                        list,
                        Ghost(all),
                        Ghost(gone),
                    );
                    proof {
                        let more = gone.insert(name@);
                        let listed = out.push(name@);
                        let code = |name: Seq<char>| first_definition(all, name);
                        assert(tokens::all_trees(shared_types@) =~= listed.map_values(code)) by {
                            assert(tokens::trees(shared_types@.last()) == first_definition(all, name@));
                            assert(shared_types@ =~= held.push(shared_types@.last()));
                            assert(tokens::all_trees(held) == out.map_values(code));
                            assert(tokens::all_trees(held).len() == held.len());
                            assert(out.map_values(code).len() == out.len());
                            assert forall|a: int| 0 <= a < out.len() implies #[trigger] tokens::all_trees(
                                shared_types@,
                            )[a] == code(listed[a]) by {
                                assert(tokens::all_trees(held)[a] == out.map_values(code)[a]);
                            }
                        }
                        assert forall|a: int, b: int| 0 <= a < b < listed.len() implies order::before(
                            #[trigger] listed[a],
                            #[trigger] listed[b],
                        ) by {
                            if b == out.len() {
                                assert(out.to_set().contains(out[a]));
                                let m = choose|m: int| 0 <= m < k && #[trigger] names[m] == out[a];
                                assert(order::before(names[m], names[k as int]));
                            }
                        }
                        assert(listed.to_set() =~= more) by {
                            assert forall|n: Seq<char>| listed.contains(n) == more.contains(n) by {
                                assert(out.to_set().contains(n) == out.contains(n));
                                if out.contains(n) {
                                    let a = choose|a: int| 0 <= a < out.len() && out[a] == n;
                                    assert(listed[a] == n);
                                }
                                if n == name@ {
                                    assert(listed[out.len() as int] == n);
                                }
                            }
                        }
                        lemma_next_gone(all, names, k as int, gone, more);
                        gone = more;
                        out = listed;
                    }
                } else {
                    proof {
                        lemma_next_gone(all, names, k as int, gone, gone);
                    }
                }
                k += 1;
            }
            proof {
                assert forall|n: Seq<char>| is_shared(all, n) implies #[trigger] gone.contains(n) by {
                    lemma_conflicts(all, conflicts@, n);
                    assert(names.to_set().contains(n));
                    let m = choose|m: int| 0 <= m < names.len() && names[m] == n;
                    assert(names[m] == n);
                }
            }
        }
        proof {
            assert(gone =~= shared_names(all));
            order::lemma_is_listing(out);
        }
        let ghost middle = views(expansions@);
        let mut i: usize = 0;
        while i < expansions.len()
            invariant
                i <= expansions@.len(),
                gone == shared_names(all),
                moved(all, gone, middle, dirty_contracts@),
                expansions@.len() == all.len(),
                forall|j: int| i <= j < all.len() ==> #[trigger] views(expansions@)[j] == middle[j],
                forall|j: int| 0 <= j < i ==> #[trigger] views(expansions@)[j] == settled(all, j),
            decreases expansions@.len() - i,
        {
            let ghost held = expansions@;
            proof {
                assert(views(expansions@)[i as int] == middle[i as int]);
                assert(middle[i as int].0 == all[i as int].0);
                assert(dirty_contracts@.contains(i) == loses_type(all, i as int)) by {
                    if loses_type(all, i as int) {
                        let n = choose|n: Seq<char>|
                            is_shared(all, n) && #[trigger] all[i as int].1.has(n);
                        assert(gone.contains(n));
                    }
                }
            }
            if dirty_contracts.contains(&i) {
                let code = expansions[i].1.abi_structs();
                expansions[i].0.abi_structs = code;
            }
            assert forall|j: int| 0 <= j < all.len() && j != i implies #[trigger] views(
                expansions@,
            )[j] == views(held)[j] by {
                assert(expansions@[j] == held[j]);
            }
            assert(views(expansions@)[i as int] == settled(all, i as int));
            i += 1;
        }
        let result = MultiExpansionResult { contracts: expansions, dirty_contracts, shared_types };
        proof {
            let wanted = expansion(all);
            assert(result@.contracts =~= wanted.contracts);
            assert(result@.shared_types =~= wanted.shared_types);
            assert forall|i: int| result@.dirty.contains(i) == wanted.dirty.contains(i) by {
                if 0 <= i < all.len() {
                    assert(i as usize as int == i);
                    if loses_type(all, i) {
                        let n = choose|n: Seq<char>| is_shared(all, n) && #[trigger] all[i].1.has(n);
                        assert(gone.contains(n));
                    }
                }
            }
            assert(result@.dirty =~= wanted.dirty);
        }
        result
    }
}

/// The types that were moved out after one more name was looked at.
proof fn lemma_next_gone(
    contracts: Seq<ContractView>,
    names: Seq<Seq<char>>,
    k: int,
    gone: Set<Seq<char>>,
    more: Set<Seq<char>>,
)
    requires
        0 <= k < names.len(),
        forall|n: Seq<char>|
            #[trigger] gone.contains(n) <==> is_shared(contracts, n) && exists|m: int|
                0 <= m < k && #[trigger] names[m] == n,
        more == (if is_shared(contracts, names[k]) {
            gone.insert(names[k])
        } else {
            gone
        }),
    ensures
        forall|n: Seq<char>|
            #[trigger] more.contains(n) <==> is_shared(contracts, n) && exists|m: int|
                0 <= m < k + 1 && #[trigger] names[m] == n,
{
    assert forall|n: Seq<char>| #[trigger] more.contains(n) <==> is_shared(contracts, n) && exists|
        m: int,
    |
        0 <= m < k + 1 && #[trigger] names[m] == n by {
        assert(gone.contains(n) <==> is_shared(contracts, n) && exists|m: int|
            0 <= m < k && #[trigger] names[m] == n);
        if exists|m: int| 0 <= m < k && #[trigger] names[m] == n {
            let m = choose|m: int| 0 <= m < k && #[trigger] names[m] == n;
            assert(0 <= m < k + 1 && names[m] == n);
        }
        if exists|m: int| 0 <= m < k + 1 && #[trigger] names[m] == n {
            let m = choose|m: int| 0 <= m < k + 1 && #[trigger] names[m] == n;
            assert(m == k || (0 <= m < k && names[m] == n));
        }
        if n == names[k] {
            assert(0 <= k < k + 1 && names[k] == n);
        }
    }
}

} // verus!
