//! One contract: what its bindings are made from, and what they consist of.

use crate::names;
use crate::tokens;
use crate::tokens::Tree;
use proc_macro2::TokenStream;
use vstd::prelude::*;

verus! {

/// The order to make bindings for one contract.
#[derive(Debug, Clone)]
pub struct Abigen {
    /// The name that the bindings get.
    pub contract_name: String,
    /// The ABI, or where it is found.
    pub abi_source: String,
    /// Whether the source text is to be formatted.
    pub rustfmt: bool,
}

impl Abigen {
    /// An order for the contract `contract_name`, whose source text will be formatted.
    pub fn new(contract_name: &str, abi_source: &str) -> (abigen: Self)
        ensures
            abigen.contract_name@ == contract_name@,
            abigen.abi_source@ == abi_source@,
            abigen.rustfmt,
    {
        Abigen {
            contract_name: contract_name.to_owned(),
            abi_source: abi_source.to_owned(),
            rustfmt: true,
        }
    }
}

/// The pieces of code that make up the module of a contract.
pub struct ExpandedContract {
    /// The name of the module.
    pub module: TokenStream,
    /// The imports of the module.
    pub imports: TokenStream,
    /// The contract type and its methods.
    pub contract: TokenStream,
    /// The event types.
    pub events: TokenStream,
    /// The error types.
    pub errors: TokenStream,
    /// The types of the calls.
    pub call_structs: TokenStream,
    /// The structs that the ABI declares.
    pub abi_structs: TokenStream,
}

pub struct ExpandedView {
    pub module: Seq<Tree>,
    pub imports: Seq<Tree>,
    pub contract: Seq<Tree>,
    pub events: Seq<Tree>,
    pub errors: Seq<Tree>,
    pub call_structs: Seq<Tree>,
    pub abi_structs: Seq<Tree>,
}

impl View for ExpandedContract {
    type V = ExpandedView;

    open spec fn view(&self) -> ExpandedView {
        ExpandedView {
            module: tokens::trees(self.module),
            imports: tokens::trees(self.imports),
            contract: tokens::trees(self.contract),
            events: tokens::trees(self.events),
            errors: tokens::trees(self.errors),
            call_structs: tokens::trees(self.call_structs),
            abi_structs: tokens::trees(self.abi_structs),
        }
    }
}

impl ExpandedView {
    /// What stands between the braces of the module.
    pub open spec fn body(self) -> Seq<Tree> {
        self.imports + self.contract + self.errors + self.events + self.call_structs
            + self.abi_structs
    }

    /// The module, behind an import that makes its items visible.
    pub open spec fn tokens(self) -> Seq<Tree> {
        seq![Tree::Word("pub"@), Tree::Word("use"@)] + self.module + tokens::glob_end()
            + tokens::allow_attribute() + tokens::public_module(self.module, self.body())
    }

    /// The contract with one more import.
    pub open spec fn with_import(self, import: Seq<Tree>) -> ExpandedView {
        ExpandedView { imports: self.imports + import, ..self }
    }
}

impl ExpandedContract {
    /// The whole code of the contract.
    pub fn into_tokens(self) -> (stream: TokenStream)
        ensures
            tokens::trees(stream) == self@.tokens(),
    {
        let mut body = TokenStream::new();
        tokens::push_stream(&mut body, &self.imports);
        tokens::push_stream(&mut body, &self.contract);
        tokens::push_stream(&mut body, &self.errors);
        tokens::push_stream(&mut body, &self.events);
        tokens::push_stream(&mut body, &self.call_structs);
        tokens::push_stream(&mut body, &self.abi_structs);
        assert(tokens::trees(body) =~= self@.body());
        let mut stream = TokenStream::new();
        tokens::push_public_glob(&mut stream, &self.module);
        tokens::push_allow_attribute(&mut stream);
        tokens::push_public_module(&mut stream, &self.module, body);
        stream
    }
}

/// A struct of the ABI: the name of its Rust type, and the code that defines it.
pub struct StructBinding {
    pub name: String,
    pub definition: TokenStream,
}

pub struct StructView {
    pub name: Seq<char>,
    pub definition: Seq<Tree>,
}

impl View for StructBinding {
    type V = StructView;

    open spec fn view(&self) -> StructView {
        StructView { name: self.name@, definition: tokens::trees(self.definition) }
    }
}

/// What is known of a contract while its bindings are made.
pub struct Context {
    contract_name: String,
    structs: Vec<StructBinding>,
}

pub struct ContextView {
    pub contract_name: Seq<char>,
    /// The structs of the ABI, in the order in which they are defined.
    pub structs: Seq<StructView>,
}

impl View for Context {
    type V = ContextView;

    closed spec fn view(&self) -> ContextView {
        ContextView {
            contract_name: self.contract_name@,
            structs: self.structs@.map_values(|s: StructBinding| s@),
        }
    }
}

/// The structs that are left when those with the given names are taken away.
pub open spec fn without(structs: Seq<StructView>, names: Set<Seq<char>>) -> Seq<StructView>
    decreases structs.len(),
{
    if structs.len() == 0 {
        Seq::empty()
    } else if names.contains(structs.last().name) {
        without(structs.drop_last(), names)
    } else {
        without(structs.drop_last(), names).push(structs.last())
    }
}

/// The code that defines all structs.
pub open spec fn definitions(structs: Seq<StructView>) -> Seq<Tree> {
    tokens::joined(structs.map_values(|s: StructView| s.definition))
}

/// The code that defines the struct type of that name, where there is one: that of the first.
pub open spec fn find(structs: Seq<StructView>, name: Seq<char>) -> Option<Seq<Tree>>
    decreases structs.len(),
{
    if structs.len() == 0 {
        None
    } else if structs[0].name == name {
        Some(structs[0].definition)
    } else {
        find(structs.drop_first(), name)
    }
}

impl ContextView {
    /// Whether the contract has a struct type of that name.
    pub open spec fn has(self, name: Seq<char>) -> bool {
        self.definition(name) is Some
    }

    /// The code that defines the struct type of that name.
    pub open spec fn definition(self, name: Seq<char>) -> Option<Seq<Tree>> {
        find(self.structs, name)
    }

    /// The context without the struct types of those names.
    pub open spec fn without(self, names: Set<Seq<char>>) -> ContextView {
        ContextView { structs: without(self.structs, names), ..self }
    }
}

/// A struct type is found where one of the structs has its name.
pub proof fn lemma_find_some(structs: Seq<StructView>, name: Seq<char>)
    ensures
        find(structs, name) is Some <==> exists|i: int|
            0 <= i < structs.len() && (#[trigger] structs[i]).name == name,
    decreases structs.len(),
{
    if structs.len() > 0 {
        let rest = structs.drop_first();
        lemma_find_some(rest, name);
        if structs[0].name != name {
            if exists|i: int| 0 <= i < rest.len() && (#[trigger] rest[i]).name == name {
                let i = choose|i: int| 0 <= i < rest.len() && (#[trigger] rest[i]).name == name;
                assert(structs[i + 1].name == name);
            }
            if exists|i: int| 0 <= i < structs.len() && (#[trigger] structs[i]).name == name {
                let i = choose|i: int| 0 <= i < structs.len() && (#[trigger] structs[i]).name == name;
                assert(rest[i - 1].name == name);
            }
        }
    }
}

/// A struct type that is not taken away is found as before, one that is taken away no more.
pub proof fn lemma_find_without(structs: Seq<StructView>, names: Set<Seq<char>>, name: Seq<char>)
    ensures
        find(without(structs, names), name) == (if names.contains(name) {
            None
        } else {
            find(structs, name)
        }),
    decreases structs.len(),
{
    if structs.len() > 0 {
        lemma_without_first(structs, names);
        lemma_find_without(structs.drop_first(), names, name);
        let rest = without(structs.drop_first(), names);
        assert((seq![structs[0]] + rest).drop_first() =~= rest);
    }
}

/// Taking nothing away changes nothing.
pub proof fn lemma_without_nothing(structs: Seq<StructView>)
    ensures
        without(structs, Set::empty()) == structs,
    decreases structs.len(),
{
    if structs.len() > 0 {
        lemma_without_nothing(structs.drop_last());
        assert(structs =~= structs.drop_last().push(structs.last()));
    }
}

/// Taking names away in two steps is taking all of them away.
pub proof fn lemma_without_twice(structs: Seq<StructView>, a: Set<Seq<char>>, b: Set<Seq<char>>)
    ensures
        without(without(structs, a), b) == without(structs, a.union(b)),
    decreases structs.len(),
{
    if structs.len() > 0 {
        lemma_without_twice(structs.drop_last(), a, b);
        if !a.contains(structs.last().name) {
            let rest = without(structs.drop_last(), a);
            assert(rest.push(structs.last()).drop_last() =~= rest);
        }
    }
}

/// A name that no struct has can be taken away as well.
pub proof fn lemma_without_absent(structs: Seq<StructView>, names: Set<Seq<char>>, name: Seq<char>)
    requires
        find(structs, name) is None,
    ensures
        without(structs, names.insert(name)) == without(structs, names),
    decreases structs.len(),
{
    if structs.len() > 0 {
        let rest = structs.drop_last();
        lemma_find_some(structs, name);
        lemma_find_some(rest, name);
        assert(structs[structs.len() - 1].name != name);
        if find(rest, name) is Some {
            let i = choose|i: int| 0 <= i < rest.len() && (#[trigger] rest[i]).name == name;
            assert(structs[i].name == name);
        }
        lemma_without_absent(rest, names, name);
    }
}

impl Context {
    /// A contract without structs.
    pub fn new(contract_name: &str) -> (context: Self)
        ensures
            context@.contract_name == contract_name@,
            context@.structs == Seq::<StructView>::empty(),
    {
        let context = Context { contract_name: contract_name.to_owned(), structs: Vec::new() };
        assert(context@.structs =~= Seq::<StructView>::empty());
        context
    }

    /// The name of the contract.
    pub fn contract_name(&self) -> (name: &String)
        ensures
            name@ == self@.contract_name,
    {
        &self.contract_name
    }

    /// Adds a struct type. Its code stands behind that of all others, also where a type of that
    /// name was there before.
    pub fn add_struct(&mut self, name: &str, definition: TokenStream)
        ensures
            final(self)@.contract_name == old(self)@.contract_name,
            final(self)@.structs == without(old(self)@.structs, set![name@]).push(
                (StructView { name: name@, definition: tokens::trees(definition) }),
            ),
    {
        self.remove_struct(name);
        let ghost rest = self@.structs;
        self.structs.push(StructBinding { name: name.to_owned(), definition });
        assert(self@.structs =~= rest.push(
            StructView { name: name@, definition: tokens::trees(definition) },
        ));
    }

    /// The number of struct types.
    pub fn struct_count(&self) -> (n: usize)
        ensures
            n == self@.structs.len(),
    {
        self.structs.len()
    }

    /// The name of a struct type.
    pub fn struct_name(&self, i: usize) -> (name: &String)
        requires
            i < self@.structs.len(),
        ensures
            name@ == self@.structs[i as int].name,
    {
        &self.structs[i].name
    }

    /// The code that defines the struct type `name`, or `None` where the contract has no such
    /// type.
    pub fn struct_definition(&self, name: &str) -> (definition: Option<TokenStream>)
        ensures
            match definition {
                Some(stream) => self@.definition(name@) == Some(tokens::trees(stream)),
                None => self@.definition(name@) is None,
            },
    {
        let ghost structs = self@.structs;
        let mut i: usize = 0;
        assert(structs.skip(0) =~= structs);
        while i < self.structs.len()
            invariant
                i <= self.structs@.len(),
                structs == self@.structs,
                find(structs, name@) == find(structs.skip(i as int), name@),
            decreases self.structs@.len() - i,
        {
            assert(structs.skip(i as int)[0] == self.structs@[i as int]@);
            if names::same(self.structs[i].name.as_str(), name) {
                return Some(tokens::copied(&self.structs[i].definition));
            }
            assert(structs.skip(i as int).drop_first() =~= structs.skip(i + 1));
            i += 1;
        }
        None
    }

    /// Removes the struct type `name`, where the contract has it.
    pub fn remove_struct(&mut self, name: &str)
        ensures
            final(self)@ == old(self)@.without(set![name@]),
    {
        let ghost all = self@.structs;
        let ghost gone = set![name@];
        let mut i: usize = self.structs.len();
        assert(all.take(i as int) =~= all);
        proof {
            assert(without(all.skip(i as int), gone) =~= Seq::<StructView>::empty());
        }
        while i > 0
            invariant
                i <= all.len(),
                i <= self.structs@.len(),
                gone == set![name@],
                self.contract_name == old(self).contract_name,
                self@.structs == all.take(i as int) + without(all.skip(i as int), gone),
            decreases i,
        {
            i -= 1;
            let ghost held = self@.structs;
            proof {
                lemma_without_first(all.skip(i as int), gone);
                assert(all.skip(i as int).drop_first() =~= all.skip(i + 1));
                assert(all.skip(i as int)[0] == all[i as int]);
                assert(held[i as int] == all[i as int]);
            }
            if names::same(self.structs[i].name.as_str(), name) {
                self.structs.remove(i);
                assert(self@.structs =~= held.remove(i as int));
            }
            assert(self@.structs =~= all.take(i as int) + without(all.skip(i as int), gone));
        }
        assert(all.skip(0) =~= all);
        assert(self@.structs =~= without(all, gone));
    }

    /// The code that defines all struct types.
    pub fn abi_structs(&self) -> (stream: TokenStream)
        ensures
            tokens::trees(stream) == definitions(self@.structs),
    {
        let mut stream = TokenStream::new();
        let ghost codes = self@.structs.map_values(|s: StructView| s.definition);
        let mut i: usize = 0;
        while i < self.structs.len()
            invariant
                i <= self.structs@.len(),
                codes == self@.structs.map_values(|s: StructView| s.definition),
                tokens::trees(stream) == tokens::joined(codes.take(i as int)),
            decreases self.structs@.len() - i,
        {
            tokens::push_stream(&mut stream, &self.structs[i].definition);
            proof {
                assert(codes.take(i + 1).drop_last() =~= codes.take(i as int));
                assert(codes.take(i + 1).last() == tokens::trees(self.structs@[i as int].definition));
            }
            i += 1;
        }
        assert(codes.take(self.structs@.len() as int) =~= codes);
        stream
    }
}

proof fn lemma_without_first(structs: Seq<StructView>, names: Set<Seq<char>>)
    requires
        structs.len() > 0,
    ensures
        without(structs, names) == (if names.contains(structs[0].name) {
            without(structs.drop_first(), names)
        } else {
            seq![structs[0]] + without(structs.drop_first(), names)
        }),
    decreases structs.len(),
{
    let tail = structs.drop_first();
    if structs.len() == 1 {
        assert(structs.drop_last() =~= Seq::empty());
        assert(tail =~= Seq::empty());
        assert(without(structs.drop_last(), names) =~= Seq::<StructView>::empty());
    } else {
        lemma_without_first(structs.drop_last(), names);
        assert(structs.drop_last().drop_first() =~= tail.drop_last());
        assert(structs.last() == tail.last());
    }
}

/// The bindings of one contract, or the shared types: code that goes to one place.
pub struct ContractBindings {
    /// The code.
    pub tokens: TokenStream,
    /// Whether the source text is to be formatted.
    pub rustfmt: bool,
    /// The name of the contract.
    pub name: String,
}

pub struct DraftView {
    pub tokens: Seq<Tree>,
    pub rustfmt: bool,
    pub name: Seq<char>,
}

impl View for ContractBindings {
    type V = DraftView;

    open spec fn view(&self) -> DraftView {
        DraftView {
            tokens: tokens::trees(self.tokens),
            rustfmt: self.rustfmt,
            name: self.name@,
        }
    }
}

impl DraftView {
    /// `text` is the source text of the code as `format` leaves it: formatted where that is asked
    /// for and `format` has an answer, otherwise as it was.
    pub open spec fn reads<F: Fn(&String) -> Option<String>>(self, format: F, text: Seq<char>) -> bool {
        let raw = tokens::source_text(self.tokens);
        if self.rustfmt {
            exists|given: String, answer: Option<String>|
                {
                    &&& given@ == raw
                    &&& #[trigger] call_ensures(format, (&given,), answer)
                    &&& text == match answer {
                        Some(formatted) => formatted@,
                        None => raw,
                    }
                }
        } else {
            text == raw
        }
    }
}

impl ContractBindings {
    /// The source text, formatted by `format` where that is asked for. Where `format` has no
    /// answer, the text stays as it was.
    pub fn source<F: Fn(&String) -> Option<String>>(&self, format: &F) -> (text: String)
        requires
            forall|raw: String| #[trigger] call_requires(*format, (&raw,)),
        ensures
            self@.reads(*format, text@),
            !self.rustfmt ==> text@ == tokens::source_text(tokens::trees(self.tokens)),
    {
        let raw = tokens::to_source(&self.tokens);
        if self.rustfmt {
            match format(&raw) {
                Some(formatted) => formatted,
                None => raw,
            }
        } else {
            raw
        }
    }
}

} // verus!
