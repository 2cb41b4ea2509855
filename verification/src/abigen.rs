//! The orders for many contracts, from which their bindings are built.

use crate::bindings::{BindingsView, MultiBindings};
use crate::contract::{Abigen, Context, ExpandedContract};
use crate::expansion;
use crate::expansion::MultiExpansion;
use crate::names;
use crate::series;
use vstd::prelude::*;
use vstd::string::*;

verus! {

/// Whether a file holds JSON, by its name.
pub open spec fn is_json(file: Seq<char>) -> bool {
    file.len() > 5 && file.skip(file.len() - 5) == ".json"@
}

/// The views of pairs of strings.
pub open spec fn pairs(strings: Seq<(String, String)>) -> Seq<(Seq<char>, Seq<char>)> {
    strings.map_values(|p: (String, String)| (p.0@, p.1@))
}

/// The JSON files among the files, given by their names and paths. Each stands for the contract
/// that its name without `.json` says, and its path for the ABI.
pub open spec fn json_abis(files: Seq<(Seq<char>, Seq<char>)>) -> Seq<(Seq<char>, Seq<char>)>
    decreases files.len(),
{
    if files.len() == 0 {
        Seq::empty()
    } else {
        let (file, path) = files.last();
        let rest = json_abis(files.drop_last());
        if is_json(file) {
            rest.push((file.take(file.len() - 5), path))
        } else {
            rest
        }
    }
}

/// The orders for a series of contracts whose bindings are still to be built.
#[derive(Debug, Clone)]
pub struct MultiAbigen {
    abigens: Vec<Abigen>,
}

impl View for MultiAbigen {
    type V = Seq<Abigen>;

    closed spec fn view(&self) -> Seq<Abigen> {
        self.abigens@
    }
}

impl std::ops::Deref for MultiAbigen {
    type Target = Vec<Abigen>;

    fn deref(&self) -> (abigens: &Vec<Abigen>)
        ensures
            abigens@ == self@,
    {
        &self.abigens
    }
}

impl From<Vec<Abigen>> for MultiAbigen {
    fn from(abigens: Vec<Abigen>) -> (multi: Self)
        ensures
            multi@ == abigens@,
    {
        MultiAbigen { abigens }
    }
}

impl vstd::std_specs::convert::FromSpecImpl<Vec<Abigen>> for MultiAbigen {
    open spec fn obeys_from_spec() -> bool {
        true
    }

    closed spec fn from_spec(abigens: Vec<Abigen>) -> Self {
        MultiAbigen { abigens }
    }
}

impl MultiAbigen {
    /// The orders for a series of contract names and ABI sources, which `resolve` turns into
    /// orders one by one, up to the first that fails.
    pub fn new<E, F: Fn(&(String, String)) -> Result<Abigen, E>>(
        abis: Vec<(String, String)>,
        resolve: F,
    ) -> (multi: Result<Self, E>)
        requires
            forall|i: int| 0 <= i < abis@.len() ==> call_requires(resolve, (&#[trigger] abis@[i],)),
        ensures
            match multi {
                Ok(multi) => series::all_done::<(String, String), Abigen, E, F>(
                    resolve,
                    abis@,
                    multi@,
                ),
                Err(error) => series::failed::<(String, String), Abigen, E, F>(
                    resolve,
                    abis@,
                    error,
                ),
            },
    {
        match series::each(&abis, &resolve) {
            Ok(abigens) => Ok(Self::from_abigens(abigens)),
            Err(error) => Err(error),
        }
    }

    /// A series of orders.
    pub fn from_abigens(abis: Vec<Abigen>) -> (multi: Self)
        ensures
            multi@ == abis@,
    {
        MultiAbigen { abigens: abis }
    }

    /// The orders for all JSON files among `files`, which are given by their names and paths. The
    /// name of a file without `.json` is the name of the contract. The rest is as in
    /// [`MultiAbigen::new`].
    pub fn from_json_files<E, F: Fn(&(String, String)) -> Result<Abigen, E>>(
        files: Vec<(String, String)>,
        resolve: F,
    ) -> (multi: Result<Self, E>)
        requires
            forall|abi: (String, String)| #[trigger] call_requires(resolve, (&abi,)),
        ensures
            exists|abis: Seq<(String, String)>|
                {
                    &&& #[trigger] pairs(abis) == json_abis(pairs(files@))
                    &&& match multi {
                        Ok(multi) => series::all_done::<(String, String), Abigen, E, F>(
                            resolve,
                            abis,
                            multi@,
                        ),
                        Err(error) => series::failed::<(String, String), Abigen, E, F>(
                            resolve,
                            abis,
                            error,
                        ),
                    }
                },
    {
        let mut abis: Vec<(String, String)> = Vec::new();
        let ghost all = pairs(files@);
        let mut i: usize = 0;
        assert(all.take(0) =~= Seq::empty());
        assert(pairs(abis@) =~= Seq::empty());
        while i < files.len()
            invariant
                i <= files@.len(),
                all == pairs(files@),
                pairs(abis@) == json_abis(all.take(i as int)),
            decreases files@.len() - i,
        {
            let ghost held = abis@;
            let file = files[i].0.as_str();
            proof {
                assert(all.take(i + 1).drop_last() =~= all.take(i as int));
                assert(all.take(i + 1).last() == (file@, files@[i as int].1@));
            }
            if let Some(contract) = contract_of(file) {
                abis.push((contract, files[i].1.clone()));
                assert(pairs(abis@) =~= pairs(held).push((contract@, files@[i as int].1@)));
            }
            i += 1;
        }
        assert(all.take(i as int) =~= all);
        let ghost found = abis@;
        assert(pairs(found) == json_abis(pairs(files@)));
        Self::new(abis, resolve)
    }

    /// Adds another order.
    pub fn push(&mut self, abigen: Abigen)
        ensures
            final(self)@ == old(self)@.push(abigen),
    {
        self.abigens.push(abigen);
    }

    /// Builds the bindings: expands all orders with `expand`, up to the first that fails, and
    /// moves the types that several contracts declare to the shared types. The source text is to
    /// be formatted where one of the orders asks for it.
    pub fn build<E, F: Fn(&Abigen) -> Result<(ExpandedContract, Context), E>>(self, expand: F) -> (bindings: Result<
        MultiBindings,
        E,
    >)
        requires
            forall|i: int| 0 <= i < self@.len() ==> call_requires(expand, (&#[trigger] self@[i],)),
        ensures
            match bindings {
                Ok(bindings) => exists|contracts: Seq<(ExpandedContract, Context)>|
                    {
                        &&& #[trigger] series::all_done::<Abigen, (ExpandedContract, Context), E, F>(
                            expand,
                            self@,
                            contracts,
                        )
                        &&& bindings@ == (BindingsView {
                            expansion: expansion::expansion(expansion::views(contracts)),
                            rustfmt: exists|i: int| 0 <= i < self@.len() && (#[trigger] self@[i]).rustfmt,
                        })
                    },
                Err(error) => series::failed::<Abigen, (ExpandedContract, Context), E, F>(
                    expand,
                    self@,
                    error,
                ),
            },
    {
        let mut rustfmt = false;
        let mut i: usize = 0;
        while i < self.abigens.len()
            invariant
                i <= self.abigens@.len(),
                rustfmt == exists|j: int| 0 <= j < i && (#[trigger] self@[j]).rustfmt,
            decreases self.abigens@.len() - i,
        {
            let ghost before = rustfmt;
            rustfmt = rustfmt || self.abigens[i].rustfmt;
            proof {
                if before {
                    let j = choose|j: int| 0 <= j < i && (#[trigger] self@[j]).rustfmt;
                    assert(0 <= j < i + 1 && self@[j].rustfmt);
                }
                assert(self@[i as int].rustfmt == self.abigens@[i as int].rustfmt);
            }
            i += 1;
        }
        let ghost orders = self@;
        assert forall|i: int| 0 <= i < self.abigens@.len() implies call_requires(
            expand,
            (&#[trigger] self.abigens@[i],),
        ) by {
            assert(call_requires(expand, (&orders[i],)));
        }
        match MultiExpansion::from_abigen(self.abigens, expand) {
            Ok(multi) => Ok(MultiBindings::new(multi.expand(), rustfmt)),
            Err(error) => Err(error),
        }
    }
}

/// The contract that a JSON file stands for, or `None` for any other file.
fn contract_of(file: &str) -> (contract: Option<String>)
    ensures
        match contract {
            Some(name) => is_json(file@) && name@ == file@.take(file@.len() - 5),
            None => !is_json(file@),
        },
{
    let len = file.unicode_len();
    if len > 5 && names::same(file.substring_char(len - 5, len), ".json") {
        assert(file@.subrange(0, len - 5) =~= file@.take(len - 5));
        assert(file@.subrange(len - 5, len as int) =~= file@.skip(len - 5));
        Some(file.substring_char(0, len - 5).to_owned())
    } else {
        assert(len > 5 ==> file@.subrange(len - 5, len as int) =~= file@.skip(len - 5));
        None
    }
}

} // verus!
