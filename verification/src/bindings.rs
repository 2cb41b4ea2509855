//! The files that hold the bindings of many contracts.

use crate::disk;
use crate::disk::{ActionView, CheckError, FileAction, FileView, Folder, Snapshot};
use crate::expansion::{BindingDrafts, DraftsView, ExpansionView, MultiExpansionResult};
use crate::names;
use crate::order;
use crate::order::NameMap;
use vstd::prelude::*;
use vstd::string::*;
use vstd::utf8::encode_utf8;

verus! {

/// The source text of all bindings: of every contract by its name, and of the shared types.
pub struct InnerView {
    pub sources: Map<Seq<char>, Seq<char>>,
    pub shared_types: Option<Seq<char>>,
}

/// The first lines of the `lib.rs` or `mod.rs`.
pub open spec fn prefix(is_crate: bool, single_file: bool) -> Seq<char> {
    "#![allow(clippy::all)]\n"@ + "//! This "@ + (if is_crate {
        "lib"@
    } else {
        "module"@
    }) + " contains abigen! generated bindings for solidity contracts.\n"@
        + "//! This is autogenerated code.\n"@ + "//! Do not manually edit these files.\n"@ + "//! "@
        + (if single_file && !is_crate {
        "This file"@
    } else {
        "These files"@
    }) + " may be overwritten by the codegen system at any time.\n"@
}

/// The contents of the `Cargo.toml`.
pub open spec fn cargo_toml(name: Seq<char>, version: Seq<char>) -> Seq<char> {
    "[package]\n"@ + "name = \""@ + name + "\"\n"@ + "version = \""@ + version + "\"\n"@
        + "edition = \"2021\"\n"@ + "\n"@
        + "# See more keys and their definitions at https://doc.rust-lang.org/cargo/reference/manifest.html\n"@
        + "\n"@ + "[dependencies]\n"@ + "\n"@
        + "ethers = { git = \"https://github.com/gakonst/ethers-rs\", default-features = false }\n"@
        + "serde_json = \"1.0.79\"\n"@ + "\n"@
}

/// One declaration to a line.
pub open spec fn declarations(modules: Seq<Seq<char>>) -> Seq<char>
    decreases modules.len(),
{
    if modules.len() == 0 {
        Seq::empty()
    } else {
        declarations(modules.drop_last()) + "pub mod "@ + modules.last() + ";\n"@
    }
}

/// Texts one after the other.
pub open spec fn in_a_row(texts: Seq<Seq<char>>) -> Seq<char>
    decreases texts.len(),
{
    if texts.len() == 0 {
        Seq::empty()
    } else {
        in_a_row(texts.drop_last()) + texts.last()
    }
}

/// The directory that holds the source files.
pub open spec fn source_folder(is_crate: bool) -> Folder {
    if is_crate {
        Folder::Src
    } else {
        Folder::Root
    }
}

/// The name of the file that holds everything or declares the other modules.
pub open spec fn super_name(is_crate: bool) -> Seq<char> {
    if is_crate {
        "lib.rs"@
    } else {
        "mod.rs"@
    }
}

impl InnerView {
    /// The contracts, in the order of their names.
    pub open spec fn contracts(self) -> Seq<Seq<char>> {
        order::listing(self.sources.dom())
    }

    /// The names of all modules.
    pub open spec fn modules(self) -> Set<Seq<char>> {
        let contracts = Set::new(
            |module: Seq<char>|
                exists|contract: Seq<char>|
                    #[trigger] self.sources.dom().contains(contract) && module == names::module_name(
                        contract,
                    ),
        );
        if self.shared_types is Some {
            contracts.insert("shared_types"@)
        } else {
            contracts
        }
    }

    /// The text of the shared types, if there are any, then of all contracts.
    pub open spec fn all_sources(self) -> Seq<char> {
        (match self.shared_types {
            Some(text) => text,
            None => Seq::empty(),
        }) + in_a_row(self.contracts().map_values(|contract: Seq<char>| self.sources[contract]))
    }

    /// The contents of the `lib.rs` or `mod.rs`: in a single file all source text, otherwise the
    /// declarations of all modules, sorted by name, each once.
    pub open spec fn super_contents(self, is_crate: bool, single_file: bool) -> Seq<char> {
        prefix(is_crate, single_file) + (if single_file {
            self.all_sources()
        } else {
            declarations(order::listing(self.modules()))
        })
    }

    /// The `lib.rs` or `mod.rs`.
    pub open spec fn super_file(self, is_crate: bool, single_file: bool) -> FileView {
        FileView {
            folder: source_folder(is_crate),
            name: super_name(is_crate),
            contents: encode_utf8(self.super_contents(is_crate, single_file)),
        }
    }

    /// The file of a contract.
    pub open spec fn contract_file(self, is_crate: bool, contract: Seq<char>) -> FileView {
        FileView {
            folder: source_folder(is_crate),
            name: names::file_name(contract),
            contents: encode_utf8(self.sources[contract]),
        }
    }

    /// The file of the shared types, if there are any.
    pub open spec fn shared_file(self, is_crate: bool) -> Seq<FileView> {
        match self.shared_types {
            Some(text) => seq![
                FileView {
                    folder: source_folder(is_crate),
                    name: "shared_types.rs"@,
                    contents: encode_utf8(text),
                },
            ],
            None => Seq::empty(),
        }
    }

    /// The files of the shared types and of all contracts.
    pub open spec fn binding_files(self, is_crate: bool) -> Seq<FileView> {
        self.shared_file(is_crate) + self.contracts().map_values(
            |contract: Seq<char>| self.contract_file(is_crate, contract),
        )
    }

    /// All source files, in the order in which they are written.
    pub open spec fn source_files(self, is_crate: bool, single_file: bool) -> Seq<FileView> {
        seq![self.super_file(is_crate, single_file)] + (if single_file {
            Seq::empty()
        } else {
            self.binding_files(is_crate)
        })
    }

    /// Whether a contract's own file takes the place of that of the shared types.
    pub open spec fn hides_shared_file(self) -> bool {
        exists|contract: Seq<char>| #[trigger]
            self.sources.dom().contains(contract) && names::file_name(contract)
                == "shared_types.rs"@
    }

    /// The source files that have to be there: all that are written, but for the file of the
    /// shared types where a contract is written over it.
    pub open spec fn expected_files(self, is_crate: bool, single_file: bool) -> Seq<FileView> {
        seq![self.super_file(is_crate, single_file)] + (if single_file {
            Seq::empty()
        } else {
            (if self.hides_shared_file() {
                Seq::empty()
            } else {
                self.shared_file(is_crate)
            }) + self.contracts().map_values(
                |contract: Seq<char>| self.contract_file(is_crate, contract),
            )
        })
    }
}

/// The `Cargo.toml` of a crate.
pub open spec fn cargo_file(name: Seq<char>, version: Seq<char>) -> FileView {
    FileView {
        folder: Folder::Root,
        name: "Cargo.toml"@,
        contents: encode_utf8(cargo_toml(name, version)),
    }
}

/// Files to be written.
pub open spec fn writes(files: Seq<FileView>) -> Seq<ActionView> {
    files.map_values(
        |f: FileView|
            ActionView::Write { folder: f.folder, name: f.name, contents: f.contents },
    )
}

impl InnerView {
    /// What is done to write a module.
    pub open spec fn module_plan(self, single_file: bool) -> Seq<ActionView> {
        seq![ActionView::CreateDir { folder: Folder::Root }] + writes(
            self.source_files(false, single_file),
        )
    }

    /// What is done to write a crate. The `Cargo.toml` must be new.
    pub open spec fn crate_plan(self, name: Seq<char>, version: Seq<char>, single_file: bool) -> Seq<
        ActionView,
    > {
        seq![
            ActionView::CreateDir { folder: Folder::Src },
            ActionView::CreateNew {
                folder: Folder::Root,
                name: "Cargo.toml"@,
                contents: encode_utf8(cargo_toml(name, version)),
            },
        ] + writes(self.source_files(true, single_file))
    }

    /// The files that have to be there for a crate to be up to date.
    pub open spec fn crate_files(
        self,
        name: Seq<char>,
        version: Seq<char>,
        single_file: bool,
        check_cargo_toml: bool,
    ) -> Seq<FileView> {
        (if check_cargo_toml {
            seq![cargo_file(name, version)]
        } else {
            Seq::empty()
        }) + self.expected_files(true, single_file)
    }
}

/// Writes the first lines of the `lib.rs` or `mod.rs`.
fn generate_prefix(buf: &mut String, is_crate: bool, single_file: bool)
    ensures
        final(buf)@ == old(buf)@ + prefix(is_crate, single_file),
{
    buf.append("#![allow(clippy::all)]\n");
    buf.append("//! This ");
    buf.append(
        if is_crate {
            "lib"
        } else {
            "module"
        },
    );
    buf.append(" contains abigen! generated bindings for solidity contracts.\n");
    buf.append("//! This is autogenerated code.\n");
    buf.append("//! Do not manually edit these files.\n");
    buf.append("//! ");
    buf.append(
        if single_file && !is_crate {
            "This file"
        } else {
            "These files"
        },
    );
    buf.append(" may be overwritten by the codegen system at any time.\n");
    assert(buf@ =~= old(buf)@ + prefix(is_crate, single_file));
}

/// The source text of all bindings.
pub struct MultiBindingsInner {
    bindings: NameMap<String>,
    shared_types: Option<String>,
}

impl View for MultiBindingsInner {
    type V = InnerView;

    closed spec fn view(&self) -> InnerView {
        InnerView {
            sources: self.bindings@.map_values(|text: String| text@),
            shared_types: match self.shared_types {
                Some(text) => Some(text@),
                None => None,
            },
        }
    }
}

impl MultiBindingsInner {
    pub closed spec fn wf(&self) -> bool {
        self.bindings.wf()
    }

    proof fn lemma_contracts(&self)
        ensures
            self@.contracts() == order::listing(self.bindings@.dom()),
            self@.sources.dom() == self.bindings@.dom(),
    {
        assert(self@.sources.dom() =~= self.bindings@.dom());
    }

    /// There are finitely many contracts.
    pub proof fn lemma_finite(&self)
        requires
            self.wf(),
        ensures
            self@.sources.dom().finite(),
    {
        self.lemma_contracts();
        self.bindings.lemma_finite();
    }

    /// The contents of the `Cargo.toml` of a crate.
    pub fn generate_cargo_toml(&self, name: &str, version: &str) -> (contents: Vec<u8>)
        ensures
            contents@ == encode_utf8(cargo_toml(name@, version@)),
    {
        let mut toml = String::new();
        toml.append("[package]\n");
        toml.append("name = \"");
        toml.append(name);
        toml.append("\"\n");
        toml.append("version = \"");
        toml.append(version);
        toml.append("\"\n");
        toml.append("edition = \"2021\"\n");
        toml.append("\n");
        toml.append(
            "# See more keys and their definitions at https://doc.rust-lang.org/cargo/reference/manifest.html\n",
        );
        toml.append("\n");
        toml.append("[dependencies]\n");
        toml.append("\n");
        toml.append(
            "ethers = { git = \"https://github.com/gakonst/ethers-rs\", default-features = false }\n",
        );
        toml.append("serde_json = \"1.0.79\"\n");
        toml.append("\n");
        assert(toml@ =~= cargo_toml(name@, version@));
        toml.as_str().as_bytes_vec()
    }

    /// Declares all modules, sorted by name, each once.
    fn append_module_names(&self, buf: &mut String)
        requires
            self.wf(),
        ensures
            final(buf)@ == old(buf)@ + declarations(order::listing(self@.modules())),
    {
        let mut modules: NameMap<()> = NameMap::new();
        let count = self.bindings.len();
        let ghost contracts = self@.contracts();
        proof {
            self.lemma_contracts();
        }
        let mut i: usize = 0;
        while i < count
            invariant
                i <= count,
                self.wf(),
                modules.wf(),
                count == contracts.len(),
                contracts == order::listing(self.bindings@.dom()),
                forall|m: Seq<char>|
                    #[trigger] modules@.dom().contains(m) <==> exists|j: int|
                        0 <= j < i && m == names::module_name(#[trigger] contracts[j]),
            decreases count - i,
        {
            let module = names::safe_module_name(self.bindings.key(i).as_str());
            let ghost held = modules@;
            modules.insert(module, ());
            assert forall|m: Seq<char>| #[trigger] modules@.dom().contains(m) <==> exists|j: int|
                0 <= j < i + 1 && m == names::module_name(#[trigger] contracts[j]) by {
                assert(held.dom().contains(m) <==> exists|j: int|
                    0 <= j < i && m == names::module_name(#[trigger] contracts[j]));
                if exists|j: int| 0 <= j < i && m == names::module_name(#[trigger] contracts[j]) {
                    let j = choose|j: int| 0 <= j < i && m == names::module_name(#[trigger] contracts[j]);
                    assert(0 <= j < i + 1 && m == names::module_name(contracts[j]));
                }
                if m == module@ {
                    assert(m == names::module_name(contracts[i as int]));
                }
                if exists|j: int| 0 <= j < i + 1 && m == names::module_name(#[trigger] contracts[j]) {
                    let j = choose|j: int|
                        0 <= j < i + 1 && m == names::module_name(#[trigger] contracts[j]);
                    assert(j == i || (0 <= j < i && m == names::module_name(contracts[j])));
                }
            }
            i += 1;
        }
        let ghost of_contracts = modules@.dom();
        if self.shared_types.is_some() {
            proof {
                names::lemma_shared_types_name();
            }
            modules.insert(names::to_snake_case("shared_types"), ());
        }
        proof {
            assert forall|m: Seq<char>| modules@.dom().contains(m) == self@.modules().contains(m) by {
                if of_contracts.contains(m) {
                    let j = choose|j: int|
                        0 <= j < contracts.len() && m == names::module_name(#[trigger] contracts[j]);
                    assert(contracts.to_set().contains(contracts[j]));
                    assert(self@.sources.dom().contains(contracts[j]));
                }
                if exists|c: Seq<char>|
                    #[trigger] self@.sources.dom().contains(c) && m == names::module_name(c) {
                    let c = choose|c: Seq<char>|
                        #[trigger] self@.sources.dom().contains(c) && m == names::module_name(c);
                    assert(contracts.to_set().contains(c));
                    let j = choose|j: int| 0 <= j < contracts.len() && contracts[j] == c;
                    assert(m == names::module_name(contracts[j]));
                }
            }
            assert(modules@.dom() =~= self@.modules());
        }
        let ghost list = order::listing(modules@.dom());
        let count = modules.len();
        let mut k: usize = 0;
        assert(list.take(0) =~= Seq::<Seq<char>>::empty());
        while k < count
            invariant
                k <= count,
                count == list.len(),
                modules.wf(),
                list == order::listing(modules@.dom()),
                buf@ == old(buf)@ + declarations(list.take(k as int)),
            decreases count - k,
        {
            let ghost held = buf@;
            buf.append("pub mod ");
            buf.append(modules.key(k).as_str());
            buf.append(";\n");
            proof {
                assert(list.take(k + 1).drop_last() =~= list.take(k as int));
                assert(list.take(k + 1).last() == list[k as int]);
                assert(buf@ =~= old(buf)@ + declarations(list.take(k + 1)));
            }
            k += 1;
        }
        assert(list.take(k as int) =~= list);
    }

    /// The contents of the `lib.rs` or `mod.rs`.
    pub fn generate_super_contents(&self, is_crate: bool, single_file: bool) -> (contents: Vec<u8>)
        requires
            self.wf(),
        ensures
            contents@ == encode_utf8(self@.super_contents(is_crate, single_file)),
    {
        let mut text = String::new();
        generate_prefix(&mut text, is_crate, single_file);
        assert(text@ =~= prefix(is_crate, single_file));
        if single_file {
            if let Some(shared) = &self.shared_types {
                text.append(shared.as_str());
            }
            let ghost start = text@;
            let ghost sources = self@.contracts().map_values(|c: Seq<char>| self@.sources[c]);
            let count = self.bindings.len();
            let mut i: usize = 0;
            proof {
                self.lemma_contracts();
                assert(sources.take(0) =~= Seq::<Seq<char>>::empty());
            }
            while i < count
                invariant
                    i <= count,
                    self.wf(),
                    count == self@.contracts().len(),
                    self@.contracts() == order::listing(self.bindings@.dom()),
                    sources == self@.contracts().map_values(|c: Seq<char>| self@.sources[c]),
                    text@ == start + in_a_row(sources.take(i as int)),
                decreases count - i,
            {
                text.append(self.bindings.value(i).as_str());
                proof {
                    assert(sources.take(i + 1).drop_last() =~= sources.take(i as int));
                    assert(sources.take(i + 1).last() == sources[i as int]);
                    assert(text@ =~= start + in_a_row(sources.take(i + 1)));
                }
                i += 1;
            }
            assert(sources.take(i as int) =~= sources);
            assert(text@ =~= self@.super_contents(is_crate, single_file));
        } else {
            self.append_module_names(&mut text);
        }
        text.as_str().as_bytes_vec()
    }

    /// Adds what creates the `Cargo.toml`.
    fn write_cargo_toml(&self, actions: &mut Vec<FileAction>, name: &str, version: &str)
        ensures
            disk::plan(final(actions)@) == disk::plan(old(actions)@).push(
                (ActionView::CreateNew {
                    folder: Folder::Root,
                    name: "Cargo.toml"@,
                    contents: encode_utf8(cargo_toml(name@, version@)),
                }),
            ),
    {
        let contents = self.generate_cargo_toml(name, version);
        let action = FileAction::CreateNew { folder: Folder::Root, name: "Cargo.toml".to_owned(), contents };
        actions.push(action);
        assert(disk::plan(actions@) =~= disk::plan(old(actions)@).push(action@));
    }

    /// Adds what writes the `lib.rs` or `mod.rs`.
    fn write_super_file(&self, actions: &mut Vec<FileAction>, is_crate: bool, single_file: bool)
        requires
            self.wf(),
        ensures
            disk::plan(final(actions)@) == disk::plan(old(actions)@) + writes(
                seq![self@.super_file(is_crate, single_file)],
            ),
    {
        let contents = self.generate_super_contents(is_crate, single_file);
        let action = FileAction::Write {
            folder: folder_of(is_crate),
            name: super_name_of(is_crate).to_owned(),
            contents,
        };
        actions.push(action);
        assert(disk::plan(actions@) =~= disk::plan(old(actions)@) + writes(
            seq![self@.super_file(is_crate, single_file)],
        ));
    }

    /// Adds what writes the shared types and every contract to files of their own.
    fn write_bindings(&self, actions: &mut Vec<FileAction>, is_crate: bool)
        requires
            self.wf(),
        ensures
            disk::plan(final(actions)@) == disk::plan(old(actions)@) + writes(
                self@.binding_files(is_crate),
            ),
    {
        let folder = folder_of(is_crate);
        if let Some(shared) = &self.shared_types {
            proof {
                names::lemma_shared_types_name();
            }
            let action = FileAction::Write {
                folder,
                name: names::module_filename("shared_types"),
                contents: shared.as_str().as_bytes_vec(),
            };
            actions.push(action);
        }
        assert(disk::plan(actions@) =~= disk::plan(old(actions)@) + writes(self@.shared_file(is_crate)));
        let ghost start = disk::plan(actions@);
        let ghost contracts = self@.contracts();
        let ghost files = contracts.map_values(|c: Seq<char>| self@.contract_file(is_crate, c));
        let count = self.bindings.len();
        let mut i: usize = 0;
        proof {
            self.lemma_contracts();
            assert(writes(files.take(0)) =~= Seq::<ActionView>::empty());
        }
        while i < count
            invariant
                i <= count,
                self.wf(),
                folder == source_folder(is_crate),
                count == contracts.len(),
                contracts == self@.contracts(),
                contracts == order::listing(self.bindings@.dom()),
                files == contracts.map_values(|c: Seq<char>| self@.contract_file(is_crate, c)),
                disk::plan(actions@) == start + writes(files.take(i as int)),
            decreases count - i,
        {
            let ghost held = actions@;
            let action = FileAction::Write {
                folder,
                name: names::module_filename(self.bindings.key(i).as_str()),
                contents: self.bindings.value(i).as_str().as_bytes_vec(),
            };
            actions.push(action);
            proof {
                assert(disk::plan(actions@) =~= disk::plan(held).push(action@));
                assert(writes(files.take(i + 1)) =~= writes(files.take(i as int)).push(action@));
            }
            i += 1;
        }
        proof {
            assert(files.take(i as int) =~= files);
            assert(writes(self@.binding_files(is_crate)) =~= writes(self@.shared_file(is_crate)) + writes(
                files,
            ));
        }
    }

    /// What has to be done to write the bindings to a module.
    pub fn write_to_module(&self, single_file: bool) -> (actions: Vec<FileAction>)
        requires
            self.wf(),
        ensures
            disk::plan(actions@) == self@.module_plan(single_file),
    {
        let mut actions: Vec<FileAction> = Vec::new();
        actions.push(FileAction::CreateDir { folder: Folder::Root });
        assert(disk::plan(actions@) =~= seq![ActionView::CreateDir { folder: Folder::Root }]);
        self.write_super_file(&mut actions, false, single_file);
        if !single_file {
            self.write_bindings(&mut actions, false);
        }
        assert(disk::plan(actions@) =~= self@.module_plan(single_file));
        actions
    }

    /// What has to be done to write the bindings to a crate.
    pub fn write_to_crate(&self, name: &str, version: &str, single_file: bool) -> (actions: Vec<
        FileAction,
    >)
        requires
            self.wf(),
        ensures
            disk::plan(actions@) == self@.crate_plan(name@, version@, single_file),
    {
        let mut actions: Vec<FileAction> = Vec::new();
        actions.push(FileAction::CreateDir { folder: Folder::Src });
        assert(disk::plan(actions@) =~= seq![ActionView::CreateDir { folder: Folder::Src }]);
        self.write_cargo_toml(&mut actions, name, version);
        self.write_super_file(&mut actions, true, single_file);
        if !single_file {
            self.write_bindings(&mut actions, true);
        }
        assert(disk::plan(actions@) =~= self@.crate_plan(name@, version@, single_file));
        actions
    }

    /// Whether a contract's own file takes the place of that of the shared types.
    fn hides_shared_types(&self) -> (r: bool)
        requires
            self.wf(),
        ensures
            r == self@.hides_shared_file(),
    {
        let ghost contracts = self@.contracts();
        let count = self.bindings.len();
        let mut i: usize = 0;
        proof {
            self.lemma_contracts();
        }
        while i < count
            invariant
                i <= count,
                self.wf(),
                count == contracts.len(),
                contracts == order::listing(self.bindings@.dom()),
                self@.sources.dom() == self.bindings@.dom(),
                forall|j: int|
                    0 <= j < i ==> names::file_name(#[trigger] contracts[j]) != "shared_types.rs"@,
            decreases count - i,
        {
            let name = names::module_filename(self.bindings.key(i).as_str());
            if names::same(name.as_str(), "shared_types.rs") {
                return true;
            }
            i += 1;
        }
        proof {
            if self@.hides_shared_file() {
                let c = choose|c: Seq<char>| #[trigger]
                    self@.sources.dom().contains(c) && names::file_name(c) == "shared_types.rs"@;
                assert(contracts.to_set().contains(c));
                let j = choose|j: int| 0 <= j < contracts.len() && contracts[j] == c;
                assert(names::file_name(contracts[j]) != "shared_types.rs"@);
            }
        }
        false
    }

    /// Checks that what was found in the directory is what would be written to it: first the
    /// `lib.rs` or `mod.rs`, then, where there are several files, each of them in turn. The file of
    /// the shared types counts unless a contract is written over it.
    pub fn ensure_consistent_bindings(&self, disk: &Snapshot, is_crate: bool, single_file: bool) -> (r: Result<
        (),
        CheckError,
    >)
        requires
            self.wf(),
        ensures
            disk::outcome(r) == disk::checked_all(disk@, self@.expected_files(is_crate, single_file)),
    {
        let folder = folder_of(is_crate);
        let ghost first = seq![self@.super_file(is_crate, single_file)];
        let hidden = self.hides_shared_types();
        let ghost shared = if hidden {
            Seq::empty()
        } else {
            self@.shared_file(is_crate)
        };
        let ghost contracts = self@.contracts();
        let ghost files = contracts.map_values(|c: Seq<char>| self@.contract_file(is_crate, c));
        proof {
            disk::lemma_checked_one(disk@, first[0]);
            disk::lemma_checked_lists(disk@, first, Seq::empty());
            disk::lemma_checked_lists(disk@, first, shared + files);
            disk::lemma_checked_lists(disk@, shared, files);
            self.lemma_contracts();
            names::lemma_shared_types_name();
        }
        let contents = self.generate_super_contents(is_crate, single_file);
        match disk::check_file_in_dir(disk, folder, super_name_of(is_crate), &contents) {
            Ok(()) => {},
            Err(error) => {
                return Err(error);
            },
        }
        if !single_file {
            if !hidden {
                if let Some(text) = &self.shared_types {
                    proof {
                        disk::lemma_checked_one(disk@, shared[0]);
                    }
                    match check_binding_in_dir(disk, folder, "shared_types", text) {
                        Ok(()) => {},
                        Err(error) => {
                            return Err(error);
                        },
                    }
                }
            }
            let count = self.bindings.len();
            let mut i: usize = 0;
            assert(files.skip(0) =~= files);
            while i < count
                invariant
                    i <= count,
                    self.wf(),
                    folder == source_folder(is_crate),
                    count == contracts.len(),
                    contracts == self@.contracts(),
                    contracts == order::listing(self.bindings@.dom()),
                    files == contracts.map_values(|c: Seq<char>| self@.contract_file(is_crate, c)),
                    disk::checked_all(disk@, self@.expected_files(is_crate, single_file))
                        == disk::checked_all(disk@, files.skip(i as int)),
                decreases count - i,
            {
                proof {
                    assert(files.skip(i as int)[0] == files[i as int]);
                    assert(files.skip(i as int).drop_first() =~= files.skip(i + 1));
                }
                match check_binding_in_dir(
                    disk,
                    folder,
                    self.bindings.key(i).as_str(),
                    self.bindings.value(i),
                ) {
                    Ok(()) => {},
                    Err(error) => {
                        return Err(error);
                    },
                }
                i += 1;
            }
        }
        Ok(())
    }

    /// Checks that the crate that was found is what would be written.
    pub fn ensure_consistent_crate(
        &self,
        name: &str,
        version: &str,
        disk: &Snapshot,
        single_file: bool,
        check_cargo_toml: bool,
    ) -> (r: Result<(), CheckError>)
        requires
            self.wf(),
        ensures
            disk::outcome(r) == disk::checked_all(
                disk@,
                self@.crate_files(name@, version@, single_file, check_cargo_toml),
            ),
    {
        let ghost cargo = seq![cargo_file(name@, version@)];
        let ghost sources = self@.expected_files(true, single_file);
        proof {
            disk::lemma_checked_one(disk@, cargo[0]);
            disk::lemma_checked_lists(disk@, cargo, sources);
            disk::lemma_checked_lists(disk@, Seq::empty(), sources);
        }
        if check_cargo_toml {
            let contents = self.generate_cargo_toml(name, version);
            match disk::check_file_in_dir(disk, Folder::Root, "Cargo.toml", &contents) {
                Ok(()) => {},
                Err(error) => {
                    return Err(error);
                },
            }
        }
        self.ensure_consistent_bindings(disk, true, single_file)
    }

    /// Checks that the module that was found is what would be written.
    pub fn ensure_consistent_module(&self, disk: &Snapshot, single_file: bool) -> (r: Result<
        (),
        CheckError,
    >)
        requires
            self.wf(),
        ensures
            disk::outcome(r) == disk::checked_all(disk@, self@.expected_files(false, single_file)),
    {
        self.ensure_consistent_bindings(disk, false, single_file)
    }
}

/// The directory that holds the source files.
fn folder_of(is_crate: bool) -> (folder: Folder)
    ensures
        folder == source_folder(is_crate),
{
    if is_crate {
        Folder::Src
    } else {
        Folder::Root
    }
}

/// The name of the file that holds everything or declares the other modules.
fn super_name_of(is_crate: bool) -> (name: &'static str)
    ensures
        name@ == super_name(is_crate),
{
    if is_crate {
        "lib.rs"
    } else {
        "mod.rs"
    }
}

/// Checks that the file of a contract was found with its source text.
fn check_binding_in_dir(disk: &Snapshot, folder: Folder, contract: &str, source: &String) -> (r: Result<
    (),
    CheckError,
>)
    ensures
        disk::outcome(r) == disk::checked(
            disk@,
            (FileView {
                folder,
                name: names::file_name(contract@),
                contents: encode_utf8(source@),
            }),
        ),
{
    let name = names::module_filename(contract);
    let contents = source.as_str().as_bytes_vec();
    disk::check_file_in_dir(disk, folder, name.as_str(), &contents)
}

impl InnerView {
    /// The source text is that of the drafts as `format` leaves it.
    pub open spec fn renders<F: Fn(&String) -> Option<String>>(self, format: F, drafts: DraftsView) -> bool {
        &&& self.sources.dom() == drafts.bindings.dom()
        &&& forall|contract: Seq<char>| #[trigger]
            self.sources.dom().contains(contract) ==> drafts.bindings[contract].reads(
                format,
                self.sources[contract],
            )
        &&& match drafts.shared_types {
            Some(draft) => self.shared_types is Some && draft.reads(format, self.shared_types->0),
            None => self.shared_types is None,
        }
    }
}

impl BindingDrafts {
    /// The source text of all bindings, formatted by `format` where that is asked for.
    pub fn render<F: Fn(&String) -> Option<String>>(&self, format: &F) -> (inner: MultiBindingsInner)
        requires
            self.wf(),
            forall|raw: String| #[trigger] call_requires(*format, (&raw,)),
        ensures
            inner.wf(),
            inner@.sources.dom().finite(),
            inner@.renders(*format, self@),
    {
        let mut bindings: NameMap<String> = NameMap::new();
        let count = self.bindings.len();
        let ghost contracts = order::listing(self.bindings@.dom());
        let mut i: usize = 0;
        while i < count
            invariant
                i <= count,
                count == contracts.len(),
                self.wf(),
                bindings.wf(),
                contracts == order::listing(self.bindings@.dom()),
                contracts.to_set() == self.bindings@.dom(),
                forall|raw: String| #[trigger] call_requires(*format, (&raw,)),
                forall|c: Seq<char>| #[trigger] bindings@.dom().contains(c) ==> self@.bindings.dom().contains(c),
                forall|j: int| 0 <= j < i ==> bindings@.dom().contains(#[trigger] contracts[j]),
                forall|c: Seq<char>| #[trigger]
                    bindings@.dom().contains(c) ==> self@.bindings[c].reads(*format, bindings@[c]@),
            decreases count - i,
        {
            let text = self.bindings.value(i).source(format);
            bindings.insert(self.bindings.key(i).clone(), text);
            i += 1;
        }
        let shared_types = match &self.shared_types {
            Some(shared) => Some(shared.source(format)),
            None => None,
        };
        let inner = MultiBindingsInner { bindings, shared_types };
        proof {
            inner.lemma_contracts();
            assert forall|c: Seq<char>| self@.bindings.dom().contains(c) implies bindings@.dom().contains(c) by {
                assert(contracts.to_set().contains(c));
                let j = choose|j: int| 0 <= j < contracts.len() && contracts[j] == c;
                assert(bindings@.dom().contains(contracts[j]));
            }
            assert(self@.bindings.dom() =~= self.bindings@.dom());
            assert(inner@.sources.dom() =~= self@.bindings.dom());
        }
        inner
    }
}

/// The bindings of many contracts, before they are written.
///
/// They can be written to a module or to a crate, and held against what was written before.
pub struct MultiBindings {
    expansion: MultiExpansionResult,
    rustfmt: bool,
}

pub struct BindingsView {
    pub expansion: ExpansionView,
    /// Whether the source text is to be formatted.
    pub rustfmt: bool,
}

impl View for MultiBindings {
    type V = BindingsView;

    closed spec fn view(&self) -> BindingsView {
        BindingsView { expansion: self.expansion@, rustfmt: self.rustfmt }
    }
}

impl BindingsView {
    /// The code of all files.
    pub open spec fn drafts(self, single_file: bool) -> DraftsView {
        self.expansion.drafts(single_file, self.rustfmt)
    }
}

impl MultiBindings {
    /// The bindings that an expansion gives.
    pub fn new(expansion: MultiExpansionResult, rustfmt: bool) -> (bindings: Self)
        ensures
            bindings@ == (BindingsView { expansion: expansion@, rustfmt }),
    {
        MultiBindings { expansion, rustfmt }
    }

    /// The number of contracts.
    pub fn len(&self) -> (n: usize)
        ensures
            n == self@.expansion.contracts.len(),
    {
        self.expansion.len()
    }

    /// Whether there is no contract.
    pub fn is_empty(&self) -> (r: bool)
        ensures
            r == (self@.expansion.contracts.len() == 0),
    {
        self.expansion.len() == 0
    }

    /// The source text of all bindings, formatted by `format` where that is asked for.
    pub fn into_inner<F: Fn(&String) -> Option<String>>(self, single_file: bool, format: F) -> (inner: MultiBindingsInner)
        requires
            forall|raw: String| #[trigger] call_requires(format, (&raw,)),
        ensures
            inner.wf(),
            inner@.sources.dom().finite(),
            inner@.renders(format, self@.drafts(single_file)),
    {
        self.expansion.into_bindings(single_file, self.rustfmt).render(&format)
    }

    /// What has to be done to write the bindings to a module.
    pub fn write_to_module<F: Fn(&String) -> Option<String>>(self, single_file: bool, format: F) -> (actions: Vec<
        FileAction,
    >)
        requires
            forall|raw: String| #[trigger] call_requires(format, (&raw,)),
        ensures
            exists|inner: InnerView|
                {
                    &&& #[trigger] inner.renders(format, self@.drafts(single_file))
                    &&& inner.sources.dom().finite()
                    &&& disk::plan(actions@) == inner.module_plan(single_file)
                },
    {
        let inner = self.into_inner(single_file, format);
        let actions = inner.write_to_module(single_file);
        assert(inner@.renders(format, self@.drafts(single_file)));
        actions
    }

    /// What has to be done to write the bindings to a crate. Its `Cargo.toml` must be new.
    pub fn write_to_crate<F: Fn(&String) -> Option<String>>(
        self,
        name: &str,
        version: &str,
        single_file: bool,
        format: F,
    ) -> (actions: Vec<FileAction>)
        requires
            forall|raw: String| #[trigger] call_requires(format, (&raw,)),
        ensures
            exists|inner: InnerView|
                {
                    &&& #[trigger] inner.renders(format, self@.drafts(single_file))
                    &&& inner.sources.dom().finite()
                    &&& disk::plan(actions@) == inner.crate_plan(name@, version@, single_file)
                },
    {
        let inner = self.into_inner(single_file, format);
        let actions = inner.write_to_crate(name, version, single_file);
        assert(inner@.renders(format, self@.drafts(single_file)));
        actions
    }

    /// Checks that the crate that was found matches the bindings, so that one learns when they
    /// have to be written again.
    pub fn ensure_consistent_crate<F: Fn(&String) -> Option<String>>(
        self,
        name: &str,
        version: &str,
        disk: &Snapshot,
        single_file: bool,
        check_cargo_toml: bool,
        format: F,
    ) -> (r: Result<(), CheckError>)
        requires
            forall|raw: String| #[trigger] call_requires(format, (&raw,)),
        ensures
            exists|inner: InnerView|
                {
                    &&& #[trigger] inner.renders(format, self@.drafts(single_file))
                    &&& inner.sources.dom().finite()
                    &&& disk::outcome(r) == disk::checked_all(
                        disk@,
                        inner.crate_files(name@, version@, single_file, check_cargo_toml),
                    )
                },
    {
        let inner = self.into_inner(single_file, format);
        let r = inner.ensure_consistent_crate(name, version, disk, single_file, check_cargo_toml);
        assert(inner@.renders(format, self@.drafts(single_file)));
        r
    }

    /// Checks that the module that was found matches the bindings, so that one learns when they
    /// have to be written again.
    pub fn ensure_consistent_module<F: Fn(&String) -> Option<String>>(
        self,
        disk: &Snapshot,
        single_file: bool,
        format: F,
    ) -> (r: Result<(), CheckError>)
        requires
            forall|raw: String| #[trigger] call_requires(format, (&raw,)),
        ensures
            exists|inner: InnerView|
                {
                    &&& #[trigger] inner.renders(format, self@.drafts(single_file))
                    &&& inner.sources.dom().finite()
                    &&& disk::outcome(r) == disk::checked_all(
                        disk@,
                        inner.expected_files(false, single_file),
                    )
                },
    {
        let inner = self.into_inner(single_file, format);
        let r = inner.ensure_consistent_module(disk, single_file);
        assert(inner@.renders(format, self@.drafts(single_file)));
        r
    }
}

} // verus!
