//! Laws of layout: what stands in which file, what is done to write it, and what a check asks for.

use crate::bindings;
use crate::bindings::InnerView;
use crate::disk;
use crate::disk::{ActionView, Disk, ErrorView, FileView, Folder};
use crate::laws::files;
use crate::names;
use crate::order;
use vstd::prelude::*;
use vstd::utf8::encode_utf8;

verus! {

/// `list` holds the names of the set, each once, sorted.
pub open spec fn sorts(list: Seq<Seq<char>>, names: Set<Seq<char>>) -> bool {
    &&& forall|a: int, b: int|
        0 <= a < b < list.len() ==> order::before(#[trigger] list[a], #[trigger] list[b])
    &&& forall|name: Seq<char>| #[trigger] list.contains(name) <==> names.contains(name)
}

proof fn lemma_sorts(names: Set<Seq<char>>)
    requires
        names.finite(),
    ensures
        sorts(order::listing(names), names),
{
    order::law_listing(names);
    let list = order::listing(names);
    assert forall|name: Seq<char>| #[trigger] list.contains(name) <==> names.contains(name) by {
        assert(list.to_set().contains(name) == list.contains(name));
    }
}

/// The first lines of the `lib.rs` or `mod.rs`, line by line.
pub proof fn law_first_lines(is_crate: bool, single_file: bool)
    ensures
        bindings::prefix(is_crate, single_file) == "#![allow(clippy::all)]\n"@ + (if is_crate {
            "//! This lib contains abigen! generated bindings for solidity contracts.\n"@
        } else {
            "//! This module contains abigen! generated bindings for solidity contracts.\n"@
        }) + "//! This is autogenerated code.\n//! Do not manually edit these files.\n"@ + (if !is_crate
            && single_file {
            "//! This file may be overwritten by the codegen system at any time.\n"@
        } else {
            "//! These files may be overwritten by the codegen system at any time.\n"@
        }),
{
    lemma_second_line(is_crate);
    lemma_middle_lines();
    lemma_last_line(is_crate, single_file);
    let second = "//! This "@ + (if is_crate {
        "lib"@
    } else {
        "module"@
    }) + " contains abigen! generated bindings for solidity contracts.\n"@;
    let middle = "//! This is autogenerated code.\n"@ + "//! Do not manually edit these files.\n"@;
    let last = "//! "@ + (if single_file && !is_crate {
        "This file"@
    } else {
        "These files"@
    }) + " may be overwritten by the codegen system at any time.\n"@;
    assert(bindings::prefix(is_crate, single_file) =~= "#![allow(clippy::all)]\n"@ + second + middle + last);
}

proof fn lemma_second_line(is_crate: bool)
    ensures
        "//! This "@ + (if is_crate {
            "lib"@
        } else {
            "module"@
        }) + " contains abigen! generated bindings for solidity contracts.\n"@ == (if is_crate {
            "//! This lib contains abigen! generated bindings for solidity contracts.\n"@
        } else {
            "//! This module contains abigen! generated bindings for solidity contracts.\n"@
        }),
{
    reveal_strlit("//! This ");
    reveal_strlit("lib");
    reveal_strlit("module");
    reveal_strlit(" contains abigen! generated bindings for solidity contracts.\n");
    reveal_strlit("//! This lib contains abigen! generated bindings for solidity contracts.\n");
    reveal_strlit("//! This module contains abigen! generated bindings for solidity contracts.\n");
}

proof fn lemma_middle_lines()
    ensures
        "//! This is autogenerated code.\n"@ + "//! Do not manually edit these files.\n"@
            == "//! This is autogenerated code.\n//! Do not manually edit these files.\n"@,
{
    reveal_strlit("//! This is autogenerated code.\n");
    reveal_strlit("//! Do not manually edit these files.\n");
    reveal_strlit("//! This is autogenerated code.\n//! Do not manually edit these files.\n");
}

proof fn lemma_last_line(is_crate: bool, single_file: bool)
    ensures
        "//! "@ + (if single_file && !is_crate {
            "This file"@
        } else {
            "These files"@
        }) + " may be overwritten by the codegen system at any time.\n"@ == (if !is_crate && single_file {
            "//! This file may be overwritten by the codegen system at any time.\n"@
        } else {
            "//! These files may be overwritten by the codegen system at any time.\n"@
        }),
{
    reveal_strlit("//! ");
    reveal_strlit("This file");
    reveal_strlit("These files");
    reveal_strlit(" may be overwritten by the codegen system at any time.\n");
    reveal_strlit("//! This file may be overwritten by the codegen system at any time.\n");
    reveal_strlit("//! These files may be overwritten by the codegen system at any time.\n");
}

/// The `Cargo.toml`: the name and the version stand in a text that does not depend on them.
pub proof fn law_cargo_toml_text(name: Seq<char>, version: Seq<char>)
    ensures
        bindings::cargo_toml(name, version) == "[package]\nname = \""@ + name + "\"\nversion = \""@ + version
            + "\"\nedition = \"2021\"\n\n"@
            + "# See more keys and their definitions at https://doc.rust-lang.org/cargo/reference/manifest.html\n"@
            + "\n[dependencies]\n\n"@
            + "ethers = { git = \"https://github.com/gakonst/ethers-rs\", default-features = false }\n"@
            + "serde_json = \"1.0.79\"\n\n"@,
{
    lemma_cargo_lines();
    let see = "# See more keys and their definitions at https://doc.rust-lang.org/cargo/reference/manifest.html\n"@;
    let ethers = "ethers = { git = \"https://github.com/gakonst/ethers-rs\", default-features = false }\n"@;
    let a0 = "[package]\n"@ + "name = \""@ + name;
    let a1 = a0 + "\"\n"@ + "version = \""@;
    assert(a1 =~= "[package]\nname = \""@ + name + "\"\nversion = \""@);
    let a2 = a1 + version;
    let a3 = a2 + "\"\n"@ + "edition = \"2021\"\n"@ + "\n"@;
    assert(a3 =~= a2 + ("\"\n"@ + "edition = \"2021\"\n"@ + "\n"@));
    let a4 = a3 + see;
    let a5 = a4 + "\n"@ + "[dependencies]\n"@ + "\n"@;
    assert(a5 =~= a4 + ("\n"@ + "[dependencies]\n"@ + "\n"@));
    let a6 = a5 + ethers;
    let a7 = a6 + "serde_json = \"1.0.79\"\n"@ + "\n"@;
    assert(a7 =~= a6 + ("serde_json = \"1.0.79\"\n"@ + "\n"@));
    assert(bindings::cargo_toml(name, version) == a7);
}

proof fn lemma_cargo_lines()
    ensures
        "[package]\n"@ + "name = \""@ == "[package]\nname = \""@,
        "\"\n"@ + "version = \""@ == "\"\nversion = \""@,
        "\"\n"@ + "edition = \"2021\"\n"@ + "\n"@ == "\"\nedition = \"2021\"\n\n"@,
        "\n"@ + "[dependencies]\n"@ + "\n"@ == "\n[dependencies]\n\n"@,
        "serde_json = \"1.0.79\"\n"@ + "\n"@ == "serde_json = \"1.0.79\"\n\n"@,
{
    reveal_strlit("[package]\n");
    reveal_strlit("name = \"");
    reveal_strlit("[package]\nname = \"");
    reveal_strlit("\"\n");
    reveal_strlit("version = \"");
    reveal_strlit("\"\nversion = \"");
    reveal_strlit("edition = \"2021\"\n");
    reveal_strlit("\n");
    reveal_strlit("\"\nedition = \"2021\"\n\n");
    reveal_strlit("[dependencies]\n");
    reveal_strlit("\n[dependencies]\n\n");
    reveal_strlit("serde_json = \"1.0.79\"\n");
    reveal_strlit("serde_json = \"1.0.79\"\n\n");
}

/// The text of the shared types, or nothing.
pub open spec fn shared_text(inner: InnerView) -> Seq<char> {
    if inner.shared_types is Some {
        inner.shared_types->0
    } else {
        Seq::empty()
    }
}

proof fn lemma_row_is_flatten(texts: Seq<Seq<char>>)
    ensures
        bindings::in_a_row(texts) == texts.flatten(),
    decreases texts.len(),
{
    texts.lemma_flatten_and_flatten_alt_are_equivalent();
    if texts.len() > 0 {
        lemma_row_is_flatten(texts.drop_last());
        texts.drop_last().lemma_flatten_and_flatten_alt_are_equivalent();
    }
}

proof fn lemma_declarations_are_flatten(modules: Seq<Seq<char>>)
    ensures
        bindings::declarations(modules) == modules.map_values(
            |module: Seq<char>| "pub mod "@ + module + ";\n"@,
        ).flatten(),
    decreases modules.len(),
{
    let lines = modules.map_values(|module: Seq<char>| "pub mod "@ + module + ";\n"@);
    lines.lemma_flatten_and_flatten_alt_are_equivalent();
    if modules.len() > 0 {
        let rest = modules.drop_last();
        let fewer = rest.map_values(|module: Seq<char>| "pub mod "@ + module + ";\n"@);
        lemma_declarations_are_flatten(rest);
        fewer.lemma_flatten_and_flatten_alt_are_equivalent();
        assert(lines.drop_last() =~= fewer);
        assert(bindings::declarations(modules) =~= fewer.flatten() + lines.last());
    }
}

/// Behind its first lines a single file holds the text of the shared types once, where there are
/// any, and then the text of every contract once, in the order of the names, for a crate as for a
/// module.
pub proof fn law_contents_of_a_single_file(inner: InnerView, is_crate: bool) -> (list: Seq<Seq<char>>)
    requires
        inner.sources.dom().finite(),
    ensures
        sorts(list, inner.sources.dom()),
        inner.super_contents(is_crate, true) == bindings::prefix(is_crate, true) + shared_text(inner)
            + list.map_values(|c: Seq<char>| inner.sources[c]).flatten(),
        inner.super_contents(true, true).skip(bindings::prefix(true, true).len() as int)
            == inner.super_contents(false, true).skip(bindings::prefix(false, true).len() as int),
{
    lemma_sorts(inner.sources.dom());
    let list = inner.contracts();
    let texts = list.map_values(|c: Seq<char>| inner.sources[c]);
    lemma_row_is_flatten(texts);
    assert forall|b: bool| #[trigger] inner.super_contents(b, true) == bindings::prefix(b, true)
        + shared_text(inner) + texts.flatten() by {
        assert(inner.super_contents(b, true) =~= bindings::prefix(b, true) + shared_text(inner)
            + texts.flatten());
    }
    let rest = shared_text(inner) + texts.flatten();
    assert(inner.super_contents(true, true).skip(bindings::prefix(true, true).len() as int) =~= rest);
    assert(inner.super_contents(false, true).skip(bindings::prefix(false, true).len() as int) =~= rest);
    list
}

/// Whether a module is declared: that of a contract, or that of the shared types where there are
/// any.
pub open spec fn has_module(inner: InnerView, module: Seq<char>) -> bool {
    ||| exists|c: Seq<char>| #[trigger]
        inner.sources.dom().contains(c) && module == names::module_name(c)
    ||| inner.shared_types is Some && module == "shared_types"@
}

/// Behind its first lines the `lib.rs` or `mod.rs` of many files holds one line for every module,
/// sorted by name, for a crate as for a module.
pub proof fn law_contents_of_many_files(inner: InnerView, is_crate: bool) -> (list: Seq<Seq<char>>)
    requires
        inner.sources.dom().finite(),
    ensures
        forall|a: int, b: int|
            0 <= a < b < list.len() ==> order::before(#[trigger] list[a], #[trigger] list[b]),
        forall|module: Seq<char>| #[trigger] list.contains(module) <==> has_module(inner, module),
        inner.super_contents(is_crate, false) == bindings::prefix(is_crate, false) + list.map_values(
            |module: Seq<char>| "pub mod "@ + module + ";\n"@,
        ).flatten(),
        inner.super_contents(true, false).skip(bindings::prefix(true, false).len() as int)
            == inner.super_contents(false, false).skip(bindings::prefix(false, false).len() as int),
{
    files::law_modules_are_declared_in_order(inner);
    let list = order::listing(inner.modules());
    lemma_declarations_are_flatten(list);
    assert forall|module: Seq<char>| #[trigger] list.contains(module) <==> has_module(inner, module) by {
        assert(list.to_set().contains(module) == list.contains(module));
    }
    let rest = bindings::declarations(list);
    assert(inner.super_contents(true, false).skip(bindings::prefix(true, false).len() as int) =~= rest);
    assert(inner.super_contents(false, false).skip(bindings::prefix(false, false).len() as int) =~= rest);
    list
}

/// The file that holds the text of the contract: named after its module, `.rs` behind it.
pub open spec fn file_of(inner: InnerView, folder: Folder, contract: Seq<char>) -> ActionView {
    ActionView::Write {
        folder,
        name: names::module_name(contract) + ".rs"@,
        contents: encode_utf8(inner.sources[contract]),
    }
}

/// What writes the files beside the `lib.rs` or `mod.rs`.
pub open spec fn writes_beside(
    inner: InnerView,
    folder: Folder,
    single_file: bool,
    list: Seq<Seq<char>>,
) -> Seq<ActionView> {
    if single_file {
        Seq::empty()
    } else if inner.shared_types is Some {
        seq![
            ActionView::Write {
                folder,
                name: "shared_types.rs"@,
                contents: encode_utf8(inner.shared_types->0),
            },
        ] + list.map_values(|c: Seq<char>| file_of(inner, folder, c))
    } else {
        list.map_values(|c: Seq<char>| file_of(inner, folder, c))
    }
}

proof fn lemma_writes_beside(inner: InnerView, is_crate: bool, single_file: bool)
    ensures
        bindings::writes(inner.source_files(is_crate, single_file)) == seq![
            ActionView::Write {
                folder: bindings::source_folder(is_crate),
                name: bindings::super_name(is_crate),
                contents: encode_utf8(inner.super_contents(is_crate, single_file)),
            },
        ] + writes_beside(
            inner,
            bindings::source_folder(is_crate),
            single_file,
            inner.contracts(),
        ),
{
    assert(bindings::writes(inner.source_files(is_crate, single_file)) =~= seq![
        ActionView::Write {
            folder: bindings::source_folder(is_crate),
            name: bindings::super_name(is_crate),
            contents: encode_utf8(inner.super_contents(is_crate, single_file)),
        },
    ] + writes_beside(inner, bindings::source_folder(is_crate), single_file, inner.contracts()));
}

/// To write a module its directory is created, then `mod.rs` is written, and for many files the
/// shared types, where there are any, and every contract in the order of the names.
pub proof fn law_plan_of_a_module(inner: InnerView, single_file: bool) -> (list: Seq<Seq<char>>)
    requires
        inner.sources.dom().finite(),
    ensures
        sorts(list, inner.sources.dom()),
        inner.module_plan(single_file) == seq![
            ActionView::CreateDir { folder: Folder::Root },
            ActionView::Write {
                folder: Folder::Root,
                name: "mod.rs"@,
                contents: encode_utf8(inner.super_contents(false, single_file)),
            },
        ] + writes_beside(inner, Folder::Root, single_file, list),
{
    lemma_sorts(inner.sources.dom());
    lemma_writes_beside(inner, false, single_file);
    assert(inner.module_plan(single_file) =~= seq![
        ActionView::CreateDir { folder: Folder::Root },
        ActionView::Write {
            folder: Folder::Root,
            name: "mod.rs"@,
            contents: encode_utf8(inner.super_contents(false, single_file)),
        },
    ] + writes_beside(inner, Folder::Root, single_file, inner.contracts()));
    inner.contracts()
}

/// To write a crate its directories are created, then a new `Cargo.toml`, then `lib.rs`, and for
/// many files the shared types, where there are any, and every contract in the order of the names.
pub proof fn law_plan_of_a_crate(
    inner: InnerView,
    name: Seq<char>,
    version: Seq<char>,
    single_file: bool,
) -> (list: Seq<Seq<char>>)
    requires
        inner.sources.dom().finite(),
    ensures
        sorts(list, inner.sources.dom()),
        inner.crate_plan(name, version, single_file) == seq![
            ActionView::CreateDir { folder: Folder::Src },
            ActionView::CreateNew {
                folder: Folder::Root,
                name: "Cargo.toml"@,
                contents: encode_utf8(bindings::cargo_toml(name, version)),
            },
            ActionView::Write {
                folder: Folder::Src,
                name: "lib.rs"@,
                contents: encode_utf8(inner.super_contents(true, single_file)),
            },
        ] + writes_beside(inner, Folder::Src, single_file, list),
{
    lemma_sorts(inner.sources.dom());
    lemma_writes_beside(inner, true, single_file);
    assert(inner.crate_plan(name, version, single_file) =~= seq![
        ActionView::CreateDir { folder: Folder::Src },
        ActionView::CreateNew {
            folder: Folder::Root,
            name: "Cargo.toml"@,
            contents: encode_utf8(bindings::cargo_toml(name, version)),
        },
        ActionView::Write {
            folder: Folder::Src,
            name: "lib.rs"@,
            contents: encode_utf8(inner.super_contents(true, single_file)),
        },
    ] + writes_beside(inner, Folder::Src, single_file, inner.contracts()));
    inner.contracts()
}

/// Whether the disk has the directory and in it the file with exactly that text.
pub open spec fn has_text(disk: Disk, folder: Folder, name: Seq<char>, text: Seq<char>) -> bool {
    &&& disk.folders.contains(folder)
    &&& disk.files.dom().contains((folder, name))
    &&& disk.files[(folder, name)] == encode_utf8(text)
}

/// Whether all source files are there: the `lib.rs` or `mod.rs`, and for many files that of every
/// contract, and that of the shared types where there are any and no contract has a file of that
/// name.
pub open spec fn has_sources(
    disk: Disk,
    inner: InnerView,
    folder: Folder,
    name: Seq<char>,
    contents: Seq<char>,
    single_file: bool,
) -> bool {
    &&& has_text(disk, folder, name, contents)
    &&& !single_file ==> forall|c: Seq<char>| #[trigger]
        inner.sources.dom().contains(c) ==> has_text(
            disk,
            folder,
            names::module_name(c) + ".rs"@,
            inner.sources[c],
        )
    &&& !single_file && inner.shared_types is Some && (forall|c: Seq<char>| #[trigger]
        inner.sources.dom().contains(c) ==> names::module_name(c) != "shared_types"@) ==> has_text(
        disk,
        folder,
        "shared_types.rs"@,
        inner.shared_types->0,
    )
}

proof fn lemma_hidden(inner: InnerView)
    ensures
        inner.hides_shared_file() <==> exists|c: Seq<char>| #[trigger]
            inner.sources.dom().contains(c) && names::module_name(c) == "shared_types"@,
{
    reveal_strlit("shared_types");
    reveal_strlit(".rs");
    reveal_strlit("shared_types.rs");
    assert("shared_types.rs"@ =~= "shared_types"@ + ".rs"@);
    assert forall|c: Seq<char>| (#[trigger] names::file_name(c) == "shared_types.rs"@) == (
    names::module_name(c) == "shared_types"@) by {
        let module = names::module_name(c);
        assert(module =~= (module + ".rs"@).take(module.len() as int));
        assert("shared_types"@ =~= "shared_types.rs"@.take(12));
    }
    if inner.hides_shared_file() {
        let c = choose|c: Seq<char>| #[trigger]
            inner.sources.dom().contains(c) && names::file_name(c) == "shared_types.rs"@;
        assert(names::module_name(c) == "shared_types"@);
    }
    if exists|c: Seq<char>| #[trigger]
        inner.sources.dom().contains(c) && names::module_name(c) == "shared_types"@ {
        let c = choose|c: Seq<char>| #[trigger]
            inner.sources.dom().contains(c) && names::module_name(c) == "shared_types"@;
        assert(names::file_name(c) == "shared_types.rs"@);
    }
}

proof fn lemma_sources_checked(disk: Disk, inner: InnerView, is_crate: bool, single_file: bool)
    requires
        inner.sources.dom().finite(),
    ensures
        disk::checked_all(disk, inner.expected_files(is_crate, single_file)) is Ok <==> has_sources(
            disk,
            inner,
            bindings::source_folder(is_crate),
            bindings::super_name(is_crate),
            inner.super_contents(is_crate, single_file),
            single_file,
        ),
{
    let files = inner.expected_files(is_crate, single_file);
    let folder = bindings::source_folder(is_crate);
    let shared = if inner.hides_shared_file() {
        Seq::empty()
    } else {
        inner.shared_file(is_crate)
    };
    let contracts = inner.contracts();
    let of_contracts = contracts.map_values(|c: Seq<char>| inner.contract_file(is_crate, c));
    let n = shared.len();
    files::law_check_is_exact(disk, files);
    lemma_hidden(inner);
    lemma_sorts(inner.sources.dom());
    assert(files[0] == inner.super_file(is_crate, single_file));
    if disk::checked_all(disk, files) is Ok {
        assert(has_text(
            disk,
            folder,
            bindings::super_name(is_crate),
            inner.super_contents(is_crate, single_file),
        ));
        if !single_file {
            assert forall|c: Seq<char>| #[trigger] inner.sources.dom().contains(c) implies has_text(
                disk,
                folder,
                names::module_name(c) + ".rs"@,
                inner.sources[c],
            ) by {
                assert(contracts.contains(c));
                let k = choose|k: int| 0 <= k < contracts.len() && contracts[k] == c;
                assert(files[1 + n + k] == of_contracts[k]);
            }
            if inner.shared_types is Some && !inner.hides_shared_file() {
                assert(files[1] == shared[0]);
            }
        }
    }
    if has_sources(
        disk,
        inner,
        folder,
        bindings::super_name(is_crate),
        inner.super_contents(is_crate, single_file),
        single_file,
    ) {
        assert forall|i: int| 0 <= i < files.len() implies {
            &&& disk.folders.contains((#[trigger] files[i]).folder)
            &&& disk.files.dom().contains((files[i].folder, files[i].name))
            &&& disk.files[(files[i].folder, files[i].name)] == files[i].contents
        } by {
            if i > n {
                assert(files[i] == of_contracts[i - 1 - n]);
                let c = contracts[i - 1 - n];
                assert(contracts.contains(c));
                assert(inner.sources.dom().contains(c));
            } else if i > 0 {
                assert(files[i] == shared[i - 1]);
            }
        }
    }
}

/// A module is up to date if and only if `mod.rs` is there with its contents, and for many files
/// every contract, and the shared types where there are any and no contract takes their place.
pub proof fn law_when_a_module_is_up_to_date(disk: Disk, inner: InnerView, single_file: bool)
    requires
        inner.sources.dom().finite(),
    ensures
        disk::checked_all(disk, inner.expected_files(false, single_file)) is Ok <==> has_sources(
            disk,
            inner,
            Folder::Root,
            "mod.rs"@,
            inner.super_contents(false, single_file),
            single_file,
        ),
{
    lemma_sources_checked(disk, inner, false, single_file);
}

/// A crate is up to date if and only if `src/lib.rs` is there with its contents, and for many files
/// the others beside it, and, where it is asked for, the `Cargo.toml`.
pub proof fn law_when_a_crate_is_up_to_date(
    disk: Disk,
    inner: InnerView,
    name: Seq<char>,
    version: Seq<char>,
    single_file: bool,
    check_cargo_toml: bool,
)
    requires
        inner.sources.dom().finite(),
    ensures
        disk::checked_all(disk, inner.crate_files(name, version, single_file, check_cargo_toml)) is Ok
            <==> {
            &&& check_cargo_toml ==> has_text(
                disk,
                Folder::Root,
                "Cargo.toml"@,
                bindings::cargo_toml(name, version),
            )
            &&& has_sources(
                disk,
                inner,
                Folder::Src,
                "lib.rs"@,
                inner.super_contents(true, single_file),
                single_file,
            )
        },
{
    let cargo = bindings::cargo_file(name, version);
    let expected = inner.expected_files(true, single_file);
    lemma_sources_checked(disk, inner, true, single_file);
    disk::lemma_checked_one(disk, cargo);
    disk::lemma_checked_lists(disk, seq![cargo], expected);
    disk::lemma_checked_lists(disk, Seq::empty(), expected);
}

/// What is wrong with a file: its directory is missing, or else the file is, or else it holds
/// something else. Where none of this holds, nothing is wrong.
pub proof fn law_what_is_wrong_with_a_file(disk: Disk, file: FileView)
    ensures
        ({
            let place = (file.folder, file.name);
            let r = disk::checked(disk, file);
            &&& r == Err::<(), ErrorView>(ErrorView::NotADirectory { folder: file.folder })
                <==> !disk.folders.contains(file.folder)
            &&& r == Err::<(), ErrorView>(
                ErrorView::NotAFile { folder: file.folder, name: file.name },
            ) <==> disk.folders.contains(file.folder) && !disk.files.dom().contains(place)
            &&& r == Err::<(), ErrorView>(
                ErrorView::OutOfDate { folder: file.folder, name: file.name },
            ) <==> disk.folders.contains(file.folder) && disk.files.dom().contains(place)
                && disk.files[place] != file.contents
            &&& r is Ok <==> disk.folders.contains(file.folder) && disk.files.dom().contains(place)
                && disk.files[place] == file.contents
        }),
{
}

/// The first file that is asked for is the one that a failed check speaks of first: the
/// `Cargo.toml` where it is asked for, then the `lib.rs` or `mod.rs`.
pub proof fn law_order_of_the_checks(
    disk: Disk,
    inner: InnerView,
    name: Seq<char>,
    version: Seq<char>,
    single_file: bool,
)
    ensures
        disk::checked(disk, bindings::cargo_file(name, version)) is Err ==> disk::checked_all(
            disk,
            inner.crate_files(name, version, single_file, true),
        ) == disk::checked(disk, bindings::cargo_file(name, version)),
        disk::checked(disk, inner.super_file(true, single_file)) is Err ==> disk::checked_all(
            disk,
            inner.crate_files(name, version, single_file, false),
        ) == disk::checked(disk, inner.super_file(true, single_file)),
        disk::checked(disk, inner.super_file(false, single_file)) is Err ==> disk::checked_all(
            disk,
            inner.expected_files(false, single_file),
        ) == disk::checked(disk, inner.super_file(false, single_file)),
{
    assert(inner.crate_files(name, version, single_file, true)[0] == bindings::cargo_file(
        name,
        version,
    ));
    assert(inner.crate_files(name, version, single_file, false)[0] == inner.super_file(
        true,
        single_file,
    ));
    assert(inner.expected_files(false, single_file)[0] == inner.super_file(false, single_file));
}

/// What an action does to the disk: a directory is there, with the one that it is in; a file has its
/// contents, if its directory was there, and for a new file, if it was not there. All else stays.
pub proof fn law_what_an_action_does(disk: Disk, folder: Folder, name: Seq<char>, contents: Seq<u8>)
    ensures
        ({
            let place = (folder, name);
            let write = disk.after(ActionView::Write { folder, name, contents });
            let new = disk.after(ActionView::CreateNew { folder, name, contents });
            let create = disk.after(ActionView::CreateDir { folder });
            &&& create is Some
            &&& create->0.files == disk.files
            &&& forall|f: Folder| #[trigger]
                create->0.folders.contains(f) <==> disk.folders.contains(f) || f == folder || f
                    == Folder::Root
            &&& write is Some <==> disk.folders.contains(folder)
            &&& new is Some <==> disk.folders.contains(folder) && !disk.files.dom().contains(place)
            &&& new is Some ==> new == write
            &&& write is Some ==> {
                &&& write->0.folders == disk.folders
                &&& write->0.files.dom().contains(place)
                &&& write->0.files[place] == contents
                &&& forall|other: (Folder, Seq<char>)|
                    other != place ==> (#[trigger] write->0.files.dom().contains(other)
                        == disk.files.dom().contains(other)) && write->0.files[other]
                        == disk.files[other]
            }
        }),
{
}

/// The message of an error names the path, and what is wrong with it.
pub proof fn law_message_names_the_path(folder: Folder, name: Seq<char>, path: Seq<char>)
    ensures
        (ErrorView::NotADirectory { folder }).message(path) == "Not a directory: "@ + path,
        (ErrorView::NotAFile { folder, name }).message(path) == "Not a file: "@ + path,
        (ErrorView::OutOfDate { folder, name }).message(path) == "The contents of `"@ + path
            + ("` do not match the expected output of the newest `ethers::Abigen` version."@
            + "This indicates that the existing bindings are outdated and need to be generated again."@),
{
    assert((ErrorView::OutOfDate { folder, name }).message(path) =~= "The contents of `"@ + path + (
    "` do not match the expected output of the newest `ethers::Abigen` version."@
        + "This indicates that the existing bindings are outdated and need to be generated again."@));
}

/// The files that a check asks for, in the order in which it does: the `lib.rs` or `mod.rs`, and
/// for many files the shared types, where there are any and no contract takes their place, and every
/// contract in the order of the names.
pub proof fn law_files_that_are_asked_for(inner: InnerView, is_crate: bool, single_file: bool) -> (list: Seq<
    Seq<char>,
>)
    requires
        inner.sources.dom().finite(),
    ensures
        sorts(list, inner.sources.dom()),
        ({
            let folder = if is_crate {
                Folder::Src
            } else {
                Folder::Root
            };
            let hidden = exists|c: Seq<char>| #[trigger]
                inner.sources.dom().contains(c) && names::module_name(c) == "shared_types"@;
            inner.expected_files(is_crate, single_file) == seq![
                FileView {
                    folder,
                    name: if is_crate {
                        "lib.rs"@
                    } else {
                        "mod.rs"@
                    },
                    contents: encode_utf8(inner.super_contents(is_crate, single_file)),
                },
            ] + (if single_file || hidden || inner.shared_types is None {
                Seq::empty()
            } else {
                seq![
                    FileView {
                        folder,
                        name: "shared_types.rs"@,
                        contents: encode_utf8(inner.shared_types->0),
                    },
                ]
            }) + (if single_file {
                Seq::empty()
            } else {
                list.map_values(
                    |c: Seq<char>|
                        FileView {
                            folder,
                            name: names::module_name(c) + ".rs"@,
                            contents: encode_utf8(inner.sources[c]),
                        },
                )
            })
        }),
{
    lemma_sorts(inner.sources.dom());
    lemma_hidden(inner);
    let list = inner.contracts();
    let folder = if is_crate {
        Folder::Src
    } else {
        Folder::Root
    };
    assert(list.map_values(|c: Seq<char>| inner.contract_file(is_crate, c)) =~= list.map_values(
        |c: Seq<char>|
            FileView {
                folder,
                name: names::module_name(c) + ".rs"@,
                contents: encode_utf8(inner.sources[c]),
            },
    ));
    list
}

/// The `Cargo.toml` is asked for first, and only on demand.
pub proof fn law_cargo_toml_is_asked_for_on_demand(
    inner: InnerView,
    name: Seq<char>,
    version: Seq<char>,
    single_file: bool,
)
    ensures
        inner.crate_files(name, version, single_file, false) == inner.expected_files(
            true,
            single_file,
        ),
        inner.crate_files(name, version, single_file, true) == seq![
            FileView {
                folder: Folder::Root,
                name: "Cargo.toml"@,
                contents: encode_utf8(bindings::cargo_toml(name, version)),
            },
        ] + inner.expected_files(true, single_file),
{
    assert(inner.crate_files(name, version, single_file, false) =~= inner.expected_files(
        true,
        single_file,
    ));
}

/// Actions are done in turn, up to the first that fails.
pub proof fn law_actions_are_done_in_turn(disk: Disk, actions: Seq<ActionView>, last: ActionView)
    ensures
        disk.after_all(Seq::empty()) == Some(disk),
        disk.after_all(actions.push(last)) == (match disk.after_all(actions) {
            Some(next) => next.after(last),
            None => None,
        }),
{
    assert(actions.push(last).drop_last() =~= actions);
}

/// Files are checked in turn, up to the first that is wrong.
pub proof fn law_files_are_checked_in_turn(disk: Disk, first: FileView, files: Seq<FileView>)
    ensures
        disk::checked_all(disk, Seq::empty()) is Ok,
        disk::checked_all(disk, seq![first] + files) == (match disk::checked(disk, first) {
            Ok(()) => disk::checked_all(disk, files),
            Err(error) => Err(error),
        }),
{
    assert((seq![first] + files).drop_first() =~= files);
}

} // verus!
