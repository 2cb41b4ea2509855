use multi_abigen::abigen::MultiAbigen;
use multi_abigen::bindings::MultiBindings;
use multi_abigen::contract::{Abigen, Context as ContractContext, ExpandedContract};
use multi_abigen::disk::{CheckError, FileAction, Folder, Snapshot};
use multi_abigen::names::{module_filename, safe_module_name, sanitize};
use proc_macro2::TokenStream;

/// A disk in memory.
struct MemoryDisk {
    folders: Vec<Folder>,
    files: Vec<(Folder, String, Vec<u8>)>,
}

impl MemoryDisk {
    fn new() -> Self {
        MemoryDisk { folders: vec![], files: vec![] }
    }

    fn perform(&mut self, actions: Vec<FileAction>) -> Result<(), String> {
        for action in actions {
            match action {
                FileAction::CreateDir { folder } => {
                    self.folders.push(Folder::Root);
                    self.folders.push(folder);
                }
                FileAction::CreateNew { folder, name, contents } => {
                    if self.read(folder, &name).is_some() {
                        return Err(format!("{} exists", name));
                    }
                    self.write(folder, name, contents)?;
                }
                FileAction::Write { folder, name, contents } => self.write(folder, name, contents)?,
            }
        }
        Ok(())
    }

    fn write(&mut self, folder: Folder, name: String, contents: Vec<u8>) -> Result<(), String> {
        if !self.folders.contains(&folder) {
            return Err(format!("no directory for {}", name));
        }
        self.files.retain(|f| f.0 != folder || f.1 != name);
        self.files.push((folder, name, contents));
        Ok(())
    }

    fn read(&self, folder: Folder, name: &str) -> Option<String> {
        self.files
            .iter()
            .find(|f| f.0 == folder && f.1 == name)
            .map(|f| String::from_utf8(f.2.clone()).unwrap())
    }

    fn snapshot(&self) -> Snapshot {
        let mut snapshot = Snapshot::new();
        for folder in &self.folders {
            snapshot.add_folder(*folder);
        }
        for (folder, name, contents) in &self.files {
            snapshot.add_file(*folder, name, contents.clone());
        }
        snapshot
    }
}

fn code(text: &str) -> TokenStream {
    text.parse().unwrap()
}

/// Expands the structs of an ABI and one type for the contract itself.
fn expand(abigen: &Abigen) -> Result<(ExpandedContract, ContractContext), String> {
    let mut context = ContractContext::new(&abigen.contract_name);
    for piece in abigen.abi_source.split("struct ").skip(1) {
        let name: String = piece.chars().take_while(|c| c.is_alphanumeric()).collect();
        context.add_struct(&name, code(&format!("pub struct {} {{}}", name)));
    }
    let expanded = ExpandedContract {
        module: code(&safe_module_name(&abigen.contract_name)),
        imports: TokenStream::new(),
        contract: code(&format!("pub struct {}Contract;", abigen.contract_name)),
        events: TokenStream::new(),
        errors: TokenStream::new(),
        call_structs: TokenStream::new(),
        abi_structs: context.abi_structs(),
    };
    Ok((expanded, context))
}

fn build(multi: MultiAbigen) -> MultiBindings {
    multi.build(expand).unwrap()
}

fn unformatted(_text: &String) -> Option<String> {
    None
}


fn plain(name: &str, source: &str) -> Abigen {
    Abigen { contract_name: name.to_string(), abi_source: source.to_string(), rustfmt: false }
}

/// Two contracts that share one type, and a third that shares none.
fn three() -> MultiAbigen {
    MultiAbigen::from_abigens(vec![
        plain("Zebra", "struct Shared {} struct Own {}"),
        plain("Apple", "struct Shared {}"),
        plain("Mango", "struct Other {}"),
    ])
}

const PREFIX_END: &str = " may be overwritten by the codegen system at any time.\n";

fn prefix(what: &str, files: &str) -> String {
    format!(
        "#![allow(clippy::all)]\n//! This {} contains abigen! generated bindings for solidity contracts.\n//! This is autogenerated code.\n//! Do not manually edit these files.\n//! {}{}",
        what, files, PREFIX_END
    )
}

const APPLE: &str = "pub use apple :: * ; # [allow (clippy :: too_many_arguments , non_camel_case_types)] pub mod apple { IMPORT pub struct AppleContract ; }";
const MANGO: &str = "pub use mango :: * ; # [allow (clippy :: too_many_arguments , non_camel_case_types)] pub mod mango { pub struct MangoContract ; pub struct Other { } }";
const ZEBRA: &str = "pub use zebra :: * ; # [allow (clippy :: too_many_arguments , non_camel_case_types)] pub mod zebra { IMPORT pub struct ZebraContract ; pub struct Own { } }";

fn text_of(module: &str, import: &str) -> String {
    module.replace("IMPORT", import)
}

const IN_FILE: &str = "pub use super :: __shared_types :: * ;";
const IN_CRATE: &str = "pub use super :: super :: shared_types :: * ;";

#[test]
fn cargo_toml_reads_as_documented() {
    let inner = build(three()).into_inner(false, unformatted);
    let expected = "[package]
name = \"my-crate\"
version = \"0.0.5\"
edition = \"2021\"

# See more keys and their definitions at https://doc.rust-lang.org/cargo/reference/manifest.html

[dependencies]

ethers = { git = \"https://github.com/gakonst/ethers-rs\", default-features = false }
serde_json = \"1.0.79\"

";
    assert_eq!(String::from_utf8(inner.generate_cargo_toml("my-crate", "0.0.5")).unwrap(), expected);
}

#[test]
fn module_of_many_files() {
    let mut disk = MemoryDisk::new();
    disk.perform(build(three()).write_to_module(false, unformatted)).unwrap();
    let expected = prefix("module", "These files")
        + "pub mod apple;\npub mod mango;\npub mod shared_types;\npub mod zebra;\n";
    assert_eq!(disk.read(Folder::Root, "mod.rs").unwrap(), expected);
    assert_eq!(disk.read(Folder::Root, "shared_types.rs").unwrap(), "pub struct Shared { }");
    assert_eq!(disk.read(Folder::Root, "apple.rs").unwrap(), text_of(APPLE, IN_CRATE));
    assert_eq!(disk.read(Folder::Root, "mango.rs").unwrap(), MANGO);
    assert_eq!(disk.read(Folder::Root, "zebra.rs").unwrap(), text_of(ZEBRA, IN_CRATE));
    assert_eq!(disk.files.len(), 5);
}

#[test]
fn module_of_a_single_file() {
    let mut disk = MemoryDisk::new();
    disk.perform(build(three()).write_to_module(true, unformatted)).unwrap();
    let expected = prefix("module", "This file")
        + "pub mod __shared_types { pub struct Shared { } }"
        + &text_of(APPLE, IN_FILE)
        + MANGO
        + &text_of(ZEBRA, IN_FILE);
    assert_eq!(disk.read(Folder::Root, "mod.rs").unwrap(), expected);
    assert_eq!(disk.files.len(), 1);
}

#[test]
fn crate_of_many_files() {
    let mut disk = MemoryDisk::new();
    disk.perform(build(three()).write_to_crate("a", "1.0.0", false, unformatted)).unwrap();
    let expected = prefix("lib", "These files")
        + "pub mod apple;\npub mod mango;\npub mod shared_types;\npub mod zebra;\n";
    assert_eq!(disk.read(Folder::Src, "lib.rs").unwrap(), expected);
    assert_eq!(disk.read(Folder::Src, "mango.rs").unwrap(), MANGO);
    assert!(disk.read(Folder::Root, "Cargo.toml").unwrap().contains("name = \"a\""));
    assert_eq!(disk.files.len(), 6);
}

#[test]
fn crate_of_a_single_file() {
    let mut disk = MemoryDisk::new();
    disk.perform(build(three()).write_to_crate("a", "1.0.0", true, unformatted)).unwrap();
    assert!(disk.read(Folder::Src, "lib.rs").unwrap().starts_with(&prefix("lib", "These files")));
    assert_eq!(disk.files.len(), 2);
}

#[test]
fn no_contracts_give_the_prefix_alone() {
    for single_file in [false, true] {
        let none = build(MultiAbigen::from_abigens(vec![]));
        assert!(none.is_empty());
        assert_eq!(none.len(), 0);
        let mut disk = MemoryDisk::new();
        disk.perform(none.write_to_module(single_file, unformatted)).unwrap();
        let files = if single_file { "This file" } else { "These files" };
        assert_eq!(disk.read(Folder::Root, "mod.rs").unwrap(), prefix("module", files));
    }
}

#[test]
fn names_of_modules_and_files() {
    assert_eq!(safe_module_name("SimpleStorage"), "simple_storage");
    assert_eq!(safe_module_name("Greeter1"), "greeter_1");
    assert_eq!(safe_module_name("Mod"), "mod_");
    assert_eq!(safe_module_name("Enum"), "enum_");
    assert_eq!(safe_module_name("shared_types"), "shared_types");
    assert_eq!(module_filename("SimpleStorage"), "simple_storage.rs");
    assert_eq!(module_filename("Type"), "type_.rs");
}

#[test]
fn reserved_words_are_no_modules() {
    for word in ["as", "crate", "dyn", "fn", "self", "super", "type", "yield", "abstract", "try"] {
        assert_eq!(sanitize(word.to_string()), format!("{}_", word));
    }
    assert_eq!(sanitize("_".to_string()), "__");
    assert_eq!(sanitize(String::new()), "_");
    assert_eq!(sanitize("types".to_string()), "types");
    assert_eq!(sanitize("mod_".to_string()), "mod_");
}

#[test]
fn missing_directory_is_reported() {
    let error = build(three())
        .ensure_consistent_module(&Snapshot::new(), false, unformatted)
        .unwrap_err();
    assert!(matches!(error, CheckError::NotADirectory { folder: Folder::Root }));
    assert_eq!(error.message("src/contracts"), "Not a directory: src/contracts");
}

#[test]
fn missing_file_is_reported() {
    let mut disk = MemoryDisk::new();
    disk.perform(build(three()).write_to_module(false, unformatted)).unwrap();
    disk.files.retain(|f| f.1 != "mango.rs");
    let error = build(three())
        .ensure_consistent_module(&disk.snapshot(), false, unformatted)
        .unwrap_err();
    assert!(matches!(&error, CheckError::NotAFile { folder: Folder::Root, name } if name == "mango.rs"));
    assert_eq!(error.message("a/mango.rs"), "Not a file: a/mango.rs");
}

#[test]
fn changed_file_is_reported() {
    let mut disk = MemoryDisk::new();
    disk.perform(build(three()).write_to_module(false, unformatted)).unwrap();
    disk.write(Folder::Root, "zebra.rs".to_string(), b"pub mod zebra {}".to_vec()).unwrap();
    let error = build(three())
        .ensure_consistent_module(&disk.snapshot(), false, unformatted)
        .unwrap_err();
    assert!(matches!(&error, CheckError::OutOfDate { folder: Folder::Root, name } if name == "zebra.rs"));
    assert_eq!(
        error.message("a/zebra.rs"),
        "The contents of `a/zebra.rs` do not match the expected output of the newest `ethers::Abigen` version.This indicates that the existing bindings are outdated and need to be generated again."
    );
}

#[test]
fn changed_shared_types_are_reported() {
    let mut disk = MemoryDisk::new();
    disk.perform(build(three()).write_to_module(false, unformatted)).unwrap();
    disk.write(Folder::Root, "shared_types.rs".to_string(), vec![]).unwrap();
    let error = build(three())
        .ensure_consistent_module(&disk.snapshot(), false, unformatted)
        .unwrap_err();
    assert!(matches!(&error, CheckError::OutOfDate { name, .. } if name == "shared_types.rs"));
}

#[test]
fn first_wrong_file_is_reported() {
    let mut disk = MemoryDisk::new();
    disk.perform(build(three()).write_to_crate("a", "1.0.0", false, unformatted)).unwrap();
    disk.write(Folder::Src, "zebra.rs".to_string(), vec![]).unwrap();
    disk.write(Folder::Src, "apple.rs".to_string(), vec![]).unwrap();
    let check = |disk: &MemoryDisk| {
        build(three())
            .ensure_consistent_crate("a", "1.0.0", &disk.snapshot(), false, true, unformatted)
            .unwrap_err()
    };
    assert!(matches!(check(&disk), CheckError::OutOfDate { name, .. } if name == "apple.rs"));
    disk.write(Folder::Src, "lib.rs".to_string(), vec![]).unwrap();
    assert!(matches!(check(&disk), CheckError::OutOfDate { name, .. } if name == "lib.rs"));
    disk.write(Folder::Root, "Cargo.toml".to_string(), vec![]).unwrap();
    assert!(matches!(check(&disk), CheckError::OutOfDate { name, .. } if name == "Cargo.toml"));
}

#[test]
fn cargo_toml_is_checked_on_demand() {
    let mut disk = MemoryDisk::new();
    disk.perform(build(three()).write_to_crate("a", "1.0.0", false, unformatted)).unwrap();
    let check = |version: &str, check_cargo_toml: bool| {
        build(three()).ensure_consistent_crate(
            "a",
            version,
            &disk.snapshot(),
            false,
            check_cargo_toml,
            unformatted,
        )
    };
    assert!(check("1.0.0", true).is_ok());
    assert!(check("1.0.1", false).is_ok());
    let error = check("1.0.1", true).unwrap_err();
    assert!(matches!(error, CheckError::OutOfDate { folder: Folder::Root, name } if name == "Cargo.toml"));
}

#[test]
fn single_file_and_many_files_do_not_match() {
    let mut disk = MemoryDisk::new();
    disk.perform(build(three()).write_to_module(true, unformatted)).unwrap();
    assert!(build(three()).ensure_consistent_module(&disk.snapshot(), true, unformatted).is_ok());
    assert!(build(three()).ensure_consistent_module(&disk.snapshot(), false, unformatted).is_err());
}

#[test]
fn crate_is_written_once() {
    let mut disk = MemoryDisk::new();
    disk.perform(build(three()).write_to_crate("a", "1.0.0", false, unformatted)).unwrap();
    let again = disk.perform(build(three()).write_to_crate("a", "1.0.0", false, unformatted));
    assert_eq!(again, Err("Cargo.toml exists".to_string()));
}

#[test]
fn module_is_written_over() {
    let mut disk = MemoryDisk::new();
    disk.perform(build(three()).write_to_module(false, unformatted)).unwrap();
    disk.write(Folder::Root, "notes.txt".to_string(), b"kept".to_vec()).unwrap();
    let mut more = three();
    more.push(plain("Kiwi", "struct Other {}"));
    disk.perform(build(more.clone()).write_to_module(false, unformatted)).unwrap();
    assert!(build(more).ensure_consistent_module(&disk.snapshot(), false, unformatted).is_ok());
    assert_eq!(disk.read(Folder::Root, "notes.txt").unwrap(), "kept");
}

#[test]
fn clashing_modules_never_match() {
    let clash = || {
        MultiAbigen::from_abigens(vec![plain("Foo", "struct A {}"), plain("foo", "struct B {}")])
    };
    let mut disk = MemoryDisk::new();
    disk.perform(build(clash()).write_to_module(false, unformatted)).unwrap();
    assert!(build(clash()).ensure_consistent_module(&disk.snapshot(), false, unformatted).is_err());
    disk.perform(build(clash()).write_to_module(true, unformatted)).unwrap();
    assert!(build(clash()).ensure_consistent_module(&disk.snapshot(), true, unformatted).is_ok());
}

#[test]
fn text_is_formatted_where_one_order_asks_for_it() {
    let shout = |text: &String| Some(text.to_uppercase());
    let mut disk = MemoryDisk::new();
    disk.perform(build(three()).write_to_module(false, shout)).unwrap();
    assert_eq!(disk.read(Folder::Root, "mango.rs").unwrap(), MANGO);

    let mut multi = three();
    multi.push(Abigen::new("Kiwi", ""));
    let mut disk = MemoryDisk::new();
    disk.perform(build(multi).write_to_module(false, shout)).unwrap();
    assert_eq!(disk.read(Folder::Root, "mango.rs").unwrap(), MANGO.to_uppercase());
    assert_eq!(disk.read(Folder::Root, "shared_types.rs").unwrap(), "PUB STRUCT SHARED { }");
}

#[test]
fn text_stays_where_it_cannot_be_formatted() {
    let multi = MultiAbigen::from_abigens(vec![Abigen::new("Mango", "struct Other {}")]);
    let mut disk = MemoryDisk::new();
    disk.perform(build(multi).write_to_module(false, unformatted)).unwrap();
    assert_eq!(disk.read(Folder::Root, "mango.rs").unwrap(), MANGO);
}

/// Two contracts that share a type, one of them named like the module of the shared types.
fn hiding() -> MultiAbigen {
    MultiAbigen::from_abigens(vec![
        plain("A", "struct Shared {}"),
        plain("SharedTypes", "struct Shared {} struct Own {}"),
    ])
}

#[test]
fn contract_takes_the_place_of_the_shared_types() {
    let mut disk = MemoryDisk::new();
    disk.perform(build(hiding()).write_to_module(false, unformatted)).unwrap();
    assert!(disk.read(Folder::Root, "mod.rs").unwrap().ends_with("pub mod a;\npub mod shared_types;\n"));
    let text = disk.read(Folder::Root, "shared_types.rs").unwrap();
    assert!(text.contains("pub mod shared_types {"));
    assert!(!text.contains("struct Shared {"));
    assert!(build(hiding()).ensure_consistent_module(&disk.snapshot(), false, unformatted).is_ok());
    disk.write(Folder::Root, "shared_types.rs".to_string(), vec![]).unwrap();
    let error = build(hiding())
        .ensure_consistent_module(&disk.snapshot(), false, unformatted)
        .unwrap_err();
    assert!(matches!(error, CheckError::OutOfDate { name, .. } if name == "shared_types.rs"));
}

#[test]
fn contract_takes_the_place_of_the_shared_types_in_a_crate() {
    for single_file in [false, true] {
        for check_cargo_toml in [false, true] {
            let mut disk = MemoryDisk::new();
            disk.perform(build(hiding()).write_to_crate("a", "1.0.0", single_file, unformatted))
                .unwrap();
            let result = build(hiding()).ensure_consistent_crate(
                "a",
                "1.0.0",
                &disk.snapshot(),
                single_file,
                check_cargo_toml,
                unformatted,
            );
            assert!(result.is_ok());
        }
    }
}

#[test]
fn missing_cargo_toml_is_passed_over_on_demand() {
    let mut disk = MemoryDisk::new();
    disk.perform(build(three()).write_to_crate("a", "1.0.0", false, unformatted)).unwrap();
    disk.files.retain(|f| f.1 != "Cargo.toml");
    let check = |check_cargo_toml: bool| {
        build(three()).ensure_consistent_crate(
            "b",
            "2.0.0",
            &disk.snapshot(),
            false,
            check_cargo_toml,
            unformatted,
        )
    };
    assert!(check(false).is_ok());
    assert!(matches!(check(true), Err(CheckError::NotAFile { name, .. }) if name == "Cargo.toml"));
}

#[test]
fn other_files_do_not_count() {
    let mut disk = MemoryDisk::new();
    disk.perform(build(three()).write_to_module(false, unformatted)).unwrap();
    disk.write(Folder::Root, "kiwi.rs".to_string(), b"left over".to_vec()).unwrap();
    assert!(build(three()).ensure_consistent_module(&disk.snapshot(), false, unformatted).is_ok());
}

#[test]
fn order_of_the_orders_does_not_show() {
    let mut abigens: Vec<Abigen> = three().to_vec();
    for single_file in [false, true] {
        abigens.reverse();
        let turned = MultiAbigen::from_abigens(abigens.clone());
        let mut disk = MemoryDisk::new();
        disk.perform(build(three()).write_to_module(single_file, unformatted)).unwrap();
        let mut other = MemoryDisk::new();
        other.perform(build(turned).write_to_module(single_file, unformatted)).unwrap();
        assert_eq!(disk.files, other.files);
        abigens.rotate_left(1);
    }
}

#[test]
fn snake_case_of_contract_names() {
    for (name, module) in [
        ("ERC20", "erc20"),
        ("HTTPServer", "http_server"),
        ("a1b2", "a_1b_2"),
        ("__x--Y__", "x_y"),
        ("fooBAR", "foo_bar"),
        ("Foo Bar", "foo_bar"),
        ("Ab9", "ab_9"),
        ("A9b", "a_9b"),
        ("snake_case", "snake_case"),
        ("--", "_"),
    ] {
        assert_eq!(safe_module_name(name), module);
    }
}

#[test]
fn added_contract_that_shares_a_type_is_reported() {
    for single_file in [false, true] {
        let mut disk = MemoryDisk::new();
        disk.perform(build(three()).write_to_module(single_file, unformatted)).unwrap();
        let before = disk.read(Folder::Root, "mod.rs").unwrap().len();
        for source in ["struct Other {}", "struct Own {} struct Other {} struct Shared {}", ""] {
            let mut more = three();
            more.push(plain("Kiwi", source));
            let error = build(more.clone())
                .ensure_consistent_module(&disk.snapshot(), single_file, unformatted)
                .unwrap_err();
            assert!(matches!(error, CheckError::OutOfDate { name, .. } if name == "mod.rs"));
            let mut other = MemoryDisk::new();
            other.perform(build(more).write_to_module(single_file, unformatted)).unwrap();
            assert!(before < other.read(Folder::Root, "mod.rs").unwrap().len());
        }
    }
}

#[test]
fn layouts_are_told_apart_though_modules_clash() {
    let clash = || {
        MultiAbigen::from_abigens(vec![plain("Foo", "struct A {}"), plain("foo", "struct B {}")])
    };
    for single_file in [false, true] {
        let mut disk = MemoryDisk::new();
        disk.perform(build(clash()).write_to_module(single_file, unformatted)).unwrap();
        let error = build(clash())
            .ensure_consistent_module(&disk.snapshot(), !single_file, unformatted)
            .unwrap_err();
        assert!(matches!(error, CheckError::OutOfDate { name, .. } if name == "mod.rs"));
    }
}
