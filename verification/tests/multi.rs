use multi_abigen::abigen::MultiAbigen;
use multi_abigen::bindings::MultiBindings;
use multi_abigen::contract::{Abigen, Context as ContractContext, ExpandedContract};
use multi_abigen::disk::{FileAction, Folder, Snapshot};
use multi_abigen::expansion::MultiExpansion;
use multi_abigen::names::safe_module_name;
use proc_macro2::TokenStream;

/// A disk in memory.
struct MemoryDisk {
    folders: Vec<Folder>,
    files: Vec<(Folder, String, Vec<u8>)>,
}

impl MemoryDisk {
    fn new() -> Self {
        MemoryDisk { folders: vec![], files: vec![] }
    }

    fn perform(&mut self, actions: Vec<FileAction>) -> Result<(), String> {
        for action in actions {
            match action {
                FileAction::CreateDir { folder } => {
                    self.folders.push(Folder::Root);
                    self.folders.push(folder);
                }
                FileAction::CreateNew { folder, name, contents } => {
                    if self.read(folder, &name).is_some() {
                        return Err(format!("{} exists", name));
                    }
                    self.write(folder, name, contents)?;
                }
                FileAction::Write { folder, name, contents } => self.write(folder, name, contents)?,
            }
        }
        Ok(())
    }

    fn write(&mut self, folder: Folder, name: String, contents: Vec<u8>) -> Result<(), String> {
        if !self.folders.contains(&folder) {
            return Err(format!("no directory for {}", name));
        }
        self.files.retain(|f| f.0 != folder || f.1 != name);
        self.files.push((folder, name, contents));
        Ok(())
    }

    fn read(&self, folder: Folder, name: &str) -> Option<String> {
        self.files
            .iter()
            .find(|f| f.0 == folder && f.1 == name)
            .map(|f| String::from_utf8(f.2.clone()).unwrap())
    }

    fn snapshot(&self) -> Snapshot {
        let mut snapshot = Snapshot::new();
        for folder in &self.folders {
            snapshot.add_folder(*folder);
        }
        for (folder, name, contents) in &self.files {
            snapshot.add_file(*folder, name, contents.clone());
        }
        snapshot
    }
}

fn code(text: &str) -> TokenStream {
    text.parse().unwrap()
}

/// Expands the structs of an ABI and one type for the contract itself.
fn expand(abigen: &Abigen) -> Result<(ExpandedContract, ContractContext), String> {
    let mut context = ContractContext::new(&abigen.contract_name);
    for piece in abigen.abi_source.split("struct ").skip(1) {
        let name: String = piece.chars().take_while(|c| c.is_alphanumeric()).collect();
        context.add_struct(&name, code(&format!("pub struct {} {{}}", name)));
    }
    let expanded = ExpandedContract {
        module: code(&safe_module_name(&abigen.contract_name)),
        imports: TokenStream::new(),
        contract: code(&format!("pub struct {}Contract;", abigen.contract_name)),
        events: TokenStream::new(),
        errors: TokenStream::new(),
        call_structs: TokenStream::new(),
        abi_structs: context.abi_structs(),
    };
    Ok((expanded, context))
}

fn build(multi: MultiAbigen) -> MultiBindings {
    multi.build(expand).unwrap()
}

fn unformatted(_text: &String) -> Option<String> {
    None
}

struct Context {
    multi_gen: MultiAbigen,
    mod_root: MemoryDisk,
}

fn run_test<T>(test: T)
where
    T: FnOnce(&mut Context),
{
    let console = Abigen::new("Console", "../tests/solidity-contracts/console.json");

    let simple_storage =
        Abigen::new("SimpleStorage", "../tests/solidity-contracts/simplestorage_abi.json");

    let human_readable = Abigen::new(
        "HrContract",
        r#"[
        struct Foo { uint256 x; }
        function foo(Foo memory x)
        function bar(uint256 x, uint256 y, address addr)
        yeet(uint256,uint256,address)
    ]"#,
    );

    let multi_gen = MultiAbigen::from_abigens(vec![console, simple_storage, human_readable]);

    test(&mut Context { multi_gen, mod_root: MemoryDisk::new() });
}

#[test]
fn can_generate_multi_file_module() {
    run_test(|context| {
        let Context { multi_gen, mod_root } = context;

        let single_file = false;

        mod_root
            .perform(build(multi_gen.clone()).write_to_module(single_file, unformatted))
            .unwrap();
        build(multi_gen.clone())
            .ensure_consistent_module(&mod_root.snapshot(), single_file, unformatted)
            .expect("Inconsistent bindings");
    })
}

#[test]
fn can_generate_single_file_module() {
    run_test(|context| {
        let Context { multi_gen, mod_root } = context;

        let single_file = true;

        mod_root
            .perform(build(multi_gen.clone()).write_to_module(single_file, unformatted))
            .unwrap();
        build(multi_gen.clone())
            .ensure_consistent_module(&mod_root.snapshot(), single_file, unformatted)
            .expect("Inconsistent bindings");
    })
}

#[test]
fn can_generate_multi_file_crate() {
    run_test(|context| {
        let Context { multi_gen, mod_root } = context;

        let single_file = false;
        let name = "a-name";
        let version = "290.3782.3";

        mod_root
            .perform(build(multi_gen.clone()).write_to_crate(name, version, single_file, unformatted))
            .unwrap();
        build(multi_gen.clone())
            .ensure_consistent_crate(
                name,
                version,
                &mod_root.snapshot(),
                single_file,
                true,
                unformatted,
            )
            .expect("Inconsistent bindings");
    })
}

#[test]
fn can_generate_single_file_crate() {
    run_test(|context| {
        let Context { multi_gen, mod_root } = context;

        let single_file = true;
        let name = "a-name";
        let version = "290.3782.3";

        mod_root
            .perform(build(multi_gen.clone()).write_to_crate(name, version, single_file, unformatted))
            .unwrap();
        build(multi_gen.clone())
            .ensure_consistent_crate(
                name,
                version,
                &mod_root.snapshot(),
                single_file,
                true,
                unformatted,
            )
            .expect("Inconsistent bindings");
    })
}

#[test]
fn can_detect_incosistent_multi_file_module() {
    run_test(|context| {
        let Context { multi_gen, mod_root } = context;

        let single_file = false;

        mod_root
            .perform(build(multi_gen.clone()).write_to_module(single_file, unformatted))
            .unwrap();

        let mut cloned = multi_gen.clone();
        cloned.push(Abigen::new(
            "AdditionalContract",
            r#"[
                        getValue() (uint256)
                    ]"#,
        ));

        let result = build(cloned)
            .ensure_consistent_module(&mod_root.snapshot(), single_file, unformatted)
            .is_err();

        // ensure inconsistent bindings are detected
        assert!(result, "Inconsistent bindings wrongly approved");
    })
}

#[test]
fn can_detect_incosistent_single_file_module() {
    run_test(|context| {
        let Context { multi_gen, mod_root } = context;

        let single_file = true;

        mod_root
            .perform(build(multi_gen.clone()).write_to_module(single_file, unformatted))
            .unwrap();

        let mut cloned = multi_gen.clone();
        cloned.push(Abigen::new(
            "AdditionalContract",
            r#"[
                        getValue() (uint256)
                    ]"#,
        ));

        let result = build(cloned)
            .ensure_consistent_module(&mod_root.snapshot(), single_file, unformatted)
            .is_err();

        // ensure inconsistent bindings are detected
        assert!(result, "Inconsistent bindings wrongly approved");
    })
}

#[test]
fn can_detect_incosistent_multi_file_crate() {
    run_test(|context| {
        let Context { multi_gen, mod_root } = context;

        let single_file = false;
        let name = "a-name";
        let version = "290.3782.3";

        mod_root
            .perform(build(multi_gen.clone()).write_to_crate(name, version, single_file, unformatted))
            .unwrap();

        let mut cloned = multi_gen.clone();
        cloned.push(Abigen::new(
            "AdditionalContract",
            r#"[
                            getValue() (uint256)
                        ]"#,
        ));

        let result = build(cloned)
            .ensure_consistent_crate(
                name,
                version,
                &mod_root.snapshot(),
                single_file,
                true,
                unformatted,
            )
            .is_err();

        // ensure inconsistent bindings are detected
        assert!(result, "Inconsistent bindings wrongly approved");
    })
}

#[test]
fn can_detect_inconsistent_single_file_crate() {
    run_test(|context| {
        let Context { multi_gen, mod_root } = context;

        let single_file = true;
        let name = "a-name";
        let version = "290.3782.3";

        mod_root
            .perform(build(multi_gen.clone()).write_to_crate(name, version, single_file, unformatted))
            .unwrap();

        let mut cloned = multi_gen.clone();
        cloned.push(Abigen::new(
            "AdditionalContract",
            r#"[
                            getValue() (uint256)
                        ]"#,
        ));

        let result = build(cloned)
            .ensure_consistent_crate(
                name,
                version,
                &mod_root.snapshot(),
                single_file,
                true,
                unformatted,
            )
            .is_err();

        // ensure inconsistent bindings are detected
        assert!(result, "Inconsistent bindings wrongly approved");
    })
}

#[test]
fn does_not_generate_shared_types_if_empty() {
    let gen = Abigen::new(
        "Greeter",
        r#"[
                        struct Inner {bool a;}
                        greet1() (uint256)
                        greet2(Inner inner) (string)
                    ]"#,
    );

    let tokens = MultiExpansion::new(vec![expand(&gen).unwrap()]).expand_inplace().to_string();
    assert!(!tokens.contains("mod __shared_types"));
}

/// The files of a directory of artifacts: what the ABI of each contract declares stands for its
/// path.
fn artifacts(contracts: &[(&str, &str)]) -> Vec<(String, String)> {
    let mut files: Vec<(String, String)> = contracts
        .iter()
        .map(|(name, source)| (format!("{}.json", name), source.to_string()))
        .collect();
    files.push(("build-info.txt".to_string(), "not read".to_string()));
    files
}

fn resolve(abi: &(String, String)) -> Result<Abigen, String> {
    Ok(Abigen::new(&abi.0, &abi.1))
}

#[test]
fn can_deduplicate_types() {
    let greet = r#"
struct Inner {
    bool a;
}

struct Stuff {
    Inner inner;
}

function greet(Stuff calldata stuff) public pure returns (Stuff memory)
"#;
    let artifacts = artifacts(&[("Greeter1", greet), ("Greeter2", greet)]);

    let gen = MultiAbigen::from_json_files(artifacts.clone(), resolve).unwrap();
    let bindings = build(gen);
    let mut single_file_dir = MemoryDisk::new();
    single_file_dir.perform(bindings.write_to_module(true, unformatted)).unwrap();

    let content = single_file_dir.read(Folder::Root, "mod.rs").unwrap();
    assert!(content.contains("mod __shared_types"));
    assert!(content.contains("pub struct Inner"));
    assert!(content.contains("pub struct Stuff"));

    // multiple files
    let gen = MultiAbigen::from_json_files(artifacts, resolve).unwrap();
    let bindings = build(gen);
    let mut multi_file_dir = MemoryDisk::new();
    multi_file_dir.perform(bindings.write_to_module(false, unformatted)).unwrap();
    let content = multi_file_dir.read(Folder::Root, "mod.rs").unwrap();
    assert!(content.contains("pub mod shared_types"));

    let content = multi_file_dir.read(Folder::Root, "greeter_1.rs").unwrap();
    assert!(!content.contains("pub struct Inner"));
    assert!(!content.contains("pub struct Stuff"));

    let content = multi_file_dir.read(Folder::Root, "greeter_2.rs").unwrap();
    assert!(!content.contains("pub struct Inner"));
    assert!(!content.contains("pub struct Stuff"));

    let content = multi_file_dir.read(Folder::Root, "shared_types.rs").unwrap();
    assert!(content.contains("pub struct Inner"));
    assert!(content.contains("pub struct Stuff"));
}

#[test]
fn can_sanitize_reserved_words() {
    let artifacts = artifacts(&[
        ("Mod", "function greet() public pure returns (uint256)"),
        ("Enum", "enum Operation {Call, DelegateCall}"),
    ]);

    let gen = MultiAbigen::from_json_files(artifacts.clone(), resolve).unwrap();
    let bindings = build(gen);
    let mut single_file_dir = MemoryDisk::new();
    single_file_dir.perform(bindings.write_to_module(true, unformatted)).unwrap();

    let content = single_file_dir.read(Folder::Root, "mod.rs").unwrap();
    assert!(content.contains("pub mod mod_ {"));
    assert!(content.contains("pub mod enum_ {"));

    // multiple files
    let gen = MultiAbigen::from_json_files(artifacts, resolve).unwrap();
    let bindings = build(gen);
    let mut multi_file_dir = MemoryDisk::new();
    multi_file_dir.perform(bindings.write_to_module(false, unformatted)).unwrap();
    let content = multi_file_dir.read(Folder::Root, "mod.rs").unwrap();
    assert!(content.contains("pub mod enum_;"));
    assert!(content.contains("pub mod mod_;"));

    let content = multi_file_dir.read(Folder::Root, "enum_.rs").unwrap();
    assert!(content.contains("pub mod enum_ {"));

    let content = multi_file_dir.read(Folder::Root, "mod_.rs").unwrap();
    assert!(content.contains("pub mod mod_ {"));
}
