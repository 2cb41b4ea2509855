use multi_abigen::abigen::MultiAbigen;
use multi_abigen::contract::{Abigen, Context, ExpandedContract};
use multi_abigen::disk::{Folder, Snapshot};
use multi_abigen::expansion::MultiExpansion;
use multi_abigen::order::NameMap;
use proc_macro2::TokenStream;

fn code(text: &str) -> TokenStream {
    text.parse().unwrap()
}

/// A contract that declares structs with the given names and fields.
fn contract(name: &str, structs: &[(&str, &str)]) -> (ExpandedContract, Context) {
    let mut context = Context::new(name);
    for (name, field) in structs {
        context.add_struct(name, code(&format!("struct {} ( {} ) ;", name, field)));
    }
    let expanded = ExpandedContract {
        module: code(&name.to_lowercase()),
        imports: code("use a ;"),
        contract: code("struct C ;"),
        events: code("struct E ;"),
        errors: code("struct R ;"),
        call_structs: code("struct L ;"),
        abi_structs: context.abi_structs(),
    };
    (expanded, context)
}

fn inplace(contracts: Vec<(ExpandedContract, Context)>) -> String {
    MultiExpansion::new(contracts).expand_inplace().to_string()
}

fn module(name: &str, import: &str, structs: &str) -> String {
    let body = format!("use a ; {} struct C ; struct R ; struct E ; struct L ; {}", import, structs);
    let body: Vec<&str> = body.split_whitespace().collect();
    format!(
        "pub use {} :: * ; # [allow (clippy :: too_many_arguments , non_camel_case_types)] pub mod {} {{ {} }}",
        name,
        name,
        body.join(" ")
    )
}

const IMPORT: &str = "pub use super :: __shared_types :: * ;";

#[test]
fn one_contract_keeps_its_types() {
    let tokens = inplace(vec![contract("One", &[("A", "u8"), ("B", "u16")])]);
    assert_eq!(tokens, module("one", "", "struct A (u8) ; struct B (u16) ;"));
}

#[test]
fn no_contract_gives_no_code() {
    assert_eq!(inplace(vec![]), "");
}

#[test]
fn contracts_without_common_types_stay_as_they_are() {
    let tokens = inplace(vec![contract("One", &[("A", "u8")]), contract("Two", &[("B", "u8")])]);
    let expected = [module("one", "", "struct A (u8) ;"), module("two", "", "struct B (u8) ;")];
    assert_eq!(tokens, expected.join(" "));
}

#[test]
fn shared_types_move_to_their_module() {
    let tokens = inplace(vec![
        contract("One", &[("Z", "u8"), ("A", "u16"), ("Own", "u32")]),
        contract("Two", &[("A", "u16"), ("Z", "u8")]),
        contract("Three", &[("Other", "u64")]),
    ]);
    let expected = [
        "pub mod __shared_types { struct A (u16) ; struct Z (u8) ; }".to_string(),
        module("one", IMPORT, "struct Own (u32) ;"),
        module("two", IMPORT, ""),
        module("three", "", "struct Other (u64) ;"),
    ];
    assert_eq!(tokens, expected.join(" "));
}

#[test]
fn first_definition_of_a_shared_type_is_kept() {
    let tokens = inplace(vec![
        contract("One", &[]),
        contract("Two", &[("A", "first")]),
        contract("Three", &[("A", "second")]),
    ]);
    assert!(tokens.contains("pub mod __shared_types { struct A (first) ; }"));
    assert!(!tokens.contains("second"));
}

#[test]
fn type_of_three_contracts_is_shared_once() {
    let tokens = inplace(vec![
        contract("One", &[("A", "u8")]),
        contract("Two", &[("A", "u8")]),
        contract("Three", &[("A", "u8")]),
    ]);
    assert_eq!(tokens.matches("struct A").count(), 1);
    assert_eq!(tokens.matches(IMPORT).count(), 3);
}

#[test]
fn expansion_keeps_the_number_of_contracts() {
    let multi = MultiExpansion::new(vec![contract("One", &[("A", "u8")]), contract("Two", &[("A", "u8")])]);
    assert_eq!(multi.expand().len(), 2);
}

#[test]
fn last_contract_of_a_name_stays() {
    let contracts = vec![contract("Same", &[("First", "u8")]), contract("Same", &[("Last", "u8")])];
    let drafts = MultiExpansion::new(contracts).expand().into_bindings(false, false);
    let inner = drafts.render(&|_text: &String| None);
    let actions = inner.write_to_module(true);
    let text = format!("{:?}", actions);
    assert_eq!(actions.len(), 2);
    let contents = match &actions[1] {
        multi_abigen::disk::FileAction::Write { contents, .. } => {
            String::from_utf8(contents.clone()).unwrap()
        }
        _ => panic!("{}", text),
    };
    assert!(contents.contains("struct Last"));
    assert!(!contents.contains("struct First"));
}

#[test]
fn structs_of_a_context() {
    let mut context = Context::new("Greeter");
    assert_eq!(context.contract_name(), "Greeter");
    assert_eq!(context.struct_count(), 0);
    context.add_struct("A", code("struct A ;"));
    context.add_struct("B", code("struct B ;"));
    context.add_struct("A", code("struct A2 ;"));
    assert_eq!(context.struct_count(), 2);
    assert_eq!(context.struct_name(0), "B");
    assert_eq!(context.struct_name(1), "A");
    assert_eq!(context.struct_definition("A").unwrap().to_string(), "struct A2 ;");
    assert!(context.struct_definition("C").is_none());
    assert_eq!(context.abi_structs().to_string(), "struct B ; struct A2 ;");
    context.remove_struct("C");
    context.remove_struct("B");
    assert_eq!(context.struct_count(), 1);
    assert_eq!(context.abi_structs().to_string(), "struct A2 ;");
}

fn named(abigen: &Abigen) -> Result<(ExpandedContract, Context), String> {
    if abigen.abi_source.is_empty() {
        Err(format!("no abi for {}", abigen.contract_name))
    } else {
        Ok(contract(&abigen.contract_name, &[]))
    }
}

#[test]
fn first_failed_expansion_is_reported() {
    let abigens = vec![Abigen::new("A", "abi"), Abigen::new("B", ""), Abigen::new("C", "")];
    let multi = MultiAbigen::from_abigens(abigens.clone());
    assert_eq!(multi.build(named).err(), Some("no abi for B".to_string()));
    let multi = MultiExpansion::from_abigen(abigens, named);
    assert_eq!(multi.err(), Some("no abi for B".to_string()));
}

#[test]
fn all_orders_are_expanded() {
    let abigens = vec![Abigen::new("A", "abi"), Abigen::new("B", "abi")];
    let multi = MultiExpansion::from_abigen(abigens, named).unwrap();
    assert_eq!(multi.expand().len(), 2);
}

fn resolve(abi: &(String, String)) -> Result<Abigen, String> {
    if abi.1 == "bad" {
        Err(abi.0.clone())
    } else {
        Ok(Abigen::new(&abi.0, &abi.1))
    }
}

fn pair(a: &str, b: &str) -> (String, String) {
    (a.to_string(), b.to_string())
}

#[test]
fn orders_are_resolved_in_turn() {
    let multi = MultiAbigen::new(vec![pair("A", "a.json"), pair("B", "b.json")], resolve).unwrap();
    let names: Vec<&str> = multi.iter().map(|a| a.contract_name.as_str()).collect();
    assert_eq!(names, vec!["A", "B"]);
    assert_eq!(multi[1].abi_source, "b.json");
    let failed = MultiAbigen::new(vec![pair("A", ""), pair("B", "bad"), pair("C", "bad")], resolve);
    assert_eq!(failed.err(), Some("B".to_string()));
}

#[test]
fn json_files_are_found_by_name() {
    let files = vec![
        pair("ERC20.json", "abi/ERC20.json"),
        pair("README.md", "abi/README.md"),
        pair(".json", "abi/.json"),
        pair("json", "abi/json"),
        pair("Deep.t.json", "abi/x/Deep.t.json"),
    ];
    let multi = MultiAbigen::from_json_files(files, resolve).unwrap();
    assert_eq!(multi.len(), 2);
    assert_eq!(multi[0].contract_name, "ERC20");
    assert_eq!(multi[0].abi_source, "abi/ERC20.json");
    assert_eq!(multi[1].contract_name, "Deep.t");
    let failed = MultiAbigen::from_json_files(vec![pair("A.json", "bad")], resolve);
    assert_eq!(failed.err(), Some("A".to_string()));
}

#[test]
fn orders_can_be_added() {
    let mut multi = MultiAbigen::from(vec![Abigen::new("A", "abi")]);
    multi.push(Abigen::new("B", "abi"));
    assert_eq!(multi.len(), 2);
    assert_eq!(multi[1].contract_name, "B");
    assert!(multi[1].rustfmt);
    let bindings = multi.build(named).unwrap();
    assert_eq!(bindings.len(), 2);
    assert!(!bindings.is_empty());
}

#[test]
fn names_are_walked_in_byte_order() {
    let mut map: NameMap<u8> = NameMap::new();
    for (name, value) in [("b", 1u8), ("ab", 2), ("a", 3), ("B", 4), ("é", 5), ("b", 6)] {
        map.insert(name.to_string(), value);
    }
    let entries: Vec<(&str, u8)> = (0..map.len()).map(|i| (map.key(i).as_str(), *map.value(i))).collect();
    assert_eq!(entries, vec![("B", 4), ("a", 3), ("ab", 2), ("b", 6), ("é", 5)]);
    *map.get_mut("ab").unwrap() = 7;
    assert_eq!(*map.value(2), 7);
    assert!(map.get_mut("c").is_none());
}

#[test]
fn snapshot_holds_what_was_found() {
    let mut snapshot = Snapshot::new();
    assert!(!snapshot.is_dir(Folder::Root));
    snapshot.add_folder(Folder::Src);
    snapshot.add_file(Folder::Src, "lib.rs", vec![1]);
    snapshot.add_file(Folder::Src, "lib.rs", vec![2]);
    assert!(snapshot.is_dir(Folder::Src));
    assert!(!snapshot.is_dir(Folder::Root));
    assert_eq!(snapshot.read(Folder::Src, "lib.rs"), Some(&vec![2]));
    assert_eq!(snapshot.read(Folder::Root, "lib.rs"), None);
}
