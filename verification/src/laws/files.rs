//! Laws of the files: what was written is found again, and what changed is noticed.

use crate::bindings;
use crate::bindings::{BindingsView, InnerView};
use crate::contract::DraftView;
use crate::disk;
use crate::disk::{ActionView, Disk, ErrorView, FileView, Folder};
use crate::names;
use crate::order;
use vstd::prelude::*;
use vstd::utf8::encode_utf8;

verus! {

/// No two files of different contents go to the same place.
pub open spec fn no_clash(files: Seq<FileView>) -> bool {
    forall|i: int, j: int|
        0 <= i < files.len() && 0 <= j < files.len() && (#[trigger] files[i]).folder == (
        #[trigger] files[j]).folder && files[i].name == files[j].name ==> files[i].contents
            == files[j].contents
}

/// A check succeeds if and only if every expected file is there with exactly its contents.
pub proof fn law_check_is_exact(disk: Disk, files: Seq<FileView>)
    ensures
        disk::checked_all(disk, files) is Ok <==> forall|i: int|
            0 <= i < files.len() ==> {
                &&& disk.folders.contains((#[trigger] files[i]).folder)
                &&& disk.files.dom().contains((files[i].folder, files[i].name))
                &&& disk.files[(files[i].folder, files[i].name)] == files[i].contents
            },
    decreases files.len(),
{
    if files.len() > 0 {
        let rest = files.drop_first();
        law_check_is_exact(disk, rest);
        assert forall|i: int| 0 < i < files.len() implies #[trigger] files[i] == rest[i - 1] by {}
        assert forall|i: int| 0 <= i < rest.len() implies #[trigger] rest[i] == files[i + 1] by {}
    }
}

/// A check that fails reports the first file that is wrong: all before it are as expected.
pub proof fn law_check_reports_first(disk: Disk, files: Seq<FileView>)
    requires
        disk::checked_all(disk, files) is Err,
    ensures
        exists|n: int|
            {
                &&& 0 <= n < files.len()
                &&& disk::checked_all(disk, files) == disk::checked(disk, #[trigger] files[n])
                &&& disk::checked_all(disk, files.take(n)) is Ok
            },
    decreases files.len(),
{
    if disk::checked(disk, files[0]) is Err {
        assert(files.take(0) =~= Seq::<FileView>::empty());
        assert(disk::checked_all(disk, files) == disk::checked(disk, files[0]));
    } else {
        let rest = files.drop_first();
        law_check_reports_first(disk, rest);
        let n = choose|n: int|
            {
                &&& 0 <= n < rest.len()
                &&& disk::checked_all(disk, rest) == disk::checked(disk, #[trigger] rest[n])
                &&& disk::checked_all(disk, rest.take(n)) is Ok
            };
        let m = n + 1;
        assert(files[m] == rest[n]);
        assert(files.take(m).drop_first() =~= rest.take(n));
        assert(files.take(m)[0] == files[0]);
        assert(disk::checked_all(disk, files.take(m)) is Ok);
    }
}

proof fn lemma_after_lists(disk: Disk, a: Seq<ActionView>, b: Seq<ActionView>)
    ensures
        disk.after_all(a + b) == (match disk.after_all(a) {
            Some(next) => next.after_all(b),
            None => None,
        }),
    decreases b.len(),
{
    if b.len() == 0 {
        assert(a + b =~= a);
    } else {
        assert((a + b).drop_last() =~= a + b.drop_last());
        assert((a + b).last() == b.last());
        lemma_after_lists(disk, a, b.drop_last());
    }
}

/// The last of the files that go to that place is the one at `i`.
spec fn is_last_at(files: Seq<FileView>, place: (Folder, Seq<char>), i: int) -> bool {
    &&& 0 <= i < files.len()
    &&& (files[i].folder, files[i].name) == place
    &&& forall|j: int| i < j < files.len() ==> ((#[trigger] files[j]).folder, files[j].name) != place
}

/// The last of the files that go to that place has those contents.
spec fn leaves(files: Seq<FileView>, place: (Folder, Seq<char>), contents: Seq<u8>) -> bool {
    exists|i: int| #[trigger] is_last_at(files, place, i) && files[i].contents == contents
}

/// Whether one of the files goes to that place.
spec fn goes_to(files: Seq<FileView>, place: (Folder, Seq<char>)) -> bool {
    exists|i: int| 0 <= i < files.len() && ((#[trigger] files[i]).folder, files[i].name) == place
}

proof fn lemma_writes(disk: Disk, files: Seq<FileView>)
    requires
        forall|i: int| 0 <= i < files.len() ==> disk.folders.contains((#[trigger] files[i]).folder),
    ensures
        disk.after_all(bindings::writes(files)) is Some,
        ({
            let after = disk.after_all(bindings::writes(files))->0;
            &&& after.folders == disk.folders
            &&& forall|place: (Folder, Seq<char>)| #[trigger]
                after.files.dom().contains(place) <==> disk.files.dom().contains(place) || goes_to(
                    files,
                    place,
                )
            &&& forall|place: (Folder, Seq<char>)|
                !goes_to(files, place) ==> #[trigger] after.files[place] == disk.files[place]
            &&& forall|place: (Folder, Seq<char>)|
                goes_to(files, place) ==> leaves(files, place, #[trigger] after.files[place])
        }),
    decreases files.len(),
{
    let actions = bindings::writes(files);
    if files.len() > 0 {
        let rest = files.drop_last();
        let last = files.last();
        let n = files.len() - 1;
        assert(files[n] == last);
        assert(bindings::writes(rest) =~= actions.drop_last());
        assert forall|i: int| 0 <= i < rest.len() implies disk.folders.contains(
            (#[trigger] rest[i]).folder,
        ) by {
            assert(files[i] == rest[i]);
        }
        lemma_writes(disk, rest);
        let middle = disk.after_all(bindings::writes(rest))->0;
        let after = disk.after_all(actions)->0;
        assert(actions.last() == ActionView::Write {
            folder: last.folder,
            name: last.name,
            contents: last.contents,
        });
        assert forall|place: (Folder, Seq<char>)| #[trigger] goes_to(files, place) == (goes_to(
            rest,
            place,
        ) || place == (last.folder, last.name)) by {
            if goes_to(rest, place) {
                let i = choose|i: int|
                    0 <= i < rest.len() && ((#[trigger] rest[i]).folder, rest[i].name) == place;
                assert((files[i].folder, files[i].name) == place);
            }
            if goes_to(files, place) {
                let i = choose|i: int|
                    0 <= i < files.len() && ((#[trigger] files[i]).folder, files[i].name) == place;
                assert(i == n || (rest[i].folder, rest[i].name) == place);
            }
        }
        assert forall|place: (Folder, Seq<char>)| goes_to(files, place) implies leaves(
            files,
            place,
            #[trigger] after.files[place],
        ) by {
            if place == (last.folder, last.name) {
                assert(is_last_at(files, place, n));
            } else {
                assert(goes_to(rest, place));
                assert(after.files[place] == middle.files[place]);
                assert(leaves(rest, place, middle.files[place]));
                let i = choose|i: int| #[trigger]
                    is_last_at(rest, place, i) && rest[i].contents == middle.files[place];
                assert forall|j: int| i < j < files.len() implies ((#[trigger] files[j]).folder, files[j].name)
                    != place by {
                    if j < n {
                        assert(rest[j] == files[j]);
                    }
                }
                assert(is_last_at(files, place, i));
            }
        }
    } else {
        assert(actions =~= Seq::<ActionView>::empty());
    }
}

/// Files that were just written are found to be up to date if and only if no two of them go to the
/// same place with different contents.
pub proof fn law_written_files_are_consistent(disk: Disk, files: Seq<FileView>)
    requires
        forall|i: int| 0 <= i < files.len() ==> disk.folders.contains((#[trigger] files[i]).folder),
    ensures
        disk.after_all(bindings::writes(files)) is Some,
        disk::checked_all(disk.after_all(bindings::writes(files))->0, files) is Ok <==> no_clash(files),
{
    lemma_writes(disk, files);
    let after = disk.after_all(bindings::writes(files))->0;
    law_check_is_exact(after, files);
    if no_clash(files) {
        assert forall|i: int| 0 <= i < files.len() implies {
            &&& after.folders.contains((#[trigger] files[i]).folder)
            &&& after.files.dom().contains((files[i].folder, files[i].name))
            &&& after.files[(files[i].folder, files[i].name)] == files[i].contents
        } by {
            let place = (files[i].folder, files[i].name);
            assert(goes_to(files, place));
            assert(leaves(files, place, after.files[place]));
            let j = choose|j: int| #[trigger]
                is_last_at(files, place, j) && files[j].contents == after.files[place];
            assert(files[j].contents == files[i].contents);
        }
    }
    if disk::checked_all(after, files) is Ok {
        assert forall|i: int, j: int|
            0 <= i < files.len() && 0 <= j < files.len() && (#[trigger] files[i]).folder == (
            #[trigger] files[j]).folder && files[i].name == files[j].name implies files[i].contents
            == files[j].contents by {
            assert(after.files[(files[i].folder, files[i].name)] == files[i].contents);
            assert(after.files[(files[j].folder, files[j].name)] == files[j].contents);
        }
    }
}

proof fn lemma_source_folder(inner: InnerView, is_crate: bool, single_file: bool)
    ensures
        ({
            let files = inner.source_files(is_crate, single_file);
            forall|i: int|
                0 <= i < files.len() ==> (#[trigger] files[i]).folder == bindings::source_folder(is_crate)
        }),
{
    let files = inner.source_files(is_crate, single_file);
    let shared = inner.shared_file(is_crate);
    let contracts = inner.contracts().map_values(
        |contract: Seq<char>| inner.contract_file(is_crate, contract),
    );
    assert forall|i: int| 0 <= i < files.len() implies (#[trigger] files[i]).folder
        == bindings::source_folder(is_crate) by {
        if i == 0 {
            assert(files[0] == inner.super_file(is_crate, single_file));
        } else if i <= shared.len() {
            assert(files[i] == shared[i - 1]);
        } else {
            assert(files[i] == contracts[i - 1 - shared.len()]);
        }
    }
}

/// Which of the written files are expected: the one at each place, and the place that each of the
/// written files but a hidden one has among the expected.
proof fn lemma_expected_files(inner: InnerView, is_crate: bool)
    ensures
        ({
            let files = inner.source_files(is_crate, false);
            let expected = inner.expected_files(is_crate, false);
            let hidden = inner.hides_shared_file() && inner.shared_types is Some;
            &&& expected.len() == (if hidden {
                files.len() - 1
            } else {
                files.len() as int
            })
            &&& forall|i: int|
                0 <= i < expected.len() ==> #[trigger] expected[i] == files[if hidden && i > 0 {
                    i + 1
                } else {
                    i
                }]
            &&& hidden ==> files.len() > 1 && files[1] == inner.shared_file(is_crate)[0]
        }),
{
    let files = inner.source_files(is_crate, false);
    let expected = inner.expected_files(is_crate, false);
    let shared = inner.shared_file(is_crate);
    let contracts = inner.contracts().map_values(
        |contract: Seq<char>| inner.contract_file(is_crate, contract),
    );
    let hidden = inner.hides_shared_file() && inner.shared_types is Some;
    assert forall|i: int| 0 <= i < expected.len() implies #[trigger] expected[i] == files[if hidden && i
        > 0 {
        i + 1
    } else {
        i
    }] by {
        if hidden {
            if i > 0 {
                assert(expected[i] == contracts[i - 1]);
                assert(files[i + 1] == contracts[i - 1]);
            }
        } else {
            assert(inner.hides_shared_file() ==> shared =~= Seq::<FileView>::empty());
            assert(expected =~= files);
        }
    }
}

proof fn lemma_written_is_expected(disk: Disk, inner: InnerView, is_crate: bool, single_file: bool)
    requires
        inner.sources.dom().finite(),
        disk.folders.contains(bindings::source_folder(is_crate)),
    ensures
        ({
            let files = inner.source_files(is_crate, single_file);
            let expected = inner.expected_files(is_crate, single_file);
            &&& disk.after_all(bindings::writes(files)) is Some
            &&& disk::checked_all(disk.after_all(bindings::writes(files))->0, expected) is Ok
                <==> no_clash(expected)
        }),
{
    let files = inner.source_files(is_crate, single_file);
    let expected = inner.expected_files(is_crate, single_file);
    lemma_source_folder(inner, is_crate, single_file);
    lemma_writes(disk, files);
    let hidden = !single_file && inner.hides_shared_file() && inner.shared_types is Some;
    if !hidden {
        if !single_file {
            lemma_expected_files(inner, is_crate);
        }
        assert(expected =~= files);
        law_written_files_are_consistent(disk, files);
    } else {
        let after = disk.after_all(bindings::writes(files))->0;
        lemma_expected_files(inner, is_crate);
        law_check_is_exact(after, expected);
        let hiding = choose|c: Seq<char>| #[trigger]
            inner.sources.dom().contains(c) && names::file_name(c) == "shared_types.rs"@;
        let h = lemma_contract_file(inner, is_crate, hiding);
        assert(h > 1);
        if no_clash(expected) {
            assert forall|i: int| 0 <= i < expected.len() implies {
                &&& after.folders.contains((#[trigger] expected[i]).folder)
                &&& after.files.dom().contains((expected[i].folder, expected[i].name))
                &&& after.files[(expected[i].folder, expected[i].name)] == expected[i].contents
            } by {
                let place = (expected[i].folder, expected[i].name);
                let k = if i > 0 {
                    i + 1
                } else {
                    i
                };
                assert(expected[i] == files[k]);
                assert(goes_to(files, place));
                assert(leaves(files, place, after.files[place]));
                let j = choose|j: int| #[trigger]
                    is_last_at(files, place, j) && files[j].contents == after.files[place];
                assert(j != 1);
                let e = if j > 0 {
                    j - 1
                } else {
                    j
                };
                assert(expected[e] == files[j]);
            }
        }
        if disk::checked_all(after, expected) is Ok && !no_clash(expected) {
            law_clash_is_detected(after, expected);
        }
    }
}

/// A module that was just written is found to be up to date if and only if no two of the files that
/// are expected of it go to the same place with different contents. Nothing that the disk holds
/// keeps it from being written.
pub proof fn law_written_module_is_consistent(disk: Disk, inner: InnerView, single_file: bool)
    requires
        inner.sources.dom().finite(),
    ensures
        disk.after_all(inner.module_plan(single_file)) is Some,
        disk::checked_all(
            disk.after_all(inner.module_plan(single_file))->0,
            inner.expected_files(false, single_file),
        ) is Ok <==> no_clash(inner.expected_files(false, single_file)),
{
    let files = inner.source_files(false, single_file);
    let create = ActionView::CreateDir { folder: Folder::Root };
    let start = disk.after(create)->0;
    reveal_with_fuel(Disk::after_all, 2);
    assert(seq![create].drop_last() =~= Seq::<ActionView>::empty());
    assert(disk.after_all(seq![create]) == Some(start));
    lemma_after_lists(disk, seq![create], bindings::writes(files));
    lemma_written_is_expected(start, inner, false, single_file);
}

/// A crate is written if and only if there is no `Cargo.toml` yet. A crate that was just written is
/// found to be up to date, with its `Cargo.toml` or without, if and only if no two of the source
/// files that are expected of it go to the same place with different contents.
pub proof fn law_written_crate_is_consistent(
    disk: Disk,
    inner: InnerView,
    name: Seq<char>,
    version: Seq<char>,
    single_file: bool,
    check_cargo_toml: bool,
)
    requires
        inner.sources.dom().finite(),
    ensures
        disk.after_all(inner.crate_plan(name, version, single_file)) is Some
            <==> !disk.files.dom().contains((Folder::Root, "Cargo.toml"@)),
        !disk.files.dom().contains((Folder::Root, "Cargo.toml"@)) ==> (disk::checked_all(
            disk.after_all(inner.crate_plan(name, version, single_file))->0,
            inner.crate_files(name, version, single_file, check_cargo_toml),
        ) is Ok <==> no_clash(inner.expected_files(true, single_file))),
{
    let files = inner.source_files(true, single_file);
    let create = ActionView::CreateDir { folder: Folder::Src };
    let cargo = bindings::cargo_file(name, version);
    let new = ActionView::CreateNew {
        folder: Folder::Root,
        name: "Cargo.toml"@,
        contents: cargo.contents,
    };
    let first = seq![create, new];
    reveal_with_fuel(Disk::after_all, 3);
    assert(first.drop_last() =~= seq![create]);
    assert(seq![create].drop_last() =~= Seq::<ActionView>::empty());
    let start = disk.after(create)->0;
    assert(disk.after_all(first) == start.after(new));
    lemma_after_lists(disk, first, bindings::writes(files));
    if !disk.files.dom().contains((Folder::Root, "Cargo.toml"@)) {
        let middle = start.after(new)->0;
        lemma_source_folder(inner, true, single_file);
        lemma_written_is_expected(middle, inner, true, single_file);
        lemma_writes(middle, files);
        let after = middle.after_all(bindings::writes(files))->0;
        let place = (Folder::Root, "Cargo.toml"@);
        assert(!goes_to(files, place));
        assert(after.files[place] == middle.files[place]);
        assert(disk::checked(after, cargo) is Ok);
        let expected = inner.expected_files(true, single_file);
        disk::lemma_checked_one(after, cargo);
        disk::lemma_checked_lists(after, seq![cargo], expected);
        disk::lemma_checked_lists(after, Seq::empty(), expected);
    }
}

/// No contract has the module `mod`, which is a reserved word, so none has the file `mod.rs`.
proof fn lemma_no_module_is_mod(contract: Seq<char>)
    ensures
        names::module_name(contract) != "mod"@,
        names::file_name(contract) != "mod.rs"@,
{
    let module = names::module_name(contract);
    let snake = names::snake_case(contract);
    reveal_strlit("_");
    reveal_strlit("mod");
    reveal_strlit(".rs");
    reveal_strlit("mod.rs");
    if snake.len() > 0 {
        names::law_module_name_is_usable(snake);
    }
    assert(names::is_reserved("mod"@));
    assert(module =~= (module + ".rs"@).take(module.len() as int));
    assert("mod"@ =~= "mod.rs"@.take(3));
}

/// A module that was just written holds its `mod.rs` as it was written: no contract is written over
/// it.
pub proof fn law_written_module_holds_its_super_file(disk: Disk, inner: InnerView, single_file: bool)
    ensures
        disk.after_all(inner.module_plan(single_file)) is Some,
        disk::checked(
            disk.after_all(inner.module_plan(single_file))->0,
            inner.super_file(false, single_file),
        ) is Ok,
{
    let files = inner.source_files(false, single_file);
    let shared = inner.shared_file(false);
    let contracts = inner.contracts();
    let of_contracts = contracts.map_values(
        |contract: Seq<char>| inner.contract_file(false, contract),
    );
    let n = shared.len();
    let create = ActionView::CreateDir { folder: Folder::Root };
    let start = disk.after(create)->0;
    reveal_with_fuel(Disk::after_all, 2);
    assert(seq![create].drop_last() =~= Seq::<ActionView>::empty());
    assert(disk.after_all(seq![create]) == Some(start));
    lemma_after_lists(disk, seq![create], bindings::writes(files));
    lemma_source_folder(inner, false, single_file);
    lemma_writes(start, files);
    let after = start.after_all(bindings::writes(files))->0;
    let place = (Folder::Root, "mod.rs"@);
    assert(files[0] == inner.super_file(false, single_file));
    assert(goes_to(files, place));
    assert(leaves(files, place, after.files[place]));
    let i = choose|i: int| #[trigger]
        is_last_at(files, place, i) && files[i].contents == after.files[place];
    assert(i == 0) by {
        reveal_strlit("mod.rs");
        reveal_strlit("shared_types.rs");
        assert("mod.rs"@.len() != "shared_types.rs"@.len());
        if 0 < i <= n {
            assert(files[i] == shared[i - 1]);
        }
        if i > n {
            assert(files[i] == of_contracts[i - 1 - n]);
            lemma_no_module_is_mod(contracts[i - 1 - n]);
        }
    }
    assert(after.files.dom().contains(place));
}

/// In a single file nothing clashes.
pub proof fn law_single_file_does_not_clash(inner: InnerView, is_crate: bool)
    ensures
        no_clash(inner.expected_files(is_crate, true)),
{
}

/// Files of their own do not clash where every contract has a module name of its own, and none
/// gives the file of the crate's root.
pub proof fn law_distinct_modules_do_not_clash(inner: InnerView, is_crate: bool)
    requires
        inner.sources.dom().finite(),
        forall|a: Seq<char>, b: Seq<char>|
            #[trigger] inner.sources.dom().contains(a) && #[trigger] inner.sources.dom().contains(b)
                && a != b ==> names::module_name(a) != names::module_name(b),
        is_crate ==> forall|c: Seq<char>| #[trigger]
            inner.sources.dom().contains(c) ==> names::module_name(c) != "lib"@,
    ensures
        no_clash(inner.expected_files(is_crate, false)),
{
    let files = inner.expected_files(is_crate, false);
    let shared = if inner.hides_shared_file() {
        Seq::empty()
    } else {
        inner.shared_file(is_crate)
    };
    let contracts = inner.contracts();
    let n = shared.len();
    order::law_listing(inner.sources.dom());
    let of_contracts = contracts.map_values(
        |contract: Seq<char>| inner.contract_file(is_crate, contract),
    );
    let super_module = if is_crate {
        "lib"@
    } else {
        "mod"@
    };
    reveal_strlit("_");
    reveal_strlit("lib");
    reveal_strlit("mod");
    reveal_strlit("lib.rs");
    reveal_strlit("mod.rs");
    reveal_strlit(".rs");
    reveal_strlit("shared_types");
    reveal_strlit("shared_types.rs");
    assert(bindings::super_name(is_crate) =~= super_module + ".rs"@);
    assert("shared_types.rs"@ =~= "shared_types"@ + ".rs"@);
    assert("lib"@.len() != "shared_types"@.len() && "mod"@.len() != "shared_types"@.len());
    // The module whose file stands at each place.
    let modules = Seq::new(
        files.len(),
        |i: int|
            if i == 0 {
                super_module
            } else if i <= n {
                "shared_types"@
            } else {
                names::module_name(contracts[i - 1 - n])
            },
    );
    assert forall|i: int| 0 <= i < files.len() implies (#[trigger] files[i]).name == modules[i] + ".rs"@ by {
        if i == 0 {
        } else if i <= n {
            assert(files[i] == shared[i - 1]);
        } else {
            assert(files[i] == of_contracts[i - 1 - n]);
        }
    }
    assert forall|k: int| 0 <= k < contracts.len() implies inner.sources.dom().contains(
        #[trigger] contracts[k],
    ) by {
        assert(contracts.to_set().contains(contracts[k]));
    }
    assert forall|c: Seq<char>| !is_crate implies #[trigger] names::module_name(c) != super_module by {
        lemma_no_module_is_mod(c);
    }
    assert forall|i: int, j: int| 0 <= i < j < files.len() implies modules[i] != modules[j] by {
        if i <= n && j > n {
            assert(inner.sources.dom().contains(contracts[j - 1 - n]));
        }
        if i > n {
            let a = contracts[i - 1 - n];
            let b = contracts[j - 1 - n];
            assert(order::before(a, b));
            order::law_before_irreflexive(a);
            assert(inner.sources.dom().contains(a) && inner.sources.dom().contains(b));
        }
    }
    assert forall|i: int, j: int|
        0 <= i < files.len() && 0 <= j < files.len() && (#[trigger] files[i]).folder == (
        #[trigger] files[j]).folder && files[i].name == files[j].name implies files[i].contents
        == files[j].contents by {
        assert(modules[i] =~= (modules[i] + ".rs"@).take(files[i].name.len() - 3));
        assert(modules[j] =~= (modules[j] + ".rs"@).take(files[j].name.len() - 3));
        assert(modules[i] == modules[j]);
        assert(i == j);
    }
}

/// Writing a module leaves every other file as it was.
pub proof fn law_writing_module_keeps_other_files(
    disk: Disk,
    inner: InnerView,
    single_file: bool,
    place: (Folder, Seq<char>),
)
    requires
        forall|i: int|
            #![trigger inner.source_files(false, single_file)[i]]
            0 <= i < inner.source_files(false, single_file).len() ==> {
                let file = inner.source_files(false, single_file)[i];
                (file.folder, file.name) != place
            },
    ensures
        ({
            let after = disk.after_all(inner.module_plan(single_file))->0;
            &&& after.files.dom().contains(place) == disk.files.dom().contains(place)
            &&& after.files[place] == disk.files[place]
        }),
{
    let files = inner.source_files(false, single_file);
    let create = ActionView::CreateDir { folder: Folder::Root };
    let start = disk.after(create)->0;
    reveal_with_fuel(Disk::after_all, 2);
    assert(seq![create].drop_last() =~= Seq::<ActionView>::empty());
    assert(disk.after_all(seq![create]) == Some(start));
    lemma_after_lists(disk, seq![create], bindings::writes(files));
    lemma_source_folder(inner, false, single_file);
    lemma_writes(start, files);
    assert(!goes_to(files, place));
    let after = start.after_all(bindings::writes(files))->0;
    assert(after.files[place] == start.files[place]);
}

/// Writing a crate leaves every other file as it was.
pub proof fn law_writing_crate_keeps_other_files(
    disk: Disk,
    inner: InnerView,
    name: Seq<char>,
    version: Seq<char>,
    single_file: bool,
    place: (Folder, Seq<char>),
)
    requires
        disk.after_all(inner.crate_plan(name, version, single_file)) is Some,
        place != (Folder::Root, "Cargo.toml"@),
        forall|i: int|
            #![trigger inner.source_files(true, single_file)[i]]
            0 <= i < inner.source_files(true, single_file).len() ==> {
                let file = inner.source_files(true, single_file)[i];
                (file.folder, file.name) != place
            },
    ensures
        ({
            let after = disk.after_all(inner.crate_plan(name, version, single_file))->0;
            &&& after.files.dom().contains(place) == disk.files.dom().contains(place)
            &&& after.files[place] == disk.files[place]
        }),
{
    let files = inner.source_files(true, single_file);
    let middle = lemma_crate_start(disk, inner, name, version, single_file);
    assert(!goes_to(files, place));
    let after = middle.after_all(bindings::writes(files))->0;
    assert(after.files[place] == middle.files[place]);
}

/// The disk once the directories and the `Cargo.toml` of a crate are there.
proof fn lemma_crate_start(
    disk: Disk,
    inner: InnerView,
    name: Seq<char>,
    version: Seq<char>,
    single_file: bool,
) -> (middle: Disk)
    requires
        !disk.files.dom().contains((Folder::Root, "Cargo.toml"@)) || disk.after_all(
            inner.crate_plan(name, version, single_file),
        ) is Some,
    ensures
        !disk.files.dom().contains((Folder::Root, "Cargo.toml"@)),
        middle.files == disk.files.insert(
            (Folder::Root, "Cargo.toml"@),
            bindings::cargo_file(name, version).contents,
        ),
        middle.folders == disk.folders.insert(Folder::Root).insert(Folder::Src),
        disk.after_all(inner.crate_plan(name, version, single_file)) == middle.after_all(
            bindings::writes(inner.source_files(true, single_file)),
        ),
        disk.after_all(inner.crate_plan(name, version, single_file)) is Some,
        ({
            let files = inner.source_files(true, single_file);
            let after = middle.after_all(bindings::writes(files))->0;
            &&& after.folders == middle.folders
            &&& forall|place: (Folder, Seq<char>)| #[trigger]
                after.files.dom().contains(place) <==> middle.files.dom().contains(place) || goes_to(
                    files,
                    place,
                )
            &&& forall|place: (Folder, Seq<char>)|
                !goes_to(files, place) ==> #[trigger] after.files[place] == middle.files[place]
        }),
{
    let files = inner.source_files(true, single_file);
    let create = ActionView::CreateDir { folder: Folder::Src };
    let new = ActionView::CreateNew {
        folder: Folder::Root,
        name: "Cargo.toml"@,
        contents: bindings::cargo_file(name, version).contents,
    };
    let first = seq![create, new];
    reveal_with_fuel(Disk::after_all, 3);
    assert(first.drop_last() =~= seq![create]);
    assert(seq![create].drop_last() =~= Seq::<ActionView>::empty());
    let start = disk.after(create)->0;
    assert(disk.after_all(first) == start.after(new));
    lemma_after_lists(disk, first, bindings::writes(files));
    lemma_source_folder(inner, true, single_file);
    let middle = start.after(new)->0;
    lemma_writes(middle, files);
    middle
}

/// A crate is written once: where it was written, writing one again fails at its `Cargo.toml`.
pub proof fn law_crate_is_written_once(
    disk: Disk,
    inner: InnerView,
    name: Seq<char>,
    version: Seq<char>,
    single_file: bool,
    other: InnerView,
    other_name: Seq<char>,
    other_version: Seq<char>,
    other_single_file: bool,
)
    requires
        disk.after_all(inner.crate_plan(name, version, single_file)) is Some,
    ensures
        (disk.after_all(inner.crate_plan(name, version, single_file))->0).after_all(
            other.crate_plan(other_name, other_version, other_single_file),
        ) is None,
{
    let files = inner.source_files(true, single_file);
    let middle = lemma_crate_start(disk, inner, name, version, single_file);
    let after = middle.after_all(bindings::writes(files))->0;
    assert(after.files.dom().contains((Folder::Root, "Cargo.toml"@)));
    if after.after_all(other.crate_plan(other_name, other_version, other_single_file)) is Some {
        lemma_crate_start(after, other, other_name, other_version, other_single_file);
    }
}

proof fn lemma_declarations_grow(few: Seq<Seq<char>>, many: Seq<Seq<char>>)
    requires
        order::ascending(few),
        order::ascending(many),
        few.to_set().subset_of(many.to_set()),
    ensures
        bindings::declarations(few).len() <= bindings::declarations(many).len(),
        few != many ==> bindings::declarations(few).len() < bindings::declarations(many).len(),
    decreases many.len(),
{
    reveal_strlit("pub mod ");
    if many.len() == 0 {
        if few.len() > 0 {
            assert(few.to_set().contains(few[0]));
            assert(many.to_set().contains(few[0]));
        }
        assert(few =~= many);
    } else {
        let last = many.last();
        let rest = many.drop_last();
        let n = many.len() - 1;
        assert(many[n] == last);
        assert forall|i: int| 0 <= i < few.len() implies rest.contains(#[trigger] few[i]) || few[i] == last by {
            assert(few.to_set().contains(few[i]));
            assert(many.to_set().contains(few[i]));
            let j = choose|j: int| 0 <= j < many.len() && many[j] == few[i];
            if j < n {
                assert(rest[j] == few[i]);
            }
        }
        if few.len() > 0 && few.last() == last {
            let short = few.drop_last();
            assert forall|c: Seq<char>| short.to_set().contains(c) implies rest.to_set().contains(c) by {
                let i = choose|i: int| 0 <= i < short.len() && short[i] == c;
                assert(few[i] == c);
                assert(order::before(few[i], few[few.len() - 1]));
                order::law_before_irreflexive(last);
            }
            lemma_declarations_grow(short, rest);
            assert(few =~= short.push(last));
            assert(many =~= rest.push(last));
        } else {
            assert forall|c: Seq<char>| few.to_set().contains(c) implies rest.to_set().contains(c) by {
                let i = choose|i: int| 0 <= i < few.len() && few[i] == c;
                assert(few[i] == c);
                if c == last {
                    let f = few.last();
                    assert(few[few.len() - 1] == f);
                    assert(order::before(few[i], few[few.len() - 1]));
                    assert(rest.contains(f));
                    let j = choose|j: int| 0 <= j < rest.len() && rest[j] == f;
                    assert(order::before(many[j], many[n]));
                    order::law_before_transitive(last, f, last);
                    order::law_before_irreflexive(last);
                }
            }
            lemma_declarations_grow(few, rest);
        }
    }
}

proof fn lemma_modules_finite(inner: InnerView)
    requires
        inner.sources.dom().finite(),
    ensures
        inner.modules().finite(),
{
    let of_contracts = inner.sources.dom().map(|c: Seq<char>| names::module_name(c));
    inner.sources.dom().lemma_map_finite(|c: Seq<char>| names::module_name(c));
    let all = of_contracts.insert("shared_types"@);
    assert forall|m: Seq<char>| inner.modules().contains(m) implies all.contains(m) by {
        if m != "shared_types"@ {
            let c = choose|c: Seq<char>|
                #[trigger] inner.sources.dom().contains(c) && m == names::module_name(c);
            assert(of_contracts.contains(names::module_name(c)));
        }
    }
    assert(inner.modules().subset_of(all));
    vstd::set_lib::lemma_set_subset_finite(all, inner.modules());
}

/// The module declarations are sorted by name, name every module and nothing else, and none occurs
/// twice.
pub proof fn law_modules_are_declared_in_order(inner: InnerView)
    requires
        inner.sources.dom().finite(),
    ensures
        order::ascending(order::listing(inner.modules())),
        order::listing(inner.modules()).to_set() == inner.modules(),
        order::listing(inner.modules()).no_duplicates(),
{
    lemma_modules_finite(inner);
    order::law_listing(inner.modules());
    let list = order::listing(inner.modules());
    assert forall|i: int, j: int| 0 <= i < list.len() && 0 <= j < list.len() && i != j implies list[i]
        != list[j] by {
        order::law_before_irreflexive(list[i]);
        if i < j {
            assert(order::before(list[i], list[j]));
        } else {
            assert(order::before(list[j], list[i]));
        }
    }
}

/// Where bindings have all modules of those that were written to files of their own, and one more,
/// the check fails on the `lib.rs` or `mod.rs`.
pub proof fn law_added_module_is_detected(disk: Disk, written: InnerView, fresh: InnerView, is_crate: bool)
    requires
        written.sources.dom().finite(),
        fresh.sources.dom().finite(),
        written.modules().subset_of(fresh.modules()),
        written.modules() != fresh.modules(),
        disk::checked(disk, written.super_file(is_crate, false)) is Ok,
    ensures
        disk::checked_all(disk, fresh.expected_files(is_crate, false)) == Err::<(), ErrorView>(
            (ErrorView::OutOfDate {
                folder: bindings::source_folder(is_crate),
                name: bindings::super_name(is_crate),
            }),
        ),
{
    law_modules_are_declared_in_order(written);
    law_modules_are_declared_in_order(fresh);
    let few = order::listing(written.modules());
    let many = order::listing(fresh.modules());
    lemma_declarations_grow(few, many);
    lemma_different_texts(
        written.super_contents(is_crate, false),
        fresh.super_contents(is_crate, false),
    );
    assert(fresh.expected_files(is_crate, false)[0] == fresh.super_file(is_crate, false));
}

proof fn lemma_different_texts(a: Seq<char>, b: Seq<char>)
    requires
        a != b,
    ensures
        encode_utf8(a) != encode_utf8(b),
{
    vstd::utf8::encode_utf8_decode_utf8(a);
    vstd::utf8::encode_utf8_decode_utf8(b);
}

/// Where a file was as it was written, and is now expected at the same place with other contents,
/// the check fails.
pub proof fn law_changed_file_is_detected(
    disk: Disk,
    written: Seq<FileView>,
    fresh: Seq<FileView>,
    i: int,
    j: int,
)
    requires
        disk::checked_all(disk, written) is Ok,
        0 <= i < written.len(),
        0 <= j < fresh.len(),
        written[i].folder == fresh[j].folder,
        written[i].name == fresh[j].name,
        written[i].contents != fresh[j].contents,
    ensures
        disk::checked_all(disk, fresh) is Err,
{
    law_check_is_exact(disk, written);
    law_check_is_exact(disk, fresh);
}

/// Files of different contents that go to the same place never pass a check.
pub proof fn law_clash_is_detected(disk: Disk, files: Seq<FileView>)
    requires
        !no_clash(files),
    ensures
        disk::checked_all(disk, files) is Err,
{
    law_check_is_exact(disk, files);
}

/// The place of a contract's file among the files of their own.
proof fn lemma_contract_file(inner: InnerView, is_crate: bool, contract: Seq<char>) -> (i: int)
    requires
        inner.sources.dom().finite(),
        inner.sources.dom().contains(contract),
    ensures
        inner.shared_file(is_crate).len() < i < inner.source_files(is_crate, false).len(),
        inner.source_files(is_crate, false)[i] == inner.contract_file(is_crate, contract),
{
    order::law_listing(inner.sources.dom());
    let contracts = inner.contracts();
    assert(contracts.to_set().contains(contract));
    let k = choose|k: int| 0 <= k < contracts.len() && contracts[k] == contract;
    let of_contracts = contracts.map_values(|c: Seq<char>| inner.contract_file(is_crate, c));
    let n = inner.shared_file(is_crate).len();
    assert(inner.source_files(is_crate, false)[1 + n + k] == of_contracts[k]);
    1 + n + k
}

/// The place of a contract's file among the files that are expected.
proof fn lemma_expected_contract_file(inner: InnerView, is_crate: bool, contract: Seq<char>) -> (i: int)
    requires
        inner.sources.dom().finite(),
        inner.sources.dom().contains(contract),
    ensures
        0 < i < inner.expected_files(is_crate, false).len(),
        inner.expected_files(is_crate, false)[i] == inner.contract_file(is_crate, contract),
{
    let k = lemma_contract_file(inner, is_crate, contract);
    lemma_expected_files(inner, is_crate);
    let i = if inner.hides_shared_file() && inner.shared_types is Some {
        k - 1
    } else {
        k
    };
    assert(inner.expected_files(is_crate, false)[i] == inner.source_files(is_crate, false)[k]);
    i
}

/// Where the source text of a contract changed since it was written to a file of its own, the
/// check fails.
pub proof fn law_changed_contract_is_detected(
    disk: Disk,
    written: InnerView,
    fresh: InnerView,
    is_crate: bool,
    contract: Seq<char>,
)
    requires
        written.sources.dom().finite(),
        fresh.sources.dom().finite(),
        disk::checked_all(disk, written.expected_files(is_crate, false)) is Ok,
        written.sources.dom().contains(contract),
        fresh.sources.dom().contains(contract),
        written.sources[contract] != fresh.sources[contract],
    ensures
        disk::checked_all(disk, fresh.expected_files(is_crate, false)) is Err,
{
    let i = lemma_expected_contract_file(written, is_crate, contract);
    let j = lemma_expected_contract_file(fresh, is_crate, contract);
    lemma_different_texts(written.sources[contract], fresh.sources[contract]);
    law_changed_file_is_detected(
        disk,
        written.expected_files(is_crate, false),
        fresh.expected_files(is_crate, false),
        i,
        j,
    );
}

/// Where the source text of the shared types changed since it was written to a file of its own,
/// which no contract takes the place of, the check fails.
pub proof fn law_changed_shared_types_are_detected(
    disk: Disk,
    written: InnerView,
    fresh: InnerView,
    is_crate: bool,
)
    requires
        disk::checked_all(disk, written.expected_files(is_crate, false)) is Ok,
        written.shared_types is Some,
        fresh.shared_types is Some,
        written.shared_types != fresh.shared_types,
        !written.hides_shared_file(),
        !fresh.hides_shared_file(),
    ensures
        disk::checked_all(disk, fresh.expected_files(is_crate, false)) is Err,
{
    let before = written.expected_files(is_crate, false);
    let after = fresh.expected_files(is_crate, false);
    assert(before[1] == written.shared_file(is_crate)[0]);
    assert(after[1] == fresh.shared_file(is_crate)[0]);
    lemma_different_texts(written.shared_types->0, fresh.shared_types->0);
    law_changed_file_is_detected(disk, before, after, 1, 1);
}

/// Where anything changed in a single file since it was written, the check fails on that file.
pub proof fn law_changed_single_file_is_detected(
    disk: Disk,
    written: InnerView,
    fresh: InnerView,
    is_crate: bool,
)
    requires
        disk::checked_all(disk, written.expected_files(is_crate, true)) is Ok,
        written.super_contents(is_crate, true) != fresh.super_contents(is_crate, true),
    ensures
        disk::checked_all(disk, fresh.expected_files(is_crate, true)) == Err::<(), ErrorView>(
            (ErrorView::OutOfDate {
                folder: bindings::source_folder(is_crate),
                name: bindings::super_name(is_crate),
            }),
        ),
{
    assert(written.expected_files(is_crate, true)[0] == written.super_file(is_crate, true));
    assert(fresh.expected_files(is_crate, true)[0] == fresh.super_file(is_crate, true));
    lemma_different_texts(
        written.super_contents(is_crate, true),
        fresh.super_contents(is_crate, true),
    );
}

/// The length of the texts of all names in a row.
spec fn total(list: Seq<Seq<char>>, texts: Map<Seq<char>, Seq<char>>) -> nat {
    bindings::in_a_row(list.map_values(|c: Seq<char>| texts[c])).len()
}

proof fn lemma_total(list: Seq<Seq<char>>, texts: Map<Seq<char>, Seq<char>>)
    requires
        list.len() > 0,
    ensures
        total(list, texts) == total(list.drop_last(), texts) + texts[list.last()].len(),
{
    let all = list.map_values(|c: Seq<char>| texts[c]);
    assert(all.drop_last() =~= list.drop_last().map_values(|c: Seq<char>| texts[c]));
}

proof fn lemma_one_more_text(
    few: Seq<Seq<char>>,
    many: Seq<Seq<char>>,
    name: Seq<char>,
    texts: Map<Seq<char>, Seq<char>>,
)
    requires
        order::ascending(few),
        order::ascending(many),
        many.to_set() == few.to_set().insert(name),
        !few.contains(name),
    ensures
        total(many, texts) == total(few, texts) + texts[name].len(),
    decreases many.len(),
{
    assert(many.to_set().contains(name));
    let last = many.last();
    let rest = many.drop_last();
    let n = many.len() - 1;
    assert(many[n] == last);
    lemma_total(many, texts);
    lemma_without_last(many);
    if last == name {
        assert(rest.to_set() =~= few.to_set()) by {
            assert(few.to_set().contains(name) == few.contains(name));
        }
        order::law_listing_unique(few, rest);
    } else {
        assert(many.to_set().contains(last));
        assert(few.to_set().contains(last));
        let i = choose|i: int| 0 <= i < few.len() && few[i] == last;
        let f = few.last();
        assert(few[few.len() - 1] == f);
        if i < few.len() - 1 {
            assert(order::before(few[i], few[few.len() - 1]));
            assert(few.to_set().contains(f));
            assert(many.to_set().contains(f));
            let j = choose|j: int| 0 <= j < many.len() && many[j] == f;
            order::law_before_irreflexive(last);
            if j < n {
                assert(order::before(many[j], many[n]));
                order::law_before_transitive(last, f, last);
            }
        }
        assert(f == last);
        let short = few.drop_last();
        lemma_total(few, texts);
        lemma_without_last(few);
        if short.contains(name) {
            let k = choose|k: int| 0 <= k < short.len() && short[k] == name;
            assert(few[k] == name);
        }
        assert(rest.to_set() =~= short.to_set().insert(name));
        lemma_one_more_text(short, rest, name, texts);
    }
}

/// The names of an ascending list without its last.
pub proof fn lemma_without_last(list: Seq<Seq<char>>)
    requires
        list.len() > 0,
        order::ascending(list),
    ensures
        list.drop_last().to_set() == list.to_set().remove(list.last()),
{
    let rest = list.drop_last();
    let last = list.last();
    assert forall|c: Seq<char>| rest.to_set().contains(c) == list.to_set().remove(last).contains(c) by {
        if rest.contains(c) {
            let i = choose|i: int| 0 <= i < rest.len() && rest[i] == c;
            assert(list[i] == c);
            assert(order::before(list[i], list[list.len() - 1]));
            order::law_before_irreflexive(c);
        }
        if list.contains(c) && c != last {
            let i = choose|i: int| 0 <= i < list.len() && list[i] == c;
            assert(rest[i] == c);
        }
    }
    assert(rest.to_set() =~= list.to_set().remove(last));
}

/// Where one more contract, with some text, goes to a single file since it was written, the check
/// fails.
pub proof fn law_added_text_is_detected_in_single_file(
    disk: Disk,
    written: InnerView,
    fresh: InnerView,
    is_crate: bool,
    contract: Seq<char>,
    text: Seq<char>,
)
    requires
        written.sources.dom().finite(),
        disk::checked_all(disk, written.expected_files(is_crate, true)) is Ok,
        !written.sources.dom().contains(contract),
        text.len() > 0,
        fresh.sources == written.sources.insert(contract, text),
        fresh.shared_types == written.shared_types,
    ensures
        disk::checked_all(disk, fresh.expected_files(is_crate, true)) is Err,
{
    order::law_listing(written.sources.dom());
    order::law_listing(fresh.sources.dom());
    let few = written.contracts();
    let many = fresh.contracts();
    if few.contains(contract) {
        assert(few.to_set().contains(contract));
    }
    assert(many.to_set() =~= few.to_set().insert(contract));
    lemma_one_more_text(few, many, contract, fresh.sources);
    let old_texts = few.map_values(|c: Seq<char>| written.sources[c]);
    let new_texts = few.map_values(|c: Seq<char>| fresh.sources[c]);
    assert forall|i: int| 0 <= i < few.len() implies #[trigger] old_texts[i] == new_texts[i] by {
        assert(few.to_set().contains(few[i]));
    }
    assert(old_texts =~= new_texts);
    assert(written.all_sources().len() < fresh.all_sources().len());
    assert(written.super_contents(is_crate, true).len() < fresh.super_contents(is_crate, true).len());
    law_changed_single_file_is_detected(disk, written, fresh, is_crate);
}

/// Whether the file is that of a declared module.
pub open spec fn is_declared(inner: InnerView, file: FileView) -> bool {
    exists|module: Seq<char>| #[trigger]
        inner.modules().contains(module) && file.name == module + ".rs"@
}

/// Every declared module has its file, and every file but the `lib.rs` or `mod.rs` itself has its
/// declaration.
pub proof fn law_modules_and_files_agree(inner: InnerView, is_crate: bool)
    requires
        inner.sources.dom().finite(),
    ensures
        forall|module: Seq<char>| #[trigger]
            inner.modules().contains(module) ==> exists|i: int|
                {
                    &&& 0 < i < inner.source_files(is_crate, false).len()
                    &&& (#[trigger] inner.source_files(is_crate, false)[i]).name == module + ".rs"@
                },
        forall|i: int|
            0 < i < inner.source_files(is_crate, false).len() ==> is_declared(
                inner,
                #[trigger] inner.source_files(is_crate, false)[i],
            ),
{
    let files = inner.source_files(is_crate, false);
    let shared = inner.shared_file(is_crate);
    let contracts = inner.contracts();
    let n = shared.len();
    reveal_strlit("shared_types");
    reveal_strlit(".rs");
    reveal_strlit("shared_types.rs");
    assert("shared_types.rs"@ =~= "shared_types"@ + ".rs"@);
    assert forall|module: Seq<char>| #[trigger] inner.modules().contains(module) implies exists|i: int|
        0 < i < files.len() && (#[trigger] files[i]).name == module + ".rs"@ by {
        if inner.shared_types is Some && module == "shared_types"@ {
            assert(files[1] == shared[0]);
        } else {
            let c = choose|c: Seq<char>|
                #[trigger] inner.sources.dom().contains(c) && module == names::module_name(c);
            let i = lemma_contract_file(inner, is_crate, c);
            assert(files[i].name == module + ".rs"@);
        }
    }
    order::law_listing(inner.sources.dom());
    assert forall|i: int| 0 < i < files.len() implies is_declared(inner, #[trigger] files[i]) by {
        if i <= n {
            assert(files[i] == shared[i - 1]);
            assert(inner.modules().contains("shared_types"@));
        } else {
            let c = contracts[i - 1 - n];
            let of_contracts = contracts.map_values(|c: Seq<char>| inner.contract_file(is_crate, c));
            assert(files[i] == of_contracts[i - 1 - n]);
            assert(contracts.to_set().contains(c));
            assert(inner.sources.dom().contains(c));
            assert(inner.modules().contains(names::module_name(c)));
        }
    }
}

/// Whether what `format` answers depends on the text alone.
pub open spec fn repeats<F: Fn(&String) -> Option<String>>(format: F) -> bool {
    forall|a: String, b: String, x: Option<String>, y: Option<String>|
        #![trigger call_ensures(format, (&a,), x), call_ensures(format, (&b,), y)]
        a@ == b@ && call_ensures(format, (&a,), x) && call_ensures(format, (&b,), y) ==> match (x, y) {
            (Some(s), Some(t)) => s@ == t@,
            (None, None) => true,
            _ => false,
        }
}

pub proof fn lemma_reads_once<F: Fn(&String) -> Option<String>>(
    format: F,
    draft: DraftView,
    a: Seq<char>,
    b: Seq<char>,
)
    requires
        repeats(format) || !draft.rustfmt,
        draft.reads(format, a),
        draft.reads(format, b),
    ensures
        a == b,
{
}

/// The same code gives the same source text again, where it is not formatted or formatting gives
/// the same again.
pub proof fn law_rendering_repeats<F: Fn(&String) -> Option<String>>(
    format: F,
    bindings: BindingsView,
    single_file: bool,
    a: InnerView,
    b: InnerView,
)
    requires
        repeats(format) || !bindings.rustfmt,
        a.renders(format, bindings.drafts(single_file)),
        b.renders(format, bindings.drafts(single_file)),
    ensures
        a == b,
{
    let drafts = bindings.drafts(single_file);
    let contracts = bindings.expansion.with_import(
        crate::tokens::shared_import(single_file),
    ).contracts;
    lemma_rustfmt(contracts, bindings.rustfmt);
    assert forall|c: Seq<char>| a.sources.dom().contains(c) implies a.sources[c] == b.sources[c] by {
        assert(b.sources.dom().contains(c));
        lemma_reads_once(format, drafts.bindings[c], a.sources[c], b.sources[c]);
    }
    assert(a.sources =~= b.sources);
    if drafts.shared_types is Some {
        lemma_reads_once(
            format,
            drafts.shared_types->0,
            a.shared_types->0,
            b.shared_types->0,
        );
    }
}

pub proof fn lemma_rustfmt(contracts: Seq<crate::expansion::ContractView>, rustfmt: bool)
    ensures
        forall|c: Seq<char>| #[trigger]
            crate::expansion::by_name(contracts, rustfmt).dom().contains(c)
                ==> crate::expansion::by_name(contracts, rustfmt)[c].rustfmt == rustfmt,
    decreases contracts.len(),
{
    if contracts.len() > 0 {
        let rest = crate::expansion::by_name(contracts.drop_last(), rustfmt);
        lemma_rustfmt(contracts.drop_last(), rustfmt);
        assert forall|c: Seq<char>| #[trigger]
            crate::expansion::by_name(contracts, rustfmt).dom().contains(c) implies crate::expansion::by_name(
            contracts,
            rustfmt,
        )[c].rustfmt == rustfmt by {
            if c != contracts.last().1.contract_name {
                assert(rest.dom().contains(c));
            }
        }
    }
}

/// There are finitely many bindings.
pub proof fn lemma_bindings_finite(contracts: Seq<crate::expansion::ContractView>, rustfmt: bool)
    ensures
        crate::expansion::by_name(contracts, rustfmt).dom().finite(),
    decreases contracts.len(),
{
    if contracts.len() > 0 {
        lemma_bindings_finite(contracts.drop_last(), rustfmt);
    }
}

/// A module that was just written matches the output of a fresh new run.
pub proof fn law_fresh_module_is_consistent<F: Fn(&String) -> Option<String>>(
    format: F,
    bindings: BindingsView,
    single_file: bool,
    written: InnerView,
    fresh: InnerView,
    disk: Disk,
)
    requires
        repeats(format) || !bindings.rustfmt,
        written.renders(format, bindings.drafts(single_file)),
        fresh.renders(format, bindings.drafts(single_file)),
        no_clash(written.expected_files(false, single_file)),
    ensures
        disk.after_all(written.module_plan(single_file)) is Some,
        disk::checked_all(
            disk.after_all(written.module_plan(single_file))->0,
            fresh.expected_files(false, single_file),
        ) is Ok,
{
    law_rendering_repeats(format, bindings, single_file, written, fresh);
    lemma_bindings_finite(
        bindings.expansion.with_import(crate::tokens::shared_import(single_file)).contracts,
        bindings.rustfmt,
    );
    law_written_module_is_consistent(disk, written, single_file);
}

/// A crate that was just written matches the output of a fresh new run.
pub proof fn law_fresh_crate_is_consistent<F: Fn(&String) -> Option<String>>(
    format: F,
    bindings: BindingsView,
    name: Seq<char>,
    version: Seq<char>,
    single_file: bool,
    check_cargo_toml: bool,
    written: InnerView,
    fresh: InnerView,
    disk: Disk,
)
    requires
        repeats(format) || !bindings.rustfmt,
        written.renders(format, bindings.drafts(single_file)),
        fresh.renders(format, bindings.drafts(single_file)),
        no_clash(written.expected_files(true, single_file)),
        !disk.files.dom().contains((Folder::Root, "Cargo.toml"@)),
    ensures
        disk.after_all(written.crate_plan(name, version, single_file)) is Some,
        disk::checked_all(
            disk.after_all(written.crate_plan(name, version, single_file))->0,
            fresh.crate_files(name, version, single_file, check_cargo_toml),
        ) is Ok,
{
    law_rendering_repeats(format, bindings, single_file, written, fresh);
    lemma_bindings_finite(
        bindings.expansion.with_import(crate::tokens::shared_import(single_file)).contracts,
        bindings.rustfmt,
    );
    law_written_crate_is_consistent(disk, written, name, version, single_file, check_cargo_toml);
}

/// The `mod.rs` of a module in a single file never passes for that of a module in many files, nor
/// the reverse.
pub proof fn law_single_file_module_is_told_apart(
    disk: Disk,
    written: InnerView,
    fresh: InnerView,
    single_file: bool,
)
    requires
        disk::checked(disk, written.super_file(false, single_file)) is Ok,
    ensures
        disk::checked_all(disk, fresh.expected_files(false, !single_file)) == Err::<(), ErrorView>(
            (ErrorView::OutOfDate { folder: Folder::Root, name: "mod.rs"@ }),
        ),
{
    let a = written.super_contents(false, single_file);
    let b = fresh.super_contents(false, !single_file);
    let start = "#![allow(clippy::all)]\n"@ + "//! This "@ + "module"@
        + " contains abigen! generated bindings for solidity contracts.\n"@
        + "//! This is autogenerated code.\n"@ + "//! Do not manually edit these files.\n"@ + "//! "@;
    reveal_strlit("This file");
    reveal_strlit("These files");
    let n = start.len() + 2;
    assert(a.len() > n && b.len() > n);
    assert(a[n as int] == (if single_file {
        'i'
    } else {
        'e'
    }));
    assert(b[n as int] == (if single_file {
        'e'
    } else {
        'i'
    }));
    lemma_different_texts(a, b);
    assert(fresh.expected_files(false, !single_file)[0] == fresh.super_file(false, !single_file));
}

/// A module that was just written to a single file never passes for one in many files, nor the
/// reverse, whatever was on the disk before.
pub proof fn law_layouts_of_a_module_are_told_apart(
    disk: Disk,
    written: InnerView,
    fresh: InnerView,
    single_file: bool,
)
    ensures
        disk.after_all(written.module_plan(single_file)) is Some,
        disk::checked_all(
            disk.after_all(written.module_plan(single_file))->0,
            fresh.expected_files(false, !single_file),
        ) == Err::<(), ErrorView>(
            (ErrorView::OutOfDate { folder: Folder::Root, name: "mod.rs"@ }),
        ),
{
    law_written_module_holds_its_super_file(disk, written, single_file);
    law_single_file_module_is_told_apart(
        disk.after_all(written.module_plan(single_file))->0,
        written,
        fresh,
        single_file,
    );
}

/// Texts with the same end are the same where they are the same before it.
proof fn lemma_same_tail(x: Seq<char>, y: Seq<char>, tail: Seq<char>)
    requires
        x + tail == y + tail,
    ensures
        x == y,
{
    assert((x + tail).len() == (y + tail).len());
    assert((x + tail).take(x.len() as int) =~= x);
    assert((y + tail).take(y.len() as int) =~= y);
}

/// Texts with the same beginning are the same where they are the same behind it.
proof fn lemma_same_head(head: Seq<char>, x: Seq<char>, y: Seq<char>)
    requires
        head + x == head + y,
    ensures
        x == y,
{
    assert((head + x).skip(head.len() as int) =~= x);
    assert((head + y).skip(head.len() as int) =~= y);
}

proof fn lemma_cargo_texts_differ(
    name: Seq<char>,
    version: Seq<char>,
    other_name: Seq<char>,
    other_version: Seq<char>,
)
    requires
        (name == other_name && version != other_version) || (name != other_name && version
            == other_version),
    ensures
        bindings::cargo_toml(name, version) != bindings::cargo_toml(other_name, other_version),
{
    let a0 = "[package]\n"@ + "name = \""@ + name + "\"\n"@ + "version = \""@ + version;
    let b0 = "[package]\n"@ + "name = \""@ + other_name + "\"\n"@ + "version = \""@ + other_version;
    let a1 = a0 + "\"\n"@;
    let b1 = b0 + "\"\n"@;
    let a2 = a1 + "edition = \"2021\"\n"@;
    let b2 = b1 + "edition = \"2021\"\n"@;
    let a3 = a2 + "\n"@;
    let b3 = b2 + "\n"@;
    let a4 = a3 + "# See more keys and their definitions at https://doc.rust-lang.org/cargo/reference/manifest.html\n"@;
    let b4 = b3 + "# See more keys and their definitions at https://doc.rust-lang.org/cargo/reference/manifest.html\n"@;
    let a5 = a4 + "\n"@;
    let b5 = b4 + "\n"@;
    let a6 = a5 + "[dependencies]\n"@;
    let b6 = b5 + "[dependencies]\n"@;
    let a7 = a6 + "\n"@;
    let b7 = b6 + "\n"@;
    let a8 = a7 + "ethers = { git = \"https://github.com/gakonst/ethers-rs\", default-features = false }\n"@;
    let b8 = b7 + "ethers = { git = \"https://github.com/gakonst/ethers-rs\", default-features = false }\n"@;
    let a9 = a8 + "serde_json = \"1.0.79\"\n"@;
    let b9 = b8 + "serde_json = \"1.0.79\"\n"@;
    let a10 = a9 + "\n"@;
    let b10 = b9 + "\n"@;
    assert(a10 == bindings::cargo_toml(name, version));
    assert(b10 == bindings::cargo_toml(other_name, other_version));
    if a10 == b10 {
        lemma_same_tail(a9, b9, "\n"@);
        lemma_same_tail(a8, b8, "serde_json = \"1.0.79\"\n"@);
        lemma_same_tail(a7, b7, "ethers = { git = \"https://github.com/gakonst/ethers-rs\", default-features = false }\n"@);
        lemma_same_tail(a6, b6, "\n"@);
        lemma_same_tail(a5, b5, "[dependencies]\n"@);
        lemma_same_tail(a4, b4, "\n"@);
        lemma_same_tail(a3, b3, "# See more keys and their definitions at https://doc.rust-lang.org/cargo/reference/manifest.html\n"@);
        lemma_same_tail(a2, b2, "\n"@);
        lemma_same_tail(a1, b1, "edition = \"2021\"\n"@);
        lemma_same_tail(a0, b0, "\"\n"@);
        let start = "[package]\n"@ + "name = \""@;
        if name == other_name {
            lemma_same_head(start + name + "\"\n"@ + "version = \""@, version, other_version);
        } else {
            lemma_same_tail(
                start + name + "\"\n"@ + "version = \""@,
                start + other_name + "\"\n"@ + "version = \""@,
                version,
            );
            lemma_same_tail(start + name + "\"\n"@, start + other_name + "\"\n"@, "version = \""@);
            lemma_same_tail(start + name, start + other_name, "\"\n"@);
            lemma_same_head(start, name, other_name);
        }
    }
}

/// Where the `Cargo.toml` says another version, or another name, the check that looks at it fails
/// there.
pub proof fn law_other_version_is_detected(
    disk: Disk,
    written: InnerView,
    fresh: InnerView,
    name: Seq<char>,
    version: Seq<char>,
    fresh_name: Seq<char>,
    fresh_version: Seq<char>,
    single_file: bool,
    fresh_single_file: bool,
)
    requires
        disk::checked_all(disk, written.crate_files(name, version, single_file, true)) is Ok,
        (name == fresh_name && version != fresh_version) || (name != fresh_name && version
            == fresh_version),
    ensures
        disk::checked_all(
            disk,
            fresh.crate_files(fresh_name, fresh_version, fresh_single_file, true),
        ) == Err::<(), ErrorView>(
            (ErrorView::OutOfDate { folder: Folder::Root, name: "Cargo.toml"@ }),
        ),
{
    lemma_cargo_texts_differ(name, version, fresh_name, fresh_version);
    lemma_different_texts(
        bindings::cargo_toml(name, version),
        bindings::cargo_toml(fresh_name, fresh_version),
    );
    let before = written.crate_files(name, version, single_file, true);
    let after = fresh.crate_files(fresh_name, fresh_version, fresh_single_file, true);
    assert(before[0] == bindings::cargo_file(name, version));
    assert(after[0] == bindings::cargo_file(fresh_name, fresh_version));
}

/// A check that does not look at the `Cargo.toml` gives the same for every name and version, and
/// whatever the `Cargo.toml` holds, or if it is missing.
pub proof fn law_cargo_toml_is_passed_over(
    disk: Disk,
    other: Disk,
    inner: InnerView,
    name: Seq<char>,
    version: Seq<char>,
    other_name: Seq<char>,
    other_version: Seq<char>,
    single_file: bool,
)
    requires
        disk.folders == other.folders,
        disk.files.remove((Folder::Root, "Cargo.toml"@)) == other.files.remove(
            (Folder::Root, "Cargo.toml"@),
        ),
    ensures
        disk::checked_all(disk, inner.crate_files(name, version, single_file, false))
            == disk::checked_all(
            other,
            inner.crate_files(other_name, other_version, single_file, false),
        ),
{
    let files = inner.expected_files(true, single_file);
    assert(inner.crate_files(name, version, single_file, false) =~= files);
    assert(inner.crate_files(other_name, other_version, single_file, false) =~= files);
    lemma_source_folder(inner, true, single_file);
    if !single_file {
        lemma_expected_files(inner, true);
    }
    let gone = (Folder::Root, "Cargo.toml"@);
    assert forall|i: int| 0 <= i < files.len() implies {
        let place = ((#[trigger] files[i]).folder, files[i].name);
        &&& disk.folders.contains(place.0) == other.folders.contains(place.0)
        &&& disk.files.dom().contains(place) == other.files.dom().contains(place)
        &&& disk.files.dom().contains(place) ==> disk.files[place] == other.files[place]
    } by {
        let place = (files[i].folder, files[i].name);
        assert(place != gone);
        assert(disk.files.remove(gone).dom().contains(place) == other.files.remove(gone).dom().contains(
            place,
        ));
        assert(disk.files.remove(gone)[place] == other.files.remove(gone)[place]);
    }
    law_other_files_do_not_count(disk, other, files);
}

/// A check looks at nothing but the files that it expects and their directories.
pub proof fn law_other_files_do_not_count(disk: Disk, other: Disk, files: Seq<FileView>)
    requires
        forall|i: int|
            0 <= i < files.len() ==> {
                let place = ((#[trigger] files[i]).folder, files[i].name);
                &&& disk.folders.contains(place.0) == other.folders.contains(place.0)
                &&& disk.files.dom().contains(place) == other.files.dom().contains(place)
                &&& disk.files.dom().contains(place) ==> disk.files[place] == other.files[place]
            },
    ensures
        disk::checked_all(disk, files) == disk::checked_all(other, files),
    decreases files.len(),
{
    if files.len() > 0 {
        let rest = files.drop_first();
        assert(disk::checked(disk, files[0]) == disk::checked(other, files[0]));
        assert forall|i: int| 0 <= i < rest.len() implies {
            let place = ((#[trigger] rest[i]).folder, rest[i].name);
            &&& disk.folders.contains(place.0) == other.folders.contains(place.0)
            &&& disk.files.dom().contains(place) == other.files.dom().contains(place)
            &&& disk.files.dom().contains(place) ==> disk.files[place] == other.files[place]
        } by {
            assert(rest[i] == files[i + 1]);
        }
        law_other_files_do_not_count(disk, other, rest);
    }
}

} // verus!
