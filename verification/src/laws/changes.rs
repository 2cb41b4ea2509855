//! Laws of change: a contract that is added is noticed.

use crate::bindings;
use crate::bindings::{BindingsView, InnerView};
use crate::contract::DraftView;
use crate::disk;
use crate::disk::{Disk, ErrorView};
use crate::expansion;
use crate::expansion::ContractView;
use crate::laws::files;
use crate::laws::text;
use crate::laws::types;
use crate::names;
use crate::order;
use crate::tokens;
use vstd::prelude::*;

verus! {

proof fn lemma_some_shared(contracts: Seq<ContractView>)
    ensures
        expansion::expansion(contracts).shared_types.len() > 0 <==> exists|name: Seq<char>| #[trigger]
            expansion::is_shared(contracts, name),
{
    types::law_shared_types_stand_once(contracts);
    let listed = order::listing(expansion::shared_names(contracts));
    if listed.len() > 0 {
        assert(listed.to_set().contains(listed[0]));
        assert(expansion::is_shared(contracts, listed[0]));
    }
    if exists|name: Seq<char>| #[trigger] expansion::is_shared(contracts, name) {
        let name = choose|name: Seq<char>| #[trigger] expansion::is_shared(contracts, name);
        assert(listed.to_set().contains(name));
        assert(listed.contains(name));
    }
}

/// The contracts of rendered bindings are those of the expansion.
pub proof fn lemma_rendered_names<F: Fn(&String) -> Option<String>>(
    format: F,
    contracts: Seq<ContractView>,
    rustfmt: bool,
    single_file: bool,
    inner: InnerView,
)
    requires
        inner.renders(
            format,
            (BindingsView { expansion: expansion::expansion(contracts), rustfmt }).drafts(single_file),
        ),
    ensures
        inner.sources.dom().finite(),
        forall|name: Seq<char>| #[trigger]
            inner.sources.dom().contains(name) <==> exists|i: int|
                0 <= i < contracts.len() && (#[trigger] contracts[i]).1.contract_name == name,
        inner.shared_types is Some <==> exists|name: Seq<char>| #[trigger]
            expansion::is_shared(contracts, name),
{
    let imported = expansion::expansion(contracts).with_import(
        tokens::shared_import(single_file),
    ).contracts;
    files::lemma_bindings_finite(imported, rustfmt);
    lemma_some_shared(contracts);
    assert forall|name: Seq<char>| #[trigger] inner.sources.dom().contains(name) <==> exists|i: int|
        0 <= i < contracts.len() && (#[trigger] contracts[i]).1.contract_name == name by {
        types::law_bindings_hold_all_names(imported, rustfmt, name);
        if exists|i: int| 0 <= i < imported.len() && (#[trigger] imported[i]).1.contract_name == name {
            let i = choose|i: int|
                0 <= i < imported.len() && (#[trigger] imported[i]).1.contract_name == name;
            assert(contracts[i].1.contract_name == name);
        }
        if exists|i: int| 0 <= i < contracts.len() && (#[trigger] contracts[i]).1.contract_name == name {
            let i = choose|i: int|
                0 <= i < contracts.len() && (#[trigger] contracts[i]).1.contract_name == name;
            assert(imported[i].1.contract_name == name);
        }
    }
}

/// Where a contract with a module of its own was added since the bindings were written to files of
/// their own, the check fails on the `lib.rs` or `mod.rs`.
pub proof fn law_added_contract_is_detected<F: Fn(&String) -> Option<String>>(
    format: F,
    contracts: Seq<ContractView>,
    added: ContractView,
    rustfmt_written: bool,
    rustfmt_fresh: bool,
    written: InnerView,
    fresh: InnerView,
    is_crate: bool,
    disk: Disk,
)
    requires
        written.renders(
            format,
            (BindingsView {
                expansion: expansion::expansion(contracts),
                rustfmt: rustfmt_written,
            }).drafts(false),
        ),
        fresh.renders(
            format,
            (BindingsView {
                expansion: expansion::expansion(contracts.push(added)),
                rustfmt: rustfmt_fresh,
            }).drafts(false),
        ),
        !written.modules().contains(names::module_name(added.1.contract_name)),
        disk::checked_all(disk, written.expected_files(is_crate, false)) is Ok,
    ensures
        disk::checked_all(disk, fresh.expected_files(is_crate, false)) == Err::<(), ErrorView>(
            (ErrorView::OutOfDate {
                folder: bindings::source_folder(is_crate),
                name: bindings::super_name(is_crate),
            }),
        ),
{
    let all = contracts.push(added);
    let n = contracts.len() as int;
    lemma_rendered_names(format, contracts, rustfmt_written, false, written);
    lemma_rendered_names(format, all, rustfmt_fresh, false, fresh);
    assert forall|c: Seq<char>| written.sources.dom().contains(c) implies #[trigger] fresh.sources.dom().contains(
        c,
    ) by {
        let i = choose|i: int| 0 <= i < contracts.len() && (#[trigger] contracts[i]).1.contract_name == c;
        assert(all[i].1.contract_name == c);
    }
    if written.shared_types is Some {
        let name = choose|name: Seq<char>| #[trigger] expansion::is_shared(contracts, name);
        let (i, j) = choose|i: int, j: int|
            0 <= i < j < contracts.len() && #[trigger] contracts[i].1.has(name)
                && #[trigger] contracts[j].1.has(name);
        assert(all[i].1.has(name) && all[j].1.has(name));
        assert(expansion::is_shared(all, name));
    }
    let name = added.1.contract_name;
    assert(all[n].1.contract_name == name);
    assert(fresh.sources.dom().contains(name));
    assert forall|m: Seq<char>| written.modules().contains(m) implies fresh.modules().contains(m) by {
        if !(written.shared_types is Some && m == "shared_types"@) {
            let c = choose|c: Seq<char>|
                #[trigger] written.sources.dom().contains(c) && m == names::module_name(c);
            assert(fresh.sources.dom().contains(c));
        }
    }
    assert(fresh.modules().contains(names::module_name(name)));
    assert(written.expected_files(is_crate, false)[0] == written.super_file(is_crate, false));
    files::law_added_module_is_detected(disk, written, fresh, is_crate);
}

/// A contract that shares no type with the others is expanded beside them.
proof fn lemma_expanded_beside(contracts: Seq<ContractView>, added: ContractView)
    requires
        forall|name: Seq<char>, i: int|
            0 <= i < contracts.len() && added.1.has(name) ==> !(#[trigger] contracts[i].1.has(name)),
    ensures
        expansion::expansion(contracts.push(added)).contracts == expansion::expansion(
            contracts,
        ).contracts.push(added),
        expansion::expansion(contracts.push(added)).dirty == expansion::expansion(contracts).dirty,
        expansion::expansion(contracts.push(added)).shared_types == expansion::expansion(
            contracts,
        ).shared_types,
{
    let all = contracts.push(added);
    let n = contracts.len() as int;
    assert(all[n] == added);
    assert forall|name: Seq<char>| #[trigger]
        expansion::is_shared(all, name) == expansion::is_shared(contracts, name) by {
        if expansion::is_shared(all, name) {
            let (i, j) = choose|i: int, j: int|
                0 <= i < j < all.len() && #[trigger] all[i].1.has(name) && #[trigger] all[j].1.has(name);
            assert(contracts[i].1.has(name));
            assert(j < n);
            assert(contracts[j].1.has(name));
        }
        if expansion::is_shared(contracts, name) {
            let (i, j) = choose|i: int, j: int|
                0 <= i < j < contracts.len() && #[trigger] contracts[i].1.has(name)
                    && #[trigger] contracts[j].1.has(name);
            assert(all[i].1.has(name) && all[j].1.has(name));
        }
    }
    assert(expansion::shared_names(all) =~= expansion::shared_names(contracts));
    assert forall|i: int| 0 <= i < n implies #[trigger] expansion::loses_type(all, i)
        == expansion::loses_type(contracts, i) by {
        if expansion::loses_type(all, i) {
            let name = choose|name: Seq<char>|
                expansion::is_shared(all, name) && #[trigger] all[i].1.has(name);
            assert(contracts[i].1.has(name));
        }
        if expansion::loses_type(contracts, i) {
            let name = choose|name: Seq<char>|
                expansion::is_shared(contracts, name) && #[trigger] contracts[i].1.has(name);
            assert(all[i].1.has(name));
        }
    }
    assert forall|name: Seq<char>| #[trigger] all[n].1.has(name) implies !expansion::is_shared(all, name) by {
        if expansion::is_shared(all, name) {
            let (i, j) = choose|i: int, j: int|
                0 <= i < j < all.len() && #[trigger] all[i].1.has(name) && #[trigger] all[j].1.has(name);
            assert(contracts[i].1.has(name));
        }
    }
    types::law_other_contracts_are_untouched(all, n, true);
    assert(!expansion::loses_type(all, n));
    let old = expansion::expansion(contracts);
    let new = expansion::expansion(all);
    assert(new.contracts =~= old.contracts.push(added));
    assert(new.dirty =~= old.dirty);
    types::law_shared_types_stand_once(contracts);
    let listed = order::listing(expansion::shared_names(contracts));
    assert forall|k: int| 0 <= k < listed.len() implies #[trigger] new.shared_types[k] == old.shared_types[k] by {
        assert(listed.to_set().contains(listed[k]));
        assert(expansion::is_shared(contracts, listed[k]));
        lemma_first_definition_kept(contracts, added, listed[k]);
    }
    assert(new.shared_types =~= old.shared_types);
}

/// A contract that is added does not change which contract defines a type first.
pub proof fn lemma_first_definition_kept(contracts: Seq<ContractView>, added: ContractView, name: Seq<char>)
    requires
        exists|i: int| 0 <= i < contracts.len() && #[trigger] contracts[i].1.has(name),
    ensures
        expansion::first_definition(contracts.push(added), name) == expansion::first_definition(
            contracts,
            name,
        ),
    decreases contracts.len(),
{
    let all = contracts.push(added);
    assert(all[0] == contracts[0]);
    if !contracts[0].1.has(name) {
        let rest = contracts.drop_first();
        let i = choose|i: int| 0 <= i < contracts.len() && #[trigger] contracts[i].1.has(name);
        assert(rest[i - 1].1.has(name));
        assert(all.drop_first() =~= rest.push(added));
        lemma_first_definition_kept(rest, added, name);
    }
}

/// Where a contract that shares neither its name nor a type with the others was added since the
/// bindings were written to a single file, the check fails, unless formatting made nothing of its
/// text.
pub proof fn law_added_contract_is_detected_in_single_file<F: Fn(&String) -> Option<String>>(
    format: F,
    contracts: Seq<ContractView>,
    added: ContractView,
    rustfmt: bool,
    written: InnerView,
    fresh: InnerView,
    is_crate: bool,
    disk: Disk,
)
    requires
        files::repeats(format) || !rustfmt,
        written.renders(
            format,
            (BindingsView { expansion: expansion::expansion(contracts), rustfmt }).drafts(true),
        ),
        fresh.renders(
            format,
            (BindingsView { expansion: expansion::expansion(contracts.push(added)), rustfmt }).drafts(
                true,
            ),
        ),
        forall|name: Seq<char>, i: int|
            0 <= i < contracts.len() && added.1.has(name) ==> !(#[trigger] contracts[i].1.has(name)),
        forall|i: int|
            0 <= i < contracts.len() ==> (#[trigger] contracts[i]).1.contract_name
                != added.1.contract_name,
        rustfmt ==> fresh.sources[added.1.contract_name].len() > 0,
        disk::checked_all(disk, written.expected_files(is_crate, true)) is Ok,
    ensures
        disk::checked_all(disk, fresh.expected_files(is_crate, true)) is Err,
{
    let import = tokens::shared_import(true);
    let name = added.1.contract_name;
    let old = (BindingsView { expansion: expansion::expansion(contracts), rustfmt }).drafts(true);
    let new = (BindingsView {
        expansion: expansion::expansion(contracts.push(added)),
        rustfmt,
    }).drafts(true);
    let few = expansion::expansion(contracts).with_import(import).contracts;
    let many = expansion::expansion(contracts.push(added)).with_import(import).contracts;
    lemma_expanded_beside(contracts, added);
    assert(many =~= few.push(added));
    assert(many.drop_last() =~= few);
    assert(new.bindings == old.bindings.insert(
        name,
        DraftView { tokens: added.0.tokens(), rustfmt, name },
    ));
    lemma_rendered_names(format, contracts, rustfmt, true, written);
    assert(!written.sources.dom().contains(name));
    files::lemma_rustfmt(few, rustfmt);
    let text = fresh.sources[name];
    assert(fresh.sources.dom() =~= written.sources.dom().insert(name));
    assert forall|c: Seq<char>| fresh.sources.dom().contains(c) implies #[trigger] fresh.sources[c]
        == written.sources.insert(name, text)[c] by {
        if c != name {
            assert(written.sources.dom().contains(c));
            assert(old.bindings.dom().contains(c));
            files::lemma_reads_once(format, old.bindings[c], written.sources[c], fresh.sources[c]);
        }
    }
    assert(fresh.sources =~= written.sources.insert(name, text));
    if old.shared_types is Some {
        files::lemma_reads_once(
            format,
            old.shared_types->0,
            written.shared_types->0,
            fresh.shared_types->0,
        );
    }
    if !rustfmt {
        assert(fresh.sources.dom().contains(name));
        assert(new.bindings[name].reads(format, text));
        text::law_source_text_is_not_empty(added.0);
    }
    files::law_added_text_is_detected_in_single_file(disk, written, fresh, is_crate, name, text);
}

} // verus!
