//! Laws of what goes in: the files that are read, the work that is done item by item, and the text
//! that a formatter leaves.

use crate::abigen;
use crate::bindings::{BindingsView, InnerView};
use crate::contract::{Context, DraftView, ExpandedContract};
use crate::disk;
use crate::disk::FileAction;
use crate::expansion;
use crate::expansion::ContractView;
use crate::laws::sharing;
use crate::order;
use crate::series;
use crate::tokens;
use vstd::prelude::*;

verus! {

/// Whether a file name is a stem with `.json` behind it.
pub open spec fn has_stem(file: Seq<char>, stem: Seq<char>) -> bool {
    stem.len() > 0 && file == stem + ".json"@
}

/// A file holds JSON where its name is a stem with `.json` behind it.
pub proof fn law_json_files_have_a_stem(file: Seq<char>)
    ensures
        abigen::is_json(file) <==> exists|stem: Seq<char>| #[trigger] has_stem(file, stem),
{
    reveal_strlit(".json");
    if abigen::is_json(file) {
        let stem = file.take(file.len() - 5);
        assert(file =~= stem + ".json"@);
        assert(has_stem(file, stem));
    }
    if exists|stem: Seq<char>| #[trigger] has_stem(file, stem) {
        let stem = choose|stem: Seq<char>| #[trigger] has_stem(file, stem);
        assert(file.skip(file.len() - 5) =~= ".json"@);
    }
}

/// All JSON files are taken, each once and in their order, and no others. Each gives the contract
/// that its stem names, and its path.
pub proof fn law_all_json_files_are_taken(files: Seq<(Seq<char>, Seq<char>)>)
    ensures
        ({
            let json = files.filter(
                |f: (Seq<char>, Seq<char>)| exists|stem: Seq<char>| #[trigger] has_stem(f.0, stem),
            );
            let abis = abigen::json_abis(files);
            &&& abis.len() == json.len()
            &&& forall|k: int|
                0 <= k < json.len() ==> has_stem((#[trigger] json[k]).0, abis[k].0) && abis[k].1
                    == json[k].1
        }),
    decreases files.len(),
{
    reveal(Seq::filter);
    reveal_strlit(".json");
    let pred = |f: (Seq<char>, Seq<char>)| exists|stem: Seq<char>| #[trigger] has_stem(f.0, stem);
    if files.len() > 0 {
        let rest = files.drop_last();
        let (file, path) = files.last();
        law_all_json_files_are_taken(rest);
        law_json_files_have_a_stem(file);
        assert(pred(files.last()) == abigen::is_json(file));
        if abigen::is_json(file) {
            assert(file =~= file.take(file.len() - 5) + ".json"@);
            let json = files.filter(pred);
            let abis = abigen::json_abis(files);
            let n = json.len() - 1;
            assert(json =~= rest.filter(pred).push(files.last()));
            assert forall|k: int| 0 <= k < json.len() implies has_stem(
                (#[trigger] json[k]).0,
                abis[k].0,
            ) && abis[k].1 == json[k].1 by {
                if k < n {
                    assert(json[k] == rest.filter(pred)[k]);
                    assert(abis[k] == abigen::json_abis(rest)[k]);
                }
            }
        }
    }
}

/// The files of two lists are taken one list after the other.
pub proof fn law_json_files_of_two_lists(
    a: Seq<(Seq<char>, Seq<char>)>,
    b: Seq<(Seq<char>, Seq<char>)>,
)
    ensures
        abigen::json_abis(a + b) == abigen::json_abis(a) + abigen::json_abis(b),
    decreases b.len(),
{
    if b.len() == 0 {
        assert(a + b =~= a);
        assert(abigen::json_abis(a + b) =~= abigen::json_abis(a) + abigen::json_abis(b));
    } else {
        assert((a + b).drop_last() =~= a + b.drop_last());
        assert((a + b).last() == b.last());
        law_json_files_of_two_lists(a, b.drop_last());
        assert(abigen::json_abis(a + b) =~= abigen::json_abis(a) + abigen::json_abis(b));
    }
}

/// Pairs of strings are seen string by string.
pub proof fn law_pairs_are_seen_whole(strings: Seq<(String, String)>)
    ensures
        abigen::pairs(strings).len() == strings.len(),
        forall|i: int|
            0 <= i < strings.len() ==> #[trigger] abigen::pairs(strings)[i] == (
                strings[i].0@,
                strings[i].1@,
            ),
{
}

/// Work that answers every item by a rule gives, where all was done, the answers of the rule for
/// all items in their order.
pub proof fn law_all_items_are_done<A, B, E, F: Fn(&A) -> Result<B, E>>(
    work: F,
    items: Seq<A>,
    results: Seq<B>,
    rule: spec_fn(A) -> Result<B, E>,
)
    requires
        forall|item: A, answer: Result<B, E>| #[trigger]
            call_ensures(work, (&item,), answer) ==> answer == rule(item),
        series::all_done::<A, B, E, F>(work, items, results),
    ensures
        results.map_values(|b: B| Ok::<B, E>(b)) == items.map_values(rule),
{
    let done = results.map_values(|b: B| Ok::<B, E>(b));
    assert forall|i: int| 0 <= i < items.len() implies #[trigger] done[i] == rule(items[i]) by {
        assert(call_ensures(work, (&items[i],), Ok::<B, E>(results[i])));
    }
    assert(done =~= items.map_values(rule));
}

/// Work that answers every item by a rule fails with the error of the first item that the rule gives
/// one for.
pub proof fn law_first_failure_is_given<A, B, E, F: Fn(&A) -> Result<B, E>>(
    work: F,
    items: Seq<A>,
    error: E,
    rule: spec_fn(A) -> Result<B, E>,
) -> (n: int)
    requires
        forall|item: A, answer: Result<B, E>| #[trigger]
            call_ensures(work, (&item,), answer) ==> answer == rule(item),
        series::failed::<A, B, E, F>(work, items, error),
    ensures
        0 <= n < items.len(),
        rule(items[n]) == Err::<B, E>(error),
        forall|i: int| 0 <= i < n ==> rule(#[trigger] items[i]) is Ok,
{
    let (n, results) = choose|n: int, results: Seq<B>|
        {
            &&& 0 <= n < items.len()
            &&& #[trigger] series::all_done::<A, B, E, F>(work, items.take(n), results)
            &&& call_ensures(work, (&items[n],), Err::<B, E>(error))
        };
    assert forall|i: int| 0 <= i < n implies rule(#[trigger] items[i]) is Ok by {
        assert(items.take(n)[i] == items[i]);
        assert(call_ensures(work, (&items.take(n)[i],), Ok::<B, E>(results[i])));
    }
    n
}

/// Where formatting is not asked for, the text is that of the code, whatever the formatter.
pub proof fn law_unformatted_text<F: Fn(&String) -> Option<String>>(
    format: F,
    draft: DraftView,
    text: Seq<char>,
)
    requires
        !draft.rustfmt,
    ensures
        draft.reads(format, text) <==> text == tokens::source_text(draft.tokens),
{
}

/// Where formatting is asked for, the text is what the formatter makes of that of the code, or that
/// of the code where the formatter has no answer.
pub proof fn law_formatted_text<F: Fn(&String) -> Option<String>>(
    format: F,
    draft: DraftView,
    text: Seq<char>,
    rule: spec_fn(Seq<char>) -> Option<Seq<char>>,
)
    requires
        draft.rustfmt,
        draft.reads(format, text),
        answers(format, rule),
    ensures
        text == (match rule(tokens::source_text(draft.tokens)) {
            Some(made) => made,
            None => tokens::source_text(draft.tokens),
        }),
{
}

/// The formatter answers by the rule.
pub open spec fn answers<F: Fn(&String) -> Option<String>>(
    format: F,
    rule: spec_fn(Seq<char>) -> Option<Seq<char>>,
) -> bool {
    forall|given: String, answer: Option<String>| #[trigger]
        call_ensures(format, (&given,), answer) ==> match rule(given@) {
            Some(made) => answer is Some && answer->0@ == made,
            None => answer is None,
        }
}

/// The text of code: as it is, or as the rule of the formatter makes it, where that is asked for and
/// the rule has an answer.
pub open spec fn text_of(
    code: Seq<tokens::Tree>,
    rustfmt: bool,
    rule: spec_fn(Seq<char>) -> Option<Seq<char>>,
) -> Seq<char> {
    let raw = tokens::source_text(code);
    if rustfmt && rule(raw) is Some {
        rule(raw)->0
    } else {
        raw
    }
}

/// The text of all contracts and of the shared types: that of their code, formatted where that is
/// asked for.
pub proof fn law_sources_of_all_contracts<F: Fn(&String) -> Option<String>>(
    format: F,
    rule: spec_fn(Seq<char>) -> Option<Seq<char>>,
    contracts: Seq<ContractView>,
    rustfmt: bool,
    single_file: bool,
    inner: InnerView,
) -> (listed: (Seq<Seq<char>>, Seq<Seq<tokens::Tree>>))
    requires
        rustfmt ==> answers(format, rule),
        inner.renders(
            format,
            (BindingsView { expansion: expansion::expansion(contracts), rustfmt }).drafts(single_file),
        ),
    ensures
        sharing::lists_common_types(contracts, listed.0, listed.1),
        inner.shared_types == (if listed.1.len() == 0 {
            None
        } else {
            Some(
                text_of(
                    if single_file {
                        sharing::shared_module_code(listed.1)
                    } else {
                        listed.1.flatten()
                    },
                    rustfmt,
                    rule,
                ),
            )
        }),
        forall|name: Seq<char>| #[trigger]
            inner.sources.dom().contains(name) <==> exists|i: int|
                0 <= i < contracts.len() && (#[trigger] contracts[i]).1.contract_name == name,
        forall|i: int|
            0 <= i < contracts.len() && (forall|j: int|
                i < j < contracts.len() ==> (#[trigger] contracts[j]).1.contract_name
                    != contracts[i].1.contract_name)
                ==> inner.sources[(#[trigger] contracts[i]).1.contract_name] == text_of(
                sharing::module_code(
                    contracts[i].0.module,
                    sharing::module_body(contracts, i, single_file),
                ),
                rustfmt,
                rule,
            ),
{
    let drafts = (BindingsView { expansion: expansion::expansion(contracts), rustfmt }).drafts(
        single_file,
    );
    let listed = sharing::law_place_of_the_shared_types(contracts, rustfmt, single_file);
    sharing::law_bindings_hold_the_code_of_contracts(contracts, rustfmt, single_file);
    assert(inner.sources.dom() == drafts.bindings.dom());
    if drafts.shared_types is Some {
        lemma_text(format, rule, drafts.shared_types->0, inner.shared_types->0);
    }
    assert forall|i: int|
        0 <= i < contracts.len() && (forall|j: int|
            i < j < contracts.len() ==> (#[trigger] contracts[j]).1.contract_name
                != contracts[i].1.contract_name) implies inner.sources[(
    #[trigger] contracts[i]).1.contract_name] == text_of(
        sharing::module_code(
            contracts[i].0.module,
            sharing::module_body(contracts, i, single_file),
        ),
        rustfmt,
        rule,
    ) by {
        let name = contracts[i].1.contract_name;
        assert(drafts.bindings.dom().contains(name));
        assert(inner.sources.dom().contains(name));
        lemma_text(format, rule, drafts.bindings[name], inner.sources[name]);
    }
    listed
}

proof fn lemma_text<F: Fn(&String) -> Option<String>>(
    format: F,
    rule: spec_fn(Seq<char>) -> Option<Seq<char>>,
    draft: DraftView,
    text: Seq<char>,
)
    requires
        draft.rustfmt ==> answers(format, rule),
        draft.reads(format, text),
    ensures
        text == text_of(draft.tokens, draft.rustfmt, rule),
{
    if draft.rustfmt {
        law_formatted_text(format, draft, text, rule);
    } else {
        law_unformatted_text(format, draft, text);
    }
}

/// Lists are seen whole: every contract, every stream, every action and every string.
pub proof fn law_lists_are_seen_whole(
    contracts: Seq<(ExpandedContract, Context)>,
    streams: Seq<proc_macro2::TokenStream>,
    actions: Seq<FileAction>,
    strings: Seq<String>,
)
    ensures
        expansion::views(contracts).len() == contracts.len(),
        forall|i: int|
            0 <= i < contracts.len() ==> #[trigger] expansion::views(contracts)[i] == (
                contracts[i].0@,
                contracts[i].1@,
            ),
        tokens::all_trees(streams).len() == streams.len(),
        forall|i: int|
            0 <= i < streams.len() ==> #[trigger] tokens::all_trees(streams)[i] == tokens::trees(
                streams[i],
            ),
        disk::plan(actions).len() == actions.len(),
        forall|i: int| 0 <= i < actions.len() ==> #[trigger] disk::plan(actions)[i] == actions[i]@,
        order::texts(strings).len() == strings.len(),
        forall|i: int| 0 <= i < strings.len() ==> #[trigger] order::texts(strings)[i] == strings[i]@,
{
}

} // verus!
