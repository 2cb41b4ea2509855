//! Laws of arrangement: in which order the contracts are given does not show.

use crate::bindings::{BindingsView, InnerView};
use crate::contract::{Abigen, Context, ExpandedContract};
use crate::expansion;
use crate::expansion::ContractView;
use crate::laws::files;
use crate::laws::types;
use crate::order;
use crate::series;
use crate::tokens;
use vstd::prelude::*;

verus! {

/// Every contract has a name of its own.
pub open spec fn names_apart(contracts: Seq<ContractView>) -> bool {
    forall|i: int, j: int|
        0 <= i < j < contracts.len() ==> (#[trigger] contracts[i]).1.contract_name != (
        #[trigger] contracts[j]).1.contract_name
}

/// Contracts that declare a type of the same name define it in the same way. So it is where no type
/// is shared.
pub open spec fn definitions_agree(contracts: Seq<ContractView>) -> bool {
    forall|i: int, j: int, name: Seq<char>|
        0 <= i < contracts.len() && 0 <= j < contracts.len() && #[trigger] contracts[i].1.has(name)
            && #[trigger] contracts[j].1.has(name) ==> contracts[i].1.definition(name)
            == contracts[j].1.definition(name)
}

/// Two places of a rearranged list come from two places of the list.
proof fn lemma_two_places<A>(a: Seq<A>, b: Seq<A>, i: int, j: int) -> (places: (int, int))
    requires
        a.to_multiset() == b.to_multiset(),
        0 <= i < b.len(),
        0 <= j < b.len(),
        i != j,
    ensures
        0 <= places.0 < a.len(),
        0 <= places.1 < a.len(),
        places.0 != places.1,
        a[places.0] == b[i],
        a[places.1] == b[j],
{
    let k = lemma_place(a, b, i);
    a.to_multiset_ensures();
    b.to_multiset_ensures();
    let ra = a.remove(k);
    let rb = b.remove(i);
    assert(ra.to_multiset() == rb.to_multiset());
    let rj = if j < i {
        j
    } else {
        j - 1
    };
    assert(rb[rj] == b[j]);
    let m = lemma_place(ra, rb, rj);
    (k, if m < k {
        m
    } else {
        m + 1
    })
}

proof fn lemma_place<A>(a: Seq<A>, b: Seq<A>, i: int) -> (k: int)
    requires
        a.to_multiset() == b.to_multiset(),
        0 <= i < b.len(),
    ensures
        0 <= k < a.len(),
        a[k] == b[i],
{
    a.to_multiset_ensures();
    b.to_multiset_ensures();
    assert(b.contains(b[i]));
    assert(b.to_multiset().count(b[i]) > 0);
    assert(a.contains(b[i]));
    choose|k: int| 0 <= k < a.len() && a[k] == b[i]
}

proof fn lemma_still_shared(a: Seq<ContractView>, b: Seq<ContractView>, name: Seq<char>)
    requires
        a.to_multiset() == b.to_multiset(),
        expansion::is_shared(b, name),
    ensures
        expansion::is_shared(a, name),
{
    let (i, j) = choose|i: int, j: int|
        0 <= i < j < b.len() && #[trigger] b[i].1.has(name) && #[trigger] b[j].1.has(name);
    let (k, l) = lemma_two_places(a, b, i, j);
    assert(a[k].1.has(name) && a[l].1.has(name));
    if k > l {
        assert(0 <= l < k < a.len());
    }
}

/// Which types are shared does not depend on the order of the contracts.
pub proof fn law_sharing_does_not_depend_on_order(
    a: Seq<ContractView>,
    b: Seq<ContractView>,
)
    requires
        a.to_multiset() == b.to_multiset(),
    ensures
        expansion::shared_names(a) == expansion::shared_names(b),
{
    assert forall|name: Seq<char>| expansion::is_shared(a, name) == expansion::is_shared(b, name) by {
        if expansion::is_shared(a, name) {
            lemma_still_shared(b, a, name);
        }
        if expansion::is_shared(b, name) {
            lemma_still_shared(a, b, name);
        }
    }
    assert(expansion::shared_names(a) =~= expansion::shared_names(b));
}

proof fn lemma_names_apart(a: Seq<ContractView>, b: Seq<ContractView>)
    requires
        a.to_multiset() == b.to_multiset(),
        names_apart(a),
    ensures
        names_apart(b),
{
    assert forall|i: int, j: int| 0 <= i < j < b.len() implies (#[trigger] b[i]).1.contract_name != (
    #[trigger] b[j]).1.contract_name by {
        let (k, l) = lemma_two_places(a, b, i, j);
        if k < l {
            assert(a[k].1.contract_name != a[l].1.contract_name);
        } else {
            assert(a[l].1.contract_name != a[k].1.contract_name);
        }
    }
}

/// A contract comes out of an expansion as its place among the others has no part in.
proof fn lemma_settled_alike(
    a: Seq<ContractView>,
    b: Seq<ContractView>,
    i: int,
    j: int,
    single_file: bool,
)
    requires
        a.to_multiset() == b.to_multiset(),
        0 <= i < a.len(),
        0 <= j < b.len(),
        a[i] == b[j],
    ensures
        expansion::expansion(a).with_import(tokens::shared_import(single_file)).contracts[i]
            == expansion::expansion(b).with_import(tokens::shared_import(single_file)).contracts[j],
{
    law_sharing_does_not_depend_on_order(a, b);
    assert forall|name: Seq<char>| #[trigger]
        expansion::is_shared(a, name) == expansion::is_shared(b, name) by {
        assert(expansion::shared_names(a).contains(name) == expansion::shared_names(b).contains(name));
    }
    assert(expansion::loses_type(a, i) == expansion::loses_type(b, j)) by {
        if expansion::loses_type(a, i) {
            let name = choose|name: Seq<char>|
                expansion::is_shared(a, name) && #[trigger] a[i].1.has(name);
            assert(expansion::is_shared(b, name) && b[j].1.has(name));
        }
        if expansion::loses_type(b, j) {
            let name = choose|name: Seq<char>|
                expansion::is_shared(b, name) && #[trigger] b[j].1.has(name);
            assert(expansion::is_shared(a, name) && a[i].1.has(name));
        }
    }
}

proof fn lemma_bindings_alike(
    a: Seq<ContractView>,
    b: Seq<ContractView>,
    single_file: bool,
    rustfmt: bool,
    name: Seq<char>,
)
    requires
        a.to_multiset() == b.to_multiset(),
        names_apart(a),
        expansion::expansion(a).drafts(single_file, rustfmt).bindings.dom().contains(name),
    ensures
        expansion::expansion(b).drafts(single_file, rustfmt).bindings.dom().contains(name),
        expansion::expansion(a).drafts(single_file, rustfmt).bindings[name] == expansion::expansion(
            b,
        ).drafts(single_file, rustfmt).bindings[name],
{
    let import = tokens::shared_import(single_file);
    let ia = expansion::expansion(a).with_import(import).contracts;
    let ib = expansion::expansion(b).with_import(import).contracts;
    types::law_bindings_hold_all_names(ia, rustfmt, name);
    types::law_bindings_hold_all_names(ib, rustfmt, name);
    let i = choose|i: int| 0 <= i < ia.len() && (#[trigger] ia[i]).1.contract_name == name;
    let j = lemma_place(b, a, i);
    lemma_settled_alike(a, b, i, j, single_file);
    lemma_names_apart(a, b);
    assert(ia[i] == ib[j]);
    assert forall|k: int| i < k < ia.len() implies (#[trigger] ia[k]).1.contract_name
        != ia[i].1.contract_name by {
        assert(a[i].1.contract_name != a[k].1.contract_name);
    }
    assert forall|k: int| j < k < ib.len() implies (#[trigger] ib[k]).1.contract_name
        != ib[j].1.contract_name by {
        assert(b[j].1.contract_name != b[k].1.contract_name);
    }
    types::law_last_contract_of_a_name_stays(ia, rustfmt, i);
    types::law_last_contract_of_a_name_stays(ib, rustfmt, j);
}

/// The code of all files does not depend on the order of the contracts, where every contract has a
/// name of its own and the contracts agree on the types that they share.
pub proof fn law_code_does_not_depend_on_order(
    a: Seq<ContractView>,
    b: Seq<ContractView>,
    single_file: bool,
    rustfmt: bool,
)
    requires
        a.to_multiset() == b.to_multiset(),
        names_apart(a),
        definitions_agree(a),
    ensures
        expansion::expansion(a).drafts(single_file, rustfmt) == expansion::expansion(b).drafts(
            single_file,
            rustfmt,
        ),
{
    let da = expansion::expansion(a).drafts(single_file, rustfmt);
    let db = expansion::expansion(b).drafts(single_file, rustfmt);
    lemma_names_apart(a, b);
    assert forall|name: Seq<char>| da.bindings.dom().contains(name) == db.bindings.dom().contains(name) by {
        if da.bindings.dom().contains(name) {
            lemma_bindings_alike(a, b, single_file, rustfmt, name);
        }
        if db.bindings.dom().contains(name) {
            lemma_bindings_alike(b, a, single_file, rustfmt, name);
        }
    }
    assert forall|name: Seq<char>| da.bindings.dom().contains(name) implies #[trigger] da.bindings[name]
        == db.bindings[name] by {
        lemma_bindings_alike(a, b, single_file, rustfmt, name);
    }
    assert(da.bindings =~= db.bindings);
    law_sharing_does_not_depend_on_order(a, b);
    let sa = expansion::expansion(a).shared_types;
    let sb = expansion::expansion(b).shared_types;
    types::law_shared_types_stand_once(a);
    types::law_shared_types_stand_once(b);
    let listed = order::listing(expansion::shared_names(a));
    assert forall|k: int| 0 <= k < listed.len() implies #[trigger] sa[k] == sb[k] by {
        let name = listed[k];
        assert(types::is_first_definition(a, name, sa[k]));
        assert(types::is_first_definition(b, name, sb[k]));
        let i = choose|i: int|
            {
                &&& 0 <= i < a.len()
                &&& #[trigger] a[i].1.definition(name) == Some(sa[k])
                &&& forall|j: int| 0 <= j < i ==> !(#[trigger] a[j].1.has(name))
            };
        let j = choose|j: int|
            {
                &&& 0 <= j < b.len()
                &&& #[trigger] b[j].1.definition(name) == Some(sb[k])
                &&& forall|l: int| 0 <= l < j ==> !(#[trigger] b[l].1.has(name))
            };
        let l = lemma_place(a, b, j);
        assert(a[i].1.has(name) && a[l].1.has(name));
    }
    assert(sa =~= sb);
}

/// Whether what `expand` makes of an order depends on the order alone.
pub open spec fn expands_alike<E, F: Fn(&Abigen) -> Result<(ExpandedContract, Context), E>>(
    expand: F,
) -> bool {
    forall|abigen: Abigen, x: (ExpandedContract, Context), y: (ExpandedContract, Context)|
        #![trigger call_ensures(expand, (&abigen,), Ok::<(ExpandedContract, Context), E>(x)), call_ensures(expand, (&abigen,), Ok::<(ExpandedContract, Context), E>(y))]
        call_ensures(expand, (&abigen,), Ok::<(ExpandedContract, Context), E>(x)) && call_ensures(
            expand,
            (&abigen,),
            Ok::<(ExpandedContract, Context), E>(y),
        ) ==> (x.0@, x.1@) == (y.0@, y.1@)
}

/// Rearranged orders expand to rearranged contracts.
proof fn lemma_rearranged<E, F: Fn(&Abigen) -> Result<(ExpandedContract, Context), E>>(
    expand: F,
    a: Seq<Abigen>,
    b: Seq<Abigen>,
    ca: Seq<(ExpandedContract, Context)>,
    cb: Seq<(ExpandedContract, Context)>,
)
    requires
        a.to_multiset() == b.to_multiset(),
        expands_alike::<E, F>(expand),
        series::all_done::<Abigen, (ExpandedContract, Context), E, F>(expand, a, ca),
        series::all_done::<Abigen, (ExpandedContract, Context), E, F>(expand, b, cb),
    ensures
        expansion::views(ca).to_multiset() == expansion::views(cb).to_multiset(),
    decreases a.len(),
{
    a.to_multiset_ensures();
    b.to_multiset_ensures();
    let va = expansion::views(ca);
    let vb = expansion::views(cb);
    assert(a.len() == b.len());
    if a.len() == 0 {
        assert(va =~= vb);
    } else {
        let k = lemma_place(b, a, 0);
        let ra = a.remove(0);
        let rb = b.remove(k);
        let rca = ca.remove(0);
        let rcb = cb.remove(k);
        assert(call_ensures(expand, (&a[0],), Ok::<(ExpandedContract, Context), E>(ca[0])));
        assert(call_ensures(expand, (&b[k],), Ok::<(ExpandedContract, Context), E>(cb[k])));
        assert(va[0] == vb[k]);
        assert forall|i: int| 0 <= i < ra.len() implies call_ensures(
            expand,
            (&ra[i],),
            Ok::<(ExpandedContract, Context), E>(#[trigger] rca[i]),
        ) by {
            assert(rca[i] == ca[i + 1] && ra[i] == a[i + 1]);
        }
        assert forall|i: int| 0 <= i < rb.len() implies call_ensures(
            expand,
            (&rb[i],),
            Ok::<(ExpandedContract, Context), E>(#[trigger] rcb[i]),
        ) by {
            let o = if i < k {
                i
            } else {
                i + 1
            };
            assert(rcb[i] == cb[o] && rb[i] == b[o]);
        }
        lemma_rearranged::<E, F>(expand, ra, rb, rca, rcb);
        assert(expansion::views(rca) =~= va.remove(0));
        assert(expansion::views(rcb) =~= vb.remove(k));
        va.to_multiset_ensures();
        vb.to_multiset_ensures();
        assert(va.contains(va[0]) && vb.contains(vb[k]));
        assert(va.to_multiset() =~= va.remove(0).to_multiset().insert(va[0]));
        assert(vb.to_multiset() =~= vb.remove(k).to_multiset().insert(vb[k]));
    }
}

/// What is written does not depend on the order in which the orders were given, where every
/// contract has a name of its own, the contracts agree on the types that they share, an order
/// expands to the same again, and formatting, where it is asked for, gives the same again.
pub proof fn law_output_does_not_depend_on_order<
    E,
    F: Fn(&Abigen) -> Result<(ExpandedContract, Context), E>,
    G: Fn(&String) -> Option<String>,
>(
    expand: F,
    format: G,
    a: Seq<Abigen>,
    b: Seq<Abigen>,
    of_a: BindingsView,
    of_b: BindingsView,
    ca: Seq<(ExpandedContract, Context)>,
    cb: Seq<(ExpandedContract, Context)>,
    single_file: bool,
    written_a: InnerView,
    written_b: InnerView,
)
    requires
        a.to_multiset() == b.to_multiset(),
        expands_alike::<E, F>(expand),
        series::all_done::<Abigen, (ExpandedContract, Context), E, F>(expand, a, ca),
        series::all_done::<Abigen, (ExpandedContract, Context), E, F>(expand, b, cb),
        of_a == (BindingsView {
            expansion: expansion::expansion(expansion::views(ca)),
            rustfmt: exists|i: int| 0 <= i < a.len() && (#[trigger] a[i]).rustfmt,
        }),
        of_b == (BindingsView {
            expansion: expansion::expansion(expansion::views(cb)),
            rustfmt: exists|i: int| 0 <= i < b.len() && (#[trigger] b[i]).rustfmt,
        }),
        names_apart(expansion::views(ca)),
        definitions_agree(expansion::views(ca)),
        files::repeats(format) || !of_a.rustfmt,
        written_a.renders(format, of_a.drafts(single_file)),
        written_b.renders(format, of_b.drafts(single_file)),
    ensures
        written_a == written_b,
        written_a.module_plan(single_file) == written_b.module_plan(single_file),
        forall|name: Seq<char>, version: Seq<char>|
            #![trigger written_a.crate_plan(name, version, single_file)]
            written_a.crate_plan(name, version, single_file) == written_b.crate_plan(
                name,
                version,
                single_file,
            ),
{
    lemma_rearranged::<E, F>(expand, a, b, ca, cb);
    if of_a.rustfmt {
        let i = choose|i: int| 0 <= i < a.len() && (#[trigger] a[i]).rustfmt;
        let k = lemma_place(b, a, i);
        assert(b[k].rustfmt);
    }
    if of_b.rustfmt {
        let i = choose|i: int| 0 <= i < b.len() && (#[trigger] b[i]).rustfmt;
        let k = lemma_place(a, b, i);
        assert(a[k].rustfmt);
    }
    law_code_does_not_depend_on_order(
        expansion::views(ca),
        expansion::views(cb),
        single_file,
        of_a.rustfmt,
    );
    files::law_rendering_repeats(format, of_a, single_file, written_a, written_b);
}

} // verus!
