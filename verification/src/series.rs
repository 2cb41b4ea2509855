//! Work that is done on each item of a series and that may fail.

use vstd::prelude::*;

verus! {

/// Every item was worked on, and `results` holds the outcomes in order.
pub open spec fn all_done<A, B, E, F: Fn(&A) -> Result<B, E>>(
    work: F,
    items: Seq<A>,
    results: Seq<B>,
) -> bool {
    &&& results.len() == items.len()
    &&& forall|i: int|
        0 <= i < items.len() ==> call_ensures(work, (&items[i],), Ok::<B, E>(#[trigger] results[i]))
}

/// The work failed with `error` at an item, and not before.
pub open spec fn failed<A, B, E, F: Fn(&A) -> Result<B, E>>(
    work: F,
    items: Seq<A>,
    error: E,
) -> bool {
    exists|n: int, results: Seq<B>|
        {
            &&& 0 <= n < items.len()
            &&& #[trigger] all_done::<A, B, E, F>(work, items.take(n), results)
            &&& call_ensures(work, (&items[n],), Err::<B, E>(error))
        }
}

/// Works on the items in order, up to the first failure.
pub(crate) fn each<A, B, E, F: Fn(&A) -> Result<B, E>>(items: &Vec<A>, work: &F) -> (r: Result<
    Vec<B>,
    E,
>)
    requires
        forall|i: int| 0 <= i < items@.len() ==> call_requires(*work, (&#[trigger] items@[i],)),
    ensures
        match r {
            Ok(results) => all_done::<A, B, E, F>(*work, items@, results@),
            Err(error) => failed::<A, B, E, F>(*work, items@, error),
        },
{
    let mut results: Vec<B> = Vec::new();
    let mut i: usize = 0;
    while i < items.len()
        invariant
            i <= items@.len(),
            forall|i: int| 0 <= i < items@.len() ==> call_requires(*work, (&#[trigger] items@[i],)),
            all_done::<A, B, E, F>(*work, items@.take(i as int), results@),
        decreases items@.len() - i,
    {
        match work(&items[i]) {
            Ok(result) => {
                let ghost done = results@;
                results.push(result);
                assert(all_done::<A, B, E, F>(*work, items@.take(i + 1), results@)) by {
                    assert forall|j: int| 0 <= j < i + 1 implies call_ensures(
                        *work,
                        (&items@.take(i + 1)[j],),
                        Ok::<B, E>(#[trigger] results@[j]),
                    ) by {
                        if j < i {
                            assert(results@[j] == done[j]);
                            assert(items@.take(i + 1)[j] == items@.take(i as int)[j]);
                        }
                    }
                }
            },
            Err(error) => {
                return Err(error);
            },
        }
        i += 1;
    }
    assert(items@.take(items@.len() as int) =~= items@);
    Ok(results)
}

} // verus!
