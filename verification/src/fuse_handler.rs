//! What a handler has to be for the dispatcher to run it on its workers,
//! and what the dispatcher makes of a handler that lists directories
//! without attributes.

use vstd::prelude::*;

verus! {

/// Handlers are shared between the dispatcher's workers.
pub trait OptionalSendSync: Sync + Send {
}

impl<T: Sync + Send> OptionalSendSync for T {
}

/// Whether `answers` are what `lookup` answered for the names of `listed`,
/// one after the other.
pub open spec fn looked_up_all<N, K, M, E, F: Fn(&N) -> Result<M, E>>(
    lookup: F,
    listed: Seq<(N, K)>,
    answers: Seq<M>,
) -> bool {
    &&& answers.len() <= listed.len()
    &&& forall|k: int|
        0 <= k < answers.len() ==> call_ensures(
            lookup,
            (&listed[k].0,),
            Ok::<M, E>(#[trigger] answers[k]),
        )
}

/// A listing with attributes made from a listing without: each name of
/// `listed` is looked up, in the order of the listing, and takes what the
/// lookup answers. The first lookup that fails ends the listing with its
/// error.
pub fn readdirplus_by_lookup<N, K, M, E, F: Fn(&N) -> Result<M, E>>(
    listed: Vec<(N, K)>,
    lookup: F,
) -> (result: Result<Vec<(N, M)>, E>)
    requires
        forall|name: N| call_requires(lookup, (&name,)),
    ensures
        match result {
            Ok(full) => {
                &&& full.len() == listed.len()
                &&& forall|k: int|
                    0 <= k < full.len() ==> (#[trigger] full[k]).0 == listed[k].0 && call_ensures(
                        lookup,
                        (&listed[k].0,),
                        Ok::<M, E>(full[k].1),
                    )
            },
            Err(e) => exists|answers: Seq<M>|
                #[trigger] looked_up_all(lookup, listed@, answers) && answers.len() < listed.len()
                    && call_ensures(lookup, (&listed[answers.len() as int].0,), Err::<M, E>(e)),
        },
{
    let n = listed.len();
    let mut answers: Vec<M> = Vec::with_capacity(n);
    let mut k: usize = 0;
    while k < n
        invariant
            n == listed.len(),
            k <= n,
            answers.len() == k,
            looked_up_all(lookup, listed@, answers@),
            forall|name: N| call_requires(lookup, (&name,)),
        decreases n - k,
    {
        match lookup(&listed[k].0) {
            Ok(answer) => {
                let ghost before = answers@;
                answers.push(answer);
                assert forall|j: int| 0 <= j < answers@.len() implies call_ensures(
                    lookup,
                    (&listed@[j].0,),
                    Ok::<M, E>(#[trigger] answers@[j]),
                ) by {
                    if j < k {
                        assert(answers@[j] == before[j]);
                    }
                }
            },
            Err(e) => {
                return Err(e);
            },
        }
        k += 1;
    }
    // The names leave the listing from its end, so the pairs come out in
    // reverse and are turned once more.
    let ghost names = listed@;
    let ghost said = answers@;
    let mut listed = listed;
    let mut backwards: Vec<(N, M)> = Vec::with_capacity(n);
    let mut left: usize = n;
    while left > 0
        invariant
            left <= n,
            n == names.len(),
            n == said.len(),
            listed@ == names.subrange(0, left as int),
            answers@ == said.subrange(0, left as int),
            backwards.len() == n - left,
            forall|j: int|
                0 <= j < backwards.len() ==> (#[trigger] backwards[j]).0 == names[n - 1 - j].0
                    && backwards[j].1 == said[n - 1 - j],
        decreases left,
    {
        match (listed.pop(), answers.pop()) {
            (Some(pair), Some(answer)) => {
                backwards.push((pair.0, answer));
                assert(listed@ =~= names.subrange(0, left - 1));
                assert(answers@ =~= said.subrange(0, left - 1));
            },
            _ => {},
        }
        left -= 1;
    }
    let ghost turned = backwards@;
    let mut full: Vec<(N, M)> = Vec::with_capacity(n);
    let mut rest: usize = n;
    while rest > 0
        invariant
            rest <= n,
            n == turned.len(),
            backwards@ == turned.subrange(0, rest as int),
            full.len() == n - rest,
            forall|j: int| 0 <= j < full.len() ==> #[trigger] full[j] == turned[n - 1 - j],
        decreases rest,
    {
        match backwards.pop() {
            Some(pair) => {
                full.push(pair);
                assert(backwards@ =~= turned.subrange(0, rest - 1));
            },
            None => {},
        }
        rest -= 1;
    }
    assert forall|k: int| 0 <= k < full.len() implies (#[trigger] full[k]).0 == names[k].0
        && call_ensures(lookup, (&names[k].0,), Ok::<M, E>(full[k].1)) by {
        assert(full[k] == turned[n - 1 - k]);
        assert(turned[n - 1 - k].1 == said[k]);
    }
    Ok(full)
}

} // verus!
