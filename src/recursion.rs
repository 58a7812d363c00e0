use vstd::prelude::*;

use crate::{Error, ErrorKind};

verus! {

/// The parameter that step `i` of a recursion starts from: `init` before the
/// first step, the result of step `i - 1` after it.
pub open spec fn previous<T>(init: T, params: Seq<T>, i: int) -> T {
    if i == 0 {
        init
    } else {
        params[i - 1]
    }
}

/// `params` are the results of the first `params.len()` steps of a recursion
/// from `init`, each of which admitted its result.
pub open spec fn is_chain<T, F: Fn(usize, T) -> Option<T>>(step: F, init: T, params: Seq<T>) -> bool {
    forall|i: int|
        #![trigger params[i]]
        0 <= i < params.len() ==> step.ensures((i as usize, previous(init, params, i)), Some(params[i]))
}

/// Runs a first-order recursion over `scales` scales, coarse to fine.
///
/// Step `i` maps the scale and the parameter of the step before (`init` for
/// the first) to the next parameter, or to `None` where the parameter that it
/// derives is not admissible. The recursion is all or nothing: it stops at
/// the first inadmissible parameter with `ModelMismatch` and keeps none of the
/// others; otherwise it returns one parameter per scale.
pub fn recurse<T: Copy, F: Fn(usize, T) -> Option<T>>(init: T, scales: usize, step: F) -> (r: Result<Vec<T>, Error>)
    requires
        forall|i: usize, x: T| i < scales ==> #[trigger] step.requires((i, x)),
    ensures
        r matches Ok(params) ==> params@.len() == scales && is_chain(step, init, params@),
        r matches Err(e) ==> e == Error(ErrorKind::ModelMismatch) && exists|params: Seq<T>|
            params.len() < scales && #[trigger] is_chain(step, init, params) && step.ensures(
                (params.len() as usize, previous(init, params, params.len() as int)),
                None,
            ),
{
    let mut params: Vec<T> = Vec::new();
    let mut current = init;
    let mut i: usize = 0;
    while i < scales
        invariant
            i <= scales,
            params@.len() == i,
            current == previous(init, params@, i as int),
            is_chain(step, init, params@),
            forall|l: usize, x: T| l < scales ==> #[trigger] step.requires((l, x)),
        decreases scales - i,
    {
        match step(i, current) {
            None => {
                assert(is_chain(step, init, params@));
                return Err(Error(ErrorKind::ModelMismatch));
            },
            Some(next) => {
                let ghost before = params@;
                params.push(next);
                assert forall|m: int| 0 <= m < params@.len() implies step.ensures(
                    (m as usize, previous(init, params@, m)),
                    Some(#[trigger] params@[m]),
                ) by {
                    if m < i {
                        assert(params@[m] == before[m]);
                        assert(previous(init, params@, m) == previous(init, before, m));
                    }
                }
                current = next;
                i = i + 1;
            },
        }
    }
    Ok(params)
}

/// Each parameter of a completed chain has every property that the step
/// promises of each parameter it admits: where a step admits only positive
/// shape parameters, a successful recursion yields only positive ones.
pub proof fn lemma_chain_admitted<T, F: Fn(usize, T) -> Option<T>>(
    step: F,
    init: T,
    params: Seq<T>,
    prop: spec_fn(T) -> bool,
)
    requires
        is_chain(step, init, params),
        forall|i: usize, x: T, y: T| #[trigger] step.ensures((i, x), Some(y)) ==> prop(y),
    ensures
        forall|k: int| 0 <= k < params.len() ==> prop(#[trigger] params[k]),
{
    assert forall|k: int| 0 <= k < params.len() implies prop(#[trigger] params[k]) by {
        assert(step.ensures((k as usize, previous(init, params, k)), Some(params[k])));
    }
}

/// Where each step has one outcome for each scale and parameter, a recursion
/// from one `init` has one chain of each length: repeated runs agree.
pub proof fn lemma_chain_unique<T, F: Fn(usize, T) -> Option<T>>(
    step: F,
    init: T,
    a: Seq<T>,
    b: Seq<T>,
)
    requires
        is_chain(step, init, a),
        is_chain(step, init, b),
        a.len() == b.len(),
        forall|i: usize, x: T, u: Option<T>, v: Option<T>|
            #[trigger] step.ensures((i, x), u) && #[trigger] step.ensures((i, x), v) ==> u == v,
    ensures
        a == b,
{
    lemma_chain_prefix_unique(step, init, a, b, a.len() as int);
    assert(a =~= b);
}

/// The first `n` parameters of two chains under a step of one outcome agree.
proof fn lemma_chain_prefix_unique<T, F: Fn(usize, T) -> Option<T>>(
    step: F,
    init: T,
    a: Seq<T>,
    b: Seq<T>,
    n: int,
)
    requires
        is_chain(step, init, a),
        is_chain(step, init, b),
        0 <= n <= a.len(),
        n <= b.len(),
        forall|i: usize, x: T, u: Option<T>, v: Option<T>|
            #[trigger] step.ensures((i, x), u) && #[trigger] step.ensures((i, x), v) ==> u == v,
    ensures
        forall|k: int| 0 <= k < n ==> a[k] == b[k],
    decreases n,
{
    if n > 0 {
        lemma_chain_prefix_unique(step, init, a, b, n - 1);
        let k = n - 1;
        assert(previous(init, a, k) == previous(init, b, k));
        assert(step.ensures((k as usize, previous(init, a, k)), Some(a[k])));
        assert(step.ensures((k as usize, previous(init, b, k)), Some(b[k])));
    }
}

} // verus!
