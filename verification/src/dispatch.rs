//! The redirect-following policy: what dispatch does with each parsed
//! response.
//!
//! A response outside the redirect class is final. A redirect with no hops
//! left fails closed; one without a `Location` header fails too. Otherwise
//! the request is rebuilt: the URL replaced by the `Location` value, the
//! budget decremented, and the method preserved only for status 303, every
//! other redirect downgrading to GET. That downgrade rule is deliberate
//! and pinned by a test; swapping it silently would change every caller.

use crate::headers::header_lookup;
use crate::request::{Method, Request, RequestView};
use crate::response::Response;
use crate::Error;
use vstd::prelude::*;

verus! {

/// The characters of the `Location` header name.
pub open spec fn location_chars() -> Seq<char> {
    seq!['L', 'o', 'c', 'a', 't', 'i', 'o', 'n']
}

/// A status of the redirect class.
pub open spec fn is_redirect(status: int) -> bool {
    300 <= status < 400
}

/// A response whose redirect can be followed: redirect class, with a
/// `Location` header.
pub open spec fn follows_on(resp: Response) -> bool {
    is_redirect(resp.status as int) && header_lookup(resp.headers@, location_chars()) is Some
}

/// What dispatch does after one response arrives.
pub enum Step {
    /// The response is final: hand it to the caller.
    Done(Response),
    /// Follow the redirect by dispatching this request.
    Follow(Request),
    /// Stop with this error.
    Fail(Error),
}

/// Decide what one parsed response means for the request that drew it.
///
/// The rebuilt request keeps its method only on status 303 and downgrades
/// to GET on every other redirect status, as the policy documents.
pub fn decide(req: Request, resp: Response) -> (r: Step)
    ensures
        !is_redirect(resp.status as int) ==> r == Step::Done(resp),
        is_redirect(resp.status as int) && req@.redirects == 0 ==> r == Step::Fail(
            Error::RedirectLimit,
        ),
        is_redirect(resp.status as int) && req@.redirects > 0 && header_lookup(
            resp.headers@,
            location_chars(),
        ) is None ==> r == Step::Fail(Error::MissingLocation),
        is_redirect(resp.status as int) && req@.redirects > 0 && header_lookup(
            resp.headers@,
            location_chars(),
        ) is Some ==> r is Follow && r->Follow_0@ == (RequestView {
            url: header_lookup(resp.headers@, location_chars())->0,
            method: if resp.status == 303 {
                req@.method
            } else {
                Method::GET
            },
            redirects: req@.redirects - 1,
            ..req@
        }),
{
    let status = resp.status;
    if !(300 <= status && status < 400) {
        return Step::Done(resp);
    }
    let left = req.redirects_left();
    if left == 0 {
        return Step::Fail(Error::RedirectLimit);
    }
    let name = "Location";
    proof {
        reveal_strlit("Location");
        assert(name@ =~= location_chars());
    }
    let loc: String = match resp.headers.get(name) {
        None => {
            return Step::Fail(Error::MissingLocation);
        },
        Some(l) => l.clone(),
    };
    let next = req.url(loc.as_str()).redirects(left - 1);
    if status == 303 {
        Step::Follow(next)
    } else {
        Step::Follow(next.method(Method::GET))
    }
}

/// How many responses a dispatch reads when hop `k` of the network would
/// return `resps[k]`: one per hop, stopping at the first final response,
/// exhausted budget, or missing redirect target.
pub open spec fn chain_hops(redirects: int, resps: Seq<Response>) -> int
    decreases resps.len(),
{
    if resps.len() == 0 {
        0
    } else if !is_redirect(resps[0].status as int) {
        1
    } else if redirects <= 0 {
        1
    } else if header_lookup(resps[0].headers@, location_chars()) is None {
        1
    } else {
        1 + chain_hops(redirects - 1, resps.drop_first())
    }
}

/// How such a dispatch ends: the first final response, an error, or
/// nothing when the run of responses is exhausted first.
pub open spec fn chain_outcome(redirects: int, resps: Seq<Response>) -> Option<
    Result<Response, Error>,
>
    decreases resps.len(),
{
    if resps.len() == 0 {
        None
    } else if !is_redirect(resps[0].status as int) {
        Some(Ok(resps[0]))
    } else if redirects <= 0 {
        Some(Err(Error::RedirectLimit))
    } else if header_lookup(resps[0].headers@, location_chars()) is None {
        Some(Err(Error::MissingLocation))
    } else {
        chain_outcome(redirects - 1, resps.drop_first())
    }
}

/// Run the dispatch decisions against a fixed run of responses, as if hop
/// `k` of the network returned `responses[k]`: how many responses were
/// read, and the outcome, `None` when the run was exhausted first.
pub fn follow(req: Request, responses: Vec<Response>) -> (r: (usize, Option<
    Result<Response, Error>,
>))
    ensures
        r.0 == chain_hops(req@.redirects, responses@),
        r.1 == chain_outcome(req@.redirects, responses@),
        r.0 <= req@.redirects + 1,
{
    proof {
        req.lemma_redirects_nonneg();
        lemma_chain_bounded(req@.redirects, responses@);
    }
    let ghost all = responses@;
    let ghost budget = req@.redirects;
    let total = responses.len();
    let mut current = req;
    let mut rest = responses;
    let mut used: usize = 0;
    while rest.len() > 0
        invariant
            all == responses@,
            budget == req@.redirects,
            chain_hops(budget, all) <= budget + 1,
            total == all.len(),
            used + rest@.len() == all.len(),
            chain_hops(budget, all) == used + chain_hops(current@.redirects, rest@),
            chain_outcome(budget, all) == chain_outcome(current@.redirects, rest@),
        decreases rest@.len(),
    {
        let ghost rest0 = rest@;
        proof {
            current.lemma_redirects_nonneg();
        }
        let resp = rest.remove(0);
        proof {
            assert(rest@ =~= rest0.drop_first());
            assert(resp == rest0[0]);
        }
        used += 1;
        match decide(current, resp) {
            Step::Done(done) => {
                return (used, Some(Ok(done)));
            },
            Step::Fail(e) => {
                return (used, Some(Err(e)));
            },
            Step::Follow(next) => {
                current = next;
            },
        }
    }
    (used, None)
}

/// A dispatch allowed `redirects` hops reads at most `redirects + 1`
/// responses, and never more than the network returns.
pub proof fn lemma_chain_bounded(redirects: int, resps: Seq<Response>)
    requires
        redirects >= 0,
    ensures
        chain_hops(redirects, resps) <= redirects + 1,
        chain_hops(redirects, resps) <= resps.len(),
    decreases resps.len(),
{
    if resps.len() > 0 && is_redirect(resps[0].status as int) && redirects > 0 && header_lookup(
        resps[0].headers@,
        location_chars(),
    ) is Some {
        lemma_chain_bounded(redirects - 1, resps.drop_first());
    }
}

/// A run of followable redirects longer than the budget ends with the
/// redirect-limit error, after exactly `redirects + 1` responses.
pub proof fn lemma_chain_limit(redirects: int, resps: Seq<Response>)
    requires
        redirects >= 0,
        resps.len() > redirects,
        forall|k: int| 0 <= k <= redirects ==> follows_on(#[trigger] resps[k]),
    ensures
        chain_outcome(redirects, resps) == Some(Err::<Response, Error>(Error::RedirectLimit)),
        chain_hops(redirects, resps) == redirects + 1,
    decreases redirects,
{
    assert(follows_on(resps[0]));
    if redirects > 0 {
        assert(forall|k: int|
            0 <= k <= redirects - 1 ==> resps.drop_first()[k] == resps[k + 1]);
        lemma_chain_limit(redirects - 1, resps.drop_first());
    }
}

/// A run whose first final response comes within the budget ends with
/// that response, after reading each response up to and with it.
pub proof fn lemma_chain_done(redirects: int, resps: Seq<Response>, k: int)
    requires
        0 <= k <= redirects,
        k < resps.len(),
        forall|j: int| 0 <= j < k ==> follows_on(#[trigger] resps[j]),
        !is_redirect(resps[k].status as int),
    ensures
        chain_outcome(redirects, resps) == Some(Ok::<Response, Error>(resps[k])),
        chain_hops(redirects, resps) == k + 1,
    decreases k,
{
    if k > 0 {
        assert(follows_on(resps[0]));
        assert(forall|j: int| 0 <= j < k - 1 ==> resps.drop_first()[j] == resps[j + 1]);
        lemma_chain_done(redirects - 1, resps.drop_first(), k - 1);
    }
}

} // verus!
