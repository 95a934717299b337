//! The computed part of the tracker client: assembling the announce query
//! string.  The HTTP exchange itself happens outside the core and hands back
//! plain bytes.

use vstd::prelude::*;

verus! {

/// The query string for a parameter list: `k=v` pairs joined with `&`.
pub open spec fn spec_query_params(params: Seq<(&str, &str)>) -> Seq<char>
    decreases params.len(),
{
    if params.len() <= 0 {
        Seq::empty()
    } else if params.len() == 1 {
        params[0].0@ + seq!['='] + params[0].1@
    } else {
        spec_query_params(params.drop_last()) + seq!['&'] + params.last().0@ + seq!['=']
            + params.last().1@
    }
}

/// Joins query parameters as `key=value` pairs separated by `&`.
pub fn encode_query_params(params: &[(&str, &str)]) -> (r: String)
    ensures
        r@ == spec_query_params(params@),
{
    let mut r = String::new();
    let mut i: usize = 0;
    while i < params.len()
        invariant
            i <= params@.len(),
            r@ == spec_query_params(params@.subrange(0, i as int)),
        decreases params@.len() - i,
    {
        proof {
            reveal_strlit("&");
            reveal_strlit("=");
        }
        if i > 0 {
            r.append("&");
        }
        let (k, v) = params[i];
        r.append(k);
        r.append("=");
        r.append(v);
        proof {
            assert(params@.subrange(0, i + 1).drop_last() =~= params@.subrange(0, i as int));
            assert(params@.subrange(0, i + 1).last() == params@[i as int]);
            assert(r@ =~= spec_query_params(params@.subrange(0, i + 1)));
        }
        i += 1;
    }
    proof {
        assert(params@.subrange(0, params@.len() as int) =~= params@);
    }
    r
}

} // verus!
