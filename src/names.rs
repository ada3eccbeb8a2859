//! Listing names in prose: "a", "a and b", "a, b and c".

use vstd::prelude::*;
use vstd::string::StringExecFns;

verus! {

/// The names joined by ", ", the last two by " and ".
pub open spec fn listing(names: Seq<Seq<char>>) -> Seq<char>
    decreases names.len(),
{
    if names.len() == 0 {
        Seq::empty()
    } else if names.len() == 1 {
        names[0]
    } else if names.len() == 2 {
        names[0] + seq![' ', 'a', 'n', 'd', ' '] + names[1]
    } else {
        names[0] + seq![',', ' '] + listing(names.drop_first())
    }
}

/// The names listed in prose, or `None` when there is none.
pub fn format_list(names: &[String]) -> (r: Option<String>)
    ensures
        r is None <==> names@.len() == 0,
        r matches Some(s) ==> s@ == listing(names@.map_values(|n: String| n@)),
{
    let ghost v = names@.map_values(|n: String| n@);
    let n = names.len();
    if n == 0 {
        return None;
    }
    if n == 1 {
        return Some(names[0].clone());
    }
    let mut result = String::new();
    let mut i: usize = 0;
    proof {
        assert(v.skip(0) =~= v);
    }
    while i < n - 2
        invariant
            n == names@.len(),
            n >= 2,
            i <= n - 2,
            v == names@.map_values(|n: String| n@),
            result@ + listing(v.skip(i as int)) == listing(v),
        decreases n - 2 - i,
    {
        result.append(names[i].as_str());
        result.append(", ");
        proof {
            reveal_strlit(", ");
            assert(v.skip(i as int).drop_first() =~= v.skip(i + 1));
            assert(v.skip(i as int)[0] == v[i as int]);
        }
        i = i + 1;
    }
    result.append(names[n - 2].as_str());
    result.append(" and ");
    result.append(names[n - 1].as_str());
    proof {
        reveal_strlit(" and ");
        assert(v.skip(i as int)[0] == v[n - 2]);
        assert(v.skip(i as int)[1] == v[n - 1]);
        assert(listing(v.skip(i as int)) =~= v[n - 2] + seq![' ', 'a', 'n', 'd', ' '] + v[n - 1]);
    }
    Some(result)
}

} // verus!
