//! Markdown-style text transformation: a configured table of tag
//! replacements applied to an input text, in table order.

use vstd::prelude::*;

use crate::render::replace;
use crate::render::replace_spec;

verus! {

/// The transformation table: pairs of tag and replacement.
pub struct Config {
    /// Mappings from general HTML tags to the terminal sequences they
    /// become.
    pub map: Vec<(String, String)>,
}

impl Config {
    /// An empty table: `transform` then changes nothing.
    pub fn new() -> (r: Config)
        ensures
            r.map@.len() == 0,
    {
        Config { map: Vec::new() }
    }
}

/// The input rewritten by every table pair in order; a pair with an
/// empty tag changes nothing.
pub open spec fn transform_spec(map: Seq<(Seq<char>, Seq<char>)>, input: Seq<char>) -> Seq<char>
    decreases map.len(),
{
    if map.len() == 0 {
        input
    } else {
        transform_spec(map.drop_first(), replace_spec(input, map[0].0, map[0].1))
    }
}

/// The view of the transformation table.
pub open spec fn map_view(map: Seq<(String, String)>) -> Seq<(Seq<char>, Seq<char>)> {
    map.map_values(|p: (String, String)| (p.0@, p.1@))
}

/// Applies every replacement of the table to the input, in order.
pub fn transform(cnf: &Config, input: String) -> (r: String)
    ensures
        r@ == transform_spec(map_view(cnf.map@), input@),
{
    let ghost input0 = input@;
    let n = cnf.map.len();
    let mut cur = input;
    let mut i: usize = 0;
    proof {
        assert(map_view(cnf.map@).skip(0) =~= map_view(cnf.map@));
    }
    while i < n
        invariant
            i <= n,
            n == cnf.map@.len(),
            transform_spec(map_view(cnf.map@), input0) == transform_spec(
                map_view(cnf.map@).skip(i as int),
                cur@,
            ),
        decreases n - i,
    {
        proof {
            let mv = map_view(cnf.map@);
            assert(mv.skip(i as int)[0] == mv[i as int]);
            assert(mv.skip(i as int).drop_first() =~= mv.skip(i + 1 as int));
            assert(mv[i as int] == (cnf.map@[i as int].0@, cnf.map@[i as int].1@));
        }
        if cnf.map[i].0.as_str().unicode_len() > 0 {
            cur = replace(cur.as_str(), cnf.map[i].0.as_str(), cnf.map[i].1.as_str());
        } else {
            proof {
                assert(replace_spec(cur@, cnf.map@[i as int].0@, cnf.map@[i as int].1@)
                    == cur@);
            }
        }
        i += 1;
    }
    proof {
        assert(map_view(cnf.map@).skip(n as int).len() == 0);
    }
    cur
}

} // verus!
