//! Helpers for converting annotations to plain markdown. The rendering
//! itself is the callers' concern.

use vstd::prelude::*;

use crate::knowledge_base::expand_spaces;
use crate::utils::from_chars;
use crate::utils::to_chars;

verus! {

/// Escapes spaces for wiki links: each space becomes two underscores.
pub fn replace_spaces(astring: String) -> (r: String)
    ensures
        r@ == expand_spaces(astring@, '_', '_'),
{
    let cs = to_chars(astring.as_str());
    let mut out: Vec<char> = Vec::new();
    let mut i: usize = 0;
    proof {
        assert(astring@.skip(0) =~= astring@);
        assert(out@ + expand_spaces(astring@, '_', '_') =~= expand_spaces(astring@, '_', '_'));
    }
    while i < cs.len()
        invariant
            0 <= i <= cs@.len(),
            cs@ == astring@,
            expand_spaces(astring@, '_', '_') == out@ + expand_spaces(
                astring@.skip(i as int),
                '_',
                '_',
            ),
        decreases cs@.len() - i,
    {
        proof {
            assert(astring@.skip(i as int)[0] == astring@[i as int]);
            assert(astring@.skip(i as int).skip(1) =~= astring@.skip(i + 1));
        }
        let ghost pre = out@;
        let c = cs[i];
        if c == ' ' {
            out.push('_');
            out.push('_');
            proof {
                assert(out@ =~= pre + seq!['_', '_']);
                assert(pre + seq!['_', '_'] + expand_spaces(astring@.skip(i + 1), '_', '_') =~= pre
                    + (seq!['_', '_'] + expand_spaces(astring@.skip(i + 1), '_', '_')));
            }
        } else {
            out.push(c);
            proof {
                assert(out@ =~= pre + seq![c]);
                assert(pre + seq![c] + expand_spaces(astring@.skip(i + 1), '_', '_') =~= pre + (
                seq![c] + expand_spaces(astring@.skip(i + 1), '_', '_')));
            }
        }
        i = i + 1;
    }
    proof {
        assert(astring@.skip(astring@.len() as int) =~= Seq::<char>::empty());
        assert(out@ + Seq::<char>::empty() =~= out@);
    }
    from_chars(&out)
}

} // verus!
