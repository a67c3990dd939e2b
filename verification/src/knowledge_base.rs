//! Helpers for converting annotations to knowledge-base text. The rendering
//! itself (templates, files, indices) is the callers' concern.

use vstd::prelude::*;

use crate::utils::from_chars;
use crate::utils::to_chars;

verus! {

/// Every space expanded to the two given characters, other characters kept.
pub open spec fn expand_spaces(s: Seq<char>, r1: char, r2: char) -> Seq<char>
    decreases s.len(),
{
    if s.len() == 0 {
        Seq::empty()
    } else {
        (if s[0] == ' ' {
            seq![r1, r2]
        } else {
            seq![s[0]]
        }) + expand_spaces(s.skip(1), r1, r2)
    }
}

/// Escapes spaces for in-template tag links: each space becomes
/// a backslash-space pair.
pub fn replace_spaces(astring: &str) -> (r: String)
    ensures
        r@ == expand_spaces(astring@, '\\', ' '),
{
    let cs = to_chars(astring);
    let mut out: Vec<char> = Vec::new();
    let mut i: usize = 0;
    proof {
        assert(astring@.skip(0) =~= astring@);
        assert(out@ + expand_spaces(astring@, '\\', ' ') =~= expand_spaces(astring@, '\\', ' '));
    }
    while i < cs.len()
        invariant
            0 <= i <= cs@.len(),
            cs@ == astring@,
            expand_spaces(astring@, '\\', ' ') == out@ + expand_spaces(
                astring@.skip(i as int),
                '\\',
                ' ',
            ),
        decreases cs@.len() - i,
    {
        proof {
            assert(astring@.skip(i as int)[0] == astring@[i as int]);
            assert(astring@.skip(i as int).skip(1) =~= astring@.skip(i + 1));
        }
        let ghost pre = out@;
        let c = cs[i];
        if c == ' ' {
            out.push('\\');
            out.push(' ');
            proof {
                assert(out@ =~= pre + seq!['\\', ' ']);
                assert(pre + seq!['\\', ' '] + expand_spaces(astring@.skip(i + 1), '\\', ' ')
                    =~= pre + (seq!['\\', ' '] + expand_spaces(astring@.skip(i + 1), '\\', ' ')));
            }
        } else {
            out.push(c);
            proof {
                assert(out@ =~= pre + seq![c]);
                assert(pre + seq![c] + expand_spaces(astring@.skip(i + 1), '\\', ' ') =~= pre + (
                seq![c] + expand_spaces(astring@.skip(i + 1), '\\', ' ')));
            }
        }
        i = i + 1;
    }
    proof {
        assert(astring@.skip(astring@.len() as int) =~= Seq::<char>::empty());
        assert(out@ + Seq::<char>::empty() =~= out@);
    }
    from_chars(&out)
}

/// A link of the generated index.
pub struct LinkTemplate {
    pub name: String,
    pub relative_path: String,
    pub absolute_path: String,
}

} // verus!
