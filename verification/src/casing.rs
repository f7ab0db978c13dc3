//! The fixed casing convention attribute names are projected to: upper camel
//! case, with underscores dropped and each word's first letter raised.

use vstd::prelude::*;
use vstd::string::StrSliceExecFns;

verus! {

/// Raises one ASCII letter.
pub open spec fn spec_upcase(c: char) -> char {
    if 97 <= c as u32 <= 122 {
        ((c as u32 - 32) as u8) as char
    } else {
        c
    }
}

/// Upper camel case from `start` onward: underscores are dropped and mark
/// the next character as a word start, word starts are raised.
pub open spec fn spec_uc_from(s: Seq<char>, start: bool) -> Seq<char>
    decreases s.len(),
{
    if s.len() == 0 {
        Seq::empty()
    } else if s[0] == '_' {
        spec_uc_from(s.skip(1), true)
    } else if start {
        seq![spec_upcase(s[0])] + spec_uc_from(s.skip(1), false)
    } else {
        seq![s[0]] + spec_uc_from(s.skip(1), false)
    }
}

/// The upper-camel-case projection of a short name.
pub open spec fn spec_upper_camel(s: Seq<char>) -> Seq<char> {
    spec_uc_from(s, true)
}

/// Collects characters into a string. Relies on `String::from_iter`, which
/// appends exactly the characters of the iterator in order.
#[verifier::external_body]
fn chars_to_string(v: Vec<char>) -> (r: String)
    ensures
        r@ == v@,
{
    String::from_iter(v)
}

/// Projects a short name to upper camel case: underscores are dropped and
/// each word's first letter is raised.
pub fn upper_camel(s: &String) -> (r: String)
    ensures
        r@ == spec_upper_camel(s@),
{
    let n = s.as_str().unicode_len();
    let mut out: Vec<char> = Vec::new();
    let mut start: bool = true;
    let mut i: usize = 0;
    proof {
        assert(s@.skip(0) =~= s@);
    }
    while i < n
        invariant
            n == s@.len(),
            i <= n,
            spec_upper_camel(s@) == out@ + spec_uc_from(s@.skip(i as int), start),
        decreases n - i,
    {
        let c = s.as_str().get_char(i);
        proof {
            assert(s@.skip(i as int)[0] == s@[i as int]);
            assert(s@.skip(i as int).skip(1) =~= s@.skip(i + 1));
        }
        let ghost pre = out@;
        if c == '_' {
            start = true;
        } else if start {
            let u = c as u32;
            let up = if u >= 97 && u <= 122 {
                ((u - 32) as u8) as char
            } else {
                c
            };
            out.push(up);
            start = false;
            proof {
                assert(out@ =~= pre + seq![spec_upcase(s@[i as int])]);
                assert((pre + seq![spec_upcase(s@[i as int])]) + spec_uc_from(s@.skip(i + 1), false)
                    =~= pre + (seq![spec_upcase(s@[i as int])] + spec_uc_from(
                    s@.skip(i + 1),
                    false,
                )));
            }
        } else {
            out.push(c);
            proof {
                assert(out@ =~= pre + seq![s@[i as int]]);
                assert((pre + seq![s@[i as int]]) + spec_uc_from(s@.skip(i + 1), false) =~= pre + (
                seq![s@[i as int]] + spec_uc_from(s@.skip(i + 1), false)));
            }
        }
        i += 1;
    }
    proof {
        assert(s@.skip(n as int).len() == 0);
        assert(out@ + spec_uc_from(s@.skip(n as int), start) =~= out@);
    }
    chars_to_string(out)
}

} // verus!
