//! Small verified text helpers: ASCII case-insensitive comparison, used for
//! command-name matching, and joining tokens with spaces, used for error
//! messages.

use vstd::prelude::*;
use vstd::string::StrSliceExecFns;
use vstd::string::StringExecFns;

verus! {

/// `a` is `b`, or `b` is the ASCII-lowercase form of `a`.
pub open spec fn ci_char(a: char, b: char) -> bool {
    a == b || (65 <= a as u32 <= 90 && a as u32 + 32 == b as u32)
}

/// `a` matches `b` up to ASCII case; `b` is the lowercase reference word.
pub open spec fn ci_equal(a: Seq<char>, b: Seq<char>) -> bool {
    a.len() == b.len() && (forall|i: int| 0 <= i < a.len() ==> ci_char(a[i], #[trigger] b[i]))
}

/// Compares `a` against the lowercase word `b`, ignoring ASCII case in `a`.
pub fn eq_ignore_case(a: &String, b: &str) -> (r: bool)
    ensures
        r == ci_equal(a@, b@),
{
    let an = a.as_str().unicode_len();
    let bn = b.unicode_len();
    if an != bn {
        return false;
    }
    let mut i: usize = 0;
    while i < an
        invariant
            an == a@.len(),
            bn == b@.len(),
            an == bn,
            i <= an,
            forall|j: int| 0 <= j < i ==> ci_char(a@[j], #[trigger] b@[j]),
        decreases an - i,
    {
        let ca = a.as_str().get_char(i);
        let cb = b.get_char(i);
        let ca32 = ca as u32;
        let cb32 = cb as u32;
        if !(ca == cb || (65 <= ca32 && ca32 <= 90 && ca32 + 32 == cb32)) {
            return false;
        }
        i = i + 1;
    }
    true
}

/// The tokens joined by the separator: empty for no tokens, the token
/// itself for one, and each further token preceded by the separator.
pub open spec fn join_spec(parts: Seq<Seq<char>>, sep: Seq<char>) -> Seq<char>
    decreases parts.len(),
{
    if parts.len() == 0 {
        Seq::empty()
    } else if parts.len() == 1 {
        parts[0]
    } else {
        join_spec(parts.drop_last(), sep) + sep + parts.last()
    }
}

/// Joins the tokens with single spaces, as command error messages quote
/// the offending command.
pub fn join_with_spaces(parts: &Vec<String>) -> (r: String)
    ensures
        r@ == join_spec(parts.deep_view(), " "@),
{
    let mut r = String::new();
    let mut i: usize = 0;
    while i < parts.len()
        invariant
            i <= parts@.len(),
            r@ == join_spec(parts.deep_view().take(i as int), " "@),
        decreases parts@.len() - i,
    {
        if i > 0 {
            r.append(" ");
        }
        r.append(parts[i].as_str());
        proof {
            let dv = parts.deep_view();
            assert(dv[i as int] == parts@[i as int]@);
            assert(dv.take(i as int + 1).drop_last() =~= dv.take(i as int));
            assert(dv.take(i as int + 1).last() == dv[i as int]);
            if i == 0 {
                assert(r@ =~= join_spec(dv.take(i as int + 1), " "@));
            } else {
                assert(r@ =~= join_spec(dv.take(i as int), " "@) + " "@ + dv[i as int]);
            }
        }
        i = i + 1;
    }
    proof {
        assert(parts.deep_view().take(i as int) =~= parts.deep_view());
    }
    r
}

} // verus!
