//! Checked counter arithmetic shared by the code generator and the evaluator.
use vstd::prelude::*;
use vstd::string::StrSliceExecFns;

verus! {

/// Adds `src` to `*dst`, or leaves `*dst` unchanged and returns `err` when the
/// sum does not fit in a `usize`.
pub fn safe_add<E>(dst: &mut usize, src: usize, err: E) -> (r: Result<(), E>)
    ensures
        *old(dst) + src <= usize::MAX ==> r is Ok && *final(dst) == *old(dst) + src,
        *old(dst) + src > usize::MAX ==> r == Err::<(), E>(err) && *final(dst) == *old(dst),
{
    match dst.checked_add(src) {
        Some(v) => {
            *dst = v;
            Ok(())
        },
        None => Err(err),
    }
}

/// The characters of `s`, in order.
pub fn chars_of(s: &str) -> (r: Vec<char>)
    ensures
        r@ == s@,
{
    let n = s.unicode_len();
    let mut r: Vec<char> = Vec::new();
    let mut i: usize = 0;
    while i < n
        invariant
            n == s@.len(),
            i <= n,
            r@ == s@.subrange(0, i as int),
        decreases n - i,
    {
        r.push(s.get_char(i));
        i = i + 1;
        assert(r@ =~= s@.subrange(0, i as int));
    }
    assert(r@ =~= s@);
    r
}

} // verus!
