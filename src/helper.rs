//! Checked counter arithmetic.
use vstd::prelude::*;
use vstd::std_specs::iter::IteratorSpec;

verus! {

/// Addition that reports overflow instead of wrapping.
pub trait SafeAdd: Sized {
    /// The sum of `self` and `n`, or `None` where it is not representable.
    spec fn safe_add_spec(&self, n: &Self) -> Option<Self>;

    fn safe_add(&self, n: &Self) -> (r: Option<Self>)
        ensures
            r == self.safe_add_spec(n),
    ;
}

impl SafeAdd for usize {
    open spec fn safe_add_spec(&self, n: &usize) -> Option<usize> {
        if *self + *n <= usize::MAX {
            Some((*self + *n) as usize)
        } else {
            None
        }
    }

    fn safe_add(&self, n: &usize) -> (r: Option<usize>) {
        self.checked_add(*n)
    }
}

/// Adds `src` to `*dst`; on overflow leaves `*dst` as it was and returns the
/// error that `f` builds.
pub fn safe_add<T, F, E>(dst: &mut T, src: &T, f: F) -> (r: Result<(), E>) where
    T: SafeAdd,
    F: FnOnce() -> E,

    requires
        f.requires(()),
    ensures
        match old(dst).safe_add_spec(src) {
            Some(v) => r is Ok && *final(dst) == v,
            None => r is Err && *final(dst) == *old(dst) && f.ensures((), r->Err_0),
        },
{
    match dst.safe_add(src) {
        Some(n) => {
            *dst = n;
            Ok(())
        },
        None => Err(f()),
    }
}


/// The characters of `s`, in order.
pub fn chars_of(s: &str) -> (r: Vec<char>)
    ensures
        r@ == s@,
{
    broadcast use vstd::string::axiom_spec_iter, vstd::string::next_postcondition;

    let mut it = s.chars();
    let mut r: Vec<char> = Vec::new();
    loop
        invariant
            it.obeys_prophetic_iter_laws(),
            r@ + it.remaining() == s@,
            it.decrease() is Some,
        ensures
            r@ == s@,
        decreases it.decrease()->0,
    {
        match it.next() {
            Some(c) => {
                r.push(c);
            },
            None => {
                assert(r@ =~= s@);
                break;
            },
        }
    }
    r
}

} // verus!
