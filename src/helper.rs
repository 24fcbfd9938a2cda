use vstd::prelude::*;

verus! {

/// Addition that reports overflow instead of wrapping.
pub trait SafeAdd: Sized {
    /// The sum of `self` and `other`, or `None` when it does not fit.
    spec fn spec_safe_add(&self, other: &Self) -> Option<Self>;

    fn safe_add(&self, other: &Self) -> (r: Option<Self>)
        ensures
            r == self.spec_safe_add(other),
    ;
}

impl SafeAdd for usize {
    open spec fn spec_safe_add(&self, other: &Self) -> Option<Self> {
        if *self + *other <= usize::MAX {
            Some((*self + *other) as usize)
        } else {
            None
        }
    }

    fn safe_add(&self, other: &Self) -> (r: Option<Self>) {
        self.checked_add(*other)
    }
}

/// Adds `src` to `dst` in place; on overflow `dst` is left as it was and the
/// error built by `f` is returned.
pub fn safe_add<T, F, E>(dst: &mut T, src: &T, f: F) -> (r: Result<(), E>)
    where
        T: SafeAdd,
        F: Fn() -> E,
    requires
        f.requires(()),
    ensures
        match old(dst).spec_safe_add(src) {
            Some(n) => r is Ok && *final(dst) == n,
            None => r is Err && *final(dst) == *old(dst) && f.ensures((), r->Err_0),
        },
{
    match dst.safe_add(src) {
        Some(n) => {
            *dst = n;
            Ok(())
        },
        None => Err(f()),
    }
}


/// The characters of `s`, in order.
pub fn to_chars(s: &str) -> (r: Vec<char>)
    ensures
        r@ == s@,
{
    let n = s.unicode_len();
    let mut r: Vec<char> = Vec::new();
    let mut i: usize = 0;
    while i < n
        invariant
            n == s@.len(),
            i <= n,
            r@ == s@.subrange(0, i as int),
        decreases n - i,
    {
        r.push(s.get_char(i));
        i = i + 1;
    }
    assert(r@ =~= s@);
    r
}

} // verus!
