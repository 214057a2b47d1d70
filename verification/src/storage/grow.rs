//! How far a file has to grow for a commit.

use crate::error::{Error, Fault};
use crate::storage::options::{self, check_capacity};
use vstd::prelude::*;

verus! {

/// The size that `num_pages` pages need.
pub open spec fn required_size(num_pages: u64, pagesize: u64, maximum: Option<u64>) -> Result<
    u64,
    Error,
> {
    if num_pages * pagesize > u64::MAX {
        Err(Error::InvalidDB(Fault::Text("required file size overflow")))
    } else {
        let required = (num_pages * pagesize) as u64;
        match options::within(maximum, required) {
            Err(e) => Err(e),
            Ok(_) => Ok(required),
        }
    }
}

/// Whether `size` is the current size with the fewest whole increments added
/// that reach `required`.
pub open spec fn fewest_increments(current: u64, required: u64, increment: u64, size: int) -> bool {
    &&& size >= required
    &&& size - increment < required
    &&& (size - current) % increment as int == 0
}

/// The size that a file of `current` bytes is given when whole increments
/// take it to `full`: never beyond the maximum, nor by more than a number of
/// bytes can say.
pub open spec fn settled(current: u64, full: int, maximum: Option<u64>) -> Result<
    Option<u64>,
    Error,
> {
    let added = if full - current > u64::MAX {
        u64::MAX as int
    } else {
        full - current
    };
    let size = current + added;
    if size > u64::MAX {
        Err(Error::InvalidDB(Fault::Text("file growth overflow")))
    } else {
        match maximum {
            Some(maximum) => if size > maximum {
                Ok(Some(maximum))
            } else {
                Ok(Some(size as u64))
            },
            None => Ok(Some(size as u64)),
        }
    }
}

/// The size that a file grows to, if it has to.
pub open spec fn grown_size(
    current: u64,
    required: u64,
    increment: u64,
    maximum: Option<u64>,
    r: Result<Option<u64>, Error>,
) -> bool {
    if current >= required {
        r == Ok::<Option<u64>, Error>(None)
    } else {
        exists|full: int|
            #![trigger fewest_increments(current, required, increment, full)]
            fewest_increments(current, required, increment, full) && r == settled(
                current,
                full,
                maximum,
            )
    }
}

/// Works out the size that `num_pages` pages need.
pub fn needed(num_pages: u64, pagesize: u64, maximum: Option<u64>) -> (r: Result<u64, Error>)
    ensures
        r == required_size(num_pages, pagesize, maximum),
{
    let required: u64 = match num_pages.checked_mul(pagesize) {
        Some(required) => required,
        None => return Err(Error::InvalidDB(Fault::Text("required file size overflow"))),
    };
    match check_capacity(maximum, required) {
        Ok(_) => Ok(required),
        Err(e) => Err(e),
    }
}

/// Works out the size that a file of `current` bytes grows to, so that it has
/// at least `required` bytes: by whole increments, though not beyond the
/// maximum.
pub fn grow(current: u64, required: u64, increment: u64, maximum: Option<u64>) -> (r: Result<
    Option<u64>,
    Error,
>)
    requires
        increment > 0,
    ensures
        grown_size(current, required, increment, maximum, r),
{
    if current >= required {
        return Ok(None);
    }
    let diff: u64 = required - current;
    let whole: u64 = diff / increment;
    let rest: u64 = diff % increment;
    let ghost n = increment as int;
    proof {
        vstd::arithmetic::div_mod::lemma_fundamental_div_mod(diff as int, n);
        vstd::arithmetic::div_mod::lemma_mod_bound(diff as int, n);
    }
    let ghost steps = if rest == 0 {
        whole as int
    } else {
        whole + 1
    };
    let ghost full = current + n * steps;
    proof {
        assert(n * (whole + 1) == n * whole + n) by (nonlinear_arith);
        vstd::arithmetic::div_mod::lemma_mod_multiples_basic(steps, n);
        assert(n * steps == steps * n) by (nonlinear_arith);
        assert(fewest_increments(current, required, increment, full));
    }
    let increments: u64 = if rest == 0 {
        whole
    } else {
        if whole == u64::MAX {
            proof {
                assert(n * whole >= whole) by (nonlinear_arith)
                    requires
                        n >= 1,
                        whole >= 0,
                ;
            }
            u64::MAX
        } else {
            whole + 1
        }
    };
    proof {
        assert(increments == steps);
    }
    proof {
        assert(increments * increment == n * steps) by (nonlinear_arith)
            requires
                increments == steps,
                n == increment,
        ;
    }
    let bytes: u64 = match increments.checked_mul(increment) {
        Some(bytes) => bytes,
        None => u64::MAX,
    };
    let size: u64 = match current.checked_add(bytes) {
        Some(size) => size,
        None => {
            assert(settled(current, full, maximum) is Err);
            return Err(Error::InvalidDB(Fault::Text("file growth overflow")));
        },
    };
    let r: u64 = match maximum {
        Some(maximum) => if size > maximum {
            maximum
        } else {
            size
        },
        None => size,
    };
    assert(settled(current, full, maximum) == Ok::<Option<u64>, Error>(Some(r)));
    Ok(Some(r))
}

/// There is one size that the fewest increments lead to.
pub proof fn law_growth_is_determined(
    current: u64,
    required: u64,
    increment: u64,
    full: int,
    other: int,
)
    requires
        increment > 0,
        fewest_increments(current, required, increment, full),
        fewest_increments(current, required, increment, other),
    ensures
        full == other,
{
    let a = full - current;
    let b = other - current;
    let n = increment as int;
    vstd::arithmetic::div_mod::lemma_fundamental_div_mod(a, n);
    vstd::arithmetic::div_mod::lemma_fundamental_div_mod(b, n);
    let x = a / n;
    let y = b / n;
    assert(x == y) by (nonlinear_arith)
        requires
            a == n * x,
            b == n * y,
            a - b < n,
            b - a < n,
            n > 0,
    ;
}

/// A file that grows for a commit holds all of the commit's pages, and stays
/// within the limit.
pub proof fn law_growth_suffices(
    current: u64,
    required: u64,
    increment: u64,
    maximum: Option<u64>,
    r: Result<Option<u64>, Error>,
)
    requires
        increment > 0,
        grown_size(current, required, increment, maximum, r),
        options::within(maximum, required) is Ok,
    ensures
        match r {
            Ok(Some(size)) => current < required <= size && (maximum matches Some(limit) ==> size
                <= limit),
            Ok(None) => current >= required,
            Err(_) => true,
        },
{
}

} // verus!
