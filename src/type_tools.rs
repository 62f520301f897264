use vstd::prelude::*;

verus! {

/// Turns the absence of a value into a value.
pub trait OptionTools {
    /// Whether there is a value.
    spec fn has_value(&self) -> bool;

    /// `None` if `self` holds a value; otherwise `Some(f())`.
    fn not<U, F: FnOnce() -> U>(&self, f: F) -> (r: Option<U>)
        requires
            f.requires(()),
        ensures
            self.has_value() ==> r is None,
            !self.has_value() ==> (r matches Some(u) && f.ensures((), u)),
    ;
}

impl<T> OptionTools for Option<T> {
    open spec fn has_value(&self) -> bool {
        self is Some
    }

    fn not<U, F: FnOnce() -> U>(&self, f: F) -> (r: Option<U>) {
        match self {
            Some(_) => None,
            None => Some(f()),
        }
    }
}

/// Turns a condition into an optional value.
pub trait BoolTools {
    spec fn holds(&self) -> bool;

    /// `Some(f())` if `self` is true; otherwise `None`.
    fn if_true<T, F: FnOnce() -> T>(self, f: F) -> (r: Option<T>)
        requires
            f.requires(()),
        ensures
            !self.holds() ==> r is None,
            self.holds() ==> (r matches Some(t) && f.ensures((), t)),
    ;
}

impl BoolTools for bool {
    open spec fn holds(&self) -> bool {
        *self
    }

    fn if_true<T, F: FnOnce() -> T>(self, f: F) -> (r: Option<T>) {
        if self {
            Some(f())
        } else {
            None
        }
    }
}

/// The decimal digits of `n`, most significant first, without leading zeros.
pub open spec fn digits(n: nat) -> Seq<char>
    decreases n,
{
    if n < 10 {
        seq![(('0' as u32) + n) as char]
    } else {
        digits(n / 10).push((('0' as u32) + (n % 10)) as char)
    }
}

/// The decimal text of `n`: its digits, after a '-' where it is negative.
pub open spec fn decimal(n: int) -> Seq<char> {
    if n < 0 {
        seq!['-'] + digits((-n) as nat)
    } else {
        digits(n as nat)
    }
}

/// Relies on i32's `to_string` (its `Display`): the decimal digits, with a leading '-'
/// for a negative value.
#[verifier::external_body]
fn i32_text(n: i32) -> (r: String)
    ensures
        r@ == decimal(n as int),
{
    n.to_string()
}

/// Turns each element of a list into its text.
pub trait VecTools {
    /// The text of each element, in order.
    spec fn texts(&self) -> Seq<Seq<char>>;

    fn to_strings(&self) -> (r: Vec<String>)
        ensures
            r@.map_values(|s: String| s@) == self.texts(),
    ;
}

impl<'a> VecTools for Vec<&'a str> {
    open spec fn texts(&self) -> Seq<Seq<char>> {
        self@.map_values(|s: &str| s@)
    }

    fn to_strings(&self) -> (r: Vec<String>) {
        let mut out: Vec<String> = Vec::new();
        let mut i: usize = 0;
        while i < self.len()
            invariant
                i <= self@.len(),
                out@.map_values(|s: String| s@) == self@.take(i as int).map_values(|s: &str| s@),
            decreases self.len() - i,
        {
            let ghost before = out@;
            let t = String::from_str(self[i]);
            out.push(t);
            proof {
                assert(out@.map_values(|s: String| s@) =~= before.map_values(|s: String| s@).push(t@));
                assert(self@.take(i + 1).map_values(|s: &str| s@) =~= self@.take(i as int).map_values(
                    |s: &str| s@,
                ).push(self@[i as int]@));
            }
            i += 1;
        }
        proof {
            assert(self@.take(self@.len() as int) =~= self@);
        }
        out
    }
}

impl VecTools for Vec<i32> {
    open spec fn texts(&self) -> Seq<Seq<char>> {
        self@.map_values(|n: i32| decimal(n as int))
    }

    fn to_strings(&self) -> (r: Vec<String>) {
        let mut out: Vec<String> = Vec::new();
        let mut i: usize = 0;
        while i < self.len()
            invariant
                i <= self@.len(),
                out@.map_values(|s: String| s@) == self@.take(i as int).map_values(|n: i32| decimal(n as int)),
            decreases self.len() - i,
        {
            let ghost before = out@;
            let t = i32_text(self[i]);
            out.push(t);
            proof {
                assert(out@.map_values(|s: String| s@) =~= before.map_values(|s: String| s@).push(t@));
                assert(self@.take(i + 1).map_values(|n: i32| decimal(n as int)) =~= self@.take(
                    i as int,
                ).map_values(|n: i32| decimal(n as int)).push(decimal(self@[i as int] as int)));
            }
            i += 1;
        }
        proof {
            assert(self@.take(self@.len() as int) =~= self@);
        }
        out
    }
}

} // verus!
