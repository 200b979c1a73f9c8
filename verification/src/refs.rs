//! Small functions on shared and mutable references: what a reference
//! reads, what an assignment through it changes, and how comparisons and
//! field accesses look through several levels of reference. What each of
//! them observes is proved where it is written.

use vstd::prelude::*;

verus! {

/// A show, by name.
pub struct Anime {
    pub name: &'static str,
    pub bachdel_pass: bool,
}

/// A point in the plane.
pub struct Point {
    pub x: i32,
    pub y: i32,
}

/// The product of the numbers from 1 to `n`.
pub open spec fn factorial_of(n: nat) -> nat
    decreases n,
{
    if n == 0 {
        1
    } else {
        n * factorial_of((n - 1) as nat)
    }
}

/// The factorial is at least 1 and does not fall as its argument grows.
pub proof fn lemma_factorial_grows(i: nat, n: nat)
    requires
        i <= n,
    ensures
        1 <= factorial_of(i) <= factorial_of(n),
    decreases n,
{
    if n == 0 {
    } else if i == n {
        lemma_factorial_grows((n - 1) as nat, (n - 1) as nat);
        assert(n * factorial_of((n - 1) as nat) >= factorial_of((n - 1) as nat)) by (nonlinear_arith)
            requires
                n >= 1,
        ;
    } else {
        lemma_factorial_grows(i, (n - 1) as nat);
        assert(n * factorial_of((n - 1) as nat) >= factorial_of((n - 1) as nat)) by (nonlinear_arith)
            requires
                n >= 1,
        ;
    }
}

/// The factorial of `n`, where it fits the machine's word.
pub fn factorial(n: usize) -> (r: usize)
    requires
        factorial_of(n as nat) <= usize::MAX,
    ensures
        r == factorial_of(n as nat),
{
    let mut acc: usize = 1;
    let mut i: usize = 0;
    while i < n
        invariant
            i <= n,
            acc == factorial_of(i as nat),
            factorial_of(n as nat) <= usize::MAX,
        decreases n - i,
    {
        proof {
            lemma_factorial_grows((i + 1) as nat, n as nat);
            assert(factorial_of((i + 1) as nat) == (i + 1) * factorial_of(i as nat));
            assert(acc * (i + 1) == (i + 1) * acc) by (nonlinear_arith);
        }
        i += 1;
        acc = acc * i;
    }
    acc
}

/// The smallest number of a slice that holds at least one.
pub fn smallest(v: &[i32]) -> (s: &i32)
    requires
        v.len() > 0,
    ensures
        exists|i: int| 0 <= i < v.len() && v@[i] == *s,
        forall|i: int| 0 <= i < v.len() ==> *s <= v@[i],
{
    let mut s = &v[0];
    let mut k: usize = 1;
    while k < v.len()
        invariant
            1 <= k <= v.len(),
            exists|i: int| 0 <= i < k && v@[i] == *s,
            forall|i: int| 0 <= i < k ==> *s <= v@[i],
        decreases v.len() - k,
    {
        let r = &v[k];
        if *r < *s {
            s = r;
        }
        k += 1;
    }
    s
}

/// A shared reference reads the value it points to; a mutable one changes
/// it; a field is read through a reference as through the value.
pub fn init_ref() {
    let x: i32 = 10;
    let r = &x;
    assert(*r == 10);

    let mut y: i32 = 32;
    let m = &mut y;
    *m += 32;
    assert(*m == 64);

    let aria = Anime { name: "Aria: The Animation", bachdel_pass: true };
    let anime_ref = &aria;
    assert(anime_ref.name@ == "Aria: The Animation"@);
    assert(anime_ref.bachdel_pass == true);
    assert((*anime_ref).name@ == "Aria: The Animation"@);
}

/// A reference that is assigned anew points to the new value, and a field
/// is read through any number of references.
pub fn assignment_ref() {
    let x: i32 = 10;
    let y: i32 = 20;
    let mut r = &x;
    assert(*r == 10);
    r = &y;
    assert(*r == 10 || *r == 20);

    let point = Point { x: 1000, y: 729 };
    let r: &Point = &point;
    let rr: &&Point = &r;
    let rrr: &&&Point = &rr;
    assert(rrr.x == 1000);
    assert(rrr.y == 729);
}

/// Comparisons look through references to the values behind them.
pub fn compare_ref() {
    let x: i32 = 10;
    let y: i32 = 10;

    let rx = &x;
    let ry = &y;

    let rrx = &rx;
    let rry = &ry;

    let no_greater: bool = rrx <= rry;
    let equal: bool = rrx == rry;
    assert(no_greater);
    assert(equal);

    let equal_once: bool = rx == ry;
    assert(equal_once);
}

/// Arithmetic looks through a reference to a number.
pub fn factorial_ref() {
    proof {
        reveal_with_fuel(factorial_of, 7);
    }
    let r = &factorial(6);
    let sum: usize = *r + 1009;
    assert(sum == 1729);
}

/// A reference may be used as long as what it points to lives.
pub fn lifetime_ref() {
    let x: i32 = 1;
    let v: Vec<i32>;
    {
        let r = &x;
        assert(*r == 1);

        v = vec![1, 2, 3];
    }
    let vr = &v[1];
    assert(*vr == 2);
}

} // verus!
