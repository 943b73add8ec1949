//! The Fibonacci and Lucas numbers, at positive and negative indices.

use vstd::prelude::*;

verus! {

/// The Fibonacci number of index `n`: `F(0) = 0`, `F(1) = 1`, and
/// `F(n) = F(n - 1) + F(n - 2)` at every integer `n`, which fixes the
/// numbers of negative index too.
pub open spec fn fibonacci_number(n: int) -> int
    decreases
            if n >= 0 {
                n
            } else {
                -n
            },
{
    if n == 0 {
        0
    } else if n == 1 || n == -1 {
        1
    } else if n >= 2 {
        fibonacci_number(n - 1) + fibonacci_number(n - 2)
    } else {
        fibonacci_number(n + 2) - fibonacci_number(n + 1)
    }
}

/// The Lucas number of index `n`: `L(0) = 2`, `L(1) = 1`, and
/// `L(n) = L(n - 1) + L(n - 2)` at every integer `n`.
pub open spec fn lucas_number(n: int) -> int
    decreases
            if n >= 0 {
                n
            } else {
                -n
            },
{
    if n == 0 {
        2
    } else if n == 1 {
        1
    } else if n == -1 {
        -1
    } else if n >= 2 {
        lucas_number(n - 1) + lucas_number(n - 2)
    } else {
        lucas_number(n + 2) - lucas_number(n + 1)
    }
}

/// The largest index whose Fibonacci number fits in an `i64`.
pub const MAX_FIBONACCI_INDEX: i32 = 92;

/// The largest index whose Lucas number fits in an `i64`.
pub const MAX_LUCAS_INDEX: i32 = 90;

/// The recurrence holds at every integer index.
pub proof fn lemma_fibonacci_recurrence(n: int)
    ensures
        fibonacci_number(n) == fibonacci_number(n - 1) + fibonacci_number(n - 2),
{
    if n == 1 {
        assert(fibonacci_number(-1) == 1);
    } else if n == 0 {
        assert(fibonacci_number(-2) == fibonacci_number(0) - fibonacci_number(-1));
    } else if n < 0 {
        assert(fibonacci_number(n - 2) == fibonacci_number(n) - fibonacci_number(n - 1));
    }
}

/// The recurrence holds at every integer index.
pub proof fn lemma_lucas_recurrence(n: int)
    ensures
        lucas_number(n) == lucas_number(n - 1) + lucas_number(n - 2),
{
    if n == 1 {
        assert(lucas_number(-1) == -1);
    } else if n == 0 {
        assert(lucas_number(-2) == lucas_number(0) - lucas_number(-1));
    } else if n < 0 {
        assert(lucas_number(n - 2) == lucas_number(n) - lucas_number(n - 1));
    }
}

/// Mirroring the index keeps a Fibonacci number of odd index and negates
/// one of even index.
pub proof fn lemma_fibonacci_negative_index(n: int)
    requires
        n >= 0,
    ensures
        fibonacci_number(-n) == if n % 2 == 0 {
            -fibonacci_number(n)
        } else {
            fibonacci_number(n)
        },
    decreases n,
{
    if n >= 2 {
        lemma_fibonacci_negative_index(n - 1);
        lemma_fibonacci_negative_index(n - 2);
        lemma_fibonacci_recurrence(2 - n);
    }
}

/// Mirroring the index keeps a Lucas number of even index and negates one
/// of odd index.
pub proof fn lemma_lucas_negative_index(n: int)
    requires
        n >= 0,
    ensures
        lucas_number(-n) == if n % 2 == 0 {
            lucas_number(n)
        } else {
            -lucas_number(n)
        },
    decreases n,
{
    if n >= 2 {
        lemma_lucas_negative_index(n - 1);
        lemma_lucas_negative_index(n - 2);
        lemma_lucas_recurrence(2 - n);
    }
}

/// Each Lucas number is the sum of the Fibonacci numbers on either side of
/// its index.
pub proof fn lemma_lucas_from_fibonacci(n: int)
    ensures
        lucas_number(n) == fibonacci_number(n - 1) + fibonacci_number(n + 1),
    decreases
            if n >= 0 {
                n
            } else {
                -n
            },
{
    if n == 0 || n == 1 || n == -1 {
        reveal_with_fuel(fibonacci_number, 3);
    } else if n >= 2 {
        lemma_lucas_from_fibonacci(n - 1);
        lemma_lucas_from_fibonacci(n - 2);
        lemma_fibonacci_recurrence(n - 1);
        lemma_fibonacci_recurrence(n + 1);
    } else {
        lemma_lucas_from_fibonacci(n + 1);
        lemma_lucas_from_fibonacci(n + 2);
        lemma_fibonacci_recurrence(n + 1);
        lemma_fibonacci_recurrence(n + 3);
    }
}

/// From index zero on, the Fibonacci numbers are non-negative and never
/// decrease.
pub proof fn lemma_fibonacci_monotonic(m: int, n: int)
    requires
        0 <= m <= n,
    ensures
        0 <= fibonacci_number(m) <= fibonacci_number(n),
    decreases n,
{
    if n >= 2 {
        if m < n {
            lemma_fibonacci_monotonic(m, n - 1);
        }
        lemma_fibonacci_monotonic(0, n - 2);
        lemma_fibonacci_monotonic(0, n - 1);
    }
}

/// The Fibonacci number of the largest index that fits.
pub proof fn lemma_fibonacci_largest()
    ensures
        fibonacci_number(89) == 1779979416004714189,
        fibonacci_number(91) == 4660046610375530309,
        fibonacci_number(MAX_FIBONACCI_INDEX as int) == 7540113804746346429,
{
    assert(fibonacci_number(0) == 0);
    assert(fibonacci_number(1) == 1);
    assert(fibonacci_number(2) == 1);
    assert(fibonacci_number(3) == 2);
    assert(fibonacci_number(4) == 3);
    assert(fibonacci_number(5) == 5);
    assert(fibonacci_number(6) == 8);
    assert(fibonacci_number(7) == 13);
    assert(fibonacci_number(8) == 21);
    assert(fibonacci_number(9) == 34);
    assert(fibonacci_number(10) == 55);
    assert(fibonacci_number(11) == 89);
    assert(fibonacci_number(12) == 144);
    assert(fibonacci_number(13) == 233);
    assert(fibonacci_number(14) == 377);
    assert(fibonacci_number(15) == 610);
    assert(fibonacci_number(16) == 987);
    assert(fibonacci_number(17) == 1597);
    assert(fibonacci_number(18) == 2584);
    assert(fibonacci_number(19) == 4181);
    assert(fibonacci_number(20) == 6765);
    assert(fibonacci_number(21) == 10946);
    assert(fibonacci_number(22) == 17711);
    assert(fibonacci_number(23) == 28657);
    assert(fibonacci_number(24) == 46368);
    assert(fibonacci_number(25) == 75025);
    assert(fibonacci_number(26) == 121393);
    assert(fibonacci_number(27) == 196418);
    assert(fibonacci_number(28) == 317811);
    assert(fibonacci_number(29) == 514229);
    assert(fibonacci_number(30) == 832040);
    assert(fibonacci_number(31) == 1346269);
    assert(fibonacci_number(32) == 2178309);
    assert(fibonacci_number(33) == 3524578);
    assert(fibonacci_number(34) == 5702887);
    assert(fibonacci_number(35) == 9227465);
    assert(fibonacci_number(36) == 14930352);
    assert(fibonacci_number(37) == 24157817);
    assert(fibonacci_number(38) == 39088169);
    assert(fibonacci_number(39) == 63245986);
    assert(fibonacci_number(40) == 102334155);
    assert(fibonacci_number(41) == 165580141);
    assert(fibonacci_number(42) == 267914296);
    assert(fibonacci_number(43) == 433494437);
    assert(fibonacci_number(44) == 701408733);
    assert(fibonacci_number(45) == 1134903170);
    assert(fibonacci_number(46) == 1836311903);
    assert(fibonacci_number(47) == 2971215073);
    assert(fibonacci_number(48) == 4807526976);
    assert(fibonacci_number(49) == 7778742049);
    assert(fibonacci_number(50) == 12586269025);
    assert(fibonacci_number(51) == 20365011074);
    assert(fibonacci_number(52) == 32951280099);
    assert(fibonacci_number(53) == 53316291173);
    assert(fibonacci_number(54) == 86267571272);
    assert(fibonacci_number(55) == 139583862445);
    assert(fibonacci_number(56) == 225851433717);
    assert(fibonacci_number(57) == 365435296162);
    assert(fibonacci_number(58) == 591286729879);
    assert(fibonacci_number(59) == 956722026041);
    assert(fibonacci_number(60) == 1548008755920);
    assert(fibonacci_number(61) == 2504730781961);
    assert(fibonacci_number(62) == 4052739537881);
    assert(fibonacci_number(63) == 6557470319842);
    assert(fibonacci_number(64) == 10610209857723);
    assert(fibonacci_number(65) == 17167680177565);
    assert(fibonacci_number(66) == 27777890035288);
    assert(fibonacci_number(67) == 44945570212853);
    assert(fibonacci_number(68) == 72723460248141);
    assert(fibonacci_number(69) == 117669030460994);
    assert(fibonacci_number(70) == 190392490709135);
    assert(fibonacci_number(71) == 308061521170129);
    assert(fibonacci_number(72) == 498454011879264);
    assert(fibonacci_number(73) == 806515533049393);
    assert(fibonacci_number(74) == 1304969544928657);
    assert(fibonacci_number(75) == 2111485077978050);
    assert(fibonacci_number(76) == 3416454622906707);
    assert(fibonacci_number(77) == 5527939700884757);
    assert(fibonacci_number(78) == 8944394323791464);
    assert(fibonacci_number(79) == 14472334024676221);
    assert(fibonacci_number(80) == 23416728348467685);
    assert(fibonacci_number(81) == 37889062373143906);
    assert(fibonacci_number(82) == 61305790721611591);
    assert(fibonacci_number(83) == 99194853094755497);
    assert(fibonacci_number(84) == 160500643816367088);
    assert(fibonacci_number(85) == 259695496911122585);
    assert(fibonacci_number(86) == 420196140727489673);
    assert(fibonacci_number(87) == 679891637638612258);
    assert(fibonacci_number(88) == 1100087778366101931);
    assert(fibonacci_number(89) == 1779979416004714189);
    assert(fibonacci_number(90) == 2880067194370816120);
    assert(fibonacci_number(91) == 4660046610375530309);
    assert(fibonacci_number(92) == 7540113804746346429);
}

/// The Fibonacci numbers up to the largest index fit in an `i64`.
proof fn lemma_fibonacci_fits(n: int)
    requires
        0 <= n <= MAX_FIBONACCI_INDEX,
    ensures
        0 <= fibonacci_number(n) <= i64::MAX,
{
    lemma_fibonacci_largest();
    lemma_fibonacci_monotonic(n, MAX_FIBONACCI_INDEX as int);
}

/// The Lucas numbers from index one up to the largest index are positive
/// and fit in an `i64`.
proof fn lemma_lucas_fits(n: int)
    requires
        1 <= n <= MAX_LUCAS_INDEX,
    ensures
        0 < lucas_number(n) <= i64::MAX,
{
    lemma_fibonacci_largest();
    lemma_lucas_from_fibonacci(n);
    lemma_fibonacci_monotonic(n - 1, 89);
    lemma_fibonacci_monotonic(n + 1, 91);
    lemma_fibonacci_monotonic(1, n + 1);
    lemma_fibonacci_monotonic(0, n - 1);
}

/// The Fibonacci number of index `n`, for every index at which it fits in
/// an `i64`.
pub fn fibonacci(n: i32) -> (r: i64)
    requires
        -MAX_FIBONACCI_INDEX <= n <= MAX_FIBONACCI_INDEX,
    ensures
        r == fibonacci_number(n as int),
    decreases
            if n < 0 {
                1int
            } else {
                0int
            },
{
    if n == 0 {
        return 0;
    }
    if n == 1 || n == -1 {
        return 1;
    }
    if n == -2 {
        assert(fibonacci_number(-2) == fibonacci_number(0) - fibonacci_number(-1));
        return -1;
    }
    if n < 0 {
        let result: i64 = fibonacci(-n);
        proof {
            lemma_fibonacci_negative_index(-n as int);
            lemma_fibonacci_fits(-n as int);
        }
        return if (-n) % 2 == 0 {
            -result
        } else {
            result
        };
    }
    let mut a: i64 = 0;
    let mut b: i64 = 1;
    let mut i: i32 = 2;
    while i <= n
        invariant
            2 <= i <= n + 1,
            n <= MAX_FIBONACCI_INDEX,
            a == fibonacci_number(i - 2),
            b == fibonacci_number(i - 1),
        decreases n + 1 - i,
    {
        proof {
            lemma_fibonacci_fits(i as int);
        }
        let temp: i64 = a + b;
        a = b;
        b = temp;
        i += 1;
    }
    b
}

/// The Lucas number of index `n`, for every index at which it fits in an
/// `i64`.
pub fn lucas(n: i32) -> (r: i64)
    requires
        -MAX_LUCAS_INDEX <= n <= MAX_LUCAS_INDEX,
    ensures
        r == lucas_number(n as int),
    decreases
            if n < 0 {
                1int
            } else {
                0int
            },
{
    if n == 0 {
        return 2;
    }
    if n == 1 {
        return 1;
    }
    if n < 0 {
        let result: i64 = lucas(-n);
        proof {
            lemma_lucas_negative_index(-n as int);
            lemma_lucas_fits(-n as int);
        }
        return if (-n) % 2 == 0 {
            result
        } else {
            -result
        };
    }
    let mut a: i64 = 2;
    let mut b: i64 = 1;
    let mut i: i32 = 2;
    while i <= n
        invariant
            2 <= i <= n + 1,
            n <= MAX_LUCAS_INDEX,
            a == lucas_number(i - 2),
            b == lucas_number(i - 1),
        decreases n + 1 - i,
    {
        proof {
            lemma_lucas_fits(i as int);
        }
        let temp: i64 = a + b;
        a = b;
        b = temp;
        i += 1;
    }
    b
}

} // verus!
