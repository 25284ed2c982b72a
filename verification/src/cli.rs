//! Command-line options of the program: `--selftest <seconds>`, `--orient h`,
//! `--mode black|white`, `--flick`, `--boss` and `--log`.

use vstd::prelude::*;
use vstd::string::{StrSliceExecFns, StringExecFns};
use crate::model::{ColorMode, Orientation};

verus! {

/// The index of the first argument equal to `key`, if any.
pub open spec fn first_index(args: Seq<String>, key: Seq<char>) -> Option<int>
    decreases args.len(),
{
    if args.len() == 0 {
        None
    } else {
        match first_index(args.drop_last(), key) {
            Some(i) => Some(i),
            None => if args.last()@ == key {
                Some(args.len() - 1)
            } else {
                None
            },
        }
    }
}

proof fn lemma_first_index_prefix(args: Seq<String>, key: Seq<char>, n: int)
    requires
        0 <= n <= args.len(),
        forall|t: int| 0 <= t < n ==> (#[trigger] args[t])@ != key,
    ensures
        first_index(args.take(n), key) is None,
    decreases n,
{
    if n > 0 {
        assert(args.take(n).drop_last() =~= args.take(n - 1));
        lemma_first_index_prefix(args, key, n - 1);
    }
}

proof fn lemma_first_index_found(args: Seq<String>, key: Seq<char>, n: int)
    requires
        0 <= n < args.len(),
        forall|t: int| 0 <= t < n ==> (#[trigger] args[t])@ != key,
        args[n]@ == key,
    ensures
        first_index(args, key) == Some(n),
    decreases args.len(),
{
    if n < args.len() - 1 {
        lemma_first_index_found(args.drop_last(), key, n);
    } else {
        assert(args.drop_last() =~= args.take(n));
        lemma_first_index_prefix(args, key, n);
    }
}

/// Whether some argument equals `key`.
pub fn has_arg(args: &Vec<String>, key: &str) -> (b: bool)
    ensures
        b == exists|i: int| 0 <= i < args@.len() && (#[trigger] args@[i])@ == key@,
{
    let k = String::from_str(key);
    let mut i: usize = 0;
    while i < args.len()
        invariant
            i <= args@.len(),
            k@ == key@,
            forall|t: int| 0 <= t < i ==> (#[trigger] args@[t])@ != key@,
        decreases args@.len() - i,
    {
        if args[i] == k {
            return true;
        }
        i += 1;
    }
    false
}

/// The argument after the first one equal to `key` (`None` when there is no
/// such argument or it is the last).
pub fn arg_value(args: &Vec<String>, key: &str) -> (v: Option<String>)
    ensures
        v is Some <==> (first_index(args@, key@) is Some && first_index(args@, key@)->0 + 1
            < args@.len()),
        v is Some ==> v->0@ == args@[first_index(args@, key@)->0 + 1]@,
{
    let k = String::from_str(key);
    let mut i: usize = 0;
    while i < args.len()
        invariant
            i <= args@.len(),
            k@ == key@,
            forall|t: int| 0 <= t < i ==> (#[trigger] args@[t])@ != key@,
        decreases args@.len() - i,
    {
        if args[i] == k {
            proof {
                lemma_first_index_found(args@, key@, i as int);
            }
            if i + 1 < args.len() {
                return Some(args[i + 1].clone());
            } else {
                return None;
            }
        }
        i += 1;
    }
    proof {
        assert(args@.take(i as int) =~= args@);
        lemma_first_index_prefix(args@, key@, i as int);
    }
    None
}

/// `--orient`: a value starting with `h` means horizontal, anything else vertical.
pub fn orientation_arg(v: &str) -> (o: Orientation)
    ensures
        o == if v@.len() > 0 && v@[0] == 'h' {
            Orientation::Horizontal
        } else {
            Orientation::Vertical
        },
{
    if v.unicode_len() > 0 && v.get_char(0) == 'h' {
        Orientation::Horizontal
    } else {
        Orientation::Vertical
    }
}

/// `--mode`: `black`, `white`, anything else multi-colour.
pub fn mode_arg(v: &str) -> (m: ColorMode)
    ensures
        m == if v@ == "black"@ {
            ColorMode::Black
        } else if v@ == "white"@ {
            ColorMode::White
        } else {
            ColorMode::Multi
        },
{
    let s = String::from_str(v);
    if s == String::from_str("black") {
        ColorMode::Black
    } else if s == String::from_str("white") {
        ColorMode::White
    } else {
        ColorMode::Multi
    }
}

/// Whether every character is an ASCII digit.
pub open spec fn all_digits(s: Seq<char>) -> bool {
    forall|i: int| 0 <= i < s.len() ==> '0' <= #[trigger] s[i] <= '9'
}

/// The value of a run of decimal digits.
pub open spec fn digits_value(s: Seq<char>) -> int
    decreases s.len(),
{
    if s.len() == 0 {
        0
    } else {
        digits_value(s.drop_last()) * 10 + (s.last() as int - '0' as int)
    }
}

/// How an unsigned integer is read: an optional `+`, then one or more decimal
/// digits, with a value that fits `u64`.
pub open spec fn parsed_u64(s: Seq<char>) -> Option<u64> {
    let t = if s.len() > 0 && s[0] == '+' {
        s.drop_first()
    } else {
        s
    };
    if t.len() > 0 && all_digits(t) && digits_value(t) <= u64::MAX {
        Some(digits_value(t) as u64)
    } else {
        None
    }
}

proof fn lemma_digits_value_bounds(s: Seq<char>)
    requires
        all_digits(s),
    ensures
        digits_value(s) >= 0,
    decreases s.len(),
{
    if s.len() > 0 {
        lemma_digits_value_bounds(s.drop_last());
    }
}

proof fn lemma_digits_value_grows(s: Seq<char>, n: int)
    requires
        all_digits(s),
        0 <= n <= s.len(),
    ensures
        digits_value(s.take(n)) <= digits_value(s),
    decreases s.len(),
{
    if n < s.len() {
        assert(s.drop_last().take(n) =~= s.take(n));
        lemma_digits_value_grows(s.drop_last(), n);
        lemma_digits_value_bounds(s.drop_last());
    } else {
        assert(s.take(n) =~= s);
    }
}

/// Reads an unsigned integer the way the standard library does for `u64`.
pub fn parse_u64(v: &str) -> (r: Option<u64>)
    ensures
        r == parsed_u64(v@),
{
    let n = v.unicode_len();
    let mut start: usize = 0;
    if n > 0 && v.get_char(0) == '+' {
        start = 1;
    }
    let ghost t = if v@.len() > 0 && v@[0] == '+' {
        v@.drop_first()
    } else {
        v@
    };
    assert(t =~= v@.skip(start as int));
    if start >= n {
        return None;
    }
    let mut acc: u64 = 0;
    let mut i: usize = start;
    while i < n
        invariant
            n == v@.len(),
            start <= i <= n,
            t == v@.skip(start as int),
            t == if v@.len() > 0 && v@[0] == '+' {
                v@.drop_first()
            } else {
                v@
            },
            all_digits(t.take(i - start)),
            acc as int == digits_value(t.take(i - start)),
        decreases n - i,
    {
        let c = v.get_char(i);
        let ghost k = (i - start) as int;
        proof {
            assert(t[k] == c);
            assert(t.take(k + 1).drop_last() =~= t.take(k));
        }
        if c < '0' || c > '9' {
            proof {
                assert(!('0' <= t[k] && t[k] <= '9'));
                assert(!all_digits(t));
            }
            return None;
        }
        let d = (c as u32 - '0' as u32) as u64;
        proof {
            assert(t.take(k + 1).last() == c);
            assert(d as int == c as int - '0' as int);
            assert(digits_value(t.take(k + 1)) == acc * 10 + d);
        }
        if acc > (u64::MAX - d) / 10 {
            proof {
                assert(all_digits(t.take(k + 1)));
                assert(digits_value(t.take(k + 1)) > u64::MAX) by (nonlinear_arith)
                    requires
                        digits_value(t.take(k + 1)) == acc * 10 + d,
                        acc > (u64::MAX - d) / 10,
                        0 <= d <= 9,
                ;
                if all_digits(t) {
                    lemma_digits_value_grows(t, k + 1);
                }
            }
            return None;
        }
        acc = acc * 10 + d;
        i += 1;
    }
    proof {
        assert(t.take(n - start) =~= t);
    }
    Some(acc)
}

} // verus!
