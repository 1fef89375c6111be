//! Command-line arguments of the simulator.

use vstd::prelude::*;

verus! {

/// The decimal digits `s` stand for.
pub open spec fn digits_value(s: Seq<char>) -> int
    decreases s.len(),
{
    if s.len() == 0 {
        0
    } else {
        digits_value(s.drop_last()) * 10 + (s.last() as int - '0' as int)
    }
}

/// `s` without its leading `+`, if it has one.
pub open spec fn unsigned_part(s: Seq<char>) -> Seq<char> {
    if s.len() > 0 && s[0] == '+' {
        s.drop_first()
    } else {
        s
    }
}

/// What `str::parse::<u64>` accepts: an optional `+` followed by one or more
/// decimal digits whose value fits in a `u64`; nothing else (no sign `-`, no
/// whitespace).
pub open spec fn spec_parse_u64(s: Seq<char>) -> Option<u64> {
    let d = unsigned_part(s);
    if d.len() > 0 && (forall|i: int| 0 <= i < d.len() ==> '0' <= #[trigger] d[i] <= '9')
        && digits_value(d) <= u64::MAX {
        Some(digits_value(d) as u64)
    } else {
        None
    }
}

/// One more digit: the value of `x[a..i+1]` from that of `x[a..i]`.
proof fn lemma_digits_step(x: Seq<char>, a: int, i: int)
    requires
        0 <= a <= i < x.len(),
    ensures
        digits_value(x.subrange(a, i + 1)) == digits_value(x.subrange(a, i)) * 10 + (x[i] as int - '0' as int),
{
    assert(x.subrange(a, i + 1).drop_last() =~= x.subrange(a, i));
}

/// The value of a string of digits is at least that of any of its prefixes.
proof fn lemma_digits_prefix(d: Seq<char>, k: int)
    requires
        0 <= k <= d.len(),
        forall|i: int| 0 <= i < d.len() ==> '0' <= #[trigger] d[i] <= '9',
    ensures
        digits_value(d.subrange(0, k)) <= digits_value(d),
    decreases d.len() - k,
{
    if k < d.len() {
        lemma_digits_prefix(d, k + 1);
        lemma_digits_step(d, 0, k);
        assert(digits_value(d.subrange(0, k)) >= 0) by {
            lemma_digits_nonneg(d.subrange(0, k));
        }
    } else {
        assert(d.subrange(0, k) =~= d);
    }
}

/// A string of digits has a value of at least zero.
proof fn lemma_digits_nonneg(d: Seq<char>)
    requires
        forall|i: int| 0 <= i < d.len() ==> '0' <= #[trigger] d[i] <= '9',
    ensures
        digits_value(d) >= 0,
    decreases d.len(),
{
    if d.len() > 0 {
        lemma_digits_nonneg(d.drop_last());
    }
}

/// Parse a decimal `u64` as `str::parse::<u64>` does: an optional `+` sign,
/// then one or more decimal digits whose value fits in a `u64`.
fn parse_u64(s: &String) -> (r: Option<u64>)
    ensures
        r == spec_parse_u64(s@),
{
    let t = s.as_str();
    let n = t.unicode_len();
    let start: usize = if n > 0 && t.get_char(0) == '+' {
        1
    } else {
        0
    };
    let ghost d = unsigned_part(s@);
    assert(d =~= s@.subrange(start as int, n as int));
    if start == n {
        return None;
    }
    let mut v: u64 = 0;
    let mut i: usize = start;
    assert(s@.subrange(start as int, start as int) =~= Seq::<char>::empty());
    while i < n
        invariant
            t@ == s@,
            n == s@.len(),
            start <= i <= n,
            d =~= s@.subrange(start as int, n as int),
            d == unsigned_part(s@),
            forall|k: int| start <= k < i ==> '0' <= #[trigger] s@[k] <= '9',
            v == digits_value(s@.subrange(start as int, i as int)),
        decreases n - i,
    {
        let ch = t.get_char(i);
        if !('0' <= ch && ch <= '9') {
            assert(d[i - start] == ch);
            assert(!('0' <= d[i - start] <= '9'));
            assert(!(forall|k: int| 0 <= k < d.len() ==> '0' <= #[trigger] d[k] <= '9'));
            return None;
        }
        let digit = (ch as u32 - '0' as u32) as u64;
        proof {
            lemma_digits_step(s@, start as int, i as int);
        }
        let next = match v.checked_mul(10) {
            Some(w) => w.checked_add(digit),
            None => None,
        };
        match next {
            Some(w) => {
                v = w;
            },
            None => {
                proof {
                    if forall|k: int| 0 <= k < d.len() ==> '0' <= #[trigger] d[k] <= '9' {
                        lemma_digits_prefix(d, i + 1 - start);
                        assert(d.subrange(0, i + 1 - start) =~= s@.subrange(start as int, i + 1));
                    }
                }
                return None;
            },
        }
        i = i + 1;
    }
    assert(s@.subrange(start as int, n as int) =~= d);
    assert forall|k: int| 0 <= k < d.len() implies '0' <= #[trigger] d[k] <= '9' by {
        assert(d[k] == s@[start + k]);
    }
    Some(v)
}

/// The seed that the arguments from index `i` on give: the argument after the
/// first `--seed` that has one, parsed as a `u64`.
pub open spec fn spec_seed_from(args: Seq<Seq<char>>, i: int) -> Option<u64>
    decreases args.len() - i,
{
    if i < 0 || i >= args.len() {
        None
    } else if args[i] == "--seed"@ && i + 1 < args.len() {
        spec_parse_u64(args[i + 1])
    } else {
        spec_seed_from(args, i + 1)
    }
}

/// The views of a list of strings.
pub open spec fn views(args: Seq<String>) -> Seq<Seq<char>> {
    Seq::new(args.len(), |i: int| args[i]@)
}

/// Read the `--seed <N>` option from the program's arguments (`args[0]` is the
/// program name). The first `--seed` followed by a value decides: the value
/// parsed as a `u64`, or `None` if it is no `u64`. Without such an option the
/// result is `None`, which asks for a random seed.
pub fn parse_seed(args: &Vec<String>) -> (seed: Option<u64>)
    ensures
        seed == spec_seed_from(views(args@), 1),
{
    let flag = "--seed".to_owned();
    let mut i: usize = 1;
    while i < args.len()
        invariant
            1 <= i,
            flag@ == "--seed"@,
            spec_seed_from(views(args@), i as int) == spec_seed_from(views(args@), 1),
        decreases args.len() - i,
    {
        assert(views(args@)[i as int] == args@[i as int]@);
        if args[i] == flag {
            if i + 1 < args.len() {
                assert(views(args@)[i + 1] == args@[i + 1]@);
                return parse_u64(&args[i + 1]);
            }
        }
        i += 1;
    }
    None
}

} // verus!
