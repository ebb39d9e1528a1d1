use vstd::prelude::*;
use vstd::string::StringSliceAdditionalSpecFns;

verus! {

#[verifier::external_type_specification]
#[verifier::external_body]
pub struct ExPathBuf(std::path::PathBuf);

/// A region coordinate: which region along one axis, 32 chunks each.
#[derive(Clone, Copy, Debug, PartialEq, Eq, Structural)]
pub struct RCoord(pub isize);

/// Where the region files of a world are kept.
pub struct RegionFileLoader {
    pub region_dir: std::path::PathBuf,
}

impl RegionFileLoader {
    /// A loader for the region files under `region_dir`.
    pub fn new(region_dir: std::path::PathBuf) -> (r: Self)
        ensures
            r.region_dir == region_dir,
    {
        RegionFileLoader { region_dir }
    }
}

/// Index of the first `.` in `b` at or after `from`, or the length of `b`.
pub open spec fn find_dot(b: Seq<u8>, from: int) -> int
    decreases b.len() - from,
{
    if from >= b.len() {
        b.len() as int
    } else if b[from] == 0x2e {
        from
    } else {
        find_dot(b, from + 1)
    }
}

/// Value of a run of decimal digits.
pub open spec fn digits_value(d: Seq<u8>) -> int
    decreases d.len(),
{
    if d.len() == 0 {
        0
    } else {
        digits_value(d.drop_last()) * 10 + (d.last() - 0x30)
    }
}

/// Every byte of `d` is a decimal digit.
pub open spec fn all_digits(d: Seq<u8>) -> bool {
    forall|i: int| 0 <= i < d.len() ==> 0x30 <= #[trigger] d[i] <= 0x39
}

/// A plain signed decimal integer: an optional minus sign, then one digit or
/// more, within the range of `isize`.
pub open spec fn parse_isize_spec(d: Seq<u8>) -> Option<int> {
    let neg = d.len() > 0 && d[0] == 0x2d;
    let digits = if neg {
        d.subrange(1, d.len() as int)
    } else {
        d
    };
    let v = if neg {
        -digits_value(digits)
    } else {
        digits_value(digits)
    };
    if digits.len() == 0 || !all_digits(digits) || v < isize::MIN || v > isize::MAX {
        None
    } else {
        Some(v)
    }
}

/// The coordinates in a region file name `r.<x>.<z>.mca`, with `x` and `z`
/// plain signed decimals; any other name holds none.
pub open spec fn coords_spec(b: Seq<u8>) -> Option<(int, int)> {
    let d2 = find_dot(b, 2);
    let d3 = find_dot(b, d2 + 1);
    if b.len() < 2 || b[0] != 0x72 || b[1] != 0x2e || d2 >= b.len() || d3 + 4 != b.len() || b[d3
        + 1] != 0x6d || b[d3 + 2] != 0x63 || b[d3 + 3] != 0x61 {
        None
    } else {
        match (parse_isize_spec(b.subrange(2, d2)), parse_isize_spec(b.subrange(d2 + 1, d3))) {
            (Some(x), Some(z)) => Some((x, z)),
            _ => None,
        }
    }
}

/// A longer run of digits is worth at least as much as its prefix.
proof fn lemma_digits_prefix(d: Seq<u8>, n: int)
    requires
        0 <= n <= d.len(),
        all_digits(d),
    ensures
        digits_value(d.subrange(0, n)) <= digits_value(d),
        digits_value(d.subrange(0, n)) >= 0,
    decreases d.len(),
{
    if d.len() > 0 {
        assert(all_digits(d.drop_last()));
        if n < d.len() {
            lemma_digits_prefix(d.drop_last(), n);
            assert(d.drop_last().subrange(0, n) =~= d.subrange(0, n));
            lemma_digits_prefix(d.drop_last(), d.len() - 1);
            assert(d.drop_last().subrange(0, d.len() - 1) =~= d.drop_last());
        } else {
            assert(d.subrange(0, n) =~= d);
            lemma_digits_prefix(d.drop_last(), d.len() - 1);
            assert(d.drop_last().subrange(0, d.len() - 1) =~= d.drop_last());
        }
    }
}

/// Finds the first `.` at or after `from`.
fn find_dot_exec(b: &[u8], from: usize) -> (r: usize)
    requires
        from <= b@.len(),
    ensures
        r as int == find_dot(b@, from as int),
        from <= r <= b@.len(),
{
    let mut i = from;
    while i < b.len()
        invariant
            from <= i <= b@.len(),
            find_dot(b@, from as int) == find_dot(b@, i as int),
        decreases b@.len() - i,
    {
        if b[i] == 0x2e {
            return i;
        }
        i = i + 1;
    }
    i
}

/// Reads a signed decimal integer from `b[lo..hi]`.
fn parse_isize(b: &[u8], lo: usize, hi: usize) -> (r: Option<isize>)
    requires
        lo <= hi <= b@.len(),
    ensures
        match parse_isize_spec(b@.subrange(lo as int, hi as int)) {
            Some(v) => r == Some(v as isize),
            None => r is None,
        },
{
    let ghost d = b@.subrange(lo as int, hi as int);
    if lo == hi {
        return None;
    }
    let neg = b[lo] == 0x2d;
    let start = if neg { lo + 1 } else { lo };
    let ghost digits = b@.subrange(start as int, hi as int);
    assert(digits =~= if neg { d.subrange(1, d.len() as int) } else { d });
    if start == hi {
        return None;
    }
    let bound: u128 = if neg { isize::MAX as u128 + 1 } else { isize::MAX as u128 };
    let mut acc: u128 = 0;
    let mut i = start;
    while i < hi
        invariant
            start <= i <= hi <= b@.len(),
            digits == b@.subrange(start as int, hi as int),
            d == b@.subrange(lo as int, hi as int),
            d.len() > 0,
            neg == (d[0] == 0x2d),
            digits == if neg { d.subrange(1, d.len() as int) } else { d },
            bound as int == if neg { isize::MAX as int + 1 } else { isize::MAX as int },
            digits.len() > 0,
            acc as int == digits_value(b@.subrange(start as int, i as int)),
            acc <= bound,
            bound <= isize::MAX as u128 + 1,
            all_digits(b@.subrange(start as int, i as int)),
        decreases hi - i,
    {
        let c = b[i];
        if c < 0x30 || c > 0x39 {
            assert(!all_digits(digits)) by {
                assert(digits[i - start] == c);
            }
            return None;
        }
        assert(b@.subrange(start as int, i + 1).drop_last() =~= b@.subrange(start as int, i as int));
        let next = acc * 10 + (c - 0x30) as u128;
        i = i + 1;
        assert(next as int == digits_value(b@.subrange(start as int, i as int)));
        if next > bound {
            proof {
                if all_digits(digits) {
                    lemma_digits_prefix(digits, i - start);
                    assert(digits.subrange(0, i - start) =~= b@.subrange(start as int, i as int));
                    assert(digits_value(digits) > bound);
                }
            }
            return None;
        }
        acc = next;
        assert(all_digits(b@.subrange(start as int, i as int))) by {
            assert forall|j: int| 0 <= j < i - start implies 0x30 <= #[trigger] b@.subrange(
                start as int,
                i as int,
            )[j] <= 0x39 by {
                if j < i - 1 - start {
                    assert(b@.subrange(start as int, i as int)[j] == b@.subrange(
                        start as int,
                        i - 1,
                    )[j]);
                }
            }
        }
    }
    assert(b@.subrange(start as int, i as int) =~= digits);
    if neg {
        Some((0 - (acc as i128)) as isize)
    } else {
        Some(acc as isize)
    }
}

/// The region coordinates that a region file's name `r.<x>.<z>.mca` holds,
/// as in `r.-1.2.mca`; `None` for any other name.
pub fn coords_from_region(file_name: &str) -> (r: Option<(RCoord, RCoord)>)
    ensures
        match coords_spec(file_name.spec_bytes()) {
            Some((x, z)) => r == Some((RCoord(x as isize), RCoord(z as isize))),
            None => r is None,
        },
{
    let b = file_name.as_bytes();
    if b.len() < 2 || b[0] != 0x72 || b[1] != 0x2e {
        return None;
    }
    let d2 = find_dot_exec(b, 2);
    if d2 >= b.len() {
        return None;
    }
    let d3 = find_dot_exec(b, d2 + 1);
    if b.len() < 4 || d3 != b.len() - 4 || b[d3 + 1] != 0x6d || b[d3 + 2] != 0x63 || b[d3 + 3] != 0x61 {
        return None;
    }
    let x = parse_isize(b, 2, d2);
    let z = parse_isize(b, d2 + 1, d3);
    match (x, z) {
        (Some(x), Some(z)) => Some((RCoord(x), RCoord(z))),
        _ => None,
    }
}

} // verus!
