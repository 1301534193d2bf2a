//! Verified byte-level text helpers shared by the chunker, the analyzer
//! model and the scoring rules.

use vstd::prelude::*;

verus! {

/// Lowercases one ASCII byte.
pub open spec fn to_lower(b: u8) -> u8 {
    if 65 <= b <= 90 {
        (b + 32) as u8
    } else {
        b
    }
}

/// `s` with every ASCII letter lowercased.
pub open spec fn lower_bytes(s: Seq<u8>) -> Seq<u8> {
    s.map_values(|b: u8| to_lower(b))
}

/// Lowercases one ASCII byte.
pub fn lower_byte(b: u8) -> (r: u8)
    ensures
        r == to_lower(b),
{
    if 65 <= b && b <= 90 {
        b + 32
    } else {
        b
    }
}

/// `s` with every ASCII letter lowercased.
pub fn lower_vec(s: &[u8]) -> (r: Vec<u8>)
    ensures
        r@ == lower_bytes(s@),
{
    let n = s.len();
    let mut r: Vec<u8> = Vec::new();
    let mut i: usize = 0;
    while i < n
        invariant
            i <= n,
            n == s@.len(),
            r@.len() == i,
            forall|k: int| 0 <= k < i ==> r@[k] == to_lower(s@[k]),
        decreases n - i,
    {
        r.push(lower_byte(s[i]));
        i = i + 1;
    }
    proof {
        assert(r@ =~= lower_bytes(s@));
    }
    r
}

/// ASCII whitespace: space, tab, line feed, carriage return.
pub open spec fn is_ws(b: u8) -> bool {
    b == 32 || b == 9 || b == 10 || b == 13
}

/// `s` without trailing ASCII whitespace.
pub open spec fn spec_trim_end(s: Seq<u8>) -> Seq<u8>
    decreases s.len(),
{
    if s.len() > 0 && is_ws(s.last()) {
        spec_trim_end(s.drop_last())
    } else {
        s
    }
}

/// `s` without leading ASCII whitespace.
pub open spec fn spec_trim_start(s: Seq<u8>) -> Seq<u8>
    decreases s.len(),
{
    if s.len() > 0 && is_ws(s[0]) {
        spec_trim_start(s.subrange(1, s.len() as int))
    } else {
        s
    }
}

/// `s` without leading or trailing ASCII whitespace.
pub open spec fn spec_trim(s: Seq<u8>) -> Seq<u8> {
    spec_trim_end(spec_trim_start(s))
}

/// `s.subrange(lo, hi)` with the bounds forced into range, so that it is
/// defined for every `lo` and `hi`.
pub open spec fn clip(s: Seq<u8>, lo: int, hi: int) -> Seq<u8> {
    let l = if lo < 0 {
        0
    } else if lo > s.len() {
        s.len() as int
    } else {
        lo
    };
    let h = if hi < l {
        l
    } else if hi > s.len() {
        s.len() as int
    } else {
        hi
    };
    s.subrange(l, h)
}

/// Whether byte `b` is ASCII whitespace.
pub fn is_ws_byte(b: u8) -> (r: bool)
    ensures
        r == is_ws(b),
{
    b == 32 || b == 9 || b == 10 || b == 13
}

/// Whether two byte strings are equal.
pub fn bytes_eq(a: &[u8], b: &[u8]) -> (r: bool)
    ensures
        r == (a@ == b@),
{
    if a.len() != b.len() {
        proof {
            assert(a@.len() != b@.len());
        }
        return false;
    }
    let n = a.len();
    let mut i: usize = 0;
    while i < n
        invariant
            i <= n,
            n == a@.len() == b@.len(),
            forall|k: int| 0 <= k < i ==> a@[k] == b@[k],
        decreases n - i,
    {
        if a[i] != b[i] {
            return false;
        }
        i = i + 1;
    }
    proof {
        assert(a@ =~= b@);
    }
    true
}

/// Appends `content[lo..hi]` to `dst`.
pub fn append_range(dst: &mut Vec<u8>, content: &[u8], lo: usize, hi: usize)
    requires
        lo <= hi <= content@.len(),
    ensures
        final(dst)@ == old(dst)@ + content@.subrange(lo as int, hi as int),
{
    let mut i: usize = lo;
    while i < hi
        invariant
            lo <= i <= hi <= content@.len(),
            dst@ == old(dst)@ + content@.subrange(lo as int, i as int),
        decreases hi - i,
    {
        dst.push(content[i]);
        proof {
            assert(dst@ =~= old(dst)@ + content@.subrange(lo as int, i + 1));
        }
        i = i + 1;
    }
}

/// `content[lo..hi]` as an owned byte string.
pub fn copy_range(content: &[u8], lo: usize, hi: usize) -> (r: Vec<u8>)
    requires
        lo <= hi <= content@.len(),
    ensures
        r@ == content@.subrange(lo as int, hi as int),
{
    let mut r: Vec<u8> = Vec::new();
    append_range(&mut r, content, lo, hi);
    r
}

/// Removes trailing ASCII whitespace from `v`.
pub fn trim_end_vec(v: &mut Vec<u8>)
    ensures
        final(v)@ == spec_trim_end(old(v)@),
{
    let mut n = v.len();
    proof {
        assert(v@.subrange(0, n as int) =~= v@);
    }
    while n > 0 && is_ws_byte(v[n - 1])
        invariant
            n <= v@.len(),
            v@ == old(v)@,
            spec_trim_end(old(v)@) == spec_trim_end(v@.subrange(0, n as int)),
        decreases n,
    {
        proof {
            assert(v@.subrange(0, n as int).last() == v@[n - 1]);
            assert(v@.subrange(0, n as int).drop_last() =~= v@.subrange(0, n - 1));
        }
        n = n - 1;
    }
    proof {
        if n > 0 {
            assert(v@.subrange(0, n as int).last() == v@[n - 1]);
        }
        assert(spec_trim_end(v@.subrange(0, n as int)) =~= v@.subrange(0, n as int));
    }
    v.truncate(n);
    proof {
        assert(v@ =~= old(v)@.subrange(0, n as int));
    }
}



/// Number of lines a text has, counted as `str::lines` counts them: a final
/// newline does not open another line.
pub open spec fn spec_line_count(s: Seq<u8>) -> int
    decreases s.len(),
{
    if s.len() == 0 {
        0
    } else if s.last() == 10u8 {
        1 + spec_newline_count(s.drop_last())
    } else {
        1 + spec_newline_count(s)
    }
}

/// Number of newline bytes in a text.
pub open spec fn spec_newline_count(s: Seq<u8>) -> int
    decreases s.len(),
{
    if s.len() == 0 {
        0
    } else {
        spec_newline_count(s.drop_last()) + if s.last() == 10u8 {
            1int
        } else {
            0int
        }
    }
}

/// Counts the lines of `content`, as `str::lines` would.
pub fn line_count(content: &[u8]) -> (r: usize)
    ensures
        r == spec_line_count(content@),
{
    let n = content.len();
    let mut newlines: usize = 0;
    let mut i: usize = 0;
    while i < n
        invariant
            i <= n,
            n == content@.len(),
            newlines == spec_newline_count(content@.subrange(0, i as int)),
            newlines <= i,
        decreases n - i,
    {
        if content[i] == 10u8 {
            newlines = newlines + 1;
        }
        proof {
            assert(content@.subrange(0, i + 1).drop_last() =~= content@.subrange(0, i as int));
        }
        i = i + 1;
    }
    proof {
        assert(content@.subrange(0, n as int) =~= content@);
    }
    if n == 0 {
        0
    } else if content[n - 1] == 10u8 {
        proof {
            assert(content@.drop_last() =~= content@.subrange(0, n - 1));
            newline_count_drop_last_bound(content@);
        }
        newlines
    } else {
        proof {
            newline_count_drop_last_bound(content@);
            newline_count_bound(content@.drop_last());
        }
        newlines + 1
    }
}

proof fn newline_count_bound(s: Seq<u8>)
    ensures
        0 <= spec_newline_count(s) <= s.len(),
    decreases s.len(),
{
    if s.len() > 0 {
        newline_count_bound(s.drop_last());
    }
}

proof fn newline_count_drop_last_bound(s: Seq<u8>)
    requires
        s.len() > 0,
    ensures
        spec_newline_count(s) == spec_newline_count(s.drop_last()) + if s.last() == 10u8 {
            1int
        } else {
            0int
        },
{
}

} // verus!
