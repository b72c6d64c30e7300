//! CPU feature discovery from the kernel's processor table.
//!
//! The caller hands over the text of the processor table (on Linux,
//! `/proc/cpuinfo`); the flags are read from it by exact whitespace-
//! delimited token search.

use vstd::prelude::*;

verus! {

/// Which vector instruction sets the machine advertises.
#[derive(Debug, Clone, Copy)]
pub struct CpuFeatures {
    pub avx2: bool,
    pub avx512f: bool,
    pub fma: bool,
    pub neon: bool,
}

/// Whitespace for token boundaries: space, tab, line feed, carriage
/// return.
pub open spec fn is_sep(b: u8) -> bool {
    b == 32 || b == 9 || b == 10 || b == 13
}

/// Token `t` occurs in `s` at position `i`, bounded by whitespace or the
/// ends of `s`.
pub open spec fn token_at(s: Seq<u8>, t: Seq<u8>, i: int) -> bool {
    &&& 0 <= i
    &&& i + t.len() <= s.len()
    &&& s.subrange(i, i + t.len()) == t
    &&& (i == 0 || is_sep(s[i - 1]))
    &&& (i + t.len() == s.len() || is_sep(s[i + t.len()]))
}

/// Token `t` occurs somewhere in `s`.
pub open spec fn contains_token(s: Seq<u8>, t: Seq<u8>) -> bool {
    exists|i: int| token_at(s, t, i)
}

/// Exact whitespace-delimited token search.
fn has_token(s: &[u8], t: &[u8]) -> (r: bool)
    requires
        t@.len() >= 1,
    ensures
        r == contains_token(s@, t@),
{
    let n = s.len();
    let m = t.len();
    if m > n {
        proof {
            assert(forall|i: int| !token_at(s@, t@, i));
        }
        return false;
    }
    let mut i: usize = 0;
    while i <= n - m
        invariant
            m >= 1,
            m <= n,
            n == s@.len(),
            m == t@.len(),
            i <= n - m + 1,
            forall|x: int| 0 <= x < i ==> !token_at(s@, t@, x),
        decreases n - m + 1 - i,
    {
        let mut k: usize = 0;
        let mut matched = true;
        while k < m
            invariant
                m <= n,
                i <= n - m,
                n == s@.len(),
                m == t@.len(),
                k <= m,
                matched == (forall|x: int| 0 <= x < k ==> s@[i + x] == t@[x]),
            decreases m - k,
        {
            if s[i + k] != t[k] {
                matched = false;
                proof {
                    assert(!(forall|x: int| 0 <= x < k + 1 ==> s@[i + x] == t@[x])) by {
                        assert(s@[i + k as int] != t@[k as int]);
                    }
                }
                k = m;
            } else {
                proof {
                    if forall|x: int| 0 <= x < k ==> s@[i + x] == t@[x] {
                        assert(forall|x: int| 0 <= x < k + 1 ==> s@[i + x] == t@[x]);
                    }
                }
                k = k + 1;
            }
        }
        if matched {
            let left_ok = i == 0 || s[i - 1] == 32 || s[i - 1] == 9 || s[i - 1] == 10 || s[i - 1]
                == 13;
            let right_ok = i + m == n || s[i + m] == 32 || s[i + m] == 9 || s[i + m] == 10 || s[i
                + m] == 13;
            if left_ok && right_ok {
                proof {
                    assert(s@.subrange(i as int, i + m) =~= t@);
                    assert(token_at(s@, t@, i as int));
                }
                return true;
            }
        }
        proof {
            if token_at(s@, t@, i as int) {
                assert(s@.subrange(i as int, i + m) == t@);
                assert(forall|x: int|
                    0 <= x < m ==> s@[i + x] == #[trigger] s@.subrange(i as int, i + m)[x]);
                assert(matched);
            }
        }
        i = i + 1;
    }
    proof {
        assert forall|x: int| !token_at(s@, t@, x) by {
            if token_at(s@, t@, x) {
                assert(0 <= x <= n - m);
            }
        }
    }
    false
}

/// The ASCII bytes of the token naming 256-bit vector support.
pub open spec fn spec_avx2_token() -> Seq<u8> {
    seq![97u8, 118u8, 120u8, 50u8]
}

/// The ASCII bytes of the token naming 512-bit vector support.
pub open spec fn spec_avx512f_token() -> Seq<u8> {
    seq![97u8, 118u8, 120u8, 53u8, 49u8, 50u8, 102u8]
}

/// The ASCII bytes of the token naming fused multiply-add support.
pub open spec fn spec_fma_token() -> Seq<u8> {
    seq![102u8, 109u8, 97u8]
}

/// The ASCII bytes of the token naming the 64-bit ARM vector unit.
pub open spec fn spec_asimd_token() -> Seq<u8> {
    seq![97u8, 115u8, 105u8, 109u8, 100u8]
}

/// The ASCII bytes of the token naming the 32-bit ARM vector unit.
pub open spec fn spec_neon_token() -> Seq<u8> {
    seq![110u8, 101u8, 111u8, 110u8]
}

impl CpuFeatures {
    /// Read the vector feature flags out of the processor table text:
    /// each field is set exactly when its token occurs whitespace-
    /// delimited in the text.
    pub fn detect(cpuinfo: &[u8]) -> (r: Self)
        ensures
            r.avx2 == contains_token(cpuinfo@, spec_avx2_token()),
            r.avx512f == contains_token(cpuinfo@, spec_avx512f_token()),
            r.fma == contains_token(cpuinfo@, spec_fma_token()),
            r.neon == (contains_token(cpuinfo@, spec_asimd_token()) || contains_token(
                cpuinfo@,
                spec_neon_token(),
            )),
    {
        let avx2_t: [u8; 4] = [97, 118, 120, 50];
        let avx512f_t: [u8; 7] = [97, 118, 120, 53, 49, 50, 102];
        let fma_t: [u8; 3] = [102, 109, 97];
        let asimd_t: [u8; 5] = [97, 115, 105, 109, 100];
        let neon_t: [u8; 4] = [110, 101, 111, 110];
        proof {
            assert(avx2_t@ =~= spec_avx2_token());
            assert(avx512f_t@ =~= spec_avx512f_token());
            assert(fma_t@ =~= spec_fma_token());
            assert(asimd_t@ =~= spec_asimd_token());
            assert(neon_t@ =~= spec_neon_token());
        }
        let avx2 = has_token(cpuinfo, avx2_t.as_slice());
        let avx512f = has_token(cpuinfo, avx512f_t.as_slice());
        let fma = has_token(cpuinfo, fma_t.as_slice());
        let neon = has_token(cpuinfo, asimd_t.as_slice()) || has_token(
            cpuinfo,
            neon_t.as_slice(),
        );
        CpuFeatures { avx2, avx512f, fma, neon }
    }
}

} // verus!
