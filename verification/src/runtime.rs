//! CPU topology parsing and a core ordering for thread placement.
//!
//! The caller hands over the text of the kernel's processor table; the
//! parser collects each processor's logical id, socket and physical core,
//! and the ordering spreads work across distinct physical cores before
//! doubling up on siblings.

use vstd::prelude::*;
use crate::hardware::is_sep;

verus! {

/// Thread-placement helpers.
pub struct RuntimeConfig;

/// One logical processor: its id, its socket, and its physical core
/// within the socket.
#[derive(Debug, Clone)]
pub struct CoreInfo {
    pub logical_id: usize,
    pub physical_id: usize,
    pub core_id: usize,
}

/// The machine's processors as parsed from the processor table.
pub struct Topology {
    pub cores: Vec<CoreInfo>,
}

/// The position of the first colon at or after `from`, or the length of
/// `s` when there is none.
pub open spec fn spec_find_colon(s: Seq<u8>, from: int) -> int
    decreases s.len() - from,
{
    if from < 0 || from >= s.len() {
        s.len() as int
    } else if s[from] == 58 {
        from
    } else {
        spec_find_colon(s, from + 1)
    }
}

/// Strip leading whitespace.
pub open spec fn spec_trim_front(s: Seq<u8>) -> Seq<u8>
    decreases s.len(),
{
    if s.len() > 0 && is_sep(s[0]) {
        spec_trim_front(s.drop_first())
    } else {
        s
    }
}

/// Strip trailing whitespace.
pub open spec fn spec_trim_back(s: Seq<u8>) -> Seq<u8>
    decreases s.len(),
{
    if s.len() > 0 && is_sep(s.last()) {
        spec_trim_back(s.drop_last())
    } else {
        s
    }
}

/// Strip whitespace from both ends.
pub open spec fn spec_trim(s: Seq<u8>) -> Seq<u8> {
    spec_trim_back(spec_trim_front(s))
}

/// The decimal value of ASCII digits, most significant first.
pub open spec fn spec_dec_val(s: Seq<u8>) -> int
    decreases s.len(),
{
    if s.len() == 0 {
        0
    } else {
        spec_dec_val(s.drop_last()) * 10 + (s.last() - 48)
    }
}

/// Every byte is an ASCII digit.
pub open spec fn spec_all_digits(s: Seq<u8>) -> bool {
    forall|i: int| 0 <= i < s.len() ==> 48 <= #[trigger] s[i] <= 57
}

proof fn lemma_trim_front_is_subrange(s: Seq<u8>, a: int)
    requires
        0 <= a <= s.len(),
        forall|j: int| 0 <= j < a ==> is_sep(#[trigger] s[j]),
        a == s.len() || !is_sep(s[a]),
    ensures
        spec_trim_front(s) == s.subrange(a, s.len() as int),
    decreases a,
{
    if a == 0 {
        assert(s.subrange(0, s.len() as int) =~= s);
    } else {
        assert(is_sep(s[0]));
        lemma_trim_front_is_subrange(s.drop_first(), a - 1);
        assert(s.drop_first().subrange(a - 1, s.drop_first().len() as int) =~= s.subrange(
            a,
            s.len() as int,
        ));
    }
}

proof fn lemma_trim_back_is_subrange(s: Seq<u8>, b: int)
    requires
        0 <= b <= s.len(),
        forall|j: int| b <= j < s.len() ==> is_sep(#[trigger] s[j]),
        b == 0 || !is_sep(s[b - 1]),
    ensures
        spec_trim_back(s) == s.subrange(0, b),
    decreases s.len() - b,
{
    if b == s.len() {
        assert(s.subrange(0, s.len() as int) =~= s);
    } else {
        assert(is_sep(s.last()));
        lemma_trim_back_is_subrange(s.drop_last(), b);
        assert(s.drop_last().subrange(0, b) =~= s.subrange(0, b));
    }
}

/// The text after the first colon of a line, up to the next colon or the
/// end of the line, stripped of surrounding whitespace. `None` when the
/// line has no colon.
pub fn parse_value(line: &[u8]) -> (r: Option<Vec<u8>>)
    ensures
        r.is_some() <==> spec_find_colon(line@, 0) < line@.len(),
        r matches Some(v) ==> v@ == spec_trim(
            line@.subrange(
                spec_find_colon(line@, 0) + 1,
                spec_find_colon(line@, spec_find_colon(line@, 0) + 1),
            ),
        ),
{
    let n = line.len();
    let mut ci: usize = 0;
    while ci < n && line[ci] != 58
        invariant
            ci <= n,
            n == line@.len(),
            spec_find_colon(line@, 0) == spec_find_colon(line@, ci as int),
        decreases n - ci,
    {
        ci = ci + 1;
    }
    if ci == n {
        return Option::None;
    }
    proof {
        assert(spec_find_colon(line@, 0) == ci as int);
    }
    let mut cj: usize = ci + 1;
    while cj < n && line[cj] != 58
        invariant
            ci < cj <= n,
            n == line@.len(),
            spec_find_colon(line@, ci as int + 1) == spec_find_colon(line@, cj as int),
        decreases n - cj,
    {
        cj = cj + 1;
    }
    proof {
        assert(spec_find_colon(line@, ci as int + 1) == cj as int);
    }
    let mut a: usize = ci + 1;
    while a < cj && (line[a] == 32 || line[a] == 9 || line[a] == 10 || line[a] == 13)
        invariant
            ci + 1 <= a <= cj,
            cj <= n,
            n == line@.len(),
            forall|j: int| ci + 1 <= j < a ==> is_sep(#[trigger] line@[j]),
        decreases cj - a,
    {
        a = a + 1;
    }
    let mut b: usize = cj;
    while b > a && (line[b - 1] == 32 || line[b - 1] == 9 || line[b - 1] == 10 || line[b - 1]
        == 13)
        invariant
            a <= b <= cj,
            cj <= n,
            n == line@.len(),
            forall|j: int| b <= j < cj ==> is_sep(#[trigger] line@[j]),
        decreases b,
    {
        b = b - 1;
    }
    let mut v: Vec<u8> = Vec::new();
    let mut p: usize = a;
    while p < b
        invariant
            a <= p <= b,
            b <= n,
            n == line@.len(),
            v@.len() == p - a,
            forall|x: int| 0 <= x < p - a ==> #[trigger] v@[x] == line@[a + x],
        decreases b - p,
    {
        v.push(line[p]);
        p = p + 1;
    }
    proof {
        let sub = line@.subrange(ci as int + 1, cj as int);
        lemma_trim_front_is_subrange(sub, a as int - (ci as int + 1));
        let fronted = sub.subrange(a as int - (ci as int + 1), sub.len() as int);
        assert(fronted =~= line@.subrange(a as int, cj as int));
        lemma_trim_back_is_subrange(fronted, b as int - a as int);
        assert(fronted.subrange(0, b as int - a as int) =~= line@.subrange(a as int, b as int));
        assert(v@ =~= line@.subrange(a as int, b as int));
    }
    Option::Some(v)
}

/// Parse an unsigned decimal number. `None` on an empty string, a
/// non-digit, or overflow.
pub fn parse_usize(s: &[u8]) -> (r: Option<usize>)
    ensures
        r matches Some(v) ==> s@.len() >= 1 && spec_all_digits(s@) && v == spec_dec_val(s@),
        r.is_none() ==> s@.len() == 0 || !spec_all_digits(s@) || spec_dec_val(s@) > usize::MAX,
{
    let n = s.len();
    if n == 0 {
        return Option::None;
    }
    let mut v: usize = 0;
    let mut i: usize = 0;
    while i < n
        invariant
            i <= n,
            n == s@.len(),
            spec_all_digits(s@.subrange(0, i as int)),
            v == spec_dec_val(s@.subrange(0, i as int)),
        decreases n - i,
    {
        let b = s[i];
        if b < 48 || b > 57 {
            proof {
                assert(s@.subrange(0, n as int) =~= s@);
                assert(!spec_all_digits(s@)) by {
                    assert(s@[i as int] == b);
                }
            }
            return Option::None;
        }
        let d = (b - 48) as usize;
        if v > (usize::MAX - d) / 10 {
            proof {
                if spec_all_digits(s@) {
                    lemma_dec_val_monotone(s@, i as int + 1);
                    assert(spec_dec_val(s@.subrange(0, i as int + 1)) == v * 10 + d);
                    assert(v * 10 + d > usize::MAX) by (nonlinear_arith)
                        requires
                            v > (usize::MAX - d) / 10,
                            0 <= d <= 9,
                            v >= 0,
                    ;
                    lemma_dec_val_prefix_le(s@, i as int + 1);
                }
            }
            return Option::None;
        }
        proof {
            assert(v * 10 + d <= usize::MAX) by (nonlinear_arith)
                requires
                    v <= (usize::MAX - d) / 10,
                    0 <= d <= 9,
                    v >= 0,
            ;
            assert(s@.subrange(0, i as int + 1).drop_last() =~= s@.subrange(0, i as int));
            assert(s@.subrange(0, i as int + 1).last() == s@[i as int]);
            assert(spec_all_digits(s@.subrange(0, i as int + 1))) by {
                assert(forall|x: int|
                    0 <= x < i + 1 ==> #[trigger] s@.subrange(0, i as int + 1)[x] == s@[x]);
            }
        }
        v = v * 10 + d;
        i = i + 1;
    }
    proof {
        assert(s@.subrange(0, n as int) =~= s@);
    }
    Option::Some(v)
}

/// Prefix test on byte slices.
fn slice_starts_with(s: &[u8], p: &[u8]) -> (r: bool)
    ensures
        r == (p@.len() <= s@.len() && s@.subrange(0, p@.len() as int) == p@),
{
    let m = p.len();
    if m > s.len() {
        return false;
    }
    let mut k: usize = 0;
    while k < m
        invariant
            k <= m,
            m == p@.len(),
            m <= s@.len(),
            forall|x: int| 0 <= x < k ==> s@[x] == p@[x],
        decreases m - k,
    {
        if s[k] != p[k] {
            proof {
                assert(s@.subrange(0, m as int)[k as int] == s@[k as int]);
            }
            return false;
        }
        k = k + 1;
    }
    proof {
        assert(s@.subrange(0, m as int) =~= p@);
    }
    true
}

impl Topology {
    /// Parse the processor table text into one entry per complete block:
    /// a run of lines holding a processor number, a socket id and a core
    /// id, ended by a blank line or the end of the text. `None` when no
    /// complete block was found.
    #[verifier::loop_isolation(false)]
    pub fn detect(content: &[u8]) -> (r: Option<Self>)
        ensures
            r matches Some(t) ==> t.cores@.len() >= 1,
    {
        let proc_key: [u8; 9] = [112, 114, 111, 99, 101, 115, 115, 111, 114];
        let phys_key: [u8; 11] = [112, 104, 121, 115, 105, 99, 97, 108, 32, 105, 100];
        let core_key: [u8; 7] = [99, 111, 114, 101, 32, 105, 100];
        let n = content.len();
        let mut cores: Vec<CoreInfo> = Vec::new();
        let mut cur_proc: Option<usize> = Option::None;
        let mut cur_sock: Option<usize> = Option::None;
        let mut cur_core: Option<usize> = Option::None;
        let mut pos: usize = 0;
        while pos < n
            invariant
                pos <= n,
                n == content@.len(),
            decreases n - pos,
        {
            let mut le: usize = pos;
            while le < n && content[le] != 10
                invariant
                    pos <= le <= n,
                decreases n - le,
            {
                le = le + 1;
            }
            let line = &content[pos..le];
            let mut ta: usize = 0;
            let line_len = le - pos;
            while ta < line_len && (line[ta] == 32 || line[ta] == 9 || line[ta] == 13)
                invariant
                    ta <= line_len,
                    line_len == line@.len(),
                decreases line_len - ta,
            {
                ta = ta + 1;
            }
            if ta == line_len {
                if cur_proc.is_some() && cur_sock.is_some() && cur_core.is_some() {
                    let p = match cur_proc {
                        Option::Some(x) => x,
                        Option::None => 0,
                    };
                    let s = match cur_sock {
                        Option::Some(x) => x,
                        Option::None => 0,
                    };
                    let c = match cur_core {
                        Option::Some(x) => x,
                        Option::None => 0,
                    };
                    cores.push(CoreInfo { logical_id: p, physical_id: s, core_id: c });
                }
                cur_proc = Option::None;
                cur_sock = Option::None;
                cur_core = Option::None;
            } else {
                let trimmed = &content[pos + ta..le];
                if slice_starts_with(trimmed, phys_key.as_slice()) {
                    if let Option::Some(v) = parse_value(trimmed) {
                        cur_sock = parse_usize(v.as_slice());
                    }
                } else if slice_starts_with(trimmed, core_key.as_slice()) {
                    if let Option::Some(v) = parse_value(trimmed) {
                        cur_core = parse_usize(v.as_slice());
                    }
                } else if slice_starts_with(trimmed, proc_key.as_slice()) {
                    if let Option::Some(v) = parse_value(trimmed) {
                        cur_proc = parse_usize(v.as_slice());
                    }
                }
            }
            pos = if le < n {
                le + 1
            } else {
                n
            };
        }
        if cur_proc.is_some() && cur_sock.is_some() && cur_core.is_some() {
            let p = match cur_proc {
                Option::Some(x) => x,
                Option::None => 0,
            };
            let s = match cur_sock {
                Option::Some(x) => x,
                Option::None => 0,
            };
            let c = match cur_core {
                Option::Some(x) => x,
                Option::None => 0,
            };
            cores.push(CoreInfo { logical_id: p, physical_id: s, core_id: c });
        }
        if cores.len() == 0 {
            Option::None
        } else {
            Option::Some(Topology { cores })
        }
    }

    /// Order the logical processors for thread placement: group siblings
    /// by socket and physical core, then take the first thread of every
    /// core, then the second, and so on. Every id in the order is some
    /// core's logical id, and every core's logical id appears.
    pub fn get_optimized_order(&self) -> (ordered: Vec<usize>)
        ensures
            spec_ids_from(*self, ordered@),
            forall|j: int|
                0 <= j < self.cores@.len() ==> ordered@.contains(
                    (#[trigger] self.cores@[j]).logical_id,
                ),
    {
        let members = self.group_by_core();
        let ordered = round_robin(&members, self);
        proof {
            assert forall|j: int| 0 <= j < self.cores@.len() implies ordered@.contains(
                (#[trigger] self.cores@[j]).logical_id,
            ) by {
                assert(spec_cores_covered(*self, members@, self.cores@.len() as int));
                let (g2, p) = choose|g2: int, p: int|
                    0 <= g2 < members@.len() && 0 <= p < members@[g2]@.len() && members@[g2]@[p]
                        == self.cores@[j].logical_id;
                assert(ordered@.contains(members@[g2]@[p]));
            }
        }
        ordered
    }

    /// Group the logical ids by (socket, physical core).
    #[verifier::loop_isolation(false)]
    #[verifier::rlimit(100)]
    fn group_by_core(&self) -> (members: Vec<Vec<usize>>)
        ensures
            forall|g: int| 0 <= g < members@.len() ==> (#[trigger] members@[g])@.len()
                <= self.cores@.len(),
            spec_member_ids_from(*self, members@, self.cores@.len() as int),
            spec_cores_covered(*self, members@, self.cores@.len() as int),
    {
        let n = self.cores.len();
        let mut keys: Vec<(usize, usize)> = Vec::new();
        let mut members: Vec<Vec<usize>> = Vec::new();
        let mut i: usize = 0;
        while i < n
            invariant
                i <= n,
                keys@.len() == members@.len(),
                spec_member_ids_from(*self, members@, i as int),
                spec_cores_covered(*self, members@, i as int),
                forall|g: int| 0 <= g < members@.len() ==> (#[trigger] members@[g])@.len() <= i,
            decreases n - i,
        {
            let sock = self.cores[i].physical_id;
            let core = self.cores[i].core_id;
            let lid = self.cores[i].logical_id;
            let mut g: usize = 0;
            let mut found = false;
            let glen = keys.len();
            while g < glen && !found
                invariant
                    g <= glen,
                    glen == keys@.len(),
                    found ==> g < glen,
                decreases glen - g + if found {
                    0int
                } else {
                    1int
                },
            {
                if keys[g].0 == sock && keys[g].1 == core {
                    found = true;
                } else {
                    g = g + 1;
                }
            }
            let ghost old_members = members@;
            if found {
                members[g].push(lid);
            } else {
                keys.push((sock, core));
                let mut fresh: Vec<usize> = Vec::new();
                fresh.push(lid);
                members.push(fresh);
            }
            proof {
                let gi = if found {
                    g as int
                } else {
                    members@.len() - 1
                };
                let pi = members@[gi]@.len() - 1;
                assert(members@[gi]@[pi] == self.cores@[i as int].logical_id);
                assert(spec_member_ids_from(*self, members@, i as int + 1)) by {
                    assert forall|g2: int, p: int|
                        #![trigger members@[g2]@[p]]
                        0 <= g2 < members@.len() && 0 <= p < members@[g2]@.len() implies exists|
                        j: int,
                    |
                        #![trigger self.cores@[j].logical_id]
                        0 <= j < i + 1 && members@[g2]@[p] == self.cores@[j].logical_id by {
                        if g2 == gi && p == pi {
                            assert(members@[g2]@[p] == self.cores@[i as int].logical_id);
                        } else {
                            assert(g2 < old_members.len() && p < old_members[g2]@.len());
                            assert(members@[g2]@[p] == old_members[g2]@[p]);
                            assert(spec_member_ids_from(*self, old_members, i as int));
                            let j = choose|j: int|
                                #![trigger self.cores@[j].logical_id]
                                0 <= j < i && old_members[g2]@[p] == self.cores@[j].logical_id;
                            assert(members@[g2]@[p] == self.cores@[j].logical_id);
                        }
                    }
                }
                assert(spec_cores_covered(*self, members@, i as int + 1)) by {
                    assert forall|j: int|
                        #![trigger self.cores@[j].logical_id]
                        0 <= j < i + 1 implies exists|g2: int, p: int|
                        #![trigger members@[g2]@[p]]
                        0 <= g2 < members@.len() && 0 <= p < members@[g2]@.len()
                            && members@[g2]@[p] == self.cores@[j].logical_id by {
                        if j == i {
                            assert(members@[gi]@[pi] == self.cores@[j].logical_id);
                        } else {
                            assert(spec_cores_covered(*self, old_members, i as int));
                            let (g2, p) = choose|g2: int, p: int|
                                #![trigger old_members[g2]@[p]]
                                0 <= g2 < old_members.len() && 0 <= p < old_members[g2]@.len()
                                    && old_members[g2]@[p] == self.cores@[j].logical_id;
                            assert(members@[g2]@[p] == self.cores@[j].logical_id);
                        }
                    }
                }
            }
            i = i + 1;
        }
        members
    }
}

/// Every id in every group is some core's logical id among the first
/// `upto` cores.
pub open spec fn spec_member_ids_from(t: Topology, ms: Seq<Vec<usize>>, upto: int) -> bool {
    forall|g: int, p: int|
        #![trigger ms[g]@[p]]
        0 <= g < ms.len() && 0 <= p < ms[g]@.len() ==> exists|j: int|
            #![trigger t.cores@[j].logical_id]
            0 <= j < upto && ms[g]@[p] == t.cores@[j].logical_id
}

/// Every one of the first `upto` cores has its logical id in some group.
pub open spec fn spec_cores_covered(t: Topology, ms: Seq<Vec<usize>>, upto: int) -> bool {
    forall|j: int|
        #![trigger t.cores@[j].logical_id]
        0 <= j < upto ==> exists|g: int, p: int|
            #![trigger ms[g]@[p]]
            0 <= g < ms.len() && 0 <= p < ms[g]@.len() && ms[g]@[p] == t.cores@[j].logical_id
}

/// Every id in the list is some core's logical id.
pub open spec fn spec_ids_from(t: Topology, xs: Seq<usize>) -> bool {
    forall|p: int|
        #![trigger xs[p]]
        0 <= p < xs.len() ==> exists|j: int|
            #![trigger t.cores@[j].logical_id]
            0 <= j < t.cores@.len() && xs[p] == t.cores@[j].logical_id
}

/// Round-robin over the groups: level by level, pick each group's member
/// at that level until the longest group runs out.
#[verifier::loop_isolation(false)]
#[verifier::rlimit(100)]
fn round_robin(members: &Vec<Vec<usize>>, t: &Topology) -> (ordered: Vec<usize>)
    requires
        forall|g: int| 0 <= g < members@.len() ==> (#[trigger] members@[g])@.len()
            <= t.cores@.len(),
        spec_member_ids_from(*t, members@, t.cores@.len() as int),
    ensures
        spec_ids_from(*t, ordered@),
        forall|g: int, p: int|
            0 <= g < members@.len() && 0 <= p < members@[g]@.len() ==> ordered@.contains(
                #[trigger] members@[g]@[p],
            ),
{
    let gcount = members.len();
    let mut maxlen: usize = 0;
    let mut g0: usize = 0;
    while g0 < gcount
        invariant
            g0 <= gcount,
            gcount == members@.len(),
            forall|g: int| 0 <= g < g0 ==> (#[trigger] members@[g])@.len() <= maxlen,
            maxlen <= t.cores@.len(),
        decreases gcount - g0,
    {
        if members[g0].len() > maxlen {
            maxlen = members[g0].len();
        }
        g0 = g0 + 1;
    }
    let mut ordered: Vec<usize> = Vec::new();
    let mut level: usize = 0;
    while level < maxlen
        invariant
            level <= maxlen,
            gcount == members@.len(),
            forall|g: int| 0 <= g < gcount ==> (#[trigger] members@[g])@.len() <= maxlen,
            spec_ids_from(*t, ordered@),
            forall|g: int, p: int|
                0 <= g < members@.len() && 0 <= p < members@[g]@.len() && p < level
                    ==> ordered@.contains(#[trigger] members@[g]@[p]),
        decreases maxlen - level,
    {
        let mut g: usize = 0;
        while g < gcount
            invariant
                g <= gcount,
                level < maxlen,
                gcount == members@.len(),
                spec_ids_from(*t, ordered@),
                forall|g2: int, p: int|
                    0 <= g2 < members@.len() && 0 <= p < members@[g2]@.len() && (p < level || (p
                        == level && g2 < g)) ==> ordered@.contains(#[trigger] members@[g2]@[p]),
            decreases gcount - g,
        {
            let ghost old_ordered = ordered@;
            if level < members[g].len() {
                ordered.push(members[g][level]);
                proof {
                    assert(spec_ids_from(*t, ordered@)) by {
                        assert forall|p: int|
                            #![trigger ordered@[p]]
                            0 <= p < ordered@.len() implies exists|j: int|
                            #![trigger t.cores@[j].logical_id]
                            0 <= j < t.cores@.len() && ordered@[p] == t.cores@[j].logical_id by {
                            if p < old_ordered.len() {
                                assert(ordered@[p] == old_ordered[p]);
                                assert(spec_ids_from(*t, old_ordered));
                                let j = choose|j: int|
                                    #![trigger t.cores@[j].logical_id]
                                    0 <= j < t.cores@.len() && old_ordered[p]
                                        == t.cores@[j].logical_id;
                                assert(ordered@[p] == t.cores@[j].logical_id);
                            } else {
                                assert(ordered@[p] == members@[g as int]@[level as int]);
                                let j = choose|j: int|
                                    #![trigger t.cores@[j].logical_id]
                                    0 <= j < t.cores@.len() && members@[g as int]@[level as int]
                                        == t.cores@[j].logical_id;
                                assert(ordered@[p] == t.cores@[j].logical_id);
                            }
                        }
                    }
                    assert forall|g2: int, p: int|
                        0 <= g2 < members@.len() && 0 <= p < members@[g2]@.len() && (p < level || (
                        p == level && g2 < g + 1)) implies ordered@.contains(
                        #[trigger] members@[g2]@[p],
                    ) by {
                        if p == level && g2 == g as int {
                            assert(ordered@[ordered@.len() - 1] == members@[g2]@[p]);
                        } else {
                            assert(old_ordered.contains(members@[g2]@[p]));
                            let q = choose|q: int|
                                0 <= q < old_ordered.len() && old_ordered[q] == members@[g2]@[p];
                            assert(ordered@[q] == members@[g2]@[p]);
                        }
                    }
                }
            }
            g = g + 1;
        }
        level = level + 1;
    }
    ordered
}

impl RuntimeConfig {
    /// Logical processor ids ordered for placement, parsed straight from
    /// the processor table text; `None` when no complete processor block
    /// was found there.
    pub fn get_optimized_core_list(content: &[u8]) -> (r: Option<Vec<usize>>)
        ensures
            r matches Some(ids) ==> ids@.len() >= 1,
    {
        match Topology::detect(content) {
            Option::Some(t) => {
                let ids = t.get_optimized_order();
                proof {
                    assert(ids@.contains(t.cores@[0].logical_id));
                }
                Option::Some(ids)
            },
            Option::None => Option::None,
        }
    }
}

/// A longer digit string never shrinks the value.
proof fn lemma_dec_val_monotone(s: Seq<u8>, i: int)
    requires
        0 < i <= s.len(),
    ensures
        spec_dec_val(s.subrange(0, i)) == spec_dec_val(s.subrange(0, i - 1)) * 10 + (s[i - 1]
            - 48),
{
    assert(s.subrange(0, i).drop_last() =~= s.subrange(0, i - 1));
    assert(s.subrange(0, i).last() == s[i - 1]);
}

/// The value of a digit string is nonnegative.
proof fn lemma_dec_val_nonneg(s: Seq<u8>)
    requires
        spec_all_digits(s),
    ensures
        spec_dec_val(s) >= 0,
    decreases s.len(),
{
    if s.len() > 0 {
        assert(spec_all_digits(s.drop_last()));
        lemma_dec_val_nonneg(s.drop_last());
        assert(spec_dec_val(s.drop_last()) * 10 >= 0) by (nonlinear_arith)
            requires
                spec_dec_val(s.drop_last()) >= 0,
        ;
    }
}

/// The value of a digit prefix never exceeds the whole string's value.
proof fn lemma_dec_val_prefix_le(s: Seq<u8>, i: int)
    requires
        spec_all_digits(s),
        0 <= i <= s.len(),
    ensures
        spec_dec_val(s.subrange(0, i)) <= spec_dec_val(s),
    decreases s.len() - i,
{
    if i == s.len() {
        assert(s.subrange(0, i) =~= s);
    } else {
        lemma_dec_val_monotone(s, i + 1);
        assert(spec_all_digits(s.subrange(0, i)));
        lemma_dec_val_nonneg(s.subrange(0, i));
        assert(spec_dec_val(s.subrange(0, i)) * 10 + (s[i] - 48) >= spec_dec_val(
            s.subrange(0, i),
        )) by (nonlinear_arith)
            requires
                spec_dec_val(s.subrange(0, i)) >= 0,
                48 <= s[i] <= 57,
        ;
        lemma_dec_val_prefix_le(s, i + 1);
    }
}

} // verus!
