//! Comparing two structure IDs level by level.

use vstd::prelude::*;

use crate::text::parse_unsigned_in;

verus! {

/// The parts of `s` between the separators `sep`, scanning from `i` with
/// the current part begun at `start`; `split_from(s, sep, 0, 0)` is what
/// `str::split` gives.
pub open spec fn split_from(s: Seq<u8>, sep: u8, start: int, i: int) -> Seq<Seq<u8>>
    decreases s.len() - i,
{
    if 0 <= i < s.len() {
        if s[i] == sep {
            seq![s.subrange(start, i)] + split_from(s, sep, i + 1, i + 1)
        } else {
            split_from(s, sep, start, i + 1)
        }
    } else {
        seq![s.subrange(start, s.len() as int)]
    }
}

pub open spec fn split(s: Seq<u8>, sep: u8) -> Seq<Seq<u8>> {
    split_from(s, sep, 0, 0)
}

/// Where `c` first occurs in `s`.
pub open spec fn first_index(s: Seq<u8>, c: u8) -> Option<int>
    decreases s.len(),
{
    if s.len() == 0 {
        None
    } else if s[0] == c {
        Some(0)
    } else {
        match first_index(s.drop_first(), c) {
            Some(k) => Some(k + 1),
            None => None,
        }
    }
}

/// The level and hash of one part `L<level>:<hash>` of an ID (the `L` may be
/// missing); `None` where the part does not read as one.
pub open spec fn part_level(p: Seq<u8>) -> Option<(usize, u64)> {
    let q = if p.len() > 0 && p[0] == 76u8 {
        p.drop_first()
    } else {
        p
    };
    match first_index(q, 58u8) {
        None => None,
        Some(k) => match (
            crate::text::parse_unsigned(q.take(k), usize::MAX as nat),
            crate::text::parse_unsigned(q.skip(k + 1), u64::MAX as nat),
        ) {
            (Some(l), Some(h)) => Some((l as usize, h as u64)),
            _ => None,
        },
    }
}

/// The levels read from the parts, the later of two parts of one level
/// winning, over what `m` holds already.
pub open spec fn parts_map(ps: Seq<Seq<u8>>, m: Map<usize, u64>) -> Map<usize, u64>
    decreases ps.len(),
{
    if ps.len() == 0 {
        m
    } else {
        parts_map(
            ps.drop_first(),
            match part_level(ps[0]) {
                Some(e) => m.insert(e.0, e.1),
                None => m,
            },
        )
    }
}

/// The levels of an ID, from its UTF-8 bytes.
pub open spec fn id_levels(id: Seq<u8>) -> Map<usize, u64> {
    parts_map(split(id, 45u8), Map::empty())
}

pub open spec fn sorted_levels(s: Seq<(usize, u64)>) -> bool {
    forall|i: int, j: int| 0 <= i < j < s.len() ==> s[i].0 < s[j].0
}

/// The map that a list of (level, hash) pairs with distinct levels stands for.
pub open spec fn list_map(s: Seq<(usize, u64)>) -> Map<usize, u64> {
    Map::new(
        |l: usize| exists|i: int| 0 <= i < s.len() && s[i].0 == l,
        |l: usize| s[choose|i: int| 0 <= i < s.len() && s[i].0 == l].1,
    )
}

pub proof fn lemma_list_map_at(s: Seq<(usize, u64)>, i: int)
    requires
        sorted_levels(s),
        0 <= i < s.len(),
    ensures
        list_map(s).contains_key(s[i].0),
        list_map(s)[s[i].0] == s[i].1,
{
    let l = s[i].0;
    assert(exists|j: int| 0 <= j < s.len() && s[j].0 == l);
    let j = choose|j: int| 0 <= j < s.len() && s[j].0 == l;
    if j != i {
        assert(s[j].0 != s[i].0);
    }
}

/// Sets `h` for level `l` in a sorted list.
fn put_level(list: &mut Vec<(usize, u64)>, l: usize, h: u64)
    requires
        sorted_levels(old(list)@),
    ensures
        sorted_levels(final(list)@),
        list_map(final(list)@) == list_map(old(list)@).insert(l, h),
{
    let ghost s = list@;
    let n = list.len();
    let mut i: usize = 0;
    while i < n && list[i].0 < l
        invariant
            n == list@.len(),
            list@ == s,
            i <= n,
            forall|j: int| 0 <= j < i ==> s[j].0 < l,
        decreases n - i,
    {
        i = i + 1;
    }
    if i < n && list[i].0 == l {
        list.set(i, (l, h));
        proof {
            let t = list@;
            assert(sorted_levels(t));
            assert(list_map(t) =~= list_map(s).insert(l, h)) by {
                assert forall|x: usize| #[trigger] list_map(t).contains_key(x) == list_map(s).insert(l, h).contains_key(x) by {
                    if list_map(t).contains_key(x) {
                        let j = choose|j: int| 0 <= j < t.len() && t[j].0 == x;
                        assert(s[j].0 == x);
                    }
                    if list_map(s).contains_key(x) {
                        let j = choose|j: int| 0 <= j < s.len() && s[j].0 == x;
                        assert(t[j].0 == x);
                    }
                    assert(t[i as int].0 == l);
                }
                assert forall|x: usize| #[trigger] list_map(t).contains_key(x) implies list_map(t)[x] == list_map(s).insert(l, h)[x] by {
                    let j = choose|j: int| 0 <= j < t.len() && t[j].0 == x;
                    lemma_list_map_at(t, j);
                    if j != i {
                        lemma_list_map_at(s, j);
                    }
                }
            }
        }
    } else {
        list.insert(i, (l, h));
        proof {
            let t = list@;
            assert(forall|j: int| i <= j < n ==> s[j].0 > l) by {
                assert forall|j: int| i <= j < n implies s[j].0 > l by {
                    if j > i {
                        assert(s[i as int].0 < s[j].0);
                    }
                }
            }
            assert(sorted_levels(t));
            assert(list_map(t) =~= list_map(s).insert(l, h)) by {
                assert forall|x: usize| #[trigger] list_map(t).contains_key(x) == list_map(s).insert(l, h).contains_key(x) by {
                    if list_map(t).contains_key(x) {
                        let j = choose|j: int| 0 <= j < t.len() && t[j].0 == x;
                        if j < i {
                            assert(s[j].0 == x);
                        } else if j > i {
                            assert(s[j - 1].0 == x);
                        }
                    }
                    if list_map(s).contains_key(x) {
                        let j = choose|j: int| 0 <= j < s.len() && s[j].0 == x;
                        if j < i {
                            assert(t[j].0 == x);
                        } else {
                            assert(t[j + 1].0 == x);
                        }
                    }
                    assert(t[i as int].0 == l);
                }
                assert forall|x: usize| #[trigger] list_map(t).contains_key(x) implies list_map(t)[x] == list_map(s).insert(l, h)[x] by {
                    let j = choose|j: int| 0 <= j < t.len() && t[j].0 == x;
                    lemma_list_map_at(t, j);
                    if j < i {
                        lemma_list_map_at(s, j);
                    } else if j > i {
                        lemma_list_map_at(s, j - 1);
                    }
                }
            }
        }
    }
}

/// Reads the part at `start..end` of an ID's bytes.
fn parse_part(b: &[u8], start: usize, end: usize) -> (r: Option<(usize, u64)>)
    requires
        start <= end <= b@.len(),
    ensures
        r == part_level(b@.subrange(start as int, end as int)),
{
    let ghost p = b@.subrange(start as int, end as int);
    let mut qs = start;
    if start < end && b[start] == 76u8 {
        qs = start + 1;
    }
    let ghost q = b@.subrange(qs as int, end as int);
    assert(q =~= (if p.len() > 0 && p[0] == 76u8 {
        p.drop_first()
    } else {
        p
    }));
    let mut k = qs;
    assert(q.skip(0) =~= q);
    while k < end && b[k] != 58u8
        invariant
            qs <= k <= end <= b@.len(),
            q == b@.subrange(qs as int, end as int),
            first_index(q, 58u8) == (match first_index(q.skip(k - qs), 58u8) {
                Some(x) => Some(x + (k - qs)),
                None => None,
            }),
        decreases end - k,
    {
        assert(q.skip(k - qs).drop_first() =~= q.skip(k - qs + 1));
        k = k + 1;
    }
    if k == end {
        assert(q.skip(k - qs).len() == 0);
        return None;
    }
    assert(q.skip(k - qs)[0] == 58u8);
    let rel = k - qs;
    assert(q.take(rel as int) =~= b@.subrange(qs as int, k as int));
    assert(q.skip(rel + 1) =~= b@.subrange(k + 1, end as int));
    let level = parse_unsigned_in(b, qs, k, usize::MAX as u64);
    let hash = parse_unsigned_in(b, k + 1, end, u64::MAX);
    match (level, hash) {
        (Some(l), Some(h)) => Some((l as usize, h)),
        _ => None,
    }
}

/// Reads the levels of an ID, and counts its `-`-separated parts.
fn parse_id(b: &[u8]) -> (r: (Vec<(usize, u64)>, usize))
    requires
        b@.len() < usize::MAX,
    ensures
        sorted_levels(r.0@),
        list_map(r.0@) == id_levels(b@),
        r.1 == split(b@, 45u8).len(),
{
    let n = b.len();
    let mut list: Vec<(usize, u64)> = Vec::new();
    let mut count: usize = 0;
    let mut start: usize = 0;
    let mut i: usize = 0;
    let ghost s = b@;
    assert(list_map(list@) =~= Map::<usize, u64>::empty());
    while i < n
        invariant
            n == s.len(),
            s == b@,
            start <= i <= n,
            count <= i,
            sorted_levels(list@),
            id_levels(s) == parts_map(split_from(s, 45u8, start as int, i as int), list_map(list@)),
            split(s, 45u8).len() == count + split_from(s, 45u8, start as int, i as int).len(),
        decreases n - i,
    {
        if b[i] == 45u8 {
            let ghost rest = split_from(s, 45u8, (i + 1) as int, (i + 1) as int);
            let ghost part = s.subrange(start as int, i as int);
            assert((seq![part] + rest).drop_first() =~= rest);
            assert((seq![part] + rest)[0] == part);
            match parse_part(b, start, i) {
                Some((l, h)) => {
                    put_level(&mut list, l, h);
                },
                None => {},
            }
            count = count + 1;
            start = i + 1;
        }
        i = i + 1;
    }
    let ghost last = s.subrange(start as int, n as int);
    let ghost m0 = list_map(list@);
    assert(split_from(s, 45u8, start as int, i as int) == seq![last]);
    assert(seq![last].drop_first() =~= Seq::<Seq<u8>>::empty());
    assert(seq![last][0] == last);
    let ghost step = match part_level(last) {
        Some(e) => m0.insert(e.0, e.1),
        None => m0,
    };
    assert(parts_map(Seq::<Seq<u8>>::empty(), step) == step);
    assert(parts_map(seq![last], m0) == step);
    match parse_part(b, start, n) {
        Some((l, h)) => {
            put_level(&mut list, l, h);
        },
        None => {},
    }
    (list, count + 1)
}

/// How one level of two IDs compares.
#[derive(Debug, Clone, Copy, PartialEq, Eq)]
pub enum LevelScore {
    /// Both IDs have the level, with the same hash.
    Exact,
    /// Both IDs have the level, with different hashes `a` and `b`; their
    /// proximity is `min(a, b) / max(a, b)`.
    Partial { a: u64, b: u64 },
    /// Only one of the IDs has the level.
    Missing,
}

/// Result of comparing two structure IDs.
#[derive(Debug, Clone)]
pub struct Similarity {
    /// The two IDs are the same string; every part then counts as a match.
    pub identical: bool,
    /// Number of levels that matched exactly.
    pub matched_levels: usize,
    /// Number of levels across both IDs.
    pub total_levels: usize,
    /// The levels compared, in increasing order (none when `identical`).
    pub levels: Vec<usize>,
    /// The outcome at each level, in the order of `levels`; all exact when
    /// `identical`.
    pub level_scores: Vec<LevelScore>,
}

pub open spec fn lookup(m: Map<usize, u64>, l: usize) -> Option<u64> {
    if m.contains_key(l) {
        Some(m[l])
    } else {
        None
    }
}

pub open spec fn level_score(a: Option<u64>, b: Option<u64>) -> LevelScore {
    match (a, b) {
        (Some(x), Some(y)) => if x == y {
            LevelScore::Exact
        } else {
            LevelScore::Partial { a: x, b: y }
        },
        _ => LevelScore::Missing,
    }
}

/// The number of exact matches.
pub open spec fn exact_count(s: Seq<LevelScore>) -> nat
    decreases s.len(),
{
    if s.len() == 0 {
        0
    } else {
        exact_count(s.drop_last()) + if s.last() is Exact {
            1nat
        } else {
            0nat
        }
    }
}

pub open spec fn strictly_increasing(s: Seq<usize>) -> bool {
    forall|i: int, j: int| 0 <= i < j < s.len() ==> s[i] < s[j]
}

/// The levels of both maps, each once, in increasing order, and the outcome
/// at each of them.
pub open spec fn is_level_comparison(
    levels: Seq<usize>,
    scores: Seq<LevelScore>,
    ma: Map<usize, u64>,
    mb: Map<usize, u64>,
) -> bool {
    &&& strictly_increasing(levels)
    &&& forall|l: usize|
        (exists|t: int| 0 <= t < levels.len() && levels[t] == l) <==> (ma.contains_key(l)
            || mb.contains_key(l))
    &&& scores.len() == levels.len()
    &&& forall|t: int|
        0 <= t < levels.len() ==> #[trigger] scores[t] == level_score(
            lookup(ma, levels[t]),
            lookup(mb, levels[t]),
        )
}

/// What comparing the IDs with UTF-8 bytes `a` and `b` gives.
pub open spec fn is_comparison(r: Similarity, a: Seq<u8>, b: Seq<u8>) -> bool {
    &&& r.identical == (a == b)
    &&& r.identical ==> {
        &&& r.total_levels == split(a, 45u8).len()
        &&& r.matched_levels == r.total_levels
        &&& r.levels@.len() == 0
        &&& r.level_scores@.len() == r.total_levels
        &&& forall|t: int| 0 <= t < r.level_scores@.len() ==> #[trigger] r.level_scores@[t] is Exact
    }
    &&& !r.identical ==> {
        &&& is_level_comparison(r.levels@, r.level_scores@, id_levels(a), id_levels(b))
        &&& r.total_levels == r.levels@.len()
        &&& r.matched_levels == exact_count(r.level_scores@)
    }
}

/// Walks two sorted level lists together.
fn merge_levels(a: &Vec<(usize, u64)>, b: &Vec<(usize, u64)>) -> (r: (Vec<usize>, Vec<LevelScore>, usize))
    requires
        sorted_levels(a@),
        sorted_levels(b@),
    ensures
        is_level_comparison(r.0@, r.1@, list_map(a@), list_map(b@)),
        r.2 == exact_count(r.1@),
{
    let ghost ma = list_map(a@);
    let ghost mb = list_map(b@);
    let na = a.len();
    let nb = b.len();
    let mut i: usize = 0;
    let mut j: usize = 0;
    let mut levels: Vec<usize> = Vec::new();
    let mut scores: Vec<LevelScore> = Vec::new();
    let mut matched: usize = 0;
    while i < na || j < nb
        invariant
            na == a@.len(),
            nb == b@.len(),
            sorted_levels(a@),
            sorted_levels(b@),
            ma == list_map(a@),
            mb == list_map(b@),
            i <= na,
            j <= nb,
            strictly_increasing(levels@),
            levels@.len() == scores@.len(),
            matched == exact_count(scores@),
            matched <= levels@.len(),
            forall|t: int|
                0 <= t < levels@.len() ==> (exists|k: int| 0 <= k < i && a@[k].0 == #[trigger] levels@[t])
                    || (exists|k: int| 0 <= k < j && b@[k].0 == levels@[t]),
            forall|k: int| 0 <= k < i ==> exists|t: int| 0 <= t < levels@.len() && levels@[t] == #[trigger] a@[k].0,
            forall|k: int| 0 <= k < j ==> exists|t: int| 0 <= t < levels@.len() && levels@[t] == #[trigger] b@[k].0,
            forall|t: int|
                0 <= t < levels@.len() ==> (i < na ==> #[trigger] levels@[t] < a@[i as int].0) && (j < nb
                    ==> levels@[t] < b@[j as int].0),
            forall|t: int|
                0 <= t < levels@.len() ==> #[trigger] scores@[t] == level_score(
                    lookup(ma, levels@[t]),
                    lookup(mb, levels@[t]),
                ),
        decreases na - i + nb - j,
    {
        let ghost old_levels = levels@;
        let ghost old_scores = scores@;
        let level;
        let score;
        let mut exact = false;
        if j >= nb || (i < na && a[i].0 < b[j].0) {
            level = a[i].0;
            score = LevelScore::Missing;
            proof {
                lemma_list_map_at(a@, i as int);
                assert(!mb.contains_key(level)) by {
                    if mb.contains_key(level) {
                        let k = choose|k: int| 0 <= k < b@.len() && b@[k].0 == level;
                        if k >= j {
                            if k > j {
                                assert(b@[j as int].0 < b@[k].0);
                            }
                        } else {
                            let t = choose|t: int| 0 <= t < old_levels.len() && old_levels[t] == b@[k].0;
                            assert(old_levels[t] < a@[i as int].0);
                        }
                    }
                }
            }
            i = i + 1;
        } else if i >= na || b[j].0 < a[i].0 {
            level = b[j].0;
            score = LevelScore::Missing;
            proof {
                lemma_list_map_at(b@, j as int);
                assert(!ma.contains_key(level)) by {
                    if ma.contains_key(level) {
                        let k = choose|k: int| 0 <= k < a@.len() && a@[k].0 == level;
                        if k >= i {
                            if k > i {
                                assert(a@[i as int].0 < a@[k].0);
                            }
                        } else {
                            let t = choose|t: int| 0 <= t < old_levels.len() && old_levels[t] == a@[k].0;
                            assert(old_levels[t] < b@[j as int].0);
                        }
                    }
                }
            }
            j = j + 1;
        } else {
            level = a[i].0;
            proof {
                lemma_list_map_at(a@, i as int);
                lemma_list_map_at(b@, j as int);
            }
            if a[i].1 == b[j].1 {
                score = LevelScore::Exact;
                exact = true;
            } else {
                score = LevelScore::Partial { a: a[i].1, b: b[j].1 };
            }
            i = i + 1;
            j = j + 1;
        }
        levels.push(level);
        scores.push(score);
        proof {
            assert(scores@.drop_last() =~= old_scores);
        }
        let count_now = levels.len();
        if exact {
            matched = matched + 1;
        }
        proof {
            assert forall|t: int| 0 <= t < levels@.len() implies (i < na ==> #[trigger] levels@[t] < a@[i as int].0)
                && (j < nb ==> levels@[t] < b@[j as int].0) by {
                if i < na && i > 0 {
                    assert(a@[i - 1].0 < a@[i as int].0);
                }
                if j < nb && j > 0 {
                    assert(b@[j - 1].0 < b@[j as int].0);
                }
            }
            assert forall|k: int| 0 <= k < i implies exists|t: int| 0 <= t < levels@.len() && levels@[t] == #[trigger] a@[k].0 by {
                if a@[k].0 == level {
                    assert(levels@[levels@.len() - 1] == a@[k].0);
                } else {
                    let t = choose|t: int| 0 <= t < old_levels.len() && old_levels[t] == a@[k].0;
                    assert(levels@[t] == a@[k].0);
                }
            }
            assert forall|k: int| 0 <= k < j implies exists|t: int| 0 <= t < levels@.len() && levels@[t] == #[trigger] b@[k].0 by {
                if b@[k].0 == level {
                    assert(levels@[levels@.len() - 1] == b@[k].0);
                } else {
                    let t = choose|t: int| 0 <= t < old_levels.len() && old_levels[t] == b@[k].0;
                    assert(levels@[t] == b@[k].0);
                }
            }
        }
    }
    proof {
        assert forall|l: usize|
            (exists|t: int| 0 <= t < levels@.len() && levels@[t] == l) <==> (ma.contains_key(l)
                || mb.contains_key(l)) by {
            if ma.contains_key(l) {
                let k = choose|k: int| 0 <= k < a@.len() && a@[k].0 == l;
                assert(exists|t: int| 0 <= t < levels@.len() && levels@[t] == a@[k].0);
            }
            if mb.contains_key(l) {
                let k = choose|k: int| 0 <= k < b@.len() && b@[k].0 == l;
                assert(exists|t: int| 0 <= t < levels@.len() && levels@[t] == b@[k].0);
            }
            if exists|t: int| 0 <= t < levels@.len() && levels@[t] == l {
                let t = choose|t: int| 0 <= t < levels@.len() && levels@[t] == l;
                assert(levels@[t] == l);
                if exists|k: int| 0 <= k < i && a@[k].0 == levels@[t] {
                    let k = choose|k: int| 0 <= k < i && a@[k].0 == levels@[t];
                    assert(ma.contains_key(a@[k].0));
                } else {
                    let k = choose|k: int| 0 <= k < j && b@[k].0 == levels@[t];
                    assert(mb.contains_key(b@[k].0));
                }
            }
        }
    }
    (levels, scores, matched)
}

/// Compares two structure IDs level by level.
pub fn compare_ids(id_a: &str, id_b: &str) -> (r: Similarity)
    requires
        crate::text::utf8(id_a@).len() < usize::MAX,
        crate::text::utf8(id_b@).len() < usize::MAX,
    ensures
        is_comparison(r, crate::text::utf8(id_a@), crate::text::utf8(id_b@)),
{
    broadcast use vstd::utf8::encode_utf8_decode_utf8;

    let ba = id_a.as_bytes();
    let bb = id_b.as_bytes();
    if crate::text::str_eq(id_a, id_b) {
        let (_, total) = parse_id(ba);
        let mut scores: Vec<LevelScore> = Vec::new();
        let mut k: usize = 0;
        while k < total
            invariant
                k <= total,
                scores@.len() == k,
                forall|t: int| 0 <= t < k ==> #[trigger] scores@[t] is Exact,
            decreases total - k,
        {
            scores.push(LevelScore::Exact);
            k = k + 1;
        }
        return Similarity {
            identical: true,
            matched_levels: total,
            total_levels: total,
            levels: Vec::new(),
            level_scores: scores,
        };
    }
    proof {
        vstd::utf8::encode_utf8_decode_utf8(id_a@);
        vstd::utf8::encode_utf8_decode_utf8(id_b@);
    }
    let (la, _) = parse_id(ba);
    let (lb, _) = parse_id(bb);
    let (levels, scores, matched) = merge_levels(&la, &lb);
    let total = levels.len();
    Similarity {
        identical: false,
        matched_levels: matched,
        total_levels: total,
        levels,
        level_scores: scores,
    }
}

} // verus!
