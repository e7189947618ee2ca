//! Sorting likely-subtags rules into six tables by which parts their key has.
use crate::error::GenError;
use crate::codec::{pack, region_code, upper};
use crate::langid::{parse_langid, parse_spec, LangIdSubTags};
use vstd::prelude::*;

verus! {

/// The region code of `ZZ`, the unknown region.
pub const UNKNOWN_REGION: u32 = 23130;

/// Which parts a likely-subtags key has, with their codes.
#[derive(Debug, Clone, Copy, PartialEq, Eq, Structural)]
pub enum KeyPattern {
    LangOnly(u64),
    LangRegion(u64, u32),
    LangScript(u64, u32),
    ScriptRegion(u32, u32),
    ScriptOnly(u32),
    RegionOnly(u32),
    /// No part at all: the undetermined locale, which no table holds.
    Undetermined,
}

/// The pattern of a key; `None` for a key with all three parts.
pub open spec fn pattern_of(k: LangIdSubTags) -> Option<KeyPattern> {
    match k {
        (Some(l), None, None) => Some(KeyPattern::LangOnly(l)),
        (Some(l), None, Some(r)) => Some(KeyPattern::LangRegion(l, r)),
        (Some(l), Some(s), None) => Some(KeyPattern::LangScript(l, s)),
        (None, Some(s), Some(r)) => Some(KeyPattern::ScriptRegion(s, r)),
        (None, Some(s), None) => Some(KeyPattern::ScriptOnly(s)),
        (None, None, Some(r)) => Some(KeyPattern::RegionOnly(r)),
        (None, None, None) => Some(KeyPattern::Undetermined),
        (Some(_), Some(_), Some(_)) => None,
    }
}

/// The pattern of a key; `None` for a key with all three parts.
pub fn classify_key(k: LangIdSubTags) -> (r: Option<KeyPattern>)
    ensures
        r == pattern_of(k),
{
    match k {
        (Some(l), None, None) => Some(KeyPattern::LangOnly(l)),
        (Some(l), None, Some(r)) => Some(KeyPattern::LangRegion(l, r)),
        (Some(l), Some(s), None) => Some(KeyPattern::LangScript(l, s)),
        (None, Some(s), Some(r)) => Some(KeyPattern::ScriptRegion(s, r)),
        (None, Some(s), None) => Some(KeyPattern::ScriptOnly(s)),
        (None, None, Some(r)) => Some(KeyPattern::RegionOnly(r)),
        (None, None, None) => Some(KeyPattern::Undetermined),
        (Some(_), Some(_), Some(_)) => None,
    }
}

/// A value with its region cleared where that region is `ZZ`.
pub open spec fn normalize_spec(v: LangIdSubTags) -> LangIdSubTags {
    if v.2 == Some(UNKNOWN_REGION) {
        (v.0, v.1, None)
    } else {
        v
    }
}

/// Clears the region of a value where it is `ZZ`: a rule never asserts the
/// unknown region.
pub fn normalize_value(v: LangIdSubTags) -> (r: LangIdSubTags)
    ensures
        r == normalize_spec(v),
        r.2 != Some(UNKNOWN_REGION),
{
    match v.2 {
        Some(r) if r == UNKNOWN_REGION => (v.0, v.1, None),
        _ => v,
    }
}

/// The bytes of a likely-subtags rule's key and value, views of the input.
pub open spec fn rule_views(p: Seq<(Vec<u8>, Vec<u8>)>) -> Seq<(Seq<u8>, Seq<u8>)> {
    p.map_values(|e: (Vec<u8>, Vec<u8>)| (e.0@, e.1@))
}

/// A rule whose key and value both read, and whose key has a pattern.
pub open spec fn rule_ok(k: Seq<u8>, v: Seq<u8>) -> bool {
    parse_spec(k) is Some && parse_spec(v) is Some && pattern_of(parse_spec(k)->0) is Some
}

/// The pattern of a rule's key.
pub open spec fn rule_pattern(k: Seq<u8>) -> KeyPattern {
    pattern_of(parse_spec(k)->0)->0
}

/// The entry value of a rule: its value read and normalized.
pub open spec fn rule_value(v: Seq<u8>) -> LangIdSubTags {
    normalize_spec(parse_spec(v)->0)
}

/// Some rule among the first `n` has pattern `k` and entry value `v`.
pub open spec fn routed(p: Seq<(Seq<u8>, Seq<u8>)>, n: int, k: KeyPattern, v: LangIdSubTags) -> bool {
    exists|j: int| 0 <= j < n && #[trigger] rule_pattern(p[j].0) == k && rule_value(p[j].1) == v
}

/// Among the first `n` rules, no two keys fall on one entry.
pub open spec fn distinct_keys(p: Seq<(Seq<u8>, Seq<u8>)>, n: int) -> bool {
    forall|a: int, b: int|
        0 <= a < b < n && rule_pattern(p[a].0) != KeyPattern::Undetermined ==> #[trigger] rule_pattern(
            p[a].0,
        ) != #[trigger] rule_pattern(p[b].0)
}

/// Every one of the first `n` rules is well formed.
pub open spec fn rules_ok(p: Seq<(Seq<u8>, Seq<u8>)>, n: int) -> bool {
    forall|j: int| 0 <= j < n ==> rule_ok(#[trigger] p[j].0, p[j].1)
}

pub open spec fn sorted1_u64(t: Seq<(u64, LangIdSubTags)>) -> bool {
    forall|i: int, j: int| 0 <= i < j < t.len() ==> #[trigger] t[i].0 < #[trigger] t[j].0
}

pub open spec fn sorted1_u32(t: Seq<(u32, LangIdSubTags)>) -> bool {
    forall|i: int, j: int| 0 <= i < j < t.len() ==> #[trigger] t[i].0 < #[trigger] t[j].0
}

/// `(a1, a2)` comes strictly before `(b1, b2)`, first part first.
pub open spec fn pair_lt(a1: int, a2: int, b1: int, b2: int) -> bool {
    a1 < b1 || (a1 == b1 && a2 < b2)
}

pub open spec fn sorted2_u64(t: Seq<(u64, u32, LangIdSubTags)>) -> bool {
    forall|i: int, j: int|
        0 <= i < j < t.len() ==> pair_lt(
            #[trigger] t[i].0 as int,
            t[i].1 as int,
            #[trigger] t[j].0 as int,
            t[j].1 as int,
        )
}

pub open spec fn sorted2_u32(t: Seq<(u32, u32, LangIdSubTags)>) -> bool {
    forall|i: int, j: int|
        0 <= i < j < t.len() ==> pair_lt(
            #[trigger] t[i].0 as int,
            t[i].1 as int,
            #[trigger] t[j].0 as int,
            t[j].1 as int,
        )
}

/// Puts `(k, v)` into a table sorted by key, unless the key is already there.
fn insert1_u64(t: &mut Vec<(u64, LangIdSubTags)>, k: u64, v: LangIdSubTags) -> (ok: bool)
    requires
        sorted1_u64(old(t)@),
    ensures
        sorted1_u64(final(t)@),
        ok <==> forall|i: int| 0 <= i < old(t)@.len() ==> #[trigger] old(t)@[i].0 != k,
        ok ==> forall|e: (u64, LangIdSubTags)| #[trigger]
            final(t)@.contains(e) <==> (old(t)@.contains(e) || e == (k, v)),
        !ok ==> final(t)@ == old(t)@,
{
    let mut i: usize = 0;
    while i < t.len() && t[i].0 < k
        invariant
            i <= t@.len(),
            forall|j: int| 0 <= j < i ==> #[trigger] t@[j].0 < k,
        decreases t@.len() - i,
    {
        i = i + 1;
    }
    if i < t.len() && t[i].0 == k {
        return false;
    }
    proof {
        assert forall|j: int| i <= j < t@.len() implies #[trigger] t@[j].0 > k by {
            assert(t@[i as int].0 > k);
            if j > i {
                assert(t@[i as int].0 < t@[j].0);
            }
        }
    }
    let ghost before = t@;
    t.insert(i, (k, v));
    proof {
        assert(t@ == before.insert(i as int, (k, v)));
        assert forall|e: (u64, LangIdSubTags)| #[trigger]
            t@.contains(e) <==> (before.contains(e) || e == (k, v)) by {
            if t@.contains(e) {
                let x = choose|x: int| 0 <= x < t@.len() && t@[x] == e;
                if x < i {
                    assert(before[x] == e);
                } else if x > i {
                    assert(before[x - 1] == e);
                }
            }
            if before.contains(e) {
                let x = choose|x: int| 0 <= x < before.len() && before[x] == e;
                if x < i {
                    assert(t@[x] == e);
                } else {
                    assert(t@[x + 1] == e);
                }
            }
            if e == (k, v) {
                assert(t@[i as int] == e);
            }
        }
    }
    true
}

/// Puts `(k, v)` into a table sorted by key, unless the key is already there.
fn insert1_u32(t: &mut Vec<(u32, LangIdSubTags)>, k: u32, v: LangIdSubTags) -> (ok: bool)
    requires
        sorted1_u32(old(t)@),
    ensures
        sorted1_u32(final(t)@),
        ok <==> forall|i: int| 0 <= i < old(t)@.len() ==> #[trigger] old(t)@[i].0 != k,
        ok ==> forall|e: (u32, LangIdSubTags)| #[trigger]
            final(t)@.contains(e) <==> (old(t)@.contains(e) || e == (k, v)),
        !ok ==> final(t)@ == old(t)@,
{
    let mut i: usize = 0;
    while i < t.len() && t[i].0 < k
        invariant
            i <= t@.len(),
            forall|j: int| 0 <= j < i ==> #[trigger] t@[j].0 < k,
        decreases t@.len() - i,
    {
        i = i + 1;
    }
    if i < t.len() && t[i].0 == k {
        return false;
    }
    proof {
        assert forall|j: int| i <= j < t@.len() implies #[trigger] t@[j].0 > k by {
            assert(t@[i as int].0 > k);
            if j > i {
                assert(t@[i as int].0 < t@[j].0);
            }
        }
    }
    let ghost before = t@;
    t.insert(i, (k, v));
    proof {
        assert(t@ == before.insert(i as int, (k, v)));
        assert forall|e: (u32, LangIdSubTags)| #[trigger]
            t@.contains(e) <==> (before.contains(e) || e == (k, v)) by {
            if t@.contains(e) {
                let x = choose|x: int| 0 <= x < t@.len() && t@[x] == e;
                if x < i {
                    assert(before[x] == e);
                } else if x > i {
                    assert(before[x - 1] == e);
                }
            }
            if before.contains(e) {
                let x = choose|x: int| 0 <= x < before.len() && before[x] == e;
                if x < i {
                    assert(t@[x] == e);
                } else {
                    assert(t@[x + 1] == e);
                }
            }
            if e == (k, v) {
                assert(t@[i as int] == e);
            }
        }
    }
    true
}

/// Puts `(k1, k2, v)` into a table sorted by key pair, unless the pair is
/// already there.
fn insert2_u64(t: &mut Vec<(u64, u32, LangIdSubTags)>, k1: u64, k2: u32, v: LangIdSubTags) -> (ok: bool)
    requires
        sorted2_u64(old(t)@),
    ensures
        sorted2_u64(final(t)@),
        ok <==> forall|i: int|
            0 <= i < old(t)@.len() ==> !(#[trigger] old(t)@[i].0 == k1 && old(t)@[i].1 == k2),
        ok ==> forall|e: (u64, u32, LangIdSubTags)| #[trigger]
            final(t)@.contains(e) <==> (old(t)@.contains(e) || e == (k1, k2, v)),
        !ok ==> final(t)@ == old(t)@,
{
    let mut i: usize = 0;
    while i < t.len() && (t[i].0 < k1 || (t[i].0 == k1 && t[i].1 < k2))
        invariant
            i <= t@.len(),
            forall|j: int|
                0 <= j < i ==> pair_lt(#[trigger] t@[j].0 as int, t@[j].1 as int, k1 as int, k2 as int),
        decreases t@.len() - i,
    {
        i = i + 1;
    }
    if i < t.len() && t[i].0 == k1 && t[i].1 == k2 {
        return false;
    }
    proof {
        assert forall|j: int| i <= j < t@.len() implies pair_lt(
            k1 as int,
            k2 as int,
            #[trigger] t@[j].0 as int,
            t@[j].1 as int,
        ) by {
            if j > i {
                assert(pair_lt(t@[i as int].0 as int, t@[i as int].1 as int, t@[j].0 as int, t@[j].1 as int));
            }
        }
        assert forall|j: int| 0 <= j < t@.len() implies !(#[trigger] t@[j].0 == k1 && t@[j].1 == k2) by {
            if j >= i {
                assert(pair_lt(k1 as int, k2 as int, t@[j].0 as int, t@[j].1 as int));
            } else {
                assert(pair_lt(t@[j].0 as int, t@[j].1 as int, k1 as int, k2 as int));
            }
        }
    }
    let ghost before = t@;
    t.insert(i, (k1, k2, v));
    proof {
        assert(t@ == before.insert(i as int, (k1, k2, v)));
        assert forall|a: int, b: int| 0 <= a < b < t@.len() implies pair_lt(
            #[trigger] t@[a].0 as int,
            t@[a].1 as int,
            #[trigger] t@[b].0 as int,
            t@[b].1 as int,
        ) by {
            if a < i && b == i {
                assert(pair_lt(before[a].0 as int, before[a].1 as int, k1 as int, k2 as int));
            } else if a == i && b > i {
                assert(pair_lt(k1 as int, k2 as int, before[b - 1].0 as int, before[b - 1].1 as int));
            } else if a < i && b > i {
                assert(pair_lt(before[a].0 as int, before[a].1 as int, before[b - 1].0 as int, before[b - 1].1 as int));
            } else if a > i {
                assert(pair_lt(before[a - 1].0 as int, before[a - 1].1 as int, before[b - 1].0 as int, before[b - 1].1 as int));
            } else {
                assert(pair_lt(before[a].0 as int, before[a].1 as int, before[b].0 as int, before[b].1 as int));
            }
        }
        assert forall|e: (u64, u32, LangIdSubTags)| #[trigger]
            t@.contains(e) <==> (before.contains(e) || e == (k1, k2, v)) by {
            if t@.contains(e) {
                let x = choose|x: int| 0 <= x < t@.len() && t@[x] == e;
                if x < i {
                    assert(before[x] == e);
                } else if x > i {
                    assert(before[x - 1] == e);
                }
            }
            if before.contains(e) {
                let x = choose|x: int| 0 <= x < before.len() && before[x] == e;
                if x < i {
                    assert(t@[x] == e);
                } else {
                    assert(t@[x + 1] == e);
                }
            }
            if e == (k1, k2, v) {
                assert(t@[i as int] == e);
            }
        }
    }
    true
}

/// Puts `(k1, k2, v)` into a table sorted by key pair, unless the pair is
/// already there.
fn insert2_u32(t: &mut Vec<(u32, u32, LangIdSubTags)>, k1: u32, k2: u32, v: LangIdSubTags) -> (ok: bool)
    requires
        sorted2_u32(old(t)@),
    ensures
        sorted2_u32(final(t)@),
        ok <==> forall|i: int|
            0 <= i < old(t)@.len() ==> !(#[trigger] old(t)@[i].0 == k1 && old(t)@[i].1 == k2),
        ok ==> forall|e: (u32, u32, LangIdSubTags)| #[trigger]
            final(t)@.contains(e) <==> (old(t)@.contains(e) || e == (k1, k2, v)),
        !ok ==> final(t)@ == old(t)@,
{
    let mut i: usize = 0;
    while i < t.len() && (t[i].0 < k1 || (t[i].0 == k1 && t[i].1 < k2))
        invariant
            i <= t@.len(),
            forall|j: int|
                0 <= j < i ==> pair_lt(#[trigger] t@[j].0 as int, t@[j].1 as int, k1 as int, k2 as int),
        decreases t@.len() - i,
    {
        i = i + 1;
    }
    if i < t.len() && t[i].0 == k1 && t[i].1 == k2 {
        return false;
    }
    proof {
        assert forall|j: int| i <= j < t@.len() implies pair_lt(
            k1 as int,
            k2 as int,
            #[trigger] t@[j].0 as int,
            t@[j].1 as int,
        ) by {
            if j > i {
                assert(pair_lt(t@[i as int].0 as int, t@[i as int].1 as int, t@[j].0 as int, t@[j].1 as int));
            }
        }
        assert forall|j: int| 0 <= j < t@.len() implies !(#[trigger] t@[j].0 == k1 && t@[j].1 == k2) by {
            if j >= i {
                assert(pair_lt(k1 as int, k2 as int, t@[j].0 as int, t@[j].1 as int));
            } else {
                assert(pair_lt(t@[j].0 as int, t@[j].1 as int, k1 as int, k2 as int));
            }
        }
    }
    let ghost before = t@;
    t.insert(i, (k1, k2, v));
    proof {
        assert(t@ == before.insert(i as int, (k1, k2, v)));
        assert forall|a: int, b: int| 0 <= a < b < t@.len() implies pair_lt(
            #[trigger] t@[a].0 as int,
            t@[a].1 as int,
            #[trigger] t@[b].0 as int,
            t@[b].1 as int,
        ) by {
            if a < i && b == i {
                assert(pair_lt(before[a].0 as int, before[a].1 as int, k1 as int, k2 as int));
            } else if a == i && b > i {
                assert(pair_lt(k1 as int, k2 as int, before[b - 1].0 as int, before[b - 1].1 as int));
            } else if a < i && b > i {
                assert(pair_lt(before[a].0 as int, before[a].1 as int, before[b - 1].0 as int, before[b - 1].1 as int));
            } else if a > i {
                assert(pair_lt(before[a - 1].0 as int, before[a - 1].1 as int, before[b - 1].0 as int, before[b - 1].1 as int));
            } else {
                assert(pair_lt(before[a].0 as int, before[a].1 as int, before[b].0 as int, before[b].1 as int));
            }
        }
        assert forall|e: (u32, u32, LangIdSubTags)| #[trigger]
            t@.contains(e) <==> (before.contains(e) || e == (k1, k2, v)) by {
            if t@.contains(e) {
                let x = choose|x: int| 0 <= x < t@.len() && t@[x] == e;
                if x < i {
                    assert(before[x] == e);
                } else if x > i {
                    assert(before[x - 1] == e);
                }
            }
            if before.contains(e) {
                let x = choose|x: int| 0 <= x < before.len() && before[x] == e;
                if x < i {
                    assert(t@[x] == e);
                } else {
                    assert(t@[x + 1] == e);
                }
            }
            if e == (k1, k2, v) {
                assert(t@[i as int] == e);
            }
        }
    }
    true
}


/// The data version of a supplemental document.
pub struct Version {
    pub cldr_version: String,
}

/// The supplemental part of a likely-subtags document: its version and its
/// rules, each the bytes of a key and of a value identifier.
pub struct Supplemental {
    pub version: Version,
    pub likely_subtags: Vec<(Vec<u8>, Vec<u8>)>,
}

/// A likely-subtags document.
pub struct Resource {
    pub supplemental: Supplemental,
}

/// The version and the six tables: language only, language and region,
/// language and script, script and region, region only, script only.
pub type LikelySubtagsData = (
    String,
    Vec<(u64, LangIdSubTags)>,
    Vec<(u64, u32, LangIdSubTags)>,
    Vec<(u64, u32, LangIdSubTags)>,
    Vec<(u32, u32, LangIdSubTags)>,
    Vec<(u32, LangIdSubTags)>,
    Vec<(u32, LangIdSubTags)>,
);

/// Every table is sorted strictly by key, and holds exactly the entries of
/// the rules whose key has its pattern.
pub open spec fn tables_match(p: Seq<(Seq<u8>, Seq<u8>)>, d: LikelySubtagsData) -> bool {
    let n = p.len() as int;
    &&& sorted1_u64(d.1@)
    &&& sorted2_u64(d.2@)
    &&& sorted2_u64(d.3@)
    &&& sorted2_u32(d.4@)
    &&& sorted1_u32(d.5@)
    &&& sorted1_u32(d.6@)
    &&& forall|k: u64, v: LangIdSubTags| #[trigger]
        d.1@.contains((k, v)) <==> routed(p, n, KeyPattern::LangOnly(k), v)
    &&& forall|k1: u64, k2: u32, v: LangIdSubTags| #[trigger]
        d.2@.contains((k1, k2, v)) <==> routed(p, n, KeyPattern::LangRegion(k1, k2), v)
    &&& forall|k1: u64, k2: u32, v: LangIdSubTags| #[trigger]
        d.3@.contains((k1, k2, v)) <==> routed(p, n, KeyPattern::LangScript(k1, k2), v)
    &&& forall|k1: u32, k2: u32, v: LangIdSubTags| #[trigger]
        d.4@.contains((k1, k2, v)) <==> routed(p, n, KeyPattern::ScriptRegion(k1, k2), v)
    &&& forall|k: u32, v: LangIdSubTags| #[trigger]
        d.5@.contains((k, v)) <==> routed(p, n, KeyPattern::RegionOnly(k), v)
    &&& forall|k: u32, v: LangIdSubTags| #[trigger]
        d.6@.contains((k, v)) <==> routed(p, n, KeyPattern::ScriptOnly(k), v)
}

/// What an error from building the tables says of the rules: it names the
/// bytes of a rule's key or value that is at fault.
pub open spec fn likely_error_spec(p: Seq<(Seq<u8>, Seq<u8>)>, e: GenError) -> bool {
    match e {
        GenError::InvalidKey(k) => exists|j: int|
            0 <= j < p.len() && #[trigger] p[j].0 == k@ && parse_spec(k@) is None,
        GenError::InvalidValue(v) => exists|j: int|
            0 <= j < p.len() && #[trigger] p[j].1 == v@ && parse_spec(v@) is None,
        GenError::UnsupportedKey(k) => exists|j: int|
            0 <= j < p.len() && #[trigger] p[j].0 == k@ && parse_spec(k@) is Some && pattern_of(
                parse_spec(k@)->0,
            ) is None,
        GenError::DuplicateKey(k) => exists|a: int, b: int|
            0 <= a < b < p.len() && #[trigger] p[b].0 == k@ && rule_pattern(p[b].0)
                != KeyPattern::Undetermined && #[trigger] rule_pattern(p[a].0) == rule_pattern(
                p[b].0,
            ),
        _ => false,
    }
}

proof fn lemma_routed_step(p: Seq<(Seq<u8>, Seq<u8>)>, n: int)
    requires
        0 <= n < p.len(),
    ensures
        forall|k: KeyPattern, v: LangIdSubTags| #[trigger]
            routed(p, n + 1, k, v) <==> (routed(p, n, k, v) || (rule_pattern(p[n].0) == k
                && rule_value(p[n].1) == v)),
{
    assert forall|k: KeyPattern, v: LangIdSubTags| #[trigger]
        routed(p, n + 1, k, v) <==> (routed(p, n, k, v) || (rule_pattern(p[n].0) == k
            && rule_value(p[n].1) == v)) by {
        if routed(p, n + 1, k, v) {
            let j = choose|j: int|
                0 <= j < n + 1 && #[trigger] rule_pattern(p[j].0) == k && rule_value(p[j].1) == v;
            if j < n {
                assert(routed(p, n, k, v));
            }
        }
        if rule_pattern(p[n].0) == k && rule_value(p[n].1) == v {
            assert(routed(p, n + 1, k, v));
        }
        if routed(p, n, k, v) {
            let j = choose|j: int|
                0 <= j < n && #[trigger] rule_pattern(p[j].0) == k && rule_value(p[j].1) == v;
            assert(routed(p, n + 1, k, v));
        }
    }
}

/// The table that pattern `pat` selects already holds an entry with its key.
pub open spec fn has_key(
    pat: KeyPattern,
    t1: Seq<(u64, LangIdSubTags)>,
    t2: Seq<(u64, u32, LangIdSubTags)>,
    t3: Seq<(u64, u32, LangIdSubTags)>,
    t4: Seq<(u32, u32, LangIdSubTags)>,
    t5: Seq<(u32, LangIdSubTags)>,
    t6: Seq<(u32, LangIdSubTags)>,
) -> bool {
    match pat {
        KeyPattern::LangOnly(l) => exists|x: int| 0 <= x < t1.len() && #[trigger] t1[x].0 == l,
        KeyPattern::LangRegion(l, g) => exists|x: int|
            0 <= x < t2.len() && #[trigger] t2[x].0 == l && t2[x].1 == g,
        KeyPattern::LangScript(l, g) => exists|x: int|
            0 <= x < t3.len() && #[trigger] t3[x].0 == l && t3[x].1 == g,
        KeyPattern::ScriptRegion(l, g) => exists|x: int|
            0 <= x < t4.len() && #[trigger] t4[x].0 == l && t4[x].1 == g,
        KeyPattern::RegionOnly(g) => exists|x: int| 0 <= x < t5.len() && #[trigger] t5[x].0 == g,
        KeyPattern::ScriptOnly(g) => exists|x: int| 0 <= x < t6.len() && #[trigger] t6[x].0 == g,
        KeyPattern::Undetermined => false,
    }
}

proof fn lemma_has_key(
    p: Seq<(Seq<u8>, Seq<u8>)>,
    n: int,
    pat: KeyPattern,
    t1: Seq<(u64, LangIdSubTags)>,
    t2: Seq<(u64, u32, LangIdSubTags)>,
    t3: Seq<(u64, u32, LangIdSubTags)>,
    t4: Seq<(u32, u32, LangIdSubTags)>,
    t5: Seq<(u32, LangIdSubTags)>,
    t6: Seq<(u32, LangIdSubTags)>,
)
    requires
        0 <= n <= p.len(),
        forall|k: u64, v: LangIdSubTags| #[trigger]
            t1.contains((k, v)) <==> routed(p, n, KeyPattern::LangOnly(k), v),
        forall|k1: u64, k2: u32, v: LangIdSubTags| #[trigger]
            t2.contains((k1, k2, v)) <==> routed(p, n, KeyPattern::LangRegion(k1, k2), v),
        forall|k1: u64, k2: u32, v: LangIdSubTags| #[trigger]
            t3.contains((k1, k2, v)) <==> routed(p, n, KeyPattern::LangScript(k1, k2), v),
        forall|k1: u32, k2: u32, v: LangIdSubTags| #[trigger]
            t4.contains((k1, k2, v)) <==> routed(p, n, KeyPattern::ScriptRegion(k1, k2), v),
        forall|k: u32, v: LangIdSubTags| #[trigger]
            t5.contains((k, v)) <==> routed(p, n, KeyPattern::RegionOnly(k), v),
        forall|k: u32, v: LangIdSubTags| #[trigger]
            t6.contains((k, v)) <==> routed(p, n, KeyPattern::ScriptOnly(k), v),
    ensures
        has_key(pat, t1, t2, t3, t4, t5, t6) <==> (pat != KeyPattern::Undetermined && exists|a: int|
            0 <= a < n && #[trigger] rule_pattern(p[a].0) == pat),
{
    if pat != KeyPattern::Undetermined {
        if exists|a: int| 0 <= a < n && #[trigger] rule_pattern(p[a].0) == pat {
            let a = choose|a: int| 0 <= a < n && #[trigger] rule_pattern(p[a].0) == pat;
            let v = rule_value(p[a].1);
            assert(routed(p, n, pat, v));
            match pat {
                KeyPattern::LangOnly(l) => {
                    assert(t1.contains((l, v)));
                    let x = choose|x: int| 0 <= x < t1.len() && t1[x] == (l, v);
                    assert(t1[x].0 == l);
                    assert(has_key(pat, t1, t2, t3, t4, t5, t6));
                },
                KeyPattern::LangRegion(l, g) => {
                    assert(t2.contains((l, g, v)));
                    let x = choose|x: int| 0 <= x < t2.len() && t2[x] == (l, g, v);
                    assert(t2[x].0 == l);
                    assert(has_key(pat, t1, t2, t3, t4, t5, t6));
                },
                KeyPattern::LangScript(l, g) => {
                    assert(t3.contains((l, g, v)));
                    let x = choose|x: int| 0 <= x < t3.len() && t3[x] == (l, g, v);
                    assert(t3[x].0 == l);
                    assert(has_key(pat, t1, t2, t3, t4, t5, t6));
                },
                KeyPattern::ScriptRegion(l, g) => {
                    assert(t4.contains((l, g, v)));
                    let x = choose|x: int| 0 <= x < t4.len() && t4[x] == (l, g, v);
                    assert(t4[x].0 == l);
                    assert(has_key(pat, t1, t2, t3, t4, t5, t6));
                },
                KeyPattern::RegionOnly(g) => {
                    assert(t5.contains((g, v)));
                    let x = choose|x: int| 0 <= x < t5.len() && t5[x] == (g, v);
                    assert(t5[x].0 == g);
                    assert(has_key(pat, t1, t2, t3, t4, t5, t6));
                },
                KeyPattern::ScriptOnly(g) => {
                    assert(t6.contains((g, v)));
                    let x = choose|x: int| 0 <= x < t6.len() && t6[x] == (g, v);
                    assert(t6[x].0 == g);
                    assert(has_key(pat, t1, t2, t3, t4, t5, t6));
                },
                KeyPattern::Undetermined => {},
            }
            assert(has_key(pat, t1, t2, t3, t4, t5, t6));
        }
        if has_key(pat, t1, t2, t3, t4, t5, t6) {
            match pat {
                KeyPattern::LangOnly(l) => {
                    let x = choose|x: int| 0 <= x < t1.len() && #[trigger] t1[x].0 == l;
                    assert(t1[x] == (l, t1[x].1));
                    assert(t1.contains((l, t1[x].1)));
                    assert(routed(p, n, pat, t1[x].1));
                    let j = choose|j: int| 0 <= j < n && #[trigger] rule_pattern(p[j].0) == pat && rule_value(p[j].1) == t1[x].1;
                },
                KeyPattern::LangRegion(l, g) => {
                    let x = choose|x: int| 0 <= x < t2.len() && #[trigger] t2[x].0 == l && t2[x].1 == g;
                    assert(t2[x] == (l, g, t2[x].2));
                    assert(t2.contains((l, g, t2[x].2)));
                    assert(routed(p, n, pat, t2[x].2));
                    let j = choose|j: int| 0 <= j < n && #[trigger] rule_pattern(p[j].0) == pat && rule_value(p[j].1) == t2[x].2;
                },
                KeyPattern::LangScript(l, g) => {
                    let x = choose|x: int| 0 <= x < t3.len() && #[trigger] t3[x].0 == l && t3[x].1 == g;
                    assert(t3[x] == (l, g, t3[x].2));
                    assert(t3.contains((l, g, t3[x].2)));
                    assert(routed(p, n, pat, t3[x].2));
                    let j = choose|j: int| 0 <= j < n && #[trigger] rule_pattern(p[j].0) == pat && rule_value(p[j].1) == t3[x].2;
                },
                KeyPattern::ScriptRegion(l, g) => {
                    let x = choose|x: int| 0 <= x < t4.len() && #[trigger] t4[x].0 == l && t4[x].1 == g;
                    assert(t4[x] == (l, g, t4[x].2));
                    assert(t4.contains((l, g, t4[x].2)));
                    assert(routed(p, n, pat, t4[x].2));
                    let j = choose|j: int| 0 <= j < n && #[trigger] rule_pattern(p[j].0) == pat && rule_value(p[j].1) == t4[x].2;
                },
                KeyPattern::RegionOnly(g) => {
                    let x = choose|x: int| 0 <= x < t5.len() && #[trigger] t5[x].0 == g;
                    assert(t5[x] == (g, t5[x].1));
                    assert(t5.contains((g, t5[x].1)));
                    assert(routed(p, n, pat, t5[x].1));
                    let j = choose|j: int| 0 <= j < n && #[trigger] rule_pattern(p[j].0) == pat && rule_value(p[j].1) == t5[x].1;
                },
                KeyPattern::ScriptOnly(g) => {
                    let x = choose|x: int| 0 <= x < t6.len() && #[trigger] t6[x].0 == g;
                    assert(t6[x] == (g, t6[x].1));
                    assert(t6.contains((g, t6[x].1)));
                    assert(routed(p, n, pat, t6[x].1));
                    let j = choose|j: int| 0 <= j < n && #[trigger] rule_pattern(p[j].0) == pat && rule_value(p[j].1) == t6[x].1;
                },
                KeyPattern::Undetermined => {},
            }
            assert(exists|a: int| 0 <= a < n && #[trigger] rule_pattern(p[a].0) == pat);
        }
    }
}

/// Builds the six likely-subtags tables of a document. Each rule's key and
/// value are read, the value's `ZZ` region is cleared, and the rule goes into
/// the one table that its key's pattern selects; the undetermined key is left
/// out. Fails where a key or value does not read, where a key has all three
/// parts, or where two keys fall on one entry.
pub fn get_likely_subtags_data(res: &Resource) -> (r: Result<LikelySubtagsData, GenError>)
    ensures
        ({
            let p = rule_views(res.supplemental.likely_subtags@);
            &&& (r is Ok) == (rules_ok(p, p.len() as int) && distinct_keys(p, p.len() as int))
            &&& r matches Ok(d) ==> d.0@ == res.supplemental.version.cldr_version@ && tables_match(
                p,
                d,
            )
            &&& r matches Err(e) ==> likely_error_spec(p, e)
        }),
{
    let rules = &res.supplemental.likely_subtags;
    let ghost p = rule_views(rules@);
    let mut b = Buckets {
        lang_only: Vec::new(),
        lang_region: Vec::new(),
        lang_script: Vec::new(),
        script_region: Vec::new(),
        region_only: Vec::new(),
        script_only: Vec::new(),
    };
    proof {
        reveal(buckets_match);
    }
    let mut i: usize = 0;
    while i < rules.len()
        invariant
            p == rule_views(rules@),
            p == rule_views(res.supplemental.likely_subtags@),
            p.len() == rules@.len(),
            i <= rules@.len(),
            rules_ok(p, i as int),
            distinct_keys(p, i as int),
            buckets_match(b, p, i as int),
        decreases rules@.len() - i,
    {
        let kb = &rules[i].0;
        let vb = &rules[i].1;
        assert(p[i as int].0 == kb@ && p[i as int].1 == vb@);
        let key = match parse_langid(kb.as_slice()) {
            Some(x) => x,
            None => {
                let e = kb.clone();
                assert(e@ == kb@);
                assert(!rule_ok(p[i as int].0, p[i as int].1));
                assert(!rules_ok(p, p.len() as int));
                assert(likely_error_spec(p, GenError::InvalidKey(e)));
                return Err(GenError::InvalidKey(e));
            },
        };
        let raw = match parse_langid(vb.as_slice()) {
            Some(x) => x,
            None => {
                let e = vb.clone();
                assert(e@ == vb@);
                assert(!rule_ok(p[i as int].0, p[i as int].1));
                assert(!rules_ok(p, p.len() as int));
                assert(likely_error_spec(p, GenError::InvalidValue(e)));
                return Err(GenError::InvalidValue(e));
            },
        };
        let val = normalize_value(raw);
        let pat = match classify_key(key) {
            Some(x) => x,
            None => {
                let e = kb.clone();
                assert(e@ == kb@);
                assert(!rule_ok(p[i as int].0, p[i as int].1));
                assert(!rules_ok(p, p.len() as int));
                assert(likely_error_spec(p, GenError::UnsupportedKey(e)));
                return Err(GenError::UnsupportedKey(e));
            },
        };
        assert(rule_ok(p[i as int].0, p[i as int].1));
        assert(rule_pattern(p[i as int].0) == pat && rule_value(p[i as int].1) == val);
        let ok = add_rule(&mut b, Ghost(p), Ghost(i as int), pat, val);
        if !ok {
            let e = kb.clone();
            assert(e@ == kb@);
            let ghost a = choose|a: int| 0 <= a < i && #[trigger] rule_pattern(p[a].0) == pat;
            assert(!distinct_keys(p, p.len() as int)) by {
                assert(rule_pattern(p[a].0) == rule_pattern(p[i as int].0));
            }
            return Err(GenError::DuplicateKey(e));
        }
        proof {
            assert forall|a: int, c: int|
                0 <= a < c < i + 1 && rule_pattern(p[a].0) != KeyPattern::Undetermined implies #[trigger] rule_pattern(
                p[a].0,
            ) != #[trigger] rule_pattern(p[c].0) by {
                if c == i && rule_pattern(p[a].0) == pat {
                    assert(exists|a2: int| 0 <= a2 < i && #[trigger] rule_pattern(p[a2].0) == pat);
                }
            }
        }
        i = i + 1;
    }
    proof {
        reveal(buckets_match);
    }
    let version = res.supplemental.version.cldr_version.clone();
    Ok(
        (
            version,
            b.lang_only,
            b.lang_region,
            b.lang_script,
            b.script_region,
            b.region_only,
            b.script_only,
        ),
    )
}

/// The tables while they are being filled.
struct Buckets {
    lang_only: Vec<(u64, LangIdSubTags)>,
    lang_region: Vec<(u64, u32, LangIdSubTags)>,
    lang_script: Vec<(u64, u32, LangIdSubTags)>,
    script_region: Vec<(u32, u32, LangIdSubTags)>,
    region_only: Vec<(u32, LangIdSubTags)>,
    script_only: Vec<(u32, LangIdSubTags)>,
}

/// The tables hold exactly the first `n` rules, each sorted strictly by key.
#[verifier::opaque]
spec fn buckets_match(b: Buckets, p: Seq<(Seq<u8>, Seq<u8>)>, n: int) -> bool {
    &&& sorted1_u64(b.lang_only@)
    &&& sorted2_u64(b.lang_region@)
    &&& sorted2_u64(b.lang_script@)
    &&& sorted2_u32(b.script_region@)
    &&& sorted1_u32(b.region_only@)
    &&& sorted1_u32(b.script_only@)
    &&& forall|k: u64, v: LangIdSubTags| #[trigger]
        b.lang_only@.contains((k, v)) <==> routed(p, n, KeyPattern::LangOnly(k), v)
    &&& forall|k1: u64, k2: u32, v: LangIdSubTags| #[trigger]
        b.lang_region@.contains((k1, k2, v)) <==> routed(p, n, KeyPattern::LangRegion(k1, k2), v)
    &&& forall|k1: u64, k2: u32, v: LangIdSubTags| #[trigger]
        b.lang_script@.contains((k1, k2, v)) <==> routed(p, n, KeyPattern::LangScript(k1, k2), v)
    &&& forall|k1: u32, k2: u32, v: LangIdSubTags| #[trigger]
        b.script_region@.contains((k1, k2, v)) <==> routed(
            p,
            n,
            KeyPattern::ScriptRegion(k1, k2),
            v,
        )
    &&& forall|k: u32, v: LangIdSubTags| #[trigger]
        b.region_only@.contains((k, v)) <==> routed(p, n, KeyPattern::RegionOnly(k), v)
    &&& forall|k: u32, v: LangIdSubTags| #[trigger]
        b.script_only@.contains((k, v)) <==> routed(p, n, KeyPattern::ScriptOnly(k), v)
}

/// Adds rule `n`, of pattern `pat` and entry value `val`, to its table; false,
/// with nothing added, where an earlier rule has the same pattern.
#[verifier::rlimit(50)]
fn add_rule(
    b: &mut Buckets,
    p: Ghost<Seq<(Seq<u8>, Seq<u8>)>>,
    n: Ghost<int>,
    pat: KeyPattern,
    val: LangIdSubTags,
) -> (ok: bool)
    requires
        buckets_match(*old(b), p@, n@),
        0 <= n@ < p@.len(),
        rule_pattern(p@[n@].0) == pat,
        rule_value(p@[n@].1) == val,
    ensures
        ok <==> !(pat != KeyPattern::Undetermined && exists|a: int|
            0 <= a < n@ && #[trigger] rule_pattern(p@[a].0) == pat),
        ok ==> buckets_match(*final(b), p@, n@ + 1),
{
    proof {
        reveal(buckets_match);
        lemma_routed_step(p@, n@);
        lemma_has_key(
            p@,
            n@,
            pat,
            b.lang_only@,
            b.lang_region@,
            b.lang_script@,
            b.script_region@,
            b.region_only@,
            b.script_only@,
        );
    }
    match pat {
        KeyPattern::LangOnly(l) => insert1_u64(&mut b.lang_only, l, val),
        KeyPattern::LangRegion(l, g) => insert2_u64(&mut b.lang_region, l, g, val),
        KeyPattern::LangScript(l, s) => insert2_u64(&mut b.lang_script, l, s, val),
        KeyPattern::ScriptRegion(s, g) => insert2_u32(&mut b.script_region, s, g, val),
        KeyPattern::RegionOnly(g) => insert1_u32(&mut b.region_only, g, val),
        KeyPattern::ScriptOnly(s) => insert1_u32(&mut b.script_only, s, val),
        KeyPattern::Undetermined => true,
    }
}

/// `UNKNOWN_REGION` is the region code of `ZZ`.
pub proof fn lemma_unknown_region_code()
    ensures
        UNKNOWN_REGION as nat == region_code(seq![90u8, 90u8]),
{
    let zz = seq![90u8, 90u8];
    assert(upper(zz) =~= zz);
    assert(zz.drop_first().drop_first() =~= Seq::<u8>::empty());
    reveal_with_fuel(pack, 3);
}

/// The entry value `v` stands in the table that pattern `pat` selects, under
/// the key that the pattern carries. The undetermined pattern selects none.
pub open spec fn in_table(d: LikelySubtagsData, pat: KeyPattern, v: LangIdSubTags) -> bool {
    match pat {
        KeyPattern::LangOnly(l) => d.1@.contains((l, v)),
        KeyPattern::LangRegion(l, g) => d.2@.contains((l, g, v)),
        KeyPattern::LangScript(l, s) => d.3@.contains((l, s, v)),
        KeyPattern::ScriptRegion(s, g) => d.4@.contains((s, g, v)),
        KeyPattern::RegionOnly(g) => d.5@.contains((g, v)),
        KeyPattern::ScriptOnly(s) => d.6@.contains((s, v)),
        KeyPattern::Undetermined => false,
    }
}

/// Every rule but those with the undetermined key lands in the one table that
/// the presence of language, script and region in its key selects; the
/// undetermined key is the one with none of them, and lands nowhere.
pub proof fn lemma_bucket_partition(p: Seq<(Seq<u8>, Seq<u8>)>, d: LikelySubtagsData, j: int)
    requires
        tables_match(p, d),
        0 <= j < p.len(),
        rule_ok(p[j].0, p[j].1),
    ensures
        in_table(d, rule_pattern(p[j].0), rule_value(p[j].1)) <==> rule_pattern(p[j].0)
            != KeyPattern::Undetermined,
        rule_pattern(p[j].0) == KeyPattern::Undetermined <==> parse_spec(p[j].0)->0 == (
            None::<u64>,
            None::<u32>,
            None::<u32>,
        ),
{
    let pat = rule_pattern(p[j].0);
    let v = rule_value(p[j].1);
    if pat != KeyPattern::Undetermined {
        assert(routed(p, p.len() as int, pat, v));
    }
}

/// Within each table the keys strictly increase from one entry to the next.
pub proof fn lemma_tables_sorted(p: Seq<(Seq<u8>, Seq<u8>)>, d: LikelySubtagsData)
    requires
        tables_match(p, d),
    ensures
        forall|i: int| 0 <= i < d.1@.len() - 1 ==> #[trigger] d.1@[i].0 < d.1@[i + 1].0,
        forall|i: int|
            0 <= i < d.2@.len() - 1 ==> pair_lt(
                #[trigger] d.2@[i].0 as int,
                d.2@[i].1 as int,
                d.2@[i + 1].0 as int,
                d.2@[i + 1].1 as int,
            ),
        forall|i: int|
            0 <= i < d.3@.len() - 1 ==> pair_lt(
                #[trigger] d.3@[i].0 as int,
                d.3@[i].1 as int,
                d.3@[i + 1].0 as int,
                d.3@[i + 1].1 as int,
            ),
        forall|i: int|
            0 <= i < d.4@.len() - 1 ==> pair_lt(
                #[trigger] d.4@[i].0 as int,
                d.4@[i].1 as int,
                d.4@[i + 1].0 as int,
                d.4@[i + 1].1 as int,
            ),
        forall|i: int| 0 <= i < d.5@.len() - 1 ==> #[trigger] d.5@[i].0 < d.5@[i + 1].0,
        forall|i: int| 0 <= i < d.6@.len() - 1 ==> #[trigger] d.6@[i].0 < d.6@[i + 1].0,
{
    assert forall|i: int| 0 <= i < d.1@.len() - 1 implies #[trigger] d.1@[i].0 < d.1@[i + 1].0 by {
        assert(d.1@[i].0 < d.1@[i + 1].0);
    }
    assert forall|i: int| 0 <= i < d.5@.len() - 1 implies #[trigger] d.5@[i].0 < d.5@[i + 1].0 by {
        assert(d.5@[i].0 < d.5@[i + 1].0);
    }
    assert forall|i: int| 0 <= i < d.6@.len() - 1 implies #[trigger] d.6@[i].0 < d.6@[i + 1].0 by {
        assert(d.6@[i].0 < d.6@[i + 1].0);
    }
    assert forall|i: int| 0 <= i < d.2@.len() - 1 implies pair_lt(
        #[trigger] d.2@[i].0 as int,
        d.2@[i].1 as int,
        d.2@[i + 1].0 as int,
        d.2@[i + 1].1 as int,
    ) by {
        assert(pair_lt(d.2@[i].0 as int, d.2@[i].1 as int, d.2@[i + 1].0 as int, d.2@[i + 1].1 as int));
    }
    assert forall|i: int| 0 <= i < d.3@.len() - 1 implies pair_lt(
        #[trigger] d.3@[i].0 as int,
        d.3@[i].1 as int,
        d.3@[i + 1].0 as int,
        d.3@[i + 1].1 as int,
    ) by {
        assert(pair_lt(d.3@[i].0 as int, d.3@[i].1 as int, d.3@[i + 1].0 as int, d.3@[i + 1].1 as int));
    }
    assert forall|i: int| 0 <= i < d.4@.len() - 1 implies pair_lt(
        #[trigger] d.4@[i].0 as int,
        d.4@[i].1 as int,
        d.4@[i + 1].0 as int,
        d.4@[i + 1].1 as int,
    ) by {
        assert(pair_lt(d.4@[i].0 as int, d.4@[i].1 as int, d.4@[i + 1].0 as int, d.4@[i + 1].1 as int));
    }
}

/// No entry of any table has the region `ZZ`: a value with that region has
/// it cleared.
pub proof fn lemma_no_unknown_region(p: Seq<(Seq<u8>, Seq<u8>)>, d: LikelySubtagsData)
    requires
        tables_match(p, d),
    ensures
        forall|i: int| 0 <= i < d.1@.len() ==> (#[trigger] d.1@[i]).1.2 != Some(UNKNOWN_REGION),
        forall|i: int| 0 <= i < d.2@.len() ==> (#[trigger] d.2@[i]).2.2 != Some(UNKNOWN_REGION),
        forall|i: int| 0 <= i < d.3@.len() ==> (#[trigger] d.3@[i]).2.2 != Some(UNKNOWN_REGION),
        forall|i: int| 0 <= i < d.4@.len() ==> (#[trigger] d.4@[i]).2.2 != Some(UNKNOWN_REGION),
        forall|i: int| 0 <= i < d.5@.len() ==> (#[trigger] d.5@[i]).1.2 != Some(UNKNOWN_REGION),
        forall|i: int| 0 <= i < d.6@.len() ==> (#[trigger] d.6@[i]).1.2 != Some(UNKNOWN_REGION),
{
    let n = p.len() as int;
    assert forall|i: int| 0 <= i < d.1@.len() implies (#[trigger] d.1@[i]).1.2 != Some(UNKNOWN_REGION) by {
        let e = d.1@[i];
        assert(d.1@.contains((e.0, e.1)));
        let j = choose|j: int| 0 <= j < n && #[trigger] rule_pattern(p[j].0) == KeyPattern::LangOnly(e.0) && rule_value(p[j].1) == e.1;
    }
    assert forall|i: int| 0 <= i < d.2@.len() implies (#[trigger] d.2@[i]).2.2 != Some(UNKNOWN_REGION) by {
        let e = d.2@[i];
        assert(d.2@.contains((e.0, e.1, e.2)));
        let j = choose|j: int| 0 <= j < n && #[trigger] rule_pattern(p[j].0) == KeyPattern::LangRegion(e.0, e.1) && rule_value(p[j].1) == e.2;
    }
    assert forall|i: int| 0 <= i < d.3@.len() implies (#[trigger] d.3@[i]).2.2 != Some(UNKNOWN_REGION) by {
        let e = d.3@[i];
        assert(d.3@.contains((e.0, e.1, e.2)));
        let j = choose|j: int| 0 <= j < n && #[trigger] rule_pattern(p[j].0) == KeyPattern::LangScript(e.0, e.1) && rule_value(p[j].1) == e.2;
    }
    assert forall|i: int| 0 <= i < d.4@.len() implies (#[trigger] d.4@[i]).2.2 != Some(UNKNOWN_REGION) by {
        let e = d.4@[i];
        assert(d.4@.contains((e.0, e.1, e.2)));
        let j = choose|j: int| 0 <= j < n && #[trigger] rule_pattern(p[j].0) == KeyPattern::ScriptRegion(e.0, e.1) && rule_value(p[j].1) == e.2;
    }
    assert forall|i: int| 0 <= i < d.5@.len() implies (#[trigger] d.5@[i]).1.2 != Some(UNKNOWN_REGION) by {
        let e = d.5@[i];
        assert(d.5@.contains((e.0, e.1)));
        let j = choose|j: int| 0 <= j < n && #[trigger] rule_pattern(p[j].0) == KeyPattern::RegionOnly(e.0) && rule_value(p[j].1) == e.1;
    }
    assert forall|i: int| 0 <= i < d.6@.len() implies (#[trigger] d.6@[i]).1.2 != Some(UNKNOWN_REGION) by {
        let e = d.6@[i];
        assert(d.6@.contains((e.0, e.1)));
        let j = choose|j: int| 0 <= j < n && #[trigger] rule_pattern(p[j].0) == KeyPattern::ScriptOnly(e.0) && rule_value(p[j].1) == e.1;
    }
}

} // verus!
