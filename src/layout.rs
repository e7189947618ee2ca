//! The set of languages written right to left, from per-locale layout data.
use crate::error::GenError;
use crate::langid::{parse_langid, parse_spec};
use vstd::prelude::*;

verus! {

/// The language code of `und`, standing for a locale without a language.
pub const UND_LANGUAGE: u64 = 6581877;

/// The order in which a locale's characters are written.
#[derive(Debug, Clone, Copy, PartialEq, Eq, Structural)]
pub enum CharacterDirection {
    LTR,
    RTL,
}

/// One locale's layout document: its name, the data version it reports and
/// its character order.
pub struct LayoutDoc {
    pub locale: Vec<u8>,
    pub version: String,
    pub character_order: String,
}

/// The sentinel locale `root`, which has no language.
pub open spec fn is_root(b: Seq<u8>) -> bool {
    b =~= seq![114u8, 111u8, 111u8, 116u8]
}

/// The direction that a character order names, if it names one.
pub open spec fn direction_spec(o: Seq<char>) -> Option<CharacterDirection> {
    if o == "right-to-left"@ {
        Some(CharacterDirection::RTL)
    } else if o == "left-to-right"@ {
        Some(CharacterDirection::LTR)
    } else {
        None
    }
}

/// The language code of a locale name, `und` where it has no language.
pub open spec fn locale_language(b: Seq<u8>) -> u64 {
    match parse_spec(b) {
        Some(t) => match t.0 {
            Some(l) => l,
            None => UND_LANGUAGE,
        },
        None => UND_LANGUAGE,
    }
}

/// A document other than `root`.
pub open spec fn counted(d: LayoutDoc) -> bool {
    !is_root(d.locale@)
}

/// A document whose name reads and whose character order is known.
pub open spec fn doc_ok(d: LayoutDoc) -> bool {
    parse_spec(d.locale@) is Some && direction_spec(d.character_order@) is Some
}

/// The language and direction that a document reports.
pub open spec fn doc_entry(d: LayoutDoc) -> (u64, CharacterDirection) {
    (locale_language(d.locale@), direction_spec(d.character_order@)->0)
}

/// Some counted document among the first `n` reports `e`.
pub open spec fn reported(docs: Seq<LayoutDoc>, n: int, e: (u64, CharacterDirection)) -> bool {
    exists|j: int| 0 <= j < n && counted(docs[j]) && #[trigger] doc_entry(docs[j]) == e
}

/// The layout data is usable: every counted document reads, all of them
/// report one version and each language one direction, and there is at least
/// one of them.
pub open spec fn layout_ok(docs: Seq<LayoutDoc>) -> bool {
    &&& forall|j: int| 0 <= j < docs.len() && counted(docs[j]) ==> doc_ok(#[trigger] docs[j])
    &&& forall|a: int, b: int|
        0 <= a < docs.len() && 0 <= b < docs.len() && counted(docs[a]) && counted(docs[b])
            ==> #[trigger] docs[a].version@ == #[trigger] docs[b].version@
    &&& forall|a: int, b: int|
        0 <= a < docs.len() && 0 <= b < docs.len() && counted(docs[a]) && counted(docs[b])
            && doc_entry(docs[a]).0 == doc_entry(docs[b]).0 ==> #[trigger] doc_entry(
            docs[a],
        ).1 == #[trigger] doc_entry(docs[b]).1
    &&& exists|j: int| 0 <= j < docs.len() && #[trigger] counted(docs[j])
}

pub open spec fn strictly_sorted(s: Seq<u64>) -> bool {
    forall|i: int, j: int| 0 <= i < j < s.len() ==> #[trigger] s[i] < #[trigger] s[j]
}

/// Reads a character order.
pub fn parse_direction(order: &String) -> (r: Result<CharacterDirection, GenError>)
    ensures
        direction_spec(order@) matches Some(d) ==> r == Ok::<CharacterDirection, GenError>(d),
        direction_spec(order@) is None ==> (r matches Err(GenError::UnknownDirection(o)) && o@
            == order@),
{
    let rtl = String::from_str("right-to-left");
    let ltr = String::from_str("left-to-right");
    if *order == rtl {
        Ok(CharacterDirection::RTL)
    } else if *order == ltr {
        Ok(CharacterDirection::LTR)
    } else {
        Err(GenError::UnknownDirection(order.clone()))
    }
}

fn is_root_exec(b: &[u8]) -> (r: bool)
    ensures
        r == is_root(b@),
{
    let r = b.len() == 4 && b[0] == 114 && b[1] == 111 && b[2] == 111 && b[3] == 116;
    if !r && b.len() == 4 {
        assert(b@[0] != 114u8 || b@[1] != 111u8 || b@[2] != 111u8 || b@[3] != 116u8);
    }
    r
}

/// Whether every entry for language `lang` is right to left.
pub fn check_all_variants_rtl(map: &Vec<(u64, CharacterDirection)>, lang: u64) -> (r: bool)
    ensures
        r == forall|j: int|
            0 <= j < map@.len() && #[trigger] map@[j].0 == lang ==> map@[j].1
                == CharacterDirection::RTL,
{
    let mut i: usize = 0;
    while i < map.len()
        invariant
            i <= map@.len(),
            forall|j: int|
                0 <= j < i && #[trigger] map@[j].0 == lang ==> map@[j].1 == CharacterDirection::RTL,
        decreases map@.len() - i,
    {
        if map[i].0 == lang && map[i].1 != CharacterDirection::RTL {
            return false;
        }
        i = i + 1;
    }
    true
}

/// Adds `x` to a strictly sorted list unless it is there.
fn insert_sorted(s: &mut Vec<u64>, x: u64)
    requires
        strictly_sorted(old(s)@),
    ensures
        strictly_sorted(final(s)@),
        forall|y: u64| #[trigger] final(s)@.contains(y) <==> (old(s)@.contains(y) || y == x),
{
    let mut i: usize = 0;
    while i < s.len() && s[i] < x
        invariant
            i <= s@.len(),
            forall|j: int| 0 <= j < i ==> #[trigger] s@[j] < x,
        decreases s@.len() - i,
    {
        i = i + 1;
    }
    if i < s.len() && s[i] == x {
        return;
    }
    proof {
        assert forall|j: int| i <= j < s@.len() implies #[trigger] s@[j] > x by {
            if j > i {
                assert(s@[i as int] < s@[j]);
            }
        }
    }
    let ghost before = s@;
    s.insert(i, x);
    proof {
        assert(s@ == before.insert(i as int, x));
        assert forall|y: u64| #[trigger] s@.contains(y) <==> (before.contains(y) || y == x) by {
            if s@.contains(y) {
                let k = choose|k: int| 0 <= k < s@.len() && s@[k] == y;
                if k < i {
                    assert(before[k] == y);
                } else if k > i {
                    assert(before[k - 1] == y);
                }
            }
            if before.contains(y) {
                let k = choose|k: int| 0 <= k < before.len() && before[k] == y;
                if k < i {
                    assert(s@[k] == y);
                } else {
                    assert(s@[k + 1] == y);
                }
            }
            if y == x {
                assert(s@[i as int] == y);
            }
        }
    }
}

/// What an error from reading the layout data says of it: it names a
/// document at fault, or a language whose documents disagree.
pub open spec fn layout_error_spec(docs: Seq<LayoutDoc>, e: GenError) -> bool {
    match e {
        GenError::InvalidLocale(b) => exists|j: int|
            0 <= j < docs.len() && counted(docs[j]) && #[trigger] docs[j].locale@ == b@
                && parse_spec(b@) is None,
        GenError::UnknownDirection(o) => exists|j: int|
            0 <= j < docs.len() && counted(docs[j]) && #[trigger] docs[j].character_order@ == o@
                && direction_spec(o@) is None,
        GenError::VersionMismatch => exists|a: int, b: int|
            0 <= a < docs.len() && 0 <= b < docs.len() && counted(docs[a]) && counted(docs[b])
                && #[trigger] docs[a].version@ != #[trigger] docs[b].version@,
        GenError::DirectionConflict(l) => exists|a: int, b: int|
            0 <= a < docs.len() && 0 <= b < docs.len() && counted(docs[a]) && counted(docs[b])
                && #[trigger] doc_entry(docs[a]) == (l, CharacterDirection::RTL) && #[trigger] doc_entry(
                docs[b],
            ) == (l, CharacterDirection::LTR),
        GenError::MissingVersion => forall|j: int| 0 <= j < docs.len() ==> !counted(#[trigger] docs[j]),
        _ => false,
    }
}

/// The data version and the sorted set of right-to-left languages of the
/// layout documents. `root` is passed over. Fails where a document is at fault,
/// where two documents report different versions, where a language is reported
/// in both directions, or where no document is left.
pub fn rtl_languages(docs: &Vec<LayoutDoc>) -> (r: Result<(String, Vec<u64>), GenError>)
    ensures
        (r is Ok) == layout_ok(docs@),
        r matches Ok(res) ==> {
            &&& strictly_sorted(res.1@)
            &&& forall|l: u64| #[trigger]
                res.1@.contains(l) <==> reported(docs@, docs@.len() as int, (l, CharacterDirection::RTL))
            &&& exists|j: int| 0 <= j < docs@.len() && counted(docs@[j]) && #[trigger] docs@[j].version@ == res.0@
        },
        r matches Err(e) ==> layout_error_spec(docs@, e),
{
    let mut langs: Vec<(u64, CharacterDirection)> = Vec::new();
    let mut version: Option<String> = None;
    let ghost mut first: int = 0;
    let mut i: usize = 0;
    while i < docs.len()
        invariant
            i <= docs@.len(),
            forall|j: int| 0 <= j < i && counted(docs@[j]) ==> doc_ok(#[trigger] docs@[j]),
            forall|e: (u64, CharacterDirection)| #[trigger]
                langs@.contains(e) <==> reported(docs@, i as int, e),
            version is None ==> forall|j: int| 0 <= j < i ==> !counted(#[trigger] docs@[j]),
            version matches Some(v) ==> {
                &&& 0 <= first < i
                &&& counted(docs@[first])
                &&& forall|j: int|
                    0 <= j < i && counted(docs@[j]) ==> #[trigger] docs@[j].version@ == v@
                &&& docs@[first].version@ == v@
            },
        decreases docs@.len() - i,
    {
        let d = &docs[i];
        if is_root_exec(d.locale.as_slice()) {
            proof {
                assert forall|e: (u64, CharacterDirection)| #[trigger]
                    reported(docs@, i + 1, e) == reported(docs@, i as int, e) by {
                    if reported(docs@, i + 1, e) {
                        let j = choose|j: int|
                            0 <= j < i + 1 && counted(docs@[j]) && #[trigger] doc_entry(docs@[j]) == e;
                        assert(j < i);
                    }
                }
            }
            i = i + 1;
            continue;
        }
        let parsed = parse_langid(d.locale.as_slice());
        let lang = match parsed {
            Some(t) => match t.0 {
                Some(l) => l,
                None => UND_LANGUAGE,
            },
            None => {
                let e = d.locale.clone();
                assert(e@ == docs@[i as int].locale@);
                assert(!doc_ok(docs@[i as int]));
                return Err(GenError::InvalidLocale(e));
            },
        };
        let dir = match parse_direction(&d.character_order) {
            Ok(x) => x,
            Err(e) => {
                assert(!doc_ok(docs@[i as int]));
                assert(docs@[i as int].character_order@ == d.character_order@);
                return Err(e);
            },
        };
        match &version {
            Some(v) => {
                if *v != d.version {
                    assert(docs@[first].version@ != docs@[i as int].version@);
                    return Err(GenError::VersionMismatch);
                }
            },
            None => {
                version = Some(d.version.clone());
                proof {
                    first = i as int;
                }
            },
        }
        let ghost before = langs@;
        assert(doc_entry(docs@[i as int]) == (lang, dir));
        langs.push((lang, dir));
        proof {
            assert forall|e: (u64, CharacterDirection)| #[trigger]
                langs@.contains(e) <==> reported(docs@, i + 1, e) by {
                if reported(docs@, i + 1, e) {
                    let j = choose|j: int|
                        0 <= j < i + 1 && counted(docs@[j]) && #[trigger] doc_entry(docs@[j]) == e;
                    if j < i {
                        assert(reported(docs@, i as int, e));
                        assert(before.contains(e));
                        let k = choose|k: int| 0 <= k < before.len() && before[k] == e;
                        assert(langs@[k] == e);
                    } else {
                        assert(langs@[before.len() as int] == e);
                    }
                }
                if langs@.contains(e) {
                    let k = choose|k: int| 0 <= k < langs@.len() && langs@[k] == e;
                    if k < before.len() {
                        assert(before.contains(e));
                    } else {
                        assert(doc_entry(docs@[i as int]) == e);
                    }
                }
            }
        }
        i = i + 1;
    }
    let version = match version {
        Some(v) => v,
        None => {
            return Err(GenError::MissingVersion);
        },
    };
    let mut set: Vec<u64> = Vec::new();
    let mut k: usize = 0;
    while k < langs.len()
        invariant
            k <= langs@.len(),
            strictly_sorted(set@),
            forall|e: (u64, CharacterDirection)| #[trigger]
                langs@.contains(e) <==> reported(docs@, docs@.len() as int, e),
            forall|j: int|
                0 <= j < k && #[trigger] langs@[j].1 == CharacterDirection::RTL ==> forall|m: int|
                    0 <= m < langs@.len() && langs@[m].0 == langs@[j].0 ==> #[trigger] langs@[m].1
                        == CharacterDirection::RTL,
            forall|l: u64| #[trigger]
                set@.contains(l) <==> exists|j: int|
                    0 <= j < k && #[trigger] langs@[j] == (l, CharacterDirection::RTL),
        decreases langs@.len() - k,
    {
        let (l, dir) = langs[k];
        if dir == CharacterDirection::RTL {
            if !check_all_variants_rtl(&langs, l) {
                proof {
                    let m = choose|m: int|
                        0 <= m < langs@.len() && #[trigger] langs@[m].0 == l && langs@[m].1
                            != CharacterDirection::RTL;
                    assert(langs@.contains(langs@[k as int]));
                    assert(langs@.contains(langs@[m]));
                    assert(langs@[m] == (l, CharacterDirection::LTR));
                    assert(reported(docs@, docs@.len() as int, (l, CharacterDirection::RTL)));
                    assert(reported(docs@, docs@.len() as int, (l, CharacterDirection::LTR)));
                    let a = choose|a: int|
                        0 <= a < docs@.len() && counted(docs@[a]) && #[trigger] doc_entry(docs@[a])
                            == (l, CharacterDirection::RTL);
                    let b = choose|b: int|
                        0 <= b < docs@.len() && counted(docs@[b]) && #[trigger] doc_entry(docs@[b])
                            == (l, CharacterDirection::LTR);
                    assert(doc_entry(docs@[a]).1 != doc_entry(docs@[b]).1);
                }
                return Err(GenError::DirectionConflict(l));
            }
            insert_sorted(&mut set, l);
        }
        proof {
            assert forall|l2: u64| #[trigger]
                set@.contains(l2) <==> exists|j: int|
                    0 <= j < k + 1 && #[trigger] langs@[j] == (l2, CharacterDirection::RTL) by {
                if exists|j: int| 0 <= j < k + 1 && #[trigger] langs@[j] == (l2, CharacterDirection::RTL) {
                    let j = choose|j: int| 0 <= j < k + 1 && #[trigger] langs@[j] == (l2, CharacterDirection::RTL);
                    if j < k {
                        assert(exists|j2: int| 0 <= j2 < k && #[trigger] langs@[j2] == (l2, CharacterDirection::RTL));
                    }
                }
            }
        }
        k = k + 1;
    }
    proof {
        assert forall|a: int, b: int|
            0 <= a < docs@.len() && 0 <= b < docs@.len() && counted(docs@[a]) && counted(docs@[b])
                && doc_entry(docs@[a]).0 == doc_entry(docs@[b]).0 implies #[trigger] doc_entry(
            docs@[a],
        ).1 == #[trigger] doc_entry(docs@[b]).1 by {
            assert(reported(docs@, docs@.len() as int, doc_entry(docs@[a])));
            assert(reported(docs@, docs@.len() as int, doc_entry(docs@[b])));
            assert(langs@.contains(doc_entry(docs@[a])));
            assert(langs@.contains(doc_entry(docs@[b])));
            let ka = choose|ka: int| 0 <= ka < langs@.len() && langs@[ka] == doc_entry(docs@[a]);
            let kb = choose|kb: int| 0 <= kb < langs@.len() && langs@[kb] == doc_entry(docs@[b]);
            if langs@[ka].1 == CharacterDirection::RTL {
                assert(langs@[kb].1 == CharacterDirection::RTL);
            } else if langs@[kb].1 == CharacterDirection::RTL {
                assert(langs@[ka].1 == CharacterDirection::RTL);
            }
        }
        assert forall|l: u64| #[trigger]
            set@.contains(l) <==> reported(docs@, docs@.len() as int, (l, CharacterDirection::RTL)) by {
            if set@.contains(l) {
                let j = choose|j: int| 0 <= j < langs@.len() && #[trigger] langs@[j] == (l, CharacterDirection::RTL);
                assert(langs@.contains(langs@[j]));
            }
            if reported(docs@, docs@.len() as int, (l, CharacterDirection::RTL)) {
                assert(langs@.contains((l, CharacterDirection::RTL)));
                let j = choose|j: int| 0 <= j < langs@.len() && langs@[j] == (l, CharacterDirection::RTL);
                assert(exists|j2: int| 0 <= j2 < langs@.len() && #[trigger] langs@[j2] == (l, CharacterDirection::RTL));
            }
        }
    }
    Ok((version, set))
}

/// Whether `subtag` is in a strictly sorted set of language codes, by binary
/// search.
pub fn is_rtl(set: &Vec<u64>, subtag: u64) -> (r: bool)
    requires
        strictly_sorted(set@),
    ensures
        r == set@.contains(subtag),
{
    let mut lo: usize = 0;
    let mut hi: usize = set.len();
    while lo < hi
        invariant
            lo <= hi <= set@.len(),
            strictly_sorted(set@),
            forall|i: int| 0 <= i < lo ==> #[trigger] set@[i] < subtag,
            forall|i: int| hi <= i < set@.len() ==> #[trigger] set@[i] > subtag,
        decreases hi - lo,
    {
        let mid = lo + (hi - lo) / 2;
        if set[mid] == subtag {
            assert(set@[mid as int] == subtag);
            return true;
        } else if set[mid] < subtag {
            proof {
                assert forall|i: int| 0 <= i < mid + 1 implies #[trigger] set@[i] < subtag by {
                    if i < mid {
                        assert(set@[i] < set@[mid as int]);
                    }
                }
            }
            lo = mid + 1;
        } else {
            proof {
                assert forall|i: int| mid <= i < set@.len() implies #[trigger] set@[i] > subtag by {
                    if i > mid {
                        assert(set@[mid as int] < set@[i]);
                    }
                }
            }
            hi = mid;
        }
    }
    proof {
        if set@.contains(subtag) {
            let k = choose|k: int| 0 <= k < set@.len() && set@[k] == subtag;
            assert(set@[k] == subtag);
        }
    }
    false
}

} // verus!
