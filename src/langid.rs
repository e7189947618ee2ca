//! Reading a language identifier (`language[-script][-region][-variant]*`,
//! subtags separated by `-` or `_`) into the codes of its first three parts.
use crate::codec::{
    all_alnum, all_alnum_exec, all_alpha, all_digit, encode_language, encode_region,
    encode_script, is_alnum, is_alpha, is_digit, language_code, lower, region_code, script_code,
};
use vstd::prelude::*;

verus! {

/// The codes of a language identifier's language, script and region; `None`
/// where the identifier has no such part.
pub type LangIdSubTags = (Option<u64>, Option<u32>, Option<u32>);

pub open spec fn is_sep(c: u8) -> bool {
    c == 45 || c == 95
}

/// Splits `b[i..]` on separators, `cur` being the part read so far and `acc`
/// the parts already closed.
pub open spec fn split_from(b: Seq<u8>, i: int, cur: Seq<u8>, acc: Seq<Seq<u8>>) -> Seq<Seq<u8>>
    decreases b.len() - i,
{
    if i >= b.len() {
        acc.push(cur)
    } else if is_sep(b[i]) {
        split_from(b, i + 1, Seq::empty(), acc.push(cur))
    } else {
        split_from(b, i + 1, cur.push(b[i]), acc)
    }
}

/// The subtags of `b`: the maximal runs between separators.
pub open spec fn subtags(b: Seq<u8>) -> Seq<Seq<u8>> {
    split_from(b, 0, Seq::empty(), Seq::empty())
}

pub open spec fn language_shape(s: Seq<u8>) -> bool {
    ((2 <= s.len() <= 3) || (5 <= s.len() <= 8)) && all_alpha(s)
}

pub open spec fn script_shape(s: Seq<u8>) -> bool {
    s.len() == 4 && all_alpha(s)
}

pub open spec fn region_shape(s: Seq<u8>) -> bool {
    (s.len() == 2 && all_alpha(s)) || (s.len() == 3 && all_digit(s))
}

pub open spec fn variant_shape(s: Seq<u8>) -> bool {
    ((5 <= s.len() <= 8) && all_alnum(s)) || (s.len() == 4 && is_digit(s[0]) && all_alnum(s))
}

/// The undetermined language `und`, in any case.
pub open spec fn is_und(s: Seq<u8>) -> bool {
    lower(s) =~= seq![117u8, 110u8, 100u8]
}

/// Reads the subtags of an identifier: a language (`und` standing for none),
/// then an optional script, then an optional region, then variants, which are
/// checked and left out. `None` where a subtag is out of place or malformed.
pub open spec fn parse_parts(p: Seq<Seq<u8>>) -> Option<LangIdSubTags> {
    if p.len() == 0 || !language_shape(p[0]) {
        None
    } else {
        let has_script = p.len() > 1 && script_shape(p[1]);
        let i1: int = if has_script { 2 } else { 1 };
        let has_region = p.len() > i1 && region_shape(p[i1]);
        let i2: int = if has_region { i1 + 1 } else { i1 };
        if forall|k: int| i2 <= k < p.len() ==> variant_shape(#[trigger] p[k]) {
            Some(
                (
                    if is_und(p[0]) {
                        None
                    } else {
                        Some(language_code(p[0]) as u64)
                    },
                    if has_script {
                        Some(script_code(p[1]) as u32)
                    } else {
                        None
                    },
                    if has_region {
                        Some(region_code(p[i1]) as u32)
                    } else {
                        None
                    },
                ),
            )
        } else {
            None
        }
    }
}

/// What an identifier written as `b` reads as.
#[verifier::opaque]
pub open spec fn parse_spec(b: Seq<u8>) -> Option<LangIdSubTags> {
    parse_parts(subtags(b))
}

pub open spec fn views(v: Seq<Vec<u8>>) -> Seq<Seq<u8>> {
    v.map_values(|x: Vec<u8>| x@)
}

fn split_subtags(b: &[u8]) -> (r: Vec<Vec<u8>>)
    ensures
        views(r@) == subtags(b@),
{
    let mut acc: Vec<Vec<u8>> = Vec::new();
    let mut cur: Vec<u8> = Vec::new();
    let mut i: usize = 0;
    assert(views(acc@) =~= Seq::<Seq<u8>>::empty());
    assert(cur@ =~= Seq::<u8>::empty());
    while i < b.len()
        invariant
            i <= b@.len(),
            split_from(b@, i as int, cur@, views(acc@)) == subtags(b@),
        decreases b@.len() - i,
    {
        let c = b[i];
        if c == 45 || c == 95 {
            let ghost old_acc = views(acc@);
            let piece = cur;
            acc.push(piece);
            assert(views(acc@) =~= old_acc.push(piece@));
            cur = Vec::new();
            assert(cur@ =~= Seq::<u8>::empty());
        } else {
            cur.push(c);
        }
        i = i + 1;
    }
    let ghost old_acc = views(acc@);
    let last = cur;
    acc.push(last);
    assert(views(acc@) =~= old_acc.push(last@));
    acc
}

fn all_alpha_exec(b: &[u8]) -> (r: bool)
    ensures
        r == all_alpha(b@),
{
    let mut i: usize = 0;
    while i < b.len()
        invariant
            i <= b@.len(),
            forall|j: int| 0 <= j < i ==> is_alpha(#[trigger] b@[j]),
        decreases b@.len() - i,
    {
        let c = b[i];
        if !((65 <= c && c <= 90) || (97 <= c && c <= 122)) {
            return false;
        }
        i = i + 1;
    }
    true
}

fn all_digit_exec(b: &[u8]) -> (r: bool)
    ensures
        r == all_digit(b@),
{
    let mut i: usize = 0;
    while i < b.len()
        invariant
            i <= b@.len(),
            forall|j: int| 0 <= j < i ==> is_digit(#[trigger] b@[j]),
        decreases b@.len() - i,
    {
        let c = b[i];
        if !(48 <= c && c <= 57) {
            return false;
        }
        i = i + 1;
    }
    true
}

fn language_shape_exec(s: &[u8]) -> (r: bool)
    ensures
        r == language_shape(s@),
{
    ((2 <= s.len() && s.len() <= 3) || (5 <= s.len() && s.len() <= 8)) && all_alpha_exec(s)
}

fn script_shape_exec(s: &[u8]) -> (r: bool)
    ensures
        r == script_shape(s@),
{
    s.len() == 4 && all_alpha_exec(s)
}

fn region_shape_exec(s: &[u8]) -> (r: bool)
    ensures
        r == region_shape(s@),
{
    (s.len() == 2 && all_alpha_exec(s)) || (s.len() == 3 && all_digit_exec(s))
}

fn variant_shape_exec(s: &[u8]) -> (r: bool)
    ensures
        r == variant_shape(s@),
{
    ((5 <= s.len() && s.len() <= 8) && all_alnum_exec(s)) || (s.len() == 4 && 48 <= s[0] && s[0]
        <= 57 && all_alnum_exec(s))
}

fn is_und_exec(s: &[u8]) -> (r: bool)
    ensures
        r == is_und(s@),
{
    if s.len() != 3 {
        return false;
    }
    let r = (s[0] == 117 || s[0] == 85) && (s[1] == 110 || s[1] == 78) && (s[2] == 100 || s[2]
        == 68);
    assert(lower(s@).len() == 3);
    if r {
        assert(lower(s@) =~= seq![117u8, 110u8, 100u8]);
    } else {
        assert(lower(s@)[0] != 117u8 || lower(s@)[1] != 110u8 || lower(s@)[2] != 100u8);
    }
    r
}

proof fn lemma_alpha_is_alnum(s: Seq<u8>)
    requires
        all_alpha(s) || all_digit(s),
    ensures
        all_alnum(s),
{
    assert forall|i: int| 0 <= i < s.len() implies is_alnum(#[trigger] s[i]) by {
        if all_alpha(s) {
            assert(is_alpha(s[i]));
        } else {
            assert(is_digit(s[i]));
        }
    }
}

/// Reads a language identifier written as bytes; `None` where it is malformed.
pub fn parse_langid(b: &[u8]) -> (r: Option<LangIdSubTags>)
    ensures
        r == parse_spec(b@),
{
    proof {
        reveal(parse_spec);
    }
    let parts = split_subtags(b);
    let ghost p = views(parts@);
    assert(p.len() == parts@.len());
    if parts.len() == 0 {
        return None;
    }
    assert(p[0] == parts@[0]@);
    if !language_shape_exec(parts[0].as_slice()) {
        return None;
    }
    let has_script = parts.len() > 1 && script_shape_exec(parts[1].as_slice());
    let i1: usize = if has_script {
        2
    } else {
        1
    };
    assert(parts.len() > 1 ==> p[1] == parts@[1]@);
    assert(parts.len() > i1 ==> p[i1 as int] == parts@[i1 as int]@);
    let has_region = parts.len() > i1 && region_shape_exec(parts[i1].as_slice());
    let i2: usize = if has_region {
        i1 + 1
    } else {
        i1
    };
    assert(has_script == (p.len() > 1 && script_shape(p[1])));
    assert(has_region == (p.len() > i1 && region_shape(p[i1 as int])));
    let mut k: usize = i2;
    while k < parts.len()
        invariant
            i2 <= k <= parts@.len(),
            p == views(parts@),
            p == subtags(b@),
            p.len() == parts@.len(),
            p.len() > 0,
            language_shape(p[0]),
            has_script == (p.len() > 1 && script_shape(p[1])),
            i1 == (if has_script { 2usize } else { 1usize }),
            has_region == (p.len() > i1 && region_shape(p[i1 as int])),
            i2 == (if has_region { i1 + 1 } else { i1 as int }),
            forall|j: int| i2 <= j < k ==> variant_shape(#[trigger] p[j]),
        decreases parts@.len() - k,
    {
        assert(p[k as int] == parts@[k as int]@);
        if !variant_shape_exec(parts[k].as_slice()) {
            assert(!variant_shape(p[k as int]));
            assert(!(forall|j: int| i2 <= j < p.len() ==> variant_shape(#[trigger] p[j])));
            assert(parse_parts(p).is_none());
            proof {
                reveal(parse_spec);
            }
            return None;
        }
        k = k + 1;
    }
    let language = if is_und_exec(parts[0].as_slice()) {
        None
    } else {
        proof {
            lemma_alpha_is_alnum(p[0]);
        }
        match encode_language(parts[0].as_slice()) {
            Some(v) => Some(v),
            None => None,
        }
    };
    let script = if has_script {
        proof {
            lemma_alpha_is_alnum(p[1]);
        }
        encode_script(parts[1].as_slice())
    } else {
        None
    };
    let region = if has_region {
        proof {
            lemma_alpha_is_alnum(p[i1 as int]);
        }
        encode_region(parts[i1].as_slice())
    } else {
        None
    };
    Some((language, script, region))
}

} // verus!
