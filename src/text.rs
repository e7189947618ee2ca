//! Writing the tables out as Rust source text.
use crate::error::GenError;
use crate::langid::LangIdSubTags;
use crate::layout::{
    counted, layout_error_spec, layout_ok, reported, rtl_languages, strictly_sorted,
    CharacterDirection, LayoutDoc,
};
use crate::likely::{
    distinct_keys, get_likely_subtags_data, likely_error_spec, rule_views, rules_ok, tables_match,
    LikelySubtagsData, Resource,
};
use vstd::prelude::*;

verus! {

pub open spec fn digit_char(d: nat) -> char {
    if d == 0 { '0' } else if d == 1 { '1' } else if d == 2 { '2' } else if d == 3 { '3' }
    else if d == 4 { '4' } else if d == 5 { '5' } else if d == 6 { '6' } else if d == 7 { '7' }
    else if d == 8 { '8' } else { '9' }
}

/// The decimal digits of `n`, without leading zeros.
pub open spec fn decimal(n: nat) -> Seq<char>
    decreases n,
{
    if n < 10 {
        seq![digit_char(n)]
    } else {
        decimal(n / 10).push(digit_char(n % 10))
    }
}

/// Relies on `ToString` for `u64` (through `Display`): the decimal digits of
/// the number, without sign or leading zeros.
#[verifier::external_body]
fn u64_to_string(n: u64) -> (r: String)
    ensures
        r@ == decimal(n as nat),
{
    n.to_string()
}

pub open spec fn option_text(x: Option<nat>) -> Seq<char> {
    match x {
        Some(v) => "Some("@ + decimal(v) + ")"@,
        None => "None"@,
    }
}

pub open spec fn lift64(x: Option<u64>) -> Option<nat> {
    match x {
        Some(v) => Some(v as nat),
        None => None,
    }
}

pub open spec fn lift32(x: Option<u32>) -> Option<nat> {
    match x {
        Some(v) => Some(v as nat),
        None => None,
    }
}

/// The text of an entry value: `(language, script, region)`.
pub open spec fn val_text(v: LangIdSubTags) -> Seq<char> {
    "("@ + option_text(lift64(v.0)) + ", "@ + option_text(lift32(v.1)) + ", "@ + option_text(
        lift32(v.2),
    ) + ")"@
}

fn option_to_text(x: Option<u64>) -> (r: String)
    ensures
        r@ == option_text(lift64(x)),
{
    match x {
        Some(v) => {
            let mut s = String::from_str("Some(");
            let d = u64_to_string(v);
            s.append(d.as_str());
            s.append(")");
            s
        },
        None => String::from_str("None"),
    }
}

/// Writes an optional language code.
pub fn serialize_lang_option(l: Option<u64>) -> (r: String)
    ensures
        r@ == option_text(lift64(l)),
{
    option_to_text(l)
}

/// Writes an optional script code.
pub fn serialize_script_option(s: Option<u32>) -> (r: String)
    ensures
        r@ == option_text(lift32(s)),
{
    let w: Option<u64> = match s {
        Some(v) => Some(v as u64),
        None => None,
    };
    option_to_text(w)
}

/// Writes an optional region code.
pub fn serialize_region_option(r: Option<u32>) -> (t: String)
    ensures
        t@ == option_text(lift32(r)),
{
    let w: Option<u64> = match r {
        Some(v) => Some(v as u64),
        None => None,
    };
    option_to_text(w)
}

/// Writes an entry value.
pub fn serialize_val(input: LangIdSubTags) -> (r: String)
    ensures
        r@ == val_text(input),
{
    let mut s = String::from_str("(");
    let a = serialize_lang_option(input.0);
    s.append(a.as_str());
    s.append(", ");
    let b = serialize_script_option(input.1);
    s.append(b.as_str());
    s.append(", ");
    let c = serialize_region_option(input.2);
    s.append(c.as_str());
    s.append(")");
    s
}

/// The rows, one after another.
pub open spec fn concat(rows: Seq<Seq<char>>) -> Seq<char>
    decreases rows.len(),
{
    if rows.len() == 0 {
        Seq::empty()
    } else {
        concat(rows.drop_last()) + rows.last()
    }
}

proof fn lemma_concat_take(rows: Seq<Seq<char>>, i: int)
    requires
        0 <= i < rows.len(),
    ensures
        concat(rows.take(i + 1)) == concat(rows.take(i)) + rows[i],
{
    assert(rows.take(i + 1).drop_last() =~= rows.take(i));
}

/// The row of an entry keyed by one code.
pub open spec fn row1(k: nat, v: LangIdSubTags) -> Seq<char> {
    "    ("@ + decimal(k) + ", "@ + val_text(v) + "),\n"@
}

/// The row of an entry keyed by two codes.
pub open spec fn row2(k1: nat, k2: nat, v: LangIdSubTags) -> Seq<char> {
    "    ("@ + decimal(k1) + ", "@ + decimal(k2) + ", "@ + val_text(v) + "),\n"@
}

pub open spec fn rows1_u64(t: Seq<(u64, LangIdSubTags)>) -> Seq<Seq<char>> {
    Seq::new(t.len(), |i: int| row1(t[i].0 as nat, t[i].1))
}

pub open spec fn rows1_u32(t: Seq<(u32, LangIdSubTags)>) -> Seq<Seq<char>> {
    Seq::new(t.len(), |i: int| row1(t[i].0 as nat, t[i].1))
}

pub open spec fn rows2_u64(t: Seq<(u64, u32, LangIdSubTags)>) -> Seq<Seq<char>> {
    Seq::new(t.len(), |i: int| row2(t[i].0 as nat, t[i].1 as nat, t[i].2))
}

pub open spec fn rows2_u32(t: Seq<(u32, u32, LangIdSubTags)>) -> Seq<Seq<char>> {
    Seq::new(t.len(), |i: int| row2(t[i].0 as nat, t[i].1 as nat, t[i].2))
}

/// A table: its declaration up to the length, the length, the rest of the
/// declaration, the rows and the closing line.
pub open spec fn table_text(head: Seq<char>, n: nat, open: Seq<char>, rows: Seq<Seq<char>>) -> Seq<char> {
    head + decimal(n) + open + concat(rows) + "];\n"@
}

/// The text of the six likely-subtags tables.
pub open spec fn likely_text(d: LikelySubtagsData) -> Seq<char> {
    "#![allow(clippy::type_complexity)]\n"@ + "#![allow(clippy::unreadable_literal)]\n\n"@
        + table_text(
        "pub const LANG_ONLY: &[(u64, (Option<u64>, Option<u32>, Option<u32>)); "@,
        d.1@.len(),
        "] = &[\n"@,
        rows1_u64(d.1@),
    ) + table_text(
        "pub const LANG_REGION: [(u64, u32, (Option<u64>, Option<u32>, Option<u32>)); "@,
        d.2@.len(),
        "] = [\n"@,
        rows2_u64(d.2@),
    ) + table_text(
        "pub const LANG_SCRIPT: [(u64, u32, (Option<u64>, Option<u32>, Option<u32>)); "@,
        d.3@.len(),
        "] = [\n"@,
        rows2_u64(d.3@),
    ) + table_text(
        "pub const SCRIPT_REGION: [(u32, u32, (Option<u64>, Option<u32>, Option<u32>)); "@,
        d.4@.len(),
        "] = [\n"@,
        rows2_u32(d.4@),
    ) + table_text(
        "pub const SCRIPT_ONLY: [(u32, (Option<u64>, Option<u32>, Option<u32>)); "@,
        d.6@.len(),
        "] = [\n"@,
        rows1_u32(d.6@),
    ) + table_text(
        "pub const REGION_ONLY: [(u32, (Option<u64>, Option<u32>, Option<u32>)); "@,
        d.5@.len(),
        "] = [\n"@,
        rows1_u32(d.5@),
    )
}

fn push_decimal(s: &mut String, n: u64)
    ensures
        final(s)@ == old(s)@ + decimal(n as nat),
{
    let d = u64_to_string(n);
    s.append(d.as_str());
}

fn write_rows1_u64(s: &mut String, t: &Vec<(u64, LangIdSubTags)>)
    ensures
        final(s)@ == old(s)@ + concat(rows1_u64(t@)),
{
    let ghost s0 = s@;
    let ghost rows = rows1_u64(t@);
    let mut i: usize = 0;
    assert(rows.take(0) =~= Seq::<Seq<char>>::empty());
    while i < t.len()
        invariant
            i <= t@.len(),
            rows == rows1_u64(t@),
            rows.len() == t@.len(),
            s@ == s0 + concat(rows.take(i as int)),
        decreases t@.len() - i,
    {
        proof {
            lemma_concat_take(rows, i as int);
        }
        let ghost before = s@;
        s.append("    (");
        push_decimal(s, t[i].0 as u64);
        s.append(", ");
        s.append(serialize_val(t[i].1).as_str());
        s.append("),\n");
        assert(s@ == before + rows[i as int]);
        i = i + 1;
    }
    assert(rows.take(t@.len() as int) =~= rows);
}

fn write_rows1_u32(s: &mut String, t: &Vec<(u32, LangIdSubTags)>)
    ensures
        final(s)@ == old(s)@ + concat(rows1_u32(t@)),
{
    let ghost s0 = s@;
    let ghost rows = rows1_u32(t@);
    let mut i: usize = 0;
    assert(rows.take(0) =~= Seq::<Seq<char>>::empty());
    while i < t.len()
        invariant
            i <= t@.len(),
            rows == rows1_u32(t@),
            rows.len() == t@.len(),
            s@ == s0 + concat(rows.take(i as int)),
        decreases t@.len() - i,
    {
        proof {
            lemma_concat_take(rows, i as int);
        }
        let ghost before = s@;
        s.append("    (");
        push_decimal(s, t[i].0 as u64);
        s.append(", ");
        s.append(serialize_val(t[i].1).as_str());
        s.append("),\n");
        assert(s@ == before + rows[i as int]);
        i = i + 1;
    }
    assert(rows.take(t@.len() as int) =~= rows);
}

fn write_rows2_u64(s: &mut String, t: &Vec<(u64, u32, LangIdSubTags)>)
    ensures
        final(s)@ == old(s)@ + concat(rows2_u64(t@)),
{
    let ghost s0 = s@;
    let ghost rows = rows2_u64(t@);
    let mut i: usize = 0;
    assert(rows.take(0) =~= Seq::<Seq<char>>::empty());
    while i < t.len()
        invariant
            i <= t@.len(),
            rows == rows2_u64(t@),
            rows.len() == t@.len(),
            s@ == s0 + concat(rows.take(i as int)),
        decreases t@.len() - i,
    {
        proof {
            lemma_concat_take(rows, i as int);
        }
        let ghost before = s@;
        s.append("    (");
        push_decimal(s, t[i].0 as u64);
        s.append(", ");
        push_decimal(s, t[i].1 as u64);
        s.append(", ");
        s.append(serialize_val(t[i].2).as_str());
        s.append("),\n");
        assert(s@ == before + rows[i as int]);
        i = i + 1;
    }
    assert(rows.take(t@.len() as int) =~= rows);
}

fn write_rows2_u32(s: &mut String, t: &Vec<(u32, u32, LangIdSubTags)>)
    ensures
        final(s)@ == old(s)@ + concat(rows2_u32(t@)),
{
    let ghost s0 = s@;
    let ghost rows = rows2_u32(t@);
    let mut i: usize = 0;
    assert(rows.take(0) =~= Seq::<Seq<char>>::empty());
    while i < t.len()
        invariant
            i <= t@.len(),
            rows == rows2_u32(t@),
            rows.len() == t@.len(),
            s@ == s0 + concat(rows.take(i as int)),
        decreases t@.len() - i,
    {
        proof {
            lemma_concat_take(rows, i as int);
        }
        let ghost before = s@;
        s.append("    (");
        push_decimal(s, t[i].0 as u64);
        s.append(", ");
        push_decimal(s, t[i].1 as u64);
        s.append(", ");
        s.append(serialize_val(t[i].2).as_str());
        s.append("),\n");
        assert(s@ == before + rows[i as int]);
        i = i + 1;
    }
    assert(rows.take(t@.len() as int) =~= rows);
}

fn write_table1_u64(s: &mut String, head: &str, open: &str, t: &Vec<(u64, LangIdSubTags)>)
    ensures
        final(s)@ == old(s)@ + table_text(head@, t@.len(), open@, rows1_u64(t@)),
{
    s.append(head);
    push_decimal(s, t.len() as u64);
    s.append(open);
    write_rows1_u64(s, t);
    s.append("];\n");
}

fn write_table1_u32(s: &mut String, head: &str, open: &str, t: &Vec<(u32, LangIdSubTags)>)
    ensures
        final(s)@ == old(s)@ + table_text(head@, t@.len(), open@, rows1_u32(t@)),
{
    s.append(head);
    push_decimal(s, t.len() as u64);
    s.append(open);
    write_rows1_u32(s, t);
    s.append("];\n");
}

fn write_table2_u64(s: &mut String, head: &str, open: &str, t: &Vec<(u64, u32, LangIdSubTags)>)
    ensures
        final(s)@ == old(s)@ + table_text(head@, t@.len(), open@, rows2_u64(t@)),
{
    s.append(head);
    push_decimal(s, t.len() as u64);
    s.append(open);
    write_rows2_u64(s, t);
    s.append("];\n");
}

fn write_table2_u32(s: &mut String, head: &str, open: &str, t: &Vec<(u32, u32, LangIdSubTags)>)
    ensures
        final(s)@ == old(s)@ + table_text(head@, t@.len(), open@, rows2_u32(t@)),
{
    s.append(head);
    push_decimal(s, t.len() as u64);
    s.append(open);
    write_rows2_u32(s, t);
    s.append("];\n");
}

/// Builds the likely-subtags tables of a document and writes them out; the
/// result is the document's version and the text.
pub fn generate_likely_subtags(res: &Resource) -> (r: Result<(String, String), GenError>)
    ensures
        ({
            let p = rule_views(res.supplemental.likely_subtags@);
            &&& (r is Ok) == (rules_ok(p, p.len() as int) && distinct_keys(p, p.len() as int))
            &&& r matches Ok(out) ==> {
                &&& out.0@ == res.supplemental.version.cldr_version@
                &&& exists|d: LikelySubtagsData| tables_match(p, d) && #[trigger] likely_text(d) == out.1@
            }
            &&& r matches Err(e) ==> likely_error_spec(p, e)
        }),
{
    let d = match get_likely_subtags_data(res) {
        Ok(d) => d,
        Err(e) => {
            return Err(e);
        },
    };
    let ghost dd = d;
    let mut text = String::from_str("#![allow(clippy::type_complexity)]\n");
    text.append("#![allow(clippy::unreadable_literal)]\n\n");
    let ghost t0 = text@;
    write_table1_u64(
        &mut text,
        "pub const LANG_ONLY: &[(u64, (Option<u64>, Option<u32>, Option<u32>)); ",
        "] = &[\n",
        &d.1,
    );
    write_table2_u64(
        &mut text,
        "pub const LANG_REGION: [(u64, u32, (Option<u64>, Option<u32>, Option<u32>)); ",
        "] = [\n",
        &d.2,
    );
    write_table2_u64(
        &mut text,
        "pub const LANG_SCRIPT: [(u64, u32, (Option<u64>, Option<u32>, Option<u32>)); ",
        "] = [\n",
        &d.3,
    );
    write_table2_u32(
        &mut text,
        "pub const SCRIPT_REGION: [(u32, u32, (Option<u64>, Option<u32>, Option<u32>)); ",
        "] = [\n",
        &d.4,
    );
    write_table1_u32(
        &mut text,
        "pub const SCRIPT_ONLY: [(u32, (Option<u64>, Option<u32>, Option<u32>)); ",
        "] = [\n",
        &d.6,
    );
    write_table1_u32(
        &mut text,
        "pub const REGION_ONLY: [(u32, (Option<u64>, Option<u32>, Option<u32>)); ",
        "] = [\n",
        &d.5,
    );
    proof {
        assert(t0 =~= "#![allow(clippy::type_complexity)]\n"@ + "#![allow(clippy::unreadable_literal)]\n\n"@);
        assert(text@ =~= likely_text(dd));
        assert(tables_match(rule_views(res.supplemental.likely_subtags@), dd));
    }
    Ok((d.0, text))
}

/// The codes of a list, in decimal, separated by `, `.
pub open spec fn joined(s: Seq<u64>) -> Seq<char>
    decreases s.len(),
{
    if s.len() == 0 {
        Seq::empty()
    } else if s.len() == 1 {
        decimal(s[0] as nat)
    } else {
        joined(s.drop_last()) + ", "@ + decimal(s.last() as nat)
    }
}

/// The text of the right-to-left set and of its membership test.
pub open spec fn layout_text(set: Seq<u64>) -> Seq<char> {
    "pub const CHARACTER_DIRECTION_RTL: [u64; "@ + decimal(set.len()) + "] = ["@ + joined(set)
        + "];\n"@ + "pub fn is_rtl(subtag: u64) -> bool {\n"@
        + "    CHARACTER_DIRECTION_RTL.binary_search(&subtag).is_ok()\n"@ + "}\n"@
}

fn write_joined(s: &mut String, set: &Vec<u64>)
    ensures
        final(s)@ == old(s)@ + joined(set@),
{
    let ghost s0 = s@;
    let mut i: usize = 0;
    assert(set@.take(0) =~= Seq::<u64>::empty());
    while i < set.len()
        invariant
            i <= set@.len(),
            s@ == s0 + joined(set@.take(i as int)),
        decreases set@.len() - i,
    {
        let ghost before = s@;
        assert(set@.take(i + 1).drop_last() =~= set@.take(i as int));
        if i > 0 {
            s.append(", ");
        }
        push_decimal(s, set[i]);
        if i == 0 {
            assert(joined(set@.take(1)) == decimal(set@[0] as nat));
            assert(before =~= s0);
        }
        i = i + 1;
    }
    assert(set@.take(set@.len() as int) =~= set@);
}

/// Builds the right-to-left set of the layout documents and writes it out
/// with its membership test; the result is the data version and the text.
pub fn generate_layout(docs: &Vec<LayoutDoc>) -> (r: Result<(String, String), GenError>)
    ensures
        (r is Ok) == layout_ok(docs@),
        r matches Ok(out) ==> {
            &&& exists|j: int| 0 <= j < docs@.len() && counted(docs@[j]) && #[trigger] docs@[j].version@ == out.0@
            &&& exists|set: Seq<u64>| {
                &&& strictly_sorted(set)
                &&& forall|l: u64| #[trigger]
                    set.contains(l) <==> reported(docs@, docs@.len() as int, (l, CharacterDirection::RTL))
                &&& #[trigger] layout_text(set) == out.1@
            }
        },
        r matches Err(e) ==> layout_error_spec(docs@, e),
{
    let (version, set) = match rtl_languages(docs) {
        Ok(x) => x,
        Err(e) => {
            return Err(e);
        },
    };
    let mut text = String::from_str("pub const CHARACTER_DIRECTION_RTL: [u64; ");
    push_decimal(&mut text, set.len() as u64);
    text.append("] = [");
    write_joined(&mut text, &set);
    text.append("];\n");
    text.append("pub fn is_rtl(subtag: u64) -> bool {\n");
    text.append("    CHARACTER_DIRECTION_RTL.binary_search(&subtag).is_ok()\n");
    text.append("}\n");
    assert(text@ =~= layout_text(set@));
    Ok((version, text))
}

} // verus!
