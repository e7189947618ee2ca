//! Fixed-width integer codes for language, script and region subtags.
//!
//! A subtag of at most eight ASCII bytes is stored as the integer whose
//! little-endian bytes are the subtag's bytes, padded with zeros. Language
//! codes take a `u64`, script and region codes a `u32`.
use vstd::prelude::*;

verus! {

/// The integer whose little-endian bytes are `b` (first byte lowest).
pub open spec fn pack(b: Seq<u8>) -> nat
    decreases b.len(),
{
    if b.len() == 0 {
        0
    } else {
        b[0] as nat + 256 * pack(b.drop_first())
    }
}

/// The bytes of `n` in little-endian order, up to its highest non-zero byte.
pub open spec fn unpack(n: nat) -> Seq<u8>
    decreases n,
{
    if n == 0 {
        Seq::empty()
    } else {
        seq![(n % 256) as u8].add(unpack(n / 256))
    }
}

/// Every byte is ASCII and non-zero.
pub open spec fn ascii_nonzero(b: Seq<u8>) -> bool {
    forall|i: int| 0 <= i < b.len() ==> 0 < #[trigger] b[i] < 128
}

pub open spec fn is_alpha(c: u8) -> bool {
    (65 <= c <= 90) || (97 <= c <= 122)
}

pub open spec fn is_digit(c: u8) -> bool {
    48 <= c <= 57
}

pub open spec fn is_alnum(c: u8) -> bool {
    is_alpha(c) || is_digit(c)
}

pub open spec fn all_alpha(b: Seq<u8>) -> bool {
    forall|i: int| 0 <= i < b.len() ==> is_alpha(#[trigger] b[i])
}

pub open spec fn all_digit(b: Seq<u8>) -> bool {
    forall|i: int| 0 <= i < b.len() ==> is_digit(#[trigger] b[i])
}

pub open spec fn all_alnum(b: Seq<u8>) -> bool {
    forall|i: int| 0 <= i < b.len() ==> is_alnum(#[trigger] b[i])
}

pub open spec fn lower_byte(c: u8) -> u8 {
    if 65 <= c <= 90 {
        (c + 32) as u8
    } else {
        c
    }
}

pub open spec fn upper_byte(c: u8) -> u8 {
    if 97 <= c <= 122 {
        (c - 32) as u8
    } else {
        c
    }
}

/// ASCII lower case.
pub open spec fn lower(b: Seq<u8>) -> Seq<u8> {
    b.map_values(|c: u8| lower_byte(c))
}

/// ASCII upper case.
pub open spec fn upper(b: Seq<u8>) -> Seq<u8> {
    b.map_values(|c: u8| upper_byte(c))
}

/// ASCII title case: the first byte upper case, the rest lower case.
pub open spec fn title(b: Seq<u8>) -> Seq<u8> {
    Seq::new(b.len(), |i: int| if i == 0 { upper_byte(b[i]) } else { lower_byte(b[i]) })
}

/// A subtag of one to `max` ASCII letters or digits.
pub open spec fn valid_subtag(b: Seq<u8>, max: nat) -> bool {
    1 <= b.len() <= max && all_alnum(b)
}

/// The code of a language subtag: its lower-case form, packed.
pub open spec fn language_code(b: Seq<u8>) -> nat {
    pack(lower(b))
}

/// The code of a script subtag: its title-case form, packed.
pub open spec fn script_code(b: Seq<u8>) -> nat {
    pack(title(b))
}

/// The code of a region subtag: its upper-case form, packed.
pub open spec fn region_code(b: Seq<u8>) -> nat {
    pack(upper(b))
}

/// Relies on `tinystr::TinyStr8::from_bytes` and `Into<u64> for TinyStr8`:
/// one to eight non-zero ASCII bytes are accepted and become the integer whose
/// little-endian bytes they are; anything else is refused.
#[verifier::external_body]
fn tiny8_from_bytes(b: &[u8]) -> (r: Option<u64>)
    ensures
        r is Some <==> (1 <= b@.len() <= 8 && ascii_nonzero(b@)),
        r matches Some(v) ==> v as nat == pack(b@),
{
    tinystr::TinyStr8::from_bytes(b).ok().map(|t| t.into())
}

/// Relies on `tinystr::TinyStr4::from_bytes` and `Into<u32> for TinyStr4`:
/// one to four non-zero ASCII bytes are accepted and become the integer whose
/// little-endian bytes they are; anything else is refused.
#[verifier::external_body]
fn tiny4_from_bytes(b: &[u8]) -> (r: Option<u32>)
    ensures
        r is Some <==> (1 <= b@.len() <= 4 && ascii_nonzero(b@)),
        r matches Some(v) ==> v as nat == pack(b@),
{
    tinystr::TinyStr4::from_bytes(b).ok().map(|t| t.into())
}

fn to_lower(c: u8) -> (r: u8)
    ensures
        r == lower_byte(c),
{
    if 65 <= c && c <= 90 {
        c + 32
    } else {
        c
    }
}

fn to_upper(c: u8) -> (r: u8)
    ensures
        r == upper_byte(c),
{
    if 97 <= c && c <= 122 {
        c - 32
    } else {
        c
    }
}

fn map_bytes(b: &[u8], mode: u8) -> (r: Vec<u8>)
    requires
        mode <= 2,
    ensures
        mode == 0 ==> r@ == lower(b@),
        mode == 1 ==> r@ == upper(b@),
        mode == 2 ==> r@ == title(b@),
{
    let mut r: Vec<u8> = Vec::new();
    let mut i: usize = 0;
    while i < b.len()
        invariant
            i <= b@.len(),
            r@.len() == i,
            forall|j: int|
                0 <= j < i ==> #[trigger] r@[j] == (if mode == 0 || (mode == 2 && j > 0) {
                    lower_byte(b@[j])
                } else {
                    upper_byte(b@[j])
                }),
        decreases b@.len() - i,
    {
        let c = b[i];
        let d: u8 = if mode == 0 || (mode == 2 && i > 0) {
            to_lower(c)
        } else {
            to_upper(c)
        };
        r.push(d);
        i = i + 1;
    }
    proof {
        if mode == 0 {
            assert(r@ =~= lower(b@));
        } else if mode == 1 {
            assert(r@ =~= upper(b@));
        } else {
            assert(r@ =~= title(b@));
        }
    }
    r
}

pub(crate) fn all_alnum_exec(b: &[u8]) -> (r: bool)
    ensures
        r == all_alnum(b@),
{
    let mut i: usize = 0;
    while i < b.len()
        invariant
            i <= b@.len(),
            forall|j: int| 0 <= j < i ==> is_alnum(#[trigger] b@[j]),
        decreases b@.len() - i,
    {
        let c = b[i];
        if !((65 <= c && c <= 90) || (97 <= c && c <= 122) || (48 <= c && c <= 57)) {
            return false;
        }
        i = i + 1;
    }
    true
}

proof fn lemma_case_keeps_valid(b: Seq<u8>)
    requires
        all_alnum(b),
    ensures
        ascii_nonzero(lower(b)),
        ascii_nonzero(upper(b)),
        ascii_nonzero(title(b)),
        lower(b).len() == b.len(),
        upper(b).len() == b.len(),
        title(b).len() == b.len(),
{
    assert forall|i: int| 0 <= i < b.len() implies 0 < #[trigger] lower(b)[i] < 128 by {
        assert(is_alnum(b[i]));
    }
    assert forall|i: int| 0 <= i < b.len() implies 0 < #[trigger] upper(b)[i] < 128 by {
        assert(is_alnum(b[i]));
    }
    assert forall|i: int| 0 <= i < b.len() implies 0 < #[trigger] title(b)[i] < 128 by {
        assert(is_alnum(b[i]));
    }
}

/// Encodes a language subtag: `None` unless it is one to eight ASCII letters
/// or digits; otherwise the code of its lower-case form.
pub fn encode_language(b: &[u8]) -> (r: Option<u64>)
    ensures
        r is Some <==> valid_subtag(b@, 8),
        r matches Some(v) ==> v as nat == language_code(b@),
{
    if b.len() < 1 || b.len() > 8 || !all_alnum_exec(b) {
        return None;
    }
    proof {
        lemma_case_keeps_valid(b@);
    }
    let n = map_bytes(b, 0);
    tiny8_from_bytes(n.as_slice())
}

/// Encodes a script subtag: `None` unless it is one to four ASCII letters or
/// digits; otherwise the code of its title-case form.
pub fn encode_script(b: &[u8]) -> (r: Option<u32>)
    ensures
        r is Some <==> valid_subtag(b@, 4),
        r matches Some(v) ==> v as nat == script_code(b@),
{
    if b.len() < 1 || b.len() > 4 || !all_alnum_exec(b) {
        return None;
    }
    proof {
        lemma_case_keeps_valid(b@);
    }
    let n = map_bytes(b, 2);
    tiny4_from_bytes(n.as_slice())
}

/// Encodes a region subtag: `None` unless it is one to four ASCII letters or
/// digits; otherwise the code of its upper-case form.
pub fn encode_region(b: &[u8]) -> (r: Option<u32>)
    ensures
        r is Some <==> valid_subtag(b@, 4),
        r matches Some(v) ==> v as nat == region_code(b@),
{
    if b.len() < 1 || b.len() > 4 || !all_alnum_exec(b) {
        return None;
    }
    proof {
        lemma_case_keeps_valid(b@);
    }
    let n = map_bytes(b, 1);
    tiny4_from_bytes(n.as_slice())
}

proof fn lemma_unpack_step(n: nat)
    requires
        n > 0,
    ensures
        unpack(n) == seq![(n % 256) as u8].add(unpack(n / 256)),
{
}

/// Decodes a language code back into the bytes of its subtag.
pub fn decode_language(v: u64) -> (r: Vec<u8>)
    ensures
        r@ == unpack(v as nat),
{
    let mut r: Vec<u8> = Vec::new();
    let mut n: u64 = v;
    while n != 0
        invariant
            r@ + unpack(n as nat) == unpack(v as nat),
        decreases n,
    {
        proof {
            lemma_unpack_step(n as nat);
        }
        let d: u8 = (n % 256) as u8;
        let ghost before = r@;
        r.push(d);
        assert(r@ =~= before + seq![(n as nat % 256) as u8]);
        n = n / 256;
        assert(before + seq![d] + unpack(n as nat) =~= before + (seq![d] + unpack(n as nat)));
    }
    assert(unpack(0) == Seq::<u8>::empty());
    assert(r@ + Seq::<u8>::empty() =~= r@);
    r
}

/// Decodes a script or region code back into the bytes of its subtag.
pub fn decode_subtag(v: u32) -> (r: Vec<u8>)
    ensures
        r@ == unpack(v as nat),
{
    decode_language(v as u64)
}

proof fn lemma_unpack_pack(b: Seq<u8>)
    requires
        forall|i: int| 0 <= i < b.len() ==> #[trigger] b[i] != 0,
    ensures
        unpack(pack(b)) == b,
    decreases b.len(),
{
    if b.len() > 0 {
        let rest = b.drop_first();
        assert forall|i: int| 0 <= i < rest.len() implies #[trigger] rest[i] != 0 by {
            assert(rest[i] == b[i + 1]);
        }
        lemma_unpack_pack(rest);
        let x = b[0] as nat;
        let y = pack(rest);
        assert(b[0] != 0);
        assert((x + 256 * y) % 256 == x && (x + 256 * y) / 256 == y) by (nonlinear_arith)
            requires
                x < 256,
        ;
        assert(pack(b) > 0);
        assert(unpack(pack(b)) =~= seq![b[0]].add(rest));
        assert(seq![b[0]].add(rest) =~= b);
    }
}

/// Decoding the code of a valid subtag gives back the subtag in its normal
/// case: lower case for a language, title case for a script, upper case for a
/// region.
pub proof fn lemma_codec_round_trip(b: Seq<u8>)
    requires
        all_alnum(b),
    ensures
        unpack(language_code(b)) == lower(b),
        unpack(script_code(b)) == title(b),
        unpack(region_code(b)) == upper(b),
{
    lemma_case_keeps_valid(b);
    assert forall|i: int| 0 <= i < b.len() implies #[trigger] lower(b)[i] != 0 by {
        assert(0 < lower(b)[i]);
    }
    assert forall|i: int| 0 <= i < b.len() implies #[trigger] title(b)[i] != 0 by {
        assert(0 < title(b)[i]);
    }
    assert forall|i: int| 0 <= i < b.len() implies #[trigger] upper(b)[i] != 0 by {
        assert(0 < upper(b)[i]);
    }
    lemma_unpack_pack(lower(b));
    lemma_unpack_pack(title(b));
    lemma_unpack_pack(upper(b));
}

} // verus!
