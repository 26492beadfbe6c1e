//! The stable binary encoding of a `Case`: each field in declared order as a
//! four-byte little-endian byte-length prefix followed by the field's UTF-8
//! bytes. Decoding accepts exactly the encodings and inverts them.
use crate::Case;
use crate::CaseView;
use vstd::bytes::*;
use vstd::prelude::*;
use vstd::slice::*;
use vstd::string::*;
use vstd::utf8::*;

verus! {

/// The record's fields in the declared, stable order.
pub open spec fn fields_of(cv: CaseView) -> Seq<Seq<char>> {
    seq![
        cv.doc_id,
        cv.case_id,
        cv.case_name,
        cv.court,
        cv.region,
        cv.case_type,
        cv.procedure,
        cv.judgment_date,
        cv.public_date,
        cv.parties,
        cv.cause,
        cv.legal_basis,
        cv.full_text,
    ]
}

pub open spec fn case_from_fields(ss: Seq<Seq<char>>) -> CaseView {
    CaseView {
        doc_id: ss[0],
        case_id: ss[1],
        case_name: ss[2],
        court: ss[3],
        region: ss[4],
        case_type: ss[5],
        procedure: ss[6],
        judgment_date: ss[7],
        public_date: ss[8],
        parties: ss[9],
        cause: ss[10],
        legal_basis: ss[11],
        full_text: ss[12],
    }
}

/// A record is encodable when every field's UTF-8 form fits the four-byte
/// length prefix.
pub open spec fn encodable(cv: CaseView) -> bool {
    forall|i: int|
        0 <= i < fields_of(cv).len() ==> encode_utf8(#[trigger] fields_of(cv)[i]).len()
            <= u32::MAX
}

/// One encoded field: length prefix, then UTF-8 bytes.
pub open spec fn enc_str(s: Seq<char>) -> Seq<u8> {
    spec_u32_to_le_bytes(encode_utf8(s).len() as u32) + encode_utf8(s)
}

pub open spec fn enc_fields(ss: Seq<Seq<char>>) -> Seq<u8>
    decreases ss.len(),
{
    if ss.len() == 0 {
        Seq::empty()
    } else {
        enc_str(ss[0]) + enc_fields(ss.drop_first())
    }
}

/// The encoding of a whole record.
pub open spec fn spec_enc_case(cv: CaseView) -> Seq<u8> {
    enc_fields(fields_of(cv))
}

/// Reading one field off the front: the decoded characters and the number
/// of bytes consumed, or nothing when the bytes are not a field encoding.
pub open spec fn read_field(b: Seq<u8>) -> Option<(Seq<char>, int)> {
    if b.len() >= 4 {
        let n = spec_u32_from_le_bytes(b.take(4)) as int;
        if 4 + n <= b.len() && valid_utf8(b.subrange(4, 4 + n)) {
            Some((decode_utf8(b.subrange(4, 4 + n)), 4 + n))
        } else {
            None
        }
    } else {
        None
    }
}

pub open spec fn read_fields(b: Seq<u8>, k: nat) -> Option<(Seq<Seq<char>>, int)>
    decreases k,
{
    if k == 0 {
        Some((Seq::empty(), 0))
    } else {
        match read_field(b) {
            Some(p) => match read_fields(b.skip(p.1), (k - 1) as nat) {
                Some(q) => Some((seq![p.0] + q.0, p.1 + q.1)),
                None => None,
            },
            None => None,
        }
    }
}

/// What decoding returns: the record, provided the bytes are exactly one
/// record encoding with nothing left over.
pub open spec fn spec_dec_case(b: Seq<u8>) -> Option<CaseView> {
    match read_fields(b, 13) {
        Some(p) => if p.1 == b.len() {
            Some(case_from_fields(p.0))
        } else {
            None
        },
        None => None,
    }
}

/// Relies on `String::from_utf8`: succeeds exactly on valid UTF-8 input and
/// decodes it.
#[verifier::external_body]
fn string_from_utf8(v: Vec<u8>) -> (r: Option<String>)
    ensures
        r is Some <==> valid_utf8(v@),
        r matches Some(s) ==> s@ == decode_utf8(v@),
{
    String::from_utf8(v).ok()
}

/// The record's fields as owned strings, in the declared order.
pub fn case_fields(c: &Case) -> (v: Vec<String>)
    ensures
        v.deep_view() == fields_of(c@),
{
    let mut v: Vec<String> = Vec::new();
    v.push(c.doc_id.clone());
    v.push(c.case_id.clone());
    v.push(c.case_name.clone());
    v.push(c.court.clone());
    v.push(c.region.clone());
    v.push(c.case_type.clone());
    v.push(c.procedure.clone());
    v.push(c.judgment_date.clone());
    v.push(c.public_date.clone());
    v.push(c.parties.clone());
    v.push(c.cause.clone());
    v.push(c.legal_basis.clone());
    v.push(c.full_text.clone());
    proof {
        assert(v.deep_view() =~= fields_of(c@));
    }
    v
}

proof fn lemma_enc_fields_snoc(ss: Seq<Seq<char>>, x: Seq<char>)
    ensures
        enc_fields(ss.push(x)) == enc_fields(ss) + enc_str(x),
    decreases ss.len(),
{
    if ss.len() == 0 {
        assert(ss.push(x)[0] == x);
        assert(ss.push(x).drop_first() =~= Seq::<Seq<char>>::empty());
        assert(enc_fields(Seq::<Seq<char>>::empty()) == Seq::<u8>::empty());
        assert(enc_fields(ss.push(x)) == enc_str(x) + Seq::<u8>::empty());
        assert(enc_fields(ss.push(x)) =~= enc_fields(ss) + enc_str(x));
    } else {
        assert(ss.push(x)[0] == ss[0]);
        assert(ss.push(x).drop_first() =~= ss.drop_first().push(x));
        lemma_enc_fields_snoc(ss.drop_first(), x);
        assert(enc_fields(ss.push(x)) == enc_str(ss[0]) + (enc_fields(ss.drop_first()) + enc_str(
            x,
        )));
        assert(enc_fields(ss.push(x)) =~= enc_fields(ss) + enc_str(x));
    }
}

/// Serializes a record; refuses one with a field too long for the format.
pub fn encode_case(c: &Case) -> (r: Option<Vec<u8>>)
    ensures
        r matches Some(b) ==> encodable(c@) && b@ == spec_enc_case(c@),
        r is None ==> !encodable(c@),
{
    let fs = case_fields(c);
    let ghost gf = fields_of(c@);
    let mut out: Vec<u8> = Vec::new();
    let mut i: usize = 0;
    proof {
        assert(gf.take(0) =~= Seq::<Seq<char>>::empty());
    }
    while i < fs.len()
        invariant
            gf == fields_of(c@),
            fs.deep_view() == gf,
            fs.len() == gf.len(),
            i <= fs.len(),
            out@ == enc_fields(gf.take(i as int)),
            forall|k: int| 0 <= k < i ==> encode_utf8(#[trigger] gf[k]).len() <= u32::MAX,
        decreases fs.len() - i,
    {
        let bytes = fs[i].as_str().as_bytes_vec();
        proof {
            assert(fs.deep_view()[i as int] == fs@[i as int]@);
            assert(bytes@.len() == encode_utf8(gf[i as int]).len());
        }
        if bytes.len() as u64 > u32::MAX as u64 {
            proof {
                assert(encode_utf8(fields_of(c@)[i as int]).len() > u32::MAX);
                assert(!encodable(c@));
            }
            return None;
        }
        let mut pre = u32_to_le_bytes(bytes.len() as u32);
        out.append(&mut pre);
        let mut seg = bytes;
        out.append(&mut seg);
        i = i + 1;
        proof {
            lemma_enc_fields_snoc(gf.take(i - 1), gf[i - 1]);
            assert(gf.take(i as int) =~= gf.take(i - 1).push(gf[i - 1]));
        }
    }
    proof {
        assert(gf.take(gf.len() as int) =~= gf);
    }
    Some(out)
}

/// Reads one length-prefixed field starting at `pos`.
fn read_one(b: &Vec<u8>, pos: usize) -> (r: Option<(String, usize)>)
    requires
        pos <= b@.len(),
    ensures
        r matches Some(p) ==> pos < p.1 <= b@.len() && read_field(b@.skip(pos as int)) == Some(
            (p.0@, p.1 - pos),
        ),
        r is None ==> read_field(b@.skip(pos as int)) is None,
{
    let ghost t = b@.skip(pos as int);
    if b.len() - pos < 4 {
        return None;
    }
    let len_slice = slice_subrange(b.as_slice(), pos, pos + 4);
    proof {
        assert(len_slice@ =~= t.take(4));
    }
    let n32 = u32_from_le_bytes(len_slice);
    let n = n32 as usize;
    if n > b.len() - (pos + 4) {
        return None;
    }
    let seg = slice_to_vec(slice_subrange(b.as_slice(), pos + 4, pos + 4 + n));
    proof {
        assert(seg@ =~= t.subrange(4, 4 + n as int));
    }
    match string_from_utf8(seg) {
        Some(s) => Some((s, pos + 4 + n)),
        None => None,
    }
}

/// Deserializes a record; returns nothing unless the bytes are exactly one
/// record encoding.
pub fn decode_case(b: &Vec<u8>) -> (r: Option<Case>)
    ensures
        r matches Some(c) ==> spec_dec_case(b@) == Some(c@),
        r is None ==> spec_dec_case(b@) is None,
{
    let mut fields: Vec<String> = Vec::new();
    let mut pos: usize = 0;
    let mut k: usize = 0;
    proof {
        assert(b@.skip(0) =~= b@);
    }
    while k < 13
        invariant
            k <= 13,
            pos <= b@.len(),
            fields.deep_view().len() == k,
            read_fields(b@.skip(pos as int), (13 - k) as nat) matches Some(p) ==> read_fields(
                b@,
                13,
            ) == Some::<(Seq<Seq<char>>, int)>((fields.deep_view() + p.0, pos + p.1)),
            read_fields(b@.skip(pos as int), (13 - k) as nat) is None ==> read_fields(b@, 13)
                is None,
        decreases 13 - k,
    {
        let ghost pre = fields.deep_view();
        let ghost oldpos = pos as int;
        match read_one(b, pos) {
            Some(p) => {
                let (s, newpos) = p;
                proof {
                    assert(b@.skip(oldpos).skip(newpos - oldpos) =~= b@.skip(newpos as int));
                }
                fields.push(s);
                pos = newpos;
                k = k + 1;
                proof {
                    assert(fields.deep_view() =~= pre.push(s@));
                    match read_fields(b@.skip(pos as int), (13 - k) as nat) {
                        Some(q) => {
                            assert(pre.push(s@) + q.0 =~= pre + (seq![s@] + q.0));
                        },
                        None => {},
                    }
                }
            },
            None => {
                proof {
                    assert(read_fields(b@.skip(pos as int), (13 - k) as nat) is None);
                }
                return None;
            },
        }
    }
    if pos != b.len() {
        return None;
    }
    proof {
        assert(fields.deep_view() + Seq::<Seq<char>>::empty() =~= fields.deep_view());
        assert(read_fields(b@, 13) == Some::<(Seq<Seq<char>>, int)>(
            (fields.deep_view(), pos as int),
        ));
    }
    let c = Case {
        doc_id: fields[0].clone(),
        case_id: fields[1].clone(),
        case_name: fields[2].clone(),
        court: fields[3].clone(),
        region: fields[4].clone(),
        case_type: fields[5].clone(),
        procedure: fields[6].clone(),
        judgment_date: fields[7].clone(),
        public_date: fields[8].clone(),
        parties: fields[9].clone(),
        cause: fields[10].clone(),
        legal_basis: fields[11].clone(),
        full_text: fields[12].clone(),
    };
    proof {
        assert(c@ == case_from_fields(fields.deep_view()));
    }
    Some(c)
}

proof fn lemma_read_field_prefix(s: Seq<char>, rest: Seq<u8>)
    requires
        encode_utf8(s).len() <= u32::MAX,
    ensures
        read_field(enc_str(s) + rest) == Some((s, enc_str(s).len() as int)),
{
    let b = enc_str(s) + rest;
    let n = encode_utf8(s).len() as int;
    lemma_auto_spec_u32_to_from_le_bytes();
    assert(b.take(4) =~= spec_u32_to_le_bytes(encode_utf8(s).len() as u32));
    assert(spec_u32_from_le_bytes(b.take(4)) == encode_utf8(s).len() as u32);
    assert(b.subrange(4, 4 + n) =~= encode_utf8(s));
    encode_utf8_valid_utf8(s);
    encode_utf8_decode_utf8(s);
}

proof fn lemma_read_enc_fields(ss: Seq<Seq<char>>)
    requires
        forall|i: int| 0 <= i < ss.len() ==> encode_utf8(#[trigger] ss[i]).len() <= u32::MAX,
    ensures
        read_fields(enc_fields(ss), ss.len() as nat) == Some((ss, enc_fields(ss).len() as int)),
    decreases ss.len(),
{
    if ss.len() == 0 {
        assert(ss =~= Seq::<Seq<char>>::empty());
    } else {
        lemma_read_field_prefix(ss[0], enc_fields(ss.drop_first()));
        assert(forall|i: int|
            0 <= i < ss.drop_first().len() ==> encode_utf8(
                #[trigger] ss.drop_first()[i],
            ).len() <= u32::MAX) by {
            assert(forall|i: int|
                0 <= i < ss.drop_first().len() ==> ss.drop_first()[i] == ss[i + 1]);
        }
        lemma_read_enc_fields(ss.drop_first());
        let b = enc_fields(ss);
        assert(b == enc_str(ss[0]) + enc_fields(ss.drop_first()));
        assert(b.skip(enc_str(ss[0]).len() as int) =~= enc_fields(ss.drop_first()));
        assert(seq![ss[0]] + ss.drop_first() =~= ss);
    }
}

/// Round trip: decoding the encoding of any encodable record yields the
/// record again, field for field.
pub proof fn lemma_case_round_trip(cv: CaseView)
    requires
        encodable(cv),
    ensures
        spec_dec_case(spec_enc_case(cv)) == Some(cv),
{
    lemma_read_enc_fields(fields_of(cv));
    assert(case_from_fields(fields_of(cv)) == cv);
}

/// The big-endian key encoding of an identifier: the document store's key.
pub open spec fn spec_key_bytes(id: u32) -> Seq<u8> {
    seq![
        (id / 0x1000000) as u8,
        ((id / 0x10000) % 0x100) as u8,
        ((id / 0x100) % 0x100) as u8,
        (id % 0x100) as u8,
    ]
}

pub fn key_bytes(id: u32) -> (r: Vec<u8>)
    ensures
        r@ == spec_key_bytes(id),
{
    let mut r: Vec<u8> = Vec::new();
    r.push((id / 0x1000000) as u8);
    r.push(((id / 0x10000) % 0x100) as u8);
    r.push(((id / 0x100) % 0x100) as u8);
    r.push((id % 0x100) as u8);
    proof {
        assert(r@ =~= spec_key_bytes(id));
    }
    r
}

} // verus!
