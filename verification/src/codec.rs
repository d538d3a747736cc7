use vstd::prelude::*;
use vstd::arithmetic::div_mod::{lemma_fundamental_div_mod, lemma_fundamental_div_mod_converse};
use vstd::bytes::{
    lemma_auto_spec_u32_to_from_le_bytes, lemma_auto_spec_u64_to_from_le_bytes,
    spec_u32_from_le_bytes, spec_u32_to_le_bytes, spec_u64_from_le_bytes, spec_u64_to_le_bytes,
    u32_from_le_bytes, u32_to_le_bytes, u64_from_le_bytes, u64_to_le_bytes,
};
use vstd::slice::{slice_subrange, slice_to_vec};
use vstd::string::StringSliceAdditionalSpecFns;
use vstd::utf8::{encode_utf8, encode_utf8_decode_utf8, encode_utf8_valid_utf8, valid_utf8};
use crate::collection::CollectionModel;
use crate::embedding::PointModel;
use crate::index::IndexConfig;

verus! {

// The snapshot format, least significant byte first for every integer:
//   state       := count:u64  (name:string collection)*
//   collection  := points map config
//   points      := count:u64 point*
//   point       := id:u128  vector  attributes
//   vector      := count:u64 component:u32*
//   attributes  := 0x00 | 0x01 entries
//   entries     := count:u64 (key:string value:string)*
//   map         := count:u64 (id:u128 slot:u64)*
//   config      := quality-tag:u8 embedding
//   embedding   := 0x00 | 0x01 | 0x02 dimension:u64
//   string      := count:u64 utf8-byte*
/// A sequence length small enough to carry in the format's count fields.
pub open spec fn fits_len(n: nat) -> bool {
    n <= usize::MAX
}

/// The bytes of each element, concatenated in order.
pub open spec fn cat_map<T>(s: Seq<T>, f: spec_fn(T) -> Seq<u8>) -> Seq<u8>
    decreases s.len(),
{
    if s.len() == 0 {
        Seq::empty()
    } else {
        f(s[0]) + cat_map(s.skip(1), f)
    }
}

pub proof fn lemma_cat_map_push<T>(s: Seq<T>, f: spec_fn(T) -> Seq<u8>, x: T)
    ensures
        cat_map(s.push(x), f) == cat_map(s, f) + f(x),
    decreases s.len(),
{
    if s.len() == 0 {
        assert(s.push(x)[0] == x);
        assert(s.push(x).skip(1) =~= Seq::<T>::empty());
        assert(cat_map(Seq::<T>::empty(), f) == Seq::<u8>::empty());
        assert(cat_map(s.push(x), f) == f(x) + Seq::<u8>::empty());
        assert(cat_map(s, f) == Seq::<u8>::empty());
        assert(f(x) + Seq::<u8>::empty() =~= Seq::<u8>::empty() + f(x));
    } else {
        assert(s.push(x)[0] == s[0]);
        assert(s.push(x).skip(1) =~= s.skip(1).push(x));
        lemma_cat_map_push(s.skip(1), f, x);
        assert(cat_map(s.push(x), f) =~= cat_map(s, f) + f(x));
    }
}

pub open spec fn enc_u64(x: u64) -> Seq<u8> {
    spec_u64_to_le_bytes(x)
}

pub open spec fn enc_u32(x: u32) -> Seq<u8> {
    spec_u32_to_le_bytes(x)
}

pub open spec fn lo64(x: u128) -> u64 {
    (x % 0x10000000000000000) as u64
}

pub open spec fn hi64(x: u128) -> u64 {
    (x / 0x10000000000000000) as u64
}

pub open spec fn enc_u128(x: u128) -> Seq<u8> {
    enc_u64(lo64(x)) + enc_u64(hi64(x))
}

pub open spec fn enc_string(s: Seq<char>) -> Seq<u8> {
    enc_u64(encode_utf8(s).len() as u64) + encode_utf8(s)
}

/// One byte, for the format's tags.
pub open spec fn enc_tag(b: u8) -> Seq<u8> {
    seq![b]
}

pub open spec fn u32f() -> spec_fn(u32) -> Seq<u8> {
    |c: u32| enc_u32(c)
}

pub open spec fn enc_u32s(v: Seq<u32>) -> Seq<u8> {
    enc_u64(v.len() as u64) + cat_map(v, u32f())
}

pub open spec fn enc_entry(e: (Seq<char>, Seq<char>)) -> Seq<u8> {
    enc_string(e.0) + enc_string(e.1)
}

pub open spec fn entryf() -> spec_fn((Seq<char>, Seq<char>)) -> Seq<u8> {
    |e: (Seq<char>, Seq<char>)| enc_entry(e)
}

pub open spec fn enc_entries(es: Seq<(Seq<char>, Seq<char>)>) -> Seq<u8> {
    enc_u64(es.len() as u64) + cat_map(es, entryf())
}

pub open spec fn enc_md(md: Option<Seq<(Seq<char>, Seq<char>)>>) -> Seq<u8> {
    match md {
        None => enc_tag(0u8),
        Some(es) => enc_tag(1u8) + enc_entries(es),
    }
}

pub open spec fn enc_point(p: PointModel) -> Seq<u8> {
    enc_u128(p.id) + enc_u32s(p.vector) + enc_md(p.metadata)
}

pub open spec fn pointf() -> spec_fn(PointModel) -> Seq<u8> {
    |p: PointModel| enc_point(p)
}

pub open spec fn enc_points(ps: Seq<PointModel>) -> Seq<u8> {
    enc_u64(ps.len() as u64) + cat_map(ps, pointf())
}

pub open spec fn enc_map_entry(e: (u128, usize)) -> Seq<u8> {
    enc_u128(e.0) + enc_u64(e.1 as u64)
}

pub open spec fn mapf() -> spec_fn((u128, usize)) -> Seq<u8> {
    |e: (u128, usize)| enc_map_entry(e)
}

pub open spec fn enc_map(m: Seq<(u128, usize)>) -> Seq<u8> {
    enc_u64(m.len() as u64) + cat_map(m, mapf())
}

pub open spec fn enc_quality(q: crate::index::IndexBuildQuality) -> Seq<u8> {
    match q {
        crate::index::IndexBuildQuality::Quick => enc_tag(0u8),
        crate::index::IndexBuildQuality::Standard => enc_tag(1u8),
        crate::index::IndexBuildQuality::Robust => enc_tag(2u8),
    }
}

pub open spec fn enc_embedding(t: crate::embedding::EmbeddingType) -> Seq<u8> {
    match t {
        crate::embedding::EmbeddingType::TextEmbedding3Small => enc_tag(0u8),
        crate::embedding::EmbeddingType::TextEmbedding3Large => enc_tag(1u8),
        crate::embedding::EmbeddingType::Custom(d) => enc_tag(2u8) + enc_u64(d as u64),
    }
}

pub open spec fn enc_config(c: IndexConfig) -> Seq<u8> {
    enc_quality(c.build_quality) + enc_embedding(c.embedding_type)
}

pub open spec fn enc_collection(cm: CollectionModel) -> Seq<u8> {
    enc_points(cm.points) + enc_map(cm.id_to_index) + enc_config(cm.index_config)
}

pub open spec fn enc_named(e: (Seq<char>, CollectionModel)) -> Seq<u8> {
    enc_string(e.0) + enc_collection(e.1)
}

/// The whole snapshot: every collection's name and durable fields, in
/// registry order.
pub open spec fn namedf() -> spec_fn((Seq<char>, CollectionModel)) -> Seq<u8> {
    |e: (Seq<char>, CollectionModel)| enc_named(e)
}

pub open spec fn enc_state(sm: Seq<(Seq<char>, CollectionModel)>) -> Seq<u8> {
    enc_u64(sm.len() as u64) + cat_map(sm, namedf())
}

pub open spec fn encodable_string(s: Seq<char>) -> bool {
    fits_len(encode_utf8(s).len())
}

pub open spec fn encodable_entries(es: Seq<(Seq<char>, Seq<char>)>) -> bool {
    &&& fits_len(es.len())
    &&& forall|i: int|
        0 <= i < es.len() ==> encodable_string((#[trigger] es[i]).0) && encodable_string(es[i].1)
}

pub open spec fn encodable_point(p: PointModel) -> bool {
    &&& fits_len(p.vector.len())
    &&& match p.metadata {
        None => true,
        Some(es) => encodable_entries(es),
    }
}

pub open spec fn encodable_collection(cm: CollectionModel) -> bool {
    &&& fits_len(cm.points.len())
    &&& forall|i: int| 0 <= i < cm.points.len() ==> encodable_point(#[trigger] cm.points[i])
    &&& fits_len(cm.id_to_index.len())
}

pub open spec fn encodable_state(sm: Seq<(Seq<char>, CollectionModel)>) -> bool {
    &&& fits_len(sm.len())
    &&& forall|i: int|
        0 <= i < sm.len() ==> encodable_string((#[trigger] sm[i]).0) && encodable_collection(
            sm[i].1,
        )
}

/// Relies on String::from_utf8: it succeeds exactly on well-formed UTF-8 and
/// returns the string those bytes spell.
#[verifier::external_body]
fn string_from_utf8(bytes: Vec<u8>) -> (r: Option<String>)
    ensures
        r matches Some(s) ==> encode_utf8(s@) == bytes@,
        valid_utf8(bytes@) ==> r is Some,
{
    match String::from_utf8(bytes) {
        Ok(s) => Some(s),
        Err(_) => None,
    }
}

fn emit_u64(out: &mut Vec<u8>, x: u64)
    ensures
        final(out)@ == old(out)@ + enc_u64(x),
{
    let mut tmp = u64_to_le_bytes(x);
    out.append(&mut tmp);
}

fn emit_u32(out: &mut Vec<u8>, x: u32)
    ensures
        final(out)@ == old(out)@ + enc_u32(x),
{
    let mut tmp = u32_to_le_bytes(x);
    out.append(&mut tmp);
}

fn emit_u128(out: &mut Vec<u8>, x: u128)
    ensures
        final(out)@ == old(out)@ + enc_u128(x),
{
    let lo: u64 = (x % 0x10000000000000000u128) as u64;
    let hi: u64 = (x / 0x10000000000000000u128) as u64;
    emit_u64(out, lo);
    emit_u64(out, hi);
    assert(old(out)@ + enc_u64(lo) + enc_u64(hi) =~= old(out)@ + (enc_u64(lo) + enc_u64(hi)));
}

fn emit_string(out: &mut Vec<u8>, s: &String)
    ensures
        final(out)@ == old(out)@ + enc_string(s@),
        encodable_string(s@),
{
    let bs = s.as_str().as_bytes();
    assert(bs@ == encode_utf8(s@));
    emit_u64(out, bs.len() as u64);
    let mut tmp = slice_to_vec(bs);
    out.append(&mut tmp);
    assert(final(out)@ =~= old(out)@ + enc_string(s@));
}

fn dec_u64(bytes: &Vec<u8>, pos: usize) -> (r: Option<(u64, usize)>)
    requires
        pos <= bytes@.len(),
    ensures
        r matches Some(vp) ==> vp.1 == pos + 8 && vp.1 <= bytes@.len() && bytes@.subrange(
            pos as int,
            vp.1 as int,
        ) == enc_u64(vp.0),
        forall|v: u64, rest: Seq<u8>|
            bytes@.skip(pos as int) == enc_u64(v) + rest ==> r == Some((v, (pos + 8) as usize)),
{
    proof {
        lemma_auto_spec_u64_to_from_le_bytes();
    }
    if bytes.len() - pos < 8 {
        proof {
            assert forall|v: u64, rest: Seq<u8>|
                bytes@.skip(pos as int) != enc_u64(v) + rest by {
                if bytes@.skip(pos as int) == enc_u64(v) + rest {
                    assert(bytes@.skip(pos as int).len() >= 8);
                }
            }
        }
        return None;
    }
    let sl = slice_subrange(bytes.as_slice(), pos, pos + 8);
    let x = u64_from_le_bytes(sl);
    proof {
        assert(sl@ == bytes@.subrange(pos as int, pos + 8));
        assert(spec_u64_to_le_bytes(x) == sl@);
        assert forall|v: u64, rest: Seq<u8>|
            bytes@.skip(pos as int) == enc_u64(v) + rest implies x == v by {
            assert(bytes@.subrange(pos as int, pos + 8) =~= (enc_u64(v) + rest).take(8));
            assert((enc_u64(v) + rest).take(8) =~= enc_u64(v));
            assert(spec_u64_from_le_bytes(spec_u64_to_le_bytes(v)) == v);
        }
    }
    Some((x, pos + 8))
}

fn dec_u32(bytes: &Vec<u8>, pos: usize) -> (r: Option<(u32, usize)>)
    requires
        pos <= bytes@.len(),
    ensures
        r matches Some(vp) ==> vp.1 == pos + 4 && vp.1 <= bytes@.len() && bytes@.subrange(
            pos as int,
            vp.1 as int,
        ) == enc_u32(vp.0),
        forall|v: u32, rest: Seq<u8>|
            bytes@.skip(pos as int) == enc_u32(v) + rest ==> r == Some((v, (pos + 4) as usize)),
{
    proof {
        lemma_auto_spec_u32_to_from_le_bytes();
    }
    if bytes.len() - pos < 4 {
        proof {
            assert forall|v: u32, rest: Seq<u8>|
                bytes@.skip(pos as int) != enc_u32(v) + rest by {
                if bytes@.skip(pos as int) == enc_u32(v) + rest {
                    assert(bytes@.skip(pos as int).len() >= 4);
                }
            }
        }
        return None;
    }
    let sl = slice_subrange(bytes.as_slice(), pos, pos + 4);
    let x = u32_from_le_bytes(sl);
    proof {
        assert(sl@ == bytes@.subrange(pos as int, pos + 4));
        assert(spec_u32_to_le_bytes(x) == sl@);
        assert forall|v: u32, rest: Seq<u8>|
            bytes@.skip(pos as int) == enc_u32(v) + rest implies x == v by {
            assert(bytes@.subrange(pos as int, pos + 4) =~= (enc_u32(v) + rest).take(4));
            assert((enc_u32(v) + rest).take(4) =~= enc_u32(v));
            assert(spec_u32_from_le_bytes(spec_u32_to_le_bytes(v)) == v);
        }
    }
    Some((x, pos + 4))
}

fn dec_u128(bytes: &Vec<u8>, pos: usize) -> (r: Option<(u128, usize)>)
    requires
        pos <= bytes@.len(),
    ensures
        r matches Some(vp) ==> vp.1 == pos + 16 && vp.1 <= bytes@.len() && bytes@.subrange(
            pos as int,
            vp.1 as int,
        ) == enc_u128(vp.0),
        forall|v: u128, rest: Seq<u8>|
            bytes@.skip(pos as int) == enc_u128(v) + rest ==> r == Some((v, (pos + 16) as usize)),
{
    proof {
        lemma_auto_spec_u64_to_from_le_bytes();
    }
    let lo_r = dec_u64(bytes, pos);
    let (lo, pos1) = match lo_r {
        Some(vp) => vp,
        None => {
            proof {
                assert forall|v: u128, rest: Seq<u8>|
                    bytes@.skip(pos as int) != enc_u128(v) + rest by {
                    if bytes@.skip(pos as int) == enc_u128(v) + rest {
                        assert(bytes@.skip(pos as int) =~= enc_u64(lo64(v)) + (enc_u64(hi64(v))
                            + rest));
                    }
                }
            }
            return None;
        },
    };
    let hi_r = dec_u64(bytes, pos1);
    let (hi, pos2) = match hi_r {
        Some(vp) => vp,
        None => {
            proof {
                assert forall|v: u128, rest: Seq<u8>|
                    bytes@.skip(pos as int) != enc_u128(v) + rest by {
                    if bytes@.skip(pos as int) == enc_u128(v) + rest {
                        assert(bytes@.skip(pos as int) =~= enc_u64(lo64(v)) + (enc_u64(hi64(v))
                            + rest));
                        assert(bytes@.skip(pos1 as int) =~= bytes@.skip(pos as int).skip(8));
                        assert(bytes@.skip(pos1 as int) =~= enc_u64(hi64(v)) + rest);
                    }
                }
            }
            return None;
        },
    };
    proof {
        assert((hi as u128) * 0x10000000000000000 + (lo as u128) <= u128::MAX) by (nonlinear_arith)
            requires
                hi <= u64::MAX,
                lo <= u64::MAX,
        ;
    }
    let x: u128 = (hi as u128) * 0x10000000000000000u128 + (lo as u128);
    proof {
        lemma_fundamental_div_mod_converse(
            x as int,
            0x10000000000000000,
            hi as int,
            lo as int,
        );
        assert(lo64(x) == lo && hi64(x) == hi);
        assert(bytes@.subrange(pos as int, pos2 as int) =~= bytes@.subrange(pos as int, pos1 as int)
            + bytes@.subrange(pos1 as int, pos2 as int));
        assert(bytes@.subrange(pos as int, pos2 as int) == enc_u128(x));
        assert forall|v: u128, rest: Seq<u8>|
            bytes@.skip(pos as int) == enc_u128(v) + rest implies x == v by {
            assert(bytes@.skip(pos as int) =~= enc_u64(lo64(v)) + (enc_u64(hi64(v)) + rest));
            assert(lo == lo64(v));
            assert(bytes@.skip(pos1 as int) =~= bytes@.skip(pos as int).skip(8));
            assert(bytes@.skip(pos1 as int) =~= enc_u64(hi64(v)) + rest);
            assert(hi == hi64(v));
            lemma_fundamental_div_mod(v as int, 0x10000000000000000);
        }
    }
    Some((x, pos2))
}

fn dec_usize(bytes: &Vec<u8>, pos: usize) -> (r: Option<(usize, usize)>)
    requires
        pos <= bytes@.len(),
    ensures
        r matches Some(vp) ==> vp.1 == pos + 8 && vp.1 <= bytes@.len() && bytes@.subrange(
            pos as int,
            vp.1 as int,
        ) == enc_u64(vp.0 as u64),
        forall|v: u64, rest: Seq<u8>|
            v <= usize::MAX && bytes@.skip(pos as int) == enc_u64(v) + rest ==> r == Some(
                (v as usize, (pos + 8) as usize),
            ),
{
    match dec_u64(bytes, pos) {
        Some((v, p)) => {
            if v <= usize::MAX as u64 {
                Some((v as usize, p))
            } else {
                None
            }
        },
        None => None,
    }
}

fn dec_string(bytes: &Vec<u8>, pos: usize) -> (r: Option<(String, usize)>)
    requires
        pos <= bytes@.len(),
    ensures
        r matches Some(vp) ==> pos <= vp.1 <= bytes@.len() && bytes@.subrange(
            pos as int,
            vp.1 as int,
        ) == enc_string(vp.0@) && encodable_string(vp.0@),
        forall|s: Seq<char>, rest: Seq<u8>|
            encodable_string(s) && bytes@.skip(pos as int) == enc_string(s) + rest ==> (r matches
            Some(vp) && vp.0@ == s && vp.1 == pos + enc_string(s).len()),
{
    broadcast use encode_utf8_valid_utf8, encode_utf8_decode_utf8;

    proof {
        lemma_auto_spec_u64_to_from_le_bytes();
    }
    let n_r = dec_usize(bytes, pos);
    let (n, pos1) = match n_r {
        Some(vp) => vp,
        None => {
            proof {
                assert forall|s: Seq<char>, rest: Seq<u8>|
                    !(encodable_string(s) && bytes@.skip(pos as int) == enc_string(s) + rest) by {
                    if encodable_string(s) && bytes@.skip(pos as int) == enc_string(s) + rest {
                        assert(bytes@.skip(pos as int) =~= enc_u64(
                            (encode_utf8(s).len() as usize) as u64,
                        ) + (encode_utf8(s) + rest));
                    }
                }
            }
            return None;
        },
    };
    if bytes.len() - pos1 < n {
        proof {
            assert forall|s: Seq<char>, rest: Seq<u8>|
                !(encodable_string(s) && bytes@.skip(pos as int) == enc_string(s) + rest) by {
                if encodable_string(s) && bytes@.skip(pos as int) == enc_string(s) + rest {
                    assert(bytes@.skip(pos as int) =~= enc_u64(
                        (encode_utf8(s).len() as usize) as u64,
                    ) + (encode_utf8(s) + rest));
                    assert(n == encode_utf8(s).len());
                    assert(bytes@.skip(pos1 as int) =~= bytes@.skip(pos as int).skip(8));
                    assert(bytes@.skip(pos1 as int) =~= encode_utf8(s) + rest);
                    assert(bytes@.skip(pos1 as int).len() >= n);
                }
            }
        }
        return None;
    }
    let sl = slice_subrange(bytes.as_slice(), pos1, pos1 + n);
    let sv = slice_to_vec(sl);
    let st_r = string_from_utf8(sv);
    match st_r {
        Some(st) => {
            proof {
                assert(encode_utf8(st@) == bytes@.subrange(pos1 as int, pos1 + n));
                assert(bytes@.subrange(pos as int, (pos1 + n) as int) =~= bytes@.subrange(
                    pos as int,
                    pos1 as int,
                ) + bytes@.subrange(pos1 as int, pos1 + n));
                assert(bytes@.subrange(pos as int, (pos1 + n) as int) == enc_string(st@));
                assert forall|s: Seq<char>, rest: Seq<u8>|
                    encodable_string(s) && bytes@.skip(pos as int) == enc_string(s)
                        + rest implies st@ == s && pos1 + n == pos + enc_string(s).len() by {
                    assert(bytes@.skip(pos as int) =~= enc_u64(
                        (encode_utf8(s).len() as usize) as u64,
                    ) + (encode_utf8(s) + rest));
                    assert(n == encode_utf8(s).len());
                    assert(bytes@.skip(pos1 as int) =~= bytes@.skip(pos as int).skip(8));
                    assert(bytes@.skip(pos1 as int) =~= encode_utf8(s) + rest);
                    assert(bytes@.subrange(pos1 as int, pos1 + n) =~= (encode_utf8(s)
                        + rest).take(n as int));
                    assert((encode_utf8(s) + rest).take(n as int) =~= encode_utf8(s));
                    assert(encode_utf8(st@) == encode_utf8(s));
                    assert(vstd::utf8::decode_utf8(encode_utf8(st@)) == st@);
                    assert(vstd::utf8::decode_utf8(encode_utf8(s)) == s);
                }
            }
            Some((st, pos1 + n))
        },
        None => {
            proof {
                assert forall|s: Seq<char>, rest: Seq<u8>|
                    !(encodable_string(s) && bytes@.skip(pos as int) == enc_string(s) + rest) by {
                    if encodable_string(s) && bytes@.skip(pos as int) == enc_string(s) + rest {
                        assert(bytes@.skip(pos as int) =~= enc_u64(
                            (encode_utf8(s).len() as usize) as u64,
                        ) + (encode_utf8(s) + rest));
                        assert(n == encode_utf8(s).len());
                        assert(bytes@.skip(pos1 as int) =~= bytes@.skip(pos as int).skip(8));
                        assert(bytes@.skip(pos1 as int) =~= encode_utf8(s) + rest);
                        assert(bytes@.subrange(pos1 as int, pos1 + n) =~= (encode_utf8(s)
                            + rest).take(n as int));
                        assert((encode_utf8(s) + rest).take(n as int) =~= encode_utf8(s));
                        assert(valid_utf8(bytes@.subrange(pos1 as int, pos1 + n)));
                    }
                }
            }
            None
        },
    }
}

proof fn lemma_u32s_step(v: Seq<u32>)
    requires
        v.len() > 0,
    ensures
        cat_map(v, u32f()) == enc_u32(v[0]) + cat_map(v.skip(1), u32f()),
{
    let f = u32f();
    assert(f(v[0]) == enc_u32(v[0]));
}

proof fn lemma_u32s_push(s: Seq<u32>, x: u32)
    ensures
        cat_map(s.push(x), u32f()) == cat_map(s, u32f()) + enc_u32(x),
{
    lemma_cat_map_push(s, u32f(), x);
    let f = u32f();
    assert(f(x) == enc_u32(x));
}

proof fn lemma_entries_step(es: Seq<(Seq<char>, Seq<char>)>)
    requires
        es.len() > 0,
    ensures
        cat_map(es, entryf()) == enc_entry(es[0]) + cat_map(es.skip(1), entryf()),
{
    let f = entryf();
    assert(f(es[0]) == enc_entry(es[0]));
}

proof fn lemma_entries_push(s: Seq<(Seq<char>, Seq<char>)>, x: (Seq<char>, Seq<char>))
    ensures
        cat_map(s.push(x), entryf()) == cat_map(s, entryf()) + enc_entry(x),
{
    lemma_cat_map_push(s, entryf(), x);
    let f = entryf();
    assert(f(x) == enc_entry(x));
}

proof fn lemma_points_step(ps: Seq<PointModel>)
    requires
        ps.len() > 0,
    ensures
        cat_map(ps, pointf()) == enc_point(ps[0]) + cat_map(ps.skip(1), pointf()),
{
    let f = pointf();
    assert(f(ps[0]) == enc_point(ps[0]));
}

proof fn lemma_points_push(s: Seq<PointModel>, x: PointModel)
    ensures
        cat_map(s.push(x), pointf()) == cat_map(s, pointf()) + enc_point(x),
{
    lemma_cat_map_push(s, pointf(), x);
    let f = pointf();
    assert(f(x) == enc_point(x));
}

proof fn lemma_map_step(m: Seq<(u128, usize)>)
    requires
        m.len() > 0,
    ensures
        cat_map(m, mapf()) == enc_map_entry(m[0]) + cat_map(m.skip(1), mapf()),
{
    let f = mapf();
    assert(f(m[0]) == enc_map_entry(m[0]));
}

proof fn lemma_map_push(s: Seq<(u128, usize)>, x: (u128, usize))
    ensures
        cat_map(s.push(x), mapf()) == cat_map(s, mapf()) + enc_map_entry(x),
{
    lemma_cat_map_push(s, mapf(), x);
    let f = mapf();
    assert(f(x) == enc_map_entry(x));
}

proof fn lemma_named_step(sm: Seq<(Seq<char>, CollectionModel)>)
    requires
        sm.len() > 0,
    ensures
        cat_map(sm, namedf()) == enc_named(sm[0]) + cat_map(sm.skip(1), namedf()),
{
    let f = namedf();
    assert(f(sm[0]) == enc_named(sm[0]));
}

proof fn lemma_named_push(s: Seq<(Seq<char>, CollectionModel)>, x: (Seq<char>, CollectionModel))
    ensures
        cat_map(s.push(x), namedf()) == cat_map(s, namedf()) + enc_named(x),
{
    lemma_cat_map_push(s, namedf(), x);
    let f = namedf();
    assert(f(x) == enc_named(x));
}

fn emit_u32s(out: &mut Vec<u8>, v: &Vec<u32>)
    ensures
        final(out)@ == old(out)@ + enc_u32s(v@),
        fits_len(v@.len()),
{
    emit_u64(out, v.len() as u64);
    let n = v.len();
    let ghost base = out@;
    for i in 0..n
        invariant
            n == v@.len(),
            out@ == base + cat_map(v@.take(i as int), u32f()),
    {
        emit_u32(out, v[i]);
        proof {
            lemma_u32s_push(v@.take(i as int), v@[i as int]);
            assert(v@.take(i as int).push(v@[i as int]) =~= v@.take(i + 1));
            assert(base + cat_map(v@.take(i as int), u32f()) + enc_u32(v@[i as int]) =~= base
                + cat_map(v@.take(i + 1), u32f()));
        }
    }
    proof {
        assert(v@.take(n as int) =~= v@);
        assert(old(out)@ + enc_u64(v@.len() as u64) + cat_map(v@, u32f()) =~= old(out)@ + enc_u32s(
            v@,
        ));
    }
}

fn emit_entries(out: &mut Vec<u8>, es: &Vec<(String, String)>)
    ensures
        final(out)@ == old(out)@ + enc_entries(es.deep_view()),
        encodable_entries(es.deep_view()),
{
    emit_u64(out, es.len() as u64);
    let n = es.len();
    let ghost esv = es.deep_view();
    let ghost base = out@;
    assert(esv.len() == n);
    for i in 0..n
        invariant
            n == es@.len(),
            esv == es.deep_view(),
            esv.len() == n,
            out@ == base + cat_map(esv.take(i as int), entryf()),
            forall|t: int|
                0 <= t < i ==> encodable_string((#[trigger] esv[t]).0) && encodable_string(
                    esv[t].1,
                ),
    {
        let ghost pre = out@;
        emit_string(out, &es[i].0);
        emit_string(out, &es[i].1);
        proof {
            assert(esv[i as int] == (es@[i as int].0@, es@[i as int].1@));
            assert(pre + enc_string(es@[i as int].0@) + enc_string(es@[i as int].1@) =~= pre
                + enc_entry(esv[i as int]));
            lemma_entries_push(esv.take(i as int), esv[i as int]);
            assert(esv.take(i as int).push(esv[i as int]) =~= esv.take(i + 1));
            assert(base + cat_map(esv.take(i as int), entryf()) + enc_entry(esv[i as int]) =~= base
                + cat_map(esv.take(i + 1), entryf()));
        }
    }
    proof {
        assert(esv.take(n as int) =~= esv);
        assert(old(out)@ + enc_u64(esv.len() as u64) + cat_map(esv, entryf()) =~= old(out)@
            + enc_entries(esv));
    }
}

fn emit_md(out: &mut Vec<u8>, md: &Option<Vec<(String, String)>>)
    ensures
        final(out)@ == old(out)@ + enc_md(
            match md {
                Some(m) => Some(m.deep_view()),
                None => None,
            },
        ),
        (match md {
            Some(m) => encodable_entries(m.deep_view()),
            None => true,
        }),
{
    match md {
        None => {
            out.push(0u8);
            assert(final(out)@ =~= old(out)@ + enc_tag(0u8));
        },
        Some(es) => {
            out.push(1u8);
            assert(out@ =~= old(out)@ + enc_tag(1u8));
            emit_entries(out, es);
            assert(old(out)@ + enc_tag(1u8) + enc_entries(es.deep_view()) =~= old(out)@ + (enc_tag(
                1u8,
            ) + enc_entries(es.deep_view())));
        },
    }
}

fn emit_point(out: &mut Vec<u8>, p: &crate::embedding::Point)
    ensures
        final(out)@ == old(out)@ + enc_point(p@),
        encodable_point(p@),
{
    emit_u128(out, p.id);
    emit_u32s(out, &p.vector);
    emit_md(out, &p.metadata);
    proof {
        assert(p@.vector =~= p.vector@);
        assert(old(out)@ + enc_u128(p@.id) + enc_u32s(p@.vector) + enc_md(p@.metadata) =~= old(
            out,
        )@ + enc_point(p@));
    }
}

fn emit_points(out: &mut Vec<u8>, ps: &Vec<crate::embedding::Point>)
    ensures
        final(out)@ == old(out)@ + enc_points(ps.deep_view()),
        fits_len(ps.deep_view().len()),
        forall|i: int| 0 <= i < ps.deep_view().len() ==> encodable_point(#[trigger] ps.deep_view()[i]),
{
    emit_u64(out, ps.len() as u64);
    let n = ps.len();
    let ghost psv = ps.deep_view();
    let ghost base = out@;
    assert(psv.len() == n);
    for i in 0..n
        invariant
            n == ps@.len(),
            psv == ps.deep_view(),
            psv.len() == n,
            out@ == base + cat_map(psv.take(i as int), pointf()),
            forall|t: int| 0 <= t < i ==> encodable_point(#[trigger] psv[t]),
    {
        emit_point(out, &ps[i]);
        proof {
            assert(psv[i as int] == ps@[i as int]@);
            lemma_points_push(psv.take(i as int), psv[i as int]);
            assert(psv.take(i as int).push(psv[i as int]) =~= psv.take(i + 1));
            assert(base + cat_map(psv.take(i as int), pointf()) + enc_point(psv[i as int]) =~= base
                + cat_map(psv.take(i + 1), pointf()));
        }
    }
    proof {
        assert(psv.take(n as int) =~= psv);
        assert(old(out)@ + enc_u64(psv.len() as u64) + cat_map(psv, pointf()) =~= old(out)@
            + enc_points(psv));
    }
}

fn emit_map(out: &mut Vec<u8>, m: &Vec<(u128, usize)>)
    ensures
        final(out)@ == old(out)@ + enc_map(m@),
        fits_len(m@.len()),
{
    emit_u64(out, m.len() as u64);
    let n = m.len();
    let ghost base = out@;
    for i in 0..n
        invariant
            n == m@.len(),
            out@ == base + cat_map(m@.take(i as int), mapf()),
    {
        let ghost pre = out@;
        let e = m[i];
        emit_u128(out, e.0);
        emit_u64(out, e.1 as u64);
        proof {
            assert(pre + enc_u128(m@[i as int].0) + enc_u64(m@[i as int].1 as u64) =~= pre
                + enc_map_entry(m@[i as int]));
            lemma_map_push(m@.take(i as int), m@[i as int]);
            assert(m@.take(i as int).push(m@[i as int]) =~= m@.take(i + 1));
            assert(base + cat_map(m@.take(i as int), mapf()) + enc_map_entry(m@[i as int]) =~= base
                + cat_map(m@.take(i + 1), mapf()));
        }
    }
    proof {
        assert(m@.take(n as int) =~= m@);
        assert(old(out)@ + enc_u64(m@.len() as u64) + cat_map(m@, mapf()) =~= old(out)@ + enc_map(
            m@,
        ));
    }
}

fn emit_config(out: &mut Vec<u8>, c: &IndexConfig)
    ensures
        final(out)@ == old(out)@ + enc_config(*c),
{
    match c.build_quality {
        crate::index::IndexBuildQuality::Quick => out.push(0u8),
        crate::index::IndexBuildQuality::Standard => out.push(1u8),
        crate::index::IndexBuildQuality::Robust => out.push(2u8),
    }
    assert(out@ =~= old(out)@ + enc_quality(c.build_quality));
    let ghost mid = out@;
    match c.embedding_type {
        crate::embedding::EmbeddingType::TextEmbedding3Small => {
            out.push(0u8);
            assert(out@ =~= mid + enc_tag(0u8));
        },
        crate::embedding::EmbeddingType::TextEmbedding3Large => {
            out.push(1u8);
            assert(out@ =~= mid + enc_tag(1u8));
        },
        crate::embedding::EmbeddingType::Custom(d) => {
            out.push(2u8);
            assert(out@ =~= mid + enc_tag(2u8));
            emit_u64(out, d as u64);
            assert(out@ =~= mid + (enc_tag(2u8) + enc_u64(d as u64)));
        },
    }
    assert(final(out)@ =~= old(out)@ + enc_config(*c));
}

fn emit_collection(out: &mut Vec<u8>, points: &Vec<crate::embedding::Point>, m: &Vec<(u128, usize)>, c: &IndexConfig)
    ensures
        final(out)@ == old(out)@ + enc_collection(
            CollectionModel { points: points.deep_view(), id_to_index: m@, index_config: *c },
        ),
        encodable_collection(
            CollectionModel { points: points.deep_view(), id_to_index: m@, index_config: *c },
        ),
{
    emit_points(out, points);
    emit_map(out, m);
    emit_config(out, c);
    proof {
        let cm = CollectionModel { points: points.deep_view(), id_to_index: m@, index_config: *c };
        assert(old(out)@ + enc_points(cm.points) + enc_map(cm.id_to_index) + enc_config(
            cm.index_config,
        ) =~= old(out)@ + enc_collection(cm));
    }
}

/// Serialize the whole registry, in order, into the snapshot format.
pub fn encode_state(collections: &Vec<(String, crate::collection::Collection)>) -> (out: Vec<u8>)
    ensures
        out@ == enc_state(collections.deep_view()),
        encodable_state(collections.deep_view()),
{
    let mut out: Vec<u8> = Vec::new();
    emit_u64(&mut out, collections.len() as u64);
    let n = collections.len();
    let ghost smv = collections.deep_view();
    let ghost base = out@;
    assert(smv.len() == n);
    for i in 0..n
        invariant
            n == collections@.len(),
            smv == collections.deep_view(),
            smv.len() == n,
            out@ == base + cat_map(smv.take(i as int), namedf()),
            forall|t: int|
                0 <= t < i ==> encodable_string((#[trigger] smv[t]).0) && encodable_collection(
                    smv[t].1,
                ),
    {
        let ghost pre = out@;
        emit_string(&mut out, &collections[i].0);
        emit_collection(
            &mut out,
            &collections[i].1.points,
            &collections[i].1.id_to_index,
            &collections[i].1.index_config,
        );
        proof {
            assert(smv[i as int] == (collections@[i as int].0@, collections@[i as int].1@));
            assert(smv[i as int].1 == CollectionModel {
                points: collections@[i as int].1.points.deep_view(),
                id_to_index: collections@[i as int].1.id_to_index@,
                index_config: collections@[i as int].1.index_config,
            });
            assert(pre + enc_string(smv[i as int].0) + enc_collection(smv[i as int].1) =~= pre
                + enc_named(smv[i as int]));
            lemma_named_push(smv.take(i as int), smv[i as int]);
            assert(smv.take(i as int).push(smv[i as int]) =~= smv.take(i + 1));
            assert(base + cat_map(smv.take(i as int), namedf()) + enc_named(smv[i as int]) =~= base
                + cat_map(smv.take(i + 1), namedf()));
        }
    }
    proof {
        assert(smv.take(n as int) =~= smv);
        assert(Seq::<u8>::empty() + enc_u64(smv.len() as u64) + cat_map(smv, namedf()) =~= enc_state(
            smv,
        ));
    }
    out
}

fn dec_byte(bytes: &Vec<u8>, pos: usize) -> (r: Option<(u8, usize)>)
    requires
        pos <= bytes@.len(),
    ensures
        r matches Some(vp) ==> vp.1 == pos + 1 && vp.1 <= bytes@.len() && bytes@.subrange(
            pos as int,
            vp.1 as int,
        ) == enc_tag(vp.0),
        forall|b: u8, rest: Seq<u8>|
            bytes@.skip(pos as int) == enc_tag(b) + rest ==> r == Some((b, (pos + 1) as usize)),
{
    if bytes.len() - pos < 1 {
        proof {
            assert forall|b: u8, rest: Seq<u8>| bytes@.skip(pos as int) != enc_tag(b) + rest by {
                if bytes@.skip(pos as int) == enc_tag(b) + rest {
                    assert(bytes@.skip(pos as int).len() >= 1);
                }
            }
        }
        return None;
    }
    let b = bytes[pos];
    proof {
        assert(bytes@.subrange(pos as int, pos + 1) =~= enc_tag(b));
        assert forall|bb: u8, rest: Seq<u8>|
            bytes@.skip(pos as int) == enc_tag(bb) + rest implies b == bb by {
            assert((enc_tag(bb) + rest)[0] == bb);
            assert(bytes@.skip(pos as int)[0] == bytes@[pos as int]);
        }
    }
    Some((b, pos + 1))
}

/// From a decomposition of the stream at `pos`, place the boundary after the
/// first part.
proof fn lemma_skip_concat(b: Seq<u8>, pos: int, a: Seq<u8>, tail: Seq<u8>)
    requires
        0 <= pos <= b.len(),
        b.skip(pos) == a + tail,
    ensures
        pos + a.len() <= b.len(),
        b.skip(pos + a.len()) == tail,
        b.subrange(pos, pos + a.len()) == a,
{
    assert(b.skip(pos).len() == b.len() - pos);
    assert((a + tail).len() == a.len() + tail.len());
    assert(pos + a.len() <= b.len());
    assert forall|j: int| 0 <= j < tail.len() implies b.skip(pos + a.len())[j] == tail[j] by {
        assert((a + tail)[a.len() + j] == tail[j]);
        assert(b.skip(pos)[a.len() + j] == b[pos + a.len() + j]);
        assert(b.skip(pos + a.len())[j] == b[pos + a.len() + j]);
    }
    assert(b.skip(pos + a.len()) =~= tail);
    assert forall|j: int| 0 <= j < a.len() implies b.subrange(pos, pos + a.len())[j] == a[j] by {
        assert(b.skip(pos)[j] == (a + tail)[j]);
    }
    assert(b.subrange(pos, pos + a.len()) =~= a);
}

proof fn lemma_subrange_concat(b: Seq<u8>, p0: int, p1: int, p2: int)
    requires
        0 <= p0 <= p1 <= p2 <= b.len(),
    ensures
        b.subrange(p0, p2) == b.subrange(p0, p1) + b.subrange(p1, p2),
{
    assert(b.subrange(p0, p2) =~= b.subrange(p0, p1) + b.subrange(p1, p2));
}

#[verifier::rlimit(60)]
fn dec_u32vec(bytes: &Vec<u8>, pos: usize) -> (r: Option<(Vec<u32>, usize)>)
    requires
        pos <= bytes@.len(),
    ensures
        r matches Some(vp) ==> pos <= vp.1 <= bytes@.len() && bytes@.subrange(
            pos as int,
            vp.1 as int,
        ) == enc_u32s(vp.0@) && fits_len(vp.0@.len()),
        forall|v: Seq<u32>, rest: Seq<u8>|
            fits_len(v.len()) && bytes@.skip(pos as int) == enc_u32s(v) + rest ==> (r matches Some(
                vp,
            ) && vp.0@ == v && vp.1 == pos + enc_u32s(v).len()),
{
    proof {
        lemma_auto_spec_u64_to_from_le_bytes();
        lemma_auto_spec_u32_to_from_le_bytes();
    }
    let n_r = dec_usize(bytes, pos);
    let (n, pos1) = match n_r {
        Some(vp) => vp,
        None => {
            proof {
                assert forall|v: Seq<u32>, rest: Seq<u8>|
                    !(fits_len(v.len()) && bytes@.skip(pos as int) == enc_u32s(v) + rest) by {
                    if fits_len(v.len()) && bytes@.skip(pos as int) == enc_u32s(v) + rest {
                        assert(bytes@.skip(pos as int) =~= enc_u64(v.len() as u64) + (cat_map(
                            v,
                            u32f(),
                        ) + rest));
                    }
                }
            }
            return None;
        },
    };
    let mut acc: Vec<u32> = Vec::new();
    let mut p = pos1;
    proof {
        assert forall|v: Seq<u32>, rest: Seq<u8>|
            fits_len(v.len()) && bytes@.skip(pos as int) == enc_u32s(v) + rest implies v.len() == n
            && acc@ == v.take(0) && bytes@.skip(p as int) == cat_map(v.skip(0), u32f()) + rest by {
            assert(bytes@.skip(pos as int) =~= enc_u64(v.len() as u64) + (cat_map(v, u32f())
                + rest));
            lemma_skip_concat(
                bytes@,
                pos as int,
                enc_u64(v.len() as u64),
                cat_map(v, u32f()) + rest,
            );
            assert(acc@ =~= v.take(0));
            assert(v.skip(0) =~= v);
        }
        assert(bytes@.subrange(pos1 as int, pos1 as int) =~= cat_map(acc@, u32f()));
    }
    for i in 0..n
        invariant
            pos <= pos1 <= p <= bytes@.len(),
            pos1 == pos + 8,
            acc@.len() == i,
            bytes@.subrange(pos as int, pos1 as int) == enc_u64(n as u64),
            bytes@.subrange(pos1 as int, p as int) == cat_map(acc@, u32f()),
            forall|v: Seq<u32>, rest: Seq<u8>|
                fits_len(v.len()) && bytes@.skip(pos as int) == enc_u32s(v) + rest ==> v.len() == n
                    && acc@ == v.take(i as int) && bytes@.skip(p as int) == cat_map(
                    v.skip(i as int),
                    u32f(),
                ) + rest,
    {
        let c_r = dec_u32(bytes, p);
        match c_r {
            Some((c, p2)) => {
                proof {
                    lemma_u32s_push(acc@, c);
                    lemma_subrange_concat(bytes@, pos1 as int, p as int, p2 as int);
                    assert(bytes@.subrange(pos1 as int, p2 as int) == cat_map(
                        acc@.push(c),
                        u32f(),
                    ));
                    assert forall|v: Seq<u32>, rest: Seq<u8>|
                        fits_len(v.len()) && bytes@.skip(pos as int) == enc_u32s(v)
                            + rest implies v.len() == n && acc@.push(c) == v.take(i + 1)
                        && bytes@.skip(p2 as int) == cat_map(v.skip(i + 1), u32f()) + rest by {
                        assert(i < v.len());
                        lemma_u32s_step(v.skip(i as int));
                        assert(v.skip(i as int)[0] == v[i as int]);
                        assert(v.skip(i as int).skip(1) =~= v.skip(i + 1));
                        assert(bytes@.skip(p as int) =~= enc_u32(v[i as int]) + (cat_map(
                            v.skip(i + 1),
                            u32f(),
                        ) + rest));
                        assert(c == v[i as int] && p2 == p + 4);
                        lemma_skip_concat(
                            bytes@,
                            p as int,
                            enc_u32(v[i as int]),
                            cat_map(v.skip(i + 1), u32f()) + rest,
                        );
                        assert(acc@.push(c) =~= v.take(i + 1));
                    }
                }
                acc.push(c);
                p = p2;
            },
            None => {
                proof {
                    assert forall|v: Seq<u32>, rest: Seq<u8>|
                        !(fits_len(v.len()) && bytes@.skip(pos as int) == enc_u32s(v) + rest) by {
                        if fits_len(v.len()) && bytes@.skip(pos as int) == enc_u32s(v) + rest {
                            assert(i < v.len());
                            lemma_u32s_step(v.skip(i as int));
                            assert(v.skip(i as int)[0] == v[i as int]);
                            assert(bytes@.skip(p as int) =~= enc_u32(v[i as int]) + (cat_map(
                                v.skip(i as int).skip(1),
                                u32f(),
                            ) + rest));
                        }
                    }
                }
                return None;
            },
        }
    }
    proof {
        lemma_subrange_concat(bytes@, pos as int, pos1 as int, p as int);
        assert(bytes@.subrange(pos as int, p as int) == enc_u32s(acc@));
        assert forall|v: Seq<u32>, rest: Seq<u8>|
            fits_len(v.len()) && bytes@.skip(pos as int) == enc_u32s(v) + rest implies acc@ == v
            && p == pos + enc_u32s(v).len() by {
            assert(acc@ == v.take(n as int));
            assert(v.take(n as int) =~= v);
            assert(bytes@.subrange(pos as int, p as int).len() == p - pos);
        }
    }
    Some((acc, p))
}

#[verifier::rlimit(60)]
fn dec_entries(bytes: &Vec<u8>, pos: usize) -> (r: Option<(Vec<(String, String)>, usize)>)
    requires
        pos <= bytes@.len(),
    ensures
        r matches Some(vp) ==> pos <= vp.1 <= bytes@.len() && bytes@.subrange(
            pos as int,
            vp.1 as int,
        ) == enc_entries(vp.0.deep_view()) && encodable_entries(vp.0.deep_view()),
        forall|v: Seq<(Seq<char>, Seq<char>)>, rest: Seq<u8>|
            encodable_entries(v) && bytes@.skip(pos as int) == enc_entries(v) + rest ==> (r matches
            Some(vp) && vp.0.deep_view() == v && vp.1 == pos + enc_entries(v).len()),
{
    proof {
        lemma_auto_spec_u64_to_from_le_bytes();
    }
    let n_r = dec_usize(bytes, pos);
    let (n, pos1) = match n_r {
        Some(vp) => vp,
        None => {
            proof {
                assert forall|v: Seq<(Seq<char>, Seq<char>)>, rest: Seq<u8>|
                    !(encodable_entries(v) && bytes@.skip(pos as int) == enc_entries(v) + rest) by {
                    if encodable_entries(v) && bytes@.skip(pos as int) == enc_entries(v) + rest {
                        assert(bytes@.skip(pos as int) =~= enc_u64(v.len() as u64) + (cat_map(
                            v,
                            entryf(),
                        ) + rest));
                    }
                }
            }
            return None;
        },
    };
    let mut acc: Vec<(String, String)> = Vec::new();
    let mut p = pos1;
    proof {
        assert forall|v: Seq<(Seq<char>, Seq<char>)>, rest: Seq<u8>|
            encodable_entries(v) && bytes@.skip(pos as int) == enc_entries(v)
                + rest implies v.len() == n && acc.deep_view() == v.take(0) && bytes@.skip(p as int)
            == cat_map(v.skip(0), entryf()) + rest by {
            assert(bytes@.skip(pos as int) =~= enc_u64(v.len() as u64) + (cat_map(v, entryf())
                + rest));
            lemma_skip_concat(
                bytes@,
                pos as int,
                enc_u64(v.len() as u64),
                cat_map(v, entryf()) + rest,
            );
            assert(acc.deep_view() =~= v.take(0));
            assert(v.skip(0) =~= v);
        }
        assert(bytes@.subrange(pos1 as int, pos1 as int) =~= cat_map(acc.deep_view(), entryf()));
    }
    for i in 0..n
        invariant
            pos <= pos1 <= p <= bytes@.len(),
            pos1 == pos + 8,
            acc@.len() == i,
            acc.deep_view().len() == i,
            bytes@.subrange(pos as int, pos1 as int) == enc_u64(n as u64),
            bytes@.subrange(pos1 as int, p as int) == cat_map(acc.deep_view(), entryf()),
            encodable_entries(acc.deep_view()),
            forall|v: Seq<(Seq<char>, Seq<char>)>, rest: Seq<u8>|
                encodable_entries(v) && bytes@.skip(pos as int) == enc_entries(v) + rest ==> v.len()
                    == n && acc.deep_view() == v.take(i as int) && bytes@.skip(p as int) == cat_map(
                    v.skip(i as int),
                    entryf(),
                ) + rest,
    {
        let ghost accv = acc.deep_view();
        let k_r = dec_string(bytes, p);
        let (key, pk) = match k_r {
            Some(vp) => vp,
            None => {
                proof {
                    assert forall|v: Seq<(Seq<char>, Seq<char>)>, rest: Seq<u8>|
                        !(encodable_entries(v) && bytes@.skip(pos as int) == enc_entries(v)
                            + rest) by {
                        if encodable_entries(v) && bytes@.skip(pos as int) == enc_entries(v)
                            + rest {
                            assert(i < v.len());
                            lemma_entries_step(v.skip(i as int));
                            assert(v.skip(i as int)[0] == v[i as int]);
                            assert(bytes@.skip(p as int) =~= enc_string(v[i as int].0)
                                + (enc_string(v[i as int].1) + (cat_map(
                                v.skip(i as int).skip(1),
                                entryf(),
                            ) + rest)));
                        }
                    }
                }
                return None;
            },
        };
        let v_r = dec_string(bytes, pk);
        let (val, pv) = match v_r {
            Some(vp) => vp,
            None => {
                proof {
                    assert forall|v: Seq<(Seq<char>, Seq<char>)>, rest: Seq<u8>|
                        !(encodable_entries(v) && bytes@.skip(pos as int) == enc_entries(v)
                            + rest) by {
                        if encodable_entries(v) && bytes@.skip(pos as int) == enc_entries(v)
                            + rest {
                            assert(i < v.len());
                            lemma_entries_step(v.skip(i as int));
                            assert(v.skip(i as int)[0] == v[i as int]);
                            assert(v.skip(i as int).skip(1) =~= v.skip(i + 1));
                            assert(bytes@.skip(p as int) =~= enc_string(v[i as int].0)
                                + (enc_string(v[i as int].1) + (cat_map(v.skip(i + 1), entryf())
                                + rest)));
                            assert(key@ == v[i as int].0 && pk == p + enc_string(
                                v[i as int].0,
                            ).len());
                            lemma_skip_concat(
                                bytes@,
                                p as int,
                                enc_string(v[i as int].0),
                                enc_string(v[i as int].1) + (cat_map(v.skip(i + 1), entryf())
                                    + rest),
                            );
                        }
                    }
                }
                return None;
            },
        };
        let ghost gkey = key@;
        let ghost gval = val@;
        proof {
            lemma_entries_push(accv, (gkey, gval));
            lemma_subrange_concat(bytes@, pos1 as int, p as int, pk as int);
            lemma_subrange_concat(bytes@, pos1 as int, pk as int, pv as int);
            assert(enc_string(gkey) + enc_string(gval) =~= enc_entry((gkey, gval)));
            assert(bytes@.subrange(pos1 as int, pv as int) == cat_map(
                accv.push((gkey, gval)),
                entryf(),
            ));
            assert forall|v: Seq<(Seq<char>, Seq<char>)>, rest: Seq<u8>|
                encodable_entries(v) && bytes@.skip(pos as int) == enc_entries(v)
                    + rest implies v.len() == n && accv.push((gkey, gval)) == v.take(i + 1)
                && bytes@.skip(pv as int) == cat_map(v.skip(i + 1), entryf()) + rest by {
                assert(i < v.len());
                lemma_entries_step(v.skip(i as int));
                assert(v.skip(i as int)[0] == v[i as int]);
                assert(v.skip(i as int).skip(1) =~= v.skip(i + 1));
                assert(bytes@.skip(p as int) =~= enc_string(v[i as int].0) + (enc_string(
                    v[i as int].1,
                ) + (cat_map(v.skip(i + 1), entryf()) + rest)));
                assert(gkey == v[i as int].0 && pk == p + enc_string(v[i as int].0).len());
                lemma_skip_concat(
                    bytes@,
                    p as int,
                    enc_string(v[i as int].0),
                    enc_string(v[i as int].1) + (cat_map(v.skip(i + 1), entryf()) + rest),
                );
                assert(gval == v[i as int].1 && pv == pk + enc_string(v[i as int].1).len());
                lemma_skip_concat(
                    bytes@,
                    pk as int,
                    enc_string(v[i as int].1),
                    cat_map(v.skip(i + 1), entryf()) + rest,
                );
                assert((gkey, gval) == v[i as int]);
                assert(accv.push((gkey, gval)) =~= v.take(i + 1));
            }
        }
        acc.push((key, val));
        p = pv;
        proof {
            assert(acc.deep_view()[i as int] == (gkey, gval));
            assert(acc.deep_view() =~= accv.push((gkey, gval)));
        }
    }
    proof {
        lemma_subrange_concat(bytes@, pos as int, pos1 as int, p as int);
        assert(bytes@.subrange(pos as int, p as int) == enc_entries(acc.deep_view()));
        assert forall|v: Seq<(Seq<char>, Seq<char>)>, rest: Seq<u8>|
            encodable_entries(v) && bytes@.skip(pos as int) == enc_entries(v)
                + rest implies acc.deep_view() == v && p == pos + enc_entries(v).len() by {
            assert(acc.deep_view() == v.take(n as int));
            assert(v.take(n as int) =~= v);
            assert(bytes@.subrange(pos as int, p as int).len() == p - pos);
        }
    }
    Some((acc, p))
}

#[verifier::rlimit(60)]
fn dec_md(bytes: &Vec<u8>, pos: usize) -> (r: Option<(Option<Vec<(String, String)>>, usize)>)
    requires
        pos <= bytes@.len(),
    ensures
        r matches Some(vp) ==> pos <= vp.1 <= bytes@.len() && bytes@.subrange(
            pos as int,
            vp.1 as int,
        ) == enc_md(
            match vp.0 {
                Some(m) => Some(m.deep_view()),
                None => None,
            },
        ) && (match vp.0 {
            Some(m) => encodable_entries(m.deep_view()),
            None => true,
        }),
        forall|md: Option<Seq<(Seq<char>, Seq<char>)>>, rest: Seq<u8>|
            (match md {
                Some(es) => encodable_entries(es),
                None => true,
            }) && bytes@.skip(pos as int) == enc_md(md) + rest ==> (r matches Some(vp) && (match vp.0 {
                Some(m) => Some(m.deep_view()),
                None => None,
            }) == md && vp.1 == pos + enc_md(md).len()),
{
    let t_r = dec_byte(bytes, pos);
    let (tag, pos1) = match t_r {
        Some(vp) => vp,
        None => {
            proof {
                assert forall|md: Option<Seq<(Seq<char>, Seq<char>)>>, rest: Seq<u8>|
                    !((match md {
                        Some(es) => encodable_entries(es),
                        None => true,
                    }) && bytes@.skip(pos as int) == enc_md(md) + rest) by {
                    if bytes@.skip(pos as int) == enc_md(md) + rest {
                        match md {
                            None => {
                                assert(bytes@.skip(pos as int) =~= enc_tag(0u8) + rest);
                            },
                            Some(es) => {
                                assert(bytes@.skip(pos as int) =~= enc_tag(1u8) + (enc_entries(es)
                                    + rest));
                            },
                        }
                    }
                }
            }
            return None;
        },
    };
    if tag == 0 {
        proof {
            assert(bytes@.subrange(pos as int, pos1 as int) == enc_md(
                None::<Seq<(Seq<char>, Seq<char>)>>,
            ));
            assert forall|md: Option<Seq<(Seq<char>, Seq<char>)>>, rest: Seq<u8>|
                (match md {
                    Some(es) => encodable_entries(es),
                    None => true,
                }) && bytes@.skip(pos as int) == enc_md(md) + rest implies md is None && pos1 == pos
                + enc_md(md).len() by {
                match md {
                    None => {
                        assert(enc_md(md).len() == 1);
                    },
                    Some(es) => {
                        assert(bytes@.skip(pos as int) =~= enc_tag(1u8) + (enc_entries(es) + rest));
                        assert(tag == 1u8);
                    },
                }
            }
        }
        return Some((None, pos1));
    }
    if tag == 1 {
        let e_r = dec_entries(bytes, pos1);
        match e_r {
            Some((es, p2)) => {
                proof {
                    lemma_subrange_concat(bytes@, pos as int, pos1 as int, p2 as int);
                    assert(bytes@.subrange(pos as int, p2 as int) == enc_md(
                        Some(es.deep_view()),
                    ));
                    assert forall|md: Option<Seq<(Seq<char>, Seq<char>)>>, rest: Seq<u8>|
                        (match md {
                            Some(m) => encodable_entries(m),
                            None => true,
                        }) && bytes@.skip(pos as int) == enc_md(md) + rest implies (md matches Some(
                        m,
                    ) && es.deep_view() == m && p2 == pos + enc_md(md).len()) by {
                        match md {
                            None => {
                                assert(bytes@.skip(pos as int) =~= enc_tag(0u8) + rest);
                                assert(tag == 0u8);
                            },
                            Some(m) => {
                                assert(bytes@.skip(pos as int) =~= enc_tag(1u8) + (enc_entries(m)
                                    + rest));
                                lemma_skip_concat(
                                    bytes@,
                                    pos as int,
                                    enc_tag(1u8),
                                    enc_entries(m) + rest,
                                );
                                assert(es.deep_view() == m && p2 == pos1 + enc_entries(m).len());
                            },
                        }
                    }
                }
                return Some((Some(es), p2));
            },
            None => {
                proof {
                    assert forall|md: Option<Seq<(Seq<char>, Seq<char>)>>, rest: Seq<u8>|
                        !((match md {
                            Some(m) => encodable_entries(m),
                            None => true,
                        }) && bytes@.skip(pos as int) == enc_md(md) + rest) by {
                        if bytes@.skip(pos as int) == enc_md(md) + rest {
                            match md {
                                None => {
                                    assert(bytes@.skip(pos as int) =~= enc_tag(0u8) + rest);
                                    assert(tag == 0u8);
                                },
                                Some(m) => {
                                    assert(bytes@.skip(pos as int) =~= enc_tag(1u8) + (enc_entries(
                                        m,
                                    ) + rest));
                                    lemma_skip_concat(
                                        bytes@,
                                        pos as int,
                                        enc_tag(1u8),
                                        enc_entries(m) + rest,
                                    );
                                },
                            }
                        }
                    }
                }
                return None;
            },
        }
    }
    proof {
        assert forall|md: Option<Seq<(Seq<char>, Seq<char>)>>, rest: Seq<u8>|
            !((match md {
                Some(m) => encodable_entries(m),
                None => true,
            }) && bytes@.skip(pos as int) == enc_md(md) + rest) by {
            if bytes@.skip(pos as int) == enc_md(md) + rest {
                match md {
                    None => {
                        assert(bytes@.skip(pos as int) =~= enc_tag(0u8) + rest);
                        assert(tag == 0u8);
                    },
                    Some(m) => {
                        assert(bytes@.skip(pos as int) =~= enc_tag(1u8) + (enc_entries(m) + rest));
                        assert(tag == 1u8);
                    },
                }
            }
        }
    }
    None
}

#[verifier::rlimit(100)]
fn dec_point(bytes: &Vec<u8>, pos: usize) -> (r: Option<(crate::embedding::Point, usize)>)
    requires
        pos <= bytes@.len(),
    ensures
        r matches Some(vp) ==> pos <= vp.1 <= bytes@.len() && bytes@.subrange(
            pos as int,
            vp.1 as int,
        ) == enc_point(vp.0@) && encodable_point(vp.0@),
        forall|pm: PointModel, rest: Seq<u8>|
            encodable_point(pm) && bytes@.skip(pos as int) == enc_point(pm) + rest ==> (r matches
            Some(vp) && vp.0@ == pm && vp.1 == pos + enc_point(pm).len()),
{
    let id_r = dec_u128(bytes, pos);
    let (id, pos1) = match id_r {
        Some(vp) => vp,
        None => {
            proof {
                assert forall|pm: PointModel, rest: Seq<u8>|
                    !(encodable_point(pm) && bytes@.skip(pos as int) == enc_point(pm) + rest) by {
                    if encodable_point(pm) && bytes@.skip(pos as int) == enc_point(pm) + rest {
                        assert(bytes@.skip(pos as int) =~= enc_u128(pm.id) + (enc_u32s(pm.vector)
                            + (enc_md(pm.metadata) + rest)));
                    }
                }
            }
            return None;
        },
    };
    let v_r = dec_u32vec(bytes, pos1);
    let (vector, pos2) = match v_r {
        Some(vp) => vp,
        None => {
            proof {
                assert forall|pm: PointModel, rest: Seq<u8>|
                    !(encodable_point(pm) && bytes@.skip(pos as int) == enc_point(pm) + rest) by {
                    if encodable_point(pm) && bytes@.skip(pos as int) == enc_point(pm) + rest {
                        assert(bytes@.skip(pos as int) =~= enc_u128(pm.id) + (enc_u32s(pm.vector)
                            + (enc_md(pm.metadata) + rest)));
                        lemma_skip_concat(
                            bytes@,
                            pos as int,
                            enc_u128(pm.id),
                            enc_u32s(pm.vector) + (enc_md(pm.metadata) + rest),
                        );
                    }
                }
            }
            return None;
        },
    };
    let m_r = dec_md(bytes, pos2);
    let (metadata, pos3) = match m_r {
        Some(vp) => vp,
        None => {
            proof {
                assert forall|pm: PointModel, rest: Seq<u8>|
                    !(encodable_point(pm) && bytes@.skip(pos as int) == enc_point(pm) + rest) by {
                    if encodable_point(pm) && bytes@.skip(pos as int) == enc_point(pm) + rest {
                        assert(bytes@.skip(pos as int) =~= enc_u128(pm.id) + (enc_u32s(pm.vector)
                            + (enc_md(pm.metadata) + rest)));
                        lemma_skip_concat(
                            bytes@,
                            pos as int,
                            enc_u128(pm.id),
                            enc_u32s(pm.vector) + (enc_md(pm.metadata) + rest),
                        );
                        lemma_skip_concat(
                            bytes@,
                            pos1 as int,
                            enc_u32s(pm.vector),
                            enc_md(pm.metadata) + rest,
                        );
                    }
                }
            }
            return None;
        },
    };
    let p = crate::embedding::Point { id, vector, metadata };
    proof {
        assert(p@.vector =~= p.vector@);
        lemma_subrange_concat(bytes@, pos as int, pos1 as int, pos2 as int);
        lemma_subrange_concat(bytes@, pos as int, pos2 as int, pos3 as int);
        assert(bytes@.subrange(pos as int, pos3 as int) == enc_point(p@));
        assert forall|pm: PointModel, rest: Seq<u8>|
            encodable_point(pm) && bytes@.skip(pos as int) == enc_point(pm) + rest implies p@ == pm
            && pos3 == pos + enc_point(pm).len() by {
            assert(bytes@.skip(pos as int) =~= enc_u128(pm.id) + (enc_u32s(pm.vector) + (enc_md(
                pm.metadata,
            ) + rest)));
            assert(id == pm.id);
            lemma_skip_concat(
                bytes@,
                pos as int,
                enc_u128(pm.id),
                enc_u32s(pm.vector) + (enc_md(pm.metadata) + rest),
            );
            assert(vector@ == pm.vector && pos2 == pos1 + enc_u32s(pm.vector).len());
            lemma_skip_concat(
                bytes@,
                pos1 as int,
                enc_u32s(pm.vector),
                enc_md(pm.metadata) + rest,
            );
            assert((match metadata {
                Some(m) => Some(m.deep_view()),
                None => None::<Seq<(Seq<char>, Seq<char>)>>,
            }) == pm.metadata && pos3 == pos2 + enc_md(pm.metadata).len());
            assert(p@ =~~= pm);
        }
    }
    Some((p, pos3))
}

#[verifier::rlimit(100)]
fn dec_points(bytes: &Vec<u8>, pos: usize) -> (r: Option<(Vec<crate::embedding::Point>, usize)>)
    requires
        pos <= bytes@.len(),
    ensures
        r matches Some(vp) ==> pos <= vp.1 <= bytes@.len() && bytes@.subrange(
            pos as int,
            vp.1 as int,
        ) == enc_points(vp.0.deep_view()) && fits_len(vp.0.deep_view().len()) && (forall|i: int|
            0 <= i < vp.0.deep_view().len() ==> encodable_point(#[trigger] vp.0.deep_view()[i])),
        forall|v: Seq<PointModel>, rest: Seq<u8>|
            fits_len(v.len()) && (forall|i: int|
                0 <= i < v.len() ==> encodable_point(#[trigger] v[i])) && bytes@.skip(pos as int)
                == enc_points(v) + rest ==> (r matches Some(vp) && vp.0.deep_view() == v && vp.1
                == pos + enc_points(v).len()),
{
    proof {
        lemma_auto_spec_u64_to_from_le_bytes();
    }
    let n_r = dec_usize(bytes, pos);
    let (n, pos1) = match n_r {
        Some(vp) => vp,
        None => {
            proof {
                assert forall|v: Seq<PointModel>, rest: Seq<u8>|
                    !(fits_len(v.len()) && (forall|i: int|
                        0 <= i < v.len() ==> encodable_point(#[trigger] v[i])) && bytes@.skip(
                        pos as int,
                    ) == enc_points(v) + rest) by {
                    if fits_len(v.len()) && bytes@.skip(pos as int) == enc_points(v) + rest {
                        assert(bytes@.skip(pos as int) =~= enc_u64(v.len() as u64) + (cat_map(
                            v,
                            pointf(),
                        ) + rest));
                    }
                }
            }
            return None;
        },
    };
    let mut acc: Vec<crate::embedding::Point> = Vec::new();
    let mut p = pos1;
    proof {
        assert forall|v: Seq<PointModel>, rest: Seq<u8>|
            fits_len(v.len()) && (forall|i: int| 0 <= i < v.len() ==> encodable_point(
                #[trigger] v[i],
            )) && bytes@.skip(pos as int) == enc_points(v) + rest implies v.len() == n
            && acc.deep_view() == v.take(0) && bytes@.skip(p as int) == cat_map(
            v.skip(0),
            pointf(),
        ) + rest by {
            assert(bytes@.skip(pos as int) =~= enc_u64(v.len() as u64) + (cat_map(v, pointf())
                + rest));
            lemma_skip_concat(
                bytes@,
                pos as int,
                enc_u64(v.len() as u64),
                cat_map(v, pointf()) + rest,
            );
            assert(acc.deep_view() =~= v.take(0));
            assert(v.skip(0) =~= v);
        }
        assert(bytes@.subrange(pos1 as int, pos1 as int) =~= cat_map(acc.deep_view(), pointf()));
    }
    for i in 0..n
        invariant
            pos <= pos1 <= p <= bytes@.len(),
            pos1 == pos + 8,
            acc@.len() == i,
            acc.deep_view().len() == i,
            bytes@.subrange(pos as int, pos1 as int) == enc_u64(n as u64),
            bytes@.subrange(pos1 as int, p as int) == cat_map(acc.deep_view(), pointf()),
            forall|t: int| 0 <= t < i ==> encodable_point(#[trigger] acc.deep_view()[t]),
            forall|v: Seq<PointModel>, rest: Seq<u8>|
                fits_len(v.len()) && (forall|k: int|
                    0 <= k < v.len() ==> encodable_point(#[trigger] v[k])) && bytes@.skip(
                    pos as int,
                ) == enc_points(v) + rest ==> v.len() == n && acc.deep_view() == v.take(i as int)
                    && bytes@.skip(p as int) == cat_map(v.skip(i as int), pointf()) + rest,
    {
        let ghost accv = acc.deep_view();
        let c_r = dec_point(bytes, p);
        match c_r {
            Some((pt, p2)) => {
                let ghost gpt = pt@;
                proof {
                    lemma_points_push(accv, gpt);
                    lemma_subrange_concat(bytes@, pos1 as int, p as int, p2 as int);
                    assert(bytes@.subrange(pos1 as int, p2 as int) == cat_map(
                        accv.push(gpt),
                        pointf(),
                    ));
                    assert forall|v: Seq<PointModel>, rest: Seq<u8>|
                        fits_len(v.len()) && (forall|k: int|
                            0 <= k < v.len() ==> encodable_point(#[trigger] v[k])) && bytes@.skip(
                            pos as int,
                        ) == enc_points(v) + rest implies v.len() == n && accv.push(gpt) == v.take(
                        i + 1,
                    ) && bytes@.skip(p2 as int) == cat_map(v.skip(i + 1), pointf()) + rest by {
                        assert(i < v.len());
                        lemma_points_step(v.skip(i as int));
                        assert(v.skip(i as int)[0] == v[i as int]);
                        assert(v.skip(i as int).skip(1) =~= v.skip(i + 1));
                        assert(bytes@.skip(p as int) =~= enc_point(v[i as int]) + (cat_map(
                            v.skip(i + 1),
                            pointf(),
                        ) + rest));
                        assert(encodable_point(v[i as int]));
                        assert(gpt == v[i as int] && p2 == p + enc_point(v[i as int]).len());
                        lemma_skip_concat(
                            bytes@,
                            p as int,
                            enc_point(v[i as int]),
                            cat_map(v.skip(i + 1), pointf()) + rest,
                        );
                        assert(accv.push(gpt) =~= v.take(i + 1));
                    }
                }
                acc.push(pt);
                p = p2;
                proof {
                    assert(acc.deep_view() =~= accv.push(gpt));
                }
            },
            None => {
                proof {
                    assert forall|v: Seq<PointModel>, rest: Seq<u8>|
                        !(fits_len(v.len()) && (forall|k: int|
                            0 <= k < v.len() ==> encodable_point(#[trigger] v[k])) && bytes@.skip(
                            pos as int,
                        ) == enc_points(v) + rest) by {
                        if fits_len(v.len()) && (forall|k: int|
                            0 <= k < v.len() ==> encodable_point(#[trigger] v[k])) && bytes@.skip(
                            pos as int,
                        ) == enc_points(v) + rest {
                            assert(i < v.len());
                            lemma_points_step(v.skip(i as int));
                            assert(v.skip(i as int)[0] == v[i as int]);
                            assert(bytes@.skip(p as int) =~= enc_point(v[i as int]) + (cat_map(
                                v.skip(i as int).skip(1),
                                pointf(),
                            ) + rest));
                            assert(encodable_point(v[i as int]));
                        }
                    }
                }
                return None;
            },
        }
    }
    proof {
        lemma_subrange_concat(bytes@, pos as int, pos1 as int, p as int);
        assert(bytes@.subrange(pos as int, p as int) == enc_points(acc.deep_view()));
        assert forall|v: Seq<PointModel>, rest: Seq<u8>|
            fits_len(v.len()) && (forall|k: int|
                0 <= k < v.len() ==> encodable_point(#[trigger] v[k])) && bytes@.skip(pos as int)
                == enc_points(v) + rest implies acc.deep_view() == v && p == pos + enc_points(
            v,
        ).len() by {
            assert(acc.deep_view() == v.take(n as int));
            assert(v.take(n as int) =~= v);
            assert(bytes@.subrange(pos as int, p as int).len() == p - pos);
        }
    }
    Some((acc, p))
}

#[verifier::rlimit(100)]
fn dec_map(bytes: &Vec<u8>, pos: usize) -> (r: Option<(Vec<(u128, usize)>, usize)>)
    requires
        pos <= bytes@.len(),
    ensures
        r matches Some(vp) ==> pos <= vp.1 <= bytes@.len() && bytes@.subrange(
            pos as int,
            vp.1 as int,
        ) == enc_map(vp.0@) && fits_len(vp.0@.len()),
        forall|v: Seq<(u128, usize)>, rest: Seq<u8>|
            fits_len(v.len()) && bytes@.skip(pos as int) == enc_map(v) + rest ==> (r matches Some(
                vp,
            ) && vp.0@ == v && vp.1 == pos + enc_map(v).len()),
{
    proof {
        lemma_auto_spec_u64_to_from_le_bytes();
    }
    let n_r = dec_usize(bytes, pos);
    let (n, pos1) = match n_r {
        Some(vp) => vp,
        None => {
            proof {
                assert forall|v: Seq<(u128, usize)>, rest: Seq<u8>|
                    !(fits_len(v.len()) && bytes@.skip(pos as int) == enc_map(v) + rest) by {
                    if fits_len(v.len()) && bytes@.skip(pos as int) == enc_map(v) + rest {
                        assert(bytes@.skip(pos as int) =~= enc_u64(v.len() as u64) + (cat_map(
                            v,
                            mapf(),
                        ) + rest));
                    }
                }
            }
            return None;
        },
    };
    let mut acc: Vec<(u128, usize)> = Vec::new();
    let mut p = pos1;
    proof {
        assert forall|v: Seq<(u128, usize)>, rest: Seq<u8>|
            fits_len(v.len()) && bytes@.skip(pos as int) == enc_map(v) + rest implies v.len() == n
            && acc@ == v.take(0) && bytes@.skip(p as int) == cat_map(v.skip(0), mapf()) + rest by {
            assert(bytes@.skip(pos as int) =~= enc_u64(v.len() as u64) + (cat_map(v, mapf())
                + rest));
            lemma_skip_concat(
                bytes@,
                pos as int,
                enc_u64(v.len() as u64),
                cat_map(v, mapf()) + rest,
            );
            assert(acc@ =~= v.take(0));
            assert(v.skip(0) =~= v);
        }
        assert(bytes@.subrange(pos1 as int, pos1 as int) =~= cat_map(acc@, mapf()));
    }
    for i in 0..n
        invariant
            pos <= pos1 <= p <= bytes@.len(),
            pos1 == pos + 8,
            acc@.len() == i,
            bytes@.subrange(pos as int, pos1 as int) == enc_u64(n as u64),
            bytes@.subrange(pos1 as int, p as int) == cat_map(acc@, mapf()),
            forall|v: Seq<(u128, usize)>, rest: Seq<u8>|
                fits_len(v.len()) && bytes@.skip(pos as int) == enc_map(v) + rest ==> v.len() == n
                    && acc@ == v.take(i as int) && bytes@.skip(p as int) == cat_map(
                    v.skip(i as int),
                    mapf(),
                ) + rest,
    {
        let ghost accv = acc@;
        let id_r = dec_u128(bytes, p);
        let (id, pm) = match id_r {
            Some(vp) => vp,
            None => {
                proof {
                    assert forall|v: Seq<(u128, usize)>, rest: Seq<u8>|
                        !(fits_len(v.len()) && bytes@.skip(pos as int) == enc_map(v) + rest) by {
                        if fits_len(v.len()) && bytes@.skip(pos as int) == enc_map(v) + rest {
                            assert(i < v.len());
                            lemma_map_step(v.skip(i as int));
                            assert(v.skip(i as int)[0] == v[i as int]);
                            assert(bytes@.skip(p as int) =~= enc_u128(v[i as int].0) + (enc_u64(
                                v[i as int].1 as u64,
                            ) + (cat_map(v.skip(i as int).skip(1), mapf()) + rest)));
                        }
                    }
                }
                return None;
            },
        };
        let s_r = dec_usize(bytes, pm);
        let (slot, p2) = match s_r {
            Some(vp) => vp,
            None => {
                proof {
                    assert forall|v: Seq<(u128, usize)>, rest: Seq<u8>|
                        !(fits_len(v.len()) && bytes@.skip(pos as int) == enc_map(v) + rest) by {
                        if fits_len(v.len()) && bytes@.skip(pos as int) == enc_map(v) + rest {
                            assert(i < v.len());
                            lemma_map_step(v.skip(i as int));
                            assert(v.skip(i as int)[0] == v[i as int]);
                            assert(bytes@.skip(p as int) =~= enc_u128(v[i as int].0) + (enc_u64(
                                v[i as int].1 as u64,
                            ) + (cat_map(v.skip(i as int).skip(1), mapf()) + rest)));
                            lemma_skip_concat(
                                bytes@,
                                p as int,
                                enc_u128(v[i as int].0),
                                enc_u64(v[i as int].1 as u64) + (cat_map(
                                    v.skip(i as int).skip(1),
                                    mapf(),
                                ) + rest),
                            );
                        }
                    }
                }
                return None;
            },
        };
        proof {
            lemma_map_push(accv, (id, slot));
            lemma_subrange_concat(bytes@, pos1 as int, p as int, pm as int);
            lemma_subrange_concat(bytes@, pos1 as int, pm as int, p2 as int);
            assert(enc_u128(id) + enc_u64(slot as u64) =~= enc_map_entry((id, slot)));
            assert(bytes@.subrange(pos1 as int, p2 as int) == cat_map(
                accv.push((id, slot)),
                mapf(),
            ));
            assert forall|v: Seq<(u128, usize)>, rest: Seq<u8>|
                fits_len(v.len()) && bytes@.skip(pos as int) == enc_map(v) + rest implies v.len()
                == n && accv.push((id, slot)) == v.take(i + 1) && bytes@.skip(p2 as int) == cat_map(
                v.skip(i + 1),
                mapf(),
            ) + rest by {
                assert(i < v.len());
                lemma_map_step(v.skip(i as int));
                assert(v.skip(i as int)[0] == v[i as int]);
                assert(v.skip(i as int).skip(1) =~= v.skip(i + 1));
                assert(bytes@.skip(p as int) =~= enc_u128(v[i as int].0) + (enc_u64(
                    v[i as int].1 as u64,
                ) + (cat_map(v.skip(i + 1), mapf()) + rest)));
                assert(id == v[i as int].0);
                lemma_skip_concat(
                    bytes@,
                    p as int,
                    enc_u128(v[i as int].0),
                    enc_u64(v[i as int].1 as u64) + (cat_map(v.skip(i + 1), mapf()) + rest),
                );
                assert(v[i as int].1 as u64 <= usize::MAX);
                assert(slot == v[i as int].1 && p2 == pm + 8);
                assert((id, slot) == v[i as int]);
                assert(accv.push((id, slot)) =~= v.take(i + 1));
                lemma_skip_concat(
                    bytes@,
                    pm as int,
                    enc_u64(v[i as int].1 as u64),
                    cat_map(v.skip(i + 1), mapf()) + rest,
                );
            }
        }
        acc.push((id, slot));
        p = p2;
    }
    proof {
        lemma_subrange_concat(bytes@, pos as int, pos1 as int, p as int);
        assert(bytes@.subrange(pos as int, p as int) == enc_map(acc@));
        assert forall|v: Seq<(u128, usize)>, rest: Seq<u8>|
            fits_len(v.len()) && bytes@.skip(pos as int) == enc_map(v) + rest implies acc@ == v && p
            == pos + enc_map(v).len() by {
            assert(acc@ == v.take(n as int));
            assert(v.take(n as int) =~= v);
            assert(bytes@.subrange(pos as int, p as int).len() == p - pos);
        }
    }
    Some((acc, p))
}

#[verifier::rlimit(60)]
fn dec_config(bytes: &Vec<u8>, pos: usize) -> (r: Option<(IndexConfig, usize)>)
    requires
        pos <= bytes@.len(),
    ensures
        r matches Some(vp) ==> pos <= vp.1 <= bytes@.len() && bytes@.subrange(
            pos as int,
            vp.1 as int,
        ) == enc_config(vp.0),
        forall|c: IndexConfig, rest: Seq<u8>|
            bytes@.skip(pos as int) == enc_config(c) + rest ==> (r matches Some(vp) && vp.0 == c
                && vp.1 == pos + enc_config(c).len()),
{
    proof {
        lemma_auto_spec_u64_to_from_le_bytes();
        assert forall|c: IndexConfig, rest: Seq<u8>|
            bytes@.skip(pos as int) == enc_config(c) + rest implies bytes@.skip(pos as int)
            == enc_quality(c.build_quality) + (enc_embedding(c.embedding_type) + rest) by {
            assert(bytes@.skip(pos as int) =~= enc_quality(c.build_quality) + (enc_embedding(
                c.embedding_type,
            ) + rest));
        }
    }
    let q_r = dec_byte(bytes, pos);
    let (qt, pos1) = match q_r {
        Some(vp) => vp,
        None => {
            proof {
                assert forall|c: IndexConfig, rest: Seq<u8>|
                    bytes@.skip(pos as int) != enc_config(c) + rest by {
                    if bytes@.skip(pos as int) == enc_config(c) + rest {
                        assert(enc_quality(c.build_quality) == enc_tag(
                            enc_quality(c.build_quality)[0],
                        ) || enc_quality(c.build_quality).len() == 1);
                        assert(bytes@.skip(pos as int) =~= enc_tag(enc_quality(
                            c.build_quality,
                        )[0]) + (enc_embedding(c.embedding_type) + rest));
                    }
                }
            }
            return None;
        },
    };
    let quality = if qt == 0 {
        crate::index::IndexBuildQuality::Quick
    } else if qt == 1 {
        crate::index::IndexBuildQuality::Standard
    } else if qt == 2 {
        crate::index::IndexBuildQuality::Robust
    } else {
        proof {
            assert forall|c: IndexConfig, rest: Seq<u8>|
                bytes@.skip(pos as int) != enc_config(c) + rest by {
                if bytes@.skip(pos as int) == enc_config(c) + rest {
                    assert(bytes@.skip(pos as int) =~= enc_tag(enc_quality(c.build_quality)[0]) + (
                    enc_embedding(c.embedding_type) + rest));
                    assert(qt == enc_quality(c.build_quality)[0]);
                }
            }
        }
        return None;
    };
    proof {
        assert(bytes@.subrange(pos as int, pos1 as int) == enc_quality(quality));
        assert forall|c: IndexConfig, rest: Seq<u8>|
            bytes@.skip(pos as int) == enc_config(c) + rest implies c.build_quality == quality
            && bytes@.skip(pos1 as int) == enc_embedding(c.embedding_type) + rest by {
            assert(bytes@.skip(pos as int) =~= enc_tag(enc_quality(c.build_quality)[0]) + (
            enc_embedding(c.embedding_type) + rest));
            assert(qt == enc_quality(c.build_quality)[0]);
            lemma_skip_concat(
                bytes@,
                pos as int,
                enc_tag(enc_quality(c.build_quality)[0]),
                enc_embedding(c.embedding_type) + rest,
            );
        }
    }
    let e_r = dec_byte(bytes, pos1);
    let (et, pos2) = match e_r {
        Some(vp) => vp,
        None => {
            proof {
                assert forall|c: IndexConfig, rest: Seq<u8>|
                    bytes@.skip(pos as int) != enc_config(c) + rest by {
                    if bytes@.skip(pos as int) == enc_config(c) + rest {
                        assert(bytes@.skip(pos1 as int) =~= enc_tag(enc_embedding(
                            c.embedding_type,
                        )[0]) + (enc_embedding(c.embedding_type).skip(1) + rest));
                    }
                }
            }
            return None;
        },
    };
    if et == 0 {
        proof {
            assert(bytes@.subrange(pos1 as int, pos2 as int) == enc_embedding(
                crate::embedding::EmbeddingType::TextEmbedding3Small,
            ));
            lemma_subrange_concat(bytes@, pos as int, pos1 as int, pos2 as int);
            assert forall|c: IndexConfig, rest: Seq<u8>|
                bytes@.skip(pos as int) == enc_config(c) + rest implies c.embedding_type
                == crate::embedding::EmbeddingType::TextEmbedding3Small && pos2 == pos + enc_config(
                c,
            ).len() by {
                match c.embedding_type {
                    crate::embedding::EmbeddingType::TextEmbedding3Small => {},
                    crate::embedding::EmbeddingType::TextEmbedding3Large => {
                        assert(bytes@.skip(pos1 as int) =~= enc_tag(1u8) + rest);
                    },
                    crate::embedding::EmbeddingType::Custom(d) => {
                        assert(bytes@.skip(pos1 as int) =~= enc_tag(2u8) + (enc_u64(d as u64)
                            + rest));
                    },
                }
                assert(bytes@.skip(pos1 as int) =~= enc_tag(0u8) + rest);
            }
        }
        return Some(
            (
                IndexConfig {
                    build_quality: quality,
                    embedding_type: crate::embedding::EmbeddingType::TextEmbedding3Small,
                },
                pos2,
            ),
        );
    }
    if et == 1 {
        proof {
            assert(bytes@.subrange(pos1 as int, pos2 as int) == enc_embedding(
                crate::embedding::EmbeddingType::TextEmbedding3Large,
            ));
            lemma_subrange_concat(bytes@, pos as int, pos1 as int, pos2 as int);
            assert forall|c: IndexConfig, rest: Seq<u8>|
                bytes@.skip(pos as int) == enc_config(c) + rest implies c.embedding_type
                == crate::embedding::EmbeddingType::TextEmbedding3Large && pos2 == pos + enc_config(
                c,
            ).len() by {
                match c.embedding_type {
                    crate::embedding::EmbeddingType::TextEmbedding3Small => {
                        assert(bytes@.skip(pos1 as int) =~= enc_tag(0u8) + rest);
                    },
                    crate::embedding::EmbeddingType::TextEmbedding3Large => {},
                    crate::embedding::EmbeddingType::Custom(d) => {
                        assert(bytes@.skip(pos1 as int) =~= enc_tag(2u8) + (enc_u64(d as u64)
                            + rest));
                    },
                }
                assert(bytes@.skip(pos1 as int) =~= enc_tag(1u8) + rest);
            }
        }
        return Some(
            (
                IndexConfig {
                    build_quality: quality,
                    embedding_type: crate::embedding::EmbeddingType::TextEmbedding3Large,
                },
                pos2,
            ),
        );
    }
    if et == 2 {
        let d_r = dec_usize(bytes, pos2);
        let (dim, pos3) = match d_r {
            Some(vp) => vp,
            None => {
                proof {
                    assert forall|c: IndexConfig, rest: Seq<u8>|
                        bytes@.skip(pos as int) != enc_config(c) + rest by {
                        if bytes@.skip(pos as int) == enc_config(c) + rest {
                            match c.embedding_type {
                                crate::embedding::EmbeddingType::TextEmbedding3Small => {
                                    assert(bytes@.skip(pos1 as int) =~= enc_tag(0u8) + rest);
                                },
                                crate::embedding::EmbeddingType::TextEmbedding3Large => {
                                    assert(bytes@.skip(pos1 as int) =~= enc_tag(1u8) + rest);
                                },
                                crate::embedding::EmbeddingType::Custom(d) => {
                                    assert(bytes@.skip(pos1 as int) =~= enc_tag(2u8) + (enc_u64(
                                        d as u64,
                                    ) + rest));
                                    lemma_skip_concat(
                                        bytes@,
                                        pos1 as int,
                                        enc_tag(2u8),
                                        enc_u64(d as u64) + rest,
                                    );
                                },
                            }
                        }
                    }
                }
                return None;
            },
        };
        proof {
            assert(bytes@.subrange(pos2 as int, pos3 as int) == enc_u64(dim as u64));
            lemma_subrange_concat(bytes@, pos1 as int, pos2 as int, pos3 as int);
            assert(bytes@.subrange(pos1 as int, pos3 as int) =~= enc_tag(2u8) + enc_u64(
                dim as u64,
            ));
            lemma_subrange_concat(bytes@, pos as int, pos1 as int, pos3 as int);
            assert forall|c: IndexConfig, rest: Seq<u8>|
                bytes@.skip(pos as int) == enc_config(c) + rest implies c.embedding_type
                == crate::embedding::EmbeddingType::Custom(dim) && pos3 == pos + enc_config(
                c,
            ).len() by {
                match c.embedding_type {
                    crate::embedding::EmbeddingType::TextEmbedding3Small => {
                        assert(bytes@.skip(pos1 as int) =~= enc_tag(0u8) + rest);
                    },
                    crate::embedding::EmbeddingType::TextEmbedding3Large => {
                        assert(bytes@.skip(pos1 as int) =~= enc_tag(1u8) + rest);
                    },
                    crate::embedding::EmbeddingType::Custom(d) => {
                        assert(bytes@.skip(pos1 as int) =~= enc_tag(2u8) + (enc_u64(d as u64)
                            + rest));
                        lemma_skip_concat(
                            bytes@,
                            pos1 as int,
                            enc_tag(2u8),
                            enc_u64(d as u64) + rest,
                        );
                        assert(d as u64 <= usize::MAX);
                        assert(dim == d);
                    },
                }
            }
        }
        return Some(
            (
                IndexConfig {
                    build_quality: quality,
                    embedding_type: crate::embedding::EmbeddingType::Custom(dim),
                },
                pos3,
            ),
        );
    }
    proof {
        assert forall|c: IndexConfig, rest: Seq<u8>| bytes@.skip(pos as int) != enc_config(c)
            + rest by {
            if bytes@.skip(pos as int) == enc_config(c) + rest {
                match c.embedding_type {
                    crate::embedding::EmbeddingType::TextEmbedding3Small => {
                        assert(bytes@.skip(pos1 as int) =~= enc_tag(0u8) + rest);
                    },
                    crate::embedding::EmbeddingType::TextEmbedding3Large => {
                        assert(bytes@.skip(pos1 as int) =~= enc_tag(1u8) + rest);
                    },
                    crate::embedding::EmbeddingType::Custom(d) => {
                        assert(bytes@.skip(pos1 as int) =~= enc_tag(2u8) + (enc_u64(d as u64)
                            + rest));
                    },
                }
            }
        }
    }
    None
}

#[verifier::rlimit(100)]
fn dec_collection(bytes: &Vec<u8>, pos: usize) -> (r: Option<(crate::state::CollectionState, usize)>)
    requires
        pos <= bytes@.len(),
    ensures
        r matches Some(vp) ==> pos <= vp.1 <= bytes@.len() && bytes@.subrange(
            pos as int,
            vp.1 as int,
        ) == enc_collection(vp.0@) && encodable_collection(vp.0@),
        forall|cm: CollectionModel, rest: Seq<u8>|
            encodable_collection(cm) && bytes@.skip(pos as int) == enc_collection(cm) + rest ==> (r
                matches Some(vp) && vp.0@ == cm && vp.1 == pos + enc_collection(cm).len()),
{
    let p_r = dec_points(bytes, pos);
    let (points, pos1) = match p_r {
        Some(vp) => vp,
        None => {
            proof {
                assert forall|cm: CollectionModel, rest: Seq<u8>|
                    !(encodable_collection(cm) && bytes@.skip(pos as int) == enc_collection(cm)
                        + rest) by {
                    if encodable_collection(cm) && bytes@.skip(pos as int) == enc_collection(cm)
                        + rest {
                        assert(bytes@.skip(pos as int) =~= enc_points(cm.points) + (enc_map(
                            cm.id_to_index,
                        ) + (enc_config(cm.index_config) + rest)));
                    }
                }
            }
            return None;
        },
    };
    let m_r = dec_map(bytes, pos1);
    let (id_to_index, pos2) = match m_r {
        Some(vp) => vp,
        None => {
            proof {
                assert forall|cm: CollectionModel, rest: Seq<u8>|
                    !(encodable_collection(cm) && bytes@.skip(pos as int) == enc_collection(cm)
                        + rest) by {
                    if encodable_collection(cm) && bytes@.skip(pos as int) == enc_collection(cm)
                        + rest {
                        assert(bytes@.skip(pos as int) =~= enc_points(cm.points) + (enc_map(
                            cm.id_to_index,
                        ) + (enc_config(cm.index_config) + rest)));
                        lemma_skip_concat(
                            bytes@,
                            pos as int,
                            enc_points(cm.points),
                            enc_map(cm.id_to_index) + (enc_config(cm.index_config) + rest),
                        );
                    }
                }
            }
            return None;
        },
    };
    let c_r = dec_config(bytes, pos2);
    let (config, pos3) = match c_r {
        Some(vp) => vp,
        None => {
            proof {
                assert forall|cm: CollectionModel, rest: Seq<u8>|
                    !(encodable_collection(cm) && bytes@.skip(pos as int) == enc_collection(cm)
                        + rest) by {
                    if encodable_collection(cm) && bytes@.skip(pos as int) == enc_collection(cm)
                        + rest {
                        assert(bytes@.skip(pos as int) =~= enc_points(cm.points) + (enc_map(
                            cm.id_to_index,
                        ) + (enc_config(cm.index_config) + rest)));
                        lemma_skip_concat(
                            bytes@,
                            pos as int,
                            enc_points(cm.points),
                            enc_map(cm.id_to_index) + (enc_config(cm.index_config) + rest),
                        );
                        lemma_skip_concat(
                            bytes@,
                            pos1 as int,
                            enc_map(cm.id_to_index),
                            enc_config(cm.index_config) + rest,
                        );
                    }
                }
            }
            return None;
        },
    };
    let st = crate::state::CollectionState {
        data: crate::state::CollectionData { points, id_to_index },
        index_config: config,
    };
    proof {
        lemma_subrange_concat(bytes@, pos as int, pos1 as int, pos2 as int);
        lemma_subrange_concat(bytes@, pos as int, pos2 as int, pos3 as int);
        assert(bytes@.subrange(pos as int, pos3 as int) == enc_collection(st@));
        assert forall|cm: CollectionModel, rest: Seq<u8>|
            encodable_collection(cm) && bytes@.skip(pos as int) == enc_collection(cm)
                + rest implies st@ == cm && pos3 == pos + enc_collection(cm).len() by {
            assert(bytes@.skip(pos as int) =~= enc_points(cm.points) + (enc_map(cm.id_to_index) + (
            enc_config(cm.index_config) + rest)));
            assert(points.deep_view() == cm.points);
            lemma_skip_concat(
                bytes@,
                pos as int,
                enc_points(cm.points),
                enc_map(cm.id_to_index) + (enc_config(cm.index_config) + rest),
            );
            assert(id_to_index@ == cm.id_to_index);
            lemma_skip_concat(
                bytes@,
                pos1 as int,
                enc_map(cm.id_to_index),
                enc_config(cm.index_config) + rest,
            );
            assert(config == cm.index_config);
            assert(st@ =~~= cm);
        }
    }
    Some((st, pos3))
}

/// Parse a whole snapshot. The entire buffer must be one well-formed
/// encoding; trailing or malformed bytes are rejected, never ignored.
#[verifier::rlimit(100)]
pub fn decode_state(bytes: &Vec<u8>) -> (r: Option<Vec<(String, crate::state::CollectionState)>>)
    ensures
        r matches Some(v) ==> bytes@ == enc_state(v.deep_view()) && encodable_state(v.deep_view()),
        forall|m: Seq<(Seq<char>, CollectionModel)>|
            encodable_state(m) && bytes@ == enc_state(m) ==> (r matches Some(v) && v.deep_view()
                == m),
{
    proof {
        lemma_auto_spec_u64_to_from_le_bytes();
        assert(bytes@.skip(0) =~= bytes@);
        assert forall|m: Seq<(Seq<char>, CollectionModel)>|
            encodable_state(m) && bytes@ == enc_state(m) implies bytes@.skip(0) == enc_state(m)
            + Seq::<u8>::empty() by {
            assert(enc_state(m) + Seq::<u8>::empty() =~= enc_state(m));
        }
    }
    let n_r = dec_usize(bytes, 0);
    let (n, pos1) = match n_r {
        Some(vp) => vp,
        None => {
            proof {
                assert forall|m: Seq<(Seq<char>, CollectionModel)>|
                    !(encodable_state(m) && bytes@ == enc_state(m)) by {
                    if encodable_state(m) && bytes@ == enc_state(m) {
                        assert(bytes@.skip(0) =~= enc_u64(m.len() as u64) + (cat_map(m, namedf())
                            + Seq::<u8>::empty()));
                    }
                }
            }
            return None;
        },
    };
    let mut acc: Vec<(String, crate::state::CollectionState)> = Vec::new();
    let mut p = pos1;
    proof {
        assert forall|m: Seq<(Seq<char>, CollectionModel)>|
            encodable_state(m) && bytes@ == enc_state(m) implies m.len() == n && acc.deep_view()
            == m.take(0) && bytes@.skip(p as int) == cat_map(m.skip(0), namedf()) + Seq::<
            u8,
        >::empty() by {
            assert(bytes@.skip(0) =~= enc_u64(m.len() as u64) + (cat_map(m, namedf()) + Seq::<
                u8,
            >::empty()));
            lemma_skip_concat(
                bytes@,
                0,
                enc_u64(m.len() as u64),
                cat_map(m, namedf()) + Seq::<u8>::empty(),
            );
            assert(acc.deep_view() =~= m.take(0));
            assert(m.skip(0) =~= m);
        }
        assert(bytes@.subrange(pos1 as int, pos1 as int) =~= cat_map(acc.deep_view(), namedf()));
    }
    for i in 0..n
        invariant
            pos1 <= p <= bytes@.len(),
            pos1 == 8,
            acc@.len() == i,
            acc.deep_view().len() == i,
            bytes@.subrange(0, pos1 as int) == enc_u64(n as u64),
            bytes@.subrange(pos1 as int, p as int) == cat_map(acc.deep_view(), namedf()),
            encodable_state(acc.deep_view()),
            forall|m: Seq<(Seq<char>, CollectionModel)>|
                encodable_state(m) && bytes@ == enc_state(m) ==> m.len() == n && acc.deep_view()
                    == m.take(i as int) && bytes@.skip(p as int) == cat_map(
                    m.skip(i as int),
                    namedf(),
                ) + Seq::<u8>::empty(),
    {
        let ghost accv = acc.deep_view();
        let s_r = dec_string(bytes, p);
        let (name, ps) = match s_r {
            Some(vp) => vp,
            None => {
                proof {
                    assert forall|m: Seq<(Seq<char>, CollectionModel)>|
                        !(encodable_state(m) && bytes@ == enc_state(m)) by {
                        if encodable_state(m) && bytes@ == enc_state(m) {
                            assert(i < m.len());
                            lemma_named_step(m.skip(i as int));
                            assert(m.skip(i as int)[0] == m[i as int]);
                            assert(bytes@.skip(p as int) =~= enc_string(m[i as int].0)
                                + (enc_collection(m[i as int].1) + (cat_map(
                                m.skip(i as int).skip(1),
                                namedf(),
                            ) + Seq::<u8>::empty())));
                        }
                    }
                }
                return None;
            },
        };
        let c_r = dec_collection(bytes, ps);
        let (cst, pc) = match c_r {
            Some(vp) => vp,
            None => {
                proof {
                    assert forall|m: Seq<(Seq<char>, CollectionModel)>|
                        !(encodable_state(m) && bytes@ == enc_state(m)) by {
                        if encodable_state(m) && bytes@ == enc_state(m) {
                            assert(i < m.len());
                            lemma_named_step(m.skip(i as int));
                            assert(m.skip(i as int)[0] == m[i as int]);
                            assert(bytes@.skip(p as int) =~= enc_string(m[i as int].0)
                                + (enc_collection(m[i as int].1) + (cat_map(
                                m.skip(i as int).skip(1),
                                namedf(),
                            ) + Seq::<u8>::empty())));
                            assert(name@ == m[i as int].0);
                            lemma_skip_concat(
                                bytes@,
                                p as int,
                                enc_string(m[i as int].0),
                                enc_collection(m[i as int].1) + (cat_map(
                                    m.skip(i as int).skip(1),
                                    namedf(),
                                ) + Seq::<u8>::empty()),
                            );
                        }
                    }
                }
                return None;
            },
        };
        let ghost gname = name@;
        let ghost gcst = cst@;
        proof {
            lemma_named_push(accv, (gname, gcst));
            lemma_subrange_concat(bytes@, pos1 as int, p as int, ps as int);
            lemma_subrange_concat(bytes@, pos1 as int, ps as int, pc as int);
            assert(enc_string(gname) + enc_collection(gcst) =~= enc_named((gname, gcst)));
            assert(bytes@.subrange(pos1 as int, pc as int) == cat_map(
                accv.push((gname, gcst)),
                namedf(),
            ));
            assert forall|m: Seq<(Seq<char>, CollectionModel)>|
                encodable_state(m) && bytes@ == enc_state(m) implies m.len() == n && accv.push(
                (gname, gcst),
            ) == m.take(i + 1) && bytes@.skip(pc as int) == cat_map(m.skip(i + 1), namedf()) + Seq::<
                u8,
            >::empty() by {
                assert(i < m.len());
                lemma_named_step(m.skip(i as int));
                assert(m.skip(i as int)[0] == m[i as int]);
                assert(m.skip(i as int).skip(1) =~= m.skip(i + 1));
                assert(bytes@.skip(p as int) =~= enc_string(m[i as int].0) + (enc_collection(
                    m[i as int].1,
                ) + (cat_map(m.skip(i + 1), namedf()) + Seq::<u8>::empty())));
                assert(gname == m[i as int].0);
                lemma_skip_concat(
                    bytes@,
                    p as int,
                    enc_string(m[i as int].0),
                    enc_collection(m[i as int].1) + (cat_map(m.skip(i + 1), namedf()) + Seq::<
                        u8,
                    >::empty()),
                );
                assert(gcst == m[i as int].1 && pc == ps + enc_collection(m[i as int].1).len());
                lemma_skip_concat(
                    bytes@,
                    ps as int,
                    enc_collection(m[i as int].1),
                    cat_map(m.skip(i + 1), namedf()) + Seq::<u8>::empty(),
                );
                assert((gname, gcst) == m[i as int]);
                assert(accv.push((gname, gcst)) =~= m.take(i + 1));
            }
        }
        acc.push((name, cst));
        p = pc;
        proof {
            assert(acc.deep_view()[i as int] == (gname, gcst));
            assert(acc.deep_view() =~= accv.push((gname, gcst)));
        }
    }
    if p != bytes.len() {
        proof {
            assert forall|m: Seq<(Seq<char>, CollectionModel)>|
                !(encodable_state(m) && bytes@ == enc_state(m)) by {
                if encodable_state(m) && bytes@ == enc_state(m) {
                    assert(m.take(n as int) =~= m);
                    assert(m.skip(n as int) =~= Seq::<(Seq<char>, CollectionModel)>::empty());
                    assert(cat_map(Seq::<(Seq<char>, CollectionModel)>::empty(), namedf())
                        == Seq::<u8>::empty());
                    assert(bytes@.skip(p as int) =~= Seq::<u8>::empty());
                    assert(bytes@.skip(p as int).len() == 0);
                }
            }
        }
        return None;
    }
    proof {
        lemma_subrange_concat(bytes@, 0, pos1 as int, p as int);
        assert(bytes@.subrange(0, p as int) =~= bytes@);
        assert(bytes@ == enc_state(acc.deep_view()));
        assert forall|m: Seq<(Seq<char>, CollectionModel)>|
            encodable_state(m) && bytes@ == enc_state(m) implies acc.deep_view() == m by {
            assert(acc.deep_view() == m.take(n as int));
            assert(m.take(n as int) =~= m);
        }
    }
    Some(acc)
}

} // verus!
