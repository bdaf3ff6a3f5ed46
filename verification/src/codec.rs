use vstd::prelude::*;
use vstd::utf8::{
    encode_utf8, decode_utf8, valid_utf8, encode_utf8_valid_utf8, encode_utf8_decode_utf8,
};
use crate::name::Name;
use crate::cache::{CachedUnit, dep_views};
use vstd::string::StrSliceExecFns;

verus! {

// --- The cache record format, as a function of the record's contents ---
//
// A record is: the unit's name, its output file path, its source set and
// its dependency set.  Numbers are eight little-endian bytes; a string is
// its UTF-8 byte length followed by its UTF-8 bytes; a list is its entry
// count followed by its entries.  A record must occupy the whole file.

/// Eight little-endian bytes of a number.
pub open spec fn enc_u64(n: u64) -> Seq<u8> {
    seq![
        (n & 0xff) as u8,
        ((n >> 8) & 0xff) as u8,
        ((n >> 16) & 0xff) as u8,
        ((n >> 24) & 0xff) as u8,
        ((n >> 32) & 0xff) as u8,
        ((n >> 40) & 0xff) as u8,
        ((n >> 48) & 0xff) as u8,
        ((n >> 56) & 0xff) as u8,
    ]
}

/// The number eight little-endian bytes hold.
pub open spec fn combine8(
    b0: u8,
    b1: u8,
    b2: u8,
    b3: u8,
    b4: u8,
    b5: u8,
    b6: u8,
    b7: u8,
) -> u64 {
    (b0 as u64) | ((b1 as u64) << 8) | ((b2 as u64) << 16) | ((b3 as u64) << 24) | ((
    b4 as u64) << 32) | ((b5 as u64) << 40) | ((b6 as u64) << 48) | ((b7 as u64) << 56)
}

pub open spec fn enc_str(s: Seq<char>) -> Seq<u8> {
    enc_u64(encode_utf8(s).len() as u64) + encode_utf8(s)
}

pub open spec fn enc_strs(ss: Seq<Seq<char>>) -> Seq<u8>
    decreases ss.len(),
{
    if ss.len() == 0 {
        Seq::empty()
    } else {
        enc_str(ss[0]) + enc_strs(ss.skip(1))
    }
}

pub open spec fn enc_name(n: Seq<Seq<char>>) -> Seq<u8> {
    enc_u64(n.len() as u64) + enc_strs(n)
}

pub open spec fn enc_names(nn: Seq<Seq<Seq<char>>>) -> Seq<u8>
    decreases nn.len(),
{
    if nn.len() == 0 {
        Seq::empty()
    } else {
        enc_name(nn[0]) + enc_names(nn.skip(1))
    }
}

/// One whole cache record.
pub open spec fn enc_unit(
    name: Seq<Seq<char>>,
    filepath: Seq<char>,
    sources: Seq<Seq<char>>,
    deps: Seq<Seq<Seq<char>>>,
) -> Seq<u8> {
    enc_name(name) + enc_str(filepath) + enc_u64(sources.len() as u64) + enc_strs(sources)
        + enc_u64(deps.len() as u64) + enc_names(deps)
}

/// What fits the format: lengths that eight bytes can carry.
pub open spec fn str_encodable(s: Seq<char>) -> bool {
    encode_utf8(s).len() <= u64::MAX
}

pub open spec fn name_encodable(n: Seq<Seq<char>>) -> bool {
    &&& n.len() <= u64::MAX
    &&& forall|i: int| 0 <= i < n.len() ==> str_encodable(#[trigger] n[i])
}

pub open spec fn unit_encodable(
    name: Seq<Seq<char>>,
    filepath: Seq<char>,
    sources: Seq<Seq<char>>,
    deps: Seq<Seq<Seq<char>>>,
) -> bool {
    &&& name_encodable(name)
    &&& str_encodable(filepath)
    &&& sources.len() <= u64::MAX
    &&& forall|i: int| 0 <= i < sources.len() ==> str_encodable(#[trigger] sources[i])
    &&& deps.len() <= u64::MAX
    &&& forall|i: int| 0 <= i < deps.len() ==> name_encodable(#[trigger] deps[i])
}

// --- The decoder, as a function of the bytes ---

pub open spec fn dec_u64(b: Seq<u8>) -> Option<(u64, Seq<u8>)> {
    if b.len() < 8 {
        None
    } else {
        Some((combine8(b[0], b[1], b[2], b[3], b[4], b[5], b[6], b[7]), b.skip(8)))
    }
}

pub open spec fn dec_str(b: Seq<u8>) -> Option<(Seq<char>, Seq<u8>)> {
    match dec_u64(b) {
        None => None,
        Some((n, rest)) => if (rest.len() as int) < (n as int) {
            None
        } else {
            let bytes = rest.take(n as int);
            if valid_utf8(bytes) {
                Some((decode_utf8(bytes), rest.skip(n as int)))
            } else {
                None
            }
        },
    }
}

pub open spec fn dec_strs(b: Seq<u8>, k: nat) -> Option<(Seq<Seq<char>>, Seq<u8>)>
    decreases k,
{
    if k == 0 {
        Some((Seq::empty(), b))
    } else {
        match dec_str(b) {
            None => None,
            Some((s, rest)) => match dec_strs(rest, (k - 1) as nat) {
                None => None,
                Some((ss, rest2)) => Some((seq![s] + ss, rest2)),
            },
        }
    }
}

pub open spec fn dec_name(b: Seq<u8>) -> Option<(Seq<Seq<char>>, Seq<u8>)> {
    match dec_u64(b) {
        None => None,
        Some((k, rest)) => dec_strs(rest, k as nat),
    }
}

pub open spec fn dec_names(b: Seq<u8>, k: nat) -> Option<(Seq<Seq<Seq<char>>>, Seq<u8>)>
    decreases k,
{
    if k == 0 {
        Some((Seq::empty(), b))
    } else {
        match dec_name(b) {
            None => None,
            Some((n, rest)) => match dec_names(rest, (k - 1) as nat) {
                None => None,
                Some((nn, rest2)) => Some((seq![n] + nn, rest2)),
            },
        }
    }
}

/// A whole record, which must consume the whole input.
pub open spec fn dec_unit(b: Seq<u8>) -> Option<
    (Seq<Seq<char>>, Seq<char>, Seq<Seq<char>>, Seq<Seq<Seq<char>>>),
> {
    match dec_name(b) {
        None => None,
        Some((name, r1)) => match dec_str(r1) {
            None => None,
            Some((filepath, r2)) => match dec_u64(r2) {
                None => None,
                Some((ns, r3)) => match dec_strs(r3, ns as nat) {
                    None => None,
                    Some((sources, r4)) => match dec_u64(r4) {
                        None => None,
                        Some((nd, r5)) => match dec_names(r5, nd as nat) {
                            None => None,
                            Some((deps, r6)) => if r6.len() == 0 {
                                Some((name, filepath, sources, deps))
                            } else {
                                None
                            },
                        },
                    },
                },
            },
        },
    }
}

// --- Round trip: decoding an encoded record gives the record back ---

pub proof fn lemma_dec_enc_u64(n: u64, rest: Seq<u8>)
    ensures
        dec_u64(enc_u64(n) + rest) == Some((n, rest)),
{
    let b = enc_u64(n) + rest;
    assert(b.len() >= 8);
    assert(b[0] == (n & 0xff) as u8);
    assert(b[1] == ((n >> 8) & 0xff) as u8);
    assert(b[2] == ((n >> 16) & 0xff) as u8);
    assert(b[3] == ((n >> 24) & 0xff) as u8);
    assert(b[4] == ((n >> 32) & 0xff) as u8);
    assert(b[5] == ((n >> 40) & 0xff) as u8);
    assert(b[6] == ((n >> 48) & 0xff) as u8);
    assert(b[7] == ((n >> 56) & 0xff) as u8);
    assert((((n & 0xff) as u8) as u64) | (((((n >> 8) & 0xff) as u8) as u64) << 8) | (((((n
        >> 16) & 0xff) as u8) as u64) << 16) | (((((n >> 24) & 0xff) as u8) as u64) << 24) | ((
    (((n >> 32) & 0xff) as u8) as u64) << 32) | (((((n >> 40) & 0xff) as u8) as u64) << 40) | ((
    (((n >> 48) & 0xff) as u8) as u64) << 48) | (((((n >> 56) & 0xff) as u8) as u64) << 56)
        == n) by (bit_vector);
    assert(b.skip(8) =~= rest);
}

pub proof fn lemma_dec_enc_str(s: Seq<char>, rest: Seq<u8>)
    requires
        str_encodable(s),
    ensures
        dec_str(enc_str(s) + rest) == Some((s, rest)),
{
    broadcast use encode_utf8_valid_utf8, encode_utf8_decode_utf8;

    let eu = encode_utf8(s);
    let l = eu.len() as u64;
    assert(enc_str(s) + rest =~= enc_u64(l) + (eu + rest));
    lemma_dec_enc_u64(l, eu + rest);
    assert((eu + rest).len() >= l as int);
    assert((eu + rest).take(l as int) =~= eu);
    assert((eu + rest).skip(l as int) =~= rest);
}

pub proof fn lemma_dec_enc_strs(ss: Seq<Seq<char>>, rest: Seq<u8>)
    requires
        forall|i: int| 0 <= i < ss.len() ==> str_encodable(#[trigger] ss[i]),
    ensures
        dec_strs(enc_strs(ss) + rest, ss.len()) == Some((ss, rest)),
    decreases ss.len(),
{
    if ss.len() == 0 {
        assert(enc_strs(ss) + rest =~= rest);
        assert(dec_strs(rest, 0) == Some((Seq::<Seq<char>>::empty(), rest)));
        assert(ss =~= Seq::<Seq<char>>::empty());
    } else {
        assert(enc_strs(ss) + rest =~= enc_str(ss[0]) + (enc_strs(ss.skip(1)) + rest));
        lemma_dec_enc_str(ss[0], enc_strs(ss.skip(1)) + rest);
        lemma_dec_enc_strs(ss.skip(1), rest);
        assert(seq![ss[0]] + ss.skip(1) =~= ss);
    }
}

pub proof fn lemma_dec_enc_name(n: Seq<Seq<char>>, rest: Seq<u8>)
    requires
        name_encodable(n),
    ensures
        dec_name(enc_name(n) + rest) == Some((n, rest)),
{
    assert(enc_name(n) + rest =~= enc_u64(n.len() as u64) + (enc_strs(n) + rest));
    lemma_dec_enc_u64(n.len() as u64, enc_strs(n) + rest);
    lemma_dec_enc_strs(n, rest);
}

pub proof fn lemma_dec_enc_names(nn: Seq<Seq<Seq<char>>>, rest: Seq<u8>)
    requires
        forall|i: int| 0 <= i < nn.len() ==> name_encodable(#[trigger] nn[i]),
    ensures
        dec_names(enc_names(nn) + rest, nn.len()) == Some((nn, rest)),
    decreases nn.len(),
{
    if nn.len() == 0 {
        assert(enc_names(nn) + rest =~= rest);
        assert(nn =~= Seq::<Seq<Seq<char>>>::empty());
    } else {
        assert(enc_names(nn) + rest =~= enc_name(nn[0]) + (enc_names(nn.skip(1)) + rest));
        lemma_dec_enc_name(nn[0], enc_names(nn.skip(1)) + rest);
        lemma_dec_enc_names(nn.skip(1), rest);
        assert(seq![nn[0]] + nn.skip(1) =~= nn);
    }
}

/// The round trip of the cache record format: a record written for these
/// contents reads back as exactly these contents.
pub proof fn lemma_record_round_trip(
    name: Seq<Seq<char>>,
    filepath: Seq<char>,
    sources: Seq<Seq<char>>,
    deps: Seq<Seq<Seq<char>>>,
)
    requires
        unit_encodable(name, filepath, sources, deps),
    ensures
        dec_unit(enc_unit(name, filepath, sources, deps)) == Some(
            (name, filepath, sources, deps),
        ),
{
    let tail4 = enc_u64(deps.len() as u64) + enc_names(deps);
    let tail3 = enc_strs(sources) + tail4;
    let tail2 = enc_u64(sources.len() as u64) + tail3;
    let tail1 = enc_str(filepath) + tail2;
    let all = enc_unit(name, filepath, sources, deps);
    assert(all =~= enc_name(name) + tail1);
    lemma_dec_enc_name(name, tail1);
    assert(tail1 =~= enc_str(filepath) + tail2);
    lemma_dec_enc_str(filepath, tail2);
    assert(tail2 =~= enc_u64(sources.len() as u64) + tail3);
    lemma_dec_enc_u64(sources.len() as u64, tail3);
    assert(tail3 =~= enc_strs(sources) + tail4);
    lemma_dec_enc_strs(sources, tail4);
    assert(tail4 =~= enc_u64(deps.len() as u64) + (enc_names(deps) + Seq::<u8>::empty()));
    lemma_dec_enc_u64(deps.len() as u64, enc_names(deps) + Seq::<u8>::empty());
    lemma_dec_enc_names(deps, Seq::<u8>::empty());
    assert(enc_names(deps) + Seq::<u8>::empty() =~= enc_names(deps));
}

// --- Executable encoder ---

pub proof fn lemma_enc_strs_snoc(ss: Seq<Seq<char>>, s: Seq<char>)
    ensures
        enc_strs(ss.push(s)) == enc_strs(ss) + enc_str(s),
    decreases ss.len(),
{
    if ss.len() == 0 {
        assert(ss.push(s)[0] == s);
        assert(ss.push(s).skip(1) =~= Seq::<Seq<char>>::empty());
        assert(enc_strs(Seq::<Seq<char>>::empty()) =~= Seq::<u8>::empty());
        assert(enc_strs(ss.push(s)) == enc_str(s) + enc_strs(Seq::<Seq<char>>::empty()));
        assert(enc_str(s) + Seq::<u8>::empty() =~= enc_str(s));
        assert(Seq::<u8>::empty() + enc_str(s) =~= enc_str(s));
        assert(enc_strs(ss.push(s)) =~= enc_strs(ss) + enc_str(s));
    } else {
        assert(ss.push(s).skip(1) =~= ss.skip(1).push(s));
        lemma_enc_strs_snoc(ss.skip(1), s);
        assert(enc_strs(ss.push(s)) =~= enc_strs(ss) + enc_str(s));
    }
}

pub proof fn lemma_enc_names_snoc(nn: Seq<Seq<Seq<char>>>, n: Seq<Seq<char>>)
    ensures
        enc_names(nn.push(n)) == enc_names(nn) + enc_name(n),
    decreases nn.len(),
{
    if nn.len() == 0 {
        assert(nn.push(n)[0] == n);
        assert(nn.push(n).skip(1) =~= Seq::<Seq<Seq<char>>>::empty());
        assert(enc_names(Seq::<Seq<Seq<char>>>::empty()) =~= Seq::<u8>::empty());
        assert(enc_names(nn.push(n)) == enc_name(n) + enc_names(
            Seq::<Seq<Seq<char>>>::empty(),
        ));
        assert(enc_name(n) + Seq::<u8>::empty() =~= enc_name(n));
        assert(Seq::<u8>::empty() + enc_name(n) =~= enc_name(n));
        assert(enc_names(nn.push(n)) =~= enc_names(nn) + enc_name(n));
    } else {
        assert(nn.push(n).skip(1) =~= nn.skip(1).push(n));
        lemma_enc_names_snoc(nn.skip(1), n);
        assert(enc_names(nn.push(n)) =~= enc_names(nn) + enc_name(n));
    }
}

/// Appends the eight little-endian bytes of a number.
fn push_u64(out: &mut Vec<u8>, n: u64)
    ensures
        final(out)@ == old(out)@ + enc_u64(n),
{
    proof {
        assert((n & 0xff) < 256 && ((n >> 8) & 0xff) < 256 && ((n >> 16) & 0xff) < 256 && ((n
            >> 24) & 0xff) < 256 && ((n >> 32) & 0xff) < 256 && ((n >> 40) & 0xff) < 256 && ((n
            >> 48) & 0xff) < 256 && ((n >> 56) & 0xff) < 256) by (bit_vector);
    }
    out.push((n & 0xff) as u8);
    out.push(((n >> 8) & 0xff) as u8);
    out.push(((n >> 16) & 0xff) as u8);
    out.push(((n >> 24) & 0xff) as u8);
    out.push(((n >> 32) & 0xff) as u8);
    out.push(((n >> 40) & 0xff) as u8);
    out.push(((n >> 48) & 0xff) as u8);
    out.push(((n >> 56) & 0xff) as u8);
    proof {
        assert(out@ =~= old(out)@ + enc_u64(n));
    }
}

/// Appends one length-prefixed string.
fn push_str(out: &mut Vec<u8>, s: &String)
    ensures
        final(out)@ == old(out)@ + enc_str(s@),
{
    let bytes = s.as_str().as_bytes_vec();
    let l: usize = bytes.len();
    push_u64(out, l as u64);
    let mut bytes = bytes;
    out.append(&mut bytes);
    proof {
        assert(out@ =~= old(out)@ + enc_str(s@));
    }
}

/// Appends one length-prefixed name.
fn push_name(out: &mut Vec<u8>, n: &Name)
    ensures
        final(out)@ == old(out)@ + enc_name(n@),
{
    let count: usize = n.segments.len();
    push_u64(out, count as u64);
    let ghost base = out@;
    let mut i: usize = 0;
    proof {
        assert(n@.take(0) =~= Seq::<Seq<char>>::empty());
        assert(base + enc_strs(n@.take(0)) =~= base);
    }
    while i < count
        invariant
            i <= count,
            count == n@.len(),
            out@ == base + enc_strs(n@.take(i as int)),
        decreases count - i,
    {
        push_str(out, &n.segments[i]);
        proof {
            assert(n@.take(i as int + 1) =~= n@.take(i as int).push(n@[i as int]));
            lemma_enc_strs_snoc(n@.take(i as int), n@[i as int]);
            assert(base + enc_strs(n@.take(i as int)) + enc_str(n@[i as int]) =~= base
                + enc_strs(n@.take(i as int + 1)));
        }
        i = i + 1;
    }
    proof {
        assert(n@.take(count as int) =~= n@);
        assert(out@ =~= old(out)@ + enc_name(n@));
    }
}

/// Serializes one cache record.
pub fn encode_unit(u: &CachedUnit) -> (r: Vec<u8>)
    ensures
        r@ == enc_unit(u.name@, u.filepath@, u.sources.deep_view(), dep_views(u.deps@)),
{
    let mut out: Vec<u8> = Vec::new();
    push_name(&mut out, &u.name);
    push_str(&mut out, &u.filepath);
    let ghost ssv = u.sources.deep_view();
    push_u64(&mut out, u.sources.len() as u64);
    let ghost base = out@;
    let mut i: usize = 0;
    proof {
        assert(ssv.take(0) =~= Seq::<Seq<char>>::empty());
        assert(base + enc_strs(ssv.take(0)) =~= base);
    }
    while i < u.sources.len()
        invariant
            i <= u.sources@.len(),
            ssv == u.sources.deep_view(),
            ssv.len() == u.sources@.len(),
            out@ == base + enc_strs(ssv.take(i as int)),
        decreases u.sources@.len() - i,
    {
        push_str(&mut out, &u.sources[i]);
        proof {
            assert(ssv.take(i as int + 1) =~= ssv.take(i as int).push(ssv[i as int]));
            lemma_enc_strs_snoc(ssv.take(i as int), ssv[i as int]);
            assert(base + enc_strs(ssv.take(i as int)) + enc_str(ssv[i as int]) =~= base
                + enc_strs(ssv.take(i as int + 1)));
        }
        i = i + 1;
    }
    proof {
        assert(ssv.take(u.sources@.len() as int) =~= ssv);
    }
    let ghost ddv = dep_views(u.deps@);
    push_u64(&mut out, u.deps.len() as u64);
    let ghost base2 = out@;
    let mut j: usize = 0;
    proof {
        assert(ddv.take(0) =~= Seq::<Seq<Seq<char>>>::empty());
        assert(base2 + enc_names(ddv.take(0)) =~= base2);
    }
    while j < u.deps.len()
        invariant
            j <= u.deps@.len(),
            ddv == dep_views(u.deps@),
            ddv.len() == u.deps@.len(),
            out@ == base2 + enc_names(ddv.take(j as int)),
        decreases u.deps@.len() - j,
    {
        push_name(&mut out, &u.deps[j]);
        proof {
            assert(ddv[j as int] == u.deps@[j as int]@);
            assert(ddv.take(j as int + 1) =~= ddv.take(j as int).push(ddv[j as int]));
            lemma_enc_names_snoc(ddv.take(j as int), ddv[j as int]);
            assert(base2 + enc_names(ddv.take(j as int)) + enc_name(ddv[j as int]) =~= base2
                + enc_names(ddv.take(j as int + 1)));
        }
        j = j + 1;
    }
    proof {
        assert(ddv.take(u.deps@.len() as int) =~= ddv);
        assert(out@ =~= enc_unit(u.name@, u.filepath@, ssv, ddv));
    }
    out
}

// --- Executable decoder ---

/// Relies on String::from_utf8: it returns the string whose bytes are the
/// input exactly when the input is valid UTF-8, and an error otherwise.
#[verifier::external_body]
fn string_from_utf8(v: Vec<u8>) -> (r: Option<String>)
    ensures
        r is Some <==> valid_utf8(v@),
        r matches Some(s) ==> encode_utf8(s@) == v@,
{
    match String::from_utf8(v) {
        Ok(s) => Some(s),
        Err(_) => None,
    }
}

/// Copies one byte range out of the buffer.
fn copy_range(b: &Vec<u8>, from: usize, to: usize) -> (r: Vec<u8>)
    requires
        from <= to <= b@.len(),
    ensures
        r@ == b@.subrange(from as int, to as int),
{
    let mut r: Vec<u8> = Vec::new();
    let mut i: usize = from;
    while i < to
        invariant
            from <= i <= to <= b@.len(),
            r@ =~= b@.subrange(from as int, i as int),
        decreases to - i,
    {
        r.push(b[i]);
        proof {
            assert(r@ =~= b@.subrange(from as int, i as int + 1));
        }
        i = i + 1;
    }
    proof {
        assert(r@ =~= b@.subrange(from as int, to as int));
    }
    r
}

/// Reads one number at a cursor position.
fn read_u64(b: &Vec<u8>, pos: usize) -> (r: Option<(u64, usize)>)
    requires
        pos <= b@.len(),
    ensures
        r is None ==> dec_u64(b@.skip(pos as int)) is None,
        r matches Some((n, p2)) ==> pos <= p2 <= b@.len() && dec_u64(b@.skip(pos as int))
            == Some((n, b@.skip(p2 as int))),
{
    if b.len() - pos < 8 {
        return None;
    }
    let n = (b[pos] as u64) | ((b[pos + 1] as u64) << 8) | ((b[pos + 2] as u64) << 16) | ((b[pos
        + 3] as u64) << 24) | ((b[pos + 4] as u64) << 32) | ((b[pos + 5] as u64) << 40) | ((b[pos
        + 6] as u64) << 48) | ((b[pos + 7] as u64) << 56);
    proof {
        let s = b@.skip(pos as int);
        assert(s[0] == b@[pos as int]);
        assert(s[1] == b@[pos as int + 1]);
        assert(s[2] == b@[pos as int + 2]);
        assert(s[3] == b@[pos as int + 3]);
        assert(s[4] == b@[pos as int + 4]);
        assert(s[5] == b@[pos as int + 5]);
        assert(s[6] == b@[pos as int + 6]);
        assert(s[7] == b@[pos as int + 7]);
        assert(s.skip(8) =~= b@.skip(pos as int + 8));
    }
    Some((n, pos + 8))
}

/// Reads one length-prefixed string at a cursor position.
fn read_string(b: &Vec<u8>, pos: usize) -> (r: Option<(String, usize)>)
    requires
        pos <= b@.len(),
    ensures
        r is None ==> dec_str(b@.skip(pos as int)) is None,
        r matches Some((s, p2)) ==> pos <= p2 <= b@.len() && dec_str(b@.skip(pos as int))
            == Some((s@, b@.skip(p2 as int))),
{
    broadcast use encode_utf8_decode_utf8;

    let (n, p1) = match read_u64(b, pos) {
        None => {
            return None;
        },
        Some(v) => v,
    };
    let remaining: usize = b.len() - p1;
    if n > remaining as u64 {
        proof {
            assert((b@.skip(p1 as int).len() as int) < (n as int));
        }
        return None;
    }
    let nlen: usize = n as usize;
    let bytes = copy_range(b, p1, p1 + nlen);
    proof {
        assert(b@.skip(p1 as int).take(n as int) =~= b@.subrange(
            p1 as int,
            p1 as int + nlen as int,
        ));
    }
    match string_from_utf8(bytes) {
        None => None,
        Some(s) => {
            proof {
                assert(b@.skip(p1 as int).skip(n as int) =~= b@.skip(p1 as int + nlen as int));
                assert(decode_utf8(encode_utf8(s@)) == s@);
            }
            Some((s, p1 + nlen))
        },
    }
}

/// Reads a counted list of strings at a cursor position.
fn read_strings(b: &Vec<u8>, pos: usize, k: u64) -> (r: Option<(Vec<String>, usize)>)
    requires
        pos <= b@.len(),
    ensures
        r is None ==> dec_strs(b@.skip(pos as int), k as nat) is None,
        r matches Some((ss, p2)) ==> pos <= p2 <= b@.len() && dec_strs(
            b@.skip(pos as int),
            k as nat,
        ) == Some((ss.deep_view(), b@.skip(p2 as int))),
{
    let mut ss: Vec<String> = Vec::new();
    let mut p: usize = pos;
    let mut i: u64 = 0;
    while i < k
        invariant
            i <= k,
            pos <= p <= b@.len(),
            dec_strs(b@.skip(pos as int), k as nat) == (match dec_strs(
                b@.skip(p as int),
                (k - i) as nat,
            ) {
                None => None::<(Seq<Seq<char>>, Seq<u8>)>,
                Some((tail, rest)) => Some((ss.deep_view() + tail, rest)),
            }),
        decreases k - i,
    {
        let (s, p2) = match read_string(b, p) {
            None => {
                return None;
            },
            Some(v) => v,
        };
        let ghost pre_ss = ss.deep_view();
        ss.push(s);
        proof {
            assert(ss.deep_view() =~= pre_ss.push(s@));
            match dec_strs(b@.skip(p2 as int), (k - i - 1) as nat) {
                Some((tail, rest)) => {
                    assert(pre_ss + (seq![s@] + tail) =~= pre_ss.push(s@) + tail);
                },
                None => {},
            }
        }
        p = p2;
        i = i + 1;
    }
    proof {
        assert(dec_strs(b@.skip(p as int), 0) == Some(
            (Seq::<Seq<char>>::empty(), b@.skip(p as int)),
        ));
        assert(ss.deep_view() + Seq::<Seq<char>>::empty() =~= ss.deep_view());
    }
    Some((ss, p))
}

/// Reads one length-prefixed name at a cursor position.
fn read_name(b: &Vec<u8>, pos: usize) -> (r: Option<(Name, usize)>)
    requires
        pos <= b@.len(),
    ensures
        r is None ==> dec_name(b@.skip(pos as int)) is None,
        r matches Some((n, p2)) ==> pos <= p2 <= b@.len() && dec_name(b@.skip(pos as int))
            == Some((n@, b@.skip(p2 as int))),
{
    let (k, p1) = match read_u64(b, pos) {
        None => {
            return None;
        },
        Some(v) => v,
    };
    match read_strings(b, p1, k) {
        None => None,
        Some((segments, p2)) => Some((Name { segments }, p2)),
    }
}

/// Reads a counted list of names at a cursor position.
fn read_names(b: &Vec<u8>, pos: usize, k: u64) -> (r: Option<(Vec<Name>, usize)>)
    requires
        pos <= b@.len(),
    ensures
        r is None ==> dec_names(b@.skip(pos as int), k as nat) is None,
        r matches Some((nn, p2)) ==> pos <= p2 <= b@.len() && dec_names(
            b@.skip(pos as int),
            k as nat,
        ) == Some((dep_views(nn@), b@.skip(p2 as int))),
{
    let mut nn: Vec<Name> = Vec::new();
    let mut p: usize = pos;
    let mut i: u64 = 0;
    proof {
        assert(dep_views(nn@) =~= Seq::<Seq<Seq<char>>>::empty());
    }
    while i < k
        invariant
            i <= k,
            pos <= p <= b@.len(),
            dec_names(b@.skip(pos as int), k as nat) == (match dec_names(
                b@.skip(p as int),
                (k - i) as nat,
            ) {
                None => None::<(Seq<Seq<Seq<char>>>, Seq<u8>)>,
                Some((tail, rest)) => Some((dep_views(nn@) + tail, rest)),
            }),
        decreases k - i,
    {
        let (n, p2) = match read_name(b, p) {
            None => {
                return None;
            },
            Some(v) => v,
        };
        let ghost pre_nn = dep_views(nn@);
        let ghost nv = n@;
        nn.push(n);
        proof {
            assert(dep_views(nn@) =~= pre_nn.push(nv));
            match dec_names(b@.skip(p2 as int), (k - i - 1) as nat) {
                Some((tail, rest)) => {
                    assert(pre_nn + (seq![nv] + tail) =~= pre_nn.push(nv) + tail);
                },
                None => {},
            }
        }
        p = p2;
        i = i + 1;
    }
    proof {
        assert(dep_views(nn@) + Seq::<Seq<Seq<char>>>::empty() =~= dep_views(nn@));
    }
    Some((nn, p))
}

/// Deserializes one cache record.  Returns nothing on any malformed input:
/// a corrupt record is discarded, never trusted.
pub fn decode_unit(b: &Vec<u8>) -> (r: Option<CachedUnit>)
    ensures
        r is None ==> dec_unit(b@) is None,
        r matches Some(u) ==> dec_unit(b@) == Some(
            (u.name@, u.filepath@, u.sources.deep_view(), dep_views(u.deps@)),
        ),
{
    proof {
        assert(b@.skip(0) =~= b@);
    }
    let (name, p1) = match read_name(b, 0) {
        None => {
            return None;
        },
        Some(v) => v,
    };
    let (filepath, p2) = match read_string(b, p1) {
        None => {
            return None;
        },
        Some(v) => v,
    };
    let (ns, p3) = match read_u64(b, p2) {
        None => {
            return None;
        },
        Some(v) => v,
    };
    let (sources, p4) = match read_strings(b, p3, ns) {
        None => {
            return None;
        },
        Some(v) => v,
    };
    let (nd, p5) = match read_u64(b, p4) {
        None => {
            return None;
        },
        Some(v) => v,
    };
    let (deps, p6) = match read_names(b, p5, nd) {
        None => {
            return None;
        },
        Some(v) => v,
    };
    if p6 != b.len() {
        proof {
            assert(b@.skip(p6 as int).len() > 0);
        }
        return None;
    }
    proof {
        assert(b@.skip(p6 as int).len() == 0);
    }
    Some(CachedUnit { name, filepath, sources, deps })
}

} // verus!
