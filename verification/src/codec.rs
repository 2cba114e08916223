//! The wire codec of the transport protocol.
//!
//! One record carries a raw invocation `{prog, argv, dir}`.  Every text
//! field travels as its UTF-8 bytes prefixed by their count as eight
//! little-endian bytes; the argument vector travels as its element count,
//! in the same prefix form, followed by its encoded elements.  A record is
//! therefore self-delimiting: the decoder consumes exactly the bytes that
//! belong to it and reports where the next record starts.

use vstd::bytes::{
    lemma_auto_spec_u64_to_from_le_bytes, spec_u64_from_le_bytes, spec_u64_to_le_bytes,
    u64_from_le_bytes, u64_to_le_bytes,
};
use vstd::prelude::*;
use vstd::slice::{slice_subrange, slice_to_vec};
use vstd::string::StrSliceExecFns;
use vstd::utf8::{
    decode_utf8, encode_utf8, encode_utf8_decode_utf8, encode_utf8_valid_utf8, valid_utf8,
};

verus! {

/// One raw invocation as observed at the point of execution: the invoked
/// program's path, its argument vector, and the working directory as text.
/// Immutable once sent.
#[derive(Debug)]
pub struct Cmdline {
    pub prog: String,
    pub argv: Vec<String>,
    pub dir: String,
}

/// Relies on `String::from_utf8`: it succeeds exactly on input that is
/// valid UTF-8, and the returned string's characters are the input's
/// UTF-8 decoding (`vstd`'s model of that encoding).
#[verifier::external_body]
pub(crate) fn string_from_utf8(bytes: Vec<u8>) -> (r: Option<String>)
    ensures
        r is Some <==> valid_utf8(bytes@),
        r matches Some(s) ==> s@ == decode_utf8(bytes@),
{
    String::from_utf8(bytes).ok()
}

/// Encoding of one text field: byte count, then UTF-8 bytes.
pub open spec fn spec_encode_str(s: Seq<char>) -> Seq<u8> {
    spec_u64_to_le_bytes(encode_utf8(s).len() as u64) + encode_utf8(s)
}

/// Encoding of a list of text fields, one after the other.
pub open spec fn spec_encode_list(v: Seq<Seq<char>>) -> Seq<u8>
    decreases v.len(),
{
    if v.len() == 0 {
        Seq::<u8>::empty()
    } else {
        spec_encode_str(v[0]) + spec_encode_list(v.drop_first())
    }
}

/// Bytes of one whole wire record.
pub open spec fn spec_encode_record(prog: Seq<char>, argv: Seq<Seq<char>>, dir: Seq<char>) -> Seq<
    u8,
> {
    spec_encode_str(prog) + spec_u64_to_le_bytes(argv.len() as u64) + spec_encode_list(argv)
        + spec_encode_str(dir)
}

/// What decoding one text field at `pos` yields: the field's characters and
/// the position just past it, or nothing if the bytes there are not a
/// well-formed field.
pub open spec fn spec_decode_str(b: Seq<u8>, pos: int) -> Option<(Seq<char>, int)> {
    if 0 <= pos && pos + 8 <= b.len() {
        let n = spec_u64_from_le_bytes(b.subrange(pos, pos + 8)) as int;
        if pos + 8 + n <= b.len() && valid_utf8(b.subrange(pos + 8, pos + 8 + n)) {
            Some((decode_utf8(b.subrange(pos + 8, pos + 8 + n)), pos + 8 + n))
        } else {
            None
        }
    } else {
        None
    }
}

/// What decoding `count` consecutive text fields at `pos` yields.
pub open spec fn spec_decode_list(b: Seq<u8>, pos: int, count: int) -> Option<
    (Seq<Seq<char>>, int),
>
    decreases count,
{
    if count <= 0 {
        Some((Seq::<Seq<char>>::empty(), pos))
    } else {
        match spec_decode_str(b, pos) {
            Some((s, p2)) => match spec_decode_list(b, p2, count - 1) {
                Some((rest, p3)) => Some((seq![s] + rest, p3)),
                None => None,
            },
            None => None,
        }
    }
}

/// What decoding one whole record at `pos` yields: the three fields and the
/// position just past the record.
pub open spec fn spec_decode_record(b: Seq<u8>, pos: int) -> Option<
    (Seq<char>, Seq<Seq<char>>, Seq<char>, int),
> {
    match spec_decode_str(b, pos) {
        Some((prog, p1)) => if p1 + 8 <= b.len() {
            let cnt = spec_u64_from_le_bytes(b.subrange(p1, p1 + 8)) as int;
            match spec_decode_list(b, p1 + 8, cnt) {
                Some((argv, p2)) => match spec_decode_str(b, p2) {
                    Some((dir, p3)) => Some((prog, argv, dir, p3)),
                    None => None,
                },
                None => None,
            }
        } else {
            None
        },
        None => None,
    }
}

/// Appends the encoding of one text field.
fn append_encoded_str(out: &mut Vec<u8>, s: &str)
    ensures
        final(out)@ == old(out)@ + spec_encode_str(s@),
{
    let mut bs = s.as_bytes_vec();
    let mut lenb = u64_to_le_bytes(bs.len() as u64);
    out.append(&mut lenb);
    out.append(&mut bs);
    proof {
        assert(final(out)@ =~= old(out)@ + spec_encode_str(s@));
    }
}

/// Encodes one invocation as one self-delimiting wire record, with its
/// argument vector and directory exactly as given.
pub fn encode_record(c: &Cmdline) -> (out: Vec<u8>)
    ensures
        out@ == spec_encode_record(c.prog@, c.argv.deep_view(), c.dir@),
{
    let ghost dv = c.argv.deep_view();
    let mut out: Vec<u8> = Vec::new();
    append_encoded_str(&mut out, c.prog.as_str());
    let mut cnt = u64_to_le_bytes(c.argv.len() as u64);
    out.append(&mut cnt);
    let ghost head = out@;
    proof {
        assert(dv.len() == c.argv@.len());
    }
    let n = c.argv.len();
    let mut i: usize = 0;
    while i < n
        invariant
            i <= n,
            n == c.argv@.len(),
            dv == c.argv.deep_view(),
            out@ == head + spec_encode_list(dv.take(i as int)),
        decreases n - i,
    {
        proof {
            assert(dv[i as int] == c.argv@[i as int]@);
        }
        append_encoded_str(&mut out, (&c.argv[i]).as_str());
        proof {
            lemma_encode_list_push(dv.take(i as int), dv[i as int]);
            assert(dv.take(i as int).push(dv[i as int]) =~= dv.take(i as int + 1));
        }
        i += 1;
    }
    append_encoded_str(&mut out, c.dir.as_str());
    proof {
        assert(dv.take(n as int) =~= dv);
        assert(out@ =~= spec_encode_record(c.prog@, dv, c.dir@));
    }
    out
}

proof fn lemma_encode_list_push(v: Seq<Seq<char>>, x: Seq<char>)
    ensures
        spec_encode_list(v.push(x)) == spec_encode_list(v) + spec_encode_str(x),
    decreases v.len(),
{
    reveal_with_fuel(spec_encode_list, 3);
    if v.len() == 0 {
        assert(v.push(x)[0] == x);
        assert(v.push(x).drop_first() =~= Seq::<Seq<char>>::empty());
        assert(spec_encode_list(v.push(x)) =~= spec_encode_list(v) + spec_encode_str(x));
    } else {
        assert(v.push(x)[0] == v[0]);
        assert(v.push(x).drop_first() =~= v.drop_first().push(x));
        lemma_encode_list_push(v.drop_first(), x);
        assert(spec_encode_list(v.push(x)) =~= spec_encode_list(v) + spec_encode_str(x));
    }
}

/// Where a buffer region holds `x + y`, its two halves hold `x` and `y`.
proof fn lemma_subrange_split(b: Seq<u8>, pos: int, x: Seq<u8>, y: Seq<u8>)
    requires
        0 <= pos,
        pos + x.len() + y.len() <= b.len(),
        b.subrange(pos, pos + x.len() + y.len()) == x + y,
    ensures
        b.subrange(pos, pos + x.len() as int) == x,
        b.subrange(pos + x.len(), pos + x.len() + y.len()) == y,
{
    assert forall|i: int| 0 <= i < x.len() implies b.subrange(pos, pos + x.len() as int)[i]
        == x[i] by {
        assert(b.subrange(pos, pos + x.len() + y.len())[i] == (x + y)[i]);
    }
    assert(b.subrange(pos, pos + x.len() as int) =~= x);
    assert forall|i: int| 0 <= i < y.len() implies b.subrange(
        pos + x.len(),
        pos + x.len() + y.len(),
    )[i] == y[i] by {
        let j = x.len() as int + i;
        assert(b.subrange(pos, pos + x.len() + y.len())[j] == (x + y)[j]);
        assert((x + y)[j] == y[i]);
        assert(b.subrange(pos, pos + x.len() + y.len())[j] == b[pos + j]);
        assert(b.subrange(pos + x.len(), pos + x.len() + y.len())[i] == b[pos + x.len() + i]);
    }
    assert(b.subrange(pos + x.len(), pos + x.len() + y.len()) =~= y);
}

/// Decodes one text field at `pos`, returning the field and the position
/// just past it; answers exactly as the specification does.
fn decode_str(bytes: &Vec<u8>, pos: usize) -> (r: Option<(String, usize)>)
    ensures
        match spec_decode_str(bytes@, pos as int) {
            Some(sp) => r matches Some((s, e)) && s@ == sp.0 && e as int == sp.1,
            None => r is None,
        },
{
    let len = bytes.len();
    if pos > len || len - pos < 8 {
        return None;
    }
    let lb = slice_subrange(bytes.as_slice(), pos, pos + 8);
    let n64 = u64_from_le_bytes(lb);
    let rem = (len - pos - 8) as u64;
    if n64 > rem {
        return None;
    }
    let n = n64 as usize;
    let sb = slice_subrange(bytes.as_slice(), pos + 8, pos + 8 + n);
    let sv = slice_to_vec(sb);
    match string_from_utf8(sv) {
        Some(s) => Some((s, pos + 8 + n)),
        None => None,
    }
}

/// Decodes one whole record at `pos`; answers exactly as the specification
/// does, so a record is consumed as one unit and the caller learns where
/// the next one starts.
#[verifier::loop_isolation(false)]
pub fn decode_record(bytes: &Vec<u8>, pos: usize) -> (r: Option<(Cmdline, usize)>)
    ensures
        match spec_decode_record(bytes@, pos as int) {
            Some(t) => r matches Some((c, e)) && c.prog@ == t.0 && c.argv.deep_view() == t.1
                && c.dir@ == t.2 && e as int == t.3,
            None => r is None,
        },
{
    let prog_dec = decode_str(bytes, pos);
    let (prog, p1) = match prog_dec {
        Some(pr) => pr,
        None => {
            return None;
        },
    };
    proof {
        assert(spec_decode_str(bytes@, pos as int) == Some((prog@, p1 as int)));
    }
    let len = bytes.len();
    if p1 > len || len - p1 < 8 {
        return None;
    }
    let cb = slice_subrange(bytes.as_slice(), p1, p1 + 8);
    let cnt = u64_from_le_bytes(cb);
    let start = p1 + 8;
    let ghost cnt_i = cnt as int;
    let mut items: Vec<String> = Vec::new();
    let mut p = start;
    let mut k: u64 = 0;
    proof {
        let inner0 = spec_decode_list(bytes@, start as int, cnt_i);
        if inner0 is Some {
            assert(items.deep_view() + (inner0->0).0 =~= (inner0->0).0);
        }
    }
    while k < cnt
        invariant
            k <= cnt,
            cnt_i == cnt as int,
            ({
                let outer = spec_decode_list(bytes@, start as int, cnt_i);
                let inner = spec_decode_list(bytes@, p as int, cnt_i - k as int);
                match inner {
                    Some(t) => outer == Some((items.deep_view() + t.0, t.1)),
                    None => outer is None,
                }
            }),
        decreases cnt - k,
    {
        let step = decode_str(bytes, p);
        match step {
            Some((s, p2)) => {
                let ghost old_dv = items.deep_view();
                let ghost m = cnt_i - k as int;
                let ghost pold = p as int;
                items.push(s);
                p = p2;
                k = k + 1;
                proof {
                    reveal_with_fuel(spec_decode_list, 2);
                    assert(items.deep_view() =~= old_dv.push(s@));
                    assert(spec_decode_str(bytes@, pold) == Some((s@, p as int)));
                    let inner2 = spec_decode_list(bytes@, p as int, m - 1);
                    if inner2 is Some {
                        let rest = (inner2->0).0;
                        assert(spec_decode_list(bytes@, pold, m) == Some(
                            ((seq![s@] + rest), (inner2->0).1),
                        ));
                        assert(old_dv + (seq![s@] + rest) =~= old_dv.push(s@) + rest);
                    } else {
                        assert(spec_decode_list(bytes@, pold, m) is None);
                    }
                }
            },
            None => {
                proof {
                    reveal_with_fuel(spec_decode_list, 2);
                    assert(spec_decode_str(bytes@, p as int) is None);
                    assert(spec_decode_list(bytes@, p as int, cnt_i - k as int) is None);
                }
                return None;
            },
        }
    }
    proof {
        assert(spec_decode_list(bytes@, p as int, 0) == Some((Seq::<Seq<char>>::empty(), p as int)));
        assert(items.deep_view() + Seq::<Seq<char>>::empty() =~= items.deep_view());
        assert(spec_decode_list(bytes@, start as int, cnt_i) == Some(
            (items.deep_view(), p as int),
        ));
    }
    let dir_dec = decode_str(bytes, p);
    match dir_dec {
        Some((dir, p3)) => {
            proof {
                assert(spec_decode_str(bytes@, p as int) == Some((dir@, p3 as int)));
            }
            Some((Cmdline { prog, argv: items, dir }, p3))
        },
        None => None,
    }
}

/// Decoding a text field never moves backwards and never runs past the end.
pub proof fn lemma_decode_str_bounds(b: Seq<u8>, pos: int)
    ensures
        spec_decode_str(b, pos) matches Some(sp) ==> pos + 8 <= sp.1 <= b.len(),
{
}

/// Decoding a record consumes at least its three length prefixes and never
/// runs past the end.
pub proof fn lemma_decode_record_bounds(b: Seq<u8>, pos: int)
    ensures
        spec_decode_record(b, pos) matches Some(t) ==> pos + 24 <= t.3 <= b.len(),
{
    if spec_decode_record(b, pos) is Some {
        let p1 = (spec_decode_str(b, pos)->0).1;
        lemma_decode_str_bounds(b, pos);
        let cnt = spec_u64_from_le_bytes(b.subrange(p1, p1 + 8)) as int;
        lemma_decode_list_bounds(b, p1 + 8, cnt);
        let p2 = (spec_decode_list(b, p1 + 8, cnt)->0).1;
        lemma_decode_str_bounds(b, p2);
    }
}

proof fn lemma_decode_list_bounds(b: Seq<u8>, pos: int, count: int)
    ensures
        spec_decode_list(b, pos, count) matches Some(t) ==> pos <= t.1 && (pos <= b.len() ==> t.1
            <= b.len()),
    decreases count,
{
    if count > 0 && spec_decode_list(b, pos, count) is Some {
        let p2 = (spec_decode_str(b, pos)->0).1;
        lemma_decode_str_bounds(b, pos);
        lemma_decode_list_bounds(b, p2, count - 1);
    }
}

/// Round trip for one text field: wherever a buffer holds the encoding of
/// `s`, decoding there yields `s` and stops exactly past it.
pub proof fn lemma_str_round_trip(b: Seq<u8>, pos: int, s: Seq<char>)
    requires
        0 <= pos,
        encode_utf8(s).len() <= u64::MAX,
        pos + spec_encode_str(s).len() <= b.len(),
        b.subrange(pos, pos + spec_encode_str(s).len()) == spec_encode_str(s),
    ensures
        spec_decode_str(b, pos) == Some((s, pos + spec_encode_str(s).len())),
{
    lemma_auto_spec_u64_to_from_le_bytes();
    let utf = encode_utf8(s);
    let lenb = spec_u64_to_le_bytes(utf.len() as u64);
    let enc = spec_encode_str(s);
    assert(lenb.len() == 8);
    assert(enc.len() == 8 + utf.len());
    lemma_subrange_split(b, pos, lenb, utf);
    assert(spec_u64_from_le_bytes(b.subrange(pos, pos + 8)) == utf.len() as u64);
    encode_utf8_valid_utf8(s);
    encode_utf8_decode_utf8(s);
}

proof fn lemma_list_round_trip(b: Seq<u8>, pos: int, v: Seq<Seq<char>>)
    requires
        0 <= pos,
        forall|i: int| 0 <= i < v.len() ==> encode_utf8(#[trigger] v[i]).len() <= u64::MAX,
        pos + spec_encode_list(v).len() <= b.len(),
        b.subrange(pos, pos + spec_encode_list(v).len()) == spec_encode_list(v),
    ensures
        spec_decode_list(b, pos, v.len() as int) == Some((v, pos + spec_encode_list(v).len())),
    decreases v.len(),
{
    if v.len() == 0 {
        assert((spec_decode_list(b, pos, 0)->0).0 =~= v);
    } else {
        let e0 = spec_encode_str(v[0]);
        let rest = spec_encode_list(v.drop_first());
        assert(spec_encode_list(v) == e0 + rest);
        lemma_subrange_split(b, pos, e0, rest);
        lemma_str_round_trip(b, pos, v[0]);
        let p2 = pos + e0.len();
        lemma_list_round_trip(b, p2, v.drop_first());
        assert(seq![v[0]] + v.drop_first() =~= v);
    }
}

/// The round-trip law of the wire protocol: wherever a buffer holds the
/// encoding of an invocation `{prog, argv, dir}` whose field lengths fit
/// the eight-byte prefixes, decoding there yields those three fields,
/// unchanged field for field, and consumes exactly the record's bytes.
pub proof fn lemma_record_round_trip(
    b: Seq<u8>,
    pos: int,
    prog: Seq<char>,
    argv: Seq<Seq<char>>,
    dir: Seq<char>,
)
    requires
        0 <= pos,
        encode_utf8(prog).len() <= u64::MAX,
        encode_utf8(dir).len() <= u64::MAX,
        argv.len() <= u64::MAX,
        forall|i: int| 0 <= i < argv.len() ==> encode_utf8(#[trigger] argv[i]).len() <= u64::MAX,
        pos + spec_encode_record(prog, argv, dir).len() <= b.len(),
        b.subrange(pos, pos + spec_encode_record(prog, argv, dir).len()) == spec_encode_record(
            prog,
            argv,
            dir,
        ),
    ensures
        spec_decode_record(b, pos) == Some(
            (prog, argv, dir, pos + spec_encode_record(prog, argv, dir).len()),
        ),
{
    lemma_auto_spec_u64_to_from_le_bytes();
    let ep = spec_encode_str(prog);
    let cb = spec_u64_to_le_bytes(argv.len() as u64);
    let el = spec_encode_list(argv);
    let ed = spec_encode_str(dir);
    let enc = spec_encode_record(prog, argv, dir);
    assert(cb.len() == 8);
    assert(enc =~= ep + (cb + (el + ed)));
    lemma_subrange_split(b, pos, ep, cb + (el + ed));
    lemma_str_round_trip(b, pos, prog);
    let p1 = pos + ep.len();
    lemma_subrange_split(b, p1, cb, el + ed);
    assert(spec_u64_from_le_bytes(b.subrange(p1, p1 + 8)) == argv.len() as u64);
    let p2 = p1 + 8;
    lemma_subrange_split(b, p2, el, ed);
    lemma_list_round_trip(b, p2, argv);
    let p3 = p2 + el.len();
    lemma_str_round_trip(b, p3, dir);
}

} // verus!
