//! Domain names on the wire: length-prefixed labels ended by a zero byte,
//! with compression pointers followed on decode.
use vstd::prelude::*;
use vstd::utf8::{decode_utf8, encode_utf8, valid_utf8};

use crate::bytes::append_bytes;
use crate::types::WireError;

verus! {

/// The byte that separates labels in a dotted name.
pub const DOT: u8 = 0x2e;

/// A length byte at or above this value opens a compression pointer.
pub const POINTER_MARK: u8 = 0xc0;

/// The dot-separated labels of a name's bytes, in order; a name without a dot
/// is one label, and the empty name is one empty label.
pub open spec fn split_labels(b: Seq<u8>) -> Seq<Seq<u8>>
    decreases b.len(),
{
    if b.len() == 0 {
        seq![Seq::empty()]
    } else {
        let prev = split_labels(b.drop_last());
        if b.last() == DOT {
            prev.push(Seq::empty())
        } else {
            prev.update(prev.len() - 1, prev.last().push(b.last()))
        }
    }
}

/// The labels joined by dots.
pub open spec fn join_labels(ls: Seq<Seq<u8>>) -> Seq<u8>
    decreases ls.len(),
{
    if ls.len() == 0 {
        Seq::empty()
    } else if ls.len() == 1 {
        ls[0]
    } else {
        join_labels(ls.drop_last()).push(DOT) + ls.last()
    }
}

/// Each label preceded by its length byte (the length modulo 256).
pub open spec fn labels_wire(ls: Seq<Seq<u8>>) -> Seq<u8>
    decreases ls.len(),
{
    if ls.len() == 0 {
        Seq::empty()
    } else {
        labels_wire(ls.drop_last()).push((ls.last().len() % 256) as u8) + ls.last()
    }
}

/// The wire form of a name: the labels of its UTF-8 bytes, then a zero byte.
pub open spec fn name_wire(name: Seq<char>) -> Seq<u8> {
    labels_wire(split_labels(encode_utf8(name))).push(0)
}

/// The offset a compression pointer made of bytes `hi`, `lo` refers to.
pub open spec fn pointer_target(hi: u8, lo: u8) -> int {
    (hi - POINTER_MARK) * 256 + lo
}

/// Reads the parts of the name that begins at `start`, from offset `pos` on:
/// literal labels up to a zero byte, or up to a compression pointer, whose
/// target name becomes the last part. Gives the parts and the offset just
/// past the zero byte or the two pointer bytes. A pointer must lead to an
/// offset before `start`, so that no chain of pointers can loop.
pub open spec fn read_parts(buf: Seq<u8>, start: nat, pos: int) -> Result<
    (Seq<Seq<u8>>, int),
    WireError,
>
    decreases start, buf.len() - pos,
{
    if pos < 0 || pos >= buf.len() {
        Err(WireError::TruncatedBuffer)
    } else if buf[pos] == 0 {
        Ok((Seq::empty(), pos + 1))
    } else if buf[pos] >= POINTER_MARK {
        if pos + 1 >= buf.len() {
            Err(WireError::TruncatedBuffer)
        } else {
            let target = pointer_target(buf[pos], buf[pos + 1]);
            if target >= start {
                Err(WireError::MalformedPointer)
            } else {
                match read_parts(buf, target as nat, target) {
                    Ok((inner, _)) => Ok((seq![join_labels(inner)], pos + 2)),
                    Err(e) => Err(e),
                }
            }
        }
    } else {
        let end = pos + 1 + buf[pos];
        if end > buf.len() {
            Err(WireError::TruncatedBuffer)
        } else {
            match read_parts(buf, start, end) {
                Ok((rest, next)) => Ok((seq![buf.subrange(pos + 1, end)] + rest, next)),
                Err(e) => Err(e),
            }
        }
    }
}

/// The bytes of the name at `pos` (its parts joined by dots) and the offset
/// after it.
pub open spec fn read_name_bytes(buf: Seq<u8>, pos: int) -> Result<(Seq<u8>, int), WireError> {
    match read_parts(buf, pos as nat, pos) {
        Ok((parts, next)) => Ok((join_labels(parts), next)),
        Err(e) => Err(e),
    }
}

/// The name at `pos` as text, and the offset after it; its bytes must be
/// valid UTF-8.
pub open spec fn read_name(buf: Seq<u8>, pos: int) -> Result<(Seq<char>, int), WireError> {
    match read_name_bytes(buf, pos) {
        Ok((bytes, next)) => if valid_utf8(bytes) {
            Ok((decode_utf8(bytes), next))
        } else {
            Err(WireError::InvalidEncoding)
        },
        Err(e) => Err(e),
    }
}

/// Relies on `String::from_utf8`: it succeeds exactly on valid UTF-8, and the
/// string then holds the characters those bytes encode.
#[verifier::external_body]
fn string_from_utf8(bytes: Vec<u8>) -> (r: Option<String>)
    ensures
        r is Some <==> valid_utf8(bytes@),
        r matches Some(s) ==> s@ == decode_utf8(bytes@),
{
    String::from_utf8(bytes).ok()
}

proof fn lemma_split_labels_nonempty(b: Seq<u8>)
    ensures
        split_labels(b).len() >= 1,
    decreases b.len(),
{
    if b.len() > 0 {
        lemma_split_labels_nonempty(b.drop_last());
    }
}

proof fn lemma_labels_wire_push(ls: Seq<Seq<u8>>, l: Seq<u8>)
    ensures
        labels_wire(ls.push(l)) == labels_wire(ls).push((l.len() % 256) as u8) + l,
{
    assert(ls.push(l).drop_last() =~= ls);
}

/// Appends the wire form of `name` to `out`: each dot-separated label of its
/// bytes with a length byte in front, then a zero byte. Names are written
/// without compression.
pub fn encode_name(name: &str, out: &mut Vec<u8>)
    ensures
        final(out)@ == old(out)@ + name_wire(name@),
{
    let bytes = name.as_bytes();
    assert(bytes@ == encode_utf8(name@));
    let mut start: usize = 0;
    let mut i: usize = 0;
    proof {
        assert(bytes@.subrange(0, 0) =~= Seq::<u8>::empty());
        assert(seq![Seq::<u8>::empty()].drop_last() =~= Seq::<Seq<u8>>::empty());
        assert(bytes@.subrange(0, 0) =~= bytes@.subrange(0, 0));
        assert(out@ =~= old(out)@ + labels_wire(Seq::empty()));
    }
    while i < bytes.len()
        invariant
            start <= i <= bytes@.len(),
            bytes@ == encode_utf8(name@),
            split_labels(bytes@.subrange(0, i as int)).len() >= 1,
            out@ == old(out)@ + labels_wire(split_labels(bytes@.subrange(0, i as int)).drop_last()),
            split_labels(bytes@.subrange(0, i as int)).last() == bytes@.subrange(
                start as int,
                i as int,
            ),
        decreases bytes.len() - i,
    {
        let ghost prefix = bytes@.subrange(0, i as int);
        let ghost next = bytes@.subrange(0, i + 1);
        assert(next.drop_last() =~= prefix);
        let ghost prev = split_labels(prefix);
        if bytes[i] == DOT {
            let len = i - start;
            out.push((len % 256) as u8);
            append_bytes(out, &bytes[start..i]);
            proof {
                lemma_labels_wire_push(prev.drop_last(), prev.last());
                assert(prev.drop_last().push(prev.last()) =~= prev);
                assert(split_labels(next) == prev.push(Seq::empty()));
                assert(split_labels(next).drop_last() =~= prev);
            }
            start = i + 1;
        } else {
            proof {
                let cur = split_labels(next);
                assert(cur == prev.update(prev.len() - 1, prev.last().push(bytes@[i as int])));
                assert(cur.drop_last() =~= prev.drop_last());
                assert(cur.last() =~= bytes@.subrange(start as int, i + 1));
            }
        }
        i += 1;
    }
    let ghost all = split_labels(bytes@.subrange(0, i as int));
    out.push(((i - start) % 256) as u8);
    append_bytes(out, &bytes[start..i]);
    out.push(0);
    proof {
        assert(bytes@.subrange(0, i as int) =~= bytes@);
        lemma_labels_wire_push(all.drop_last(), all.last());
        assert(all.drop_last().push(all.last()) =~= all);
        assert(out@ =~= old(out)@ + name_wire(name@));
    }
}

proof fn lemma_join_labels_push(ls: Seq<Seq<u8>>, l: Seq<u8>)
    ensures
        join_labels(ls.push(l)) == if ls.len() == 0 {
            l
        } else {
            join_labels(ls).push(DOT) + l
        },
{
    assert(ls.push(l).drop_last() =~= ls);
    if ls.len() == 0 {
        assert(ls.push(l)[0] == l);
    }
}

/// Reads the bytes of the name that begins at `start`, following compression
/// pointers, and the offset just after the name.
fn read_name_bytes_at(buf: &[u8], start: usize) -> (r: Result<(Vec<u8>, usize), WireError>)
    ensures
        match r {
            Ok((b, n)) => read_name_bytes(buf@, start as int) == Ok::<(Seq<u8>, int), WireError>(
                (b@, n as int),
            ),
            Err(e) => read_name_bytes(buf@, start as int) == Err::<(Seq<u8>, int), WireError>(e),
        },
    decreases start,
{
    if start >= buf.len() {
        return Err(WireError::TruncatedBuffer);
    }
    let mut name: Vec<u8> = Vec::new();
    let ghost mut parts: Seq<Seq<u8>> = Seq::empty();
    let mut pos: usize = start;
    let mut first = true;
    proof {
        let whole = read_parts(buf@, start as nat, start as int);
        match whole {
            Ok((rest, next)) => {
                assert(parts + rest =~= rest);
            },
            Err(_) => {},
        }
    }
    loop
        invariant
            start <= pos <= buf@.len(),
            name@ == join_labels(parts),
            first == (parts.len() == 0),
            read_parts(buf@, start as nat, start as int) == match read_parts(
                buf@,
                start as nat,
                pos as int,
            ) {
                Ok((rest, next)) => Ok((parts + rest, next)),
                Err(e) => Err(e),
            },
        decreases buf.len() - pos,
    {
        if pos >= buf.len() {
            return Err(WireError::TruncatedBuffer);
        }
        let b = buf[pos];
        if b == 0 {
            proof {
                assert(parts + Seq::<Seq<u8>>::empty() =~= parts);
            }
            return Ok((name, pos + 1));
        }
        if b >= POINTER_MARK {
            if pos + 1 >= buf.len() {
                return Err(WireError::TruncatedBuffer);
            }
            let target: usize = ((b - POINTER_MARK) as usize) * 256 + (buf[pos + 1] as usize);
            if target >= start {
                return Err(WireError::MalformedPointer);
            }
            match read_name_bytes_at(buf, target) {
                Ok((inner, _)) => {
                    proof {
                        lemma_join_labels_push(parts, inner@);
                        assert(parts + seq![inner@] =~= parts.push(inner@));
                    }
                    if !first {
                        name.push(DOT);
                    }
                    append_bytes(&mut name, inner.as_slice());
                    return Ok((name, pos + 2));
                },
                Err(e) => {
                    return Err(e);
                },
            }
        }
        let len = b as usize;
        if len > buf.len() - pos - 1 {
            return Err(WireError::TruncatedBuffer);
        }
        let end = pos + 1 + len;
        let label = &buf[pos + 1..end];
        proof {
            lemma_join_labels_push(parts, label@);
            match read_parts(buf@, start as nat, end as int) {
                Ok((rest, next)) => {
                    assert(parts + (seq![label@] + rest) =~= parts.push(label@) + rest);
                },
                Err(_) => {},
            }
        }
        if !first {
            name.push(DOT);
        }
        append_bytes(&mut name, label);
        proof {
            parts = parts.push(label@);
        }
        first = false;
        pos = end;
    }
}

/// Decodes the name at `pos`, following compression pointers; gives the name
/// and the offset just after it (after its zero byte, or after the pointer
/// that ends it).
pub fn decode_name(buf: &[u8], pos: usize) -> (r: Result<(String, usize), WireError>)
    ensures
        match r {
            Ok((s, n)) => read_name(buf@, pos as int) == Ok::<(Seq<char>, int), WireError>(
                (s@, n as int),
            ),
            Err(e) => read_name(buf@, pos as int) == Err::<(Seq<char>, int), WireError>(e),
        },
{
    match read_name_bytes_at(buf, pos) {
        Ok((bytes, next)) => {
            let ghost b = bytes@;
            match string_from_utf8(bytes) {
                Some(s) => Ok((s, next)),
                None => Err(WireError::InvalidEncoding),
            }
        },
        Err(e) => Err(e),
    }
}

/// Name decoding shared by the record kinds that hold a name.
pub trait LabelDecompression {
    /// Decodes the name at `pos`, or right after the header when `pos` is
    /// `None`; gives the name and the offset just after it.
    fn parse_label(buf: &[u8], pos: Option<usize>) -> (r: Result<(String, usize), WireError>)
        ensures
            match r {
                Ok((s, n)) => read_name(
                    buf@,
                    match pos {
                        Some(p) => p as int,
                        None => 12,
                    },
                ) == Ok::<(Seq<char>, int), WireError>((s@, n as int)),
                Err(e) => read_name(
                    buf@,
                    match pos {
                        Some(p) => p as int,
                        None => 12,
                    },
                ) == Err::<(Seq<char>, int), WireError>(e),
            },
    {
        let start = match pos {
            Some(p) => p,
            None => 12,
        };
        decode_name(buf, start)
    }
}

/// Every label is 1 to 63 bytes long: no empty label ends the name early and
/// no length byte reads as a pointer.
pub open spec fn plain_labels(ls: Seq<Seq<u8>>) -> bool {
    forall|i: int| 0 <= i < ls.len() ==> 1 <= #[trigger] ls[i].len() < 64
}

/// A name whose labels are all 1 to 63 bytes long.
pub open spec fn plain_name(name: Seq<char>) -> bool {
    plain_labels(split_labels(encode_utf8(name)))
}

proof fn lemma_labels_wire_cons(l: Seq<u8>, ls: Seq<Seq<u8>>)
    ensures
        labels_wire(seq![l] + ls) == seq![(l.len() % 256) as u8] + l + labels_wire(ls),
    decreases ls.len(),
{
    if ls.len() == 0 {
        assert(seq![l] + ls =~= seq![l]);
        assert(seq![l].drop_last() =~= Seq::<Seq<u8>>::empty());
        assert(labels_wire(Seq::<Seq<u8>>::empty()) =~= Seq::<u8>::empty());
        assert(seq![l].last() == l);
        assert(labels_wire(seq![l]) =~= seq![(l.len() % 256) as u8] + l);
        assert(labels_wire(ls) =~= Seq::<u8>::empty());
        assert(seq![(l.len() % 256) as u8] + l + labels_wire(ls) =~= seq![(l.len() % 256) as u8] + l);
    } else {
        lemma_labels_wire_cons(l, ls.drop_last());
        assert((seq![l] + ls).drop_last() =~= seq![l] + ls.drop_last());
        assert((seq![l] + ls).last() == ls.last());
        assert(labels_wire(seq![l] + ls) =~= seq![(l.len() % 256) as u8] + l + labels_wire(ls));
    }
}

proof fn lemma_read_plain_labels(buf: Seq<u8>, start: nat, pos: int, ls: Seq<Seq<u8>>)
    requires
        plain_labels(ls),
        0 <= pos,
        pos + labels_wire(ls).len() + 1 <= buf.len(),
        buf.subrange(pos, pos + labels_wire(ls).len() + 1) == labels_wire(ls).push(0),
    ensures
        read_parts(buf, start, pos) == Ok::<(Seq<Seq<u8>>, int), WireError>(
            (ls, pos + labels_wire(ls).len() + 1),
        ),
    decreases ls.len(),
{
    let w = labels_wire(ls).push(0);
    if ls.len() == 0 {
        assert(labels_wire(ls) =~= Seq::<u8>::empty());
        assert(buf[pos] == buf.subrange(pos, pos + 1)[0]);
        assert(ls =~= Seq::<Seq<u8>>::empty());
    } else {
        let l = ls[0];
        let rest = ls.drop_first();
        assert(ls =~= seq![l] + rest);
        lemma_labels_wire_cons(l, rest);
        assert(1 <= l.len() < 64);
        let n = l.len() as int;
        assert((l.len() % 256) as u8 == l.len());
        let end = pos + 1 + n;
        assert(buf[pos] == w[0]);
        assert(w[0] == l.len());
        assert forall|k: int| 0 <= k < n implies buf.subrange(pos + 1, end)[k] == l[k] by {
            assert(buf.subrange(pos + 1, end)[k] == buf[pos + 1 + k]);
            assert(buf[pos + 1 + k] == w[1 + k]);
        }
        assert(buf.subrange(pos + 1, end) =~= l);
        assert(plain_labels(rest)) by {
            assert forall|i: int| 0 <= i < rest.len() implies 1 <= #[trigger] rest[i].len() < 64 by {
                assert(rest[i] == ls[i + 1]);
            }
        }
        let rw = labels_wire(rest).push(0);
        assert forall|k: int| 0 <= k < rw.len() implies buf.subrange(end, end + rw.len())[k]
            == rw[k] by {
            assert(buf.subrange(end, end + rw.len())[k] == buf[end + k]);
            assert(buf[end + k] == w[1 + n + k]);
        }
        assert(buf.subrange(end, end + labels_wire(rest).len() + 1) =~= rw);
        lemma_read_plain_labels(buf, start, end, rest);
    }
}

proof fn lemma_join_labels_extend_last(ls: Seq<Seq<u8>>, c: u8)
    requires
        ls.len() >= 1,
    ensures
        join_labels(ls.update(ls.len() - 1, ls.last().push(c))) == join_labels(ls).push(c),
{
    let ls2 = ls.update(ls.len() - 1, ls.last().push(c));
    if ls.len() == 1 {
        assert(ls2[0] == ls[0].push(c));
    } else {
        assert(ls2.drop_last() =~= ls.drop_last());
        assert(join_labels(ls2) =~= join_labels(ls).push(c));
    }
}

proof fn lemma_join_split(b: Seq<u8>)
    ensures
        join_labels(split_labels(b)) == b,
    decreases b.len(),
{
    if b.len() == 0 {
        assert(join_labels(seq![Seq::<u8>::empty()]) == Seq::<u8>::empty());
    } else {
        let prev = split_labels(b.drop_last());
        lemma_join_split(b.drop_last());
        lemma_split_labels_nonempty(b.drop_last());
        if b.last() == DOT {
            lemma_join_labels_push(prev, Seq::empty());
            assert(b.drop_last().push(DOT) + Seq::<u8>::empty() =~= b);
        } else {
            lemma_join_labels_extend_last(prev, b.last());
            assert(b.drop_last().push(b.last()) =~= b);
        }
    }
}

/// A name whose labels are 1 to 63 bytes long decodes, from wherever its
/// encoding stands in a buffer, to itself, and decoding ends right after it.
pub proof fn lemma_name_round_trip(buf: Seq<u8>, pos: int, name: Seq<char>)
    requires
        plain_name(name),
        0 <= pos,
        pos + name_wire(name).len() <= buf.len(),
        buf.subrange(pos, pos + name_wire(name).len()) == name_wire(name),
    ensures
        read_name(buf, pos) == Ok::<(Seq<char>, int), WireError>(
            (name, pos + name_wire(name).len()),
        ),
{
    let b = encode_utf8(name);
    let ls = split_labels(b);
    lemma_read_plain_labels(buf, pos as nat, pos, ls);
    lemma_join_split(b);
    vstd::utf8::encode_utf8_valid_utf8(name);
    vstd::utf8::encode_utf8_decode_utf8(name);
}

/// A name that is a single compression pointer to an earlier offset decodes
/// to the name found there, and decoding ends right after the two pointer
/// bytes.
pub proof fn lemma_pointer_follows_target(buf: Seq<u8>, pos: int)
    requires
        0 <= pos,
        pos + 1 < buf.len(),
        buf[pos] >= POINTER_MARK,
        pointer_target(buf[pos], buf[pos + 1]) < pos,
        read_name(buf, pointer_target(buf[pos], buf[pos + 1])) is Ok,
    ensures
        read_name(buf, pos) == Ok::<(Seq<char>, int), WireError>(
            (read_name(buf, pointer_target(buf[pos], buf[pos + 1]))->Ok_0.0, pos + 2),
        ),
{
    let t = pointer_target(buf[pos], buf[pos + 1]);
    assert(t >= 0);
    let inner = read_parts(buf, t as nat, t)->Ok_0.0;
    assert(join_labels(seq![join_labels(inner)]) == join_labels(inner));
}

/// A name made of literal labels followed by a compression pointer to an
/// earlier offset decodes to those labels, a dot, and the name found at the
/// target; decoding ends right after the two pointer bytes.
pub proof fn lemma_labels_then_pointer(buf: Seq<u8>, pos: int, ls: Seq<Seq<u8>>)
    requires
        plain_labels(ls),
        ls.len() >= 1,
        0 <= pos,
        pos + labels_wire(ls).len() + 2 <= buf.len(),
        buf.subrange(pos, pos + labels_wire(ls).len()) == labels_wire(ls),
        buf[pos + labels_wire(ls).len()] >= POINTER_MARK,
        pointer_target(buf[pos + labels_wire(ls).len()], buf[pos + labels_wire(ls).len() + 1])
            < pos,
        read_name_bytes(
            buf,
            pointer_target(buf[pos + labels_wire(ls).len()], buf[pos + labels_wire(ls).len() + 1]),
        ) is Ok,
    ensures
        read_name_bytes(buf, pos) == Ok::<(Seq<u8>, int), WireError>(
            (
                join_labels(ls).push(DOT) + read_name_bytes(
                    buf,
                    pointer_target(
                        buf[pos + labels_wire(ls).len()],
                        buf[pos + labels_wire(ls).len() + 1],
                    ),
                )->Ok_0.0,
                pos + labels_wire(ls).len() + 2,
            ),
        ),
    decreases ls.len(),
{
    let p = pos + labels_wire(ls).len();
    let t = pointer_target(buf[p], buf[p + 1]);
    let target_bytes = read_name_bytes(buf, t)->Ok_0.0;
    lemma_parts_then_pointer(buf, pos as nat, pos, ls);
    lemma_join_labels_push(ls, target_bytes);
}

proof fn lemma_parts_then_pointer(buf: Seq<u8>, start: nat, pos: int, ls: Seq<Seq<u8>>)
    requires
        plain_labels(ls),
        0 <= pos,
        pos + labels_wire(ls).len() + 2 <= buf.len(),
        buf.subrange(pos, pos + labels_wire(ls).len()) == labels_wire(ls),
        buf[pos + labels_wire(ls).len()] >= POINTER_MARK,
        pointer_target(buf[pos + labels_wire(ls).len()], buf[pos + labels_wire(ls).len() + 1])
            < start,
        read_name_bytes(
            buf,
            pointer_target(buf[pos + labels_wire(ls).len()], buf[pos + labels_wire(ls).len() + 1]),
        ) is Ok,
    ensures
        read_parts(buf, start, pos) == Ok::<(Seq<Seq<u8>>, int), WireError>(
            (
                ls.push(
                    read_name_bytes(
                        buf,
                        pointer_target(
                            buf[pos + labels_wire(ls).len()],
                            buf[pos + labels_wire(ls).len() + 1],
                        ),
                    )->Ok_0.0,
                ),
                pos + labels_wire(ls).len() + 2,
            ),
        ),
    decreases ls.len(),
{
    let p = pos + labels_wire(ls).len();
    let t = pointer_target(buf[p], buf[p + 1]);
    assert(t >= 0);
    let tb = read_name_bytes(buf, t)->Ok_0.0;
    if ls.len() == 0 {
        assert(labels_wire(ls) =~= Seq::<u8>::empty());
        assert(ls.push(tb) =~= seq![tb]);
    } else {
        let l = ls[0];
        let rest = ls.drop_first();
        assert(ls =~= seq![l] + rest);
        lemma_labels_wire_cons(l, rest);
        assert(1 <= l.len() < 64);
        let n = l.len() as int;
        assert((l.len() % 256) as u8 == l.len());
        let w = labels_wire(ls);
        let end = pos + 1 + n;
        assert(buf[pos] == w[0]);
        assert forall|k: int| 0 <= k < n implies buf.subrange(pos + 1, end)[k] == l[k] by {
            assert(buf.subrange(pos + 1, end)[k] == buf[pos + 1 + k]);
            assert(buf[pos + 1 + k] == w[1 + k]);
        }
        assert(buf.subrange(pos + 1, end) =~= l);
        assert(plain_labels(rest)) by {
            assert forall|i: int| 0 <= i < rest.len() implies 1 <= #[trigger] rest[i].len() < 64 by {
                assert(rest[i] == ls[i + 1]);
            }
        }
        let rw = labels_wire(rest);
        assert forall|k: int| 0 <= k < rw.len() implies buf.subrange(end, end + rw.len())[k]
            == rw[k] by {
            assert(buf.subrange(end, end + rw.len())[k] == buf[end + k]);
            assert(buf[end + k] == w[1 + n + k]);
        }
        assert(buf.subrange(end, end + rw.len()) =~= rw);
        assert(end + rw.len() == p);
        lemma_parts_then_pointer(buf, start, end, rest);
        assert(seq![l] + rest.push(tb) =~= ls.push(tb));
    }
}

} // verus!
