//! The canonical byte codec for persisted records.
//!
//! Every record flattens to a list of atoms — numbers and strings —
//! and the atom list has one deterministic byte form: a count, then
//! each atom as a tag byte and its payload.  Numbers are eight bytes
//! little-endian; strings are a character count followed by each
//! character's scalar value in four bytes little-endian.  Decoding is
//! exact: the bytes of an encoded record decode back to that record,
//! and whatever decodes successfully re-encodes to the same bytes.
//!
//! For the two record kinds that hold a set or a keyed map, entry
//! order is part of the record: the encoder emits entries in the
//! container's insertion order, and the contracts speak of that
//! order (`seq_view`, `kseq`).  Replicas replay the same committed
//! operations, which build the same insertion order, so equal
//! replicas still encode byte-for-byte equal; two stores that merely
//! hold equal sets in different orders encode differently.

use vstd::prelude::*;

use crate::kv::KvList;
use crate::kv::Stored;
use crate::kv::StringSet;
use crate::model::StateMachineError;
use crate::model::ContentExtractionPolicyMapping;
use crate::model::ContentMetadata;
use crate::model::ExecutorMetadata;
use crate::model::ExtractionPolicy;
use crate::model::ExtractorDescription;
use crate::model::IndexDescriptor;
use crate::model::SpecContentMetadata;
use crate::model::SpecExecutorMetadata;
use crate::model::SpecExtractionPolicy;
use crate::model::SpecExtractorDescription;
use crate::model::SpecIndexDescriptor;
use crate::model::SpecStateChange;
use crate::model::SpecStructuredDataSchema;
use crate::model::StructuredDataSchema;
use crate::model::SpecTask;
use crate::model::StateChange;
use crate::model::Task;
use crate::model::TaskOutcome;

verus! {

/// One atom of a flattened record.
pub enum Atom {
    Num(u64),
    Text(String),
}

pub ghost enum SpecAtom {
    Num(u64),
    Text(Seq<char>),
}

impl View for Atom {
    type V = SpecAtom;

    open spec fn view(&self) -> SpecAtom {
        match self {
            Atom::Num(x) => SpecAtom::Num(*x),
            Atom::Text(s) => SpecAtom::Text(s@),
        }
    }
}

/// The eight little-endian bytes of a number.
pub open spec fn enc_u64(x: u64) -> Seq<u8> {
    Seq::new(8, |i: int| ((x >> ((8 * i) as u64)) % 256) as u8)
}

/// The four little-endian bytes of one character's scalar value.
pub open spec fn enc_char(c: char) -> Seq<u8> {
    Seq::new(4, |i: int| (((c as u32) >> ((8 * i) as u32)) % 256) as u8)
}

/// The bytes of a string's characters, in order.
pub open spec fn enc_chars(s: Seq<char>) -> Seq<u8>
    decreases s.len(),
{
    if s.len() == 0 {
        Seq::empty()
    } else {
        enc_char(s[0]) + enc_chars(s.skip(1))
    }
}

/// A string: its character count, then its characters.
pub open spec fn enc_str(s: Seq<char>) -> Seq<u8> {
    enc_u64(s.len() as u64) + enc_chars(s)
}

/// An atom: a tag byte, then the payload.
pub open spec fn enc_atom(a: SpecAtom) -> Seq<u8> {
    match a {
        SpecAtom::Num(x) => seq![0u8] + enc_u64(x),
        SpecAtom::Text(s) => seq![1u8] + enc_str(s),
    }
}

/// The atoms of a record, in order, each after the one before.
pub open spec fn enc_atoms_list(atoms: Seq<SpecAtom>) -> Seq<u8>
    decreases atoms.len(),
{
    if atoms.len() == 0 {
        Seq::empty()
    } else {
        enc_atom(atoms[0]) + enc_atoms_list(atoms.skip(1))
    }
}

/// A whole record: its atom count, then its atoms.
pub open spec fn enc_record(atoms: Seq<SpecAtom>) -> Seq<u8> {
    enc_u64(atoms.len() as u64) + enc_atoms_list(atoms)
}

proof fn lemma_enc_u64_bytes(x: u64)
    ensures
        enc_u64(x).len() == 8,
        enc_u64(x)[0] == (x % 256) as u8,
        enc_u64(x)[1] == ((x >> 8) % 256) as u8,
        enc_u64(x)[2] == ((x >> 16) % 256) as u8,
        enc_u64(x)[3] == ((x >> 24) % 256) as u8,
        enc_u64(x)[4] == ((x >> 32) % 256) as u8,
        enc_u64(x)[5] == ((x >> 40) % 256) as u8,
        enc_u64(x)[6] == ((x >> 48) % 256) as u8,
        enc_u64(x)[7] == ((x >> 56) % 256) as u8,
{
    assert(x >> 0 == x) by (bit_vector);
}

proof fn lemma_enc_chars_len(s: Seq<char>)
    ensures
        enc_chars(s).len() == 4 * s.len(),
    decreases s.len(),
{
    if s.len() > 0 {
        lemma_enc_chars_len(s.skip(1));
    }
}

proof fn lemma_enc_chars_block(s: Seq<char>, j: int)
    requires
        0 <= j < s.len(),
    ensures
        enc_chars(s).len() == 4 * s.len(),
        enc_chars(s).subrange(4 * j, 4 * j + 4) == enc_char(s[j]),
    decreases j,
{
    lemma_enc_chars_len(s);
    if j == 0 {
        lemma_enc_chars_len(s.skip(1));
        assert(enc_chars(s).subrange(0, 4) =~= enc_char(s[0]));
    } else {
        lemma_enc_chars_block(s.skip(1), j - 1);
        assert(enc_chars(s).subrange(4 * j, 4 * j + 4) =~= enc_chars(s.skip(1)).subrange(
            4 * (j - 1),
            4 * (j - 1) + 4,
        ));
        assert(s.skip(1)[j - 1] == s[j]);
    }
}

/// Append one number's bytes.
fn push_u64(buf: &mut Vec<u8>, x: u64)
    ensures
        final(buf)@ == old(buf)@ + enc_u64(x),
{
    buf.push((x % 256) as u8);
    buf.push(((x >> 8) % 256) as u8);
    buf.push(((x >> 16) % 256) as u8);
    buf.push(((x >> 24) % 256) as u8);
    buf.push(((x >> 32) % 256) as u8);
    buf.push(((x >> 40) % 256) as u8);
    buf.push(((x >> 48) % 256) as u8);
    buf.push(((x >> 56) % 256) as u8);
    proof {
        lemma_enc_u64_bytes(x);
        assert(buf@ =~= old(buf)@ + enc_u64(x));
    }
}

/// Read one number's bytes.
fn read_u64(buf: &Vec<u8>, pos: usize) -> (r: Option<(u64, usize)>)
    requires
        pos <= buf@.len(),
    ensures
        match r {
            Some(p) => p.1 == pos + 8 && p.1 <= buf@.len() && buf@.subrange(
                pos as int,
                p.1 as int,
            ) == enc_u64(p.0),
            None => pos + 8 > buf@.len(),
        },
        forall|v: u64|
            pos + 8 <= buf@.len() && buf@.subrange(pos as int, pos + 8) == enc_u64(v) ==> r
                == Some((v, (pos + 8) as usize)),
{
    if buf.len() - pos < 8 {
        return None;
    }
    let b0 = buf[pos] as u64;
    let b1 = buf[pos + 1] as u64;
    let b2 = buf[pos + 2] as u64;
    let b3 = buf[pos + 3] as u64;
    let b4 = buf[pos + 4] as u64;
    let b5 = buf[pos + 5] as u64;
    let b6 = buf[pos + 6] as u64;
    let b7 = buf[pos + 7] as u64;
    let x: u64 = b0 | (b1 << 8) | (b2 << 16) | (b3 << 24) | (b4 << 32) | (b5 << 40) | (b6 << 48)
        | (b7 << 56);
    proof {
        lemma_enc_u64_bytes(x);
        assert(x % 256 == b0 && (x >> 8) % 256 == b1 && (x >> 16) % 256 == b2 && (x >> 24) % 256
            == b3 && (x >> 32) % 256 == b4 && (x >> 40) % 256 == b5 && (x >> 48) % 256 == b6 && (x
            >> 56) % 256 == b7) by (bit_vector)
            requires
                b0 < 256 && b1 < 256 && b2 < 256 && b3 < 256 && b4 < 256 && b5 < 256 && b6 < 256
                    && b7 < 256,
                x == b0 | (b1 << 8) | (b2 << 16) | (b3 << 24) | (b4 << 32) | (b5 << 40) | (b6
                    << 48) | (b7 << 56),
        ;
        assert(buf@.subrange(pos as int, pos + 8) =~= enc_u64(x));
        assert forall|v: u64|
            buf@.subrange(pos as int, pos + 8) == enc_u64(v) implies x == v by {
            assert(enc_u64(v)[0] == enc_u64(x)[0] && enc_u64(v)[1] == enc_u64(x)[1] && enc_u64(
                v,
            )[2] == enc_u64(x)[2] && enc_u64(v)[3] == enc_u64(x)[3] && enc_u64(v)[4] == enc_u64(
                x,
            )[4] && enc_u64(v)[5] == enc_u64(x)[5] && enc_u64(v)[6] == enc_u64(x)[6] && enc_u64(
                v,
            )[7] == enc_u64(x)[7]);
            let y = v;
            lemma_enc_u64_bytes(y);
            assert((y % 256) as u8 == (x % 256) as u8 && ((y >> 8) % 256) as u8 == ((x >> 8)
                % 256) as u8 && ((y >> 16) % 256) as u8 == ((x >> 16) % 256) as u8 && ((y >> 24)
                % 256) as u8 == ((x >> 24) % 256) as u8 && ((y >> 32) % 256) as u8 == ((x >> 32)
                % 256) as u8 && ((y >> 40) % 256) as u8 == ((x >> 40) % 256) as u8 && ((y >> 48)
                % 256) as u8 == ((x >> 48) % 256) as u8 && ((y >> 56) % 256) as u8 == ((x >> 56)
                % 256) as u8);
            assert(x == y) by (bit_vector)
                requires
                    (x % 256) == (y % 256) && ((x >> 8) % 256) == ((y >> 8) % 256) && ((x >> 16)
                        % 256) == ((y >> 16) % 256) && ((x >> 24) % 256) == ((y >> 24) % 256) && ((
                    x >> 32) % 256) == ((y >> 32) % 256) && ((x >> 40) % 256) == ((y >> 40) % 256)
                        && ((x >> 48) % 256) == ((y >> 48) % 256) && ((x >> 56) % 256) == ((y
                        >> 56) % 256),
            ;
        }
    }
    Some((x, pos + 8))
}

proof fn lemma_split_prefix(b: Seq<u8>, pos: int, a: Seq<u8>, c: Seq<u8>)
    requires
        0 <= pos,
        pos + a.len() + c.len() <= b.len(),
        b.subrange(pos, pos + a.len() + c.len()) == a + c,
    ensures
        b.subrange(pos, pos + a.len()) == a,
        b.subrange(pos + a.len(), pos + a.len() + c.len()) == c,
{
    let whole = b.subrange(pos, pos + a.len() + c.len());
    assert(whole.len() == a.len() + c.len());
    assert forall|i: int| 0 <= i < whole.len() implies whole[i] == b[pos + i] by {}
    assert(b.subrange(pos, pos + a.len()) =~= a) by {
        assert forall|i: int| 0 <= i < a.len() implies b.subrange(pos, pos + a.len())[i]
            == a[i] by {
            assert(whole[i] == b[pos + i]);
            assert(whole[i] == (a + c)[i]);
            assert((a + c)[i] == a[i]);
        }
    }
    assert(b.subrange(pos + a.len(), pos + a.len() + c.len()) =~= c) by {
        assert forall|i: int|
            0 <= i < c.len() implies b.subrange(pos + a.len(), pos + a.len() + c.len())[i]
            == c[i] by {
            assert(whole[a.len() + i] == b[pos + a.len() + i]);
            assert(whole[a.len() + i] == (a + c)[a.len() + i]);
            assert((a + c)[a.len() + i] == c[i]);
        }
    }
}

proof fn lemma_enc_char_bytes(c: char)
    ensures
        enc_char(c).len() == 4,
        enc_char(c)[0] == ((c as u32) % 256) as u8,
        enc_char(c)[1] == (((c as u32) >> 8) % 256) as u8,
        enc_char(c)[2] == (((c as u32) >> 16) % 256) as u8,
        enc_char(c)[3] == (((c as u32) >> 24) % 256) as u8,
{
    let u = c as u32;
    assert(u >> 0 == u) by (bit_vector);
}

/// The codec relies on `char::from_u32`: it answers `Some` exactly on
/// Unicode scalar values, returning the character with that value.
pub assume_specification[ char::from_u32 ](i: u32) -> (r: Option<char>)
    ensures
        r matches Some(c) ==> c as u32 == i,
        vstd::utf8::is_scalar(i) ==> r is Some,
;

/// Append one character's bytes.
fn push_char(buf: &mut Vec<u8>, c: char)
    ensures
        final(buf)@ == old(buf)@ + enc_char(c),
{
    let u = c as u32;
    buf.push((u % 256) as u8);
    buf.push(((u >> 8) % 256) as u8);
    buf.push(((u >> 16) % 256) as u8);
    buf.push(((u >> 24) % 256) as u8);
    proof {
        lemma_enc_char_bytes(c);
        assert(buf@ =~= old(buf)@ + enc_char(c));
    }
}

/// Read one character's bytes.
fn read_char(buf: &Vec<u8>, pos: usize) -> (r: Option<(char, usize)>)
    requires
        pos <= buf@.len(),
    ensures
        match r {
            Some(p) => p.1 == pos + 4 && p.1 <= buf@.len() && buf@.subrange(
                pos as int,
                p.1 as int,
            ) == enc_char(p.0),
            None => true,
        },
        forall|c: char|
            pos + 4 <= buf@.len() && buf@.subrange(pos as int, pos + 4) == enc_char(c) ==> r
                == Some((c, (pos + 4) as usize)),
{
    if buf.len() - pos < 4 {
        return None;
    }
    let b0 = buf[pos] as u32;
    let b1 = buf[pos + 1] as u32;
    let b2 = buf[pos + 2] as u32;
    let b3 = buf[pos + 3] as u32;
    let u: u32 = b0 | (b1 << 8) | (b2 << 16) | (b3 << 24);
    proof {
        assert(u % 256 == b0 && (u >> 8) % 256 == b1 && (u >> 16) % 256 == b2 && (u >> 24) % 256
            == b3) by (bit_vector)
            requires
                b0 < 256 && b1 < 256 && b2 < 256 && b3 < 256,
                u == b0 | (b1 << 8) | (b2 << 16) | (b3 << 24),
        ;
    }
    let c = match char::from_u32(u) {
        Some(c) => c,
        None => {
            proof {
                assert forall|c2: char|
                    pos + 4 <= buf@.len() && buf@.subrange(pos as int, pos + 4) == enc_char(
                        c2,
                    ) implies false by {
                    lemma_enc_char_bytes(c2);
                    let y = c2 as u32;
                    vstd::utf8::char_is_scalar(c2);
                    assert(y % 256 == b0 && (y >> 8) % 256 == b1 && (y >> 16) % 256 == b2 && (y
                        >> 24) % 256 == b3);
                    assert(u == y) by (bit_vector)
                        requires
                            (u % 256) == (y % 256) && ((u >> 8) % 256) == ((y >> 8) % 256) && ((u
                                >> 16) % 256) == ((y >> 16) % 256) && ((u >> 24) % 256) == ((y
                                >> 24) % 256),
                    ;
                }
            }
            return None;
        },
    };
    proof {
        lemma_enc_char_bytes(c);
        assert(buf@.subrange(pos as int, pos + 4) =~= enc_char(c));
        assert forall|c2: char|
            buf@.subrange(pos as int, pos + 4) == enc_char(c2) implies c2 == c by {
            lemma_enc_char_bytes(c2);
            let y = c2 as u32;
            assert(y % 256 == b0 && (y >> 8) % 256 == b1 && (y >> 16) % 256 == b2 && (y >> 24)
                % 256 == b3);
            assert(u == y) by (bit_vector)
                requires
                    (u % 256) == (y % 256) && ((u >> 8) % 256) == ((y >> 8) % 256) && ((u >> 16)
                        % 256) == ((y >> 16) % 256) && ((u >> 24) % 256) == ((y >> 24) % 256),
            ;
            vstd::utf8::char_u32_cast(c2, u);
            vstd::utf8::char_u32_cast(c, u);
        }
    }
    Some((c, pos + 4))
}

/// The codec relies on `String::push`: it appends exactly one
/// character at the end.
#[verifier::external_body]
fn string_push_char(s: &mut String, c: char)
    ensures
        final(s)@ == old(s)@.push(c),
{
    s.push(c)
}

proof fn lemma_enc_chars_snoc(t: Seq<char>, c: char)
    ensures
        enc_chars(t.push(c)) == enc_chars(t) + enc_char(c),
    decreases t.len(),
{
    if t.len() == 0 {
        assert(t.push(c)[0] == c);
        assert(t.push(c).skip(1) =~= Seq::<char>::empty());
        assert(enc_chars(t.push(c)) == enc_char(c) + enc_chars(t.push(c).skip(1)));
        assert(enc_chars(t.push(c)) =~= enc_chars(t) + enc_char(c));
    } else {
        lemma_enc_chars_snoc(t.skip(1), c);
        assert(t.push(c)[0] == t[0]);
        assert(t.push(c).skip(1) =~= t.skip(1).push(c));
        assert(enc_chars(t.push(c)) =~= enc_chars(t) + enc_char(c));
    }
}

/// Append one string's bytes: its character count, then its
/// characters.
#[verifier::loop_isolation(false)]
fn push_str(buf: &mut Vec<u8>, s: &String)
    ensures
        final(buf)@ == old(buf)@ + enc_str(s@),
{
    let n = s.as_str().unicode_len();
    push_u64(buf, n as u64);
    for j in 0..n
        invariant
            n == s@.len(),
            buf@ == old(buf)@ + enc_u64(n as u64) + enc_chars(s@.take(j as int)),
    {
        let c = s.as_str().get_char(j);
        push_char(buf, c);
        proof {
            lemma_enc_chars_snoc(s@.take(j as int), s@[j as int]);
            assert(s@.take(j + 1) =~= s@.take(j as int).push(s@[j as int]));
        }
    }
    proof {
        assert(s@.take(n as int) =~= s@);
        assert(buf@ =~= old(buf)@ + enc_str(s@));
    }
}

/// Read one string's bytes.
#[verifier::loop_isolation(false)]
#[verifier::rlimit(100)]
fn read_str(buf: &Vec<u8>, pos: usize) -> (r: Option<(String, usize)>)
    requires
        pos <= buf@.len(),
    ensures
        match r {
            Some(p) => pos <= p.1 <= buf@.len() && buf@.subrange(pos as int, p.1 as int)
                == enc_str(p.0@),
            None => true,
        },
        forall|s0: Seq<char>|
            pos + 8 + 4 * s0.len() <= buf@.len() && buf@.subrange(
                pos as int,
                pos + 8 + 4 * s0.len(),
            ) == enc_str(s0) ==> (r matches Some(p) && p.0@ == s0 && p.1 == pos + 8 + 4
                * s0.len()),
{
    let ghost valid = exists|s0: Seq<char>|
        pos + 8 + 4 * s0.len() <= buf@.len() && buf@.subrange(pos as int, pos + 8 + 4 * s0.len())
            == enc_str(s0);
    let ghost w = choose|s0: Seq<char>|
        pos + 8 + 4 * s0.len() <= buf@.len() && buf@.subrange(pos as int, pos + 8 + 4 * s0.len())
            == enc_str(s0);
    proof {
        if valid {
            lemma_enc_chars_len(w);
            lemma_split_prefix(buf@, pos as int, enc_u64(w.len() as u64), enc_chars(w));
        }
    }
    let (n, p1) = match read_u64(buf, pos) {
        Some(p) => p,
        None => {
            return None;
        },
    };
    if n > ((buf.len() - p1) / 4) as u64 {
        proof {
            if valid {
                assert(n == w.len() as u64);
            }
        }
        return None;
    }
    let nu = n as usize;
    let mut out = String::new();
    let mut cur = p1;
    proof {
        if valid {
            lemma_enc_chars_len(w);
            lemma_split_prefix(buf@, pos as int, enc_u64(w.len() as u64), enc_chars(w));
        }
    }
    for j in 0..nu
        invariant
            nu == n,
            p1 == pos + 8,
            cur == p1 + 4 * j,
            cur <= buf@.len(),
            4 * nu <= buf@.len() - p1,
            out@.len() == j,
            buf@.subrange(p1 as int, cur as int) == enc_chars(out@),
            valid ==> n == w.len() as u64 && out@ == w.take(j as int),
    {
        proof {
            if valid {
                lemma_enc_chars_block(w, j as int);
                assert(buf@.subrange(cur as int, cur + 4) =~= enc_chars(w).subrange(
                    4 * j,
                    4 * j + 4,
                ));
            }
        }
        let (c, p2) = match read_char(buf, cur) {
            Some(p) => p,
            None => {
                proof {
                    if valid {
                        assert(buf@.subrange(cur as int, cur + 4) == enc_char(w[j as int]));
                    }
                }
                return None;
            },
        };
        let ghost before = out@;
        string_push_char(&mut out, c);
        proof {
            lemma_enc_chars_snoc(before, c);
        }
        cur = p2;
        proof {
            assert(buf@.subrange(p1 as int, cur as int) =~= buf@.subrange(p1 as int, cur - 4)
                + buf@.subrange(cur - 4, cur as int));
            if valid {
                assert(buf@.subrange(cur - 4, cur as int) == enc_char(w[j as int]));
                assert(out@ =~= w.take(j + 1));
            }
        }
    }
    proof {
        assert(buf@.subrange(pos as int, cur as int) =~= buf@.subrange(pos as int, pos + 8)
            + buf@.subrange(pos + 8, cur as int));
        assert(buf@.subrange(pos as int, cur as int) =~= enc_str(out@));
        if valid {
            assert(out@ =~= w);
        }
        assert forall|s0: Seq<char>|
            pos + 8 + 4 * s0.len() <= buf@.len() && buf@.subrange(
                pos as int,
                pos + 8 + 4 * s0.len(),
            ) == enc_str(s0) implies out@ == s0 && cur == pos + 8 + 4 * s0.len() by {
            assert(valid);
            lemma_enc_chars_len(s0);
            lemma_split_prefix(buf@, pos as int, enc_u64(s0.len() as u64), enc_chars(s0));
            assert(s0.len() == n);
            lemma_enc_chars_pointwise(out@, s0);
        }
    }
    Some((out, cur))
}

proof fn lemma_enc_chars_pointwise(a: Seq<char>, b: Seq<char>)
    requires
        a.len() == b.len(),
        enc_chars(a) == enc_chars(b),
    ensures
        a == b,
    decreases a.len(),
{
    if a.len() > 0 {
        lemma_enc_chars_len(a.skip(1));
        lemma_enc_chars_len(b.skip(1));
        assert(enc_chars(a).subrange(0, 4) =~= enc_char(a[0]));
        assert(enc_chars(b).subrange(0, 4) =~= enc_char(b[0]));
        lemma_enc_char_bytes(a[0]);
        lemma_enc_char_bytes(b[0]);
        let x = a[0] as u32;
        let y = b[0] as u32;
        assert(enc_char(a[0])[0] == enc_char(b[0])[0] && enc_char(a[0])[1] == enc_char(b[0])[1]
            && enc_char(a[0])[2] == enc_char(b[0])[2] && enc_char(a[0])[3] == enc_char(b[0])[3]);
        assert((x % 256) as u8 == (y % 256) as u8 && ((x >> 8) % 256) as u8 == ((y >> 8)
            % 256) as u8 && ((x >> 16) % 256) as u8 == ((y >> 16) % 256) as u8 && ((x >> 24)
            % 256) as u8 == ((y >> 24) % 256) as u8);
        assert(((x % 256) as u8) as u32 == x % 256 && ((y % 256) as u8) as u32 == y % 256);
        assert((((x >> 8) % 256) as u8) as u32 == (x >> 8) % 256 && (((y >> 8) % 256) as u8) as u32
            == (y >> 8) % 256);
        assert((((x >> 16) % 256) as u8) as u32 == (x >> 16) % 256 && (((y >> 16)
            % 256) as u8) as u32 == (y >> 16) % 256);
        assert((((x >> 24) % 256) as u8) as u32 == (x >> 24) % 256 && (((y >> 24)
            % 256) as u8) as u32 == (y >> 24) % 256);
        assert(x % 256 == y % 256 && (x >> 8) % 256 == (y >> 8) % 256 && (x >> 16) % 256 == (y
            >> 16) % 256 && (x >> 24) % 256 == (y >> 24) % 256);
        assert(x == y) by (bit_vector)
            requires
                (x % 256) == (y % 256) && ((x >> 8) % 256) == ((y >> 8) % 256) && ((x >> 16) % 256)
                    == ((y >> 16) % 256) && ((x >> 24) % 256) == ((y >> 24) % 256),
        ;
        vstd::utf8::char_u32_cast(a[0], x);
        vstd::utf8::char_u32_cast(b[0], x);
        assert(enc_chars(a).skip(4) =~= enc_chars(a.skip(1)));
        assert(enc_chars(b).skip(4) =~= enc_chars(b.skip(1)));
        lemma_enc_chars_pointwise(a.skip(1), b.skip(1));
        assert forall|i: int| 0 <= i < a.len() implies a[i] == b[i] by {
            if i > 0 {
                assert(a.skip(1)[i - 1] == b.skip(1)[i - 1]);
            }
        }
        assert(a =~= b);
    } else {
        assert(a =~= b);
    }
}

/// The atoms a byte sequence denotes, as one flattened record view.
pub open spec fn views_of(atoms: Seq<Atom>) -> Seq<SpecAtom> {
    atoms.map_values(|a: Atom| a@)
}

proof fn lemma_enc_atoms_snoc(t: Seq<SpecAtom>, a: SpecAtom)
    ensures
        enc_atoms_list(t.push(a)) == enc_atoms_list(t) + enc_atom(a),
    decreases t.len(),
{
    if t.len() == 0 {
        assert(t.push(a)[0] == a);
        assert(t.push(a).skip(1) =~= Seq::<SpecAtom>::empty());
        assert(enc_atoms_list(t.push(a)) == enc_atom(a) + enc_atoms_list(t.push(a).skip(1)));
        assert(enc_atoms_list(t.push(a)) =~= enc_atoms_list(t) + enc_atom(a));
    } else {
        lemma_enc_atoms_snoc(t.skip(1), a);
        assert(t.push(a)[0] == t[0]);
        assert(t.push(a).skip(1) =~= t.skip(1).push(a));
        assert(enc_atoms_list(t.push(a)) =~= enc_atoms_list(t) + enc_atom(a));
    }
}

proof fn lemma_enc_atoms_len_lb(l: Seq<SpecAtom>)
    ensures
        enc_atoms_list(l).len() >= l.len(),
    decreases l.len(),
{
    if l.len() > 0 {
        lemma_enc_atoms_len_lb(l.skip(1));
    }
}

proof fn lemma_enc_atoms_step(l: Seq<SpecAtom>, j: int)
    requires
        0 <= j < l.len(),
    ensures
        enc_atoms_list(l.skip(j)) == enc_atom(l[j]) + enc_atoms_list(l.skip(j + 1)),
{
    assert(l.skip(j)[0] == l[j]);
    assert(l.skip(j).skip(1) =~= l.skip(j + 1));
    assert(enc_atoms_list(l.skip(j)) == enc_atom(l.skip(j)[0]) + enc_atoms_list(
        l.skip(j).skip(1),
    ));
}

/// Append one atom's bytes: its tag, then its payload.
fn push_atom(buf: &mut Vec<u8>, a: &Atom)
    ensures
        final(buf)@ == old(buf)@ + enc_atom(a@),
{
    match a {
        Atom::Num(x) => {
            buf.push(0u8);
            push_u64(buf, *x);
            proof {
                assert(buf@ =~= old(buf)@ + enc_atom(a@));
            }
        },
        Atom::Text(t) => {
            buf.push(1u8);
            push_str(buf, t);
            proof {
                assert(buf@ =~= old(buf)@ + enc_atom(a@));
            }
        },
    }
}

/// Read one atom's bytes.
#[verifier::rlimit(100)]
fn read_atom(buf: &Vec<u8>, pos: usize) -> (r: Option<(Atom, usize)>)
    requires
        pos <= buf@.len(),
    ensures
        match r {
            Some(p) => pos < p.1 <= buf@.len() && buf@.subrange(pos as int, p.1 as int)
                == enc_atom(p.0@),
            None => true,
        },
        forall|sa: SpecAtom|
            pos + enc_atom(sa).len() <= buf@.len() && buf@.subrange(
                pos as int,
                pos + enc_atom(sa).len(),
            ) == enc_atom(sa) ==> (r matches Some(p) && p.0@ == sa && p.1 == pos + enc_atom(
                sa,
            ).len()),
{
    if pos >= buf.len() {
        return None;
    }
    let tag = buf[pos];
    if tag == 0 {
        match read_u64(buf, pos + 1) {
            Some((x, end)) => {
                proof {
                    assert(buf@.subrange(pos as int, end as int) =~= seq![0u8] + enc_u64(x));
                    assert forall|sa: SpecAtom|
                        pos + enc_atom(sa).len() <= buf@.len() && buf@.subrange(
                            pos as int,
                            pos + enc_atom(sa).len(),
                        ) == enc_atom(sa) implies (sa matches SpecAtom::Num(v) && v == x && pos
                        + enc_atom(sa).len() == end) by {
                        assert(enc_atom(sa)[0] == buf@[pos as int]);
                        match sa {
                            SpecAtom::Num(v) => {
                                lemma_split_prefix(buf@, pos as int, seq![0u8], enc_u64(v));
                            },
                            SpecAtom::Text(t) => {
                                assert(enc_atom(sa)[0] == 1);
                            },
                        }
                    }
                }
                Some((Atom::Num(x), end))
            },
            None => {
                proof {
                    assert forall|sa: SpecAtom|
                        pos + enc_atom(sa).len() <= buf@.len() && buf@.subrange(
                            pos as int,
                            pos + enc_atom(sa).len(),
                        ) == enc_atom(sa) implies false by {
                        assert(enc_atom(sa)[0] == buf@[pos as int]);
                        match sa {
                            SpecAtom::Num(v) => {
                                assert(pos + 1 + 8 <= buf@.len());
                            },
                            SpecAtom::Text(t) => {
                                assert(enc_atom(sa)[0] == 1);
                            },
                        }
                    }
                }
                None
            },
        }
    } else if tag == 1 {
        match read_str(buf, pos + 1) {
            Some((t, end)) => {
                proof {
                    assert(buf@.subrange(pos as int, end as int) =~= seq![1u8] + enc_str(t@));
                    assert forall|sa: SpecAtom|
                        pos + enc_atom(sa).len() <= buf@.len() && buf@.subrange(
                            pos as int,
                            pos + enc_atom(sa).len(),
                        ) == enc_atom(sa) implies (sa matches SpecAtom::Text(v) && v == t@ && pos
                        + enc_atom(sa).len() == end) by {
                        assert(enc_atom(sa)[0] == buf@[pos as int]);
                        match sa {
                            SpecAtom::Text(v) => {
                                lemma_enc_chars_len(v);
                                lemma_split_prefix(buf@, pos as int, seq![1u8], enc_str(v));
                            },
                            SpecAtom::Num(v) => {
                                assert(enc_atom(sa)[0] == 0);
                            },
                        }
                    }
                }
                Some((Atom::Text(t), end))
            },
            None => {
                proof {
                    assert forall|sa: SpecAtom|
                        pos + enc_atom(sa).len() <= buf@.len() && buf@.subrange(
                            pos as int,
                            pos + enc_atom(sa).len(),
                        ) == enc_atom(sa) implies false by {
                        assert(enc_atom(sa)[0] == buf@[pos as int]);
                        match sa {
                            SpecAtom::Text(v) => {
                                lemma_enc_chars_len(v);
                                lemma_split_prefix(buf@, pos as int, seq![1u8], enc_str(v));
                            },
                            SpecAtom::Num(v) => {
                                assert(enc_atom(sa)[0] == 0);
                            },
                        }
                    }
                }
                None
            },
        }
    } else {
        proof {
            assert forall|sa: SpecAtom|
                pos + enc_atom(sa).len() <= buf@.len() && buf@.subrange(
                    pos as int,
                    pos + enc_atom(sa).len(),
                ) == enc_atom(sa) implies false by {
                assert(enc_atom(sa)[0] == buf@[pos as int]);
            }
        }
        None
    }
}

/// Encode a flattened record: its atom count, then each atom.
#[verifier::loop_isolation(false)]
pub fn encode_atoms(atoms: &Vec<Atom>) -> (r: Vec<u8>)
    ensures
        r@ == enc_record(views_of(atoms@)),
{
    let mut buf: Vec<u8> = Vec::new();
    let n = atoms.len();
    push_u64(&mut buf, n as u64);
    proof {
        assert(views_of(atoms@).len() == atoms@.len());
    }
    for j in 0..n
        invariant
            n == atoms@.len(),
            buf@ == enc_u64(n as u64) + enc_atoms_list(views_of(atoms@).take(j as int)),
    {
        push_atom(&mut buf, &atoms[j]);
        proof {
            lemma_enc_atoms_snoc(views_of(atoms@).take(j as int), atoms@[j as int]@);
            assert(views_of(atoms@).take(j + 1) =~= views_of(atoms@).take(j as int).push(
                atoms@[j as int]@,
            ));
        }
    }
    proof {
        assert(views_of(atoms@).take(n as int) =~= views_of(atoms@));
    }
    buf
}

/// Decode a flattened record.  The whole byte string must be one
/// record: trailing bytes, a bad tag, or a short buffer fail with
/// `CodecError`.
#[verifier::loop_isolation(false)]
#[verifier::rlimit(100)]
pub fn decode_atoms(buf: &Vec<u8>) -> (r: Result<Vec<Atom>, StateMachineError>)
    ensures
        r matches Ok(v) ==> buf@ == enc_record(views_of(v@)),
        forall|l: Seq<SpecAtom>|
            buf@ == enc_record(l) ==> (r matches Ok(v) && views_of(v@) == l),
        r matches Err(e) ==> e == StateMachineError::CodecError,
{
    let ghost valid = exists|l: Seq<SpecAtom>| buf@ == enc_record(l);
    let ghost w = choose|l: Seq<SpecAtom>| buf@ == enc_record(l);
    proof {
        if valid {
            lemma_enc_atoms_len_lb(w);
            assert(buf@.subrange(0, buf@.len() as int) =~= buf@);
            lemma_split_prefix(buf@, 0, enc_u64(w.len() as u64), enc_atoms_list(w));
        }
    }
    let (n, p1) = match read_u64(buf, 0) {
        Some(p) => p,
        None => {
            return Err(StateMachineError::CodecError);
        },
    };
    if n > buf.len() as u64 {
        proof {
            if valid {
                assert(n == w.len() as u64);
            }
        }
        return Err(StateMachineError::CodecError);
    }
    let nu = n as usize;
    let mut out: Vec<Atom> = Vec::new();
    let mut cur: usize = p1;
    proof {
        assert(views_of(out@) =~= Seq::<SpecAtom>::empty());
        assert(buf@.subrange(8, 8) =~= Seq::<u8>::empty());
        if valid {
            assert(w.take(0) =~= Seq::<SpecAtom>::empty());
            assert(w.skip(0) =~= w);
        }
    }
    for j in 0..nu
        invariant
            nu == n,
            p1 == 8,
            p1 <= cur <= buf@.len(),
            out@.len() == j,
            buf@.subrange(p1 as int, cur as int) == enc_atoms_list(views_of(out@)),
            valid ==> n == w.len() as u64 && views_of(out@) == w.take(j as int)
                && buf@.subrange(cur as int, buf@.len() as int) == enc_atoms_list(
                w.skip(j as int),
            ),
    {
        proof {
            if valid {
                lemma_enc_atoms_step(w, j as int);
                lemma_split_prefix(
                    buf@,
                    cur as int,
                    enc_atom(w[j as int]),
                    enc_atoms_list(w.skip(j + 1)),
                );
            }
        }
        let (a, p2) = match read_atom(buf, cur) {
            Some(p) => p,
            None => {
                return Err(StateMachineError::CodecError);
            },
        };
        let ghost before = out@;
        out.push(a);
        proof {
            lemma_enc_atoms_snoc(views_of(before), a@);
            assert(views_of(out@) =~= views_of(before).push(a@));
            assert(buf@.subrange(p1 as int, p2 as int) =~= buf@.subrange(p1 as int, cur as int)
                + buf@.subrange(cur as int, p2 as int));
            if valid {
                assert(views_of(out@) =~= w.take(j + 1));
                assert(buf@.subrange(p2 as int, buf@.len() as int) =~= enc_atoms_list(
                    w.skip(j + 1),
                ));
            }
        }
        cur = p2;
    }
    if cur != buf.len() {
        proof {
            if valid {
                assert(w.skip(nu as int) =~= Seq::<SpecAtom>::empty());
                assert(buf@.subrange(cur as int, buf@.len() as int).len() == 0);
            }
        }
        return Err(StateMachineError::CodecError);
    }
    proof {
        assert(buf@ =~= buf@.subrange(0, 8) + buf@.subrange(8, buf@.len() as int));
        assert(buf@ =~= enc_record(views_of(out@)));
        if valid {
            assert(views_of(out@) =~= w);
        }
        assert forall|l: Seq<SpecAtom>| buf@ == enc_record(l) implies views_of(out@) == l by {
            assert(valid);
            lemma_enc_atoms_len_lb(l);
            assert(buf@.subrange(0, buf@.len() as int) =~= buf@);
            lemma_split_prefix(buf@, 0, enc_u64(l.len() as u64), enc_atoms_list(l));
            lemma_enc_u64_pointwise(l.len() as u64, n);
            assert(l.len() == n);
            assert(enc_atoms_list(views_of(out@)) == enc_atoms_list(l));
            assert(enc_atoms_list(l).len() == buf@.len() - 8);
            lemma_enc_atoms_pointwise(views_of(out@), l);
        }
    }
    Ok(out)
}

proof fn lemma_enc_atoms_pointwise(a: Seq<SpecAtom>, b: Seq<SpecAtom>)
    requires
        a.len() == b.len(),
        enc_atoms_list(a) == enc_atoms_list(b),
        enc_atoms_list(a).len() <= u64::MAX,
    ensures
        a == b,
    decreases a.len(),
{
    if a.len() > 0 {
        let ea = enc_atom(a[0]);
        let eb = enc_atom(b[0]);
        assert(enc_atoms_list(a) == ea + enc_atoms_list(a.skip(1)));
        assert(enc_atoms_list(b) == eb + enc_atoms_list(b.skip(1)));
        assert(ea[0] == eb[0]) by {
            assert((ea + enc_atoms_list(a.skip(1)))[0] == ea[0]);
            assert((eb + enc_atoms_list(b.skip(1)))[0] == eb[0]);
        }
        match (a[0], b[0]) {
            (SpecAtom::Num(x), SpecAtom::Num(y)) => {
                lemma_atom_prefix_eq_num(a, b, x, y);
            },
            (SpecAtom::Text(x), SpecAtom::Text(y)) => {
                lemma_atom_prefix_eq_text(a, b, x, y);
            },
            (SpecAtom::Num(x), SpecAtom::Text(y)) => {
                assert(ea[0] == 0 && eb[0] == 1);
            },
            (SpecAtom::Text(x), SpecAtom::Num(y)) => {
                assert(ea[0] == 1 && eb[0] == 0);
            },
        }
        lemma_enc_atoms_pointwise(a.skip(1), b.skip(1));
        assert forall|i: int| 0 <= i < a.len() implies a[i] == b[i] by {
            if i > 0 {
                assert(a.skip(1)[i - 1] == b.skip(1)[i - 1]);
            }
        }
        assert(a =~= b);
    } else {
        assert(a =~= b);
    }
}

proof fn lemma_atom_prefix_eq_num(a: Seq<SpecAtom>, b: Seq<SpecAtom>, x: u64, y: u64)
    requires
        a.len() == b.len(),
        a.len() > 0,
        a[0] == SpecAtom::Num(x),
        b[0] == SpecAtom::Num(y),
        enc_atoms_list(a) == enc_atoms_list(b),
    ensures
        x == y,
        enc_atoms_list(a.skip(1)) == enc_atoms_list(b.skip(1)),
{
    let whole = enc_atoms_list(a);
    assert(whole == enc_atom(a[0]) + enc_atoms_list(a.skip(1)));
    assert(whole == enc_atom(b[0]) + enc_atoms_list(b.skip(1)));
    lemma_enc_u64_bytes(x);
    lemma_enc_u64_bytes(y);
    assert forall|i: int| 0 <= i < 9 implies enc_atom(a[0])[i] == enc_atom(b[0])[i] by {
        assert(whole[i] == (enc_atom(a[0]) + enc_atoms_list(a.skip(1)))[i]);
        assert(whole[i] == (enc_atom(b[0]) + enc_atoms_list(b.skip(1)))[i]);
    }
    assert(enc_u64(x)[0] == enc_u64(y)[0] && enc_u64(x)[1] == enc_u64(y)[1] && enc_u64(x)[2]
        == enc_u64(y)[2] && enc_u64(x)[3] == enc_u64(y)[3] && enc_u64(x)[4] == enc_u64(y)[4]
        && enc_u64(x)[5] == enc_u64(y)[5] && enc_u64(x)[6] == enc_u64(y)[6] && enc_u64(x)[7]
        == enc_u64(y)[7]) by {
        assert forall|i: int| 0 <= i < 8 implies enc_u64(x)[i] == enc_u64(y)[i] by {
            assert(enc_atom(a[0])[i + 1] == enc_u64(x)[i]);
            assert(enc_atom(b[0])[i + 1] == enc_u64(y)[i]);
        }
    }
    assert(x == y) by (bit_vector)
        requires
            (x % 256) == (y % 256) && ((x >> 8) % 256) == ((y >> 8) % 256) && ((x >> 16) % 256)
                == ((y >> 16) % 256) && ((x >> 24) % 256) == ((y >> 24) % 256) && ((x >> 32) % 256)
                == ((y >> 32) % 256) && ((x >> 40) % 256) == ((y >> 40) % 256) && ((x >> 48) % 256)
                == ((y >> 48) % 256) && ((x >> 56) % 256) == ((y >> 56) % 256),
    ;
    assert forall|i: int| #![trigger enc_atoms_list(a.skip(1))[i]]
        0 <= i < enc_atoms_list(a.skip(1)).len() implies enc_atoms_list(a.skip(1))[i]
        == enc_atoms_list(b.skip(1))[i] by {
        assert(whole[9 + i] == (enc_atom(a[0]) + enc_atoms_list(a.skip(1)))[9 + i]);
        assert(whole[9 + i] == (enc_atom(b[0]) + enc_atoms_list(b.skip(1)))[9 + i]);
    }
    assert(enc_atoms_list(a.skip(1)) =~= enc_atoms_list(b.skip(1)));
}

proof fn lemma_atom_prefix_eq_text(a: Seq<SpecAtom>, b: Seq<SpecAtom>, x: Seq<char>, y: Seq<char>)
    requires
        a.len() == b.len(),
        a.len() > 0,
        a[0] == SpecAtom::Text(x),
        b[0] == SpecAtom::Text(y),
        enc_atoms_list(a) == enc_atoms_list(b),
        enc_atoms_list(a).len() <= u64::MAX,
    ensures
        x == y,
        enc_atoms_list(a.skip(1)) == enc_atoms_list(b.skip(1)),
{
    let whole = enc_atoms_list(a);
    assert(whole == enc_atom(a[0]) + enc_atoms_list(a.skip(1)));
    assert(whole == enc_atom(b[0]) + enc_atoms_list(b.skip(1)));
    lemma_enc_chars_len(x);
    lemma_enc_chars_len(y);
    assert(enc_atom(a[0]).len() == 9 + 4 * x.len());
    assert(enc_atom(b[0]).len() == 9 + 4 * y.len());
    assert(whole.len() >= 9 + 4 * x.len() && whole.len() >= 9 + 4 * y.len());
    assert(enc_u64(x.len() as u64) =~= whole.subrange(1, 9)) by {
        assert forall|i: int| #![trigger whole[i + 1]] 0 <= i < 8 implies enc_u64(
            x.len() as u64,
        )[i] == whole[i + 1] by {
            assert(whole[i + 1] == (enc_atom(a[0]) + enc_atoms_list(a.skip(1)))[i + 1]);
        }
    }
    assert(enc_u64(y.len() as u64) =~= whole.subrange(1, 9)) by {
        assert forall|i: int| #![trigger whole[i + 1]] 0 <= i < 8 implies enc_u64(
            y.len() as u64,
        )[i] == whole[i + 1] by {
            assert(whole[i + 1] == (enc_atom(b[0]) + enc_atoms_list(b.skip(1)))[i + 1]);
        }
    }
    lemma_enc_u64_pointwise(x.len() as u64, y.len() as u64);
    assert(4 * x.len() <= u64::MAX && 4 * y.len() <= u64::MAX);
    assert(x.len() == y.len());
    assert forall|i: int| #![trigger enc_chars(x)[i]] 0 <= i < 4 * x.len() implies enc_chars(
        x,
    )[i] == enc_chars(y)[i] by {
        assert(whole[9 + i] == (enc_atom(a[0]) + enc_atoms_list(a.skip(1)))[9 + i]);
        assert(whole[9 + i] == (enc_atom(b[0]) + enc_atoms_list(b.skip(1)))[9 + i]);
        assert((seq![1u8] + enc_str(x))[9 + i] == enc_chars(x)[i]);
        assert((seq![1u8] + enc_str(y))[9 + i] == enc_chars(y)[i]);
    }
    assert(enc_chars(x) =~= enc_chars(y));
    lemma_enc_chars_pointwise(x, y);
    assert forall|i: int|
        0 <= i < enc_atoms_list(a.skip(1)).len() implies enc_atoms_list(a.skip(1))[i]
        == enc_atoms_list(b.skip(1))[i] by {
        assert(whole[9 + 4 * x.len() + i] == (enc_atom(a[0]) + enc_atoms_list(a.skip(1)))[9 + 4
            * x.len() + i]);
        assert(whole[9 + 4 * x.len() + i] == (enc_atom(b[0]) + enc_atoms_list(b.skip(1)))[9 + 4
            * y.len() + i]);
    }
    assert(enc_atoms_list(a.skip(1)) =~= enc_atoms_list(b.skip(1)));
}

proof fn lemma_enc_u64_pointwise(x: u64, y: u64)
    requires
        enc_u64(x) == enc_u64(y),
    ensures
        x == y,
{
    lemma_enc_u64_bytes(x);
    lemma_enc_u64_bytes(y);
    assert(x == y) by (bit_vector)
        requires
            (x % 256) == (y % 256) && ((x >> 8) % 256) == ((y >> 8) % 256) && ((x >> 16) % 256)
                == ((y >> 16) % 256) && ((x >> 24) % 256) == ((y >> 24) % 256) && ((x >> 32) % 256)
                == ((y >> 32) % 256) && ((x >> 40) % 256) == ((y >> 40) % 256) && ((x >> 48) % 256)
                == ((y >> 48) % 256) && ((x >> 56) % 256) == ((y >> 56) % 256),
    ;
}

// ---------------------------------------------------------------
// Record flattenings.
// ---------------------------------------------------------------

/// The number a task outcome is persisted as.
pub open spec fn outcome_num(o: TaskOutcome) -> u64 {
    match o {
        TaskOutcome::Unknown => 0,
        TaskOutcome::Success => 1,
        TaskOutcome::Failed => 2,
    }
}

/// The flattened form of a task record.
pub open spec fn atoms_of_task(t: SpecTask) -> Seq<SpecAtom> {
    seq![
        SpecAtom::Text(t.id),
        SpecAtom::Text(t.extractor),
        SpecAtom::Text(t.namespace),
        SpecAtom::Text(t.content_id),
        SpecAtom::Num(outcome_num(t.outcome)),
    ]
}

/// The canonical bytes of a task record.
pub fn encode_task(t: &Task) -> (r: Vec<u8>)
    ensures
        r@ == enc_record(atoms_of_task(t@)),
{
    let mut atoms: Vec<Atom> = Vec::new();
    atoms.push(Atom::Text(t.id.clone()));
    atoms.push(Atom::Text(t.extractor.clone()));
    atoms.push(Atom::Text(t.namespace.clone()));
    atoms.push(Atom::Text(t.content_id.clone()));
    let o: u64 = match t.outcome {
        TaskOutcome::Unknown => 0,
        TaskOutcome::Success => 1,
        TaskOutcome::Failed => 2,
    };
    atoms.push(Atom::Num(o));
    proof {
        assert(views_of(atoms@) =~= atoms_of_task(t@));
    }
    encode_atoms(&atoms)
}

/// Decode a task record: exactly the inverse of `encode_task` on its
/// range, and `CodecError` on anything else.
pub fn decode_task(buf: &Vec<u8>) -> (r: Result<Task, StateMachineError>)
    ensures
        r matches Ok(t) ==> buf@ == enc_record(atoms_of_task(t@)),
        forall|v: SpecTask| buf@ == enc_record(atoms_of_task(v)) ==> (r matches Ok(t) && t@ == v),
        r matches Err(e) ==> e == StateMachineError::CodecError,
{
    let ghost valid = exists|v: SpecTask| buf@ == enc_record(atoms_of_task(v));
    let ghost w = choose|v: SpecTask| buf@ == enc_record(atoms_of_task(v));
    let atoms = match decode_atoms(buf) {
        Ok(a) => a,
        Err(_) => {
            return Err(StateMachineError::CodecError);
        },
    };
    proof {
        if valid {
            assert(views_of(atoms@) == atoms_of_task(w));
        }
    }
    if atoms.len() != 5 {
        return Err(StateMachineError::CodecError);
    }
    proof {
        if valid {
            assert(atoms@[0]@ == atoms_of_task(w)[0] && atoms@[1]@ == atoms_of_task(w)[1]
                && atoms@[2]@ == atoms_of_task(w)[2] && atoms@[3]@ == atoms_of_task(w)[3]
                && atoms@[4]@ == atoms_of_task(w)[4]);
        }
    }
    let id = match &atoms[0] {
        Atom::Text(x) => x.clone(),
        _ => {
            return Err(StateMachineError::CodecError);
        },
    };
    let extractor = match &atoms[1] {
        Atom::Text(x) => x.clone(),
        _ => {
            return Err(StateMachineError::CodecError);
        },
    };
    let namespace = match &atoms[2] {
        Atom::Text(x) => x.clone(),
        _ => {
            return Err(StateMachineError::CodecError);
        },
    };
    let content_id = match &atoms[3] {
        Atom::Text(x) => x.clone(),
        _ => {
            return Err(StateMachineError::CodecError);
        },
    };
    let o = match &atoms[4] {
        Atom::Num(x) => *x,
        _ => {
            return Err(StateMachineError::CodecError);
        },
    };
    let outcome = if o == 0 {
        TaskOutcome::Unknown
    } else if o == 1 {
        TaskOutcome::Success
    } else if o == 2 {
        TaskOutcome::Failed
    } else {
        return Err(StateMachineError::CodecError);
    };
    let t = Task { id, extractor, namespace, content_id, outcome };
    proof {
        assert(views_of(atoms@) =~= atoms_of_task(t@));
        if valid {
            assert(t@ == w);
        }
    }
    Ok(t)
}


/// The flattened form of one extractor description record.
pub open spec fn atoms_of_extractor_description(v: SpecExtractorDescription) -> Seq<SpecAtom> {
    seq![SpecAtom::Text(v.name), SpecAtom::Text(v.description)]
}

/// The canonical bytes of the record.
pub fn encode_extractor_description(v: &ExtractorDescription) -> (r: Vec<u8>)
    ensures
        r@ == enc_record(atoms_of_extractor_description(v@)),
{
    let mut atoms: Vec<Atom> = Vec::new();
    atoms.push(Atom::Text(v.name.clone()));
    atoms.push(Atom::Text(v.description.clone()));
    proof {
        assert(views_of(atoms@) =~= atoms_of_extractor_description(v@));
    }
    encode_atoms(&atoms)
}

/// Decode the record: exactly the inverse of the encoder on its
/// range, and `CodecError` on anything else.
pub fn decode_extractor_description(buf: &Vec<u8>) -> (r: Result<ExtractorDescription, StateMachineError>)
    ensures
        r matches Ok(t) ==> buf@ == enc_record(atoms_of_extractor_description(t@)),
        forall|v: SpecExtractorDescription| buf@ == enc_record(atoms_of_extractor_description(v)) ==> (r matches Ok(t) && t@
            == v),
        r matches Err(e) ==> e == StateMachineError::CodecError,
{
    let ghost valid = exists|v: SpecExtractorDescription| buf@ == enc_record(atoms_of_extractor_description(v));
    let ghost w = choose|v: SpecExtractorDescription| buf@ == enc_record(atoms_of_extractor_description(v));
    let atoms = match decode_atoms(buf) {
        Ok(a) => a,
        Err(_) => {
            return Err(StateMachineError::CodecError);
        },
    };
    proof {
        if valid {
            assert(views_of(atoms@) == atoms_of_extractor_description(w));
        }
    }
    if atoms.len() != 2 {
        return Err(StateMachineError::CodecError);
    }
    proof {
        if valid {
            assert forall|i: int| 0 <= i < 2 implies atoms@[i]@ == atoms_of_extractor_description(w)[i] by {
                assert(views_of(atoms@)[i] == atoms@[i]@);
            }
        }
    }
    let name = match &atoms[0] {
        Atom::Text(x) => x.clone(),
        _ => {
            return Err(StateMachineError::CodecError);
        },
    };
    let description = match &atoms[1] {
        Atom::Text(x) => x.clone(),
        _ => {
            return Err(StateMachineError::CodecError);
        },
    };
    let t = ExtractorDescription { name, description };
    proof {
        assert(views_of(atoms@) =~= atoms_of_extractor_description(t@));
        if valid {
            assert(t@ == w);
        }
    }
    Ok(t)
}


/// The flattened form of one executor metadata record.
pub open spec fn atoms_of_executor_metadata(v: SpecExecutorMetadata) -> Seq<SpecAtom> {
    seq![
        SpecAtom::Text(v.id),
        SpecAtom::Num(v.last_seen),
        SpecAtom::Text(v.addr),
        SpecAtom::Text(v.extractor.name),
        SpecAtom::Text(v.extractor.description),
    ]
}

/// The canonical bytes of the record.
pub fn encode_executor_metadata(v: &ExecutorMetadata) -> (r: Vec<u8>)
    ensures
        r@ == enc_record(atoms_of_executor_metadata(v@)),
{
    let mut atoms: Vec<Atom> = Vec::new();
    atoms.push(Atom::Text(v.id.clone()));
    atoms.push(Atom::Num(v.last_seen));
    atoms.push(Atom::Text(v.addr.clone()));
    atoms.push(Atom::Text(v.extractor.name.clone()));
    atoms.push(Atom::Text(v.extractor.description.clone()));
    proof {
        assert(views_of(atoms@) =~= atoms_of_executor_metadata(v@));
    }
    encode_atoms(&atoms)
}

/// Decode the record: exactly the inverse of the encoder on its
/// range, and `CodecError` on anything else.
pub fn decode_executor_metadata(buf: &Vec<u8>) -> (r: Result<ExecutorMetadata, StateMachineError>)
    ensures
        r matches Ok(t) ==> buf@ == enc_record(atoms_of_executor_metadata(t@)),
        forall|v: SpecExecutorMetadata| buf@ == enc_record(atoms_of_executor_metadata(v)) ==> (r matches Ok(t) && t@
            == v),
        r matches Err(e) ==> e == StateMachineError::CodecError,
{
    let ghost valid = exists|v: SpecExecutorMetadata| buf@ == enc_record(atoms_of_executor_metadata(v));
    let ghost w = choose|v: SpecExecutorMetadata| buf@ == enc_record(atoms_of_executor_metadata(v));
    let atoms = match decode_atoms(buf) {
        Ok(a) => a,
        Err(_) => {
            return Err(StateMachineError::CodecError);
        },
    };
    proof {
        if valid {
            assert(views_of(atoms@) == atoms_of_executor_metadata(w));
        }
    }
    if atoms.len() != 5 {
        return Err(StateMachineError::CodecError);
    }
    proof {
        if valid {
            assert forall|i: int| 0 <= i < 5 implies atoms@[i]@ == atoms_of_executor_metadata(w)[i] by {
                assert(views_of(atoms@)[i] == atoms@[i]@);
            }
        }
    }
    let id = match &atoms[0] {
        Atom::Text(x) => x.clone(),
        _ => {
            return Err(StateMachineError::CodecError);
        },
    };
    let last_seen = match &atoms[1] {
        Atom::Num(x) => *x,
        _ => {
            return Err(StateMachineError::CodecError);
        },
    };
    let addr = match &atoms[2] {
        Atom::Text(x) => x.clone(),
        _ => {
            return Err(StateMachineError::CodecError);
        },
    };
    let xname = match &atoms[3] {
        Atom::Text(x) => x.clone(),
        _ => {
            return Err(StateMachineError::CodecError);
        },
    };
    let xdesc = match &atoms[4] {
        Atom::Text(x) => x.clone(),
        _ => {
            return Err(StateMachineError::CodecError);
        },
    };
    let t = ExecutorMetadata {
        id,
        last_seen,
        addr,
        extractor: ExtractorDescription { name: xname, description: xdesc },
    };
    proof {
        assert(views_of(atoms@) =~= atoms_of_executor_metadata(t@));
        if valid {
            assert(t@ == w);
        }
    }
    Ok(t)
}


/// The flattened form of one extraction policy record.
pub open spec fn atoms_of_extraction_policy(v: SpecExtractionPolicy) -> Seq<SpecAtom> {
    seq![
        SpecAtom::Text(v.id),
        SpecAtom::Text(v.namespace),
        SpecAtom::Text(v.name),
        SpecAtom::Text(v.extractor),
    ]
}

/// The canonical bytes of the record.
pub fn encode_extraction_policy(v: &ExtractionPolicy) -> (r: Vec<u8>)
    ensures
        r@ == enc_record(atoms_of_extraction_policy(v@)),
{
    let mut atoms: Vec<Atom> = Vec::new();
    atoms.push(Atom::Text(v.id.clone()));
    atoms.push(Atom::Text(v.namespace.clone()));
    atoms.push(Atom::Text(v.name.clone()));
    atoms.push(Atom::Text(v.extractor.clone()));
    proof {
        assert(views_of(atoms@) =~= atoms_of_extraction_policy(v@));
    }
    encode_atoms(&atoms)
}

/// Decode the record: exactly the inverse of the encoder on its
/// range, and `CodecError` on anything else.
pub fn decode_extraction_policy(buf: &Vec<u8>) -> (r: Result<ExtractionPolicy, StateMachineError>)
    ensures
        r matches Ok(t) ==> buf@ == enc_record(atoms_of_extraction_policy(t@)),
        forall|v: SpecExtractionPolicy| buf@ == enc_record(atoms_of_extraction_policy(v)) ==> (r matches Ok(t) && t@
            == v),
        r matches Err(e) ==> e == StateMachineError::CodecError,
{
    let ghost valid = exists|v: SpecExtractionPolicy| buf@ == enc_record(atoms_of_extraction_policy(v));
    let ghost w = choose|v: SpecExtractionPolicy| buf@ == enc_record(atoms_of_extraction_policy(v));
    let atoms = match decode_atoms(buf) {
        Ok(a) => a,
        Err(_) => {
            return Err(StateMachineError::CodecError);
        },
    };
    proof {
        if valid {
            assert(views_of(atoms@) == atoms_of_extraction_policy(w));
        }
    }
    if atoms.len() != 4 {
        return Err(StateMachineError::CodecError);
    }
    proof {
        if valid {
            assert forall|i: int| 0 <= i < 4 implies atoms@[i]@ == atoms_of_extraction_policy(w)[i] by {
                assert(views_of(atoms@)[i] == atoms@[i]@);
            }
        }
    }
    let id = match &atoms[0] {
        Atom::Text(x) => x.clone(),
        _ => {
            return Err(StateMachineError::CodecError);
        },
    };
    let namespace = match &atoms[1] {
        Atom::Text(x) => x.clone(),
        _ => {
            return Err(StateMachineError::CodecError);
        },
    };
    let name = match &atoms[2] {
        Atom::Text(x) => x.clone(),
        _ => {
            return Err(StateMachineError::CodecError);
        },
    };
    let extractor = match &atoms[3] {
        Atom::Text(x) => x.clone(),
        _ => {
            return Err(StateMachineError::CodecError);
        },
    };
    let t = ExtractionPolicy { id, namespace, name, extractor };
    proof {
        assert(views_of(atoms@) =~= atoms_of_extraction_policy(t@));
        if valid {
            assert(t@ == w);
        }
    }
    Ok(t)
}


/// The flattened form of one index descriptor record.
pub open spec fn atoms_of_index_descriptor(v: SpecIndexDescriptor) -> Seq<SpecAtom> {
    seq![SpecAtom::Text(v.name), SpecAtom::Text(v.namespace), SpecAtom::Text(v.schema)]
}

/// The canonical bytes of the record.
pub fn encode_index_descriptor(v: &IndexDescriptor) -> (r: Vec<u8>)
    ensures
        r@ == enc_record(atoms_of_index_descriptor(v@)),
{
    let mut atoms: Vec<Atom> = Vec::new();
    atoms.push(Atom::Text(v.name.clone()));
    atoms.push(Atom::Text(v.namespace.clone()));
    atoms.push(Atom::Text(v.schema.clone()));
    proof {
        assert(views_of(atoms@) =~= atoms_of_index_descriptor(v@));
    }
    encode_atoms(&atoms)
}

/// Decode the record: exactly the inverse of the encoder on its
/// range, and `CodecError` on anything else.
pub fn decode_index_descriptor(buf: &Vec<u8>) -> (r: Result<IndexDescriptor, StateMachineError>)
    ensures
        r matches Ok(t) ==> buf@ == enc_record(atoms_of_index_descriptor(t@)),
        forall|v: SpecIndexDescriptor| buf@ == enc_record(atoms_of_index_descriptor(v)) ==> (r matches Ok(t) && t@
            == v),
        r matches Err(e) ==> e == StateMachineError::CodecError,
{
    let ghost valid = exists|v: SpecIndexDescriptor| buf@ == enc_record(atoms_of_index_descriptor(v));
    let ghost w = choose|v: SpecIndexDescriptor| buf@ == enc_record(atoms_of_index_descriptor(v));
    let atoms = match decode_atoms(buf) {
        Ok(a) => a,
        Err(_) => {
            return Err(StateMachineError::CodecError);
        },
    };
    proof {
        if valid {
            assert(views_of(atoms@) == atoms_of_index_descriptor(w));
        }
    }
    if atoms.len() != 3 {
        return Err(StateMachineError::CodecError);
    }
    proof {
        if valid {
            assert forall|i: int| 0 <= i < 3 implies atoms@[i]@ == atoms_of_index_descriptor(w)[i] by {
                assert(views_of(atoms@)[i] == atoms@[i]@);
            }
        }
    }
    let name = match &atoms[0] {
        Atom::Text(x) => x.clone(),
        _ => {
            return Err(StateMachineError::CodecError);
        },
    };
    let namespace = match &atoms[1] {
        Atom::Text(x) => x.clone(),
        _ => {
            return Err(StateMachineError::CodecError);
        },
    };
    let schema = match &atoms[2] {
        Atom::Text(x) => x.clone(),
        _ => {
            return Err(StateMachineError::CodecError);
        },
    };
    let t = IndexDescriptor { name, namespace, schema };
    proof {
        assert(views_of(atoms@) =~= atoms_of_index_descriptor(t@));
        if valid {
            assert(t@ == w);
        }
    }
    Ok(t)
}


/// The flattened form of one state-change record.
pub open spec fn atoms_of_state_change(v: SpecStateChange) -> Seq<SpecAtom> {
    match v.processed_at {
        None => seq![
            SpecAtom::Text(v.id),
            SpecAtom::Text(v.kind),
            SpecAtom::Text(v.payload),
            SpecAtom::Num(v.created_at),
            SpecAtom::Num(0),
        ],
        Some(t) => seq![
            SpecAtom::Text(v.id),
            SpecAtom::Text(v.kind),
            SpecAtom::Text(v.payload),
            SpecAtom::Num(v.created_at),
            SpecAtom::Num(1),
            SpecAtom::Num(t),
        ],
    }
}

/// The canonical bytes of a state-change record.
pub fn encode_state_change(v: &StateChange) -> (r: Vec<u8>)
    ensures
        r@ == enc_record(atoms_of_state_change(v@)),
{
    let mut atoms: Vec<Atom> = Vec::new();
    atoms.push(Atom::Text(v.id.clone()));
    atoms.push(Atom::Text(v.kind.clone()));
    atoms.push(Atom::Text(v.payload.clone()));
    atoms.push(Atom::Num(v.created_at));
    match v.processed_at {
        None => {
            atoms.push(Atom::Num(0));
        },
        Some(t) => {
            atoms.push(Atom::Num(1));
            atoms.push(Atom::Num(t));
        },
    }
    proof {
        assert(views_of(atoms@) =~= atoms_of_state_change(v@));
    }
    encode_atoms(&atoms)
}

/// Decode a state-change record: exactly the inverse of the encoder
/// on its range, and `CodecError` on anything else.
pub fn decode_state_change(buf: &Vec<u8>) -> (r: Result<StateChange, StateMachineError>)
    ensures
        r matches Ok(t) ==> buf@ == enc_record(atoms_of_state_change(t@)),
        forall|v: SpecStateChange|
            buf@ == enc_record(atoms_of_state_change(v)) ==> (r matches Ok(t) && t@ == v),
        r matches Err(e) ==> e == StateMachineError::CodecError,
{
    let ghost valid = exists|v: SpecStateChange| buf@ == enc_record(atoms_of_state_change(v));
    let ghost w = choose|v: SpecStateChange| buf@ == enc_record(atoms_of_state_change(v));
    let atoms = match decode_atoms(buf) {
        Ok(a) => a,
        Err(_) => {
            return Err(StateMachineError::CodecError);
        },
    };
    proof {
        if valid {
            assert(views_of(atoms@) == atoms_of_state_change(w));
        }
    }
    if atoms.len() != 5 && atoms.len() != 6 {
        return Err(StateMachineError::CodecError);
    }
    proof {
        if valid {
            assert forall|i: int|
                0 <= i < atoms@.len() implies atoms@[i]@ == atoms_of_state_change(w)[i] by {
                assert(views_of(atoms@)[i] == atoms@[i]@);
            }
        }
    }
    let id = match &atoms[0] {
        Atom::Text(x) => x.clone(),
        _ => {
            return Err(StateMachineError::CodecError);
        },
    };
    let kind = match &atoms[1] {
        Atom::Text(x) => x.clone(),
        _ => {
            return Err(StateMachineError::CodecError);
        },
    };
    let payload = match &atoms[2] {
        Atom::Text(x) => x.clone(),
        _ => {
            return Err(StateMachineError::CodecError);
        },
    };
    let created_at = match &atoms[3] {
        Atom::Num(x) => *x,
        _ => {
            return Err(StateMachineError::CodecError);
        },
    };
    let flag = match &atoms[4] {
        Atom::Num(x) => *x,
        _ => {
            return Err(StateMachineError::CodecError);
        },
    };
    let processed_at = if flag == 0 {
        if atoms.len() != 5 {
            return Err(StateMachineError::CodecError);
        }
        None
    } else if flag == 1 {
        if atoms.len() != 6 {
            return Err(StateMachineError::CodecError);
        }
        match &atoms[5] {
            Atom::Num(x) => Some(*x),
            _ => {
                return Err(StateMachineError::CodecError);
            },
        }
    } else {
        return Err(StateMachineError::CodecError);
    };
    let t = StateChange { id, kind, payload, created_at, processed_at };
    proof {
        assert(views_of(atoms@) =~= atoms_of_state_change(t@));
        if valid {
            assert(t@ == w);
        }
    }
    Ok(t)
}

/// The flattened form of one content-metadata record.
pub open spec fn atoms_of_content_metadata(v: SpecContentMetadata) -> Seq<SpecAtom> {
    match v.parent_id {
        None => seq![SpecAtom::Text(v.id), SpecAtom::Text(v.namespace), SpecAtom::Num(0)],
        Some(p) => seq![
            SpecAtom::Text(v.id),
            SpecAtom::Text(v.namespace),
            SpecAtom::Num(1),
            SpecAtom::Text(p),
        ],
    }
}

/// The canonical bytes of a content-metadata record.
pub fn encode_content_metadata(v: &ContentMetadata) -> (r: Vec<u8>)
    ensures
        r@ == enc_record(atoms_of_content_metadata(v@)),
{
    let mut atoms: Vec<Atom> = Vec::new();
    atoms.push(Atom::Text(v.id.clone()));
    atoms.push(Atom::Text(v.namespace.clone()));
    match &v.parent_id {
        None => {
            atoms.push(Atom::Num(0));
        },
        Some(p) => {
            atoms.push(Atom::Num(1));
            atoms.push(Atom::Text(p.clone()));
        },
    }
    proof {
        assert(views_of(atoms@) =~= atoms_of_content_metadata(v@));
    }
    encode_atoms(&atoms)
}

/// Decode a content-metadata record: exactly the inverse of the
/// encoder on its range, and `CodecError` on anything else.
pub fn decode_content_metadata(buf: &Vec<u8>) -> (r: Result<ContentMetadata, StateMachineError>)
    ensures
        r matches Ok(t) ==> buf@ == enc_record(atoms_of_content_metadata(t@)),
        forall|v: SpecContentMetadata|
            buf@ == enc_record(atoms_of_content_metadata(v)) ==> (r matches Ok(t) && t@ == v),
        r matches Err(e) ==> e == StateMachineError::CodecError,
{
    let ghost valid = exists|v: SpecContentMetadata| buf@ == enc_record(
        atoms_of_content_metadata(v),
    );
    let ghost w = choose|v: SpecContentMetadata| buf@ == enc_record(atoms_of_content_metadata(v));
    let atoms = match decode_atoms(buf) {
        Ok(a) => a,
        Err(_) => {
            return Err(StateMachineError::CodecError);
        },
    };
    proof {
        if valid {
            assert(views_of(atoms@) == atoms_of_content_metadata(w));
        }
    }
    if atoms.len() != 3 && atoms.len() != 4 {
        return Err(StateMachineError::CodecError);
    }
    proof {
        if valid {
            assert forall|i: int|
                0 <= i < atoms@.len() implies atoms@[i]@ == atoms_of_content_metadata(w)[i] by {
                assert(views_of(atoms@)[i] == atoms@[i]@);
            }
        }
    }
    let id = match &atoms[0] {
        Atom::Text(x) => x.clone(),
        _ => {
            return Err(StateMachineError::CodecError);
        },
    };
    let namespace = match &atoms[1] {
        Atom::Text(x) => x.clone(),
        _ => {
            return Err(StateMachineError::CodecError);
        },
    };
    let flag = match &atoms[2] {
        Atom::Num(x) => *x,
        _ => {
            return Err(StateMachineError::CodecError);
        },
    };
    let parent_id = if flag == 0 {
        if atoms.len() != 3 {
            return Err(StateMachineError::CodecError);
        }
        None
    } else if flag == 1 {
        if atoms.len() != 4 {
            return Err(StateMachineError::CodecError);
        }
        match &atoms[3] {
            Atom::Text(x) => Some(x.clone()),
            _ => {
                return Err(StateMachineError::CodecError);
            },
        }
    } else {
        return Err(StateMachineError::CodecError);
    };
    let t = ContentMetadata { id, namespace, parent_id };
    proof {
        assert(views_of(atoms@) =~= atoms_of_content_metadata(t@));
        if valid {
            assert(t@ == w);
        }
    }
    Ok(t)
}

/// The flattened form of a namespace marker.
pub open spec fn atoms_of_namespace(v: Seq<char>) -> Seq<SpecAtom> {
    seq![SpecAtom::Text(v)]
}

/// The canonical bytes of a namespace marker.
pub fn encode_namespace(v: &String) -> (r: Vec<u8>)
    ensures
        r@ == enc_record(atoms_of_namespace(v@)),
{
    let mut atoms: Vec<Atom> = Vec::new();
    atoms.push(Atom::Text(v.clone()));
    proof {
        assert(views_of(atoms@) =~= atoms_of_namespace(v@));
    }
    encode_atoms(&atoms)
}

/// Decode a namespace marker: exactly the inverse of the encoder on
/// its range, and `CodecError` on anything else.
pub fn decode_namespace(buf: &Vec<u8>) -> (r: Result<String, StateMachineError>)
    ensures
        r matches Ok(t) ==> buf@ == enc_record(atoms_of_namespace(t@)),
        forall|v: Seq<char>|
            buf@ == enc_record(atoms_of_namespace(v)) ==> (r matches Ok(t) && t@ == v),
        r matches Err(e) ==> e == StateMachineError::CodecError,
{
    let ghost valid = exists|v: Seq<char>| buf@ == enc_record(atoms_of_namespace(v));
    let ghost w = choose|v: Seq<char>| buf@ == enc_record(atoms_of_namespace(v));
    let atoms = match decode_atoms(buf) {
        Ok(a) => a,
        Err(_) => {
            return Err(StateMachineError::CodecError);
        },
    };
    proof {
        if valid {
            assert(views_of(atoms@) == atoms_of_namespace(w));
        }
    }
    if atoms.len() != 1 {
        return Err(StateMachineError::CodecError);
    }
    proof {
        if valid {
            assert(atoms@[0]@ == atoms_of_namespace(w)[0]);
        }
    }
    let name = match &atoms[0] {
        Atom::Text(x) => x.clone(),
        _ => {
            return Err(StateMachineError::CodecError);
        },
    };
    proof {
        assert(views_of(atoms@) =~= atoms_of_namespace(name@));
    }
    Ok(name)
}


/// A run of text atoms, one per list element.
pub open spec fn atoms_of_text_list(l: Seq<Seq<char>>) -> Seq<SpecAtom> {
    Seq::new(l.len(), |i: int| SpecAtom::Text(l[i]))
}

/// The flattened form of one task-assignment record: how many task
/// ids, then each id.
pub open spec fn atoms_of_assignment_set(l: Seq<Seq<char>>) -> Seq<SpecAtom> {
    seq![SpecAtom::Num(l.len() as u64)] + atoms_of_text_list(l)
}

/// The canonical bytes of a task-assignment record.  The task ids
/// are emitted in the set's insertion order, which is part of the
/// record: replicas that replayed the same operations hold the same
/// order.
#[verifier::loop_isolation(false)]
pub fn encode_assignment_set(v: &StringSet) -> (r: Vec<u8>)
    ensures
        r@ == enc_record(atoms_of_assignment_set(v.seq_view())),
{
    let mut atoms: Vec<Atom> = Vec::new();
    let n = v.count();
    atoms.push(Atom::Num(n as u64));
    for j in 0..n
        invariant
            n == v.seq_view().len(),
            atoms@.len() == j + 1,
            views_of(atoms@)[0] == SpecAtom::Num(n as u64),
            forall|i: int| 0 <= i < j ==> views_of(atoms@)[i + 1] == SpecAtom::Text(
                v.seq_view()[i],
            ),
    {
        atoms.push(Atom::Text(v.item_at(j).clone()));
    }
    proof {
        assert(views_of(atoms@) =~= atoms_of_assignment_set(v.seq_view()));
    }
    encode_atoms(&atoms)
}

/// Decode a task-assignment record: exactly the inverse of the
/// encoder on duplicate-free lists, and `CodecError` on anything
/// else, a repeated id included.
#[verifier::loop_isolation(false)]
#[verifier::rlimit(100)]
pub fn decode_assignment_set(buf: &Vec<u8>) -> (r: Result<StringSet, StateMachineError>)
    ensures
        r matches Ok(t) ==> t.wf() && buf@ == enc_record(atoms_of_assignment_set(t.seq_view())),
        forall|l: Seq<Seq<char>>|
            (forall|i: int, j: int| 0 <= i < j < l.len() ==> l[i] != l[j]) && buf@ == enc_record(
                atoms_of_assignment_set(l),
            ) ==> (r matches Ok(t) && t.seq_view() == l),
        r matches Err(e) ==> e == StateMachineError::CodecError,
{
    let ghost valid = exists|l: Seq<Seq<char>>|
        (forall|i: int, j: int| 0 <= i < j < l.len() ==> l[i] != l[j]) && buf@ == enc_record(
            atoms_of_assignment_set(l),
        );
    let ghost w = choose|l: Seq<Seq<char>>|
        (forall|i: int, j: int| 0 <= i < j < l.len() ==> l[i] != l[j]) && buf@ == enc_record(
            atoms_of_assignment_set(l),
        );
    let atoms = match decode_atoms(buf) {
        Ok(a) => a,
        Err(_) => {
            return Err(StateMachineError::CodecError);
        },
    };
    proof {
        if valid {
            assert(views_of(atoms@) == atoms_of_assignment_set(w));
        }
    }
    if atoms.len() == 0 {
        return Err(StateMachineError::CodecError);
    }
    let n = match &atoms[0] {
        Atom::Num(x) => *x,
        _ => {
            proof {
                if valid {
                    assert(views_of(atoms@)[0] == atoms_of_assignment_set(w)[0]);
                }
            }
            return Err(StateMachineError::CodecError);
        },
    };
    if n != (atoms.len() - 1) as u64 {
        proof {
            if valid {
                assert(views_of(atoms@)[0] == atoms_of_assignment_set(w)[0]);
                assert(atoms@.len() == 1 + w.len());
            }
        }
        return Err(StateMachineError::CodecError);
    }
    let mut out = StringSet::new();
    let total = atoms.len();
    for j in 1..total
        invariant
            total == atoms@.len(),
            out.wf(),
            out.seq_view().len() == j - 1,
            forall|i: int| 0 <= i < j - 1 ==> views_of(atoms@)[i + 1] == SpecAtom::Text(
                out.seq_view()[i],
            ),
            valid ==> out.seq_view() == w.take(j - 1),
    {
        proof {
            if valid {
                assert(views_of(atoms@)[j as int] == atoms_of_assignment_set(w)[j as int]);
            }
        }
        let t = match &atoms[j] {
            Atom::Text(x) => x.clone(),
            _ => {
                return Err(StateMachineError::CodecError);
            },
        };
        if out.contains(&t) {
            proof {
                if valid {
                    out.lemma_view();
                    let i = choose|i: int|
                        0 <= i < out.seq_view().len() && out.seq_view()[i] == t@;
                    assert(w[i] == w[j - 1]);
                }
            }
            return Err(StateMachineError::CodecError);
        }
        let ghost before = out.seq_view();
        out.insert(t);
        proof {
            assert(out.seq_view() == before.push(views_of(atoms@)[j as int]->Text_0));
            if valid {
                assert(out.seq_view() =~= w.take(j as int));
            }
        }
    }
    proof {
        assert(views_of(atoms@) =~= atoms_of_assignment_set(out.seq_view()));
        if valid {
            assert(out.seq_view() =~= w);
        }
    }
    Ok(out)
}


/// The flattened form of one schema record: id, namespace, how many
/// columns, then each column.
pub open spec fn atoms_of_schema(v: SpecStructuredDataSchema) -> Seq<SpecAtom> {
    seq![
        SpecAtom::Text(v.id),
        SpecAtom::Text(v.namespace),
        SpecAtom::Num(v.columns.len() as u64),
    ] + atoms_of_text_list(v.columns)
}

/// The canonical bytes of a schema record.
#[verifier::loop_isolation(false)]
pub fn encode_schema(v: &StructuredDataSchema) -> (r: Vec<u8>)
    ensures
        r@ == enc_record(atoms_of_schema(v@)),
{
    let mut atoms: Vec<Atom> = Vec::new();
    atoms.push(Atom::Text(v.id.clone()));
    atoms.push(Atom::Text(v.namespace.clone()));
    let n = v.columns.len();
    atoms.push(Atom::Num(n as u64));
    for j in 0..n
        invariant
            n == v.columns@.len(),
            atoms@.len() == j + 3,
            views_of(atoms@)[0] == SpecAtom::Text(v@.id),
            views_of(atoms@)[1] == SpecAtom::Text(v@.namespace),
            views_of(atoms@)[2] == SpecAtom::Num(n as u64),
            forall|i: int| 0 <= i < j ==> views_of(atoms@)[i + 3] == SpecAtom::Text(
                v@.columns[i],
            ),
    {
        atoms.push(Atom::Text(v.columns[j].clone()));
    }
    proof {
        assert(v@.columns.len() == v.columns@.len());
        assert(views_of(atoms@) =~= atoms_of_schema(v@));
    }
    encode_atoms(&atoms)
}

/// Decode a schema record: exactly the inverse of the encoder on its
/// range, and `CodecError` on anything else.
#[verifier::loop_isolation(false)]
#[verifier::rlimit(100)]
pub fn decode_schema(buf: &Vec<u8>) -> (r: Result<StructuredDataSchema, StateMachineError>)
    ensures
        r matches Ok(t) ==> buf@ == enc_record(atoms_of_schema(t@)),
        forall|v: SpecStructuredDataSchema|
            buf@ == enc_record(atoms_of_schema(v)) ==> (r matches Ok(t) && t@ == v),
        r matches Err(e) ==> e == StateMachineError::CodecError,
{
    let ghost valid = exists|v: SpecStructuredDataSchema| buf@ == enc_record(atoms_of_schema(v));
    let ghost w = choose|v: SpecStructuredDataSchema| buf@ == enc_record(atoms_of_schema(v));
    let atoms = match decode_atoms(buf) {
        Ok(a) => a,
        Err(_) => {
            return Err(StateMachineError::CodecError);
        },
    };
    proof {
        if valid {
            assert(views_of(atoms@) == atoms_of_schema(w));
        }
    }
    if atoms.len() < 3 {
        return Err(StateMachineError::CodecError);
    }
    proof {
        if valid {
            assert(views_of(atoms@)[0] == atoms_of_schema(w)[0]);
            assert(views_of(atoms@)[1] == atoms_of_schema(w)[1]);
            assert(views_of(atoms@)[2] == atoms_of_schema(w)[2]);
        }
    }
    let id = match &atoms[0] {
        Atom::Text(x) => x.clone(),
        _ => {
            return Err(StateMachineError::CodecError);
        },
    };
    let namespace = match &atoms[1] {
        Atom::Text(x) => x.clone(),
        _ => {
            return Err(StateMachineError::CodecError);
        },
    };
    let n = match &atoms[2] {
        Atom::Num(x) => *x,
        _ => {
            return Err(StateMachineError::CodecError);
        },
    };
    if n != (atoms.len() - 3) as u64 {
        proof {
            if valid {
                assert(atoms@.len() == 3 + w.columns.len());
            }
        }
        return Err(StateMachineError::CodecError);
    }
    let mut columns: Vec<String> = Vec::new();
    let total = atoms.len();
    for j in 3..total
        invariant
            total == atoms@.len(),
            columns@.len() == j - 3,
            forall|i: int| 0 <= i < j - 3 ==> views_of(atoms@)[i + 3] == SpecAtom::Text(
                columns@[i]@,
            ),
    {
        proof {
            if valid {
                assert(views_of(atoms@)[j as int] == atoms_of_schema(w)[j as int]);
                assert(atoms_of_schema(w)[j as int] == atoms_of_text_list(w.columns)[j - 3]);
                assert(atoms_of_text_list(w.columns)[j - 3] == SpecAtom::Text(w.columns[j - 3]));
            }
        }
        let t = match &atoms[j] {
            Atom::Text(x) => x.clone(),
            _ => {
                return Err(StateMachineError::CodecError);
            },
        };
        columns.push(t);
    }
    let t = StructuredDataSchema { id, namespace, columns };
    proof {
        assert(t@.columns.len() == total - 3);
        assert(views_of(atoms@) =~= atoms_of_schema(t@));
        assert forall|v: SpecStructuredDataSchema|
            buf@ == enc_record(atoms_of_schema(v)) implies t@ == v by {
            assert(views_of(atoms@) == atoms_of_schema(v));
            assert(t@.columns.len() == v.columns.len());
            assert forall|i: int| 0 <= i < v.columns.len() implies t@.columns[i]
                == v.columns[i] by {
                assert(atoms_of_schema(t@)[i + 3] == atoms_of_schema(v)[i + 3]);
                assert(atoms_of_text_list(t@.columns)[i] == SpecAtom::Text(t@.columns[i]));
                assert(atoms_of_text_list(v.columns)[i] == SpecAtom::Text(v.columns[i]));
            }
            assert(t@.columns =~= v.columns);
        }
    }
    Ok(t)
}


/// The keyed completion times as a sequence of pairs of views.
pub open spec fn pairs_view(s: Seq<(String, u64)>) -> Seq<(Seq<char>, u64)> {
    Seq::new(s.len(), |i: int| (s[i].0@, s[i].1))
}

/// A run of text and number atoms, two per completion-time pair.
pub open spec fn atoms_of_time_pairs(l: Seq<(Seq<char>, u64)>) -> Seq<SpecAtom> {
    Seq::new(
        2 * l.len(),
        |i: int|
            if i % 2 == 0 {
                SpecAtom::Text(l[i / 2].0)
            } else {
                SpecAtom::Num(l[i / 2].1)
            },
    )
}

/// The flattened form of one applied-policies record: the content
/// id, the policy names, then the completion-time pairs.
pub open spec fn atoms_of_mapping(
    cid: Seq<char>,
    names: Seq<Seq<char>>,
    times: Seq<(Seq<char>, u64)>,
) -> Seq<SpecAtom> {
    seq![SpecAtom::Text(cid), SpecAtom::Num(names.len() as u64)] + atoms_of_text_list(names)
        + seq![SpecAtom::Num(times.len() as u64)] + atoms_of_time_pairs(times)
}

/// The canonical bytes of an applied-policies record.  Names and
/// completion-time entries are emitted in their containers'
/// insertion order, which is part of the record: replicas that
/// replayed the same operations hold the same order.
#[verifier::loop_isolation(false)]
pub fn encode_mapping(v: &ContentExtractionPolicyMapping) -> (r: Vec<u8>)
    ensures
        r@ == enc_record(
            atoms_of_mapping(
                v.content_id@,
                v.extraction_policy_names.seq_view(),
                pairs_view(v.time_of_policy_completion.kseq()),
            ),
        ),
{
    let ghost names = v.extraction_policy_names.seq_view();
    let ghost times = pairs_view(v.time_of_policy_completion.kseq());
    let mut atoms: Vec<Atom> = Vec::new();
    atoms.push(Atom::Text(v.content_id.clone()));
    let n1 = v.extraction_policy_names.count();
    atoms.push(Atom::Num(n1 as u64));
    for j in 0..n1
        invariant
            n1 == names.len(),
            atoms@.len() == j + 2,
            views_of(atoms@)[0] == SpecAtom::Text(v.content_id@),
            views_of(atoms@)[1] == SpecAtom::Num(n1 as u64),
            forall|i: int| 0 <= i < j ==> views_of(atoms@)[i + 2] == SpecAtom::Text(names[i]),
    {
        atoms.push(Atom::Text(v.extraction_policy_names.item_at(j).clone()));
    }
    let n2 = v.time_of_policy_completion.len();
    atoms.push(Atom::Num(n2 as u64));
    for j in 0..n2
        invariant
            n1 == names.len(),
            n2 == times.len(),
            atoms@.len() == 3 + n1 + 2 * j,
            views_of(atoms@)[0] == SpecAtom::Text(v.content_id@),
            views_of(atoms@)[1] == SpecAtom::Num(n1 as u64),
            forall|i: int| 0 <= i < n1 ==> views_of(atoms@)[i + 2] == SpecAtom::Text(names[i]),
            views_of(atoms@)[2 + n1] == SpecAtom::Num(n2 as u64),
            forall|i: int|
                0 <= i < j ==> views_of(atoms@)[3 + n1 + 2 * i] == SpecAtom::Text(times[i].0)
                    && views_of(atoms@)[3 + n1 + 2 * i + 1] == SpecAtom::Num(times[i].1),
    {
        let entry = v.time_of_policy_completion.entry_at(j);
        atoms.push(Atom::Text(entry.0.clone()));
        atoms.push(Atom::Num(entry.1));
    }
    proof {
        assert(views_of(atoms@) =~= atoms_of_mapping(v.content_id@, names, times));
    }
    encode_atoms(&atoms)
}

/// Whether a flattened applied-policies triple repeats no policy
/// name and no completion-time key.
pub open spec fn mapping_lists_distinct(
    names: Seq<Seq<char>>,
    times: Seq<(Seq<char>, u64)>,
) -> bool {
    &&& forall|i: int, j: int| 0 <= i < j < names.len() ==> names[i] != names[j]
    &&& forall|i: int, j: int| 0 <= i < j < times.len() ==> times[i].0 != times[j].0
}

proof fn lemma_mapping_atom_indexes(
    cid: Seq<char>,
    names: Seq<Seq<char>>,
    times: Seq<(Seq<char>, u64)>,
)
    ensures
        atoms_of_mapping(cid, names, times).len() == 3 + names.len() + 2 * times.len(),
        atoms_of_mapping(cid, names, times)[0] == SpecAtom::Text(cid),
        atoms_of_mapping(cid, names, times)[1] == SpecAtom::Num(names.len() as u64),
        forall|j: int|
            0 <= j < names.len() ==> atoms_of_mapping(cid, names, times)[2 + j] == SpecAtom::Text(
                names[j],
            ),
        atoms_of_mapping(cid, names, times)[2 + names.len() as int] == SpecAtom::Num(
            times.len() as u64,
        ),
        forall|i: int|
            0 <= i < times.len() ==> atoms_of_mapping(cid, names, times)[3 + names.len() as int + 2 * i]
                == SpecAtom::Text(times[i].0) && atoms_of_mapping(cid, names, times)[3
                + names.len() as int + 2 * i + 1] == SpecAtom::Num(times[i].1),
{
    let m = atoms_of_mapping(cid, names, times);
    assert forall|j: int| 0 <= j < names.len() implies m[2 + j] == SpecAtom::Text(names[j]) by {
        assert(atoms_of_text_list(names)[j] == SpecAtom::Text(names[j]));
    }
    assert forall|i: int| 0 <= i < times.len() implies m[3 + names.len() as int + 2 * i]
        == SpecAtom::Text(times[i].0) && m[3 + names.len() as int + 2 * i + 1] == SpecAtom::Num(
        times[i].1,
    ) by {
        assert((2 * i) % 2 == 0 && (2 * i) / 2 == i && (2 * i + 1) % 2 == 1 && (2 * i + 1) / 2
            == i);
        assert(atoms_of_time_pairs(times)[2 * i] == SpecAtom::Text(times[i].0));
        assert(atoms_of_time_pairs(times)[2 * i + 1] == SpecAtom::Num(times[i].1));
    }
}

proof fn lemma_mapping_flattening_injective(
    c1: Seq<char>,
    ns1: Seq<Seq<char>>,
    ts1: Seq<(Seq<char>, u64)>,
    c2: Seq<char>,
    ns2: Seq<Seq<char>>,
    ts2: Seq<(Seq<char>, u64)>,
)
    requires
        atoms_of_mapping(c1, ns1, ts1) == atoms_of_mapping(c2, ns2, ts2),
        3 + ns1.len() + 2 * ts1.len() <= usize::MAX,
    ensures
        c1 == c2,
        ns1 == ns2,
        ts1 == ts2,
{
    lemma_mapping_atom_indexes(c1, ns1, ts1);
    lemma_mapping_atom_indexes(c2, ns2, ts2);
    let m = atoms_of_mapping(c1, ns1, ts1);
    assert(3 + ns2.len() + 2 * ts2.len() == 3 + ns1.len() + 2 * ts1.len());
    assert(ns1.len() as u64 == ns2.len() as u64);
    assert(ns1.len() == ns2.len());
    assert(ts1.len() == ts2.len());
    assert(m[0] == SpecAtom::Text(c1) && m[0] == SpecAtom::Text(c2));
    assert forall|j: int| 0 <= j < ns1.len() implies ns1[j] == ns2[j] by {
        assert(m[2 + j] == SpecAtom::Text(ns1[j]) && m[2 + j] == SpecAtom::Text(ns2[j]));
    }
    assert(ns1 =~= ns2);
    assert forall|i: int| 0 <= i < ts1.len() implies ts1[i] == ts2[i] by {
        assert(m[3 + ns1.len() as int + 2 * i] == SpecAtom::Text(ts1[i].0));
        assert(m[3 + ns2.len() as int + 2 * i] == SpecAtom::Text(ts2[i].0));
        assert(m[3 + ns1.len() as int + 2 * i + 1] == SpecAtom::Num(ts1[i].1));
        assert(m[3 + ns2.len() as int + 2 * i + 1] == SpecAtom::Num(ts2[i].1));
        assert(ts1[i].0 == ts2[i].0 && ts1[i].1 == ts2[i].1);
    }
    assert(ts1 =~= ts2);
}

/// Decode an applied-policies record: exactly the inverse of the
/// encoder on records whose names and keys repeat nothing, and
/// `CodecError` on anything else, repeats included.
#[verifier::loop_isolation(false)]
#[verifier::rlimit(100)]
#[verifier::spinoff_prover]
pub fn decode_mapping(buf: &Vec<u8>) -> (r: Result<
    ContentExtractionPolicyMapping,
    StateMachineError,
>)
    ensures
        r matches Ok(t) ==> t.inv() && buf@ == enc_record(
            atoms_of_mapping(
                t.content_id@,
                t.extraction_policy_names.seq_view(),
                pairs_view(t.time_of_policy_completion.kseq()),
            ),
        ),
        forall|cid: Seq<char>, names: Seq<Seq<char>>, times: Seq<(Seq<char>, u64)>|
            mapping_lists_distinct(names, times) && buf@ == enc_record(
                atoms_of_mapping(cid, names, times),
            ) ==> (r matches Ok(t) && t.content_id@ == cid && t.extraction_policy_names.seq_view()
                == names && pairs_view(t.time_of_policy_completion.kseq()) == times),
        r matches Err(e) ==> e == StateMachineError::CodecError,
{
    let ghost valid = exists|cid: Seq<char>, names: Seq<Seq<char>>, times: Seq<(Seq<char>, u64)>|
        mapping_lists_distinct(names, times) && buf@ == enc_record(
            atoms_of_mapping(cid, names, times),
        );
    let ghost (wc, wn, wt) = choose|
        cid: Seq<char>,
        names: Seq<Seq<char>>,
        times: Seq<(Seq<char>, u64)>,
    |
        mapping_lists_distinct(names, times) && buf@ == enc_record(
            atoms_of_mapping(cid, names, times),
        );
    let atoms = match decode_atoms(buf) {
        Ok(a) => a,
        Err(_) => {
            return Err(StateMachineError::CodecError);
        },
    };
    proof {
        if valid {
            assert(views_of(atoms@) == atoms_of_mapping(wc, wn, wt));
            lemma_mapping_atom_indexes(wc, wn, wt);
            assert(atoms@.len() == 3 + wn.len() + 2 * wt.len());
        }
    }
    if atoms.len() < 3 {
        return Err(StateMachineError::CodecError);
    }
    proof {
        if valid {
            assert(views_of(atoms@)[0] == atoms_of_mapping(wc, wn, wt)[0]);
            assert(views_of(atoms@)[1] == atoms_of_mapping(wc, wn, wt)[1]);
        }
    }
    let content_id = match &atoms[0] {
        Atom::Text(x) => x.clone(),
        _ => {
            return Err(StateMachineError::CodecError);
        },
    };
    let n1 = match &atoms[1] {
        Atom::Num(x) => *x,
        _ => {
            return Err(StateMachineError::CodecError);
        },
    };
    if n1 > (atoms.len() - 3) as u64 {
        proof {
            if valid {
                assert(n1 == wn.len() as u64);
                assert(wn.len() <= atoms@.len() - 3);
                assert(false);
            }
        }
        return Err(StateMachineError::CodecError);
    }
    let n1u = n1 as usize;
    proof {
        if valid {
            assert(n1u == wn.len());
        }
    }
    let mut names = StringSet::new();
    for j in 0..n1u
        invariant
            n1u + 3 <= atoms@.len(),
            names.wf(),
            names.seq_view().len() == j,
            forall|i: int| 0 <= i < j ==> views_of(atoms@)[i + 2] == SpecAtom::Text(
                names.seq_view()[i],
            ),
            valid ==> names.seq_view() == wn.take(j as int),
    {
        proof {
            if valid {
                assert(views_of(atoms@)[2 + j] == atoms_of_mapping(wc, wn, wt)[2 + j]);
            }
        }
        let t = match &atoms[2 + j] {
            Atom::Text(x) => x.clone(),
            _ => {
                return Err(StateMachineError::CodecError);
            },
        };
        if names.contains(&t) {
            proof {
                if valid {
                    names.lemma_view();
                    let i = choose|i: int|
                        0 <= i < names.seq_view().len() && names.seq_view()[i] == t@;
                    assert(wn[i] == wn[j as int]);
                    assert(false);
                }
            }
            return Err(StateMachineError::CodecError);
        }
        let ghost before = names.seq_view();
        names.insert(t);
        proof {
            if valid {
                assert(names.seq_view() =~= wn.take(j + 1));
            }
        }
    }
    proof {
        if valid {
            assert(names.seq_view() =~= wn);
            assert(views_of(atoms@)[2 + n1u] == atoms_of_mapping(wc, wn, wt)[2 + wn.len() as int]);
        }
    }
    let n2 = match &atoms[2 + n1u] {
        Atom::Num(x) => *x,
        _ => {
            return Err(StateMachineError::CodecError);
        },
    };
    let rest = atoms.len() - 3 - n1u;
    if rest % 2 != 0 || n2 != (rest / 2) as u64 {
        proof {
            if valid {
                assert(rest == 2 * wt.len());
                assert(n2 == wt.len() as u64);
                assert(false);
            }
        }
        return Err(StateMachineError::CodecError);
    }
    let n2u = rest / 2;
    proof {
        if valid {
            assert(n2u == wt.len());
        }
    }
    let mut times: KvList<u64> = KvList::new();
    for j in 0..n2u
        invariant
            3 + n1u + 2 * n2u == atoms@.len(),
            times.wf(),
            times.inv(),
            times.kseq().len() == j,
            forall|i: int|
                0 <= i < j ==> views_of(atoms@)[3 + n1u + 2 * i] == SpecAtom::Text(
                    times.kseq()[i].0@,
                ) && views_of(atoms@)[3 + n1u + 2 * i + 1] == SpecAtom::Num(times.kseq()[i].1),
            valid ==> pairs_view(times.kseq()) == wt.take(j as int),
    {
        proof {
            if valid {
                assert(views_of(atoms@)[3 + n1u + 2 * j] == atoms_of_mapping(wc, wn, wt)[3
                    + wn.len() as int + 2 * j]);
                assert(views_of(atoms@)[3 + n1u + 2 * j + 1] == atoms_of_mapping(wc, wn, wt)[3
                    + wn.len() as int + 2 * j + 1]);
            }
        }
        let k = match &atoms[3 + n1u + 2 * j] {
            Atom::Text(x) => x.clone(),
            _ => {
                return Err(StateMachineError::CodecError);
            },
        };
        let val = match &atoms[3 + n1u + 2 * j + 1] {
            Atom::Num(x) => *x,
            _ => {
                return Err(StateMachineError::CodecError);
            },
        };
        if times.contains_key(&k) {
            proof {
                if valid {
                    times.lemma_view();
                    let i = choose|i: int|
                        0 <= i < times.kseq().len() && #[trigger] times.kseq()[i].0@ == k@;
                    assert(pairs_view(times.kseq())[i].0 == wt[i].0);
                    assert(wt[i].0 == wt[j as int].0);
                    assert(false);
                }
            }
            return Err(StateMachineError::CodecError);
        }
        let ghost before = times.kseq();
        times.put(k, val);
        proof {
            assert(pairs_view(times.kseq()) =~= pairs_view(before).push(
                (views_of(atoms@)[3 + n1u + 2 * j]->Text_0, val),
            ));
            if valid {
                assert(pairs_view(times.kseq()) =~= wt.take(j + 1));
            }
        }
    }
    let t = ContentExtractionPolicyMapping {
        content_id,
        extraction_policy_names: names,
        time_of_policy_completion: times,
    };
    proof {
        assert(views_of(atoms@) =~= atoms_of_mapping(
            t.content_id@,
            t.extraction_policy_names.seq_view(),
            pairs_view(t.time_of_policy_completion.kseq()),
        ));
        if valid {
            assert(pairs_view(t.time_of_policy_completion.kseq()) =~= wt);
            assert(t.content_id@ == wc);
        }
        assert forall|cid: Seq<char>, names2: Seq<Seq<char>>, times2: Seq<(Seq<char>, u64)>|
            mapping_lists_distinct(names2, times2) && buf@ == enc_record(
                atoms_of_mapping(cid, names2, times2),
            ) implies t.content_id@ == cid && t.extraction_policy_names.seq_view() == names2
            && pairs_view(t.time_of_policy_completion.kseq()) == times2 by {
            assert(valid);
            assert(views_of(atoms@) == atoms_of_mapping(cid, names2, times2));
            assert(atoms_of_mapping(
                t.content_id@,
                t.extraction_policy_names.seq_view(),
                pairs_view(t.time_of_policy_completion.kseq()),
            ) == atoms_of_mapping(cid, names2, times2));
            lemma_mapping_atom_indexes(
                t.content_id@,
                t.extraction_policy_names.seq_view(),
                pairs_view(t.time_of_policy_completion.kseq()),
            );
            lemma_mapping_flattening_injective(
                t.content_id@,
                t.extraction_policy_names.seq_view(),
                pairs_view(t.time_of_policy_completion.kseq()),
                cid,
                names2,
                times2,
            );
        }
    }
    Ok(t)
}

} // verus!
