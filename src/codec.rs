//! The on-disk record format of the command log.
//!
//! A record is self-delimiting: a tag byte, then each string field as its
//! UTF-8 byte length (eight bytes, little endian) followed by its bytes.
//! `Put` carries a key and a value, `Remove` a key alone.
use vstd::prelude::*;
use vstd::utf8::{encode_utf8, valid_utf8, encode_utf8_decode_utf8, encode_utf8_valid_utf8};

verus! {

/// Tag byte of a `Put` record.
pub const SET_TAG: u8 = 0;

/// Tag byte of a `Remove` record.
pub const REMOVE_TAG: u8 = 1;

/// A logged mutation.
#[derive(Debug, PartialEq, Eq)]
pub enum Command {
    Put { key: String, value: String },
    Remove { key: String },
}

/// The eight little-endian bytes of `n`.
pub open spec fn u64_le(n: u64) -> Seq<u8> {
    seq![
        n as u8,
        (n >> 8u64) as u8,
        (n >> 16u64) as u8,
        (n >> 24u64) as u8,
        (n >> 32u64) as u8,
        (n >> 40u64) as u8,
        (n >> 48u64) as u8,
        (n >> 56u64) as u8,
    ]
}

/// The number whose little-endian bytes are the first eight of `b`.
pub open spec fn le_u64(b: Seq<u8>) -> u64 {
    (b[0] as u64) | ((b[1] as u64) << 8u64) | ((b[2] as u64) << 16u64) | ((b[3] as u64) << 24u64)
        | ((b[4] as u64) << 32u64) | ((b[5] as u64) << 40u64) | ((b[6] as u64) << 48u64) | ((
    b[7] as u64) << 56u64)
}

/// A string field: its UTF-8 length, then its UTF-8 bytes.
pub open spec fn str_field(s: Seq<char>) -> Seq<u8> {
    u64_le(encode_utf8(s).len() as u64) + encode_utf8(s)
}

/// The bytes of `Put { key: k, value: v }`.
pub open spec fn set_record(k: Seq<char>, v: Seq<char>) -> Seq<u8> {
    seq![SET_TAG] + str_field(k) + str_field(v)
}

/// The bytes of `Remove { key: k }`.
pub open spec fn remove_record(k: Seq<char>) -> Seq<u8> {
    seq![REMOVE_TAG] + str_field(k)
}

/// `rec` stands in `b` from offset `at` on.
pub open spec fn has_at(b: Seq<u8>, at: int, rec: Seq<u8>) -> bool {
    0 <= at && at + rec.len() <= b.len() && b.subrange(at, at + rec.len()) == rec
}

impl Command {
    /// The encoded bytes of this command.
    pub open spec fn record(&self) -> Seq<u8> {
        match self {
            Command::Put { key, value } => set_record(key@, value@),
            Command::Remove { key } => remove_record(key@),
        }
    }

    /// Builds a `Put` command.
    pub fn set(key: String, value: String) -> (r: Command)
        ensures
            r == (Command::Put { key, value }),
    {
        Command::Put { key, value }
    }

    /// Builds a `Remove` command.
    pub fn remove(key: String) -> (r: Command)
        ensures
            r == (Command::Remove { key }),
    {
        Command::Remove { key }
    }

    /// Encodes this command as one record.
    pub fn encode(&self) -> (r: Vec<u8>)
        ensures
            r@ == self.record(),
    {
        let mut out: Vec<u8> = Vec::new();
        match self {
            Command::Put { key, value } => {
                out.push(SET_TAG);
                push_str(&mut out, key.as_str());
                push_str(&mut out, value.as_str());
                assert(out@ =~= set_record(key@, value@));
            },
            Command::Remove { key } => {
                out.push(REMOVE_TAG);
                push_str(&mut out, key.as_str());
                assert(out@ =~= remove_record(key@));
            },
        }
        out
    }
}

proof fn lemma_le_u64_of_bytes(n: u64)
    ensures
        le_u64(u64_le(n)) == n,
{
    assert(((n as u8) as u64) | ((((n >> 8u64) as u8) as u64) << 8u64) | ((((n >> 16u64) as u8)
        as u64) << 16u64) | ((((n >> 24u64) as u8) as u64) << 24u64) | ((((n >> 32u64) as u8)
        as u64) << 32u64) | ((((n >> 40u64) as u8) as u64) << 40u64) | ((((n >> 48u64) as u8)
        as u64) << 48u64) | ((((n >> 56u64) as u8) as u64) << 56u64) == n) by (bit_vector);
}

proof fn lemma_bytes_of_le_u64(b: Seq<u8>)
    requires
        b.len() == 8,
    ensures
        u64_le(le_u64(b)) == b,
{
    let b0 = b[0];
    let b1 = b[1];
    let b2 = b[2];
    let b3 = b[3];
    let b4 = b[4];
    let b5 = b[5];
    let b6 = b[6];
    let b7 = b[7];
    let x = le_u64(b);
    assert(x == (b0 as u64) | ((b1 as u64) << 8u64) | ((b2 as u64) << 16u64) | ((b3 as u64)
        << 24u64) | ((b4 as u64) << 32u64) | ((b5 as u64) << 40u64) | ((b6 as u64) << 48u64) | ((
    b7 as u64) << 56u64));
    assert(x as u8 == b0 && (x >> 8u64) as u8 == b1 && (x >> 16u64) as u8 == b2 && (x >> 24u64)
        as u8 == b3 && (x >> 32u64) as u8 == b4 && (x >> 40u64) as u8 == b5 && (x >> 48u64) as u8
        == b6 && (x >> 56u64) as u8 == b7) by (bit_vector)
        requires
            x == (b0 as u64) | ((b1 as u64) << 8u64) | ((b2 as u64) << 16u64) | ((b3 as u64)
                << 24u64) | ((b4 as u64) << 32u64) | ((b5 as u64) << 40u64) | ((b6 as u64)
                << 48u64) | ((b7 as u64) << 56u64),
    ;
    assert(u64_le(x) =~= b);
}

proof fn lemma_field_unique(b: Seq<u8>, at: int, s1: Seq<char>, s2: Seq<char>)
    requires
        b.len() <= u64::MAX,
        has_at(b, at, str_field(s1)),
        has_at(b, at, str_field(s2)),
    ensures
        s1 == s2,
        str_field(s1) == str_field(s2),
{
    let e1 = encode_utf8(s1);
    let e2 = encode_utf8(s2);
    let l1 = e1.len() as u64;
    let l2 = e2.len() as u64;
    assert(str_field(s1).subrange(0, 8) =~= u64_le(l1));
    assert(str_field(s2).subrange(0, 8) =~= u64_le(l2));
    assert(b.subrange(at, at + 8) =~= str_field(s1).subrange(0, 8));
    assert(b.subrange(at, at + 8) =~= str_field(s2).subrange(0, 8));
    lemma_le_u64_of_bytes(l1);
    lemma_le_u64_of_bytes(l2);
    assert(e1.len() == e2.len());
    assert(str_field(s1).subrange(8, str_field(s1).len() as int) =~= e1);
    assert(str_field(s2).subrange(8, str_field(s2).len() as int) =~= e2);
    assert(b.subrange(at + 8, at + str_field(s1).len()) =~= str_field(s1).subrange(8, str_field(s1).len() as int));
    assert(b.subrange(at + 8, at + str_field(s2).len()) =~= str_field(s2).subrange(8, str_field(s2).len() as int));
    assert(e1 =~= e2);
    encode_utf8_decode_utf8(s1);
    encode_utf8_decode_utf8(s2);
}

/// At most one record stands at any offset: a `Put` and a `Remove` never
/// share one, and each record's fields are fixed by its bytes.
pub proof fn lemma_record_unique(b: Seq<u8>, at: int)
    requires
        b.len() <= u64::MAX,
    ensures
        forall|k1: Seq<char>, v1: Seq<char>, k2: Seq<char>, v2: Seq<char>|
            #[trigger] has_at(b, at, set_record(k1, v1)) && #[trigger] has_at(
                b,
                at,
                set_record(k2, v2),
            ) ==> k1 == k2 && v1 == v2,
        forall|k1: Seq<char>, k2: Seq<char>|
            #[trigger] has_at(b, at, remove_record(k1)) && #[trigger] has_at(
                b,
                at,
                remove_record(k2),
            ) ==> k1 == k2,
        forall|k1: Seq<char>, v1: Seq<char>, k2: Seq<char>|
            #[trigger] has_at(b, at, set_record(k1, v1)) ==> !#[trigger] has_at(
                b,
                at,
                remove_record(k2),
            ),
{
    assert forall|k1: Seq<char>, v1: Seq<char>, k2: Seq<char>, v2: Seq<char>|
        #[trigger] has_at(b, at, set_record(k1, v1)) && #[trigger] has_at(
            b,
            at,
            set_record(k2, v2),
        ) implies k1 == k2 && v1 == v2 by {
        let r1 = set_record(k1, v1);
        let r2 = set_record(k2, v2);
        let f1 = str_field(k1);
        let f2 = str_field(k2);
        assert(b.subrange(at + 1, at + 1 + f1.len()) =~= r1.subrange(1, 1 + f1.len() as int));
        assert(r1.subrange(1, 1 + f1.len() as int) =~= f1);
        assert(b.subrange(at + 1, at + 1 + f2.len()) =~= r2.subrange(1, 1 + f2.len() as int));
        assert(r2.subrange(1, 1 + f2.len() as int) =~= f2);
        lemma_field_unique(b, at + 1, k1, k2);
        let n: int = 1 + f1.len() as int;
        assert(b.subrange(at + n, at + r1.len()) =~= r1.subrange(n, r1.len() as int));
        assert(r1.subrange(n, r1.len() as int) =~= str_field(v1));
        assert(b.subrange(at + n, at + r2.len()) =~= r2.subrange(n, r2.len() as int));
        assert(r2.subrange(n, r2.len() as int) =~= str_field(v2));
        lemma_field_unique(b, at + n, v1, v2);
    }
    assert forall|k1: Seq<char>, k2: Seq<char>|
        #[trigger] has_at(b, at, remove_record(k1)) && #[trigger] has_at(
            b,
            at,
            remove_record(k2),
        ) implies k1 == k2 by {
        let r1 = remove_record(k1);
        let r2 = remove_record(k2);
        assert(b.subrange(at + 1, at + r1.len()) =~= r1.subrange(1, r1.len() as int));
        assert(r1.subrange(1, r1.len() as int) =~= str_field(k1));
        assert(b.subrange(at + 1, at + r2.len()) =~= r2.subrange(1, r2.len() as int));
        assert(r2.subrange(1, r2.len() as int) =~= str_field(k2));
        lemma_field_unique(b, at + 1, k1, k2);
    }
    assert forall|k1: Seq<char>, v1: Seq<char>, k2: Seq<char>|
        #[trigger] has_at(b, at, set_record(k1, v1)) implies !#[trigger] has_at(
            b,
            at,
            remove_record(k2),
        ) by {
        if has_at(b, at, remove_record(k2)) {
            assert(b[at] == set_record(k1, v1)[0]);
            assert(b[at] == remove_record(k2)[0]);
        }
    }
}

fn push_u64(out: &mut Vec<u8>, n: u64)
    ensures
        final(out)@ == old(out)@ + u64_le(n),
{
    out.push(n as u8);
    out.push((n >> 8u64) as u8);
    out.push((n >> 16u64) as u8);
    out.push((n >> 24u64) as u8);
    out.push((n >> 32u64) as u8);
    out.push((n >> 40u64) as u8);
    out.push((n >> 48u64) as u8);
    out.push((n >> 56u64) as u8);
    assert(out@ =~= old(out)@ + u64_le(n));
}

fn push_str(out: &mut Vec<u8>, s: &str)
    ensures
        final(out)@ == old(out)@ + str_field(s@),
{
    let b = s.as_bytes();
    push_u64(out, b.len() as u64);
    let ghost start = out@;
    let mut i: usize = 0;
    while i < b.len()
        invariant
            0 <= i <= b@.len(),
            b@ == encode_utf8(s@),
            out@ == start + b@.subrange(0, i as int),
        decreases b@.len() - i,
    {
        out.push(b[i]);
        i = i + 1;
        assert(out@ =~= start + b@.subrange(0, i as int));
    }
    assert(b@.subrange(0, b@.len() as int) =~= b@);
}

/// Relies on `String::from_utf8`: it succeeds exactly on valid UTF-8, and
/// the string it returns holds those bytes.
#[verifier::external_body]
fn string_from_utf8(bytes: Vec<u8>) -> (r: Option<String>)
    ensures
        r.is_some() == valid_utf8(bytes@),
        r matches Some(s) ==> encode_utf8(s@) == bytes@,
{
    String::from_utf8(bytes).ok()
}

fn read_u64(b: &[u8], at: usize) -> (r: u64)
    requires
        at + 8 <= b@.len(),
    ensures
        r == le_u64(b@.subrange(at as int, at + 8)),
{
    let r = (b[at] as u64) | ((b[at + 1] as u64) << 8u64) | ((b[at + 2] as u64) << 16u64) | ((
    b[at + 3] as u64) << 24u64) | ((b[at + 4] as u64) << 32u64) | ((b[at + 5] as u64) << 40u64)
        | ((b[at + 6] as u64) << 48u64) | ((b[at + 7] as u64) << 56u64);
    r
}

/// Reads one string field at `at`, returning it and the offset just past it.
fn read_str(b: &[u8], at: usize) -> (r: Option<(String, usize)>)
    requires
        at <= b@.len(),
    ensures
        r matches Some((s, end)) ==> at <= end <= b@.len() && b@.subrange(at as int, end as int)
            == str_field(s@),
        forall|s: Seq<char>|
            #[trigger] has_at(b@, at as int, str_field(s)) ==> (r matches Some((t, end)) && t@ == s
                && end == at + str_field(s).len()),
{
    if b.len() - at < 8 {
        return None;
    }
    let n = read_u64(b, at);
    let start = at + 8;
    proof {
        lemma_bytes_of_le_u64(b@.subrange(at as int, at + 8));
    }
    if n > (b.len() - start) as u64 {
        assert forall|s: Seq<char>| !has_at(b@, at as int, #[trigger] str_field(s)) by {
            if has_at(b@, at as int, str_field(s)) {
                let len = encode_utf8(s).len() as u64;
                assert(b@.subrange(at as int, at + 8) =~= str_field(s).subrange(0, 8));
                assert(str_field(s).subrange(0, 8) =~= u64_le(len));
                lemma_le_u64_of_bytes(len);
            }
        }
        return None;
    }
    let end = start + n as usize;
    let mut bytes: Vec<u8> = Vec::new();
    let mut i: usize = start;
    while i < end
        invariant
            start <= i <= end <= b@.len(),
            bytes@ == b@.subrange(start as int, i as int),
        decreases end - i,
    {
        bytes.push(b[i]);
        i = i + 1;
        assert(bytes@ =~= b@.subrange(start as int, i as int));
    }
    let ghost field = b@.subrange(at as int, end as int);
    assert(field =~= u64_le(n) + bytes@);
    assert forall|s: Seq<char>| #[trigger] has_at(b@, at as int, str_field(s)) implies encode_utf8(s)
        == bytes@ && end == at + str_field(s).len() by {
        let len = encode_utf8(s).len() as u64;
        assert(b@.subrange(at as int, at + 8) =~= str_field(s).subrange(0, 8));
        assert(str_field(s).subrange(0, 8) =~= u64_le(len));
        lemma_le_u64_of_bytes(len);
        assert(n == len);
        assert(encode_utf8(s) =~= str_field(s).subrange(8, str_field(s).len() as int));
        assert(bytes@ =~= b@.subrange(at as int, at + str_field(s).len()).subrange(
            8,
            str_field(s).len() as int,
        ));
    }
    let ghost raw = bytes@;
    match string_from_utf8(bytes) {
        Some(t) => {
            assert forall|s: Seq<char>| #[trigger] has_at(b@, at as int, str_field(s)) implies t@
                == s by {
                encode_utf8_decode_utf8(s);
                encode_utf8_decode_utf8(t@);
            }
            Some((t, end))
        },
        None => {
            assert forall|s: Seq<char>| !#[trigger] has_at(b@, at as int, str_field(s)) by {
                if has_at(b@, at as int, str_field(s)) {
                    encode_utf8_valid_utf8(s);
                }
            }
            None
        },
    }
}

/// Decodes the record that starts at offset `at` of `b`, returning the
/// command and the offset just past it; `None` when no whole record stands
/// there.
pub fn decode(b: &[u8], at: usize) -> (r: Option<(Command, usize)>)
    requires
        at <= b@.len(),
    ensures
        r matches Some((c, end)) ==> at < end <= b@.len() && b@.subrange(at as int, end as int)
            == c.record(),
        forall|k: Seq<char>, v: Seq<char>|
            #[trigger] has_at(b@, at as int, set_record(k, v)) ==> (r matches Some((
                Command::Put { key, value },
                end,
            )) && key@ == k && value@ == v && end == at + set_record(k, v).len()),
        forall|k: Seq<char>|
            #[trigger] has_at(b@, at as int, remove_record(k)) ==> (r matches Some((
                Command::Remove { key },
                end,
            )) && key@ == k && end == at + remove_record(k).len()),
{
    if at >= b.len() {
        return None;
    }
    let tag = b[at];
    if tag == SET_TAG {
        assert forall|k: Seq<char>| !#[trigger] has_at(b@, at as int, remove_record(k)) by {
            if has_at(b@, at as int, remove_record(k)) {
                assert(b@[at as int] == remove_record(k)[0]);
            }
        }
        assert forall|k: Seq<char>, v: Seq<char>| #[trigger]
            has_at(b@, at as int, set_record(k, v)) implies has_at(
            b@,
            at + 1,
            str_field(k),
        ) && has_at(b@, at + 1 + str_field(k).len(), str_field(v)) by {
            let rec = set_record(k, v);
            let n1: int = str_field(k).len() as int;
            assert(b@.subrange(at + 1, at + 1 + n1) =~= rec.subrange(1, 1 + n1));
            assert(rec.subrange(1, 1 + n1) =~= str_field(k));
            assert(b@.subrange(at + 1 + n1, at + rec.len()) =~= rec.subrange(1 + n1, rec.len() as int));
            assert(rec.subrange(1 + n1, rec.len() as int) =~= str_field(v));
        }
        match read_str(b, at + 1) {
            Some((key, e1)) => match read_str(b, e1) {
                Some((value, e2)) => {
                    assert(b@.subrange(at as int, e2 as int) =~= seq![SET_TAG] + b@.subrange(
                        at + 1,
                        e1 as int,
                    ) + b@.subrange(e1 as int, e2 as int));
                    Some((Command::Put { key, value }, e2))
                },
                None => None,
            },
            None => None,
        }
    } else if tag == REMOVE_TAG {
        assert forall|k: Seq<char>, v: Seq<char>| !#[trigger] has_at(b@, at as int, set_record(k, v)) by {
            if has_at(b@, at as int, set_record(k, v)) {
                assert(b@[at as int] == set_record(k, v)[0]);
            }
        }
        assert forall|k: Seq<char>| #[trigger] has_at(b@, at as int, remove_record(k)) implies has_at(
            b@,
            at + 1,
            str_field(k),
        ) by {
            let rec = remove_record(k);
            assert(b@.subrange(at + 1, at + rec.len()) =~= rec.subrange(1, rec.len() as int));
            assert(rec.subrange(1, rec.len() as int) =~= str_field(k));
        }
        match read_str(b, at + 1) {
            Some((key, e1)) => {
                assert(b@.subrange(at as int, e1 as int) =~= seq![REMOVE_TAG] + b@.subrange(
                    at + 1,
                    e1 as int,
                ));
                Some((Command::Remove { key }, e1))
            },
            None => None,
        }
    } else {
        assert forall|k: Seq<char>, v: Seq<char>| !#[trigger] has_at(b@, at as int, set_record(k, v)) by {
            if has_at(b@, at as int, set_record(k, v)) {
                assert(b@[at as int] == set_record(k, v)[0]);
            }
        }
        assert forall|k: Seq<char>| !#[trigger] has_at(b@, at as int, remove_record(k)) by {
            if has_at(b@, at as int, remove_record(k)) {
                assert(b@[at as int] == remove_record(k)[0]);
            }
        }
        None
    }
}

} // verus!
