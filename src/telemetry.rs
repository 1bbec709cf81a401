//! Wire decoding of telemetry records: a MessagePack map of short string keys
//! to typed values, read in place without building a record.
use vstd::prelude::*;
use vstd::arithmetic::div_mod::{lemma_mod_breakdown, lemma_small_mod};
use vstd::string::StringSliceAdditionalSpecFns;

verus! {

/// Why a record, or one field of it, could not be decoded.
#[derive(Debug, Clone, Copy, PartialEq, Eq, Structural)]
pub enum DecodeError {
    /// The bytes end before a declared width.
    BufferUnderflow,
    /// A marker byte outside the supported set.
    UnknownMarker,
    /// A value of another type than the one asked for (or a record that is no map).
    TypeMismatch,
    /// The record holds no entry under the requested key.
    FieldNotFound,
}

/// Payload bytes and nested values that follow a marker byte, for every
/// marker whose shape does not depend on the bytes after it.
pub open spec fn marker_shape(m: u8) -> Option<(nat, nat)> {
    if m <= 0x7f {
        Some((0, 0))
    } else if m <= 0x8f {
        Some((0, 2 * (m - 0x80) as nat))
    } else if m <= 0x9f {
        Some((0, (m - 0x90) as nat))
    } else if m <= 0xbf {
        Some(((m - 0xa0) as nat, 0))
    } else if m == 0xc0 || m == 0xc2 || m == 0xc3 {
        Some((0, 0))
    } else if m == 0xcc || m == 0xd0 {
        Some((1, 0))
    } else if m == 0xcd || m == 0xd1 {
        Some((2, 0))
    } else if m == 0xca || m == 0xce || m == 0xd2 {
        Some((4, 0))
    } else if m == 0xcb || m == 0xcf || m == 0xd3 {
        Some((8, 0))
    } else if m >= 0xe0 {
        Some((0, 0))
    } else {
        None
    }
}

/// The marker of a string whose length is the next byte.
pub open spec fn is_str8(m: u8) -> bool {
    m == 0xd9
}

/// The marker of a map whose entry count is the next two bytes, big-endian.
pub open spec fn is_map16(m: u8) -> bool {
    m == 0xde
}

/// Skips `pending` consecutive encoded values that start at `pos`, and gives
/// the position just past them. Every value takes at least one byte, so more
/// pending values than bytes left is an underflow.
pub open spec fn skip_spec(data: Seq<u8>, pos: int, pending: nat) -> Result<int, DecodeError>
    decreases data.len() - pos,
{
    if pending == 0 {
        Ok(pos)
    } else if pos < 0 || pos >= data.len() || pending > data.len() - pos {
        Err(DecodeError::BufferUnderflow)
    } else {
        let m = data[pos];
        if is_str8(m) {
            if pos + 1 >= data.len() || pos + 2 + data[pos + 1] > data.len() {
                Err(DecodeError::BufferUnderflow)
            } else {
                skip_spec(data, pos + 2 + data[pos + 1], (pending - 1) as nat)
            }
        } else if is_map16(m) {
            if pos + 3 > data.len() {
                Err(DecodeError::BufferUnderflow)
            } else {
                skip_spec(
                    data,
                    pos + 3,
                    (pending - 1 + 2 * be_uint(data.subrange(pos + 1, pos + 3))) as nat,
                )
            }
        } else {
            match marker_shape(m) {
                None => Err(DecodeError::UnknownMarker),
                Some((width, children)) => {
                    if pos + 1 + width > data.len() {
                        Err(DecodeError::BufferUnderflow)
                    } else {
                        skip_spec(data, pos + 1 + width, (pending - 1 + children) as nat)
                    }
                },
            }
        }
    }
}

/// Powers of 256.
pub open spec fn pow256(n: nat) -> nat
    decreases n,
{
    if n == 0 {
        1
    } else {
        256 * pow256((n - 1) as nat)
    }
}

/// The unsigned integer that bytes encode, most significant first.
pub open spec fn be_uint(s: Seq<u8>) -> nat
    decreases s.len(),
{
    if s.len() == 0 {
        0
    } else {
        (be_uint(s.drop_last()) * 256 + s.last()) as nat
    }
}

/// Payload width of the unsigned integer markers.
pub open spec fn uint_width(m: u8) -> nat {
    if m == 0xcc {
        1
    } else if m == 0xcd {
        2
    } else if m == 0xce {
        4
    } else {
        8
    }
}

/// Reads an unsigned integer (positive fixint or uint 8/16/32/64) at `pos`:
/// its value and the position after it.
pub open spec fn read_uint_spec(data: Seq<u8>, pos: int) -> Result<(u64, int), DecodeError> {
    if pos < 0 || pos >= data.len() {
        Err(DecodeError::BufferUnderflow)
    } else {
        let m = data[pos];
        if m <= 0x7f {
            Ok((m as u64, pos + 1))
        } else if 0xcc <= m && m <= 0xcf {
            let end = pos + 1 + uint_width(m);
            if end > data.len() {
                Err(DecodeError::BufferUnderflow)
            } else {
                Ok((be_uint(data.subrange(pos + 1, end)) as u64, end))
            }
        } else {
            Err(DecodeError::TypeMismatch)
        }
    }
}

/// The number of entries of the map that starts the record, and where the
/// first entry begins.
pub open spec fn map_header_spec(data: Seq<u8>) -> Result<(nat, int), DecodeError> {
    if data.len() == 0 {
        Err(DecodeError::BufferUnderflow)
    } else if 0x80 <= data[0] && data[0] <= 0x8f {
        Ok(((data[0] - 0x80) as nat, 1))
    } else if data[0] == 0xde {
        if data.len() < 3 {
            Err(DecodeError::BufferUnderflow)
        } else {
            Ok((be_uint(data.subrange(1, 3)), 3))
        }
    } else {
        Err(DecodeError::TypeMismatch)
    }
}

/// The entry at `pos` has a short string key equal to `key`.
pub open spec fn key_matches(data: Seq<u8>, pos: int, key: Seq<u8>) -> bool {
    &&& 0 <= pos < data.len()
    &&& 0xa0 <= data[pos] <= 0xbf
    &&& data[pos] - 0xa0 == key.len()
    &&& pos + 1 + key.len() <= data.len()
    &&& data.subrange(pos + 1, pos + 1 + key.len()) == key
}

/// Scans `remaining` entries from `pos` for `key`; on a hit, the position of
/// its value.
pub open spec fn scan_spec(data: Seq<u8>, pos: int, remaining: nat, key: Seq<u8>) -> Result<
    Option<int>,
    DecodeError,
>
    decreases remaining,
{
    if remaining == 0 {
        Ok(None)
    } else if key_matches(data, pos, key) {
        Ok(Some(pos + 1 + key.len()))
    } else {
        match skip_spec(data, pos, 2) {
            Ok(next) => scan_spec(data, next, (remaining - 1) as nat, key),
            Err(e) => Err(e),
        }
    }
}

/// Where the value stored under `key` begins, if the record has that key.
pub open spec fn locate_spec(data: Seq<u8>, key: Seq<u8>) -> Result<Option<int>, DecodeError> {
    match map_header_spec(data) {
        Ok((n, first)) => scan_spec(data, first, n, key),
        Err(e) => Err(e),
    }
}

/// The unsigned integer at a located position, `None` when nothing was found.
pub open spec fn read_located(data: Seq<u8>, at: Result<Option<int>, DecodeError>) -> Result<
    Option<u64>,
    DecodeError,
> {
    match at {
        Ok(Some(p)) => match read_uint_spec(data, p) {
            Ok((v, _)) => Ok(Some(v)),
            Err(e) => Err(e),
        },
        Ok(None) => Ok(None),
        Err(e) => Err(e),
    }
}

/// The unsigned integer stored under `key`, `None` when the key is absent.
pub open spec fn field_uint(data: Seq<u8>, key: Seq<u8>) -> Result<Option<u64>, DecodeError> {
    read_located(data, locate_spec(data, key))
}

/// The `w` low bytes of `v`, most significant first.
pub open spec fn be_bytes(v: nat, w: nat) -> Seq<u8>
    decreases w,
{
    if w == 0 {
        Seq::empty()
    } else {
        be_bytes(v / 256, (w - 1) as nat).push((v % 256) as u8)
    }
}

/// The shortest encoding of an unsigned integer.
pub open spec fn encode_uint(v: u64) -> Seq<u8> {
    if v < 0x80 {
        seq![v as u8]
    } else if v < 0x100 {
        seq![0xccu8] + be_bytes(v as nat, 1)
    } else if v < 0x1_0000 {
        seq![0xcdu8] + be_bytes(v as nat, 2)
    } else if v < 0x1_0000_0000 {
        seq![0xceu8] + be_bytes(v as nat, 4)
    } else {
        seq![0xcfu8] + be_bytes(v as nat, 8)
    }
}

/// One map entry: a short string key and an unsigned integer value.
pub open spec fn encode_entry(key: Seq<u8>, v: u64) -> Seq<u8> {
    seq![(0xa0 + key.len()) as u8] + key + encode_uint(v)
}

pub open spec fn encode_entries(es: Seq<(Seq<u8>, u64)>) -> Seq<u8>
    decreases es.len(),
{
    if es.len() == 0 {
        Seq::empty()
    } else {
        encode_entry(es[0].0, es[0].1) + encode_entries(es.drop_first())
    }
}

/// The map header for `n` entries: a fixmap below 16, else a 16-bit length.
pub open spec fn encode_map_header(n: nat) -> Seq<u8> {
    if n < 16 {
        seq![(0x80 + n) as u8]
    } else {
        seq![0xdeu8] + be_bytes(n, 2)
    }
}

/// A record of integer fields, encoded as a map.
pub open spec fn encode_record(es: Seq<(Seq<u8>, u64)>) -> Seq<u8> {
    encode_map_header(es.len()) + encode_entries(es)
}

/// Entries that such a record can hold: fewer than 65536, keys shorter than 32 bytes.
pub open spec fn encodable(es: Seq<(Seq<u8>, u64)>) -> bool {
    es.len() < 0x1_0000 && forall|i: int| 0 <= i < es.len() ==> #[trigger] es[i].0.len() < 32
}

/// The value of the first entry under `key`.
pub open spec fn lookup_entry(es: Seq<(Seq<u8>, u64)>, key: Seq<u8>) -> Option<u64>
    decreases es.len(),
{
    if es.len() == 0 {
        None
    } else if es[0].0 == key {
        Some(es[0].1)
    } else {
        lookup_entry(es.drop_first(), key)
    }
}

proof fn lemma_pow256_pos(n: nat)
    ensures
        pow256(n) > 0,
    decreases n,
{
    if n > 0 {
        lemma_pow256_pos((n - 1) as nat);
    }
}

proof fn lemma_be_bytes(v: nat, w: nat)
    ensures
        be_bytes(v, w).len() == w,
        be_uint(be_bytes(v, w)) == v % pow256(w),
    decreases w,
{
    if w > 0 {
        let w1 = (w - 1) as nat;
        lemma_be_bytes(v / 256, w1);
        lemma_pow256_pos(w1);
        let s = be_bytes(v, w);
        assert(s.drop_last() =~= be_bytes(v / 256, w1));
        lemma_mod_breakdown(v as int, 256, pow256(w1) as int);
    } else {
        assert(v % 1 == 0);
    }
}

proof fn lemma_nested_subrange(data: Seq<u8>, p: int, outer: Seq<u8>, off: int, inner: Seq<u8>)
    requires
        0 <= p,
        p + outer.len() <= data.len(),
        data.subrange(p, p + outer.len()) == outer,
        0 <= off,
        off + inner.len() <= outer.len(),
        outer.subrange(off, off + inner.len()) == inner,
    ensures
        data.subrange(p + off, p + off + inner.len()) == inner,
{
    assert forall|i: int| 0 <= i < inner.len() implies data.subrange(
        p + off,
        p + off + inner.len(),
    )[i] == inner[i] by {
        assert(data.subrange(p, p + outer.len())[off + i] == data[p + off + i]);
        assert(outer.subrange(off, off + inner.len())[i] == outer[off + i]);
    }
    assert(data.subrange(p + off, p + off + inner.len()) =~= inner);
}

proof fn lemma_read_encoded_uint(data: Seq<u8>, p: int, v: u64)
    requires
        0 <= p,
        p + encode_uint(v).len() <= data.len(),
        data.subrange(p, p + encode_uint(v).len()) == encode_uint(v),
    ensures
        read_uint_spec(data, p) == Ok::<(u64, int), DecodeError>((v, p + encode_uint(v).len())),
        encode_uint(v).len() >= 1,
        marker_shape(data[p]) == Some((uint_width_or_zero(data[p]), 0nat)),
        encode_uint(v).len() == 1 + uint_width_or_zero(data[p]),
{
    let e = encode_uint(v);
    assert(data[p] == data.subrange(p, p + e.len())[0]);
    reveal_with_fuel(pow256, 9);
    if v < 0x80 {
    } else {
        let w: nat = if v < 0x100 {
            1
        } else if v < 0x1_0000 {
            2
        } else if v < 0x1_0000_0000 {
            4
        } else {
            8
        };
        lemma_be_bytes(v as nat, w);
        assert(e.subrange(1, 1 + w as int) =~= be_bytes(v as nat, w));
        lemma_nested_subrange(data, p, e, 1, be_bytes(v as nat, w));
        assert(uint_width(data[p]) == w);
        assert(v < pow256(w));
        lemma_small_mod(v as nat, pow256(w));
        assert(be_uint(data.subrange(p + 1, p + 1 + w as int)) == v);
    }
}

/// Payload width of a fixint or unsigned integer marker.
pub open spec fn uint_width_or_zero(m: u8) -> nat {
    if m <= 0x7f {
        0
    } else {
        uint_width(m)
    }
}

proof fn lemma_skip_entry(data: Seq<u8>, p: int, key: Seq<u8>, v: u64)
    requires
        0 <= p,
        key.len() < 32,
        p + encode_entry(key, v).len() <= data.len(),
        data.subrange(p, p + encode_entry(key, v).len()) == encode_entry(key, v),
    ensures
        skip_spec(data, p, 2) == Ok::<int, DecodeError>(p + encode_entry(key, v).len()),
        key_matches(data, p, key),
{
    let e = encode_entry(key, v);
    let q = p + 1 + key.len();
    let u = encode_uint(v);
    assert(data[p] == data.subrange(p, p + e.len())[0]);
    assert(e.subrange(1 + key.len() as int, (1 + key.len() + u.len()) as int) =~= u);
    lemma_nested_subrange(data, p, e, 1 + key.len() as int, u);
    lemma_read_encoded_uint(data, q, v);
    assert(e.subrange(1, 1 + key.len() as int) =~= key);
    lemma_nested_subrange(data, p, e, 1, key);
    reveal_with_fuel(skip_spec, 3);
}

proof fn lemma_key_mismatch(data: Seq<u8>, p: int, key: Seq<u8>, v: u64, k: Seq<u8>)
    requires
        0 <= p,
        key.len() < 32,
        p + encode_entry(key, v).len() <= data.len(),
        data.subrange(p, p + encode_entry(key, v).len()) == encode_entry(key, v),
        key != k,
    ensures
        !key_matches(data, p, k),
{
    lemma_skip_entry(data, p, key, v);
}

proof fn lemma_scan_entries(data: Seq<u8>, p: int, es: Seq<(Seq<u8>, u64)>, k: Seq<u8>)
    requires
        0 <= p,
        forall|i: int| 0 <= i < es.len() ==> #[trigger] es[i].0.len() < 32,
        p + encode_entries(es).len() <= data.len(),
        data.subrange(p, p + encode_entries(es).len()) == encode_entries(es),
    ensures
        read_located(data, scan_spec(data, p, es.len(), k)) == Ok::<Option<u64>, DecodeError>(
            lookup_entry(es, k),
        ),
    decreases es.len(),
{
    if es.len() > 0 {
        let (key, v) = es[0];
        let e = encode_entry(key, v);
        let rest = encode_entries(es.drop_first());
        assert(encode_entries(es) == e + rest);
        assert((e + rest).subrange(0, e.len() as int) =~= e);
        lemma_nested_subrange(data, p, e + rest, 0, e);
        assert((e + rest).subrange(e.len() as int, (e.len() + rest.len()) as int) =~= rest);
        lemma_nested_subrange(data, p, e + rest, e.len() as int, rest);
        assert(es[0].0.len() < 32);
        lemma_skip_entry(data, p, key, v);
        if key == k {
            let q = p + 1 + key.len();
            assert(e.subrange(1 + key.len() as int, (1 + key.len() + encode_uint(v).len()) as int) =~= encode_uint(
                v,
            ));
            lemma_nested_subrange(data, p, e, 1 + key.len() as int, encode_uint(v));
            lemma_read_encoded_uint(data, q, v);
        } else {
            lemma_key_mismatch(data, p, key, v, k);
            assert forall|i: int| 0 <= i < es.drop_first().len() implies #[trigger] es.drop_first()[i].0.len()
                < 32 by {
                assert(es.drop_first()[i] == es[i + 1]);
            }
            lemma_scan_entries(data, p + e.len(), es.drop_first(), k);
        }
    }
}

/// Selective lookup on an encoded record of integer fields gives, for every
/// key, the value stored under it, and nothing for a key that the record
/// lacks; the record id and the speed are then refused as not found.
pub proof fn lemma_selective_lookup(es: Seq<(Seq<u8>, u64)>, key: Seq<u8>)
    requires
        encodable(es),
    ensures
        field_uint(encode_record(es), key) == Ok::<Option<u64>, DecodeError>(lookup_entry(es, key)),
        lookup_entry(es, id_key()) is None ==> packet_id_of(encode_record(es)) == Err::<
            u32,
            DecodeError,
        >(DecodeError::FieldNotFound),
        lookup_entry(es, speed_key()) is None ==> speed_of(encode_record(es)) == Err::<
            u16,
            DecodeError,
        >(DecodeError::FieldNotFound),
{
    let data = encode_record(es);
    let head = encode_map_header(es.len());
    let body = encode_entries(es);
    let h = head.len() as int;
    if es.len() >= 16 {
        lemma_be_bytes(es.len(), 2);
        reveal_with_fuel(pow256, 3);
        lemma_small_mod(es.len(), pow256(2));
        assert(data.subrange(1, 3) =~= be_bytes(es.len(), 2));
    }
    assert(data.subrange(h, h + body.len()) =~= body);
    assert(map_header_spec(data) == Ok::<(nat, int), DecodeError>((es.len(), h)));
    lemma_scan_entries(data, h, es, key);
    lemma_scan_entries(data, h, es, id_key());
    lemma_scan_entries(data, h, es, speed_key());
}

/// Decoder that reads a record in place, moving a cursor over its bytes.
pub struct TelemetryDecoder<'a> {
    data: &'a [u8],
    cursor: usize,
}

/// Shape of a marker, as `marker_shape` gives it.
fn marker_shape_exec(m: u8) -> (r: Option<(usize, usize)>)
    ensures
        match marker_shape(m) {
            Some((w, c)) => r == Some((w as usize, c as usize)),
            None => r is None,
        },
{
    if m <= 0x7f {
        Some((0, 0))
    } else if m <= 0x8f {
        Some((0, 2 * (m - 0x80) as usize))
    } else if m <= 0x9f {
        Some((0, (m - 0x90) as usize))
    } else if m <= 0xbf {
        Some(((m - 0xa0) as usize, 0))
    } else if m == 0xc0 || m == 0xc2 || m == 0xc3 {
        Some((0, 0))
    } else if m == 0xcc || m == 0xd0 {
        Some((1, 0))
    } else if m == 0xcd || m == 0xd1 {
        Some((2, 0))
    } else if m == 0xca || m == 0xce || m == 0xd2 {
        Some((4, 0))
    } else if m == 0xcb || m == 0xcf || m == 0xd3 {
        Some((8, 0))
    } else if m >= 0xe0 {
        Some((0, 0))
    } else {
        None
    }
}

proof fn lemma_pow256_bound(n: nat)
    requires
        n <= 7,
    ensures
        pow256(n) <= pow256(7),
        pow256(7) == 0x100_0000_0000_0000,
    decreases 7 - n,
{
    reveal_with_fuel(pow256, 8);
    if n < 7 {
        lemma_pow256_bound(n + 1);
    }
}

proof fn lemma_be_uint_two(s: Seq<u8>)
    requires
        s.len() == 2,
    ensures
        be_uint(s) == s[0] * 256 + s[1],
        be_uint(s) < 0x1_0000,
{
    let t = s.drop_last();
    assert(t.drop_last() =~= Seq::<u8>::empty());
    assert(be_uint(t) == be_uint(t.drop_last()) * 256 + t.last());
    assert(be_uint(t) == s[0] as nat);
    assert(s[0] * 256 + s[1] <= 255 * 256 + 255) by (nonlinear_arith)
        requires
            s[0] <= 255,
            s[1] <= 255,
    ;
}

/// Compares `key` with the bytes of `data` from `start` on.
fn slice_matches(data: &[u8], start: usize, key: &[u8]) -> (r: bool)
    requires
        start + key@.len() <= data@.len(),
    ensures
        r == (data@.subrange(start as int, start + key@.len()) == key@),
{
    let n = data.len();
    let mut j: usize = 0;
    while j < key.len()
        invariant
            n == data@.len(),
            j <= key@.len(),
            start + key@.len() <= data@.len(),
            forall|k: int| 0 <= k < j ==> data@[start + k] == key@[k],
        decreases key@.len() - j,
    {
        if data[start + j] != key[j] {
            proof {
                assert(data@.subrange(start as int, start + key@.len())[j as int] != key@[j as int]);
            }
            return false;
        }
        j += 1;
    }
    proof {
        assert(data@.subrange(start as int, start + key@.len()) =~= key@);
    }
    true
}

impl<'a> TelemetryDecoder<'a> {
    /// The bytes of the record.
    pub closed spec fn bytes(&self) -> Seq<u8> {
        self.data@
    }

    /// The cursor's position.
    pub closed spec fn position(&self) -> int {
        self.cursor as int
    }

    /// The cursor stays within the record.
    pub closed spec fn wf(&self) -> bool {
        self.cursor <= self.data@.len()
    }

    /// The cursor of a well-formed decoder lies within its record.
    pub proof fn lemma_position_in_bounds(&self)
        requires
            self.wf(),
        ensures
            0 <= self.position() <= self.bytes().len(),
    {
    }

    pub fn new(data: &'a [u8]) -> (r: Self)
        ensures
            r.wf(),
            r.bytes() == data@,
            r.position() == 0,
            0 <= r.position() <= r.bytes().len(),
    {
        TelemetryDecoder { data, cursor: 0 }
    }

    /// Reads one marker byte.
    fn read_marker(&mut self) -> (r: Result<u8, DecodeError>)
        requires
            old(self).wf(),
        ensures
            final(self).wf(),
            final(self).data == old(self).data,
            old(self).cursor < old(self).data@.len() ==> r == Ok::<u8, DecodeError>(
                old(self).data@[old(self).cursor as int],
            ) && final(self).cursor == old(self).cursor + 1,
            old(self).cursor >= old(self).data@.len() ==> r == Err::<u8, DecodeError>(
                DecodeError::BufferUnderflow,
            ) && final(self).cursor == old(self).cursor,
    {
        if self.cursor >= self.data.len() {
            return Err(DecodeError::BufferUnderflow);
        }
        let marker = self.data[self.cursor];
        self.cursor += 1;
        Ok(marker)
    }

    /// Skips `count` consecutive encoded values without building them.
    fn skip_values(&mut self, count: usize) -> (r: Result<(), DecodeError>)
        requires
            old(self).wf(),
        ensures
            final(self).wf(),
            final(self).data == old(self).data,
            match skip_spec(old(self).data@, old(self).cursor as int, count as nat) {
                Ok(end) => r is Ok && final(self).cursor == end,
                Err(e) => r == Err::<(), DecodeError>(e),
            },
    {
        let ghost start = self.cursor as int;
        let len = self.data.len();
        let mut pending: usize = count;
        while pending > 0
            invariant
                start == old(self).cursor,
                self.cursor <= len,
                len == self.data@.len(),
                self.data == old(self).data,
                skip_spec(self.data@, self.cursor as int, pending as nat) == skip_spec(
                    self.data@,
                    start,
                    count as nat,
                ),
            decreases len - self.cursor,
        {
            if self.cursor >= len || pending > len - self.cursor {
                return Err(DecodeError::BufferUnderflow);
            }
            let m = self.data[self.cursor];
            if m == 0xd9 {
                if self.cursor + 1 >= len {
                    return Err(DecodeError::BufferUnderflow);
                }
                let n = self.data[self.cursor + 1] as usize;
                if n > len - self.cursor - 2 {
                    return Err(DecodeError::BufferUnderflow);
                }
                self.cursor = self.cursor + 2 + n;
                pending = pending - 1;
            } else {
                let shape = if m == 0xde {
                    if len - self.cursor < 3 {
                        return Err(DecodeError::BufferUnderflow);
                    }
                    let n = (self.data[self.cursor + 1] as usize) * 256 + self.data[self.cursor
                        + 2] as usize;
                    proof {
                        lemma_be_uint_two(self.data@.subrange(self.cursor + 1, self.cursor + 3));
                    }
                    Some((2usize, 2 * n))
                } else {
                    marker_shape_exec(m)
                };
                match shape {
                    None => {
                        return Err(DecodeError::UnknownMarker);
                    },
                    Some((width, children)) => {
                        if width > len - self.cursor - 1 {
                            return Err(DecodeError::BufferUnderflow);
                        }
                        let next = self.cursor + 1 + width;
                        let rest = pending - 1;
                        if rest > len - next || children > (len - next) - rest {
                            proof {
                                let next_pending = (rest + children) as nat;
                                assert(next_pending > 0);
                                assert(skip_spec(self.data@, next as int, next_pending) == Err::<
                                    int,
                                    DecodeError,
                                >(DecodeError::BufferUnderflow));
                            }
                            return Err(DecodeError::BufferUnderflow);
                        }
                        self.cursor = next;
                        pending = rest + children;
                    },
                }
            }
        }
        Ok(())
    }

    /// Skips one encoded value without building it.
    fn skip_field(&mut self) -> (r: Result<(), DecodeError>)
        requires
            old(self).wf(),
        ensures
            final(self).wf(),
            final(self).data == old(self).data,
            match skip_spec(old(self).data@, old(self).cursor as int, 1) {
                Ok(end) => r is Ok && final(self).cursor == end,
                Err(e) => r == Err::<(), DecodeError>(e),
            },
    {
        self.skip_values(1)
    }

    /// Reads `width` bytes at the cursor as a big-endian unsigned integer.
    fn read_be(&mut self, width: usize) -> (r: u64)
        requires
            old(self).wf(),
            1 <= width <= 8,
            old(self).cursor + width <= old(self).data@.len(),
        ensures
            final(self).wf(),
            final(self).data == old(self).data,
            final(self).cursor == old(self).cursor + width,
            r == be_uint(old(self).data@.subrange(old(self).cursor as int, old(self).cursor + width)),
    {
        let start = self.cursor;
        let mut val: u64 = 0;
        while self.cursor < start + width
            invariant
                start <= self.cursor <= start + width,
                start + width <= self.data@.len(),
                1 <= width <= 8,
                self.data == old(self).data,
                start == old(self).cursor,
                val == be_uint(self.data@.subrange(start as int, self.cursor as int)),
                val < pow256((self.cursor - start) as nat),
            decreases start + width - self.cursor,
        {
            let b = self.data[self.cursor];
            let ghost k = (self.cursor - start) as nat;
            let ghost p = pow256(k);
            proof {
                lemma_pow256_bound(k);
                assert(pow256(k + 1) == 256 * p);
                assert(val * 256 + b < 256 * p) by (nonlinear_arith)
                    requires
                        val < p,
                        b < 256,
                ;
                assert(256 * p <= 0x1_0000_0000_0000_0000) by (nonlinear_arith)
                    requires
                        p <= 0x100_0000_0000_0000,
                ;
                let s = self.data@.subrange(start as int, self.cursor + 1);
                assert(s.drop_last() =~= self.data@.subrange(start as int, self.cursor as int));
                assert(s.last() == b);
            }
            val = val * 256 + b as u64;
            self.cursor += 1;
        }
        val
    }

    /// Reads an unsigned integer value.
    pub fn read_u64(&mut self) -> (r: Result<u64, DecodeError>)
        requires
            old(self).wf(),
        ensures
            final(self).wf(),
            final(self).bytes() == old(self).bytes(),
            0 <= final(self).position() <= final(self).bytes().len(),
            match read_uint_spec(old(self).bytes(), old(self).position()) {
                Ok((v, end)) => r == Ok::<u64, DecodeError>(v) && final(self).position() == end,
                Err(e) => r == Err::<u64, DecodeError>(e),
            },
    {
        let marker = self.read_marker()?;
        if marker <= 0x7f {
            return Ok(marker as u64);
        }
        let width: usize = if marker == 0xcc {
            1
        } else if marker == 0xcd {
            2
        } else if marker == 0xce {
            4
        } else if marker == 0xcf {
            8
        } else {
            return Err(DecodeError::TypeMismatch);
        };
        if width > self.data.len() - self.cursor {
            return Err(DecodeError::BufferUnderflow);
        }
        Ok(self.read_be(width))
    }

    /// Reads an unsigned integer value, keeping its low 16 bits.
    pub fn read_u16(&mut self) -> (r: Result<u16, DecodeError>)
        requires
            old(self).wf(),
        ensures
            final(self).wf(),
            final(self).bytes() == old(self).bytes(),
            0 <= final(self).position() <= final(self).bytes().len(),
            match read_uint_spec(old(self).bytes(), old(self).position()) {
                Ok((v, end)) => r == Ok::<u16, DecodeError>((v % 0x1_0000) as u16)
                    && final(self).position() == end,
                Err(e) => r == Err::<u16, DecodeError>(e),
            },
    {
        let val = self.read_u64()?;
        Ok((val % 0x1_0000) as u16)
    }

    /// Reads the priority tier, keeping the low 8 bits of the stored integer.
    pub fn read_priority(&mut self) -> (r: Result<u8, DecodeError>)
        requires
            old(self).wf(),
        ensures
            final(self).wf(),
            final(self).bytes() == old(self).bytes(),
            0 <= final(self).position() <= final(self).bytes().len(),
            match read_uint_spec(old(self).bytes(), old(self).position()) {
                Ok((v, end)) => r == Ok::<u8, DecodeError>((v % 0x100) as u8) && final(self).position()
                    == end,
                Err(e) => r == Err::<u8, DecodeError>(e),
            },
    {
        let val = self.read_u64()?;
        Ok((val % 0x100) as u8)
    }

    /// Reads the map header at the start of the record.
    fn read_map_header(&mut self) -> (r: Result<usize, DecodeError>)
        requires
            old(self).wf(),
            old(self).cursor == 0,
        ensures
            final(self).wf(),
            final(self).data == old(self).data,
            match map_header_spec(old(self).data@) {
                Ok((n, first)) => n < 0x1_0000 && r == Ok::<usize, DecodeError>(n as usize)
                    && final(self).cursor == first,
                Err(e) => r == Err::<usize, DecodeError>(e),
            },
    {
        let marker = self.read_marker()?;
        if 0x80 <= marker && marker <= 0x8f {
            Ok((marker - 0x80) as usize)
        } else if marker == 0xde {
            if self.data.len() < 3 {
                return Err(DecodeError::BufferUnderflow);
            }
            let n = self.read_be(2);
            proof {
                lemma_be_uint_two(self.data@.subrange(1, 3));
            }
            Ok(n as usize)
        } else {
            Err(DecodeError::TypeMismatch)
        }
    }

    /// Positions the cursor at the value stored under `key`, scanning the
    /// record's entries from its start. Returns whether the key was found.
    fn locate(&mut self, key: &[u8]) -> (r: Result<bool, DecodeError>)
        requires
            old(self).wf(),
        ensures
            final(self).wf(),
            final(self).data == old(self).data,
            match locate_spec(old(self).data@, key@) {
                Ok(Some(p)) => r == Ok::<bool, DecodeError>(true) && final(self).cursor == p,
                Ok(None) => r == Ok::<bool, DecodeError>(false) && final(self).cursor == 0,
                Err(e) => r == Err::<bool, DecodeError>(e) && final(self).cursor == 0,
            },
    {
        let r = self.scan_for(key);
        match r {
            Ok(true) => {},
            _ => {
                self.cursor = 0;
            },
        }
        r
    }

    /// Scans the record's entries from its start for `key`.
    fn scan_for(&mut self, key: &[u8]) -> (r: Result<bool, DecodeError>)
        requires
            old(self).wf(),
        ensures
            final(self).wf(),
            final(self).data == old(self).data,
            match locate_spec(old(self).data@, key@) {
                Ok(Some(p)) => r == Ok::<bool, DecodeError>(true) && final(self).cursor == p,
                Ok(None) => r == Ok::<bool, DecodeError>(false),
                Err(e) => r == Err::<bool, DecodeError>(e),
            },
    {
        self.cursor = 0;
        let map_len = self.read_map_header()?;
        let ghost first = self.cursor as int;
        let len = self.data.len();
        let mut i: usize = 0;
        while i < map_len
            invariant
                self.wf(),
                len == self.data@.len(),
                self.data == old(self).data,
                i <= map_len,
                map_header_spec(self.data@) == Ok::<(nat, int), DecodeError>(
                    (map_len as nat, first),
                ),
                scan_spec(self.data@, self.cursor as int, (map_len - i) as nat, key@) == scan_spec(
                    self.data@,
                    first,
                    map_len as nat,
                    key@,
                ),
            decreases map_len - i,
        {
            let key_start = self.cursor;
            if key_start < len {
                let key_marker = self.data[key_start];
                if 0xa0 <= key_marker && key_marker <= 0xbf {
                    let key_len = (key_marker - 0xa0) as usize;
                    if key_len == key.len() && key_len <= len - key_start - 1 {
                        let same = slice_matches(self.data, key_start + 1, key);
                        if same {
                            self.cursor = key_start + 1 + key_len;
                            return Ok(true);
                        }
                    }
                }
            }
            self.skip_values(2)?;
            i += 1;
        }
        Ok(false)
    }

    /// Positions the cursor at the value stored under `target_key`, scanning
    /// the record's entries from its start. Returns whether the key was found;
    /// when it was not, or the record is malformed, the cursor goes back to
    /// the start. The outcome does not depend on where the cursor stood.
    pub fn find_field(&mut self, target_key: &str) -> (r: Result<bool, DecodeError>)
        requires
            old(self).wf(),
        ensures
            final(self).wf(),
            final(self).bytes() == old(self).bytes(),
            0 <= final(self).position() <= final(self).bytes().len(),
            match locate_spec(old(self).bytes(), target_key.spec_bytes()) {
                Ok(Some(p)) => r == Ok::<bool, DecodeError>(true) && final(self).position() == p,
                Ok(None) => r == Ok::<bool, DecodeError>(false) && final(self).position() == 0,
                Err(e) => r == Err::<bool, DecodeError>(e) && final(self).position() == 0,
            },
    {
        self.locate(target_key.as_bytes())
    }
}

/// Key of the record id: "id".
pub open spec fn id_key() -> Seq<u8> {
    seq![0x69u8, 0x64u8]
}

/// Key of the priority tier: "p".
pub open spec fn priority_key() -> Seq<u8> {
    seq![0x70u8]
}

/// Key of the speed: "spd".
pub open spec fn speed_key() -> Seq<u8> {
    seq![0x73u8, 0x70u8, 0x64u8]
}

/// Tier assumed for a record that carries none: high.
pub const DEFAULT_PRIORITY: u8 = 1;

/// The record id: the low 32 bits of the integer under "id", which is required.
pub open spec fn packet_id_of(data: Seq<u8>) -> Result<u32, DecodeError> {
    match field_uint(data, id_key()) {
        Ok(Some(v)) => Ok((v % 0x1_0000_0000) as u32),
        Ok(None) => Err(DecodeError::FieldNotFound),
        Err(e) => Err(e),
    }
}

/// The priority tier: the low 8 bits of the integer under "p", high when absent.
pub open spec fn priority_of(data: Seq<u8>) -> Result<u8, DecodeError> {
    match field_uint(data, priority_key()) {
        Ok(Some(v)) => Ok((v % 0x100) as u8),
        Ok(None) => Ok(DEFAULT_PRIORITY),
        Err(e) => Err(e),
    }
}

/// The speed: the low 16 bits of the integer under "spd", which is required.
pub open spec fn speed_of(data: Seq<u8>) -> Result<u16, DecodeError> {
    match field_uint(data, speed_key()) {
        Ok(Some(v)) => Ok((v % 0x1_0000) as u16),
        Ok(None) => Err(DecodeError::FieldNotFound),
        Err(e) => Err(e),
    }
}

/// The few fields that processing needs, each read on first request and kept.
pub struct FastTelemetry<'a> {
    decoder: TelemetryDecoder<'a>,
    packet_id: Option<u32>,
    priority: Option<u8>,
    speed: Option<u16>,
}

impl<'a> FastTelemetry<'a> {
    /// The bytes of the record.
    pub closed spec fn bytes(&self) -> Seq<u8> {
        self.decoder.bytes()
    }

    /// The record id, once read.
    pub closed spec fn cached_packet_id(&self) -> Option<u32> {
        self.packet_id
    }

    /// The priority tier, once read from the record.
    pub closed spec fn cached_priority(&self) -> Option<u8> {
        self.priority
    }

    /// The speed, once read.
    pub closed spec fn cached_speed(&self) -> Option<u16> {
        self.speed
    }

    /// Every kept value is the one that the record holds.
    pub closed spec fn wf(&self) -> bool {
        &&& self.decoder.wf()
        &&& (self.packet_id matches Some(v) ==> packet_id_of(self.bytes()) == Ok::<
            u32,
            DecodeError,
        >(v))
        &&& (self.priority matches Some(v) ==> priority_of(self.bytes()) == Ok::<u8, DecodeError>(
            v,
        ))
        &&& (self.speed matches Some(v) ==> speed_of(self.bytes()) == Ok::<u16, DecodeError>(v))
    }

    pub fn new(data: &'a [u8]) -> (r: Self)
        ensures
            r.wf(),
            r.bytes() == data@,
            r.cached_packet_id() is None,
            r.cached_priority() is None,
            r.cached_speed() is None,
    {
        FastTelemetry {
            decoder: TelemetryDecoder::new(data),
            packet_id: None,
            priority: None,
            speed: None,
        }
    }

    /// Looks up the unsigned integer under `key`.
    fn lookup(&mut self, key: &[u8]) -> (r: Result<Option<u64>, DecodeError>)
        requires
            old(self).wf(),
        ensures
            final(self).wf(),
            final(self).bytes() == old(self).bytes(),
            final(self).packet_id == old(self).packet_id,
            final(self).priority == old(self).priority,
            final(self).speed == old(self).speed,
            r == field_uint(old(self).bytes(), key@),
    {
        if self.decoder.locate(key)? {
            let v = self.decoder.read_u64()?;
            Ok(Some(v))
        } else {
            Ok(None)
        }
    }

    /// The record id; a record without one is refused with `FieldNotFound`.
    /// Once read, it is kept and the record is not scanned again.
    pub fn packet_id(&mut self) -> (r: Result<u32, DecodeError>)
        requires
            old(self).wf(),
        ensures
            final(self).wf(),
            final(self).bytes() == old(self).bytes(),
            r == packet_id_of(old(self).bytes()),
            old(self).cached_packet_id() is Some ==> *final(self) == *old(self),
            r is Ok ==> final(self).cached_packet_id() == Some(r->Ok_0),
            final(self).cached_priority() == old(self).cached_priority(),
            final(self).cached_speed() == old(self).cached_speed(),
    {
        if let Some(id) = self.packet_id {
            return Ok(id);
        }
        let key: [u8; 2] = [0x69, 0x64];
        proof {
            assert(key@ =~= id_key());
        }
        match self.lookup(key.as_slice())? {
            Some(v) => {
                let id = (v % 0x1_0000_0000) as u32;
                self.packet_id = Some(id);
                Ok(id)
            },
            None => Err(DecodeError::FieldNotFound),
        }
    }

    /// The priority tier; high when the record carries none.
    /// Once read, it is kept and the record is not scanned again.
    pub fn priority(&mut self) -> (r: Result<u8, DecodeError>)
        requires
            old(self).wf(),
        ensures
            final(self).wf(),
            final(self).bytes() == old(self).bytes(),
            r == priority_of(old(self).bytes()),
            old(self).cached_priority() is Some ==> *final(self) == *old(self),
            final(self).cached_packet_id() == old(self).cached_packet_id(),
            final(self).cached_speed() == old(self).cached_speed(),
    {
        if let Some(p) = self.priority {
            return Ok(p);
        }
        let key: [u8; 1] = [0x70];
        proof {
            assert(key@ =~= priority_key());
        }
        match self.lookup(key.as_slice())? {
            Some(v) => {
                let p = (v % 0x100) as u8;
                self.priority = Some(p);
                Ok(p)
            },
            None => Ok(DEFAULT_PRIORITY),
        }
    }

    /// The speed; a record without one is refused with `FieldNotFound`.
    /// Once read, it is kept and the record is not scanned again.
    pub fn speed(&mut self) -> (r: Result<u16, DecodeError>)
        requires
            old(self).wf(),
        ensures
            final(self).wf(),
            final(self).bytes() == old(self).bytes(),
            r == speed_of(old(self).bytes()),
            old(self).cached_speed() is Some ==> *final(self) == *old(self),
            r is Ok ==> final(self).cached_speed() == Some(r->Ok_0),
            final(self).cached_packet_id() == old(self).cached_packet_id(),
            final(self).cached_priority() == old(self).cached_priority(),
    {
        if let Some(spd) = self.speed {
            return Ok(spd);
        }
        let key: [u8; 3] = [0x73, 0x70, 0x64];
        proof {
            assert(key@ =~= speed_key());
        }
        match self.lookup(key.as_slice())? {
            Some(v) => {
                let spd = (v % 0x1_0000) as u16;
                self.speed = Some(spd);
                Ok(spd)
            },
            None => Err(DecodeError::FieldNotFound),
        }
    }
}

} // verus!
