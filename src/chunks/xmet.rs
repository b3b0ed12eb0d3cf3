use vstd::prelude::*;
use vstd::utf8::{
    decode_utf8, encode_scalar, encode_utf8, encode_utf8_decode_utf8, encode_utf8_valid_utf8,
    has_width_1_encoding, valid_utf8,
};

use crate::io::{push_all, slice_subrange};
use crate::error::{ReadError, ReadErrorKind};
use crate::find_byte;
use crate::find_byte_from;
use crate::text::utf8_to_string;

verus! {

/// A multimap from keys to the values given for them, in the order of
/// first appearance.
pub type XmetModel = Seq<(Seq<char>, Seq<Seq<char>>)>;

/// Index of the entry for key `k`, or `m.len()`.
pub open spec fn entry_index(m: XmetModel, k: Seq<char>) -> nat
    decreases m.len(),
{
    if m.len() == 0 {
        0
    } else if entry_index(m.drop_last(), k) < m.len() - 1 {
        entry_index(m.drop_last(), k)
    } else if m.last().0 == k {
        (m.len() - 1) as nat
    } else {
        m.len()
    }
}

/// Adds value `v` under key `k`: appended to the key's entry, or a new entry.
pub open spec fn xmet_insert(m: XmetModel, k: Seq<char>, v: Seq<char>) -> XmetModel {
    let i = entry_index(m, k);
    if i < m.len() {
        m.update(i as int, (k, m[i as int].1.push(v)))
    } else {
        m.push((k, seq![v]))
    }
}

/// End of a NUL-terminated field starting at `pos`, and where the next one starts.
pub open spec fn field_end(b: Seq<u8>, pos: nat) -> nat {
    find_byte(b, 0, pos)
}

pub open spec fn next_field(b: Seq<u8>, pos: nat) -> nat {
    if field_end(b, pos) < b.len() {
        field_end(b, pos) + 1
    } else {
        b.len()
    }
}

/// The multimap an XMET payload holds from `pos` on, added to `m`:
/// records `key NUL value NUL`, ended by an empty key or the end of the
/// payload. `None` when a key or value is not UTF-8.
pub open spec fn xmet_from(b: Seq<u8>, pos: nat, m: XmetModel) -> Option<XmetModel>
    decreases b.len() - pos,
{
    if pos >= b.len() {
        Some(m)
    } else {
        let kb = b.subrange(pos as int, field_end(b, pos) as int);
        let vpos = next_field(b, pos);
        let vb = b.subrange(vpos as int, field_end(b, vpos) as int);
        if !valid_utf8(kb) {
            None
        } else if kb.len() == 0 {
            Some(m)
        } else if !valid_utf8(vb) {
            None
        } else if next_field(b, vpos) <= pos {
            None
        } else {
            xmet_from(b, next_field(b, vpos), xmet_insert(m, decode_utf8(kb), decode_utf8(vb)))
        }
    }
}

/// The records of one entry: `key NUL value NUL` for each of its values.
pub open spec fn entry_bytes(k: Seq<char>, vs: Seq<Seq<char>>) -> Seq<u8>
    decreases vs.len(),
{
    if vs.len() == 0 {
        Seq::empty()
    } else {
        entry_bytes(k, vs.drop_last()) + encode_utf8(k) + seq![0u8] + encode_utf8(vs.last()) + seq![0u8]
    }
}

/// The XMET payload of a multimap: the records of each entry in order.
pub open spec fn xmet_bytes(m: XmetModel) -> Seq<u8>
    decreases m.len(),
{
    if m.len() == 0 {
        Seq::empty()
    } else {
        xmet_bytes(m.drop_last()) + entry_bytes(m.last().0, m.last().1)
    }
}

/// The XMET chunk: an extensible string multimap.
#[derive(Debug)]
pub struct Xmet {
    data: Vec<(String, Vec<String>)>,
}

/// The multimap a list of entries holds.
pub open spec fn entries_view(d: Seq<(String, Vec<String>)>) -> XmetModel {
    d.map_values(|e: (String, Vec<String>)| (e.0@, values_view(e.1@)))
}

/// No key appears in two entries.
pub open spec fn keys_distinct(m: XmetModel) -> bool {
    forall|i: int, j: int| 0 <= i < j < m.len() ==> (#[trigger] m[i]).0 != (#[trigger] m[j]).0
}

pub open spec fn values_view(v: Seq<String>) -> Seq<Seq<char>> {
    v.map_values(|s: String| s@)
}

impl Xmet {
    pub const FOURCC: [u8; 4] = [0x58, 0x4D, 0x45, 0x54];

    pub closed spec fn view(&self) -> XmetModel {
        entries_view(self.data@)
    }

    pub fn new() -> (r: Self)
        ensures
            r.view() == Seq::<(Seq<char>, Seq<Seq<char>>)>::empty(),
            keys_distinct(r.view()),
    {
        let r = Xmet { data: Vec::new() };
        assert(r.view() =~= Seq::<(Seq<char>, Seq<Seq<char>>)>::empty());
        r
    }

    pub fn data(&self) -> (r: &Vec<(String, Vec<String>)>)
        ensures
            entries_view(r@) == self.view(),
    {
        &self.data
    }

    pub fn data_mut(&mut self) -> (r: &mut Vec<(String, Vec<String>)>)
        ensures
            entries_view(r@) == old(self).view(),
            final(self).view() == entries_view(final(r)@),
    {
        &mut self.data
    }

    /// Parses an XMET payload.
    pub fn read(bytes: &[u8]) -> (r: Result<Self, ReadError>)
        ensures
            match xmet_from(bytes@, 0, Seq::empty()) {
                Some(m) => r is Ok && r->Ok_0.view() == m,
                None => r is Err && r->Err_0.kind == ReadErrorKind::BrokenFile,
            },
            r is Ok ==> keys_distinct(r->Ok_0.view()),
    {
        let len = bytes.len();
        let mut x = Xmet::new();
        let mut pos: usize = 0;
        while pos < len
            invariant
                len == bytes@.len(),
                pos <= len,
                xmet_from(bytes@, 0, Seq::empty()) == xmet_from(bytes@, pos as nat, x.view()),
                keys_distinct(x.view()),
            decreases len - pos,
        {
            let e1 = find_byte_from(bytes, 0, pos);
            let key = match utf8_to_string(slice_subrange(bytes, pos, e1)) {
                Some(s) => s,
                None => {
                    return Err(ReadError::with_message(ReadErrorKind::BrokenFile, "illegal UTF-8 bytes in XMET key"));
                },
            };
            if e1 == pos {
                return Ok(x);
            }
            let vpos = if e1 < len {
                e1 + 1
            } else {
                len
            };
            let e2 = find_byte_from(bytes, 0, vpos);
            let value = match utf8_to_string(slice_subrange(bytes, vpos, e2)) {
                Some(s) => s,
                None => {
                    return Err(ReadError::with_message(ReadErrorKind::BrokenFile, "illegal UTF-8 bytes in XMET value"));
                },
            };
            let next = if e2 < len {
                e2 + 1
            } else {
                len
            };
            x.insert(key, value);
            pos = next;
        }
        Ok(x)
    }

    /// Appends the XMET payload: `key NUL value NUL` for every value of
    /// every entry, entry after entry.
    pub fn write(&self, writer: &mut Vec<u8>)
        ensures
            final(writer)@ == old(writer)@ + xmet_bytes(self.view()),
    {
        let ghost m = self.view();
        let mut i: usize = 0;
        while i < self.data.len()
            invariant
                i <= self.data@.len(),
                m == self.view(),
                writer@ == old(writer)@ + xmet_bytes(m.take(i as int)),
            decreases self.data@.len() - i,
        {
            let key = &self.data[i].0;
            let values = &self.data[i].1;
            let ghost before = writer@;
            let mut j: usize = 0;
            assert(entry_bytes(m[i as int].0, m[i as int].1.take(0)) =~= Seq::<u8>::empty());
            assert(before =~= before + Seq::<u8>::empty());
            while j < values.len()
                invariant
                    j <= values@.len(),
                    values@ == self.data@[i as int].1@,
                    m == self.view(),
                    i < m.len(),
                    key@ == m[i as int].0,
                    values_view(values@) == m[i as int].1,
                    writer@ == before + entry_bytes(m[i as int].0, m[i as int].1.take(j as int)),
                decreases values@.len() - j,
            {
                let ghost w0 = writer@;
                push_all(writer, key.as_str().as_bytes());
                writer.push(0);
                push_all(writer, values[j].as_str().as_bytes());
                writer.push(0);
                proof {
                    let vs = m[i as int].1.take(j + 1);
                    assert(vs.drop_last() =~= m[i as int].1.take(j as int));
                    assert(vs.last() == values@[j as int]@);
                    assert(writer@ =~= before + entry_bytes(m[i as int].0, vs));
                }
                j = j + 1;
            }
            proof {
                assert(m[i as int].1.take(j as int) =~= m[i as int].1);
                let t = m.take(i + 1);
                assert(t.drop_last() =~= m.take(i as int));
                assert(writer@ =~= old(writer)@ + xmet_bytes(t));
            }
            i = i + 1;
        }
        assert(m.take(i as int) =~= m);
    }

    /// Adds `value` under `key`; the entries keep distinct keys.
    pub fn insert(&mut self, key: String, value: String)
        ensures
            final(self).view() == xmet_insert(old(self).view(), key@, value@),
            keys_distinct(old(self).view()) ==> keys_distinct(final(self).view()),
    {
        let ghost m = self.view();
        proof {
            if keys_distinct(m) {
                lemma_insert_keeps_keys_distinct(m, key@, value@);
            }
        }
        let mut i: usize = 0;
        while i < self.data.len()
            invariant
                i <= self.data@.len(),
                m == self.view(),
                m == old(self).view(),
                m.len() == self.data@.len(),
                forall|j: int| 0 <= j < i ==> #[trigger] m[j].0 != key@,
            decreases self.data@.len() - i,
        {
            if self.data[i].0 == key {
                proof {
                    lemma_entry_index_first(m, key@, i as int);
                }
                let mut values = copy_strings(&self.data[i].1);
                let ghost old_values = values@;
                values.push(value);
                assert(values_view(values@) =~= m[i as int].1.push(value@)) by {
                    assert(values_view(old_values) == m[i as int].1);
                }
                let k = self.data[i].0.clone();
                self.data.set(i, (k, values));
                assert(self.view() =~= xmet_insert(m, key@, value@));
                return;
            }
            i = i + 1;
        }
        proof {
            lemma_entry_index_absent(m, key@);
        }
        let ghost kv = key@;
        let ghost vv = value@;
        let values = vec![value];
        assert(values_view(values@) =~= seq![vv]);
        self.data.push((key, values));
        assert(self.view() =~= xmet_insert(m, kv, vv));
    }
}

/// A copy of a list of strings.
pub fn copy_strings(v: &Vec<String>) -> (r: Vec<String>)
    ensures
        r@ == v@,
{
    let mut out: Vec<String> = Vec::new();
    let mut i: usize = 0;
    while i < v.len()
        invariant
            i <= v@.len(),
            out@ == v@.take(i as int),
        decreases v@.len() - i,
    {
        out.push(v[i].clone());
        i = i + 1;
        assert(out@ =~= v@.take(i as int));
    }
    assert(v@.take(i as int) =~= v@);
    out
}

/// No character of `s` is NUL.
pub open spec fn no_nul(s: Seq<char>) -> bool {
    forall|i: int| 0 <= i < s.len() ==> (#[trigger] s[i] as u32) != 0
}

/// A multimap that XMET can store: distinct non-empty keys, each with at
/// least one value, and no NUL character in any key or value.
pub open spec fn xmet_storable(m: XmetModel) -> bool {
    &&& forall|i: int| 0 <= i < m.len() ==> (#[trigger] m[i]).0.len() > 0 && no_nul(m[i].0) && m[i].1.len() > 0
    &&& forall|i: int, j: int| 0 <= i < m.len() && 0 <= j < m[i].1.len() ==> no_nul(#[trigger] m[i].1[j])
    &&& forall|i: int, j: int| 0 <= i < j < m.len() ==> (#[trigger] m[i]).0 != (#[trigger] m[j]).0
}

/// Adds every value of `vs` under `k`, in order.
pub open spec fn insert_all(m: XmetModel, k: Seq<char>, vs: Seq<Seq<char>>) -> XmetModel
    decreases vs.len(),
{
    if vs.len() == 0 {
        m
    } else {
        xmet_insert(insert_all(m, k, vs.drop_last()), k, vs.last())
    }
}

proof fn lemma_scalar_no_zero(c: char)
    requires
        (c as u32) != 0,
    ensures
        forall|i: int| 0 <= i < encode_scalar(c as u32).len() ==> #[trigger] encode_scalar(c as u32)[i] != 0,
{
    let v = c as u32;
    assert(has_width_1_encoding(v) ==> (v & 0x7F) as u8 != 0) by (bit_vector)
        requires
            v != 0,
    ;
    assert(((0xC0u8 | ((v >> 6u32) & 0x1F) as u8) != 0) && ((0xE0u8 | ((v >> 12u32) & 0x0F) as u8) != 0)
        && ((0xF0u8 | ((v >> 18u32) & 0x7) as u8) != 0) && ((0x80u8 | (v & 0x3F) as u8) != 0) && ((0x80u8
        | ((v >> 6u32) & 0x3F) as u8) != 0) && ((0x80u8 | ((v >> 12u32) & 0x3F) as u8) != 0)) by (bit_vector);
}

proof fn lemma_encode_no_zero(s: Seq<char>)
    requires
        no_nul(s),
    ensures
        forall|i: int| 0 <= i < encode_utf8(s).len() ==> #[trigger] encode_utf8(s)[i] != 0,
    decreases s.len(),
{
    if s.len() > 0 {
        lemma_scalar_no_zero(s[0]);
        assert(no_nul(s.drop_first())) by {
            assert forall|i: int| 0 <= i < s.drop_first().len() implies (#[trigger] s.drop_first()[i] as u32) != 0 by {
                assert(s.drop_first()[i] == s[i + 1]);
            }
        }
        lemma_encode_no_zero(s.drop_first());
        let a = encode_scalar(s[0] as u32);
        let e = encode_utf8(s);
        assert(e == a + encode_utf8(s.drop_first()));
        assert forall|i: int| 0 <= i < e.len() implies #[trigger] e[i] != 0 by {
            if i < a.len() {
                assert(e[i] == a[i]);
            } else {
                assert(e[i] == encode_utf8(s.drop_first())[i - a.len()]);
            }
        }
    }
}

proof fn lemma_encode_nonempty(s: Seq<char>)
    requires
        s.len() > 0,
    ensures
        encode_utf8(s).len() > 0,
{
    encode_utf8_decode_utf8(s);
    if encode_utf8(s).len() == 0 {
        assert(encode_utf8(s) =~= Seq::<u8>::empty());
        assert(decode_utf8(Seq::<u8>::empty()) == Seq::<char>::empty());
    }
}

proof fn lemma_find_zero(b: Seq<u8>, pos: nat, len: nat)
    requires
        pos + len < b.len(),
        b[(pos + len) as int] == 0,
        forall|j: int| pos <= j < pos + len ==> #[trigger] b[j] != 0,
    ensures
        find_byte(b, 0, pos) == pos + len,
    decreases len,
{
    if len > 0 {
        lemma_find_zero(b, pos + 1, (len - 1) as nat);
    }
}

/// One record read back: `key NUL value NUL` adds the value under the key.
proof fn lemma_record_step(pre: Seq<u8>, k: Seq<char>, v: Seq<char>, rest: Seq<u8>, m: XmetModel)
    requires
        k.len() > 0,
        no_nul(k),
        no_nul(v),
    ensures
        ({
            let r = encode_utf8(k) + seq![0u8] + encode_utf8(v) + seq![0u8];
            let b = pre + r + rest;
            xmet_from(b, pre.len(), m) == xmet_from(b, pre.len() + r.len(), xmet_insert(m, k, v))
        }),
{
    let ek = encode_utf8(k);
    let ev = encode_utf8(v);
    let r = ek + seq![0u8] + ev + seq![0u8];
    let b = pre + r + rest;
    let pos = pre.len();
    lemma_encode_no_zero(k);
    lemma_encode_no_zero(v);
    lemma_encode_nonempty(k);
    encode_utf8_valid_utf8(k);
    encode_utf8_valid_utf8(v);
    encode_utf8_decode_utf8(k);
    encode_utf8_decode_utf8(v);
    assert forall|j: int| pos <= j < pos + ek.len() implies #[trigger] b[j] != 0 by {
        assert(b[j] == ek[j - pos]);
    }
    assert(b[(pos + ek.len()) as int] == 0);
    lemma_find_zero(b, pos, ek.len());
    let vpos = pos + ek.len() + 1;
    assert forall|j: int| vpos <= j < vpos + ev.len() implies #[trigger] b[j] != 0 by {
        assert(b[j] == ev[j - vpos]);
    }
    assert(b[(vpos + ev.len()) as int] == 0);
    lemma_find_zero(b, vpos, ev.len());
    assert(b.subrange(pos as int, (pos + ek.len()) as int) =~= ek);
    assert(b.subrange(vpos as int, (vpos + ev.len()) as int) =~= ev);
    assert(next_field(b, pos) == vpos);
    assert(next_field(b, vpos) == pos + r.len());
}

proof fn lemma_entry_step(pre: Seq<u8>, k: Seq<char>, vs: Seq<Seq<char>>, rest: Seq<u8>, m: XmetModel)
    requires
        k.len() > 0,
        no_nul(k),
        forall|j: int| 0 <= j < vs.len() ==> no_nul(#[trigger] vs[j]),
    ensures
        ({
            let b = pre + entry_bytes(k, vs) + rest;
            xmet_from(b, pre.len(), m) == xmet_from(b, pre.len() + entry_bytes(k, vs).len(), insert_all(m, k, vs))
        }),
    decreases vs.len(),
{
    if vs.len() > 0 {
        let front = entry_bytes(k, vs.drop_last());
        let last = encode_utf8(k) + seq![0u8] + encode_utf8(vs.last()) + seq![0u8];
        assert(entry_bytes(k, vs) == front + last);
        let b = pre + entry_bytes(k, vs) + rest;
        assert forall|j: int| 0 <= j < vs.drop_last().len() implies no_nul(#[trigger] vs.drop_last()[j]) by {
            assert(vs.drop_last()[j] == vs[j]);
        }
        lemma_entry_step(pre, k, vs.drop_last(), last + rest, m);
        assert(pre + front + (last + rest) =~= b);
        assert(no_nul(vs[vs.len() - 1]));
        lemma_record_step(pre + front, k, vs.last(), rest, insert_all(m, k, vs.drop_last()));
        assert(pre + front + last + rest =~= b);
    } else {
        assert(entry_bytes(k, vs) =~= Seq::<u8>::empty());
    }
}

proof fn lemma_insert_all_new(m: XmetModel, k: Seq<char>, vs: Seq<Seq<char>>)
    requires
        vs.len() > 0,
        forall|j: int| 0 <= j < m.len() ==> #[trigger] m[j].0 != k,
    ensures
        insert_all(m, k, vs) == m.push((k, vs)),
    decreases vs.len(),
{
    if vs.len() == 1 {
        assert(vs.drop_last() =~= Seq::<Seq<char>>::empty());
        assert(insert_all(m, k, vs.drop_last()) == m);
        lemma_entry_index_absent(m, k);
        assert(seq![vs.last()] =~= vs);
        assert(insert_all(m, k, vs) == xmet_insert(m, k, vs.last()));
        assert(xmet_insert(m, k, vs.last()) == m.push((k, seq![vs.last()])));
    } else {
        lemma_insert_all_new(m, k, vs.drop_last());
        let m2 = m.push((k, vs.drop_last()));
        assert forall|j: int| 0 <= j < m.len() implies #[trigger] m2[j].0 != k by {
            assert(m2[j] == m[j]);
        }
        lemma_entry_index_first(m2, k, m.len() as int);
        assert(vs.drop_last().push(vs.last()) =~= vs);
        assert(insert_all(m, k, vs) == xmet_insert(m2, k, vs.last()));
        assert(m2[m.len() as int].1 == vs.drop_last());
        assert(xmet_insert(m2, k, vs.last()) == m2.update(m.len() as int, (k, vs.drop_last().push(vs.last()))));
        assert(m2.update(m.len() as int, (k, vs)) =~= m.push((k, vs)));
    }
}

proof fn lemma_xmet_bytes_read(m: XmetModel, n: int)
    requires
        xmet_storable(m),
        0 <= n <= m.len(),
    ensures
        xmet_from(xmet_bytes(m), 0, Seq::empty()) == xmet_from(
            xmet_bytes(m),
            xmet_bytes(m.take(n)).len(),
            m.take(n),
        ),
    decreases n,
{
    if n == 0 {
        assert(m.take(0) =~= Seq::<(Seq<char>, Seq<Seq<char>>)>::empty());
    } else {
        lemma_xmet_bytes_read(m, n - 1);
        let pre = xmet_bytes(m.take(n - 1));
        let e = m[n - 1];
        assert(m.take(n).drop_last() =~= m.take(n - 1));
        assert(xmet_bytes(m.take(n)) == pre + entry_bytes(e.0, e.1));
        lemma_xmet_bytes_prefix(m, n);
        let rest = xmet_bytes(m).subrange(xmet_bytes(m.take(n)).len() as int, xmet_bytes(m).len() as int);
        assert(xmet_bytes(m) =~= pre + entry_bytes(e.0, e.1) + rest);
        assert forall|j: int| 0 <= j < e.1.len() implies no_nul(#[trigger] e.1[j]) by {}
        lemma_entry_step(pre, e.0, e.1, rest, m.take(n - 1));
        assert forall|j: int| 0 <= j < m.take(n - 1).len() implies #[trigger] m.take(n - 1)[j].0 != e.0 by {
            assert(m.take(n - 1)[j] == m[j]);
        }
        lemma_insert_all_new(m.take(n - 1), e.0, e.1);
        assert(m.take(n - 1).push(e) =~= m.take(n));
    }
}

proof fn lemma_xmet_bytes_prefix(m: XmetModel, n: int)
    requires
        0 <= n <= m.len(),
    ensures
        xmet_bytes(m.take(n)).len() <= xmet_bytes(m).len(),
        xmet_bytes(m).subrange(0, xmet_bytes(m.take(n)).len() as int) == xmet_bytes(m.take(n)),
    decreases m.len(),
{
    if n == m.len() {
        assert(m.take(n) =~= m);
        assert(xmet_bytes(m).subrange(0, xmet_bytes(m).len() as int) =~= xmet_bytes(m));
    } else {
        lemma_xmet_bytes_prefix(m.drop_last(), n);
        assert(m.drop_last().take(n) =~= m.take(n));
        let a = xmet_bytes(m.drop_last());
        assert(xmet_bytes(m) == a + entry_bytes(m.last().0, m.last().1));
        assert(xmet_bytes(m).subrange(0, xmet_bytes(m.take(n)).len() as int) =~= a.subrange(
            0,
            xmet_bytes(m.take(n)).len() as int,
        ));
    }
}

/// XMET keeps every value: a storable multimap written and read back is
/// the same multimap, so a key written `n` times comes back with its `n`
/// values, in order.
pub proof fn lemma_xmet_round_trip(m: XmetModel)
    requires
        xmet_storable(m),
    ensures
        xmet_from(xmet_bytes(m), 0, Seq::empty()) == Some(m),
{
    lemma_xmet_bytes_read(m, m.len() as int);
    assert(m.take(m.len() as int) =~= m);
}

proof fn lemma_entry_index_found(m: XmetModel, k: Seq<char>)
    ensures
        entry_index(m, k) <= m.len(),
        entry_index(m, k) < m.len() ==> m[entry_index(m, k) as int].0 == k,
        entry_index(m, k) == m.len() ==> forall|j: int| 0 <= j < m.len() ==> #[trigger] m[j].0 != k,
    decreases m.len(),
{
    if m.len() > 0 {
        lemma_entry_index_found(m.drop_last(), k);
        assert forall|j: int| 0 <= j < m.len() - 1 implies #[trigger] m[j] == m.drop_last()[j] by {}
    }
}

/// Adding a value keeps keys distinct.
proof fn lemma_insert_keeps_keys_distinct(m: XmetModel, k: Seq<char>, v: Seq<char>)
    requires
        keys_distinct(m),
    ensures
        keys_distinct(xmet_insert(m, k, v)),
{
    lemma_entry_index_found(m, k);
    let r = xmet_insert(m, k, v);
    assert forall|i: int, j: int| 0 <= i < j < r.len() implies (#[trigger] r[i]).0 != (#[trigger] r[j]).0 by {
        if entry_index(m, k) == m.len() {
            if j == m.len() {
                assert(r[i] == m[i]);
            }
        }
    }
}

proof fn lemma_entry_index_first(m: XmetModel, k: Seq<char>, i: int)
    requires
        0 <= i < m.len(),
        m[i].0 == k,
        forall|j: int| 0 <= j < i ==> #[trigger] m[j].0 != k,
    ensures
        entry_index(m, k) == i,
    decreases m.len(),
{
    if i < m.len() - 1 {
        lemma_entry_index_first(m.drop_last(), k, i);
    } else {
        lemma_entry_index_absent(m.drop_last(), k);
    }
}

proof fn lemma_entry_index_absent(m: XmetModel, k: Seq<char>)
    requires
        forall|j: int| 0 <= j < m.len() ==> #[trigger] m[j].0 != k,
    ensures
        entry_index(m, k) == m.len(),
    decreases m.len(),
{
    if m.len() > 0 {
        lemma_entry_index_absent(m.drop_last(), k);
    }
}

} // verus!
