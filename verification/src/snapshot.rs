//! The snapshot encoding: the entire table-to-field-to-bytes namespace as
//! one opaque byte sequence, and its parser. The format is length-prefixed:
//! a count of tables, then per table its name, a count of fields, and per
//! field its name and payload. Names are stored one character per 32-bit
//! little-endian word; counts and payload lengths are 64-bit little-endian.
//!
//! `parse_snapshot` is the specification of what a byte sequence describes;
//! `Store::snapshot` provably produces bytes that parse back to the store's
//! own model, and `Store::restore` provably accepts exactly the valid
//! encodings.

use crate::assoc::assoc_model;
use crate::error::{Error, ErrorKind};
use crate::store::{Store, StoreModel, Table, TableModel};
use vstd::bytes::{
    lemma_auto_spec_u32_to_from_le_bytes, lemma_auto_spec_u64_to_from_le_bytes,
    spec_u32_from_le_bytes, spec_u32_to_le_bytes, spec_u64_from_le_bytes, spec_u64_to_le_bytes,
    u32_from_le_bytes, u32_to_le_bytes, u64_from_le_bytes, u64_to_le_bytes,
};
use vstd::prelude::*;
use vstd::slice::{slice_subrange, slice_to_vec};
use vstd::string::{StrSliceExecFns, StringExecFns};

verus! {

// ========================= encoding, in spec =========================

pub open spec fn enc_chars(s: Seq<char>) -> Seq<u8>
    decreases s.len(),
{
    if s.len() == 0 {
        Seq::empty()
    } else {
        spec_u32_to_le_bytes(s[0] as u32) + enc_chars(s.drop_first())
    }
}

pub open spec fn enc_string(s: Seq<char>) -> Seq<u8> {
    spec_u64_to_le_bytes(s.len() as u64) + enc_chars(s)
}

pub open spec fn enc_bytes(v: Seq<u8>) -> Seq<u8> {
    spec_u64_to_le_bytes(v.len() as u64) + v
}

pub open spec fn enc_fields(s: Seq<(String, Vec<u8>)>) -> Seq<u8>
    decreases s.len(),
{
    if s.len() == 0 {
        Seq::empty()
    } else {
        enc_string(s[0].0@) + enc_bytes(s[0].1@) + enc_fields(s.drop_first())
    }
}

pub open spec fn enc_table(name: Seq<char>, t: Table) -> Seq<u8> {
    enc_string(name) + spec_u64_to_le_bytes(t.fields.entries@.len() as u64) + enc_fields(
        t.fields.entries@,
    )
}

pub open spec fn enc_tables(s: Seq<(String, Table)>) -> Seq<u8>
    decreases s.len(),
{
    if s.len() == 0 {
        Seq::empty()
    } else {
        enc_table(s[0].0@, s[0].1) + enc_tables(s.drop_first())
    }
}

impl Store {
    /// The snapshot bytes of this store's current representation.
    pub open spec fn spec_snapshot(&self) -> Seq<u8> {
        spec_u64_to_le_bytes(self.tables.entries@.len() as u64) + enc_tables(self.tables.entries@)
    }
}

proof fn lemma_enc_chars_snoc(s: Seq<char>, c: char)
    ensures
        enc_chars(s.push(c)) == enc_chars(s) + spec_u32_to_le_bytes(c as u32),
    decreases s.len(),
{
    if s.len() == 0 {
        assert(s.push(c)[0] == c);
        assert(s.push(c).drop_first() =~= Seq::<char>::empty());
        assert(enc_chars(Seq::<char>::empty()) == Seq::<u8>::empty());
        assert(enc_chars(s.push(c)) == spec_u32_to_le_bytes(c as u32) + Seq::<u8>::empty());
        assert(enc_chars(s.push(c)) =~= enc_chars(s) + spec_u32_to_le_bytes(c as u32));
    } else {
        assert(s.push(c)[0] == s[0]);
        assert(s.push(c).drop_first() =~= s.drop_first().push(c));
        lemma_enc_chars_snoc(s.drop_first(), c);
        assert(enc_chars(s.push(c)) =~= enc_chars(s) + spec_u32_to_le_bytes(c as u32));
    }
}

proof fn lemma_enc_fields_snoc(s: Seq<(String, Vec<u8>)>, p: (String, Vec<u8>))
    ensures
        enc_fields(s.push(p)) == enc_fields(s) + enc_string(p.0@) + enc_bytes(p.1@),
    decreases s.len(),
{
    if s.len() == 0 {
        assert(s.push(p)[0] == p);
        assert(s.push(p).drop_first() =~= Seq::<(String, Vec<u8>)>::empty());
        assert(enc_fields(Seq::<(String, Vec<u8>)>::empty()) == Seq::<u8>::empty());
        assert(enc_fields(s.push(p)) == enc_string(p.0@) + enc_bytes(p.1@) + Seq::<u8>::empty());
        assert(enc_fields(s.push(p)) =~= enc_fields(s) + enc_string(p.0@) + enc_bytes(p.1@));
    } else {
        assert(s.push(p)[0] == s[0]);
        assert(s.push(p).drop_first() =~= s.drop_first().push(p));
        lemma_enc_fields_snoc(s.drop_first(), p);
        assert(enc_fields(s.push(p)) =~= enc_fields(s) + enc_string(p.0@) + enc_bytes(p.1@));
    }
}

proof fn lemma_enc_tables_snoc(s: Seq<(String, Table)>, p: (String, Table))
    ensures
        enc_tables(s.push(p)) == enc_tables(s) + enc_table(p.0@, p.1),
    decreases s.len(),
{
    if s.len() == 0 {
        assert(s.push(p)[0] == p);
        assert(s.push(p).drop_first() =~= Seq::<(String, Table)>::empty());
        assert(enc_tables(Seq::<(String, Table)>::empty()) == Seq::<u8>::empty());
        assert(enc_tables(s.push(p)) == enc_table(p.0@, p.1) + Seq::<u8>::empty());
        assert(enc_tables(s.push(p)) =~= enc_tables(s) + enc_table(p.0@, p.1));
    } else {
        assert(s.push(p)[0] == s[0]);
        assert(s.push(p).drop_first() =~= s.drop_first().push(p));
        lemma_enc_tables_snoc(s.drop_first(), p);
        assert(enc_tables(s.push(p)) =~= enc_tables(s) + enc_table(p.0@, p.1));
    }
}

// ========================= encoding, in exec =========================

fn w_u64(buf: &mut Vec<u8>, x: u64)
    ensures
        final(buf)@ == old(buf)@ + spec_u64_to_le_bytes(x),
{
    let mut tmp = u64_to_le_bytes(x);
    buf.append(&mut tmp);
}

#[verifier::loop_isolation(false)]
fn w_string(buf: &mut Vec<u8>, s: &String)
    ensures
        final(buf)@ == old(buf)@ + enc_string(s@),
        s@.len() <= u64::MAX,
{
    let n = s.as_str().unicode_len();
    w_u64(buf, n as u64);
    let mut i: usize = 0;
    while i < n
        invariant
            i <= n,
            buf@ == old(buf)@ + spec_u64_to_le_bytes(n as u64) + enc_chars(s@.take(i as int)),
        decreases n - i,
    {
        let c = s.as_str().get_char(i);
        let mut tmp = u32_to_le_bytes(c as u32);
        buf.append(&mut tmp);
        proof {
            lemma_enc_chars_snoc(s@.take(i as int), s@[i as int]);
            assert(s@.take(i + 1 as int) =~= s@.take(i as int).push(s@[i as int]));
            assert(buf@ =~= old(buf)@ + spec_u64_to_le_bytes(n as u64) + enc_chars(
                s@.take(i + 1 as int),
            ));
        }
        i = i + 1;
    }
    proof {
        assert(s@.take(n as int) =~= s@);
        assert(buf@ =~= old(buf)@ + enc_string(s@));
    }
}

#[verifier::loop_isolation(false)]
fn w_bytes(buf: &mut Vec<u8>, v: &Vec<u8>)
    ensures
        final(buf)@ == old(buf)@ + enc_bytes(v@),
{
    let n = v.len();
    w_u64(buf, n as u64);
    let mut k: usize = 0;
    while k < n
        invariant
            k <= n,
            buf@ == old(buf)@ + spec_u64_to_le_bytes(n as u64) + v@.take(k as int),
        decreases n - k,
    {
        buf.push(v[k]);
        proof {
            assert(v@.take(k + 1 as int) =~= v@.take(k as int).push(v@[k as int]));
            assert(buf@ =~= old(buf)@ + spec_u64_to_le_bytes(n as u64) + v@.take(k + 1 as int));
        }
        k = k + 1;
    }
    proof {
        assert(v@.take(n as int) =~= v@);
        assert(buf@ =~= old(buf)@ + enc_bytes(v@));
    }
}

impl Store {
    /// Serializes the entire namespace into an opaque byte sequence that
    /// parses back to this store's model.
    #[verifier::loop_isolation(false)]
    pub fn snapshot(&self) -> (r: Vec<u8>)
        requires
            self.wf(),
        ensures
            r@ == self.spec_snapshot(),
            parse_snapshot(r@) == Some(self@),
    {
        let mut buf: Vec<u8> = Vec::new();
        let n = self.tables.entries.len();
        w_u64(&mut buf, n as u64);
        let mut i: usize = 0;
        while i < n
            invariant
                i <= n,
                buf@ == spec_u64_to_le_bytes(n as u64) + enc_tables(
                    self.tables.entries@.take(i as int),
                ),
            decreases n - i,
        {
            w_string(&mut buf, &self.tables.entries[i].0);
            let tbl = &self.tables.entries[i].1;
            let m = tbl.fields.entries.len();
            w_u64(&mut buf, m as u64);
            let mut j: usize = 0;
            while j < m
                invariant
                    i < n,
                    j <= m,
                    buf@ == spec_u64_to_le_bytes(n as u64) + enc_tables(
                        self.tables.entries@.take(i as int),
                    ) + enc_string(self.tables.entries@[i as int].0@) + spec_u64_to_le_bytes(
                        m as u64,
                    ) + enc_fields(tbl.fields.entries@.take(j as int)),
                decreases m - j,
            {
                w_string(&mut buf, &tbl.fields.entries[j].0);
                w_bytes(&mut buf, &tbl.fields.entries[j].1);
                proof {
                    lemma_enc_fields_snoc(
                        tbl.fields.entries@.take(j as int),
                        tbl.fields.entries@[j as int],
                    );
                    assert(tbl.fields.entries@.take(j + 1 as int) =~= tbl.fields.entries@.take(
                        j as int,
                    ).push(tbl.fields.entries@[j as int]));
                    assert(buf@ =~= spec_u64_to_le_bytes(n as u64) + enc_tables(
                        self.tables.entries@.take(i as int),
                    ) + enc_string(self.tables.entries@[i as int].0@) + spec_u64_to_le_bytes(
                        m as u64,
                    ) + enc_fields(tbl.fields.entries@.take(j + 1 as int)));
                }
                j = j + 1;
            }
            proof {
                assert(tbl.fields.entries@.take(m as int) =~= tbl.fields.entries@);
                lemma_enc_tables_snoc(
                    self.tables.entries@.take(i as int),
                    self.tables.entries@[i as int],
                );
                assert(self.tables.entries@.take(i + 1 as int) =~= self.tables.entries@.take(
                    i as int,
                ).push(self.tables.entries@[i as int]));
                assert(buf@ =~= spec_u64_to_le_bytes(n as u64) + enc_tables(
                    self.tables.entries@.take(i + 1 as int),
                ));
            }
            i = i + 1;
        }
        proof {
            assert(self.tables.entries@.take(n as int) =~= self.tables.entries@);
            assert(buf@ =~= self.spec_snapshot());
            lemma_snapshot_restore(self);
        }
        buf
    }
}

// ========================= parsing, in spec =========================

/// Whether a 32-bit value is a unicode scalar value (what `char` can hold).
pub open spec fn is_scalar_value(v: u32) -> bool {
    v < 0xD800 || (0xE000 <= v && v <= 0x10FFFF)
}

pub open spec fn p_u64(b: Seq<u8>, pos: int) -> Option<(u64, int)> {
    if 0 <= pos && pos + 8 <= b.len() {
        Some((spec_u64_from_le_bytes(b.subrange(pos, pos + 8)), pos + 8))
    } else {
        None
    }
}

pub open spec fn p_char(b: Seq<u8>, pos: int) -> Option<(char, int)> {
    if 0 <= pos && pos + 4 <= b.len() {
        let u = spec_u32_from_le_bytes(b.subrange(pos, pos + 4));
        if is_scalar_value(u) {
            Some((u as char, pos + 4))
        } else {
            None
        }
    } else {
        None
    }
}

pub open spec fn p_chars(b: Seq<u8>, pos: int, n: u64, acc: Seq<char>) -> Option<(Seq<char>, int)>
    decreases n,
{
    if n == 0 {
        Some((acc, pos))
    } else {
        match p_char(b, pos) {
            Some((c, pos2)) => p_chars(b, pos2, (n - 1) as u64, acc.push(c)),
            None => None,
        }
    }
}

pub open spec fn p_string(b: Seq<u8>, pos: int) -> Option<(Seq<char>, int)> {
    match p_u64(b, pos) {
        Some((n, pos2)) => p_chars(b, pos2, n, Seq::<char>::empty()),
        None => None,
    }
}

pub open spec fn p_bytes(b: Seq<u8>, pos: int) -> Option<(Seq<u8>, int)> {
    match p_u64(b, pos) {
        Some((n, pos2)) => if pos2 + n <= b.len() {
            Some((b.subrange(pos2, pos2 + n), pos2 + n))
        } else {
            None
        },
        None => None,
    }
}

pub open spec fn p_field(b: Seq<u8>, pos: int) -> Option<((Seq<char>, Seq<u8>), int)> {
    match p_string(b, pos) {
        Some((name, pos2)) => match p_bytes(b, pos2) {
            Some((v, pos3)) => Some(((name, v), pos3)),
            None => None,
        },
        None => None,
    }
}

pub open spec fn p_fields(
    b: Seq<u8>,
    pos: int,
    n: u64,
    acc: Seq<(Seq<char>, Seq<u8>)>,
) -> Option<(Seq<(Seq<char>, Seq<u8>)>, int)>
    decreases n,
{
    if n == 0 {
        Some((acc, pos))
    } else {
        match p_field(b, pos) {
            Some((pair, pos2)) => p_fields(b, pos2, (n - 1) as u64, acc.push(pair)),
            None => None,
        }
    }
}

/// The map denoted by a sequence of parsed (name, value) pairs; a later
/// pair for the same name wins.
pub open spec fn pairs_model<V>(s: Seq<(Seq<char>, V)>) -> Map<Seq<char>, V>
    decreases s.len(),
{
    if s.len() == 0 {
        Map::empty()
    } else {
        pairs_model(s.drop_last()).insert(s.last().0, s.last().1)
    }
}

pub open spec fn p_table(b: Seq<u8>, pos: int) -> Option<((Seq<char>, TableModel), int)> {
    match p_string(b, pos) {
        Some((name, pos2)) => match p_u64(b, pos2) {
            Some((n, pos3)) => match p_fields(b, pos3, n, Seq::<(Seq<char>, Seq<u8>)>::empty()) {
                Some((pairs, pos4)) => Some(((name, pairs_model(pairs)), pos4)),
                None => None,
            },
            None => None,
        },
        None => None,
    }
}

pub open spec fn p_tables(
    b: Seq<u8>,
    pos: int,
    n: u64,
    acc: Seq<(Seq<char>, TableModel)>,
) -> Option<(Seq<(Seq<char>, TableModel)>, int)>
    decreases n,
{
    if n == 0 {
        Some((acc, pos))
    } else {
        match p_table(b, pos) {
            Some((pair, pos2)) => p_tables(b, pos2, (n - 1) as u64, acc.push(pair)),
            None => None,
        }
    }
}

/// The store model a byte sequence describes, if it is a valid snapshot;
/// trailing bytes are rejected.
pub open spec fn parse_snapshot(b: Seq<u8>) -> Option<StoreModel> {
    match p_u64(b, 0) {
        Some((n, pos)) => match p_tables(b, pos, n, Seq::<(Seq<char>, TableModel)>::empty()) {
            Some((pairs, end)) => if end == b.len() {
                Some(pairs_model(pairs))
            } else {
                None
            },
            None => None,
        },
        None => None,
    }
}

// ========================= parsing, in exec =========================

/// Relies on `char::from_u32`: yields the character with the given code
/// exactly when the value is a unicode scalar value, and nothing otherwise.
pub assume_specification[ char::from_u32 ](v: u32) -> (r: Option<char>)
    ensures
        r == (if is_scalar_value(v) {
            Some(v as char)
        } else {
            None::<char>
        }),
;

/// Relies on `String::push`: appends the given character to the string.
pub assume_specification[ String::push ](s: &mut String, c: char)
    ensures
        final(s)@ == old(s)@.push(c),
;

fn r_u64(b: &[u8], pos: usize) -> (r: Option<(u64, usize)>)
    requires
        pos <= b@.len(),
    ensures
        match r {
            Some((x, p2)) => p_u64(b@, pos as int) == Some((x, p2 as int)) && p2 <= b@.len(),
            None => p_u64(b@, pos as int) is None,
        },
{
    if b.len() - pos >= 8 {
        let x = u64_from_le_bytes(slice_subrange(b, pos, pos + 8));
        Some((x, pos + 8))
    } else {
        None
    }
}

fn r_char(b: &[u8], pos: usize) -> (r: Option<(char, usize)>)
    requires
        pos <= b@.len(),
    ensures
        match r {
            Some((c, p2)) => p_char(b@, pos as int) == Some((c, p2 as int)) && p2 <= b@.len(),
            None => p_char(b@, pos as int) is None,
        },
{
    if b.len() - pos >= 4 {
        let u = u32_from_le_bytes(slice_subrange(b, pos, pos + 4));
        match char::from_u32(u) {
            Some(c) => Some((c, pos + 4)),
            None => None,
        }
    } else {
        None
    }
}

#[verifier::loop_isolation(false)]
fn r_string(b: &[u8], pos: usize) -> (r: Option<(String, usize)>)
    requires
        pos <= b@.len(),
    ensures
        match r {
            Some((s, p2)) => p_string(b@, pos as int) == Some((s@, p2 as int)) && p2 <= b@.len()
                && s@.len() <= u64::MAX,
            None => p_string(b@, pos as int) is None,
        },
{
    match r_u64(b, pos) {
        Some((n, len_end)) => {
            let mut s = String::new();
            let mut cur = len_end;
            let mut i: u64 = 0;
            while i < n
                invariant
                    i <= n,
                    cur <= b@.len(),
                    s@.len() == i as nat,
                    p_chars(b@, len_end as int, n, Seq::<char>::empty()) == p_chars(
                        b@,
                        cur as int,
                        (n - i) as u64,
                        s@,
                    ),
                decreases n - i,
            {
                match r_char(b, cur) {
                    Some((c, p2)) => {
                        s.push(c);
                        cur = p2;
                        i = i + 1;
                    },
                    None => {
                        proof {
                            assert(p_chars(b@, cur as int, (n - i) as u64, s@) is None);
                        }
                        return None;
                    },
                }
            }
            Some((s, cur))
        },
        None => None,
    }
}

fn r_bytes(b: &[u8], pos: usize) -> (r: Option<(Vec<u8>, usize)>)
    requires
        pos <= b@.len(),
    ensures
        match r {
            Some((v, p2)) => p_bytes(b@, pos as int) == Some((v@, p2 as int)) && p2 <= b@.len()
                && v@.len() <= u64::MAX,
            None => p_bytes(b@, pos as int) is None,
        },
{
    match r_u64(b, pos) {
        Some((n, len_end)) => {
            if (b.len() - len_end) as u64 >= n {
                let count = n as usize;
                let v = slice_to_vec(slice_subrange(b, len_end, len_end + count));
                Some((v, len_end + count))
            } else {
                None
            }
        },
        None => None,
    }
}

#[verifier::loop_isolation(false)]
fn r_table(b: &[u8], pos: usize) -> (r: Option<((String, Table), usize)>)
    requires
        pos <= b@.len(),
    ensures
        match r {
            Some(((name, tbl), p2)) => p_table(b@, pos as int) == Some(
                ((name@, tbl@), p2 as int),
            ) && p2 <= b@.len() && tbl.wf() && name@.len() <= u64::MAX,
            None => p_table(b@, pos as int) is None,
        },
{
    match r_string(b, pos) {
        Some((name, pos1)) => match r_u64(b, pos1) {
            Some((fcount, pos2)) => {
                let mut tbl = Table::new();
                let mut fpos = pos2;
                let mut j: u64 = 0;
                let ghost mut fpairs: Seq<(Seq<char>, Seq<u8>)> = Seq::empty();
                while j < fcount
                    invariant
                        j <= fcount,
                        fpos <= b@.len(),
                        tbl.wf(),
                        tbl@ == pairs_model(fpairs),
                        p_fields(
                            b@,
                            pos2 as int,
                            fcount,
                            Seq::<(Seq<char>, Seq<u8>)>::empty(),
                        ) == p_fields(b@, fpos as int, (fcount - j) as u64, fpairs),
                    decreases fcount - j,
                {
                    match r_string(b, fpos) {
                        Some((fname, q1)) => match r_bytes(b, q1) {
                            Some((val, q2)) => {
                                let ghost fname_view = fname@;
                                let ghost val_view = val@;
                                proof {
                                    assert(p_field(b@, fpos as int) == Some(
                                        ((fname_view, val_view), q2 as int),
                                    ));
                                    assert(fpairs.push((fname_view, val_view)).drop_last()
                                        =~= fpairs);
                                }
                                tbl.fields.put(fname, val);
                                proof {
                                    fpairs = fpairs.push((fname_view, val_view));
                                }
                                fpos = q2;
                                j = j + 1;
                            },
                            None => {
                                proof {
                                    assert(p_field(b@, fpos as int) is None);
                                    assert(p_fields(
                                        b@,
                                        fpos as int,
                                        (fcount - j) as u64,
                                        fpairs,
                                    ) is None);
                                    assert(p_fields(
                                        b@,
                                        pos2 as int,
                                        fcount,
                                        Seq::<(Seq<char>, Seq<u8>)>::empty(),
                                    ) is None);
                                    assert(p_table(b@, pos as int) is None);
                                }
                                return None;
                            },
                        },
                        None => {
                            proof {
                                assert(p_field(b@, fpos as int) is None);
                                assert(p_fields(b@, fpos as int, (fcount - j) as u64, fpairs)
                                    is None);
                                assert(p_fields(
                                    b@,
                                    pos2 as int,
                                    fcount,
                                    Seq::<(Seq<char>, Seq<u8>)>::empty(),
                                ) is None);
                                assert(p_table(b@, pos as int) is None);
                            }
                            return None;
                        },
                    }
                }
                proof {
                    assert(p_fields(b@, fpos as int, 0, fpairs) == Some((fpairs, fpos as int)));
                    assert(p_table(b@, pos as int) == Some(
                        ((name@, pairs_model(fpairs)), fpos as int),
                    ));
                }
                Some(((name, tbl), fpos))
            },
            None => None,
        },
        None => None,
    }
}

impl Store {
    /// Reconstructs a store wholesale from snapshot bytes, replacing the
    /// entire namespace; fails with `DecodeError` exactly when the bytes are
    /// not a valid snapshot.
    #[verifier::loop_isolation(false)]
    pub fn restore(bytes: &[u8]) -> (r: Result<Store, Error>)
        ensures
            match parse_snapshot(bytes@) {
                Some(m) => r is Ok && r->Ok_0@ == m && r->Ok_0.wf(),
                None => r is Err && r->Err_0.kind == ErrorKind::DecodeError,
            },
    {
        match r_u64(bytes, 0) {
            Some((n, pos0)) => {
                let mut store = Store::new();
                let mut pos = pos0;
                let mut i: u64 = 0;
                let ghost mut pairs: Seq<(Seq<char>, TableModel)> = Seq::empty();
                while i < n
                    invariant
                        i <= n,
                        pos <= bytes@.len(),
                        store.wf(),
                        store@ == pairs_model(pairs),
                        p_tables(
                            bytes@,
                            pos0 as int,
                            n,
                            Seq::<(Seq<char>, TableModel)>::empty(),
                        ) == p_tables(bytes@, pos as int, (n - i) as u64, pairs),
                    decreases n - i,
                {
                    match r_table(bytes, pos) {
                        Some(((name, tbl), p2)) => {
                            let ghost name_view = name@;
                            let ghost tbl_view = tbl@;
                            proof {
                                assert(pairs.push((name_view, tbl_view)).drop_last() =~= pairs);
                            }
                            store.tables.put(name, tbl);
                            proof {
                                pairs = pairs.push((name_view, tbl_view));
                            }
                            pos = p2;
                            i = i + 1;
                        },
                        None => {
                            proof {
                                assert(p_tables(bytes@, pos as int, (n - i) as u64, pairs)
                                    is None);
                            }
                            return Err(
                                Error::new(ErrorKind::DecodeError, "could not decode slice"),
                            );
                        },
                    }
                }
                if pos == bytes.len() {
                    proof {
                        assert(p_tables(bytes@, pos as int, 0, pairs) == Some(
                            (pairs, pos as int),
                        ));
                    }
                    Ok(store)
                } else {
                    Err(Error::new(ErrorKind::DecodeError, "could not decode slice"))
                }
            },
            None => Err(Error::new(ErrorKind::DecodeError, "could not decode slice")),
        }
    }
}

// ================= the round trip, proved =================

proof fn lemma_subrange_split(b: Seq<u8>, pos: int, a: Seq<u8>, c: Seq<u8>)
    requires
        0 <= pos,
        pos + a.len() + c.len() <= b.len(),
        b.subrange(pos, pos + a.len() + c.len()) == a + c,
    ensures
        b.subrange(pos, pos + a.len()) == a,
        b.subrange(pos + a.len(), pos + a.len() + c.len()) == c,
{
    assert forall|k: int| 0 <= k < a.len() implies b.subrange(pos, pos + a.len() as int)[k]
        == a[k] by {
        assert(b.subrange(pos, pos + a.len() + c.len())[k] == (a + c)[k]);
    }
    assert(b.subrange(pos, pos + a.len() as int) =~= a);
    assert forall|k: int|
        0 <= k < c.len() implies b.subrange(pos + a.len(), pos + a.len() + c.len())[k]
        == c[k] by {
        assert((a + c)[a.len() + k] == c[k]);
        assert(b.subrange(pos, pos + a.len() + c.len())[a.len() + k] == (a + c)[a.len() + k]);
        assert(b.subrange(pos, pos + a.len() + c.len())[a.len() + k] == b[pos + a.len() + k]);
        assert(b.subrange(pos + a.len(), pos + a.len() + c.len())[k] == b[pos + a.len() + k]);
    }
    assert(b.subrange(pos + a.len() as int, pos + a.len() + c.len()) =~= c);
}

proof fn lemma_enc_chars_len(s: Seq<char>)
    ensures
        enc_chars(s).len() == 4 * s.len(),
    decreases s.len(),
{
    lemma_auto_spec_u32_to_from_le_bytes();
    if s.len() > 0 {
        lemma_enc_chars_len(s.drop_first());
    }
}

proof fn lemma_p_chars_of_enc(b: Seq<u8>, pos: int, s: Seq<char>, acc: Seq<char>)
    requires
        0 <= pos,
        s.len() <= u64::MAX,
        pos + 4 * s.len() <= b.len(),
        b.subrange(pos, pos + 4 * s.len()) == enc_chars(s),
    ensures
        p_chars(b, pos, s.len() as u64, acc) == Some((acc + s, pos + 4 * s.len())),
    decreases s.len(),
{
    lemma_auto_spec_u32_to_from_le_bytes();
    if s.len() == 0 {
        assert(acc + s =~= acc);
    } else {
        let c = s[0];
        let u = c as u32;
        lemma_enc_chars_len(s.drop_first());
        assert(enc_chars(s) == spec_u32_to_le_bytes(u) + enc_chars(s.drop_first()));
        assert(spec_u32_to_le_bytes(u).len() == 4);
        assert(b.subrange(pos, pos + spec_u32_to_le_bytes(u).len() + enc_chars(
            s.drop_first(),
        ).len()) == spec_u32_to_le_bytes(u) + enc_chars(s.drop_first()));
        lemma_subrange_split(b, pos, spec_u32_to_le_bytes(u), enc_chars(s.drop_first()));
        assert(b.subrange(pos, pos + 4) == spec_u32_to_le_bytes(u));
        assert(spec_u32_from_le_bytes(b.subrange(pos, pos + 4)) == u);
        vstd::utf8::char_is_scalar(c);
        assert(is_scalar_value(u));
        vstd::utf8::char_u32_cast(c, u);
        assert(p_char(b, pos) == Some((c, pos + 4)));
        assert(b.subrange(pos + 4, pos + 4 + 4 * s.drop_first().len()) == enc_chars(
            s.drop_first(),
        ));
        lemma_p_chars_of_enc(b, pos + 4, s.drop_first(), acc.push(c));
        assert(acc.push(c) + s.drop_first() =~= acc + s);
        assert(p_chars(b, pos, s.len() as u64, acc) == p_chars(
            b,
            pos + 4,
            (s.len() - 1) as u64,
            acc.push(c),
        ));
    }
}

proof fn lemma_p_string_of_enc(b: Seq<u8>, pos: int, s: Seq<char>)
    requires
        0 <= pos,
        s.len() <= u64::MAX,
        pos + 8 + 4 * s.len() <= b.len(),
        b.subrange(pos, pos + 8 + 4 * s.len()) == enc_string(s),
    ensures
        p_string(b, pos) == Some((s, pos + 8 + 4 * s.len())),
{
    lemma_auto_spec_u64_to_from_le_bytes();
    lemma_enc_chars_len(s);
    assert(enc_string(s) == spec_u64_to_le_bytes(s.len() as u64) + enc_chars(s));
    assert(spec_u64_to_le_bytes(s.len() as u64).len() == 8);
    assert(b.subrange(pos, pos + spec_u64_to_le_bytes(s.len() as u64).len() + enc_chars(s).len())
        == spec_u64_to_le_bytes(s.len() as u64) + enc_chars(s));
    lemma_subrange_split(b, pos, spec_u64_to_le_bytes(s.len() as u64), enc_chars(s));
    assert(b.subrange(pos, pos + 8) == spec_u64_to_le_bytes(s.len() as u64));
    assert(p_u64(b, pos) == Some((s.len() as u64, pos + 8)));
    assert(b.subrange(pos + 8, pos + 8 + 4 * s.len()) == enc_chars(s));
    lemma_p_chars_of_enc(b, pos + 8, s, Seq::<char>::empty());
    assert(Seq::<char>::empty() + s =~= s);
}

proof fn lemma_p_bytes_of_enc(b: Seq<u8>, pos: int, v: Seq<u8>)
    requires
        0 <= pos,
        v.len() <= u64::MAX,
        pos + 8 + v.len() <= b.len(),
        b.subrange(pos, pos + 8 + v.len()) == enc_bytes(v),
    ensures
        p_bytes(b, pos) == Some((v, pos + 8 + v.len())),
{
    lemma_auto_spec_u64_to_from_le_bytes();
    assert(enc_bytes(v) == spec_u64_to_le_bytes(v.len() as u64) + v);
    assert(spec_u64_to_le_bytes(v.len() as u64).len() == 8);
    assert(b.subrange(pos, pos + spec_u64_to_le_bytes(v.len() as u64).len() + v.len())
        == spec_u64_to_le_bytes(v.len() as u64) + v);
    lemma_subrange_split(b, pos, spec_u64_to_le_bytes(v.len() as u64), v);
    assert(b.subrange(pos, pos + 8) == spec_u64_to_le_bytes(v.len() as u64));
    assert(p_u64(b, pos) == Some((v.len() as u64, pos + 8)));
    assert(b.subrange(pos + 8, pos + 8 + v.len()) == v);
}

/// A representation's pairs, with each name and value replaced by its view.
pub open spec fn abs_pairs<V: View>(s: Seq<(String, V)>) -> Seq<(Seq<char>, V::V)> {
    s.map_values(|p: (String, V)| (p.0@, p.1@))
}

proof fn lemma_pairs_model_abs<V: View>(s: Seq<(String, V)>)
    ensures
        pairs_model(abs_pairs(s)) == assoc_model(s),
    decreases s.len(),
{
    if s.len() == 0 {
        assert(abs_pairs(s) =~= Seq::<(Seq<char>, V::V)>::empty());
    } else {
        lemma_pairs_model_abs(s.drop_last());
        assert(abs_pairs(s).drop_last() =~= abs_pairs(s.drop_last()));
        assert(abs_pairs(s).last() == (s.last().0@, s.last().1@));
        assert(abs_pairs(s).len() > 0);
    }
}

proof fn lemma_p_fields_of_enc(
    b: Seq<u8>,
    pos: int,
    s: Seq<(String, Vec<u8>)>,
    acc: Seq<(Seq<char>, Seq<u8>)>,
)
    requires
        0 <= pos,
        s.len() <= u64::MAX,
        forall|k: int|
            0 <= k < s.len() ==> (#[trigger] s[k]).0@.len() <= u64::MAX && s[k].1@.len()
                <= u64::MAX,
        pos + enc_fields(s).len() <= b.len(),
        b.subrange(pos, pos + enc_fields(s).len()) == enc_fields(s),
    ensures
        p_fields(b, pos, s.len() as u64, acc) == Some(
            (acc + abs_pairs(s), pos + enc_fields(s).len()),
        ),
    decreases s.len(),
{
    lemma_auto_spec_u64_to_from_le_bytes();
    if s.len() == 0 {
        assert(acc + abs_pairs(s) =~= acc);
    } else {
        let name = s[0].0@;
        let v = s[0].1@;
        lemma_enc_chars_len(name);
        let e1 = enc_string(name);
        let e2 = enc_bytes(v);
        let rest = s.drop_first();
        assert(e1.len() == 8 + 4 * name.len());
        assert(e2.len() == 8 + v.len());
        let tail = e2 + enc_fields(rest);
        assert(enc_fields(s) == e1 + e2 + enc_fields(rest));
        assert(enc_fields(s) =~= e1 + tail);
        assert(b.subrange(pos, pos + e1.len() + tail.len()) == e1 + tail);
        lemma_subrange_split(b, pos, e1, tail);
        lemma_p_string_of_enc(b, pos, name);
        let pos2 = pos + e1.len() as int;
        lemma_subrange_split(b, pos2, e2, enc_fields(rest));
        lemma_p_bytes_of_enc(b, pos2, v);
        let pos3 = pos2 + e2.len() as int;
        assert(p_field(b, pos) == Some(((name, v), pos3)));
        assert(b.subrange(pos3, pos3 + enc_fields(rest).len() as int) == enc_fields(rest));
        assert(forall|k: int|
            0 <= k < rest.len() ==> (#[trigger] rest[k]).0@.len() <= u64::MAX && rest[k].1@.len()
                <= u64::MAX) by {
            assert(forall|k: int| 0 <= k < rest.len() ==> rest[k] == s[k + 1]);
        }
        lemma_p_fields_of_enc(b, pos3, rest, acc.push((name, v)));
        assert(abs_pairs(rest) =~= abs_pairs(s).drop_first());
        assert(abs_pairs(s)[0] == (name, v));
        assert(acc.push((name, v)) + abs_pairs(rest) =~= acc + abs_pairs(s));
        assert(p_fields(b, pos, s.len() as u64, acc) == p_fields(
            b,
            pos3,
            (s.len() - 1) as u64,
            acc.push((name, v)),
        ));
    }
}

proof fn lemma_p_tables_of_enc(
    b: Seq<u8>,
    pos: int,
    s: Seq<(String, Table)>,
    acc: Seq<(Seq<char>, TableModel)>,
)
    requires
        0 <= pos,
        s.len() <= u64::MAX,
        forall|k: int|
            0 <= k < s.len() ==> (#[trigger] s[k]).0@.len() <= u64::MAX && s[k].1.wf(),
        pos + enc_tables(s).len() <= b.len(),
        b.subrange(pos, pos + enc_tables(s).len()) == enc_tables(s),
    ensures
        p_tables(b, pos, s.len() as u64, acc) == Some(
            (acc + abs_pairs(s), pos + enc_tables(s).len()),
        ),
    decreases s.len(),
{
    lemma_auto_spec_u64_to_from_le_bytes();
    if s.len() == 0 {
        assert(acc + abs_pairs(s) =~= acc);
    } else {
        let name = s[0].0@;
        let t = s[0].1;
        let fentries = t.fields.entries@;
        lemma_enc_chars_len(name);
        let e1 = enc_string(name);
        let e3 = enc_fields(fentries);
        let rest = s.drop_first();
        assert(e1.len() == 8 + 4 * name.len());
        assert(fentries.len() <= u64::MAX) by {
            broadcast use vstd::std_specs::vec::axiom_spec_len;

            assert(vstd::std_specs::vec::spec_vec_len(&t.fields.entries) == fentries.len());
        }
        let e2 = spec_u64_to_le_bytes(fentries.len() as u64);
        assert(e2.len() == 8);
        let tail2 = e3 + enc_tables(rest);
        let tail1 = e2 + tail2;
        assert(enc_tables(s) == (e1 + e2 + e3) + enc_tables(rest));
        assert(enc_tables(s) =~= e1 + tail1);
        assert(b.subrange(pos, pos + e1.len() + tail1.len()) == e1 + tail1);
        lemma_subrange_split(b, pos, e1, tail1);
        lemma_p_string_of_enc(b, pos, name);
        let pos2 = pos + e1.len() as int;
        lemma_subrange_split(b, pos2, e2, tail2);
        assert(b.subrange(pos2, pos2 + 8) == e2);
        assert(p_u64(b, pos2) == Some((fentries.len() as u64, pos2 + 8)));
        let pos3 = pos2 + 8;
        lemma_subrange_split(b, pos3, e3, enc_tables(rest));
        assert(b.subrange(pos3, pos3 + e3.len() as int) == e3);
        lemma_p_fields_of_enc(b, pos3, fentries, Seq::<(Seq<char>, Seq<u8>)>::empty());
        let pos4 = pos3 + e3.len() as int;
        assert(Seq::<(Seq<char>, Seq<u8>)>::empty() + abs_pairs(fentries) =~= abs_pairs(
            fentries,
        ));
        lemma_pairs_model_abs(fentries);
        assert(p_table(b, pos) == Some(((name, t@), pos4)));
        assert(b.subrange(pos4, pos4 + enc_tables(rest).len() as int) == enc_tables(rest));
        assert(forall|k: int|
            0 <= k < rest.len() ==> (#[trigger] rest[k]).0@.len() <= u64::MAX
                && rest[k].1.wf()) by {
            assert(forall|k: int| 0 <= k < rest.len() ==> rest[k] == s[k + 1]);
        }
        lemma_p_tables_of_enc(b, pos4, rest, acc.push((name, t@)));
        assert(abs_pairs(rest) =~= abs_pairs(s).drop_first());
        assert(abs_pairs(s)[0] == (name, t@));
        assert(acc.push((name, t@)) + abs_pairs(rest) =~= acc + abs_pairs(s));
        assert(p_tables(b, pos, s.len() as u64, acc) == p_tables(
            b,
            pos4,
            (s.len() - 1) as u64,
            acc.push((name, t@)),
        ));
    }
}

/// Snapshot round trip: the bytes `snapshot` produces for a well-formed
/// store parse back to exactly that store's namespace model, so
/// `restore(snapshot())` reconstructs an observationally equal store.
pub proof fn lemma_snapshot_restore(s: &Store)
    requires
        s.wf(),
    ensures
        parse_snapshot(s.spec_snapshot()) == Some(s@),
{
    let entries = s.tables.entries@;
    let b = s.spec_snapshot();
    lemma_auto_spec_u64_to_from_le_bytes();
    assert(entries.len() <= u64::MAX) by {
        broadcast use vstd::std_specs::vec::axiom_spec_len;

        assert(vstd::std_specs::vec::spec_vec_len(&s.tables.entries) == entries.len());
    }
    assert(b.subrange(0, 8) =~= spec_u64_to_le_bytes(entries.len() as u64));
    assert(p_u64(b, 0) == Some((entries.len() as u64, 8int)));
    assert(b.len() == 8 + enc_tables(entries).len());
    assert(b.subrange(8, 8 + enc_tables(entries).len() as int) =~= enc_tables(entries));
    lemma_p_tables_of_enc(b, 8, entries, Seq::<(Seq<char>, TableModel)>::empty());
    assert(Seq::<(Seq<char>, TableModel)>::empty() + abs_pairs(entries) =~= abs_pairs(entries));
    lemma_pairs_model_abs(entries);
}

} // verus!
