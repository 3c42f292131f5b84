//! Namespace-level laws of the store, stated over the same spec transitions
//! that the operations' contracts use.

use crate::store::{spec_create, spec_delete, spec_drop, spec_read, spec_write, StoreModel};
use vstd::prelude::*;

verus! {

/// Idempotent table creation: registering the same name twice in sequence is
/// observationally identical to registering it once.
pub proof fn lemma_create_table_idempotent(m: StoreModel, t: Seq<char>)
    ensures
        spec_create(spec_create(m, t), t) == spec_create(m, t),
{
}

/// Write/read round trip at the byte level: after writing bytes to a field
/// of an existing table, a read of that field observes exactly those bytes.
pub proof fn lemma_write_then_read(m: StoreModel, t: Seq<char>, f: Seq<char>, b: Seq<u8>)
    requires
        m.contains_key(t),
    ensures
        spec_read(spec_write(m, t, f, b), t, f) == Some(b),
{
}

/// Deletion idempotence: deleting a field that does not exist (or whose
/// table does not exist) leaves the namespace unchanged.
pub proof fn lemma_delete_absent_no_change(m: StoreModel, t: Seq<char>, f: Seq<char>)
    requires
        !m.contains_key(t) || !m[t].contains_key(f),
    ensures
        spec_delete(m, t, f) == m,
{
    if m.contains_key(t) {
        assert(m[t].remove(f) =~= m[t]);
        assert(m.insert(t, m[t]) =~= m);
    }
}

/// Table drop cascades: after dropping a table, the table name is gone, so
/// no read of any of its fields observes a value.
pub proof fn lemma_drop_table_cascades(m: StoreModel, t: Seq<char>, f: Seq<char>)
    ensures
        !spec_drop(m, t).contains_key(t),
        spec_read(spec_drop(m, t), t, f) is None,
{
}

/// Two writes to different fields of one table commute, and neither update
/// is lost: afterward each field reads back its own bytes, whichever order
/// the exclusive writer lock serialized the two writes in.
pub proof fn lemma_independent_writes_commute(
    m: StoreModel,
    t: Seq<char>,
    f1: Seq<char>,
    b1: Seq<u8>,
    f2: Seq<char>,
    b2: Seq<u8>,
)
    requires
        f1 != f2,
    ensures
        spec_write(spec_write(m, t, f1, b1), t, f2, b2) == spec_write(
            spec_write(m, t, f2, b2),
            t,
            f1,
            b1,
        ),
        m.contains_key(t) ==> spec_read(
            spec_write(spec_write(m, t, f1, b1), t, f2, b2),
            t,
            f1,
        ) == Some(b1),
        m.contains_key(t) ==> spec_read(
            spec_write(spec_write(m, t, f1, b1), t, f2, b2),
            t,
            f2,
        ) == Some(b2),
{
    if m.contains_key(t) {
        assert(m[t].insert(f1, b1).insert(f2, b2) =~= m[t].insert(f2, b2).insert(f1, b1));
        assert(spec_write(spec_write(m, t, f1, b1), t, f2, b2) =~= spec_write(
            spec_write(m, t, f2, b2),
            t,
            f1,
            b1,
        ));
    } else {
        assert(spec_write(spec_write(m, t, f1, b1), t, f2, b2) =~= spec_write(
            spec_write(m, t, f2, b2),
            t,
            f1,
            b1,
        ));
    }
}

} // verus!
