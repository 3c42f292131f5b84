//! The store: a namespace of tables, each a namespace of fields holding
//! opaque byte payloads. Every operation's effect is stated against a
//! mathematical map model of the whole namespace.

use crate::assoc::{AssocList, ListedValue};
use crate::codec::{convert_into_data_type, rebuild_from_data_type};
use crate::error::{Error, ErrorKind};
use vstd::prelude::*;
use vstd::slice::slice_to_vec;
use vstd::string::{StrSliceExecFns, StringExecFns};

verus! {

/// The model of one table: field name to stored bytes.
pub type TableModel = Map<Seq<char>, Seq<u8>>;

/// The model of the whole namespace: table name to table model.
pub type StoreModel = Map<Seq<char>, TableModel>;

/// A table: a namespace of fields, each holding an opaque byte payload.
#[derive(Debug)]
pub struct Table {
    pub fields: AssocList<Vec<u8>>,
}

impl View for Table {
    type V = TableModel;

    open spec fn view(&self) -> TableModel {
        self.fields@
    }
}

impl ListedValue for Table {
    open spec fn value_wf(&self) -> bool {
        self.fields.wf()
    }
}

impl Table {
    pub open spec fn wf(&self) -> bool {
        self.fields.wf()
    }

    pub fn new() -> (r: Table)
        ensures
            r.wf(),
            r@ == Map::<Seq<char>, Seq<u8>>::empty(),
            r.fields.entries@.len() == 0,
    {
        Table { fields: AssocList::new() }
    }
}

/// The store: a namespace of tables behind one ownership unit. The embedding
/// host is responsible for read/write coordination around it.
#[derive(Debug)]
pub struct Store {
    pub tables: AssocList<Table>,
}

impl View for Store {
    type V = StoreModel;

    open spec fn view(&self) -> StoreModel {
        self.tables@
    }
}

/// Registering a table name: inserts an empty table unless already present.
pub open spec fn spec_create(m: StoreModel, t: Seq<char>) -> StoreModel {
    if m.contains_key(t) {
        m
    } else {
        m.insert(t, Map::empty())
    }
}

/// Writing a field: inserts or overwrites the byte entry, if the table exists.
pub open spec fn spec_write(m: StoreModel, t: Seq<char>, f: Seq<char>, b: Seq<u8>) -> StoreModel {
    if m.contains_key(t) {
        m.insert(t, m[t].insert(f, b))
    } else {
        m
    }
}

/// Deleting a field: removes only that entry, if present.
pub open spec fn spec_delete(m: StoreModel, t: Seq<char>, f: Seq<char>) -> StoreModel {
    if m.contains_key(t) {
        m.insert(t, m[t].remove(f))
    } else {
        m
    }
}

/// Dropping a table: removes the table and with it all its fields.
pub open spec fn spec_drop(m: StoreModel, t: Seq<char>) -> StoreModel {
    m.remove(t)
}

/// The bytes a read of `(t, f)` observes, if both names are present.
pub open spec fn spec_read(m: StoreModel, t: Seq<char>, f: Seq<char>) -> Option<Seq<u8>> {
    if m.contains_key(t) && m[t].contains_key(f) {
        Some(m[t][f])
    } else {
        None
    }
}

impl Store {
    pub open spec fn wf(&self) -> bool {
        self.tables.wf()
    }

    /// A store with no tables.
    pub fn new() -> (r: Store)
        ensures
            r.wf(),
            r@ == Map::<Seq<char>, TableModel>::empty(),
            r.tables.entries@.len() == 0,
    {
        Store { tables: AssocList::new() }
    }

    /// Whether a table of this name is registered.
    pub fn has_table(&self, table: &str) -> (r: bool)
        ensures
            r == self@.contains_key(table@),
    {
        let key = String::from_str(table);
        self.tables.contains(&key)
    }

    /// Registers `table`, empty; idempotent, with no effect (and no error) if
    /// the name is already present.
    pub fn create_table(&mut self, table: &str)
        requires
            old(self).wf(),
        ensures
            final(self).wf(),
            final(self)@ == spec_create(old(self)@, table@),
    {
        // counting the characters witnesses that the name fits the
        // snapshot encoding's 64-bit length fields
        let _name_chars = table.unicode_len();
        let key = String::from_str(table);
        if self.tables.contains(&key) {
            return ;
        }
        self.tables.put(key, Table::new());
    }

    /// Inserts or overwrites the byte entry at `(table, field)`; fails with
    /// `NoSuchTable` (leaving the namespace unchanged) if `table` is absent.
    pub fn write_bytes(&mut self, table: &str, field: &str, bytes: Vec<u8>) -> (r: Result<
        (),
        Error,
    >)
        requires
            old(self).wf(),
        ensures
            final(self).wf(),
            r is Ok <==> old(self)@.contains_key(table@),
            r is Ok ==> final(self)@ == spec_write(old(self)@, table@, field@, bytes@),
            r is Err ==> final(self)@ == old(self)@ && r->Err_0.kind == ErrorKind::NoSuchTable,
    {
        // counting characters and bytes witnesses that the names and the
        // payload fit the snapshot encoding's 64-bit length fields
        let _table_chars = table.unicode_len();
        let tkey = String::from_str(table);
        match self.tables.remove_entry(&tkey) {
            Some(mut tbl) => {
                let _field_chars = field.unicode_len();
                let _payload_len = bytes.len();
                let fkey = String::from_str(field);
                tbl.fields.put(fkey, bytes);
                self.tables.put(tkey, tbl);
                proof {
                    assert(self@ =~= spec_write(old(self)@, table@, field@, bytes@));
                }
                Ok(())
            },
            None => Err(
                Error::new(ErrorKind::NoSuchTable, "attempted to append data to non-existent table"),
            ),
        }
    }

    /// Encodes `value` through the codec and stores the bytes at
    /// `(table, field)`; fails with `NoSuchTable` if `table` is absent.
    pub fn write_field<T: serde::Serialize>(
        &mut self,
        table: &str,
        field: &str,
        value: &T,
    ) -> (r: Result<(), Error>)
        requires
            old(self).wf(),
        ensures
            final(self).wf(),
            r is Ok <==> old(self)@.contains_key(table@),
            r is Ok ==> exists|b: Seq<u8>|
                final(self)@ == #[trigger] spec_write(old(self)@, table@, field@, b),
            r is Err ==> final(self)@ == old(self)@ && r->Err_0.kind == ErrorKind::NoSuchTable,
    {
        let bytes = convert_into_data_type(value);
        let ghost b = bytes@;
        match self.write_bytes(table, field, bytes) {
            Ok(u) => {
                proof {
                    assert(self@ == spec_write(old(self)@, table@, field@, b));
                }
                Ok(u)
            },
            Err(e) => Err(e),
        }
    }

    /// The bytes stored at `(table, field)`; fails with `NoSuchTable` or
    /// `NoSuchField` exactly when the respective name is absent.
    pub fn read_bytes(&self, table: &str, field: &str) -> (r: Result<Vec<u8>, Error>)
        requires
            self.wf(),
        ensures
            match r {
                Ok(b) => spec_read(self@, table@, field@) == Some(b@),
                Err(e) => spec_read(self@, table@, field@) is None && (e.kind
                    == ErrorKind::NoSuchTable <==> !self@.contains_key(table@)) && (e.kind
                    == ErrorKind::NoSuchField <==> self@.contains_key(table@)
                    && !self@[table@].contains_key(field@)),
            },
    {
        let tkey = String::from_str(table);
        match self.tables.get(&tkey) {
            Some(tbl) => {
                let fkey = String::from_str(field);
                match tbl.fields.get(&fkey) {
                    Some(v) => Ok(slice_to_vec(v.as_slice())),
                    None => Err(
                        Error::new(ErrorKind::NoSuchField, "requested table entry does not exist"),
                    ),
                }
            },
            None => Err(Error::new(ErrorKind::NoSuchTable, "requested table does not exist")),
        }
    }

    /// Reads `(table, field)` back as a concrete type: surfaces
    /// `NoSuchTable` / `NoSuchField` for an absent name, and `TypeMismatch`
    /// when the stored bytes cannot be interpreted as `T`.
    pub fn read_field<T: serde::de::DeserializeOwned>(&self, table: &str, field: &str) -> (r:
        Result<T, Error>)
        requires
            self.wf(),
        ensures
            r is Ok ==> spec_read(self@, table@, field@) is Some,
            spec_read(self@, table@, field@) is Some ==> (r is Ok || r->Err_0.kind
                == ErrorKind::TypeMismatch),
            !self@.contains_key(table@) ==> r is Err && r->Err_0.kind == ErrorKind::NoSuchTable,
            self@.contains_key(table@) && !self@[table@].contains_key(field@) ==> r is Err
                && r->Err_0.kind == ErrorKind::NoSuchField,
    {
        match self.read_bytes(table, field) {
            Ok(bytes) => rebuild_from_data_type::<T>(bytes.as_slice()),
            Err(e) => Err(e),
        }
    }

    /// Removes the field if present; a no-op (not an error) when the table
    /// or the field is absent.
    pub fn delete_field(&mut self, table: &str, field: &str)
        requires
            old(self).wf(),
        ensures
            final(self).wf(),
            final(self)@ == spec_delete(old(self)@, table@, field@),
    {
        // counting the characters witnesses that the name fits the
        // snapshot encoding's 64-bit length fields
        let _table_chars = table.unicode_len();
        let tkey = String::from_str(table);
        match self.tables.remove_entry(&tkey) {
            Some(mut tbl) => {
                let fkey = String::from_str(field);
                let removed = tbl.fields.remove_entry(&fkey);
                self.tables.put(tkey, tbl);
                proof {
                    if removed is None {
                        assert(old(self)@[table@].remove(field@) =~= old(self)@[table@]);
                    }
                    assert(self@ =~= spec_delete(old(self)@, table@, field@));
                }
            },
            None => {
                proof {
                    assert(self@ =~= spec_delete(old(self)@, table@, field@));
                }
            },
        }
    }

    /// Removes the table and all its fields; a no-op if the name is absent.
    pub fn drop_table(&mut self, table: &str)
        requires
            old(self).wf(),
        ensures
            final(self).wf(),
            final(self)@ == spec_drop(old(self)@, table@),
    {
        let tkey = String::from_str(table);
        let removed = self.tables.remove_entry(&tkey);
        proof {
            if removed is None {
                assert(old(self)@.remove(table@) =~= old(self)@);
            }
        }
    }

    /// A diagnostic rendering of the namespace: table and field names only,
    /// with no contract on the exact formatting.
    pub fn to_display_string(&self) -> String {
        let mut out = String::new();
        let n = self.tables.entries.len();
        let mut i: usize = 0;
        while i < n
            invariant
                n == self.tables.entries@.len(),
                i <= n,
            decreases n - i,
        {
            out.append(self.tables.entries[i].0.as_str());
            out.append(" {");
            let m = self.tables.entries[i].1.fields.entries.len();
            let mut j: usize = 0;
            while j < m
                invariant
                    n == self.tables.entries@.len(),
                    i < n,
                    m == self.tables.entries@[i as int].1.fields.entries@.len(),
                    j <= m,
                decreases m - j,
            {
                out.append(" ");
                out.append(self.tables.entries[i].1.fields.entries[j].0.as_str());
                out.append(";");
                j = j + 1;
            }
            out.append(" }\n");
            i = i + 1;
        }
        out
    }
}

} // verus!
