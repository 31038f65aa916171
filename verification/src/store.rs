//! The table store engine.
//!
//! A `Store` is a set of named tables, each one the full text of a persisted
//! document.  Every operation materializes the whole document, transforms it,
//! and writes the whole document back; identifiers are assigned strictly in
//! increasing order from the stored counter and never reused.

use vstd::prelude::*;
use vstd::string::StringExecFns;

use crate::codec::counter_malformed;
use crate::codec::doc_text;
use crate::codec::matches_doc;
use crate::codec::obj_text;
use crate::codec::parse_document;
use crate::codec::render_document;
use crate::codec::render_records_object;
use crate::codec::render_wrapped;
use crate::digits::u64_dec;
use crate::doc::append_model;
use crate::doc::base_model;
use crate::doc::batch_model;
use crate::doc::empty_model;
use crate::doc::has_key;
use crate::doc::key_at;
use crate::doc::key_ok;
use crate::doc::key_value;
use crate::doc::lemma_base_model_wf;
use crate::doc::lemma_batch_model_snoc;
use crate::doc::name_ok;
use crate::doc::lemma_key_at_some;
use crate::doc::record_views;
use crate::doc::remove_key;
use crate::doc::RecordEntry;
use crate::doc::DocModel;
use crate::doc::RecordText;
use crate::doc::TableData;
use crate::errors::Error;

verus! {

/// One table: its name and the full text of its document.
struct TableFile {
    name: String,
    content: String,
}

/// The names of a table sequence are pairwise distinct.
spec fn names_distinct(ts: Seq<TableFile>) -> bool {
    forall|a: int, b: int|
        0 <= a < b < ts.len() ==> (#[trigger] ts[a]).name@ != (#[trigger] ts[b]).name@
}

/// The mapping from table names to document texts that a table sequence
/// holds.
spec fn contents_of(ts: Seq<TableFile>) -> Map<Seq<char>, Seq<char>>
    decreases ts.len(),
{
    if ts.len() == 0 {
        Map::empty()
    } else {
        contents_of(ts.drop_last()).insert(ts.last().name@, ts.last().content@)
    }
}

proof fn lemma_contents_dom(ts: Seq<TableFile>, k: Seq<char>)
    ensures
        contents_of(ts).contains_key(k) <==> exists|i: int|
            0 <= i < ts.len() && (#[trigger] ts[i]).name@ == k,
    decreases ts.len(),
{
    if ts.len() > 0 {
        let dl = ts.drop_last();
        lemma_contents_dom(dl, k);
        if ts.last().name@ == k {
            assert(ts[ts.len() - 1].name@ == k);
        } else {
            if contents_of(ts).contains_key(k) {
                let i = choose|i: int| 0 <= i < dl.len() && (#[trigger] dl[i]).name@ == k;
                assert(ts[i] == dl[i]);
            }
            if exists|i: int| 0 <= i < ts.len() && (#[trigger] ts[i]).name@ == k {
                let i = choose|i: int| 0 <= i < ts.len() && (#[trigger] ts[i]).name@ == k;
                assert(dl[i] == ts[i]);
            }
        }
    }
}

proof fn lemma_contents_at(ts: Seq<TableFile>, i: int)
    requires
        names_distinct(ts),
        0 <= i < ts.len(),
    ensures
        contents_of(ts).contains_key(ts[i].name@),
        contents_of(ts)[ts[i].name@] == ts[i].content@,
    decreases ts.len(),
{
    if i == ts.len() - 1 {
    } else {
        let dl = ts.drop_last();
        assert(forall|a: int| 0 <= a < dl.len() ==> dl[a] == #[trigger] ts[a]);
        lemma_contents_at(dl, i);
        assert(ts.last().name@ != ts[i].name@);
    }
}

proof fn lemma_contents_push(ts: Seq<TableFile>, f: TableFile)
    ensures
        contents_of(ts.push(f)) == contents_of(ts).insert(f.name@, f.content@),
{
    assert(ts.push(f).drop_last() =~= ts);
    assert(ts.push(f).last() == f);
}

proof fn lemma_contents_update(ts: Seq<TableFile>, i: int, f: TableFile)
    requires
        names_distinct(ts),
        0 <= i < ts.len(),
        f.name@ == ts[i].name@,
    ensures
        contents_of(ts.update(i, f)) == contents_of(ts).insert(f.name@, f.content@),
    decreases ts.len(),
{
    let us = ts.update(i, f);
    if i == ts.len() - 1 {
        assert(us.drop_last() =~= ts.drop_last());
        assert(us.last() == f);
        assert(contents_of(ts.drop_last()).insert(ts.last().name@, ts.last().content@).insert(
            f.name@,
            f.content@,
        ) =~= contents_of(ts.drop_last()).insert(f.name@, f.content@));
    } else {
        let dl = ts.drop_last();
        assert(forall|a: int| 0 <= a < dl.len() ==> dl[a] == #[trigger] ts[a]);
        assert(us.drop_last() =~= dl.update(i, f));
        assert(us.last() == ts.last());
        lemma_contents_update(dl, i, f);
        assert(f.name@ != ts.last().name@);
        assert(contents_of(dl).insert(f.name@, f.content@).insert(
            ts.last().name@,
            ts.last().content@,
        ) =~= contents_of(dl).insert(ts.last().name@, ts.last().content@).insert(
            f.name@,
            f.content@,
        ));
    }
}

proof fn lemma_contents_remove(ts: Seq<TableFile>, i: int)
    requires
        names_distinct(ts),
        0 <= i < ts.len(),
    ensures
        contents_of(ts.remove(i)) == contents_of(ts).remove(ts[i].name@),
    decreases ts.len(),
{
    let rs = ts.remove(i);
    let dl = ts.drop_last();
    assert(forall|a: int| 0 <= a < dl.len() ==> dl[a] == #[trigger] ts[a]);
    if i == ts.len() - 1 {
        assert(rs =~= dl);
        lemma_contents_dom(dl, ts[i].name@);
        assert(forall|a: int| 0 <= a < dl.len() ==> (#[trigger] dl[a]).name@ != ts[i].name@);
        assert(!contents_of(dl).contains_key(ts[i].name@));
        assert(contents_of(dl).insert(ts[i].name@, ts[i].content@).remove(ts[i].name@)
            =~= contents_of(dl));
    } else {
        assert(rs.drop_last() =~= dl.remove(i));
        assert(rs.last() == ts.last());
        lemma_contents_remove(dl, i);
        assert(ts[i].name@ != ts.last().name@);
        assert(contents_of(dl).remove(ts[i].name@).insert(ts.last().name@, ts.last().content@)
            =~= contents_of(dl).insert(ts.last().name@, ts.last().content@).remove(ts[i].name@));
    }
}

/// The stored contents after a create-if-absent of table `t` with record
/// text `v`.
pub open spec fn create_effect(c: Map<Seq<char>, Seq<char>>, t: Seq<char>, v: Seq<char>) -> Map<
    Seq<char>,
    Seq<char>,
> {
    if c.contains_key(t) {
        c
    } else {
        c.insert(t, doc_text(base_model(t, v)))
    }
}

/// The stored contents after an unconditional overwrite of table `t` with
/// record text `v`.
pub open spec fn update_effect(c: Map<Seq<char>, Seq<char>>, t: Seq<char>, v: Seq<char>) -> Map<
    Seq<char>,
    Seq<char>,
> {
    c.insert(t, doc_text(base_model(t, v)))
}

/// Every record of the mapping is either represented among the kept entries
/// by its key, or the predicate can return false on its value.
pub open spec fn kept_keys_cover<F: Fn(&RecordText) -> bool>(
    predicate: F,
    res: Seq<RecordEntry>,
    records: Seq<(Seq<char>, Seq<char>)>,
) -> bool {
    forall|j: int|
        0 <= j < records.len() ==> (exists|i: int|
            0 <= i < res.len() && (#[trigger] res[i]).key@ == (#[trigger] records[j]).0) || (
        exists|w: RecordText| w@ == records[j].1 && call_ensures(predicate, (&w,), false))
}

/// An in-memory table store: one document text per table name.
pub struct Store {
    tables: Vec<TableFile>,
}

impl Store {
    /// Validity of the store: table names are pairwise distinct.  `new`
    /// establishes it and every operation preserves it.
    pub closed spec fn wf(&self) -> bool {
        names_distinct(self.tables@)
    }

    /// The mapping from table names to stored document texts.
    pub closed spec fn contents(&self) -> Map<Seq<char>, Seq<char>> {
        contents_of(self.tables@)
    }

    /// The stored table names, in creation order.
    pub closed spec fn names(&self) -> Seq<Seq<char>> {
        self.tables@.map_values(|t: TableFile| t.name@)
    }

    /// A store with no tables.
    pub fn new() -> (r: Store)
        ensures
            r.wf(),
            r.contents() == Map::<Seq<char>, Seq<char>>::empty(),
            r.names() == Seq::<Seq<char>>::empty(),
    {
        let r = Store { tables: Vec::new() };
        proof {
            assert(r.names() =~= Seq::<Seq<char>>::empty());
        }
        r
    }

    /// The position of `table` among the stored tables.
    fn find_table(&self, table: &str) -> (r: Option<usize>)
        requires
            self.wf(),
        ensures
            r matches Some(i) ==> i < self.tables@.len() && self.tables@[i as int].name@ == table@,
            r is Some <==> self.contents().contains_key(table@),
    {
        proof {
            lemma_contents_dom(self.tables@, table@);
        }
        let key = String::from_str(table);
        let n = self.tables.len();
        let mut i: usize = 0;
        while i < n
            invariant
                n == self.tables@.len(),
                0 <= i <= n,
                key@ == table@,
                forall|a: int| 0 <= a < i ==> (#[trigger] self.tables@[a]).name@ != table@,
            decreases n - i,
        {
            if self.tables[i].name == key {
                proof {
                    lemma_contents_dom(self.tables@, table@);
                    assert(self.tables@[i as int].name@ == table@);
                    assert(exists|a: int|
                        0 <= a < self.tables@.len() && (#[trigger] self.tables@[a]).name@
                            == table@);
                }
                return Some(i);
            }
            i = i + 1;
        }
        None
    }

    /// Whether a table of this name exists.
    pub fn table_exists(&self, table: &str) -> (r: bool)
        requires
            self.wf(),
        ensures
            r == self.contents().contains_key(table@),
    {
        self.find_table(table).is_some()
    }

    /// The names of all stored tables, in creation order; empty for a store
    /// that holds nothing.
    pub fn list_tables(&self) -> (r: Vec<String>)
        requires
            self.wf(),
        ensures
            r@.len() == self.names().len(),
            forall|i: int| 0 <= i < r@.len() ==> (#[trigger] r@[i])@ == self.names()[i],
            forall|k: Seq<char>| self.contents().contains_key(k) <==> self.names().contains(k),
            forall|i: int, j: int| 0 <= i < j < r@.len() ==> (#[trigger] r@[i])@ != (
            #[trigger] r@[j])@,
    {
        proof {
            assert forall|k: Seq<char>|
                self.contents().contains_key(k) <==> self.names().contains(k) by {
                lemma_contents_dom(self.tables@, k);
                if self.contents().contains_key(k) {
                    let i = choose|i: int|
                        0 <= i < self.tables@.len() && (#[trigger] self.tables@[i]).name@ == k;
                    assert(self.names()[i] == k);
                    assert(self.names().contains(k));
                }
                if self.names().contains(k) {
                    let i = choose|i: int| 0 <= i < self.names().len() && self.names()[i] == k;
                    assert(self.tables@[i].name@ == k);
                    assert(exists|a: int|
                        0 <= a < self.tables@.len() && (#[trigger] self.tables@[a]).name@ == k);
                }
            }
        }
        let n = self.tables.len();
        let mut r: Vec<String> = Vec::new();
        let mut i: usize = 0;
        while i < n
            invariant
                n == self.tables@.len(),
                0 <= i <= n,
                r@.len() == i,
                forall|a: int| 0 <= a < i ==> (#[trigger] r@[a])@ == self.tables@[a].name@,
            decreases n - i,
        {
            r.push(self.tables[i].name.clone());
            i = i + 1;
        }
        r
    }

    /// The raw persisted text of a table.  Fails with `NoSuchTable` if the
    /// table does not exist.
    pub fn read_table(&self, table: &str) -> (r: Result<String, Error>)
        requires
            self.wf(),
        ensures
            r is Ok <==> self.contents().contains_key(table@),
            r matches Ok(text) ==> text@ == self.contents()[table@],
            r matches Err(e) ==> e matches Error::NoSuchTable(nm) && nm@ == table@,
    {
        match self.find_table(table) {
            Some(i) => {
                proof {
                    lemma_contents_at(self.tables@, i as int);
                }
                Ok(self.tables[i].content.clone())
            },
            None => Err(Error::NoSuchTable(String::from_str(table))),
        }
    }

    /// Overwrites (or creates) the stored text of `table` with `content`.
    fn put_raw(&mut self, table: &str, content: String)
        requires
            old(self).wf(),
        ensures
            final(self).wf(),
            final(self).contents() == old(self).contents().insert(table@, content@),
            final(self).names() == if old(self).contents().contains_key(table@) {
                old(self).names()
            } else {
                old(self).names().push(table@)
            },
    {
        let ghost ts0 = self.tables@;
        match self.find_table(table) {
            Some(i) => {
                let ghost f0 = self.tables@[i as int];
                self.tables[i].content = content;
                proof {
                    let f = self.tables@[i as int];
                    assert(self.tables@ =~= ts0.update(i as int, f));
                    lemma_contents_update(ts0, i as int, f);
                    assert(self.names() =~= old(self).names());
                }
            },
            None => {
                let f = TableFile { name: String::from_str(table), content };
                let ghost fv = f;
                self.tables.push(f);
                proof {
                    lemma_contents_push(ts0, fv);
                    lemma_contents_dom(ts0, table@);
                    assert(self.names() =~= old(self).names().push(table@));
                }
            },
        }
    }

    /// Stores raw text as the body of `table` if the table does not exist;
    /// succeeds as a no-op otherwise.
    pub fn store_json(&mut self, table: &str, json: &str) -> (r: Result<(), Error>)
        requires
            old(self).wf(),
        ensures
            final(self).wf(),
            r is Ok,
            final(self).contents() == if old(self).contents().contains_key(table@) {
                old(self).contents()
            } else {
                old(self).contents().insert(table@, json@)
            },
            final(self).names() == if old(self).contents().contains_key(table@) {
                old(self).names()
            } else {
                old(self).names().push(table@)
            },
    {
        if self.table_exists(table) {
            return Ok(());
        }
        self.put_raw(table, String::from_str(json));
        Ok(())
    }

    /// Unconditionally overwrites the body of `table` with raw text,
    /// creating the table if needed.
    pub fn update_json(&mut self, table: &str, json: &str) -> (r: Result<(), Error>)
        requires
            old(self).wf(),
        ensures
            final(self).wf(),
            r is Ok,
            final(self).contents() == old(self).contents().insert(table@, json@),
            final(self).names() == if old(self).contents().contains_key(table@) {
                old(self).names()
            } else {
                old(self).names().push(table@)
            },
    {
        self.put_raw(table, String::from_str(json));
        Ok(())
    }

    /// Creates `table` holding `value` under key `"0"` with the counter at
    /// `1`; succeeds as a no-op if the table already exists.
    ///
    /// The name is embedded in the document verbatim, with no escaping or
    /// normalization.  For a name free of quote characters the stored text
    /// parses back to the base document (the last ensures clause); a name
    /// holding a quote stores a document that no later read can parse, so
    /// `get_table` and its kin report `Codec` for such a table.
    pub fn create_table(&mut self, table: &str, value: &RecordText) -> (r: Result<(), Error>)
        requires
            old(self).wf(),
            value.wf(),
        ensures
            final(self).wf(),
            r is Ok,
            final(self).contents() == create_effect(old(self).contents(), table@, value@),
            final(self).names() == if old(self).contents().contains_key(table@) {
                old(self).names()
            } else {
                old(self).names().push(table@)
            },
            !old(self).contents().contains_key(table@) && name_ok(table@) ==> matches_doc(
                final(self).contents()[table@],
                base_model(table@, value@),
            ),
    {
        if self.table_exists(table) {
            return Ok(());
        }
        let doc = TableData::base(table, value.duplicate());
        let text = render_document(&doc);
        self.put_raw(table, text);
        proof {
            if name_ok(table@) {
                lemma_base_model_wf(table@, value@);
            }
        }
        Ok(())
    }

    /// Creates `table` with no records and the counter at `0`; succeeds as a
    /// no-op if the table already exists.  As with `create_table`, the name
    /// is embedded verbatim: only a quote-free name yields a table that
    /// parses back.
    pub fn create_empty_table(&mut self, table: &str) -> (r: Result<(), Error>)
        requires
            old(self).wf(),
        ensures
            final(self).wf(),
            r is Ok,
            final(self).contents() == if old(self).contents().contains_key(table@) {
                old(self).contents()
            } else {
                old(self).contents().insert(table@, doc_text(empty_model(table@)))
            },
            final(self).names() == if old(self).contents().contains_key(table@) {
                old(self).names()
            } else {
                old(self).names().push(table@)
            },
            !old(self).contents().contains_key(table@) && name_ok(table@) ==> matches_doc(
                final(self).contents()[table@],
                empty_model(table@),
            ),
    {
        if self.table_exists(table) {
            return Ok(());
        }
        let doc = TableData::empty_doc(table);
        let text = render_document(&doc);
        self.put_raw(table, text);
        Ok(())
    }

    /// Unconditionally overwrites `table` with a document holding `value`
    /// under key `"0"` and the counter at `1`, creating the table if needed.
    /// As with `create_table`, the name is embedded verbatim: only a
    /// quote-free name yields a table that parses back.
    pub fn update_table(&mut self, table: &str, value: &RecordText) -> (r: Result<(), Error>)
        requires
            old(self).wf(),
            value.wf(),
        ensures
            final(self).wf(),
            r is Ok,
            final(self).contents() == update_effect(old(self).contents(), table@, value@),
            final(self).names() == if old(self).contents().contains_key(table@) {
                old(self).names()
            } else {
                old(self).names().push(table@)
            },
            name_ok(table@) ==> matches_doc(
                final(self).contents()[table@],
                base_model(table@, value@),
            ),
    {
        let doc = TableData::base(table, value.duplicate());
        let text = render_document(&doc);
        self.put_raw(table, text);
        proof {
            if name_ok(table@) {
                lemma_base_model_wf(table@, value@);
            }
        }
        Ok(())
    }

    /// Removes the table's backing entry.  Fails with an I/O error if the
    /// table does not exist, as removing a missing file would.
    pub fn drop_table(&mut self, table: &str) -> (r: Result<(), Error>)
        requires
            old(self).wf(),
        ensures
            final(self).wf(),
            r is Ok <==> old(self).contents().contains_key(table@),
            r is Ok ==> final(self).contents() == old(self).contents().remove(table@),
            r is Ok ==> exists|i: int|
                0 <= i < old(self).names().len() && old(self).names()[i] == table@
                    && final(self).names() == old(self).names().remove(i),
            r matches Err(e) ==> e is Io && *final(self) == *old(self),
    {
        let ghost ts0 = self.tables@;
        match self.find_table(table) {
            Some(i) => {
                self.tables.remove(i);
                proof {
                    lemma_contents_remove(ts0, i as int);
                    assert(self.names() =~= old(self).names().remove(i as int));
                    assert(old(self).names()[i as int] == table@);
                }
                Ok(())
            },
            None => {
                proof {
                    reveal_strlit("cannot remove a table that does not exist");
                }
                Err(Error::Io(String::from_str("cannot remove a table that does not exist")))
            },
        }
    }

    /// Reads and parses the table's document, returning its position and the
    /// parsed document.
    fn load(&self, table: &str) -> (r: Result<(usize, TableData), Error>)
        requires
            self.wf(),
        ensures
            r matches Ok(p) ==> self.contents().contains_key(table@) && p.1@.wf() && matches_doc(
                self.contents()[table@],
                p.1@,
            ) && (forall|m: DocModel| #[trigger] matches_doc(self.contents()[table@], m) ==> p.1@
                == m),
            r is Ok <==> (self.contents().contains_key(table@) && exists|m: DocModel| #[trigger]
                matches_doc(self.contents()[table@], m)),
            r matches Err(e) ==> (e is NoSuchTable <==> !self.contents().contains_key(table@)) && (
            e matches Error::NoSuchTable(nm) ==> nm@ == table@) && (e is NoSuchTable || e is Codec
                || e is ParseInt),
            r matches Err(e) ==> (e is ParseInt <==> (self.contents().contains_key(table@)
                && counter_malformed(self.contents()[table@]))),
            r is Ok ==> !counter_malformed(self.contents()[table@]),
    {
        match self.find_table(table) {
            None => Err(Error::NoSuchTable(String::from_str(table))),
            Some(i) => {
                proof {
                    lemma_contents_at(self.tables@, i as int);
                }
                match parse_document(self.tables[i].content.as_str()) {
                    Ok(d) => {
                        proof {
                            assert(matches_doc(self.contents()[table@], d@));
                        }
                        Ok((i, d))
                    },
                    Err(e) => Err(e),
                }
            },
        }
    }

    /// Reads and parses the table into a document.  Fails with `NoSuchTable`
    /// if the table is absent, with `Codec` or `ParseInt` if the stored text
    /// is not a canonical document.
    pub fn get_table(&self, table: &str) -> (r: Result<TableData, Error>)
        requires
            self.wf(),
        ensures
            r matches Ok(d) ==> self.contents().contains_key(table@) && d@.wf() && matches_doc(
                self.contents()[table@],
                d@,
            ) && (forall|m: DocModel| #[trigger] matches_doc(self.contents()[table@], m) ==> d@
                == m),
            r is Ok <==> (self.contents().contains_key(table@) && exists|m: DocModel| #[trigger]
                matches_doc(self.contents()[table@], m)),
            r matches Err(e) ==> (e is NoSuchTable <==> !self.contents().contains_key(table@)) && (
            e matches Error::NoSuchTable(nm) ==> nm@ == table@) && (e is NoSuchTable || e is Codec
                || e is ParseInt),
            r matches Err(e) ==> (e is ParseInt <==> (self.contents().contains_key(table@)
                && counter_malformed(self.contents()[table@]))),
    {
        match self.load(table) {
            Ok((_, d)) => Ok(d),
            Err(e) => Err(e),
        }
    }

    /// The record mapping of the table's document.
    pub fn get_table_records(&self, table: &str) -> (r: Result<Vec<RecordEntry>, Error>)
        requires
            self.wf(),
        ensures
            r matches Ok(v) ==> self.contents().contains_key(table@) && (forall|m: DocModel|
                #[trigger] matches_doc(self.contents()[table@], m) ==> v@.len() == m.records.len()
                    && (forall|i: int|
                    0 <= i < v@.len() ==> #[trigger] m.records[i] == (v@[i].key@, v@[i].value@))),
            r is Ok <==> (self.contents().contains_key(table@) && exists|m: DocModel| #[trigger]
                matches_doc(self.contents()[table@], m)),
            r matches Err(e) ==> (e is NoSuchTable <==> !self.contents().contains_key(table@)) && (
            e matches Error::NoSuchTable(nm) ==> nm@ == table@) && (e is NoSuchTable || e is Codec
                || e is ParseInt),
            r matches Err(e) ==> (e is ParseInt <==> (self.contents().contains_key(table@)
                && counter_malformed(self.contents()[table@]))),
    {
        match self.load(table) {
            Ok((_, d)) => {
                proof {
                    assert forall|m: DocModel|
                        matches_doc(self.contents()[table@], m) implies d.records@.len()
                        == m.records.len() && (forall|i: int|
                        0 <= i < d.records@.len() ==> #[trigger] m.records[i] == (
                        d.records@[i].key@,
                        d.records@[i].value@,
                        )) by {
                        assert(m == d@);
                        assert(forall|i: int|
                            0 <= i < d@.records.len() ==> #[trigger] d@.records[i] == (
                            d.records@[i].key@,
                            d.records@[i].value@,
                            ));
                    }
                }
                Ok(d.records)
            },
            Err(e) => Err(e),
        }
    }

    /// The number of records in the table's document.
    pub fn count_records(&self, table: &str) -> (r: Result<usize, Error>)
        requires
            self.wf(),
        ensures
            r matches Ok(c) ==> self.contents().contains_key(table@) && (forall|m: DocModel|
                #[trigger] matches_doc(self.contents()[table@], m) ==> c == m.records.len()),
            r is Ok <==> (self.contents().contains_key(table@) && exists|m: DocModel| #[trigger]
                matches_doc(self.contents()[table@], m)),
            r matches Err(e) ==> (e is NoSuchTable <==> !self.contents().contains_key(table@)) && (
            e matches Error::NoSuchTable(nm) ==> nm@ == table@) && (e is NoSuchTable || e is Codec
                || e is ParseInt),
            r matches Err(e) ==> (e is ParseInt <==> (self.contents().contains_key(table@)
                && counter_malformed(self.contents()[table@]))),
    {
        match self.load(table) {
            Ok((_, d)) => Ok(d.count()),
            Err(e) => Err(e),
        }
    }

    /// The single record under key `id`.  Fails with `NoSuchKey` if the key
    /// is absent; the stored document is not changed.
    pub fn find(&self, table: &str, id: &str) -> (r: Result<RecordText, Error>)
        requires
            self.wf(),
        ensures
            r matches Ok(v) ==> v.wf() && self.contents().contains_key(table@) && (forall|
                m: DocModel,
            |
                #[trigger] matches_doc(self.contents()[table@], m) ==> has_key(m.records, id@)
                    && v@ == key_value(m.records, id@)),
            r is Ok <==> (self.contents().contains_key(table@) && exists|m: DocModel| #[trigger]
                matches_doc(self.contents()[table@], m) && has_key(m.records, id@)),
            r matches Err(e) ==> (e is NoSuchTable <==> !self.contents().contains_key(table@)) && (
            e matches Error::NoSuchTable(nm) ==> nm@ == table@) && (e is NoSuchKey <==> (
            self.contents().contains_key(table@) && exists|m: DocModel| #[trigger] matches_doc(
                self.contents()[table@],
                m,
            ) && !has_key(m.records, id@))) && (e is NoSuchTable || e is Codec || e is ParseInt
                || e is NoSuchKey),
            r matches Err(e) ==> (e is ParseInt <==> (self.contents().contains_key(table@)
                && counter_malformed(self.contents()[table@]))),
    {
        match self.load(table) {
            Err(e) => Err(e),
            Ok((_, d)) => {
                match d.get_record(id) {
                    Some(v) => {
                        proof {
                            lemma_key_at_some(d@.records, id@);
                        }
                        Ok(v)
                    },
                    None => Err(Error::NoSuchKey),
                }
            },
        }
    }

    /// The text of the single record under key `id`.
    pub fn json_find(&self, table: &str, id: &str) -> (r: Result<String, Error>)
        requires
            self.wf(),
        ensures
            r matches Ok(text) ==> self.contents().contains_key(table@) && (forall|m: DocModel|
                #[trigger] matches_doc(self.contents()[table@], m) ==> has_key(m.records, id@)
                    && text@ == key_value(m.records, id@)),
            r is Ok <==> (self.contents().contains_key(table@) && exists|m: DocModel| #[trigger]
                matches_doc(self.contents()[table@], m) && has_key(m.records, id@)),
            r matches Err(e) ==> (e is NoSuchTable <==> !self.contents().contains_key(table@)) && (
            e matches Error::NoSuchTable(nm) ==> nm@ == table@) && (e is NoSuchKey <==> (
            self.contents().contains_key(table@) && exists|m: DocModel| #[trigger] matches_doc(
                self.contents()[table@],
                m,
            ) && !has_key(m.records, id@))) && (e is NoSuchTable || e is Codec || e is ParseInt
                || e is NoSuchKey),
            r matches Err(e) ==> (e is ParseInt <==> (self.contents().contains_key(table@)
                && counter_malformed(self.contents()[table@]))),
    {
        match self.find(table, id) {
            Ok(v) => Ok(String::from_str(v.as_str())),
            Err(e) => Err(e),
        }
    }

    /// The whole record mapping of the table, rendered as one JSON object.
    pub fn json_table_records(&self, table: &str) -> (r: Result<String, Error>)
        requires
            self.wf(),
        ensures
            r matches Ok(text) ==> self.contents().contains_key(table@) && (forall|m: DocModel|
                #[trigger] matches_doc(self.contents()[table@], m) ==> text@ == obj_text(
                    m.records,
                )),
            r is Ok <==> (self.contents().contains_key(table@) && exists|m: DocModel| #[trigger]
                matches_doc(self.contents()[table@], m)),
            r matches Err(e) ==> (e is NoSuchTable <==> !self.contents().contains_key(table@)) && (
            e matches Error::NoSuchTable(nm) ==> nm@ == table@) && (e is NoSuchTable || e is Codec
                || e is ParseInt),
            r matches Err(e) ==> (e is ParseInt <==> (self.contents().contains_key(table@)
                && counter_malformed(self.contents()[table@]))),
    {
        match self.load(table) {
            Ok((_, d)) => {
                let text = render_records_object(&d.records);
                proof {
                    assert(d.records@.map_values(|e: RecordEntry| (e.key@, e.value@))
                        =~= d@.records);
                }
                Ok(text)
            },
            Err(e) => Err(e),
        }
    }

    /// Inserts `value` under the current counter value and advances the
    /// counter.  Fails with `ParseInt` if no further identifier can be
    /// assigned.
    pub fn append_records(&mut self, table: &str, value: &RecordText) -> (r: Result<(), Error>)
        requires
            old(self).wf(),
            value.wf(),
        ensures
            final(self).wf(),
            r is Err ==> *final(self) == *old(self),
            r matches Err(e) ==> (e is NoSuchTable <==> !old(self).contents().contains_key(table@))
                && (e matches Error::NoSuchTable(nm) ==> nm@ == table@) && (e is NoSuchTable
                || e is Codec || e is ParseInt),
            r is Ok <==> (old(self).contents().contains_key(table@) && exists|m: DocModel|
                #[trigger] matches_doc(old(self).contents()[table@], m) && m.next_id < u64::MAX),
            r matches Err(e) ==> (e is ParseInt <==> (old(self).contents().contains_key(table@)
                && (counter_malformed(old(self).contents()[table@]) || (exists|m: DocModel|
                #[trigger] matches_doc(old(self).contents()[table@], m) && m.next_id
                    == u64::MAX)))),
            forall|m: DocModel|
                #[trigger] matches_doc(old(self).contents()[table@], m) && old(self).contents().contains_key(table@) && m.next_id < u64::MAX ==> final(self).contents() == old(self).contents().insert(
                    table@,
                    doc_text(append_model(m, value@)),
                ) && final(self).names() == old(self).names(),
    {
        match self.load(table) {
            Err(e) => Err(e),
            Ok((_, mut doc)) => {
                if doc.next_id == u64::MAX {
                    return Err(Error::ParseInt(u64_dec(doc.next_id)));
                }
                let ghost m0 = doc@;
                doc.append_record(value.duplicate());
                let text = render_document(&doc);
                self.put_raw(table, text);
                Ok(())
            },
        }
    }

    /// Inserts a batch of records under consecutive identifiers starting at
    /// the current counter value, with one read and one write.
    pub fn batch_insert(&mut self, table: &str, values: Vec<RecordText>) -> (r: Result<(), Error>)
        requires
            old(self).wf(),
            forall|i: int| 0 <= i < values@.len() ==> (#[trigger] values@[i]).wf(),
        ensures
            final(self).wf(),
            r is Err ==> *final(self) == *old(self),
            r matches Err(e) ==> (e is NoSuchTable <==> !old(self).contents().contains_key(table@))
                && (e matches Error::NoSuchTable(nm) ==> nm@ == table@) && (e is NoSuchTable
                || e is Codec || e is ParseInt),
            r is Ok <==> (old(self).contents().contains_key(table@) && exists|m: DocModel|
                #[trigger] matches_doc(old(self).contents()[table@], m) && m.next_id
                    + values@.len() <= u64::MAX),
            r matches Err(e) ==> (e is ParseInt <==> (old(self).contents().contains_key(table@)
                && (counter_malformed(old(self).contents()[table@]) || (exists|m: DocModel|
                #[trigger] matches_doc(old(self).contents()[table@], m) && m.next_id
                    + values@.len() > u64::MAX)))),
            forall|m: DocModel|
                #[trigger] matches_doc(old(self).contents()[table@], m) && old(self).contents().contains_key(table@) && m.next_id + values@.len() <= u64::MAX
                    ==> final(self).contents() == old(self).contents().insert(
                    table@,
                    doc_text(batch_model(m, record_views(values@))),
                ) && final(self).names() == old(self).names(),
    {
        match self.load(table) {
            Err(e) => Err(e),
            Ok((_, mut doc)) => {
                let len = values.len();
                if len as u64 > u64::MAX - doc.next_id {
                    return Err(Error::ParseInt(u64_dec(doc.next_id)));
                }
                let ghost m0 = doc@;
                let mut i: usize = 0;
                while i < len
                    invariant
                        len == values@.len(),
                        0 <= i <= len,
                        forall|a: int| 0 <= a < values@.len() ==> (#[trigger] values@[a]).wf(),
                        doc@ == batch_model(m0, record_views(values@.take(i as int))),
                        doc@.next_id == m0.next_id + i,
                        m0.next_id + len <= u64::MAX,
                        m0.wf(),
                        doc@.wf(),
                    decreases len - i,
                {
                    let ghost before = doc@;
                    doc.append_record(values[i].duplicate());
                    proof {
                        assert(record_views(values@.take(i as int + 1)) =~= record_views(
                            values@.take(i as int),
                        ).push(values@[i as int]@));
                        lemma_batch_model_snoc(
                            m0,
                            record_views(values@.take(i as int)),
                            values@[i as int]@,
                        );
                    }
                    i = i + 1;
                }
                proof {
                    assert(values@.take(len as int) =~= values@);
                }
                let text = render_document(&doc);
                self.put_raw(table, text);
                Ok(())
            },
        }
    }

    /// Replaces the record at an existing key; the counter is not changed.
    /// Fails with `NoSuchKey` if the key is absent.
    pub fn update_record(&mut self, table: &str, id: &str, value: &RecordText) -> (r: Result<
        (),
        Error,
    >)
        requires
            old(self).wf(),
            value.wf(),
        ensures
            final(self).wf(),
            r is Err ==> *final(self) == *old(self),
            r matches Err(e) ==> (e is NoSuchTable <==> !old(self).contents().contains_key(table@))
                && (e matches Error::NoSuchTable(nm) ==> nm@ == table@) && (e is NoSuchKey <==> (
            old(self).contents().contains_key(table@) && exists|m: DocModel| #[trigger]
                matches_doc(old(self).contents()[table@], m) && !has_key(m.records, id@))) && (
            e is NoSuchTable || e is Codec || e is ParseInt || e is NoSuchKey),
            r matches Err(e) ==> (e is ParseInt <==> (old(self).contents().contains_key(table@)
                && counter_malformed(old(self).contents()[table@]))),
            r is Ok <==> (old(self).contents().contains_key(table@) && exists|m: DocModel|
                #[trigger] matches_doc(old(self).contents()[table@], m) && has_key(
                    m.records,
                    id@,
                )),
            forall|m: DocModel|
                #[trigger] matches_doc(old(self).contents()[table@], m) && old(self).contents().contains_key(table@) && has_key(m.records, id@) ==> final(self).contents() == old(self).contents().insert(
                    table@,
                    doc_text(
                        DocModel {
                            records: m.records.update(key_at(m.records, id@), (id@, value@)),
                            ..m
                        },
                    ),
                ) && final(self).names() == old(self).names(),
    {
        match self.load(table) {
            Err(e) => Err(e),
            Ok((_, mut doc)) => {
                let ghost m0 = doc@;
                let hit = doc.set_record(id, value.duplicate());
                if !hit {
                    return Err(Error::NoSuchKey);
                }
                proof {
                    lemma_key_at_some(m0.records, id@);
                    assert(key_ok(id@));
                }
                let text = render_document(&doc);
                self.put_raw(table, text);
                Ok(())
            },
        }
    }

    /// Empties the record mapping and resets the counter to `0`, keeping the
    /// table in existence.
    pub fn clear_table(&mut self, table: &str) -> (r: Result<(), Error>)
        requires
            old(self).wf(),
        ensures
            final(self).wf(),
            r is Err ==> *final(self) == *old(self),
            r matches Err(e) ==> (e is NoSuchTable <==> !old(self).contents().contains_key(table@))
                && (e matches Error::NoSuchTable(nm) ==> nm@ == table@) && (e is NoSuchTable
                || e is Codec || e is ParseInt),
            r matches Err(e) ==> (e is ParseInt <==> (old(self).contents().contains_key(table@)
                && counter_malformed(old(self).contents()[table@]))),
            r is Ok <==> (old(self).contents().contains_key(table@) && exists|m: DocModel|
                #[trigger] matches_doc(old(self).contents()[table@], m)),
            forall|m: DocModel|
                #[trigger] matches_doc(old(self).contents()[table@], m) && old(self).contents().contains_key(table@) ==> final(self).contents() == old(self).contents().insert(
                    table@,
                    doc_text(DocModel { name: m.name, next_id: 0, records: Seq::empty() }),
                ) && final(self).names() == old(self).names(),
    {
        match self.load(table) {
            Err(e) => Err(e),
            Ok((_, mut doc)) => {
                doc.clear();
                let text = render_document(&doc);
                self.put_raw(table, text);
                Ok(())
            },
        }
    }

    /// Removes the record at `id` from the mapping (a no-op if absent) and
    /// persists the result through the same write path as `update_table`:
    /// the remaining mapping becomes the single record under key `"0"`.
    pub fn delete(&mut self, table: &str, id: &str) -> (r: Result<(), Error>)
        requires
            old(self).wf(),
        ensures
            final(self).wf(),
            r is Err ==> *final(self) == *old(self),
            r matches Err(e) ==> (e is NoSuchTable <==> !old(self).contents().contains_key(table@))
                && (e matches Error::NoSuchTable(nm) ==> nm@ == table@) && (e is NoSuchTable
                || e is Codec || e is ParseInt),
            r matches Err(e) ==> (e is ParseInt <==> (old(self).contents().contains_key(table@)
                && counter_malformed(old(self).contents()[table@]))),
            r is Ok <==> (old(self).contents().contains_key(table@) && exists|m: DocModel|
                #[trigger] matches_doc(old(self).contents()[table@], m)),
            forall|m: DocModel|
                #[trigger] matches_doc(old(self).contents()[table@], m) && old(self).contents().contains_key(table@) ==> final(self).contents() == old(self).contents().insert(
                    table@,
                    doc_text(base_model(table@, obj_text(remove_key(m.records, id@)))),
                ) && final(self).names() == old(self).names(),
    {
        match self.load(table) {
            Err(e) => Err(e),
            Ok((_, mut doc)) => {
                let ghost m0 = doc@;
                doc.remove_record(id);
                let obj = render_records_object(&doc.records);
                proof {
                    assert(doc.records@.map_values(|e: RecordEntry| (e.key@, e.value@))
                        =~= doc@.records);
                    assert(doc@.records == remove_key(m0.records, id@));
                }
                let text = render_wrapped(table, obj.as_str());
                self.put_raw(table, text);
                Ok(())
            },
        }
    }

    /// The subset of the table's records whose value satisfies `predicate`,
    /// in insertion order.  Every returned entry is one of the table's
    /// entries on which the predicate returned true, no entry is returned
    /// twice, the table's order is kept, and every entry left out is one on
    /// which the predicate can return false.
    #[verifier::rlimit(100)]
    pub fn find_by<F: Fn(&RecordText) -> bool>(&self, table: &str, predicate: F) -> (r: Result<
        Vec<RecordEntry>,
        Error,
    >)
        requires
            self.wf(),
            forall|v: RecordText| #[trigger] call_requires(predicate, (&v,)),
        ensures
            r is Ok <==> (self.contents().contains_key(table@) && exists|m: DocModel| #[trigger]
                matches_doc(self.contents()[table@], m)),
            r matches Err(e) ==> (e is NoSuchTable <==> !self.contents().contains_key(table@)) && (
            e matches Error::NoSuchTable(nm) ==> nm@ == table@) && (e is NoSuchTable || e is Codec
                || e is ParseInt),
            r matches Err(e) ==> (e is ParseInt <==> (self.contents().contains_key(table@)
                && counter_malformed(self.contents()[table@]))),
            r matches Ok(res) ==> (forall|i: int|
                0 <= i < res@.len() ==> call_ensures(predicate, (&(#[trigger] res@[i]).value,), true)),
            r matches Ok(res) ==> (forall|m: DocModel|
                #[trigger] matches_doc(self.contents()[table@], m) ==> (forall|i: int|
                    0 <= i < res@.len() ==> has_key(m.records, (#[trigger] res@[i]).key@))),
            r matches Ok(res) ==> (forall|m: DocModel|
                #[trigger] matches_doc(self.contents()[table@], m) ==> (forall|i: int|
                    0 <= i < res@.len() ==> key_value(m.records, (#[trigger] res@[i]).key@)
                        == res@[i].value@)),
            r matches Ok(res) ==> (forall|m: DocModel|
                #[trigger] matches_doc(self.contents()[table@], m) ==> kept_keys_cover(
                    predicate,
                    res@,
                    m.records,
                )),
            r matches Ok(res) ==> (forall|i1: int, i2: int|
                0 <= i1 < i2 < res@.len() ==> (#[trigger] res@[i1]).key@ != (
                #[trigger] res@[i2]).key@),
            r matches Ok(res) ==> (forall|m: DocModel|
                #[trigger] matches_doc(self.contents()[table@], m) ==> (forall|i1: int, i2: int|
                    0 <= i1 < i2 < res@.len() ==> key_at(m.records, (#[trigger] res@[i1]).key@)
                        < key_at(m.records, (#[trigger] res@[i2]).key@))),
    {
        match self.load(table) {
            Err(e) => Err(e),
            Ok((_, d)) => {
                let n = d.records.len();
                let mut res: Vec<RecordEntry> = Vec::new();
                let mut j: usize = 0;
                while j < n
                    invariant
                        n == d.records@.len(),
                        0 <= j <= n,
                        forall|v: RecordText| #[trigger] call_requires(predicate, (&v,)),
                        forall|i: int|
                            0 <= i < res@.len() ==> call_ensures(
                                predicate,
                                (&(#[trigger] res@[i]).value,),
                                true,
                            ),
                        forall|i: int|
                            0 <= i < res@.len() ==> exists|a: int|
                                0 <= a < j && (#[trigger] d.records@[a]).key@ == (
                                #[trigger] res@[i]).key@ && d.records@[a].value@
                                    == res@[i].value@,
                        forall|a: int|
                            0 <= a < j ==> (exists|i: int|
                                0 <= i < res@.len() && (#[trigger] res@[i]).key@ == (
                                #[trigger] d.records@[a]).key@) || (exists|w: RecordText|
                                w@ == d.records@[a].value@ && call_ensures(
                                    predicate,
                                    (&w,),
                                    false,
                                )),
                        d@.wf(),
                        forall|i: int|
                            0 <= i < res@.len() ==> has_key(d@.records, (#[trigger] res@[i]).key@)
                                && 0 <= key_at(d@.records, res@[i].key@) < j,
                        forall|i1: int, i2: int|
                            0 <= i1 < i2 < res@.len() ==> key_at(
                                d@.records,
                                (#[trigger] res@[i1]).key@,
                            ) < key_at(d@.records, (#[trigger] res@[i2]).key@),
                    decreases n - j,
                {
                    let keep = predicate(&d.records[j].value);
                    if keep {
                        let ghost res0 = res@;
                        let entry = RecordEntry {
                            key: d.records[j].key.clone(),
                            value: d.records[j].value.duplicate(),
                        };
                        res.push(entry);
                        proof {
                            let last = res@.len() - 1;
                            assert(res@[last].key@ == d.records@[j as int].key@);
                            assert(res@[last].value == d.records@[j as int].value);
                            assert forall|a: int| 0 <= a < j + 1 implies (exists|i: int|
                                0 <= i < res@.len() && (#[trigger] res@[i]).key@ == (
                                #[trigger] d.records@[a]).key@) || (exists|w: RecordText|
                                w@ == d.records@[a].value@ && call_ensures(
                                    predicate,
                                    (&w,),
                                    false,
                                )) by {
                                if a < j {
                                    if exists|i: int|
                                        0 <= i < res0.len() && (#[trigger] res0[i]).key@ == (
                                        d.records@[a]).key@ {
                                        let i = choose|i: int|
                                            0 <= i < res0.len() && (#[trigger] res0[i]).key@ == (
                                            d.records@[a]).key@;
                                        assert(res@[i] == res0[i]);
                                        assert((#[trigger] res@[i]).key@ == d.records@[a].key@);
                                    }
                                } else {
                                    assert((#[trigger] res@[last]).key@ == d.records@[a].key@);
                                }
                            }
                            assert forall|i: int| 0 <= i < res@.len() implies exists|a: int|
                                0 <= a < j + 1 && (#[trigger] d.records@[a]).key@ == (
                                #[trigger] res@[i]).key@ && d.records@[a].value@
                                == res@[i].value@ by {
                                if i < last {
                                    assert(res@[i] == res0[i]);
                                    let a = choose|a: int|
                                        0 <= a < j && (#[trigger] d.records@[a]).key@ == (
                                        res0[i]).key@ && d.records@[a].value@ == res0[i].value@;
                                    assert((#[trigger] d.records@[a]).key@ == res@[i].key@
                                        && d.records@[a].value@ == res@[i].value@);
                                } else {
                                    assert((#[trigger] d.records@[j as int]).key@ == res@[i].key@
                                        && d.records@[j as int].value@ == res@[i].value@);
                                }
                            }
                            assert(forall|a: int|
                                0 <= a < d@.records.len() ==> #[trigger] d@.records[a] == (
                                d.records@[a].key@,
                                d.records@[a].value@,
                                ));
                            assert(has_key(d@.records, res@[last].key@) && key_at(
                                d@.records,
                                res@[last].key@,
                            ) == j as int) by {
                                assert(d@.records[j as int].0 == res@[last].key@);
                                assert forall|jj: int|
                                    0 <= jj < j as int implies (#[trigger] d@.records[jj]).0
                                    != res@[last].key@ by {}
                                crate::doc::lemma_key_at_first(
                                    d@.records,
                                    res@[last].key@,
                                    j as int,
                                );
                            }
                            assert forall|i: int|
                                0 <= i < res@.len() implies has_key(
                                d@.records,
                                (#[trigger] res@[i]).key@,
                            ) && 0 <= key_at(d@.records, res@[i].key@) < j + 1 by {
                                if i < last {
                                    assert(res@[i] == res0[i]);
                                }
                            }
                            assert forall|i1: int, i2: int|
                                0 <= i1 < i2 < res@.len() implies key_at(
                                d@.records,
                                (#[trigger] res@[i1]).key@,
                            ) < key_at(d@.records, (#[trigger] res@[i2]).key@) by {
                                if i2 < last {
                                    assert(res@[i1] == res0[i1] && res@[i2] == res0[i2]);
                                } else {
                                    assert(res@[i1] == res0[i1]);
                                    assert(key_at(d@.records, res@[i1].key@) < j as int);
                                    assert(key_at(d@.records, res@[i2].key@) == j as int);
                                }
                            }
                        }
                    } else {
                        proof {
                            let w = d.records@[j as int].value;
                            assert(w@ == d.records@[j as int].value@ && call_ensures(
                                predicate,
                                (&w,),
                                false,
                            ));
                        }
                    }
                    j = j + 1;
                }
                proof {
                    assert forall|m: DocModel|
                        #![trigger matches_doc(self.contents()[table@], m)]
                        matches_doc(self.contents()[table@], m) implies (forall|i: int|
                        0 <= i < res@.len() ==> has_key(m.records, (#[trigger] res@[i]).key@)) by {
                        assert(m == d@);
                        assert(forall|a: int|
                            0 <= a < d@.records.len() ==> #[trigger] d@.records[a] == (
                            d.records@[a].key@,
                            d.records@[a].value@,
                            ));
                        assert forall|i: int| 0 <= i < res@.len() implies has_key(
                            m.records,
                            (#[trigger] res@[i]).key@,
                        ) by {
                            let a = choose|a: int|
                                0 <= a < n && (#[trigger] d.records@[a]).key@ == res@[i].key@
                                    && d.records@[a].value@ == res@[i].value@;
                            assert(m.records[a].0 == res@[i].key@);
                        }
                    }
                    assert forall|m: DocModel|
                        #![trigger matches_doc(self.contents()[table@], m)]
                        matches_doc(self.contents()[table@], m) implies (forall|i: int|
                        0 <= i < res@.len() ==> key_value(m.records, (#[trigger] res@[i]).key@)
                            == res@[i].value@) by {
                        assert(m == d@);
                        assert(forall|a: int|
                            0 <= a < d@.records.len() ==> #[trigger] d@.records[a] == (
                            d.records@[a].key@,
                            d.records@[a].value@,
                            ));
                        assert forall|i: int| 0 <= i < res@.len() implies key_value(
                            m.records,
                            (#[trigger] res@[i]).key@,
                        ) == res@[i].value@ by {
                            let a = choose|a: int|
                                0 <= a < n && (#[trigger] d.records@[a]).key@ == res@[i].key@
                                    && d.records@[a].value@ == res@[i].value@;
                            assert(m.records[a].0 == res@[i].key@);
                            assert(has_key(m.records, res@[i].key@));
                            lemma_key_at_some(m.records, res@[i].key@);
                            let b = key_at(m.records, res@[i].key@);
                            if a != b {
                                assert(m.records[a].0 == m.records[b].0);
                                assert(false);
                            }
                        }
                    }
                    assert(kept_keys_cover(predicate, res@, d@.records)) by {
                        assert(forall|a: int|
                            0 <= a < d@.records.len() ==> #[trigger] d@.records[a] == (
                            d.records@[a].key@,
                            d.records@[a].value@,
                            ));
                        assert forall|jj: int|
                            0 <= jj < d@.records.len() implies (exists|i: int|
                            0 <= i < res@.len() && (#[trigger] res@[i]).key@ == (
                            #[trigger] d@.records[jj]).0) || (exists|w: RecordText|
                            w@ == d@.records[jj].1 && call_ensures(predicate, (&w,), false)) by {
                            assert(d@.records[jj].0 == d.records@[jj].key@);
                            assert(d@.records[jj].1 == d.records@[jj].value@);
                            if exists|i: int|
                                0 <= i < res@.len() && (#[trigger] res@[i]).key@ == (
                                d.records@[jj]).key@ {
                                let i = choose|i: int|
                                    0 <= i < res@.len() && (#[trigger] res@[i]).key@ == (
                                    d.records@[jj]).key@;
                                assert(res@[i].key@ == d@.records[jj].0);
                            } else {
                                let w = choose|w: RecordText|
                                    w@ == d.records@[jj].value@ && call_ensures(
                                        predicate,
                                        (&w,),
                                        false,
                                    );
                                assert(w@ == d@.records[jj].1 && call_ensures(
                                    predicate,
                                    (&w,),
                                    false,
                                ));
                            }
                        }
                    }
                    assert forall|m: DocModel|
                        #![trigger matches_doc(self.contents()[table@], m)]
                        matches_doc(self.contents()[table@], m) implies kept_keys_cover(
                        predicate,
                        res@,
                        m.records,
                    ) by {
                        assert(m == d@);
                    }
                    assert forall|i1: int, i2: int|
                        0 <= i1 < i2 < res@.len() implies (#[trigger] res@[i1]).key@ != (
                        #[trigger] res@[i2]).key@ by {
                        if res@[i1].key@ == res@[i2].key@ {
                            assert(key_at(d@.records, res@[i1].key@) == key_at(
                                d@.records,
                                res@[i2].key@,
                            ));
                            assert(false);
                        }
                    }
                    assert forall|m: DocModel|
                        #![trigger matches_doc(self.contents()[table@], m)]
                        matches_doc(self.contents()[table@], m) implies (forall|i1: int, i2: int|
                        0 <= i1 < i2 < res@.len() ==> key_at(m.records, (#[trigger] res@[i1]).key@)
                            < key_at(m.records, (#[trigger] res@[i2]).key@)) by {
                        assert(m == d@);
                    }
                }
                Ok(res)
            },
        }
    }
}

} // verus!
