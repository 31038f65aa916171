//! The table document model.
//!
//! A table document is the unit the engine persists: the table's name, the
//! next unused record identifier, and a mapping from string keys to records.
//! A record is carried as the text of one JSON value and never interpreted.

use vstd::prelude::*;
use vstd::string::StringExecFns;

use crate::digits::dec_digits;
use crate::digits::is_digit;
use crate::scan::closed_value;

verus! {

/// A table name can be embedded in and recovered from a document verbatim
/// exactly when it contains no quote character.
pub open spec fn name_ok(n: Seq<char>) -> bool {
    forall|i: int| 0 <= i < n.len() ==> n[i] != '"'
}

/// A record key can be embedded verbatim when it contains neither a quote
/// nor a backslash.
pub open spec fn key_ok(k: Seq<char>) -> bool {
    forall|i: int| 0 <= i < k.len() ==> k[i] != '"' && k[i] != '\\'
}

/// The mathematical shape of a table document: a name, a counter, and the
/// record mapping as a sequence of key/value pairs in insertion order.
#[verifier::ext_equal]
pub ghost struct DocModel {
    pub name: Seq<char>,
    pub next_id: nat,
    pub records: Seq<(Seq<char>, Seq<char>)>,
}

impl DocModel {
    /// Well-formedness: the name and every key embed verbatim, the counter
    /// fits its machine type, every record is one whole JSON value, and keys
    /// are distinct.
    pub open spec fn wf(self) -> bool {
        &&& name_ok(self.name)
        &&& self.next_id <= u64::MAX
        &&& forall|i: int|
            0 <= i < self.records.len() ==> key_ok((#[trigger] self.records[i]).0) && closed_value(
                self.records[i].1,
            )
        &&& forall|i: int, j: int|
            0 <= i < j < self.records.len() ==> (#[trigger] self.records[i]).0 != (
            #[trigger] self.records[j]).0
    }
}

/// Whether the record mapping holds key `k`.
pub open spec fn has_key(es: Seq<(Seq<char>, Seq<char>)>, k: Seq<char>) -> bool {
    exists|i: int| 0 <= i < es.len() && (#[trigger] es[i]).0 == k
}

/// The first position of key `k` in the mapping.
pub open spec fn key_at(es: Seq<(Seq<char>, Seq<char>)>, k: Seq<char>) -> int
    decreases es.len(),
{
    if es.len() == 0 {
        0
    } else if es[0].0 == k {
        0
    } else {
        1 + key_at(es.drop_first(), k)
    }
}

/// The value stored under key `k`.
pub open spec fn key_value(es: Seq<(Seq<char>, Seq<char>)>, k: Seq<char>) -> Seq<char> {
    es[key_at(es, k)].1
}

/// `key_at` names the first position holding `k`.
pub proof fn lemma_key_at_first(es: Seq<(Seq<char>, Seq<char>)>, k: Seq<char>, i: int)
    requires
        0 <= i < es.len(),
        es[i].0 == k,
        forall|j: int| 0 <= j < i ==> (#[trigger] es[j]).0 != k,
    ensures
        key_at(es, k) == i,
    decreases es.len(),
{
    if es[0].0 == k {
        assert(i == 0);
    } else {
        let t = es.drop_first();
        assert(t[i - 1] == es[i]);
        assert(forall|j: int| 0 <= j < i - 1 ==> (#[trigger] t[j]).0 != k) by {
            assert(forall|j: int| 0 <= j < i - 1 ==> t[j] == #[trigger] es[j + 1]);
        }
        lemma_key_at_first(t, k, i - 1);
    }
}

/// Where `k` is present, `key_at` lands on an entry holding `k`.
pub proof fn lemma_key_at_some(es: Seq<(Seq<char>, Seq<char>)>, k: Seq<char>)
    requires
        has_key(es, k),
    ensures
        0 <= key_at(es, k) < es.len(),
        es[key_at(es, k)].0 == k,
        forall|j: int| 0 <= j < key_at(es, k) ==> (#[trigger] es[j]).0 != k,
    decreases es.len(),
{
    if es[0].0 == k {
    } else {
        let t = es.drop_first();
        assert(has_key(t, k)) by {
            let i = choose|i: int| 0 <= i < es.len() && (#[trigger] es[i]).0 == k;
            assert(t[i - 1] == es[i]);
        }
        lemma_key_at_some(t, k);
        assert(forall|j: int| 1 <= j < key_at(es, k) ==> (#[trigger] es[j]).0 == t[j - 1].0);
    }
}

/// Inserting or replacing: replaces the value at an existing key, appends a
/// new entry otherwise.
pub open spec fn upsert(
    es: Seq<(Seq<char>, Seq<char>)>,
    k: Seq<char>,
    v: Seq<char>,
) -> Seq<(Seq<char>, Seq<char>)> {
    if has_key(es, k) {
        es.update(key_at(es, k), (k, v))
    } else {
        es.push((k, v))
    }
}

/// One record of a table, as stored: the text of one JSON value.
#[derive(Debug)]
pub struct RecordText {
    text: String,
}

impl View for RecordText {
    type V = Seq<char>;

    closed spec fn view(&self) -> Seq<char> {
        self.text@
    }
}

impl RecordText {
    /// Validity: the text is one whole JSON value.
    pub open spec fn wf(self) -> bool {
        closed_value(self@)
    }

    /// Wraps `text` as a record, if it is one whole JSON value.
    pub fn new(text: String) -> (r: Option<RecordText>)
        ensures
            r is Some <==> closed_value(text@),
            r matches Some(v) ==> v@ == text@ && v.wf(),
    {
        if crate::scan::check_closed(text.as_str()) {
            Some(RecordText { text })
        } else {
            None
        }
    }

    /// Wraps text already known to be one whole JSON value.
    pub(crate) fn from_closed(text: String) -> (r: RecordText)
        requires
            closed_value(text@),
        ensures
            r@ == text@,
            r.wf(),
    {
        RecordText { text }
    }

    /// The record's text.
    pub fn as_str(&self) -> (r: &str)
        ensures
            r@ == self@,
    {
        self.text.as_str()
    }

    /// An owned copy of the record.
    pub fn duplicate(&self) -> (r: RecordText)
        ensures
            r == *self,
            r@ == self@,
    {
        let r = RecordText { text: self.text.clone() };
        proof {
            assert(r.text == self.text);
        }
        r
    }
}

/// One entry of the record mapping.
#[derive(Debug)]
pub struct RecordEntry {
    pub key: String,
    pub value: RecordText,
}

/// A table document: the value type every table operation reads and writes.
#[derive(Debug)]
pub struct TableData {
    /// The table's name.
    pub table: String,
    /// The next unused record identifier.
    pub next_id: u64,
    /// The record mapping, in insertion order.
    pub records: Vec<RecordEntry>,
}

impl View for TableData {
    type V = DocModel;

    open spec fn view(&self) -> DocModel {
        DocModel {
            name: self.table@,
            next_id: self.next_id as nat,
            records: self.records@.map_values(|e: RecordEntry| (e.key@, e.value@)),
        }
    }
}

impl TableData {
    /// The document a fresh table starts from: one record under key `"0"`,
    /// counter `1`.
    pub fn base(table: &str, value: RecordText) -> (r: TableData)
        ensures
            r@ == base_model(table@, value@),
            name_ok(table@) && value.wf() ==> r@.wf(),
    {
        proof {
            reveal_strlit("0");
        }
        let ghost v = value@;
        let ghost wfv = value.wf();
        let mut records: Vec<RecordEntry> = Vec::new();
        records.push(RecordEntry { key: String::from_str("0"), value });
        let r = TableData { table: String::from_str(table), next_id: 1, records };
        proof {
            assert(dec_digits(0) =~= seq!['0']);
            assert(r.records@.len() == 1);
            assert(r.records@[0].key@ =~= seq!['0']);
            assert(r.records@[0].value@ == v);
            assert(r@.records.len() == 1);
            assert(r@.records[0] == (r.records@[0].key@, r.records@[0].value@));
            assert(r@.records =~= seq![(dec_digits(0), v)]);
            assert(r@ =~= base_model(table@, v));
            if name_ok(table@) && wfv {
                lemma_base_model_wf(table@, v);
            }
        }
        r
    }

    /// The document of an empty table: no records, counter `0`.
    pub fn empty_doc(table: &str) -> (r: TableData)
        ensures
            r@ == empty_model(table@),
            r@.records.len() == 0,
    {
        let r = TableData { table: String::from_str(table), next_id: 0, records: Vec::new() };
        proof {
            assert(r@.records =~= Seq::<(Seq<char>, Seq<char>)>::empty());
            assert(r@ =~= empty_model(table@));
        }
        r
    }

    /// The first position holding key `id`, scanning in insertion order.
    fn find_key(&self, id: &str) -> (r: Option<usize>)
        ensures
            r matches Some(i) ==> 0 <= i < self@.records.len() && self@.records[i as int].0 == id@
                && key_at(self@.records, id@) == i && has_key(self@.records, id@),
            r is None ==> !has_key(self@.records, id@),
    {
        let idk = String::from_str(id);
        let n = self.records.len();
        let mut i: usize = 0;
        while i < n
            invariant
                n == self.records@.len(),
                0 <= i <= n,
                idk@ == id@,
                forall|j: int| 0 <= j < i ==> (#[trigger] self@.records[j]).0 != id@,
            decreases n - i,
        {
            if self.records[i].key == idk {
                proof {
                    assert(self@.records[i as int].0 == id@);
                    lemma_key_at_first(self@.records, id@, i as int);
                }
                return Some(i);
            }
            i = i + 1;
        }
        None
    }

    /// The record under key `id`, if any.
    pub fn get_record(&self, id: &str) -> (r: Option<RecordText>)
        ensures
            r is Some <==> has_key(self@.records, id@),
            r matches Some(v) ==> v@ == key_value(self@.records, id@),
    {
        match self.find_key(id) {
            Some(i) => Some(self.records[i].value.duplicate()),
            None => None,
        }
    }

    /// Inserts `value` under the current counter value and advances the
    /// counter.
    pub fn append_record(&mut self, value: RecordText)
        requires
            old(self)@.next_id < u64::MAX,
        ensures
            final(self)@ == append_model(old(self)@, value@),
            old(self)@.wf() && value.wf() ==> final(self)@.wf(),
    {
        let key = crate::digits::u64_dec(self.next_id);
        let ghost k = dec_digits(old(self)@.next_id);
        let ghost older = self@;
        match self.find_key(key.as_str()) {
            Some(i) => {
                self.records[i].value = value;
                proof {
                    assert(self@.records =~= older.records.update(key_at(older.records, k), (
                        k,
                        value@,
                    )));
                }
            },
            None => {
                self.records.push(RecordEntry { key, value });
                proof {
                    assert(self@.records =~= older.records.push((k, value@)));
                }
            },
        }
        self.next_id = self.next_id + 1;
        proof {
            assert(self@ =~= append_model(older, value@));
            if older.wf() && closed_value(value@) {
                lemma_append_model_wf(older, value@);
            }
        }
    }

    /// Replaces the record at an existing key.  Returns whether the key was
    /// present; when it was not, the document is unchanged.
    pub fn set_record(&mut self, id: &str, value: RecordText) -> (b: bool)
        ensures
            b <==> has_key(old(self)@.records, id@),
            b ==> final(self)@ == (DocModel {
                records: old(self)@.records.update(key_at(old(self)@.records, id@), (id@, value@)),
                ..old(self)@
            }),
            !b ==> final(self)@ == old(self)@,
            old(self)@.wf() && value.wf() && key_ok(id@) ==> final(self)@.wf(),
    {
        let ghost older = self@;
        match self.find_key(id) {
            Some(i) => {
                self.records[i].key = String::from_str(id);
                self.records[i].value = value;
                proof {
                    assert(self@.records =~= older.records.update(key_at(older.records, id@), (
                        id@,
                        value@,
                    )));
                    assert(self@ =~= (DocModel {
                        records: older.records.update(key_at(older.records, id@), (id@, value@)),
                        ..older
                    }));
                    if older.wf() && closed_value(value@) && key_ok(id@) {
                        lemma_update_wf(older, id@, value@);
                    }
                }
                true
            },
            None => {
                proof {
                    assert(self@ =~= older);
                }
                false
            },
        }
    }

    /// Removes the record at `id`; does nothing if the key is absent.
    pub fn remove_record(&mut self, id: &str)
        ensures
            has_key(old(self)@.records, id@) ==> final(self)@ == (DocModel {
                records: old(self)@.records.remove(key_at(old(self)@.records, id@)),
                ..old(self)@
            }),
            !has_key(old(self)@.records, id@) ==> final(self)@ == old(self)@,
            old(self)@.wf() ==> final(self)@.wf(),
    {
        let ghost older = self@;
        match self.find_key(id) {
            Some(i) => {
                self.records.remove(i);
                proof {
                    assert(self@.records =~= older.records.remove(key_at(older.records, id@)));
                    assert(self@ =~= (DocModel {
                        records: older.records.remove(key_at(older.records, id@)),
                        ..older
                    }));
                    if older.wf() {
                        lemma_remove_wf(older, key_at(older.records, id@));
                    }
                }
            },
            None => {
                proof {
                    assert(self@ =~= older);
                }
            },
        }
    }

    /// Empties the record mapping and resets the counter.
    pub fn clear(&mut self)
        ensures
            final(self)@ == (DocModel { next_id: 0, records: Seq::empty(), ..old(self)@ }),
            old(self)@.wf() ==> final(self)@.wf(),
    {
        self.records = Vec::new();
        self.next_id = 0;
        proof {
            assert(self@.records =~= Seq::<(Seq<char>, Seq<char>)>::empty());
            assert(self@ =~= (DocModel { next_id: 0, records: Seq::empty(), ..old(self)@ }));
        }
    }

    /// The number of records in the mapping.
    pub fn count(&self) -> (n: usize)
        ensures
            n == self@.records.len(),
    {
        self.records.len()
    }
}

/// The model of a fresh table's first document.
pub open spec fn base_model(t: Seq<char>, v: Seq<char>) -> DocModel {
    DocModel { name: t, next_id: 1, records: seq![(dec_digits(0), v)] }
}

/// The model of an empty table's document.
pub open spec fn empty_model(t: Seq<char>) -> DocModel {
    DocModel { name: t, next_id: 0, records: Seq::empty() }
}

/// The model of appending one record: insert under the counter's text,
/// advance the counter.
pub open spec fn append_model(m: DocModel, v: Seq<char>) -> DocModel {
    DocModel {
        name: m.name,
        next_id: (m.next_id + 1) as nat,
        records: upsert(m.records, dec_digits(m.next_id), v),
    }
}

/// The model of appending a batch of records in order.
pub open spec fn batch_model(m: DocModel, vs: Seq<Seq<char>>) -> DocModel
    decreases vs.len(),
{
    if vs.len() == 0 {
        m
    } else {
        batch_model(append_model(m, vs[0]), vs.drop_first())
    }
}

/// The texts of a sequence of records.
pub open spec fn record_views(vs: Seq<RecordText>) -> Seq<Seq<char>> {
    vs.map_values(|v: RecordText| v@)
}

/// The record mapping after removing key `k`; unchanged if `k` is absent.
pub open spec fn remove_key(es: Seq<(Seq<char>, Seq<char>)>, k: Seq<char>) -> Seq<
    (Seq<char>, Seq<char>),
> {
    if has_key(es, k) {
        es.remove(key_at(es, k))
    } else {
        es
    }
}

/// A batch append advances the counter by the batch's length and keeps the
/// name.
pub proof fn lemma_batch_model_next(m: DocModel, vs: Seq<Seq<char>>)
    ensures
        batch_model(m, vs).next_id == m.next_id + vs.len(),
        batch_model(m, vs).name == m.name,
    decreases vs.len(),
{
    if vs.len() > 0 {
        lemma_batch_model_next(append_model(m, vs[0]), vs.drop_first());
    }
}

/// A batch append is one append at a time.
pub proof fn lemma_batch_model_snoc(m: DocModel, vs: Seq<Seq<char>>, x: Seq<char>)
    ensures
        batch_model(m, vs.push(x)) == append_model(batch_model(m, vs), x),
    decreases vs.len(),
{
    if vs.len() == 0 {
        assert(vs.push(x)[0] == x);
        assert(vs.push(x).drop_first() =~= Seq::<Seq<char>>::empty());
        assert(batch_model(append_model(m, x), Seq::<Seq<char>>::empty()) == append_model(m, x));
    } else {
        assert(vs.push(x)[0] == vs[0]);
        assert(vs.push(x).drop_first() =~= vs.drop_first().push(x));
        lemma_batch_model_snoc(append_model(m, vs[0]), vs.drop_first(), x);
    }
}

/// A fresh table's first document is well-formed for a well-formed record.
pub proof fn lemma_base_model_wf(t: Seq<char>, v: Seq<char>)
    requires
        name_ok(t),
        closed_value(v),
    ensures
        base_model(t, v).wf(),
{
    let m = base_model(t, v);
    assert(m.records[0].0 == dec_digits(0) && m.records[0].1 == v);
    assert(key_ok(dec_digits(0))) by {
        crate::digits::lemma_dec_digits_canonical(0);
        assert(forall|i: int|
            0 <= i < dec_digits(0).len() ==> is_digit(#[trigger] dec_digits(0)[i]));
    }
}

/// Appending preserves well-formedness.
pub proof fn lemma_append_model_wf(m: DocModel, v: Seq<char>)
    requires
        m.wf(),
        closed_value(v),
        m.next_id < u64::MAX,
    ensures
        append_model(m, v).wf(),
{
    let k = dec_digits(m.next_id);
    assert(key_ok(k)) by {
        crate::digits::lemma_dec_digits_canonical(m.next_id);
        assert(forall|i: int| 0 <= i < k.len() ==> is_digit(#[trigger] k[i]));
    }
    if has_key(m.records, k) {
        lemma_key_at_some(m.records, k);
        lemma_update_wf(m, k, v);
    } else {
        let es = m.records.push((k, v));
        assert(forall|i: int| 0 <= i < m.records.len() ==> es[i] == #[trigger] m.records[i]);
        assert(es[es.len() - 1] == (k, v));
        assert(forall|i: int, j: int|
            0 <= i < j < es.len() ==> (#[trigger] es[i]).0 != (#[trigger] es[j]).0) by {
            assert(forall|i: int|
                0 <= i < m.records.len() ==> (#[trigger] m.records[i]).0 != k);
        }
    }
}

/// Replacing the value at an existing key preserves well-formedness.
pub proof fn lemma_update_wf(m: DocModel, k: Seq<char>, v: Seq<char>)
    requires
        m.wf(),
        closed_value(v),
        key_ok(k),
        has_key(m.records, k),
    ensures
        (DocModel { records: m.records.update(key_at(m.records, k), (k, v)), ..m }).wf(),
{
    lemma_key_at_some(m.records, k);
    let a = key_at(m.records, k);
    let es = m.records.update(a, (k, v));
    assert(forall|i: int| 0 <= i < es.len() && i != a ==> es[i] == #[trigger] m.records[i]);
    assert(es[a] == (k, v));
    assert(forall|i: int, j: int|
        0 <= i < j < es.len() ==> (#[trigger] es[i]).0 != (#[trigger] es[j]).0) by {
        assert(m.records[a].0 == k);
        assert(forall|i: int, j: int|
            0 <= i < j < m.records.len() ==> (#[trigger] m.records[i]).0 != (
            #[trigger] m.records[j]).0);
    }
}

/// Removing an entry preserves well-formedness.
pub proof fn lemma_remove_wf(m: DocModel, a: int)
    requires
        m.wf(),
        0 <= a < m.records.len(),
    ensures
        (DocModel { records: m.records.remove(a), ..m }).wf(),
{
    let es = m.records.remove(a);
    assert(forall|i: int| 0 <= i < a ==> es[i] == #[trigger] m.records[i]);
    assert(forall|i: int| a <= i < es.len() ==> es[i] == #[trigger] m.records[i + 1]);
}

} // verus!
