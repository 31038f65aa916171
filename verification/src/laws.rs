//! Laws of the table store, proved once and for all inputs.
//!
//! Each law is stated over the spec-level effects that the engine's
//! contracts use: `create_effect` and `update_effect` for whole-table
//! writes, and `base_model` / `append_model` / `batch_model` for the
//! document transformations.

use vstd::prelude::*;

use crate::codec::doc_text;
use crate::codec::matches_doc;
use crate::digits::dec_digits;
use crate::digits::lemma_digits_val_dec;
use crate::doc::append_model;
use crate::doc::base_model;
use crate::doc::batch_model;
use crate::doc::has_key;
use crate::doc::key_at;
use crate::doc::key_value;
use crate::doc::lemma_append_model_wf;
use crate::doc::lemma_base_model_wf;
use crate::doc::lemma_batch_model_snoc;
use crate::doc::name_ok;
use crate::doc::upsert;
use crate::doc::DocModel;
use crate::scan::closed_value;
use crate::store::create_effect;
use crate::store::update_effect;

verus! {

/// Round-trip: creating an absent table `t` with record `v` stores exactly
/// the canonical text of the base document, which is well-formed; the only
/// well-formed document with that text is the base document itself, and it
/// maps key `"0"` to `v` with the counter at `1`.  So reading the table
/// back and parsing what was read can only yield `v` under `"0"` and a
/// counter of `1`.
pub proof fn lemma_create_round_trip(
    c: Map<Seq<char>, Seq<char>>,
    t: Seq<char>,
    v: Seq<char>,
)
    requires
        name_ok(t),
        closed_value(v),
        !c.contains_key(t),
    ensures
        create_effect(c, t, v).contains_key(t),
        create_effect(c, t, v)[t] == doc_text(base_model(t, v)),
        base_model(t, v).wf(),
        matches_doc(create_effect(c, t, v)[t], base_model(t, v)),
        base_model(t, v).next_id == 1,
        base_model(t, v).records.len() == 1,
        has_key(base_model(t, v).records, dec_digits(0)),
        key_value(base_model(t, v).records, dec_digits(0)) == v,
        forall|m: DocModel|
            #[trigger] matches_doc(create_effect(c, t, v)[t], m) ==> m == base_model(t, v),
{
    lemma_base_model_wf(t, v);
    let es = base_model(t, v).records;
    assert(es[0].0 == dec_digits(0));
    assert(has_key(es, dec_digits(0)));
    assert(key_at(es, dec_digits(0)) == 0);
    assert forall|m: DocModel|
        matches_doc(create_effect(c, t, v)[t], m) implies m == base_model(t, v) by {
        crate::codec::lemma_doc_text_injective(m, base_model(t, v));
    }
}

/// Idempotent create: a second create of the same table changes nothing,
/// whatever record it carries.
pub proof fn lemma_create_idempotent(
    c: Map<Seq<char>, Seq<char>>,
    t: Seq<char>,
    v1: Seq<char>,
    v2: Seq<char>,
)
    ensures
        create_effect(create_effect(c, t, v1), t, v2) == create_effect(c, t, v1),
{
    if c.contains_key(t) {
    } else {
        assert(create_effect(c, t, v1).contains_key(t));
    }
}

/// An overwrite is insensitive to what was stored before: updating a table
/// replaces its content with the base document of the new record alone.
pub proof fn lemma_update_replaces(
    c: Map<Seq<char>, Seq<char>>,
    t: Seq<char>,
    v: Seq<char>,
)
    ensures
        update_effect(c, t, v).contains_key(t),
        update_effect(c, t, v)[t] == doc_text(base_model(t, v)),
        forall|k: Seq<char>| k != t ==> (update_effect(c, t, v).contains_key(k) <==> c.contains_key(k)),
        forall|k: Seq<char>|
            k != t && c.contains_key(k) ==> update_effect(c, t, v)[k] == c[k],
{
}

/// Append monotonicity: starting from a freshly created table and appending
/// any records in order, the mapping holds exactly one entry more than the
/// number of appends, under the consecutive decimal keys starting at `"0"`,
/// in order, and the counter equals the number of entries.
pub proof fn lemma_append_monotonic(t: Seq<char>, v: Seq<char>, vs: Seq<Seq<char>>)
    ensures
        batch_model(base_model(t, v), vs).records.len() == vs.len() + 1,
        batch_model(base_model(t, v), vs).next_id == vs.len() + 1,
        batch_model(base_model(t, v), vs).name == t,
        forall|i: int|
            0 <= i < vs.len() + 1 ==> (#[trigger] batch_model(base_model(t, v), vs).records[i]).0
                == dec_digits(i as nat),
        batch_model(base_model(t, v), vs).records[0].1 == v,
        forall|i: int|
            0 <= i < vs.len() ==> batch_model(base_model(t, v), vs).records[i + 1].1
                == #[trigger] vs[i],
    decreases vs.len(),
{
    if vs.len() == 0 {
        let m = batch_model(base_model(t, v), vs);
        assert(m == base_model(t, v));
        assert(m.records[0].0 == dec_digits(0));
    } else {
        let p = vs.drop_last();
        lemma_append_monotonic(t, v, p);
        let mp = batch_model(base_model(t, v), p);
        assert(vs == p.push(vs.last())) by {
            assert(vs =~= p.push(vs.last()));
        }
        lemma_batch_model_snoc(base_model(t, v), p, vs.last());
        let m = batch_model(base_model(t, v), vs);
        assert(m == append_model(mp, vs.last()));
        let k = dec_digits(mp.next_id);
        assert(!has_key(mp.records, k)) by {
            if has_key(mp.records, k) {
                let i = choose|i: int| 0 <= i < mp.records.len() && (#[trigger] mp.records[i]).0 == k;
                assert(mp.records[i].0 == dec_digits(i as nat));
                lemma_digits_val_dec(i as nat);
                lemma_digits_val_dec(mp.next_id);
                assert(i as nat == mp.next_id);
                assert(false);
            }
        }
        assert(m.records == mp.records.push((k, vs.last())));
        assert(forall|i: int|
            0 <= i < mp.records.len() ==> m.records[i] == #[trigger] mp.records[i]);
        assert(m.records[vs.len() as int] == (k, vs.last()));
        assert forall|i: int|
            0 <= i < vs.len() + 1 implies (#[trigger] m.records[i]).0 == dec_digits(i as nat) by {
            if i < vs.len() {
                assert(mp.records[i].0 == dec_digits(i as nat));
            }
        }
        assert forall|i: int|
            0 <= i < vs.len() implies m.records[i + 1].1 == #[trigger] vs[i] by {
            if i < vs.len() - 1 {
                assert(mp.records[i + 1].1 == p[i]);
                assert(p[i] == vs[i]);
            }
        }
    }
}

/// Find after create and append: on a freshly created table with appended
/// records, looking up the decimal key `i` yields exactly the record that
/// was inserted `i`-th — the created one for `"0"`, the appended ones after
/// it.  (For an absent key, `find`'s own contract gives `NoSuchKey`.)
pub proof fn lemma_find_after_append(t: Seq<char>, v: Seq<char>, vs: Seq<Seq<char>>, i: int)
    requires
        0 <= i < vs.len() + 1,
    ensures
        has_key(batch_model(base_model(t, v), vs).records, dec_digits(i as nat)),
        key_value(batch_model(base_model(t, v), vs).records, dec_digits(i as nat)) == if i == 0 {
            v
        } else {
            vs[i - 1]
        },
{
    lemma_append_monotonic(t, v, vs);
    let es = batch_model(base_model(t, v), vs).records;
    assert(es[i].0 == dec_digits(i as nat));
    assert(has_key(es, dec_digits(i as nat)));
    assert forall|j: int| 0 <= j < i implies (#[trigger] es[j]).0 != dec_digits(i as nat) by {
        assert(es[j].0 == dec_digits(j as nat));
        lemma_digits_val_dec(j as nat);
        lemma_digits_val_dec(i as nat);
    }
    crate::doc::lemma_key_at_first(es, dec_digits(i as nat), i);
}

/// Batch equivalence: inserting a batch is exactly one append at a time,
/// and the resulting document is well-formed with its canonical text
/// parsing back to it, so each intermediate state a sequence of single
/// appends goes through is a valid stored table.
pub proof fn lemma_batch_equivalence(m: DocModel, vs: Seq<Seq<char>>)
    requires
        m.wf(),
        forall|i: int| 0 <= i < vs.len() ==> closed_value(#[trigger] vs[i]),
        m.next_id + vs.len() <= u64::MAX,
    ensures
        vs.len() > 0 ==> batch_model(m, vs) == batch_model(append_model(m, vs.first()), vs.drop_first()),
        batch_model(m, vs).wf(),
        matches_doc(doc_text(batch_model(m, vs)), batch_model(m, vs)),
    decreases vs.len(),
{
    if vs.len() == 0 {
    } else {
        lemma_append_model_wf(m, vs[0]);
        let m1 = append_model(m, vs[0]);
        assert(forall|i: int|
            0 <= i < vs.drop_first().len() ==> closed_value(#[trigger] vs.drop_first()[i])) by {
            assert(forall|i: int|
                0 <= i < vs.drop_first().len() ==> vs.drop_first()[i] == #[trigger] vs[i + 1]);
        }
        lemma_batch_equivalence(m1, vs.drop_first());
    }
}

/// Clear resets the counter: the cleared document holds no records, and the
/// first append after it assigns key `"0"` again, exactly as on a fresh
/// empty table.
pub proof fn lemma_clear_then_append(m: DocModel, v: Seq<char>)
    ensures
        (DocModel { name: m.name, next_id: 0, records: Seq::empty() }).records.len() == 0,
        append_model(DocModel { name: m.name, next_id: 0, records: Seq::empty() }, v).records
            == seq![(dec_digits(0), v)],
        append_model(DocModel { name: m.name, next_id: 0, records: Seq::empty() }, v).next_id == 1,
        append_model(DocModel { name: m.name, next_id: 0, records: Seq::empty() }, v).records
            == base_model(m.name, v).records,
{
    let cleared = DocModel { name: m.name, next_id: 0, records: Seq::empty() };
    assert(!has_key(cleared.records, dec_digits(0)));
    assert(upsert(cleared.records, dec_digits(0), v) =~= seq![(dec_digits(0), v)]);
}

} // verus!
