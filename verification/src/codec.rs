//! The canonical textual form of a table document, and its codec.
//!
//! A document is persisted as
//! `{"table":"<name>","next_id":"<counter>","records":{"<key>":<value>,...}}`
//! with the name and keys embedded verbatim, the counter as canonical decimal
//! text, and each record value as the text of one JSON value.  `doc_text`
//! fixes that shape mathematically; `render_document` produces it and
//! `parse_document` inverts it, with the two directions proved to agree.

use vstd::prelude::*;
use vstd::string::StrSliceExecFns;
use vstd::string::StringExecFns;

use crate::digits::dec_digits;
use crate::digits::u64_dec;
use crate::doc::DocModel;
use crate::doc::RecordEntry;
use crate::doc::TableData;
use crate::digits::lemma_dec_digits_canonical;
use crate::digits::lemma_digits_no_quote;
use crate::digits::lemma_digits_val_dec;
use crate::digits::parse_dec;
use crate::doc::key_ok;
use crate::doc::base_model;
use crate::doc::name_ok;
use crate::doc::RecordText;
use crate::errors::Error;
use crate::scan::closed_value;
use crate::scan::lemma_closed_value_unique;
use crate::scan::lemma_scan_run_sub_snoc;
use crate::scan::scan_init;
use crate::scan::scan_run;
use crate::scan::scan_stops;
use crate::scan::ScanState;

verus! {

/// The opening of a document, up to the first character of the name.
pub open spec fn pre1() -> Seq<char> {
    seq!['{', '"', 't', 'a', 'b', 'l', 'e', '"', ':', '"']
}

/// The text between the name and the counter.
pub open spec fn mid1() -> Seq<char> {
    seq!['"', ',', '"', 'n', 'e', 'x', 't', '_', 'i', 'd', '"', ':', '"']
}

/// The text between the counter and the first record entry.
pub open spec fn mid2() -> Seq<char> {
    seq!['"', ',', '"', 'r', 'e', 'c', 'o', 'r', 'd', 's', '"', ':', '{']
}

/// The closing braces of the record object and of the document.
pub open spec fn tail2() -> Seq<char> {
    seq!['}', '}']
}

/// The text of one record entry: `"<key>":<value>`.
pub open spec fn entry_text(e: (Seq<char>, Seq<char>)) -> Seq<char> {
    seq!['"'] + e.0 + seq!['"', ':'] + e.1
}

/// The text of a record mapping's entries, joined by commas.
pub open spec fn entries_text(es: Seq<(Seq<char>, Seq<char>)>) -> Seq<char>
    decreases es.len(),
{
    if es.len() == 0 {
        Seq::empty()
    } else if es.len() == 1 {
        entry_text(es[0])
    } else {
        entries_text(es.drop_last()) + seq![','] + entry_text(es.last())
    }
}

/// The text of a whole record object: `{<entries>}`.
pub open spec fn obj_text(es: Seq<(Seq<char>, Seq<char>)>) -> Seq<char> {
    seq!['{'] + entries_text(es) + seq!['}']
}

/// The canonical text of a whole document.
pub open spec fn doc_text(m: DocModel) -> Seq<char> {
    pre1() + (m.name + (mid1() + (dec_digits(m.next_id) + (mid2() + (entries_text(m.records)
        + tail2())))))
}

/// `m` is a well-formed document whose canonical text is `s`.
pub open spec fn matches_doc(s: Seq<char>, m: DocModel) -> bool {
    m.wf() && doc_text(m) == s
}

/// Extending the rendered entries by one appends a comma (after the first)
/// and the entry's text.
pub proof fn lemma_entries_text_take(es: Seq<(Seq<char>, Seq<char>)>, k: int)
    requires
        0 <= k < es.len(),
    ensures
        entries_text(es.take(k + 1)) == if k == 0 {
            entry_text(es[0])
        } else {
            entries_text(es.take(k)) + seq![','] + entry_text(es[k])
        },
{
    let t = es.take(k + 1);
    assert(t.len() == k + 1);
    if k == 0 {
        assert(t[0] == es[0]);
    } else {
        assert(t.drop_last() =~= es.take(k));
        assert(t.last() == es[k]);
    }
}

/// Rendering distributes over concatenation of nonempty entry sequences,
/// with a comma at the seam.
pub proof fn lemma_entries_text_concat(a: Seq<(Seq<char>, Seq<char>)>, b: Seq<
    (Seq<char>, Seq<char>),
>)
    requires
        a.len() > 0,
        b.len() > 0,
    ensures
        entries_text(a + b) == entries_text(a) + seq![','] + entries_text(b),
    decreases b.len(),
{
    if b.len() == 1 {
        assert((a + b).drop_last() =~= a);
        assert((a + b).last() == b[0]);
        assert((a + b).len() == a.len() + 1);
        assert(entries_text(b) == entry_text(b[0]));
    } else {
        assert((a + b).drop_last() =~= a + b.drop_last());
        assert((a + b).last() == b.last());
        lemma_entries_text_concat(a, b.drop_last());
        assert(entries_text(a + b) == entries_text(a) + seq![','] + entries_text(b.drop_last())
            + seq![','] + entry_text(b.last()));
        assert(entries_text(b) == entries_text(b.drop_last()) + seq![','] + entry_text(b.last()));
        assert(entries_text(a) + seq![','] + entries_text(b.drop_last()) + seq![','] + entry_text(
            b.last(),
        ) =~= entries_text(a) + seq![','] + entries_text(b));
    }
}

/// The remaining entry text from entry `k` on, in the nested shape the
/// parser peels: a quote, the key, `":`, the value, then either a comma and
/// the remaining entries or nothing.
pub proof fn lemma_entries_peel(es: Seq<(Seq<char>, Seq<char>)>, k: int)
    requires
        0 <= k < es.len(),
    ensures
        entries_text(es.skip(k)) == seq!['"'] + (es[k].0 + (seq!['"', ':'] + (es[k].1 + (if k + 1
            < es.len() {
            seq![','] + entries_text(es.skip(k + 1))
        } else {
            Seq::empty()
        })))),
{
    let t = es.skip(k);
    if k + 1 == es.len() {
        assert(t.len() == 1);
        assert(t[0] == es[k]);
        assert(entries_text(t) == entry_text(es[k]));
        assert(entry_text(es[k]) =~= seq!['"'] + (es[k].0 + (seq!['"', ':'] + (es[k].1
            + Seq::<char>::empty()))));
    } else {
        let hd = seq![es[k]];
        let tl = es.skip(k + 1);
        assert(t =~= hd + tl);
        lemma_entries_text_concat(hd, tl);
        assert(entries_text(hd) == entry_text(es[k]));
        assert(entry_text(es[k]) + seq![','] + entries_text(tl) =~= seq!['"'] + (es[k].0 + (seq![
            '"',
            ':',
        ] + (es[k].1 + (seq![','] + entries_text(tl))))));
    }
}

/// Splitting a known concatenation at its seam.
pub proof fn lemma_skip_cat(s: Seq<char>, p: int, a: Seq<char>, b: Seq<char>)
    requires
        0 <= p <= s.len(),
        s.skip(p) == a + b,
    ensures
        p + a.len() + b.len() == s.len(),
        s.subrange(p, p + a.len()) == a,
        s.skip(p + a.len()) == b,
{
    assert(s.skip(p).len() == s.len() - p);
    assert forall|i: int| 0 <= i < a.len() implies s.subrange(p, p + a.len())[i] == a[i] by {
        assert(s.subrange(p, p + a.len())[i] == s[p + i]);
        assert(s.skip(p)[i] == s[p + i]);
        assert(s.skip(p)[i] == (a + b)[i]);
    }
    assert(s.subrange(p, p + a.len()) =~= a);
    assert forall|i: int| 0 <= i < b.len() implies s.skip(p + a.len())[i] == b[i] by {
        assert(s.skip(p + a.len())[i] == s[p + a.len() + i]);
        assert(s.skip(p)[a.len() + i] == s[p + a.len() + i]);
        assert(s.skip(p)[a.len() + i] == (a + b)[a.len() + i]);
    }
    assert(s.skip(p + a.len()) =~= b);
}

/// Where a quote-free span is followed by a quote, the first quote at or
/// after the span's start pins the span exactly.
pub proof fn lemma_until_quote(s: Seq<char>, p: int, x: Seq<char>, q: Seq<char>, j: int)
    requires
        0 <= p <= s.len(),
        s.skip(p) == x + q,
        forall|i: int| 0 <= i < x.len() ==> x[i] != '"',
        q.len() > 0,
        q[0] == '"',
        p <= j < s.len(),
        s[j] == '"',
        forall|k: int| p <= k < j ==> s[k] != '"',
    ensures
        j == p + x.len(),
        x == s.subrange(p, j),
        s.skip(j) == q,
{
    if j < p + x.len() {
        assert(s[j] == s.skip(p)[j - p]);
        assert(s.skip(p)[j - p] == (x + q)[j - p]);
        assert((x + q)[j - p] == x[j - p]);
        assert(false);
    }
    if j > p + x.len() {
        let w = p + x.len();
        assert(s[w] == s.skip(p)[x.len() as int]);
        assert(s.skip(p)[x.len() as int] == (x + q)[x.len() as int]);
        assert((x + q)[x.len() as int] == q[0]);
        assert(false);
    }
    lemma_skip_cat(s, p, x, q);
}

/// Whether `s` holds `lit` starting at `at`.
fn expect_lit(s: &str, at: usize, lit: &str) -> (b: bool)
    requires
        at <= s@.len(),
    ensures
        b <==> (at + lit@.len() <= s@.len() && s@.subrange(at as int, at as int + lit@.len())
            == lit@),
{
    let m = lit.unicode_len();
    let n = s.unicode_len();
    if n - at < m {
        return false;
    }
    let mut j: usize = 0;
    while j < m
        invariant
            at + m <= n,
            n == s@.len(),
            m == lit@.len(),
            0 <= j <= m,
            forall|i: int| 0 <= i < j ==> s@[at + i] == lit@[i],
        decreases m - j,
    {
        if s.get_char(at + j) != lit.get_char(j) {
            proof {
                let sub = s@.subrange(at as int, at as int + m);
                if sub == lit@ {
                    assert(sub[j as int] == s@[at + j]);
                }
            }
            return false;
        }
        j = j + 1;
    }
    proof {
        assert(s@.subrange(at as int, at as int + m) =~= lit@);
    }
    true
}

/// The position of the first quote at or after `from`.
fn find_quote(s: &str, from: usize) -> (r: Option<usize>)
    requires
        from <= s@.len(),
    ensures
        r matches Some(j) ==> from <= j < s@.len() && s@[j as int] == '"' && (forall|k: int|
            from <= k < j ==> s@[k] != '"'),
        r is None ==> forall|k: int| from <= k < s@.len() ==> s@[k] != '"',
{
    let n = s.unicode_len();
    let mut j = from;
    while j < n
        invariant
            from <= j <= n == s@.len(),
            forall|k: int| from <= k < j ==> s@[k] != '"',
        decreases n - j,
    {
        if s.get_char(j) == '"' {
            return Some(j);
        }
        j = j + 1;
    }
    None
}

/// Whether a backslash occurs in `s` between `a` and `b`.
fn find_backslash(s: &str, a: usize, b: usize) -> (r: bool)
    requires
        a <= b <= s@.len(),
    ensures
        r <==> exists|k: int| a <= k < b && s@[k] == '\\',
{
    let mut j = a;
    while j < b
        invariant
            a <= j <= b <= s@.len(),
            forall|k: int| a <= k < j ==> s@[k] != '\\',
        decreases b - j,
    {
        if s.get_char(j) == '\\' {
            return true;
        }
        j = j + 1;
    }
    false
}

/// No whole JSON value starts at `p` and is followed by a top-level
/// delimiter.
spec fn no_value_at(s: Seq<char>, p: int) -> bool {
    forall|v: Seq<char>|
        #![trigger closed_value(v)]
        closed_value(v) && p + v.len() < s.len() && s.subrange(p, p + v.len()) == v ==> !(s[p
            + v.len()] == ',' || s[p + v.len()] == '}')
}

/// Scans one whole JSON value starting at `p`, returning the position just
/// past it, where the surrounding document's comma or closing brace stands.
fn scan_value(s: &str, p: usize) -> (r: Option<usize>)
    requires
        p <= s@.len(),
    ensures
        r matches Some(j) ==> p < j < s@.len() && closed_value(s@.subrange(p as int, j as int)) && (
        s@[j as int] == ',' || s@[j as int] == '}'),
        r is None ==> no_value_at(s@, p as int),
{
    let n = s.unicode_len();
    let mut j = p;
    let mut depth: usize = 0;
    let mut in_str: bool = false;
    let mut esc: bool = false;
    while j < n
        invariant
            p <= j <= n == s@.len(),
            depth <= j - p,
            scan_run(scan_init(), s@.subrange(p as int, j as int)) == (ScanState {
                depth: depth as int,
                in_str: in_str,
                esc: esc,
            }),
            !in_str ==> !esc,
            forall|k: int|
                p <= k < j ==> !scan_stops(
                    scan_run(scan_init(), #[trigger] s@.subrange(p as int, k)),
                    s@[k],
                ),
            forall|k: int|
                p <= k <= j ==> scan_run(scan_init(), #[trigger] s@.subrange(p as int, k)).depth
                    >= 0,
        decreases n - j,
    {
        let c = s.get_char(j);
        proof {
            lemma_scan_run_sub_snoc(scan_init(), s@, p as int, j as int);
        }
        if !in_str && depth == 0 && (c == ',' || c == '}') {
            if j == p {
                // The value would be empty: nothing closed starts here.
                proof {
                    assert forall|v: Seq<char>|
                        #![trigger closed_value(v)]
                        closed_value(v) && p + v.len() < s@.len() && s@.subrange(
                            p as int,
                            p + v.len(),
                        ) == v implies !(s@[p + v.len()] == ',' || s@[p + v.len()] == '}') by {
                        assert(v.take(0) =~= Seq::<char>::empty());
                        assert(v[0] == s@.subrange(p as int, p + v.len())[0]);
                        assert(!scan_stops(scan_run(scan_init(), v.take(0)), v[0]));
                        assert(false);
                    }
                }
                return None;
            }
            proof {
                let span = s@.subrange(p as int, j as int);
                assert(span.len() > 0);
                assert(scan_run(scan_init(), span) == scan_init());
                assert forall|i: int| 0 <= i < span.len() implies !scan_stops(
                    scan_run(scan_init(), #[trigger] span.take(i)),
                    span[i],
                ) by {
                    assert(span.take(i) =~= s@.subrange(p as int, p + i));
                    assert(span[i] == s@[p + i]);
                }
                assert forall|i: int| 0 <= i <= span.len() implies scan_run(
                    scan_init(),
                    #[trigger] span.take(i),
                ).depth >= 0 by {
                    assert(span.take(i) =~= s@.subrange(p as int, p + i));
                }
                assert(closed_value(span));
            }
            return Some(j);
        }
        if in_str {
            if esc {
                esc = false;
            } else if c == '\\' {
                esc = true;
            } else if c == '"' {
                in_str = false;
            }
        } else {
            if c == '{' || c == '[' {
                depth = depth + 1;
            } else if c == '}' || c == ']' {
                if depth == 0 {
                    // Here `c` must be `]`: a dip below depth zero, so no
                    // whole value contains this position at top level.
                    proof {
                        assert(c == ']');
                        assert(scan_run(scan_init(), s@.subrange(p as int, j as int + 1)).depth
                            == -1);
                        assert forall|v: Seq<char>|
                            #![trigger closed_value(v)]
                            closed_value(v) && p + v.len() < s@.len() && s@.subrange(
                                p as int,
                                p + v.len(),
                            ) == v implies !(s@[p + v.len()] == ',' || s@[p + v.len()] == '}') by {
                            let ll = v.len() as int;
                            if j < p + ll {
                                assert(v.take(j - p + 1) =~= s@.subrange(p as int, j as int + 1));
                                assert(scan_run(scan_init(), v.take(j - p + 1)).depth >= 0);
                                assert(false);
                            } else {
                                assert(s@.subrange(p as int, p + ll) == v);
                                assert(scan_run(scan_init(), s@.subrange(p as int, p + ll))
                                    == scan_init());
                                assert(s@[p + ll] != ',' && s@[p + ll] != '}') by {
                                    if s@[p + ll] == ',' || s@[p + ll] == '}' {
                                        assert(scan_stops(
                                            scan_run(scan_init(), s@.subrange(p as int, p + ll)),
                                            s@[p + ll],
                                        ));
                                        assert(p + ll < j || p + ll == j);
                                        if p + ll == j {
                                            assert(s@[j as int] == ']');
                                        }
                                        assert(false);
                                    }
                                }
                            }
                        }
                    }
                    return None;
                }
                depth = depth - 1;
            } else if c == '"' {
                in_str = true;
            }
        }
        j = j + 1;
    }
    // The text ended inside the value: nothing closed starts here.
    proof {
        assert forall|v: Seq<char>|
            #![trigger closed_value(v)]
            closed_value(v) && p + v.len() < s@.len() && s@.subrange(p as int, p + v.len())
                == v implies !(s@[p + v.len()] == ',' || s@[p + v.len()] == '}') by {
            let ll = v.len() as int;
            assert(scan_run(scan_init(), s@.subrange(p as int, p + ll)) == scan_init());
            if s@[p + ll] == ',' || s@[p + ll] == '}' {
                assert(scan_stops(scan_run(scan_init(), s@.subrange(p as int, p + ll)), s@[p + ll]));
                assert(false);
            }
        }
    }
    None
}

/// Whether all keys of the record mapping are distinct.
fn check_keys_distinct(records: &Vec<RecordEntry>) -> (b: bool)
    ensures
        b <==> (forall|i: int, j: int|
            0 <= i < j < records@.len() ==> records@[i].key@ != records@[j].key@),
{
    let n = records.len();
    let mut i: usize = 0;
    while i < n
        invariant
            n == records@.len(),
            0 <= i <= n,
            forall|a: int, b: int| 0 <= a < b < i ==> records@[a].key@ != records@[b].key@,
        decreases n - i,
    {
        let mut j: usize = 0;
        while j < i
            invariant
                n == records@.len(),
                0 <= j <= i < n,
                forall|a: int, b: int| 0 <= a < b < i ==> records@[a].key@ != records@[b].key@,
                forall|a: int| 0 <= a < j ==> records@[a].key@ != records@[i as int].key@,
            decreases i - j,
        {
            if records[j].key == records[i].key {
                return false;
            }
            j = j + 1;
        }
        i = i + 1;
    }
    true
}

/// Renders the entries of a record mapping, comma-joined.
fn render_entries(records: &Vec<RecordEntry>) -> (s: String)
    ensures
        s@ == entries_text(records@.map_values(|e: RecordEntry| (e.key@, e.value@))),
{
    let ghost es = records@.map_values(|e: RecordEntry| (e.key@, e.value@));
    let mut s = String::new();
    let n = records.len();
    let mut k: usize = 0;
    while k < n
        invariant
            n == records@.len(),
            0 <= k <= n,
            es == records@.map_values(|e: RecordEntry| (e.key@, e.value@)),
            s@ == entries_text(es.take(k as int)),
        decreases n - k,
    {
        proof {
            reveal_strlit(",");
            reveal_strlit("\"");
            reveal_strlit("\":");
        }
        if k > 0 {
            s.append(",");
            proof {
                assert(","@ =~= seq![',']);
            }
        }
        s.append("\"");
        s.append(records[k].key.as_str());
        s.append("\":");
        s.append(records[k].value.as_str());
        proof {
            assert("\""@ =~= seq!['"']);
            assert("\":"@ =~= seq!['"', ':']);
            assert(es[k as int] == (records@[k as int].key@, records@[k as int].value@));
            lemma_entries_text_take(es, k as int);
            if k == 0 {
                assert(s@ =~= entry_text(es[0]));
                assert(entries_text(es.take(1)) == entry_text(es[0]));
            } else {
                assert(s@ =~= entries_text(es.take(k as int)) + seq![','] + entry_text(
                    es[k as int],
                ));
            }
        }
        k = k + 1;
    }
    proof {
        assert(es.take(n as int) =~= es);
    }
    s
}

/// Renders a document into its canonical text.
pub fn render_document(d: &TableData) -> (s: String)
    ensures
        s@ == doc_text(d@),
{
    let mut s = String::new();
    proof {
        reveal_strlit("{\"table\":\"");
        reveal_strlit("\",\"next_id\":\"");
        reveal_strlit("\",\"records\":{");
        reveal_strlit("}}");
    }
    s.append("{\"table\":\"");
    s.append(d.table.as_str());
    s.append("\",\"next_id\":\"");
    let counter = u64_dec(d.next_id);
    s.append(counter.as_str());
    s.append("\",\"records\":{");
    let entries = render_entries(&d.records);
    s.append(entries.as_str());
    s.append("}}");
    proof {
        assert("{\"table\":\""@ =~= pre1());
        assert("\",\"next_id\":\""@ =~= mid1());
        assert("\",\"records\":{"@ =~= mid2());
        assert("}}"@ =~= tail2());
        assert(s@ =~= doc_text(d@));
    }
    s
}

/// The canonical text of a document, decomposed after its fixed opening.
proof fn lemma_doc_decompose(s: Seq<char>, m: DocModel)
    requires
        doc_text(m) == s,
    ensures
        s.len() == 10 + m.name.len() + mid1().len() + dec_digits(m.next_id).len() + mid2().len()
            + entries_text(m.records).len() + 2,
        s.subrange(0, 10) == pre1(),
        s.skip(10) == m.name + (mid1() + (dec_digits(m.next_id) + (mid2() + (entries_text(
            m.records,
        ) + tail2())))),
{
    assert(s.skip(0) =~= s);
    lemma_skip_cat(
        s,
        0,
        pre1(),
        m.name + (mid1() + (dec_digits(m.next_id) + (mid2() + (entries_text(m.records)
            + tail2())))),
    );
}

/// The text opens like a document through the counter: after the fixed
/// opening, a quote-free name, the fixed middle, then `ctr` as the
/// quote-free span before the next quote.  By the first-quote argument at
/// most one such split of a text exists.
pub open spec fn counter_text_of(s: Seq<char>, nm: Seq<char>, ctr: Seq<char>) -> bool {
    &&& (forall|i: int| 0 <= i < nm.len() ==> nm[i] != '"')
    &&& (forall|i: int| 0 <= i < ctr.len() ==> ctr[i] != '"')
    &&& (pre1() + (nm + (mid1() + (ctr + seq!['"'])))).is_prefix_of(s)
}

/// The text opens like a document whose counter region is not the canonical
/// decimal text of any representable counter value.
pub open spec fn counter_malformed(s: Seq<char>) -> bool {
    exists|nm: Seq<char>, ctr: Seq<char>|
        counter_text_of(s, nm, ctr) && !(exists|n: nat| n <= u64::MAX && ctr == dec_digits(n))
}

/// Unpacks the prefix shape of `counter_text_of` into a skip decomposition.
proof fn lemma_counter_text_parts(s: Seq<char>, nm: Seq<char>, ctr: Seq<char>)
    requires
        counter_text_of(s, nm, ctr),
    ensures
        10 + nm.len() + 13 + ctr.len() + 1 <= s.len(),
        s.subrange(0, 10) == pre1(),
        s.skip(10) == nm + (mid1() + (ctr + (seq!['"'] + s.skip(
            10 + nm.len() + 13 + ctr.len() as int + 1,
        )))),
{
    let p = pre1() + (nm + (mid1() + (ctr + seq!['"'])));
    let pl = p.len() as int;
    assert(pl == 10 + nm.len() + 13 + ctr.len() + 1);
    assert(s.subrange(0, pl) == p);
    assert forall|k: int| 0 <= k < 10 implies s.subrange(0, 10)[k] == pre1()[k] by {
        assert(s[k] == s.subrange(0, pl)[k]);
        assert(p[k] == pre1()[k]);
    }
    assert(s.subrange(0, 10) =~= pre1());
    let tail = s.skip(pl);
    let rhs = nm + (mid1() + (ctr + (seq!['"'] + tail)));
    assert forall|k: int| 0 <= k < s.len() - 10 implies s.skip(10)[k] == rhs[k] by {
        assert(s.skip(10)[k] == s[10 + k]);
        if 10 + k < pl {
            assert(s[10 + k] == s.subrange(0, pl)[10 + k]);
            assert(p[10 + k] == (nm + (mid1() + (ctr + seq!['"'])))[k]);
        } else {
            assert(s[10 + k] == tail[10 + k - pl]);
            assert(rhs[k] == tail[k - (pl - 10)]);
        }
    }
    assert(s.skip(10) =~= rhs);
}

/// Given the scan positions of the first quote after the opening and the
/// first quote after the fixed middle, any split in the sense of
/// `counter_text_of` has its counter span exactly between them.
proof fn lemma_counter_span_determined(s: Seq<char>, nm: Seq<char>, ctr: Seq<char>, j: int, j2: int)
    requires
        counter_text_of(s, nm, ctr),
        10 <= j < s.len(),
        s[j] == '"',
        forall|k: int| 10 <= k < j ==> s[k] != '"',
        j + 13 <= j2 < s.len(),
        s[j2] == '"',
        forall|k: int| j + 13 <= k < j2 ==> s[k] != '"',
    ensures
        ctr == s.subrange(j + 13, j2),
        nm == s.subrange(10, j),
{
    lemma_counter_text_parts(s, nm, ctr);
    let tail = s.skip(10 + nm.len() + 13 + ctr.len() as int + 1);
    lemma_until_quote(s, 10, nm, mid1() + (ctr + (seq!['"'] + tail)), j);
    lemma_skip_cat(s, j, mid1(), ctr + (seq!['"'] + tail));
    lemma_until_quote(s, j + 13, ctr, seq!['"'] + tail, j2);
}

/// Builds the `counter_text_of` split out of the scanned spans.
proof fn lemma_counter_text_witness(s: Seq<char>, j: int, j2: int)
    requires
        10 <= j,
        j + 13 <= j2 < s.len(),
        s.subrange(0, 10) == pre1(),
        forall|k: int| 10 <= k < j ==> s[k] != '"',
        s.subrange(j, j + 13) == mid1(),
        forall|k: int| j + 13 <= k < j2 ==> s[k] != '"',
        s[j2] == '"',
    ensures
        counter_text_of(s, s.subrange(10, j), s.subrange(j + 13, j2)),
{
    let nm = s.subrange(10, j);
    let ctr = s.subrange(j + 13, j2);
    let p = pre1() + (nm + (mid1() + (ctr + seq!['"'])));
    assert(p.len() == j2 + 1);
    assert forall|k: int| 0 <= k < j2 + 1 implies p[k] == s.subrange(0, j2 + 1)[k] by {
        assert(s.subrange(0, j2 + 1)[k] == s[k]);
        if k < 10 {
            assert(p[k] == pre1()[k]);
            assert(s[k] == s.subrange(0, 10)[k]);
        } else if k < j {
            assert(p[k] == nm[k - 10]);
        } else if k < j + 13 {
            assert(p[k] == mid1()[k - j]);
            assert(s[k] == s.subrange(j, j + 13)[k - j]);
        } else if k < j2 {
            assert(p[k] == ctr[k - (j + 13)]);
        } else {
            assert(p[k] == '"');
        }
    }
    assert(p =~= s.subrange(0, j2 + 1));
}

/// Where a quote-free span known to sit at `p` is followed by a quote, the
/// characters from `p` to the span's end are quote-free and the quote
/// stands right after them.
proof fn lemma_quote_free_span_facts(s: Seq<char>, p: int, x: Seq<char>, q: Seq<char>)
    requires
        0 <= p <= s.len(),
        s.skip(p) == x + q,
        forall|i: int| 0 <= i < x.len() ==> x[i] != '"',
        q.len() > 0,
        q[0] == '"',
    ensures
        p + x.len() < s.len(),
        s[p + x.len()] == '"',
        forall|k: int| p <= k < p + x.len() ==> s[k] != '"',
{
    lemma_skip_cat(s, p, x, q);
    assert(s[p + x.len()] == s.skip(p + x.len())[0]);
    assert forall|k: int| p <= k < p + x.len() implies s[k] != '"' by {
        assert(s[k] == s.skip(p)[k - p]);
        assert(s.skip(p)[k - p] == (x + q)[k - p]);
    }
}

/// Two record mappings with embeddable keys and whole-value records that
/// render (with the closing braces) to the same text are the same mapping.
#[verifier::rlimit(100)]
proof fn lemma_entries_inj(
    a: Seq<(Seq<char>, Seq<char>)>,
    b: Seq<(Seq<char>, Seq<char>)>,
    s: Seq<char>,
)
    requires
        forall|i: int|
            0 <= i < a.len() ==> key_ok((#[trigger] a[i]).0) && closed_value(a[i].1),
        forall|i: int|
            0 <= i < b.len() ==> key_ok((#[trigger] b[i]).0) && closed_value(b[i].1),
        s == entries_text(a) + tail2(),
        s == entries_text(b) + tail2(),
    ensures
        a =~= b,
    decreases a.len(),
{
    if a.len() == 0 && b.len() == 0 {
        assert(a =~= b);
    } else if a.len() == 0 {
        assert(s[0] == tail2()[0]);
        lemma_entries_peel(b, 0);
        assert(b.skip(0) =~= b);
        assert(entries_text(b)[0] == '"');
        assert(s[0] == entries_text(b)[0]);
        assert(false);
    } else if b.len() == 0 {
        assert(s[0] == tail2()[0]);
        lemma_entries_peel(a, 0);
        assert(a.skip(0) =~= a);
        assert(entries_text(a)[0] == '"');
        assert(s[0] == entries_text(a)[0]);
        assert(false);
    } else {
        lemma_entries_peel(a, 0);
        lemma_entries_peel(b, 0);
        assert(a.skip(0) =~= a);
        assert(b.skip(0) =~= b);
        let resta = (if 1 < a.len() {
            seq![','] + entries_text(a.skip(1))
        } else {
            Seq::<char>::empty()
        }) + tail2();
        let restb = (if 1 < b.len() {
            seq![','] + entries_text(b.skip(1))
        } else {
            Seq::<char>::empty()
        }) + tail2();
        assert(s.skip(0) =~= s);
        assert(s.skip(0) =~= seq!['"'] + (a[0].0 + (seq!['"', ':'] + (a[0].1 + resta))));
        assert(s.skip(0) =~= seq!['"'] + (b[0].0 + (seq!['"', ':'] + (b[0].1 + restb))));
        lemma_skip_cat(s, 0, seq!['"'], a[0].0 + (seq!['"', ':'] + (a[0].1 + resta)));
        lemma_skip_cat(s, 0, seq!['"'], b[0].0 + (seq!['"', ':'] + (b[0].1 + restb)));
        lemma_quote_free_span_facts(s, 1, a[0].0, seq!['"', ':'] + (a[0].1 + resta));
        let j = 1 + a[0].0.len() as int;
        lemma_until_quote(s, 1, b[0].0, seq!['"', ':'] + (b[0].1 + restb), j);
        lemma_until_quote(s, 1, a[0].0, seq!['"', ':'] + (a[0].1 + resta), j);
        assert(a[0].0 == b[0].0);
        lemma_skip_cat(s, j, seq!['"', ':'], a[0].1 + resta);
        lemma_skip_cat(s, j, seq!['"', ':'], b[0].1 + restb);
        assert(resta[0] == ',' || resta[0] == '}');
        assert(restb[0] == ',' || restb[0] == '}');
        assert(a[0].1 + resta == b[0].1 + restb);
        lemma_closed_value_unique(a[0].1, b[0].1, resta, restb);
        assert(a[0].1 == b[0].1);
        assert(resta == restb) by {
            assert(s.skip(j + 2 + a[0].1.len() as int) == resta);
            assert(s.skip(j + 2 + b[0].1.len() as int) == restb);
        }
        if 1 < a.len() && 1 < b.len() {
            let sa = entries_text(a.skip(1)) + tail2();
            let sb = entries_text(b.skip(1)) + tail2();
            assert(resta =~= seq![','] + sa);
            assert(restb =~= seq![','] + sb);
            assert(sa =~= sb) by {
                assert(forall|i: int|
                    0 <= i < sa.len() ==> sa[i] == (seq![','] + sa)[i + 1] && sb[i] == (seq![',']
                        + sb)[i + 1]);
            }
            assert(forall|i: int|
                0 <= i < a.skip(1).len() ==> a.skip(1)[i] == #[trigger] a[i + 1]);
            assert(forall|i: int|
                0 <= i < b.skip(1).len() ==> b.skip(1)[i] == #[trigger] b[i + 1]);
            lemma_entries_inj(a.skip(1), b.skip(1), sa);
            assert(a =~= b) by {
                assert(forall|i: int|
                    1 <= i < a.len() ==> #[trigger] a[i] == a.skip(1)[i - 1] && a.skip(1)[i - 1]
                        == b.skip(1)[i - 1] && b.skip(1)[i - 1] == b[i]);
            }
        } else if a.len() == 1 && b.len() == 1 {
            assert(a =~= b);
        } else if 1 < a.len() {
            assert(resta[0] == ',');
            assert(restb[0] == '}') by {
                assert(restb =~= tail2());
            }
            assert(false);
        } else {
            assert(restb[0] == ',');
            assert(resta[0] == '}') by {
                assert(resta =~= tail2());
            }
            assert(false);
        }
    }
}

/// The canonical text of a well-formed document determines the document:
/// rendering is injective, so parsing it back (in any way) can only return
/// the document that was rendered.
#[verifier::rlimit(100)]
pub proof fn lemma_doc_text_injective(m1: DocModel, m2: DocModel)
    requires
        m1.wf(),
        m2.wf(),
        doc_text(m1) == doc_text(m2),
    ensures
        m1 == m2,
{
    let s = doc_text(m1);
    lemma_doc_decompose(s, m1);
    lemma_doc_decompose(s, m2);
    let q1 = mid1() + (dec_digits(m1.next_id) + (mid2() + (entries_text(m1.records) + tail2())));
    let q2 = mid1() + (dec_digits(m2.next_id) + (mid2() + (entries_text(m2.records) + tail2())));
    lemma_quote_free_span_facts(s, 10, m1.name, q1);
    let j = 10 + m1.name.len() as int;
    lemma_until_quote(s, 10, m2.name, q2, j);
    lemma_until_quote(s, 10, m1.name, q1, j);
    assert(m1.name == m2.name);
    let r1 = dec_digits(m1.next_id) + (mid2() + (entries_text(m1.records) + tail2()));
    let r2 = dec_digits(m2.next_id) + (mid2() + (entries_text(m2.records) + tail2()));
    lemma_skip_cat(s, j, mid1(), r1);
    lemma_skip_cat(s, j, mid1(), r2);
    let j13 = j + 13;
    lemma_dec_digits_canonical(m1.next_id);
    lemma_digits_no_quote(dec_digits(m1.next_id));
    lemma_dec_digits_canonical(m2.next_id);
    lemma_digits_no_quote(dec_digits(m2.next_id));
    lemma_quote_free_span_facts(
        s,
        j13,
        dec_digits(m1.next_id),
        mid2() + (entries_text(m1.records) + tail2()),
    );
    let j2 = j13 + dec_digits(m1.next_id).len() as int;
    lemma_until_quote(s, j13, dec_digits(m2.next_id), mid2() + (entries_text(m2.records) + tail2()), j2);
    lemma_until_quote(s, j13, dec_digits(m1.next_id), mid2() + (entries_text(m1.records) + tail2()), j2);
    assert(dec_digits(m1.next_id) == dec_digits(m2.next_id));
    lemma_digits_val_dec(m1.next_id);
    lemma_digits_val_dec(m2.next_id);
    assert(m1.next_id == m2.next_id);
    lemma_skip_cat(s, j2, mid2(), entries_text(m1.records) + tail2());
    lemma_skip_cat(s, j2, mid2(), entries_text(m2.records) + tail2());
    let p0 = j2 + 13;
    lemma_entries_inj(m1.records, m2.records, s.skip(p0));
    assert(m1 =~= m2);
}

/// Parses the fixed opening of a document: the frame, the name, and the
/// counter, up to the first record entry.  On success returns the name, the
/// counter, and the position just past the record object's opening brace.
#[verifier::rlimit(100)]
fn parse_header(s: &str) -> (r: Result<(String, u64, usize), Error>)
    ensures
        r matches Ok(h) ==> ({
            &&& name_ok(h.0@)
            &&& h.2 <= s@.len()
            &&& !counter_malformed(s@)
            &&& forall|m: DocModel|
                #[trigger] matches_doc(s@, m) ==> m.name == h.0@ && m.next_id == h.1 as nat
                    && s@.skip(h.2 as int) == entries_text(m.records) + tail2()
        }),
        r matches Err(e) ==> !(exists|m: DocModel| #[trigger] matches_doc(s@, m)) && (e is Codec
            || e is ParseInt) && (e is ParseInt <==> counter_malformed(s@)),
{
    let n = s.unicode_len();
    proof {
        reveal_strlit("{\"table\":\"");
        reveal_strlit("\",\"next_id\":\"");
        reveal_strlit("\",\"records\":{");
        assert("{\"table\":\""@ =~= pre1());
        assert("\",\"next_id\":\""@ =~= mid1());
        assert("\",\"records\":{"@ =~= mid2());
    }
    // The fixed opening, through the first character of the name.
    if !expect_lit(s, 0, "{\"table\":\"") {
        proof {
            assert forall|m: DocModel| #![trigger matches_doc(s@, m)] !matches_doc(s@, m) by {
                if matches_doc(s@, m) {
                    lemma_doc_decompose(s@, m);
                }
            }
            if counter_malformed(s@) {
                let (nm, ctr) = choose|nm: Seq<char>, ctr: Seq<char>|
                    counter_text_of(s@, nm, ctr) && !(exists|n: nat|
                        n <= u64::MAX && ctr == dec_digits(n));
                lemma_counter_text_parts(s@, nm, ctr);
                assert(false);
            }
        }
        return Err(Error::Codec(0));
    }
    // The name runs to the next quote.
    let j = match find_quote(s, 10) {
        Some(j) => j,
        None => {
            proof {
                assert forall|m: DocModel| #![trigger matches_doc(s@, m)] !matches_doc(s@, m) by {
                    if matches_doc(s@, m) {
                        lemma_doc_decompose(s@, m);
                        lemma_skip_cat(
                            s@,
                            10,
                            m.name,
                            mid1() + (dec_digits(m.next_id) + (mid2() + (entries_text(m.records)
                                + tail2()))),
                        );
                        let w = 10 + m.name.len() as int;
                        assert(s@[w] == s@.skip(w)[0]);
                        assert(s@[w] == '"');
                    }
                }
                if counter_malformed(s@) {
                    let (nm, ctr) = choose|nm: Seq<char>, ctr: Seq<char>|
                        counter_text_of(s@, nm, ctr) && !(exists|n2: nat|
                            n2 <= u64::MAX && ctr == dec_digits(n2));
                    lemma_counter_text_parts(s@, nm, ctr);
                    let w = 10 + nm.len() as int;
                    assert(s@[w] == s@.skip(10)[nm.len() as int]);
                    assert(s@[w] == '"');
                    assert(false);
                }
            }
            return Err(Error::Codec(n));
        },
    };
    let table_name = String::from_str(s.substring_char(10, j));
    proof {
        assert(name_ok(table_name@));
        assert forall|m: DocModel| matches_doc(s@, m) implies m.name == table_name@ && s@.skip(
            j as int,
        ) == mid1() + (dec_digits(m.next_id) + (mid2() + (entries_text(m.records) + tail2()))) by {
            lemma_doc_decompose(s@, m);
            lemma_until_quote(
                s@,
                10,
                m.name,
                mid1() + (dec_digits(m.next_id) + (mid2() + (entries_text(m.records) + tail2()))),
                j as int,
            );
        }
    }
    // The text between the name and the counter.
    if !expect_lit(s, j, "\",\"next_id\":\"") {
        proof {
            assert forall|m: DocModel| #![trigger matches_doc(s@, m)] !matches_doc(s@, m) by {
                if matches_doc(s@, m) {
                    lemma_skip_cat(
                        s@,
                        j as int,
                        mid1(),
                        dec_digits(m.next_id) + (mid2() + (entries_text(m.records) + tail2())),
                    );
                }
            }
            if counter_malformed(s@) {
                let (nm, ctr) = choose|nm: Seq<char>, ctr: Seq<char>|
                    counter_text_of(s@, nm, ctr) && !(exists|n2: nat|
                        n2 <= u64::MAX && ctr == dec_digits(n2));
                lemma_counter_text_parts(s@, nm, ctr);
                let tail = s@.skip(10 + nm.len() + 13 + ctr.len() as int + 1);
                lemma_until_quote(s@, 10, nm, mid1() + (ctr + (seq!['"'] + tail)), j as int);
                lemma_skip_cat(s@, j as int, mid1(), ctr + (seq!['"'] + tail));
                assert(false);
            }
        }
        return Err(Error::Codec(j));
    }
    let j13 = j + 13;
    proof {
        assert forall|m: DocModel| matches_doc(s@, m) implies s@.skip(j13 as int) == dec_digits(
            m.next_id,
        ) + (mid2() + (entries_text(m.records) + tail2())) by {
            lemma_skip_cat(
                s@,
                j as int,
                mid1(),
                dec_digits(m.next_id) + (mid2() + (entries_text(m.records) + tail2())),
            );
        }
    }
    // The counter runs to the next quote.
    let j2 = match find_quote(s, j13) {
        Some(j2) => j2,
        None => {
            proof {
                assert forall|m: DocModel| #![trigger matches_doc(s@, m)] !matches_doc(s@, m) by {
                    if matches_doc(s@, m) {
                        lemma_skip_cat(
                            s@,
                            j13 as int,
                            dec_digits(m.next_id),
                            mid2() + (entries_text(m.records) + tail2()),
                        );
                        let w = j13 + dec_digits(m.next_id).len() as int;
                        assert(s@[w] == s@.skip(w)[0]);
                        assert(s@[w] == '"');
                    }
                }
                if counter_malformed(s@) {
                    let (nm, ctr) = choose|nm: Seq<char>, ctr: Seq<char>|
                        counter_text_of(s@, nm, ctr) && !(exists|n2: nat|
                            n2 <= u64::MAX && ctr == dec_digits(n2));
                    lemma_counter_text_parts(s@, nm, ctr);
                    let tail = s@.skip(10 + nm.len() + 13 + ctr.len() as int + 1);
                    lemma_until_quote(s@, 10, nm, mid1() + (ctr + (seq!['"'] + tail)), j as int);
                    lemma_skip_cat(s@, j as int, mid1(), ctr + (seq!['"'] + tail));
                    let w = j13 + ctr.len() as int;
                    assert(s@[w] == s@.skip(j13 as int)[ctr.len() as int]);
                    assert(s@[w] == '"');
                    assert(false);
                }
            }
            return Err(Error::Codec(n));
        },
    };
    proof {
        assert forall|m: DocModel| matches_doc(s@, m) implies s@.subrange(j13 as int, j2 as int)
            == dec_digits(m.next_id) && s@.skip(j2 as int) == mid2() + (entries_text(m.records)
            + tail2()) by {
            lemma_dec_digits_canonical(m.next_id);
            lemma_digits_no_quote(dec_digits(m.next_id));
            lemma_until_quote(
                s@,
                j13 as int,
                dec_digits(m.next_id),
                mid2() + (entries_text(m.records) + tail2()),
                j2 as int,
            );
        }
    }
    let nid = match parse_dec(s, j13, j2) {
        Some(nid) => nid,
        None => {
            proof {
                assert forall|m: DocModel| #![trigger matches_doc(s@, m)] !matches_doc(s@, m) by {
                    if matches_doc(s@, m) {
                        assert(s@.subrange(j13 as int, j2 as int) == dec_digits(m.next_id));
                    }
                }
                lemma_counter_text_witness(s@, j as int, j2 as int);
                let ctr = s@.subrange(j13 as int, j2 as int);
                assert(counter_text_of(s@, s@.subrange(10, j as int), ctr));
                assert(!(exists|n2: nat| n2 <= u64::MAX && ctr == dec_digits(n2))) by {
                    if exists|n2: nat| n2 <= u64::MAX && ctr == dec_digits(n2) {
                        let n2 = choose|n2: nat| n2 <= u64::MAX && ctr == dec_digits(n2);
                        assert(false);
                    }
                }
                assert(counter_malformed(s@));
            }
            return Err(Error::ParseInt(String::from_str(s.substring_char(j13, j2))));
        },
    };
    proof {
        assert forall|m: DocModel| matches_doc(s@, m) implies m.next_id == nid as nat by {
            assert(s@.subrange(j13 as int, j2 as int) == dec_digits(m.next_id));
            assert(dec_digits(nid as nat) == dec_digits(m.next_id));
            lemma_digits_val_dec(nid as nat);
            lemma_digits_val_dec(m.next_id);
        }
        assert(!counter_malformed(s@)) by {
            if counter_malformed(s@) {
                let (nm, ctr) = choose|nm: Seq<char>, ctr: Seq<char>|
                    counter_text_of(s@, nm, ctr) && !(exists|n2: nat|
                        n2 <= u64::MAX && ctr == dec_digits(n2));
                lemma_counter_span_determined(s@, nm, ctr, j as int, j2 as int);
                assert(ctr == dec_digits(nid as nat));
                assert(nid as nat <= u64::MAX && ctr == dec_digits(nid as nat));
                assert(false);
            }
        }
    }
    // The text between the counter and the record object's entries.
    if !expect_lit(s, j2, "\",\"records\":{") {
        proof {
            assert forall|m: DocModel| #![trigger matches_doc(s@, m)] !matches_doc(s@, m) by {
                if matches_doc(s@, m) {
                    lemma_skip_cat(
                        s@,
                        j2 as int,
                        mid2(),
                        entries_text(m.records) + tail2(),
                    );
                }
            }
        }
        return Err(Error::Codec(j2));
    }
    let p0 = j2 + 13;
    proof {
        assert forall|m: DocModel| matches_doc(s@, m) implies s@.skip(p0 as int) == entries_text(
            m.records,
        ) + tail2() by {
            lemma_skip_cat(s@, j2 as int, mid2(), entries_text(m.records) + tail2());
        }
    }
    Ok((table_name, nid, p0))
}

/// Parses canonical document text.  Succeeds exactly on the canonical text
/// of a well-formed document, and returns that document; the counter region
/// failing to be canonical decimal text is reported as `ParseInt`, any other
/// departure from the shape as `Codec`.
#[verifier::rlimit(100)]
pub fn parse_document(s: &str) -> (r: Result<TableData, Error>)
    ensures
        r matches Ok(d) ==> d@.wf() && s@ == doc_text(d@),
        r matches Ok(d) ==> forall|m: DocModel| #[trigger] matches_doc(s@, m) ==> d@ == m,
        (exists|m: DocModel| #[trigger] matches_doc(s@, m)) ==> r is Ok,
        r matches Err(e) ==> (e is Codec || e is ParseInt),
        r matches Err(e) ==> (e is ParseInt <==> counter_malformed(s@)),
        r is Ok ==> !counter_malformed(s@),
{
    let n = s.unicode_len();
    let h = match parse_header(s) {
        Err(e) => {
            return Err(e);
        },
        Ok(h) => h,
    };
    let table_name = h.0;
    let nid = h.1;
    let p0 = h.2;
    // The record entries.
    let mut entries: Vec<RecordEntry> = Vec::new();
    let mut p = p0;
    if p >= n {
        proof {
            assert forall|m: DocModel| #![trigger matches_doc(s@, m)] !matches_doc(s@, m) by {
                if matches_doc(s@, m) {
                    assert(s@.skip(p as int).len() >= tail2().len());
                }
            }
        }
        return Err(Error::Codec(p));
    }
    let c0 = s.get_char(p);
    if c0 == '}' {
        p = p + 1;
        proof {
            assert forall|m: DocModel| matches_doc(s@, m) implies m.records.len() == 0 && s@.skip(
                p as int,
            ) == seq!['}'] by {
                if m.records.len() > 0 {
                    lemma_entries_peel(m.records, 0);
                    assert(m.records.skip(0) =~= m.records);
                    assert(entries_text(m.records)[0] == '"');
                    assert(s@[p0 as int] == s@.skip(p0 as int)[0]);
                    assert(false);
                }
                assert(entries_text(m.records).len() == 0);
                assert(s@.skip(p0 as int) =~= tail2());
                assert(tail2() =~= seq!['}'] + seq!['}']);
                lemma_skip_cat(s@, p0 as int, seq!['}'], seq!['}']);
            }
        }
    } else {
        proof {
            assert forall|m: DocModel| matches_doc(s@, m) implies 0 < m.records.len() && s@.skip(
                p as int,
            ) == entries_text(m.records.skip(0)) + tail2() by {
                if m.records.len() == 0 {
                    assert(entries_text(m.records).len() == 0);
                    assert(s@.skip(p0 as int) =~= tail2());
                    assert(s@[p0 as int] == s@.skip(p0 as int)[0]);
                    assert(false);
                }
                assert(m.records.skip(0) =~= m.records);
            }
        }
        let mut more = true;
        while more
            invariant
                n == s@.len(),
                p0 <= p <= n,
                name_ok(table_name@),
                forall|i: int|
                    0 <= i < entries@.len() ==> key_ok((#[trigger] entries@[i]).key@)
                        && closed_value(entries@[i].value@),
                more ==> forall|m: DocModel| #[trigger]
                    matches_doc(s@, m) ==> m.name == table_name@ && m.next_id == nid as nat
                        && entries@.len() < m.records.len() && (forall|i: int|
                        0 <= i < entries@.len() ==> #[trigger] m.records[i] == (
                        entries@[i].key@,
                        entries@[i].value@,
                        )) && s@.skip(p as int) == entries_text(
                        m.records.skip(entries@.len() as int),
                    ) + tail2(),
                !more ==> forall|m: DocModel| #[trigger]
                    matches_doc(s@, m) ==> m.name == table_name@ && m.next_id == nid as nat
                        && m.records.len() == entries@.len() && (forall|i: int|
                        0 <= i < entries@.len() ==> #[trigger] m.records[i] == (
                        entries@[i].key@,
                        entries@[i].value@,
                        )) && s@.skip(p as int) == seq!['}'],
                !counter_malformed(s@),
            decreases n - p,
        {
            let ghost k = entries@.len() as int;
            proof {
                reveal_strlit("\":");
                assert("\":"@ =~= seq!['"', ':']);
            }
            // Each entry opens with a quoted key.
            if p >= n {
                proof {
                    assert forall|m: DocModel| #![trigger matches_doc(s@, m)] !matches_doc(s@, m) by {
                        if matches_doc(s@, m) {
                            assert(s@.skip(p as int).len() >= tail2().len());
                        }
                    }
                }
                return Err(Error::Codec(p));
            }
            let cq = s.get_char(p);
            proof {
                assert forall|m: DocModel| matches_doc(s@, m) implies s@.skip(p as int) == seq!['"']
                    + (m.records[k].0 + (seq!['"', ':'] + (m.records[k].1 + ((if k + 1
                    < m.records.len() {
                    seq![','] + entries_text(m.records.skip(k + 1))
                } else {
                    Seq::<char>::empty()
                }) + tail2())))) by {
                    lemma_entries_peel(m.records, k);
                    assert(s@.skip(p as int) =~= seq!['"'] + (m.records[k].0 + (seq!['"', ':'] + (
                    m.records[k].1 + ((if k + 1 < m.records.len() {
                        seq![','] + entries_text(m.records.skip(k + 1))
                    } else {
                        Seq::<char>::empty()
                    }) + tail2())))));
                }
            }
            if cq != '"' {
                proof {
                    assert forall|m: DocModel| #![trigger matches_doc(s@, m)] !matches_doc(s@, m) by {
                        if matches_doc(s@, m) {
                            assert(s@[p as int] == s@.skip(p as int)[0]);
                        }
                    }
                }
                return Err(Error::Codec(p));
            }
            // The key runs to the next quote.
            let jk = match find_quote(s, p + 1) {
                Some(jk) => jk,
                None => {
                    proof {
                        assert forall|m: DocModel| #![trigger matches_doc(s@, m)] !matches_doc(
                            s@,
                            m,
                        ) by {
                            if matches_doc(s@, m) {
                                lemma_skip_cat(
                                    s@,
                                    p as int,
                                    seq!['"'],
                                    m.records[k].0 + (seq!['"', ':'] + (m.records[k].1 + ((if k + 1
                                        < m.records.len() {
                                        seq![','] + entries_text(m.records.skip(k + 1))
                                    } else {
                                        Seq::<char>::empty()
                                    }) + tail2()))),
                                );
                                lemma_skip_cat(
                                    s@,
                                    p as int + 1,
                                    m.records[k].0,
                                    seq!['"', ':'] + (m.records[k].1 + ((if k + 1
                                        < m.records.len() {
                                        seq![','] + entries_text(m.records.skip(k + 1))
                                    } else {
                                        Seq::<char>::empty()
                                    }) + tail2())),
                                );
                                let w = p + 1 + m.records[k].0.len() as int;
                                assert(s@[w] == s@.skip(w)[0]);
                                assert(s@[w] == '"');
                            }
                        }
                    }
                    return Err(Error::Codec(n));
                },
            };
            let key_str = String::from_str(s.substring_char(p + 1, jk));
            proof {
                assert forall|i: int| 0 <= i < key_str@.len() implies key_str@[i] != '"' by {
                    assert(key_str@[i] == s@[p + 1 + i]);
                }
                assert forall|m: DocModel| matches_doc(s@, m) implies m.records[k].0 == key_str@
                    && s@.skip(jk as int) == seq!['"', ':'] + (m.records[k].1 + ((if k + 1
                    < m.records.len() {
                    seq![','] + entries_text(m.records.skip(k + 1))
                } else {
                    Seq::<char>::empty()
                }) + tail2())) by {
                    lemma_skip_cat(
                        s@,
                        p as int,
                        seq!['"'],
                        m.records[k].0 + (seq!['"', ':'] + (m.records[k].1 + ((if k + 1
                            < m.records.len() {
                            seq![','] + entries_text(m.records.skip(k + 1))
                        } else {
                            Seq::<char>::empty()
                        }) + tail2()))),
                    );
                    lemma_until_quote(
                        s@,
                        p as int + 1,
                        m.records[k].0,
                        seq!['"', ':'] + (m.records[k].1 + ((if k + 1 < m.records.len() {
                            seq![','] + entries_text(m.records.skip(k + 1))
                        } else {
                            Seq::<char>::empty()
                        }) + tail2())),
                        jk as int,
                    );
                }
            }
            if find_backslash(s, p + 1, jk) {
                proof {
                    assert forall|m: DocModel| #![trigger matches_doc(s@, m)] !matches_doc(s@, m) by {
                        if matches_doc(s@, m) {
                            assert(key_ok(m.records[k].0));
                            let w = choose|w: int|
                                p + 1 <= w < jk && s@[w] == '\\';
                            assert(m.records[k].0[w - (p + 1)] == s@[w]);
                        }
                    }
                }
                return Err(Error::Codec(p + 1));
            }
            proof {
                assert forall|i: int| 0 <= i < key_str@.len() implies key_str@[i] != '\\' by {
                    assert(key_str@[i] == s@[p + 1 + i]);
                }
                assert(key_ok(key_str@));
            }
            // The colon between key and value.
            if !expect_lit(s, jk, "\":") {
                proof {
                    assert forall|m: DocModel| #![trigger matches_doc(s@, m)] !matches_doc(s@, m) by {
                        if matches_doc(s@, m) {
                            lemma_skip_cat(
                                s@,
                                jk as int,
                                seq!['"', ':'],
                                m.records[k].1 + ((if k + 1 < m.records.len() {
                                    seq![','] + entries_text(m.records.skip(k + 1))
                                } else {
                                    Seq::<char>::empty()
                                }) + tail2()),
                            );
                        }
                    }
                }
                return Err(Error::Codec(jk));
            }
            proof {
                assert forall|m: DocModel| matches_doc(s@, m) implies s@.skip(jk as int + 2)
                    == m.records[k].1 + ((if k + 1 < m.records.len() {
                    seq![','] + entries_text(m.records.skip(k + 1))
                } else {
                    Seq::<char>::empty()
                }) + tail2()) by {
                    lemma_skip_cat(
                        s@,
                        jk as int,
                        seq!['"', ':'],
                        m.records[k].1 + ((if k + 1 < m.records.len() {
                            seq![','] + entries_text(m.records.skip(k + 1))
                        } else {
                            Seq::<char>::empty()
                        }) + tail2()),
                    );
                }
            }
            // The value: one whole JSON value.
            let vend = match scan_value(s, jk + 2) {
                Some(vend) => vend,
                None => {
                    proof {
                        assert forall|m: DocModel| #![trigger matches_doc(s@, m)] !matches_doc(
                            s@,
                            m,
                        ) by {
                            if matches_doc(s@, m) {
                                let v = m.records[k].1;
                                let rest = (if k + 1 < m.records.len() {
                                    seq![','] + entries_text(m.records.skip(k + 1))
                                } else {
                                    Seq::<char>::empty()
                                }) + tail2();
                                lemma_skip_cat(s@, jk as int + 2, v, rest);
                                assert(closed_value(v));
                                assert(s@[jk + 2 + v.len()] == s@.skip(jk + 2 + v.len() as int)[0]);
                                assert(rest[0] == ',' || rest[0] == '}');
                            }
                        }
                    }
                    return Err(Error::Codec(jk + 2));
                },
            };
            proof {
                assert forall|m: DocModel| matches_doc(s@, m) implies m.records[k].1 == s@.subrange(
                    jk as int + 2,
                    vend as int,
                ) && s@.skip(vend as int) == (if k + 1 < m.records.len() {
                    seq![','] + entries_text(m.records.skip(k + 1))
                } else {
                    Seq::<char>::empty()
                }) + tail2() by {
                    let v = m.records[k].1;
                    let rest = (if k + 1 < m.records.len() {
                        seq![','] + entries_text(m.records.skip(k + 1))
                    } else {
                        Seq::<char>::empty()
                    }) + tail2();
                    lemma_skip_cat(s@, jk as int + 2, v, rest);
                    let mine = s@.subrange(jk as int + 2, vend as int);
                    assert(mine + s@.skip(vend as int) =~= s@.skip(jk as int + 2));
                    assert(v + rest == s@.skip(jk as int + 2));
                    assert(rest[0] == ',' || rest[0] == '}');
                    assert(s@.skip(vend as int)[0] == s@[vend as int]);
                    lemma_closed_value_unique(mine, v, s@.skip(vend as int), rest);
                    assert(vend as int == jk + 2 + v.len());
                }
            }
            let val_str = String::from_str(s.substring_char(jk + 2, vend));
            let value_rt = RecordText::from_closed(val_str);
            let ghost kview = key_str@;
            let ghost vview = value_rt@;
            let ghost vwf = value_rt.wf();
            entries.push(RecordEntry { key: key_str, value: value_rt });
            proof {
                assert(entries@.len() == k + 1);
                assert(entries@[k].key@ == kview && entries@[k].value@ == vview);
                assert(key_ok(kview) && closed_value(vview));
            }
            // The delimiter after the value: a comma continues the entries, a
            // closing brace ends them.
            let cd = s.get_char(vend);
            if cd == ',' {
                p = vend + 1;
                proof {
                    assert forall|m: DocModel| matches_doc(s@, m) implies entries@.len()
                        < m.records.len() && (forall|i: int|
                        0 <= i < entries@.len() ==> #[trigger] m.records[i] == (
                        entries@[i].key@,
                        entries@[i].value@,
                        )) && s@.skip(p as int) == entries_text(
                        m.records.skip(entries@.len() as int),
                    ) + tail2() by {
                        assert(s@[vend as int] == s@.skip(vend as int)[0]);
                        if k + 1 == m.records.len() {
                            assert(s@.skip(vend as int) =~= tail2());
                            assert(false);
                        }
                        assert(s@.skip(vend as int) =~= seq![','] + (entries_text(
                            m.records.skip(k + 1),
                        ) + tail2()));
                        lemma_skip_cat(
                            s@,
                            vend as int,
                            seq![','],
                            entries_text(m.records.skip(k + 1)) + tail2(),
                        );
                        assert(m.records[k] == (entries@[k].key@, entries@[k].value@));
                    }
                }
            } else if cd == '}' {
                p = vend + 1;
                more = false;
                proof {
                    assert forall|m: DocModel| matches_doc(s@, m) implies m.records.len()
                        == entries@.len() && (forall|i: int|
                        0 <= i < entries@.len() ==> #[trigger] m.records[i] == (
                        entries@[i].key@,
                        entries@[i].value@,
                        )) && s@.skip(p as int) == seq!['}'] by {
                        assert(s@[vend as int] == s@.skip(vend as int)[0]);
                        if k + 1 < m.records.len() {
                            assert(s@.skip(vend as int)[0] == ',');
                            assert(false);
                        }
                        assert(s@.skip(vend as int) =~= tail2());
                        assert(tail2() =~= seq!['}'] + seq!['}']);
                        lemma_skip_cat(s@, vend as int, seq!['}'], seq!['}']);
                        assert(m.records[k] == (entries@[k].key@, entries@[k].value@));
                    }
                }
            } else {
                proof {
                    assert forall|m: DocModel| #![trigger matches_doc(s@, m)] !matches_doc(s@, m) by {
                        if matches_doc(s@, m) {
                            assert(s@[vend as int] == s@.skip(vend as int)[0]);
                            if k + 1 < m.records.len() {
                                assert(s@.skip(vend as int)[0] == ',');
                            } else {
                                assert(s@.skip(vend as int)[0] == '}');
                            }
                        }
                    }
                }
                return Err(Error::Codec(vend));
            }
        }
    }
    // The document closes with one more brace, and nothing after it.
    if p >= n {
        proof {
            assert forall|m: DocModel| #![trigger matches_doc(s@, m)] !matches_doc(s@, m) by {
                if matches_doc(s@, m) {
                    assert(s@.skip(p as int).len() == 1);
                }
            }
        }
        return Err(Error::Codec(p));
    }
    let cz = s.get_char(p);
    if cz != '}' {
        proof {
            assert forall|m: DocModel| #![trigger matches_doc(s@, m)] !matches_doc(s@, m) by {
                if matches_doc(s@, m) {
                    assert(s@[p as int] == s@.skip(p as int)[0]);
                }
            }
        }
        return Err(Error::Codec(p));
    }
    if p + 1 != n {
        proof {
            assert forall|m: DocModel| #![trigger matches_doc(s@, m)] !matches_doc(s@, m) by {
                if matches_doc(s@, m) {
                    assert(s@.skip(p as int).len() == 1);
                }
            }
        }
        return Err(Error::Codec(p + 1));
    }
    // Keys must be distinct for the document to be well-formed.
    if !check_keys_distinct(&entries) {
        proof {
            assert forall|m: DocModel| #![trigger matches_doc(s@, m)] !matches_doc(s@, m) by {
                if matches_doc(s@, m) {
                    assert forall|aa: int, bb: int|
                        0 <= aa < bb < entries@.len() implies entries@[aa].key@
                        != entries@[bb].key@ by {
                        assert(m.records[aa] == (entries@[aa].key@, entries@[aa].value@));
                        assert(m.records[bb] == (entries@[bb].key@, entries@[bb].value@));
                    }
                    assert(false);
                }
            }
        }
        return Err(Error::Codec(0));
    }
    let d = TableData { table: table_name, next_id: nid, records: entries };
    let rendered = render_document(&d);
    let s_string = String::from_str(s);
    if rendered == s_string {
        proof {
            assert(d@.wf()) by {
                assert(forall|i: int|
                    0 <= i < d@.records.len() ==> #[trigger] d@.records[i] == (
                    d.records@[i].key@,
                    d.records@[i].value@,
                    ));
            }
            assert forall|m: DocModel| matches_doc(s@, m) implies d@ == m by {
                assert(forall|i: int|
                    0 <= i < d@.records.len() ==> #[trigger] d@.records[i] == (
                    d.records@[i].key@,
                    d.records@[i].value@,
                    ));
                assert(m.records =~= d@.records);
                assert(m =~= d@);
            }
        }
        Ok(d)
    } else {
        proof {
            assert forall|m: DocModel| #![trigger matches_doc(s@, m)] !matches_doc(s@, m) by {
                if matches_doc(s@, m) {
                    assert(forall|i: int|
                        0 <= i < d@.records.len() ==> #[trigger] d@.records[i] == (
                        d.records@[i].key@,
                        d.records@[i].value@,
                        ));
                    assert(m.records =~= d@.records);
                    assert(m =~= d@);
                    assert(doc_text(m) == rendered@);
                }
            }
        }
        Err(Error::Codec(0))
    }
}

/// Renders the document that the whole-mapping overwrite path writes: the
/// given text stored as the single record under key `"0"`, with the counter
/// at `1`.
pub fn render_wrapped(table: &str, value_text: &str) -> (s: String)
    ensures
        s@ == doc_text(base_model(table@, value_text@)),
{
    let mut s = String::new();
    proof {
        reveal_strlit("{\"table\":\"");
        reveal_strlit("\",\"next_id\":\"1\",\"records\":{\"0\":");
        reveal_strlit("}}");
    }
    s.append("{\"table\":\"");
    s.append(table);
    s.append("\",\"next_id\":\"1\",\"records\":{\"0\":");
    s.append(value_text);
    s.append("}}");
    proof {
        let m = base_model(table@, value_text@);
        assert(dec_digits(1) =~= seq!['1']);
        assert(dec_digits(0) =~= seq!['0']);
        assert(m.records.len() == 1);
        assert(entries_text(m.records) == entry_text(m.records[0]));
        assert(s@ =~= doc_text(m));
    }
    s
}

/// Renders a record mapping alone, as one JSON object:
/// `{"<key>":<value>,...}`.
pub fn render_records_object(records: &Vec<RecordEntry>) -> (s: String)
    ensures
        s@ == obj_text(records@.map_values(|e: RecordEntry| (e.key@, e.value@))),
{
    let mut s = String::new();
    proof {
        reveal_strlit("{");
        reveal_strlit("}");
    }
    s.append("{");
    let entries = render_entries(records);
    s.append(entries.as_str());
    s.append("}");
    proof {
        assert("{"@ =~= seq!['{']);
        assert("}"@ =~= seq!['}']);
        assert(s@ =~= obj_text(records@.map_values(|e: RecordEntry| (e.key@, e.value@))));
    }
    s
}

} // verus!
