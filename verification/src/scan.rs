//! A character-level scanner for JSON values.
//!
//! The persisted document format embeds each record as a JSON value, verbatim.
//! To cut such a value back out of a document the engine only needs to know
//! where the value ends, never what it means.  This module defines a small
//! automaton over characters that tracks bracket depth and string literals,
//! the predicate `closed_value` that says a character sequence is one whole
//! JSON value, and an executable check for that predicate.

use vstd::prelude::*;

verus! {

/// State of the value scanner: bracket nesting depth, whether the scanner is
/// inside a string literal, and whether the previous character was an
/// unconsumed backslash escape.
pub ghost struct ScanState {
    pub depth: int,
    pub in_str: bool,
    pub esc: bool,
}

/// The state in which a scan of a whole value starts and ends.
pub open spec fn scan_init() -> ScanState {
    ScanState { depth: 0, in_str: false, esc: false }
}

/// One transition of the scanner automaton.
pub open spec fn scan_step(st: ScanState, c: char) -> ScanState {
    if st.in_str {
        if st.esc {
            ScanState { esc: false, ..st }
        } else if c == '\\' {
            ScanState { esc: true, ..st }
        } else if c == '"' {
            ScanState { in_str: false, ..st }
        } else {
            st
        }
    } else {
        if c == '{' || c == '[' {
            ScanState { depth: st.depth + 1, ..st }
        } else if c == '}' || c == ']' {
            ScanState { depth: st.depth - 1, ..st }
        } else if c == '"' {
            ScanState { in_str: true, ..st }
        } else {
            st
        }
    }
}

/// Running the scanner over a whole sequence.
pub open spec fn scan_run(st: ScanState, s: Seq<char>) -> ScanState
    decreases s.len(),
{
    if s.len() == 0 {
        st
    } else {
        scan_run(scan_step(st, s[0]), s.drop_first())
    }
}

/// A scan of a value stops at the first comma or closing brace that appears
/// at top level, outside any string literal: that character belongs to the
/// surrounding document, not to the value.
pub open spec fn scan_stops(st: ScanState, c: char) -> bool {
    !st.in_str && st.depth == 0 && (c == ',' || c == '}')
}

/// `v` is one whole JSON value: it is nonempty, the scanner runs through it
/// from the initial state back to the initial state, never meets a top-level
/// comma or closing brace on the way, and never lets the bracket depth drop
/// below zero.
pub open spec fn closed_value(v: Seq<char>) -> bool {
    &&& v.len() > 0
    &&& scan_run(scan_init(), v) == scan_init()
    &&& forall|i: int|
        0 <= i < v.len() ==> !scan_stops(scan_run(scan_init(), #[trigger] v.take(i)), v[i])
    &&& forall|i: int| 0 <= i <= v.len() ==> scan_run(scan_init(), #[trigger] v.take(i)).depth >= 0
}

/// Running the scanner over a concatenation runs it over the parts in turn.
pub proof fn lemma_scan_run_concat(st: ScanState, a: Seq<char>, b: Seq<char>)
    ensures
        scan_run(st, a + b) == scan_run(scan_run(st, a), b),
    decreases a.len(),
{
    if a.len() == 0 {
        assert(a + b =~= b);
    } else {
        assert((a + b).drop_first() =~= a.drop_first() + b);
        assert((a + b)[0] == a[0]);
        lemma_scan_run_concat(scan_step(st, a[0]), a.drop_first(), b);
    }
}

/// Extending a scanned prefix by one character takes one step.
pub proof fn lemma_scan_run_snoc(st: ScanState, s: Seq<char>, i: int)
    requires
        0 <= i < s.len(),
    ensures
        scan_run(st, s.take(i + 1)) == scan_step(scan_run(st, s.take(i)), s[i]),
{
    assert(s.take(i + 1) =~= s.take(i) + seq![s[i]]);
    lemma_scan_run_concat(st, s.take(i), seq![s[i]]);
    assert(scan_run(scan_run(st, s.take(i)), seq![s[i]]) == scan_step(
        scan_run(st, s.take(i)),
        s[i],
    )) by {
        reveal_with_fuel(scan_run, 2);
        assert(seq![s[i]].drop_first() =~= Seq::<char>::empty());
    }
}

/// Running the scanner over a single character takes one step.
pub proof fn lemma_scan_run_one(st: ScanState, c: char)
    ensures
        scan_run(st, seq![c]) == scan_step(st, c),
{
    reveal_with_fuel(scan_run, 2);
    assert(seq![c].drop_first() =~= Seq::<char>::empty());
}

/// Extending a scanned span by one character takes one step.
pub proof fn lemma_scan_run_sub_snoc(st: ScanState, s: Seq<char>, p: int, j: int)
    requires
        0 <= p <= j < s.len(),
    ensures
        scan_run(st, s.subrange(p, j + 1)) == scan_step(scan_run(st, s.subrange(p, j)), s[j]),
{
    assert(s.subrange(p, j + 1) =~= s.subrange(p, j) + seq![s[j]]);
    lemma_scan_run_concat(st, s.subrange(p, j), seq![s[j]]);
    lemma_scan_run_one(scan_run(st, s.subrange(p, j)), s[j]);
}

/// Two whole values followed by top-level delimiters cannot share one text:
/// the first top-level delimiter position pins the length of the value.
pub proof fn lemma_closed_value_unique(v1: Seq<char>, v2: Seq<char>, r1: Seq<char>, r2: Seq<char>)
    requires
        closed_value(v1),
        closed_value(v2),
        v1 + r1 == v2 + r2,
        r1.len() > 0,
        r2.len() > 0,
        r1[0] == ',' || r1[0] == '}',
        r2[0] == ',' || r2[0] == '}',
    ensures
        v1 == v2,
{
    if v1.len() < v2.len() {
        let l = v1.len() as int;
        assert(v2.take(l) =~= v1) by {
            assert(forall|i: int| 0 <= i < l ==> v2[i] == (v2 + r2)[i] && v1[i] == (v1 + r1)[i]);
        }
        assert(v2[l] == (v1 + r1)[l]);
        assert((v1 + r1)[l] == r1[0]);
        assert(scan_stops(scan_run(scan_init(), v2.take(l)), v2[l]));
        assert(false);
    } else if v2.len() < v1.len() {
        let l = v2.len() as int;
        assert(v1.take(l) =~= v2) by {
            assert(forall|i: int| 0 <= i < l ==> v1[i] == (v1 + r1)[i] && v2[i] == (v2 + r2)[i]);
        }
        assert(v1[l] == (v2 + r2)[l]);
        assert((v2 + r2)[l] == r2[0]);
        assert(scan_stops(scan_run(scan_init(), v1.take(l)), v1[l]));
        assert(false);
    } else {
        assert(v1 =~= v2) by {
            assert(forall|i: int| 0 <= i < v1.len() ==> v1[i] == (v1 + r1)[i] && v2[i] == (v2
                + r2)[i]);
        }
    }
}

/// Executable form of `closed_value`.
pub fn check_closed(s: &str) -> (b: bool)
    ensures
        b == closed_value(s@),
{
    let n = s.unicode_len();
    if n == 0 {
        return false;
    }
    let mut i: usize = 0;
    let mut depth: usize = 0;
    let mut in_str: bool = false;
    let mut esc: bool = false;
    while i < n
        invariant
            0 < n == s@.len(),
            0 <= i <= n,
            depth <= i,
            scan_run(scan_init(), s@.take(i as int)) == (ScanState {
                depth: depth as int,
                in_str: in_str,
                esc: esc,
            }),
            !in_str ==> !esc,
            forall|k: int|
                0 <= k < i ==> !scan_stops(scan_run(scan_init(), #[trigger] s@.take(k)), s@[k]),
            forall|k: int| 0 <= k <= i ==> scan_run(scan_init(), #[trigger] s@.take(k)).depth >= 0,
        decreases n - i,
    {
        let c = s.get_char(i);
        proof {
            lemma_scan_run_snoc(scan_init(), s@, i as int);
        }
        if in_str {
            if esc {
                esc = false;
            } else if c == '\\' {
                esc = true;
            } else if c == '"' {
                in_str = false;
            }
        } else {
            if c == ',' || c == '}' || c == ']' {
                if depth == 0 {
                    proof {
                        if c == ',' || c == '}' {
                            assert(scan_stops(scan_run(scan_init(), s@.take(i as int)), s@[i as int]));
                        } else {
                            assert(scan_run(scan_init(), s@.take(i as int + 1)).depth == -1);
                        }
                    }
                    return false;
                }
                if c == '}' || c == ']' {
                    depth = depth - 1;
                }
            } else if c == '{' || c == '[' {
                depth = depth + 1;
            } else if c == '"' {
                in_str = true;
            }
        }
        i = i + 1;
    }
    proof {
        assert(s@.take(n as int) =~= s@);
    }
    !in_str && depth == 0
}

} // verus!
