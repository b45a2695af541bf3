//! The record store: an id-keyed collection of records.
//!
//! A store is modelled as a mapping from identifier to record.  Adding a
//! record inserts it under its id, overwriting any earlier record with
//! the same id.  The store also offers a destructive sorted export, the
//! computation of the next free identifier, and batch ingestion of a
//! whole text buffer, line by line.

use vstd::prelude::*;
use crate::parser::Record;
use crate::parser::RecordV;
use crate::parser::ParseError;
use crate::parser::ParseErrorV;
use crate::parser::parse_record;
use crate::parser::parse_record_spec;
use crate::text::split_chars;
use crate::text::split_str;

verus! {

/// The mapping a sequence of records stands for: each record is entered
/// under its id, later entries overwriting earlier ones.
pub open spec fn seq_map(s: Seq<Record>) -> Map<int, RecordV>
    decreases s.len(),
{
    if s.len() == 0 {
        Map::<int, RecordV>::empty()
    } else {
        seq_map(s.drop_last()).insert(s.last().id as int, s.last()@)
    }
}

/// An id is in the mapping exactly when some record carries it.
proof fn lemma_seq_map_contains(s: Seq<Record>, k: int)
    ensures
        seq_map(s).dom().contains(k) <==> exists|i: int| 0 <= i < s.len() && s[i].id as int == k,
    decreases s.len(),
{
    if s.len() > 0 {
        lemma_seq_map_contains(s.drop_last(), k);
        if s.last().id as int == k {
            assert(s[s.len() - 1].id as int == k);
        } else if seq_map(s).dom().contains(k) {
            let i = choose|i: int| 0 <= i < s.len() - 1 && s.drop_last()[i].id as int == k;
            assert(s[i].id as int == k);
        } else if exists|i: int| 0 <= i < s.len() && s[i].id as int == k {
            let i = choose|i: int| 0 <= i < s.len() && s[i].id as int == k;
            assert(s.drop_last()[i].id as int == k);
        }
    }
}

/// The domain of the mapping is finite.
proof fn lemma_seq_map_finite(s: Seq<Record>)
    ensures
        seq_map(s).dom().finite(),
    decreases s.len(),
{
    if s.len() > 0 {
        lemma_seq_map_finite(s.drop_last());
    }
}

/// With no id repeated, each record is the mapping's value at its id.
proof fn lemma_seq_map_index(s: Seq<Record>, i: int)
    requires
        forall|p: int, q: int| 0 <= p < q < s.len() ==> s[p].id != s[q].id,
        0 <= i < s.len(),
    ensures
        seq_map(s).dom().contains(s[i].id as int),
        seq_map(s)[s[i].id as int] == s[i]@,
    decreases s.len(),
{
    lemma_seq_map_contains(s, s[i].id as int);
    if i == s.len() - 1 {
    } else {
        lemma_seq_map_index(s.drop_last(), i);
        assert(s.drop_last()[i] == s[i]);
        assert(s.last().id != s[i].id);
    }
}

/// With no id repeated, the mapping has one entry per record.
proof fn lemma_seq_map_len(s: Seq<Record>)
    requires
        forall|p: int, q: int| 0 <= p < q < s.len() ==> s[p].id != s[q].id,
    ensures
        seq_map(s).dom().finite(),
        seq_map(s).dom().len() == s.len(),
    decreases s.len(),
{
    lemma_seq_map_finite(s);
    if s.len() > 0 {
        lemma_seq_map_len(s.drop_last());
        lemma_seq_map_contains(s.drop_last(), s.last().id as int);
        assert(forall|i: int| 0 <= i < s.len() - 1 ==> s.drop_last()[i] == s[i]);
        assert(!seq_map(s.drop_last()).dom().contains(s.last().id as int));
        lemma_seq_map_finite(s.drop_last());
        assert(seq_map(s).dom() =~= seq_map(s.drop_last()).dom().insert(s.last().id as int));
    }
}

/// Inserting a record with a fresh id anywhere in the sequence inserts
/// it into the mapping.
proof fn lemma_seq_map_insert(s: Seq<Record>, i: int, r: Record)
    requires
        0 <= i <= s.len(),
        forall|j: int| 0 <= j < s.len() ==> s[j].id != r.id,
    ensures
        seq_map(s.insert(i, r)) == seq_map(s).insert(r.id as int, r@),
    decreases s.len(),
{
    let t = s.insert(i, r);
    if i == s.len() {
        assert(t.drop_last() =~= s);
        assert(t.last() == r);
    } else {
        assert(t.last() == s.last());
        assert(t.drop_last() =~= s.drop_last().insert(i, r));
        assert(forall|j: int| 0 <= j < s.len() - 1 ==> s.drop_last()[j] == s[j]);
        lemma_seq_map_insert(s.drop_last(), i, r);
        assert(s.last().id != r.id);
        assert(seq_map(t) == seq_map(s.drop_last()).insert(r.id as int, r@).insert(
            s.last().id as int,
            s.last()@,
        ));
        assert(seq_map(s.drop_last()).insert(r.id as int, r@).insert(
            s.last().id as int,
            s.last()@,
        ) =~= seq_map(s.drop_last()).insert(s.last().id as int, s.last()@).insert(
            r.id as int,
            r@,
        ));
    }
}

/// Removing a record removes its id from the mapping, when no id repeats.
proof fn lemma_seq_map_remove(s: Seq<Record>, i: int)
    requires
        forall|p: int, q: int| 0 <= p < q < s.len() ==> s[p].id != s[q].id,
        0 <= i < s.len(),
    ensures
        seq_map(s.remove(i)) == seq_map(s).remove(s[i].id as int),
    decreases s.len(),
{
    let t = s.remove(i);
    if i == s.len() - 1 {
        assert(t =~= s.drop_last());
        lemma_seq_map_contains(s.drop_last(), s.last().id as int);
        assert(forall|j: int| 0 <= j < s.len() - 1 ==> s.drop_last()[j] == s[j]);
        assert(!seq_map(s.drop_last()).dom().contains(s.last().id as int));
        assert(seq_map(s.drop_last()).insert(s.last().id as int, s.last()@).remove(
            s.last().id as int,
        ) =~= seq_map(s.drop_last()));
    } else {
        assert(t.last() == s.last());
        assert(t.drop_last() =~= s.drop_last().remove(i));
        assert(forall|j: int| 0 <= j < s.len() - 1 ==> s.drop_last()[j] == s[j]);
        lemma_seq_map_remove(s.drop_last(), i);
        assert(s.last().id != s[i].id);
        assert(seq_map(s.drop_last()).remove(s[i].id as int).insert(
            s.last().id as int,
            s.last()@,
        ) =~= seq_map(s.drop_last()).insert(s.last().id as int, s.last()@).remove(
            s[i].id as int,
        ));
    }
}

/// An id-keyed collection of records.  Its model is a mapping from id to
/// record; inside, the records sit in a vector in strictly ascending id
/// order, so ids are unique by construction.
pub struct Records {
    inner: Vec<Record>,
}

impl Records {
    #[verifier::type_invariant]
    spec fn well_formed(self) -> bool {
        forall|p: int, q: int| 0 <= p < q < self.inner@.len() ==> self.inner@[p].id
            < self.inner@[q].id
    }

    /// Returns an empty store.  Cannot fail.
    pub fn new() -> (r: Records)
        ensures
            r@ == Map::<int, RecordV>::empty(),
    {
        Records { inner: Vec::new() }
    }

    /// Inserts `record` under its id, replacing any earlier record with
    /// the same id; the store grows by at most one entry.  Cannot fail.
    pub fn add(&mut self, record: Record)
        ensures
            final(self)@ == old(self)@.insert(record.id as int, record@),
    {
        proof {
            use_type_invariant(&*self);
        }
        let mut v: Vec<Record> = Vec::new();
        core::mem::swap(&mut v, &mut self.inner);
        let ghost s0 = v@;
        let mut i: usize = 0;
        while i < v.len() && v[i].id < record.id
            invariant
                v@ == s0,
                0 <= i <= v@.len(),
                forall|k: int| 0 <= k < i ==> v@[k].id < record.id,
                forall|p: int, q: int| 0 <= p < q < v@.len() ==> v@[p].id < v@[q].id,
            decreases v@.len() - i,
        {
            i = i + 1;
        }
        if i < v.len() && v[i].id == record.id {
            let ghost pre = v@;
            v.remove(i);
            proof {
                lemma_seq_map_remove(pre, i as int);
                assert(pre.remove(i as int) == v@);
                assert(forall|j: int| 0 <= j < v@.len() ==> v@[j].id != record.id) by {
                    assert(forall|j: int| 0 <= j < i ==> v@[j] == pre[j]);
                    assert(forall|j: int|
                        i <= j < v@.len() ==> v@[j] == pre[j + 1] && pre[i as int].id
                            < pre[j + 1].id);
                }
                assert(seq_map(v@) =~= seq_map(pre).remove(record.id as int));
            }
            let ghost mid = v@;
            v.insert(i, record);
            proof {
                lemma_seq_map_insert(mid, i as int, record);
                assert(seq_map(v@) =~= seq_map(pre).insert(record.id as int, record@));
            }
        } else {
            let ghost mid = v@;
            proof {
                assert(forall|j: int| 0 <= j < v@.len() ==> v@[j].id != record.id);
            }
            v.insert(i, record);
            proof {
                lemma_seq_map_insert(mid, i as int, record);
            }
        }
        proof {
            assert(forall|p: int, q: int| 0 <= p < q < v@.len() ==> v@[p].id < v@[q].id);
        }
        core::mem::swap(&mut v, &mut self.inner);
    }

    /// Drains the store and returns every record, ordered by ascending
    /// id.  The export is destructive: the store is empty afterwards, and
    /// a second call yields an empty vector — defined behaviour, not a
    /// failure.
    pub fn into_vec(&mut self) -> (r: Vec<Record>)
        ensures
            final(self)@ == Map::<int, RecordV>::empty(),
            r@.len() == old(self)@.dom().len(),
            forall|p: int, q: int| 0 <= p < q < r@.len() ==> r@[p].id < r@[q].id,
            forall|i: int| 0 <= i < r@.len() ==> old(self)@.contains_pair(
                (#[trigger] r@[i]).id as int,
                r@[i]@,
            ),
            forall|k: int| old(self)@.dom().contains(k) ==> exists|i: int|
                0 <= i < r@.len() && (#[trigger] r@[i]).id as int == k,
    {
        proof {
            use_type_invariant(&*self);
        }
        let mut v: Vec<Record> = Vec::new();
        core::mem::swap(&mut v, &mut self.inner);
        proof {
            lemma_seq_map_len(v@);
            assert forall|i: int| 0 <= i < v@.len() implies seq_map(v@).contains_pair(
                (#[trigger] v@[i]).id as int,
                v@[i]@,
            ) by {
                lemma_seq_map_index(v@, i);
            }
            assert forall|k: int| seq_map(v@).dom().contains(k) implies exists|i: int|
                0 <= i < v@.len() && (#[trigger] v@[i]).id as int == k by {
                lemma_seq_map_contains(v@, k);
                let i = choose|i: int| 0 <= i < v@.len() && v@[i].id as int == k;
                assert(v@[i].id as int == k);
            }
        }
        v
    }

    /// Returns the next free identifier: one greater than the largest id
    /// the store currently holds, or `1` when it is empty.  Computed
    /// from the current contents on every call, so a freshly returned id
    /// never collides with a stored one.
    pub fn next_id(&self) -> (r: i64)
        requires
            forall|k: int| self@.dom().contains(k) ==> k < i64::MAX as int,
        ensures
            self@.dom().len() == 0 ==> r == 1,
            self@.dom().len() > 0 ==> self@.dom().contains(r - 1) && forall|k: int|
                self@.dom().contains(k) ==> k <= r - 1,
    {
        proof {
            use_type_invariant(&*self);
            lemma_seq_map_len(self.inner@);
        }
        if self.inner.len() == 0 {
            1
        } else {
            let last = self.inner.len() - 1;
            proof {
                lemma_seq_map_index(self.inner@, last as int);
                assert(self@.dom().contains(self.inner@[last as int].id as int));
                assert(self.inner@[last as int].id < i64::MAX);
                assert forall|k: int| self@.dom().contains(k) implies k
                    <= self.inner@[last as int].id as int by {
                    lemma_seq_map_contains(self.inner@, k);
                    let i = choose|i: int|
                        0 <= i < self.inner@.len() && self.inner@[i].id as int == k;
                    assert(i <= last);
                }
            }
            self.inner[last].id + 1
        }
    }
}

impl View for Records {
    type V = Map<int, RecordV>;

    closed spec fn view(&self) -> Map<int, RecordV> {
        seq_map(self.inner@)
    }
}

/// The mathematical model of a diagnostic.
pub struct DiagnosticV {
    pub line: int,
    pub error: ParseErrorV,
    pub raw: Seq<char>,
}

/// One skipped line of a batch load: its 1-based line number, why it was
/// skipped, and its raw text.
pub struct Diagnostic {
    pub line: usize,
    pub error: ParseError,
    pub raw: String,
}

impl View for Diagnostic {
    type V = DiagnosticV;

    open spec fn view(&self) -> DiagnosticV {
        DiagnosticV { line: self.line as int, error: self.error@, raw: self.raw@ }
    }
}

impl DeepView for Diagnostic {
    type V = DiagnosticV;

    open spec fn deep_view(&self) -> DiagnosticV {
        self.view()
    }
}

/// The mapping a batch of lines loads: empty lines are skipped, records
/// from well-formed lines are entered under their ids in input order —
/// so of two lines sharing an id the later wins — and malformed lines
/// change nothing.
pub open spec fn ingest_map(lines: Seq<Seq<char>>) -> Map<int, RecordV>
    decreases lines.len(),
{
    if lines.len() == 0 {
        Map::<int, RecordV>::empty()
    } else {
        let m = ingest_map(lines.drop_last());
        let l = lines.last();
        if l.len() == 0 {
            m
        } else {
            match parse_record_spec(l) {
                Ok(rv) => m.insert(rv.id, rv),
                Err(_) => m,
            }
        }
    }
}

/// The diagnostics a batch of lines yields: one per non-empty line that
/// fails to parse, in input order, carrying its 1-based line number.
pub open spec fn ingest_diags(lines: Seq<Seq<char>>) -> Seq<DiagnosticV>
    decreases lines.len(),
{
    if lines.len() == 0 {
        Seq::<DiagnosticV>::empty()
    } else {
        let pre = ingest_diags(lines.drop_last());
        let l = lines.last();
        if l.len() > 0 && parse_record_spec(l) is Err {
            pre.push(
                DiagnosticV {
                    line: lines.len() as int,
                    error: parse_record_spec(l)->Err_0,
                    raw: l,
                },
            )
        } else {
            pre
        }
    }
}

/// Loads a whole text buffer into a fresh store, line by line: the text
/// is split on newlines, empty lines are skipped silently, well-formed
/// lines are added to the store, and a malformed line is skipped without
/// stopping the lines after it.  With `verbose` the skipped lines come
/// back as diagnostics, one per malformed line; without it none do.
pub fn load_records(text: &str, verbose: bool) -> (r: (Records, Vec<Diagnostic>))
    ensures
        r.0@ == ingest_map(split_chars(text@, '\n')),
        verbose ==> r.1.deep_view() == ingest_diags(split_chars(text@, '\n')),
        !verbose ==> r.1@.len() == 0,
{
    let ghost lspec = split_chars(text@, '\n');
    let lines = split_str(text, '\n');
    let mut store = Records::new();
    let mut diags: Vec<Diagnostic> = Vec::new();
    let mut i: usize = 0;
    proof {
        assert(lspec.take(0) =~= Seq::<Seq<char>>::empty());
    }
    while i < lines.len()
        invariant
            lines@.len() == lspec.len(),
            forall|j: int| 0 <= j < lines@.len() ==> lines@[j]@ == lspec[j],
            0 <= i <= lines@.len(),
            store@ == ingest_map(lspec.take(i as int)),
            verbose ==> diags.deep_view() == ingest_diags(lspec.take(i as int)),
            !verbose ==> diags@.len() == 0,
        decreases lines@.len() - i,
    {
        let ghost pre = lspec.take(i as int);
        let ghost post = lspec.take(i + 1);
        proof {
            assert(post.drop_last() =~= pre);
            assert(post.last() == lspec[i as int]);
        }
        let line = &lines[i];
        if !line.as_str().is_empty() {
            match parse_record(line.as_str()) {
                Ok(rec) => {
                    store.add(rec);
                },
                Err(e) => {
                    if verbose {
                        let ghost old_dv = diags.deep_view();
                        let d = Diagnostic { line: i + 1, error: e, raw: line.clone() };
                        let ghost dv = d.deep_view();
                        diags.push(d);
                        proof {
                            assert(diags.deep_view() =~~= old_dv.push(dv));
                            assert(ingest_diags(post) =~~= diags.deep_view());
                        }
                    }
                },
            }
        }
        i = i + 1;
        proof {
            if verbose {
                assert(diags.deep_view() =~~= ingest_diags(lspec.take(i as int)));
            }
        }
    }
    proof {
        assert(lspec.take(lines@.len() as int) =~= lspec);
    }
    (store, diags)
}

/// Law: adding a record and then another with the same id leaves the
/// store exactly as if only the later one had been added — one entry for
/// that id, equal to the most recent record.
pub proof fn lemma_add_same_id(m: Map<int, RecordV>, r1: RecordV, r2: RecordV)
    requires
        r1.id == r2.id,
    ensures
        m.insert(r1.id, r1).insert(r2.id, r2) == m.insert(r2.id, r2),
{
    assert(m.insert(r1.id, r1).insert(r2.id, r2) =~= m.insert(r2.id, r2));
}

/// Law: the next free identifier never collides with a stored id, so a
/// record allocated with it is a genuinely new entry.
pub proof fn lemma_next_id_fresh(m: Map<int, RecordV>, n: int)
    requires
        m.dom().finite(),
        m.dom().len() == 0 ==> n == 1,
        m.dom().len() > 0 ==> m.dom().contains(n - 1) && forall|k: int| m.dom().contains(k)
            ==> k <= n - 1,
    ensures
        !m.dom().contains(n),
{
    if m.dom().len() == 0 {
        m.dom().lemma_len0_is_empty();
    } else {
        if m.dom().contains(n) {
            assert(n <= n - 1);
        }
    }
}

} // verus!
