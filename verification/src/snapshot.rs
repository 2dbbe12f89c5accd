//! A named observation of one metric: the snapshot that travels between
//! exporters, traces and profiles, and its text exposition line.

use vstd::prelude::*;

use crate::counters::{spec_delta, spec_hasdata, spec_merge, spec_set, spec_value, same_variant,
    CounterType};
use crate::errors::ProxyErr;
use crate::fmt::{dec_str, dec_str_signed, i64_to_string, u64_to_string};

verus! {

/// A label value with every `"` escaped as `\"`.
pub open spec fn escape_quotes(s: Seq<char>) -> Seq<char>
    decreases s.len(),
{
    if s.len() == 0 {
        s
    } else if s[0] == '"' {
        seq!['\\', '"'] + escape_quotes(s.drop_first())
    } else {
        seq![s[0]] + escape_quotes(s.drop_first())
    }
}

/// One rendered label: `key="value"` with the value escaped.
pub open spec fn rendered_attr(k: Seq<char>, v: Seq<char>) -> Seq<char> {
    k + seq!['=', '"'] + escape_quotes(v) + seq!['"']
}

/// Labels joined by commas.
pub open spec fn rendered_attrs(attrs: Seq<(Seq<char>, Seq<char>)>) -> Seq<char>
    decreases attrs.len(),
{
    if attrs.len() == 0 {
        Seq::empty()
    } else if attrs.len() == 1 {
        rendered_attr(attrs[0].0, attrs[0].1)
    } else {
        rendered_attrs(attrs.drop_last()) + seq![','] + rendered_attr(
            attrs.last().0,
            attrs.last().1,
        )
    }
}

/// The full name of a labelled metric: `base{k="v",...}`, or the bare base
/// name when it carries no label.
pub open spec fn labeled_name(name: Seq<char>, attrs: Seq<(Seq<char>, Seq<char>)>) -> Seq<char> {
    if attrs.len() == 0 {
        name
    } else {
        name + seq!['{'] + rendered_attrs(attrs) + seq!['}']
    }
}

/// The views of a list of label pairs.
pub open spec fn attrs_view(attrs: Seq<(String, String)>) -> Seq<(Seq<char>, Seq<char>)> {
    attrs.map_values(|p: (String, String)| (p.0@, p.1@))
}

/// Escaping distributes over concatenation.
proof fn lemma_escape_concat(a: Seq<char>, b: Seq<char>)
    ensures
        escape_quotes(a + b) =~= escape_quotes(a) + escape_quotes(b),
    decreases a.len(),
{
    if a.len() == 0 {
        assert(a + b =~= b);
        assert(escape_quotes(a) =~= Seq::empty());
    } else {
        lemma_escape_concat(a.drop_first(), b);
        assert((a + b).drop_first() =~= a.drop_first() + b);
    }
}

/// Escape every `"` in a label value.
fn escape_quotes_exec(v: &str) -> (r: String)
    ensures
        r@ == escape_quotes(v@),
{
    let n = v.unicode_len();
    let mut out = String::new();
    let mut i: usize = 0;
    while i < n
        invariant
            n == v@.len(),
            0 <= i <= n,
            out@ == escape_quotes(v@.take(i as int)),
        decreases n - i,
    {
        proof {
            lemma_escape_concat(v@.take(i as int), seq![v@[i as int]]);
            assert(v@.take(i as int) + seq![v@[i as int]] =~= v@.take(i + 1 as int));
            let s1 = seq![v@[i as int]];
            assert(s1.drop_first() =~= Seq::<char>::empty());
            assert(escape_quotes(Seq::<char>::empty()) =~= Seq::<char>::empty());
            reveal_strlit("\\\"");
        }
        let c = v.get_char(i);
        if c == '"' {
            proof {
                assert(escape_quotes(seq![v@[i as int]]) =~= seq!['\\', '"']);
            }
            out.append("\\\"");
        } else {
            let piece = v.substring_char(i, i + 1);
            proof {
                assert(piece@ =~= seq![v@[i as int]]);
                assert(escape_quotes(seq![v@[i as int]]) =~= seq![v@[i as int]]);
            }
            out.append(piece);
        }
        i = i + 1;
    }
    proof {
        assert(v@.take(n as int) =~= v@);
    }
    out
}

/// A snapshot of one metric: its full name, its documentation line and its
/// current value.
#[derive(Debug, PartialEq)]
pub struct CounterSnapshot {
    pub name: String,
    pub doc: String,
    pub ctype: CounterType,
}

/// The mathematical shape of a snapshot: its strings as character
/// sequences.
#[verifier::ext_equal]
pub struct SnapView {
    pub name: Seq<char>,
    pub doc: Seq<char>,
    pub ctype: CounterType,
}

impl View for CounterSnapshot {
    type V = SnapView;

    /// A snapshot is, for specification purposes, its shape.
    open spec fn view(&self) -> SnapView {
        SnapView { name: self.name@, doc: self.doc@, ctype: self.ctype }
    }
}

/// The views of a list of snapshots.
pub open spec fn snaps_view(cs: Seq<CounterSnapshot>) -> Seq<SnapView> {
    cs.map_values(|c: CounterSnapshot| c@)
}

/// A bare value update, as sent over the ingest wire.
#[derive(Debug, PartialEq)]
pub struct CounterValue {
    pub name: String,
    pub value: CounterType,
}

/// A metric declaration, as sent over the ingest wire.
#[derive(Debug, PartialEq)]
pub struct ValueDesc {
    pub name: String,
    pub doc: String,
    pub ctype: CounterType,
}

/// The text exposition line of one sample: name, then for a counter its
/// timestamp and value, for a gauge its reported value.
pub open spec fn sample_line(name: Seq<char>, c: CounterType) -> Seq<char> {
    match c {
        CounterType::Counter { ts, value } => name + seq![' '] + dec_str(ts as nat) + seq![' ']
            + dec_str_signed(value as int) + seq!['\n'],
        CounterType::Gauge { .. } => name + seq![' '] + dec_str_signed(spec_value(c)) + seq![
            '\n',
        ],
    }
}

impl CounterSnapshot {
    /// Assemble a snapshot, rendering the labels into the full name.
    pub fn new(name: String, attributes: &[(String, String)], doc: String, value: CounterType) -> (r:
        CounterSnapshot)
        ensures
            r.name@ == labeled_name(name@, attrs_view(attributes@)),
            r.doc == doc,
            r.ctype == value,
    {
        if attributes.len() == 0 {
            CounterSnapshot { name, doc, ctype: value }
        } else {
            let ghost base = name@;
            let ghost av = attrs_view(attributes@);
            let mut full = name;
            full.append("{");
            let n = attributes.len();
            let mut i: usize = 0;
            proof {
                reveal_strlit("{");
                assert(av.take(0) =~= Seq::<(Seq<char>, Seq<char>)>::empty());
                assert(full@ =~= base + seq!['{'] + rendered_attrs(av.take(0)));
            }
            while i < n
                invariant
                    n == attributes@.len(),
                    0 < n,
                    0 <= i <= n,
                    av == attrs_view(attributes@),
                    full@ == base + seq!['{'] + rendered_attrs(av.take(i as int)),
                decreases n - i,
            {
                let ghost before = full@;
                if i > 0 {
                    full.append(",");
                }
                full.append(attributes[i].0.as_str());
                full.append("=\"");
                let esc = escape_quotes_exec(attributes[i].1.as_str());
                full.append(esc.as_str());
                full.append("\"");
                proof {
                    reveal_strlit(",");
                    reveal_strlit("=\"");
                    reveal_strlit("\"");
                    let t1 = av.take(i + 1 as int);
                    assert(t1.drop_last() =~= av.take(i as int));
                    assert(t1.last() == av[i as int]);
                    if i == 0 {
                        assert(rendered_attrs(t1) =~= rendered_attr(av[0].0, av[0].1));
                        assert(full@ =~= base + seq!['{'] + rendered_attrs(t1));
                    } else {
                        assert(rendered_attrs(t1) =~= rendered_attrs(av.take(i as int)) + seq![
                            ',',
                        ] + rendered_attr(av[i as int].0, av[i as int].1));
                        assert(full@ =~= base + seq!['{'] + rendered_attrs(t1));
                    }
                }
                i = i + 1;
            }
            full.append("}");
            proof {
                reveal_strlit("}");
                assert(av.take(n as int) =~= av);
                assert(full@ =~= labeled_name(base, av));
            }
            CounterSnapshot { name: full, doc, ctype: value }
        }
    }

    /// True when the value has recorded anything.
    pub fn hasdata(&self) -> (r: bool)
        ensures
            r == spec_hasdata(self.ctype),
    {
        self.ctype.hasdata()
    }

    /// The text exposition line for this sample.
    pub fn serialize(&self) -> (r: String)
        ensures
            r@ == sample_line(self.name@, self.ctype),
    {
        let mut out = self.name.clone();
        match &self.ctype {
            CounterType::Counter { ts, value } => {
                out.append(" ");
                let t = u64_to_string(*ts);
                out.append(t.as_str());
                out.append(" ");
                let v = i64_to_string(*value);
                out.append(v.as_str());
                out.append("\n");
            },
            CounterType::Gauge { .. } => {
                out.append(" ");
                let v = i64_to_string(self.ctype.value());
                out.append(v.as_str());
                out.append("\n");
            },
        }
        proof {
            reveal_strlit(" ");
            reveal_strlit("\n");
            assert(out@ =~= sample_line(self.name@, self.ctype));
        }
        out
    }

    /// Merge another observation of the same metric into this one.
    pub fn merge(&mut self, other: &CounterSnapshot) -> (r: Result<(), ProxyErr>)
        ensures
            same_variant(old(self).ctype, other.ctype) ==> r is Ok && final(self).ctype
                == spec_merge(old(self).ctype, other.ctype),
            !same_variant(old(self).ctype, other.ctype) ==> r is Err && final(self).ctype == old(
                self,
            ).ctype,
            final(self).name == old(self).name,
            final(self).doc == old(self).doc,
    {
        self.ctype.merge(&other.ctype)
    }

    /// Overwrite this observation from another one, with set semantics.
    pub fn set(&mut self, other: &CounterSnapshot) -> (r: Result<(), ProxyErr>)
        ensures
            same_variant(old(self).ctype, other.ctype) ==> r is Ok && final(self).ctype == spec_set(
                old(self).ctype,
                other.ctype,
            ),
            !same_variant(old(self).ctype, other.ctype) ==> r is Err && final(self).ctype == old(
                self,
            ).ctype,
            final(self).name == old(self).name,
            final(self).doc == old(self).doc,
    {
        self.ctype.set(&other.ctype)
    }

    /// Subtract a previous observation from this one.
    pub fn delta(&mut self, other: &CounterSnapshot) -> (r: Result<(), ProxyErr>)
        ensures
            same_variant(old(self).ctype, other.ctype) ==> r is Ok && final(self).ctype
                == spec_delta(old(self).ctype, other.ctype),
            !same_variant(old(self).ctype, other.ctype) ==> r is Err && final(self).ctype == old(
                self,
            ).ctype,
            final(self).name == old(self).name,
            final(self).doc == old(self).doc,
    {
        self.ctype.delta(&other.ctype)
    }

    /// Check that another snapshot carries the same variant.
    pub fn check_same_type(&self, other: &CounterSnapshot) -> (r: Result<(), ProxyErr>)
        ensures
            r is Ok <==> same_variant(self.ctype, other.ctype),
    {
        self.ctype.same_type(&other.ctype)
    }

    /// The bare value update carried by this snapshot.
    pub fn value(&self) -> (r: CounterValue)
        ensures
            r.name == self.name,
            r.value == self.ctype,
    {
        CounterValue { name: self.name.clone(), value: self.ctype }
    }

    /// The reported scalar of this snapshot.
    pub fn value_i64(&self) -> (r: i64)
        ensures
            r == spec_value(self.ctype),
    {
        self.ctype.value()
    }
}

impl CounterValue {
    /// Clear the value: a counter back to zero, a gauge keeps its range but
    /// forgets its hits.
    pub fn reset(&mut self)
        ensures
            final(self).name == old(self).name,
            old(self).value is Counter ==> final(self).value == (CounterType::Counter {
                ts: 0u64,
                value: 0i64,
            }),
            old(self).value is Gauge ==> final(self).value == (CounterType::Gauge {
                min: old(self).value->Gauge_min,
                max: old(self).value->Gauge_max,
                hits: 0u64,
                total: 0i64,
            }),
    {
        self.value = match self.value {
            CounterType::Counter { .. } => CounterType::Counter { ts: 0, value: 0 },
            CounterType::Gauge { min, max, .. } => CounterType::Gauge {
                min,
                max,
                hits: 0,
                total: 0,
            },
        };
    }

    /// Stamp a counter with a timestamp; a gauge carries none and is left
    /// alone.
    pub fn set_ts(&mut self, to_set_ts: u64)
        ensures
            final(self).name == old(self).name,
            old(self).value is Counter ==> final(self).value == (CounterType::Counter {
                ts: to_set_ts,
                value: old(self).value->Counter_value,
            }),
            old(self).value is Gauge ==> final(self).value == old(self).value,
    {
        match &mut self.value {
            CounterType::Counter { ts, .. } => {
                *ts = to_set_ts;
            },
            CounterType::Gauge { .. } => {},
        }
    }
}

/// Index of the first snapshot carrying `name`, or -1 when none does.
pub open spec fn find_name(cs: Seq<CounterSnapshot>, name: Seq<char>) -> int
    decreases cs.len(),
{
    if cs.len() == 0 {
        -1
    } else if cs[0].name@ == name {
        0
    } else {
        let r = find_name(cs.drop_first(), name);
        if r < 0 {
            -1
        } else {
            r + 1
        }
    }
}

/// No two snapshots in the list share a name.
pub open spec fn names_unique(cs: Seq<CounterSnapshot>) -> bool {
    forall|i: int, j: int| 0 <= i < j < cs.len() ==> cs[i].name@ != cs[j].name@
}

/// What `find_name` returns: a valid index of the sought name, preceded by
/// entries that all carry other names.
pub proof fn lemma_find_name(cs: Seq<CounterSnapshot>, name: Seq<char>)
    ensures
        find_name(cs, name) >= 0 ==> 0 <= find_name(cs, name) < cs.len() && cs[find_name(
            cs,
            name,
        )].name@ == name,
        find_name(cs, name) < 0 ==> forall|i: int| 0 <= i < cs.len() ==> cs[i].name@ != name,
        forall|i: int|
            0 <= i < cs.len() && cs[i].name@ == name ==> 0 <= find_name(cs, name) <= i,
    decreases cs.len(),
{
    if cs.len() > 0 {
        lemma_find_name(cs.drop_first(), name);
        if cs[0].name@ != name {
            assert(forall|i: int|
                1 <= i < cs.len() ==> cs[i] == cs.drop_first()[i - 1]);
        }
    }
}

impl Clone for CounterSnapshot {
    /// An equal copy of this snapshot.
    fn clone(&self) -> (r: Self)
        ensures
            r == *self,
    {
        CounterSnapshot { name: self.name.clone(), doc: self.doc.clone(), ctype: self.ctype }
    }
}

impl Clone for CounterValue {
    /// An equal copy of this value update.
    fn clone(&self) -> (r: Self)
        ensures
            r == *self,
    {
        CounterValue { name: self.name.clone(), value: self.value }
    }
}

impl Clone for ValueDesc {
    /// An equal copy of this declaration.
    fn clone(&self) -> (r: Self)
        ensures
            r == *self,
    {
        ValueDesc { name: self.name.clone(), doc: self.doc.clone(), ctype: self.ctype }
    }
}

} // verus!
