use vstd::prelude::*;
use crate::value::{Value, Val, models_of, entry_models_of, lemma_models_of, lemma_entry_models_of,
    compare_bytes};

verus! {

broadcast use {
    vstd::std_specs::vec::axiom_vec_index_decreases,
    vstd::std_specs::vec::axiom_vec_decreases_to_view,
    vstd::seq::axiom_seq_index_decreases,
};

/// One `+`-delimited group of key/value fields inside a section.
pub struct Record {
    pub kv: Vec<(Vec<u8>, Value)>,
}

/// A path-addressed bundle of key/value data, named series and records.
pub struct Section {
    pub path: Vec<Vec<u8>>,
    pub kv: Vec<(Vec<u8>, Value)>,
    pub series: Vec<(Vec<u8>, Vec<Value>)>,
    pub records: Vec<Record>,
}

/// The parsed representation of one document: its sections in source order.
pub struct RuneDocument {
    pub sections: Vec<Section>,
}

/// The mathematical shape of a section.
pub ghost struct SectionModel {
    pub path: Seq<Seq<u8>>,
    pub kv: Seq<(Seq<u8>, Val)>,
    pub series: Seq<(Seq<u8>, Seq<Val>)>,
    pub records: Seq<Seq<(Seq<u8>, Val)>>,
}

impl Record {
    pub open spec fn model(self) -> Seq<(Seq<u8>, Val)> {
        entry_models_of(self.kv@)
    }
}

/// The models of a sequence of records.
pub open spec fn record_models_of(s: Seq<Record>) -> Seq<Seq<(Seq<u8>, Val)>> {
    Seq::new(s.len(), |i: int| s[i].model())
}

/// The models of the named series of a section.
pub open spec fn series_models_of(s: Seq<(Vec<u8>, Vec<Value>)>) -> Seq<(Seq<u8>, Seq<Val>)> {
    Seq::new(s.len(), |i: int| (s[i].0@, models_of(s[i].1@)))
}

impl Section {
    pub open spec fn model(self) -> SectionModel {
        SectionModel {
            path: self.path@.map_values(|p: Vec<u8>| p@),
            kv: entry_models_of(self.kv@),
            series: series_models_of(self.series@),
            records: record_models_of(self.records@),
        }
    }
}

/// The models of a sequence of sections.
pub open spec fn section_models_of(s: Seq<Section>) -> Seq<SectionModel> {
    Seq::new(s.len(), |i: int| s[i].model())
}

impl RuneDocument {
    pub open spec fn model(self) -> Seq<SectionModel> {
        section_models_of(self.sections@)
    }
}

/// Whether `name` occurs anywhere in the section's path.
pub open spec fn path_has(path: Seq<Seq<u8>>, name: Seq<u8>) -> bool {
    exists|i: int| 0 <= i < path.len() && path[i] == name
}

/// Whether some byte-vector in `path` equals `name`.
fn path_contains(path: &Vec<Vec<u8>>, name: &[u8]) -> (r: bool)
    ensures
        r == path_has(path@.map_values(|p: Vec<u8>| p@), name@),
{
    let ghost pm = path@.map_values(|p: Vec<u8>| p@);
    let mut i: usize = 0;
    #[verifier::loop_isolation(false)]
    while i < path.len()
        invariant
            0 <= i <= path@.len(),
            pm.len() == path@.len(),
            forall|j: int| 0 <= j < i ==> pm[j] != name@,
        decreases path@.len() - i,
    {
        if compare_bytes(path[i].as_slice(), name) {
            proof {
                assert(pm[i as int] == name@);
            }
            return true;
        }
        i = i + 1;
    }
    false
}

impl RuneDocument {
    /// The first section whose path mentions `name`: a loose membership test,
    /// not an exact path lookup.
    pub fn get_section(&self, name: &[u8]) -> (r: Option<&Section>)
        ensures
            match r {
                Some(sec) => exists|i: int|
                    0 <= i < self.model().len() && #[trigger] self.model()[i] == sec.model()
                        && path_has(sec.model().path, name@) && forall|j: int|
                        0 <= j < i ==> !path_has(self.model()[j].path, name@),
                None => forall|i: int|
                    0 <= i < self.model().len() ==> !path_has(
                        #[trigger] self.model()[i].path,
                        name@,
                    ),
            },
    {
        let mut i: usize = 0;
        #[verifier::loop_isolation(false)]
        while i < self.sections.len()
            invariant
                0 <= i <= self.sections@.len(),
                forall|j: int| 0 <= j < i ==> !path_has(#[trigger] self.model()[j].path, name@),
            decreases self.sections@.len() - i,
        {
            if path_contains(&self.sections[i].path, name) {
                proof {
                    assert(self.model()[i as int] == self.sections@[i as int].model());
                }
                return Some(&self.sections[i]);
            }
            proof {
                assert(self.model()[i as int] == self.sections@[i as int].model());
            }
            i = i + 1;
        }
        None
    }

    /// All sections whose path mentions `name`, as indices into `sections`,
    /// in document order.
    pub fn get_sections(&self, name: &[u8]) -> (r: Vec<usize>)
        ensures
            forall|k: int|
                0 <= k < r@.len() ==> 0 <= #[trigger] r@[k] < self.model().len() && path_has(
                    self.model()[r@[k] as int].path,
                    name@,
                ),
            forall|i: int|
                0 <= i < self.model().len() && path_has(#[trigger] self.model()[i].path, name@)
                    ==> exists|k: int| 0 <= k < r@.len() && r@[k] == i,
            forall|k1: int, k2: int| 0 <= k1 < k2 < r@.len() ==> r@[k1] < r@[k2],
    {
        let mut out: Vec<usize> = Vec::new();
        let mut i: usize = 0;
        #[verifier::loop_isolation(false)]
        while i < self.sections.len()
            invariant
                0 <= i <= self.sections@.len(),
                forall|k: int|
                    0 <= k < out@.len() ==> 0 <= #[trigger] out@[k] < i && path_has(
                        self.model()[out@[k] as int].path,
                        name@,
                    ),
                forall|j: int|
                    0 <= j < i && path_has(#[trigger] self.model()[j].path, name@) ==> exists|k: int|
                        0 <= k < out@.len() && out@[k] == j,
                forall|k1: int, k2: int| 0 <= k1 < k2 < out@.len() ==> out@[k1] < out@[k2],
            decreases self.sections@.len() - i,
        {
            proof {
                assert(self.model()[i as int] == self.sections@[i as int].model());
            }
            if path_contains(&self.sections[i].path, name) {
                let ghost pre = out@;
                out.push(i);
                proof {
                    assert(forall|j: int|
                        0 <= j < i && path_has(#[trigger] self.model()[j].path, name@)
                            ==> exists|k: int| 0 <= k < pre.len() && pre[k] == j);
                    assert forall|j: int|
                        0 <= j < i + 1 && path_has(#[trigger] self.model()[j].path, name@)
                    implies exists|k: int| 0 <= k < out@.len() && out@[k] == j by {
                        if j < i {
                            let k = choose|k: int| 0 <= k < pre.len() && pre[k] == j;
                            assert(out@[k] == j);
                        } else {
                            assert(out@[out@.len() - 1] == j);
                        }
                    }
                }
            }
            i = i + 1;
        }
        out
    }
}

pub fn clone_bytes(v: &Vec<u8>) -> (r: Vec<u8>)
    ensures
        r@ == v@,
{
    let mut out: Vec<u8> = Vec::new();
    let mut i: usize = 0;
    #[verifier::loop_isolation(false)]
    while i < v.len()
        invariant
            0 <= i <= v@.len(),
            out@ == v@.take(i as int),
        decreases v@.len() - i,
    {
        out.push(v[i]);
        proof {
            assert(v@.take(i + 1) =~= v@.take(i as int) + seq![v@[i as int]]);
        }
        i = i + 1;
    }
    proof {
        assert(v@.take(i as int) =~= v@);
    }
    out
}

/// A structural copy: the copy's model equals the source value's.
pub fn clone_value(v: &Value) -> (r: Value)
    ensures
        r.model() == v.model(),
    decreases *v,
{
    match v {
        Value::Null => Value::Null,
        Value::Str(s) => Value::Str(clone_bytes(s)),
        Value::Num(x) => Value::Num(*x),
        Value::Bool(b) => Value::Bool(*b),
        Value::List(items) => {
            let mut out: Vec<Value> = Vec::new();
            let mut i: usize = 0;
            #[verifier::loop_isolation(false)]
            while i < items.len()
                invariant
                    0 <= i <= items@.len(),
                    out@.len() == i,
                    forall|j: int| 0 <= j < i ==> #[trigger] out@[j].model() == items@[j].model(),
                decreases items@.len() - i,
            {
                let c = clone_value(&items[i]);
                out.push(c);
                i = i + 1;
            }
            proof {
                lemma_models_of(out@);
                lemma_models_of(items@);
                assert(models_of(out@) =~= models_of(items@));
            }
            Value::List(out)
        },
        Value::Obj(entries) => {
            let mut out: Vec<(Vec<u8>, Value)> = Vec::new();
            let mut i: usize = 0;
            #[verifier::loop_isolation(false)]
            while i < entries.len()
                invariant
                    0 <= i <= entries@.len(),
                    out@.len() == i,
                    forall|j: int|
                        0 <= j < i ==> #[trigger] out@[j].0@ == entries@[j].0@ && out@[j].1.model()
                            == entries@[j].1.model(),
                decreases entries@.len() - i,
            {
                let k = clone_bytes(&entries[i].0);
                let c = clone_value(&entries[i].1);
                out.push((k, c));
                i = i + 1;
            }
            proof {
                lemma_entry_models_of(out@);
                lemma_entry_models_of(entries@);
                assert(entry_models_of(out@) =~= entry_models_of(entries@));
            }
            Value::Obj(out)
        },
    }
}

pub fn clone_entries(v: &Vec<(Vec<u8>, Value)>) -> (r: Vec<(Vec<u8>, Value)>)
    ensures
        entry_models_of(r@) == entry_models_of(v@),
{
    let mut out: Vec<(Vec<u8>, Value)> = Vec::new();
    let mut i: usize = 0;
    #[verifier::loop_isolation(false)]
    while i < v.len()
        invariant
            0 <= i <= v@.len(),
            out@.len() == i,
            forall|j: int|
                0 <= j < i ==> #[trigger] out@[j].0@ == v@[j].0@ && out@[j].1.model()
                    == v@[j].1.model(),
        decreases v@.len() - i,
    {
        let k = clone_bytes(&v[i].0);
        let c = clone_value(&v[i].1);
        out.push((k, c));
        i = i + 1;
    }
    proof {
        lemma_entry_models_of(out@);
        lemma_entry_models_of(v@);
        assert(entry_models_of(out@) =~= entry_models_of(v@));
    }
    out
}

pub fn clone_record(v: &Record) -> (r: Record)
    ensures
        r.model() == v.model(),
{
    Record { kv: clone_entries(&v.kv) }
}

pub fn clone_section(v: &Section) -> (r: Section)
    ensures
        r.model() == v.model(),
{
    let mut path: Vec<Vec<u8>> = Vec::new();
    let mut i: usize = 0;
    #[verifier::loop_isolation(false)]
    while i < v.path.len()
        invariant
            0 <= i <= v.path@.len(),
            path@.len() == i,
            forall|j: int| 0 <= j < i ==> #[trigger] path@[j]@ == v.path@[j]@,
        decreases v.path@.len() - i,
    {
        path.push(clone_bytes(&v.path[i]));
        i = i + 1;
    }
    let kv = clone_entries(&v.kv);
    let mut series: Vec<(Vec<u8>, Vec<Value>)> = Vec::new();
    let mut i2: usize = 0;
    #[verifier::loop_isolation(false)]
    while i2 < v.series.len()
        invariant
            0 <= i2 <= v.series@.len(),
            series@.len() == i2,
            forall|j: int|
                0 <= j < i2 ==> #[trigger] series@[j].0@ == v.series@[j].0@ && models_of(
                    series@[j].1@,
                ) == models_of(v.series@[j].1@),
        decreases v.series@.len() - i2,
    {
        let k = clone_bytes(&v.series[i2].0);
        let items = &v.series[i2].1;
        let mut list: Vec<Value> = Vec::new();
        let mut i3: usize = 0;
        #[verifier::loop_isolation(false)]
        while i3 < items.len()
            invariant
                0 <= i3 <= items@.len(),
                list@.len() == i3,
                forall|j: int| 0 <= j < i3 ==> #[trigger] list@[j].model() == items@[j].model(),
            decreases items@.len() - i3,
        {
            let c = clone_value(&items[i3]);
            list.push(c);
            i3 = i3 + 1;
        }
        proof {
            lemma_models_of(list@);
            lemma_models_of(items@);
            assert(models_of(list@) =~= models_of(items@));
        }
        series.push((k, list));
        i2 = i2 + 1;
    }
    let mut records: Vec<Record> = Vec::new();
    let mut i4: usize = 0;
    #[verifier::loop_isolation(false)]
    while i4 < v.records.len()
        invariant
            0 <= i4 <= v.records@.len(),
            records@.len() == i4,
            forall|j: int| 0 <= j < i4 ==> #[trigger] records@[j].model() == v.records@[j].model(),
        decreases v.records@.len() - i4,
    {
        let c = clone_record(&v.records[i4]);
        records.push(c);
        i4 = i4 + 1;
    }
    let out = Section { path, kv, series, records };
    proof {
        assert(out.model().path =~~= v.model().path);
        assert(out.model().series =~~= v.model().series);
        assert(out.model().records =~~= v.model().records);
    }
    out
}

} // verus!
