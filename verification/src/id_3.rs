//! Encoded data sets and the decision tree induced from them.
use crate::data_set::{texts, Column, Data, DataSet, Nominal};
use crate::discretize::{
    bucket, greatest, is_floor_sqrt, least, lemma_extremes, lemma_few_names, Layout,
};
use crate::entropy::{Counter, Entropy};
use crate::error::{Error, Position};
use crate::induction::{
    all_but, all_instances, best_position, branch, gather, grow, induced, instance_count,
    hits, keys_of, lemma_answer_drawn_from, lemma_deepest, lemma_grow, lemma_hits_bound,
    lemma_members, lemma_members_push, listings, members, pairs_over, rectangular, row, within,
    Line, Tree,
};
use crate::test_statistics::RightVsWrong;
use crate::tally::{
    distinct, first_index, lemma_count_contains, lemma_distinct, lemma_distinct_push,
    lemma_first_index, lemma_first_index_is, lemma_first_index_push, position,
};
use crate::{all_equal, majority_vote_ordered, swap_remove, without};
use vstd::arithmetic::div_mod::{lemma_fundamental_div_mod, lemma_mod_bound};
use vstd::hash_map::StringHashMap;
use vstd::prelude::*;
use vstd::slice::slice_to_vec;

verus! {

/// The layout of a numeric attribute: the range of the numbers it was fitted
/// to, and the number of buckets.
#[derive(Debug, Clone, Copy)]
pub struct NumericType {
    min: i64,
    max: i64,
    buckets: u32,
}

impl View for NumericType {
    type V = Layout;

    /// The layout as a rule.
    closed spec fn view(&self) -> Layout {
        Layout::Numeric { min: self.min, max: self.max, buckets: self.buckets }
    }
}

impl NumericType {
    /// The range is not empty.
    pub closed spec fn wf(&self) -> bool {
        self.min <= self.max
    }

    /// The code of the number `data`: its bucket, clamped to the first and
    /// the last.
    pub fn convert(&self, data: i64) -> (code: u32)
        requires
            self.wf(),
        ensures
            self@ matches Layout::Numeric { min, max, buckets } && code == bucket(
                min as int,
                max as int,
                buckets as nat,
                data as int,
            ),
    {
        let ghost span: int = self.max - self.min;
        let ghost offset: int = data - self.min;
        let ghost count: int = self.buckets as int;
        proof {
            if span > 0 {
                lemma_fundamental_div_mod(offset * count, span);
                lemma_mod_bound(offset * count, span);
            }
        }
        if self.buckets == 0 {
            0
        } else if data <= self.min {
            proof {
                if span > 0 {
                    let q = (offset * count) / span;
                    let r = (offset * count) % span;
                    assert(offset * count <= 0) by (nonlinear_arith)
                        requires
                            offset <= 0,
                            count > 0,
                    ;
                    assert(q <= 0) by (nonlinear_arith)
                        requires
                            span * q + r <= 0,
                            0 <= r,
                            span > 0,
                    ;
                }
            }
            0
        } else if data >= self.max {
            proof {
                if span > 0 {
                    let q = (offset * count) / span;
                    let r = (offset * count) % span;
                    assert(offset * count >= span * count) by (nonlinear_arith)
                        requires
                            offset >= span,
                            count > 0,
                    ;
                    assert(q >= count) by (nonlinear_arith)
                        requires
                            span * q + r >= span * count,
                            r < span,
                            span > 0,
                    ;
                }
            }
            self.buckets - 1
        } else {
            let width: i128 = (self.max as i128) - (self.min as i128);
            let distance: i128 = (data as i128) - (self.min as i128);
            proof {
                let q = (offset * count) / span;
                let r = (offset * count) % span;
                assert(0 <= offset * count < span * count && offset * count
                    < 0x1_0000_0000_0000_0000 * 0x1_0000_0000) by (nonlinear_arith)
                    requires
                        0 < offset < span,
                        span < 0x1_0000_0000_0000_0000,
                        0 < count < 0x1_0000_0000,
                ;
                assert(0 <= q < count) by (nonlinear_arith)
                    requires
                        0 <= span * q + r < span * count,
                        0 <= r < span,
                ;
            }
            let raw: i128 = distance * (self.buckets as i128) / width;
            raw as u32
        }
    }
}

/// The layout of a nominal attribute: the names it was fitted to, in the
/// order of their first occurrence. The code of a name is its place.
pub struct NominalType {
    values: Vec<String>,
    map: StringHashMap<u32>,
}

impl View for NominalType {
    type V = Layout;

    /// The layout as a rule.
    closed spec fn view(&self) -> Layout {
        Layout::Nominal { values: texts(self.values@) }
    }
}

impl NominalType {
    /// No name is listed twice, and the table of codes holds exactly the
    /// names listed, each with its place.
    pub closed spec fn wf(&self) -> bool {
        &&& texts(self.values@).no_duplicates()
        &&& self.values@.len() <= u32::MAX
        &&& forall|name: Seq<char>| #[trigger]
            self.map@.contains_key(name) <==> texts(self.values@).contains(name)
        &&& forall|j: int|
            0 <= j < self.values@.len() ==> self.map@[#[trigger] texts(self.values@)[j]] == j
    }

    /// A layout that knows no name.
    fn new() -> (layout: Self)
        ensures
            layout.wf(),
            layout@ == (Layout::Nominal { values: Seq::empty() }),
    {
        let layout = NominalType { values: Vec::new(), map: StringHashMap::new() };
        proof {
            assert(texts(layout.values@) =~= Seq::<Seq<char>>::empty());
        }
        layout
    }

    /// Gives `value`, which the layout does not know yet, the next code.
    fn learn(&mut self, value: &str) -> (code: u32)
        requires
            old(self).wf(),
            old(self)@ matches Layout::Nominal { values } && !values.contains(value@)
                && values.len() < u32::MAX,
        ensures
            final(self).wf(),
            old(self)@ matches Layout::Nominal { values } && final(self)@ == (Layout::Nominal {
                values: values.push(value@),
            }) && code == values.len(),
    {
        let ghost known = texts(self.values@);
        let code: u32 = self.values.len() as u32;
        self.values.push(value.to_owned());
        self.map.insert(value.to_owned(), code);
        proof {
            let after = texts(self.values@);
            assert(after =~= known.push(value@));
            assert forall|name: Seq<char>| #[trigger]
                self.map@.contains_key(name) <==> after.contains(name) by {
                if known.contains(name) {
                    let j = choose|j: int| 0 <= j < known.len() && known[j] == name;
                    assert(after[j] == name);
                }
                if name == value@ {
                    assert(after[known.len() as int] == name);
                }
            }
            assert forall|j: int| 0 <= j < after.len() implies self.map@[#[trigger] after[j]]
                == j by {
                if j < known.len() {
                    assert(known[j] == after[j]);
                    assert(known.contains(known[j]));
                }
            }
        }
        code
    }

    /// The code of `value`, if the layout knows it.
    pub fn lookup(&self, value: &str) -> (code: Option<u32>)
        requires
            self.wf(),
        ensures
            self@ matches Layout::Nominal { values } && match code {
                Some(code) => code == first_index(values, value@),
                None => first_index(values, value@) == -1,
            },
    {
        let ghost known = texts(self.values@);
        proof {
            lemma_first_index(known, value@);
        }
        match self.map.get(value) {
            Some(code) => {
                proof {
                    assert(known.contains(value@));
                    let j = choose|j: int| 0 <= j < known.len() && known[j] == value@;
                    assert(self.map@[known[j]] == j);
                    lemma_first_index_is(known, value@, j);
                }
                Some(*code)
            },
            None => {
                proof {
                    if first_index(known, value@) >= 0 {
                        assert(known[first_index(known, value@)] == value@);
                        assert(known.contains(value@));
                    }
                }
                None
            },
        }
    }

    /// The code of `value`, which the layout knows.
    pub fn convert(&self, value: &str) -> (code: u32)
        requires
            self.wf(),
            self@ matches Layout::Nominal { values } && values.contains(value@),
        ensures
            self@ matches Layout::Nominal { values } && code == first_index(values, value@),
    {
        match self.lookup(value) {
            Some(code) => code,
            None => {
                proof {
                    lemma_first_index(texts(self.values@), value@);
                }
                vstd::pervasive::unreached()
            },
        }
    }
}

impl Clone for NominalType {
    /// A copy of the layout.
    fn clone(&self) -> (copy: Self)
        ensures
            copy@ == self@,
            self.wf() ==> copy.wf(),
    {
        let ghost known = texts(self.values@);
        let mut values: Vec<String> = Vec::new();
        let mut map: StringHashMap<u32> = StringHashMap::new();
        let mut i: usize = 0;
        while i < self.values.len()
            invariant
                0 <= i <= self.values@.len(),
                known == texts(self.values@),
                texts(values@) == known.take(i as int),
                forall|name: Seq<char>| #[trigger]
                    map@.contains_key(name) <==> known.take(i as int).contains(name),
                self.wf() ==> forall|j: int| 0 <= j < i ==> map@[#[trigger] known[j]] == j,
            decreases self.values@.len() - i,
        {
            let ghost before = texts(values@);
            let ghost old_map = map@;
            let name = self.values[i].clone();
            let again = self.values[i].clone();
            values.push(name);
            map.insert(again, ((i as u64) % 0x1_0000_0000u64) as u32);
            proof {
                assert(texts(values@) =~= before.push(known[i as int]));
                assert(known.take(i + 1) =~= known.take(i as int).push(known[i as int]));
                assert forall|name: Seq<char>| #[trigger]
                    map@.contains_key(name) <==> known.take(i + 1).contains(name) by {
                    let shorter = known.take(i as int);
                    let longer = known.take(i + 1);
                    if shorter.contains(name) {
                        let j = choose|j: int| 0 <= j < shorter.len() && shorter[j] == name;
                        assert(longer[j] == name);
                    }
                    if longer.contains(name) {
                        let j = choose|j: int| 0 <= j < longer.len() && longer[j] == name;
                        if j < i {
                            assert(shorter[j] == name);
                        }
                    }
                    if name == known[i as int] {
                        assert(longer[i as int] == name);
                    }
                }
                if self.wf() {
                    assert forall|j: int| 0 <= j < i + 1 implies map@[#[trigger] known[j]] == j by {
                        if j < i {
                            assert(old_map[known[j]] == j);
                        }
                    }
                }
            }
            i += 1;
        }
        proof {
            assert(known.take(self.values@.len() as int) =~= known);
        }
        NominalType { values, map }
    }
}

/// The layout of one attribute.
pub enum DataType {
    Numeric(NumericType),
    Nominal(NominalType),
}

impl View for DataType {
    type V = Layout;

    /// The layout as a rule.
    open spec fn view(&self) -> Layout {
        match self {
            DataType::Numeric(layout) => layout@,
            DataType::Nominal(layout) => layout@,
        }
    }
}

impl DataType {
    /// The layout inside is well formed.
    pub open spec fn wf(&self) -> bool {
        match self {
            DataType::Numeric(layout) => layout.wf(),
            DataType::Nominal(layout) => layout.wf(),
        }
    }

}

impl Clone for DataType {
    /// A copy of the layout.
    fn clone(&self) -> (copy: Self)
        ensures
            copy@ == self@,
            self.wf() ==> copy.wf(),
    {
        match self {
            DataType::Numeric(layout) => DataType::Numeric(
                NumericType { min: layout.min, max: layout.max, buckets: layout.buckets },
            ),
            DataType::Nominal(layout) => DataType::Nominal(layout.clone()),
        }
    }
}

/// The layouts as rules, in order.
pub open spec fn layouts(layout: Seq<DataType>) -> Seq<Layout> {
    Seq::new(layout.len(), |a: int| layout[a]@)
}

/// A data set reduced to category codes, one column for each attribute,
/// together with the layout of each attribute.
pub struct ProcessedData {
    layout: Vec<DataType>,
    data: Vec<Vec<u32>>,
}

impl View for ProcessedData {
    type V = Seq<Seq<u32>>;

    /// The columns of codes, in the order of the attributes.
    closed spec fn view(&self) -> Seq<Seq<u32>> {
        Seq::new(self.data@.len(), |a: int| self.data@[a]@)
    }
}

impl ProcessedData {
    /// Every column has a code for every instance.
    pub open spec fn wf(&self) -> bool {
        rectangular(self@)
    }

    /// The layout of each attribute, as a rule.
    pub closed spec fn rules(&self) -> Seq<Layout> {
        layouts(self.layout@)
    }

    /// Every layout is well formed.
    pub closed spec fn rules_wf(&self) -> bool {
        forall|a: int| 0 <= a < self.layout@.len() ==> (#[trigger] self.layout@[a]).wf()
    }

    /// The layout of each attribute, by which a later data set of the same
    /// attributes is encoded.
    pub fn layout(&self) -> (layout: &[DataType])
        ensures
            layouts(layout@) == self.rules(),
            self.rules_wf() ==> forall|a: int| 0 <= a < layout@.len() ==> (#[trigger] layout@[a]).wf(),
    {
        self.layout.as_slice()
    }

    /// The number of instances.
    pub fn data_len(&self) -> (len: usize)
        ensures
            len == instance_count(self@),
    {
        if self.data.len() == 0 {
            0
        } else {
            self.data[0].len()
        }
    }

    /// The number of attributes.
    pub fn attribute_len(&self) -> (len: usize)
        ensures
            len == self@.len(),
    {
        self.data.len()
    }

    /// The codes of the attribute `index`, instance by instance.
    pub fn get_attribute(&self, index: usize) -> (column: &[u32])
        requires
            index < self@.len(),
        ensures
            column@ == self@[index as int],
    {
        self.data[index].as_slice()
    }

    /// The code of the attribute `attribute` at the instance `index`.
    pub fn get_value(&self, attribute: usize, index: usize) -> (value: Result<u32, Error>)
        ensures
            attribute >= self@.len() ==> value == Err::<u32, Error>(
                Error::OutOfBounds(Position::Attribute(attribute)),
            ),
            attribute < self@.len() && index >= self@[attribute as int].len() ==> value == Err::<
                u32,
                Error,
            >(Error::OutOfBounds(Position::Instance(index))),
            attribute < self@.len() && index < self@[attribute as int].len() ==> value == Ok::<
                u32,
                Error,
            >(self@[attribute as int][index as int]),
    {
        if attribute >= self.data.len() {
            return Err(Error::OutOfBounds(Position::Attribute(attribute)));
        }
        if index >= self.data[attribute].len() {
            return Err(Error::OutOfBounds(Position::Instance(index)));
        }
        Ok(self.data[attribute][index])
    }
}

/// The square root of `n`, rounded down.
fn floor_sqrt(n: usize) -> (root: u32)
    ensures
        is_floor_sqrt(n as nat, root as nat),
{
    let mut low: u64 = 0;
    let mut high: u64 = 0x1_0000_0000;
    while high - low > 1
        invariant
            0 <= low < high <= 0x1_0000_0000,
            low * low <= n < high * high,
        decreases high - low,
    {
        let middle: u64 = low + (high - low) / 2;
        assert(middle * middle <= 0xffff_ffff * 0xffff_ffff) by (nonlinear_arith)
            requires
                0 <= middle <= 0xffff_ffff,
        ;
        if middle * middle <= n as u64 {
            low = middle;
        } else {
            high = middle;
        }
    }
    low as u32
}

/// The layouts fit the columns that they stand beside, and the codes are
/// those of the columns under them.
pub open spec fn fitted(columns: Seq<Column>, rules: Seq<Layout>, codes: Seq<Seq<u32>>) -> bool {
    &&& rules.len() == columns.len()
    &&& codes.len() == columns.len()
    &&& forall|a: int|
        0 <= a < columns.len() ==> (#[trigger] rules[a]).fitted_to(columns[a]) && codes[a]
            == rules[a].encode(columns[a])
}

/// The first of the first `upto` attributes that has a value for which its
/// layout has no code, or `-1` if there is none.
pub open spec fn first_failing(columns: Seq<Column>, rules: Seq<Layout>, upto: nat) -> int {
    first_index(failures(columns, rules, upto), true)
}

/// For each of the first `upto` attributes, whether it has a value for
/// which its layout has no code.
pub open spec fn failures(columns: Seq<Column>, rules: Seq<Layout>, upto: nat) -> Seq<bool> {
    Seq::new(upto, |a: int| rules[a].first_unknown(columns[a]) >= 0)
}

impl ProcessedData {
    /// Encodes numbers under the given layout.
    pub fn process_numeric_from_layout(data: &[i64], layout: &DataType) -> (codes: Vec<u32>)
        requires
            layout.wf(),
            layout is Numeric,
        ensures
            codes@ == layout@.encode(Column::Numeric(data@)),
    {
        let parser = match layout {
            DataType::Numeric(numeric_type) => numeric_type,
            _ => vstd::pervasive::unreached(),
        };
        let ghost all = layout@.encode(Column::Numeric(data@));
        let mut codes: Vec<u32> = Vec::new();
        let mut i: usize = 0;
        while i < data.len()
            invariant
                0 <= i <= data@.len(),
                parser.wf(),
                parser@ == layout@,
                all == layout@.encode(Column::Numeric(data@)),
                codes@ == all.take(i as int),
            decreases data@.len() - i,
        {
            codes.push(parser.convert(data[i]));
            proof {
                assert(all.take(i + 1) =~= all.take(i as int).push(all[i as int]));
            }
            i += 1;
        }
        proof {
            assert(all.take(data@.len() as int) =~= all);
        }
        codes
    }

    /// Encodes names under the given layout. Fails at the first name that
    /// the layout does not know, and reports it as a value of `attribute`.
    pub fn process_nominal_from_layout(data: &Nominal, layout: &DataType, attribute: usize) -> (codes:
        Result<Vec<u32>, Error>)
        requires
            data.wf(),
            layout.wf(),
            layout is Nominal,
        ensures
            match codes {
                Ok(codes) => layout@.first_unknown(Column::Nominal(data.values())) == -1 && codes@
                    == layout@.encode(Column::Nominal(data.values())),
                Err(Error::UnknownCategory { attribute: at, value }) => {
                    let i = layout@.first_unknown(Column::Nominal(data.values()));
                    &&& at == attribute
                    &&& 0 <= i < data.values().len()
                    &&& value@ == data.values()[i]
                },
                Err(_) => false,
            },
    {
        let parser = match layout {
            DataType::Nominal(nominal_type) => nominal_type,
            _ => vstd::pervasive::unreached(),
        };
        let ghost column = Column::Nominal(data.values());
        let ghost known = layout@->Nominal_values;
        let ghost all = layout@.encode(column);
        let ghost found = Seq::new(
            data.values().len(),
            |i: int| first_index(known, data.values()[i]) >= 0,
        );
        let ids = data.get_data();
        let mut codes: Vec<u32> = Vec::new();
        let mut i: usize = 0;
        proof {
            data.lemma_wf();
        }
        while i < ids.len()
            invariant
                0 <= i <= ids@.len(),
                data.wf(),
                ids@ == data.data(),
                parser.wf(),
                parser@ == layout@,
                layout@ is Nominal,
                known == layout@->Nominal_values,
                all == layout@.encode(Column::Nominal(data.values())),
                found == Seq::new(
                    data.values().len(),
                    |i: int| first_index(known, data.values()[i]) >= 0,
                ),
                forall|k: int| 0 <= k < i ==> found[k],
                codes@ == all.take(i as int),
            decreases ids@.len() - i,
        {
            let name = data.get(i);
            match parser.lookup(name) {
                Some(code) => {
                    codes.push(code);
                    proof {
                        assert(all.take(i + 1) =~= all.take(i as int).push(all[i as int]));
                    }
                },
                None => {
                    proof {
                        lemma_first_index_is(found, false, i as int);
                    }
                    return Err(Error::UnknownCategory { attribute, value: name.to_owned() });
                },
            }
            i += 1;
        }
        proof {
            assert(all.take(ids@.len() as int) =~= all);
            lemma_first_index(found, false);
        }
        Ok(codes)
    }

    /// Fits a layout to a nominal column and encodes the column under it:
    /// every name gets the place of its first occurrence among the distinct
    /// names.
    pub fn process_nominal(data: &Nominal) -> (fit: (DataType, Vec<u32>))
        requires
            data.wf(),
        ensures
            fit.0.wf(),
            fit.0 is Nominal,
            fit.0@.fitted_to(Column::Nominal(data.values())),
            fit.1@ == fit.0@.encode(Column::Nominal(data.values())),
    {
        let ghost names = data.values();
        let ids = data.get_data();
        let mut layout = NominalType::new();
        let mut codes: Vec<u32> = Vec::new();
        let mut i: usize = 0;
        proof {
            data.lemma_wf();
            assert(names.take(0) =~= Seq::<Seq<char>>::empty());
        }
        while i < ids.len()
            invariant
                0 <= i <= ids@.len(),
                data.wf(),
                ids@ == data.data(),
                names == data.values(),
                layout.wf(),
                layout@ == (Layout::Nominal { values: distinct(names.take(i as int)) }),
                codes@.len() == i,
                forall|k: int|
                    0 <= k < i ==> first_index(distinct(names.take(i as int)), names[k])
                        == #[trigger] codes@[k],
            decreases ids@.len() - i,
        {
            let name = data.get(i);
            let ghost seen = names.take(i as int);
            let ghost before = codes@;
            proof {
                assert(names.take(i + 1) =~= seen.push(name@));
                lemma_distinct(seen);
                lemma_distinct_push(seen, name@);
                lemma_first_index(distinct(seen), name@);
                assert(names.take(i + 1) =~= names.take(i + 1));
                lemma_few_names(ids@.take(i + 1), names.take(i + 1));
                lemma_distinct(names.take(i + 1));
                if first_index(distinct(seen), name@) >= 0 {
                    assert(distinct(seen).contains(name@));
                } else if distinct(seen).contains(name@) {
                    let j = choose|j: int| 0 <= j < distinct(seen).len() && distinct(seen)[j] == name@;
                    assert(false);
                }
            }
            let code = match layout.lookup(name) {
                Some(code) => code,
                None => layout.learn(name),
            };
            codes.push(code);
            proof {
                let grown = distinct(names.take(i + 1));
                assert forall|k: int| 0 <= k < i + 1 implies first_index(grown, names[k])
                    == #[trigger] codes@[k] by {
                    lemma_first_index_push(distinct(seen), name@, names[k]);
                    if k < i {
                        assert(codes@[k] == before[k]);
                    } else {
                        lemma_first_index_push(distinct(seen), name@, name@);
                    }
                }
            }
            i += 1;
        }
        proof {
            assert(names.take(ids@.len() as int) =~= names);
            assert(codes@ =~= layout@.encode(Column::Nominal(names)));
        }
        (DataType::Nominal(layout), codes)
    }

    /// Fits a layout to a numeric column and encodes the column under it:
    /// as many buckets as the square root of the number of instances,
    /// rounded down, between the least and the greatest number.
    pub fn process_numeric(data: &[i64]) -> (fit: (DataType, Vec<u32>))
        ensures
            fit.0.wf(),
            fit.0 is Numeric,
            fit.0@.fitted_to(Column::Numeric(data@)),
            fit.1@ == fit.0@.encode(Column::Numeric(data@)),
    {
        let buckets = floor_sqrt(data.len());
        let mut min: i64 = 0;
        let mut max: i64 = 0;
        let mut i: usize = 0;
        proof {
            assert(data@.take(0) =~= Seq::<i64>::empty());
        }
        while i < data.len()
            invariant
                0 <= i <= data@.len(),
                min == least(data@.take(i as int)),
                max == greatest(data@.take(i as int)),
            decreases data@.len() - i,
        {
            proof {
                assert(data@.take(i + 1).drop_last() =~= data@.take(i as int));
                assert(data@.take(i + 1).last() == data@[i as int]);
            }
            if i == 0 || data[i] < min {
                min = data[i];
            }
            if i == 0 || data[i] > max {
                max = data[i];
            }
            i += 1;
        }
        proof {
            assert(data@.take(data@.len() as int) =~= data@);
            lemma_extremes(data@);
        }
        let layout = DataType::Numeric(NumericType { min, max, buckets });
        let codes = Self::process_numeric_from_layout(data, &layout);
        (layout, codes)
    }

    /// Fits a layout to every attribute of `data_set` and encodes the data
    /// set under these layouts.
    pub fn import(data_set: &DataSet) -> (encoded: Self)
        requires
            data_set.wf(),
            forall|a: int| 0 <= a < data_set@.len() ==> !(#[trigger] data_set@[a] is Other),
        ensures
            fitted(data_set@, encoded.rules(), encoded@),
            encoded.rules_wf(),
            data_set.rectangular() ==> encoded.wf(),
    {
        let attributes = data_set.get_attributes();
        let mut layout: Vec<DataType> = Vec::new();
        let mut data: Vec<Vec<u32>> = Vec::new();
        let mut a: usize = 0;
        proof {
            data_set.lemma_view();
        }
        while a < attributes.len()
            invariant
                0 <= a <= attributes@.len(),
                attributes@ == data_set.attributes(),
                data_set.wf(),
                data_set@.len() == attributes@.len(),
                forall|k: int| 0 <= k < data_set@.len() ==> !(#[trigger] data_set@[k] is Other),
                forall|k: int| 0 <= k < data_set@.len() ==> #[trigger] data_set@[k] == attributes@[k].data@,
                layout@.len() == a,
                data@.len() == a,
                forall|k: int| 0 <= k < a ==> (#[trigger] layout@[k]).wf(),
                forall|k: int|
                    0 <= k < a ==> (#[trigger] layout@[k])@.fitted_to(data_set@[k]) && data@[k]@
                        == layout@[k]@.encode(data_set@[k]),
            decreases attributes@.len() - a,
        {
            assert(!(data_set@[a as int] is Other));
            assert(attributes@[a as int].data.wf());
            let (rule, codes) = match attributes[a].get_data() {
                Data::Nominal(column) => Self::process_nominal(column),
                Data::Numeric(column) => Self::process_numeric(column.as_slice()),
                Data::Real(column) => Self::process_numeric(column.as_slice()),
                _ => vstd::pervasive::unreached(),
            };
            let ghost old_layout = layout@;
            let ghost old_data = data@;
            layout.push(rule);
            data.push(codes);
            proof {
                assert forall|k: int| 0 <= k < a + 1 implies (#[trigger] layout@[k]).wf()
                    && layout@[k]@.fitted_to(data_set@[k]) && data@[k]@ == layout@[k]@.encode(
                    data_set@[k],
                ) by {
                    if k < a {
                        assert(layout@[k] == old_layout[k]);
                        assert(data@[k] == old_data[k]);
                    }
                }
            }
            a += 1;
        }
        let encoded = ProcessedData { layout, data };
        proof {
            assert forall|k: int| 0 <= k < data_set@.len() implies (#[trigger] layouts(
                encoded.layout@,
            )[k]).fitted_to(data_set@[k]) && encoded@[k] == layouts(encoded.layout@)[k].encode(
                data_set@[k],
            ) by {
                assert(encoded.layout@[k]@.fitted_to(data_set@[k]));
            }
            if data_set.rectangular() {
                assert forall|k: int| 0 <= k < encoded@.len() implies (#[trigger] encoded@[k]).len()
                    == instance_count(encoded@) by {
                    assert(encoded.layout@[k]@.fitted_to(data_set@[k]));
                    assert(encoded.layout@[0]@.fitted_to(data_set@[0]));
                    assert(encoded@[k].len() == data_set@[k].len());
                    assert(encoded@[0].len() == data_set@[0].len());
                }
            }
        }
        encoded
    }

    /// Encodes `data_set` under the layouts that were fitted to another data
    /// set of the same attributes, one layout for each attribute. Attributes
    /// or layouts beyond the shorter of the two lists are left out.
    ///
    /// Fails at the first attribute with a name that its layout does not
    /// know, and reports the attribute and the first such name.
    pub fn import_test_data(data_set: &DataSet, layout: &[DataType]) -> (encoded: Result<
        Self,
        Error,
    >)
        requires
            data_set.wf(),
            forall|a: int|
                0 <= a < data_set@.len() && a < layout@.len() ==> (#[trigger] layout@[a]).wf()
                    && layout@[a]@.suits(data_set@[a]),
        ensures
            match encoded {
                Ok(encoded) => {
                    let n = if data_set@.len() <= layout@.len() {
                        data_set@.len()
                    } else {
                        layout@.len()
                    };
                    &&& first_failing(data_set@, layouts(layout@), n) == -1
                    &&& encoded@.len() == n
                    &&& forall|a: int|
                        0 <= a < n ==> #[trigger] encoded@[a] == layout@[a]@.encode(data_set@[a])
                    &&& encoded.rules() == layouts(layout@).take(n as int)
                    &&& encoded.rules_wf()
                    &&& data_set.rectangular() ==> encoded.wf()
                },
                Err(Error::UnknownCategory { attribute, value }) => {
                    let n = if data_set@.len() <= layout@.len() {
                        data_set@.len()
                    } else {
                        layout@.len()
                    };
                    let i = layout@[attribute as int]@.first_unknown(data_set@[attribute as int]);
                    &&& attribute == first_failing(data_set@, layouts(layout@), n)
                    &&& 0 <= attribute < n
                    &&& data_set@[attribute as int] matches Column::Nominal(names) && 0 <= i
                        < names.len() && value@ == names[i]
                },
                Err(_) => false,
            },
    {
        let attributes = data_set.get_attributes();
        let n: usize = if attributes.len() <= layout.len() {
            attributes.len()
        } else {
            layout.len()
        };
        let ghost failing = failures(data_set@, layouts(layout@), n as nat);
        let mut data: Vec<Vec<u32>> = Vec::new();
        let mut a: usize = 0;
        proof {
            data_set.lemma_view();
        }
        while a < n
            invariant
                0 <= a <= n,
                n <= attributes@.len(),
                n <= layout@.len(),
                n == attributes@.len() || n == layout@.len(),
                attributes@ == data_set.attributes(),
                data_set.wf(),
                data_set@.len() == attributes@.len(),
                forall|k: int| 0 <= k < data_set@.len() ==> #[trigger] data_set@[k] == attributes@[k].data@,
                forall|k: int|
                    0 <= k < n ==> (#[trigger] layout@[k]).wf() && layout@[k]@.suits(data_set@[k]),
                failing == failures(data_set@, layouts(layout@), n as nat),
                forall|k: int| 0 <= k < a ==> !failing[k],
                data@.len() == a,
                forall|k: int|
                    0 <= k < a ==> (#[trigger] data@[k])@ == layout@[k]@.encode(data_set@[k]),
            decreases n - a,
        {
            assert(layout@[a as int].wf() && layout@[a as int]@.suits(data_set@[a as int]));
            assert(attributes@[a as int].data.wf());
            let ghost old_data = data@;
            let codes = match attributes[a].get_data() {
                Data::Nominal(column) => {
                    match Self::process_nominal_from_layout(column, &layout[a], a) {
                        Ok(codes) => codes,
                        Err(error) => {
                            proof {
                                assert(failing[a as int]);
                                lemma_first_index_is(failing, true, a as int);
                            }
                            return Err(error);
                        },
                    }
                },
                Data::Numeric(column) => Self::process_numeric_from_layout(
                    column.as_slice(),
                    &layout[a],
                ),
                Data::Real(column) => Self::process_numeric_from_layout(
                    column.as_slice(),
                    &layout[a],
                ),
                _ => vstd::pervasive::unreached(),
            };
            data.push(codes);
            proof {
                assert(!failing[a as int]);
                assert forall|k: int| 0 <= k < a + 1 implies (#[trigger] data@[k])@
                    == layout@[k]@.encode(data_set@[k]) by {
                    if k < a {
                        assert(data@[k] == old_data[k]);
                    }
                }
            }
            a += 1;
        }
        let mut copy: Vec<DataType> = Vec::new();
        let mut k: usize = 0;
        while k < n
            invariant
                0 <= k <= n,
                n <= layout@.len(),
                forall|j: int| 0 <= j < n ==> (#[trigger] layout@[j]).wf(),
                copy@.len() == k,
                forall|j: int| 0 <= j < k ==> (#[trigger] copy@[j]).wf() && copy@[j]@ == layout@[j]@,
            decreases n - k,
        {
            let ghost old_copy = copy@;
            copy.push(layout[k].clone());
            proof {
                assert forall|j: int| 0 <= j < k + 1 implies (#[trigger] copy@[j]).wf()
                    && copy@[j]@ == layout@[j]@ by {
                    if j < k {
                        assert(copy@[j] == old_copy[j]);
                    }
                }
            }
            k += 1;
        }
        let encoded = ProcessedData { layout: copy, data };
        proof {
            lemma_first_index(failing, true);
            assert(layouts(copy@) =~= layouts(layout@).take(n as int));
            if data_set.rectangular() {
                assert forall|k: int| 0 <= k < encoded@.len() implies (#[trigger] encoded@[k]).len()
                    == instance_count(encoded@) by {
                    assert(layout@[k]@.suits(data_set@[k]));
                    assert(layout@[0]@.suits(data_set@[0]));
                    assert(encoded@[k].len() == data_set@[k].len());
                    assert(encoded@[0].len() == data_set@[0].len());
                }
            }
        }
        Ok(encoded)
    }
}

/// A node that answers with its value.
#[derive(Debug)]
pub struct LeafNode {
    key: u32,
    value: u32,
}

/// A node that splits on the attribute `category`. `key` is the code of the
/// parent's attribute that leads here; `value` is the answer when no child
/// has the key asked for.
#[derive(Debug)]
pub struct InternalNode {
    category: usize,
    key: u32,
    value: u32,
    children: Vec<Node>,
}

/// A node of a decision tree.
#[derive(Debug)]
pub enum Node {
    Internal(InternalNode),
    Leaf(LeafNode),
}

/// The trees that `nodes` stand for, in order.
pub closed spec fn views(nodes: Seq<Node>) -> Seq<Tree> {
    Seq::new(nodes.len(), |i: int| nodes[i]@)
}

/// The tree below and including `node`.
spec fn tree_of(node: Node) -> Tree
    decreases node, 0nat,
{
    match node {
        Node::Leaf(leaf) => Tree::Leaf { key: leaf.key, value: leaf.value },
        Node::Internal(inner) => Tree::Internal {
            category: inner.category,
            key: inner.key,
            value: inner.value,
            children: trees_of(inner.children@, inner.children@.len()),
        },
    }
}

/// The trees that the first `upto` of `nodes` stand for.
spec fn trees_of(nodes: Seq<Node>, upto: nat) -> Seq<Tree>
    decreases nodes, upto,
{
    if upto == 0 || upto > nodes.len() {
        Seq::empty()
    } else {
        trees_of(nodes, (upto - 1) as nat).push(tree_of(nodes[upto - 1]))
    }
}

proof fn lemma_trees_of(nodes: Seq<Node>, upto: nat)
    requires
        upto <= nodes.len(),
    ensures
        trees_of(nodes, upto).len() == upto,
        forall|i: int| 0 <= i < upto ==> trees_of(nodes, upto)[i] == tree_of(#[trigger] nodes[i]),
    decreases upto,
{
    if upto > 0 {
        lemma_trees_of(nodes, (upto - 1) as nat);
    }
}

impl View for Node {
    type V = Tree;

    /// The tree below and including this node.
    closed spec fn view(&self) -> Tree {
        tree_of(*self)
    }
}

impl View for LeafNode {
    type V = Tree;

    /// The leaf as a tree.
    closed spec fn view(&self) -> Tree {
        Tree::Leaf { key: self.key, value: self.value }
    }
}

impl View for InternalNode {
    type V = Tree;

    /// The tree below and including this node.
    closed spec fn view(&self) -> Tree {
        Tree::Internal {
            category: self.category,
            key: self.key,
            value: self.value,
            children: views(self.children@),
        }
    }
}

/// A node stands for the same tree as what it wraps.
proof fn lemma_node_view(node: Node)
    ensures
        match node {
            Node::Internal(inner) => node@ == inner@,
            Node::Leaf(leaf) => node@ == leaf@,
        },
{
    match node {
        Node::Internal(inner) => {
            lemma_trees_of(inner.children@, inner.children@.len());
            assert(node@->Internal_children =~= views(inner.children@));
        },
        Node::Leaf(leaf) => {},
    }
}

impl LeafNode {
    /// The listing of the leaf: one line.
    pub fn display(&self, _depth: usize) -> (lines: Vec<Line>)
        ensures
            lines@ == self@.listing(_depth as nat),
    {
        let mut lines: Vec<Line> = Vec::new();
        lines.push(Line::Leaf { key: self.key, value: self.value });
        proof {
            assert(lines@ =~= self@.listing(_depth as nat));
        }
        lines
    }

    /// The value of the leaf.
    pub fn query(&self) -> (answer: u32)
        ensures
            answer == self@.value(),
            forall|instance: Seq<u32>| answer == #[trigger] self@.answer(instance),
    {
        self.value
    }
}

impl Node {
    /// The listing of the tree below this node, which stands at `depth`.
    pub fn display(&self, depth: usize) -> (lines: Vec<Line>)
        requires
            depth + self@.depth() <= usize::MAX,
        ensures
            lines@ == self@.listing(depth as nat),
        decreases self,
    {
        proof {
            lemma_node_view(*self);
        }
        match self {
            Node::Internal(node) => node.display(depth),
            Node::Leaf(node) => node.display(depth),
        }
    }

    /// The answer of the tree below this node for the instance `data`.
    pub fn query(&self, data: &[u32]) -> (answer: u32)
        ensures
            answer == self@.answer(data@),
        decreases self,
    {
        proof {
            lemma_node_view(*self);
        }
        match self {
            Node::Internal(node) => node.query(data),
            Node::Leaf(node) => node.query(),
        }
    }

    /// Tells whether `key` leads to this node.
    pub fn has_key(&self, key: u32) -> (has: bool)
        ensures
            has == (self@.key() == key),
    {
        match self {
            Node::Internal(node) => node.key == key,
            Node::Leaf(node) => node.key == key,
        }
    }
}

impl InternalNode {
    /// A node without children that splits on the first attribute, with key
    /// and fallback zero.
    pub fn new() -> (node: Self)
        ensures
            node@ == (Tree::Internal { category: 0, key: 0, value: 0, children: Seq::empty() }),
    {
        let node = InternalNode { category: 0, key: 0, value: 0, children: Vec::new() };
        proof {
            assert(views(node.children@) =~= Seq::<Tree>::empty());
        }
        node
    }

    /// A node without children that splits on the first attribute, with the
    /// given key and fallback.
    pub fn from_key_value(key: u32, value: u32) -> (node: Self)
        ensures
            node@ == (Tree::Internal { category: 0, key, value, children: Seq::empty() }),
    {
        let node = InternalNode { category: 0, key, value, children: Vec::new() };
        proof {
            assert(views(node.children@) =~= Seq::<Tree>::empty());
        }
        node
    }

    /// The listing of the tree below this node, which stands at `depth`:
    /// the indentation, the children one level deeper, then the node.
    pub fn display(&self, depth: usize) -> (lines: Vec<Line>)
        requires
            depth + self@.depth() <= usize::MAX,
        ensures
            lines@ == self@.listing(depth as nat),
        decreases self,
    {
        let ghost trees = views(self.children@);
        let mut lines: Vec<Line> = Vec::new();
        lines.push(Line::Indent(depth));
        let mut i: usize = 0;
        proof {
            lemma_deepest(trees, trees.len());
            assert(lines@ =~= seq![Line::Indent(depth)] + listings(trees, 0, (depth + 1) as nat));
        }
        while i < self.children.len()
            invariant
                0 <= i <= self.children@.len(),
                trees == views(self.children@),
                self.children@.len() > 0 ==> depth + 1 + crate::induction::deepest(trees, trees.len())
                    <= usize::MAX,
                forall|k: int|
                    0 <= k < trees.len() ==> (#[trigger] trees[k]).depth()
                        <= crate::induction::deepest(trees, trees.len()),
                lines@ == seq![Line::Indent(depth)] + listings(trees, i as nat, (depth + 1) as nat),
            decreases self.children@.len() - i,
        {
            assert(trees[i as int].depth() <= crate::induction::deepest(trees, trees.len()));
            let mut below = self.children[i].display(depth + 1);
            let ghost before = lines@;
            lines.append(&mut below);
            proof {
                assert(lines@ =~= seq![Line::Indent(depth)] + listings(
                    trees,
                    (i + 1) as nat,
                    (depth + 1) as nat,
                ));
            }
            i += 1;
        }
        lines.push(Line::Internal { category: self.category, key: self.key, depth });
        lines
    }

    /// The answer of the tree below this node for the instance `data`: that
    /// of the first child whose key is the instance's code of the split
    /// attribute, or the fallback if there is no such child, or no such
    /// code.
    pub fn query(&self, data: &[u32]) -> (answer: u32)
        ensures
            answer == self@.answer(data@),
        decreases self,
    {
        if self.category >= data.len() {
            return self.value;
        }
        let key: u32 = data[self.category];
        let ghost trees = views(self.children@);
        let mut i: usize = 0;
        while i < self.children.len()
            invariant
                0 <= i <= self.children@.len(),
                trees == views(self.children@),
                self.category < data@.len(),
                key == data@[self.category as int],
                forall|k: int| 0 <= k < i ==> keys_of(trees)[k] != key,
            decreases self.children@.len() - i,
        {
            if self.children[i].has_key(key) {
                proof {
                    lemma_first_index_is(keys_of(trees), key, i as int);
                }
                return self.children[i].query(data);
            }
            i += 1;
        }
        proof {
            lemma_first_index(keys_of(trees), key);
        }
        self.value
    }
}

/// The codes of `column` at the instances `indices`, in order.
fn gather_codes(column: &[u32], indices: &[usize]) -> (codes: Vec<u32>)
    requires
        within(indices@, column@.len()),
    ensures
        codes@ == gather(column@, indices@),
{
    let mut codes: Vec<u32> = Vec::new();
    let mut i: usize = 0;
    while i < indices.len()
        invariant
            0 <= i <= indices@.len(),
            within(indices@, column@.len()),
            codes@ == gather(column@, indices@).take(i as int),
        decreases indices@.len() - i,
    {
        codes.push(column[indices[i]]);
        proof {
            let all = gather(column@, indices@);
            assert(all.take(i + 1) =~= all.take(i as int).push(all[i as int]));
        }
        i += 1;
    }
    proof {
        let all = gather(column@, indices@);
        assert(all.take(indices@.len() as int) =~= all);
    }
    codes
}

/// The weighted entropy of `target` over the instances `indices` when they
/// are split on `attribute`.
fn score(data: &ProcessedData, indices: &[usize], attribute: usize, target: usize) -> (entropy:
    Entropy)
    requires
        data.wf(),
        attribute < data@.len(),
        target < data@.len(),
        within(indices@, instance_count(data@)),
    ensures
        entropy.numerator() == crate::entropy::split_numerator(
            pairs_over(data@, indices@, attribute, target),
        ),
        entropy.denominator() == crate::entropy::split_denominator(
            pairs_over(data@, indices@, attribute, target),
        ),
{
    let split = data.get_attribute(attribute);
    let goal = data.get_attribute(target);
    let ghost pairs = pairs_over(data@, indices@, attribute, target);
    let mut counter = Counter::new();
    let mut i: usize = 0;
    proof {
        assert(pairs.take(0) =~= Seq::<(u32, u32)>::empty());
    }
    while i < indices.len()
        invariant
            0 <= i <= indices@.len(),
            data.wf(),
            attribute < data@.len(),
            target < data@.len(),
            within(indices@, instance_count(data@)),
            split@ == data@[attribute as int],
            goal@ == data@[target as int],
            pairs == pairs_over(data@, indices@, attribute, target),
            counter.wf(),
            counter@ == pairs.take(i as int),
        decreases indices@.len() - i,
    {
        let instance: usize = indices[i];
        assert(indices@[i as int] < instance_count(data@));
        counter.insert(split[instance], goal[instance]);
        proof {
            assert(pairs.take(i + 1) =~= pairs.take(i as int).push(pairs[i as int]));
        }
        i += 1;
    }
    proof {
        assert(pairs.take(indices@.len() as int) =~= pairs);
    }
    counter.entropy()
}

/// The place of the attribute, among `attributes`, on which to split the
/// instances `indices`.
fn select(data: &ProcessedData, indices: &[usize], attributes: &[usize], target: usize) -> (chosen:
    usize)
    requires
        data.wf(),
        target < data@.len(),
        attributes@.len() > 0,
        forall|i: int| 0 <= i < attributes@.len() ==> #[trigger] attributes@[i] < data@.len(),
        within(indices@, instance_count(data@)),
    ensures
        chosen < attributes@.len(),
        chosen == best_position(data@, indices@, target, attributes@, attributes@.len()),
{
    let mut chosen: usize = 0;
    let mut least = score(data, indices, attributes[0], target);
    let mut j: usize = 1;
    while j < attributes.len()
        invariant
            1 <= j <= attributes@.len(),
            data.wf(),
            target < data@.len(),
            forall|i: int| 0 <= i < attributes@.len() ==> #[trigger] attributes@[i] < data@.len(),
            within(indices@, instance_count(data@)),
            chosen < j,
            chosen == best_position(data@, indices@, target, attributes@, j as nat),
            least.numerator() == crate::entropy::split_numerator(
                pairs_over(data@, indices@, attributes@[chosen as int], target),
            ),
            least.denominator() == crate::entropy::split_denominator(
                pairs_over(data@, indices@, attributes@[chosen as int], target),
            ),
        decreases attributes@.len() - j,
    {
        let entropy = score(data, indices, attributes[j], target);
        if entropy.lt(&least) {
            chosen = j;
            least = entropy;
        }
        j += 1;
    }
    chosen
}

/// Groups the instances `indices` by their codes, given place by place in
/// `codes`: the distinct codes in the order of their first occurrence, and
/// for each of them its instances.
fn split(codes: &Vec<u32>, indices: &[usize]) -> (groups: (Vec<u32>, Vec<Vec<usize>>))
    requires
        codes@.len() == indices@.len(),
    ensures
        groups.0@ == distinct(codes@),
        groups.1@.len() == groups.0@.len(),
        forall|j: int|
            0 <= j < groups.1@.len() ==> (#[trigger] groups.1@[j])@ == members(
                indices@,
                codes@,
                groups.0@[j],
            ),
{
    let mut keys: Vec<u32> = Vec::new();
    let mut parts: Vec<Vec<usize>> = Vec::new();
    let mut i: usize = 0;
    proof {
        assert(codes@.take(0) =~= Seq::<u32>::empty());
    }
    while i < indices.len()
        invariant
            0 <= i <= indices@.len(),
            codes@.len() == indices@.len(),
            keys@ == distinct(codes@.take(i as int)),
            parts@.len() == keys@.len(),
            forall|j: int|
                0 <= j < parts@.len() ==> (#[trigger] parts@[j])@ == members(
                    indices@.take(i as int),
                    codes@.take(i as int),
                    keys@[j],
                ),
        decreases indices@.len() - i,
    {
        let code: u32 = codes[i];
        let instance: usize = indices[i];
        let ghost seen = codes@.take(i as int);
        let ghost past = indices@.take(i as int);
        let ghost old_keys = keys@;
        let ghost old_parts = parts@;
        proof {
            assert(codes@.take(i + 1) =~= seen.push(code));
            assert(indices@.take(i + 1) =~= past.push(instance));
            lemma_distinct(seen);
            lemma_distinct_push(seen, code);
            lemma_members_push(past, seen, instance, code);
        }
        match position(&keys, code) {
            Some(j) => {
                parts[j].push(instance);
                proof {
                    assert forall|k: int| 0 <= k < parts@.len() implies (#[trigger] parts@[k])@
                        == members(past.push(instance), seen.push(code), keys@[k]) by {
                        if k != j {
                            assert(parts@[k] == old_parts[k]);
                        }
                    }
                }
            },
            None => {
                let mut part: Vec<usize> = Vec::new();
                part.push(instance);
                keys.push(code);
                parts.push(part);
                proof {
                    lemma_members(past, seen, code);
                    lemma_count_contains(seen, code);
                    assert(members(past, seen, code) =~= Seq::<usize>::empty());
                    assert forall|k: int| 0 <= k < parts@.len() implies (#[trigger] parts@[k])@
                        == members(past.push(instance), seen.push(code), keys@[k]) by {
                        if k < old_parts.len() {
                            assert(parts@[k] == old_parts[k]);
                            assert(old_keys.contains(old_keys[k]));
                        }
                    }
                }
            },
        }
        i += 1;
    }
    proof {
        assert(codes@.take(indices@.len() as int) =~= codes@);
        assert(indices@.take(indices@.len() as int) =~= indices@);
    }
    (keys, parts)
}

impl InternalNode {
    /// Grows the tree below this node from the instances `indices`, with
    /// `attributes` as the attributes left to split on: the node splits on
    /// the attribute of least weighted entropy and gets one child for each
    /// code of it that occurs. The attribute chosen is moved to the end of
    /// `attributes`; every child works on a copy of the others.
    pub fn train(
        &mut self,
        indices: &[usize],
        data: &ProcessedData,
        attributes: &mut [usize],
        target: usize,
    )
        requires
            data.wf(),
            target < data@.len(),
            old(attributes)@.len() > 0,
            forall|i: int|
                0 <= i < old(attributes)@.len() ==> #[trigger] old(attributes)@[i] < data@.len(),
            within(indices@, instance_count(data@)),
        ensures
            final(self)@ == grow(
                data@,
                indices@,
                old(attributes)@,
                target,
                old(self)@.key(),
                old(self)@.value(),
            ),
            final(attributes)@ == without(
                old(attributes)@,
                best_position(data@, indices@, target, old(attributes)@, old(attributes)@.len()),
            ).push(
                old(attributes)@[best_position(
                    data@,
                    indices@,
                    target,
                    old(attributes)@,
                    old(attributes)@.len(),
                )],
            ),
        decreases old(attributes)@.len(),
    {
        let ghost candidates = attributes@;
        let chosen = select(data, indices, attributes, target);
        let attribute: usize = attributes[chosen];
        let codes = gather_codes(data.get_attribute(attribute), indices);
        let (keys, parts) = split(&codes, indices);
        let rest = slice_to_vec(swap_remove(attributes, chosen));
        let goal = data.get_attribute(target);
        let mut children: Vec<Node> = Vec::new();
        let mut j: usize = 0;
        proof {
            lemma_distinct(codes@);
        }
        while j < keys.len()
            invariant
                0 <= j <= keys@.len(),
                data.wf(),
                target < data@.len(),
                goal@ == data@[target as int],
                within(indices@, instance_count(data@)),
                codes@.len() == indices@.len(),
                keys@ == distinct(codes@),
                parts@.len() == keys@.len(),
                forall|k: int|
                    0 <= k < parts@.len() ==> (#[trigger] parts@[k])@ == members(
                        indices@,
                        codes@,
                        keys@[k],
                    ),
                rest@ == without(candidates, chosen as int),
                rest@.len() < candidates.len(),
                candidates.len() == old(attributes)@.len(),
                forall|i: int| 0 <= i < rest@.len() ==> #[trigger] rest@[i] < data@.len(),
                children@.len() == j,
                forall|k: int|
                    0 <= k < j ==> (#[trigger] children@[k])@ == branch(
                        data@,
                        members(indices@, codes@, keys@[k]),
                        rest@,
                        target,
                        keys@[k],
                    ),
            decreases keys@.len() - j,
        {
            let key: u32 = keys[j];
            let part = parts[j].as_slice();
            proof {
                lemma_distinct(codes@);
                assert(keys@.contains(keys@[j as int]));
                lemma_count_contains(codes@, key);
                lemma_members(indices@, codes@, key);
                assert forall|k: int| 0 <= k < part@.len() implies #[trigger] part@[k]
                    < instance_count(data@) by {
                    assert(indices@.contains(part@[k]));
                }
            }
            let votes = gather_codes(goal, part);
            let child = if rest.len() == 0 {
                Node::Leaf(LeafNode { key, value: majority_vote_ordered(votes.as_slice()) })
            } else if all_equal(votes.as_slice()) {
                Node::Leaf(LeafNode { key, value: votes[0] })
            } else {
                let mut inner = InternalNode::from_key_value(
                    key,
                    majority_vote_ordered(votes.as_slice()),
                );
                let mut own = slice_to_vec(rest.as_slice());
                inner.train(part, data, own.as_mut_slice(), target);
                proof {
                    lemma_node_view(Node::Internal(inner));
                }
                Node::Internal(inner)
            };
            let ghost before = children@;
            children.push(child);
            proof {
                assert forall|k: int| 0 <= k < j + 1 implies (#[trigger] children@[k])@ == branch(
                    data@,
                    members(indices@, codes@, keys@[k]),
                    rest@,
                    target,
                    keys@[k],
                ) by {
                    if k < j {
                        assert(children@[k] == before[k]);
                    }
                }
            }
            j += 1;
        }
        self.category = attribute;
        self.children = children;
        proof {
            let tree = grow(
                data@,
                indices@,
                candidates,
                target,
                old(self)@.key(),
                old(self)@.value(),
            );
            assert(views(self.children@) =~= tree->Internal_children);
        }
    }
}

impl Node {
    /// Grows the tree below this node, which is an internal one, from the
    /// instances `indices` with `attributes` as the attributes left to
    /// split on.
    pub fn train(
        &mut self,
        indices: &[usize],
        data: &ProcessedData,
        attributes: &mut [usize],
        target: usize,
    )
        requires
            *old(self) is Internal,
            data.wf(),
            target < data@.len(),
            old(attributes)@.len() > 0,
            forall|i: int|
                0 <= i < old(attributes)@.len() ==> #[trigger] old(attributes)@[i] < data@.len(),
            within(indices@, instance_count(data@)),
        ensures
            final(self)@ == grow(
                data@,
                indices@,
                old(attributes)@,
                target,
                old(self)@.key(),
                old(self)@.value(),
            ),
    {
        proof {
            lemma_node_view(*self);
        }
        match self {
            Node::Internal(node) => {
                node.train(indices, data, attributes, target);
                proof {
                    lemma_node_view(Node::Internal(*node));
                }
            },
            Node::Leaf(_) => {
                assert(false);
            },
        }
    }
}

/// A decision tree that is induced from encoded data and then answers
/// queries.
pub struct ID3 {
    root: Node,
}

impl View for ID3 {
    type V = Tree;

    /// The tree.
    closed spec fn view(&self) -> Tree {
        self.root@
    }
}

impl ID3 {
    /// An untrained tree: a root without children, whose fallback is zero.
    pub fn new() -> (id3: Self)
        ensures
            id3@ == (Tree::Internal { category: 0, key: 0, value: 0, children: Seq::empty() }),
    {
        let root = InternalNode::new();
        proof {
            lemma_node_view(Node::Internal(root));
        }
        ID3 { root: Node::Internal(root) }
    }

    /// Induces the tree that predicts the attribute `target` from the other
    /// attributes of `data`, in place of the tree held so far.
    ///
    /// Fails, and leaves the tree as it was, when `data` has no instance or
    /// no attribute `target`.
    pub fn train(&mut self, data: &ProcessedData, target: usize) -> (result: Result<(), Error>)
        requires
            data.wf(),
        ensures
            instance_count(data@) == 0 ==> result == Err::<(), Error>(Error::EmptyDataset)
                && final(self)@ == old(self)@,
            instance_count(data@) > 0 && target >= data@.len() ==> result == Err::<(), Error>(
                Error::OutOfBounds(Position::Attribute(target)),
            ) && final(self)@ == old(self)@,
            instance_count(data@) > 0 && target < data@.len() ==> {
                &&& result is Ok
                &&& final(self)@ == induced(data@, target)
                &&& final(self)@.fits(data@.len())
                &&& final(self)@.depth() < data@.len()
                &&& final(self)@.drawn_from(data@[target as int])
                &&& forall|instance: Seq<u32>|
                    data@[target as int].contains(#[trigger] final(self)@.answer(instance))
            },
    {
        let data_len = data.data_len();
        let attribute_len = data.attribute_len();
        if data_len == 0 {
            return Err(Error::EmptyDataset);
        }
        if target >= attribute_len {
            return Err(Error::OutOfBounds(Position::Attribute(target)));
        }
        let goal = data.get_attribute(target);
        let majority_element = majority_vote_ordered(goal);
        let mut indices: Vec<usize> = Vec::new();
        let mut i: usize = 0;
        while i < data_len
            invariant
                0 <= i <= data_len,
                indices@ == all_instances(data_len as nat).take(i as int),
            decreases data_len - i,
        {
            indices.push(i);
            proof {
                let all = all_instances(data_len as nat);
                assert(all.take(i + 1) =~= all.take(i as int).push(all[i as int]));
            }
            i += 1;
        }
        let mut attributes: Vec<usize> = Vec::new();
        let mut a: usize = 0;
        while a < attribute_len
            invariant
                0 <= a <= attribute_len,
                target < attribute_len,
                attribute_len == data@.len(),
                attributes@ == all_but(attribute_len as nat, target).take(
                    if a <= target {
                        a as int
                    } else {
                        a - 1
                    },
                ),
            decreases attribute_len - a,
        {
            if a != target {
                attributes.push(a);
                proof {
                    let all = all_but(attribute_len as nat, target);
                    let at: int = if a < target {
                        a as int
                    } else {
                        a - 1
                    };
                    assert(all.take(at + 1) =~= all.take(at).push(all[at]));
                }
            }
            a += 1;
        }
        proof {
            let all = all_instances(data_len as nat);
            assert(all.take(data_len as int) =~= all);
            let others = all_but(attribute_len as nat, target);
            assert(others.take(attribute_len - 1) =~= others);
            assert(within(indices@, instance_count(data@)));
            lemma_ordered_majority_in(goal@, majority_element);
            lemma_grow(data@, indices@, attributes@, target, 0, majority_element);
        }
        let inner = InternalNode::from_key_value(0, majority_element);
        proof {
            lemma_node_view(Node::Internal(inner));
            crate::induction::lemma_grow_depth(
                data@,
                indices@,
                attributes@,
                target,
                0,
                majority_element,
            );
        }
        let mut root = Node::Internal(inner);
        if attributes.len() > 0 {
            root.train(indices.as_slice(), data, attributes.as_mut_slice(), target);
        }
        proof {
            let tree = induced(data@, target);
            assert forall|instance: Seq<u32>|
                data@[target as int].contains(#[trigger] tree.answer(instance)) by {
                lemma_answer_drawn_from(tree, data@[target as int], instance);
            }
        }
        self.root = root;
        Ok(())
    }

    /// The answer of the tree for the instance `data`, which holds one code
    /// for each attribute. A node that splits on an attribute for which
    /// `data` has no code answers with its fallback.
    pub fn query(&self, data: &[u32]) -> (answer: u32)
        ensures
            answer == self@.answer(data@),
    {
        self.root.query(data)
    }
}

impl ID3 {
    /// Queries the tree with every instance of `test_data` and counts how
    /// often the answer is the instance's own code of `target`.
    pub fn test(&self, test_data: &ProcessedData, target: usize) -> (score: RightVsWrong)
        requires
            test_data.wf(),
            target < test_data@.len(),
        ensures
            score.right() == hits(self@, test_data@, target, instance_count(test_data@)),
            score.right() + score.wrong() == instance_count(test_data@),
    {
        let data_len = test_data.data_len();
        let attribute_len = test_data.attribute_len();
        let mut score = RightVsWrong::default();
        let mut data_index: usize = 0;
        while data_index < data_len
            invariant
                0 <= data_index <= data_len,
                data_len == instance_count(test_data@),
                attribute_len == test_data@.len(),
                test_data.wf(),
                target < test_data@.len(),
                score.right() == hits(self@, test_data@, target, data_index as nat),
                score.right() + score.wrong() == data_index,
            decreases data_len - data_index,
        {
            let mut entry: Vec<u32> = Vec::new();
            let mut attribute_index: usize = 0;
            while attribute_index < attribute_len
                invariant
                    0 <= attribute_index <= attribute_len,
                    attribute_len == test_data@.len(),
                    data_index < instance_count(test_data@),
                    test_data.wf(),
                    entry@ == row(test_data@, data_index as int).take(attribute_index as int),
                decreases attribute_len - attribute_index,
            {
                assert(test_data@[attribute_index as int].len() == instance_count(test_data@));
                entry.push(test_data.get_attribute(attribute_index)[data_index]);
                proof {
                    let all = row(test_data@, data_index as int);
                    assert(all.take(attribute_index + 1) =~= all.take(attribute_index as int).push(
                        all[attribute_index as int],
                    ));
                }
                attribute_index += 1;
            }
            proof {
                let all = row(test_data@, data_index as int);
                assert(all.take(attribute_len as int) =~= all);
                lemma_hits_bound(self@, test_data@, target, data_index as nat);
            }
            let predicted = self.query(entry.as_slice());
            let actual: u32 = entry[target];
            if predicted == actual {
                score.was_right();
            } else {
                score.was_wrong();
            }
            data_index += 1;
        }
        score
    }

    /// The listing of the tree.
    pub fn display(&self) -> (lines: Vec<Line>)
        requires
            self@.depth() <= usize::MAX,
        ensures
            lines@ == self@.listing(0),
    {
        self.root.display(0)
    }
}

impl Default for ID3 {
    /// An untrained tree.
    fn default() -> (id3: Self)
        ensures
            id3@ == (Tree::Internal { category: 0, key: 0, value: 0, children: Seq::empty() }),
    {
        Self::new()
    }
}

/// The winner of a vote is one of the votes.
proof fn lemma_ordered_majority_in(votes: Seq<u32>, winner: u32)
    requires
        crate::is_ordered_majority(votes, winner),
    ensures
        votes.contains(winner),
{
}

} // verus!
