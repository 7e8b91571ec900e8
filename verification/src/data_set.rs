//! Raw tabular data: named attributes, each a column of numeric or nominal
//! values.
//!
//! Numeric values are fixed-point integers. A relation that is read from
//! text holds them as millionths; whoever fills a numeric column by hand
//! decides on the scale, one scale for all values of an attribute.
use crate::tally::Key;
use vstd::hash_map::StringHashMap;
use vstd::prelude::*;

verus! {

/// `UTCTimestamp` of the crate `utc_dt`: a point in time, carried as it is.
#[verifier::external_type_specification]
#[verifier::external_body]
pub struct ExUTCTimestamp(utc_dt::time::UTCTimestamp);

/// A date.
#[derive(Debug, PartialEq, Eq, Hash)]
pub struct Date(pub utc_dt::time::UTCTimestamp);

/// The texts of `strings`, in order.
pub open spec fn texts(strings: Seq<String>) -> Seq<Seq<char>> {
    Seq::new(strings.len(), |i: int| strings[i]@)
}

/// The id of each field: its place in `fields`, reduced modulo 256. Of a
/// field named twice the later place counts.
pub open spec fn field_ids(fields: Seq<Seq<char>>) -> Map<Seq<char>, u8>
    decreases fields.len(),
{
    if fields.len() == 0 {
        Map::empty()
    } else {
        field_ids(fields.drop_last()).insert(fields.last(), ((fields.len() - 1) % 256) as u8)
    }
}

/// Exactly the fields have an id, and every id is the place of a field.
pub proof fn lemma_field_ids(fields: Seq<Seq<char>>)
    ensures
        forall|name: Seq<char>| #[trigger]
            field_ids(fields).contains_key(name) <==> fields.contains(name),
        forall|name: Seq<char>| #[trigger]
            field_ids(fields).contains_key(name) ==> field_ids(fields)[name] < fields.len(),
        field_ids(fields).dom().finite(),
    decreases fields.len(),
{
    if fields.len() > 0 {
        let front = fields.drop_last();
        lemma_field_ids(front);
        assert forall|name: Seq<char>| #[trigger]
            field_ids(fields).contains_key(name) <==> fields.contains(name) by {
            if fields.contains(name) {
                let i = choose|i: int| 0 <= i < fields.len() && fields[i] == name;
                if i < fields.len() - 1 {
                    assert(front[i] == name);
                    assert(front.contains(name));
                }
            }
            if front.contains(name) {
                let i = choose|i: int| 0 <= i < front.len() && front[i] == name;
                assert(fields[i] == name);
            }
            if name == fields.last() {
                assert(fields[fields.len() - 1] == name);
            }
        }
    }
}

/// A nominal column: the fields that the attribute can take, and for each
/// instance the id of its field.
pub struct Nominal {
    fields: Vec<String>,
    data: Vec<u8>,
    map: StringHashMap<u8>,
}

impl Nominal {
    /// The names of the fields, in the order of their declaration.
    pub closed spec fn fields(&self) -> Seq<Seq<char>> {
        texts(self.fields@)
    }

    /// The id of each instance's field.
    pub closed spec fn data(&self) -> Seq<u8> {
        self.data@
    }

    /// The id of each field.
    pub closed spec fn ids(&self) -> Map<Seq<char>, u8> {
        self.map@
    }

    /// The ids are those of the fields, and every instance has the id of a
    /// field.
    pub closed spec fn wf(&self) -> bool {
        &&& self.map@ == field_ids(texts(self.fields@))
        &&& forall|i: int| 0 <= i < self.data@.len() ==> #[trigger] self.data@[i] < self.fields@.len()
    }

    /// The name of each instance's field.
    pub open spec fn values(&self) -> Seq<Seq<char>> {
        Seq::new(self.data().len(), |i: int| self.fields()[self.data()[i] as int])
    }

    /// What `wf` says, in terms of the public functions.
    pub proof fn lemma_wf(&self)
        requires
            self.wf(),
        ensures
            self.ids() == field_ids(self.fields()),
            forall|i: int| 0 <= i < self.data().len() ==> #[trigger] self.data()[i] < self.fields().len(),
    {
    }

    /// A column without instances whose attribute can take `fields`.
    pub fn new(fields: Vec<String>) -> (nominal: Self)
        ensures
            nominal.wf(),
            nominal.fields() == texts(fields@),
            nominal.data() == Seq::<u8>::empty(),
            nominal.ids() == field_ids(texts(fields@)),
    {
        let mut map: StringHashMap<u8> = StringHashMap::new();
        let mut i: usize = 0;
        let ghost names = texts(fields@);
        proof {
            assert(names.take(0) =~= Seq::<Seq<char>>::empty());
        }
        while i < fields.len()
            invariant
                0 <= i <= fields@.len(),
                names == texts(fields@),
                map@ == field_ids(names.take(i as int)),
            decreases fields@.len() - i,
        {
            let name = fields[i].clone();
            proof {
                assert(names.take(i + 1).drop_last() =~= names.take(i as int));
                assert(names.take(i + 1).last() == name@);
            }
            map.insert(name, (i % 256) as u8);
            i += 1;
        }
        proof {
            assert(names.take(fields@.len() as int) =~= names);
        }
        Nominal { fields, data: Vec::new(), map }
    }

    /// Adds an instance whose value is the field named `value`.
    pub fn push(&mut self, value: &str)
        requires
            old(self).wf(),
            old(self).ids().contains_key(value@),
        ensures
            final(self).wf(),
            final(self).fields() == old(self).fields(),
            final(self).ids() == old(self).ids(),
            final(self).data() == old(self).data().push(old(self).ids()[value@]),
    {
        proof {
            lemma_field_ids(texts(self.fields@));
        }
        let id = self.map.get(value);
        match id {
            Some(id) => {
                self.data.push(*id);
            },
            None => {
                assert(false);
            },
        }
    }

    /// The number of fields that have an id: the number of different names.
    pub fn size(&self) -> (size: usize)
        ensures
            size == self.ids().len(),
    {
        self.map.len()
    }

    /// The name of the field of the instance `index`.
    pub fn get(&self, index: usize) -> (name: &str)
        requires
            self.wf(),
            index < self.data().len(),
        ensures
            name@ == self.values()[index as int],
    {
        self.fields[self.data[index] as usize].as_str()
    }

    /// The names of the fields.
    pub fn get_fields(&self) -> (fields: &[String])
        ensures
            texts(fields@) == self.fields(),
    {
        self.fields.as_slice()
    }

    /// The id of each instance's field.
    pub fn get_data(&self) -> (data: &[u8])
        ensures
            data@ == self.data(),
    {
        self.data.as_slice()
    }

    /// The id of each field.
    pub fn get_map(&self) -> (map: &StringHashMap<u8>)
        ensures
            map@ == self.ids(),
    {
        &self.map
    }
}

/// The values of one attribute, instance by instance.
pub enum Data {
    Numeric(Vec<i64>),
    Real(Vec<i64>),
    Nominal(Box<Nominal>),
    String(Vec<String>),
    Date(Vec<Date>),
    NotImplemented(String),
}

/// What a column holds.
pub enum Content {
    /// Numbers of a numeric attribute.
    Numeric(Seq<i64>),
    /// Numbers of a real attribute.
    Real(Seq<i64>),
    /// The fields of a nominal attribute, and the id of each instance's field.
    Nominal { fields: Seq<Seq<char>>, data: Seq<u8> },
    /// The texts of a string attribute.
    Text(Seq<Seq<char>>),
    /// A date attribute with so many dates.
    Date(nat),
    /// An attribute of the named type, which is not implemented.
    NotImplemented(Seq<char>),
}

/// An attribute as mathematics: its label and what its column holds.
pub struct Declared {
    pub label: Seq<char>,
    pub content: Content,
}

/// What a column holds, as far as encoding it goes.
pub enum Column {
    /// Numbers.
    Numeric(Seq<i64>),
    /// Names.
    Nominal(Seq<Seq<char>>),
    /// Values of a kind that cannot be encoded.
    Other,
}

impl Column {
    /// The number of instances.
    pub open spec fn len(self) -> nat {
        match self {
            Column::Numeric(values) => values.len(),
            Column::Nominal(values) => values.len(),
            Column::Other => 0,
        }
    }
}

impl View for Data {
    type V = Column;

    /// The numbers of a numeric or real column, the names of a nominal one.
    open spec fn view(&self) -> Column {
        match self {
            Data::Numeric(values) => Column::Numeric(values@),
            Data::Real(values) => Column::Numeric(values@),
            Data::Nominal(nominal) => Column::Nominal(nominal.values()),
            _ => Column::Other,
        }
    }
}

impl Data {
    /// What the column holds.
    pub open spec fn content(&self) -> Content {
        match self {
            Data::Numeric(values) => Content::Numeric(values@),
            Data::Real(values) => Content::Real(values@),
            Data::Nominal(nominal) => Content::Nominal {
                fields: nominal.fields(),
                data: nominal.data(),
            },
            Data::String(values) => Content::Text(texts(values@)),
            Data::Date(values) => Content::Date(values@.len()),
            Data::NotImplemented(name) => Content::NotImplemented(name@),
        }
    }

    /// A nominal column is well formed; the other kinds always are.
    pub open spec fn wf(&self) -> bool {
        match self {
            Data::Nominal(nominal) => nominal.wf(),
            _ => true,
        }
    }
}

/// One value of a column.
#[derive(Clone, Copy, Debug, PartialEq, Eq, Hash, Structural)]
pub enum DataEntry {
    Numeric(i64),
    Nominal(u8),
}

impl Key for DataEntry {
    fn same(&self, other: &DataEntry) -> (equal: bool) {
        *self == *other
    }
}

impl DataEntry {
    /// The number, of a numeric entry.
    pub fn assume_numeric(&self) -> (value: i64)
        requires
            self is Numeric,
        ensures
            *self == DataEntry::Numeric(value),
    {
        match self {
            DataEntry::Numeric(value) => *value,
            DataEntry::Nominal(_) => vstd::pervasive::unreached(),
        }
    }

    /// The field's id, of a nominal entry.
    pub fn assume_nominal(&self) -> (value: u8)
        requires
            self is Nominal,
        ensures
            *self == DataEntry::Nominal(value),
    {
        match self {
            DataEntry::Nominal(value) => *value,
            DataEntry::Numeric(_) => vstd::pervasive::unreached(),
        }
    }
}

/// A named column.
pub struct Attribute {
    pub label: String,
    pub data: Data,
}

impl Attribute {
    /// The attribute as mathematics.
    pub open spec fn declared(&self) -> Declared {
        Declared { label: self.label@, content: self.data.content() }
    }

    /// The nominal column of the attribute.
    pub fn assume_nominal(&self) -> (nominal: &Nominal)
        requires
            self.data is Nominal,
        ensures
            self.data == Data::Nominal(Box::new(*nominal)),
    {
        match &self.data {
            Data::Nominal(nominal) => nominal,
            _ => vstd::pervasive::unreached(),
        }
    }

    /// The column of the attribute.
    pub fn get_data(&self) -> (data: &Data)
        ensures
            *data == self.data,
    {
        &self.data
    }

    /// The value of the instance `index`.
    pub fn get_value(&self, index: usize) -> (entry: DataEntry)
        requires
            self.data.wf(),
            !(self.data@ is Other),
            index < self.data@.len(),
        ensures
            match self.data {
                Data::Numeric(values) => entry == DataEntry::Numeric(values@[index as int]),
                Data::Real(values) => entry == DataEntry::Numeric(values@[index as int]),
                Data::Nominal(nominal) => entry == DataEntry::Nominal(nominal.data()[index as int]),
                _ => false,
            },
    {
        match &self.data {
            Data::Numeric(values) => DataEntry::Numeric(values[index]),
            Data::Real(values) => DataEntry::Numeric(values[index]),
            Data::Nominal(nominal) => DataEntry::Nominal(nominal.get_data()[index]),
            _ => vstd::pervasive::unreached(),
        }
    }
}

/// A relation: a name and the attributes, each with its column.
pub struct DataSet {
    relation: String,
    attributes: Vec<Attribute>,
}

impl View for DataSet {
    type V = Seq<Column>;

    /// The columns, in the order of the attributes.
    closed spec fn view(&self) -> Seq<Column> {
        Seq::new(self.attributes@.len(), |a: int| self.attributes@[a].data@)
    }
}

impl DataSet {
    /// The attributes.
    pub closed spec fn attributes(&self) -> Seq<Attribute> {
        self.attributes@
    }

    /// The name of the relation.
    pub closed spec fn relation(&self) -> Seq<char> {
        self.relation@
    }

    /// The attributes as mathematics.
    pub open spec fn declared(&self) -> Seq<Declared> {
        Seq::new(self.attributes().len(), |a: int| self.attributes()[a].declared())
    }

    /// Every column is well formed.
    pub open spec fn wf(&self) -> bool {
        forall|a: int| 0 <= a < self.attributes().len() ==> (#[trigger] self.attributes()[a]).data.wf()
    }

    /// Every column has a value for every instance.
    pub open spec fn rectangular(&self) -> bool {
        forall|a: int| 0 <= a < self@.len() ==> (#[trigger] self@[a]).len() == self@[0].len()
    }

    /// The view shows the attributes' columns.
    pub proof fn lemma_view(&self)
        ensures
            self@.len() == self.attributes().len(),
            forall|a: int| 0 <= a < self@.len() ==> #[trigger] self@[a] == self.attributes()[a].data@,
    {
    }

    /// The relation `relation` with the given attributes.
    pub fn new(relation: String, attributes: Vec<Attribute>) -> (data_set: Self)
        ensures
            data_set.relation() == relation@,
            data_set.attributes() == attributes@,
    {
        DataSet { relation, attributes }
    }

    /// The name of the relation.
    pub fn get_relation(&self) -> (relation: &str)
        ensures
            relation@ == self.relation(),
    {
        self.relation.as_str()
    }

    /// The value of the attribute `attribute_index` at the instance
    /// `data_index`.
    pub fn get_value(&self, attribute_index: usize, data_index: usize) -> (entry: DataEntry)
        requires
            self.wf(),
            attribute_index < self@.len(),
            !(self@[attribute_index as int] is Other),
            data_index < self@[attribute_index as int].len(),
        ensures
            match self.attributes()[attribute_index as int].data {
                Data::Numeric(values) => entry == DataEntry::Numeric(values@[data_index as int]),
                Data::Real(values) => entry == DataEntry::Numeric(values@[data_index as int]),
                Data::Nominal(nominal) => entry == DataEntry::Nominal(
                    nominal.data()[data_index as int],
                ),
                _ => false,
            },
    {
        self.attributes[attribute_index].get_value(data_index)
    }

    /// The number of attributes.
    pub fn get_len(&self) -> (len: usize)
        ensures
            len == self@.len(),
    {
        self.attributes.len()
    }

    /// The number of instances: the length of the first column, or zero
    /// without attributes.
    pub fn get_data_len(&self) -> (len: usize)
        requires
            self@.len() > 0 ==> !(self@[0] is Other),
        ensures
            len == if self@.len() == 0 {
                0
            } else {
                self@[0].len()
            },
    {
        if self.attributes.len() == 0 {
            0
        } else {
            match &self.attributes[0].data {
                Data::Nominal(nominal) => nominal.get_data().len(),
                Data::Real(values) => values.len(),
                Data::Numeric(values) => values.len(),
                _ => vstd::pervasive::unreached(),
            }
        }
    }

    /// The attributes.
    pub fn get_attributes(&self) -> (attributes: &[Attribute])
        ensures
            attributes@ == self.attributes(),
    {
        self.attributes.as_slice()
    }
}

} // verus!
