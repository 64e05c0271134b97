//! The tagged value: one of a closed set of primitives, a handle on one of the
//! three container kinds, or null.
use crate::heap::Heap;
use crate::heap::HeapView;
use crate::list::List;
use crate::list::ListView;
use crate::map::Table;
use crate::string::String;
use crate::traits::debug::ToStr;
use crate::traits::memory::RefC;
use crate::traits::memory::RefCopy;
use vstd::prelude::*;
use vstd::std_specs::convert::FromSpec;
use vstd::std_specs::convert::FromSpecImpl;

verus! {

/// The closed set of variants a value can take.
///
/// `FLOAT64` carries the IEEE 754 binary64 bit pattern of the number; the
/// library stores and copies it and never interprets it.
#[derive(Debug, PartialEq, Eq, Structural)]
pub enum DataTypes {
    BOOL(bool),
    UINT8(u8),
    UINT16(u16),
    UINT32(u32),
    UINT64(u64),
    INT8(i8),
    INT16(i16),
    INT32(i32),
    INT64(i64),
    FLOAT64(u64),
    CHAR(char),
    STRING(String),
    LIST(List),
    MAP(Table),
    NULL,
}

impl DataTypes {
    /// The fixed name of each variant.
    pub open spec fn name(&self) -> Seq<char> {
        match self {
            DataTypes::BOOL(_) => "BOOL"@,
            DataTypes::UINT8(_) => "UINT8"@,
            DataTypes::UINT16(_) => "UINT16"@,
            DataTypes::UINT32(_) => "UINT32"@,
            DataTypes::UINT64(_) => "UINT64"@,
            DataTypes::INT8(_) => "INT8"@,
            DataTypes::INT16(_) => "INT16"@,
            DataTypes::INT32(_) => "INT32"@,
            DataTypes::INT64(_) => "INT64"@,
            DataTypes::FLOAT64(_) => "FLOAT64"@,
            DataTypes::CHAR(_) => "CHAR"@,
            DataTypes::STRING(_) => "STRING"@,
            DataTypes::LIST(_) => "LIST"@,
            DataTypes::MAP(_) => "MAP"@,
            DataTypes::NULL => "NULL"@,
        }
    }

    /// The name of the variant.
    pub fn typename(&self) -> (name: std::string::String)
        ensures
            name@ == self.name(),
    {
        match self {
            DataTypes::BOOL(_) => "BOOL".to_owned(),
            DataTypes::UINT8(_) => "UINT8".to_owned(),
            DataTypes::UINT16(_) => "UINT16".to_owned(),
            DataTypes::UINT32(_) => "UINT32".to_owned(),
            DataTypes::UINT64(_) => "UINT64".to_owned(),
            DataTypes::INT8(_) => "INT8".to_owned(),
            DataTypes::INT16(_) => "INT16".to_owned(),
            DataTypes::INT32(_) => "INT32".to_owned(),
            DataTypes::INT64(_) => "INT64".to_owned(),
            DataTypes::FLOAT64(_) => "FLOAT64".to_owned(),
            DataTypes::CHAR(_) => "CHAR".to_owned(),
            DataTypes::STRING(_) => "STRING".to_owned(),
            DataTypes::LIST(_) => "LIST".to_owned(),
            DataTypes::MAP(_) => "MAP".to_owned(),
            DataTypes::NULL => "NULL".to_owned(),
        }
    }
}

/// A tagged value.
#[derive(Debug, PartialEq, Eq, Structural)]
pub struct Data {
    pub data: DataTypes,
}

impl Data {
    /// The null value, for use in contracts.
    pub open spec fn nil() -> Data {
        Data { data: DataTypes::NULL }
    }

    /// The value that holds the character `c`.
    pub open spec fn ch(c: char) -> Data {
        Data { data: DataTypes::CHAR(c) }
    }

    /// The values that hold the characters of `text`, in their order.
    pub open spec fn chars(text: Seq<char>) -> Seq<Data> {
        Seq::new(text.len(), |i: int| Data::ch(text[i]))
    }

    /// The null value.
    pub fn null() -> (d: Self)
        ensures
            d == Data::nil(),
    {
        Data { data: DataTypes::NULL }
    }

    /// Wraps a primitive or a container handle in the variant that matches its
    /// type.
    pub fn from<T>(data: T) -> (d: Data) where Data: From<T>
        ensures
            <Data as FromSpec<T>>::obeys_from_spec() ==> d == <Data as FromSpec<T>>::from_spec(data),
    {
        <Data as From<T>>::from(data)
    }

    /// Allocates a text that holds the characters of `value` and wraps the
    /// handle on it.
    pub fn from_str(heap: &mut Heap, value: &str) -> (d: Data)
        requires
            old(heap).wf(),
        ensures
            final(heap).wf(),
            d.data matches DataTypes::STRING(text) && text.addr() == old(heap)@.lists.len()
                && text.valid(final(heap)@) && text.text(final(heap)@) == value@,
            final(heap)@ == old(heap)@.alloc_list(ListView::holding(Data::chars(value@))),
    {
        Data { data: DataTypes::STRING(String::from(heap, value)) }
    }

    /// Allocates a sequence that holds `values` in their order and wraps the
    /// handle on it.
    pub fn from_vec(heap: &mut Heap, values: Vec<Data>) -> (d: Data)
        requires
            old(heap).wf(),
        ensures
            final(heap).wf(),
            d.data matches DataTypes::LIST(list) && list.addr() == old(heap)@.lists.len(),
            final(heap)@ == old(heap)@.alloc_list(ListView::holding(values@)),
    {
        Data { data: DataTypes::LIST(List::from(heap, values)) }
    }

    /// The value that holds the 64-bit float with the bit pattern `bits`.
    pub fn float(bits: u64) -> (d: Data)
        ensures
            d == (Data { data: DataTypes::FLOAT64(bits) }),
    {
        Data { data: DataTypes::FLOAT64(bits) }
    }

    /// The name of the variant that is active.
    pub fn typename(&self) -> (name: std::string::String)
        ensures
            name@ == self.data.name(),
    {
        self.data.typename()
    }

    /// Whether this value is the null variant.
    pub fn is_null(&self) -> (b: bool)
        ensures
            b == (self.data is NULL),
    {
        match &self.data {
            DataTypes::NULL => true,
            _ => false,
        }
    }

    /// Whether everything that the value reaches exists and lies at most
    /// `depth` containers deep. A value that holds of this for some depth can
    /// be rendered and copied.
    pub fn within(&self, heap: &Heap, depth: usize) -> (yes: bool)
        requires
            heap.wf(),
        ensures
            yes == heap@.sound(*self, depth as nat),
            yes ==> heap@.finite(*self),
    {
        crate::render::walk(heap, self, depth)
    }

    /// Makes a deep copy: a primitive is copied by value, a container into
    /// fresh storage with every element copied in the same way. The copy
    /// counts one reference and shares nothing with the value it was made from.
    pub fn clone(&self, heap: &mut Heap) -> (copied: Data)
        requires
            old(heap).wf(),
            old(heap)@.finite(*self),
        ensures
            final(heap).wf(),
            (final(heap)@, copied) == old(heap)@.copy(*self, old(heap)@.depth(*self)),
            old(heap)@.kept_by(final(heap)@),
            final(heap)@.finite(copied),
            final(heap)@.text_of(copied) == old(heap)@.text_of(*self),
            final(heap)@.apart(
                copied,
                old(heap)@.lists.len() as int,
                old(heap)@.tables.len() as int,
                old(heap)@.depth(*self),
            ),
            final(heap)@.holds(copied) ==> final(heap)@.count(copied) == 1,
    {
        let ghost depth = heap@.depth(*self);
        proof {
            heap.lemma_valid();
        }
        let copied = crate::copying::copy_into(heap, self, Ghost(depth));
        proof {
            heap.lemma_sized();
            old(heap)@.lemma_copy_alike(*self, depth);
            old(heap)@.lemma_text_of(*self, depth);
            heap@.lemma_text_of(copied, depth);
        }
        copied
    }

    /// A second value with the same payload. For a container this is a second
    /// handle on the same storage whose counter is left as it is: it is how the
    /// library moves a value from one slot to another.
    pub(crate) fn dup(&self) -> (d: Data)
        ensures
            d == *self,
    {
        match &self.data {
            DataTypes::BOOL(v) => Data { data: DataTypes::BOOL(*v) },
            DataTypes::UINT8(v) => Data { data: DataTypes::UINT8(*v) },
            DataTypes::UINT16(v) => Data { data: DataTypes::UINT16(*v) },
            DataTypes::UINT32(v) => Data { data: DataTypes::UINT32(*v) },
            DataTypes::UINT64(v) => Data { data: DataTypes::UINT64(*v) },
            DataTypes::INT8(v) => Data { data: DataTypes::INT8(*v) },
            DataTypes::INT16(v) => Data { data: DataTypes::INT16(*v) },
            DataTypes::INT32(v) => Data { data: DataTypes::INT32(*v) },
            DataTypes::INT64(v) => Data { data: DataTypes::INT64(*v) },
            DataTypes::FLOAT64(v) => Data { data: DataTypes::FLOAT64(*v) },
            DataTypes::CHAR(v) => Data { data: DataTypes::CHAR(*v) },
            DataTypes::STRING(v) => Data { data: DataTypes::STRING(v.dup()) },
            DataTypes::LIST(v) => Data { data: DataTypes::LIST(v.dup()) },
            DataTypes::MAP(v) => Data { data: DataTypes::MAP(v.dup()) },
            DataTypes::NULL => Data { data: DataTypes::NULL },
        }
    }
}

impl From<bool> for Data {
    fn from(value: bool) -> (d: Data) {
        Data { data: DataTypes::BOOL(value) }
    }
}

impl FromSpecImpl<bool> for Data {
    open spec fn obeys_from_spec() -> bool {
        true
    }

    open spec fn from_spec(value: bool) -> Data {
        Data { data: DataTypes::BOOL(value) }
    }
}

impl From<u8> for Data {
    fn from(value: u8) -> (d: Data) {
        Data { data: DataTypes::UINT8(value) }
    }
}

impl FromSpecImpl<u8> for Data {
    open spec fn obeys_from_spec() -> bool {
        true
    }

    open spec fn from_spec(value: u8) -> Data {
        Data { data: DataTypes::UINT8(value) }
    }
}

impl From<u16> for Data {
    fn from(value: u16) -> (d: Data) {
        Data { data: DataTypes::UINT16(value) }
    }
}

impl FromSpecImpl<u16> for Data {
    open spec fn obeys_from_spec() -> bool {
        true
    }

    open spec fn from_spec(value: u16) -> Data {
        Data { data: DataTypes::UINT16(value) }
    }
}

impl From<u32> for Data {
    fn from(value: u32) -> (d: Data) {
        Data { data: DataTypes::UINT32(value) }
    }
}

impl FromSpecImpl<u32> for Data {
    open spec fn obeys_from_spec() -> bool {
        true
    }

    open spec fn from_spec(value: u32) -> Data {
        Data { data: DataTypes::UINT32(value) }
    }
}

impl From<u64> for Data {
    fn from(value: u64) -> (d: Data) {
        Data { data: DataTypes::UINT64(value) }
    }
}

impl FromSpecImpl<u64> for Data {
    open spec fn obeys_from_spec() -> bool {
        true
    }

    open spec fn from_spec(value: u64) -> Data {
        Data { data: DataTypes::UINT64(value) }
    }
}

impl From<i8> for Data {
    fn from(value: i8) -> (d: Data) {
        Data { data: DataTypes::INT8(value) }
    }
}

impl FromSpecImpl<i8> for Data {
    open spec fn obeys_from_spec() -> bool {
        true
    }

    open spec fn from_spec(value: i8) -> Data {
        Data { data: DataTypes::INT8(value) }
    }
}

impl From<i16> for Data {
    fn from(value: i16) -> (d: Data) {
        Data { data: DataTypes::INT16(value) }
    }
}

impl FromSpecImpl<i16> for Data {
    open spec fn obeys_from_spec() -> bool {
        true
    }

    open spec fn from_spec(value: i16) -> Data {
        Data { data: DataTypes::INT16(value) }
    }
}

impl From<i32> for Data {
    fn from(value: i32) -> (d: Data) {
        Data { data: DataTypes::INT32(value) }
    }
}

impl FromSpecImpl<i32> for Data {
    open spec fn obeys_from_spec() -> bool {
        true
    }

    open spec fn from_spec(value: i32) -> Data {
        Data { data: DataTypes::INT32(value) }
    }
}

impl From<i64> for Data {
    fn from(value: i64) -> (d: Data) {
        Data { data: DataTypes::INT64(value) }
    }
}

impl FromSpecImpl<i64> for Data {
    open spec fn obeys_from_spec() -> bool {
        true
    }

    open spec fn from_spec(value: i64) -> Data {
        Data { data: DataTypes::INT64(value) }
    }
}

impl From<char> for Data {
    fn from(value: char) -> (d: Data) {
        Data { data: DataTypes::CHAR(value) }
    }
}

impl FromSpecImpl<char> for Data {
    open spec fn obeys_from_spec() -> bool {
        true
    }

    open spec fn from_spec(value: char) -> Data {
        Data { data: DataTypes::CHAR(value) }
    }
}

impl From<String> for Data {
    fn from(value: String) -> (d: Data) {
        Data { data: DataTypes::STRING(value) }
    }
}

impl FromSpecImpl<String> for Data {
    open spec fn obeys_from_spec() -> bool {
        true
    }

    open spec fn from_spec(value: String) -> Data {
        Data { data: DataTypes::STRING(value) }
    }
}

impl From<List> for Data {
    fn from(value: List) -> (d: Data) {
        Data { data: DataTypes::LIST(value) }
    }
}

impl FromSpecImpl<List> for Data {
    open spec fn obeys_from_spec() -> bool {
        true
    }

    open spec fn from_spec(value: List) -> Data {
        Data { data: DataTypes::LIST(value) }
    }
}

impl From<Table> for Data {
    fn from(value: Table) -> (d: Data) {
        Data { data: DataTypes::MAP(value) }
    }
}

impl FromSpecImpl<Table> for Data {
    open spec fn obeys_from_spec() -> bool {
        true
    }

    open spec fn from_spec(value: Table) -> Data {
        Data { data: DataTypes::MAP(value) }
    }
}

impl RefC for Data {
    open spec fn as_data(&self) -> Data {
        *self
    }

    fn incrc(&mut self, heap: &mut Heap) {
        match &mut self.data {
            DataTypes::STRING(value) => value.incrc(heap),
            DataTypes::LIST(value) => value.incrc(heap),
            DataTypes::MAP(value) => value.incrc(heap),
            _ => (),
        }
    }

    fn decrc(&mut self, heap: &mut Heap) {
        match &mut self.data {
            DataTypes::STRING(value) => value.decrc(heap),
            DataTypes::LIST(value) => value.decrc(heap),
            DataTypes::MAP(value) => value.decrc(heap),
            _ => (),
        }
    }

    fn getrc(&self, heap: &Heap) -> (n: i64) {
        match &self.data {
            DataTypes::STRING(value) => value.getrc(heap),
            DataTypes::LIST(value) => value.getrc(heap),
            DataTypes::MAP(value) => value.getrc(heap),
            _ => 0,
        }
    }
}

impl RefCopy for Data {
    fn refcopy(&mut self, heap: &mut Heap) -> (alias: Self) {
        match &mut self.data {
            DataTypes::STRING(value) => Data { data: DataTypes::STRING(value.refcopy(heap)) },
            DataTypes::LIST(value) => Data { data: DataTypes::LIST(value.refcopy(heap)) },
            DataTypes::MAP(value) => Data { data: DataTypes::MAP(value.refcopy(heap)) },
            _ => self.dup(),
        }
    }

    fn refdrop(self, heap: &mut Heap) {
        heap.release(self);
    }
}

impl ToStr for Data {
    open spec fn renderable(&self, heap: HeapView) -> bool {
        heap.finite(*self)
    }

    open spec fn rendering(&self, heap: HeapView) -> Seq<char> {
        heap.text_of(*self)
    }

    /// A primitive in its natural form, a container as its own `tostr`
    /// renders it, null as `NULL`.
    fn tostr(&self, heap: &Heap) -> (text: std::string::String) {
        let ghost depth = heap@.depth(*self);
        let mut text = std::string::String::new();
        crate::render::render_into(heap, self, &mut text, Ghost(depth));
        proof {
            assert(text@ =~= heap@.render(*self, depth));
        }
        text
    }
}

} // verus!
