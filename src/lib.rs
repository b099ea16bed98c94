//! Accessors: spanned paths such as `${event.payload[0].name}` that address
//! fields of a nested document, the scanner and parser that read them, string
//! interpolation built on them, and validation against a schema of paths.
use vstd::prelude::*;

pub mod error;
pub mod laws;
pub mod parser;
pub mod string_interpolator;
pub mod validation;

verus! {

/// A half-open range `[start, end)` of character (not byte) offsets into the
/// parsed text.
#[derive(Clone, Copy, Debug, PartialEq, Eq, Structural)]
pub struct AccessorParserSpan {
    pub start: usize,
    pub end: usize,
}

/// The span `[start, end)`, for positions that fit in `usize`.
pub open spec fn mk_span(start: int, end: int) -> AccessorParserSpan {
    AccessorParserSpan { start: start as usize, end: end as usize }
}

impl AccessorParserSpan {
    pub fn start(&self) -> (r: usize)
        ensures
            r == self.start,
    {
        self.start
    }

    pub fn end(&self) -> (r: usize)
        ensures
            r == self.end,
    {
        self.end
    }
}

/// What a key of an accessor holds, as a mathematical value.
pub ghost enum KeyValue {
    Text(Seq<char>),
    Index(usize),
}

/// One key of an accessor: a field name or an index.
#[derive(Clone, Debug)]
pub enum AccessorKey {
    String(String),
    Numeric(usize),
}

impl AccessorKey {
    pub open spec fn view(&self) -> KeyValue {
        match self {
            AccessorKey::String(s) => KeyValue::Text(s@),
            AccessorKey::Numeric(n) => KeyValue::Index(*n),
        }
    }
}

/// A key together with the span of the text it was read from, delimiters
/// (`.`, `[`, `]`, quotes) included.
#[derive(Clone, Debug)]
pub struct SpannedAccessorKey {
    pub key: AccessorKey,
    pub span: AccessorParserSpan,
}

impl SpannedAccessorKey {
    pub open spec fn view(&self) -> (KeyValue, AccessorParserSpan) {
        (self.key@, self.span)
    }

    pub fn key(&self) -> (r: &AccessorKey)
        ensures
            r == &self.key,
    {
        &self.key
    }

    pub fn span(&self) -> (r: AccessorParserSpan)
        ensures
            r == self.span,
    {
        self.span
    }
}

/// The model of a parsed accessor: its keys with their spans, and the span of
/// the whole `${...}` construct.
pub ghost struct AccessorModel {
    pub keys: Seq<(KeyValue, AccessorParserSpan)>,
    pub span: AccessorParserSpan,
}

/// A parsed accessor. `keys` holds at least the root key.
#[derive(Clone, Debug)]
pub struct SpannedAccessor {
    pub keys: Vec<SpannedAccessorKey>,
    pub span: AccessorParserSpan,
}

impl SpannedAccessor {
    pub open spec fn view(&self) -> AccessorModel {
        AccessorModel { keys: self.keys@.map_values(|k: SpannedAccessorKey| k@), span: self.span }
    }

    pub fn keys(&self) -> (r: &[SpannedAccessorKey])
        ensures
            r@ == self.keys@,
    {
        self.keys.as_slice()
    }

    pub fn span(&self) -> (r: AccessorParserSpan)
        ensures
            r == self.span,
    {
        self.span
    }
}

/// An accessor without spans.
#[derive(Clone, Debug)]
pub struct Accessor {
    pub keys: Vec<AccessorKey>,
}

impl Accessor {
    pub open spec fn view(&self) -> Seq<KeyValue> {
        self.keys@.map_values(|k: AccessorKey| k@)
    }

    pub fn keys(&self) -> (r: &[AccessorKey])
        ensures
            r@ == self.keys@,
    {
        self.keys.as_slice()
    }
}

impl From<String> for AccessorKey {
    fn from(value: String) -> (r: Self) {
        AccessorKey::String(value)
    }
}

impl vstd::std_specs::convert::FromSpecImpl<String> for AccessorKey {
    open spec fn obeys_from_spec() -> bool {
        true
    }

    open spec fn from_spec(v: String) -> Self {
        AccessorKey::String(v)
    }
}

impl From<usize> for AccessorKey {
    fn from(value: usize) -> (r: Self) {
        AccessorKey::Numeric(value)
    }
}

impl vstd::std_specs::convert::FromSpecImpl<usize> for AccessorKey {
    open spec fn obeys_from_spec() -> bool {
        true
    }

    open spec fn from_spec(v: usize) -> Self {
        AccessorKey::Numeric(v)
    }
}

/// The values of spanned keys, without their spans.
pub open spec fn key_values(keys: Seq<(KeyValue, AccessorParserSpan)>) -> Seq<KeyValue> {
    keys.map_values(|k: (KeyValue, AccessorParserSpan)| k.0)
}

impl SpannedAccessor {
    /// The same keys without their spans.
    pub fn into_accessor(self) -> (r: Accessor)
        ensures
            r@ == key_values(self@.keys),
    {
        let mut keys: Vec<AccessorKey> = Vec::new();
        let ghost src = self@.keys;
        let mut i: usize = 0;
        while i < self.keys.len()
            invariant
                i <= self.keys@.len(),
                src == self@.keys,
                keys@.len() == i,
                forall|k: int| 0 <= k < i ==> #[trigger] keys@[k]@ == src[k].0,
            decreases self.keys@.len() - i,
        {
            keys.push(self.keys[i].key.clone_key());
            i = i + 1;
        }
        let r = Accessor { keys };
        assert(r@ =~= key_values(src));
        r
    }
}

impl From<SpannedAccessor> for Accessor {
    fn from(value: SpannedAccessor) -> (r: Self)
        ensures
            r@ == key_values(value@.keys),
    {
        value.into_accessor()
    }
}

/// The result of `from` holds a `Vec` of `String`s, which no spec function
/// can build: `from` states its result in its own `ensures` instead.
impl vstd::std_specs::convert::FromSpecImpl<SpannedAccessor> for Accessor {
    open spec fn obeys_from_spec() -> bool {
        false
    }

    open spec fn from_spec(v: SpannedAccessor) -> Self {
        vstd::pervasive::arbitrary()
    }
}

impl AccessorKey {
    /// A copy of this key.
    pub fn clone_key(&self) -> (r: AccessorKey)
        ensures
            r@ == self@,
    {
        match self {
            AccessorKey::String(s) => AccessorKey::String(s.clone()),
            AccessorKey::Numeric(n) => AccessorKey::Numeric(*n),
        }
    }
}

} // verus!
