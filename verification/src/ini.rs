//! The typed configuration store: a section-keyed table of typed scalar
//! values, parsed from and serialized back to a line-oriented text format.
use vstd::prelude::*;

use crate::lit::{i64_literal_val, is_f64_literal, is_i64_literal};
use crate::text::{eq_lowered, lower_seq, str_eq};

verus! {

/// The error kinds of the configuration store and its facade.
#[derive(Debug, Clone, Copy, PartialEq, Eq, Structural)]
pub enum IniError {
    /// A file could not be read or written by the host process.
    Io,
    /// A numeric or boolean literal was malformed.
    Parse,
    /// A key/value line stood before any section header.
    NoCurrentSection,
    /// A lookup named a section that is not in the store.
    MissingSection,
    /// A lookup named a key that is not in its section.
    MissingKey,
    /// A section was added through the non-overwriting path while one of the
    /// same name already exists.
    DuplicateSection,
    /// A stored value's variant does not match the expected kind.
    TypeMismatch,
    /// An externally supplied field name is unknown, or its value fails
    /// coercion to the field's expected kind.
    BadRequest,
    /// Malformed input to the text codec's decode path.
    Codec,
}

pub type IniResult<T> = Result<T, IniError>;

/// A typed scalar value of the store: the only four kinds it holds.
///
/// A float is kept as its literal text rather than as a machine float, so a
/// value serializes back exactly as it was read; the store's well-formedness
/// asks of such a literal that it is float syntax and not integer syntax.
#[derive(Debug, Clone, PartialEq)]
pub enum IniTypes {
    Text(String),
    Integer(i64),
    Float(String),
    Boolean(bool),
}

/// The mathematical value of an `IniTypes`.
pub enum ValueModel {
    Text(Seq<char>),
    Integer(int),
    Float(Seq<char>),
    Boolean(bool),
}

impl View for IniTypes {
    type V = ValueModel;

    open spec fn view(&self) -> ValueModel {
        match self {
            IniTypes::Text(s) => ValueModel::Text(s@),
            IniTypes::Integer(i) => ValueModel::Integer(*i as int),
            IniTypes::Float(s) => ValueModel::Float(s@),
            IniTypes::Boolean(b) => ValueModel::Boolean(*b),
        }
    }
}

/// Whether two values are of the same variant.
pub open spec fn spec_types_match(a: ValueModel, b: ValueModel) -> bool {
    match a {
        ValueModel::Text(_) => b is Text,
        ValueModel::Integer(_) => b is Integer,
        ValueModel::Float(_) => b is Float,
        ValueModel::Boolean(_) => b is Boolean,
    }
}

/// The boolean a `Text` value denotes when read under the boolean-as-string
/// convention: its text, lowercased in ASCII, must be exactly `true` or
/// `false`.
pub open spec fn spec_bool_of_text(v: ValueModel) -> Option<bool> {
    match v {
        ValueModel::Text(t) => if lower_seq(t) == "true"@ {
            Some(true)
        } else if lower_seq(t) == "false"@ {
            Some(false)
        } else {
            None
        },
        _ => None,
    }
}

impl IniTypes {
    /// The text of a `Text` value; `None` for every other variant.
    pub fn to_string(self) -> (r: Option<String>)
        ensures
            self@ matches ValueModel::Text(t) ==> r matches Some(s) && s@ == t,
            !(self@ is Text) ==> r is None,
    {
        match self {
            IniTypes::Text(value) => Some(value),
            _ => None,
        }
    }

    /// The integer of an `Integer` value; `None` for every other variant.
    pub fn to_integer(self) -> (r: Option<i64>)
        ensures
            self@ matches ValueModel::Integer(i) ==> r matches Some(v) && v as int == i,
            !(self@ is Integer) ==> r is None,
    {
        match self {
            IniTypes::Integer(value) => Some(value),
            _ => None,
        }
    }

    /// The literal text of a `Float` value; `None` for every other variant.
    pub fn to_float(self) -> (r: Option<String>)
        ensures
            self@ matches ValueModel::Float(t) ==> r matches Some(s) && s@ == t,
            !(self@ is Float) ==> r is None,
    {
        match self {
            IniTypes::Float(value) => Some(value),
            _ => None,
        }
    }

    /// The boolean of a `Boolean` value; `None` for every other variant.
    pub fn to_boolean(self) -> (r: Option<bool>)
        ensures
            self@ matches ValueModel::Boolean(b) ==> r == Some(b),
            !(self@ is Boolean) ==> r is None,
    {
        match self {
            IniTypes::Boolean(value) => Some(value),
            _ => None,
        }
    }

    /// The boolean a `Text` value spells as a case-insensitive `true`/`false`
    /// literal; `None` for any other text and for every other variant.
    pub fn to_boolean_from_string(self) -> (r: Option<bool>)
        ensures
            r == spec_bool_of_text(self@),
    {
        match self {
            IniTypes::Text(value) => {
                if eq_lowered(value.as_str(), "true") {
                    Some(true)
                } else if eq_lowered(value.as_str(), "false") {
                    Some(false)
                } else {
                    None
                }
            },
            _ => None,
        }
    }

    /// A copy of the value.
    pub fn dup(&self) -> (r: IniTypes)
        ensures
            r@ == self@,
    {
        match self {
            IniTypes::Text(s) => IniTypes::Text(s.clone()),
            IniTypes::Integer(i) => IniTypes::Integer(*i),
            IniTypes::Float(s) => IniTypes::Float(s.clone()),
            IniTypes::Boolean(b) => IniTypes::Boolean(*b),
        }
    }

    /// Whether the two values are of the same variant.
    pub fn types_match(&self, other: &Self) -> (r: bool)
        ensures
            r == spec_types_match(self@, other@),
    {
        match self {
            IniTypes::Text(_) => matches!(other, IniTypes::Text(_)),
            IniTypes::Integer(_) => matches!(other, IniTypes::Integer(_)),
            IniTypes::Float(_) => matches!(other, IniTypes::Float(_)),
            IniTypes::Boolean(_) => matches!(other, IniTypes::Boolean(_)),
        }
    }
}

/// A character that may stand inside a stored line: no line break.
pub open spec fn plain_char(c: char) -> bool {
    c != '\n' && c != '\r'
}

/// A character that survives the parser's whitespace removal and its
/// one-assignment rule: no line break, no blank, no `=`.
pub open spec fn clean_char(c: char) -> bool {
    plain_char(c) && c != ' ' && c != '\t' && c != '='
}

pub open spec fn clean_text(s: Seq<char>) -> bool {
    forall|i: int| 0 <= i < s.len() ==> clean_char(s[i])
}

/// Whether a value text would be read back as a quoted string.
pub open spec fn quote_shaped(s: Seq<char>) -> bool {
    s.len() >= 2 && s[0] == '"' && s.last() == '"'
}

/// What the store asks of a float literal it holds: float syntax that is not
/// integer syntax, with no character the parser would strip or split on, and
/// not of the shape of a quoted string.
pub open spec fn float_text_wf(t: Seq<char>) -> bool {
    &&& is_f64_literal(t)
    &&& !is_i64_literal(t)
    &&& clean_text(t)
    &&& !quote_shaped(t)
}

pub open spec fn value_wf(v: ValueModel) -> bool {
    v matches ValueModel::Float(t) ==> float_text_wf(t)
}

/// The entries of one section: key/value pairs in serialization order.
pub type EntriesModel = Seq<(Seq<char>, ValueModel)>;

/// The mathematical value of a section: its name and its entries.
pub struct SectionModel {
    pub name: Seq<char>,
    pub entries: EntriesModel,
}

/// The index of the entry with the given key; `-1` when there is none.
pub open spec fn find_idx(entries: EntriesModel, key: Seq<char>) -> int
    decreases entries.len(),
{
    if entries.len() == 0 {
        -1
    } else if entries[0].0 == key {
        0
    } else {
        let r = find_idx(entries.drop_first(), key);
        if r < 0 {
            -1
        } else {
            r + 1
        }
    }
}

/// The value stored under the given key, if any.
pub open spec fn lookup(entries: EntriesModel, key: Seq<char>) -> Option<ValueModel> {
    if find_idx(entries, key) < 0 {
        None
    } else {
        Some(entries[find_idx(entries, key)].1)
    }
}

/// What `find_idx` finds: the first entry with the key, or none at all.
pub proof fn lemma_find_idx(entries: EntriesModel, key: Seq<char>)
    ensures
        find_idx(entries, key) >= 0 ==> find_idx(entries, key) < entries.len() && entries[find_idx(
            entries,
            key,
        )].0 == key && (forall|j: int| 0 <= j < find_idx(entries, key) ==> entries[j].0 != key),
        find_idx(entries, key) < 0 ==> find_idx(entries, key) == -1 && (forall|j: int|
            0 <= j < entries.len() ==> entries[j].0 != key),
    decreases entries.len(),
{
    if entries.len() > 0 && entries[0].0 != key {
        lemma_find_idx(entries.drop_first(), key);
        let sub = find_idx(entries.drop_first(), key);
        if sub >= 0 {
            assert forall|j: int| 0 <= j < find_idx(entries, key) implies entries[j].0 != key by {
                if j > 0 {
                    assert(entries.drop_first()[j - 1] == entries[j]);
                }
            }
        } else {
            assert forall|j: int| 0 <= j < entries.len() implies entries[j].0 != key by {
                if j > 0 {
                    assert(entries.drop_first()[j - 1] == entries[j]);
                }
            }
        }
    }
}

/// `find_idx` finds the index of a key known to sit at `i` with no earlier
/// duplicate.
pub proof fn lemma_find_idx_at(entries: EntriesModel, key: Seq<char>, i: int)
    requires
        0 <= i < entries.len(),
        entries[i].0 == key,
        forall|j: int| 0 <= j < i ==> entries[j].0 != key,
    ensures
        find_idx(entries, key) == i,
        lookup(entries, key) == Some(entries[i].1),
    decreases i,
{
    if i > 0 {
        lemma_find_idx_at(entries.drop_first(), key, i - 1);
        assert(forall|j: int|
            0 <= j < entries.len() - 1 ==> entries.drop_first()[j] == entries[j + 1]);
        assert(entries.drop_first()[i - 1] == entries[i]);
    }
}

/// `find_idx` finds nothing when no entry has the key.
pub proof fn lemma_find_idx_none(entries: EntriesModel, key: Seq<char>)
    requires
        forall|j: int| 0 <= j < entries.len() ==> entries[j].0 != key,
    ensures
        find_idx(entries, key) == -1,
        lookup(entries, key) is None,
    decreases entries.len(),
{
    if entries.len() > 0 {
        assert forall|j: int|
            0 <= j < entries.len() - 1 implies entries.drop_first()[j].0 != key by {
            assert(entries.drop_first()[j] == entries[j + 1]);
        }
        lemma_find_idx_none(entries.drop_first(), key);
    }
}

/// Entry tables with the same keys in the same places are searched alike.
pub proof fn lemma_find_idx_same_keys(e1: EntriesModel, e2: EntriesModel, key: Seq<char>)
    requires
        e1.len() == e2.len(),
        forall|j: int| 0 <= j < e1.len() ==> e1[j].0 == e2[j].0,
    ensures
        find_idx(e1, key) == find_idx(e2, key),
    decreases e1.len(),
{
    if e1.len() > 0 {
        assert(forall|j: int| 0 <= j < e1.len() - 1 ==> e1.drop_first()[j] == e1[j + 1]);
        assert(forall|j: int| 0 <= j < e2.len() - 1 ==> e2.drop_first()[j] == e2[j + 1]);
        lemma_find_idx_same_keys(e1.drop_first(), e2.drop_first(), key);
    }
}

/// Keys are unique and every value is well formed.
pub open spec fn entries_wf(entries: EntriesModel) -> bool {
    &&& forall|i: int, j: int| 0 <= i < j < entries.len() ==> entries[i].0 != entries[j].0
    &&& forall|i: int| 0 <= i < entries.len() ==> value_wf(#[trigger] entries[i].1)
}

pub open spec fn section_wf(s: SectionModel) -> bool {
    entries_wf(s.entries)
}

/// Section names are unique and every section is well formed.
pub open spec fn ini_wf(secs: Seq<SectionModel>) -> bool {
    &&& forall|i: int, j: int| 0 <= i < j < secs.len() ==> secs[i].name != secs[j].name
    &&& forall|i: int| 0 <= i < secs.len() ==> section_wf(#[trigger] secs[i])
}

/// The index of the section with the given name; `-1` when there is none.
pub open spec fn sec_find_idx(secs: Seq<SectionModel>, name: Seq<char>) -> int
    decreases secs.len(),
{
    if secs.len() == 0 {
        -1
    } else if secs[0].name == name {
        0
    } else {
        let r = sec_find_idx(secs.drop_first(), name);
        if r < 0 {
            -1
        } else {
            r + 1
        }
    }
}

/// The section with the given name, if any.
pub open spec fn sec_lookup(secs: Seq<SectionModel>, name: Seq<char>) -> Option<SectionModel> {
    if sec_find_idx(secs, name) < 0 {
        None
    } else {
        Some(secs[sec_find_idx(secs, name)])
    }
}

/// What `sec_find_idx` finds: the first section with the name, or none.
pub proof fn lemma_sec_find_idx(secs: Seq<SectionModel>, name: Seq<char>)
    ensures
        sec_find_idx(secs, name) >= 0 ==> sec_find_idx(secs, name) < secs.len() && secs[
            sec_find_idx(secs, name)].name == name && (forall|j: int|
            0 <= j < sec_find_idx(secs, name) ==> secs[j].name != name),
        sec_find_idx(secs, name) < 0 ==> sec_find_idx(secs, name) == -1 && (forall|j: int|
            0 <= j < secs.len() ==> secs[j].name != name),
    decreases secs.len(),
{
    if secs.len() > 0 && secs[0].name != name {
        lemma_sec_find_idx(secs.drop_first(), name);
        let sub = sec_find_idx(secs.drop_first(), name);
        if sub >= 0 {
            assert forall|j: int| 0 <= j < sec_find_idx(secs, name) implies secs[j].name != name by {
                if j > 0 {
                    assert(secs.drop_first()[j - 1] == secs[j]);
                }
            }
        } else {
            assert forall|j: int| 0 <= j < secs.len() implies secs[j].name != name by {
                if j > 0 {
                    assert(secs.drop_first()[j - 1] == secs[j]);
                }
            }
        }
    }
}

pub proof fn lemma_sec_find_idx_at(secs: Seq<SectionModel>, name: Seq<char>, i: int)
    requires
        0 <= i < secs.len(),
        secs[i].name == name,
        forall|j: int| 0 <= j < i ==> secs[j].name != name,
    ensures
        sec_find_idx(secs, name) == i,
        sec_lookup(secs, name) == Some(secs[i]),
    decreases i,
{
    if i > 0 {
        lemma_sec_find_idx_at(secs.drop_first(), name, i - 1);
        assert(forall|j: int| 0 <= j < secs.len() - 1 ==> secs.drop_first()[j] == secs[j + 1]);
        assert(secs.drop_first()[i - 1] == secs[i]);
    }
}

pub proof fn lemma_sec_find_idx_none(secs: Seq<SectionModel>, name: Seq<char>)
    requires
        forall|j: int| 0 <= j < secs.len() ==> secs[j].name != name,
    ensures
        sec_find_idx(secs, name) == -1,
        sec_lookup(secs, name) is None,
    decreases secs.len(),
{
    if secs.len() > 0 {
        assert forall|j: int| 0 <= j < secs.len() - 1 implies secs.drop_first()[j].name != name by {
            assert(secs.drop_first()[j] == secs[j + 1]);
        }
        lemma_sec_find_idx_none(secs.drop_first(), name);
    }
}

/// Stores with the same section names in the same places are searched alike.
pub proof fn lemma_sec_find_idx_same_names(s1: Seq<SectionModel>, s2: Seq<SectionModel>, name: Seq<
    char,
>)
    requires
        s1.len() == s2.len(),
        forall|j: int| 0 <= j < s1.len() ==> s1[j].name == s2[j].name,
    ensures
        sec_find_idx(s1, name) == sec_find_idx(s2, name),
    decreases s1.len(),
{
    if s1.len() > 0 {
        assert(forall|j: int| 0 <= j < s1.len() - 1 ==> s1.drop_first()[j] == s1[j + 1]);
        assert(forall|j: int| 0 <= j < s2.len() - 1 ==> s2.drop_first()[j] == s2[j + 1]);
        lemma_sec_find_idx_same_names(s1.drop_first(), s2.drop_first(), name);
    }
}

/// A named group of key/value pairs, unique keys intended.
#[derive(Debug, Clone)]
pub struct IniSection {
    name: String,
    keys: Vec<(String, IniTypes)>,
}

impl View for IniSection {
    type V = SectionModel;

    closed spec fn view(&self) -> SectionModel {
        SectionModel {
            name: self.name@,
            entries: Seq::new(self.keys@.len(), |i: int| (self.keys@[i].0@, self.keys@[i].1@)),
        }
    }
}

impl IniSection {
    /// An empty section of the given name.
    pub fn new(name: &str) -> (s: IniSection)
        ensures
            s@.name == name@,
            s@.entries == Seq::<(Seq<char>, ValueModel)>::empty(),
    {
        let s = IniSection { name: name.to_owned(), keys: Vec::new() };
        proof {
            assert(s@.entries =~= Seq::<(Seq<char>, ValueModel)>::empty());
        }
        s
    }

    /// The section's name.
    pub fn name(&self) -> (r: &String)
        ensures
            r@ == self@.name,
    {
        &self.name
    }

    /// The value stored under the key, if any.
    pub fn get(&self, key: &str) -> (r: Option<&IniTypes>)
        ensures
            r matches Some(v) ==> lookup(self@.entries, key@) == Some(v@),
            r is None ==> lookup(self@.entries, key@) is None,
    {
        let n = self.keys.len();
        let mut i: usize = 0;
        while i < n
            invariant
                n == self.keys@.len(),
                i <= n,
                forall|j: int| 0 <= j < i ==> self@.entries[j].0 != key@,
            decreases n - i,
        {
            if str_eq(self.keys[i].0.as_str(), key) {
                proof {
                    lemma_find_idx_at(self@.entries, key@, i as int);
                }
                return Some(&self.keys[i].1);
            }
            i = i + 1;
        }
        proof {
            lemma_find_idx_none(self@.entries, key@);
        }
        None
    }

    /// Overwrites the value under an existing key; fails with `MissingKey`
    /// when the key is not present, leaving the section unchanged.
    pub fn set(&mut self, key: &str, value: IniTypes) -> (r: IniResult<()>)
        ensures
            find_idx(old(self)@.entries, key@) >= 0 ==> r is Ok && final(self)@.name == old(
                self,
            )@.name && final(self)@.entries == old(self)@.entries.update(
                find_idx(old(self)@.entries, key@),
                (key@, value@),
            ),
            find_idx(old(self)@.entries, key@) < 0 ==> r == IniResult::<()>::Err(
                IniError::MissingKey,
            ) && *final(self) == *old(self),
    {
        let n = self.keys.len();
        let mut i: usize = 0;
        while i < n
            invariant
                n == self.keys@.len(),
                i <= n,
                *self == *old(self),
                forall|j: int| 0 <= j < i ==> self@.entries[j].0 != key@,
            decreases n - i,
        {
            if str_eq(self.keys[i].0.as_str(), key) {
                proof {
                    lemma_find_idx_at(self@.entries, key@, i as int);
                }
                self.keys[i] = (key.to_owned(), value);
                proof {
                    assert(final(self)@.entries =~= old(self)@.entries.update(
                        i as int,
                        (key@, value@),
                    ));
                }
                return Ok(());
            }
            i = i + 1;
        }
        proof {
            lemma_find_idx_none(self@.entries, key@);
        }
        Err(IniError::MissingKey)
    }

    /// Appends a key known to be new; for building a fresh section.
    pub(crate) fn push_key(&mut self, key: &str, value: IniTypes)
        ensures
            final(self)@.name == old(self)@.name,
            final(self)@.entries == old(self)@.entries.push((key@, value@)),
    {
        self.keys.push((key.to_owned(), value));
        proof {
            assert(final(self)@.entries =~= old(self)@.entries.push((key@, value@)));
        }
    }

    /// Creates the key or overwrites it, with no existence check.
    pub fn create_and_set(&mut self, key: &str, value: IniTypes)
        ensures
            final(self)@.name == old(self)@.name,
            find_idx(old(self)@.entries, key@) >= 0 ==> final(self)@.entries == old(
                self,
            )@.entries.update(find_idx(old(self)@.entries, key@), (key@, value@)),
            find_idx(old(self)@.entries, key@) < 0 ==> final(self)@.entries == old(
                self,
            )@.entries.push((key@, value@)),
    {
        let n = self.keys.len();
        let mut i: usize = 0;
        while i < n
            invariant
                n == self.keys@.len(),
                i <= n,
                *self == *old(self),
                forall|j: int| 0 <= j < i ==> self@.entries[j].0 != key@,
            decreases n - i,
        {
            if str_eq(self.keys[i].0.as_str(), key) {
                proof {
                    lemma_find_idx_at(self@.entries, key@, i as int);
                }
                self.keys[i] = (key.to_owned(), value);
                proof {
                    assert(final(self)@.entries =~= old(self)@.entries.update(
                        i as int,
                        (key@, value@),
                    ));
                }
                return ;
            }
            i = i + 1;
        }
        proof {
            lemma_find_idx_none(self@.entries, key@);
        }
        self.keys.push((key.to_owned(), value));
        proof {
            assert(final(self)@.entries =~= old(self)@.entries.push((key@, value@)));
        }
    }
}

/// The store: a table of sections, parsed from and serialized to text.
#[derive(Debug, Clone)]
pub struct Ini {
    sections: Vec<IniSection>,
}

impl View for Ini {
    type V = Seq<SectionModel>;

    closed spec fn view(&self) -> Seq<SectionModel> {
        Seq::new(self.sections@.len(), |i: int| self.sections@[i]@)
    }
}

impl Ini {
    /// An empty store.
    pub fn new() -> (r: Ini)
        ensures
            r@ == Seq::<SectionModel>::empty(),
    {
        let r = Ini { sections: Vec::new() };
        proof {
            assert(r@ =~= Seq::<SectionModel>::empty());
        }
        r
    }

    /// The section of the given name, if any.
    pub fn get(&self, section: &str) -> (r: Option<&IniSection>)
        ensures
            r matches Some(s) ==> sec_lookup(self@, section@) == Some(s@),
            r is None ==> sec_lookup(self@, section@) is None,
    {
        let n = self.sections.len();
        let mut i: usize = 0;
        while i < n
            invariant
                n == self.sections@.len(),
                i <= n,
                forall|j: int| 0 <= j < i ==> self@[j].name != section@,
            decreases n - i,
        {
            if str_eq(self.sections[i].name.as_str(), section) {
                proof {
                    lemma_sec_find_idx_at(self@, section@, i as int);
                }
                return Some(&self.sections[i]);
            }
            i = i + 1;
        }
        proof {
            lemma_sec_find_idx_none(self@, section@);
        }
        None
    }

    /// Adds a new section; fails with `DuplicateSection` when one of the
    /// same name exists, leaving the store unchanged.
    pub fn set(&mut self, section: IniSection) -> (r: IniResult<()>)
        ensures
            sec_find_idx(old(self)@, section@.name) < 0 ==> r is Ok && final(self)@ == old(
                self,
            )@.push(section@),
            sec_find_idx(old(self)@, section@.name) >= 0 ==> r == IniResult::<()>::Err(
                IniError::DuplicateSection,
            ) && *final(self) == *old(self),
    {
        let n = self.sections.len();
        let mut i: usize = 0;
        while i < n
            invariant
                n == self.sections@.len(),
                i <= n,
                *self == *old(self),
                forall|j: int| 0 <= j < i ==> self@[j].name != section@.name,
            decreases n - i,
        {
            if str_eq(self.sections[i].name.as_str(), section.name.as_str()) {
                proof {
                    lemma_sec_find_idx_at(self@, section@.name, i as int);
                }
                return Err(IniError::DuplicateSection);
            }
            i = i + 1;
        }
        proof {
            lemma_sec_find_idx_none(self@, section@.name);
        }
        self.sections.push(section);
        proof {
            assert(final(self)@ =~= old(self)@.push(section@));
        }
        Ok(())
    }

    /// Adds the section, replacing any existing section of the same name in
    /// place.
    pub fn create_and_set(&mut self, section: IniSection)
        ensures
            sec_find_idx(old(self)@, section@.name) >= 0 ==> final(self)@ == old(self)@.update(
                sec_find_idx(old(self)@, section@.name),
                section@,
            ),
            sec_find_idx(old(self)@, section@.name) < 0 ==> final(self)@ == old(self)@.push(
                section@,
            ),
    {
        let n = self.sections.len();
        let mut i: usize = 0;
        while i < n
            invariant
                n == self.sections@.len(),
                i <= n,
                *self == *old(self),
                forall|j: int| 0 <= j < i ==> self@[j].name != section@.name,
            decreases n - i,
        {
            if str_eq(self.sections[i].name.as_str(), section.name.as_str()) {
                proof {
                    lemma_sec_find_idx_at(self@, section@.name, i as int);
                }
                self.sections[i] = section;
                proof {
                    assert(final(self)@ =~= old(self)@.update(i as int, final(self)@[i as int]));
                }
                return ;
            }
            i = i + 1;
        }
        proof {
            lemma_sec_find_idx_none(self@, section@.name);
        }
        self.sections.push(section);
        proof {
            assert(final(self)@ =~= old(self)@.push(section@));
        }
    }

    /// Overwrites the value under an existing key of an existing section;
    /// fails with `MissingSection` or `MissingKey` otherwise, leaving the
    /// store unchanged.
    pub fn set_key(&mut self, section: &str, key: &str, value: IniTypes) -> (r: IniResult<()>)
        ensures
            ({
                let si = sec_find_idx(old(self)@, section@);
                &&& si < 0 ==> r == IniResult::<()>::Err(IniError::MissingSection) && final(self)@
                    == old(self)@
                &&& si >= 0 ==> {
                    let ki = find_idx(old(self)@[si].entries, key@);
                    &&& ki < 0 ==> r == IniResult::<()>::Err(IniError::MissingKey) && final(self)@
                        == old(self)@
                    &&& ki >= 0 ==> r is Ok && final(self)@ == old(self)@.update(
                        si,
                        (SectionModel {
                            name: old(self)@[si].name,
                            entries: old(self)@[si].entries.update(ki, (key@, value@)),
                        }),
                    )
                }
            }),
    {
        let n = self.sections.len();
        let mut i: usize = 0;
        while i < n
            invariant
                n == self.sections@.len(),
                i <= n,
                *self == *old(self),
                forall|j: int| 0 <= j < i ==> self@[j].name != section@,
            decreases n - i,
        {
            if str_eq(self.sections[i].name.as_str(), section) {
                proof {
                    lemma_sec_find_idx_at(self@, section@, i as int);
                }
                let r = self.sections[i].set(key, value);
                proof {
                    if find_idx(old(self)@[i as int].entries, key@) >= 0 {
                        assert(final(self)@ =~= old(self)@.update(
                            i as int,
                            final(self)@[i as int],
                        ));
                    } else {
                        assert(final(self)@ =~= old(self)@);
                    }
                }
                return r;
            }
            i = i + 1;
        }
        proof {
            lemma_sec_find_idx_none(self@, section@);
        }
        Err(IniError::MissingSection)
    }
}

/// Whitespace within a line, as the parser removes it.
pub open spec fn is_ws(c: char) -> bool {
    c == ' ' || c == '\t' || c == '\r'
}

/// The index of the first line break, or the length when there is none.
pub open spec fn first_nl(s: Seq<char>) -> int
    decreases s.len(),
{
    if s.len() == 0 {
        0
    } else if s[0] == '\n' {
        0
    } else {
        1 + first_nl(s.drop_first())
    }
}

pub proof fn lemma_first_nl(s: Seq<char>)
    ensures
        0 <= first_nl(s) <= s.len(),
        first_nl(s) < s.len() ==> s[first_nl(s)] == '\n',
        forall|j: int| 0 <= j < first_nl(s) ==> s[j] != '\n',
    decreases s.len(),
{
    if s.len() > 0 && s[0] != '\n' {
        lemma_first_nl(s.drop_first());
        assert forall|j: int| 0 <= j < first_nl(s) implies s[j] != '\n' by {
            if j > 0 {
                assert(s.drop_first()[j - 1] == s[j]);
            }
        }
        if first_nl(s) < s.len() {
            assert(s.drop_first()[first_nl(s) - 1] == s[first_nl(s)]);
        }
    }
}

pub proof fn lemma_first_nl_at(s: Seq<char>, i: int)
    requires
        0 <= i <= s.len(),
        forall|k: int| 0 <= k < i ==> s[k] != '\n',
        i < s.len() ==> s[i] == '\n',
    ensures
        first_nl(s) == i,
    decreases i,
{
    if i > 0 {
        assert forall|k: int| 0 <= k < i - 1 implies s.drop_first()[k] != '\n' by {
            assert(s.drop_first()[k] == s[k + 1]);
        }
        if i - 1 < s.len() - 1 {
            assert(s.drop_first()[i - 1] == s[i]);
        }
        lemma_first_nl_at(s.drop_first(), i - 1);
    }
}

/// The text's lines: split at every line break; a last line without a
/// terminating break counts, a terminating break adds no empty line.
pub open spec fn split_lines(s: Seq<char>) -> Seq<Seq<char>>
    decreases s.len(),
{
    if s.len() == 0 {
        Seq::empty()
    } else {
        let i = first_nl(s);
        if i < 0 || i >= s.len() {
            seq![s]
        } else {
            seq![s.subrange(0, i)] + split_lines(s.subrange(i + 1, s.len() as int))
        }
    }
}

pub open spec fn lines_view(ls: Seq<Vec<char>>) -> Seq<Seq<char>> {
    Seq::new(ls.len(), |i: int| ls[i]@)
}

/// The text's lines.
pub fn split_lines_exec(v: &Vec<char>) -> (r: Vec<Vec<char>>)
    ensures
        lines_view(r@) == split_lines(v@),
{
    let n = v.len();
    let mut out: Vec<Vec<char>> = Vec::new();
    let mut start: usize = 0;
    proof {
        assert(lines_view(out@) =~= Seq::<Seq<char>>::empty());
        assert(v@.subrange(0, n as int) =~= v@);
    }
    while start < n
        invariant
            start <= n,
            n == v@.len(),
            split_lines(v@) == lines_view(out@) + split_lines(v@.subrange(start as int, n as int)),
        decreases n - start,
    {
        let mut j: usize = start;
        while j < n
            invariant
                start <= j <= n,
                n == v@.len(),
                forall|k: int| start <= k < j ==> v@[k] != '\n',
            ensures
                start <= j <= n,
                n == v@.len(),
                forall|k: int| start <= k < j ==> v@[k] != '\n',
                j < n ==> v@[j as int] == '\n',
            decreases n - j,
        {
            if v[j] == '\n' {
                break ;
            }
            j = j + 1;
        }
        let line = crate::text::subvec(v, start, j);
        let ghost rest = v@.subrange(start as int, n as int);
        proof {
            assert forall|k: int| 0 <= k < j - start implies rest[k] != '\n' by {
                assert(rest[k] == v@[start + k]);
            }
            if j < n {
                assert(rest[j - start] == v@[j as int]);
            }
            lemma_first_nl_at(rest, j - start);
            assert(rest.subrange(0, j - start) =~= v@.subrange(start as int, j as int));
        }
        out.push(line);
        proof {
            assert(lines_view(out@) =~= lines_view(out@.drop_last()) + seq![
                v@.subrange(start as int, j as int),
            ]);
        }
        if j < n {
            proof {
                assert(rest.subrange(j - start + 1, rest.len() as int) =~= v@.subrange(
                    (j + 1) as int,
                    n as int,
                ));
                assert(split_lines(rest) == seq![v@.subrange(start as int, j as int)]
                    + split_lines(v@.subrange((j + 1) as int, n as int)));
                assert(lines_view(out@) + split_lines(v@.subrange((j + 1) as int, n as int))
                    =~= lines_view(out@.drop_last()) + split_lines(rest));
            }
            start = j + 1;
        } else {
            proof {
                assert(split_lines(rest) == seq![rest]);
                assert(rest =~= v@.subrange(start as int, j as int));
                assert(v@.subrange(n as int, n as int) =~= Seq::<char>::empty());
                assert(lines_view(out@) + split_lines(v@.subrange(n as int, n as int))
                    =~= lines_view(out@.drop_last()) + split_lines(rest));
            }
            start = n;
        }
    }
    proof {
        assert(v@.subrange(n as int, n as int) =~= Seq::<char>::empty());
        assert(lines_view(out@) + Seq::<Seq<char>>::empty() =~= lines_view(out@));
    }
    out
}

/// A line with one trailing carriage return stripped.
pub open spec fn strip_cr(line: Seq<char>) -> Seq<char> {
    if line.len() > 0 && line.last() == '\r' {
        line.drop_last()
    } else {
        line
    }
}

/// A section-header line: first character `[`, last character `]`.
pub open spec fn is_header(line: Seq<char>) -> bool {
    line.len() >= 2 && line[0] == '[' && line.last() == ']'
}

pub open spec fn header_name(line: Seq<char>) -> Seq<char> {
    line.subrange(1, line.len() - 1)
}

/// How many `=` characters the line holds.
pub open spec fn count_eq(s: Seq<char>) -> int
    decreases s.len(),
{
    if s.len() == 0 {
        0
    } else {
        count_eq(s.drop_last()) + if s.last() == '=' {
            1int
        } else {
            0int
        }
    }
}

/// The index of the first `=`, or the length when there is none.
pub open spec fn first_eq(s: Seq<char>) -> int
    decreases s.len(),
{
    if s.len() == 0 {
        0
    } else if s[0] == '=' {
        0
    } else {
        1 + first_eq(s.drop_first())
    }
}

pub proof fn lemma_first_eq_at(s: Seq<char>, i: int)
    requires
        0 <= i <= s.len(),
        forall|k: int| 0 <= k < i ==> s[k] != '=',
        i < s.len() ==> s[i] == '=',
    ensures
        first_eq(s) == i,
    decreases i,
{
    if i > 0 {
        assert forall|k: int| 0 <= k < i - 1 implies s.drop_first()[k] != '=' by {
            assert(s.drop_first()[k] == s[k + 1]);
        }
        if i - 1 < s.len() - 1 {
            assert(s.drop_first()[i - 1] == s[i]);
        }
        lemma_first_eq_at(s.drop_first(), i - 1);
    }
}

/// The sequence with every blank, tab and carriage return removed.
pub open spec fn remove_ws(s: Seq<char>) -> Seq<char>
    decreases s.len(),
{
    if s.len() == 0 {
        Seq::empty()
    } else if is_ws(s.last()) {
        remove_ws(s.drop_last())
    } else {
        remove_ws(s.drop_last()).push(s.last())
    }
}

pub open spec fn trim_start(s: Seq<char>) -> Seq<char>
    decreases s.len(),
{
    if s.len() > 0 && is_ws(s[0]) {
        trim_start(s.drop_first())
    } else {
        s
    }
}

pub open spec fn trim_end(s: Seq<char>) -> Seq<char>
    decreases s.len(),
{
    if s.len() > 0 && is_ws(s.last()) {
        trim_end(s.drop_last())
    } else {
        s
    }
}

/// The sequence with leading and trailing whitespace removed.
pub open spec fn trim_ws(s: Seq<char>) -> Seq<char> {
    trim_end(trim_start(s))
}

/// Type inference on an unquoted, whitespace-free value text: integer first,
/// then float, then boolean, and plain text for everything else.
pub open spec fn infer_value(v: Seq<char>) -> ValueModel {
    if is_i64_literal(v) {
        ValueModel::Integer(i64_literal_val(v))
    } else if is_f64_literal(v) {
        ValueModel::Float(v)
    } else if v == "true"@ {
        ValueModel::Boolean(true)
    } else if v == "false"@ {
        ValueModel::Boolean(false)
    } else {
        ValueModel::Text(v)
    }
}

/// The value a trimmed assignment text denotes: a matching pair of double
/// quotes marks text taken verbatim; anything else goes through whitespace
/// removal and type inference.
pub open spec fn line_value(tv: Seq<char>) -> ValueModel {
    if quote_shaped(tv) {
        ValueModel::Text(tv.subrange(1, tv.len() - 1))
    } else {
        infer_value(remove_ws(tv))
    }
}

/// A character that may stand in a float literal: a sign, a digit, a
/// point, an exponent mark, or a letter of `inf`, `infinity`, `nan` in
/// either case.
pub open spec fn f64_char(c: char) -> bool {
    crate::lit::is_digit(c) || c == '+' || c == '-' || c == '.' || c == 'e' || c == 'E' || c == 'i'
        || c == 'I' || c == 'n' || c == 'N' || c == 'f' || c == 'F' || c == 'a' || c == 'A' || c
        == 't' || c == 'T' || c == 'y' || c == 'Y'
}

proof fn lemma_digits_run_nonneg(s: Seq<char>, i: int)
    ensures
        crate::lit::digits_run(s, i) >= 0,
        0 <= i <= s.len() ==> i + crate::lit::digits_run(s, i) <= s.len(),
    decreases s.len() - i + 1,
{
    if 0 <= i && i < s.len() && crate::lit::is_digit(s[i]) {
        lemma_digits_run_nonneg(s, i + 1);
    }
}

proof fn lemma_digits_run_digits(s: Seq<char>, i: int, k: int)
    requires
        0 <= i,
        i <= k < i + crate::lit::digits_run(s, i),
    ensures
        crate::lit::is_digit(s[k]),
    decreases k - i,
{
    if k > i {
        lemma_digits_run_digits(s, i + 1, k);
    }
}

/// Every character of a float literal is of the grammar's narrow set.
proof fn lemma_f64_chars(t: Seq<char>)
    requires
        is_f64_literal(t),
    ensures
        forall|i: int| 0 <= i < t.len() ==> f64_char(#[trigger] t[i]),
{
    reveal_strlit("inf");
    reveal_strlit("infinity");
    reveal_strlit("nan");
    let b = crate::lit::f64_body_start(t);
    let body = t.subrange(b, t.len() as int);
    let tail = lower_seq(body);
    assert forall|i: int| 0 <= i < t.len() implies f64_char(#[trigger] t[i]) by {
        if i < b {
            assert(t[i] == '+' || t[i] == '-');
        } else {
            assert(body[i - b] == t[i]);
            if tail == "inf"@ || tail == "infinity"@ || tail == "nan"@ {
                assert(tail[i - b] == crate::text::lower(t[i]));
                let lc = crate::text::lower(t[i]);
                if tail == "inf"@ {
                    assert(tail.len() == 3);
                    assert(lc == ("inf"@)[i - b]);
                    assert(lc == 'i' || lc == 'n' || lc == 'f');
                } else if tail == "infinity"@ {
                    assert(tail.len() == 8);
                    assert(lc == ("infinity"@)[i - b]);
                    assert(lc == 'i' || lc == 'n' || lc == 'f' || lc == 't' || lc == 'y');
                } else {
                    assert(tail.len() == 3);
                    assert(lc == ("nan"@)[i - b]);
                    assert(lc == 'n' || lc == 'a');
                }
            } else {
                assert(crate::lit::is_number_from(t, b));
                let d1 = crate::lit::digits_run(t, b);
                let p = b + d1;
                lemma_digits_run_nonneg(t, b);
                if p < t.len() && t[p] == '.' {
                    let d2 = crate::lit::digits_run(t, p + 1);
                    let e2 = p + 1 + d2;
                    lemma_digits_run_nonneg(t, p + 1);
                    if i < p {
                        lemma_digits_run_digits(t, b, i);
                    } else if i == p {
                    } else if i < e2 {
                        lemma_digits_run_digits(t, p + 1, i);
                    } else {
                        lemma_exp_chars(t, e2, i);
                    }
                } else {
                    if i < p {
                        lemma_digits_run_digits(t, b, i);
                    } else {
                        lemma_exp_chars(t, p, i);
                    }
                }
            }
        }
    }
}

/// Every character of an exponent part is of the grammar's narrow set.
proof fn lemma_exp_chars(t: Seq<char>, e: int, i: int)
    requires
        crate::lit::is_exp_from(t, e),
        e <= i < t.len(),
    ensures
        f64_char(t[i]),
{
    if i == e {
    } else {
        let j = if e + 1 < t.len() && (t[e + 1] == '+' || t[e + 1] == '-') {
            e + 2
        } else {
            e + 1
        };
        if i < j {
        } else {
            lemma_digits_run_nonneg(t, j);
            lemma_digits_run_digits(t, j, i);
        }
    }
}

/// Whatever text inference reads, the value it yields is well formed: a
/// float is only ever produced from float syntax, which carries no
/// whitespace, no separator and no quote shape.
pub proof fn lemma_infer_value_wf(v: Seq<char>)
    ensures
        value_wf(infer_value(v)),
{
    if !is_i64_literal(v) && is_f64_literal(v) {
        lemma_f64_chars(v);
        assert forall|i: int| 0 <= i < v.len() implies clean_char(#[trigger] v[i]) by {
            assert(f64_char(v[i]));
        }
        if v.len() >= 2 {
            assert(f64_char(v[0]));
            assert(v[0] != '"');
        }
        assert(!quote_shaped(v));
    }
}

/// A new empty section of the given name, replacing any of the same name in
/// place.
pub open spec fn upsert_section(secs: Seq<SectionModel>, name: Seq<char>) -> Seq<SectionModel> {
    let si = sec_find_idx(secs, name);
    if si >= 0 {
        secs.update(si, SectionModel { name: name, entries: Seq::empty() })
    } else {
        secs.push(SectionModel { name: name, entries: Seq::empty() })
    }
}

/// The entry under the key created or overwritten.
pub open spec fn upsert_entry(entries: EntriesModel, key: Seq<char>, v: ValueModel) -> EntriesModel {
    let ki = find_idx(entries, key);
    if ki >= 0 {
        entries.update(ki, (key, v))
    } else {
        entries.push((key, v))
    }
}

/// The key created or overwritten inside the named section; without that
/// section nothing changes.
pub open spec fn set_in_section(
    secs: Seq<SectionModel>,
    name: Seq<char>,
    key: Seq<char>,
    v: ValueModel,
) -> Seq<SectionModel> {
    let si = sec_find_idx(secs, name);
    if si >= 0 {
        secs.update(
            si,
            SectionModel { name: secs[si].name, entries: upsert_entry(secs[si].entries, key, v) },
        )
    } else {
        secs
    }
}

/// Creating or overwriting a key with a well-formed value keeps a
/// section's entries well formed.
pub proof fn lemma_upsert_entry_wf(entries: EntriesModel, key: Seq<char>, v: ValueModel)
    requires
        entries_wf(entries),
        value_wf(v),
    ensures
        entries_wf(upsert_entry(entries, key, v)),
{
    lemma_find_idx(entries, key);
    let ki = find_idx(entries, key);
    if ki >= 0 {
        let e2 = entries.update(ki, (key, v));
        assert(entries[ki].0 == key);
        assert forall|i: int, j: int| 0 <= i < j < e2.len() implies e2[i].0 != e2[j].0 by {
            assert(e2[i].0 == entries[i].0);
            assert(e2[j].0 == entries[j].0);
        }
        assert forall|i: int| 0 <= i < e2.len() implies value_wf(e2[i].1) by {
            if i != ki {
                assert(e2[i].1 == entries[i].1);
            }
        }
    } else {
        let e2 = entries.push((key, v));
        assert forall|i: int, j: int| 0 <= i < j < e2.len() implies e2[i].0 != e2[j].0 by {
            if j == entries.len() {
                assert(e2[i].0 == entries[i].0);
                assert(e2[j].0 == key);
            } else {
                assert(e2[i].0 == entries[i].0);
                assert(e2[j].0 == entries[j].0);
            }
        }
        assert forall|i: int| 0 <= i < e2.len() implies value_wf(e2[i].1) by {
            if i < entries.len() {
                assert(e2[i].1 == entries[i].1);
            }
        }
    }
}

/// Opening a section anew keeps the store well formed.
pub proof fn lemma_upsert_section_wf(secs: Seq<SectionModel>, name: Seq<char>)
    requires
        ini_wf(secs),
    ensures
        ini_wf(upsert_section(secs, name)),
{
    lemma_sec_find_idx(secs, name);
    let si = sec_find_idx(secs, name);
    let fresh = SectionModel { name: name, entries: Seq::empty() };
    assert(section_wf(fresh));
    if si >= 0 {
        let s2 = secs.update(si, fresh);
        assert(secs[si].name == name);
        assert forall|i: int, j: int| 0 <= i < j < s2.len() implies s2[i].name != s2[j].name by {
            assert(s2[i].name == secs[i].name);
            assert(s2[j].name == secs[j].name);
        }
        assert forall|i: int| 0 <= i < s2.len() implies section_wf(s2[i]) by {
            if i != si {
                assert(s2[i] == secs[i]);
            }
        }
    } else {
        let s2 = secs.push(fresh);
        assert forall|i: int, j: int| 0 <= i < j < s2.len() implies s2[i].name != s2[j].name by {
            if j == secs.len() {
                assert(s2[i].name == secs[i].name);
                assert(s2[j].name == name);
            } else {
                assert(s2[i].name == secs[i].name);
                assert(s2[j].name == secs[j].name);
            }
        }
        assert forall|i: int| 0 <= i < s2.len() implies section_wf(s2[i]) by {
            if i < secs.len() {
                assert(s2[i] == secs[i]);
            }
        }
    }
}

/// Writing a well-formed value into a section keeps the store well formed.
pub proof fn lemma_set_in_section_wf(
    secs: Seq<SectionModel>,
    name: Seq<char>,
    key: Seq<char>,
    v: ValueModel,
)
    requires
        ini_wf(secs),
        value_wf(v),
    ensures
        ini_wf(set_in_section(secs, name, key, v)),
{
    lemma_sec_find_idx(secs, name);
    let si = sec_find_idx(secs, name);
    if si >= 0 {
        lemma_upsert_entry_wf(secs[si].entries, key, v);
        let newsec = SectionModel {
            name: secs[si].name,
            entries: upsert_entry(secs[si].entries, key, v),
        };
        let s2 = secs.update(si, newsec);
        assert forall|i: int, j: int| 0 <= i < j < s2.len() implies s2[i].name != s2[j].name by {
            assert(s2[i].name == secs[i].name);
            assert(s2[j].name == secs[j].name);
        }
        assert forall|i: int| 0 <= i < s2.len() implies section_wf(s2[i]) by {
            if i != si {
                assert(s2[i] == secs[i]);
            }
        }
    }
}

/// The parser's state: the sections built so far and the name of the open
/// section, if any.
pub struct ParseSt {
    pub secs: Seq<SectionModel>,
    pub cur: Option<Seq<char>>,
}

/// One line of input applied to the parser's state.
pub open spec fn parse_line(st: ParseSt, raw: Seq<char>) -> Result<ParseSt, IniError> {
    let line = strip_cr(raw);
    if is_header(line) {
        Ok(
            ParseSt {
                secs: upsert_section(st.secs, header_name(line)),
                cur: Some(header_name(line)),
            },
        )
    } else if count_eq(line) == 1 {
        let e = first_eq(line);
        let key = remove_ws(line.subrange(0, e));
        let tv = trim_ws(line.subrange(e + 1, line.len() as int));
        match st.cur {
            Option::None => Err(IniError::NoCurrentSection),
            Option::Some(name) => Ok(
                ParseSt { secs: set_in_section(st.secs, name, key, line_value(tv)), cur: st.cur },
            ),
        }
    } else {
        Ok(st)
    }
}

pub open spec fn parse_lines(st: ParseSt, lines: Seq<Seq<char>>) -> Result<
    Seq<SectionModel>,
    IniError,
>
    decreases lines.len(),
{
    if lines.len() == 0 {
        Ok(st.secs)
    } else {
        match parse_line(st, lines[0]) {
            Err(e) => Err(e),
            Ok(st2) => parse_lines(st2, lines.drop_first()),
        }
    }
}

/// What parsing a whole text yields.
pub open spec fn spec_parse(text: Seq<char>) -> Result<Seq<SectionModel>, IniError> {
    parse_lines(ParseSt { secs: Seq::empty(), cur: None }, split_lines(text))
}

/// One parsed line keeps the store well formed.
proof fn lemma_parse_line_wf(st: ParseSt, raw: Seq<char>)
    requires
        ini_wf(st.secs),
    ensures
        parse_line(st, raw) matches Ok(st2) ==> ini_wf(st2.secs),
{
    let line = strip_cr(raw);
    if is_header(line) {
        lemma_upsert_section_wf(st.secs, header_name(line));
    } else if count_eq(line) == 1 {
        match st.cur {
            Option::None => {},
            Option::Some(name) => {
                let e = first_eq(line);
                let key = remove_ws(line.subrange(0, e));
                let tv = trim_ws(line.subrange(e + 1, line.len() as int));
                if quote_shaped(tv) {
                } else {
                    lemma_infer_value_wf(remove_ws(tv));
                }
                assert(value_wf(line_value(tv)));
                lemma_set_in_section_wf(st.secs, name, key, line_value(tv));
            },
        }
    }
}

proof fn lemma_parse_lines_wf(st: ParseSt, lines: Seq<Seq<char>>)
    requires
        ini_wf(st.secs),
    ensures
        parse_lines(st, lines) matches Ok(secs) ==> ini_wf(secs),
    decreases lines.len(),
{
    if lines.len() > 0 {
        lemma_parse_line_wf(st, lines[0]);
        match parse_line(st, lines[0]) {
            Err(_) => {},
            Ok(st2) => {
                lemma_parse_lines_wf(st2, lines.drop_first());
            },
        }
    }
}

/// Whatever text the parser reads, the store it builds is well formed:
/// section names unique, keys unique within each section, and every float
/// value a clean float literal.
pub proof fn lemma_parse_wf(text: Seq<char>)
    ensures
        spec_parse(text) matches Ok(secs) ==> ini_wf(secs),
{
    let st = ParseSt { secs: Seq::empty(), cur: None };
    assert(ini_wf(st.secs));
    lemma_parse_lines_wf(st, split_lines(text));
}

impl Ini {
    /// Creates or overwrites the key inside the named section, leaving the
    /// store as it is when the section is missing.
    pub(crate) fn upsert_key(&mut self, section: &str, key: &str, value: IniTypes)
        ensures
            final(self)@ == set_in_section(old(self)@, section@, key@, value@),
    {
        let n = self.sections.len();
        let mut i: usize = 0;
        while i < n
            invariant
                n == self.sections@.len(),
                i <= n,
                *self == *old(self),
                forall|j: int| 0 <= j < i ==> self@[j].name != section@,
            decreases n - i,
        {
            if str_eq(self.sections[i].name.as_str(), section) {
                proof {
                    lemma_sec_find_idx_at(self@, section@, i as int);
                }
                self.sections[i].create_and_set(key, value);
                proof {
                    assert(final(self)@ =~= set_in_section(old(self)@, section@, key@, value@));
                }
                return ;
            }
            i = i + 1;
        }
        proof {
            lemma_sec_find_idx_none(self@, section@);
        }
    }
}

/// Removes every blank, tab and carriage return.
fn remove_ws_exec(v: &Vec<char>, from: usize, to: usize) -> (r: Vec<char>)
    requires
        from <= to <= v@.len(),
    ensures
        r@ == remove_ws(v@.subrange(from as int, to as int)),
{
    let mut r: Vec<char> = Vec::new();
    let mut i: usize = from;
    proof {
        assert(v@.subrange(from as int, from as int) =~= Seq::<char>::empty());
    }
    while i < to
        invariant
            from <= i <= to <= v@.len(),
            r@ == remove_ws(v@.subrange(from as int, i as int)),
        decreases to - i,
    {
        let c = v[i];
        proof {
            let p = v@.subrange(from as int, (i + 1) as int);
            assert(p.drop_last() =~= v@.subrange(from as int, i as int));
            assert(p.last() == v@[i as int]);
        }
        if !(c == ' ' || c == '\t' || c == '\r') {
            r.push(c);
        }
        i = i + 1;
    }
    r
}

/// Parses the value as an `IniTypes` after quote stripping failed.
fn infer_exec(v: Vec<char>) -> (r: IniTypes)
    ensures
        r@ == infer_value(v@),
{
    match crate::lit::parse_i64(&v) {
        Some(n) => IniTypes::Integer(n),
        None => {
            if crate::lit::is_f64_lit(&v) {
                IniTypes::Float(crate::text::chars_to_string(&v))
            } else {
                let s = crate::text::chars_to_string(&v);
                if str_eq(s.as_str(), "true") {
                    IniTypes::Boolean(true)
                } else if str_eq(s.as_str(), "false") {
                    IniTypes::Boolean(false)
                } else {
                    IniTypes::Text(s)
                }
            }
        },
    }
}

/// Parses the text of a configuration file into a store.
///
/// Lines of the shape `[name]` open (or empty anew) the named section; lines
/// holding exactly one `=` assign a value in the open section; every other
/// line is ignored. An assignment before any section header fails with
/// `NoCurrentSection`.
#[verifier::rlimit(100)]
pub fn read_ini(text: &str) -> (r: IniResult<Ini>)
    ensures
        r matches Ok(ini) ==> spec_parse(text@) == Result::<Seq<SectionModel>, IniError>::Ok(ini@)
            && ini_wf(ini@),
        r matches Err(e) ==> spec_parse(text@) == Result::<Seq<SectionModel>, IniError>::Err(e),
{
    let chars = crate::text::string_to_chars(text);
    let lines = split_lines_exec(&chars);
    let ghost all = split_lines(text@);
    let mut ini = Ini::new();
    let mut cur: Option<String> = None;
    let ghost mut gcur: Option<Seq<char>> = None;
    let n = lines.len();
    let mut i: usize = 0;
    proof {
        assert(all.subrange(0, n as int) =~= all);
    }
    while i < n
        invariant
            i <= n,
            n == lines@.len(),
            lines_view(lines@) == all,
            all == split_lines(text@),
            gcur is Some <==> cur is Some,
            cur matches Some(s) ==> gcur == Some(s@),
            spec_parse(text@) == parse_lines(
                ParseSt { secs: ini@, cur: gcur },
                all.subrange(i as int, n as int),
            ),
        decreases n - i,
    {
        let line: &Vec<char> = &lines[i];
        let ghost raw = line@;
        proof {
            assert(all[i as int] == raw);
            assert(all.subrange(i as int, n as int)[0] == raw);
            assert(all.subrange(i as int, n as int).drop_first() =~= all.subrange(
                (i + 1) as int,
                n as int,
            ));
        }
        let m = line.len();
        let end: usize = if m > 0 && line[m - 1] == '\r' {
            m - 1
        } else {
            m
        };
        let ghost sline = strip_cr(raw);
        proof {
            assert(sline =~= raw.subrange(0, end as int));
        }
        if end >= 2 && line[0] == '[' && line[end - 1] == ']' {
            let name_vec = crate::text::subvec(line, 1, end - 1);
            let name_str = crate::text::chars_to_string(&name_vec);
            proof {
                assert(is_header(sline));
                assert(header_name(sline) =~= raw.subrange(1, (end - 1) as int));
                assert(name_str@ == header_name(sline));
            }
            let sec = IniSection::new(name_str.as_str());
            ini.create_and_set(sec);
            proof {
                gcur = Some(name_str@);
            }
            cur = Some(name_str);
        } else {
            proof {
                assert(!is_header(sline));
            }
            let mut eqc: usize = 0;
            let mut eqpos: usize = end;
            let mut j: usize = 0;
            while j < end
                invariant
                    j <= end,
                    end <= m,
                    m == line@.len(),
                    sline == strip_cr(line@),
                    sline == line@.subrange(0, end as int),
                    eqc == count_eq(sline.subrange(0, j as int)),
                    eqc <= j,
                    eqc == 0 ==> eqpos == end,
                    eqc == 0 ==> forall|k: int| 0 <= k < j ==> sline[k] != '=',
                    eqc > 0 ==> eqpos < j && sline[eqpos as int] == '=' && (forall|k: int|
                        0 <= k < eqpos ==> sline[k] != '='),
                decreases end - j,
            {
                let c = line[j];
                proof {
                    let p = sline.subrange(0, (j + 1) as int);
                    assert(p.drop_last() =~= sline.subrange(0, j as int));
                    assert(p.last() == sline[j as int]);
                    assert(sline[j as int] == line@[j as int]);
                }
                if c == '=' {
                    if eqc == 0 {
                        eqpos = j;
                    }
                    eqc = eqc + 1;
                }
                j = j + 1;
            }
            proof {
                assert(sline.subrange(0, end as int) =~= sline);
            }
            if eqc == 1 {
                proof {
                    lemma_first_eq_at(sline, eqpos as int);
                }
                let key_vec = remove_ws_exec(line, 0, eqpos);
                proof {
                    assert(line@.subrange(0, eqpos as int) =~= sline.subrange(0, eqpos as int));
                }
                let key_str = crate::text::chars_to_string(&key_vec);
                // trim the value part
                let mut a: usize = eqpos + 1;
                while a < end && (line[a] == ' ' || line[a] == '\t' || line[a] == '\r')
                    invariant
                        eqpos + 1 <= a <= end,
                        end <= m,
                        m == line@.len(),
                        sline == strip_cr(line@),
                        sline == line@.subrange(0, end as int),
                        trim_start(sline.subrange(eqpos + 1, end as int)) == trim_start(
                            sline.subrange(a as int, end as int),
                        ),
                    decreases end - a,
                {
                    proof {
                        let p = sline.subrange(a as int, end as int);
                        assert(p[0] == line@[a as int]);
                        assert(p.drop_first() =~= sline.subrange((a + 1) as int, end as int));
                    }
                    a = a + 1;
                }
                proof {
                    let p = sline.subrange(a as int, end as int);
                    if a < end {
                        assert(p[0] == line@[a as int]);
                    }
                    assert(trim_start(p) == p);
                }
                let mut b: usize = end;
                while b > a && (line[b - 1] == ' ' || line[b - 1] == '\t' || line[b - 1] == '\r')
                    invariant
                        a <= b <= end,
                        end <= m,
                        m == line@.len(),
                        sline == strip_cr(line@),
                        sline == line@.subrange(0, end as int),
                        trim_start(sline.subrange(eqpos + 1, end as int)) == sline.subrange(
                            a as int,
                            end as int,
                        ),
                        trim_end(sline.subrange(a as int, end as int)) == trim_end(
                            sline.subrange(a as int, b as int),
                        ),
                    decreases b,
                {
                    proof {
                        let p = sline.subrange(a as int, b as int);
                        assert(p.last() == line@[(b - 1) as int]);
                        assert(p.drop_last() =~= sline.subrange(a as int, (b - 1) as int));
                    }
                    b = b - 1;
                }
                let ghost tv = trim_ws(sline.subrange(eqpos + 1, end as int));
                proof {
                    let p = sline.subrange(a as int, b as int);
                    if b > a {
                        assert(p.last() == line@[(b - 1) as int]);
                    }
                    assert(trim_end(p) == p);
                    assert(tv == sline.subrange(a as int, b as int));
                }
                let value: IniTypes = if b - a >= 2 && line[a] == '"' && line[b - 1] == '"' {
                    let tvec = crate::text::subvec(line, a + 1, b - 1);
                    proof {
                        assert(tv[0] == line@[a as int]);
                        assert(tv.last() == line@[(b - 1) as int]);
                        assert(quote_shaped(tv));
                        assert(tvec@ =~= tv.subrange(1, tv.len() - 1));
                    }
                    IniTypes::Text(crate::text::chars_to_string(&tvec))
                } else {
                    proof {
                        if tv.len() >= 2 {
                            assert(tv[0] == line@[a as int]);
                            assert(tv.last() == line@[(b - 1) as int]);
                        }
                        assert(!quote_shaped(tv));
                    }
                    let cleaned = remove_ws_exec(line, a, b);
                    proof {
                        assert(line@.subrange(a as int, b as int) =~= tv);
                    }
                    infer_exec(cleaned)
                };
                match &cur {
                    Option::None => {
                        return Err(IniError::NoCurrentSection);
                    },
                    Option::Some(name) => {
                        let name_ref: &String = name;
                        ini.upsert_key(name_ref.as_str(), key_str.as_str(), value);
                    },
                }
            }
            // lines with no `=` or several are ignored
        }
        i = i + 1;
    }
    proof {
        assert(all.subrange(n as int, n as int) =~= Seq::<Seq<char>>::empty());
        lemma_parse_wf(text@);
    }
    Ok(ini)
}

/// The text of one value: text quoted, the rest in its natural form.
pub open spec fn render_value(v: ValueModel) -> Seq<char> {
    match v {
        ValueModel::Text(t) => seq!['"'] + t + seq!['"'],
        ValueModel::Integer(i) => crate::lit::render_i64(i),
        ValueModel::Float(t) => t,
        ValueModel::Boolean(b) => if b {
            "true"@
        } else {
            "false"@
        },
    }
}

pub open spec fn render_entry_line(key: Seq<char>, v: ValueModel) -> Seq<char> {
    key + seq![' ', '=', ' '] + render_value(v)
}

pub open spec fn header_line(name: Seq<char>) -> Seq<char> {
    seq!['['] + name + seq![']']
}

pub open spec fn entry_lines(entries: EntriesModel) -> Seq<Seq<char>> {
    Seq::new(entries.len(), |i: int| render_entry_line(entries[i].0, entries[i].1))
}

/// A section's lines: its header, its entries, one blank line.
pub open spec fn render_section_lines(s: SectionModel) -> Seq<Seq<char>> {
    seq![header_line(s.name)] + entry_lines(s.entries) + seq![Seq::<char>::empty()]
}

pub open spec fn render_lines(secs: Seq<SectionModel>) -> Seq<Seq<char>>
    decreases secs.len(),
{
    if secs.len() == 0 {
        Seq::empty()
    } else {
        render_section_lines(secs[0]) + render_lines(secs.drop_first())
    }
}

/// The lines joined, each closed by one line break.
pub open spec fn join_lines(lines: Seq<Seq<char>>) -> Seq<char>
    decreases lines.len(),
{
    if lines.len() == 0 {
        Seq::empty()
    } else {
        lines[0] + seq!['\n'] + join_lines(lines.drop_first())
    }
}

/// What serializing a store yields.
pub open spec fn spec_render(secs: Seq<SectionModel>) -> Seq<char> {
    join_lines(render_lines(secs))
}

pub proof fn lemma_join_snoc(lines: Seq<Seq<char>>, l: Seq<char>)
    ensures
        join_lines(lines.push(l)) == join_lines(lines) + l + seq!['\n'],
    decreases lines.len(),
{
    if lines.len() == 0 {
        assert(lines.push(l)[0] == l);
        assert(lines.push(l).drop_first() =~= Seq::<Seq<char>>::empty());
        assert(join_lines(lines.push(l)) == lines.push(l)[0] + seq!['\n'] + join_lines(
            lines.push(l).drop_first(),
        ));
        assert(join_lines(Seq::<Seq<char>>::empty()) == Seq::<char>::empty());
        assert(join_lines(lines.push(l)) =~= join_lines(lines) + l + seq!['\n']);
    } else {
        assert(lines.push(l).drop_first() =~= lines.drop_first().push(l));
        lemma_join_snoc(lines.drop_first(), l);
        assert(lines.push(l)[0] == lines[0]);
        assert(join_lines(lines.push(l)) == lines.push(l)[0] + seq!['\n'] + join_lines(
            lines.push(l).drop_first(),
        ));
        assert(join_lines(lines.push(l)) =~= join_lines(lines) + l + seq!['\n']);
    }
}

pub proof fn lemma_render_lines_snoc(secs: Seq<SectionModel>, x: SectionModel)
    ensures
        render_lines(secs.push(x)) == render_lines(secs) + render_section_lines(x),
    decreases secs.len(),
{
    if secs.len() == 0 {
        assert(secs.push(x)[0] == x);
        assert(secs.push(x).drop_first() =~= Seq::<SectionModel>::empty());
        assert(render_lines(secs.push(x)) == render_section_lines(secs.push(x)[0]) + render_lines(
            secs.push(x).drop_first(),
        ));
        assert(render_lines(Seq::<SectionModel>::empty()) == Seq::<Seq<char>>::empty());
        assert(render_lines(secs.push(x)) =~= render_lines(secs) + render_section_lines(x));
    } else {
        assert(secs.push(x).drop_first() =~= secs.drop_first().push(x));
        lemma_render_lines_snoc(secs.drop_first(), x);
        assert(secs.push(x)[0] == secs[0]);
        assert(render_lines(secs.push(x)) == render_section_lines(secs.push(x)[0]) + render_lines(
            secs.push(x).drop_first(),
        ));
        assert(render_lines(secs.push(x)) =~= render_lines(secs) + render_section_lines(x));
    }
}

/// The text of one value.
fn render_value_exec(v: &IniTypes) -> (r: String)
    ensures
        r@ == render_value(v@),
{
    match v {
        IniTypes::Text(t) => {
            let mut s = String::new();
            crate::text::push_char(&mut s, '"');
            s.append(t.as_str());
            crate::text::push_char(&mut s, '"');
            proof {
                assert(s@ =~= seq!['"'] + t@ + seq!['"']);
            }
            s
        },
        IniTypes::Integer(i) => crate::lit::i64_to_string(*i),
        IniTypes::Float(t) => t.clone(),
        IniTypes::Boolean(b) => {
            if *b {
                String::from_str("true")
            } else {
                String::from_str("false")
            }
        },
    }
}

/// Serializes the whole store: for every section its header line, one
/// `key = value` line per entry, then a blank line.
pub fn write_ini(ini: &Ini) -> (r: String)
    ensures
        r@ == spec_render(ini@),
{
    let mut s = String::new();
    let ghost mut glines: Seq<Seq<char>> = Seq::empty();
    let n = ini.sections.len();
    let mut i: usize = 0;
    proof {
        assert(ini@.subrange(0, 0) =~= Seq::<SectionModel>::empty());
    }
    while i < n
        invariant
            i <= n,
            n == ini.sections@.len(),
            n == ini@.len(),
            s@ == join_lines(glines),
            glines == render_lines(ini@.subrange(0, i as int)),
        decreases n - i,
    {
        let sec = &ini.sections[i];
        let ghost sm = ini@[i as int];
        proof {
            assert(sm == sec@);
        }
        crate::text::push_char(&mut s, '[');
        s.append(sec.name.as_str());
        crate::text::push_char(&mut s, ']');
        crate::text::push_char(&mut s, '\n');
        proof {
            lemma_join_snoc(glines, header_line(sm.name));
            assert(s@ =~= join_lines(glines) + header_line(sm.name) + seq!['\n']);
            glines = glines.push(header_line(sm.name));
        }
        let m = sec.keys.len();
        let mut k: usize = 0;
        proof {
            assert(entry_lines(sm.entries.subrange(0, 0)) =~= Seq::<Seq<char>>::empty());
            assert(glines =~= render_lines(ini@.subrange(0, i as int)) + seq![
                header_line(sm.name),
            ] + entry_lines(sm.entries.subrange(0, 0)));
        }
        while k < m
            invariant
                k <= m,
                i < n,
                n == ini.sections@.len(),
                n == ini@.len(),
                m == sec.keys@.len(),
                sec == &ini.sections[i as int],
                sm == sec@,
                m == sm.entries.len(),
                s@ == join_lines(glines),
                glines == render_lines(ini@.subrange(0, i as int)) + seq![header_line(sm.name)]
                    + entry_lines(sm.entries.subrange(0, k as int)),
            decreases m - k,
        {
            let ghost entry = sm.entries[k as int];
            s.append(sec.keys[k].0.as_str());
            crate::text::push_char(&mut s, ' ');
            crate::text::push_char(&mut s, '=');
            crate::text::push_char(&mut s, ' ');
            let vs = render_value_exec(&sec.keys[k].1);
            s.append(vs.as_str());
            crate::text::push_char(&mut s, '\n');
            proof {
                assert(entry.0 == sec.keys@[k as int].0@);
                assert(entry.1 == sec.keys@[k as int].1@);
                lemma_join_snoc(glines, render_entry_line(entry.0, entry.1));
                assert(s@ =~= join_lines(glines) + render_entry_line(entry.0, entry.1) + seq![
                    '\n',
                ]);
                glines = glines.push(render_entry_line(entry.0, entry.1));
                assert(entry_lines(sm.entries.subrange(0, (k + 1) as int)) =~= entry_lines(
                    sm.entries.subrange(0, k as int),
                ).push(render_entry_line(entry.0, entry.1)));
                assert(glines =~= render_lines(ini@.subrange(0, i as int)) + seq![
                    header_line(sm.name),
                ] + entry_lines(sm.entries.subrange(0, (k + 1) as int)));
            }
            k = k + 1;
        }
        crate::text::push_char(&mut s, '\n');
        proof {
            lemma_join_snoc(glines, Seq::<char>::empty());
            assert(s@ =~= join_lines(glines) + Seq::<char>::empty() + seq!['\n']);
            glines = glines.push(Seq::<char>::empty());
            assert(sm.entries.subrange(0, m as int) =~= sm.entries);
            assert(glines =~= render_lines(ini@.subrange(0, i as int))
                + render_section_lines(sm));
            lemma_render_lines_snoc(ini@.subrange(0, i as int), sm);
            assert(ini@.subrange(0, i as int).push(sm) =~= ini@.subrange(0, (i + 1) as int));
        }
        i = i + 1;
    }
    proof {
        assert(ini@.subrange(0, n as int) =~= ini@);
    }
    s
}

/// Parses a file text and reads one field of it.
pub fn read_ini_field(text: &str, section: &str, key: &str) -> (r: IniResult<IniTypes>)
    ensures
        ({
            match spec_parse(text@) {
                Ok(secs) => match sec_lookup(secs, section@) {
                    Some(sm) => match lookup(sm.entries, key@) {
                        Some(v) => r matches Ok(x) && x@ == v,
                        None => r == IniResult::<IniTypes>::Err(IniError::MissingKey),
                    },
                    None => r == IniResult::<IniTypes>::Err(IniError::MissingSection),
                },
                Err(e) => r == IniResult::<IniTypes>::Err(e),
            }
        }),
{
    let ini = match read_ini(text) {
        Ok(ini) => ini,
        Err(e) => {
            return Err(e);
        },
    };
    match ini.get(section) {
        None => Err(IniError::MissingSection),
        Some(sec) => match sec.get(key) {
            None => Err(IniError::MissingKey),
            Some(v) => Ok(v.dup()),
        },
    }
}

} // verus!
