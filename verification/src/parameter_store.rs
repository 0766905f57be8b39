//! The parameter data model: typed values keyed by hierarchical paths,
//! grouped into collections under a common path prefix.

use vstd::prelude::*;

verus! {

/// The closed set of type tags a parameter can carry.  The tag determines
/// how the remote store treats the value (for example, whether it is
/// transparently decrypted on read); it carries no payload of its own.
#[derive(Clone, Copy, Debug, PartialEq, Eq, Structural)]
pub enum ParameterType {
    PlainText,
    Encrypted,
    List,
}

impl ParameterType {
    /// The textual tag this variant serializes to.
    pub open spec fn tag_spec(self) -> Seq<char> {
        match self {
            ParameterType::PlainText => "String"@,
            ParameterType::Encrypted => "SecureString"@,
            ParameterType::List => "StringList"@,
        }
    }

    /// The serialization mapping table, variant to tag.
    pub fn tag(&self) -> (s: &'static str)
        ensures
            s@ == self.tag_spec(),
    {
        match self {
            ParameterType::PlainText => "String",
            ParameterType::Encrypted => "SecureString",
            ParameterType::List => "StringList",
        }
    }

    /// The inverse of the mapping table: a textual tag names at most one
    /// variant, and an unrecognized tag is rejected.
    pub fn from_str(s: &str) -> (r: Result<ParameterType, ParameterError>)
        ensures
            is_valid_tag(s@) <==> r is Ok,
            r matches Ok(t) ==> t.tag_spec() == s@,
            r matches Err(e) ==> e@ == ParameterErrorModel::InvalidParameterType(s@),
    {
        if str_eq(s, "String") {
            Ok(ParameterType::PlainText)
        } else if str_eq(s, "SecureString") {
            Ok(ParameterType::Encrypted)
        } else if str_eq(s, "StringList") {
            Ok(ParameterType::List)
        } else {
            Err(ParameterError::InvalidParameterType(clone_str(s)))
        }
    }
}

/// Whether a character sequence is one of the three recognized type tags.
pub open spec fn is_valid_tag(s: Seq<char>) -> bool {
    s == "String"@ || s == "SecureString"@ || s == "StringList"@
}

/// No two variants serialize to the same tag.
pub proof fn lemma_tag_injective(a: ParameterType, b: ParameterType)
    requires
        a.tag_spec() == b.tag_spec(),
    ensures
        a == b,
{
    reveal_strlit("String");
    reveal_strlit("SecureString");
    reveal_strlit("StringList");
    assert("String"@.len() == 6);
    assert("SecureString"@.len() == 12);
    assert("StringList"@.len() == 10);
}

/// Character-by-character string comparison, so that equality of `&str`
/// values carries its mathematical meaning.
pub fn str_eq(a: &str, b: &str) -> (r: bool)
    ensures
        r <==> a@ == b@,
{
    let a_len = a.unicode_len();
    let b_len = b.unicode_len();
    if a_len != b_len {
        return false;
    }
    let mut i: usize = 0;
    while i < a_len
        invariant
            0 <= i <= a_len,
            a_len == a@.len(),
            a_len == b@.len(),
            forall|j: int| 0 <= j < i ==> a@[j] == b@[j],
        decreases a_len - i,
    {
        if a.get_char(i) != b.get_char(i) {
            return false;
        }
        i = i + 1;
    }
    proof {
        assert(a@ =~= b@);
    }
    true
}

/// An owned copy of a string slice.
pub fn clone_str(s: &str) -> (r: String)
    ensures
        r@ == s@,
{
    String::from_str(s)
}

/// Mathematical model of a parameter: its value and its type tag.
pub ghost struct ParamModel {
    pub value: Seq<char>,
    pub ty: ParameterType,
}

/// Mathematical model of the error taxonomy, payloads as character
/// sequences.
pub ghost enum ParameterErrorModel {
    InvalidParameterType(Seq<char>),
    InvalidPathPrefix(Seq<char>),
    NonexistentKey(Seq<char>),
    PrefixMismatch(Seq<char>),
}

/// A fatal condition raised by the data-model operations.  Every variant
/// aborts the whole requested operation; none is recoverable by retrying.
#[derive(Debug)]
pub enum ParameterError {
    /// An unrecognized type tag was encountered; carries the malformed input.
    InvalidParameterType(String),
    /// A destination prefix failed validation; carries the reason.
    InvalidPathPrefix(String),
    /// An edited key has no corresponding original; carries the key.
    NonexistentKey(String),
    /// A key of a collection does not start with the collection's own
    /// prefix, so the collection is internally inconsistent; carries the key.
    PrefixMismatch(String),
}

impl View for ParameterError {
    type V = ParameterErrorModel;

    open spec fn view(&self) -> ParameterErrorModel {
        match self {
            ParameterError::InvalidParameterType(s) => ParameterErrorModel::InvalidParameterType(
                s@,
            ),
            ParameterError::InvalidPathPrefix(s) => ParameterErrorModel::InvalidPathPrefix(s@),
            ParameterError::NonexistentKey(s) => ParameterErrorModel::NonexistentKey(s@),
            ParameterError::PrefixMismatch(s) => ParameterErrorModel::PrefixMismatch(s@),
        }
    }
}

/// The human-readable description of a failure.
pub open spec fn message_spec(m: ParameterErrorModel) -> Seq<char> {
    match m {
        ParameterErrorModel::InvalidParameterType(s) => "invalid parameter store parameter type: "@
            + s,
        ParameterErrorModel::InvalidPathPrefix(d) => "invalid path prefix: "@ + d,
        ParameterErrorModel::NonexistentKey(k) => "key "@ + k
            + " not found in list of parameters.  Use `create` command to add new parameters."@,
        ParameterErrorModel::PrefixMismatch(k) => "key "@ + k
            + " does not begin with the collection's prefix"@,
    }
}

impl ParameterError {
    /// The human-readable description of the failure.
    pub fn message(&self) -> (r: String)
        ensures
            r@ == message_spec(self@),
    {
        match self {
            ParameterError::InvalidParameterType(s) => {
                let mut m = String::from_str("invalid parameter store parameter type: ");
                m.append(s.as_str());
                m
            },
            ParameterError::InvalidPathPrefix(d) => {
                let mut m = String::from_str("invalid path prefix: ");
                m.append(d.as_str());
                m
            },
            ParameterError::NonexistentKey(k) => {
                let mut m = String::from_str("key ");
                m.append(k.as_str());
                m.append(
                    " not found in list of parameters.  Use `create` command to add new parameters.",
                );
                m
            },
            ParameterError::PrefixMismatch(k) => {
                let mut m = String::from_str("key ");
                m.append(k.as_str());
                m.append(" does not begin with the collection's prefix");
                m
            },
        }
    }
}

/// A single named value with a type tag.  Immutable once constructed: a
/// changed parameter is represented by replacing the whole entry.
#[derive(Debug)]
pub struct Parameter {
    parameter_value: String,
    parameter_type: ParameterType,
}

impl View for Parameter {
    type V = ParamModel;

    closed spec fn view(&self) -> ParamModel {
        ParamModel { value: self.parameter_value@, ty: self.parameter_type }
    }
}

impl Clone for Parameter {
    fn clone(&self) -> (r: Parameter)
        ensures
            r@ == self@,
    {
        Parameter {
            parameter_value: self.parameter_value.clone(),
            parameter_type: self.parameter_type,
        }
    }
}

impl PartialEq for Parameter {
    fn eq(&self, other: &Parameter) -> (r: bool) {
        str_eq(self.parameter_value.as_str(), other.parameter_value.as_str())
            && self.parameter_type == other.parameter_type
    }
}

impl vstd::std_specs::cmp::PartialEqSpecImpl for Parameter {
    open spec fn obeys_eq_spec() -> bool {
        true
    }

    open spec fn eq_spec(&self, other: &Parameter) -> bool {
        self@ == other@
    }
}

impl Parameter {
    /// Builds a parameter from a value and a textual type tag.  The tag must
    /// be one of the recognized ones; callers validate it first.
    pub fn new(parameter_value: String, parameter_type: String) -> (r: Parameter)
        requires
            is_valid_tag(parameter_type@),
        ensures
            r@.value == parameter_value@,
            r@.ty.tag_spec() == parameter_type@,
    {
        match ParameterType::from_str(parameter_type.as_str()) {
            Ok(t) => Parameter { parameter_value, parameter_type: t },
            Err(_) => vstd::pervasive::unreached(),
        }
    }

    /// Builds a parameter from a value and an already-resolved type.
    pub fn with_type(parameter_value: String, parameter_type: ParameterType) -> (r: Parameter)
        ensures
            r@.value == parameter_value@,
            r@.ty == parameter_type,
    {
        Parameter { parameter_value, parameter_type }
    }

    /// The parameter's value.
    pub fn value(&self) -> (r: &String)
        ensures
            r@ == self@.value,
    {
        &self.parameter_value
    }

    /// The parameter's type tag.
    pub fn parameter_type(&self) -> (r: ParameterType)
        ensures
            r == self@.ty,
    {
        self.parameter_type
    }
}

/// The model of an entry list: keys paired with parameter models, in
/// insertion order.
pub type EntrySeq = Seq<(Seq<char>, ParamModel)>;

/// The view of an executable entry list.
pub open spec fn entries_view(v: Seq<(String, Parameter)>) -> EntrySeq {
    v.map_values(|e: (String, Parameter)| (e.0@, e.1@))
}

/// No two entries share a key.
pub open spec fn unique_keys(entries: EntrySeq) -> bool {
    forall|i: int, j: int| 0 <= i < j < entries.len() ==> entries[i].0 != entries[j].0
}

/// Whether some entry carries the key `k`.
pub open spec fn has_key(entries: EntrySeq, k: Seq<char>) -> bool {
    exists|i: int| 0 <= i < entries.len() && entries[i].0 == k
}

/// The index of the first entry carrying `k`, or -1 when there is none.
pub open spec fn index_of_key(entries: EntrySeq, k: Seq<char>) -> int
    decreases entries.len(),
{
    if entries.len() == 0 {
        -1
    } else if entries[0].0 == k {
        0
    } else {
        let r = index_of_key(entries.skip(1), k);
        if r < 0 {
            -1
        } else {
            r + 1
        }
    }
}

/// Insertion with map semantics: an existing key keeps its position and
/// receives the new parameter (so on key collisions the last write wins);
/// a fresh key is appended.
pub open spec fn insert_entry(entries: EntrySeq, k: Seq<char>, v: ParamModel) -> EntrySeq {
    let i = index_of_key(entries, k);
    if i < 0 {
        entries.push((k, v))
    } else {
        entries.update(i, (k, v))
    }
}

/// The mapping an entry list denotes; on duplicate keys the last entry
/// wins.
pub open spec fn entries_map(entries: EntrySeq) -> Map<Seq<char>, ParamModel>
    decreases entries.len(),
{
    if entries.len() == 0 {
        Map::empty()
    } else {
        entries_map(entries.drop_last()).insert(entries.last().0, entries.last().1)
    }
}

/// `index_of_key` finds exactly the first entry with the key, and finds
/// one if and only if the key is present.
pub proof fn lemma_index_of_key(entries: EntrySeq, k: Seq<char>)
    ensures
        has_key(entries, k) <==> index_of_key(entries, k) >= 0,
        index_of_key(entries, k) >= 0 ==> {
            let i = index_of_key(entries, k);
            &&& i < entries.len()
            &&& entries[i].0 == k
            &&& forall|j: int| 0 <= j < i ==> entries[j].0 != k
        },
        !has_key(entries, k) ==> forall|j: int|
            0 <= j < entries.len() ==> entries[j].0 != k,
    decreases entries.len(),
{
    if entries.len() == 0 {
    } else if entries[0].0 == k {
    } else {
        lemma_index_of_key(entries.skip(1), k);
        let rest = entries.skip(1);
        assert(forall|j: int| 0 <= j < rest.len() ==> rest[j] == entries[j + 1]);
        if has_key(entries, k) {
            let i = choose|i: int| 0 <= i < entries.len() && entries[i].0 == k;
            assert(rest[i - 1] == entries[i]);
            assert(has_key(rest, k));
        }
        let r = index_of_key(rest, k);
        if r >= 0 {
            assert(entries[r + 1].0 == k);
            assert(has_key(entries, k));
            assert forall|j: int| 0 <= j < r + 1 implies entries[j].0 != k by {
                if j > 0 {
                    assert(rest[j - 1].0 != k);
                }
            }
        } else {
            if has_key(entries, k) {
                assert(false);
            }
        }
    }
}

/// The mapping contains a key exactly when some entry carries it.
pub proof fn lemma_entries_map_has_key(entries: EntrySeq, k: Seq<char>)
    ensures
        entries_map(entries).contains_key(k) <==> has_key(entries, k),
    decreases entries.len(),
{
    if entries.len() == 0 {
    } else {
        lemma_entries_map_has_key(entries.drop_last(), k);
        if entries.last().0 == k {
            assert(entries[entries.len() - 1].0 == k);
        } else if has_key(entries, k) {
            let i = choose|i: int| 0 <= i < entries.len() && entries[i].0 == k;
            assert(entries.drop_last()[i] == entries[i]);
        } else {
            if has_key(entries.drop_last(), k) {
                let i = choose|i: int|
                    0 <= i < entries.drop_last().len() && entries.drop_last()[i].0 == k;
                assert(entries[i].0 == k);
            }
        }
    }
}

/// With unique keys, each entry is exactly the mapping's value at its key.
pub proof fn lemma_entries_map_index(entries: EntrySeq, i: int)
    requires
        unique_keys(entries),
        0 <= i < entries.len(),
    ensures
        entries_map(entries).contains_key(entries[i].0),
        entries_map(entries)[entries[i].0] == entries[i].1,
    decreases entries.len(),
{
    if i == entries.len() - 1 {
    } else {
        assert(entries.drop_last()[i] == entries[i]);
        lemma_entries_map_index(entries.drop_last(), i);
        assert(entries.last().0 != entries[i].0);
    }
}

/// Mathematical model of a collection: a path prefix and the entry list.
#[verifier::ext_equal]
pub ghost struct CollectionModel {
    pub prefix: Seq<char>,
    pub entries: EntrySeq,
}

impl CollectionModel {
    /// The mapping the collection denotes.
    pub open spec fn as_map(self) -> Map<Seq<char>, ParamModel> {
        entries_map(self.entries)
    }

    /// Well-formed: keys are unique.
    pub open spec fn wf(self) -> bool {
        unique_keys(self.entries)
    }
}

/// A set of keyed entries under a common path prefix.  It is never mutated
/// after construction by the engines in this crate: transformations always
/// yield a new collection.
#[derive(Debug)]
pub struct ParameterCollection {
    prefix: String,
    parameters: Vec<(String, Parameter)>,
}

impl View for ParameterCollection {
    type V = CollectionModel;

    closed spec fn view(&self) -> CollectionModel {
        CollectionModel { prefix: self.prefix@, entries: entries_view(self.parameters@) }
    }
}

impl Clone for ParameterCollection {
    fn clone(&self) -> (r: ParameterCollection)
        ensures
            r@ == self@,
    {
        let mut parameters: Vec<(String, Parameter)> = Vec::new();
        let mut i: usize = 0;
        while i < self.parameters.len()
            invariant
                0 <= i <= self.parameters.len(),
                entries_view(parameters@) == entries_view(self.parameters@).take(i as int),
            decreases self.parameters.len() - i,
        {
            let e = &self.parameters[i];
            let k = e.0.clone();
            let p = e.1.clone();
            proof {
                assert(k@ == self.parameters@[i as int].0@);
                assert(p@ == self.parameters@[i as int].1@);
            }
            let ghost before = parameters@;
            parameters.push((k, p));
            proof {
                assert(entries_view(before).len() == before.len());
                assert(before.len() == i);
                let lhs = entries_view(parameters@);
                let rhs = entries_view(self.parameters@).take(i + 1);
                assert(lhs.len() == i + 1);
                assert(rhs.len() == i + 1);
                assert(forall|j: int| 0 <= j < lhs.len() ==> lhs[j] == rhs[j]);
                assert(lhs =~= rhs);
            }
            i = i + 1;
        }
        proof {
            assert(entries_view(self.parameters@).take(self.parameters@.len() as int)
                =~= entries_view(self.parameters@));
        }
        ParameterCollection { prefix: self.prefix.clone(), parameters }
    }
}

impl ParameterCollection {
    /// Well-formed: keys are unique.
    pub open spec fn wf(&self) -> bool {
        self@.wf()
    }

    /// An empty collection under the given prefix.
    pub fn new(prefix: String) -> (r: ParameterCollection)
        ensures
            r@.prefix == prefix@,
            r@.entries == Seq::<(Seq<char>, ParamModel)>::empty(),
            r.wf(),
    {
        let r = ParameterCollection { prefix, parameters: Vec::new() };
        proof {
            assert(r@.entries =~= Seq::<(Seq<char>, ParamModel)>::empty());
        }
        r
    }

    /// The collection's path prefix.
    pub fn prefix(&self) -> (r: &String)
        ensures
            r@ == self@.prefix,
    {
        &self.prefix
    }

    /// The entries, keys paired with parameters, in insertion order.
    pub fn parameters(&self) -> (r: &Vec<(String, Parameter)>)
        ensures
            entries_view(r@) == self@.entries,
    {
        &self.parameters
    }

    /// Inserts with map semantics: an existing key is overwritten in place,
    /// a fresh key is appended.  Uniqueness of keys is preserved.
    pub fn insert(&mut self, key: String, param: Parameter)
        ensures
            final(self)@.prefix == old(self)@.prefix,
            final(self)@.entries == insert_entry(old(self)@.entries, key@, param@),
            old(self).wf() ==> final(self).wf(),
    {
        let ghost entries = old(self)@.entries;
        let mut i: usize = 0;
        while i < self.parameters.len()
            invariant
                0 <= i <= self.parameters.len(),
                *self == *old(self),
                entries == entries_view(self.parameters@),
                forall|j: int| 0 <= j < i ==> entries[j].0 != key@,
            decreases self.parameters.len() - i,
        {
            if self.parameters[i].0 == key {
                proof {
                    lemma_index_of_key(entries, key@);
                    assert(entries[i as int].0 == key@);
                    assert(has_key(entries, key@));
                    let iok = index_of_key(entries, key@);
                    if iok < i as int {
                        assert(entries[iok].0 != key@);
                    }
                    if iok > i as int {
                        assert(entries[i as int].0 != key@);
                    }
                    assert(iok == i as int);
                }
                self.parameters.set(i, (key, param));
                proof {
                    assert(final(self)@.entries =~= insert_entry(entries, key@, param@));
                    if unique_keys(entries) {
                        lemma_insert_preserves_unique(entries, key@, param@);
                    }
                }
                return;
            }
            i = i + 1;
        }
        proof {
            lemma_index_of_key(entries, key@);
            assert(!has_key(entries, key@));
        }
        self.parameters.push((key, param));
        proof {
            assert(final(self)@.entries =~= insert_entry(entries, key@, param@));
            if unique_keys(entries) {
                lemma_insert_preserves_unique(entries, key@, param@);
            }
        }
    }

    /// Looks a key up in the collection's mapping.
    pub fn get(&self, key: &str) -> (r: Option<&Parameter>)
        requires
            self.wf(),
        ensures
            match r {
                Some(p) => self@.as_map().contains_key(key@) && p@ == self@.as_map()[key@],
                None => !self@.as_map().contains_key(key@),
            },
    {
        let mut i: usize = 0;
        while i < self.parameters.len()
            invariant
                0 <= i <= self.parameters.len(),
                self.wf(),
                forall|j: int| 0 <= j < i ==> self@.entries[j].0 != key@,
            decreases self.parameters.len() - i,
        {
            if str_eq(self.parameters[i].0.as_str(), key) {
                proof {
                    assert(self@.entries[i as int].0 == key@);
                    lemma_entries_map_index(self@.entries, i as int);
                }
                return Some(&self.parameters[i].1);
            }
            i = i + 1;
        }
        proof {
            lemma_entries_map_has_key(self@.entries, key@);
        }
        None
    }
}

impl PartialEq for ParameterCollection {
    fn eq(&self, other: &ParameterCollection) -> (r: bool) {
        if !str_eq(self.prefix.as_str(), other.prefix.as_str()) {
            return false;
        }
        if self.parameters.len() != other.parameters.len() {
            proof {
                assert(self@.entries.len() == self.parameters@.len());
                assert(other@.entries.len() == other.parameters@.len());
            }
            return false;
        }
        let mut i: usize = 0;
        while i < self.parameters.len()
            invariant
                0 <= i <= self.parameters.len(),
                self.parameters@.len() == other.parameters@.len(),
                forall|j: int| 0 <= j < i ==> self@.entries[j] == other@.entries[j],
            decreases self.parameters.len() - i,
        {
            let a = &self.parameters[i];
            let b = &other.parameters[i];
            if !str_eq(a.0.as_str(), b.0.as_str()) {
                proof {
                    assert(self@.entries[i as int].0 != other@.entries[i as int].0);
                }
                return false;
            }
            if !(a.1 == b.1) {
                proof {
                    assert(self@.entries[i as int].1 != other@.entries[i as int].1);
                }
                return false;
            }
            i = i + 1;
        }
        proof {
            assert(self@.entries =~= other@.entries);
            assert(self@ =~= other@);
        }
        true
    }
}

impl vstd::std_specs::cmp::PartialEqSpecImpl for ParameterCollection {
    open spec fn obeys_eq_spec() -> bool {
        true
    }

    open spec fn eq_spec(&self, other: &ParameterCollection) -> bool {
        self@ == other@
    }
}

/// Inserting preserves uniqueness of keys.
pub proof fn lemma_insert_preserves_unique(entries: EntrySeq, k: Seq<char>, v: ParamModel)
    requires
        unique_keys(entries),
    ensures
        unique_keys(insert_entry(entries, k, v)),
{
    lemma_index_of_key(entries, k);
    let r = insert_entry(entries, k, v);
    if index_of_key(entries, k) < 0 {
        assert forall|i: int, j: int| 0 <= i < j < r.len() implies r[i].0 != r[j].0 by {
            if j < entries.len() {
            } else {
                assert(r[j].0 == k);
                assert(entries[i].0 != k);
            }
        }
    }
}

/// A character that may open the first path segment after the leading
/// slash: alphanumeric or one of `_`, `.`, `-`.
pub open spec fn is_segment_start_char(c: char) -> bool {
    ('a' <= c && c <= 'z') || ('A' <= c && c <= 'Z') || ('0' <= c && c <= '9') || c == '_' || c
        == '.' || c == '-'
}

/// The path begins with a slash followed by a segment-start character.
pub open spec fn path_starts_ok(s: Seq<char>) -> bool {
    s.len() >= 2 && s[0] == '/' && is_segment_start_char(s[1])
}

/// The path ends with a slash.
pub open spec fn path_has_trailing_slash(s: Seq<char>) -> bool {
    s.len() >= 1 && s[s.len() - 1] == '/'
}

/// A structurally acceptable destination prefix.
pub open spec fn path_ok(s: Seq<char>) -> bool {
    path_starts_ok(s) && !path_has_trailing_slash(s)
}

/// Whether `c` may open the first path segment after the leading slash.
fn is_segment_start(c: char) -> (r: bool)
    ensures
        r == is_segment_start_char(c),
{
    ('a' <= c && c <= 'z') || ('A' <= c && c <= 'Z') || ('0' <= c && c <= '9') || c == '_' || c
        == '.' || c == '-'
}

/// Validates a candidate destination prefix: it must begin with a slash
/// followed by a segment-start character, and must not end with a slash.
/// Invoked before any remote mutation is attempted for a migration, so a
/// malformed destination aborts before any write.  No side effects.
pub fn check_path(parameter_path: &str) -> (r: Result<(), ParameterError>)
    ensures
        r is Ok <==> path_ok(parameter_path@),
        r matches Err(e) ==> e@ == ParameterErrorModel::InvalidPathPrefix(
            if !path_starts_ok(parameter_path@) {
                "must begin with slash"@
            } else {
                "must not have a trailing slash"@
            },
        ),
{
    let len = parameter_path.unicode_len();
    let starts_ok = if len < 2 {
        false
    } else {
        parameter_path.get_char(0) == '/' && is_segment_start(parameter_path.get_char(1))
    };
    if !starts_ok {
        return Err(
            ParameterError::InvalidPathPrefix(String::from_str("must begin with slash")),
        );
    }
    if parameter_path.get_char(len - 1) == '/' {
        return Err(
            ParameterError::InvalidPathPrefix(
                String::from_str("must not have a trailing slash"),
            ),
        );
    }
    Ok(())
}

/// `s` begins with `p`.
pub open spec fn starts_with(s: Seq<char>, p: Seq<char>) -> bool {
    p.len() <= s.len() && s.take(p.len() as int) == p
}

/// Every key of the entry list begins with `p`.
pub open spec fn entries_start_with(entries: EntrySeq, p: Seq<char>) -> bool {
    forall|i: int| 0 <= i < entries.len() ==> starts_with(#[trigger] entries[i].0, p)
}

/// Character-by-character prefix test.
pub fn str_starts_with(s: &str, p: &str) -> (r: bool)
    ensures
        r == starts_with(s@, p@),
{
    let s_len = s.unicode_len();
    let p_len = p.unicode_len();
    if p_len > s_len {
        return false;
    }
    let mut i: usize = 0;
    while i < p_len
        invariant
            0 <= i <= p_len,
            p_len == p@.len(),
            p_len <= s@.len(),
            forall|j: int| 0 <= j < i ==> s@[j] == p@[j],
        decreases p_len - i,
    {
        if s.get_char(i) != p.get_char(i) {
            proof {
                assert(s@.take(p@.len() as int)[i as int] == s@[i as int]);
            }
            return false;
        }
        i = i + 1;
    }
    proof {
        assert(s@.take(p@.len() as int) =~= p@);
    }
    true
}

/// The rewritten key: the destination prefix followed by the key with the
/// source prefix stripped.
pub open spec fn reroot_key(key: Seq<char>, p: Seq<char>, d: Seq<char>) -> Seq<char> {
    d + key.skip(p.len() as int)
}

/// The entry list a reroot produces: every key rewritten, in source order,
/// inserted with map semantics (so if two rewritten keys coincide, the
/// later entry wins).
pub open spec fn reroot_entries(entries: EntrySeq, p: Seq<char>, d: Seq<char>) -> EntrySeq
    decreases entries.len(),
{
    if entries.len() == 0 {
        Seq::empty()
    } else {
        insert_entry(
            reroot_entries(entries.drop_last(), p, d),
            reroot_key(entries.last().0, p, d),
            entries.last().1,
        )
    }
}

/// Rewrites every key of `source` from the source's own prefix to
/// `destination`, producing a new collection with `destination` as its
/// prefix; values and types are copied unchanged.  The destination is
/// validated first, and a key that does not begin with the source's prefix
/// makes the whole operation fail: the collection is then internally
/// inconsistent, and no partial result is produced.
pub fn reroot_parameters(source: ParameterCollection, destination: String) -> (r: Result<
    ParameterCollection,
    ParameterError,
>)
    ensures
        match r {
            Ok(c) => {
                &&& path_ok(destination@)
                &&& entries_start_with(source@.entries, source@.prefix)
                &&& c@.prefix == destination@
                &&& c@.entries == reroot_entries(source@.entries, source@.prefix, destination@)
                &&& c.wf()
            },
            Err(e) => match e@ {
                ParameterErrorModel::InvalidPathPrefix(reason) => !path_ok(destination@)
                    && reason == (if !path_starts_ok(destination@) {
                    "must begin with slash"@
                } else {
                    "must not have a trailing slash"@
                }),
                ParameterErrorModel::PrefixMismatch(k) => path_ok(destination@) && (exists|i: int|
                    0 <= i < source@.entries.len() && source@.entries[i].0 == k && !starts_with(
                        k,
                        source@.prefix,
                    ) && (forall|j: int|
                        0 <= j < i ==> starts_with(
                            #[trigger] source@.entries[j].0,
                            source@.prefix,
                        ))),
                _ => false,
            },
        },
{
    match check_path(destination.as_str()) {
        Err(e) => {
            return Err(e);
        },
        Ok(()) => {},
    }
    let ghost entries = source@.entries;
    let mut result = ParameterCollection::new(destination.clone());
    let mut i: usize = 0;
    while i < source.parameters.len()
        invariant
            0 <= i <= source.parameters@.len(),
            entries == entries_view(source.parameters@),
            entries == source@.entries,
            path_ok(destination@),
            forall|j: int| 0 <= j < i ==> starts_with(#[trigger] entries[j].0, source@.prefix),
            result@.prefix == destination@,
            result@.entries == reroot_entries(entries.take(i as int), source@.prefix, destination@),
            result.wf(),
        decreases source.parameters.len() - i,
    {
        let e = &source.parameters[i];
        if !str_starts_with(e.0.as_str(), source.prefix.as_str()) {
            let bad = e.0.clone();
            proof {
                let gi = i as int;
                assert(0 <= gi < source@.entries.len() && source@.entries[gi].0 == bad@
                    && !starts_with(bad@, source@.prefix) && (forall|j: int|
                    0 <= j < gi ==> starts_with(#[trigger] source@.entries[j].0, source@.prefix)));
            }
            return Err(ParameterError::PrefixMismatch(bad));
        }
        let key_len = e.0.as_str().unicode_len();
        let p_len = source.prefix.as_str().unicode_len();
        let suffix = e.0.as_str().substring_char(p_len, key_len);
        let mut new_key = destination.clone();
        new_key.append(suffix);
        proof {
            assert(suffix@ =~= entries[i as int].0.skip(p_len as int));
            assert(new_key@ == reroot_key(entries[i as int].0, source@.prefix, destination@));
        }
        let param = e.1.clone();
        result.insert(new_key, param);
        proof {
            let t = entries.take(i + 1);
            assert(t.drop_last() =~= entries.take(i as int));
            assert(t.last() == entries[i as int]);
        }
        i = i + 1;
    }
    proof {
        assert(entries.take(entries.len() as int) =~= entries);
    }
    Ok(result)
}

/// The edited entry at `k` differs from the original mapping's value.
pub open spec fn changed_at(
    original: Map<Seq<char>, ParamModel>,
    k: Seq<char>,
    v: ParamModel,
) -> bool {
    original.contains_key(k) && original[k] != v
}

/// The minimal update set: exactly the edited entries whose key exists in
/// the original with a changed value or type, in edited order.
pub open spec fn diff_entries(original: Map<Seq<char>, ParamModel>, entries: EntrySeq) -> EntrySeq
    decreases entries.len(),
{
    if entries.len() == 0 {
        Seq::empty()
    } else {
        let rest = diff_entries(original, entries.drop_last());
        if changed_at(original, entries.last().0, entries.last().1) {
            rest.push(entries.last())
        } else {
            rest
        }
    }
}

/// Every key of the entry list lies in the mapping's domain.
pub open spec fn keys_in_map(entries: EntrySeq, original: Map<Seq<char>, ParamModel>) -> bool {
    forall|i: int| 0 <= i < entries.len() ==> original.contains_key(#[trigger] entries[i].0)
}

/// Computes the minimal, safe set of writes needed to move the remote
/// state from `original` to the user-edited `edited`: exactly the keys
/// present in both whose value or type changed, each mapped to its new
/// desired state.  An edited key absent from the original makes the whole
/// operation fail before any entry is produced, so a typo can never create
/// a key; keys missing from `edited` are not treated as deletions and
/// produce nothing.  Pure computation over the two snapshots.
pub fn diff(original: &ParameterCollection, edited: &ParameterCollection) -> (r: Result<
    Vec<(String, Parameter)>,
    ParameterError,
>)
    requires
        original.wf(),
    ensures
        match r {
            Ok(v) => {
                &&& keys_in_map(edited@.entries, original@.as_map())
                &&& entries_view(v@) == diff_entries(original@.as_map(), edited@.entries)
            },
            Err(e) => match e@ {
                ParameterErrorModel::NonexistentKey(k) => exists|i: int|
                    0 <= i < edited@.entries.len() && edited@.entries[i].0 == k
                        && !original@.as_map().contains_key(k) && (forall|j: int|
                        0 <= j < i ==> original@.as_map().contains_key(
                            #[trigger] edited@.entries[j].0,
                        )),
                _ => false,
            },
        },
{
    let ghost entries = edited@.entries;
    let ghost original_map = original@.as_map();
    let mut updated: Vec<(String, Parameter)> = Vec::new();
    let mut i: usize = 0;
    while i < edited.parameters.len()
        invariant
            0 <= i <= edited.parameters@.len(),
            original.wf(),
            entries == entries_view(edited.parameters@),
            entries == edited@.entries,
            original_map == original@.as_map(),
            forall|j: int| 0 <= j < i ==> original_map.contains_key(#[trigger] entries[j].0),
            entries_view(updated@) == diff_entries(original_map, entries.take(i as int)),
        decreases edited.parameters.len() - i,
    {
        let e = &edited.parameters[i];
        match original.get(e.0.as_str()) {
            None => {
                let missing = e.0.clone();
                proof {
                    let gi = i as int;
                    assert(0 <= gi < entries.len() && entries[gi].0 == missing@
                        && !original_map.contains_key(missing@) && (forall|j: int|
                        0 <= j < gi ==> original_map.contains_key(#[trigger] entries[j].0)));
                }
                return Err(ParameterError::NonexistentKey(missing));
            },
            Some(original_param) => {
                let ghost before = updated@;
                if !(*original_param == e.1) {
                    updated.push((e.0.clone(), e.1.clone()));
                }
                proof {
                    let t = entries.take(i + 1);
                    assert(t.drop_last() =~= entries.take(i as int));
                    assert(t.last() == entries[i as int]);
                    if original_param@ != entries[i as int].1 {
                        assert(entries_view(updated@) =~= entries_view(before).push(
                            (entries[i as int].0, entries[i as int].1),
                        ));
                    }
                }
            },
        }
        i = i + 1;
    }
    proof {
        assert(entries.take(entries.len() as int) =~= entries);
    }
    Ok(updated)
}

/// A raw record as the remote store gateway hands it over: a key, a value
/// (empty when the store carried none), and a textual type tag.
#[derive(Debug)]
pub struct RawParameter {
    pub name: String,
    pub value: String,
    pub type_tag: String,
}

/// The variant a recognized tag denotes; unrecognized tags are mapped
/// arbitrarily and are rejected before this function is consulted.
pub open spec fn type_of_tag(s: Seq<char>) -> ParameterType {
    if s == "SecureString"@ {
        ParameterType::Encrypted
    } else if s == "StringList"@ {
        ParameterType::List
    } else {
        ParameterType::PlainText
    }
}

/// `type_of_tag` inverts the serialization mapping table.
pub proof fn lemma_type_of_tag(t: ParameterType, s: Seq<char>)
    requires
        t.tag_spec() == s,
    ensures
        type_of_tag(s) == t,
{
    lemma_tag_injective(t, type_of_tag(s));
    reveal_strlit("String");
    reveal_strlit("SecureString");
    reveal_strlit("StringList");
    assert("String"@.len() == 6);
    assert("SecureString"@.len() == 12);
    assert("StringList"@.len() == 10);
}

/// The entry list built from raw records, in order, with map semantics on
/// duplicate names.
pub open spec fn raw_entries(raws: Seq<RawParameter>) -> EntrySeq
    decreases raws.len(),
{
    if raws.len() == 0 {
        Seq::empty()
    } else {
        insert_entry(
            raw_entries(raws.drop_last()),
            raws.last().name@,
            ParamModel { value: raws.last().value@, ty: type_of_tag(raws.last().type_tag@) },
        )
    }
}

/// Materializes the snapshot a recursive read-by-prefix returned: the raw
/// records become a collection under the queried prefix.  A record whose
/// type tag is not a recognized one makes the whole snapshot fail with
/// `InvalidParameterType` naming that tag; no partial collection is
/// produced.
pub fn get_parameters_by_path(path_prefix: String, raw_parameters: Vec<RawParameter>) -> (r:
    Result<ParameterCollection, ParameterError>)
    ensures
        match r {
            Ok(c) => {
                &&& forall|i: int|
                    0 <= i < raw_parameters@.len() ==> is_valid_tag(
                        (#[trigger] raw_parameters@[i]).type_tag@,
                    )
                &&& c@.prefix == path_prefix@
                &&& c@.entries == raw_entries(raw_parameters@)
                &&& c.wf()
            },
            Err(e) => match e@ {
                ParameterErrorModel::InvalidParameterType(t) => !is_valid_tag(t) && (exists|i: int|
                    0 <= i < raw_parameters@.len() && (#[trigger] raw_parameters@[i]).type_tag@
                        == t && (forall|j: int|
                        0 <= j < i ==> is_valid_tag((#[trigger] raw_parameters@[j]).type_tag@))),
                _ => false,
            },
        },
{
    let ghost raws = raw_parameters@;
    let ghost gprefix = path_prefix@;
    let mut result = ParameterCollection::new(path_prefix);
    let mut i: usize = 0;
    while i < raw_parameters.len()
        invariant
            0 <= i <= raw_parameters@.len(),
            raws == raw_parameters@,
            forall|k: int| 0 <= k < i ==> is_valid_tag((#[trigger] raws[k]).type_tag@),
            result@.prefix == gprefix,
            result@.entries == raw_entries(raws.take(i as int)),
            result.wf(),
        decreases raw_parameters.len() - i,
    {
        let raw = &raw_parameters[i];
        let ty = match ParameterType::from_str(raw.type_tag.as_str()) {
            Err(e) => {
                proof {
                    let gi = i as int;
                    assert(0 <= gi < raws.len() && raws[gi].type_tag@ == raw.type_tag@
                        && !is_valid_tag(raw.type_tag@) && (forall|j: int|
                        0 <= j < gi ==> is_valid_tag((#[trigger] raws[j]).type_tag@)));
                }
                return Err(e);
            },
            Ok(t) => t,
        };
        proof {
            lemma_type_of_tag(ty, raws[i as int].type_tag@);
        }
        let param = Parameter::with_type(raw.value.clone(), ty);
        result.insert(raw.name.clone(), param);
        proof {
            let t = raws.take(i + 1);
            assert(t.drop_last() =~= raws.take(i as int));
            assert(t.last() == raws[i as int]);
        }
        i = i + 1;
    }
    proof {
        assert(raws.take(raws.len() as int) =~= raws);
    }
    Ok(result)
}

/// Inserting into the entry list is inserting into its mapping.
pub proof fn lemma_insert_entry_map(entries: EntrySeq, k: Seq<char>, v: ParamModel)
    requires
        unique_keys(entries),
    ensures
        entries_map(insert_entry(entries, k, v)) == entries_map(entries).insert(k, v),
    decreases entries.len(),
{
    lemma_index_of_key(entries, k);
    let iok = index_of_key(entries, k);
    let r = insert_entry(entries, k, v);
    if iok < 0 {
        assert(r.drop_last() =~= entries);
    } else {
        let n = entries.len() as int;
        if iok == n - 1 {
            assert(r.drop_last() =~= entries.drop_last());
            assert(entries_map(r) == entries_map(entries.drop_last()).insert(k, v));
            assert(entries_map(entries).insert(k, v) =~= entries_map(entries.drop_last()).insert(
                k,
                v,
            ));
        } else {
            let head = entries.drop_last();
            lemma_index_of_key(head, k);
            let iok2 = index_of_key(head, k);
            assert(head[iok].0 == k);
            assert(has_key(head, k));
            if iok2 < iok {
                assert(entries[iok2].0 != k);
                assert(head[iok2].0 == entries[iok2].0);
            }
            if iok2 > iok {
                assert(head[iok].0 != k);
            }
            assert(iok2 == iok);
            assert(r.drop_last() =~= insert_entry(head, k, v));
            lemma_insert_entry_map(head, k, v);
            assert(entries.last().0 != k);
            assert(r.last() == entries.last());
            assert(entries_map(r) == entries_map(head).insert(k, v).insert(
                entries.last().0,
                entries.last().1,
            ));
            assert(entries_map(head).insert(k, v).insert(entries.last().0, entries.last().1)
                =~= entries_map(head).insert(entries.last().0, entries.last().1).insert(k, v));
        }
    }
}

/// A reroot produces well-formed entries: its keys are unique.
pub proof fn lemma_reroot_wf(entries: EntrySeq, p: Seq<char>, d: Seq<char>)
    ensures
        unique_keys(reroot_entries(entries, p, d)),
    decreases entries.len(),
{
    if entries.len() == 0 {
    } else {
        lemma_reroot_wf(entries.drop_last(), p, d);
        lemma_insert_preserves_unique(
            reroot_entries(entries.drop_last(), p, d),
            reroot_key(entries.last().0, p, d),
            entries.last().1,
        );
    }
}

/// Reroot correctness: every source key lands in the result under its
/// rewritten form, and every key of the result is the rewritten form of a
/// source key, carrying that source entry's parameter unchanged.
pub proof fn lemma_reroot_correct(entries: EntrySeq, p: Seq<char>, d: Seq<char>)
    ensures
        forall|i: int|
            0 <= i < entries.len() ==> entries_map(reroot_entries(entries, p, d)).contains_key(
                reroot_key(#[trigger] entries[i].0, p, d),
            ),
        forall|k: Seq<char>|
            #[trigger] entries_map(reroot_entries(entries, p, d)).contains_key(k) ==> exists|i: int|
                0 <= i < entries.len() && k == reroot_key(entries[i].0, p, d) && entries_map(
                    reroot_entries(entries, p, d),
                )[k] == entries[i].1,
    decreases entries.len(),
{
    if entries.len() == 0 {
    } else {
        let head = entries.drop_last();
        let rk = reroot_key(entries.last().0, p, d);
        let rv = entries.last().1;
        lemma_reroot_correct(head, p, d);
        lemma_reroot_wf(head, p, d);
        lemma_insert_entry_map(reroot_entries(head, p, d), rk, rv);
        let inner = entries_map(reroot_entries(head, p, d));
        let outer = entries_map(reroot_entries(entries, p, d));
        assert(outer == inner.insert(rk, rv));
        let n = entries.len() as int;
        assert forall|i: int|
            0 <= i < n implies outer.contains_key(
            reroot_key(#[trigger] entries[i].0, p, d),
        ) by {
            if i < n - 1 {
                assert(head[i] == entries[i]);
                assert(inner.contains_key(reroot_key(entries[i].0, p, d)));
            } else {
                assert(reroot_key(entries[i].0, p, d) == rk);
            }
        }
        assert forall|k: Seq<char>| #[trigger] outer.contains_key(k) implies exists|i: int|
            0 <= i < n && k == reroot_key(entries[i].0, p, d) && outer[k] == entries[i].1 by {
            if k == rk {
                assert(outer[k] == rv);
                assert(0 <= n - 1 < n && k == reroot_key(entries[n - 1].0, p, d) && outer[k]
                    == entries[n - 1].1);
            } else {
                assert(inner.contains_key(k));
                let i = choose|i: int|
                    0 <= i < head.len() && k == reroot_key(head[i].0, p, d) && inner[k]
                        == head[i].1;
                assert(head[i] == entries[i]);
                assert(0 <= i < n && k == reroot_key(entries[i].0, p, d) && outer[k]
                    == entries[i].1);
            }
        }
    }
}

/// Reconciliation minimality: every entry of the diff is an edited entry
/// whose key exists in the original with a changed value or type, and
/// every edited entry with such a change appears in the diff.  Unchanged
/// entries never appear.
pub proof fn lemma_diff_minimal(original: Map<Seq<char>, ParamModel>, entries: EntrySeq)
    ensures
        forall|j: int|
            0 <= j < diff_entries(original, entries).len() ==> (exists|i: int|
                0 <= i < entries.len() && #[trigger] diff_entries(original, entries)[j]
                    == entries[i]),
        forall|j: int|
            0 <= j < diff_entries(original, entries).len() ==> changed_at(
                original,
                (#[trigger] diff_entries(original, entries)[j]).0,
                diff_entries(original, entries)[j].1,
            ),
        forall|i: int|
            0 <= i < entries.len() && changed_at(
                original,
                (#[trigger] entries[i]).0,
                entries[i].1,
            ) ==> exists|j: int|
                0 <= j < diff_entries(original, entries).len() && diff_entries(original, entries)[j]
                    == entries[i],
    decreases entries.len(),
{
    if entries.len() == 0 {
    } else {
        let head = entries.drop_last();
        lemma_diff_minimal(original, head);
        let d = diff_entries(original, entries);
        let dh = diff_entries(original, head);
        let n = entries.len() as int;
        assert(forall|i: int| 0 <= i < n - 1 ==> head[i] == entries[i]);
        assert forall|j: int| 0 <= j < d.len() implies (exists|i: int|
            0 <= i < n && #[trigger] d[j] == entries[i]) && changed_at(
            original,
            d[j].0,
            d[j].1,
        ) by {
            if j < dh.len() {
                assert(d[j] == dh[j]);
                let i = choose|i: int| 0 <= i < head.len() && dh[j] == head[i];
                assert(d[j] == entries[i]);
            } else {
                assert(d[j] == entries[n - 1]);
            }
        }
        assert forall|i: int|
            0 <= i < n && changed_at(
                original,
                (#[trigger] entries[i]).0,
                entries[i].1,
            ) implies exists|j: int| 0 <= j < d.len() && d[j] == entries[i] by {
            if i < n - 1 {
                let j = choose|j: int| 0 <= j < dh.len() && dh[j] == head[i];
                assert(d[j] == entries[i]);
            } else {
                assert(d[d.len() - 1] == entries[i]);
            }
        }
    }
}

/// Deletion non-effect: a key absent from the edited collection (for
/// example one the user deleted from the edit buffer) never appears in the
/// diff.
pub proof fn lemma_diff_ignores_deletions(
    original: Map<Seq<char>, ParamModel>,
    entries: EntrySeq,
    k: Seq<char>,
)
    requires
        !has_key(entries, k),
    ensures
        !has_key(diff_entries(original, entries), k),
    decreases entries.len(),
{
    if entries.len() == 0 {
    } else {
        let head = entries.drop_last();
        assert forall|i: int| 0 <= i < head.len() implies head[i].0 != k by {
            assert(head[i] == entries[i]);
        }
        if has_key(head, k) {
            let i = choose|i: int| 0 <= i < head.len() && head[i].0 == k;
            assert(false);
        }
        lemma_diff_ignores_deletions(original, head, k);
        let d = diff_entries(original, entries);
        let dh = diff_entries(original, head);
        if has_key(d, k) {
            let j = choose|j: int| 0 <= j < d.len() && d[j].0 == k;
            if j < dh.len() {
                assert(dh[j].0 == k);
                assert(has_key(dh, k));
            } else {
                assert(d[j] == entries.last());
                assert(entries[entries.len() - 1].0 == k);
            }
            assert(false);
        }
    }
}

} // verus!
