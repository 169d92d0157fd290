//! Reflection: reading and writing the fields of a record, at any depth,
//! through keys made of field names with a separator between them.

use crate::record::{lemma_admitted_shape, Record, RecordView, Rules, Value, ValueView};
use crate::schema::{FieldSpec, FieldSpecView, FieldType, FieldTypeView, RecordSpec, RecordSpecView};
use vstd::prelude::*;
use vstd::string::{StrSliceExecFns, StringExecFns};

verus! {

/// The character that stands between the segments of a key.
#[derive(Debug, Clone, Copy, PartialEq, Eq)]
pub enum Separator {
    Dot,
    Slash,
}

impl Separator {
    /// The separator as a character.
    pub open spec fn character(self) -> char {
        match self {
            Separator::Dot => '.',
            Separator::Slash => '/',
        }
    }

    /// The separator as a character.
    pub fn as_char(self) -> (c: char)
        ensures
            c == self.character(),
    {
        match self {
            Separator::Dot => '.',
            Separator::Slash => '/',
        }
    }

    /// The separator as a string of one character.
    pub fn as_str(self) -> (s: &'static str)
        ensures
            s@ == seq![self.character()],
    {
        proof {
            reveal_strlit(".");
            reveal_strlit("/");
        }
        match self {
            Separator::Dot => {
                assert("."@ =~= seq!['.']);
                "."
            },
            Separator::Slash => {
                assert("/"@ =~= seq!['/']);
                "/"
            },
        }
    }
}

/// Why a value could not be read.
#[derive(Debug, Clone, Copy, PartialEq, Eq)]
pub enum GetError {
    /// The key leads to no field, or has an empty segment in its way.
    NoMatchingKey,
}

/// Why a value could not be written.
#[derive(Debug, PartialEq, Eq)]
pub enum InsertionError<E> {
    /// The key leads to no field, or leads on through a scalar.
    UnknownKey,
    /// The field of this name does not accept the value.
    PredicateRejected(String),
    /// The source could not produce a value; this is what it reported.
    Decoding(E),
}

impl<E> InsertionError<E> {
    /// The error in words, where it has words of its own: a failure of the
    /// source has none.
    pub fn message(&self) -> (text: Option<String>)
        ensures
            match self {
                InsertionError::UnknownKey => text is Some && text->0@ == "unknown key"@,
                InsertionError::PredicateRejected(name) => text is Some && text->0@
                    == "Predicate rejected value for "@ + name@,
                InsertionError::Decoding(_) => text is None,
            },
    {
        match self {
            InsertionError::UnknownKey => Some(String::from_str("unknown key")),
            InsertionError::PredicateRejected(name) => {
                let mut text = String::from_str("Predicate rejected value for ");
                text.append(name.as_str());
                Some(text)
            },
            InsertionError::Decoding(_) => None,
        }
    }
}

/// A key split at its first separator: what stands before it, and what
/// stands after it. A key without a separator is all head.
pub open spec fn split_key(key: Seq<char>, sep: char) -> (Seq<char>, Seq<char>) {
    match key.index_of_first(sep) {
        Some(at) => (key.take(at), key.skip(at + 1)),
        None => (key, Seq::empty()),
    }
}

/// Splits `key` at its first separator.
pub fn split_once<'a>(key: &'a str, sep: Separator) -> (parts: (&'a str, &'a str))
    ensures
        (parts.0@, parts.1@) == split_key(key@, sep.character()),
{
    let len = key.unicode_len();
    let c = sep.as_char();
    let mut i: usize = 0;
    while i < len
        invariant
            i <= len,
            len == key@.len(),
            c == sep.character(),
            forall|j: int| 0 <= j < i ==> key@[j] != c,
        decreases len - i,
    {
        if key.get_char(i) == c {
            proof {
                key@.index_of_first_ensures(c);
            }
            let head = key.substring_char(0, i);
            let rest = key.substring_char(i + 1, len);
            assert(head@ =~= key@.take(i as int));
            assert(rest@ =~= key@.skip(i + 1));
            return (head, rest);
        }
        i += 1;
    }
    proof {
        key@.index_of_first_ensures(c);
    }
    let rest = key.substring_char(len, len);
    assert(rest@ =~= Seq::<char>::empty());
    (key, rest)
}

impl RecordSpecView {
    /// The names of the fields, in declaration order.
    pub open spec fn field_names(self) -> Seq<Seq<char>> {
        Seq::new(self.fields.len(), |i: int| self.fields[i].name)
    }

    /// The place of the first field called `name`, if there is one.
    pub open spec fn position(self, name: Seq<char>) -> Option<int> {
        self.field_names().index_of_first(name)
    }

    /// The way that `key` leads through this definition: the place of the
    /// field that each segment names, down to the field that the key stands
    /// for. The head of the key names a field of this record; what follows the
    /// first separator, if anything does, is a key into the record nested in
    /// that field. A key leads nowhere if a segment names no field or if it
    /// goes on past a scalar; when `strict`, also if a segment in its way is
    /// empty.
    pub open spec fn route(self, sep: char, key: Seq<char>, strict: bool) -> Option<Seq<int>>
        decreases self,
    {
        let (head, rest) = split_key(key, sep);
        if strict && head.len() == 0 {
            None
        } else {
            match self.position(head) {
                None => None,
                Some(at) => {
                    if rest.len() == 0 {
                        Some(seq![at])
                    } else if 0 <= at < self.fields.len() {
                        match self.fields[at].ty {
                            FieldTypeView::Scalar(_) => None,
                            FieldTypeView::Nested(nested) => match nested.route(sep, rest, strict) {
                                Some(onward) => Some(seq![at] + onward),
                                None => None,
                            },
                        }
                    } else {
                        None
                    }
                },
            }
        }
    }

    /// The field at the end of the way `path`.
    pub open spec fn field_at(self, path: Seq<int>) -> FieldSpecView
        decreases path.len(),
    {
        if path.len() <= 1 {
            self.fields[path[0]]
        } else {
            match self.fields[path[0]].ty {
                FieldTypeView::Nested(nested) => nested.field_at(path.drop_first()),
                FieldTypeView::Scalar(_) => self.fields[path[0]],
            }
        }
    }
}

impl<V> RecordView<V> {
    /// The value at the end of the way `path`.
    pub open spec fn at(self, path: Seq<int>) -> ValueView<V>
        decreases path.len(),
    {
        if path.len() <= 1 {
            self.fields[path[0]]
        } else {
            match self.fields[path[0]] {
                ValueView::Nested(nested) => nested.at(path.drop_first()),
                ValueView::Scalar(_) => self.fields[path[0]],
            }
        }
    }

    /// This record with `value` at the end of the way `path` and everything
    /// else as it is.
    pub open spec fn with(self, path: Seq<int>, value: ValueView<V>) -> RecordView<V>
        decreases path.len(),
    {
        if path.len() == 0 {
            self
        } else if path.len() == 1 {
            RecordView { fields: self.fields.update(path[0], value) }
        } else {
            match self.fields[path[0]] {
                ValueView::Nested(nested) => RecordView {
                    fields: self.fields.update(
                        path[0],
                        ValueView::Nested(nested.with(path.drop_first(), value)),
                    ),
                },
                ValueView::Scalar(_) => self,
            }
        }
    }
}

/// The contents of a list of strings, in order.
pub open spec fn strings(list: Seq<String>) -> Seq<Seq<char>> {
    Seq::new(list.len(), |i: int| list[i]@)
}

impl FieldSpecView {
    /// The keys that lead to this field and into it: its name, and for a
    /// nested field also each key of the nested record behind the name and a
    /// separator.
    pub open spec fn keys(self, sep: char) -> Seq<Seq<char>>
        decreases self, 0nat,
    {
        seq![self.name] + match self.ty {
            FieldTypeView::Scalar(_) => Seq::empty(),
            FieldTypeView::Nested(nested) => nested.keys(sep).map_values(
                |key: Seq<char>| self.name + seq![sep] + key,
            ),
        }
    }
}

impl RecordSpecView {
    /// The keys of the first `n` fields, in declaration order.
    pub open spec fn keys_of_first(self, sep: char, n: nat) -> Seq<Seq<char>>
        decreases self, n,
    {
        if n == 0 || n > self.fields.len() {
            Seq::empty()
        } else {
            self.keys_of_first(sep, (n - 1) as nat) + self.fields[n - 1].keys(sep)
        }
    }

    /// Every key into a record of this definition, in declaration order.
    pub open spec fn keys(self, sep: char) -> Seq<Seq<char>>
        decreases self, self.fields.len() + 1,
    {
        self.keys_of_first(sep, self.fields.len())
    }
}

/// What writing through a key comes to. `way` is where the key leads,
/// `decoded` what the source produced, `before` and `after` the record
/// before and after.
///
/// A key that leads nowhere is unknown, whatever was decoded. A failure of the
/// source is passed on. A value that the field at the end of the way does not
/// accept is rejected under the name of that field. In these three cases the
/// record stays as it was. Otherwise the value is stored at the end of the
/// way, and nothing else changes.
pub open spec fn insertion<V, E, R: Rules<V>>(
    spec: RecordSpecView,
    way: Option<Seq<int>>,
    decoded: Result<Value<V>, E>,
    rules: &R,
    before: RecordView<V>,
    after: RecordView<V>,
    outcome: Result<(), InsertionError<E>>,
) -> bool {
    match way {
        None => outcome == Err::<(), InsertionError<E>>(InsertionError::UnknownKey) && after
            == before,
        Some(path) => match decoded {
            Err(error) => outcome == Err::<(), InsertionError<E>>(InsertionError::Decoding(error))
                && after == before,
            Ok(value) => if spec.field_at(path).accepts(rules, value@) {
                outcome is Ok && after == before.with(path, value@)
            } else {
                &&& outcome matches Err(InsertionError::PredicateRejected(name))
                &&& name@ == spec.field_at(path).name
                &&& after == before
            },
        },
    }
}

impl RecordSpec {
    /// The place of the first field called `name`, if there is one.
    pub fn position(&self, name: &str) -> (found: Option<usize>)
        ensures
            found is Some <==> self@.position(name@) is Some,
            found is Some ==> found->0 == self@.position(name@)->0 && found->0 < self.fields.len(),
    {
        let wanted = String::from_str(name);
        let mut i: usize = 0;
        while i < self.fields.len()
            invariant
                i <= self.fields.len(),
                wanted@ == name@,
                forall|j: int| 0 <= j < i ==> self@.field_names()[j] != name@,
            decreases self.fields.len() - i,
        {
            assert(self.fields@[i as int]@ == self@.fields[i as int]);
            if self.fields[i].name == wanted {
                proof {
                    assert(self@.field_names()[i as int] == name@);
                    self@.field_names().index_of_first_ensures(name@);
                }
                return Some(i);
            }
            i += 1;
        }
        proof {
            self@.field_names().index_of_first_ensures(name@);
        }
        None
    }

    /// The field that `key` stands for, as a write sees it.
    pub fn target<'a>(&'a self, sep: Separator, key: &str) -> (field: Option<&'a FieldSpec>)
        ensures
            match self@.route(sep.character(), key@, false) {
                Some(path) => field is Some && field->0@ == self@.field_at(path),
                None => field is None,
            },
        decreases self,
    {
        let (head, rest) = split_once(key, sep);
        match self.position(head) {
            None => None,
            Some(at) => {
                assert(self.fields@[at as int]@ == self@.fields[at as int]);
                if rest.is_empty() {
                    assert(seq![at as int].len() == 1);
                    Some(&self.fields[at])
                } else {
                    match &self.fields[at].ty {
                        FieldType::Scalar(_) => None,
                        FieldType::Nested(nested) => {
                            let field = nested.target(sep, rest);
                            proof {
                                let way = nested@.route(sep.character(), rest@, false);
                                if way is Some {
                                    let path = seq![at as int] + way->0;
                                    assert(path.drop_first() =~= way->0);
                                }
                            }
                            field
                        },
                    }
                }
            },
        }
    }

    /// Every key into a record of this definition: for each field in
    /// declaration order its name, and after the name of a nested field the
    /// keys of the nested record, each behind that name and the separator.
    pub fn keys(&self, sep: Separator) -> (keys: Vec<String>)
        ensures
            strings(keys@) == self@.keys(sep.character()),
        decreases self,
    {
        let mut keys: Vec<String> = Vec::new();
        let mut i: usize = 0;
        assert(strings(keys@) =~= self@.keys_of_first(sep.character(), 0));
        while i < self.fields.len()
            invariant
                i <= self.fields.len(),
                strings(keys@) == self@.keys_of_first(sep.character(), i as nat),
            decreases self.fields.len() - i,
        {
            let field = &self.fields[i];
            assert(field@ == self@.fields[i as int]);
            let ghost before = strings(keys@);
            keys.push(field.name.clone());
            assert(strings(keys@) =~= before + seq![field@.name]);
            match &field.ty {
                FieldType::Scalar(_) => {
                    assert(strings(keys@) =~= before + field@.keys(sep.character()));
                },
                FieldType::Nested(nested) => {
                    let inner = nested.keys(sep);
                    let ghost prefixed = nested@.keys(sep.character()).map_values(
                        |key: Seq<char>| field@.name + seq![sep.character()] + key,
                    );
                    let mut j: usize = 0;
                    while j < inner.len()
                        invariant
                            j <= inner.len(),
                            strings(inner@) == nested@.keys(sep.character()),
                            prefixed == nested@.keys(sep.character()).map_values(
                                |key: Seq<char>| field@.name + seq![sep.character()] + key,
                            ),
                            strings(keys@) == before + seq![field@.name] + prefixed.take(j as int),
                        decreases inner.len() - j,
                    {
                        let mut key = field.name.clone();
                        key.append(sep.as_str());
                        key.append(inner[j].as_str());
                        let ghost so_far = strings(keys@);
                        keys.push(key);
                        proof {
                            assert(strings(inner@)[j as int] == inner@[j as int]@);
                            assert(key@ =~= prefixed[j as int]);
                            assert(prefixed.take(j + 1) =~= prefixed.take(j as int).push(
                                prefixed[j as int],
                            ));
                            assert(strings(keys@) =~= so_far.push(key@));
                        }
                        j += 1;
                    }
                    assert(prefixed.take(j as int) =~= prefixed);
                    assert(field@.keys(sep.character()) =~= seq![field@.name] + prefixed);
                    assert(strings(keys@) =~= before + field@.keys(sep.character()));
                },
            }
            i += 1;
        }
        keys
    }
}

impl<V> Record<V> {
    /// The value that `key` stands for.
    pub fn get<'a>(&'a self, spec: &RecordSpec, sep: Separator, key: &str) -> (found: Result<
        &'a Value<V>,
        GetError,
    >)
        requires
            spec@.admits(self@),
        ensures
            match spec@.route(sep.character(), key@, true) {
                Some(path) => found is Ok && found->Ok_0@ == self@.at(path),
                None => found == Err::<&Value<V>, GetError>(GetError::NoMatchingKey),
            },
        decreases spec,
    {
        proof {
            lemma_admitted_shape(spec, self);
        }
        let (head, rest) = split_once(key, sep);
        if head.is_empty() {
            return Err(GetError::NoMatchingKey);
        }
        match spec.position(head) {
            None => Err(GetError::NoMatchingKey),
            Some(at) => {
                if rest.is_empty() {
                    assert(seq![at as int].len() == 1);
                    Ok(&self.fields[at])
                } else {
                    match &spec.fields[at].ty {
                        FieldType::Scalar(_) => Err(GetError::NoMatchingKey),
                        FieldType::Nested(nested_spec) => match &self.fields[at] {
                            Value::Scalar(_) => Err(GetError::NoMatchingKey),
                            Value::Nested(nested) => {
                                let found = nested.get(nested_spec, sep, rest);
                                proof {
                                    let way = nested_spec@.route(sep.character(), rest@, true);
                                    if way is Some {
                                        let path = seq![at as int] + way->0;
                                        assert(path.drop_first() =~= way->0);
                                    }
                                }
                                found
                            },
                        },
                    }
                }
            },
        }
    }

    /// Takes over a whole record that a source produced, if it is
    /// recursively valid. A record that is not comes back as the error, and so
    /// does a failure of the source.
    pub fn from_decoded<E, R: Rules<V>>(
        spec: &RecordSpec,
        decoded: Result<Record<V>, E>,
        rules: &R,
    ) -> (made: Result<Record<V>, Result<Record<V>, E>>)
        requires
            decoded is Ok ==> spec@.admits(decoded->Ok_0@),
        ensures
            made == match decoded {
                Ok(record) => if spec@.valid_rec(rules, record@) {
                    Ok::<Record<V>, Result<Record<V>, E>>(record)
                } else {
                    Err::<Record<V>, Result<Record<V>, E>>(Ok(record))
                },
                Err(error) => Err::<Record<V>, Result<Record<V>, E>>(Err(error)),
            },
    {
        match decoded {
            Ok(record) => {
                if record.validate_rec(spec, rules) {
                    Ok(record)
                } else {
                    Err(Ok(record))
                }
            },
            Err(error) => Err(Err(error)),
        }
    }

    /// Writes what a source produced for `key`. See [`insertion`].
    pub fn insert_decoded<E, R: Rules<V>>(
        &mut self,
        spec: &RecordSpec,
        sep: Separator,
        key: &str,
        decoded: Result<Value<V>, E>,
        rules: &R,
    ) -> (outcome: Result<(), InsertionError<E>>)
        requires
            spec@.admits(old(self)@),
            decoded is Ok && spec@.route(sep.character(), key@, false) is Some ==> spec@.field_at(
                spec@.route(sep.character(), key@, false)->0,
            ).ty.fits(decoded->Ok_0@),
        ensures
            spec@.admits(final(self)@),
            insertion(
                spec@,
                spec@.route(sep.character(), key@, false),
                decoded,
                rules,
                old(self)@,
                final(self)@,
                outcome,
            ),
        decreases spec,
    {
        proof {
            lemma_admitted_shape(spec, self);
        }
        let (head, rest) = split_once(key, sep);
        match spec.position(head) {
            None => Err(InsertionError::UnknownKey),
            Some(at) => {
                if rest.is_empty() {
                    assert(seq![at as int].len() == 1);
                    match decoded {
                        Err(error) => Err(InsertionError::Decoding(error)),
                        Ok(value) => match self.set(spec, at, value, rules) {
                            Ok(_) => {
                                proof {
                                    lemma_stored(old(self), self, at as int, value);
                                }
                                Ok(())
                            },
                            Err(_) => Err(
                                InsertionError::PredicateRejected(spec.fields[at].name.clone()),
                            ),
                        },
                    }
                } else {
                    match &spec.fields[at].ty {
                        FieldType::Scalar(_) => Err(InsertionError::UnknownKey),
                        FieldType::Nested(nested_spec) => match &mut self.fields[at] {
                            Value::Scalar(_) => Err(InsertionError::UnknownKey),
                            Value::Nested(nested) => {
                                let ghost inner = *nested;
                                let ghost way = nested_spec@.route(sep.character(), rest@, false);
                                proof {
                                    if way is Some {
                                        let path = seq![at as int] + way->0;
                                        assert(path.drop_first() =~= way->0);
                                    }
                                }
                                let outcome = nested.insert_decoded(
                                    nested_spec,
                                    sep,
                                    rest,
                                    decoded,
                                    rules,
                                );
                                proof {
                                    lemma_nested_stored(old(self), self, at as int, inner, *nested);
                                }
                                outcome
                            },
                        },
                    }
                }
            },
        }
    }

    /// Writes through `key` what `source` produces. The source is asked once,
    /// for a value of the type of the field that the key stands for, and only
    /// if the key stands for one. What then happens to its answer is what
    /// [`Record::insert_decoded`] does with it.
    pub fn insert<E, S: FnOnce(&FieldType) -> Result<Value<V>, E>, R: Rules<V>>(
        &mut self,
        spec: &RecordSpec,
        sep: Separator,
        key: &str,
        source: S,
        rules: &R,
    ) -> (outcome: Result<(), InsertionError<E>>)
        requires
            spec@.admits(old(self)@),
            forall|ty: &FieldType| #[trigger] call_requires(source, (ty,)),
            forall|ty: &FieldType, decoded: Result<Value<V>, E>|
                #[trigger] call_ensures(source, (ty,), decoded) && decoded is Ok ==> ty@.fits(
                    decoded->Ok_0@,
                ),
        ensures
            spec@.admits(final(self)@),
            match spec@.route(sep.character(), key@, false) {
                None => outcome == Err::<(), InsertionError<E>>(InsertionError::UnknownKey)
                    && final(self)@ == old(self)@,
                Some(path) => exists|ty: &FieldType, decoded: Result<Value<V>, E>|
                    ty@ == spec@.field_at(path).ty && #[trigger] call_ensures(
                        source,
                        (ty,),
                        decoded,
                    ) && insertion(
                        spec@,
                        Some(path),
                        decoded,
                        rules,
                        old(self)@,
                        final(self)@,
                        outcome,
                    ),
            },
    {
        match spec.target(sep, key) {
            None => Err(InsertionError::UnknownKey),
            Some(field) => {
                let decoded = source(&field.ty);
                let ghost answer = decoded;
                let outcome = self.insert_decoded(spec, sep, key, decoded, rules);
                assert(call_ensures(source, (&field.ty,), answer));
                outcome
            },
        }
    }
}

/// Storing a value in a field changes that place of the view and no other.
proof fn lemma_stored<V>(before: &Record<V>, after: &Record<V>, at: int, value: Value<V>)
    requires
        0 <= at < before.fields@.len(),
        after.fields@ == before.fields@.update(at, value),
    ensures
        after@ == before@.with(seq![at], value@),
{
    assert(after@.fields =~= before@.fields.update(at, value@));
}

/// A change inside a nested record changes that place of the view and no other.
proof fn lemma_nested_stored<V>(
    before: &Record<V>,
    after: &Record<V>,
    at: int,
    inner_before: Record<V>,
    inner_after: Record<V>,
)
    requires
        0 <= at < before.fields@.len(),
        before.fields@[at] == Value::Nested(inner_before),
        after.fields@ == before.fields@.update(at, Value::Nested(inner_after)),
    ensures
        after@.fields == before@.fields.update(at, ValueView::Nested(inner_after@)),
        inner_after@ == inner_before@ ==> after@ == before@,
{
    assert(after@.fields =~= before@.fields.update(at, ValueView::Nested(inner_after@)));
    if inner_after@ == inner_before@ {
        assert(after@.fields =~= before@.fields);
    }
}

impl RecordSpecView {
    /// Whether keys can tell the fields of this definition apart: every field
    /// name, here and in every nested record, has at least one character and
    /// none that is the separator, and no two fields of one record share a name.
    pub open spec fn addressable(self, sep: char) -> bool
        decreases self,
    {
        &&& forall|i: int|
            0 <= i < self.fields.len() ==> (#[trigger] self.fields[i]).name.len() > 0
                && !self.fields[i].name.contains(sep)
        &&& forall|i: int, j: int|
            0 <= i < j < self.fields.len() ==> (#[trigger] self.fields[i]).name != (
            #[trigger] self.fields[j]).name
        &&& forall|i: int|
            0 <= i < self.fields.len() && (#[trigger] self.fields[i]).ty is Nested
                ==> self.fields[i].ty->Nested_0.addressable(sep)
    }

    /// Whether the way `path` stays inside this definition: each step is the
    /// place of a field, and each step but the last that of a nested one.
    pub open spec fn reaches(self, path: Seq<int>) -> bool
        decreases path.len(),
    {
        &&& path.len() >= 1
        &&& 0 <= path[0] < self.fields.len()
        &&& path.len() > 1 ==> self.fields[path[0]].ty is Nested
            && self.fields[path[0]].ty->Nested_0.reaches(path.drop_first())
    }

    /// Where a key leads: a way stays inside the definition, and a way for
    /// reading is a way for writing too.
    pub proof fn lemma_route_reaches(self, sep: char, key: Seq<char>, strict: bool)
        requires
            self.route(sep, key, strict) is Some,
        ensures
            self.reaches(self.route(sep, key, strict)->0),
            strict ==> self.route(sep, key, false) == self.route(sep, key, true),
        decreases self,
    {
        let (head, rest) = split_key(key, sep);
        let at = self.position(head)->0;
        self.field_names().index_of_first_ensures(head);
        if rest.len() > 0 {
            let nested = self.fields[at].ty->Nested_0;
            nested.lemma_route_reaches(sep, rest, strict);
            let path = self.route(sep, key, strict)->0;
            assert(path.drop_first() =~= nested.route(sep, rest, strict)->0);
        }
    }

    /// Every key among those of the first `n` fields is a key of one of them.
    proof fn lemma_keys_origin(self, sep: char, n: nat, k: int) -> (f: int)
        requires
            n <= self.fields.len(),
            0 <= k < self.keys_of_first(sep, n).len(),
        ensures
            0 <= f < n,
            self.keys_of_first(sep, f as nat).len() <= k,
            k - self.keys_of_first(sep, f as nat).len() < self.fields[f].keys(sep).len(),
            self.keys_of_first(sep, n)[k] == self.fields[f].keys(sep)[k - self.keys_of_first(
                sep,
                f as nat,
            ).len()],
        decreases n,
    {
        if k < self.keys_of_first(sep, (n - 1) as nat).len() {
            self.lemma_keys_origin(sep, (n - 1) as nat, k)
        } else {
            n - 1
        }
    }

    /// In an addressable definition the name of a field is found at the
    /// place of that field.
    proof fn lemma_position_of_field(self, sep: char, f: int)
        requires
            self.addressable(sep),
            0 <= f < self.fields.len(),
        ensures
            self.position(self.fields[f].name) == Some(f),
    {
        let names = self.field_names();
        let name = self.fields[f].name;
        names.index_of_first_ensures(name);
        assert(names[f] == name);
        let found = names.index_of_first(name)->0;
        if found < f {
            assert(self.fields[found].name != self.fields[f].name);
        } else if found > f {
            assert(names[f] != name);
        }
    }

    /// Every key leads somewhere: in an addressable definition, each of its
    /// keys has a way, the same for reading and for writing, and that way
    /// stays inside the definition.
    pub proof fn lemma_keys_lead_somewhere(self, sep: char, k: int, strict: bool) -> (path: Seq<
        int,
    >)
        requires
            self.addressable(sep),
            0 <= k < self.keys(sep).len(),
        ensures
            self.route(sep, self.keys(sep)[k], strict) == Some(path),
            self.route(sep, self.keys(sep)[k], !strict) == Some(path),
            self.reaches(path),
        decreases self,
    {
        let key = self.keys(sep)[k];
        let f = self.lemma_keys_origin(sep, self.fields.len(), k);
        let field = self.fields[f];
        let within = k - self.keys_of_first(sep, f as nat).len();
        self.lemma_position_of_field(sep, f);
        field.lemma_key_shape(sep, within);
        if within == 0 {
            key.index_of_first_ensures(sep);
            assert(split_key(key, sep).1.len() == 0);
            let path = seq![f];
            assert(self.reaches(path));
            path
        } else {
            let nested = field.ty->Nested_0;
            let onward_key = nested.keys(sep)[within - 1];
            let onward = nested.lemma_keys_lead_somewhere(sep, within - 1, true);
            nested.lemma_keys_lead_somewhere(sep, within - 1, false);
            assert(onward_key.len() > 0) by {
                onward_key.index_of_first_ensures(sep);
                if onward_key.len() == 0 {
                    assert(split_key(onward_key, sep).0.len() == 0);
                }
            }
            let path = seq![f] + onward;
            assert(path.drop_first() =~= onward);
            assert(self.reaches(path));
            path
        }
    }
}

impl FieldSpecView {
    /// The keys of a field whose name holds no separator all have that name
    /// as their head: the first is the name, each later one is the name, a
    /// separator and a key of the nested record.
    proof fn lemma_key_shape(self, sep: char, within: int)
        requires
            !self.name.contains(sep),
            0 <= within < self.keys(sep).len(),
        ensures
            split_key(self.keys(sep)[within], sep).0 == self.name,
            within == 0 ==> self.keys(sep)[within] == self.name,
            within > 0 ==> self.ty is Nested && within - 1 < self.ty->Nested_0.keys(sep).len()
                && self.keys(sep)[within] == self.name + seq![sep] + self.ty->Nested_0.keys(
                sep,
            )[within - 1] && split_key(self.keys(sep)[within], sep).1
                == self.ty->Nested_0.keys(sep)[within - 1],
    {
        let key = self.keys(sep)[within];
        let name = self.name;
        key.index_of_first_ensures(sep);
        if within == 0 {
            assert(key == name);
        } else {
            let onward_key = self.ty->Nested_0.keys(sep)[within - 1];
            assert(key == name + seq![sep] + onward_key);
            assert(key[name.len() as int] == sep);
            assert forall|j: int| 0 <= j < name.len() implies key[j] != sep by {
                assert(key[j] == name[j]);
            }
            let at = key.index_of_first(sep)->0;
            assert(at == name.len()) by {
                if at < name.len() {
                    assert(key[at] != sep);
                }
            }
            assert(key.take(at) =~= name);
            assert(key.skip(at + 1) =~= onward_key);
        }
    }
}

impl RecordSpecView {
    /// In an addressable definition two keys at different places differ.
    proof fn lemma_keys_differ(self, sep: char, k1: int, k2: int)
        requires
            self.addressable(sep),
            0 <= k1 < k2 < self.keys(sep).len(),
        ensures
            self.keys(sep)[k1] != self.keys(sep)[k2],
        decreases self,
    {
        let f1 = self.lemma_keys_origin(sep, self.fields.len(), k1);
        let f2 = self.lemma_keys_origin(sep, self.fields.len(), k2);
        let w1 = k1 - self.keys_of_first(sep, f1 as nat).len();
        let w2 = k2 - self.keys_of_first(sep, f2 as nat).len();
        self.fields[f1].lemma_key_shape(sep, w1);
        self.fields[f2].lemma_key_shape(sep, w2);
        if self.keys(sep)[k1] == self.keys(sep)[k2] {
            assert(self.fields[f1].name == self.fields[f2].name);
            assert(f1 == f2) by {
                if f1 < f2 {
                    assert(self.fields[f1].name != self.fields[f2].name);
                } else if f2 < f1 {
                    assert(self.fields[f2].name != self.fields[f1].name);
                }
            }
            let name = self.fields[f1].name;
            if w1 == 0 {
                assert(self.keys(sep)[k2].len() > name.len());
            } else {
                self.fields[f1].ty->Nested_0.lemma_keys_differ(sep, w1 - 1, w2 - 1);
            }
        }
    }

    /// No key comes twice among the keys of an addressable definition.
    pub proof fn lemma_keys_have_no_duplicates(self, sep: char)
        requires
            self.addressable(sep),
        ensures
            self.keys(sep).no_duplicates(),
    {
        assert forall|i: int, j: int|
            0 <= i < self.keys(sep).len() && 0 <= j < self.keys(sep).len() && i != j implies self.keys(
            sep,
        )[i] != self.keys(sep)[j] by {
            if i < j {
                self.lemma_keys_differ(sep, i, j);
            } else {
                self.lemma_keys_differ(sep, j, i);
            }
        }
    }
}

impl<V> RecordView<V> {
    /// What is stored at the end of a way is found there afterwards, and a
    /// value of the shape of its field leaves the record of the shape of its
    /// definition.
    pub proof fn lemma_stored_is_found(
        self,
        spec: RecordSpecView,
        path: Seq<int>,
        value: ValueView<V>,
    )
        requires
            spec.admits(self),
            spec.reaches(path),
        ensures
            self.with(path, value).at(path) == value,
            spec.field_at(path).ty.fits(value) ==> spec.admits(self.with(path, value)),
        decreases path.len(),
    {
        let after = self.with(path, value);
        if path.len() > 1 {
            let nested_spec = spec.fields[path[0]].ty->Nested_0;
            let nested = self.fields[path[0]]->Nested_0;
            assert(spec.fields[path[0]].ty.fits(self.fields[path[0]]));
            nested.lemma_stored_is_found(nested_spec, path.drop_first(), value);
        }
        if spec.field_at(path).ty.fits(value) {
            assert forall|i: int| 0 <= i < spec.fields.len() implies (#[trigger] spec.fields[i]).ty.fits(
                after.fields[i],
            ) by {
                if i != path[0] {
                    assert(after.fields[i] == self.fields[i]);
                }
            }
        }
    }
}

impl<V> RecordView<V> {
    /// Only what is addressed changes: storing at the end of one way leaves
    /// what is at the end of another way as it was, where the two ways part
    /// at some step.
    pub proof fn lemma_stored_elsewhere(
        self,
        spec: RecordSpecView,
        path: Seq<int>,
        other: Seq<int>,
        value: ValueView<V>,
    )
        requires
            spec.admits(self),
            spec.reaches(path),
            spec.reaches(other),
            exists|i: int| 0 <= i < path.len() && i < other.len() && path[i] != other[i],
        ensures
            self.with(path, value).at(other) == self.at(other),
        decreases path.len(),
    {
        let parting = choose|i: int| 0 <= i < path.len() && i < other.len() && path[i] != other[i];
        if path[0] == other[0] {
            let nested_spec = spec.fields[path[0]].ty->Nested_0;
            let nested = self.fields[path[0]]->Nested_0;
            assert(spec.fields[path[0]].ty.fits(self.fields[path[0]]));
            assert(path.drop_first()[parting - 1] != other.drop_first()[parting - 1]);
            nested.lemma_stored_elsewhere(
                nested_spec,
                path.drop_first(),
                other.drop_first(),
                value,
            );
        } else {
            assert(self.with(path, value).fields[other[0]] == self.fields[other[0]]) by {
                if path.len() > 1 {
                    assert(spec.fields[path[0]].ty.fits(self.fields[path[0]]));
                }
            }
        }
    }
}

/// Round trip: a value written through a key, and accepted by the field
/// that the key stands for, is what a read through the same key finds
/// afterwards. This holds of every key that leads somewhere for a read; by
/// [`RecordSpecView::lemma_keys_lead_somewhere`] those are all the keys of an
/// addressable definition.
pub proof fn lemma_insert_then_get<V, E, R: Rules<V>>(
    spec: RecordSpecView,
    sep: char,
    key: Seq<char>,
    value: Value<V>,
    rules: &R,
    before: RecordView<V>,
    after: RecordView<V>,
    outcome: Result<(), InsertionError<E>>,
)
    requires
        spec.admits(before),
        spec.route(sep, key, true) is Some,
        spec.field_at(spec.route(sep, key, true)->0).accepts(rules, value@),
        insertion(
            spec,
            spec.route(sep, key, false),
            Ok::<Value<V>, E>(value),
            rules,
            before,
            after,
            outcome,
        ),
    ensures
        outcome is Ok,
        after.at(spec.route(sep, key, true)->0) == value@,
{
    spec.lemma_route_reaches(sep, key, true);
    before.lemma_stored_is_found(spec, spec.route(sep, key, true)->0, value@);
}

} // verus!
