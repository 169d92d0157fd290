//! The schema tree: records, their fields and their metadata tags.

use vstd::prelude::*;
use vstd::string::StringExecFns;

verus! {

/// A metadata tag attached to a record or to a field.
#[derive(Debug, PartialEq, Eq)]
pub struct Tag {
    /// The name the tag goes by, such as `doc` or `derive`.
    pub path: String,
    /// Whatever follows the name, verbatim.
    pub tokens: String,
}

/// The mathematical content of a [`Tag`].
pub struct TagView {
    pub path: Seq<char>,
    pub tokens: Seq<char>,
}

impl View for Tag {
    type V = TagView;

    open spec fn view(&self) -> TagView {
        TagView { path: self.path@, tokens: self.tokens@ }
    }
}

impl Clone for Tag {
    fn clone(&self) -> (copy: Self)
        ensures
            copy@ == self@,
    {
        Tag { path: self.path.clone(), tokens: self.tokens.clone() }
    }
}

/// The contents of a list of tags, in order.
pub open spec fn tag_views(tags: Seq<Tag>) -> Seq<TagView> {
    Seq::new(tags.len(), |i: int| tags[i]@)
}

/// The type of a field: a scalar known only by its name, or a record of its own.
#[derive(Debug, PartialEq, Eq)]
pub enum FieldType {
    Scalar(String),
    Nested(RecordSpec),
}

/// One field of a record.
#[derive(Debug, PartialEq, Eq)]
pub struct FieldSpec {
    pub name: String,
    /// The visibility marker, verbatim; empty for a private field.
    pub vis: String,
    pub tags: Vec<Tag>,
    pub ty: FieldType,
    /// The predicate that every stored value has to satisfy, by the text it was written as.
    pub constraint: Option<String>,
}

/// A named record definition.
#[derive(Debug, PartialEq, Eq)]
pub struct RecordSpec {
    pub name: String,
    /// Tags of this record alone.
    pub tags: Vec<Tag>,
    /// Tags of this record and of every record nested in it, at any depth.
    pub recursive_tags: Vec<Tag>,
    pub fields: Vec<FieldSpec>,
}

/// The mathematical content of a [`FieldType`].
pub enum FieldTypeView {
    Scalar(Seq<char>),
    Nested(RecordSpecView),
}

/// The mathematical content of a [`FieldSpec`].
pub struct FieldSpecView {
    pub name: Seq<char>,
    pub vis: Seq<char>,
    pub tags: Seq<TagView>,
    pub ty: FieldTypeView,
    pub constraint: Option<Seq<char>>,
}

/// The mathematical content of a [`RecordSpec`].
pub struct RecordSpecView {
    pub name: Seq<char>,
    pub tags: Seq<TagView>,
    pub recursive_tags: Seq<TagView>,
    pub fields: Seq<FieldSpecView>,
}

impl View for FieldType {
    type V = FieldTypeView;

    open spec fn view(&self) -> FieldTypeView
        decreases self,
    {
        match self {
            FieldType::Scalar(name) => FieldTypeView::Scalar(name@),
            FieldType::Nested(record) => FieldTypeView::Nested(record@),
        }
    }
}

impl View for FieldSpec {
    type V = FieldSpecView;

    open spec fn view(&self) -> FieldSpecView
        decreases self,
    {
        FieldSpecView {
            name: self.name@,
            vis: self.vis@,
            tags: tag_views(self.tags@),
            ty: self.ty@,
            constraint: match self.constraint {
                Some(text) => Some(text@),
                None => None,
            },
        }
    }
}

impl View for RecordSpec {
    type V = RecordSpecView;

    open spec fn view(&self) -> RecordSpecView
        decreases self,
    {
        RecordSpecView {
            name: self.name@,
            tags: tag_views(self.tags@),
            recursive_tags: tag_views(self.recursive_tags@),
            fields: Seq::new(
                self.fields@.len(),
                |i: int|
                    if 0 <= i < self.fields@.len() {
                        self.fields@[i]@
                    } else {
                        arbitrary()
                    },
            ),
        }
    }
}

/// A copy of a list of tags.
pub fn clone_tags(tags: &Vec<Tag>) -> (copy: Vec<Tag>)
    ensures
        tag_views(copy@) == tag_views(tags@),
{
    let mut copy: Vec<Tag> = Vec::new();
    let mut i: usize = 0;
    while i < tags.len()
        invariant
            i <= tags.len(),
            copy.len() == i,
            forall|j: int| 0 <= j < i ==> copy@[j]@ == tags@[j]@,
        decreases tags.len() - i,
    {
        copy.push(tags[i].clone());
        i += 1;
    }
    assert(tag_views(copy@) =~= tag_views(tags@));
    copy
}

impl Clone for FieldType {
    fn clone(&self) -> (copy: Self)
        ensures
            copy@ == self@,
        decreases self,
    {
        match self {
            FieldType::Scalar(name) => FieldType::Scalar(name.clone()),
            FieldType::Nested(record) => FieldType::Nested(record.clone()),
        }
    }
}

impl Clone for FieldSpec {
    fn clone(&self) -> (copy: Self)
        ensures
            copy@ == self@,
        decreases self,
    {
        FieldSpec {
            name: self.name.clone(),
            vis: self.vis.clone(),
            tags: clone_tags(&self.tags),
            ty: self.ty.clone(),
            constraint: match &self.constraint {
                Some(text) => Some(text.clone()),
                None => None,
            },
        }
    }
}

impl Clone for RecordSpec {
    fn clone(&self) -> (copy: Self)
        ensures
            copy@ == self@,
        decreases self,
    {
        let mut fields: Vec<FieldSpec> = Vec::new();
        let mut i: usize = 0;
        while i < self.fields.len()
            invariant
                i <= self.fields.len(),
                fields.len() == i,
                forall|j: int| 0 <= j < i ==> fields@[j]@ == self.fields@[j]@,
            decreases self.fields.len() - i,
        {
            fields.push(self.fields[i].clone());
            i += 1;
        }
        let copy = RecordSpec {
            name: self.name.clone(),
            tags: clone_tags(&self.tags),
            recursive_tags: clone_tags(&self.recursive_tags),
            fields,
        };
        assert(copy@.fields =~= self@.fields);
        copy
    }
}

/// The name that marks, in the list of tags written on a record, where the
/// recursive tags begin.
pub open spec fn marker() -> Seq<char> {
    "recursive_attrs"@
}

/// The names of a list of tags, in order.
pub open spec fn tag_paths(tags: Seq<TagView>) -> Seq<Seq<char>> {
    Seq::new(tags.len(), |i: int| tags[i].path)
}

/// The tags written on a record, told apart.
#[derive(Debug, PartialEq, Eq)]
pub struct Attrs {
    /// Tags of the record alone.
    pub local: Vec<Tag>,
    /// Tags of the record and of every record nested in it.
    pub recursive: Vec<Tag>,
}

impl Attrs {
    /// Tells the tags written on a record apart: those before the first
    /// marker are the record's own, those after it are recursive, and that
    /// marker is dropped. Without a marker all tags are the record's own.
    pub fn split(tags: Vec<Tag>) -> (attrs: Attrs)
        ensures
            match tag_paths(tag_views(tags@)).index_of_first(marker()) {
                Some(at) => tag_views(attrs.local@) == tag_views(tags@).take(at) && tag_views(
                    attrs.recursive@,
                ) == tag_views(tags@).skip(at + 1),
                None => tag_views(attrs.local@) == tag_views(tags@) && tag_views(attrs.recursive@)
                    == Seq::<TagView>::empty(),
            },
    {
        let mut local = tags;
        let ghost paths = tag_paths(tag_views(tags@));
        let wanted = String::from_str("recursive_attrs");
        let mut i: usize = 0;
        while i < local.len()
            invariant
                i <= local.len(),
                local == tags,
                wanted@ == marker(),
                paths == tag_paths(tag_views(tags@)),
                forall|j: int| 0 <= j < i ==> paths[j] != marker(),
            decreases local.len() - i,
        {
            if local[i].path == wanted {
                proof {
                    assert(paths[i as int] == marker());
                    paths.index_of_first_ensures(marker());
                }
                let recursive = local.split_off(i + 1);
                local.pop();
                assert(tag_views(local@) =~= tag_views(tags@).take(i as int));
                assert(tag_views(recursive@) =~= tag_views(tags@).skip(i + 1));
                return Attrs { local, recursive };
            }
            i += 1;
        }
        proof {
            paths.index_of_first_ensures(marker());
        }
        let recursive: Vec<Tag> = Vec::new();
        assert(tag_views(recursive@) =~= Seq::<TagView>::empty());
        Attrs { local, recursive }
    }
}

impl FieldTypeView {
    /// The name of the type: that of the scalar, or that of the nested record.
    pub open spec fn name(self) -> Seq<char> {
        match self {
            FieldTypeView::Scalar(name) => name,
            FieldTypeView::Nested(record) => record.name,
        }
    }
}

impl FieldType {
    /// The name of the type: that of the scalar, or that of the nested record.
    pub fn ty(&self) -> (name: String)
        ensures
            name@ == self@.name(),
    {
        match self {
            FieldType::Scalar(name) => name.clone(),
            FieldType::Nested(record) => record.name.clone(),
        }
    }
}

} // verus!
