//! Generation: what the record type of a definition consists of.
//!
//! For each field the record type has a member, a getter of the field's name,
//! a setter, a recursive validation and, where the field has a constraint, a
//! local validation. [`Structure`] names them all, for whoever writes the
//! record type out.

use crate::flatten::record_views;
use crate::reflect::Separator;
use crate::schema::{
    clone_tags, tag_views, FieldSpec, FieldSpecView, FieldType, RecordSpec, RecordSpecView, Tag,
    TagView,
};
use vstd::prelude::*;
use vstd::string::StringExecFns;

verus! {

/// What tells a tag that documents from the others.
pub open spec fn is_doc() -> spec_fn(TagView) -> bool {
    |tag: TagView| tag.path == "doc"@
}

/// How the recursive validation of a member comes about.
#[derive(Debug, Clone, Copy, PartialEq, Eq)]
pub enum RecValidation {
    /// By the recursive validity of the candidate record, and the constraint.
    RecordAndConstraint,
    /// By the recursive validity of the candidate record alone.
    Record,
    /// By the local validation.
    Local,
    /// By nothing: every candidate is valid.
    Always,
}

impl FieldSpecView {
    /// How the recursive validation of the member for this field comes
    /// about: a nested field asks the candidate record, a field with a
    /// constraint asks the constraint.
    pub open spec fn rec_validation(self) -> RecValidation {
        if self.ty is Nested {
            if self.constraint is Some {
                RecValidation::RecordAndConstraint
            } else {
                RecValidation::Record
            }
        } else {
            if self.constraint is Some {
                RecValidation::Local
            } else {
                RecValidation::Always
            }
        }
    }
}

/// One member of a record type, with the names of its accessors.
#[derive(Debug, PartialEq, Eq)]
pub struct Member {
    /// The name of the member, which is also that of its getter.
    pub name: String,
    pub vis: String,
    /// The tags of the member.
    pub tags: Vec<Tag>,
    /// Those among the tags that document; they go on the getter and the setter too.
    pub docs: Vec<Tag>,
    /// The name of the member's type.
    pub ty: String,
    /// Whether the member is a record of its own.
    pub nested: bool,
    /// The constraint, as it was written.
    pub constraint: Option<String>,
    /// The name of the setter.
    pub setter: String,
    /// The name of the local validation; only a member with a constraint has one.
    pub validator: Option<String>,
    /// The name of the recursive validation.
    pub rec_validator: String,
    /// How the recursive validation comes about.
    pub rec_validation: RecValidation,
    /// What a write through a key reports when the setter rejects the value.
    pub rejection: String,
}

/// A record type: its name, its tags and its members, and whether it can be
/// read and written through keys, and with which separator.
#[derive(Debug, PartialEq, Eq)]
pub struct Structure {
    pub name: String,
    pub tags: Vec<Tag>,
    pub members: Vec<Member>,
    pub reflection: Option<Separator>,
}

impl Member {
    /// Whether this is the member for `field`.
    pub open spec fn describes(&self, field: FieldSpecView) -> bool {
        &&& self.name@ == field.name
        &&& self.vis@ == field.vis
        &&& tag_views(self.tags@) == field.tags
        &&& tag_views(self.docs@) == field.tags.filter(is_doc())
        &&& self.ty@ == field.ty.name()
        &&& self.nested == (field.ty is Nested)
        &&& match self.constraint {
            Some(text) => field.constraint == Some(text@),
            None => field.constraint is None,
        }
        &&& self.setter@ == "set_"@ + field.name
        &&& match self.validator {
            Some(name) => field.constraint is Some && name@ == "validate_"@ + field.name,
            None => field.constraint is None,
        }
        &&& self.rec_validator@ == "validate_"@ + field.name + "_rec"@
        &&& self.rec_validation == field.rec_validation()
        &&& self.rejection@ == "Predicate rejected value for "@ + field.name
    }
}

impl Structure {
    /// Whether this is the record type for `spec`, with this choice of `reflection`.
    pub open spec fn describes(&self, spec: RecordSpecView, reflection: Option<Separator>) -> bool {
        &&& self.name@ == spec.name
        &&& tag_views(self.tags@) == spec.tags
        &&& self.reflection == reflection
        &&& self.members.len() == spec.fields.len()
        &&& forall|i: int|
            0 <= i < self.members.len() ==> (#[trigger] self.members[i]).describes(spec.fields[i])
    }
}

/// The tags among `tags` that document, in order.
pub fn doc_tags(tags: &Vec<Tag>) -> (docs: Vec<Tag>)
    ensures
        tag_views(docs@) == tag_views(tags@).filter(is_doc()),
{
    let wanted = String::from_str("doc");
    let mut docs: Vec<Tag> = Vec::new();
    let mut i: usize = 0;
    proof {
        reveal(Seq::filter);
        assert(tag_views(tags@).take(0) =~= Seq::<TagView>::empty());
        assert(tag_views(docs@) =~= Seq::<TagView>::empty());
    }
    while i < tags.len()
        invariant
            i <= tags.len(),
            wanted@ == "doc"@,
            tag_views(docs@) == tag_views(tags@).take(i as int).filter(is_doc()),
        decreases tags.len() - i,
    {
        proof {
            assert(tag_views(tags@).take(i + 1) =~= tag_views(tags@).take(i as int).push(
                tags@[i as int]@,
            ));
            tag_views(tags@).take(i as int).lemma_filter_push(tags@[i as int]@, is_doc());
        }
        if tags[i].path == wanted {
            let ghost before = tag_views(docs@);
            docs.push(tags[i].clone());
            assert(tag_views(docs@) =~= before.push(tags@[i as int]@));
        }
        i += 1;
    }
    assert(tag_views(tags@).take(i as int) =~= tag_views(tags@));
    docs
}

/// `prefix` followed by `name`.
fn prefixed(prefix: &str, name: &String) -> (text: String)
    ensures
        text@ == prefix@ + name@,
{
    let mut text = String::from_str(prefix);
    text.append(name.as_str());
    text
}

impl FieldSpec {
    /// The member for this field.
    pub fn member(&self) -> (member: Member)
        ensures
            member.describes(self@),
    {
        let mut rec_validator = prefixed("validate_", &self.name);
        rec_validator.append("_rec");
        Member {
            name: self.name.clone(),
            vis: self.vis.clone(),
            tags: clone_tags(&self.tags),
            docs: doc_tags(&self.tags),
            ty: self.ty.ty(),
            nested: match &self.ty {
                FieldType::Scalar(_) => false,
                FieldType::Nested(_) => true,
            },
            constraint: match &self.constraint {
                Some(text) => Some(text.clone()),
                None => None,
            },
            setter: prefixed("set_", &self.name),
            validator: match &self.constraint {
                Some(_) => Some(prefixed("validate_", &self.name)),
                None => None,
            },
            rec_validator,
            rec_validation: match (&self.ty, &self.constraint) {
                (FieldType::Nested(_), Some(_)) => RecValidation::RecordAndConstraint,
                (FieldType::Nested(_), None) => RecValidation::Record,
                (FieldType::Scalar(_), Some(_)) => RecValidation::Local,
                (FieldType::Scalar(_), None) => RecValidation::Always,
            },
            rejection: prefixed("Predicate rejected value for ", &self.name),
        }
    }
}

impl RecordSpec {
    /// The record type for this definition: one member for each field, in
    /// declaration order. The tags of the definition are taken as they stand,
    /// so this is for a definition that flattening has resolved.
    pub fn structure(&self, reflection: Option<Separator>) -> (structure: Structure)
        ensures
            structure.describes(self@, reflection),
    {
        let mut members: Vec<Member> = Vec::new();
        let mut i: usize = 0;
        while i < self.fields.len()
            invariant
                i <= self.fields.len(),
                members.len() == i,
                forall|j: int| 0 <= j < i ==> (#[trigger] members[j]).describes(self@.fields[j]),
            decreases self.fields.len() - i,
        {
            assert(self.fields@[i as int]@ == self@.fields[i as int]);
            members.push(self.fields[i].member());
            i += 1;
        }
        Structure { name: self.name.clone(), tags: clone_tags(&self.tags), members, reflection }
    }
}

/// The record types of a whole schema: the definitions under `root` are
/// flattened, and each gets its record type, nested records first and `root`
/// last.
pub fn validator(root: &RecordSpec, reflection: Option<Separator>) -> (structures: Vec<Structure>)
    ensures
        structures.len() == root@.flattened(Seq::empty()).len(),
        forall|i: int|
            0 <= i < structures.len() ==> (#[trigger] structures[i]).describes(
                root@.flattened(Seq::empty())[i],
                reflection,
            ),
{
    let flat = root.flatten();
    let mut structures: Vec<Structure> = Vec::new();
    let mut i: usize = 0;
    while i < flat.len()
        invariant
            i <= flat.len(),
            structures.len() == i,
            record_views(flat@) == root@.flattened(Seq::empty()),
            forall|j: int|
                0 <= j < i ==> (#[trigger] structures[j]).describes(
                    root@.flattened(Seq::empty())[j],
                    reflection,
                ),
        decreases flat.len() - i,
    {
        assert(record_views(flat@)[i as int] == flat@[i as int]@);
        structures.push(flat[i].structure(reflection));
        i += 1;
    }
    assert(record_views(flat@).len() == flat@.len());
    structures
}

} // verus!
