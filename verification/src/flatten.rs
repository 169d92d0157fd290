//! Flattening: from a tree of record definitions to a list of them, nested
//! records first, with the tags that each record inherits written out.

use crate::schema::{
    clone_tags, tag_views, FieldSpec, FieldSpecView, FieldType, FieldTypeView, RecordSpec,
    RecordSpecView, Tag, TagView,
};
use vstd::prelude::*;

verus! {

/// The contents of a list of record definitions, in order.
pub open spec fn record_views(records: Seq<RecordSpec>) -> Seq<RecordSpecView> {
    Seq::new(records.len(), |i: int| records[i]@)
}

impl FieldSpecView {
    /// This field inside a record in which the tags `scope` are in force:
    /// a nested record is resolved under them, a scalar is left alone.
    pub open spec fn resolved(self, scope: Seq<TagView>) -> FieldSpecView
        decreases self, 0nat,
    {
        FieldSpecView {
            name: self.name,
            vis: self.vis,
            tags: self.tags,
            ty: match self.ty {
                FieldTypeView::Scalar(name) => FieldTypeView::Scalar(name),
                FieldTypeView::Nested(record) => FieldTypeView::Nested(record.resolved(scope)),
            },
            constraint: self.constraint,
        }
    }
}

impl RecordSpecView {
    /// The tags in force inside this record, when `outer` are in force around
    /// it: those that came down from the enclosing records, outermost first,
    /// then the recursive tags of the record itself.
    pub open spec fn scope(self, outer: Seq<TagView>) -> Seq<TagView> {
        outer + self.recursive_tags
    }

    /// This record with its effective tags: its own, followed by all that
    /// are in force inside it. Nothing is left to hand down, and every nested
    /// record is resolved in turn.
    pub open spec fn resolved(self, outer: Seq<TagView>) -> RecordSpecView
        decreases self, 0nat,
    {
        RecordSpecView {
            name: self.name,
            tags: self.tags + self.scope(outer),
            recursive_tags: Seq::empty(),
            fields: Seq::new(
                self.fields.len(),
                |i: int|
                    if 0 <= i < self.fields.len() {
                        self.fields[i].resolved(self.scope(outer))
                    } else {
                        arbitrary()
                    },
            ),
        }
    }

    /// What flattening the first `n` fields contributes: for each nested
    /// field, in declaration order, the flattening of its record.
    pub open spec fn flattened_fields(self, outer: Seq<TagView>, n: nat) -> Seq<RecordSpecView>
        decreases self, n,
    {
        if n == 0 || n > self.fields.len() {
            Seq::empty()
        } else {
            self.flattened_fields(outer, (n - 1) as nat) + match self.fields[n - 1].ty {
                FieldTypeView::Scalar(_) => Seq::empty(),
                FieldTypeView::Nested(record) => record.flattened(self.scope(outer)),
            }
        }
    }

    /// The flattening of this record: all that its fields contribute, then
    /// the record itself, resolved.
    pub open spec fn flattened(self, outer: Seq<TagView>) -> Seq<RecordSpecView>
        decreases self, self.fields.len() + 1,
    {
        self.flattened_fields(outer, self.fields.len()).push(self.resolved(outer))
    }
}

impl RecordSpecView {
    /// Whether a record nested in this one, at any depth, declares `tag`,
    /// as a tag of its own or as a recursive one.
    pub open spec fn declares_below(self, tag: TagView) -> bool
        decreases self,
    {
        exists|f: int|
            0 <= f < self.fields.len() && (#[trigger] self.fields[f]).ty is Nested && {
                let nested = self.fields[f].ty->Nested_0;
                nested.tags.contains(tag) || nested.recursive_tags.contains(tag)
                    || nested.declares_below(tag)
            }
    }

    /// The contribution of the first `n` fields opens that of the first `m`, for `n <= m`.
    proof fn lemma_flattened_fields_grow(self, outer: Seq<TagView>, n: nat, m: nat)
        requires
            n <= m <= self.fields.len(),
        ensures
            self.flattened_fields(outer, n).len() <= self.flattened_fields(outer, m).len(),
            self.flattened_fields(outer, n) == self.flattened_fields(outer, m).take(
                self.flattened_fields(outer, n).len() as int,
            ),
        decreases m,
    {
        if n == m {
            assert(self.flattened_fields(outer, n) =~= self.flattened_fields(outer, m).take(
                self.flattened_fields(outer, n).len() as int,
            ));
        } else {
            self.lemma_flattened_fields_grow(outer, n, (m - 1) as nat);
            assert(self.flattened_fields(outer, n) =~= self.flattened_fields(outer, m).take(
                self.flattened_fields(outer, n).len() as int,
            ));
        }
    }

    /// Every entry that the first `n` fields contribute comes from the
    /// flattening of one nested field among them.
    proof fn lemma_flattened_fields_origin(self, outer: Seq<TagView>, n: nat, k: int) -> (f: int)
        requires
            n <= self.fields.len(),
            0 <= k < self.flattened_fields(outer, n).len(),
        ensures
            0 <= f < n,
            self.fields[f].ty is Nested,
            self.flattened_fields(outer, f as nat).len() <= k,
            k - self.flattened_fields(outer, f as nat).len() < self.fields[f].ty->Nested_0.flattened(
                self.scope(outer),
            ).len(),
            self.flattened_fields(outer, n)[k] == self.fields[f].ty->Nested_0.flattened(
                self.scope(outer),
            )[k - self.flattened_fields(outer, f as nat).len()],
        decreases n,
    {
        let before = self.flattened_fields(outer, (n - 1) as nat);
        if k < before.len() {
            self.lemma_flattened_fields_origin(outer, (n - 1) as nat, k)
        } else {
            n - 1
        }
    }

    /// The flattening of a nested record is one unbroken part of the
    /// flattening of the record that holds it, and lies before that record's
    /// own entry.
    pub proof fn lemma_nested_flattening_is_part(self, outer: Seq<TagView>, f: int)
        requires
            0 <= f < self.fields.len(),
            self.fields[f].ty is Nested,
        ensures
            ({
                let part = self.fields[f].ty->Nested_0.flattened(self.scope(outer));
                let start = self.flattened_fields(outer, f as nat).len() as int;
                &&& start + part.len() < self.flattened(outer).len()
                &&& self.flattened(outer).subrange(start, start + part.len()) == part
            }),
    {
        let part = self.fields[f].ty->Nested_0.flattened(self.scope(outer));
        let start = self.flattened_fields(outer, f as nat).len() as int;
        self.lemma_flattened_fields_grow(outer, (f + 1) as nat, self.fields.len());
        assert(self.flattened_fields(outer, (f + 1) as nat) == self.flattened_fields(
            outer,
            f as nat,
        ) + part);
        assert(self.flattened(outer).subrange(start, start + part.len()) =~= part) by {
            assert forall|i: int| 0 <= i < part.len() implies self.flattened(outer)[start + i]
                == part[i] by {
                assert(self.flattened_fields(outer, (f + 1) as nat)[start + i] == part[i]);
                assert(self.flattened_fields(outer, self.fields.len()).take(
                    start + part.len(),
                )[start + i] == self.flattened_fields(outer, self.fields.len())[start + i]);
            }
        }
    }

    /// A record's own entry closes its flattening.
    pub proof fn lemma_own_entry_is_last(self, outer: Seq<TagView>)
        ensures
            self.flattened(outer).len() > 0,
            self.flattened(outer).last() == self.resolved(outer),
    {
    }

    /// Children before parents: wherever an entry of the flattening has a
    /// nested field, the record of that field has an entry of its own
    /// strictly before it.
    pub proof fn lemma_nested_records_come_first(self, outer: Seq<TagView>, k: int, f: int)
        requires
            0 <= k < self.flattened(outer).len(),
            0 <= f < self.flattened(outer)[k].fields.len(),
            self.flattened(outer)[k].fields[f].ty is Nested,
        ensures
            exists|j: int|
                0 <= j < k && #[trigger] self.flattened(outer)[j] == self.flattened(
                    outer,
                )[k].fields[f].ty->Nested_0,
        decreases self,
    {
        let all = self.flattened(outer);
        let inner = self.flattened_fields(outer, self.fields.len());
        let scope = self.scope(outer);
        if k == inner.len() {
            let nested = self.fields[f].ty->Nested_0;
            let part = nested.flattened(scope);
            let start = self.flattened_fields(outer, f as nat).len() as int;
            self.lemma_nested_flattening_is_part(outer, f);
            let j = start + part.len() - 1;
            assert(all.subrange(start, start + part.len())[part.len() - 1] == all[j]);
            assert(all[j] == nested.resolved(scope));
        } else {
            let g = self.lemma_flattened_fields_origin(outer, self.fields.len(), k);
            let nested = self.fields[g].ty->Nested_0;
            let part = nested.flattened(scope);
            let start = self.flattened_fields(outer, g as nat).len() as int;
            nested.lemma_nested_records_come_first(scope, k - start, f);
            let j0 = choose|j: int|
                0 <= j < k - start && #[trigger] part[j] == part[k - start].fields[f].ty->Nested_0;
            self.lemma_nested_flattening_is_part(outer, g);
            assert(all.subrange(start, start + part.len())[j0] == all[start + j0]);
            assert(all[start + j0] == all[k].fields[f].ty->Nested_0);
        }
    }

    /// Recursive tags reach every nested record: a tag in force inside this
    /// record, be it a recursive tag of the record itself or one handed down
    /// to it, is among the tags of every entry of its flattening.
    pub proof fn lemma_recursive_tags_reach_all(self, outer: Seq<TagView>, tag: TagView, k: int)
        requires
            self.scope(outer).contains(tag),
            0 <= k < self.flattened(outer).len(),
        ensures
            self.flattened(outer)[k].tags.contains(tag),
        decreases self,
    {
        let inner = self.flattened_fields(outer, self.fields.len());
        let scope = self.scope(outer);
        let at = choose|i: int| 0 <= i < scope.len() && scope[i] == tag;
        if k == inner.len() {
            assert((self.tags + scope)[self.tags.len() + at] == tag);
        } else {
            let g = self.lemma_flattened_fields_origin(outer, self.fields.len(), k);
            let nested = self.fields[g].ty->Nested_0;
            assert(nested.scope(scope)[at] == tag);
            nested.lemma_recursive_tags_reach_all(
                scope,
                tag,
                k - self.flattened_fields(outer, g as nat).len(),
            );
        }
    }

    /// A tag found on the entry of a record nested in this one was in force
    /// inside this record, or is declared by a nested record.
    proof fn lemma_nested_tag_origin(self, outer: Seq<TagView>, tag: TagView, k: int)
        requires
            0 <= k < self.flattened(outer).len() - 1,
            self.flattened(outer)[k].tags.contains(tag),
        ensures
            self.scope(outer).contains(tag) || self.declares_below(tag),
        decreases self,
    {
        let scope = self.scope(outer);
        let g = self.lemma_flattened_fields_origin(outer, self.fields.len(), k);
        let nested = self.fields[g].ty->Nested_0;
        let part = nested.flattened(scope);
        let at = k - self.flattened_fields(outer, g as nat).len();
        if at == part.len() - 1 {
            let tags = nested.tags + (scope + nested.recursive_tags);
            let i = choose|i: int| 0 <= i < tags.len() && tags[i] == tag;
            if i < nested.tags.len() {
                assert(nested.tags[i] == tag);
            } else if i < nested.tags.len() + scope.len() {
                assert(scope[i - nested.tags.len()] == tag);
            } else {
                assert(nested.recursive_tags[i - nested.tags.len() - scope.len()] == tag);
            }
        } else {
            nested.lemma_nested_tag_origin(scope, tag, at);
            if nested.scope(scope).contains(tag) {
                let i = choose|i: int|
                    0 <= i < nested.scope(scope).len() && nested.scope(scope)[i] == tag;
                if i < scope.len() {
                    assert(scope[i] == tag);
                } else {
                    assert(nested.recursive_tags[i - scope.len()] == tag);
                }
            }
        }
        if !scope.contains(tag) {
            assert(self.fields[g].ty is Nested);
            assert(nested.tags.contains(tag) || nested.recursive_tags.contains(tag)
                || nested.declares_below(tag));
        }
    }

    /// A tag that a nested record declares is on the entry of a nested record.
    proof fn lemma_declared_tag_shows(self, outer: Seq<TagView>, tag: TagView) -> (k: int)
        requires
            self.declares_below(tag),
        ensures
            0 <= k < self.flattened(outer).len() - 1,
            self.flattened(outer)[k].tags.contains(tag),
        decreases self,
    {
        let scope = self.scope(outer);
        let f = choose|f: int|
            0 <= f < self.fields.len() && (#[trigger] self.fields[f]).ty is Nested && {
                let nested = self.fields[f].ty->Nested_0;
                nested.tags.contains(tag) || nested.recursive_tags.contains(tag)
                    || nested.declares_below(tag)
            };
        let nested = self.fields[f].ty->Nested_0;
        let part = nested.flattened(scope);
        let start = self.flattened_fields(outer, f as nat).len() as int;
        self.lemma_nested_flattening_is_part(outer, f);
        let within = if nested.tags.contains(tag) {
            let i = choose|i: int| 0 <= i < nested.tags.len() && nested.tags[i] == tag;
            assert(nested.resolved(scope).tags[i] == tag);
            part.len() - 1
        } else if nested.recursive_tags.contains(tag) {
            let i = choose|i: int|
                0 <= i < nested.recursive_tags.len() && nested.recursive_tags[i] == tag;
            assert(nested.resolved(scope).tags[nested.tags.len() + scope.len() + i] == tag);
            part.len() - 1
        } else {
            nested.lemma_declared_tag_shows(scope, tag)
        };
        assert(self.flattened(outer).subrange(start, start + part.len())[within]
            == self.flattened(outer)[start + within]);
        start + within
    }

    /// Local tags stay local. The entry of a record nested in this one
    /// carries `tag` in two cases only: `tag` is in force inside this record,
    /// or a nested record declares it. So a tag that this record alone
    /// declares, and as a tag of its own, is on the record's own entry and on
    /// no other.
    pub proof fn lemma_local_tags_stay(self, outer: Seq<TagView>, tag: TagView)
        ensures
            (exists|k: int|
                0 <= k < self.flattened(outer).len() - 1 && (#[trigger] self.flattened(
                    outer,
                )[k]).tags.contains(tag)) <==> self.declares_below(tag) || (self.scope(
                outer,
            ).contains(tag) && self.flattened(outer).len() > 1),
    {
        if exists|k: int|
            0 <= k < self.flattened(outer).len() - 1 && (#[trigger] self.flattened(
                outer,
            )[k]).tags.contains(tag) {
            let k = choose|k: int|
                0 <= k < self.flattened(outer).len() - 1 && (#[trigger] self.flattened(
                    outer,
                )[k]).tags.contains(tag);
            self.lemma_nested_tag_origin(outer, tag, k);
        }
        if self.declares_below(tag) {
            let k = self.lemma_declared_tag_shows(outer, tag);
            assert(self.flattened(outer)[k].tags.contains(tag));
        } else if self.scope(outer).contains(tag) && self.flattened(outer).len() > 1 {
            self.lemma_recursive_tags_reach_all(outer, tag, 0);
            assert(self.flattened(outer)[0].tags.contains(tag));
        }
    }
}

/// The recursive tags of the records that the traversal is inside of, one
/// frame for each, the outermost at the bottom.
pub struct ScopeStack {
    frames: Vec<Vec<Tag>>,
}

impl View for ScopeStack {
    type V = Seq<Seq<TagView>>;

    closed spec fn view(&self) -> Seq<Seq<TagView>> {
        Seq::new(self.frames@.len(), |i: int| tag_views(self.frames@[i]@))
    }
}

impl ScopeStack {
    /// A stack with no frame on it.
    pub fn new() -> (stack: Self)
        ensures
            stack@ == Seq::<Seq<TagView>>::empty(),
    {
        let stack = ScopeStack { frames: Vec::new() };
        assert(stack@ =~= Seq::<Seq<TagView>>::empty());
        stack
    }

    /// Puts a frame on top.
    pub fn push(&mut self, frame: Vec<Tag>)
        ensures
            final(self)@ == old(self)@.push(tag_views(frame@)),
    {
        self.frames.push(frame);
        assert(self@ =~= old(self)@.push(tag_views(frame@)));
    }

    /// Takes the top frame off, if there is one.
    pub fn pop(&mut self) -> (frame: Option<Vec<Tag>>)
        ensures
            old(self)@.len() == 0 ==> frame is None && final(self)@ == old(self)@,
            old(self)@.len() > 0 ==> frame is Some && tag_views(frame->0@) == old(self)@.last()
                && final(self)@ == old(self)@.drop_last(),
    {
        let frame = self.frames.pop();
        assert(old(self)@.len() == 0 ==> self@ =~= old(self)@);
        assert(old(self)@.len() > 0 ==> self@ =~= old(self)@.drop_last());
        frame
    }

    /// The number of frames.
    pub fn depth(&self) -> (n: usize)
        ensures
            n == self@.len(),
    {
        self.frames.len()
    }

    /// All tags on the stack as one list, from the bottom frame to the top one.
    pub fn collect(&self) -> (tags: Vec<Tag>)
        ensures
            tag_views(tags@) == self@.flatten(),
    {
        let mut tags: Vec<Tag> = Vec::new();
        let mut i: usize = 0;
        assert(self@.take(0) =~= Seq::<Seq<TagView>>::empty());
        while i < self.frames.len()
            invariant
                i <= self.frames.len(),
                tag_views(tags@) == self@.take(i as int).flatten(),
            decreases self.frames.len() - i,
        {
            let mut frame = clone_tags(&self.frames[i]);
            let ghost before = tags@;
            tags.append(&mut frame);
            proof {
                assert(tag_views(tags@) =~= tag_views(before) + self@[i as int]);
                assert(self@.take(i + 1) =~= self@.take(i as int).push(self@[i as int]));
                self@.take(i as int).lemma_flatten_push(self@[i as int]);
            }
            i += 1;
        }
        assert(self@.take(i as int) =~= self@);
        tags
    }
}

impl RecordSpec {
    /// Flattens the records nested in this one onto `list`, then this record
    /// itself, and returns this record as it was put there. On entry `scopes`
    /// holds the recursive tags of the enclosing records; it is handed back
    /// as it was found.
    pub fn flatten_go(&self, list: &mut Vec<RecordSpec>, scopes: &mut ScopeStack) -> (resolved:
        RecordSpec)
        ensures
            final(scopes)@ == old(scopes)@,
            record_views(final(list)@) == record_views(old(list)@) + self@.flattened(
                old(scopes)@.flatten(),
            ),
            resolved@ == self@.resolved(old(scopes)@.flatten()),
        decreases self,
    {
        let ghost outer = old(scopes)@.flatten();
        let ghost scope = self@.scope(outer);
        scopes.push(clone_tags(&self.recursive_tags));
        proof {
            old(scopes)@.lemma_flatten_push(self@.recursive_tags);
        }
        let mut tags = clone_tags(&self.tags);
        let mut in_force = scopes.collect();
        tags.append(&mut in_force);
        assert(tag_views(tags@) =~= self@.tags + scope);

        let mut fields: Vec<FieldSpec> = Vec::new();
        let mut i: usize = 0;
        while i < self.fields.len()
            invariant
                i <= self.fields.len(),
                scopes@ == old(scopes)@.push(self@.recursive_tags),
                scopes@.flatten() == scope,
                scope == self@.scope(outer),
                fields.len() == i,
                forall|j: int| 0 <= j < i ==> fields@[j]@ == self@.fields[j].resolved(scope),
                record_views(list@) == record_views(old(list)@) + self@.flattened_fields(
                    outer,
                    i as nat,
                ),
            decreases self.fields.len() - i,
        {
            let field = &self.fields[i];
            assert(field@ == self@.fields[i as int]);
            let ghost before = list@;
            let ty = match &field.ty {
                FieldType::Scalar(name) => FieldType::Scalar(name.clone()),
                FieldType::Nested(record) => FieldType::Nested(record.flatten_go(list, scopes)),
            };
            fields.push(
                FieldSpec {
                    name: field.name.clone(),
                    vis: field.vis.clone(),
                    tags: clone_tags(&field.tags),
                    ty,
                    constraint: match &field.constraint {
                        Some(text) => Some(text.clone()),
                        None => None,
                    },
                },
            );
            i += 1;
            assert(record_views(list@) =~= record_views(old(list)@) + self@.flattened_fields(
                outer,
                i as nat,
            ));
        }
        scopes.pop();
        assert(scopes@ =~= old(scopes)@);
        let resolved = RecordSpec {
            name: self.name.clone(),
            tags,
            recursive_tags: Vec::new(),
            fields,
        };
        assert(resolved@.recursive_tags =~= Seq::<TagView>::empty());
        assert(resolved@.fields =~= self@.resolved(outer).fields);
        assert(resolved@ == self@.resolved(outer));
        let ghost before = list@;
        list.push(resolved.clone());
        assert(record_views(list@) =~= record_views(before).push(resolved@));
        resolved
    }

    /// The list of all record definitions in the tree under this one: each
    /// comes after the records nested in it, this one comes last, and each
    /// carries its effective tags.
    pub fn flatten(&self) -> (list: Vec<RecordSpec>)
        ensures
            record_views(list@) == self@.flattened(Seq::empty()),
    {
        let mut list: Vec<RecordSpec> = Vec::new();
        let mut scopes = ScopeStack::new();
        self.flatten_go(&mut list, &mut scopes);
        assert(record_views(list@) =~= self@.flattened(Seq::empty()));
        list
    }
}

} // verus!
