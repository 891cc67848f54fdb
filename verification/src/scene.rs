//! The scene registry: semantically identified entities wrapping ordinary
//! nodes, with stable ids in insertion order, tags interned into ids in order
//! of first use, lookup by label and resolution of effect targets. The
//! time-dependent presentation that effects compute lives with the
//! floating-point code outside this library.
use crate::node::Node;
use crate::text::chars_of;
use vstd::prelude::*;

verus! {

/// Stable identity of a scene entity, assigned by `Scene::add`.
#[derive(Debug, Clone, Copy, PartialEq, Eq, Structural, Hash, PartialOrd, Ord)]
pub struct SceneId(pub u64);

/// Stable identity of a semantic tag, interned by `Scene::tag`.
#[derive(Debug, Clone, Copy, PartialEq, Eq, Structural, Hash, PartialOrd, Ord)]
pub struct TagId(pub u64);

/// An effect target: one entity by id, or every entity carrying a tag.
#[derive(Debug, Clone, Copy, PartialEq, Eq, Structural, Hash)]
pub enum SceneTarget {
    Id(SceneId),
    Tag(TagId),
}

/// A presentation channel that effects write.
#[derive(Debug, Clone, Copy, PartialEq, Eq, Structural, Hash, PartialOrd, Ord)]
pub enum Channel {
    /// Integer cell translation, applied as an out-of-flow offset.
    Position,
    /// Visibility in `[0, 1]`; a terminal shows an entity when it is above 0.
    Visibility,
    /// The scene's camera offset in cells.
    Camera,
    /// An application-defined scalar channel.
    Custom(u64),
}

/// A semantically identified wrapper around an ordinary node: identity,
/// tags and a z-order, with a baseline visibility and offset.
#[derive(Debug)]
pub struct SceneEntity {
    /// Filled in by `Scene::add`; `SceneId(0)` before that.
    pub id: SceneId,
    /// Human-readable label used for lookup.
    pub label: String,
    /// Tags interned when the entity is added to a scene.
    pub tags: Vec<TagId>,
    /// The tag names requested on this entity, in order.
    pub tag_names: Vec<String>,
    /// The node this entity stands for.
    pub node: Node,
    /// Compositing order: higher paints later (on top).
    pub z: i32,
    /// Baseline visibility when no effect overrides it.
    pub visible: bool,
    /// Baseline cell offset when no effect overrides it.
    pub offset: (i32, i32),
}

/// The views of owned strings.
pub open spec fn string_views(v: Seq<String>) -> Seq<Seq<char>> {
    v.map_values(|s: String| s@)
}

impl SceneEntity {
    /// An entity with `label` for `node`: visible, at z 0 and offset (0, 0),
    /// without tags.
    pub fn new(label: &str, node: Node) -> (e: Self)
        ensures
            e.id == SceneId(0),
            e.label@ == label@,
            e.tags@.len() == 0,
            e.tag_names@.len() == 0,
            e.node == node,
            e.z == 0,
            e.visible,
            e.offset == (0i32, 0i32),
    {
        SceneEntity {
            id: SceneId(0),
            label: label.to_string(),
            tags: Vec::new(),
            tag_names: Vec::new(),
            node,
            z: 0,
            visible: true,
            offset: (0, 0),
        }
    }

    /// The same entity with the tag `name` requested.
    pub fn tag(self, name: &str) -> (e: Self)
        ensures
            string_views(e.tag_names@) == string_views(self.tag_names@).push(name@),
            e.id == self.id && e.label == self.label && e.tags == self.tags && e.node == self.node,
            e.z == self.z && e.visible == self.visible && e.offset == self.offset,
    {
        let mut e = self;
        e.tag_names.push(name.to_string());
        proof {
            assert(string_views(e.tag_names@) =~= string_views(self.tag_names@).push(name@));
        }
        e
    }

    /// The same entity at compositing order `z`.
    pub fn z(self, z: i32) -> (e: Self)
        ensures
            e.z == z,
            e.id == self.id && e.label == self.label && e.tags == self.tags && e.tag_names == self.tag_names,
            e.node == self.node && e.visible == self.visible && e.offset == self.offset,
    {
        let mut e = self;
        e.z = z;
        e
    }

    /// The same entity, hidden until an effect reveals it.
    pub fn hidden(self) -> (e: Self)
        ensures
            !e.visible,
            e.id == self.id && e.label == self.label && e.tags == self.tags && e.tag_names == self.tag_names,
            e.node == self.node && e.z == self.z && e.offset == self.offset,
    {
        let mut e = self;
        e.visible = false;
        e
    }

    /// The same entity with baseline offset `(x, y)`.
    pub fn offset(self, x: i32, y: i32) -> (e: Self)
        ensures
            e.offset == (x, y),
            e.id == self.id && e.label == self.label && e.tags == self.tags && e.tag_names == self.tag_names,
            e.node == self.node && e.z == self.z && e.visible == self.visible,
    {
        let mut e = self;
        e.offset = (x, y);
        e
    }

    /// The tag names requested on this entity (before interning).
    pub fn tag_labels(&self) -> (t: &[String])
        ensures
            t@ == self.tag_names@,
    {
        self.tag_names.as_slice()
    }
}


/// Whether `v` and `w` hold the same characters.
fn same_text(v: &str, w: &str) -> (b: bool)
    ensures
        b == (v@ == w@),
{
    let a = chars_of(v);
    let c = chars_of(w);
    if a.len() != c.len() {
        return false;
    }
    let mut i: usize = 0;
    while i < a.len()
        invariant
            a@ == v@,
            c@ == w@,
            a@.len() == c@.len(),
            i <= a@.len(),
            forall|j: int| 0 <= j < i ==> a@[j] == c@[j],
        decreases a@.len() - i,
    {
        if a[i] != c[i] {
            return false;
        }
        i = i + 1;
    }
    proof {
        assert(a@ =~= c@);
    }
    true
}

/// The tag names `names` with `name` interned: unchanged when it is there,
/// else appended.
pub open spec fn with_tag(names: Seq<Seq<char>>, name: Seq<char>) -> Seq<Seq<char>> {
    if names.contains(name) { names } else { names.push(name) }
}

/// The tag names `names` with each of `added` interned in turn.
pub open spec fn with_tags(names: Seq<Seq<char>>, added: Seq<Seq<char>>) -> Seq<Seq<char>>
    decreases added.len(),
{
    if added.len() == 0 { names } else { with_tag(with_tags(names, added.drop_last()), added.last()) }
}

/// Interning is idempotent and keeps every earlier tag where it was:
/// interning a name a second time changes nothing, and the tags interned
/// before keep their ids.
pub proof fn law_interning_is_stable(names: Seq<Seq<char>>, name: Seq<char>)
    ensures
        with_tag(with_tag(names, name), name) == with_tag(names, name),
        with_tag(names, name).len() >= names.len(),
        forall|i: int| 0 <= i < names.len() ==> #[trigger] with_tag(names, name)[i] == names[i],
        with_tag(names, name).contains(name),
{
    if !names.contains(name) {
        let n1 = names.push(name);
        assert(n1[names.len() as int] == name);
        assert(n1.contains(name));
    }
}

/// No name occurs twice.
pub open spec fn distinct_names(names: Seq<Seq<char>>) -> bool {
    forall|i: int, j: int| 0 <= i < names.len() && 0 <= j < names.len() && i != j ==> #[trigger] names[i] != #[trigger] names[j]
}

/// The index of the last entity labelled `label`, or -1.
pub open spec fn last_labelled(es: Seq<SceneEntity>, label: Seq<char>) -> int
    decreases es.len(),
{
    if es.len() == 0 {
        -1
    } else if es.last().label@ == label {
        es.len() - 1
    } else {
        last_labelled(es.drop_last(), label)
    }
}

/// The ids of the entities carrying `tag`, in insertion order.
pub open spec fn tagged_ids(es: Seq<SceneEntity>, tag: TagId) -> Seq<SceneId>
    decreases es.len(),
{
    if es.len() == 0 {
        Seq::empty()
    } else if es.last().tags@.contains(tag) {
        tagged_ids(es.drop_last(), tag).push(es.last().id)
    } else {
        tagged_ids(es.drop_last(), tag)
    }
}

/// A set of entities with stable ids, and the tag names interned so far.
#[derive(Debug)]
pub struct Scene {
    /// The entities in insertion order; entity `i` has id `i`.
    pub entities: Vec<SceneEntity>,
    /// The interned tag names; tag `i` is named `tag_names[i]`.
    pub tag_names: Vec<String>,
    /// The id the next entity gets.
    pub next_id: u64,
}

impl Scene {
    /// Entity `i` has id `i`, its tags are interned, and no tag name occurs
    /// twice.
    pub open spec fn wf(&self) -> bool {
        &&& self.entities@.len() == self.next_id
        &&& forall|i: int| 0 <= i < self.entities@.len() ==> (#[trigger] self.entities@[i]).id == SceneId(i as u64)
        &&& forall|i: int, k: int| 0 <= i < self.entities@.len() && 0 <= k < self.entities@[i].tags@.len() ==>
            (#[trigger] self.entities@[i].tags@[k]).0 < self.tag_names@.len()
        &&& distinct_names(string_views(self.tag_names@))
    }

    /// An empty scene.
    pub fn new() -> (s: Self)
        ensures
            s.wf(),
            s.entities@.len() == 0,
            s.tag_names@.len() == 0,
            s.next_id == 0,
    {
        Scene { entities: Vec::new(), tag_names: Vec::new(), next_id: 0 }
    }

    /// Interns `name`: its existing id, or the next one.
    fn intern_tag(&mut self, name: &str) -> (t: TagId)
        requires
            distinct_names(string_views(old(self).tag_names@)),
        ensures
            string_views(final(self).tag_names@) == with_tag(string_views(old(self).tag_names@), name@),
            distinct_names(string_views(final(self).tag_names@)),
            t.0 < final(self).tag_names@.len(),
            final(self).tag_names@[t.0 as int]@ == name@,
            final(self).tag_names@.len() >= old(self).tag_names@.len(),
            final(self).entities == old(self).entities,
            final(self).next_id == old(self).next_id,
    {
        let ghost names = string_views(self.tag_names@);
        let mut i: usize = 0;
        while i < self.tag_names.len()
            invariant
                names == string_views(self.tag_names@),
                distinct_names(names),
                *self == *old(self),
                i <= self.tag_names@.len(),
                forall|j: int| 0 <= j < i ==> names[j] != name@,
            decreases self.tag_names@.len() - i,
        {
            if same_text(self.tag_names[i].as_str(), name) {
                proof {
                    assert(names[i as int] == name@);
                    assert(names.contains(name@));
                }
                return TagId(i as u64);
            }
            i = i + 1;
        }
        proof {
            assert(!names.contains(name@));
        }
        let t = TagId(self.tag_names.len() as u64);
        self.tag_names.push(name.to_string());
        proof {
            assert(string_views(self.tag_names@) =~= names.push(name@));
        }
        proof {
            assert forall|i: int, j: int| 0 <= i < self.tag_names@.len() && 0 <= j < self.tag_names@.len() && i != j implies
                #[trigger] string_views(self.tag_names@)[i] != #[trigger] string_views(self.tag_names@)[j] by {
                if i < names.len() && j < names.len() {
                    assert(names[i] != names[j]);
                } else if i == names.len() {
                    assert(names[j] != name@);
                } else {
                    assert(names[i] != name@);
                }
            }
        }
        t
    }

    /// Interns the tag `name` into a `TagId`: the id it already has, else
    /// the next one.
    pub fn tag(&mut self, name: &str) -> (t: TagId)
        requires
            old(self).wf(),
        ensures
            final(self).wf(),
            string_views(final(self).tag_names@) == with_tag(string_views(old(self).tag_names@), name@),
            t.0 < final(self).tag_names@.len(),
            final(self).tag_names@[t.0 as int]@ == name@,
            final(self).entities == old(self).entities,
            final(self).next_id == old(self).next_id,
    {
        self.intern_tag(name)
    }

    /// Adds `entity` under the next id, interning its requested tags in
    /// order, and returns the id.
    pub fn add(&mut self, entity: SceneEntity) -> (id: SceneId)
        requires
            old(self).wf(),
            old(self).next_id < u64::MAX,
        ensures
            final(self).wf(),
            id == SceneId(old(self).next_id),
            final(self).next_id == old(self).next_id + 1,
            string_views(final(self).tag_names@) == with_tags(string_views(old(self).tag_names@), string_views(entity.tag_names@)),
            final(self).entities@.len() == old(self).entities@.len() + 1,
            final(self).entities@.drop_last() == old(self).entities@,
            ({
                let e = final(self).entities@.last();
                &&& e.id == id
                &&& e.label == entity.label && e.tag_names == entity.tag_names && e.node == entity.node
                &&& e.z == entity.z && e.visible == entity.visible && e.offset == entity.offset
                &&& e.tags@.len() == entity.tag_names@.len()
                &&& forall|k: int| 0 <= k < e.tags@.len() ==> final(self).tag_names@[(#[trigger] e.tags@[k]).0 as int]@ == entity.tag_names@[k]@
            }),
    {
        let id = SceneId(self.next_id);
        self.next_id = self.next_id + 1;
        let mut e = entity;
        let mut tags: Vec<TagId> = Vec::new();
        let ghost labels = string_views(e.tag_names@);
        let ghost names0 = string_views(self.tag_names@);
        let mut k: usize = 0;
        while k < e.tag_names.len()
            invariant
                labels == string_views(e.tag_names@),
                e.tag_names == entity.tag_names,
                k <= e.tag_names@.len(),
                tags@.len() == k,
                distinct_names(string_views(self.tag_names@)),
                string_views(self.tag_names@) == with_tags(names0, labels.take(k as int)),
                self.tag_names@.len() >= names0.len(),
                forall|j: int| 0 <= j < k ==> (#[trigger] tags@[j]).0 < self.tag_names@.len()
                    && self.tag_names@[tags@[j].0 as int]@ == e.tag_names@[j]@,
                self.entities == old(self).entities,
                self.next_id == old(self).next_id + 1,
            decreases e.tag_names@.len() - k,
        {
            let ghost before = self.tag_names@;
            let t = self.intern_tag(e.tag_names[k].as_str());
            proof {
                assert(labels.take(k + 1).drop_last() =~= labels.take(k as int));
                assert(self.tag_names@.len() >= before.len());
                assert forall|j: int| 0 <= j < k implies self.tag_names@[tags@[j].0 as int]@ == e.tag_names@[j]@ by {
                    let ti = tags@[j].0 as int;
                    assert(string_views(self.tag_names@)[ti] == string_views(before)[ti]);
                }
            }
            tags.push(t);
            k = k + 1;
        }
        proof {
            assert(labels.take(e.tag_names@.len() as int) =~= labels);
        }
        e.id = id;
        e.tags = tags;
        self.entities.push(e);
        proof {
            assert(self.entities@.drop_last() =~= old(self).entities@);
            assert forall|i: int, kk: int| 0 <= i < self.entities@.len() && 0 <= kk < self.entities@[i].tags@.len() implies
                (#[trigger] self.entities@[i].tags@[kk]).0 < self.tag_names@.len() by {
                if i < old(self).entities@.len() {
                    assert(self.entities@[i] == old(self).entities@[i]);
                }
            }
        }
        id
    }

    /// The id of the entity labelled `label` (the last one added, where
    /// several share it).
    pub fn id_of(&self, label: &str) -> (r: Option<SceneId>)
        ensures
            last_labelled(self.entities@, label@) == -1 ==> r is None,
            last_labelled(self.entities@, label@) >= 0 ==> r == Some(self.entities@[last_labelled(self.entities@, label@)].id),
    {
        let mut i: usize = self.entities.len();
        proof {
            assert(self.entities@.take(i as int) =~= self.entities@);
        }
        while i > 0
            invariant
                i <= self.entities@.len(),
                last_labelled(self.entities@, label@) == last_labelled(self.entities@.take(i as int), label@),
            decreases i,
        {
            let ghost pre = self.entities@.take(i as int);
            proof {
                assert(pre.drop_last() =~= self.entities@.take(i - 1));
            }
            if same_text(self.entities[i - 1].label.as_str(), label) {
                return Some(self.entities[i - 1].id);
            }
            i = i - 1;
        }
        None
    }

    /// The target of the entity labelled `label`, where there is one.
    pub fn target(&self, label: &str) -> (r: Option<SceneTarget>)
        ensures
            last_labelled(self.entities@, label@) == -1 ==> r is None,
            last_labelled(self.entities@, label@) >= 0 ==>
                r == Some(SceneTarget::Id(self.entities@[last_labelled(self.entities@, label@)].id)),
    {
        match self.id_of(label) {
            Some(id) => Some(SceneTarget::Id(id)),
            None => None,
        }
    }

    /// The entities in insertion order.
    pub fn entities(&self) -> (es: &[SceneEntity])
        ensures
            es@ == self.entities@,
    {
        self.entities.as_slice()
    }

    /// The position of the entity with `id`, where there is one.
    fn position_of(&self, id: SceneId) -> (r: Option<usize>)
        requires
            self.wf(),
        ensures
            match r {
                Some(i) => i as int == id.0 && id.0 < self.entities@.len(),
                None => id.0 >= self.entities@.len(),
            },
    {
        if id.0 < self.entities.len() as u64 {
            Some(id.0 as usize)
        } else {
            None
        }
    }

    /// The entity with `id`, where there is one.
    pub fn entity(&self, id: SceneId) -> (r: Option<&SceneEntity>)
        requires
            self.wf(),
        ensures
            id.0 < self.entities@.len() ==> r == Some(&self.entities@[id.0 as int]),
            id.0 >= self.entities@.len() ==> r is None,
    {
        match self.position_of(id) {
            Some(i) => Some(&self.entities[i]),
            None => None,
        }
    }

    /// Replaces the node of the entity with `id`; `false` when the id is
    /// unknown.
    pub fn set_node(&mut self, id: SceneId, node: Node) -> (found: bool)
        requires
            old(self).wf(),
        ensures
            final(self).wf(),
            found == (id.0 < old(self).entities@.len()),
            final(self).tag_names == old(self).tag_names,
            final(self).next_id == old(self).next_id,
            final(self).entities@.len() == old(self).entities@.len(),
            forall|i: int| 0 <= i < old(self).entities@.len() && i != id.0 ==> final(self).entities@[i] == old(self).entities@[i],
            found ==> ({
                let e = final(self).entities@[id.0 as int];
                let o = old(self).entities@[id.0 as int];
                &&& e.node == node
                &&& e.id == o.id && e.label == o.label && e.tags == o.tags && e.tag_names == o.tag_names
                &&& e.z == o.z && e.visible == o.visible && e.offset == o.offset
            }),
    {
        match self.position_of(id) {
            Some(i) => {
                let mut entities: Vec<SceneEntity> = Vec::new();
                std::mem::swap(&mut entities, &mut self.entities);
                let mut e = entities.remove(i);
                e.node = node;
                entities.insert(i, e);
                self.entities = entities;
                proof {
                    assert forall|j: int| 0 <= j < self.entities@.len() implies (#[trigger] self.entities@[j]).id == SceneId(j as u64) by {
                        if j != i {
                            assert(self.entities@[j] == old(self).entities@[j]);
                        }
                    }
                    assert forall|j: int, kk: int| 0 <= j < self.entities@.len() && 0 <= kk < self.entities@[j].tags@.len() implies
                        (#[trigger] self.entities@[j].tags@[kk]).0 < self.tag_names@.len() by {
                        assert(self.entities@[j].tags == old(self).entities@[j].tags);
                    }
                }
                true
            },
            None => false,
        }
    }

    /// The number of entities.
    pub fn len(&self) -> (n: usize)
        ensures
            n == self.entities@.len(),
    {
        self.entities.len()
    }

    /// Whether the scene has no entities.
    pub fn is_empty(&self) -> (b: bool)
        ensures
            b == (self.entities@.len() == 0),
    {
        self.entities.len() == 0
    }

    /// The ids of the entities a target names: the entity itself for an id
    /// target (none when unknown), every entity carrying the tag, in
    /// insertion order, for a tag target.
    pub fn resolve(&self, target: SceneTarget) -> (ids: Vec<SceneId>)
        requires
            self.wf(),
        ensures
            ids@ == match target {
                SceneTarget::Id(id) => if id.0 < self.entities@.len() { seq![id] } else { Seq::<SceneId>::empty() },
                SceneTarget::Tag(tag) => tagged_ids(self.entities@, tag),
            },
    {
        match target {
            SceneTarget::Id(id) => {
                let mut v: Vec<SceneId> = Vec::new();
                if id.0 < self.entities.len() as u64 {
                    v.push(id);
                }
                proof {
                    if id.0 < self.entities@.len() {
                        assert(v@ =~= seq![id]);
                    } else {
                        assert(v@ =~= Seq::<SceneId>::empty());
                    }
                }
                v
            },
            SceneTarget::Tag(tag) => {
                let mut v: Vec<SceneId> = Vec::new();
                let mut i: usize = 0;
                while i < self.entities.len()
                    invariant
                        i <= self.entities@.len(),
                        v@ == tagged_ids(self.entities@.take(i as int), tag),
                    decreases self.entities@.len() - i,
                {
                    let e = &self.entities[i];
                    let mut has = false;
                    let mut k: usize = 0;
                    while k < e.tags.len()
                        invariant
                            k <= e.tags@.len(),
                            has == e.tags@.take(k as int).contains(tag),
                        decreases e.tags@.len() - k,
                    {
                        proof {
                            assert(e.tags@.take(k + 1) =~= e.tags@.take(k as int).push(e.tags@[k as int]));
                        }
                        if e.tags[k] == tag {
                            has = true;
                        }
                        proof {
                            let p = e.tags@.take(k + 1);
                            if has {
                                if e.tags@[k as int] == tag {
                                    assert(p[k as int] == tag);
                                } else {
                                    let j = choose|j: int| 0 <= j < k && e.tags@.take(k as int)[j] == tag;
                                    assert(p[j] == tag);
                                }
                            } else {
                                assert forall|j: int| 0 <= j < p.len() implies p[j] != tag by {
                                    if j < k {
                                        assert(p[j] == e.tags@.take(k as int)[j]);
                                    }
                                }
                            }
                        }
                        k = k + 1;
                    }
                    proof {
                        assert(e.tags@.take(e.tags@.len() as int) =~= e.tags@);
                        assert(self.entities@.take(i + 1).drop_last() =~= self.entities@.take(i as int));
                    }
                    if has {
                        v.push(e.id);
                    }
                    i = i + 1;
                }
                proof {
                    assert(self.entities@.take(self.entities@.len() as int) =~= self.entities@);
                }
                v
            },
        }
    }

    /// The baseline offset of the entity with `id`; `(0, 0)` when unknown.
    pub fn baseline_offset(&self, id: SceneId) -> (o: (i32, i32))
        requires
            self.wf(),
        ensures
            o == (if id.0 < self.entities@.len() { self.entities@[id.0 as int].offset } else { (0i32, 0i32) }),
    {
        match self.position_of(id) {
            Some(i) => self.entities[i].offset,
            None => (0, 0),
        }
    }

    /// The baseline visibility of the entity with `id`; `false` when unknown.
    pub fn baseline_visible(&self, id: SceneId) -> (b: bool)
        requires
            self.wf(),
        ensures
            b == (id.0 < self.entities@.len() && self.entities@[id.0 as int].visible),
    {
        match self.position_of(id) {
            Some(i) => self.entities[i].visible,
            None => false,
        }
    }
}

} // verus!
