//! Value types for graph nodes and edges: the entity node, its primary and
//! addon types, and the relation carried by an edge.

use vstd::prelude::*;

verus! {

/// The typed relation carried by a directed edge.
#[derive(Debug, Clone, Copy, PartialEq, Eq, Structural)]
pub enum Relation {
    /// A containment relation.
    Contain,
    /// An ordering relation.
    Order,
}

/// The primary type of an entity node.
#[derive(Debug, Clone, Copy, PartialEq, Eq, Structural)]
pub enum DistinctEntityType {
    /// A knowledge arena.
    KnowledgeArena,
    /// A knowledge unit.
    KnowledgeUnit,
    /// A knowledge point.
    KnowledgePoint,
    /// A key knowledge detail.
    KnowledgeDetail,
}

/// An addon type that an entity node may carry, any subset of the six.
#[derive(Debug, Clone, Copy, PartialEq, Eq, Structural)]
pub enum AddonEntityType {
    /// Knowledge.
    Knowledge,
    /// Thinking.
    Thinking,
    /// Example.
    Example,
    /// Question.
    Question,
    /// Practice.
    Practice,
    /// Political.
    Political,
}

impl Relation {
    /// What [`Relation::class_name`] returns for each variant.
    pub open spec fn spec_class_name(self) -> Seq<char> {
        match self {
            Relation::Contain => "包含关系"@,
            Relation::Order => "次序关系"@,
        }
    }

    /// The document label for the relation's `class_name` field, one label per
    /// variant.
    pub fn class_name(&self) -> (r: &'static str)
        ensures
            r@ == self.spec_class_name(),
    {
        match *self {
            Relation::Contain => "包含关系",
            Relation::Order => "次序关系",
        }
    }

    /// The document label for the relation's `classification` field; it
    /// coincides with the `class_name` label.
    pub fn classification(&self) -> (r: &'static str)
        ensures
            r@ == self.spec_class_name(),
    {
        match *self {
            Relation::Contain => "包含关系",
            Relation::Order => "次序关系",
        }
    }
}

impl DistinctEntityType {
    /// What [`DistinctEntityType::class_name`] returns for each variant.
    pub open spec fn spec_class_name(self) -> Seq<char> {
        match self {
            DistinctEntityType::KnowledgeArena => "知识领域"@,
            DistinctEntityType::KnowledgeUnit => "知识单元"@,
            DistinctEntityType::KnowledgePoint => "知识点"@,
            DistinctEntityType::KnowledgeDetail => "关键知识细节"@,
        }
    }

    /// What [`DistinctEntityType::level`] returns for each variant.
    pub open spec fn spec_level(self) -> Seq<char> {
        match self {
            DistinctEntityType::KnowledgeArena => "一级"@,
            DistinctEntityType::KnowledgeUnit => "二级"@,
            DistinctEntityType::KnowledgePoint => "归纳级"@,
            DistinctEntityType::KnowledgeDetail => "内容级"@,
        }
    }

    /// The document label for the entity's `class_name` field, one label per
    /// variant.
    pub fn class_name(&self) -> (r: &'static str)
        ensures
            r@ == self.spec_class_name(),
    {
        match *self {
            DistinctEntityType::KnowledgeArena => "知识领域",
            DistinctEntityType::KnowledgeUnit => "知识单元",
            DistinctEntityType::KnowledgePoint => "知识点",
            DistinctEntityType::KnowledgeDetail => "关键知识细节",
        }
    }

    /// The document label for the entity's `level` field, a second mapping
    /// from the same enum, independent of `class_name`.
    pub fn level(&self) -> (r: &'static str)
        ensures
            r@ == self.spec_level(),
    {
        match *self {
            DistinctEntityType::KnowledgeArena => "一级",
            DistinctEntityType::KnowledgeUnit => "二级",
            DistinctEntityType::KnowledgePoint => "归纳级",
            DistinctEntityType::KnowledgeDetail => "内容级",
        }
    }

    /// A short label for drawing the entity type on a canvas.
    pub fn class_name_abbr(&self) -> (r: &'static str)
        ensures
            r@ == match *self {
                DistinctEntityType::KnowledgeArena => "知识领域"@,
                DistinctEntityType::KnowledgeUnit => "知识单元"@,
                DistinctEntityType::KnowledgePoint => "知识点"@,
                DistinctEntityType::KnowledgeDetail => "知识细节"@,
            },
    {
        match *self {
            DistinctEntityType::KnowledgeArena => "知识领域",
            DistinctEntityType::KnowledgeUnit => "知识单元",
            DistinctEntityType::KnowledgePoint => "知识点",
            DistinctEntityType::KnowledgeDetail => "知识细节",
        }
    }
}

impl AddonEntityType {
    /// A human-readable label for the addon type.
    pub fn name(&self) -> (r: &'static str)
        ensures
            r@ == match *self {
                AddonEntityType::Example => "示例"@,
                AddonEntityType::Question => "问题"@,
                AddonEntityType::Practice => "练习"@,
                AddonEntityType::Thinking => "思考"@,
                AddonEntityType::Knowledge => "知识"@,
                AddonEntityType::Political => "思政"@,
            },
    {
        match *self {
            AddonEntityType::Example => "示例",
            AddonEntityType::Question => "问题",
            AddonEntityType::Practice => "练习",
            AddonEntityType::Thinking => "思考",
            AddonEntityType::Knowledge => "知识",
            AddonEntityType::Political => "思政",
        }
    }
}

/// A set of addon types: one membership flag per addon type, so duplicate
/// insertions cannot be represented at all.
#[derive(Debug, Clone, Copy, PartialEq, Eq, Structural)]
pub struct AddonSet {
    /// Whether [`AddonEntityType::Knowledge`] is a member.
    pub knowledge: bool,
    /// Whether [`AddonEntityType::Thinking`] is a member.
    pub thinking: bool,
    /// Whether [`AddonEntityType::Example`] is a member.
    pub example: bool,
    /// Whether [`AddonEntityType::Question`] is a member.
    pub question: bool,
    /// Whether [`AddonEntityType::Practice`] is a member.
    pub practice: bool,
    /// Whether [`AddonEntityType::Political`] is a member.
    pub political: bool,
}

impl AddonSet {
    /// Whether `t` is a member.
    pub open spec fn spec_contains(self, t: AddonEntityType) -> bool {
        match t {
            AddonEntityType::Knowledge => self.knowledge,
            AddonEntityType::Thinking => self.thinking,
            AddonEntityType::Example => self.example,
            AddonEntityType::Question => self.question,
            AddonEntityType::Practice => self.practice,
            AddonEntityType::Political => self.political,
        }
    }

    /// The set holding exactly the addon types that occur in `s`, however
    /// often and in whatever order they occur there.
    pub open spec fn spec_from_seq(s: Seq<AddonEntityType>) -> AddonSet {
        AddonSet {
            knowledge: s.contains(AddonEntityType::Knowledge),
            thinking: s.contains(AddonEntityType::Thinking),
            example: s.contains(AddonEntityType::Example),
            question: s.contains(AddonEntityType::Question),
            practice: s.contains(AddonEntityType::Practice),
            political: s.contains(AddonEntityType::Political),
        }
    }

    /// The number of members.
    pub open spec fn spec_len(self) -> nat {
        (if self.knowledge {
            1nat
        } else {
            0nat
        }) + (if self.thinking {
            1nat
        } else {
            0nat
        }) + (if self.example {
            1nat
        } else {
            0nat
        }) + (if self.question {
            1nat
        } else {
            0nat
        }) + (if self.practice {
            1nat
        } else {
            0nat
        }) + (if self.political {
            1nat
        } else {
            0nat
        })
    }

    /// The empty set.
    pub fn empty() -> (r: AddonSet)
        ensures
            forall|t: AddonEntityType| !r.spec_contains(t),
    {
        AddonSet {
            knowledge: false,
            thinking: false,
            example: false,
            question: false,
            practice: false,
            political: false,
        }
    }

    /// Whether `t` is a member.
    pub fn contains(&self, t: AddonEntityType) -> (r: bool)
        ensures
            r == self.spec_contains(t),
    {
        match t {
            AddonEntityType::Knowledge => self.knowledge,
            AddonEntityType::Thinking => self.thinking,
            AddonEntityType::Example => self.example,
            AddonEntityType::Question => self.question,
            AddonEntityType::Practice => self.practice,
            AddonEntityType::Political => self.political,
        }
    }

    /// The set with `t` added.
    pub fn insert(self, t: AddonEntityType) -> (r: AddonSet)
        ensures
            r.spec_contains(t),
            forall|u: AddonEntityType| u != t ==> r.spec_contains(u) == self.spec_contains(u),
    {
        match t {
            AddonEntityType::Knowledge => AddonSet { knowledge: true, ..self },
            AddonEntityType::Thinking => AddonSet { thinking: true, ..self },
            AddonEntityType::Example => AddonSet { example: true, ..self },
            AddonEntityType::Question => AddonSet { question: true, ..self },
            AddonEntityType::Practice => AddonSet { practice: true, ..self },
            AddonEntityType::Political => AddonSet { political: true, ..self },
        }
    }

    /// The set holding exactly the addon types that occur in `s`; duplicates
    /// in `s` are silently deduplicated.
    pub fn from_slice(s: &[AddonEntityType]) -> (r: AddonSet)
        ensures
            r == AddonSet::spec_from_seq(s@),
    {
        let mut r = AddonSet::empty();
        let mut i: usize = 0;
        while i < s.len()
            invariant
                0 <= i <= s@.len(),
                forall|t: AddonEntityType| r.spec_contains(t) == s@.take(i as int).contains(t),
            decreases s@.len() - i,
        {
            let t = s[i];
            r = r.insert(t);
            proof {
                assert(s@.take(i + 1int).drop_last() =~= s@.take(i as int));
                assert(s@.take(i + 1int).last() == s@[i as int]);
                assert forall|u: AddonEntityType| r.spec_contains(u) == s@.take(
                    i + 1int,
                ).contains(u) by {
                    if u == t {
                        assert(s@.take(i + 1int)[i as int] == t);
                    } else {
                        if s@.take(i + 1int).contains(u) {
                            let j = choose|j: int| 0 <= j < i + 1 && #[trigger] s@.take(
                                i + 1int,
                            )[j] == u;
                            assert(s@.take(i as int)[j] == u);
                        } else if s@.take(i as int).contains(u) {
                            let j = choose|j: int|
                                0 <= j < i && #[trigger] s@.take(i as int)[j] == u;
                            assert(s@.take(i + 1int)[j] == u);
                        }
                    }
                }
            }
            i = i + 1;
        }
        proof {
            assert(s@.take(s@.len() as int) =~= s@);
            assert(r.knowledge == r.spec_contains(AddonEntityType::Knowledge));
            assert(r.thinking == r.spec_contains(AddonEntityType::Thinking));
            assert(r.example == r.spec_contains(AddonEntityType::Example));
            assert(r.question == r.spec_contains(AddonEntityType::Question));
            assert(r.practice == r.spec_contains(AddonEntityType::Practice));
            assert(r.political == r.spec_contains(AddonEntityType::Political));
        }
        r
    }

    /// The number of members.
    pub fn len(&self) -> (r: usize)
        ensures
            r == self.spec_len(),
    {
        let mut n: usize = 0;
        if self.knowledge {
            n = n + 1;
        }
        if self.thinking {
            n = n + 1;
        }
        if self.example {
            n = n + 1;
        }
        if self.question {
            n = n + 1;
        }
        if self.practice {
            n = n + 1;
        }
        if self.political {
            n = n + 1;
        }
        n
    }
}

/// Two input slices with the same members, in whatever order and multiplicity,
/// yield the same addon set.
pub proof fn lemma_addon_set_order_invariant(a: Seq<AddonEntityType>, b: Seq<AddonEntityType>)
    requires
        forall|t: AddonEntityType| a.contains(t) == b.contains(t),
    ensures
        AddonSet::spec_from_seq(a) == AddonSet::spec_from_seq(b),
{
}

/// The mathematical value of an entity node: its content as a character
/// sequence, and every other field as the plain value it holds.
#[verifier::ext_equal]
pub ghost struct NodeView {
    /// The node's id.
    pub id: u64,
    /// The node's text content.
    pub content: Seq<char>,
    /// The node's primary type.
    pub distinct_type: DistinctEntityType,
    /// The node's addon types.
    pub addon_types: AddonSet,
    /// The node's position on the canvas.
    pub coor: (i64, i64),
}

/// A graph node: an id, a text content, a primary type, a set of addon types
/// and a position.
///
/// Positions are modeled as a pair of signed integer coordinates.
#[derive(Debug)]
pub struct EntityNode {
    /// The node's id, immutable after creation: it is the key under which the
    /// graph stores the node.
    pub id: u64,
    /// The node's text content.
    pub content: String,
    /// The node's primary type.
    pub distinct_type: DistinctEntityType,
    /// The node's addon types.
    pub addon_types: AddonSet,
    /// The node's position on the canvas.
    pub coor: (i64, i64),
}

impl View for EntityNode {
    type V = NodeView;

    open spec fn view(&self) -> NodeView {
        NodeView {
            id: self.id,
            content: self.content@,
            distinct_type: self.distinct_type,
            addon_types: self.addon_types,
            coor: self.coor,
        }
    }
}

impl Clone for EntityNode {
    /// The clone holds the same value as the original.
    fn clone(&self) -> (r: Self)
        ensures
            r@ == self@,
    {
        EntityNode {
            id: self.id,
            content: self.content.clone(),
            distinct_type: self.distinct_type,
            addon_types: self.addon_types,
            coor: (self.coor.0, self.coor.1),
        }
    }
}

impl EntityNode {
    /// Creates a new entity node; duplicates in `addon_types` are
    /// deduplicated.
    pub fn new(
        id: u64,
        content: String,
        distinct_type: DistinctEntityType,
        addon_types: &[AddonEntityType],
        coor: (i64, i64),
    ) -> (r: EntityNode)
        ensures
            r@ == (NodeView {
                id,
                content: content@,
                distinct_type,
                addon_types: AddonSet::spec_from_seq(addon_types@),
                coor,
            }),
    {
        EntityNode { id, content, distinct_type, addon_types: AddonSet::from_slice(addon_types), coor }
    }

    /// Replaces every field but the id; the id is the key under which the
    /// graph stores the node and never changes.
    pub fn update(
        &mut self,
        content: String,
        distinct_type: DistinctEntityType,
        addon_types: &[AddonEntityType],
        coor: (i64, i64),
    )
        ensures
            final(self)@ == (NodeView {
                id: old(self).id,
                content: content@,
                distinct_type,
                addon_types: AddonSet::spec_from_seq(addon_types@),
                coor,
            }),
    {
        self.content = content;
        self.distinct_type = distinct_type;
        self.addon_types = AddonSet::from_slice(addon_types);
        self.coor = coor;
    }
}

} // verus!
