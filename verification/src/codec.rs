//! The document codec: a bit-exact mapping between snapshots and the fixed
//! textual document schema.
//!
//! A document is one `KG` element holding a constant title text, an
//! `entities` wrapper of entity elements in ascending id order, and a
//! `relations` wrapper of relation elements in ascending key order.  Field
//! order, the constant strings and the six-slot `attach` bitmask order are
//! part of the compatibility contract.  After the structural serialization,
//! every non-ASCII character is replaced by its decimal character reference
//! in one final pass over the whole text.

use vstd::prelude::*;

use crate::canon::{sorted_edge_kvs, sorted_node_kvs};
use crate::node::{AddonSet, DistinctEntityType, EntityNode, NodeView, Relation};
use crate::num::{dec_digits, dec_signed, digits_to_i64, digits_to_u64, i64_to_chars, is_digit_char, lemma_dec_digits, u64_to_chars};
use crate::error::SerdeError;
use crate::snapshot::{SnapView, Snapshot};
use crate::text::{
    ascii_seq, ena_char, lemma_ena_after_xml, lemma_ena_append, lemma_ena_ascii_id, sp_escape,
    sp_escape_non_ascii, sp_xml_escape, xesc_char,
};

verus! {

/// The constant title text carried by the root element.
pub open spec fn sp_title() -> Seq<char> {
    "教学知识图谱"@
}

/// The constant `classification` of every entity, and the constant
/// `head_need` and `tail_need` of every relation.
pub open spec fn sp_node_classification() -> Seq<char> {
    "内容方法型节点"@
}

/// The constant `identity` of every entity.
pub open spec fn sp_identity() -> Seq<char> {
    "知识"@
}

/// The constant `opentool` of every entity.
pub open spec fn sp_opentool() -> Seq<char> {
    "无"@
}

/// The constant `name` of every relation.
pub open spec fn sp_edge_name() -> Seq<char> {
    "包含"@
}

/// The constant `mask` of every relation.
pub open spec fn sp_edge_mask() -> Seq<char> {
    "知识连线"@
}

/// A decode-only alternate spelling accepted for the ordering relation.
pub open spec fn sp_order_alt() -> Seq<char> {
    "次序：次序关系"@
}

/// An opening tag.
pub open spec fn open_tag(name: Seq<char>) -> Seq<char> {
    seq!['<'] + name + seq!['>']
}

/// A closing tag.
pub open spec fn close_tag(name: Seq<char>) -> Seq<char> {
    seq!['<', '/'] + name + seq!['>']
}

/// An element: opening tag, body, closing tag.
pub open spec fn sp_elem(name: Seq<char>, body: Seq<char>) -> Seq<char> {
    open_tag(name) + body + close_tag(name)
}

/// The character for one bitmask slot.
pub open spec fn bit_char(b: bool) -> char {
    if b {
        '1'
    } else {
        '0'
    }
}

/// The six-character `attach` bitmask, in the fixed canonical slot order:
/// Thinking, Political, Question, Knowledge, Example, Practice.  It depends
/// on membership alone, never on any insertion order.
pub open spec fn bitmask_chars(a: AddonSet) -> Seq<char> {
    seq![
        bit_char(a.thinking),
        bit_char(a.political),
        bit_char(a.question),
        bit_char(a.knowledge),
        bit_char(a.example),
        bit_char(a.practice),
    ]
}

/// The addon set a bitmask text stands for: slot `i` is a member exactly when
/// the text's `i`th character is `'1'`; missing characters mean absent.
pub open spec fn decode_bitmask(t: Seq<char>) -> AddonSet {
    AddonSet {
        thinking: t.len() > 0 && t[0] == '1',
        political: t.len() > 1 && t[1] == '1',
        question: t.len() > 2 && t[2] == '1',
        knowledge: t.len() > 3 && t[3] == '1',
        example: t.len() > 4 && t[4] == '1',
        practice: t.len() > 5 && t[5] == '1',
    }
}

/// The bitmask decodes back to the set it was produced from.
pub proof fn lemma_bitmask_round_trip(a: AddonSet)
    ensures
        decode_bitmask(bitmask_chars(a)) == a,
{
}

/// A text body as the document stores it: with the escape for `&`, `<` and
/// `>` alone while the document is being assembled, with the non-ASCII
/// character references as well in the finished document.
pub open spec fn field_escape(full: bool, s: Seq<char>) -> Seq<char> {
    if full {
        sp_escape(s)
    } else {
        sp_xml_escape(s)
    }
}

/// One entity element, fields in the fixed order.
pub open spec fn sp_entity_doc(full: bool, n: NodeView) -> Seq<char> {
    sp_elem(
        "entity"@,
        sp_elem("id"@, dec_digits(n.id as nat)) + sp_elem(
            "class_name"@,
            field_escape(full, n.distinct_type.spec_class_name()),
        ) + sp_elem("classification"@, field_escape(full, sp_node_classification())) + sp_elem(
            "identity"@,
            field_escape(full, sp_identity()),
        ) + sp_elem("level"@, field_escape(full, n.distinct_type.spec_level())) + sp_elem(
            "attach"@,
            bitmask_chars(n.addon_types),
        ) + sp_elem("opentool"@, field_escape(full, sp_opentool())) + sp_elem(
            "content"@,
            field_escape(full, n.content),
        ) + sp_elem("x"@, dec_signed(n.coor.0 as int)) + sp_elem(
            "y"@,
            dec_signed(n.coor.1 as int),
        ),
    )
}

/// One relation element, fields in the fixed order.
pub open spec fn sp_edge_doc(full: bool, k: (u64, u64), rel: Relation) -> Seq<char> {
    sp_elem(
        "relation"@,
        sp_elem("name"@, field_escape(full, sp_edge_name())) + sp_elem(
            "headnodeid"@,
            dec_digits(k.0 as nat),
        ) + sp_elem("tailnodeid"@, dec_digits(k.1 as nat)) + sp_elem(
            "class_name"@,
            field_escape(full, rel.spec_class_name()),
        ) + sp_elem("mask"@, field_escape(full, sp_edge_mask())) + sp_elem(
            "classification"@,
            field_escape(full, rel.spec_class_name()),
        ) + sp_elem("head_need"@, field_escape(full, sp_node_classification())) + sp_elem(
            "tail_need"@,
            field_escape(full, sp_node_classification()),
        ),
    )
}

/// The entity elements of a listing, in the listing's order.
pub open spec fn sp_entity_section(full: bool, ss: Seq<(u64, NodeView)>) -> Seq<char>
    decreases ss.len(),
{
    if ss.len() == 0 {
        Seq::empty()
    } else {
        sp_entity_section(full, ss.drop_last()) + sp_entity_doc(full, ss.last().1)
    }
}

/// The relation elements of a listing, in the listing's order.
pub open spec fn sp_edge_section(full: bool, ss: Seq<((u64, u64), Relation)>) -> Seq<char>
    decreases ss.len(),
{
    if ss.len() == 0 {
        Seq::empty()
    } else {
        sp_edge_section(full, ss.drop_last()) + sp_edge_doc(full, ss.last().0, ss.last().1)
    }
}

/// The whole document for a snapshot, entities in ascending id order and
/// relations in ascending key order.
pub open spec fn sp_doc(full: bool, sv: SnapView) -> Seq<char> {
    sp_elem(
        "KG"@,
        field_escape(full, sp_title()) + sp_elem(
            "entities"@,
            sp_entity_section(full, sorted_node_kvs(sv.nodes)),
        ) + sp_elem("relations"@, sp_edge_section(full, sorted_edge_kvs(sv.edges))),
    )
}

/// What encoding a snapshot yields.
pub open spec fn sp_encode(sv: SnapView) -> Seq<char> {
    sp_doc(true, sv)
}

/// Every tag name and every structural character of the document is ASCII.
pub proof fn lemma_tags_ascii()
    ensures
        ascii_seq("KG"@),
        ascii_seq("entities"@),
        ascii_seq("relations"@),
        ascii_seq("entity"@),
        ascii_seq("relation"@),
        ascii_seq("id"@),
        ascii_seq("class_name"@),
        ascii_seq("classification"@),
        ascii_seq("identity"@),
        ascii_seq("level"@),
        ascii_seq("attach"@),
        ascii_seq("opentool"@),
        ascii_seq("content"@),
        ascii_seq("x"@),
        ascii_seq("y"@),
        ascii_seq("name"@),
        ascii_seq("headnodeid"@),
        ascii_seq("tailnodeid"@),
        ascii_seq("mask"@),
        ascii_seq("head_need"@),
        ascii_seq("tail_need"@),
{
    reveal_strlit("KG");
    reveal_strlit("entities");
    reveal_strlit("relations");
    reveal_strlit("entity");
    reveal_strlit("relation");
    reveal_strlit("id");
    reveal_strlit("class_name");
    reveal_strlit("classification");
    reveal_strlit("identity");
    reveal_strlit("level");
    reveal_strlit("attach");
    reveal_strlit("opentool");
    reveal_strlit("content");
    reveal_strlit("x");
    reveal_strlit("y");
    reveal_strlit("name");
    reveal_strlit("headnodeid");
    reveal_strlit("tailnodeid");
    reveal_strlit("mask");
    reveal_strlit("head_need");
    reveal_strlit("tail_need");
}

/// The final non-ASCII pass leaves a tag alone.
proof fn lemma_ena_tags(name: Seq<char>)
    requires
        ascii_seq(name),
    ensures
        sp_escape_non_ascii(open_tag(name)) == open_tag(name),
        sp_escape_non_ascii(close_tag(name)) == close_tag(name),
{
    assert(ascii_seq(open_tag(name))) by {
        assert forall|i: int| 0 <= i < open_tag(name).len() implies ((
        #[trigger] open_tag(name)[i]) as u32) < 128 by {
            if 1 <= i < 1 + name.len() {
                assert(open_tag(name)[i] == name[i - 1]);
            }
        }
    }
    assert(ascii_seq(close_tag(name))) by {
        assert forall|i: int| 0 <= i < close_tag(name).len() implies ((
        #[trigger] close_tag(name)[i]) as u32) < 128 by {
            if 2 <= i < 2 + name.len() {
                assert(close_tag(name)[i] == name[i - 2]);
            }
        }
    }
    lemma_ena_ascii_id(open_tag(name));
    lemma_ena_ascii_id(close_tag(name));
}

/// The final non-ASCII pass maps an assembled element to the finished one.
proof fn lemma_ena_elem(name: Seq<char>, pre: Seq<char>, full: Seq<char>)
    requires
        ascii_seq(name),
        sp_escape_non_ascii(pre) == full,
    ensures
        sp_escape_non_ascii(sp_elem(name, pre)) == sp_elem(name, full),
{
    lemma_ena_tags(name);
    assert(sp_elem(name, pre) =~= open_tag(name) + (pre + close_tag(name)));
    lemma_ena_append(open_tag(name), pre + close_tag(name));
    lemma_ena_append(pre, close_tag(name));
    assert(sp_escape_non_ascii(sp_elem(name, pre)) =~= sp_elem(name, full));
}

/// Decimal digits are ASCII.
proof fn lemma_digits_ascii(n: nat)
    ensures
        ascii_seq(dec_digits(n)),
        sp_escape_non_ascii(dec_digits(n)) == dec_digits(n),
{
    lemma_dec_digits(n);
    assert forall|i: int| 0 <= i < dec_digits(n).len() implies ((
    #[trigger] dec_digits(n)[i]) as u32) < 128 by {
        assert(is_digit_char(dec_digits(n)[i]));
    }
    lemma_ena_ascii_id(dec_digits(n));
}

/// A signed decimal is ASCII.
proof fn lemma_signed_ascii(x: int)
    ensures
        ascii_seq(dec_signed(x)),
        sp_escape_non_ascii(dec_signed(x)) == dec_signed(x),
{
    lemma_dec_digits(if x < 0 {
        (-x) as nat
    } else {
        x as nat
    });
    assert forall|i: int| 0 <= i < dec_signed(x).len() implies ((
    #[trigger] dec_signed(x)[i]) as u32) < 128 by {
        if x < 0 {
            if i >= 1 {
                assert(dec_signed(x)[i] == dec_digits((-x) as nat)[i - 1]);
                assert(is_digit_char(dec_digits((-x) as nat)[i - 1]));
            }
        } else {
            assert(is_digit_char(dec_digits(x as nat)[i]));
        }
    }
    lemma_ena_ascii_id(dec_signed(x));
}

/// A bitmask is ASCII.
proof fn lemma_bitmask_ascii(a: AddonSet)
    ensures
        sp_escape_non_ascii(bitmask_chars(a)) == bitmask_chars(a),
{
    assert(ascii_seq(bitmask_chars(a))) by {
        assert forall|i: int| 0 <= i < bitmask_chars(a).len() implies ((
        #[trigger] bitmask_chars(a)[i]) as u32) < 128 by {
            assert(bitmask_chars(a)[i] == '1' || bitmask_chars(a)[i] == '0');
        }
    }
    lemma_ena_ascii_id(bitmask_chars(a));
}

/// The final non-ASCII pass maps an assembled entity element to the finished
/// one.
proof fn lemma_ena_entity(n: NodeView)
    ensures
        sp_escape_non_ascii(sp_entity_doc(false, n)) == sp_entity_doc(true, n),
{
    lemma_tags_ascii();
    lemma_digits_ascii(n.id as nat);
    lemma_signed_ascii(n.coor.0 as int);
    lemma_signed_ascii(n.coor.1 as int);
    lemma_bitmask_ascii(n.addon_types);
    lemma_ena_after_xml(n.distinct_type.spec_class_name());
    lemma_ena_after_xml(sp_node_classification());
    lemma_ena_after_xml(sp_identity());
    lemma_ena_after_xml(n.distinct_type.spec_level());
    lemma_ena_after_xml(sp_opentool());
    lemma_ena_after_xml(n.content);
    let p1 = sp_elem("id"@, dec_digits(n.id as nat));
    let p2 = sp_elem("class_name"@, field_escape(false, n.distinct_type.spec_class_name()));
    let p3 = sp_elem("classification"@, field_escape(false, sp_node_classification()));
    let p4 = sp_elem("identity"@, field_escape(false, sp_identity()));
    let p5 = sp_elem("level"@, field_escape(false, n.distinct_type.spec_level()));
    let p6 = sp_elem("attach"@, bitmask_chars(n.addon_types));
    let p7 = sp_elem("opentool"@, field_escape(false, sp_opentool()));
    let p8 = sp_elem("content"@, field_escape(false, n.content));
    let p9 = sp_elem("x"@, dec_signed(n.coor.0 as int));
    let p10 = sp_elem("y"@, dec_signed(n.coor.1 as int));
    let q1 = sp_elem("id"@, dec_digits(n.id as nat));
    let q2 = sp_elem("class_name"@, field_escape(true, n.distinct_type.spec_class_name()));
    let q3 = sp_elem("classification"@, field_escape(true, sp_node_classification()));
    let q4 = sp_elem("identity"@, field_escape(true, sp_identity()));
    let q5 = sp_elem("level"@, field_escape(true, n.distinct_type.spec_level()));
    let q6 = sp_elem("attach"@, bitmask_chars(n.addon_types));
    let q7 = sp_elem("opentool"@, field_escape(true, sp_opentool()));
    let q8 = sp_elem("content"@, field_escape(true, n.content));
    let q9 = sp_elem("x"@, dec_signed(n.coor.0 as int));
    let q10 = sp_elem("y"@, dec_signed(n.coor.1 as int));
    lemma_ena_elem("id"@, dec_digits(n.id as nat), dec_digits(n.id as nat));
    lemma_ena_elem(
        "class_name"@,
        field_escape(false, n.distinct_type.spec_class_name()),
        field_escape(true, n.distinct_type.spec_class_name()),
    );
    lemma_ena_elem(
        "classification"@,
        field_escape(false, sp_node_classification()),
        field_escape(true, sp_node_classification()),
    );
    lemma_ena_elem("identity"@, field_escape(false, sp_identity()), field_escape(true, sp_identity()));
    lemma_ena_elem(
        "level"@,
        field_escape(false, n.distinct_type.spec_level()),
        field_escape(true, n.distinct_type.spec_level()),
    );
    lemma_ena_elem("attach"@, bitmask_chars(n.addon_types), bitmask_chars(n.addon_types));
    lemma_ena_elem("opentool"@, field_escape(false, sp_opentool()), field_escape(true, sp_opentool()));
    lemma_ena_elem("content"@, field_escape(false, n.content), field_escape(true, n.content));
    lemma_ena_elem("x"@, dec_signed(n.coor.0 as int), dec_signed(n.coor.0 as int));
    lemma_ena_elem("y"@, dec_signed(n.coor.1 as int), dec_signed(n.coor.1 as int));
    lemma_ena_append(p1, p2);
    lemma_ena_append(p1 + p2, p3);
    lemma_ena_append(p1 + p2 + p3, p4);
    lemma_ena_append(p1 + p2 + p3 + p4, p5);
    lemma_ena_append(p1 + p2 + p3 + p4 + p5, p6);
    lemma_ena_append(p1 + p2 + p3 + p4 + p5 + p6, p7);
    lemma_ena_append(p1 + p2 + p3 + p4 + p5 + p6 + p7, p8);
    lemma_ena_append(p1 + p2 + p3 + p4 + p5 + p6 + p7 + p8, p9);
    lemma_ena_append(p1 + p2 + p3 + p4 + p5 + p6 + p7 + p8 + p9, p10);
    assert(sp_escape_non_ascii(p1 + p2 + p3 + p4 + p5 + p6 + p7 + p8 + p9 + p10) == q1 + q2 + q3
        + q4 + q5 + q6 + q7 + q8 + q9 + q10);
    lemma_ena_elem(
        "entity"@,
        p1 + p2 + p3 + p4 + p5 + p6 + p7 + p8 + p9 + p10,
        q1 + q2 + q3 + q4 + q5 + q6 + q7 + q8 + q9 + q10,
    );
}

/// The final non-ASCII pass maps an assembled relation element to the
/// finished one.
proof fn lemma_ena_edge(k: (u64, u64), rel: Relation)
    ensures
        sp_escape_non_ascii(sp_edge_doc(false, k, rel)) == sp_edge_doc(true, k, rel),
{
    lemma_tags_ascii();
    lemma_digits_ascii(k.0 as nat);
    lemma_digits_ascii(k.1 as nat);
    lemma_ena_after_xml(sp_edge_name());
    lemma_ena_after_xml(rel.spec_class_name());
    lemma_ena_after_xml(sp_edge_mask());
    lemma_ena_after_xml(sp_node_classification());
    let p1 = sp_elem("name"@, field_escape(false, sp_edge_name()));
    let p2 = sp_elem("headnodeid"@, dec_digits(k.0 as nat));
    let p3 = sp_elem("tailnodeid"@, dec_digits(k.1 as nat));
    let p4 = sp_elem("class_name"@, field_escape(false, rel.spec_class_name()));
    let p5 = sp_elem("mask"@, field_escape(false, sp_edge_mask()));
    let p6 = sp_elem("classification"@, field_escape(false, rel.spec_class_name()));
    let p7 = sp_elem("head_need"@, field_escape(false, sp_node_classification()));
    let p8 = sp_elem("tail_need"@, field_escape(false, sp_node_classification()));
    let q1 = sp_elem("name"@, field_escape(true, sp_edge_name()));
    let q2 = sp_elem("headnodeid"@, dec_digits(k.0 as nat));
    let q3 = sp_elem("tailnodeid"@, dec_digits(k.1 as nat));
    let q4 = sp_elem("class_name"@, field_escape(true, rel.spec_class_name()));
    let q5 = sp_elem("mask"@, field_escape(true, sp_edge_mask()));
    let q6 = sp_elem("classification"@, field_escape(true, rel.spec_class_name()));
    let q7 = sp_elem("head_need"@, field_escape(true, sp_node_classification()));
    let q8 = sp_elem("tail_need"@, field_escape(true, sp_node_classification()));
    lemma_ena_elem("name"@, field_escape(false, sp_edge_name()), field_escape(true, sp_edge_name()));
    lemma_ena_elem("headnodeid"@, dec_digits(k.0 as nat), dec_digits(k.0 as nat));
    lemma_ena_elem("tailnodeid"@, dec_digits(k.1 as nat), dec_digits(k.1 as nat));
    lemma_ena_elem(
        "class_name"@,
        field_escape(false, rel.spec_class_name()),
        field_escape(true, rel.spec_class_name()),
    );
    lemma_ena_elem("mask"@, field_escape(false, sp_edge_mask()), field_escape(true, sp_edge_mask()));
    lemma_ena_elem(
        "classification"@,
        field_escape(false, rel.spec_class_name()),
        field_escape(true, rel.spec_class_name()),
    );
    lemma_ena_elem(
        "head_need"@,
        field_escape(false, sp_node_classification()),
        field_escape(true, sp_node_classification()),
    );
    lemma_ena_elem(
        "tail_need"@,
        field_escape(false, sp_node_classification()),
        field_escape(true, sp_node_classification()),
    );
    lemma_ena_append(p1, p2);
    lemma_ena_append(p1 + p2, p3);
    lemma_ena_append(p1 + p2 + p3, p4);
    lemma_ena_append(p1 + p2 + p3 + p4, p5);
    lemma_ena_append(p1 + p2 + p3 + p4 + p5, p6);
    lemma_ena_append(p1 + p2 + p3 + p4 + p5 + p6, p7);
    lemma_ena_append(p1 + p2 + p3 + p4 + p5 + p6 + p7, p8);
    assert(sp_escape_non_ascii(p1 + p2 + p3 + p4 + p5 + p6 + p7 + p8) == q1 + q2 + q3 + q4 + q5
        + q6 + q7 + q8);
    lemma_ena_elem(
        "relation"@,
        p1 + p2 + p3 + p4 + p5 + p6 + p7 + p8,
        q1 + q2 + q3 + q4 + q5 + q6 + q7 + q8,
    );
}

/// The final non-ASCII pass maps an assembled entity section to the finished
/// one.
proof fn lemma_ena_entity_section(ss: Seq<(u64, NodeView)>)
    ensures
        sp_escape_non_ascii(sp_entity_section(false, ss)) == sp_entity_section(true, ss),
    decreases ss.len(),
{
    if ss.len() == 0 {
        assert(sp_escape_non_ascii(sp_entity_section(false, ss)) =~= sp_entity_section(true, ss));
    } else {
        lemma_ena_entity_section(ss.drop_last());
        lemma_ena_entity(ss.last().1);
        lemma_ena_append(sp_entity_section(false, ss.drop_last()), sp_entity_doc(false, ss.last().1));
    }
}

/// The final non-ASCII pass maps an assembled relation section to the
/// finished one.
proof fn lemma_ena_edge_section(ss: Seq<((u64, u64), Relation)>)
    ensures
        sp_escape_non_ascii(sp_edge_section(false, ss)) == sp_edge_section(true, ss),
    decreases ss.len(),
{
    if ss.len() == 0 {
        assert(sp_escape_non_ascii(sp_edge_section(false, ss)) =~= sp_edge_section(true, ss));
    } else {
        lemma_ena_edge_section(ss.drop_last());
        lemma_ena_edge(ss.last().0, ss.last().1);
        lemma_ena_append(
            sp_edge_section(false, ss.drop_last()),
            sp_edge_doc(false, ss.last().0, ss.last().1),
        );
    }
}

/// Escaping the assembled document as one final text-level pass yields the
/// finished document: all document syntax is ASCII, so only the text's
/// non-ASCII characters are rewritten.
pub proof fn lemma_ena_doc(sv: SnapView)
    ensures
        sp_escape_non_ascii(sp_doc(false, sv)) == sp_doc(true, sv),
{
    lemma_tags_ascii();
    lemma_ena_after_xml(sp_title());
    lemma_ena_entity_section(sorted_node_kvs(sv.nodes));
    lemma_ena_edge_section(sorted_edge_kvs(sv.edges));
    let p2 = sp_elem("entities"@, sp_entity_section(false, sorted_node_kvs(sv.nodes)));
    let p3 = sp_elem("relations"@, sp_edge_section(false, sorted_edge_kvs(sv.edges)));
    let q2 = sp_elem("entities"@, sp_entity_section(true, sorted_node_kvs(sv.nodes)));
    let q3 = sp_elem("relations"@, sp_edge_section(true, sorted_edge_kvs(sv.edges)));
    lemma_ena_elem(
        "entities"@,
        sp_entity_section(false, sorted_node_kvs(sv.nodes)),
        sp_entity_section(true, sorted_node_kvs(sv.nodes)),
    );
    lemma_ena_elem(
        "relations"@,
        sp_edge_section(false, sorted_edge_kvs(sv.edges)),
        sp_edge_section(true, sorted_edge_kvs(sv.edges)),
    );
    lemma_ena_append(field_escape(false, sp_title()), p2);
    lemma_ena_append(field_escape(false, sp_title()) + p2, p3);
    assert(sp_escape_non_ascii(field_escape(false, sp_title()) + p2 + p3) == field_escape(
        true,
        sp_title(),
    ) + q2 + q3);
    lemma_ena_elem(
        "KG"@,
        field_escape(false, sp_title()) + p2 + p3,
        field_escape(true, sp_title()) + q2 + q3,
    );
}


/// Collects the characters of a string.
pub fn string_to_chars(s: &str) -> (r: Vec<char>)
    ensures
        r@ == s@,
{
    let n = s.unicode_len();
    let mut r: Vec<char> = Vec::new();
    let mut i: usize = 0;
    while i < n
        invariant
            i <= n,
            n == s@.len(),
            r@ == s@.take(i as int),
        decreases n - i,
    {
        r.push(s.get_char(i));
        proof {
            assert(s@.take(i + 1int).drop_last() =~= s@.take(i as int));
            assert(s@.take(i + 1int).last() == s@[i as int]);
            assert(r@ =~= s@.take(i + 1int));
        }
        i = i + 1;
    }
    proof {
        assert(s@.take(n as int) =~= s@);
    }
    r
}

/// Relies on `String`'s `FromIterator` impl over characters: the collected
/// string holds exactly the characters of the vector, in order.
#[verifier::external_body]
pub(crate) fn chars_to_string(v: &Vec<char>) -> (r: String)
    ensures
        r@ == v@,
{
    v.iter().collect()
}

/// Replaces every character with code point 128 or more, anywhere in the
/// text, by its decimal character reference; ASCII characters, the XML
/// syntactic escapes among them, pass through unchanged.
pub fn escape_non_ascii(input: &str) -> (r: String)
    ensures
        r@ == sp_escape_non_ascii(input@),
{
    let cs = string_to_chars(input);
    let mut out: Vec<char> = Vec::new();
    let mut i: usize = 0;
    while i < cs.len()
        invariant
            cs@ == input@,
            i <= cs@.len(),
            out@ == sp_escape_non_ascii(input@.take(i as int)),
        decreases cs@.len() - i,
    {
        let c = cs[i];
        proof {
            assert(input@.take(i + 1int).drop_last() =~= input@.take(i as int));
            assert(input@.take(i + 1int).last() == c);
        }
        if (c as u32) < 128 {
            out.push(c);
            proof {
                assert(out@ =~= sp_escape_non_ascii(input@.take(i as int)) + ena_char(c));
            }
        } else {
            out.push('&');
            out.push('#');
            let mut ds = u64_to_chars((c as u32) as u64);
            out.push(';');
            let semi = out.pop().unwrap();
            out.append(&mut ds);
            out.push(semi);
            proof {
                assert((((c as u32) as u64) as nat) == c as u32 as nat);
                assert(out@ =~= sp_escape_non_ascii(input@.take(i as int)) + ena_char(c));
            }
        }
        i = i + 1;
    }
    proof {
        assert(input@.take(cs@.len() as int) =~= input@);
    }
    chars_to_string(&out)
}

/// Appends the characters of a string.
fn push_str_chars(buf: &mut Vec<char>, s: &str)
    ensures
        final(buf)@ == old(buf)@ + s@,
{
    let n = s.unicode_len();
    let mut i: usize = 0;
    while i < n
        invariant
            i <= n,
            n == s@.len(),
            buf@ == old(buf)@ + s@.take(i as int),
        decreases n - i,
    {
        buf.push(s.get_char(i));
        proof {
            assert(s@.take(i + 1int).drop_last() =~= s@.take(i as int));
            assert(s@.take(i + 1int).last() == s@[i as int]);
            assert(buf@ =~= old(buf)@ + s@.take(i + 1int));
        }
        i = i + 1;
    }
    proof {
        assert(s@.take(n as int) =~= s@);
        assert(buf@ =~= old(buf)@ + s@);
    }
}

/// Appends a text with `&`, `<` and `>` escaped.
fn push_xml_escaped(buf: &mut Vec<char>, s: &str)
    ensures
        final(buf)@ == old(buf)@ + sp_xml_escape(s@),
{
    let cs = string_to_chars(s);
    let mut i: usize = 0;
    while i < cs.len()
        invariant
            cs@ == s@,
            i <= cs@.len(),
            buf@ == old(buf)@ + sp_xml_escape(s@.take(i as int)),
        decreases cs@.len() - i,
    {
        let c = cs[i];
        proof {
            assert(s@.take(i + 1int).drop_last() =~= s@.take(i as int));
            assert(s@.take(i + 1int).last() == c);
        }
        if c == '&' {
            buf.push('&');
            buf.push('a');
            buf.push('m');
            buf.push('p');
            buf.push(';');
        } else if c == '<' {
            buf.push('&');
            buf.push('l');
            buf.push('t');
            buf.push(';');
        } else if c == '>' {
            buf.push('&');
            buf.push('g');
            buf.push('t');
            buf.push(';');
        } else {
            buf.push(c);
        }
        proof {
            assert(buf@ =~= old(buf)@ + sp_xml_escape(s@.take(i as int)) + xesc_char(c));
            assert(old(buf)@ + sp_xml_escape(s@.take(i as int)) + xesc_char(c) =~= old(buf)@ + (
            sp_xml_escape(s@.take(i as int)) + xesc_char(c)));
        }
        i = i + 1;
    }
    proof {
        assert(s@.take(cs@.len() as int) =~= s@);
    }
}

/// Appends an opening tag.
fn emit_open(buf: &mut Vec<char>, name: &str)
    ensures
        final(buf)@ == old(buf)@ + open_tag(name@),
{
    buf.push('<');
    push_str_chars(buf, name);
    buf.push('>');
    proof {
        assert(buf@ =~= old(buf)@ + open_tag(name@));
    }
}

/// Appends a closing tag.
fn emit_close(buf: &mut Vec<char>, name: &str)
    ensures
        final(buf)@ == old(buf)@ + close_tag(name@),
{
    buf.push('<');
    buf.push('/');
    push_str_chars(buf, name);
    buf.push('>');
    proof {
        assert(buf@ =~= old(buf)@ + close_tag(name@));
    }
}

/// Appends an element holding an escaped text.
fn emit_text_elem(buf: &mut Vec<char>, name: &str, text: &str)
    ensures
        final(buf)@ == old(buf)@ + sp_elem(name@, sp_xml_escape(text@)),
{
    emit_open(buf, name);
    push_xml_escaped(buf, text);
    emit_close(buf, name);
    proof {
        assert(buf@ =~= old(buf)@ + sp_elem(name@, sp_xml_escape(text@)));
    }
}

/// Appends an element holding an unsigned decimal number.
fn emit_u64_elem(buf: &mut Vec<char>, name: &str, n: u64)
    ensures
        final(buf)@ == old(buf)@ + sp_elem(name@, dec_digits(n as nat)),
{
    emit_open(buf, name);
    let mut ds = u64_to_chars(n);
    buf.append(&mut ds);
    emit_close(buf, name);
    proof {
        assert(buf@ =~= old(buf)@ + sp_elem(name@, dec_digits(n as nat)));
    }
}

/// Appends an element holding a signed decimal number.
fn emit_i64_elem(buf: &mut Vec<char>, name: &str, x: i64)
    ensures
        final(buf)@ == old(buf)@ + sp_elem(name@, dec_signed(x as int)),
{
    emit_open(buf, name);
    let mut ds = i64_to_chars(x);
    buf.append(&mut ds);
    emit_close(buf, name);
    proof {
        assert(buf@ =~= old(buf)@ + sp_elem(name@, dec_signed(x as int)));
    }
}

/// Appends the `attach` element: the six-character bitmask in the fixed
/// canonical slot order.
fn emit_attach_elem(buf: &mut Vec<char>, a: &AddonSet)
    ensures
        final(buf)@ == old(buf)@ + sp_elem("attach"@, bitmask_chars(*a)),
{
    emit_open(buf, "attach");
    buf.push(if a.thinking { '1' } else { '0' });
    buf.push(if a.political { '1' } else { '0' });
    buf.push(if a.question { '1' } else { '0' });
    buf.push(if a.knowledge { '1' } else { '0' });
    buf.push(if a.example { '1' } else { '0' });
    buf.push(if a.practice { '1' } else { '0' });
    emit_close(buf, "attach");
    proof {
        assert(buf@ =~= old(buf)@ + sp_elem("attach"@, bitmask_chars(*a)));
    }
}

/// Appends one entity element.
fn emit_entity(buf: &mut Vec<char>, node: &EntityNode)
    ensures
        final(buf)@ == old(buf)@ + sp_entity_doc(false, node@),
{
    emit_open(buf, "entity");
    emit_u64_elem(buf, "id", node.id);
    emit_text_elem(buf, "class_name", node.distinct_type.class_name());
    emit_text_elem(buf, "classification", "内容方法型节点");
    emit_text_elem(buf, "identity", "知识");
    emit_text_elem(buf, "level", node.distinct_type.level());
    emit_attach_elem(buf, &node.addon_types);
    emit_text_elem(buf, "opentool", "无");
    emit_text_elem(buf, "content", node.content.as_str());
    emit_i64_elem(buf, "x", node.coor.0);
    emit_i64_elem(buf, "y", node.coor.1);
    emit_close(buf, "entity");
    proof {
        assert(buf@ =~= old(buf)@ + sp_entity_doc(false, node@));
    }
}

/// Appends one relation element.
fn emit_edge(buf: &mut Vec<char>, from: u64, to: u64, rel: Relation)
    ensures
        final(buf)@ == old(buf)@ + sp_edge_doc(false, (from, to), rel),
{
    emit_open(buf, "relation");
    emit_text_elem(buf, "name", "包含");
    emit_u64_elem(buf, "headnodeid", from);
    emit_u64_elem(buf, "tailnodeid", to);
    emit_text_elem(buf, "class_name", rel.class_name());
    emit_text_elem(buf, "mask", "知识连线");
    emit_text_elem(buf, "classification", rel.classification());
    emit_text_elem(buf, "head_need", "内容方法型节点");
    emit_text_elem(buf, "tail_need", "内容方法型节点");
    emit_close(buf, "relation");
    proof {
        assert(buf@ =~= old(buf)@ + sp_edge_doc(false, (from, to), rel));
    }
}


impl Snapshot {
    /// Serializes the snapshot: entities in ascending id order, relations in
    /// ascending lexicographic key order, and every non-ASCII character
    /// replaced by its decimal character reference in one final pass over the
    /// serialized text.  Serialization cannot fail.
    #[verifier::rlimit(100)]
    pub fn to_xml(&self) -> (r: String)
        ensures
            r@ == sp_encode(self@),
    {
        broadcast use vstd::seq_lib::seq_to_set_is_finite;

        let mut buf: Vec<char> = Vec::new();
        emit_open(&mut buf, "KG");
        push_xml_escaped(&mut buf, "教学知识图谱");
        emit_open(&mut buf, "entities");
        let ents = self.entities();
        let ghost m = self@.nodes;
        let ghost es = Seq::new(ents@.len() as nat, |j: int| (ents@[j].0, ents@[j].1@));
        proof {
            let ks = Seq::new(ents@.len() as nat, |j: int| ents@[j].0);
            assert(m.dom().subset_of(ks.to_set())) by {
                assert forall|k: u64| m.dom().contains(k) implies ks.to_set().contains(k) by {
                    let i = choose|i: int| 0 <= i < ents@.len() && #[trigger] ents@[i].0 == k;
                    assert(ks[i] == k);
                    assert(ks.contains(k));
                }
            }
            vstd::set_lib::lemma_len_subset(m.dom(), ks.to_set());
            assert forall|k: u64| #[trigger]
                m.dom().contains(k) implies exists|i: int|
                0 <= i < es.len() && #[trigger] es[i].0 == k by {
                let i = choose|i: int| 0 <= i < ents@.len() && #[trigger] ents@[i].0 == k;
                assert(es[i].0 == k);
            }
            crate::canon::lemma_node_kvs_canonical(es, m);
        }
        let mut i: usize = 0;
        while i < ents.len()
            invariant
                0 <= i <= ents@.len(),
                es == Seq::new(ents@.len() as nat, |j: int| (ents@[j].0, ents@[j].1@)),
                buf@ == open_tag("KG"@) + sp_xml_escape(sp_title()) + open_tag("entities"@)
                    + sp_entity_section(false, es.take(i as int)),
            decreases ents@.len() - i,
        {
            emit_entity(&mut buf, &ents[i].1);
            proof {
                assert(es.take(i + 1int).drop_last() =~= es.take(i as int));
                assert(es.take(i + 1int).last() == es[i as int]);
                assert(es[i as int].1 == ents@[i as int].1@);
                assert(buf@ =~= open_tag("KG"@) + sp_xml_escape(sp_title()) + open_tag("entities"@)
                    + sp_entity_section(false, es.take(i + 1int)));
            }
            i = i + 1;
        }
        proof {
            assert(es.take(ents@.len() as int) =~= es);
        }
        emit_close(&mut buf, "entities");
        emit_open(&mut buf, "relations");
        let eds = self.edges();
        let ghost me = self@.edges;
        let ghost eds_v = Seq::new(eds@.len() as nat, |j: int| (eds@[j].0, eds@[j].1));
        proof {
            let ks = Seq::new(eds@.len() as nat, |j: int| eds@[j].0);
            assert(me.dom().subset_of(ks.to_set())) by {
                assert forall|k: (u64, u64)| me.dom().contains(k) implies ks.to_set().contains(
                    k,
                ) by {
                    let i = choose|i: int| 0 <= i < eds@.len() && #[trigger] eds@[i].0 == k;
                    assert(ks[i] == k);
                    assert(ks.contains(k));
                }
            }
            vstd::set_lib::lemma_len_subset(me.dom(), ks.to_set());
            assert forall|k: (u64, u64)| #[trigger]
                me.dom().contains(k) implies exists|i: int|
                0 <= i < eds_v.len() && #[trigger] eds_v[i].0 == k by {
                let i = choose|i: int| 0 <= i < eds@.len() && #[trigger] eds@[i].0 == k;
                assert(eds_v[i].0 == k);
            }
            crate::canon::lemma_edge_kvs_canonical(eds_v, me);
        }
        let ghost head2 = open_tag("KG"@) + sp_xml_escape(sp_title()) + open_tag("entities"@)
            + sp_entity_section(false, es) + close_tag("entities"@) + open_tag("relations"@);
        proof {
            assert(buf@ =~= head2);
        }
        let mut j: usize = 0;
        while j < eds.len()
            invariant
                0 <= j <= eds@.len(),
                eds_v == Seq::new(eds@.len() as nat, |j2: int| (eds@[j2].0, eds@[j2].1)),
                head2 == open_tag("KG"@) + sp_xml_escape(sp_title()) + open_tag("entities"@)
                    + sp_entity_section(false, es) + close_tag("entities"@) + open_tag(
                    "relations"@,
                ),
                buf@ == head2 + sp_edge_section(false, eds_v.take(j as int)),
            decreases eds@.len() - j,
        {
            let k = eds[j].0;
            let rel = eds[j].1;
            emit_edge(&mut buf, k.0, k.1, rel);
            proof {
                assert(eds_v.take(j + 1int).drop_last() =~= eds_v.take(j as int));
                assert(eds_v.take(j + 1int).last() == eds_v[j as int]);
                assert(buf@ =~= head2 + sp_edge_section(false, eds_v.take(j + 1int)));
            }
            j = j + 1;
        }
        proof {
            assert(eds_v.take(eds@.len() as int) =~= eds_v);
        }
        emit_close(&mut buf, "relations");
        emit_close(&mut buf, "KG");
        proof {
            assert(buf@ =~= sp_doc(false, self@));
        }
        let pre = chars_to_string(&buf);
        let out = escape_non_ascii(pre.as_str());
        proof {
            lemma_ena_doc(self@);
        }
        out
    }
}


/// Whether `c` is insignificant whitespace between elements.
pub open spec fn is_ws(c: char) -> bool {
    c == ' ' || c == '\n' || c == '\t' || c == '\r'
}

/// The suffix after any leading whitespace.
pub open spec fn sp_skip_ws(s: Seq<char>) -> Seq<char>
    decreases s.len(),
{
    if s.len() > 0 && is_ws(s[0]) {
        sp_skip_ws(s.skip(1))
    } else {
        s
    }
}

/// Consumes an exact literal, or fails.
pub open spec fn sp_lit(s: Seq<char>, lit: Seq<char>) -> Option<Seq<char>> {
    if lit.len() <= s.len() && s.subrange(0, lit.len() as int) == lit {
        Some(s.skip(lit.len() as int))
    } else {
        None
    }
}

/// Splits off the text before the next `<` (or the whole string).
pub open spec fn sp_take_text(s: Seq<char>) -> (Seq<char>, Seq<char>)
    decreases s.len(),
{
    if s.len() == 0 || s[0] == '<' {
        (Seq::empty(), s)
    } else {
        let (t, r) = sp_take_text(s.skip(1));
        (seq![s[0]] + t, r)
    }
}

/// The split point of [`sp_take_text`], characterized by its position.
pub proof fn lemma_take_text(s: Seq<char>, n: int)
    requires
        0 <= n <= s.len(),
        forall|k: int| 0 <= k < n ==> (#[trigger] s[k]) != '<',
        n == s.len() || s[n] == '<',
    ensures
        sp_take_text(s) == (s.subrange(0, n), s.skip(n)),
    decreases n,
{
    if n == 0 {
        assert(s.subrange(0, 0) =~= Seq::empty());
        assert(s.skip(0) =~= s);
    } else {
        let s2 = s.skip(1);
        lemma_take_text(s2, n - 1);
        assert(seq![s[0]] + s2.subrange(0, n - 1) =~= s.subrange(0, n));
        assert(s2.skip(n - 1) =~= s.skip(n));
    }
}

/// Parses `<name>text</name>`, unescaping the text; leading whitespace is
/// skipped before the opening tag.
pub open spec fn sp_text_elem(s: Seq<char>, name: Seq<char>) -> Option<(Seq<char>, Seq<char>)> {
    match sp_lit(sp_skip_ws(s), open_tag(name)) {
        None => None,
        Some(s1) => {
            let (raw, s2) = sp_take_text(s1);
            match crate::text::sp_unescape(raw) {
                None => None,
                Some(txt) => match sp_lit(s2, close_tag(name)) {
                    None => None,
                    Some(s3) => Some((txt, s3)),
                },
            }
        },
    }
}

/// Parses an element holding an unsigned decimal number.
pub open spec fn sp_u64_elem(s: Seq<char>, name: Seq<char>) -> Option<(u64, Seq<char>)> {
    match sp_text_elem(s, name) {
        None => None,
        Some((txt, r)) => match crate::num::sp_digits_val(txt) {
            None => None,
            Some(n) => Some((n, r)),
        },
    }
}

/// Parses an element holding a signed decimal number.
pub open spec fn sp_i64_elem(s: Seq<char>, name: Seq<char>) -> Option<(i64, Seq<char>)> {
    match sp_text_elem(s, name) {
        None => None,
        Some((txt, r)) => match crate::num::sp_signed_val(txt) {
            None => None,
            Some(x) => Some((x, r)),
        },
    }
}

/// The primary type a `class_name` label stands for.
pub open spec fn class_of_label(t: Seq<char>) -> Option<DistinctEntityType> {
    if t == DistinctEntityType::KnowledgeArena.spec_class_name() {
        Some(DistinctEntityType::KnowledgeArena)
    } else if t == DistinctEntityType::KnowledgeUnit.spec_class_name() {
        Some(DistinctEntityType::KnowledgeUnit)
    } else if t == DistinctEntityType::KnowledgePoint.spec_class_name() {
        Some(DistinctEntityType::KnowledgePoint)
    } else if t == DistinctEntityType::KnowledgeDetail.spec_class_name() {
        Some(DistinctEntityType::KnowledgeDetail)
    } else {
        None
    }
}

/// The relation a `class_name` label stands for; a historical alternate
/// spelling is accepted for the ordering relation when decoding.
pub open spec fn relation_of_label(t: Seq<char>) -> Option<Relation> {
    if t == Relation::Contain.spec_class_name() {
        Some(Relation::Contain)
    } else if t == Relation::Order.spec_class_name() {
        Some(Relation::Order)
    } else if t == sp_order_alt() {
        Some(Relation::Order)
    } else {
        None
    }
}

/// What parsing one entity element yields.
pub ghost enum EntityParse {
    /// The entity and the remaining input.
    Found(NodeView, Seq<char>),
    /// The element is malformed.
    Malformed,
    /// The `class_name` field held this unrecognized string.
    UnknownType(Seq<char>),
}

/// Parses one entity element: ten fields in the fixed order.
pub open spec fn sp_entity_elem(s: Seq<char>) -> EntityParse {
    match sp_lit(sp_skip_ws(s), open_tag("entity"@)) {
        None => EntityParse::Malformed,
        Some(s0) => match sp_u64_elem(s0, "id"@) {
            None => EntityParse::Malformed,
            Some((id, s1)) => match sp_text_elem(s1, "class_name"@) {
                None => EntityParse::Malformed,
                Some((cn, s2)) => match class_of_label(cn) {
                    None => EntityParse::UnknownType(cn),
                    Some(dt) => match sp_text_elem(s2, "classification"@) {
                        None => EntityParse::Malformed,
                        Some((_, s3)) => match sp_text_elem(s3, "identity"@) {
                            None => EntityParse::Malformed,
                            Some((_, s4)) => match sp_text_elem(s4, "level"@) {
                                None => EntityParse::Malformed,
                                Some((_, s5)) => match sp_text_elem(s5, "attach"@) {
                                    None => EntityParse::Malformed,
                                    Some((att, s6)) => match sp_text_elem(s6, "opentool"@) {
                                        None => EntityParse::Malformed,
                                        Some((_, s7)) => match sp_text_elem(s7, "content"@) {
                                            None => EntityParse::Malformed,
                                            Some((content, s8)) => match sp_i64_elem(s8, "x"@) {
                                                None => EntityParse::Malformed,
                                                Some((x, s9)) => match sp_i64_elem(s9, "y"@) {
                                                    None => EntityParse::Malformed,
                                                    Some((y, s10)) => match sp_lit(
                                                        s10,
                                                        close_tag("entity"@),
                                                    ) {
                                                        None => EntityParse::Malformed,
                                                        Some(s11) => EntityParse::Found(
                                                            NodeView {
                                                                id,
                                                                content,
                                                                distinct_type: dt,
                                                                addon_types: decode_bitmask(att),
                                                                coor: (x, y),
                                                            },
                                                            s11,
                                                        ),
                                                    },
                                                },
                                            },
                                        },
                                    },
                                },
                            },
                        },
                    },
                },
            },
        },
    }
}

/// What parsing the entity list yields.
pub ghost enum EntityListParse {
    /// The entities and the remaining input after `</entities>`.
    Found(Seq<NodeView>, Seq<char>),
    /// An element is malformed.
    Malformed,
    /// A `class_name` field held this unrecognized string.
    UnknownType(Seq<char>),
}

/// Parses entity elements up to and including the closing `</entities>` tag.
pub open spec fn sp_entity_list(s: Seq<char>) -> EntityListParse
    decreases s.len(),
{
    match sp_lit(sp_skip_ws(s), close_tag("entities"@)) {
        Some(r) => EntityListParse::Found(Seq::empty(), r),
        None => match sp_entity_elem(s) {
            EntityParse::Malformed => EntityListParse::Malformed,
            EntityParse::UnknownType(t) => EntityListParse::UnknownType(t),
            EntityParse::Found(n, rest) => {
                if rest.len() < s.len() {
                    match sp_entity_list(rest) {
                        EntityListParse::Found(ns, r2) => EntityListParse::Found(seq![n] + ns, r2),
                        EntityListParse::Malformed => EntityListParse::Malformed,
                        EntityListParse::UnknownType(t) => EntityListParse::UnknownType(t),
                    }
                } else {
                    EntityListParse::Malformed
                }
            },
        },
    }
}

/// What parsing one relation element yields.
pub ghost enum EdgeParse {
    /// The edge key, its relation and the remaining input.
    Found((u64, u64), Relation, Seq<char>),
    /// The element is malformed.
    Malformed,
    /// The `class_name` field held this unrecognized string.
    UnknownRelation(Seq<char>),
}

/// Parses one relation element: eight fields in the fixed order.
pub open spec fn sp_edge_elem(s: Seq<char>) -> EdgeParse {
    match sp_lit(sp_skip_ws(s), open_tag("relation"@)) {
        None => EdgeParse::Malformed,
        Some(s0) => match sp_text_elem(s0, "name"@) {
            None => EdgeParse::Malformed,
            Some((_, s1)) => match sp_u64_elem(s1, "headnodeid"@) {
                None => EdgeParse::Malformed,
                Some((from, s2)) => match sp_u64_elem(s2, "tailnodeid"@) {
                    None => EdgeParse::Malformed,
                    Some((to, s3)) => match sp_text_elem(s3, "class_name"@) {
                        None => EdgeParse::Malformed,
                        Some((cn, s4)) => match relation_of_label(cn) {
                            None => EdgeParse::UnknownRelation(cn),
                            Some(rel) => match sp_text_elem(s4, "mask"@) {
                                None => EdgeParse::Malformed,
                                Some((_, s5)) => match sp_text_elem(s5, "classification"@) {
                                    None => EdgeParse::Malformed,
                                    Some((_, s6)) => match sp_text_elem(s6, "head_need"@) {
                                        None => EdgeParse::Malformed,
                                        Some((_, s7)) => match sp_text_elem(s7, "tail_need"@) {
                                            None => EdgeParse::Malformed,
                                            Some((_, s8)) => match sp_lit(
                                                s8,
                                                close_tag("relation"@),
                                            ) {
                                                None => EdgeParse::Malformed,
                                                Some(s9) => EdgeParse::Found((from, to), rel, s9),
                                            },
                                        },
                                    },
                                },
                            },
                        },
                    },
                },
            },
        },
    }
}

/// What parsing the relation list yields.
pub ghost enum EdgeListParse {
    /// The edges and the remaining input after `</relations>`.
    Found(Seq<((u64, u64), Relation)>, Seq<char>),
    /// An element is malformed.
    Malformed,
    /// A `class_name` field held this unrecognized string.
    UnknownRelation(Seq<char>),
}

/// Parses relation elements up to and including the closing `</relations>`
/// tag.
pub open spec fn sp_edge_list(s: Seq<char>) -> EdgeListParse
    decreases s.len(),
{
    match sp_lit(sp_skip_ws(s), close_tag("relations"@)) {
        Some(r) => EdgeListParse::Found(Seq::empty(), r),
        None => match sp_edge_elem(s) {
            EdgeParse::Malformed => EdgeListParse::Malformed,
            EdgeParse::UnknownRelation(t) => EdgeListParse::UnknownRelation(t),
            EdgeParse::Found(k, rel, rest) => {
                if rest.len() < s.len() {
                    match sp_edge_list(rest) {
                        EdgeListParse::Found(es, r2) => EdgeListParse::Found(
                            seq![(k, rel)] + es,
                            r2,
                        ),
                        EdgeListParse::Malformed => EdgeListParse::Malformed,
                        EdgeListParse::UnknownRelation(t) => EdgeListParse::UnknownRelation(t),
                    }
                } else {
                    EdgeListParse::Malformed
                }
            },
        },
    }
}

/// The node map a decoded entity listing stands for: keyed by each entity's
/// id, later entities overwriting earlier ones under the same id.
pub open spec fn nodes_map_of(ns: Seq<NodeView>) -> Map<u64, NodeView>
    decreases ns.len(),
{
    if ns.len() == 0 {
        Map::empty()
    } else {
        nodes_map_of(ns.drop_last()).insert(ns.last().id, ns.last())
    }
}

/// The edge map a decoded relation listing stands for.
pub open spec fn edges_map_of(es: Seq<((u64, u64), Relation)>) -> Map<(u64, u64), Relation>
    decreases es.len(),
{
    if es.len() == 0 {
        Map::empty()
    } else {
        edges_map_of(es.drop_last()).insert(es.last().0, es.last().1)
    }
}

/// The largest id of a decoded entity listing, zero when it is empty.
pub open spec fn max_id(ns: Seq<NodeView>) -> nat
    decreases ns.len(),
{
    if ns.len() == 0 {
        0
    } else {
        let m = max_id(ns.drop_last());
        if ns.last().id as nat > m {
            ns.last().id as nat
        } else {
            m
        }
    }
}

/// What decoding a document yields.
pub ghost enum DecodeOutcome {
    /// The snapshot the document stands for; its id counter is one more than
    /// the largest entity id, or 1 when there are no entities.
    Decoded(SnapView),
    /// The document text is malformed.
    Malformed,
    /// An entity's `class_name` field held this unrecognized string.
    UnknownType(Seq<char>),
    /// A relation's `class_name` field held this unrecognized string.
    UnknownRelation(Seq<char>),
}

/// Parses a whole document.
pub open spec fn sp_decode(doc: Seq<char>) -> DecodeOutcome {
    match sp_lit(sp_skip_ws(doc), open_tag("KG"@)) {
        None => DecodeOutcome::Malformed,
        Some(s0) => {
            let (rawtitle, s1) = sp_take_text(s0);
            match crate::text::sp_unescape(rawtitle) {
                None => DecodeOutcome::Malformed,
                Some(_) => match sp_lit(sp_skip_ws(s1), open_tag("entities"@)) {
                    None => DecodeOutcome::Malformed,
                    Some(s2) => match sp_entity_list(s2) {
                        EntityListParse::Malformed => DecodeOutcome::Malformed,
                        EntityListParse::UnknownType(t) => DecodeOutcome::UnknownType(t),
                        EntityListParse::Found(ns, s3) => match sp_lit(
                            sp_skip_ws(s3),
                            open_tag("relations"@),
                        ) {
                            None => DecodeOutcome::Malformed,
                            Some(s4) => match sp_edge_list(s4) {
                                EdgeListParse::Malformed => DecodeOutcome::Malformed,
                                EdgeListParse::UnknownRelation(t) => DecodeOutcome::UnknownRelation(
                                    t,
                                ),
                                EdgeListParse::Found(es, s5) => match sp_lit(
                                    sp_skip_ws(s5),
                                    close_tag("KG"@),
                                ) {
                                    None => DecodeOutcome::Malformed,
                                    Some(s6) => if sp_skip_ws(s6).len() == 0 {
                                        if max_id(ns) < u64::MAX {
                                            DecodeOutcome::Decoded(
                                                SnapView {
                                                    nodes: nodes_map_of(ns),
                                                    edges: edges_map_of(es),
                                                    latest_id: (max_id(ns) + 1) as u64,
                                                },
                                            )
                                        } else {
                                            DecodeOutcome::Malformed
                                        }
                                    } else {
                                        DecodeOutcome::Malformed
                                    },
                                },
                            },
                        },
                    },
                },
            }
        },
    }
}


/// Whether the vector holds exactly the characters of the string.
fn chars_eq_str(v: &Vec<char>, s: &str) -> (r: bool)
    ensures
        r == (v@ == s@),
{
    let n = s.unicode_len();
    if v.len() != n {
        return false;
    }
    let mut k: usize = 0;
    while k < n
        invariant
            k <= n,
            n == s@.len(),
            v@.len() == n,
            forall|t: int| 0 <= t < k ==> v@[t] == s@[t],
        decreases n - k,
    {
        if v[k] != s.get_char(k) {
            return false;
        }
        k = k + 1;
    }
    proof {
        assert(v@ =~= s@);
    }
    true
}

/// Whether two strings hold the same characters.
pub fn str_eq(a: &str, b: &str) -> (r: bool)
    ensures
        r == (a@ == b@),
{
    let n = a.unicode_len();
    if b.unicode_len() != n {
        return false;
    }
    let mut k: usize = 0;
    while k < n
        invariant
            k <= n,
            n == a@.len(),
            b@.len() == n,
            forall|t: int| 0 <= t < k ==> a@[t] == b@[t],
        decreases n - k,
    {
        if a.get_char(k) != b.get_char(k) {
            return false;
        }
        k = k + 1;
    }
    proof {
        assert(a@ =~= b@);
    }
    true
}

/// Skips whitespace from position `i` on.
fn skip_ws(v: &Vec<char>, i: usize) -> (j: usize)
    requires
        i <= v@.len(),
    ensures
        i <= j <= v@.len(),
        v@.skip(j as int) == sp_skip_ws(v@.skip(i as int)),
{
    let mut j = i;
    while j < v.len() && (v[j] == ' ' || v[j] == '\n' || v[j] == '\t' || v[j] == '\r')
        invariant
            i <= j <= v@.len(),
            sp_skip_ws(v@.skip(i as int)) == sp_skip_ws(v@.skip(j as int)),
        decreases v@.len() - j,
    {
        proof {
            let cur = v@.skip(j as int);
            assert(cur[0] == v@[j as int]);
            assert(is_ws(cur[0]));
            assert(cur.skip(1) =~= v@.skip(j + 1int));
        }
        j = j + 1;
    }
    proof {
        let cur = v@.skip(j as int);
        if j < v.len() {
            assert(cur[0] == v@[j as int]);
            assert(!is_ws(cur[0]));
        }
    }
    j
}

/// Consumes the exact characters of `lit` at position `i`, or fails.
fn expect_lit(v: &Vec<char>, i: usize, lit: &str) -> (r: Option<usize>)
    requires
        i <= v@.len(),
    ensures
        r matches Some(j) ==> i <= j <= v@.len() && j == i + lit@.len() && sp_lit(
            v@.skip(i as int),
            lit@,
        ) == Some(v@.skip(j as int)),
        r is None ==> sp_lit(v@.skip(i as int), lit@) is None,
{
    let n = lit.unicode_len();
    if n > v.len() - i {
        proof {
            assert(v@.skip(i as int).len() < lit@.len());
        }
        return None;
    }
    let vl = v.len();
    let mut k: usize = 0;
    while k < n
        invariant
            k <= n,
            n == lit@.len(),
            i + n <= vl,
            vl == v@.len(),
            forall|t: int| 0 <= t < k ==> v@[i + t] == lit@[t],
        decreases n - k,
    {
        if v[i + k] != lit.get_char(k) {
            proof {
                let s = v@.skip(i as int);
                if sp_lit(s, lit@) is Some {
                    assert(s.subrange(0, lit@.len() as int) == lit@);
                    assert(s.subrange(0, lit@.len() as int)[k as int] == s[k as int]);
                    assert(s[k as int] == v@[i + k]);
                }
            }
            return None;
        }
        k = k + 1;
    }
    proof {
        let s = v@.skip(i as int);
        assert(s.subrange(0, n as int) =~= lit@);
        assert(s.skip(n as int) =~= v@.skip(i + n));
    }
    Some(i + n)
}

/// Consumes an opening or closing tag at position `i`, or fails.
fn expect_tag(v: &Vec<char>, i: usize, name: &str, closing: bool) -> (r: Option<usize>)
    requires
        i <= v@.len(),
    ensures
        r matches Some(j) ==> i < j <= v@.len() && sp_lit(
            v@.skip(i as int),
            if closing {
                close_tag(name@)
            } else {
                open_tag(name@)
            },
        ) == Some(v@.skip(j as int)),
        r is None ==> sp_lit(
            v@.skip(i as int),
            if closing {
                close_tag(name@)
            } else {
                open_tag(name@)
            },
        ) is None,
{
    let ghost s = v@.skip(i as int);
    let ghost tag = if closing {
        close_tag(name@)
    } else {
        open_tag(name@)
    };
    let off: usize = if closing {
        2
    } else {
        1
    };
    proof {
        assert(tag.len() == name@.len() + off + 1);
        assert(tag[0] == '<');
        if closing {
            assert(tag[1] == '/');
        }
        assert(forall|t: int| 0 <= t < name@.len() ==> tag[t + off] == name@[t]);
        assert(tag.last() == '>');
    }
    if i >= v.len() || v[i] != '<' {
        proof {
            if sp_lit(s, tag) is Some {
                assert(s.subrange(0, tag.len() as int)[0] == s[0]);
                assert(s[0] == v@[i as int]);
            }
        }
        return None;
    }
    if closing {
        if i + 1 >= v.len() || v[i + 1] != '/' {
            proof {
                if sp_lit(s, tag) is Some {
                    assert(s.subrange(0, tag.len() as int)[1] == s[1]);
                    assert(s[1] == v@[i + 1int]);
                }
            }
            return None;
        }
    }
    let p = i + off;
    proof {
        assert(p <= v@.len());
    }
    match expect_lit(v, p, name) {
        None => {
            proof {
                if sp_lit(s, tag) is Some {
                    assert(s.len() >= tag.len());
                    assert forall|t: int|
                        0 <= t < name@.len() implies v@.skip(p as int).subrange(
                        0,
                        name@.len() as int,
                    )[t] == name@[t] by {
                        assert(s.subrange(0, tag.len() as int)[t + off] == tag[t + off]);
                        assert(s[t + off] == v@[i + off + t]);
                        assert(v@.skip(p as int).subrange(0, name@.len() as int)[t] == v@[p + t]);
                    }
                    assert(v@.skip(p as int).subrange(0, name@.len() as int) =~= name@);
                    assert(sp_lit(v@.skip(p as int), name@) is Some);
                }
            }
            None
        },
        Some(q) => {
            if q >= v.len() || v[q] != '>' {
                proof {
                    if sp_lit(s, tag) is Some {
                        let last = tag.len() - 1;
                        assert(s.subrange(0, tag.len() as int)[last] == s[last]);
                        assert(s[last] == v@[i + last]);
                        assert(i + last == q);
                    }
                }
                return None;
            }
            proof {
                assert forall|t: int| 0 <= t < tag.len() implies s.subrange(
                    0,
                    tag.len() as int,
                )[t] == tag[t] by {
                    assert(s[t] == v@[i + t]);
                    if t == 0 {
                    } else if closing && t == 1 {
                    } else if t < tag.len() - 1 {
                        assert(v@[p + (t - off)] == name@[t - off]);
                    } else {
                        assert(v@[q as int] == '>');
                    }
                }
                assert(s.subrange(0, tag.len() as int) =~= tag);
                assert(s.skip(tag.len() as int) =~= v@.skip(q + 1int));
            }
            Some(q + 1)
        },
    }
}

/// The first position at or after `i` holding `<`, or the end.
fn text_end(v: &Vec<char>, i: usize, end: usize) -> (j: usize)
    requires
        i <= end <= v@.len(),
    ensures
        i <= j <= end,
        forall|k: int| i <= k < j ==> (#[trigger] v@[k]) != '<',
        j == end || v@[j as int] == '<',
{
    let mut j = i;
    while j < end && v[j] != '<'
        invariant
            i <= j <= end <= v@.len(),
            forall|k: int| i <= k < j ==> (#[trigger] v@[k]) != '<',
        decreases end - j,
    {
        j = j + 1;
    }
    j
}

/// Relies on `char::from_u32`: `Some` exactly for Unicode scalar values, and
/// the returned character has the given code point.
#[verifier::external_body]
fn char_from_u32(u: u32) -> (r: Option<char>)
    ensures
        r is Some <==> vstd::utf8::is_scalar(u),
        r matches Some(c) ==> c as u32 == u,
{
    char::from_u32(u)
}

/// Whether the characters of `lit` stand at position `i` (before `end`).
fn matches_at(v: &Vec<char>, i: usize, end: usize, lit: &str) -> (r: bool)
    requires
        i <= end <= v@.len(),
    ensures
        r == {
            let cur = v@.subrange(i as int, end as int);
            cur.len() >= lit@.len() && cur.subrange(0, lit@.len() as int) == lit@
        },
{
    let ghost cur = v@.subrange(i as int, end as int);
    let n = lit.unicode_len();
    if n > end - i {
        return false;
    }
    let mut k: usize = 0;
    while k < n
        invariant
            k <= n,
            n == lit@.len(),
            i + n <= end <= v@.len(),
            cur == v@.subrange(i as int, end as int),
            forall|t: int| 0 <= t < k ==> v@[i + t] == lit@[t],
        decreases n - k,
    {
        if v[i + k] != lit.get_char(k) {
            proof {
                if cur.len() >= lit@.len() && cur.subrange(0, lit@.len() as int) == lit@ {
                    assert(cur.subrange(0, lit@.len() as int)[k as int] == cur[k as int]);
                    assert(cur[k as int] == v@[i + k]);
                }
            }
            return false;
        }
        k = k + 1;
    }
    proof {
        assert(cur.subrange(0, n as int) =~= lit@);
    }
    true
}


/// One step of the unescape loop: consuming one escape unit extends the
/// accumulator by one character.
proof fn lemma_unescape_step(
    whole: Seq<char>,
    cur: Seq<char>,
    nxt: Seq<char>,
    acc: Seq<char>,
    ch: char,
)
    requires
        crate::text::sp_unescape(whole) == (match crate::text::sp_unescape(cur) {
            Some(t) => Some(acc + t),
            None => None::<Seq<char>>,
        }),
        crate::text::sp_unescape(cur) == (match crate::text::sp_unescape(nxt) {
            Some(t) => Some(seq![ch] + t),
            None => None::<Seq<char>>,
        }),
    ensures
        crate::text::sp_unescape(whole) == (match crate::text::sp_unescape(nxt) {
            Some(t) => Some(acc.push(ch) + t),
            None => None::<Seq<char>>,
        }),
{
    if crate::text::sp_unescape(nxt) is Some {
        let t = choose|t: Seq<char>| crate::text::sp_unescape(nxt) == Some(t);
        assert(acc + (seq![ch] + t) =~= acc.push(ch) + t);
    }
}

/// Unescapes the characters `v[start..end]`: the inverse of the document's
/// escaping, failing on a malformed escape.
#[verifier::rlimit(100)]
fn unescape_range(v: &Vec<char>, start: usize, end: usize) -> (r: Option<Vec<char>>)
    requires
        start <= end <= v@.len(),
    ensures
        r matches Some(t) ==> crate::text::sp_unescape(v@.subrange(start as int, end as int))
            == Some(t@),
        r is None ==> crate::text::sp_unescape(v@.subrange(start as int, end as int)) is None,
{
    let ghost whole = v@.subrange(start as int, end as int);
    let mut out: Vec<char> = Vec::new();
    let mut i = start;
    while i < end
        invariant
            start <= i <= end <= v@.len(),
            whole == v@.subrange(start as int, end as int),
            (crate::text::sp_unescape(whole) == (match crate::text::sp_unescape(
                v@.subrange(i as int, end as int),
            ) {
                Some(t) => Some(out@ + t),
                None => None::<Seq<char>>,
            })),
        decreases end - i,
    {
        let ghost cur = v@.subrange(i as int, end as int);
        let ghost acc = out@;
        let c = v[i];
        proof {
            assert(cur[0] == c);
        }
        if c != '&' {
            out.push(c);
            proof {
                assert(cur.skip(1) =~= v@.subrange(i + 1int, end as int));
                lemma_unescape_step(whole, cur, v@.subrange(i + 1int, end as int), acc, c);
            }
            i = i + 1;
        } else if matches_at(v, i, end, "&amp;") {
            out.push('&');
            proof {
                reveal_strlit("&amp;");
                assert("&amp;"@ =~= crate::text::amp_seq());
                assert(cur.subrange(0, 5) == crate::text::amp_seq());
                assert(cur.skip(5) =~= v@.subrange(i + 5int, end as int));
                lemma_unescape_step(whole, cur, v@.subrange(i + 5int, end as int), acc, '&');
            }
            i = i + 5;
        } else if matches_at(v, i, end, "&lt;") {
            out.push('<');
            proof {
                reveal_strlit("&amp;");
                reveal_strlit("&lt;");
                assert("&amp;"@ =~= crate::text::amp_seq());
                assert("&lt;"@ =~= crate::text::lt_seq());
                assert(cur.subrange(0, 4) == crate::text::lt_seq());
                assert(cur.skip(4) =~= v@.subrange(i + 4int, end as int));
                lemma_unescape_step(whole, cur, v@.subrange(i + 4int, end as int), acc, '<');
            }
            i = i + 4;
        } else if matches_at(v, i, end, "&gt;") {
            out.push('>');
            proof {
                reveal_strlit("&amp;");
                reveal_strlit("&lt;");
                reveal_strlit("&gt;");
                assert("&amp;"@ =~= crate::text::amp_seq());
                assert("&lt;"@ =~= crate::text::lt_seq());
                assert("&gt;"@ =~= crate::text::gt_seq());
                assert(cur.subrange(0, 4) == crate::text::gt_seq());
                assert(cur.skip(4) =~= v@.subrange(i + 4int, end as int));
                lemma_unescape_step(whole, cur, v@.subrange(i + 4int, end as int), acc, '>');
            }
            i = i + 4;
        } else if matches_at(v, i, end, "&quot;") {
            out.push('"');
            proof {
                reveal_strlit("&amp;");
                reveal_strlit("&lt;");
                reveal_strlit("&gt;");
                reveal_strlit("&quot;");
                assert("&amp;"@ =~= crate::text::amp_seq());
                assert("&lt;"@ =~= crate::text::lt_seq());
                assert("&gt;"@ =~= crate::text::gt_seq());
                assert("&quot;"@ =~= crate::text::quot_seq());
                assert(cur.subrange(0, 6) == crate::text::quot_seq());
                assert(cur.skip(6) =~= v@.subrange(i + 6int, end as int));
                lemma_unescape_step(whole, cur, v@.subrange(i + 6int, end as int), acc, '"');
            }
            i = i + 6;
        } else if matches_at(v, i, end, "&apos;") {
            out.push('\'');
            proof {
                reveal_strlit("&amp;");
                reveal_strlit("&lt;");
                reveal_strlit("&gt;");
                reveal_strlit("&quot;");
                reveal_strlit("&apos;");
                assert("&amp;"@ =~= crate::text::amp_seq());
                assert("&lt;"@ =~= crate::text::lt_seq());
                assert("&gt;"@ =~= crate::text::gt_seq());
                assert("&quot;"@ =~= crate::text::quot_seq());
                assert("&apos;"@ =~= crate::text::apos_seq());
                assert(cur.subrange(0, 6) == crate::text::apos_seq());
                assert(cur.skip(6) =~= v@.subrange(i + 6int, end as int));
                lemma_unescape_step(whole, cur, v@.subrange(i + 6int, end as int), acc, '\'');
            }
            i = i + 6;
        } else if i + 1 < end && v[i + 1] == '#' {
            proof {
                reveal_strlit("&amp;");
                reveal_strlit("&lt;");
                reveal_strlit("&gt;");
                reveal_strlit("&quot;");
                reveal_strlit("&apos;");
                assert("&amp;"@ =~= crate::text::amp_seq());
                assert("&lt;"@ =~= crate::text::lt_seq());
                assert("&gt;"@ =~= crate::text::gt_seq());
                assert("&quot;"@ =~= crate::text::quot_seq());
                assert("&apos;"@ =~= crate::text::apos_seq());
                assert(cur[1] == '#');
            }
            let mut j = i + 2;
            while j < end && 48 <= (v[j] as u32) && (v[j] as u32) <= 57
                invariant
                    i + 2 <= j <= end <= v@.len(),
                    forall|k: int| i + 2 <= k < j ==> is_digit_char(#[trigger] v@[k]),
                decreases end - j,
            {
                j = j + 1;
            }
            proof {
                assert forall|k: int| 2 <= k < j - i implies is_digit_char(#[trigger] cur[k]) by {
                    assert(cur[k] == v@[i + k]);
                }
                if j < end {
                    assert(cur[j - i] == v@[j as int]);
                    assert(!is_digit_char(cur[j - i]));
                }
                crate::num::lemma_digit_run(cur, 2, j - i);
            }
            if j == i + 2 || j >= end || v[j] != ';' {
                proof {
                    if j < end {
                        assert(cur[j - i] == v@[j as int]);
                    }
                }
                return None;
            }
            let m = digits_to_u64(v, i + 2, j);
            proof {
                assert(v@.subrange(i + 2int, j as int) =~= cur.subrange(2, j - i));
            }
            match m {
                None => {
                    proof {
                        let d = cur.subrange(2, j - i);
                        crate::num::lemma_val_nonneg(d);
                        assert(crate::num::val_of(d) > u64::MAX);
                    }
                    return None;
                },
                Some(m) => {
                    proof {
                        let d = cur.subrange(2, j - i);
                        crate::num::lemma_val_nonneg(d);
                        assert(m == crate::num::val_of(d));
                    }
                    if m > 0x10FFFF {
                        return None;
                    }
                    if 0xD800 <= m && m < 0xE000 {
                        return None;
                    }
                    let ch = match char_from_u32(m as u32) {
                        Some(ch) => ch,
                        None => {
                            proof {
                                assert(vstd::utf8::is_scalar(m as u32));
                            }
                            return None;
                        },
                    };
                    out.push(ch);
                    proof {
                        let d = cur.subrange(2, j - i);
                        let vv = crate::num::val_of(d);
                        assert(ch as u32 == m as u32);
                        vstd::utf8::char_u32_cast(ch, m as u32);
                        assert(((vv as u32) as char) == ch);
                        assert(cur.skip(j - i + 1) =~= v@.subrange(j + 1int, end as int));
                        lemma_unescape_step(
                            whole,
                            cur,
                            v@.subrange(j + 1int, end as int),
                            acc,
                            ch,
                        );
                    }
                    i = j + 1;
                },
            }
        } else {
            proof {
                reveal_strlit("&amp;");
                reveal_strlit("&lt;");
                reveal_strlit("&gt;");
                reveal_strlit("&quot;");
                reveal_strlit("&apos;");
                assert("&amp;"@ =~= crate::text::amp_seq());
                assert("&lt;"@ =~= crate::text::lt_seq());
                assert("&gt;"@ =~= crate::text::gt_seq());
                assert("&quot;"@ =~= crate::text::quot_seq());
                assert("&apos;"@ =~= crate::text::apos_seq());
                if i + 1 < end {
                    assert(cur[1] == v@[i + 1int]);
                }
            }
            return None;
        }
    }
    proof {
        let cur = v@.subrange(i as int, end as int);
        assert(cur.len() == 0);
        assert(crate::text::sp_unescape(cur) == Some(Seq::<char>::empty()));
        assert(out@ + Seq::<char>::empty() =~= out@);
    }
    Some(out)
}

/// Parses `<name>text</name>` at position `i`, returning the unescaped text.
fn parse_text_elem(v: &Vec<char>, i: usize, name: &str) -> (r: Option<(Vec<char>, usize)>)
    requires
        i <= v@.len(),
    ensures
        r matches Some(p) ==> i < p.1 <= v@.len() && sp_text_elem(v@.skip(i as int), name@)
            == Some((p.0@, v@.skip(p.1 as int))),
        r is None ==> sp_text_elem(v@.skip(i as int), name@) is None,
{
    let j0 = skip_ws(v, i);
    let j1 = match expect_tag(v, j0, name, false) {
        None => {
            return None;
        },
        Some(j1) => j1,
    };
    let j2 = text_end(v, j1, v.len());
    proof {
        let s1 = v@.skip(j1 as int);
        assert forall|k: int| 0 <= k < j2 - j1 implies (#[trigger] s1[k]) != '<' by {
            assert(s1[k] == v@[j1 + k]);
        }
        if j2 < v@.len() {
            assert(s1[j2 - j1] == v@[j2 as int]);
        }
        lemma_take_text(s1, j2 - j1);
        assert(s1.subrange(0, j2 - j1) =~= v@.subrange(j1 as int, j2 as int));
        assert(s1.skip(j2 - j1) =~= v@.skip(j2 as int));
    }
    let txt = match unescape_range(v, j1, j2) {
        None => {
            return None;
        },
        Some(t) => t,
    };
    match expect_tag(v, j2, name, true) {
        None => {
            None
        },
        Some(j3) => {
            Some((txt, j3))
        },
    }
}

/// Parses `<name>` holding an unsigned decimal number.
fn parse_u64_elem(v: &Vec<char>, i: usize, name: &str) -> (r: Option<(u64, usize)>)
    requires
        i <= v@.len(),
    ensures
        r matches Some(p) ==> i < p.1 <= v@.len() && sp_u64_elem(v@.skip(i as int), name@)
            == Some((p.0, v@.skip(p.1 as int))),
        r is None ==> sp_u64_elem(v@.skip(i as int), name@) is None,
{
    match parse_text_elem(v, i, name) {
        None => None,
        Some((txt, j)) => {
            proof {
                assert(txt@.subrange(0, txt@.len() as int) =~= txt@);
            }
            match digits_to_u64(&txt, 0, txt.len()) {
                None => None,
                Some(n) => Some((n, j)),
            }
        },
    }
}

/// Parses `<name>` holding a signed decimal number.
fn parse_i64_elem(v: &Vec<char>, i: usize, name: &str) -> (r: Option<(i64, usize)>)
    requires
        i <= v@.len(),
    ensures
        r matches Some(p) ==> i < p.1 <= v@.len() && sp_i64_elem(v@.skip(i as int), name@)
            == Some((p.0, v@.skip(p.1 as int))),
        r is None ==> sp_i64_elem(v@.skip(i as int), name@) is None,
{
    match parse_text_elem(v, i, name) {
        None => None,
        Some((txt, j)) => {
            proof {
                assert(txt@.subrange(0, txt@.len() as int) =~= txt@);
            }
            match digits_to_i64(&txt, 0, txt.len()) {
                None => None,
                Some(x) => Some((x, j)),
            }
        },
    }
}


/// Why parsing stopped: a malformed document, or an unrecognized enum label.
pub(crate) enum ParseStop {
    /// The document text does not have the expected shape.
    Malformed,
    /// A `class_name` field held this unrecognized string.
    Unknown(String),
}

/// Parses one entity element.
#[verifier::rlimit(100)]
fn parse_entity(v: &Vec<char>, i: usize) -> (r: Result<(EntityNode, usize), ParseStop>)
    requires
        i <= v@.len(),
    ensures
        r matches Ok(p) ==> i < p.1 <= v@.len() && sp_entity_elem(v@.skip(i as int))
            == EntityParse::Found(p.0@, v@.skip(p.1 as int)),
        r matches Err(ParseStop::Malformed) ==> sp_entity_elem(v@.skip(i as int))
            is Malformed,
        r matches Err(ParseStop::Unknown(t)) ==> sp_entity_elem(v@.skip(i as int))
            == EntityParse::UnknownType(t@),
{
    let w = skip_ws(v, i);
    let j0 = match expect_tag(v, w, "entity", false) {
        None => {
            return Err(ParseStop::Malformed);
        },
        Some(j) => j,
    };
    let (id, j1) = match parse_u64_elem(v, j0, "id") {
        None => {
            return Err(ParseStop::Malformed);
        },
        Some(p) => p,
    };
    let (cnv, j2) = match parse_text_elem(v, j1, "class_name") {
        None => {
            return Err(ParseStop::Malformed);
        },
        Some(p) => p,
    };
    let dt = if chars_eq_str(&cnv, "知识领域") {
        DistinctEntityType::KnowledgeArena
    } else if chars_eq_str(&cnv, "知识单元") {
        DistinctEntityType::KnowledgeUnit
    } else if chars_eq_str(&cnv, "知识点") {
        DistinctEntityType::KnowledgePoint
    } else if chars_eq_str(&cnv, "关键知识细节") {
        DistinctEntityType::KnowledgeDetail
    } else {
        return Err(ParseStop::Unknown(chars_to_string(&cnv)));
    };
    proof {
        assert(class_of_label(cnv@) == Some(dt));
    }
    let (_c, j3) = match parse_text_elem(v, j2, "classification") {
        None => {
            return Err(ParseStop::Malformed);
        },
        Some(p) => p,
    };
    let (_id2, j4) = match parse_text_elem(v, j3, "identity") {
        None => {
            return Err(ParseStop::Malformed);
        },
        Some(p) => p,
    };
    let (_lv, j5) = match parse_text_elem(v, j4, "level") {
        None => {
            return Err(ParseStop::Malformed);
        },
        Some(p) => p,
    };
    let (att, j6) = match parse_text_elem(v, j5, "attach") {
        None => {
            return Err(ParseStop::Malformed);
        },
        Some(p) => p,
    };
    let addons = AddonSet {
        thinking: att.len() > 0 && att[0] == '1',
        political: att.len() > 1 && att[1] == '1',
        question: att.len() > 2 && att[2] == '1',
        knowledge: att.len() > 3 && att[3] == '1',
        example: att.len() > 4 && att[4] == '1',
        practice: att.len() > 5 && att[5] == '1',
    };
    proof {
        assert(addons == decode_bitmask(att@));
    }
    let (_ot, j7) = match parse_text_elem(v, j6, "opentool") {
        None => {
            return Err(ParseStop::Malformed);
        },
        Some(p) => p,
    };
    let (content, j8) = match parse_text_elem(v, j7, "content") {
        None => {
            return Err(ParseStop::Malformed);
        },
        Some(p) => p,
    };
    let (x, j9) = match parse_i64_elem(v, j8, "x") {
        None => {
            return Err(ParseStop::Malformed);
        },
        Some(p) => p,
    };
    let (y, j10) = match parse_i64_elem(v, j9, "y") {
        None => {
            return Err(ParseStop::Malformed);
        },
        Some(p) => p,
    };
    let j11 = match expect_tag(v, j10, "entity", true) {
        None => {
            return Err(ParseStop::Malformed);
        },
        Some(j) => j,
    };
    let node = EntityNode {
        id,
        content: chars_to_string(&content),
        distinct_type: dt,
        addon_types: addons,
        coor: (x, y),
    };
    Ok((node, j11))
}

/// Parses one relation element.
#[verifier::rlimit(100)]
fn parse_edge(v: &Vec<char>, i: usize) -> (r: Result<((u64, u64), Relation, usize), ParseStop>)
    requires
        i <= v@.len(),
    ensures
        r matches Ok(p) ==> i < p.2 <= v@.len() && sp_edge_elem(v@.skip(i as int))
            == EdgeParse::Found(p.0, p.1, v@.skip(p.2 as int)),
        r matches Err(ParseStop::Malformed) ==> sp_edge_elem(v@.skip(i as int)) is Malformed,
        r matches Err(ParseStop::Unknown(t)) ==> sp_edge_elem(v@.skip(i as int))
            == EdgeParse::UnknownRelation(t@),
{
    let w = skip_ws(v, i);
    let j0 = match expect_tag(v, w, "relation", false) {
        None => {
            return Err(ParseStop::Malformed);
        },
        Some(j) => j,
    };
    let (_nm, j1) = match parse_text_elem(v, j0, "name") {
        None => {
            return Err(ParseStop::Malformed);
        },
        Some(p) => p,
    };
    let (from, j2) = match parse_u64_elem(v, j1, "headnodeid") {
        None => {
            return Err(ParseStop::Malformed);
        },
        Some(p) => p,
    };
    let (to, j3) = match parse_u64_elem(v, j2, "tailnodeid") {
        None => {
            return Err(ParseStop::Malformed);
        },
        Some(p) => p,
    };
    let (cnv, j4) = match parse_text_elem(v, j3, "class_name") {
        None => {
            return Err(ParseStop::Malformed);
        },
        Some(p) => p,
    };
    let rel = if chars_eq_str(&cnv, "包含关系") {
        Relation::Contain
    } else if chars_eq_str(&cnv, "次序关系") {
        Relation::Order
    } else if chars_eq_str(&cnv, "次序：次序关系") {
        Relation::Order
    } else {
        return Err(ParseStop::Unknown(chars_to_string(&cnv)));
    };
    proof {
        assert(relation_of_label(cnv@) == Some(rel));
    }
    let (_mk, j5) = match parse_text_elem(v, j4, "mask") {
        None => {
            return Err(ParseStop::Malformed);
        },
        Some(p) => p,
    };
    let (_cl, j6) = match parse_text_elem(v, j5, "classification") {
        None => {
            return Err(ParseStop::Malformed);
        },
        Some(p) => p,
    };
    let (_hn, j7) = match parse_text_elem(v, j6, "head_need") {
        None => {
            return Err(ParseStop::Malformed);
        },
        Some(p) => p,
    };
    let (_tn, j8) = match parse_text_elem(v, j7, "tail_need") {
        None => {
            return Err(ParseStop::Malformed);
        },
        Some(p) => p,
    };
    let j9 = match expect_tag(v, j8, "relation", true) {
        None => {
            return Err(ParseStop::Malformed);
        },
        Some(j) => j,
    };
    Ok(((from, to), rel, j9))
}

/// Parses entity elements up to and including `</entities>`.
fn parse_entity_list(v: &Vec<char>, i: usize) -> (r: Result<(Vec<EntityNode>, usize), ParseStop>)
    requires
        i <= v@.len(),
    ensures
        r matches Ok(p) ==> i <= p.1 <= v@.len() && (sp_entity_list(v@.skip(i as int))
            == EntityListParse::Found(
            (Seq::new(p.0@.len() as nat, |q: int| p.0@[q]@)),
            v@.skip(p.1 as int),
        )),
        r matches Err(ParseStop::Malformed) ==> sp_entity_list(v@.skip(i as int)) is Malformed,
        r matches Err(ParseStop::Unknown(t)) ==> sp_entity_list(v@.skip(i as int))
            == EntityListParse::UnknownType(t@),
{
    let mut out: Vec<EntityNode> = Vec::new();
    let mut cur = i;
    loop
        invariant
            i <= cur <= v@.len(),
            (sp_entity_list(v@.skip(i as int)) == (match sp_entity_list(v@.skip(cur as int)) {
                EntityListParse::Found(ns2, r2) => EntityListParse::Found(
                    (Seq::new(out@.len() as nat, |q: int| out@[q]@)) + ns2,
                    r2,
                ),
                EntityListParse::Malformed => EntityListParse::Malformed,
                EntityListParse::UnknownType(t) => EntityListParse::UnknownType(t),
            })),
        decreases v@.len() - cur,
    {
        let w = skip_ws(v, cur);
        match expect_tag(v, w, "entities", true) {
            Some(j) => {
                proof {
                    assert(sp_entity_list(v@.skip(cur as int)) == EntityListParse::Found(
                        Seq::empty(),
                        v@.skip(j as int),
                    ));
                    assert((Seq::new(out@.len() as nat, |q: int| out@[q]@)) + Seq::empty()
                        =~= (Seq::new(out@.len() as nat, |q: int| out@[q]@)));
                }
                return Ok((out, j));
            },
            None => {
            },
        }
        match parse_entity(v, cur) {
            Err(e) => {
                return Err(e);
            },
            Ok((n, j2)) => {
                let ghost prev = Seq::new(out@.len() as nat, |q: int| out@[q]@);
                let ghost nv = n@;
                out.push(n);
                proof {
                    assert(v@.skip(j2 as int).len() < v@.skip(cur as int).len());
                    assert((Seq::new(out@.len() as nat, |q: int| out@[q]@)) =~= prev.push(nv));
                    match sp_entity_list(v@.skip(j2 as int)) {
                        EntityListParse::Found(ns2, r2) => {
                            assert(prev + (seq![nv] + ns2) =~= prev.push(nv) + ns2);
                        },
                        EntityListParse::Malformed => {
                        },
                        EntityListParse::UnknownType(_) => {
                        },
                    }
                }
                cur = j2;
            },
        }
    }
}

/// Parses relation elements up to and including `</relations>`.
fn parse_edge_list(v: &Vec<char>, i: usize) -> (r: Result<
    (Vec<((u64, u64), Relation)>, usize),
    ParseStop,
>)
    requires
        i <= v@.len(),
    ensures
        r matches Ok(p) ==> i <= p.1 <= v@.len() && (sp_edge_list(v@.skip(i as int))
            == EdgeListParse::Found(p.0@, v@.skip(p.1 as int))),
        r matches Err(ParseStop::Malformed) ==> sp_edge_list(v@.skip(i as int)) is Malformed,
        r matches Err(ParseStop::Unknown(t)) ==> sp_edge_list(v@.skip(i as int))
            == EdgeListParse::UnknownRelation(t@),
{
    let mut out: Vec<((u64, u64), Relation)> = Vec::new();
    let mut cur = i;
    loop
        invariant
            i <= cur <= v@.len(),
            (sp_edge_list(v@.skip(i as int)) == (match sp_edge_list(v@.skip(cur as int)) {
                EdgeListParse::Found(es2, r2) => EdgeListParse::Found(out@ + es2, r2),
                EdgeListParse::Malformed => EdgeListParse::Malformed,
                EdgeListParse::UnknownRelation(t) => EdgeListParse::UnknownRelation(t),
            })),
        decreases v@.len() - cur,
    {
        let w = skip_ws(v, cur);
        match expect_tag(v, w, "relations", true) {
            Some(j) => {
                proof {
                    assert(sp_edge_list(v@.skip(cur as int)) == EdgeListParse::Found(
                        Seq::empty(),
                        v@.skip(j as int),
                    ));
                    assert(out@ + Seq::<((u64, u64), Relation)>::empty() =~= out@);
                }
                return Ok((out, j));
            },
            None => {
            },
        }
        match parse_edge(v, cur) {
            Err(e) => {
                return Err(e);
            },
            Ok((k, rel, j2)) => {
                let ghost prev = out@;
                out.push((k, rel));
                proof {
                    assert(v@.skip(j2 as int).len() < v@.skip(cur as int).len());
                    match sp_edge_list(v@.skip(j2 as int)) {
                        EdgeListParse::Found(es2, r2) => {
                            assert(prev + (seq![(k, rel)] + es2) =~= prev.push((k, rel)) + es2);
                        },
                        EdgeListParse::Malformed => {
                        },
                        EdgeListParse::UnknownRelation(_) => {
                        },
                    }
                }
                cur = j2;
            },
        }
    }
}


impl Snapshot {
    /// Parses a document back into a snapshot.  The id counter is recomputed
    /// as one more than the largest entity id, or 1 for an empty document.
    /// Malformed text fails with `Deserialize`; an unrecognized entity or
    /// relation label fails with `Unexpected`, naming the field and carrying
    /// the offending string.
    #[verifier::rlimit(100)]
    pub fn from_xml(xml: &str) -> (r: Result<Snapshot, SerdeError>)
        ensures
            sp_decode(xml@) is Decoded <==> r is Ok,
            r matches Ok(snap) ==> sp_decode(xml@) == DecodeOutcome::Decoded(snap@),
            sp_decode(xml@) is Malformed ==> (r matches Err(e) && e is Deserialize),
            sp_decode(xml@) matches DecodeOutcome::UnknownType(t) ==> (r matches Err(e)
                && e matches SerdeError::Unexpected(f, val) && f@ == "实体类型"@ && val@ == t),
            sp_decode(xml@) matches DecodeOutcome::UnknownRelation(t) ==> (r matches Err(e)
                && e matches SerdeError::Unexpected(f, val) && f@ == "关系名"@ && val@ == t),
    {
        let v = string_to_chars(xml);
        proof {
            assert(v@.skip(0) =~= xml@);
        }
        let w = skip_ws(&v, 0);
        let j0 = match expect_tag(&v, w, "KG", false) {
            None => {
                return Err(SerdeError::Deserialize);
            },
            Some(j) => j,
        };
        let j1 = text_end(&v, j0, v.len());
        proof {
            let s0 = v@.skip(j0 as int);
            assert forall|k: int| 0 <= k < j1 - j0 implies (#[trigger] s0[k]) != '<' by {
                assert(s0[k] == v@[j0 + k]);
            }
            if j1 < v@.len() {
                assert(s0[j1 - j0] == v@[j1 as int]);
            }
            lemma_take_text(s0, j1 - j0);
            assert(s0.subrange(0, j1 - j0) =~= v@.subrange(j0 as int, j1 as int));
            assert(s0.skip(j1 - j0) =~= v@.skip(j1 as int));
        }
        match unescape_range(&v, j0, j1) {
            None => {
                return Err(SerdeError::Deserialize);
            },
            Some(_) => {
            },
        }
        let w1 = skip_ws(&v, j1);
        let j2 = match expect_tag(&v, w1, "entities", false) {
            None => {
                return Err(SerdeError::Deserialize);
            },
            Some(j) => j,
        };
        let (nodes_vec, j3) = match parse_entity_list(&v, j2) {
            Err(ParseStop::Malformed) => {
                return Err(SerdeError::Deserialize);
            },
            Err(ParseStop::Unknown(t)) => {
                return Err(SerdeError::Unexpected("实体类型", t));
            },
            Ok(p) => p,
        };
        let ghost ns = Seq::new(nodes_vec@.len() as nat, |q: int| nodes_vec@[q]@);
        let w2 = skip_ws(&v, j3);
        let j4 = match expect_tag(&v, w2, "relations", false) {
            None => {
                return Err(SerdeError::Deserialize);
            },
            Some(j) => j,
        };
        let (edges_vec, j5) = match parse_edge_list(&v, j4) {
            Err(ParseStop::Malformed) => {
                return Err(SerdeError::Deserialize);
            },
            Err(ParseStop::Unknown(t)) => {
                return Err(SerdeError::Unexpected("关系名", t));
            },
            Ok(p) => p,
        };
        let w3 = skip_ws(&v, j5);
        let j6 = match expect_tag(&v, w3, "KG", true) {
            None => {
                return Err(SerdeError::Deserialize);
            },
            Some(j) => j,
        };
        let j7 = skip_ws(&v, j6);
        if j7 != v.len() {
            proof {
                assert(v@.skip(j7 as int).len() > 0);
            }
            return Err(SerdeError::Deserialize);
        }
        proof {
            assert(v@.skip(j7 as int).len() == 0);
        }
        // recompute the id counter: one more than the largest id
        let mut m: u64 = 0;
        let mut k: usize = 0;
        while k < nodes_vec.len()
            invariant
                0 <= k <= nodes_vec@.len(),
                ns == Seq::new(nodes_vec@.len() as nat, |q: int| nodes_vec@[q]@),
                m as nat == max_id(ns.take(k as int)),
            decreases nodes_vec@.len() - k,
        {
            proof {
                assert(ns.take(k + 1int).drop_last() =~= ns.take(k as int));
                assert(ns.take(k + 1int).last() == ns[k as int]);
            }
            if nodes_vec[k].id > m {
                m = nodes_vec[k].id;
            }
            k = k + 1;
        }
        proof {
            assert(ns.take(nodes_vec@.len() as int) =~= ns);
        }
        if m == u64::MAX {
            return Err(SerdeError::Deserialize);
        }
        // build the node map
        let mut nm = crate::coll::node_map_new();
        let mut k2: usize = 0;
        while k2 < nodes_vec.len()
            invariant
                0 <= k2 <= nodes_vec@.len(),
                ns == Seq::new(nodes_vec@.len() as nat, |q: int| nodes_vec@[q]@),
                crate::coll::node_map_view(nm) == nodes_map_of(ns.take(k2 as int)),
            decreases nodes_vec@.len() - k2,
        {
            proof {
                assert(ns.take(k2 + 1int).drop_last() =~= ns.take(k2 as int));
                assert(ns.take(k2 + 1int).last() == ns[k2 as int]);
            }
            let node = nodes_vec[k2].clone();
            crate::coll::node_map_insert(&mut nm, node.id, node);
            k2 = k2 + 1;
        }
        proof {
            assert(ns.take(nodes_vec@.len() as int) =~= ns);
        }
        // build the edge map
        let mut em = crate::coll::edge_map_new();
        let mut k3: usize = 0;
        while k3 < edges_vec.len()
            invariant
                0 <= k3 <= edges_vec@.len(),
                crate::coll::edge_map_view(em) == edges_map_of(edges_vec@.take(k3 as int)),
            decreases edges_vec@.len() - k3,
        {
            proof {
                assert(edges_vec@.take(k3 + 1int).drop_last() =~= edges_vec@.take(k3 as int));
                assert(edges_vec@.take(k3 + 1int).last() == edges_vec@[k3 as int]);
            }
            let (key, rel) = edges_vec[k3];
            crate::coll::edge_map_insert(&mut em, key, rel);
            k3 = k3 + 1;
        }
        proof {
            assert(edges_vec@.take(edges_vec@.len() as int) =~= edges_vec@);
        }
        let snap = Snapshot { nodes: nm, edges: em, latest_id: m + 1 };
        proof {
            assert(snap@ =~= (SnapView {
                nodes: nodes_map_of(ns),
                edges: edges_map_of(edges_vec@),
                latest_id: (max_id(ns) + 1) as u64,
            }));
        }
        Ok(snap)
    }
}

/// One relation element in its document form: every field holds the plain
/// text (or id) that the document stores for it.
pub struct SerializableEdge {
    /// The constant `name` field.
    pub name: String,
    /// The source node id.
    pub headnodeid: u64,
    /// The target node id.
    pub tailnodeid: u64,
    /// The relation label.
    pub class_name: String,
    /// The constant `mask` field.
    pub mask: String,
    /// The relation label again.
    pub classification: String,
    /// The constant `head_need` field.
    pub head_need: String,
    /// The constant `tail_need` field.
    pub tail_need: String,
}

impl SerializableEdge {
    /// Fills the document fields for one edge.
    pub fn from_edge(from: u64, to: u64, relation: Relation) -> (r: SerializableEdge)
        ensures
            r.name@ == sp_edge_name(),
            r.headnodeid == from,
            r.tailnodeid == to,
            r.class_name@ == relation.spec_class_name(),
            r.mask@ == sp_edge_mask(),
            r.classification@ == relation.spec_class_name(),
            r.head_need@ == sp_node_classification(),
            r.tail_need@ == sp_node_classification(),
    {
        SerializableEdge {
            name: String::from_str("包含"),
            headnodeid: from,
            tailnodeid: to,
            class_name: String::from_str(relation.class_name()),
            mask: String::from_str("知识连线"),
            classification: String::from_str(relation.classification()),
            head_need: String::from_str("内容方法型节点"),
            tail_need: String::from_str("内容方法型节点"),
        }
    }

    /// Reads the document fields back: the `(from, to)` key and the relation
    /// that the `class_name` label stands for, or `Unexpected` naming the
    /// field and the unrecognized label.
    pub fn to_edge(&self) -> (r: Result<(u64, u64, Relation), SerdeError>)
        ensures
            r is Ok <==> relation_of_label(self.class_name@) is Some,
            r matches Ok(p) ==> p.0 == self.headnodeid && p.1 == self.tailnodeid && Some(p.2)
                == relation_of_label(self.class_name@),
            r matches Err(e) ==> (e matches SerdeError::Unexpected(f, val) && f@ == "关系名"@
                && val@ == self.class_name@),
    {
        let rel = if str_eq(self.class_name.as_str(), "包含关系") {
            Relation::Contain
        } else if str_eq(self.class_name.as_str(), "次序关系") {
            Relation::Order
        } else if str_eq(self.class_name.as_str(), "次序：次序关系") {
            Relation::Order
        } else {
            return Err(SerdeError::Unexpected("关系名", self.class_name.clone()));
        };
        Ok((self.headnodeid, self.tailnodeid, rel))
    }
}


/// Serializes one entity element on its own, exactly as it appears in a
/// document: fields in the fixed order, with the non-ASCII escape applied.
pub fn encode_entity(node: &EntityNode) -> (r: String)
    ensures
        r@ == sp_entity_doc(true, node@),
{
    let mut buf: Vec<char> = Vec::new();
    emit_entity(&mut buf, node);
    let pre = chars_to_string(&buf);
    let out = escape_non_ascii(pre.as_str());
    proof {
        lemma_ena_entity(node@);
    }
    out
}

/// Serializes one relation element on its own, exactly as it appears in a
/// document.
pub fn encode_edge(from: u64, to: u64, relation: Relation) -> (r: String)
    ensures
        r@ == sp_edge_doc(true, (from, to), relation),
{
    let mut buf: Vec<char> = Vec::new();
    emit_edge(&mut buf, from, to, relation);
    let pre = chars_to_string(&buf);
    let out = escape_non_ascii(pre.as_str());
    proof {
        lemma_ena_edge((from, to), relation);
    }
    out
}

} // verus!
