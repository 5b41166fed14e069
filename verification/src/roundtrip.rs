//! The codec round trip: decoding an encoded snapshot yields the snapshot
//! back, with the id counter recomputed from the largest entity id.

use vstd::prelude::*;

use crate::canon::{
    lemma_min_edge_key_exists, lemma_min_key_exists, min_edge_key, min_key, sorted_edge_kvs,
    sorted_node_kvs,
};
use crate::codec::{
    bitmask_chars, class_of_label, close_tag, decode_bitmask, edges_map_of,
    lemma_bitmask_round_trip, max_id, nodes_map_of, open_tag, relation_of_label, sp_decode,
    sp_doc, sp_edge_doc, sp_edge_elem, sp_edge_list, sp_edge_section, sp_elem, sp_encode,
    sp_entity_doc, sp_entity_elem, sp_entity_list, sp_entity_section, sp_lit, sp_skip_ws,
    sp_text_elem, sp_title, DecodeOutcome, EdgeListParse, EdgeParse, EntityListParse, EntityParse,
};
use crate::node::{DistinctEntityType, NodeView, Relation};
use crate::num::{
    all_digits, dec_digits, dec_signed, is_digit_char, lemma_dec_digits, lemma_digits_round_trip,
    lemma_signed_round_trip,
};
use crate::snapshot::{edge_key_lt, SnapView};
use crate::text::{lemma_escape_no_lt, lemma_unescape_escape, no_lt, sp_escape, sp_unescape};

verus! {

/// The entity values of a key-value listing, keys dropped.
pub open spec fn node_values(ss: Seq<(u64, NodeView)>) -> Seq<NodeView> {
    Seq::new(ss.len(), |i: int| ss[i].1)
}

/// The snapshot's id counter equals what decoding recomputes: one more than
/// the largest entity id, or 1 with no entities.  Every counter a store or
/// a decode produces from an encodable history satisfies this right after
/// loading; it can run ahead after deletions.
pub open spec fn counter_is_recomputed(sv: SnapView) -> bool {
    &&& max_id(node_values(sorted_node_kvs(sv.nodes))) < u64::MAX
    &&& sv.latest_id == max_id(node_values(sorted_node_kvs(sv.nodes))) + 1
}

/// A text without `&` unescapes to itself.
proof fn lemma_unescape_amp_free(s: Seq<char>)
    requires
        forall|i: int| 0 <= i < s.len() ==> (#[trigger] s[i]) != '&',
    ensures
        sp_unescape(s) == Some(s),
    decreases s.len(),
{
    if s.len() > 0 {
        let s2 = s.skip(1);
        assert(forall|i: int| 0 <= i < s2.len() ==> (#[trigger] s2[i]) == s[i + 1]);
        lemma_unescape_amp_free(s2);
        assert(seq![s[0]] + s2 =~= s);
    }
}

/// Digits hold neither `<` nor `&`.
proof fn lemma_digits_plain(s: Seq<char>)
    requires
        all_digits(s),
    ensures
        no_lt(s),
        forall|i: int| 0 <= i < s.len() ==> (#[trigger] s[i]) != '&',
        sp_unescape(s) == Some(s),
{
    assert forall|i: int| 0 <= i < s.len() implies (#[trigger] s[i]) != '<' && s[i] != '&' by {
        assert(is_digit_char(s[i]));
    }
    lemma_unescape_amp_free(s);
}

/// A signed decimal holds neither `<` nor `&`.
proof fn lemma_signed_plain(x: int)
    ensures
        no_lt(dec_signed(x)),
        sp_unescape(dec_signed(x)) == Some(dec_signed(x)),
{
    lemma_dec_digits(if x < 0 {
        (-x) as nat
    } else {
        x as nat
    });
    let s = dec_signed(x);
    assert forall|i: int| 0 <= i < s.len() implies (#[trigger] s[i]) != '<' && s[i] != '&' by {
        if x < 0 {
            if i >= 1 {
                assert(s[i] == dec_digits((-x) as nat)[i - 1]);
                assert(is_digit_char(dec_digits((-x) as nat)[i - 1]));
            }
        } else {
            assert(is_digit_char(dec_digits(x as nat)[i]));
        }
    }
    lemma_unescape_amp_free(s);
}

/// A bitmask holds neither `<` nor `&`.
proof fn lemma_bitmask_plain(a: crate::node::AddonSet)
    ensures
        no_lt(bitmask_chars(a)),
        sp_unescape(bitmask_chars(a)) == Some(bitmask_chars(a)),
{
    let s = bitmask_chars(a);
    assert forall|i: int| 0 <= i < s.len() implies (#[trigger] s[i]) != '<' && s[i] != '&' by {
        assert(s[i] == '1' || s[i] == '0');
    }
    lemma_unescape_amp_free(s);
}

/// Consuming a literal that stands at the front leaves the rest.
proof fn lemma_lit_prefix(lit: Seq<char>, rest: Seq<char>)
    ensures
        sp_lit(lit + rest, lit) == Some(rest),
{
    let s = lit + rest;
    assert(s.subrange(0, lit.len() as int) =~= lit);
    assert(s.skip(lit.len() as int) =~= rest);
}

/// Skipping whitespace before a tag is a no-op.
proof fn lemma_skip_ws_lt(s: Seq<char>)
    requires
        s.len() > 0,
        s[0] == '<',
    ensures
        sp_skip_ws(s) == s,
{
}

/// Parsing one element of a well-formed document body.
proof fn lemma_elem_rt(name: Seq<char>, body: Seq<char>, txt: Seq<char>, rest: Seq<char>)
    requires
        no_lt(body),
        sp_unescape(body) == Some(txt),
    ensures
        sp_text_elem(sp_elem(name, body) + rest, name) == Some((txt, rest)),
{
    let s = sp_elem(name, body) + rest;
    assert(s[0] == '<') by {
        assert(open_tag(name)[0] == '<');
        assert(sp_elem(name, body)[0] == open_tag(name)[0]);
    }
    lemma_skip_ws_lt(s);
    assert(s =~= open_tag(name) + (body + (close_tag(name) + rest)));
    lemma_lit_prefix(open_tag(name), body + (close_tag(name) + rest));
    let after = body + (close_tag(name) + rest);
    crate::codec::lemma_take_text(after, body.len() as int);
    assert(after.subrange(0, body.len() as int) =~= body);
    assert(after.skip(body.len() as int) =~= close_tag(name) + rest);
    assert(after.len() == body.len() || after[body.len() as int] == '<') by {
        assert(after[body.len() as int] == (close_tag(name) + rest)[0]);
        assert(close_tag(name)[0] == '<');
    }
    assert forall|k: int| 0 <= k < body.len() implies (#[trigger] after[k]) != '<' by {
        assert(after[k] == body[k]);
    }
    crate::codec::lemma_take_text(after, body.len() as int);
    lemma_lit_prefix(close_tag(name), rest);
}

/// A `class_name` label decodes back to the type it was produced from.
proof fn lemma_class_label_inverse(dt: DistinctEntityType)
    ensures
        class_of_label(dt.spec_class_name()) == Some(dt),
{
    reveal_strlit("知识领域");
    reveal_strlit("知识单元");
    reveal_strlit("知识点");
    reveal_strlit("关键知识细节");
    let arena = DistinctEntityType::KnowledgeArena.spec_class_name();
    let unit = DistinctEntityType::KnowledgeUnit.spec_class_name();
    let point = DistinctEntityType::KnowledgePoint.spec_class_name();
    let detail = DistinctEntityType::KnowledgeDetail.spec_class_name();
    assert(unit != arena) by {
        if unit == arena {
            assert(unit[2] == arena[2]);
        }
    }
    assert(point != arena) by {
        if point == arena {
            assert(point.len() == arena.len());
        }
    }
    assert(point != unit) by {
        if point == unit {
            assert(point.len() == unit.len());
        }
    }
    assert(detail != arena) by {
        if detail == arena {
            assert(detail.len() == arena.len());
        }
    }
    assert(detail != unit) by {
        if detail == unit {
            assert(detail.len() == unit.len());
        }
    }
    assert(detail != point) by {
        if detail == point {
            assert(detail.len() == point.len());
        }
    }
}

/// A relation label decodes back to the relation it was produced from.
proof fn lemma_relation_label_inverse(rel: Relation)
    ensures
        relation_of_label(rel.spec_class_name()) == Some(rel),
{
    reveal_strlit("包含关系");
    reveal_strlit("次序关系");
    let contain = Relation::Contain.spec_class_name();
    let order = Relation::Order.spec_class_name();
    assert(order != contain) by {
        if order == contain {
            assert(order[0] == contain[0]);
        }
    }
}

/// Parsing one encoded entity element yields the entity back.
#[verifier::rlimit(100)]
proof fn lemma_entity_rt(n: NodeView, rest: Seq<char>)
    ensures
        sp_entity_elem(sp_entity_doc(true, n) + rest) == EntityParse::Found(n, rest),
{
    let b1 = sp_elem("id"@, dec_digits(n.id as nat));
    let b2 = sp_elem("class_name"@, sp_escape(n.distinct_type.spec_class_name()));
    let b3 = sp_elem("classification"@, sp_escape(crate::codec::sp_node_classification()));
    let b4 = sp_elem("identity"@, sp_escape(crate::codec::sp_identity()));
    let b5 = sp_elem("level"@, sp_escape(n.distinct_type.spec_level()));
    let b6 = sp_elem("attach"@, bitmask_chars(n.addon_types));
    let b7 = sp_elem("opentool"@, sp_escape(crate::codec::sp_opentool()));
    let b8 = sp_elem("content"@, sp_escape(n.content));
    let b9 = sp_elem("x"@, dec_signed(n.coor.0 as int));
    let b10 = sp_elem("y"@, dec_signed(n.coor.1 as int));
    let body = b1 + b2 + b3 + b4 + b5 + b6 + b7 + b8 + b9 + b10;
    let s = sp_entity_doc(true, n) + rest;
    assert(s[0] == '<') by {
        assert(open_tag("entity"@)[0] == '<');
        assert(sp_entity_doc(true, n)[0] == open_tag("entity"@)[0]);
    }
    lemma_skip_ws_lt(s);
    assert(s =~= open_tag("entity"@) + (body + (close_tag("entity"@) + rest)));
    lemma_lit_prefix(open_tag("entity"@), body + (close_tag("entity"@) + rest));
    let tail = close_tag("entity"@) + rest;
    let r10 = tail;
    let r9 = b10 + r10;
    let r8 = b9 + r9;
    let r7 = b8 + r8;
    let r6 = b7 + r7;
    let r5 = b6 + r6;
    let r4 = b5 + r5;
    let r3 = b4 + r4;
    let r2 = b3 + r3;
    let r1 = b2 + r2;
    assert(body + tail =~= b1 + r1);
    assert(r1 =~= b2 + r2);
    assert(r2 =~= b3 + r3);
    assert(r3 =~= b4 + r4);
    assert(r4 =~= b5 + r5);
    assert(r5 =~= b6 + r6);
    assert(r6 =~= b7 + r7);
    assert(r7 =~= b8 + r8);
    assert(r8 =~= b9 + r9);
    // id
    lemma_dec_digits(n.id as nat);
    lemma_digits_plain(dec_digits(n.id as nat));
    lemma_elem_rt("id"@, dec_digits(n.id as nat), dec_digits(n.id as nat), r1);
    lemma_digits_round_trip(n.id);
    // class_name
    lemma_escape_no_lt(n.distinct_type.spec_class_name());
    lemma_unescape_escape(n.distinct_type.spec_class_name());
    lemma_elem_rt(
        "class_name"@,
        sp_escape(n.distinct_type.spec_class_name()),
        n.distinct_type.spec_class_name(),
        r2,
    );
    lemma_class_label_inverse(n.distinct_type);
    // constants
    lemma_escape_no_lt(crate::codec::sp_node_classification());
    lemma_unescape_escape(crate::codec::sp_node_classification());
    lemma_elem_rt(
        "classification"@,
        sp_escape(crate::codec::sp_node_classification()),
        crate::codec::sp_node_classification(),
        r3,
    );
    lemma_escape_no_lt(crate::codec::sp_identity());
    lemma_unescape_escape(crate::codec::sp_identity());
    lemma_elem_rt(
        "identity"@,
        sp_escape(crate::codec::sp_identity()),
        crate::codec::sp_identity(),
        r4,
    );
    lemma_escape_no_lt(n.distinct_type.spec_level());
    lemma_unescape_escape(n.distinct_type.spec_level());
    lemma_elem_rt(
        "level"@,
        sp_escape(n.distinct_type.spec_level()),
        n.distinct_type.spec_level(),
        r5,
    );
    // attach
    lemma_bitmask_plain(n.addon_types);
    lemma_elem_rt("attach"@, bitmask_chars(n.addon_types), bitmask_chars(n.addon_types), r6);
    lemma_bitmask_round_trip(n.addon_types);
    // opentool, content
    lemma_escape_no_lt(crate::codec::sp_opentool());
    lemma_unescape_escape(crate::codec::sp_opentool());
    lemma_elem_rt(
        "opentool"@,
        sp_escape(crate::codec::sp_opentool()),
        crate::codec::sp_opentool(),
        r7,
    );
    lemma_escape_no_lt(n.content);
    lemma_unescape_escape(n.content);
    lemma_elem_rt("content"@, sp_escape(n.content), n.content, r8);
    // coordinates
    lemma_signed_plain(n.coor.0 as int);
    lemma_elem_rt("x"@, dec_signed(n.coor.0 as int), dec_signed(n.coor.0 as int), r9);
    lemma_signed_round_trip(n.coor.0);
    lemma_signed_plain(n.coor.1 as int);
    lemma_elem_rt("y"@, dec_signed(n.coor.1 as int), dec_signed(n.coor.1 as int), r10);
    lemma_signed_round_trip(n.coor.1);
    // closing tag
    lemma_lit_prefix(close_tag("entity"@), rest);
    let built = NodeView {
        id: n.id,
        content: n.content,
        distinct_type: n.distinct_type,
        addon_types: decode_bitmask(bitmask_chars(n.addon_types)),
        coor: (n.coor.0, n.coor.1),
    };
    assert(built =~= n);
}

/// Parsing one encoded relation element yields the edge back.
#[verifier::rlimit(100)]
proof fn lemma_edge_rt(k: (u64, u64), rel: Relation, rest: Seq<char>)
    ensures
        sp_edge_elem(sp_edge_doc(true, k, rel) + rest) == EdgeParse::Found(k, rel, rest),
{
    let b1 = sp_elem("name"@, sp_escape(crate::codec::sp_edge_name()));
    let b2 = sp_elem("headnodeid"@, dec_digits(k.0 as nat));
    let b3 = sp_elem("tailnodeid"@, dec_digits(k.1 as nat));
    let b4 = sp_elem("class_name"@, sp_escape(rel.spec_class_name()));
    let b5 = sp_elem("mask"@, sp_escape(crate::codec::sp_edge_mask()));
    let b6 = sp_elem("classification"@, sp_escape(rel.spec_class_name()));
    let b7 = sp_elem("head_need"@, sp_escape(crate::codec::sp_node_classification()));
    let b8 = sp_elem("tail_need"@, sp_escape(crate::codec::sp_node_classification()));
    let body = b1 + b2 + b3 + b4 + b5 + b6 + b7 + b8;
    let s = sp_edge_doc(true, k, rel) + rest;
    assert(s[0] == '<') by {
        assert(open_tag("relation"@)[0] == '<');
        assert(sp_edge_doc(true, k, rel)[0] == open_tag("relation"@)[0]);
    }
    lemma_skip_ws_lt(s);
    assert(s =~= open_tag("relation"@) + (body + (close_tag("relation"@) + rest)));
    lemma_lit_prefix(open_tag("relation"@), body + (close_tag("relation"@) + rest));
    let tail = close_tag("relation"@) + rest;
    let r8 = tail;
    let r7 = b8 + r8;
    let r6 = b7 + r7;
    let r5 = b6 + r6;
    let r4 = b5 + r5;
    let r3 = b4 + r4;
    let r2 = b3 + r3;
    let r1 = b2 + r2;
    assert(body + tail =~= b1 + r1);
    assert(r1 =~= b2 + r2);
    assert(r2 =~= b3 + r3);
    assert(r3 =~= b4 + r4);
    assert(r4 =~= b5 + r5);
    assert(r5 =~= b6 + r6);
    assert(r6 =~= b7 + r7);
    assert(r7 =~= b8 + r8);
    lemma_escape_no_lt(crate::codec::sp_edge_name());
    lemma_unescape_escape(crate::codec::sp_edge_name());
    lemma_elem_rt(
        "name"@,
        sp_escape(crate::codec::sp_edge_name()),
        crate::codec::sp_edge_name(),
        r1,
    );
    lemma_dec_digits(k.0 as nat);
    lemma_digits_plain(dec_digits(k.0 as nat));
    lemma_elem_rt("headnodeid"@, dec_digits(k.0 as nat), dec_digits(k.0 as nat), r2);
    lemma_digits_round_trip(k.0);
    lemma_dec_digits(k.1 as nat);
    lemma_digits_plain(dec_digits(k.1 as nat));
    lemma_elem_rt("tailnodeid"@, dec_digits(k.1 as nat), dec_digits(k.1 as nat), r3);
    lemma_digits_round_trip(k.1);
    lemma_escape_no_lt(rel.spec_class_name());
    lemma_unescape_escape(rel.spec_class_name());
    lemma_elem_rt("class_name"@, sp_escape(rel.spec_class_name()), rel.spec_class_name(), r4);
    lemma_relation_label_inverse(rel);
    lemma_escape_no_lt(crate::codec::sp_edge_mask());
    lemma_unescape_escape(crate::codec::sp_edge_mask());
    lemma_elem_rt(
        "mask"@,
        sp_escape(crate::codec::sp_edge_mask()),
        crate::codec::sp_edge_mask(),
        r5,
    );
    lemma_elem_rt("classification"@, sp_escape(rel.spec_class_name()), rel.spec_class_name(), r6);
    lemma_escape_no_lt(crate::codec::sp_node_classification());
    lemma_unescape_escape(crate::codec::sp_node_classification());
    lemma_elem_rt(
        "head_need"@,
        sp_escape(crate::codec::sp_node_classification()),
        crate::codec::sp_node_classification(),
        r7,
    );
    lemma_elem_rt(
        "tail_need"@,
        sp_escape(crate::codec::sp_node_classification()),
        crate::codec::sp_node_classification(),
        r8,
    );
    lemma_lit_prefix(close_tag("relation"@), rest);
}

/// The entity section decomposed at the front.
proof fn lemma_entity_section_cons(ss: Seq<(u64, NodeView)>)
    requires
        ss.len() > 0,
    ensures
        sp_entity_section(true, ss) == sp_entity_doc(true, ss[0].1) + sp_entity_section(
            true,
            ss.skip(1),
        ),
    decreases ss.len(),
{
    if ss.len() == 1 {
        assert(ss.drop_last() =~= Seq::empty());
        assert(ss.skip(1) =~= Seq::empty());
        assert(sp_entity_section(true, ss) =~= sp_entity_doc(true, ss[0].1) + sp_entity_section(
            true,
            ss.skip(1),
        ));
    } else {
        let s2 = ss.drop_last();
        lemma_entity_section_cons(s2);
        assert(s2[0] == ss[0]);
        assert(ss.skip(1).drop_last() =~= s2.skip(1));
        assert(ss.skip(1).last() == ss.last());
        assert(sp_entity_section(true, ss.skip(1)) == sp_entity_section(true, s2.skip(1))
            + sp_entity_doc(true, ss.last().1));
        assert(sp_entity_section(true, ss) == (sp_entity_doc(true, ss[0].1) + sp_entity_section(
            true,
            s2.skip(1),
        )) + sp_entity_doc(true, ss.last().1));
        assert((sp_entity_doc(true, ss[0].1) + sp_entity_section(true, s2.skip(1)))
            + sp_entity_doc(true, ss.last().1) =~= sp_entity_doc(true, ss[0].1) + (
        sp_entity_section(true, s2.skip(1)) + sp_entity_doc(true, ss.last().1)));
    }
}

/// The relation section decomposed at the front.
proof fn lemma_edge_section_cons(ss: Seq<((u64, u64), Relation)>)
    requires
        ss.len() > 0,
    ensures
        sp_edge_section(true, ss) == sp_edge_doc(true, ss[0].0, ss[0].1) + sp_edge_section(
            true,
            ss.skip(1),
        ),
    decreases ss.len(),
{
    if ss.len() == 1 {
        assert(ss.drop_last() =~= Seq::empty());
        assert(ss.skip(1) =~= Seq::empty());
        assert(sp_edge_section(true, ss) =~= sp_edge_doc(true, ss[0].0, ss[0].1)
            + sp_edge_section(true, ss.skip(1)));
    } else {
        let s2 = ss.drop_last();
        lemma_edge_section_cons(s2);
        assert(s2[0] == ss[0]);
        assert(ss.skip(1).drop_last() =~= s2.skip(1));
        assert(ss.skip(1).last() == ss.last());
        assert(sp_edge_section(true, ss.skip(1)) == sp_edge_section(true, s2.skip(1))
            + sp_edge_doc(true, ss.last().0, ss.last().1));
        assert(sp_edge_section(true, ss) == (sp_edge_doc(true, ss[0].0, ss[0].1)
            + sp_edge_section(true, s2.skip(1))) + sp_edge_doc(true, ss.last().0, ss.last().1));
        assert((sp_edge_doc(true, ss[0].0, ss[0].1) + sp_edge_section(true, s2.skip(1)))
            + sp_edge_doc(true, ss.last().0, ss.last().1) =~= sp_edge_doc(true, ss[0].0, ss[0].1)
            + (sp_edge_section(true, s2.skip(1)) + sp_edge_doc(true, ss.last().0, ss.last().1)));
    }
}

/// Parsing an encoded entity section consumes it and its closing tag.
#[verifier::rlimit(100)]
proof fn lemma_entity_list_rt(ss: Seq<(u64, NodeView)>, rest: Seq<char>)
    ensures
        sp_entity_list(sp_entity_section(true, ss) + (close_tag("entities"@) + rest))
            == EntityListParse::Found(node_values(ss), rest),
    decreases ss.len(),
{
    reveal_strlit("entity");
    reveal_strlit("entities");
    if ss.len() == 0 {
        let s = sp_entity_section(true, ss) + (close_tag("entities"@) + rest);
        assert(s =~= close_tag("entities"@) + rest);
        assert(s[0] == '<') by {
            assert(close_tag("entities"@)[0] == '<');
        }
        lemma_skip_ws_lt(s);
        lemma_lit_prefix(close_tag("entities"@), rest);
        assert(node_values(ss) =~= Seq::<NodeView>::empty());
    } else {
        lemma_entity_section_cons(ss);
        let h = ss[0].1;
        let tail_sec = sp_entity_section(true, ss.skip(1));
        let s = sp_entity_section(true, ss) + (close_tag("entities"@) + rest);
        let rest1 = tail_sec + (close_tag("entities"@) + rest);
        assert(s =~= sp_entity_doc(true, h) + rest1);
        // the closing tag of the wrapper does not match here: the element
        // starts with `<entity>` whose second character is not `/`
        assert(s[0] == '<') by {
            assert(open_tag("entity"@)[0] == '<');
            assert(sp_entity_doc(true, h)[0] == open_tag("entity"@)[0]);
        }
        lemma_skip_ws_lt(s);
        assert(sp_lit(s, close_tag("entities"@)) is None) by {
            assert(s[1] == 'e') by {
                assert(open_tag("entity"@)[1] == 'e');
                assert(sp_entity_doc(true, h).len() > 2) by {
                    assert(sp_entity_doc(true, h)[1] == open_tag("entity"@)[1]);
                }
                assert(sp_entity_doc(true, h)[1] == open_tag("entity"@)[1]);
            }
            assert(close_tag("entities"@)[1] == '/');
            if sp_lit(s, close_tag("entities"@)) is Some {
                assert(s.subrange(0, close_tag("entities"@).len() as int)[1] == s[1]);
            }
        }
        lemma_entity_rt(h, rest1);
        assert(rest1.len() < s.len()) by {
            assert(sp_entity_doc(true, h).len() > 0) by {
                assert(sp_entity_doc(true, h)[0] == open_tag("entity"@)[0]);
            }
        }
        lemma_entity_list_rt(ss.skip(1), rest);
        assert(seq![h] + node_values(ss.skip(1)) =~= node_values(ss));
    }
}

/// Parsing an encoded relation section consumes it and its closing tag.
#[verifier::rlimit(100)]
proof fn lemma_edge_list_rt(ss: Seq<((u64, u64), Relation)>, rest: Seq<char>)
    ensures
        sp_edge_list(sp_edge_section(true, ss) + (close_tag("relations"@) + rest))
            == EdgeListParse::Found(ss, rest),
    decreases ss.len(),
{
    reveal_strlit("relation");
    reveal_strlit("relations");
    if ss.len() == 0 {
        let s = sp_edge_section(true, ss) + (close_tag("relations"@) + rest);
        assert(s =~= close_tag("relations"@) + rest);
        assert(s[0] == '<') by {
            assert(close_tag("relations"@)[0] == '<');
        }
        lemma_skip_ws_lt(s);
        lemma_lit_prefix(close_tag("relations"@), rest);
        assert(ss =~= Seq::<((u64, u64), Relation)>::empty());
    } else {
        lemma_edge_section_cons(ss);
        let k = ss[0].0;
        let rel = ss[0].1;
        let tail_sec = sp_edge_section(true, ss.skip(1));
        let s = sp_edge_section(true, ss) + (close_tag("relations"@) + rest);
        let rest1 = tail_sec + (close_tag("relations"@) + rest);
        assert(s =~= sp_edge_doc(true, k, rel) + rest1);
        assert(s[0] == '<') by {
            assert(open_tag("relation"@)[0] == '<');
            assert(sp_edge_doc(true, k, rel)[0] == open_tag("relation"@)[0]);
        }
        lemma_skip_ws_lt(s);
        assert(sp_lit(s, close_tag("relations"@)) is None) by {
            assert(s[1] == 'r') by {
                assert(open_tag("relation"@)[1] == 'r');
                assert(sp_edge_doc(true, k, rel)[1] == open_tag("relation"@)[1]);
            }
            assert(close_tag("relations"@)[1] == '/');
            if sp_lit(s, close_tag("relations"@)) is Some {
                assert(s.subrange(0, close_tag("relations"@).len() as int)[1] == s[1]);
            }
        }
        lemma_edge_rt(k, rel, rest1);
        assert(rest1.len() < s.len()) by {
            assert(sp_edge_doc(true, k, rel).len() > 0) by {
                assert(sp_edge_doc(true, k, rel)[0] == open_tag("relation"@)[0]);
            }
        }
        lemma_edge_list_rt(ss.skip(1), rest);
        assert(seq![(k, rel)] + ss.skip(1) =~= ss);
    }
}


/// The canonical listing of a node map lists exactly its entries, in strictly
/// ascending key order.
proof fn lemma_sorted_node_kvs_props(m: Map<u64, NodeView>)
    requires
        m.dom().finite(),
    ensures
        forall|i: int|
            0 <= i < sorted_node_kvs(m).len() ==> m.dom().contains(
                (#[trigger] sorted_node_kvs(m)[i]).0,
            ) && sorted_node_kvs(m)[i].1 == m[sorted_node_kvs(m)[i].0],
        forall|i: int, j: int|
            0 <= i < j < sorted_node_kvs(m).len() ==> sorted_node_kvs(m)[i].0 < sorted_node_kvs(
                m,
            )[j].0,
        forall|k: u64| #[trigger]
            m.dom().contains(k) ==> exists|i: int|
                0 <= i < sorted_node_kvs(m).len() && (#[trigger] sorted_node_kvs(m)[i]).0 == k,
        sorted_node_kvs(m).len() == m.dom().len(),
    decreases m.dom().len(),
{
    let ss = sorted_node_kvs(m);
    if m.dom().len() == 0 {
        assert(m.dom() =~= Set::empty());
    } else {
        lemma_min_key_exists(m.dom());
        let k0 = min_key(m.dom());
        let m2 = m.remove(k0);
        lemma_sorted_node_kvs_props(m2);
        let tail = sorted_node_kvs(m2);
        assert(ss =~= seq![(k0, m[k0])] + tail);
        assert forall|i: int| 0 <= i < ss.len() implies m.dom().contains((#[trigger] ss[i]).0)
            && ss[i].1 == m[ss[i].0] by {
            if i > 0 {
                assert(ss[i] == tail[i - 1]);
                assert(m2.dom().contains(tail[i - 1].0));
            }
        }
        assert forall|i: int, j: int| 0 <= i < j < ss.len() implies ss[i].0 < ss[j].0 by {
            if i == 0 {
                assert(ss[j] == tail[j - 1]);
                assert(m2.dom().contains(tail[j - 1].0));
                assert(tail[j - 1].0 != k0);
            } else {
                assert(ss[i] == tail[i - 1]);
                assert(ss[j] == tail[j - 1]);
            }
        }
        assert forall|k: u64| #[trigger] m.dom().contains(k) implies exists|i: int|
            0 <= i < ss.len() && (#[trigger] ss[i]).0 == k by {
            if k == k0 {
                assert(ss[0].0 == k);
            } else {
                assert(m2.dom().contains(k));
                let i = choose|i: int| 0 <= i < tail.len() && (#[trigger] tail[i]).0 == k;
                assert(ss[i + 1].0 == k);
            }
        }
    }
}

/// The canonical listing of an edge map lists exactly its entries, in
/// strictly ascending lexicographic key order.
proof fn lemma_sorted_edge_kvs_props(m: Map<(u64, u64), Relation>)
    requires
        m.dom().finite(),
    ensures
        forall|i: int|
            0 <= i < sorted_edge_kvs(m).len() ==> m.dom().contains(
                (#[trigger] sorted_edge_kvs(m)[i]).0,
            ) && sorted_edge_kvs(m)[i].1 == m[sorted_edge_kvs(m)[i].0],
        forall|i: int, j: int|
            0 <= i < j < sorted_edge_kvs(m).len() ==> edge_key_lt(
                (#[trigger] sorted_edge_kvs(m)[i]).0,
                (#[trigger] sorted_edge_kvs(m)[j]).0,
            ),
        forall|k: (u64, u64)| #[trigger]
            m.dom().contains(k) ==> exists|i: int|
                0 <= i < sorted_edge_kvs(m).len() && (#[trigger] sorted_edge_kvs(m)[i]).0 == k,
        sorted_edge_kvs(m).len() == m.dom().len(),
    decreases m.dom().len(),
{
    let ss = sorted_edge_kvs(m);
    if m.dom().len() == 0 {
        assert(m.dom() =~= Set::empty());
    } else {
        lemma_min_edge_key_exists(m.dom());
        let k0 = min_edge_key(m.dom());
        let m2 = m.remove(k0);
        lemma_sorted_edge_kvs_props(m2);
        let tail = sorted_edge_kvs(m2);
        assert(ss =~= seq![(k0, m[k0])] + tail);
        assert forall|i: int| 0 <= i < ss.len() implies m.dom().contains((#[trigger] ss[i]).0)
            && ss[i].1 == m[ss[i].0] by {
            if i > 0 {
                assert(ss[i] == tail[i - 1]);
                assert(m2.dom().contains(tail[i - 1].0));
            }
        }
        assert forall|i: int, j: int| 0 <= i < j < ss.len() implies edge_key_lt(
            (#[trigger] ss[i]).0,
            (#[trigger] ss[j]).0,
        ) by {
            if i == 0 {
                assert(ss[j] == tail[j - 1]);
                assert(m2.dom().contains(tail[j - 1].0));
                assert(tail[j - 1].0 != k0);
            } else {
                assert(ss[i] == tail[i - 1]);
                assert(ss[j] == tail[j - 1]);
            }
        }
        assert forall|k: (u64, u64)| #[trigger] m.dom().contains(k) implies exists|i: int|
            0 <= i < ss.len() && (#[trigger] ss[i]).0 == k by {
            if k == k0 {
                assert(ss[0].0 == k);
            } else {
                assert(m2.dom().contains(k));
                let i = choose|i: int| 0 <= i < tail.len() && (#[trigger] tail[i]).0 == k;
                assert(ss[i + 1].0 == k);
            }
        }
    }
}

/// Folding the decoded entity values back into a map recovers the node map
/// they were listed from, provided every node sits under its own id.
proof fn lemma_nodes_map_of_inverse(ss: Seq<(u64, NodeView)>, m: Map<u64, NodeView>)
    requires
        forall|i: int|
            0 <= i < ss.len() ==> m.dom().contains((#[trigger] ss[i]).0) && ss[i].1 == m[ss[i].0],
        forall|i: int, j: int| 0 <= i < j < ss.len() ==> (#[trigger] ss[i]).0 != (#[trigger] ss[j]).0,
        forall|k: u64| #[trigger]
            m.dom().contains(k) ==> exists|i: int| 0 <= i < ss.len() && (#[trigger] ss[i]).0 == k,
        forall|i: int| 0 <= i < ss.len() ==> (#[trigger] ss[i]).1.id == ss[i].0,
    ensures
        nodes_map_of(node_values(ss)) == m,
    decreases ss.len(),
{
    if ss.len() == 0 {
        assert(m.dom() =~= Set::empty());
        assert(nodes_map_of(node_values(ss)) =~= m) by {
            assert(node_values(ss).len() == 0);
        }
    } else {
        let last = ss.last();
        let drop = ss.drop_last();
        let m2 = m.remove(last.0);
        assert forall|k: u64| #[trigger] m2.dom().contains(k) implies exists|i: int|
            0 <= i < drop.len() && (#[trigger] drop[i]).0 == k by {
            let i = choose|i: int| 0 <= i < ss.len() && (#[trigger] ss[i]).0 == k;
            assert(i != ss.len() - 1);
            assert(drop[i] == ss[i]);
        }
        assert(forall|i: int| 0 <= i < drop.len() ==> (#[trigger] drop[i]) == ss[i]);
        lemma_nodes_map_of_inverse(drop, m2);
        assert(node_values(ss).drop_last() =~= node_values(drop));
        assert(node_values(ss).last() == last.1);
        assert(nodes_map_of(node_values(ss)) == nodes_map_of(node_values(drop)).insert(
            last.1.id,
            last.1,
        ));
        assert(last.1.id == last.0);
        assert(last.1 == m[last.0]);
        assert(m2.insert(last.0, m[last.0]) =~= m);
    }
}

/// Folding the decoded relation listing back into a map recovers the edge
/// map it was listed from.
proof fn lemma_edges_map_of_inverse(ss: Seq<((u64, u64), Relation)>, m: Map<(u64, u64), Relation>)
    requires
        forall|i: int|
            0 <= i < ss.len() ==> m.dom().contains((#[trigger] ss[i]).0) && ss[i].1 == m[ss[i].0],
        forall|i: int, j: int| 0 <= i < j < ss.len() ==> (#[trigger] ss[i]).0 != (#[trigger] ss[j]).0,
        forall|k: (u64, u64)| #[trigger]
            m.dom().contains(k) ==> exists|i: int| 0 <= i < ss.len() && (#[trigger] ss[i]).0 == k,
    ensures
        edges_map_of(ss) == m,
    decreases ss.len(),
{
    if ss.len() == 0 {
        assert(m.dom() =~= Set::empty());
        assert(edges_map_of(ss) =~= m);
    } else {
        let last = ss.last();
        let drop = ss.drop_last();
        let m2 = m.remove(last.0);
        assert forall|k: (u64, u64)| #[trigger] m2.dom().contains(k) implies exists|i: int|
            0 <= i < drop.len() && (#[trigger] drop[i]).0 == k by {
            let i = choose|i: int| 0 <= i < ss.len() && (#[trigger] ss[i]).0 == k;
            assert(i != ss.len() - 1);
            assert(drop[i] == ss[i]);
        }
        assert(forall|i: int| 0 <= i < drop.len() ==> (#[trigger] drop[i]) == ss[i]);
        lemma_edges_map_of_inverse(drop, m2);
        assert(edges_map_of(ss) == edges_map_of(drop).insert(last.0, last.1));
        assert(last.1 == m[last.0]);
        assert(m2.insert(last.0, m[last.0]) =~= m);
    }
}

/// The node map a decode builds keys every node by its own id: a loaded
/// snapshot meets the round trip's premise from the start.
pub proof fn lemma_nodes_map_of_well_keyed(ns: Seq<NodeView>)
    ensures
        forall|k: u64| #[trigger]
            nodes_map_of(ns).dom().contains(k) ==> nodes_map_of(ns)[k].id == k,
    decreases ns.len(),
{
    if ns.len() > 0 {
        lemma_nodes_map_of_well_keyed(ns.drop_last());
    }
}

/// Decoding the encoded document parses cleanly into the canonical listings.
#[verifier::rlimit(100)]
#[verifier::spinoff_prover]
proof fn lemma_decode_doc(sv: SnapView)
    requires
        sv.finite(),
    ensures
        ({
            let ns = node_values(sorted_node_kvs(sv.nodes));
            let es = sorted_edge_kvs(sv.edges);
            if max_id(ns) < u64::MAX {
                sp_decode(sp_doc(true, sv)) == DecodeOutcome::Decoded(
                    SnapView {
                        nodes: nodes_map_of(ns),
                        edges: edges_map_of(es),
                        latest_id: (max_id(ns) + 1) as u64,
                    },
                )
            } else {
                sp_decode(sp_doc(true, sv)) == DecodeOutcome::Malformed
            }
        }),
{
    let sortedn = sorted_node_kvs(sv.nodes);
    let sortede = sorted_edge_kvs(sv.edges);
    let sec_e = sp_entity_section(true, sortedn);
    let sec_r = sp_edge_section(true, sortede);
    let elem_e = sp_elem("entities"@, sec_e);
    let elem_r = sp_elem("relations"@, sec_r);
    let esc_title = sp_escape(sp_title());
    let s = sp_doc(true, sv);
    assert(s[0] == '<') by {
        assert(open_tag("KG"@)[0] == '<');
        assert(s[0] == open_tag("KG"@)[0]);
    }
    lemma_skip_ws_lt(s);
    let after0 = esc_title + (elem_e + (elem_r + close_tag("KG"@)));
    assert(s =~= open_tag("KG"@) + after0);
    lemma_lit_prefix(open_tag("KG"@), after0);
    // title text
    lemma_escape_no_lt(sp_title());
    lemma_unescape_escape(sp_title());
    assert forall|k: int| 0 <= k < esc_title.len() implies (#[trigger] after0[k]) != '<' by {
        assert(after0[k] == esc_title[k]);
    }
    assert(after0[esc_title.len() as int] == '<') by {
        assert(after0[esc_title.len() as int] == (elem_e + (elem_r + close_tag("KG"@)))[0]);
        assert(elem_e[0] == open_tag("entities"@)[0]);
        assert(open_tag("entities"@)[0] == '<');
    }
    crate::codec::lemma_take_text(after0, esc_title.len() as int);
    assert(after0.subrange(0, esc_title.len() as int) =~= esc_title);
    let s1 = elem_e + (elem_r + close_tag("KG"@));
    assert(after0.skip(esc_title.len() as int) =~= s1);
    // entities wrapper
    assert(s1[0] == '<') by {
        assert(s1[0] == open_tag("entities"@)[0]);
    }
    lemma_skip_ws_lt(s1);
    let rest_e = elem_r + close_tag("KG"@);
    assert(s1 =~= open_tag("entities"@) + (sec_e + (close_tag("entities"@) + rest_e)));
    lemma_lit_prefix(open_tag("entities"@), sec_e + (close_tag("entities"@) + rest_e));
    lemma_entity_list_rt(sortedn, rest_e);
    // relations wrapper
    assert(rest_e[0] == '<') by {
        assert(rest_e[0] == open_tag("relations"@)[0]);
    }
    lemma_skip_ws_lt(rest_e);
    assert(rest_e =~= open_tag("relations"@) + (sec_r + (close_tag("relations"@) + close_tag(
        "KG"@,
    ))));
    lemma_lit_prefix(open_tag("relations"@), sec_r + (close_tag("relations"@) + close_tag("KG"@)));
    lemma_edge_list_rt(sortede, close_tag("KG"@));
    // closing the root
    let fin = close_tag("KG"@);
    assert(fin[0] == '<');
    lemma_skip_ws_lt(fin);
    assert(fin =~= close_tag("KG"@) + Seq::<char>::empty());
    lemma_lit_prefix(close_tag("KG"@), Seq::empty());
}

/// Round trip on the graph: decoding an encoded snapshot recovers both maps
/// exactly, and recomputes the id counter as one more than the largest id.
pub proof fn lemma_graph_round_trip(sv: SnapView)
    requires
        sv.finite(),
        sv.well_keyed(),
        max_id(node_values(sorted_node_kvs(sv.nodes))) < u64::MAX,
    ensures
        sp_decode(sp_encode(sv)) == DecodeOutcome::Decoded(
            SnapView {
                nodes: sv.nodes,
                edges: sv.edges,
                latest_id: (max_id(node_values(sorted_node_kvs(sv.nodes))) + 1) as u64,
            },
        ),
{
    lemma_decode_doc(sv);
    lemma_sorted_node_kvs_props(sv.nodes);
    let sortedn = sorted_node_kvs(sv.nodes);
    assert forall|i: int| 0 <= i < sortedn.len() implies (#[trigger] sortedn[i]).1.id
        == sortedn[i].0 by {
        assert(sv.nodes.dom().contains(sortedn[i].0));
    }
    assert(forall|i: int, j: int|
        0 <= i < j < sortedn.len() ==> (#[trigger] sortedn[i]).0 != (#[trigger] sortedn[j]).0);
    lemma_nodes_map_of_inverse(sortedn, sv.nodes);
    lemma_sorted_edge_kvs_props(sv.edges);
    let sortede = sorted_edge_kvs(sv.edges);
    assert forall|i: int, j: int|
        0 <= i < j < sortede.len() implies (#[trigger] sortede[i]).0 != (
    #[trigger] sortede[j]).0 by {
        assert(edge_key_lt(sortede[i].0, sortede[j].0));
    }
    lemma_edges_map_of_inverse(sortede, sv.edges);
}

/// The codec round trip: decoding an encoded snapshot yields a snapshot equal
/// by value to the one encoded, whenever the id counter is what loading
/// recomputes — one more than the largest entity id, or 1 with no entities.
/// (A counter that has run ahead of the ids after deletions is not persisted:
/// the document format does not store it.)
pub proof fn lemma_round_trip(sv: SnapView)
    requires
        sv.finite(),
        sv.well_keyed(),
        counter_is_recomputed(sv),
    ensures
        sp_decode(sp_encode(sv)) == DecodeOutcome::Decoded(sv),
{
    lemma_graph_round_trip(sv);
    let ns = node_values(sorted_node_kvs(sv.nodes));
    assert((SnapView {
        nodes: sv.nodes,
        edges: sv.edges,
        latest_id: (max_id(ns) + 1) as u64,
    }) =~= sv);
}

} // verus!
