//! Character escaping for the document text: the XML syntactic escapes for
//! `&`, `<` and `>`, the decimal character references that replace every
//! non-ASCII character, and the unescaping that inverts both.

use vstd::prelude::*;

use crate::num::{dec_digits, digit_run_end, is_digit_char, lemma_dec_digits, lemma_digit_run, val_of};

verus! {

/// Every character is ASCII.
pub open spec fn ascii_seq(s: Seq<char>) -> bool {
    forall|i: int| 0 <= i < s.len() ==> ((#[trigger] s[i]) as u32) < 128
}

/// No character is `<`.
pub open spec fn no_lt(s: Seq<char>) -> bool {
    forall|i: int| 0 <= i < s.len() ==> (#[trigger] s[i]) != '<'
}

/// The characters of `&amp;`.
pub open spec fn amp_seq() -> Seq<char> {
    seq!['&', 'a', 'm', 'p', ';']
}

/// The characters of `&lt;`.
pub open spec fn lt_seq() -> Seq<char> {
    seq!['&', 'l', 't', ';']
}

/// The characters of `&gt;`.
pub open spec fn gt_seq() -> Seq<char> {
    seq!['&', 'g', 't', ';']
}

/// The characters of `&quot;`.
pub open spec fn quot_seq() -> Seq<char> {
    seq!['&', 'q', 'u', 'o', 't', ';']
}

/// The characters of `&apos;`.
pub open spec fn apos_seq() -> Seq<char> {
    seq!['&', 'a', 'p', 'o', 's', ';']
}

/// The decimal character reference for code point `n`.
pub open spec fn charref(n: nat) -> Seq<char> {
    seq!['&', '#'] + dec_digits(n) + seq![';']
}

/// The XML syntactic escape of one character: `&`, `<` and `>` become
/// entities, everything else stands for itself.
pub open spec fn xesc_char(c: char) -> Seq<char> {
    if c == '&' {
        amp_seq()
    } else if c == '<' {
        lt_seq()
    } else if c == '>' {
        gt_seq()
    } else {
        seq![c]
    }
}

/// The non-ASCII escape of one character: every code point of 128 or more
/// becomes a decimal character reference, ASCII stands for itself.
pub open spec fn ena_char(c: char) -> Seq<char> {
    if c as u32 >= 128 {
        charref(c as u32 as nat)
    } else {
        seq![c]
    }
}

/// The full escape of one character: both of the above at once.
pub open spec fn esc_char(c: char) -> Seq<char> {
    if c as u32 >= 128 {
        charref(c as u32 as nat)
    } else {
        xesc_char(c)
    }
}

/// The XML syntactic escape of a text.
pub open spec fn sp_xml_escape(s: Seq<char>) -> Seq<char>
    decreases s.len(),
{
    if s.len() == 0 {
        Seq::empty()
    } else {
        sp_xml_escape(s.drop_last()) + xesc_char(s.last())
    }
}

/// The non-ASCII escape of a text.
pub open spec fn sp_escape_non_ascii(s: Seq<char>) -> Seq<char>
    decreases s.len(),
{
    if s.len() == 0 {
        Seq::empty()
    } else {
        sp_escape_non_ascii(s.drop_last()) + ena_char(s.last())
    }
}

/// The full escape of a text, as the document stores it.
pub open spec fn sp_escape(s: Seq<char>) -> Seq<char>
    decreases s.len(),
{
    if s.len() == 0 {
        Seq::empty()
    } else {
        sp_escape(s.drop_last()) + esc_char(s.last())
    }
}

/// The non-ASCII escape distributes over concatenation.
pub proof fn lemma_ena_append(a: Seq<char>, b: Seq<char>)
    ensures
        sp_escape_non_ascii(a + b) == sp_escape_non_ascii(a) + sp_escape_non_ascii(b),
    decreases b.len(),
{
    if b.len() == 0 {
        assert(a + b =~= a);
        assert(sp_escape_non_ascii(a) + sp_escape_non_ascii(b) =~= sp_escape_non_ascii(a));
    } else {
        lemma_ena_append(a, b.drop_last());
        assert((a + b).drop_last() =~= a + b.drop_last());
        assert((a + b).last() == b.last());
        assert(sp_escape_non_ascii(a) + sp_escape_non_ascii(b) =~= sp_escape_non_ascii(a) + (
        sp_escape_non_ascii(b.drop_last()) + ena_char(b.last())));
        assert(sp_escape_non_ascii(a) + sp_escape_non_ascii(b.drop_last()) + ena_char(b.last())
            =~= sp_escape_non_ascii(a) + (sp_escape_non_ascii(b.drop_last()) + ena_char(
            b.last(),
        )));
    }
}

/// The non-ASCII escape leaves an ASCII text alone.
pub proof fn lemma_ena_ascii_id(s: Seq<char>)
    requires
        ascii_seq(s),
    ensures
        sp_escape_non_ascii(s) == s,
    decreases s.len(),
{
    if s.len() == 0 {
        assert(sp_escape_non_ascii(s) =~= s);
    } else {
        let s2 = s.drop_last();
        assert(ascii_seq(s2)) by {
            assert(forall|i: int| 0 <= i < s2.len() ==> s2[i] == s[i]);
        }
        lemma_ena_ascii_id(s2);
        assert(ena_char(s.last()) == seq![s.last()]);
        assert(s2 + seq![s.last()] =~= s);
    }
}

/// Applying the non-ASCII escape after the XML escape gives the full escape:
/// the final text-level pass over the serialized document leaves the ASCII
/// syntax alone and only rewrites the non-ASCII characters.
pub proof fn lemma_ena_after_xml(s: Seq<char>)
    ensures
        sp_escape_non_ascii(sp_xml_escape(s)) == sp_escape(s),
    decreases s.len(),
{
    if s.len() == 0 {
    } else {
        let s2 = s.drop_last();
        let c = s.last();
        lemma_ena_after_xml(s2);
        lemma_ena_append(sp_xml_escape(s2), xesc_char(c));
        assert(sp_escape_non_ascii(xesc_char(c)) == esc_char(c)) by {
            if c == '&' {
                assert(ascii_seq(amp_seq()));
                lemma_ena_ascii_id(amp_seq());
            } else if c == '<' {
                assert(ascii_seq(lt_seq()));
                lemma_ena_ascii_id(lt_seq());
            } else if c == '>' {
                assert(ascii_seq(gt_seq()));
                lemma_ena_ascii_id(gt_seq());
            } else {
                let sc = seq![c];
                assert(xesc_char(c) == sc);
                assert(sc.len() == 1 && sc.last() == c);
                assert(sc.drop_last() =~= Seq::<char>::empty());
                assert(sp_escape_non_ascii(sc) == sp_escape_non_ascii(sc.drop_last()) + ena_char(
                    c,
                ));
                assert(sp_escape_non_ascii(Seq::<char>::empty()) =~= Seq::<char>::empty());
                assert(Seq::<char>::empty() + ena_char(c) =~= ena_char(c));
                assert(esc_char(c) == ena_char(c));
            }
        }
    }
}

/// The full escape of any text contains no `<`: inside an element, text ends
/// exactly at the next tag.
pub proof fn lemma_escape_no_lt(s: Seq<char>)
    ensures
        no_lt(sp_escape(s)),
    decreases s.len(),
{
    if s.len() > 0 {
        lemma_escape_no_lt(s.drop_last());
        let c = s.last();
        assert(no_lt(esc_char(c))) by {
            if c as u32 >= 128 {
                lemma_dec_digits(c as u32 as nat);
                assert forall|i: int| 0 <= i < charref(c as u32 as nat).len() implies (
                #[trigger] charref(c as u32 as nat)[i]) != '<' by {
                    let cr = charref(c as u32 as nat);
                    let d = dec_digits(c as u32 as nat);
                    if 2 <= i < 2 + d.len() {
                        assert(cr[i] == d[i - 2]);
                        assert(is_digit_char(d[i - 2]));
                    }
                }
            }
        }
        assert(forall|i: int|
            0 <= i < sp_escape(s).len() ==> #[trigger] sp_escape(s)[i] == (sp_escape(s.drop_last())
                + esc_char(c))[i]);
    }
}

/// The escape of a text decomposed at the front instead of the back.
pub proof fn lemma_escape_cons(s: Seq<char>)
    requires
        s.len() > 0,
    ensures
        sp_escape(s) == esc_char(s[0]) + sp_escape(s.skip(1)),
    decreases s.len(),
{
    if s.len() == 1 {
        assert(s.drop_last() =~= Seq::<char>::empty());
        assert(s.skip(1) =~= Seq::<char>::empty());
        assert(sp_escape(s) =~= esc_char(s[0]) + sp_escape(s.skip(1)));
    } else {
        let s2 = s.drop_last();
        lemma_escape_cons(s2);
        assert(s2[0] == s[0]);
        assert(s.skip(1).drop_last() =~= s2.skip(1));
        assert(s.skip(1).last() == s.last());
        assert(sp_escape(s.skip(1)) == sp_escape(s2.skip(1)) + esc_char(s.last()));
        assert(sp_escape(s) == (esc_char(s[0]) + sp_escape(s2.skip(1))) + esc_char(s.last()));
        assert((esc_char(s[0]) + sp_escape(s2.skip(1))) + esc_char(s.last()) =~= esc_char(s[0]) + (
        sp_escape(s2.skip(1)) + esc_char(s.last())));
    }
}

/// Unescaping a text: literal characters stand for themselves, the five XML
/// entities and decimal character references become their characters, and
/// anything else after `&` is malformed.
pub open spec fn sp_unescape(s: Seq<char>) -> Option<Seq<char>>
    decreases s.len(),
{
    if s.len() == 0 {
        Some(Seq::empty())
    } else if s[0] != '&' {
        match sp_unescape(s.skip(1)) {
            None => None,
            Some(t) => Some(seq![s[0]] + t),
        }
    } else if s.len() >= 5 && s.subrange(0, 5) == amp_seq() {
        match sp_unescape(s.skip(5)) {
            None => None,
            Some(t) => Some(seq!['&'] + t),
        }
    } else if s.len() >= 4 && s.subrange(0, 4) == lt_seq() {
        match sp_unescape(s.skip(4)) {
            None => None,
            Some(t) => Some(seq!['<'] + t),
        }
    } else if s.len() >= 4 && s.subrange(0, 4) == gt_seq() {
        match sp_unescape(s.skip(4)) {
            None => None,
            Some(t) => Some(seq!['>'] + t),
        }
    } else if s.len() >= 6 && s.subrange(0, 6) == quot_seq() {
        match sp_unescape(s.skip(6)) {
            None => None,
            Some(t) => Some(seq!['"'] + t),
        }
    } else if s.len() >= 6 && s.subrange(0, 6) == apos_seq() {
        match sp_unescape(s.skip(6)) {
            None => None,
            Some(t) => Some(seq!['\''] + t),
        }
    } else if s.len() >= 2 && s[1] == '#' {
        let j = digit_run_end(s, 2);
        if j > 2 && j < s.len() && s[j] == ';' {
            let v = val_of(s.subrange(2, j));
            if v <= 0x10FFFF && !(0xD800 <= v < 0xE000) && v >= 0 {
                match sp_unescape(s.skip(j + 1)) {
                    None => None,
                    Some(t) => Some(seq![((v as u32) as char)] + t),
                }
            } else {
                None
            }
        } else {
            None
        }
    } else {
        None
    }
}

/// Unescaping inverts the full escape.
pub proof fn lemma_unescape_escape(t: Seq<char>)
    ensures
        sp_unescape(sp_escape(t)) == Some(t),
    decreases t.len(),
{
    if t.len() == 0 {
        assert(sp_escape(t).len() == 0);
    } else {
        let c = t[0];
        let t2 = t.skip(1);
        lemma_escape_cons(t);
        lemma_unescape_escape(t2);
        let e = esc_char(c);
        let s = sp_escape(t);
        assert(s == e + sp_escape(t2));
        let rest = sp_escape(t2);
        if c as u32 >= 128 {
            let n = c as u32 as nat;
            lemma_dec_digits(n);
            let d = dec_digits(n);
            assert(e == seq!['&', '#'] + d + seq![';']);
            assert(s.len() >= 3 + d.len());
            assert(s[0] == '&');
            assert(s[1] == '#');
            // none of the named-entity arms match: the second character is '#'
            assert(!(s.len() >= 5 && s.subrange(0, 5) == amp_seq())) by {
                assert(amp_seq()[1] == 'a');
            }
            assert(!(s.len() >= 4 && s.subrange(0, 4) == lt_seq())) by {
                assert(lt_seq()[1] == 'l');
            }
            assert(!(s.len() >= 4 && s.subrange(0, 4) == gt_seq())) by {
                assert(gt_seq()[1] == 'g');
            }
            assert(!(s.len() >= 6 && s.subrange(0, 6) == quot_seq())) by {
                assert(quot_seq()[1] == 'q');
            }
            assert(!(s.len() >= 6 && s.subrange(0, 6) == apos_seq())) by {
                assert(apos_seq()[1] == 'a');
            }
            // the digit run is exactly the digits of the code point
            assert forall|k: int| 2 <= k < 2 + d.len() implies is_digit_char(#[trigger] s[k]) by {
                assert(s[k] == d[k - 2]);
            }
            assert(s[2 + d.len() as int] == ';');
            assert(!is_digit_char(';'));
            lemma_digit_run(s, 2, 2 + d.len() as int);
            let j = digit_run_end(s, 2);
            assert(j == 2 + d.len());
            assert(s.subrange(2, j) =~= d);
            assert(val_of(s.subrange(2, j)) == n);
            vstd::utf8::char_is_scalar(c);
            assert(n <= 0x10FFFF && !(0xD800 <= n < 0xE000));
            assert(s.skip(j + 1) =~= rest);
            assert((n as u32) as char == c) by {
                vstd::utf8::char_u32_cast(c, c as u32);
            }
            assert(seq![c] + t2 =~= t);
        } else if c == '&' {
            assert(e == amp_seq());
            assert(s.len() >= 5);
            assert(s.subrange(0, 5) =~= amp_seq());
            assert(s[0] == '&');
            assert(s.skip(5) =~= rest);
            assert(seq!['&'] + t2 =~= t);
        } else if c == '<' {
            assert(e == lt_seq());
            assert(s[0] == '&');
            assert(s.len() >= 4);
            assert(!(s.len() >= 5 && s.subrange(0, 5) == amp_seq())) by {
                assert(lt_seq()[1] == 'l');
                if s.len() >= 5 && s.subrange(0, 5) == amp_seq() {
                    assert(s[1] == 'a');
                    assert(s[1] == 'l');
                }
            }
            assert(s.subrange(0, 4) =~= lt_seq());
            assert(s.skip(4) =~= rest);
            assert(seq!['<'] + t2 =~= t);
        } else if c == '>' {
            assert(e == gt_seq());
            assert(s[0] == '&');
            assert(s.len() >= 4);
            assert(!(s.len() >= 5 && s.subrange(0, 5) == amp_seq())) by {
                if s.len() >= 5 && s.subrange(0, 5) == amp_seq() {
                    assert(s[1] == 'a');
                    assert(s[1] == 'g');
                }
            }
            assert(!(s.subrange(0, 4) == lt_seq())) by {
                if s.subrange(0, 4) == lt_seq() {
                    assert(s[1] == 'l');
                    assert(s[1] == 'g');
                }
            }
            assert(s.subrange(0, 4) =~= gt_seq());
            assert(s.skip(4) =~= rest);
            assert(seq!['>'] + t2 =~= t);
        } else {
            assert(e == seq![c]);
            assert(s[0] == c);
            assert(s[0] != '&');
            assert(s.skip(1) =~= rest);
            assert(seq![c] + t2 =~= t);
        }
    }
}

} // verus!
