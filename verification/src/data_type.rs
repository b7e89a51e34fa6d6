//! The protocol's data types and their exact wire encoding.

use crate::num::{dec_digits, i64_to_string, int_chars, u64_to_string};
use vstd::prelude::*;
use vstd::string::StrSliceExecFns;
use vstd::string::StringExecFns;

verus! {

/// The mathematical shape of a protocol value: text as character
/// sequences, integers unbounded, arrays as sequences of values.
pub enum ValueView {
    SimpleString(Seq<char>),
    Error(Seq<char>),
    Integer(int),
    BulkString(Seq<char>),
    Array(Seq<ValueView>),
    Null,
}

/// A representation of the wire protocol's data types.
#[derive(Debug, PartialEq, Eq)]
pub enum DataType {
    SimpleString(String),
    Error(String),
    Integer(i64),
    BulkString(String),
    Array(Vec<DataType>),
    Null,
}

/// The abstract value that a concrete protocol value stands for.
pub open spec fn dt_view(v: DataType) -> ValueView
    decreases v,
    via dt_view_decreases
{
    match v {
        DataType::SimpleString(s) => ValueView::SimpleString(s@),
        DataType::Error(s) => ValueView::Error(s@),
        DataType::Integer(i) => ValueView::Integer(i as int),
        DataType::BulkString(s) => ValueView::BulkString(s@),
        DataType::Array(elems) => ValueView::Array(dt_views(elems@)),
        DataType::Null => ValueView::Null,
    }
}

/// The abstract values of a sequence of protocol values, in order.
pub open spec fn dt_views(elems: Seq<DataType>) -> Seq<ValueView>
    decreases elems,
{
    if elems.len() == 0 {
        Seq::empty()
    } else {
        seq![dt_view(elems.first())] + dt_views(elems.drop_first())
    }
}

#[via_fn]
proof fn dt_view_decreases(v: DataType) {
    match v {
        DataType::Array(elems) => {
            assert(decreases_to!(v => elems));
            assert(decreases_to!(elems => elems@));
        },
        _ => {},
    }
}

/// `dt_views` maps `dt_view` over the sequence, element by element.
pub proof fn lemma_dt_views_index(elems: Seq<DataType>)
    ensures
        dt_views(elems).len() == elems.len(),
        forall|i: int| 0 <= i < elems.len() ==> dt_views(elems)[i] == dt_view(#[trigger] elems[i]),
    decreases elems,
{
    if elems.len() > 0 {
        lemma_dt_views_index(elems.drop_first());
        assert forall|i: int| 0 <= i < elems.len() implies dt_views(elems)[i] == dt_view(
            #[trigger] elems[i],
        ) by {
            if i > 0 {
                assert(elems.drop_first()[i - 1] == elems[i]);
                assert(dt_views(elems)[i] == dt_views(elems.drop_first())[i - 1]);
            }
        }
    }
}

impl View for DataType {
    type V = ValueView;

    open spec fn view(&self) -> ValueView {
        dt_view(*self)
    }
}

/// The two-character chunk terminator.
pub open spec fn crlf() -> Seq<char> {
    seq!['\r', '\n']
}

/// The byte length of a text in its wire encoding: the length prefix of
/// a bulk string counts bytes of UTF-8, not characters.
pub open spec fn utf8_len(s: Seq<char>) -> int {
    vstd::utf8::encode_utf8(s).len() as int
}

/// One character's byte width in the wire encoding.
pub open spec fn char_width(c: char) -> int {
    vstd::utf8::encode_scalar(c as u32).len() as int
}

/// Every character is one to four bytes wide.
pub proof fn lemma_char_width(c: char)
    ensures
        1 <= char_width(c) <= 4,
{
    vstd::utf8::char_is_scalar(c);
}

/// A text's byte length is its first character's width plus the rest's.
pub proof fn lemma_utf8_len_step(s: Seq<char>)
    requires
        s.len() > 0,
    ensures
        utf8_len(s) == char_width(s[0]) + utf8_len(s.drop_first()),
{
}

/// The empty text has no bytes; no text has a negative byte count.
pub proof fn lemma_utf8_len_basics(s: Seq<char>)
    ensures
        utf8_len(s) >= 0,
        s.len() == 0 ==> utf8_len(s) == 0,
{
}

/// The exact wire text of a value.
pub open spec fn encoding(v: ValueView) -> Seq<char>
    decreases v,
{
    match v {
        ValueView::SimpleString(s) => seq!['+'] + s + crlf(),
        ValueView::Error(s) => seq!['-'] + s + crlf(),
        ValueView::Integer(i) => seq![':'] + int_chars(i) + crlf(),
        ValueView::BulkString(s) => seq!['$'] + dec_digits(utf8_len(s)) + crlf() + s + crlf(),
        ValueView::Null => seq!['$'] + seq!['-', '1'] + crlf(),
        ValueView::Array(elems) => seq!['*'] + dec_digits(elems.len() as int) + crlf()
            + encodings(elems),
    }
}

/// The wire text of a sequence of values, concatenated in order.
pub open spec fn encodings(elems: Seq<ValueView>) -> Seq<char>
    decreases elems,
{
    if elems.len() == 0 {
        Seq::empty()
    } else {
        encoding(elems.first()) + encodings(elems.drop_first())
    }
}

/// Appending one value to a sequence appends its abstract value.
pub proof fn lemma_dt_views_push(elems: Seq<DataType>, d: DataType)
    ensures
        dt_views(elems.push(d)) == dt_views(elems) + seq![dt_view(d)],
    decreases elems.len(),
{
    if elems.len() == 0 {
        assert(elems.push(d).drop_first() =~= Seq::<DataType>::empty());
        assert(elems.push(d).first() == d);
        assert(dt_views(Seq::<DataType>::empty()) =~= Seq::<ValueView>::empty());
        assert(dt_views(elems) =~= Seq::<ValueView>::empty());
        assert(dt_views(elems.push(d)) =~= dt_views(elems) + seq![dt_view(d)]);
    } else {
        assert(elems.push(d).drop_first() =~= elems.drop_first().push(d));
        lemma_dt_views_push(elems.drop_first(), d);
        assert(dt_views(elems.push(d)) =~= dt_views(elems) + seq![dt_view(d)]);
    }
}

/// Appending one value to a sequence appends its encoding.
pub proof fn lemma_encodings_push(elems: Seq<ValueView>, v: ValueView)
    ensures
        encodings(elems.push(v)) == encodings(elems) + encoding(v),
    decreases elems.len(),
{
    if elems.len() == 0 {
        assert(elems.push(v).drop_first() =~= Seq::<ValueView>::empty());
        assert(elems.push(v).first() == v);
        assert(encodings(Seq::<ValueView>::empty()) =~= Seq::<char>::empty());
        assert(encodings(elems) =~= Seq::<char>::empty());
        assert(encodings(elems.push(v)) =~= encodings(elems) + encoding(v));
    } else {
        assert(elems.push(v).drop_first() =~= elems.drop_first().push(v));
        lemma_encodings_push(elems.drop_first(), v);
        assert(encodings(elems.push(v)) =~= encodings(elems) + encoding(v));
    }
}

/// Whether a value carries text that `inner` can hand out.
pub open spec fn is_textual(v: ValueView) -> bool {
    v is SimpleString || v is Error || v is BulkString
}

/// The text carried by a string-like value.
pub open spec fn text_of(v: ValueView) -> Seq<char> {
    match v {
        ValueView::SimpleString(s) => s,
        ValueView::Error(s) => s,
        ValueView::BulkString(s) => s,
        _ => Seq::empty(),
    }
}

impl DataType {
    /// Convert the data type into the exact text that the wire protocol
    /// assigns to it.
    pub fn serialize(&self) -> (r: String)
        ensures
            r@ == encoding(self@),
        decreases *self,
    {
        match self {
            DataType::SimpleString(content) => {
                let mut out = "+".to_owned();
                out.append(content.as_str());
                out.append("\r\n");
                proof {
                    reveal_strlit("+");
                    reveal_strlit("\r\n");
                    assert(out@ =~= encoding(self@));
                }
                out
            },
            DataType::Error(content) => {
                let mut out = "-".to_owned();
                out.append(content.as_str());
                out.append("\r\n");
                proof {
                    reveal_strlit("-");
                    reveal_strlit("\r\n");
                    assert(out@ =~= encoding(self@));
                }
                out
            },
            DataType::Integer(content) => {
                let mut out = ":".to_owned();
                let digits = i64_to_string(*content);
                out.append(digits.as_str());
                out.append("\r\n");
                proof {
                    reveal_strlit(":");
                    reveal_strlit("\r\n");
                    assert(out@ =~= encoding(self@));
                }
                out
            },
            DataType::BulkString(content) => {
                let mut out = "$".to_owned();
                let byte_len = content.as_str().as_bytes().len();
                proof {
                    assert(byte_len == utf8_len(content@));
                }
                let len_digits = u64_to_string(byte_len as u64);
                out.append(len_digits.as_str());
                out.append("\r\n");
                out.append(content.as_str());
                out.append("\r\n");
                proof {
                    reveal_strlit("$");
                    reveal_strlit("\r\n");
                    assert(out@ =~= encoding(self@));
                }
                out
            },
            DataType::Null => {
                let out = "$-1\r\n".to_owned();
                proof {
                    reveal_strlit("$-1\r\n");
                    assert(out@ =~= encoding(self@));
                }
                out
            },
            DataType::Array(elems) => {
                let mut out = "*".to_owned();
                let len_digits = u64_to_string(elems.len() as u64);
                out.append(len_digits.as_str());
                out.append("\r\n");
                let ghost views = dt_views(elems@);
                let ghost header = seq!['*'] + dec_digits(views.len() as int) + crlf();
                proof {
                    reveal_strlit("*");
                    reveal_strlit("\r\n");
                    lemma_dt_views_index(elems@);
                    assert(views.subrange(0, 0) =~= Seq::<ValueView>::empty());
                    assert(out@ =~= header + encodings(views.subrange(0, 0)));
                }
                let mut k: usize = 0;
                while k < elems.len()
                    invariant
                        k <= elems@.len(),
                        views == dt_views(elems@),
                        views.len() == elems@.len(),
                        forall|i: int|
                            0 <= i < elems@.len() ==> views[i] == dt_view(#[trigger] elems@[i]),
                        out@ == header + encodings(views.subrange(0, k as int)),
                        decreases_to!(*self => elems@),
                    decreases elems@.len() - k,
                {
                    proof {
                        assert(decreases_to!(elems@ => elems@[k as int]));
                    }
                    let piece = elems[k].serialize();
                    out.append(piece.as_str());
                    proof {
                        assert(views.subrange(0, k as int).push(views[k as int]) =~= views.subrange(
                            0,
                            k + 1int,
                        ));
                        lemma_encodings_push(views.subrange(0, k as int), views[k as int]);
                    }
                    k += 1;
                }
                proof {
                    assert(views.subrange(0, views.len() as int) =~= views);
                }
                out
            },
        }
    }

    /// Get the text stored inside a string-like value. The other variants
    /// carry no such text and are ruled out by the caller.
    pub fn inner(&self) -> (r: &String)
        requires
            is_textual(self@),
        ensures
            r@ == text_of(self@),
    {
        match self {
            DataType::SimpleString(content) => content,
            DataType::BulkString(content) => content,
            DataType::Error(content) => content,
            DataType::Integer(_) => unreached(),
            DataType::Array(_) => unreached(),
            DataType::Null => unreached(),
        }
    }
}

} // verus!
