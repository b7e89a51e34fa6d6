//! The protocol decoder: from wire text to typed protocol values.
//!
//! `spec_decode` is the mathematical decoder; `DeSerializer` is the
//! executable one, proved to return exactly what `spec_decode` says. The
//! round-trip facts at the end tie the decoder to the encoder.

use crate::data_type::{
    char_width, crlf, dt_views, encoding, encodings, lemma_char_width, lemma_dt_views_push,
    lemma_utf8_len_basics, lemma_utf8_len_step, utf8_len, DataType, ValueView,
};
use crate::num::{is_digit, parse_int, parses_to_i64};
use vstd::prelude::*;
use vstd::string::StrSliceExecFns;

verus! {

/// Why a buffer failed to decode.
#[derive(Clone, Copy, Debug, PartialEq, Eq, Structural)]
pub enum FramingError {
    /// The input ended before a chunk terminator was found.
    UnexpectedEof,
    /// A chunk's line feed was not preceded by a carriage return.
    BadTerminator,
    /// A chunk held no type marker at all.
    EmptyChunk,
    /// A chunk's first character was not one of the five type markers.
    InvalidMarker,
    /// An integer, length or count payload was malformed or out of range.
    BadInteger,
    /// A declared bulk length reached past the end of the input.
    Truncated,
    /// A declared bulk length that splits a character: the declared
    /// bytes are not valid text of their own.
    InvalidText,
}

/// Index of the first line feed at or after `pos`, if any.
pub open spec fn find_lf(s: Seq<char>, pos: int) -> Option<int>
    decreases s.len() - pos,
{
    if pos < 0 || pos >= s.len() {
        None
    } else if s[pos] == '\n' {
        Some(pos)
    } else {
        find_lf(s, pos + 1)
    }
}

/// One chunk: the text from `pos` up to the first `"\r\n"`, and the
/// position just past it.
pub open spec fn spec_read_chunk(s: Seq<char>, pos: int) -> Result<(Seq<char>, int), FramingError> {
    match find_lf(s, pos) {
        Option::None => Err(FramingError::UnexpectedEof),
        Option::Some(nl) => {
            if nl == pos || s[nl - 1] != '\r' {
                Err(FramingError::BadTerminator)
            } else {
                Ok((s.subrange(pos, nl - 1), nl + 1))
            }
        },
    }
}

/// How many characters from `pos` hold exactly `n` bytes of encoded
/// text: the count, or an error when the input ends first or the byte
/// count splits a character.
pub open spec fn span_chars(s: Seq<char>, pos: int, n: int) -> Result<int, FramingError>
    decreases n,
    via span_chars_decreases
{
    if n <= 0 {
        Ok(0)
    } else if pos >= s.len() {
        Err(FramingError::Truncated)
    } else {
        let w = char_width(s[pos]);
        if w > n {
            Err(FramingError::InvalidText)
        } else {
            match span_chars(s, pos + 1, n - w) {
                Ok(k) => Ok(k + 1),
                Err(e) => Err(e),
            }
        }
    }
}

#[via_fn]
proof fn span_chars_decreases(s: Seq<char>, pos: int, n: int) {
    if n > 0 && pos < s.len() {
        lemma_char_width(s[pos]);
    }
}

/// A span stays within the input, and the characters it counts hold
/// exactly the declared bytes.
pub proof fn lemma_span_chars_bound(s: Seq<char>, pos: int, n: int)
    requires
        0 <= pos <= s.len(),
        0 <= n,
    ensures
        span_chars(s, pos, n) matches Ok(k) ==> 0 <= k <= s.len() - pos && utf8_len(
            s.subrange(pos, pos + k),
        ) == n,
    decreases n,
{
    if n > 0 && pos < s.len() {
        let w = char_width(s[pos]);
        lemma_char_width(s[pos]);
        if w <= n {
            lemma_span_chars_bound(s, pos + 1, n - w);
            match span_chars(s, pos + 1, n - w) {
                Ok(k) => {
                    let t = s.subrange(pos, pos + k + 1);
                    assert(t[0] == s[pos]);
                    assert(t.drop_first() =~= s.subrange(pos + 1, pos + 1 + k));
                    lemma_utf8_len_step(t);
                },
                Err(_) => {},
            }
        }
    } else {
        assert(s.subrange(pos, pos) =~= Seq::<char>::empty());
        lemma_utf8_len_basics(s.subrange(pos, pos));
    }
}

/// The span of a text laid down at `pos` is exactly that text's length,
/// measured from its own byte count.
pub proof fn lemma_span_chars_exact(s: Seq<char>, pos: int, t: Seq<char>)
    requires
        0 <= pos,
        pos + t.len() <= s.len(),
        s.subrange(pos, pos + t.len() as int) == t,
    ensures
        span_chars(s, pos, utf8_len(t)) == Ok::<int, FramingError>(t.len() as int),
    decreases t.len(),
{
    lemma_utf8_len_basics(t);
    if t.len() == 0 {
    } else {
        lemma_utf8_len_step(t);
        lemma_char_width(t[0]);
        lemma_utf8_len_basics(t.drop_first());
        assert(s[pos] == t[0]) by {
            assert(s.subrange(pos, pos + t.len() as int)[0] == s[pos]);
        }
        assert(s.subrange(pos + 1, pos + t.len() as int) =~= t.drop_first()) by {
            assert forall|i: int| 0 <= i < t.len() - 1 implies s.subrange(
                pos + 1,
                pos + t.len() as int,
            )[i] == t.drop_first()[i] by {
                assert(s.subrange(pos, pos + t.len() as int)[i + 1] == s[pos + 1 + i]);
            }
        }
        lemma_span_chars_exact(s, pos + 1, t.drop_first());
    }
}

/// One decoded value starting at `pos`, and the position just past it.
pub open spec fn spec_decode(s: Seq<char>, pos: int) -> Result<(ValueView, int), FramingError>
    decreases s.len() - pos + 1, 0int,
    via spec_decode_decreases
{
    match spec_read_chunk(s, pos) {
        Err(e) => Err(e),
        Ok((chunk, next)) => {
            if chunk.len() == 0 {
                Err(FramingError::EmptyChunk)
            } else {
                let marker = chunk[0];
                let payload = chunk.subrange(1, chunk.len() as int);
                if marker == '+' {
                    Ok((ValueView::SimpleString(payload), next))
                } else if marker == '-' {
                    Ok((ValueView::Error(payload), next))
                } else if marker == ':' {
                    if parses_to_i64(payload) {
                        Ok((ValueView::Integer(parse_int(payload)->Some_0), next))
                    } else {
                        Err(FramingError::BadInteger)
                    }
                } else if marker == '$' {
                    if payload == seq!['-', '1'] {
                        Ok((ValueView::Null, next))
                    } else {
                        match parse_int(payload) {
                            Option::None => Err(FramingError::BadInteger),
                            Option::Some(n) => {
                                if !(0 <= n <= i64::MAX) {
                                    Err(FramingError::BadInteger)
                                } else {
                                    match span_chars(s, next, n) {
                                        Err(e) => Err(e),
                                        Ok(k) => {
                                            if next + k + 2 > s.len() {
                                                Err(FramingError::Truncated)
                                            } else if s[next + k] != '\r' || s[next + k + 1]
                                                != '\n' {
                                                Err(FramingError::BadTerminator)
                                            } else {
                                                Ok(
                                                    (
                                                        ValueView::BulkString(
                                                            s.subrange(next, next + k),
                                                        ),
                                                        next + k + 2,
                                                    ),
                                                )
                                            }
                                        },
                                    }
                                }
                            },
                        }
                    }
                } else if marker == '*' {
                    if payload == seq!['-', '1'] {
                        Ok((ValueView::Null, next))
                    } else {
                        match parse_int(payload) {
                            Option::None => Err(FramingError::BadInteger),
                            Option::Some(n) => {
                                if !(0 <= n <= i64::MAX) {
                                    Err(FramingError::BadInteger)
                                } else {
                                    match spec_decode_elems(s, next, n) {
                                        Ok((vs, after)) => Ok((ValueView::Array(vs), after)),
                                        Err(e) => Err(e),
                                    }
                                }
                            },
                        }
                    }
                } else {
                    Err(FramingError::InvalidMarker)
                }
            }
        },
    }
}

/// `n` decoded values starting at `pos`, and the position just past them.
pub open spec fn spec_decode_elems(s: Seq<char>, pos: int, n: int) -> Result<
    (Seq<ValueView>, int),
    FramingError,
>
    decreases s.len() - pos + 1, 1int,
{
    if n <= 0 {
        Ok((Seq::empty(), pos))
    } else {
        match spec_decode(s, pos) {
            Err(e) => Err(e),
            Ok((v, p2)) => {
                if p2 <= pos || p2 > s.len() {
                    // never reached: a decoded value consumes at least one
                    // chunk and stays inside the input
                    Err(FramingError::UnexpectedEof)
                } else {
                    match spec_decode_elems(s, p2, n - 1) {
                        Ok((vs, after)) => Ok((seq![v] + vs, after)),
                        Err(e) => Err(e),
                    }
                }
            },
        }
    }
}

#[via_fn]
proof fn spec_decode_decreases(s: Seq<char>, pos: int) {
    if 0 <= pos {
        lemma_find_lf_bounds(s, pos);
    }
}

/// Where the first line feed lies: at or after `pos`, within the input,
/// with nothing but other characters before it.
pub proof fn lemma_find_lf_bounds(s: Seq<char>, pos: int)
    requires
        0 <= pos,
    ensures
        match find_lf(s, pos) {
            Option::Some(nl) => pos <= nl < s.len() && s[nl] == '\n' && forall|k: int|
                pos <= k < nl ==> s[k] != '\n',
            Option::None => forall|k: int| pos <= k < s.len() ==> s[k] != '\n',
        },
    decreases s.len() - pos,
{
    if 0 <= pos < s.len() && s[pos] != '\n' {
        lemma_find_lf_bounds(s, pos + 1);
    }
}

/// Scanning from an earlier position stops at the same line feed when no
/// line feed lies in between.
pub proof fn lemma_find_lf_exact(s: Seq<char>, pos: int, nl: int)
    requires
        0 <= pos <= nl < s.len(),
        s[nl] == '\n',
        forall|k: int| pos <= k < nl ==> s[k] != '\n',
    ensures
        find_lf(s, pos) == Some(nl),
    decreases nl - pos,
{
    if pos < nl {
        lemma_find_lf_exact(s, pos + 1, nl);
    }
}

/// A decoded value always moves the position forward, and never past the
/// end of the input.
pub proof fn lemma_decode_advances(s: Seq<char>, pos: int)
    ensures
        spec_decode(s, pos) matches Ok((v, p2)) ==> pos < p2 <= s.len(),
    decreases s.len() - pos + 1, 0int,
{
    if 0 <= pos {
        lemma_find_lf_bounds(s, pos);
    }
    match spec_read_chunk(s, pos) {
        Ok((chunk, next)) => {
            if chunk.len() > 0 && chunk[0] == '*' {
                let payload = chunk.subrange(1, chunk.len() as int);
                if payload != seq!['-', '1'] {
                    match parse_int(payload) {
                        Option::Some(n) => {
                            if 0 <= n <= i64::MAX {
                                lemma_decode_elems_advances(s, next, n);
                            }
                        },
                        Option::None => {},
                    }
                }
            }
            if chunk.len() > 0 && chunk[0] == '$' {
                let payload = chunk.subrange(1, chunk.len() as int);
                if payload != seq!['-', '1'] {
                    match parse_int(payload) {
                        Option::Some(n) => {
                            if 0 <= n <= i64::MAX {
                                lemma_span_chars_bound(s, next, n);
                            }
                        },
                        Option::None => {},
                    }
                }
            }
        },
        Err(_) => {},
    }
}

/// Decoded elements move the position forward too.
pub proof fn lemma_decode_elems_advances(s: Seq<char>, pos: int, n: int)
    ensures
        spec_decode_elems(s, pos, n) matches Ok((vs, p2)) ==> (pos <= p2 && (pos <= s.len()
            ==> p2 <= s.len()) && vs.len() == (if n <= 0 {
            0int
        } else {
            n
        })),
    decreases s.len() - pos + 1, 1int,
{
    if n > 0 {
        lemma_decode_advances(s, pos);
        match spec_decode(s, pos) {
            Ok((v, p2)) => {
                if p2 > pos {
                    lemma_decode_elems_advances(s, p2, n - 1);
                }
            },
            Err(_) => {},
        }
    }
}

/// Every value the input holds, decoded in order until the input is
/// exhausted.
pub open spec fn spec_decode_all(s: Seq<char>, pos: int) -> Result<Seq<ValueView>, FramingError>
    decreases s.len() - pos,
{
    if pos >= s.len() {
        Ok(Seq::empty())
    } else {
        match spec_decode(s, pos) {
            Err(e) => Err(e),
            Ok((v, p2)) => {
                if p2 <= pos || p2 > s.len() {
                    // never reached: a decoded value consumes at least one
                    // chunk and stays inside the input
                    Err(FramingError::UnexpectedEof)
                } else {
                    match spec_decode_all(s, p2) {
                        Ok(vs) => Ok(seq![v] + vs),
                        Err(e) => Err(e),
                    }
                }
            },
        }
    }
}

/// The executable decoder: a cursor over the text of one read.
pub struct DeSerializer<'a> {
    payload: &'a str,
    len: usize,
    pos: usize,
}

impl<'a> DeSerializer<'a> {
    /// The text being decoded.
    pub closed spec fn input(self) -> Seq<char> {
        self.payload@
    }

    /// The cursor, as an index into the input.
    pub closed spec fn position(self) -> int {
        self.pos as int
    }

    /// The cursor stays inside the input and the cached length is right.
    pub closed spec fn wf(self) -> bool {
        self.len == self.payload@.len() && self.pos <= self.len
    }

    /// A decoder at the start of the given text.
    pub fn new(payload: &'a str) -> (r: Self)
        ensures
            r.wf(),
            r.input() == payload@,
            r.position() == 0,
    {
        let len = payload.unicode_len();
        DeSerializer { payload, len, pos: 0 }
    }

    /// Index of the next line feed, scanning from the cursor.
    fn find_lf_exec(&self) -> (r: Option<usize>)
        requires
            self.wf(),
        ensures
            match r {
                Option::Some(i) => find_lf(self.input(), self.position()) == Some(i as int),
                Option::None => find_lf(self.input(), self.position()) is None,
            },
    {
        let mut i: usize = self.pos;
        while i < self.len
            invariant
                self.wf(),
                self.pos <= i <= self.len,
                find_lf(self.input(), self.position()) == find_lf(self.input(), i as int),
            decreases self.len - i,
        {
            if self.payload.get_char(i) == '\n' {
                return Some(i);
            }
            i += 1;
        }
        None
    }

    /// Reads one `"\r\n"`-terminated chunk, without its terminator, and
    /// steps the cursor past it.
    fn read_next_chunk(&mut self) -> (r: Result<&'a str, FramingError>)
        requires
            old(self).wf(),
        ensures
            final(self).wf(),
            final(self).input() == old(self).input(),
            match spec_read_chunk(old(self).input(), old(self).position()) {
                Ok((content, next)) => r matches Ok(c) && c@ == content && final(self).position()
                    == next,
                Err(e) => r == Err::<&'a str, FramingError>(e) && *final(self) == *old(self),
            },
    {
        match self.find_lf_exec() {
            Option::None => Err(FramingError::UnexpectedEof),
            Option::Some(nl) => {
                proof {
                    lemma_find_lf_bounds(self.input(), self.position());
                }
                if nl == self.pos || self.payload.get_char(nl - 1) != '\r' {
                    Err(FramingError::BadTerminator)
                } else {
                    let content = self.payload.substring_char(self.pos, nl - 1);
                    self.pos = nl + 1;
                    Ok(content)
                }
            },
        }
    }

    /// Whether the text is the two characters of a null marker's payload.
    fn is_minus_one(p: &str) -> (r: bool)
        ensures
            r == (p@ == seq!['-', '1']),
    {
        if p.unicode_len() == 2 {
            let r = p.get_char(0) == '-' && p.get_char(1) == '1';
            proof {
                if r {
                    assert(p@ =~= seq!['-', '1']);
                }
            }
            r
        } else {
            false
        }
    }

    /// The byte width of one character in the wire encoding.
    fn char_width_exec(c: char) -> (r: u64)
        ensures
            r as int == char_width(c),
            1 <= r <= 4,
    {
        proof {
            vstd::utf8::char_is_scalar(c);
        }
        let u = c as u32;
        if u < 0x80 {
            1
        } else if u < 0x800 {
            2
        } else if u < 0x10000 {
            3
        } else {
            4
        }
    }

    /// Counts the characters from `from` that hold exactly `n` bytes of
    /// encoded text.
    fn span_chars_exec(&self, from: usize, n: u64) -> (r: Result<usize, FramingError>)
        requires
            self.wf(),
            from <= self.len,
        ensures
            match r {
                Ok(k) => span_chars(self.input(), from as int, n as int) == Ok::<
                    int,
                    FramingError,
                >(k as int) && from + k <= self.len,
                Err(e) => span_chars(self.input(), from as int, n as int) == Err::<
                    int,
                    FramingError,
                >(e),
            },
    {
        let ghost s = self.input();
        let mut budget: u64 = n;
        let mut j: usize = from;
        while budget > 0
            invariant
                self.wf(),
                s == self.input(),
                from <= j <= self.len,
                span_chars(s, from as int, n as int) == (match span_chars(
                    s,
                    j as int,
                    budget as int,
                ) {
                    Ok(k) => Ok::<int, FramingError>(k + (j - from)),
                    Err(e) => Err::<int, FramingError>(e),
                }),
            decreases budget,
        {
            if j == self.len {
                return Err(FramingError::Truncated);
            }
            let c = self.payload.get_char(j);
            let w = Self::char_width_exec(c);
            if w > budget {
                return Err(FramingError::InvalidText);
            }
            budget = budget - w;
            j = j + 1;
        }
        Ok(j - from)
    }

    /// Decodes one value at the cursor, recursing into arrays.
    fn get_data_type(&mut self) -> (r: Result<DataType, FramingError>)
        requires
            old(self).wf(),
        ensures
            final(self).wf(),
            final(self).input() == old(self).input(),
            match spec_decode(old(self).input(), old(self).position()) {
                Ok((v, p2)) => r matches Ok(d) && d@ == v && final(self).position() == p2,
                Err(e) => r == Err::<DataType, FramingError>(e),
            },
        decreases self.input().len() - self.position(),
    {
        let ghost s = self.input();
        let ghost pos0 = self.position();
        proof {
            lemma_find_lf_bounds(s, pos0);
        }
        let chunk = match self.read_next_chunk() {
            Ok(c) => c,
            Err(e) => {
                return Err(e);
            },
        };
        let clen = chunk.unicode_len();
        if clen == 0 {
            return Err(FramingError::EmptyChunk);
        }
        let marker = chunk.get_char(0);
        let payload = chunk.substring_char(1, clen);
        let ghost pl = chunk@.subrange(1, chunk@.len() as int);
        proof {
            assert(payload@ == pl);
        }
        if marker == '+' {
            Ok(DataType::SimpleString(payload.to_owned()))
        } else if marker == '-' {
            Ok(DataType::Error(payload.to_owned()))
        } else if marker == ':' {
            match crate::num::parse_i64(payload) {
                Option::Some(v) => Ok(DataType::Integer(v)),
                Option::None => Err(FramingError::BadInteger),
            }
        } else if marker == '$' {
            if Self::is_minus_one(payload) {
                Ok(DataType::Null)
            } else {
                match crate::num::parse_i64(payload) {
                    Option::None => Err(FramingError::BadInteger),
                    Option::Some(v) => {
                        if v < 0 {
                            Err(FramingError::BadInteger)
                        } else {
                            match self.span_chars_exec(self.pos, v as u64) {
                                Err(e) => Err(e),
                                Ok(k) => {
                                    let end = self.pos + k;
                                    if self.len - end < 2 {
                                        Err(FramingError::Truncated)
                                    } else if self.payload.get_char(end) != '\r'
                                        || self.payload.get_char(end + 1) != '\n' {
                                        Err(FramingError::BadTerminator)
                                    } else {
                                        let content = self.payload.substring_char(self.pos, end);
                                        self.pos = end + 2;
                                        Ok(DataType::BulkString(content.to_owned()))
                                    }
                                },
                            }
                        }
                    },
                }
            }
        } else if marker == '*' {
            if Self::is_minus_one(payload) {
                Ok(DataType::Null)
            } else {
                match crate::num::parse_i64(payload) {
                    Option::None => Err(FramingError::BadInteger),
                    Option::Some(v) => {
                        if v < 0 {
                            Err(FramingError::BadInteger)
                        } else {
                            let ghost first = self.position();
                            let mut elems: Vec<DataType> = Vec::new();
                            let n = v as u64;
                            let mut k: u64 = 0;
                            proof {
                                assert(dt_views(elems@) =~= Seq::<ValueView>::empty());
                                assert(dt_views(elems@) + spec_decode_elems(
                                    s,
                                    first,
                                    v as int,
                                )->Ok_0.0 =~= spec_decode_elems(s, first, v as int)->Ok_0.0);
                            }
                            proof {
                                assert(spec_decode(s, pos0) == (match spec_decode_elems(
                                    s,
                                    first,
                                    v as int,
                                ) {
                                    Ok((vs, p)) => Ok::<(ValueView, int), FramingError>(
                                        (ValueView::Array(vs), p),
                                    ),
                                    Err(e) => Err(e),
                                }));
                            }
                            while k < n
                                invariant
                                    self.wf(),
                                    self.input() == s,
                                    s == old(self).input(),
                                    pos0 == old(self).position(),
                                    spec_decode(s, pos0) == (match spec_decode_elems(
                                        s,
                                        first,
                                        n as int,
                                    ) {
                                        Ok((vs, p)) => Ok::<(ValueView, int), FramingError>(
                                            (ValueView::Array(vs), p),
                                        ),
                                        Err(e) => Err(e),
                                    }),
                                    k <= n,
                                    n == v as u64,
                                    v >= 0,
                                    pos0 < self.position() <= s.len(),
                                    match spec_decode_elems(s, self.position(), n - k) {
                                        Ok((vs, p)) => spec_decode_elems(s, first, n as int) == Ok::<
                                            _,
                                            FramingError,
                                        >((dt_views(elems@) + vs, p)),
                                        Err(e) => spec_decode_elems(s, first, n as int)
                                            == Err::<(Seq<ValueView>, int), _>(e),
                                    },
                                decreases n - k,
                            {
                                let ghost before = self.position();
                                let d = match self.get_data_type() {
                                    Ok(d) => d,
                                    Err(e) => {
                                        return Err(e);
                                    },
                                };
                                proof {
                                    lemma_decode_advances(s, before);
                                    lemma_dt_views_push(elems@, d);
                                    let p2 = spec_decode(s, before)->Ok_0.1;
                                    match spec_decode_elems(s, p2, n - k - 1) {
                                        Ok((vs2, p3)) => {
                                            assert(dt_views(elems@) + (seq![d@] + vs2) =~= (
                                            dt_views(elems@) + seq![d@]) + vs2);
                                        },
                                        Err(_) => {},
                                    }
                                }
                                elems.push(d);
                                k = k + 1;
                            }
                            proof {
                                assert(dt_views(elems@) + Seq::<ValueView>::empty() =~= dt_views(
                                    elems@,
                                ));
                            }
                            Ok(DataType::Array(elems))
                        }
                    },
                }
            }
        } else {
            Err(FramingError::InvalidMarker)
        }
    }

    /// Decodes every value the input holds, in order, until the input is
    /// exhausted.
    pub fn deserialize(&mut self) -> (r: Result<Vec<DataType>, FramingError>)
        requires
            old(self).wf(),
        ensures
            final(self).wf(),
            final(self).input() == old(self).input(),
            match spec_decode_all(old(self).input(), old(self).position()) {
                Ok(vs) => r matches Ok(ds) && dt_views(ds@) == vs,
                Err(e) => r == Err::<Vec<DataType>, FramingError>(e),
            },
    {
        let ghost s = self.input();
        let ghost pos0 = self.position();
        let mut out: Vec<DataType> = Vec::new();
        proof {
            assert(dt_views(out@) =~= Seq::<ValueView>::empty());
        }
        while self.pos < self.len
            invariant
                self.wf(),
                self.input() == s,
                s == old(self).input(),
                pos0 == old(self).position(),
                pos0 <= self.position(),
                match spec_decode_all(s, self.position()) {
                    Ok(vs) => spec_decode_all(s, pos0) == Ok::<_, FramingError>(
                        dt_views(out@) + vs,
                    ),
                    Err(e) => spec_decode_all(s, pos0) == Err::<Seq<ValueView>, _>(e),
                },
            decreases self.input().len() - self.position(),
        {
            let ghost before = self.position();
            let d = match self.get_data_type() {
                Ok(d) => d,
                Err(e) => {
                    return Err(e);
                },
            };
            proof {
                lemma_decode_advances(s, before);
                lemma_dt_views_push(out@, d);
                let p2 = spec_decode(s, before)->Ok_0.1;
                match spec_decode_all(s, p2) {
                    Ok(vs2) => {
                        assert(dt_views(out@) + (seq![d@] + vs2) =~= (dt_views(out@) + seq![d@])
                            + vs2);
                    },
                    Err(_) => {},
                }
            }
            out.push(d);
        }
        proof {
            assert(dt_views(out@) + Seq::<ValueView>::empty() =~= dt_views(out@));
        }
        Ok(out)
    }
}


/// Values whose wire text decodes back to themselves: simple strings and
/// errors must not contain a line feed (their encoding carries no length
/// prefix), and integers, lengths and counts must fit a signed 64-bit
/// integer.
pub open spec fn round_trippable(v: ValueView) -> bool
    decreases v,
    via round_trippable_decreases
{
    match v {
        ValueView::SimpleString(t) => !t.contains('\n'),
        ValueView::Error(t) => !t.contains('\n'),
        ValueView::Integer(i) => i64::MIN <= i <= i64::MAX,
        ValueView::BulkString(t) => utf8_len(t) <= i64::MAX,
        ValueView::Null => true,
        ValueView::Array(elems) => elems.len() <= i64::MAX && (forall|i: int|
            0 <= i < elems.len() ==> round_trippable(#[trigger] elems[i])),
    }
}

#[via_fn]
proof fn round_trippable_decreases(v: ValueView) {
    match v {
        ValueView::Array(elems) => {
            assert forall|i: int| 0 <= i < elems.len() implies (decreases_to!(v => elems[i])) by {
                assert(decreases_to!(v => elems));
                assert(decreases_to!(elems => elems[i]));
            }
        },
        _ => {},
    }
}

/// Every encoding is at least a marker and a terminator long.
pub proof fn lemma_encoding_len(v: ValueView)
    ensures
        encoding(v).len() >= 3,
{
}

/// A value's wire text, laid down inside a larger text, decodes to exactly
/// that value and consumes exactly that text.
pub proof fn lemma_decode_encoding(v: ValueView, s: Seq<char>, pos: int)
    requires
        round_trippable(v),
        0 <= pos,
        pos + encoding(v).len() <= s.len(),
        s.subrange(pos, pos + encoding(v).len() as int) == encoding(v),
    ensures
        spec_decode(s, pos) == Ok::<(ValueView, int), FramingError>(
            (v, pos + encoding(v).len() as int),
        ),
    decreases v,
{
    let e = encoding(v);
    let el = e.len() as int;
    assert forall|k: int| 0 <= k < el implies s[pos + k] == e[k] by {
        assert(s.subrange(pos, pos + el)[k] == s[pos + k]);
    }
    match v {
        ValueView::SimpleString(t) => {
            lemma_decode_line_chunk(s, pos, seq!['+'] + t);
            assert((seq!['+'] + t).subrange(1, t.len() as int + 1) =~= t);
        },
        ValueView::Error(t) => {
            lemma_decode_line_chunk(s, pos, seq!['-'] + t);
            assert((seq!['-'] + t).subrange(1, t.len() as int + 1) =~= t);
        },
        ValueView::Integer(i) => {
            crate::num::lemma_int_chars_no_lf(i);
            lemma_decode_line_chunk(s, pos, seq![':'] + crate::num::int_chars(i));
            assert((seq![':'] + crate::num::int_chars(i)).subrange(
                1,
                crate::num::int_chars(i).len() as int + 1,
            ) =~= crate::num::int_chars(i));
            crate::num::lemma_parse_int_chars(i);
        },
        ValueView::Null => {
            lemma_decode_line_chunk(s, pos, seq!['$'] + seq!['-', '1']);
            assert((seq!['$'] + seq!['-', '1']).subrange(1, 3) =~= seq!['-', '1']);
        },
        ValueView::BulkString(t) => {
            lemma_utf8_len_basics(t);
            let d = crate::num::dec_digits(utf8_len(t));
            crate::num::lemma_dec_digits_wf(utf8_len(t));
            crate::num::lemma_digits_no_lf(utf8_len(t));
            let header = seq!['$'] + d;
            assert(s.subrange(pos, pos + header.len() + 2) =~= header + crlf()) by {
                assert forall|k: int| 0 <= k < header.len() + 2 implies s.subrange(
                    pos,
                    pos + header.len() + 2,
                )[k] == (header + crlf())[k] by {
                    assert(s[pos + k] == e[k]);
                }
            }
            lemma_decode_line_chunk(s, pos, header);
            let payload = header.subrange(1, header.len() as int);
            assert(payload =~= d);
            assert(payload[0] != '-') by {
                assert(is_digit(d[0]));
                vstd::utf8::char_u32_cast('-', 45);
            }
            assert(payload != seq!['-', '1']);
            crate::num::lemma_parse_dec_digits(utf8_len(t));
            assert(parse_int(d) == Some(utf8_len(t))) by {
                assert(is_digit(d[0]));
                vstd::utf8::char_u32_cast('-', 45);
            }
            let next = pos + header.len() + 2;
            assert(s.subrange(next, next + t.len()) =~= t) by {
                assert forall|k: int| 0 <= k < t.len() implies s.subrange(
                    next,
                    next + t.len(),
                )[k] == t[k] by {
                    assert(s[pos + (header.len() + 2 + k)] == e[header.len() + 2 + k]);
                    assert(e[header.len() + 2 + k] == t[k]);
                }
            }
            assert(s[next + t.len()] == '\r') by {
                assert(s[pos + (header.len() + 2 + t.len() as int)] == e[header.len() + 2 + t.len() as int]);
            }
            assert(s[next + t.len() + 1] == '\n') by {
                assert(s[pos + (header.len() + 3 + t.len() as int)] == e[header.len() + 3 + t.len() as int]);
            }
            lemma_span_chars_exact(s, next, t);
        },
        ValueView::Array(elems) => {
            let d = crate::num::dec_digits(elems.len() as int);
            crate::num::lemma_dec_digits_wf(elems.len() as int);
            crate::num::lemma_digits_no_lf(elems.len() as int);
            let header = seq!['*'] + d;
            assert(s.subrange(pos, pos + header.len() + 2) =~= header + crlf()) by {
                assert forall|k: int| 0 <= k < header.len() + 2 implies s.subrange(
                    pos,
                    pos + header.len() + 2,
                )[k] == (header + crlf())[k] by {
                    assert(s[pos + k] == e[k]);
                }
            }
            lemma_decode_line_chunk(s, pos, header);
            let payload = header.subrange(1, header.len() as int);
            assert(payload =~= d);
            assert(payload[0] != '-') by {
                assert(is_digit(d[0]));
                vstd::utf8::char_u32_cast('-', 45);
            }
            assert(payload != seq!['-', '1']);
            crate::num::lemma_parse_dec_digits(elems.len() as int);
            assert(parse_int(d) == Some(elems.len() as int)) by {
                assert(is_digit(d[0]));
                vstd::utf8::char_u32_cast('-', 45);
            }
            let next = pos + header.len() + 2;
            let body = encodings(elems);
            assert(s.subrange(next, next + body.len()) =~= body) by {
                assert forall|k: int| 0 <= k < body.len() implies s.subrange(
                    next,
                    next + body.len(),
                )[k] == body[k] by {
                    assert(s[pos + (header.len() + 2 + k)] == e[header.len() + 2 + k]);
                    assert(e[header.len() + 2 + k] == body[k]);
                }
            }
            lemma_decode_elems_encoding(elems, s, next);
        },
    }
}

/// Decoding at the start of `marker_and_text + "\r\n"` reads exactly that
/// chunk, provided the text holds no line feed.
proof fn lemma_decode_line_chunk(s: Seq<char>, pos: int, chunk: Seq<char>)
    requires
        0 <= pos,
        pos + chunk.len() + 2 <= s.len(),
        s.subrange(pos, pos + chunk.len() + 2) == chunk + crlf(),
        forall|k: int| 0 <= k < chunk.len() ==> chunk[k] != '\n',
    ensures
        spec_read_chunk(s, pos) == Ok::<(Seq<char>, int), FramingError>(
            (chunk, pos + chunk.len() + 2),
        ),
{
    let cl = chunk.len() as int;
    assert forall|k: int| 0 <= k < cl + 2 implies s[pos + k] == (chunk + crlf())[k] by {
        assert(s.subrange(pos, pos + cl + 2)[k] == s[pos + k]);
    }
    let nl = pos + cl + 1;
    assert(s[pos + (cl + 1)] == (chunk + crlf())[cl + 1]);
    assert((chunk + crlf())[cl + 1] == crlf()[1]);
    assert(s[pos + cl] == (chunk + crlf())[cl]);
    assert((chunk + crlf())[cl] == crlf()[0]);
    assert(s[nl] == '\n');
    assert(s[nl - 1] == '\r');
    assert forall|k: int| pos <= k < nl implies s[k] != '\n' by {
        if k < pos + cl {
            let j = k - pos;
            assert(s[pos + j] == (chunk + crlf())[j]);
            assert(pos + j == k);
            assert(s[k] == chunk[j]);
        } else {
            assert(s[k] == '\r');
            vstd::utf8::char_u32_cast('\r', 13);
            vstd::utf8::char_u32_cast('\n', 10);
        }
    }
    lemma_find_lf_exact(s, pos, nl);
    assert(s.subrange(pos, nl - 1) =~= chunk);
}

/// The concatenated wire text of a sequence of values decodes back to
/// exactly those values.
pub proof fn lemma_decode_elems_encoding(elems: Seq<ValueView>, s: Seq<char>, pos: int)
    requires
        forall|i: int| 0 <= i < elems.len() ==> round_trippable(#[trigger] elems[i]),
        0 <= pos,
        pos + encodings(elems).len() <= s.len(),
        s.subrange(pos, pos + encodings(elems).len() as int) == encodings(elems),
    ensures
        spec_decode_elems(s, pos, elems.len() as int) == Ok::<(Seq<ValueView>, int), FramingError>(
            (elems, pos + encodings(elems).len() as int),
        ),
    decreases elems,
{
    if elems.len() == 0 {
        assert(elems =~= Seq::<ValueView>::empty());
    } else {
        let first = elems.first();
        let rest = elems.drop_first();
        let e0 = encoding(first);
        let body = encodings(elems);
        assert(body == e0 + encodings(rest));
        assert forall|k: int| 0 <= k < body.len() implies s[pos + k] == body[k] by {
            assert(s.subrange(pos, pos + body.len() as int)[k] == s[pos + k]);
        }
        assert(s.subrange(pos, pos + e0.len() as int) =~= e0) by {
            assert forall|k: int| 0 <= k < e0.len() implies s.subrange(
                pos,
                pos + e0.len() as int,
            )[k] == e0[k] by {
                assert(s[pos + k] == body[k]);
            }
        }
        assert(decreases_to!(elems => first));
        lemma_decode_encoding(first, s, pos);
        lemma_encoding_len(first);
        let p2 = pos + e0.len() as int;
        assert(s.subrange(p2, p2 + encodings(rest).len() as int) =~= encodings(rest)) by {
            assert forall|k: int| 0 <= k < encodings(rest).len() implies s.subrange(
                p2,
                p2 + encodings(rest).len() as int,
            )[k] == encodings(rest)[k] by {
                assert(s[pos + (e0.len() + k)] == body[e0.len() + k]);
            }
        }
        assert forall|i: int| 0 <= i < rest.len() implies round_trippable(#[trigger] rest[i]) by {
            assert(rest[i] == elems[i + 1]);
        }
        lemma_decode_elems_encoding(rest, s, p2);
        assert(seq![first] + rest =~= elems);
    }
}

/// Round trip: the wire text of a value decodes back to exactly that
/// value, as the single value of the input.
pub proof fn lemma_round_trip(v: ValueView)
    requires
        round_trippable(v),
    ensures
        spec_decode_all(encoding(v), 0) == Ok::<Seq<ValueView>, FramingError>(seq![v]),
{
    let e = encoding(v);
    lemma_encoding_len(v);
    assert(e.subrange(0, e.len() as int) =~= e);
    lemma_decode_encoding(v, e, 0);
    assert(spec_decode_all(e, e.len() as int) == Ok::<Seq<ValueView>, FramingError>(Seq::empty()));
    assert(seq![v] + Seq::<ValueView>::empty() =~= seq![v]);
}

} // verus!
