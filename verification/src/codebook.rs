//! Decoding packed code bits back into text: a table from code words,
//! written as text of zeros and ones, to the letters they stand for, and
//! the greedy walk that consumes a byte stream bit by bit.

use crate::store::{assoc_map, lemma_assoc_at, lemma_assoc_contains, unique_keys};
use crate::text::str_eq;
use vstd::prelude::*;
use vstd::string::StringExecFns;

verus! {

/// The bit characters of one byte, most significant bit first.
pub open spec fn bits_of_byte(b: u8) -> Seq<char> {
    Seq::new(
        8,
        |i: int|
            if (b >> (7 - i) as u8) & 1 == 1 {
                '1'
            } else {
                '0'
            },
    )
}

/// The bit characters of a whole byte stream, in order.
pub open spec fn bits_text(data: Seq<u8>) -> Seq<char>
    decreases data.len(),
{
    if data.len() == 0 {
        Seq::empty()
    } else {
        bits_of_byte(data.first()) + bits_text(data.drop_first())
    }
}

/// One step of the greedy walk: the next bit joins the pending code
/// word; a word the table knows emits its letter and starts afresh.
pub open spec fn decode_step(
    out: Seq<char>,
    buf: Seq<char>,
    c: char,
    m: Map<Seq<char>, Seq<char>>,
) -> (Seq<char>, Seq<char>) {
    let nb = buf.push(c);
    if m.contains_key(nb) {
        (out + m[nb], Seq::<char>::empty())
    } else {
        (out, nb)
    }
}

/// The greedy walk over a run of bit characters.
pub open spec fn decode_bits(
    out: Seq<char>,
    buf: Seq<char>,
    bits: Seq<char>,
    m: Map<Seq<char>, Seq<char>>,
) -> (Seq<char>, Seq<char>)
    decreases bits.len(),
{
    if bits.len() == 0 {
        (out, buf)
    } else {
        let (o, b) = decode_step(out, buf, bits.first(), m);
        decode_bits(o, b, bits.drop_first(), m)
    }
}

/// The walk over a concatenation is the walk over the first part,
/// continued over the second.
proof fn lemma_decode_bits_split(
    out: Seq<char>,
    buf: Seq<char>,
    x: Seq<char>,
    y: Seq<char>,
    m: Map<Seq<char>, Seq<char>>,
)
    ensures
        decode_bits(out, buf, x + y, m) == {
            let (o, b) = decode_bits(out, buf, x, m);
            decode_bits(o, b, y, m)
        },
    decreases x.len(),
{
    if x.len() == 0 {
        assert(x + y =~= y);
    } else {
        assert((x + y).first() == x.first());
        assert((x + y).drop_first() =~= x.drop_first() + y);
        let (o, b) = decode_step(out, buf, x.first(), m);
        lemma_decode_bits_split(o, b, x.drop_first(), y, m);
    }
}

/// A table from code words to letters.
pub struct CodeTable {
    entries: Vec<(String, String)>,
}

impl CodeTable {
    /// The table as a mathematical map.
    pub closed spec fn codes(self) -> Map<Seq<char>, Seq<char>> {
        assoc_map(self.entries@)
    }

    /// Code words are unique.
    pub closed spec fn wf(self) -> bool {
        unique_keys(self.entries@)
    }

    /// An empty table.
    pub fn new() -> (r: Self)
        ensures
            r.wf(),
            r.codes() == Map::<Seq<char>, Seq<char>>::empty(),
    {
        CodeTable { entries: Vec::new() }
    }

    /// Adds a code word for a letter; an already-known word is refused.
    pub fn add(&mut self, code: &String, letter: &String) -> (r: bool)
        requires
            old(self).wf(),
        ensures
            final(self).wf(),
            r == !old(self).codes().contains_key(code@),
            r ==> final(self).codes() == old(self).codes().insert(code@, letter@),
            !r ==> final(self).codes() == old(self).codes(),
    {
        match self.find(code) {
            Option::Some(_) => false,
            Option::None => {
                proof {
                    lemma_assoc_contains(self.entries@, code@);
                }
                self.entries.push((code.clone(), letter.clone()));
                proof {
                    assert(self.entries@.drop_last() =~= old(self).entries@);
                    assert(forall|j: int|
                        0 <= j < old(self).entries@.len() ==> (#[trigger] old(
                            self,
                        ).entries@[j]).0@ != code@) by {
                        lemma_assoc_contains(old(self).entries@, code@);
                    }
                }
                true
            },
        }
    }

    /// The letter a code word stands for, if the table knows the word.
    fn lookup(&self, code: &str) -> (r: Option<&String>)
        requires
            self.wf(),
        ensures
            match r {
                Option::Some(v) => self.codes().contains_key(code@) && v@ == self.codes()[code@],
                Option::None => !self.codes().contains_key(code@),
            },
    {
        let mut i: usize = 0;
        while i < self.entries.len()
            invariant
                self.wf(),
                i <= self.entries@.len(),
                forall|j: int| 0 <= j < i ==> (#[trigger] self.entries@[j]).0@ != code@,
            decreases self.entries@.len() - i,
        {
            if str_eq(self.entries[i].0.as_str(), code) {
                proof {
                    lemma_assoc_at(self.entries@, i as int);
                }
                return Some(&self.entries[i].1);
            }
            i += 1;
        }
        proof {
            lemma_assoc_contains(self.entries@, code@);
        }
        None
    }

    /// Index of a code word among the entries.
    fn find(&self, code: &String) -> (r: Option<usize>)
        requires
            self.wf(),
        ensures
            match r {
                Option::Some(i) => i < self.entries@.len() && self.entries@[i as int].0@ == code@
                    && self.codes().contains_key(code@),
                Option::None => !self.codes().contains_key(code@),
            },
    {
        let mut i: usize = 0;
        while i < self.entries.len()
            invariant
                self.wf(),
                i <= self.entries@.len(),
                forall|j: int| 0 <= j < i ==> (#[trigger] self.entries@[j]).0@ != code@,
            decreases self.entries@.len() - i,
        {
            if self.entries[i].0 == *code {
                proof {
                    lemma_assoc_at(self.entries@, i as int);
                }
                return Some(i);
            }
            i += 1;
        }
        proof {
            lemma_assoc_contains(self.entries@, code@);
        }
        None
    }
}

/// Walks the byte stream bit by bit, most significant bit first,
/// growing a pending code word; every word the table knows emits its
/// letter. Trailing bits that never complete a word are dropped, as the
/// padding of the final byte always is.
pub fn decompress(data: &Vec<u8>, lookup_table: &CodeTable) -> (r: String)
    requires
        lookup_table.wf(),
    ensures
        r@ == decode_bits(
            Seq::<char>::empty(),
            Seq::<char>::empty(),
            bits_text(data@),
            lookup_table.codes(),
        ).0,
{
    let ghost m = lookup_table.codes();
    let mut content = String::new();
    let mut buf = String::new();
    proof {
        assert(bits_text(data@.subrange(0, 0)) =~= Seq::<char>::empty());
    }
    let mut i: usize = 0;
    while i < data.len()
        invariant
            i <= data@.len(),
            lookup_table.wf(),
            m == lookup_table.codes(),
            (content@, buf@) == decode_bits(
                Seq::<char>::empty(),
                Seq::<char>::empty(),
                bits_text(data@.subrange(0, i as int)),
                m,
            ),
        decreases data@.len() - i,
    {
        let byte = data[i];
        let ghost pre_bits = bits_text(data@.subrange(0, i as int));
        let mut bit_ptr: usize = 0;
        while bit_ptr < 8
            invariant
                bit_ptr <= 8,
                i < data@.len(),
                byte == data@[i as int],
                lookup_table.wf(),
                m == lookup_table.codes(),
                (content@, buf@) == decode_bits(
                    Seq::<char>::empty(),
                    Seq::<char>::empty(),
                    pre_bits + bits_of_byte(byte).subrange(0, bit_ptr as int),
                    m,
                ),
                pre_bits == bits_text(data@.subrange(0, i as int)),
            decreases 8 - bit_ptr,
        {
            let ghost done = pre_bits + bits_of_byte(byte).subrange(0, bit_ptr as int);
            let ghost o1 = content@;
            let ghost b1 = buf@;
            let bit_set = (byte >> (7 - bit_ptr) as u8) & 1 == 1;
            let c: char = if bit_set {
                '1'
            } else {
                '0'
            };
            if bit_set {
                buf.append("1");
            } else {
                buf.append("0");
            }
            proof {
                reveal_strlit("1");
                reveal_strlit("0");
                assert(buf@ =~= b1.push(c));
            }
            match lookup_table.lookup(buf.as_str()) {
                Option::Some(letter) => {
                    content.append(letter.as_str());
                    buf = String::new();
                },
                Option::None => {},
            }
            proof {
                assert(bits_of_byte(byte)[bit_ptr as int] == c);
                lemma_decode_bits_split(
                    Seq::<char>::empty(),
                    Seq::<char>::empty(),
                    done,
                    seq![c],
                    m,
                );
                assert(seq![c].first() == c);
                assert(seq![c].drop_first() =~= Seq::<char>::empty());
                let st = decode_step(o1, b1, c, m);
                assert(decode_bits(o1, b1, seq![c], m) == decode_bits(
                    st.0,
                    st.1,
                    seq![c].drop_first(),
                    m,
                ));
                assert(decode_bits(st.0, st.1, Seq::<char>::empty(), m) == (st.0, st.1));
                assert((content@, buf@) == st);
                assert(done + seq![c] =~= pre_bits + bits_of_byte(byte).subrange(
                    0,
                    bit_ptr + 1int,
                ));
            }
            bit_ptr += 1;
        }
        proof {
            assert(bits_of_byte(byte).subrange(0, 8) =~= bits_of_byte(byte));
            assert(data@.subrange(0, i + 1int).drop_first() =~= data@.subrange(
                1,
                i + 1int,
            ));
            lemma_bits_text_snoc(data@, i as int);
            assert(pre_bits + bits_of_byte(byte) =~= bits_text(data@.subrange(0, i + 1int)));
        }
        i += 1;
    }
    proof {
        assert(data@.subrange(0, data@.len() as int) =~= data@);
    }
    content
}

/// The bit text of one more byte is the bit text so far and that byte's
/// bits.
proof fn lemma_bits_text_snoc(data: Seq<u8>, i: int)
    requires
        0 <= i < data.len(),
    ensures
        bits_text(data.subrange(0, i + 1)) == bits_text(data.subrange(0, i)) + bits_of_byte(
            data[i],
        ),
    decreases i,
{
    if i == 0 {
        assert(data.subrange(0, 1).first() == data[0]);
        assert(data.subrange(0, 1).drop_first() =~= Seq::<u8>::empty());
        assert(bits_text(Seq::<u8>::empty()) =~= Seq::<char>::empty());
        assert(bits_text(data.subrange(0, 0)) =~= Seq::<char>::empty());
        assert(bits_text(data.subrange(0, 1)) == bits_of_byte(data.subrange(0, 1).first())
            + bits_text(data.subrange(0, 1).drop_first()));
        assert(bits_of_byte(data[0]) + bits_text(Seq::<u8>::empty()) =~= bits_of_byte(data[0]));
        assert(bits_text(data.subrange(0, 0)) + bits_of_byte(data[0]) =~= bits_of_byte(data[0]));
    } else {
        let t = data.drop_first();
        lemma_bits_text_snoc(t, i - 1);
        assert(data.subrange(0, i + 1).first() == data[0]);
        assert(data.subrange(0, i + 1).drop_first() =~= t.subrange(0, i));
        assert(data.subrange(0, i).first() == data[0]);
        assert(data.subrange(0, i).drop_first() =~= t.subrange(0, i - 1));
        assert(t[i - 1] == data[i]);
        assert(bits_text(data.subrange(0, i + 1)) =~= bits_text(data.subrange(0, i))
            + bits_of_byte(data[i]));
    }
}

} // verus!
