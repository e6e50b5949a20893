//! A chunk: the inclusive line range and byte range of one group of lines,
//! and its text record.
use crate::decimal::{
    all_digits, decimal, is_digit, lemma_decimal, lemma_decimal_injective, lemma_number_at_unique,
    number_at, number_text, parse_number,
};
use vstd::prelude::*;
use vstd::string::*;

verus! {

/// One group of consecutive lines: `r` is its inclusive line range, `b` the
/// inclusive range of byte offsets that those lines occupy in the input.
#[derive(Debug, Clone, Copy)]
pub struct Chunk {
    pub r: (usize, usize),
    pub b: (usize, usize),
}

/// `{"r":[`, which opens a record and its line range.
pub open spec fn head_text() -> Seq<char> {
    seq!['{', '"', 'r', '"', ':', '[']
}

/// `,`, between the two ends of a range.
pub open spec fn comma_text() -> Seq<char> {
    seq![',']
}

/// `],"b":[`, which closes the line range and opens the byte range.
pub open spec fn middle_text() -> Seq<char> {
    seq![']', ',', '"', 'b', '"', ':', '[']
}

/// `]}`, which closes the byte range and the record.
pub open spec fn tail_text() -> Seq<char> {
    seq![']', '}']
}

/// The JSON record of a chunk: `{"r":[first,last],"b":[first,last]}`.
pub open spec fn record_text(c: Chunk) -> Seq<char> {
    head_text() + (decimal(c.r.0 as nat) + (comma_text() + (decimal(c.r.1 as nat) + (middle_text()
        + (decimal(c.b.0 as nat) + (comma_text() + (decimal(c.b.1 as nat) + tail_text())))))))
}

/// The records of `cs` in order, separated by commas.
pub open spec fn records_text(cs: Seq<Chunk>) -> Seq<char>
    decreases cs.len(),
{
    if cs.len() == 0 {
        Seq::empty()
    } else if cs.len() == 1 {
        record_text(cs[0])
    } else {
        records_text(cs.drop_last()) + comma_text() + record_text(cs.last())
    }
}

/// The JSON array of the records of `cs`.
pub open spec fn array_text(cs: Seq<Chunk>) -> Seq<char> {
    seq!['['] + records_text(cs) + seq![']']
}

/// Where a prefix is followed by a run of digits and then by a non-digit,
/// the run and what follows it are determined by the text.
proof fn lemma_split_number(p: Seq<char>, d1: Seq<char>, t1: Seq<char>, d2: Seq<char>, t2: Seq<char>)
    requires
        p + (d1 + t1) == p + (d2 + t2),
        all_digits(d1),
        all_digits(d2),
        t1.len() > 0 && !is_digit(t1[0]),
        t2.len() > 0 && !is_digit(t2[0]),
    ensures
        d1 == d2,
        t1 == t2,
{
    let s1 = d1 + t1;
    let s2 = d2 + t2;
    assert(s1 =~= (p + s1).subrange(p.len() as int, (p + s1).len() as int));
    assert(s2 =~= (p + s2).subrange(p.len() as int, (p + s2).len() as int));
    if d1.len() < d2.len() {
        assert(s1[d1.len() as int] == t1[0]);
        assert(s2[d1.len() as int] == d2[d1.len() as int]);
    } else if d2.len() < d1.len() {
        assert(s2[d2.len() as int] == t2[0]);
        assert(s1[d2.len() as int] == d1[d2.len() as int]);
    } else {
        assert(d1 =~= s1.subrange(0, d1.len() as int));
        assert(d2 =~= s2.subrange(0, d2.len() as int));
        assert(t1 =~= s1.subrange(d1.len() as int, s1.len() as int));
        assert(t2 =~= s2.subrange(d2.len() as int, s2.len() as int));
    }
}

/// No two chunks have the same record.
pub proof fn lemma_record_lossless(c: Chunk, d: Chunk)
    requires
        record_text(c) == record_text(d),
    ensures
        c == d,
{
    lemma_decimal(c.r.0 as nat);
    lemma_decimal(c.r.1 as nat);
    lemma_decimal(c.b.0 as nat);
    lemma_decimal(c.b.1 as nat);
    lemma_decimal(d.r.0 as nat);
    lemma_decimal(d.r.1 as nat);
    lemma_decimal(d.b.0 as nat);
    lemma_decimal(d.b.1 as nat);
    let e = Seq::<char>::empty();
    let t1 = comma_text() + (decimal(c.r.1 as nat) + (middle_text() + (decimal(c.b.0 as nat) + (
    comma_text() + (decimal(c.b.1 as nat) + tail_text())))));
    let u1 = comma_text() + (decimal(d.r.1 as nat) + (middle_text() + (decimal(d.b.0 as nat) + (
    comma_text() + (decimal(d.b.1 as nat) + tail_text())))));
    lemma_split_number(head_text(), decimal(c.r.0 as nat), t1, decimal(d.r.0 as nat), u1);
    lemma_decimal_injective(c.r.0 as nat, d.r.0 as nat);
    let t2 = middle_text() + (decimal(c.b.0 as nat) + (comma_text() + (decimal(c.b.1 as nat)
        + tail_text())));
    let u2 = middle_text() + (decimal(d.b.0 as nat) + (comma_text() + (decimal(d.b.1 as nat)
        + tail_text())));
    lemma_split_number(comma_text(), decimal(c.r.1 as nat), t2, decimal(d.r.1 as nat), u2);
    lemma_decimal_injective(c.r.1 as nat, d.r.1 as nat);
    let t3 = comma_text() + (decimal(c.b.1 as nat) + tail_text());
    let u3 = comma_text() + (decimal(d.b.1 as nat) + tail_text());
    lemma_split_number(middle_text(), decimal(c.b.0 as nat), t3, decimal(d.b.0 as nat), u3);
    lemma_decimal_injective(c.b.0 as nat, d.b.0 as nat);
    lemma_split_number(comma_text(), decimal(c.b.1 as nat), tail_text(), decimal(d.b.1 as nat), tail_text());
    lemma_decimal_injective(c.b.1 as nat, d.b.1 as nat);
    assert(e.len() == 0);
}


/// The chunk whose record `s` is, if there is one.
pub open spec fn decoded(s: Seq<char>) -> Option<Chunk> {
    if exists|c: Chunk| record_text(c) == s {
        Some(choose|c: Chunk| record_text(c) == s)
    } else {
        None
    }
}

/// Decoding the record of a chunk gives that chunk back.
pub proof fn lemma_round_trip(c: Chunk)
    ensures
        decoded(record_text(c)) == Some(c),
{
    let d = choose|d: Chunk| record_text(d) == record_text(c);
    lemma_record_lossless(c, d);
}

/// Where each part of the record of `c` stands.
proof fn lemma_record_layout(c: Chunk)
    ensures
        ({
            let s = record_text(c);
            let e0: int = 6 + decimal(c.r.0 as nat).len() as int;
            let e1: int = e0 + 1 + decimal(c.r.1 as nat).len();
            let e2: int = e1 + 7 + decimal(c.b.0 as nat).len();
            let e3: int = e2 + 1 + decimal(c.b.1 as nat).len();
            &&& s.subrange(0, 6) == head_text()
            &&& number_at(s, 6, c.r.0 as nat)
            &&& s.subrange(e0, e0 + 1) == comma_text()
            &&& number_at(s, e0 + 1, c.r.1 as nat)
            &&& s.subrange(e1, e1 + 7) == middle_text()
            &&& number_at(s, e1 + 7, c.b.0 as nat)
            &&& s.subrange(e2, e2 + 1) == comma_text()
            &&& number_at(s, e2 + 1, c.b.1 as nat)
            &&& s.subrange(e3, e3 + 2) == tail_text()
            &&& s.len() == e3 + 2
        }),
{
    let s = record_text(c);
    let d0 = decimal(c.r.0 as nat);
    let d1 = decimal(c.r.1 as nat);
    let d2 = decimal(c.b.0 as nat);
    let d3 = decimal(c.b.1 as nat);
    let e0: int = 6 + d0.len() as int;
    let e1: int = e0 + 1 + d1.len();
    let e2: int = e1 + 7 + d2.len();
    let e3: int = e2 + 1 + d3.len();
    assert(s =~= head_text() + d0 + comma_text() + d1 + middle_text() + d2 + comma_text() + d3
        + tail_text());
    assert(s.subrange(0, 6) =~= head_text());
    assert(s.subrange(6, e0) =~= d0);
    assert(s.subrange(e0, e0 + 1) =~= comma_text());
    assert(s.subrange(e0 + 1, e1) =~= d1);
    assert(s.subrange(e1, e1 + 7) =~= middle_text());
    assert(s.subrange(e1 + 7, e2) =~= d2);
    assert(s.subrange(e2, e2 + 1) =~= comma_text());
    assert(s.subrange(e2 + 1, e3) =~= d3);
    assert(s.subrange(e3, e3 + 2) =~= tail_text());
    assert(s[e0] == ',' && s[e1] == ']' && s[e2] == ',' && s[e3] == ']');
}

/// The position just past `lit` where `text` holds it at `pos`; nothing
/// otherwise.
fn expect_text(text: &str, n: usize, pos: usize, lit: &str) -> (r: Option<usize>)
    requires
        n == text@.len(),
        pos <= n,
    ensures
        r == (if pos + lit@.len() <= n && text@.subrange(pos as int, pos + lit@.len()) == lit@ {
            Some((pos + lit@.len()) as usize)
        } else {
            None
        }),
{
    let m = lit.unicode_len();
    if m > n - pos {
        return None;
    }
    let mut j: usize = 0;
    while j < m
        invariant
            j <= m,
            m == lit@.len(),
            pos + m <= n,
            n == text@.len(),
            forall|i: int| 0 <= i < j ==> text@[pos + i] == lit@[i],
        decreases m - j,
    {
        if text.get_char(pos + j) != lit.get_char(j) {
            proof {
                assert(text@.subrange(pos as int, pos + m)[j as int] == text@[pos + j]);
            }
            return None;
        }
        j = j + 1;
    }
    proof {
        assert(text@.subrange(pos as int, pos + m) =~= lit@);
    }
    Some(pos + m)
}

impl PartialEq for Chunk {
    fn eq(&self, o: &Chunk) -> (r: bool) {
        self.r.0 == o.r.0 && self.r.1 == o.r.1 && self.b.0 == o.b.0 && self.b.1 == o.b.1
    }
}

impl vstd::std_specs::cmp::PartialEqSpecImpl for Chunk {
    open spec fn obeys_eq_spec() -> bool {
        true
    }

    open spec fn eq_spec(&self, o: &Chunk) -> bool {
        *self == *o
    }
}

impl Eq for Chunk {

}

impl Chunk {
    /// The chunk whose JSON record `text` is; nothing where `text` is not the
    /// record of any chunk.
    #[verifier::rlimit(100)]
    #[verifier::spinoff_prover]
    pub fn decode(text: &str) -> (r: Option<Chunk>)
        ensures
            r == decoded(text@),
    {
        let ghost s = text@;
        proof {
            reveal_strlit("{\"r\":[");
            reveal_strlit(",");
            reveal_strlit("],\"b\":[");
            reveal_strlit("]}");
            assert("{\"r\":["@ =~= head_text());
            assert(","@ =~= comma_text());
            assert("],\"b\":["@ =~= middle_text());
            assert("]}"@ =~= tail_text());
        }
        let n = text.unicode_len();
        let p0 = match expect_text(text, n, 0, "{\"r\":[") {
            Some(p) => p,
            None => {
                proof {
                    assert forall|c: Chunk| record_text(c) != s by {
                        lemma_record_layout(c);
                    }
                }
                return None;
            },
        };
        let (a, p1) = match parse_number(text, n, p0) {
            Some(t) => t,
            None => {
                proof {
                    assert forall|c: Chunk| record_text(c) != s by {
                        lemma_record_layout(c);
                    }
                }
                return None;
            },
        };
        let p2 = match expect_text(text, n, p1, ",") {
            Some(p) => p,
            None => {
                proof {
                    assert forall|c: Chunk| record_text(c) != s by {
                        if record_text(c) == s {
                            lemma_record_layout(c);
                            lemma_number_at_unique(s, 6, a as nat, c.r.0 as nat);
                        }
                    }
                }
                return None;
            },
        };
        let (b, p3) = match parse_number(text, n, p2) {
            Some(t) => t,
            None => {
                proof {
                    assert forall|c: Chunk| record_text(c) != s by {
                        if record_text(c) == s {
                            lemma_record_layout(c);
                            lemma_number_at_unique(s, 6, a as nat, c.r.0 as nat);
                        }
                    }
                }
                return None;
            },
        };
        let p4 = match expect_text(text, n, p3, "],\"b\":[") {
            Some(p) => p,
            None => {
                proof {
                    assert forall|c: Chunk| record_text(c) != s by {
                        if record_text(c) == s {
                            lemma_record_layout(c);
                            lemma_number_at_unique(s, 6, a as nat, c.r.0 as nat);
                            lemma_number_at_unique(s, p2 as int, b as nat, c.r.1 as nat);
                        }
                    }
                }
                return None;
            },
        };
        let (x, p5) = match parse_number(text, n, p4) {
            Some(t) => t,
            None => {
                proof {
                    assert forall|c: Chunk| record_text(c) != s by {
                        if record_text(c) == s {
                            lemma_record_layout(c);
                            lemma_number_at_unique(s, 6, a as nat, c.r.0 as nat);
                            lemma_number_at_unique(s, p2 as int, b as nat, c.r.1 as nat);
                        }
                    }
                }
                return None;
            },
        };
        let p6 = match expect_text(text, n, p5, ",") {
            Some(p) => p,
            None => {
                proof {
                    assert forall|c: Chunk| record_text(c) != s by {
                        if record_text(c) == s {
                            lemma_record_layout(c);
                            lemma_number_at_unique(s, 6, a as nat, c.r.0 as nat);
                            lemma_number_at_unique(s, p2 as int, b as nat, c.r.1 as nat);
                            lemma_number_at_unique(s, p4 as int, x as nat, c.b.0 as nat);
                        }
                    }
                }
                return None;
            },
        };
        let (y, p7) = match parse_number(text, n, p6) {
            Some(t) => t,
            None => {
                proof {
                    assert forall|c: Chunk| record_text(c) != s by {
                        if record_text(c) == s {
                            lemma_record_layout(c);
                            lemma_number_at_unique(s, 6, a as nat, c.r.0 as nat);
                            lemma_number_at_unique(s, p2 as int, b as nat, c.r.1 as nat);
                            lemma_number_at_unique(s, p4 as int, x as nat, c.b.0 as nat);
                        }
                    }
                }
                return None;
            },
        };
        let p8 = match expect_text(text, n, p7, "]}") {
            Some(p) => p,
            None => {
                proof {
                    assert forall|c: Chunk| record_text(c) != s by {
                        if record_text(c) == s {
                            lemma_record_layout(c);
                            lemma_number_at_unique(s, 6, a as nat, c.r.0 as nat);
                            lemma_number_at_unique(s, p2 as int, b as nat, c.r.1 as nat);
                            lemma_number_at_unique(s, p4 as int, x as nat, c.b.0 as nat);
                            lemma_number_at_unique(s, p6 as int, y as nat, c.b.1 as nat);
                        }
                    }
                }
                return None;
            },
        };
        if p8 != n {
            proof {
                assert forall|c: Chunk| record_text(c) != s by {
                    if record_text(c) == s {
                        lemma_record_layout(c);
                        lemma_number_at_unique(s, 6, a as nat, c.r.0 as nat);
                        lemma_number_at_unique(s, p2 as int, b as nat, c.r.1 as nat);
                        lemma_number_at_unique(s, p4 as int, x as nat, c.b.0 as nat);
                        lemma_number_at_unique(s, p6 as int, y as nat, c.b.1 as nat);
                    }
                }
            }
            return None;
        }
        let chunk = Chunk { r: (a, b), b: (x, y) };
        proof {
            assert(s =~= s.subrange(0, 6) + s.subrange(6, p1 as int) + s.subrange(p1 as int, p2 as int)
                + s.subrange(p2 as int, p3 as int) + s.subrange(p3 as int, p4 as int) + s.subrange(
                p4 as int,
                p5 as int,
            ) + s.subrange(p5 as int, p6 as int) + s.subrange(p6 as int, p7 as int) + s.subrange(
                p7 as int,
                p8 as int,
            ));
            assert(s =~= record_text(chunk));
            lemma_round_trip(chunk);
        }
        Some(chunk)
    }

    /// The JSON record of this chunk.
    pub fn encode(&self) -> (r: String)
        ensures
            r@ == record_text(*self),
    {
        let mut s = String::new();
        s.append("{\"r\":[");
        s.append(number_text(self.r.0).as_str());
        s.append(",");
        s.append(number_text(self.r.1).as_str());
        s.append("],\"b\":[");
        s.append(number_text(self.b.0).as_str());
        s.append(",");
        s.append(number_text(self.b.1).as_str());
        s.append("]}");
        proof {
            reveal_strlit("{\"r\":[");
            reveal_strlit(",");
            reveal_strlit("],\"b\":[");
            reveal_strlit("]}");
            assert(s@ =~= record_text(*self));
        }
        s
    }
}

/// The JSON array of the records of `chunks`, in order.
pub fn encode_chunks(chunks: &[Chunk]) -> (r: String)
    ensures
        r@ == array_text(chunks@),
{
    let mut s = String::new();
    s.append("[");
    proof {
        reveal_strlit("[");
        assert(records_text(chunks@.subrange(0, 0)) =~= Seq::<char>::empty());
        assert(s@ =~= seq!['['] + records_text(chunks@.subrange(0, 0)));
    }
    let mut i: usize = 0;
    while i < chunks.len()
        invariant
            0 <= i <= chunks@.len(),
            s@ == seq!['['] + records_text(chunks@.subrange(0, i as int)),
        decreases chunks@.len() - i,
    {
        proof {
            reveal_strlit("[");
            reveal_strlit(",");
        }
        let ghost before = s@;
        if i > 0 {
            s.append(",");
        }
        s.append(chunks[i].encode().as_str());
        proof {
            let cs = chunks@.subrange(0, i + 1);
            assert(cs.drop_last() =~= chunks@.subrange(0, i as int));
            if i == 0 {
                assert(records_text(chunks@.subrange(0, 0)) =~= Seq::<char>::empty());
            }
            assert(s@ =~= seq!['['] + records_text(cs));
        }
        i = i + 1;
    }
    s.append("]");
    proof {
        reveal_strlit("[");
        reveal_strlit("]");
        assert(chunks@.subrange(0, chunks@.len() as int) =~= chunks@);
        assert(s@ =~= array_text(chunks@));
    }
    s
}

} // verus!
