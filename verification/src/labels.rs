//! The optional lookup table pairing stream-name hashes with display
//! labels.  It serves readability of the textual mirror only: decoding and
//! encoding never depend on it.

use vstd::prelude::*;

use crate::codec::Error;
use crate::dec::{dec_value, digits_end, find_line_end, line_end, parse_u64_at};

verus! {

/// One known hash together with its display name.
#[derive(Debug, Clone, PartialEq, Eq)]
pub struct LabelPair {
    /// The hashed stream name.
    pub id: u64,
    /// The display name, as text bytes.
    pub name: Vec<u8>,
}

impl View for LabelPair {
    type V = (u64, Seq<u8>);

    open spec fn view(&self) -> (u64, Seq<u8>) {
        (self.id, self.name@)
    }
}

/// The hash-to-name table, in file order.
#[derive(Debug, Clone, PartialEq, Eq)]
pub struct LabelTable {
    /// The pairs, in the order the label file listed them.
    pub pairs: Vec<LabelPair>,
}

impl View for LabelTable {
    type V = Seq<(u64, Seq<u8>)>;

    open spec fn view(&self) -> Seq<(u64, Seq<u8>)> {
        self.pairs@.map_values(|p: LabelPair| p@)
    }
}

/// The name of the first pair holding `id`, if any pair does.
pub open spec fn lookup_spec(labels: Seq<(u64, Seq<u8>)>, id: u64) -> Option<Seq<u8>>
    decreases labels.len(),
{
    if labels.len() == 0 {
        Option::None
    } else if labels[0].0 == id {
        Option::Some(labels[0].1)
    } else {
        lookup_spec(labels.skip(1), id)
    }
}

/// A name the lookup hands back is the name of one of the table's pairs.
pub proof fn lemma_lookup_from_table(labels: Seq<(u64, Seq<u8>)>, id: u64)
    ensures
        lookup_spec(labels, id) matches Option::Some(name) ==> exists|i: int|
            0 <= i < labels.len() && #[trigger] labels[i].1 == name,
    decreases labels.len(),
{
    if labels.len() > 0 && labels[0].0 != id {
        lemma_lookup_from_table(labels.skip(1), id);
        if lookup_spec(labels, id) is Some {
            let name = lookup_spec(labels, id)->Some_0;
            let i = choose|i: int| 0 <= i < labels.skip(1).len() && #[trigger] labels.skip(
                1,
            )[i].1 == name;
            assert(labels[i + 1].1 == name);
        }
    }
}

/// The pair a label line spells: digits, a comma, then the name running to
/// the end of the line.  A line of any other shape yields no pair.
pub open spec fn line_label(b: Seq<u8>, pos: int, e: int) -> Option<(u64, Seq<u8>)> {
    let de = digits_end(b, pos);
    if de == pos {
        Option::None
    } else if dec_value(b, pos, de) > u64::MAX {
        Option::None
    } else if de < e && b[de] == 44 {
        Option::Some((dec_value(b, pos, de) as u64, b.subrange(de + 1, e)))
    } else {
        Option::None
    }
}

/// The pairs of a label text: one candidate pair per line, lines that do
/// not spell a pair skipped.
pub open spec fn labels_spec(b: Seq<u8>, pos: int) -> Seq<(u64, Seq<u8>)>
    decreases b.len() - pos,
    via labels_spec_dec
{
    if pos < 0 || pos >= b.len() {
        Seq::empty()
    } else {
        let e = line_end(b, pos);
        let rest = if e < b.len() {
            labels_spec(b, e + 1)
        } else {
            Seq::empty()
        };
        match line_label(b, pos, e) {
            Option::Some(p) => seq![p] + rest,
            Option::None => rest,
        }
    }
}

#[via_fn]
proof fn labels_spec_dec(b: Seq<u8>, pos: int) {
    if 0 <= pos < b.len() {
        crate::dec::lemma_line_end(b, pos);
    }
}

impl LabelTable {
    /// Builds an empty table: every lookup misses.
    pub fn new() -> (r: LabelTable)
        ensures
            r@ =~= Seq::<(u64, Seq<u8>)>::empty(),
    {
        let r = LabelTable { pairs: Vec::new() };
        proof {
            assert(r@ =~= Seq::<(u64, Seq<u8>)>::empty());
        }
        r
    }

    /// Looks up the display name of `id`: the first matching pair wins.
    pub fn lookup(&self, id: u64) -> (r: Option<&Vec<u8>>)
        ensures
            match r {
                Option::Some(v) => lookup_spec(self@, id) == Option::Some(v@),
                Option::None => lookup_spec(self@, id) is None,
            },
    {
        let n = self.pairs.len();
        let mut i: usize = 0;
        proof {
            assert(self@.skip(0) =~= self@);
        }
        while i < n
            invariant
                i <= n,
                n == self.pairs@.len(),
                lookup_spec(self@, id) == lookup_spec(self@.skip(i as int), id),
                forall|j: int| 0 <= j < i ==> (#[trigger] self.pairs@[j]).id != id,
            decreases n - i,
        {
            if self.pairs[i].id == id {
                proof {
                    assert(self@.skip(i as int)[0] == self.pairs@[i as int]@);
                }
                return Option::Some(&self.pairs[i].name);
            }
            proof {
                assert(self@.skip(i as int)[0] == self.pairs@[i as int]@);
                assert(self@.skip(i as int).skip(1) =~= self@.skip(i as int + 1));
            }
            i = i + 1;
        }
        proof {
            assert(self@.skip(n as int) =~= Seq::<(u64, Seq<u8>)>::empty());
        }
        Option::None
    }
}

/// Parses a label text: each line of the form `hash,name` contributes a
/// pair, every other line is skipped.  Parsing never fails, so a malformed
/// or absent label file only disables annotation.
pub fn parse_labels(b: &[u8]) -> (r: LabelTable)
    ensures
        r@ == labels_spec(b@, 0),
{
    let blen: usize = b.len();
    let mut pairs: Vec<LabelPair> = Vec::new();
    let mut pos: usize = 0;
    while pos < blen
        invariant
            pos <= blen,
            blen == b@.len(),
            labels_spec(b@, 0) == pairs@.map_values(|p: LabelPair| p@) + labels_spec(
                b@,
                pos as int,
            ),
        decreases blen - pos,
    {
        let ghost pairs0 = pairs@.map_values(|p: LabelPair| p@);
        let e = find_line_end(b, pos);
        match parse_u64_at(b, pos) {
            Result::Ok((v, de)) => {
                if de < e && b[de] == 44 {
                    let mut name: Vec<u8> = Vec::new();
                    let mut k: usize = de + 1;
                    while k < e
                        invariant
                            de + 1 <= k <= e,
                            e <= blen,
                            blen == b@.len(),
                            name@ == b@.subrange(de + 1, k as int),
                        decreases e - k,
                    {
                        name.push(b[k]);
                        proof {
                            assert(name@ =~= b@.subrange(de + 1, k as int + 1));
                        }
                        k = k + 1;
                    }
                    pairs.push(LabelPair { id: v, name });
                    proof {
                        assert(line_label(b@, pos as int, e as int) == Option::Some(
                            (v, b@.subrange(de + 1, e as int)),
                        ));
                        assert(pairs@.map_values(|p: LabelPair| p@) =~= pairs0 + seq![
                            (v, b@.subrange(de + 1, e as int)),
                        ]);
                    }
                } else {
                    proof {
                        assert(line_label(b@, pos as int, e as int) is None);
                    }
                }
            },
            Result::Err(_) => {
                proof {
                    assert(line_label(b@, pos as int, e as int) is None);
                }
            },
        }
        proof {
            let rest = if e < blen {
                labels_spec(b@, e as int + 1)
            } else {
                Seq::<(u64, Seq<u8>)>::empty()
            };
            match line_label(b@, pos as int, e as int) {
                Option::Some(p) => {
                    assert(labels_spec(b@, pos as int) == seq![p] + rest);
                    assert(pairs0 + (seq![p] + rest) =~= (pairs0 + seq![p]) + rest);
                },
                Option::None => {
                    assert(labels_spec(b@, pos as int) == rest);
                },
            }
        }
        if e < blen {
            pos = e + 1;
        } else {
            pos = blen;
            proof {
                assert(labels_spec(b@, blen as int) =~= Seq::<(u64, Seq<u8>)>::empty());
                assert(pairs@.map_values(|p: LabelPair| p@) + labels_spec(b@, blen as int)
                    =~= pairs@.map_values(|p: LabelPair| p@));
            }
        }
    }
    proof {
        assert(labels_spec(b@, pos as int) =~= Seq::<(u64, Seq<u8>)>::empty());
        assert(pairs@.map_values(|p: LabelPair| p@) + labels_spec(b@, pos as int)
            =~= pairs@.map_values(|p: LabelPair| p@));
    }
    LabelTable { pairs }
}

} // verus!
