//! The grid converter: a streaming pass over the lines of one SDF source
//! that skips the four header lines, parses every further line as a 16-bit
//! sample, fills the grid buffer in column-major order, tracks the running
//! minimum and maximum, and emits the fixed-layout binary output.

use vstd::prelude::*;

use crate::codec::{
    decode_words, encode_i16, encode_words, le_hi, le_lo, lemma_decode_encode_words,
    lemma_word_positions,
};
use crate::grid::{
    cell_index, grid_of, lemma_cell_index_involution, lemma_stats_push, max_sample, min_sample,
    BSDF_LEN, GRID_CELLS,
};
use crate::parse::{parse_i16, parse_i16_spec};

verus! {

/// Why a conversion failed.
#[derive(Debug, PartialEq, Eq)]
pub enum ConvError {
    /// A data line is not a well-formed 16-bit signed decimal integer.
    /// `line_no` is its 1-based position in the source, counting the four
    /// header lines; `text` is the offending line.
    Parse { line_no: usize, text: Vec<u8> },
    /// More data lines arrived than the grid has cells.
    TooManySamples,
}

/// The words of one output: every grid cell in buffer order, then the
/// minimum, then the maximum.
pub open spec fn bsdf_words(s: Seq<i16>) -> Seq<i16> {
    grid_of(s).push(min_sample(s)).push(max_sample(s))
}

/// The bytes of one output for the accepted samples `s`: the full grid,
/// two bytes per cell little endian, followed by the two trailer words.
pub open spec fn bsdf_bytes(s: Seq<i16>) -> Seq<u8> {
    encode_words(bsdf_words(s))
}

/// One in-progress conversion: the grid buffer, the fill position, the
/// number of header lines still to skip, and the running statistics.
pub struct Converter {
    grid: Vec<i16>,
    count: usize,
    header: u8,
    min: i16,
    max: i16,
    samples: Ghost<Seq<i16>>,
}

impl Converter {
    /// The samples accepted so far, in arrival order.
    pub closed spec fn samples(&self) -> Seq<i16> {
        self.samples@
    }

    /// How many header lines are still to be skipped.
    pub closed spec fn header_left(&self) -> int {
        self.header as int
    }

    /// How many lines have been consumed so far.
    pub open spec fn lines_seen(&self) -> int {
        4 - self.header_left() + self.samples().len()
    }

    /// The converter's invariant: the buffer has one cell per grid
    /// position, sample `k` stands at `cell_index(k)`, untouched cells are
    /// zero, and `min`/`max` are the running statistics of the samples.
    pub closed spec fn wf(&self) -> bool {
        &&& self.grid@ == grid_of(self.samples@)
        &&& self.count == self.samples@.len()
        &&& self.samples@.len() <= GRID_CELLS
        &&& self.header <= 4
        &&& self.min == min_sample(self.samples@)
        &&& self.max == max_sample(self.samples@)
    }

    /// A fresh converter: four header lines ahead, no sample yet, every
    /// cell zero.
    pub fn new() -> (c: Converter)
        ensures
            c.wf(),
            c.samples().len() == 0,
            c.header_left() == 4,
    {
        let mut g: Vec<i16> = Vec::with_capacity(GRID_CELLS);
        while g.len() < GRID_CELLS
            invariant
                g@.len() <= GRID_CELLS,
                forall|j: int| 0 <= j < g@.len() ==> g@[j] == 0i16,
            decreases GRID_CELLS - g@.len(),
        {
            g.push(0i16);
        }
        let c = Converter {
            grid: g,
            count: 0,
            header: 4,
            min: i16::MAX,
            max: i16::MIN,
            samples: Ghost(Seq::empty()),
        };
        proof {
            assert(c.grid@ =~= grid_of(c.samples@));
        }
        c
    }

    /// Consumes one line of the source. A header line is skipped without
    /// validation. A data line must parse as a 16-bit signed integer; it is
    /// then stored at the next column-major position and enters the
    /// statistics. A line that does not parse, or one sample more than the
    /// grid holds, fails and leaves the converter unchanged.
    pub fn push_line(&mut self, line: &[u8]) -> (r: Result<(), ConvError>)
        requires
            old(self).wf(),
        ensures
            final(self).wf(),
            old(self).header_left() > 0 ==> {
                &&& r is Ok
                &&& final(self).samples() == old(self).samples()
                &&& final(self).header_left() == old(self).header_left() - 1
            },
            old(self).header_left() == 0 ==> {
                &&& final(self).header_left() == 0
                &&& match parse_i16_spec(line@) {
                    Option::None => {
                        &&& final(self).samples() == old(self).samples()
                        &&& r matches Err(e) && e matches ConvError::Parse { line_no, text }
                            && line_no == old(self).lines_seen() + 1 && text@ == line@
                    },
                    Option::Some(v) => {
                        if old(self).samples().len() < GRID_CELLS {
                            &&& r is Ok
                            &&& final(self).samples() == old(self).samples().push(v)
                        } else {
                            &&& final(self).samples() == old(self).samples()
                            &&& r matches Err(e) && e is TooManySamples
                        }
                    },
                }
            },
    {
        if self.header > 0 {
            self.header = self.header - 1;
            return Ok(());
        }
        match parse_i16(line) {
            None => {
                let text = vstd::slice::slice_to_vec(line);
                Err(ConvError::Parse { line_no: self.count + 5, text })
            },
            Some(v) => {
                if self.count == GRID_CELLS {
                    return Err(ConvError::TooManySamples);
                }
                if v > self.max {
                    self.max = v;
                }
                if v < self.min {
                    self.min = v;
                }
                proof {
                    lemma_cell_index_involution(self.count as int);
                }
                let idx = (self.count % 1200) * 1200 + self.count / 1200;
                self.grid[idx] = v;
                proof {
                    lemma_stats_push(self.samples@, v);
                }
                self.samples = Ghost(self.samples@.push(v));
                self.count = self.count + 1;
                proof {
                    let s_old = old(self).samples@;
                    let s_new = self.samples@;
                    assert forall|j: int| 0 <= j < GRID_CELLS implies self.grid@[j] == grid_of(
                        s_new,
                    )[j] by {
                        lemma_cell_index_involution(j);
                        if j != idx {
                            assert(cell_index(j) != s_old.len()) by {
                                if cell_index(j) == s_old.len() {
                                    assert(j == cell_index(s_old.len() as int));
                                }
                            }
                            assert(self.grid@[j] == grid_of(s_old)[j]);
                        }
                    }
                    assert(self.grid@ =~= grid_of(s_new));
                }
                Ok(())
            },
        }
    }

    /// Emits the finished output: every cell of the grid as a little-endian
    /// byte pair in buffer order, then the minimum and the maximum.
    pub fn finish(&self) -> (r: Vec<u8>)
        requires
            self.wf(),
        ensures
            r@ == bsdf_bytes(self.samples()),
    {
        let ghost target = bsdf_words(self.samples@);
        let mut out: Vec<u8> = Vec::with_capacity(BSDF_LEN);
        let mut j: usize = 0;
        while j < GRID_CELLS
            invariant
                self.wf(),
                target == bsdf_words(self.samples@),
                j <= GRID_CELLS,
                out@.len() == 2 * j,
                forall|i: int| 0 <= i < out@.len() ==> out@[i] == (if i % 2 == 0 {
                    le_lo(target[i / 2])
                } else {
                    le_hi(target[i / 2])
                }),
            decreases GRID_CELLS - j,
        {
            let v = self.grid[j];
            proof {
                assert(target[j as int] == self.grid@[j as int]);
            }
            let (lo, hi) = encode_i16(v);
            let ghost out_pre = out@;
            out.push(lo);
            out.push(hi);
            proof {
                lemma_word_positions(j as int);
                assert forall|i: int| 0 <= i < out@.len() implies out@[i] == (if i % 2 == 0 {
                    le_lo(target[i / 2])
                } else {
                    le_hi(target[i / 2])
                }) by {
                    if i < out_pre.len() {
                        assert(out@[i] == out_pre[i]);
                    } else if i == 2 * j {
                        assert(out@[i] == lo);
                    } else {
                        assert(i == 2 * j + 1);
                        assert(out@[i] == hi);
                    }
                }
            }
            j = j + 1;
        }
        let (lo_min, hi_min) = encode_i16(self.min);
        let ghost out_a = out@;
        out.push(lo_min);
        out.push(hi_min);
        let (lo_max, hi_max) = encode_i16(self.max);
        out.push(lo_max);
        out.push(hi_max);
        proof {
            let c = GRID_CELLS as int;
            assert(target.len() == c + 2);
            assert(target[c] == min_sample(self.samples@));
            assert(target[c + 1] == max_sample(self.samples@));
            lemma_word_positions(c);
            lemma_word_positions(c + 1);
            assert forall|i: int| 0 <= i < out@.len() implies out@[i] == (if i % 2 == 0 {
                le_lo(target[i / 2])
            } else {
                le_hi(target[i / 2])
            }) by {
                if i < out_a.len() {
                    assert(out@[i] == out_a[i]);
                } else if i == 2 * c {
                    assert(out@[i] == lo_min);
                } else if i == 2 * c + 1 {
                    assert(out@[i] == hi_min);
                } else if i == 2 * c + 2 {
                    assert(out@[i] == lo_max);
                    assert(i == 2 * (c + 1));
                } else {
                    assert(i == 2 * c + 3);
                    assert(out@[i] == hi_max);
                    assert(i == 2 * (c + 1) + 1);
                }
            }
            assert(out@ =~= encode_words(target));
        }
        out
    }
}

/// Whether every data line among the first `n` lines parses as a sample.
pub open spec fn prefix_ok(lines: Seq<Vec<u8>>, n: int) -> bool {
    forall|j: int| 4 <= j < n ==> parse_i16_spec(#[trigger] lines[j]@) is Some
}

/// The samples the data lines of `lines` denote, assuming each parses.
pub open spec fn data_samples(lines: Seq<Vec<u8>>) -> Seq<i16> {
    Seq::new(
        if lines.len() >= 4 {
            (lines.len() - 4) as nat
        } else {
            0
        },
        |k: int| parse_i16_spec(lines[k + 4]@).unwrap(),
    )
}

/// Converts the lines of one SDF source into one BSDF output: the first
/// four lines are skipped, every further line must parse as a 16-bit
/// signed integer, and the result is the fixed-size binary image of the
/// grid those samples fill, with the minimum/maximum trailer. Fails on the
/// first line that does not parse, and when the data lines outnumber the
/// grid's cells.
pub fn convert_lines(lines: &Vec<Vec<u8>>) -> (r: Result<Vec<u8>, ConvError>)
    ensures
        match r {
            Ok(out) => {
                &&& lines@.len() <= 4 + GRID_CELLS
                &&& prefix_ok(lines@, lines@.len() as int)
                &&& out@ == bsdf_bytes(data_samples(lines@))
            },
            Err(e) => match e {
                ConvError::Parse { line_no, text } => {
                    &&& 4 <= line_no - 1 < lines@.len()
                    &&& line_no - 1 <= 4 + GRID_CELLS
                    &&& parse_i16_spec(lines@[line_no - 1]@) is None
                    &&& prefix_ok(lines@, line_no - 1)
                    &&& text@ == lines@[line_no - 1]@
                },
                ConvError::TooManySamples => {
                    &&& lines@.len() > 4 + GRID_CELLS
                    &&& prefix_ok(lines@, 4 + GRID_CELLS + 1)
                },
            },
        },
{
    let mut conv = Converter::new();
    let n = lines.len();
    let mut i: usize = 0;
    while i < n
        invariant
            conv.wf(),
            i <= n,
            n == lines@.len(),
            conv.header_left() == if i < 4 {
                4 - i
            } else {
                0
            },
            conv.samples() == data_samples(lines@.subrange(0, i as int)),
            conv.samples().len() == if i >= 4 {
                i - 4
            } else {
                0
            },
            prefix_ok(lines@, i as int),
        decreases n - i,
    {
        let ghost pre = conv;
        let line = &lines[i];
        let res = conv.push_line(line.as_slice());
        proof {
            let sub_old = lines@.subrange(0, i as int);
            let sub_new = lines@.subrange(0, i + 1);
            if i < 4 {
                assert(data_samples(sub_new).len() == 0);
                assert(conv.samples() =~= data_samples(sub_new));
            } else {
                match parse_i16_spec(lines@[i as int]@) {
                    Option::Some(v) => {
                        if pre.samples().len() < GRID_CELLS {
                            assert(data_samples(sub_new) =~= data_samples(sub_old).push(v)) by {
                                assert(forall|k: int| 0 <= k < i - 4 ==> sub_new[k + 4]
                                    == #[trigger] sub_old[k + 4]);
                                assert(sub_new[i - 4 + 4] == lines@[i as int]);
                            }
                        }
                    },
                    Option::None => {},
                }
            }
        }
        match res {
            Ok(()) => {},
            Err(e) => {
                return Err(e);
            },
        }
        i = i + 1;
    }
    proof {
        assert(lines@.subrange(0, n as int) =~= lines@);
    }
    let out = conv.finish();
    Ok(out)
}

/// The output has its fixed size, 2,880,004 bytes, whatever samples were
/// accepted.
pub proof fn lemma_bsdf_len(s: Seq<i16>)
    ensures
        bsdf_bytes(s).len() == BSDF_LEN,
{
}

/// Round trip: decoding the output's sample block and reading it back in
/// column-major fill order gives every parsed sample back exactly.
pub proof fn lemma_bsdf_round_trip(s: Seq<i16>, k: int)
    requires
        s.len() <= GRID_CELLS,
        0 <= k < s.len(),
    ensures
        decode_words(bsdf_bytes(s))[cell_index(k)] == s[k],
{
    lemma_decode_encode_words(bsdf_words(s));
    lemma_cell_index_involution(k);
    assert(bsdf_words(s)[cell_index(k)] == grid_of(s)[cell_index(k)]);
    assert(grid_of(s)[cell_index(k)] == s[k]);
}

/// The trailer holds the statistics: word 1,440,000 of the decoded output
/// is the running minimum, word 1,440,001 the running maximum.
pub proof fn lemma_bsdf_trailer(s: Seq<i16>)
    ensures
        decode_words(bsdf_bytes(s)).len() == GRID_CELLS + 2,
        decode_words(bsdf_bytes(s))[GRID_CELLS as int] == min_sample(s),
        decode_words(bsdf_bytes(s))[GRID_CELLS + 1] == max_sample(s),
{
    lemma_decode_encode_words(bsdf_words(s));
}

} // verus!
