//! Output chunking: the size policy and the rollover bookkeeping of a chunked sink.

use vstd::prelude::*;
use vstd::arithmetic::div_mod::{lemma_basic_div, lemma_div_plus_one, lemma_mod_add_multiples_vanish, lemma_small_mod};

use crate::text::{chars_of, decimal_chars, decimal_text, string_of, append_chars};

verus! {

/// What a chunk threshold counts.
#[derive(Debug, Clone, Copy, PartialEq, Eq, Structural)]
pub enum ChunkUnit {
    Bytes,
    Lines,
}

/// A rollover threshold: `value` bytes or `value` records per chunk.
#[derive(Debug, Clone, Copy, PartialEq, Eq, Structural)]
pub struct ChunkInfo {
    pub value: usize,
    pub unit: ChunkUnit,
}

/// Why a chunk size text was refused.
#[derive(Debug, Clone, Copy, PartialEq, Eq, Structural)]
pub enum ChunkError {
    /// Something other than digits followed by lower-case letters.
    Malformed,
    /// No digits, or a number beyond `usize`.
    BadNumber,
    /// The number times the unit's multiplier is beyond `usize`.
    TooLarge,
    /// A suffix other than `b`, `kb`, `mb`, `gb` or `ln`.
    UnknownSuffix,
}

pub open spec fn is_digit(c: char) -> bool {
    '0' <= c <= '9'
}

pub open spec fn is_lower(c: char) -> bool {
    'a' <= c <= 'z'
}

/// End of the run of digits that starts at `i`.
pub open spec fn digits_end(s: Seq<char>, i: int) -> int
    decreases s.len() - i,
{
    if 0 <= i < s.len() && is_digit(s[i]) {
        digits_end(s, i + 1)
    } else {
        i
    }
}

/// End of the run of lower-case ASCII letters that starts at `i`.
pub open spec fn lowers_end(s: Seq<char>, i: int) -> int
    decreases s.len() - i,
{
    if 0 <= i < s.len() && is_lower(s[i]) {
        lowers_end(s, i + 1)
    } else {
        i
    }
}

pub open spec fn digit_value(c: char) -> nat {
    (c as u32 - '0' as u32) as nat
}

/// The number that a string of decimal digits writes.
pub open spec fn decimal_value(s: Seq<char>) -> nat
    decreases s.len(),
{
    if s.len() == 0 {
        0
    } else {
        decimal_value(s.drop_last()) * 10 + digit_value(s.last())
    }
}

/// The multiplier of a byte suffix, if `suffix` is one.
pub open spec fn byte_multiplier(suffix: Seq<char>) -> Option<nat> {
    if suffix == seq!['b'] {
        Some(1)
    } else if suffix == seq!['k', 'b'] {
        Some(1024)
    } else if suffix == seq!['m', 'b'] {
        Some(1024 * 1024)
    } else if suffix == seq!['g', 'b'] {
        Some(1024 * 1024 * 1024)
    } else {
        None
    }
}

/// What a chunk size text such as `20kb` or `1000ln` means.
pub open spec fn chunk_spec(s: Seq<char>) -> Result<ChunkInfo, ChunkError> {
    let d = digits_end(s, 0);
    let e = lowers_end(s, d);
    let n = decimal_value(s.subrange(0, d));
    let suffix = s.subrange(d, e);
    if e < s.len() {
        Err(ChunkError::Malformed)
    } else if d == 0 || n > usize::MAX {
        Err(ChunkError::BadNumber)
    } else if suffix == seq!['l', 'n'] {
        Ok(ChunkInfo { value: n as usize, unit: ChunkUnit::Lines })
    } else if byte_multiplier(suffix) is Some {
        let total = n * byte_multiplier(suffix)->Some_0;
        if total > usize::MAX {
            Err(ChunkError::TooLarge)
        } else {
            Ok(ChunkInfo { value: total as usize, unit: ChunkUnit::Bytes })
        }
    } else {
        Err(ChunkError::UnknownSuffix)
    }
}

proof fn lemma_digits_end(s: Seq<char>, i: int)
    requires
        0 <= i <= s.len(),
    ensures
        i <= digits_end(s, i) <= s.len(),
    decreases s.len() - i,
{
    if i < s.len() && is_digit(s[i]) {
        lemma_digits_end(s, i + 1);
    }
}

proof fn lemma_lowers_end(s: Seq<char>, i: int)
    requires
        0 <= i <= s.len(),
    ensures
        i <= lowers_end(s, i) <= s.len(),
    decreases s.len() - i,
{
    if i < s.len() && is_lower(s[i]) {
        lemma_lowers_end(s, i + 1);
    }
}

fn span_is(s: &Vec<char>, from: usize, to: usize, first: char, second: Option<char>) -> (r: bool)
    requires
        from <= to <= s@.len(),
    ensures
        r == (s@.subrange(from as int, to as int) == match second {
            Some(c) => seq![first, c],
            None => seq![first],
        }),
{
    let ghost want = match second {
        Some(c) => seq![first, c],
        None => seq![first],
    };
    let len: usize = match second {
        Some(_) => 2,
        None => 1,
    };
    if to - from != len {
        proof {
            assert(s@.subrange(from as int, to as int).len() != want.len());
        }
        return false;
    }
    if s[from] != first {
        proof {
            assert(s@.subrange(from as int, to as int)[0] != want[0]);
        }
        return false;
    }
    match second {
        Some(c) => {
            if s[from + 1] != c {
                proof {
                    assert(s@.subrange(from as int, to as int)[1] != want[1]);
                }
                return false;
            }
        },
        None => {},
    }
    proof {
        assert(s@.subrange(from as int, to as int) =~= want);
    }
    true
}

impl ChunkInfo {
    /// Reads a chunk size: decimal digits, then a unit suffix (`b`, `kb`, `mb`, `gb` for
    /// bytes, `ln` for records), and nothing else.
    pub fn parse(raw: &str) -> (r: Result<ChunkInfo, ChunkError>)
        ensures
            r == chunk_spec(raw@),
    {
        let s = chars_of(raw);
        let n = s.len();
        let mut i: usize = 0;
        let mut value: usize = 0;
        let mut overflow = false;
        while i < n && '0' <= s[i] && s[i] <= '9'
            invariant
                n == s@.len(),
                0 <= i <= n,
                digits_end(s@, i as int) == digits_end(s@, 0),
                !overflow ==> value == decimal_value(s@.subrange(0, i as int)),
                overflow ==> decimal_value(s@.subrange(0, i as int)) > usize::MAX,
            decreases n - i,
        {
            let d = (s[i] as u32 - '0' as u32) as usize;
            proof {
                let p = s@.subrange(0, i as int + 1);
                assert(p.drop_last() =~= s@.subrange(0, i as int));
                assert(decimal_value(p) == decimal_value(s@.subrange(0, i as int)) * 10 + d);
            }
            if !overflow {
                if value > (usize::MAX - d) / 10 {
                    overflow = true;
                    proof {
                        assert(value * 10 + d > usize::MAX) by (nonlinear_arith)
                            requires
                                value > (usize::MAX - d) / 10,
                                d < 10,
                        ;
                    }
                } else {
                    proof {
                        assert(value * 10 + d <= usize::MAX) by (nonlinear_arith)
                            requires
                                value <= (usize::MAX - d) / 10,
                                d < 10,
                        ;
                    }
                    value = value * 10 + d;
                }
            }
            i = i + 1;
        }
        let d_end = i;
        proof {
            lemma_digits_end(s@, 0);
        }
        while i < n && 'a' <= s[i] && s[i] <= 'z'
            invariant
                n == s@.len(),
                d_end <= i <= n,
                lowers_end(s@, i as int) == lowers_end(s@, d_end as int),
            decreases n - i,
        {
            i = i + 1;
        }
        proof {
            lemma_lowers_end(s@, d_end as int);
        }
        if i < n {
            return Err(ChunkError::Malformed);
        }
        if d_end == 0 || overflow {
            return Err(ChunkError::BadNumber);
        }
        if span_is(&s, d_end, i, 'l', Some('n')) {
            return Ok(ChunkInfo { value, unit: ChunkUnit::Lines });
        }
        let multiplier: usize;
        if span_is(&s, d_end, i, 'b', None) {
            multiplier = 1;
        } else if span_is(&s, d_end, i, 'k', Some('b')) {
            multiplier = 1024;
        } else if span_is(&s, d_end, i, 'm', Some('b')) {
            multiplier = 1024 * 1024;
        } else if span_is(&s, d_end, i, 'g', Some('b')) {
            multiplier = 1024 * 1024 * 1024;
        } else {
            return Err(ChunkError::UnknownSuffix);
        }
        match value.checked_mul(multiplier) {
            Some(total) => Ok(ChunkInfo { value: total, unit: ChunkUnit::Bytes }),
            None => Err(ChunkError::TooLarge),
        }
    }
}

/// The extension of a chunk file: `.log.gz` with gzip framing, `.log` without.
pub open spec fn chunk_extension(zipped: bool) -> Seq<char> {
    if zipped {
        seq!['.', 'l', 'o', 'g', '.', 'g', 'z']
    } else {
        seq!['.', 'l', 'o', 'g']
    }
}

/// The file name of chunk `index`: `<base>.<index><ext>`.
pub open spec fn chunk_file_name(base: Seq<char>, index: nat, zipped: bool) -> Seq<char> {
    base + seq!['.'] + decimal_text(index) + chunk_extension(zipped)
}

/// One end of line: the count of the chunk goes up by one (the newline byte, or the
/// record); when it reaches `threshold` the chunk rolls over and the count restarts.
/// Gives the new count and whether a rollover happened.
pub open spec fn line_step(threshold: nat, written: nat) -> (nat, bool) {
    if written + 1 >= threshold {
        (0, true)
    } else {
        (written + 1, false)
    }
}

/// `k` ends of line in a row from count `written`: the number of rollovers and the
/// count left in the last chunk.
pub open spec fn lines_from(threshold: nat, written: nat, k: nat) -> (nat, nat)
    decreases k,
{
    if k == 0 {
        (0, written)
    } else {
        let (next, rolled) = line_step(threshold, written);
        let (rollovers, left) = lines_from(threshold, next, (k - 1) as nat);
        (rollovers + if rolled { 1nat } else { 0nat }, left)
    }
}

/// Rollover bookkeeping of an output split into numbered chunk files.
///
/// The writer decides; whoever holds the files opens `file_name()` at the start and
/// again after every `end_line` that returns `true`, closing the previous file first.
pub struct ChunkedWriter {
    base_path: String,
    chunk_info: ChunkInfo,
    zipped: bool,
    chunk_index: usize,
    written: usize,
}

impl ChunkedWriter {
    pub closed spec fn spec_base(&self) -> Seq<char> {
        self.base_path@
    }

    pub closed spec fn spec_info(&self) -> ChunkInfo {
        self.chunk_info
    }

    pub closed spec fn spec_zipped(&self) -> bool {
        self.zipped
    }

    /// Index of the chunk being written, from 0.
    pub closed spec fn spec_index(&self) -> nat {
        self.chunk_index as nat
    }

    /// Bytes (or records) counted in the chunk being written.
    pub closed spec fn spec_written(&self) -> nat {
        self.written as nat
    }

    /// A writer at chunk 0 with nothing counted.
    pub fn new(base_path: String, chunk_info: ChunkInfo, zipped: bool) -> (r: ChunkedWriter)
        ensures
            r.spec_base() == base_path@,
            r.spec_info() == chunk_info,
            r.spec_zipped() == zipped,
            r.spec_index() == 0,
            r.spec_written() == 0,
    {
        ChunkedWriter { base_path, chunk_info, zipped, chunk_index: 0, written: 0 }
    }

    pub fn chunk_index(&self) -> (r: usize)
        ensures
            r == self.spec_index(),
    {
        self.chunk_index
    }

    pub fn written(&self) -> (r: usize)
        ensures
            r == self.spec_written(),
    {
        self.written
    }

    pub fn chunk_info(&self) -> (r: ChunkInfo)
        ensures
            r == self.spec_info(),
    {
        self.chunk_info
    }

    pub fn zipped(&self) -> (r: bool)
        ensures
            r == self.spec_zipped(),
    {
        self.zipped
    }

    /// The name of the file that the current chunk goes to.
    pub fn file_name(&self) -> (r: String)
        ensures
            r@ == chunk_file_name(self.spec_base(), self.spec_index(), self.spec_zipped()),
    {
        let mut name = chars_of(self.base_path.as_str());
        name.push('.');
        let digits = decimal_chars(self.chunk_index);
        append_chars(&mut name, &digits);
        name.push('.');
        name.push('l');
        name.push('o');
        name.push('g');
        if self.zipped {
            name.push('.');
            name.push('g');
            name.push('z');
        }
        proof {
            assert(name@ =~= chunk_file_name(self.spec_base(), self.spec_index(), self.spec_zipped()));
        }
        string_of(&name)
    }

    /// Records that `n` bytes went to the current chunk; they count toward a byte threshold.
    pub fn write(&mut self, n: usize)
        requires
            old(self).spec_info().unit == ChunkUnit::Bytes ==> old(self).spec_written() + n <= usize::MAX,
        ensures
            final(self).spec_base() == old(self).spec_base(),
            final(self).spec_info() == old(self).spec_info(),
            final(self).spec_zipped() == old(self).spec_zipped(),
            final(self).spec_index() == old(self).spec_index(),
            final(self).spec_written() == if old(self).spec_info().unit == ChunkUnit::Bytes {
                old(self).spec_written() + n
            } else {
                old(self).spec_written() as int
            },
    {
        if let ChunkUnit::Bytes = self.chunk_info.unit {
            self.written = self.written + n;
        }
    }

    /// Records the end of a line (its newline byte, or one record); returns `true` when the
    /// threshold was reached and a new chunk begins.
    pub fn end_line(&mut self) -> (rolled: bool)
        requires
            old(self).spec_written() < usize::MAX,
            old(self).spec_index() < usize::MAX,
        ensures
            final(self).spec_base() == old(self).spec_base(),
            final(self).spec_info() == old(self).spec_info(),
            final(self).spec_zipped() == old(self).spec_zipped(),
            (final(self).spec_written(), rolled) == line_step(
                old(self).spec_info().value as nat,
                old(self).spec_written(),
            ),
            final(self).spec_index() == old(self).spec_index() + if rolled { 1nat } else { 0nat },
    {
        self.written = self.written + 1;
        if self.written >= self.chunk_info.value {
            self.chunk_index = self.chunk_index + 1;
            self.written = 0;
            true
        } else {
            false
        }
    }
}

proof fn lemma_lines_from(t: nat, w: nat, k: nat)
    requires
        t > 0,
        w < t,
    ensures
        lines_from(t, w, k).0 == (w + k) as int / (t as int),
        lines_from(t, w, k).1 == (w + k) as int % (t as int),
    decreases k,
{
    if k > 0 {
        if w + 1 >= t {
            lemma_lines_from(t, 0, (k - 1) as nat);
            assert(w + k == t + (k - 1));
            lemma_div_plus_one(k - 1, t as int);
            lemma_mod_add_multiples_vanish(k - 1, t as int);
        } else {
            lemma_lines_from(t, w + 1, (k - 1) as nat);
        }
    } else {
        lemma_small_mod(w, t);
        lemma_basic_div(w as int, t as int);
    }
}

/// With a record threshold of `t`, `k` records written into a fresh chunk cause exactly
/// `k / t` rollovers, one per `t` records, and leave `k % t` records in the last chunk.
pub proof fn lemma_record_rollovers(t: nat, k: nat)
    requires
        t > 0,
    ensures
        lines_from(t, 0, k).0 == k / t,
        lines_from(t, 0, k).1 == k % t,
{
    lemma_lines_from(t, 0, k);
}

/// With a byte threshold of `t`, a line ends a chunk exactly when the bytes counted in
/// it, its newline included, reach `t`; one byte short, it does not.
pub proof fn lemma_byte_rollover(t: nat, counted: nat)
    ensures
        line_step(t, counted).1 <==> counted + 1 >= t,
        counted + 1 == t ==> line_step(t, counted).1,
        counted + 2 == t ==> !line_step(t, counted).1,
{
}

} // verus!
