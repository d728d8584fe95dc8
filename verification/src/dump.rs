//! Reading a whole terrain dump: the version header, then one patch record
//! per non-blank line.

use vstd::prelude::*;
use vstd::string::StringSliceAdditionalSpecFns;
use vstd::utf8::{
    encode_utf8, encode_utf8_valid_utf8, is_char_boundary_iff_not_is_continuation_byte,
    is_char_boundary_start_end_of_seq, valid_utf8_split,
};

use crate::entry::{spec_decode_line, ElevEntry, ElevEntryError, EntryErrView, EntryView};
use crate::lex::{is_ws, is_ws_byte};

verus! {

/// The std error type that file reading hands back; opaque to the proofs
/// here, carried through unchanged.
#[verifier::external_type_specification]
#[verifier::external_body]
pub struct ExIoError(std::io::Error);

/// Mathematical image of a dump read failure.
pub ghost enum DumpErrView {
    IoError,
    InvalidVersion(Seq<u8>),
    Entry(EntryErrView),
}

/// A failure to read a whole dump.
#[derive(Debug)]
pub enum ElevDumpError {
    /// The byte source failed; never produced by in-memory reads.
    IoError(std::io::Error),
    /// The first line was not the version marker; holds that line's text.
    InvalidVersion(String),
    /// A non-blank line failed to decode.
    ElevEntryError(ElevEntryError),
}

impl View for ElevDumpError {
    type V = DumpErrView;

    open spec fn view(&self) -> DumpErrView {
        match self {
            ElevDumpError::IoError(_) => DumpErrView::IoError,
            ElevDumpError::InvalidVersion(s) => DumpErrView::InvalidVersion(encode_utf8(s@)),
            ElevDumpError::ElevEntryError(e) => DumpErrView::Entry(e@),
        }
    }
}

/// An ordered collection of patch records, as read from one dump.
#[derive(Debug)]
pub struct ElevDump {
    pub entries: Vec<ElevEntry>,
}

impl View for ElevDump {
    type V = Seq<EntryView>;

    open spec fn view(&self) -> Seq<EntryView> {
        self.entries@.map_values(|e: ElevEntry| e@)
    }
}

/// The exact text the first line must hold, up to surrounding whitespace.
pub open spec fn spec_version_marker() -> Seq<u8> {
    "elevdump version 2".spec_bytes()
}

/// First index at or after `i` holding a newline byte, or the length.
pub open spec fn line_end_from(s: Seq<u8>, i: int) -> int
    recommends
        0 <= i <= s.len(),
    decreases s.len() - i when 0 <= i <= s.len()
{
    if i >= s.len() || s[i] == 0x0a {
        i
    } else {
        line_end_from(s, i + 1)
    }
}

pub proof fn lemma_line_end_from(s: Seq<u8>, i: int)
    requires
        0 <= i <= s.len(),
    ensures
        i <= line_end_from(s, i) <= s.len(),
        forall|j: int| i <= j < line_end_from(s, i) ==> s[j] != 0x0a,
        line_end_from(s, i) < s.len() ==> s[line_end_from(s, i)] == 0x0a,
    decreases s.len() - i,
{
    if i < s.len() && s[i] != 0x0a {
        lemma_line_end_from(s, i + 1);
    }
}

/// One line's content: the bytes before its newline, a trailing carriage
/// return stripped when the line was ended by a newline.
pub open spec fn line_content(s: Seq<u8>, i: int, k: int) -> Seq<u8> {
    let raw = s.subrange(i, k);
    if k < s.len() && raw.len() > 0 && raw.last() == 0x0d {
        raw.drop_last()
    } else {
        raw
    }
}

/// The lines of a byte sequence, split at newline bytes, the final empty
/// piece after a trailing newline dropped.
pub open spec fn lines_from(s: Seq<u8>, i: int) -> Seq<Seq<u8>>
    recommends
        0 <= i <= s.len() + 1,
    decreases s.len() + 1 - i when 0 <= i <= s.len() + 1 via lines_from_decreases
{
    if i >= s.len() {
        Seq::empty()
    } else {
        let k = line_end_from(s, i);
        seq![line_content(s, i, k)] + lines_from(s, k + 1)
    }
}

#[via_fn]
proof fn lines_from_decreases(s: Seq<u8>, i: int) {
    if 0 <= i < s.len() {
        lemma_line_end_from(s, i);
    }
}

/// All the lines of a dump text.
pub open spec fn spec_lines(s: Seq<u8>) -> Seq<Seq<u8>> {
    lines_from(s, 0)
}

/// True when a line holds only whitespace and is skipped.
pub open spec fn blank_line(l: Seq<u8>) -> bool {
    forall|i: int| 0 <= i < l.len() ==> is_ws(l[i])
}

/// Index of the first non-whitespace byte of `l` at or after `i`, or `hi`.
pub open spec fn trim_start_idx(l: Seq<u8>, i: int) -> int
    recommends
        0 <= i <= l.len(),
    decreases l.len() - i when 0 <= i <= l.len()
{
    if i >= l.len() || !is_ws(l[i]) {
        i
    } else {
        trim_start_idx(l, i + 1)
    }
}

/// One past the last non-whitespace byte of `l` below `i`, or `0`.
pub open spec fn trim_end_idx(l: Seq<u8>, i: int) -> int
    recommends
        0 <= i <= l.len(),
    decreases i when 0 <= i <= l.len()
{
    if i <= 0 || !is_ws(l[i - 1]) {
        i
    } else {
        trim_end_idx(l, i - 1)
    }
}

/// A line with surrounding whitespace removed.
pub open spec fn spec_trim(l: Seq<u8>) -> Seq<u8> {
    let a = trim_start_idx(l, 0);
    let b = trim_end_idx(l, l.len() as int);
    if a <= b {
        l.subrange(a, b)
    } else {
        Seq::empty()
    }
}

proof fn lemma_trim_start_idx(l: Seq<u8>, i: int)
    requires
        0 <= i <= l.len(),
    ensures
        i <= trim_start_idx(l, i) <= l.len(),
        forall|j: int| i <= j < trim_start_idx(l, i) ==> is_ws(l[j]),
        trim_start_idx(l, i) < l.len() ==> !is_ws(l[trim_start_idx(l, i)]),
    decreases l.len() - i,
{
    if i < l.len() && is_ws(l[i]) {
        lemma_trim_start_idx(l, i + 1);
    }
}

proof fn lemma_trim_end_idx(l: Seq<u8>, i: int)
    requires
        0 <= i <= l.len(),
    ensures
        0 <= trim_end_idx(l, i) <= i,
        forall|j: int| trim_end_idx(l, i) <= j < i ==> is_ws(l[j]),
        trim_end_idx(l, i) > 0 ==> !is_ws(l[trim_end_idx(l, i) - 1]),
    decreases i,
{
    if i > 0 && is_ws(l[i - 1]) {
        lemma_trim_end_idx(l, i - 1);
    }
}

/// What reading the entry lines `ls[1..n]` yields: every non-blank line's
/// record in order, or the first line failure.
pub open spec fn spec_read_entries(ls: Seq<Seq<u8>>, n: int) -> Result<Seq<EntryView>, DumpErrView>
    decreases n,
{
    if n <= 1 {
        Ok(Seq::empty())
    } else {
        match spec_read_entries(ls, n - 1) {
            Err(e) => Err(e),
            Ok(pre) => if blank_line(ls[n - 1]) {
                Ok(pre)
            } else {
                match spec_decode_line(ls[n - 1]) {
                    Err(e) => Err(DumpErrView::Entry(e)),
                    Ok(ev) => Ok(pre.push(ev)),
                }
            },
        }
    }
}

/// What reading a whole dump text yields: the version header checked, then
/// every entry line read in order.
pub open spec fn spec_read_dump(s: Seq<u8>) -> Result<Seq<EntryView>, DumpErrView> {
    let ls = spec_lines(s);
    if ls.len() == 0 {
        Err(DumpErrView::InvalidVersion(Seq::empty()))
    } else if spec_trim(ls[0]) != spec_version_marker() {
        Err(DumpErrView::InvalidVersion(ls[0]))
    } else {
        spec_read_entries(ls, ls.len() as int)
    }
}

/// An entry line error at line `j` propagates to every longer read.
proof fn lemma_read_entries_err(ls: Seq<Seq<u8>>, j: int, n: int, e: DumpErrView)
    requires
        1 <= j < n,
        spec_read_entries(ls, j) is Ok,
        !blank_line(ls[j]),
        spec_decode_line(ls[j]) is Err,
        e == DumpErrView::Entry(spec_decode_line(ls[j])->Err_0),
    ensures
        spec_read_entries(ls, n) == Err::<Seq<EntryView>, DumpErrView>(e),
    decreases n,
{
    if n > j + 1 {
        lemma_read_entries_err(ls, j, n - 1, e);
    }
}

/// Scans for the first newline byte at or after `from`.
fn find_line_end(bytes: &[u8], from: usize) -> (k: usize)
    requires
        from <= bytes@.len(),
    ensures
        k == line_end_from(bytes@, from as int),
        from <= k <= bytes@.len(),
{
    let ghost s = bytes@;
    let mut k = from;
    while k < bytes.len() && bytes[k] != 0x0a
        invariant
            from <= k <= s.len(),
            s == bytes@,
            forall|j: int| from <= j < k ==> s[j] != 0x0a,
        decreases s.len() - k,
    {
        k += 1;
    }
    proof {
        lemma_line_end_from(s, from as int);
        let e = line_end_from(s, from as int);
        if e < k as int {
            assert(s[e] != 0x0a);
        }
        if (k as int) < e {
            assert(s[k as int] != 0x0a);
        }
    }
    k
}

/// Decides whether the byte range `[a, b)` holds only whitespace.
fn range_is_blank(bytes: &[u8], a: usize, b: usize) -> (r: bool)
    requires
        a <= b <= bytes@.len(),
    ensures
        r == blank_line(bytes@.subrange(a as int, b as int)),
{
    let ghost l = bytes@.subrange(a as int, b as int);
    let mut i = a;
    while i < b
        invariant
            a <= i <= b <= bytes@.len(),
            l == bytes@.subrange(a as int, b as int),
            forall|j: int| 0 <= j < i - a ==> is_ws(l[j]),
        decreases b - i,
    {
        if !is_ws_byte(bytes[i]) {
            proof {
                assert(l[i - a as int] == bytes@[i as int]);
            }
            return false;
        }
        i += 1;
    }
    true
}

/// Finds the trimmed extent of the line `bytes[0..hend]`.
#[verifier::loop_isolation(false)]
fn trim_range(bytes: &[u8], hend: usize) -> (r: (usize, usize))
    requires
        hend <= bytes@.len(),
    ensures
        r.0 <= r.1 <= hend,
        spec_trim(bytes@.subrange(0, hend as int)) == bytes@.subrange(r.0 as int, r.1 as int),
{
    let ghost header = bytes@.subrange(0, hend as int);
    let ghost sb = bytes@;
    let mut a: usize = 0;
    while a < hend && is_ws_byte(bytes[a])
        invariant
            a <= hend,
            forall|j: int| 0 <= j < a ==> is_ws(sb[j]),
        decreases hend - a,
    {
        a += 1;
    }
    let mut b2: usize = hend;
    while b2 > a && is_ws_byte(bytes[b2 - 1])
        invariant
            a <= b2 <= hend,
            forall|j: int| b2 <= j < hend ==> is_ws(sb[j]),
        decreases b2,
    {
        b2 -= 1;
    }
    proof {
        lemma_trim_start_idx(header, 0);
        lemma_trim_end_idx(header, header.len() as int);
        assert forall|j: int| 0 <= j < header.len() implies header[j] == sb[j] by {};
        let ta = trim_start_idx(header, 0);
        let tb = trim_end_idx(header, header.len() as int);
        if a < hend {
            assert(!is_ws(header[a as int]));
            if ta < a as int {
                assert(is_ws(header[ta]));
            }
            assert(ta == a as int);
            assert(b2 > a);
            assert(!is_ws(header[b2 - 1]));
            if tb < b2 as int {
                assert(is_ws(header[tb]));
            }
            if (b2 as int) < tb {
                assert(is_ws(header[tb - 1]));
            }
            assert(tb == b2 as int);
            assert(spec_trim(header) == header.subrange(a as int, b2 as int));
            assert(header.subrange(a as int, b2 as int) =~= sb.subrange(a as int, b2 as int));
        } else {
            assert(a == hend && b2 == hend);
            if ta < header.len() {
                assert(is_ws(header[ta]));
            }
            assert(ta == header.len());
            if tb > 0 {
                assert(!is_ws(header[tb - 1]));
            }
            assert(tb == 0);
            if header.len() == 0 {
                assert(spec_trim(header) =~= Seq::<u8>::empty());
            }
            assert(sb.subrange(a as int, b2 as int) =~= Seq::<u8>::empty());
            assert(spec_trim(header) =~= sb.subrange(a as int, b2 as int));
        }
    }
    (a, b2)
}

/// Decides whether `bytes[a..b]` is exactly the version marker.
#[verifier::loop_isolation(false)]
fn range_is_marker(bytes: &[u8], a: usize, b: usize) -> (r: bool)
    requires
        a <= b <= bytes@.len(),
    ensures
        r == (bytes@.subrange(a as int, b as int) == spec_version_marker()),
{
    let ghost sb = bytes@;
    let marker = "elevdump version 2";
    let mbytes = marker.as_bytes();
    if b - a != mbytes.len() {
        proof {
            assert(sb.subrange(a as int, b as int).len() != spec_version_marker().len());
        }
        return false;
    }
    let mut i: usize = 0;
    while i < mbytes.len()
        invariant
            i <= mbytes@.len(),
            b - a == mbytes@.len(),
            forall|j: int| 0 <= j < i ==> sb[a + j] == mbytes@[j],
        decreases mbytes@.len() - i,
    {
        if bytes[a + i] != mbytes[i] {
            proof {
                if sb.subrange(a as int, b as int) == mbytes@ {
                    assert(sb.subrange(a as int, b as int)[i as int] == sb[a + i]);
                }
            }
            return false;
        }
        i += 1;
    }
    proof {
        assert(sb.subrange(a as int, b as int) =~= mbytes@);
    }
    true
}

/// Copies the first line of `s` (newline and trailing carriage return
/// dropped) into an owned string.
fn first_line_string(s: &str, k: usize, hend: usize) -> (r: String)
    requires
        k == line_end_from(s.spec_bytes(), 0),
        k <= s.spec_bytes().len(),
        hend == if k < s.spec_bytes().len() && k > 0 && s.spec_bytes()[k - 1] == 0x0d {
            (k - 1) as int
        } else {
            k as int
        },
    ensures
        encode_utf8(r@) == s.spec_bytes().subrange(0, hend as int),
{
    let ghost sb = s.spec_bytes();
    let n = s.len();
    proof {
        encode_utf8_valid_utf8(s@);
        lemma_line_end_from(sb, 0);
        if (k as int) < sb.len() {
            is_char_boundary_iff_not_is_continuation_byte(sb, k as int);
        } else {
            is_char_boundary_start_end_of_seq(sb);
        }
    }
    let (first_str, _rest) = s.split_at(k);
    proof {
        valid_utf8_split(sb, k as int);
        assert(first_str.spec_bytes() =~= sb.subrange(0, k as int));
        if hend < k {
            is_char_boundary_iff_not_is_continuation_byte(first_str.spec_bytes(), hend as int);
        }
    }
    let header_str = if hend < k {
        let (h, _cr) = first_str.split_at(hend);
        h
    } else {
        first_str
    };
    let owned = header_str.to_owned();
    proof {
        assert(header_str.spec_bytes() =~= sb.subrange(0, hend as int));
        assert(encode_utf8(owned@) == header_str.spec_bytes());
    }
    owned
}

/// Reads every entry line of `bytes` from byte `start` on, in order,
/// skipping blank lines and stopping at the first decode failure.
#[verifier::loop_isolation(false)]
#[verifier::rlimit(100)]
fn read_entry_lines(bytes: &[u8], start: usize) -> (r: Result<Vec<ElevEntry>, ElevEntryError>)
    requires
        start <= bytes@.len(),
        spec_lines(bytes@).len() >= 1,
        lines_from(bytes@, start as int) =~= spec_lines(bytes@).skip(1),
    ensures
        ({
            let ls = spec_lines(bytes@);
            match r {
                Ok(es) => spec_read_entries(ls, ls.len() as int) == Ok::<
                    Seq<EntryView>,
                    DumpErrView,
                >(es@.map_values(|e: ElevEntry| e@)),
                Err(e) => spec_read_entries(ls, ls.len() as int) == Err::<
                    Seq<EntryView>,
                    DumpErrView,
                >(DumpErrView::Entry(e@)),
            }
        }),
{
    let ghost sb = bytes@;
    let ghost ls = spec_lines(sb);
    let n = bytes.len();
    let mut entries: Vec<ElevEntry> = Vec::new();
    let mut pos: usize = start;
    let ghost mut lidx: int = 1;
    proof {
        assert(entries@.map_values(|e: ElevEntry| e@) =~= Seq::<EntryView>::empty());
    }
    while pos < n
        invariant
            pos <= n,
            1 <= lidx <= ls.len(),
            ls.skip(lidx) =~= lines_from(sb, pos as int),
            spec_read_entries(ls, lidx) == Ok::<Seq<EntryView>, DumpErrView>(
                entries@.map_values(|e: ElevEntry| e@),
            ),
        decreases n - pos,
    {
        let k2 = find_line_end(bytes, pos);
        let hend2 = if k2 < n && k2 > pos && bytes[k2 - 1] == 0x0d {
            k2 - 1
        } else {
            k2
        };
        let ghost line = ls[lidx];
        proof {
            assert(lines_from(sb, pos as int).len() > 0);
            assert(ls.skip(lidx)[0] == ls[lidx]);
            assert(line == line_content(sb, pos as int, k2 as int));
            assert(line =~= sb.subrange(pos as int, hend2 as int));
        }
        if !range_is_blank(bytes, pos, hend2) {
            match ElevEntry::from_line_bytes(&bytes[pos..hend2]) {
                Ok(e) => {
                    let ghost before = entries@;
                    entries.push(e);
                    proof {
                        assert(entries@.map_values(|e2: ElevEntry| e2@) =~= before.map_values(
                            |e2: ElevEntry| e2@).push(e@));
                    }
                },
                Err(err) => {
                    proof {
                        lemma_read_entries_err(
                            ls,
                            lidx,
                            ls.len() as int,
                            DumpErrView::Entry(err@),
                        );
                    }
                    return Err(err);
                },
            }
        }
        proof {
            assert(ls.skip(lidx).drop_first() =~= ls.skip(lidx + 1));
            if k2 == n {
                assert(lines_from(sb, k2 as int + 1) =~= lines_from(sb, n as int));
            }
            lidx = lidx + 1;
            assert(ls.skip(lidx) =~= lines_from(
                sb,
                if k2 < n {
                    k2 as int + 1
                } else {
                    n as int
                },
            ));
        }
        pos = if k2 < n {
            k2 + 1
        } else {
            n
        };
    }
    proof {
        assert(lines_from(sb, pos as int) =~= Seq::<Seq<u8>>::empty());
        assert(ls.skip(lidx).len() == 0);
        assert(lidx == ls.len());
    }
    Ok(entries)
}

impl ElevDump {
    /// Reads a whole dump from in-memory text: the first line must be the
    /// version marker up to surrounding whitespace, then every non-blank
    /// line is decoded as one patch record, in file order.  The first
    /// failing line aborts the read with no partial result.
    #[verifier::loop_isolation(false)]
    #[verifier::rlimit(100)]
    pub fn from_str(s: &str) -> (r: Result<ElevDump, ElevDumpError>)
        ensures
            match r {
                Ok(d) => spec_read_dump(s.spec_bytes()) == Ok::<Seq<EntryView>, DumpErrView>(d@),
                Err(e) => spec_read_dump(s.spec_bytes()) == Err::<Seq<EntryView>, DumpErrView>(
                    e@,
                ),
            },
    {
        let bytes = s.as_bytes();
        let ghost sb = s.spec_bytes();
        let ghost ls = spec_lines(sb);
        let n = bytes.len();
        if n == 0 {
            let empty_line = String::new();
            proof {
                assert(encode_utf8(Seq::<char>::empty()) =~= Seq::<u8>::empty());
            }
            return Err(ElevDumpError::InvalidVersion(empty_line));
        }
        let k = find_line_end(bytes, 0);
        let hend = if k < n && k > 0 && bytes[k - 1] == 0x0d {
            k - 1
        } else {
            k
        };
        let ghost header = ls[0];
        proof {
            assert(header == line_content(sb, 0, k as int));
            assert(header =~= sb.subrange(0, hend as int));
        }
        let (a, b2) = trim_range(bytes, hend);
        let same = range_is_marker(bytes, a, b2);
        if !same {
            let owned = first_line_string(s, k, hend);
            return Err(ElevDumpError::InvalidVersion(owned));
        }

        let pos: usize = if k < n {
            k + 1
        } else {
            n
        };
        proof {
            assert(ls =~= seq![ls[0]] + lines_from(sb, k as int + 1));
            assert(ls.skip(1) =~= lines_from(sb, k as int + 1));
            if k == n {
                assert(lines_from(sb, k as int + 1) =~= lines_from(sb, n as int));
            }
            assert(ls.skip(1) =~= lines_from(sb, pos as int));
        }
        match read_entry_lines(bytes, pos) {
            Ok(entries) => Ok(ElevDump { entries }),
            Err(err) => Err(ElevDumpError::ElevEntryError(err)),
        }
    }
}

} // verus!
